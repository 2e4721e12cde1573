use bittorrent_rust::bencode::BencodeError;
use bittorrent_rust::tracker::address::parse_ipv4;
use bittorrent_rust::tracker::response::parse_compact_peers;
use bittorrent_rust::tracker::udp::{
    announce_request, connect_request, parse_announce_reply, parse_connect_reply, udp_address,
    udp_endpoint, Awaited, EndpointError, UdpAnnounce, UdpError, UdpStep,
};
use bittorrent_rust::tracker::{
    announce_url, generate_peer_id, parse_response, peer_id_with, tracker_kind, urlencode_binary,
    PeerAddr, PeerSearch, ResponseError, TrackerKind, TrackerResponse,
};

#[test]
fn test_peer_id_generation() {
    let id1 = generate_peer_id();
    let id2 = generate_peer_id();
    assert_eq!(&id1[..8], b"-RS0001-");
    assert_ne!(id1, id2);
}

#[test]
fn test_urlencode_binary() {
    let hash = [0x12, 0x34, 0x56, 0x78, 0x9a, 0xbc, 0xde, 0xf0, 0x12, 0x34, 0x56, 0x78, 0x9a, 0xbc, 0xde, 0xf0, 0x12, 0x34, 0x56, 0x78];
    let encoded = urlencode_binary(&hash);
    assert!(encoded.contains("%12"));
    assert!(encoded.contains("%9A") || encoded.contains("%9a"));
}

const HERE: PeerAddr = PeerAddr { ip: 0x7f00_0001, port: 6881 };
const THERE: PeerAddr = PeerAddr { ip: 0x0a00_0002, port: 80 };

#[test]
fn peer_ids_end_with_characters_from_0_to_z() {
    for _ in 0..20 {
        let id = generate_peer_id();
        assert!(id[8..].iter().all(|b| (b'0'..=b'z').contains(b)));
    }
    assert_eq!(&peer_id_with(*b"abcdefghijkl"), b"-RS0001-abcdefghijkl");
}

#[test]
fn unreserved_bytes_stand_for_themselves() {
    assert_eq!(urlencode_binary(b"azAZ09-_.~"), "azAZ09-_.~");
    assert_eq!(urlencode_binary(b" /\x00\xff+"), "%20%2F%00%FF%2B");
    assert_eq!(urlencode_binary(b""), "");
}

#[test]
fn every_byte_can_be_read_back_from_a_query() {
    let all: Vec<u8> = (0..=255).collect();
    let encoded = urlencode_binary(&all);
    let mut read = Vec::new();
    let chars: Vec<char> = encoded.chars().collect();
    let mut i = 0;
    while i < chars.len() {
        if chars[i] == '%' {
            let hex: String = chars[i + 1..i + 3].iter().collect();
            read.push(u8::from_str_radix(&hex, 16).unwrap());
            i += 3;
        } else {
            read.push(chars[i] as u8);
            i += 1;
        }
    }
    assert_eq!(read, all);
}

#[test]
fn the_announce_url_carries_the_torrent() {
    assert_eq!(
        announce_url("http://t/announce", &[0x20; 20], b"-RS0001-abcdefghijkl", 6881, 800),
        format!(
            "http://t/announce?info_hash={}&peer_id=-RS0001-abcdefghijkl&port=6881&uploaded=0&downloaded=0&left=800&compact=1",
            "%20".repeat(20)
        )
    );
    assert!(announce_url("http://t/a?key=1", &[b'a'; 20], &[b'b'; 20], 1, 0)
        .starts_with("http://t/a?key=1&info_hash=aaaaaaaaaaaaaaaaaaaa&peer_id=bbbb"));
}

#[test]
fn addresses_are_read() {
    assert_eq!(parse_ipv4(b"127.0.0.1"), Some(0x7f00_0001));
    assert_eq!(parse_ipv4(b"0.0.0.0"), Some(0));
    assert_eq!(parse_ipv4(b"255.255.255.255"), Some(u32::MAX));
    for bad in [
        "", "1", "1.2.3", "1.2.3.4.5", "1.2.3.", ".1.2.3", "1..2.3", "256.1.1.1", "01.2.3.4",
        "1.2.3.00", "1.2.3.4 ", "a.b.c.d", "1.2.3.1000", "::1", "-1.2.3.4",
    ] {
        assert_eq!(parse_ipv4(bad.as_bytes()), None, "{}", bad);
    }
    for ip in [1u32, 0x0102_0304, 0xc0a8_0a64, 0x0909_6363] {
        let b = ip.to_be_bytes();
        let text = format!("{}.{}.{}.{}", b[0], b[1], b[2], b[3]);
        assert_eq!(parse_ipv4(text.as_bytes()), Some(ip));
    }
}

#[test]
fn compact_peers_have_six_bytes_each() {
    let bytes = [127, 0, 0, 1, 0x1a, 0xe1, 10, 0, 0, 2, 0, 80, 1, 2, 3];
    assert_eq!(parse_compact_peers(&bytes), vec![HERE, THERE]);
    assert_eq!(parse_compact_peers(&bytes[..5]), vec![]);
}

#[test]
fn a_compact_answer_is_read() {
    let body = b"d8:intervali1800e5:peers12:\x7f\x00\x00\x01\x1a\xe1\x0a\x00\x00\x02\x00\x50e";
    assert_eq!(
        parse_response(body),
        Ok(TrackerResponse { interval: 1800, peers: vec![HERE, THERE] })
    );
}

#[test]
fn an_answer_with_dictionaries_is_read() {
    // A port of 65616 is cut to 16 bits; what describes no peer is passed over.
    let body = b"d5:peersld2:ip9:127.0.0.14:porti6881eed2:ip8:10.0.0.24:porti65616eei5ed2:ip3:::14:porti1eed4:porti1eed2:ip7:1.2.3.4eee";
    assert_eq!(
        parse_response(body),
        Ok(TrackerResponse { interval: 900, peers: vec![HERE, THERE] })
    );
    assert_eq!(
        parse_response(b"d8:intervali5ee"),
        Ok(TrackerResponse { interval: 5, peers: vec![] })
    );
    assert_eq!(
        parse_response(b"d5:peersi5ee"),
        Ok(TrackerResponse { interval: 900, peers: vec![] })
    );
}

#[test]
fn each_refusal_has_its_input() {
    assert_eq!(
        parse_response(b""),
        Err(ResponseError::Decode(BencodeError::UnexpectedEnd))
    );
    assert_eq!(parse_response(b"i1e"), Err(ResponseError::NotADict));
    let refused = parse_response(b"d14:failure reason6:banned5:peers0:e").unwrap_err();
    assert_eq!(refused, ResponseError::Failure("banned".to_string()));
    assert_eq!(refused.to_string(), "Tracker responded with failure: banned");
    let garbled = parse_response(b"").unwrap_err();
    assert_eq!(garbled.to_string(), "Failed to parse tracker bencode response");
    assert_eq!(garbled.cause(), Some("Unexpected end of data".to_string()));
    assert_eq!(refused.cause(), None);
    assert_eq!(
        parse_response(b"le").unwrap_err().to_string(),
        "Tracker response is not a dict"
    );
}

#[test]
fn the_endpoint_is_the_host_and_the_port() {
    assert_eq!(
        udp_endpoint("udp://tracker.example.org:6969/announce"),
        Ok("tracker.example.org:6969".to_string())
    );
    assert_eq!(udp_endpoint("udp://10.0.0.1"), Ok("10.0.0.1:80".to_string()));
    assert_eq!(udp_endpoint("udp:nothing"), Err(EndpointError::NoHost));
    for bad in ["no url", "udp://h:99999", "udp://[::", ""] {
        let reason = url::Url::parse(bad).unwrap_err().to_string();
        let e = udp_endpoint(bad).unwrap_err();
        assert_eq!(e, EndpointError::InvalidUrl(reason.clone()));
        assert_eq!(e.to_string(), reason);
    }
    assert_eq!(udp_endpoint("no url").unwrap_err().to_string(), "relative URL without a base");
    assert_eq!(EndpointError::NoHost.to_string(), "No host in UDP tracker URL");
    assert_eq!(udp_address(Some("h".to_string()), Some(7)), Ok("h:7".to_string()));
    assert_eq!(udp_address(Some("h".to_string()), None), Ok("h:80".to_string()));
    assert_eq!(udp_address(None, Some(7)), Err(EndpointError::NoHost));
}

#[test]
fn a_connect_request_has_sixteen_bytes() {
    assert_eq!(
        connect_request(0x0102_0304),
        vec![0, 0, 4, 0x17, 0x27, 0x10, 0x19, 0x80, 0, 0, 0, 0, 1, 2, 3, 4]
    );
    // Chance gives different transaction numbers.
    let (_, request) = UdpAnnounce::begin([3; 20], [4; 20], 800, 6881);
    assert_eq!(request[..12], connect_request(0)[..12]);
    assert!((0..8).any(|_| UdpAnnounce::begin([3; 20], [4; 20], 800, 6881).1 != request));
}

#[test]
fn an_announce_request_has_98_bytes() {
    let request = announce_request(&[1; 8], 2, &[3; 20], &[4; 20], 800, 5, 6881);
    let mut expected = vec![1; 8];
    expected.extend_from_slice(&[0, 0, 0, 1, 0, 0, 0, 2]);
    expected.extend_from_slice(&[3; 20]);
    expected.extend_from_slice(&[4; 20]);
    expected.extend_from_slice(&0u64.to_be_bytes());
    expected.extend_from_slice(&800u64.to_be_bytes());
    expected.extend_from_slice(&[0; 16]);
    expected.extend_from_slice(&5u32.to_be_bytes());
    expected.extend_from_slice(&(-1i32).to_be_bytes());
    expected.extend_from_slice(&6881u16.to_be_bytes());
    assert_eq!(request, expected);
    assert_eq!(request.len(), 98);
}

#[test]
fn an_exchange_connects_and_announces() {
    let (mut exchange, request) = UdpAnnounce::begin_with([3; 20], [4; 20], 800, 6881, 9);
    assert_eq!(request, connect_request(9));
    assert_eq!(exchange.awaited(), Awaited::Connection { transaction: 9 });

    // A reply that is refused changes nothing.
    assert_eq!(exchange.receive(&[0; 16]), Err(UdpError::InvalidConnect));
    assert_eq!(exchange.receive(&[0; 3]), Err(UdpError::ConnectTooShort));
    assert_eq!(exchange.awaited(), Awaited::Connection { transaction: 9 });

    let mut reply = vec![0, 0, 0, 0, 0, 0, 0, 9];
    reply.extend_from_slice(&[1; 8]);
    assert_eq!(
        exchange.receive_with(&reply, 10, 11),
        Ok(UdpStep::Send(announce_request(&[1; 8], 10, &[3; 20], &[4; 20], 800, 11, 6881)))
    );
    assert_eq!(exchange.awaited(), Awaited::Peers { transaction: 10 });

    let mut reply = vec![0, 0, 0, 1, 0, 0, 0, 10];
    reply.extend_from_slice(&1800u32.to_be_bytes());
    reply.extend_from_slice(&[0; 8]);
    reply.extend_from_slice(&[127, 0, 0, 1, 0x1a, 0xe1]);
    assert_eq!(
        exchange.receive(&reply),
        Ok(UdpStep::Done(TrackerResponse { interval: 1800, peers: vec![HERE] }))
    );
}

#[test]
fn chance_fills_the_announce_request() {
    let mut reply = vec![0, 0, 0, 0, 0, 0, 0, 9];
    reply.extend_from_slice(&[1; 8]);
    let (mut exchange, _) = UdpAnnounce::begin_with([3; 20], [4; 20], 800, 6881, 9);
    let request = match exchange.receive(&reply) {
        Ok(UdpStep::Send(bytes)) => bytes,
        other => panic!("{:?}", other),
    };
    let transaction = u32::from_be_bytes([request[12], request[13], request[14], request[15]]);
    let key = u32::from_be_bytes([request[88], request[89], request[90], request[91]]);
    assert_eq!(exchange.awaited(), Awaited::Peers { transaction });
    assert_eq!(
        request,
        announce_request(&[1; 8], transaction, &[3; 20], &[4; 20], 800, key, 6881)
    );
}

#[test]
fn replies_are_for_one_request() {
    let mut reply = vec![0, 0, 0, 0, 0, 0, 0, 9];
    reply.extend_from_slice(&[1, 2, 3, 4, 5, 6, 7, 8]);
    assert_eq!(parse_connect_reply(&reply, 9), Ok([1, 2, 3, 4, 5, 6, 7, 8]));
    assert_eq!(parse_connect_reply(&reply, 8), Err(UdpError::InvalidConnect));
    assert_eq!(parse_connect_reply(&reply[..15], 9), Err(UdpError::ConnectTooShort));
    reply[3] = 3;
    assert_eq!(parse_connect_reply(&reply, 9), Err(UdpError::InvalidConnect));
}

#[test]
fn an_announce_reply_is_read() {
    let mut reply = vec![0, 0, 0, 1, 0, 0, 0, 9];
    reply.extend_from_slice(&1800u32.to_be_bytes());
    reply.extend_from_slice(&[0; 8]);
    assert_eq!(
        parse_announce_reply(&reply, 9),
        Ok(TrackerResponse { interval: 1800, peers: vec![] })
    );
    reply.extend_from_slice(&[127, 0, 0, 1, 0x1a, 0xe1, 10]);
    assert_eq!(
        parse_announce_reply(&reply, 9),
        Ok(TrackerResponse { interval: 1800, peers: vec![HERE] })
    );
    assert_eq!(parse_announce_reply(&reply, 10), Err(UdpError::InvalidAnnounce));
    assert_eq!(parse_announce_reply(&reply[..19], 9), Err(UdpError::AnnounceTooShort));
    reply[3] = 0;
    assert_eq!(parse_announce_reply(&reply, 9), Err(UdpError::InvalidAnnounce));
    assert_eq!(UdpError::InvalidConnect.to_string(), "Invalid UDP connect response");
}

#[test]
fn the_scheme_tells_how_a_tracker_is_asked() {
    assert_eq!(tracker_kind("http://a"), Some(TrackerKind::Http));
    assert_eq!(tracker_kind("https://a"), Some(TrackerKind::Http));
    assert_eq!(tracker_kind("udp://a"), Some(TrackerKind::Udp));
    assert_eq!(tracker_kind("wss://a"), None);
    assert_eq!(tracker_kind("HTTP://a"), None);
    assert_eq!(tracker_kind("http:/"), None);
    assert_eq!(tracker_kind(""), None);
}

#[test]
fn a_search_passes_over_unknown_trackers_and_stops_at_peers() {
    let urls: Vec<String> = ["wss://a", "udp://b", "ftp://c", "http://d", "udp://e"]
        .iter()
        .map(|s| s.to_string())
        .collect();
    let mut search: PeerSearch<&str> = PeerSearch::new();
    assert_eq!(search.next_tracker(&urls), Some((1, TrackerKind::Udp)));
    search.failed("timed out");
    assert_eq!(search.next_tracker(&urls), Some((3, TrackerKind::Http)));
    search.found(&[HERE, THERE, HERE]);
    assert_eq!(search.next_tracker(&urls), None);
    assert_eq!(search.finish(), Ok(vec![HERE, THERE]));
}

#[test]
fn a_search_without_peers_gives_the_last_error() {
    let urls: Vec<String> = vec!["udp://a".to_string(), "udp://b".to_string(), "udp://c".to_string()];
    let mut search: PeerSearch<&str> = PeerSearch::new();
    search.next_tracker(&urls);
    search.failed("first");
    search.next_tracker(&urls);
    search.failed("second");
    search.next_tracker(&urls);
    search.found(&[]);
    assert_eq!(search.next_tracker(&urls), None);
    assert_eq!(search.finish(), Err(Some("second")));

    let mut none: PeerSearch<&str> = PeerSearch::new();
    assert_eq!(none.next_tracker(&[]), None);
    assert_eq!(none.finish(), Err(None));
}

#[test]
fn byte_strings_stand_in_a_query_part_by_part() {
    let whole = b"a b/\xff~c";
    for k in 0..=whole.len() {
        let (a, b) = whole.split_at(k);
        assert_eq!(urlencode_binary(whole), urlencode_binary(a) + &urlencode_binary(b));
    }
}
