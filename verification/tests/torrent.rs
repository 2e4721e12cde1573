use bittorrent_rust::bencode::{BencodeError, LookupError};
use bittorrent_rust::torrent::{Torrent, TorrentError};

#[test]
fn test_torrent_piece_math() {
    let torrent = Torrent {
        announce: "http://example.com/announce".into(),
        announce_list: vec![],
        info_hash: [0u8; 20],
        info_hash_hex: "".into(),
        piece_length: 256,
        pieces: vec![[0u8; 20]; 4], // 4 pieces
        name: "test.iso".into(),
        length: 800, // 256 + 256 + 256 + 32
    };

    assert_eq!(torrent.num_pieces(), 4);
    assert_eq!(torrent.piece_size(0), 256);
    assert_eq!(torrent.piece_size(1), 256);
    assert_eq!(torrent.piece_size(2), 256);
    assert_eq!(torrent.piece_size(3), 32);

    // Blocks within piece 3 (block_size = 16)
    assert_eq!(torrent.blocks_in_piece(3, 16), 2);
    assert_eq!(torrent.block_size(3, 0, 16), 16);
    assert_eq!(torrent.block_size(3, 1, 16), 16);
}

fn torrent_of(length: usize, piece_length: usize, count: usize) -> Torrent {
    Torrent {
        announce: "http://example.com/announce".into(),
        announce_list: vec![],
        info_hash: [0u8; 20],
        info_hash_hex: "".into(),
        piece_length,
        pieces: vec![[0u8; 20]; count],
        name: "x".into(),
        length,
    }
}

const INFO: &[u8] = b"d6:lengthi3e12:piece lengthi16384e6:pieces20:aaaaaaaaaaaaaaaaaaaae";

fn with_info(info: &[u8]) -> Vec<u8> {
    let mut bytes = b"d8:announce8:http://a4:info".to_vec();
    bytes.extend_from_slice(info);
    bytes.push(b'e');
    bytes
}

fn error_of(bytes: &[u8]) -> TorrentError {
    match Torrent::from_bytes(bytes) {
        Ok(_) => panic!("a torrent was read"),
        Err(e) => e,
    }
}

#[test]
fn a_torrent_is_read() {
    let torrent = Torrent::from_bytes(&with_info(INFO)).unwrap();
    assert_eq!(torrent.announce, "http://a");
    assert_eq!(torrent.announce_list, vec!["http://a".to_string()]);
    assert_eq!(torrent.name, "unnamed_torrent");
    assert_eq!(torrent.length, 3);
    assert_eq!(torrent.piece_length, 16384);
    assert_eq!(torrent.pieces, vec![[b'a'; 20]]);
    assert_eq!(torrent.info_hash_hex, "ed771df917560333a24c82bc314b7783f067ca26");
    assert_eq!(torrent.info_hash_hex.len(), 40);
    assert_eq!(torrent.info_hash[0], u8::from_str_radix(&"ed771df917560333a24c82bc314b7783f067ca26"[..2], 16).unwrap());
}

#[test]
fn the_digest_is_that_of_the_bytes_as_they_stand() {
    // The same dictionary with its keys in another order has another digest.
    let other = b"d12:piece lengthi16384e6:lengthi3e6:pieces20:aaaaaaaaaaaaaaaaaaaae";
    let a = Torrent::from_bytes(&with_info(INFO)).unwrap();
    let b = Torrent::from_bytes(&with_info(other)).unwrap();
    assert_eq!(a.length, b.length);
    assert_eq!(b.info_hash_hex, "ce2eca18f6bb540b891dd450ccbb59c13f4f8834");
    assert_ne!(a.info_hash, b.info_hash);
}

#[test]
fn trackers_come_from_all_tiers() {
    let mut bytes =
        b"d8:announce8:http://a13:announce-listll8:http://b7:udp://cei7el8:http://d2:\xff\xfeee4:info"
            .to_vec();
    bytes.extend_from_slice(INFO);
    bytes.push(b'e');
    let torrent = Torrent::from_bytes(&bytes).unwrap();
    assert_eq!(torrent.announce, "http://a");
    assert_eq!(torrent.announce_list, vec!["http://b", "udp://c", "http://d"]);
}

#[test]
fn files_add_up() {
    let info = b"d5:filesld6:lengthi10eed6:lengthi32eee4:name3:dir12:piece lengthi16e6:pieces0:e";
    let torrent = Torrent::from_bytes(&with_info(info)).unwrap();
    assert_eq!(torrent.length, 42);
    assert_eq!(torrent.name, "dir");
    assert_eq!(torrent.num_pieces(), 0);
}

#[test]
fn each_torrent_error_has_its_input() {
    assert_eq!(error_of(b""), TorrentError::Decode(BencodeError::UnexpectedEnd));
    assert_eq!(error_of(b"le"), TorrentError::RootNotDict);
    assert_eq!(error_of(b"de"), TorrentError::MissingAnnounce);
    assert_eq!(error_of(b"d8:announcei1ee"), TorrentError::MissingAnnounce);
    assert_eq!(
        error_of(b"d8:announce1:ae"),
        TorrentError::RawInfo(LookupError::NotFound)
    );
    assert_eq!(error_of(&with_info(b"i1e")), TorrentError::InfoNotDict);
    assert_eq!(error_of(&with_info(b"de")), TorrentError::MissingPieceLength);
    assert_eq!(
        error_of(&with_info(b"d12:piece lengthi1ee")),
        TorrentError::MissingPieces
    );
    assert_eq!(
        error_of(&with_info(b"d12:piece lengthi1e6:piecesi1ee")),
        TorrentError::MissingPieces
    );
    assert_eq!(
        error_of(&with_info(b"d12:piece lengthi1e6:pieces3:abce")),
        TorrentError::InvalidPieces
    );
    assert_eq!(
        error_of(&with_info(b"d12:piece lengthi1e6:pieces0:e")),
        TorrentError::MissingLength
    );
    assert_eq!(
        error_of(&with_info(b"d5:filesli1ee12:piece lengthi1e6:pieces0:e")),
        TorrentError::FileNotDict
    );
    assert_eq!(
        error_of(&with_info(b"d5:filesldee12:piece lengthi1e6:pieces0:e")),
        TorrentError::MissingFileLength
    );
    assert_eq!(
        error_of(&with_info(
            b"d5:filesld6:lengthi-1eed6:lengthi1eee12:piece lengthi1e6:pieces0:e"
        )),
        TorrentError::LengthOverflow
    );
    assert_eq!(error_of(b"de").to_string(), "Missing 'announce' URL");
    assert_eq!(error_of(b"de").cause(), None);
    assert_eq!(error_of(b"").to_string(), "Failed to parse bencode data");
    assert_eq!(error_of(b"").cause(), Some("Unexpected end of data".to_string()));
    let raw = error_of(b"d8:announce1:ae");
    assert_eq!(
        raw.to_string(),
        "Failed to locate raw 'info' dictionary in torrent file"
    );
    assert_eq!(raw.cause(), Some("Key not found in dictionary".to_string()));
}

#[test]
fn the_root_given_to_a_digest_may_lack_its_info() {
    let root = bittorrent_rust::bencode::BencodeDict::new();
    let r = Torrent::with_info_hash(&root, "a".to_string(), vec![], [0; 20]);
    assert_eq!(r.err(), Some(TorrentError::MissingInfo));
}

#[test]
fn the_last_piece_is_whole_if_nothing_is_left_over() {
    let torrent = torrent_of(512, 256, 2);
    assert_eq!(torrent.piece_size(1), 256);
    assert_eq!(torrent.piece_size(2), 0);
}

#[test]
fn pieces_add_up_to_the_content() {
    for (length, piece_length, count) in [(800usize, 256usize, 4usize), (512, 256, 2), (1, 256, 1)] {
        let torrent = torrent_of(length, piece_length, count);
        let total: usize = (0..count).map(|i| torrent.piece_size(i)).sum();
        assert_eq!(total, length);
    }
}

#[test]
fn blocks_add_up_to_the_piece() {
    for length in [1usize, 15, 16, 17, 31, 32, 33, 100] {
        let torrent = torrent_of(length, 100, 1);
        let count = torrent.blocks_in_piece(0, 16);
        let total: usize = (0..count).map(|i| torrent.block_size(0, i, 16)).sum();
        assert_eq!(total, torrent.piece_size(0));
        assert_eq!(torrent.block_size(0, count, 16), 0);
    }
    assert_eq!(torrent_of(100, 100, 1).block_size(0, 6, 16), 4);
    assert_eq!(torrent_of(100, 100, 1).blocks_in_piece(0, 16), 7);
}
