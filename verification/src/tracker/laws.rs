//! What trackers are sent and what they answer, byte by byte and entry by entry.

use vstd::prelude::*;
use crate::bencode::grammar;
use crate::bencode::model::{self, Bencode};
use crate::decimal;
use crate::endian;
use crate::text;
use super::address::{self, PeerAddr};
use super::query;
use super::response::{self, Answer, Refusal, ResponseError, TrackerResponse};
use super::search::{self, Search, TrackerKind};
use super::udp::{self, Awaited, BadEndpoint, Exchange, UdpError, UdpStep};

verus! {

/// The bytes in which a tracker names peers.
pub open spec fn peers_bytes(peers: Seq<PeerAddr>) -> Seq<u8>
    decreases peers.len(),
{
    if peers.len() == 0 {
        Seq::empty()
    } else {
        peers_bytes(peers.drop_last()) + endian::be32(peers.last().ip) + endian::be16(
            peers.last().port,
        )
    }
}

proof fn lemma_peers_bytes(peers: Seq<PeerAddr>, rest: Seq<u8>, i: int)
    requires
        0 <= i < peers.len(),
    ensures
        peers_bytes(peers).len() == 6 * peers.len(),
        endian::be32_at(peers_bytes(peers) + rest, 6 * i) == peers[i].ip,
        endian::be16_at(peers_bytes(peers) + rest, 6 * i + 4) == peers[i].port,
    decreases peers.len(),
{
    let before = peers.drop_last();
    let last = peers.last();
    let tail = endian::be32(last.ip) + endian::be16(last.port);
    if before.len() > 0 {
        lemma_peers_bytes(before, tail + rest, if i < before.len() {
            i
        } else {
            0
        });
    }
    let s = peers_bytes(peers) + rest;
    assert(s =~= peers_bytes(before) + (tail + rest));
    if i == before.len() {
        endian::law_be32_reads_back(last.ip);
        endian::law_be16_reads_back(last.port);
        let at = 6 * i;
        assert(s[at] == tail[0] && s[at + 1] == tail[1] && s[at + 2] == tail[2] && s[at + 3]
            == tail[3] && s[at + 4] == tail[4] && s[at + 5] == tail[5]);
    } else {
        assert(before[i] == peers[i]);
    }
}

/// All peers that a tracker names are read, each as it was named and in the same order. Up to five
/// bytes that are left over do not count.
pub proof fn law_peers_read_back(peers: Seq<PeerAddr>, rest: Seq<u8>)
    requires
        rest.len() < 6,
    ensures
        response::compact_peers(peers_bytes(peers) + rest) == peers,
{
    let s = peers_bytes(peers) + rest;
    if peers.len() > 0 {
        lemma_peers_bytes(peers, rest, 0);
    }
    assert(s.len() / 6 == peers.len());
    assert forall|i: int| 0 <= i < peers.len() implies #[trigger] response::compact_peers(s)[i]
        == peers[i] by {
        lemma_peers_bytes(peers, rest, i);
    }
    assert(response::compact_peers(s) =~= peers);
}

/// There is a peer for each six bytes: the address in the first four, the port in the other two.
pub proof fn law_six_bytes_make_a_peer(s: Seq<u8>, i: int)
    ensures
        response::compact_peers(s).len() == s.len() / 6,
        0 <= i < s.len() / 6 ==> {
            let p = response::compact_peers(s)[i];
            &&& p.ip == s[6 * i] * 0x100_0000 + s[6 * i + 1] * 0x1_0000 + s[6 * i + 2] * 0x100 + s[6
                * i + 3]
            &&& p.port == s[6 * i + 4] * 0x100 + s[6 * i + 5]
        },
{
}

/// A reply to an announce request reads back: the interval and all peers, whatever the numbers of
/// leechers and seeders.
pub proof fn law_announce_reply_reads_back(
    transaction: u32,
    interval: u32,
    leechers: u32,
    seeders: u32,
    peers: Seq<PeerAddr>,
    rest: Seq<u8>,
)
    requires
        rest.len() < 6,
    ensures
        udp::announcement_in(
            endian::be32(1) + endian::be32(transaction) + endian::be32(interval) + endian::be32(
                leechers,
            ) + endian::be32(seeders) + peers_bytes(peers) + rest,
            transaction,
        ) == Ok::<Answer, UdpError>(Answer { interval: interval as usize, peers }),
{
    let s = endian::be32(1) + endian::be32(transaction) + endian::be32(interval) + endian::be32(
        leechers,
    ) + endian::be32(seeders) + peers_bytes(peers) + rest;
    endian::law_be32_reads_back(1);
    endian::law_be32_reads_back(transaction);
    endian::law_be32_reads_back(interval);
    assert(s.skip(20) =~= peers_bytes(peers) + rest);
    law_peers_read_back(peers, rest);
    assert(endian::be32_at(s, 0) == 1);
    assert(endian::be32_at(s, 4) == transaction);
    assert(endian::be32_at(s, 8) == interval);
}

/// A reply to an announce request is accepted exactly if it has twenty bytes, the number of an
/// announcement and the transaction number. It then gives the interval, and a peer for each six
/// bytes after the first twenty.
pub proof fn law_announce_replies(s: Seq<u8>, transaction: u32, i: int)
    ensures
        s.len() < 20 ==> udp::announcement_in(s, transaction) == Err::<Answer, UdpError>(
            UdpError::AnnounceTooShort,
        ),
        s.len() >= 20 && (endian::be32_at(s, 0) != 1 || endian::be32_at(s, 4) != transaction)
            ==> udp::announcement_in(s, transaction) == Err::<Answer, UdpError>(
            UdpError::InvalidAnnounce,
        ),
        s.len() >= 20 && endian::be32_at(s, 0) == 1 && endian::be32_at(s, 4) == transaction ==> {
            &&& udp::announcement_in(s, transaction) is Ok
            &&& udp::announcement_in(s, transaction)->Ok_0.interval == endian::be32_at(s, 8)
            &&& udp::announcement_in(s, transaction)->Ok_0.peers.len() == (s.len() - 20) / 6
            &&& 0 <= i < (s.len() - 20) / 6 ==> {
                let p = udp::announcement_in(s, transaction)->Ok_0.peers[i];
                &&& p.ip == endian::be32_at(s, 20 + 6 * i)
                &&& p.port == endian::be16_at(s, 24 + 6 * i)
            }
        },
{
    if s.len() >= 20 && 0 <= i < (s.len() - 20) / 6 {
        let t = s.skip(20);
        let at = 6 * i;
        assert(t[at] == s[20 + at] && t[at + 1] == s[21 + at] && t[at + 2] == s[22 + at]);
        assert(t[at + 3] == s[23 + at] && t[at + 4] == s[24 + at] && t[at + 5] == s[25 + at]);
    }
}

/// A reply to a connect request is accepted exactly if it has sixteen bytes, the number of a
/// connection and the transaction number. The connection is the eight bytes after these.
pub proof fn law_connect_replies(s: Seq<u8>, transaction: u32)
    ensures
        udp::connection_in(s, transaction) == if s.len() < 16 {
            Err::<Seq<u8>, UdpError>(UdpError::ConnectTooShort)
        } else if s.take(4) == seq![0u8, 0, 0, 0] && endian::be32_at(s, 4) == transaction {
            Ok(s.subrange(8, 16))
        } else {
            Err(UdpError::InvalidConnect)
        },
{
    if s.len() >= 16 {
        let head = s.take(4);
        if head == seq![0u8, 0, 0, 0] {
            assert(head[0] == 0 && head[1] == 0 && head[2] == 0 && head[3] == 0);
        }
        if endian::be32_at(s, 0) == 0 {
            assert(s[0] == 0 && s[1] == 0 && s[2] == 0 && s[3] == 0);
            assert(head =~= seq![0u8, 0, 0, 0]);
        }
    }
}

/// A connect request is the number of the protocol, four bytes of zero and the transaction number.
pub proof fn law_connect_request_layout(transaction: u32)
    ensures
        ({
            let s = udp::connect_bytes(transaction);
            &&& s.len() == 16
            &&& s.take(12) == seq![0u8, 0, 0x04, 0x17, 0x27, 0x10, 0x19, 0x80, 0, 0, 0, 0]
            &&& endian::be32_at(s, 12) == transaction
        }),
{
    let s = udp::connect_bytes(transaction);
    endian::law_be32_reads_back(transaction);
    assert(udp::PROTOCOL_ID / 0x1_0000_0000 == 0x417);
    assert(udp::PROTOCOL_ID % 0x1_0000_0000 == 0x2710_1980);
    assert(s.take(12) =~= seq![0u8, 0, 0x04, 0x17, 0x27, 0x10, 0x19, 0x80, 0, 0, 0, 0]);
}

/// An announce request has its parts in their places: the connection, the number of an
/// announcement, the transaction number, the digest, the peer, nothing downloaded, what is left,
/// nothing uploaded, no event, no address, the key, no limit on the peers, and the port.
pub proof fn law_announce_request_layout(
    connection: Seq<u8>,
    transaction: u32,
    info_hash: Seq<u8>,
    peer_id: Seq<u8>,
    left: u64,
    key: u32,
    port: u16,
)
    requires
        connection.len() == 8,
        info_hash.len() == 20,
        peer_id.len() == 20,
    ensures
        ({
            let s = udp::announce_bytes(
                connection,
                transaction,
                info_hash,
                peer_id,
                left,
                key,
                port,
            );
            &&& s.len() == 98
            &&& s.subrange(0, 8) == connection
            &&& s.subrange(8, 12) == seq![0u8, 0, 0, 1]
            &&& endian::be32_at(s, 12) == transaction
            &&& s.subrange(16, 36) == info_hash
            &&& s.subrange(36, 56) == peer_id
            &&& s.subrange(56, 64) == seq![0u8, 0, 0, 0, 0, 0, 0, 0]
            &&& endian::be32_at(s, 64) * 0x1_0000_0000 + endian::be32_at(s, 68) == left
            &&& s.subrange(72, 80) == seq![0u8, 0, 0, 0, 0, 0, 0, 0]
            &&& s.subrange(80, 88) == seq![0u8, 0, 0, 0, 0, 0, 0, 0]
            &&& endian::be32_at(s, 88) == key
            &&& s.subrange(92, 96) == seq![255u8, 255, 255, 255]
            &&& endian::be16_at(s, 96) == port
        }),
{
    let s = udp::announce_bytes(connection, transaction, info_hash, peer_id, left, key, port);
    let head = connection + endian::be32(1) + endian::be32(transaction) + info_hash + peer_id;
    let counts = endian::be64(0) + endian::be64(left) + endian::be64(0);
    let tail = endian::be32(0) + endian::be32(0) + endian::be32(key) + endian::be32(u32::MAX)
        + endian::be16(port);
    assert(s =~= head + counts + tail);
    lemma_announce_head(connection, transaction, info_hash, peer_id, counts + tail);
    assert(head + (counts + tail) =~= s);
    lemma_announce_counts(head, left, tail);
    lemma_announce_tail(head + counts, key, port);
}

proof fn lemma_announce_head(
    connection: Seq<u8>,
    transaction: u32,
    info_hash: Seq<u8>,
    peer_id: Seq<u8>,
    rest: Seq<u8>,
)
    requires
        connection.len() == 8,
        info_hash.len() == 20,
        peer_id.len() == 20,
    ensures
        ({
            let head = connection + endian::be32(1) + endian::be32(transaction) + info_hash
                + peer_id;
            let s = head + rest;
            &&& head.len() == 56
            &&& s.subrange(0, 8) == connection
            &&& s.subrange(8, 12) == seq![0u8, 0, 0, 1]
            &&& endian::be32_at(s, 12) == transaction
            &&& s.subrange(16, 36) == info_hash
            &&& s.subrange(36, 56) == peer_id
        }),
{
    let s = connection + endian::be32(1) + endian::be32(transaction) + info_hash + peer_id + rest;
    assert(s.subrange(0, 8) =~= connection);
    assert(s.subrange(8, 12) =~= seq![0u8, 0, 0, 1]);
    assert(s.subrange(12, 16) =~= endian::be32(transaction));
    assert(s.subrange(16, 36) =~= info_hash);
    assert(s.subrange(36, 56) =~= peer_id);
    lemma_number_at(s, 12, transaction);
}

proof fn lemma_announce_counts(head: Seq<u8>, left: u64, rest: Seq<u8>)
    requires
        head.len() == 56,
    ensures
        ({
            let counts = endian::be64(0) + endian::be64(left) + endian::be64(0);
            let s = head + counts + rest;
            &&& counts.len() == 24
            &&& s.subrange(56, 64) == seq![0u8, 0, 0, 0, 0, 0, 0, 0]
            &&& endian::be32_at(s, 64) * 0x1_0000_0000 + endian::be32_at(s, 68) == left
            &&& s.subrange(72, 80) == seq![0u8, 0, 0, 0, 0, 0, 0, 0]
        }),
{
    let high = (left / 0x1_0000_0000) as u32;
    let low = (left % 0x1_0000_0000) as u32;
    let s = head + (endian::be64(0) + endian::be64(left) + endian::be64(0)) + rest;
    assert(s.subrange(56, 64) =~= seq![0u8, 0, 0, 0, 0, 0, 0, 0]);
    assert(s.subrange(64, 68) =~= endian::be32(high));
    assert(s.subrange(68, 72) =~= endian::be32(low));
    assert(s.subrange(72, 80) =~= seq![0u8, 0, 0, 0, 0, 0, 0, 0]);
    lemma_number_at(s, 64, high);
    lemma_number_at(s, 68, low);
}

proof fn lemma_announce_tail(head: Seq<u8>, key: u32, port: u16)
    requires
        head.len() == 80,
    ensures
        ({
            let tail = endian::be32(0) + endian::be32(0) + endian::be32(key) + endian::be32(
                u32::MAX,
            ) + endian::be16(port);
            let s = head + tail;
            &&& s.len() == 98
            &&& s.subrange(80, 88) == seq![0u8, 0, 0, 0, 0, 0, 0, 0]
            &&& endian::be32_at(s, 88) == key
            &&& s.subrange(92, 96) == seq![255u8, 255, 255, 255]
            &&& endian::be16_at(s, 96) == port
        }),
{
    let s = head + (endian::be32(0) + endian::be32(0) + endian::be32(key) + endian::be32(u32::MAX)
        + endian::be16(port));
    assert(s.subrange(80, 88) =~= seq![0u8, 0, 0, 0, 0, 0, 0, 0]);
    assert(s.subrange(88, 92) =~= endian::be32(key));
    assert(s.subrange(92, 96) =~= seq![255u8, 255, 255, 255]);
    lemma_number_at(s, 88, key);
    endian::law_be16_reads_back(port);
}

proof fn lemma_number_at(s: Seq<u8>, from: int, x: u32)
    requires
        0 <= from,
        from + 4 <= s.len(),
        s.subrange(from, from + 4) == endian::be32(x),
    ensures
        endian::be32_at(s, from) == x,
{
    let part = s.subrange(from, from + 4);
    assert(part[0] == s[from] && part[1] == s[from + 1] && part[2] == s[from + 2] && part[3]
        == s[from + 3]);
    endian::law_be32_reads_back(x);
}

/// The address to send to is the host, a colon and the port in decimal, which is 80 where the URL
/// names none. Without a host, or where the text is no URL, there is none.
pub proof fn law_endpoints(host: Seq<char>, port: Option<u16>, reason: Seq<char>)
    ensures
        udp::endpoint_of(Ok((Some(host), port))) is Ok,
        udp::endpoint_of(Ok((Some(host), port)))->Ok_0 == host + seq![':'] + text::ascii_chars(
            decimal::decimal(
                match port {
                    Some(p) => p as nat,
                    None => 80,
                },
            ),
        ),
        udp::endpoint_of(Ok((Some(host), port)))->Ok_0 == udp::endpoint_text(host, port),
        udp::endpoint_of(Ok((None, port))) == Err::<Seq<char>, BadEndpoint>(BadEndpoint::NoHost),
        udp::endpoint_of(Err(reason)) == Err::<Seq<char>, BadEndpoint>(
            BadEndpoint::InvalidUrl(reason),
        ),
{
    reveal_strlit(":");
    assert(":"@ =~= seq![':']);
}

/// What an exchange does with a reply: one that opens the connection is answered with the announce
/// request for it, one that answers the announce request ends the exchange with its peers, and one
/// that is refused changes nothing.
pub proof fn law_exchange(
    before: Exchange,
    reply: Seq<u8>,
    transaction: u32,
    key: u32,
    r: Result<UdpStep, UdpError>,
    after: Exchange,
    sent: u32,
)
    requires
        udp::after_reply(before, reply, transaction, key, r, after),
    ensures
        after.info_hash == before.info_hash && after.peer_id == before.peer_id && after.left
            == before.left && after.port == before.port,
        r is Err ==> after == before,
        before.awaited == (Awaited::Connection { transaction: sent }) ==> {
            &&& r is Ok <==> udp::connection_in(reply, sent) is Ok
            &&& r is Err ==> r->Err_0 == udp::connection_in(reply, sent)->Err_0
            &&& r is Ok ==> after.awaited == (Awaited::Peers { transaction })
            &&& r is Ok ==> (r->Ok_0 matches UdpStep::Send(request) && request@
                == udp::announce_bytes(
                reply.subrange(8, 16),
                transaction,
                before.info_hash,
                before.peer_id,
                before.left as u64,
                key,
                before.port,
            ))
        },
        before.awaited == (Awaited::Peers { transaction: sent }) ==> {
            &&& r is Ok <==> udp::announcement_in(reply, sent) is Ok
            &&& r is Err ==> r->Err_0 == udp::announcement_in(reply, sent)->Err_0
            &&& r is Ok ==> (r->Ok_0 matches UdpStep::Done(response) && response@
                == udp::announcement_in(reply, sent)->Ok_0)
        },
{
    law_connect_replies(reply, sent);
}

/// The text of an address is its four bytes in decimal, with dots between them, and only that text
/// is read as the address.
pub proof fn law_addresses(ip: u32, s: Seq<u8>)
    ensures
        ({
            let a = endian::be32(ip);
            address::dotted(ip) == decimal::decimal(a[0] as nat) + seq![46u8] + decimal::decimal(
                a[1] as nat,
            ) + seq![46u8] + decimal::decimal(a[2] as nat) + seq![46u8] + decimal::decimal(
                a[3] as nat,
            )
        }),
        address::ipv4_of(s) == Some(ip) <==> s == address::dotted(ip),
{
    address::law_address_reads_back(ip);
    if let Some(other) = address::ipv4_of(s) {
        assert(s == address::dotted(other));
    }
}

/// A dictionary describes a peer by the text of an address under `ip` and an integer under `port`,
/// whatever other entries it has. The port is cut to 16 bits.
pub proof fn law_described_peer(d: Seq<(Seq<u8>, Bencode)>, ip: u32, port: i64)
    requires
        model::dict_get(d, vstd::utf8::encode_utf8("ip"@)) == Some(
            Bencode::Bytes(address::dotted(ip)),
        ),
        model::dict_get(d, vstd::utf8::encode_utf8("port"@)) == Some(Bencode::Int(port)),
    ensures
        response::described_peer(Bencode::Dict(d)) == Some(PeerAddr { ip, port: port as u16 }),
{
    address::law_address_reads_back(ip);
}

/// What describes a peer is a dictionary with the text of its address under `ip` and an integer
/// under `port` that is its port when cut to 16 bits.
pub proof fn law_only_described_peers(v: Bencode)
    ensures
        response::described_peer(v) matches Some(peer) ==> {
            &&& v is Dict
            &&& model::dict_get(v->Dict_0, vstd::utf8::encode_utf8("ip"@)) == Some(
                Bencode::Bytes(address::dotted(peer.ip)),
            )
            &&& model::dict_get(v->Dict_0, vstd::utf8::encode_utf8("port"@)) matches Some(
                Bencode::Int(port),
            ) && port as u16 == peer.port
        },
{
    if let Some(peer) = response::described_peer(v) {
        let ip = model::dict_get(v->Dict_0, vstd::utf8::encode_utf8("ip"@))->Some_0->Bytes_0;
        law_addresses(peer.ip, ip);
    }
}

/// Values are looked at one after the other: one that describes a peer adds it at the end, any
/// other one adds nothing.
pub proof fn law_described_peers_in_turn(items: Seq<Bencode>, v: Bencode)
    ensures
        response::described_peers(Seq::empty()) == Seq::<PeerAddr>::empty(),
        response::described_peers(items.push(v)) == match response::described_peer(v) {
            Some(peer) => response::described_peers(items).push(peer),
            None => response::described_peers(items),
        },
{
    assert(items.push(v).drop_last() =~= items);
}

/// Where every item of a list describes a peer, there are as many peers as items, the i-th from
/// the i-th item.
pub proof fn law_every_described_peer_counts(items: Seq<Bencode>, i: int)
    requires
        forall|j: int|
            0 <= j < items.len() ==> response::described_peer(#[trigger] items[j]) is Some,
        0 <= i < items.len(),
    ensures
        response::described_peers(items).len() == items.len(),
        response::described_peers(items)[i] == response::described_peer(items[i])->Some_0,
    decreases items.len(),
{
    let before = items.drop_last();
    let last = items.last();
    assert(items =~= before.push(last));
    law_described_peers_in_turn(before, last);
    assert(last == items[items.len() - 1]);
    if before.len() > 0 {
        assert forall|j: int| 0 <= j < before.len() implies response::described_peer(
            #[trigger] before[j],
        ) is Some by {
            assert(before[j] == items[j]);
        }
        let k = if i < before.len() {
            i
        } else {
            0
        };
        assert(before[k] == items[k]);
        law_every_described_peer_counts(before, k);
    } else {
        assert(before =~= Seq::<Bencode>::empty());
    }
}

/// What an answer holds: a text under `failure reason` refuses, whatever else stands there; the
/// interval is the integer under `interval`, or else 900; the peers are those of the byte string or
/// of the list under `peers`, or else none.
pub proof fn law_answers(s: Seq<u8>, d: Seq<(Seq<u8>, Bencode)>, reason: Seq<char>, n: i64)
    requires
        grammar::decoding(s) == Ok::<Bencode, grammar::BencodeError>(Bencode::Dict(d)),
    ensures
        ({
            let refusing = model::dict_get(d, vstd::utf8::encode_utf8("failure reason"@));
            let interval = model::dict_get(d, vstd::utf8::encode_utf8("interval"@));
            let peers = model::dict_get(d, vstd::utf8::encode_utf8("peers"@));
            let answer = response::answer_in(s);
            &&& refusing == Some(Bencode::Bytes(vstd::utf8::encode_utf8(reason))) ==> answer
                == Err::<Answer, Refusal>(Refusal::Failure(reason))
            &&& answer is Err ==> (answer->Err_0 matches Refusal::Failure(given) && refusing
                == Some(Bencode::Bytes(vstd::utf8::encode_utf8(given))))
            &&& answer is Ok ==> {
                let a = answer->Ok_0;
                &&& interval == Some(Bencode::Int(n)) ==> a.interval == n as usize
                &&& !(interval matches Some(Bencode::Int(_))) ==> a.interval == 900
                &&& peers matches Some(Bencode::Bytes(b)) ==> a.peers == response::compact_peers(b)
                &&& peers matches Some(Bencode::List(items)) ==> a.peers
                    == response::described_peers(items)
                &&& peers matches Some(Bencode::Int(_)) ==> a.peers.len() == 0
                &&& peers matches Some(Bencode::Dict(_)) ==> a.peers.len() == 0
                &&& peers is None ==> a.peers.len() == 0
            }
        }),
{
    let key = vstd::utf8::encode_utf8("failure reason"@);
    model::law_lookups_read_the_entry(d, key, reason, 0);
    if let Some(given) = model::text_at(d, key) {
        model::law_lookups_read_the_entry(d, key, given, 0);
    }
}

/// Bytes that are no bencode, or no dictionary, are refused as such.
pub proof fn law_no_answer(s: Seq<u8>)
    ensures
        grammar::decoding(s) matches Err(e) ==> response::answer_in(s) == Err::<Answer, Refusal>(
            Refusal::Decode(e),
        ),
        grammar::decoding(s) matches Ok(v) ==> !(v is Dict) ==> response::answer_in(s) == Err::<
            Answer,
            Refusal,
        >(Refusal::NotADict),
{
}

/// The models of answers, refusals and bad addresses hold what these hold.
pub proof fn law_answer_models(
    response: TrackerResponse,
    e: ResponseError,
    bad: udp::EndpointError,
)
    ensures
        response@.interval == response.interval,
        response@.peers == response.peers@,
        e matches ResponseError::Decode(c) ==> e@ == Refusal::Decode(c),
        e is NotADict ==> e@ is NotADict,
        e matches ResponseError::Failure(reason) ==> e@ == Refusal::Failure(reason@),
        bad is NoHost ==> bad@ is NoHost,
        bad matches udp::EndpointError::InvalidUrl(reason) ==> bad@ == BadEndpoint::InvalidUrl(
            reason@,
        ),
{
}

/// The characters of the hexadecimal digits.
pub open spec fn upper_digits() -> Seq<char> {
    seq!['0', '1', '2', '3', '4', '5', '6', '7', '8', '9', 'A', 'B', 'C', 'D', 'E', 'F']
}

/// A letter, a digit, or one of `-`, `_`, `.` and `~` stands for itself in a query; any other byte
/// is a percent sign and its two hexadecimal digits, in upper case.
pub proof fn law_single_bytes_in_query(b: u8)
    ensures
        query::bytes_in_query(Seq::empty()) == Seq::<char>::empty(),
        query::bytes_in_query(seq![b]) == if ('a' as int <= b <= 'z' as int) || ('A' as int <= b
            <= 'Z' as int) || ('0' as int <= b <= '9' as int) || b == '-' as int || b == '_' as int
            || b == '.' as int || b == '~' as int {
            seq![b as char]
        } else {
            seq!['%', upper_digits()[(b / 16) as int], upper_digits()[(b % 16) as int]]
        },
{
    assert(seq![b].skip(1) =~= Seq::<u8>::empty());
    assert(query::bytes_in_query(Seq::<u8>::empty()) =~= Seq::<char>::empty());
    assert(query::bytes_in_query(seq![b]) =~= query::byte_in_query(b) + query::bytes_in_query(
        seq![b].skip(1),
    ));
    assert(query::bytes_in_query(seq![b]) =~= query::byte_in_query(b));
    lemma_upper_digit(b / 16);
    lemma_upper_digit(b % 16);
}

proof fn lemma_upper_digit(d: u8)
    requires
        d < 16,
    ensures
        query::hex_upper(d) == upper_digits()[d as int],
{
}

/// The address under which a tracker is asked is its own, then a question mark, or an ampersand
/// where it has a question mark already, then what is asked: the digest, the peer and the port,
/// that nothing was uploaded or downloaded, what is left, and that peers are to be compact.
pub proof fn law_announce_url(
    url: Seq<char>,
    info_hash: Seq<u8>,
    peer_id: Seq<u8>,
    port: nat,
    left: nat,
)
    ensures
        ({
            let asked = "info_hash="@ + query::bytes_in_query(info_hash) + "&peer_id="@
                + query::bytes_in_query(peer_id) + "&port="@ + text::ascii_chars(
                decimal::decimal(port),
            ) + "&uploaded=0&downloaded=0&left="@ + text::ascii_chars(decimal::decimal(left))
                + "&compact=1"@;
            let whole = query::announce_url_text(url, info_hash, peer_id, port, left);
            &&& (forall|i: int| 0 <= i < url.len() ==> url[i] != '?') ==> whole == url + seq!['?']
                + asked
            &&& (exists|i: int| 0 <= i < url.len() && url[i] == '?') ==> whole == url + seq!['&']
                + asked
        }),
{
    let asked = "info_hash="@ + query::bytes_in_query(info_hash) + "&peer_id="@
        + query::bytes_in_query(peer_id) + "&port="@ + text::ascii_chars(decimal::decimal(port))
        + "&uploaded=0&downloaded=0&left="@ + text::ascii_chars(decimal::decimal(left))
        + "&compact=1"@;
    let whole = query::announce_url_text(url, info_hash, peer_id, port, left);
    if exists|i: int| 0 <= i < url.len() && url[i] == '?' {
        assert(url.contains('?'));
        assert(whole =~= url + seq!['&'] + asked);
    } else {
        assert(!url.contains('?'));
        assert(whole =~= url + seq!['?'] + asked);
    }
}

/// The peer ids of this client start with its name and version.
pub proof fn law_peer_id_prefix()
    ensures
        query::peer_id_prefix() == seq![
            '-' as u8,
            'R' as u8,
            'S' as u8,
            '0' as u8,
            '0' as u8,
            '0' as u8,
            '1' as u8,
            '-' as u8,
        ],
{
    assert(query::peer_id_prefix() =~= seq![
        '-' as u8,
        'R' as u8,
        'S' as u8,
        '0' as u8,
        '0' as u8,
        '0' as u8,
        '1' as u8,
        '-' as u8,
    ]);
}

/// A tracker is asked over HTTP if its URL starts with `http://` or `https://`, over UDP if it
/// starts with `udp://`, and otherwise not at all.
pub proof fn law_kinds(rest: Seq<char>, url: Seq<char>)
    ensures
        search::kind_of("http://"@ + rest) == Some(TrackerKind::Http),
        search::kind_of("https://"@ + rest) == Some(TrackerKind::Http),
        search::kind_of("udp://"@ + rest) == Some(TrackerKind::Udp),
        search::kind_of(url) == Some(TrackerKind::Http) ==> (exists|t: Seq<char>|
            url == #[trigger] ("http://"@ + t)) || (exists|t: Seq<char>|
            url == #[trigger] ("https://"@ + t)),
        search::kind_of(url) == Some(TrackerKind::Udp) ==> exists|t: Seq<char>|
            url == #[trigger] ("udp://"@ + t),
{
    reveal_strlit("http://");
    reveal_strlit("https://");
    reveal_strlit("udp://");
    let a = "http://"@;
    let b = "https://"@;
    let c = "udp://"@;
    assert((a + rest).subrange(0, 7) =~= a);
    assert((b + rest).subrange(0, 8) =~= b);
    assert((c + rest).subrange(0, 6) =~= c);
    assert((c + rest)[0] == 'u');
    if a.is_prefix_of(url) {
        assert(url =~= a + url.skip(7));
    }
    if b.is_prefix_of(url) {
        assert(url =~= b + url.skip(8));
    }
    if c.is_prefix_of(url) {
        assert(url =~= c + url.skip(6));
    }
}

/// The next tracker is not before the given one, and can be asked, if there is one.
pub proof fn law_next_tracker_can_be_asked(urls: Seq<Seq<char>>, from: int)
    requires
        0 <= from,
    ensures
        from <= urls.len() ==> from <= search::next_known(urls, from) <= urls.len(),
        from > urls.len() ==> search::next_known(urls, from) == urls.len(),
        search::next_known(urls, from) < urls.len() ==> search::kind_of(
            urls[search::next_known(urls, from)],
        ) is Some,
    decreases urls.len() - from,
{
    if from < urls.len() && search::kind_of(urls[from]) is None {
        law_next_tracker_can_be_asked(urls, from + 1);
    }
}

/// Peers are taken in one after the other: one that is known already adds nothing, any other one
/// stands at the end.
pub proof fn law_merged_in_turn(peers: Seq<PeerAddr>, found: Seq<PeerAddr>, p: PeerAddr)
    ensures
        search::merged(peers, Seq::empty()) == peers,
        search::merged(peers, found.push(p)) == if search::merged(peers, found).contains(p) {
            search::merged(peers, found)
        } else {
            search::merged(peers, found).push(p)
        },
{
    assert(found.push(p).drop_last() =~= found);
}

/// An answer adds its peers and changes nothing else; a failure leaves its error and changes
/// nothing else. A search starts with the first tracker, without peers and without an error.
pub proof fn law_outcomes<E>(state: Search<E>, found: Seq<PeerAddr>, e: E)
    ensures
        search::after(state, Ok(found)).peers == search::merged(state.peers, found),
        search::after(state, Ok(found)).last_error == state.last_error,
        search::after(state, Ok(found)).next == state.next,
        search::after(state, Err(e)).peers == state.peers,
        search::after(state, Err(e)).last_error == Some(e),
        search::after(state, Err(e)).next == state.next,
        search::fresh::<E>().peers.len() == 0,
        search::fresh::<E>().last_error is None,
        search::fresh::<E>().next == 0,
{
}

} // verus!
