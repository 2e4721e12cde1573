//! What a tracker answers over HTTP.

use vstd::prelude::*;
use crate::bencode::grammar;
use crate::bencode::model::{self, Bencode};
use crate::bencode::value;
use crate::bencode::{decode, BencodeError, BencodeValue};
use crate::endian::{self, read_be16, read_be32};
use crate::text;
use super::address::{self, parse_ipv4, PeerAddr};

verus! {

/// What a tracker answers: how many seconds to wait before asking again, and peers.
#[derive(Debug, Clone, PartialEq, Eq)]
pub struct TrackerResponse {
    pub interval: usize,
    pub peers: Vec<PeerAddr>,
}

/// The model of an answer.
#[verifier::ext_equal]
pub struct Answer {
    pub interval: usize,
    pub peers: Seq<PeerAddr>,
}

impl View for TrackerResponse {
    type V = Answer;

    open spec fn view(&self) -> Answer {
        Answer { interval: self.interval, peers: self.peers@ }
    }
}

/// Why there are no peers in what a tracker sent.
#[derive(Debug, Clone, PartialEq, Eq)]
pub enum ResponseError {
    /// The bytes are not bencode.
    Decode(BencodeError),
    /// The answer is not a dictionary.
    NotADict,
    /// The tracker gives a reason why it refuses.
    Failure(String),
}

/// The model of a refusal.
pub enum Refusal {
    Decode(BencodeError),
    NotADict,
    Failure(Seq<char>),
}

impl View for ResponseError {
    type V = Refusal;

    open spec fn view(&self) -> Refusal {
        match *self {
            ResponseError::Decode(e) => Refusal::Decode(e),
            ResponseError::NotADict => Refusal::NotADict,
            ResponseError::Failure(reason) => Refusal::Failure(reason@),
        }
    }
}

/// The peers in a byte string: six bytes for each, four of the address and two of the port. Bytes
/// that are left over at the end do not count.
pub open spec fn compact_peers(s: Seq<u8>) -> Seq<PeerAddr> {
    Seq::new(
        s.len() / 6,
        |i: int|
            PeerAddr { ip: endian::be32_at(s, 6 * i), port: endian::be16_at(s, 6 * i + 4) },
    )
}

/// The peer that a dictionary describes by the text of its address and its port. The port is cut
/// to 16 bits.
pub open spec fn described_peer(v: Bencode) -> Option<PeerAddr> {
    match v {
        Bencode::Dict(d) => match (
            model::dict_get(d, text::bytes_of("ip")),
            model::int_at(d, text::bytes_of("port")),
        ) {
            (Some(Bencode::Bytes(ip)), Some(port)) => match address::ipv4_of(ip) {
                Some(ip) => Some(PeerAddr { ip, port: port as u16 }),
                None => None,
            },
            _ => None,
        },
        _ => None,
    }
}

/// The peers that are described among some values, in order.
pub open spec fn described_peers(items: Seq<Bencode>) -> Seq<PeerAddr>
    decreases items.len(),
{
    if items.len() == 0 {
        Seq::empty()
    } else {
        let rest = described_peers(items.drop_last());
        match described_peer(items.last()) {
            Some(peer) => rest.push(peer),
            None => rest,
        }
    }
}

/// The peers in an answer, in either form.
pub open spec fn peers_under(d: Seq<(Seq<u8>, Bencode)>) -> Seq<PeerAddr> {
    match model::dict_get(d, text::bytes_of("peers")) {
        Some(Bencode::Bytes(b)) => compact_peers(b),
        Some(Bencode::List(items)) => described_peers(items),
        _ => Seq::empty(),
    }
}

/// What a tracker says with the bytes that it sent. A reason to refuse comes before all else; an
/// interval that is not given is fifteen minutes.
pub open spec fn answer_in(s: Seq<u8>) -> Result<Answer, Refusal> {
    match grammar::decoding(s) {
        Err(e) => Err(Refusal::Decode(e)),
        Ok(Bencode::Dict(d)) => match model::text_at(d, text::bytes_of("failure reason")) {
            Some(reason) => Err(Refusal::Failure(reason)),
            None => Ok(
                Answer {
                    interval: match model::int_at(d, text::bytes_of("interval")) {
                        Some(n) => n as usize,
                        None => 900,
                    },
                    peers: peers_under(d),
                },
            ),
        },
        Ok(_) => Err(Refusal::NotADict),
    }
}

/// Each peer in a byte string is the one whose address and port stand in its six bytes.
pub proof fn law_compact_peers_write_back(s: Seq<u8>, i: int)
    requires
        0 <= i < s.len() / 6,
    ensures
        compact_peers(s).len() == s.len() / 6,
        endian::be32(compact_peers(s)[i].ip) + endian::be16(compact_peers(s)[i].port)
            == s.subrange(6 * i, 6 * i + 6),
{
    endian::law_be32_writes_back(s, 6 * i);
    endian::law_be16_writes_back(s, 6 * i + 4);
    assert(s.subrange(6 * i, 6 * i + 6) =~= s.subrange(6 * i, 6 * i + 4) + s.subrange(
        6 * i + 4,
        6 * i + 6,
    ));
}

/// Reads the peers in a byte string.
pub fn parse_compact_peers(bytes: &[u8]) -> (r: Vec<PeerAddr>)
    ensures
        r@ == compact_peers(bytes@),
{
    let mut peers: Vec<PeerAddr> = Vec::new();
    let mut at: usize = 0;
    while bytes.len() - at >= 6
        invariant
            at <= bytes.len(),
            at == 6 * peers@.len(),
            peers@ =~= compact_peers(bytes@).take(peers@.len() as int),
        decreases bytes.len() - at,
    {
        peers.push(PeerAddr { ip: read_be32(bytes, at), port: read_be16(bytes, at + 4) });
        at += 6;
    }
    peers
}

/// Reads the peer that a value describes.
fn parse_described_peer(v: &BencodeValue) -> (r: Option<PeerAddr>)
    ensures
        r == described_peer(v.model()),
{
    let d = match v.as_dict() {
        Some(d) => d,
        None => {
            return None;
        },
    };
    let ip = match d.get("ip".as_bytes()) {
        Some(v) => match v.as_bytes() {
            Some(b) => b,
            None => {
                return None;
            },
        },
        None => {
            return None;
        },
    };
    match (parse_ipv4(ip), d.get_int("port".as_bytes())) {
        (Some(ip), Some(port)) => Some(PeerAddr { ip, port: port as u16 }),
        _ => None,
    }
}

/// Reads the peers that are described among some values.
fn parse_described_peers(items: &[BencodeValue]) -> (r: Vec<PeerAddr>)
    ensures
        r@ == described_peers(value::models(items@)),
{
    let ghost all = value::models(items@);
    let mut peers: Vec<PeerAddr> = Vec::new();
    let mut i: usize = 0;
    assert(all.take(0) =~= Seq::<Bencode>::empty());
    while i < items.len()
        invariant
            i <= items.len(),
            all == value::models(items@),
            peers@ == described_peers(all.take(i as int)),
        decreases items.len() - i,
    {
        proof {
            assert(all.take(i + 1).drop_last() =~= all.take(i as int));
            assert(all.take(i + 1).last() == items@[i as int].model());
        }
        if let Some(peer) = parse_described_peer(&items[i]) {
            peers.push(peer);
        }
        i += 1;
    }
    assert(all.take(i as int) =~= all);
    peers
}

/// Reads what a tracker answers.
pub fn parse_response(body: &[u8]) -> (r: Result<TrackerResponse, ResponseError>)
    ensures
        match (r, answer_in(body@)) {
            (Ok(response), Ok(answer)) => response@ == answer,
            (Err(e), Err(refusal)) => e@ == refusal,
            _ => false,
        },
{
    let decoded = match decode(body) {
        Ok(v) => v,
        Err(e) => {
            return Err(ResponseError::Decode(e));
        },
    };
    let dict = match decoded.as_dict() {
        Some(d) => d,
        None => {
            return Err(ResponseError::NotADict);
        },
    };
    if let Some(reason) = dict.get_text("failure reason".as_bytes()) {
        return Err(ResponseError::Failure(reason.to_owned()));
    }
    let interval = match dict.get_int("interval".as_bytes()) {
        Some(n) => n as usize,
        None => 900,
    };
    let peers = match dict.get("peers".as_bytes()) {
        Some(BencodeValue::ByteString(bytes)) => parse_compact_peers(bytes.as_slice()),
        Some(BencodeValue::List(items)) => parse_described_peers(items.as_slice()),
        _ => Vec::new(),
    };
    Ok(TrackerResponse { interval, peers })
}

} // verus!
