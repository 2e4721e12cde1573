//! The peer wire protocol: handshakes, messages, and what a connection knows of its peer.

pub mod laws;

use vstd::prelude::*;
use vstd::slice::{slice_subrange, slice_to_vec};
use crate::bytes::{push_bytes, same_bytes};
use crate::endian::{self, push_be32, read_be32};
use crate::torrent::twenty_bytes;

verus! {

/// The name of the protocol, `BitTorrent protocol`, which a handshake starts with.
pub const HANDSHAKE_PSTR: &'static [u8; 19] = &[
    66, 105, 116, 84, 111, 114, 114, 101, 110, 116, 32, 112, 114, 111, 116, 111, 99, 111, 108,
];

/// The size of the blocks in which pieces are requested: 16 KiB.
pub const STANDARD_BLOCK_SIZE: usize = 16384;

/// The first message on a connection, in either direction.
#[derive(Debug, Clone, PartialEq, Eq)]
pub struct Handshake {
    pub info_hash: [u8; 20],
    pub peer_id: [u8; 20],
}

/// Why a peer's handshake is not accepted.
#[derive(Debug, Clone, Copy, PartialEq, Eq)]
pub enum HandshakeError {
    /// There are fewer bytes than a handshake has.
    TooShort { length: usize },
    /// The bytes do not start with the name of the protocol.
    InvalidProtocol,
    /// The handshake is for another torrent.
    InfoHashMismatch,
}

/// The 68 bytes of a handshake.
pub open spec fn handshake_bytes(info_hash: Seq<u8>, peer_id: Seq<u8>) -> Seq<u8> {
    seq![19u8] + HANDSHAKE_PSTR@ + seq![0u8, 0, 0, 0, 0, 0, 0, 0] + info_hash
        + peer_id
}

/// The digest and the peer that a handshake names. The reserved bytes do not count.
pub open spec fn handshake_in(s: Seq<u8>) -> Result<(Seq<u8>, Seq<u8>), HandshakeError> {
    if s.len() < 68 {
        Err(HandshakeError::TooShort { length: s.len() as usize })
    } else if s[0] != 19 || s.subrange(1, 20) != HANDSHAKE_PSTR@ {
        Err(HandshakeError::InvalidProtocol)
    } else {
        Ok((s.subrange(28, 48), s.subrange(48, 68)))
    }
}

/// Writes `part` into `buf` at `at`.
fn write_at(buf: &mut [u8; 68], at: usize, part: &[u8])
    requires
        at + part@.len() <= 68,
    ensures
        final(buf)@ == old(buf)@.take(at as int) + part@ + old(buf)@.skip(at + part@.len()),
{
    let mut i: usize = 0;
    while i < part.len()
        invariant
            i <= part.len(),
            at + part@.len() <= 68,
            buf@ =~= old(buf)@.take(at as int) + part@.take(i as int) + old(buf)@.skip(at + i),
        decreases part.len() - i,
    {
        buf[at + i] = part[i];
        i += 1;
    }
}

impl Handshake {
    pub fn new(info_hash: [u8; 20], peer_id: [u8; 20]) -> (r: Self)
        ensures
            r.info_hash == info_hash,
            r.peer_id == peer_id,
    {
        Self { info_hash, peer_id }
    }

    /// The bytes of the handshake.
    pub fn to_bytes(&self) -> (r: [u8; 68])
        ensures
            r@ == handshake_bytes(self.info_hash@, self.peer_id@),
    {
        let mut buf: [u8; 68] = [0; 68];
        buf[0] = 19;
        write_at(&mut buf, 1, HANDSHAKE_PSTR.as_slice());
        write_at(&mut buf, 28, self.info_hash.as_slice());
        write_at(&mut buf, 48, self.peer_id.as_slice());
        assert(buf@ =~= handshake_bytes(self.info_hash@, self.peer_id@));
        buf
    }

    /// Reads a handshake.
    pub fn from_bytes(bytes: &[u8]) -> (r: Result<Self, HandshakeError>)
        ensures
            match (r, handshake_in(bytes@)) {
                (Ok(h), Ok((info_hash, peer_id))) => h.info_hash@ == info_hash && h.peer_id@
                    == peer_id,
                (Err(e), Err(f)) => e == f,
                _ => false,
            },
    {
        if bytes.len() < 68 {
            return Err(HandshakeError::TooShort { length: bytes.len() });
        }
        if bytes[0] != 19 || !same_bytes(slice_subrange(bytes, 1, 20), HANDSHAKE_PSTR.as_slice()) {
            return Err(HandshakeError::InvalidProtocol);
        }
        Ok(Self { info_hash: twenty_bytes(bytes, 28), peer_id: twenty_bytes(bytes, 48) })
    }
}

/// Reading the bytes of a handshake gives the handshake back.
pub proof fn law_handshake_reads_back(info_hash: Seq<u8>, peer_id: Seq<u8>)
    requires
        info_hash.len() == 20,
        peer_id.len() == 20,
    ensures
        handshake_bytes(info_hash, peer_id).len() == 68,
        handshake_in(handshake_bytes(info_hash, peer_id)) == Ok::<
            (Seq<u8>, Seq<u8>),
            HandshakeError,
        >((info_hash, peer_id)),
{
    let s = handshake_bytes(info_hash, peer_id);
    assert(s.subrange(1, 20) =~= HANDSHAKE_PSTR@);
    assert(s.subrange(28, 48) =~= info_hash);
    assert(s.subrange(48, 68) =~= peer_id);
}

/// A message between peers.
#[derive(Debug, Clone, PartialEq, Eq)]
pub enum Message {
    KeepAlive,
    Choke,
    Unchoke,
    Interested,
    NotInterested,
    Have(u32),
    Bitfield(Vec<u8>),
    Request { index: u32, begin: u32, length: u32 },
    Piece { index: u32, begin: u32, block: Vec<u8> },
    Cancel { index: u32, begin: u32, length: u32 },
}

/// The model of a message.
pub enum Wire {
    KeepAlive,
    Choke,
    Unchoke,
    Interested,
    NotInterested,
    Have(u32),
    Bitfield(Seq<u8>),
    Request { index: u32, begin: u32, length: u32 },
    Piece { index: u32, begin: u32, block: Seq<u8> },
    Cancel { index: u32, begin: u32, length: u32 },
}

/// Why a payload is no message.
#[derive(Debug, Clone, Copy, PartialEq, Eq)]
pub enum MessageError {
    InvalidHave,
    InvalidRequest,
    InvalidPiece,
    InvalidCancel,
    UnknownId(u8),
}

impl View for Message {
    type V = Wire;

    open spec fn view(&self) -> Wire {
        match *self {
            Message::KeepAlive => Wire::KeepAlive,
            Message::Choke => Wire::Choke,
            Message::Unchoke => Wire::Unchoke,
            Message::Interested => Wire::Interested,
            Message::NotInterested => Wire::NotInterested,
            Message::Have(index) => Wire::Have(index),
            Message::Bitfield(bits) => Wire::Bitfield(bits@),
            Message::Request { index, begin, length } => Wire::Request { index, begin, length },
            Message::Piece { index, begin, block } => Wire::Piece { index, begin, block: block@ },
            Message::Cancel { index, begin, length } => Wire::Cancel { index, begin, length },
        }
    }
}

/// What follows the length of a message: its number and its data. A keep-alive has neither.
pub open spec fn payload(m: Wire) -> Seq<u8> {
    match m {
        Wire::KeepAlive => Seq::empty(),
        Wire::Choke => seq![0u8],
        Wire::Unchoke => seq![1u8],
        Wire::Interested => seq![2u8],
        Wire::NotInterested => seq![3u8],
        Wire::Have(index) => seq![4u8] + endian::be32(index),
        Wire::Bitfield(bits) => seq![5u8] + bits,
        Wire::Request { index, begin, length } => seq![6u8] + endian::be32(index) + endian::be32(
            begin,
        ) + endian::be32(length),
        Wire::Piece { index, begin, block } => seq![7u8] + endian::be32(index) + endian::be32(begin)
            + block,
        Wire::Cancel { index, begin, length } => seq![8u8] + endian::be32(index) + endian::be32(
            begin,
        ) + endian::be32(length),
    }
}

/// The bytes of a message: the length of the payload and the payload.
pub open spec fn message_bytes(m: Wire) -> Seq<u8> {
    endian::be32(payload(m).len() as u32) + payload(m)
}

/// The message whose payload this is. Bytes that a message has no use for do not count.
pub open spec fn message_in(s: Seq<u8>) -> Result<Wire, MessageError> {
    if s.len() == 0 {
        Ok(Wire::KeepAlive)
    } else if s[0] == 0 {
        Ok(Wire::Choke)
    } else if s[0] == 1 {
        Ok(Wire::Unchoke)
    } else if s[0] == 2 {
        Ok(Wire::Interested)
    } else if s[0] == 3 {
        Ok(Wire::NotInterested)
    } else if s[0] == 4 {
        if s.len() < 5 {
            Err(MessageError::InvalidHave)
        } else {
            Ok(Wire::Have(endian::be32_at(s, 1)))
        }
    } else if s[0] == 5 {
        Ok(Wire::Bitfield(s.skip(1)))
    } else if s[0] == 6 {
        if s.len() < 13 {
            Err(MessageError::InvalidRequest)
        } else {
            Ok(
                Wire::Request {
                    index: endian::be32_at(s, 1),
                    begin: endian::be32_at(s, 5),
                    length: endian::be32_at(s, 9),
                },
            )
        }
    } else if s[0] == 7 {
        if s.len() < 9 {
            Err(MessageError::InvalidPiece)
        } else {
            Ok(
                Wire::Piece {
                    index: endian::be32_at(s, 1),
                    begin: endian::be32_at(s, 5),
                    block: s.skip(9),
                },
            )
        }
    } else if s[0] == 8 {
        if s.len() < 13 {
            Err(MessageError::InvalidCancel)
        } else {
            Ok(
                Wire::Cancel {
                    index: endian::be32_at(s, 1),
                    begin: endian::be32_at(s, 5),
                    length: endian::be32_at(s, 9),
                },
            )
        }
    } else {
        Err(MessageError::UnknownId(s[0]))
    }
}

/// A result is the one that the payload gives.
pub open spec fn agrees(
    r: Result<Message, MessageError>,
    expected: Result<Wire, MessageError>,
) -> bool {
    match (r, expected) {
        (Ok(m), Ok(w)) => m@ == w,
        (Err(e), Err(f)) => e == f,
        _ => false,
    }
}

impl Message {
    /// The bytes of the message.
    pub fn to_bytes(&self) -> (r: Vec<u8>)
        requires
            payload(self@).len() <= u32::MAX,
        ensures
            r@ == message_bytes(self@),
    {
        let mut buf: Vec<u8> = Vec::new();
        match self {
            Message::KeepAlive => {
                push_be32(&mut buf, 0);
            },
            Message::Choke => {
                push_be32(&mut buf, 1);
                buf.push(0);
            },
            Message::Unchoke => {
                push_be32(&mut buf, 1);
                buf.push(1);
            },
            Message::Interested => {
                push_be32(&mut buf, 1);
                buf.push(2);
            },
            Message::NotInterested => {
                push_be32(&mut buf, 1);
                buf.push(3);
            },
            Message::Have(index) => {
                push_be32(&mut buf, 5);
                buf.push(4);
                push_be32(&mut buf, *index);
            },
            Message::Bitfield(bitfield) => {
                push_be32(&mut buf, 1 + bitfield.len() as u32);
                buf.push(5);
                push_bytes(&mut buf, bitfield.as_slice());
            },
            Message::Request { index, begin, length } => {
                push_be32(&mut buf, 13);
                buf.push(6);
                push_be32(&mut buf, *index);
                push_be32(&mut buf, *begin);
                push_be32(&mut buf, *length);
            },
            Message::Piece { index, begin, block } => {
                push_be32(&mut buf, 9 + block.len() as u32);
                buf.push(7);
                push_be32(&mut buf, *index);
                push_be32(&mut buf, *begin);
                push_bytes(&mut buf, block.as_slice());
            },
            Message::Cancel { index, begin, length } => {
                push_be32(&mut buf, 13);
                buf.push(8);
                push_be32(&mut buf, *index);
                push_be32(&mut buf, *begin);
                push_be32(&mut buf, *length);
            },
        }
        assert(buf@ =~= message_bytes(self@));
        buf
    }

    /// Reads a message from its payload.
    pub fn from_payload(payload: &[u8]) -> (r: Result<Self, MessageError>)
        ensures
            agrees(r, message_in(payload@)),
    {
        if payload.len() == 0 {
            return Ok(Message::KeepAlive);
        }
        match payload[0] {
            0 => Ok(Message::Choke),
            1 => Ok(Message::Unchoke),
            2 => Ok(Message::Interested),
            3 => Ok(Message::NotInterested),
            4 => {
                if payload.len() < 5 {
                    return Err(MessageError::InvalidHave);
                }
                Ok(Message::Have(read_be32(payload, 1)))
            },
            5 => {
                let bits = slice_to_vec(slice_subrange(payload, 1, payload.len()));
                Ok(Message::Bitfield(bits))
            },
            6 => {
                if payload.len() < 13 {
                    return Err(MessageError::InvalidRequest);
                }
                Ok(
                    Message::Request {
                        index: read_be32(payload, 1),
                        begin: read_be32(payload, 5),
                        length: read_be32(payload, 9),
                    },
                )
            },
            7 => {
                if payload.len() < 9 {
                    return Err(MessageError::InvalidPiece);
                }
                Ok(
                    Message::Piece {
                        index: read_be32(payload, 1),
                        begin: read_be32(payload, 5),
                        block: slice_to_vec(slice_subrange(payload, 9, payload.len())),
                    },
                )
            },
            8 => {
                if payload.len() < 13 {
                    return Err(MessageError::InvalidCancel);
                }
                Ok(
                    Message::Cancel {
                        index: read_be32(payload, 1),
                        begin: read_be32(payload, 5),
                        length: read_be32(payload, 9),
                    },
                )
            },
            other => Err(MessageError::UnknownId(other)),
        }
    }
}

/// The length of the payload that the first four bytes of a message announce.
pub fn payload_length(header: [u8; 4]) -> (r: usize)
    ensures
        r == endian::be32_at(header@, 0),
{
    read_be32(header.as_slice(), 0) as usize
}

/// Reading the payload of a message gives the message back, and the length before it is the
/// payload's own. The payload's length must fit into 32 bits.
pub proof fn law_message_reads_back(m: Wire)
    requires
        payload(m).len() <= u32::MAX,
    ensures
        message_bytes(m).len() == 4 + payload(m).len(),
        endian::be32_at(message_bytes(m), 0) == payload(m).len(),
        message_bytes(m).skip(4) == payload(m),
        message_in(payload(m)) == Ok::<Wire, MessageError>(m),
{
    let s = payload(m);
    let all = message_bytes(m);
    endian::law_be32_reads_back(s.len() as u32);
    assert(all.skip(4) =~= s);
    match m {
        Wire::Have(index) => {
            endian::law_be32_reads_back(index);
        },
        Wire::Bitfield(bits) => {
            assert(s.skip(1) =~= bits);
        },
        Wire::Request { index, begin, length } => {
            endian::law_be32_reads_back(index);
            endian::law_be32_reads_back(begin);
            endian::law_be32_reads_back(length);
        },
        Wire::Piece { index, begin, block } => {
            endian::law_be32_reads_back(index);
            endian::law_be32_reads_back(begin);
            assert(s.skip(9) =~= block);
        },
        Wire::Cancel { index, begin, length } => {
            endian::law_be32_reads_back(index);
            endian::law_be32_reads_back(begin);
            endian::law_be32_reads_back(length);
        },
        _ => {},
    }
}

/// The bit of the piece `index` in its byte: the pieces go from the high bit to the low one.
pub open spec fn piece_bit(index: nat) -> u8 {
    1u8 << ((7 - index % 8) as u8)
}

/// The pieces whose bits are set.
pub open spec fn pieces_in(bits: Seq<u8>) -> Set<nat> {
    Set::new(
        |index: nat|
            index / 8 < bits.len() && bits[(index / 8) as int] & piece_bit(index) != 0,
    )
}

proof fn lemma_set_bit(b: u8, i: u8, j: u8)
    requires
        i < 8,
        j < 8,
    ensures
        ((b | (1u8 << i)) & (1u8 << j) != 0) == (i == j || b & (1u8 << j) != 0),
{
    assert(((b | (1u8 << i)) & (1u8 << j) != 0) == (i == j || b & (1u8 << j) != 0)) by (bit_vector)
        requires
            i < 8,
            j < 8,
    ;
}

proof fn lemma_no_bit(j: u8)
    requires
        j < 8,
    ensures
        0u8 & (1u8 << j) == 0,
{
    assert(0u8 & (1u8 << j) == 0) by (bit_vector);
}

/// The pieces that a peer has.
pub struct PeerBitfield {
    bytes: Vec<u8>,
}

impl View for PeerBitfield {
    type V = Set<nat>;

    closed spec fn view(&self) -> Set<nat> {
        pieces_in(self.bytes@)
    }
}

impl PeerBitfield {
    /// The pieces that the bits of `bytes` stand for.
    pub fn new(bytes: Vec<u8>) -> (r: Self)
        ensures
            r@ == pieces_in(bytes@),
    {
        Self { bytes }
    }

    /// Tells whether the peer has the piece.
    pub fn has_piece(&self, index: usize) -> (r: bool)
        ensures
            r == self@.contains(index as nat),
    {
        let byte_index = index / 8;
        let bit_index: u8 = (7 - index % 8) as u8;
        if byte_index < self.bytes.len() {
            (self.bytes[byte_index] & (1u8 << bit_index)) != 0
        } else {
            false
        }
    }

    /// Adds the piece to those that the peer has.
    pub fn set_piece(&mut self, index: usize)
        ensures
            final(self)@ == old(self)@.insert(index as nat),
    {
        let byte_index = index / 8;
        let bit_index: u8 = (7 - index % 8) as u8;
        let ghost before = self.bytes@;
        if byte_index >= self.bytes.len() {
            self.bytes.resize(byte_index + 1, 0);
        }
        let ghost grown = self.bytes@;
        assert forall|i: int| 0 <= i < before.len() implies grown[i] == #[trigger] before[i] by {
            if before.len() <= byte_index {
                assert(grown.subrange(0, before.len() as int)[i] == before[i]);
            }
        }
        let byte = self.bytes[byte_index];
        self.bytes[byte_index] = byte | (1u8 << bit_index);
        proof {
            let after = self.bytes@;
            assert forall|k: nat|
                pieces_in(after).contains(k) == #[trigger] pieces_in(before).insert(
                    index as nat,
                ).contains(k) by {
                let j = (7 - k % 8) as u8;
                lemma_no_bit(j);
                lemma_set_bit(byte, bit_index, j);
                if k / 8 == byte_index as nat {
                    assert(bit_index == j <==> k == index);
                }
            }
            assert(pieces_in(after) =~= pieces_in(before).insert(index as nat));
        }
    }
}

/// What a connection knows of its peer. The stream that carries the bytes is not part of it.
pub struct PeerConnection {
    pub peer_id: [u8; 20],
    pub choked: bool,
    pub bitfield: PeerBitfield,
}

/// The model of a connection.
#[verifier::ext_equal]
pub struct PeerState {
    pub peer_id: Seq<u8>,
    pub choked: bool,
    pub pieces: Set<nat>,
}

impl View for PeerConnection {
    type V = PeerState;

    open spec fn view(&self) -> PeerState {
        PeerState { peer_id: self.peer_id@, choked: self.choked, pieces: self.bitfield@ }
    }
}

/// What a connection knows once a message was received.
pub open spec fn after_message(state: PeerState, m: Wire) -> PeerState {
    match m {
        Wire::Choke => PeerState { choked: true, ..state },
        Wire::Unchoke => PeerState { choked: false, ..state },
        Wire::Bitfield(bits) => PeerState { pieces: pieces_in(bits), ..state },
        Wire::Have(index) => PeerState { pieces: state.pieces.insert(index as nat), ..state },
        _ => state,
    }
}

/// What to do while the peer is to unchoke the connection.
#[derive(Debug, Clone, Copy, PartialEq, Eq)]
pub enum UnchokeStep {
    /// Requests may be sent.
    Ready,
    /// The next message is to be read.
    ReadMessage,
    /// There is no time left to wait.
    TimedOut,
}

impl PeerConnection {
    /// The connection that the peer's handshake opens: choked, and with no piece known. The
    /// handshake must be for the torrent with the digest `info_hash`.
    pub fn connect(reply: &[u8], info_hash: &[u8; 20]) -> (r: Result<Self, HandshakeError>)
        ensures
            match handshake_in(reply@) {
                Err(e) => r matches Err(f) && f == e,
                Ok((named, peer_id)) => if named != info_hash@ {
                    r matches Err(f) && f == HandshakeError::InfoHashMismatch
                } else {
                    r matches Ok(c) && c@ == (PeerState {
                        peer_id,
                        choked: true,
                        pieces: Set::empty(),
                    })
                },
            },
    {
        let handshake = match Handshake::from_bytes(reply) {
            Ok(h) => h,
            Err(e) => {
                return Err(e);
            },
        };
        if !same_bytes(handshake.info_hash.as_slice(), info_hash.as_slice()) {
            return Err(HandshakeError::InfoHashMismatch);
        }
        let r = Self {
            peer_id: handshake.peer_id,
            choked: true,
            bitfield: PeerBitfield::new(Vec::new()),
        };
        assert(r@.pieces =~= Set::<nat>::empty());
        Ok(r)
    }

    /// Takes in the payload of a message that the peer sent.
    pub fn read_message(&mut self, payload: &[u8]) -> (r: Result<Message, MessageError>)
        ensures
            agrees(r, message_in(payload@)),
            final(self)@ == match message_in(payload@) {
                Ok(m) => after_message(old(self)@, m),
                Err(_) => old(self)@,
            },
    {
        let message = match Message::from_payload(payload) {
            Ok(m) => m,
            Err(e) => {
                return Err(e);
            },
        };
        match &message {
            Message::Choke => {
                self.choked = true;
            },
            Message::Unchoke => {
                self.choked = false;
            },
            Message::Bitfield(bits) => {
                let copy = slice_to_vec(bits.as_slice());
                self.bitfield = PeerBitfield::new(copy);
            },
            Message::Have(index) => {
                self.bitfield.set_piece(*index as usize);
            },
            _ => {},
        }
        Ok(message)
    }

    /// Starts to wait until the peer unchokes the connection, and gives the message to send first:
    /// that it is interested, but only if the connection is choked.
    pub fn wait_for_unchoke(self) -> (r: (UnchokeWait, Option<Message>))
        ensures
            r.0@.wf(),
            r.0@ == (Wait { began: self@, read: Seq::empty(), state: self@ }),
            r.1 == if self.choked {
                Some(Message::Interested)
            } else {
                None
            },
    {
        let first = if self.choked {
            Some(Message::Interested)
        } else {
            None
        };
        let wait = UnchokeWait { began: Ghost(self@), read: Ghost(Seq::empty()), connection: self };
        (wait, first)
    }
}

/// What a connection knows once messages were received in turn.
pub open spec fn after_messages(state: PeerState, msgs: Seq<Wire>) -> PeerState
    decreases msgs.len(),
{
    if msgs.len() == 0 {
        state
    } else {
        after_message(after_messages(state, msgs.drop_last()), msgs.last())
    }
}

/// A connection whose peer is to unchoke it.
pub struct UnchokeWait {
    began: Ghost<PeerState>,
    read: Ghost<Seq<Wire>>,
    connection: PeerConnection,
}

/// The model of a wait.
#[verifier::ext_equal]
pub struct Wait {
    /// What the connection knew when the wait began.
    pub began: PeerState,
    /// The messages that were read since.
    pub read: Seq<Wire>,
    /// What the connection knows now.
    pub state: PeerState,
}

impl View for UnchokeWait {
    type V = Wait;

    closed spec fn view(&self) -> Wait {
        Wait { began: self.began@, read: self.read@, state: self.connection@ }
    }
}

impl Wait {
    /// What holds of every wait: nothing is read unless the connection was choked, and nothing is
    /// read after the first message that unchokes it.
    pub open spec fn wf(self) -> bool {
        &&& self.state == after_messages(self.began, self.read)
        &&& !self.began.choked ==> self.read.len() == 0
        &&& forall|i: int| 0 <= i < self.read.len() - 1 ==> !((#[trigger] self.read[i]) is Unchoke)
    }

    /// The wait has ended: the connection was not choked, or the last message that was read
    /// unchoked it, and none before that did.
    pub open spec fn ended(self) -> bool {
        self.began.choked ==> {
            &&& self.read.len() > 0
            &&& self.read.last() is Unchoke
            &&& forall|i: int|
                0 <= i < self.read.len() - 1 ==> !((#[trigger] self.read[i]) is Unchoke)
        }
    }

    /// The wait once a message was read.
    pub open spec fn after_message(self, m: Wire) -> Wait {
        Wait { read: self.read.push(m), state: after_message(self.state, m), ..self }
    }
}

impl UnchokeWait {
    /// What to do next.
    pub fn step(&self, time_left: bool) -> (r: UnchokeStep)
        requires
            self@.wf(),
        ensures
            r == if !self@.state.choked {
                UnchokeStep::Ready
            } else if time_left {
                UnchokeStep::ReadMessage
            } else {
                UnchokeStep::TimedOut
            },
            r == UnchokeStep::Ready <==> self@.ended(),
    {
        proof {
            law_wait_ends_unchoked(self@);
        }
        if !self.connection.choked {
            UnchokeStep::Ready
        } else if time_left {
            UnchokeStep::ReadMessage
        } else {
            UnchokeStep::TimedOut
        }
    }

    /// Takes in the payload of a message that the peer sent.
    pub fn receive(&mut self, payload: &[u8]) -> (r: Result<Message, MessageError>)
        requires
            old(self)@.wf(),
            old(self)@.state.choked,
        ensures
            final(self)@.wf(),
            agrees(r, message_in(payload@)),
            final(self)@ == match message_in(payload@) {
                Ok(m) => old(self)@.after_message(m),
                Err(_) => old(self)@,
            },
    {
        proof {
            law_wait_ends_unchoked(self@);
        }
        let ghost before = self@;
        let r = self.connection.read_message(payload);
        proof {
            if let Ok(m) = message_in(payload@) {
                self.read@ = self.read@.push(m);
                assert(self.read@.drop_last() =~= before.read);
                assert forall|i: int| 0 <= i < self.read@.len() - 1 implies !((
                #[trigger] self.read@[i]) is Unchoke) by {
                    assert(self.read@[i] == before.read[i]);
                }
            }
            assert(self@ =~= match message_in(payload@) {
                Ok(m) => before.after_message(m),
                Err(_) => before,
            });
        }
        r
    }

    /// The connection, with what it knows by now.
    pub fn into_connection(self) -> (r: PeerConnection)
        ensures
            r@ == self@.state,
    {
        self.connection
    }
}

/// Without a message that unchokes it, a choked connection stays choked.
proof fn lemma_stays_choked(state: PeerState, msgs: Seq<Wire>)
    requires
        state.choked,
        forall|i: int| 0 <= i < msgs.len() ==> !((#[trigger] msgs[i]) is Unchoke),
    ensures
        after_messages(state, msgs).choked,
    decreases msgs.len(),
{
    if msgs.len() > 0 {
        let rest = msgs.drop_last();
        assert forall|i: int| 0 <= i < rest.len() implies !((#[trigger] rest[i]) is Unchoke) by {
            assert(rest[i] == msgs[i]);
        }
        lemma_stays_choked(state, rest);
        assert(!(msgs[msgs.len() - 1] is Unchoke));
    }
}

/// A choked connection is unchoked by the first message that says so: it is choked after every
/// number of messages before that one, and not choked after that one.
pub proof fn law_wait_ends_with_first_unchoke(state: PeerState, msgs: Seq<Wire>, k: int)
    requires
        state.choked,
        0 <= k < msgs.len(),
        msgs[k] is Unchoke,
        forall|i: int| 0 <= i < k ==> !((#[trigger] msgs[i]) is Unchoke),
    ensures
        forall|j: int| 0 <= j <= k ==> (#[trigger] after_messages(state, msgs.take(j))).choked,
        !after_messages(state, msgs.take(k + 1)).choked,
{
    assert forall|j: int| 0 <= j <= k implies (#[trigger] after_messages(
        state,
        msgs.take(j),
    )).choked by {
        let part = msgs.take(j);
        assert forall|i: int| 0 <= i < part.len() implies !((#[trigger] part[i]) is Unchoke) by {
            assert(part[i] == msgs[i]);
        }
        lemma_stays_choked(state, part);
    }
    assert(msgs.take(k + 1).last() == msgs[k]);
}

/// A wait has ended exactly if the connection is not choked.
pub proof fn law_wait_ends_unchoked(w: Wait)
    requires
        w.wf(),
    ensures
        w.ended() <==> !w.state.choked,
{
    if w.began.choked && !w.ended() {
        assert forall|i: int| 0 <= i < w.read.len() implies !((
        #[trigger] w.read[i]) is Unchoke) by {
            if i == w.read.len() - 1 {
                assert(w.read.last() == w.read[i]);
            }
        }
        lemma_stays_choked(w.began, w.read);
    }
}

/// Messages change only what they speak of: a connection keeps its peer; choking and unchoking
/// keep the pieces; a piece that the peer announced is known from then on, and no other is lost.
pub proof fn law_messages_keep_the_rest(state: PeerState, m: Wire)
    ensures
        after_message(state, m).peer_id == state.peer_id,
        m is Choke || m is Unchoke ==> after_message(state, m).pieces == state.pieces,
        !(m is Choke || m is Unchoke) ==> after_message(state, m).choked == state.choked,
        m matches Wire::Have(index) ==> after_message(state, m).pieces.contains(index as nat)
            && state.pieces.subset_of(after_message(state, m).pieces),
        !(m is Bitfield || m is Have) ==> after_message(state, m).pieces == state.pieces,
{
}

} // verus!
