//! The wire format, byte by byte, and what messages say of a peer.

use vstd::prelude::*;
use crate::endian;
use super::{HandshakeError, Message, MessageError, PeerState, Wait, Wire};

verus! {

/// The bytes of the messages that carry no data: the length, which is 1 but for a keep-alive, and
/// the number of the message.
pub proof fn law_bare_messages()
    ensures
        super::message_bytes(Wire::KeepAlive) == seq![0u8, 0, 0, 0],
        super::message_bytes(Wire::Choke) == seq![0u8, 0, 0, 1, 0],
        super::message_bytes(Wire::Unchoke) == seq![0u8, 0, 0, 1, 1],
        super::message_bytes(Wire::Interested) == seq![0u8, 0, 0, 1, 2],
        super::message_bytes(Wire::NotInterested) == seq![0u8, 0, 0, 1, 3],
{
    assert(super::message_bytes(Wire::KeepAlive) =~= seq![0u8, 0, 0, 0]);
    assert(super::message_bytes(Wire::Choke) =~= seq![0u8, 0, 0, 1, 0]);
    assert(super::message_bytes(Wire::Unchoke) =~= seq![0u8, 0, 0, 1, 1]);
    assert(super::message_bytes(Wire::Interested) =~= seq![0u8, 0, 0, 1, 2]);
    assert(super::message_bytes(Wire::NotInterested) =~= seq![0u8, 0, 0, 1, 3]);
}

/// A message with numbers has its length and its own number first, then the numbers in network
/// byte order: of a request and of a cancellation the piece, the offset and the length.
pub proof fn law_messages_with_numbers(index: u32, begin: u32, length: u32)
    ensures
        ({
            let have = super::message_bytes(Wire::Have(index));
            &&& have.len() == 9
            &&& have.take(5) == seq![0u8, 0, 0, 5, 4]
            &&& endian::be32_at(have, 5) == index
        }),
        ({
            let request = super::message_bytes(Wire::Request { index, begin, length });
            &&& request.len() == 17
            &&& request.take(5) == seq![0u8, 0, 0, 13, 6]
            &&& endian::be32_at(request, 5) == index
            &&& endian::be32_at(request, 9) == begin
            &&& endian::be32_at(request, 13) == length
        }),
        ({
            let cancel = super::message_bytes(Wire::Cancel { index, begin, length });
            &&& cancel.len() == 17
            &&& cancel.take(5) == seq![0u8, 0, 0, 13, 8]
            &&& endian::be32_at(cancel, 5) == index
            &&& endian::be32_at(cancel, 9) == begin
            &&& endian::be32_at(cancel, 13) == length
        }),
{
    endian::law_be32_reads_back(index);
    endian::law_be32_reads_back(begin);
    endian::law_be32_reads_back(length);
    let have = super::message_bytes(Wire::Have(index));
    assert(have.take(5) =~= seq![0u8, 0, 0, 5, 4]);
    let request = super::message_bytes(Wire::Request { index, begin, length });
    assert(request.take(5) =~= seq![0u8, 0, 0, 13, 6]);
    let cancel = super::message_bytes(Wire::Cancel { index, begin, length });
    assert(cancel.take(5) =~= seq![0u8, 0, 0, 13, 8]);
}

/// A bitfield stands after its length and its number; a block stands after these, the number of
/// its piece and its offset. The length counts what follows it.
pub proof fn law_messages_with_bytes(index: u32, begin: u32, data: Seq<u8>)
    requires
        9 + data.len() <= u32::MAX,
    ensures
        ({
            let bitfield = super::message_bytes(Wire::Bitfield(data));
            &&& bitfield.len() == 5 + data.len()
            &&& endian::be32_at(bitfield, 0) == 1 + data.len()
            &&& bitfield[4] == 5
            &&& bitfield.skip(5) == data
        }),
        ({
            let piece = super::message_bytes(Wire::Piece { index, begin, block: data });
            &&& piece.len() == 13 + data.len()
            &&& endian::be32_at(piece, 0) == 9 + data.len()
            &&& piece[4] == 7
            &&& endian::be32_at(piece, 5) == index
            &&& endian::be32_at(piece, 9) == begin
            &&& piece.skip(13) == data
        }),
{
    endian::law_be32_reads_back(index);
    endian::law_be32_reads_back(begin);
    endian::law_be32_reads_back((1 + data.len()) as u32);
    endian::law_be32_reads_back((9 + data.len()) as u32);
    let bitfield = super::message_bytes(Wire::Bitfield(data));
    assert(bitfield.skip(5) =~= data);
    let piece = super::message_bytes(Wire::Piece { index, begin, block: data });
    assert(piece.skip(13) =~= data);
}

/// A payload is read by its number. A message with numbers needs all of them, and what it has no
/// use for does not count.
pub proof fn law_payloads_are_read(s: Seq<u8>)
    ensures
        s.len() == 0 ==> super::message_in(s) == Ok::<Wire, MessageError>(Wire::KeepAlive),
        s.len() > 0 ==> {
            let m = super::message_in(s);
            &&& s[0] == 0 ==> m == Ok::<Wire, MessageError>(Wire::Choke)
            &&& s[0] == 1 ==> m == Ok::<Wire, MessageError>(Wire::Unchoke)
            &&& s[0] == 2 ==> m == Ok::<Wire, MessageError>(Wire::Interested)
            &&& s[0] == 3 ==> m == Ok::<Wire, MessageError>(Wire::NotInterested)
            &&& s[0] == 4 && s.len() < 5 ==> m == Err::<Wire, MessageError>(
                MessageError::InvalidHave,
            )
            &&& s[0] == 4 && s.len() >= 5 ==> m == Ok::<Wire, MessageError>(
                Wire::Have(endian::be32_at(s, 1)),
            )
            &&& s[0] == 5 ==> m == Ok::<Wire, MessageError>(Wire::Bitfield(s.skip(1)))
            &&& s[0] == 6 && s.len() < 13 ==> m == Err::<Wire, MessageError>(
                MessageError::InvalidRequest,
            )
            &&& s[0] == 7 && s.len() < 9 ==> m == Err::<Wire, MessageError>(
                MessageError::InvalidPiece,
            )
            &&& s[0] == 7 && s.len() >= 9 ==> m == Ok::<Wire, MessageError>(
                Wire::Piece {
                    index: endian::be32_at(s, 1),
                    begin: endian::be32_at(s, 5),
                    block: s.skip(9),
                },
            )
            &&& s[0] == 8 && s.len() < 13 ==> m == Err::<Wire, MessageError>(
                MessageError::InvalidCancel,
            )
            &&& (s[0] == 6 || s[0] == 8) && s.len() >= 13 ==> {
                let index = endian::be32_at(s, 1);
                let begin = endian::be32_at(s, 5);
                let length = endian::be32_at(s, 9);
                m == if s[0] == 6 {
                    Ok::<Wire, MessageError>(Wire::Request { index, begin, length })
                } else {
                    Ok(Wire::Cancel { index, begin, length })
                }
            }
            &&& s[0] > 8 ==> m == Err::<Wire, MessageError>(MessageError::UnknownId(s[0]))
        },
{
}

/// The model of a message is the message of the same name, with the same numbers and bytes.
pub proof fn law_models_are_namesakes(bits: Vec<u8>, index: u32, begin: u32, length: u32)
    ensures
        Message::KeepAlive@ == Wire::KeepAlive,
        Message::Choke@ == Wire::Choke,
        Message::Unchoke@ == Wire::Unchoke,
        Message::Interested@ == Wire::Interested,
        Message::NotInterested@ == Wire::NotInterested,
        Message::Have(index)@ == Wire::Have(index),
        Message::Bitfield(bits)@ == Wire::Bitfield(bits@),
        (Message::Request { index, begin, length })@ == (Wire::Request { index, begin, length }),
        (Message::Piece { index, begin, block: bits })@ == (Wire::Piece {
            index,
            begin,
            block: bits@,
        }),
        (Message::Cancel { index, begin, length })@ == (Wire::Cancel { index, begin, length }),
{
}

/// A result agrees with what was expected only if both are errors, and the same, or both are
/// messages, and the same.
pub proof fn law_agreement(r: Result<Message, MessageError>, expected: Result<Wire, MessageError>)
    requires
        super::agrees(r, expected),
    ensures
        r is Ok <==> expected is Ok,
        r is Ok ==> r->Ok_0@ == expected->Ok_0,
        r is Err ==> r->Err_0 == expected->Err_0,
{
}

/// A handshake has the length and the name of the protocol, eight bytes of zero, the digest and
/// the peer, in this order.
pub proof fn law_handshake_layout(info_hash: Seq<u8>, peer_id: Seq<u8>)
    requires
        info_hash.len() == 20,
        peer_id.len() == 20,
    ensures
        ({
            let s = super::handshake_bytes(info_hash, peer_id);
            &&& s.len() == 68
            &&& s.take(20) == seq![
                19u8, 66, 105, 116, 84, 111, 114, 114, 101, 110, 116, 32, 112, 114, 111, 116, 111,
                99, 111, 108,
            ]
            &&& forall|i: int| 20 <= i < 28 ==> #[trigger] s[i] == 0
            &&& s.subrange(28, 48) == info_hash
            &&& s.subrange(48, 68) == peer_id
        }),
{
    let s = super::handshake_bytes(info_hash, peer_id);
    assert(s.take(20) =~= seq![
        19u8, 66, 105, 116, 84, 111, 114, 114, 101, 110, 116, 32, 112, 114, 111, 116, 111, 99, 111,
        108,
    ]);
    assert(s.subrange(28, 48) =~= info_hash);
    assert(s.subrange(48, 68) =~= peer_id);
}

/// A handshake is read from any 68 bytes that start with the length and the name of the protocol,
/// whatever the eight bytes after them and whatever follows; from others it is not.
pub proof fn law_handshakes_are_read(s: Seq<u8>)
    ensures
        s.len() < 68 ==> super::handshake_in(s) == Err::<(Seq<u8>, Seq<u8>), HandshakeError>(
            HandshakeError::TooShort { length: s.len() as usize },
        ),
        s.len() >= 68 ==> super::handshake_in(s) == if s.take(20) == seq![
            19u8, 66, 105, 116, 84, 111, 114, 114, 101, 110, 116, 32, 112, 114, 111, 116, 111, 99,
            111, 108,
        ] {
            Ok::<(Seq<u8>, Seq<u8>), HandshakeError>((s.subrange(28, 48), s.subrange(48, 68)))
        } else {
            Err(HandshakeError::InvalidProtocol)
        },
{
    let start = seq![
        19u8, 66, 105, 116, 84, 111, 114, 114, 101, 110, 116, 32, 112, 114, 111, 116, 111, 99, 111,
        108,
    ];
    if s.len() >= 68 {
        let name = start.skip(1);
        assert(super::HANDSHAKE_PSTR@ =~= name);
        if s[0] == 19 && s.subrange(1, 20) == name {
            assert forall|i: int| 0 <= i < 20 implies s.take(20)[i] == start[i] by {
                if i > 0 {
                    assert(s.subrange(1, 20)[i - 1] == name[i - 1]);
                }
            }
            assert(s.take(20) =~= start);
        } else if s.take(20) == start {
            assert(s.take(20)[0] == start[0]);
            assert(s.subrange(1, 20) =~= s.take(20).skip(1));
        }
    }
}

/// A piece is among those of a bitfield if its bit is set: the bits of a byte go from the high one,
/// for the first of eight pieces, to the low one.
pub proof fn law_pieces_are_bits(bits: Seq<u8>, i: nat)
    ensures
        super::pieces_in(bits).contains(i) <==> i / 8 < bits.len() && {
            let b = bits[(i / 8) as int];
            &&& i % 8 == 0 ==> b / 128 % 2 == 1
            &&& i % 8 == 1 ==> b / 64 % 2 == 1
            &&& i % 8 == 2 ==> b / 32 % 2 == 1
            &&& i % 8 == 3 ==> b / 16 % 2 == 1
            &&& i % 8 == 4 ==> b / 8 % 2 == 1
            &&& i % 8 == 5 ==> b / 4 % 2 == 1
            &&& i % 8 == 6 ==> b / 2 % 2 == 1
            &&& i % 8 == 7 ==> b % 2 == 1
        },
{
    let b = bits[(i / 8) as int];
    assert(b & (1u8 << 7u8) != 0 <==> b / 128 % 2 == 1) by (bit_vector);
    assert(b & (1u8 << 6u8) != 0 <==> b / 64 % 2 == 1) by (bit_vector);
    assert(b & (1u8 << 5u8) != 0 <==> b / 32 % 2 == 1) by (bit_vector);
    assert(b & (1u8 << 4u8) != 0 <==> b / 16 % 2 == 1) by (bit_vector);
    assert(b & (1u8 << 3u8) != 0 <==> b / 8 % 2 == 1) by (bit_vector);
    assert(b & (1u8 << 2u8) != 0 <==> b / 4 % 2 == 1) by (bit_vector);
    assert(b & (1u8 << 1u8) != 0 <==> b / 2 % 2 == 1) by (bit_vector);
    assert(b & (1u8 << 0u8) != 0 <==> b % 2 == 1) by (bit_vector);
}

/// A choke chokes, an unchoke ends that, a bitfield gives the pieces that the peer has, and a piece
/// that is announced is added to them. All else stays, and so does everything after other messages.
pub proof fn law_messages_say(state: PeerState, m: Wire, piece: nat)
    ensures
        super::after_message(state, m).peer_id == state.peer_id,
        super::after_message(state, m).choked == (m is Choke || (state.choked && !(m is Unchoke))),
        super::after_message(state, m).pieces.contains(piece) == match m {
            Wire::Bitfield(bits) => super::pieces_in(bits).contains(piece),
            Wire::Have(index) => piece == index || state.pieces.contains(piece),
            _ => state.pieces.contains(piece),
        },
{
}

/// A message that is read during a wait is kept in mind, and says of the peer what it says at any
/// other time.
pub proof fn law_messages_in_a_wait(w: Wait, m: Wire)
    ensures
        w.after_message(m).began == w.began,
        w.after_message(m).read == w.read.push(m),
        w.after_message(m).state == super::after_message(w.state, m),
{
}

/// Messages are taken in one after the other.
pub proof fn law_messages_in_turn(state: PeerState, msgs: Seq<Wire>, m: Wire)
    ensures
        super::after_messages(state, Seq::empty()) == state,
        super::after_messages(state, msgs.push(m)) == super::after_message(
            super::after_messages(state, msgs),
            m,
        ),
{
    assert(msgs.push(m).drop_last() =~= msgs);
}

} // verus!
