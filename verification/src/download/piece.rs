//! The download of one piece: which blocks are requested, and what becomes of those that arrive.

use vstd::prelude::*;
use crate::bytes::same_bytes;
use crate::digest::{self, hex_string, sha1_digest};
use crate::peer::{Message, Wire, STANDARD_BLOCK_SIZE};
use crate::torrent::Torrent;

verus! {

/// How many requests may be without an answer at once.
pub const MAX_PIPELINE: usize = 5;

/// The download of a piece from one peer.
pub struct PieceDownload {
    index: usize,
    data: Vec<u8>,
    downloaded: usize,
    requested: usize,
    in_flight: usize,
}

/// The model of a download.
#[verifier::ext_equal]
pub struct Transfer {
    /// The number of the piece.
    pub index: usize,
    /// The bytes of the piece. Those that have not arrived are zero.
    pub data: Seq<u8>,
    /// How many bytes have arrived.
    pub downloaded: nat,
    /// The bytes before this offset were requested.
    pub requested: nat,
    /// How many requests are without an answer.
    pub in_flight: nat,
}

/// What to do after a message.
#[derive(Debug, Clone, Copy, PartialEq, Eq)]
pub enum AfterMessage {
    /// The download goes on.
    GoOn,
    /// The peer has choked the connection: it must unchoke it before the download goes on.
    WaitForUnchoke,
}

impl View for PieceDownload {
    type V = Transfer;

    closed spec fn view(&self) -> Transfer {
        Transfer {
            index: self.index,
            data: self.data@,
            downloaded: self.downloaded as nat,
            requested: self.requested as nat,
            in_flight: self.in_flight as nat,
        }
    }
}

impl Transfer {
    /// What holds of every download: the requests go from block to block, and there are never more
    /// of them without an answer than the pipeline takes.
    pub open spec fn wf(self) -> bool {
        &&& self.data.len() <= isize::MAX
        &&& self.requested <= self.data.len()
        &&& self.requested == self.data.len() || self.requested % STANDARD_BLOCK_SIZE as nat == 0
        &&& self.in_flight <= MAX_PIPELINE
    }

    /// As many bytes have arrived as the piece has.
    pub open spec fn complete(self) -> bool {
        self.downloaded >= self.data.len()
    }

    /// A request is to be sent before the next message is read.
    pub open spec fn wants_request(self) -> bool {
        &&& !self.complete()
        &&& self.in_flight < MAX_PIPELINE
        &&& self.requested < self.data.len()
    }

    /// The length of the next block to request.
    pub open spec fn next_length(self) -> nat {
        if self.data.len() - self.requested < STANDARD_BLOCK_SIZE {
            (self.data.len() - self.requested) as nat
        } else {
            STANDARD_BLOCK_SIZE as nat
        }
    }

    /// The next request. Numbers are cut to 32 bits.
    pub open spec fn request(self) -> Wire {
        Wire::Request {
            index: self.index as u32,
            begin: self.requested as u32,
            length: self.next_length() as u32,
        }
    }

    /// The message brings a block that counts: it is one of the piece and does not go past its
    /// end.
    pub open spec fn accepts(self, m: Wire) -> bool {
        &&& m matches Wire::Piece { index, begin, block }
        &&& index as usize == self.index
        &&& begin as usize + block.len() <= self.data.len()
    }

    /// The download once the next request was sent.
    pub open spec fn after_request(self) -> Transfer {
        Transfer {
            requested: self.requested + self.next_length(),
            in_flight: self.in_flight + 1,
            ..self
        }
    }

    /// The download once a message has arrived. A block that counts answers one request.
    pub open spec fn after_message(self, m: Wire) -> Transfer {
        match m {
            Wire::Piece { index, begin, block } => if self.accepts(m) {
                Transfer {
                    data: self.data.take(begin as int) + block + self.data.skip(
                        begin + block.len(),
                    ),
                    downloaded: self.downloaded + block.len(),
                    in_flight: if self.in_flight == 0 {
                        0
                    } else {
                        (self.in_flight - 1) as nat
                    },
                    ..self
                }
            } else {
                self
            },
            _ => self,
        }
    }
}

/// The download of a piece at its start.
pub open spec fn fresh(index: usize, size: nat) -> Transfer {
    Transfer {
        index,
        data: Seq::new(size, |i: int| 0u8),
        downloaded: 0,
        requested: 0,
        in_flight: 0,
    }
}

impl PieceDownload {
    /// Starts the download of a piece.
    pub fn new(torrent: &Torrent, index: usize) -> (r: Self)
        requires
            torrent.divides(index as nat),
            torrent.size_of_piece(index as nat) <= isize::MAX,
        ensures
            r@.wf(),
            r@ == fresh(index, torrent.size_of_piece(index as nat)),
    {
        let size = torrent.piece_size(index);
        let r = PieceDownload {
            index,
            data: vec![0u8; size],
            downloaded: 0,
            requested: 0,
            in_flight: 0,
        };
        assert(r@ =~= fresh(index, torrent.size_of_piece(index as nat)));
        r
    }

    /// Tells whether as many bytes have arrived as the piece has.
    pub fn is_complete(&self) -> (r: bool)
        ensures
            r == self@.complete(),
    {
        self.downloaded >= self.data.len()
    }

    /// The request to send next, if one is to be sent before the next message is read.
    pub fn next_request(&mut self) -> (r: Option<Message>)
        requires
            old(self)@.wf(),
        ensures
            final(self)@.wf(),
            if old(self)@.wants_request() {
                &&& r matches Some(message)
                &&& message@ == old(self)@.request()
                &&& final(self)@ == old(self)@.after_request()
            } else {
                r is None && final(self)@ == old(self)@
            },
    {
        if self.downloaded >= self.data.len() || self.in_flight >= MAX_PIPELINE || self.requested
            >= self.data.len() {
            return None;
        }
        let rest = self.data.len() - self.requested;
        let length = if rest < STANDARD_BLOCK_SIZE {
            rest
        } else {
            STANDARD_BLOCK_SIZE
        };
        let begin = self.requested;
        self.requested = begin + length;
        self.in_flight = self.in_flight + 1;
        Some(
            Message::Request {
                index: self.index as u32,
                begin: begin as u32,
                length: length as u32,
            },
        )
    }

    /// Takes in a message of the peer.
    pub fn receive(&mut self, message: &Message) -> (r: AfterMessage)
        requires
            old(self)@.wf(),
            !old(self)@.complete(),
        ensures
            final(self)@.wf(),
            final(self)@ == old(self)@.after_message(message@),
            r == if message@ is Choke {
                AfterMessage::WaitForUnchoke
            } else {
                AfterMessage::GoOn
            },
    {
        match message {
            Message::Piece { index, begin, block } => {
                let begin = *begin as usize;
                let size = self.data.len();
                if *index as usize == self.index && begin <= size && block.len() <= size - begin {
                    self.write_block(begin, block.as_slice());
                    self.downloaded = self.downloaded + block.len();
                    if self.in_flight > 0 {
                        self.in_flight = self.in_flight - 1;
                    }
                }
                assert(self@ =~= old(self)@.after_message(message@));
                AfterMessage::GoOn
            },
            Message::Choke => AfterMessage::WaitForUnchoke,
            _ => AfterMessage::GoOn,
        }
    }

    fn write_block(&mut self, begin: usize, block: &[u8])
        requires
            begin + block@.len() <= old(self).data@.len(),
        ensures
            final(self).data@ == old(self).data@.take(begin as int) + block@ + old(self).data@.skip(
                begin + block@.len(),
            ),
            final(self).index == old(self).index,
            final(self).downloaded == old(self).downloaded,
            final(self).requested == old(self).requested,
            final(self).in_flight == old(self).in_flight,
    {
        let mut i: usize = 0;
        while i < block.len()
            invariant
                i <= block.len(),
                begin + block@.len() <= old(self).data.len(),
                self.data@ =~= old(self).data@.take(begin as int) + block@.take(i as int) + old(
                    self,
                ).data@.skip(begin + i),
                self.index == old(self).index,
                self.downloaded == old(self).downloaded,
                self.requested == old(self).requested,
                self.in_flight == old(self).in_flight,
            decreases block.len() - i,
        {
            self.data[begin + i] = block[i];
            i += 1;
        }
    }

    /// Ends a complete download: gives out its bytes if their digest is that of the piece in the
    /// torrent.
    pub fn finish(self, torrent: &Torrent) -> (r: Result<Vec<u8>, HashMismatch>)
        requires
            self@.complete(),
            self@.index < torrent.pieces@.len(),
        ensures
            judged(
                r,
                self@.index,
                self@.data,
                digest::sha1_of(self@.data),
                torrent.pieces@[self@.index as int]@,
            ),
    {
        verify_piece(torrent, self.index, self.data)
    }
}

/// Says that the bytes that have arrived are not the piece.
#[derive(Debug, Clone, PartialEq, Eq)]
pub struct HashMismatch {
    pub index: usize,
    /// The digest of the piece in the torrent, in hexadecimal.
    pub expected: String,
    /// The digest of the bytes that have arrived, in hexadecimal.
    pub computed: String,
}

/// The result for the bytes of a piece: the bytes, if they have the expected digest.
pub open spec fn judged(
    r: Result<Vec<u8>, HashMismatch>,
    index: usize,
    data: Seq<u8>,
    computed: Seq<u8>,
    expected: Seq<u8>,
) -> bool {
    if computed == expected {
        r matches Ok(d) && d@ == data
    } else {
        &&& r matches Err(e)
        &&& e.index == index
        &&& e.expected@ == digest::hex_text(expected)
        &&& e.computed@ == digest::hex_text(computed)
    }
}

/// Gives the bytes of a piece on if their digest is the expected one.
pub fn accept_piece(
    index: usize,
    data: Vec<u8>,
    computed: [u8; 20],
    expected: &[u8; 20],
) -> (r: Result<Vec<u8>, HashMismatch>)
    ensures
        judged(r, index, data@, computed@, expected@),
{
    if same_bytes(computed.as_slice(), expected.as_slice()) {
        Ok(data)
    } else {
        Err(
            HashMismatch {
                index,
                expected: hex_string(expected),
                computed: hex_string(&computed),
            },
        )
    }
}

/// Gives the bytes of a piece on if their digest is the one in the torrent.
pub fn verify_piece(torrent: &Torrent, index: usize, data: Vec<u8>) -> (r: Result<
    Vec<u8>,
    HashMismatch,
>)
    requires
        index < torrent.pieces@.len(),
    ensures
        judged(r, index, data@, digest::sha1_of(data@), torrent.pieces@[index as int]@),
{
    let computed = sha1_digest(data.as_slice());
    accept_piece(index, data, computed, &torrent.pieces[index])
}

} // verus!
