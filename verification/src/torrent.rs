//! Torrent metainfo.

pub mod laws;

use vstd::prelude::*;
use crate::bencode::grammar;
use crate::bencode::model::{self, Bencode};
use crate::bencode::span;
use crate::bencode::value;
use crate::bencode::{decode, find_raw_dict_value};
use crate::bencode::{BencodeDict, BencodeError, BencodeValue, LookupError};
use crate::digest::{self, hex_string, sha1_digest};
use crate::text;

verus! {

/// What a torrent describes.
#[derive(Debug, Clone)]
pub struct Torrent {
    pub announce: String,
    pub announce_list: Vec<String>,
    pub info_hash: [u8; 20],
    pub info_hash_hex: String,
    pub piece_length: usize,
    pub pieces: Vec<[u8; 20]>,
    pub name: String,
    pub length: usize,
}

/// The model of a torrent.
#[verifier::ext_equal]
pub struct Metainfo {
    pub announce: Seq<char>,
    pub announce_list: Seq<Seq<char>>,
    pub info_hash: Seq<u8>,
    pub info_hash_hex: Seq<char>,
    pub piece_length: usize,
    pub pieces: Seq<Seq<u8>>,
    pub name: Seq<char>,
    pub length: usize,
}

/// Why a byte string is no torrent.
#[derive(Debug, Clone, Copy, PartialEq, Eq)]
pub enum TorrentError {
    /// The bytes are not bencode.
    Decode(BencodeError),
    /// The root is not a dictionary.
    RootNotDict,
    /// There is no `announce` text.
    MissingAnnounce,
    /// The bytes of `info` were not found.
    RawInfo(LookupError),
    /// There is no `info`.
    MissingInfo,
    /// `info` is not a dictionary.
    InfoNotDict,
    /// `info` has no integer `piece length`.
    MissingPieceLength,
    /// `info` has no byte string `pieces`.
    MissingPieces,
    /// The length of `pieces` is not a multiple of a digest's length.
    InvalidPieces,
    /// An entry of `files` is not a dictionary.
    FileNotDict,
    /// An entry of `files` has no integer `length`.
    MissingFileLength,
    /// The lengths in `files` sum up to more than a machine length.
    LengthOverflow,
    /// `info` has neither an integer `length` nor a list `files`.
    MissingLength,
}

/// The texts among some values, in order.
pub open spec fn texts_among(items: Seq<Bencode>) -> Seq<Seq<char>>
    decreases items.len(),
{
    if items.len() == 0 {
        Seq::empty()
    } else {
        let rest = texts_among(items.drop_last());
        match model::text_of(items.last()) {
            Some(t) => rest.push(t),
            None => rest,
        }
    }
}

/// The texts in the lists among some values, in order.
pub open spec fn texts_in_tiers(tiers: Seq<Bencode>) -> Seq<Seq<char>>
    decreases tiers.len(),
{
    if tiers.len() == 0 {
        Seq::empty()
    } else {
        let rest = texts_in_tiers(tiers.drop_last());
        match tiers.last() {
            Bencode::List(urls) => rest + texts_among(urls),
            _ => rest,
        }
    }
}

/// The trackers to ask: those of all tiers in `announce-list`, or `announce` alone if there are
/// none.
pub open spec fn trackers(d: Seq<(Seq<u8>, Bencode)>, announce: Seq<char>) -> Seq<Seq<char>> {
    let listed = match model::dict_get(d, text::bytes_of("announce-list")) {
        Some(Bencode::List(tiers)) => texts_in_tiers(tiers),
        _ => Seq::empty(),
    };
    if listed.len() == 0 {
        seq![announce]
    } else {
        listed
    }
}

/// The digests in `pieces`, each 20 bytes long.
pub open spec fn digests_in(raw: Seq<u8>) -> Seq<Seq<u8>> {
    Seq::new(raw.len() / 20, |i: int| raw.subrange(20 * i, 20 * i + 20))
}

/// The total of the file lengths from the file `i` on, added to `total`.
pub open spec fn files_length(files: Seq<Bencode>, i: int, total: usize) -> Result<
    usize,
    TorrentError,
>
    decreases files.len() - i,
{
    if i >= files.len() {
        Ok(total)
    } else {
        match files[i] {
            Bencode::Dict(file) => match model::int_at(file, text::bytes_of("length")) {
                Some(n) => if total + (n as usize) > usize::MAX {
                    Err(TorrentError::LengthOverflow)
                } else {
                    files_length(files, i + 1, (total + (n as usize)) as usize)
                },
                None => Err(TorrentError::MissingFileLength),
            },
            _ => Err(TorrentError::FileNotDict),
        }
    }
}

/// The length of the whole content: `length` for a single file, else the sum over `files`.
pub open spec fn content_length(info: Seq<(Seq<u8>, Bencode)>) -> Result<usize, TorrentError> {
    match model::int_at(info, text::bytes_of("length")) {
        Some(n) => Ok(n as usize),
        None => match model::dict_get(info, text::bytes_of("files")) {
            Some(Bencode::List(files)) => files_length(files, 0, 0),
            _ => Err(TorrentError::MissingLength),
        },
    }
}

/// What the dictionary `info` says of the torrent, with its trackers and its digest.
pub open spec fn described(
    info: Seq<(Seq<u8>, Bencode)>,
    announce: Seq<char>,
    announce_list: Seq<Seq<char>>,
    info_hash: Seq<u8>,
) -> Result<Metainfo, TorrentError> {
    match (model::int_at(info, text::bytes_of("piece length")), model::dict_get(
        info,
        text::bytes_of("pieces"),
    )) {
        (None, _) => Err(TorrentError::MissingPieceLength),
        (Some(piece_length), Some(Bencode::Bytes(raw))) => if raw.len() % 20 != 0 {
            Err(TorrentError::InvalidPieces)
        } else {
            match content_length(info) {
                Err(e) => Err(e),
                Ok(length) => Ok(
                    Metainfo {
                        announce,
                        announce_list,
                        info_hash,
                        info_hash_hex: digest::hex_text(info_hash),
                        piece_length: piece_length as usize,
                        pieces: digests_in(raw),
                        name: match model::text_at(info, text::bytes_of("name")) {
                            Some(name) => name,
                            None => "unnamed_torrent"@,
                        },
                        length,
                    },
                ),
            }
        },
        _ => Err(TorrentError::MissingPieces),
    }
}

/// What the root dictionary says of the torrent, with the digest of its `info`.
pub open spec fn torrent_in(
    root: Seq<(Seq<u8>, Bencode)>,
    announce: Seq<char>,
    announce_list: Seq<Seq<char>>,
    info_hash: Seq<u8>,
) -> Result<Metainfo, TorrentError> {
    match model::dict_get(root, text::bytes_of("info")) {
        None => Err(TorrentError::MissingInfo),
        Some(Bencode::Dict(info)) => described(info, announce, announce_list, info_hash),
        Some(_) => Err(TorrentError::InfoNotDict),
    }
}

/// What a byte string says of the torrent that it describes. The digest is that of the bytes of
/// `info` as they stand.
pub open spec fn metainfo(s: Seq<u8>) -> Result<Metainfo, TorrentError> {
    match grammar::decoding(s) {
        Err(e) => Err(TorrentError::Decode(e)),
        Ok(Bencode::Dict(root)) => match model::text_at(root, text::bytes_of("announce")) {
            None => Err(TorrentError::MissingAnnounce),
            Some(announce) => match span::raw_value(s, text::bytes_of("info")) {
                Err(e) => Err(TorrentError::RawInfo(e)),
                Ok((start, end)) => torrent_in(
                    root,
                    announce,
                    trackers(root, announce),
                    digest::sha1_of(s.subrange(start, end)),
                ),
            },
        },
        Ok(_) => Err(TorrentError::RootNotDict),
    }
}

/// There is always a tracker to ask.
pub proof fn law_there_is_a_tracker(d: Seq<(Seq<u8>, Bencode)>, announce: Seq<char>)
    ensures
        trackers(d, announce).len() > 0,
{
}

/// The digests, one after the other, are the value of `pieces`.
pub proof fn law_digests_are_the_pieces(raw: Seq<u8>, i: int)
    requires
        raw.len() % 20 == 0,
        0 <= i < raw.len(),
    ensures
        20 * digests_in(raw).len() == raw.len(),
        digests_in(raw)[i / 20].len() == 20,
        digests_in(raw)[i / 20][i % 20] == raw[i],
{
}

/// The size of the piece `index` of `count` pieces. The last one has what is left, or a whole
/// piece if nothing is.
pub open spec fn piece_size_of(length: nat, piece_length: nat, count: nat, index: nat) -> nat {
    if index >= count {
        0
    } else if index == count - 1 && length % piece_length != 0 {
        length % piece_length
    } else {
        piece_length
    }
}

/// The size of the block `index` of a piece.
pub open spec fn block_size_of(piece_size: nat, index: nat, standard: nat) -> nat {
    if index * standard >= piece_size {
        0
    } else if piece_size - index * standard < standard {
        (piece_size - index * standard) as nat
    } else {
        standard
    }
}

/// The number of blocks of a piece: its size divided by the size of a block, rounded up.
pub open spec fn block_count_of(piece_size: nat, standard: nat) -> nat {
    ((piece_size + standard - 1) / standard as int) as nat
}

/// The 20 bytes of `s` from `from` on.
pub(crate) fn twenty_bytes(s: &[u8], from: usize) -> (r: [u8; 20])
    requires
        from + 20 <= s.len(),
    ensures
        r@ == s@.subrange(from as int, from + 20),
{
    let mut r: [u8; 20] = [0; 20];
    let mut i: usize = 0;
    while i < 20
        invariant
            i <= 20,
            from + 20 <= s.len(),
            forall|j: int| 0 <= j < i ==> r@[j] == s@[from + j],
        decreases 20 - i,
    {
        r[i] = s[from + i];
        i += 1;
    }
    assert(r@ =~= s@.subrange(from as int, from + 20));
    r
}

/// Appends the texts among `urls`.
fn push_texts(list: &mut Vec<String>, urls: &[BencodeValue])
    ensures
        text::texts(final(list)@) == text::texts(old(list)@) + texts_among(value::models(urls@)),
{
    let ghost all = value::models(urls@);
    let mut i: usize = 0;
    assert(all.take(0) =~= Seq::<Bencode>::empty());
    assert(text::texts(list@) =~= text::texts(old(list)@) + texts_among(all.take(0)));
    while i < urls.len()
        invariant
            i <= urls.len(),
            all == value::models(urls@),
            text::texts(list@) == text::texts(old(list)@) + texts_among(all.take(i as int)),
        decreases urls.len() - i,
    {
        proof {
            assert(all.take(i + 1).drop_last() =~= all.take(i as int));
            assert(all.take(i + 1).last() == urls@[i as int].model());
        }
        if let Some(s) = urls[i].as_str() {
            let ghost before = list@;
            list.push(s.to_owned());
            assert(text::texts(list@) =~= text::texts(before).push(s@));
        }
        assert(text::texts(list@) =~= text::texts(old(list)@) + texts_among(all.take(i + 1)));
        i += 1;
    }
    assert(all.take(i as int) =~= all);
}

/// The trackers that the root dictionary names.
fn tracker_list(root: &BencodeDict, announce: &String) -> (r: Vec<String>)
    ensures
        text::texts(r@) == trackers(root.model(), announce@),
{
    let mut list: Vec<String> = Vec::new();
    assert(text::texts(list@) =~= Seq::<Seq<char>>::empty());
    if let Some(BencodeValue::List(tiers)) = root.get("announce-list".as_bytes()) {
        let ghost all = value::models(tiers@);
        let mut i: usize = 0;
        assert(all.take(0) =~= Seq::<Bencode>::empty());
        while i < tiers.len()
            invariant
                i <= tiers.len(),
                all == value::models(tiers@),
                text::texts(list@) == texts_in_tiers(all.take(i as int)),
            decreases tiers.len() - i,
        {
            proof {
                assert(all.take(i + 1).drop_last() =~= all.take(i as int));
                assert(all.take(i + 1).last() == tiers@[i as int].model());
            }
            if let Some(urls) = tiers[i].as_list() {
                push_texts(&mut list, urls);
            }
            i += 1;
        }
        assert(all.take(i as int) =~= all);
    }
    if list.len() == 0 {
        list.push(announce.clone());
        assert(text::texts(list@) =~= seq![announce@]);
    }
    list
}

/// The digests in the value of `pieces`.
fn split_digests(raw: &[u8]) -> (r: Vec<[u8; 20]>)
    requires
        raw@.len() % 20 == 0,
    ensures
        r@.map_values(|d: [u8; 20]| d@) == digests_in(raw@),
{
    let mut digests: Vec<[u8; 20]> = Vec::new();
    let mut from: usize = 0;
    while from < raw.len()
        invariant
            from <= raw.len(),
            raw@.len() % 20 == 0,
            from == 20 * digests@.len(),
            forall|j: int|
                0 <= j < digests@.len() ==> (#[trigger] digests@[j])@ == raw@.subrange(
                    20 * j,
                    20 * j + 20,
                ),
        decreases raw.len() - from,
    {
        digests.push(twenty_bytes(raw, from));
        from += 20;
    }
    assert(digests@.map_values(|d: [u8; 20]| d@) =~= digests_in(raw@));
    digests
}

/// The length of the whole content that `info` describes.
fn total_length(info: &BencodeDict) -> (r: Result<usize, TorrentError>)
    ensures
        r == content_length(info.model()),
{
    if let Some(n) = info.get_int("length".as_bytes()) {
        return Ok(n as usize);
    }
    match info.get("files".as_bytes()) {
        Some(BencodeValue::List(files)) => {
            let ghost all = value::models(files@);
            let mut total: usize = 0;
            let mut i: usize = 0;
            while i < files.len()
                invariant
                    i <= files.len(),
                    all == value::models(files@),
                    content_length(info.model()) == files_length(all, i as int, total),
                decreases files.len() - i,
            {
                assert(all[i as int] == files@[i as int].model());
                let file = match files[i].as_dict() {
                    Some(d) => d,
                    None => {
                        return Err(TorrentError::FileNotDict);
                    },
                };
                let length = match file.get_int("length".as_bytes()) {
                    Some(n) => n as usize,
                    None => {
                        return Err(TorrentError::MissingFileLength);
                    },
                };
                total = match total.checked_add(length) {
                    Some(sum) => sum,
                    None => {
                        return Err(TorrentError::LengthOverflow);
                    },
                };
                i += 1;
            }
            Ok(total)
        },
        _ => Err(TorrentError::MissingLength),
    }
}

impl View for Torrent {
    type V = Metainfo;

    open spec fn view(&self) -> Metainfo {
        Metainfo {
            announce: self.announce@,
            announce_list: text::texts(self.announce_list@),
            info_hash: self.info_hash@,
            info_hash_hex: self.info_hash_hex@,
            piece_length: self.piece_length,
            pieces: self.pieces@.map_values(|d: [u8; 20]| d@),
            name: self.name@,
            length: self.length,
        }
    }
}

/// A result is the one that the metainfo gives.
pub open spec fn agrees(
    r: Result<Torrent, TorrentError>,
    expected: Result<Metainfo, TorrentError>,
) -> bool {
    match (r, expected) {
        (Ok(t), Ok(m)) => t@ == m,
        (Err(e), Err(f)) => e == f,
        _ => false,
    }
}

impl Torrent {
    /// Reads a torrent from the bytes of its file.
    pub fn from_bytes(bytes: &[u8]) -> (r: Result<Self, TorrentError>)
        ensures
            agrees(r, metainfo(bytes@)),
    {
        let root_value = match decode(bytes) {
            Ok(v) => v,
            Err(e) => {
                return Err(TorrentError::Decode(e));
            },
        };
        let root = match root_value.as_dict() {
            Some(d) => d,
            None => {
                return Err(TorrentError::RootNotDict);
            },
        };
        let announce = match root.get_text("announce".as_bytes()) {
            Some(s) => s.to_owned(),
            None => {
                return Err(TorrentError::MissingAnnounce);
            },
        };
        let announce_list = tracker_list(root, &announce);
        let raw_info = match find_raw_dict_value(bytes, "info".as_bytes()) {
            Ok(raw) => raw,
            Err(e) => {
                return Err(TorrentError::RawInfo(e));
            },
        };
        let info_hash = sha1_digest(raw_info);
        Self::with_info_hash(root, announce, announce_list, info_hash)
    }

    /// The torrent that a root dictionary describes, given the trackers to ask and the digest of
    /// its `info`.
    pub fn with_info_hash(
        root: &BencodeDict,
        announce: String,
        announce_list: Vec<String>,
        info_hash: [u8; 20],
    ) -> (r: Result<Self, TorrentError>)
        ensures
            agrees(
                r,
                torrent_in(root.model(), announce@, text::texts(announce_list@), info_hash@),
            ),
    {
        let info = match root.get("info".as_bytes()) {
            None => {
                return Err(TorrentError::MissingInfo);
            },
            Some(v) => match v.as_dict() {
                Some(d) => d,
                None => {
                    return Err(TorrentError::InfoNotDict);
                },
            },
        };
        let info_hash_hex = hex_string(&info_hash);
        let name = match info.get_text("name".as_bytes()) {
            Some(s) => s.to_owned(),
            None => "unnamed_torrent".to_owned(),
        };
        let piece_length = match info.get_int("piece length".as_bytes()) {
            Some(n) => n as usize,
            None => {
                return Err(TorrentError::MissingPieceLength);
            },
        };
        let raw_pieces = match info.get("pieces".as_bytes()) {
            Some(v) => match v.as_bytes() {
                Some(b) => b,
                None => {
                    return Err(TorrentError::MissingPieces);
                },
            },
            None => {
                return Err(TorrentError::MissingPieces);
            },
        };
        if raw_pieces.len() % 20 != 0 {
            return Err(TorrentError::InvalidPieces);
        }
        let pieces = split_digests(raw_pieces);
        let length = match total_length(info) {
            Ok(n) => n,
            Err(e) => {
                return Err(e);
            },
        };
        Ok(
            Torrent {
                announce,
                announce_list,
                info_hash,
                info_hash_hex,
                piece_length,
                pieces,
                name,
                length,
            },
        )
    }

    /// The number of pieces.
    pub fn num_pieces(&self) -> (r: usize)
        ensures
            r == self.pieces@.len(),
    {
        self.pieces.len()
    }

    /// The size of a piece, as the metainfo gives it.
    pub open spec fn size_of_piece(&self, index: nat) -> nat {
        piece_size_of(self.length as nat, self.piece_length as nat, self.pieces@.len(), index)
    }

    /// The size of the piece can be told: the size of the last piece is a remainder.
    pub open spec fn divides(&self, index: nat) -> bool {
        index + 1 == self.pieces@.len() ==> self.piece_length != 0
    }

    /// The size of the piece `index`, or 0 where there is no such piece.
    pub fn piece_size(&self, index: usize) -> (r: usize)
        requires
            self.divides(index as nat),
        ensures
            r == self.size_of_piece(index as nat),
    {
        if index >= self.pieces.len() {
            return 0;
        }
        if index == self.pieces.len() - 1 {
            let remainder = self.length % self.piece_length;
            if remainder == 0 {
                self.piece_length
            } else {
                remainder
            }
        } else {
            self.piece_length
        }
    }

    /// The number of blocks of `block_size` bytes that cover the piece.
    pub fn blocks_in_piece(&self, piece_index: usize, block_size: usize) -> (r: usize)
        requires
            self.divides(piece_index as nat),
            block_size > 0,
            self.size_of_piece(piece_index as nat) + block_size - 1 <= usize::MAX,
        ensures
            r == block_count_of(self.size_of_piece(piece_index as nat), block_size as nat),
    {
        let size = self.piece_size(piece_index);
        (size + (block_size - 1)) / block_size
    }

    /// The size of a block of the piece, or 0 past the end of the piece.
    pub fn block_size(
        &self,
        piece_index: usize,
        block_index: usize,
        standard_block_size: usize,
    ) -> (r: usize)
        requires
            self.divides(piece_index as nat),
            block_index * standard_block_size <= usize::MAX,
        ensures
            r == block_size_of(
                self.size_of_piece(piece_index as nat),
                block_index as nat,
                standard_block_size as nat,
            ),
    {
        let piece_size = self.piece_size(piece_index);
        let offset: usize = block_index * standard_block_size;
        if offset >= piece_size {
            return 0;
        }
        if piece_size - offset < standard_block_size {
            piece_size - offset
        } else {
            standard_block_size
        }
    }
}

/// The total size of the first `n` blocks of a piece.
pub open spec fn blocks_total(piece_size: nat, standard: nat, n: nat) -> nat
    decreases n,
{
    if n == 0 {
        0
    } else {
        blocks_total(piece_size, standard, (n - 1) as nat) + block_size_of(
            piece_size,
            (n - 1) as nat,
            standard,
        )
    }
}

/// The first blocks of a piece cover it from its start up to their number of whole blocks.
proof fn lemma_blocks_total(piece_size: nat, standard: nat, n: nat)
    requires
        standard > 0,
    ensures
        blocks_total(piece_size, standard, n) == if n * standard < piece_size {
            n * standard
        } else {
            piece_size
        },
    decreases n,
{
    if n > 0 {
        let m = (n - 1) as nat;
        lemma_blocks_total(piece_size, standard, m);
        assert(n * standard == m * standard + standard) by (nonlinear_arith)
            requires
                n == m + 1,
        ;
    } else {
        assert(0 * standard == 0) by (nonlinear_arith);
    }
}

/// The blocks of a piece cover it without a gap or an overlap: each of them starts where the ones
/// before it end, none is empty, none is larger than the standard, and together they are as large
/// as the piece.
pub proof fn law_blocks_cover_piece(piece_size: nat, standard: nat)
    requires
        standard > 0,
    ensures
        blocks_total(piece_size, standard, block_count_of(piece_size, standard)) == piece_size,
        forall|k: nat|
            k < block_count_of(piece_size, standard) ==> {
                &&& 0 < #[trigger] block_size_of(piece_size, k, standard) <= standard
                &&& blocks_total(piece_size, standard, k) == k * standard
            },
        forall|k: nat|
            k >= block_count_of(piece_size, standard) ==> #[trigger] block_size_of(
                piece_size,
                k,
                standard,
            ) == 0,
{
    let count = block_count_of(piece_size, standard);
    lemma_block_count(piece_size, standard);
    lemma_blocks_total(piece_size, standard, count);
    assert forall|k: nat| k < count implies {
        &&& 0 < #[trigger] block_size_of(piece_size, k, standard) <= standard
        &&& blocks_total(piece_size, standard, k) == k * standard
    } by {
        lemma_blocks_total(piece_size, standard, k);
        assert(k * standard <= (count - 1) * standard) by (nonlinear_arith)
            requires
                k <= count - 1,
        ;
    }
    assert forall|k: nat| k >= count implies #[trigger] block_size_of(piece_size, k, standard)
        == 0 by {
        assert(k * standard >= count * standard) by (nonlinear_arith)
            requires
                k >= count,
        ;
    }
}

/// The blocks of a piece reach its end, and without the last one they do not.
pub proof fn lemma_block_count(piece_size: nat, standard: nat)
    requires
        standard > 0,
    ensures
        block_count_of(piece_size, standard) * standard >= piece_size,
        piece_size == 0 ==> block_count_of(piece_size, standard) == 0,
        piece_size > 0 ==> (block_count_of(piece_size, standard) - 1) * standard < piece_size,
{
    let up = piece_size + standard - 1;
    let count = up / standard as int;
    vstd::arithmetic::div_mod::lemma_fundamental_div_mod(up, standard as int);
    vstd::arithmetic::div_mod::lemma_mod_bound(up, standard as int);
    vstd::arithmetic::div_mod::lemma_div_pos_is_pos(up, standard as int);
    if piece_size == 0 {
        vstd::arithmetic::div_mod::lemma_basic_div(up, standard as int);
    }
    assert(count * standard == standard * count) by (nonlinear_arith);
    assert((count - 1) * standard == count * standard - standard) by (nonlinear_arith);
}

/// The total size of the first `n` pieces.
pub open spec fn pieces_total(length: nat, piece_length: nat, count: nat, n: nat) -> nat
    decreases n,
{
    if n == 0 {
        0
    } else {
        pieces_total(length, piece_length, count, (n - 1) as nat) + piece_size_of(
            length,
            piece_length,
            count,
            (n - 1) as nat,
        )
    }
}

/// The pieces are as many as the content needs.
pub open spec fn pieces_fit(length: nat, piece_length: nat, count: nat) -> bool {
    &&& piece_length > 0
    &&& count > 0
    &&& (count - 1) * piece_length < length <= count * piece_length
}

/// The pieces cover the content without a gap or an overlap: the piece `i` starts where the ones
/// before it end, at its number times the length of a piece; none is empty or larger than that
/// length; and together they are as large as the content.
pub proof fn law_pieces_cover_content(length: nat, piece_length: nat, count: nat, i: nat)
    requires
        pieces_fit(length, piece_length, count),
        i < count,
    ensures
        pieces_total(length, piece_length, count, count) == length,
        pieces_total(length, piece_length, count, i) == i * piece_length,
        i * piece_length + piece_size_of(length, piece_length, count, i) == pieces_total(
            length,
            piece_length,
            count,
            i + 1,
        ),
        0 < piece_size_of(length, piece_length, count, i) <= piece_length,
{
    lemma_pieces_total(length, piece_length, count, i);
    lemma_pieces_total(length, piece_length, count, (count - 1) as nat);
    lemma_last_piece(length, piece_length, count);
}

/// The last piece has what the others leave.
proof fn lemma_last_piece(length: nat, piece_length: nat, count: nat)
    requires
        pieces_fit(length, piece_length, count),
    ensures
        piece_size_of(length, piece_length, count, (count - 1) as nat) == length - (count - 1)
            * piece_length,
        0 < piece_size_of(length, piece_length, count, (count - 1) as nat) <= piece_length,
{
    let last = length - (count - 1) * piece_length;
    assert(count * piece_length == (count - 1) * piece_length + piece_length) by (nonlinear_arith);
    if last < piece_length {
        vstd::arithmetic::div_mod::lemma_fundamental_div_mod_converse(
            length as int,
            piece_length as int,
            count - 1,
            last,
        );
    } else {
        vstd::arithmetic::div_mod::lemma_fundamental_div_mod_converse(
            length as int,
            piece_length as int,
            count as int,
            0,
        );
    }
}

proof fn lemma_pieces_total(length: nat, piece_length: nat, count: nat, n: nat)
    requires
        n < count,
    ensures
        pieces_total(length, piece_length, count, n) == n * piece_length,
    decreases n,
{
    if n > 0 {
        let m = (n - 1) as nat;
        lemma_pieces_total(length, piece_length, count, m);
        assert(n * piece_length == m * piece_length + piece_length) by (nonlinear_arith)
            requires
                n == m + 1,
        ;
    } else {
        assert(0 * piece_length == 0) by (nonlinear_arith);
    }
}

} // verus!
