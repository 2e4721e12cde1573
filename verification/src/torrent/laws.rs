//! What a torrent says, entry by entry, and the sizes of pieces and blocks.

use vstd::prelude::*;
use crate::bencode::grammar;
use crate::bencode::model::{self, Bencode};
use crate::bencode::span;
use crate::digest;
use super::{Metainfo, Torrent, TorrentError};

verus! {

/// The length that a file has: the integer under `length`, in a dictionary.
pub open spec fn file_length(file: Bencode) -> Option<nat> {
    match file {
        Bencode::Dict(d) => match model::dict_get(d, vstd::utf8::encode_utf8("length"@)) {
            Some(Bencode::Int(n)) => Some((n as usize) as nat),
            _ => None,
        },
        _ => None,
    }
}

/// The sum of the lengths of files.
pub open spec fn lengths_sum(files: Seq<Bencode>) -> nat
    decreases files.len(),
{
    if files.len() == 0 {
        0
    } else {
        lengths_sum(files.drop_last()) + match file_length(files.last()) {
            Some(n) => n,
            None => 0,
        }
    }
}

proof fn lemma_sum_of_part(files: Seq<Bencode>, i: int)
    requires
        0 <= i < files.len(),
    ensures
        lengths_sum(files.take(i + 1)) == lengths_sum(files.take(i)) + match file_length(files[i]) {
            Some(n) => n,
            None => 0,
        },
{
    assert(files.take(i + 1).drop_last() =~= files.take(i));
}

proof fn lemma_sum_grows(files: Seq<Bencode>, i: int)
    requires
        0 <= i <= files.len(),
    ensures
        lengths_sum(files.take(i)) <= lengths_sum(files),
    decreases files.len() - i,
{
    if i < files.len() {
        lemma_sum_of_part(files, i);
        lemma_sum_grows(files, i + 1);
    } else {
        assert(files.take(i) =~= files);
    }
}

/// Where every file has a length and the sum fits, the rest of the files adds up to the sum.
proof fn lemma_files_length(files: Seq<Bencode>, i: int, total: usize)
    requires
        0 <= i <= files.len(),
        total == lengths_sum(files.take(i)),
        forall|j: int| 0 <= j < files.len() ==> file_length(#[trigger] files[j]) is Some,
        lengths_sum(files) <= usize::MAX,
    ensures
        super::files_length(files, i, total) == Ok::<usize, TorrentError>(
            lengths_sum(files) as usize,
        ),
    decreases files.len() - i,
{
    if i < files.len() {
        lemma_sum_of_part(files, i);
        lemma_sum_grows(files, i + 1);
        assert(file_length(files[i]) is Some);
        let n = file_length(files[i])->Some_0;
        lemma_files_length(files, i + 1, (total + n) as usize);
    } else {
        assert(files.take(i) =~= files);
    }
}

/// Where the files before `k` have lengths that fit, and the file `k` has none or makes the sum too
/// great, that is the error.
proof fn lemma_files_fault(files: Seq<Bencode>, i: int, total: usize, k: int)
    requires
        0 <= i <= k < files.len(),
        total == lengths_sum(files.take(i)),
        forall|j: int| 0 <= j < k ==> file_length(#[trigger] files[j]) is Some,
        lengths_sum(files.take(k)) <= usize::MAX,
        file_length(files[k]) is None || lengths_sum(files.take(k + 1)) > usize::MAX,
    ensures
        super::files_length(files, i, total) == Err::<usize, TorrentError>(
            if !(files[k] is Dict) {
                TorrentError::FileNotDict
            } else if file_length(files[k]) is None {
                TorrentError::MissingFileLength
            } else {
                TorrentError::LengthOverflow
            },
        ),
    decreases k - i,
{
    lemma_sum_of_part(files, i);
    if i < k {
        assert(file_length(files[i]) is Some);
        let n = file_length(files[i])->Some_0;
        let part = files.take(k);
        assert(part.take(i + 1) =~= files.take(i + 1));
        lemma_sum_grows(part, i + 1);
        lemma_files_fault(files, i + 1, (total + n) as usize, k);
    }
}

/// The content of a torrent is as long as the integer under `length` says, or else as the files
/// under `files` together.
pub proof fn law_content_length(info: Seq<(Seq<u8>, Bencode)>, n: i64, files: Seq<Bencode>)
    ensures
        ({
            let length = model::dict_get(info, vstd::utf8::encode_utf8("length"@));
            let listed = model::dict_get(info, vstd::utf8::encode_utf8("files"@));
            &&& length == Some(Bencode::Int(n)) ==> super::content_length(info) == Ok::<
                usize,
                TorrentError,
            >(n as usize)
            &&& !(length matches Some(Bencode::Int(_))) && listed == Some(Bencode::List(files)) && (
            forall|j: int| 0 <= j < files.len() ==> file_length(#[trigger] files[j]) is Some)
                && lengths_sum(files) <= usize::MAX ==> super::content_length(info) == Ok::<
                usize,
                TorrentError,
            >(lengths_sum(files) as usize)
            &&& !(length matches Some(Bencode::Int(_))) && !(listed matches Some(Bencode::List(_)))
                ==> super::content_length(info) == Err::<usize, TorrentError>(
                TorrentError::MissingLength,
            )
        }),
{
    assert(files.take(0) =~= Seq::<Bencode>::empty());
    if (forall|j: int| 0 <= j < files.len() ==> file_length(#[trigger] files[j]) is Some)
        && lengths_sum(files) <= usize::MAX {
        lemma_files_length(files, 0, 0);
    }
}

/// The first file without a length, or with one that makes the sum too great, is the error.
pub proof fn law_content_length_faults(
    info: Seq<(Seq<u8>, Bencode)>,
    files: Seq<Bencode>,
    k: int,
)
    requires
        !(model::dict_get(info, vstd::utf8::encode_utf8("length"@)) matches Some(Bencode::Int(_))),
        model::dict_get(info, vstd::utf8::encode_utf8("files"@)) == Some(Bencode::List(files)),
        0 <= k < files.len(),
        forall|j: int| 0 <= j < k ==> file_length(#[trigger] files[j]) is Some,
        lengths_sum(files.take(k)) <= usize::MAX,
        file_length(files[k]) is None || lengths_sum(files.take(k + 1)) > usize::MAX,
    ensures
        super::content_length(info) == Err::<usize, TorrentError>(
            if !(files[k] is Dict) {
                TorrentError::FileNotDict
            } else if file_length(files[k]) is None {
                TorrentError::MissingFileLength
            } else {
                TorrentError::LengthOverflow
            },
        ),
{
    assert(files.take(0) =~= Seq::<Bencode>::empty());
    lemma_files_fault(files, 0, 0, k);
}

/// What a torrent says is what stands in `info`, whatever other entries there are: the name is the
/// text under `name`, or else `unnamed_torrent`; the length of a piece is the integer under
/// `piece length`; the digests are those in the byte string under `pieces`, 20 bytes each. The
/// trackers and the digest are the given ones.
pub proof fn law_torrent_fields(
    root: Seq<(Seq<u8>, Bencode)>,
    announce: Seq<char>,
    announce_list: Seq<Seq<char>>,
    info_hash: Seq<u8>,
    m: Metainfo,
)
    requires
        super::torrent_in(root, announce, announce_list, info_hash) == Ok::<Metainfo, TorrentError>(
            m,
        ),
    ensures
        m.announce == announce,
        m.announce_list == announce_list,
        m.info_hash == info_hash,
        m.info_hash_hex == digest::hex_text(info_hash),
        model::dict_get(root, vstd::utf8::encode_utf8("info"@)) matches Some(Bencode::Dict(info))
            && {
            let name = model::dict_get(info, vstd::utf8::encode_utf8("name"@));
            let piece_length = model::dict_get(info, vstd::utf8::encode_utf8("piece length"@));
            let pieces = model::dict_get(info, vstd::utf8::encode_utf8("pieces"@));
            &&& name matches Some(Bencode::Bytes(b)) ==> vstd::utf8::valid_utf8(b) ==> m.name
                == vstd::utf8::decode_utf8(b)
            &&& name matches Some(Bencode::Bytes(b)) ==> !vstd::utf8::valid_utf8(b) ==> m.name
                == "unnamed_torrent"@
            &&& !(name matches Some(Bencode::Bytes(_))) ==> m.name == "unnamed_torrent"@
            &&& piece_length matches Some(Bencode::Int(n)) && m.piece_length == n as usize
            &&& pieces matches Some(Bencode::Bytes(raw)) && raw.len() == 20 * m.pieces.len() && (
            forall|i: int|
                0 <= i < m.pieces.len() ==> #[trigger] m.pieces[i] == raw.subrange(
                    20 * i,
                    20 * i + 20,
                ))
            &&& super::content_length(info) == Ok::<usize, TorrentError>(m.length)
        },
{
}

/// A torrent is refused for the first of these that is missing or of the wrong kind: `info`, a
/// dictionary; in it `piece length`, an integer; `pieces`, a byte string whose length is a multiple
/// of 20; and the length of the content. With all of them it is read.
pub proof fn law_torrents_are_read(
    root: Seq<(Seq<u8>, Bencode)>,
    announce: Seq<char>,
    announce_list: Seq<Seq<char>>,
    info_hash: Seq<u8>,
    info: Seq<(Seq<u8>, Bencode)>,
    raw: Seq<u8>,
)
    ensures
        ({
            let r = super::torrent_in(root, announce, announce_list, info_hash);
            let found = model::dict_get(root, vstd::utf8::encode_utf8("info"@));
            let piece_length = model::dict_get(info, vstd::utf8::encode_utf8("piece length"@));
            let sized = piece_length matches Some(Bencode::Int(_));
            let pieces = model::dict_get(info, vstd::utf8::encode_utf8("pieces"@));
            &&& found is None ==> r == Err::<Metainfo, TorrentError>(TorrentError::MissingInfo)
            &&& found is Some && !(found->Some_0 is Dict) ==> r == Err::<Metainfo, TorrentError>(
                TorrentError::InfoNotDict,
            )
            &&& found == Some(Bencode::Dict(info)) && !sized ==> r == Err::<Metainfo, TorrentError>(
                TorrentError::MissingPieceLength,
            )
            &&& found == Some(Bencode::Dict(info)) && sized && !(pieces matches Some(
                Bencode::Bytes(_),
            )) ==> r == Err::<Metainfo, TorrentError>(TorrentError::MissingPieces)
            &&& found == Some(Bencode::Dict(info)) && sized && pieces == Some(
                Bencode::Bytes(raw),
            ) ==> {
                &&& raw.len() % 20 != 0 ==> r == Err::<Metainfo, TorrentError>(
                    TorrentError::InvalidPieces,
                )
                &&& raw.len() % 20 == 0 && super::content_length(info) is Err ==> r == Err::<
                    Metainfo,
                    TorrentError,
                >(super::content_length(info)->Err_0)
                &&& raw.len() % 20 == 0 && super::content_length(info) is Ok ==> r is Ok
            }
        }),
{
}

/// What bytes say of a torrent is what their root dictionary says, with the text under `announce`,
/// its trackers, and the digest of the bytes under `info` as they stand.
pub proof fn law_metainfo_is_of_the_root(
    s: Seq<u8>,
    root: Seq<(Seq<u8>, Bencode)>,
    announce: Seq<char>,
)
    requires
        grammar::decoding(s) == Ok::<Bencode, grammar::BencodeError>(Bencode::Dict(root)),
    ensures
        ({
            let named = model::dict_get(root, vstd::utf8::encode_utf8("announce"@));
            let range = span::raw_value(s, vstd::utf8::encode_utf8("info"@));
            &&& !(named matches Some(Bencode::Bytes(_))) ==> super::metainfo(s) == Err::<
                Metainfo,
                TorrentError,
            >(TorrentError::MissingAnnounce)
            &&& named matches Some(Bencode::Bytes(b)) ==> !vstd::utf8::valid_utf8(b)
                ==> super::metainfo(s) == Err::<Metainfo, TorrentError>(
                TorrentError::MissingAnnounce,
            )
            &&& named == Some(Bencode::Bytes(vstd::utf8::encode_utf8(announce))) ==> match range {
                Err(e) => super::metainfo(s) == Err::<Metainfo, TorrentError>(
                    TorrentError::RawInfo(e),
                ),
                Ok((start, end)) => super::metainfo(s) == super::torrent_in(
                    root,
                    announce,
                    super::trackers(root, announce),
                    digest::sha1_of(s.subrange(start, end)),
                ),
            }
        }),
{
    model::law_lookups_read_the_entry(root, vstd::utf8::encode_utf8("announce"@), announce, 0);
}

/// Bytes that are no bencode, or no dictionary, are no torrent.
pub proof fn law_no_torrent(s: Seq<u8>)
    ensures
        grammar::decoding(s) matches Err(e) ==> super::metainfo(s) == Err::<Metainfo, TorrentError>(
            TorrentError::Decode(e),
        ),
        grammar::decoding(s) matches Ok(v) ==> !(v is Dict) ==> super::metainfo(s) == Err::<
            Metainfo,
            TorrentError,
        >(TorrentError::RootNotDict),
{
}

/// The texts among values are taken one after the other; what is no text is passed over. Tiers are
/// taken one after the other; what is no list is passed over.
pub proof fn law_texts_in_turn(items: Seq<Bencode>, v: Bencode, urls: Seq<Bencode>, t: Seq<char>)
    ensures
        super::texts_among(Seq::empty()) == Seq::<Seq<char>>::empty(),
        super::texts_among(items.push(Bencode::Bytes(vstd::utf8::encode_utf8(t))))
            == super::texts_among(items).push(t),
        model::text_of(v) is None ==> super::texts_among(items.push(v)) == super::texts_among(
            items,
        ),
        super::texts_in_tiers(Seq::empty()) == Seq::<Seq<char>>::empty(),
        super::texts_in_tiers(items.push(Bencode::List(urls))) == super::texts_in_tiers(items)
            + super::texts_among(urls),
        !(v is List) ==> super::texts_in_tiers(items.push(v)) == super::texts_in_tiers(items),
{
    let text = Bencode::Bytes(vstd::utf8::encode_utf8(t));
    model::law_texts_are_utf8(text, t);
    assert(items.push(text).drop_last() =~= items);
    assert(items.push(v).drop_last() =~= items);
    assert(items.push(Bencode::List(urls)).drop_last() =~= items);
}

/// The trackers are the texts in the tiers under `announce-list`, or else the given one alone.
pub proof fn law_trackers(d: Seq<(Seq<u8>, Bencode)>, announce: Seq<char>, tiers: Seq<Bencode>)
    ensures
        ({
            let listed = model::dict_get(d, vstd::utf8::encode_utf8("announce-list"@));
            &&& listed == Some(Bencode::List(tiers)) ==> super::trackers(d, announce)
                == if super::texts_in_tiers(tiers).len() > 0 {
                super::texts_in_tiers(tiers)
            } else {
                seq![announce]
            }
            &&& !(listed matches Some(Bencode::List(_))) ==> super::trackers(d, announce) == seq![
                announce,
            ]
        }),
{
}

/// The model of a torrent holds what the torrent holds.
pub proof fn law_torrent_model(t: Torrent, i: int)
    ensures
        t@.announce == t.announce@,
        t@.announce_list.len() == t.announce_list@.len(),
        0 <= i < t.announce_list@.len() ==> t@.announce_list[i] == t.announce_list@[i]@,
        t@.info_hash == t.info_hash@,
        t@.info_hash_hex == t.info_hash_hex@,
        t@.piece_length == t.piece_length,
        t@.pieces.len() == t.pieces@.len(),
        0 <= i < t.pieces@.len() ==> t@.pieces[i] == t.pieces@[i]@,
        t@.name == t.name@,
        t@.length == t.length,
{
}

/// A result agrees with what was expected only if both are errors, and the same, or both are
/// torrents, and the same.
pub proof fn law_agreement(
    r: Result<Torrent, TorrentError>,
    expected: Result<Metainfo, TorrentError>,
)
    requires
        super::agrees(r, expected),
    ensures
        r is Ok <==> expected is Ok,
        r is Ok ==> r->Ok_0@ == expected->Ok_0,
        r is Err ==> r->Err_0 == expected->Err_0,
{
}

/// Every piece but the last is as long as a piece is; the last has between one byte and that many,
/// so that whole pieces are left before it; and past the last there is none.
pub proof fn law_piece_sizes(length: nat, piece_length: nat, count: nat, i: nat)
    ensures
        i >= count ==> super::piece_size_of(length, piece_length, count, i) == 0,
        i + 1 < count ==> super::piece_size_of(length, piece_length, count, i) == piece_length,
        i + 1 == count && piece_length > 0 ==> {
            let last = super::piece_size_of(length, piece_length, count, i);
            &&& 0 < last <= piece_length
            &&& (length - last) % (piece_length as int) == 0
        },
{
    if i + 1 == count && piece_length > 0 {
        let last = super::piece_size_of(length, piece_length, count, i);
        let q = length as int / piece_length as int;
        let p = piece_length as int;
        vstd::arithmetic::div_mod::lemma_fundamental_div_mod(length as int, p);
        vstd::arithmetic::div_mod::lemma_mod_bound(length as int, p);
        if length % piece_length != 0 {
            assert(length - last == p * q);
            vstd::arithmetic::div_mod::lemma_mod_multiples_basic(q, p);
            assert(p * q == q * p) by (nonlinear_arith);
        } else {
            assert(length - last == (q - 1) * p) by (nonlinear_arith)
                requires
                    length == p * q,
                    last == p,
            ;
            vstd::arithmetic::div_mod::lemma_mod_multiples_basic(q - 1, p);
        }
    }
}

/// A block is as long as the standard, or as what the blocks before it leave of the piece.
pub proof fn law_block_sizes(piece_size: nat, k: nat, standard: nat)
    ensures
        k * standard >= piece_size ==> super::block_size_of(piece_size, k, standard) == 0,
        k * standard < piece_size <= k * standard + standard ==> super::block_size_of(
            piece_size,
            k,
            standard,
        ) == piece_size - k * standard,
        k * standard + standard <= piece_size ==> super::block_size_of(piece_size, k, standard)
            == standard,
{
}

/// The size of a piece of a torrent is told by its length, its piece length and the number of its
/// digests.
pub proof fn law_sizes_of_a_torrent(t: Torrent, i: nat)
    ensures
        t.size_of_piece(i) == super::piece_size_of(
            t.length as nat,
            t.piece_length as nat,
            t.pieces@.len(),
            i,
        ),
{
}

/// The text of a digest is two characters for each byte: the hexadecimal digits of the byte, the
/// high one first, in lower case.
pub proof fn law_hex_text(data: Seq<u8>, i: int)
    ensures
        digest::hex_text(data).len() == 2 * data.len(),
        0 <= i < data.len() ==> {
            let digits = seq![
                '0', '1', '2', '3', '4', '5', '6', '7', '8', '9', 'a', 'b', 'c', 'd', 'e', 'f',
            ];
            &&& digest::hex_text(data)[2 * i] == digits[(data[i] / 16) as int]
            &&& digest::hex_text(data)[2 * i + 1] == digits[(data[i] % 16) as int]
        },
{
    if 0 <= i < data.len() {
        lemma_lower_digit(data[i] / 16);
        lemma_lower_digit(data[i] % 16);
        assert((2 * i) / 2 == i && (2 * i) % 2 == 0);
        assert((2 * i + 1) / 2 == i && (2 * i + 1) % 2 == 1);
    }
}

proof fn lemma_lower_digit(d: u8)
    requires
        d < 16,
    ensures
        digest::hex_lower(d) == seq![
            '0', '1', '2', '3', '4', '5', '6', '7', '8', '9', 'a', 'b', 'c', 'd', 'e', 'f',
        ][d as int],
{
}

} // verus!
