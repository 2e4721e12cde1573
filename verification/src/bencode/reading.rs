//! How bytes are read as bencode, byte by byte.

use vstd::prelude::*;
use super::grammar::{self, BencodeError};
use super::model::{self, Bencode};
use super::parser;
use super::span::{self, LookupError, SpanError};
use super::value::{self, BencodeDict, BencodeValue};
use crate::{bytes, decimal, text};

verus! {

/// An integer is what stands between an `i` and the next `e`, in UTF-8. Without an `e` there is
/// none.
pub proof fn law_integers_are_read(s: Seq<u8>, pos: int, stop: int)
    requires
        0 <= pos < stop <= s.len(),
        s[pos] == 105,
        forall|i: int| pos < i < stop ==> s[i] != 101,
        stop < s.len() ==> s[stop] == 101,
    ensures
        stop == s.len() ==> grammar::parse_at(s, pos).value == Err::<Bencode, BencodeError>(
            BencodeError::UnterminatedInt { offset: (pos + 1) as usize },
        ) && grammar::parse_at(s, pos).end == stop,
        stop < s.len() ==> {
            let t = s.subrange(pos + 1, stop);
            let r = grammar::parse_at(s, pos);
            &&& !vstd::utf8::valid_utf8(t) ==> r.value == Err::<Bencode, BencodeError>(
                BencodeError::InvalidUtf8(text::utf8_fault(t)),
            ) && r.end == stop
            &&& vstd::utf8::valid_utf8(t) ==> r.end == stop + 1 && r.value == match decimal::i64_of(
                t,
            ) {
                Some(n) => Ok::<Bencode, BencodeError>(Bencode::Int(n)),
                None => Err(BencodeError::InvalidNumber(decimal::i64_fault(t))),
            }
        },
        span::span_at(s, pos) == if stop < s.len() {
            Ok::<int, SpanError>(stop + 1 - pos)
        } else {
            Err(SpanError::UnterminatedInt)
        },
{
    bytes::lemma_first_from_is(s, pos + 1, 101, stop);
    bytes::lemma_first_from_is(s, pos, 101, stop);
}

/// A byte string is as many bytes after the next colon as the digits before it say. Without a
/// colon, with another text than a length, or without that many bytes, there is none.
pub proof fn law_byte_strings_are_read(s: Seq<u8>, pos: int, colon: int)
    requires
        0 <= pos <= colon <= s.len() <= usize::MAX,
        pos < s.len(),
        48 <= s[pos] <= 57,
        forall|i: int| pos <= i < colon ==> s[i] != 58,
        colon < s.len() ==> s[colon] == 58,
    ensures
        ({
            let t = s.subrange(pos, colon);
            let r = grammar::parse_at(s, pos);
            let extent = span::span_at(s, pos);
            &&& r.value is Err ==> r.end == pos
            &&& colon == s.len() ==> r.value == Err::<Bencode, BencodeError>(
                BencodeError::MissingColon { offset: pos as usize },
            ) && extent == Err::<int, SpanError>(SpanError::MissingColon)
            &&& colon < s.len() && !vstd::utf8::valid_utf8(t) ==> r.value == Err::<
                Bencode,
                BencodeError,
            >(BencodeError::InvalidUtf8(text::utf8_fault(t))) && extent == Err::<int, SpanError>(
                SpanError::InvalidUtf8(text::utf8_fault(t)),
            )
            &&& colon < s.len() && vstd::utf8::valid_utf8(t) && decimal::usize_of(t) is None
                ==> r.value == Err::<Bencode, BencodeError>(
                BencodeError::InvalidNumber(decimal::usize_fault(t)),
            ) && extent == Err::<int, SpanError>(SpanError::InvalidNumber(decimal::usize_fault(t)))
            &&& colon < s.len() && vstd::utf8::valid_utf8(t) ==> (decimal::usize_of(t) matches Some(
                length,
            ) ==> {
                let end = colon + 1 + length;
                &&& end <= s.len() ==> r.value == Ok::<Bencode, BencodeError>(
                    Bencode::Bytes(s.subrange(colon + 1, end)),
                ) && r.end == end && extent == Ok::<int, SpanError>(end - pos)
                &&& s.len() < end <= usize::MAX ==> r.value == Err::<Bencode, BencodeError>(
                    BencodeError::StringTooLong { length, offset: (colon + 1) as usize },
                ) && extent == Err::<int, SpanError>(SpanError::StringTooLong)
                &&& end > usize::MAX ==> r.value == Err::<Bencode, BencodeError>(
                    BencodeError::LengthOverflow { length, offset: (colon + 1) as usize },
                ) && extent is Err
            })
        }),
{
    bytes::lemma_first_from_is(s, pos, 58, colon);
}

/// No value starts with any other byte than `i`, `l`, `d` or a digit, and none stands where the
/// bytes have ended.
pub proof fn law_nothing_else_is_read(s: Seq<u8>, pos: int)
    requires
        0 <= pos,
    ensures
        grammar::decoding(s) == grammar::parse_at(s, 0).value,
        pos >= s.len() ==> grammar::parse_at(s, pos).value == Err::<Bencode, BencodeError>(
            BencodeError::UnexpectedEnd,
        ) && span::span_at(s, pos) == Err::<int, SpanError>(SpanError::EmptyBuffer),
        pos < s.len() && s[pos] != 105 && s[pos] != 108 && s[pos] != 100 && !(48 <= s[pos]
            <= 57) ==> {
            &&& grammar::parse_at(s, pos).value == Err::<Bencode, BencodeError>(
                BencodeError::InvalidPrefix { prefix: s[pos], offset: pos as usize },
            )
            &&& grammar::parse_at(s, pos).end == pos
            &&& span::span_at(s, pos) == Err::<int, SpanError>(SpanError::InvalidToken(s[pos]))
        },
{
}

/// Values stand one after the other: the i-th from `cuts[i]` to `cuts[i + 1]`. None of them starts
/// where an `e` stands.
pub open spec fn in_a_row(s: Seq<u8>, cuts: Seq<int>, items: Seq<Bencode>) -> bool {
    &&& cuts.len() == items.len() + 1
    &&& 0 <= cuts[0] <= s.len()
    &&& forall|i: int|
        0 <= i < items.len() ==> {
            &&& #[trigger] cuts[i] < s.len()
            &&& s[cuts[i]] != 101
            &&& grammar::parse_at(s, cuts[i]).value == Ok::<Bencode, BencodeError>(items[i])
            &&& grammar::parse_at(s, cuts[i]).end == cuts[i + 1]
        }
}

proof fn lemma_list_in_a_row(s: Seq<u8>, cuts: Seq<int>, items: Seq<Bencode>, i: int)
    requires
        in_a_row(s, cuts, items),
        0 <= i <= items.len(),
    ensures
        0 <= cuts[i] <= s.len(),
        grammar::list_at(s, cuts[0], Seq::empty()) == grammar::list_at(s, cuts[i], items.take(i)),
    decreases i,
{
    if i == 0 {
        assert(items.take(0) =~= Seq::<Bencode>::empty());
    } else {
        lemma_list_in_a_row(s, cuts, items, i - 1);
        let at = cuts[i - 1];
        assert(at < s.len());
        grammar::law_parse_advances(s, at);
        assert(items.take(i) =~= items.take(i - 1).push(items[i - 1]));
    }
}

/// A list is the values in a row after an `l`, up to an `e`. Where the bytes end before that, or
/// something in the row is no value, there is none.
pub proof fn law_lists_are_read(s: Seq<u8>, pos: int, cuts: Seq<int>, items: Seq<Bencode>)
    requires
        0 <= pos < s.len(),
        s[pos] == 108,
        in_a_row(s, cuts, items),
        cuts[0] == pos + 1,
    ensures
        ({
            let last = cuts[items.len() as int];
            let r = grammar::parse_at(s, pos);
            &&& last == s.len() ==> r.value == Err::<Bencode, BencodeError>(
                BencodeError::UnterminatedList,
            ) && r.end == last
            &&& last < s.len() && s[last] == 101 ==> r.value == Ok::<Bencode, BencodeError>(
                Bencode::List(items),
            ) && r.end == last + 1
            &&& last < s.len() && s[last] != 101 ==> (grammar::parse_at(s, last).value matches Err(
                e,
            ) ==> r.value == Err::<Bencode, BencodeError>(e) && r.end == grammar::parse_at(
                s,
                last,
            ).end)
        }),
{
    let n = items.len() as int;
    lemma_list_in_a_row(s, cuts, items, n);
    assert(items.take(n) =~= items);
}

/// Keys and values stand one after the other: the i-th key from `cuts[i]` to `mids[i]`, its value
/// from there to `cuts[i + 1]`. No key starts where an `e` stands.
pub open spec fn in_pairs(
    s: Seq<u8>,
    cuts: Seq<int>,
    mids: Seq<int>,
    entries: Seq<(Seq<u8>, Bencode)>,
) -> bool {
    &&& cuts.len() == entries.len() + 1
    &&& mids.len() == entries.len()
    &&& 0 <= cuts[0] <= s.len()
    &&& forall|i: int|
        0 <= i < entries.len() ==> {
            &&& #[trigger] cuts[i] < s.len()
            &&& s[cuts[i]] != 101
            &&& grammar::parse_at(s, cuts[i]).value == Ok::<Bencode, BencodeError>(
                Bencode::Bytes(entries[i].0),
            )
            &&& grammar::parse_at(s, cuts[i]).end == mids[i]
            &&& grammar::parse_at(s, mids[i]).value == Ok::<Bencode, BencodeError>(entries[i].1)
            &&& grammar::parse_at(s, mids[i]).end == cuts[i + 1]
        }
}

/// The last value that comes with a key.
pub open spec fn last_with(entries: Seq<(Seq<u8>, Bencode)>, key: Seq<u8>) -> Option<Bencode>
    decreases entries.len(),
{
    if entries.len() == 0 {
        None
    } else if entries.last().0 == key {
        Some(entries.last().1)
    } else {
        last_with(entries.drop_last(), key)
    }
}

/// The dictionary into which entries were put in turn.
spec fn gathered(entries: Seq<(Seq<u8>, Bencode)>) -> Seq<(Seq<u8>, Bencode)>
    decreases entries.len(),
{
    if entries.len() == 0 {
        Seq::empty()
    } else {
        model::dict_insert(gathered(entries.drop_last()), entries.last().0, entries.last().1)
    }
}

proof fn lemma_gathered(entries: Seq<(Seq<u8>, Bencode)>, key: Seq<u8>)
    ensures
        model::ascending(gathered(entries)),
        model::dict_get(gathered(entries), key) == last_with(entries, key),
    decreases entries.len(),
{
    if entries.len() > 0 {
        let rest = entries.drop_last();
        lemma_gathered(rest, key);
        let last = entries.last();
        model::law_dict_insert_keeps_order(gathered(rest), last.0, last.1);
        model::law_dict_get_after_insert(gathered(rest), last.0, last.1, key);
    }
}

proof fn lemma_dict_in_pairs(
    s: Seq<u8>,
    cuts: Seq<int>,
    mids: Seq<int>,
    entries: Seq<(Seq<u8>, Bencode)>,
    i: int,
)
    requires
        in_pairs(s, cuts, mids, entries),
        0 <= i <= entries.len(),
    ensures
        0 <= cuts[i] <= s.len(),
        grammar::dict_at(s, cuts[0], Seq::empty()) == grammar::dict_at(
            s,
            cuts[i],
            gathered(entries.take(i)),
        ),
    decreases i,
{
    if i == 0 {
        assert(entries.take(0) =~= Seq::<(Seq<u8>, Bencode)>::empty());
    } else {
        lemma_dict_in_pairs(s, cuts, mids, entries, i - 1);
        let at = cuts[i - 1];
        assert(at < s.len());
        grammar::law_parse_advances(s, at);
        grammar::law_parse_advances(s, mids[i - 1]);
        assert(entries.take(i).drop_last() =~= entries.take(i - 1));
        assert(entries.take(i).last() == entries[i - 1]);
    }
}

/// A dictionary is the pairs of keys and values after a `d`, up to an `e`: its keys ascend, and
/// under each key stands the last value that came with it. Where the bytes end before that, a key
/// is no byte string, or something in the row is no value, there is none.
pub proof fn law_dictionaries_are_read(
    s: Seq<u8>,
    pos: int,
    cuts: Seq<int>,
    mids: Seq<int>,
    entries: Seq<(Seq<u8>, Bencode)>,
    key: Seq<u8>,
)
    requires
        0 <= pos < s.len(),
        s[pos] == 100,
        in_pairs(s, cuts, mids, entries),
        cuts[0] == pos + 1,
    ensures
        ({
            let last = cuts[entries.len() as int];
            let r = grammar::parse_at(s, pos);
            let next = grammar::parse_at(s, last);
            &&& last == s.len() ==> r.value == Err::<Bencode, BencodeError>(
                BencodeError::UnterminatedDict,
            ) && r.end == last
            &&& last < s.len() && s[last] == 101 ==> r.end == last + 1 && (r.value matches Ok(
                Bencode::Dict(d),
            ) && model::ascending(d) && model::dict_get(d, key) == last_with(entries, key))
            &&& last < s.len() && s[last] != 101 ==> match next.value {
                Err(e) => r.value == Err::<Bencode, BencodeError>(e) && r.end == next.end,
                Ok(Bencode::Bytes(_)) => grammar::parse_at(s, next.end).value matches Err(e)
                    ==> r.value == Err::<Bencode, BencodeError>(e) && r.end == grammar::parse_at(
                    s,
                    next.end,
                ).end,
                Ok(_) => r.value == Err::<Bencode, BencodeError>(
                    BencodeError::KeyNotByteString { offset: next.end as usize },
                ) && r.end == next.end,
            }
        }),
{
    let n = entries.len() as int;
    lemma_dict_in_pairs(s, cuts, mids, entries, n);
    assert(entries.take(n) =~= entries);
    lemma_gathered(entries, key);
    let last = cuts[n];
    if last < s.len() {
        grammar::law_parse_advances(s, last);
    }
}

/// An extent that does not start with an `e` stands from `from` to `to`.
pub open spec fn extent_at(s: Seq<u8>, from: int, to: int) -> bool {
    &&& 0 <= from < s.len()
    &&& s[from] != 101
    &&& span::span_at(s, from) == Ok::<int, SpanError>(to - from)
}

/// Extents stand one after the other, from `cuts[i]` to `cuts[i + 1]`.
pub open spec fn extents(s: Seq<u8>, cuts: Seq<int>) -> bool {
    &&& cuts.len() > 0
    &&& 0 <= cuts[0] <= s.len()
    &&& forall|i: int, j: int|
        0 <= i < cuts.len() - 1 && j == i + 1 ==> #[trigger] extent_at(s, cuts[i], cuts[j])
}

proof fn lemma_list_extents(s: Seq<u8>, cuts: Seq<int>, i: int)
    requires
        extents(s, cuts),
        0 <= i < cuts.len(),
    ensures
        0 <= cuts[i] <= s.len(),
        span::list_end(s, cuts[0]) == span::list_end(s, cuts[i]),
    decreases i,
{
    if i > 0 {
        lemma_list_extents(s, cuts, i - 1);
        assert(extent_at(s, cuts[i - 1], cuts[i]));
        span::law_span_within(s, cuts[i - 1]);
    }
}

/// The extent of a list is that of the extents in a row after its `l`, and of its `e`.
pub proof fn law_extent_of_a_list(s: Seq<u8>, pos: int, cuts: Seq<int>)
    requires
        0 <= pos < s.len(),
        s[pos] == 108,
        extents(s, cuts),
        cuts[0] == pos + 1,
    ensures
        ({
            let last = cuts.last();
            let r = span::span_at(s, pos);
            &&& last == s.len() ==> r == Err::<int, SpanError>(SpanError::UnterminatedList)
            &&& last < s.len() && s[last] == 101 ==> r == Ok::<int, SpanError>(last + 1 - pos)
            &&& last < s.len() && s[last] != 101 ==> (span::span_at(s, last) matches Err(e) ==> r
                == Err::<int, SpanError>(e))
        }),
{
    lemma_list_extents(s, cuts, cuts.len() - 1);
}

/// A key that does not start with an `e` stands from `from` to `mid`, and its value from there to
/// `to`.
pub open spec fn pair_at(s: Seq<u8>, from: int, mid: int, to: int) -> bool {
    &&& extent_at(s, from, mid)
    &&& 0 <= mid < s.len()
    &&& span::span_at(s, mid) == Ok::<int, SpanError>(to - mid)
}

/// Pairs stand one after the other: the i-th key from `cuts[i]` to `mids[i]`, its value from there
/// to `cuts[i + 1]`.
pub open spec fn pairs(s: Seq<u8>, cuts: Seq<int>, mids: Seq<int>) -> bool {
    &&& cuts.len() == mids.len() + 1
    &&& 0 <= cuts[0] <= s.len()
    &&& forall|i: int, j: int|
        0 <= i < mids.len() && j == i + 1 ==> #[trigger] pair_at(s, cuts[i], mids[i], cuts[j])
}

proof fn lemma_dict_extents(s: Seq<u8>, cuts: Seq<int>, mids: Seq<int>, i: int)
    requires
        pairs(s, cuts, mids),
        0 <= i <= mids.len(),
    ensures
        0 <= cuts[i] <= s.len(),
        span::dict_end(s, cuts[0]) == span::dict_end(s, cuts[i]),
    decreases i,
{
    if i > 0 {
        lemma_dict_extents(s, cuts, mids, i - 1);
        assert(pair_at(s, cuts[i - 1], mids[i - 1], cuts[i]));
        span::law_span_within(s, cuts[i - 1]);
        span::law_span_within(s, mids[i - 1]);
    }
}

/// The extent of a dictionary is that of the pairs in a row after its `d`, and of its `e`.
pub proof fn law_extent_of_a_dictionary(s: Seq<u8>, pos: int, cuts: Seq<int>, mids: Seq<int>)
    requires
        0 <= pos < s.len(),
        s[pos] == 100,
        pairs(s, cuts, mids),
        cuts[0] == pos + 1,
    ensures
        ({
            let last = cuts.last();
            let r = span::span_at(s, pos);
            &&& last == s.len() ==> r == Err::<int, SpanError>(SpanError::UnterminatedDict)
            &&& last < s.len() && s[last] == 101 ==> r == Ok::<int, SpanError>(last + 1 - pos)
            &&& last < s.len() && s[last] != 101 ==> match span::span_at(s, last) {
                Err(e) => r == Err::<int, SpanError>(e),
                Ok(k) => span::span_at(s, last + k) matches Err(e) ==> r == Err::<int, SpanError>(
                    e,
                ),
            }
        }),
{
    lemma_dict_extents(s, cuts, mids, mids.len() as int);
    let last = cuts.last();
    if last < s.len() {
        span::law_span_within(s, last);
    }
}

/// The bytes, decoded on their own, are a byte string other than the target.
pub open spec fn is_other_key(part: Seq<u8>, target: Seq<u8>) -> bool {
    grammar::decoding(part) matches Ok(Bencode::Bytes(key)) && key != target
}

proof fn lemma_raw_past_others(
    s: Seq<u8>,
    cuts: Seq<int>,
    mids: Seq<int>,
    target: Seq<u8>,
    i: int,
)
    requires
        pairs(s, cuts, mids),
        forall|j: int|
            0 <= j < mids.len() ==> #[trigger] is_other_key(s.subrange(cuts[j], mids[j]), target),
        0 <= i <= mids.len(),
    ensures
        0 <= cuts[i] <= s.len(),
        span::raw_at(s, cuts[0], target) == span::raw_at(s, cuts[i], target),
    decreases i,
{
    if i > 0 {
        lemma_raw_past_others(s, cuts, mids, target, i - 1);
        assert(pair_at(s, cuts[i - 1], mids[i - 1], cuts[i]));
        assert(is_other_key(s.subrange(cuts[i - 1], mids[i - 1]), target));
        span::law_span_within(s, cuts[i - 1]);
        span::law_span_within(s, mids[i - 1]);
    }
}

/// Raw lookup passes over the entries with other keys. The bytes of the value after the first key
/// that is the target are found; at the `e`, or where the bytes end, nothing is; and it stops at a
/// key or a value that has no extent, and at a key that is no byte string.
pub proof fn law_raw_lookup(s: Seq<u8>, cuts: Seq<int>, mids: Seq<int>, target: Seq<u8>)
    requires
        s.len() > 0,
        s[0] == 100,
        pairs(s, cuts, mids),
        cuts[0] == 1,
        forall|j: int|
            0 <= j < mids.len() ==> #[trigger] is_other_key(s.subrange(cuts[j], mids[j]), target),
    ensures
        ({
            let last = cuts.last();
            let r = span::raw_value(s, target);
            &&& last == s.len() || s[last] == 101 ==> r == Err::<(int, int), LookupError>(
                LookupError::NotFound,
            )
            &&& last < s.len() && s[last] != 101 ==> match span::span_at(s, last) {
                Err(e) => r == Err::<(int, int), LookupError>(LookupError::Span(e)),
                Ok(k) => match grammar::decoding(s.subrange(last, last + k)) {
                    Err(e) => r == Err::<(int, int), LookupError>(LookupError::Key(e)),
                    Ok(Bencode::Bytes(key)) => match span::span_at(s, last + k) {
                        Err(e) => r == Err::<(int, int), LookupError>(LookupError::Span(e)),
                        Ok(v) => key == target ==> r == Ok::<(int, int), LookupError>(
                            (last + k, last + k + v),
                        ),
                    },
                    Ok(_) => r == Err::<(int, int), LookupError>(LookupError::KeyNotByteString),
                },
            }
        }),
{
    lemma_raw_past_others(s, cuts, mids, target, mids.len() as int);
    let last = cuts.last();
    if last < s.len() && s[last] != 101 {
        span::law_span_within(s, last);
        if let Ok(k) = span::span_at(s, last) {
            span::law_span_within(s, last + k);
        }
    }
}

/// There is no raw lookup in bytes that do not start with a `d`.
pub proof fn law_raw_lookup_needs_a_dictionary(s: Seq<u8>, target: Seq<u8>)
    ensures
        s.len() == 0 || s[0] != 100 ==> span::raw_value(s, target) == Err::<
            (int, int),
            LookupError,
        >(LookupError::NotADict),
{
}

/// The model of a value is the value of the same kind, with the same number, the same bytes, or the
/// models of its items.
pub proof fn law_models_are_namesakes(
    n: i64,
    b: Vec<u8>,
    items: Vec<BencodeValue>,
    d: BencodeDict,
    i: int,
)
    ensures
        BencodeValue::Int(n).model() == Bencode::Int(n),
        BencodeValue::ByteString(b).model() == Bencode::Bytes(b@),
        BencodeValue::List(items).model() == Bencode::List(value::models(items@)),
        BencodeValue::Dict(d).model() == Bencode::Dict(d.model()),
        value::models(items@).len() == items@.len(),
        0 <= i < items@.len() ==> value::models(items@)[i] == items@[i].model(),
{
}

/// A result agrees with what was expected only if both are errors, and the same, or both are
/// values, and the same.
pub proof fn law_agreement(
    r: Result<BencodeValue, BencodeError>,
    expected: Result<Bencode, BencodeError>,
)
    requires
        parser::agrees(r, expected),
    ensures
        r is Ok <==> expected is Ok,
        r is Ok ==> r->Ok_0.model() == expected->Ok_0,
        r is Err ==> r->Err_0 == expected->Err_0,
{
}

} // verus!
