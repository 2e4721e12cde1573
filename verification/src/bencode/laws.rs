//! What holds of encoding, decoding and raw lookup together.

use vstd::prelude::*;
use super::grammar;
use super::model::{self, Bencode, COLON, DICT_MARK, END_MARK, INT_MARK, LIST_MARK};
use super::span::{self, LookupError};
use crate::{bytes, decimal, text};

verus! {

/// Where a value can be decoded, its extent is the bytes that decoding takes.
pub proof fn law_span_is_what_decoding_takes(s: Seq<u8>, pos: int)
    requires
        0 <= pos <= s.len() <= usize::MAX,
        grammar::parse_at(s, pos).value is Ok,
    ensures
        span::span_at(s, pos) == Ok::<int, span::SpanError>(grammar::parse_at(s, pos).end - pos),
    decreases s.len() - pos, 0int,
{
    grammar::law_parse_advances(s, pos);
    if s[pos] == INT_MARK {
        bytes::lemma_first_from(s, pos, END_MARK);
    } else if decimal::is_digit(s[pos]) {
        bytes::lemma_first_from(s, pos, COLON);
    } else if s[pos] == LIST_MARK {
        lemma_list_end(s, pos + 1, Seq::empty());
    } else if s[pos] == DICT_MARK {
        lemma_dict_end(s, pos + 1, Seq::empty());
    }
}

proof fn lemma_list_end(s: Seq<u8>, pos: int, items: Seq<Bencode>)
    requires
        0 <= pos <= s.len() <= usize::MAX,
        grammar::list_at(s, pos, items).value is Ok,
    ensures
        span::list_end(s, pos) == Ok::<int, span::SpanError>(grammar::list_at(s, pos, items).end),
    decreases s.len() - pos, 1int,
{
    if s[pos] != END_MARK {
        let item = grammar::parse_at(s, pos);
        grammar::law_parse_advances(s, pos);
        law_span_is_what_decoding_takes(s, pos);
        lemma_list_end(s, item.end, items.push(item.value->Ok_0));
    }
}

proof fn lemma_dict_end(s: Seq<u8>, pos: int, entries: Seq<(Seq<u8>, Bencode)>)
    requires
        0 <= pos <= s.len() <= usize::MAX,
        grammar::dict_at(s, pos, entries).value is Ok,
    ensures
        span::dict_end(s, pos) == Ok::<int, span::SpanError>(grammar::dict_at(s, pos, entries).end),
    decreases s.len() - pos, 1int,
{
    if s[pos] != END_MARK {
        let key = grammar::parse_at(s, pos);
        grammar::law_parse_advances(s, pos);
        law_span_is_what_decoding_takes(s, pos);
        let item = grammar::parse_at(s, key.end);
        grammar::law_parse_advances(s, key.end);
        law_span_is_what_decoding_takes(s, key.end);
        lemma_dict_end(
            s,
            item.end,
            model::dict_insert(entries, key.value->Ok_0->Bytes_0, item.value->Ok_0),
        );
    }
}

/// What decoding gives is well formed: in every dictionary the keys ascend.
pub proof fn law_decoded_is_well_formed(s: Seq<u8>, pos: int)
    requires
        0 <= pos <= s.len(),
    ensures
        grammar::parse_at(s, pos).value matches Ok(v) ==> model::well_formed(v),
    decreases s.len() - pos, 0int,
{
    if pos < s.len() {
        if s[pos] == LIST_MARK {
            lemma_list_well_formed(s, pos + 1, Seq::empty());
        } else if s[pos] == DICT_MARK {
            lemma_dict_well_formed(s, pos + 1, Seq::empty());
        }
    }
}

proof fn lemma_list_well_formed(s: Seq<u8>, pos: int, items: Seq<Bencode>)
    requires
        0 <= pos <= s.len(),
        forall|i: int| 0 <= i < items.len() ==> model::well_formed(#[trigger] items[i]),
    ensures
        grammar::list_at(s, pos, items).value matches Ok(v) ==> model::well_formed(v),
    decreases s.len() - pos, 1int,
{
    if pos < s.len() && s[pos] != END_MARK {
        let item = grammar::parse_at(s, pos);
        grammar::law_parse_advances(s, pos);
        law_decoded_is_well_formed(s, pos);
        if let Ok(v) = item.value {
            let next = items.push(v);
            assert forall|i: int| 0 <= i < next.len() implies model::well_formed(
                #[trigger] next[i],
            ) by {
                if i < items.len() {
                    assert(next[i] == items[i]);
                }
            }
            lemma_list_well_formed(s, item.end, next);
        }
    }
}

proof fn lemma_dict_well_formed(s: Seq<u8>, pos: int, entries: Seq<(Seq<u8>, Bencode)>)
    requires
        0 <= pos <= s.len(),
        model::well_formed(Bencode::Dict(entries)),
    ensures
        grammar::dict_at(s, pos, entries).value matches Ok(v) ==> model::well_formed(v),
    decreases s.len() - pos, 1int,
{
    if pos < s.len() && s[pos] != END_MARK {
        let key = grammar::parse_at(s, pos);
        grammar::law_parse_advances(s, pos);
        if let Ok(Bencode::Bytes(k)) = key.value {
            let item = grammar::parse_at(s, key.end);
            grammar::law_parse_advances(s, key.end);
            law_decoded_is_well_formed(s, key.end);
            if let Ok(v) = item.value {
                let next = model::dict_insert(entries, k, v);
                model::law_dict_insert_keeps_order(entries, k, v);
                assert forall|i: int| 0 <= i < next.len() implies model::well_formed(
                    (#[trigger] next[i]).1,
                ) by {
                    if next[i] != (k, v) {
                        let j = choose|j: int| 0 <= j < entries.len() && entries[j] == next[i];
                        assert(model::well_formed(entries[j].1));
                    }
                }
                lemma_dict_well_formed(s, item.end, next);
            }
        }
    }
}

/// `t` holds at `pos + d` and after it what `s` holds from `pos` to `end`.
spec fn shifted(s: Seq<u8>, t: Seq<u8>, pos: int, end: int, d: int) -> bool {
    &&& 0 <= pos <= end <= s.len()
    &&& 0 <= pos + d
    &&& end + d <= t.len()
    &&& forall|i: int| pos <= i < end ==> s[i] == #[trigger] t[i + d]
}

proof fn lemma_subrange_shifted(
    s: Seq<u8>,
    t: Seq<u8>,
    pos: int,
    end: int,
    d: int,
    from: int,
    to: int,
)
    requires
        shifted(s, t, pos, end, d),
        pos <= from <= to <= end,
    ensures
        t.subrange(from + d, to + d) == s.subrange(from, to),
{
    let a = s.subrange(from, to);
    let b = t.subrange(from + d, to + d);
    assert forall|i: int| 0 <= i < a.len() implies #[trigger] b[i] == a[i] by {
        assert(s[from + i] == t[from + i + d]);
    }
    assert(a =~= b);
}

/// A value that was read is read again wherever the same bytes stand.
proof fn lemma_parse_shifted(s: Seq<u8>, t: Seq<u8>, pos: int, d: int)
    requires
        0 <= pos <= s.len(),
        t.len() <= usize::MAX,
        grammar::parse_at(s, pos).value is Ok,
        shifted(s, t, pos, grammar::parse_at(s, pos).end, d),
    ensures
        grammar::parse_at(t, pos + d).value == grammar::parse_at(s, pos).value,
        grammar::parse_at(t, pos + d).end == grammar::parse_at(s, pos).end + d,
    decreases s.len() - pos, 0int,
{
    grammar::law_parse_advances(s, pos);
    let end = grammar::parse_at(s, pos).end;
    assert(s[pos] == t[pos + d]);
    if s[pos] == INT_MARK {
        let stop = bytes::first_from(s, pos + 1, END_MARK);
        bytes::lemma_first_from(s, pos + 1, END_MARK);
        assert forall|i: int| pos + 1 + d <= i < stop + d implies t[i] != END_MARK by {
            assert(s[i - d] == t[i - d + d]);
        }
        assert(s[stop] == t[stop + d]);
        bytes::lemma_first_from_is(t, pos + 1 + d, END_MARK, stop + d);
        lemma_subrange_shifted(s, t, pos, end, d, pos + 1, stop);
    } else if decimal::is_digit(s[pos]) {
        let colon = bytes::first_from(s, pos, COLON);
        bytes::lemma_first_from(s, pos, COLON);
        assert forall|i: int| pos + d <= i < colon + d implies t[i] != COLON by {
            assert(s[i - d] == t[i - d + d]);
        }
        assert(s[colon] == t[colon + d]);
        bytes::lemma_first_from_is(t, pos + d, COLON, colon + d);
        lemma_subrange_shifted(s, t, pos, end, d, pos, colon);
        lemma_subrange_shifted(s, t, pos, end, d, colon + 1, end);
    } else if s[pos] == LIST_MARK {
        lemma_list_shifted(s, t, pos + 1, d, Seq::empty());
    } else if s[pos] == DICT_MARK {
        lemma_dict_shifted(s, t, pos + 1, d, Seq::empty());
    }
}

proof fn lemma_list_shifted(s: Seq<u8>, t: Seq<u8>, pos: int, d: int, items: Seq<Bencode>)
    requires
        0 <= pos <= s.len(),
        t.len() <= usize::MAX,
        grammar::list_at(s, pos, items).value is Ok,
        shifted(s, t, pos, grammar::list_at(s, pos, items).end, d),
    ensures
        grammar::list_at(t, pos + d, items).value == grammar::list_at(s, pos, items).value,
        grammar::list_at(t, pos + d, items).end == grammar::list_at(s, pos, items).end + d,
    decreases s.len() - pos, 1int,
{
    grammar::lemma_list_advances(s, pos, items);
    assert(s[pos] == t[pos + d]);
    if s[pos] != END_MARK {
        let item = grammar::parse_at(s, pos);
        grammar::law_parse_advances(s, pos);
        let next = items.push(item.value->Ok_0);
        grammar::lemma_list_advances(s, item.end, next);
        lemma_parse_shifted(s, t, pos, d);
        lemma_list_shifted(s, t, item.end, d, next);
    }
}

proof fn lemma_dict_shifted(
    s: Seq<u8>,
    t: Seq<u8>,
    pos: int,
    d: int,
    entries: Seq<(Seq<u8>, Bencode)>,
)
    requires
        0 <= pos <= s.len(),
        t.len() <= usize::MAX,
        grammar::dict_at(s, pos, entries).value is Ok,
        shifted(s, t, pos, grammar::dict_at(s, pos, entries).end, d),
    ensures
        grammar::dict_at(t, pos + d, entries).value == grammar::dict_at(s, pos, entries).value,
        grammar::dict_at(t, pos + d, entries).end == grammar::dict_at(s, pos, entries).end + d,
    decreases s.len() - pos, 1int,
{
    grammar::lemma_dict_advances(s, pos, entries);
    assert(s[pos] == t[pos + d]);
    if s[pos] != END_MARK {
        let key = grammar::parse_at(s, pos);
        grammar::law_parse_advances(s, pos);
        let item = grammar::parse_at(s, key.end);
        grammar::law_parse_advances(s, key.end);
        let next = model::dict_insert(entries, key.value->Ok_0->Bytes_0, item.value->Ok_0);
        grammar::lemma_dict_advances(s, item.end, next);
        lemma_parse_shifted(s, t, pos, d);
        lemma_parse_shifted(s, t, key.end, d);
        lemma_dict_shifted(s, t, item.end, d, next);
    }
}

/// The bytes that decoding takes decode to the same value on their own.
pub proof fn law_extent_decodes_alone(s: Seq<u8>, pos: int)
    requires
        0 <= pos <= s.len() <= usize::MAX,
        grammar::parse_at(s, pos).value is Ok,
    ensures
        ({
            let end = grammar::parse_at(s, pos).end;
            let part = s.subrange(pos, end);
            &&& pos < end <= s.len()
            &&& grammar::decoding(part) == grammar::parse_at(s, pos).value
            &&& grammar::parse_at(part, 0).end == part.len()
        }),
{
    grammar::law_parse_advances(s, pos);
    let end = grammar::parse_at(s, pos).end;
    let part = s.subrange(pos, end);
    assert forall|i: int| pos <= i < end implies s[i] == #[trigger] part[i + (-pos)] by {}
    lemma_parse_shifted(s, part, pos, -pos);
}

/// Bytes after a decoded value do not count: whatever follows, the same value is decoded from the
/// same bytes.
pub proof fn law_what_follows_does_not_count(s: Seq<u8>, t: Seq<u8>)
    requires
        s.len() + t.len() <= usize::MAX,
        grammar::decoding(s) is Ok,
    ensures
        grammar::decoding(s + t) == grammar::decoding(s),
        grammar::parse_at(s + t, 0).end == grammar::parse_at(s, 0).end,
{
    grammar::law_parse_advances(s, 0);
    lemma_parse_shifted(s, s + t, 0, 0);
}

/// An extent that was found is found again wherever the same bytes stand.
proof fn lemma_span_shifted(s: Seq<u8>, t: Seq<u8>, pos: int, d: int)
    requires
        0 <= pos <= s.len(),
        span::span_at(s, pos) is Ok,
        shifted(s, t, pos, pos + span::span_at(s, pos)->Ok_0, d),
    ensures
        span::span_at(t, pos + d) == span::span_at(s, pos),
    decreases s.len() - pos, 0int,
{
    span::law_span_within(s, pos);
    let end = pos + span::span_at(s, pos)->Ok_0;
    assert(s[pos] == t[pos + d]);
    if s[pos] == INT_MARK {
        let stop = bytes::first_from(s, pos, END_MARK);
        bytes::lemma_first_from(s, pos, END_MARK);
        assert forall|i: int| pos + d <= i < stop + d implies t[i] != END_MARK by {
            assert(s[i - d] == t[i - d + d]);
        }
        assert(s[stop] == t[stop + d]);
        bytes::lemma_first_from_is(t, pos + d, END_MARK, stop + d);
    } else if decimal::is_digit(s[pos]) {
        let colon = bytes::first_from(s, pos, COLON);
        bytes::lemma_first_from(s, pos, COLON);
        assert forall|i: int| pos + d <= i < colon + d implies t[i] != COLON by {
            assert(s[i - d] == t[i - d + d]);
        }
        assert(s[colon] == t[colon + d]);
        bytes::lemma_first_from_is(t, pos + d, COLON, colon + d);
        lemma_subrange_shifted(s, t, pos, end, d, pos, colon);
    } else if s[pos] == LIST_MARK {
        lemma_list_end_shifted(s, t, pos + 1, d);
    } else if s[pos] == DICT_MARK {
        lemma_dict_end_shifted(s, t, pos + 1, d);
    }
}

proof fn lemma_list_end_shifted(s: Seq<u8>, t: Seq<u8>, pos: int, d: int)
    requires
        0 <= pos <= s.len(),
        span::list_end(s, pos) is Ok,
        shifted(s, t, pos, span::list_end(s, pos)->Ok_0, d),
    ensures
        span::list_end(t, pos + d) == Ok::<int, span::SpanError>(span::list_end(s, pos)->Ok_0 + d),
    decreases s.len() - pos, 1int,
{
    span::lemma_list_end_within(s, pos);
    assert(s[pos] == t[pos + d]);
    if s[pos] != END_MARK {
        span::law_span_within(s, pos);
        let next = pos + span::span_at(s, pos)->Ok_0;
        span::lemma_list_end_within(s, next);
        lemma_span_shifted(s, t, pos, d);
        lemma_list_end_shifted(s, t, next, d);
    }
}

proof fn lemma_dict_end_shifted(s: Seq<u8>, t: Seq<u8>, pos: int, d: int)
    requires
        0 <= pos <= s.len(),
        span::dict_end(s, pos) is Ok,
        shifted(s, t, pos, span::dict_end(s, pos)->Ok_0, d),
    ensures
        span::dict_end(t, pos + d) == Ok::<int, span::SpanError>(span::dict_end(s, pos)->Ok_0 + d),
    decreases s.len() - pos, 1int,
{
    span::lemma_dict_end_within(s, pos);
    assert(s[pos] == t[pos + d]);
    if s[pos] != END_MARK {
        span::law_span_within(s, pos);
        let value_at = pos + span::span_at(s, pos)->Ok_0;
        span::law_span_within(s, value_at);
        let next = value_at + span::span_at(s, value_at)->Ok_0;
        span::lemma_dict_end_within(s, next);
        lemma_span_shifted(s, t, pos, d);
        lemma_span_shifted(s, t, value_at, d);
        lemma_dict_end_shifted(s, t, next, d);
    }
}

/// What follows an extent does not count: every byte string that starts with the same bytes has
/// the same extent.
pub proof fn law_extent_is_its_own(s: Seq<u8>, t: Seq<u8>)
    requires
        span::span_at(s, 0) matches Ok(n) && n <= t.len() && t.take(n) == s.take(n),
    ensures
        span::span_at(t, 0) == span::span_at(s, 0),
{
    let n = span::span_at(s, 0)->Ok_0;
    span::law_span_within(s, 0);
    assert forall|i: int| 0 <= i < n implies s[i] == #[trigger] t[i + 0] by {
        assert(s.take(n)[i] == t.take(n)[i]);
    }
    lemma_span_shifted(s, t, 0, 0);
}

/// An extent is the least number of bytes that hold a whole value: fewer of them have none.
pub proof fn law_extent_is_least(s: Seq<u8>, m: int)
    requires
        span::span_at(s, 0) matches Ok(n) && 0 <= m < n,
    ensures
        span::span_at(s.take(m), 0) is Err,
{
    span::law_span_within(s, 0);
    let part = s.take(m);
    span::law_span_within(part, 0);
    if let Ok(k) = span::span_at(part, 0) {
        assert(s.take(k) =~= part.take(k));
        law_extent_is_its_own(part, s);
    }
}

/// `s` holds `part` at `pos`.
spec fn holds_at(s: Seq<u8>, pos: int, part: Seq<u8>) -> bool {
    &&& 0 <= pos
    &&& pos + part.len() <= s.len()
    &&& forall|i: int| 0 <= i < part.len() ==> #[trigger] part[i] == s[pos + i]
}

proof fn lemma_holds_pieces(s: Seq<u8>, pos: int, a: Seq<u8>, b: Seq<u8>)
    requires
        holds_at(s, pos, a + b),
    ensures
        holds_at(s, pos, a),
        holds_at(s, pos + a.len(), b),
{
    assert forall|i: int| 0 <= i < a.len() implies #[trigger] a[i] == s[pos + i] by {
        assert((a + b)[i] == s[pos + i]);
    }
    assert forall|i: int| 0 <= i < b.len() implies #[trigger] b[i] == s[pos + a.len() + i] by {
        assert((a + b)[a.len() + i] == s[pos + (a.len() + i)]);
    }
}

proof fn lemma_first_byte(v: Bencode)
    ensures
        model::encoding(v).len() > 0,
        model::encoding(v)[0] == INT_MARK || decimal::is_digit(model::encoding(v)[0])
            || model::encoding(v)[0] == LIST_MARK || model::encoding(v)[0] == DICT_MARK,
        v is Int <==> model::encoding(v)[0] == INT_MARK,
        v is Bytes <==> decimal::is_digit(model::encoding(v)[0]),
        v is List <==> model::encoding(v)[0] == LIST_MARK,
        v is Dict <==> model::encoding(v)[0] == DICT_MARK,
{
    match v {
        Bencode::Bytes(b) => {
            decimal::lemma_decimal_denotes(b.len());
            assert(model::encoding(v)[0] == decimal::decimal(b.len())[0]);
        },
        _ => {},
    }
}

proof fn lemma_string_read(s: Seq<u8>, pos: int, b: Seq<u8>)
    requires
        s.len() <= usize::MAX,
        holds_at(s, pos, model::string_encoding(b)),
    ensures
        pos < s.len(),
        decimal::is_digit(s[pos]),
        grammar::parse_at(s, pos).value == Ok::<Bencode, grammar::BencodeError>(Bencode::Bytes(b)),
        grammar::parse_at(s, pos).end == pos + model::string_encoding(b).len(),
{
    let digits = decimal::decimal(b.len());
    decimal::lemma_decimal_denotes(b.len());
    lemma_holds_pieces(s, pos, digits + seq![COLON], b);
    lemma_holds_pieces(s, pos, digits, seq![COLON]);
    let colon = pos + digits.len();
    assert(seq![COLON][0] == s[colon + 0]);
    assert(digits[0] == s[pos + 0]);
    assert forall|i: int| pos <= i < colon implies s[i] != COLON by {
        assert(digits[i - pos] == s[pos + (i - pos)]);
    }
    bytes::lemma_first_from_is(s, pos, COLON, colon);
    assert(s.subrange(pos, colon) =~= digits);
    assert forall|i: int| 0 <= i < digits.len() implies #[trigger] digits[i] < 128 by {
        assert(decimal::is_digit(digits[i]));
    }
    text::lemma_ascii_text(digits);
    assert(s.subrange(colon + 1, colon + 1 + b.len()) =~= b);
}

/// Wherever the encoding of a well-formed value stands, that value is read.
proof fn lemma_encoding_read(s: Seq<u8>, pos: int, v: Bencode)
    requires
        s.len() <= usize::MAX,
        model::well_formed(v),
        holds_at(s, pos, model::encoding(v)),
    ensures
        grammar::parse_at(s, pos).value == Ok::<Bencode, grammar::BencodeError>(v),
        grammar::parse_at(s, pos).end == pos + model::encoding(v).len(),
    decreases v, 0int,
{
    lemma_first_byte(v);
    assert(model::encoding(v)[0] == s[pos + 0]);
    match v {
        Bencode::Int(n) => {
            let digits = decimal::signed_decimal(n as int);
            decimal::lemma_signed_decimal_denotes(n as int);
            lemma_holds_pieces(s, pos, seq![INT_MARK] + digits, seq![END_MARK]);
            lemma_holds_pieces(s, pos, seq![INT_MARK], digits);
            let stop = pos + 1 + digits.len();
            assert(seq![END_MARK][0] == s[stop + 0]);
            assert forall|i: int| pos + 1 <= i < stop implies s[i] != END_MARK by {
                assert(digits[i - pos - 1] == s[pos + 1 + (i - pos - 1)]);
            }
            bytes::lemma_first_from_is(s, pos + 1, END_MARK, stop);
            assert(s.subrange(pos + 1, stop) =~= digits);
            text::lemma_ascii_text(digits);
        },
        Bencode::Bytes(b) => {
            lemma_string_read(s, pos, b);
        },
        Bencode::List(items) => {
            let inner = model::items_encoding(items);
            lemma_holds_pieces(s, pos, seq![LIST_MARK] + inner, seq![END_MARK]);
            lemma_holds_pieces(s, pos, seq![LIST_MARK], inner);
            assert(seq![END_MARK][0] == s[pos + 1 + inner.len() + 0]);
            lemma_items_read(s, pos + 1, Seq::empty(), items);
            assert(Seq::<Bencode>::empty() + items =~= items);
        },
        Bencode::Dict(entries) => {
            let inner = model::entries_encoding(entries);
            lemma_holds_pieces(s, pos, seq![DICT_MARK] + inner, seq![END_MARK]);
            lemma_holds_pieces(s, pos, seq![DICT_MARK], inner);
            assert(seq![END_MARK][0] == s[pos + 1 + inner.len() + 0]);
            assert(Seq::<(Seq<u8>, Bencode)>::empty() + entries =~= entries);
            lemma_entries_read(s, pos + 1, Seq::empty(), entries);
        },
    }
}

proof fn lemma_items_read(s: Seq<u8>, pos: int, done: Seq<Bencode>, rest: Seq<Bencode>)
    requires
        s.len() <= usize::MAX,
        forall|i: int| 0 <= i < rest.len() ==> model::well_formed(#[trigger] rest[i]),
        holds_at(s, pos, model::items_encoding(rest)),
        pos + model::items_encoding(rest).len() < s.len(),
        s[pos + model::items_encoding(rest).len()] == END_MARK,
    ensures
        grammar::list_at(s, pos, done).value == Ok::<Bencode, grammar::BencodeError>(
            Bencode::List(done + rest),
        ),
        grammar::list_at(s, pos, done).end == pos + model::items_encoding(rest).len() + 1,
    decreases rest, 1int,
{
    if rest.len() == 0 {
        assert(done + rest =~= done);
    } else {
        let first = rest[0];
        let tail = rest.subrange(1, rest.len() as int);
        let part = model::encoding(first);
        lemma_holds_pieces(s, pos, part, model::items_encoding(tail));
        lemma_first_byte(first);
        assert(part[0] == s[pos + 0]);
        lemma_encoding_read(s, pos, first);
        lemma_items_read(s, pos + part.len(), done.push(first), tail);
        assert(done.push(first) + tail =~= done + rest);
    }
}

/// A key greater than all others goes to the end.
proof fn lemma_insert_at_end(d: Seq<(Seq<u8>, Bencode)>, key: Seq<u8>, value: Bencode)
    requires
        forall|i: int| 0 <= i < d.len() ==> bytes::lex_less(#[trigger] d[i].0, key),
    ensures
        model::dict_insert(d, key, value) == d.push((key, value)),
    decreases d.len(),
{
    if d.len() == 0 {
        assert(d.push((key, value)) =~= seq![(key, value)]);
    } else {
        bytes::lemma_lex_total(d[0].0, key);
        let t = d.skip(1);
        assert forall|i: int| 0 <= i < t.len() implies bytes::lex_less(#[trigger] t[i].0, key) by {
            assert(t[i] == d[i + 1]);
        }
        lemma_insert_at_end(t, key, value);
        assert(d.push((key, value)) =~= seq![d[0]] + t.push((key, value)));
    }
}

proof fn lemma_entries_read(
    s: Seq<u8>,
    pos: int,
    done: Seq<(Seq<u8>, Bencode)>,
    rest: Seq<(Seq<u8>, Bencode)>,
)
    requires
        s.len() <= usize::MAX,
        model::ascending(done + rest),
        forall|i: int| 0 <= i < rest.len() ==> model::well_formed((#[trigger] rest[i]).1),
        holds_at(s, pos, model::entries_encoding(rest)),
        pos + model::entries_encoding(rest).len() < s.len(),
        s[pos + model::entries_encoding(rest).len()] == END_MARK,
    ensures
        grammar::dict_at(s, pos, done).value == Ok::<Bencode, grammar::BencodeError>(
            Bencode::Dict(done + rest),
        ),
        grammar::dict_at(s, pos, done).end == pos + model::entries_encoding(rest).len() + 1,
    decreases rest, 1int,
{
    if rest.len() == 0 {
        assert(done + rest =~= done);
    } else {
        let key = rest[0].0;
        let value = rest[0].1;
        let tail = rest.subrange(1, rest.len() as int);
        let key_part = model::string_encoding(key);
        let part = model::encoding(value);
        lemma_holds_pieces(s, pos, key_part + part, model::entries_encoding(tail));
        lemma_holds_pieces(s, pos, key_part, part);
        lemma_string_read(s, pos, key);
        lemma_encoding_read(s, pos + key_part.len(), value);
        let all = done + rest;
        assert forall|i: int| 0 <= i < done.len() implies bytes::lex_less(
            #[trigger] done[i].0,
            key,
        ) by {
            assert(all[i] == done[i]);
            assert(all[done.len() as int] == rest[0]);
        }
        lemma_insert_at_end(done, key, value);
        assert(done.push((key, value)) + tail =~= all);
        assert forall|i: int| 0 <= i < tail.len() implies model::well_formed(
            (#[trigger] tail[i]).1,
        ) by {
            assert(tail[i] == rest[i + 1]);
        }
        lemma_first_byte(value);
        lemma_entries_read(
            s,
            pos + key_part.len() + part.len(),
            done.push((key, value)),
            tail,
        );
    }
}

/// Decoding gives back the value that was encoded, whatever follows it, and takes exactly the
/// bytes of the encoding.
pub proof fn law_decode_after_encode(v: Bencode, rest: Seq<u8>)
    requires
        model::well_formed(v),
        model::encoding(v).len() + rest.len() <= usize::MAX,
    ensures
        grammar::decoding(model::encoding(v) + rest) == Ok::<Bencode, grammar::BencodeError>(v),
        grammar::parse_at(model::encoding(v) + rest, 0).end == model::encoding(v).len(),
{
    lemma_encoding_read(model::encoding(v) + rest, 0, v);
}

/// Different values have different encodings.
pub proof fn law_encoding_tells_values_apart(v: Bencode, w: Bencode)
    requires
        model::well_formed(v),
        model::well_formed(w),
        model::encoding(v).len() <= usize::MAX,
        model::encoding(v) == model::encoding(w),
    ensures
        v == w,
{
    law_decode_after_encode(v, Seq::empty());
    law_decode_after_encode(w, Seq::empty());
}

proof fn lemma_items_encoding_push(items: Seq<Bencode>, v: Bencode)
    ensures
        model::items_encoding(items.push(v)) == model::items_encoding(items) + model::encoding(v),
    decreases items.len(),
{
    let all = items.push(v);
    let tail = all.subrange(1, all.len() as int);
    if items.len() == 0 {
        assert(tail =~= Seq::<Bencode>::empty());
        assert(model::items_encoding(tail) =~= Seq::<u8>::empty());
        assert(model::items_encoding(all) =~= model::items_encoding(items) + model::encoding(v));
    } else {
        let rest = items.subrange(1, items.len() as int);
        lemma_items_encoding_push(rest, v);
        assert(tail =~= rest.push(v));
        assert(model::items_encoding(all) =~= model::items_encoding(items) + model::encoding(v));
    }
}

proof fn lemma_insert_encoding(d: Seq<(Seq<u8>, Bencode)>, key: Seq<u8>, value: Bencode)
    ensures
        model::entries_encoding(model::dict_insert(d, key, value)).len()
            <= model::entries_encoding(d).len() + model::string_encoding(key).len()
            + model::encoding(value).len(),
    decreases d.len(),
{
    let r = model::dict_insert(d, key, value);
    let tail = r.subrange(1, r.len() as int);
    if d.len() == 0 {
        assert(tail =~= d);
    } else {
        let rest = d.subrange(1, d.len() as int);
        assert(rest =~= d.skip(1));
        if d[0].0 == key {
            assert(tail =~= rest);
        } else if bytes::lex_less(key, d[0].0) {
            assert(tail =~= d);
        } else {
            lemma_insert_encoding(rest, key, value);
            assert(tail =~= model::dict_insert(rest, key, value));
        }
    }
}

/// The canonical encoding of what was decoded is no longer than the bytes that it was decoded
/// from.
pub proof fn law_encoding_is_shortest(s: Seq<u8>, pos: int)
    requires
        0 <= pos <= s.len(),
    ensures
        grammar::parse_at(s, pos).value matches Ok(v) ==> model::encoding(v).len()
            <= grammar::parse_at(s, pos).end - pos,
    decreases s.len() - pos, 0int,
{
    if grammar::parse_at(s, pos).value is Ok {
        if s[pos] == INT_MARK {
            let stop = bytes::first_from(s, pos + 1, END_MARK);
            bytes::lemma_first_from(s, pos + 1, END_MARK);
            decimal::lemma_signed_decimal_is_shortest(s.subrange(pos + 1, stop));
        } else if decimal::is_digit(s[pos]) {
            let colon = bytes::first_from(s, pos, COLON);
            bytes::lemma_first_from(s, pos, COLON);
            decimal::lemma_decimal_is_shortest(s.subrange(pos, colon));
        } else if s[pos] == LIST_MARK {
            lemma_list_is_shortest(s, pos + 1, Seq::empty());
        } else {
            lemma_dict_is_shortest(s, pos + 1, Seq::empty());
        }
    }
}

proof fn lemma_list_is_shortest(s: Seq<u8>, pos: int, items: Seq<Bencode>)
    requires
        0 <= pos <= s.len(),
        grammar::list_at(s, pos, items).value is Ok,
    ensures
        model::encoding(grammar::list_at(s, pos, items).value->Ok_0).len()
            <= model::items_encoding(items).len() + 1 + grammar::list_at(s, pos, items).end - pos,
    decreases s.len() - pos, 1int,
{
    if s[pos] != END_MARK {
        let item = grammar::parse_at(s, pos);
        grammar::law_parse_advances(s, pos);
        law_encoding_is_shortest(s, pos);
        lemma_items_encoding_push(items, item.value->Ok_0);
        lemma_list_is_shortest(s, item.end, items.push(item.value->Ok_0));
    }
}

proof fn lemma_dict_is_shortest(s: Seq<u8>, pos: int, entries: Seq<(Seq<u8>, Bencode)>)
    requires
        0 <= pos <= s.len(),
        grammar::dict_at(s, pos, entries).value is Ok,
    ensures
        model::encoding(grammar::dict_at(s, pos, entries).value->Ok_0).len()
            <= model::entries_encoding(entries).len() + 1 + grammar::dict_at(s, pos, entries).end
            - pos,
    decreases s.len() - pos, 1int,
{
    if s[pos] != END_MARK {
        let key = grammar::parse_at(s, pos);
        grammar::law_parse_advances(s, pos);
        law_encoding_is_shortest(s, pos);
        let item = grammar::parse_at(s, key.end);
        grammar::law_parse_advances(s, key.end);
        law_encoding_is_shortest(s, key.end);
        let k = key.value->Ok_0->Bytes_0;
        lemma_insert_encoding(entries, k, item.value->Ok_0);
        lemma_dict_is_shortest(
            s,
            item.end,
            model::dict_insert(entries, k, item.value->Ok_0),
        );
    }
}

/// Encoding what was decoded gives bytes that decode to the same value.
pub proof fn law_encode_after_decode(s: Seq<u8>)
    requires
        s.len() <= usize::MAX,
    ensures
        grammar::decoding(s) matches Ok(v) ==> grammar::decoding(model::encoding(v)) == Ok::<
            Bencode,
            grammar::BencodeError,
        >(v),
{
    if let Ok(v) = grammar::decoding(s) {
        grammar::law_parse_advances(s, 0);
        law_encoding_is_shortest(s, 0);
        law_decoded_is_well_formed(s, 0);
        law_decode_after_encode(v, Seq::empty());
        assert(model::encoding(v) + Seq::<u8>::empty() =~= model::encoding(v));
    }
}

/// How often a key occurs in an encoded dictionary whose next entry is at `pos`.
pub open spec fn key_count(s: Seq<u8>, pos: int, target: Seq<u8>) -> nat
    decreases s.len() - pos,
{
    if pos >= s.len() || s[pos] == END_MARK {
        0
    } else {
        let key = grammar::parse_at(s, pos);
        let item = grammar::parse_at(s, key.end);
        if pos < item.end <= s.len() {
            (if key.value == Ok::<Bencode, grammar::BencodeError>(Bencode::Bytes(target)) {
                1nat
            } else {
                0nat
            }) + key_count(s, item.end, target)
        } else {
            0
        }
    }
}

proof fn lemma_raw_at(
    s: Seq<u8>,
    pos: int,
    entries: Seq<(Seq<u8>, Bencode)>,
    target: Seq<u8>,
)
    requires
        0 <= pos <= s.len() <= usize::MAX,
        grammar::dict_at(s, pos, entries).value is Ok,
        model::ascending(entries),
    ensures
        grammar::dict_at(s, pos, entries).value->Ok_0 is Dict,
        ({
            let d = grammar::dict_at(s, pos, entries).value->Ok_0->Dict_0;
            let n = key_count(s, pos, target);
            match span::raw_at(s, pos, target) {
                Ok((start, end)) => {
                    &&& n > 0
                    &&& 0 <= start < end <= s.len()
                    &&& grammar::parse_at(s, start).value is Ok
                    &&& grammar::parse_at(s, start).end == end
                    &&& n == 1 ==> model::dict_get(d, target) == Some(
                        grammar::parse_at(s, start).value->Ok_0,
                    )
                },
                Err(e) => {
                    &&& e == LookupError::NotFound
                    &&& n == 0
                    &&& model::dict_get(d, target) == model::dict_get(entries, target)
                },
            }
        }),
    decreases s.len() - pos,
{
    if s[pos] != END_MARK {
        let key = grammar::parse_at(s, pos);
        grammar::law_parse_advances(s, pos);
        law_span_is_what_decoding_takes(s, pos);
        law_extent_decodes_alone(s, pos);
        let k = key.value->Ok_0->Bytes_0;
        let item = grammar::parse_at(s, key.end);
        grammar::law_parse_advances(s, key.end);
        law_span_is_what_decoding_takes(s, key.end);
        let v = item.value->Ok_0;
        let next = model::dict_insert(entries, k, v);
        model::law_dict_insert_keeps_order(entries, k, v);
        model::law_dict_get_after_insert(entries, k, v, target);
        lemma_raw_at(s, item.end, next, target);
    }
}

/// In bytes that decode to a dictionary, raw lookup finds exactly the keys of the dictionary,
/// and what it finds decodes on its own, with nothing left over. Of a key that the bytes hold
/// once, it decodes to the value that the dictionary has under the key.
pub proof fn law_raw_value_is_the_entry(s: Seq<u8>, target: Seq<u8>, d: Seq<(Seq<u8>, Bencode)>)
    requires
        s.len() <= usize::MAX,
        grammar::decoding(s) == Ok::<Bencode, grammar::BencodeError>(Bencode::Dict(d)),
    ensures
        match span::raw_value(s, target) {
            Ok((start, end)) => {
                &&& key_count(s, 1, target) > 0
                &&& 0 <= start < end <= s.len()
                &&& grammar::decoding(s.subrange(start, end)) is Ok
                &&& span::span_at(s.subrange(start, end), 0) == Ok::<int, span::SpanError>(
                    end - start,
                )
                &&& key_count(s, 1, target) == 1 ==> model::dict_get(d, target) == Some(
                    grammar::decoding(s.subrange(start, end))->Ok_0,
                )
            },
            Err(e) => {
                &&& e == LookupError::NotFound
                &&& key_count(s, 1, target) == 0
                &&& model::dict_get(d, target) is None
            },
        },
{
    lemma_only_dicts_start_so(s);
    lemma_raw_at(s, 1, Seq::empty(), target);
    if let Ok((start, end)) = span::raw_value(s, target) {
        law_extent_decodes_alone(s, start);
        law_span_is_what_decoding_takes(s.subrange(start, end), 0);
    }
}

proof fn lemma_raw_extent(s: Seq<u8>, pos: int, target: Seq<u8>)
    requires
        0 <= pos <= s.len(),
    ensures
        span::raw_at(s, pos, target) matches Ok((start, end)) ==> 0 <= start < end <= s.len()
            && span::span_at(s, start) == Ok::<int, span::SpanError>(end - start),
    decreases s.len() - pos,
{
    if pos < s.len() && s[pos] != END_MARK {
        if let Ok(k) = span::span_at(s, pos) {
            span::law_span_within(s, pos);
            if let Ok(n) = span::span_at(s, pos + k) {
                span::law_span_within(s, pos + k);
                lemma_raw_extent(s, pos + k + n, target);
            }
        }
    }
}

/// What raw lookup finds is one whole value, whatever else stands in the bytes: its own extent is
/// its whole length.
pub proof fn law_raw_value_is_whole(s: Seq<u8>, target: Seq<u8>)
    ensures
        span::raw_value(s, target) matches Ok((start, end)) ==> 0 <= start < end <= s.len()
            && span::span_at(s.subrange(start, end), 0) == Ok::<int, span::SpanError>(end - start),
{
    if let Ok((start, end)) = span::raw_value(s, target) {
        lemma_raw_extent(s, 1, target);
        let part = s.subrange(start, end);
        assert forall|i: int| start <= i < end implies s[i] == #[trigger] part[i + (-start)] by {}
        lemma_span_shifted(s, part, start, -start);
    }
}

proof fn lemma_raw_of_entries(s: Seq<u8>, pos: int, rest: Seq<(Seq<u8>, Bencode)>, i: int)
    requires
        s.len() <= usize::MAX,
        model::ascending(rest),
        forall|j: int| 0 <= j < rest.len() ==> model::well_formed((#[trigger] rest[j]).1),
        holds_at(s, pos, model::entries_encoding(rest)),
        0 <= i < rest.len(),
    ensures
        span::raw_at(s, pos, rest[i].0) matches Ok((start, end)) && 0 <= start <= end <= s.len()
            && s.subrange(start, end) == model::encoding(rest[i].1),
    decreases rest.len(),
{
    let key = rest[0].0;
    let value = rest[0].1;
    let tail = rest.subrange(1, rest.len() as int);
    let key_part = model::string_encoding(key);
    let part = model::encoding(value);
    let at = pos + key_part.len();
    lemma_holds_pieces(s, pos, key_part + part, model::entries_encoding(tail));
    lemma_holds_pieces(s, pos, key_part, part);
    lemma_string_read(s, pos, key);
    lemma_encoding_read(s, at, value);
    law_span_is_what_decoding_takes(s, pos);
    law_extent_decodes_alone(s, pos);
    law_span_is_what_decoding_takes(s, at);
    lemma_first_byte(value);
    if i == 0 {
        assert(s.subrange(at, at + part.len()) =~= part);
    } else {
        bytes::lemma_lex_total(rest[0].0, rest[i].0);
        assert forall|j: int| 0 <= j < tail.len() implies model::well_formed(
            (#[trigger] tail[j]).1,
        ) by {
            assert(tail[j] == rest[j + 1]);
        }
        lemma_raw_of_entries(s, at + part.len(), tail, i - 1);
    }
}

/// In the canonical encoding of a dictionary, raw lookup gives the canonical encoding of the
/// value under the key.
pub proof fn law_raw_value_of_canonical(d: Seq<(Seq<u8>, Bencode)>, i: int)
    requires
        model::well_formed(Bencode::Dict(d)),
        model::encoding(Bencode::Dict(d)).len() <= usize::MAX,
        0 <= i < d.len(),
    ensures
        ({
            let s = model::encoding(Bencode::Dict(d));
            span::raw_value(s, d[i].0) matches Ok((start, end)) && 0 <= start <= end <= s.len()
                && s.subrange(start, end) == model::encoding(d[i].1)
        }),
{
    let s = model::encoding(Bencode::Dict(d));
    let inner = model::entries_encoding(d);
    assert(holds_at(s, 0, seq![DICT_MARK] + inner));
    lemma_holds_pieces(s, 0, seq![DICT_MARK], inner);
    lemma_raw_of_entries(s, 1, d, i);
}

proof fn lemma_list_is_list(s: Seq<u8>, pos: int, items: Seq<Bencode>)
    requires
        0 <= pos <= s.len(),
    ensures
        grammar::list_at(s, pos, items).value matches Ok(v) ==> v is List,
    decreases s.len() - pos,
{
    if pos < s.len() && s[pos] != END_MARK {
        let item = grammar::parse_at(s, pos);
        grammar::law_parse_advances(s, pos);
        if let Ok(v) = item.value {
            lemma_list_is_list(s, item.end, items.push(v));
        }
    }
}

proof fn lemma_only_dicts_start_so(s: Seq<u8>)
    ensures
        grammar::decoding(s) matches Ok(Bencode::Dict(_)) ==> s.len() > 0 && s[0] == DICT_MARK,
{
    if s.len() > 0 && s[0] == LIST_MARK {
        lemma_list_is_list(s, 1, Seq::empty());
    }
}

} // verus!
