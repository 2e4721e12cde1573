//! The model of bencode: what a value is, how a dictionary behaves, and what the canonical
//! encoding of a value is.

use vstd::prelude::*;
use crate::{bytes, decimal};

verus! {

/// The letter `i`, which starts an integer.
pub const INT_MARK: u8 = 105;

/// The letter `l`, which starts a list.
pub const LIST_MARK: u8 = 108;

/// The letter `d`, which starts a dictionary.
pub const DICT_MARK: u8 = 100;

/// The letter `e`, which ends an integer, a list or a dictionary.
pub const END_MARK: u8 = 101;

/// The colon, which stands between the length of a byte string and its bytes.
pub const COLON: u8 = 58;

/// What a bencode value is: the model that contracts speak of.
///
/// A dictionary is the sequence of its entries; in a well-formed one the keys ascend.
pub enum Bencode {
    Int(i64),
    Bytes(Seq<u8>),
    List(Seq<Bencode>),
    Dict(Seq<(Seq<u8>, Bencode)>),
}

/// The value under the first entry with the key.
pub open spec fn dict_get(d: Seq<(Seq<u8>, Bencode)>, key: Seq<u8>) -> Option<Bencode>
    decreases d.len(),
{
    if d.len() == 0 {
        None
    } else if d[0].0 == key {
        Some(d[0].1)
    } else {
        dict_get(d.skip(1), key)
    }
}

/// The entries after a value was put under a key: it takes the place of the key's earlier value,
/// or else stands before the first greater key.
pub open spec fn dict_insert(
    d: Seq<(Seq<u8>, Bencode)>,
    key: Seq<u8>,
    value: Bencode,
) -> Seq<(Seq<u8>, Bencode)>
    decreases d.len(),
{
    if d.len() == 0 {
        seq![(key, value)]
    } else if d[0].0 == key {
        seq![(key, value)] + d.skip(1)
    } else if bytes::lex_less(key, d[0].0) {
        seq![(key, value)] + d
    } else {
        seq![d[0]] + dict_insert(d.skip(1), key, value)
    }
}

/// The text that a value holds: that of a byte string in UTF-8.
pub open spec fn text_of(v: Bencode) -> Option<Seq<char>> {
    match v {
        Bencode::Bytes(b) => if vstd::utf8::valid_utf8(b) {
            Some(vstd::utf8::decode_utf8(b))
        } else {
            None
        },
        _ => None,
    }
}

/// The value under a key of a value that is a dictionary.
pub open spec fn entry_of(v: Bencode, key: Seq<u8>) -> Option<Bencode> {
    match v {
        Bencode::Dict(d) => dict_get(d, key),
        _ => None,
    }
}

/// The text under a key.
pub open spec fn text_at(d: Seq<(Seq<u8>, Bencode)>, key: Seq<u8>) -> Option<Seq<char>> {
    match dict_get(d, key) {
        Some(v) => text_of(v),
        None => None,
    }
}

/// The integer under a key.
pub open spec fn int_at(d: Seq<(Seq<u8>, Bencode)>, key: Seq<u8>) -> Option<i64> {
    match dict_get(d, key) {
        Some(Bencode::Int(n)) => Some(n),
        _ => None,
    }
}

/// The keys ascend, so no key occurs twice.
pub open spec fn ascending(d: Seq<(Seq<u8>, Bencode)>) -> bool {
    forall|i: int, j: int|
        0 <= i < j < d.len() ==> bytes::lex_less(#[trigger] d[i].0, #[trigger] d[j].0)
}

/// Every dictionary in the value has ascending keys.
pub open spec fn well_formed(v: Bencode) -> bool
    decreases v,
{
    match v {
        Bencode::Int(_) => true,
        Bencode::Bytes(_) => true,
        Bencode::List(items) => forall|i: int|
            0 <= i < items.len() ==> well_formed(#[trigger] items[i]),
        Bencode::Dict(entries) => ascending(entries) && forall|i: int|
            0 <= i < entries.len() ==> well_formed((#[trigger] entries[i]).1),
    }
}

/// The encoding of a byte string: its length in decimal, a colon and the bytes.
pub open spec fn string_encoding(b: Seq<u8>) -> Seq<u8> {
    decimal::decimal(b.len()) + seq![COLON] + b
}

/// The encodings of the items, one after the other.
pub open spec fn items_encoding(items: Seq<Bencode>) -> Seq<u8>
    decreases items,
{
    if items.len() == 0 {
        Seq::empty()
    } else {
        encoding(items[0]) + items_encoding(items.subrange(1, items.len() as int))
    }
}

/// The encodings of the entries, one after the other: of each the key, then the value.
pub open spec fn entries_encoding(entries: Seq<(Seq<u8>, Bencode)>) -> Seq<u8>
    decreases entries,
{
    if entries.len() == 0 {
        Seq::empty()
    } else {
        string_encoding(entries[0].0) + encoding(entries[0].1) + entries_encoding(
            entries.subrange(1, entries.len() as int),
        )
    }
}

/// The encoding of a value.
pub open spec fn encoding(v: Bencode) -> Seq<u8>
    decreases v,
{
    match v {
        Bencode::Int(n) => seq![INT_MARK] + decimal::signed_decimal(n as int) + seq![END_MARK],
        Bencode::Bytes(b) => string_encoding(b),
        Bencode::List(items) => seq![LIST_MARK] + items_encoding(items) + seq![END_MARK],
        Bencode::Dict(entries) => seq![DICT_MARK] + entries_encoding(entries) + seq![END_MARK],
    }
}

/// What stands under a key is the value of the first entry with the key; without such an entry
/// nothing does.
pub proof fn law_first_entry_counts(d: Seq<(Seq<u8>, Bencode)>, key: Seq<u8>, i: int)
    requires
        0 <= i <= d.len(),
        forall|j: int| 0 <= j < i ==> (#[trigger] d[j]).0 != key,
        i < d.len() ==> d[i].0 == key,
    ensures
        dict_get(d, key) == if i < d.len() {
            Some(d[i].1)
        } else {
            None
        },
    decreases i,
{
    if i > 0 {
        assert(d[0].0 != key);
        assert forall|j: int| 0 <= j < i - 1 implies (#[trigger] d.skip(1)[j]).0 != key by {
            assert(d.skip(1)[j] == d[j + 1]);
        }
        law_first_entry_counts(d.skip(1), key, i - 1);
    }
}

/// The text of a byte string is the one that it encodes in UTF-8; no other value is a text.
pub proof fn law_texts_are_utf8(v: Bencode, t: Seq<char>)
    ensures
        text_of(Bencode::Bytes(vstd::utf8::encode_utf8(t))) == Some(t),
        text_of(v) == Some(t) <==> v == Bencode::Bytes(vstd::utf8::encode_utf8(t)),
{
    vstd::utf8::encode_utf8_valid_utf8(t);
    vstd::utf8::encode_utf8_decode_utf8(t);
    if let Bencode::Bytes(b) = v {
        if vstd::utf8::valid_utf8(b) {
            vstd::utf8::decode_utf8_encode_utf8(b);
        }
    }
}

/// The text or the integer under a key is what the value there holds, and the entry of a
/// dictionary is what stands under the key.
pub proof fn law_lookups_read_the_entry(
    d: Seq<(Seq<u8>, Bencode)>,
    key: Seq<u8>,
    t: Seq<char>,
    n: i64,
)
    ensures
        entry_of(Bencode::Dict(d), key) == dict_get(d, key),
        text_at(d, key) == Some(t) <==> dict_get(d, key) == Some(
            Bencode::Bytes(vstd::utf8::encode_utf8(t)),
        ),
        int_at(d, key) == Some(n) <==> dict_get(d, key) == Some(Bencode::Int(n)),
{
    if let Some(v) = dict_get(d, key) {
        law_texts_are_utf8(v, t);
    }
}

/// Only a dictionary has entries under keys.
pub proof fn law_only_dictionaries_have_entries(v: Bencode, key: Seq<u8>)
    requires
        !(v is Dict),
    ensures
        entry_of(v, key) is None,
{
}

/// Encodings are framed by single letters: `i` and `e` around the text of an integer, `l` and `e`
/// around the items of a list, `d` and `e` around the entries of a dictionary; a byte string
/// stands after its length and a colon.
pub proof fn law_encodings_are_framed(
    n: i64,
    b: Seq<u8>,
    items: Seq<Bencode>,
    entries: Seq<(Seq<u8>, Bencode)>,
)
    ensures
        encoding(Bencode::Int(n)) == seq![105u8] + decimal::signed_decimal(n as int) + seq![101u8],
        encoding(Bencode::Bytes(b)) == decimal::decimal(b.len()) + seq![58u8] + b,
        encoding(Bencode::List(items)) == seq![108u8] + items_encoding(items) + seq![101u8],
        encoding(Bencode::Dict(entries)) == seq![100u8] + entries_encoding(entries) + seq![101u8],
{
}

/// Items and entries are encoded one by one: nothing stands between them.
pub proof fn law_encodings_are_joined(
    items: Seq<Bencode>,
    v: Bencode,
    entries: Seq<(Seq<u8>, Bencode)>,
    key: Seq<u8>,
)
    ensures
        items_encoding(Seq::empty()) == Seq::<u8>::empty(),
        items_encoding(seq![v] + items) == encoding(v) + items_encoding(items),
        entries_encoding(Seq::empty()) == Seq::<u8>::empty(),
        entries_encoding(seq![(key, v)] + entries) == encoding(Bencode::Bytes(key)) + encoding(v)
            + entries_encoding(entries),
{
    let more = seq![v] + items;
    assert(more.subrange(1, more.len() as int) =~= items);
    let all = seq![(key, v)] + entries;
    assert(all.subrange(1, all.len() as int) =~= entries);
}

/// A dictionary gives back what was put under a key, and what stood under the other keys stays.
pub proof fn law_dict_get_after_insert(
    d: Seq<(Seq<u8>, Bencode)>,
    key: Seq<u8>,
    value: Bencode,
    other: Seq<u8>,
)
    requires
        ascending(d),
    ensures
        dict_get(dict_insert(d, key, value), key) == Some(value),
        other != key ==> dict_get(dict_insert(d, key, value), other) == dict_get(d, other),
    decreases d.len(),
{
    let r = dict_insert(d, key, value);
    reveal_with_fuel(dict_get, 2);
    if d.len() == 0 {
        assert(r.skip(1) =~= d);
    } else if d[0].0 == key {
        assert(r.skip(1) =~= d.skip(1));
    } else if bytes::lex_less(key, d[0].0) {
        assert(r.skip(1) =~= d);
    } else {
        assert(ascending(d.skip(1)));
        law_dict_get_after_insert(d.skip(1), key, value, other);
        assert(r.skip(1) =~= dict_insert(d.skip(1), key, value));
    }
}

/// Putting a value under a key keeps the keys ascending.
pub proof fn law_dict_insert_keeps_order(
    d: Seq<(Seq<u8>, Bencode)>,
    key: Seq<u8>,
    value: Bencode,
)
    requires
        ascending(d),
    ensures
        ascending(dict_insert(d, key, value)),
        forall|i: int|
            0 <= i < dict_insert(d, key, value).len() ==> {
                let e = #[trigger] dict_insert(d, key, value)[i];
                e == (key, value) || d.contains(e)
            },
    decreases d.len(),
{
    let r = dict_insert(d, key, value);
    if d.len() == 0 {
    } else if d[0].0 == key {
        assert forall|i: int| 0 <= i < r.len() implies {
            let e = #[trigger] r[i];
            e == (key, value) || d.contains(e)
        } by {
            if i > 0 {
                assert(r[i] == d[i]);
            }
        }
        assert forall|i: int, j: int| 0 <= i < j < r.len() implies bytes::lex_less(
            #[trigger] r[i].0,
            #[trigger] r[j].0,
        ) by {
            assert(r[i].0 == d[i].0);
            assert(r[j].0 == d[j].0);
        }
    } else if bytes::lex_less(key, d[0].0) {
        assert forall|i: int| 0 <= i < r.len() implies {
            let e = #[trigger] r[i];
            e == (key, value) || d.contains(e)
        } by {
            if i > 0 {
                assert(r[i] == d[i - 1]);
            }
        }
        assert forall|i: int, j: int| 0 <= i < j < r.len() implies bytes::lex_less(
            #[trigger] r[i].0,
            #[trigger] r[j].0,
        ) by {
            assert(r[j].0 == d[j - 1].0);
            if i > 0 {
                assert(r[i].0 == d[i - 1].0);
            } else if j > 1 {
                bytes::lemma_lex_transitive(key, d[0].0, d[j - 1].0);
            }
        }
    } else {
        let t = d.skip(1);
        assert(ascending(t));
        law_dict_insert_keeps_order(t, key, value);
        let rt = dict_insert(t, key, value);
        bytes::lemma_lex_total(key, d[0].0);
        assert forall|i: int| 0 <= i < r.len() implies {
            let e = #[trigger] r[i];
            e == (key, value) || d.contains(e)
        } by {
            if i > 0 {
                assert(r[i] == rt[i - 1]);
                if rt[i - 1] != (key, value) {
                    let k = choose|k: int| 0 <= k < t.len() && t[k] == rt[i - 1];
                    assert(d[k + 1] == rt[i - 1]);
                }
            } else {
                assert(r[0] == d[0]);
            }
        }
        assert forall|i: int, j: int| 0 <= i < j < r.len() implies bytes::lex_less(
            #[trigger] r[i].0,
            #[trigger] r[j].0,
        ) by {
            assert(r[j] == rt[j - 1]);
            if i > 0 {
                assert(r[i] == rt[i - 1]);
            } else if rt[j - 1] != (key, value) {
                let k = choose|k: int| 0 <= k < t.len() && t[k] == rt[j - 1];
                assert(d[k + 1] == rt[j - 1]);
                assert(bytes::lex_less(d[0].0, d[k + 1].0));
            }
        }
    }
}

/// An entry of a dictionary with ascending keys is what its key finds.
pub proof fn law_dict_get_finds_entry(d: Seq<(Seq<u8>, Bencode)>, i: int)
    requires
        ascending(d),
        0 <= i < d.len(),
    ensures
        dict_get(d, d[i].0) == Some(d[i].1),
    decreases d.len(),
{
    if i > 0 {
        bytes::lemma_lex_total(d[0].0, d[i].0);
        assert(ascending(d.skip(1)));
        law_dict_get_finds_entry(d.skip(1), i - 1);
    }
}

} // verus!
