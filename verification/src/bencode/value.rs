//! Bencode values and their canonical encoding.

use vstd::prelude::*;
use crate::bytes::{compare, push_bytes, same_bytes, Standing};
use crate::decimal::{push_decimal, push_signed_decimal};
use crate::text::utf8_text;
use super::model::{self, Bencode, COLON, DICT_MARK, END_MARK, INT_MARK, LIST_MARK};

verus! {

/// A bencode value.
#[derive(Debug, PartialEq, Eq)]
pub enum BencodeValue {
    Int(i64),
    ByteString(Vec<u8>),
    List(Vec<BencodeValue>),
    Dict(BencodeDict),
}

/// One entry of a dictionary.
#[derive(Debug, PartialEq, Eq)]
struct DictEntry {
    key: Vec<u8>,
    value: BencodeValue,
}

/// A dictionary: entries in ascending order of their keys, each key once.
#[derive(Debug, PartialEq, Eq)]
pub struct BencodeDict {
    entries: Vec<DictEntry>,
}

/// The models of a sequence of values.
pub open spec fn models(items: Seq<BencodeValue>) -> Seq<Bencode>
    decreases items,
{
    Seq::new(
        items.len(),
        |i: int|
            if 0 <= i < items.len() {
                items[i].model()
            } else {
                arbitrary()
            },
    )
}

spec fn entry_models(entries: Seq<DictEntry>) -> Seq<(Seq<u8>, Bencode)>
    decreases entries,
{
    Seq::new(
        entries.len(),
        |i: int|
            if 0 <= i < entries.len() {
                (entries[i].key@, entries[i].value.model())
            } else {
                arbitrary()
            },
    )
}

pub proof fn lemma_models_push(items: Seq<BencodeValue>, v: BencodeValue)
    ensures
        models(items.push(v)) == models(items).push(v.model()),
{
    assert(models(items.push(v)) =~= models(items).push(v.model()));
}

proof fn lemma_entry_models_push(entries: Seq<DictEntry>, e: DictEntry)
    ensures
        entry_models(entries.push(e)) == entry_models(entries).push((e.key@, e.value.model())),
{
    assert(entry_models(entries.push(e)) =~= entry_models(entries).push(
        (e.key@, e.value.model()),
    ));
}

impl BencodeValue {
    pub open spec fn model(self) -> Bencode
        decreases self,
    {
        match self {
            BencodeValue::Int(n) => Bencode::Int(n),
            BencodeValue::ByteString(b) => Bencode::Bytes(b@),
            BencodeValue::List(items) => Bencode::List(models(items@)),
            BencodeValue::Dict(d) => Bencode::Dict(d.model()),
        }
    }

    /// The integer, where the value is one.
    pub fn as_int(&self) -> (r: Option<i64>)
        ensures
            r == match *self {
                BencodeValue::Int(n) => Some(n),
                _ => None,
            },
    {
        match self {
            BencodeValue::Int(n) => Some(*n),
            _ => None,
        }
    }

    /// The bytes, where the value is a byte string.
    pub fn as_bytes(&self) -> (r: Option<&[u8]>)
        ensures
            match (r, *self) {
                (Some(b), BencodeValue::ByteString(v)) => b@ == v@,
                (None, BencodeValue::ByteString(_)) => false,
                (r, _) => r is None,
            },
    {
        match self {
            BencodeValue::ByteString(b) => Some(b.as_slice()),
            _ => None,
        }
    }

    /// The text, where the value is a byte string that holds UTF-8.
    pub fn as_str(&self) -> (r: Option<&str>)
        ensures
            match (r, model::text_of(self.model())) {
                (Some(s), Some(t)) => s@ == t,
                (None, None) => true,
                _ => false,
            },
    {
        match self.as_bytes() {
            Some(b) => match utf8_text(b) {
                Ok(s) => Some(s),
                Err(_) => None,
            },
            None => None,
        }
    }

    /// The items, where the value is a list.
    pub fn as_list(&self) -> (r: Option<&[BencodeValue]>)
        ensures
            match (r, *self) {
                (Some(l), BencodeValue::List(v)) => l@ == v@,
                (None, BencodeValue::List(_)) => false,
                (r, _) => r is None,
            },
    {
        match self {
            BencodeValue::List(l) => Some(l.as_slice()),
            _ => None,
        }
    }

    /// The dictionary, where the value is one.
    pub fn as_dict(&self) -> (r: Option<&BencodeDict>)
        ensures
            match (r, *self) {
                (Some(d), BencodeValue::Dict(v)) => *d == v,
                (None, BencodeValue::Dict(_)) => false,
                (r, _) => r is None,
            },
    {
        match self {
            BencodeValue::Dict(d) => Some(d),
            _ => None,
        }
    }

    /// The value under a key, where this value is a dictionary that has the key.
    pub fn get_dict_entry(&self, key: &[u8]) -> (r: Option<&BencodeValue>)
        ensures
            match (r, model::entry_of(self.model(), key@)) {
                (Some(v), Some(m)) => v.model() == m,
                (None, None) => true,
                _ => false,
            },
    {
        match self.as_dict() {
            Some(d) => d.get(key),
            None => None,
        }
    }

    /// The canonical encoding of the value.
    pub fn encode(&self) -> (r: Vec<u8>)
        ensures
            r@ == model::encoding(self.model()),
    {
        let mut buf: Vec<u8> = Vec::new();
        self.encode_into(&mut buf);
        assert(buf@ =~= model::encoding(self.model()));
        buf
    }

    /// Appends the canonical encoding of the value to `buf`.
    pub fn encode_into(&self, buf: &mut Vec<u8>)
        ensures
            final(buf)@ == old(buf)@ + model::encoding(self.model()),
        decreases self,
    {
        match self {
            BencodeValue::Int(n) => {
                buf.push(INT_MARK);
                push_signed_decimal(buf, *n);
                buf.push(END_MARK);
                assert(buf@ =~= old(buf)@ + model::encoding(self.model()));
            },
            BencodeValue::ByteString(bytes) => {
                push_string(buf, bytes.as_slice());
            },
            BencodeValue::List(items) => {
                buf.push(LIST_MARK);
                let ghost all = models(items@);
                let ghost start = buf@;
                let mut i: usize = 0;
                assert(all.skip(0) =~= all);
                while i < items.len()
                    invariant
                        i <= items.len(),
                        all == models(items@),
                        *self == BencodeValue::List(*items),
                        buf@ + model::items_encoding(all.skip(i as int)) == start
                            + model::items_encoding(all),
                    decreases items.len() - i,
                {
                    assert(decreases_to!(self => self->List_0));
                    assert(decreases_to!(self->List_0 => self->List_0[i as int]));
                    let ghost before = buf@;
                    let ghost rest = all.skip(i as int);
                    items[i].encode_into(buf);
                    proof {
                        assert(rest[0] == items@[i as int].model());
                        assert(rest.subrange(1, rest.len() as int) =~= all.skip(i + 1));
                        assert(buf@ + model::items_encoding(all.skip(i + 1)) =~= before
                            + model::items_encoding(rest));
                    }
                    i += 1;
                }
                assert(all.skip(i as int) =~= Seq::<Bencode>::empty());
                buf.push(END_MARK);
                assert(buf@ =~= old(buf)@ + model::encoding(self.model()));
            },
            BencodeValue::Dict(dict) => {
                buf.push(DICT_MARK);
                let ghost all = dict.model();
                let ghost start = buf@;
                let mut i: usize = 0;
                assert(all.skip(0) =~= all);
                while i < dict.entries.len()
                    invariant
                        i <= dict.entries.len(),
                        all == entry_models(dict.entries@),
                        *self == BencodeValue::Dict(*dict),
                        buf@ + model::entries_encoding(all.skip(i as int)) == start
                            + model::entries_encoding(all),
                    decreases dict.entries.len() - i,
                {
                    assert(decreases_to!(self => self->Dict_0));
                    let ghost before = buf@;
                    let ghost rest = all.skip(i as int);
                    push_string(buf, dict.entries[i].key.as_slice());
                    dict.entries[i].value.encode_into(buf);
                    proof {
                        assert(rest[0] == all[i as int]);
                        assert(rest.subrange(1, rest.len() as int) =~= all.skip(i + 1));
                        assert(buf@ + model::entries_encoding(all.skip(i + 1)) =~= before
                            + model::entries_encoding(rest));
                    }
                    i += 1;
                }
                assert(all.skip(i as int) =~= Seq::<(Seq<u8>, Bencode)>::empty());
                buf.push(END_MARK);
                assert(buf@ =~= old(buf)@ + model::encoding(self.model()));
            },
        }
    }
}

/// Appends the encoding of a byte string.
fn push_string(buf: &mut Vec<u8>, bytes: &[u8])
    ensures
        final(buf)@ == old(buf)@ + model::string_encoding(bytes@),
{
    push_decimal(buf, bytes.len() as u64);
    buf.push(COLON);
    push_bytes(buf, bytes);
    assert(buf@ =~= old(buf)@ + model::string_encoding(bytes@));
}

impl BencodeDict {
    pub closed spec fn model(self) -> Seq<(Seq<u8>, Bencode)>
        decreases self,
    {
        entry_models(self.entries@)
    }

    /// The keys ascend, so each key occurs once.
    #[verifier::type_invariant]
    pub open spec fn wf(self) -> bool {
        model::ascending(self.model())
    }

    /// A dictionary without entries.
    pub fn new() -> (r: Self)
        ensures
            r.model() == Seq::<(Seq<u8>, Bencode)>::empty(),
    {
        let r = BencodeDict { entries: Vec::new() };
        assert(r.model() =~= Seq::<(Seq<u8>, Bencode)>::empty());
        r
    }

    /// The number of entries.
    pub fn len(&self) -> (r: usize)
        ensures
            r == self.model().len(),
    {
        self.entries.len()
    }

    /// The key and the value of the entry `i`, in ascending order of the keys.
    pub fn entry(&self, i: usize) -> (r: Option<(&[u8], &BencodeValue)>)
        ensures
            self.wf(),
            if i < self.model().len() {
                r matches Some((key, value)) && key@ == self.model()[i as int].0 && value.model()
                    == self.model()[i as int].1
            } else {
                r is None
            },
    {
        proof {
            use_type_invariant(self);
        }
        if i < self.entries.len() {
            Some((self.entries[i].key.as_slice(), &self.entries[i].value))
        } else {
            None
        }
    }

    /// The value under a key.
    pub fn get(&self, key: &[u8]) -> (r: Option<&BencodeValue>)
        ensures
            match (r, model::dict_get(self.model(), key@)) {
                (Some(v), Some(m)) => v.model() == m,
                (None, None) => true,
                _ => false,
            },
    {
        let ghost all = self.model();
        let mut i: usize = 0;
        assert(all.skip(0) =~= all);
        while i < self.entries.len()
            invariant
                i <= self.entries.len(),
                all == entry_models(self.entries@),
                model::dict_get(all, key@) == model::dict_get(all.skip(i as int), key@),
            decreases self.entries.len() - i,
        {
            assert(all.skip(i as int)[0] == all[i as int]);
            if same_bytes(self.entries[i].key.as_slice(), key) {
                return Some(&self.entries[i].value);
            }
            assert(all.skip(i as int).skip(1) =~= all.skip(i + 1));
            i += 1;
        }
        None
    }

    /// The text under a key.
    pub fn get_text(&self, key: &[u8]) -> (r: Option<&str>)
        ensures
            match (r, model::text_at(self.model(), key@)) {
                (Some(s), Some(t)) => s@ == t,
                (None, None) => true,
                _ => false,
            },
    {
        match self.get(key) {
            Some(v) => v.as_str(),
            None => None,
        }
    }

    /// The integer under a key.
    pub fn get_int(&self, key: &[u8]) -> (r: Option<i64>)
        ensures
            r == model::int_at(self.model(), key@),
    {
        match self.get(key) {
            Some(v) => v.as_int(),
            None => None,
        }
    }

    /// Puts a value under a key, in the place of the key's earlier value if there is one.
    pub fn insert(&mut self, key: Vec<u8>, value: BencodeValue)
        ensures
            final(self).model() == model::dict_insert(old(self).model(), key@, value.model()),
    {
        proof {
            use_type_invariant(&*self);
        }
        let ghost all = self.model();
        let ghost k = key@;
        let ghost m = value.model();
        let mut entries: Vec<DictEntry> = Vec::new();
        assert(entry_models(entries@) =~= Seq::<(Seq<u8>, Bencode)>::empty());
        std::mem::swap(&mut entries, &mut self.entries);
        let mut i: usize = 0;
        let mut found = false;
        assert(all.skip(0) =~= all);
        assert(all.take(0) + model::dict_insert(all, k, m) =~= model::dict_insert(all, k, m));
        while i < entries.len()
            invariant_except_break
                !found,
            invariant
                i <= entries.len(),
                k == key@,
                all == entry_models(entries@),
                model::dict_insert(all, k, m) == all.take(i as int) + model::dict_insert(
                    all.skip(i as int),
                    k,
                    m,
                ),
            ensures
                found ==> i < all.len() && all[i as int].0 == k,
                !found ==> i == all.len() || (all[i as int].0 != k && crate::bytes::lex_less(
                    k,
                    all[i as int].0,
                )),
            decreases entries.len() - i,
        {
            assert(all.skip(i as int)[0] == all[i as int]);
            match compare(key.as_slice(), entries[i].key.as_slice()) {
                Standing::Same => {
                    found = true;
                    break;
                },
                Standing::Before => {
                    break;
                },
                Standing::After => {},
            }
            assert(all.skip(i as int).skip(1) =~= all.skip(i + 1));
            assert(all.take(i as int) + model::dict_insert(all.skip(i as int), k, m) =~= all.take(
                i + 1,
            ) + model::dict_insert(all.skip(i + 1), k, m));
            i += 1;
        }
        if found {
            entries[i] = DictEntry { key, value };
            assert(entry_models(entries@) =~= all.update(i as int, (k, m)));
            assert(entry_models(entries@) =~= all.take(i as int) + model::dict_insert(
                all.skip(i as int),
                k,
                m,
            ));
        } else {
            entries.insert(i, DictEntry { key, value });
            assert(entry_models(entries@) =~= all.insert(i as int, (k, m)));
            assert(entry_models(entries@) =~= all.take(i as int) + model::dict_insert(
                all.skip(i as int),
                k,
                m,
            ));
        }
        proof {
            model::law_dict_insert_keeps_order(all, k, m);
        }
        self.entries = entries;
    }
}

impl Clone for BencodeValue {
    fn clone(&self) -> (r: Self)
        ensures
            r.model() == self.model(),
        decreases self,
    {
        match self {
            BencodeValue::Int(n) => BencodeValue::Int(*n),
            BencodeValue::ByteString(b) => {
                let mut copy: Vec<u8> = Vec::new();
                push_bytes(&mut copy, b.as_slice());
                assert(copy@ =~= b@);
                BencodeValue::ByteString(copy)
            },
            BencodeValue::List(items) => {
                let mut copies: Vec<BencodeValue> = Vec::new();
                let mut i: usize = 0;
                while i < items.len()
                    invariant
                        i <= items.len(),
                        *self == BencodeValue::List(*items),
                        models(copies@) =~= models(items@).take(i as int),
                    decreases items.len() - i,
                {
                    assert(decreases_to!(self => self->List_0));
                    assert(decreases_to!(self->List_0 => self->List_0[i as int]));
                    let copy = items[i].clone();
                    proof {
                        lemma_models_push(copies@, copy);
                    }
                    copies.push(copy);
                    i += 1;
                }
                assert(models(copies@) =~= models(items@));
                BencodeValue::List(copies)
            },
            BencodeValue::Dict(d) => BencodeValue::Dict(d.clone()),
        }
    }
}

impl Clone for BencodeDict {
    fn clone(&self) -> (r: Self)
        ensures
            r.model() == self.model(),
        decreases self,
    {
        let mut entries: Vec<DictEntry> = Vec::new();
        let mut i: usize = 0;
        while i < self.entries.len()
            invariant
                i <= self.entries.len(),
                entry_models(entries@) =~= entry_models(self.entries@).take(i as int),
            decreases self.entries.len() - i,
        {
            let mut key: Vec<u8> = Vec::new();
            push_bytes(&mut key, self.entries[i].key.as_slice());
            assert(key@ =~= self.entries@[i as int].key@);
            let entry = DictEntry { key, value: self.entries[i].value.clone() };
            proof {
                lemma_entry_models_push(entries@, entry);
            }
            entries.push(entry);
            i += 1;
        }
        proof {
            use_type_invariant(self);
            assert(entry_models(entries@) =~= entry_models(self.entries@));
        }
        BencodeDict { entries }
    }
}

} // verus!
