//! The bencode parser.

use vstd::prelude::*;
use vstd::slice::{slice_subrange, slice_to_vec};
use super::grammar::{self, BencodeError, Parsed};
use super::laws;
use super::model::{self, Bencode, COLON, DICT_MARK, END_MARK, INT_MARK, LIST_MARK};
use super::value::{self, BencodeDict, BencodeValue};
use crate::bytes::{self, find_byte};
use crate::decimal::{parse_i64, parse_length};
use crate::text::utf8_text;

verus! {

/// Reads bencode values from a byte string, one after the other.
pub struct BencodeParser<'a> {
    bytes: &'a [u8],
    pos: usize,
}

/// A result is the one that the grammar gives.
pub open spec fn agrees(
    r: Result<BencodeValue, BencodeError>,
    expected: Result<Bencode, BencodeError>,
) -> bool {
    match (r, expected) {
        (Ok(v), Ok(m)) => v.model() == m,
        (Err(e), Err(f)) => e == f,
        _ => false,
    }
}

impl<'a> BencodeParser<'a> {
    /// The byte string that is read.
    pub closed spec fn data(self) -> Seq<u8> {
        self.bytes@
    }

    /// The offset at which the next value is read.
    pub closed spec fn offset(self) -> int {
        self.pos as int
    }

    /// The parser, its result `r` and its state before show what the grammar says of `expected`.
    spec fn parsed(
        self,
        before: Self,
        r: Result<BencodeValue, BencodeError>,
        expected: Parsed,
    ) -> bool {
        &&& self.bytes@ == before.bytes@
        &&& self.pos == expected.end
        &&& agrees(r, expected.value)
    }

    /// A parser at the start of `bytes`.
    pub fn new(bytes: &'a [u8]) -> (r: Self)
        ensures
            r.data() == bytes@,
            r.offset() == 0,
    {
        Self { bytes, pos: 0 }
    }

    /// Reads the value at the current offset, and moves to where reading stopped.
    pub fn parse(&mut self) -> (r: Result<BencodeValue, BencodeError>)
        ensures
            final(self).data() == old(self).data(),
            final(self).offset() == grammar::parse_at(old(self).data(), old(self).offset()).end,
            agrees(r, grammar::parse_at(old(self).data(), old(self).offset()).value),
            r matches Ok(v) ==> model::well_formed(v.model()),
        decreases old(self).data().len() - old(self).offset(), 1int,
    {
        if self.pos >= self.bytes.len() {
            return Err(BencodeError::UnexpectedEnd);
        }
        proof {
            laws::law_decoded_is_well_formed(self.bytes@, self.pos as int);
        }
        let mark = self.bytes[self.pos];
        if mark == INT_MARK {
            self.parse_int()
        } else if 48 <= mark && mark <= 57 {
            self.parse_byte_string()
        } else if mark == LIST_MARK {
            self.parse_list()
        } else if mark == DICT_MARK {
            self.parse_dict()
        } else {
            Err(BencodeError::InvalidPrefix { prefix: mark, offset: self.pos })
        }
    }

    fn parse_int(&mut self) -> (r: Result<BencodeValue, BencodeError>)
        requires
            old(self).pos < old(self).bytes.len(),
        ensures
            final(self).parsed(
                *old(self),
                r,
                grammar::int_at(old(self).bytes@, old(self).pos as int),
            ),
    {
        let start = self.pos + 1;
        let stop = find_byte(self.bytes, start, END_MARK);
        self.pos = stop;
        if stop >= self.bytes.len() {
            return Err(BencodeError::UnterminatedInt { offset: start });
        }
        let digits = slice_subrange(self.bytes, start, stop);
        if let Err(e) = utf8_text(digits) {
            return Err(BencodeError::InvalidUtf8(e));
        }
        self.pos = stop + 1;
        match parse_i64(digits) {
            Ok(n) => Ok(BencodeValue::Int(n)),
            Err(e) => Err(BencodeError::InvalidNumber(e)),
        }
    }

    fn parse_byte_string(&mut self) -> (r: Result<BencodeValue, BencodeError>)
        requires
            old(self).pos < old(self).bytes.len(),
        ensures
            final(self).parsed(
                *old(self),
                r,
                grammar::string_at(old(self).bytes@, old(self).pos as int),
            ),
    {
        let colon = find_byte(self.bytes, self.pos, COLON);
        if colon >= self.bytes.len() {
            return Err(BencodeError::MissingColon { offset: self.pos });
        }
        let digits = slice_subrange(self.bytes, self.pos, colon);
        if let Err(e) = utf8_text(digits) {
            return Err(BencodeError::InvalidUtf8(e));
        }
        let length = match parse_length(digits) {
            Ok(n) => n,
            Err(e) => {
                return Err(BencodeError::InvalidNumber(e));
            },
        };
        let start = colon + 1;
        let end = match start.checked_add(length) {
            Some(end) => end,
            None => {
                return Err(BencodeError::LengthOverflow { length, offset: start });
            },
        };
        if end > self.bytes.len() {
            return Err(BencodeError::StringTooLong { length, offset: start });
        }
        let content = slice_to_vec(slice_subrange(self.bytes, start, end));
        self.pos = end;
        Ok(BencodeValue::ByteString(content))
    }

    fn parse_list(&mut self) -> (r: Result<BencodeValue, BencodeError>)
        requires
            old(self).pos < old(self).bytes.len(),
        ensures
            final(self).parsed(
                *old(self),
                r,
                grammar::list_at(old(self).bytes@, old(self).pos + 1, Seq::empty()),
            ),
        decreases old(self).data().len() - old(self).offset(), 0int,
    {
        let ghost s = self.bytes@;
        let ghost whole = grammar::list_at(s, self.pos + 1, Seq::empty());
        self.pos = self.pos + 1;
        let mut list: Vec<BencodeValue> = Vec::new();
        assert(value::models(list@) =~= Seq::<Bencode>::empty());
        while self.pos < self.bytes.len() && self.bytes[self.pos] != END_MARK
            invariant
                self.bytes@ == s,
                s == old(self).bytes@,
                old(self).pos < self.pos <= s.len(),
                whole == grammar::list_at(s, old(self).pos + 1, Seq::empty()),
                whole == grammar::list_at(s, self.pos as int, value::models(list@)),
            decreases s.len() - self.pos,
        {
            proof {
                grammar::law_parse_advances(s, self.pos as int);
            }
            match self.parse() {
                Ok(v) => {
                    proof {
                        value::lemma_models_push(list@, v);
                    }
                    list.push(v);
                },
                Err(e) => {
                    return Err(e);
                },
            }
        }
        if self.pos >= self.bytes.len() {
            return Err(BencodeError::UnterminatedList);
        }
        self.pos = self.pos + 1;
        Ok(BencodeValue::List(list))
    }

    fn parse_dict(&mut self) -> (r: Result<BencodeValue, BencodeError>)
        requires
            old(self).pos < old(self).bytes.len(),
        ensures
            final(self).parsed(
                *old(self),
                r,
                grammar::dict_at(old(self).bytes@, old(self).pos + 1, Seq::empty()),
            ),
        decreases old(self).data().len() - old(self).offset(), 0int,
    {
        let ghost s = self.bytes@;
        let ghost whole = grammar::dict_at(s, self.pos + 1, Seq::empty());
        self.pos = self.pos + 1;
        let mut dict = BencodeDict::new();
        while self.pos < self.bytes.len() && self.bytes[self.pos] != END_MARK
            invariant
                self.bytes@ == s,
                s == old(self).bytes@,
                old(self).pos < self.pos <= s.len(),
                whole == grammar::dict_at(s, old(self).pos + 1, Seq::empty()),
                whole == grammar::dict_at(s, self.pos as int, dict.model()),
            decreases s.len() - self.pos,
        {
            proof {
                grammar::law_parse_advances(s, self.pos as int);
                grammar::law_parse_advances(s, grammar::parse_at(s, self.pos as int).end);
            }
            let key = match self.parse() {
                Ok(BencodeValue::ByteString(k)) => k,
                Ok(_) => {
                    return Err(BencodeError::KeyNotByteString { offset: self.pos });
                },
                Err(e) => {
                    return Err(e);
                },
            };
            match self.parse() {
                Ok(v) => {
                    dict.insert(key, v);
                },
                Err(e) => {
                    return Err(e);
                },
            }
        }
        if self.pos >= self.bytes.len() {
            return Err(BencodeError::UnterminatedDict);
        }
        self.pos = self.pos + 1;
        Ok(BencodeValue::Dict(dict))
    }

    /// The offset at which the next value is read.
    pub fn current_pos(&self) -> (r: usize)
        ensures
            r == self.offset(),
    {
        self.pos
    }
}

/// Decodes the value at the start of `bytes`.
pub fn decode(bytes: &[u8]) -> (r: Result<BencodeValue, BencodeError>)
    ensures
        agrees(r, grammar::decoding(bytes@)),
        r matches Ok(v) ==> model::well_formed(v.model()),
{
    let mut parser = BencodeParser::new(bytes);
    parser.parse()
}

} // verus!
