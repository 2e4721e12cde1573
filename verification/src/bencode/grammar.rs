//! The grammar of bencode: what stands at an offset of a byte string, and where it ends.

use vstd::prelude::*;
use super::model::{self, Bencode, COLON, DICT_MARK, END_MARK, INT_MARK, LIST_MARK};
use crate::bytes;
use crate::decimal::{self, NumberError};
use crate::text::{self, Utf8Fault};

verus! {

/// Why a byte string is no bencode value.
#[derive(Debug, Clone, Copy, PartialEq, Eq)]
pub enum BencodeError {
    /// There is no byte left.
    UnexpectedEnd,
    /// No value starts with this byte.
    InvalidPrefix { prefix: u8, offset: usize },
    /// No end mark follows the integer that starts at the offset.
    UnterminatedInt { offset: usize },
    /// The text of a number is not UTF-8.
    InvalidUtf8(Utf8Fault),
    /// The text of a number is no decimal number, or one out of range.
    InvalidNumber(NumberError),
    /// No colon follows the length that starts at the offset.
    MissingColon { offset: usize },
    /// Fewer bytes are left than the byte string at the offset should have.
    StringTooLong { length: usize, offset: usize },
    /// The end of the byte string at the offset is past every machine address.
    LengthOverflow { length: usize, offset: usize },
    /// No end mark follows the items of a list.
    UnterminatedList,
    /// No end mark follows the entries of a dictionary.
    UnterminatedDict,
    /// A key, which ends at the offset, is not a byte string.
    KeyNotByteString { offset: usize },
}

/// What was read, and the offset at which reading stopped.
pub struct Parsed {
    pub value: Result<Bencode, BencodeError>,
    pub end: int,
}

/// The integer at `pos`, where its mark stands.
pub open spec fn int_at(s: Seq<u8>, pos: int) -> Parsed {
    let start = pos + 1;
    let stop = bytes::first_from(s, start, END_MARK);
    if stop >= s.len() {
        Parsed { value: Err(BencodeError::UnterminatedInt { offset: start as usize }), end: stop }
    } else {
        let digits = s.subrange(start, stop);
        if !vstd::utf8::valid_utf8(digits) {
            Parsed { value: Err(BencodeError::InvalidUtf8(text::utf8_fault(digits))), end: stop }
        } else {
            match decimal::i64_of(digits) {
                Some(n) => Parsed { value: Ok(Bencode::Int(n)), end: stop + 1 },
                None => Parsed {
                    value: Err(BencodeError::InvalidNumber(decimal::i64_fault(digits))),
                    end: stop + 1,
                },
            }
        }
    }
}

/// The byte string at `pos`, where its length starts.
pub open spec fn string_at(s: Seq<u8>, pos: int) -> Parsed {
    let colon = bytes::first_from(s, pos, COLON);
    if colon >= s.len() {
        Parsed { value: Err(BencodeError::MissingColon { offset: pos as usize }), end: pos }
    } else {
        let digits = s.subrange(pos, colon);
        if !vstd::utf8::valid_utf8(digits) {
            Parsed { value: Err(BencodeError::InvalidUtf8(text::utf8_fault(digits))), end: pos }
        } else {
            match decimal::usize_of(digits) {
                None => Parsed {
                    value: Err(BencodeError::InvalidNumber(decimal::usize_fault(digits))),
                    end: pos,
                },
                Some(length) => {
                    let start = colon + 1;
                    let offset = start as usize;
                    if start + length > usize::MAX {
                        Parsed {
                            value: Err(BencodeError::LengthOverflow { length, offset }),
                            end: pos,
                        }
                    } else if start + length > s.len() {
                        Parsed {
                            value: Err(BencodeError::StringTooLong { length, offset }),
                            end: pos,
                        }
                    } else {
                        Parsed {
                            value: Ok(Bencode::Bytes(s.subrange(start, start + length))),
                            end: start + length,
                        }
                    }
                },
            }
        }
    }
}

/// The rest of a list whose earlier items are `items`.
pub open spec fn list_at(s: Seq<u8>, pos: int, items: Seq<Bencode>) -> Parsed
    decreases s.len() - pos, 1int,
{
    if pos >= s.len() {
        Parsed { value: Err(BencodeError::UnterminatedList), end: pos }
    } else if s[pos] == END_MARK {
        Parsed { value: Ok(Bencode::List(items)), end: pos + 1 }
    } else {
        let item = parse_at(s, pos);
        match item.value {
            Ok(v) if pos < item.end <= s.len() => list_at(s, item.end, items.push(v)),
            _ => item,
        }
    }
}

/// The rest of a dictionary whose earlier entries are `entries`. A key that occurs again takes
/// the later value.
pub open spec fn dict_at(s: Seq<u8>, pos: int, entries: Seq<(Seq<u8>, Bencode)>) -> Parsed
    decreases s.len() - pos, 1int,
{
    if pos >= s.len() {
        Parsed { value: Err(BencodeError::UnterminatedDict), end: pos }
    } else if s[pos] == END_MARK {
        Parsed { value: Ok(Bencode::Dict(entries)), end: pos + 1 }
    } else {
        let key = parse_at(s, pos);
        match key.value {
            Ok(Bencode::Bytes(k)) if pos < key.end <= s.len() => {
                let item = parse_at(s, key.end);
                match item.value {
                    Ok(v) if pos < item.end <= s.len() => dict_at(
                        s,
                        item.end,
                        model::dict_insert(entries, k, v),
                    ),
                    _ => item,
                }
            },
            Ok(_) => Parsed {
                value: Err(BencodeError::KeyNotByteString { offset: key.end as usize }),
                end: key.end,
            },
            Err(_) => key,
        }
    }
}

/// The value at `pos`.
pub open spec fn parse_at(s: Seq<u8>, pos: int) -> Parsed
    decreases s.len() - pos, 0int,
{
    if pos >= s.len() {
        Parsed { value: Err(BencodeError::UnexpectedEnd), end: pos }
    } else if s[pos] == INT_MARK {
        int_at(s, pos)
    } else if decimal::is_digit(s[pos]) {
        string_at(s, pos)
    } else if s[pos] == LIST_MARK {
        list_at(s, pos + 1, Seq::empty())
    } else if s[pos] == DICT_MARK {
        dict_at(s, pos + 1, Seq::empty())
    } else {
        Parsed {
            value: Err(BencodeError::InvalidPrefix { prefix: s[pos], offset: pos as usize }),
            end: pos,
        }
    }
}

/// What a byte string decodes to: the value at its start. Bytes after that value do not count.
pub open spec fn decoding(s: Seq<u8>) -> Result<Bencode, BencodeError> {
    parse_at(s, 0).value
}

/// Reading never goes back or past the end, and a value that was read has at least one byte.
pub proof fn law_parse_advances(s: Seq<u8>, pos: int)
    requires
        0 <= pos <= s.len(),
    ensures
        pos <= parse_at(s, pos).end <= s.len(),
        parse_at(s, pos).value is Ok ==> pos < parse_at(s, pos).end,
    decreases s.len() - pos, 0int,
{
    if pos < s.len() {
        if s[pos] == INT_MARK {
            bytes::lemma_first_from(s, pos + 1, END_MARK);
        } else if decimal::is_digit(s[pos]) {
            bytes::lemma_first_from(s, pos, COLON);
        } else if s[pos] == LIST_MARK {
            lemma_list_advances(s, pos + 1, Seq::empty());
        } else if s[pos] == DICT_MARK {
            lemma_dict_advances(s, pos + 1, Seq::empty());
        }
    }
}

pub proof fn lemma_list_advances(s: Seq<u8>, pos: int, items: Seq<Bencode>)
    requires
        0 <= pos <= s.len(),
    ensures
        pos <= list_at(s, pos, items).end <= s.len(),
        list_at(s, pos, items).value is Ok ==> pos < list_at(s, pos, items).end,
    decreases s.len() - pos, 1int,
{
    if pos < s.len() && s[pos] != END_MARK {
        law_parse_advances(s, pos);
        let item = parse_at(s, pos);
        if let Ok(v) = item.value {
            lemma_list_advances(s, item.end, items.push(v));
        }
    }
}

pub proof fn lemma_dict_advances(s: Seq<u8>, pos: int, entries: Seq<(Seq<u8>, Bencode)>)
    requires
        0 <= pos <= s.len(),
    ensures
        pos <= dict_at(s, pos, entries).end <= s.len(),
        dict_at(s, pos, entries).value is Ok ==> pos < dict_at(s, pos, entries).end,
    decreases s.len() - pos, 1int,
{
    if pos < s.len() && s[pos] != END_MARK {
        law_parse_advances(s, pos);
        let key = parse_at(s, pos);
        if let Ok(Bencode::Bytes(k)) = key.value {
            law_parse_advances(s, key.end);
            let item = parse_at(s, key.end);
            if let Ok(v) = item.value {
                lemma_dict_advances(s, item.end, model::dict_insert(entries, k, v));
            }
        }
    }
}

} // verus!
