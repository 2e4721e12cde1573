//! The extent of encoded values, found without building them.

use vstd::prelude::*;
use vstd::slice::slice_subrange;
use super::grammar::{self, BencodeError};
use super::model::{Bencode, COLON, DICT_MARK, END_MARK, INT_MARK, LIST_MARK};
use super::parser::decode;
use super::value::BencodeValue;
use crate::bytes::{self, find_byte, same_bytes};
use crate::decimal::{self, parse_length, NumberError};
use crate::text::{self, utf8_text, Utf8Fault};

verus! {

/// Why no extent of a value was found.
#[derive(Debug, Clone, Copy, PartialEq, Eq)]
pub enum SpanError {
    /// There is no byte left.
    EmptyBuffer,
    /// No value starts with this byte.
    InvalidToken(u8),
    /// No end mark follows an integer.
    UnterminatedInt,
    /// No colon follows a length.
    MissingColon,
    /// A length is not UTF-8.
    InvalidUtf8(Utf8Fault),
    /// A length is no decimal number, or one out of range.
    InvalidNumber(NumberError),
    /// Fewer bytes are left than a byte string should have.
    StringTooLong,
    /// The extent of a byte string is past every machine length.
    LengthOverflow,
    /// No end mark follows the items of a list.
    UnterminatedList,
    /// No end mark follows the entries of a dictionary.
    UnterminatedDict,
}

/// Why no raw value was found under a key.
#[derive(Debug, Clone, Copy, PartialEq, Eq)]
pub enum LookupError {
    /// The bytes do not start with a dictionary mark.
    NotADict,
    /// An entry has no extent.
    Span(SpanError),
    /// A key cannot be decoded.
    Key(BencodeError),
    /// A key is not a byte string.
    KeyNotByteString,
    /// No entry has the key.
    NotFound,
}

/// The length of the byte string at `pos`, its own length and the colon included.
pub open spec fn string_span(s: Seq<u8>, pos: int) -> Result<int, SpanError> {
    let colon = bytes::first_from(s, pos, COLON);
    if colon >= s.len() {
        Err(SpanError::MissingColon)
    } else {
        let digits = s.subrange(pos, colon);
        if !vstd::utf8::valid_utf8(digits) {
            Err(SpanError::InvalidUtf8(text::utf8_fault(digits)))
        } else {
            match decimal::usize_of(digits) {
                None => Err(SpanError::InvalidNumber(decimal::usize_fault(digits))),
                Some(length) => {
                    let total = colon - pos + 1 + length;
                    if total > usize::MAX {
                        Err(SpanError::LengthOverflow)
                    } else if total > s.len() - pos {
                        Err(SpanError::StringTooLong)
                    } else {
                        Ok(total)
                    }
                },
            }
        }
    }
}

/// The end of a list whose next item is at `pos`.
pub open spec fn list_end(s: Seq<u8>, pos: int) -> Result<int, SpanError>
    decreases s.len() - pos, 1int,
{
    if pos >= s.len() {
        Err(SpanError::UnterminatedList)
    } else if s[pos] == END_MARK {
        Ok(pos + 1)
    } else {
        match span_at(s, pos) {
            Ok(n) if 0 < n <= s.len() - pos => list_end(s, pos + n),
            Ok(_) => Err(SpanError::EmptyBuffer),
            Err(e) => Err(e),
        }
    }
}

/// The end of a dictionary whose next entry is at `pos`.
pub open spec fn dict_end(s: Seq<u8>, pos: int) -> Result<int, SpanError>
    decreases s.len() - pos, 1int,
{
    if pos >= s.len() {
        Err(SpanError::UnterminatedDict)
    } else if s[pos] == END_MARK {
        Ok(pos + 1)
    } else {
        match span_at(s, pos) {
            Ok(k) if 0 < k <= s.len() - pos => match span_at(s, pos + k) {
                Ok(n) if 0 < n <= s.len() - pos - k => dict_end(s, pos + k + n),
                Ok(_) => Err(SpanError::EmptyBuffer),
                Err(e) => Err(e),
            },
            Ok(_) => Err(SpanError::EmptyBuffer),
            Err(e) => Err(e),
        }
    }
}

/// The length of the encoded value at `pos`. What an integer holds, and of which kind a key is,
/// does not count.
pub open spec fn span_at(s: Seq<u8>, pos: int) -> Result<int, SpanError>
    decreases s.len() - pos, 0int,
{
    if pos >= s.len() {
        Err(SpanError::EmptyBuffer)
    } else if s[pos] == INT_MARK {
        let stop = bytes::first_from(s, pos, END_MARK);
        if stop >= s.len() {
            Err(SpanError::UnterminatedInt)
        } else {
            Ok(stop + 1 - pos)
        }
    } else if decimal::is_digit(s[pos]) {
        string_span(s, pos)
    } else if s[pos] == LIST_MARK {
        match list_end(s, pos + 1) {
            Ok(end) => Ok(end - pos),
            Err(e) => Err(e),
        }
    } else if s[pos] == DICT_MARK {
        match dict_end(s, pos + 1) {
            Ok(end) => Ok(end - pos),
            Err(e) => Err(e),
        }
    } else {
        Err(SpanError::InvalidToken(s[pos]))
    }
}

/// The range of the value under a key, in a dictionary whose next entry is at `pos`. Of a key
/// that occurs more than once it is the first value.
pub open spec fn raw_at(s: Seq<u8>, pos: int, target: Seq<u8>) -> Result<(int, int), LookupError>
    decreases s.len() - pos,
{
    if pos >= s.len() || s[pos] == END_MARK {
        Err(LookupError::NotFound)
    } else {
        match span_at(s, pos) {
            Ok(k) if 0 < k <= s.len() - pos => match grammar::decoding(s.subrange(pos, pos + k)) {
                Ok(Bencode::Bytes(key)) => match span_at(s, pos + k) {
                    Ok(n) if 0 < n <= s.len() - pos - k => if key == target {
                        Ok((pos + k, pos + k + n))
                    } else {
                        raw_at(s, pos + k + n, target)
                    },
                    Ok(_) => Err(LookupError::NotFound),
                    Err(e) => Err(LookupError::Span(e)),
                },
                Ok(_) => Err(LookupError::KeyNotByteString),
                Err(e) => Err(LookupError::Key(e)),
            },
            Ok(_) => Err(LookupError::NotFound),
            Err(e) => Err(LookupError::Span(e)),
        }
    }
}

/// The range of the value under a key, in a byte string that is an encoded dictionary.
pub open spec fn raw_value(s: Seq<u8>, target: Seq<u8>) -> Result<(int, int), LookupError> {
    if s.len() == 0 || s[0] != DICT_MARK {
        Err(LookupError::NotADict)
    } else {
        raw_at(s, 1, target)
    }
}

/// An extent that was found has at least one byte and lies within the byte string.
pub proof fn law_span_within(s: Seq<u8>, pos: int)
    requires
        0 <= pos <= s.len(),
    ensures
        span_at(s, pos) matches Ok(n) ==> 0 < n <= s.len() - pos,
    decreases s.len() - pos, 0int,
{
    if pos < s.len() {
        bytes::lemma_first_from(s, pos, END_MARK);
        bytes::lemma_first_from(s, pos, COLON);
        if s[pos] == LIST_MARK {
            lemma_list_end_within(s, pos + 1);
        } else if s[pos] == DICT_MARK {
            lemma_dict_end_within(s, pos + 1);
        }
    }
}

/// The end of a list lies within the byte string.
pub proof fn lemma_list_end_within(s: Seq<u8>, pos: int)
    requires
        0 <= pos <= s.len(),
    ensures
        list_end(s, pos) matches Ok(end) ==> pos < end <= s.len(),
    decreases s.len() - pos, 1int,
{
    if pos < s.len() && s[pos] != END_MARK {
        law_span_within(s, pos);
        if let Ok(n) = span_at(s, pos) {
            lemma_list_end_within(s, pos + n);
        }
    }
}

/// The end of a dictionary lies within the byte string.
pub proof fn lemma_dict_end_within(s: Seq<u8>, pos: int)
    requires
        0 <= pos <= s.len(),
    ensures
        dict_end(s, pos) matches Ok(end) ==> pos < end <= s.len(),
    decreases s.len() - pos, 1int,
{
    if pos < s.len() && s[pos] != END_MARK {
        law_span_within(s, pos);
        if let Ok(k) = span_at(s, pos) {
            law_span_within(s, pos + k);
            if let Ok(n) = span_at(s, pos + k) {
                lemma_dict_end_within(s, pos + k + n);
            }
        }
    }
}

spec fn same_span(r: Result<usize, SpanError>, expected: Result<int, SpanError>) -> bool {
    match (r, expected) {
        (Ok(n), Ok(m)) => n == m,
        (Err(e), Err(f)) => e == f,
        _ => false,
    }
}

/// The length of the encoded value at the start of `bytes`.
pub fn value_span(bytes: &[u8]) -> (r: Result<usize, SpanError>)
    ensures
        match (r, span_at(bytes@, 0)) {
            (Ok(n), Ok(m)) => n == m && 0 < n <= bytes@.len(),
            (Err(e), Err(f)) => e == f,
            _ => false,
        },
{
    proof {
        law_span_within(bytes@, 0);
    }
    span_from(bytes, 0)
}

/// The length of the encoded value at `pos`.
fn span_from(bytes: &[u8], pos: usize) -> (r: Result<usize, SpanError>)
    requires
        pos <= bytes.len(),
    ensures
        same_span(r, span_at(bytes@, pos as int)),
        r matches Ok(n) ==> 0 < n <= bytes.len() - pos,
    decreases bytes.len() - pos,
{
    let ghost s = bytes@;
    proof {
        law_span_within(s, pos as int);
    }
    if pos == bytes.len() {
        return Err(SpanError::EmptyBuffer);
    }
    let mark = bytes[pos];
    if mark == INT_MARK {
        let stop = find_byte(bytes, pos, END_MARK);
        if stop >= bytes.len() {
            return Err(SpanError::UnterminatedInt);
        }
        Ok(stop + 1 - pos)
    } else if 48 <= mark && mark <= 57 {
        let colon = find_byte(bytes, pos, COLON);
        if colon >= bytes.len() {
            return Err(SpanError::MissingColon);
        }
        let digits = slice_subrange(bytes, pos, colon);
        if let Err(e) = utf8_text(digits) {
            return Err(SpanError::InvalidUtf8(e));
        }
        let length = match parse_length(digits) {
            Ok(n) => n,
            Err(e) => {
                return Err(SpanError::InvalidNumber(e));
            },
        };
        let total = match (colon - pos + 1).checked_add(length) {
            Some(total) => total,
            None => {
                return Err(SpanError::LengthOverflow);
            },
        };
        if total > bytes.len() - pos {
            return Err(SpanError::StringTooLong);
        }
        Ok(total)
    } else if mark == LIST_MARK {
        let mut at: usize = pos + 1;
        while at < bytes.len() && bytes[at] != END_MARK
            invariant
                pos < at <= bytes.len(),
                s == bytes@,
                s[pos as int] == LIST_MARK,
                list_end(s, pos + 1) == list_end(s, at as int),
            decreases bytes.len() - at,
        {
            match span_from(bytes, at) {
                Ok(n) => {
                    at += n;
                },
                Err(e) => {
                    return Err(e);
                },
            }
        }
        if at >= bytes.len() {
            return Err(SpanError::UnterminatedList);
        }
        Ok(at + 1 - pos)
    } else if mark == DICT_MARK {
        let mut at: usize = pos + 1;
        while at < bytes.len() && bytes[at] != END_MARK
            invariant
                pos < at <= bytes.len(),
                s == bytes@,
                s[pos as int] == DICT_MARK,
                dict_end(s, pos + 1) == dict_end(s, at as int),
            decreases bytes.len() - at,
        {
            let key_length = match span_from(bytes, at) {
                Ok(n) => n,
                Err(e) => {
                    return Err(e);
                },
            };
            match span_from(bytes, at + key_length) {
                Ok(n) => {
                    at += key_length + n;
                },
                Err(e) => {
                    return Err(e);
                },
            }
        }
        if at >= bytes.len() {
            return Err(SpanError::UnterminatedDict);
        }
        Ok(at + 1 - pos)
    } else {
        Err(SpanError::InvalidToken(mark))
    }
}

/// The encoded value under a key, as it stands in the encoded dictionary `bytes`.
pub fn find_raw_dict_value<'a>(bytes: &'a [u8], target_key: &[u8]) -> (r: Result<
    &'a [u8],
    LookupError,
>)
    ensures
        match (r, raw_value(bytes@, target_key@)) {
            (Ok(v), Ok((start, end))) => 0 <= start < end <= bytes@.len() && v@ == bytes@.subrange(
                start,
                end,
            ),
            (Err(e), Err(f)) => e == f,
            _ => false,
        },
{
    if bytes.len() == 0 || bytes[0] != DICT_MARK {
        return Err(LookupError::NotADict);
    }
    let ghost s = bytes@;
    let mut at: usize = 1;
    while at < bytes.len() && bytes[at] != END_MARK
        invariant
            1 <= at <= bytes.len(),
            s == bytes@,
            raw_value(s, target_key@) == raw_at(s, at as int, target_key@),
        decreases bytes.len() - at,
    {
        let key_length = match span_from(bytes, at) {
            Ok(n) => n,
            Err(e) => {
                return Err(LookupError::Span(e));
            },
        };
        let value_at = at + key_length;
        let is_target = match decode(slice_subrange(bytes, at, value_at)) {
            Ok(BencodeValue::ByteString(key)) => same_bytes(key.as_slice(), target_key),
            Ok(_) => {
                return Err(LookupError::KeyNotByteString);
            },
            Err(e) => {
                return Err(LookupError::Key(e));
            },
        };
        let value_length = match span_from(bytes, value_at) {
            Ok(n) => n,
            Err(e) => {
                return Err(LookupError::Span(e));
            },
        };
        let next = value_at + value_length;
        if is_target {
            return Ok(slice_subrange(bytes, value_at, next));
        }
        at = next;
    }
    Err(LookupError::NotFound)
}

} // verus!
