//! Text: UTF-8 and ASCII.

use vstd::prelude::*;
use crate::decimal::{self, push_decimal};
use crate::digest;

verus! {

/// Where a byte string is not UTF-8.
#[derive(Debug, Clone, Copy, PartialEq, Eq)]
pub struct Utf8Fault {
    /// How many bytes at the start are UTF-8.
    pub valid_up_to: usize,
    /// How many bytes after them are no part of UTF-8, or nothing where the bytes end too early.
    pub error_len: Option<usize>,
}

/// The greatest number of bytes, up to `n`, that are UTF-8 at the start of a byte string.
pub open spec fn utf8_start(s: Seq<u8>, n: nat) -> nat
    decreases n,
{
    if n == 0 || vstd::utf8::valid_utf8(s.take(n as int)) {
        n
    } else {
        utf8_start(s, (n - 1) as nat)
    }
}

/// How many bytes after the UTF-8 at the start of a byte string are no part of UTF-8.
pub uninterp spec fn utf8_error_len(s: Seq<u8>) -> Option<usize>;

/// Where a byte string that is not UTF-8 stops being so.
pub open spec fn utf8_fault(s: Seq<u8>) -> Utf8Fault {
    Utf8Fault { valid_up_to: utf8_start(s, s.len()) as usize, error_len: utf8_error_len(s) }
}

/// `std::str::from_utf8`: a byte string that is valid UTF-8 is a text whose characters are the
/// ones that the bytes encode; of any other byte string, `valid_up_to` of the error is the
/// greatest length of a start that is valid, and `error_len` is a function of the bytes alone. The
/// contract leaves unsaid what `error_len` is.
#[verifier::external_body]
pub(crate) fn utf8_text(bytes: &[u8]) -> (r: Result<&str, Utf8Fault>)
    ensures
        match r {
            Ok(s) => vstd::utf8::valid_utf8(bytes@) && s@ == vstd::utf8::decode_utf8(bytes@),
            Err(e) => !vstd::utf8::valid_utf8(bytes@) && e.valid_up_to == utf8_start(
                bytes@,
                bytes@.len(),
            ) && e.error_len == utf8_error_len(bytes@),
        },
{
    match std::str::from_utf8(bytes) {
        Ok(s) => Ok(s),
        Err(e) => Err(Utf8Fault { valid_up_to: e.valid_up_to(), error_len: e.error_len() }),
    }
}

/// The bytes of a text.
pub open spec fn bytes_of(s: &str) -> Seq<u8> {
    vstd::utf8::encode_utf8(s@)
}

/// The texts of a sequence of strings.
pub open spec fn texts(strings: Seq<String>) -> Seq<Seq<char>> {
    strings.map_values(|s: String| s@)
}

/// The text that ASCII bytes spell.
pub open spec fn ascii_chars(bytes: Seq<u8>) -> Seq<char> {
    Seq::new(bytes.len(), |i: int| bytes[i] as char)
}

/// ASCII bytes are UTF-8, and each byte is a character.
pub proof fn lemma_ascii_text(bytes: Seq<u8>)
    requires
        forall|i: int| 0 <= i < bytes.len() ==> #[trigger] bytes[i] < 128,
    ensures
        vstd::utf8::valid_utf8(bytes),
        vstd::utf8::decode_utf8(bytes) == ascii_chars(bytes),
{
    let chars = ascii_chars(bytes);
    assert(vstd::utf8::is_ascii_chars(chars));
    vstd::utf8::is_ascii_chars_encode_utf8(chars);
    assert(vstd::utf8::encode_utf8(chars) =~= bytes);
    vstd::utf8::encode_utf8_valid_utf8(chars);
    vstd::utf8::encode_utf8_decode_utf8(chars);
}

/// `String::push` of std appends the character.
pub assume_specification[ String::push ](s: &mut String, c: char)
    ensures
        final(s)@ == old(s)@.push(c),
;

/// Appends ASCII bytes to a text.
pub fn push_ascii(s: &mut String, bytes: &[u8])
    ensures
        final(s)@ == old(s)@ + ascii_chars(bytes@),
{
    let mut i: usize = 0;
    while i < bytes.len()
        invariant
            i <= bytes.len(),
            s@ =~= old(s)@ + ascii_chars(bytes@).take(i as int),
        decreases bytes.len() - i,
    {
        s.push(bytes[i] as char);
        i += 1;
    }
}

/// The decimal text of a number.
pub open spec fn number_text(n: nat) -> Seq<char> {
    ascii_chars(decimal::decimal(n))
}

/// Appends the decimal text of `n`.
pub fn push_number(s: &mut String, n: u64)
    ensures
        final(s)@ == old(s)@ + number_text(n as nat),
{
    let mut digits: Vec<u8> = Vec::new();
    push_decimal(&mut digits, n);
    assert(digits@ =~= decimal::decimal(n as nat));
    push_ascii(s, digits.as_slice());
}

/// The hexadecimal text of a byte, without leading zeros.
pub open spec fn short_hex(b: u8) -> Seq<char> {
    if b < 16 {
        seq![digest::hex_lower(b)]
    } else {
        seq![digest::hex_lower(b / 16), digest::hex_lower(b % 16)]
    }
}

/// The character with this number, up to 255, is shown as it is: it is no control character, no
/// space but the common one, and no soft hyphen.
pub open spec fn is_printable(b: u8) -> bool {
    32 <= b <= 126 || 161 <= b && b != 173
}

/// How the character with this number, up to 255, is shown between quotes: some characters after a
/// backslash, and those that are not printable by their number.
pub open spec fn escaped(b: u8) -> Seq<char> {
    if b == 0 {
        seq!['\\', '0']
    } else if b == 9 {
        seq!['\\', 't']
    } else if b == 10 {
        seq!['\\', 'n']
    } else if b == 13 {
        seq!['\\', 'r']
    } else if b == 39 || b == 92 {
        seq!['\\', b as char]
    } else if is_printable(b) {
        seq![b as char]
    } else {
        seq!['\\', 'u', '{'] + short_hex(b) + seq!['}']
    }
}

fn hex_char(d: u8) -> (r: char)
    requires
        d < 16,
    ensures
        r == digest::hex_lower(d),
{
    if d < 10 {
        (48 + d) as char
    } else {
        (87 + d) as char
    }
}

/// Appends the character with this number as it is shown between quotes.
pub fn push_escaped(s: &mut String, b: u8)
    ensures
        final(s)@ == old(s)@ + escaped(b),
{
    if b == 0 {
        s.push('\\');
        s.push('0');
    } else if b == 9 {
        s.push('\\');
        s.push('t');
    } else if b == 10 {
        s.push('\\');
        s.push('n');
    } else if b == 13 {
        s.push('\\');
        s.push('r');
    } else if b == 39 || b == 92 {
        s.push('\\');
        s.push(b as char);
    } else if (32 <= b && b <= 126) || (161 <= b && b != 173) {
        s.push(b as char);
    } else {
        s.push('\\');
        s.push('u');
        s.push('{');
        if b >= 16 {
            s.push(hex_char(b / 16));
        }
        s.push(hex_char(b % 16));
        s.push('}');
    }
    assert(s@ =~= old(s)@ + escaped(b));
}

/// The text that ASCII bytes spell has a character for each byte, and the text of a number has the
/// digits of its decimal text.
pub proof fn law_ascii_by_byte(bytes: Seq<u8>, n: nat, i: int)
    ensures
        ascii_chars(bytes).len() == bytes.len(),
        0 <= i < bytes.len() ==> ascii_chars(bytes)[i] == bytes[i] as char,
        number_text(n).len() == decimal::decimal(n).len(),
        0 <= i < decimal::decimal(n).len() ==> number_text(n)[i] == decimal::decimal(n)[i] as char,
{
}

/// The start of a byte string that is UTF-8 is the longest one.
pub proof fn law_utf8_start(s: Seq<u8>, n: nat, m: nat)
    requires
        m <= n <= s.len(),
    ensures
        utf8_start(s, n) <= n,
        vstd::utf8::valid_utf8(s.take(utf8_start(s, n) as int)),
        vstd::utf8::valid_utf8(s.take(m as int)) ==> m <= utf8_start(s, n),
        utf8_fault(s).error_len == utf8_error_len(s),
        s.len() <= usize::MAX ==> utf8_fault(s).valid_up_to == utf8_start(s, s.len()),
    decreases n,
{
    if s.len() <= usize::MAX && n < s.len() {
        lemma_utf8_start_within(s, s.len());
    }
    if n == 0 {
        assert(s.take(0) =~= Seq::<u8>::empty());
    } else if !vstd::utf8::valid_utf8(s.take(n as int)) {
        law_utf8_start(s, (n - 1) as nat, if m < n {
            m
        } else {
            0
        });
    }
}

proof fn lemma_utf8_start_within(s: Seq<u8>, n: nat)
    ensures
        utf8_start(s, n) <= n,
    decreases n,
{
    if n > 0 {
        lemma_utf8_start_within(s, (n - 1) as nat);
    }
}

} // verus!
