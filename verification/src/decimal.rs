//! Decimal text of integers, as it stands in bencode and in tracker addresses.

use vstd::prelude::*;

verus! {

/// Why a text denotes no number of a machine type.
#[derive(Debug, Clone, Copy, PartialEq, Eq, Structural)]
pub enum NumberError {
    /// The text is empty.
    Empty,
    /// A character is no digit, or there is none after the sign.
    InvalidDigit,
    /// The number is above the greatest of the type.
    TooLarge,
    /// The number is below the least of the type.
    TooSmall,
}

/// The ASCII digit of a number below ten.
pub open spec fn digit(d: nat) -> u8 {
    (48 + d) as u8
}

/// The decimal text of a natural number, without leading zeros.
pub open spec fn decimal(n: nat) -> Seq<u8>
    decreases n,
{
    if n < 10 {
        seq![digit(n)]
    } else {
        decimal(n / 10).push(digit(n % 10))
    }
}

/// The decimal text of an integer: a minus sign stands before a negative one.
pub open spec fn signed_decimal(n: int) -> Seq<u8> {
    if n < 0 {
        seq![45u8] + decimal((-n) as nat)
    } else {
        decimal(n as nat)
    }
}

pub open spec fn is_digit(b: u8) -> bool {
    48 <= b <= 57
}

pub open spec fn all_digits(s: Seq<u8>) -> bool {
    forall|i: int| 0 <= i < s.len() ==> is_digit(#[trigger] s[i])
}

/// The number that a sequence of ASCII digits denotes.
pub open spec fn digits_value(s: Seq<u8>) -> nat
    decreases s.len(),
{
    if s.len() == 0 {
        0
    } else {
        (digits_value(s.drop_last()) * 10 + (s.last() - 48)) as nat
    }
}

/// The number that a decimal text denotes: one digit or more and nothing else, with leading
/// zeros allowed.
pub open spec fn unsigned_of(s: Seq<u8>) -> Option<nat> {
    if s.len() > 0 && all_digits(s) {
        Some(digits_value(s))
    } else {
        None
    }
}

/// The integer that a decimal text with an optional sign denotes.
pub open spec fn signed_of(s: Seq<u8>) -> Option<int> {
    if s.len() > 0 && s[0] == 45 {
        match unsigned_of(s.skip(1)) {
            Some(n) => Some(-(n as int)),
            None => None,
        }
    } else {
        match unsigned_of(if s.len() > 0 && s[0] == 43 { s.skip(1) } else { s }) {
            Some(n) => Some(n as int),
            None => None,
        }
    }
}

/// What the text denotes as a 64-bit signed integer, if it denotes one.
pub open spec fn i64_of(s: Seq<u8>) -> Option<i64> {
    match signed_of(s) {
        Some(n) => if i64::MIN <= n <= i64::MAX {
            Some(n as i64)
        } else {
            None
        },
        None => None,
    }
}

/// What the text denotes as a machine length, if it denotes one. A length carries no sign.
pub open spec fn usize_of(s: Seq<u8>) -> Option<usize> {
    match unsigned_of(s) {
        Some(n) => if n <= usize::MAX {
            Some(n as usize)
        } else {
            None
        },
        None => None,
    }
}

/// The text is made of digits that denote a number up to `limit`.
pub open spec fn readable(s: Seq<u8>, limit: nat) -> bool {
    all_digits(s) && digits_value(s) <= limit
}

/// What is wrong with a text that is not readable: the first character after which it is not
/// decides.
pub open spec fn first_fault(s: Seq<u8>, limit: nat, overflow: NumberError) -> NumberError
    decreases s.len(),
{
    if s.len() > 0 && !readable(s.drop_last(), limit) {
        first_fault(s.drop_last(), limit, overflow)
    } else if s.len() > 0 && !is_digit(s.last()) {
        NumberError::InvalidDigit
    } else {
        overflow
    }
}

/// The same where there must be a digit.
pub open spec fn digits_fault(s: Seq<u8>, limit: nat, overflow: NumberError) -> NumberError {
    if s.len() == 0 {
        NumberError::InvalidDigit
    } else {
        first_fault(s, limit, overflow)
    }
}

/// What is wrong with a text that denotes no 64-bit signed integer.
pub open spec fn i64_fault(s: Seq<u8>) -> NumberError {
    if s.len() == 0 {
        NumberError::Empty
    } else if s[0] == 45 {
        digits_fault(s.skip(1), 0x8000_0000_0000_0000, NumberError::TooSmall)
    } else {
        digits_fault(
            if s[0] == 43 {
                s.skip(1)
            } else {
                s
            },
            i64::MAX as nat,
            NumberError::TooLarge,
        )
    }
}

/// What is wrong with a text that denotes no machine length.
pub open spec fn usize_fault(s: Seq<u8>) -> NumberError {
    if s.len() == 0 {
        NumberError::Empty
    } else {
        digits_fault(s, usize::MAX as nat, NumberError::TooLarge)
    }
}

/// The decimal text of a number below ten is its digit, and one digit more stands at the end of
/// the text of ten times the number and that digit.
pub proof fn law_decimal_by_digits(n: nat, d: nat)
    requires
        d < 10,
    ensures
        decimal(d) == seq![(48 + d) as u8],
        n > 0 ==> decimal(10 * n + d) == decimal(n).push((48 + d) as u8),
{
    assert((10 * n + d) / 10 == n && (10 * n + d) % 10 == d);
}

/// A negative number has the text of its magnitude after a minus sign; others have their own.
pub proof fn law_signed_decimal(n: nat)
    ensures
        signed_decimal(n as int) == decimal(n),
        n > 0 ==> signed_decimal(-(n as int)) == seq![45u8] + decimal(n),
{
}

/// One digit more makes a number ten times as great, and adds the digit.
pub proof fn law_digits_by_ten(s: Seq<u8>, d: nat)
    requires
        d < 10,
    ensures
        digits_value(Seq::empty()) == 0,
        digits_value(s.push((48 + d) as u8)) == 10 * digits_value(s) + d,
{
    assert(s.push((48 + d) as u8).drop_last() =~= s);
}

/// Digits denote a 64-bit signed integer, with a sign or without one, if it is in range. Of a
/// number without a sign the same holds of a length.
pub proof fn law_digits_denote(t: Seq<u8>)
    requires
        t.len() > 0,
        forall|i: int| 0 <= i < t.len() ==> 48 <= #[trigger] t[i] <= 57,
    ensures
        i64_of(t) == if digits_value(t) <= i64::MAX {
            Some(digits_value(t) as i64)
        } else {
            None
        },
        i64_of(seq![43u8] + t) == i64_of(t),
        i64_of(seq![45u8] + t) == if digits_value(t) <= 0x8000_0000_0000_0000 {
            Some((-(digits_value(t) as int)) as i64)
        } else {
            None
        },
        usize_of(t) == if digits_value(t) <= usize::MAX {
            Some(digits_value(t) as usize)
        } else {
            None
        },
{
    assert(all_digits(t));
    assert((seq![43u8] + t).skip(1) =~= t);
    assert((seq![45u8] + t).skip(1) =~= t);
    assert(is_digit(t[0]));
}

/// A text denotes no number if it is empty or a mere sign, or if anything in it but a sign at the
/// start is no digit. No length has a sign.
pub proof fn law_other_texts_denote_nothing(s: Seq<u8>, i: int)
    ensures
        s.len() == 0 ==> i64_of(s) is None && usize_of(s) is None,
        s.len() == 1 && !(48 <= s[0] <= 57) ==> i64_of(s) is None,
        0 < i < s.len() && !(48 <= s[i] <= 57) ==> i64_of(s) is None,
        s.len() > 0 && !(48 <= s[0] <= 57) && s[0] != 43 && s[0] != 45 ==> i64_of(s) is None,
        0 <= i < s.len() && !(48 <= s[i] <= 57) ==> usize_of(s) is None,
{
    if 0 < i < s.len() && !(48 <= s[i] <= 57) {
        assert(s.skip(1)[i - 1] == s[i]);
        assert(!is_digit(s[i]));
        assert(!is_digit(s.skip(1)[i - 1]));
    }
    if s.len() > 0 && !(48 <= s[0] <= 57) {
        assert(!is_digit(s[0]));
    }
    if 0 <= i < s.len() && !(48 <= s[i] <= 57) {
        assert(!is_digit(s[i]));
    }
}

/// What is wrong with a text is told by its first fault, whatever follows: after digits that still
/// denote a number in range, a character that is no digit, or a digit that makes the number too
/// great, or too small after a minus sign.
pub proof fn law_first_fault_counts(t: Seq<u8>, c: u8, rest: Seq<u8>)
    requires
        forall|i: int| 0 <= i < t.len() ==> 48 <= #[trigger] t[i] <= 57,
    ensures
        ({
            let s = t.push(c) + rest;
            let bad = !(48 <= c <= 57);
            let next = 10 * digits_value(t) + (c - 48);
            &&& digits_value(t) <= i64::MAX && bad && (t.len() > 0 || (c != 43 && c != 45))
                ==> i64_fault(s) == NumberError::InvalidDigit
            &&& t.len() > 0 && digits_value(t) <= i64::MAX && !bad && next > i64::MAX
                ==> i64_fault(s) == NumberError::TooLarge
            &&& digits_value(t) <= i64::MAX && bad ==> i64_fault(seq![43u8] + s)
                == NumberError::InvalidDigit
            &&& digits_value(t) <= i64::MAX && !bad && next > i64::MAX ==> i64_fault(
                seq![43u8] + s,
            ) == NumberError::TooLarge
            &&& digits_value(t) <= 0x8000_0000_0000_0000 && bad ==> i64_fault(seq![45u8] + s)
                == NumberError::InvalidDigit
            &&& digits_value(t) <= 0x8000_0000_0000_0000 && !bad && next > 0x8000_0000_0000_0000
                ==> i64_fault(seq![45u8] + s) == NumberError::TooSmall
            &&& digits_value(t) <= usize::MAX && bad ==> usize_fault(s)
                == NumberError::InvalidDigit
            &&& digits_value(t) <= usize::MAX && !bad && next > usize::MAX ==> usize_fault(s)
                == NumberError::TooLarge
        }),
        i64_fault(Seq::empty()) == NumberError::Empty,
        usize_fault(Seq::empty()) == NumberError::Empty,
        i64_fault(seq![43u8]) == NumberError::InvalidDigit,
        i64_fault(seq![45u8]) == NumberError::InvalidDigit,
{
    let s = t.push(c) + rest;
    let k = t.len() as int + 1;
    assert(s.take(k) =~= t.push(c));
    assert(t.push(c).drop_last() =~= t);
    assert(t.push(c).last() == c);
    assert(all_digits(t));
    assert((seq![45u8] + s).skip(1) =~= s);
    assert((seq![43u8] + s).skip(1) =~= s);
    assert(t.push(c)[k - 1] == c);
    if !(48 <= c <= 57) {
        assert(!is_digit(t.push(c)[k - 1]));
        assert(!all_digits(t.push(c)));
    }
    if t.len() > 0 {
        assert(s[0] == t[0]);
        assert(is_digit(t[0]));
    } else {
        assert(s[0] == c);
        assert(digits_value(t) == 0);
    }
    let signed = i64::MAX as nat;
    let low = 0x8000_0000_0000_0000nat;
    let top = usize::MAX as nat;
    if !readable(t.push(c), signed) {
        lemma_first_fault(s, k, signed, NumberError::TooLarge);
    }
    if !readable(t.push(c), low) {
        lemma_first_fault(s, k, low, NumberError::TooSmall);
    }
    if !readable(t.push(c), top) {
        lemma_first_fault(s, k, top, NumberError::TooLarge);
    }
}

/// The decimal text of a number is made of digits that denote the number.
pub proof fn lemma_decimal_denotes(n: nat)
    ensures
        unsigned_of(decimal(n)) == Some(n),
        decimal(n).len() > 0,
        all_digits(decimal(n)),
        digits_value(decimal(n)) == n,
    decreases n,
{
    if n < 10 {
        let s = decimal(n);
        assert(s.drop_last() =~= Seq::<u8>::empty());
        assert(digits_value(s.drop_last()) == 0);
    } else {
        lemma_decimal_denotes(n / 10);
        let s = decimal(n);
        assert(s.drop_last() =~= decimal(n / 10));
    }
}

/// Reading the decimal text of an integer gives the integer back.
pub proof fn lemma_signed_decimal_denotes(n: int)
    ensures
        signed_of(signed_decimal(n)) == Some(n),
        signed_decimal(n).len() > 0,
        forall|i: int|
            0 <= i < signed_decimal(n).len() ==> {
                let b = #[trigger] signed_decimal(n)[i];
                is_digit(b) || b == 45
            },
{
    if n < 0 {
        lemma_decimal_denotes((-n) as nat);
        assert(signed_decimal(n).skip(1) =~= decimal((-n) as nat));
    } else {
        lemma_decimal_denotes(n as nat);
    }
}

/// Digits without a needless zero at the front are the decimal text of what they denote.
pub proof fn lemma_decimal_of_value(s: Seq<u8>)
    requires
        s.len() > 0,
        all_digits(s),
        s[0] == 48 ==> s.len() == 1,
    ensures
        decimal(digits_value(s)) == s,
        s[0] != 48 ==> digits_value(s) > 0,
    decreases s.len(),
{
    let rest = s.drop_last();
    assert(is_digit(s.last()));
    if s.len() == 1 {
        assert(rest =~= Seq::<u8>::empty());
        assert(digits_value(rest) == 0);
        assert(decimal(digits_value(s)) =~= s);
    } else {
        assert(rest[0] == s[0]);
        lemma_decimal_of_value(rest);
        assert(decimal(digits_value(s)) =~= s);
    }
}

/// The decimal text of a byte has at most three digits, and starts with a zero only for zero.
pub proof fn lemma_byte_decimal(b: u8)
    ensures
        1 <= decimal(b as nat).len() <= 3,
        decimal(b as nat)[0] == 48 ==> decimal(b as nat).len() == 1,
{
    reveal_with_fuel(decimal, 3);
}

/// No decimal text of a number is shorter than the one without leading zeros.
pub proof fn lemma_decimal_is_shortest(s: Seq<u8>)
    requires
        s.len() > 0,
        all_digits(s),
    ensures
        decimal(digits_value(s)).len() <= s.len(),
    decreases s.len(),
{
    let t = s.drop_last();
    if t.len() == 0 {
        assert(digits_value(t) == 0);
        assert(is_digit(s[0]));
    } else {
        assert(is_digit(s[s.len() - 1]));
        assert forall|i: int| 0 <= i < t.len() implies is_digit(#[trigger] t[i]) by {
            assert(t[i] == s[i]);
        }
        lemma_decimal_is_shortest(t);
    }
}

/// The same of the text of an integer.
pub proof fn lemma_signed_decimal_is_shortest(s: Seq<u8>)
    ensures
        signed_of(s) matches Some(n) ==> signed_decimal(n).len() <= s.len(),
{
    if let Some(n) = signed_of(s) {
        let t = if s[0] == 45 || s[0] == 43 {
            s.skip(1)
        } else {
            s
        };
        lemma_decimal_is_shortest(t);
    }
}

proof fn lemma_digits_value_grows(s: Seq<u8>, k: int)
    requires
        all_digits(s),
        0 <= k <= s.len(),
    ensures
        digits_value(s.take(k)) <= digits_value(s),
    decreases s.len(),
{
    if k == s.len() {
        assert(s.take(k) =~= s);
    } else {
        lemma_digits_value_grows(s.drop_last(), k);
        assert(s.drop_last().take(k) =~= s.take(k));
    }
}

/// A start of a text that is not readable makes the text so, and has its fault.
proof fn lemma_first_fault(s: Seq<u8>, k: int, limit: nat, overflow: NumberError)
    requires
        0 <= k <= s.len(),
        !readable(s.take(k), limit),
    ensures
        !readable(s, limit),
        first_fault(s, limit, overflow) == first_fault(s.take(k), limit, overflow),
    decreases s.len(),
{
    if k == s.len() {
        assert(s.take(k) =~= s);
    } else {
        let t = s.drop_last();
        assert(t.take(k) =~= s.take(k));
        lemma_first_fault(t, k, limit, overflow);
        if all_digits(s) {
            assert forall|i: int| 0 <= i < t.len() implies is_digit(#[trigger] t[i]) by {
                assert(t[i] == s[i]);
            }
            assert(s.take(t.len() as int) =~= t);
            lemma_digits_value_grows(s, t.len() as int);
        }
    }
}

/// Reads the digits of `s` from `start` on as a number up to `limit`.
fn read_digits(s: &[u8], start: usize, limit: u64, overflow: NumberError) -> (r: Result<
    u64,
    NumberError,
>)
    requires
        start <= s@.len(),
        limit >= 9,
    ensures
        ({
            let t = s@.skip(start as int);
            if t.len() > 0 && readable(t, limit as nat) {
                r == Ok::<u64, NumberError>(digits_value(t) as u64)
            } else {
                r == Err::<u64, NumberError>(digits_fault(t, limit as nat, overflow))
            }
        }),
{
    let ghost t = s@.skip(start as int);
    if start == s.len() {
        return Err(NumberError::InvalidDigit);
    }
    let mut value: u64 = 0;
    let mut i: usize = start;
    assert(t.take(0) =~= Seq::<u8>::empty());
    while i < s.len()
        invariant
            start <= i <= s@.len(),
            start < s@.len(),
            t == s@.skip(start as int),
            limit >= 9,
            readable(t.take(i - start), limit as nat),
            value == digits_value(t.take(i - start)),
        decreases s@.len() - i,
    {
        let b = s[i];
        let ghost k = i - start;
        let ghost next = t.take(k + 1);
        assert(next.drop_last() =~= t.take(k));
        assert(next.last() == b);
        if b < 48 || b > 57 {
            proof {
                assert(!is_digit(next[k]));
                lemma_first_fault(t, k + 1, limit as nat, overflow);
            }
            return Err(NumberError::InvalidDigit);
        }
        let d: u64 = (b - 48) as u64;
        if value > limit / 10 || value * 10 > limit - d {
            proof {
                assert(digits_value(next) == value * 10 + d);
                assert(!readable(next, limit as nat));
                lemma_first_fault(t, k + 1, limit as nat, overflow);
            }
            return Err(overflow);
        }
        assert forall|j: int| 0 <= j < next.len() implies is_digit(#[trigger] next[j]) by {
            if j < k {
                assert(next[j] == t.take(k)[j]);
            }
        }
        value = value * 10 + d;
        i += 1;
    }
    assert(t.take(t.len() as int) =~= t);
    Ok(value)
}

/// Reads a decimal text as a 64-bit signed integer.
pub fn parse_i64(s: &[u8]) -> (r: Result<i64, NumberError>)
    ensures
        r == match i64_of(s@) {
            Some(n) => Ok::<i64, NumberError>(n),
            None => Err(i64_fault(s@)),
        },
{
    if s.len() == 0 {
        return Err(NumberError::Empty);
    }
    if s[0] == 45 {
        match read_digits(s, 1, 0x8000_0000_0000_0000, NumberError::TooSmall) {
            Ok(n) => if n == 0x8000_0000_0000_0000 {
                Ok(i64::MIN)
            } else {
                Ok(-(n as i64))
            },
            Err(e) => Err(e),
        }
    } else {
        let start: usize = if s[0] == 43 {
            1
        } else {
            0
        };
        assert(s@.skip(0) =~= s@);
        match read_digits(s, start, 0x7fff_ffff_ffff_ffff, NumberError::TooLarge) {
            Ok(n) => Ok(n as i64),
            Err(e) => Err(e),
        }
    }
}

/// Reads a decimal text as a length.
pub fn parse_length(s: &[u8]) -> (r: Result<usize, NumberError>)
    ensures
        r == match usize_of(s@) {
            Some(n) => Ok::<usize, NumberError>(n),
            None => Err(usize_fault(s@)),
        },
{
    if s.len() == 0 {
        return Err(NumberError::Empty);
    }
    assert(s@.skip(0) =~= s@);
    match read_digits(s, 0, usize::MAX as u64, NumberError::TooLarge) {
        Ok(n) => Ok(n as usize),
        Err(e) => Err(e),
    }
}

/// Appends the decimal text of `n` to `buf`.
pub fn push_decimal(buf: &mut Vec<u8>, n: u64)
    ensures
        final(buf)@ == old(buf)@ + decimal(n as nat),
    decreases n,
{
    if n < 10 {
        buf.push(48 + n as u8);
        assert(buf@ =~= old(buf)@ + decimal(n as nat));
    } else {
        push_decimal(buf, n / 10);
        buf.push(48 + (n % 10) as u8);
        assert(buf@ =~= old(buf)@ + decimal(n as nat));
    }
}

/// Appends the decimal text of the signed `n` to `buf`.
pub fn push_signed_decimal(buf: &mut Vec<u8>, n: i64)
    ensures
        final(buf)@ == old(buf)@ + signed_decimal(n as int),
{
    if n < 0 {
        buf.push(45);
        let magnitude: u64 = if n == i64::MIN {
            0x8000_0000_0000_0000
        } else {
            (-n) as u64
        };
        push_decimal(buf, magnitude);
        assert(buf@ =~= old(buf)@ + signed_decimal(n as int));
    } else {
        push_decimal(buf, n as u64);
    }
}

} // verus!
