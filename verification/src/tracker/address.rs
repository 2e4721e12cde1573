//! The addresses of peers.

use vstd::prelude::*;
use crate::decimal;
use crate::endian::{self, read_be32};

verus! {

/// The dot between the numbers of an address.
pub const DOT: u8 = 46;

/// The address of a peer: an IPv4 address, as the number whose bytes in network order it is, and
/// a port.
#[derive(Debug, Clone, Copy, PartialEq, Eq, Structural)]
pub struct PeerAddr {
    pub ip: u32,
    pub port: u16,
}

/// The text of an IPv4 address: its four bytes in decimal, with dots between them.
pub open spec fn dotted(ip: u32) -> Seq<u8> {
    let b = endian::be32(ip);
    decimal::decimal(b[0] as nat) + seq![DOT] + decimal::decimal(b[1] as nat) + seq![DOT]
        + decimal::decimal(b[2] as nat) + seq![DOT] + decimal::decimal(b[3] as nat)
}

/// The IPv4 address with this text.
pub open spec fn ipv4_of(s: Seq<u8>) -> Option<u32> {
    if exists|ip: u32| s == #[trigger] dotted(ip) {
        Some(choose|ip: u32| s == #[trigger] dotted(ip))
    } else {
        None
    }
}

/// From `from` to `end` stands the decimal text of `b`, and no digit follows it.
spec fn number_at(s: Seq<u8>, from: int, end: int, b: u8) -> bool {
    &&& 0 <= from <= end <= s.len()
    &&& s.subrange(from, end) == decimal::decimal(b as nat)
    &&& end < s.len() ==> !decimal::is_digit(s[end])
}

/// No number stands at `from`.
spec fn no_number(s: Seq<u8>, from: int) -> bool {
    forall|end: int, b: u8| !#[trigger] number_at(s, from, end, b)
}

/// A number is made of one to three digits, the first of which is zero only for zero.
proof fn lemma_number_digits(s: Seq<u8>, from: int, end: int, b: u8)
    requires
        number_at(s, from, end, b),
    ensures
        from < end <= from + 3,
        forall|i: int| from <= i < end ==> decimal::is_digit(#[trigger] s[i]),
        s[from] == 48 ==> end == from + 1,
{
    let t = s.subrange(from, end);
    decimal::lemma_decimal_denotes(b as nat);
    decimal::lemma_byte_decimal(b);
    assert forall|i: int| from <= i < end implies decimal::is_digit(#[trigger] s[i]) by {
        assert(decimal::is_digit(t[i - from]));
    }
    assert(t[0] == s[from]);
}

/// At most one number stands at an offset.
proof fn lemma_one_number(s: Seq<u8>, from: int, end: int, b: u8, end2: int, b2: u8)
    requires
        number_at(s, from, end, b),
        number_at(s, from, end2, b2),
    ensures
        end == end2,
        b == b2,
{
    lemma_number_digits(s, from, end, b);
    lemma_number_digits(s, from, end2, b2);
    decimal::lemma_decimal_denotes(b as nat);
    decimal::lemma_decimal_denotes(b2 as nat);
}

/// Where the numbers of an address end in its text.
spec fn ends_of(ip: u32) -> (int, int, int, int) {
    let b = endian::be32(ip);
    let i = decimal::decimal(b[0] as nat).len() as int;
    let j = i + 1 + decimal::decimal(b[1] as nat).len();
    let k = j + 1 + decimal::decimal(b[2] as nat).len();
    let l = k + 1 + decimal::decimal(b[3] as nat).len();
    (i, j, k, l)
}

/// The numbers of the address stand in the text, with dots between them.
spec fn address_at(s: Seq<u8>, ip: u32) -> bool {
    let b = endian::be32(ip);
    let (i, j, k, l) = ends_of(ip);
    &&& number_at(s, 0, i, b[0])
    &&& i < s.len() && s[i] == DOT
    &&& number_at(s, i + 1, j, b[1])
    &&& j < s.len() && s[j] == DOT
    &&& number_at(s, j + 1, k, b[2])
    &&& k < s.len() && s[k] == DOT
    &&& number_at(s, k + 1, l, b[3])
    &&& l == s.len()
}

proof fn lemma_dotted_numbers(ip: u32)
    ensures
        address_at(dotted(ip), ip),
{
    let s = dotted(ip);
    let b = endian::be32(ip);
    let (i, j, k, l) = ends_of(ip);
    assert(s.subrange(0, i) =~= decimal::decimal(b[0] as nat));
    assert(s.subrange(i + 1, j) =~= decimal::decimal(b[1] as nat));
    assert(s.subrange(j + 1, k) =~= decimal::decimal(b[2] as nat));
    assert(s.subrange(k + 1, l) =~= decimal::decimal(b[3] as nat));
}

/// A text in which the four numbers of an address stand is the text of the address.
proof fn lemma_joined(s: Seq<u8>, ip: u32, i: int, j: int, k: int)
    requires
        number_at(s, 0, i, endian::be32(ip)[0]),
        i < s.len() && s[i] == DOT,
        number_at(s, i + 1, j, endian::be32(ip)[1]),
        j < s.len() && s[j] == DOT,
        number_at(s, j + 1, k, endian::be32(ip)[2]),
        k < s.len() && s[k] == DOT,
        number_at(s, k + 1, s.len() as int, endian::be32(ip)[3]),
    ensures
        s == dotted(ip),
{
    assert(s =~= s.subrange(0, i) + seq![DOT] + s.subrange(i + 1, j) + seq![DOT] + s.subrange(
        j + 1,
        k,
    ) + seq![DOT] + s.subrange(k + 1, s.len() as int));
}

/// Different addresses have different texts, so reading the text of an address gives the address
/// back.
pub proof fn law_address_reads_back(ip: u32)
    ensures
        ipv4_of(dotted(ip)) == Some(ip),
        forall|other: u32| #[trigger] dotted(other) == dotted(ip) ==> other == ip,
{
    let s = dotted(ip);
    assert forall|other: u32| #[trigger] dotted(other) == s implies other == ip by {
        let b = endian::be32(ip);
        let c = endian::be32(other);
        let (i, j, k, l) = ends_of(ip);
        let (i2, j2, k2, l2) = ends_of(other);
        lemma_dotted_numbers(ip);
        lemma_dotted_numbers(other);
        lemma_one_number(s, 0, i, b[0], i2, c[0]);
        lemma_one_number(s, i + 1, j, b[1], j2, c[1]);
        lemma_one_number(s, j + 1, k, b[2], k2, c[2]);
        lemma_one_number(s, k + 1, l, b[3], l2, c[3]);
        endian::law_be32_reads_back(ip);
        endian::law_be32_reads_back(other);
    }
}

/// Reads the number at `from`, and tells where it ends.
fn read_number(s: &[u8], from: usize) -> (r: Option<(u8, usize)>)
    requires
        from <= s.len(),
    ensures
        match r {
            Some((b, end)) => number_at(s@, from as int, end as int, b),
            None => no_number(s@, from as int),
        },
{
    let mut end: usize = from;
    let mut value: u32 = 0;
    assert(s@.subrange(from as int, from as int) =~= Seq::<u8>::empty());
    while end < s.len() && 48 <= s[end] && s[end] <= 57
        invariant
            from <= end <= s.len(),
            end <= from + 3,
            value == decimal::digits_value(s@.subrange(from as int, end as int)),
            end == from ==> value == 0,
            end == from + 1 ==> value <= 9,
            end == from + 2 ==> value <= 99,
            end == from + 3 ==> value <= 999,
            forall|i: int| from <= i < end ==> decimal::is_digit(#[trigger] s@[i]),
        decreases s.len() - end,
    {
        if end - from == 3 {
            assert forall|e: int, b: u8| !#[trigger] number_at(s@, from as int, e, b) by {
                if number_at(s@, from as int, e, b) {
                    lemma_number_digits(s@, from as int, e, b);
                }
            }
            return None;
        }
        value = value * 10 + (s[end] - 48) as u32;
        proof {
            let t = s@.subrange(from as int, end + 1);
            assert(t.drop_last() =~= s@.subrange(from as int, end as int));
        }
        end += 1;
    }
    let ghost t = s@.subrange(from as int, end as int);
    if end == from || value > 255 || (s[from] == 48 && end - from > 1) {
        assert forall|e: int, b: u8| !#[trigger] number_at(s@, from as int, e, b) by {
            if number_at(s@, from as int, e, b) {
                lemma_number_digits(s@, from as int, e, b);
                decimal::lemma_decimal_denotes(b as nat);
            }
        }
        return None;
    }
    proof {
        assert(decimal::all_digits(t));
        decimal::lemma_decimal_of_value(t);
    }
    Some((value as u8, end))
}

/// Reads a dot at `at` and the number after it, and tells where that ends.
fn read_dotted(s: &[u8], at: usize) -> (r: Option<(u8, usize)>)
    requires
        at <= s.len(),
    ensures
        match r {
            Some((b, end)) => at < s.len() && s@[at as int] == DOT && number_at(
                s@,
                at + 1,
                end as int,
                b,
            ),
            None => at < s.len() && s@[at as int] == DOT ==> no_number(s@, at + 1),
        },
{
    if at < s.len() && s[at] == DOT {
        read_number(s, at + 1)
    } else {
        None
    }
}

/// The address with these bytes.
fn address_of(a: u8, b: u8, c: u8, d: u8) -> (r: u32)
    ensures
        endian::be32(r) == seq![a, b, c, d],
{
    let bytes: [u8; 4] = [a, b, c, d];
    proof {
        endian::law_be32_writes_back(bytes@, 0);
        assert(bytes@.subrange(0, 4) =~= seq![a, b, c, d]);
    }
    read_be32(bytes.as_slice(), 0)
}

/// Reads the text of an IPv4 address. Nothing else may stand in it, and no number in it starts
/// with a needless zero.
pub fn parse_ipv4(s: &[u8]) -> (r: Option<u32>)
    ensures
        r == ipv4_of(s@),
{
    let ghost expected = ipv4_of(s@);
    let ghost bytes = endian::be32(expected->0);
    let ghost ends = ends_of(expected->0);
    proof {
        if expected is Some {
            lemma_dotted_numbers(expected->0);
        }
    }
    let (a, i) = match read_number(s, 0) {
        Some(n) => n,
        None => {
            return None;
        },
    };
    proof {
        if expected is Some {
            lemma_one_number(s@, 0, i as int, a, ends.0, bytes[0]);
        }
    }
    let (b, j) = match read_dotted(s, i) {
        Some(n) => n,
        None => {
            return None;
        },
    };
    proof {
        if expected is Some {
            lemma_one_number(s@, i + 1, j as int, b, ends.1, bytes[1]);
        }
    }
    let (c, k) = match read_dotted(s, j) {
        Some(n) => n,
        None => {
            return None;
        },
    };
    proof {
        if expected is Some {
            lemma_one_number(s@, j + 1, k as int, c, ends.2, bytes[2]);
        }
    }
    let (d, l) = match read_dotted(s, k) {
        Some(n) => n,
        None => {
            return None;
        },
    };
    if l != s.len() {
        proof {
            if expected is Some {
                lemma_one_number(s@, k + 1, l as int, d, ends.3, bytes[3]);
            }
        }
        return None;
    }
    let ip = address_of(a, b, c, d);
    proof {
        lemma_joined(s@, ip, i as int, j as int, k as int);
        law_address_reads_back(ip);
    }
    Some(ip)
}

} // verus!
