//! Integers in network byte order.

use vstd::prelude::*;

verus! {

/// The two bytes of `x`, the high one first.
pub open spec fn be16(x: u16) -> Seq<u8> {
    seq![(x / 0x100) as u8, (x % 0x100) as u8]
}

/// The four bytes of `x`, the high one first.
pub open spec fn be32(x: u32) -> Seq<u8> {
    seq![
        (x / 0x100_0000) as u8,
        (x / 0x1_0000 % 0x100) as u8,
        (x / 0x100 % 0x100) as u8,
        (x % 0x100) as u8,
    ]
}

/// The eight bytes of `x`, the high one first.
pub open spec fn be64(x: u64) -> Seq<u8> {
    be32((x / 0x1_0000_0000) as u32) + be32((x % 0x1_0000_0000) as u32)
}

/// The number whose bytes stand at `from`.
pub open spec fn be16_at(s: Seq<u8>, from: int) -> u16 {
    (s[from] * 0x100 + s[from + 1]) as u16
}

/// The number whose bytes stand at `from`.
pub open spec fn be32_at(s: Seq<u8>, from: int) -> u32 {
    (s[from] * 0x100_0000 + s[from + 1] * 0x1_0000 + s[from + 2] * 0x100 + s[from + 3]) as u32
}

/// The bytes of a number are its digits to the base 256, the high one first.
pub proof fn law_be16_is_big_endian(x: u16)
    ensures
        be16(x).len() == 2,
        be16(x)[0] * 0x100 + be16(x)[1] == x,
{
}

/// The bytes of a number are its digits to the base 256, the high one first.
pub proof fn law_be32_is_big_endian(x: u32)
    ensures
        be32(x).len() == 4,
        be32(x)[0] * 0x100_0000 + be32(x)[1] * 0x1_0000 + be32(x)[2] * 0x100 + be32(x)[3] == x,
{
}

/// The bytes of a number are its digits to the base 256, the high one first.
pub proof fn law_be64_is_big_endian(x: u64)
    ensures
        be64(x).len() == 8,
        ({
            let b = be64(x);
            (b[0] * 0x100_0000 + b[1] * 0x1_0000 + b[2] * 0x100 + b[3]) * 0x1_0000_0000 + (b[4]
                * 0x100_0000 + b[5] * 0x1_0000 + b[6] * 0x100 + b[7]) == x
        }),
{
    let high = (x / 0x1_0000_0000) as u32;
    let low = (x % 0x1_0000_0000) as u32;
    law_be32_is_big_endian(high);
    law_be32_is_big_endian(low);
    let b = be64(x);
    assert(b[0] == be32(high)[0] && b[1] == be32(high)[1] && b[2] == be32(high)[2] && b[3] == be32(
        high,
    )[3]);
    assert(b[4] == be32(low)[0] && b[5] == be32(low)[1] && b[6] == be32(low)[2] && b[7] == be32(
        low,
    )[3]);
}

/// The number that is read has the bytes as its digits to the base 256, the high one first.
pub proof fn law_reading_is_big_endian(s: Seq<u8>, from: int)
    ensures
        be16_at(s, from) == s[from] * 0x100 + s[from + 1],
        be32_at(s, from) == s[from] * 0x100_0000 + s[from + 1] * 0x1_0000 + s[from + 2] * 0x100
            + s[from + 3],
{
}

/// Reading the bytes of a number gives the number back.
pub proof fn law_be32_reads_back(x: u32)
    ensures
        be32_at(be32(x), 0) == x,
        be32(x).len() == 4,
{
}

/// Reading the bytes of a number gives the number back.
pub proof fn law_be16_reads_back(x: u16)
    ensures
        be16_at(be16(x), 0) == x,
        be16(x).len() == 2,
{
}

/// The bytes of a number are the digits of which it is made.
proof fn lemma_four_bytes(a: u8, b: u8, c: u8, d: u8, high: int, low: int)
    requires
        high == a * 0x100 + b,
        low == c * 0x100 + d,
    ensures
        (high * 0x1_0000 + low) / 0x100_0000 == a,
        (high * 0x1_0000 + low) / 0x1_0000 % 0x100 == b,
        (high * 0x1_0000 + low) / 0x100 % 0x100 == c,
        (high * 0x1_0000 + low) % 0x100 == d,
{
    let x = high * 0x1_0000 + low;
    assert(x / 0x1_0000 == high && x % 0x1_0000 == low);
    assert(x / 0x100_0000 == x / 0x1_0000 / 0x100);
    assert(x / 0x100 % 0x100 == x % 0x1_0000 / 0x100);
    assert(x % 0x100 == x % 0x1_0000 % 0x100);
}

/// Writing a number that was read gives its bytes back.
pub proof fn law_be32_writes_back(s: Seq<u8>, from: int)
    requires
        0 <= from,
        from + 4 <= s.len(),
    ensures
        be32(be32_at(s, from)) == s.subrange(from, from + 4),
{
    let x = be32_at(s, from);
    let high = s[from] * 0x100 + s[from + 1];
    let low = s[from + 2] * 0x100 + s[from + 3];
    assert(x == high * 0x1_0000 + low);
    lemma_four_bytes(s[from], s[from + 1], s[from + 2], s[from + 3], high, low);
    assert(be32(x) =~= s.subrange(from, from + 4));
}

/// Writing a number that was read gives its bytes back.
pub proof fn law_be16_writes_back(s: Seq<u8>, from: int)
    requires
        0 <= from,
        from + 2 <= s.len(),
    ensures
        be16(be16_at(s, from)) == s.subrange(from, from + 2),
{
    assert(be16(be16_at(s, from)) =~= s.subrange(from, from + 2));
}

/// Appends the bytes of `x`.
pub fn push_be16(buf: &mut Vec<u8>, x: u16)
    ensures
        final(buf)@ == old(buf)@ + be16(x),
{
    buf.push((x / 0x100) as u8);
    buf.push((x % 0x100) as u8);
    assert(buf@ =~= old(buf)@ + be16(x));
}

/// Appends the bytes of `x`.
pub fn push_be32(buf: &mut Vec<u8>, x: u32)
    ensures
        final(buf)@ == old(buf)@ + be32(x),
{
    buf.push((x / 0x100_0000) as u8);
    buf.push((x / 0x1_0000 % 0x100) as u8);
    buf.push((x / 0x100 % 0x100) as u8);
    buf.push((x % 0x100) as u8);
    assert(buf@ =~= old(buf)@ + be32(x));
}

/// Appends the bytes of `x`.
pub fn push_be64(buf: &mut Vec<u8>, x: u64)
    ensures
        final(buf)@ == old(buf)@ + be64(x),
{
    push_be32(buf, (x / 0x1_0000_0000) as u32);
    push_be32(buf, (x % 0x1_0000_0000) as u32);
    assert(buf@ =~= old(buf)@ + be64(x));
}

/// Reads the number whose bytes stand at `from`.
pub fn read_be16(s: &[u8], from: usize) -> (r: u16)
    requires
        from + 2 <= s.len(),
    ensures
        r == be16_at(s@, from as int),
{
    s[from] as u16 * 0x100 + s[from + 1] as u16
}

/// Reads the number whose bytes stand at `from`.
pub fn read_be32(s: &[u8], from: usize) -> (r: u32)
    requires
        from + 4 <= s.len(),
    ensures
        r == be32_at(s@, from as int),
{
    s[from] as u32 * 0x100_0000 + s[from + 1] as u32 * 0x1_0000 + s[from + 2] as u32 * 0x100
        + s[from + 3] as u32
}

} // verus!
