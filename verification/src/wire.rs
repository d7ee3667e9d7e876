//! Little-endian 32-bit integers as they appear in a frame.

use vstd::prelude::*;

verus! {

/// The unsigned value of four bytes, least significant byte first.
pub open spec fn le_value(b: Seq<u8>) -> int
    recommends
        b.len() == 4,
{
    b[0] as int + 256 * (b[1] as int) + 65536 * (b[2] as int) + 16777216 * (b[3] as int)
}

/// The two's-complement reading of an unsigned 32-bit value.
pub open spec fn signed(u: int) -> int {
    if u < 0x8000_0000 {
        u
    } else {
        u - 0x1_0000_0000
    }
}

/// The unsigned 32-bit value whose two's-complement reading is `x`.
pub open spec fn unsigned(x: int) -> int {
    if x >= 0 {
        x
    } else {
        x + 0x1_0000_0000
    }
}

/// The signed integer that four little-endian bytes stand for.
pub open spec fn i32_from_le(b: Seq<u8>) -> i32
    recommends
        b.len() == 4,
{
    signed(le_value(b)) as i32
}

/// The four little-endian bytes of a signed integer.
pub open spec fn i32_to_le(x: i32) -> Seq<u8> {
    let u = unsigned(x as int);
    seq![
        (u % 256) as u8,
        (u / 256 % 256) as u8,
        (u / 256 / 256 % 256) as u8,
        (u / 256 / 256 / 256) as u8,
    ]
}

/// Decoding undoes encoding.
pub proof fn lemma_i32_le_round_trip(x: i32)
    ensures
        i32_to_le(x).len() == 4,
        i32_from_le(i32_to_le(x)) == x,
{
    let u = unsigned(x as int);
    let q1 = u / 256;
    let q2 = q1 / 256;
    let q3 = q2 / 256;
    assert(u == 256 * q1 + u % 256);
    assert(q1 == 256 * q2 + q1 % 256);
    assert(q2 == 256 * q3 + q2 % 256);
    assert(0 <= q3 < 256);
    assert(le_value(i32_to_le(x)) == u);
}

/// Encoding undoes decoding: four bytes stand for exactly one integer.
pub proof fn lemma_i32_le_unique(b: Seq<u8>)
    requires
        b.len() == 4,
    ensures
        i32_to_le(i32_from_le(b)) == b,
{
    let u = le_value(b);
    let q1 = b[1] as int + 256 * (b[2] as int) + 65536 * (b[3] as int);
    let q2 = b[2] as int + 256 * (b[3] as int);
    assert(unsigned(i32_from_le(b) as int) == u);
    assert(u == 256 * q1 + b[0] as int);
    assert(u / 256 == q1 && u % 256 == b[0] as int);
    assert(q1 == 256 * q2 + b[1] as int);
    assert(q1 / 256 == q2 && q1 % 256 == b[1] as int);
    assert(q2 / 256 == b[3] as int && q2 % 256 == b[2] as int);
    assert(i32_to_le(i32_from_le(b)) =~= b);
}

/// Reads the signed little-endian integer that starts at offset `at`.
pub fn read_i32_le(buf: &[u8], at: usize) -> (x: i32)
    requires
        at + 4 <= buf@.len(),
    ensures
        x == i32_from_le(buf@.subrange(at as int, at + 4)),
{
    let b0: u32 = buf[at] as u32;
    let b1: u32 = buf[at + 1] as u32;
    let b2: u32 = buf[at + 2] as u32;
    let b3: u32 = buf[at + 3] as u32;
    let u: u32 = b0 + 256 * b1 + 65536 * b2 + 16777216 * b3;
    if u < 0x8000_0000 {
        u as i32
    } else {
        (u as i64 - 0x1_0000_0000) as i32
    }
}

/// Appends the four little-endian bytes of `x` to `out`.
pub fn push_i32_le(out: &mut Vec<u8>, x: i32)
    ensures
        final(out)@ == old(out)@ + i32_to_le(x),
{
    let u: u32 = if x >= 0 {
        x as u32
    } else {
        (x as i64 + 0x1_0000_0000) as u32
    };
    out.push((u % 256) as u8);
    out.push((u / 256 % 256) as u8);
    out.push((u / 256 / 256 % 256) as u8);
    out.push((u / 256 / 256 / 256) as u8);
    assert(final(out)@ =~= old(out)@ + i32_to_le(x));
}

} // verus!
