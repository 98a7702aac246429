//! Big-endian integers.

use vstd::prelude::*;

verus! {

/// The two bytes of an integer, most significant first.
pub open spec fn be16(x: u16) -> Seq<u8> {
    seq![(x / 256) as u8, (x % 256) as u8]
}

/// The four bytes of an integer, most significant first.
pub open spec fn be32(x: u32) -> Seq<u8> {
    seq![
        (x / 0x100_0000) as u8,
        (x / 0x1_0000 % 256) as u8,
        (x / 0x100 % 256) as u8,
        (x % 256) as u8,
    ]
}

/// The integer that two bytes write.
pub open spec fn value16(a: u8, b: u8) -> u16 {
    (a * 256 + b) as u16
}

/// The integer that four bytes write.
pub open spec fn value32(a: u8, b: u8, c: u8, d: u8) -> u32 {
    (a * 0x100_0000 + b * 0x1_0000 + c * 0x100 + d) as u32
}

/// Upper byte of a 16-bit integer.
pub fn high_byte(x: u16) -> (b: u8)
    ensures
        b == be16(x)[0],
{
    (x / 256) as u8
}

/// Lower byte of a 16-bit integer.
pub fn low_byte(x: u16) -> (b: u8)
    ensures
        b == be16(x)[1],
{
    (x % 256) as u8
}

/// The four bytes of an integer, most significant first.
pub fn bytes32(x: u32) -> (b: [u8; 4])
    ensures
        b@ == be32(x),
{
    [
        (x / 0x100_0000) as u8,
        (x / 0x1_0000 % 256) as u8,
        (x / 0x100 % 256) as u8,
        (x % 256) as u8,
    ]
}

/// The integer that two bytes write.
pub fn join16(a: u8, b: u8) -> (x: u16)
    ensures
        x == value16(a, b),
{
    a as u16 * 256 + b as u16
}

/// The integer that four bytes write.
pub fn join32(a: u8, b: u8, c: u8, d: u8) -> (x: u32)
    ensures
        x == value32(a, b, c, d),
{
    a as u32 * 0x100_0000 + b as u32 * 0x1_0000 + c as u32 * 0x100 + d as u32
}

/// Writing and reading a 16-bit integer undo each other.
pub proof fn law_be16_round_trip(x: u16, a: u8, b: u8)
    ensures
        value16(be16(x)[0], be16(x)[1]) == x,
        be16(value16(a, b)) == seq![a, b],
{
    assert((a * 256 + b) / 256 == a && (a * 256 + b) % 256 == b);
    assert(be16(value16(a, b)) =~= seq![a, b]);
}

/// Writing and reading a 32-bit integer undo each other.
pub proof fn law_be32_round_trip(x: u32, a: u8, b: u8, c: u8, d: u8)
    ensures
        value32(be32(x)[0], be32(x)[1], be32(x)[2], be32(x)[3]) == x,
        be32(value32(a, b, c, d)) == seq![a, b, c, d],
{
    let y = value32(a, b, c, d);
    assert(y / 0x100_0000 == a);
    assert(y / 0x1_0000 == a * 256 + b);
    assert(y / 0x100 == a * 0x1_0000 + b * 256 + c);
    assert(y % 256 == d);
    assert(be32(y) =~= seq![a, b, c, d]);
}

/// The bytes of a number are its digits to base 256, the highest first.
pub proof fn law_bytes_are_digits(x: u16, y: u32)
    ensures
        be16(x).len() == 2,
        be16(x)[0] * 256 + be16(x)[1] == x,
        be32(y).len() == 4,
        be32(y)[0] * 0x100_0000 + be32(y)[1] * 0x1_0000 + be32(y)[2] * 0x100 + be32(y)[3] == y,
{
}

} // verus!
