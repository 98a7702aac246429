//! CRC-8, CRC-16 and CRC-32.

use vstd::prelude::*;

use crate::be;

verus! {

// ---------------------------------------------------------------------------
// CRC-8
// ---------------------------------------------------------------------------

/// The register after one bit: multiplied by x modulo x^8 + x^2 + x + 1.
pub open spec fn crc8_shift(crc: u8) -> u8 {
    if crc & 0x80 != 0 {
        (crc << 1) ^ 0x07
    } else {
        crc << 1
    }
}

/// The register after `n` bits.
pub open spec fn crc8_shifts(crc: u8, n: nat) -> u8
    decreases n,
{
    if n == 0 {
        crc
    } else {
        crc8_shift(crc8_shifts(crc, (n - 1) as nat))
    }
}

/// The register after some bytes.
pub open spec fn crc8_after(crc: u8, data: Seq<u8>) -> u8
    decreases data.len(),
{
    if data.len() == 0 {
        crc
    } else {
        crc8_shifts(crc8_after(crc, data.drop_last()) ^ data.last(), 8)
    }
}

/// CRC-8 of some bytes: polynomial 0x07, initial register 0xFF.
pub open spec fn crc8_of(data: Seq<u8>) -> u8 {
    crc8_after(0xFF, data)
}

/// CRC-8 (polynomial 0x07, initial register 0xFF).
pub fn crc8(data: &[u8]) -> (crc: u8)
    ensures
        crc == crc8_of(data@),
{
    let mut crc: u8 = 0xFF;
    let mut i: usize = 0;
    assert(data@.take(0) =~= Seq::<u8>::empty());
    while i < data.len()
        invariant
            i <= data.len(),
            crc == crc8_of(data@.take(i as int)),
        decreases data.len() - i,
    {
        proof {
            let next = data@.take(i + 1);
            assert(next.drop_last() =~= data@.take(i as int));
            assert(next.last() == data@[i as int]);
        }
        crc = crc ^ data[i];
        let ghost mixed = crc;
        let mut bit: usize = 0;
        while bit < 8
            invariant
                bit <= 8,
                crc == crc8_shifts(mixed, bit as nat),
            decreases 8 - bit,
        {
            if crc & 0x80 != 0 {
                crc = (crc << 1) ^ 0x07;
            } else {
                crc = crc << 1;
            }
            bit = bit + 1;
        }
        i = i + 1;
    }
    assert(data@.take(i as int) =~= data@);
    crc
}

proof fn lemma_crc8_shift_is_injective(a: u8, b: u8)
    by (bit_vector)
    requires
        a != b,
    ensures
        crc8_shift(a) != crc8_shift(b),
{
}

proof fn lemma_crc8_shifts_are_injective(a: u8, b: u8, n: nat)
    requires
        a != b,
    ensures
        crc8_shifts(a, n) != crc8_shifts(b, n),
    decreases n,
{
    if n > 0 {
        lemma_crc8_shifts_are_injective(a, b, (n - 1) as nat);
        lemma_crc8_shift_is_injective(
            crc8_shifts(a, (n - 1) as nat),
            crc8_shifts(b, (n - 1) as nat),
        );
    }
}

/// Exclusive or with the same value keeps values apart.
proof fn lemma_xor8(a: u8, b: u8, x: u8)
    by (bit_vector)
    ensures
        (a ^ x == b ^ x) <==> a == b,
        (x ^ a == x ^ b) <==> a == b,
{
}

proof fn lemma_crc8_step(c: u8, d: u8, x: u8, y: u8)
    requires
        c == d && x != y || c != d && x == y,
    ensures
        crc8_shifts(c ^ x, 8) != crc8_shifts(d ^ y, 8),
{
    lemma_xor8(c, d, x);
    lemma_xor8(x, y, c);
    lemma_crc8_shifts_are_injective(c ^ x, d ^ y, 8);
}

proof fn lemma_crc8_differs(crc: u8, a: Seq<u8>, b: Seq<u8>, i: int)
    requires
        differ_only_at(a, b, i),
    ensures
        crc8_after(crc, a) != crc8_after(crc, b),
    decreases a.len(),
{
    let c = a.drop_last();
    let d = b.drop_last();
    if i == a.len() - 1 {
        assert(c =~= d);
    } else {
        lemma_crc8_differs(crc, c, d, i);
    }
    lemma_crc8_step(crc8_after(crc, c), crc8_after(crc, d), a.last(), b.last());
}

/// Two messages of one length that differ in one byte have different CRC-8 values.
pub proof fn law_crc8_catches_a_changed_byte(a: Seq<u8>, b: Seq<u8>, i: int)
    requires
        differ_only_at(a, b, i),
    ensures
        crc8_of(a) != crc8_of(b),
{
    lemma_crc8_differs(0xFF, a, b, i);
}

/// Steps of the register are linear.
proof fn lemma_crc8_steps_are_linear(c: u8, d: u8, x: u8, y: u8)
    by (bit_vector)
    ensures
        crc8_shift(c ^ d) == crc8_shift(c) ^ crc8_shift(d),
        (c ^ d) ^ (x ^ y) == (c ^ x) ^ (d ^ y),
        (c ^ c) ^ c == c,
{
}

proof fn lemma_crc8_shifts_are_linear(a: u8, b: u8, n: nat)
    ensures
        crc8_shifts(a ^ b, n) == crc8_shifts(a, n) ^ crc8_shifts(b, n),
    decreases n,
{
    if n > 0 {
        lemma_crc8_shifts_are_linear(a, b, (n - 1) as nat);
        lemma_crc8_steps_are_linear(
            crc8_shifts(a, (n - 1) as nat),
            crc8_shifts(b, (n - 1) as nat),
            0,
            0,
        );
    }
}

/// The register is linear: from the sum of two registers, the sum of two messages of one
/// length leads to the sum of the registers that each leads to. The sum is exclusive or.
pub proof fn law_crc8_register_is_linear(c: u8, d: u8, a: Seq<u8>, b: Seq<u8>)
    requires
        a.len() == b.len(),
    ensures
        crc8_after(c ^ d, xor_bytes(a, b)) == crc8_after(c, a) ^ crc8_after(d, b),
    decreases a.len(),
{
    if a.len() > 0 {
        let x = xor_bytes(a, b);
        assert(x.drop_last() =~= xor_bytes(a.drop_last(), b.drop_last()));
        law_crc8_register_is_linear(c, d, a.drop_last(), b.drop_last());
        let p = crc8_after(c, a.drop_last());
        let q = crc8_after(d, b.drop_last());
        lemma_crc8_steps_are_linear(p, q, a.last(), b.last());
        lemma_crc8_shifts_are_linear(p ^ a.last(), q ^ b.last(), 8);
    }
}

/// CRC-8 is linear up to a constant: the values of three messages of one length add up to
/// that of their sum.
pub proof fn law_crc8_is_linear(a: Seq<u8>, b: Seq<u8>, c: Seq<u8>)
    requires
        a.len() == b.len(),
        b.len() == c.len(),
    ensures
        crc8_of(xor_bytes(xor_bytes(a, b), c)) == crc8_of(a) ^ crc8_of(b) ^ crc8_of(c),
{
    let one: u8 = 0xFF;
    law_crc8_register_is_linear(one, one, a, b);
    law_crc8_register_is_linear(one ^ one, one, xor_bytes(a, b), c);
    lemma_crc8_steps_are_linear(one, one, 0, 0);
}

/// Bytes followed by their CRC-8 leave the register at zero.
pub proof fn law_crc8_leaves_no_remainder(data: Seq<u8>)
    ensures
        crc8_of(data.push(crc8_of(data))) == 0,
{
    let c = crc8_of(data);
    assert(data.push(c).drop_last() =~= data);
    assert(c ^ c == 0) by (bit_vector);
    lemma_crc8_of_zero(8);
}

proof fn lemma_crc8_of_zero(n: nat)
    ensures
        crc8_shifts(0, n) == 0,
    decreases n,
{
    assert(crc8_shift(0) == 0) by (bit_vector);
    if n > 0 {
        lemma_crc8_of_zero((n - 1) as nat);
    }
}

/// Sum of two byte sequences of one length, by exclusive or.
pub open spec fn xor_bytes(a: Seq<u8>, b: Seq<u8>) -> Seq<u8> {
    Seq::new(a.len(), |i: int| a[i] ^ b[i])
}

/// Two sequences of one length that differ at position `i` and nowhere else.
pub open spec fn differ_only_at(a: Seq<u8>, b: Seq<u8>, i: int) -> bool {
    &&& a.len() == b.len()
    &&& 0 <= i < a.len()
    &&& a[i] != b[i]
    &&& forall|j: int| 0 <= j < a.len() && j != i ==> a[j] == b[j]
}

// ---------------------------------------------------------------------------
// CRC-16
// ---------------------------------------------------------------------------

/// The register after one bit: multiplied by x modulo x^16 + x^12 + x^5 + 1.
pub open spec fn crc16_shift(crc: u16) -> u16 {
    if crc & 0x8000 != 0 {
        (crc << 1) ^ 0x1021
    } else {
        crc << 1
    }
}

/// The register after `n` bits.
pub open spec fn crc16_shifts(crc: u16, n: nat) -> u16
    decreases n,
{
    if n == 0 {
        crc
    } else {
        crc16_shift(crc16_shifts(crc, (n - 1) as nat))
    }
}

/// The register after some bytes.
pub open spec fn crc16_after(crc: u16, data: Seq<u8>) -> u16
    decreases data.len(),
{
    if data.len() == 0 {
        crc
    } else {
        crc16_shifts(crc16_after(crc, data.drop_last()) ^ ((data.last() as u16) << 8), 8)
    }
}

/// CRC-16 of some bytes: polynomial 0x1021, initial register 0xFFFF, no reflection.
pub open spec fn crc16_of(data: Seq<u8>) -> u16 {
    crc16_after(0xFFFF, data)
}

/// CRC-16/CCITT-FALSE (polynomial 0x1021, initial register 0xFFFF, no reflection).
pub fn crc16(data: &[u8]) -> (crc: u16)
    ensures
        crc == crc16_of(data@),
{
    let mut crc: u16 = 0xFFFF;
    let mut i: usize = 0;
    assert(data@.take(0) =~= Seq::<u8>::empty());
    while i < data.len()
        invariant
            i <= data.len(),
            crc == crc16_of(data@.take(i as int)),
        decreases data.len() - i,
    {
        proof {
            let next = data@.take(i + 1);
            assert(next.drop_last() =~= data@.take(i as int));
            assert(next.last() == data@[i as int]);
        }
        crc = crc ^ ((data[i] as u16) << 8);
        let ghost mixed = crc;
        let mut bit: usize = 0;
        while bit < 8
            invariant
                bit <= 8,
                crc == crc16_shifts(mixed, bit as nat),
            decreases 8 - bit,
        {
            if crc & 0x8000 != 0 {
                crc = (crc << 1) ^ 0x1021;
            } else {
                crc = crc << 1;
            }
            bit = bit + 1;
        }
        i = i + 1;
    }
    assert(data@.take(i as int) =~= data@);
    crc
}

proof fn lemma_crc16_shift_is_injective(a: u16, b: u16)
    by (bit_vector)
    requires
        a != b,
    ensures
        crc16_shift(a) != crc16_shift(b),
{
}

proof fn lemma_crc16_shifts_are_injective(a: u16, b: u16, n: nat)
    requires
        a != b,
    ensures
        crc16_shifts(a, n) != crc16_shifts(b, n),
    decreases n,
{
    if n > 0 {
        lemma_crc16_shifts_are_injective(a, b, (n - 1) as nat);
        lemma_crc16_shift_is_injective(
            crc16_shifts(a, (n - 1) as nat),
            crc16_shifts(b, (n - 1) as nat),
        );
    }
}

/// Mixing a byte into the register keeps registers apart and bytes apart.
proof fn lemma_crc16_mix(c: u16, d: u16, x: u8, y: u8)
    by (bit_vector)
    requires
        c == d && x != y || c != d && x == y,
    ensures
        c ^ ((x as u16) << 8) != d ^ ((y as u16) << 8),
{
}

proof fn lemma_crc16_differs(crc: u16, a: Seq<u8>, b: Seq<u8>, i: int)
    requires
        differ_only_at(a, b, i),
    ensures
        crc16_after(crc, a) != crc16_after(crc, b),
    decreases a.len(),
{
    let c = a.drop_last();
    let d = b.drop_last();
    if i == a.len() - 1 {
        assert(c =~= d);
    } else {
        lemma_crc16_differs(crc, c, d, i);
    }
    let p = crc16_after(crc, c);
    let q = crc16_after(crc, d);
    lemma_crc16_mix(p, q, a.last(), b.last());
    lemma_crc16_shifts_are_injective(
        p ^ ((a.last() as u16) << 8),
        q ^ ((b.last() as u16) << 8),
        8,
    );
}

/// Two messages of one length that differ in one byte have different CRC-16 values.
pub proof fn law_crc16_catches_a_changed_byte(a: Seq<u8>, b: Seq<u8>, i: int)
    requires
        differ_only_at(a, b, i),
    ensures
        crc16_of(a) != crc16_of(b),
{
    lemma_crc16_differs(0xFFFF, a, b, i);
}

/// Steps of the register are linear.
proof fn lemma_crc16_steps_are_linear(c: u16, d: u16, x: u8, y: u8)
    by (bit_vector)
    ensures
        crc16_shift(c ^ d) == crc16_shift(c) ^ crc16_shift(d),
        (c ^ d) ^ (((x ^ y) as u16) << 8) == (c ^ ((x as u16) << 8)) ^ (d ^ ((y as u16) << 8)),
        (c ^ c) ^ c == c,
{
}

proof fn lemma_crc16_shifts_are_linear(a: u16, b: u16, n: nat)
    ensures
        crc16_shifts(a ^ b, n) == crc16_shifts(a, n) ^ crc16_shifts(b, n),
    decreases n,
{
    if n > 0 {
        lemma_crc16_shifts_are_linear(a, b, (n - 1) as nat);
        lemma_crc16_steps_are_linear(
            crc16_shifts(a, (n - 1) as nat),
            crc16_shifts(b, (n - 1) as nat),
            0,
            0,
        );
    }
}

/// The register is linear: from the sum of two registers, the sum of two messages of one
/// length leads to the sum of the registers that each leads to. The sum is exclusive or.
pub proof fn law_crc16_register_is_linear(c: u16, d: u16, a: Seq<u8>, b: Seq<u8>)
    requires
        a.len() == b.len(),
    ensures
        crc16_after(c ^ d, xor_bytes(a, b)) == crc16_after(c, a) ^ crc16_after(d, b),
    decreases a.len(),
{
    if a.len() > 0 {
        let x = xor_bytes(a, b);
        assert(x.drop_last() =~= xor_bytes(a.drop_last(), b.drop_last()));
        law_crc16_register_is_linear(c, d, a.drop_last(), b.drop_last());
        let p = crc16_after(c, a.drop_last());
        let q = crc16_after(d, b.drop_last());
        lemma_crc16_steps_are_linear(p, q, a.last(), b.last());
        lemma_crc16_shifts_are_linear(p ^ ((a.last() as u16) << 8), q ^ ((b.last() as u16) << 8), 8);
    }
}

/// CRC-16 is linear up to a constant: the values of three messages of one length add up to
/// that of their sum.
pub proof fn law_crc16_is_linear(a: Seq<u8>, b: Seq<u8>, c: Seq<u8>)
    requires
        a.len() == b.len(),
        b.len() == c.len(),
    ensures
        crc16_of(xor_bytes(xor_bytes(a, b), c)) == crc16_of(a) ^ crc16_of(b) ^ crc16_of(c),
{
    let one: u16 = 0xFFFF;
    law_crc16_register_is_linear(one, one, a, b);
    law_crc16_register_is_linear(one ^ one, one, xor_bytes(a, b), c);
    lemma_crc16_steps_are_linear(one, one, 0, 0);
}

/// While no bit reaches the top, the register only moves.
proof fn lemma_crc16_moves(low: u16, n: nat)
    requires
        low < 0x100,
        n <= 8,
    ensures
        crc16_shifts(low, n) == low << (n as u16),
    decreases n,
{
    if n == 0 {
        assert(low << 0u16 == low) by (bit_vector);
    } else {
        lemma_crc16_moves(low, (n - 1) as nat);
        let k = (n - 1) as u16;
        assert(crc16_shift(low << k) == low << ((k + 1) as u16)) by (bit_vector)
            requires
                low < 0x100,
                k < 8,
        ;
    }
}

/// Bytes followed by their CRC-16, high byte first, leave the register at zero.
pub proof fn law_crc16_leaves_no_remainder(data: Seq<u8>)
    ensures
        crc16_of(data + be::be16(crc16_of(data))) == 0,
{
    let c = crc16_of(data);
    let (high, low) = ((c / 256) as u8, (c % 256) as u8);
    let first = data.push(high);
    assert(first.drop_last() =~= data);
    assert(first.push(low).drop_last() =~= first);
    let rest = c & 0xFF;
    assert(c ^ ((high as u16) << 8) == rest && rest < 0x100 && (rest << 8) ^ ((low as u16) << 8)
        == 0) by (bit_vector)
        requires
            high == (c / 256) as u8,
            low == (c % 256) as u8,
            rest == c & 0xFF,
    ;
    assert(data + be::be16(c) =~= first.push(low));
    assert(first.last() == high && first.push(low).last() == low);
    lemma_crc16_moves(rest, 8);
    assert(crc16_of(first) == rest << 8u16);
    lemma_crc16_moves(0, 8);
    assert(0u16 << 8u16 == 0) by (bit_vector);
}

// ---------------------------------------------------------------------------
// CRC-32
// ---------------------------------------------------------------------------

/// The reflected register after one bit.
pub open spec fn crc32_shift(crc: u32) -> u32 {
    if crc & 1 != 0 {
        (crc >> 1) ^ 0xEDB8_8320
    } else {
        crc >> 1
    }
}

/// The register after `n` bits.
pub open spec fn crc32_shifts(crc: u32, n: nat) -> u32
    decreases n,
{
    if n == 0 {
        crc
    } else {
        crc32_shift(crc32_shifts(crc, (n - 1) as nat))
    }
}

/// The register after some bytes.
pub open spec fn crc32_after(crc: u32, data: Seq<u8>) -> u32
    decreases data.len(),
{
    if data.len() == 0 {
        crc
    } else {
        crc32_shifts(crc32_after(crc, data.drop_last()) ^ (data.last() as u32), 8)
    }
}

/// CRC-32 of some bytes: reflected polynomial 0xEDB88320, register inverted at
/// both ends.
pub open spec fn crc32_of(data: Seq<u8>) -> u32 {
    !crc32_after(0xFFFF_FFFF, data)
}

/// CRC-32 (IEEE 802.3, reflected polynomial 0xEDB88320).
pub fn crc32(data: &[u8]) -> (crc: u32)
    ensures
        crc == crc32_of(data@),
{
    let mut crc: u32 = 0xFFFF_FFFF;
    let mut i: usize = 0;
    assert(data@.take(0) =~= Seq::<u8>::empty());
    while i < data.len()
        invariant
            i <= data.len(),
            crc == crc32_after(0xFFFF_FFFF, data@.take(i as int)),
        decreases data.len() - i,
    {
        proof {
            let next = data@.take(i + 1);
            assert(next.drop_last() =~= data@.take(i as int));
            assert(next.last() == data@[i as int]);
        }
        crc = crc ^ (data[i] as u32);
        let ghost mixed = crc;
        let mut bit: usize = 0;
        while bit < 8
            invariant
                bit <= 8,
                crc == crc32_shifts(mixed, bit as nat),
            decreases 8 - bit,
        {
            if crc & 1 != 0 {
                crc = (crc >> 1) ^ 0xEDB8_8320;
            } else {
                crc = crc >> 1;
            }
            bit = bit + 1;
        }
        i = i + 1;
    }
    assert(data@.take(i as int) =~= data@);
    !crc
}

proof fn lemma_crc32_shift_is_injective(a: u32, b: u32)
    by (bit_vector)
    requires
        a != b,
    ensures
        crc32_shift(a) != crc32_shift(b),
{
}

proof fn lemma_crc32_shifts_are_injective(a: u32, b: u32, n: nat)
    requires
        a != b,
    ensures
        crc32_shifts(a, n) != crc32_shifts(b, n),
    decreases n,
{
    if n > 0 {
        lemma_crc32_shifts_are_injective(a, b, (n - 1) as nat);
        lemma_crc32_shift_is_injective(
            crc32_shifts(a, (n - 1) as nat),
            crc32_shifts(b, (n - 1) as nat),
        );
    }
}

/// Mixing a byte into the register keeps registers apart and bytes apart.
proof fn lemma_crc32_mix(c: u32, d: u32, x: u8, y: u8)
    by (bit_vector)
    requires
        c == d && x != y || c != d && x == y,
    ensures
        c ^ (x as u32) != d ^ (y as u32),
{
}

proof fn lemma_crc32_differs(crc: u32, a: Seq<u8>, b: Seq<u8>, i: int)
    requires
        differ_only_at(a, b, i),
    ensures
        crc32_after(crc, a) != crc32_after(crc, b),
    decreases a.len(),
{
    let c = a.drop_last();
    let d = b.drop_last();
    if i == a.len() - 1 {
        assert(c =~= d);
    } else {
        lemma_crc32_differs(crc, c, d, i);
    }
    let p = crc32_after(crc, c);
    let q = crc32_after(crc, d);
    lemma_crc32_mix(p, q, a.last(), b.last());
    lemma_crc32_shifts_are_injective(p ^ (a.last() as u32), q ^ (b.last() as u32), 8);
}

/// Two messages of one length that differ in one byte have different CRC-32 values.
pub proof fn law_crc32_catches_a_changed_byte(a: Seq<u8>, b: Seq<u8>, i: int)
    requires
        differ_only_at(a, b, i),
    ensures
        crc32_of(a) != crc32_of(b),
{
    lemma_crc32_differs(0xFFFF_FFFF, a, b, i);
    let p = crc32_after(0xFFFF_FFFF, a);
    let q = crc32_after(0xFFFF_FFFF, b);
    assert(!p == !q ==> p == q) by (bit_vector);
}

/// Steps of the register are linear.
proof fn lemma_crc32_steps_are_linear(c: u32, d: u32, x: u8, y: u8)
    by (bit_vector)
    ensures
        crc32_shift(c ^ d) == crc32_shift(c) ^ crc32_shift(d),
        (c ^ d) ^ ((x ^ y) as u32) == (c ^ (x as u32)) ^ (d ^ (y as u32)),
        (c ^ c) ^ c == c,
{
}

proof fn lemma_crc32_shifts_are_linear(a: u32, b: u32, n: nat)
    ensures
        crc32_shifts(a ^ b, n) == crc32_shifts(a, n) ^ crc32_shifts(b, n),
    decreases n,
{
    if n > 0 {
        lemma_crc32_shifts_are_linear(a, b, (n - 1) as nat);
        lemma_crc32_steps_are_linear(
            crc32_shifts(a, (n - 1) as nat),
            crc32_shifts(b, (n - 1) as nat),
            0,
            0,
        );
    }
}

/// The register is linear: from the sum of two registers, the sum of two messages of one
/// length leads to the sum of the registers that each leads to. The sum is exclusive or.
pub proof fn law_crc32_register_is_linear(c: u32, d: u32, a: Seq<u8>, b: Seq<u8>)
    requires
        a.len() == b.len(),
    ensures
        crc32_after(c ^ d, xor_bytes(a, b)) == crc32_after(c, a) ^ crc32_after(d, b),
    decreases a.len(),
{
    if a.len() > 0 {
        let x = xor_bytes(a, b);
        assert(x.drop_last() =~= xor_bytes(a.drop_last(), b.drop_last()));
        law_crc32_register_is_linear(c, d, a.drop_last(), b.drop_last());
        let p = crc32_after(c, a.drop_last());
        let q = crc32_after(d, b.drop_last());
        lemma_crc32_steps_are_linear(p, q, a.last(), b.last());
        lemma_crc32_shifts_are_linear(p ^ (a.last() as u32), q ^ (b.last() as u32), 8);
    }
}

/// CRC-32 is linear up to a constant: the values of three messages of one length add up to
/// that of their sum.
pub proof fn law_crc32_is_linear(a: Seq<u8>, b: Seq<u8>, c: Seq<u8>)
    requires
        a.len() == b.len(),
        b.len() == c.len(),
    ensures
        crc32_of(xor_bytes(xor_bytes(a, b), c)) == crc32_of(a) ^ crc32_of(b) ^ crc32_of(c),
{
    let one: u32 = 0xFFFFFFFF;
    law_crc32_register_is_linear(one, one, a, b);
    law_crc32_register_is_linear(one ^ one, one, xor_bytes(a, b), c);
    lemma_crc32_steps_are_linear(one, one, 0, 0);
    let (p, q, r) = (crc32_after(one, a), crc32_after(one, b), crc32_after(one, c));
    assert(!(p ^ q ^ r) == !p ^ !q ^ !r) by (bit_vector);
}

/// While no bit leaves at the bottom, the register only moves.
proof fn lemma_crc32_moves(x: u32, n: nat)
    requires
        n <= 8,
        x & 0xFF == 0,
    ensures
        crc32_shifts(x, n) == x >> (n as u32),
    decreases n,
{
    if n == 0 {
        assert(x >> 0u32 == x) by (bit_vector);
    } else {
        lemma_crc32_moves(x, (n - 1) as nat);
        let k = (n - 1) as u32;
        assert(crc32_shift(x >> k) == x >> ((k + 1) as u32)) by (bit_vector)
            requires
                x & 0xFF == 0,
                k < 8,
        ;
    }
}

/// Eight steps from registers that come up while a checksum is read.
proof fn lemma_crc32_of_ones(
    x0: u32,
    x1: u32,
    x2: u32,
    x3: u32,
    x4: u32,
    x5: u32,
    x6: u32,
    x7: u32,
    x8: u32,
)
    by (bit_vector)
    requires
        x1 == crc32_shift(x0),
        x2 == crc32_shift(x1),
        x3 == crc32_shift(x2),
        x4 == crc32_shift(x3),
        x5 == crc32_shift(x4),
        x6 == crc32_shift(x5),
        x7 == crc32_shift(x6),
        x8 == crc32_shift(x7),
    ensures
        x0 == 0xFFFF_FFFF ==> x8 == 0x2DFD_1072,
        x0 == 0x2DFD_1072 ==> x8 == 0xBE26_ED00,
        x0 == 0xBE26_ED00 ==> x8 == 0x00BE_26ED,
        x0 == 0x00BE_26ED ==> x8 == 0xDEBB_20E3,
{
}

/// Reading a byte of a checksum: what was read is gone, the rest moves down.
proof fn lemma_crc32_reads_on(o: u32, v: u32, b: u8)
    requires
        (v ^ (b as u32)) & 0xFF == 0,
    ensures
        crc32_shifts((o ^ v) ^ (b as u32), 8) == crc32_shifts(o, 8) ^ ((v ^ (b as u32)) >> 8),
{
    let w = v ^ (b as u32);
    assert((o ^ v) ^ (b as u32) == o ^ w) by (bit_vector)
        requires
            w == v ^ (b as u32),
    ;
    lemma_crc32_shifts_are_linear(o, w, 8);
    lemma_crc32_moves(w, 8);
}

/// Eight steps from one register.
proof fn lemma_crc32_eight(x: u32)
    ensures
        x == 0xFFFF_FFFF ==> crc32_shifts(x, 8) == 0x2DFD_1072,
        x == 0x2DFD_1072 ==> crc32_shifts(x, 8) == 0xBE26_ED00,
        x == 0xBE26_ED00 ==> crc32_shifts(x, 8) == 0x00BE_26ED,
        x == 0x00BE_26ED ==> crc32_shifts(x, 8) == 0xDEBB_20E3,
{
    reveal_with_fuel(crc32_shifts, 9);
    lemma_crc32_of_ones(
        x,
        crc32_shifts(x, 1),
        crc32_shifts(x, 2),
        crc32_shifts(x, 3),
        crc32_shifts(x, 4),
        crc32_shifts(x, 5),
        crc32_shifts(x, 6),
        crc32_shifts(x, 7),
        crc32_shifts(x, 8),
    );
}

/// Bytes followed by their CRC-32, low byte first, have the same CRC-32 whatever they are.
pub proof fn law_crc32_leaves_a_fixed_remainder(data: Seq<u8>, crc: u32)
    requires
        crc == crc32_of(data),
    ensures
        crc32_of(
            data.push((crc & 0xFF) as u8).push(((crc >> 8) & 0xFF) as u8).push(
                ((crc >> 16) & 0xFF) as u8,
            ).push((crc >> 24) as u8),
        ) == 0x2144_DF1C,
{
    let one: u32 = 0xFFFF_FFFF;
    let r = crc32_after(one, data);
    let (b0, b1, b2, b3) = (
        (crc & 0xFF) as u8,
        ((crc >> 8) & 0xFF) as u8,
        ((crc >> 16) & 0xFF) as u8,
        (crc >> 24) as u8,
    );
    let (s1, s2, s3, s4) = (
        data.push(b0),
        data.push(b0).push(b1),
        data.push(b0).push(b1).push(b2),
        data.push(b0).push(b1).push(b2).push(b3),
    );
    assert(s1.drop_last() =~= data && s2.drop_last() =~= s1 && s3.drop_last() =~= s2
        && s4.drop_last() =~= s3);
    let (v1, v2, v3) = (crc >> 8, crc >> 16, crc >> 24);
    assert(r == one ^ crc && (crc ^ (b0 as u32)) & 0xFF == 0 && (crc ^ (b0 as u32)) >> 8 == v1
        && (v1 ^ (b1 as u32)) & 0xFF == 0 && (v1 ^ (b1 as u32)) >> 8 == v2 && (v2 ^ (b2 as u32))
        & 0xFF == 0 && (v2 ^ (b2 as u32)) >> 8 == v3 && v3 ^ (b3 as u32) == 0) by (bit_vector)
        requires
            crc == !r,
            one == 0xFFFF_FFFF,
            b0 == (crc & 0xFF) as u8,
            b1 == ((crc >> 8) & 0xFF) as u8,
            b2 == ((crc >> 16) & 0xFF) as u8,
            b3 == (crc >> 24) as u8,
            v1 == crc >> 8,
            v2 == crc >> 16,
            v3 == crc >> 24,
    ;
    let o1 = crc32_shifts(one, 8);
    let o2 = crc32_shifts(o1, 8);
    let o3 = crc32_shifts(o2, 8);
    lemma_crc32_eight(one);
    lemma_crc32_eight(o1);
    lemma_crc32_eight(o2);
    lemma_crc32_eight(o3);
    assert(0u32 & 0xFF == 0 && 0u32 >> 8 == 0 && 0xDEBB_20E3u32 ^ 0 == 0xDEBB_20E3
        && !0xDEBB_20E3u32 == 0x2144_DF1C) by (bit_vector);
    assert(s1.last() == b0 && s2.last() == b1 && s3.last() == b2 && s4.last() == b3);
    lemma_crc32_reads_on(one, crc, b0);
    assert(crc32_after(one, s1) == o1 ^ v1);
    lemma_crc32_reads_on(o1, v1, b1);
    assert(crc32_after(one, s2) == o2 ^ v2);
    lemma_crc32_reads_on(o2, v2, b2);
    assert(crc32_after(one, s3) == o3 ^ v3);
    lemma_crc32_reads_on(o3, v3, b3);
    assert(crc32_after(one, s4) == 0xDEBB_20E3u32 ^ 0);
}

} // verus!
