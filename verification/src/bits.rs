//! Bytes as bits, most significant bit first.

use vstd::prelude::*;

verus! {

/// Bit `i` of a byte, counted from the most significant one.
pub open spec fn bit_of(byte: u8, i: int) -> u8 {
    (byte >> ((7 - i) as u8)) & 1
}

/// The bits of a byte sequence.
pub open spec fn unpack(bytes: Seq<u8>) -> Seq<u8> {
    Seq::new(8 * bytes.len(), |p: int| bit_of(bytes[p / 8], p % 8))
}

/// The low bits of `bits`, filled up with zeros to whole bytes.
pub open spec fn fill_up(bits: Seq<u8>) -> Seq<u8> {
    Seq::new(
        ((bits.len() + 7) / 8 * 8) as nat,
        |p: int|
            if p < bits.len() {
                bits[p] & 1
            } else {
                0u8
            },
    )
}

/// The bytes that some bits write, filled up with zeros to whole bytes.
pub open spec fn pack(bits: Seq<u8>) -> Seq<u8> {
    choose|bytes: Seq<u8>| unpack(bytes) == fill_up(bits)
}

/// Setting the bit at shift `s` leaves the other bits alone.
proof fn lemma_bit_or(byte: u8, b: u8, s: u8, t: u8)
    by (bit_vector)
    requires
        s < 8,
        t < 8,
    ensures
        ((byte | ((b & 1) << s)) >> t) & 1 == (if s == t {
            ((byte >> t) & 1) | (b & 1)
        } else {
            (byte >> t) & 1
        }),
        0u8 | (b & 1) == b & 1,
        (0u8 >> t) & 1 == 0,
{
}

/// The eight bits of a byte determine it.
proof fn lemma_bits_determine_byte(a: u8, b: u8)
    by (bit_vector)
    requires
        (a >> 7u8) & 1 == (b >> 7u8) & 1,
        (a >> 6u8) & 1 == (b >> 6u8) & 1,
        (a >> 5u8) & 1 == (b >> 5u8) & 1,
        (a >> 4u8) & 1 == (b >> 4u8) & 1,
        (a >> 3u8) & 1 == (b >> 3u8) & 1,
        (a >> 2u8) & 1 == (b >> 2u8) & 1,
        (a >> 1u8) & 1 == (b >> 1u8) & 1,
        (a >> 0u8) & 1 == (b >> 0u8) & 1,
    ensures
        a == b,
{
}

/// A bit is 0 or 1, and its low bit is itself.
pub proof fn lemma_bit_is_binary(byte: u8, i: int)
    requires
        0 <= i < 8,
    ensures
        bit_of(byte, i) == 0 || bit_of(byte, i) == 1,
        bit_of(byte, i) & 1 == bit_of(byte, i),
{
    let s = (7 - i) as u8;
    assert((byte >> s) & 1 == 0 || (byte >> s) & 1 == 1) by (bit_vector);
    assert(((byte >> s) & 1) & 1 == (byte >> s) & 1) by (bit_vector);
}

/// Byte sequences with the same bits are equal.
pub proof fn law_unpack_is_injective(a: Seq<u8>, b: Seq<u8>)
    requires
        unpack(a) == unpack(b),
    ensures
        a == b,
{
    assert(unpack(a).len() == 8 * a.len() && unpack(b).len() == 8 * b.len());
    assert forall|i: int| 0 <= i < a.len() implies a[i] == b[i] by {
        assert forall|j: int| 0 <= j < 8 implies #[trigger] bit_of(a[i], j) == bit_of(b[i], j) by {
            let p = 8 * i + j;
            assert(p / 8 == i && p % 8 == j);
            assert(unpack(a)[p] == bit_of(a[i], j) && unpack(b)[p] == bit_of(b[i], j));
        }
        assert(bit_of(a[i], 0) == bit_of(b[i], 0));
        assert(bit_of(a[i], 1) == bit_of(b[i], 1));
        assert(bit_of(a[i], 2) == bit_of(b[i], 2));
        assert(bit_of(a[i], 3) == bit_of(b[i], 3));
        assert(bit_of(a[i], 4) == bit_of(b[i], 4));
        assert(bit_of(a[i], 5) == bit_of(b[i], 5));
        assert(bit_of(a[i], 6) == bit_of(b[i], 6));
        assert(bit_of(a[i], 7) == bit_of(b[i], 7));
        lemma_bits_determine_byte(a[i], b[i]);
    }
    assert(a =~= b);
}

/// Packing the bits of a byte sequence gives the sequence back.
pub proof fn law_pack_undoes_unpack(bytes: Seq<u8>, packed: Seq<u8>)
    requires
        unpack(packed) == fill_up(unpack(bytes)),
    ensures
        packed == bytes,
{
    assert(fill_up(unpack(bytes)) =~= unpack(bytes)) by {
        assert forall|p: int| 0 <= p < unpack(bytes).len() implies #[trigger] unpack(bytes)[p] & 1
            == unpack(bytes)[p] by {
            lemma_bit_is_binary(bytes[p / 8], p % 8);
        }
    }
    law_unpack_is_injective(packed, bytes);
}

/// A zero byte has zero bits.
pub proof fn lemma_zero_bits(i: int)
    requires
        0 <= i < 8,
    ensures
        bit_of(0, i) == 0,
{
    lemma_bit_or(0, 0, 0, (7 - i) as u8);
}

/// Packing the bits of some bytes gives the bytes back.
pub proof fn lemma_pack_of_unpack(bytes: Seq<u8>)
    ensures
        pack(unpack(bytes)) == bytes,
{
    assert(fill_up(unpack(bytes)) =~= unpack(bytes)) by {
        assert forall|p: int| 0 <= p < unpack(bytes).len() implies #[trigger] unpack(bytes)[p] & 1
            == unpack(bytes)[p] by {
            lemma_bit_is_binary(bytes[p / 8], p % 8);
        }
    }
    law_unpack_is_injective(bytes, pack(unpack(bytes)));
}

/// One bit of a byte.
pub fn bit_at(byte: u8, i: usize) -> (bit: u8)
    requires
        i < 8,
    ensures
        bit == bit_of(byte, i as int),
{
    let s: u8 = 7 - i as u8;
    (byte >> s) & 1
}

/// The bits of `bytes`.
pub fn bytes_to_bits(bytes: &[u8]) -> (bits: Vec<u8>)
    requires
        8 * bytes@.len() <= usize::MAX,
    ensures
        bits@ == unpack(bytes@),
{
    let mut bits: Vec<u8> = Vec::new();
    for p in 0..8 * bytes.len()
        invariant
            8 * bytes@.len() <= usize::MAX,
            bits@ == unpack(bytes@).take(p as int),
    {
        let bit: u8 = bit_at(bytes[p / 8], p % 8);
        bits.push(bit);
        assert(unpack(bytes@).take(p + 1) =~= unpack(bytes@).take(p as int).push(bit));
    }
    assert(unpack(bytes@).take(8 * bytes@.len() as int) =~= unpack(bytes@));
    bits
}

/// Pack the low bits of `bits` into bytes; a last partial byte is filled with zeros.
pub fn bits_to_bytes(bits: &[u8]) -> (bytes: Vec<u8>)
    ensures
        bytes@ == pack(bits@),
        unpack(bytes@) == fill_up(bits@),
{
    let n: usize = bits.len() / 8 + (if bits.len() % 8 == 0 { 0 } else { 1 });
    let mut bytes: Vec<u8> = Vec::new();
    for i in 0..n
        invariant
            n == (bits@.len() + 7) / 8,
            bits@.len() <= usize::MAX,
            bytes@.len() == i,
            forall|p: int|
                0 <= p < 8 * i ==> #[trigger] unpack(bytes@)[p] == fill_up(bits@)[p],
    {
        let mut byte: u8 = 0;
        proof {
            assert forall|j: int| 0 <= j < 8 implies #[trigger] bit_of(0u8, j) == 0 by {
                lemma_bit_or(0, 0, 0, (7 - j) as u8);
            }
        }
        for t in 0..8usize
            invariant
                i < n,
                n == (bits@.len() + 7) / 8,
                bits@.len() <= usize::MAX,
                forall|j: int|
                    0 <= j < 8 ==> #[trigger] bit_of(byte, j) == if j < t && 8 * i + j < bits@.len() {
                        bits@[8 * i + j] & 1
                    } else {
                        0u8
                    },
        {
            if t < bits.len() - 8 * i {
                let b: u8 = bits[8 * i + t];
                let ghost before = byte;
                let s: u8 = 7 - t as u8;
                byte = byte | ((b & 1) << s);
                assert forall|j: int| 0 <= j < 8 implies #[trigger] bit_of(byte, j) == if j < t + 1
                    && 8 * i + j < bits@.len() {
                    bits@[8 * i + j] & 1
                } else {
                    0u8
                } by {
                    lemma_bit_or(before, b, s, (7 - j) as u8);
                    assert(bit_of(before, j) == if j < t && 8 * i + j < bits@.len() {
                        bits@[8 * i + j] & 1
                    } else {
                        0u8
                    });
                }
            }
        }
        let ghost old_bytes = bytes@;
        bytes.push(byte);
        assert forall|p: int| 0 <= p < 8 * (i + 1) implies #[trigger] unpack(bytes@)[p] == fill_up(
            bits@,
        )[p] by {
            if p < 8 * i {
                assert(unpack(old_bytes)[p] == fill_up(bits@)[p]);
                assert(bytes@[p / 8] == old_bytes[p / 8]);
            } else {
                assert(p / 8 == i);
                assert(bit_of(byte, p % 8) == fill_up(bits@)[p]);
            }
        }
    }
    assert(unpack(bytes@) =~= fill_up(bits@));
    proof {
        law_unpack_is_injective(bytes@, pack(bits@));
    }
    bytes
}

/// The bits of bytes are their binary digits, the highest of each byte first.
pub proof fn law_bits_are_binary_digits(bytes: Seq<u8>, i: int)
    requires
        0 <= i < bytes.len(),
    ensures
        ({
            let b = unpack(bytes).subrange(8 * i, 8 * i + 8);
            bytes[i] == 128 * b[0] + 64 * b[1] + 32 * b[2] + 16 * b[3] + 8 * b[4] + 4 * b[5] + 2
                * b[6] + b[7]
        }),
{
    let x = bytes[i];
    let b = unpack(bytes).subrange(8 * i, 8 * i + 8);
    assert(b[0] == bit_of(x, 0) && b[1] == bit_of(x, 1) && b[2] == bit_of(x, 2) && b[3] == bit_of(
        x,
        3,
    ) && b[4] == bit_of(x, 4) && b[5] == bit_of(x, 5) && b[6] == bit_of(x, 6) && b[7] == bit_of(
        x,
        7,
    ));
    assert(x == 128 * ((x >> 7u8) & 1) + 64 * ((x >> 6u8) & 1) + 32 * ((x >> 5u8) & 1) + 16 * ((x
        >> 4u8) & 1) + 8 * ((x >> 3u8) & 1) + 4 * ((x >> 2u8) & 1) + 2 * ((x >> 1u8) & 1) + ((x
        >> 0u8) & 1)) by (bit_vector);
}

/// Bits are filled up with zeros to the next whole byte, and no further.
pub proof fn law_filling_stops_at_a_whole_byte(bits: Seq<u8>, p: int)
    ensures
        fill_up(bits).len() % 8 == 0,
        bits.len() <= fill_up(bits).len() < bits.len() + 8,
        0 <= p < bits.len() && (bits[p] == 0 || bits[p] == 1) ==> fill_up(bits)[p] == bits[p],
        bits.len() <= p < fill_up(bits).len() ==> fill_up(bits)[p] == 0,
{
    if 0 <= p < bits.len() {
        let x = bits[p];
        vstd::bits::lemma_u8_low_bits_mask_is_mod(x, 1);
        vstd::bits::lemma_low_bits_mask_values();
        vstd::arithmetic::power2::lemma2_to64();
        assert(vstd::bits::low_bits_mask(1) as u8 == 1u8);
        assert(vstd::arithmetic::power2::pow2(1) as u8 == 2u8);
        assert(x & 1u8 == x % 2u8);
    }
}

} // verus!
