//! Sums over GF(2), computed on bytes by XOR.
//!
//! A byte stands for eight bits that never mix, so every fact here holds for
//! single bits as well.

use vstd::prelude::*;

verus! {

/// XOR is associative and commutative, 0 is neutral and each byte is its own inverse.
pub proof fn lemma_xor(a: u8, b: u8, c: u8)
    by (bit_vector)
    ensures
        a ^ b == b ^ a,
        (a ^ b) ^ c == a ^ (b ^ c),
        (a ^ b) ^ c == (a ^ c) ^ b,
        a ^ a == 0,
        a ^ 0 == a,
        0 ^ a == a,
        (a ^ b) ^ b == a,
{
}

/// Two sums of two terms each can be regrouped.
pub proof fn lemma_xor_regroup(a: u8, b: u8, c: u8, d: u8)
    by (bit_vector)
    ensures
        (a ^ b) ^ (c ^ d) == (a ^ c) ^ (b ^ d),
{
}

/// XOR of the bytes of `v` at the positions listed in `cols`.
pub open spec fn xor_at(v: Seq<u8>, cols: Seq<usize>) -> u8
    decreases cols.len(),
{
    if cols.len() == 0 {
        0
    } else {
        xor_at(v, cols.drop_last()) ^ v[cols.last() as int]
    }
}

/// XOR of `f(0)`, `f(1)`, up to `f(n - 1)`.
pub open spec fn xor_sum(f: spec_fn(int) -> u8, n: nat) -> u8
    decreases n,
{
    if n == 0 {
        0
    } else {
        xor_sum(f, (n - 1) as nat) ^ f(n - 1)
    }
}

/// The positions in `cols` rise strictly and all lie below `n`.
pub open spec fn rising(cols: Seq<usize>, n: nat) -> bool {
    &&& forall|i: int, j: int| 0 <= i < j < cols.len() ==> cols[i] < cols[j]
    &&& forall|i: int| 0 <= i < cols.len() ==> cols[i] < n
}

pub proof fn lemma_xor_sum_ext(f: spec_fn(int) -> u8, g: spec_fn(int) -> u8, n: nat)
    requires
        forall|i: int| 0 <= i < n ==> #[trigger] f(i) == g(i),
    ensures
        xor_sum(f, n) == xor_sum(g, n),
    decreases n,
{
    if n > 0 {
        lemma_xor_sum_ext(f, g, (n - 1) as nat);
    }
}

/// The XOR of two sums is the sum of the XORs.
pub proof fn lemma_xor_sum_add(
    f: spec_fn(int) -> u8,
    g: spec_fn(int) -> u8,
    h: spec_fn(int) -> u8,
    n: nat,
)
    requires
        forall|i: int| 0 <= i < n ==> #[trigger] h(i) == f(i) ^ g(i),
    ensures
        xor_sum(h, n) == xor_sum(f, n) ^ xor_sum(g, n),
    decreases n,
{
    if n == 0 {
        lemma_xor(0, 0, 0);
    } else {
        lemma_xor_sum_add(f, g, h, (n - 1) as nat);
        lemma_xor_regroup(
            xor_sum(f, (n - 1) as nat),
            xor_sum(g, (n - 1) as nat),
            f(n - 1),
            g(n - 1),
        );
    }
}

/// A sum of zeros is zero.
pub proof fn lemma_xor_sum_zero(f: spec_fn(int) -> u8, n: nat)
    requires
        forall|i: int| 0 <= i < n ==> #[trigger] f(i) == 0,
    ensures
        xor_sum(f, n) == 0,
    decreases n,
{
    if n > 0 {
        lemma_xor_sum_zero(f, (n - 1) as nat);
        lemma_xor(0, 0, 0);
    }
}

/// A sum with a single term that may differ from zero is that term.
pub proof fn lemma_xor_sum_single(f: spec_fn(int) -> u8, n: nat, at: int)
    requires
        0 <= at < n,
        forall|i: int| 0 <= i < n && i != at ==> #[trigger] f(i) == 0,
    ensures
        xor_sum(f, n) == f(at),
    decreases n,
{
    lemma_xor(f(at), 0, 0);
    if at == n - 1 {
        lemma_xor_sum_zero(f, (n - 1) as nat);
    } else {
        lemma_xor_sum_single(f, (n - 1) as nat, at);
    }
}

/// A sum over `a + b` terms is the sum of the first `a` and of the last `b`.
pub proof fn lemma_xor_sum_split(f: spec_fn(int) -> u8, a: nat, b: nat)
    ensures
        xor_sum(f, a + b) == xor_sum(f, a) ^ xor_sum(|i: int| f(a + i), b),
    decreases b,
{
    let g = |i: int| f(a + i);
    if b == 0 {
        lemma_xor(xor_sum(f, a), 0, 0);
    } else {
        lemma_xor_sum_split(f, a, (b - 1) as nat);
        lemma_xor(xor_sum(f, a), xor_sum(g, (b - 1) as nat), g(b - 1));
        assert((a + b - 1) as nat == a + (b - 1) as nat);
    }
}

/// The term that a listed position adds to a sum over all positions.
pub open spec fn listed_term(v: Seq<u8>, cols: Seq<usize>, c: int) -> u8 {
    if 0 <= c <= usize::MAX && cols.contains(c as usize) {
        v[c]
    } else {
        0
    }
}

/// The XOR over a rising list is the sum over all positions of the listed terms.
pub proof fn lemma_xor_at_is_sum(v: Seq<u8>, cols: Seq<usize>, n: nat)
    requires
        rising(cols, n),
    ensures
        xor_at(v, cols) == xor_sum(|c: int| listed_term(v, cols, c), n),
    decreases n,
{
    let f = |c: int| listed_term(v, cols, c);
    if n == 0 {
        if cols.len() > 0 {
            assert(cols[0] < n);
        }
    } else if cols.len() > 0 && cols.last() == n - 1 {
        let rest = cols.drop_last();
        let g = |c: int| listed_term(v, rest, c);
        assert(rising(rest, (n - 1) as nat)) by {
            assert forall|i: int| 0 <= i < rest.len() implies rest[i] < n - 1 by {
                assert(cols[i] < cols[cols.len() - 1]);
            }
        }
        lemma_xor_at_is_sum(v, rest, (n - 1) as nat);
        assert forall|c: int| 0 <= c < n - 1 implies #[trigger] f(c) == g(c) by {
            if cols.contains(c as usize) {
                let i = choose|i: int| 0 <= i < cols.len() && cols[i] == c as usize;
                assert(i < cols.len() - 1);
                assert(rest[i] == c as usize);
            }
            if rest.contains(c as usize) {
                let i = choose|i: int| 0 <= i < rest.len() && rest[i] == c as usize;
                assert(cols[i] == c as usize);
            }
        }
        lemma_xor_sum_ext(f, g, (n - 1) as nat);
        assert(cols[cols.len() - 1] == (n - 1) as usize);
        assert(f(n - 1) == v[n - 1]);
    } else {
        assert(rising(cols, (n - 1) as nat)) by {
            assert forall|i: int| 0 <= i < cols.len() implies cols[i] < n - 1 by {
                if i < cols.len() - 1 {
                    assert(cols[i] < cols[cols.len() - 1]);
                }
                assert(cols[cols.len() - 1] < n);
            }
        }
        lemma_xor_at_is_sum(v, cols, (n - 1) as nat);
        assert(f(n - 1) == 0);
        lemma_xor(xor_sum(f, (n - 1) as nat), 0, 0);
    }
}

} // verus!
