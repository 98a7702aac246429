//! The words of each code, and why the parity part of a word follows from
//! its information part.

use vstd::prelude::*;

use crate::ldpc::gf2;
use crate::ldpc::wimax;
use crate::ldpc::wimax::{BaseMatrix, SparseH};
use crate::profile::LdpcRate;

verus! {

/// Bit (`row`, `col`) of the parity-check matrix of a rate.
pub open spec fn check_bit(rate: LdpcRate, row: int, col: int) -> bool {
    let s = wimax::base_entry(rate, row / 96, col / 96);
    s >= 0 && col % 96 == (row % 96 + s) % 96
}

/// Number of parity checks at a rate.
pub open spec fn n_checks(rate: LdpcRate) -> int {
    wimax::check_blocks(rate) * 96
}

/// What position `col` of `word` adds to check `row`.
pub open spec fn check_term(rate: LdpcRate, word: Seq<u8>, row: int, col: int) -> u8 {
    if check_bit(rate, row, col) {
        word[col]
    } else {
        0
    }
}

/// The XOR of the positions of `word` that check `row` covers.
pub open spec fn syndrome_at(rate: LdpcRate, word: Seq<u8>, row: int) -> u8 {
    gf2::xor_sum(|c: int| check_term(rate, word, row, c), 2304)
}

/// Every parity check holds of `word`.
pub open spec fn is_codeword(rate: LdpcRate, word: Seq<u8>) -> bool {
    &&& word.len() == 2304
    &&& forall|row: int| 0 <= row < n_checks(rate) ==> #[trigger] syndrome_at(rate, word, row) == 0
}

/// `h` holds exactly the bits of the parity-check matrix of `rate`.
pub open spec fn matches_rate(h: &SparseH, rate: LdpcRate) -> bool {
    &&& h.n_rows == n_checks(rate)
    &&& h.n_cols == 2304
    &&& h.row_indices@.len() == n_checks(rate)
    &&& forall|r: int|
        0 <= r < n_checks(rate) ==> gf2::rising(#[trigger] h.row_indices@[r]@, 2304)
    &&& forall|r: int, c: usize|
        0 <= r < n_checks(rate) && c < 2304 ==> (#[trigger] h.row_indices@[r]@.contains(c)
            <==> check_bit(rate, r, c as int))
}

/// The expansion of the base matrix of a rate is the matrix of that rate.
pub proof fn lemma_expansion_matches_rate(rate: LdpcRate, bm: &BaseMatrix, h: &SparseH)
    requires
        wimax::is_base_matrix(bm, rate),
        h.expands(bm),
    ensures
        matches_rate(h, rate),
{
    assert forall|r: int| 0 <= r < n_checks(rate) implies gf2::rising(
        #[trigger] h.row_indices@[r]@,
        2304,
    ) by {
        assert(wimax::lists_row(bm, h.row_indices@[r]@, r, 2304));
    }
    assert forall|r: int, c: usize| 0 <= r < n_checks(rate) && c < 2304 implies (
    #[trigger] h.row_indices@[r]@.contains(c) <==> check_bit(rate, r, c as int)) by {
        assert(wimax::lists_row(bm, h.row_indices@[r]@, r, 2304));
        assert(bm.entry(r / 96, c as int / 96) == wimax::base_entry(rate, r / 96, c as int / 96));
    }
}

/// On the sparse matrix, a check is the XOR over one list of positions.
pub proof fn lemma_syndrome_is_xor_at(rate: LdpcRate, h: &SparseH, word: Seq<u8>, row: int)
    requires
        matches_rate(h, rate),
        0 <= row < n_checks(rate),
    ensures
        gf2::xor_at(word, h.row_indices@[row]@) == syndrome_at(rate, word, row),
{
    let cols = h.row_indices@[row]@;
    gf2::lemma_xor_at_is_sum(word, cols, 2304);
    let f = |c: int| gf2::listed_term(word, cols, c);
    let g = |c: int| check_term(rate, word, row, c);
    assert forall|c: int| 0 <= c < 2304 implies #[trigger] f(c) == g(c) by {
        assert(cols.contains(c as usize) <==> check_bit(rate, row, c));
    }
    gf2::lemma_xor_sum_ext(f, g, 2304);
}

/// The positions below `n` that check `row` covers, in rising order.
pub open spec fn check_list(rate: LdpcRate, row: int, n: nat) -> Seq<usize>
    decreases n,
{
    if n == 0 {
        Seq::empty()
    } else if check_bit(rate, row, n - 1) {
        check_list(rate, row, (n - 1) as nat).push((n - 1) as usize)
    } else {
        check_list(rate, row, (n - 1) as nat)
    }
}

/// A check list rises, and lists exactly the covered positions.
pub proof fn lemma_check_list_rising(rate: LdpcRate, row: int, n: nat)
    requires
        n <= usize::MAX,
    ensures
        gf2::rising(check_list(rate, row, n), n),
    decreases n,
{
    if n > 0 {
        lemma_check_list_rising(rate, row, (n - 1) as nat);
    }
}

/// The lists of the sparse matrix are the check lists of the rate.
pub proof fn lemma_row_is_check_list(rate: LdpcRate, cols: Seq<usize>, row: int, n: nat)
    requires
        gf2::rising(cols, n),
        n <= usize::MAX,
        forall|c: usize| c < n ==> (#[trigger] cols.contains(c) <==> check_bit(rate, row, c as int)),
    ensures
        cols == check_list(rate, row, n),
    decreases n,
{
    if n == 0 {
        if cols.len() > 0 {
            assert(cols[0] < n);
        }
        assert(cols =~= Seq::empty());
    } else {
        let last = (n - 1) as usize;
        let rest = if cols.len() > 0 && cols.last() == last {
            cols.drop_last()
        } else {
            cols
        };
        assert forall|i: int| 0 <= i < rest.len() implies rest[i] < n - 1 by {
            assert(cols[i] < n);
            if i < cols.len() - 1 {
                assert(cols[i] < cols[cols.len() - 1]);
            }
        }
        assert forall|c: usize| c < n - 1 implies (#[trigger] rest.contains(c) <==> check_bit(
            rate,
            row,
            c as int,
        )) by {
            assert(cols.contains(c) <==> check_bit(rate, row, c as int));
            if cols.contains(c) {
                let i = choose|i: int| 0 <= i < cols.len() && cols[i] == c;
                assert(rest[i] == c);
            }
            if rest.contains(c) {
                let i = choose|i: int| 0 <= i < rest.len() && rest[i] == c;
                assert(cols[i] == c);
            }
        }
        lemma_row_is_check_list(rate, rest, row, (n - 1) as nat);
        assert(cols.contains(last) <==> check_bit(rate, row, last as int));
        if cols.len() > 0 && cols.last() == last {
            assert(cols[cols.len() - 1] == last);
            assert(cols =~= rest.push(last));
        } else {
            if cols.contains(last) {
                let i = choose|i: int| 0 <= i < cols.len() && cols[i] == last;
                assert(rest[i] < n - 1);
            }
        }
    }
}

/// A check is the XOR over its check list.
pub proof fn lemma_syndrome_is_list_xor(rate: LdpcRate, word: Seq<u8>, row: int)
    ensures
        gf2::xor_at(word, check_list(rate, row, 2304)) == syndrome_at(rate, word, row),
{
    lemma_list_xor(rate, word, row, 2304);
}

proof fn lemma_list_xor(rate: LdpcRate, word: Seq<u8>, row: int, n: nat)
    requires
        n <= usize::MAX,
    ensures
        gf2::xor_at(word, check_list(rate, row, n)) == gf2::xor_sum(
            |c: int| check_term(rate, word, row, c),
            n,
        ),
    decreases n,
{
    if n > 0 {
        lemma_list_xor(rate, word, row, (n - 1) as nat);
        let before = check_list(rate, row, (n - 1) as nat);
        gf2::lemma_xor(gf2::xor_at(word, before), 0, 0);
        if check_bit(rate, row, n - 1) {
            assert(before.push((n - 1) as usize).drop_last() =~= before);
        }
    }
}

/// The sum of terms that vanish outside a rising list is the XOR over that list.
proof fn lemma_sum_by_support(f: spec_fn(int) -> u8, cols: Seq<usize>, n: nat)
    requires
        gf2::rising(cols, n),
        forall|c: int| 0 <= c < n && !cols.contains(c as usize) ==> #[trigger] f(c) == 0,
        n <= usize::MAX,
    ensures
        gf2::xor_sum(f, n) == gf2::xor_at(Seq::new(n, f), cols),
{
    let v = Seq::new(n, f);
    gf2::lemma_xor_at_is_sum(v, cols, n);
    let g = |c: int| gf2::listed_term(v, cols, c);
    assert forall|c: int| 0 <= c < n implies #[trigger] f(c) == g(c) by {}
    gf2::lemma_xor_sum_ext(f, g, n);
}

/// Bit `i` of parity block `j` of a word.
pub open spec fn parity_block(rate: LdpcRate, word: Seq<u8>, j: int, i: int) -> u8 {
    word[(24 - wimax::check_blocks(rate) + j) * 96 + i]
}

/// The first `k` positions of `word` are zero.
pub open spec fn no_info(rate: LdpcRate, word: Seq<u8>) -> bool {
    &&& word.len() == 2304
    &&& forall|c: int| 0 <= c < rate.spec_k() ==> #[trigger] word[c] == 0
}

/// The parity equation of row `i` of block row `r`, for a word without information.
#[verifier::rlimit(40)]
proof fn lemma_row_equation(rate: LdpcRate, word: Seq<u8>, r: int, i: int)
    requires
        no_info(rate, word),
        0 <= r < wimax::check_blocks(rate),
        0 <= i < 96,
    ensures
        ({
            let mb = wimax::check_blocks(rate);
            let outer = parity_block(rate, word, 0, (i + wimax::outer_shift(rate)) % 96);
            let here = parity_block(rate, word, r, i);
            let next = parity_block(rate, word, r + 1, i);
            syndrome_at(rate, word, r * 96 + i) == if r == 0 {
                outer ^ next
            } else if r == mb - 1 {
                outer ^ here
            } else if r == wimax::middle_row(rate) {
                (parity_block(rate, word, 0, i) ^ here) ^ next
            } else {
                here ^ next
            }
        }),
{
    let mb = wimax::check_blocks(rate);
    let kb = 24 - mb;
    let row = r * 96 + i;
    let f = |c: int| check_term(rate, word, row, c);
    let v = Seq::new(2304, f);
    assert(row / 96 == r && row % 96 == i);
    let o = (i + wimax::outer_shift(rate)) % 96;
    let c_outer = kb * 96 + o;
    let c_first = kb * 96 + i;
    let c_here = (kb + r) * 96 + i;
    let c_next = (kb + r + 1) * 96 + i;
    let cols: Seq<usize> = if r == 0 {
        seq![c_outer as usize, c_next as usize]
    } else if r == mb - 1 {
        seq![c_outer as usize, c_here as usize]
    } else if r == wimax::middle_row(rate) {
        seq![c_first as usize, c_here as usize, c_next as usize]
    } else {
        seq![c_here as usize, c_next as usize]
    };
    assert forall|c: int| 0 <= c < 2304 && !cols.contains(c as usize) implies #[trigger] f(c)
        == 0 by {
        if c >= rate.spec_k() {
            let p = c / 96 - kb;
            assert(0 <= p < mb);
            if cols.len() == 3 {
                assert(cols[0] != c as usize && cols[1] != c as usize && cols[2] != c as usize);
            } else {
                assert(cols[0] != c as usize && cols[1] != c as usize);
            }
            if check_bit(rate, row, c) {
                if p == 0 {
                    assert(r == 0 || r == mb - 1 || r == wimax::middle_row(rate));
                } else {
                    assert(r == p - 1 || r == p);
                    assert(c % 96 == i);
                }
                assert(false);
            }
        }
    }
    assert(gf2::rising(cols, 2304));
    lemma_sum_by_support(f, cols, 2304);
    reveal_with_fuel(gf2::xor_at, 4);
    assert(c_outer / 96 == kb && c_outer % 96 == o);
    assert(c_first / 96 == kb && c_first % 96 == i);
    assert(c_here / 96 == kb + r && c_here % 96 == i);
    assert(c_next / 96 == kb + r + 1 && c_next % 96 == i);
    if cols.len() == 3 {
        assert(cols.drop_last() =~= seq![cols[0], cols[1]]);
        assert(cols.drop_last().drop_last() =~= seq![cols[0]]);
        assert(cols.drop_last().drop_last().drop_last() =~= Seq::<usize>::empty());
    } else {
        assert(cols.drop_last() =~= seq![cols[0]]);
        assert(cols.drop_last().drop_last() =~= Seq::<usize>::empty());
    }
    gf2::lemma_xor(v[cols[0] as int], 0, 0);
}

/// Up to the middle row, every parity block repeats the outer bit; beyond it,
/// every block holds the XOR of the outer and the first bit.
proof fn lemma_blocks_follow_first(rate: LdpcRate, word: Seq<u8>, j: int, i: int)
    requires
        is_codeword(rate, word),
        no_info(rate, word),
        1 <= j < wimax::check_blocks(rate),
        0 <= i < 96,
    ensures
        ({
            let outer = parity_block(rate, word, 0, (i + wimax::outer_shift(rate)) % 96);
            parity_block(rate, word, j, i) == if j <= wimax::middle_row(rate) {
                outer
            } else {
                outer ^ parity_block(rate, word, 0, i)
            }
        }),
    decreases j,
{
    let outer = parity_block(rate, word, 0, (i + wimax::outer_shift(rate)) % 96);
    let first = parity_block(rate, word, 0, i);
    let r = j - 1;
    lemma_row_equation(rate, word, r, i);
    assert(0 <= r * 96 + i < n_checks(rate));
    assert(syndrome_at(rate, word, r * 96 + i) == 0);
    let here = parity_block(rate, word, r, i);
    let next = parity_block(rate, word, j, i);
    if r == 0 {
        gf2::lemma_xor(outer, next, next);
        gf2::lemma_xor(next, 0, 0);
    } else {
        lemma_blocks_follow_first(rate, word, r, i);
        if r == wimax::middle_row(rate) {
            gf2::lemma_xor(first ^ here, next, next);
            gf2::lemma_xor(next, first, here);
            gf2::lemma_xor(first, here, 0);
        } else {
            gf2::lemma_xor(here, next, next);
        }
        gf2::lemma_xor(next, 0, 0);
    }
}

/// The only codeword without information is the zero word.
pub proof fn lemma_trivial_kernel(rate: LdpcRate, word: Seq<u8>)
    requires
        is_codeword(rate, word),
        no_info(rate, word),
    ensures
        forall|c: int| 0 <= c < 2304 ==> #[trigger] word[c] == 0,
{
    let mb = wimax::check_blocks(rate);
    assert forall|i: int| 0 <= i < 96 implies #[trigger] parity_block(rate, word, 0, i) == 0 by {
        let outer = parity_block(rate, word, 0, (i + wimax::outer_shift(rate)) % 96);
        let first = parity_block(rate, word, 0, i);
        lemma_row_equation(rate, word, mb - 1, i);
        assert(0 <= (mb - 1) * 96 + i < n_checks(rate));
        assert(syndrome_at(rate, word, (mb - 1) * 96 + i) == 0);
        lemma_blocks_follow_first(rate, word, mb - 1, i);
        gf2::lemma_xor(first, outer, outer);
        gf2::lemma_xor(outer, first, outer);
        gf2::lemma_xor(first, outer, 0);
        gf2::lemma_xor(outer, outer, first);
    }
    assert forall|c: int| 0 <= c < 2304 implies #[trigger] word[c] == 0 by {
        if c >= rate.spec_k() {
            let j = c / 96 - (24 - mb);
            let i = c % 96;
            assert(c == (24 - mb + j) * 96 + i);
            if j == 0 {
                assert(parity_block(rate, word, 0, i) == 0);
            } else {
                lemma_blocks_follow_first(rate, word, j, i);
                assert(parity_block(rate, word, 0, i) == 0);
                assert(parity_block(rate, word, 0, (i + wimax::outer_shift(rate)) % 96) == 0);
                gf2::lemma_xor(0, 0, 0);
            }
        }
    }
}

/// The XOR of two words, position by position.
pub open spec fn xor_words(a: Seq<u8>, b: Seq<u8>) -> Seq<u8> {
    Seq::new(a.len(), |i: int| a[i] ^ b[i])
}

/// The XOR of two codewords is a codeword.
pub proof fn law_code_is_linear(rate: LdpcRate, a: Seq<u8>, b: Seq<u8>)
    requires
        is_codeword(rate, a),
        is_codeword(rate, b),
    ensures
        is_codeword(rate, xor_words(a, b)),
{
    let d = xor_words(a, b);
    assert forall|row: int| 0 <= row < n_checks(rate) implies #[trigger] syndrome_at(rate, d, row)
        == 0 by {
        let f = |c: int| check_term(rate, a, row, c);
        let g = |c: int| check_term(rate, b, row, c);
        let h = |c: int| check_term(rate, d, row, c);
        assert forall|c: int| 0 <= c < 2304 implies #[trigger] h(c) == f(c) ^ g(c) by {
            gf2::lemma_xor(0, 0, 0);
        }
        gf2::lemma_xor_sum_add(f, g, h, 2304);
        assert(syndrome_at(rate, a, row) == 0);
        assert(syndrome_at(rate, b, row) == 0);
        gf2::lemma_xor(0, 0, 0);
    }
}

/// Two codewords that agree on the information part are equal.
pub proof fn law_codeword_is_determined_by_info(rate: LdpcRate, a: Seq<u8>, b: Seq<u8>)
    requires
        is_codeword(rate, a),
        is_codeword(rate, b),
        a.take(rate.spec_k() as int) == b.take(rate.spec_k() as int),
    ensures
        a == b,
{
    let d = xor_words(a, b);
    law_code_is_linear(rate, a, b);
    assert forall|c: int| 0 <= c < rate.spec_k() implies #[trigger] d[c] == 0 by {
        assert(a[c] == a.take(rate.spec_k() as int)[c]);
        assert(b[c] == b.take(rate.spec_k() as int)[c]);
        gf2::lemma_xor(a[c], 0, 0);
    }
    lemma_trivial_kernel(rate, d);
    assert forall|c: int| 0 <= c < 2304 implies a[c] == b[c] by {
        assert(d[c] == 0);
        gf2::lemma_xor(a[c], b[c], 0);
        gf2::lemma_xor(b[c], 0, 0);
    }
    assert(a =~= b);
}

/// Each block of a parity check is a shifted identity: of the block at (`br`, `bc`) with
/// shift `s`, check `i` covers the position that lies `s` behind `i`, round the block. A
/// negative entry stands for a block without any.
pub proof fn law_blocks_are_shifted_identities(rate: LdpcRate, br: int, bc: int, i: int, j: int)
    requires
        0 <= br,
        0 <= bc,
        0 <= i < 96,
        0 <= j < 96,
        wimax::base_entry(rate, br, bc) < 96,
    ensures
        ({
            let s = wimax::base_entry(rate, br, bc) as int;
            check_bit(rate, 96 * br + i, 96 * bc + j) <==> s >= 0 && (j == i + s || j == i + s - 96)
        }),
{
    assert((96 * br + i) / 96 == br && (96 * br + i) % 96 == i);
    assert((96 * bc + j) / 96 == bc && (96 * bc + j) % 96 == j);
}

/// A code has as many checks as parity bits.
pub proof fn law_checks_match_the_parity_bits(rate: LdpcRate)
    ensures
        n_checks(rate) + rate.spec_k() == 2304,
{
}

} // verus!
