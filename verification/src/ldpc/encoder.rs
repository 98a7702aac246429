//! Systematic LDPC encoder.
//!
//! Gaussian elimination over GF(2) on the parity part of the matrix gives, for
//! each parity bit, the checks whose information sums are XORed to get it. At
//! encode time the parity bits are then plain XORs.

use vstd::prelude::*;

use crate::bits;
use crate::ldpc::code;
use crate::ldpc::gf2;
use crate::ldpc::wimax;
use crate::ldpc::wimax::SparseH;
use crate::profile::LdpcRate;

verus! {

/// What position `c` adds to the product of a binary row and a vector.
pub open spec fn row_term(row: Seq<u8>, v: Seq<u8>, c: int) -> u8 {
    if row[c] == 1 {
        v[c]
    } else {
        0
    }
}

/// Product of a binary row and a vector.
pub open spec fn dot(row: Seq<u8>, v: Seq<u8>) -> u8 {
    gf2::xor_sum(|c: int| row_term(row, v, c), row.len())
}

/// All entries are 0 or 1.
pub open spec fn binary(row: Seq<u8>) -> bool {
    forall|c: int| 0 <= c < row.len() ==> #[trigger] row[c] == 0 || row[c] == 1
}

/// Every row of the matrix has product zero with `v`.
pub open spec fn solves(matrix: Seq<Seq<u8>>, v: Seq<u8>) -> bool {
    forall|r: int| 0 <= r < matrix.len() ==> #[trigger] dot(matrix[r], v) == 0
}

/// The rows of a matrix as sequences.
pub open spec fn rows_of(matrix: Seq<Vec<u8>>) -> Seq<Seq<u8>> {
    Seq::new(matrix.len(), |r: int| matrix[r]@)
}

/// `m` binary rows of `2 * m` entries each.
pub open spec fn shaped(matrix: Seq<Vec<u8>>, m: nat) -> bool {
    &&& matrix.len() == m
    &&& forall|r: int| 0 <= r < m ==> #[trigger] matrix[r]@.len() == 2 * m
    &&& forall|r: int| 0 <= r < m ==> binary(#[trigger] matrix[r]@)
}

/// Row `i` of the parity part of the matrix next to the identity.
pub open spec fn augmented_row(cols: Seq<usize>, k: int, m: int, i: int) -> Seq<u8> {
    Seq::new(
        (2 * m) as nat,
        |c: int|
            if c < m {
                if cols.contains((k + c) as usize) {
                    1u8
                } else {
                    0u8
                }
            } else if c == m + i {
                1u8
            } else {
                0u8
            },
    )
}

/// The parity part of the matrix next to the identity.
pub open spec fn augmented(h: &SparseH, k: int, m: int) -> Seq<Seq<u8>> {
    Seq::new(m as nat, |i: int| augmented_row(h.row_indices@[i]@, k, m, i))
}

/// A word of `m` zeros.
pub open spec fn zeros(m: int) -> Seq<u8> {
    Seq::new(m as nat, |i: int| 0u8)
}

/// The parity word that the lists in `lists` give for a syndrome.
pub open spec fn parity_word(lists: Seq<Vec<usize>>, syndrome: Seq<u8>) -> Seq<u8> {
    Seq::new(lists.len(), |i: int| gf2::xor_at(syndrome, lists[i]@))
}

/// For every syndrome the parity word of `lists` cancels it.
pub open spec fn inverts(h: &SparseH, k: int, m: int, lists: Seq<Vec<usize>>) -> bool {
    forall|s: Seq<u8>|
        s.len() == m ==> #[trigger] solves(augmented(h, k, m), parity_word(lists, s) + s)
}

/// No word but zero is cancelled by the parity part of the matrix.
pub open spec fn independent(h: &SparseH, k: int, m: int) -> bool {
    forall|x: Seq<u8>|
        x.len() == m && #[trigger] solves(augmented(h, k, m), x + zeros(m)) ==> (forall|c: int|
            0 <= c < m ==> #[trigger] x[c] == 0)
}

/// The sparse matrix has `m` rows over `k + m` columns.
pub open spec fn sized(h: &SparseH, k: int, m: int) -> bool {
    &&& h.row_indices@.len() == m
    &&& forall|r: int|
        0 <= r < m ==> gf2::rising(#[trigger] h.row_indices@[r]@, (k + m) as nat)
}

/// Row by row sums of two binary rows.
pub open spec fn xor_rows(a: Seq<u8>, b: Seq<u8>) -> Seq<u8> {
    Seq::new(a.len(), |c: int| a[c] ^ b[c])
}

proof fn lemma_dot_xor(a: Seq<u8>, b: Seq<u8>, v: Seq<u8>)
    requires
        binary(a),
        binary(b),
        a.len() == b.len(),
    ensures
        dot(xor_rows(a, b), v) == dot(a, v) ^ dot(b, v),
        binary(xor_rows(a, b)),
{
    let x = xor_rows(a, b);
    let f = |c: int| row_term(a, v, c);
    let g = |c: int| row_term(b, v, c);
    let h = |c: int| row_term(x, v, c);
    gf2::lemma_xor(0, 1, 0);
    gf2::lemma_xor(1, 0, 0);
    assert forall|c: int| 0 <= c < a.len() implies #[trigger] h(c) == f(c) ^ g(c) by {
        gf2::lemma_xor(v[c], 0, 0);
        gf2::lemma_xor(0, 0, 0);
        assert(a[c] == 0 || a[c] == 1);
        assert(b[c] == 0 || b[c] == 1);
    }
    gf2::lemma_xor_sum_add(f, g, h, a.len());
    assert forall|c: int| 0 <= c < x.len() implies #[trigger] x[c] == 0 || x[c] == 1 by {
        assert(a[c] == 0 || a[c] == 1);
        assert(b[c] == 0 || b[c] == 1);
    }
}

/// What one elimination step makes of the rows.
pub open spec fn eliminated(
    before: Seq<Vec<u8>>,
    after: Seq<Vec<u8>>,
    pivot: int,
    col: int,
    upto: int,
) -> bool {
    &&& after.len() == before.len()
    &&& forall|r: int|
        0 <= r < before.len() ==> (#[trigger] after[r])@ == if r < upto && r != pivot
            && before[r]@[col] == 1 {
            xor_rows(before[r]@, before[pivot]@)
        } else {
            before[r]@
        }
}

proof fn lemma_elimination_keeps_solutions(
    before: Seq<Vec<u8>>,
    after: Seq<Vec<u8>>,
    pivot: int,
    col: int,
    m: nat,
)
    requires
        shaped(before, m),
        0 <= pivot < m,
        0 <= col < m,
        eliminated(before, after, pivot, col, m as int),
    ensures
        shaped(after, m),
        forall|v: Seq<u8>| #[trigger]
            solves(rows_of(after), v) ==> solves(rows_of(before), v),
{
    assert forall|r: int| 0 <= r < m implies #[trigger] after[r]@.len() == 2 * m && binary(
        after[r]@,
    ) by {
        assert(binary(before[r]@) && binary(before[pivot]@));
        assert(before[r]@.len() == 2 * m && before[pivot]@.len() == 2 * m);
        lemma_dot_xor(before[r]@, before[pivot]@, Seq::empty());
    }
    assert forall|v: Seq<u8>| #[trigger] solves(rows_of(after), v) implies solves(
        rows_of(before),
        v,
    ) by {
        assert(rows_of(after)[pivot] == before[pivot]@);
        assert(dot(rows_of(after)[pivot], v) == 0);
        assert forall|r: int| 0 <= r < m implies #[trigger] dot(rows_of(before)[r], v) == 0 by {
            assert(dot(rows_of(after)[r], v) == 0);
            assert(rows_of(after)[r] == after[r]@);
            assert(binary(before[r]@) && binary(before[pivot]@));
            assert(before[r]@.len() == 2 * m && before[pivot]@.len() == 2 * m);
            lemma_dot_xor(before[r]@, before[pivot]@, v);
            gf2::lemma_xor(dot(before[r]@, v), 0, 0);
        }
    }
}

/// Build row `i` of the augmented matrix.
fn build_row(cols: &Vec<usize>, k: usize, m: usize, i: usize) -> (row: Vec<u8>)
    requires
        gf2::rising(cols@, (k + m) as nat),
        i < m,
        k + m <= usize::MAX,
        2 * m <= usize::MAX,
    ensures
        row@ == augmented_row(cols@, k as int, m as int, i as int),
{
    let mut row: Vec<u8> = vec![0u8; 2 * m];
    for t in 0..cols.len()
        invariant
            gf2::rising(cols@, (k + m) as nat),
            i < m,
            k + m <= usize::MAX,
            2 * m <= usize::MAX,
            row@.len() == 2 * m,
            forall|c: int|
                0 <= c < 2 * m ==> #[trigger] row@[c] == if c < m && cols@.take(t as int).contains(
                    (k + c) as usize,
                ) {
                    1u8
                } else {
                    0u8
                },
    {
        let j: usize = cols[t];
        let ghost before = row@;
        assert(cols@.take(t + 1) =~= cols@.take(t as int).push(j));
        assert(cols@[t as int] < k + m);
        if j >= k {
            row[j - k] = 1;
        }
        assert forall|c: int| 0 <= c < 2 * m implies #[trigger] row@[c] == if c < m && cols@.take(
            t + 1,
        ).contains((k + c) as usize) {
            1u8
        } else {
            0u8
        } by {
            let old_list = cols@.take(t as int);
            let new_list = cols@.take(t + 1);
            let x = (k + c) as usize;
            assert(before[c] == if c < m && old_list.contains(x) { 1u8 } else { 0u8 });
            if c < m {
                if old_list.contains(x) {
                    let a = choose|a: int| 0 <= a < old_list.len() && old_list[a] == x;
                    assert(new_list[a] == x);
                }
                if x == j {
                    assert(new_list[t as int] == x);
                }
                if new_list.contains(x) && x != j {
                    let a = choose|a: int| 0 <= a < new_list.len() && new_list[a] == x;
                    assert(old_list[a] == x);
                }
            }
        }
    }
    assert(cols@.take(cols@.len() as int) =~= cols@);
    row[m + i] = 1;
    assert(row@ =~= augmented_row(cols@, k as int, m as int, i as int));
    row
}

/// The first row from `from` on with a one in column `col`.
fn find_pivot(matrix: &Vec<Vec<u8>>, from: usize, col: usize, m: usize) -> (found: Option<usize>)
    requires
        shaped(matrix@, m as nat),
        col < m,
        from <= m,
    ensures
        match found {
            Some(r) => from <= r < m && matrix@[r as int]@[col as int] == 1,
            None => forall|r: int| from <= r < m ==> (#[trigger] matrix@[r])@[col as int] == 0,
        },
{
    let mut r: usize = from;
    while r < m
        invariant
            shaped(matrix@, m as nat),
            col < m,
            from <= r <= m,
            forall|x: int| from <= x < r ==> (#[trigger] matrix@[x])@[col as int] == 0,
        decreases m - r,
    {
        assert(matrix@[r as int]@.len() == 2 * m);
        if matrix[r][col] == 1 {
            return Some(r);
        }
        assert(binary(matrix@[r as int]@));
        assert(matrix@[r as int]@[col as int] == 0);
        r = r + 1;
    }
    None
}

/// Swap rows `a` and `b`.
fn swap_rows(matrix: &mut Vec<Vec<u8>>, a: usize, b: usize)
    requires
        a < old(matrix)@.len(),
        b < old(matrix)@.len(),
    ensures
        final(matrix)@.len() == old(matrix)@.len(),
        forall|r: int|
            0 <= r < old(matrix)@.len() ==> (#[trigger] final(matrix)@[r])@ == if r == a {
                old(matrix)@[b as int]@
            } else if r == b {
                old(matrix)@[a as int]@
            } else {
                old(matrix)@[r]@
            },
{
    let row_a: Vec<u8> = matrix[a].clone();
    let row_b: Vec<u8> = matrix[b].clone();
    assert(row_a@ =~= old(matrix)@[a as int]@);
    assert(row_b@ =~= old(matrix)@[b as int]@);
    matrix[a] = row_b;
    matrix[b] = row_a;
}

/// Add `pivot_row` to `row`.
fn xor_row_into(row: &mut Vec<u8>, pivot_row: &Vec<u8>)
    requires
        old(row)@.len() == pivot_row@.len(),
    ensures
        final(row)@ == xor_rows(old(row)@, pivot_row@),
{
    for c in 0..pivot_row.len()
        invariant
            row@.len() == pivot_row@.len(),
            old(row)@.len() == pivot_row@.len(),
            forall|x: int|
                0 <= x < row@.len() ==> #[trigger] row@[x] == if x < c {
                    old(row)@[x] ^ pivot_row@[x]
                } else {
                    old(row)@[x]
                },
    {
        let v: u8 = row[c] ^ pivot_row[c];
        row[c] = v;
    }
    assert(row@ =~= xor_rows(old(row)@, pivot_row@));
}

/// Clear column `col` in every row but `pivot`.
fn eliminate(matrix: &mut Vec<Vec<u8>>, pivot: usize, col: usize, m: usize)
    requires
        shaped(old(matrix)@, m as nat),
        pivot < m,
        col < m,
    ensures
        eliminated(old(matrix)@, final(matrix)@, pivot as int, col as int, m as int),
{
    let pivot_row: Vec<u8> = matrix[pivot].clone();
    assert(pivot_row@ =~= old(matrix)@[pivot as int]@);
    for i in 0..m
        invariant
            shaped(old(matrix)@, m as nat),
            pivot < m,
            col < m,
            pivot_row@ == old(matrix)@[pivot as int]@,
            eliminated(old(matrix)@, matrix@, pivot as int, col as int, i as int),
    {
        assert(old(matrix)@[i as int]@.len() == 2 * m);
        assert(old(matrix)@[pivot as int]@.len() == 2 * m);
        assert(matrix@[i as int]@ == old(matrix)@[i as int]@);
        if i != pivot && matrix[i][col] == 1 {
            xor_row_into(&mut matrix[i], &pivot_row);
        }
    }
}

/// The positions of the ones in the right half of a row.
fn right_ones(row: &Vec<u8>, m: usize) -> (ones: Vec<usize>)
    requires
        row@.len() == 2 * m,
        2 * m <= usize::MAX,
    ensures
        gf2::rising(ones@, m as nat),
        forall|j: usize| j < m ==> (#[trigger] ones@.contains(j) <==> row@[m + j] == 1),
{
    let mut ones: Vec<usize> = Vec::new();
    for j in 0..m
        invariant
            row@.len() == 2 * m,
            2 * m <= usize::MAX,
            gf2::rising(ones@, j as nat),
            forall|x: usize| x < j ==> (#[trigger] ones@.contains(x) <==> row@[m + x] == 1),
    {
        let ghost before = ones@;
        if row[m + j] == 1 {
            ones.push(j);
            assert forall|x: usize| x < j + 1 implies (#[trigger] ones@.contains(x) <==> row@[m + x]
                == 1) by {
                if before.contains(x) {
                    let a = choose|a: int| 0 <= a < before.len() && before[a] == x;
                    assert(ones@[a] == x);
                }
                if x == j {
                    assert(ones@[before.len() as int] == x);
                }
            }
        }
    }
    ones
}

/// The left half is the identity in the columns below `cols`.
pub open spec fn reduced(matrix: Seq<Vec<u8>>, m: int, cols: int) -> bool {
    forall|r: int, c: int|
        0 <= r < m && 0 <= c < cols ==> (#[trigger] matrix[r]@[c]) == if r == c {
            1u8
        } else {
            0u8
        }
}

/// A column without pivot gives a word that the matrix cancels.
proof fn lemma_missing_pivot(matrix: Seq<Vec<u8>>, m: int, col: int) -> (x: Seq<u8>)
    requires
        shaped(matrix, m as nat),
        reduced(matrix, m, col),
        0 <= col < m,
        forall|r: int| col <= r < m ==> (#[trigger] matrix[r])@[col] == 0,
    ensures
        x.len() == m,
        x[col] == 1,
        solves(rows_of(matrix), x + zeros(m)),
{
    let x: Seq<u8> = Seq::new(
        m as nat,
        |c: int|
            if c < col {
                matrix[c]@[col]
            } else if c == col {
                1u8
            } else {
                0u8
            },
    );
    let v = x + zeros(m);
    assert forall|r: int| 0 <= r < m implies #[trigger] dot(rows_of(matrix)[r], v) == 0 by {
        let row = matrix[r]@;
        assert(rows_of(matrix)[r] == row);
        assert(row.len() == 2 * m);
        let f = |c: int| row_term(row, v, c);
        assert(binary(row));
        if r < col {
            // Only columns r and col contribute, and both contribute row[col].
            let a = |c: int| if c == r { row_term(row, v, c) } else { 0u8 };
            let b = |c: int| if c == col { row_term(row, v, c) } else { 0u8 };
            assert forall|c: int| 0 <= c < 2 * m implies #[trigger] f(c) == a(c) ^ b(c) by {
                gf2::lemma_xor(f(c), 0, 0);
                gf2::lemma_xor(0, 0, 0);
                if c < col && c != r {
                    assert(matrix[r]@[c] == 0);
                }
            }
            gf2::lemma_xor_sum_add(a, b, f, (2 * m) as nat);
            gf2::lemma_xor_sum_single(a, (2 * m) as nat, r);
            gf2::lemma_xor_sum_single(b, (2 * m) as nat, col);
            assert(matrix[r]@[r] == 1);
            assert(v[r] == row[col] && v[col] == 1);
            assert(row[col] == 0 || row[col] == 1);
            gf2::lemma_xor(row[col], 0, 0);
        } else {
            assert(matrix[r]@[col] == 0);
            assert forall|c: int| 0 <= c < 2 * m implies #[trigger] f(c) == 0 by {
                if c < col {
                    assert(matrix[r]@[c] == if r == c { 1u8 } else { 0u8 });
                }
            }
            gf2::lemma_xor_sum_zero(f, (2 * m) as nat);
        }
    }
    x
}

/// With the identity on the left, the right half tells each parity bit.
proof fn lemma_reduced_solves(matrix: Seq<Vec<u8>>, m: int, lists: Seq<Vec<usize>>, s: Seq<u8>)
    requires
        shaped(matrix, m as nat),
        reduced(matrix, m, m),
        lists.len() == m,
        m <= usize::MAX,
        forall|r: int| 0 <= r < m ==> gf2::rising(#[trigger] lists[r]@, m as nat),
        forall|r: int, j: usize|
            0 <= r < m && j < m ==> (#[trigger] lists[r]@.contains(j) <==> matrix[r]@[m + j] == 1),
        s.len() == m,
    ensures
        solves(rows_of(matrix), parity_word(lists, s) + s),
{
    let p = parity_word(lists, s);
    let v = p + s;
    assert forall|r: int| 0 <= r < m implies #[trigger] dot(rows_of(matrix)[r], v) == 0 by {
        let row = matrix[r]@;
        assert(rows_of(matrix)[r] == row);
        assert(row.len() == 2 * m);
        let f = |c: int| row_term(row, v, c);
        gf2::lemma_xor_sum_split(f, m as nat, m as nat);
        assert forall|c: int| 0 <= c < m && c != r implies #[trigger] f(c) == 0 by {
            assert(matrix[r]@[c] == 0);
        }
        gf2::lemma_xor_sum_single(f, m as nat, r);
        assert(matrix[r]@[r] == 1);
        assert(f(r) == p[r]);
        let g = |i: int| f(m as nat + i);
        let t = |i: int| gf2::listed_term(s, lists[r]@, i);
        assert forall|i: int| 0 <= i < m implies #[trigger] g(i) == t(i) by {
            let j = i as usize;
            assert(lists[r]@.contains(j) <==> matrix[r]@[m + j] == 1);
            assert(v[m + i] == s[i]);
        }
        gf2::lemma_xor_sum_ext(g, t, m as nat);
        gf2::lemma_xor_at_is_sum(s, lists[r]@, m as nat);
        gf2::lemma_xor(p[r], 0, 0);
        assert((2 * m) as nat == m as nat + m as nat);
    }
}

/// Invert the parity part of `h` by row reduction.
///
/// Returns, for each parity bit, the list of checks whose syndromes are XORed
/// to get it, and the number of pivots that were found. A parity bit without
/// pivot gets the empty list.
fn precompute_encoding(h: &SparseH, k: usize, m: usize) -> (result: (Vec<Vec<usize>>, usize))
    requires
        sized(h, k as int, m as int),
        k + m <= usize::MAX,
        2 * m <= usize::MAX,
    ensures
        result.0@.len() == m,
        forall|r: int| 0 <= r < m ==> gf2::rising(#[trigger] result.0@[r]@, m as nat),
        result.1 <= m,
        result.1 == m ==> inverts(h, k as int, m as int, result.0@),
        independent(h, k as int, m as int) ==> result.1 == m,
{
    let ghost target = augmented(h, k as int, m as int);
    let mut matrix: Vec<Vec<u8>> = Vec::new();
    for i in 0..m
        invariant
            sized(h, k as int, m as int),
            k + m <= usize::MAX,
            2 * m <= usize::MAX,
            matrix@.len() == i,
            forall|r: int|
                0 <= r < i ==> (#[trigger] matrix@[r])@ == augmented_row(
                    h.row_indices@[r]@,
                    k as int,
                    m as int,
                    r,
                ),
    {
        assert(gf2::rising(h.row_indices@[i as int]@, (k + m) as nat));
        let row = build_row(&h.row_indices[i], k, m, i);
        matrix.push(row);
    }
    assert(rows_of(matrix@) =~= target);

    let mut pivot_row_for_col: Vec<Option<usize>> = vec![None; m];
    let mut current_row: usize = 0;
    for col in 0..m
        invariant
            2 * m <= usize::MAX,
            target == augmented(h, k as int, m as int),
            shaped(matrix@, m as nat),
            pivot_row_for_col@.len() == m,
            current_row <= col,
            forall|c: int|
                0 <= c < m ==> match #[trigger] pivot_row_for_col@[c] {
                    Some(r) => r < m,
                    None => true,
                },
            forall|v: Seq<u8>| #[trigger]
                solves(rows_of(matrix@), v) ==> solves(target, v),
            current_row == col ==> reduced(matrix@, m as int, col as int),
            current_row == col ==> forall|c: int|
                0 <= c < col ==> #[trigger] pivot_row_for_col@[c] == Some(c as usize),
            independent(h, k as int, m as int) ==> current_row == col,
    {
        let found = find_pivot(&matrix, current_row, col, m);
        match found {
            Some(pivot_r) => {
                let ghost start = matrix@;
                swap_rows(&mut matrix, current_row, pivot_r);
                let ghost swapped = matrix@;
                proof {
                    assert(shaped(swapped, m as nat));
                    assert forall|v: Seq<u8>| #[trigger] solves(rows_of(swapped), v) implies solves(
                        rows_of(start),
                        v,
                    ) by {
                        assert forall|r: int| 0 <= r < m implies #[trigger] dot(
                            rows_of(start)[r],
                            v,
                        ) == 0 by {
                            let other = if r == current_row {
                                pivot_r as int
                            } else if r == pivot_r {
                                current_row as int
                            } else {
                                r
                            };
                            assert(rows_of(swapped)[other] == rows_of(start)[r]);
                            assert(dot(rows_of(swapped)[other], v) == 0);
                        }
                    }
                }
                pivot_row_for_col[col] = Some(current_row);
                eliminate(&mut matrix, current_row, col, m);
                proof {
                    lemma_elimination_keeps_solutions(
                        swapped,
                        matrix@,
                        current_row as int,
                        col as int,
                        m as nat,
                    );
                    if current_row == col {
                        assert forall|r: int, c: int| 0 <= r < m && 0 <= c < col + 1 implies (
                        #[trigger] matrix@[r]@[c]) == if r == c {
                            1u8
                        } else {
                            0u8
                        } by {
                            assert(start[r]@.len() == 2 * m);
                            assert(start[pivot_r as int]@.len() == 2 * m);
                            assert(swapped[r]@.len() == 2 * m);
                            assert(binary(swapped[r]@));
                            assert(swapped[r]@[col as int] == 0 || swapped[r]@[col as int] == 1);
                            gf2::lemma_xor(1, 0, 0);
                            gf2::lemma_xor(0, 0, 0);
                            if c < col {
                                assert(start[r]@[c] == if r == c { 1u8 } else { 0u8 });
                                assert(start[pivot_r as int]@[c] == 0);
                                assert(start[col as int]@[c] == 0);
                            }
                        }
                    }
                }
                current_row = current_row + 1;
            },
            None => {
                proof {
                    if current_row == col && independent(h, k as int, m as int) {
                        let x = lemma_missing_pivot(matrix@, m as int, col as int);
                        assert(solves(target, x + zeros(m as int)));
                        assert(x[col as int] == 0);
                    }
                }
            },
        }
    }
    let rank: usize = current_row;

    let mut lists: Vec<Vec<usize>> = Vec::new();
    for col in 0..m
        invariant
            2 * m <= usize::MAX,
            shaped(matrix@, m as nat),
            pivot_row_for_col@.len() == m,
            forall|c: int|
                0 <= c < m ==> match #[trigger] pivot_row_for_col@[c] {
                    Some(r) => r < m,
                    None => true,
                },
            rank == m ==> forall|c: int|
                0 <= c < m ==> #[trigger] pivot_row_for_col@[c] == Some(c as usize),
            lists@.len() == col,
            forall|r: int| 0 <= r < col ==> gf2::rising(#[trigger] lists@[r]@, m as nat),
            rank == m ==> forall|r: int, j: usize|
                0 <= r < col && j < m ==> (#[trigger] lists@[r]@.contains(j) <==> matrix@[r]@[m + j]
                    == 1),
    {
        match pivot_row_for_col[col] {
            Some(r) => {
                assert(matrix@[r as int]@.len() == 2 * m);
                let ones = right_ones(&matrix[r], m);
                assert(rank == m ==> r == col);
                lists.push(ones);
            },
            None => {
                assert(rank != m) by {
                    assert(pivot_row_for_col@[col as int] == None::<usize>);
                }
                lists.push(Vec::new());
            },
        }
    }
    proof {
        if rank == m {
            assert forall|s: Seq<u8>| s.len() == m implies #[trigger] solves(
                target,
                parity_word(lists@, s) + s,
            ) by {
                lemma_reduced_solves(matrix@, m as int, lists@, s);
            }
        }
    }
    (lists, rank)
}

/// What parity position `c` adds to a check.
pub open spec fn parity_term(cols: Seq<usize>, p: Seq<u8>, k: int, c: int) -> u8 {
    if cols.contains((k + c) as usize) {
        p[c]
    } else {
        0
    }
}

/// XOR of the listed positions below `k`.
pub open spec fn low_xor(v: Seq<u8>, cols: Seq<usize>, k: int) -> u8
    decreases cols.len(),
{
    if cols.len() == 0 {
        0
    } else if cols.last() < k {
        low_xor(v, cols.drop_last(), k) ^ v[cols.last() as int]
    } else {
        low_xor(v, cols.drop_last(), k)
    }
}

proof fn lemma_low_xor_all(v: Seq<u8>, cols: Seq<usize>, k: int)
    requires
        forall|i: int| 0 <= i < cols.len() ==> cols[i] < k,
    ensures
        low_xor(v, cols, k) == gf2::xor_at(v, cols),
    decreases cols.len(),
{
    if cols.len() > 0 {
        lemma_low_xor_all(v, cols.drop_last(), k);
    }
}

proof fn lemma_low_xor_is_sum(v: Seq<u8>, cols: Seq<usize>, k: nat, n: nat)
    requires
        gf2::rising(cols, n),
        k <= n <= usize::MAX,
    ensures
        low_xor(v, cols, k as int) == gf2::xor_sum(|c: int| gf2::listed_term(v, cols, c), k),
    decreases cols.len(),
{
    let f = |c: int| gf2::listed_term(v, cols, c);
    if cols.len() > 0 && cols.last() >= k {
        let rest = cols.drop_last();
        assert(gf2::rising(rest, n));
        lemma_low_xor_is_sum(v, rest, k, n);
        let g = |c: int| gf2::listed_term(v, rest, c);
        assert forall|c: int| 0 <= c < k implies #[trigger] f(c) == g(c) by {
            if cols.contains(c as usize) {
                let i = choose|i: int| 0 <= i < cols.len() && cols[i] == c as usize;
                assert(rest[i] == c as usize);
            }
            if rest.contains(c as usize) {
                let i = choose|i: int| 0 <= i < rest.len() && rest[i] == c as usize;
                assert(cols[i] == c as usize);
            }
        }
        gf2::lemma_xor_sum_ext(f, g, k);
    } else {
        assert forall|i: int| 0 <= i < cols.len() implies cols[i] < k by {
            if i < cols.len() - 1 {
                assert(cols[i] < cols[cols.len() - 1]);
            }
        }
        assert(gf2::rising(cols, k));
        lemma_low_xor_all(v, cols, k as int);
        gf2::lemma_xor_at_is_sum(v, cols, k);
    }
}

/// A check over a word splits into its information and its parity part.
proof fn lemma_check_splits(u: Seq<u8>, p: Seq<u8>, cols: Seq<usize>, k: nat, m: nat)
    requires
        u.len() == k,
        p.len() == m,
        gf2::rising(cols, k + m),
        k + m <= usize::MAX,
    ensures
        gf2::xor_at(u + p, cols) == low_xor(u, cols, k as int) ^ gf2::xor_sum(
            |c: int| parity_term(cols, p, k as int, c),
            m,
        ),
{
    let w = u + p;
    gf2::lemma_xor_at_is_sum(w, cols, k + m);
    let f = |c: int| gf2::listed_term(w, cols, c);
    gf2::lemma_xor_sum_split(f, k, m);
    lemma_low_xor_is_sum(u, cols, k, k + m);
    let a = |c: int| gf2::listed_term(u, cols, c);
    assert forall|c: int| 0 <= c < k implies #[trigger] f(c) == a(c) by {}
    gf2::lemma_xor_sum_ext(f, a, k);
    let b = |c: int| f(k + c);
    let t = |c: int| parity_term(cols, p, k as int, c);
    assert forall|c: int| 0 <= c < m implies #[trigger] b(c) == t(c) by {
        assert(w[k + c] == p[c]);
    }
    gf2::lemma_xor_sum_ext(b, t, m);
}

/// The product of an augmented row with a parity word and a syndrome.
proof fn lemma_augmented_dot(
    cols: Seq<usize>,
    p: Seq<u8>,
    s: Seq<u8>,
    k: int,
    m: int,
    i: int,
)
    requires
        p.len() == m,
        s.len() == m,
        0 <= i < m,
        k >= 0,
    ensures
        dot(augmented_row(cols, k, m, i), p + s) == gf2::xor_sum(
            |c: int| parity_term(cols, p, k, c),
            m as nat,
        ) ^ s[i],
{
    let row = augmented_row(cols, k, m, i);
    let v = p + s;
    let f = |c: int| row_term(row, v, c);
    gf2::lemma_xor_sum_split(f, m as nat, m as nat);
    assert((2 * m) as nat == m as nat + m as nat);
    let t = |c: int| parity_term(cols, p, k, c);
    assert forall|c: int| 0 <= c < m implies #[trigger] f(c) == t(c) by {}
    gf2::lemma_xor_sum_ext(f, t, m as nat);
    let g = |c: int| f(m as nat + c);
    assert forall|c: int| 0 <= c < m && c != i implies #[trigger] g(c) == 0 by {}
    gf2::lemma_xor_sum_single(g, m as nat, i);
    assert(g(i) == s[i]);
}

/// The parity part of every rate's matrix can be inverted.
proof fn lemma_rates_are_independent(h: &SparseH, rate: LdpcRate)
    requires
        code::matches_rate(h, rate),
    ensures
        independent(h, rate.spec_k() as int, code::n_checks(rate)),
{
    let k = rate.spec_k() as int;
    let m = code::n_checks(rate);
    assert forall|x: Seq<u8>|
        x.len() == m && #[trigger] solves(augmented(h, k, m), x + zeros(m)) implies (forall|c: int|
        0 <= c < m ==> #[trigger] x[c] == 0) by {
        let word = zeros(k) + x;
        assert forall|r: int| 0 <= r < m implies #[trigger] code::syndrome_at(rate, word, r) == 0 by {
            let cols = h.row_indices@[r]@;
            code::lemma_syndrome_is_xor_at(rate, h, word, r);
            assert(gf2::rising(cols, (k + m) as nat));
            lemma_check_splits(zeros(k), x, cols, k as nat, m as nat);
            lemma_augmented_dot(cols, x, zeros(m), k, m, r);
            assert(augmented(h, k, m)[r] == augmented_row(cols, k, m, r));
            assert(dot(augmented(h, k, m)[r], x + zeros(m)) == 0);
            lemma_low_xor_is_sum(zeros(k), cols, k as nat, (k + m) as nat);
            gf2::lemma_xor_sum_zero(|c: int| gf2::listed_term(zeros(k), cols, c), k as nat);
            let t = gf2::xor_sum(|c: int| parity_term(cols, x, k, c), m as nat);
            gf2::lemma_xor(t, 0, 0);
        }
        code::lemma_trivial_kernel(rate, word);
        assert forall|c: int| 0 <= c < m implies #[trigger] x[c] == 0 by {
            assert(word[k + c] == 0);
        }
    }
}

/// Number of codewords that `len` bytes take.
pub open spec fn n_blocks(rate: LdpcRate, len: nat) -> int {
    let k_bytes = (rate.spec_k() / 8) as int;
    (len + k_bytes - 1) / k_bytes
}

/// The information bits of block `b` of `data`, filled up with zeros.
pub open spec fn block_bits(rate: LdpcRate, data: Seq<u8>, b: int) -> Seq<u8> {
    Seq::new(
        rate.spec_k() as nat,
        |p: int|
            {
                let at = b * (rate.spec_k() / 8) + p / 8;
                if at < data.len() {
                    bits::bit_of(data[at], p % 8)
                } else {
                    0u8
                }
            },
    )
}

/// Codeword `b` of a sequence of codewords.
pub open spec fn block_of(codewords: Seq<u8>, b: int) -> Seq<u8> {
    codewords.subrange(b * 2304, (b + 1) * 2304)
}

/// `word` is the codeword of block `b` of `data`.
pub open spec fn encodes_block(rate: LdpcRate, data: Seq<u8>, b: int, word: Seq<u8>) -> bool {
    &&& code::is_codeword(rate, word)
    &&& word.take(rate.spec_k() as int) == block_bits(rate, data, b)
}

/// `codewords` are those of all blocks of `data`, one behind the other.
pub open spec fn encodes(rate: LdpcRate, data: Seq<u8>, codewords: Seq<u8>) -> bool {
    &&& codewords.len() == n_blocks(rate, data.len()) * 2304
    &&& forall|b: int|
        0 <= b < n_blocks(rate, data.len()) ==> encodes_block(
            rate,
            data,
            b,
            #[trigger] block_of(codewords, b),
        )
}

/// The number of blocks, by quotient and remainder.
pub proof fn lemma_n_blocks(rate: LdpcRate, len: nat)
    ensures
        ({
            let k_bytes = (rate.spec_k() / 8) as int;
            n_blocks(rate, len) == len as int / k_bytes + (if len as int % k_bytes == 0 {
                0int
            } else {
                1int
            })
        }),
{
    let k = (rate.spec_k() / 8) as int;
    let q = len as int / k;
    let r = len as int % k;
    assert(len == k * q + r && 0 <= r < k) by {
        vstd::arithmetic::div_mod::lemma_fundamental_div_mod(len as int, k);
    }
    if r == 0 {
        vstd::arithmetic::div_mod::lemma_fundamental_div_mod_converse(
            len + k - 1,
            k,
            q,
            k - 1,
        );
    } else {
        assert(k * (q + 1) == k * q + k) by (nonlinear_arith);
        vstd::arithmetic::div_mod::lemma_fundamental_div_mod_converse(
            len + k - 1,
            k,
            q + 1,
            r - 1,
        );
    }
}

/// Systematic encoder for one code rate.
pub struct LdpcEncoder {
    rate: LdpcRate,
    h: SparseH,
    k: usize,
    n: usize,
    m: usize,
    /// For each parity bit, the checks whose syndromes are XORed to get it.
    parity_from_syndrome: Vec<Vec<usize>>,
    /// Number of parity bits that the checks determine.
    rank: usize,
}

impl LdpcEncoder {
    #[verifier::type_invariant]
    spec fn inv(&self) -> bool {
        &&& code::matches_rate(&self.h, self.rate)
        &&& self.k == self.rate.spec_k()
        &&& self.n == 2304
        &&& self.m == code::n_checks(self.rate)
        &&& self.rank == self.m
        &&& self.parity_from_syndrome@.len() == self.m
        &&& forall|r: int|
            0 <= r < self.m ==> gf2::rising(
                #[trigger] self.parity_from_syndrome@[r]@,
                self.m as nat,
            )
        &&& inverts(&self.h, self.k as int, self.m as int, self.parity_from_syndrome@)
    }

    /// Code rate of this encoder.
    pub closed spec fn spec_rate(&self) -> LdpcRate {
        self.rate
    }

    /// Encoder for `rate`.
    pub fn new(rate: LdpcRate) -> (enc: Self)
        ensures
            enc.spec_rate() == rate,
    {
        let bm = wimax::base_matrix(rate);
        let h = wimax::expand(&bm);
        let k: usize = rate.k();
        let n: usize = rate.n();
        let m: usize = n - k;
        proof {
            code::lemma_expansion_matches_rate(rate, &bm, &h);
            lemma_rates_are_independent(&h, rate);
        }
        let (parity_from_syndrome, rank) = precompute_encoding(&h, k, m);
        LdpcEncoder { rate, h, k, n, m, parity_from_syndrome, rank }
    }

    /// Encode info bits (length `k`) into a codeword (length 2304).
    ///
    /// The codeword starts with the information and satisfies every parity check.
    pub fn encode(&self, info: &[u8]) -> (codeword: Vec<u8>)
        requires
            info@.len() == self.spec_rate().spec_k(),
        ensures
            codeword@.take(info@.len() as int) == info@,
            code::is_codeword(self.spec_rate(), codeword@),
    {
        proof {
            use_type_invariant(self);
        }
        let mut codeword: Vec<u8> = Vec::new();
        for j in 0..self.k
            invariant
                info@.len() == self.k,
                codeword@ == info@.take(j as int),
        {
            codeword.push(info[j]);
            assert(info@.take(j + 1) =~= info@.take(j as int).push(info@[j as int]));
        }

        let mut syndrome: Vec<u8> = Vec::new();
        for i in 0..self.m
            invariant
                self.inv(),
                info@.len() == self.k,
                syndrome@.len() == i,
                forall|r: int|
                    0 <= r < i ==> #[trigger] syndrome@[r] == low_xor(
                        info@,
                        self.h.row_indices@[r]@,
                        self.k as int,
                    ),
        {
            let cols = &self.h.row_indices[i];
            let mut s: u8 = 0;
            for t in 0..cols.len()
                invariant
                    info@.len() == self.k,
                    s == low_xor(info@, cols@.take(t as int), self.k as int),
            {
                let j: usize = cols[t];
                assert(cols@.take(t + 1).drop_last() =~= cols@.take(t as int));
                if j < self.k {
                    s = s ^ info[j];
                }
            }
            assert(cols@.take(cols@.len() as int) =~= cols@);
            syndrome.push(s);
        }

        let ghost parity = parity_word(self.parity_from_syndrome@, syndrome@);
        for i in 0..self.m
            invariant
                self.inv(),
                syndrome@.len() == self.m,
                info@.len() == self.k,
                parity == parity_word(self.parity_from_syndrome@, syndrome@),
                codeword@ == info@ + parity.take(i as int),
        {
            let list = &self.parity_from_syndrome[i];
            let mut val: u8 = 0;
            assert(gf2::rising(list@, self.m as nat));
            for t in 0..list.len()
                invariant
                    syndrome@.len() == self.m,
                    gf2::rising(list@, self.m as nat),
                    val == gf2::xor_at(syndrome@, list@.take(t as int)),
            {
                assert(list@.take(t + 1).drop_last() =~= list@.take(t as int));
                let row: usize = list[t];
                val = val ^ syndrome[row];
            }
            assert(list@.take(list@.len() as int) =~= list@);
            codeword.push(val);
            assert(parity.take(i + 1) =~= parity.take(i as int).push(val));
            assert(codeword@ =~= info@ + parity.take(i + 1));
        }
        proof {
            let k = self.k as int;
            let m = self.m as int;
            assert(codeword@ =~= info@ + parity);
            assert(codeword@.take(k) =~= info@);
            let s = syndrome@;
            assert(solves(augmented(&self.h, k, m), parity + s));
            assert forall|r: int| 0 <= r < m implies #[trigger] code::syndrome_at(
                self.rate,
                codeword@,
                r,
            ) == 0 by {
                let cols = self.h.row_indices@[r]@;
                code::lemma_syndrome_is_xor_at(self.rate, &self.h, codeword@, r);
                assert(gf2::rising(cols, (k + m) as nat));
                lemma_check_splits(info@, parity, cols, k as nat, m as nat);
                lemma_augmented_dot(cols, parity, s, k, m, r);
                assert(augmented(&self.h, k, m)[r] == augmented_row(cols, k, m, r));
                assert(dot(augmented(&self.h, k, m)[r], parity + s) == 0);
                let t = gf2::xor_sum(|c: int| parity_term(cols, parity, k, c), m as nat);
                gf2::lemma_xor(t, s[r], 0);
            }
        }
        codeword
    }

    /// Encode bytes of any number into codewords, the last block filled with zeros.
    pub fn encode_bytes(&self, data: &[u8]) -> (codewords: Vec<u8>)
        requires
            n_blocks(self.spec_rate(), data@.len()) * 2304 <= usize::MAX,
        ensures
            encodes(self.spec_rate(), data@, codewords@),
    {
        proof {
            use_type_invariant(self);
        }
        let k_bytes: usize = self.k / 8;
        proof {
            lemma_n_blocks(self.rate, data@.len());
        }
        let blocks: usize = data.len() / k_bytes + (if data.len() % k_bytes == 0 { 0 } else { 1 });
        let mut all: Vec<u8> = Vec::new();
        for b in 0..blocks
            invariant
                self.inv(),
                k_bytes == self.k / 8,
                blocks == n_blocks(self.rate, data@.len()),
                blocks * 2304 <= usize::MAX,
                all@.len() == b * 2304,
                forall|x: int|
                    0 <= x < b ==> encodes_block(
                        self.rate,
                        data@,
                        x,
                        #[trigger] block_of(all@, x),
                    ),
        {
            let mut info: Vec<u8> = Vec::new();
            assert(b * k_bytes + k_bytes <= blocks * 240) by {
                assert(b * k_bytes <= b * 240) by (nonlinear_arith)
                    requires
                        k_bytes <= 240,
                ;
            }
            for p in 0..self.k
                invariant
                    self.inv(),
                    k_bytes == self.k / 8,
                    b * k_bytes + k_bytes <= usize::MAX,
                    info@ == block_bits(self.rate, data@, b as int).take(p as int),
            {
                let at: usize = b * k_bytes + p / 8;
                let bit: u8 = if at < data.len() {
                    bits::bit_at(data[at], p % 8)
                } else {
                    0
                };
                info.push(bit);
                assert(block_bits(self.rate, data@, b as int).take(p + 1) =~= block_bits(
                    self.rate,
                    data@,
                    b as int,
                ).take(p as int).push(bit));
            }
            assert(info@ =~= block_bits(self.rate, data@, b as int));
            let mut codeword = self.encode(&info);
            let ghost before = all@;
            let ghost cw = codeword@;
            all.append(&mut codeword);
            assert(block_of(all@, b as int) =~= cw);
            assert forall|x: int| 0 <= x < b + 1 implies encodes_block(
                self.rate,
                data@,
                x,
                #[trigger] block_of(all@, x),
            ) by {
                if x < b {
                    assert(block_of(all@, x) =~= block_of(before, x));
                }
            }
        }
        all
    }

    /// Info bits per codeword.
    pub fn k(&self) -> (k: usize)
        ensures
            k == self.spec_rate().spec_k(),
    {
        proof {
            use_type_invariant(self);
        }
        self.k
    }

    /// Codeword length.
    pub fn n(&self) -> (n: usize)
        ensures
            n == 2304,
    {
        proof {
            use_type_invariant(self);
        }
        self.n
    }

    /// Parity bits per codeword.
    pub fn m(&self) -> (m: usize)
        ensures
            m == 2304 - self.spec_rate().spec_k(),
    {
        proof {
            use_type_invariant(self);
        }
        self.m
    }

    /// Code rate.
    pub fn rate(&self) -> (rate: LdpcRate)
        ensures
            rate == self.spec_rate(),
    {
        self.rate
    }

    /// Number of parity bits that the checks determine: all of them.
    pub fn rank(&self) -> (rank: usize)
        ensures
            rank == 2304 - self.spec_rate().spec_k(),
    {
        proof {
            use_type_invariant(self);
        }
        self.rank
    }
}

/// Codewords that agree block by block are the same.
proof fn lemma_blocks_determine(a: Seq<u8>, b: Seq<u8>, n: int)
    requires
        a.len() == n * 2304,
        b.len() == n * 2304,
        forall|i: int| 0 <= i < n ==> #[trigger] block_of(a, i) == block_of(b, i),
    ensures
        a == b,
{
    assert forall|p: int| 0 <= p < a.len() implies a[p] == b[p] by {
        let i = p / 2304;
        assert(0 <= i < n && i * 2304 <= p < (i + 1) * 2304);
        assert(block_of(a, i) == block_of(b, i));
        assert(a[p] == block_of(a, i)[p - i * 2304]);
        assert(b[p] == block_of(b, i)[p - i * 2304]);
    }
    assert(a =~= b);
}

/// Bytes have one encoding.
pub proof fn law_encoding_is_determined(rate: LdpcRate, data: Seq<u8>, a: Seq<u8>, b: Seq<u8>)
    requires
        encodes(rate, data, a),
        encodes(rate, data, b),
    ensures
        a == b,
{
    lemma_n_blocks(rate, data.len());
    let n = n_blocks(rate, data.len());
    assert forall|i: int| 0 <= i < n implies #[trigger] block_of(a, i) == block_of(b, i) by {
        code::law_codeword_is_determined_by_info(rate, block_of(a, i), block_of(b, i));
    }
    lemma_blocks_determine(a, b, n);
}

/// Whole blocks are encoded on their own: the encoding of `a` followed by `b` is that of
/// `a` followed by that of `b`, where `a` fills its blocks.
pub proof fn law_whole_blocks_are_encoded_apart(
    rate: LdpcRate,
    a: Seq<u8>,
    b: Seq<u8>,
    coded_a: Seq<u8>,
    coded_b: Seq<u8>,
    coded: Seq<u8>,
)
    requires
        a.len() % (rate.spec_k() / 8) as nat == 0,
        encodes(rate, a, coded_a),
        encodes(rate, b, coded_b),
        encodes(rate, a + b, coded),
    ensures
        coded == coded_a + coded_b,
{
    let kb = (rate.spec_k() / 8) as int;
    lemma_n_blocks(rate, a.len());
    lemma_n_blocks(rate, b.len());
    lemma_n_blocks(rate, (a + b).len());
    let na = n_blocks(rate, a.len());
    let nb = n_blocks(rate, b.len());
    vstd::arithmetic::div_mod::lemma_fundamental_div_mod(a.len() as int, kb);
    assert(a.len() == kb * na);
    vstd::arithmetic::div_mod::lemma_hoist_over_denominator(b.len() + kb - 1, na, kb as nat);
    assert(na * kb == kb * na) by (nonlinear_arith);
    assert(n_blocks(rate, (a + b).len()) == na + nb);
    let joined = coded_a + coded_b;
    assert forall|i: int| 0 <= i < na + nb implies #[trigger] block_of(coded, i) == block_of(
        joined,
        i,
    ) by {
        if i < na {
            assert(block_of(joined, i) =~= block_of(coded_a, i));
            assert((i + 1) * kb <= na * kb) by (nonlinear_arith)
                requires
                    i + 1 <= na,
                    kb > 0,
            ;
            assert((i + 1) * kb == i * kb + kb) by (nonlinear_arith);
            assert(block_bits(rate, a + b, i) =~= block_bits(rate, a, i));
        } else {
            let j = i - na;
            assert(block_of(joined, i) =~= block_of(coded_b, j));
            assert(i * kb == na * kb + j * kb) by (nonlinear_arith)
                requires
                    i == na + j,
            ;
            assert(0 <= j * kb) by (nonlinear_arith)
                requires
                    j >= 0,
                    kb > 0,
            ;
            assert(block_bits(rate, a + b, i) =~= block_bits(rate, b, j));
        }
        code::law_codeword_is_determined_by_info(rate, block_of(coded, i), block_of(joined, i));
    }
    lemma_blocks_determine(coded, joined, na + nb);
}

/// Bytes that fit one block are encoded as their bits, filled up with zeros.
pub proof fn law_one_block_is_its_codeword(
    rate: LdpcRate,
    data: Seq<u8>,
    coded: Seq<u8>,
    word: Seq<u8>,
)
    requires
        0 < data.len() <= rate.spec_k() / 8,
        encodes(rate, data, coded),
        code::is_codeword(rate, word),
        word.take(rate.spec_k() as int) == bits::unpack(data) + Seq::new(
            (rate.spec_k() - 8 * data.len()) as nat,
            |i: int| 0u8,
        ),
    ensures
        coded == word,
{
    lemma_n_blocks(rate, data.len());
    assert(n_blocks(rate, data.len()) == 1) by {
        let kb = (rate.spec_k() / 8) as int;
        vstd::arithmetic::div_mod::lemma_fundamental_div_mod_converse(
            data.len() + kb - 1,
            kb,
            1,
            data.len() - 1,
        );
    }
    assert(block_of(coded, 0) =~= coded);
    assert(block_bits(rate, data, 0) =~= word.take(rate.spec_k() as int));
    code::law_codeword_is_determined_by_info(rate, coded, word);
}

/// No bytes take no codeword, and every other number of bytes takes as many codewords as it
/// begins blocks.
pub proof fn law_encoding_has_whole_codewords(rate: LdpcRate, data: Seq<u8>, coded: Seq<u8>)
    requires
        encodes(rate, data, coded),
    ensures
        data.len() == 0 ==> coded == Seq::<u8>::empty(),
        coded.len() % 2304 == 0,
        coded.len() / 2304 * (rate.spec_k() / 8) as nat >= data.len(),
        data.len() > 0 ==> (coded.len() / 2304 - 1) * (rate.spec_k() / 8) < data.len(),
{
    lemma_n_blocks(rate, data.len());
    let kb = (rate.spec_k() / 8) as int;
    let n = n_blocks(rate, data.len());
    vstd::arithmetic::div_mod::lemma_fundamental_div_mod(data.len() + kb - 1, kb);
    if data.len() == 0 {
        assert(n == 0) by {
            vstd::arithmetic::div_mod::lemma_basic_div(kb - 1, kb);
        }
        assert(coded =~= Seq::<u8>::empty());
    }
    assert(coded.len() / 2304 == n);
    assert(n * kb == kb * n && (n - 1) * kb == kb * n - kb) by (nonlinear_arith);
}

} // verus!
