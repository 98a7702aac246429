//! Base matrices of IEEE 802.16e and their expansion.
//!
//! The expansion factor is `Z` = 96, which gives codewords of 24 * 96 = 2304
//! bits. A base entry of -1 stands for the zero block of `Z` by `Z` bits. An
//! entry `s` in 0..96 stands for the identity, cyclically shifted right by `s`.

use vstd::prelude::*;

use crate::ldpc::gf2;
use crate::profile::LdpcRate;

verus! {

/// A base matrix entry: -1 for a zero block, else the cyclic shift.
pub type BaseEntry = i16;

/// Expansion factor.
pub const Z: usize = 96;

/// Codeword length.
pub const N: usize = 24 * Z;

/// Base matrix for a given rate, row by row.
pub struct BaseMatrix {
    /// Check blocks.
    pub n_rows: usize,
    /// Variable blocks.
    pub n_cols: usize,
    pub data: Vec<BaseEntry>,
}

impl BaseMatrix {
    /// Entry at (`row`, `col`).
    pub open spec fn entry(&self, row: int, col: int) -> BaseEntry {
        self.data@[row * self.n_cols + col]
    }

    /// The entries fill the stated dimensions, and the expansion can be indexed.
    pub open spec fn well_formed(&self) -> bool {
        &&& self.n_cols == 24
        &&& self.data@.len() == self.n_rows * 24
        &&& self.n_rows * Z <= usize::MAX
    }

    /// Bit (`row`, `col`) of the expanded parity-check matrix.
    pub open spec fn h_bit(&self, row: int, col: int) -> bool {
        let s = self.entry(row / 96, col / 96);
        s >= 0 && col % 96 == (row % 96 + s) % 96
    }

    /// Entry at (`row`, `col`).
    pub fn get(&self, row: usize, col: usize) -> (e: BaseEntry)
        requires
            row * self.n_cols + col < self.data.len(),
        ensures
            e == self.entry(row as int, col as int),
    {
        proof {
            assert(row * self.n_cols >= 0) by (nonlinear_arith)
                requires
                    row >= 0,
                    self.n_cols >= 0,
            ;
        }
        self.data[row * self.n_cols + col]
    }
}

/// Information part of the rate 1/2 matrix, 12 by 12 blocks.
pub const INFO_R1_2: [BaseEntry; 144] = [
    -1, 94, 73, -1, -1, -1, -1, -1, 55, 83, -1, -1,
    -1, 27, -1, -1, -1, 22, 79,  9, -1, -1, -1, 12,
    -1, -1, -1, 24, 22, 81, -1, 33, -1, -1, -1,  0,
    61, -1, 47, -1, -1, -1, -1, -1, 65, 25, -1, -1,
    -1, -1, 39, -1, -1, -1, 84, -1, -1, 41, 72, -1,
    -1, -1, -1, -1, 46, 40, -1, 82, -1, -1, -1, 79,
    -1, -1, 95, 53, -1, -1, -1, -1, -1, 14, 18, -1,
    -1, 11, 73, -1, -1, -1,  2, -1, -1, 47, -1, -1,
    12, -1, -1, -1, 83, 24, -1, 43, -1, -1, -1, 51,
    -1, -1, -1, -1, -1, 94, -1, 59, -1, -1, 70, 72,
    -1, -1,  7, 65, -1, -1, -1, -1, 39, 49, -1, -1,
    43, -1, -1, -1, -1, 66, -1, 41, -1, -1, -1, 26,
];

/// Information part of the rate 2/3 B matrix, 8 by 16 blocks.
pub const INFO_R2_3: [BaseEntry; 128] = [
     2, -1, 19, -1, 47, -1, 48, -1, 36, -1, 82, -1, 47, -1, 15, -1,
    -1, 69, -1, 88, -1, 33, -1,  3, -1, 16, -1, 37, -1, 40, -1, 48,
    10, -1, 86, -1, 62, -1, 28, -1, 85, -1, 16, -1, 34, -1, 73, -1,
    -1, 28, -1, 32, -1, 81, -1, 27, -1, 88, -1,  5, -1, 56, -1, 37,
    23, -1, 29, -1, 15, -1, 30, -1, 66, -1, 24, -1, 50, -1, 62, -1,
    -1, 30, -1, 65, -1, 54, -1, 14, -1,  0, -1, 30, -1, 74, -1,  0,
    32, -1,  0, -1, 15, -1, 56, -1, 85, -1,  5, -1,  6, -1, 52, -1,
    -1,  0, -1, 47, -1, 13, -1, 61, -1, 84, -1, 55, -1, 78, -1, 41,
];

/// Information part of the rate 3/4 A matrix, 6 by 18 blocks.
pub const INFO_R3_4: [BaseEntry; 108] = [
     6, 38,  3, 93, -1, -1, -1, 30, 70, -1, 86, -1, 37, 38,  4, 11, -1, 46,
    62, 94, 19, 84, -1, 92, 78, -1, 15, -1, -1, 92, -1, 45, 24, 32, 30, -1,
    71, -1, 55, -1, 12, 66, 45, 79, -1, 78, -1, -1, 10, -1, 22, 55, 70, 82,
    38, 61, -1, 66,  9, 73, 47, 64, -1, 39, 61, 43, -1, -1, -1, -1, 95, 32,
    -1, -1, -1, -1, 32, 52, 55, 80, 95, 22,  6, 51, 24, 90, 44, 20, -1, -1,
    -1, 63, 31, 88, 20, -1, -1, -1,  6, 40, 56, 16, 71, 53, -1, -1, 27, 26,
];

/// Information part of the rate 5/6 matrix, 4 by 20 blocks.
pub const INFO_R5_6: [BaseEntry; 80] = [
     1, 25, 55, -1, 47,  4, -1, 91, 84,  8, 86, 52, 82, 33,  5,  0, 36, 20,  4, 77,
    -1,  6, -1, 36, 40, 47, 12, 79, 47, -1, 41, 21, 12, 71, 14, 72,  0, 44, 49,  0,
    51, 81, 83,  4, 67, -1, 21, -1, 31, 24, 91, 61, 81,  9, 86, 78, 60, 88, 67, 15,
    50, -1, 50, 15, -1, 36, 13, 10, 11, 20, 53, 90, 29, 92, 57, 30, 84, 92, 11, 66,
];

/// Number of check blocks at a rate.
pub open spec fn check_blocks(rate: LdpcRate) -> int {
    match rate {
        LdpcRate::R1_2 => 12,
        LdpcRate::R2_3 => 8,
        LdpcRate::R3_4 => 6,
        LdpcRate::R5_6 => 4,
    }
}

/// Shift of the first parity block column in the first and in the last block row.
pub open spec fn outer_shift(rate: LdpcRate) -> BaseEntry {
    match rate {
        LdpcRate::R1_2 => 7,
        LdpcRate::R2_3 => 95,
        LdpcRate::R3_4 => 48,
        LdpcRate::R5_6 => 80,
    }
}

/// Block row in which the first parity block column is not shifted.
pub open spec fn middle_row(rate: LdpcRate) -> int {
    match rate {
        LdpcRate::R1_2 => 5,
        LdpcRate::R2_3 => 6,
        LdpcRate::R3_4 => 3,
        LdpcRate::R5_6 => 1,
    }
}

/// Entry of the information part, `col` below `24 - check_blocks(rate)`.
#[verifier::opaque]
pub open spec fn info_entry(rate: LdpcRate, row: int, col: int) -> BaseEntry {
    match rate {
        LdpcRate::R1_2 => INFO_R1_2@[row * 12 + col],
        LdpcRate::R2_3 => INFO_R2_3@[row * 16 + col],
        LdpcRate::R3_4 => INFO_R3_4@[row * 18 + col],
        LdpcRate::R5_6 => INFO_R5_6@[row * 20 + col],
    }
}

/// Entry of the base matrix of a rate.
///
/// The parity part is the same at every rate: a first column with three
/// blocks, then columns with two unshifted blocks one below the other.
pub open spec fn base_entry(rate: LdpcRate, row: int, col: int) -> BaseEntry {
    let mb = check_blocks(rate);
    let p = col - (24 - mb);
    if p < 0 {
        info_entry(rate, row, col)
    } else if p == 0 {
        if row == 0 || row == mb - 1 {
            outer_shift(rate)
        } else if row == middle_row(rate) {
            0
        } else {
            -1i16
        }
    } else if row == p - 1 || row == p {
        0
    } else {
        -1i16
    }
}

/// `bm` is the base matrix of `rate`.
pub open spec fn is_base_matrix(bm: &BaseMatrix, rate: LdpcRate) -> bool {
    &&& bm.well_formed()
    &&& bm.n_rows == check_blocks(rate)
    &&& forall|r: int, c: int|
        0 <= r < bm.n_rows && 0 <= c < 24 ==> #[trigger] bm.entry(r, c) == base_entry(rate, r, c)
}

/// Entry (`row`, `col`) of the base matrix of `rate`.
fn base_entry_at(rate: LdpcRate, row: usize, col: usize) -> (e: BaseEntry)
    requires
        row < check_blocks(rate),
        col < 24,
    ensures
        e == base_entry(rate, row as int, col as int),
{
    let (mb, outer, middle): (usize, BaseEntry, usize) = match rate {
        LdpcRate::R1_2 => (12, 7, 5),
        LdpcRate::R2_3 => (8, 95, 6),
        LdpcRate::R3_4 => (6, 48, 3),
        LdpcRate::R5_6 => (4, 80, 1),
    };
    let kb: usize = 24 - mb;
    proof {
        reveal(info_entry);
    }
    if col < kb {
        match rate {
            LdpcRate::R1_2 => INFO_R1_2[row * 12 + col],
            LdpcRate::R2_3 => INFO_R2_3[row * 16 + col],
            LdpcRate::R3_4 => INFO_R3_4[row * 18 + col],
            LdpcRate::R5_6 => INFO_R5_6[row * 20 + col],
        }
    } else {
        let p: usize = col - kb;
        if p == 0 {
            if row == 0 || row == mb - 1 {
                outer
            } else if row == middle {
                0
            } else {
                -1
            }
        } else if row == p - 1 || row == p {
            0
        } else {
            -1
        }
    }
}

/// Get the base matrix for a given LDPC rate.
pub fn base_matrix(rate: LdpcRate) -> (bm: BaseMatrix)
    ensures
        is_base_matrix(&bm, rate),
{
    let n_rows: usize = match rate {
        LdpcRate::R1_2 => 12,
        LdpcRate::R2_3 => 8,
        LdpcRate::R3_4 => 6,
        LdpcRate::R5_6 => 4,
    };
    let mut data: Vec<BaseEntry> = Vec::new();
    for i in 0..n_rows * 24
        invariant
            n_rows == check_blocks(rate),
            data@.len() == i,
            forall|x: int|
                0 <= x < i ==> #[trigger] data@[x] == base_entry(rate, x / 24, x % 24),
    {
        let e: BaseEntry = base_entry_at(rate, i / 24, i % 24);
        data.push(e);
    }
    let bm = BaseMatrix { n_rows, n_cols: 24, data };
    assert forall|r: int, c: int| 0 <= r < bm.n_rows && 0 <= c < 24 implies #[trigger] bm.entry(
        r,
        c,
    ) == base_entry(rate, r, c) by {
        let x = r * 24 + c;
        assert(x / 24 == r && x % 24 == c);
    }
    bm
}

/// Sparse representation of an expanded parity-check matrix.
pub struct SparseH {
    pub n_rows: usize,
    pub n_cols: usize,
    /// For each row: sorted list of column indices where H[row][col] = 1.
    pub row_indices: Vec<Vec<usize>>,
    /// For each column: sorted list of row indices where H[row][col] = 1.
    pub col_indices: Vec<Vec<usize>>,
}

/// `cols` lists, in rising order, the ones of row `row` in the columns below `n`.
pub open spec fn lists_row(bm: &BaseMatrix, cols: Seq<usize>, row: int, n: nat) -> bool {
    &&& gf2::rising(cols, n)
    &&& forall|c: usize| c < n ==> (#[trigger] cols.contains(c) <==> bm.h_bit(row, c as int))
}

/// `rows` lists, in rising order, the ones of column `col` in the rows below `n`.
pub open spec fn lists_col(bm: &BaseMatrix, rows: Seq<usize>, col: int, n: nat) -> bool {
    &&& gf2::rising(rows, n)
    &&& forall|r: usize| r < n ==> (#[trigger] rows.contains(r) <==> bm.h_bit(r as int, col))
}

impl SparseH {
    /// This matrix is the expansion of `bm`.
    pub open spec fn expands(&self, bm: &BaseMatrix) -> bool {
        &&& self.n_rows == bm.n_rows * Z
        &&& self.n_cols == bm.n_cols * Z
        &&& self.row_indices@.len() == self.n_rows
        &&& self.col_indices@.len() == self.n_cols
        &&& forall|r: int|
            0 <= r < self.n_rows ==> lists_row(
                bm,
                #[trigger] self.row_indices@[r]@,
                r,
                self.n_cols as nat,
            )
        &&& forall|c: int|
            0 <= c < self.n_cols ==> lists_col(
                bm,
                #[trigger] self.col_indices@[c]@,
                c,
                self.n_rows as nat,
            )
    }
}

/// The ones of row `row` of the expansion.
fn expand_row(bm: &BaseMatrix, row: usize) -> (cols: Vec<usize>)
    requires
        bm.well_formed(),
        row < bm.n_rows * Z,
    ensures
        lists_row(bm, cols@, row as int, 2304),
{
    let br: usize = row / Z;
    let mut cols: Vec<usize> = Vec::new();
    for bc in 0..24usize
        invariant
            bm.well_formed(),
            row < bm.n_rows * Z,
            br == row / 96,
            lists_row(bm, cols@, row as int, (bc * 96) as nat),
    {
        let shift: BaseEntry = bm.get(br, bc);
        let ghost before = cols@;
        if shift >= 0 {
            let col: usize = bc * Z + (row % Z + shift as usize) % Z;
            cols.push(col);
            assert forall|c: usize| c < (bc + 1) * 96 implies (#[trigger] cols@.contains(c)
                <==> bm.h_bit(row as int, c as int)) by {
                if before.contains(c) {
                    let i = choose|i: int| 0 <= i < before.len() && before[i] == c;
                    assert(cols@[i] == c);
                }
                if c >= bc * 96 {
                    assert(c as int / 96 == bc);
                    if c == col {
                        assert(cols@[before.len() as int] == c);
                    }
                }
            }
        } else {
            assert forall|c: usize| c < (bc + 1) * 96 implies (#[trigger] cols@.contains(c)
                <==> bm.h_bit(row as int, c as int)) by {
                if c >= bc * 96 {
                    assert(c as int / 96 == bc);
                }
            }
        }
    }
    cols
}

/// Undoing a cyclic shift.
proof fn lemma_unshift(a: int, b: int, s: int)
    requires
        0 <= a < 96,
        0 <= b < 96,
        s >= 0,
    ensures
        b == (a + s) % 96 <==> a == (b + (96 - s % 96)) % 96,
{
    let t = s % 96;
    vstd::arithmetic::div_mod::lemma_mod_multiples_vanish(s / 96, a + t, 96);
    assert((a + s) % 96 == (a + t) % 96);
    assert((a + t) % 96 == if a + t < 96 { a + t } else { a + t - 96 });
    assert((b + (96 - t)) % 96 == if b < t { b + 96 - t } else { b - t });
}

/// The ones of column `col` of the expansion.
fn expand_col(bm: &BaseMatrix, col: usize) -> (rows: Vec<usize>)
    requires
        bm.well_formed(),
        col < 2304,
    ensures
        lists_col(bm, rows@, col as int, (bm.n_rows * Z) as nat),
{
    let bc: usize = col / Z;
    let mut rows: Vec<usize> = Vec::new();
    for br in 0..bm.n_rows
        invariant
            bm.well_formed(),
            col < 2304,
            bc == col / 96,
            lists_col(bm, rows@, col as int, (br * 96) as nat),
    {
        let shift: BaseEntry = bm.get(br, bc);
        let ghost before = rows@;
        if shift >= 0 {
            let s: usize = shift as usize % Z;
            let row: usize = br * Z + (col % Z + (Z - s)) % Z;
            rows.push(row);
            assert forall|r: usize| r < (br + 1) * 96 implies (#[trigger] rows@.contains(r)
                <==> bm.h_bit(r as int, col as int)) by {
                if before.contains(r) {
                    let i = choose|i: int| 0 <= i < before.len() && before[i] == r;
                    assert(rows@[i] == r);
                }
                if r >= br * 96 {
                    assert(r as int / 96 == br);
                    lemma_unshift(r as int % 96, col as int % 96, shift as int);
                    if r == row {
                        assert(rows@[before.len() as int] == r);
                    }
                }
            }
        } else {
            assert forall|r: usize| r < (br + 1) * 96 implies (#[trigger] rows@.contains(r)
                <==> bm.h_bit(r as int, col as int)) by {
                if r >= br * 96 {
                    assert(r as int / 96 == br);
                }
            }
        }
    }
    rows
}

/// Expand a base matrix into a full sparse H matrix.
pub fn expand(bm: &BaseMatrix) -> (h: SparseH)
    requires
        bm.well_formed(),
    ensures
        h.expands(bm),
{
    let n_rows: usize = bm.n_rows * Z;
    let n_cols: usize = bm.n_cols * Z;
    let mut row_indices: Vec<Vec<usize>> = Vec::new();
    for row in 0..n_rows
        invariant
            bm.well_formed(),
            n_rows == bm.n_rows * Z,
            row_indices@.len() == row,
            forall|r: int|
                0 <= r < row ==> lists_row(bm, #[trigger] row_indices@[r]@, r, 2304),
    {
        let cols = expand_row(bm, row);
        row_indices.push(cols);
    }
    let mut col_indices: Vec<Vec<usize>> = Vec::new();
    for col in 0..n_cols
        invariant
            bm.well_formed(),
            n_rows == bm.n_rows * Z,
            n_cols == 2304,
            col_indices@.len() == col,
            forall|c: int|
                0 <= c < col ==> lists_col(
                    bm,
                    #[trigger] col_indices@[c]@,
                    c,
                    n_rows as nat,
                ),
    {
        let rows = expand_col(bm, col);
        col_indices.push(rows);
    }
    SparseH { n_rows, n_cols, row_indices, col_indices }
}

/// Rows and columns of an expansion tell of the same bits.
pub proof fn law_expansion_is_symmetric(bm: &BaseMatrix, h: &SparseH, r: usize, c: usize)
    requires
        h.expands(bm),
        r < h.n_rows,
        c < h.n_cols,
    ensures
        h.row_indices@[r as int]@.contains(c) <==> h.col_indices@[c as int]@.contains(r),
{
    assert(lists_row(bm, h.row_indices@[r as int]@, r as int, h.n_cols as nat));
    assert(lists_col(bm, h.col_indices@[c as int]@, c as int, h.n_rows as nat));
}

/// The parity part of every matrix is a double diagonal: each column behind the first has
/// two unshifted blocks, one below the other, and no other.
pub proof fn law_parity_part_is_a_double_diagonal(rate: LdpcRate, row: int, p: int)
    requires
        0 <= row < check_blocks(rate),
        1 <= p < check_blocks(rate),
    ensures
        ({
            let e = base_entry(rate, row, 24 - check_blocks(rate) + p);
            &&& row == p - 1 || row == p ==> e == 0
            &&& row != p - 1 && row != p ==> e == -1
        }),
{
}

/// The first parity column has three blocks: two with one shift, in the first and in the last
/// row, and an unshifted one between them. So the sum of all block rows leaves that one alone.
pub proof fn law_first_parity_column_has_three_blocks(rate: LdpcRate, row: int)
    requires
        0 <= row < check_blocks(rate),
    ensures
        ({
            let col = 24 - check_blocks(rate);
            let first = base_entry(rate, 0, col);
            let last = base_entry(rate, check_blocks(rate) - 1, col);
            &&& first == last
            &&& 0 < first < 96
            &&& 0 < middle_row(rate) < check_blocks(rate) - 1
            &&& base_entry(rate, middle_row(rate), col) == 0
            &&& row != 0 && row != middle_row(rate) && row != check_blocks(rate) - 1
                ==> base_entry(rate, row, col) == -1
        }),
{
}

} // verus!
