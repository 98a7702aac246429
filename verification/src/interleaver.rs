//! Bit interleaver between the LDPC code and the symbol mapper.
//!
//! The bits of a codeword are written into a matrix column by column, one column
//! per bit position of a symbol, the columns are permuted, and the matrix is read
//! row by row. This parts the reliability of an LDPC bit from the protection of
//! its position in a symbol.

use vstd::prelude::*;

use crate::profile::ConstellationType;

verus! {

/// The bits of a codeword, filled up to whole symbols.
pub open spec fn padded(n: int, m: int) -> int {
    (n + m - 1) / m * m
}

/// Number of bits after filling `n` bits up to whole symbols.
pub fn padded_cw_bits(n: usize, ct: ConstellationType) -> (padded_n: usize)
    requires
        padded(n as int, ct.spec_bits_per_sym() as int) <= usize::MAX,
    ensures
        padded_n == padded(n as int, ct.spec_bits_per_sym() as int),
        n <= padded_n < n + ct.spec_bits_per_sym(),
        padded_n % ct.spec_bits_per_sym() == 0,
{
    let m: usize = ct.bits_per_sym();
    let rest: usize = n % m;
    proof {
        lemma_padding(n as int, m as int);
    }
    if rest == 0 {
        n
    } else {
        (n - rest) + m
    }
}

proof fn lemma_padding(n: int, m: int)
    requires
        n >= 0,
        m >= 1,
    ensures
        n % m == 0 ==> padded(n, m) == n,
        n % m != 0 ==> padded(n, m) == n - n % m + m,
        padded(n, m) % m == 0,
        n % m <= n,
{
    let q = n / m;
    let r = n % m;
    vstd::arithmetic::div_mod::lemma_fundamental_div_mod(n, m);
    assert(q >= 0 && q * m == m * q && (q + 1) * m == q * m + m) by (nonlinear_arith)
        requires
            q == n / m,
            n >= 0,
            m >= 1,
    ;
    assert(q * m >= 0) by (nonlinear_arith)
        requires
            q >= 0,
            m >= 1,
    ;
    if r == 0 {
        vstd::arithmetic::div_mod::lemma_fundamental_div_mod_converse(n + m - 1, m, q, m - 1);
        vstd::arithmetic::div_mod::lemma_mod_multiples_basic(q, m);
    } else {
        vstd::arithmetic::div_mod::lemma_fundamental_div_mod_converse(n + m - 1, m, q + 1, r - 1);
        vstd::arithmetic::div_mod::lemma_mod_multiples_basic(q + 1, m);
    }
}

/// The column order of a constellation; each order is its own inverse.
pub open spec fn column_of(ct: ConstellationType, c: int) -> int {
    match ct {
        ConstellationType::Qpsk => c,
        ConstellationType::Psk8 => 2 - c,
        ConstellationType::Apsk16 => if c == 0 {
            3
        } else if c == 3 {
            0
        } else {
            c
        },
        ConstellationType::Apsk32 => c,
        ConstellationType::Apsk64 => 5 - c,
    }
}

/// The column order of a constellation.
fn column_permutation(ct: ConstellationType, c: usize) -> (p: usize)
    requires
        c < ct.spec_bits_per_sym(),
    ensures
        p == column_of(ct, c as int),
        p < ct.spec_bits_per_sym(),
{
    match ct {
        ConstellationType::Qpsk => c,
        ConstellationType::Psk8 => 2 - c,
        ConstellationType::Apsk16 => if c == 0 {
            3
        } else if c == 3 {
            0
        } else {
            c
        },
        ConstellationType::Apsk32 => c,
        ConstellationType::Apsk64 => 5 - c,
    }
}

/// Codeword bit that is sent at position `i` of `n`.
pub open spec fn source_of(n: int, ct: ConstellationType, i: int) -> int {
    let m = ct.spec_bits_per_sym() as int;
    column_of(ct, i % m) * (n / m) + i / m
}

/// Position at which codeword bit `k` of `n` is sent.
pub open spec fn target_of(n: int, ct: ConstellationType, k: int) -> int {
    let m = ct.spec_bits_per_sym() as int;
    (k % (n / m)) * m + column_of(ct, k / (n / m))
}

proof fn lemma_source(n: int, ct: ConstellationType, i: int)
    requires
        n % (ct.spec_bits_per_sym() as int) == 0,
        0 <= i < n,
    ensures
        n / (ct.spec_bits_per_sym() as int) > 0,
        0 <= i / (ct.spec_bits_per_sym() as int) < n / (ct.spec_bits_per_sym() as int),
        0 <= column_of(ct, i % (ct.spec_bits_per_sym() as int)) < ct.spec_bits_per_sym(),
        0 <= source_of(n, ct, i) < n,
        target_of(n, ct, source_of(n, ct, i)) == i,
{
    let m = ct.spec_bits_per_sym() as int;
    let rows = n / m;
    let row = i / m;
    let c = column_of(ct, i % m);
    vstd::arithmetic::div_mod::lemma_fundamental_div_mod(n, m);
    vstd::arithmetic::div_mod::lemma_fundamental_div_mod(i, m);
    assert(0 <= row < rows) by (nonlinear_arith)
        requires
            0 <= i < n,
            n == m * rows,
            i == m * row + i % m,
            0 <= i % m < m,
    ;
    assert(0 <= c * rows + row < m * rows) by (nonlinear_arith)
        requires
            0 <= c < m,
            0 <= row < rows,
    ;
    vstd::arithmetic::div_mod::lemma_fundamental_div_mod_converse(
        c * rows + row,
        rows,
        c,
        row,
    );
    assert(row * m == m * row) by (nonlinear_arith);
}

proof fn lemma_target(n: int, ct: ConstellationType, k: int)
    requires
        n % (ct.spec_bits_per_sym() as int) == 0,
        0 <= k < n,
    ensures
        n / (ct.spec_bits_per_sym() as int) > 0,
        0 <= k / (n / (ct.spec_bits_per_sym() as int)) < ct.spec_bits_per_sym(),
        0 <= target_of(n, ct, k) < n,
        source_of(n, ct, target_of(n, ct, k)) == k,
{
    let m = ct.spec_bits_per_sym() as int;
    let rows = n / m;
    vstd::arithmetic::div_mod::lemma_fundamental_div_mod(n, m);
    assert(rows > 0) by (nonlinear_arith)
        requires
            n == m * rows,
            n > 0,
            m > 0,
    ;
    let c = k / rows;
    let row = k % rows;
    vstd::arithmetic::div_mod::lemma_fundamental_div_mod(k, rows);
    assert(0 <= c < m) by (nonlinear_arith)
        requires
            0 <= k < n,
            n == m * rows,
            k == rows * c + row,
            0 <= row < rows,
    ;
    let p = column_of(ct, c);
    assert(0 <= row * m + p < m * rows) by (nonlinear_arith)
        requires
            0 <= p < m,
            0 <= row < rows,
    ;
    vstd::arithmetic::div_mod::lemma_fundamental_div_mod_converse(row * m + p, m, row, p);
    assert(c * rows == rows * c) by (nonlinear_arith);
}

/// The interleaving table of `n` bits: position `i` takes codeword bit `table[i]`.
pub open spec fn interleaving(n: int, ct: ConstellationType) -> Seq<usize> {
    Seq::new(n as nat, |i: int| source_of(n, ct, i) as usize)
}

/// The deinterleaving table of `n` bits.
pub open spec fn deinterleaving(n: int, ct: ConstellationType) -> Seq<usize> {
    Seq::new(n as nat, |k: int| target_of(n, ct, k) as usize)
}

/// Interleaving table: `interleaved[i] = input[table[i]]`.
pub fn interleave_table(n: usize, ct: ConstellationType) -> (table: Vec<usize>)
    requires
        n % ct.spec_bits_per_sym() == 0,
    ensures
        table@ == interleaving(n as int, ct),
        forall|i: int| 0 <= i < n ==> #[trigger] table@[i] < n,
{
    let m: usize = ct.bits_per_sym();
    let rows: usize = n / m;
    let mut table: Vec<usize> = Vec::new();
    let mut i: usize = 0;
    while i < n
        invariant
            i <= n,
            m == ct.spec_bits_per_sym(),
            n % m == 0,
            rows == n / m,
            table@.len() == i,
            forall|j: int|
                0 <= j < i ==> #[trigger] table@[j] < n && table@[j] == source_of(n as int, ct, j),
        decreases n - i,
    {
        proof {
            lemma_source(n as int, ct, i as int);
        }
        let c: usize = column_permutation(ct, i % m);
        assert(0 <= c * rows <= c * rows + i / m);
        table.push(c * rows + i / m);
        i = i + 1;
    }
    assert(table@ =~= interleaving(n as int, ct));
    table
}

/// Deinterleaving table, the inverse of the interleaving table.
pub fn deinterleave_table(n: usize, ct: ConstellationType) -> (table: Vec<usize>)
    requires
        n % ct.spec_bits_per_sym() == 0,
    ensures
        table@ == deinterleaving(n as int, ct),
        forall|k: int| 0 <= k < n ==> #[trigger] table@[k] < n,
{
    let forward = interleave_table(n, ct);
    let mut table: Vec<usize> = vec![0; n];
    let mut i: usize = 0;
    while i < n
        invariant
            i <= n,
            n % ct.spec_bits_per_sym() == 0,
            forward@ == interleaving(n as int, ct),
            forall|j: int| 0 <= j < n ==> #[trigger] forward@[j] < n,
            table@.len() == n,
            forall|k: int|
                0 <= k < n && 0 <= target_of(n as int, ct, k) < i ==> #[trigger] table@[k]
                    == target_of(n as int, ct, k),
        decreases n - i,
    {
        let k: usize = forward[i];
        proof {
            lemma_source(n as int, ct, i as int);
            assert(k == source_of(n as int, ct, i as int));
            assert forall|j: int| 0 <= j < n && target_of(n as int, ct, j) == i implies j == k by {
                lemma_target(n as int, ct, j);
            }
        }
        table[k] = i;
        i = i + 1;
    }
    proof {
        assert forall|k: int| 0 <= k < n implies #[trigger] table@[k] == target_of(
            n as int,
            ct,
            k,
        ) && table@[k] < n by {
            lemma_target(n as int, ct, k);
        }
    }
    assert(table@ =~= deinterleaving(n as int, ct));
    table
}

/// A sequence reordered by a table: item `i` is `input[table[i]]`.
pub open spec fn permuted<T>(input: Seq<T>, table: Seq<usize>) -> Seq<T> {
    Seq::new(table.len(), |i: int| input[table[i] as int])
}

/// Reorder values, bits or soft values alike, by a table.
pub fn apply_permutation<T: Copy>(input: &[T], table: &[usize]) -> (out: Vec<T>)
    requires
        input@.len() == table@.len(),
        forall|i: int| 0 <= i < table@.len() ==> #[trigger] table@[i] < input@.len(),
    ensures
        out@ == permuted(input@, table@),
{
    let mut out: Vec<T> = Vec::new();
    let mut i: usize = 0;
    while i < table.len()
        invariant
            i <= table@.len(),
            input@.len() == table@.len(),
            forall|i: int| 0 <= i < table@.len() ==> #[trigger] table@[i] < input@.len(),
            out@.len() == i,
            forall|j: int| 0 <= j < i ==> #[trigger] out@[j] == input@[table@[j] as int],
        decreases table@.len() - i,
    {
        out.push(input[table[i]]);
        i = i + 1;
    }
    assert(out@ =~= permuted(input@, table@));
    out
}

/// Interleaving sends every bit exactly once: the table is a bijection, and the
/// deinterleaving table is its inverse.
pub proof fn law_interleaving_is_a_bijection(n: int, ct: ConstellationType, i: int)
    requires
        0 <= n <= usize::MAX,
        n % (ct.spec_bits_per_sym() as int) == 0,
        0 <= i < n,
    ensures
        0 <= interleaving(n, ct)[i] < n,
        0 <= deinterleaving(n, ct)[i] < n,
        deinterleaving(n, ct)[interleaving(n, ct)[i] as int] == i,
        interleaving(n, ct)[deinterleaving(n, ct)[i] as int] == i,
{
    lemma_source(n, ct, i);
    lemma_target(n, ct, i);
}

/// Deinterleaving undoes interleaving, and interleaving undoes deinterleaving.
pub proof fn law_deinterleaving_undoes_interleaving<T>(data: Seq<T>, ct: ConstellationType)
    requires
        data.len() <= usize::MAX,
        data.len() % (ct.spec_bits_per_sym() as nat) == 0,
    ensures
        ({
            let n = data.len() as int;
            &&& permuted(permuted(data, interleaving(n, ct)), deinterleaving(n, ct)) == data
            &&& permuted(permuted(data, deinterleaving(n, ct)), interleaving(n, ct)) == data
        }),
{
    let n = data.len() as int;
    let fwd = interleaving(n, ct);
    let inv = deinterleaving(n, ct);
    assert forall|i: int| 0 <= i < n implies 0 <= #[trigger] fwd[i] < n && 0 <= inv[i] < n
        && inv[fwd[i] as int] == i && fwd[inv[i] as int] == i by {
        law_interleaving_is_a_bijection(n, ct, i);
    }
    assert(permuted(permuted(data, fwd), inv) =~= data) by {
        assert forall|i: int| 0 <= i < n implies permuted(permuted(data, fwd), inv)[i]
            == data[i] by {
            assert(fwd[i] < n);
        }
    }
    assert(permuted(permuted(data, inv), fwd) =~= data) by {
        assert forall|i: int| 0 <= i < n implies permuted(permuted(data, inv), fwd)[i]
            == data[i] by {
            assert(fwd[i] < n);
        }
    }
}

/// A codeword is written in columns and read in rows: symbol `row` takes one bit from each
/// of the columns, the bit at `row` of it. The columns come in their order for QPSK and
/// 32-APSK and in reverse for 8PSK and 64-APSK; for 16-APSK the first and the last change
/// places.
pub proof fn law_symbols_take_one_bit_of_each_column(
    rows: int,
    ct: ConstellationType,
    row: int,
    c: int,
)
    requires
        0 <= row < rows,
        0 <= c < ct.spec_bits_per_sym(),
        rows * ct.spec_bits_per_sym() <= usize::MAX,
    ensures
        ({
            let m = ct.spec_bits_per_sym() as int;
            let column = match ct {
                ConstellationType::Qpsk => c,
                ConstellationType::Psk8 => m - 1 - c,
                ConstellationType::Apsk16 => if c == 0 || c == m - 1 {
                    m - 1 - c
                } else {
                    c
                },
                ConstellationType::Apsk32 => c,
                ConstellationType::Apsk64 => m - 1 - c,
            };
            &&& 0 <= row * m + c < rows * m
            &&& interleaving(rows * m, ct)[row * m + c] == column * rows + row
            &&& deinterleaving(rows * m, ct)[column * rows + row] == row * m + c
        }),
{
    let m = ct.spec_bits_per_sym() as int;
    let n = rows * m;
    let i = row * m + c;
    assert(0 <= i < n) by (nonlinear_arith)
        requires
            0 <= row < rows,
            0 <= c < m,
            i == row * m + c,
            n == rows * m,
    ;
    vstd::arithmetic::div_mod::lemma_fundamental_div_mod_converse(i, m, row, c);
    assert(rows * m == m * rows) by (nonlinear_arith);
    vstd::arithmetic::div_mod::lemma_div_multiples_vanish(rows, m);
    vstd::arithmetic::div_mod::lemma_mod_multiples_basic(rows, m);
    lemma_source(n, ct, i);
    let k = source_of(n, ct, i);
    lemma_target(n, ct, k);
}

/// Filling up takes a codeword to the next whole symbol, and no further.
pub proof fn law_filling_stops_at_a_whole_symbol(n: int, m: int)
    requires
        n >= 0,
        m >= 1,
    ensures
        n <= padded(n, m) < n + m,
        padded(n, m) % m == 0,
{
    lemma_padding(n, m);
}

} // verus!
