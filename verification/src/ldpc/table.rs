//! Systematic LDPC encoding with a stored parity matrix.
//!
//! A table holds `k` and `n` as little-endian 32-bit integers and then `n - k` rows
//! of the parity matrix, most significant bit first:
//! `parity[i] = xor over j of (P[i][j] and info[j])`.

use vstd::prelude::*;

use crate::bits;

verus! {

/// The codes with a table.
#[derive(Clone, Copy, Debug, PartialEq, Eq, Structural)]
pub enum LdpcCode {
    /// Rate 3/4, (960, 720).
    Rate34,
    /// Rate 1/2, (1440, 720).
    Rate12,
}

impl LdpcCode {
    /// Codeword length.
    pub open spec fn spec_n(self) -> int {
        match self {
            LdpcCode::Rate34 => 960,
            LdpcCode::Rate12 => 1440,
        }
    }

    /// Info bits per codeword.
    pub fn k(&self) -> (k: usize)
        ensures
            k == 720,
    {
        720
    }

    /// Codeword length.
    pub fn n(&self) -> (n: usize)
        ensures
            n == self.spec_n(),
    {
        match self {
            LdpcCode::Rate34 => 960,
            LdpcCode::Rate12 => 1440,
        }
    }

    /// Numerator of the rate.
    pub fn rate_num(&self) -> (num: usize)
        ensures
            num == if *self == LdpcCode::Rate34 {
                3usize
            } else {
                1usize
            },
    {
        match self {
            LdpcCode::Rate34 => 3,
            LdpcCode::Rate12 => 1,
        }
    }

    /// Denominator of the rate.
    pub fn rate_den(&self) -> (den: usize)
        ensures
            den == if *self == LdpcCode::Rate34 {
                4usize
            } else {
                2usize
            },
    {
        match self {
            LdpcCode::Rate34 => 4,
            LdpcCode::Rate12 => 2,
        }
    }
}

/// The integer that four bytes write, least significant first.
pub open spec fn little_endian(data: Seq<u8>, at: int) -> int {
    data[at] + data[at + 1] * 0x100 + data[at + 2] * 0x1_0000 + data[at + 3] * 0x100_0000
}

/// Some bytes are a table of a code.
pub open spec fn is_table(data: Seq<u8>, code: LdpcCode) -> bool {
    &&& data.len() >= 8 + (code.spec_n() - 720) * 90
    &&& little_endian(data, 0) == 720
    &&& little_endian(data, 4) == code.spec_n()
}

/// Bit of the parity matrix in a table.
pub open spec fn table_bit(data: Seq<u8>, i: int, j: int) -> u8 {
    bits::bit_of(data[8 + i * 90 + j / 8], j % 8)
}

fn read_little_endian(data: &[u8], at: usize) -> (x: u32)
    requires
        at + 4 <= data@.len(),
    ensures
        x == little_endian(data@, at as int),
{
    data[at] as u32 + data[at + 1] as u32 * 0x100 + data[at + 2] as u32 * 0x1_0000 + data[at
        + 3] as u32 * 0x100_0000
}

/// The parity matrix of a table, if the table is one of the code.
fn load_parity_matrix(code: LdpcCode, data: &[u8]) -> (matrix: Option<Vec<Vec<u8>>>)
    ensures
        matrix is Some <==> is_table(data@, code),
        matrix matches Some(p) ==> {
            &&& p@.len() == code.spec_n() - 720
            &&& forall|i: int| 0 <= i < p@.len() ==> is_row((#[trigger] p@[i])@, data@, i)
        },
{
    let rows: usize = code.n() - 720;
    if data.len() < 8 + rows * 90 {
        return None;
    }
    if read_little_endian(data, 0) != 720 || read_little_endian(data, 4) != code.n() as u32 {
        return None;
    }
    let mut matrix: Vec<Vec<u8>> = Vec::new();
    let mut i: usize = 0;
    while i < rows
        invariant
            i <= rows <= 720,
            data@.len() >= 8 + rows * 90,
            matrix@.len() == i,
            forall|r: int| 0 <= r < i ==> is_row((#[trigger] matrix@[r])@, data@, r),
        decreases rows - i,
    {
        let mut row: Vec<u8> = Vec::new();
        let mut j: usize = 0;
        while j < 720
            invariant
                j <= 720,
                i < rows <= 720,
                data@.len() >= 8 + rows * 90,
                row@.len() == j,
                forall|c: int|
                    0 <= c < j ==> #[trigger] row@[c] == table_bit(data@, i as int, c),
            decreases 720 - j,
        {
            row.push(bits::bit_at(data[8 + i * 90 + j / 8], j % 8));
            j = j + 1;
        }
        matrix.push(row);
        i = i + 1;
    }
    Some(matrix)
}

/// A row of the parity matrix of a table.
pub open spec fn is_row(row: Seq<u8>, data: Seq<u8>, i: int) -> bool {
    &&& row.len() == 720
    &&& forall|j: int| 0 <= j < 720 ==> #[trigger] row[j] == table_bit(data, i, j)
}

/// `xor` of the products of a row and info bits, over the first `n` positions.
pub open spec fn parity_of(row: Seq<u8>, info: Seq<u8>, n: int) -> u8
    decreases n,
{
    if n <= 0 {
        0
    } else {
        parity_of(row, info, n - 1) ^ (row[n - 1] & info[n - 1])
    }
}

/// Encoder with the parity matrix of a table.
pub struct LdpcEncoder {
    pub code: LdpcCode,
    pub parity_matrix: Vec<Vec<u8>>,
}

impl LdpcEncoder {
    /// Rows of the parity matrix.
    pub open spec fn rows(&self) -> Seq<Seq<u8>> {
        Seq::new(self.parity_matrix@.len(), |i: int| self.parity_matrix@[i]@)
    }

    /// There is a row for each parity bit.
    pub open spec fn well_formed(&self) -> bool {
        &&& self.rows().len() == self.code.spec_n() - 720
        &&& forall|i: int| 0 <= i < self.rows().len() ==> (#[trigger] self.rows()[i]).len() == 720
    }

    /// The codeword of one block of info bits.
    pub open spec fn codeword(&self, info: Seq<u8>) -> Seq<u8> {
        Seq::new(
            self.code.spec_n() as nat,
            |i: int|
                if i < 720 {
                    info[i]
                } else {
                    parity_of(self.rows()[i - 720], info, 720)
                },
        )
    }

    /// Encoder for a code; `None` where the bytes are no table of it.
    pub fn new(code: LdpcCode, table: &[u8]) -> (enc: Option<Self>)
        ensures
            enc is Some <==> is_table(table@, code),
            enc matches Some(e) ==> {
                &&& e.well_formed()
                &&& e.code == code
                &&& forall|i: int| 0 <= i < e.rows().len() ==> is_row(#[trigger] e.rows()[i], table@, i)
            },
    {
        match load_parity_matrix(code, table) {
            Some(parity_matrix) => {
                let enc = LdpcEncoder { code, parity_matrix };
                assert forall|i: int| 0 <= i < enc.rows().len() implies is_row(
                    #[trigger] enc.rows()[i],
                    table@,
                    i,
                ) by {
                    assert(is_row(parity_matrix@[i]@, table@, i));
                }
                Some(enc)
            },
            None => None,
        }
    }

    /// Info bits per codeword.
    pub fn k(&self) -> (k: usize)
        ensures
            k == 720,
    {
        self.code.k()
    }

    /// Codeword length.
    pub fn n(&self) -> (n: usize)
        ensures
            n == self.code.spec_n(),
    {
        self.code.n()
    }

    /// Encode one block of info bits.
    pub fn encode_block(&self, info: &[u8]) -> (cw: Vec<u8>)
        requires
            self.well_formed(),
            info@.len() == 720,
        ensures
            cw@ == self.codeword(info@),
    {
        let mut cw: Vec<u8> = Vec::new();
        cw.extend_from_slice(info);
        assert(cw@ =~= info@);
        let mut i: usize = 0;
        while i < self.parity_matrix.len()
            invariant
                i <= self.parity_matrix@.len(),
                self.parity_matrix@.len() == self.code.spec_n() - 720,
                self.well_formed(),
                info@.len() == 720,
                cw@.len() == 720 + i,
                forall|j: int| 0 <= j < cw@.len() ==> #[trigger] cw@[j] == self.codeword(info@)[j],
            decreases self.parity_matrix@.len() - i,
        {
            let ghost row = self.rows()[i as int];
            let mut acc: u8 = 0;
            let mut j: usize = 0;
            while j < 720
                invariant
                    j <= 720,
                    i < self.parity_matrix@.len(),
                    row == self.parity_matrix@[i as int]@,
                    row.len() == 720,
                    info@.len() == 720,
                    acc == parity_of(row, info@, j as int),
                decreases 720 - j,
            {
                acc = acc ^ (self.parity_matrix[i][j] & info[j]);
                j = j + 1;
            }
            cw.push(acc);
            i = i + 1;
        }
        assert(cw@ =~= self.codeword(info@));
        cw
    }

    /// Info bits filled up with zeros to whole blocks.
    pub open spec fn filled(info: Seq<u8>) -> Seq<u8> {
        Seq::new(
            ((info.len() + 719) / 720 * 720) as nat,
            |i: int|
                if i < info.len() {
                    info[i]
                } else {
                    0u8
                },
        )
    }

    /// The codewords of all blocks, one behind the other.
    pub open spec fn codewords(&self, info: Seq<u8>) -> Seq<u8> {
        let n = self.code.spec_n();
        Seq::new(
            ((info.len() + 719) / 720 * n) as nat,
            |p: int|
                self.codeword(
                    Self::filled(info).subrange(p / n * 720, p / n * 720 + 720),
                )[p % n],
        )
    }

    /// Encode any number of info bits; the last block is filled up with zeros.
    pub fn encode_padded(&self, info: &[u8]) -> (out: Vec<u8>)
        requires
            self.well_formed(),
            info@.len() + 719 <= usize::MAX,
            (info@.len() + 719) / 720 * self.code.spec_n() <= usize::MAX,
        ensures
            out@ == self.codewords(info@),
    {
        let k: usize = self.k();
        let n: usize = self.n();
        let blocks: usize = (info.len() + k - 1) / k;
        let mut filled: Vec<u8> = Vec::new();
        filled.extend_from_slice(info);
        assert(blocks * 720 <= blocks * n) by (nonlinear_arith)
            requires
                n >= 720,
                blocks >= 0,
        ;
        while filled.len() < blocks * k
            invariant
                k == 720,
                blocks == (info@.len() + 719) / 720,
                blocks * 720 <= usize::MAX,
                info@.len() <= filled@.len() <= blocks * k,
                filled@ =~= Self::filled(info@).take(filled@.len() as int),
            decreases blocks * k - filled@.len(),
        {
            filled.push(0);
        }
        assert(filled@ =~= Self::filled(info@));
        let mut out: Vec<u8> = Vec::new();
        let mut b: usize = 0;
        while b < blocks
            invariant
                b <= blocks,
                k == 720,
                n == self.code.spec_n(),
                blocks == (info@.len() + 719) / 720,
                self.well_formed(),
                filled@ == Self::filled(info@),
                filled.len() == blocks * 720,
                out@.len() == b * n,
                forall|p: int| 0 <= p < out@.len() ==> #[trigger] out@[p] == self.codewords(info@)[p],
            decreases blocks - b,
        {
            let ghost before = out@;
            assert(b * 720 + 720 <= blocks * 720);
            let block = vstd::slice::slice_subrange(filled.as_slice(), b * k, b * k + k);
            let mut cw = self.encode_block(block);
            let ghost word = cw@;
            out.append(&mut cw);
            proof {
                assert((b + 1) * n == b * n + n) by (nonlinear_arith);
                assert((b + 1) * n <= blocks * n) by (nonlinear_arith)
                    requires
                        b + 1 <= blocks,
                        n >= 0,
                ;
                assert forall|p: int| 0 <= p < out@.len() implies #[trigger] out@[p]
                    == self.codewords(info@)[p] by {
                    if p < before.len() {
                        assert(out@[p] == before[p]);
                    } else {
                        vstd::arithmetic::div_mod::lemma_fundamental_div_mod_converse(
                            p,
                            n as int,
                            b as int,
                            p - b * n,
                        );
                        assert(out@[p] == word[p - b * n]);
                    }
                }
            }
            b = b + 1;
        }
        assert(out@ =~= self.codewords(info@));
        out
    }
}

/// Sums of masked bytes.
proof fn lemma_byte_sums(p: u8, q: u8, r: u8, x: u8, y: u8)
    by (bit_vector)
    ensures
        (p ^ q) ^ (r & (x ^ y)) == (p ^ (r & x)) ^ (q ^ (r & y)),
        0u8 ^ 0 == 0,
        p ^ (r & 0) == p,
        r == 0 || r == 1 ==> 0 ^ (r & 1) == r,
{
}

proof fn lemma_parity_of_zeros(row: Seq<u8>, info: Seq<u8>, n: int)
    requires
        n <= info.len(),
        forall|i: int| 0 <= i < info.len() ==> info[i] == 0,
    ensures
        parity_of(row, info, n) == 0,
    decreases n,
{
    if n > 0 {
        lemma_parity_of_zeros(row, info, n - 1);
        lemma_byte_sums(0, 0, row[n - 1], 0, 0);
    }
}

/// Zero info bits give a zero codeword.
pub proof fn law_zero_info_gives_zero_codeword(enc: LdpcEncoder, info: Seq<u8>, i: int)
    requires
        info.len() == 720,
        forall|j: int| 0 <= j < 720 ==> info[j] == 0,
        0 <= i < enc.code.spec_n(),
    ensures
        enc.codeword(info)[i] == 0,
{
    if i >= 720 {
        lemma_parity_of_zeros(enc.rows()[i - 720], info, 720);
    }
}

/// The info bits open their codeword.
pub proof fn law_codeword_opens_with_the_info(enc: LdpcEncoder, info: Seq<u8>)
    requires
        info.len() == 720,
    ensures
        enc.codeword(info).take(720) == info,
{
    assert(enc.codeword(info).take(720) =~= info);
}

/// Padding adds zeros up to the end of the last block, and nothing where the bits fill
/// their blocks.
pub proof fn law_padding_fills_the_last_block(info: Seq<u8>)
    ensures
        ({
            let filled = LdpcEncoder::filled(info);
            &&& filled.len() % 720 == 0
            &&& info.len() <= filled.len() < info.len() + 720
            &&& filled.take(info.len() as int) == info
            &&& forall|i: int| info.len() <= i < filled.len() ==> #[trigger] filled[i] == 0
            &&& info.len() % 720 == 0 ==> filled == info
        }),
{
    let filled = LdpcEncoder::filled(info);
    assert(filled.take(info.len() as int) =~= info);
    if info.len() % 720 == 0 {
        assert(filled =~= info);
    }
}

/// Each block of the encoding is the codeword of its piece of the padded bits: there are as
/// many as pieces, and none for no bits.
pub proof fn law_padded_blocks_are_codewords(enc: LdpcEncoder, info: Seq<u8>, b: int)
    ensures
        ({
            let n = enc.code.spec_n() as int;
            let blocks = (info.len() + 719) as int / 720;
            let piece = LdpcEncoder::filled(info).subrange(b * 720, (b + 1) * 720);
            &&& enc.codewords(info).len() == blocks * n
            &&& info.len() == 0 ==> enc.codewords(info) == Seq::<u8>::empty()
            &&& 0 <= b < blocks ==> enc.codewords(info).subrange(b * n, (b + 1) * n)
                == enc.codeword(piece)
        }),
{
    let n = enc.code.spec_n() as int;
    let blocks = (info.len() + 719) as int / 720;
    assert(blocks * n >= 0) by (nonlinear_arith)
        requires
            blocks >= 0,
            n >= 0,
    ;
    if info.len() == 0 {
        assert(blocks * n == 0) by (nonlinear_arith)
            requires
                blocks == 0,
        ;
        assert(enc.codewords(info) =~= Seq::<u8>::empty());
    }
    if 0 <= b < blocks {
        let piece = LdpcEncoder::filled(info).subrange(b * 720, (b + 1) * 720);
        let got = enc.codewords(info).subrange(b * n, (b + 1) * n);
        assert(0 <= b * n && (b + 1) * n == b * n + n && (b + 1) * n <= blocks * n)
            by (nonlinear_arith)
            requires
                0 <= b < blocks,
                n >= 0,
        ;
        assert forall|i: int| 0 <= i < n implies got[i] == enc.codeword(piece)[i] by {
            vstd::arithmetic::div_mod::lemma_fundamental_div_mod_converse(b * n + i, n, b, i);
            assert((b * n + i) / n == b && (b * n + i) % n == i);
        }
        assert(got =~= enc.codeword(piece));
    }
}

proof fn lemma_parity_is_linear(row: Seq<u8>, a: Seq<u8>, b: Seq<u8>, c: Seq<u8>, n: int)
    requires
        forall|j: int| 0 <= j < n ==> #[trigger] c[j] == a[j] ^ b[j],
    ensures
        parity_of(row, c, n) == parity_of(row, a, n) ^ parity_of(row, b, n),
    decreases n,
{
    if n > 0 {
        lemma_parity_is_linear(row, a, b, c, n - 1);
        let (p, q) = (parity_of(row, a, n - 1), parity_of(row, b, n - 1));
        let (r, x, y) = (row[n - 1], a[n - 1], b[n - 1]);
        assert(c[n - 1] == x ^ y);
        lemma_byte_sums(p, q, r, x, y);
    } else {
        lemma_byte_sums(0, 0, 0, 0, 0);
    }
}

/// The code is linear: the codeword of a sum of info bits is the sum of the codewords.
pub proof fn law_table_code_is_linear(
    enc: LdpcEncoder,
    a: Seq<u8>,
    b: Seq<u8>,
    c: Seq<u8>,
    i: int,
)
    requires
        a.len() == 720,
        b.len() == 720,
        c.len() == 720,
        forall|j: int| 0 <= j < 720 ==> #[trigger] c[j] == a[j] ^ b[j],
        0 <= i < enc.code.spec_n(),
    ensures
        enc.codeword(c)[i] == enc.codeword(a)[i] ^ enc.codeword(b)[i],
{
    if i >= 720 {
        lemma_parity_is_linear(enc.rows()[i - 720], a, b, c, 720);
    }
}

proof fn lemma_single_bit(row: Seq<u8>, info: Seq<u8>, j: int, n: int)
    requires
        0 <= j,
        forall|i: int| 0 <= i < n ==> #[trigger] info[i] == if i == j {
            1u8
        } else {
            0
        },
        0 <= j < n ==> row[j] == 0 || row[j] == 1,
    ensures
        parity_of(row, info, n) == if j < n {
            row[j]
        } else {
            0
        },
    decreases n,
{
    if n > 0 {
        lemma_single_bit(row, info, j, n - 1);
        assert(info[n - 1] == 0 || info[n - 1] == 1);
        lemma_byte_sums(parity_of(row, info, n - 1), 0, row[n - 1], 0, 0);
    }
}

/// A single info bit shows its column of the table: parity bit `i` of it is the bit of the
/// table in row `i` and column `j`.
pub proof fn law_single_bit_shows_its_column(
    enc: LdpcEncoder,
    table: Seq<u8>,
    info: Seq<u8>,
    i: int,
    j: int,
)
    requires
        is_row(enc.rows()[i], table, i),
        0 <= i < enc.code.spec_n() - 720,
        0 <= j < 720,
        info.len() == 720,
        forall|x: int| 0 <= x < 720 ==> #[trigger] info[x] == if x == j {
            1u8
        } else {
            0
        },
    ensures
        enc.codeword(info)[720 + i] == bits::bit_of(table[8 + 90 * i + j / 8], j % 8),
{
    bits::lemma_bit_is_binary(table[8 + i * 90 + j / 8], j % 8);
    lemma_single_bit(enc.rows()[i], info, j, 720);
}

} // verus!
