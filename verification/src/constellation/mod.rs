//! Constellations: QPSK and 8PSK with Gray labels, 16-APSK (4, 12), 32-APSK
//! (4, 12, 16) and 64-APSK (4, 12, 20, 28). The mean energy of the points is 1.

use vstd::arithmetic::power2;
use vstd::prelude::*;

use crate::constellation::ring::root;
use crate::ratio::Ratio;
use crate::symbol;
use crate::symbol::{Symbol, ONE};

pub mod apart;
pub mod apsk;
pub mod ring;

verus! {

/// A constellation with bit labels.
#[derive(Debug)]
pub struct Constellation {
    pub points: Vec<Symbol>,
    pub bits_per_sym: usize,
    /// `bit_map[label][position]`, most significant bit first.
    pub bit_map: Vec<Vec<u8>>,
}

/// Bit `k` of a label of `m` bits, counted from the most significant one.
pub open spec fn label_bit(label: int, m: int, k: int) -> u8 {
    (label / (power2::pow2((m - 1 - k) as nat) as int) % 2) as u8
}

/// The bits of a label, most significant first.
pub open spec fn label_bits(label: int, m: int) -> Seq<u8> {
    Seq::new(m as nat, |k: int| label_bit(label, m, k))
}

/// The label that the low bits of some bytes write, most significant first.
pub open spec fn label_of(bits: Seq<u8>) -> int
    decreases bits.len(),
{
    if bits.len() == 0 {
        0
    } else {
        2 * label_of(bits.drop_last()) + bits.last() % 2
    }
}

/// The symbols that bits map to, `m` bits each.
pub open spec fn mapped(points: Seq<Symbol>, m: int, bits: Seq<u8>) -> Seq<Symbol> {
    Seq::new(
        (bits.len() / m as nat) as nat,
        |i: int| points[label_of(bits.subrange(i * m, i * m + m))],
    )
}

/// Label `k` has the nearest point to `y`, and the lowest label among the nearest.
pub open spec fn is_nearest(points: Seq<Symbol>, y: Symbol, k: int) -> bool {
    &&& 0 <= k < points.len()
    &&& forall|j: int|
        0 <= j < points.len() ==> symbol::distance2(y, points[k]) <= symbol::distance2(
            y,
            #[trigger] points[j],
        )
    &&& forall|j: int|
        0 <= j < k ==> symbol::distance2(y, points[k]) < symbol::distance2(
            y,
            #[trigger] points[j],
        )
}

/// The label of the nearest point to `y`, the lowest where several are as near.
pub open spec fn nearest_of(points: Seq<Symbol>, y: Symbol) -> int {
    choose|k: int| is_nearest(points, y, k)
}

/// The labels decided for received symbols.
pub open spec fn decided(points: Seq<Symbol>, y: Seq<Symbol>) -> Seq<usize> {
    Seq::new(y.len(), |i: int| nearest_of(points, y[i]) as usize)
}

/// There is one nearest label.
pub proof fn lemma_nearest_is_unique(points: Seq<Symbol>, y: Symbol, j: int, k: int)
    requires
        is_nearest(points, y, j),
        is_nearest(points, y, k),
    ensures
        j == k,
{
    assert(symbol::distance2(y, points[j]) <= symbol::distance2(y, points[k]));
    assert(symbol::distance2(y, points[k]) <= symbol::distance2(y, points[j]));
}

/// The bits of labels, `m` bits each.
pub open spec fn unmapped(labels: Seq<usize>, m: int) -> Seq<u8> {
    Seq::new(
        labels.len() * m as nat,
        |p: int| label_bit(labels[p / m] as int, m, p % m),
    )
}

/// No two labels have the same point.
pub open spec fn distinct(points: Seq<Symbol>) -> bool {
    forall|i: int, j: int|
        0 <= i < points.len() && 0 <= j < points.len() && i != j ==> points[i] != points[j]
}

/// `2^m` for the sizes in use.
proof fn lemma_size(m: int)
    requires
        1 <= m <= 6,
    ensures
        power2::pow2(m as nat) == (if m == 1 {
            2int
        } else if m == 2 {
            4
        } else if m == 3 {
            8
        } else if m == 4 {
            16
        } else if m == 5 {
            32
        } else {
            64
        }),
{
    power2::lemma2_to64();
}

/// A label of some bits is below `2^length`.
pub proof fn lemma_label_bound(bits: Seq<u8>)
    ensures
        0 <= label_of(bits) < power2::pow2(bits.len()),
    decreases bits.len(),
{
    power2::lemma2_to64();
    if bits.len() > 0 {
        lemma_label_bound(bits.drop_last());
        power2::lemma_pow2_unfold(bits.len());
    }
}

/// The bits of a written label are the low bits that wrote it.
pub proof fn law_label_bits_undo_label(bits: Seq<u8>, k: int)
    requires
        0 <= k < bits.len(),
    ensures
        label_bit(label_of(bits), bits.len() as int, k) == bits[k] % 2,
    decreases bits.len(),
{
    let m = bits.len() as int;
    let label = label_of(bits);
    let front = label_of(bits.drop_last());
    power2::lemma2_to64();
    if k == m - 1 {
        assert(label / 1 == label);
    } else {
        law_label_bits_undo_label(bits.drop_last(), k);
        lemma_label_bound(bits);
        let p = power2::pow2((m - 2 - k) as nat) as int;
        power2::lemma_pow2_pos((m - 2 - k) as nat);
        power2::lemma_pow2_unfold((m - 1 - k) as nat);
        assert(label / (2 * p) == front / p) by {
            vstd::arithmetic::div_mod::lemma_div_denominator(label, 2, p);
            assert(label / 2 == front);
        }
    }
}

/// Writing the bits of a label gives the label back.
pub proof fn law_label_undoes_label_bits(label: int, m: int)
    requires
        0 <= m,
        0 <= label < power2::pow2(m as nat),
    ensures
        label_of(label_bits(label, m)) == label,
    decreases m,
{
    power2::lemma2_to64();
    if m > 0 {
        let bits = label_bits(label, m);
        let half = label / 2;
        power2::lemma_pow2_unfold(m as nat);
        law_label_undoes_label_bits(half, m - 1);
        assert(bits.drop_last() =~= label_bits(half, m - 1)) by {
            assert forall|k: int| 0 <= k < m - 1 implies label_bit(label, m, k) == label_bit(
                half,
                m - 1,
                k,
            ) by {
                let p = power2::pow2((m - 2 - k) as nat) as int;
                power2::lemma_pow2_pos((m - 2 - k) as nat);
                power2::lemma_pow2_unfold((m - 1 - k) as nat);
                vstd::arithmetic::div_mod::lemma_div_denominator(label, 2, p);
            }
        }
        assert(label / 1 == label);
        assert(bits.last() == label % 2);
    } else {
        assert(label_bits(label, m).len() == 0);
    }
}

impl Constellation {
    /// There are 1 to 6 bits per symbol, a point in reach for each label, and the
    /// bit table is that of the labels.
    pub open spec fn well_formed(&self) -> bool {
        &&& 1 <= self.bits_per_sym <= 6
        &&& self.points@.len() == power2::pow2(self.bits_per_sym as nat)
        &&& forall|i: int| 0 <= i < self.points@.len() ==> (#[trigger] self.points@[i]).in_reach()
        &&& is_bit_map(self.bit_map@, self.points@.len() as int, self.bits_per_sym as int)
    }

    /// Map bits to symbols; only the low bit of each byte counts.
    pub fn map_bits(&self, bits: &[u8]) -> (syms: Vec<Symbol>)
        requires
            self.well_formed(),
            bits@.len() % (self.bits_per_sym as nat) == 0,
        ensures
            syms@ == mapped(self.points@, self.bits_per_sym as int, bits@),
    {
        let m: usize = self.bits_per_sym;
        let n: usize = bits.len() / m;
        let mut syms: Vec<Symbol> = Vec::new();
        let mut i: usize = 0;
        while i < n
            invariant
                self.well_formed(),
                m == self.bits_per_sym,
                n == bits.len() / m,
                i <= n,
                syms@.len() == i,
                forall|j: int|
                    0 <= j < i ==> #[trigger] syms@[j] == mapped(self.points@, m as int, bits@)[j],
            decreases n - i,
        {
            proof {
                lemma_chunk(i as int, n as int, m as int, bits@.len() as int);
            }
            let start: usize = i * m;
            let ghost chunk = bits@.subrange(start as int, start + m);
            let mut label: usize = 0;
            let mut k: usize = 0;
            proof {
                power2::lemma2_to64();
                assert(chunk.take(0) =~= Seq::<u8>::empty());
            }
            while k < m
                invariant
                    k <= m <= 6,
                    start + m <= bits.len(),
                    chunk == bits@.subrange(start as int, start + m),
                    label == label_of(chunk.take(k as int)),
                    label < 64,
                decreases m - k,
            {
                let b: u8 = bits[start + k];
                proof {
                    let next = chunk.take(k + 1);
                    assert(next.drop_last() =~= chunk.take(k as int));
                    assert(next.last() == b);
                    lemma_label_bound(next);
                    lemma_size(k + 1);
                }
                label = 2 * label + (b % 2) as usize;
                k = k + 1;
            }
            proof {
                assert(chunk.take(k as int) =~= chunk);
                lemma_label_bound(chunk);
                assert(i * m == start);
            }
            syms.push(self.points[label]);
            i = i + 1;
        }
        assert(syms@ =~= mapped(self.points@, m as int, bits@));
        syms
    }

    /// Label of the nearest point, the lowest where several are as near.
    fn nearest(&self, y: Symbol) -> (best: usize)
        requires
            self.well_formed(),
            y.in_reach(),
        ensures
            is_nearest(self.points@, y, best as int),
            best == nearest_of(self.points@, y),
    {
        proof {
            power2::lemma_pow2_pos(self.bits_per_sym as nat);
        }
        let mut best: usize = 0;
        let mut best_d2: u128 = y.distance2_to(self.points[0]);
        let mut k: usize = 1;
        while k < self.points.len()
            invariant
                self.well_formed(),
                y.in_reach(),
                k <= self.points@.len(),
                best < k,
                best_d2 == symbol::distance2(y, self.points@[best as int]),
                forall|j: int|
                    0 <= j < k ==> best_d2 <= symbol::distance2(y, #[trigger] self.points@[j]),
                forall|j: int|
                    0 <= j < best ==> best_d2 < symbol::distance2(y, #[trigger] self.points@[j]),
            decreases self.points@.len() - k,
        {
            let d2: u128 = y.distance2_to(self.points[k]);
            if d2 < best_d2 {
                best_d2 = d2;
                best = k;
            }
            k = k + 1;
        }
        proof {
            assert(is_nearest(self.points@, y, best as int));
            lemma_nearest_is_unique(
                self.points@,
                y,
                best as int,
                nearest_of(self.points@, y),
            );
        }
        best
    }

    /// Nearest-neighbour decision: the label of each received symbol.
    pub fn slice_nearest(&self, y: &[Symbol]) -> (labels: Vec<usize>)
        requires
            self.well_formed(),
            forall|i: int| 0 <= i < y@.len() ==> (#[trigger] y@[i]).in_reach(),
        ensures
            labels@ == decided(self.points@, y@),
            forall|i: int|
                0 <= i < y@.len() ==> is_nearest(self.points@, y@[i], #[trigger] labels@[i] as int),
    {
        let mut labels: Vec<usize> = Vec::new();
        let mut i: usize = 0;
        while i < y.len()
            invariant
                self.well_formed(),
                forall|i: int| 0 <= i < y@.len() ==> (#[trigger] y@[i]).in_reach(),
                i <= y@.len(),
                labels@.len() == i,
                forall|j: int|
                    0 <= j < i ==> is_nearest(self.points@, y@[j], #[trigger] labels@[j] as int)
                        && labels@[j] == nearest_of(self.points@, y@[j]),
            decreases y@.len() - i,
        {
            labels.push(self.nearest(y[i]));
            i = i + 1;
        }
        assert(labels@ =~= decided(self.points@, y@));
        labels
    }

    /// Nearest-neighbour decision for one received symbol: the point itself.
    pub fn hard_decision(&self, y: Symbol) -> (p: Symbol)
        requires
            self.well_formed(),
            y.in_reach(),
        ensures
            p == self.points@[nearest_of(self.points@, y)],
            is_nearest(self.points@, y, nearest_of(self.points@, y)),
    {
        let k: usize = self.nearest(y);
        self.points[k]
    }

    /// The bits of labels, most significant first.
    pub fn symbols_to_bits(&self, labels: &[usize]) -> (bits: Vec<u8>)
        requires
            self.well_formed(),
            labels@.len() * self.bits_per_sym <= usize::MAX,
        ensures
            bits@ == unmapped(labels@, self.bits_per_sym as int),
    {
        let m: usize = self.bits_per_sym;
        let mut bits: Vec<u8> = Vec::new();
        let mut i: usize = 0;
        while i < labels.len()
            invariant
                1 <= m <= 6,
                i <= labels@.len(),
                bits@.len() == i * m,
                forall|p: int|
                    0 <= p < i * m ==> #[trigger] bits@[p] == label_bit(
                        labels@[p / (m as int)] as int,
                        m as int,
                        p % (m as int),
                    ),
            decreases labels@.len() - i,
        {
            let row = label_row(labels[i], m);
            let ghost before = bits@;
            let mut k: usize = 0;
            while k < m
                invariant
                    k <= m <= 6,
                    row@ == label_bits(labels@[i as int] as int, m as int),
                    bits@ == before + row@.take(k as int),
                decreases m - k,
            {
                bits.push(row[k]);
                assert(row@.take(k + 1) =~= row@.take(k as int).push(row@[k as int]));
                k = k + 1;
            }
            proof {
                assert(row@.take(k as int) =~= row@);
                assert((i + 1) * m == i * m + m) by (nonlinear_arith);
                assert forall|p: int| 0 <= p < (i + 1) * m implies #[trigger] bits@[p] == label_bit(
                    labels@[p / (m as int)] as int,
                    m as int,
                    p % (m as int),
                ) by {
                    if p >= i * m {
                        vstd::arithmetic::div_mod::lemma_fundamental_div_mod_converse(
                            p,
                            m as int,
                            i as int,
                            p - i * m,
                        );
                        assert(bits@[p] == row@[p - i * m]);
                    } else {
                        assert(bits@[p] == before[p]);
                    }
                }
            }
            i = i + 1;
        }
        assert(bits@ =~= unmapped(labels@, m as int));
        bits
    }
}

/// A chunk of `m` lies within the whole.
proof fn lemma_chunk(i: int, n: int, m: int, len: int)
    requires
        0 <= i < n,
        n == len / m,
        m > 0,
        len >= 0,
    ensures
        0 <= i * m,
        i * m + m <= len,
{
    vstd::arithmetic::div_mod::lemma_fundamental_div_mod(len, m);
    assert(0 <= i * m && i * m + m <= n * m) by (nonlinear_arith)
        requires
            0 <= i < n,
            m > 0,
    ;
    assert(n * m == m * n) by (nonlinear_arith);
}

// ---------------------------------------------------------------------------
// Bit table
// ---------------------------------------------------------------------------

/// The table of the bits of the labels below `n`.
pub open spec fn is_bit_map(map: Seq<Vec<u8>>, n: int, m: int) -> bool {
    &&& map.len() == n
    &&& forall|i: int| 0 <= i < n ==> (#[trigger] map[i])@ == label_bits(i, m)
}

/// The bits of a label, most significant first.
fn label_row(label: usize, m: usize) -> (row: Vec<u8>)
    requires
        1 <= m <= 6,
    ensures
        row@ == label_bits(label as int, m as int),
{
    let mut row: Vec<u8> = Vec::new();
    let mut k: usize = 0;
    while k < m
        invariant
            k <= m <= 6,
            row@.len() == k,
            forall|j: int|
                0 <= j < k ==> #[trigger] row@[j] == label_bit(label as int, m as int, j),
        decreases m - k,
    {
        let shift: usize = m - 1 - k;
        let p: usize = power_of_two(shift);
        row.push((label / p % 2) as u8);
        k = k + 1;
    }
    assert(row@ =~= label_bits(label as int, m as int));
    row
}

/// `2^n`.
fn power_of_two(n: usize) -> (p: usize)
    requires
        n <= 6,
    ensures
        p == power2::pow2(n as nat),
        1 <= p <= 64,
{
    proof {
        power2::lemma2_to64();
    }
    match n {
        0 => 1,
        1 => 2,
        2 => 4,
        3 => 8,
        4 => 16,
        5 => 32,
        _ => 64,
    }
}

/// The table of the bits of the labels below `n_points`.
fn make_bit_map(n_points: usize, bits_per_sym: usize) -> (map: Vec<Vec<u8>>)
    requires
        1 <= bits_per_sym <= 6,
    ensures
        is_bit_map(map@, n_points as int, bits_per_sym as int),
{
    let mut map: Vec<Vec<u8>> = Vec::new();
    let mut i: usize = 0;
    while i < n_points
        invariant
            i <= n_points,
            1 <= bits_per_sym <= 6,
            is_bit_map(map@, i as int, bits_per_sym as int),
        decreases n_points - i,
    {
        map.push(label_row(i, bits_per_sym));
        i = i + 1;
    }
    map
}

// ---------------------------------------------------------------------------
// PSK
// ---------------------------------------------------------------------------

/// The QPSK points by label: 00 at 45 degrees, 01 at 135, 11 at 225, 10 at 315.
pub open spec fn qpsk_points() -> Seq<Symbol> {
    seq![
        symbol::diagonal_point(0),
        symbol::diagonal_point(1),
        symbol::diagonal_point(3),
        symbol::diagonal_point(2),
    ]
}

/// QPSK with Gray labels.
pub fn qpsk_gray() -> (c: Constellation)
    ensures
        c.well_formed(),
        c.bits_per_sym == 2,
        c.points@ == qpsk_points(),
        distinct(c.points@),
        has_unit_power(c.points@),
{
    proof {
        power2::lemma2_to64();
    }
    let points: Vec<Symbol> = vec![
        Symbol::diagonal(0),
        Symbol::diagonal(1),
        Symbol::diagonal(3),
        Symbol::diagonal(2),
    ];
    assert(points@ =~= qpsk_points());
    proof {
        law_psk_points_have_unit_power();
    }
    Constellation { points, bits_per_sym: 2, bit_map: make_bit_map(4, 2) }
}

/// A QPSK point is decided as its own label.
pub proof fn lemma_qpsk_decides(label: int)
    requires
        0 <= label < 4,
    ensures
        nearest_of(qpsk_points(), qpsk_points()[label]) == label,
{
    let points = qpsk_points();
    let y = points[label];
    assert(distinct(points));
    symbol::lemma_distance2(y, points[0]);
    symbol::lemma_distance2(y, points[1]);
    symbol::lemma_distance2(y, points[2]);
    symbol::lemma_distance2(y, points[3]);
    assert(is_nearest(points, y, label));
    lemma_nearest_is_unique(points, y, label, nearest_of(points, y));
}

/// The bits of a QPSK label are the signs of its point: the low bit that of the real part,
/// the high bit that of the imaginary part.
pub proof fn law_qpsk_bits_are_signs(label: int)
    requires
        0 <= label < 4,
    ensures
        qpsk_points()[label].re < 0 <==> label % 2 == 1,
        qpsk_points()[label].im < 0 <==> label / 2 == 1,
{
}

/// Gray code of a number below 8.
pub open spec fn gray(k: u8) -> u8 {
    k ^ (k >> 1)
}

/// The point at angle `k * pi / 4`.
pub open spec fn octant_point(k: int) -> Symbol {
    if k % 2 == 0 {
        symbol::axis_point(k / 2)
    } else {
        symbol::diagonal_point(k / 2)
    }
}

/// Gray codes of the numbers below 8.
proof fn lemma_gray_values()
    ensures
        gray(0) == 0,
        gray(1) == 1,
        gray(2) == 3,
        gray(3) == 2,
        gray(4) == 6,
        gray(5) == 7,
        gray(6) == 5,
        gray(7) == 4,
{
    assert(gray(0) == 0 && gray(1) == 1 && gray(2) == 3 && gray(3) == 2 && gray(4) == 6 && gray(5)
        == 7 && gray(6) == 5 && gray(7) == 4) by (bit_vector);
}

/// The 8PSK points by label.
pub open spec fn psk8_points() -> Seq<Symbol> {
    seq![
        octant_point(0),
        octant_point(1),
        octant_point(3),
        octant_point(2),
        octant_point(7),
        octant_point(6),
        octant_point(4),
        octant_point(5),
    ]
}

/// 8PSK with Gray labels: the label at angle `k * pi / 4` is the Gray code of `k`.
pub fn psk8_gray() -> (c: Constellation)
    ensures
        c.well_formed(),
        c.bits_per_sym == 3,
        c.points@ == psk8_points(),
        forall|k: u8|
            0 <= k < 8 ==> gray(k) < 8 && c.points@[#[trigger] gray(k) as int] == octant_point(
                k as int,
            ),
        distinct(c.points@),
        has_unit_power(c.points@),
{
    proof {
        power2::lemma2_to64();
        lemma_gray_values();
    }
    let points: Vec<Symbol> = vec![
        Symbol::axis(0),
        Symbol::diagonal(0),
        Symbol::diagonal(1),
        Symbol::axis(1),
        Symbol::diagonal(3),
        Symbol::axis(3),
        Symbol::axis(2),
        Symbol::diagonal(2),
    ];
    assert(points@ =~= psk8_points());
    proof {
        law_psk_points_have_unit_power();
    }
    Constellation { points, bits_per_sym: 3, bit_map: make_bit_map(8, 3) }
}

/// The mean power of the points of QPSK and of 8PSK is 1, up to rounding.
pub proof fn law_psk_points_have_unit_power()
    ensures
        has_unit_power(qpsk_points()),
        has_unit_power(psk8_points()),
{
    reveal_with_fuel(power_of, 9);
    lemma_power_at(symbol::axis_point(0), 9007199254740992, 0);
    lemma_power_at(symbol::axis_point(1), 0, 9007199254740992);
    lemma_power_at(symbol::axis_point(2), -9007199254740992, 0);
    lemma_power_at(symbol::axis_point(3), 0, -9007199254740992);
    lemma_power_at(symbol::diagonal_point(0), 6369051672525773, 6369051672525773);
    lemma_power_at(symbol::diagonal_point(1), -6369051672525773, 6369051672525773);
    lemma_power_at(symbol::diagonal_point(2), -6369051672525773, -6369051672525773);
    lemma_power_at(symbol::diagonal_point(3), 6369051672525773, -6369051672525773);
}

proof fn lemma_power_at(p: Symbol, x: int, y: int)
    requires
        p.re == x,
        p.im == y,
    ensures
        power_at(p) == x * x + y * y,
{
}

/// Neighbours on the 8PSK circle have labels that differ in exactly one bit.
pub proof fn law_psk8_neighbours_differ_in_one_bit(k: u8)
    requires
        k < 8,
    ensures
        gray(k) ^ gray(((k + 1) % 8) as u8) == 1 || gray(k) ^ gray(((k + 1) % 8) as u8) == 2
            || gray(k) ^ gray(((k + 1) % 8) as u8) == 4,
{
    let n: u8 = ((k + 1) % 8) as u8;
    assert((k ^ (k >> 1)) ^ (n ^ (n >> 1)) == 1 || (k ^ (k >> 1)) ^ (n ^ (n >> 1)) == 2 || (k ^ (k
        >> 1)) ^ (n ^ (n >> 1)) == 4) by (bit_vector)
        requires
            k < 8,
            n == (k + 1) % 8,
    ;
}

// ---------------------------------------------------------------------------
// APSK
// ---------------------------------------------------------------------------

/// Product of three factors.
fn product3(a: u32, b: u32, c: u32) -> (p: u128)
    ensures
        p == a * b * c,
        a > 0 && b > 0 && c > 0 ==> p > 0,
{
    assert(0 <= a * b <= 0xFFFF_FFFF * 0xFFFF_FFFF && (a > 0 && b > 0 ==> a * b > 0))
        by (nonlinear_arith)
        requires
            0 <= a <= 0xFFFF_FFFF,
            0 <= b <= 0xFFFF_FFFF,
    ;
    let ab: u128 = a as u128 * b as u128;
    assert(0 <= ab * c <= 0xFFFF_FFFF * 0xFFFF_FFFF * 0xFFFF_FFFF && (ab > 0 && c > 0 ==> ab * c
        > 0)) by (nonlinear_arith)
        requires
            0 <= ab <= 0xFFFF_FFFF * 0xFFFF_FFFF,
            0 <= c <= 0xFFFF_FFFF,
    ;
    ab * c as u128
}

/// Bound below which the weighted squares of ring radii can be computed with.
pub const RING_LIMIT: u128 = 0x10_0000_0000_0000_0000_0000_0000_0000;

/// A ring ratio whose parts have 16 bits.
pub open spec fn fits_16_bits(gamma: Ratio) -> bool {
    &&& 0 < gamma.den <= 65536
    &&& gamma.num <= 65536
}

/// Rings are further apart than rounding can hide.
pub open spec fn rings_apart(radii: Seq<int>) -> bool {
    forall|i: int, j: int|
        0 <= i < j < radii.len() ==> #[trigger] radii[i] + 32 <= #[trigger] radii[j]
}

/// `a < b` as fractions.
pub open spec fn below(a: Ratio, b: Ratio) -> bool {
    a.num * b.den < b.num * a.den
}

/// The ratio 1.
pub open spec fn unit_ratio() -> Ratio {
    Ratio { num: 1, den: 1 }
}

/// Squares of the ring radii up to one common factor, innermost ring first.
pub open spec fn ring_squares(g1: Ratio, g2: Ratio, g3: Ratio) -> Seq<int> {
    let a = (g1.den * g2.den * g3.den) as int;
    let b = (g1.num * g2.den * g3.den) as int;
    let c = (g2.num * g1.den * g3.den) as int;
    let d = (g3.num * g1.den * g2.den) as int;
    seq![a * a, b * b, c * c, d * d]
}

fn ring_square(a: u32, b: u32, c: u32) -> (y: u128)
    requires
        (a * b * c) * (a * b * c) < RING_LIMIT,
    ensures
        y == (a * b * c) * (a * b * c),
        a > 0 && b > 0 && c > 0 ==> y > 0,
{
    let x: u128 = product3(a, b, c);
    let y: u128 = x * x;
    assert(x > 0 ==> y > 0) by (nonlinear_arith)
        requires
            y == x * x,
    ;
    y
}

/// Squares are not negative.
proof fn lemma_ring_squares(g1: Ratio, g2: Ratio, g3: Ratio)
    ensures
        forall|i: int| 0 <= i < 4 ==> #[trigger] ring_squares(g1, g2, g3)[i] >= 0,
{
    let a = (g1.den * g2.den * g3.den) as int;
    let b = (g1.num * g2.den * g3.den) as int;
    let c = (g2.num * g1.den * g3.den) as int;
    let d = (g3.num * g1.den * g2.den) as int;
    assert(a * a >= 0 && b * b >= 0 && c * c >= 0 && d * d >= 0) by (nonlinear_arith);
}

/// Mean power of the points of 32-APSK, up to a common factor.
pub open spec fn power_32(gamma1: Ratio, gamma2: Ratio) -> int {
    let q = ring_squares(gamma1, gamma2, unit_ratio());
    q[0] + 3 * q[1] + 4 * q[2]
}

/// Mean power of the points of 64-APSK, up to a common factor.
pub open spec fn power_64(gamma1: Ratio, gamma2: Ratio, gamma3: Ratio) -> int {
    let q = ring_squares(gamma1, gamma2, gamma3);
    q[0] + 3 * q[1] + 5 * q[2] + 7 * q[3]
}

/// The ring ratios of 32-APSK can be computed with.
pub open spec fn rings_fit_32(gamma1: Ratio, gamma2: Ratio) -> bool {
    &&& gamma1.den > 0
    &&& gamma2.den > 0
    &&& power_32(gamma1, gamma2) < RING_LIMIT
}

/// The ring ratios of 64-APSK can be computed with.
pub open spec fn rings_fit_64(gamma1: Ratio, gamma2: Ratio, gamma3: Ratio) -> bool {
    &&& gamma1.den > 0
    &&& gamma2.den > 0
    &&& gamma3.den > 0
    &&& power_64(gamma1, gamma2, gamma3) < RING_LIMIT
}

/// The square of a product below the limit, or the limit.
fn limited_square(a: u32, b: u32, c: u32) -> (y: u128)
    ensures
        y <= RING_LIMIT,
        y < RING_LIMIT ==> y == (a * b * c) * (a * b * c),
        y == RING_LIMIT ==> (a * b * c) * (a * b * c) >= RING_LIMIT,
{
    let x: u128 = product3(a, b, c);
    if x >= 0x400_0000_0000_0000 {
        assert(x * x >= 0x400_0000_0000_0000 * 0x400_0000_0000_0000) by (nonlinear_arith)
            requires
                x >= 0x400_0000_0000_0000,
        ;
        RING_LIMIT
    } else {
        assert(x * x <= 0x3FF_FFFF_FFFF_FFFF * 0x3FF_FFFF_FFFF_FFFF) by (nonlinear_arith)
            requires
                0 <= x <= 0x3FF_FFFF_FFFF_FFFF,
        ;
        x * x
    }
}

/// Whether the ring ratios of 64-APSK can be computed with.
pub fn check_rings_64(gamma1: Ratio, gamma2: Ratio, gamma3: Ratio) -> (fit: bool)
    ensures
        fit == rings_fit_64(gamma1, gamma2, gamma3),
{
    let a: u128 = limited_square(gamma1.den, gamma2.den, gamma3.den);
    let b: u128 = limited_square(gamma1.num, gamma2.den, gamma3.den);
    let d: u128 = limited_square(gamma2.num, gamma1.den, gamma3.den);
    let e: u128 = limited_square(gamma3.num, gamma1.den, gamma2.den);
    proof {
        lemma_ring_squares(gamma1, gamma2, gamma3);
        let q = ring_squares(gamma1, gamma2, gamma3);
        assert(q[0] >= 0 && q[1] >= 0 && q[2] >= 0 && q[3] >= 0);
    }
    gamma1.den > 0 && gamma2.den > 0 && gamma3.den > 0 && a + 3 * b + 5 * d + 7 * e < RING_LIMIT
}

/// Whether the ring ratios of 32-APSK can be computed with.
pub fn check_rings_32(gamma1: Ratio, gamma2: Ratio) -> (fit: bool)
    ensures
        fit == rings_fit_32(gamma1, gamma2),
{
    let a: u128 = limited_square(gamma1.den, gamma2.den, 1);
    let b: u128 = limited_square(gamma1.num, gamma2.den, 1);
    let d: u128 = limited_square(gamma2.num, gamma1.den, 1);
    proof {
        lemma_ring_squares(gamma1, gamma2, unit_ratio());
        let q = ring_squares(gamma1, gamma2, unit_ratio());
        assert(q[0] >= 0 && q[1] >= 0 && q[2] >= 0);
    }
    gamma1.den > 0 && gamma2.den > 0 && a + 3 * b + 4 * d < RING_LIMIT
}

/// Whether `a < b` as fractions.
pub fn check_below(a: Ratio, b: Ratio) -> (less: bool)
    ensures
        less == below(a, b),
{
    assert(0 <= a.num * b.den <= 0xFFFF_FFFF * 0xFFFF_FFFF && 0 <= b.num * a.den <= 0xFFFF_FFFF
        * 0xFFFF_FFFF) by (nonlinear_arith)
        requires
            0 <= a.num <= 0xFFFF_FFFF,
            0 <= a.den <= 0xFFFF_FFFF,
            0 <= b.num <= 0xFFFF_FFFF,
            0 <= b.den <= 0xFFFF_FFFF,
    ;
    (a.num as u64 * b.den as u64) < b.num as u64 * a.den as u64
}

/// Ring ratios of 16 bits can be computed with.
pub proof fn lemma_16_bits_fit(g1: Ratio, g2: Ratio, g3: Ratio)
    requires
        fits_16_bits(g1),
        fits_16_bits(g2),
        fits_16_bits(g3),
    ensures
        rings_fit_32(g1, g2),
        rings_fit_64(g1, g2, g3),
{
    let one = unit_ratio();
    lemma_small_square(g1.den as int, g2.den as int, g3.den as int);
    lemma_small_square(g1.num as int, g2.den as int, g3.den as int);
    lemma_small_square(g2.num as int, g1.den as int, g3.den as int);
    lemma_small_square(g3.num as int, g1.den as int, g2.den as int);
    lemma_small_square(g1.den as int, g2.den as int, one.den as int);
    lemma_small_square(g1.num as int, g2.den as int, one.den as int);
    lemma_small_square(g2.num as int, g1.den as int, one.den as int);
}

proof fn lemma_small_square(a: int, b: int, c: int)
    requires
        0 <= a <= 65536,
        0 <= b <= 65536,
        0 <= c <= 65536,
    ensures
        0 <= (a * b * c) * (a * b * c) <= 0x1_0000_0000_0000 * 0x1_0000_0000_0000,
{
    let ab = a * b;
    assert(0 <= ab <= 65536 * 65536) by (nonlinear_arith)
        requires
            ab == a * b,
            0 <= a <= 65536,
            0 <= b <= 65536,
    ;
    let x = ab * c;
    assert(0 <= x <= 65536 * 65536 * 65536) by (nonlinear_arith)
        requires
            x == ab * c,
            0 <= ab <= 65536 * 65536,
            0 <= c <= 65536,
    ;
    assert(0 <= x * x <= 0x1_0000_0000_0000 * 0x1_0000_0000_0000) by (nonlinear_arith)
        requires
            0 <= x <= 0x1_0000_0000_0000,
    ;
}

/// Power of a point, in units of `1 / ONE^2`.
pub open spec fn power_at(p: Symbol) -> int {
    p.re * p.re + p.im * p.im
}

/// Power of some points together.
pub open spec fn power_of(points: Seq<Symbol>) -> int
    decreases points.len(),
{
    if points.len() == 0 {
        0
    } else {
        power_of(points.drop_last()) + power_at(points.last())
    }
}

/// The mean power of some points is 1, up to rounding: it is off by no more than 128 units
/// of `1 / ONE`.
pub open spec fn has_unit_power(points: Seq<Symbol>) -> bool {
    let n = points.len() as int;
    &&& n * (ONE * ONE) - n * (128 * ONE) <= power_of(points)
    &&& power_of(points) <= n * (ONE * ONE) + n * (128 * ONE)
}

/// A ring is `gamma` times as wide as another, up to the rounding of the two radii.
pub open spec fn keeps_ratio(inner: int, outer: int, gamma: Ratio) -> bool {
    &&& outer * gamma.den < (inner + 1) * gamma.num
    &&& inner * gamma.num < (outer + 1) * gamma.den
}

/// Ring radii of 16-APSK, in units of `1 / symbol::ONE`.
pub open spec fn radii_16(gamma: Ratio) -> Seq<int> {
    let q = ring_squares(gamma, unit_ratio(), unit_ratio());
    let t = q[0] + 3 * q[1];
    seq![ring::root_of(4 * q[0], t), ring::root_of(4 * q[1], t)]
}

/// Ring radii of 32-APSK.
pub open spec fn radii_32(gamma1: Ratio, gamma2: Ratio) -> Seq<int> {
    let q = ring_squares(gamma1, gamma2, unit_ratio());
    let t = q[0] + 3 * q[1] + 4 * q[2];
    seq![ring::root_of(8 * q[0], t), ring::root_of(8 * q[1], t), ring::root_of(8 * q[2], t)]
}

/// Ring radii of 64-APSK.
pub open spec fn radii_64(gamma1: Ratio, gamma2: Ratio, gamma3: Ratio) -> Seq<int> {
    let q = ring_squares(gamma1, gamma2, gamma3);
    let t = q[0] + 3 * q[1] + 5 * q[2] + 7 * q[3];
    seq![
        ring::root_of(16 * q[0], t),
        ring::root_of(16 * q[1], t),
        ring::root_of(16 * q[2], t),
        ring::root_of(16 * q[3], t),
    ]
}

/// 16-APSK (4, 12). `gamma` is the outer ring over the inner one, more than 1. No two labels
/// share a point. The mean power is 1 and each ring is as wide as its ratio says, up to
/// rounding.
pub fn apsk16_dvbs2(gamma: Ratio) -> (c: Constellation)
    requires
        gamma.den > 0,
        below(unit_ratio(), gamma),
    ensures
        c.well_formed(),
        c.bits_per_sym == 4,
        c.points@ == Seq::new(
            16,
            |label: int| apsk::point_at(apsk::place_16(label), radii_16(gamma)),
        ),
        distinct(c.points@),
        has_unit_power(c.points@),
        keeps_ratio(radii_16(gamma)[0], radii_16(gamma)[1], gamma),
{
    proof {
        let (x, y) = (gamma.den as int, gamma.num as int);
        assert(0 < x * x <= 0xFFFF_FFFF * 0xFFFF_FFFF && 0 <= y * y <= 0xFFFF_FFFF * 0xFFFF_FFFF)
            by (nonlinear_arith)
            requires
                0 < x <= 0xFFFF_FFFF,
                0 <= y <= 0xFFFF_FFFF,
        ;
        assert(x * 1 * 1 == x && y * 1 * 1 == y);
    }
    let a: u128 = ring_square(gamma.den, 1, 1);
    let b: u128 = ring_square(gamma.num, 1, 1);
    let t: u128 = a + 3 * b;
    let radii: Vec<u64> = vec![root(4, a, t), root(4, b, t)];
    let points = apsk::points_16(radii.as_slice());
    proof {
        power2::lemma2_to64();
        let q = ring_squares(gamma, unit_ratio(), unit_ratio());
        assert(q[0] == a && q[1] == b);
        assert(apsk::as_radii(radii@) =~= radii_16(gamma));
        apart::law_apsk16_points_are_distinct(gamma);
        apart::law_apsk16_points_have_unit_power(gamma);
        apart::law_apsk16_rings_keep_their_ratio(gamma);
    }
    Constellation { points, bits_per_sym: 4, bit_map: make_bit_map(16, 4) }
}

/// 32-APSK (4, 12, 16). `gamma1` and `gamma2` are the second and third ring over the
/// first, with `1 < gamma1 < gamma2`. Where rounding keeps the rings apart, no two labels
/// share a point. The mean power is 1 and each ring is as wide as its ratio says, up to
/// rounding.
pub fn apsk32_dvbs2(gamma1: Ratio, gamma2: Ratio) -> (c: Constellation)
    requires
        rings_fit_32(gamma1, gamma2),
        below(unit_ratio(), gamma1),
        below(gamma1, gamma2),
    ensures
        c.well_formed(),
        c.bits_per_sym == 5,
        c.points@ == Seq::new(
            32,
            |label: int| apsk::point_at(apsk::place_32(label), radii_32(gamma1, gamma2)),
        ),
        rings_apart(radii_32(gamma1, gamma2)) ==> distinct(c.points@),
        has_unit_power(c.points@),
        keeps_ratio(radii_32(gamma1, gamma2)[0], radii_32(gamma1, gamma2)[1], gamma1),
        keeps_ratio(radii_32(gamma1, gamma2)[0], radii_32(gamma1, gamma2)[2], gamma2),
{
    proof {
        lemma_ring_squares(gamma1, gamma2, unit_ratio());
        let q = ring_squares(gamma1, gamma2, unit_ratio());
        assert(q[0] >= 0 && q[1] >= 0 && q[2] >= 0);
    }
    let a: u128 = ring_square(gamma1.den, gamma2.den, 1);
    let b: u128 = ring_square(gamma1.num, gamma2.den, 1);
    let d: u128 = ring_square(gamma2.num, gamma1.den, 1);
    let t: u128 = a + 3 * b + 4 * d;
    let radii: Vec<u64> = vec![root(8, a, t), root(8, b, t), root(8, d, t)];
    let points = apsk::points_32(radii.as_slice());
    proof {
        power2::lemma2_to64();
        let q = ring_squares(gamma1, gamma2, unit_ratio());
        assert(q[0] == a && q[1] == b && q[2] == d);
        assert(apsk::as_radii(radii@) =~= radii_32(gamma1, gamma2));
        apart::law_apsk32_points_have_unit_power(gamma1, gamma2);
        apart::law_apsk32_rings_keep_their_ratios(gamma1, gamma2);
        if rings_apart(radii_32(gamma1, gamma2)) {
            apart::law_apsk32_points_are_distinct(gamma1, gamma2);
        }
    }
    Constellation { points, bits_per_sym: 5, bit_map: make_bit_map(32, 5) }
}

/// The ring radii of 64-APSK.
pub fn ring_radii_64(gamma1: Ratio, gamma2: Ratio, gamma3: Ratio) -> (radii: Vec<u64>)
    requires
        rings_fit_64(gamma1, gamma2, gamma3),
    ensures
        apsk::as_radii(radii@) == radii_64(gamma1, gamma2, gamma3),
        forall|k: int| 0 <= k < radii@.len() ==> radii@[k] <= 0x80_0000_0000_0000,
{
    proof {
        lemma_ring_squares(gamma1, gamma2, gamma3);
        let q = ring_squares(gamma1, gamma2, gamma3);
        assert(q[0] >= 0 && q[1] >= 0 && q[2] >= 0 && q[3] >= 0);
    }
    let a: u128 = ring_square(gamma1.den, gamma2.den, gamma3.den);
    let b: u128 = ring_square(gamma1.num, gamma2.den, gamma3.den);
    let d: u128 = ring_square(gamma2.num, gamma1.den, gamma3.den);
    let e: u128 = ring_square(gamma3.num, gamma1.den, gamma2.den);
    let t: u128 = a + 3 * b + 5 * d + 7 * e;
    let radii: Vec<u64> = vec![root(16, a, t), root(16, b, t), root(16, d, t), root(16, e, t)];
    proof {
        let q = ring_squares(gamma1, gamma2, gamma3);
        assert(q[0] == a && q[1] == b && q[2] == d && q[3] == e);
        assert(apsk::as_radii(radii@) =~= radii_64(gamma1, gamma2, gamma3));
    }
    radii
}

/// 64-APSK (4, 12, 20, 28). The ratios are the second, third and fourth ring over
/// the first, with `1 < gamma1 < gamma2 < gamma3`. Where rounding keeps the rings apart, no
/// two labels share a point. The mean power is 1 and each ring is as wide as its ratio says,
/// up to rounding.
pub fn apsk64_dvbs2x(gamma1: Ratio, gamma2: Ratio, gamma3: Ratio) -> (c: Constellation)
    requires
        rings_fit_64(gamma1, gamma2, gamma3),
        below(unit_ratio(), gamma1),
        below(gamma1, gamma2),
        below(gamma2, gamma3),
    ensures
        c.well_formed(),
        c.bits_per_sym == 6,
        c.points@ == Seq::new(
            64,
            |label: int| apsk::point_at(apsk::place_64(label), radii_64(gamma1, gamma2, gamma3)),
        ),
        rings_apart(radii_64(gamma1, gamma2, gamma3)) ==> distinct(c.points@),
        has_unit_power(c.points@),
        ({
            let radii = radii_64(gamma1, gamma2, gamma3);
            &&& keeps_ratio(radii[0], radii[1], gamma1)
            &&& keeps_ratio(radii[0], radii[2], gamma2)
            &&& keeps_ratio(radii[0], radii[3], gamma3)
        }),
{
    let radii = ring_radii_64(gamma1, gamma2, gamma3);
    assert(radii@.len() == apsk::as_radii(radii@).len());
    let points = apsk::points_64(radii.as_slice());
    proof {
        power2::lemma2_to64();
        apart::law_apsk64_points_have_unit_power(gamma1, gamma2, gamma3);
        apart::law_apsk64_rings_keep_their_ratios(gamma1, gamma2, gamma3);
        if rings_apart(radii_64(gamma1, gamma2, gamma3)) {
            apart::law_apsk64_points_are_distinct(gamma1, gamma2, gamma3);
        }
    }
    Constellation { points, bits_per_sym: 6, bit_map: make_bit_map(64, 6) }
}

// ---------------------------------------------------------------------------
// Laws
// ---------------------------------------------------------------------------

/// Where no two labels share a point, the nearest label to a point is its own.
pub proof fn law_point_is_decided_as_its_label(points: Seq<Symbol>, i: int, k: int)
    requires
        distinct(points),
        0 <= i < points.len(),
        is_nearest(points, points[i], k),
    ensures
        k == i,
{
    symbol::lemma_distance2(points[i], points[i]);
    symbol::lemma_distance2(points[i], points[k]);
}

/// Deciding on mapped bits and writing the labels out gives the low bits back, in
/// any constellation where no two labels share a point.
pub proof fn law_map_and_decide_round_trip(c: Constellation, bits: Seq<u8>, labels: Seq<usize>)
    requires
        c.well_formed(),
        distinct(c.points@),
        bits.len() % (c.bits_per_sym as nat) == 0,
        ({
            let y = mapped(c.points@, c.bits_per_sym as int, bits);
            &&& labels.len() == y.len()
            &&& forall|i: int|
                0 <= i < y.len() ==> is_nearest(c.points@, y[i], #[trigger] labels[i] as int)
        }),
    ensures
        unmapped(labels, c.bits_per_sym as int) == Seq::new(bits.len(), |p: int| bits[p] % 2),
{
    let m = c.bits_per_sym as int;
    let n = (bits.len() / m as nat) as int;
    let y = mapped(c.points@, m, bits);
    vstd::arithmetic::div_mod::lemma_fundamental_div_mod(bits.len() as int, m);
    assert(n * m == m * n) by (nonlinear_arith);
    let out = unmapped(labels, m);
    assert(out.len() == bits.len());
    assert forall|p: int| 0 <= p < bits.len() implies out[p] == bits[p] % 2 by {
        let i = p / m;
        let k = p % m;
        vstd::arithmetic::div_mod::lemma_fundamental_div_mod(p, m);
        assert(0 <= i < n && 0 <= k < m && p == i * m + k) by (nonlinear_arith)
            requires
                p == m * i + k,
                0 <= p < n * m,
                i == p / m,
                k == p % m,
                m > 0,
        ;
        lemma_chunk(i, n, m, bits.len() as int);
        let chunk = bits.subrange(i * m, i * m + m);
        lemma_label_bound(chunk);
        assert(y[i] == c.points@[label_of(chunk)]);
        assert(is_nearest(c.points@, y[i], labels[i] as int));
        law_point_is_decided_as_its_label(c.points@, label_of(chunk), labels[i] as int);
        law_label_bits_undo_label(chunk, k);
        assert(chunk[k] == bits[p]);
    }
    assert(out =~= Seq::new(bits.len(), |p: int| bits[p] % 2));
}

/// A received point is decided for the nearest point of the constellation, and of equally
/// near ones for the first.
pub proof fn law_decision_is_for_the_nearest(points: Seq<Symbol>, y: Symbol, k: int, j: int)
    requires
        is_nearest(points, y, k),
        0 <= j < points.len(),
    ensures
        ({
            let (a, b) = (points[k], points[j]);
            let far = (y.re - b.re) * (y.re - b.re) + (y.im - b.im) * (y.im - b.im);
            let near = (y.re - a.re) * (y.re - a.re) + (y.im - a.im) * (y.im - a.im);
            &&& near <= far
            &&& j < k ==> near < far
        }),
{
}

/// Bits are mapped by groups, the first bit of a group being the highest of its label.
pub proof fn law_bits_are_mapped_by_groups(points: Seq<Symbol>, bits: Seq<u8>, i: int)
    requires
        points.len() == 16,
        bits.len() % 4 == 0,
        0 <= i < bits.len() / 4,
    ensures
        ({
            let b = bits.subrange(4 * i, 4 * i + 4);
            mapped(points, 4, bits)[i] == points[8 * (b[0] % 2) + 4 * (b[1] % 2) + 2 * (b[2] % 2)
                + b[3] % 2]
        }),
{
    let b = bits.subrange(4 * i, 4 * i + 4);
    assert(i * 4 == 4 * i);
    reveal_with_fuel(label_of, 5);
    assert(b.drop_last() =~= b.take(3));
    assert(b.take(3).drop_last() =~= b.take(2));
    assert(b.take(2).drop_last() =~= b.take(1));
    assert(b.take(1).drop_last() =~= b.take(0));
}

} // verus!
