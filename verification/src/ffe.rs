//! The fractionally spaced equalizer: fitting its taps and applying them.

use vstd::prelude::*;

use crate::equalizer;
use crate::equalizer::{symbol_windows, training_windows};
use crate::symbol::{Symbol, ONE};

verus! {

/// A point with integer coordinates.
pub struct Point {
    pub re: int,
    pub im: int,
}

impl Point {
    /// The origin.
    pub open spec fn zero() -> Self {
        Point { re: 0, im: 0 }
    }

    /// The sum of two points.
    pub open spec fn plus(self, other: Self) -> Self {
        Point { re: self.re + other.re, im: self.im + other.im }
    }

    /// The mirror image at the real axis.
    pub open spec fn conj(self) -> Self {
        Point { re: self.re, im: -self.im }
    }

    /// Both coordinates lie within a bound.
    pub open spec fn within(self, bound: int) -> bool {
        &&& -bound <= self.re <= bound
        &&& -bound <= self.im <= bound
    }

    /// Both coordinates fit 128 bits.
    pub open spec fn fits_wide(self) -> bool {
        &&& i128::MIN <= self.re <= i128::MAX
        &&& i128::MIN <= self.im <= i128::MAX
    }
}

/// A point in units of `1 / ONE` squared.
#[derive(Clone, Copy, Debug, PartialEq, Eq, Structural)]
pub struct Wide {
    pub re: i128,
    pub im: i128,
}

impl View for Wide {
    type V = Point;

    open spec fn view(&self) -> Point {
        Point { re: self.re as int, im: self.im as int }
    }
}

/// The product of two points.
pub open spec fn times(a: Symbol, b: Symbol) -> Point {
    Point { re: a.re * b.re - a.im * b.im, im: a.re * b.im + a.im * b.re }
}

/// The mirror image of a point times another.
pub open spec fn conj_times(a: Symbol, b: Symbol) -> Point {
    Point { re: a.re * b.re + a.im * b.im, im: a.re * b.im - a.im * b.re }
}

// ---------------------------------------------------------------------------
// Sums
// ---------------------------------------------------------------------------

/// Weight of the high part of a sum.
const HIGH: i128 = 0x10_0000_0000_0000_0000_0000_0000;

/// A sum of products of any size, in two parts.
#[derive(Clone, Copy)]
struct Sum {
    high: i128,
    low: i128,
}

impl Sum {
    /// The value of the sum.
    spec fn value(self) -> int {
        self.high * HIGH + self.low
    }

    /// The parts are in order after `n` products.
    spec fn ordered(self, n: int) -> bool {
        &&& 0 <= self.low < HIGH
        &&& -n * 0x1000_0000 <= self.high <= n * 0x1000_0000
    }

    /// Nothing yet.
    fn zero() -> (s: Self)
        ensures
            s.value() == 0,
            s.ordered(0),
    {
        Sum { high: 0, low: 0 }
    }

    /// Add the product of two coordinates, or take it away.
    fn with_product(self, a: i64, b: i64, minus: bool, Ghost(n): Ghost<int>) -> (s: Self)
        requires
            self.ordered(n),
            0 <= n <= 0x4_0000_0000_0000_0000,
        ensures
            s.value() == self.value() + (if minus {
                -(a * b)
            } else {
                a * b
            }),
            s.ordered(n + 1),
    {
        proof {
            let l: int = 0x8000_0000_0000_0000;
            let (x, y) = (a as int, b as int);
            assert(-(l * l) <= x * y <= l * l) by (nonlinear_arith)
                requires
                    -l <= x <= l,
                    -l <= y <= l,
                    l > 0,
            ;
            assert(l * l == 0x4000_0000_0000_0000_0000_0000_0000_0000);
        }
        let p: i128 = a as i128 * b as i128;
        let half: u128 = 0x4000_0000_0000_0000_0000_0000_0000_0000;
        let up: u128 = if p >= 0 {
            if minus {
                half - p as u128
            } else {
                half + p as u128
            }
        } else {
            let size: u128 = (-p) as u128;
            if minus {
                half + size
            } else {
                half - size
            }
        };
        let weight: u128 = 0x10_0000_0000_0000_0000_0000_0000;
        let q: i128 = (up / weight) as i128;
        let r: i128 = (up % weight) as i128;
        let low: i128 = self.low + r;
        if low >= HIGH {
            Sum { high: self.high + q - 0x400_0000 + 1, low: low - HIGH }
        } else {
            Sum { high: self.high + q - 0x400_0000, low }
        }
    }

    /// The sum as one number.
    fn whole(self) -> (x: i128)
        requires
            0 <= self.low < HIGH,
            i128::MIN <= self.value() <= i128::MAX,
        ensures
            x == self.value(),
    {
        self.high * HIGH + self.low
    }
}

/// A sum of points.
#[derive(Clone, Copy)]
struct PointSum {
    re: Sum,
    im: Sum,
}

impl PointSum {
    spec fn value(self) -> Point {
        Point { re: self.re.value(), im: self.im.value() }
    }

    spec fn ordered(self, n: int) -> bool {
        &&& self.re.ordered(2 * n)
        &&& self.im.ordered(2 * n)
    }

    fn zero() -> (s: Self)
        ensures
            s.value() == Point::zero(),
            s.ordered(0),
    {
        PointSum { re: Sum::zero(), im: Sum::zero() }
    }

    /// Add the product of two points.
    fn with_times(self, a: Symbol, b: Symbol, Ghost(n): Ghost<int>) -> (s: Self)
        requires
            self.ordered(n),
            0 <= n <= usize::MAX,
        ensures
            s.value() == self.value().plus(times(a, b)),
            s.ordered(n + 1),
    {
        let re = self.re.with_product(a.re, b.re, false, Ghost(2 * n));
        let im = self.im.with_product(a.re, b.im, false, Ghost(2 * n));
        PointSum {
            re: re.with_product(a.im, b.im, true, Ghost(2 * n + 1)),
            im: im.with_product(a.im, b.re, false, Ghost(2 * n + 1)),
        }
    }

    /// Add the product of the mirror image of a point and another.
    fn with_conj_times(self, a: Symbol, b: Symbol, Ghost(n): Ghost<int>) -> (s: Self)
        requires
            self.ordered(n),
            0 <= n <= usize::MAX,
        ensures
            s.value() == self.value().plus(conj_times(a, b)),
            s.ordered(n + 1),
    {
        let re = self.re.with_product(a.re, b.re, false, Ghost(2 * n));
        let im = self.im.with_product(a.re, b.im, false, Ghost(2 * n));
        PointSum {
            re: re.with_product(a.im, b.im, false, Ghost(2 * n + 1)),
            im: im.with_product(a.im, b.re, true, Ghost(2 * n + 1)),
        }
    }

    /// The sum as one point.
    fn whole(self, Ghost(n): Ghost<int>) -> (p: Wide)
        requires
            self.ordered(n),
            self.value().fits_wide(),
        ensures
            p@ == self.value(),
    {
        Wide { re: self.re.whole(), im: self.im.whole() }
    }
}

// ---------------------------------------------------------------------------
// Applying
// ---------------------------------------------------------------------------

/// What the first `n` taps give of the samples from `lo` on.
pub open spec fn tap_sum(taps: Seq<Symbol>, input: Seq<Symbol>, lo: int, n: int) -> Point
    decreases n,
{
    if n <= 0 {
        Point::zero()
    } else {
        tap_sum(taps, input, lo, n - 1).plus(times(taps[n - 1], input[lo + n - 1]))
    }
}

/// A coordinate in units of `1 / ONE`, rounded towards zero.
pub open spec fn settled(x: int) -> int {
    if x >= 0 {
        x / ONE as int
    } else {
        -((-x) / ONE as int)
    }
}

/// A sum can be written as a symbol.
pub open spec fn fits_symbol(sum: Point) -> bool {
    &&& i64::MIN <= settled(sum.re) <= i64::MAX
    &&& i64::MIN <= settled(sum.im) <= i64::MAX
}

/// A coordinate in units of `1 / ONE`.
fn settle(x: i128) -> (y: i64)
    requires
        i64::MIN <= settled(x as int) <= i64::MAX,
    ensures
        y == settled(x as int),
{
    let one: i128 = 9007199254740992;
    if x >= 0 {
        (x / one) as i64
    } else {
        let q: i128 = (-x) / one;
        (-q) as i64
    }
}

/// The output of the taps at the samples from `lo` on.
pub open spec fn output_at(taps: Seq<Symbol>, input: Seq<Symbol>, lo: int) -> Symbol {
    let sum = tap_sum(taps, input, lo, taps.len() as int);
    Symbol { re: settled(sum.re) as i64, im: settled(sum.im) as i64 }
}

/// The output for a symbol can be written as one.
pub open spec fn output_fits(taps: Seq<Symbol>, input: Seq<Symbol>, start: Option<usize>) -> bool {
    match start {
        Some(lo) => fits_symbol(tap_sum(taps, input, lo as int, taps.len() as int)),
        None => true,
    }
}

/// The output for a symbol: that of the taps around its sample, or zero where they do
/// not lie within the samples.
pub open spec fn output_for(taps: Seq<Symbol>, input: Seq<Symbol>, start: Option<usize>) -> Symbol {
    match start {
        Some(lo) => output_at(taps, input, lo as int),
        None => Symbol { re: 0, im: 0 },
    }
}

/// The output of the taps at the samples from `lo` on.
fn apply_taps(taps: &[Symbol], input: &[Symbol], lo: usize) -> (y: Symbol)
    requires
        lo + taps@.len() <= input@.len(),
        fits_symbol(tap_sum(taps@, input@, lo as int, taps@.len() as int)),
    ensures
        y == output_at(taps@, input@, lo as int),
{
    let mut sum = PointSum::zero();
    let len: usize = input.len();
    let mut i: usize = 0;
    while i < taps.len()
        invariant
            i <= taps@.len(),
            len == input@.len(),
            lo + taps@.len() <= len,
            sum.value() == tap_sum(taps@, input@, lo as int, i as int),
            sum.ordered(i as int),
        decreases taps@.len() - i,
    {
        sum = sum.with_times(taps[i], input[lo + i], Ghost(i as int));
        i = i + 1;
    }
    let w = sum.whole(Ghost(i as int));
    Symbol { re: settle(w.re), im: settle(w.im) }
}

/// Apply the taps at `n_total_sym` symbols, `pitch_fse` samples apart. The outputs have to
/// fit the coordinates of symbols; no other bound is set on taps and samples.
pub fn apply_ffe(
    fse_input: &[Symbol],
    ffe_taps: &[Symbol],
    first_center: usize,
    pitch_fse: usize,
    n_total_sym: usize,
) -> (out: Vec<Symbol>)
    requires
        first_center + n_total_sym * pitch_fse <= usize::MAX,
        forall|k: int|
            0 <= k < n_total_sym ==> output_fits(
                ffe_taps@,
                fse_input@,
                #[trigger] equalizer::first_sample(
                    first_center + k * pitch_fse,
                    ffe_taps@.len() as int,
                    fse_input@.len() as int,
                ),
            ),
    ensures
        out@ == Seq::new(
            n_total_sym as nat,
            |k: int|
                output_for(
                    ffe_taps@,
                    fse_input@,
                    equalizer::first_sample(
                        first_center + k * pitch_fse,
                        ffe_taps@.len() as int,
                        fse_input@.len() as int,
                    ),
                ),
        ),
{
    let n_ff: usize = ffe_taps.len();
    let starts = symbol_windows(first_center, pitch_fse, n_total_sym, n_ff, fse_input.len());
    let mut out: Vec<Symbol> = Vec::new();
    let mut k: usize = 0;
    while k < n_total_sym
        invariant
            k <= n_total_sym,
            n_ff == ffe_taps@.len(),
            forall|k: int|
                0 <= k < n_total_sym ==> output_fits(
                    ffe_taps@,
                    fse_input@,
                    #[trigger] equalizer::first_sample(
                        first_center + k * pitch_fse,
                        n_ff as int,
                        fse_input@.len() as int,
                    ),
                ),
            starts@ == Seq::new(
                n_total_sym as nat,
                |k: int|
                    equalizer::first_sample(
                        first_center + k * pitch_fse,
                        n_ff as int,
                        fse_input@.len() as int,
                    ),
            ),
            out@.len() == k,
            forall|j: int|
                0 <= j < k ==> #[trigger] out@[j] == output_for(
                    ffe_taps@,
                    fse_input@,
                    starts@[j],
                ),
        decreases n_total_sym - k,
    {
        match starts[k] {
            Some(lo) => {
                assert(starts@[k as int] == equalizer::first_sample(
                    first_center + k * pitch_fse,
                    n_ff as int,
                    fse_input@.len() as int,
                ));
                out.push(apply_taps(ffe_taps, fse_input, lo));
            },
            None => {
                out.push(Symbol { re: 0, im: 0 });
            },
        }
        k = k + 1;
    }
    assert(out@ =~= Seq::new(
        n_total_sym as nat,
        |k: int|
            output_for(
                ffe_taps@,
                fse_input@,
                equalizer::first_sample(
                    first_center + k * pitch_fse,
                    ffe_taps@.len() as int,
                    fse_input@.len() as int,
                ),
            ),
    ));
    out
}

/// All coordinates lie within a bound.
pub open spec fn all_within(s: Seq<Symbol>, bound: int) -> bool {
    forall|i: int|
        0 <= i < s.len() ==> -bound <= (#[trigger] s[i]).re <= bound && -bound <= s[i].im <= bound
}

/// Size of a coordinate.
pub open spec fn size_of(x: int) -> int {
    if x >= 0 {
        x
    } else {
        -x
    }
}

/// The sizes of the coordinates of the first `n` taps together.
pub open spec fn tap_level(taps: Seq<Symbol>, n: int) -> int
    decreases n,
{
    if n <= 0 {
        0
    } else {
        tap_level(taps, n - 1) + size_of(taps[n - 1].re as int) + size_of(taps[n - 1].im as int)
    }
}

/// Outputs at samples within a bound fit, as long as the sizes of the taps together times
/// that bound do.
pub proof fn law_bounded_levels_fit(
    taps: Seq<Symbol>,
    input: Seq<Symbol>,
    bound: int,
    start: Option<usize>,
)
    requires
        bound >= 0,
        all_within(input, bound),
        start matches Some(lo) ==> lo + taps.len() <= input.len(),
        tap_level(taps, taps.len() as int) * bound <= i64::MAX * ONE,
    ensures
        output_fits(taps, input, start),
{
    match start {
        Some(lo) => {
            lemma_sum_bound(taps, input, bound, lo as int, taps.len() as int);
        },
        None => {},
    }
}

proof fn lemma_sum_bound(taps: Seq<Symbol>, input: Seq<Symbol>, bound: int, lo: int, n: int)
    requires
        bound >= 0,
        all_within(input, bound),
        0 <= lo,
        lo + taps.len() <= input.len(),
        0 <= n <= taps.len(),
    ensures
        tap_sum(taps, input, lo, n).within(tap_level(taps, n) * bound),
    decreases n,
{
    if n > 0 {
        lemma_sum_bound(taps, input, bound, lo, n - 1);
        let (t, x) = (taps[n - 1], input[lo + n - 1]);
        let (re, im) = (size_of(t.re as int), size_of(t.im as int));
        lemma_product_bound(t.re as int, x.re as int, re, bound);
        lemma_product_bound(t.im as int, x.im as int, im, bound);
        lemma_product_bound(t.re as int, x.im as int, re, bound);
        lemma_product_bound(t.im as int, x.re as int, im, bound);
        let before = tap_level(taps, n - 1);
        assert((before + re + im) * bound == before * bound + re * bound + im * bound)
            by (nonlinear_arith);
    }
}

proof fn lemma_product_bound(x: int, y: int, a: int, b: int)
    requires
        -a <= x <= a,
        -b <= y <= b,
    ensures
        -(a * b) <= x * y <= a * b,
{
    assert(-(a * b) <= x * y <= a * b) by (nonlinear_arith)
        requires
            -a <= x <= a,
            -b <= y <= b,
    ;
}

/// A single tap of 1 in the middle hands the samples through.
pub proof fn law_middle_tap_hands_through(taps: Seq<Symbol>, input: Seq<Symbol>, lo: int)
    requires
        is_middle_tap(taps, taps.len() as int),
        taps.len() >= 1,
        0 <= lo,
        lo + taps.len() <= input.len(),
    ensures
        fits_symbol(tap_sum(taps, input, lo, taps.len() as int)),
        output_at(taps, input, lo) == input[lo + taps.len() / 2],
{
    let m = taps.len() as int / 2;
    lemma_middle_sum(taps, input, lo, taps.len() as int);
    let s = input[lo + m];
    lemma_settled_multiple(s.re as int);
    lemma_settled_multiple(s.im as int);
}

proof fn lemma_settled_multiple(x: int)
    ensures
        settled(ONE * x) == x,
{
    let one = ONE as int;
    if x >= 0 {
        vstd::arithmetic::div_mod::lemma_div_multiples_vanish(x, one);
        assert(one * x >= 0) by (nonlinear_arith)
            requires
                one > 0,
                x >= 0,
        ;
    } else {
        vstd::arithmetic::div_mod::lemma_div_multiples_vanish(-x, one);
        assert(one * (-x) == -(one * x) && one * x < 0) by (nonlinear_arith)
            requires
                one > 0,
                x < 0,
        ;
    }
}

proof fn lemma_middle_sum(taps: Seq<Symbol>, input: Seq<Symbol>, lo: int, n: int)
    requires
        is_middle_tap(taps, taps.len() as int),
        0 <= n <= taps.len(),
    ensures
        tap_sum(taps, input, lo, n) == if n > taps.len() / 2 {
            let s = input[lo + taps.len() / 2];
            Point { re: ONE * s.re, im: ONE * s.im }
        } else {
            Point::zero()
        },
    decreases n,
{
    if n > 0 {
        lemma_middle_sum(taps, input, lo, n - 1);
        let t = taps[n - 1];
        let s = input[lo + n - 1];
        if n - 1 == taps.len() / 2 {
            assert(t.im * s.im == 0 && t.im * s.re == 0) by (nonlinear_arith)
                requires
                    t.im == 0,
            ;
            assert(t.re * s.re == ONE * s.re && t.re * s.im == ONE * s.im) by (nonlinear_arith)
                requires
                    t.re == ONE,
            ;
        } else {
            assert(t.re * s.re == 0 && t.im * s.im == 0 && t.re * s.im == 0 && t.im * s.re == 0)
                by (nonlinear_arith)
                requires
                    t.re == 0,
                    t.im == 0,
            ;
        }
    }
}

// ---------------------------------------------------------------------------
// Fitting
// ---------------------------------------------------------------------------

/// Entry (`i`, `j`) of the matrix of the least-squares system, over the first `n` of the
/// training symbols in use.
pub open spec fn gram_sum(
    input: Seq<Symbol>,
    used: Seq<(usize, usize)>,
    i: int,
    j: int,
    n: int,
) -> Point
    decreases n,
{
    if n <= 0 {
        Point::zero()
    } else {
        let lo = used[n - 1].1;
        gram_sum(input, used, i, j, n - 1).plus(conj_times(input[lo + i], input[lo + j]))
    }
}

/// Entry `i` of the right side of the least-squares system, over the first `n` of the
/// training symbols in use.
pub open spec fn right_sum(
    input: Seq<Symbol>,
    refs: Seq<Symbol>,
    used: Seq<(usize, usize)>,
    i: int,
    n: int,
) -> Point
    decreases n,
{
    if n <= 0 {
        Point::zero()
    } else {
        let (k, lo) = used[n - 1];
        right_sum(input, refs, used, i, n - 1).plus(conj_times(input[lo + i], refs[k as int]))
    }
}

/// The equations that the taps of least error meet.
pub struct NormalEquations {
    /// Products of the samples under the taps, summed over the training symbols.
    pub gram: Vec<Vec<Wide>>,
    /// Products of the samples with the training symbols, summed over them.
    pub rhs: Vec<Wide>,
}

impl NormalEquations {
    /// These are the equations for some training symbols in use.
    pub open spec fn are_of(
        self,
        input: Seq<Symbol>,
        refs: Seq<Symbol>,
        used: Seq<(usize, usize)>,
        n_ff: int,
    ) -> bool {
        let n = used.len() as int;
        &&& self.gram@.len() == n_ff
        &&& self.rhs@.len() == n_ff
        &&& forall|i: int|
            0 <= i < n_ff ==> (#[trigger] self.gram@[i])@.len() == n_ff && self.rhs@[i]@
                == right_sum(input, refs, used, i, n)
        &&& forall|i: int, j: int|
            0 <= i < n_ff && 0 <= j < n_ff ==> (#[trigger] self.gram@[i]@[j])@ == gram_sum(
                input,
                used,
                i,
                j,
                n,
            )
    }
}

/// The training symbols in use lie within the samples.
spec fn usable(used: Seq<(usize, usize)>, n_refs: int, n_ff: int, len: int) -> bool {
    forall|u: int|
        0 <= u < used.len() ==> (#[trigger] used[u]).0 < n_refs && used[u].1 + n_ff <= len
}

/// One entry of the matrix.
fn gram_entry(input: &[Symbol], used: &Vec<(usize, usize)>, i: usize, j: usize, n_ff: usize) -> (p:
    Wide)
    requires
        i < n_ff,
        j < n_ff,
        exists|n_refs: int| usable(used@, n_refs, n_ff as int, input@.len() as int),
        gram_sum(input@, used@, i as int, j as int, used@.len() as int).fits_wide(),
    ensures
        p@ == gram_sum(input@, used@, i as int, j as int, used@.len() as int),
{
    let len: usize = input.len();
    let ghost n_refs = choose|n_refs: int|
        usable(used@, n_refs, n_ff as int, input@.len() as int);
    let mut sum = PointSum::zero();
    let mut u: usize = 0;
    while u < used.len()
        invariant
            u <= used@.len(),
            i < n_ff,
            j < n_ff,
            len == input@.len(),
            usable(used@, n_refs, n_ff as int, len as int),
            sum.value() == gram_sum(input@, used@, i as int, j as int, u as int),
            sum.ordered(u as int),
        decreases used@.len() - u,
    {
        let lo: usize = used[u].1;
        assert(used@[u as int].1 + n_ff <= len);
        sum = sum.with_conj_times(input[lo + i], input[lo + j], Ghost(u as int));
        u = u + 1;
    }
    sum.whole(Ghost(u as int))
}

/// One entry of the right side.
fn right_entry(
    input: &[Symbol],
    refs: &[Symbol],
    used: &Vec<(usize, usize)>,
    i: usize,
    n_ff: usize,
) -> (p: Wide)
    requires
        i < n_ff,
        usable(used@, refs@.len() as int, n_ff as int, input@.len() as int),
        right_sum(input@, refs@, used@, i as int, used@.len() as int).fits_wide(),
    ensures
        p@ == right_sum(input@, refs@, used@, i as int, used@.len() as int),
{
    let len: usize = input.len();
    let mut sum = PointSum::zero();
    let mut u: usize = 0;
    while u < used.len()
        invariant
            u <= used@.len(),
            i < n_ff,
            len == input@.len(),
            usable(used@, refs@.len() as int, n_ff as int, len as int),
            sum.value() == right_sum(input@, refs@, used@, i as int, u as int),
            sum.ordered(u as int),
        decreases used@.len() - u,
    {
        let (k, lo) = used[u];
        assert(used@[u as int].0 < refs@.len() && used@[u as int].1 + n_ff <= len);
        sum = sum.with_conj_times(input[lo + i], refs[k], Ghost(u as int));
        u = u + 1;
    }
    sum.whole(Ghost(u as int))
}

/// The entries of the least-squares system fit 128 bits.
pub open spec fn system_fits(
    input: Seq<Symbol>,
    refs: Seq<Symbol>,
    used: Seq<(usize, usize)>,
    n_ff: int,
) -> bool {
    &&& forall|i: int, j: int|
        0 <= i < n_ff && 0 <= j < n_ff ==> (#[trigger] gram_sum(
            input,
            used,
            i,
            j,
            used.len() as int,
        )).fits_wide()
    &&& forall|i: int|
        0 <= i < n_ff ==> (#[trigger] right_sum(
            input,
            refs,
            used,
            i,
            used.len() as int,
        )).fits_wide()
}

/// The equations that the taps of least error over some training symbols meet.
pub fn normal_equations(
    fse_input: &[Symbol],
    training_refs: &[Symbol],
    training_positions: &[usize],
    n_ff: usize,
) -> (system: NormalEquations)
    requires
        training_refs@.len() == training_positions@.len(),
        system_fits(
            fse_input@,
            training_refs@,
            equalizer::training_used(
                training_positions@,
                n_ff as int,
                fse_input@.len() as int,
                0,
            ),
            n_ff as int,
        ),
    ensures
        system.are_of(
            fse_input@,
            training_refs@,
            equalizer::training_used(
                training_positions@,
                n_ff as int,
                fse_input@.len() as int,
                0,
            ),
            n_ff as int,
        ),
{
    let used = training_windows(training_positions, n_ff, fse_input.len());
    let ghost n_refs = training_refs@.len() as int;
    proof {
        assert(training_positions.len() == training_positions@.len());
        equalizer::lemma_training_used(
            training_positions@,
            n_ff as int,
            fse_input@.len() as int,
            0,
        );
        assert(usable(used@, n_refs, n_ff as int, fse_input@.len() as int));
    }
    let mut gram: Vec<Vec<Wide>> = Vec::new();
    let mut rhs: Vec<Wide> = Vec::new();
    let mut i: usize = 0;
    while i < n_ff
        invariant
            i <= n_ff,
            n_refs == training_refs@.len(),
            usable(used@, n_refs, n_ff as int, fse_input@.len() as int),
            system_fits(fse_input@, training_refs@, used@, n_ff as int),
            gram@.len() == i,
            rhs@.len() == i,
            forall|a: int|
                0 <= a < i ==> (#[trigger] gram@[a])@.len() == n_ff && rhs@[a]@ == right_sum(
                    fse_input@,
                    training_refs@,
                    used@,
                    a,
                    used@.len() as int,
                ),
            forall|a: int, b: int|
                0 <= a < i && 0 <= b < n_ff ==> (#[trigger] gram@[a]@[b])@ == gram_sum(
                    fse_input@,
                    used@,
                    a,
                    b,
                    used@.len() as int,
                ),
        decreases n_ff - i,
    {
        let mut row: Vec<Wide> = Vec::new();
        let mut j: usize = 0;
        while j < n_ff
            invariant
                i < n_ff,
                j <= n_ff,
                usable(used@, n_refs, n_ff as int, fse_input@.len() as int),
                system_fits(fse_input@, training_refs@, used@, n_ff as int),
                row@.len() == j,
                forall|b: int|
                    0 <= b < j ==> (#[trigger] row@[b])@ == gram_sum(
                        fse_input@,
                        used@,
                        i as int,
                        b,
                        used@.len() as int,
                    ),
            decreases n_ff - j,
        {
            row.push(gram_entry(fse_input, &used, i, j, n_ff));
            j = j + 1;
        }
        rhs.push(right_entry(fse_input, training_refs, &used, i, n_ff));
        gram.push(row);
        i = i + 1;
    }
    NormalEquations { gram, rhs }
}

/// The matrix is its own mirror image, and its diagonal is real and not negative.
pub proof fn law_gram_is_hermitian(
    input: Seq<Symbol>,
    used: Seq<(usize, usize)>,
    i: int,
    j: int,
    n: int,
)
    requires
        0 <= n <= used.len(),
    ensures
        gram_sum(input, used, j, i, n) == gram_sum(input, used, i, j, n).conj(),
        gram_sum(input, used, i, i, n).im == 0,
        gram_sum(input, used, i, i, n).re >= 0,
    decreases n,
{
    if n > 0 {
        law_gram_is_hermitian(input, used, i, j, n - 1);
        let lo = used[n - 1].1;
        let (a, b) = (input[lo + i], input[lo + j]);
        assert(a.re * b.re == b.re * a.re && a.im * b.im == b.im * a.im && a.re * b.im == b.im
            * a.re && a.im * b.re == b.re * a.im) by (nonlinear_arith);
        assert(a.re * a.re >= 0 && a.im * a.im >= 0 && a.re * a.im == a.im * a.re)
            by (nonlinear_arith);
    }
}

/// The taps that hand samples through: 1 in the middle.
pub open spec fn is_middle_tap(taps: Seq<Symbol>, n_ff: int) -> bool {
    &&& taps.len() == n_ff
    &&& forall|i: int|
        0 <= i < n_ff ==> #[trigger] taps[i] == (Symbol {
            re: if i == n_ff / 2 {
                ONE
            } else {
                0
            },
            im: 0,
        })
}

/// The taps to use where the equations have no solution.
pub fn middle_tap(n_ff: usize) -> (taps: Vec<Symbol>)
    ensures
        is_middle_tap(taps@, n_ff as int),
{
    let mut taps: Vec<Symbol> = Vec::new();
    let mut i: usize = 0;
    while i < n_ff
        invariant
            i <= n_ff,
            taps@.len() == i,
            forall|j: int|
                0 <= j < i ==> #[trigger] taps@[j] == (Symbol {
                    re: if j == n_ff / 2 {
                        ONE
                    } else {
                        0
                    },
                    im: 0,
                }),
        decreases n_ff - i,
    {
        let re: i64 = if i == n_ff / 2 {
            ONE
        } else {
            0
        };
        taps.push(Symbol { re, im: 0 });
        i = i + 1;
    }
    taps
}

// ---------------------------------------------------------------------------
// Laws on taps
// ---------------------------------------------------------------------------

/// Taps work independently: the sum of two sets of taps gives the sum of what each gives.
pub proof fn law_taps_add_up(
    a: Seq<Symbol>,
    b: Seq<Symbol>,
    c: Seq<Symbol>,
    input: Seq<Symbol>,
    lo: int,
    n: int,
)
    requires
        forall|i: int|
            0 <= i < n ==> (#[trigger] c[i]).re == a[i].re + b[i].re && c[i].im == a[i].im
                + b[i].im,
    ensures
        tap_sum(c, input, lo, n) == tap_sum(a, input, lo, n).plus(tap_sum(b, input, lo, n)),
    decreases n,
{
    if n > 0 {
        law_taps_add_up(a, b, c, input, lo, n - 1);
        let (s, t, u) = (a[n - 1], b[n - 1], c[n - 1]);
        let x = input[lo + n - 1];
        assert(u.re == s.re + t.re);
        assert(u.re * x.re == s.re * x.re + t.re * x.re && u.im * x.im == s.im * x.im + t.im * x.im
            && u.re * x.im == s.re * x.im + t.re * x.im && u.im * x.re == s.im * x.re + t.im
            * x.re) by (nonlinear_arith)
            requires
                u.re == s.re + t.re,
                u.im == s.im + t.im,
        ;
    }
}

/// A single tap turns and stretches the sample under it: tap `k` the sample `k` behind the
/// first.
pub proof fn law_single_tap_takes_its_sample(
    taps: Seq<Symbol>,
    input: Seq<Symbol>,
    lo: int,
    n: int,
    k: int,
)
    requires
        0 <= k < n,
        forall|i: int|
            0 <= i < n && i != k ==> (#[trigger] taps[i]).re == 0 && taps[i].im == 0,
    ensures
        ({
            let (t, x) = (taps[k], input[lo + k]);
            let sum = tap_sum(taps, input, lo, n);
            &&& sum.re == t.re * x.re - t.im * x.im
            &&& sum.im == t.re * x.im + t.im * x.re
        }),
    decreases n,
{
    let x = input[lo + n - 1];
    if k == n - 1 {
        lemma_no_taps(taps, input, lo, n - 1);
    } else {
        law_single_tap_takes_its_sample(taps, input, lo, n - 1, k);
        assert(taps[n - 1].re == 0);
        assert(0 * x.re == 0 && 0 * x.im == 0);
    }
}

proof fn lemma_no_taps(taps: Seq<Symbol>, input: Seq<Symbol>, lo: int, n: int)
    requires
        forall|i: int| 0 <= i < n ==> (#[trigger] taps[i]).re == 0 && taps[i].im == 0,
    ensures
        tap_sum(taps, input, lo, n) == Point::zero(),
    decreases n,
{
    if n > 0 {
        lemma_no_taps(taps, input, lo, n - 1);
        let x = input[lo + n - 1];
        assert(taps[n - 1].re == 0);
        assert(0 * x.re == 0 && 0 * x.im == 0);
    }
}

/// An output is what the taps give, in units of `1 / ONE` and rounded towards zero.
pub proof fn law_outputs_are_rounded_towards_zero(x: int)
    ensures
        x >= 0 ==> settled(x) * ONE <= x < (settled(x) + 1) * ONE,
        x < 0 ==> (settled(x) - 1) * ONE < x <= settled(x) * ONE,
{
}

/// A point times a symbol.
pub open spec fn scaled_by(p: Point, t: Symbol) -> Point {
    Point { re: p.re * t.re - p.im * t.im, im: p.re * t.im + p.im * t.re }
}

/// Row `i` of the matrix times the first `m` taps.
pub open spec fn row_times(
    input: Seq<Symbol>,
    used: Seq<(usize, usize)>,
    taps: Seq<Symbol>,
    i: int,
    m: int,
    n: int,
) -> Point
    decreases m,
{
    if m <= 0 {
        Point::zero()
    } else {
        row_times(input, used, taps, i, m - 1, n).plus(
            scaled_by(gram_sum(input, used, i, m - 1, n), taps[m - 1]),
        )
    }
}

/// The mirror image of a sample times a point.
spec fn conj_scaled(a: Symbol, p: Point) -> Point {
    Point { re: a.re * p.re + a.im * p.im, im: a.re * p.im - a.im * p.re }
}

/// One more training symbol adds its sample times its output to a row.
proof fn lemma_row_grows(
    input: Seq<Symbol>,
    used: Seq<(usize, usize)>,
    taps: Seq<Symbol>,
    i: int,
    m: int,
    n: int,
)
    requires
        n >= 1,
        m >= 0,
    ensures
        ({
            let lo = used[n - 1].1 as int;
            row_times(input, used, taps, i, m, n) == row_times(
                input,
                used,
                taps,
                i,
                m,
                n - 1,
            ).plus(conj_scaled(input[lo + i], tap_sum(taps, input, lo, m)))
        }),
    decreases m,
{
    let lo = used[n - 1].1 as int;
    let a = input[lo + i];
    if m > 0 {
        lemma_row_grows(input, used, taps, i, m - 1, n);
        let (t, x) = (taps[m - 1], input[lo + m - 1]);
        let g = gram_sum(input, used, i, m - 1, n - 1);
        lemma_mirror_product(a, x, t, g, tap_sum(taps, input, lo, m - 1));
    } else {
        assert(a.re * 0 == 0 && a.im * 0 == 0);
    }
}

proof fn lemma_mirror_product(a: Symbol, x: Symbol, t: Symbol, g: Point, s: Point)
    ensures
        scaled_by(g.plus(conj_times(a, x)), t) == scaled_by(g, t).plus(
            scaled_by(conj_times(a, x), t),
        ),
        conj_scaled(a, s.plus(times(t, x))) == conj_scaled(a, s).plus(
            scaled_by(conj_times(a, x), t),
        ),
{
    let (ar, ai) = (a.re as int, a.im as int);
    let (xr, xi) = (x.re as int, x.im as int);
    let (tr, ti) = (t.re as int, t.im as int);
    let (cr, ci) = (ar * xr + ai * xi, ar * xi - ai * xr);
    let (gr, gi) = (g.re, g.im);
    assert((gr + cr) * tr - (gi + ci) * ti == (gr * tr - gi * ti) + (cr * tr - ci * ti) && (gr + cr)
        * ti + (gi + ci) * tr == (gr * ti + gi * tr) + (cr * ti + ci * tr)) by (nonlinear_arith);
    let (pr, pi) = (tr * xr - ti * xi, tr * xi + ti * xr);
    assert(ar * (s.re + pr) + ai * (s.im + pi) == (ar * s.re + ai * s.im) + (ar * pr + ai * pi)
        && ar * (s.im + pi) - ai * (s.re + pr) == (ar * s.im - ai * s.re) + (ar * pi - ai * pr))
        by (nonlinear_arith);
    assert(ar * pr == ar * tr * xr - ar * ti * xi && ai * pi == ai * tr * xi + ai * ti * xr && ar
        * pi == ar * tr * xi + ar * ti * xr && ai * pr == ai * tr * xr - ai * ti * xi)
        by (nonlinear_arith)
        requires
            pr == tr * xr - ti * xi,
            pi == tr * xi + ti * xr,
    ;
    assert(cr * tr == ar * tr * xr + ai * tr * xi && ci * ti == ar * ti * xi - ai * ti * xr && cr
        * ti == ar * ti * xr + ai * ti * xi && ci * tr == ar * tr * xi - ai * tr * xr)
        by (nonlinear_arith)
        requires
            cr == ar * xr + ai * xi,
            ci == ar * xi - ai * xr,
    ;
}

/// Taps that bring out every training symbol in use meet the equations: each row of the
/// matrix times the taps is the right side, in units of `1 / ONE` as the taps are.
pub proof fn law_exact_taps_meet_the_equations(
    input: Seq<Symbol>,
    refs: Seq<Symbol>,
    used: Seq<(usize, usize)>,
    taps: Seq<Symbol>,
    i: int,
    n: int,
)
    requires
        0 <= n <= used.len(),
        forall|u: int|
            0 <= u < n ==> {
                let (k, lo) = #[trigger] used[u];
                tap_sum(taps, input, lo as int, taps.len() as int) == (Point {
                    re: ONE * refs[k as int].re,
                    im: ONE * refs[k as int].im,
                })
            },
    ensures
        ({
            let right = right_sum(input, refs, used, i, n);
            row_times(input, used, taps, i, taps.len() as int, n) == (Point {
                re: ONE * right.re,
                im: ONE * right.im,
            })
        }),
    decreases n,
{
    let m = taps.len() as int;
    if n == 0 {
        lemma_empty_rows(input, used, taps, i, m);
    } else {
        law_exact_taps_meet_the_equations(input, refs, used, taps, i, n - 1);
        lemma_row_grows(input, used, taps, i, m, n);
        let (k, lo) = used[n - 1];
        assert(tap_sum(taps, input, lo as int, m).re == ONE * refs[k as int].re);
        let a = input[lo + i];
        let r = refs[k as int];
        let before = right_sum(input, refs, used, i, n - 1);
        let one = ONE as int;
        let (x, y) = (a.re * r.re + a.im * r.im, a.re * r.im - a.im * r.re);
        lemma_unit_factor(a.re as int, r.re as int, one);
        lemma_unit_factor(a.im as int, r.im as int, one);
        lemma_unit_factor(a.re as int, r.im as int, one);
        lemma_unit_factor(a.im as int, r.re as int, one);
        let (p, q) = (a.re * r.re, a.im * r.im);
        let (v, w) = (a.re * r.im, a.im * r.re);
        assert(one * (p + q) == one * p + one * q && one * (v - w) == one * v - one * w)
            by (nonlinear_arith);
        assert(one * (before.re + x) == one * before.re + one * x && one * (before.im + y) == one
            * before.im + one * y) by (nonlinear_arith);
    }
}

proof fn lemma_unit_factor(a: int, b: int, one: int)
    ensures
        a * (one * b) == one * (a * b),
{
    assert(a * (one * b) == one * (a * b)) by (nonlinear_arith);
}

proof fn lemma_empty_rows(
    input: Seq<Symbol>,
    used: Seq<(usize, usize)>,
    taps: Seq<Symbol>,
    i: int,
    m: int,
)
    ensures
        row_times(input, used, taps, i, m, 0) == Point::zero(),
    decreases m,
{
    if m > 0 {
        lemma_empty_rows(input, used, taps, i, m - 1);
        let t = taps[m - 1];
        assert(0 * t.re == 0 && 0 * t.im == 0);
    }
}

/// The output for a symbol is what the taps give at its sample, each coordinate rounded, and
/// zero where the taps do not fit.
pub proof fn law_output_is_that_of_the_taps(taps: Seq<Symbol>, input: Seq<Symbol>, lo: usize)
    requires
        output_fits(taps, input, Some(lo)),
    ensures
        ({
            let sum = tap_sum(taps, input, lo as int, taps.len() as int);
            let out = output_for(taps, input, Some(lo));
            &&& -ONE < sum.re - out.re * ONE < ONE
            &&& -ONE < sum.im - out.im * ONE < ONE
            &&& output_for(taps, input, None) == (Symbol { re: 0, im: 0 })
        }),
{
}

} // verus!
