//! The normalised min-sum update of one parity check, on integers.
//!
//! A log-likelihood ratio (LLR) is an integer in units of `1 / LLR_ONE`.
//! Positive means that bit 0 is more likely.

use vstd::prelude::*;

use crate::ldpc::gf2;

verus! {

/// The LLR 1.0.
pub const LLR_ONE: i64 = 65536;

/// Largest magnitude of a channel LLR and of a message: 25.0.
pub const LLR_CLIP: i64 = 1638400;

/// Beyond every magnitude that occurs.
pub const LLR_FAR: i64 = 1152921504606846976;

/// Bound on the magnitude of every total.
pub const TOTAL_LIMIT: i64 = 4000000000;

/// `x` limited to `LLR_CLIP` on both sides.
pub open spec fn clip(x: int) -> i64 {
    if x > LLR_CLIP {
        LLR_CLIP
    } else if x < -LLR_CLIP {
        (-LLR_CLIP) as i64
    } else {
        x as i64
    }
}

/// Magnitude of `x`.
pub open spec fn magnitude(x: int) -> int {
    if x < 0 {
        -x
    } else {
        x
    }
}

/// What the variables tell the check: their totals without the check's own message.
pub open spec fn incoming(total: Seq<i64>, cols: Seq<usize>, r: Seq<i64>) -> Seq<i64> {
    Seq::new(cols.len(), |j: int| (total[cols[j] as int] - r[j]) as i64)
}

/// The least magnitude among the first `upto` incoming values other than `j`.
pub open spec fn other_min(q: Seq<i64>, j: int, upto: int) -> int
    decreases upto,
{
    if upto <= 0 {
        LLR_FAR as int
    } else {
        let before = other_min(q, j, upto - 1);
        let here = magnitude(q[upto - 1] as int);
        if upto - 1 != j && here < before {
            here
        } else {
            before
        }
    }
}

/// Whether an odd number of the first `upto` incoming values other than `j` is negative.
pub open spec fn other_negative(q: Seq<i64>, j: int, upto: int) -> bool
    decreases upto,
{
    if upto <= 0 {
        false
    } else {
        other_negative(q, j, upto - 1) != (upto - 1 != j && q[upto - 1] < 0)
    }
}

/// Three quarters of the least other magnitude, with the sign of the product of
/// the others, clipped.
pub open spec fn message(q: Seq<i64>, j: int) -> i64 {
    let mag = other_min(q, j, q.len() as int) * 3 / 4;
    if other_negative(q, j, q.len() as int) {
        clip(-mag)
    } else {
        clip(mag)
    }
}

/// The messages of a check after its update.
pub open spec fn row_messages(total: Seq<i64>, cols: Seq<usize>, r: Seq<i64>) -> Seq<i64> {
    Seq::new(cols.len(), |j: int| message(incoming(total, cols, r), j))
}

/// The totals after the update of one check.
pub open spec fn row_totals(total: Seq<i64>, cols: Seq<usize>, r: Seq<i64>) -> Seq<i64> {
    Seq::new(
        total.len(),
        |c: int|
            if cols.contains(c as usize) {
                let j = cols.index_of(c as usize);
                (incoming(total, cols, r)[j] + row_messages(total, cols, r)[j]) as i64
            } else {
                total[c]
            },
    )
}

/// Every magnitude is at most `limit`.
pub open spec fn bounded(v: Seq<i64>, limit: int) -> bool {
    forall|i: int| 0 <= i < v.len() ==> -limit <= #[trigger] v[i] <= limit
}

/// Limit `x` to `LLR_CLIP` on both sides.
pub fn clip_llr(x: i64) -> (y: i64)
    ensures
        y == clip(x as int),
{
    if x > LLR_CLIP {
        LLR_CLIP
    } else if x < -LLR_CLIP {
        -LLR_CLIP
    } else {
        x
    }
}

/// Update one check: its messages and the totals of its variables.
pub fn update_row(total: &mut Vec<i64>, cols: &Vec<usize>, r: &mut Vec<i64>)
    requires
        gf2::rising(cols@, old(total)@.len()),
        old(r)@.len() == cols@.len(),
        bounded(old(total)@, TOTAL_LIMIT as int),
        bounded(old(r)@, LLR_CLIP as int),
    ensures
        final(total)@ == row_totals(old(total)@, cols@, old(r)@),
        final(r)@ == row_messages(old(total)@, cols@, old(r)@),
{
    let ghost total0 = total@;
    let ghost r0 = r@;
    let ghost qs = incoming(total0, cols@, r0);
    let n: usize = total.len();
    let degree: usize = cols.len();
    let mut q: Vec<i64> = Vec::new();
    let mut min1: i64 = LLR_FAR;
    let mut min2: i64 = LLR_FAR;
    let mut min1_at: usize = 0;
    let mut negative: bool = false;
    let mut t: usize = 0;
    while t < degree
        invariant
            t <= degree,
            degree == cols@.len(),
            r@.len() == degree,
            total@ == total0,
            r@ == r0,
            qs == incoming(total0, cols@, r0),
            gf2::rising(cols@, total0.len()),
            bounded(total0, TOTAL_LIMIT as int),
            bounded(r0, LLR_CLIP as int),
            q@ == qs.take(t as int),
            0 <= min1 <= min2 <= LLR_FAR,
            t > 0 ==> min1_at < t,
            t == 0 ==> min1 == LLR_FAR && min2 == LLR_FAR,
            t > 0 ==> min1 < LLR_FAR,
            forall|j: int|
                0 <= j < degree ==> #[trigger] other_min(qs, j, t as int) == if j == min1_at && j
                    < t {
                    min2 as int
                } else {
                    min1 as int
                },
            forall|j: int|
                0 <= j < degree ==> #[trigger] other_negative(qs, j, t as int) == (negative != (j
                    < t && qs[j] < 0)),
        decreases degree - t,
    {
        let col: usize = cols[t];
        assert(cols@[t as int] < total0.len());
        assert(-TOTAL_LIMIT <= total0[col as int] <= TOTAL_LIMIT);
        assert(-LLR_CLIP <= r0[t as int] <= LLR_CLIP);
        let x: i64 = total[col] - r[t];
        assert(x == qs[t as int]);
        let a: i64 = if x < 0 { -x } else { x };
        let ghost old_min1 = min1;
        let ghost old_min2 = min2;
        let ghost old_at = min1_at;
        let ghost old_negative = negative;
        if x < 0 {
            negative = !negative;
        }
        if a < min1 {
            min2 = min1;
            min1 = a;
            min1_at = t;
        } else if a < min2 {
            min2 = a;
        }
        q.push(x);
        assert(qs.take(t + 1) =~= qs.take(t as int).push(x));
        assert forall|j: int| 0 <= j < degree implies #[trigger] other_min(qs, j, t + 1)
            == if j == min1_at && j < t + 1 {
            min2 as int
        } else {
            min1 as int
        } by {
            assert(other_min(qs, j, t as int) == if j == old_at && j < t {
                old_min2 as int
            } else {
                old_min1 as int
            });
        }
        assert forall|j: int| 0 <= j < degree implies #[trigger] other_negative(
            qs,
            j,
            t + 1,
        ) == (negative != (j < t + 1 && qs[j] < 0)) by {
            assert(other_negative(qs, j, t as int) == (old_negative != (j < t && qs[j] < 0)));
        }
        t = t + 1;
    }
    assert(q@ =~= qs);

    let ghost news = row_messages(total0, cols@, r0);
    for j in 0..degree
        invariant
            degree == cols@.len(),
            r@.len() == degree,
            r0.len() == degree,
            total@.len() == n,
            total0.len() == n,
            qs == incoming(total0, cols@, r0),
            news == row_messages(total0, cols@, r0),
            q@ == qs,
            gf2::rising(cols@, total0.len()),
            bounded(total0, TOTAL_LIMIT as int),
            bounded(r0, LLR_CLIP as int),
            0 <= min1 <= min2 <= LLR_FAR,
            forall|x: int|
                0 <= x < degree ==> #[trigger] other_min(qs, x, degree as int) == if x == min1_at {
                    min2 as int
                } else {
                    min1 as int
                },
            forall|x: int|
                0 <= x < degree ==> #[trigger] other_negative(qs, x, degree as int) == (negative
                    != (qs[x] < 0)),
            forall|x: int|
                0 <= x < degree ==> #[trigger] r@[x] == if x < j {
                    news[x]
                } else {
                    r0[x]
                },
            forall|x: int|
                0 <= x < degree ==> total@[#[trigger] cols@[x] as int] == if x < j {
                    (qs[x] + news[x]) as i64
                } else {
                    total0[cols@[x] as int]
                },
            forall|c: int|
                0 <= c < total0.len() && !cols@.contains(c as usize) ==> #[trigger] total@[c]
                    == total0[c],
    {
        let x: i64 = q[j];
        assert(other_min(qs, j as int, degree as int) == if j == min1_at {
            min2 as int
        } else {
            min1 as int
        });
        let mag: i64 = if j == min1_at { min2 } else { min1 };
        let scaled: i64 = mag * 3 / 4;
        let signed: i64 = if (x < 0) != negative { -scaled } else { scaled };
        let new_r: i64 = clip_llr(signed);
        assert(other_negative(qs, j as int, degree as int) == (negative != (qs[j as int] < 0)));
        assert(new_r == news[j as int]);
        let col: usize = cols[j];
        let ghost before = total@;
        assert(cols@[j as int] < total0.len());
        assert(-TOTAL_LIMIT <= total0[col as int] <= TOTAL_LIMIT);
        assert(-LLR_CLIP <= r0[j as int] <= LLR_CLIP);
        total[col] = x + new_r;
        r[j] = new_r;
        assert forall|y: int| 0 <= y < degree implies total@[#[trigger] cols@[y] as int] == if y < j
            + 1 {
            (qs[y] + news[y]) as i64
        } else {
            total0[cols@[y] as int]
        } by {
            if y < j {
                assert(cols@[y] < cols@[j as int]);
            } else if j < y {
                assert(cols@[j as int] < cols@[y]);
            }
            assert(cols@[y] < total0.len());
        }
    }
    proof {
        assert(r@ =~= news);
        let want = row_totals(total0, cols@, r0);
        assert forall|c: int| 0 <= c < total0.len() implies #[trigger] total@[c] == want[c] by {
            if cols@.contains(c as usize) {
                let j = cols@.index_of(c as usize);
                assert(cols@[j] == c as usize);
                assert(total@[cols@[j] as int] == (qs[j] + news[j]) as i64);
            }
        }
        assert(total@ =~= want);
    }
}

/// How many of the first `upto` values other than `j` are negative.
pub open spec fn count_negative(q: Seq<i64>, j: int, upto: int) -> int
    decreases upto,
{
    if upto <= 0 {
        0
    } else {
        count_negative(q, j, upto - 1) + if upto - 1 != j && q[upto - 1] < 0 {
            1int
        } else {
            0
        }
    }
}

proof fn lemma_sign_counts(q: Seq<i64>, j: int, upto: int)
    ensures
        other_negative(q, j, upto) <==> count_negative(q, j, upto) % 2 == 1,
        count_negative(q, j, upto) >= 0,
    decreases upto,
{
    if upto > 0 {
        lemma_sign_counts(q, j, upto - 1);
    }
}

proof fn lemma_other_min(q: Seq<i64>, j: int, upto: int)
    requires
        0 <= upto <= q.len(),
    ensures
        0 <= other_min(q, j, upto) <= LLR_FAR,
        forall|i: int| 0 <= i < upto && i != j ==> other_min(q, j, upto) <= magnitude(q[i] as int),
        other_min(q, j, upto) == LLR_FAR || exists|i: int|
            0 <= i < upto && i != j && other_min(q, j, upto) == magnitude(#[trigger] q[i] as int),
    decreases upto,
{
    if upto > 0 {
        lemma_other_min(q, j, upto - 1);
    }
}

/// What a check tells a variable: no more than three quarters of what any other variable
/// told it, exactly that (rounded down) for the weakest of them, and with the sign that
/// makes the check come out even.
pub proof fn law_message_is_three_quarters_of_the_weakest(q: Seq<i64>, j: int, i: int)
    requires
        0 <= j < q.len(),
        0 <= i < q.len(),
        i != j,
    ensures
        4 * magnitude(message(q, j) as int) <= 3 * magnitude(q[i] as int),
        magnitude(message(q, j) as int) <= 25 * 65536,
        magnitude(q[i] as int) <= 25 * 65536 ==> exists|k: int|
            0 <= k < q.len() && k != j && 3 * magnitude(#[trigger] q[k] as int) - 4 < 4
                * magnitude(message(q, j) as int),
        message(q, j) > 0 ==> count_negative(q, j, q.len() as int) % 2 == 0,
        message(q, j) < 0 ==> count_negative(q, j, q.len() as int) % 2 == 1,
{
    lemma_other_min(q, j, q.len() as int);
    lemma_sign_counts(q, j, q.len() as int);
    let low = other_min(q, j, q.len() as int);
    assert(low <= magnitude(q[i] as int));
    if magnitude(q[i] as int) <= 25 * 65536 {
        let k = choose|k: int|
            0 <= k < q.len() && k != j && low == magnitude(#[trigger] q[k] as int);
        assert(magnitude(message(q, j) as int) == low * 3 / 4);
        assert(3 * magnitude(q[k] as int) - 4 < 4 * magnitude(message(q, j) as int));
    }
}

/// An update replaces one message by another: of a variable that the check covers, the total
/// without the message stays what it was, and other totals stay altogether.
pub proof fn law_update_exchanges_messages(
    total: Seq<i64>,
    cols: Seq<usize>,
    r: Seq<i64>,
    j: int,
    c: int,
)
    requires
        gf2::rising(cols, total.len()),
        r.len() == cols.len(),
        bounded(total, 4_000_000_000),
        bounded(r, 1_638_400),
        0 <= j < cols.len(),
        0 <= c < total.len(),
        !cols.contains(c as usize),
    ensures
        ({
            let after = row_totals(total, cols, r);
            let news = row_messages(total, cols, r);
            &&& after.len() == total.len()
            &&& news.len() == r.len()
            &&& after[cols[j] as int] - news[j] == total[cols[j] as int] - r[j]
            &&& after[c] == total[c]
        }),
{
    let v = cols[j];
    assert(cols.contains(v));
    let i = cols.index_of(v);
    assert(cols[i] == v);
    assert(i == j) by {
        if i < j {
            assert(cols[i] < cols[j]);
        } else if j < i {
            assert(cols[j] < cols[i]);
        }
    }
    assert(-4_000_000_000 <= total[v as int] <= 4_000_000_000);
    assert(-25 * 65536 <= r[j] <= 25 * 65536);
}

/// Values are limited to 25, in units of 65536, on both sides, and within that left alone.
pub proof fn law_clipping_limits_to_25(x: int)
    ensures
        -25 * 65536 <= clip(x) <= 25 * 65536,
        -25 * 65536 <= x <= 25 * 65536 ==> clip(x) == x,
        x > 25 * 65536 ==> clip(x) == 25 * 65536,
        x < -25 * 65536 ==> clip(x) == -25 * 65536,
{
}

} // verus!
