//! Layered normalised min-sum decoder on integer log-likelihood ratios.
//!
//! Each check is updated in turn with the totals that the checks before it left
//! behind. The normalisation factor is 3/4.

use vstd::prelude::*;

use crate::bits;
use crate::ldpc::code;
use crate::ldpc::gf2;
use crate::ldpc::grouped;
use crate::ldpc::grouped::GroupedH;
use crate::ldpc::min_sum;
use crate::ldpc::min_sum::{LLR_CLIP, TOTAL_LIMIT};
use crate::ldpc::wimax;
use crate::ldpc::wimax::SparseH;
use crate::profile::LdpcRate;

verus! {

/// What the decoder holds between two checks.
#[verifier::ext_equal]
pub struct LlrState {
    /// For each variable, the seed plus all messages to it.
    pub totals: Seq<i64>,
    /// For each check, its messages to the variables it covers.
    pub messages: Seq<Seq<i64>>,
}

/// When to give up on a block whose unsatisfied checks no longer get fewer.
#[derive(Clone, Copy, Debug, PartialEq, Eq, Structural)]
pub struct FailStop {
    pub enabled: bool,
    /// Iterations before the rule applies.
    pub warmup: usize,
    /// Iterations in a row without improvement after which decoding stops.
    pub stag: usize,
}

/// The positions that check `row` covers.
pub open spec fn list(rate: LdpcRate, row: int) -> Seq<usize> {
    code::check_list(rate, row, 2304)
}

/// The seed with no message yet.
pub open spec fn start(rate: LdpcRate, seed: Seq<i64>) -> LlrState {
    LlrState {
        totals: seed,
        messages: Seq::new(
            code::n_checks(rate) as nat,
            |r: int| Seq::new(list(rate, r).len(), |j: int| 0i64),
        ),
    }
}

/// The update of check `row`.
pub open spec fn step(rate: LdpcRate, st: LlrState, row: int) -> LlrState {
    let cols = list(rate, row);
    LlrState {
        totals: min_sum::row_totals(st.totals, cols, st.messages[row]),
        messages: st.messages.update(
            row,
            min_sum::row_messages(st.totals, cols, st.messages[row]),
        ),
    }
}

/// The updates of the checks below `upto`, in order.
pub open spec fn sweep(rate: LdpcRate, st: LlrState, upto: int) -> LlrState
    decreases upto,
{
    if upto <= 0 {
        st
    } else {
        step(rate, sweep(rate, st, upto - 1), upto - 1)
    }
}

/// One iteration: every check once.
pub open spec fn iteration(rate: LdpcRate, st: LlrState) -> LlrState {
    sweep(rate, st, code::n_checks(rate))
}

/// Hard decisions: a negative total is a one.
pub open spec fn hard(totals: Seq<i64>) -> Seq<u8> {
    Seq::new(
        totals.len(),
        |c: int|
            if totals[c] < 0 {
                1u8
            } else {
                0u8
            },
    )
}

/// Number of checks below `upto` that the hard decisions do not satisfy.
pub open spec fn weight(rate: LdpcRate, totals: Seq<i64>, upto: int) -> int
    decreases upto,
{
    if upto <= 0 {
        0
    } else {
        weight(rate, totals, upto - 1) + (if code::syndrome_at(rate, hard(totals), upto - 1) == 0 {
            0int
        } else {
            1int
        })
    }
}

/// At most `left` iterations, until the hard decisions form a codeword.
pub open spec fn iterate(rate: LdpcRate, st: LlrState, left: nat) -> (LlrState, bool)
    decreases left,
{
    if left == 0 {
        (st, false)
    } else {
        let next = iteration(rate, st);
        if code::is_codeword(rate, hard(next.totals)) {
            (next, true)
        } else {
            iterate(rate, next, (left - 1) as nat)
        }
    }
}

/// As `iterate`, and stop early by the rule `stop`.
///
/// `done` iterations have run, `last` checks were unsatisfied after the
/// previous one, and `stagnant` iterations in a row brought no improvement.
pub open spec fn iterate_soft(
    rate: LdpcRate,
    stop: FailStop,
    st: LlrState,
    done: int,
    left: nat,
    last: int,
    stagnant: int,
) -> (LlrState, bool)
    decreases left,
{
    if left == 0 {
        (st, false)
    } else {
        let next = iteration(rate, st);
        let w = weight(rate, next.totals, code::n_checks(rate));
        let armed = stop.enabled && done + 1 > stop.warmup;
        let stuck = if armed {
            if w >= last {
                stagnant + 1
            } else {
                0
            }
        } else {
            stagnant
        };
        if w == 0 {
            (next, true)
        } else if armed && w >= last && stuck >= stop.stag {
            (next, false)
        } else {
            iterate_soft(rate, stop, next, done + 1, (left - 1) as nat, w, stuck)
        }
    }
}

/// The clipped sum of channel and prior LLRs.
pub open spec fn seed_of(channel: Seq<i32>, prior: Option<Seq<i32>>) -> Seq<i64> {
    Seq::new(
        channel.len(),
        |i: int|
            match prior {
                Some(p) => min_sum::clip(channel[i] + p[i]),
                None => min_sum::clip(channel[i] as int),
            },
    )
}

/// `x` times `num / den`, rounded towards zero.
pub open spec fn damped(x: int, num: int, den: int) -> int {
    if x < 0 {
        -((-x) * num / den)
    } else {
        x * num / den
    }
}

/// The damped and clipped difference of totals and seed.
pub open spec fn extrinsic_of(totals: Seq<i64>, seed: Seq<i64>, num: int, den: int) -> Seq<i64> {
    Seq::new(totals.len(), |i: int| min_sum::clip(damped(totals[i] - seed[i], num, den)))
}

/// What decoding channel LLRs gives: info bits and whether every check holds.
pub open spec fn is_decoding(
    rate: LdpcRate,
    max_iter: nat,
    channel: Seq<i32>,
    info: Seq<u8>,
    converged: bool,
) -> bool {
    let (st, done) = iterate(rate, start(rate, seed_of(channel, None)), max_iter);
    &&& info == hard(st.totals).take(rate.spec_k() as int)
    &&& converged == done
}

/// What soft decoding gives: info bits, extrinsic values and whether every check holds.
pub open spec fn is_soft_decoding(
    rate: LdpcRate,
    stop: FailStop,
    max_iter: nat,
    channel: Seq<i32>,
    prior: Option<Seq<i32>>,
    num: int,
    den: int,
    result: (Seq<u8>, Seq<i64>, bool),
) -> bool {
    let seed = seed_of(channel, prior);
    let (st, converged) = iterate_soft(
        rate,
        stop,
        start(rate, seed),
        0,
        max_iter,
        usize::MAX as int,
        0,
    );
    &&& result.0 == hard(st.totals).take(rate.spec_k() as int)
    &&& result.1 == extrinsic_of(st.totals, seed, num, den)
    &&& result.2 == converged
}

/// What soft decoding on layers gives.
pub open spec fn is_layered_decoding(
    rate: LdpcRate,
    max_iter: nat,
    channel: Seq<i32>,
    prior: Option<Seq<i32>>,
    num: int,
    den: int,
    result: (Seq<u8>, Seq<i64>, bool),
) -> bool {
    let seed = seed_of(channel, prior);
    let (st, converged) = iterate(rate, start(rate, seed), max_iter);
    &&& result.0 == hard(st.totals).take(rate.spec_k() as int)
    &&& result.1 == extrinsic_of(st.totals, seed, num, den)
    &&& result.2 == converged
}

/// The messages of a decoder as sequences.
pub open spec fn messages_of(m: Seq<Vec<i64>>) -> Seq<Seq<i64>> {
    Seq::new(m.len(), |r: int| m[r]@)
}

/// The messages of a decoder that keeps them by layers.
pub open spec fn unfolded(rate: LdpcRate, flats: Seq<Vec<i64>>) -> Seq<Seq<i64>> {
    Seq::new(
        code::n_checks(rate) as nat,
        |r: int| grouped::lane_messages(flats[r / 96]@, list(rate, r).len() as int, r % 96),
    )
}

// ---------------------------------------------------------------------------
// Totals stay small
// ---------------------------------------------------------------------------

/// The message of check `r` to variable `c`, or zero.
spec fn part(rate: LdpcRate, messages: Seq<Seq<i64>>, r: int, c: int) -> int {
    let cols = list(rate, r);
    if cols.contains(c as usize) {
        messages[r][cols.index_of(c as usize)] as int
    } else {
        0
    }
}

spec fn col_sum(rate: LdpcRate, messages: Seq<Seq<i64>>, c: int, upto: int) -> int
    decreases upto,
{
    if upto <= 0 {
        0
    } else {
        col_sum(rate, messages, c, upto - 1) + part(rate, messages, upto - 1, c)
    }
}

/// Shape of the messages, and their magnitude.
spec fn messages_ok(rate: LdpcRate, messages: Seq<Seq<i64>>) -> bool {
    &&& messages.len() == code::n_checks(rate)
    &&& forall|r: int|
        0 <= r < messages.len() ==> (#[trigger] messages[r]).len() == list(rate, r).len()
            && min_sum::bounded(messages[r], LLR_CLIP as int)
}

/// Each total is its seed plus the messages to it.
spec fn balanced(rate: LdpcRate, seed: Seq<i64>, st: LlrState) -> bool {
    &&& seed.len() == 2304
    &&& st.totals.len() == 2304
    &&& min_sum::bounded(seed, LLR_CLIP as int)
    &&& messages_ok(rate, st.messages)
    &&& forall|c: int|
        0 <= c < 2304 ==> #[trigger] st.totals[c] == seed[c] + col_sum(
            rate,
            st.messages,
            c,
            code::n_checks(rate),
        )
}

proof fn lemma_part_bound(rate: LdpcRate, messages: Seq<Seq<i64>>, r: int, c: int)
    requires
        messages_ok(rate, messages),
        0 <= r < code::n_checks(rate),
        0 <= c < 2304,
    ensures
        -LLR_CLIP <= part(rate, messages, r, c) <= LLR_CLIP,
{
    let cols = list(rate, r);
    assert(min_sum::bounded(messages[r], LLR_CLIP as int));
    if cols.contains(c as usize) {
        let j = cols.index_of(c as usize);
        assert(0 <= j < cols.len());
        assert(-LLR_CLIP <= messages[r][j] <= LLR_CLIP);
    }
}

proof fn lemma_col_sum_bound(rate: LdpcRate, messages: Seq<Seq<i64>>, c: int, upto: int)
    requires
        messages_ok(rate, messages),
        0 <= upto <= code::n_checks(rate),
        0 <= c < 2304,
    ensures
        -(upto * LLR_CLIP) <= col_sum(rate, messages, c, upto) <= upto * LLR_CLIP,
    decreases upto,
{
    if upto > 0 {
        lemma_col_sum_bound(rate, messages, c, upto - 1);
        lemma_part_bound(rate, messages, upto - 1, c);
    }
}

proof fn lemma_balanced_is_bounded(rate: LdpcRate, seed: Seq<i64>, st: LlrState)
    requires
        balanced(rate, seed, st),
    ensures
        min_sum::bounded(st.totals, TOTAL_LIMIT as int),
{
    assert forall|c: int| 0 <= c < 2304 implies -TOTAL_LIMIT <= #[trigger] st.totals[c]
        <= TOTAL_LIMIT by {
        lemma_col_sum_bound(rate, st.messages, c, code::n_checks(rate));
        assert(-LLR_CLIP <= seed[c] <= LLR_CLIP);
    }
}

proof fn lemma_col_sum_update(
    rate: LdpcRate,
    a: Seq<Seq<i64>>,
    row: int,
    new_row: Seq<i64>,
    c: int,
    upto: int,
)
    requires
        0 <= row < a.len(),
        upto <= a.len(),
    ensures
        col_sum(rate, a.update(row, new_row), c, upto) == col_sum(rate, a, c, upto) + (if row
            < upto {
            part(rate, a.update(row, new_row), row, c) - part(rate, a, row, c)
        } else {
            0
        }),
    decreases upto,
{
    if upto > 0 {
        lemma_col_sum_update(rate, a, row, new_row, c, upto - 1);
    }
}

proof fn lemma_step_keeps_balance(rate: LdpcRate, seed: Seq<i64>, st: LlrState, row: int)
    requires
        balanced(rate, seed, st),
        0 <= row < code::n_checks(rate),
    ensures
        balanced(rate, seed, step(rate, st, row)),
{
    lemma_balanced_is_bounded(rate, seed, st);
    let next = step(rate, st, row);
    let cols = list(rate, row);
    let old_row = st.messages[row];
    let new_row = min_sum::row_messages(st.totals, cols, old_row);
    let q = min_sum::incoming(st.totals, cols, old_row);
    code::lemma_check_list_rising(rate, row, 2304);
    assert(st.messages[row].len() == cols.len() && min_sum::bounded(old_row, LLR_CLIP as int));
    assert(min_sum::bounded(new_row, LLR_CLIP as int));
    assert forall|r: int| 0 <= r < next.messages.len() implies (#[trigger] next.messages[r]).len()
        == list(rate, r).len() && min_sum::bounded(next.messages[r], LLR_CLIP as int) by {
        assert(st.messages[r].len() == list(rate, r).len());
    }
    assert forall|c: int| 0 <= c < 2304 implies #[trigger] next.totals[c] == seed[c] + col_sum(
        rate,
        next.messages,
        c,
        code::n_checks(rate),
    ) by {
        lemma_col_sum_update(rate, st.messages, row, new_row, c, code::n_checks(rate));
        assert(st.totals[c] == seed[c] + col_sum(rate, st.messages, c, code::n_checks(rate)));
        if cols.contains(c as usize) {
            let j = cols.index_of(c as usize);
            assert(cols[j] == c as usize);
            assert(-LLR_CLIP <= old_row[j] <= LLR_CLIP);
            assert(-LLR_CLIP <= new_row[j] <= LLR_CLIP);
            assert(-TOTAL_LIMIT <= st.totals[c] <= TOTAL_LIMIT);
            assert(q[j] == st.totals[c] - old_row[j]);
        }
    }
}

proof fn lemma_sweep_keeps_balance(rate: LdpcRate, seed: Seq<i64>, st: LlrState, upto: int)
    requires
        balanced(rate, seed, st),
        0 <= upto <= code::n_checks(rate),
    ensures
        balanced(rate, seed, sweep(rate, st, upto)),
    decreases upto,
{
    if upto > 0 {
        lemma_sweep_keeps_balance(rate, seed, st, upto - 1);
        lemma_step_keeps_balance(rate, seed, sweep(rate, st, upto - 1), upto - 1);
    }
}

proof fn lemma_start_is_balanced(rate: LdpcRate, seed: Seq<i64>)
    requires
        seed.len() == 2304,
        min_sum::bounded(seed, LLR_CLIP as int),
    ensures
        balanced(rate, seed, start(rate, seed)),
{
    let st = start(rate, seed);
    assert forall|c: int| 0 <= c < 2304 implies #[trigger] st.totals[c] == seed[c] + col_sum(
        rate,
        st.messages,
        c,
        code::n_checks(rate),
    ) by {
        lemma_zero_col_sum(rate, seed, c, code::n_checks(rate));
    }
}

proof fn lemma_zero_col_sum(rate: LdpcRate, seed: Seq<i64>, c: int, upto: int)
    requires
        upto <= code::n_checks(rate),
        0 <= c < 2304,
    ensures
        col_sum(rate, start(rate, seed).messages, c, upto) == 0,
    decreases upto,
{
    if upto > 0 {
        lemma_zero_col_sum(rate, seed, c, upto - 1);
        let cols = list(rate, upto - 1);
        if cols.contains(c as usize) {
            let j = cols.index_of(c as usize);
            assert(0 <= j < cols.len());
            assert(start(rate, seed).messages[upto - 1][j] == 0);
        }
    }
}

/// While the checks of the first pass are updated, the totals stay small.
pub proof fn lemma_sweep_is_bounded(rate: LdpcRate, seed: Seq<i64>, upto: int)
    requires
        seed.len() == 2304,
        min_sum::bounded(seed, LLR_CLIP as int),
        0 <= upto <= code::n_checks(rate),
    ensures
        min_sum::bounded(sweep(rate, start(rate, seed), upto).totals, TOTAL_LIMIT as int),
{
    lemma_start_is_balanced(rate, seed);
    lemma_sweep_keeps_balance(rate, seed, start(rate, seed), upto);
    lemma_balanced_is_bounded(rate, seed, sweep(rate, start(rate, seed), upto));
}

/// Every check keeps its number of messages.
pub proof fn lemma_sweep_shape(rate: LdpcRate, seed: Seq<i64>, upto: int)
    requires
        seed.len() == 2304,
        min_sum::bounded(seed, LLR_CLIP as int),
        0 <= upto <= code::n_checks(rate),
    ensures
        sweep(rate, start(rate, seed), upto).messages.len() == code::n_checks(rate),
{
    lemma_start_is_balanced(rate, seed);
    lemma_sweep_keeps_balance(rate, seed, start(rate, seed), upto);
}

/// The weight is zero exactly if every check holds.
pub proof fn lemma_weight_counts(rate: LdpcRate, totals: Seq<i64>, upto: int)
    requires
        0 <= upto,
    ensures
        0 <= weight(rate, totals, upto) <= upto,
        weight(rate, totals, upto) == 0 <==> forall|r: int|
            0 <= r < upto ==> #[trigger] code::syndrome_at(rate, hard(totals), r) == 0,
    decreases upto,
{
    if upto > 0 {
        lemma_weight_counts(rate, totals, upto - 1);
    }
}

// ---------------------------------------------------------------------------
// The decoder
// ---------------------------------------------------------------------------

/// Layered min-sum decoder for one code rate.
pub struct LdpcDecoder {
    rate: LdpcRate,
    h: SparseH,
    grouped: GroupedH,
    k: usize,
    n: usize,
    m: usize,
    max_iter: usize,
    stop: FailStop,
}

impl LdpcDecoder {
    #[verifier::type_invariant]
    spec fn inv(&self) -> bool {
        &&& code::matches_rate(&self.h, self.rate)
        &&& self.grouped.matches(self.rate)
        &&& self.k == self.rate.spec_k()
        &&& self.n == 2304
        &&& self.m == code::n_checks(self.rate)
        &&& self.stop.stag >= 1
        &&& forall|r: int|
            0 <= r < self.m ==> (#[trigger] self.h.row_indices@[r])@ == list(self.rate, r)
    }

    /// Code rate of this decoder.
    pub closed spec fn spec_rate(&self) -> LdpcRate {
        self.rate
    }

    /// Iteration budget.
    pub closed spec fn spec_max_iter(&self) -> nat {
        self.max_iter as nat
    }

    /// Rule for giving up.
    pub closed spec fn spec_stop(&self) -> FailStop {
        self.stop
    }

    /// Decoder for `rate` with at most `max_iter` iterations.
    ///
    /// Soft decoding gives up after three iterations in a row without
    /// improvement, once five have run.
    pub fn new(rate: LdpcRate, max_iter: usize) -> (dec: Self)
        ensures
            dec.spec_rate() == rate,
            dec.spec_max_iter() == max_iter,
            dec.spec_stop() == (FailStop { enabled: true, warmup: 5, stag: 3 }),
    {
        Self::with_fail_stop(rate, max_iter, FailStop { enabled: true, warmup: 5, stag: 3 })
    }

    /// Decoder with its own rule for giving up; a stagnation count of zero is taken as one.
    pub fn with_fail_stop(rate: LdpcRate, max_iter: usize, stop: FailStop) -> (dec: Self)
        ensures
            dec.spec_rate() == rate,
            dec.spec_max_iter() == max_iter,
            dec.spec_stop() == (FailStop {
                enabled: stop.enabled,
                warmup: stop.warmup,
                stag: if stop.stag == 0 {
                    1
                } else {
                    stop.stag
                },
            }),
    {
        let bm = wimax::base_matrix(rate);
        let h = wimax::expand(&bm);
        let k: usize = rate.k();
        let n: usize = rate.n();
        let m: usize = n - k;
        proof {
            code::lemma_expansion_matches_rate(rate, &bm, &h);
            assert forall|r: int| 0 <= r < m implies (#[trigger] h.row_indices@[r])@ == list(
                rate,
                r,
            ) by {
                let cols = h.row_indices@[r]@;
                assert forall|c: usize| c < 2304 implies (#[trigger] cols.contains(c)
                    <==> code::check_bit(rate, r, c as int)) by {}
                code::lemma_row_is_check_list(rate, cols, r, 2304);
            }
        }
        let stag: usize = if stop.stag == 0 { 1 } else { stop.stag };
        LdpcDecoder {
            rate,
            h,
            grouped: GroupedH::new(rate),
            k,
            n,
            m,
            max_iter,
            stop: FailStop { enabled: stop.enabled, warmup: stop.warmup, stag },
        }
    }

    /// Whether all parity checks hold of the hard decisions.
    fn check_syndrome(&self, total: &Vec<i64>) -> (ok: bool)
        requires
            total@.len() == 2304,
        ensures
            ok == code::is_codeword(self.rate, hard(total@)),
    {
        proof {
            use_type_invariant(self);
        }
        for row in 0..self.m
            invariant
                self.inv(),
                total@.len() == 2304,
                forall|r: int|
                    0 <= r < row ==> #[trigger] code::syndrome_at(self.rate, hard(total@), r) == 0,
        {
            let parity: u8 = self.row_parity(total, row);
            if parity != 0 {
                assert(code::syndrome_at(self.rate, hard(total@), row as int) != 0);
                return false;
            }
        }
        true
    }

    /// Parity of the hard decisions that check `row` covers.
    fn row_parity(&self, total: &Vec<i64>, row: usize) -> (parity: u8)
        requires
            self.inv(),
            total@.len() == 2304,
            row < self.m,
        ensures
            parity == code::syndrome_at(self.rate, hard(total@), row as int),
            parity == 0 || parity == 1,
    {
        let cols = &self.h.row_indices[row];
        assert(gf2::rising(cols@, 2304));
        let mut parity: u8 = 0;
        proof {
            gf2::lemma_xor(0, 1, 0);
            gf2::lemma_xor(1, 0, 0);
        }
        for t in 0..cols.len()
            invariant
                total@.len() == 2304,
                gf2::rising(cols@, 2304),
                parity == gf2::xor_at(hard(total@), cols@.take(t as int)),
                parity == 0 || parity == 1,
                0u8 ^ 1u8 == 1u8,
                1u8 ^ 1u8 == 0u8,
                0u8 ^ 0u8 == 0u8,
                1u8 ^ 0u8 == 1u8,
        {
            assert(cols@.take(t + 1).drop_last() =~= cols@.take(t as int));
            let col: usize = cols[t];
            if total[col] < 0 {
                parity = parity ^ 1;
            }
        }
        assert(cols@.take(cols@.len() as int) =~= cols@);
        proof {
            code::lemma_syndrome_is_xor_at(self.rate, &self.h, hard(total@), row as int);
        }
        parity
    }

    /// Number of unsatisfied parity checks.
    fn syndrome_weight(&self, total: &Vec<i64>) -> (w: usize)
        requires
            total@.len() == 2304,
        ensures
            w == weight(self.rate, total@, code::n_checks(self.rate)),
    {
        proof {
            use_type_invariant(self);
        }
        let mut w: usize = 0;
        for row in 0..self.m
            invariant
                self.inv(),
                total@.len() == 2304,
                w == weight(self.rate, total@, row as int),
                w <= row,
        {
            let parity: u8 = self.row_parity(total, row);
            w = w + parity as usize;
        }
        w
    }

    /// Update every check once.
    fn sweep_rows(
        &self,
        total: &mut Vec<i64>,
        messages: &mut Vec<Vec<i64>>,
        Ghost(seed): Ghost<Seq<i64>>,
    )
        requires
            balanced(
                self.rate,
                seed,
                LlrState { totals: old(total)@, messages: messages_of(old(messages)@) },
            ),
        ensures
            balanced(
                self.rate,
                seed,
                LlrState { totals: final(total)@, messages: messages_of(final(messages)@) },
            ),
            (LlrState { totals: final(total)@, messages: messages_of(final(messages)@) })
                == iteration(
                self.rate,
                LlrState { totals: old(total)@, messages: messages_of(old(messages)@) },
            ),
    {
        proof {
            use_type_invariant(self);
        }
        let ghost st0 = LlrState { totals: total@, messages: messages_of(messages@) };
        for row in 0..self.m
            invariant
                self.inv(),
                balanced(self.rate, seed, st0),
                balanced(
                    self.rate,
                    seed,
                    LlrState { totals: total@, messages: messages_of(messages@) },
                ),
                (LlrState { totals: total@, messages: messages_of(messages@) }) == sweep(
                    self.rate,
                    st0,
                    row as int,
                ),
        {
            let ghost st = LlrState { totals: total@, messages: messages_of(messages@) };
            let ghost before = messages@;
            proof {
                lemma_balanced_is_bounded(self.rate, seed, st);
                lemma_step_keeps_balance(self.rate, seed, st, row as int);
                assert(st.messages[row as int].len() == list(self.rate, row as int).len());
                assert(gf2::rising(self.h.row_indices@[row as int]@, 2304));
            }
            min_sum::update_row(total, &self.h.row_indices[row], &mut messages[row]);
            assert(messages_of(messages@) =~= messages_of(before).update(
                row as int,
                messages@[row as int]@,
            ));
        }
    }

    /// Messages of zero for every check.
    fn zero_messages(&self) -> (messages: Vec<Vec<i64>>)
        ensures
            messages_of(messages@) == start(self.rate, Seq::empty()).messages,
    {
        proof {
            use_type_invariant(self);
        }
        let mut messages: Vec<Vec<i64>> = Vec::new();
        for row in 0..self.m
            invariant
                self.inv(),
                messages@.len() == row,
                forall|r: int|
                    0 <= r < row ==> (#[trigger] messages@[r])@ == Seq::new(
                        list(self.rate, r).len(),
                        |j: int| 0i64,
                    ),
        {
            let zeros: Vec<i64> = vec![0i64; self.h.row_indices[row].len()];
            assert(zeros@ =~= Seq::new(list(self.rate, row as int).len(), |j: int| 0i64));
            messages.push(zeros);
        }
        assert(messages_of(messages@) =~= start(self.rate, Seq::empty()).messages);
        messages
    }

    /// The clipped sum of channel and prior LLRs.
    fn seed(channel: &[i32], prior: Option<&[i32]>) -> (seed: Vec<i64>)
        requires
            channel@.len() == 2304,
            prior matches Some(p) ==> p@.len() == 2304,
        ensures
            seed@ == seed_of(
                channel@,
                match prior {
                    Some(p) => Some(p@),
                    None => None,
                },
            ),
            min_sum::bounded(seed@, LLR_CLIP as int),
    {
        let ghost want = seed_of(
            channel@,
            match prior {
                Some(p) => Some(p@),
                None => None,
            },
        );
        let mut seed: Vec<i64> = Vec::new();
        for i in 0..channel.len()
            invariant
                channel@.len() == 2304,
                prior matches Some(p) ==> p@.len() == 2304,
                want == seed_of(
                    channel@,
                    match prior {
                        Some(p) => Some(p@),
                        None => None,
                    },
                ),
                seed@ == want.take(i as int),
        {
            let ap: i64 = match prior {
                Some(p) => p[i] as i64,
                None => 0,
            };
            let x: i64 = min_sum::clip_llr(channel[i] as i64 + ap);
            seed.push(x);
            assert(want.take(i + 1) =~= want.take(i as int).push(x));
        }
        assert(seed@ =~= want);
        seed
    }

    /// Hard decisions on the information positions.
    fn info_bits(&self, total: &Vec<i64>) -> (info: Vec<u8>)
        requires
            total@.len() == 2304,
        ensures
            info@ == hard(total@).take(self.rate.spec_k() as int),
    {
        proof {
            use_type_invariant(self);
        }
        let mut info: Vec<u8> = Vec::new();
        for c in 0..self.k
            invariant
                self.inv(),
                total@.len() == 2304,
                info@ == hard(total@).take(c as int),
        {
            let bit: u8 = if total[c] < 0 { 1 } else { 0 };
            info.push(bit);
            assert(hard(total@).take(c + 1) =~= hard(total@).take(c as int).push(bit));
        }
        info
    }

    /// Decode channel LLRs (length 2304) into info bits.
    ///
    /// Returns the info bits and whether every parity check holds.
    pub fn decode(&self, llr_channel: &[i32]) -> (result: (Vec<u8>, bool))
        requires
            llr_channel@.len() == 2304,
        ensures
            is_decoding(
                self.spec_rate(),
                self.spec_max_iter(),
                llr_channel@,
                result.0@,
                result.1,
            ),
    {
        let mut total: Vec<i64> = Self::seed(llr_channel, None);
        let mut messages = self.zero_messages();
        let ghost seed = total@;
        let ghost first = start(self.rate, seed);
        proof {
            lemma_start_is_balanced(self.rate, seed);
            assert(LlrState { totals: total@, messages: messages_of(messages@) } =~= first);
        }
        let mut converged: bool = false;
        let mut iter: usize = 0;
        while iter < self.max_iter && !converged
            invariant
                iter <= self.max_iter,
                balanced(
                    self.rate,
                    seed,
                    LlrState { totals: total@, messages: messages_of(messages@) },
                ),
                !converged ==> iterate(self.rate, first, self.max_iter as nat) == iterate(
                    self.rate,
                    LlrState { totals: total@, messages: messages_of(messages@) },
                    (self.max_iter - iter) as nat,
                ),
                converged ==> iterate(self.rate, first, self.max_iter as nat) == (
                    LlrState { totals: total@, messages: messages_of(messages@) },
                    true,
                ),
            decreases self.max_iter - iter,
        {
            self.sweep_rows(&mut total, &mut messages, Ghost(seed));
            if self.check_syndrome(&total) {
                converged = true;
            }
            iter = iter + 1;
        }
        let info = self.info_bits(&total);
        (info, converged)
    }

    /// Decode channel LLRs and return the info bits packed into bytes.
    pub fn decode_to_bytes(&self, llr: &[i32]) -> (result: (Vec<u8>, bool))
        requires
            llr@.len() == 2304,
        ensures
            is_decoding(
                self.spec_rate(),
                self.spec_max_iter(),
                llr@,
                bits::unpack(result.0@),
                result.1,
            ),
    {
        let (info, converged) = self.decode(llr);
        let bytes = bits::bits_to_bytes(&info);
        proof {
            let rate = self.spec_rate();
            assert(rate.spec_k() % 8 == 0);
            let (st, c) = iterate(rate, start(rate, seed_of(llr@, None)), self.spec_max_iter());
            lemma_iterate_len(rate, start(rate, seed_of(llr@, None)), self.spec_max_iter());
            assert(bits::fill_up(info@) =~= info@) by {
                assert forall|p: int| 0 <= p < info@.len() implies #[trigger] info@[p] & 1
                    == info@[p] by {
                    let x = info@[p];
                    assert(x == 0 || x == 1);
                    assert(x & 1 == x) by (bit_vector)
                        requires
                            x == 0 || x == 1,
                    ;
                }
            }
        }
        (bytes, converged)
    }

    /// Soft-in soft-out decoding.
    ///
    /// The variables start at the sum of channel and prior LLRs. Besides the
    /// info bits, the result holds what the checks add to that sum, scaled by
    /// `damp_num / damp_den`, for all 2304 positions.
    pub fn decode_soft(
        &self,
        channel_llr: &[i32],
        apriori_llr: Option<&[i32]>,
        damp_num: u16,
        damp_den: u16,
    ) -> (result: (Vec<u8>, Vec<i64>, bool))
        requires
            channel_llr@.len() == 2304,
            apriori_llr matches Some(p) ==> p@.len() == 2304,
            damp_den > 0,
        ensures
            is_soft_decoding(
                self.spec_rate(),
                self.spec_stop(),
                self.spec_max_iter(),
                channel_llr@,
                match apriori_llr {
                    Some(p) => Some(p@),
                    None => None,
                },
                damp_num as int,
                damp_den as int,
                (result.0@, result.1@, result.2),
            ),
    {
        let mut total: Vec<i64> = Self::seed(channel_llr, apriori_llr);
        let seed: Vec<i64> = total.clone();
        assert(seed@ =~= total@);
        let mut messages = self.zero_messages();
        let ghost first = start(self.rate, seed@);
        let ghost want = iterate_soft(
            self.rate,
            self.stop,
            first,
            0,
            self.max_iter as nat,
            usize::MAX as int,
            0,
        );
        proof {
            use_type_invariant(self);
            lemma_start_is_balanced(self.rate, seed@);
            assert(LlrState { totals: total@, messages: messages_of(messages@) } =~= first);
        }
        let mut converged: bool = false;
        let mut gave_up: bool = false;
        let mut last: usize = usize::MAX;
        let mut stagnant: usize = 0;
        let mut iter: usize = 0;
        while iter < self.max_iter && !converged && !gave_up
            invariant
                self.inv(),
                iter <= self.max_iter,
                stagnant <= iter,
                balanced(
                    self.rate,
                    seed@,
                    LlrState { totals: total@, messages: messages_of(messages@) },
                ),
                !converged && !gave_up ==> want == iterate_soft(
                    self.rate,
                    self.stop,
                    LlrState { totals: total@, messages: messages_of(messages@) },
                    iter as int,
                    (self.max_iter - iter) as nat,
                    last as int,
                    stagnant as int,
                ),
                !(converged && gave_up),
                converged || gave_up ==> want == (
                    LlrState { totals: total@, messages: messages_of(messages@) },
                    converged,
                ),
            decreases self.max_iter - iter,
        {
            self.sweep_rows(&mut total, &mut messages, Ghost(seed@));
            let w: usize = self.syndrome_weight(&total);
            if w == 0 {
                converged = true;
            } else {
                if self.stop.enabled && iter + 1 > self.stop.warmup {
                    if w >= last {
                        stagnant = stagnant + 1;
                        if stagnant >= self.stop.stag {
                            gave_up = true;
                        }
                    } else {
                        stagnant = 0;
                    }
                }
                last = w;
            }
            iter = iter + 1;
        }
        let info = self.info_bits(&total);
        proof {
            lemma_balanced_is_bounded(
                self.rate,
                seed@,
                LlrState { totals: total@, messages: messages_of(messages@) },
            );
        }
        let extrinsic = extrinsic(&total, &seed, damp_num, damp_den);
        (info, extrinsic, converged)
    }

    /// Update every check once, layer by layer.
    fn sweep_layers(
        &self,
        total: &mut Vec<i64>,
        flats: &mut Vec<Vec<i64>>,
        Ghost(seed): Ghost<Seq<i64>>,
    )
        requires
            self.flats_fit(old(flats)@),
            balanced(
                self.rate,
                seed,
                LlrState { totals: old(total)@, messages: unfolded(self.rate, old(flats)@) },
            ),
        ensures
            self.flats_fit(final(flats)@),
            balanced(
                self.rate,
                seed,
                LlrState { totals: final(total)@, messages: unfolded(self.rate, final(flats)@) },
            ),
            (LlrState { totals: final(total)@, messages: unfolded(self.rate, final(flats)@) })
                == iteration(
                self.rate,
                LlrState { totals: old(total)@, messages: unfolded(self.rate, old(flats)@) },
            ),
    {
        proof {
            use_type_invariant(self);
        }
        let ghost st0 = LlrState { totals: total@, messages: unfolded(self.rate, flats@) };
        let mut br: usize = 0;
        while br < self.grouped.layers.len()
            invariant
                self.inv(),
                br <= self.grouped.layers@.len(),
                self.flats_fit(flats@),
                balanced(self.rate, seed, st0),
                (LlrState { totals: total@, messages: unfolded(self.rate, flats@) }) == sweep(
                    self.rate,
                    st0,
                    br * 96,
                ),
            decreases self.grouped.layers@.len() - br,
        {
            let ghost rate = self.rate;
            let ghost st = LlrState { totals: total@, messages: unfolded(rate, flats@) };
            let ghost before = flats@;
            let ghost edges = self.grouped.layers@[br as int]@;
            let ghost flat = flats@[br as int]@;
            let ghost b = br as int;
            proof {
                lemma_sweep_keeps_balance(rate, seed, st0, b * 96);
                lemma_balanced_is_bounded(rate, seed, st);
                assert(grouped::is_layer(rate, b, edges));
                assert forall|lane: int| 0 <= lane < 96 implies sweep(
                    rate,
                    st0,
                    b * 96,
                ).messages[#[trigger] grouped::lane_row(b, lane)] == grouped::lane_messages(
                    flat,
                    edges.len() as int,
                    lane,
                ) by {
                    let r = grouped::lane_row(b, lane);
                    assert(r / 96 == b && r % 96 == lane);
                    grouped::lemma_lane_is_check(rate, b, edges, lane);
                }
                assert forall|x: int| 0 <= x < flat.len() implies -LLR_CLIP <= #[trigger] flat[x]
                    <= LLR_CLIP by {
                    let lane = x % 96;
                    let e = x / 96;
                    let r = grouped::lane_row(b, lane);
                    assert(st.messages[r] == grouped::lane_messages(
                        flat,
                        edges.len() as int,
                        lane,
                    ));
                    assert(min_sum::bounded(st.messages[r], LLR_CLIP as int));
                    assert(st.messages[r][e] == flat[x]);
                }
                grouped::lemma_lanes_are_steps(rate, st0, b, edges, flat, 96);
            }
            grouped::update_layer(&self.grouped.layers[br], total, &mut flats[br]);
            proof {
                let after = sweep(rate, st0, b * 96 + 96);
                grouped::lemma_all_lanes_updated(st.totals, edges, flat, total@, after.totals);
                assert(unfolded(rate, flats@) =~= after.messages) by {
                    lemma_sweep_len(rate, st0, b * 96 + 96);
                    assert forall|r: int| 0 <= r < code::n_checks(rate) implies unfolded(
                        rate,
                        flats@,
                    )[r] == after.messages[r] by {
                        if r / 96 == b {
                            let lane = r % 96;
                            assert(r == grouped::lane_row(b, lane));
                            grouped::lemma_lane_is_check(rate, b, edges, lane);
                            let q = grouped::lane_incoming(st.totals, edges, flat, lane);
                            let news = flats@[b]@;
                            assert(unfolded(rate, flats@)[r] =~= Seq::new(
                                edges.len(),
                                |e: int| min_sum::message(q, e),
                            )) by {
                                assert forall|e: int| 0 <= e < edges.len() implies news[e * 96
                                    + lane] == min_sum::message(q, e) by {
                                    let x = e * 96 + lane;
                                    assert(x % 96 == lane && x / 96 == e);
                                }
                            }
                        } else {
                            assert(flats@[r / 96] == before[r / 96]);
                            assert(unfolded(rate, flats@)[r] == st.messages[r]);
                        }
                    }
                }
            }
            br = br + 1;
        }
        proof {
            lemma_sweep_keeps_balance(self.rate, seed, st0, code::n_checks(self.rate));
        }
    }

    /// There is a message for each lane of each block.
    spec fn flats_fit(&self, flats: Seq<Vec<i64>>) -> bool {
        &&& flats.len() == self.grouped.layers@.len()
        &&& forall|br: int|
            0 <= br < flats.len() ==> (#[trigger] flats[br])@.len()
                == self.grouped.layers@[br]@.len() * 96
    }

    /// Messages of zero for every layer.
    fn zero_flats(&self) -> (flats: Vec<Vec<i64>>)
        ensures
            self.flats_fit(flats@),
            unfolded(self.rate, flats@) == start(self.rate, Seq::empty()).messages,
    {
        proof {
            use_type_invariant(self);
        }
        let mut flats: Vec<Vec<i64>> = Vec::new();
        let mut br: usize = 0;
        while br < self.grouped.layers.len()
            invariant
                self.inv(),
                br <= self.grouped.layers@.len(),
                flats@.len() == br,
                forall|b: int|
                    0 <= b < br ==> (#[trigger] flats@[b])@.len()
                        == self.grouped.layers@[b]@.len() * 96,
                forall|b: int, x: int|
                    0 <= b < br && 0 <= x < flats@[b]@.len() ==> #[trigger] flats@[b]@[x] == 0,
            decreases self.grouped.layers@.len() - br,
        {
            assert(grouped::is_layer(self.rate, br as int, self.grouped.layers@[br as int]@));
            let zeros: Vec<i64> = vec![0i64; self.grouped.layers[br].len() * 96];
            flats.push(zeros);
            br = br + 1;
        }
        proof {
            let want = start(self.rate, Seq::empty()).messages;
            assert forall|r: int| 0 <= r < code::n_checks(self.rate) implies unfolded(
                self.rate,
                flats@,
            )[r] == want[r] by {
                let b = r / 96;
                let lane = r % 96;
                let edges = self.grouped.layers@[b]@;
                assert(grouped::is_layer(self.rate, b, edges));
                grouped::lemma_lane_is_check(self.rate, b, edges, lane);
                assert(unfolded(self.rate, flats@)[r] =~= want[r]) by {
                    assert forall|e: int| 0 <= e < edges.len() implies #[trigger] unfolded(
                        self.rate,
                        flats@,
                    )[r][e] == 0 by {
                        assert(flats@[b]@[e * 96 + lane] == 0);
                    }
                }
            }
            assert(unfolded(self.rate, flats@) =~= want);
        }
        flats
    }

    /// Soft-in soft-out decoding on layers, without the rule for giving up.
    ///
    /// It gives what `decode_soft` gives wherever that rule does not end the decoding.
    pub fn decode_soft_grouped(
        &self,
        channel_llr: &[i32],
        apriori_llr: Option<&[i32]>,
        damp_num: u16,
        damp_den: u16,
    ) -> (result: (Vec<u8>, Vec<i64>, bool))
        requires
            channel_llr@.len() == 2304,
            apriori_llr matches Some(p) ==> p@.len() == 2304,
            damp_den > 0,
        ensures
            is_layered_decoding(
                self.spec_rate(),
                self.spec_max_iter(),
                channel_llr@,
                match apriori_llr {
                    Some(p) => Some(p@),
                    None => None,
                },
                damp_num as int,
                damp_den as int,
                (result.0@, result.1@, result.2),
            ),
    {
        let mut total: Vec<i64> = Self::seed(channel_llr, apriori_llr);
        let seed: Vec<i64> = total.clone();
        assert(seed@ =~= total@);
        let mut flats = self.zero_flats();
        let ghost first = start(self.rate, seed@);
        proof {
            lemma_start_is_balanced(self.rate, seed@);
            assert(LlrState { totals: total@, messages: unfolded(self.rate, flats@) } =~= first);
        }
        let mut converged: bool = false;
        let mut iter: usize = 0;
        while iter < self.max_iter && !converged
            invariant
                iter <= self.max_iter,
                self.flats_fit(flats@),
                balanced(
                    self.rate,
                    seed@,
                    LlrState { totals: total@, messages: unfolded(self.rate, flats@) },
                ),
                !converged ==> iterate(self.rate, first, self.max_iter as nat) == iterate(
                    self.rate,
                    LlrState { totals: total@, messages: unfolded(self.rate, flats@) },
                    (self.max_iter - iter) as nat,
                ),
                converged ==> iterate(self.rate, first, self.max_iter as nat) == (
                    LlrState { totals: total@, messages: unfolded(self.rate, flats@) },
                    true,
                ),
            decreases self.max_iter - iter,
        {
            self.sweep_layers(&mut total, &mut flats, Ghost(seed@));
            if self.check_syndrome(&total) {
                converged = true;
            }
            iter = iter + 1;
        }
        let info = self.info_bits(&total);
        proof {
            lemma_balanced_is_bounded(
                self.rate,
                seed@,
                LlrState { totals: total@, messages: unfolded(self.rate, flats@) },
            );
        }
        let extrinsic = extrinsic(&total, &seed, damp_num, damp_den);
        (info, extrinsic, converged)
    }

    /// Info bits per codeword.
    pub fn k(&self) -> (k: usize)
        ensures
            k == self.spec_rate().spec_k(),
    {
        proof {
            use_type_invariant(self);
        }
        self.k
    }

    /// Codeword length.
    pub fn n(&self) -> (n: usize)
        ensures
            n == 2304,
    {
        proof {
            use_type_invariant(self);
        }
        self.n
    }
}

/// The damped and clipped difference of totals and seed.
fn extrinsic(total: &Vec<i64>, seed: &Vec<i64>, damp_num: u16, damp_den: u16) -> (out: Vec<i64>)
    requires
        total@.len() == 2304,
        seed@.len() == 2304,
        damp_den > 0,
        min_sum::bounded(total@, TOTAL_LIMIT as int),
        min_sum::bounded(seed@, LLR_CLIP as int),
    ensures
        out@ == extrinsic_of(total@, seed@, damp_num as int, damp_den as int),
{
    let ghost ext = extrinsic_of(total@, seed@, damp_num as int, damp_den as int);
    let mut out: Vec<i64> = Vec::new();
    for i in 0..total.len()
        invariant
            total@.len() == 2304,
            seed@.len() == 2304,
            damp_den > 0,
            min_sum::bounded(total@, TOTAL_LIMIT as int),
            min_sum::bounded(seed@, LLR_CLIP as int),
            ext == extrinsic_of(total@, seed@, damp_num as int, damp_den as int),
            out@ == ext.take(i as int),
    {
        assert(-TOTAL_LIMIT <= total@[i as int] <= TOTAL_LIMIT);
        assert(-LLR_CLIP <= seed@[i as int] <= LLR_CLIP);
        let diff: i64 = total[i] - seed[i];
        let x: i64 = min_sum::clip_llr(damp(diff, damp_num, damp_den));
        out.push(x);
        assert(ext.take(i + 1) =~= ext.take(i as int).push(x));
    }
    assert(out@ =~= ext);
    out
}

/// `x` times `num / den`, rounded towards zero.
fn damp(x: i64, num: u16, den: u16) -> (y: i64)
    requires
        -8000000000 <= x <= 8000000000,
        den > 0,
    ensures
        y == damped(x as int, num as int, den as int),
{
    let mag: i64 = if x < 0 { -x } else { x };
    assert(0 <= mag * num <= 8000000000 * 65535) by (nonlinear_arith)
        requires
            0 <= mag <= 8000000000,
            num <= 65535,
    ;
    let prod: i64 = mag * num as i64;
    let scaled: i64 = prod / den as i64;
    assert(0 <= scaled <= prod) by (nonlinear_arith)
        requires
            scaled == prod / den as i64,
            prod >= 0,
            den > 0,
    ;
    if x < 0 {
        -scaled
    } else {
        scaled
    }
}

/// Updates keep the number of totals and of checks.
pub proof fn lemma_sweep_len(rate: LdpcRate, st: LlrState, upto: int)
    ensures
        sweep(rate, st, upto).totals.len() == st.totals.len(),
        upto <= st.messages.len() ==> sweep(rate, st, upto).messages.len() == st.messages.len(),
    decreases upto,
{
    if upto > 0 {
        lemma_sweep_len(rate, st, upto - 1);
    }
}

proof fn lemma_iterate_len(rate: LdpcRate, st: LlrState, left: nat)
    ensures
        iterate(rate, st, left).0.totals.len() == st.totals.len(),
    decreases left,
{
    if left > 0 {
        let next = iteration(rate, st);
        lemma_sweep_len(rate, st, code::n_checks(rate));
        if !code::is_codeword(rate, hard(next.totals)) {
            lemma_iterate_len(rate, next, (left - 1) as nat);
        }
    }
}

/// Soft decoding keeps the number of totals.
pub proof fn lemma_iterate_soft_len(
    rate: LdpcRate,
    stop: FailStop,
    st: LlrState,
    done: int,
    left: nat,
    last: int,
    stagnant: int,
)
    ensures
        iterate_soft(rate, stop, st, done, left, last, stagnant).0.totals.len()
            == st.totals.len(),
    decreases left,
{
    if left > 0 {
        let next = iteration(rate, st);
        let w = weight(rate, next.totals, code::n_checks(rate));
        lemma_sweep_len(rate, st, code::n_checks(rate));
        let armed = stop.enabled && done + 1 > stop.warmup;
        let stuck = if armed {
            if w >= last {
                stagnant + 1
            } else {
                0
            }
        } else {
            stagnant
        };
        lemma_iterate_soft_len(rate, stop, next, done + 1, (left - 1) as nat, w, stuck);
    }
}

/// The rule `stop` ends decoding before the last iteration or a codeword does.
pub open spec fn gives_up(
    rate: LdpcRate,
    stop: FailStop,
    st: LlrState,
    done: int,
    left: nat,
    last: int,
    stagnant: int,
) -> bool
    decreases left,
{
    if left == 0 {
        false
    } else {
        let next = iteration(rate, st);
        let w = weight(rate, next.totals, code::n_checks(rate));
        let armed = stop.enabled && done + 1 > stop.warmup;
        let stuck = if armed {
            if w >= last {
                stagnant + 1
            } else {
                0
            }
        } else {
            stagnant
        };
        if w == 0 {
            false
        } else if armed && w >= last && stuck >= stop.stag {
            true
        } else {
            gives_up(rate, stop, next, done + 1, (left - 1) as nat, w, stuck)
        }
    }
}

/// Unless the rule for giving up ends it, soft decoding runs as decoding on layers does: the
/// two give the same bits, the same extrinsic values and the same verdict.
pub proof fn law_layers_decode_alike(
    rate: LdpcRate,
    stop: FailStop,
    st: LlrState,
    done: int,
    left: nat,
    last: int,
    stagnant: int,
)
    requires
        !gives_up(rate, stop, st, done, left, last, stagnant),
        st.totals.len() == 2304,
    ensures
        iterate_soft(rate, stop, st, done, left, last, stagnant) == iterate(rate, st, left),
    decreases left,
{
    if left > 0 {
        let next = iteration(rate, st);
        let w = weight(rate, next.totals, code::n_checks(rate));
        lemma_sweep_len(rate, st, code::n_checks(rate));
        lemma_weight_counts(rate, next.totals, code::n_checks(rate));
        assert(w == 0 <==> code::is_codeword(rate, hard(next.totals)));
        if w != 0 {
            let armed = stop.enabled && done + 1 > stop.warmup;
            let stuck = if armed {
                if w >= last {
                    stagnant + 1
                } else {
                    0
                }
            } else {
                stagnant
            };
            law_layers_decode_alike(rate, stop, next, done + 1, (left - 1) as nat, w, stuck);
        }
    }
}

/// A block is not given up where the rule is off, where no iteration comes after those that
/// it leaves alone, or where there are too few to try its patience.
pub proof fn law_rule_leaves_short_runs_alone(
    rate: LdpcRate,
    stop: FailStop,
    st: LlrState,
    done: int,
    left: nat,
    last: int,
    stagnant: int,
)
    requires
        !stop.enabled || done + left <= stop.warmup || 0 <= stagnant && stagnant + left
            < stop.stag,
    ensures
        !gives_up(rate, stop, st, done, left, last, stagnant),
    decreases left,
{
    if left > 0 {
        let next = iteration(rate, st);
        let w = weight(rate, next.totals, code::n_checks(rate));
        let armed = stop.enabled && done + 1 > stop.warmup;
        let stuck = if armed {
            if w >= last {
                stagnant + 1
            } else {
                0
            }
        } else {
            stagnant
        };
        if w != 0 && !(armed && w >= last && stuck >= stop.stag) {
            law_rule_leaves_short_runs_alone(
                rate,
                stop,
                next,
                done + 1,
                (left - 1) as nat,
                w,
                stuck,
            );
        }
    }
}

/// A block that soft decoding brings to a codeword was not given up: decoding on layers
/// gives the same.
pub proof fn law_decoded_blocks_decode_alike(
    rate: LdpcRate,
    stop: FailStop,
    st: LlrState,
    done: int,
    left: nat,
    last: int,
    stagnant: int,
)
    requires
        iterate_soft(rate, stop, st, done, left, last, stagnant).1,
        st.totals.len() == 2304,
    ensures
        !gives_up(rate, stop, st, done, left, last, stagnant),
        iterate_soft(rate, stop, st, done, left, last, stagnant) == iterate(rate, st, left),
{
    lemma_codeword_ends_decoding(rate, stop, st, done, left, last, stagnant);
    law_layers_decode_alike(rate, stop, st, done, left, last, stagnant);
}

proof fn lemma_codeword_ends_decoding(
    rate: LdpcRate,
    stop: FailStop,
    st: LlrState,
    done: int,
    left: nat,
    last: int,
    stagnant: int,
)
    requires
        iterate_soft(rate, stop, st, done, left, last, stagnant).1,
    ensures
        !gives_up(rate, stop, st, done, left, last, stagnant),
    decreases left,
{
    if left > 0 {
        let next = iteration(rate, st);
        let w = weight(rate, next.totals, code::n_checks(rate));
        let armed = stop.enabled && done + 1 > stop.warmup;
        let stuck = if armed {
            if w >= last {
                stagnant + 1
            } else {
                0
            }
        } else {
            stagnant
        };
        if w != 0 {
            lemma_codeword_ends_decoding(
                rate,
                stop,
                next,
                done + 1,
                (left - 1) as nat,
                w,
                stuck,
            );
        }
    }
}

/// A block that does not get better is given up: once the rule applies, an iteration after
/// which no fewer checks fail than before is the last one if it completes the row of such
/// iterations that the rule allows.
pub proof fn law_stalled_block_is_given_up(
    rate: LdpcRate,
    stop: FailStop,
    st: LlrState,
    done: int,
    left: nat,
    last: int,
    stagnant: int,
)
    requires
        stop.enabled,
        done + 1 > stop.warmup,
        left > 0,
        ({
            let failing = weight(rate, iteration(rate, st).totals, code::n_checks(rate));
            failing > 0 && failing >= last
        }),
    ensures
        stagnant + 1 >= stop.stag ==> iterate_soft(rate, stop, st, done, left, last, stagnant) == (
            iteration(rate, st),
            false,
        ),
        stagnant + 1 < stop.stag ==> iterate_soft(rate, stop, st, done, left, last, stagnant)
            == iterate_soft(
            rate,
            stop,
            iteration(rate, st),
            done + 1,
            (left - 1) as nat,
            weight(rate, iteration(rate, st).totals, code::n_checks(rate)),
            stagnant + 1,
        ),
{
}

/// An iteration after which fewer checks fail starts the count of idle iterations anew, and
/// before the rule applies nothing is counted.
pub proof fn law_progress_is_rewarded(
    rate: LdpcRate,
    stop: FailStop,
    st: LlrState,
    done: int,
    left: nat,
    last: int,
    stagnant: int,
)
    requires
        left > 0,
        ({
            let failing = weight(rate, iteration(rate, st).totals, code::n_checks(rate));
            failing > 0 && (failing < last || done + 1 <= stop.warmup)
        }),
    ensures
        iterate_soft(rate, stop, st, done, left, last, stagnant) == iterate_soft(
            rate,
            stop,
            iteration(rate, st),
            done + 1,
            (left - 1) as nat,
            weight(rate, iteration(rate, st).totals, code::n_checks(rate)),
            if stop.enabled && done + 1 > stop.warmup {
                0
            } else {
                stagnant
            },
        ),
{
}

/// The number of failing checks counts every check whose bits do not add up.
pub proof fn law_every_failing_check_counts(rate: LdpcRate, totals: Seq<i64>, upto: int)
    requires
        upto >= 1,
    ensures
        weight(rate, totals, 0) == 0,
        weight(rate, totals, upto) - weight(rate, totals, upto - 1) == if code::syndrome_at(
            rate,
            hard(totals),
            upto - 1,
        ) == 0 {
            0int
        } else {
            1
        },
{
}

/// More iterations change nothing once a codeword is found.
pub proof fn law_success_stands(rate: LdpcRate, st: LlrState, few: nat, many: nat)
    requires
        few <= many,
        iterate(rate, st, few).1,
    ensures
        iterate(rate, st, many) == iterate(rate, st, few),
    decreases few,
{
    if few > 0 {
        let next = iteration(rate, st);
        if !code::is_codeword(rate, hard(next.totals)) {
            law_success_stands(rate, next, (few - 1) as nat, (many - 1) as nat);
        }
    }
}

/// Without an iteration the bits are the signs of the channel, and nothing is vouched for.
pub proof fn law_no_iteration_gives_the_signs(
    rate: LdpcRate,
    channel: Seq<i32>,
    info: Seq<u8>,
    converged: bool,
    i: int,
)
    requires
        channel.len() == 2304,
        is_decoding(rate, 0, channel, info, converged),
        0 <= i < rate.spec_k(),
    ensures
        !converged,
        info.len() == rate.spec_k(),
        info[i] == if channel[i] < 0 {
            1u8
        } else {
            0
        },
{
    let seed = seed_of(channel, None);
    assert(hard(seed).take(rate.spec_k() as int)[i] == hard(seed)[i]);
}

} // verus!
