//! The parity checks in layers that can be updated side by side.
//!
//! A layer is a block row of the base matrix. Its 96 checks, one to a lane, cover
//! different variables, so that it does not matter in which order they are updated.
//! The messages of a layer stand edge by edge, with the lanes of an edge together.

use vstd::prelude::*;

use crate::ldpc::code;
use crate::ldpc::decoder;
use crate::ldpc::decoder::LlrState;
use crate::ldpc::gf2;
use crate::ldpc::min_sum;
use crate::ldpc::min_sum::{LLR_CLIP, LLR_FAR, TOTAL_LIMIT};
use crate::ldpc::wimax;
use crate::ldpc::wimax::{BaseEntry, BaseMatrix};
use crate::profile::LdpcRate;

verus! {

/// The blocks of each layer: block column and shift, from left to right.
pub struct GroupedH {
    pub layers: Vec<Vec<(usize, usize)>>,
}

/// The blocks of layer `br` at a rate.
pub open spec fn is_layer(rate: LdpcRate, br: int, edges: Seq<(usize, usize)>) -> bool {
    &&& edges.len() <= 24
    &&& forall|e: int|
        0 <= e < edges.len() ==> (#[trigger] edges[e]).0 < 24 && edges[e].1 <= 32767
            && wimax::base_entry(rate, br, edges[e].0 as int) == edges[e].1
    &&& forall|e: int, f: int| 0 <= e < f < edges.len() ==> edges[e].0 < edges[f].0
    &&& forall|bc: int|
        0 <= bc < 24 && #[trigger] wimax::base_entry(rate, br, bc) >= 0 ==> exists|e: int|
            0 <= e < edges.len() && (#[trigger] edges[e]).0 == bc
}

impl GroupedH {
    /// The layers are those of a rate.
    pub open spec fn matches(&self, rate: LdpcRate) -> bool {
        &&& self.layers@.len() == wimax::check_blocks(rate)
        &&& forall|br: int|
            0 <= br < self.layers@.len() ==> is_layer(rate, br, #[trigger] self.layers@[br]@)
    }

    /// The layers of a rate.
    pub fn new(rate: LdpcRate) -> (g: Self)
        ensures
            g.matches(rate),
    {
        let bm = wimax::base_matrix(rate);
        group(&bm, Ghost(rate))
    }
}

/// Put the blocks of a base matrix into layers.
fn group(bm: &BaseMatrix, Ghost(rate): Ghost<LdpcRate>) -> (g: GroupedH)
    requires
        wimax::is_base_matrix(bm, rate),
    ensures
        g.matches(rate),
{
    let mut layers: Vec<Vec<(usize, usize)>> = Vec::new();
    let mut br: usize = 0;
    while br < bm.n_rows
        invariant
            br <= bm.n_rows,
            wimax::is_base_matrix(bm, rate),
            layers@.len() == br,
            forall|b: int| 0 <= b < br ==> is_layer(rate, b, #[trigger] layers@[b]@),
        decreases bm.n_rows - br,
    {
        let mut edges: Vec<(usize, usize)> = Vec::new();
        let mut bc: usize = 0;
        while bc < 24
            invariant
                bc <= 24,
                edges@.len() <= bc,
                br < bm.n_rows,
                wimax::is_base_matrix(bm, rate),
                forall|e: int|
                    0 <= e < edges@.len() ==> (#[trigger] edges@[e]).0 < bc && edges@[e].1 <= 32767
                        && wimax::base_entry(rate, br as int, edges@[e].0 as int) == edges@[e].1,
                forall|e: int, f: int| 0 <= e < f < edges@.len() ==> edges@[e].0 < edges@[f].0,
                forall|c: int|
                    0 <= c < bc && #[trigger] wimax::base_entry(rate, br as int, c) >= 0
                        ==> exists|e: int| 0 <= e < edges@.len() && (#[trigger] edges@[e]).0 == c,
            decreases 24 - bc,
        {
            assert(br * 24 + bc < bm.n_rows * 24);
            let s: BaseEntry = bm.get(br, bc);
            let ghost before = edges@;
            if s >= 0 {
                edges.push((bc, s as usize));
                assert(edges@[before.len() as int].0 == bc);
            }
            assert forall|c: int|
                0 <= c < bc + 1 && #[trigger] wimax::base_entry(
                    rate,
                    br as int,
                    c,
                ) >= 0 implies exists|e: int| 0 <= e < edges@.len() && (#[trigger] edges@[e]).0
                == c by {
                if c < bc {
                    let e = choose|e: int| 0 <= e < before.len() && (#[trigger] before[e]).0 == c;
                    assert(edges@[e].0 == c);
                } else {
                    assert(bm.entry(br as int, bc as int) == s);
                }
            }
            bc = bc + 1;
        }
        layers.push(edges);
        br = br + 1;
    }
    GroupedH { layers }
}

// ---------------------------------------------------------------------------
// Lanes
// ---------------------------------------------------------------------------

/// The variable that a lane covers in a block.
pub open spec fn edge_col(edge: (usize, usize), lane: int) -> int {
    edge.0 * 96 + (lane + edge.1) % 96
}

/// The check of a lane.
pub open spec fn lane_row(br: int, lane: int) -> int {
    br * 96 + lane
}

/// The variables that a lane covers.
pub open spec fn lane_cols(edges: Seq<(usize, usize)>, lane: int) -> Seq<usize> {
    Seq::new(edges.len(), |e: int| edge_col(edges[e], lane) as usize)
}

/// The messages of a lane.
pub open spec fn lane_messages(flat: Seq<i64>, degree: int, lane: int) -> Seq<i64> {
    Seq::new(degree as nat, |e: int| flat[e * 96 + lane])
}

/// Two lanes cover no variable in common, and a lane covers a variable once.
proof fn lemma_cols_differ(edges: Seq<(usize, usize)>, e: int, lane: int, f: int, other: int)
    requires
        forall|e: int, f: int| 0 <= e < f < edges.len() ==> edges[e].0 < edges[f].0,
        0 <= e < edges.len(),
        0 <= f < edges.len(),
        0 <= lane < 96,
        0 <= other < 96,
        edge_col(edges[e], lane) == edge_col(edges[f], other),
    ensures
        e == f,
        lane == other,
{
    assert(edges[e].0 == edges[f].0);
    if e < f {
        assert(edges[e].0 < edges[f].0);
    } else if f < e {
        assert(edges[f].0 < edges[e].0);
    }
}

/// A lane covers what its check covers.
pub proof fn lemma_lane_is_check(rate: LdpcRate, br: int, edges: Seq<(usize, usize)>, lane: int)
    requires
        0 <= br < wimax::check_blocks(rate),
        is_layer(rate, br, edges),
        0 <= lane < 96,
    ensures
        lane_cols(edges, lane) == decoder::list(rate, br * 96 + lane),
{
    let cols = lane_cols(edges, lane);
    let row = br * 96 + lane;
    assert(row / 96 == br && row % 96 == lane);
    assert forall|i: int| 0 <= i < cols.len() implies cols[i] < 2304 by {
        assert(edges[i].0 < 24);
    }
    assert forall|i: int, j: int| 0 <= i < j < cols.len() implies cols[i] < cols[j] by {
        assert(edges[i].0 < edges[j].0);
        assert(edges[j].0 < 24);
    }
    assert forall|c: usize| c < 2304 implies (#[trigger] cols.contains(c) <==> code::check_bit(
        rate,
        row,
        c as int,
    )) by {
        let bc = c as int / 96;
        let s = wimax::base_entry(rate, br, bc);
        if code::check_bit(rate, row, c as int) {
            let e = choose|e: int| 0 <= e < edges.len() && (#[trigger] edges[e]).0 == bc;
            assert(cols[e] == c);
        }
        if cols.contains(c) {
            let e = choose|e: int| 0 <= e < cols.len() && cols[e] == c;
            assert(edges[e].0 == bc);
            assert(s == edges[e].1);
        }
    }
    code::lemma_row_is_check_list(rate, cols, row, 2304);
}

// ---------------------------------------------------------------------------
// The update of a layer
// ---------------------------------------------------------------------------

/// What the variables tell a lane.
pub open spec fn lane_incoming(
    totals: Seq<i64>,
    edges: Seq<(usize, usize)>,
    flat: Seq<i64>,
    lane: int,
) -> Seq<i64> {
    min_sum::incoming(totals, lane_cols(edges, lane), lane_messages(flat, edges.len() as int, lane))
}

/// A variable is covered by a layer.
pub open spec fn covered(edges: Seq<(usize, usize)>, c: int) -> bool {
    exists|e: int, lane: int|
        0 <= e < edges.len() && 0 <= lane < 96 && #[trigger] edge_col(edges[e], lane) == c
}

/// Totals and messages after the lanes below `upto` were updated, each from the state
/// before.
pub open spec fn lanes_updated(
    totals: Seq<i64>,
    edges: Seq<(usize, usize)>,
    flat: Seq<i64>,
    upto: int,
    after: Seq<i64>,
) -> bool {
    &&& after.len() == totals.len()
    &&& forall|e: int, lane: int|
        0 <= e < edges.len() && 0 <= lane < 96 ==> after[#[trigger] edge_col(edges[e], lane)]
            == if lane < upto {
            let q = lane_incoming(totals, edges, flat, lane);
            (q[e] + min_sum::message(q, e)) as i64
        } else {
            totals[edge_col(edges[e], lane)]
        }
    &&& forall|c: int| 0 <= c < totals.len() && !covered(edges, c) ==> #[trigger] after[c]
        == totals[c]
}

/// All lanes updated is one state.
pub proof fn lemma_all_lanes_updated(
    totals: Seq<i64>,
    edges: Seq<(usize, usize)>,
    flat: Seq<i64>,
    a: Seq<i64>,
    b: Seq<i64>,
)
    requires
        lanes_updated(totals, edges, flat, 96, a),
        lanes_updated(totals, edges, flat, 96, b),
    ensures
        a == b,
{
    assert forall|c: int| 0 <= c < totals.len() implies a[c] == b[c] by {
        if covered(edges, c) {
            let (e, lane) = choose|e: int, lane: int|
                0 <= e < edges.len() && 0 <= lane < 96 && #[trigger] edge_col(edges[e], lane) == c;
            assert(a[edge_col(edges[e], lane)] == b[edge_col(edges[e], lane)]);
        }
    }
    assert(a =~= b);
}

/// The messages of a layer after its update.
pub open spec fn layer_messages(
    totals: Seq<i64>,
    edges: Seq<(usize, usize)>,
    flat: Seq<i64>,
) -> Seq<i64> {
    Seq::new(
        edges.len() * 96,
        |x: int| min_sum::message(lane_incoming(totals, edges, flat, x % 96), x / 96),
    )
}

/// Updating the checks of a layer one after the other gives what updating each of
/// them from the state before the layer gives.
pub proof fn lemma_lanes_are_steps(
    rate: LdpcRate,
    st: LlrState,
    br: int,
    edges: Seq<(usize, usize)>,
    flat: Seq<i64>,
    upto: int,
)
    requires
        0 <= br < wimax::check_blocks(rate),
        is_layer(rate, br, edges),
        flat.len() == edges.len() * 96,
        0 <= upto <= 96,
        st.totals.len() == 2304,
        st.messages.len() == code::n_checks(rate),
        forall|lane: int|
            0 <= lane < 96 ==> decoder::sweep(rate, st, br * 96).messages[#[trigger] lane_row(
                br,
                lane,
            )] == lane_messages(flat, edges.len() as int, lane),
    ensures
        ({
            let before = decoder::sweep(rate, st, br * 96);
            let after = decoder::sweep(rate, st, br * 96 + upto);
            &&& lanes_updated(before.totals, edges, flat, upto, after.totals)
            &&& after.messages.len() == before.messages.len()
            &&& forall|lane: int|
                0 <= lane < 96 ==> after.messages[#[trigger] lane_row(br, lane)] == if lane < upto {
                    let q = lane_incoming(before.totals, edges, flat, lane);
                    Seq::new(edges.len(), |e: int| min_sum::message(q, e))
                } else {
                    before.messages[lane_row(br, lane)]
                }
            &&& forall|r: int|
                0 <= r < before.messages.len() && r / 96 != br ==> #[trigger] after.messages[r]
                    == before.messages[r]
        }),
    decreases upto,
{
    let before = decoder::sweep(rate, st, br * 96);
    decoder::lemma_sweep_len(rate, st, br * 96);
    decoder::lemma_sweep_len(rate, st, br * 96 + upto);
    if upto == 0 {
        assert(lanes_updated(before.totals, edges, flat, 0, before.totals));
    } else {
        let l = upto - 1;
        let row = br * 96 + l;
        lemma_lanes_are_steps(rate, st, br, edges, flat, l);
        lemma_lane_is_check(rate, br, edges, l);
        decoder::lemma_sweep_len(rate, st, row);
        let mid = decoder::sweep(rate, st, row);
        let after = decoder::sweep(rate, st, row + 1);
        assert(after == decoder::step(rate, mid, row));
        let cols = decoder::list(rate, row);
        assert(0 <= row < code::n_checks(rate));
        let q = lane_incoming(before.totals, edges, flat, l);
        assert(lane_row(br, l) == row);
        assert(mid.messages[lane_row(br, l)] == before.messages[row]);
        assert(min_sum::incoming(mid.totals, cols, mid.messages[row]) =~= q) by {
            assert forall|j: int| 0 <= j < cols.len() implies mid.totals[cols[j] as int]
                == before.totals[cols[j] as int] by {
                assert(edges[j].0 < 24);
                assert(cols[j] == edge_col(edges[j], l));
            }
        }
        assert(after.messages[row] =~= Seq::new(edges.len(), |e: int| min_sum::message(q, e)));
        assert forall|e: int, lane: int|
            0 <= e < edges.len() && 0 <= lane < 96 implies after.totals[#[trigger] edge_col(
            edges[e],
            lane,
        )] == if lane < upto {
            let p = lane_incoming(before.totals, edges, flat, lane);
            (p[e] + min_sum::message(p, e)) as i64
        } else {
            before.totals[edge_col(edges[e], lane)]
        } by {
            assert(edges[e].0 < 24);
            let c = edge_col(edges[e], lane);
            if lane == l {
                assert(cols[e] == c as usize);
                let j = cols.index_of(c as usize);
                assert(cols[j] == c as usize);
                lemma_cols_differ(edges, e, l, j, l);
            } else {
                if cols.contains(c as usize) {
                    let j = cols.index_of(c as usize);
                    assert(cols[j] == edge_col(edges[j], l));
                    lemma_cols_differ(edges, e, lane, j, l);
                }
                assert(mid.totals[c] == after.totals[c]);
            }
        }
        assert forall|c: int| 0 <= c < before.totals.len() && !covered(
            edges,
            c,
        ) implies #[trigger] after.totals[c] == before.totals[c] by {
            if cols.contains(c as usize) {
                let j = cols.index_of(c as usize);
                assert(edge_col(edges[j], l) == c);
            }
        }
    }
}

/// Smallest magnitudes and signs of what comes in on one lane.
struct Survey {
    min1: i64,
    min2: i64,
    at: usize,
    negative: bool,
}

impl Survey {
    /// The survey tells the least other magnitude and the sign of the others.
    spec fn holds(self, q: Seq<i64>) -> bool {
        &&& 0 <= self.min1 <= self.min2 <= LLR_FAR
        &&& forall|j: int|
            0 <= j < q.len() ==> #[trigger] min_sum::other_min(q, j, q.len() as int) == if j
                == self.at {
                self.min2 as int
            } else {
                self.min1 as int
            }
        &&& forall|j: int|
            0 <= j < q.len() ==> #[trigger] min_sum::other_negative(q, j, q.len() as int) == (
            self.negative != (q[j] < 0))
    }
}

/// Survey one lane.
fn survey(buf: &Vec<i64>, degree: usize, lane: usize, Ghost(q): Ghost<Seq<i64>>) -> (s: Survey)
    requires
        lane < 96,
        degree <= 24,
        buf@.len() >= degree * 96,
        q.len() == degree,
        forall|e: int| 0 <= e < degree ==> buf@[e * 96 + lane] == #[trigger] q[e],
        min_sum::bounded(q, TOTAL_LIMIT + LLR_CLIP),
    ensures
        s.holds(q),
{
    let mut min1: i64 = LLR_FAR;
    let mut min2: i64 = LLR_FAR;
    let mut at: usize = 0;
    let mut negative: bool = false;
    let mut t: usize = 0;
    while t < degree
        invariant
            t <= degree <= 24,
            lane < 96,
            buf@.len() >= degree * 96,
            q.len() == degree,
            forall|e: int| 0 <= e < degree ==> buf@[e * 96 + lane] == #[trigger] q[e],
            min_sum::bounded(q, TOTAL_LIMIT + LLR_CLIP),
            0 <= min1 <= min2 <= LLR_FAR,
            t > 0 ==> at < t,
            t == 0 ==> min1 == LLR_FAR && min2 == LLR_FAR,
            t > 0 ==> min1 < LLR_FAR,
            forall|j: int|
                0 <= j < degree ==> #[trigger] min_sum::other_min(q, j, t as int) == if j == at && j
                    < t {
                    min2 as int
                } else {
                    min1 as int
                },
            forall|j: int|
                0 <= j < degree ==> #[trigger] min_sum::other_negative(q, j, t as int) == (negative
                    != (j < t && q[j] < 0)),
        decreases degree - t,
    {
        let x: i64 = buf[t * 96 + lane];
        assert(x == q[t as int]);
        let a: i64 = if x < 0 {
            -x
        } else {
            x
        };
        let ghost old_min1 = min1;
        let ghost old_min2 = min2;
        let ghost old_at = at;
        let ghost old_negative = negative;
        if x < 0 {
            negative = !negative;
        }
        if a < min1 {
            min2 = min1;
            min1 = a;
            at = t;
        } else if a < min2 {
            min2 = a;
        }
        assert forall|j: int| 0 <= j < degree implies #[trigger] min_sum::other_min(q, j, t + 1)
            == if j == at && j < t + 1 {
            min2 as int
        } else {
            min1 as int
        } by {
            assert(min_sum::other_min(q, j, t as int) == if j == old_at && j < t {
                old_min2 as int
            } else {
                old_min1 as int
            });
        }
        assert forall|j: int| 0 <= j < degree implies #[trigger] min_sum::other_negative(
            q,
            j,
            t + 1,
        ) == (negative != (j < t + 1 && q[j] < 0)) by {
            assert(min_sum::other_negative(q, j, t as int) == (old_negative != (j < t && q[j]
                < 0)));
        }
        t = t + 1;
    }
    Survey { min1, min2, at, negative }
}

/// Update all checks of a layer side by side: what comes in on every lane, then the
/// survey of every lane, then the new messages and totals.
pub fn update_layer(edges: &Vec<(usize, usize)>, total: &mut Vec<i64>, flat: &mut Vec<i64>)
    requires
        edges@.len() <= 24,
        forall|e: int|
            0 <= e < edges@.len() ==> (#[trigger] edges@[e]).0 < 24 && edges@[e].1 <= 32767,
        forall|e: int, f: int| 0 <= e < f < edges@.len() ==> edges@[e].0 < edges@[f].0,
        old(total)@.len() == 2304,
        old(flat)@.len() == edges@.len() * 96,
        min_sum::bounded(old(total)@, TOTAL_LIMIT as int),
        min_sum::bounded(old(flat)@, LLR_CLIP as int),
    ensures
        lanes_updated(old(total)@, edges@, old(flat)@, 96, final(total)@),
        final(flat)@ == layer_messages(old(total)@, edges@, old(flat)@),
{
    let ghost t0 = total@;
    let ghost f0 = flat@;
    let ghost es = edges@;
    let d: usize = edges.len();
    let mut buf: Vec<i64> = Vec::new();
    let mut x: usize = 0;
    while x < d * 96
        invariant
            x <= d * 96,
            d <= 24,
            d == es.len(),
            es == edges@,
            forall|e: int|
                0 <= e < es.len() ==> (#[trigger] es[e]).0 < 24 && es[e].1 <= 32767,
            total@ == t0,
            flat@ == f0,
            t0.len() == 2304,
            f0.len() == d * 96,
            min_sum::bounded(t0, TOTAL_LIMIT as int),
            min_sum::bounded(f0, LLR_CLIP as int),
            buf@.len() == x,
            forall|y: int|
                0 <= y < x ==> #[trigger] buf@[y] == lane_incoming(t0, es, f0, y % 96)[y / 96]
                    && -(TOTAL_LIMIT + LLR_CLIP) <= buf@[y] <= TOTAL_LIMIT + LLR_CLIP,
        decreases d * 96 - x,
    {
        let e: usize = x / 96;
        let lane: usize = x % 96;
        let (bc, s): (usize, usize) = edges[e];
        assert(es[e as int].0 < 24);
        let col: usize = bc * 96 + (lane + s) % 96;
        assert(col == edge_col(es[e as int], lane as int));
        assert(-TOTAL_LIMIT <= t0[col as int] <= TOTAL_LIMIT);
        assert(-LLR_CLIP <= f0[x as int] <= LLR_CLIP);
        let q: i64 = total[col] - flat[x];
        assert(q == lane_incoming(t0, es, f0, lane as int)[e as int]) by {
            assert(lane_cols(es, lane as int)[e as int] == col);
            assert(lane_messages(f0, es.len() as int, lane as int)[e as int] == f0[x as int]);
        }
        buf.push(q);
        x = x + 1;
    }
    let mut surveys: Vec<Survey> = Vec::new();
    let mut lane: usize = 0;
    while lane < 96
        invariant
            lane <= 96,
            d <= 24,
            d == es.len(),
            buf@.len() == d * 96,
            forall|y: int|
                0 <= y < d * 96 ==> #[trigger] buf@[y] == lane_incoming(t0, es, f0, y % 96)[y / 96]
                    && -(TOTAL_LIMIT + LLR_CLIP) <= buf@[y] <= TOTAL_LIMIT + LLR_CLIP,
            surveys@.len() == lane,
            forall|l: int|
                0 <= l < lane ==> (#[trigger] surveys@[l]).holds(lane_incoming(t0, es, f0, l)),
        decreases 96 - lane,
    {
        let ghost q = lane_incoming(t0, es, f0, lane as int);
        proof {
            assert forall|e: int| 0 <= e < d implies buf@[e * 96 + lane] == #[trigger] q[e] && -(
            TOTAL_LIMIT + LLR_CLIP) <= q[e] <= TOTAL_LIMIT + LLR_CLIP by {
                let y = e * 96 + lane;
                assert(y % 96 == lane && y / 96 == e);
                assert(buf@[y] == lane_incoming(t0, es, f0, y % 96)[y / 96]);
            }
        }
        let sv = survey(&buf, d, lane, Ghost(q));
        surveys.push(sv);
        lane = lane + 1;
    }
    let ghost news = layer_messages(t0, es, f0);
    let mut x: usize = 0;
    while x < d * 96
        invariant
            x <= d * 96,
            d <= 24,
            d == es.len(),
            es == edges@,
            forall|e: int|
                0 <= e < es.len() ==> (#[trigger] es[e]).0 < 24 && es[e].1 <= 32767,
            forall|e: int, f: int| 0 <= e < f < es.len() ==> es[e].0 < es[f].0,
            t0.len() == 2304,
            total@.len() == 2304,
            f0.len() == d * 96,
            flat@.len() == d * 96,
            min_sum::bounded(t0, TOTAL_LIMIT as int),
            min_sum::bounded(f0, LLR_CLIP as int),
            news == layer_messages(t0, es, f0),
            buf@.len() == d * 96,
            forall|y: int|
                0 <= y < d * 96 ==> #[trigger] buf@[y] == lane_incoming(t0, es, f0, y % 96)[y / 96]
                    && -(TOTAL_LIMIT + LLR_CLIP) <= buf@[y] <= TOTAL_LIMIT + LLR_CLIP,
            surveys@.len() == 96,
            forall|l: int|
                0 <= l < 96 ==> (#[trigger] surveys@[l]).holds(lane_incoming(t0, es, f0, l)),
            forall|y: int|
                0 <= y < d * 96 ==> #[trigger] flat@[y] == if y < x {
                    news[y]
                } else {
                    f0[y]
                },
            forall|e: int, l: int|
                0 <= e < es.len() && 0 <= l < 96 ==> total@[#[trigger] edge_col(es[e], l)] == if e
                    * 96 + l < x {
                    (lane_incoming(t0, es, f0, l)[e] + min_sum::message(
                        lane_incoming(t0, es, f0, l),
                        e,
                    )) as i64
                } else {
                    t0[edge_col(es[e], l)]
                },
            forall|c: int| 0 <= c < 2304 && !covered(es, c) ==> #[trigger] total@[c] == t0[c],
        decreases d * 96 - x,
    {
        let e: usize = x / 96;
        let lane: usize = x % 96;
        let (bc, s): (usize, usize) = edges[e];
        assert(es[e as int].0 < 24);
        let col: usize = bc * 96 + (lane + s) % 96;
        assert(col == edge_col(es[e as int], lane as int));
        let ghost q = lane_incoming(t0, es, f0, lane as int);
        let incoming: i64 = buf[x];
        assert(incoming == q[e as int]);
        let sv = &surveys[lane];
        assert(sv.holds(q));
        let mag: i64 = if e == sv.at {
            sv.min2
        } else {
            sv.min1
        };
        assert(min_sum::other_min(q, e as int, q.len() as int) == mag);
        let scaled: i64 = mag * 3 / 4;
        let signed: i64 = if (incoming < 0) != sv.negative {
            -scaled
        } else {
            scaled
        };
        let new_r: i64 = min_sum::clip_llr(signed);
        assert(min_sum::other_negative(q, e as int, q.len() as int) == (sv.negative != (q[e as int]
            < 0)));
        assert(new_r == min_sum::message(q, e as int));
        assert(new_r == news[x as int]);
        assert(-TOTAL_LIMIT <= t0[col as int] <= TOTAL_LIMIT);
        assert(-LLR_CLIP <= f0[x as int] <= LLR_CLIP);
        assert(total@[edge_col(es[e as int], lane as int)] == t0[col as int]);
        assert(q[e as int] == t0[col as int] - f0[x as int]) by {
            assert(lane_cols(es, lane as int)[e as int] == col);
            assert(lane_messages(f0, es.len() as int, lane as int)[e as int] == f0[x as int]);
        }
        let old_r: i64 = flat[x];
        let ghost before = total@;
        let updated: i64 = total[col] + (new_r - old_r);
        total[col] = updated;
        flat[x] = new_r;
        proof {
            assert(covered(es, col as int));
            assert forall|f: int, l: int|
                0 <= f < es.len() && 0 <= l < 96 implies total@[#[trigger] edge_col(es[f], l)]
                == if f * 96 + l < x + 1 {
                (lane_incoming(t0, es, f0, l)[f] + min_sum::message(
                    lane_incoming(t0, es, f0, l),
                    f,
                )) as i64
            } else {
                t0[edge_col(es[f], l)]
            } by {
                assert(es[f].0 < 24);
                if edge_col(es[f], l) == col {
                    lemma_cols_differ(es, f, l, e as int, lane as int);
                } else {
                    assert(before[edge_col(es[f], l)] == total@[edge_col(es[f], l)]);
                    assert(f * 96 + l != x);
                }
            }
        }
        x = x + 1;
    }
    proof {
        assert(flat@ =~= news);
        assert(lanes_updated(t0, es, f0, 96, total@));
    }
}

} // verus!
