//! Pilot symbols and their place between the data symbols.
//!
//! A group is `pattern.d_syms` data symbols and then `pattern.p_syms` pilots; the
//! last group may have fewer data symbols.

use vstd::prelude::*;

use crate::constellation::ring;
use crate::profile::PilotPattern;
use crate::symbol;
use crate::symbol::Symbol;

verus! {

/// Pilot `n`: a QPSK point at `(n mod 4) * pi / 2`.
pub fn pilot_symbol(n: usize) -> (s: Symbol)
    ensures
        s == symbol::axis_point(n as int),
{
    Symbol::axis(n)
}

/// The pilots of a group.
pub open spec fn group_pilots(group: int, p: int) -> Seq<Symbol> {
    Seq::new(p as nat, |k: int| symbol::axis_point(group * p + k))
}

/// The pilots of group `group_idx`; the pilots are counted through all groups.
pub fn pilots_for_group(group_idx: usize, pattern: &PilotPattern) -> (pilots: Vec<Symbol>)
    requires
        group_idx * pattern.p_syms + pattern.p_syms <= usize::MAX,
    ensures
        pilots@ == group_pilots(group_idx as int, pattern.p_syms as int),
{
    let p: usize = pattern.p_syms;
    let mut pilots: Vec<Symbol> = Vec::new();
    let mut k: usize = 0;
    while k < p
        invariant
            k <= p,
            group_idx * p + p <= usize::MAX,
            pilots@.len() == k,
            forall|j: int|
                0 <= j < k ==> #[trigger] pilots@[j] == symbol::axis_point(group_idx * p + j),
        decreases p - k,
    {
        assert(0 <= group_idx * p) by (nonlinear_arith)
            requires
                group_idx >= 0,
                p >= 0,
        ;
        pilots.push(pilot_symbol(group_idx * p + k));
        k = k + 1;
    }
    assert(pilots@ =~= group_pilots(group_idx as int, p as int));
    pilots
}

/// Number of groups for `n` data symbols.
pub open spec fn n_groups(n: int, d: int) -> int {
    (n + d - 1) / d
}

/// Data symbols in a group.
pub open spec fn group_data(n: int, d: int, group: int) -> int {
    if n - group * d < d {
        n - group * d
    } else {
        d
    }
}

/// Symbols of data and pilots together.
pub open spec fn total_symbols(n: int, d: int, p: int) -> int {
    n + n_groups(n, d) * p
}

/// Symbol `x` of the stream: data first in each group, then its pilots.
pub open spec fn stream_symbol(data: Seq<Symbol>, d: int, p: int, x: int) -> Symbol {
    let g = x / (d + p);
    let o = x % (d + p);
    let c = group_data(data.len() as int, d, g);
    if o < c {
        data[g * d + o]
    } else {
        symbol::axis_point(g * p + (o - c))
    }
}

/// Data and pilots as they are sent.
pub open spec fn with_pilots(data: Seq<Symbol>, d: int, p: int) -> Seq<Symbol> {
    Seq::new(
        total_symbols(data.len() as int, d, p) as nat,
        |x: int| stream_symbol(data, d, p, x),
    )
}

/// Where the pilots of each group start and end.
pub open spec fn pilot_spans(n: int, d: int, p: int) -> Seq<(usize, usize)> {
    Seq::new(
        n_groups(n, d) as nat,
        |g: int|
            {
                let start = g * (d + p) + group_data(n, d, g);
                (start as usize, (start + p) as usize)
            },
    )
}

/// Facts on one group.
proof fn lemma_group(n: int, d: int, p: int, g: int)
    requires
        n >= 0,
        d >= 1,
        p >= 0,
        0 <= g < n_groups(n, d),
    ensures
        0 <= g * d < n,
        0 < group_data(n, d, g) <= d,
        g * d + group_data(n, d, g) <= n,
        g + 1 < n_groups(n, d) ==> group_data(n, d, g) == d,
        g + 1 == n_groups(n, d) ==> g * d + group_data(n, d, g) == n,
        0 <= g * p,
        g * p + p <= n_groups(n, d) * p,
        g * (d + p) == g * d + g * p,
        (g + 1) * d == g * d + d,
        (g + 1) * p == g * p + p,
        (g + 1) * (d + p) == g * (d + p) + d + p,
{
    let k = n_groups(n, d);
    vstd::arithmetic::div_mod::lemma_fundamental_div_mod(n + d - 1, d);
    assert(0 <= g * d && (g + 1) * d == g * d + d && (g + 1) * p == g * p + p && 0 <= g * p && g * (
    d + p) == g * d + g * p && (g + 1) * (d + p) == g * (d + p) + d + p) by (nonlinear_arith)
        requires
            g >= 0,
            d >= 1,
            p >= 0,
    ;
    assert((g + 1) * d <= k * d && (g + 1) * p <= k * p && k * d == d * k && (g + 1 < k ==> (g + 2)
        * d <= k * d) && (g + 2) * d == (g + 1) * d + d) by (nonlinear_arith)
        requires
            g + 1 <= k,
            d >= 1,
            p >= 0,
    ;
}

/// Number of groups for `n` data symbols.
fn count_groups(n: usize, d: usize) -> (k: usize)
    requires
        d >= 1,
    ensures
        k == n_groups(n as int, d as int),
        k <= n,
{
    let q: usize = n / d;
    let r: usize = n % d;
    proof {
        vstd::arithmetic::div_mod::lemma_fundamental_div_mod(n as int, d as int);
        assert(q * d == d * q && (q + 1) * d == q * d + d) by (nonlinear_arith);
        assert(q <= d * q) by (nonlinear_arith)
            requires
                d >= 1,
                q >= 0,
        ;
        if r == 0 {
            vstd::arithmetic::div_mod::lemma_fundamental_div_mod_converse(
                n + d - 1,
                d as int,
                q as int,
                d - 1,
            );
        } else {
            vstd::arithmetic::div_mod::lemma_fundamental_div_mod_converse(
                n + d - 1,
                d as int,
                q + 1,
                r - 1,
            );
        }
    }
    if r == 0 {
        q
    } else {
        q + 1
    }
}

/// Number of symbols of `n` data symbols with their pilots.
pub fn stream_len(n: usize, pattern: &PilotPattern) -> (len: usize)
    requires
        pattern.d_syms >= 1,
        total_symbols(n as int, pattern.d_syms as int, pattern.p_syms as int) <= usize::MAX,
    ensures
        len == total_symbols(n as int, pattern.d_syms as int, pattern.p_syms as int),
{
    let groups: usize = count_groups(n, pattern.d_syms);
    assert(0 <= groups * pattern.p_syms) by (nonlinear_arith)
        requires
            groups >= 0,
            pattern.p_syms >= 0,
    ;
    n + groups * pattern.p_syms
}

/// Where the pilots of each group start and end, for `n` data symbols.
pub fn spans(n: usize, pattern: &PilotPattern) -> (out: Vec<(usize, usize)>)
    requires
        pattern.d_syms >= 1,
        total_symbols(n as int, pattern.d_syms as int, pattern.p_syms as int) <= usize::MAX,
    ensures
        out@ == pilot_spans(n as int, pattern.d_syms as int, pattern.p_syms as int),
{
    let d: usize = pattern.d_syms;
    let p: usize = pattern.p_syms;
    let groups: usize = count_groups(n, d);
    let mut out: Vec<(usize, usize)> = Vec::new();
    let mut g: usize = 0;
    while g < groups
        invariant
            g <= groups,
            d >= 1,
            groups == n_groups(n as int, d as int),
            n + groups * p <= usize::MAX,
            out@.len() == g,
            forall|h: int|
                0 <= h < g ==> #[trigger] out@[h] == pilot_spans(n as int, d as int, p as int)[h],
        decreases groups - g,
    {
        proof {
            lemma_group(n as int, d as int, p as int, g as int);
        }
        let first: usize = g * d;
        let count: usize = if n - first < d {
            n - first
        } else {
            d
        };
        let start: usize = first + g * p + count;
        out.push((start, start + p));
        g = g + 1;
    }
    assert(out@ =~= pilot_spans(n as int, d as int, p as int));
    out
}

/// Insert `pattern.p_syms` pilots after each block of `pattern.d_syms` data symbols.
///
/// Returns the stream and, for each group, where its pilots start and end.
pub fn interleave_data_pilots(data_syms: &[Symbol], pattern: &PilotPattern) -> (out: (
    Vec<Symbol>,
    Vec<(usize, usize)>,
))
    requires
        pattern.d_syms >= 1,
        total_symbols(data_syms@.len() as int, pattern.d_syms as int, pattern.p_syms as int)
            <= usize::MAX,
    ensures
        out.0@ == with_pilots(data_syms@, pattern.d_syms as int, pattern.p_syms as int),
        out.1@ == pilot_spans(
            data_syms@.len() as int,
            pattern.d_syms as int,
            pattern.p_syms as int,
        ),
{
    let d: usize = pattern.d_syms;
    let p: usize = pattern.p_syms;
    let n: usize = data_syms.len();
    let groups: usize = count_groups(n, d);
    let mut stream: Vec<Symbol> = Vec::new();
    let mut spans: Vec<(usize, usize)> = Vec::new();
    let mut g: usize = 0;
    let ghost spec_spans = pilot_spans(n as int, d as int, p as int);
    proof {
        assert(0 * (d + p) == 0 && 0 * p == 0) by (nonlinear_arith);
        if groups == 0 {
            vstd::arithmetic::div_mod::lemma_fundamental_div_mod(n + d - 1, d as int);
        }
    }
    while g < groups
        invariant
            g <= groups,
            n == data_syms@.len(),
            d >= 1,
            d == pattern.d_syms,
            p == pattern.p_syms,
            groups == n_groups(n as int, d as int),
            n + groups * p <= usize::MAX,
            stream@.len() == if g < groups {
                g * (d + p)
            } else {
                n + groups * p
            },
            forall|x: int|
                0 <= x < stream@.len() ==> #[trigger] stream@[x] == stream_symbol(
                    data_syms@,
                    d as int,
                    p as int,
                    x,
                ),
            spans@.len() == g,
            spec_spans == pilot_spans(n as int, d as int, p as int),
            forall|h: int| 0 <= h < g ==> #[trigger] spans@[h] == spec_spans[h],
        decreases groups - g,
    {
        proof {
            lemma_group(n as int, d as int, p as int, g as int);
        }
        let ghost base = stream@;
        let start: usize = g * d;
        let count: usize = if n - start < d {
            n - start
        } else {
            d
        };
        let mut o: usize = 0;
        while o < count
            invariant
                o <= count <= d,
                start == g * d,
                d >= 1,
                start + count <= n,
                n == data_syms@.len(),
                count == group_data(n as int, d as int, g as int),
                base.len() == g * (d + p),
                stream@.len() == base.len() + o,
                forall|x: int|
                    0 <= x < stream@.len() ==> #[trigger] stream@[x] == stream_symbol(
                        data_syms@,
                        d as int,
                        p as int,
                        x,
                    ),
            decreases count - o,
        {
            proof {
                vstd::arithmetic::div_mod::lemma_fundamental_div_mod_converse(
                    g * (d + p) + o,
                    d + p,
                    g as int,
                    o as int,
                );
            }
            stream.push(data_syms[start + o]);
            o = o + 1;
        }
        let span_start: usize = stream.len();
        let pilots = pilots_for_group(g, pattern);
        let ghost with_data = stream@;
        let mut k: usize = 0;
        while k < p
            invariant
                k <= p,
                d >= 1,
                p == pattern.p_syms,
                pilots@ == group_pilots(g as int, p as int),
                0 < count <= d,
                count == group_data(n as int, d as int, g as int),
                n == data_syms@.len(),
                with_data.len() == g * (d + p) + count,
                stream@.len() == with_data.len() + k,
                forall|x: int|
                    0 <= x < stream@.len() ==> #[trigger] stream@[x] == stream_symbol(
                        data_syms@,
                        d as int,
                        p as int,
                        x,
                    ),
            decreases p - k,
        {
            proof {
                vstd::arithmetic::div_mod::lemma_fundamental_div_mod_converse(
                    g * (d + p) + count + k,
                    d + p,
                    g as int,
                    count + k,
                );
            }
            stream.push(pilots[k]);
            k = k + 1;
        }
        spans.push((span_start, span_start + p));
        g = g + 1;
    }
    proof {
        assert(stream@ =~= with_pilots(data_syms@, d as int, p as int));
        assert(spans@ =~= pilot_spans(n as int, d as int, p as int));
    }
    (stream, spans)
}

// ---------------------------------------------------------------------------
// Amplitude
// ---------------------------------------------------------------------------

/// Data and pilots as they are sent, with pilots of some amplitude.
pub open spec fn with_pilots_at(data: Seq<Symbol>, d: int, p: int, amplitude: int) -> Seq<Symbol> {
    Seq::new(
        total_symbols(data.len() as int, d, p) as nat,
        |x: int|
            if x % (d + p) < group_data(data.len() as int, d, x / (d + p)) {
                stream_symbol(data, d, p, x)
            } else {
                ring::scaled(stream_symbol(data, d, p, x), amplitude)
            },
    )
}

/// The group that a symbol of the stream belongs to.
proof fn lemma_group_of(n: int, d: int, p: int, x: int)
    requires
        n >= 0,
        d >= 1,
        p >= 0,
        0 <= x < total_symbols(n, d, p),
    ensures
        0 <= x / (d + p) < n_groups(n, d),
        0 <= x % (d + p) < d + p,
{
    let w = d + p;
    let k = n_groups(n, d);
    vstd::arithmetic::div_mod::lemma_fundamental_div_mod(x, w);
    vstd::arithmetic::div_mod::lemma_fundamental_div_mod(n + d - 1, d);
    vstd::arithmetic::div_mod::lemma_div_pos_is_pos(x, w);
    let g = x / w;
    assert(n <= k * d && k * w == k * d + k * p) by (nonlinear_arith)
        requires
            n + d - 1 == d * k + (n + d - 1) % d,
            0 <= (n + d - 1) % d < d,
            w == d + p,
    ;
    assert(g < k) by (nonlinear_arith)
        requires
            x == w * g + x % w,
            x % w >= 0,
            x < k * w,
            w >= 1,
    ;
}

/// Interleave data with pilots of some amplitude, in units of `1 / symbol::ONE`.
pub fn interleave_at(data_syms: &[Symbol], pattern: &PilotPattern, amplitude: u64) -> (out: Vec<
    Symbol,
>)
    requires
        pattern.d_syms >= 1,
        pattern.d_syms + pattern.p_syms <= usize::MAX,
        total_symbols(data_syms@.len() as int, pattern.d_syms as int, pattern.p_syms as int)
            <= usize::MAX,
        amplitude <= 0x80_0000_0000_0000,
    ensures
        out@ == with_pilots_at(
            data_syms@,
            pattern.d_syms as int,
            pattern.p_syms as int,
            amplitude as int,
        ),
{
    let d: usize = pattern.d_syms;
    let p: usize = pattern.p_syms;
    let n: usize = data_syms.len();
    let (stream, _) = interleave_data_pilots(data_syms, pattern);
    let ghost all = with_pilots_at(data_syms@, d as int, p as int, amplitude as int);
    let mut out: Vec<Symbol> = Vec::new();
    let mut x: usize = 0;
    while x < stream.len()
        invariant
            x <= stream@.len(),
            d >= 1,
            d + p <= usize::MAX,
            n == data_syms@.len(),
            amplitude <= 0x80_0000_0000_0000,
            stream@ == with_pilots(data_syms@, d as int, p as int),
            all == with_pilots_at(data_syms@, d as int, p as int, amplitude as int),
            out@ == all.take(x as int),
        decreases stream@.len() - x,
    {
        let g: usize = x / (d + p);
        let o: usize = x % (d + p);
        proof {
            lemma_group_of(n as int, d as int, p as int, x as int);
            lemma_group(n as int, d as int, p as int, g as int);
        }
        let rest: usize = n - g * d;
        let c: usize = if rest < d {
            rest
        } else {
            d
        };
        let s: Symbol = stream[x];
        if o < c {
            out.push(s);
        } else {
            out.push(ring::scale(s, amplitude));
        }
        assert(all.take(x + 1) =~= all.take(x as int).push(all[x as int]));
        x = x + 1;
    }
    assert(all.take(x as int) =~= all);
    out
}

/// The pilots of a group at some amplitude.
pub fn pilots_at(group_idx: usize, pattern: &PilotPattern, amplitude: u64) -> (pilots: Vec<Symbol>)
    requires
        group_idx * pattern.p_syms + pattern.p_syms <= usize::MAX,
        amplitude <= 0x80_0000_0000_0000,
    ensures
        pilots@ == ring::all_scaled(
            group_pilots(group_idx as int, pattern.p_syms as int),
            amplitude as int,
        ),
{
    let unit = pilots_for_group(group_idx, pattern);
    ring::scale_all(&unit, amplitude)
}

/// Place of data symbol `i` in the stream.
pub open spec fn data_place(i: int, d: int, p: int) -> int {
    (i / d) * (d + p) + i % d
}

/// Data symbols among the first `n` symbols of a stream of whole groups.
pub open spec fn data_count(n: int, d: int, p: int) -> int {
    (n / (d + p)) * d + (if n % (d + p) < d {
        n % (d + p)
    } else {
        d
    })
}

/// The symbols of a stream at data places.
pub open spec fn without_pilots<T>(stream: Seq<T>, d: int, p: int) -> Seq<T> {
    Seq::new(
        data_count(stream.len() as int, d, p) as nat,
        |i: int| stream[data_place(i, d, p)],
    )
}

/// Counting one symbol more.
pub proof fn lemma_data_count(n: int, d: int, p: int)
    requires
        n >= 0,
        d >= 1,
        p >= 0,
    ensures
        data_count(n, d, p) >= 0,
        n % (d + p) < d ==> data_count(n + 1, d, p) == data_count(n, d, p) + 1 && data_place(
            data_count(n, d, p),
            d,
            p,
        ) == n,
        n % (d + p) >= d ==> data_count(n + 1, d, p) == data_count(n, d, p),
{
    let g = d + p;
    let q = n / g;
    let o = n % g;
    vstd::arithmetic::div_mod::lemma_fundamental_div_mod(n, g);
    vstd::arithmetic::div_mod::lemma_div_pos_is_pos(n, g);
    assert(g * q == q * g && q * d >= 0 && (q + 1) * d == q * d + d && (q + 1) * g == q * g + g)
        by (nonlinear_arith)
        requires
            q >= 0,
            d >= 1,
    ;
    if o + 1 < g {
        vstd::arithmetic::div_mod::lemma_fundamental_div_mod_converse(n + 1, g, q, o + 1);
    } else {
        vstd::arithmetic::div_mod::lemma_fundamental_div_mod_converse(n + 1, g, q + 1, 0);
    }
    if o < d {
        vstd::arithmetic::div_mod::lemma_fundamental_div_mod_converse(q * d + o, d, q, o);
    }
}

/// Take the data symbols out of a stream: those whose place in their group is below
/// `pattern.d_syms`. Behind the data of a last group that is not full, its pilots
/// follow.
pub fn strip_pilots<T: Copy>(stream: &[T], pattern: &PilotPattern) -> (data: Vec<T>)
    requires
        pattern.d_syms >= 1,
        pattern.d_syms + pattern.p_syms <= usize::MAX,
    ensures
        data@ == without_pilots(stream@, pattern.d_syms as int, pattern.p_syms as int),
{
    let d: usize = pattern.d_syms;
    let p: usize = pattern.p_syms;
    let mut data: Vec<T> = Vec::new();
    let mut i: usize = 0;
    proof {
        vstd::arithmetic::div_mod::lemma_fundamental_div_mod_converse(0, d + p, 0, 0);
        assert(0 * d == 0) by (nonlinear_arith);
    }
    while i < stream.len()
        invariant
            i <= stream@.len(),
            d >= 1,
            d + p <= usize::MAX,
            data@.len() == data_count(i as int, d as int, p as int),
            forall|j: int|
                0 <= j < data@.len() ==> #[trigger] data@[j] == stream@[data_place(
                    j,
                    d as int,
                    p as int,
                )],
        decreases stream@.len() - i,
    {
        proof {
            lemma_data_count(i as int, d as int, p as int);
        }
        if i % (d + p) < d {
            data.push(stream[i]);
        }
        i = i + 1;
    }
    assert(data@ =~= without_pilots(stream@, d as int, p as int));
    data
}

// ---------------------------------------------------------------------------
// Laws
// ---------------------------------------------------------------------------

/// Every data symbol stands in the stream at its place.
pub proof fn law_stream_holds_the_data(data: Seq<Symbol>, d: int, p: int, i: int)
    requires
        d >= 1,
        p >= 0,
        0 <= i < data.len(),
    ensures
        0 <= data_place(i, d, p) < total_symbols(data.len() as int, d, p),
        with_pilots(data, d, p)[data_place(i, d, p)] == data[i],
{
    let n = data.len() as int;
    let g = i / d;
    let o = i % d;
    vstd::arithmetic::div_mod::lemma_fundamental_div_mod(i, d);
    vstd::arithmetic::div_mod::lemma_fundamental_div_mod(n + d - 1, d);
    let k = n_groups(n, d);
    assert(0 <= g && g * d == d * g) by (nonlinear_arith)
        requires
            g == i / d,
            i >= 0,
            d >= 1,
    ;
    assert(g < k) by (nonlinear_arith)
        requires
            i == d * g + o,
            0 <= o < d,
            i < n,
            n + d - 1 == d * k + (n + d - 1) % d,
            0 <= (n + d - 1) % d < d,
            d >= 1,
    ;
    lemma_group(n, d, p, g);
    vstd::arithmetic::div_mod::lemma_fundamental_div_mod_converse(g * (d + p) + o, d + p, g, o);
}

/// Every pilot stands in the stream within the span of its group.
pub proof fn law_spans_hold_the_pilots(data: Seq<Symbol>, d: int, p: int, g: int, k: int)
    requires
        d >= 1,
        p >= 0,
        total_symbols(data.len() as int, d, p) <= usize::MAX,
        0 <= g < n_groups(data.len() as int, d),
        0 <= k < p,
    ensures
        ({
            let span = pilot_spans(data.len() as int, d, p)[g];
            &&& span.1 == span.0 + p
            &&& span.1 <= total_symbols(data.len() as int, d, p)
            &&& with_pilots(data, d, p)[span.0 + k] == symbol::axis_point(g * p + k)
        }),
{
    let n = data.len() as int;
    lemma_group(n, d, p, g);
    let c = group_data(n, d, g);
    vstd::arithmetic::div_mod::lemma_fundamental_div_mod_converse(
        g * (d + p) + c + k,
        d + p,
        g,
        c + k,
    );
}

/// Pilots repeat every four.
pub proof fn law_pilots_cycle(n: int)
    ensures
        symbol::axis_point(n + 4) == symbol::axis_point(n),
{
    assert((n + 4) % 4 == n % 4);
}

/// Taking the pilots out again gives the data back: the symbols at data places begin
/// with the data that was sent.
pub proof fn law_stripping_gives_the_data_back(data: Seq<Symbol>, d: int, p: int)
    requires
        d >= 1,
        p >= 0,
    ensures
        ({
            let back = without_pilots(with_pilots(data, d, p), d, p);
            back.len() >= data.len() && back.take(data.len() as int) == data
        }),
{
    let stream = with_pilots(data, d, p);
    let back = without_pilots(stream, d, p);
    let n = data.len() as int;
    if n > 0 {
        law_stream_holds_the_data(data, d, p, n - 1);
        lemma_places_count(n - 1, stream.len() as int, d, p);
    } else {
        lemma_data_count(stream.len() as int, d, p);
    }
    assert forall|i: int| 0 <= i < n implies back[i] == data[i] by {
        law_stream_holds_the_data(data, d, p, i);
    }
    assert(back.take(n) =~= data);
}

/// The amplitude of the pilots leaves the data alone: taking the pilots out again gives
/// the data back.
pub proof fn law_amplitude_leaves_the_data(data: Seq<Symbol>, d: int, p: int, amplitude: int)
    requires
        d >= 1,
        p >= 0,
    ensures
        ({
            let back = without_pilots(with_pilots_at(data, d, p, amplitude), d, p);
            back.len() >= data.len() && back.take(data.len() as int) == data
        }),
{
    let n = data.len() as int;
    let stream = with_pilots_at(data, d, p, amplitude);
    let back = without_pilots(stream, d, p);
    let plain = without_pilots(with_pilots(data, d, p), d, p);
    law_stripping_gives_the_data_back(data, d, p);
    lemma_data_count(stream.len() as int, d, p);
    assert(back.len() == plain.len());
    assert forall|i: int| 0 <= i < n implies back[i] == data[i] by {
        law_stream_holds_the_data(data, d, p, i);
        let g = i / d;
        let o = i % d;
        vstd::arithmetic::div_mod::lemma_fundamental_div_mod(i, d);
        vstd::arithmetic::div_mod::lemma_div_pos_is_pos(i, d);
        assert(g * d == d * g) by (nonlinear_arith);
        vstd::arithmetic::div_mod::lemma_fundamental_div_mod_converse(
            g * (d + p) + o,
            d + p,
            g,
            o,
        );
    }
    assert(back.take(n) =~= data);
}

/// Pilots of amplitude 1 are the pilots as they are.
pub proof fn law_unit_amplitude_is_plain(data: Seq<Symbol>, d: int, p: int)
    ensures
        with_pilots_at(data, d, p, symbol::ONE as int) == with_pilots(data, d, p),
{
    assert forall|x: int| 0 <= x < with_pilots(data, d, p).len() implies with_pilots_at(
        data,
        d,
        p,
        symbol::ONE as int,
    )[x] == with_pilots(data, d, p)[x] by {
        ring::law_unit_radius_changes_nothing(stream_symbol(data, d, p, x));
    }
    assert(with_pilots_at(data, d, p, symbol::ONE as int) =~= with_pilots(data, d, p));
}

/// A stream that holds the place of data symbol `i` has more than `i` data symbols.
proof fn lemma_places_count(i: int, len: int, d: int, p: int)
    requires
        d >= 1,
        p >= 0,
        i >= 0,
        data_place(i, d, p) < len,
    ensures
        data_count(len, d, p) > i,
    decreases len,
{
    lemma_place_is_data(i, d, p);
    lemma_data_count(len - 1, d, p);
    if data_place(i, d, p) == len - 1 {
        lemma_data_count(len - 1, d, p);
    } else {
        lemma_places_count(i, len - 1, d, p);
    }
}

/// The place of data symbol `i` is a data place, and `i` data symbols stand before it.
pub proof fn lemma_place_is_data(i: int, d: int, p: int)
    requires
        d >= 1,
        p >= 0,
        i >= 0,
    ensures
        data_place(i, d, p) >= 0,
        data_place(i, d, p) % (d + p) < d,
        data_count(data_place(i, d, p), d, p) == i,
{
    let q = i / d;
    let o = i % d;
    vstd::arithmetic::div_mod::lemma_fundamental_div_mod(i, d);
    vstd::arithmetic::div_mod::lemma_div_pos_is_pos(i, d);
    assert(q * (d + p) >= 0 && q * d == d * q) by (nonlinear_arith)
        requires
            q >= 0,
            d >= 1,
            p >= 0,
    ;
    vstd::arithmetic::div_mod::lemma_fundamental_div_mod_converse(q * (d + p) + o, d + p, q, o);
}

} // verus!
