//! Receiving a single burst: where its pilots are, and what its codewords give.

use vstd::prelude::*;

use crate::header::Header;
use crate::pilot;
use crate::profile::PilotPattern;
use crate::rx_v2::walk::DecodedWord;

verus! {

/// Codewords that hold `len` bytes, `k_bytes` in each.
pub open spec fn codewords_for(len: int, k_bytes: int) -> int {
    (len + k_bytes - 1) / k_bytes
}

/// Symbols of the burst behind its header, data and pilots.
pub open spec fn burst_len(n_data: int) -> int {
    pilot::total_symbols(n_data, 32, 2)
}

/// Pilot groups that follow the burst within `region_len` symbols.
pub open spec fn trailing_groups(region_len: int, n_data: int) -> int {
    (region_len - burst_len(n_data)) / 34
}

/// Where the pilots are: those of the burst, then those of the groups that follow it.
pub open spec fn all_spans(region_len: int, n_data: int) -> Seq<(usize, usize)> {
    pilot::pilot_spans(n_data, 32, 2) + Seq::new(
        trailing_groups(region_len, n_data) as nat,
        |j: int|
            {
                let start = burst_len(n_data) + 34 * j + 32;
                (start as usize, (start + 2) as usize)
            },
    )
}

/// How a burst is laid out.
pub struct BurstPlan {
    pub n_codewords: usize,
    /// Data symbols.
    pub n_data: usize,
    /// Symbols behind the header, data and pilots.
    pub len: usize,
    /// Where the pilots of each group start and end.
    pub pilots: Vec<(usize, usize)>,
}

/// Lay out a burst with a payload of `payload_length` bytes in `region_len` symbols
/// behind its header. `None` where the burst is longer than that.
pub fn plan_burst(
    payload_length: u16,
    k_bytes: usize,
    syms_per_codeword: usize,
    region_len: usize,
) -> (plan: Option<BurstPlan>)
    requires
        1 <= k_bytes <= 65536,
        syms_per_codeword <= 2304,
        region_len <= usize::MAX - 34,
        burst_len(codewords_for(payload_length as int, k_bytes as int) * syms_per_codeword)
            <= usize::MAX,
    ensures
        ({
            let n_cw = codewords_for(payload_length as int, k_bytes as int);
            let n_data = n_cw * syms_per_codeword;
            &&& plan is None <==> region_len < burst_len(n_data)
            &&& plan matches Some(p) ==> {
                &&& p.n_codewords == n_cw
                &&& p.n_data == n_data
                &&& p.len == burst_len(n_data)
                &&& p.pilots@ == all_spans(region_len as int, n_data)
            }
        }),
{
    let n_codewords: usize = (payload_length as usize + k_bytes - 1) / k_bytes;
    proof {
        vstd::arithmetic::div_mod::lemma_div_pos_is_pos(
            payload_length + k_bytes - 1,
            k_bytes as int,
        );
        assert(0 <= n_codewords * syms_per_codeword) by (nonlinear_arith)
            requires
                n_codewords >= 0,
                syms_per_codeword >= 0,
        ;
        lemma_burst_len(n_codewords * syms_per_codeword);
    }
    let n_data: usize = n_codewords * syms_per_codeword;
    let pattern = PilotPattern::default_v3();
    let len: usize = pilot::stream_len(n_data, &pattern);
    if region_len < len {
        return None;
    }
    let mut pilots = pilot::spans(n_data, &pattern);
    let ghost spans = pilots@;
    let ghost want = all_spans(region_len as int, n_data as int);
    let mut origin: usize = len;
    let ghost mut j: int = 0;
    while origin + 34 <= region_len
        invariant
            len <= origin <= region_len,
            region_len <= usize::MAX - 34,
            origin == len + 34 * j,
            0 <= j <= trailing_groups(region_len as int, n_data as int),
            len == burst_len(n_data as int),
            spans == pilot::pilot_spans(n_data as int, 32, 2),
            want == all_spans(region_len as int, n_data as int),
            pilots@ == want.take(spans.len() + j),
        decreases region_len - origin,
    {
        let start: usize = origin + 32;
        pilots.push((start, start + 2));
        proof {
            assert(want[spans.len() + j] == (start, (start + 2) as usize));
            assert(want.take(spans.len() + j + 1) =~= want.take(spans.len() + j).push(
                want[spans.len() + j],
            ));
            j = j + 1;
        }
        origin = origin + 34;
    }
    assert(want.take(spans.len() + j) =~= want);
    Some(BurstPlan { n_codewords, n_data, len, pilots })
}

proof fn lemma_burst_len(n_data: int)
    requires
        n_data >= 0,
    ensures
        n_data <= burst_len(n_data),
{
    vstd::arithmetic::div_mod::lemma_div_pos_is_pos(n_data + 31, 32);
}

/// What symbol `i` of a burst is: a pilot, by its group and its place in the group, or
/// data.
pub open spec fn pilot_at(n_data: int, i: int) -> Option<(usize, usize)> {
    let g = i / 34;
    let o = i % 34;
    let c = pilot::group_data(n_data, 32, g);
    if o < c {
        None
    } else {
        Some((g as usize, (o - c) as usize))
    }
}

/// Whether symbol `i` of a burst with `n_data` data symbols is a pilot: its group and
/// its place in the group.
pub fn find_pilot(n_data: usize, i: usize) -> (at: Option<(usize, usize)>)
    requires
        i < burst_len(n_data as int),
    ensures
        at == pilot_at(n_data as int, i as int),
        at matches Some((_, k)) ==> k < 2,
{
    proof {
        lemma_symbol_in_burst(n_data as int, i as int);
    }
    let g: usize = i / 34;
    let o: usize = i % 34;
    let rest: usize = n_data - g * 32;
    let c: usize = if rest < 32 {
        rest
    } else {
        32
    };
    if o < c {
        None
    } else {
        Some((g, o - c))
    }
}

/// A symbol of a burst is in one of its groups, and a pilot is in its span.
pub proof fn lemma_symbol_in_burst(n_data: int, i: int)
    requires
        n_data >= 0,
        0 <= i < burst_len(n_data),
    ensures
        0 <= i / 34 < pilot::n_groups(n_data, 32),
        0 <= (i / 34) * 32 < n_data,
        i % 34 < pilot::group_data(n_data, 32, i / 34) + 2,
{
}

/// What a burst gave.
pub struct RxResult {
    pub data: Vec<u8>,
    pub header: Option<Header>,
    pub converged_blocks: usize,
    pub total_blocks: usize,
}

/// The first `n` codewords one behind the other.
pub open spec fn joined_words(words: Seq<DecodedWord>, n: int) -> Seq<u8>
    decreases n,
{
    if n <= 0 {
        Seq::empty()
    } else {
        joined_words(words, n - 1) + words[n - 1].bytes@
    }
}

/// How many of the first `n` codewords converged.
pub open spec fn converged_words(words: Seq<DecodedWord>, n: int) -> int
    decreases n,
{
    if n <= 0 {
        0
    } else {
        converged_words(words, n - 1) + (if words[n - 1].converged {
            1int
        } else {
            0
        })
    }
}

/// Put the codewords of a burst together, whether they converged or not.
pub fn collect_burst(header: Option<Header>, words: &Vec<DecodedWord>) -> (r: RxResult)
    ensures
        r.header == header,
        r.data@ == joined_words(words@, words@.len() as int),
        r.total_blocks == words@.len(),
        r.converged_blocks == converged_words(words@, words@.len() as int),
        r.converged_blocks <= r.total_blocks,
{
    let mut data: Vec<u8> = Vec::new();
    let mut converged: usize = 0;
    let mut i: usize = 0;
    while i < words.len()
        invariant
            i <= words@.len(),
            data@ == joined_words(words@, i as int),
            converged == converged_words(words@, i as int),
            converged <= i,
        decreases words@.len() - i,
    {
        data.extend_from_slice(words[i].bytes.as_slice());
        if words[i].converged {
            converged = converged + 1;
        }
        i = i + 1;
        assert(data@ =~= joined_words(words@, i as int));
    }
    RxResult { data, header, converged_blocks: converged, total_blocks: words.len() }
}

/// The pilots that `pilot_at` names are those of the spans.
pub proof fn law_pilots_are_in_their_spans(n_data: int, i: int)
    requires
        n_data >= 0,
        burst_len(n_data) <= usize::MAX,
        0 <= i < burst_len(n_data),
    ensures
        pilot_at(n_data, i) matches Some((g, k)) ==> {
            let span = pilot::pilot_spans(n_data, 32, 2)[g as int];
            span.0 + k == i && i < span.1
        },
{
    lemma_symbol_in_burst(n_data, i);
}

/// A burst has as few codewords as hold its payload.
pub proof fn law_burst_has_few_codewords(len: int, k_bytes: int)
    requires
        len >= 0,
        k_bytes >= 1,
    ensures
        codewords_for(len, k_bytes) * k_bytes >= len,
        len > 0 ==> (codewords_for(len, k_bytes) - 1) * k_bytes < len,
        len == 0 ==> codewords_for(len, k_bytes) == 0,
{
    let n = codewords_for(len, k_bytes);
    vstd::arithmetic::div_mod::lemma_fundamental_div_mod(len + k_bytes - 1, k_bytes);
    assert(n * k_bytes == k_bytes * n && (n - 1) * k_bytes == k_bytes * n - k_bytes)
        by (nonlinear_arith);
    if len == 0 {
        vstd::arithmetic::div_mod::lemma_basic_div(k_bytes - 1, k_bytes);
    }
}

/// A burst has two pilots behind every 32 data symbols and behind the last ones. Behind the
/// burst, groups of 32 symbols and two pilots go on as long as they fit.
pub proof fn law_pilots_go_on_behind_the_burst(
    region_len: int,
    n_data: int,
    groups: int,
    j: int,
)
    requires
        n_data >= 0,
        32 * (groups - 1) < n_data <= 32 * groups,
        burst_len(n_data) <= region_len <= usize::MAX,
    ensures
        ({
            let spans = all_spans(region_len, n_data);
            let end = n_data + 2 * groups;
            &&& burst_len(n_data) == end
            &&& groups <= spans.len()
            &&& end + 34 * (spans.len() - groups) <= region_len < end + 34 * (spans.len() - groups
                + 1)
            &&& 0 <= j < groups ==> {
                &&& spans[j].1 - spans[j].0 == 2
                &&& spans[j].0 == if j + 1 < groups {
                    34 * j + 32
                } else {
                    end - 2
                }
            }
            &&& groups <= j < spans.len() ==> {
                &&& spans[j].0 == end + 34 * (j - groups) + 32
                &&& spans[j].1 == spans[j].0 + 2
            }
        }),
{
    assert(pilot::n_groups(n_data, 32) == groups);
    if 0 <= j < groups {
        assert(all_spans(region_len, n_data)[j] == pilot::pilot_spans(n_data, 32, 2)[j]);
    }
}

/// The codewords of a burst follow one another, and those that converged are counted.
pub proof fn law_burst_is_joined_in_order(words: Seq<DecodedWord>, n: int, w: int, j: int, k: int)
    requires
        0 <= w < n <= words.len(),
        k >= 0,
        forall|i: int| 0 <= i < n ==> (#[trigger] words[i]).bytes@.len() == k,
        0 <= j < k,
    ensures
        joined_words(words, n).len() == n * k,
        0 <= w * k + j < n * k,
        joined_words(words, n)[w * k + j] == words[w].bytes@[j],
        converged_words(words, n) - converged_words(words, n - 1) == if words[n - 1].converged {
            1int
        } else {
            0
        },
        converged_words(words, 0) == 0,
    decreases n,
{
    assert(n * k == (n - 1) * k + k) by (nonlinear_arith);
    assert(0 <= w * k && w * k + k <= n * k) by (nonlinear_arith)
        requires
            0 <= w < n,
            k >= 0,
    ;
    if n == 1 {
        assert(joined_words(words, 0).len() == 0);
        assert(w * k == 0) by (nonlinear_arith)
            requires
                w == 0,
        ;
        assert((n - 1) * k == 0) by (nonlinear_arith)
            requires
                n == 1,
        ;
    } else if w < n - 1 {
        law_burst_is_joined_in_order(words, n - 1, w, j, k);
        assert(w * k + k <= (n - 1) * k) by (nonlinear_arith)
            requires
                w + 1 <= n - 1,
                k >= 0,
        ;
    } else {
        law_burst_is_joined_in_order(words, n - 1, 0, j, k);
    }
}

/// A symbol of a burst is a pilot exactly where it lies in a span, and then the one at its
/// place in the span.
pub proof fn law_places_in_spans_are_pilots(n_data: int, i: int, g: int)
    requires
        n_data >= 0,
        burst_len(n_data) <= usize::MAX,
        0 <= i < burst_len(n_data),
        0 <= g < pilot::pilot_spans(n_data, 32, 2).len(),
    ensures
        ({
            let span = pilot::pilot_spans(n_data, 32, 2)[g];
            span.0 <= i < span.1 <==> pilot_at(n_data, i) == Some((g as usize, (i - span.0) as usize))
        }),
{
    lemma_symbol_in_burst(n_data, i);
    let span = pilot::pilot_spans(n_data, 32, 2)[g];
    let c = pilot::group_data(n_data, 32, g);
    assert(span.0 == 34 * g + c && span.1 == 34 * g + c + 2);
    if span.0 <= i < span.1 {
        assert(i / 34 == g && i % 34 == i - 34 * g);
    }
}

} // verus!
