//! Presence probe for preambles: which templates are tried and which one wins.
//!
//! Scores are non-negative numbers in any integer encoding that keeps their order.

use vstd::arithmetic::power2;
use vstd::prelude::*;

use crate::preamble::PreambleFamily;
use crate::profile::ProfileIndex;
use crate::ratio::Ratio;
use crate::rrc;
use crate::types::{AUDIO_RATE, N_PREAMBLE, RRC_SPAN_SYM};

verus! {

/// One preamble waveform to look for.
#[derive(Clone, Copy, Debug, PartialEq, Eq, Structural)]
pub struct ProbeTemplate {
    pub family: PreambleFamily,
    /// Samples per symbol.
    pub sps: usize,
    /// Samples between symbols.
    pub pitch: usize,
    /// Roll-off.
    pub beta: Ratio,
    /// Profile to assume where this template wins.
    pub anchor: ProfileIndex,
}

/// Number of templates.
pub const N_TEMPLATES: usize = 3;

/// Longest template in samples.
pub const MAX_TEMPLATE_LEN: usize = 25728;

/// The template at a position.
pub open spec fn template_at(i: int) -> ProbeTemplate {
    if i == 0 {
        ProbeTemplate {
            family: PreambleFamily::A,
            sps: 32,
            pitch: 32,
            beta: Ratio { num: 20, den: 100 },
            anchor: ProfileIndex::Normal,
        }
    } else if i == 1 {
        ProbeTemplate {
            family: PreambleFamily::B,
            sps: 48,
            pitch: 48,
            beta: Ratio { num: 25, den: 100 },
            anchor: ProfileIndex::Robust,
        }
    } else {
        ProbeTemplate {
            family: PreambleFamily::C,
            sps: 96,
            pitch: 96,
            beta: Ratio { num: 25, den: 100 },
            anchor: ProfileIndex::Ultra,
        }
    }
}

/// The templates, one per preamble family.
pub fn probe_templates() -> (templates: Vec<ProbeTemplate>)
    ensures
        templates@ == Seq::new(N_TEMPLATES as nat, |i: int| template_at(i)),
{
    let templates: Vec<ProbeTemplate> = vec![
        ProbeTemplate {
            family: PreambleFamily::A,
            sps: 32,
            pitch: 32,
            beta: Ratio { num: 20, den: 100 },
            anchor: ProfileIndex::Normal,
        },
        ProbeTemplate {
            family: PreambleFamily::B,
            sps: 48,
            pitch: 48,
            beta: Ratio { num: 25, den: 100 },
            anchor: ProfileIndex::Robust,
        },
        ProbeTemplate {
            family: PreambleFamily::C,
            sps: 96,
            pitch: 96,
            beta: Ratio { num: 25, den: 100 },
            anchor: ProfileIndex::Ultra,
        },
    ];
    assert(templates@ =~= Seq::new(N_TEMPLATES as nat, |i: int| template_at(i)));
    templates
}

/// Every template is the preamble waveform of its anchor profile, its anchor is that
/// of its family, and none is longer than the longest.
pub proof fn law_templates_match_their_anchors(i: int)
    requires
        0 <= i < N_TEMPLATES,
    ensures
        ({
            let t = template_at(i);
            let config = t.anchor.spec_config();
            &&& t.anchor == ProfileIndex::spec_anchor(t.family)
            &&& t.family == t.anchor.spec_preamble_family()
            &&& t.beta == config.beta
            &&& rrc::checked_rates(AUDIO_RATE, config.symbol_rate, config.tau) == Ok::<
                (int, int),
                rrc::RateError,
            >((t.sps as int, t.pitch as int))
            &&& N_PREAMBLE * t.sps + RRC_SPAN_SYM * t.sps <= MAX_TEMPLATE_LEN
        }),
{
    let t = template_at(i);
    let config = t.anchor.spec_config();
    let rs = config.symbol_rate;
    let a = AUDIO_RATE * rs.den;
    let b = rs.num as int;
    assert(a == 48000) by (nonlinear_arith)
        requires
            a == AUDIO_RATE * rs.den,
            AUDIO_RATE == 48000,
            rs.den == 1,
    ;
    assert(rrc::nearest(48000, b) == t.sps && t.sps * b == 48000) by {
        if i == 0 {
            assert((2 * 48000 + 1500int) / (2 * 1500int) == 32);
        } else if i == 1 {
            assert((2 * 48000 + 1000int) / (2 * 1000int) == 48);
        } else {
            assert((2 * 48000 + 500int) / (2 * 500int) == 96);
        }
    }
    let s = t.sps as int;
    assert(config.tau.num * s == s) by (nonlinear_arith)
        requires
            config.tau.num == 1,
    ;
    assert(rrc::nearest(s, 1) == s) by {
        assert((2 * s + 1) / 2 == s);
    }
}

/// The smallest power of two that is at least `n`.
pub open spec fn is_next_pow2(p: int, n: int) -> bool {
    exists|e: nat| #[trigger] power2::pow2(e) == p && p >= n && (e == 0 || power2::pow2(
        (e - 1) as nat,
    ) < n)
}

/// The smallest power of two that is at least `n`.
pub fn next_pow2(n: usize) -> (p: usize)
    requires
        n <= usize::MAX / 2 + 1,
    ensures
        is_next_pow2(p as int, n as int),
{
    let mut p: usize = 1;
    let ghost mut e: nat = 0;
    proof {
        power2::lemma2_to64();
    }
    while p < n
        invariant
            n <= usize::MAX / 2 + 1,
            p == power2::pow2(e),
            p >= 1,
            e == 0 || power2::pow2((e - 1) as nat) < n,
        decreases
                (if p < n {
                    n - p
                } else {
                    0
                }),
    {
        proof {
            power2::lemma_pow2_unfold(e + 1);
            e = e + 1;
        }
        p = 2 * p;
    }
    p
}

/// Transform length for a buffer, long enough for the longest template behind it.
pub fn fft_len_for(buf_len: usize) -> (len: usize)
    requires
        buf_len + MAX_TEMPLATE_LEN <= usize::MAX / 2 + 1,
    ensures
        is_next_pow2(len as int, buf_len + MAX_TEMPLATE_LEN),
{
    next_pow2(buf_len + MAX_TEMPLATE_LEN)
}

/// Outcome of a probe.
#[derive(Clone, Debug)]
pub struct ProbeResult {
    /// Best score of all templates.
    pub max_ratio: u64,
    /// Anchor of the template with the best score.
    pub best_anchor: ProfileIndex,
    /// Scores of all templates, in their order.
    pub per_template_ratio: Vec<u64>,
}

/// Position of the winner: the first of the best scores, or the first template
/// where no score is above zero.
pub open spec fn is_winner(scores: Seq<u64>, w: int) -> bool {
    &&& 0 <= w < scores.len()
    &&& forall|j: int| 0 <= j < scores.len() ==> scores[j] <= scores[w]
    &&& forall|j: int| 0 <= j < w ==> scores[j] < scores[w]
}

impl ProbeResult {
    /// Preamble family of the winner.
    pub fn best_family(&self) -> (family: PreambleFamily)
        ensures
            family == self.best_anchor.spec_preamble_family(),
    {
        self.best_anchor.preamble_family()
    }

    /// Whether a preamble is likely there.
    pub fn passes(&self, threshold: u64) -> (yes: bool)
        ensures
            yes == (self.max_ratio >= threshold),
    {
        self.max_ratio >= threshold
    }
}

/// Choose the winner from the scores of the templates.
pub fn choose_template(scores: Vec<u64>) -> (out: ProbeResult)
    requires
        scores@.len() == N_TEMPLATES,
    ensures
        out.per_template_ratio@ == scores@,
        exists|w: int|
            #![trigger template_at(w)]
            is_winner(scores@, w) && out.max_ratio == scores@[w] && out.best_anchor == template_at(
                w,
            ).anchor,
{
    let templates = probe_templates();
    let mut best: usize = 0;
    let mut best_score: u64 = 0;
    let mut i: usize = 0;
    while i < N_TEMPLATES
        invariant
            i <= N_TEMPLATES,
            scores@.len() == N_TEMPLATES,
            best < N_TEMPLATES,
            forall|j: int| 0 <= j < i ==> scores@[j] <= best_score,
            best_score > 0 ==> best < i && best_score == scores@[best as int],
            best_score == 0 ==> best == 0,
            forall|j: int| 0 <= j < best ==> scores@[j] < best_score,
        decreases N_TEMPLATES - i,
    {
        if scores[i] > best_score {
            best_score = scores[i];
            best = i;
        }
        i = i + 1;
    }
    proof {
        if best_score == 0 {
            assert(scores@[0] == 0);
        }
        assert(is_winner(scores@, best as int));
        assert(template_at(best as int) == templates@[best as int]);
    }
    ProbeResult {
        max_ratio: best_score,
        best_anchor: templates[best].anchor,
        per_template_ratio: scores,
    }
}

/// A transform length is a power of two, large enough, and no more than twice as large as it
/// has to be.
pub proof fn law_transform_length_is_least(p: int, n: int)
    requires
        is_next_pow2(p, n),
        n >= 1,
    ensures
        p >= n,
        p < 2 * n,
        exists|e: nat| #[trigger] power2::pow2(e) == p,
{
    let e = choose|e: nat| #[trigger]
        power2::pow2(e) == p && p >= n && (e == 0 || power2::pow2((e - 1) as nat) < n);
    power2::lemma2_to64();
    if e > 0 {
        power2::lemma_pow2_unfold(e);
    }
}

/// There is a template for each family, and the longest one is that of the slowest profile:
/// its preamble of 256 symbols with the 12 symbols of a pulse.
pub proof fn law_longest_template_is_that_of_the_slowest_profile(i: int)
    requires
        0 <= i < 3,
    ensures
        (256 + 12) * template_at(i).sps <= MAX_TEMPLATE_LEN,
        (256 + 12) * template_at(2).sps == MAX_TEMPLATE_LEN,
        template_at(2).anchor == ProfileIndex::Ultra,
        i != 0 ==> template_at(i).family != template_at(0).family,
        i != 1 ==> template_at(i).family != template_at(1).family,
{
}

} // verus!
