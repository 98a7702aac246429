//! Choice of a profile from preamble correlation scores.

use vstd::prelude::*;

use crate::profile::ProfileIndex;

verus! {

/// The score 1; scores are in units of it divided by 65536.
pub const SCORE_ONE: u64 = 65536;

/// Scores below 50 mean that there is no signal.
pub const SCORE_FLOOR: u64 = 3276800;

/// Number of profiles that take part in auto-detection.
pub const N_CANDIDATES: usize = 6;

/// The profiles that take part in auto-detection, in canonical order.
pub open spec fn candidate(i: int) -> ProfileIndex {
    if i == 0 {
        ProfileIndex::Ultra
    } else if i == 1 {
        ProfileIndex::Robust
    } else if i == 2 {
        ProfileIndex::Normal
    } else if i == 3 {
        ProfileIndex::High
    } else if i == 4 {
        ProfileIndex::HighPlus
    } else {
        ProfileIndex::HighFiveSix
    }
}

/// The profiles that take part in auto-detection, in canonical order.
pub fn candidates() -> (list: Vec<ProfileIndex>)
    ensures
        list@ == Seq::new(N_CANDIDATES as nat, |i: int| candidate(i)),
{
    let list: Vec<ProfileIndex> = vec![
        ProfileIndex::Ultra,
        ProfileIndex::Robust,
        ProfileIndex::Normal,
        ProfileIndex::High,
        ProfileIndex::HighPlus,
        ProfileIndex::HighFiveSix,
    ];
    assert(list@ =~= Seq::new(N_CANDIDATES as nat, |i: int| candidate(i)));
    list
}

/// The candidates are exactly the profiles that are not experimental, in the order
/// of their bytes.
pub proof fn law_candidates_are_not_experimental(p: ProfileIndex, i: int, j: int)
    requires
        0 <= i < j < N_CANDIDATES,
    ensures
        candidate(i).spec_as_u8() < candidate(j).spec_as_u8(),
        !p.spec_is_experimental() <==> exists|k: int| 0 <= k < N_CANDIDATES && candidate(k) == p,
{
    assert(candidate(0) == ProfileIndex::Ultra);
    assert(candidate(1) == ProfileIndex::Robust);
    assert(candidate(2) == ProfileIndex::Normal);
    assert(candidate(3) == ProfileIndex::High);
    assert(candidate(4) == ProfileIndex::HighPlus);
    assert(candidate(5) == ProfileIndex::HighFiveSix);
}

/// Candidate `w` has the best score, the first of equals.
pub open spec fn is_best(scores: Seq<u64>, w: int) -> bool {
    &&& 0 <= w < scores.len()
    &&& forall|j: int| 0 <= j < scores.len() ==> scores[j] <= scores[w]
    &&& forall|j: int| 0 <= j < w ==> scores[j] < scores[w]
}

/// Score of a profile; 0 for one that takes no part.
pub open spec fn score_of(scores: Seq<u64>, p: ProfileIndex) -> u64 {
    if p == candidate(0) {
        scores[0]
    } else if p == candidate(1) {
        scores[1]
    } else if p == candidate(2) {
        scores[2]
    } else if p == candidate(3) {
        scores[3]
    } else if p == candidate(4) {
        scores[4]
    } else if p == candidate(5) {
        scores[5]
    } else {
        0
    }
}

/// What to switch to, given the scores of the candidates.
pub open spec fn is_choice(
    choice: Option<ProfileIndex>,
    scores: Seq<u64>,
    current: ProfileIndex,
) -> bool {
    forall|w: int|
        #![trigger candidate(w)]
        is_best(scores, w) ==> choice == if scores[w] < SCORE_FLOOR || 10 * score_of(
            scores,
            current,
        ) >= 9 * scores[w] {
            None
        } else {
            Some(candidate(w))
        }
}

/// The profile to switch to, or `None` where there is no signal or the current
/// profile scores at least 90 % of the best.
pub fn detect_best_profile(scores: &[u64], current: ProfileIndex) -> (choice: Option<ProfileIndex>)
    requires
        scores@.len() == N_CANDIDATES,
    ensures
        is_choice(choice, scores@, current),
        exists|w: int| is_best(scores@, w),
        forall|c: int, w: int|
            #![trigger candidate(c), candidate(w)]
            0 <= c < 6 && current == candidate(c) && is_best(scores@, w) ==> choice == if scores@[w]
                >= 50 * SCORE_ONE && 10 * scores@[c] < 9 * scores@[w] {
                Some(candidate(w))
            } else {
                None
            },
{
    let list = candidates();
    let mut best: usize = 0;
    let mut i: usize = 1;
    while i < N_CANDIDATES
        invariant
            1 <= i <= N_CANDIDATES,
            scores@.len() == N_CANDIDATES,
            best < i,
            forall|j: int| 0 <= j < i ==> scores@[j] <= scores@[best as int],
            forall|j: int| 0 <= j < best ==> scores@[j] < scores@[best as int],
        decreases N_CANDIDATES - i,
    {
        if scores[i] > scores[best] {
            best = i;
        }
        i = i + 1;
    }
    let mut current_score: u64 = 0;
    let mut k: usize = 0;
    let ghost target = score_of(scores@, current);
    while k < N_CANDIDATES
        invariant
            k <= N_CANDIDATES,
            scores@.len() == N_CANDIDATES,
            list@ == Seq::new(N_CANDIDATES as nat, |i: int| candidate(i)),
            target == score_of(scores@, current),
            current_score == if exists|j: int| 0 <= j < k && #[trigger] candidate(j) == current {
                target
            } else {
                0u64
            },
        decreases N_CANDIDATES - k,
    {
        let c = list[k];
        assert(c == candidate(k as int));
        if c == current {
            current_score = scores[k];
        }
        k = k + 1;
    }
    proof {
        assert(is_best(scores@, best as int));
        assert forall|w: int| is_best(scores@, w) implies w == best by {
            assert(scores@[w] <= scores@[best as int]);
            assert(scores@[best as int] <= scores@[w]);
        }
        if current_score != target {
            assert(candidate(0) != current && candidate(1) != current && candidate(2) != current
                && candidate(3) != current && candidate(4) != current && candidate(5) != current);
        }
    }
    let best_score: u64 = scores[best];
    if best_score < SCORE_FLOOR {
        return None;
    }
    if current_score as u128 * 10 >= best_score as u128 * 9 {
        return None;
    }
    Some(list[best])
}

/// There is never a switch to the current profile, and none while the current
/// profile is as good as any other.
pub proof fn law_no_switch_between_equals(
    choice: Option<ProfileIndex>,
    scores: Seq<u64>,
    current: ProfileIndex,
    w: int,
)
    requires
        scores.len() == N_CANDIDATES,
        is_choice(choice, scores, current),
        is_best(scores, w),
    ensures
        choice != Some(current),
        score_of(scores, current) == scores[w] ==> choice is None,
        choice matches Some(p) ==> !p.spec_is_experimental(),
{
    assert(candidate(w) == candidate(w));
    if candidate(w) == current {
        assert(score_of(scores, current) == scores[w]);
    }
}

/// The receiver follows the stronger profile and stays where it is good enough: whatever
/// the scores, from a best score of 50 on it switches exactly where the current profile
/// scores less than nine tenths of the best, and then to the first profile that scores
/// best. Below a best score of 50 there is no signal to follow.
pub proof fn law_switch_follows_the_scores(
    choice: Option<ProfileIndex>,
    scores: Seq<u64>,
    current: ProfileIndex,
    c: int,
    w: int,
)
    requires
        scores.len() == 6,
        is_choice(choice, scores, current),
        0 <= c < 6,
        0 <= w < 6,
        current == candidate(c),
        forall|j: int| 0 <= j < 6 ==> scores[j] <= scores[w],
        forall|j: int| 0 <= j < w ==> scores[j] < scores[w],
    ensures
        scores[w] >= 50 * 65536 && 10 * scores[c] < 9 * scores[w] ==> choice == Some(candidate(w)),
        10 * scores[c] >= 9 * scores[w] ==> choice is None,
        scores[w] < 50 * 65536 ==> choice is None,
{
    assert(is_best(scores, w));
    assert(candidate(w) == candidate(w));
}

/// From a profile that takes no part in detection, the receiver switches to the first
/// profile that scores best, wherever there is a signal.
pub proof fn law_other_profiles_give_way(
    choice: Option<ProfileIndex>,
    scores: Seq<u64>,
    current: ProfileIndex,
    w: int,
)
    requires
        scores.len() == 6,
        is_choice(choice, scores, current),
        forall|k: int| 0 <= k < 6 ==> current != #[trigger] candidate(k),
        0 <= w < 6,
        forall|j: int| 0 <= j < 6 ==> scores[j] <= scores[w],
        forall|j: int| 0 <= j < w ==> scores[j] < scores[w],
    ensures
        choice == if scores[w] >= 50 * 65536 {
            Some(candidate(w))
        } else {
            None
        },
{
    assert(is_best(scores, w));
    assert(current != candidate(0) && current != candidate(1) && current != candidate(2)
        && current != candidate(3) && current != candidate(4) && current != candidate(5));
    assert(candidate(w) == candidate(w));
}

/// Raising every score by the same factor changes no choice above the noise: only how the
/// scores compare counts.
pub proof fn law_scale_does_not_matter(
    a: Option<ProfileIndex>,
    b: Option<ProfileIndex>,
    scores: Seq<u64>,
    louder: Seq<u64>,
    current: ProfileIndex,
    factor: int,
    w: int,
)
    requires
        scores.len() == 6,
        louder.len() == 6,
        factor >= 1,
        forall|j: int| 0 <= j < 6 ==> #[trigger] louder[j] == factor * scores[j],
        is_choice(a, scores, current),
        is_choice(b, louder, current),
        is_best(scores, w),
        scores[w] >= 50 * 65536,
    ensures
        a == b,
{
    assert(candidate(w) == candidate(w));
    assert(is_best(louder, w)) by {
        assert forall|j: int| 0 <= j < 6 implies louder[j] <= louder[w] by {
            assert(factor * scores[j] <= factor * scores[w]) by (nonlinear_arith)
                requires
                    scores[j] <= scores[w],
                    factor >= 1,
            ;
        }
        assert forall|j: int| 0 <= j < w implies louder[j] < louder[w] by {
            assert(factor * scores[j] < factor * scores[w]) by (nonlinear_arith)
                requires
                    scores[j] < scores[w],
                    factor >= 1,
            ;
        }
    }
    let (s, t) = (score_of(scores, current) as int, scores[w] as int);
    assert(score_of(louder, current) == factor * s) by {
        assert(factor * 0 == 0);
    }
    assert(louder[w] >= scores[w]) by (nonlinear_arith)
        requires
            louder[w] == factor * scores[w],
            factor >= 1,
            scores[w] >= 0,
    ;
    assert(10 * (factor * s) >= 9 * (factor * t) <==> 10 * s >= 9 * t) by (nonlinear_arith)
        requires
            factor >= 1,
    ;
}

} // verus!
