//! Sizes that the equalizer goes by, and the samples that it looks at.

use vstd::prelude::*;

use crate::types::N_PREAMBLE;

verus! {

/// Taps of the equalizer for `sps` samples per symbol sent every `pitch` samples:
/// eight symbols and one where symbols do not overlap, four and one where they do.
pub open spec fn taps_for(sps: int, pitch: int) -> int {
    if 100 * pitch >= 99 * sps {
        8 * sps + 1
    } else {
        4 * sps + 1
    }
}

/// Taps of the equalizer; always an odd number.
pub fn equalizer_len(sps: usize, pitch: usize) -> (n: usize)
    requires
        8 * sps + 1 <= usize::MAX,
    ensures
        n == taps_for(sps as int, pitch as int),
        n % 2 == 1,
{
    if 100 * pitch as u128 >= 99 * sps as u128 {
        8 * sps + 1
    } else {
        4 * sps + 1
    }
}

/// Symbols that can be equalized in `len` samples from `start` on, one every `pitch`
/// samples, with `half` taps on each side.
pub open spec fn symbols_in(len: int, start: int, half: int, pitch: int) -> int {
    if len > start + half {
        (len - start - half) / pitch + 1
    } else {
        0
    }
}

/// Symbols that can be equalized.
pub fn symbols_available(len: usize, start: usize, half: usize, pitch: usize) -> (n: usize)
    requires
        pitch >= 1,
        len < usize::MAX,
    ensures
        n == symbols_in(len as int, start as int, half as int, pitch as int),
{
    if len > start && len - start > half {
        let rest: usize = len - start - half;
        assert(rest / pitch <= rest) by (nonlinear_arith)
            requires
                pitch >= 1,
                rest >= 0,
        ;
        rest / pitch + 1
    } else {
        0
    }
}

/// Where the symbols of the preamble stand.
pub fn training_positions(start: usize, pitch: usize) -> (places: Vec<usize>)
    requires
        start + N_PREAMBLE * pitch <= usize::MAX,
    ensures
        places@ == Seq::new(N_PREAMBLE as nat, |k: int| (start + k * pitch) as usize),
{
    let mut places: Vec<usize> = Vec::new();
    let mut k: usize = 0;
    while k < N_PREAMBLE
        invariant
            k <= N_PREAMBLE,
            start + N_PREAMBLE * pitch <= usize::MAX,
            places@.len() == k,
            forall|j: int| 0 <= j < k ==> #[trigger] places@[j] == start + j * pitch,
        decreases N_PREAMBLE - k,
    {
        assert(0 <= k * pitch <= 256 * pitch) by (nonlinear_arith)
            requires
                0 <= k <= 256,
                pitch >= 0,
        ;
        places.push(start + k * pitch);
        k = k + 1;
    }
    assert(places@ =~= Seq::new(N_PREAMBLE as nat, |k: int| (start + k * pitch) as usize));
    places
}

/// `n_ff` taps centred at `center` lie within `len` samples.
pub open spec fn taps_fit(center: int, n_ff: int, len: int) -> bool {
    n_ff / 2 <= center && center + n_ff / 2 + 1 <= len
}

/// The first of the samples under the taps, where all the taps lie within the samples.
pub open spec fn first_sample(center: int, n_ff: int, len: int) -> Option<usize> {
    if taps_fit(center, n_ff, len) {
        Some((center - n_ff / 2) as usize)
    } else {
        None
    }
}

/// The first of the samples under `n_ff` taps centred at `center`.
pub fn window_start(center: usize, n_ff: usize, len: usize) -> (start: Option<usize>)
    ensures
        start == first_sample(center as int, n_ff as int, len as int),
        start matches Some(lo) ==> lo + n_ff <= len,
{
    let half: usize = n_ff / 2;
    if center < half || len <= half || center >= len - half {
        None
    } else {
        Some(center - half)
    }
}

/// The samples under the taps for each of `n` symbols, `pitch` samples apart.
pub fn symbol_windows(
    first_center: usize,
    pitch: usize,
    n: usize,
    n_ff: usize,
    len: usize,
) -> (starts: Vec<Option<usize>>)
    requires
        first_center + n * pitch <= usize::MAX,
    ensures
        starts@ == Seq::new(
            n as nat,
            |k: int| first_sample(first_center + k * pitch, n_ff as int, len as int),
        ),
{
    let mut starts: Vec<Option<usize>> = Vec::new();
    let mut k: usize = 0;
    while k < n
        invariant
            k <= n,
            first_center + n * pitch <= usize::MAX,
            starts@.len() == k,
            forall|j: int|
                0 <= j < k ==> #[trigger] starts@[j] == first_sample(
                    first_center + j * pitch,
                    n_ff as int,
                    len as int,
                ),
        decreases n - k,
    {
        assert(0 <= k * pitch <= n * pitch) by (nonlinear_arith)
            requires
                0 <= k <= n,
                pitch >= 0,
        ;
        starts.push(window_start(first_center + k * pitch, n_ff, len));
        k = k + 1;
    }
    assert(starts@ =~= Seq::new(
        n as nat,
        |k: int| first_sample(first_center + k * pitch, n_ff as int, len as int),
    ));
    starts
}

/// The training symbols from number `k` on that the taps are fitted to, each with the
/// first sample under the taps. One too near to the start is passed over; the first one
/// too near to the end ends the training.
pub open spec fn training_used(places: Seq<usize>, n_ff: int, len: int, k: int) -> Seq<
    (usize, usize),
>
    decreases places.len() - k,
{
    if k >= places.len() {
        seq![]
    } else if places[k] < n_ff / 2 {
        training_used(places, n_ff, len, k + 1)
    } else if taps_fit(places[k] as int, n_ff, len) {
        seq![(k as usize, (places[k] - n_ff / 2) as usize)] + training_used(
            places,
            n_ff,
            len,
            k + 1,
        )
    } else {
        seq![]
    }
}

/// The training symbols in use lie within the samples.
pub proof fn lemma_training_used(places: Seq<usize>, n_ff: int, len: int, k: int)
    requires
        0 <= k <= places.len() <= usize::MAX,
        n_ff >= 0,
    ensures
        training_used(places, n_ff, len, k).len() <= places.len() - k,
        forall|u: int|
            0 <= u < training_used(places, n_ff, len, k).len() ==> {
                let (at, lo) = #[trigger] training_used(places, n_ff, len, k)[u];
                at < places.len() && lo + n_ff <= len
            },
    decreases places.len() - k,
{
    if k < places.len() {
        lemma_training_used(places, n_ff, len, k + 1);
    }
}

/// The training symbols that the taps are fitted to, each with the first sample under
/// the taps.
pub fn training_windows(places: &[usize], n_ff: usize, len: usize) -> (used: Vec<(usize, usize)>)
    ensures
        used@ == training_used(places@, n_ff as int, len as int, 0),
{
    let half: usize = n_ff / 2;
    let mut used: Vec<(usize, usize)> = Vec::new();
    let mut k: usize = 0;
    while k < places.len()
        invariant
            k <= places@.len(),
            half == n_ff / 2,
            training_used(places@, n_ff as int, len as int, 0) == used@ + training_used(
                places@,
                n_ff as int,
                len as int,
                k as int,
            ),
        decreases places@.len() - k,
    {
        let ghost before = used@;
        let ghost rest = training_used(places@, n_ff as int, len as int, k + 1);
        if places[k] >= half {
            match window_start(places[k], n_ff, len) {
                Some(lo) => {
                    used.push((k, lo));
                    assert(used@ + rest =~= before + (seq![(k, lo)] + rest));
                },
                None => {
                    assert(before + Seq::<(usize, usize)>::empty() =~= before);
                    return used;
                },
            }
        }
        k = k + 1;
    }
    assert(used@ + Seq::<(usize, usize)>::empty() =~= used@);
    used
}

/// The reference for symbol `k`: that of the first entry from number `j` on that is not
/// for an earlier symbol, where it is for symbol `k`.
pub open spec fn reference_from<T>(training: Seq<(usize, T)>, k: int, j: int) -> Option<T>
    decreases training.len() - j,
{
    if j >= training.len() {
        None
    } else if training[j].0 < k {
        reference_from(training, k, j + 1)
    } else if training[j].0 == k {
        Some(training[j].1)
    } else {
        None
    }
}

/// Entries for earlier symbols do not matter.
proof fn lemma_skip_earlier<T>(training: Seq<(usize, T)>, k: int, j: int, c: int)
    requires
        0 <= j <= c <= training.len(),
        forall|i: int| 0 <= i < c ==> (#[trigger] training[i]).0 < k,
    ensures
        reference_from(training, k, j) == reference_from(training, k, c),
    decreases c - j,
{
    if j < c {
        assert(training[j].0 < k);
        lemma_skip_earlier(training, k, j + 1, c);
    }
}

/// The known reference for each of `n` symbols, where there is one.
pub fn references<T: Copy>(training: &[(usize, T)], n: usize) -> (out: Vec<Option<T>>)
    ensures
        out@ == Seq::new(n as nat, |k: int| reference_from(training@, k, 0)),
{
    let mut out: Vec<Option<T>> = Vec::new();
    let mut cursor: usize = 0;
    let mut k: usize = 0;
    while k < n
        invariant
            k <= n,
            cursor <= training@.len(),
            forall|i: int| 0 <= i < cursor ==> (#[trigger] training@[i]).0 < k,
            out@.len() == k,
            forall|j: int| 0 <= j < k ==> #[trigger] out@[j] == reference_from(training@, j, 0),
        decreases n - k,
    {
        while cursor < training.len() && training[cursor].0 < k
            invariant
                cursor <= training@.len(),
                forall|i: int| 0 <= i < cursor ==> (#[trigger] training@[i]).0 < k,
            decreases training@.len() - cursor,
        {
            cursor = cursor + 1;
        }
        proof {
            lemma_skip_earlier(training@, k as int, 0, cursor as int);
        }
        if cursor < training.len() && training[cursor].0 == k {
            out.push(Some(training[cursor].1));
        } else {
            out.push(None);
        }
        k = k + 1;
    }
    assert(out@ =~= Seq::new(n as nat, |k: int| reference_from(training@, k, 0)));
    out
}

/// Where the entries stand in the order of their symbols, every entry is the reference
/// for its symbol, and no other symbol has one.
pub proof fn law_entries_in_order_are_found<T>(training: Seq<(usize, T)>, k: int)
    requires
        forall|i: int, j: int|
            0 <= i < j < training.len() ==> (#[trigger] training[i]).0 < (#[trigger] training[j]).0,
    ensures
        forall|j: int|
            0 <= j < training.len() && (#[trigger] training[j]).0 == k ==> reference_from(
                training,
                k,
                0,
            ) == Some(training[j].1),
        (forall|j: int| 0 <= j < training.len() ==> (#[trigger] training[j]).0 != k)
            ==> reference_from(training, k, 0) is None,
{
    assert forall|j: int| 0 <= j < training.len() && (#[trigger] training[j]).0 == k implies
        reference_from(training, k, 0) == Some(training[j].1) by {
        lemma_skip_earlier(training, k, 0, j);
    }
    lemma_found_only(training, k, 0);
}

/// A reference is that of an entry for the symbol.
proof fn lemma_found_only<T>(training: Seq<(usize, T)>, k: int, j: int)
    requires
        0 <= j <= training.len(),
    ensures
        reference_from(training, k, j) is Some ==> exists|i: int|
            0 <= i < training.len() && (#[trigger] training[i]).0 == k,
    decreases training.len() - j,
{
    if j < training.len() {
        if training[j].0 < k {
            lemma_found_only(training, k, j + 1);
        } else {
            assert(training[j].0 == training[j].0);
        }
    }
}

/// The equalizer spans eight symbols, four on each side of the middle one, and half of that
/// where symbols stand closer than 99 % of their length.
pub proof fn law_equalizer_spans_eight_symbols_or_four(sps: int, pitch: int)
    requires
        sps >= 1,
        0 <= pitch <= sps,
    ensures
        ({
            let half = taps_for(sps, pitch) / 2;
            &&& taps_for(sps, pitch) == 2 * half + 1
            &&& 100 * (sps - pitch) <= sps ==> half == 4 * sps
            &&& 100 * (sps - pitch) > sps ==> half == 2 * sps
        }),
{
}

/// As many symbols are equalized as there is room for: the last one stands no further than
/// half the taps before the end, and one more would not.
pub proof fn law_last_symbol_has_room(len: int, start: int, half: int, pitch: int)
    requires
        pitch >= 1,
        start >= 0,
        half >= 0,
    ensures
        ({
            let n = symbols_in(len, start, half, pitch);
            &&& n == 0 <==> len <= start + half
            &&& n > 0 ==> start + (n - 1) * pitch + half <= len < start + n * pitch + half
        }),
{
    let rest = len - start - half;
    let q = rest / pitch;
    vstd::arithmetic::div_mod::lemma_fundamental_div_mod(rest, pitch);
    assert(q * pitch == pitch * q && (q + 1) * pitch == pitch * q + pitch) by (nonlinear_arith);
    if rest > 0 {
        assert(q >= 0) by (nonlinear_arith)
            requires
                q == rest / pitch,
                rest > 0,
                pitch >= 1,
        ;
    }
}

/// Taps are laid on the samples with the middle one on the symbol, and only where every tap
/// finds a sample.
pub proof fn law_middle_tap_lies_on_the_symbol(center: int, n_ff: int, len: int)
    requires
        n_ff >= 1,
        n_ff % 2 == 1,
        0 <= center <= usize::MAX,
    ensures
        first_sample(center, n_ff, len) is Some <==> center - n_ff / 2 >= 0 && center - n_ff / 2
            + n_ff <= len,
        first_sample(center, n_ff, len) matches Some(lo) ==> lo + n_ff / 2 == center,
{
}

/// Of training places in rising order, exactly those are used under which all taps find a
/// sample, each with the middle tap on its place.
pub proof fn law_training_uses_every_place_with_room(
    places: Seq<usize>,
    n_ff: int,
    len: int,
    k: int,
    at: usize,
    lo: usize,
)
    requires
        n_ff >= 1,
        0 <= k <= places.len() <= usize::MAX,
        forall|i: int, j: int| 0 <= i < j < places.len() ==> places[i] < places[j],
    ensures
        training_used(places, n_ff, len, k).contains((at, lo)) <==> {
            &&& k <= at < places.len()
            &&& lo + n_ff / 2 == places[at as int]
            &&& places[at as int] + n_ff / 2 < len
        },
    decreases places.len() - k,
{
    let used = training_used(places, n_ff, len, k);
    if k < places.len() {
        law_training_uses_every_place_with_room(places, n_ff, len, k + 1, at, lo);
        let rest = training_used(places, n_ff, len, k + 1);
        if places[k] >= n_ff / 2 {
            if taps_fit(places[k] as int, n_ff, len) {
                let first = (k as usize, (places[k] - n_ff / 2) as usize);
                assert(used == seq![first] + rest);
                assert(used[0] == first);
                if rest.contains((at, lo)) {
                    let i = choose|i: int| 0 <= i < rest.len() && rest[i] == (at, lo);
                    assert(used[i + 1] == (at, lo));
                }
                if used.contains((at, lo)) {
                    let i = choose|i: int| 0 <= i < used.len() && used[i] == (at, lo);
                    if i > 0 {
                        assert(rest[i - 1] == (at, lo));
                    }
                }
                if at == k {
                    assert(used.contains(first));
                }
            } else {
                assert(!used.contains((at, lo)));
                if k < at < places.len() {
                    assert(places[k] < places[at as int]);
                }
            }
        }
    }
}

} // verus!
