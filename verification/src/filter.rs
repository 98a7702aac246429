//! Samples that filters and the modulator look at.

use vstd::prelude::*;

verus! {

/// Samples of a signal of `n` symbols, `pitch` samples apart, under a pulse of `m` taps.
pub open spec fn signal_len(n: int, pitch: int, m: int) -> int {
    if n == 0 {
        0
    } else {
        (n - 1) * pitch + m
    }
}

/// Samples of a signal, where they can be counted.
pub fn signal_len_of(n: usize, pitch: usize, m: usize) -> (len: Option<usize>)
    ensures
        match len {
            Some(l) => l == signal_len(n as int, pitch as int, m as int),
            None => signal_len(n as int, pitch as int, m as int) > usize::MAX,
        },
{
    if n == 0 {
        return Some(0);
    }
    assert(0 <= (n - 1) * pitch <= 0xFFFF_FFFF_FFFF_FFFF * 0xFFFF_FFFF_FFFF_FFFF)
        by (nonlinear_arith)
        requires
            1 <= n <= 0xFFFF_FFFF_FFFF_FFFF,
            0 <= pitch <= 0xFFFF_FFFF_FFFF_FFFF,
    ;
    let len: u128 = (n as u128 - 1) * pitch as u128 + m as u128;
    if len <= usize::MAX as u128 {
        Some(len as usize)
    } else {
        None
    }
}

/// The symbols, `pitch` samples apart, with `zero` between and behind them.
pub open spec fn spread<T>(symbols: Seq<T>, pitch: int, m: int, zero: T) -> Seq<T> {
    Seq::new(
        signal_len(symbols.len() as int, pitch, m) as nat,
        |i: int|
            if i % pitch == 0 && i / pitch < symbols.len() {
                symbols[i / pitch]
            } else {
                zero
            },
    )
}

/// Place symbols `pitch` samples apart, with room for a pulse of `m` taps.
pub fn upsample<T: Copy>(symbols: &[T], pitch: usize, m: usize, zero: T) -> (out: Vec<T>)
    requires
        pitch >= 1,
        m >= 1,
        signal_len(symbols@.len() as int, pitch as int, m as int) <= usize::MAX,
    ensures
        out@ == spread(symbols@, pitch as int, m as int, zero),
{
    let mut out: Vec<T> = Vec::new();
    let n: usize = symbols.len();
    if n > 0 {
        assert((n - 1) * pitch >= 0) by (nonlinear_arith)
            requires
                n >= 1,
                pitch >= 0,
        ;
        let len: usize = (n - 1) * pitch + m;
        let mut i: usize = 0;
        while i < len
            invariant
                i <= len,
                pitch >= 1,
                len == signal_len(symbols@.len() as int, pitch as int, m as int),
                out@.len() == i,
                forall|j: int|
                    0 <= j < i ==> #[trigger] out@[j] == spread(
                        symbols@,
                        pitch as int,
                        m as int,
                        zero,
                    )[j],
            decreases len - i,
        {
            if i % pitch == 0 && i / pitch < symbols.len() {
                out.push(symbols[i / pitch]);
            } else {
                out.push(zero);
            }
            i = i + 1;
        }
    }
    assert(out@ =~= spread(symbols@, pitch as int, m as int, zero));
    out
}

/// Every symbol stands at its place.
pub proof fn law_symbols_stand_at_their_places<T>(
    symbols: Seq<T>,
    pitch: int,
    m: int,
    zero: T,
    k: int,
)
    requires
        pitch >= 1,
        m >= 1,
        0 <= k < symbols.len(),
    ensures
        0 <= k * pitch < spread(symbols, pitch, m, zero).len(),
        spread(symbols, pitch, m, zero)[k * pitch] == symbols[k],
{
    let n = symbols.len();
    assert(0 <= k * pitch <= (n - 1) * pitch) by (nonlinear_arith)
        requires
            0 <= k <= n - 1,
            pitch >= 1,
    ;
    vstd::arithmetic::div_mod::lemma_fundamental_div_mod_converse(k * pitch, pitch, k, 0);
}

/// The samples, from the first up to the second bound, that reach sample `i` of the
/// convolution of `n` samples with `m` taps: sample `j` does so by tap `i - j`.
pub fn convolution_span(i: usize, n: usize, m: usize) -> (span: (usize, usize))
    requires
        m >= 1,
    ensures
        forall|j: int|
            0 <= j && #[trigger] reaches(i as int, j, n as int, m as int) <==> span.0 <= j < span.1,
{
    let start: usize = if i >= m {
        i - m + 1
    } else {
        0
    };
    let end: usize = if i < n {
        i + 1
    } else {
        n
    };
    assert forall|j: int|
        0 <= j && #[trigger] reaches(i as int, j, n as int, m as int) <==> start <= j < end by {}
    (start, end)
}

/// Sample `j` of `n` reaches sample `i` of the convolution by one of the `m` taps.
pub open spec fn reaches(i: int, j: int, n: int, m: int) -> bool {
    0 <= j < n && 0 <= i - j < m
}

/// The taps, from the first up to the second bound, of `m` taps centred at sample `i`
/// that lie on one of the `n` samples: tap `k` lies on sample `i + k - m / 2`.
pub fn centred_span(i: usize, n: usize, m: usize) -> (span: (usize, usize))
    requires
        i < n,
        n + m <= usize::MAX,
    ensures
        forall|k: int|
            #[trigger] lies_on(i as int, k, n as int, m as int) <==> span.0 <= k < span.1,
{
    let half: usize = m / 2;
    let start: usize = if i >= half {
        0
    } else {
        half - i
    };
    let room: usize = n - i + half;
    let end: usize = if room < m {
        room
    } else {
        m
    };
    assert forall|k: int|
        #[trigger] lies_on(i as int, k, n as int, m as int) <==> start <= k < end by {}
    (start, end)
}

/// Tap `k` of `m` centred at sample `i` lies on one of the `n` samples.
pub open spec fn lies_on(i: int, k: int, n: int, m: int) -> bool {
    0 <= k < m && 0 <= i + k - m / 2 < n
}

/// Level of sample `i` of `n`, in units of `1 / fade`, where the first and the last
/// `fade` samples fade in and out.
pub open spec fn faded(i: int, n: int, fade: int) -> int {
    if i < fade {
        i
    } else if i >= n - fade {
        n - 1 - i
    } else {
        fade
    }
}

/// Level of sample `i` of a tone of `n` samples, in units of `1 / fade`.
pub fn fade_level(i: usize, n: usize, fade: usize) -> (level: usize)
    requires
        i < n,
        fade <= n,
    ensures
        level == faded(i as int, n as int, fade as int),
        level <= fade,
{
    if i < fade {
        i
    } else if i >= n - fade {
        n - 1 - i
    } else {
        fade
    }
}

/// A signal is as long as its last symbol with the pulse behind it, and between the symbols
/// there is nothing.
pub proof fn law_nothing_stands_between_the_symbols<T>(
    symbols: Seq<T>,
    pitch: int,
    m: int,
    zero: T,
    k: int,
    o: int,
)
    requires
        pitch >= 1,
        m >= 1,
        0 <= k,
        0 < o < pitch,
        symbols.len() >= 1,
        k * pitch + o < spread(symbols, pitch, m, zero).len(),
    ensures
        spread(symbols, pitch, m, zero).len() - m == (symbols.len() - 1) * pitch,
        spread(symbols, pitch, m, zero)[k * pitch + o] == zero,
{
    let n = symbols.len() as int;
    assert((n - 1) * pitch >= 0 && k * pitch >= 0) by (nonlinear_arith)
        requires
            n >= 1,
            k >= 0,
            pitch >= 1,
    ;
    vstd::arithmetic::div_mod::lemma_fundamental_div_mod_converse(k * pitch + o, pitch, k, o);
}

/// A tone rises from silence by one step a sample, stays, and falls the same way back to
/// silence.
pub proof fn law_tone_rises_and_falls_alike(i: int, n: int, fade: int)
    requires
        0 <= i < n,
        0 <= fade,
        2 * fade <= n,
    ensures
        faded(i, n, fade) == faded(n - 1 - i, n, fade),
        i + 1 <= fade ==> faded(i + 1, n, fade) == faded(i, n, fade) + 1 || 2 * fade == n,
        fade > 0 ==> faded(0, n, fade) == 0,
        fade <= i < n - fade ==> faded(i, n, fade) == fade,
        0 <= faded(i, n, fade) <= fade,
{
}

/// A sample reaches an output by the tap that lies as far into the taps as the output lies
/// behind the sample.
pub proof fn law_samples_reach_by_their_distance(i: int, j: int, n: int, m: int, k: int)
    requires
        i == j + k,
    ensures
        reaches(i, j, n, m) <==> 0 <= j < n && 0 <= k < m,
{
}

/// Of taps laid around a sample the middle one lies on it, and the others on its neighbours
/// in order.
pub proof fn law_middle_tap_lies_on_the_sample(i: int, n: int, m: int, o: int)
    requires
        0 <= i < n,
        m >= 1,
    ensures
        lies_on(i, m / 2 + o, n, m) <==> 0 <= i + o < n && -(m / 2) <= o < m - m / 2,
{
}

} // verus!
