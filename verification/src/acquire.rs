//! Where to look for a preamble, and which samples a spectrum estimate takes.

use vstd::prelude::*;

verus! {

/// What the last place of a template is.
pub open spec fn is_last_lag(
    lag: Option<usize>,
    window_len: int,
    n_template: int,
    fft_size: int,
) -> bool {
    &&& lag is None <==> window_len < n_template
    &&& lag matches Some(l) ==> l == (if window_len <= fft_size {
        window_len
    } else {
        fft_size
    }) - n_template
}

/// Last place at which a template of `n_template` samples fits into a window, of which
/// only `fft_size` samples are used. `None` where the window is shorter than the
/// template.
pub fn last_lag(window_len: usize, n_template: usize, fft_size: usize) -> (lag: Option<usize>)
    requires
        n_template <= fft_size,
    ensures
        is_last_lag(lag, window_len as int, n_template as int, fft_size as int),
{
    if window_len < n_template {
        return None;
    }
    let usable: usize = if window_len <= fft_size {
        window_len
    } else {
        fft_size
    };
    Some(usable - n_template)
}

/// What the places around a coarse one are.
pub open spec fn is_refine_span(
    span: Option<(usize, usize)>,
    window_len: int,
    n_template: int,
    coarse: int,
    radius: int,
) -> bool {
    &&& span is None <==> coarse + n_template > window_len
    &&& span matches Some((lo, hi)) ==> {
        &&& lo == if coarse >= radius {
            coarse - radius
        } else {
            0
        }
        &&& hi == if coarse + radius <= window_len - n_template {
            coarse + radius
        } else {
            window_len - n_template
        }
    }
}

/// First and last place to search around a coarse one. `None` where the template does
/// not fit at the coarse place.
pub fn refine_span(window_len: usize, n_template: usize, coarse: usize, radius: usize) -> (span:
    Option<(usize, usize)>)
    ensures
        is_refine_span(
            span,
            window_len as int,
            n_template as int,
            coarse as int,
            radius as int,
        ),
        span matches Some((lo, hi)) ==> lo <= coarse <= hi,
{
    if n_template > window_len || coarse > window_len - n_template {
        return None;
    }
    let last: usize = window_len - n_template;
    let lo: usize = if coarse >= radius {
        coarse - radius
    } else {
        0
    };
    let hi: usize = if radius <= last - coarse {
        coarse + radius
    } else {
        last
    };
    Some((lo, hi))
}

/// Most segments of a spectrum estimate.
pub const MAX_SEGMENTS: usize = 4;

/// Segments of `nfft` samples, each half of one further from the end, that fit into
/// `available` samples.
pub open spec fn segment_count(available: int, nfft: int, s: int) -> int
    decreases MAX_SEGMENTS - s,
{
    if s >= MAX_SEGMENTS || available - s * (nfft / 2) < nfft {
        s
    } else {
        segment_count(available, nfft, s + 1)
    }
}

/// Where the segments of a spectrum estimate start, the last one first.
pub fn segment_starts(available: usize, nfft: usize) -> (starts: Vec<usize>)
    requires
        nfft >= 2,
        4 * nfft <= usize::MAX,
    ensures
        starts@ == Seq::new(
            segment_count(available as int, nfft as int, 0) as nat,
            |s: int| (available - s * (nfft as int / 2) - nfft) as usize,
        ),
{
    let hop: usize = nfft / 2;
    let mut starts: Vec<usize> = Vec::new();
    let mut s: usize = 0;
    let mut back: usize = 0;
    while s < MAX_SEGMENTS && available >= back && available - back >= nfft
        invariant
            s <= MAX_SEGMENTS,
            back == s * (nfft as int / 2),
            hop == nfft / 2,
            4 * nfft <= usize::MAX,
            starts@.len() == s,
            segment_count(available as int, nfft as int, 0) == segment_count(
                available as int,
                nfft as int,
                s as int,
            ),
            forall|t: int|
                0 <= t < s ==> #[trigger] starts@[t] == available - t * (nfft as int / 2) - nfft,
        decreases MAX_SEGMENTS - s,
    {
        starts.push(available - back - nfft);
        assert((s + 1) * (nfft as int / 2) == s * (nfft as int / 2) + nfft as int / 2)
            by (nonlinear_arith);
        back = back + hop;
        s = s + 1;
    }
    assert(segment_count(available as int, nfft as int, s as int) == s);
    assert(starts@ =~= Seq::new(
        segment_count(available as int, nfft as int, 0) as nat,
        |s: int| (available - s * (nfft as int / 2) - nfft) as usize,
    ));
    starts
}

/// A template fits into the samples in use at every place up to the last, and at none
/// behind it.
pub proof fn law_template_fits_up_to_the_last_place(
    lag: Option<usize>,
    window_len: int,
    n_template: int,
    fft_size: int,
    at: int,
)
    requires
        0 <= n_template <= fft_size,
        0 <= window_len,
        0 <= at,
        is_last_lag(lag, window_len, n_template, fft_size),
    ensures
        at + n_template <= window_len && at + n_template <= fft_size <==> (lag matches Some(l)
            && at <= l),
{
}

/// The places around a coarse one are those no further away than the radius at which the
/// template fits.
pub proof fn law_span_holds_the_places_nearby(
    span: Option<(usize, usize)>,
    window_len: int,
    n_template: int,
    coarse: int,
    radius: int,
    at: int,
)
    requires
        0 <= n_template,
        0 <= coarse,
        0 <= radius,
        0 <= at,
        coarse + n_template <= window_len,
        is_refine_span(span, window_len, n_template, coarse, radius),
    ensures
        span matches Some((lo, hi)) && (lo <= at <= hi <==> coarse - radius <= at <= coarse
            + radius && at + n_template <= window_len),
{
}

/// Segments reach back from the end, each half of one further, and there are as many as
/// fit, up to four.
pub proof fn law_segments_reach_back_from_the_end(available: int, nfft: int, s: int)
    requires
        available >= 0,
        nfft >= 2,
        0 <= s,
    ensures
        s < segment_count(available, nfft, 0) <==> s < 4 && s * (nfft / 2) + nfft <= available,
{
    reveal_with_fuel(segment_count, 6);
    let h = nfft / 2;
    assert(0 * h == 0 && 1 * h == h && 2 * h == h + h && 3 * h == h + h + h);
}

} // verus!
