//! Decoding undoes encoding: what the decoder makes of LLRs whose signs spell
//! a codeword.

use vstd::prelude::*;

use crate::ldpc::code;
use crate::ldpc::decoder;
use crate::ldpc::decoder::{FailStop, LlrState};
use crate::ldpc::gf2;
use crate::ldpc::min_sum;
use crate::ldpc::min_sum::{LLR_CLIP, TOTAL_LIMIT};
use crate::profile::LdpcRate;

verus! {

/// Every position holds 0 or 1.
pub open spec fn is_binary(word: Seq<u8>) -> bool {
    forall|c: int| 0 <= c < word.len() ==> #[trigger] word[c] == 0 || word[c] == 1
}

/// The signs of the LLRs spell `word`: negative for a one.
pub open spec fn spells(llr: Seq<i32>, word: Seq<u8>) -> bool {
    &&& llr.len() == word.len()
    &&& forall|c: int| 0 <= c < llr.len() ==> (#[trigger] llr[c] < 0 <==> word[c] == 1)
}

/// Whether an odd number of the first `upto` values is negative.
spec fn negative_parity(q: Seq<i64>, upto: int) -> bool
    decreases upto,
{
    if upto <= 0 {
        false
    } else {
        negative_parity(q, upto - 1) != (q[upto - 1] < 0)
    }
}

proof fn lemma_other_negative(q: Seq<i64>, j: int, upto: int)
    requires
        0 <= j,
    ensures
        min_sum::other_negative(q, j, upto) == (negative_parity(q, upto) != (j < upto && q[j]
            < 0)),
    decreases upto,
{
    if upto > 0 {
        lemma_other_negative(q, j, upto - 1);
    }
}

proof fn lemma_other_min_nonnegative(q: Seq<i64>, j: int, upto: int)
    ensures
        0 <= min_sum::other_min(q, j, upto) <= min_sum::LLR_FAR,
    decreases upto,
{
    if upto > 0 {
        lemma_other_min_nonnegative(q, j, upto - 1);
    }
}

/// The sign parity of the incoming values is the parity of the bits they spell.
proof fn lemma_parity_of_bits(q: Seq<i64>, word: Seq<u8>, cols: Seq<usize>, upto: int)
    requires
        q.len() == cols.len(),
        0 <= upto <= cols.len(),
        is_binary(word),
        gf2::rising(cols, word.len()),
        forall|j: int| 0 <= j < q.len() ==> (#[trigger] q[j] < 0 <==> word[cols[j] as int] == 1),
    ensures
        gf2::xor_at(word, cols.take(upto)) == if negative_parity(q, upto) {
            1u8
        } else {
            0u8
        },
    decreases upto,
{
    gf2::lemma_xor(0, 1, 0);
    gf2::lemma_xor(1, 0, 0);
    gf2::lemma_xor(0, 0, 0);
    if upto > 0 {
        lemma_parity_of_bits(q, word, cols, upto - 1);
        assert(cols.take(upto).drop_last() =~= cols.take(upto - 1));
        assert(cols.take(upto).last() == cols[upto - 1]);
        let c = cols[upto - 1] as int;
        assert(cols[upto - 1] < word.len());
        assert(word[c] == 0 || word[c] == 1);
        assert(q[upto - 1] < 0 <==> word[c] == 1);
    }
}

/// A check that has sent no message yet keeps the signs of a codeword.
proof fn lemma_clean_step(rate: LdpcRate, word: Seq<u8>, st: LlrState, row: int)
    requires
        code::is_codeword(rate, word),
        is_binary(word),
        decoder::hard(st.totals) == word,
        min_sum::bounded(st.totals, TOTAL_LIMIT as int),
        0 <= row < code::n_checks(rate),
        st.messages[row] == Seq::new(decoder::list(rate, row).len(), |j: int| 0i64),
    ensures
        decoder::hard(decoder::step(rate, st, row).totals) == word,
{
    let cols = decoder::list(rate, row);
    let r = st.messages[row];
    let q = min_sum::incoming(st.totals, cols, r);
    let news = min_sum::row_messages(st.totals, cols, r);
    code::lemma_check_list_rising(rate, row, 2304);
    assert(st.totals.len() == 2304);
    assert forall|j: int| 0 <= j < q.len() implies #[trigger] q[j] == st.totals[cols[j] as int] by {
        assert(cols[j] < 2304);
        assert(r[j] == 0);
    }
    assert forall|j: int| 0 <= j < q.len() implies (#[trigger] q[j] < 0 <==> word[cols[j] as int]
        == 1) by {
        assert(cols[j] < 2304);
        assert(decoder::hard(st.totals)[cols[j] as int] == word[cols[j] as int]);
    }
    lemma_parity_of_bits(q, word, cols, cols.len() as int);
    assert(cols.take(cols.len() as int) =~= cols);
    code::lemma_syndrome_is_list_xor(rate, word, row);
    assert(code::syndrome_at(rate, word, row) == 0);
    assert(!negative_parity(q, q.len() as int));
    let next = decoder::step(rate, st, row);
    assert forall|c: int| 0 <= c < 2304 implies #[trigger] decoder::hard(next.totals)[c]
        == word[c] by {
        assert(decoder::hard(st.totals)[c] == word[c]);
        if cols.contains(c as usize) {
            let j = cols.index_of(c as usize);
            assert(cols[j] == c as usize);
            lemma_other_negative(q, j, q.len() as int);
            lemma_other_min_nonnegative(q, j, q.len() as int);
            assert(q[j] == st.totals[c]);
            assert(-TOTAL_LIMIT <= st.totals[c] <= TOTAL_LIMIT);
            assert(news[j] == min_sum::message(q, j));
            assert(-LLR_CLIP <= news[j] <= LLR_CLIP);
        }
    }
    assert(decoder::hard(next.totals) =~= word);
}

/// One pass over checks that have sent no message yet keeps the signs of a codeword.
proof fn lemma_clean_sweep(rate: LdpcRate, word: Seq<u8>, seed: Seq<i64>, upto: int)
    requires
        code::is_codeword(rate, word),
        is_binary(word),
        decoder::hard(seed) == word,
        min_sum::bounded(seed, LLR_CLIP as int),
        0 <= upto <= code::n_checks(rate),
    ensures
        decoder::hard(decoder::sweep(rate, decoder::start(rate, seed), upto).totals) == word,
        forall|r: int|
            upto <= r < code::n_checks(rate) ==> (#[trigger] decoder::sweep(
                rate,
                decoder::start(rate, seed),
                upto,
            ).messages[r]) == Seq::new(decoder::list(rate, r).len(), |j: int| 0i64),
    decreases upto,
{
    if upto > 0 {
        lemma_clean_sweep(rate, word, seed, upto - 1);
        let st = decoder::sweep(rate, decoder::start(rate, seed), upto - 1);
        assert(decoder::hard(seed).len() == 2304);
        decoder::lemma_sweep_is_bounded(rate, seed, upto - 1);
        lemma_clean_step(rate, word, st, upto - 1);
        decoder::lemma_sweep_shape(rate, seed, upto - 1);
    }
}

/// LLRs whose signs spell a codeword decode to that codeword, in one iteration.
pub proof fn law_clean_word_decodes(rate: LdpcRate, llr: Seq<i32>, word: Seq<u8>, max_iter: nat)
    requires
        code::is_codeword(rate, word),
        is_binary(word),
        spells(llr, word),
        max_iter >= 1,
    ensures
        ({
            let (st, converged) = decoder::iterate(
                rate,
                decoder::start(rate, decoder::seed_of(llr, None)),
                max_iter,
            );
            converged && decoder::hard(st.totals) == word
        }),
{
    let seed = decoder::seed_of(llr, None);
    assert(decoder::hard(seed) =~= word) by {
        assert forall|c: int| 0 <= c < 2304 implies #[trigger] decoder::hard(seed)[c] == word[c] by {
            assert(llr[c] < 0 <==> word[c] == 1);
            assert(word[c] == 0 || word[c] == 1);
        }
    }
    lemma_clean_sweep(rate, word, seed, code::n_checks(rate));
}

/// The same of soft decoding, whatever the rule for giving up.
pub proof fn law_clean_word_decodes_softly(
    rate: LdpcRate,
    stop: FailStop,
    llr: Seq<i32>,
    word: Seq<u8>,
    max_iter: nat,
)
    requires
        code::is_codeword(rate, word),
        is_binary(word),
        spells(llr, word),
        max_iter >= 1,
    ensures
        ({
            let (st, converged) = decoder::iterate_soft(
                rate,
                stop,
                decoder::start(rate, decoder::seed_of(llr, None)),
                0,
                max_iter,
                usize::MAX as int,
                0,
            );
            converged && decoder::hard(st.totals) == word
        }),
{
    let seed = decoder::seed_of(llr, None);
    assert(decoder::hard(seed) =~= word) by {
        assert forall|c: int| 0 <= c < 2304 implies #[trigger] decoder::hard(seed)[c] == word[c] by {
            assert(llr[c] < 0 <==> word[c] == 1);
            assert(word[c] == 0 || word[c] == 1);
        }
    }
    lemma_clean_sweep(rate, word, seed, code::n_checks(rate));
    let next = decoder::iteration(rate, decoder::start(rate, seed));
    decoder::lemma_weight_counts(rate, next.totals, code::n_checks(rate));
}

/// Whenever the decoder reports success, its hard decisions form a codeword.
pub proof fn law_success_means_codeword(rate: LdpcRate, st: LlrState, max_iter: nat)
    ensures
        decoder::iterate(rate, st, max_iter).1 ==> code::is_codeword(
            rate,
            decoder::hard(decoder::iterate(rate, st, max_iter).0.totals),
        ),
    decreases max_iter,
{
    if max_iter > 0 {
        let next = decoder::iteration(rate, st);
        if !code::is_codeword(rate, decoder::hard(next.totals)) {
            law_success_means_codeword(rate, next, (max_iter - 1) as nat);
        }
    }
}

/// All but the low bit of a byte.
spec fn high_bits(word: Seq<u8>) -> Seq<u8> {
    Seq::new(word.len(), |c: int| word[c] & 0xFE)
}

proof fn lemma_masked_sum(f: spec_fn(int) -> u8, g: spec_fn(int) -> u8, n: nat)
    requires
        forall|c: int| 0 <= c < n ==> #[trigger] g(c) == f(c) & 0xFE,
    ensures
        gf2::xor_sum(g, n) == gf2::xor_sum(f, n) & 0xFE,
    decreases n,
{
    assert(0u8 & 0xFE == 0) by (bit_vector);
    if n > 0 {
        lemma_masked_sum(f, g, (n - 1) as nat);
        let a = gf2::xor_sum(f, (n - 1) as nat);
        let b = f(n - 1);
        assert((a & 0xFE) ^ (b & 0xFE) == (a ^ b) & 0xFE) by (bit_vector);
    }
}

/// A codeword with binary information is binary.
pub proof fn law_binary_info_gives_binary_codeword(rate: LdpcRate, word: Seq<u8>)
    requires
        code::is_codeword(rate, word),
        is_binary(word.take(rate.spec_k() as int)),
    ensures
        is_binary(word),
{
    let w = high_bits(word);
    assert forall|row: int| 0 <= row < code::n_checks(rate) implies #[trigger] code::syndrome_at(
        rate,
        w,
        row,
    ) == 0 by {
        let f = |c: int| code::check_term(rate, word, row, c);
        let g = |c: int| code::check_term(rate, w, row, c);
        assert(0u8 & 0xFE == 0) by (bit_vector);
        lemma_masked_sum(f, g, 2304);
        assert(code::syndrome_at(rate, word, row) == 0);
    }
    assert forall|c: int| 0 <= c < rate.spec_k() implies #[trigger] w[c] == 0 by {
        let x = word.take(rate.spec_k() as int)[c];
        assert(x == 0 || x == 1);
        assert(x & 0xFE == 0) by (bit_vector)
            requires
                x == 0 || x == 1,
        ;
    }
    code::lemma_trivial_kernel(rate, w);
    assert forall|c: int| 0 <= c < word.len() implies #[trigger] word[c] == 0 || word[c] == 1 by {
        let x = word[c];
        assert(w[c] == 0);
        assert(x == 0 || x == 1) by (bit_vector)
            requires
                x & 0xFE == 0,
        ;
    }
}

/// Encoding binary information and decoding LLRs that spell the codeword gives
/// the information back.
pub proof fn law_decode_undoes_encode(
    rate: LdpcRate,
    info: Seq<u8>,
    codeword: Seq<u8>,
    llr: Seq<i32>,
    max_iter: nat,
)
    requires
        is_binary(info),
        code::is_codeword(rate, codeword),
        info.len() == rate.spec_k(),
        codeword.take(info.len() as int) == info,
        spells(llr, codeword),
        max_iter >= 1,
    ensures
        ({
            let (st, converged) = decoder::iterate(
                rate,
                decoder::start(rate, decoder::seed_of(llr, None)),
                max_iter,
            );
            converged && decoder::hard(st.totals).take(rate.spec_k() as int) == info
        }),
{
    law_binary_info_gives_binary_codeword(rate, codeword);
    law_clean_word_decodes(rate, llr, codeword, max_iter);
}

// ---------------------------------------------------------------------------
// Laws on decoding with a prior
// ---------------------------------------------------------------------------

/// A prior adds to the channel: soft decoding with a prior gives the bits, the extrinsic
/// values and the verdict of soft decoding of the sum of the two without one.
pub proof fn law_prior_adds_to_the_channel(
    rate: LdpcRate,
    stop: FailStop,
    max_iter: nat,
    channel: Seq<i32>,
    prior: Seq<i32>,
    sum: Seq<i32>,
    num: int,
    den: int,
    with_prior: (Seq<u8>, Seq<i64>, bool),
    with_sum: (Seq<u8>, Seq<i64>, bool),
)
    requires
        channel.len() == 2304,
        prior.len() == 2304,
        sum.len() == 2304,
        forall|i: int| 0 <= i < 2304 ==> #[trigger] sum[i] == channel[i] + prior[i],
        decoder::is_soft_decoding(
            rate,
            stop,
            max_iter,
            channel,
            Some(prior),
            num,
            den,
            with_prior,
        ),
        decoder::is_soft_decoding(rate, stop, max_iter, sum, None, num, den, with_sum),
    ensures
        with_prior == with_sum,
{
    assert(decoder::seed_of(channel, Some(prior)) =~= decoder::seed_of(sum, None));
}

/// The same of soft decoding on layers.
pub proof fn law_prior_adds_to_the_channel_on_layers(
    rate: LdpcRate,
    max_iter: nat,
    channel: Seq<i32>,
    prior: Seq<i32>,
    sum: Seq<i32>,
    num: int,
    den: int,
    with_prior: (Seq<u8>, Seq<i64>, bool),
    with_sum: (Seq<u8>, Seq<i64>, bool),
)
    requires
        channel.len() == 2304,
        prior.len() == 2304,
        sum.len() == 2304,
        forall|i: int| 0 <= i < 2304 ==> #[trigger] sum[i] == channel[i] + prior[i],
        decoder::is_layered_decoding(rate, max_iter, channel, Some(prior), num, den, with_prior),
        decoder::is_layered_decoding(rate, max_iter, sum, None, num, den, with_sum),
    ensures
        with_prior == with_sum,
{
    assert(decoder::seed_of(channel, Some(prior)) =~= decoder::seed_of(sum, None));
}

/// Channel and prior count alike: exchanging them changes nothing.
pub proof fn law_channel_and_prior_count_alike(
    rate: LdpcRate,
    stop: FailStop,
    max_iter: nat,
    a: Seq<i32>,
    b: Seq<i32>,
    num: int,
    den: int,
    ab: (Seq<u8>, Seq<i64>, bool),
    ba: (Seq<u8>, Seq<i64>, bool),
)
    requires
        a.len() == 2304,
        b.len() == 2304,
        decoder::is_soft_decoding(rate, stop, max_iter, a, Some(b), num, den, ab),
        decoder::is_soft_decoding(rate, stop, max_iter, b, Some(a), num, den, ba),
    ensures
        ab == ba,
{
    assert(decoder::seed_of(a, Some(b)) =~= decoder::seed_of(b, Some(a)));
}

/// Where the signs of channel plus prior spell a codeword, soft decoding returns it, on
/// rows as on layers, whatever the rule for giving up and the damping.
pub proof fn law_channel_and_prior_spell_a_codeword(
    rate: LdpcRate,
    stop: FailStop,
    max_iter: nat,
    channel: Seq<i32>,
    prior: Seq<i32>,
    word: Seq<u8>,
    num: int,
    den: int,
    soft: (Seq<u8>, Seq<i64>, bool),
    layered: (Seq<u8>, Seq<i64>, bool),
)
    requires
        channel.len() == 2304,
        prior.len() == 2304,
        code::is_codeword(rate, word),
        is_binary(word),
        forall|c: int| 0 <= c < 2304 ==> (#[trigger] channel[c] + prior[c] < 0 <==> word[c] == 1),
        max_iter >= 1,
        decoder::is_soft_decoding(rate, stop, max_iter, channel, Some(prior), num, den, soft),
        decoder::is_layered_decoding(rate, max_iter, channel, Some(prior), num, den, layered),
    ensures
        soft.2,
        soft.0 == word.take(rate.spec_k() as int),
        layered.2,
        layered.0 == word.take(rate.spec_k() as int),
{
    let seed = decoder::seed_of(channel, Some(prior));
    assert(decoder::hard(seed) =~= word) by {
        assert forall|c: int| 0 <= c < 2304 implies #[trigger] decoder::hard(seed)[c] == word[c] by {
            assert(channel[c] + prior[c] < 0 <==> word[c] == 1);
            assert(word[c] == 0 || word[c] == 1);
        }
    }
    lemma_clean_sweep(rate, word, seed, code::n_checks(rate));
    let next = decoder::iteration(rate, decoder::start(rate, seed));
    decoder::lemma_weight_counts(rate, next.totals, code::n_checks(rate));
}

/// Where the signs of the channel spell a codeword, every way of decoding returns it.
pub proof fn law_channel_spells_a_codeword(
    rate: LdpcRate,
    stop: FailStop,
    max_iter: nat,
    channel: Seq<i32>,
    word: Seq<u8>,
    num: int,
    den: int,
    info: Seq<u8>,
    converged: bool,
    soft: (Seq<u8>, Seq<i64>, bool),
    layered: (Seq<u8>, Seq<i64>, bool),
)
    requires
        code::is_codeword(rate, word),
        is_binary(word),
        spells(channel, word),
        max_iter >= 1,
        decoder::is_decoding(rate, max_iter, channel, info, converged),
        decoder::is_soft_decoding(rate, stop, max_iter, channel, None, num, den, soft),
        decoder::is_layered_decoding(rate, max_iter, channel, None, num, den, layered),
    ensures
        converged && soft.2 && layered.2,
        info == word.take(rate.spec_k() as int),
        soft.0 == word.take(rate.spec_k() as int),
        layered.0 == word.take(rate.spec_k() as int),
{
    law_clean_word_decodes(rate, channel, word, max_iter);
    law_clean_word_decodes_softly(rate, stop, channel, word, max_iter);
}

/// A verdict of success is to be trusted: the info bits are then those of a codeword.
pub proof fn law_success_gives_the_info_of_a_codeword(
    rate: LdpcRate,
    max_iter: nat,
    channel: Seq<i32>,
    info: Seq<u8>,
    converged: bool,
) -> (word: Seq<u8>)
    requires
        channel.len() == 2304,
        decoder::is_decoding(rate, max_iter, channel, info, converged),
        converged,
    ensures
        code::is_codeword(rate, word),
        info == word.take(rate.spec_k() as int),
{
    let st = decoder::start(rate, decoder::seed_of(channel, None));
    law_success_means_codeword(rate, st, max_iter);
    decoder::hard(decoder::iterate(rate, st, max_iter).0.totals)
}

/// Extrinsic values are what the checks add: undamped, and as far as nothing is clipped,
/// they turn channel plus prior into a number whose sign is the info bit.
pub proof fn law_extrinsic_completes_the_input(
    rate: LdpcRate,
    stop: FailStop,
    max_iter: nat,
    channel: Seq<i32>,
    prior: Seq<i32>,
    den: int,
    result: (Seq<u8>, Seq<i64>, bool),
    i: int,
)
    requires
        channel.len() == 2304,
        prior.len() == 2304,
        den >= 1,
        decoder::is_soft_decoding(rate, stop, max_iter, channel, Some(prior), den, den, result),
        0 <= i < rate.spec_k(),
        -25 * 65536 < channel[i] + prior[i] < 25 * 65536,
        -25 * 65536 < result.1[i] < 25 * 65536,
    ensures
        result.0[i] == 1 <==> channel[i] + prior[i] + result.1[i] < 0,
        result.0[i] == 0 || result.0[i] == 1,
{
    let seed = decoder::seed_of(channel, Some(prior));
    let st = decoder::iterate_soft(
        rate,
        stop,
        decoder::start(rate, seed),
        0,
        max_iter,
        usize::MAX as int,
        0,
    ).0;
    decoder::lemma_iterate_soft_len(
        rate,
        stop,
        decoder::start(rate, seed),
        0,
        max_iter,
        usize::MAX as int,
        0,
    );
    let x = st.totals[i] - seed[i];
    lemma_no_damping(x, den);
    assert(result.1[i] == min_sum::clip(decoder::damped(x, den, den)));
    assert(result.0[i] == decoder::hard(st.totals)[i]);
}

proof fn lemma_no_damping(x: int, den: int)
    requires
        den >= 1,
    ensures
        decoder::damped(x, den, den) == x,
{
    if x < 0 {
        vstd::arithmetic::div_mod::lemma_div_multiples_vanish(-x, den);
        assert((-x) * den == den * (-x)) by (nonlinear_arith);
    } else {
        vstd::arithmetic::div_mod::lemma_div_multiples_vanish(x, den);
        assert(x * den == den * x) by (nonlinear_arith);
    }
}

/// Damping scales extrinsic values: those damped by `num / den` have the sign of the
/// undamped ones and are `num / den` of them, rounded towards zero, as far as nothing is
/// clipped. Bits and verdict do not depend on the damping.
pub proof fn law_damping_scales_the_extrinsic(
    rate: LdpcRate,
    stop: FailStop,
    max_iter: nat,
    channel: Seq<i32>,
    prior: Option<Seq<i32>>,
    num: int,
    den: int,
    plain: (Seq<u8>, Seq<i64>, bool),
    scaled: (Seq<u8>, Seq<i64>, bool),
    i: int,
)
    requires
        channel.len() == 2304,
        0 <= num <= den,
        den >= 1,
        decoder::is_soft_decoding(rate, stop, max_iter, channel, prior, 1, 1, plain),
        decoder::is_soft_decoding(rate, stop, max_iter, channel, prior, num, den, scaled),
        0 <= i < 2304,
        -25 * 65536 < plain.1[i] < 25 * 65536,
    ensures
        plain.0 == scaled.0,
        plain.2 == scaled.2,
        plain.1[i] >= 0 ==> scaled.1[i] * den <= plain.1[i] * num < (scaled.1[i] + 1) * den,
        plain.1[i] < 0 ==> (scaled.1[i] - 1) * den < plain.1[i] * num <= scaled.1[i] * den,
{
    let seed = decoder::seed_of(channel, prior);
    let st = decoder::iterate_soft(
        rate,
        stop,
        decoder::start(rate, seed),
        0,
        max_iter,
        usize::MAX as int,
        0,
    ).0;
    decoder::lemma_iterate_soft_len(
        rate,
        stop,
        decoder::start(rate, seed),
        0,
        max_iter,
        usize::MAX as int,
        0,
    );
    let x = st.totals[i] - seed[i];
    lemma_no_damping(x, 1);
    assert(plain.1[i] == min_sum::clip(decoder::damped(x, 1, 1)));
    assert(plain.1[i] == x);
    let m = min_sum::magnitude(x);
    let d = m * num / den;
    vstd::arithmetic::div_mod::lemma_fundamental_div_mod(m * num, den);
    assert(0 <= d && d * den <= m * num < (d + 1) * den && d <= m) by (nonlinear_arith)
        requires
            m * num == den * d + (m * num) % den,
            0 <= (m * num) % den < den,
            0 <= num <= den,
            m >= 0,
            den >= 1,
    ;
    assert(scaled.1[i] == min_sum::clip(decoder::damped(x, num, den)));
    if x < 0 {
        assert((-d) * den == -(d * den) && (-d - 1) * den == -((d + 1) * den) && x * num == -(m
            * num)) by (nonlinear_arith)
            requires
                m == -x,
        ;
    }
}

} // verus!
