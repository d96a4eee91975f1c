//! Cross-function guarantees of the accumulator and the scheduler, stated
//! and proved over the same spec functions their contracts use.

use vstd::prelude::*;

verus! {

use crate::generator::is_full_order;
use crate::generator::pos_of;
use crate::generator::step_state;
use crate::pixel::resolved_channel;
use crate::pixel::PixelCache;
use crate::pixel::PixelCachePosition;
use crate::pixel::RawLight;
use crate::pixel::MAX_SIMILAR_SAMPLE_FOR_A_PIXEL;
use vstd::arithmetic::div_mod::lemma_div_denominator;
use vstd::arithmetic::div_mod::lemma_div_multiples_vanish;
use vstd::arithmetic::mul::lemma_mul_inequality;
use vstd::math::min;

/// The pixel state after `k` scheduler visits that each offer the same
/// `samples` new samples summing to `sample_sum`; a visit to a pixel already
/// marked Final changes nothing, exactly as the scheduler skips such pixels.
pub open spec fn accumulate_repeated(
    c: PixelCache,
    sample_sum: RawLight,
    samples: u64,
    k: nat,
) -> PixelCache
    decreases k,
{
    if k == 0 {
        c
    } else {
        let p = accumulate_repeated(c, sample_sum, samples, (k - 1) as nat);
        if p.status is Final {
            p
        } else {
            p.spec_accumulate(sample_sum, samples)
        }
    }
}

/// Averaging a `k`-fold radiance sum over `k`-fold samples resolves to the
/// same channel value as one round's sum over one round's samples.
proof fn lemma_scaled_resolution(a: u64, m: u64, k: nat)
    requires
        m >= 1,
        k >= 1,
        k * a <= u64::MAX,
        k * m <= u64::MAX,
    ensures
        resolved_channel((k * a) as u64, (k * m) as u64) == resolved_channel(a, m),
{
    lemma_div_denominator(k * a, k as int, m as int);
    lemma_div_multiples_vanish(a as int, k as int);
    assert((k * a) as int / (k * m) as int == a as int / m as int);
}

/// Convergence of a steadily repeating pixel: visited `k` times with the
/// identical per-visit sample sum, a fresh pixel resolves to the identical
/// color every time, its streak counts the repetitions, it becomes Final on
/// the visit that pushes the streak past the threshold, and once Final it is
/// frozen: later visits change nothing, including visits that would have
/// offered different samples, since a Final pixel is skipped.
pub proof fn lemma_convergence_streak(sample_sum: RawLight, samples: u64, k: nat)
    requires
        samples >= 1,
        k >= 1,
        (MAX_SIMILAR_SAMPLE_FOR_A_PIXEL + 2) * sample_sum.r <= u64::MAX,
        (MAX_SIMILAR_SAMPLE_FOR_A_PIXEL + 2) * sample_sum.g <= u64::MAX,
        (MAX_SIMILAR_SAMPLE_FOR_A_PIXEL + 2) * sample_sum.b <= u64::MAX,
        (MAX_SIMILAR_SAMPLE_FOR_A_PIXEL + 2) * samples <= u64::MAX,
    ensures
        ({
            let c = accumulate_repeated(PixelCache::spec_fresh(), sample_sum, samples, k);
            let rounds = min(k as int, MAX_SIMILAR_SAMPLE_FOR_A_PIXEL + 2);
            &&& c.wf()
            &&& c.nb_samples == rounds * samples
            &&& c.incremental_raw_light == Some(
                RawLight {
                    r: (rounds * sample_sum.r) as u64,
                    g: (rounds * sample_sum.g) as u64,
                    b: (rounds * sample_sum.b) as u64,
                },
            )
            &&& c.same_color_count == min(k - 1, MAX_SIMILAR_SAMPLE_FOR_A_PIXEL + 1)
            &&& (c.status is Final <==> k >= MAX_SIMILAR_SAMPLE_FOR_A_PIXEL + 2)
            &&& (c.status is Unstable <==> k < MAX_SIMILAR_SAMPLE_FOR_A_PIXEL + 2)
            &&& (c.last_color matches Some(col) && col.r == resolved_channel(
                sample_sum.r,
                samples,
            ) as u8 && col.g == resolved_channel(sample_sum.g, samples) as u8 && col.b
                == resolved_channel(sample_sum.b, samples) as u8)
        }),
    decreases k,
{
    let limit = (MAX_SIMILAR_SAMPLE_FOR_A_PIXEL + 2) as int;
    if k == 1 {
        assert(1 * sample_sum.r == sample_sum.r);
        assert(1 * sample_sum.g == sample_sum.g);
        assert(1 * sample_sum.b == sample_sum.b);
        assert(1 * samples == samples);
    } else {
        lemma_convergence_streak(sample_sum, samples, (k - 1) as nat);
        let p = accumulate_repeated(PixelCache::spec_fresh(), sample_sum, samples, (k - 1) as nat);
        let prev_rounds = min(k - 1, limit);
        if p.status is Final {
            assert(min(k as int, limit) == prev_rounds);
        } else {
            let rounds = min(k as int, limit);
            assert(rounds == prev_rounds + 1);
            assert(rounds * sample_sum.r == prev_rounds * sample_sum.r + sample_sum.r)
                by (nonlinear_arith)
                requires
                    rounds == prev_rounds + 1,
            ;
            assert(rounds * sample_sum.g == prev_rounds * sample_sum.g + sample_sum.g)
                by (nonlinear_arith)
                requires
                    rounds == prev_rounds + 1,
            ;
            assert(rounds * sample_sum.b == prev_rounds * sample_sum.b + sample_sum.b)
                by (nonlinear_arith)
                requires
                    rounds == prev_rounds + 1,
            ;
            assert(rounds * samples == prev_rounds * samples + samples) by (nonlinear_arith)
                requires
                    rounds == prev_rounds + 1,
            ;
            lemma_mul_inequality(rounds, limit, sample_sum.r as int);
            lemma_mul_inequality(rounds, limit, sample_sum.g as int);
            lemma_mul_inequality(rounds, limit, sample_sum.b as int);
            lemma_mul_inequality(rounds, limit, samples as int);
            lemma_scaled_resolution(sample_sum.r, samples, rounds as nat);
            lemma_scaled_resolution(sample_sum.g, samples, rounds as nat);
            lemma_scaled_resolution(sample_sum.b, samples, rounds as nat);
        }
    }
}

/// A differing resolution resets the streak; an identical one extends it.
/// The status itself moves only when the streak passes the threshold.
pub proof fn lemma_streak_reset(c: PixelCache, sample_sum: RawLight, samples: u64)
    requires
        c.wf(),
        c.last_color is Some,
    ensures
        ({
            let a = c.spec_accumulate(sample_sum, samples);
            let lc = c.last_color->Some_0;
            let nc = a.last_color->Some_0;
            &&& (lc.same_rgb(nc) ==> a.same_color_count == c.same_color_count + 1)
            &&& (!lc.same_rgb(nc) ==> a.same_color_count == 0 && a.status == c.status)
        }),
{
}

/// Walking the cursor from the start of a pass: each of the first `len - 1`
/// advances moves one slot onward within the same pass, and the `len`-th
/// advance wraps to slot 0, counting exactly one completed pass. Combined
/// with [`lemma_full_pass_coverage`], after exactly `len` advances every
/// pixel has been under the cursor exactly once.
pub open spec fn steps_from(cursor: nat, passes: nat, len: nat, k: nat) -> (nat, nat)
    decreases k,
{
    if k == 0 {
        (cursor, passes)
    } else {
        let s = steps_from(cursor, passes, len, (k - 1) as nat);
        step_state(s.0, s.1, len)
    }
}

/// After `k < len` advances from the start of a pass the cursor rests on
/// slot `k` of the order with the pass counter untouched; the `len`-th
/// advance returns the cursor to slot 0 and counts exactly one full pass.
pub proof fn lemma_full_pass_counter(p0: nat, len: nat, k: nat)
    requires
        len >= 1,
        k <= len,
    ensures
        k < len ==> steps_from(0, p0, len, k) == (k, p0),
        k == len ==> steps_from(0, p0, len, k) == (0nat, (p0 + 1) as nat),
    decreases k,
{
    if k > 0 {
        lemma_full_pass_counter(p0, len, (k - 1) as nat);
    }
}

/// A full visitation order holds every pixel of the target exactly once, so
/// one pass over it samples each pixel exactly once.
pub proof fn lemma_full_pass_coverage(
    s: Seq<PixelCachePosition>,
    width: int,
    height: int,
    i: int,
)
    requires
        is_full_order(s, width, height),
        0 <= i < width * height,
    ensures
        s.len() == width * height,
        s.to_multiset().count(pos_of(i, width)) == 1,
{
}

} // verus!
