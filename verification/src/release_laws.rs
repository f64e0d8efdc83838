//! What a lifted finger gives, in real numbers and nanoseconds.
//!
//! Values count units of 2^-149, of which `pow2(149)` make up 1. Where a law speaks
//! of an error, no operation is more than that many units off the result in real
//! numbers; an error of 0 means that nothing is rounded.

use crate::arith::{near, Arith, Op};
use crate::binary32::{
    distance, law_size_is_the_distance_from_zero, law_small_integers_are_exact,
    lemma_integer_rounds, lemma_spells, nearest, Binary32,
};
use crate::config::Config;
use crate::motion::{
    confidence, last_swipe, law_pruning_drops_the_oldest, law_swipe_is_the_recent_movement, leg,
    millis_between, paused, pruned, release_velocity, slopes, stale, start_speed, start_velocity,
    sums, swipe, swipe_from, time_between, travel_since, Sample, Swipe,
};
use crate::regression_laws::total;
use vstd::arithmetic::power2::{lemma2_to64, lemma2_to64_rest, lemma_pow2_pos, pow2};
use vstd::prelude::*;

verus! {

/// `x`, or the bound that it lies beyond.
pub open spec fn between(low: int, x: int, high: int) -> int {
    if x < low {
        low
    } else if x > high {
        high
    } else {
        x
    }
}

/// A time span is the difference of the two moments, and none where the later one
/// comes first. Its milliseconds are those that are over.
pub proof fn law_time_spans_are_differences(later: u64, earlier: u64)
    ensures
        later >= earlier ==> time_between(later, earlier) == later - earlier,
        later < earlier ==> time_between(later, earlier) == 0,
        later >= earlier ==> millis_between(later, earlier) * 1_000_000 <= later - earlier < (
        millis_between(later, earlier) + 1) * 1_000_000,
        later < earlier ==> millis_between(later, earlier) == 0,
{
}

/// Pruning drops the samples at the front whose milliseconds of age are more than the
/// window, up to the first that is no such sample, and keeps all that follow.
pub proof fn law_pruning_goes_by_age(samples: Seq<Sample>, now: u64, window_ms: u64)
    ensures
        ({
            let kept = pruned(samples, now, window_ms);
            let n = samples.len() - kept.len();
            &&& n >= 0
            &&& kept == samples.skip(n)
            &&& forall|i: int|
                0 <= i < n ==> (#[trigger] samples[i]).t + (window_ms + 1) * 1_000_000 <= now
            &&& kept.len() > 0 ==> now < kept[0].t + (window_ms + 1) * 1_000_000
        }),
{
    law_pruning_drops_the_oldest(samples, now, window_ms);
    let n = stale(samples, now, window_ms);
    assert forall|i: int| 0 <= i < n implies (#[trigger] samples[i]).t + (window_ms + 1) * 1_000_000
        <= now by {
        law_time_spans_are_differences(now, samples[i].t);
    }
    if n < samples.len() {
        law_time_spans_are_differences(now, samples[n].t);
    }
}

/// The finger stood still before sample `i`: it took more than the gap for less than
/// the distance, after which it still travelled far enough for a swipe.
pub open spec fn rested(m: Arith, samples: Seq<Sample>, i: int, cfg: Config) -> bool {
    &&& samples[i].t >= samples[i - 1].t + (cfg.pause_gap_ms + 1) * 1_000_000
    &&& leg(m, samples[i], samples[i - 1]).below(cfg.pause_dist_threshold)
    &&& cfg.min_travel.at_most(travel_since(m, samples, i))
}

/// The swipe is the longest run of samples up to the newest that began within the
/// window and in which the finger did not rest, and its travel is that of the run.
pub proof fn law_swipe_is_one_movement(m: Arith, samples: Seq<Sample>, cfg: Config)
    requires
        samples.len() > 0,
    ensures
        ({
            let (start, travel) = last_swipe(m, samples, cfg);
            let newest = samples.last().t;
            let window = (cfg.sample_window_ms + 1) * 1_000_000;
            &&& 0 <= start < samples.len()
            &&& travel == travel_since(m, samples, start)
            &&& forall|i: int|
                start <= i < samples.len() ==> newest < (#[trigger] samples[i]).t + window
            &&& forall|i: int|
                start < i < samples.len() ==> !#[trigger] rested(m, samples, i, cfg)
            &&& start > 0 ==> newest >= samples[start - 1].t + window || rested(
                m,
                samples,
                start,
                cfg,
            )
        }),
{
    law_swipe_is_the_recent_movement(m, samples, cfg);
    let (start, travel) = last_swipe(m, samples, cfg);
    let newest = samples.last().t;
    assert forall|i: int| start <= i < samples.len() implies newest < (#[trigger] samples[i]).t + (
    cfg.sample_window_ms + 1) * 1_000_000 by {
        law_time_spans_are_differences(newest, samples[i].t);
    }
    assert forall|i: int| start < i < samples.len() implies !#[trigger] rested(
        m,
        samples,
        i,
        cfg,
    ) by {
        law_time_spans_are_differences(samples[i].t, samples[i - 1].t);
        assert(!paused(m, samples, i, travel_since(m, samples, i), cfg));
    }
    if start > 0 {
        law_time_spans_are_differences(newest, samples[start - 1].t);
        law_time_spans_are_differences(samples[start].t, samples[start - 1].t);
    }
}

/// No operation in the distance of two samples is more than `error` off.
pub open spec fn near_leg(m: Arith, a: Sample, b: Sample, error: int) -> bool {
    let dx = m(Op::Sub(a.x, b.x));
    let dy = m(Op::Sub(a.y, b.y));
    let (xx, yy) = (m(Op::Square(dx)), m(Op::Square(dy)));
    &&& near(m, Op::Sub(a.x, b.x), error)
    &&& near(m, Op::Sub(a.y, b.y), error)
    &&& near(m, Op::Square(dx), error)
    &&& near(m, Op::Square(dy), error)
    &&& near(m, Op::Add(xx, yy), error)
    &&& near(m, Op::Sqrt(m(Op::Add(xx, yy))), error)
}

/// The distance of two samples is that of Pythagoras: its square is the sum of the
/// squares of the differences of the coordinates.
pub proof fn law_distance_is_that_of_pythagoras(m: Arith, a: Sample, b: Sample, error: int) -> (r: (
    int,
    int,
))
    requires
        near_leg(m, a, b, error),
    ensures
        ({
            let (dx, dy) = r;
            let l = leg(m, a, b).value();
            &&& distance(dx, a.x.value() - b.x.value()) <= error
            &&& distance(dy, a.y.value() - b.y.value()) <= error
            &&& l >= 0
            &&& distance(l * l, dx * dx + dy * dy) <= 4 * error * pow2(149)
        }),
{
    let u = pow2(149) as int;
    let e = error;
    lemma_pow2_pos(149);
    let (dx, dy) = (m(Op::Sub(a.x, b.x)), m(Op::Sub(a.y, b.y)));
    let (xx, yy) = (m(Op::Square(dx)), m(Op::Square(dy)));
    let s = m(Op::Add(xx, yy)).value();
    let (p, q) = (xx.value(), yy.value());
    assert(-(e * u) <= s * u - p * u - q * u <= e * u) by (nonlinear_arith)
        requires
            -e <= s - (p + q) <= e,
            u > 0,
    ;
    assert(4 * e * u == 4 * (e * u)) by (nonlinear_arith);
    (dx.value(), dy.value())
}

/// No sum of distances from sample `i` on is more than `error` off.
pub open spec fn near_travel(m: Arith, samples: Seq<Sample>, i: int, error: int) -> bool
    decreases samples.len() - i,
{
    i >= samples.len() - 1 || {
        &&& near_travel(m, samples, i + 1, error)
        &&& near(
            m,
            Op::Add(travel_since(m, samples, i + 1), leg(m, samples[i + 1], samples[i])),
            error,
        )
    }
}

/// The travel from a sample on is the sum of the distances from each sample to the
/// next.
pub proof fn law_travel_adds_up(m: Arith, samples: Seq<Sample>, i: int, error: int)
    requires
        0 <= i < samples.len(),
        near_travel(m, samples, i, error),
    ensures
        ({
            let n = samples.len() - 1 - i;
            let last = samples.len() - 1;
            distance(
                travel_since(m, samples, i).value(),
                total(
                    n,
                    |k: int| leg(m, samples[last - k], samples[last - k - 1]).value(),
                ),
            ) <= n * error
        }),
    decreases samples.len() - i,
{
    let n = samples.len() - 1 - i;
    if n > 0 {
        law_travel_adds_up(m, samples, i + 1, error);
        assert(n * error == (n - 1) * error + error) by (nonlinear_arith);
    } else {
        assert(Binary32::zero().value() == 0);
        assert(0 * error == 0) by (nonlinear_arith);
    }
}

/// No operation that weighs a sample by its age is more than `error` off.
pub open spec fn near_confidence(m: Arith, age: u64, limit_ms: u64, error: int) -> bool {
    let secs = m(Op::Seconds(age));
    let age_ms = m(Op::Mul(secs, nearest(1000, 1)));
    let used = m(Op::Div(age_ms, nearest(limit_ms as int, 1)));
    &&& near(m, Op::Seconds(age), error)
    &&& near(m, Op::Mul(secs, nearest(1000, 1)), error)
    &&& near(m, Op::Div(age_ms, nearest(limit_ms as int, 1)), error)
    &&& near(m, Op::Sub(nearest(1, 1), used), error)
}

/// Confidence is the part of the time limit that is left: 1 less the age by the
/// limit, and 0 from the limit on. With `k` for the limit in nanoseconds, `k` times
/// the confidence is `k` less the age, but for what the operations are off.
pub proof fn law_confidence_is_what_is_left(m: Arith, age: u64, limit_ms: u64, error: int)
    requires
        0 < limit_ms <= 0x100_0000,
        near_confidence(m, age, limit_ms, error),
    ensures
        ({
            let k = limit_ms * 1_000_000;
            let left = if age < k {
                k - age
            } else {
                0
            };
            &&& !confidence(m, age, limit_ms).nan()
            &&& distance(confidence(m, age, limit_ms).value() * k, left * pow2(149)) <= error * (2
                * k + 1_001_000_000)
        }),
{
    let u = pow2(149) as int;
    let e = error;
    lemma_pow2_pos(149);
    law_small_integers_are_exact(1);
    law_small_integers_are_exact(1000);
    law_small_integers_are_exact(limit_ms as int);
    let secs = m(Op::Seconds(age));
    let age_ms = m(Op::Mul(secs, nearest(1000, 1)));
    let used = m(Op::Div(age_ms, nearest(limit_ms as int, 1)));
    let (s, g, r) = (secs.value(), age_ms.value(), used.value());
    let (l, k) = (limit_ms as int, limit_ms * 1_000_000);
    let left = m(Op::Sub(nearest(1, 1), used)).value();
    assert(e >= 0);
    assert(-e <= g - 1000 * s <= e) by (nonlinear_arith)
        requires
            -(e * u) <= g * u - s * (1000 * u) <= e * u,
            u > 0,
    ;
    assert(distance(l * u, 0) == l * u) by (nonlinear_arith)
        requires
            l > 0,
            u > 0,
            distance(l * u, 0) == (if l * u < 0 {
                0 - l * u
            } else {
                l * u - 0
            }),
    ;
    assert(-(e * l) <= r * l - g <= e * l) by (nonlinear_arith)
        requires
            -(e * (l * u)) <= r * (l * u) - g * u <= e * (l * u),
            u > 0,
    ;
    assert(r * k == 1_000_000 * (r * l) && e * k == 1_000_000 * (e * l)) by (nonlinear_arith)
        requires
            k == l * 1_000_000,
    ;
    let rest = e * k + 1_001_000_000 * e;
    assert(-rest <= r * k - age * u <= rest);
    assert(-(e * k) <= left * k - u * k + r * k <= e * k) by (nonlinear_arith)
        requires
            -e <= left - (u - r) <= e,
            k > 0,
    ;
    let bound = error * (2 * k + 1_001_000_000);
    assert(bound == 2 * (e * k) + 1_001_000_000 * e) by (nonlinear_arith)
        requires
            bound == e * (2 * k + 1_001_000_000),
    ;
    assert((k - age) * u == u * k - age * u) by (nonlinear_arith);
    assert(-bound <= left * k - (k - age) * u <= bound);
    let c = confidence(m, age, limit_ms).value();
    assert(Binary32::zero().value() == 0);
    assert(1 * u == u);
    if left < 0 {
        assert(left * k <= 0) by (nonlinear_arith)
            requires
                left < 0,
                k > 0,
        ;
        assert(0 * k == 0);
    } else if left > u {
        assert(left * k >= u * k) by (nonlinear_arith)
            requires
                left > u,
                k > 0,
        ;
        assert(c == u);
        assert(age * u >= 0) by (nonlinear_arith)
            requires
                age >= 0,
                u > 0,
        ;
    } else {
        assert(left * k >= 0) by (nonlinear_arith)
            requires
                left >= 0,
                k > 0,
        ;
    }
    if age >= k {
        assert((k - age) * u <= 0) by (nonlinear_arith)
            requires
                age >= k,
                u > 0,
        ;
        assert(0 * u == 0);
    } else {
        assert((k - age) * u >= 0) by (nonlinear_arith)
            requires
                age < k,
                u > 0,
        ;
    }
}

/// What a lift gives depends on the whole movement: there is a swipe exactly where
/// there are three samples, the newest still counts for more than a twentieth, the
/// run has three samples and goes as far as it must, it has a slope, and the slope,
/// faded by the confidence, is not slower than one unit per second. The swipe is that
/// faded slope, and its speed the length of it.
pub proof fn law_swipes_are_faded_slopes(
    m: Arith,
    samples: Seq<Sample>,
    now: u64,
    cfg: Config,
    error: int,
) -> (r: Swipe)
    requires
        samples.len() > 0,
        ({
            let age = if now > samples.last().t {
                (now - samples.last().t) as u64
            } else {
                0
            };
            let c = confidence(m, age, cfg.max_sample_staleness_ms);
            slopes(m, samples.skip(last_swipe(m, samples, cfg).0)) matches Some(u) ==> {
                let (vx, vy) = (m(Op::Mul(u.0, c)), m(Op::Mul(u.1, c)));
                &&& near(m, Op::Mul(u.0, c), error)
                &&& near(m, Op::Mul(u.1, c), error)
                &&& near(m, Op::Hypot(vx, vy), error)
            }
        }),
    ensures
        ({
            let one = pow2(149) as int;
            let age = if now > samples.last().t {
                (now - samples.last().t) as u64
            } else {
                0
            };
            let c = confidence(m, age, cfg.max_sample_staleness_ms);
            let (start, travel) = last_swipe(m, samples, cfg);
            let slope = slopes(m, samples.skip(start));
            &&& slope matches Some(u) ==> {
                &&& distance(r.vx.value() * one, u.0.value() * c.value()) <= error * one
                &&& distance(r.vy.value() * one, u.1.value() * c.value()) <= error * one
                &&& r.speed.value() >= 0
                &&& distance(
                    r.speed.value() * r.speed.value(),
                    r.vx.value() * r.vx.value() + r.vy.value() * r.vy.value(),
                ) <= error * one
            }
            &&& swipe(m, samples, now, cfg) is Some <==> {
                &&& samples.len() >= 3
                &&& !c.at_most(nearest(5, 100))
                &&& samples.len() - start >= 3
                &&& !travel.below(cfg.min_travel)
                &&& slope is Some
                &&& r.speed.value() >= one
            }
            &&& swipe(m, samples, now, cfg) matches Some(s) ==> s == r
            &&& release_velocity(m, samples, now, cfg) is Some <==> swipe(m, samples, now, cfg)
                is Some
            &&& release_velocity(m, samples, now, cfg) matches Some(v) ==> v == start_velocity(
                m,
                r,
                cfg,
            )
        }),
{
    let c = confidence(m, time_between(now, samples.last().t), cfg.max_sample_staleness_ms);
    let (ux, uy) = slopes(m, samples.skip(last_swipe(m, samples, cfg).0))->0;
    let (vx, vy) = (m(Op::Mul(ux, c)), m(Op::Mul(uy, c)));
    law_small_integers_are_exact(1);
    lemma_integer_rounds(1);
    Swipe { vx, vy, speed: m(Op::Hypot(vx, vy)) }
}

/// A lift that gives nothing falls short somewhere, and one that falls short nowhere
/// gives a swipe; where a number to be compared is none, it does not fall short.
/// This holds whatever the arithmetic makes of the samples.
pub proof fn law_lifts_that_fall_short_give_nothing(
    m: Arith,
    samples: Seq<Sample>,
    now: u64,
    cfg: Config,
)
    requires
        samples.len() > 0,
    ensures
        ({
            let age = if now > samples.last().t {
                (now - samples.last().t) as u64
            } else {
                0
            };
            let c = confidence(m, age, cfg.max_sample_staleness_ms);
            let (start, travel) = last_swipe(m, samples, cfg);
            let slope = slopes(m, samples.skip(start));
            let (vx, vy) = (m(Op::Mul((slope->0).0, c)), m(Op::Mul((slope->0).1, c)));
            let speed = m(Op::Hypot(vx, vy));
            let found = swipe(m, samples, now, cfg);
            &&& found is None <==> {
                ||| samples.len() < 3
                ||| samples.len() - start < 3
                ||| slope is None
                ||| !c.nan() && c.value() <= nearest(5, 100).value()
                ||| !travel.nan() && !cfg.min_travel.nan() && travel.value()
                    < cfg.min_travel.value()
                ||| !speed.nan() && speed.value() < pow2(149)
            }
            &&& found matches Some(s) ==> s == Swipe { vx, vy, speed }
            &&& release_velocity(m, samples, now, cfg) == (match found {
                Some(s) => Some(start_velocity(m, s, cfg)),
                None => None,
            })
        }),
{
    law_small_integers_are_exact(1);
    lemma_integer_rounds(1);
    lemma2_to64();
    lemma_spells(0x3d4c_cccd, 5, 100);
}

/// There is no slope exactly where there are fewer than two samples or the factor of
/// the regression, as it comes out, is a number smaller in size than a millionth.
pub proof fn law_no_slope_without_a_spread_in_time(m: Arith, samples: Seq<Sample>)
    ensures
        ({
            let s = sums(m, samples, samples.len() as int);
            let factor = m(Op::Sub(m(Op::Mul(s.w, s.tt)), m(Op::Mul(s.t, s.t))));
            slopes(m, samples) is None <==> samples.len() < 2 || !factor.nan() && distance(
                factor.value(),
                0,
            ) < nearest(1, 1_000_000).value()
        }),
{
    let s = sums(m, samples, samples.len() as int);
    let factor = m(Op::Sub(m(Op::Mul(s.w, s.tt)), m(Op::Mul(s.t, s.t))));
    law_size_is_the_distance_from_zero(factor);
    lemma2_to64();
    lemma2_to64_rest();
    lemma_spells(0x3586_37bd, 1, 1_000_000);
}

/// A glide starts as fast as the swipe was, in pixels and with the gain: the start
/// speed is the speed of the swipe times the two settings, brought between the two
/// limits.
pub proof fn law_start_speed_follows_the_swipe(m: Arith, speed: Binary32, cfg: Config, error: int)
    requires
        cfg.speeds_in_order(),
        near(m, Op::Mul(speed, cfg.trackpad_to_pixel), error),
        near(m, Op::Mul(m(Op::Mul(speed, cfg.trackpad_to_pixel)), cfg.release_gain), error),
    ensures
        ({
            let u = pow2(149) as int;
            let gain = cfg.release_gain.value();
            let wanted = speed.value() * cfg.trackpad_to_pixel.value() * gain;
            let (low, high) = (cfg.start_speed_min.value(), cfg.start_speed_max.value());
            &&& low <= start_speed(m, speed, cfg).value() <= high
            &&& distance(
                start_speed(m, speed, cfg).value() * (u * u),
                between(low * (u * u), wanted, high * (u * u)),
            ) <= error * u * (u + distance(gain, 0))
        }),
{
    let u = pow2(149) as int;
    let e = error;
    lemma_pow2_pos(149);
    let (s, pix, gain) = (
        speed.value(),
        cfg.trackpad_to_pixel.value(),
        cfg.release_gain.value(),
    );
    let p = m(Op::Mul(speed, cfg.trackpad_to_pixel)).value();
    let w = m(Op::Mul(m(Op::Mul(speed, cfg.trackpad_to_pixel)), cfg.release_gain)).value();
    let size = distance(gain, 0);
    let wanted = s * pix * gain;
    lemma_scaled_error(p * u, s * pix, e * u, gain, size);
    assert((e * u) * size == e * (u * size)) by (nonlinear_arith);
    lemma_scaled_error(w * u, p * gain, e * u, u, u);
    let bound = error * u * (u + distance(gain, 0));
    assert(bound == (e * u) * size + (e * u) * u) by (nonlinear_arith)
        requires
            bound == e * u * (u + size),
    ;
    assert((p * u) * gain == (p * gain) * u && (w * u) * u == w * (u * u)) by (nonlinear_arith);
    assert(distance(w * (u * u), wanted) <= bound);
    let (low, high) = (cfg.start_speed_min.value(), cfg.start_speed_max.value());
    let uu = u * u;
    assert(uu > 0) by (nonlinear_arith)
        requires
            u > 0,
            uu == u * u,
    ;
    assert(low * uu <= high * uu) by (nonlinear_arith)
        requires
            low <= high,
            uu > 0,
    ;
    if w < low {
        assert(w * uu < low * uu) by (nonlinear_arith)
            requires
                w < low,
                uu > 0,
        ;
    } else if w > high {
        assert(w * uu > high * uu) by (nonlinear_arith)
            requires
                w > high,
                uu > 0,
        ;
    } else {
        assert(low * uu <= w * uu <= high * uu) by (nonlinear_arith)
            requires
                low <= w <= high,
                uu > 0,
        ;
    }
}

proof fn lemma_scaled_error(a: int, b: int, e: int, c: int, size: int)
    requires
        distance(a, b) <= e,
        size == distance(c, 0),
    ensures
        distance(a * c, b * c) <= e * size,
{
    assert(-(e * size) <= a * c - b * c <= e * size) by (nonlinear_arith)
        requires
            -e <= a - b <= e,
            size == c && c >= 0 || size == -c && c < 0,
    ;
}

/// A glide has the direction of the swipe and the start speed: its velocity times
/// the speed of the swipe is the velocity of the swipe times the start speed, on
/// either axis.
pub proof fn law_glide_is_the_swipe_at_the_start_speed(
    m: Arith,
    s: Swipe,
    cfg: Config,
    error: int,
)
    requires
        ({
            let d = m(Op::Div(start_speed(m, s.speed, cfg), s.speed));
            &&& near(m, Op::Div(start_speed(m, s.speed, cfg), s.speed), error)
            &&& near(m, Op::Mul(s.vx, d), error)
            &&& near(m, Op::Mul(s.vy, d), error)
        }),
    ensures
        ({
            let u = pow2(149) as int;
            let (rx, ry) = start_velocity(m, s, cfg);
            let (h, t) = (s.speed.value(), start_speed(m, s.speed, cfg).value());
            let (vx, vy) = (s.vx.value(), s.vy.value());
            let size = distance(h, 0);
            &&& distance(rx.value() * u * h, vx * t * u) <= error * size * (u + distance(vx, 0))
            &&& distance(ry.value() * u * h, vy * t * u) <= error * size * (u + distance(vy, 0))
        }),
{
    let d = m(Op::Div(start_speed(m, s.speed, cfg), s.speed)).value();
    let (rx, ry) = start_velocity(m, s, cfg);
    let (h, t) = (s.speed.value(), start_speed(m, s.speed, cfg).value());
    lemma_rescaled(rx.value(), s.vx.value(), d, h, t, error);
    lemma_rescaled(ry.value(), s.vy.value(), d, h, t, error);
}

proof fn lemma_rescaled(r: int, v: int, d: int, h: int, t: int, e: int)
    requires
        distance(d * h, t * pow2(149)) <= e * distance(h, 0),
        distance(r * pow2(149), v * d) <= e * pow2(149),
    ensures
        distance(r * pow2(149) * h, v * t * pow2(149)) <= e * distance(h, 0) * (pow2(149)
            + distance(v, 0)),
{
    let u = pow2(149) as int;
    let (size, length) = (distance(h, 0), distance(v, 0));
    lemma_scaled_error(r * u, v * d, e * u, h, size);
    lemma_scaled_error(d * h, t * u, e * size, v, length);
    assert((v * d) * h == (d * h) * v && (t * u) * v == v * t * u) by (nonlinear_arith);
    assert((e * u) * size + (e * size) * length == e * size * (u + length)) by (nonlinear_arith);
}

/// The samples, each taken `delay` nanoseconds later.
pub open spec fn delayed(samples: Seq<Sample>, delay: int) -> Seq<Sample> {
    Seq::new(
        samples.len(),
        |i: int| Sample { t: (samples[i].t + delay) as u64, ..samples[i] },
    )
}

/// The samples can be taken so much later, or earlier where `delay` is negative.
pub open spec fn can_be_delayed(samples: Seq<Sample>, delay: int) -> bool {
    forall|i: int| 0 <= i < samples.len() ==> 0 <= (#[trigger] samples[i]).t + delay <= u64::MAX
}

proof fn lemma_delayed_sums(m: Arith, samples: Seq<Sample>, delay: int, n: int)
    requires
        can_be_delayed(samples, delay),
        0 <= n <= samples.len(),
    ensures
        sums(m, delayed(samples, delay), n) == sums(m, samples, n),
    decreases n,
{
    if n > 0 {
        lemma_delayed_sums(m, samples, delay, n - 1);
        assert(0 <= samples[0].t + delay <= u64::MAX);
        assert(0 <= samples[n - 1].t + delay <= u64::MAX);
    }
}

/// Only the times between the samples matter to the slopes, not when the first one
/// was taken.
pub proof fn law_slopes_do_not_depend_on_the_hour(m: Arith, samples: Seq<Sample>, delay: int)
    requires
        can_be_delayed(samples, delay),
    ensures
        slopes(m, delayed(samples, delay)) == slopes(m, samples),
{
    lemma_delayed_sums(m, samples, delay, samples.len() as int);
}

proof fn lemma_delayed_swipe(
    m: Arith,
    samples: Seq<Sample>,
    delay: int,
    i: int,
    travel: Binary32,
    cfg: Config,
)
    requires
        can_be_delayed(samples, delay),
        i < samples.len(),
    ensures
        swipe_from(m, delayed(samples, delay), i, travel, cfg) == swipe_from(
            m,
            samples,
            i,
            travel,
            cfg,
        ),
    decreases i,
{
    if i > 0 {
        assert(0 <= samples[i].t + delay <= u64::MAX);
        assert(0 <= samples[i - 1].t + delay <= u64::MAX);
        assert(0 <= samples[samples.len() - 1].t + delay <= u64::MAX);
        lemma_delayed_swipe(
            m,
            samples,
            delay,
            i - 1,
            m(Op::Add(travel, leg(m, samples[i], samples[i - 1]))),
            cfg,
        );
    }
}

/// A movement gives the same glide whenever it is made.
pub proof fn law_glides_do_not_depend_on_the_hour(
    m: Arith,
    samples: Seq<Sample>,
    now: u64,
    delay: int,
    cfg: Config,
)
    requires
        can_be_delayed(samples, delay),
        0 <= now + delay <= u64::MAX,
    ensures
        release_velocity(m, delayed(samples, delay), (now + delay) as u64, cfg)
            == release_velocity(m, samples, now, cfg),
{
    let other = delayed(samples, delay);
    if samples.len() > 0 {
        lemma_delayed_swipe(m, samples, delay, samples.len() - 1, Binary32::zero(), cfg);
        law_swipe_is_the_recent_movement(m, samples, cfg);
        let start = last_swipe(m, samples, cfg).0;
        assert(can_be_delayed(samples.skip(start), delay)) by {
            assert forall|i: int| 0 <= i < samples.skip(start).len() implies 0 <= (
            #[trigger] samples.skip(start)[i]).t + delay <= u64::MAX by {
                assert(0 <= samples[start + i].t + delay <= u64::MAX);
            }
        }
        assert(other.skip(start) =~= delayed(samples.skip(start), delay));
        law_slopes_do_not_depend_on_the_hour(m, samples.skip(start), delay);
        assert(0 <= samples[samples.len() - 1].t + delay <= u64::MAX);
    }
}

} // verus!
