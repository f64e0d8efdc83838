//! What holds of a swipe and its glide in an arithmetic that behaves.
//!
//! The glide goes where the finger went, waiting before the lift never makes it
//! faster, and no direction on the trackpad differs from another. Where nothing is
//! rounded, the regression finds the velocity of a steady movement, confidence falls
//! from 1 to 0 at the limit, and a glide has exactly the start speed.

use crate::arith::{
    alike_ops, commutative, exact, keeps_order, keeps_signs, mirrored_ops, multiplies, symmetric,
    Arith, Op,
};
use crate::binary32::{
    distance, law_small_integers_are_exact, lemma_positive_integer, lemma_rank_orders, lemma_signs,
    lemma_spells, nearest, Binary32,
};
use crate::config::Config;
use crate::motion::{
    confidence, cross, last_swipe, law_swipe_is_the_recent_movement, leg, release_velocity, slopes,
    start_speed, start_velocity, sums, swipe, swipe_from, time_between, Sample, Swipe,
};
use vstd::arithmetic::power2::{lemma2_to64, lemma2_to64_rest, lemma_pow2_pos, pow2};
use vstd::prelude::*;

verus! {

/// The least confidence and the least speed of a glide are positive.
proof fn lemma_thresholds()
    ensures
        Binary32::zero().below(nearest(5, 100)),
        Binary32::zero().below(nearest(1, 1)),
        nearest(1, 1).finite(),
{
    lemma2_to64();
    lemma2_to64_rest();
    lemma_spells(0x3d4c_cccd, 5, 100);
    lemma_spells(0x3f80_0000, 1, 1);
    lemma_rank_orders(Binary32::zero(), Binary32 { bits: 0x3d4c_cccd });
    lemma_rank_orders(Binary32::zero(), Binary32 { bits: 0x3f80_0000 });
}

/// How much the newest sample still counts for a finger lifted at `now`.
pub open spec fn trust(m: Arith, samples: Seq<Sample>, now: u64, cfg: Config) -> Binary32 {
    confidence(m, time_between(now, samples.last().t), cfg.max_sample_staleness_ms)
}

/// The factor that brings a swipe to the start speed.
pub open spec fn scale(m: Arith, s: Swipe, cfg: Config) -> Binary32 {
    m(Op::Div(start_speed(m, s.speed, cfg), s.speed))
}

/// A glide goes the way the finger went. It follows a run of at least three
/// samples; its velocity is the slope of their regression lines times two
/// factors, the same ones on both axes and neither of them negative, so that
/// on each axis it has the sign of the slope.
pub proof fn law_glides_follow_the_finger(m: Arith, samples: Seq<Sample>, now: u64, cfg: Config)
    requires
        keeps_signs(m),
        cfg.speeds_in_order(),
        Binary32::zero().below(cfg.start_speed_min),
        release_velocity(m, samples, now, cfg) is Some,
    ensures
        ({
            let (start, travel) = last_swipe(m, samples, cfg);
            let slope = slopes(m, samples.skip(start));
            let (ux, uy) = slope->0;
            let (rx, ry) = release_velocity(m, samples, now, cfg)->0;
            let c = trust(m, samples, now, cfg);
            let d = scale(m, swipe(m, samples, now, cfg)->0, cfg);
            &&& 0 <= start <= samples.len() - 3
            &&& slope is Some
            &&& rx == m(Op::Mul(m(Op::Mul(ux, c)), d))
            &&& ry == m(Op::Mul(m(Op::Mul(uy, c)), d))
            &&& !c.nan() ==> nearest(5, 100).below(c)
            &&& !d.nan() ==> !d.negative()
            &&& !rx.nan() ==> !c.nan() && !d.nan() && rx.negative() == ux.negative()
            &&& !ry.nan() ==> !c.nan() && !d.nan() && ry.negative() == uy.negative()
        }),
{
    law_swipe_is_the_recent_movement(m, samples, cfg);
    lemma_thresholds();
    let s = swipe(m, samples, now, cfg)->0;
    lemma_signs(trust(m, samples, now, cfg));
    lemma_signs(start_speed(m, s.speed, cfg));
    lemma_signs(s.speed);
}

proof fn lemma_confidence_falls(m: Arith, young: u64, old_age: u64, limit_ms: u64)
    requires
        keeps_order(m),
        young <= old_age,
        limit_ms > 0,
    ensures
        confidence(m, old_age, limit_ms).at_most(confidence(m, young, limit_ms)),
        Binary32::zero().at_most(confidence(m, old_age, limit_ms)),
        confidence(m, young, limit_ms).at_most(nearest(1, 1)),
{
    lemma_thresholds();
    lemma_positive_integer(1000);
    lemma_positive_integer(limit_ms as int);
    let (a, b) = (m(Op::Seconds(young)), m(Op::Seconds(old_age)));
    assert(a.at_most(b));
    let k = nearest(1000, 1);
    let (p, q) = (m(Op::Mul(a, k)), m(Op::Mul(b, k)));
    assert(p.at_most(q));
    let l = nearest(limit_ms as int, 1);
    let (x, y) = (m(Op::Div(p, l)), m(Op::Div(q, l)));
    assert(x.at_most(y));
    let one = nearest(1, 1);
    assert(m(Op::Sub(one, y)).at_most(m(Op::Sub(one, x))));
}

/// The speed of a velocity.
pub open spec fn speed_of(m: Arith, v: (Binary32, Binary32)) -> Binary32 {
    m(Op::Hypot(v.0, v.1))
}

/// Waiting before the lift never helps: a finger lifted later glides only where
/// one lifted earlier does too, and then starts no faster. How fast a glide
/// starts is its start speed; the velocity is that of the swipe brought to it,
/// and where rounding puts its own speed at most `error` off, it too is no
/// faster but for that.
pub proof fn law_waiting_never_helps(
    m: Arith,
    samples: Seq<Sample>,
    early: u64,
    late: u64,
    cfg: Config,
    error: int,
)
    requires
        keeps_order(m),
        early <= late,
        cfg.max_sample_staleness_ms > 0,
        cfg.speeds_in_order(),
        Binary32::zero().at_most(cfg.trackpad_to_pixel),
        Binary32::zero().at_most(cfg.release_gain),
        slopes(m, samples.skip(last_swipe(m, samples, cfg).0)) matches Some(u) ==> !u.0.nan()
            && !u.1.nan(),
        swipe(m, samples, early, cfg) matches Some(s) ==> {
            &&& multiplies(s.speed, cfg.trackpad_to_pixel)
            &&& multiplies(m(Op::Mul(s.speed, cfg.trackpad_to_pixel)), cfg.release_gain)
        },
    ensures
        swipe(m, samples, late, cfg) matches Some(l) ==> {
            &&& swipe(m, samples, early, cfg) matches Some(e)
            &&& l.speed.at_most(e.speed)
            &&& start_speed(m, l.speed, cfg).at_most(start_speed(m, e.speed, cfg))
            &&& ({
                let (v, w) = (start_velocity(m, l, cfg), start_velocity(m, e, cfg));
                let (x, y) = (speed_of(m, v).value(), speed_of(m, w).value());
                distance(x, start_speed(m, l.speed, cfg).value()) <= error && distance(
                    y,
                    start_speed(m, e.speed, cfg).value(),
                ) <= error ==> x <= y + 2 * error
            })
        },
        release_velocity(m, samples, late, cfg) is Some ==> release_velocity(
            m,
            samples,
            early,
            cfg,
        ) is Some,
{
    if swipe(m, samples, late, cfg) is Some {
        lemma_thresholds();
        let newest = samples.last().t;
        let (c, d) = (trust(m, samples, late, cfg), trust(m, samples, early, cfg));
        lemma_confidence_falls(
            m,
            time_between(early, newest),
            time_between(late, newest),
            cfg.max_sample_staleness_ms,
        );
        assert(c.at_most(d));
        lemma_rank_orders(c, nearest(1, 1));
        lemma_rank_orders(d, nearest(1, 1));
        lemma_rank_orders(c, Binary32::zero());
        lemma_rank_orders(d, Binary32::zero());
        let (start, travel) = last_swipe(m, samples, cfg);
        let (ux, uy) = slopes(m, samples.skip(start))->0;
        let (lx, ly) = (m(Op::Mul(ux, c)), m(Op::Mul(uy, c)));
        let (ex, ey) = (m(Op::Mul(ux, d)), m(Op::Mul(uy, d)));
        assert(lx.size().at_most(ex.size()));
        assert(ly.size().at_most(ey.size()));
        let (l, e) = (m(Op::Hypot(lx, ly)), m(Op::Hypot(ex, ey)));
        assert(l.at_most(e));
        assert(swipe(m, samples, early, cfg) == Some(Swipe { vx: ex, vy: ey, speed: e }));
        let p = cfg.trackpad_to_pixel;
        let (a, b) = (m(Op::Mul(l, p)), m(Op::Mul(e, p)));
        assert(a.at_most(b));
        assert(m(Op::Mul(a, cfg.release_gain)).at_most(m(Op::Mul(b, cfg.release_gain))));
    }
}

/// The samples of the path mirrored left to right.
pub open spec fn mirrored_x(samples: Seq<Sample>) -> Seq<Sample> {
    Seq::new(
        samples.len(),
        |i: int| Sample { x: samples[i].x.opposite(), y: samples[i].y, t: samples[i].t },
    )
}

/// The samples of the path mirrored top to bottom.
pub open spec fn mirrored_y(samples: Seq<Sample>) -> Seq<Sample> {
    Seq::new(
        samples.len(),
        |i: int| Sample { x: samples[i].x, y: samples[i].y.opposite(), t: samples[i].t },
    )
}

/// The samples of the path with its axes exchanged.
pub open spec fn exchanged(samples: Seq<Sample>) -> Seq<Sample> {
    Seq::new(
        samples.len(),
        |i: int| Sample { x: samples[i].y, y: samples[i].x, t: samples[i].t },
    )
}

/// Samples taken at the same times, with the same distances from one to the next.
spec fn same_legs(m: Arith, a: Seq<Sample>, b: Seq<Sample>) -> bool {
    &&& a.len() == b.len()
    &&& forall|i: int| 0 <= i < a.len() ==> (#[trigger] a[i]).t == b[i].t
    &&& forall|i: int|
        0 < i < a.len() ==> (#[trigger] leg(m, a[i], a[i - 1])).alike(leg(m, b[i], b[i - 1]))
}

proof fn lemma_same_swipe(
    m: Arith,
    a: Seq<Sample>,
    b: Seq<Sample>,
    i: int,
    p: Binary32,
    q: Binary32,
    cfg: Config,
)
    requires
        symmetric(m),
        same_legs(m, a, b),
        i < a.len(),
        p.alike(q),
    ensures
        ({
            let (j, x) = swipe_from(m, a, i, p, cfg);
            let (k, y) = swipe_from(m, b, i, q, cfg);
            j == k && x.alike(y)
        }),
    decreases i,
{
    if i > 0 {
        let (x, y) = (leg(m, a[i], a[i - 1]), leg(m, b[i], b[i - 1]));
        assert(x.alike(y));
        assert(a[i].t == b[i].t && a[i - 1].t == b[i - 1].t);
        assert(a.last() == a[a.len() - 1] && b.last() == b[b.len() - 1]);
        assert(alike_ops(Op::Add(p, x), Op::Add(q, y)));
        lemma_same_swipe(m, a, b, i - 1, m(Op::Add(p, x)), m(Op::Add(q, y)), cfg);
    }
}

/// Two swipes of one speed are brought to the start speed by one factor.
proof fn lemma_same_scale(m: Arith, s: Swipe, r: Swipe, cfg: Config)
    requires
        symmetric(m),
        s.speed.alike(r.speed),
        !s.speed.below(nearest(1, 1)),
    ensures
        scale(m, s, cfg).alike(scale(m, r, cfg)),
{
    lemma_thresholds();
    let (a, b) = (
        m(Op::Mul(s.speed, cfg.trackpad_to_pixel)),
        m(Op::Mul(r.speed, cfg.trackpad_to_pixel)),
    );
    assert(cfg.trackpad_to_pixel.alike(cfg.trackpad_to_pixel));
    assert(cfg.release_gain.alike(cfg.release_gain));
    assert(alike_ops(
        Op::Mul(s.speed, cfg.trackpad_to_pixel),
        Op::Mul(r.speed, cfg.trackpad_to_pixel),
    ));
    assert(alike_ops(Op::Mul(a, cfg.release_gain), Op::Mul(b, cfg.release_gain)));
    let (x, y) = (start_speed(m, s.speed, cfg), start_speed(m, r.speed, cfg));
    assert(x.alike(y));
    assert(alike_ops(Op::Div(x, s.speed), Op::Div(y, r.speed)));
}

proof fn lemma_mirrored_leg(m: Arith, a: Sample, b: Sample, c: Sample, d: Sample)
    requires
        symmetric(m),
        c.x.mirrors(a.x),
        d.x.mirrors(b.x),
        c.y == a.y,
        d.y == b.y,
    ensures
        leg(m, a, b).alike(leg(m, c, d)),
{
    let (x, u) = (m(Op::Sub(a.x, b.x)), m(Op::Sub(c.x, d.x)));
    let y = m(Op::Sub(a.y, b.y));
    assert(mirrored_ops(Op::Sub(a.x, b.x), Op::Sub(c.x, d.x)));
    assert(alike_ops(Op::Square(x), Op::Square(u)));
    let (xx, uu, yy) = (m(Op::Square(x)), m(Op::Square(u)), m(Op::Square(y)));
    assert(alike_ops(Op::Add(xx, yy), Op::Add(uu, yy)));
    assert(alike_ops(Op::Sqrt(m(Op::Add(xx, yy))), Op::Sqrt(m(Op::Add(uu, yy)))));
}

proof fn lemma_mirrored_sums(m: Arith, samples: Seq<Sample>, n: int)
    requires
        symmetric(m),
        0 <= n <= samples.len(),
    ensures
        ({
            let a = sums(m, samples, n);
            let b = sums(m, mirrored_x(samples), n);
            &&& b.w == a.w && b.t == a.t && b.y == a.y && b.tt == a.tt && b.ty == a.ty
            &&& b.x.mirrors(a.x)
            &&& b.tx.mirrors(a.tx)
        }),
    decreases n,
{
    if n <= 0 {
        lemma_signs(Binary32::zero());
    } else {
        lemma_mirrored_sums(m, samples, n - 1);
        let a = sums(m, samples, n - 1);
        let b = sums(m, mirrored_x(samples), n - 1);
        let (s, r) = (samples[n - 1], mirrored_x(samples)[n - 1]);
        lemma_signs(s.x);
        let w = m(Op::Add(nearest(1, 1), nearest(n - 1, 1)));
        let t = m(Op::Seconds(time_between(s.t, samples[0].t)));
        let wt = m(Op::Mul(w, t));
        assert(mirrored_ops(Op::Mul(w, r.x), Op::Mul(w, s.x)));
        assert(mirrored_ops(Op::Mul(wt, r.x), Op::Mul(wt, s.x)));
        assert(mirrored_ops(
            Op::Add(b.x, m(Op::Mul(w, r.x))),
            Op::Add(a.x, m(Op::Mul(w, s.x))),
        ));
        assert(mirrored_ops(
            Op::Add(b.tx, m(Op::Mul(wt, r.x))),
            Op::Add(a.tx, m(Op::Mul(wt, s.x))),
        ));
    }
}

proof fn lemma_mirrored_slopes(m: Arith, samples: Seq<Sample>)
    requires
        symmetric(m),
    ensures
        ({
            let (a, b) = (slopes(m, samples), slopes(m, mirrored_x(samples)));
            &&& a is Some <==> b is Some
            &&& a is Some ==> {
                let ((ux, uy), (vx, vy)) = (a->0, b->0);
                vx.mirrors(ux) && vy == uy
            }
        }),
{
    let n = samples.len() as int;
    lemma_mirrored_sums(m, samples, n);
    let a = sums(m, samples, n);
    let b = sums(m, mirrored_x(samples), n);
    assert(mirrored_ops(Op::Mul(b.w, b.tx), Op::Mul(a.w, a.tx)));
    assert(mirrored_ops(Op::Mul(b.t, b.x), Op::Mul(a.t, a.x)));
    assert(mirrored_ops(
        Op::Sub(m(Op::Mul(b.w, b.tx)), m(Op::Mul(b.t, b.x))),
        Op::Sub(m(Op::Mul(a.w, a.tx)), m(Op::Mul(a.t, a.x))),
    ));
    let denom = cross(m, a.w, a.tt, a.t, a.t);
    assert(mirrored_ops(
        Op::Div(cross(m, b.w, b.tx, b.t, b.x), denom),
        Op::Div(cross(m, a.w, a.tx, a.t, a.x), denom),
    ));
}

/// Left and right are alike: where the path is mirrored, so is the glide, and
/// one follows exactly where the other does.
pub proof fn law_left_is_as_right(m: Arith, samples: Seq<Sample>, now: u64, cfg: Config)
    requires
        symmetric(m),
    ensures
        ({
            let a = release_velocity(m, samples, now, cfg);
            let b = release_velocity(m, mirrored_x(samples), now, cfg);
            &&& a is Some <==> b is Some
            &&& a is Some ==> {
                let ((ax, ay), (bx, by)) = (a->0, b->0);
                bx.mirrors(ax) && by.alike(ay)
            }
        }),
{
    if samples.len() >= 3 {
        let other = mirrored_x(samples);
        assert forall|i: int| 0 < i < samples.len() implies (#[trigger] leg(
            m,
            samples[i],
            samples[i - 1],
        )).alike(leg(m, other[i], other[i - 1])) by {
            lemma_signs(samples[i].x);
            lemma_signs(samples[i - 1].x);
            lemma_mirrored_leg(m, samples[i], samples[i - 1], other[i], other[i - 1]);
        }
        let z = Binary32::zero();
        lemma_same_swipe(m, samples, other, samples.len() - 1, z, z, cfg);
        law_swipe_is_the_recent_movement(m, samples, cfg);
        let (start, travel) = last_swipe(m, samples, cfg);
        assert(other.skip(start) =~= mirrored_x(samples.skip(start)));
        lemma_mirrored_slopes(m, samples.skip(start));
        let (ux, uy) = slopes(m, samples.skip(start))->0;
        let (vx, vy) = slopes(m, other.skip(start))->0;
        let c = trust(m, samples, now, cfg);
        assert(c == trust(m, other, now, cfg));
        if slopes(m, samples.skip(start)) is Some {
            assert(mirrored_ops(Op::Mul(vx, c), Op::Mul(ux, c)));
            let (px, py, qx) = (m(Op::Mul(ux, c)), m(Op::Mul(uy, c)), m(Op::Mul(vx, c)));
            assert(alike_ops(Op::Hypot(qx, py), Op::Hypot(px, py)));
            let s = Swipe { vx: px, vy: py, speed: m(Op::Hypot(px, py)) };
            let r = Swipe { vx: qx, vy: py, speed: m(Op::Hypot(qx, py)) };
            if !s.speed.below(nearest(1, 1)) {
                lemma_same_scale(m, s, r, cfg);
                let (d, e) = (scale(m, s, cfg), scale(m, r, cfg));
                assert(mirrored_ops(Op::Mul(qx, e), Op::Mul(px, d)));
                assert(alike_ops(Op::Mul(py, e), Op::Mul(py, d)));
            }
        }
    }
}

proof fn lemma_exchanged_sums(m: Arith, samples: Seq<Sample>, n: int)
    requires
        0 <= n <= samples.len(),
    ensures
        ({
            let a = sums(m, samples, n);
            let b = sums(m, exchanged(samples), n);
            &&& b.w == a.w && b.t == a.t && b.tt == a.tt
            &&& b.x == a.y && b.y == a.x && b.tx == a.ty && b.ty == a.tx
        }),
    decreases n,
{
    if n > 0 {
        lemma_exchanged_sums(m, samples, n - 1);
    }
}

/// Across and along are alike: where the axes of the path are exchanged, so are
/// those of the glide, and one follows exactly where the other does.
pub proof fn law_across_is_as_along(m: Arith, samples: Seq<Sample>, now: u64, cfg: Config)
    requires
        symmetric(m),
        commutative(m),
    ensures
        ({
            let a = release_velocity(m, samples, now, cfg);
            let b = release_velocity(m, exchanged(samples), now, cfg);
            &&& a is Some <==> b is Some
            &&& a is Some ==> {
                let ((ax, ay), (bx, by)) = (a->0, b->0);
                bx.alike(ay) && by.alike(ax)
            }
        }),
{
    if samples.len() >= 3 {
        let other = exchanged(samples);
        assert forall|i: int| 0 < i < samples.len() implies (#[trigger] leg(
            m,
            samples[i],
            samples[i - 1],
        )).alike(leg(m, other[i], other[i - 1])) by {
            let (a, b) = (samples[i], samples[i - 1]);
            let xx = m(Op::Square(m(Op::Sub(a.x, b.x))));
            let yy = m(Op::Square(m(Op::Sub(a.y, b.y))));
            assert(m(Op::Add(xx, yy)).alike(m(Op::Add(yy, xx))));
            assert(alike_ops(Op::Sqrt(m(Op::Add(xx, yy))), Op::Sqrt(m(Op::Add(yy, xx)))));
        }
        let z = Binary32::zero();
        lemma_same_swipe(m, samples, other, samples.len() - 1, z, z, cfg);
        law_swipe_is_the_recent_movement(m, samples, cfg);
        let (start, travel) = last_swipe(m, samples, cfg);
        assert(other.skip(start) =~= exchanged(samples.skip(start)));
        lemma_exchanged_sums(m, samples.skip(start), samples.skip(start).len() as int);
        let (ux, uy) = slopes(m, samples.skip(start))->0;
        let c = trust(m, samples, now, cfg);
        assert(c == trust(m, other, now, cfg));
        let (px, py) = (m(Op::Mul(ux, c)), m(Op::Mul(uy, c)));
        assert(m(Op::Hypot(py, px)).alike(m(Op::Hypot(px, py))));
        let s = Swipe { vx: px, vy: py, speed: m(Op::Hypot(px, py)) };
        let r = Swipe { vx: py, vy: px, speed: m(Op::Hypot(py, px)) };
        if !s.speed.below(nearest(1, 1)) {
            lemma_same_scale(m, s, r, cfg);
            let (d, e) = (scale(m, s, cfg), scale(m, r, cfg));
            assert(alike_ops(Op::Mul(px, e), Op::Mul(px, d)));
            assert(alike_ops(Op::Mul(py, e), Op::Mul(py, d)));
        }
    }
}

/// Up and down are alike: where the path is mirrored, so is the glide, and one
/// follows exactly where the other does.
pub proof fn law_up_is_as_down(m: Arith, samples: Seq<Sample>, now: u64, cfg: Config)
    requires
        symmetric(m),
        commutative(m),
    ensures
        ({
            let a = release_velocity(m, samples, now, cfg);
            let b = release_velocity(m, mirrored_y(samples), now, cfg);
            &&& a is Some <==> b is Some
            &&& a is Some ==> {
                let ((ax, ay), (bx, by)) = (a->0, b->0);
                bx.alike(ax) && by.mirrors(ay)
            }
        }),
{
    let turned = exchanged(samples);
    law_across_is_as_along(m, samples, now, cfg);
    law_left_is_as_right(m, turned, now, cfg);
    assert(exchanged(mirrored_y(samples)) =~= mirrored_x(turned));
    law_across_is_as_along(m, mirrored_y(samples), now, cfg);
}

/// No operation is rounded in the sums over the first `n` samples. The weights of
/// the samples, and their times in seconds, may be any numbers.
pub open spec fn exact_sums(m: Arith, samples: Seq<Sample>, n: int) -> bool
    decreases n,
{
    n <= 0 || {
        let b = sums(m, samples, n - 1);
        let s = samples[n - 1];
        let w = m(Op::Add(nearest(1, 1), nearest(n - 1, 1)));
        let t = m(Op::Seconds(time_between(s.t, samples[0].t)));
        let wt = m(Op::Mul(w, t));
        &&& exact_sums(m, samples, n - 1)
        &&& exact(m, Op::Mul(w, t)) && exact(m, Op::Mul(wt, t))
        &&& exact(m, Op::Mul(w, s.x)) && exact(m, Op::Mul(wt, s.x))
        &&& exact(m, Op::Mul(w, s.y)) && exact(m, Op::Mul(wt, s.y))
        &&& exact(m, Op::Add(b.w, w)) && exact(m, Op::Add(b.t, wt))
        &&& exact(m, Op::Add(b.x, m(Op::Mul(w, s.x))))
        &&& exact(m, Op::Add(b.y, m(Op::Mul(w, s.y))))
        &&& exact(m, Op::Add(b.tt, m(Op::Mul(wt, t))))
        &&& exact(m, Op::Add(b.tx, m(Op::Mul(wt, s.x))))
        &&& exact(m, Op::Add(b.ty, m(Op::Mul(wt, s.y))))
    }
}

pub open spec fn exact_cross(
    m: Arith,
    a: Binary32,
    b: Binary32,
    c: Binary32,
    d: Binary32,
) -> bool {
    &&& exact(m, Op::Mul(a, b))
    &&& exact(m, Op::Mul(c, d))
    &&& exact(m, Op::Sub(m(Op::Mul(a, b)), m(Op::Mul(c, d))))
}

/// No operation of the regression is rounded.
pub open spec fn exact_slopes(m: Arith, samples: Seq<Sample>) -> bool {
    let s = sums(m, samples, samples.len() as int);
    let denom = cross(m, s.w, s.tt, s.t, s.t);
    &&& exact_sums(m, samples, samples.len() as int)
    &&& exact_cross(m, s.w, s.tt, s.t, s.t)
    &&& exact_cross(m, s.w, s.tx, s.t, s.x)
    &&& exact_cross(m, s.w, s.ty, s.t, s.y)
    &&& exact(m, Op::Div(cross(m, s.w, s.tx, s.t, s.x), denom))
    &&& exact(m, Op::Div(cross(m, s.w, s.ty, s.t, s.y), denom))
}

/// A position on the line that is at `start` at first and has the given slope.
pub open spec fn on_line(place: Binary32, secs: Binary32, start: int, slope: int) -> bool {
    place.value() * pow2(149) == start * pow2(149) + slope * secs.value()
}

/// The samples lie on a straight path, run through at one speed: on each axis the
/// position is a place at first plus the velocity times the seconds since then.
pub open spec fn steady(
    m: Arith,
    samples: Seq<Sample>,
    from: (int, int),
    velocity: (int, int),
) -> bool {
    forall|i: int|
        0 <= i < samples.len() ==> {
            let s = #[trigger] samples[i];
            let secs = m(Op::Seconds(time_between(s.t, samples[0].t)));
            &&& on_line(s.x, secs, from.0, velocity.0)
            &&& on_line(s.y, secs, from.1, velocity.1)
        }
}

proof fn lemma_line_step(
    u: int,
    w: int,
    t: int,
    p: int,
    a: int,
    v: int,
    wt: int,
    wp: int,
    wtt: int,
    wtp: int,
)
    requires
        u > 0,
        wt * u == w * t,
        wp * u == w * p,
        wtt * u == wt * t,
        wtp * u == wt * p,
        p * u == a * u + v * t,
    ensures
        wp * u == a * w + v * wt,
        wtp * u == a * wt + v * wtt,
{
    lemma_line_product(u, w, t, p, a, v, wt, wp);
    lemma_line_product(u, wt, t, p, a, v, wtt, wtp);
}

proof fn lemma_line_product(u: int, w: int, t: int, p: int, a: int, v: int, wt: int, wp: int)
    requires
        u > 0,
        wt * u == w * t,
        wp * u == w * p,
        p * u == a * u + v * t,
    ensures
        wp * u == a * w + v * wt,
{
    assert((wp * u) * u == w * (p * u)) by (nonlinear_arith)
        requires
            wp * u == w * p,
    ;
    assert(w * (a * u + v * t) == (a * w) * u + v * (w * t)) by (nonlinear_arith);
    assert((a * w) * u + v * (wt * u) == (a * w + v * wt) * u) by (nonlinear_arith);
    assert(wp * u == a * w + v * wt) by (nonlinear_arith)
        requires
            u > 0,
            (wp * u) * u == (a * w + v * wt) * u,
    ;
}

proof fn lemma_line_sums(
    m: Arith,
    samples: Seq<Sample>,
    n: int,
    from: (int, int),
    velocity: (int, int),
)
    requires
        0 <= n <= samples.len(),
        exact_sums(m, samples, n),
        steady(m, samples, from, velocity),
    ensures
        ({
            let u = pow2(149) as int;
            let s = sums(m, samples, n);
            let (w, t, tt) = (s.w.value(), s.t.value(), s.tt.value());
            &&& s.x.value() * u == from.0 * w + velocity.0 * t
            &&& s.y.value() * u == from.1 * w + velocity.1 * t
            &&& s.tx.value() * u == from.0 * t + velocity.0 * tt
            &&& s.ty.value() * u == from.1 * t + velocity.1 * tt
        }),
    decreases n,
{
    let u = pow2(149) as int;
    let (a, b) = from;
    let (v, z) = velocity;
    lemma_pow2_pos(149);
    if n <= 0 {
        assert(Binary32::zero().value() == 0);
        assert(0 * u == a * 0 + v * 0 && 0 * u == b * 0 + z * 0) by (nonlinear_arith);
    } else {
        lemma_line_sums(m, samples, n - 1, from, velocity);
        let o = sums(m, samples, n - 1);
        let s = samples[n - 1];
        let w = m(Op::Add(nearest(1, 1), nearest(n - 1, 1)));
        let t = m(Op::Seconds(time_between(s.t, samples[0].t)));
        let wt = m(Op::Mul(w, t));
        let wtt = m(Op::Mul(wt, t));
        let (wx, wy) = (m(Op::Mul(w, s.x)), m(Op::Mul(w, s.y)));
        let (wtx, wty) = (m(Op::Mul(wt, s.x)), m(Op::Mul(wt, s.y)));
        lemma_line_step(
            u,
            w.value(),
            t.value(),
            s.x.value(),
            a,
            v,
            wt.value(),
            wx.value(),
            wtt.value(),
            wtx.value(),
        );
        lemma_line_step(
            u,
            w.value(),
            t.value(),
            s.y.value(),
            b,
            z,
            wt.value(),
            wy.value(),
            wtt.value(),
            wty.value(),
        );
        lemma_line_add(
            u,
            a,
            v,
            o.x.value(),
            o.w.value(),
            o.t.value(),
            wx.value(),
            w.value(),
            wt.value(),
        );
        lemma_line_add(
            u,
            b,
            z,
            o.y.value(),
            o.w.value(),
            o.t.value(),
            wy.value(),
            w.value(),
            wt.value(),
        );
        lemma_line_add(
            u,
            a,
            v,
            o.tx.value(),
            o.t.value(),
            o.tt.value(),
            wtx.value(),
            wt.value(),
            wtt.value(),
        );
        lemma_line_add(
            u,
            b,
            z,
            o.ty.value(),
            o.t.value(),
            o.tt.value(),
            wty.value(),
            wt.value(),
            wtt.value(),
        );
    }
}

proof fn lemma_line_add(
    u: int,
    a: int,
    v: int,
    p: int,
    w: int,
    t: int,
    q: int,
    x: int,
    y: int,
)
    requires
        p * u == a * w + v * t,
        q * u == a * x + v * y,
    ensures
        (p + q) * u == a * (w + x) + v * (t + y),
{
    assert((p + q) * u == p * u + q * u) by (nonlinear_arith);
    assert(a * (w + x) + v * (t + y) == (a * w + v * t) + (a * x + v * y)) by (nonlinear_arith);
}

/// The slope `r` is that of the line: `p` and `tp` are the sums of the positions,
/// `d` is the denominator and `n` the numerator of the slope.
proof fn lemma_line_slope(
    u: int,
    a: int,
    v: int,
    w: int,
    t: int,
    tt: int,
    p: int,
    tp: int,
    d: int,
    n: int,
    r: int,
)
    requires
        u > 0,
        p * u == a * w + v * t,
        tp * u == a * t + v * tt,
        d * u == w * tt - t * t,
        n * u == w * tp - t * p,
        d != 0,
        r * d == n * u,
    ensures
        r == v,
{
    assert((n * u) * u == w * (tp * u) - t * (p * u)) by (nonlinear_arith)
        requires
            n * u == w * tp - t * p,
    ;
    assert(w * (a * t + v * tt) - t * (a * w + v * t) == v * (w * tt - t * t)) by (nonlinear_arith);
    assert(v * (d * u) == (v * d) * u) by (nonlinear_arith);
    assert(n * u == v * d) by (nonlinear_arith)
        requires
            u > 0,
            (n * u) * u == (v * d) * u,
    ;
    assert(r == v) by (nonlinear_arith)
        requires
            r * d == v * d,
            d != 0,
    ;
}

proof fn lemma_exact_cross(m: Arith, a: Binary32, b: Binary32, c: Binary32, d: Binary32)
    requires
        exact_cross(m, a, b, c, d),
    ensures
        cross(m, a, b, c, d).value() * pow2(149) == a.value() * b.value() - c.value() * d.value(),
{
    let u = pow2(149) as int;
    let (x, y) = (m(Op::Mul(a, b)).value(), m(Op::Mul(c, d)).value());
    assert((x - y) * u == x * u - y * u) by (nonlinear_arith);
}

/// The regression gives the velocity of a steady movement: where no operation is
/// rounded, samples on a straight path run through at one speed give that speed on
/// either axis, wherever the path begins and however the samples are spaced.
pub proof fn law_regression_finds_the_velocity(
    m: Arith,
    samples: Seq<Sample>,
    from: (int, int),
    velocity: (int, int),
)
    requires
        exact_slopes(m, samples),
        steady(m, samples, from, velocity),
    ensures
        slopes(m, samples) matches Some(u) ==> {
            &&& u.0.finite() && u.0.value() == velocity.0
            &&& u.1.finite() && u.1.value() == velocity.1
        },
{
    let u = pow2(149) as int;
    let s = sums(m, samples, samples.len() as int);
    let (nx, ny) = (cross(m, s.w, s.tx, s.t, s.x), cross(m, s.w, s.ty, s.t, s.y));
    let d = cross(m, s.w, s.tt, s.t, s.t);
    lemma_pow2_pos(149);
    lemma_line_sums(m, samples, samples.len() as int, from, velocity);
    lemma_exact_cross(m, s.w, s.tt, s.t, s.t);
    lemma_exact_cross(m, s.w, s.tx, s.t, s.x);
    lemma_exact_cross(m, s.w, s.ty, s.t, s.y);
    lemma_line_slope(
        u,
        from.0,
        velocity.0,
        s.w.value(),
        s.t.value(),
        s.tt.value(),
        s.x.value(),
        s.tx.value(),
        d.value(),
        nx.value(),
        m(Op::Div(nx, d)).value(),
    );
    lemma_line_slope(
        u,
        from.1,
        velocity.1,
        s.w.value(),
        s.t.value(),
        s.tt.value(),
        s.y.value(),
        s.ty.value(),
        d.value(),
        ny.value(),
        m(Op::Div(ny, d)).value(),
    );
}

/// The velocity that a glide starts with is within the limits: its speed is at
/// least the slowest and at most the fastest start, but for what rounding puts it
/// off the start speed.
pub proof fn law_glides_start_within_the_limits(
    m: Arith,
    samples: Seq<Sample>,
    now: u64,
    cfg: Config,
    error: int,
)
    requires
        cfg.speeds_in_order(),
        swipe(m, samples, now, cfg) is Some,
        ({
            let wanted = start_speed(m, (swipe(m, samples, now, cfg)->0).speed, cfg);
            let given = speed_of(m, release_velocity(m, samples, now, cfg)->0);
            !wanted.nan() && distance(given.value(), wanted.value()) <= error
        }),
    ensures
        ({
            let given = speed_of(m, release_velocity(m, samples, now, cfg)->0);
            cfg.start_speed_min.value() - error <= given.value() <= cfg.start_speed_max.value()
                + error
        }),
{
}

/// No operation is rounded that brings a swipe to the start speed.
pub open spec fn exact_start(m: Arith, s: Swipe, cfg: Config) -> bool {
    let d = scale(m, s, cfg);
    let (vx, vy) = start_velocity(m, s, cfg);
    &&& exact(m, Op::Hypot(s.vx, s.vy))
    &&& exact(m, Op::Div(start_speed(m, s.speed, cfg), s.speed))
    &&& exact(m, Op::Mul(s.vx, d))
    &&& exact(m, Op::Mul(s.vy, d))
    &&& exact(m, Op::Hypot(vx, vy))
}

/// A glide starts with the start speed: where no operation is rounded, that is the
/// speed of its velocity.
pub proof fn law_start_velocity_has_the_start_speed(m: Arith, s: Swipe, cfg: Config)
    requires
        exact_start(m, s, cfg),
        s.speed == m(Op::Hypot(s.vx, s.vy)),
        Binary32::zero().at_most(start_speed(m, s.speed, cfg)),
    ensures
        speed_of(m, start_velocity(m, s, cfg)).same(start_speed(m, s.speed, cfg)),
{
    let u = pow2(149) as int;
    lemma_pow2_pos(149);
    let (a, b, h) = (s.vx.value(), s.vy.value(), s.speed.value());
    let (x, y) = start_velocity(m, s, cfg);
    let (p, q, d) = (x.value(), y.value(), scale(m, s, cfg).value());
    let (t, r) = (
        start_speed(m, s.speed, cfg).value(),
        speed_of(m, start_velocity(m, s, cfg)).value(),
    );
    assert((r * u) * (r * u) == (p * u) * (p * u) + (q * u) * (q * u)) by (nonlinear_arith)
        requires
            r * r == p * p + q * q,
    ;
    assert((a * d) * (a * d) + (b * d) * (b * d) == (d * h) * (d * h)) by (nonlinear_arith)
        requires
            h * h == a * a + b * b,
    ;
    assert((r * u) * (r * u) == (t * u) * (t * u));
    assert(r == t) by (nonlinear_arith)
        requires
            (r * u) * (r * u) == (t * u) * (t * u),
            r >= 0,
            t >= 0,
            u > 0,
    ;
}

/// Movement that is too old stays too old: where a newest sample of some age counts
/// for too little, no glide follows one that is as old or older.
pub proof fn law_too_old_stays_too_old(
    m: Arith,
    samples: Seq<Sample>,
    age: u64,
    now: u64,
    cfg: Config,
)
    requires
        keeps_order(m),
        cfg.max_sample_staleness_ms > 0,
        confidence(m, age, cfg.max_sample_staleness_ms).at_most(nearest(5, 100)),
        age <= time_between(now, samples.last().t),
    ensures
        release_velocity(m, samples, now, cfg) is None,
{
    lemma_confidence_falls(
        m,
        age,
        time_between(now, samples.last().t),
        cfg.max_sample_staleness_ms,
    );
}

/// The age of a sample at the limit, in nanoseconds.
pub open spec fn age_limit(limit_ms: u64) -> int {
    limit_ms * 1_000_000
}

/// Nothing glides at the limit or beyond it, where a sample that is as old as the
/// limit counts for too little.
pub proof fn law_no_glide_beyond_the_limit(m: Arith, samples: Seq<Sample>, now: u64, cfg: Config)
    requires
        keeps_order(m),
        cfg.max_sample_staleness_ms > 0,
        age_limit(cfg.max_sample_staleness_ms) <= u64::MAX,
        confidence(
            m,
            age_limit(cfg.max_sample_staleness_ms) as u64,
            cfg.max_sample_staleness_ms,
        ).at_most(nearest(5, 100)),
        age_limit(cfg.max_sample_staleness_ms) <= time_between(now, samples.last().t),
    ensures
        release_velocity(m, samples, now, cfg) is None,
{
    law_too_old_stays_too_old(
        m,
        samples,
        age_limit(cfg.max_sample_staleness_ms) as u64,
        now,
        cfg,
    );
}

/// No operation is rounded that weighs a sample by its age.
pub open spec fn exact_confidence(m: Arith, age: u64, limit_ms: u64) -> bool {
    let secs = m(Op::Seconds(age));
    let age_ms = m(Op::Mul(secs, nearest(1000, 1)));
    let used = m(Op::Div(age_ms, nearest(limit_ms as int, 1)));
    &&& exact(m, Op::Seconds(age))
    &&& exact(m, Op::Mul(secs, nearest(1000, 1)))
    &&& exact(m, Op::Div(age_ms, nearest(limit_ms as int, 1)))
    &&& exact(m, Op::Sub(nearest(1, 1), used))
}

/// A new sample counts in full and one at the limit not at all; in between the
/// confidence falls in a straight line. This holds where no operation is rounded
/// and the limit is one of the integers that are held exactly.
pub proof fn law_confidence_falls_to_nothing(m: Arith, age: u64, limit_ms: u64)
    requires
        exact_confidence(m, age, limit_ms),
        0 < limit_ms <= 0x100_0000,
    ensures
        ({
            let c = confidence(m, age, limit_ms);
            let one = nearest(1, 1).value();
            &&& !c.nan()
            &&& age <= age_limit(limit_ms) ==> c.value() * age_limit(limit_ms) == one * (age_limit(
                limit_ms,
            ) - age)
            &&& age == 0 ==> c.same(nearest(1, 1))
            &&& age >= age_limit(limit_ms) ==> c.same(Binary32::zero())
        }),
{
    let u = pow2(149) as int;
    lemma_pow2_pos(149);
    lemma_thresholds();
    law_small_integers_are_exact(1);
    law_small_integers_are_exact(1000);
    law_small_integers_are_exact(limit_ms as int);
    let secs = m(Op::Seconds(age));
    let age_ms = m(Op::Mul(secs, nearest(1000, 1)));
    let used = m(Op::Div(age_ms, nearest(limit_ms as int, 1)));
    let (s, g, r) = (secs.value(), age_ms.value(), used.value());
    let (l, k) = (limit_ms as int, age_limit(limit_ms));
    assert(g == s * 1000) by (nonlinear_arith)
        requires
            g * u == s * (1000 * u),
            u > 0,
    ;
    assert(g * 1_000_000 == age * u);
    assert(r * l == g) by (nonlinear_arith)
        requires
            r * (l * u) == g * u,
            u > 0,
    ;
    assert(r * k == age * u) by (nonlinear_arith)
        requires
            r * l == g,
            g * 1_000_000 == age * u,
            k == l * 1_000_000,
    ;
    let left = m(Op::Sub(nearest(1, 1), used)).value();
    assert(left == u - r);
    assert(left * k == u * (k - age)) by (nonlinear_arith)
        requires
            left == u - r,
            r * k == age * u,
    ;
    if age <= k {
        assert(0 <= left <= u) by (nonlinear_arith)
            requires
                left * k == u * (k - age),
                0 <= age <= k,
                k > 0,
                u > 0,
        ;
    } else {
        assert(left < 0) by (nonlinear_arith)
            requires
                left * k == u * (k - age),
                age > k,
                k > 0,
                u > 0,
        ;
    }
    if age == 0 {
        assert(left == u) by (nonlinear_arith)
            requires
                left * k == u * k,
                k > 0,
        ;
    } else if age == k {
        assert(left == 0) by (nonlinear_arith)
            requires
                left * k == u * 0,
                k > 0,
        ;
    }
}

} // verus!
