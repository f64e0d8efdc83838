//! What looking at the fingers and letting time pass do, field by field.
//!
//! Moments are nanoseconds. Values count units of 2^-149, of which `pow2(149)` make up
//! 1. Where a law speaks of an error, no operation is more than that many units off
//! the result in real numbers; an error of 0 means that nothing is rounded.

use crate::arith::{mirrored_ops, near, symmetric, Arith, Op};
use crate::binary32::{
    distance, law_small_integers_are_exact, law_whole_part_is_not_beyond,
    law_whole_part_stays_in_range, lemma_rank_orders, lemma_signs, lemma_spells, magnitude, nearest,
    Binary32,
};
use crate::config::Config;
use crate::motion::{law_pruning_drops_the_oldest, release_velocity, stale, Sample};
use crate::release_laws::law_pruning_goes_by_age;
use crate::state::{
    inertia_after, left_over, moved, pixels, pixels_after, starts_glide, step_seconds,
    updated, updated_all, InertiaState, State,
};
use crate::touch::{fingers, sole, Slots};
use vstd::arithmetic::div_mod::{
    lemma_div_multiples_vanish, lemma_fundamental_div_mod, lemma_mod_bound,
};
use vstd::arithmetic::power2::{lemma2_to64, lemma2_to64_rest, lemma_pow2_pos, pow2};
use vstd::prelude::*;

verus! {

/// No glide: nothing moves and nothing is owed.
pub open spec fn at_rest(i: InertiaState) -> bool {
    &&& !i.active
    &&& i.vx.bits == 0 && i.vy.bits == 0
    &&& i.acc_x.bits == 0 && i.acc_y.bits == 0
}

/// A look counts the fingers anew, remembers how many there were, and leaves the slots
/// as they are.
pub proof fn law_looks_count_the_fingers(m: Arith, s: State, now: u64, cfg: Config)
    ensures
        updated(m, s, now, cfg).slots == s.slots,
        updated(m, s, now, cfg).finger_count == fingers(s.slots),
        updated(m, s, now, cfg).prev_finger_count == s.finger_count,
{
}

/// A grace period is set where several fingers become one, and lasts for the set
/// number of milliseconds from then on. It is dropped where a finger is put down on
/// the empty trackpad, and stays as it is at any other look.
pub proof fn law_gestures_set_the_grace_period(m: Arith, s: State, now: u64, cfg: Config)
    ensures
        ({
            let (before, count) = (s.finger_count, fingers(s.slots));
            let until = updated(m, s, now, cfg).suppress_until;
            &&& before > 1 && count == 1 ==> until is Some && until->0 == now + cfg.grace_ms
                * 1_000_000
            &&& before == 0 && count > 0 ==> until is None
            &&& !(before > 1 && count == 1) && !(before == 0 && count > 0) ==> until
                == s.suppress_until
        }),
{
}

/// A look stops any glide while a finger is down. Where the only finger has left, it
/// starts one with the velocity that the samples give, if they give one and no grace
/// period is on; else there is none. At any other look the glide stays as it is.
pub proof fn law_lifts_start_glides(m: Arith, s: State, now: u64, cfg: Config)
    ensures
        ({
            let (before, count) = (s.finger_count, fingers(s.slots));
            let i = updated(m, s, now, cfg).inertia;
            let blocked = s.suppress_until matches Some(t) && now < t;
            &&& count > 0 ==> at_rest(i)
            &&& count == 0 && before == 1 ==> match release_velocity(m, s.samples, now, cfg) {
                Some(v) => if blocked {
                    at_rest(i)
                } else {
                    &&& i.active
                    &&& i.vx == v.0 && i.vy == v.1
                    &&& i.acc_x.bits == 0 && i.acc_y.bits == 0
                },
                None => at_rest(i),
            }
            &&& count == 0 && before != 1 ==> i == s.inertia
        }),
{
}

/// A look takes a sample of a single finger, outside a grace period, if it is not
/// where the newest sample has it, and then drops the samples that are too old. The
/// samples before that are forgotten where the finger was just put down or is what is
/// left of a gesture, and also where it is lifted in a grace period. At any other look
/// the samples stay as they are.
pub proof fn law_looks_take_samples(m: Arith, s: State, now: u64, cfg: Config)
    ensures
        ({
            let (before, count) = (s.finger_count, fingers(s.slots));
            let after = updated(m, s, now, cfg);
            let blocked = after.suppress_until matches Some(t) && now < t;
            let known = if count > 0 && before == 0 || before > 1 && count == 1 {
                Seq::<Sample>::empty()
            } else {
                s.samples
            };
            let (x, y) = sole(s.slots)->0;
            let resting = {
                &&& known.len() > 0
                &&& !x.nan() && !known.last().x.nan() && known.last().x.value() == x.value()
                &&& !y.nan() && !known.last().y.nan() && known.last().y.value() == y.value()
            };
            if count == 1 && !blocked && !resting {
                let all = known.push(Sample { x, y, t: now });
                let n = all.len() - after.samples.len();
                &&& 0 <= n < all.len()
                &&& after.samples == all.skip(n)
                &&& forall|i: int|
                    0 <= i < n ==> (#[trigger] all[i]).t + (cfg.sample_window_ms + 1) * 1_000_000
                        <= now
                &&& now < after.samples[0].t + (cfg.sample_window_ms + 1) * 1_000_000
            } else if count == 0 && before == 1 && blocked {
                after.samples == Seq::<Sample>::empty()
            } else {
                after.samples == known
            }
        }),
{
    let (before, count) = (s.finger_count, fingers(s.slots));
    let known = if count > 0 && before == 0 || before > 1 && count == 1 {
        Seq::<Sample>::empty()
    } else {
        s.samples
    };
    let (x, y) = sole(s.slots)->0;
    let all = known.push(Sample { x, y, t: now });
    law_pruning_goes_by_age(all, now, cfg.sample_window_ms);
    law_pruning_drops_the_oldest(all, now, cfg.sample_window_ms);
    if stale(all, now, cfg.sample_window_ms) == all.len() {
        assert(all[all.len() - 1].t == now);
    }
}

proof fn lemma_held_through_looks(
    m: Arith,
    s: State,
    start: u64,
    looks: Seq<(Slots, u64)>,
    cfg: Config,
)
    requires
        s.finger_count > 1,
        fingers(s.slots) == 1,
        forall|i: int| 0 <= i < looks.len() ==> fingers((#[trigger] looks[i]).0) == 1,
    ensures
        ({
            let held = updated_all(m, updated(m, s, start, cfg), looks, cfg);
            let end = start + cfg.grace_ms * 1_000_000;
            &&& held.finger_count == 1
            &&& held.suppress_until is Some && held.suppress_until->0 == end
            &&& at_rest(held.inertia)
            &&& held.samples.len() == 0 <==> start < end && forall|i: int|
                0 <= i < looks.len() ==> (#[trigger] looks[i]).1 < end
        }),
    decreases looks.len(),
{
    let first = updated(m, s, start, cfg);
    let end = start + cfg.grace_ms * 1_000_000;
    law_looks_count_the_fingers(m, s, start, cfg);
    law_gestures_set_the_grace_period(m, s, start, cfg);
    law_lifts_start_glides(m, s, start, cfg);
    law_looks_take_samples(m, s, start, cfg);
    if looks.len() > 0 {
        let fewer = looks.drop_last();
        assert forall|i: int| 0 <= i < fewer.len() implies fingers((#[trigger] fewer[i]).0) == 1 by {
            assert(fewer[i] == looks[i]);
        }
        lemma_held_through_looks(m, s, start, fewer, cfg);
        let before = updated_all(m, first, fewer, cfg);
        let (slots, now) = looks.last();
        assert(looks[looks.len() - 1] == looks.last());
        let seen = State { slots, ..before };
        law_looks_count_the_fingers(m, seen, now, cfg);
        law_gestures_set_the_grace_period(m, seen, now, cfg);
        law_lifts_start_glides(m, seen, now, cfg);
        law_looks_take_samples(m, seen, now, cfg);
        if start < end && (forall|i: int| 0 <= i < looks.len() ==> (#[trigger] looks[i]).1 < end) {
            assert forall|i: int| 0 <= i < fewer.len() implies (#[trigger] fewer[i]).1 < end by {
                assert(fewer[i] == looks[i]);
            }
        }
        if start < end && now < end && (forall|i: int|
            0 <= i < fewer.len() ==> (#[trigger] fewer[i]).1 < end) {
            assert forall|i: int| 0 <= i < looks.len() implies (#[trigger] looks[i]).1 < end by {
                if i < fewer.len() {
                    assert(fewer[i] == looks[i]);
                }
            }
        }
    }
}

/// The grace period after a gesture lasts for the set number of milliseconds, neither
/// more nor less. While the finger that is left stays down, no sample is taken at any
/// look before the period is over, and one is at the first look from then on. Lifted
/// before that the finger starts no glide; lifted later it starts one exactly where
/// the samples give a velocity, and with that.
pub proof fn law_grace_period_lasts_as_set(
    m: Arith,
    s: State,
    start: u64,
    looks: Seq<(Slots, u64)>,
    lifted: Slots,
    end: u64,
    cfg: Config,
)
    requires
        s.finger_count > 1,
        fingers(s.slots) == 1,
        forall|i: int| 0 <= i < looks.len() ==> fingers((#[trigger] looks[i]).0) == 1,
        fingers(lifted) == 0,
    ensures
        ({
            let held = updated_all(m, updated(m, s, start, cfg), looks, cfg);
            let after = updated(m, State { slots: lifted, ..held }, end, cfg);
            let grace = cfg.grace_ms * 1_000_000;
            &&& held.samples.len() == 0 <==> grace > 0 && forall|i: int|
                0 <= i < looks.len() ==> (#[trigger] looks[i]).1 - start < grace
            &&& end - start < grace ==> at_rest(after.inertia) && after.samples.len() == 0
            &&& end - start >= grace ==> match release_velocity(m, held.samples, end, cfg) {
                Some(v) => after.inertia.active && (after.inertia.vx, after.inertia.vy) == v,
                None => at_rest(after.inertia),
            }
        }),
{
    lemma_held_through_looks(m, s, start, looks, cfg);
    let held = updated_all(m, updated(m, s, start, cfg), looks, cfg);
    let seen = State { slots: lifted, ..held };
    law_lifts_start_glides(m, seen, end, cfg);
    law_gestures_set_the_grace_period(m, seen, end, cfg);
    law_looks_take_samples(m, seen, end, cfg);
    let grace = cfg.grace_ms * 1_000_000;
    if grace > 0 && (forall|i: int|
        0 <= i < looks.len() ==> (#[trigger] looks[i]).1 - start < grace) {
        assert forall|i: int| 0 <= i < looks.len() implies (#[trigger] looks[i]).1 < start + grace by {}
    }
    if forall|i: int| 0 <= i < looks.len() ==> (#[trigger] looks[i]).1 < start + grace {
        assert forall|i: int| 0 <= i < looks.len() implies (#[trigger] looks[i]).1 - start < grace by {}
    }
}

/// That a look will start a glide can be told beforehand, whatever glide there is now:
/// it is where the look would start one from rest.
pub proof fn law_glides_are_foreseen(m: Arith, s: State, now: u64, cfg: Config)
    ensures
        ({
            let o = Binary32 { bits: 0 };
            let rest = InertiaState { active: false, vx: o, vy: o, acc_x: o, acc_y: o };
            starts_glide(m, s, now, cfg) <==> updated(
                m,
                State { inertia: rest, ..s },
                now,
                cfg,
            ).inertia.active
        }),
{
}

/// When the pointer stands still: there is no glide, a finger is down, a grace period
/// is on, or the glide is slower than the least speed. A finger or a grace period
/// takes away the velocity, a glide that is too slow keeps it on record.
pub proof fn law_pointer_stands_still(m: Arith, s: State, span: u64, now: u64, cfg: Config)
    ensures
        ({
            let (before, after) = (s.inertia, inertia_after(m, s, span, now, cfg));
            let step = pixels_after(m, s, span, now, cfg);
            let blocked = s.suppress_until matches Some(t) && now < t;
            let speed = m(Op::Hypot(before.vx, before.vy));
            let fast = !speed.nan() && !cfg.min_speed.nan() && speed.value()
                >= cfg.min_speed.value();
            &&& step is Some <==> s.finger_count == 0 && before.active && !blocked && fast
            &&& s.finger_count > 0 ==> at_rest(after)
            &&& s.finger_count == 0 && !before.active ==> after == before
            &&& s.finger_count == 0 && before.active && blocked ==> at_rest(after)
            &&& s.finger_count == 0 && before.active && !blocked && !fast ==> {
                &&& !after.active
                &&& after.vx == before.vx && after.vy == before.vy
                &&& after.acc_x.bits == 0 && after.acc_y.bits == 0
            }
        }),
{
}

/// No operation of a time step along one axis is more than `error` off.
pub open spec fn near_move(m: Arith, acc: Binary32, v: Binary32, secs: Binary32, error: int) -> bool {
    let way = m(Op::Mul(v, secs));
    let all = m(Op::Add(acc, way));
    &&& near(m, Op::Mul(v, secs), error)
    &&& near(m, Op::Add(acc, way), error)
    &&& near(m, Op::Sub(all, nearest(all.whole(), 1)), error)
}

/// No operation of a time step is more than `error` off, but for the power.
pub open spec fn near_step(
    m: Arith,
    i: InertiaState,
    span: u64,
    cfg: Config,
    error: int,
) -> bool {
    let secs = step_seconds(m, span);
    let factor = m(Op::Pow(cfg.friction_per_16ms, m(Op::Div(secs, nearest(16, 1000)))));
    &&& near(m, Op::Seconds(span), error)
    &&& near_move(m, i.acc_x, i.vx, secs, error)
    &&& near_move(m, i.acc_y, i.vy, secs, error)
    &&& near(m, Op::Div(secs, nearest(16, 1000)), error)
    &&& near(m, Op::Mul(i.vx, factor), error)
    &&& near(m, Op::Mul(i.vy, factor), error)
}

/// The way `all` along one axis, of which `step` whole pixels are made now.
pub open spec fn whole_pixels(all: int, step: int) -> bool {
    let u = pow2(149) as int;
    &&& 0 <= all < 0x8000_0000 * u ==> step * u <= all < (step + 1) * u
    &&& -(0x8000_0000 * u) < all <= 0 ==> (step - 1) * u < all <= step * u
    &&& all >= 0x8000_0000 * u ==> step == 0x7fff_ffff
    &&& all <= -(0x8000_0000 * u) ==> step == -0x8000_0000
}

proof fn lemma_whole_pixels(all: Binary32)
    requires
        !all.nan(),
    ensures
        whole_pixels(all.value(), all.whole()),
{
    let u = pow2(149) as int;
    lemma_pow2_pos(149);
    law_whole_part_stays_in_range(all);
    lemma_rank_orders(all, Binary32 { bits: 0 });
    assert(magnitude(0) == 0);
    if magnitude(all.fields()) < 0x8000_0000 * u {
        law_whole_part_is_not_beyond(all);
        if all.value() == 0 {
            let w = all.whole();
            assert(w == 0) by (nonlinear_arith)
                requires
                    u > 0,
                    w * u <= 0 < (w + 1) * u || (w - 1) * u < 0 <= w * u,
            ;
            assert((w + 1) * u == u && (w - 1) * u == -u && w * u == 0) by (nonlinear_arith)
                requires
                    w == 0,
            ;
        }
    }
}

/// The pointer moves by what was owed and by velocity times time: on each axis the
/// whole pixels are those of the way, cut off towards zero, and what is left over is
/// owed from then on. `secs` is the time of the step in seconds, a thousandth at least,
/// and `x` and `y` are the ways.
pub proof fn law_pointer_moves_by_velocity_times_time(
    m: Arith,
    s: State,
    span: u64,
    now: u64,
    cfg: Config,
    error: int,
) -> (r: (int, int, int))
    requires
        near_step(m, s.inertia, span, cfg, error),
        pixels_after(m, s, span, now, cfg) is Some,
    ensures
        ({
            let u = pow2(149) as int;
            let (secs, x, y) = r;
            let (before, after) = (s.inertia, inertia_after(m, s, span, now, cfg));
            let (px, py) = pixels_after(m, s, span, now, cfg)->0;
            let least = nearest(1, 1000).value();
            &&& secs >= least
            &&& {
                ||| distance(secs * 1_000_000_000, span * u) <= error * 1_000_000_000
                ||| secs == least && span * u <= (least + error) * 1_000_000_000
            }
            &&& distance((x - before.acc_x.value()) * u, before.vx.value() * secs) <= 2 * error * u
            &&& distance((y - before.acc_y.value()) * u, before.vy.value() * secs) <= 2 * error * u
            &&& whole_pixels(x, px)
            &&& whole_pixels(y, py)
            &&& after.active ==> {
                &&& distance(after.acc_x.value(), x - nearest(px, 1).value()) <= error
                &&& distance(after.acc_y.value(), y - nearest(py, 1).value()) <= error
                &&& -0x100_0000 <= px <= 0x100_0000 ==> distance(
                    px * u + after.acc_x.value(),
                    x,
                ) <= error
                &&& -0x100_0000 <= py <= 0x100_0000 ==> distance(
                    py * u + after.acc_y.value(),
                    y,
                ) <= error
            }
            &&& !after.active ==> after.acc_x.bits == 0 && after.acc_y.bits == 0
        }),
{
    let u = pow2(149) as int;
    lemma_pow2_pos(149);
    lemma2_to64_rest();
    lemma_spells(0x3a83_126f, 1, 1000);
    let secs = step_seconds(m, span);
    let i = s.inertia;
    let (x, y) = (moved(m, i.acc_x, i.vx, secs), moved(m, i.acc_y, i.vy, secs));
    lemma_way(m, i.acc_x, i.vx, secs, error);
    lemma_way(m, i.acc_y, i.vy, secs, error);
    lemma_whole_pixels(x);
    lemma_whole_pixels(y);
    if -0x100_0000 <= x.whole() <= 0x100_0000 {
        law_small_integers_are_exact(x.whole());
    }
    if -0x100_0000 <= y.whole() <= 0x100_0000 {
        law_small_integers_are_exact(y.whole());
    }
    (secs.value(), x.value(), y.value())
}

proof fn lemma_way(m: Arith, acc: Binary32, v: Binary32, secs: Binary32, error: int)
    requires
        near_move(m, acc, v, secs, error),
    ensures
        distance((moved(m, acc, v, secs).value() - acc.value()) * pow2(149), v.value() * secs.value())
            <= 2 * error * pow2(149),
        distance(
            left_over(m, moved(m, acc, v, secs)).value(),
            moved(m, acc, v, secs).value() - nearest(moved(m, acc, v, secs).whole(), 1).value(),
        ) <= error,
        !moved(m, acc, v, secs).nan(),
{
    let u = pow2(149) as int;
    let e = error;
    lemma_pow2_pos(149);
    let way = m(Op::Mul(v, secs)).value();
    let (t, a) = (moved(m, acc, v, secs).value(), acc.value());
    assert(-(e * u) <= (t - a) * u - way * u <= e * u) by (nonlinear_arith)
        requires
            -e <= t - (a + way) <= e,
            u > 0,
    ;
    assert(2 * e * u == 2 * (e * u)) by (nonlinear_arith);
}

/// A time step multiplies the velocity, on both axes by the same factor: the friction
/// to the power of the time of the step by 16 ms, which is `r` here. The glide goes on
/// exactly where it has not become slower than the least speed.
pub proof fn law_friction_takes_its_part(
    m: Arith,
    s: State,
    span: u64,
    now: u64,
    cfg: Config,
    error: int,
) -> (r: Binary32)
    requires
        near_step(m, s.inertia, span, cfg, error),
        pixels_after(m, s, span, now, cfg) is Some,
    ensures
        ({
            let u = pow2(149) as int;
            let (before, after) = (s.inertia, inertia_after(m, s, span, now, cfg));
            let secs = step_seconds(m, span).value();
            let unit = nearest(16, 1000).value();
            let factor = m(Op::Pow(cfg.friction_per_16ms, r)).value();
            let speed = m(Op::Hypot(after.vx, after.vy));
            &&& distance(r.value() * unit, secs * u) <= error * unit
            &&& distance(after.vx.value() * u, before.vx.value() * factor) <= error * u
            &&& distance(after.vy.value() * u, before.vy.value() * factor) <= error * u
            &&& after.active <==> speed.nan() || cfg.min_speed.nan() || speed.value()
                >= cfg.min_speed.value()
        }),
{
    lemma2_to64();
    lemma2_to64_rest();
    lemma_spells(0x3c83_126f, 16, 1000);
    lemma_rank_orders(Binary32 { bits: 0 }, Binary32 { bits: 0x3c83_126f });
    m(Op::Div(step_seconds(m, span), nearest(16, 1000)))
}

proof fn lemma_mirrored_whole(a: Binary32, b: Binary32)
    requires
        a.mirrors(b),
        magnitude(b.fields()) < 0x8000_0000 * pow2(149),
    ensures
        a.whole() == -b.whole(),
{
    let u = pow2(149) as int;
    lemma_pow2_pos(149);
    if !a.nan() {
        let c = b.opposite();
        lemma_signs(b);
        lemma_rank_orders(a, c);
        assert(a.rank() == -b.rank());
        assert(a.fields() == b.fields());
        law_whole_part_is_not_beyond(b);
        if b.fields() == 0 {
            assert(magnitude(0) == 0);
            lemma_div_multiples_vanish(0, u);
            assert(0 * u == 0 && u * 0 == 0) by (nonlinear_arith);
        } else {
            let x = magnitude(b.fields());
            lemma_fundamental_div_mod(x, u);
            lemma_mod_bound(x, u);
            let w = x / u;
            assert(w < 0x8000_0000) by (nonlinear_arith)
                requires
                    x == u * w + x % u,
                    0 <= x % u,
                    x < 0x8000_0000 * u,
                    u > 0,
            ;
        }
    }
}

/// The glide of `i` along the x axis, turned round.
pub open spec fn turned_x(i: InertiaState) -> InertiaState {
    InertiaState { vx: i.vx.opposite(), acc_x: i.acc_x.opposite(), ..i }
}

/// The pointer runs to the left as it does to the right: where the velocity and what
/// is owed are turned round, the pixels of a step are so too, as long as they are no
/// more than an integer of 32 bits holds.
pub proof fn law_pointer_runs_left_as_right(
    m: Arith,
    i: InertiaState,
    secs: Binary32,
)
    requires
        symmetric(m),
        magnitude(moved(m, i.acc_x, i.vx, secs).fields()) < 0x8000_0000 * pow2(149),
    ensures
        pixels(m, turned_x(i), secs).0 == -pixels(m, i, secs).0,
        pixels(m, turned_x(i), secs).1 == pixels(m, i, secs).1,
{
    let j = turned_x(i);
    lemma_signs(i.vx);
    lemma_signs(i.acc_x);
    assert(mirrored_ops(Op::Mul(j.vx, secs), Op::Mul(i.vx, secs)));
    assert(mirrored_ops(
        Op::Add(j.acc_x, m(Op::Mul(j.vx, secs))),
        Op::Add(i.acc_x, m(Op::Mul(i.vx, secs))),
    ));
    lemma_mirrored_whole(moved(m, j.acc_x, j.vx, secs), moved(m, i.acc_x, i.vx, secs));
}

/// The glide of `i` along the y axis, turned round.
pub open spec fn turned_y(i: InertiaState) -> InertiaState {
    InertiaState { vy: i.vy.opposite(), acc_y: i.acc_y.opposite(), ..i }
}

/// The pointer runs up as it does down.
pub proof fn law_pointer_runs_up_as_down(
    m: Arith,
    i: InertiaState,
    secs: Binary32,
)
    requires
        symmetric(m),
        magnitude(moved(m, i.acc_y, i.vy, secs).fields()) < 0x8000_0000 * pow2(149),
    ensures
        pixels(m, turned_y(i), secs).1 == -pixels(m, i, secs).1,
        pixels(m, turned_y(i), secs).0 == pixels(m, i, secs).0,
{
    let j = turned_y(i);
    lemma_signs(i.vy);
    lemma_signs(i.acc_y);
    assert(mirrored_ops(Op::Mul(j.vy, secs), Op::Mul(i.vy, secs)));
    assert(mirrored_ops(
        Op::Add(j.acc_y, m(Op::Mul(j.vy, secs))),
        Op::Add(i.acc_y, m(Op::Mul(i.vy, secs))),
    ));
    lemma_mirrored_whole(moved(m, j.acc_y, j.vy, secs), moved(m, i.acc_y, i.vy, secs));
}

} // verus!
