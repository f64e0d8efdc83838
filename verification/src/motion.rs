//! From the samples of a swipe to the speed of the glide that follows it.
//!
//! Times are nanoseconds since a fixed moment.

use crate::arith::{computes, takes_all, Arith, Op};
use crate::binary32::{lemma_spells, nearest, Binary32};
use crate::config::Config;
use std::collections::VecDeque;
use vstd::arithmetic::power2::{lemma2_to64, lemma2_to64_rest};
use vstd::prelude::*;

verus! {

/// Where the finger was at a moment.
#[derive(Clone, Copy, Debug, PartialEq, Eq, Structural)]
pub struct Sample {
    pub x: Binary32,
    pub y: Binary32,
    pub t: u64,
}

/// The time from `earlier` to `later`; none where they are the other way round.
pub open spec fn time_between(later: u64, earlier: u64) -> u64 {
    if later > earlier {
        (later - earlier) as u64
    } else {
        0
    }
}

/// The whole milliseconds from `earlier` to `later`.
pub open spec fn millis_between(later: u64, earlier: u64) -> u64 {
    time_between(later, earlier) / 1_000_000
}

pub fn nanos_since(later: u64, earlier: u64) -> (r: u64)
    ensures
        r == time_between(later, earlier),
{
    if later > earlier {
        later - earlier
    } else {
        0
    }
}

pub fn millis_since(later: u64, earlier: u64) -> (r: u64)
    ensures
        r == millis_between(later, earlier),
{
    nanos_since(later, earlier) / 1_000_000
}

/// `samples` without those at its front that are older than the window.
pub open spec fn pruned(samples: Seq<Sample>, now: u64, window_ms: u64) -> Seq<Sample>
    decreases samples.len(),
{
    if samples.len() > 0 && millis_between(now, samples[0].t) > window_ms {
        pruned(samples.skip(1), now, window_ms)
    } else {
        samples
    }
}

/// Drops the samples at the front that are older than the window.
pub fn prune_samples(samples: &mut VecDeque<Sample>, now: u64, sample_window_ms: u64)
    ensures
        final(samples)@ == pruned(old(samples)@, now, sample_window_ms),
{
    while samples.len() > 0 && millis_since(now, samples[0].t) > sample_window_ms
        invariant
            pruned(samples@, now, sample_window_ms) == pruned(old(samples)@, now, sample_window_ms),
        decreases samples.len(),
    {
        proof {
            assert(samples@.skip(1) == samples@.subrange(1, samples@.len() as int));
        }
        samples.pop_front();
    }
}

/// The sums of a weighted linear regression of position over time.
#[derive(Clone, Copy)]
pub struct Sums {
    pub w: Binary32,
    pub t: Binary32,
    pub x: Binary32,
    pub y: Binary32,
    pub tt: Binary32,
    pub tx: Binary32,
    pub ty: Binary32,
}

/// The sums over the first `n` samples. Sample `i` has the weight `i + 1`, and
/// time counts from the first sample.
pub open spec fn sums(m: Arith, samples: Seq<Sample>, n: int) -> Sums
    decreases n,
{
    let o = Binary32::zero();
    if n <= 0 {
        Sums { w: o, t: o, x: o, y: o, tt: o, tx: o, ty: o }
    } else {
        let before = sums(m, samples, n - 1);
        let s = samples[n - 1];
        let w = m(Op::Add(nearest(1, 1), nearest(n - 1, 1)));
        let t = m(Op::Seconds(time_between(s.t, samples[0].t)));
        let wt = m(Op::Mul(w, t));
        Sums {
            w: m(Op::Add(before.w, w)),
            t: m(Op::Add(before.t, wt)),
            x: m(Op::Add(before.x, m(Op::Mul(w, s.x)))),
            y: m(Op::Add(before.y, m(Op::Mul(w, s.y)))),
            tt: m(Op::Add(before.tt, m(Op::Mul(wt, t)))),
            tx: m(Op::Add(before.tx, m(Op::Mul(wt, s.x)))),
            ty: m(Op::Add(before.ty, m(Op::Mul(wt, s.y)))),
        }
    }
}

/// `a * b - c * d`.
pub open spec fn cross(m: Arith, a: Binary32, b: Binary32, c: Binary32, d: Binary32) -> Binary32 {
    m(Op::Sub(m(Op::Mul(a, b)), m(Op::Mul(c, d))))
}

/// The slopes of the regression lines of `x` and of `y` over time; none where
/// there are fewer than two samples or they do not spread out in time.
pub open spec fn slopes(m: Arith, samples: Seq<Sample>) -> Option<(Binary32, Binary32)> {
    let s = sums(m, samples, samples.len() as int);
    let denom = cross(m, s.w, s.tt, s.t, s.t);
    if samples.len() < 2 || denom.size().below(nearest(1, 1_000_000)) {
        None
    } else {
        Some(
            (
                m(Op::Div(cross(m, s.w, s.tx, s.t, s.x), denom)),
                m(Op::Div(cross(m, s.w, s.ty, s.t, s.y), denom)),
            ),
        )
    }
}

fn cross_of<F: Fn(Op) -> Binary32>(
    host: &F,
    a: Binary32,
    b: Binary32,
    c: Binary32,
    d: Binary32,
) -> (r: Binary32)
    requires
        takes_all(*host),
    ensures
        forall|m: Arith| #[trigger] computes(*host, m) ==> r == cross(m, a, b, c, d),
{
    let ab = host(Op::Mul(a, b));
    let cd = host(Op::Mul(c, d));
    host(Op::Sub(ab, cd))
}

/// The velocity along the samples, in units of position per second, by a linear
/// regression in which later samples weigh more.
pub fn weighted_velocity<F: Fn(Op) -> Binary32>(samples: &[Sample], host: &F) -> (r: Option<
    (Binary32, Binary32),
>)
    requires
        takes_all(*host),
    ensures
        forall|m: Arith| #[trigger] computes(*host, m) ==> r == slopes(m, samples@),
        samples@.len() < 2 ==> r is None,
{
    if samples.len() < 2 {
        return None;
    }
    proof {
        lemma2_to64();
        lemma2_to64_rest();
        lemma_spells(0x3f80_0000, 1, 1);
        lemma_spells(0x3586_37bd, 1, 1_000_000);
    }
    let t0 = samples[0].t;
    let o = Binary32 { bits: 0 };
    let mut s = Sums { w: o, t: o, x: o, y: o, tt: o, tx: o, ty: o };
    let mut i: usize = 0;
    while i < samples.len()
        invariant
            i <= samples.len(),
            samples.len() >= 2,
            t0 == samples@[0].t,
            takes_all(*host),
            (Binary32 { bits: 0x3f80_0000 }) == nearest(1, 1),
            forall|m: Arith| #[trigger] computes(*host, m) ==> s == sums(m, samples@, i as int),
        decreases samples.len() - i,
    {
        let p = samples[i];
        let w = host(Op::Add(Binary32 { bits: 0x3f80_0000 }, Binary32::from_u64(i as u64)));
        let t = host(Op::Seconds(nanos_since(p.t, t0)));
        let wt = host(Op::Mul(w, t));
        let wx = host(Op::Mul(w, p.x));
        let wy = host(Op::Mul(w, p.y));
        let wtt = host(Op::Mul(wt, t));
        let wtx = host(Op::Mul(wt, p.x));
        let wty = host(Op::Mul(wt, p.y));
        s = Sums {
            w: host(Op::Add(s.w, w)),
            t: host(Op::Add(s.t, wt)),
            x: host(Op::Add(s.x, wx)),
            y: host(Op::Add(s.y, wy)),
            tt: host(Op::Add(s.tt, wtt)),
            tx: host(Op::Add(s.tx, wtx)),
            ty: host(Op::Add(s.ty, wty)),
        };
        i = i + 1;
    }
    let denom = cross_of(host, s.w, s.tt, s.t, s.t);
    if denom.abs().lt(Binary32 { bits: 0x3586_37bd }) {
        return None;
    }
    let nx = cross_of(host, s.w, s.tx, s.t, s.x);
    let ny = cross_of(host, s.w, s.ty, s.t, s.y);
    Some((host(Op::Div(nx, denom)), host(Op::Div(ny, denom))))
}

/// How far it is from one sample to another.
pub open spec fn leg(m: Arith, a: Sample, b: Sample) -> Binary32 {
    let dx = m(Op::Sub(a.x, b.x));
    let dy = m(Op::Sub(a.y, b.y));
    m(Op::Sqrt(m(Op::Add(m(Op::Square(dx)), m(Op::Square(dy))))))
}

/// Whether the finger paused between sample `i - 1` and sample `i`, having
/// travelled `travel` after that.
pub open spec fn paused(
    m: Arith,
    samples: Seq<Sample>,
    i: int,
    travel: Binary32,
    cfg: Config,
) -> bool {
    &&& millis_between(samples[i].t, samples[i - 1].t) > cfg.pause_gap_ms
    &&& leg(m, samples[i], samples[i - 1]).below(cfg.pause_dist_threshold)
    &&& cfg.min_travel.at_most(travel)
}

/// Walks back from sample `i`, after which the finger travelled `travel`, as far
/// as the swipe goes: to the first sample, the edge of the window or a pause.
/// Gives the sample where the swipe begins and how far it went in all.
pub open spec fn swipe_from(
    m: Arith,
    samples: Seq<Sample>,
    i: int,
    travel: Binary32,
    cfg: Config,
) -> (int, Binary32)
    decreases i,
{
    if i <= 0 || millis_between(samples.last().t, samples[i - 1].t) > cfg.sample_window_ms
        || paused(m, samples, i, travel, cfg) {
        (i, travel)
    } else {
        swipe_from(
            m,
            samples,
            i - 1,
            m(Op::Add(travel, leg(m, samples[i], samples[i - 1]))),
            cfg,
        )
    }
}

/// The swipe that the samples end with, and how far the finger travelled in it.
pub open spec fn last_swipe(m: Arith, samples: Seq<Sample>, cfg: Config) -> (int, Binary32) {
    swipe_from(m, samples, samples.len() - 1, Binary32::zero(), cfg)
}

/// How much a sample of the given age still counts: 1 for a new one, 0 for one
/// at the limit.
pub open spec fn confidence(m: Arith, age: u64, limit_ms: u64) -> Binary32 {
    let age_ms = m(Op::Mul(m(Op::Seconds(age)), nearest(1000, 1)));
    let left = m(Op::Sub(nearest(1, 1), m(Op::Div(age_ms, nearest(limit_ms as int, 1)))));
    left.limited(Binary32::zero(), nearest(1, 1))
}

/// The movement of the finger when it left the trackpad.
#[derive(Clone, Copy, Debug, PartialEq, Eq, Structural)]
pub struct Swipe {
    pub vx: Binary32,
    pub vy: Binary32,
    pub speed: Binary32,
}

/// The movement that the samples end with, for a finger lifted at `now`; none
/// where it is too short, too old or too slow for a glide.
pub open spec fn swipe(m: Arith, samples: Seq<Sample>, now: u64, cfg: Config) -> Option<Swipe> {
    let trust = confidence(m, time_between(now, samples.last().t), cfg.max_sample_staleness_ms);
    let (start, travel) = last_swipe(m, samples, cfg);
    let velocity = slopes(m, samples.skip(start));
    let (ux, uy) = velocity->0;
    let vx = m(Op::Mul(ux, trust));
    let vy = m(Op::Mul(uy, trust));
    let speed = m(Op::Hypot(vx, vy));
    if samples.len() < 3 || trust.at_most(nearest(5, 100)) {
        None
    } else if samples.len() - start < 3 || travel.below(cfg.min_travel) {
        None
    } else if velocity is None || speed.below(nearest(1, 1)) {
        None
    } else {
        Some(Swipe { vx, vy, speed })
    }
}

/// The speed that a glide starts with.
pub open spec fn start_speed(m: Arith, speed: Binary32, cfg: Config) -> Binary32 {
    m(Op::Mul(m(Op::Mul(speed, cfg.trackpad_to_pixel)), cfg.release_gain)).limited(
        cfg.start_speed_min,
        cfg.start_speed_max,
    )
}

/// The velocity that a glide starts with: that of the swipe, at the start speed.
pub open spec fn start_velocity(m: Arith, s: Swipe, cfg: Config) -> (Binary32, Binary32) {
    let scale = m(Op::Div(start_speed(m, s.speed, cfg), s.speed));
    (m(Op::Mul(s.vx, scale)), m(Op::Mul(s.vy, scale)))
}

/// The velocity of the glide that follows the samples, if one does.
pub open spec fn release_velocity(m: Arith, samples: Seq<Sample>, now: u64, cfg: Config) -> Option<
    (Binary32, Binary32),
> {
    match swipe(m, samples, now, cfg) {
        Some(s) => Some(start_velocity(m, s, cfg)),
        None => None,
    }
}

fn leg_of<F: Fn(Op) -> Binary32>(host: &F, a: Sample, b: Sample) -> (r: Binary32)
    requires
        takes_all(*host),
    ensures
        forall|m: Arith| #[trigger] computes(*host, m) ==> r == leg(m, a, b),
{
    let dx = host(Op::Sub(a.x, b.x));
    let dy = host(Op::Sub(a.y, b.y));
    let xx = host(Op::Square(dx));
    let yy = host(Op::Square(dy));
    let sum = host(Op::Add(xx, yy));
    host(Op::Sqrt(sum))
}

fn confidence_of<F: Fn(Op) -> Binary32>(host: &F, age: u64, limit_ms: u64) -> (r: Binary32)
    requires
        takes_all(*host),
    ensures
        forall|m: Arith| #[trigger] computes(*host, m) ==> r == confidence(m, age, limit_ms),
{
    proof {
        lemma2_to64();
        lemma_spells(0x3f80_0000, 1, 1);
        lemma_spells(0x447a_0000, 1000, 1);
        crate::binary32::lemma_rank_orders(
            Binary32 { bits: 0 },
            Binary32 { bits: 0x3f80_0000 },
        );
    }
    let one = Binary32 { bits: 0x3f80_0000 };
    let secs = host(Op::Seconds(age));
    let age_ms = host(Op::Mul(secs, Binary32 { bits: 0x447a_0000 }));
    let used = host(Op::Div(age_ms, Binary32::from_u64(limit_ms)));
    let left = host(Op::Sub(one, used));
    left.clamp(Binary32 { bits: 0 }, one)
}

/// Finds where the swipe begins that the samples end with.
fn find_swipe<F: Fn(Op) -> Binary32>(samples: &VecDeque<Sample>, cfg: &Config, host: &F) -> (r: (
    usize,
    Binary32,
))
    requires
        takes_all(*host),
        samples@.len() > 0,
    ensures
        r.0 < samples@.len(),
        forall|m: Arith| #[trigger]
            computes(*host, m) ==> last_swipe(m, samples@, *cfg) == (r.0 as int, r.1),
{
    let newest = samples[samples.len() - 1];
    let mut i: usize = samples.len() - 1;
    let mut travel = Binary32 { bits: 0 };
    while i > 0
        invariant
            takes_all(*host),
            i < samples@.len(),
            newest == samples@.last(),
            forall|m: Arith| #[trigger]
                computes(*host, m) ==> last_swipe(m, samples@, *cfg) == swipe_from(
                    m,
                    samples@,
                    i as int,
                    travel,
                    *cfg,
                ),
        decreases i,
    {
        let last = samples[i];
        let s = samples[i - 1];
        if millis_since(newest.t, s.t) > cfg.sample_window_ms {
            return (i, travel);
        }
        let dist = leg_of(host, last, s);
        if millis_since(last.t, s.t) > cfg.pause_gap_ms && dist.lt(cfg.pause_dist_threshold)
            && cfg.min_travel.le(travel) {
            return (i, travel);
        }
        travel = host(Op::Add(travel, dist));
        i = i - 1;
    }
    (i, travel)
}

/// The movement that the samples end with, for a finger lifted at `release_time`.
pub fn estimate_swipe<F: Fn(Op) -> Binary32>(
    samples: &VecDeque<Sample>,
    release_time: u64,
    cfg: &Config,
    host: &F,
) -> (r: Option<Swipe>)
    requires
        takes_all(*host),
    ensures
        forall|m: Arith| #[trigger]
            computes(*host, m) ==> r == swipe(m, samples@, release_time, *cfg),
        samples@.len() < 3 ==> r is None,
{
    if samples.len() < 3 {
        return None;
    }
    proof {
        lemma2_to64();
        lemma_spells(0x3f80_0000, 1, 1);
        lemma_spells(0x3d4c_cccd, 5, 100);
    }
    let newest = samples[samples.len() - 1];
    let age = nanos_since(release_time, newest.t);
    let trust = confidence_of(host, age, cfg.max_sample_staleness_ms);
    if trust.le(Binary32 { bits: 0x3d4c_cccd }) {
        return None;
    }
    let (start, travel) = find_swipe(samples, cfg, host);
    if samples.len() - start < 3 || travel.lt(cfg.min_travel) {
        return None;
    }
    let mut segment: Vec<Sample> = Vec::new();
    let mut i: usize = start;
    while i < samples.len()
        invariant
            start <= i <= samples.len(),
            segment@ == samples@.subrange(start as int, i as int),
        decreases samples.len() - i,
    {
        segment.push(samples[i]);
        i = i + 1;
    }
    assert(segment@ == samples@.skip(start as int));
    match weighted_velocity(segment.as_slice(), host) {
        None => None,
        Some((ux, uy)) => {
            let vx = host(Op::Mul(ux, trust));
            let vy = host(Op::Mul(uy, trust));
            let speed = host(Op::Hypot(vx, vy));
            if speed.lt(Binary32 { bits: 0x3f80_0000 }) {
                None
            } else {
                Some(Swipe { vx, vy, speed })
            }
        },
    }
}

/// The velocity that the glide after a swipe starts with.
pub fn launch<F: Fn(Op) -> Binary32>(swipe: Swipe, cfg: &Config, host: &F) -> (r: (
    Binary32,
    Binary32,
))
    requires
        takes_all(*host),
        cfg.speeds_in_order(),
    ensures
        forall|m: Arith| #[trigger] computes(*host, m) ==> r == start_velocity(m, swipe, *cfg),
{
    let pixels = host(Op::Mul(swipe.speed, cfg.trackpad_to_pixel));
    let wanted = host(Op::Mul(pixels, cfg.release_gain));
    let target = wanted.clamp(cfg.start_speed_min, cfg.start_speed_max);
    let scale = host(Op::Div(target, swipe.speed));
    (host(Op::Mul(swipe.vx, scale)), host(Op::Mul(swipe.vy, scale)))
}

/// The velocity of the glide that follows the samples, if one does.
///
/// The two limits of the start speed have to be in order wherever a glide is
/// started.
pub fn estimate_release_velocity<F: Fn(Op) -> Binary32>(
    samples: &VecDeque<Sample>,
    release_time: u64,
    cfg: &Config,
    host: &F,
) -> (r: Option<(Binary32, Binary32)>)
    requires
        takes_all(*host),
        cfg.speeds_in_order() || exists|m: Arith| #[trigger]
            computes(*host, m) && swipe(m, samples@, release_time, *cfg) is None,
    ensures
        forall|m: Arith| #[trigger]
            computes(*host, m) ==> r == release_velocity(m, samples@, release_time, *cfg),
        samples@.len() < 3 ==> r is None,
{
    match estimate_swipe(samples, release_time, cfg, host) {
        None => None,
        Some(s) => Some(launch(s, cfg, host)),
    }
}

/// The samples stand in the order of their times.
pub open spec fn sorted(samples: Seq<Sample>) -> bool {
    forall|i: int, j: int| 0 <= i <= j < samples.len() ==> samples[i].t <= samples[j].t
}

/// The samples stand in the order of their times, none later than `now`.
pub open spec fn in_order(samples: Seq<Sample>, now: u64) -> bool {
    &&& sorted(samples)
    &&& forall|i: int| 0 <= i < samples.len() ==> (#[trigger] samples[i]).t <= now
}

/// How many samples pruning drops.
pub open spec fn stale(samples: Seq<Sample>, now: u64, window_ms: u64) -> int
    decreases samples.len(),
{
    if samples.len() > 0 && millis_between(now, samples[0].t) > window_ms {
        1 + stale(samples.skip(1), now, window_ms)
    } else {
        0
    }
}

/// Pruning drops samples from the front, all of them older than the window, up to
/// the first that is not.
pub proof fn law_pruning_drops_the_oldest(samples: Seq<Sample>, now: u64, window_ms: u64)
    ensures
        0 <= stale(samples, now, window_ms) <= samples.len(),
        pruned(samples, now, window_ms) == samples.skip(stale(samples, now, window_ms)),
        forall|i: int|
            0 <= i < stale(samples, now, window_ms) ==> millis_between(
                now,
                (#[trigger] samples[i]).t,
            ) > window_ms,
        stale(samples, now, window_ms) < samples.len() ==> millis_between(
            now,
            samples[stale(samples, now, window_ms)].t,
        ) <= window_ms,
    decreases samples.len(),
{
    if samples.len() > 0 && millis_between(now, samples[0].t) > window_ms {
        let rest = samples.skip(1);
        law_pruning_drops_the_oldest(rest, now, window_ms);
        let n = stale(rest, now, window_ms);
        assert(rest.skip(n) == samples.skip(n + 1));
        assert forall|i: int| 0 <= i < n + 1 implies millis_between(now, (#[trigger] samples[i]).t)
            > window_ms by {
            if i > 0 {
                assert(rest[i - 1] == samples[i]);
            }
        }
        if n < rest.len() {
            assert(rest[n] == samples[n + 1]);
        }
    } else {
        assert(samples.skip(0) == samples);
    }
}

/// Of samples in order, pruning keeps exactly those within the window.
pub proof fn law_pruning_keeps_the_window(samples: Seq<Sample>, now: u64, window_ms: u64)
    requires
        sorted(samples),
    ensures
        pruned(samples, now, window_ms) == samples.filter(
            |s: Sample| millis_between(now, s.t) <= window_ms,
        ),
        sorted(pruned(samples, now, window_ms)),
        in_order(samples, now) ==> in_order(pruned(samples, now, window_ms), now),
{
    law_pruning_drops_the_oldest(samples, now, window_ms);
    let fresh = |s: Sample| millis_between(now, s.t) <= window_ms;
    let n = stale(samples, now, window_ms);
    assert forall|i: int| n <= i < samples.len() implies fresh(#[trigger] samples[i]) by {
        let (a, b) = (samples[n].t, samples[i].t);
        assert(a <= b);
        assert(time_between(now, b) <= time_between(now, a));
    }
    lemma_filter_suffix(samples, fresh, n);
}

proof fn lemma_filter_suffix(samples: Seq<Sample>, keep: spec_fn(Sample) -> bool, n: int)
    requires
        0 <= n <= samples.len(),
        forall|i: int| 0 <= i < n ==> !keep(#[trigger] samples[i]),
        forall|i: int| n <= i < samples.len() ==> keep(#[trigger] samples[i]),
    ensures
        samples.filter(keep) == samples.skip(n),
    decreases samples.len(),
{
    reveal(Seq::filter);
    if samples.len() > 0 {
        let front = samples.drop_last();
        let last = samples.last();
        if n == samples.len() {
            lemma_filter_suffix(front, keep, n - 1);
            assert(front.skip(n - 1) == samples.skip(n));
        } else {
            lemma_filter_suffix(front, keep, n);
            assert(front.skip(n).push(last) == samples.skip(n));
        }
    } else {
        assert(samples.skip(n) == samples);
    }
}

/// How far the finger travelled from sample `i` on, added up from the newest sample
/// backwards.
pub open spec fn travel_since(m: Arith, samples: Seq<Sample>, i: int) -> Binary32
    decreases samples.len() - i,
{
    if i >= samples.len() - 1 {
        Binary32::zero()
    } else {
        m(Op::Add(travel_since(m, samples, i + 1), leg(m, samples[i + 1], samples[i])))
    }
}

/// The walk back from sample `i` stops at a sample, keeps inside the window, passes
/// no pause, and goes as far as it can.
proof fn lemma_swipe_from(m: Arith, samples: Seq<Sample>, i: int, cfg: Config)
    requires
        0 <= i < samples.len(),
    ensures
        ({
            let (start, total) = swipe_from(m, samples, i, travel_since(m, samples, i), cfg);
            &&& 0 <= start <= i
            &&& total == travel_since(m, samples, start)
            &&& forall|j: int|
                start <= j < i ==> millis_between(samples.last().t, (#[trigger] samples[j]).t)
                    <= cfg.sample_window_ms
            &&& forall|j: int|
                start < j <= i ==> !#[trigger] paused(
                    m,
                    samples,
                    j,
                    travel_since(m, samples, j),
                    cfg,
                )
            &&& start > 0 ==> {
                ||| millis_between(samples.last().t, samples[start - 1].t) > cfg.sample_window_ms
                ||| paused(m, samples, start, total, cfg)
            }
        }),
    decreases i,
{
    let travel = travel_since(m, samples, i);
    if i <= 0 || millis_between(samples.last().t, samples[i - 1].t) > cfg.sample_window_ms
        || paused(m, samples, i, travel, cfg) {
    } else {
        lemma_swipe_from(m, samples, i - 1, cfg);
    }
}

/// Only the most recent movement counts: the swipe is the longest run of samples
/// up to the newest in which all are within the window and the finger did not
/// pause.
pub proof fn law_swipe_is_the_recent_movement(m: Arith, samples: Seq<Sample>, cfg: Config)
    requires
        samples.len() > 0,
    ensures
        ({
            let (start, travel) = last_swipe(m, samples, cfg);
            &&& 0 <= start < samples.len()
            &&& travel == travel_since(m, samples, start)
            &&& forall|i: int|
                start <= i < samples.len() ==> millis_between(
                    samples.last().t,
                    (#[trigger] samples[i]).t,
                ) <= cfg.sample_window_ms
            &&& forall|i: int|
                start < i < samples.len() ==> !#[trigger] paused(
                    m,
                    samples,
                    i,
                    travel_since(m, samples, i),
                    cfg,
                )
            &&& start > 0 ==> {
                ||| millis_between(samples.last().t, samples[start - 1].t) > cfg.sample_window_ms
                ||| paused(m, samples, start, travel, cfg)
            }
        }),
{
    lemma_swipe_from(m, samples, samples.len() - 1, cfg);
}

proof fn lemma_older_samples(
    m: Arith,
    older: Seq<Sample>,
    samples: Seq<Sample>,
    i: int,
    travel: Binary32,
    cfg: Config,
)
    requires
        older.len() > 0,
        0 <= i < samples.len(),
        millis_between(samples.last().t, older.last().t) > cfg.sample_window_ms,
    ensures
        ({
            let (start, total) = swipe_from(m, samples, i, travel, cfg);
            swipe_from(m, older + samples, older.len() + i, travel, cfg) == (
                older.len() + start,
                total,
            )
        }),
    decreases i,
{
    let all = older + samples;
    let n = older.len() as int;
    assert(all.last() == samples.last());
    assert(all[n + i] == samples[i]);
    if i == 0 {
        assert(all[n - 1] == older.last());
    } else {
        assert(all[n + i - 1] == samples[i - 1]);
        if !(millis_between(samples.last().t, samples[i - 1].t) > cfg.sample_window_ms || paused(
            m,
            samples,
            i,
            travel,
            cfg,
        )) {
            lemma_older_samples(
                m,
                older,
                samples,
                i - 1,
                m(Op::Add(travel, leg(m, samples[i], samples[i - 1]))),
                cfg,
            );
        }
    }
}

/// What the finger did before the window makes no difference to the glide.
pub proof fn law_old_samples_do_not_count(
    m: Arith,
    older: Seq<Sample>,
    samples: Seq<Sample>,
    now: u64,
    cfg: Config,
)
    requires
        samples.len() > 0,
        older.len() > 0 ==> millis_between(samples.last().t, older.last().t)
            > cfg.sample_window_ms,
    ensures
        release_velocity(m, older + samples, now, cfg) == release_velocity(m, samples, now, cfg),
{
    if older.len() > 0 {
        let all = older + samples;
        lemma_older_samples(m, older, samples, samples.len() - 1, Binary32::zero(), cfg);
        lemma_swipe_from(m, samples, samples.len() - 1, cfg);
        let start = last_swipe(m, samples, cfg).0;
        assert(all.skip(older.len() + start) == samples.skip(start));
        assert(all.last() == samples.last());
    } else {
        assert(older + samples == samples);
    }
}

/// The start speed is within its limits.
pub proof fn law_start_speed_is_limited(m: Arith, speed: Binary32, cfg: Config)
    requires
        cfg.speeds_in_order(),
        !start_speed(m, speed, cfg).nan(),
    ensures
        cfg.start_speed_min.at_most(start_speed(m, speed, cfg)),
        start_speed(m, speed, cfg).at_most(cfg.start_speed_max),
{
}

/// No glide follows a swipe of fewer than three samples, or one that was shorter
/// than the least travel.
pub proof fn law_short_swipes_do_not_glide(m: Arith, samples: Seq<Sample>, now: u64, cfg: Config)
    requires
        ({
            let (start, travel) = last_swipe(m, samples, cfg);
            samples.len() - start < 3 || travel.below(cfg.min_travel)
        }),
    ensures
        release_velocity(m, samples, now, cfg) is None,
{
}

} // verus!
