//! The state that following the fingers and moving the pointer share.

use crate::arith::{
    computes, fraction, keeps_fractions, keeps_order, multiplies, shrinks, takes_all, Arith, Op,
};
use crate::binary32::{lemma_rank_orders, lemma_spells, nearest, Binary32};
use crate::config::Config;
use crate::motion::{
    estimate_release_velocity, estimate_swipe, in_order, law_pruning_drops_the_oldest,
    law_pruning_keeps_the_window, millis_between, nanos_since, prune_samples, pruned,
    release_velocity, stale, start_velocity, swipe, time_between, Sample,
};
use crate::touch::{count_fingers, fingers, known, sole, sole_position, touched, SlotState, Slots};
use std::collections::{HashMap, VecDeque};
use vstd::arithmetic::power2::{lemma2_to64, lemma2_to64_rest};
use vstd::prelude::*;

verus! {

/// The glide: its velocity in pixels per second, and the parts of pixels that
/// the pointer still has to move.
#[derive(Clone, Copy, Debug, PartialEq, Eq, Structural)]
pub struct InertiaState {
    pub active: bool,
    pub vx: Binary32,
    pub vy: Binary32,
    pub acc_x: Binary32,
    pub acc_y: Binary32,
}

impl InertiaState {
    /// No glide.
    pub open spec fn stopped() -> InertiaState {
        let o = Binary32::zero();
        InertiaState { active: false, vx: o, vy: o, acc_x: o, acc_y: o }
    }

    /// A glide that starts with the given velocity.
    pub open spec fn started(v: (Binary32, Binary32)) -> InertiaState {
        let o = Binary32::zero();
        InertiaState { active: true, vx: v.0, vy: v.1, acc_x: o, acc_y: o }
    }

    /// This glide, ended; the velocity stays on record.
    pub open spec fn ended(self) -> InertiaState {
        let o = Binary32::zero();
        InertiaState { active: false, acc_x: o, acc_y: o, ..self }
    }
}

impl Default for InertiaState {
    fn default() -> (r: InertiaState)
        ensures
            r == InertiaState::stopped(),
    {
        let o = Binary32 { bits: 0 };
        InertiaState { active: false, vx: o, vy: o, acc_x: o, acc_y: o }
    }
}

/// The fingers, the samples of the current swipe and the glide.
pub struct SharedState {
    pub slots: HashMap<i32, SlotState>,
    pub finger_count: usize,
    pub prev_finger_count: usize,
    pub samples: VecDeque<Sample>,
    /// The moment up to which no sample is taken and no glide runs.
    pub suppress_until: Option<u128>,
    pub inertia: InertiaState,
}

/// What a [`SharedState`] holds.
#[verifier::ext_equal]
pub ghost struct State {
    pub slots: Slots,
    pub finger_count: nat,
    pub prev_finger_count: nat,
    pub samples: Seq<Sample>,
    pub suppress_until: Option<u128>,
    pub inertia: InertiaState,
}

impl State {
    /// What holds of the state at all times: no glide runs while a finger is down,
    /// no part of a pixel is owed where none runs, and positions are numbers, each
    /// sample at another place than the one before it.
    pub open spec fn consistent(self) -> bool {
        &&& self.inertia.active ==> self.finger_count == 0
        &&& !self.inertia.active ==> self.inertia.acc_x == Binary32::zero() && self.inertia.acc_y
            == Binary32::zero()
        &&& known(self.slots)
        &&& forall|i: int|
            0 <= i < self.samples.len() ==> !(#[trigger] self.samples[i]).x.nan()
                && !self.samples[i].y.nan()
        &&& forall|i: int|
            0 < i < self.samples.len() ==> !same_place(
                #[trigger] self.samples[i],
                self.samples[i - 1],
            )
    }
}

/// The finger was at the same place in both samples.
pub open spec fn same_place(a: Sample, b: Sample) -> bool {
    a.x.same(b.x) && a.y.same(b.y)
}

impl View for SharedState {
    type V = State;

    open spec fn view(&self) -> State {
        State {
            slots: self.slots@,
            finger_count: self.finger_count as nat,
            prev_finger_count: self.prev_finger_count as nat,
            samples: self.samples@,
            suppress_until: self.suppress_until,
            inertia: self.inertia,
        }
    }
}

/// The moment `until` has not come yet.
pub open spec fn suppressed(until: Option<u128>, now: u64) -> bool {
    until matches Some(t) && now < t
}

/// The moment at which a grace period ends that begins now.
pub open spec fn grace_end(now: u64, grace_ms: u64) -> u128 {
    (now + grace_ms * 1_000_000) as u128
}

/// The samples after the finger was seen at `p`: one more, unless it did not
/// move, and none that is older than the window.
pub open spec fn recorded(
    samples: Seq<Sample>,
    p: (Binary32, Binary32),
    now: u64,
    window_ms: u64,
) -> Seq<Sample> {
    if samples.len() > 0 && samples.last().x.same(p.0) && samples.last().y.same(p.1) {
        samples
    } else {
        pruned(samples.push(Sample { x: p.0, y: p.1, t: now }), now, window_ms)
    }
}

/// The state `s` with the number of fingers brought up to date.
pub open spec fn counted(s: State) -> State {
    State { prev_finger_count: s.finger_count, finger_count: fingers(s.slots), ..s }
}

/// The state with a finger down: no glide, and a new swipe where the finger was
/// just put down or is what is left of a gesture. After a gesture there is a
/// grace period.
pub open spec fn touched_down(s: State, now: u64, cfg: Config) -> State {
    let s = State { inertia: InertiaState::stopped(), ..s };
    if s.prev_finger_count == 0 {
        State { samples: Seq::empty(), suppress_until: None, ..s }
    } else if s.prev_finger_count > 1 && s.finger_count == 1 {
        State {
            samples: Seq::empty(),
            suppress_until: Some(grace_end(now, cfg.grace_ms)),
            ..s
        }
    } else {
        s
    }
}

/// The state after the position of a single finger is taken.
pub open spec fn followed(s: State, now: u64, cfg: Config) -> State {
    if s.finger_count == 1 && !suppressed(s.suppress_until, now) {
        State {
            samples: recorded(s.samples, sole(s.slots)->0, now, cfg.sample_window_ms),
            ..s
        }
    } else {
        s
    }
}

/// The state after the last finger was lifted: a glide where its swipe gives one.
pub open spec fn released(m: Arith, s: State, now: u64, cfg: Config) -> State {
    if suppressed(s.suppress_until, now) {
        State { samples: Seq::empty(), inertia: InertiaState::stopped(), ..s }
    } else {
        State {
            inertia: match release_velocity(m, s.samples, now, cfg) {
                Some(v) => InertiaState::started(v),
                None => InertiaState::stopped(),
            },
            ..s
        }
    }
}

/// The state after the fingers were looked at, at the moment `now`.
pub open spec fn updated(m: Arith, s: State, now: u64, cfg: Config) -> State {
    let s = counted(s);
    if s.finger_count > 0 {
        followed(touched_down(s, now, cfg), now, cfg)
    } else if s.prev_finger_count == 1 {
        released(m, s, now, cfg)
    } else {
        s
    }
}

/// The last finger was lifted, and no grace period keeps it from starting a glide.
pub open spec fn lifts_last(s: State, now: u64) -> bool {
    &&& s.finger_count == 1
    &&& fingers(s.slots) == 0
    &&& !suppressed(s.suppress_until, now)
}

/// Looking at the fingers at the moment `now` starts a glide.
pub open spec fn starts_glide(m: Arith, s: State, now: u64, cfg: Config) -> bool {
    &&& lifts_last(s, now)
    &&& swipe(m, s.samples, now, cfg) is Some
}

impl SharedState {
    /// The state before the first event.
    pub fn new() -> (s: SharedState)
        ensures
            s@ == (State {
                slots: Map::empty(),
                finger_count: 0,
                prev_finger_count: 0,
                samples: Seq::empty(),
                suppress_until: None,
                inertia: InertiaState::stopped(),
            }),
            s@.consistent(),
    {
        SharedState {
            slots: HashMap::new(),
            finger_count: 0,
            prev_finger_count: 0,
            samples: VecDeque::with_capacity(64),
            suppress_until: None,
            inertia: InertiaState::default(),
        }
    }

    fn is_suppressed(&self, now: u64) -> (r: bool)
        ensures
            r == suppressed(self.suppress_until, now),
    {
        match self.suppress_until {
            Some(t) => (now as u128) < t,
            None => false,
        }
    }

    /// Whether looking at the fingers at the moment `now` starts a glide.
    pub fn will_start_glide<F: Fn(Op) -> Binary32>(&self, now: u64, cfg: &Config, host: &F) -> (r:
        bool)
        requires
            takes_all(*host),
        ensures
            forall|m: Arith| #[trigger]
                computes(*host, m) ==> r == starts_glide(m, self@, now, *cfg),
    {
        self.finger_count == 1 && count_fingers(&self.slots) == 0 && !self.is_suppressed(now)
            && estimate_swipe(&self.samples, now, cfg, host).is_some()
    }

    /// Looks at the fingers after a batch of events, at the moment `now`.
    ///
    /// The two limits of the start speed have to be in order if this starts a
    /// glide.
    pub fn update<F: Fn(Op) -> Binary32>(&mut self, now: u64, cfg: &Config, host: &F)
        requires
            takes_all(*host),
            cfg.speeds_in_order() || exists|m: Arith| #[trigger]
                computes(*host, m) && !starts_glide(m, old(self)@, now, *cfg),
        ensures
            forall|m: Arith| #[trigger]
                computes(*host, m) ==> final(self)@ == updated(m, old(self)@, now, *cfg),
            // What holds whatever `host` answers.
            !lifts_last(old(self)@, now) ==> forall|m: Arith|
                final(self)@ == #[trigger] updated(m, old(self)@, now, *cfg),
            lifts_last(old(self)@, now) ==> {
                &&& final(self)@ == (State { inertia: final(self)@.inertia, ..counted(old(self)@) })
                &&& {
                    let i = final(self)@.inertia;
                    i == InertiaState::stopped() || i == InertiaState::started((i.vx, i.vy))
                }
                &&& old(self)@.samples.len() < 3 ==> final(self)@.inertia
                    == InertiaState::stopped()
            },
            old(self)@.consistent() ==> final(self)@.consistent(),
            in_order(old(self)@.samples, now) ==> in_order(final(self)@.samples, now),
    {
        proof {
            if self@.consistent() {
                law_update_keeps_consistency(arbitrary(), self@, now, *cfg);
            }
            if in_order(self@.samples, now) {
                law_samples_stay_in_order(arbitrary(), self@, now, *cfg);
            }
        }
        self.prev_finger_count = self.finger_count;
        self.finger_count = count_fingers(&self.slots);
        let prev = self.prev_finger_count;
        let count = self.finger_count;
        if count > 0 {
            self.inertia = InertiaState::default();
        }
        if prev == 0 && count > 0 {
            self.samples.clear();
            self.suppress_until = None;
        }
        if prev > 1 && count == 1 {
            self.samples.clear();
            self.suppress_until = Some(now as u128 + cfg.grace_ms as u128 * 1_000_000);
        }
        if count == 1 && !self.is_suppressed(now) {
            if let Some((x, y)) = sole_position(&self.slots) {
                let n = self.samples.len();
                let moved = n == 0 || !self.samples[n - 1].x.same_number(x)
                    || !self.samples[n - 1].y.same_number(y);
                if moved {
                    self.samples.push_back(Sample { x, y, t: now });
                    prune_samples(&mut self.samples, now, cfg.sample_window_ms);
                }
            }
        }
        if prev == 1 && count == 0 {
            if self.is_suppressed(now) {
                self.inertia = InertiaState::default();
                self.samples.clear();
            } else {
                match estimate_release_velocity(&self.samples, now, cfg, host) {
                    Some((vx, vy)) => {
                        let o = Binary32 { bits: 0 };
                        self.inertia = InertiaState { active: true, vx, vy, acc_x: o, acc_y: o };
                    },
                    None => {
                        self.inertia = InertiaState::default();
                    },
                }
            }
        }
    }
}

/// The place where the only finger is comes from its slot.
proof fn lemma_sole_is_known(slots: Slots)
    requires
        known(slots),
        fingers(slots) == 1,
    ensures
        !(sole(slots)->0).0.nan(),
        !(sole(slots)->0).1.nan(),
{
    let k = touched(slots).choose();
    assert(touched(slots).contains(k)) by {
        if touched(slots) =~= Set::empty() {
            assert(touched(slots).len() == 0);
        }
    }
    assert(slots.contains_key(k));
}

/// Looking at the fingers keeps the state consistent.
pub proof fn law_update_keeps_consistency(m: Arith, s: State, now: u64, cfg: Config)
    requires
        s.consistent(),
    ensures
        updated(m, s, now, cfg).consistent(),
{
    let c = counted(s);
    if c.finger_count == 1 {
        lemma_sole_is_known(s.slots);
        let d = touched_down(c, now, cfg);
        let (x, y) = sole(s.slots)->0;
        let more = d.samples.push(Sample { x, y, t: now });
        law_pruning_drops_the_oldest(more, now, cfg.sample_window_ms);
        let n = stale(more, now, cfg.sample_window_ms);
        let e = followed(d, now, cfg);
        if e.samples != d.samples {
            assert(e.samples == more.skip(n));
            assert forall|i: int| 0 < i < e.samples.len() implies !same_place(
                #[trigger] e.samples[i],
                e.samples[i - 1],
            ) by {
                assert(e.samples[i] == more[n + i]);
                assert(e.samples[i - 1] == more[n + i - 1]);
            }
        }
    }
}

/// Looking at the fingers as time goes on keeps the samples in order.
pub proof fn law_samples_stay_in_order(m: Arith, s: State, now: u64, cfg: Config)
    requires
        in_order(s.samples, now),
    ensures
        in_order(updated(m, s, now, cfg).samples, now),
{
    let d = touched_down(counted(s), now, cfg);
    let (x, y) = sole(s.slots)->0;
    let more = d.samples.push(Sample { x, y, t: now });
    assert(in_order(more, now));
    law_pruning_keeps_the_window(more, now, cfg.sample_window_ms);
}

/// The time step of a glide, in seconds: at least a thousandth.
pub open spec fn step_seconds(m: Arith, span: u64) -> Binary32 {
    let secs = m(Op::Seconds(span));
    if nearest(1, 1000).at_most(secs) {
        secs
    } else {
        nearest(1, 1000)
    }
}

/// How far the pointer has to move along one axis: what was left over and what
/// the velocity adds to it.
pub open spec fn moved(m: Arith, acc: Binary32, v: Binary32, secs: Binary32) -> Binary32 {
    m(Op::Add(acc, m(Op::Mul(v, secs))))
}

/// What is left of `total` when its whole pixels are gone.
pub open spec fn left_over(m: Arith, total: Binary32) -> Binary32 {
    m(Op::Sub(total, nearest(total.whole(), 1)))
}

/// The factor by which a glide slows down in the given time.
pub open spec fn decay(m: Arith, secs: Binary32, cfg: Config) -> Binary32 {
    m(Op::Pow(cfg.friction_per_16ms, m(Op::Div(secs, nearest(16, 1000)))))
}

/// The glide one time step later. It ends where it has become too slow.
pub open spec fn glided(m: Arith, i: InertiaState, secs: Binary32, cfg: Config) -> InertiaState {
    let factor = decay(m, secs, cfg);
    let next = InertiaState {
        active: true,
        vx: m(Op::Mul(i.vx, factor)),
        vy: m(Op::Mul(i.vy, factor)),
        acc_x: left_over(m, moved(m, i.acc_x, i.vx, secs)),
        acc_y: left_over(m, moved(m, i.acc_y, i.vy, secs)),
    };
    if m(Op::Hypot(next.vx, next.vy)).below(cfg.min_speed) {
        next.ended()
    } else {
        next
    }
}

/// The whole pixels that the pointer moves in one time step.
pub open spec fn pixels(m: Arith, i: InertiaState, secs: Binary32) -> (int, int) {
    (moved(m, i.acc_x, i.vx, secs).whole(), moved(m, i.acc_y, i.vy, secs).whole())
}

/// A glide goes on at the moment `now`.
pub open spec fn gliding(s: State, now: u64) -> bool {
    s.finger_count == 0 && s.inertia.active && !suppressed(s.suppress_until, now)
}

/// The glide is fast enough to go on.
pub open spec fn fast_enough(m: Arith, i: InertiaState, cfg: Config) -> bool {
    cfg.min_speed.at_most(m(Op::Hypot(i.vx, i.vy)))
}

/// The glide after a time step of `span` that ends at the moment `now`.
pub open spec fn inertia_after(m: Arith, s: State, span: u64, now: u64, cfg: Config) -> InertiaState {
    if s.finger_count > 0 {
        InertiaState::stopped()
    } else if !s.inertia.active {
        s.inertia
    } else if suppressed(s.suppress_until, now) {
        InertiaState::stopped()
    } else if fast_enough(m, s.inertia, cfg) {
        glided(m, s.inertia, step_seconds(m, span), cfg)
    } else {
        s.inertia.ended()
    }
}

/// The pixels that the pointer moves in a time step of `span` that ends at the
/// moment `now`; none where there is no glide.
pub open spec fn pixels_after(m: Arith, s: State, span: u64, now: u64, cfg: Config) -> Option<
    (int, int),
> {
    if gliding(s, now) && fast_enough(m, s.inertia, cfg) {
        Some(pixels(m, s.inertia, step_seconds(m, span)))
    } else {
        None
    }
}

/// A move in whole pixels, as a pair of integers.
pub open spec fn in_pixels(r: Option<(i32, i32)>) -> Option<(int, int)> {
    match r {
        Some((x, y)) => Some((x as int, y as int)),
        None => None,
    }
}

fn step_seconds_of<F: Fn(Op) -> Binary32>(host: &F, span: u64) -> (r: Binary32)
    requires
        takes_all(*host),
    ensures
        forall|m: Arith| #[trigger] computes(*host, m) ==> r == step_seconds(m, span),
{
    proof {
        lemma2_to64_rest();
        lemma_spells(0x3a83_126f, 1, 1000);
    }
    let least = Binary32 { bits: 0x3a83_126f };
    let secs = host(Op::Seconds(span));
    if least.le(secs) {
        secs
    } else {
        least
    }
}

fn decay_of<F: Fn(Op) -> Binary32>(host: &F, secs: Binary32, cfg: &Config) -> (r: Binary32)
    requires
        takes_all(*host),
    ensures
        forall|m: Arith| #[trigger] computes(*host, m) ==> r == decay(m, secs, *cfg),
{
    proof {
        lemma2_to64();
        lemma_spells(0x3c83_126f, 16, 1000);
    }
    let steps = host(Op::Div(secs, Binary32 { bits: 0x3c83_126f }));
    host(Op::Pow(cfg.friction_per_16ms, steps))
}

fn moved_of<F: Fn(Op) -> Binary32>(host: &F, acc: Binary32, v: Binary32, secs: Binary32) -> (r:
    Binary32)
    requires
        takes_all(*host),
    ensures
        forall|m: Arith| #[trigger] computes(*host, m) ==> r == moved(m, acc, v, secs),
{
    let way = host(Op::Mul(v, secs));
    host(Op::Add(acc, way))
}

impl SharedState {
    /// Lets the glide go on from the moment `last_tick` to the moment `now`, and
    /// gives the whole pixels that the pointer is to move.
    pub fn tick<F: Fn(Op) -> Binary32>(
        &mut self,
        now: u64,
        last_tick: u64,
        cfg: &Config,
        host: &F,
    ) -> (r: Option<(i32, i32)>)
        requires
            takes_all(*host),
        ensures
            forall|m: Arith| #[trigger]
                computes(*host, m) ==> in_pixels(r) == pixels_after(
                    m,
                    old(self)@,
                    time_between(now, last_tick),
                    now,
                    *cfg,
                ) && final(self)@.inertia == inertia_after(
                    m,
                    old(self)@,
                    time_between(now, last_tick),
                    now,
                    *cfg,
                ),
            // What holds whatever `host` answers.
            final(self)@ == (State { inertia: final(self)@.inertia, ..old(self)@ }),
            !gliding(old(self)@, now) ==> r is None && final(self)@.inertia == (if !old(
                self,
            )@.inertia.active && old(self)@.finger_count == 0 {
                old(self)@.inertia
            } else {
                InertiaState::stopped()
            }),
            gliding(old(self)@, now) && r is None ==> final(self)@.inertia == old(
                self,
            )@.inertia.ended(),
            old(self)@.consistent() ==> final(self)@.consistent(),
    {
        let secs = step_seconds_of(host, nanos_since(now, last_tick));
        if self.finger_count > 0 {
            self.inertia = InertiaState::default();
            return None;
        }
        if !self.inertia.active {
            return None;
        }
        if self.is_suppressed(now) {
            self.inertia = InertiaState::default();
            return None;
        }
        let o = Binary32 { bits: 0 };
        let i = self.inertia;
        let speed = host(Op::Hypot(i.vx, i.vy));
        if !cfg.min_speed.le(speed) {
            self.inertia = InertiaState { active: false, acc_x: o, acc_y: o, ..i };
            return None;
        }
        let total_x = moved_of(host, i.acc_x, i.vx, secs);
        let total_y = moved_of(host, i.acc_y, i.vy, secs);
        let step_x = total_x.trunc_to_i32();
        let step_y = total_y.trunc_to_i32();
        let acc_x = host(Op::Sub(total_x, Binary32::from_i32(step_x)));
        let acc_y = host(Op::Sub(total_y, Binary32::from_i32(step_y)));
        let factor = decay_of(host, secs, cfg);
        let vx = host(Op::Mul(i.vx, factor));
        let vy = host(Op::Mul(i.vy, factor));
        let slower = host(Op::Hypot(vx, vy));
        if slower.lt(cfg.min_speed) {
            self.inertia = InertiaState { active: false, vx, vy, acc_x: o, acc_y: o };
        } else {
            self.inertia = InertiaState { active: true, vx, vy, acc_x, acc_y };
        }
        Some((step_x, step_y))
    }
}

/// The single-pixel moves that make up a move of `step` pixels along an axis:
/// the direction of each, and how many there are.
pub fn pulses(step: i32) -> (r: (i32, i32))
    requires
        step > i32::MIN,
    ensures
        step > 0 ==> r.0 == 1 && r.1 == step,
        step == 0 ==> r.0 == 0 && r.1 == 0,
        step < 0 ==> r.0 == -1 && r.1 == -step,
{
    if step > 0 {
        (1, step)
    } else if step == 0 {
        (0, 0)
    } else {
        (-1, -step)
    }
}

/// A time step keeps the state consistent.
pub proof fn law_tick_keeps_consistency(m: Arith, s: State, span: u64, now: u64, cfg: Config)
    requires
        s.consistent(),
    ensures
        (State { inertia: inertia_after(m, s, span, now, cfg), ..s }).consistent(),
{
}

/// A finger on the trackpad stops the glide at once, and the pointer does not move
/// on while it is there.
pub proof fn law_touch_stops_glide(
    m: Arith,
    s: State,
    now: u64,
    span: u64,
    later: u64,
    cfg: Config,
)
    requires
        fingers(s.slots) > 0,
    ensures
        updated(m, s, now, cfg).inertia == InertiaState::stopped(),
        pixels_after(m, updated(m, s, now, cfg), span, later, cfg) is None,
{
}

/// A glide starts only when the last finger leaves the trackpad, outside a grace
/// period and out of a swipe.
pub proof fn law_only_a_swipe_starts_a_glide(m: Arith, s: State, now: u64, cfg: Config)
    requires
        !s.inertia.active,
    ensures
        updated(m, s, now, cfg).inertia.active <==> starts_glide(m, s, now, cfg),
{
}

/// After a swipe the pointer goes on: the glide has the velocity of the swipe at the
/// start speed, it is still there at any later moment if nothing else happened, and
/// as long as it is fast enough the pointer moves by what it adds up to.
pub proof fn law_swipe_glides_on(
    m: Arith,
    s: State,
    now: u64,
    span: u64,
    later: u64,
    cfg: Config,
)
    requires
        starts_glide(m, s, now, cfg),
        now <= later,
    ensures
        ({
            let after = updated(m, s, now, cfg);
            let v = start_velocity(m, swipe(m, s.samples, now, cfg)->0, cfg);
            &&& after.inertia == InertiaState::started(v)
            &&& gliding(after, later)
            &&& fast_enough(m, after.inertia, cfg) ==> pixels_after(m, after, span, later, cfg)
                == Some(pixels(m, after.inertia, step_seconds(m, span)))
        }),
{
}

/// Where no glide runs, time changes nothing and the pointer does not move.
pub proof fn law_rest_stays_rest(m: Arith, s: State, span: u64, now: u64, cfg: Config)
    requires
        !s.inertia.active,
        s.finger_count == 0,
    ensures
        inertia_after(m, s, span, now, cfg) == s.inertia,
        pixels_after(m, s, span, now, cfg) is None,
{
}

/// A glide that goes on has not become slower than the least speed; one that has
/// is over, and owes no part of a pixel.
pub proof fn law_slow_glides_end(m: Arith, s: State, span: u64, now: u64, cfg: Config)
    requires
        gliding(s, now),
    ensures
        ({
            let i = inertia_after(m, s, span, now, cfg);
            &&& i.active ==> !m(Op::Hypot(i.vx, i.vy)).below(cfg.min_speed)
            &&& !i.active ==> i.acc_x == Binary32::zero() && i.acc_y == Binary32::zero()
            &&& !fast_enough(m, s.inertia, cfg) ==> !i.active
        }),
{
}

/// A glide slows down: where the factor of a time step lies between 0 and 1, the
/// velocity is no larger after it on either axis, nor is the speed where the
/// arithmetic keeps the order of the numbers.
pub proof fn law_glides_slow_down(m: Arith, i: InertiaState, secs: Binary32, cfg: Config)
    requires
        shrinks(m),
        fraction(decay(m, secs, cfg)),
        multiplies(i.vx, decay(m, secs, cfg)),
        multiplies(i.vy, decay(m, secs, cfg)),
    ensures
        ({
            let next = glided(m, i, secs, cfg);
            &&& next.vx.size().at_most(i.vx.size())
            &&& next.vy.size().at_most(i.vy.size())
            &&& keeps_order(m) ==> m(Op::Hypot(next.vx, next.vy)).at_most(m(Op::Hypot(i.vx, i.vy)))
        }),
{
}

/// The factor of a time step lies between 0 and 1 where the friction does.
pub proof fn law_friction_never_speeds_up(m: Arith, span: u64, cfg: Config)
    requires
        keeps_fractions(m),
        fraction(cfg.friction_per_16ms),
    ensures
        fraction(decay(m, step_seconds(m, span), cfg)),
{
    lemma2_to64();
    lemma2_to64_rest();
    lemma_spells(0x3a83_126f, 1, 1000);
    lemma_spells(0x3c83_126f, 16, 1000);
    lemma_rank_orders(Binary32::zero(), Binary32 { bits: 0x3a83_126f });
    lemma_rank_orders(Binary32::zero(), Binary32 { bits: 0x3c83_126f });
}

/// Zero is no larger than anything.
proof fn lemma_sizes_of_zero(a: Binary32)
    requires
        !a.nan(),
    ensures
        Binary32::zero().size().at_most(a.size()),
{
    lemma_rank_orders(Binary32::zero().size(), a.size());
}

/// From one time step to the next the velocity of the glide becomes no larger
/// on either axis, for a friction between 0 and 1.
pub proof fn law_velocity_never_grows(m: Arith, s: State, span: u64, now: u64, cfg: Config)
    requires
        shrinks(m),
        keeps_fractions(m),
        fraction(cfg.friction_per_16ms),
        multiplies(s.inertia.vx, decay(m, step_seconds(m, span), cfg)),
        multiplies(s.inertia.vy, decay(m, step_seconds(m, span), cfg)),
    ensures
        inertia_after(m, s, span, now, cfg).vx.size().at_most(s.inertia.vx.size()),
        inertia_after(m, s, span, now, cfg).vy.size().at_most(s.inertia.vy.size()),
{
    law_friction_never_speeds_up(m, span, cfg);
    lemma_sizes_of_zero(s.inertia.vx);
    lemma_sizes_of_zero(s.inertia.vy);
    law_glides_slow_down(m, s.inertia, step_seconds(m, span), cfg);
}

/// A finger that is put down starts a new swipe and ends any grace period.
pub proof fn law_new_touch_starts_afresh(m: Arith, s: State, now: u64, cfg: Config)
    requires
        s.finger_count == 0,
        fingers(s.slots) > 0,
    ensures
        updated(m, s, now, cfg).suppress_until is None,
        updated(m, s, now, cfg).samples.len() <= 1,
        fingers(s.slots) == 1 ==> {
            let (x, y) = sole(s.slots)->0;
            updated(m, s, now, cfg).samples == seq![Sample { x, y, t: now }]
        },
{
    let (x, y) = sole(s.slots)->0;
    let one = Seq::<Sample>::empty().push(Sample { x, y, t: now });
    assert(one == seq![Sample { x, y, t: now }]);
    assert(millis_between(now, now) == 0);
    assert(pruned(one, now, cfg.sample_window_ms) == one);
}

/// A finger that rests where it was last seen leaves the samples as they are.
pub proof fn law_resting_finger_adds_nothing(m: Arith, s: State, now: u64, cfg: Config)
    requires
        s.consistent(),
        s.finger_count == 1,
        fingers(s.slots) == 1,
        s.samples.len() > 0,
        sole(s.slots) == Some((s.samples.last().x, s.samples.last().y)),
    ensures
        updated(m, s, now, cfg).samples == s.samples,
{
    assert(s.samples[s.samples.len() - 1] == s.samples.last());
}

/// A sample is taken of a finger that moved, and none is older than the window then.
pub proof fn law_moving_finger_is_sampled(m: Arith, s: State, now: u64, cfg: Config)
    requires
        s.finger_count == 1,
        fingers(s.slots) == 1,
        !suppressed(s.suppress_until, now),
        in_order(s.samples, now),
        ({
            let (x, y) = sole(s.slots)->0;
            s.samples.len() > 0 ==> !(s.samples.last().x.same(x) && s.samples.last().y.same(y))
        }),
    ensures
        ({
            let (x, y) = sole(s.slots)->0;
            let after = updated(m, s, now, cfg).samples;
            &&& after.len() > 0
            &&& after.last() == Sample { x, y, t: now }
            &&& forall|i: int|
                0 <= i < after.len() ==> millis_between(now, (#[trigger] after[i]).t)
                    <= cfg.sample_window_ms
        }),
{
    let (x, y) = sole(s.slots)->0;
    let new = Sample { x, y, t: now };
    let more = s.samples.push(new);
    let window = cfg.sample_window_ms;
    assert(in_order(more, now));
    law_pruning_drops_the_oldest(more, now, window);
    let n = stale(more, now, window);
    let after = more.skip(n);
    assert(updated(m, s, now, cfg).samples == after);
    assert(millis_between(now, now) == 0);
    assert(more[more.len() - 1] == new);
    assert(n < more.len());
    assert(after.last() == new);
    assert forall|i: int| 0 <= i < after.len() implies millis_between(now, (#[trigger] after[i]).t)
        <= window by {
        let (a, b) = (more[n].t, more[n + i].t);
        assert(a <= b <= now);
        assert((now - b) / 1_000_000 <= (now - a) / 1_000_000);
    }
}

/// While several fingers are down nothing is sampled, and the end of a gesture starts
/// no glide.
pub proof fn law_gestures_are_left_alone(m: Arith, s: State, now: u64, cfg: Config)
    requires
        s.consistent(),
    ensures
        fingers(s.slots) > 1 ==> updated(m, s, now, cfg).samples == (if s.finger_count == 0 {
            Seq::empty()
        } else {
            s.samples
        }),
        s.finger_count > 1 ==> !updated(m, s, now, cfg).inertia.active,
{
}

/// The state after the fingers were looked at several times. Each look has the
/// slots as they are by then, and a moment.
pub open spec fn updated_all(m: Arith, s: State, looks: Seq<(Slots, u64)>, cfg: Config) -> State
    decreases looks.len(),
{
    if looks.len() == 0 {
        s
    } else {
        let before = updated_all(m, s, looks.drop_last(), cfg);
        let (slots, now) = looks.last();
        updated(m, State { slots, ..before }, now, cfg)
    }
}

proof fn lemma_grace_goes_on(
    m: Arith,
    s: State,
    start: u64,
    looks: Seq<(Slots, u64)>,
    cfg: Config,
)
    requires
        s.finger_count > 1,
        fingers(s.slots) == 1,
        start < grace_end(start, cfg.grace_ms),
        forall|i: int|
            0 <= i < looks.len() ==> fingers((#[trigger] looks[i]).0) == 1 && looks[i].1
                < grace_end(start, cfg.grace_ms),
    ensures
        ({
            let after = updated_all(m, updated(m, s, start, cfg), looks, cfg);
            &&& after.finger_count == 1
            &&& after.samples == Seq::<Sample>::empty()
            &&& after.suppress_until == Some(grace_end(start, cfg.grace_ms))
            &&& after.inertia == InertiaState::stopped()
        }),
    decreases looks.len(),
{
    if looks.len() > 0 {
        let fewer = looks.drop_last();
        assert forall|i: int| 0 <= i < fewer.len() implies fingers((#[trigger] fewer[i]).0) == 1
            && fewer[i].1 < grace_end(start, cfg.grace_ms) by {
            assert(fewer[i] == looks[i]);
        }
        lemma_grace_goes_on(m, s, start, fewer, cfg);
        assert(looks[looks.len() - 1] == looks.last());
    }
}

/// After a gesture with several fingers, when one of them is still down, no glide
/// starts until the grace period is over: however often the fingers are looked at
/// before the last one is lifted, its being lifted within the period starts none.
pub proof fn law_grace_period_blocks_glides(
    m: Arith,
    s: State,
    start: u64,
    looks: Seq<(Slots, u64)>,
    lifted: Slots,
    end: u64,
    cfg: Config,
)
    requires
        s.finger_count > 1,
        fingers(s.slots) == 1,
        start <= end,
        forall|i: int|
            0 <= i < looks.len() ==> fingers((#[trigger] looks[i]).0) == 1 && looks[i].1
                < grace_end(start, cfg.grace_ms),
        fingers(lifted) == 0,
        end < grace_end(start, cfg.grace_ms),
    ensures
        ({
            let held = updated_all(m, updated(m, s, start, cfg), looks, cfg);
            let after = updated(m, State { slots: lifted, ..held }, end, cfg);
            &&& held.inertia == InertiaState::stopped()
            &&& after.inertia == InertiaState::stopped()
            &&& after.samples == Seq::<Sample>::empty()
        }),
{
    lemma_grace_goes_on(m, s, start, looks, cfg);
}

} // verus!
