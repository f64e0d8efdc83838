use inertia::arith::Op;
use inertia::binary32::Binary32;
use inertia::config::Config;
use inertia::motion::{estimate_release_velocity, Sample};
use inertia::state::{pulses, InertiaState, SharedState};
use inertia::touch::{
    handle_event, RawEvent, ABS_MT_POSITION_X, ABS_MT_POSITION_Y, ABS_MT_SLOT, ABS_MT_TRACKING_ID,
    EV_ABS,
};
use std::collections::VecDeque;
use std::time::Duration;

const MS: u64 = 1_000_000;

fn b(v: f32) -> Binary32 {
    Binary32 { bits: v.to_bits() }
}

fn f(v: Binary32) -> f32 {
    f32::from_bits(v.bits)
}

fn host(op: Op) -> Binary32 {
    b(match op {
        Op::Add(x, y) => f(x) + f(y),
        Op::Sub(x, y) => f(x) - f(y),
        Op::Mul(x, y) => f(x) * f(y),
        Op::Div(x, y) => f(x) / f(y),
        Op::Pow(x, y) => f(x).powf(f(y)),
        Op::Hypot(x, y) => f(x).hypot(f(y)),
        Op::Square(x) => f(x).powi(2),
        Op::Sqrt(x) => f(x).sqrt(),
        Op::Seconds(n) => Duration::from_nanos(n).as_secs_f32(),
    })
}

/// Puts a finger down in a slot, or moves it.
fn put(st: &mut SharedState, slot: i32, x: i32, y: i32) {
    let mut at = 0;
    for (code, value) in [
        (ABS_MT_SLOT, slot),
        (ABS_MT_TRACKING_ID, 1),
        (ABS_MT_POSITION_X, x),
        (ABS_MT_POSITION_Y, y),
    ] {
        at = handle_event(&mut st.slots, at, RawEvent { event_type: EV_ABS, code, value });
    }
}

fn lift(st: &mut SharedState, slot: i32) {
    handle_event(
        &mut st.slots,
        slot,
        RawEvent { event_type: EV_ABS, code: ABS_MT_TRACKING_ID, value: -1 },
    );
}

/// A swipe to the right of 60 ms that ends at the given time.
fn swipe(st: &mut SharedState, cfg: &Config, end: u64) {
    for i in 0..10 {
        put(st, 0, 100 + 15 * i, 500);
        st.update(end - 60 * MS + 6 * MS * i as u64, cfg, &host);
    }
    lift(st, 0);
    st.update(end, cfg, &host);
}

#[test]
fn nothing_happens_at_first() {
    let cfg = Config::default();
    let mut st = SharedState::new();
    assert_eq!(st.finger_count, 0);
    assert!(st.slots.is_empty() && st.samples.is_empty() && st.suppress_until.is_none());
    assert_eq!(st.inertia, InertiaState::default());
    st.update(MS, &cfg, &host);
    assert_eq!(st.tick(2 * MS, 0, &cfg, &host), None);
    assert_eq!(st.inertia, InertiaState::default());
}

#[test]
fn a_swipe_glides_and_slows_down() {
    let cfg = Config::default();
    let mut st = SharedState::new();
    swipe(&mut st, &cfg, 100 * MS);
    assert!(st.inertia.active);
    assert!(f(st.inertia.vx) > 0.0);
    let mut way = 0;
    let mut ticks = 0;
    let mut speed = f(st.inertia.vx).hypot(f(st.inertia.vy));
    while let Some((dx, _)) = st.tick((102 + 2 * ticks) * MS, (100 + 2 * ticks) * MS, &cfg, &host) {
        let slower = f(st.inertia.vx).hypot(f(st.inertia.vy));
        assert!(slower < speed);
        speed = slower;
        way += dx;
        ticks += 1;
        assert!(ticks < 10_000);
    }
    assert!(way > 100);
    assert!(!st.inertia.active);
    assert!(speed < 25.0);
    assert_eq!((f(st.inertia.acc_x), f(st.inertia.acc_y)), (0.0, 0.0));
}

#[test]
fn a_touch_stops_the_glide() {
    let cfg = Config::default();
    let mut st = SharedState::new();
    swipe(&mut st, &cfg, 100 * MS);
    assert!(st.tick(102 * MS, 100 * MS, &cfg, &host).is_some());
    put(&mut st, 2, 5, 5);
    st.update(103 * MS, &cfg, &host);
    assert_eq!(st.inertia, InertiaState::default());
    assert_eq!(st.tick(104 * MS, 102 * MS, &cfg, &host), None);
    assert_eq!(st.samples.len(), 1);
    assert_eq!(st.samples[0], Sample { x: b(5.0), y: b(5.0), t: 103 * MS });
}

#[test]
fn no_glide_starts_in_the_grace_period() {
    let cfg = Config::default();
    let mut st = SharedState::new();
    put(&mut st, 0, 10, 10);
    put(&mut st, 1, 90, 10);
    st.update(10 * MS, &cfg, &host);
    assert_eq!(st.finger_count, 2);
    assert!(st.samples.is_empty());
    lift(&mut st, 1);
    st.update(20 * MS, &cfg, &host);
    assert_eq!(st.suppress_until, Some(100 * MS as u128));
    for i in 0..9 {
        put(&mut st, 0, 10 + 20 * i, 10);
        st.update((21 + 6 * i as u64) * MS, &cfg, &host);
        assert!(st.samples.is_empty());
    }
    lift(&mut st, 0);
    st.update(99 * MS, &cfg, &host);
    assert_eq!(st.inertia, InertiaState::default());
    assert_eq!(st.finger_count, 0);
    swipe(&mut st, &cfg, 300 * MS);
    assert!(st.inertia.active);
}

#[test]
fn gestures_are_left_alone() {
    let cfg = Config::default();
    let mut st = SharedState::new();
    put(&mut st, 0, 10, 10);
    st.update(0, &cfg, &host);
    assert_eq!(st.samples.len(), 1);
    for i in 0..8 {
        put(&mut st, 0, 10 + 20 * i, 10);
        put(&mut st, 1, 90 + 20 * i, 10);
        st.update((1 + 6 * i as u64) * MS, &cfg, &host);
        assert_eq!(st.samples.len(), 1);
    }
    lift(&mut st, 0);
    lift(&mut st, 1);
    st.update(50 * MS, &cfg, &host);
    assert_eq!(st.finger_count, 0);
    assert_eq!(st.inertia, InertiaState::default());
}

#[test]
fn samples_are_taken_again_after_the_grace_period() {
    let cfg = Config::default();
    let mut st = SharedState::new();
    put(&mut st, 0, 10, 10);
    put(&mut st, 1, 90, 10);
    st.update(10 * MS, &cfg, &host);
    lift(&mut st, 1);
    st.update(20 * MS, &cfg, &host);
    st.update(100 * MS, &cfg, &host);
    assert_eq!(st.samples.len(), 1);
}

#[test]
fn a_resting_finger_adds_no_sample() {
    let cfg = Config::default();
    let mut st = SharedState::new();
    put(&mut st, 0, 10, 10);
    st.update(10 * MS, &cfg, &host);
    st.update(200 * MS, &cfg, &host);
    assert_eq!(st.samples.len(), 1);
    assert_eq!(st.samples[0].t, 10 * MS);
    put(&mut st, 0, 11, 10);
    st.update(300 * MS, &cfg, &host);
    assert_eq!(st.samples.len(), 1);
    assert_eq!(st.samples[0].t, 300 * MS);
}

#[test]
fn a_glide_in_a_grace_period_stops() {
    let cfg = Config::default();
    let mut st = SharedState::new();
    swipe(&mut st, &cfg, 100 * MS);
    st.suppress_until = Some(150 * MS as u128);
    assert_eq!(st.tick(102 * MS, 100 * MS, &cfg, &host), None);
    assert_eq!(st.inertia, InertiaState::default());
}

#[test]
fn a_slow_glide_ends() {
    let cfg = Config::default();
    let mut st = SharedState::new();
    st.inertia =
        InertiaState { active: true, vx: b(20.0), vy: b(3.0), acc_x: b(0.5), acc_y: b(0.25) };
    assert_eq!(st.tick(2 * MS, 0, &cfg, &host), None);
    let ended = InertiaState { active: false, vx: b(20.0), vy: b(3.0), acc_x: b(0.0), acc_y: b(0.0) };
    assert_eq!(st.inertia, ended);
}

#[test]
fn one_time_step() {
    let cfg = Config::default();
    let mut st = SharedState::new();
    st.inertia =
        InertiaState { active: true, vx: b(-1000.0), vy: b(300.0), acc_x: b(-0.5), acc_y: b(0.0) };
    let r = st.tick(16 * MS, 0, &cfg, &host);
    assert_eq!(r, Some((-16, 4)));
    let secs = Duration::from_millis(16).as_secs_f32();
    let decay = 0.965f32.powf(secs / 0.016f32);
    assert_eq!(st.inertia.vx.bits, (-1000.0 * decay).to_bits());
    assert_eq!(st.inertia.vy.bits, (300.0 * decay).to_bits());
    assert_eq!(st.inertia.acc_x.bits, (-0.5 + -1000.0 * secs + 16.0f32).to_bits());
    assert_eq!(st.inertia.acc_y.bits, (0.0 + 300.0 * secs - 4.0f32).to_bits());
    assert!(st.inertia.active);
    // The time step is a thousandth of a second at least.
    st.inertia = InertiaState { vx: b(5000.0), acc_x: b(0.0), ..st.inertia };
    let r = st.tick(16 * MS, 16 * MS, &cfg, &host);
    assert_eq!(r.map(|(x, _)| x), Some((5000.0f32 * 0.001) as i32));
}

#[test]
fn a_glide_is_foreseen() {
    let cfg = Config::default();
    let mut st = SharedState::new();
    for i in 0..10 {
        put(&mut st, 0, 100 + 15 * i, 500);
        assert!(!st.will_start_glide(6 * MS * i as u64, &cfg, &host));
        st.update(6 * MS * i as u64, &cfg, &host);
    }
    lift(&mut st, 0);
    assert!(st.will_start_glide(60 * MS, &cfg, &host));
    assert!(!st.will_start_glide(600 * MS, &cfg, &host));
    st.update(60 * MS, &cfg, &host);
    assert!(!st.will_start_glide(60 * MS, &cfg, &host));
}

#[test]
fn moves_are_made_of_single_pixels() {
    assert_eq!(pulses(5), (1, 5));
    assert_eq!(pulses(-3), (-1, 3));
    assert_eq!(pulses(0), (0, 0));
    for step in [i32::MAX, i32::MIN + 1, 1, -1] {
        let (dir, count) = pulses(step);
        assert_eq!((dir, count), (step.signum(), step.abs()));
    }
}

/// The same rules, written with plain numbers.
struct Plain {
    slots: Vec<(i32, bool, Option<f32>, Option<f32>)>,
    fingers: usize,
    samples: VecDeque<Sample>,
    until: Option<u64>,
    glide: (bool, f32, f32, f32, f32),
}

impl Plain {
    fn slot(&mut self, k: i32) -> &mut (i32, bool, Option<f32>, Option<f32>) {
        if !self.slots.iter().any(|s| s.0 == k) {
            self.slots.push((k, false, None, None));
        }
        self.slots.iter_mut().find(|s| s.0 == k).unwrap()
    }

    fn suppressed(&self, now: u64) -> bool {
        self.until.map_or(false, |t| now < t)
    }

    fn look(&mut self, now: u64, cfg: &Config) {
        let prev = self.fingers;
        let down: Vec<(f32, f32)> = self
            .slots
            .iter()
            .filter(|s| s.1 && s.2.is_some() && s.3.is_some())
            .map(|s| (s.2.unwrap(), s.3.unwrap()))
            .collect();
        let count = down.len();
        self.fingers = count;
        if count > 0 {
            self.glide = (false, 0.0, 0.0, 0.0, 0.0);
        }
        if prev == 0 && count > 0 {
            self.samples.clear();
            self.until = None;
        }
        if prev > 1 && count == 1 {
            self.samples.clear();
            self.until = Some(now + cfg.grace_ms * MS);
        }
        if count == 1 && !self.suppressed(now) {
            let push = match self.samples.back() {
                Some(last) => f(last.x) != down[0].0 || f(last.y) != down[0].1,
                None => true,
            };
            if push {
                self.samples.push_back(Sample { x: b(down[0].0), y: b(down[0].1), t: now });
                while let Some(front) = self.samples.front() {
                    if (now - front.t) / MS > cfg.sample_window_ms {
                        self.samples.pop_front();
                    } else {
                        break;
                    }
                }
            }
        }
        if prev == 1 && count == 0 {
            if self.suppressed(now) {
                self.glide = (false, 0.0, 0.0, 0.0, 0.0);
                self.samples.clear();
            } else if let Some((vx, vy)) =
                estimate_release_velocity(&self.samples, now, cfg, &host)
            {
                self.glide = (true, f(vx), f(vy), 0.0, 0.0);
            } else {
                self.glide = (false, 0.0, 0.0, 0.0, 0.0);
            }
        }
    }

    fn step(&mut self, now: u64, last: u64, cfg: &Config) -> Option<(i32, i32)> {
        let secs = Duration::from_nanos(now - last).as_secs_f32().max(0.001);
        let (active, vx, vy, ax, ay) = self.glide;
        if self.fingers > 0 {
            self.glide = (false, 0.0, 0.0, 0.0, 0.0);
            return None;
        }
        if !active {
            return None;
        }
        if self.suppressed(now) {
            self.glide = (false, 0.0, 0.0, 0.0, 0.0);
            return None;
        }
        if vx.hypot(vy) >= f(cfg.min_speed) {
            let (mut ax, mut ay) = (ax + vx * secs, ay + vy * secs);
            let (sx, sy) = (ax.trunc() as i32, ay.trunc() as i32);
            ax -= sx as f32;
            ay -= sy as f32;
            let decay = f(cfg.friction_per_16ms).powf(secs / 0.016f32);
            let (vx, vy) = (vx * decay, vy * decay);
            self.glide = if vx.hypot(vy) < f(cfg.min_speed) {
                (false, vx, vy, 0.0, 0.0)
            } else {
                (true, vx, vy, ax, ay)
            };
            Some((sx, sy))
        } else {
            self.glide = (false, vx, vy, 0.0, 0.0);
            None
        }
    }
}

#[test]
fn random_sessions() {
    let cfg = Config::default();
    let mut seed: u64 = 42;
    let mut next = move |n: u64| {
        seed = seed.wrapping_mul(6364136223846793005).wrapping_add(1442695040888963407);
        (seed >> 33) % n
    };
    let mut moves = 0;
    for _ in 0..60 {
        let mut st = SharedState::new();
        let mut plain = Plain {
            slots: Vec::new(),
            fingers: 0,
            samples: VecDeque::new(),
            until: None,
            glide: (false, 0.0, 0.0, 0.0, 0.0),
        };
        let (mut now, mut last, mut x, mut y) = (0u64, 0u64, 500i32, 500i32);
        let mut at = 0;
        for _ in 0..400 {
            now += next(9) * 700_001;
            let mut events = Vec::new();
            match next(14) {
                0 => events.push((ABS_MT_TRACKING_ID, -1)),
                1 => events.push((ABS_MT_TRACKING_ID, 5)),
                2 => events.push((ABS_MT_SLOT, next(2) as i32)),
                _ => {
                    x += next(25) as i32 - 4;
                    y += next(9) as i32 - 4;
                    events.push((ABS_MT_POSITION_X, x));
                    events.push((ABS_MT_POSITION_Y, y));
                }
            }
            for (code, value) in events {
                let event = RawEvent { event_type: EV_ABS, code, value };
                at = handle_event(&mut st.slots, at, event);
                let slot = plain.slot(at);
                if code == ABS_MT_TRACKING_ID {
                    slot.1 = value >= 0;
                    if value < 0 {
                        slot.2 = None;
                        slot.3 = None;
                    }
                } else if code == ABS_MT_POSITION_X {
                    slot.2 = Some(value as f32);
                } else if code == ABS_MT_POSITION_Y {
                    slot.3 = Some(value as f32);
                }
            }
            st.update(now, &cfg, &host);
            plain.look(now, &cfg);
            let r = st.tick(now, last, &cfg, &host);
            assert_eq!(r, plain.step(now, last, &cfg));
            last = now;
            assert!(!st.inertia.active || st.finger_count == 0);
            if !st.inertia.active {
                assert_eq!((st.inertia.acc_x.bits, st.inertia.acc_y.bits), (0, 0));
            }
            for i in 1..st.samples.len() {
                let (p, q) = (st.samples[i - 1], st.samples[i]);
                assert!(p.t <= q.t && (p.x != q.x || p.y != q.y));
            }
            assert!(st.samples.iter().all(|s| s.t <= now && !s.x.is_nan() && !s.y.is_nan()));
            moves += r.is_some() as u32;
            assert_eq!(st.finger_count, plain.fingers);
            assert_eq!(st.samples, plain.samples);
            assert_eq!(st.suppress_until, plain.until.map(|t| t as u128));
            let i = st.inertia;
            let (active, vx, vy, ax, ay) = plain.glide;
            assert_eq!(
                (i.active, i.vx.bits, i.vy.bits, i.acc_x.bits, i.acc_y.bits),
                (active, vx.to_bits(), vy.to_bits(), ax.to_bits(), ay.to_bits())
            );
        }
    }
    assert!(moves > 50, "{moves}");
}

#[test]
fn the_velocity_never_grows_on_either_axis() {
    let mut cfg = Config::default();
    for friction in [0.0f32, 0.5, 0.965, 1.0] {
        cfg.friction_per_16ms = b(friction);
        let mut st = SharedState::new();
        st.inertia =
            InertiaState { active: true, vx: b(-900.0), vy: b(410.0), acc_x: b(0.0), acc_y: b(0.0) };
        for i in 0..40u64 {
            let before = st.inertia;
            st.tick(5 * (i + 1) * MS, 5 * i * MS, &cfg, &host);
            assert!(f(st.inertia.vx).abs() <= f(before.vx).abs());
            assert!(f(st.inertia.vy).abs() <= f(before.vy).abs());
        }
        assert_eq!(st.inertia.active, friction > 0.5);
        if friction == 1.0 {
            assert_eq!((f(st.inertia.vx), f(st.inertia.vy)), (-900.0, 410.0));
        }
    }
}
