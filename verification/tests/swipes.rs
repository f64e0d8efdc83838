use inertia::arith::Op;
use inertia::binary32::Binary32;
use inertia::config::Config;
use inertia::motion::{
    estimate_release_velocity, estimate_swipe, launch, millis_since, nanos_since, prune_samples,
    weighted_velocity, Sample, Swipe,
};
use std::collections::VecDeque;
use std::time::Duration;

fn b(v: f32) -> Binary32 {
    Binary32 { bits: v.to_bits() }
}

fn f(v: Binary32) -> f32 {
    f32::from_bits(v.bits)
}

fn host(op: Op) -> Binary32 {
    b(match op {
        Op::Add(x, y) => f(x) + f(y),
        Op::Sub(x, y) => f(x) - f(y),
        Op::Mul(x, y) => f(x) * f(y),
        Op::Div(x, y) => f(x) / f(y),
        Op::Pow(x, y) => f(x).powf(f(y)),
        Op::Hypot(x, y) => f(x).hypot(f(y)),
        Op::Square(x) => f(x).powi(2),
        Op::Sqrt(x) => f(x).sqrt(),
        Op::Seconds(n) => Duration::from_nanos(n).as_secs_f32(),
    })
}

fn sample(x: f32, y: f32, ms: u64) -> Sample {
    Sample { x: b(x), y: b(y), t: ms * 1_000_000 }
}

fn since(later: u64, earlier: u64) -> Duration {
    Duration::from_nanos(later.saturating_sub(earlier))
}

/// The regression, written with the numbers themselves.
fn regression(samples: &[Sample]) -> Option<(f32, f32)> {
    if samples.len() < 2 {
        return None;
    }
    let (mut sw, mut st, mut sx, mut sy) = (0.0f32, 0.0f32, 0.0f32, 0.0f32);
    let (mut stt, mut stx, mut sty) = (0.0f32, 0.0f32, 0.0f32);
    for (i, s) in samples.iter().enumerate() {
        let w = 1.0 + i as f32;
        let t = since(s.t, samples[0].t).as_secs_f32();
        sw += w;
        st += w * t;
        sx += w * f(s.x);
        sy += w * f(s.y);
        stt += w * t * t;
        stx += w * t * f(s.x);
        sty += w * t * f(s.y);
    }
    let denom = sw * stt - st * st;
    if denom.abs() < 1e-6 {
        return None;
    }
    Some(((sw * stx - st * sx) / denom, (sw * sty - st * sy) / denom))
}

/// The estimate, written with the numbers themselves.
fn estimate(samples: &VecDeque<Sample>, now: u64, cfg: &Config) -> Option<(f32, f32)> {
    if samples.len() < 3 {
        return None;
    }
    let newest = *samples.back()?;
    let age_ms = since(now, newest.t).as_secs_f32() * 1000.0;
    let confidence = (1.0 - (age_ms / cfg.max_sample_staleness_ms as f32)).clamp(0.0, 1.0);
    if confidence <= 0.05 {
        return None;
    }
    let mut segment = vec![newest];
    let mut last = newest;
    let mut total = 0.0f32;
    for &s in samples.iter().rev().skip(1) {
        if since(newest.t, s.t).as_millis() as u64 > cfg.sample_window_ms {
            break;
        }
        let dt_ms = since(last.t, s.t).as_millis() as u64;
        let dist = ((f(last.x) - f(s.x)).powi(2) + (f(last.y) - f(s.y)).powi(2)).sqrt();
        if dt_ms > cfg.pause_gap_ms
            && dist < f(cfg.pause_dist_threshold)
            && total >= f(cfg.min_travel)
        {
            break;
        }
        segment.push(s);
        total += dist;
        last = s;
    }
    if segment.len() < 3 || total < f(cfg.min_travel) {
        return None;
    }
    segment.reverse();
    let (mut vx, mut vy) = regression(&segment)?;
    vx *= confidence;
    vy *= confidence;
    let mag = vx.hypot(vy);
    if mag < 1.0 {
        return None;
    }
    let target = (mag * f(cfg.trackpad_to_pixel) * f(cfg.release_gain))
        .clamp(f(cfg.start_speed_min), f(cfg.start_speed_max));
    let scale = target / mag;
    Some((vx * scale, vy * scale))
}

fn bits(v: Option<(f32, f32)>) -> Option<(u32, u32)> {
    v.map(|(x, y)| (x.to_bits(), y.to_bits()))
}

fn bits_of(v: Option<(Binary32, Binary32)>) -> Option<(u32, u32)> {
    v.map(|(x, y)| (x.bits, y.bits))
}

#[test]
fn time_spans() {
    assert_eq!(nanos_since(10, 3), 7);
    assert_eq!(nanos_since(3, 10), 0);
    assert_eq!(millis_since(2_999_999, 0), 2);
    assert_eq!(millis_since(0, 5_000_000), 0);
}

#[test]
fn samples_older_than_the_window_are_dropped() {
    let mut samples: VecDeque<Sample> =
        vec![sample(0.0, 0.0, 0), sample(1.0, 0.0, 10), sample(2.0, 0.0, 60)].into();
    prune_samples(&mut samples, 60_000_000, 50);
    assert_eq!(samples.len(), 2);
    assert_eq!(samples[0], sample(1.0, 0.0, 10));
    prune_samples(&mut samples, 60_999_999, 50);
    assert_eq!(samples.len(), 2);
    prune_samples(&mut samples, 61_000_000, 50);
    assert_eq!(samples.len(), 1);
    prune_samples(&mut samples, 10_000_000_000, 50);
    assert_eq!(samples.len(), 0);
}

#[test]
fn straight_movement_has_its_slope() {
    let samples = [sample(0.0, 0.0, 0), sample(100.0, -50.0, 500), sample(200.0, -100.0, 1000)];
    let (vx, vy) = weighted_velocity(&samples, &host).unwrap();
    assert!((f(vx) - 200.0).abs() < 0.01);
    assert!((f(vy) + 100.0).abs() < 0.01);
    assert_eq!(bits_of(Some((vx, vy))), bits(regression(&samples)));
}

#[test]
fn regression_needs_a_spread_in_time() {
    assert!(weighted_velocity(&[], &host).is_none());
    assert!(weighted_velocity(&[sample(1.0, 2.0, 3)], &host).is_none());
    assert!(weighted_velocity(&[sample(1.0, 2.0, 3), sample(4.0, 5.0, 3)], &host).is_none());
}

#[test]
fn a_swipe_starts_a_glide() {
    let cfg = Config::default();
    let samples: VecDeque<Sample> =
        (0..6).map(|i| sample(20.0 * i as f32, 5.0 * i as f32, 8 * i)).collect();
    let now = 42_000_000;
    let v = estimate_release_velocity(&samples, now, &cfg, &host);
    assert!(v.is_some());
    assert_eq!(bits_of(v), bits(estimate(&samples, now, &cfg)));
}

#[test]
fn what_is_no_swipe_starts_none() {
    let cfg = Config::default();
    let few: VecDeque<Sample> = vec![sample(0.0, 0.0, 0), sample(50.0, 0.0, 8)].into();
    assert!(estimate_release_velocity(&few, 9_000_000, &cfg, &host).is_none());
    let fine: VecDeque<Sample> = (0..6).map(|i| sample(20.0 * i as f32, 0.0, 8 * i)).collect();
    assert!(estimate_release_velocity(&fine, 41_000_000, &cfg, &host).is_some());
    assert!(estimate_release_velocity(&fine, 400_000_000, &cfg, &host).is_none());
    let short: VecDeque<Sample> = (0..6).map(|i| sample(1.0 * i as f32, 0.0, 8 * i)).collect();
    assert!(estimate_release_velocity(&short, 41_000_000, &cfg, &host).is_none());
    let still: VecDeque<Sample> =
        (0..6).map(|i| sample(20.0 * (i % 2) as f32, 0.0, 0)).collect();
    assert!(estimate_release_velocity(&still, 0, &cfg, &host).is_none());
}

#[test]
fn what_came_before_the_window_does_not_count() {
    let cfg = Config::default();
    let recent: VecDeque<Sample> =
        (0..6).map(|i| sample(20.0 * i as f32, 0.0, 200 + 8 * i)).collect();
    let mut all: VecDeque<Sample> = vec![sample(-900.0, 70.0, 0), sample(33.0, 900.0, 100)].into();
    all.extend(recent.iter());
    let now = 241_000_000;
    assert_eq!(
        bits_of(estimate_release_velocity(&all, now, &cfg, &host)),
        bits_of(estimate_release_velocity(&recent, now, &cfg, &host))
    );
}

#[test]
fn start_speed_is_limited() {
    let cfg = Config::default();
    let slow = Swipe { vx: b(2.0), vy: b(0.0), speed: b(2.0) };
    let (vx, vy) = launch(slow, &cfg, &host);
    assert_eq!((f(vx), f(vy)), (120.0, 0.0));
    let fast = Swipe { vx: b(0.0), vy: b(-65536.0), speed: b(65536.0) };
    let (vx, vy) = launch(fast, &cfg, &host);
    assert_eq!((f(vx), f(vy)), (0.0, -7000.0));
    let middle = Swipe { vx: b(1024.0), vy: b(0.0), speed: b(1024.0) };
    let (vx, _) = launch(middle, &cfg, &host);
    assert_eq!(f(vx), 1024.0 * ((1024.0f32 * 0.25 * 1.8) / 1024.0));
}

#[test]
fn no_confidence_limit_gives_no_number() {
    let mut cfg = Config::default();
    cfg.max_sample_staleness_ms = 0;
    let samples: VecDeque<Sample> = (0..6).map(|i| sample(20.0 * i as f32, 0.0, 8 * i)).collect();
    let (vx, vy) = estimate_release_velocity(&samples, 40_000_000, &cfg, &host).unwrap();
    assert!(vx.is_nan() && vy.is_nan());
    assert!(estimate_release_velocity(&samples, 40_000_001, &cfg, &host).is_none());
}

#[test]
fn random_swipes() {
    let mut seed: u64 = 5;
    let mut next = move |n: u64| {
        seed = seed.wrapping_mul(6364136223846793005).wrapping_add(1442695040888963407);
        (seed >> 33) % n
    };
    let (mut glides, mut none) = (0, 0);
    for _ in 0..4000 {
        let mut cfg = Config::default();
        if next(3) == 0 {
            cfg.min_travel = b(1.0);
            cfg.pause_gap_ms = 5;
            cfg.pause_dist_threshold = b(6.0);
        }
        let (mut x, mut y, mut t) = (1000.0f32, 800.0f32, 1_000_000u64);
        let mut samples = VecDeque::new();
        for _ in 0..next(12) {
            samples.push_back(Sample { x: b(x), y: b(y), t });
            x += next(30) as f32 - 8.0;
            y += next(20) as f32 - 10.0;
            t += next(20) * 700_000;
        }
        let now = t + next(60) * 1_000_003;
        let v = estimate_release_velocity(&samples, now, &cfg, &host);
        assert_eq!(bits_of(v), bits(estimate(&samples, now, &cfg)));
        assert_eq!(estimate_swipe(&samples, now, &cfg, &host).is_some(), v.is_some());
        if v.is_some() {
            glides += 1;
        } else {
            none += 1;
        }
    }
    assert!(glides > 500 && none > 500);
}

#[test]
fn what_came_before_a_pause_does_not_count() {
    let mut cfg = Config::default();
    cfg.pause_gap_ms = 10;
    let recent: VecDeque<Sample> =
        (0..4).map(|i| sample(20.0 * i as f32, 0.0, 20 + 6 * i)).collect();
    let now = 40_000_000;
    let mut paused: VecDeque<Sample> = vec![sample(-9.0, 40.0, 3), sample(0.0, 0.5, 9)].into();
    paused.extend(recent.iter());
    let v = estimate_release_velocity(&recent, now, &cfg, &host);
    assert!(v.is_some());
    assert_eq!(bits_of(estimate_release_velocity(&paused, now, &cfg, &host)), bits_of(v));
    // Without the gap in time the samples belong to the swipe.
    cfg.pause_gap_ms = 11;
    assert_ne!(bits_of(estimate_release_velocity(&paused, now, &cfg, &host)), bits_of(v));
}

#[test]
fn a_glide_goes_the_way_of_the_finger() {
    let cfg = Config::default();
    for (dx, dy) in
        [(20, 5), (20, -5), (-20, 5), (-20, -5), (3, 20), (-3, 20), (3, -20), (-3, -20)]
    {
        let samples: VecDeque<Sample> =
            (0..6).map(|i| sample((dx * i) as f32, (dy * i) as f32, 8 * i as u64)).collect();
        let (vx, vy) = estimate_release_velocity(&samples, 42_000_000, &cfg, &host).unwrap();
        assert_eq!(f(vx) > 0.0, dx > 0);
        assert_eq!(f(vy) > 0.0, dy > 0);
        let (ux, uy) = regression(&Vec::from(samples)).unwrap();
        assert!((f(vx) / f(vy) - ux / uy).abs() < 1e-4 * (ux / uy).abs());
    }
}

#[test]
fn waiting_before_the_lift_never_helps() {
    let cfg = Config::default();
    let samples: VecDeque<Sample> =
        (0..6).map(|i| sample(30.0 * i as f32, 7.0 * i as f32, 8 * i)).collect();
    let mut before = f32::INFINITY;
    let mut over = false;
    for ms in 40..180 {
        let now = ms * 1_000_000;
        match estimate_swipe(&samples, now, &cfg, &host) {
            Some(s) => {
                assert!(!over);
                let (vx, vy) = launch(s, &cfg, &host);
                let speed = f(vx).hypot(f(vy));
                assert!(speed <= before * 1.000_001);
                assert!(speed >= 119.9 && speed <= 7000.1);
                before = speed;
            }
            None => over = true,
        }
    }
    assert!(over);
    assert!(before < 200.0);
}

#[test]
fn no_direction_differs_from_another() {
    let mut seed: u64 = 11;
    let mut next = move |n: u64| {
        seed = seed.wrapping_mul(6364136223846793005).wrapping_add(1442695040888963407);
        (seed >> 33) % n
    };
    let numbers = |v: Option<(Binary32, Binary32)>| v.map(|(x, y)| (f(x), f(y)));
    let mut glides = 0;
    for _ in 0..2000 {
        let mut cfg = Config::default();
        if next(2) == 0 {
            cfg.min_travel = b(1.0);
            cfg.pause_gap_ms = 5;
            cfg.pause_dist_threshold = b(6.0);
        }
        let (mut x, mut y, mut t) = (0.0f32, 0.0f32, 1_000_000u64);
        let mut path = Vec::new();
        for _ in 0..3 + next(9) {
            path.push((x, y, t));
            x += next(30) as f32 - 8.0;
            y += next(20) as f32 - 10.0;
            t += next(20) * 700_000;
        }
        let now = t + next(60) * 1_000_003;
        let glide = |turn: &dyn Fn(f32, f32) -> (f32, f32)| {
            let samples: VecDeque<Sample> = path
                .iter()
                .map(|&(x, y, t)| {
                    let (x, y) = turn(x, y);
                    Sample { x: b(x), y: b(y), t }
                })
                .collect();
            numbers(estimate_release_velocity(&samples, now, &cfg, &host))
        };
        let v = glide(&|x, y| (x, y));
        assert_eq!(glide(&|x, y| (-x, y)), v.map(|(x, y)| (-x, y)));
        assert_eq!(glide(&|x, y| (x, -y)), v.map(|(x, y)| (x, -y)));
        assert_eq!(glide(&|x, y| (y, x)), v.map(|(x, y)| (y, x)));
        if v.is_some() {
            glides += 1;
        }
    }
    assert!(glides > 300);
}

#[test]
fn a_sample_after_the_moment_is_not_old() {
    let mut samples: VecDeque<Sample> =
        vec![sample(0.0, 0.0, 0), sample(1.0, 0.0, 30), sample(2.0, 0.0, 90)].into();
    prune_samples(&mut samples, 60_000_000, 40);
    assert_eq!(samples, vec![sample(1.0, 0.0, 30), sample(2.0, 0.0, 90)]);
}

#[test]
fn the_regression_finds_the_velocity() {
    // Times and places with few bits, so that nothing is rounded.
    for times in [vec![0, 250], vec![0, 250, 500, 1000], vec![500, 625, 1000, 1250, 2250]] {
        for ((a, v), (c, w)) in
            [((3.0, 8.0), (-5.0, -16.0)), ((0.0, 0.0), (7.0, 0.5)), ((-64.0, 1.0), (0.25, -96.0))]
        {
            let samples: Vec<Sample> = times
                .iter()
                .map(|&ms| {
                    let t = (ms - times[0]) as f32 / 1000.0;
                    sample(a + v * t, c + w * t, ms)
                })
                .collect();
            let (ux, uy) = weighted_velocity(&samples, &host).unwrap();
            assert_eq!((f(ux), f(uy)), (v, w));
        }
    }
}

#[test]
fn confidence_falls_to_nothing_at_the_limit() {
    let mut cfg = Config::default();
    cfg.sample_window_ms = 2000;
    cfg.max_sample_staleness_ms = 250;
    let samples: VecDeque<Sample> =
        (0..5).map(|i| sample(16.0 * i as f32, -32.0 * i as f32, 250 * i)).collect();
    let speeds = |age_ms: u64| {
        estimate_swipe(&samples, (1000 + age_ms) * 1_000_000, &cfg, &host)
            .map(|s| (f(s.vx), f(s.vy)))
    };
    assert_eq!(speeds(0), Some((64.0, -128.0)));
    assert_eq!(speeds(125), Some((32.0, -64.0)));
    assert!(speeds(237).is_some());
    for age_ms in [238, 249, 250, 251, 1000, 1_000_000] {
        assert_eq!(speeds(age_ms), None);
    }
}

#[test]
fn nothing_glides_beyond_the_standard_limit() {
    let cfg = Config::default();
    let samples: VecDeque<Sample> = (0..6).map(|i| sample(90.0 * i as f32, 0.0, 8 * i)).collect();
    assert!(estimate_release_velocity(&samples, 150_000_000, &cfg, &host).is_some());
    for ms in (160..400).step_by(7) {
        assert!(estimate_release_velocity(&samples, ms * 1_000_000, &cfg, &host).is_none());
    }
}

#[test]
fn a_glide_starts_with_the_start_speed() {
    let mut cfg = Config::default();
    cfg.release_gain = b(2.0);
    let s = Swipe { vx: b(192.0), vy: b(-256.0), speed: b(320.0) };
    let (vx, vy) = launch(s, &cfg, &host);
    assert_eq!((f(vx), f(vy)), (96.0, -128.0));
    assert_eq!(f(vx).hypot(f(vy)), 320.0 * 0.25 * 2.0);
    // With rounding, the speed is within the limits but for a small error.
    for k in 1..400 {
        let (x, y) = (k as f32 * 7.3, 900.0 / k as f32);
        let s = Swipe { vx: b(x), vy: b(y), speed: b(x.hypot(y)) };
        let (vx, vy) = launch(s, &cfg, &host);
        let speed = f(vx).hypot(f(vy));
        assert!(speed >= 120.0 - 0.001 && speed <= 7000.0 + 0.001);
    }
}
