use inertia::binary32::Binary32;

fn b(v: f32) -> Binary32 {
    Binary32 { bits: v.to_bits() }
}

fn patterns() -> Vec<f32> {
    let mut all = vec![
        0.0,
        -0.0,
        1.0,
        -1.0,
        0.5,
        -0.5,
        0.999_999_94,
        1.5,
        -1.5,
        2.75,
        16_777_216.0,
        16_777_218.0,
        2_147_483_520.0,
        2_147_483_648.0,
        -2_147_483_648.0,
        -2_147_483_904.0,
        4.0e9,
        -4.0e9,
        3.0e38,
        f32::MIN_POSITIVE,
        f32::MAX,
        f32::MIN,
        f32::INFINITY,
        f32::NEG_INFINITY,
        f32::NAN,
        f32::from_bits(1),
        f32::from_bits(0x8000_0001),
        f32::from_bits(0x007f_ffff),
        f32::from_bits(0xffc0_0001),
    ];
    let mut seed: u64 = 7;
    for _ in 0..200 {
        seed = seed.wrapping_mul(6364136223846793005).wrapping_add(1442695040888963407);
        all.push(f32::from_bits((seed >> 32) as u32));
    }
    all
}

#[test]
fn comparisons_are_those_of_the_numbers() {
    let all = patterns();
    for &x in all.iter() {
        for &y in all.iter() {
            assert_eq!(b(x).lt(b(y)), x < y, "{x} < {y}");
            assert_eq!(b(x).le(b(y)), x <= y, "{x} <= {y}");
            assert_eq!(b(x).same_number(b(y)), x == y, "{x} == {y}");
        }
        assert_eq!(b(x).is_nan(), x.is_nan());
        assert_eq!(b(x).abs().bits, x.abs().to_bits());
    }
}

#[test]
fn clamping_is_that_of_the_numbers() {
    let all = patterns();
    for &x in all.iter() {
        for &(low, high) in [(0.0f32, 1.0f32), (-3.5, -3.5), (120.0, 7000.0)].iter() {
            assert_eq!(b(x).clamp(b(low), b(high)).bits, x.clamp(low, high).to_bits());
        }
    }
}

#[test]
fn whole_part_is_that_of_the_number() {
    for &x in patterns().iter() {
        assert_eq!(b(x).trunc_to_i32(), x.trunc() as i32, "{x}");
    }
    assert_eq!(b(-2.75).trunc_to_i32(), -2);
    assert_eq!(b(2_147_483_648.0).trunc_to_i32(), i32::MAX);
    assert_eq!(b(f32::NEG_INFINITY).trunc_to_i32(), i32::MIN);
    assert_eq!(b(f32::NAN).trunc_to_i32(), 0);
}

#[test]
fn integers_are_rounded_to_the_nearest_number() {
    assert_eq!(Binary32::from_i32(1).bits, 0x3f80_0000);
    assert_eq!(Binary32::from_i32(16_777_217).bits, 16_777_216.0f32.to_bits());
    assert_eq!(Binary32::from_i32(16_777_219).bits, 16_777_220.0f32.to_bits());
    for v in [0, 1, -1, 2, 3, i32::MAX, i32::MIN, i32::MIN + 1, 33_554_431, -33_554_431] {
        assert_eq!(Binary32::from_i32(v).bits, (v as f32).to_bits(), "{v}");
    }
    let mut seed: u64 = 3;
    for i in 0..20_000u32 {
        seed = seed.wrapping_mul(6364136223846793005).wrapping_add(1442695040888963407);
        let v = (seed >> 32) as i32 >> (i % 32);
        assert_eq!(Binary32::from_i32(v).bits, (v as f32).to_bits(), "{v}");
        let w = seed >> (i % 64);
        assert_eq!(Binary32::from_u64(w).bits, (w as f32).to_bits(), "{w}");
    }
    for w in [u64::MAX, u64::MAX - 1, 1 << 63, (1 << 63) + (1 << 39), (1 << 24) + 1] {
        assert_eq!(Binary32::from_u64(w).bits, (w as f32).to_bits(), "{w}");
    }
}

#[test]
fn small_integers_come_back() {
    for v in [-16_777_216, -16_777_215, -100, 0, 7, 8_388_609, 16_777_215, 16_777_216] {
        assert_eq!(Binary32::from_i32(v).trunc_to_i32(), v);
    }
}
