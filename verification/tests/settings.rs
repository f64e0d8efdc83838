use inertia::config::{config_path, settings_to_write, Config};

#[test]
fn default_settings() {
    let cfg = Config::default();
    assert_eq!(cfg.device_name, "trackpad name");
    assert_eq!(cfg.sensitivity.bits, 0.05f32.to_bits());
    assert_eq!(cfg.trackpad_to_pixel.bits, 0.25f32.to_bits());
    assert_eq!(cfg.release_gain.bits, 1.8f32.to_bits());
    assert_eq!(cfg.start_speed_min.bits, 120.0f32.to_bits());
    assert_eq!(cfg.start_speed_max.bits, 7000.0f32.to_bits());
    assert_eq!(cfg.friction_per_16ms.bits, 0.965f32.to_bits());
    assert_eq!(cfg.min_speed.bits, 25.0f32.to_bits());
    assert_eq!(cfg.sample_window_ms, 50);
    assert_eq!(cfg.pause_gap_ms, 28);
    assert_eq!(cfg.pause_dist_threshold.bits, 0.8f32.to_bits());
    assert_eq!(cfg.min_travel.bits, 8.0f32.to_bits());
    assert_eq!(cfg.max_sample_staleness_ms, 120);
    assert_eq!(cfg.grace_ms, 80);
    assert_eq!(cfg.listener_poll_ms, 2);
    assert_eq!(cfg.inertia_poll_ms, 2);
    assert!(cfg.speeds_ordered());
}

#[test]
fn speeds_out_of_order_are_noticed() {
    let mut cfg = Config::default();
    cfg.start_speed_min.bits = 7001.0f32.to_bits();
    assert!(!cfg.speeds_ordered());
    cfg.start_speed_min.bits = f32::NAN.to_bits();
    assert!(!cfg.speeds_ordered());
}

#[test]
fn configuration_is_kept_in_etc() {
    assert_eq!(config_path(), "/etc/inertia/config.toml");
}

#[test]
fn a_missing_file_is_written() {
    assert!(settings_to_write(true).is_none());
    let cfg = settings_to_write(false).unwrap();
    assert_eq!(cfg.device_name, "trackpad name");
    assert_eq!(cfg.grace_ms, 80);
}
