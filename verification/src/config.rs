//! The configuration and where it is kept.

use crate::binary32::{lemma_spells, nearest, Binary32};
use vstd::arithmetic::power2::lemma2_to64;
use vstd::prelude::*;

verus! {

/// What the user can set.
#[derive(Clone, Debug)]
pub struct Config {
    /// The name of the trackpad, as the kernel lists it.
    pub device_name: String,
    pub sensitivity: Binary32,
    pub trackpad_to_pixel: Binary32,
    pub release_gain: Binary32,
    /// The slowest and the fastest that a glide starts with.
    pub start_speed_min: Binary32,
    pub start_speed_max: Binary32,
    /// The factor by which a glide slows down every 16 ms.
    pub friction_per_16ms: Binary32,
    /// The speed below which a glide ends.
    pub min_speed: Binary32,
    /// How far back a swipe is looked at.
    pub sample_window_ms: u64,
    /// A gap between two samples that is longer than this can be a pause...
    pub pause_gap_ms: u64,
    /// ...if the finger moved less than this in it.
    pub pause_dist_threshold: Binary32,
    /// How far the finger has to travel for a glide to start.
    pub min_travel: Binary32,
    pub max_sample_staleness_ms: u64,
    /// How long after a gesture no glide starts.
    pub grace_ms: u64,
    pub listener_poll_ms: u64,
    pub inertia_poll_ms: u64,
}

impl Config {
    /// The slowest start is not faster than the fastest.
    pub open spec fn speeds_in_order(self) -> bool {
        self.start_speed_min.at_most(self.start_speed_max)
    }

    /// Whether a glide can be started with these settings.
    pub fn speeds_ordered(&self) -> (r: bool)
        ensures
            r == self.speeds_in_order(),
    {
        self.start_speed_min.le(self.start_speed_max)
    }

    /// The settings of [`Config::default`].
    pub open spec fn standard(self) -> bool {
        &&& self.device_name@ == "trackpad name"@
        &&& self.sensitivity == nearest(5, 100)
        &&& self.trackpad_to_pixel == nearest(25, 100)
        &&& self.release_gain == nearest(18, 10)
        &&& self.start_speed_min == nearest(120, 1)
        &&& self.start_speed_max == nearest(7000, 1)
        &&& self.friction_per_16ms == nearest(965, 1000)
        &&& self.min_speed == nearest(25, 1)
        &&& self.sample_window_ms == 50
        &&& self.pause_gap_ms == 28
        &&& self.pause_dist_threshold == nearest(8, 10)
        &&& self.min_travel == nearest(8, 1)
        &&& self.max_sample_staleness_ms == 120
        &&& self.grace_ms == 80
        &&& self.listener_poll_ms == 2
        &&& self.inertia_poll_ms == 2
    }
}

impl Default for Config {
    fn default() -> (cfg: Config)
        ensures
            cfg.standard(),
            cfg.speeds_in_order(),
    {
        proof {
            lemma2_to64();
            lemma_spells(0x3d4c_cccd, 5, 100);
            lemma_spells(0x3e80_0000, 25, 100);
            lemma_spells(0x3fe6_6666, 18, 10);
            lemma_spells(0x42f0_0000, 120, 1);
            lemma_spells(0x45da_c000, 7000, 1);
            lemma_spells(0x3f77_0a3d, 965, 1000);
            lemma_spells(0x41c8_0000, 25, 1);
            lemma_spells(0x3f4c_cccd, 8, 10);
            lemma_spells(0x4100_0000, 8, 1);
        }
        let cfg = Config {
            device_name: "trackpad name".to_owned(),
            sensitivity: Binary32 { bits: 0x3d4c_cccd },
            trackpad_to_pixel: Binary32 { bits: 0x3e80_0000 },
            release_gain: Binary32 { bits: 0x3fe6_6666 },
            start_speed_min: Binary32 { bits: 0x42f0_0000 },
            start_speed_max: Binary32 { bits: 0x45da_c000 },
            friction_per_16ms: Binary32 { bits: 0x3f77_0a3d },
            min_speed: Binary32 { bits: 0x41c8_0000 },
            sample_window_ms: 50,
            pause_gap_ms: 28,
            pause_dist_threshold: Binary32 { bits: 0x3f4c_cccd },
            min_travel: Binary32 { bits: 0x4100_0000 },
            max_sample_staleness_ms: 120,
            grace_ms: 80,
            listener_poll_ms: 2,
            inertia_poll_ms: 2,
        };
        proof {
            crate::binary32::lemma_rank_orders(cfg.start_speed_min, cfg.start_speed_max);
        }
        cfg
    }
}

/// The file that holds the configuration.
pub fn config_path() -> (path: String)
    ensures
        path@ == "/etc/inertia/config.toml"@,
{
    "/etc/inertia/config.toml".to_owned()
}

/// What to start from, given whether the configuration file exists: the default
/// settings, which are then to be written to it, or `None` where it is to be
/// read.
pub fn settings_to_write(exists: bool) -> (cfg: Option<Config>)
    ensures
        cfg is Some <==> !exists,
        cfg matches Some(c) ==> c.standard() && c.speeds_in_order(),
{
    if exists {
        None
    } else {
        Some(Config::default())
    }
}

/// A glide can be started wherever the two limits are numbers and the lower one is not
/// above the other, whatever else is set.
pub proof fn law_speed_limits_may_be_equal(cfg: Config)
    ensures
        cfg.speeds_in_order() <==> !cfg.start_speed_min.nan() && !cfg.start_speed_max.nan()
            && cfg.start_speed_min.value() <= cfg.start_speed_max.value(),
{
}

} // verus!
