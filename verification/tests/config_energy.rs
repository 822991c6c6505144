use rust_sim::config::{dist_sq_exec, Config, ConfigError, ElectionPolicy, Pos};
use rust_sim::energy::{aggregation_energy, amplification_energy, receive_energy,
    transmission_energy};
use rust_sim::leach::threshold;

fn base_config() -> Config {
    Config::new(
        1,
        10,
        4000,
        50,
        10,
        1,
        5,
        7691,
        2_000_000_000,
        500,
        500,
        Pos { x: 250, y: 250 },
        30,
        ElectionPolicy::Threshold,
        2000,
    )
    .unwrap()
}

#[test]
fn config_accepts_and_derives_cycle_length() {
    let cfg = base_config();
    assert_eq!(cfg.p_num, 1);
    assert_eq!(cfg.p_den, 10);
    assert_eq!(cfg.cycle_length, 10);
    assert_eq!(cfg.packet_bits, 4000);
    assert_eq!(cfg.max_rounds, 2000);
}

#[test]
fn cycle_length_rounds_to_nearest() {
    // P = 1/2 -> cycle 2; P = 2/5 -> 1/P = 2.5 rounds up to 3; P = 1 -> 1.
    let c2 = Config::new(1, 2, 4000, 50, 10, 1, 5, 7691, 100, 500, 500, Pos { x: 1, y: 1 }, 30,
        ElectionPolicy::Threshold, 10)
        .unwrap();
    assert_eq!(c2.cycle_length, 2);
    let c3 = Config::new(2, 5, 4000, 50, 10, 1, 5, 7691, 100, 500, 500, Pos { x: 1, y: 1 }, 30,
        ElectionPolicy::Threshold, 10)
        .unwrap();
    assert_eq!(c3.cycle_length, 3);
    let c1 = Config::new(7, 7, 4000, 50, 10, 1, 5, 7691, 100, 500, 500, Pos { x: 1, y: 1 }, 30,
        ElectionPolicy::Threshold, 10)
        .unwrap();
    assert_eq!(c1.cycle_length, 1);
}

#[test]
fn config_rejects_bad_probability() {
    let r = Config::new(0, 10, 4000, 50, 10, 1, 5, 7691, 100, 500, 500, Pos { x: 1, y: 1 }, 30,
        ElectionPolicy::Threshold, 10);
    assert_eq!(r.unwrap_err(), ConfigError::InvalidProbability);
    let r = Config::new(11, 10, 4000, 50, 10, 1, 5, 7691, 100, 500, 500, Pos { x: 1, y: 1 }, 30,
        ElectionPolicy::Threshold, 10);
    assert_eq!(r.unwrap_err(), ConfigError::InvalidProbability);
}

#[test]
fn config_rejects_bad_packet_size() {
    let r = Config::new(1, 10, 0, 50, 10, 1, 5, 7691, 100, 500, 500, Pos { x: 1, y: 1 }, 30,
        ElectionPolicy::Threshold, 10);
    assert_eq!(r.unwrap_err(), ConfigError::InvalidPacketSize);
}

#[test]
fn config_rejects_bad_coefficients() {
    let r = Config::new(1, 10, 4000, 0, 10, 1, 5, 7691, 100, 500, 500, Pos { x: 1, y: 1 }, 30,
        ElectionPolicy::Threshold, 10);
    assert_eq!(r.unwrap_err(), ConfigError::InvalidCoefficient);
    let r = Config::new(1, 10, 4000, 50, 0, 1, 5, 7691, 100, 500, 500, Pos { x: 1, y: 1 }, 30,
        ElectionPolicy::Threshold, 10);
    assert_eq!(r.unwrap_err(), ConfigError::InvalidCoefficient);
    let r = Config::new(1, 10, 4000, 50, 10, 0, 5, 7691, 100, 500, 500, Pos { x: 1, y: 1 }, 30,
        ElectionPolicy::Threshold, 10);
    assert_eq!(r.unwrap_err(), ConfigError::InvalidCoefficient);
    let r = Config::new(1, 10, 4000, 50, 10, 1, 0, 7691, 100, 500, 500, Pos { x: 1, y: 1 }, 30,
        ElectionPolicy::Threshold, 10);
    assert_eq!(r.unwrap_err(), ConfigError::InvalidCoefficient);
    let r = Config::new(1, 10, 4000, 50, 10, 1, 5, 0, 100, 500, 500, Pos { x: 1, y: 1 }, 30,
        ElectionPolicy::Threshold, 10);
    assert_eq!(r.unwrap_err(), ConfigError::InvalidCoefficient);
}

#[test]
fn config_rejects_bad_area_and_sink() {
    let r = Config::new(1, 10, 4000, 50, 10, 1, 5, 7691, 100, 0, 500, Pos { x: 1, y: 1 }, 30,
        ElectionPolicy::Threshold, 10);
    assert_eq!(r.unwrap_err(), ConfigError::InvalidArea);
    let r = Config::new(1, 10, 4000, 50, 10, 1, 5, 7691, 100, 500, 500, Pos { x: 500, y: 1 }, 30,
        ElectionPolicy::Threshold, 10);
    assert_eq!(r.unwrap_err(), ConfigError::InvalidSink);
}

#[test]
fn config_rejects_zero_energy_and_range() {
    let r = Config::new(1, 10, 4000, 50, 10, 1, 5, 7691, 0, 500, 500, Pos { x: 1, y: 1 }, 30,
        ElectionPolicy::Threshold, 10);
    assert_eq!(r.unwrap_err(), ConfigError::InvalidInitialEnergy);
    let r = Config::new(1, 10, 4000, 50, 10, 1, 5, 7691, 100, 500, 500, Pos { x: 1, y: 1 }, 0,
        ElectionPolicy::Threshold, 10);
    assert_eq!(r.unwrap_err(), ConfigError::InvalidTransmissionRange);
}

#[test]
fn dist_sq_is_exact() {
    assert_eq!(dist_sq_exec(&Pos { x: 0, y: 0 }, &Pos { x: 3, y: 4 }), 25);
    assert_eq!(dist_sq_exec(&Pos { x: 3, y: 4 }, &Pos { x: 0, y: 0 }), 25);
    assert_eq!(dist_sq_exec(&Pos { x: 7, y: 7 }, &Pos { x: 7, y: 7 }), 0);
}

#[test]
fn radio_costs_match_the_model() {
    let cfg = base_config();
    // electronics: 50 * 4000
    assert_eq!(receive_energy(&cfg), 200_000);
    // aggregation: 5 * 4000
    assert_eq!(aggregation_energy(&cfg), 20_000);
    // free space below the threshold distance: 10 * 4000 * d^2
    assert_eq!(amplification_energy(&cfg, 100), 4_000_000);
    // multipath at and above it: 1 * 4000 * d^4
    assert_eq!(amplification_energy(&cfg, 7691), 4000u128 * 7691 * 7691);
    assert_eq!(amplification_energy(&cfg, 10_000), 4000u128 * 10_000 * 10_000);
    // transmission adds the electronics cost
    assert_eq!(transmission_energy(&cfg, 100), 200_000 + 4_000_000);
}

#[test]
fn regime_switch_is_strict_below_threshold() {
    let cfg = base_config();
    // one below the squared threshold: still free space
    assert_eq!(amplification_energy(&cfg, 7690), 10u128 * 4000 * 7690);
    // exactly at it: multipath
    assert_eq!(amplification_energy(&cfg, 7691), 4000u128 * 7691 * 7691);
}

#[test]
fn threshold_follows_the_rotation_formula() {
    let cfg = base_config();  // P = 1/10, cycle 10
    // T(r) = (1/10) / (1 - (1/10) * (r mod 10)) = 1 / (10 - (r mod 10))
    assert_eq!(threshold(&cfg, 0), (1, 10));
    assert_eq!(threshold(&cfg, 1), (1, 9));
    assert_eq!(threshold(&cfg, 5), (1, 5));
    assert_eq!(threshold(&cfg, 8), (1, 2));
    // at the end of the cycle the cap takes over: T = 1
    assert_eq!(threshold(&cfg, 9), (1, 1));
    // and the next cycle starts over
    assert_eq!(threshold(&cfg, 10), (1, 10));
    assert_eq!(threshold(&cfg, 11), (1, 9));
}

#[test]
fn threshold_is_nondecreasing_within_a_cycle() {
    let cfg = base_config();
    let mut prev: (u64, u64) = threshold(&cfg, 0);
    for r in 1..10u64 {
        let t = threshold(&cfg, r);
        // prev <= t as rationals: prev.0 * t.1 <= t.0 * prev.1
        assert!(prev.0 * t.1 <= t.0 * prev.1);
        // and every value is a probability in (0, 1]
        assert!(1 <= t.0 && t.0 <= t.1);
        prev = t;
    }
}
