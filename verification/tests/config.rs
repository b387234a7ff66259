use ce_pin::config::{
    HostConfig, HostEnv, DEFAULT_CAPACITY_BYTES, DEFAULT_FETCH_TIMEOUT_SECS,
    DEFAULT_MAX_CONCURRENT, DEFAULT_MAX_OBJECT_BYTES, DEFAULT_MIN_RENT_PER_GB_HOUR,
    DEFAULT_SEEN_WINDOW,
};

#[test]
fn default_admits_a_normal_object() {
    let c = HostConfig::default();
    assert!(c.admit_offer(1_000_000, "1000000000000000", 0).is_ok());
}

#[test]
fn rejects_object_over_max_size() {
    let c = HostConfig { max_object_bytes: 1024, ..Default::default() };
    let err = c.admit_offer(2048, "1", 0).unwrap_err();
    assert!(err.contains("too large"), "{err}");
}

#[test]
fn rejects_rent_below_minimum() {
    let c = HostConfig { min_rent_per_gb_hour: 1_000, ..Default::default() };
    let err = c.admit_offer(10, "999", 0).unwrap_err();
    assert!(err.contains("rent too low"), "{err}");
    // Exactly the minimum is accepted.
    assert!(c.admit_offer(10, "1000", 0).is_ok());
}

#[test]
fn malformed_rent_is_treated_as_zero() {
    let c = HostConfig { min_rent_per_gb_hour: 1, ..Default::default() };
    assert!(c.admit_offer(10, "not-a-number", 0).is_err(), "junk rent must not bypass the minimum");
}

#[test]
fn rejects_offer_over_capacity_budget() {
    let c = HostConfig { capacity_bytes: 1000, ..Default::default() };
    // Already holding 600; a 500-byte object would reach 1100 > 1000.
    let err = c.admit_offer(500, "0", 600).unwrap_err();
    assert!(err.contains("capacity"), "{err}");
    // 400 fits exactly (600 + 400 == 1000).
    assert!(c.admit_offer(400, "0", 600).is_ok());
}

#[test]
fn from_env_clamps_zero_concurrency() {
    let env = HostEnv { max_concurrent: Some("0".to_string()), ..Default::default() };
    let c = HostConfig::from_env(&env);
    assert!(c.max_concurrent >= 1, "zero concurrency would deadlock; must clamp to >=1");
}

#[test]
fn reasons_name_the_numbers() {
    let c = HostConfig {
        max_object_bytes: 1_000,
        capacity_bytes: 2_000,
        min_rent_per_gb_hour: 100,
        ..Default::default()
    };
    assert_eq!(
        c.admit_offer(1_001, "99", 1_800),
        Err("object too large: 1001 bytes exceeds host max 1000 bytes".to_string())
    );
    assert_eq!(
        c.admit_offer(500, "99", 1_800),
        Err("rent too low: 99 base/GB-hour is below host minimum 100".to_string())
    );
    assert_eq!(
        c.admit_offer(500, "100", 1_800),
        Err("insufficient capacity: holding 500 more bytes would reach 2300, over the host budget \
             of 2000"
            .to_string())
    );
    assert_eq!(c.admit_offer(200, " 100\n", 1_800), Ok(()));
}

#[test]
fn counting_past_the_end_is_over_any_budget_but_the_largest() {
    let c = HostConfig {
        max_object_bytes: u64::MAX,
        capacity_bytes: u64::MAX - 1,
        ..Default::default()
    };
    assert!(c.admit_offer(u64::MAX, "0", 1).unwrap_err().contains("18446744073709551615"));
    let unlimited = HostConfig { capacity_bytes: u64::MAX, ..c };
    assert!(unlimited.admit_offer(u64::MAX, "0", u64::MAX).is_ok());
}

#[test]
fn defaults_are_finite() {
    let c = HostConfig::default();
    assert_eq!(c.max_object_bytes, 2 * 1024 * 1024 * 1024);
    assert_eq!(c.capacity_bytes, 64 * 1024 * 1024 * 1024);
    assert_eq!(c.min_rent_per_gb_hour, 0);
    assert_eq!(c.max_concurrent, 8);
    assert_eq!(c.fetch_timeout_secs, 180);
    assert_eq!(c.seen_window, 65_536);
    assert_eq!(HostConfig::from_env(&HostEnv::default()), c);
    assert_eq!(c.max_object_bytes, DEFAULT_MAX_OBJECT_BYTES);
    assert_eq!(c.capacity_bytes, DEFAULT_CAPACITY_BYTES);
    assert_eq!(c.min_rent_per_gb_hour, DEFAULT_MIN_RENT_PER_GB_HOUR);
    assert_eq!(c.max_concurrent, DEFAULT_MAX_CONCURRENT);
    assert_eq!(c.fetch_timeout_secs, DEFAULT_FETCH_TIMEOUT_SECS);
    assert_eq!(c.seen_window, DEFAULT_SEEN_WINDOW);
}

#[test]
fn settings_override_and_are_clamped() {
    let some = |s: &str| Some(s.to_string());
    let c = HostConfig::from_env(&HostEnv {
        max_object_bytes: some(" 10 "),
        capacity_bytes: some("0"),
        min_rent: some("340282366920938463463374607431768211455"),
        max_concurrent: some("3"),
        fetch_timeout_secs: some("0"),
        seen_window: some("5"),
    });
    assert_eq!(c.max_object_bytes, 10);
    assert_eq!(c.capacity_bytes, 0);
    assert_eq!(c.min_rent_per_gb_hour, u128::MAX);
    assert_eq!(c.max_concurrent, 3);
    assert_eq!(c.fetch_timeout_secs, 1);
    assert_eq!(c.seen_window, 1024);
    let junk = HostConfig::from_env(&HostEnv {
        max_object_bytes: some("ten"),
        capacity_bytes: some("18446744073709551616"),
        min_rent: some("-1"),
        max_concurrent: some(""),
        fetch_timeout_secs: some("1.5"),
        seen_window: some("0x400"),
    });
    assert_eq!(junk, HostConfig::default());
}

#[test]
fn less_is_admitted_wherever_more_is() {
    let c = HostConfig {
        max_object_bytes: 40,
        capacity_bytes: 60,
        min_rent_per_gb_hour: 3,
        ..Default::default()
    };
    for size in 0..50u64 {
        for held in 0..70u64 {
            for rent in 0..6u64 {
                if c.admit_offer(size, &rent.to_string(), held).is_ok() {
                    let more = (rent + 1).to_string();
                    assert!(size <= 40 && rent >= 3 && size + held <= 60);
                    assert!(c.admit_offer(size.saturating_sub(1), &more, held).is_ok());
                    assert!(c.admit_offer(size, &more, held.saturating_sub(1)).is_ok());
                } else {
                    assert!(size > 40 || rent < 3 || size + held > 60);
                }
            }
        }
    }
}
