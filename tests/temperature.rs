use lifebank::address::Address;
use lifebank::temperature::{ContractError, TemperatureContract, TemperatureSummary};

fn create_test_contract() -> (TemperatureContract, Address) {
    let mut client = TemperatureContract::new();
    let admin = Address::new("GADMIN");
    client.initialize(admin.clone()).unwrap();
    (client, admin)
}

#[test]
fn test_zero_padded_entries_not_returned_as_violations() {
    let (mut client, admin) = create_test_contract();

    let unit_id = 42u64;
    client.set_threshold(&admin, unit_id, 200, 600).unwrap();

    for i in 0..21u64 {
        let temp = 400 + (i % 3) as i32;
        let timestamp = 1000 + i;
        client.log_reading(unit_id, temp, timestamp).unwrap();
    }

    let violations = client.get_violations(unit_id).unwrap();

    assert_eq!(violations.len(), 0, "Expected no violations but got {}", violations.len());
}

#[test]
fn test_page_size_plus_one_with_violation_in_second_page() {
    let (mut client, admin) = create_test_contract();

    let unit_id = 43u64;
    client.set_threshold(&admin, unit_id, 200, 600).unwrap();

    for i in 0..20u64 {
        let temp = 400 + (i % 3) as i32;
        let timestamp = 1000 + i;
        client.log_reading(unit_id, temp, timestamp).unwrap();
    }

    client.log_reading(unit_id, 100, 1020).unwrap();

    let violations = client.get_violations(unit_id).unwrap();

    assert_eq!(violations.len(), 1, "Expected 1 violation but got {}", violations.len());
    assert_eq!(violations[0].temperature_celsius_x100, 100);
}

#[test]
fn test_multiple_pages_correct_violation_count() {
    let (mut client, admin) = create_test_contract();

    let unit_id = 44u64;
    client.set_threshold(&admin, unit_id, 200, 600).unwrap();

    let mut expected_violations = 0;
    for i in 0..50u64 {
        let temp = if i % 10 == 9 {
            expected_violations += 1;
            700
        } else {
            400
        };
        let timestamp = 1000 + i;
        client.log_reading(unit_id, temp, timestamp).unwrap();
    }

    let violations = client.get_violations(unit_id).unwrap();

    assert_eq!(
        violations.len() as u64,
        expected_violations,
        "Expected {} violations but got {}",
        expected_violations,
        violations.len()
    );

    for reading in violations.iter() {
        assert!(
            reading.is_violation,
            "Returned reading should be marked as violation"
        );
        assert!(
            reading.temperature_celsius_x100 < 200 || reading.temperature_celsius_x100 > 600,
            "Returned reading should actually violate threshold"
        );
    }
}

#[test]
fn test_get_all_readings_ignores_padding() {
    let (mut client, admin) = create_test_contract();

    let unit_id = 45u64;
    client.set_threshold(&admin, unit_id, 200, 600).unwrap();

    for i in 0..21u64 {
        let temp = 400 + (i % 3) as i32;
        let timestamp = 1000 + i;
        client.log_reading(unit_id, temp, timestamp).unwrap();
    }

    let readings = client.get_readings(unit_id).unwrap();

    assert_eq!(
        readings.len(),
        21,
        "Expected 21 readings but got {}",
        readings.len()
    );

    for reading in readings.iter() {
        assert!(
            reading.timestamp >= 1000 && reading.timestamp < 1021,
            "Reading should have valid timestamp from actual log"
        );
    }
}

#[test]
fn test_threshold_violation_detection_with_zero_temp() {
    let (mut client, admin) = create_test_contract();

    let unit_id = 46u64;
    client.set_threshold(&admin, unit_id, 200, 600).unwrap();

    for i in 0..21u64 {
        let temp = 400;
        let timestamp = 1000 + i;
        client.log_reading(unit_id, temp, timestamp).unwrap();
    }

    let violations = client.get_violations(unit_id).unwrap();
    assert_eq!(violations.len(), 0, "No readings should be violations");

    let all_readings = client.get_readings(unit_id).unwrap();
    assert_eq!(all_readings.len(), 21, "Should have exactly 21 readings");

    let last_reading = all_readings[20];
    assert_eq!(last_reading.temperature_celsius_x100, 400, "21st reading should be valid");
    assert_eq!(last_reading.timestamp, 1020, "21st reading should have correct timestamp");
}

#[test]
fn test_temperature_summary_basic() {
    let (mut client, admin) = create_test_contract();

    let unit_id = 100u64;
    client.set_threshold(&admin, unit_id, 200, 600).unwrap();

    for i in 0..10u64 {
        let temp = if i < 5 { 400 } else { 500 };
        client.log_reading(unit_id, temp, 1000 + i).unwrap();
    }

    let summary = client.get_temperature_summary(unit_id).unwrap();
    assert_eq!(summary.count, 10);
    assert_eq!(summary.avg_celsius_x100, 450);
    assert_eq!(summary.min_celsius_x100, 400);
    assert_eq!(summary.max_celsius_x100, 500);
    assert_eq!(summary.violation_count, 0);
}

#[test]
fn test_temperature_summary_with_violations() {
    let (mut client, admin) = create_test_contract();

    let unit_id = 101u64;
    client.set_threshold(&admin, unit_id, 200, 600).unwrap();

    client.log_reading(unit_id, 100, 1000).unwrap();
    client.log_reading(unit_id, 400, 1001).unwrap();
    client.log_reading(unit_id, 700, 1002).unwrap();
    client.log_reading(unit_id, 500, 1003).unwrap();

    let summary = client.get_temperature_summary(unit_id).unwrap();
    assert_eq!(summary.count, 4);
    assert_eq!(summary.avg_celsius_x100, 425);
    assert_eq!(summary.min_celsius_x100, 100);
    assert_eq!(summary.max_celsius_x100, 700);
    assert_eq!(summary.violation_count, 2);
}

#[test]
fn test_temperature_summary_large_dataset_no_overflow() {
    let (mut client, admin) = create_test_contract();

    let unit_id = 102u64;
    client.set_threshold(&admin, unit_id, 200, 600).unwrap();

    let test_temp = 450i32;
    let num_readings = 50_000u64;

    for i in 0..num_readings {
        client.log_reading(unit_id, test_temp, 1000 + i).unwrap();
    }

    let summary = client.get_temperature_summary(unit_id).unwrap();

    assert_eq!(summary.count, num_readings as u32, "Count should be 50,000");

    assert_eq!(
        summary.avg_celsius_x100,
        test_temp,
        "Average should be {} but got {}",
        test_temp,
        summary.avg_celsius_x100
    );

    assert_eq!(summary.min_celsius_x100, test_temp);
    assert_eq!(summary.max_celsius_x100, test_temp);
    assert_eq!(summary.violation_count, 0);
}

#[test]
fn test_temperature_summary_extreme_values() {
    let (mut client, admin) = create_test_contract();

    let unit_id = 103u64;
    client.set_threshold(&admin, unit_id, -5000, 5000).unwrap();

    client.log_reading(unit_id, -4000, 1000).unwrap();
    client.log_reading(unit_id, 4000, 1001).unwrap();
    client.log_reading(unit_id, 0, 1002).unwrap();

    let summary = client.get_temperature_summary(unit_id).unwrap();
    assert_eq!(summary.count, 3);
    assert_eq!(summary.avg_celsius_x100, 0);
    assert_eq!(summary.min_celsius_x100, -4000);
    assert_eq!(summary.max_celsius_x100, 4000);
}

#[test]
fn test_temperature_summary_multiple_pages() {
    let (mut client, admin) = create_test_contract();

    let unit_id = 104u64;
    client.set_threshold(&admin, unit_id, 200, 600).unwrap();

    for i in 0..100u64 {
        let temp = 300 + (i % 10) as i32;
        client.log_reading(unit_id, temp, 1000 + i).unwrap();
    }

    let summary = client.get_temperature_summary(unit_id).unwrap();
    assert_eq!(summary.count, 100);
    assert_eq!(summary.avg_celsius_x100, 304);
    assert_eq!(summary.min_celsius_x100, 300);
    assert_eq!(summary.max_celsius_x100, 309);
}

#[test]
fn test_temperature_summary_no_readings() {
    let (mut client, admin) = create_test_contract();

    let unit_id = 105u64;
    client.set_threshold(&admin, unit_id, 200, 600).unwrap();

    assert_eq!(
        client.get_temperature_summary(unit_id),
        Err(ContractError::UnitNotFound)
    );
}

#[test]
fn test_streak_reset_on_non_violation() {
    let (mut client, admin) = create_test_contract();

    let unit_id = 200u64;
    client.set_threshold(&admin, unit_id, 200, 600).unwrap();

    client.log_reading(unit_id, 100, 1000).unwrap();
    client.log_reading(unit_id, 100, 1001).unwrap();

    assert_eq!(client.get_consecutive_violation_streak(unit_id), 2);
    assert!(!client.is_compromised(unit_id));

    client.log_reading(unit_id, 400, 1002).unwrap();

    assert_eq!(client.get_consecutive_violation_streak(unit_id), 0);

    client.log_reading(unit_id, 100, 1003).unwrap();
    client.log_reading(unit_id, 100, 1004).unwrap();

    assert_eq!(client.get_consecutive_violation_streak(unit_id), 2);
    assert!(
        !client.is_compromised(unit_id),
        "Unit should NOT be compromised with only 2 consecutive violations"
    );
}

#[test]
fn test_exact_threshold_triggers_compromised() {
    let (mut client, admin) = create_test_contract();

    let unit_id = 201u64;
    client.set_threshold(&admin, unit_id, 200, 600).unwrap();

    client.log_reading(unit_id, 100, 1000).unwrap();
    assert_eq!(client.get_consecutive_violation_streak(unit_id), 1);
    assert!(!client.is_compromised(unit_id));

    client.log_reading(unit_id, 100, 1001).unwrap();
    assert_eq!(client.get_consecutive_violation_streak(unit_id), 2);
    assert!(!client.is_compromised(unit_id));

    client.log_reading(unit_id, 100, 1002).unwrap();
    assert_eq!(client.get_consecutive_violation_streak(unit_id), 3);
    assert!(
        client.is_compromised(unit_id),
        "Unit should be compromised after 3 consecutive violations"
    );
}

#[test]
fn test_threshold_not_met_not_compromised() {
    let (mut client, admin) = create_test_contract();

    let unit_id = 202u64;
    client.set_threshold(&admin, unit_id, 200, 600).unwrap();

    client.log_reading(unit_id, 100, 1000).unwrap();
    client.log_reading(unit_id, 100, 1001).unwrap();
    assert_eq!(client.get_consecutive_violation_streak(unit_id), 2);

    client.log_reading(unit_id, 400, 1002).unwrap();
    assert_eq!(client.get_consecutive_violation_streak(unit_id), 0);

    client.log_reading(unit_id, 100, 1003).unwrap();
    client.log_reading(unit_id, 100, 1004).unwrap();
    assert_eq!(client.get_consecutive_violation_streak(unit_id), 2);

    assert!(
        !client.is_compromised(unit_id),
        "Unit should NOT be compromised - never reached 3 consecutive"
    );
}

#[test]
fn test_streak_after_recovery() {
    let (mut client, admin) = create_test_contract();

    let unit_id = 203u64;
    client.set_threshold(&admin, unit_id, 200, 600).unwrap();

    client.log_reading(unit_id, 100, 1000).unwrap();
    client.log_reading(unit_id, 100, 1001).unwrap();
    client.log_reading(unit_id, 100, 1002).unwrap();
    assert!(client.is_compromised(unit_id));
    assert_eq!(client.get_consecutive_violation_streak(unit_id), 3);

    client.reset_compromised_status(&admin, unit_id).unwrap();
    assert!(
        !client.is_compromised(unit_id),
        "Should be reset after admin intervention"
    );
    assert_eq!(
        client.get_consecutive_violation_streak(unit_id),
        0,
        "Streak should be reset to 0"
    );

    client.log_reading(unit_id, 100, 1003).unwrap();
    client.log_reading(unit_id, 100, 1004).unwrap();
    assert_eq!(client.get_consecutive_violation_streak(unit_id), 2);

    assert!(
        !client.is_compromised(unit_id),
        "Should not be compromised again with only 2 new violations"
    );
}

#[test]
fn test_single_reading_unit() {
    let (mut client, admin) = create_test_contract();

    let unit_id = 204u64;
    client.set_threshold(&admin, unit_id, 200, 600).unwrap();

    client.log_reading(unit_id, 100, 1000).unwrap();

    assert_eq!(
        client.get_consecutive_violation_streak(unit_id),
        1,
        "Streak should be 1 after single violation"
    );

    assert!(
        !client.is_compromised(unit_id),
        "Single violation should not compromise unit"
    );
}

#[test]
fn test_interleaved_violations_across_custody_transfers() {
    let (mut client, admin) = create_test_contract();

    let unit_id = 205u64;
    client.set_threshold(&admin, unit_id, 200, 600).unwrap();

    client.log_reading(unit_id, 100, 1000).unwrap();
    client.log_reading(unit_id, 100, 1001).unwrap();
    assert_eq!(client.get_consecutive_violation_streak(unit_id), 2);

    client.log_reading(unit_id, 700, 1002).unwrap();

    assert_eq!(client.get_consecutive_violation_streak(unit_id), 3);
    assert!(
        client.is_compromised(unit_id),
        "Unit should be compromised - violations span custody transfer"
    );

    client.log_reading(unit_id, 400, 1003).unwrap();

    assert_eq!(client.get_consecutive_violation_streak(unit_id), 0);

    assert!(client.is_compromised(unit_id));
}

#[test]
fn test_large_streak() {
    let (mut client, admin) = create_test_contract();

    let unit_id = 206u64;
    client.set_threshold(&admin, unit_id, 200, 600).unwrap();

    for i in 0..100u64 {
        client.log_reading(unit_id, 100, 1000 + i).unwrap();

        if i == 2 {
            assert!(
                client.is_compromised(unit_id),
                "Should be compromised on 3rd consecutive violation"
            );
        }
    }

    assert_eq!(
        client.get_consecutive_violation_streak(unit_id),
        100,
        "Streak should be 100 after 100 consecutive violations"
    );

    assert!(
        client.is_compromised(unit_id),
        "Unit should be compromised after 100 violations"
    );
}

#[test]
fn padding_never_reported_in_second_page() {
    let (mut client, admin) = create_test_contract();
    client.set_threshold(&admin, 42, 200, 600).unwrap();
    for t in 1000..=1020u64 {
        client.log_reading(42, 400, t).unwrap();
    }
    assert_eq!(client.get_readings(42).unwrap().len(), 21);
    assert_eq!(client.get_violations(42).unwrap().len(), 0);
}

#[test]
fn readings_keep_logged_order_and_values() {
    let (mut client, admin) = create_test_contract();
    client.set_threshold(&admin, 7, 200, 600).unwrap();
    for i in 0..45u64 {
        client.log_reading(7, (i as i32) * 20, 5000 + i).unwrap();
    }
    let readings = client.get_readings(7).unwrap();
    assert_eq!(readings.len(), 45);
    for (i, r) in readings.iter().enumerate() {
        assert_eq!(r.temperature_celsius_x100, (i as i32) * 20);
        assert_eq!(r.timestamp, 5000 + i as u64);
        assert_eq!(r.is_violation, !(200..=600).contains(&r.temperature_celsius_x100));
    }
}

#[test]
fn hundred_violations_compromise_on_third() {
    let (mut client, admin) = create_test_contract();
    client.set_threshold(&admin, 9, 200, 600).unwrap();
    for i in 0..100u64 {
        client.log_reading(9, 100, 1000 + i).unwrap();
        assert_eq!(client.is_compromised(9), i >= 2);
    }
    assert_eq!(client.get_consecutive_violation_streak(9), 100);
}

#[test]
fn interrupted_streak_does_not_compromise() {
    let (mut client, admin) = create_test_contract();
    client.set_threshold(&admin, 10, 200, 600).unwrap();
    for (i, t) in [100, 100, 400, 100, 100].iter().enumerate() {
        client.log_reading(10, *t, 1000 + i as u64).unwrap();
    }
    assert_eq!(client.get_consecutive_violation_streak(10), 2);
    assert!(!client.is_compromised(10));
}

#[test]
fn in_range_latest_reading_clears_streak() {
    let (mut client, admin) = create_test_contract();
    client.set_threshold(&admin, 11, 200, 600).unwrap();
    client.log_reading(11, 700, 1).unwrap();
    client.log_reading(11, 200, 2).unwrap();
    assert_eq!(client.get_consecutive_violation_streak(11), 0);
}

#[test]
fn bounds_of_threshold_are_in_range() {
    let (mut client, admin) = create_test_contract();
    client.set_threshold(&admin, 12, 200, 600).unwrap();
    client.log_reading(12, 200, 1).unwrap();
    client.log_reading(12, 600, 2).unwrap();
    client.log_reading(12, 199, 3).unwrap();
    client.log_reading(12, 601, 4).unwrap();
    let flags: Vec<bool> = client.get_readings(12).unwrap().iter().map(|r| r.is_violation).collect();
    assert_eq!(flags, vec![false, false, true, true]);
}

#[test]
fn second_initialize_fails() {
    let (mut client, _admin) = create_test_contract();
    assert_eq!(
        client.initialize(Address::new("GOTHER")),
        Err(ContractError::AlreadyInitialized)
    );
}

#[test]
fn non_admin_cannot_set_threshold_or_reset() {
    let (mut client, admin) = create_test_contract();
    let intruder = Address::new("GINTRUDER");
    assert_eq!(
        client.set_threshold(&intruder, 1, 200, 600),
        Err(ContractError::Unauthorized)
    );
    client.set_threshold(&admin, 1, 200, 600).unwrap();
    for t in 0..3u64 {
        client.log_reading(1, 100, t).unwrap();
    }
    assert_eq!(
        client.reset_compromised_status(&intruder, 1),
        Err(ContractError::Unauthorized)
    );
    assert!(client.is_compromised(1));
}

#[test]
fn uninitialized_monitor_rejects_threshold() {
    let mut client = TemperatureContract::new();
    assert_eq!(
        client.set_threshold(&Address::new("GADMIN"), 1, 200, 600),
        Err(ContractError::Unauthorized)
    );
}

#[test]
fn inverted_or_empty_threshold_rejected() {
    let (mut client, admin) = create_test_contract();
    assert_eq!(
        client.set_threshold(&admin, 1, 600, 200),
        Err(ContractError::InvalidThreshold)
    );
    assert_eq!(
        client.set_threshold(&admin, 1, 300, 300),
        Err(ContractError::InvalidThreshold)
    );
}

#[test]
fn logging_without_threshold_fails() {
    let (mut client, _admin) = create_test_contract();
    assert_eq!(
        client.log_reading(77, 400, 1),
        Err(ContractError::ThresholdNotFound)
    );
    assert_eq!(client.get_readings(77).unwrap().len(), 0);
}

#[test]
fn new_threshold_applies_to_later_readings_only() {
    let (mut client, admin) = create_test_contract();
    client.set_threshold(&admin, 3, 200, 600).unwrap();
    client.log_reading(3, 500, 1).unwrap();
    client.set_threshold(&admin, 3, 0, 400).unwrap();
    client.log_reading(3, 500, 2).unwrap();
    let flags: Vec<bool> = client.get_readings(3).unwrap().iter().map(|r| r.is_violation).collect();
    assert_eq!(flags, vec![false, true]);
}

#[test]
fn summary_mean_rounds_toward_zero() {
    let (mut client, admin) = create_test_contract();
    client.set_threshold(&admin, 4, -5000, 5000).unwrap();
    client.log_reading(4, -1, 1).unwrap();
    client.log_reading(4, -2, 2).unwrap();
    let summary = client.get_temperature_summary(4).unwrap();
    assert_eq!(
        summary,
        TemperatureSummary {
            count: 2,
            avg_celsius_x100: -1,
            min_celsius_x100: -2,
            max_celsius_x100: -1,
            violation_count: 0,
        }
    );
}

#[test]
fn summary_exact_at_extremes_for_many_readings() {
    let (mut client, admin) = create_test_contract();
    client.set_threshold(&admin, 5, -5000, 5000).unwrap();
    for i in 0..50_000u64 {
        let t = if i % 2 == 0 { -5000 } else { 5000 };
        client.log_reading(5, t, i).unwrap();
    }
    client.log_reading(5, -5000, 50_000).unwrap();
    let summary = client.get_temperature_summary(5).unwrap();
    assert_eq!(summary.count, 50_001);
    // sum = -5000 over 50,001 readings: the mean rounds toward zero.
    assert_eq!(summary.avg_celsius_x100, 0);
    assert_eq!(summary.min_celsius_x100, -5000);
    assert_eq!(summary.max_celsius_x100, 5000);
}

#[test]
fn reset_clears_only_the_named_unit() {
    let (mut client, admin) = create_test_contract();
    client.set_threshold(&admin, 20, 200, 600).unwrap();
    client.set_threshold(&admin, 21, 200, 600).unwrap();
    for t in 0..3u64 {
        client.log_reading(20, 100, t).unwrap();
        client.log_reading(21, 100, t).unwrap();
    }
    client.reset_compromised_status(&admin, 20).unwrap();
    assert!(!client.is_compromised(20));
    assert!(client.is_compromised(21));
    assert_eq!(client.get_consecutive_violation_streak(21), 3);
    assert_eq!(client.get_readings(20).unwrap().len(), 3);
}
