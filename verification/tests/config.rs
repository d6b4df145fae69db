//! Configuration: defaults, ranges and constraints.

use matchmaker::config::{
    judge, parse_env_range, variable_names, Config, ConfigError, EnvValue, EnvVars, NumberType,
};

fn set(value: &str) -> EnvValue {
    EnvValue::Text(value.to_string())
}

fn message(vars: &EnvVars) -> String {
    Config::from_env(vars).unwrap_err().message()
}

#[test]
fn test_defaults_are_valid() {
    let config = Config::from_env(&EnvVars::default()).expect("Default config must be valid");
    assert_eq!(config.server_port, 8080);
    assert_eq!(config.worker_count, 4);
    assert_eq!(config.worker_tick_ms, 50);
    assert_eq!(config.stale_claim_timeout_ms, 500);
    assert_eq!(config.relaxation_stage_1_delta, 50);
    assert_eq!(config.relaxation_stage_5_delta, 9999);
}

#[test]
fn test_custom_values_are_loaded() {
    let vars = EnvVars {
        server_port: set("9090"),
        worker_count: set("8"),
        ..EnvVars::default()
    };
    let config = Config::from_env(&vars).expect("Custom config must be valid");
    assert_eq!(config.server_port, 9090);
    assert_eq!(config.worker_count, 8);
}

#[test]
fn test_invalid_worker_count_fails() {
    let vars = EnvVars { worker_count: set("0"), ..EnvVars::default() };
    assert!(Config::from_env(&vars).is_err());
}

#[test]
fn test_non_monotonic_thresholds_fail() {
    let vars = EnvVars {
        relaxation_stage_1_ms: set("20000"),
        relaxation_stage_2_ms: set("10000"),
        relaxation_stage_3_ms: set("30000"),
        relaxation_stage_4_ms: set("60000"),
        ..EnvVars::default()
    };
    let result = Config::from_env(&vars);
    assert!(result.is_err());
    let msg = result.unwrap_err().message();
    assert!(msg.contains("STAGE_1_MS"));
}

#[test]
fn test_stale_timeout_must_exceed_tick() {
    let vars = EnvVars {
        worker_tick_ms: set("200"),
        stale_claim_timeout_ms: set("100"),
        ..EnvVars::default()
    };
    let result = Config::from_env(&vars);
    assert!(result.is_err());
    let msg = result.unwrap_err().message();
    assert!(msg.contains("STALE_CLAIM_TIMEOUT_MS"));
}

#[test]
fn test_non_numeric_value_fails() {
    let vars = EnvVars { server_port: set("not_a_number"), ..EnvVars::default() };
    assert!(Config::from_env(&vars).is_err());
}

#[test]
fn test_display_does_not_panic() {
    let config = Config::from_env(&EnvVars::default()).unwrap();
    let s = config.describe();
    assert!(s.contains("Config"));
    assert_eq!(
        s,
        "Config { port=8080, workers=4, tick=50ms, stale_timeout=500ms, \
         relaxation=[5000ms/±50, 15000ms/±100, 30000ms/±200, 60000ms/±400, ∞/±9999] }"
    );
}

#[test]
fn all_defaults() {
    let config = Config::from_env(&EnvVars::default()).unwrap();
    assert_eq!(
        config,
        Config {
            server_port: 8080,
            worker_count: 4,
            worker_tick_ms: 50,
            stale_claim_timeout_ms: 500,
            relaxation_stage_1_ms: 5_000,
            relaxation_stage_2_ms: 15_000,
            relaxation_stage_3_ms: 30_000,
            relaxation_stage_4_ms: 60_000,
            relaxation_stage_1_delta: 50,
            relaxation_stage_2_delta: 100,
            relaxation_stage_3_delta: 200,
            relaxation_stage_4_delta: 400,
            relaxation_stage_5_delta: 9999,
        }
    );
}

#[test]
fn white_space_and_plus_sign_are_accepted() {
    let vars = EnvVars {
        server_port: set(" \t+9090\u{3000}\n"),
        worker_tick_ms: set("0060"),
        ..EnvVars::default()
    };
    let config = Config::from_env(&vars).unwrap();
    assert_eq!(config.server_port, 9090);
    assert_eq!(config.worker_tick_ms, 60);
}

#[test]
fn unparseable_values_are_reported() {
    let port = |text: &str| message(&EnvVars { server_port: set(text), ..EnvVars::default() });
    assert_eq!(
        port("not_a_number"),
        "Invalid value for 'SERVER_PORT': expected a valid u16, \
         got 'not_a_number (invalid digit found in string)'"
    );
    assert_eq!(
        port("65536"),
        "Invalid value for 'SERVER_PORT': expected a valid u16, \
         got '65536 (number too large to fit in target type)'"
    );
    assert_eq!(
        port("  "),
        "Invalid value for 'SERVER_PORT': expected a valid u16, \
         got '   (cannot parse integer from empty string)'"
    );
    assert!(port("-1").contains("invalid digit"));
    assert!(port("1_000").contains("invalid digit"));
    assert!(port("+").contains("invalid digit"));
    let count = message(&EnvVars { worker_count: set("x"), ..EnvVars::default() });
    assert!(count.contains("a valid usize"));
    let tick = message(&EnvVars { worker_tick_ms: set("99999999999999999999"), ..EnvVars::default() });
    assert!(tick.contains("a valid u64") && tick.contains("too large"));
    let delta = message(&EnvVars { relaxation_stage_1_delta: set("5e3"), ..EnvVars::default() });
    assert!(delta.contains("a valid u32"));
}

#[test]
fn out_of_range_values_are_reported() {
    assert_eq!(
        message(&EnvVars { server_port: set("1023"), ..EnvVars::default() }),
        "Invalid value for 'SERVER_PORT': expected a value between 1024 and 65535, got '1023'"
    );
    assert_eq!(
        message(&EnvVars { worker_count: set("65"), ..EnvVars::default() }),
        "Invalid value for 'WORKER_COUNT': expected a value between 1 and 64, got '65'"
    );
    assert_eq!(
        message(&EnvVars { relaxation_stage_5_delta: set("10001"), ..EnvVars::default() }),
        "Invalid value for 'RELAXATION_STAGE_5_DELTA': expected a value between 0 and 10000, got '10001'"
    );
}

#[test]
fn range_ends_are_accepted() {
    for (text, value) in [("1024", 1024), ("65535", 65535)] {
        let vars = EnvVars { server_port: set(text), ..EnvVars::default() };
        assert_eq!(Config::from_env(&vars).unwrap().server_port, value);
    }
}

#[test]
fn first_bad_variable_is_reported() {
    let vars = EnvVars {
        worker_count: set("0"),
        relaxation_stage_4_ms: set("x"),
        ..EnvVars::default()
    };
    assert!(message(&vars).contains("WORKER_COUNT"));
}

#[test]
fn every_constraint_is_reported() {
    let base = Config::from_env(&EnvVars::default()).unwrap();
    let text = |config: Config| config.validate().unwrap_err().message();
    assert!(base.validate().is_ok());
    assert_eq!(
        text(Config { relaxation_stage_1_ms: 15_000, ..base }),
        "Configuration constraint violated: \
         RELAXATION_STAGE_1_MS (15000) must be less than RELAXATION_STAGE_2_MS (15000)"
    );
    assert_eq!(
        text(Config { relaxation_stage_2_ms: 30_001, ..base }),
        "Configuration constraint violated: \
         RELAXATION_STAGE_2_MS (30001) must be less than RELAXATION_STAGE_3_MS (30000)"
    );
    assert_eq!(
        text(Config { relaxation_stage_3_ms: 60_000, ..base }),
        "Configuration constraint violated: \
         RELAXATION_STAGE_3_MS (60000) must be less than RELAXATION_STAGE_4_MS (60000)"
    );
    assert_eq!(
        text(Config { relaxation_stage_1_delta: 101, ..base }),
        "Configuration constraint violated: \
         RELAXATION_STAGE_1_DELTA (101) must be <= RELAXATION_STAGE_2_DELTA (100)"
    );
    assert_eq!(
        text(Config { relaxation_stage_2_delta: 201, ..base }),
        "Configuration constraint violated: \
         RELAXATION_STAGE_2_DELTA (201) must be <= RELAXATION_STAGE_3_DELTA (200)"
    );
    assert_eq!(
        text(Config { relaxation_stage_3_delta: 401, ..base }),
        "Configuration constraint violated: \
         RELAXATION_STAGE_3_DELTA (401) must be <= RELAXATION_STAGE_4_DELTA (400)"
    );
    assert_eq!(
        text(Config { relaxation_stage_4_delta: 10_000, ..base }),
        "Configuration constraint violated: \
         RELAXATION_STAGE_4_DELTA (10000) must be <= RELAXATION_STAGE_5_DELTA (9999)"
    );
    assert_eq!(
        text(Config { stale_claim_timeout_ms: 50, ..base }),
        "Configuration constraint violated: \
         STALE_CLAIM_TIMEOUT_MS (50) must be greater than WORKER_TICK_MS (50). \
         Otherwise the Reaper may reset claims that are still in progress."
    );
}

#[test]
fn a_parsed_value_is_judged_by_its_range() {
    assert_eq!(judge("X", NumberType::U64, "5", Ok(5), 1, 5).unwrap(), 5);
    let invalid = judge("X", NumberType::U32, "6 ", Ok(6), 1, 5).unwrap_err();
    match invalid {
        ConfigError::Invalid { var, expected, actual } => {
            assert_eq!(var, "X");
            assert_eq!(expected, "a value between 1 and 5");
            assert_eq!(actual, "6");
        }
        _ => panic!("expected an invalid value"),
    }
    let unparsed = judge("X", NumberType::U32, "six", Err("why".to_string()), 1, 5).unwrap_err();
    assert_eq!(unparsed.message(), "Invalid value for 'X': expected a valid u32, got 'six (why)'");
    assert_eq!(parse_env_range("X", NumberType::U16, &EnvValue::Unset, 1, 5, 3).unwrap(), 3);
    assert_eq!(parse_env_range("X", NumberType::U16, &set("4"), 1, 5, 3).unwrap(), 4);
}

#[test]
fn a_missing_variable_has_a_message() {
    let missing = ConfigError::Missing("X".to_string(), "why".to_string());
    assert_eq!(missing.message(), "Missing environment variable 'X': why");
}

#[test]
fn a_variable_that_is_not_text_is_refused() {
    let vars = EnvVars { worker_count: EnvValue::NotText, ..EnvVars::default() };
    match Config::from_env(&vars) {
        Err(ConfigError::Invalid { var, expected, actual }) => {
            assert_eq!(var, "WORKER_COUNT");
            assert_eq!(expected, "a valid usize");
            assert_eq!(actual, "bytes that are not valid Unicode");
        }
        other => panic!("Expected an invalid value, got {:?}", other),
    }
    assert!(parse_env_range("X", NumberType::U16, &EnvValue::NotText, 1, 5, 3).is_err());
}

#[test]
fn each_name_feeds_its_own_parameter() {
    let texts = [
        "9000", "7", "60", "600", "1001", "1002", "1003", "1004", "11", "12", "13", "14", "15",
    ];
    let held: Vec<EnvValue> = texts.iter().map(|text| set(text)).collect();
    let config = Config::from_env(&EnvVars::from_held(held)).unwrap();
    assert_eq!(config.server_port, 9000);
    assert_eq!(config.worker_count, 7);
    assert_eq!(config.worker_tick_ms, 60);
    assert_eq!(config.stale_claim_timeout_ms, 600);
    assert_eq!(
        (config.relaxation_stage_1_ms, config.relaxation_stage_2_ms),
        (1001, 1002)
    );
    assert_eq!(
        (config.relaxation_stage_3_ms, config.relaxation_stage_4_ms),
        (1003, 1004)
    );
    assert_eq!(config.relaxation_stage_1_delta, 11);
    assert_eq!(config.relaxation_stage_5_delta, 15);

    // A refused value is reported under the name at its place.
    let names = variable_names();
    for (i, name) in names.iter().enumerate() {
        let held = (0..names.len())
            .map(|k| if k == i { EnvValue::NotText } else { EnvValue::Unset })
            .collect();
        match Config::from_env(&EnvVars::from_held(held)) {
            Err(ConfigError::Invalid { var, .. }) => assert_eq!(&var, name),
            other => panic!("Expected an invalid value, got {:?}", other),
        }
    }
}
