use api_monitor::config::{
    validate_settings, ApiConfig, ConfigError, HttpMethod, LoadTestConfig, Settings,
};

fn api(name: &str, url: &str) -> ApiConfig {
    ApiConfig {
        name: name.to_string(),
        task_order: None,
        url: url.to_string(),
        headers: vec![],
        expected_field: "id".to_string(),
        response_time_threshold: 1000,
        method: HttpMethod::GET,
        body: None,
        body_file: None,
        load_test: None,
        load_test_config: None,
    }
}

fn settings_of(apis: Vec<ApiConfig>) -> Settings {
    Settings {
        apis,
        monitoring_interval_seconds: 60,
        log_level: "info".to_string(),
        http_timeout_seconds: 10,
        http_proxy_url: None,
        http_default_headers: vec![],
    }
}

#[test]
fn default_load_test_config_values() {
    let d = LoadTestConfig::default();
    assert_eq!(d.initial_load, Some(1));
    assert_eq!(d.max_load, Some(10));
    assert_eq!(d.spawn_rate, Some(1));
    assert_eq!(d.retry_count, Some(0));
    assert_eq!(d.max_duration_secs, Some(60));
}

#[test]
fn resolved_profile_substitutes_defaults() {
    let c = LoadTestConfig {
        initial_load: None,
        max_load: Some(4),
        spawn_rate: None,
        retry_count: Some(2),
        max_duration_secs: None,
    };
    let p = c.resolved();
    assert_eq!(p.initial_load, 1);
    assert_eq!(p.max_load, 4);
    assert_eq!(p.spawn_rate, 1);
    assert_eq!(p.retry_count, 2);
    assert_eq!(p.max_duration_secs, 60);
}

#[test]
fn validate_accepts_plain_settings() {
    let mut s = settings_of(vec![api("a", "http://localhost/a")]);
    assert!(validate_settings(&mut s).is_ok());
}

#[test]
fn validate_rejects_missing_url() {
    let mut s = settings_of(vec![api("a", "http://localhost/a"), api("b", "")]);
    assert_eq!(
        validate_settings(&mut s),
        Err(ConfigError::MissingUrl { index: 1 })
    );
}

#[test]
fn validate_defaults_missing_load_profile() {
    let mut flagged = api("lt", "http://localhost/load");
    flagged.load_test = Some(true);
    let mut s = settings_of(vec![flagged]);
    assert!(validate_settings(&mut s).is_ok());
    let cfg = s.apis[0].load_test_config.expect("profile defaulted");
    assert_eq!(cfg.initial_load, Some(1));
    assert_eq!(cfg.max_load, Some(10));
}

#[test]
fn validate_rejects_malformed_profile() {
    let mut flagged = api("lt", "http://localhost/load");
    flagged.load_test = Some(true);
    flagged.load_test_config = Some(LoadTestConfig {
        initial_load: Some(5),
        max_load: Some(2),
        spawn_rate: Some(1),
        retry_count: Some(0),
        max_duration_secs: Some(10),
    });
    let mut s = settings_of(vec![flagged]);
    assert_eq!(
        validate_settings(&mut s),
        Err(ConfigError::InvalidLoadProfile { index: 0 })
    );
}

#[test]
fn validate_ignores_profile_without_flag() {
    let mut unflagged = api("plain", "http://localhost/x");
    unflagged.load_test = Some(false);
    unflagged.load_test_config = Some(LoadTestConfig {
        initial_load: Some(5),
        max_load: Some(2),
        spawn_rate: Some(1),
        retry_count: Some(0),
        max_duration_secs: Some(10),
    });
    let mut s = settings_of(vec![unflagged]);
    assert!(validate_settings(&mut s).is_ok());
}

#[test]
fn config_error_messages() {
    let m = ConfigError::MissingUrl { index: 0 }.message();
    assert_eq!(m, "API URL is missing in the configuration");
    let p = ConfigError::InvalidLoadProfile { index: 3 }.message();
    assert_eq!(p, "load test configuration resolves to an invalid profile");
}
