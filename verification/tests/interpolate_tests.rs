use api_monitor::config::{ApiConfig, HttpMethod, Settings};
use api_monitor::interpolate::{interpolate_config, interpolate_string};

fn test_settings() -> Settings {
    Settings {
        apis: vec![ApiConfig {
            name: "Setup Organization".to_string(),
            task_order: Some(1),
            url: "${API_URL}".to_string(),
            headers: vec![],
            expected_field: "id".to_string(),
            response_time_threshold: 2000,
            method: HttpMethod::GET,
            body: None,
            body_file: None,
            load_test: Some(false),
            load_test_config: None,
        }],
        monitoring_interval_seconds: 60,
        log_level: "info".to_string(),
        http_timeout_seconds: 20,
        http_proxy_url: None,
        http_default_headers: vec![
            ("User-Agent".to_string(), "MonitoringTool/1.0".to_string()),
            ("Accept".to_string(), "application/json".to_string()),
            ("Authorization".to_string(), "Bearer ${TEST_TOKEN}".to_string()),
        ],
    }
}

fn env_of(pairs: &[(&str, &str)]) -> Vec<(String, String)> {
    pairs
        .iter()
        .map(|(k, v)| (k.to_string(), v.to_string()))
        .collect()
}

#[test]
fn test_interpolation_for_token() {
    let env = env_of(&[
        ("API_URL", "https://jsonplaceholder.typicode.com/todos/1"),
        ("TEST_TOKEN", "secret_token"),
    ]);

    let mut settings = test_settings();
    interpolate_config(&mut settings, &env);

    assert_eq!(
        settings.apis[0].url,
        "https://jsonplaceholder.typicode.com/todos/1"
    );
    let auth = settings
        .http_default_headers
        .iter()
        .find(|(k, _)| k == "Authorization")
        .map(|(_, v)| v.clone())
        .unwrap();
    assert_eq!(auth, "Bearer secret_token");
}

#[test]
fn interpolation_keeps_unbound_placeholder() {
    let env = env_of(&[("OTHER", "x")]);
    let out = interpolate_string("a ${MISSING} b", &env);
    assert_eq!(out, "a ${MISSING} b");
}

#[test]
fn interpolation_replaces_multiple_placeholders() {
    let env = env_of(&[("A", "1"), ("B", "2")]);
    let out = interpolate_string("${A}-${B}-${A}", &env);
    assert_eq!(out, "1-2-1");
}

#[test]
fn interpolation_ignores_empty_name() {
    let env = env_of(&[("X", "1")]);
    let out = interpolate_string("${}${X}", &env);
    assert_eq!(out, "${}1");
}

#[test]
fn interpolation_ignores_unclosed_placeholder() {
    let env = env_of(&[("X", "1")]);
    let out = interpolate_string("${X", &env);
    assert_eq!(out, "${X");
}

#[test]
fn interpolation_first_binding_wins() {
    let env = env_of(&[("X", "first"), ("X", "second")]);
    let out = interpolate_string("${X}", &env);
    assert_eq!(out, "first");
}

#[test]
fn interpolation_leaves_plain_text_alone() {
    let env = env_of(&[]);
    let out = interpolate_string("no dollars here, just text", &env);
    assert_eq!(out, "no dollars here, just text");
}
