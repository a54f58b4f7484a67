use api_monitor::appstate::AppState;
use api_monitor::config::{ApiConfig, HttpMethod, LoadProfile, LoadTestConfig, Settings};
use api_monitor::factory::{
    create_monitor_tasks, create_request_builder, group_tasks, run_workflow, BuildError,
    MonitorTask, TaskOutcome,
};
use api_monitor::tasks::CheckOutcome;

fn api(name: &str, url: &str, order: Option<usize>, method: HttpMethod) -> ApiConfig {
    ApiConfig {
        name: name.to_string(),
        task_order: order,
        url: url.to_string(),
        headers: vec![],
        expected_field: "id".to_string(),
        response_time_threshold: 1000,
        method,
        body: None,
        body_file: None,
        load_test: None,
        load_test_config: None,
    }
}

fn settings_of(apis: Vec<ApiConfig>) -> Settings {
    Settings {
        apis,
        monitoring_interval_seconds: 60,
        log_level: "info".to_string(),
        http_timeout_seconds: 10,
        http_proxy_url: None,
        http_default_headers: vec![],
    }
}

#[test]
fn request_plan_for_get_carries_no_body() {
    let mut a = api("a", "http://localhost/a", None, HttpMethod::GET);
    a.headers = vec![("Accept".to_string(), "application/json".to_string())];
    a.body = Some("ignored".to_string());
    let plan = create_request_builder(&a, None).expect("plan");
    assert_eq!(plan.method, HttpMethod::GET);
    assert_eq!(plan.url, "http://localhost/a");
    assert_eq!(plan.headers.len(), 1);
    assert_eq!(plan.body, None);
}

#[test]
fn request_plan_for_post_uses_inline_body() {
    let mut a = api("a", "http://localhost/a", None, HttpMethod::POST);
    a.body = Some("{\"k\":1}".to_string());
    let plan = create_request_builder(&a, None).expect("plan");
    assert_eq!(plan.body, Some("{\"k\":1}".to_string()));
}

#[test]
fn request_plan_prefers_body_file_content() {
    let mut a = api("a", "http://localhost/a", None, HttpMethod::PUT);
    a.body = Some("inline".to_string());
    a.body_file = Some("payload.json".to_string());
    let plan = create_request_builder(&a, Some("from file".to_string())).expect("plan");
    assert_eq!(plan.body, Some("from file".to_string()));
}

#[test]
fn request_plan_reports_missing_body_file() {
    let mut a = api("a", "http://localhost/a", None, HttpMethod::POST);
    a.body_file = Some("payload.json".to_string());
    match create_request_builder(&a, None) {
        Err(e) => assert_eq!(e, BuildError::MissingBodyFile),
        Ok(_) => panic!("plan built without the body file's content"),
    }
}

#[test]
fn request_plan_rejects_bad_header() {
    let mut a = api("a", "http://localhost/a", None, HttpMethod::GET);
    a.headers = vec![
        ("Accept".to_string(), "application/json".to_string()),
        ("bad header name".to_string(), "v".to_string()),
    ];
    match create_request_builder(&a, None) {
        Err(e) => assert_eq!(e, BuildError::InvalidHeader { index: 1 }),
        Ok(_) => panic!("plan built from an invalid header"),
    }
}

#[test]
fn request_plan_rejects_bad_header_value() {
    let mut a = api("a", "http://localhost/a", None, HttpMethod::GET);
    a.headers = vec![("Accept".to_string(), "bad\nvalue".to_string())];
    match create_request_builder(&a, None) {
        Err(e) => assert_eq!(e, BuildError::InvalidHeader { index: 0 }),
        Ok(_) => panic!("plan built from an invalid header value"),
    }
}

#[test]
fn monitor_tasks_follow_the_load_flag() {
    let mut load = api("lt", "http://localhost/load", Some(2), HttpMethod::GET);
    load.load_test = Some(true);
    load.load_test_config = Some(LoadTestConfig {
        initial_load: Some(1),
        max_load: Some(4),
        spawn_rate: Some(1),
        retry_count: Some(1),
        max_duration_secs: Some(3),
    });
    let plain = api("hc", "http://localhost/hc", Some(1), HttpMethod::GET);
    let tasks = create_monitor_tasks(&settings_of(vec![plain, load]));
    assert_eq!(tasks.len(), 2);
    match &tasks[0] {
        MonitorTask::Check(t) => assert_eq!(t.api_config.name, "hc"),
        MonitorTask::Load(_) => panic!("first task should be a health check"),
    }
    match &tasks[1] {
        MonitorTask::Load(l) => {
            assert_eq!(l.api_config.name, "lt");
            assert_eq!(
                l.load_test_config,
                LoadProfile {
                    initial_load: 1,
                    max_load: 4,
                    spawn_rate: 1,
                    retry_count: 1,
                    max_duration_secs: 3,
                }
            );
        },
        MonitorTask::Check(_) => panic!("second task should be a load test"),
    }
}

#[test]
fn groups_are_strictly_ascending_and_complete() {
    let apis = vec![
        api("c", "http://localhost/c", Some(2), HttpMethod::GET),
        api("a", "http://localhost/a", Some(1), HttpMethod::GET),
        api("b", "http://localhost/b", Some(1), HttpMethod::GET),
        api("last", "http://localhost/last", None, HttpMethod::GET),
    ];
    let tasks = create_monitor_tasks(&settings_of(apis));
    let groups = group_tasks(&tasks);
    assert_eq!(groups.len(), 3);
    assert_eq!(groups[0].order, 1);
    assert_eq!(groups[0].members, vec![1, 2]);
    assert_eq!(groups[1].order, 2);
    assert_eq!(groups[1].members, vec![0]);
    assert_eq!(groups[2].order, usize::MAX);
    assert_eq!(groups[2].members, vec![3]);
}

#[test]
fn tasks_sharing_a_key_share_a_group() {
    let apis = vec![
        api("x", "http://localhost/x", Some(7), HttpMethod::GET),
        api("y", "http://localhost/y", Some(7), HttpMethod::GET),
    ];
    let tasks = create_monitor_tasks(&settings_of(apis));
    let groups = group_tasks(&tasks);
    assert_eq!(groups.len(), 1);
    assert_eq!(groups[0].members.len(), 2);
}

#[test]
fn describe_names_the_endpoint() {
    let tasks = create_monitor_tasks(&settings_of(vec![api(
        "orders-api",
        "http://localhost/o",
        None,
        HttpMethod::GET,
    )]));
    match &tasks[0] {
        MonitorTask::Check(t) => assert_eq!(t.describe(), "Task for orders-api"),
        MonitorTask::Load(_) => panic!("expected a health check"),
    }
}

#[test]
fn same_group_checks_both_recorded() {
    // two endpoints in one group: one healthy, one answering with a server
    // error; both results are present afterwards and nothing panics
    let wf = "default".to_string();
    let apis = vec![
        api("A", "http://localhost/a", Some(1), HttpMethod::GET),
        api("B", "http://localhost/b", Some(1), HttpMethod::GET),
    ];
    let tasks = create_monitor_tasks(&settings_of(apis));
    let outcomes = vec![
        TaskOutcome::Check(CheckOutcome::Response { status: 200, elapsed_ms: 50 }),
        TaskOutcome::Check(CheckOutcome::Response { status: 500, elapsed_ms: 80 }),
    ];
    let mut state = AppState::new();
    run_workflow(&mut state, &wf, &tasks, &outcomes);

    let a = state
        .task_monitoring_data
        .get_nested(&wf, &"http://localhost/a".to_string())
        .expect("record for A");
    assert_eq!(a.status, "OK");
    assert_eq!(a.status_code, Some(200));
    assert_eq!(a.response_time, 50);

    let b = state
        .task_monitoring_data
        .get_nested(&wf, &"http://localhost/b".to_string())
        .expect("record for B");
    assert_eq!(b.status, "ERROR");
    assert_eq!(b.status_code, Some(500));
    assert_eq!(b.response_time, 80);
}

#[test]
fn rerun_overwrites_without_stale_keys() {
    let wf = "default".to_string();
    let apis = vec![api("A", "http://localhost/a", Some(1), HttpMethod::GET)];
    let tasks = create_monitor_tasks(&settings_of(apis));
    let mut state = AppState::new();
    run_workflow(
        &mut state,
        &wf,
        &tasks,
        &vec![TaskOutcome::Check(CheckOutcome::Response { status: 500, elapsed_ms: 9 })],
    );
    run_workflow(
        &mut state,
        &wf,
        &tasks,
        &vec![TaskOutcome::Check(CheckOutcome::Response { status: 200, elapsed_ms: 7 })],
    );
    let outer = state.task_monitoring_data.items();
    assert_eq!(outer.len(), 1);
    let inner = outer[0].1.items();
    assert_eq!(inner.len(), 1);
    let rec = state
        .task_monitoring_data
        .get_nested(&wf, &"http://localhost/a".to_string())
        .expect("latest record");
    assert_eq!(rec.status, "OK");
    assert_eq!(rec.response_time, 7);
}

#[test]
fn load_test_describe_names_the_endpoint() {
    let mut flagged = api("stress", "http://localhost/s", None, HttpMethod::GET);
    flagged.load_test = Some(true);
    let tasks = create_monitor_tasks(&settings_of(vec![{
        let mut a = flagged;
        a.load_test_config = Some(LoadTestConfig {
            initial_load: Some(1),
            max_load: Some(2),
            spawn_rate: Some(1),
            retry_count: Some(0),
            max_duration_secs: Some(1),
        });
        a
    }]));
    match &tasks[0] {
        MonitorTask::Load(l) => {
            assert_eq!(l.describe(), "Load test for stress");
            assert_eq!(l.response_time_threshold(), None);
        },
        MonitorTask::Check(_) => panic!("expected a load test"),
    }
}

#[test]
fn task_without_order_runs_last() {
    let tasks = create_monitor_tasks(&settings_of(vec![api(
        "free",
        "http://localhost/f",
        None,
        HttpMethod::GET,
    )]));
    match &tasks[0] {
        MonitorTask::Check(t) => assert_eq!(t.get_task_order(), usize::MAX),
        MonitorTask::Load(_) => panic!("expected a health check"),
    }
}
