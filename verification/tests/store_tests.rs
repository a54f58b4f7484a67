use api_monitor::appstate::{AppState, StrTable};
use api_monitor::config::{ApiConfig, HttpMethod};
use api_monitor::loadgen::{LoadGen, RequestCycle};
use api_monitor::config::LoadProfile;
use api_monitor::factory::LoadTest;
use api_monitor::tasks::{
    update_app_state, CheckOutcome, MonitoringData, MonitoringDataType, Task,
};

fn sample_data(status: &str, ms: u64, code: Option<u16>) -> MonitoringData {
    MonitoringData {
        status: status.to_string(),
        response_time: ms,
        status_code: code,
        method: HttpMethod::GET,
    }
}

fn api(name: &str, url: &str) -> ApiConfig {
    ApiConfig {
        name: name.to_string(),
        task_order: None,
        url: url.to_string(),
        headers: vec![],
        expected_field: "id".to_string(),
        response_time_threshold: 1000,
        method: HttpMethod::GET,
        body: None,
        body_file: None,
        load_test: None,
        load_test_config: None,
    }
}

#[test]
fn table_insert_and_get() {
    let mut t: StrTable<MonitoringData> = StrTable::new();
    t.insert(&"a".to_string(), sample_data("OK", 10, Some(200)));
    t.insert(&"b".to_string(), sample_data("ERROR", 20, None));
    assert_eq!(t.get(&"a".to_string()).unwrap().response_time, 10);
    assert_eq!(t.get(&"b".to_string()).unwrap().response_time, 20);
    assert!(t.get(&"c".to_string()).is_none());
}

#[test]
fn table_insert_overwrites_in_place() {
    let mut t: StrTable<MonitoringData> = StrTable::new();
    t.insert(&"a".to_string(), sample_data("ERROR", 10, None));
    t.insert(&"a".to_string(), sample_data("OK", 30, Some(200)));
    assert_eq!(t.items().len(), 1);
    let v = t.get(&"a".to_string()).unwrap();
    assert_eq!(v.status, "OK");
    assert_eq!(v.response_time, 30);
}

#[test]
fn update_app_state_files_under_workflow_and_url() {
    let mut state = AppState::new();
    let wf = "checkout".to_string();
    let url = "http://localhost/pay".to_string();
    update_app_state(
        &mut state,
        &wf,
        &url,
        MonitoringDataType::Task,
        sample_data("OK", 15, Some(204)),
    );
    let v = state.task_monitoring_data.get_nested(&wf, &url).unwrap();
    assert_eq!(v.status, "OK");
    assert_eq!(v.status_code, Some(204));
    assert!(state.load_test_monitoring_data.items().is_empty());
}

#[test]
fn task_execute_reports_failure_without_panicking() {
    let mut state = AppState::new();
    let wf = "default".to_string();
    let t = Task { api_config: api("down", "http://localhost/down") };
    let r = t.execute(
        &mut state,
        &wf,
        CheckOutcome::TransportError { elapsed_ms: 120 },
    );
    assert_eq!(r, Err("health check failed: down".to_string()));
    let v = state
        .task_monitoring_data
        .get_nested(&wf, &"http://localhost/down".to_string())
        .unwrap();
    assert_eq!(v.status, "ERROR");
    // no status code on a transport failure
    assert_eq!(v.status_code, None);
    assert_eq!(v.response_time, 120);
}

#[test]
fn task_execute_ok_on_success_status() {
    let mut state = AppState::new();
    let wf = "default".to_string();
    let t = Task { api_config: api("up", "http://localhost/up") };
    let r = t.execute(
        &mut state,
        &wf,
        CheckOutcome::Response { status: 201, elapsed_ms: 30 },
    );
    assert_eq!(r, Ok(()));
    let v = state
        .task_monitoring_data
        .get_nested(&wf, &"http://localhost/up".to_string())
        .unwrap();
    assert_eq!(v.status, "OK");
    assert_eq!(v.status_code, Some(201));
}

#[test]
fn load_test_result_goes_to_its_own_table() {
    let mut state = AppState::new();
    let wf = "default".to_string();
    let lt = LoadTest {
        api_config: api("lt", "http://localhost/load"),
        load_test_config: LoadProfile {
            initial_load: 1,
            max_load: 2,
            spawn_rate: 1,
            retry_count: 0,
            max_duration_secs: 1,
        },
    };
    let mut gen = LoadGen::new(lt.load_test_config);
    let mut cycle = RequestCycle::new(0);
    cycle.record_attempt(true);
    gen.complete_logical(&cycle, &vec![11]);
    let data = gen.finalize(1, false);
    lt.record_result(&mut state, &wf, data);

    let v = state
        .load_test_monitoring_data
        .get_nested(&wf, &"http://localhost/load".to_string())
        .unwrap();
    assert_eq!(v.total_requests, 1);
    assert_eq!(v.successes, 1);
    // the same key never appears in the health-check table
    assert!(state
        .task_monitoring_data
        .get_nested(&wf, &"http://localhost/load".to_string())
        .is_none());
}

#[test]
fn fresh_and_mutated_store_stays_well_formed() {
    let mut state = AppState::new();
    assert!(state.check_wf());
    let wf = "default".to_string();
    update_app_state(
        &mut state,
        &wf,
        &"http://localhost/a".to_string(),
        MonitoringDataType::Task,
        sample_data("OK", 1, Some(200)),
    );
    update_app_state(
        &mut state,
        &wf,
        &"http://localhost/a".to_string(),
        MonitoringDataType::Task,
        sample_data("ERROR", 2, None),
    );
    assert!(state.check_wf());
}
