use vstd::prelude::*;

use crate::appstate::{nested_insert, AppState};
use crate::config::{ApiConfig, HttpMethod};

verus! {

/// The data recorded for one health check of an endpoint.
pub struct MonitoringData {
    /// The outcome classification, `"OK"` or `"ERROR"`.
    pub status: String,
    /// The measured response time, in milliseconds.
    pub response_time: u64,
    /// The HTTP status code, absent when the transport itself failed.
    pub status_code: Option<u16>,
    /// The HTTP method the check was made with.
    pub method: HttpMethod,
}

/// The mathematical value of a `MonitoringData`.
#[verifier::ext_equal]
pub ghost struct MonitoringDataView {
    pub status: Seq<char>,
    pub response_time: u64,
    pub status_code: Option<u16>,
    pub method: HttpMethod,
}

impl View for MonitoringData {
    type V = MonitoringDataView;

    open spec fn view(&self) -> MonitoringDataView {
        MonitoringDataView {
            status: self.status@,
            response_time: self.response_time,
            status_code: self.status_code,
            method: self.method,
        }
    }
}

/// Which table of the store a result belongs to.
pub enum MonitoringDataType {
    /// A plain health-check task.
    Task,
}

/// What one HTTP attempt yielded at the transport level: a response with its
/// status code, or a transport failure; either way the elapsed wall-clock
/// time, in milliseconds, from just before the send to the response or error.
#[derive(Clone, Copy, Debug, PartialEq, Eq, Structural)]
pub enum CheckOutcome {
    Response { status: u16, elapsed_ms: u64 },
    TransportError { elapsed_ms: u64 },
}

impl CheckOutcome {
    /// The measured latency of the attempt.
    pub open spec fn elapsed_spec(self) -> u64 {
        match self {
            CheckOutcome::Response { elapsed_ms, .. } => elapsed_ms,
            CheckOutcome::TransportError { elapsed_ms } => elapsed_ms,
        }
    }

    /// The attempt succeeded: the transport worked and the status code lies
    /// in the success range.
    pub open spec fn is_success(self) -> bool {
        match self {
            CheckOutcome::Response { status, .. } => 200 <= status < 300,
            CheckOutcome::TransportError { .. } => false,
        }
    }

    /// Runtime check matching `is_success`.
    pub fn check_success(&self) -> (r: bool)
        ensures
            r == self.is_success(),
    {
        match self {
            CheckOutcome::Response { status, .. } => 200 <= *status && *status < 300,
            CheckOutcome::TransportError { .. } => false,
        }
    }

    /// The elapsed time, as an executable function.
    pub fn elapsed(&self) -> (r: u64)
        ensures
            r == self.elapsed_spec(),
    {
        match self {
            CheckOutcome::Response { elapsed_ms, .. } => *elapsed_ms,
            CheckOutcome::TransportError { elapsed_ms } => *elapsed_ms,
        }
    }
}

/// The health-check record an outcome is classified into: `OK` exactly when
/// the transport worked and the status lies in the success range, the status
/// code kept whenever the transport worked, the latency always kept.
pub open spec fn spec_classify(method: HttpMethod, outcome: CheckOutcome) -> MonitoringDataView {
    MonitoringDataView {
        status: if outcome.is_success() {
            "OK"@
        } else {
            "ERROR"@
        },
        response_time: outcome.elapsed_spec(),
        status_code: match outcome {
            CheckOutcome::Response { status, .. } => Some(status),
            CheckOutcome::TransportError { .. } => None,
        },
        method: method,
    }
}

/// Classifies the outcome of one health-check attempt.
pub fn classify_check(method: HttpMethod, outcome: CheckOutcome) -> (d: MonitoringData)
    ensures
        d@ == spec_classify(method, outcome),
{
    let success = outcome.check_success();
    MonitoringData {
        status: if success {
            "OK".to_owned()
        } else {
            "ERROR".to_owned()
        },
        response_time: outcome.elapsed(),
        status_code: match outcome {
            CheckOutcome::Response { status, .. } => Some(status),
            CheckOutcome::TransportError { .. } => None,
        },
        method: method,
    }
}

/// A health-check task: one endpoint checked with a single request and no
/// retry.
pub struct Task {
    /// The monitored endpoint's static description.
    pub api_config: ApiConfig,
}

impl Task {
    /// A stable human-readable identity for logs, holding the endpoint's
    /// configured name.
    pub fn describe(&self) -> (r: String)
        ensures
            r@ == "Task for "@ + self.api_config@.name,
    {
        "Task for ".to_owned().concat(self.api_config.name.as_str())
    }

    /// An advisory response-time threshold; plain status monitoring sets
    /// none.
    pub fn response_time_threshold(&self) -> (r: Option<u64>)
        ensures
            r is None,
    {
        None
    }

    /// The grouping key the task runs under; a task without one runs last.
    pub fn get_task_order(&self) -> (r: usize)
        ensures
            r == self.api_config@.effective_order(),
    {
        match self.api_config.task_order {
            Some(o) => o,
            None => usize::MAX,
        }
    }
}


/// Files one monitoring record into the shared state under the workflow's
/// name and the endpoint's URL, overwriting the previous record for that
/// endpoint.
pub fn update_app_state(
    app_state: &mut AppState,
    workflow: &String,
    api_url: &String,
    data_type: MonitoringDataType,
    monitoring_data: MonitoringData,
)
    requires
        old(app_state).wf(),
    ensures
        final(app_state).wf(),
        final(app_state).task_monitoring_data@ == nested_insert(
            (*old(app_state)).task_monitoring_data@,
            workflow@,
            api_url@,
            monitoring_data@,
        ),
        final(app_state).load_test_monitoring_data == (*old(app_state)).load_test_monitoring_data,
{
    match data_type {
        MonitoringDataType::Task => {
            app_state.task_monitoring_data.insert_nested(workflow, api_url, monitoring_data);
        },
    }
}

impl Task {
    /// Settles one executed health check: classifies the outcome, records it
    /// under the task's workflow and URL, and reports a failure value — never
    /// a panic — when the check did not succeed.
    pub fn execute(&self, app_state: &mut AppState, workflow: &String, outcome: CheckOutcome) -> (r:
        Result<(), String>)
        requires
            old(app_state).wf(),
        ensures
            final(app_state).wf(),
            final(app_state).task_monitoring_data@ == nested_insert(
                (*old(app_state)).task_monitoring_data@,
                workflow@,
                self.api_config@.url,
                spec_classify(self.api_config@.method, outcome),
            ),
            final(app_state).load_test_monitoring_data == (*old(
                app_state,
            )).load_test_monitoring_data,
            r is Ok <==> outcome.is_success(),
            r matches Err(m) ==> m@ == "health check failed: "@ + self.api_config@.name,
    {
        let data = classify_check(self.api_config.method, outcome);
        update_app_state(app_state, workflow, &self.api_config.url, MonitoringDataType::Task, data);
        if outcome.check_success() {
            Ok(())
        } else {
            Err("health check failed: ".to_owned().concat(self.api_config.name.as_str()))
        }
    }
}

} // verus!
