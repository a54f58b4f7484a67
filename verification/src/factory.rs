use vstd::prelude::*;

use core::str::FromStr;

use crate::appstate::{nested_insert, AppState};
use crate::config::{
    clone_api_config, clone_pairs, pairs_view, ApiConfig, ApiConfigView, HttpMethod, LoadProfile,
    Settings,
};
use crate::loadgen::LoadTestMonitoringData;
use crate::tasks::{spec_classify, CheckOutcome, MonitoringDataView, Task};

verus! {

/// Whether a string parses as an HTTP header name; the name stands for the
/// outcome of the HTTP crate's parser, a function of the characters alone.
pub uninterp spec fn valid_header_name(s: Seq<char>) -> bool;

/// Whether a string parses as an HTTP header value; the name stands for the
/// outcome of the HTTP crate's parser, a function of the characters alone.
pub uninterp spec fn valid_header_value(s: Seq<char>) -> bool;

/// Relies on `reqwest::header::HeaderName::from_str` (the `http` crate's
/// `HeaderName`): it parses from the string's bytes alone, so acceptance is
/// a function of the characters.
#[verifier::external_body]
fn check_header_name(s: &String) -> (r: bool)
    ensures
        r == valid_header_name(s@),
{
    reqwest::header::HeaderName::from_str(s).is_ok()
}

/// Relies on `reqwest::header::HeaderValue::from_str` (the `http` crate's
/// `HeaderValue`): it parses from the string's bytes alone, so acceptance is
/// a function of the characters.
#[verifier::external_body]
fn check_header_value(s: &String) -> (r: bool)
    ensures
        r == valid_header_value(s@),
{
    reqwest::header::HeaderValue::from_str(s).is_ok()
}

/// Both halves of one configured header encode.
pub open spec fn header_pair_ok(p: (Seq<char>, Seq<char>)) -> bool {
    valid_header_name(p.0) && valid_header_value(p.1)
}

/// The body a request for this endpoint carries before the method is taken
/// into account: the configured file's content when a body file is named,
/// else the inline body, else nothing.
pub open spec fn resolved_body(a: ApiConfigView, file_content: Option<Seq<char>>) -> Seq<char> {
    match a.body_file {
        Some(_) => file_content->Some_0,
        None => match a.body {
            Some(b) => b,
            None => Seq::empty(),
        },
    }
}

/// Why a request could not be built; such an error is scoped to one task and
/// never aborts the process.
#[derive(Clone, Copy, Debug, PartialEq, Eq, Structural)]
pub enum BuildError {
    /// The header at this position does not encode as a name/value pair.
    InvalidHeader { index: usize },
    /// The endpoint names a body file, but its content was not supplied.
    MissingBodyFile,
}

/// Everything needed to issue one HTTP request, headers already validated;
/// building a plan performs no I/O.
pub struct RequestPlan {
    pub method: HttpMethod,
    pub url: String,
    pub headers: Vec<(String, String)>,
    /// The body to send; absent for methods that carry none.
    pub body: Option<String>,
}

/// The mathematical value of a `RequestPlan`.
#[verifier::ext_equal]
pub ghost struct RequestPlanView {
    pub method: HttpMethod,
    pub url: Seq<char>,
    pub headers: Seq<(Seq<char>, Seq<char>)>,
    pub body: Option<Seq<char>>,
}

impl View for RequestPlan {
    type V = RequestPlanView;

    open spec fn view(&self) -> RequestPlanView {
        RequestPlanView {
            method: self.method,
            url: self.url@,
            headers: pairs_view(self.headers@),
            body: match self.body {
                Some(b) => Some(b@),
                None => None,
            },
        }
    }
}

/// Builds the request plan for one endpoint: every configured header must
/// encode (the walk stops at the first that does not), the body is the
/// supplied file content when a body file is named — the caller reads the
/// file — else the inline body; POST and PUT carry the body, GET and DELETE
/// carry none.
pub fn create_request_builder(api_config: &ApiConfig, body_file_content: Option<String>) -> (r:
    Result<RequestPlan, BuildError>)
    ensures
        match r {
            Ok(plan) => {
                &&& forall|j: int|
                    0 <= j < api_config@.headers.len() ==> header_pair_ok(
                        #[trigger] api_config@.headers[j],
                    )
                &&& (api_config@.body_file is Some ==> body_file_content is Some)
                &&& plan@.method == api_config@.method
                &&& plan@.url == api_config@.url
                &&& plan@.headers == api_config@.headers
                &&& plan@.body == (if api_config@.method == HttpMethod::POST || api_config@.method
                    == HttpMethod::PUT {
                    Some(
                        resolved_body(
                            api_config@,
                            match body_file_content {
                                Some(c) => Some(c@),
                                None => None,
                            },
                        ),
                    )
                } else {
                    Option::<Seq<char>>::None
                })
            },
            Err(BuildError::InvalidHeader { index }) => {
                &&& index < api_config@.headers.len()
                &&& !header_pair_ok(api_config@.headers[index as int])
                &&& forall|j: int|
                    0 <= j < index ==> header_pair_ok(#[trigger] api_config@.headers[j])
            },
            Err(BuildError::MissingBodyFile) => {
                &&& forall|j: int|
                    0 <= j < api_config@.headers.len() ==> header_pair_ok(
                        #[trigger] api_config@.headers[j],
                    )
                &&& api_config@.body_file is Some
                &&& body_file_content is None
            },
        },
{
    let n = api_config.headers.len();
    let mut i: usize = 0;
    while i < n
        invariant
            n == api_config.headers.len(),
            i <= n,
            forall|j: int| 0 <= j < i ==> header_pair_ok(#[trigger] api_config@.headers[j]),
        decreases n - i,
    {
        let name_ok = check_header_name(&api_config.headers[i].0);
        let value_ok = check_header_value(&api_config.headers[i].1);
        if !name_ok || !value_ok {
            assert(!header_pair_ok(api_config@.headers[i as int]));
            return Err(BuildError::InvalidHeader { index: i });
        }
        assert(header_pair_ok(api_config@.headers[i as int]));
        i += 1;
    }
    let body_content: String = match &api_config.body_file {
        Some(_) => match body_file_content {
            Some(c) => c,
            None => {
                return Err(BuildError::MissingBodyFile);
            },
        },
        None => match &api_config.body {
            Some(b) => b.clone(),
            None => String::new(),
        },
    };
    let carries = api_config.method.carries_body();
    Ok(
        RequestPlan {
            method: api_config.method,
            url: api_config.url.clone(),
            headers: clone_pairs(&api_config.headers),
            body: if carries {
                Some(body_content)
            } else {
                None
            },
        },
    )
}

/// A load-test task: drives the progressive load generator against one
/// endpoint and records the aggregate.
pub struct LoadTest {
    /// Configuration of the endpoint the load is driven against.
    pub api_config: ApiConfig,
    /// The resolved profile of the run.
    pub load_test_config: LoadProfile,
}

impl LoadTest {
    /// A stable human-readable identity for logs, holding the endpoint's
    /// configured name.
    pub fn describe(&self) -> (r: String)
        ensures
            r@ == "Load test for "@ + self.api_config@.name,
    {
        "Load test for ".to_owned().concat(self.api_config.name.as_str())
    }

    /// An advisory response-time threshold; not enforced as a gate.
    pub fn response_time_threshold(&self) -> (r: Option<u64>)
        ensures
            r is None,
    {
        None
    }

    /// The grouping key the task runs under; a task without one runs last.
    pub fn get_task_order(&self) -> (r: usize)
        ensures
            r == self.api_config@.effective_order(),
    {
        match self.api_config.task_order {
            Some(o) => o,
            None => usize::MAX,
        }
    }

    /// Files the aggregate of one completed run under the task's workflow
    /// and URL, overwriting the previous aggregate for that endpoint.
    pub fn record_result(
        &self,
        app_state: &mut AppState,
        workflow: &String,
        data: LoadTestMonitoringData,
    )
        requires
            old(app_state).wf(),
        ensures
            final(app_state).wf(),
            final(app_state).load_test_monitoring_data@ == nested_insert(
                (*old(app_state)).load_test_monitoring_data@,
                workflow@,
                self.api_config@.url,
                data,
            ),
            final(app_state).task_monitoring_data == (*old(app_state)).task_monitoring_data,
    {
        app_state.load_test_monitoring_data.insert_nested(workflow, &self.api_config.url, data);
    }
}

/// The closed set of schedulable task kinds: a plain health check or a
/// progressive load test.
pub enum MonitorTask {
    Check(Task),
    Load(LoadTest),
}

/// The mathematical value of a `MonitorTask`.
#[verifier::ext_equal]
pub ghost struct MonitorTaskView {
    pub api: ApiConfigView,
    pub is_load: bool,
    /// The resolved profile; present exactly on load-test tasks.
    pub profile: Option<LoadProfile>,
}

impl View for MonitorTask {
    type V = MonitorTaskView;

    open spec fn view(&self) -> MonitorTaskView {
        match self {
            MonitorTask::Check(t) => MonitorTaskView {
                api: t.api_config@,
                is_load: false,
                profile: None,
            },
            MonitorTask::Load(l) => MonitorTaskView {
                api: l.api_config@,
                is_load: true,
                profile: Some(l.load_test_config),
            },
        }
    }
}

impl MonitorTaskView {
    /// The grouping key of the task.
    pub open spec fn order(self) -> usize {
        self.api.effective_order()
    }
}

impl MonitorTask {
    /// The grouping key the task runs under; a task without one runs last.
    pub fn get_task_order(&self) -> (r: usize)
        ensures
            r == self@.order(),
    {
        match self {
            MonitorTask::Check(t) => t.get_task_order(),
            MonitorTask::Load(l) => l.get_task_order(),
        }
    }
}

/// The tasks a list of endpoints gives rise to: one load-test task for each
/// endpoint flagged for load testing whose configuration is present, one
/// health-check task for each endpoint not flagged; a flagged endpoint
/// without a configuration — which validation rules out — yields no task.
pub open spec fn tasks_for(apis: Seq<ApiConfigView>) -> Seq<MonitorTaskView>
    decreases apis.len(),
{
    if apis.len() == 0 {
        Seq::empty()
    } else {
        let a = apis.last();
        tasks_for(apis.drop_last()) + (if a.is_load_test() {
            match a.load_test_config {
                Some(c) => seq![
                    MonitorTaskView { api: a, is_load: true, profile: Some(c.resolved_spec()) },
                ],
                None => Seq::empty(),
            }
        } else {
            seq![MonitorTaskView { api: a, is_load: false, profile: None }]
        })
    }
}

/// Builds one monitorable task per configured endpoint, as `tasks_for`
/// describes.
pub fn create_monitor_tasks(cfg: &Settings) -> (tasks: Vec<MonitorTask>)
    ensures
        tasks@.map_values(|t: MonitorTask| t@) == tasks_for(cfg@.apis),
{
    let mut tasks: Vec<MonitorTask> = Vec::new();
    let n = cfg.apis.len();
    let mut i: usize = 0;
    while i < n
        invariant
            n == cfg.apis.len(),
            i <= n,
            tasks@.map_values(|t: MonitorTask| t@) == tasks_for(cfg@.apis.subrange(0, i as int)),
        decreases n - i,
    {
        let ghost prefix = cfg@.apis.subrange(0, i as int);
        let ghost prefix1 = cfg@.apis.subrange(0, i as int + 1);
        proof {
            assert(prefix1.drop_last() =~= prefix);
            assert(prefix1.last() == cfg@.apis[i as int]);
        }
        let api = &cfg.apis[i];
        let flagged = match api.load_test {
            Some(b) => b,
            None => false,
        };
        if flagged {
            match &api.load_test_config {
                Some(c) => {
                    let profile = c.resolved();
                    tasks.push(
                        MonitorTask::Load(
                            LoadTest { api_config: clone_api_config(api), load_test_config: profile },
                        ),
                    );
                },
                None => {},
            }
        } else {
            tasks.push(MonitorTask::Check(Task { api_config: clone_api_config(api) }));
        }
        proof {
            assert(tasks@.map_values(|t: MonitorTask| t@) =~= tasks_for(prefix1));
        }
        i += 1;
    }
    proof {
        assert(cfg@.apis.subrange(0, n as int) =~= cfg@.apis);
    }
    tasks
}

/// One barrier group of a schedule: the tasks at these positions share the
/// order key and run concurrently; groups run strictly one after another.
pub struct TaskGroup {
    /// The shared order key.
    pub order: usize,
    /// Positions, in the task list, of the group's members, in list order.
    pub members: Vec<usize>,
}

/// Some group carries this order key.
pub open spec fn has_group_for(groups: Seq<TaskGroup>, key: usize) -> bool {
    exists|g: int| 0 <= g < groups.len() && (#[trigger] groups[g]).order == key
}

/// The positions of the tasks that carry the given order key, in list order.
pub open spec fn matching_positions(tasks: Seq<MonitorTaskView>, key: usize) -> Seq<usize>
    decreases tasks.len(),
{
    if tasks.len() == 0 {
        Seq::empty()
    } else {
        matching_positions(tasks.drop_last(), key) + (if tasks.last().order() == key {
            seq![(tasks.len() - 1) as usize]
        } else {
            Seq::empty()
        })
    }
}

/// Partitions the tasks into barrier groups: one group per order key that
/// occurs, the groups in strictly ascending key order, each group holding
/// exactly the positions of the tasks that carry its key. Tasks sharing a
/// key land in one group; every task lands in some group.
pub fn group_tasks(tasks: &Vec<MonitorTask>) -> (groups: Vec<TaskGroup>)
    ensures
        forall|g1: int, g2: int|
            0 <= g1 < g2 < groups@.len() ==> (#[trigger] groups@[g1]).order < (
            #[trigger] groups@[g2]).order,
        forall|g: int|
            0 <= g < groups@.len() ==> (#[trigger] groups@[g]).members@ == matching_positions(
                tasks@.map_values(|t: MonitorTask| t@),
                groups@[g].order,
            ),
        forall|g: int| 0 <= g < groups@.len() ==> (#[trigger] groups@[g]).members@.len() > 0,
        forall|i: int|
            0 <= i < tasks@.len() ==> has_group_for(groups@, (#[trigger] tasks@[i])@.order()),
{
    let ghost tv = tasks@.map_values(|t: MonitorTask| t@);
    let n = tasks.len();
    let mut groups: Vec<TaskGroup> = Vec::new();
    let mut current: Option<usize> = None;
    loop
        invariant
            n == tasks.len(),
            tv == tasks@.map_values(|t: MonitorTask| t@),
            forall|g1: int, g2: int|
                0 <= g1 < g2 < groups@.len() ==> (#[trigger] groups@[g1]).order < (
                #[trigger] groups@[g2]).order,
            forall|g: int|
                0 <= g < groups@.len() ==> (#[trigger] groups@[g]).members@ == matching_positions(
                    tv,
                    groups@[g].order,
                ),
            forall|g: int| 0 <= g < groups@.len() ==> (#[trigger] groups@[g]).members@.len() > 0,
            current matches Some(c) ==> forall|g: int|
                0 <= g < groups@.len() ==> (#[trigger] groups@[g]).order <= c,
            current matches Some(c) ==> forall|i: int|
                0 <= i < n && (#[trigger] tv[i].order()) <= c ==> has_group_for(
                    groups@,
                    tv[i].order(),
                ),
            current is None ==> groups@.len() == 0,
        ensures
            forall|i: int| 0 <= i < n ==> has_group_for(groups@, (#[trigger] tv[i]).order()),
        decreases (match current {
            Option::None => usize::MAX as int + 1,
            Option::Some(c) => usize::MAX as int - c,
        }),
    {
        // find the least order key above the keys already handled
        let mut best: Option<usize> = None;
        let mut i: usize = 0;
        while i < n
            invariant
                n == tasks.len(),
                tv == tasks@.map_values(|t: MonitorTask| t@),
                i <= n,
                best matches Some(b) ==> exists|j: int|
                    0 <= j < n && (#[trigger] tv[j].order()) == b,
                best matches Some(b) ==> (match current {
                    Option::Some(c) => b > c,
                    Option::None => true,
                }),
                forall|j: int|
                    0 <= j < i && (match current {
                        Option::Some(c) => (#[trigger] tv[j].order()) > c,
                        Option::None => tv[j].order() >= 0,
                    }) ==> (best matches Some(b) && b <= tv[j].order()),
            decreases n - i,
        {
            let o = tasks[i].get_task_order();
            proof {
                assert(tv[i as int] == tasks@[i as int]@);
            }
            let above = match current {
                Some(c) => o > c,
                None => true,
            };
            if above {
                let better = match best {
                    Some(b) => o < b,
                    None => true,
                };
                if better {
                    best = Some(o);
                }
            }
            i += 1;
        }
        match best {
            None => {
                proof {
                    assert forall|i2: int| 0 <= i2 < n implies has_group_for(
                        groups@,
                        (#[trigger] tv[i2]).order(),
                    ) by {
                        match current {
                            Option::Some(c) => {
                                assert(!(tv[i2].order() > c));
                            },
                            Option::None => {
                                assert(tv[i2].order() >= 0);
                                assert(false);
                            },
                        }
                    }
                }
                break ;
            },
            Some(key) => {
                // collect the members of this group
                let mut members: Vec<usize> = Vec::new();
                let mut j: usize = 0;
                while j < n
                    invariant
                        n == tasks.len(),
                        tv == tasks@.map_values(|t: MonitorTask| t@),
                        j <= n,
                        members@ == matching_positions(tv.subrange(0, j as int), key),
                    decreases n - j,
                {
                    let ghost pfx = tv.subrange(0, j as int);
                    let ghost pfx1 = tv.subrange(0, j as int + 1);
                    proof {
                        assert(pfx1.drop_last() =~= pfx);
                        assert(pfx1.last() == tv[j as int]);
                        assert(tv[j as int] == tasks@[j as int]@);
                    }
                    let o = tasks[j].get_task_order();
                    if o == key {
                        members.push(j);
                        proof {
                            assert(members@ =~= matching_positions(pfx1, key));
                        }
                    } else {
                        proof {
                            assert(members@ =~= matching_positions(pfx1, key));
                        }
                    }
                    j += 1;
                }
                proof {
                    assert(tv.subrange(0, n as int) =~= tv);
                    let w = choose|w: int| 0 <= w < n && tv[w].order() == key;
                    lemma_matching_positions_occurs(tv, key, w);
                }
                let ghost pre_groups = groups@;
                groups.push(TaskGroup { order: key, members });
                proof {
                    assert(groups@.drop_last() =~= pre_groups);
                    assert forall|i2: int|
                        0 <= i2 < n && (#[trigger] tv[i2].order()) <= key implies has_group_for(
                        groups@,
                        tv[i2].order(),
                    ) by {
                        if tv[i2].order() == key {
                            assert(groups@[groups@.len() - 1].order == tv[i2].order());
                        } else {
                            match current {
                                Option::Some(c) => {
                                    if tv[i2].order() > c {
                                        assert(false);
                                    } else {
                                        assert(has_group_for(pre_groups, tv[i2].order()));
                                        let g = choose|g: int|
                                            0 <= g < pre_groups.len() && (
                                            #[trigger] pre_groups[g]).order == tv[i2].order();
                                        assert(groups@[g].order == tv[i2].order());
                                    }
                                },
                                Option::None => {
                                    assert(false);
                                },
                            }
                        }
                    }
                }
                current = Some(key);
            },
        }
    }
    proof {
        assert forall|i: int| 0 <= i < tasks@.len() implies has_group_for(
            groups@,
            (#[trigger] tasks@[i])@.order(),
        ) by {
            assert(tv[i] == tasks@[i]@);
            assert(has_group_for(groups@, tv[i].order()));
        }
    }
    groups
}

/// A key that some task carries names a non-empty member list.
proof fn lemma_matching_positions_occurs(tasks: Seq<MonitorTaskView>, key: usize, w: int)
    requires
        0 <= w < tasks.len(),
        tasks[w].order() == key,
    ensures
        matching_positions(tasks, key).len() > 0,
    decreases tasks.len(),
{
    if w == tasks.len() - 1 {
    } else {
        lemma_matching_positions_occurs(tasks.drop_last(), key, w);
    }
}

/// What one task's execution yielded: a health check's transport outcome,
/// or a load test's finished aggregate.
#[derive(Clone, Copy, Debug)]
pub enum TaskOutcome {
    Check(CheckOutcome),
    Load(LoadTestMonitoringData),
}

/// The store after a workflow's tasks have settled, in task order: each
/// health check files its classified record in the health table, each load
/// test files its aggregate in the load table, always under the workflow's
/// name and the task's URL.
pub open spec fn apply_results(
    task_m: Map<Seq<char>, Map<Seq<char>, MonitoringDataView>>,
    load_m: Map<Seq<char>, Map<Seq<char>, LoadTestMonitoringData>>,
    wf_name: Seq<char>,
    tasks: Seq<MonitorTaskView>,
    outcomes: Seq<TaskOutcome>,
) -> (Map<Seq<char>, Map<Seq<char>, MonitoringDataView>>, Map<
    Seq<char>,
    Map<Seq<char>, LoadTestMonitoringData>,
>)
    decreases tasks.len(),
{
    if tasks.len() == 0 || outcomes.len() != tasks.len() {
        (task_m, load_m)
    } else {
        let prev = apply_results(task_m, load_m, wf_name, tasks.drop_last(), outcomes.drop_last());
        let t = tasks.last();
        match outcomes.last() {
            TaskOutcome::Check(o) => (
                nested_insert(prev.0, wf_name, t.api.url, spec_classify(t.api.method, o)),
                prev.1,
            ),
            TaskOutcome::Load(d) => (prev.0, nested_insert(prev.1, wf_name, t.api.url, d)),
        }
    }
}

/// Settles a whole workflow run: files every task's outcome into the store,
/// in task order, under the workflow's name. A failed health check is
/// recorded like any other; nothing halts the walk.
pub fn run_workflow(
    app_state: &mut AppState,
    workflow: &String,
    tasks: &Vec<MonitorTask>,
    outcomes: &Vec<TaskOutcome>,
)
    requires
        old(app_state).wf(),
        outcomes@.len() == tasks@.len(),
        forall|i: int|
            0 <= i < tasks@.len() ==> ((#[trigger] tasks@[i])@.is_load <==> outcomes@[i] is Load),
    ensures
        final(app_state).wf(),
        final(app_state).task_monitoring_data@ == apply_results(
            (*old(app_state)).task_monitoring_data@,
            (*old(app_state)).load_test_monitoring_data@,
            workflow@,
            tasks@.map_values(|t: MonitorTask| t@),
            outcomes@,
        ).0,
        final(app_state).load_test_monitoring_data@ == apply_results(
            (*old(app_state)).task_monitoring_data@,
            (*old(app_state)).load_test_monitoring_data@,
            workflow@,
            tasks@.map_values(|t: MonitorTask| t@),
            outcomes@,
        ).1,
{
    let ghost tv = tasks@.map_values(|t: MonitorTask| t@);
    let ghost t0 = (*old(app_state)).task_monitoring_data@;
    let ghost l0 = (*old(app_state)).load_test_monitoring_data@;
    let n = tasks.len();
    let mut i: usize = 0;
    while i < n
        invariant
            n == tasks.len(),
            i <= n,
            outcomes@.len() == n,
            tv == tasks@.map_values(|t: MonitorTask| t@),
            t0 == (*old(app_state)).task_monitoring_data@,
            l0 == (*old(app_state)).load_test_monitoring_data@,
            forall|j: int| 0 <= j < n ==> ((#[trigger] tv[j]).is_load <==> outcomes@[j] is Load),
            app_state.wf(),
            app_state.task_monitoring_data@ == apply_results(
                t0,
                l0,
                workflow@,
                tv.subrange(0, i as int),
                outcomes@.subrange(0, i as int),
            ).0,
            app_state.load_test_monitoring_data@ == apply_results(
                t0,
                l0,
                workflow@,
                tv.subrange(0, i as int),
                outcomes@.subrange(0, i as int),
            ).1,
        decreases n - i,
    {
        let ghost tp = tv.subrange(0, i as int);
        let ghost op = outcomes@.subrange(0, i as int);
        let ghost tp1 = tv.subrange(0, i as int + 1);
        let ghost op1 = outcomes@.subrange(0, i as int + 1);
        proof {
            assert(tp1.drop_last() =~= tp);
            assert(op1.drop_last() =~= op);
            assert(tp1.last() == tv[i as int]);
            assert(op1.last() == outcomes@[i as int]);
            assert(tv[i as int] == tasks@[i as int]@);
        }
        let outcome = outcomes[i];
        match &tasks[i] {
            MonitorTask::Check(t) => {
                match outcome {
                    TaskOutcome::Check(o) => {
                        let _ = t.execute(app_state, workflow, o);
                    },
                    TaskOutcome::Load(_) => {
                        proof {
                            assert(false);
                        }
                    },
                }
            },
            MonitorTask::Load(l) => {
                match outcome {
                    TaskOutcome::Load(d) => {
                        l.record_result(app_state, workflow, d);
                    },
                    TaskOutcome::Check(_) => {
                        proof {
                            assert(false);
                        }
                    },
                }
            },
        }
        i += 1;
    }
    proof {
        assert(tv.subrange(0, n as int) =~= tv);
        assert(outcomes@.subrange(0, n as int) =~= outcomes@);
    }
}

/// The position of the last health-check outcome that writes to URL `u`
/// during a run, or -1 when none does.
pub open spec fn last_check_at(
    tasks: Seq<MonitorTaskView>,
    outcomes: Seq<TaskOutcome>,
    u: Seq<char>,
) -> int
    decreases tasks.len(),
{
    if tasks.len() == 0 || outcomes.len() != tasks.len() {
        -1
    } else if outcomes.last() is Check && tasks.last().api.url == u {
        tasks.len() - 1
    } else {
        last_check_at(tasks.drop_last(), outcomes.drop_last(), u)
    }
}

/// The position of the last load-test outcome that writes to URL `u` during
/// a run, or -1 when none does.
pub open spec fn last_load_at(
    tasks: Seq<MonitorTaskView>,
    outcomes: Seq<TaskOutcome>,
    u: Seq<char>,
) -> int
    decreases tasks.len(),
{
    if tasks.len() == 0 || outcomes.len() != tasks.len() {
        -1
    } else if outcomes.last() is Load && tasks.last().api.url == u {
        tasks.len() - 1
    } else {
        last_load_at(tasks.drop_last(), outcomes.drop_last(), u)
    }
}

/// A write position is always a position of the run.
proof fn lemma_last_at_bounds(tasks: Seq<MonitorTaskView>, outcomes: Seq<TaskOutcome>, u: Seq<char>)
    ensures
        -1 <= last_check_at(tasks, outcomes, u) < tasks.len(),
        -1 <= last_load_at(tasks, outcomes, u) < tasks.len(),
    decreases tasks.len(),
{
    if tasks.len() > 0 && outcomes.len() == tasks.len() {
        lemma_last_at_bounds(tasks.drop_last(), outcomes.drop_last(), u);
    }
}

/// Law: what a run leaves in the store, slot by slot. Other workflows'
/// entries are untouched. Under the run's workflow, each URL holds the
/// classified record of the last health check that wrote it — present iff
/// some health check wrote it or it was there before — and a URL nothing
/// wrote keeps its old record; likewise, separately, for the load table.
pub proof fn lemma_run_results(
    task_m: Map<Seq<char>, Map<Seq<char>, MonitoringDataView>>,
    load_m: Map<Seq<char>, Map<Seq<char>, LoadTestMonitoringData>>,
    wf_name: Seq<char>,
    tasks: Seq<MonitorTaskView>,
    outcomes: Seq<TaskOutcome>,
)
    requires
        outcomes.len() == tasks.len(),
    ensures
        ({
            let r = apply_results(task_m, load_m, wf_name, tasks, outcomes);
            &&& forall|o: Seq<char>|
                o != wf_name ==> (#[trigger] r.0.contains_key(o)) == task_m.contains_key(o)
            &&& forall|o: Seq<char>|
                o != wf_name && task_m.contains_key(o) ==> (#[trigger] r.0[o]) == task_m[o]
            &&& (r.0.contains_key(wf_name) <==> (task_m.contains_key(wf_name) || exists|i: int|
                0 <= i < outcomes.len() && (#[trigger] outcomes[i]) is Check))
            &&& forall|u: Seq<char>|
                (#[trigger] last_check_at(tasks, outcomes, u)) >= 0 ==> r.0.contains_key(wf_name)
                    && r.0[wf_name].contains_key(u) && r.0[wf_name][u] == spec_classify(
                    tasks[last_check_at(tasks, outcomes, u)].api.method,
                    outcomes[last_check_at(tasks, outcomes, u)]->Check_0,
                )
            &&& forall|u: Seq<char>|
                r.0.contains_key(wf_name) ==> ((#[trigger] r.0[wf_name].contains_key(u)) <==> (
                last_check_at(tasks, outcomes, u) >= 0 || (task_m.contains_key(wf_name)
                    && task_m[wf_name].contains_key(u))))
            &&& forall|u: Seq<char>|
                r.0.contains_key(wf_name) && (#[trigger] r.0[wf_name].contains_key(u))
                    && last_check_at(tasks, outcomes, u) == -1 ==> task_m.contains_key(wf_name)
                    && r.0[wf_name][u] == task_m[wf_name][u]
            &&& forall|o: Seq<char>|
                o != wf_name ==> (#[trigger] r.1.contains_key(o)) == load_m.contains_key(o)
            &&& forall|o: Seq<char>|
                o != wf_name && load_m.contains_key(o) ==> (#[trigger] r.1[o]) == load_m[o]
            &&& (r.1.contains_key(wf_name) <==> (load_m.contains_key(wf_name) || exists|i: int|
                0 <= i < outcomes.len() && (#[trigger] outcomes[i]) is Load))
            &&& forall|u: Seq<char>|
                (#[trigger] last_load_at(tasks, outcomes, u)) >= 0 ==> r.1.contains_key(wf_name)
                    && r.1[wf_name].contains_key(u) && r.1[wf_name][u]
                    == outcomes[last_load_at(tasks, outcomes, u)]->Load_0
            &&& forall|u: Seq<char>|
                r.1.contains_key(wf_name) ==> ((#[trigger] r.1[wf_name].contains_key(u)) <==> (
                last_load_at(tasks, outcomes, u) >= 0 || (load_m.contains_key(wf_name)
                    && load_m[wf_name].contains_key(u))))
            &&& forall|u: Seq<char>|
                r.1.contains_key(wf_name) && (#[trigger] r.1[wf_name].contains_key(u))
                    && last_load_at(tasks, outcomes, u) == -1 ==> load_m.contains_key(wf_name)
                    && r.1[wf_name][u] == load_m[wf_name][u]
        }),
    decreases tasks.len(),
{
    let r = apply_results(task_m, load_m, wf_name, tasks, outcomes);
    if tasks.len() == 0 {
        assert(forall|u: Seq<char>| last_check_at(tasks, outcomes, u) == -1);
        assert(forall|u: Seq<char>| last_load_at(tasks, outcomes, u) == -1);
    } else {
        let tp = tasks.drop_last();
        let op = outcomes.drop_last();
        lemma_run_results(task_m, load_m, wf_name, tp, op);
        let prev = apply_results(task_m, load_m, wf_name, tp, op);
        let t = tasks.last();
        assert(forall|i: int| 0 <= i < tp.len() ==> #[trigger] tp[i] == tasks[i]);
        assert(forall|i: int| 0 <= i < op.len() ==> #[trigger] op[i] == outcomes[i]);
        assert(t == tasks[tasks.len() - 1]);
        assert(outcomes.last() == outcomes[tasks.len() - 1]);
        match outcomes.last() {
            TaskOutcome::Check(o) => {
                let v = spec_classify(t.api.method, o);
                assert(r.0 == nested_insert(prev.0, wf_name, t.api.url, v));
                assert(r.1 == prev.1);
                // the run touches only the workflow's own outer key
                assert(forall|o2: Seq<char>|
                    o2 != wf_name ==> (#[trigger] r.0.contains_key(o2)) == prev.0.contains_key(
                        o2,
                    ));
                assert(forall|o2: Seq<char>|
                    o2 != wf_name && prev.0.contains_key(o2) ==> (#[trigger] r.0[o2])
                        == prev.0[o2]);
                assert(r.0.contains_key(wf_name));
                assert(outcomes[tasks.len() - 1] is Check);
                // the exists witness for the health table's outer key
                assert(exists|i: int|
                    0 <= i < outcomes.len() && (#[trigger] outcomes[i]) is Check);
                assert forall|i: int|
                    0 <= i < op.len() && (#[trigger] op[i]) is Load implies outcomes[i]
                    is Load by {}
                assert forall|i: int|
                    0 <= i < outcomes.len() && (#[trigger] outcomes[i]) is Load implies exists|
                    j: int,
                |
                    0 <= j < op.len() && (#[trigger] op[j]) is Load by {
                    assert(i < op.len() && op[i] is Load);
                }
                // the per-URL clauses of the health table
                assert forall|u: Seq<char>|
                    (#[trigger] last_check_at(tasks, outcomes, u)) >= 0 implies r.0.contains_key(
                    wf_name,
                ) && r.0[wf_name].contains_key(u) && r.0[wf_name][u] == spec_classify(
                    tasks[last_check_at(tasks, outcomes, u)].api.method,
                    outcomes[last_check_at(tasks, outcomes, u)]->Check_0,
                ) by {
                    if u == t.api.url {
                        assert(last_check_at(tasks, outcomes, u) == tasks.len() - 1);
                        assert(r.0[wf_name].contains_key(u) && r.0[wf_name][u] == v);
                        assert(outcomes[tasks.len() - 1]->Check_0 == o);
                    } else {
                        assert(last_check_at(tasks, outcomes, u) == last_check_at(tp, op, u));
                        let idx = last_check_at(tp, op, u);
                        lemma_last_at_bounds(tp, op, u);
                        assert(prev.0.contains_key(wf_name) && prev.0[wf_name].contains_key(u)
                            && prev.0[wf_name][u] == spec_classify(
                            tp[idx].api.method,
                            op[idx]->Check_0,
                        ));
                        assert(tp[idx] == tasks[idx]);
                        assert(op[idx] == outcomes[idx]);
                        assert(r.0[wf_name].contains_key(u));
                        assert(r.0[wf_name][u] == prev.0[wf_name][u]);
                    }
                }
                assert forall|u: Seq<char>|
                    r.0.contains_key(wf_name) implies ((#[trigger] r.0[wf_name].contains_key(u))
                    <==> (last_check_at(tasks, outcomes, u) >= 0 || (task_m.contains_key(wf_name)
                        && task_m[wf_name].contains_key(u)))) by {
                    if u == t.api.url {
                        assert(last_check_at(tasks, outcomes, u) == tasks.len() - 1);
                    } else {
                        assert(last_check_at(tasks, outcomes, u) == last_check_at(tp, op, u));
                        if prev.0.contains_key(wf_name) {
                            assert(r.0[wf_name].contains_key(u) == prev.0[wf_name].contains_key(
                                u,
                            ));
                        } else {
                            assert(r.0[wf_name] == Map::<
                                Seq<char>,
                                MonitoringDataView,
                            >::empty().insert(t.api.url, v));
                            assert(!r.0[wf_name].contains_key(u));
                            if last_check_at(tp, op, u) >= 0 {
                                assert(prev.0.contains_key(wf_name));
                                assert(false);
                            }
                        }
                    }
                }
                assert forall|u: Seq<char>|
                    r.0.contains_key(wf_name) && (#[trigger] r.0[wf_name].contains_key(u))
                        && last_check_at(tasks, outcomes, u) == -1 implies task_m.contains_key(
                    wf_name,
                ) && r.0[wf_name][u] == task_m[wf_name][u] by {
                    assert(u != t.api.url);
                    assert(last_check_at(tasks, outcomes, u) == last_check_at(tp, op, u));
                    assert(prev.0.contains_key(wf_name) && prev.0[wf_name].contains_key(u));
                    assert(r.0[wf_name][u] == prev.0[wf_name][u]);
                }
                // the load table is untouched by a health check
                assert forall|u: Seq<char>| #[trigger]
                    last_load_at(tasks, outcomes, u) == last_load_at(tp, op, u) by {}
                assert forall|u: Seq<char>|
                    (#[trigger] last_load_at(tasks, outcomes, u)) >= 0 implies r.1.contains_key(
                    wf_name,
                ) && r.1[wf_name].contains_key(u) && r.1[wf_name][u] == outcomes[last_load_at(
                    tasks,
                    outcomes,
                    u,
                )]->Load_0 by {
                    let idx = last_load_at(tp, op, u);
                    lemma_last_at_bounds(tp, op, u);
                    assert(op[idx] == outcomes[idx]);
                }
            },
            TaskOutcome::Load(d) => {
                assert(r.1 == nested_insert(prev.1, wf_name, t.api.url, d));
                assert(r.0 == prev.0);
                assert(forall|o2: Seq<char>|
                    o2 != wf_name ==> (#[trigger] r.1.contains_key(o2)) == prev.1.contains_key(
                        o2,
                    ));
                assert(forall|o2: Seq<char>|
                    o2 != wf_name && prev.1.contains_key(o2) ==> (#[trigger] r.1[o2])
                        == prev.1[o2]);
                assert(r.1.contains_key(wf_name));
                assert(outcomes[tasks.len() - 1] is Load);
                assert(exists|i: int| 0 <= i < outcomes.len() && (#[trigger] outcomes[i]) is Load);
                assert forall|i: int|
                    0 <= i < outcomes.len() && (#[trigger] outcomes[i]) is Check implies exists|
                    j: int,
                |
                    0 <= j < op.len() && (#[trigger] op[j]) is Check by {
                    assert(i < op.len() && op[i] is Check);
                }
                assert forall|u: Seq<char>|
                    (#[trigger] last_load_at(tasks, outcomes, u)) >= 0 implies r.1.contains_key(
                    wf_name,
                ) && r.1[wf_name].contains_key(u) && r.1[wf_name][u] == outcomes[last_load_at(
                    tasks,
                    outcomes,
                    u,
                )]->Load_0 by {
                    if u == t.api.url {
                        assert(last_load_at(tasks, outcomes, u) == tasks.len() - 1);
                        assert(r.1[wf_name].contains_key(u) && r.1[wf_name][u] == d);
                        assert(outcomes[tasks.len() - 1]->Load_0 == d);
                    } else {
                        assert(last_load_at(tasks, outcomes, u) == last_load_at(tp, op, u));
                        let idx = last_load_at(tp, op, u);
                        lemma_last_at_bounds(tp, op, u);
                        assert(prev.1.contains_key(wf_name) && prev.1[wf_name].contains_key(u)
                            && prev.1[wf_name][u] == op[idx]->Load_0);
                        assert(op[idx] == outcomes[idx]);
                        assert(r.1[wf_name].contains_key(u));
                        assert(r.1[wf_name][u] == prev.1[wf_name][u]);
                    }
                }
                assert forall|u: Seq<char>|
                    r.1.contains_key(wf_name) implies ((#[trigger] r.1[wf_name].contains_key(u))
                    <==> (last_load_at(tasks, outcomes, u) >= 0 || (load_m.contains_key(wf_name)
                        && load_m[wf_name].contains_key(u)))) by {
                    if u == t.api.url {
                        assert(last_load_at(tasks, outcomes, u) == tasks.len() - 1);
                    } else {
                        assert(last_load_at(tasks, outcomes, u) == last_load_at(tp, op, u));
                        if prev.1.contains_key(wf_name) {
                            assert(r.1[wf_name].contains_key(u) == prev.1[wf_name].contains_key(
                                u,
                            ));
                        } else {
                            assert(r.1[wf_name] == Map::<
                                Seq<char>,
                                LoadTestMonitoringData,
                            >::empty().insert(t.api.url, d));
                            assert(!r.1[wf_name].contains_key(u));
                            if last_load_at(tp, op, u) >= 0 {
                                assert(prev.1.contains_key(wf_name));
                                assert(false);
                            }
                        }
                    }
                }
                assert forall|u: Seq<char>|
                    r.1.contains_key(wf_name) && (#[trigger] r.1[wf_name].contains_key(u))
                        && last_load_at(tasks, outcomes, u) == -1 implies load_m.contains_key(
                    wf_name,
                ) && r.1[wf_name][u] == load_m[wf_name][u] by {
                    assert(u != t.api.url);
                    assert(last_load_at(tasks, outcomes, u) == last_load_at(tp, op, u));
                    assert(prev.1.contains_key(wf_name) && prev.1[wf_name].contains_key(u));
                    assert(r.1[wf_name][u] == prev.1[wf_name][u]);
                }
                assert forall|u: Seq<char>| #[trigger]
                    last_check_at(tasks, outcomes, u) == last_check_at(tp, op, u) by {}
                assert forall|u: Seq<char>|
                    (#[trigger] last_check_at(tasks, outcomes, u)) >= 0 implies r.0.contains_key(
                    wf_name,
                ) && r.0[wf_name].contains_key(u) && r.0[wf_name][u] == spec_classify(
                    tasks[last_check_at(tasks, outcomes, u)].api.method,
                    outcomes[last_check_at(tasks, outcomes, u)]->Check_0,
                ) by {
                    let idx = last_check_at(tp, op, u);
                    lemma_last_at_bounds(tp, op, u);
                    assert(tp[idx] == tasks[idx]);
                    assert(op[idx] == outcomes[idx]);
                }
            },
        }
    }
}

/// Law: re-running the same workflow with the same tasks and outcomes
/// leaves the store exactly as the first run left it — every slot is
/// overwritten in place and no stale key appears or survives.
pub proof fn lemma_rerun_overwrites(
    task_m: Map<Seq<char>, Map<Seq<char>, MonitoringDataView>>,
    load_m: Map<Seq<char>, Map<Seq<char>, LoadTestMonitoringData>>,
    wf_name: Seq<char>,
    tasks: Seq<MonitorTaskView>,
    outcomes: Seq<TaskOutcome>,
)
    requires
        outcomes.len() == tasks.len(),
    ensures
        ({
            let once = apply_results(task_m, load_m, wf_name, tasks, outcomes);
            let twice = apply_results(once.0, once.1, wf_name, tasks, outcomes);
            &&& twice.0 == once.0
            &&& twice.1 == once.1
        }),
{
    let once = apply_results(task_m, load_m, wf_name, tasks, outcomes);
    let twice = apply_results(once.0, once.1, wf_name, tasks, outcomes);
    lemma_run_results(task_m, load_m, wf_name, tasks, outcomes);
    lemma_run_results(once.0, once.1, wf_name, tasks, outcomes);
    assert forall|o: Seq<char>| #[trigger]
        twice.0.contains_key(o) == once.0.contains_key(o) by {
        if o != wf_name {
        } else {
            if exists|i: int| 0 <= i < outcomes.len() && (#[trigger] outcomes[i]) is Check {
                assert(once.0.contains_key(wf_name));
                assert(twice.0.contains_key(wf_name));
            }
        }
    }
    if once.0.contains_key(wf_name) {
        assert forall|u: Seq<char>| #[trigger]
            twice.0[wf_name].contains_key(u) == once.0[wf_name].contains_key(u) by {
            assert(twice.0.contains_key(wf_name));
            if last_check_at(tasks, outcomes, u) >= 0 {
                assert(once.0[wf_name].contains_key(u));
                assert(twice.0[wf_name].contains_key(u));
            }
        }
        assert forall|u: Seq<char>|
            once.0[wf_name].contains_key(u) implies #[trigger] twice.0[wf_name][u]
            == once.0[wf_name][u] by {
            assert(twice.0.contains_key(wf_name));
            assert(twice.0[wf_name].contains_key(u));
            lemma_last_at_bounds(tasks, outcomes, u);
            if last_check_at(tasks, outcomes, u) >= 0 {
            } else {
                assert(last_check_at(tasks, outcomes, u) == -1);
            }
        }
        assert(twice.0[wf_name] =~= once.0[wf_name]);
    }
    assert forall|o: Seq<char>|
        once.0.contains_key(o) implies #[trigger] twice.0[o] == once.0[o] by {
        if o != wf_name {
        }
    }
    assert(twice.0 =~= once.0);
    assert forall|o: Seq<char>| #[trigger]
        twice.1.contains_key(o) == once.1.contains_key(o) by {
        if o != wf_name {
        } else {
            if exists|i: int| 0 <= i < outcomes.len() && (#[trigger] outcomes[i]) is Load {
                assert(once.1.contains_key(wf_name));
                assert(twice.1.contains_key(wf_name));
            }
        }
    }
    if once.1.contains_key(wf_name) {
        assert forall|u: Seq<char>| #[trigger]
            twice.1[wf_name].contains_key(u) == once.1[wf_name].contains_key(u) by {
            assert(twice.1.contains_key(wf_name));
            if last_load_at(tasks, outcomes, u) >= 0 {
                assert(once.1[wf_name].contains_key(u));
                assert(twice.1[wf_name].contains_key(u));
            }
        }
        assert forall|u: Seq<char>|
            once.1[wf_name].contains_key(u) implies #[trigger] twice.1[wf_name][u]
            == once.1[wf_name][u] by {
            assert(twice.1.contains_key(wf_name));
            assert(twice.1[wf_name].contains_key(u));
            lemma_last_at_bounds(tasks, outcomes, u);
            if last_load_at(tasks, outcomes, u) >= 0 {
            } else {
                assert(last_load_at(tasks, outcomes, u) == -1);
            }
        }
        assert(twice.1[wf_name] =~= once.1[wf_name]);
    }
    assert forall|o: Seq<char>|
        once.1.contains_key(o) implies #[trigger] twice.1[o] == once.1[o] by {
        if o != wf_name {
        }
    }
    assert(twice.1 =~= once.1);
}

/// The position of a health check whose URL no later health check shares is
/// the run's last write to that URL.
proof fn lemma_last_check_is(tasks: Seq<MonitorTaskView>, outcomes: Seq<TaskOutcome>, i: int)
    requires
        outcomes.len() == tasks.len(),
        0 <= i < tasks.len(),
        outcomes[i] is Check,
        forall|j: int|
            i < j < tasks.len() && (#[trigger] outcomes[j]) is Check ==> tasks[j].api.url
                != tasks[i].api.url,
    ensures
        last_check_at(tasks, outcomes, tasks[i].api.url) == i,
    decreases tasks.len(),
{
    if i == tasks.len() - 1 {
    } else {
        let tp = tasks.drop_last();
        let op = outcomes.drop_last();
        assert(forall|j: int| 0 <= j < tp.len() ==> #[trigger] tp[j] == tasks[j]);
        assert(forall|j: int| 0 <= j < op.len() ==> #[trigger] op[j] == outcomes[j]);
        lemma_last_check_is(tp, op, i);
        assert(outcomes.last() == outcomes[tasks.len() - 1]);
        assert(tasks.last() == tasks[tasks.len() - 1]);
    }
}

/// Law: after a run, every health-check task whose URL no other health
/// check of the run shares has exactly one record in the health table,
/// keyed by the workflow's name and its URL, holding the classification of
/// its own outcome — with the status code present exactly when the
/// transport succeeded.
pub proof fn lemma_one_result_per_check(
    task_m: Map<Seq<char>, Map<Seq<char>, MonitoringDataView>>,
    load_m: Map<Seq<char>, Map<Seq<char>, LoadTestMonitoringData>>,
    wf_name: Seq<char>,
    tasks: Seq<MonitorTaskView>,
    outcomes: Seq<TaskOutcome>,
    i: int,
)
    requires
        outcomes.len() == tasks.len(),
        0 <= i < tasks.len(),
        outcomes[i] is Check,
        forall|j: int|
            j != i && 0 <= j < tasks.len() && (#[trigger] outcomes[j]) is Check ==> tasks[j].api.url
                != tasks[i].api.url,
    ensures
        ({
            let r = apply_results(task_m, load_m, wf_name, tasks, outcomes);
            &&& r.0.contains_key(wf_name)
            &&& r.0[wf_name].contains_key(tasks[i].api.url)
            &&& r.0[wf_name][tasks[i].api.url] == spec_classify(
                tasks[i].api.method,
                outcomes[i]->Check_0,
            )
            &&& (r.0[wf_name][tasks[i].api.url].status_code is Some <==> outcomes[i]->Check_0
                matches CheckOutcome::Response { .. })
        }),
{
    lemma_last_check_is(tasks, outcomes, i);
    lemma_run_results(task_m, load_m, wf_name, tasks, outcomes);
    assert(last_check_at(tasks, outcomes, tasks[i].api.url) == i);
}

/// A URL that some health check writes has a write position.
proof fn lemma_check_write_found(tasks: Seq<MonitorTaskView>, outcomes: Seq<TaskOutcome>, i: int)
    requires
        outcomes.len() == tasks.len(),
        0 <= i < tasks.len(),
        outcomes[i] is Check,
    ensures
        last_check_at(tasks, outcomes, tasks[i].api.url) >= 0,
    decreases tasks.len(),
{
    if i == tasks.len() - 1 {
    } else if outcomes.last() is Check && tasks.last().api.url == tasks[i].api.url {
    } else {
        let tp = tasks.drop_last();
        let op = outcomes.drop_last();
        assert(tp[i] == tasks[i]);
        assert(op[i] == outcomes[i]);
        lemma_check_write_found(tp, op, i);
    }
}

/// A URL that some load test writes has a write position.
proof fn lemma_load_write_found(tasks: Seq<MonitorTaskView>, outcomes: Seq<TaskOutcome>, i: int)
    requires
        outcomes.len() == tasks.len(),
        0 <= i < tasks.len(),
        outcomes[i] is Load,
    ensures
        last_load_at(tasks, outcomes, tasks[i].api.url) >= 0,
    decreases tasks.len(),
{
    if i == tasks.len() - 1 {
    } else if outcomes.last() is Load && tasks.last().api.url == tasks[i].api.url {
    } else {
        let tp = tasks.drop_last();
        let op = outcomes.drop_last();
        assert(tp[i] == tasks[i]);
        assert(op[i] == outcomes[i]);
        lemma_load_write_found(tp, op, i);
    }
}

/// A URL that no load test writes has no load write position.
proof fn lemma_no_load_write(tasks: Seq<MonitorTaskView>, outcomes: Seq<TaskOutcome>, u: Seq<char>)
    requires
        outcomes.len() == tasks.len(),
        forall|j: int|
            0 <= j < tasks.len() && (#[trigger] outcomes[j]) is Load ==> tasks[j].api.url != u,
    ensures
        last_load_at(tasks, outcomes, u) == -1,
    decreases tasks.len(),
{
    if tasks.len() > 0 {
        let tp = tasks.drop_last();
        let op = outcomes.drop_last();
        assert(forall|j: int| 0 <= j < tp.len() ==> #[trigger] tp[j] == tasks[j]);
        assert(forall|j: int| 0 <= j < op.len() ==> #[trigger] op[j] == outcomes[j]);
        assert(outcomes.last() == outcomes[tasks.len() - 1]);
        assert(tasks.last() == tasks[tasks.len() - 1]);
        lemma_no_load_write(tp, op, u);
    }
}

/// A URL that no health check writes has no health write position.
proof fn lemma_no_check_write(tasks: Seq<MonitorTaskView>, outcomes: Seq<TaskOutcome>, u: Seq<char>)
    requires
        outcomes.len() == tasks.len(),
        forall|j: int|
            0 <= j < tasks.len() && (#[trigger] outcomes[j]) is Check ==> tasks[j].api.url != u,
    ensures
        last_check_at(tasks, outcomes, u) == -1,
    decreases tasks.len(),
{
    if tasks.len() > 0 {
        let tp = tasks.drop_last();
        let op = outcomes.drop_last();
        assert(forall|j: int| 0 <= j < tp.len() ==> #[trigger] tp[j] == tasks[j]);
        assert(forall|j: int| 0 <= j < op.len() ==> #[trigger] op[j] == outcomes[j]);
        assert(outcomes.last() == outcomes[tasks.len() - 1]);
        assert(tasks.last() == tasks[tasks.len() - 1]);
        lemma_no_check_write(tp, op, u);
    }
}

/// Law: a run on the empty store partitions its keys by task kind. The URL
/// of a health-check task that no load test shares appears in the health
/// table and not in the load table; the URL of a load-test task that no
/// health check shares appears in the load table and not in the health
/// table.
pub proof fn lemma_key_in_one_table(
    wf_name: Seq<char>,
    tasks: Seq<MonitorTaskView>,
    outcomes: Seq<TaskOutcome>,
    i: int,
)
    requires
        outcomes.len() == tasks.len(),
        0 <= i < tasks.len(),
        forall|j: int|
            0 <= j < tasks.len() ==> ((#[trigger] outcomes[j]) is Load == (outcomes[i] is Load)
                || tasks[j].api.url != tasks[i].api.url),
    ensures
        ({
            let r = apply_results(
                Map::<Seq<char>, Map<Seq<char>, MonitoringDataView>>::empty(),
                Map::<Seq<char>, Map<Seq<char>, LoadTestMonitoringData>>::empty(),
                wf_name,
                tasks,
                outcomes,
            );
            &&& (outcomes[i] is Check ==> r.0.contains_key(wf_name)
                && r.0[wf_name].contains_key(tasks[i].api.url) && (r.1.contains_key(wf_name)
                ==> !r.1[wf_name].contains_key(tasks[i].api.url)))
            &&& (outcomes[i] is Load ==> r.1.contains_key(wf_name)
                && r.1[wf_name].contains_key(tasks[i].api.url) && (r.0.contains_key(wf_name)
                ==> !r.0[wf_name].contains_key(tasks[i].api.url)))
        }),
{
    let t0 = Map::<Seq<char>, Map<Seq<char>, MonitoringDataView>>::empty();
    let l0 = Map::<Seq<char>, Map<Seq<char>, LoadTestMonitoringData>>::empty();
    lemma_run_results(t0, l0, wf_name, tasks, outcomes);
    let u = tasks[i].api.url;
    if outcomes[i] is Check {
        lemma_check_write_found(tasks, outcomes, i);
        lemma_no_load_write(tasks, outcomes, u);
        lemma_last_at_bounds(tasks, outcomes, u);
    } else {
        lemma_load_write_found(tasks, outcomes, i);
        lemma_no_check_write(tasks, outcomes, u);
        lemma_last_at_bounds(tasks, outcomes, u);
    }
}

} // verus!
