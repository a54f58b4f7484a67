use vstd::prelude::*;

verus! {

/// The HTTP method an endpoint is exercised with.
#[derive(Clone, Copy, Debug, PartialEq, Eq, Structural)]
pub enum HttpMethod {
    GET,
    POST,
    PUT,
    DELETE,
}

impl HttpMethod {
    /// Whether a request built with this method carries a body.
    pub fn carries_body(&self) -> (r: bool)
        ensures
            r == (*self == HttpMethod::POST || *self == HttpMethod::PUT),
    {
        match self {
            HttpMethod::POST => true,
            HttpMethod::PUT => true,
            HttpMethod::GET => false,
            HttpMethod::DELETE => false,
        }
    }
}

/// Raw load-test settings for one endpoint, exactly as configuration supplies
/// them; an absent field falls back to a default when the profile is resolved.
#[derive(Clone, Copy, Debug)]
pub struct LoadTestConfig {
    pub initial_load: Option<usize>,
    pub max_load: Option<usize>,
    pub spawn_rate: Option<usize>,
    pub retry_count: Option<usize>,
    pub max_duration_secs: Option<usize>,
}

impl LoadTestConfig {
    /// The configuration every field of which is left to its default.
    pub open spec fn default_spec() -> LoadTestConfig {
        LoadTestConfig {
            initial_load: Some(1usize),
            max_load: Some(10usize),
            spawn_rate: Some(1usize),
            retry_count: Some(0usize),
            max_duration_secs: Some(60usize),
        }
    }

    /// The profile this raw configuration stands for, defaults substituted
    /// for absent fields.
    pub open spec fn resolved_spec(self) -> LoadProfile {
        LoadProfile {
            initial_load: match self.initial_load {
                Some(v) => v,
                None => 1usize,
            },
            max_load: match self.max_load {
                Some(v) => v,
                None => 10usize,
            },
            spawn_rate: match self.spawn_rate {
                Some(v) => v,
                None => 1usize,
            },
            retry_count: match self.retry_count {
                Some(v) => v,
                None => 0usize,
            },
            max_duration_secs: match self.max_duration_secs {
                Some(v) => v,
                None => 60usize,
            },
        }
    }

    /// Resolves the raw configuration into a concrete profile.
    pub fn resolved(&self) -> (p: LoadProfile)
        ensures
            p == self.resolved_spec(),
    {
        LoadProfile {
            initial_load: match self.initial_load {
                Some(v) => v,
                None => 1,
            },
            max_load: match self.max_load {
                Some(v) => v,
                None => 10,
            },
            spawn_rate: match self.spawn_rate {
                Some(v) => v,
                None => 1,
            },
            retry_count: match self.retry_count {
                Some(v) => v,
                None => 0,
            },
            max_duration_secs: match self.max_duration_secs {
                Some(v) => v,
                None => 60,
            },
        }
    }
}

impl Default for LoadTestConfig {
    /// The defaults: one starting worker, a ceiling of ten, one worker added
    /// per ramp interval, no retries, and a sixty second run.
    fn default() -> (d: Self)
        ensures
            d == LoadTestConfig::default_spec(),
    {
        LoadTestConfig {
            initial_load: Some(1),
            max_load: Some(10),
            spawn_rate: Some(1),
            retry_count: Some(0),
            max_duration_secs: Some(60),
        }
    }
}

/// A load profile with every field resolved to a concrete value.
#[derive(Clone, Copy, Debug, PartialEq, Eq, Structural)]
pub struct LoadProfile {
    pub initial_load: usize,
    pub max_load: usize,
    pub spawn_rate: usize,
    pub retry_count: usize,
    pub max_duration_secs: usize,
}

impl LoadProfile {
    /// A profile is well formed when it starts with at least one virtual
    /// worker and its ceiling is no lower than its start.
    pub open spec fn wf(self) -> bool {
        &&& 1 <= self.initial_load
        &&& self.initial_load <= self.max_load
    }

    /// Runtime check matching `wf`.
    pub fn check_wf(&self) -> (r: bool)
        ensures
            r == self.wf(),
    {
        1 <= self.initial_load && self.initial_load <= self.max_load
    }
}

/// Static description of one monitored HTTP endpoint.
pub struct ApiConfig {
    pub name: String,
    pub task_order: Option<usize>,
    pub url: String,
    pub headers: Vec<(String, String)>,
    pub expected_field: String,
    pub response_time_threshold: u64,
    pub method: HttpMethod,
    pub body: Option<String>,
    pub body_file: Option<String>,
    pub load_test: Option<bool>,
    pub load_test_config: Option<LoadTestConfig>,
}

/// The character-sequence view of a list of string pairs.
pub open spec fn pairs_view(ps: Seq<(String, String)>) -> Seq<(Seq<char>, Seq<char>)> {
    ps.map_values(|p: (String, String)| (p.0@, p.1@))
}

/// A copy of a pair list with the same character content.
pub fn clone_pairs(ps: &Vec<(String, String)>) -> (r: Vec<(String, String)>)
    ensures
        pairs_view(r@) == pairs_view(ps@),
{
    let mut r: Vec<(String, String)> = Vec::new();
    let n = ps.len();
    let mut i: usize = 0;
    while i < n
        invariant
            n == ps.len(),
            i <= n,
            r@.len() == i,
            forall|j: int| 0 <= j < i ==> #[trigger] pairs_view(r@)[j] == pairs_view(ps@)[j],
        decreases n - i,
    {
        let ghost pre = r@;
        r.push((ps[i].0.clone(), ps[i].1.clone()));
        proof {
            assert(pairs_view(r@)[i as int] == pairs_view(ps@)[i as int]);
            assert forall|j: int| 0 <= j < i implies #[trigger] pairs_view(r@)[j] == pairs_view(
                ps@,
            )[j] by {
                assert(r@[j] == pre[j]);
                assert(pairs_view(pre)[j] == pairs_view(ps@)[j]);
            }
        }
        i += 1;
    }
    proof {
        assert(pairs_view(r@) =~= pairs_view(ps@));
    }
    r
}

/// The mathematical value of an `ApiConfig`: every string as its character
/// sequence, everything else as it stands.
#[verifier::ext_equal]
pub ghost struct ApiConfigView {
    pub name: Seq<char>,
    pub task_order: Option<usize>,
    pub url: Seq<char>,
    pub headers: Seq<(Seq<char>, Seq<char>)>,
    pub expected_field: Seq<char>,
    pub response_time_threshold: u64,
    pub method: HttpMethod,
    pub body: Option<Seq<char>>,
    pub body_file: Option<Seq<char>>,
    pub load_test: Option<bool>,
    pub load_test_config: Option<LoadTestConfig>,
}

impl View for ApiConfig {
    type V = ApiConfigView;

    open spec fn view(&self) -> ApiConfigView {
        ApiConfigView {
            name: self.name@,
            task_order: self.task_order,
            url: self.url@,
            headers: pairs_view(self.headers@),
            expected_field: self.expected_field@,
            response_time_threshold: self.response_time_threshold,
            method: self.method,
            body: match self.body {
                Some(b) => Some(b@),
                None => None,
            },
            body_file: match self.body_file {
                Some(b) => Some(b@),
                None => None,
            },
            load_test: self.load_test,
            load_test_config: self.load_test_config,
        }
    }
}

/// A copy of an endpoint description with the same mathematical value.
pub fn clone_api_config(a: &ApiConfig) -> (r: ApiConfig)
    ensures
        r@ == a@,
{
    let r = ApiConfig {
        name: a.name.clone(),
        task_order: a.task_order,
        url: a.url.clone(),
        headers: clone_pairs(&a.headers),
        expected_field: a.expected_field.clone(),
        response_time_threshold: a.response_time_threshold,
        method: a.method,
        body: match &a.body {
            Some(b) => Some(b.clone()),
            None => None,
        },
        body_file: match &a.body_file {
            Some(b) => Some(b.clone()),
            None => None,
        },
        load_test: a.load_test,
        load_test_config: a.load_test_config,
    };
    proof {
        assert(r@ =~~= a@);
    }
    r
}

impl ApiConfigView {
    /// The load-test flag, an absent flag meaning false.
    pub open spec fn is_load_test(self) -> bool {
        self.load_test == Some(true)
    }

    /// The grouping key: endpoints without one run last.
    pub open spec fn effective_order(self) -> usize {
        match self.task_order {
            Some(o) => o,
            None => usize::MAX,
        }
    }

    /// The endpoint names a URL.
    pub open spec fn url_ok(self) -> bool {
        self.url.len() > 0
    }

    /// A supplied load-test configuration resolves to a well-formed profile.
    pub open spec fn profile_ok(self) -> bool {
        match self.load_test_config {
            Some(c) => c.resolved_spec().wf(),
            None => true,
        }
    }

    /// What configuration-time validation demands of one endpoint.
    pub open spec fn valid(self) -> bool {
        &&& self.url_ok()
        &&& (self.is_load_test() ==> self.profile_ok())
    }

    /// The endpoint after validation: a load-test endpoint without a profile
    /// is given the default one; everything else is untouched.
    pub open spec fn with_defaulted_profile(self) -> ApiConfigView {
        if self.is_load_test() && self.load_test_config is None {
            ApiConfigView { load_test_config: Some(LoadTestConfig::default_spec()), ..self }
        } else {
            self
        }
    }
}

/// The whole configuration: the monitored endpoints plus process-wide
/// settings for the shared HTTP client and for logging.
pub struct Settings {
    pub apis: Vec<ApiConfig>,
    pub monitoring_interval_seconds: u64,
    pub log_level: String,
    pub http_timeout_seconds: u64,
    pub http_proxy_url: Option<String>,
    pub http_default_headers: Vec<(String, String)>,
}

/// The mathematical value of a `Settings`.
#[verifier::ext_equal]
pub ghost struct SettingsView {
    pub apis: Seq<ApiConfigView>,
    pub monitoring_interval_seconds: u64,
    pub log_level: Seq<char>,
    pub http_timeout_seconds: u64,
    pub http_proxy_url: Option<Seq<char>>,
    pub http_default_headers: Seq<(Seq<char>, Seq<char>)>,
}

impl View for Settings {
    type V = SettingsView;

    open spec fn view(&self) -> SettingsView {
        SettingsView {
            apis: self.apis@.map_values(|a: ApiConfig| a@),
            monitoring_interval_seconds: self.monitoring_interval_seconds,
            log_level: self.log_level@,
            http_timeout_seconds: self.http_timeout_seconds,
            http_proxy_url: match self.http_proxy_url {
                Some(p) => Some(p@),
                None => None,
            },
            http_default_headers: pairs_view(self.http_default_headers@),
        }
    }
}

impl SettingsView {
    /// The fields of the configuration that validation never touches.
    pub open spec fn same_globals(self, other: SettingsView) -> bool {
        &&& self.monitoring_interval_seconds == other.monitoring_interval_seconds
        &&& self.log_level == other.log_level
        &&& self.http_timeout_seconds == other.http_timeout_seconds
        &&& self.http_proxy_url == other.http_proxy_url
        &&& self.http_default_headers == other.http_default_headers
    }
}

/// A configuration-time error; such an error is fatal to startup, no task
/// runs after one.
#[derive(Clone, Copy, Debug, PartialEq, Eq, Structural)]
pub enum ConfigError {
    /// The endpoint at this position in the list has an empty URL.
    MissingUrl { index: usize },
    /// The endpoint at this position supplies a load-test configuration that
    /// resolves to a malformed profile.
    InvalidLoadProfile { index: usize },
}

impl ConfigError {
    /// A human-readable description of the error.
    pub fn message(&self) -> (r: String)
        ensures
            (*self matches ConfigError::MissingUrl { .. }) ==> r@ == "API URL is missing in the configuration"@,
            (*self matches ConfigError::InvalidLoadProfile { .. }) ==> r@
                == "load test configuration resolves to an invalid profile"@,
    {
        match self {
            ConfigError::MissingUrl { .. } => "API URL is missing in the configuration".to_owned(),
            ConfigError::InvalidLoadProfile { .. } => "load test configuration resolves to an invalid profile".to_owned(),
        }
    }
}

/// Validates a configuration before any task is built from it.
///
/// Every endpoint must name a URL, and every supplied load-test configuration
/// must resolve to a well-formed profile; a load-test endpoint without one is
/// given the default profile. On the first offending endpoint the walk stops
/// and its position is reported; endpoints before it have already been
/// defaulted, later ones are untouched.
pub fn validate_settings(settings: &mut Settings) -> (r: Result<(), ConfigError>)
    ensures
        (*final(settings))@.same_globals((*old(settings))@),
        (*final(settings))@.apis.len() == (*old(settings))@.apis.len(),
        r is Ok <==> (forall|j: int|
            0 <= j < (*old(settings))@.apis.len() ==> (#[trigger] (*old(settings))@.apis[j]).valid()),
        r is Ok ==> forall|j: int|
            0 <= j < (*final(settings))@.apis.len() ==> #[trigger] (*final(settings))@.apis[j] == (*old(settings))@.apis[j].with_defaulted_profile(),
        r is Ok ==> forall|j: int|
            0 <= j < (*final(settings))@.apis.len() && (#[trigger] (*final(settings))@.apis[j]).is_load_test()
                ==> (*final(settings))@.apis[j].load_test_config is Some
                && (*final(settings))@.apis[j].load_test_config->Some_0.resolved_spec().wf(),
        match r {
            Ok(_) => true,
            Err(ConfigError::MissingUrl { index }) => {
                &&& index < (*old(settings))@.apis.len()
                &&& !(*old(settings))@.apis[index as int].url_ok()
                &&& forall|j: int| 0 <= j < index ==> (#[trigger] (*old(settings))@.apis[j]).valid()
                &&& forall|j: int|
                    0 <= j < (*final(settings))@.apis.len() ==> #[trigger] (*final(settings))@.apis[j] == (if j
                        < index as int {
                        (*old(settings))@.apis[j].with_defaulted_profile()
                    } else {
                        (*old(settings))@.apis[j]
                    })
            },
            Err(ConfigError::InvalidLoadProfile { index }) => {
                &&& index < (*old(settings))@.apis.len()
                &&& (*old(settings))@.apis[index as int].url_ok()
                &&& (*old(settings))@.apis[index as int].is_load_test()
                &&& !(*old(settings))@.apis[index as int].profile_ok()
                &&& forall|j: int| 0 <= j < index ==> (#[trigger] (*old(settings))@.apis[j]).valid()
                &&& forall|j: int|
                    0 <= j < (*final(settings))@.apis.len() ==> #[trigger] (*final(settings))@.apis[j] == (if j
                        < index as int {
                        (*old(settings))@.apis[j].with_defaulted_profile()
                    } else {
                        (*old(settings))@.apis[j]
                    })
            },
        },
{
    let n = settings.apis.len();
    let mut i: usize = 0;
    while i < n
        invariant
            n == settings.apis.len(),
            i <= n,
            settings@.same_globals((*old(settings))@),
            settings@.apis.len() == (*old(settings))@.apis.len(),
            forall|j: int| 0 <= j < i ==> (#[trigger] (*old(settings))@.apis[j]).valid(),
            forall|j: int|
                0 <= j < i ==> #[trigger] settings@.apis[j] == (*old(settings))@.apis[j].with_defaulted_profile(),
            forall|j: int| i <= j < n ==> #[trigger] settings@.apis[j] == (*old(settings))@.apis[j],
        decreases n - i,
    {
        let ghost entry_api = settings@.apis[i as int];
        proof {
            assert(entry_api == (*old(settings))@.apis[i as int]);
        }
        if settings.apis[i].url.as_str().is_empty() {
            assert(entry_api.url.len() == 0);
            assert(!(*old(settings))@.apis[i as int].valid());
            return Err(ConfigError::MissingUrl { index: i });
        }
        let flagged = match settings.apis[i].load_test {
            Some(b) => b,
            None => false,
        };
        if flagged {
            match &settings.apis[i].load_test_config {
                None => {
                    let ghost pre_apis = settings@.apis;
                    let ghost pre_vec = settings.apis@;
                    settings.apis[i].load_test_config = Some(LoadTestConfig::default());
                    proof {
                        assert(settings@.apis[i as int] == entry_api.with_defaulted_profile());
                        assert forall|j: int| 0 <= j < n && j != i as int implies #[trigger] settings@.apis[j]
                            == pre_apis[j] by {
                            assert(settings.apis@[j] == pre_vec[j]);
                        }
                    }
                },
                Some(c) => {
                    let p = c.resolved();
                    if !p.check_wf() {
                        assert(!entry_api.profile_ok());
                        assert(!(*old(settings))@.apis[i as int].valid());
                        return Err(ConfigError::InvalidLoadProfile { index: i });
                    }
                },
            }
        }
        i += 1;
    }
    Ok(())
}

} // verus!
