use vstd::prelude::*;

use crate::config::LoadProfile;

verus! {

/// Why a load test ended.
#[derive(Clone, Copy, Debug, PartialEq, Eq, Structural)]
pub enum TerminationReason {
    /// The wall-clock ceiling was reached before the load ceiling.
    DurationExpired,
    /// The load ceiling had been reached when the window closed.
    MaxLoadReachedAndWindowClosed,
}

/// The aggregate recorded for one completed load-test run.
#[derive(Clone, Copy, Debug, PartialEq, Eq)]
pub struct LoadTestMonitoringData {
    /// Requests attempted, retries included.
    pub total_requests: u64,
    /// Logical requests whose final outcome was a success.
    pub successes: u64,
    /// Logical requests that failed after exhausting their retries.
    pub failures: u64,
    /// Least latency over all attempts, absent when nothing was attempted.
    pub min_response_time: Option<u64>,
    /// Greatest latency over all attempts, absent when nothing was attempted.
    pub max_response_time: Option<u64>,
    /// Mean latency over all attempts, absent when nothing was attempted.
    pub mean_response_time: Option<u64>,
    /// The highest concurrency the ramp reached.
    pub peak_concurrency: usize,
    /// The wall-clock seconds that actually elapsed.
    pub elapsed_seconds: u64,
    /// Why the run ended.
    pub termination_reason: TerminationReason,
}

impl View for LoadTestMonitoringData {
    type V = LoadTestMonitoringData;

    open spec fn view(&self) -> LoadTestMonitoringData {
        *self
    }
}

/// The sum of a sequence of latencies.
pub open spec fn seq_sum(s: Seq<u64>) -> int
    decreases s.len(),
{
    if s.len() == 0 {
        0
    } else {
        seq_sum(s.drop_last()) + s.last()
    }
}

/// The least element of a non-empty sequence of latencies.
pub open spec fn seq_min(s: Seq<u64>) -> u64
    decreases s.len(),
{
    if s.len() <= 1 {
        if s.len() == 1 {
            s[0]
        } else {
            0u64
        }
    } else {
        let m = seq_min(s.drop_last());
        if s.last() < m {
            s.last()
        } else {
            m
        }
    }
}

/// The greatest element of a non-empty sequence of latencies.
pub open spec fn seq_max(s: Seq<u64>) -> u64
    decreases s.len(),
{
    if s.len() <= 1 {
        if s.len() == 1 {
            s[0]
        } else {
            0u64
        }
    } else {
        let m = seq_max(s.drop_last());
        if s.last() > m {
            s.last()
        } else {
            m
        }
    }
}

proof fn lemma_seq_sum_le_len_times_max(s: Seq<u64>)
    ensures
        0 <= seq_sum(s),
        s.len() > 0 ==> seq_sum(s) <= s.len() * seq_max(s),
    decreases s.len(),
{
    if s.len() > 0 {
        let pre = s.drop_last();
        lemma_seq_sum_le_len_times_max(pre);
        if pre.len() > 0 {
            assert(seq_max(pre) <= seq_max(s));
            assert(s.last() <= seq_max(s));
            assert(pre.len() * seq_max(pre) <= pre.len() * seq_max(s)) by (nonlinear_arith)
                requires
                    0 <= pre.len(),
                    seq_max(pre) <= seq_max(s),
            ;
            assert(seq_sum(s) <= pre.len() * seq_max(s) + seq_max(s));
            assert(pre.len() * seq_max(s) + seq_max(s) == s.len() * seq_max(s)) by (nonlinear_arith)
                requires
                    pre.len() + 1 == s.len(),
            ;
        }
    }
}

proof fn lemma_seq_sum_bound(s: Seq<u64>)
    ensures
        0 <= seq_sum(s) <= s.len() * (u64::MAX as int),
    decreases s.len(),
{
    if s.len() > 0 {
        let pre = s.drop_last();
        lemma_seq_sum_bound(pre);
        assert(pre.len() * (u64::MAX as int) + (u64::MAX as int) == s.len() * (u64::MAX as int))
            by (nonlinear_arith)
            requires
                pre.len() + 1 == s.len(),
        ;
    }
}

proof fn lemma_seq_sum_concat(a: Seq<u64>, b: Seq<u64>)
    ensures
        seq_sum(a + b) == seq_sum(a) + seq_sum(b),
    decreases b.len(),
{
    if b.len() == 0 {
        assert(a + b =~= a);
    } else {
        lemma_seq_sum_concat(a, b.drop_last());
        assert((a + b).drop_last() =~= a + b.drop_last());
        assert((a + b).last() == b.last());
    }
}

proof fn lemma_seq_min_concat(a: Seq<u64>, b: Seq<u64>)
    requires
        a.len() > 0,
        b.len() > 0,
    ensures
        seq_min(a + b) == if seq_min(b) < seq_min(a) {
            seq_min(b)
        } else {
            seq_min(a)
        },
    decreases b.len(),
{
    if b.len() == 1 {
        assert((a + b).drop_last() =~= a);
        assert((a + b).last() == b[0]);
        assert(seq_min(b) == b[0]);
    } else {
        lemma_seq_min_concat(a, b.drop_last());
        assert((a + b).drop_last() =~= a + b.drop_last());
        assert((a + b).last() == b.last());
    }
}

proof fn lemma_seq_max_concat(a: Seq<u64>, b: Seq<u64>)
    requires
        a.len() > 0,
        b.len() > 0,
    ensures
        seq_max(a + b) == if seq_max(b) > seq_max(a) {
            seq_max(b)
        } else {
            seq_max(a)
        },
    decreases b.len(),
{
    if b.len() == 1 {
        assert((a + b).drop_last() =~= a);
        assert((a + b).last() == b[0]);
        assert(seq_max(b) == b[0]);
    } else {
        lemma_seq_max_concat(a, b.drop_last());
        assert((a + b).drop_last() =~= a + b.drop_last());
        assert((a + b).last() == b.last());
    }
}

/// One logical request with its retry budget: the request is attempted, and
/// attempted again on failure, until it succeeds or the budget is spent.
#[derive(Clone, Copy, Debug, PartialEq, Eq, Structural)]
pub struct RequestCycle {
    /// Additional attempts allowed after the first one.
    pub retry_count: usize,
    /// Attempts made so far, the first one included.
    pub attempts_used: usize,
    /// The logical request is settled.
    pub finished: bool,
    /// The settled outcome was a success.
    pub succeeded: bool,
}

impl RequestCycle {
    /// The bookkeeping invariant: a cycle never spends more than one attempt
    /// beyond its budget, and one that settled as a failure spent the whole
    /// budget.
    pub open spec fn wf(self) -> bool {
        &&& self.attempts_used <= self.retry_count + 1
        &&& (!self.finished ==> self.attempts_used <= self.retry_count)
        &&& (self.finished ==> 1 <= self.attempts_used)
        &&& (self.succeeded ==> self.finished)
        &&& ((self.finished && !self.succeeded) ==> self.attempts_used == self.retry_count + 1)
    }

    /// A fresh cycle with the given budget of additional attempts.
    pub fn new(retry_count: usize) -> (c: Self)
        ensures
            c.wf(),
            c.retry_count == retry_count,
            c.attempts_used == 0,
            !c.finished,
            !c.succeeded,
    {
        RequestCycle { retry_count, attempts_used: 0, finished: false, succeeded: false }
    }

    /// Settles one attempt: a success settles the cycle at once; a failure
    /// settles it only when the retry budget is spent.
    pub fn record_attempt(&mut self, success: bool)
        requires
            old(self).wf(),
            !old(self).finished,
            old(self).retry_count < usize::MAX,
        ensures
            final(self).wf(),
            final(self).retry_count == old(self).retry_count,
            final(self).attempts_used == old(self).attempts_used + 1,
            final(self).succeeded == success,
            final(self).finished == (success || old(self).attempts_used + 1 == old(
                self,
            ).retry_count + 1),
    {
        self.attempts_used = self.attempts_used + 1;
        self.succeeded = success;
        self.finished = success || self.attempts_used > self.retry_count;
    }
}

/// Law: a logical request that settled as a failure consumed its whole
/// budget, one original attempt plus `retry_count` retries, no more and no
/// fewer.
pub proof fn lemma_failure_exhausts_retries(c: RequestCycle)
    requires
        c.wf(),
        c.finished,
        !c.succeeded,
    ensures
        c.attempts_used == c.retry_count + 1,
{
}

/// The running state of one progressive load test: the ramp position and
/// the aggregate of everything attempted so far.
pub struct LoadGen {
    /// The resolved profile the run was started with.
    pub profile: LoadProfile,
    /// Virtual workers currently meant to run.
    pub concurrency: usize,
    /// The highest concurrency reached so far.
    pub peak_concurrency: usize,
    /// Attempts made so far, retries included.
    pub total_requests: u64,
    /// Logical requests settled as successes.
    pub successes: u64,
    /// Logical requests settled as failures.
    pub failures: u64,
    /// Least latency seen, absent before the first attempt.
    pub min_ms: Option<u64>,
    /// Greatest latency seen, absent before the first attempt.
    pub max_ms: Option<u64>,
    /// Sum of all attempt latencies.
    pub sum_ms: u128,
    /// Every attempt's latency, in order of settlement.
    pub latencies: Ghost<Seq<u64>>,
}

impl LoadGen {
    /// The aggregation invariant, held from start to finalization.
    pub open spec fn wf(self) -> bool {
        &&& self.profile.wf()
        &&& self.profile.initial_load <= self.concurrency
        &&& self.concurrency <= self.peak_concurrency
        &&& self.peak_concurrency <= self.profile.max_load
        &&& self.successes + self.failures <= self.total_requests
        &&& self.total_requests <= (self.successes + self.failures) * (self.profile.retry_count
            + 1)
        &&& self.total_requests == self.latencies@.len()
        &&& self.sum_ms == seq_sum(self.latencies@)
        &&& (self.total_requests > 0 ==> self.min_ms == Some(seq_min(self.latencies@))
            && self.max_ms == Some(seq_max(self.latencies@)))
        &&& (self.total_requests == 0 ==> self.min_ms is None && self.max_ms is None)
    }

    /// A fresh run: concurrency starts exactly at the profile's initial
    /// load, nothing attempted yet.
    pub fn new(profile: LoadProfile) -> (g: Self)
        requires
            profile.wf(),
        ensures
            g.wf(),
            g.profile == profile,
            g.concurrency == profile.initial_load,
            g.peak_concurrency == profile.initial_load,
            g.total_requests == 0,
            g.successes == 0,
            g.failures == 0,
            g.min_ms is None,
            g.max_ms is None,
            g.latencies@ == Seq::<u64>::empty(),
    {
        LoadGen {
            profile,
            concurrency: profile.initial_load,
            peak_concurrency: profile.initial_load,
            total_requests: 0,
            successes: 0,
            failures: 0,
            min_ms: None,
            max_ms: None,
            sum_ms: 0,
            latencies: Ghost(Seq::empty()),
        }
    }

    /// One ramp interval: the target concurrency grows by the spawn rate,
    /// capped at the profile's ceiling; workers are never stopped mid-ramp.
    pub fn ramp(&mut self)
        requires
            old(self).wf(),
        ensures
            final(self).wf(),
            final(self).concurrency == (if old(self).concurrency + old(self).profile.spawn_rate
                <= old(self).profile.max_load {
                old(self).concurrency + old(self).profile.spawn_rate
            } else {
                old(self).profile.max_load as int
            }),
            final(self).peak_concurrency == (if final(self).concurrency > old(
                self,
            ).peak_concurrency {
                final(self).concurrency as int
            } else {
                old(self).peak_concurrency as int
            }),
            final(self).profile == old(self).profile,
            final(self).total_requests == old(self).total_requests,
            final(self).successes == old(self).successes,
            final(self).failures == old(self).failures,
            final(self).min_ms == old(self).min_ms,
            final(self).max_ms == old(self).max_ms,
            final(self).sum_ms == old(self).sum_ms,
            final(self).latencies == old(self).latencies,
    {
        if self.profile.max_load - self.concurrency <= self.profile.spawn_rate {
            self.concurrency = self.profile.max_load;
        } else {
            self.concurrency = self.concurrency + self.profile.spawn_rate;
        }
        if self.concurrency > self.peak_concurrency {
            self.peak_concurrency = self.concurrency;
        }
    }

    /// Whether the run's wall-clock ceiling has been reached.
    pub fn should_stop(&self, elapsed_secs: u64) -> (r: bool)
        ensures
            r == (elapsed_secs >= self.profile.max_duration_secs as u64),
    {
        elapsed_secs >= self.profile.max_duration_secs as u64
    }

    /// Folds one settled logical request into the aggregate: every attempt's
    /// latency counts toward the latency figures, the settled outcome counts
    /// once toward successes or failures.
    pub fn complete_logical(&mut self, cycle: &RequestCycle, latencies: &Vec<u64>)
        requires
            old(self).wf(),
            cycle.wf(),
            cycle.finished,
            cycle.retry_count == old(self).profile.retry_count,
            latencies@.len() == cycle.attempts_used,
            old(self).total_requests + cycle.attempts_used <= u64::MAX,
        ensures
            final(self).wf(),
            final(self).latencies@ == old(self).latencies@ + latencies@,
            final(self).total_requests == old(self).total_requests + cycle.attempts_used,
            final(self).successes == old(self).successes + (if cycle.succeeded {
                1int
            } else {
                0int
            }),
            final(self).failures == old(self).failures + (if cycle.succeeded {
                0int
            } else {
                1int
            }),
            final(self).profile == old(self).profile,
            final(self).concurrency == old(self).concurrency,
            final(self).peak_concurrency == old(self).peak_concurrency,
    {
        let ghost orig = *self;
        let n = latencies.len();
        assert(n >= 1);
        let mut vmin = latencies[0];
        let mut vmax = latencies[0];
        let mut vsum: u128 = 0;
        let mut k: usize = 0;
        while k < n
            invariant
                n == latencies.len(),
                k <= n,
                n >= 1,
                k > 0 ==> vmin == seq_min(latencies@.subrange(0, k as int)),
                k > 0 ==> vmax == seq_max(latencies@.subrange(0, k as int)),
                k == 0 ==> vmin == latencies@[0] && vmax == latencies@[0],
                vsum == seq_sum(latencies@.subrange(0, k as int)),
                vsum <= k * (u64::MAX as int),
            decreases n - k,
        {
            let x = latencies[k];
            proof {
                assert(latencies@.subrange(0, k as int + 1).drop_last() =~= latencies@.subrange(
                    0,
                    k as int,
                ));
                assert(latencies@.subrange(0, k as int + 1).last() == latencies@[k as int]);
            }
            if k == 0 {
                vmin = x;
                vmax = x;
            } else {
                if x < vmin {
                    vmin = x;
                }
                if x > vmax {
                    vmax = x;
                }
            }
            vsum = vsum + x as u128;
            k += 1;
        }
        proof {
            assert(latencies@.subrange(0, n as int) =~= latencies@);
        }
        self.total_requests = self.total_requests + n as u64;
        proof {
            lemma_seq_sum_bound(orig.latencies@);
            let len0 = orig.latencies@.len() as int;
            let m = u64::MAX as int;
            assert(len0 * m + (n as int) * m == (len0 + n as int) * m) by (nonlinear_arith);
            assert((len0 + n as int) * m <= m * m) by (nonlinear_arith)
                requires
                    len0 + n as int <= m,
                    0 <= m,
            ;
        }
        self.sum_ms = self.sum_ms + vsum;
        self.min_ms = match self.min_ms {
            None => Some(vmin),
            Some(m) => Some(
                if vmin < m {
                    vmin
                } else {
                    m
                },
            ),
        };
        self.max_ms = match self.max_ms {
            None => Some(vmax),
            Some(m) => Some(
                if vmax > m {
                    vmax
                } else {
                    m
                },
            ),
        };
        if cycle.succeeded {
            self.successes = self.successes + 1;
        } else {
            self.failures = self.failures + 1;
        }
        proof {
            self.latencies@ = orig.latencies@ + latencies@;
            lemma_seq_sum_concat(orig.latencies@, latencies@);
            if orig.latencies@.len() > 0 {
                lemma_seq_min_concat(orig.latencies@, latencies@);
                lemma_seq_max_concat(orig.latencies@, latencies@);
            } else {
                assert(orig.latencies@ + latencies@ =~= latencies@);
            }
            let s = orig.successes + orig.failures;
            let r = orig.profile.retry_count as int;
            assert(orig.total_requests <= s * (r + 1));
            assert(s * (r + 1) + (r + 1) == (s + 1) * (r + 1)) by (nonlinear_arith);
            assert(self.total_requests <= (self.successes + self.failures) * (r + 1));
        }
    }

    /// The final aggregate of a run that has reached its deadline, or that a
    /// process-level fault has aborted early.
    pub fn finalize(&self, elapsed_secs: u64, aborted: bool) -> (d: LoadTestMonitoringData)
        requires
            self.wf(),
            aborted || elapsed_secs >= self.profile.max_duration_secs as u64,
        ensures
            d.total_requests == self.total_requests,
            d.successes == self.successes,
            d.failures == self.failures,
            d.min_response_time == self.min_ms,
            d.max_response_time == self.max_ms,
            d.peak_concurrency == self.peak_concurrency,
            d.elapsed_seconds == elapsed_secs,
            self.total_requests > 0 ==> d.mean_response_time == Some(
                (seq_sum(self.latencies@) / (self.total_requests as int)) as u64,
            ),
            self.total_requests == 0 ==> d.mean_response_time is None,
            d.termination_reason == (if self.concurrency >= self.profile.max_load {
                TerminationReason::MaxLoadReachedAndWindowClosed
            } else {
                TerminationReason::DurationExpired
            }),
    {
        let mean = if self.total_requests > 0 {
            proof {
                lemma_seq_sum_le_len_times_max(self.latencies@);
                assert(self.min_ms == Some(seq_min(self.latencies@)));
                let len = self.latencies@.len() as int;
                let mx = seq_max(self.latencies@) as int;
                vstd::arithmetic::div_mod::lemma_div_is_ordered(
                    seq_sum(self.latencies@),
                    len * mx,
                    len,
                );
                vstd::arithmetic::div_mod::lemma_div_by_multiple(mx, len);
                assert((len * mx) / len == mx) by {
                    assert(len * mx == mx * len) by (nonlinear_arith);
                }
                assert(seq_sum(self.latencies@) / len <= mx);
            }
            Some((self.sum_ms / (self.total_requests as u128)) as u64)
        } else {
            None
        };
        LoadTestMonitoringData {
            total_requests: self.total_requests,
            successes: self.successes,
            failures: self.failures,
            min_response_time: self.min_ms,
            max_response_time: self.max_ms,
            mean_response_time: mean,
            peak_concurrency: self.peak_concurrency,
            elapsed_seconds: elapsed_secs,
            termination_reason: if self.concurrency >= self.profile.max_load {
                TerminationReason::MaxLoadReachedAndWindowClosed
            } else {
                TerminationReason::DurationExpired
            },
        }
    }
}

/// Law: at every reachable state of a run, the settled logical requests
/// account for at least one attempt each, the attempts never exceed one
/// budget's worth per settled request, and without retries the counts agree
/// exactly.
pub proof fn lemma_attempt_accounting(g: LoadGen)
    requires
        g.wf(),
    ensures
        g.successes + g.failures <= g.total_requests,
        g.total_requests <= (g.successes + g.failures) * (g.profile.retry_count + 1),
        g.profile.retry_count == 0 ==> g.total_requests == g.successes + g.failures,
{
    if g.profile.retry_count == 0 {
        assert((g.successes + g.failures) * 1 == g.successes + g.failures) by (nonlinear_arith);
    }
}

/// Law: at every reachable state of a run, the concurrency never lies below
/// the profile's initial load, and neither the current nor the peak
/// concurrency ever exceeds the profile's ceiling.
pub proof fn lemma_concurrency_bounds(g: LoadGen)
    requires
        g.wf(),
    ensures
        g.profile.initial_load <= g.concurrency,
        g.concurrency <= g.profile.max_load,
        g.profile.initial_load <= g.peak_concurrency,
        g.peak_concurrency <= g.profile.max_load,
{
}

} // verus!
