//! The checks of probes: what is to be done, and what follows from the answer.
use crate::config::{ProbeConfig, ProbeConfigModel};
use crate::duration::Duration;
use crate::events::now_ts;
use crate::text::{cat, cat3, copy_option, decimal, decimal_text, Str};
use vstd::prelude::*;
use vstd::string::StrSliceExecFns;

verus! {

/// How a check has ended.
#[derive(Debug)]
pub enum ProbeResult {
    Passed { duration_ms: u64 },
    Failed { error: String, duration_ms: u64 },
}

/// The model of a [`ProbeResult`].
#[verifier::ext_equal]
pub enum ResultModel {
    Passed { duration_ms: u64 },
    Failed { error: Str, duration_ms: u64 },
}

impl DeepView for ProbeResult {
    type V = ResultModel;

    open spec fn deep_view(&self) -> ResultModel {
        match *self {
            ProbeResult::Passed { duration_ms } => ResultModel::Passed { duration_ms },
            ProbeResult::Failed { error, duration_ms } => ResultModel::Failed {
                error: error@,
                duration_ms,
            },
        }
    }
}

impl ProbeResult {
    /// Whether the check succeeded.
    pub fn is_ok(&self) -> (r: bool)
        ensures
            r == (self.deep_view() is Passed),
    {
        match self {
            ProbeResult::Passed { .. } => true,
            _ => false,
        }
    }
}

/// One attempt of a check.
#[derive(Debug)]
pub struct ProbeAttempt {
    pub attempt: u32,
    pub ok: bool,
    /// The milliseconds since the check began.
    pub elapsed_ms: u64,
    pub error: Option<String>,
    /// The kind of check, with the port or the pattern.
    pub detail: String,
    /// When it happened, in milliseconds since the unix epoch.
    pub ts: i64,
}

/// The model of a [`ProbeAttempt`].
#[verifier::ext_equal]
pub struct AttemptModel {
    pub attempt: u32,
    pub ok: bool,
    pub elapsed_ms: u64,
    pub error: Option<Str>,
    pub detail: Str,
    pub ts: i64,
}

impl DeepView for ProbeAttempt {
    type V = AttemptModel;

    open spec fn deep_view(&self) -> AttemptModel {
        AttemptModel {
            attempt: self.attempt,
            ok: self.ok,
            elapsed_ms: self.elapsed_ms,
            error: self.error.deep_view(),
            detail: self.detail@,
            ts: self.ts,
        }
    }
}

impl ProbeAttempt {
    /// An attempt that has just ended.
    pub fn new(attempt: u32, ok: bool, elapsed_ms: u64, error: Option<String>, detail: String) -> (r:
        Self)
        ensures
            r.deep_view() == (AttemptModel {
                attempt,
                ok,
                elapsed_ms,
                error: error.deep_view(),
                detail: detail@,
                ts: r.ts,
            }),
    {
        ProbeAttempt { ts: now_ts(), attempt, ok, elapsed_ms, error, detail }
    }
}

/// What came of a check.
#[derive(Debug)]
pub struct ProbeOutcome {
    pub result: ProbeResult,
    pub attempts: Vec<ProbeAttempt>,
    /// The log lines that the patterns matched.
    pub matched_lines: Vec<String>,
    /// The generation of the service when the check was sent out. The highest number stands
    /// for none.
    pub generation: u64,
}

/// The model of a [`ProbeOutcome`].
#[verifier::ext_equal]
pub struct OutcomeModel {
    pub result: ResultModel,
    pub attempts: Seq<AttemptModel>,
    pub matched_lines: Seq<Str>,
    pub generation: u64,
}

impl DeepView for ProbeOutcome {
    type V = OutcomeModel;

    open spec fn deep_view(&self) -> OutcomeModel {
        OutcomeModel {
            result: self.result.deep_view(),
            attempts: self.attempts.deep_view(),
            matched_lines: self.matched_lines.deep_view(),
            generation: self.generation,
        }
    }
}

/// Whether an outcome is that of one attempt, which happened at any time.
pub open spec fn is_single(o: OutcomeModel, result: ResultModel, detail: Str) -> bool {
    &&& o.result == result
    &&& o.matched_lines == Seq::<Str>::empty()
    &&& o.generation == u64::MAX
    &&& o.attempts.len() == 1
    &&& o.attempts[0] == (AttemptModel {
        attempt: 1,
        ok: result is Passed,
        elapsed_ms: match result {
            ResultModel::Passed { duration_ms } => duration_ms,
            ResultModel::Failed { duration_ms, .. } => duration_ms,
        },
        error: match result {
            ResultModel::Passed { .. } => None,
            ResultModel::Failed { error, .. } => Some(error),
        },
        detail,
        ts: o.attempts[0].ts,
    })
}

impl ProbeOutcome {
    /// An outcome without an attempt.
    pub fn immediate(result: ProbeResult) -> (r: Self)
        ensures
            r.deep_view() == (OutcomeModel {
                result: result.deep_view(),
                attempts: Seq::empty(),
                matched_lines: Seq::empty(),
                generation: u64::MAX,
            }),
    {
        let r = ProbeOutcome {
            result,
            attempts: Vec::new(),
            matched_lines: Vec::new(),
            generation: u64::MAX,
        };
        assert(r.deep_view().attempts =~= Seq::<AttemptModel>::empty());
        assert(r.deep_view().matched_lines =~= Seq::<Str>::empty());
        r
    }

    /// The outcome of one attempt.
    pub fn single(result: ProbeResult, detail: &str) -> (r: Self)
        ensures
            is_single(r.deep_view(), result.deep_view(), detail@),
    {
        let (ok, ms, error) = match &result {
            ProbeResult::Passed { duration_ms } => (true, *duration_ms, None),
            ProbeResult::Failed { error, duration_ms } => (
                false,
                *duration_ms,
                Some(error.clone()),
            ),
        };
        let mut attempts: Vec<ProbeAttempt> = Vec::new();
        attempts.push(ProbeAttempt::new(1, ok, ms, error, detail.to_owned()));
        let r = ProbeOutcome { result, attempts, matched_lines: Vec::new(), generation: u64::MAX };
        assert(r.deep_view().matched_lines =~= Seq::<Str>::empty());
        r
    }

    /// The outcome with other log lines.
    pub fn with_matched_lines(self, lines: Vec<String>) -> (r: Self)
        ensures
            r.deep_view() == (OutcomeModel {
                matched_lines: lines.deep_view(),
                ..self.deep_view()
            }),
    {
        ProbeOutcome {
            result: self.result,
            attempts: self.attempts,
            matched_lines: lines,
            generation: self.generation,
        }
    }

    /// The outcome of a check that was sent out in a generation of its service.
    pub fn with_generation(self, generation: u64) -> (r: Self)
        ensures
            r.deep_view() == (OutcomeModel { generation, ..self.deep_view() }),
    {
        ProbeOutcome {
            result: self.result,
            attempts: self.attempts,
            matched_lines: self.matched_lines,
            generation,
        }
    }
}

/// The bytes that a character takes in UTF-8.
pub open spec fn char_bytes(c: char) -> int {
    let n = c as u32;
    if n < 0x80 {
        1
    } else if n < 0x800 {
        2
    } else if n < 0x10000 {
        3
    } else {
        4
    }
}

/// The bytes that a text takes in UTF-8.
pub open spec fn text_bytes(s: Str) -> int
    decreases s.len(),
{
    if s.len() == 0 {
        0
    } else {
        text_bytes(s.drop_last()) + char_bytes(s.last())
    }
}

/// The longest start of a text that takes at most `max` bytes.
pub open spec fn truncated(s: Str, max: int) -> Str
    decreases s.len(),
{
    if s.len() == 0 || text_bytes(s) <= max {
        s
    } else {
        truncated(s.drop_last(), max)
    }
}

proof fn lemma_truncated(s: Str, n: int, max: int)
    requires
        0 <= n <= s.len(),
        text_bytes(s.take(n)) <= max,
        n < s.len() ==> text_bytes(s.take(n + 1)) > max,
    ensures
        truncated(s, max) == s.take(n),
    decreases s.len(),
{
    if n == s.len() {
        assert(s.take(n) =~= s);
    } else {
        lemma_bytes_mono(s, n + 1);
        let front = s.drop_last();
        assert(front.take(n) =~= s.take(n));
        if n < front.len() {
            assert(front.take(n + 1) =~= s.take(n + 1));
        }
        lemma_truncated(front, n, max);
    }
}

proof fn lemma_bytes_mono(s: Str, n: int)
    requires
        0 <= n <= s.len(),
    ensures
        text_bytes(s.take(n)) <= text_bytes(s),
    decreases s.len(),
{
    if n < s.len() {
        lemma_bytes_mono(s.drop_last(), n);
        assert(s.drop_last().take(n) =~= s.take(n));
    } else {
        assert(s.take(n) =~= s);
    }
}

/// The longest start of a text that takes at most `max` bytes.
pub fn truncate(s: &str, max: usize) -> (r: &str)
    ensures
        r@ == truncated(s@, max as int),
{
    let n: usize = s.unicode_len();
    let mut used: usize = 0;
    let mut i: usize = 0;
    assert(s@.take(0) =~= Seq::<char>::empty());
    while i < n
        invariant
            i <= n == s@.len(),
            used == text_bytes(s@.take(i as int)),
            used <= max,
        decreases n - i,
    {
        let c: u32 = s.get_char(i) as u32;
        let width: usize = if c < 0x80 {
            1
        } else if c < 0x800 {
            2
        } else if c < 0x10000 {
            3
        } else {
            4
        };
        assert(s@.take(i + 1).drop_last() =~= s@.take(i as int));
        assert(s@.take(i + 1).last() == s@[i as int]);
        if width > max - used {
            proof {
                lemma_truncated(s@, i as int, max as int);
                assert(s@.take(i as int) =~= s@.subrange(0, i as int));
            }
            return s.substring_char(0, i);
        }
        used = used + width;
        i = i + 1;
    }
    proof {
        lemma_truncated(s@, n as int, max as int);
        assert(s@.take(n as int) =~= s@);
    }
    s
}

/// What a check of a port is called.
pub open spec fn tcp_detail(port: u16) -> Str {
    "tcp :"@ + decimal(port as nat)
}

/// What a check of a log is called.
pub open spec fn log_detail(success: Str) -> Str {
    "log \""@ + truncated(success, 40) + "\""@
}

/// What a check of a port is called.
pub fn tcp_detail_text(port: u16) -> (r: String)
    ensures
        r@ == tcp_detail(port),
{
    cat("tcp :", decimal_text(port as u64).as_str())
}

/// What a check of a log is called.
pub fn log_detail_text(success: &str) -> (r: String)
    ensures
        r@ == log_detail(success@),
{
    cat3("log \"", truncate(success, 40), "\"")
}

/// What is to be done to check a probe.
#[derive(Debug)]
pub enum ProbePlan {
    /// Connect to a port, within a time.
    Tcp { host: String, port: u16, timeout: Duration },
    /// Search the log, within a time, and go on with what is logged then if `follow`.
    Log { success: String, failure: Option<String>, timeout: Duration, follow: bool },
    /// Nothing: the check succeeds at once.
    Nothing,
}

/// The model of a [`ProbePlan`].
#[verifier::ext_equal]
pub enum PlanModel {
    Tcp { host: Str, port: u16, timeout: Duration },
    Log { success: Str, failure: Option<Str>, timeout: Duration, follow: bool },
    Nothing,
}

impl DeepView for ProbePlan {
    type V = PlanModel;

    open spec fn deep_view(&self) -> PlanModel {
        match *self {
            ProbePlan::Tcp { host, port, timeout } => PlanModel::Tcp { host: host@, port, timeout },
            ProbePlan::Log { success, failure, timeout, follow } => PlanModel::Log {
                success: success@,
                failure: failure.deep_view(),
                timeout,
                follow,
            },
            ProbePlan::Nothing => PlanModel::Nothing,
        }
    }
}

/// The shorter of two times.
pub open spec fn shorter(a: Duration, b: Duration) -> Duration {
    if a.millis <= b.millis {
        a
    } else {
        b
    }
}

/// The host of a check of a port: by default, the name of the service.
pub open spec fn host_of(host: Option<Str>, service: Str) -> Str {
    match host {
        Some(h) => h,
        None => service,
    }
}

/// What is to be done to check a probe until it succeeds or its time is up.
pub open spec fn retry_plan(service: Str, c: ProbeConfigModel, timeout: Duration) -> PlanModel {
    match c {
        ProbeConfigModel::Tcp { host, port, timeout: own } => PlanModel::Tcp {
            host: host_of(host, service),
            port,
            timeout: shorter(own, timeout),
        },
        ProbeConfigModel::Log { success, failure, timeout: own } => PlanModel::Log {
            success,
            failure,
            timeout: shorter(own, timeout),
            follow: true,
        },
        ProbeConfigModel::Meta => PlanModel::Nothing,
    }
}

/// What is to be done to check a probe once.
pub open spec fn single_plan(service: Str, c: ProbeConfigModel, timeout: Duration) -> PlanModel {
    match c {
        ProbeConfigModel::Tcp { host, port, .. } => PlanModel::Tcp {
            host: host_of(host, service),
            port,
            timeout: shorter(timeout, Duration { millis: 5000 }),
        },
        ProbeConfigModel::Log { success, failure, .. } => PlanModel::Log {
            success,
            failure,
            timeout: Duration { millis: 0 },
            follow: false,
        },
        ProbeConfigModel::Meta => PlanModel::Nothing,
    }
}

fn host_text(host: &Option<String>, service: &str) -> (r: String)
    ensures
        r@ == host_of(host.deep_view(), service@),
{
    match host {
        Some(h) => h.clone(),
        None => service.to_owned(),
    }
}

/// Plans the check of a probe until it succeeds or its time is up, as after a start.
pub fn run_with_retry(service_name: &str, probe_config: &ProbeConfig, timeout: Duration) -> (r:
    ProbePlan)
    ensures
        r.deep_view() == retry_plan(service_name@, probe_config.deep_view(), timeout),
{
    match probe_config {
        ProbeConfig::Tcp { host, port, timeout: own } => ProbePlan::Tcp {
            host: host_text(host, service_name),
            port: *port,
            timeout: own.min(timeout),
        },
        ProbeConfig::Log { success, failure, timeout: own } => ProbePlan::Log {
            success: success.clone(),
            failure: copy_option(failure),
            timeout: own.min(timeout),
            follow: true,
        },
        ProbeConfig::Meta => ProbePlan::Nothing,
    }
}

/// Plans one check of a probe, as when it is checked again.
pub fn run_single_attempt(service_name: &str, probe_config: &ProbeConfig, timeout: Duration) -> (r:
    ProbePlan)
    ensures
        r.deep_view() == single_plan(service_name@, probe_config.deep_view(), timeout),
{
    match probe_config {
        ProbeConfig::Tcp { host, port, .. } => ProbePlan::Tcp {
            host: host_text(host, service_name),
            port: *port,
            timeout: timeout.min(Duration::from_secs(5)),
        },
        ProbeConfig::Log { success, failure, .. } => ProbePlan::Log {
            success: success.clone(),
            failure: copy_option(failure),
            timeout: Duration::zero(),
            follow: false,
        },
        ProbeConfig::Meta => ProbePlan::Nothing,
    }
}

/// What became of a connection.
#[derive(Debug)]
pub enum Connection {
    Open,
    Refused(String),
    TimedOut,
}

/// The model of a [`Connection`].
#[verifier::ext_equal]
pub enum ConnectionModel {
    Open,
    Refused(Str),
    TimedOut,
}

impl DeepView for Connection {
    type V = ConnectionModel;

    open spec fn deep_view(&self) -> ConnectionModel {
        match *self {
            Connection::Open => ConnectionModel::Open,
            Connection::Refused(e) => ConnectionModel::Refused(e@),
            Connection::TimedOut => ConnectionModel::TimedOut,
        }
    }
}

/// The result of one connection that took `ms` milliseconds.
pub open spec fn connection_result(c: ConnectionModel, ms: u64) -> ResultModel {
    match c {
        ConnectionModel::Open => ResultModel::Passed { duration_ms: ms },
        ConnectionModel::Refused(e) => ResultModel::Failed { error: e, duration_ms: ms },
        ConnectionModel::TimedOut => ResultModel::Failed { error: "timeout"@, duration_ms: ms },
    }
}

/// The outcome of one connection that took `ms` milliseconds.
pub fn tcp_outcome(port: u16, connection: Connection, ms: u64) -> (r: ProbeOutcome)
    ensures
        is_single(
            r.deep_view(),
            connection_result(connection.deep_view(), ms),
            tcp_detail(port),
        ),
{
    let result = match connection {
        Connection::Open => ProbeResult::Passed { duration_ms: ms },
        Connection::Refused(error) => ProbeResult::Failed { error, duration_ms: ms },
        Connection::TimedOut => ProbeResult::Failed {
            error: "timeout".to_owned(),
            duration_ms: ms,
        },
    };
    ProbeOutcome::single(result, tcp_detail_text(port).as_str())
}

/// The outcome of a check of a log.
pub fn log_outcome(success: &str, result: ProbeResult, matched: Vec<String>) -> (r: ProbeOutcome)
    ensures
        r.deep_view().matched_lines == matched.deep_view(),
        is_single(
            (OutcomeModel { matched_lines: Seq::empty(), ..r.deep_view() }),
            result.deep_view(),
            log_detail(success@),
        ),
{
    ProbeOutcome::single(result, log_detail_text(success).as_str()).with_matched_lines(matched)
}

/// The outcome where nothing is to be done.
pub fn meta_outcome() -> (r: ProbeOutcome)
    ensures
        r.deep_view() == (OutcomeModel {
            result: ResultModel::Passed { duration_ms: 0 },
            attempts: Seq::empty(),
            matched_lines: Seq::empty(),
            generation: u64::MAX,
        }),
{
    ProbeOutcome::immediate(ProbeResult::Passed { duration_ms: 0 })
}

} // verus!
