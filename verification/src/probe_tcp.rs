//! The check of a port, attempt by attempt until it answers or the time is up.
use crate::duration::Duration;
use crate::probe::{
    shorter, tcp_detail, tcp_detail_text, AttemptModel, Connection, ConnectionModel,
    OutcomeModel, ProbeAttempt, ProbeOutcome, ProbeResult, ResultModel,
};
use crate::text::{cat, cat3, decimal, decimal_text, Str};
use vstd::prelude::*;

verus! {

/// A check of a port that goes on.
pub struct TcpProbe {
    pub port: u16,
    /// How many attempts have begun.
    pub attempt: u32,
    /// The attempts that have ended.
    pub attempts: Vec<ProbeAttempt>,
}

/// What is to be done next.
pub enum TcpStep {
    /// Connect, within a time.
    Connect(TcpProbe, Duration),
    /// Nothing more: this is the outcome.
    Done(ProbeOutcome),
}

/// What is to be done after an attempt.
pub enum TcpNext {
    /// Try again, after a time.
    Retry(TcpProbe),
    /// Nothing more: this is the outcome.
    Done(ProbeOutcome),
}

/// The outcome of a check whose time is up.
pub open spec fn timed_out(
    port: u16,
    attempt: u32,
    attempts: Seq<AttemptModel>,
    ms: u64,
) -> OutcomeModel {
    OutcomeModel {
        result: ResultModel::Failed {
            error: tcp_detail(port) + " timed out after "@ + decimal(attempt as nat) + " attempts"@,
            duration_ms: ms,
        },
        attempts,
        matched_lines: Seq::empty(),
        generation: u64::MAX,
    }
}

/// Whether an attempt that failed is recorded behind others.
pub open spec fn records(
    before: Seq<AttemptModel>,
    after: Seq<AttemptModel>,
    a: AttemptModel,
) -> bool {
    &&& after.len() == before.len() + 1
    &&& after == before.push(AttemptModel { ts: after.last().ts, ..a })
}

impl TcpProbe {
    /// A check that begins.
    pub fn new(port: u16) -> (r: Self)
        ensures
            r.port == port,
            r.attempt == 0,
            r.attempts.deep_view() == Seq::<AttemptModel>::empty(),
    {
        let r = TcpProbe { port, attempt: 0, attempts: Vec::new() };
        assert(r.attempts.deep_view() =~= Seq::<AttemptModel>::empty());
        r
    }

    /// The outcome once the time is up, `ms` milliseconds after the check began.
    pub fn give_up(self, ms: u64) -> (r: ProbeOutcome)
        ensures
            r.deep_view() == timed_out(self.port, self.attempt, self.attempts.deep_view(), ms),
    {
        let error = cat(
            cat3(
                tcp_detail_text(self.port).as_str(),
                " timed out after ",
                decimal_text(self.attempt as u64).as_str(),
            ).as_str(),
            " attempts",
        );
        let r = ProbeOutcome {
            result: ProbeResult::Failed { error, duration_ms: ms },
            attempts: self.attempts,
            matched_lines: Vec::new(),
            generation: u64::MAX,
        };
        assert(r.deep_view().matched_lines =~= Seq::<Str>::empty());
        r
    }

    /// Begins an attempt, with `remaining` time left, `ms` milliseconds after the check
    /// began. An attempt takes at most two seconds.
    pub fn begin(self, remaining: Duration, ms: u64) -> (r: TcpStep)
        requires
            self.attempt < u32::MAX,
        ensures
            match r {
                TcpStep::Connect(p, timeout) => remaining.millis > 0 && p.port == self.port
                    && p.attempt == self.attempt + 1 && p.attempts == self.attempts && timeout
                    == shorter(remaining, Duration { millis: 2000 }),
                TcpStep::Done(o) => remaining.millis == 0 && o.deep_view() == timed_out(
                    self.port,
                    (self.attempt + 1) as u32,
                    self.attempts.deep_view(),
                    ms,
                ),
            },
    {
        let p = TcpProbe { port: self.port, attempt: self.attempt + 1, attempts: self.attempts };
        if remaining.is_zero() {
            TcpStep::Done(p.give_up(ms))
        } else {
            TcpStep::Connect(p, remaining.min(Duration::from_secs(2)))
        }
    }

    /// Takes the answer to an attempt that began after `began_ms` and ended after `ended_ms`.
    pub fn answer(self, connection: Connection, began_ms: u64, ended_ms: u64) -> (r: TcpNext)
        ensures
            ({
                let before = self.attempts.deep_view();
                match r {
                    TcpNext::Done(o) => {
                        let after = o.deep_view().attempts;
                        &&& connection.deep_view() is Open
                        &&& o.deep_view() == (OutcomeModel {
                            result: ResultModel::Passed { duration_ms: ended_ms },
                            attempts: after,
                            matched_lines: Seq::empty(),
                            generation: u64::MAX,
                        })
                        &&& records(
                            before,
                            after,
                            AttemptModel {
                                attempt: self.attempt,
                                ok: true,
                                elapsed_ms: ended_ms,
                                error: None,
                                detail: tcp_detail(self.port),
                                ts: 0,
                            },
                        )
                    },
                    TcpNext::Retry(p) => {
                        &&& !(connection.deep_view() is Open)
                        &&& p.port == self.port
                        &&& p.attempt == self.attempt
                        &&& records(
                            before,
                            p.attempts.deep_view(),
                            AttemptModel {
                                attempt: self.attempt,
                                ok: false,
                                elapsed_ms: began_ms,
                                error: Some(
                                    match connection.deep_view() {
                                        ConnectionModel::Refused(e) => e,
                                        _ => "timeout"@,
                                    },
                                ),
                                detail: tcp_detail(self.port),
                                ts: 0,
                            },
                        )
                    },
                }
            }),
    {
        let detail = tcp_detail_text(self.port);
        let (port, attempt) = (self.port, self.attempt);
        let mut attempts = self.attempts;
        let ghost before = attempts.deep_view();
        match connection {
            Connection::Open => {
                let a = ProbeAttempt::new(attempt, true, ended_ms, None, detail);
                let ghost m = a.deep_view();
                attempts.push(a);
                assert(attempts.deep_view() =~= before.push(m));
                let o = ProbeOutcome {
                    result: ProbeResult::Passed { duration_ms: ended_ms },
                    attempts,
                    matched_lines: Vec::new(),
                    generation: u64::MAX,
                };
                assert(o.deep_view().matched_lines =~= Seq::<Str>::empty());
                assert(o.deep_view().attempts.last() == m);
                TcpNext::Done(o)
            },
            Connection::Refused(e) => {
                let a = ProbeAttempt::new(attempt, false, began_ms, Some(e), detail);
                let ghost m = a.deep_view();
                attempts.push(a);
                assert(attempts.deep_view() =~= before.push(m));
                assert(attempts.deep_view().last() == m);
                TcpNext::Retry(TcpProbe { port, attempt, attempts })
            },
            Connection::TimedOut => {
                let a = ProbeAttempt::new(
                    attempt,
                    false,
                    began_ms,
                    Some("timeout".to_owned()),
                    detail,
                );
                let ghost m = a.deep_view();
                attempts.push(a);
                assert(attempts.deep_view() =~= before.push(m));
                assert(attempts.deep_view().last() == m);
                TcpNext::Retry(TcpProbe { port, attempt, attempts })
            },
        }
    }
}

/// How long to wait before the next attempt: none, if the time is up.
pub fn pause(remaining: Duration, wait: Duration) -> (r: Option<Duration>)
    ensures
        r == (if remaining.millis == 0 {
            None
        } else {
            Some(shorter(wait, remaining))
        }),
{
    if remaining.is_zero() {
        None
    } else {
        Some(wait.min(remaining))
    }
}

} // verus!
