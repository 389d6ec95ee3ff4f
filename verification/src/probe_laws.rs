//! What holds of checks: they do what is configured, and their answers decide.
use crate::config::{restarts, DefaultsConfig, ProbeConfigModel};
use crate::docker::{info_of, log_since_of, state_by, ContainerInfo};
use crate::duration::{all_digits, digits_value, duration_of, is_digit, number_of, Duration};
use crate::model::ServiceState;
use crate::probe::{
    connection_result, retry_plan, single_plan, text_bytes, truncated, ConnectionModel, PlanModel,
    ResultModel,
};
use crate::probe_log::{
    followed, followed_lines, hits, law_last_match_wins, optional_hits, pattern_error,
    pattern_matches, scan, scan_result, scanned, LogEvent,
};
use crate::probe_tcp::timed_out;
use crate::text::{decimal, digit, ends_with, is_white, trimmed, Str};
use vstd::prelude::*;

verus! {

/// Whether a time is the shorter of two.
pub open spec fn is_shorter_of(t: Duration, a: Duration, b: Duration) -> bool {
    t.millis <= a.millis && t.millis <= b.millis && (t.millis == a.millis || t.millis == b.millis)
}

/// Whether a plan connects to a port of the host that is configured, or else of the service.
pub open spec fn connects_to(p: PlanModel, service: Str, host: Option<Str>, port: u16) -> bool {
    p matches PlanModel::Tcp { host: h, port: q, .. } && q == port && (host matches Some(own) ==> h
        == own) && (host is None ==> h == service)
}

/// Whether a plan searches the log for the patterns that are configured.
pub open spec fn searches_for(p: PlanModel, success: Str, failure: Option<Str>) -> bool {
    p matches PlanModel::Log { success: s, failure: f, .. } && s == success && f == failure
}

/// What is done to check a probe is what its configuration says, whether it is checked once or
/// until its time is up: a port of the configured host, or else of the service, or just the
/// configured patterns in the log. A repeated check takes as long as it may itself, or as is
/// left. A single one connects for five seconds at most, and looks at what is logged already.
pub proof fn law_check_as_configured(service: Str, c: ProbeConfigModel, timeout: Duration)
    ensures
        ({
            let again = retry_plan(service, c, timeout);
            let once = single_plan(service, c, timeout);
            match c {
                ProbeConfigModel::Tcp { host, port, timeout: own } => {
                    &&& connects_to(again, service, host, port)
                    &&& connects_to(once, service, host, port)
                    &&& is_shorter_of(again->Tcp_timeout, own, timeout)
                    &&& is_shorter_of(once->Tcp_timeout, timeout, Duration { millis: 5000 })
                },
                ProbeConfigModel::Log { success, failure, timeout: own } => {
                    &&& searches_for(again, success, failure)
                    &&& searches_for(once, success, failure)
                    &&& is_shorter_of(again->Log_timeout, own, timeout)
                    &&& again->Log_follow
                    &&& once->Log_timeout.millis == 0
                    &&& !once->Log_follow
                },
                ProbeConfigModel::Meta => again is Nothing && once is Nothing,
            }
        }),
{
}

/// Whether a log line matches the pattern for failure. One that is missing or wrong matches none.
pub open spec fn tells_failure(failure: Option<Str>, line: Str) -> bool {
    failure matches Some(p) && pattern_error(p) is None && pattern_matches(p, line)
}

/// The last line of a log that matches a pattern decides on a check: it succeeds if and only if
/// that line matches the pattern for success, and the line is the last one that is told.
pub proof fn law_last_line_decides(
    success: Str,
    failure: Option<Str>,
    lines: Seq<Str>,
    i: int,
    follow: bool,
    ms: u64,
)
    requires
        pattern_error(success) is None,
        0 <= i < lines.len(),
        pattern_matches(success, lines[i]) || tells_failure(failure, lines[i]),
        forall|j: int|
            i < j < lines.len() ==> !pattern_matches(success, #[trigger] lines[j])
                && !tells_failure(failure, lines[j]),
    ensures
        scanned(success, failure, lines) matches Ok((last, matched)) && {
            &&& matched.len() > 0
            &&& matched.last() == trimmed(lines[i])
            &&& scan_result(last, follow, ms) matches Some(r) && (r is Passed <==> pattern_matches(
                success,
                lines[i],
            ))
        },
{
    let s = hits(success, lines);
    let f = optional_hits(failure, lines);
    assert forall|j: int| i < j < lines.len() implies !s[j] && !f[j] by {
        assert(!pattern_matches(success, lines[j]));
    }
    law_last_match_wins(lines, s, f, i);
    lemma_last_told(lines, s, f, i);
}

proof fn lemma_last_told(lines: Seq<Str>, success: Seq<bool>, failure: Seq<bool>, i: int)
    requires
        0 <= i < lines.len(),
        success[i] || failure[i],
        forall|j: int| i < j < lines.len() ==> !success[j] && !failure[j],
    ensures
        scan(lines, success, failure).1.len() > 0,
        scan(lines, success, failure).1.last() == trimmed(lines[i]),
    decreases lines.len(),
{
    if i < lines.len() - 1 {
        lemma_last_told(lines.drop_last(), success, failure, i);
    }
}

/// Where no line of a log matches a pattern, no line is told, and a single check fails. One that
/// follows the log goes on.
pub proof fn law_nothing_matches(
    success: Str,
    failure: Option<Str>,
    lines: Seq<Str>,
    follow: bool,
    ms: u64,
)
    requires
        pattern_error(success) is None,
        forall|j: int|
            0 <= j < lines.len() ==> !pattern_matches(success, #[trigger] lines[j])
                && !tells_failure(failure, lines[j]),
    ensures
        scanned(success, failure, lines) matches Ok((last, matched)) && {
            &&& matched.len() == 0
            &&& !follow ==> (scan_result(last, follow, ms) matches Some(r) && r is Failed)
            &&& follow ==> scan_result(last, follow, ms) is None
        },
{
    let s = hits(success, lines);
    let f = optional_hits(failure, lines);
    assert forall|j: int| 0 <= j < lines.len() implies !s[j] && !f[j] by {
        assert(!pattern_matches(success, lines[j]));
    }
    law_last_match_wins(lines, s, f, -1);
    lemma_none_told(lines, s, f);
}

proof fn lemma_none_told(lines: Seq<Str>, success: Seq<bool>, failure: Seq<bool>)
    requires
        forall|j: int| 0 <= j < lines.len() ==> !success[j] && !failure[j],
    ensures
        scan(lines, success, failure).1.len() == 0,
    decreases lines.len(),
{
    if lines.len() > 0 {
        lemma_none_told(lines.drop_last(), success, failure);
    }
}

/// A check with a pattern for success that is wrong fails.
pub proof fn law_wrong_pattern_fails(success: Str, failure: Option<Str>, lines: Seq<Str>)
    ensures
        scanned(success, failure, lines) is Err <==> pattern_error(success) is Some,
        scanned(success, failure, lines) matches Err(r) ==> r is Failed,
{
}

/// A check that follows a log ends with the first line that matches a pattern, which is told: it
/// fails if the line matches the one for failure. It fails as well where the log ends or cannot
/// be read.
pub proof fn law_next_line_decides(
    event: LogEvent,
    is_success: bool,
    is_failure: bool,
    matched: Seq<Str>,
    ms: u64,
)
    ensures
        ({
            let r = followed(event, is_success, is_failure, ms);
            let after = followed_lines(matched, event, is_success, is_failure);
            match event {
                LogEvent::Line(line) => {
                    &&& r is None <==> !is_success && !is_failure
                    &&& r matches Some(x) ==> (x is Passed <==> !is_failure)
                    &&& r is Some ==> after == matched.push(trimmed(line@))
                    &&& r is None ==> after == matched
                },
                _ => r matches Some(x) && x is Failed && after == matched,
            }
        }),
{
}

/// A connection that was made is a success, and all else is a failure. The time that it took is
/// told.
pub proof fn law_connection_decides(c: ConnectionModel, ms: u64)
    ensures
        connection_result(c, ms) is Passed <==> c is Open,
        match connection_result(c, ms) {
            ResultModel::Passed { duration_ms } => duration_ms == ms,
            ResultModel::Failed { error, duration_ms } => duration_ms == ms && (
            c matches ConnectionModel::Refused(e) ==> error == e),
        },
{
}

/// A check whose time is up fails, with all of its attempts.
pub proof fn law_time_up_fails(
    port: u16,
    attempt: u32,
    attempts: Seq<crate::probe::AttemptModel>,
    ms: u64,
)
    ensures
        timed_out(port, attempt, attempts, ms).result is Failed,
        timed_out(port, attempt, attempts, ms).result->Failed_duration_ms == ms,
        timed_out(port, attempt, attempts, ms).attempts == attempts,
{
}

/// The start of a text that is shown is the longest that takes at most so many bytes: it is a
/// start of the text, it is not too long, and with one more character it would be.
pub proof fn law_truncated(s: Str, max: int)
    requires
        max >= 0,
    ensures
        ({
            let t = truncated(s, max);
            &&& t.len() <= s.len()
            &&& t == s.take(t.len() as int)
            &&& text_bytes(t) <= max
            &&& t.len() < s.len() ==> text_bytes(s.take(t.len() as int + 1)) > max
        }),
    decreases s.len(),
{
    if s.len() > 0 && text_bytes(s) > max {
        let front = s.drop_last();
        law_truncated(front, max);
        let t = truncated(front, max);
        assert(front.take(t.len() as int) =~= s.take(t.len() as int));
        if t.len() < front.len() {
            assert(front.take(t.len() as int + 1) =~= s.take(t.len() as int + 1));
        } else {
            assert(s.take(t.len() as int + 1) =~= s);
        }
    } else {
        assert(s.take(s.len() as int) =~= s);
    }
}

/// A container that runs makes its service run. One that does not, and ended with an error,
/// makes it crashed, and all others make it stopped.
pub proof fn law_state_of_container(info: Option<ContainerInfo>)
    ensures
        state_by(info) == ServiceState::Running <==> (info matches Some(i) && i.running),
        state_by(info) == ServiceState::Crashed <==> (info matches Some(i) && !i.running
            && i.exit_code != 0),
        info matches Some(i) ==> log_since_of(info) == i.started_at,
        info is None ==> log_since_of(info) == 0,
{
}

/// What is known of a container is kept, and what is not known counts as not running, as an exit
/// without an error and as no time.
pub proof fn law_container_known(running: bool, exit_code: i64, started_at: i64)
    ensures
        info_of(Some(running), Some(exit_code), Some(started_at)) == (ContainerInfo {
            running,
            exit_code,
            started_at,
        }),
        !info_of(None, Some(exit_code), Some(started_at)).running,
        info_of(Some(running), None, Some(started_at)).exit_code == 0,
        info_of(Some(running), Some(exit_code), None).started_at == 0,
{
}

/// A service says itself whether it is restarted. If it does not, the default holds.
pub proof fn law_own_word_first(own: bool, defaults: DefaultsConfig)
    ensures
        restarts(Some(own), defaults) == own,
        restarts(None, defaults) == defaults.restart_on_fail,
{
}

proof fn lemma_digit(n: nat)
    requires
        n < 10,
    ensures
        is_digit(digit(n)),
        (digit(n) as u32) - ('0' as u32) == n,
        !is_white(digit(n)),
        digit(n) != '+',
{
}

/// A number is read back from how it is written.
pub proof fn law_number_reads_back(n: u64)
    ensures
        number_of(decimal(n as nat)) == Some(n),
{
    lemma_decimal(n as nat);
}

proof fn lemma_decimal(n: nat)
    ensures
        decimal(n).len() > 0,
        all_digits(decimal(n)),
        digits_value(decimal(n)) == n,
        !is_white(decimal(n)[0]),
        !is_white(decimal(n).last()),
        decimal(n)[0] != '+',
    decreases n,
{
    let s = decimal(n);
    if n < 10 {
        lemma_digit(n);
        assert(s.drop_last() =~= Seq::<char>::empty());
        assert(digits_value(Seq::<char>::empty()) == 0);
        assert(s.last() == digit(n));
    } else {
        lemma_decimal(n / 10);
        lemma_digit(n % 10);
        let front = decimal(n / 10);
        assert(s.drop_last() =~= front);
        assert forall|i: int| 0 <= i < s.len() implies is_digit(#[trigger] s[i]) by {
            if i < front.len() {
                assert(is_digit(front[i]));
            }
        }
    }
}

proof fn lemma_untrimmed(s: Str)
    requires
        s.len() > 0,
        !is_white(s[0]),
        !is_white(s.last()),
    ensures
        trimmed(s) == s,
{
}

/// A number of milliseconds, seconds or minutes is read as such: a second has a thousand
/// milliseconds, and a minute sixty seconds.
pub proof fn law_units(n: u64)
    ensures
        duration_of(decimal(n as nat) + "ms"@) == Ok::<int, Str>(n as int),
        duration_of(decimal(n as nat) + "s"@) == Ok::<int, Str>(n * 1000),
        duration_of(decimal(n as nat) + "m"@) == Ok::<int, Str>(n * 60 * 1000),
{
    let d = decimal(n as nat);
    lemma_decimal(n as nat);
    lemma_untrimmed(d);
    law_number_reads_back(n);
    reveal_strlit("ms");
    reveal_strlit("s");
    reveal_strlit("m");
    assert(n * 1 == n);
    let (a, b, c) = (d + "ms"@, d + "s"@, d + "m"@);
    assert(!is_white('s') && !is_white('m'));
    lemma_untrimmed(a);
    lemma_untrimmed(b);
    lemma_untrimmed(c);
    assert(a.subrange(0, a.len() - 2) =~= d);
    assert(b.subrange(0, b.len() - 1) =~= d);
    assert(c.subrange(0, c.len() - 1) =~= d);
    assert(a.subrange(a.len() - 2, a.len() as int) =~= "ms"@);
    assert(b.subrange(b.len() - 1, b.len() as int) =~= "s"@);
    assert(c.subrange(c.len() - 1, c.len() as int) =~= "m"@);
    assert(!ends_with(b, "ms"@)) by {
        let e = b.subrange(b.len() - 2, b.len() as int);
        assert(e[0] == d.last());
        assert(is_digit(d[d.len() - 1]));
        assert("ms"@[0] == 'm');
    }
    assert(!ends_with(c, "ms"@)) by {
        let e = c.subrange(c.len() - 2, c.len() as int);
        assert(e[1] == 'm');
        assert("ms"@[1] == 's');
    }
    assert(!ends_with(c, "s"@)) by {
        let e = c.subrange(c.len() - 1, c.len() as int);
        assert(e[0] == 'm');
    }
}

/// A text without a unit is no duration.
pub proof fn law_unit_needed(s: Str)
    requires
        trimmed(s).len() == 0 || !(trimmed(s).last() == 's' || trimmed(s).last() == 'm'),
    ensures
        duration_of(s) is Err,
{
    let t = trimmed(s);
    reveal_strlit("ms");
    reveal_strlit("s");
    reveal_strlit("m");
    if t.len() > 0 {
        if ends_with(t, "ms"@) {
            assert(t.subrange(t.len() - 2, t.len() as int)[1] == t.last());
        }
        if ends_with(t, "s"@) {
            assert(t.subrange(t.len() - 1, t.len() as int)[0] == t.last());
        }
        if ends_with(t, "m"@) {
            assert(t.subrange(t.len() - 1, t.len() as int)[0] == t.last());
        }
    }
}

} // verus!
