//! What texts, tables and messages are made of.
use crate::config::ConfigModel;
use crate::converge::{failure_reason, failure_text, PipelineOutcome};
use crate::error::{no_service, no_target, ErrorModel};
use crate::graph::{cycle_error, first_unknown, start_edge};
use crate::json::{member_of, texts_among, JsonModel};
use crate::json_laws::found;
use crate::lifecycle::only_stopped;
use crate::model::{parse_ref, ServiceState};
use crate::ordered_map::{map_table, Table};
use crate::probe::{is_single, log_detail, tcp_detail, truncated, OutcomeModel, ResultModel};
use crate::probe_log::{event_lines, LogEvent};
use crate::reprobe::not_running;
use crate::start::{only_started, unmet_error};
use crate::text::{
    decimal, is_white, joined, split_at_first, trimmed, trimmed_end, trimmed_start, Str,
};
use vstd::prelude::*;

verus! {

proof fn lemma_trimmed_start(s: Str) -> (n: int)
    ensures
        0 <= n <= s.len(),
        trimmed_start(s) == s.skip(n),
        forall|i: int| 0 <= i < n ==> is_white(#[trigger] s[i]),
        n < s.len() ==> !is_white(s[n]),
    decreases s.len(),
{
    if s.len() > 0 && is_white(s[0]) {
        let rest = s.drop_first();
        let n = lemma_trimmed_start(rest);
        assert(rest.skip(n) =~= s.skip(n + 1));
        assert forall|i: int| 0 <= i < n + 1 implies is_white(#[trigger] s[i]) by {
            if i > 0 {
                assert(rest[i - 1] == s[i]);
            }
        }
        n + 1
    } else {
        assert(s.skip(0) =~= s);
        0
    }
}

proof fn lemma_trimmed_end(s: Str) -> (n: int)
    ensures
        0 <= n <= s.len(),
        trimmed_end(s) == s.take(n),
        forall|i: int| n <= i < s.len() ==> is_white(#[trigger] s[i]),
        n > 0 ==> !is_white(s[n - 1]),
    decreases s.len(),
{
    if s.len() > 0 && is_white(s.last()) {
        let front = s.drop_last();
        let n = lemma_trimmed_end(front);
        assert(front.take(n) =~= s.take(n));
        assert forall|i: int| n <= i < s.len() implies is_white(#[trigger] s[i]) by {
            if i < front.len() {
                assert(front[i] == s[i]);
            }
        }
        n
    } else {
        assert(s.take(s.len() as int) =~= s);
        s.len() as int
    }
}

/// A text that is trimmed is the part of it between the white space at its two ends: there is
/// nothing but white space around it, and none at its own ends.
pub proof fn law_trimmed(s: Str)
    ensures
        exists|a: int, b: int|
            #![trigger s.subrange(a, b)]
            0 <= a <= b <= s.len() && trimmed(s) == s.subrange(a, b) && (forall|i: int|
                0 <= i < a || b <= i < s.len() ==> is_white(#[trigger] s[i])),
        trimmed(s).len() > 0 ==> !is_white(trimmed(s)[0]) && !is_white(trimmed(s).last()),
{
    let a = lemma_trimmed_start(s);
    let t = trimmed_start(s);
    let n = lemma_trimmed_end(t);
    let b = a + n;
    assert(t.take(n) =~= s.subrange(a, b));
    assert forall|i: int| 0 <= i < a || b <= i < s.len() implies is_white(#[trigger] s[i]) by {
        if i >= b {
            assert(t[i - a] == s[i]);
        }
    }
    assert(trimmed(s) == s.subrange(a, b));
    if n > 0 {
        assert(t[0] == s[a]);
        assert(t[n - 1] == s[b - 1]);
    }
}

/// A text that is split at a character is made of the two parts with the character between them,
/// and the first part does not hold it. One that does not hold it is not split.
pub proof fn law_split(s: Str, c: char)
    ensures
        split_at_first(s, c) is Some <==> s.contains(c),
        split_at_first(s, c) matches Some((a, b)) ==> s == a + seq![c] + b && !a.contains(c),
{
    s.index_of_first_ensures(c);
    if let Some((a, b)) = split_at_first(s, c) {
        let i = s.index_of_first(c)->0;
        assert(s =~= a + seq![c] + b);
        if a.contains(c) {
            let j = choose|j: int| 0 <= j < a.len() && a[j] == c;
            assert(s[j] == c);
        }
    }
}

/// A name of a table that is given a value has it, all others have theirs, and a new name comes
/// last.
pub proof fn law_put<T>(t: Table<T>, k: Str, v: T, x: Str)
    ensures
        t.put(k, v).has(k),
        t.put(k, v).at(k) == v,
        x != k ==> t.put(k, v).has(x) == t.has(x) && t.put(k, v).at(x) == t.at(x),
        t.has(k) ==> t.put(k, v).keys == t.keys,
        !t.has(k) ==> t.put(k, v).keys == t.keys.push(k),
{
}

/// A table with other values has the same names in the same order, and each value is made of the
/// one that stood there.
pub proof fn law_map_table<A, B>(t: Table<A>, f: spec_fn(Str, A) -> B, k: Str)
    ensures
        map_table(t, f).keys == t.keys,
        map_table(t, f).has(k) == t.has(k),
        t.has(k) ==> map_table(t, f).at(k) == f(k, t.at(k)),
{
}

/// What an object tells under a name is the value of its first member that has the name, and null
/// where there is none.
pub proof fn law_member(list: Seq<(Str, JsonModel)>, name: Str)
    ensures
        match found(list, name) {
            Some(v) => member_of(list, name) == v,
            None => member_of(list, name) == JsonModel::Null,
        },
    decreases list.len(),
{
    if list.len() > 0 {
        let rest = list.drop_first();
        law_member(rest, name);
        lemma_found_front(list, name);
    }
}

proof fn lemma_found_front(list: Seq<(Str, JsonModel)>, name: Str)
    requires
        list.len() > 0,
    ensures
        found(list, name) == (if list[0].0 == name {
            Some(list[0].1)
        } else {
            found(list.drop_first(), name)
        }),
    decreases list.len(),
{
    if list.len() == 1 {
        assert(list.drop_last() =~= Seq::<(Str, JsonModel)>::empty());
        assert(list.drop_first() =~= Seq::<(Str, JsonModel)>::empty());
        assert(found(list.drop_last(), name) is None);
    } else {
        lemma_found_front(list.drop_last(), name);
        assert(list.drop_last().drop_first() =~= list.drop_first().drop_last());
        assert(list.drop_first().last() == list.last());
    }
}

/// Of some values the texts are taken, in their order, and no others.
pub proof fn law_texts_among(a: Seq<JsonModel>, j: JsonModel)
    ensures
        texts_among(Seq::empty()).len() == 0,
        texts_among(a.push(j)) == (match j {
            JsonModel::Text(s) => texts_among(a).push(s),
            _ => texts_among(a),
        }),
{
    assert(a.push(j).drop_last() =~= a);
}

/// What cannot be found is named in the message.
pub proof fn law_not_found_named(name: Str)
    ensures
        no_service(name) matches ErrorModel::NotFound(m) && m.subrange(
            9,
            9 + name.len() as int,
        ) == name,
        no_target(name) matches ErrorModel::NotFound(m) && m.subrange(8, 8 + name.len() as int)
            == name,
        no_service(name) != no_target(name),
{
    reveal_strlit("service '");
    reveal_strlit("target '");
    let m = no_service(name)->NotFound_0;
    let n = no_target(name)->NotFound_0;
    assert(m.subrange(9, 9 + name.len() as int) =~= name);
    assert(n.subrange(8, 8 + name.len() as int) =~= name);
    assert(m[0] == 's' && n[0] == 't');
}

/// The message of an error ends with what went wrong.
pub proof fn law_error_messages(e: ErrorModel)
    ensures
        match e {
            ErrorModel::Config(m) => e.text().skip(14) == m,
            ErrorModel::Validation(m) => e.text().skip(18) == m,
            ErrorModel::Docker(m) => e.text().skip(14) == m,
            ErrorModel::Operation(m) => e.text().skip(17) == m,
            ErrorModel::Conflict(m) => e.text().skip(10) == m,
            ErrorModel::NotFound(m) => e.text().skip(11) == m,
            ErrorModel::Timeout => e.text() == "operation timed out"@,
        },
{
    reveal_strlit("config error: ");
    reveal_strlit("validation error: ");
    reveal_strlit("docker error: ");
    reveal_strlit("operation error: ");
    reveal_strlit("conflict: ");
    reveal_strlit("not found: ");
    match e {
        ErrorModel::Config(m) => assert(e.text().skip(14) =~= m),
        ErrorModel::Validation(m) => assert(e.text().skip(18) =~= m),
        ErrorModel::Docker(m) => assert(e.text().skip(14) =~= m),
        ErrorModel::Operation(m) => assert(e.text().skip(17) =~= m),
        ErrorModel::Conflict(m) => assert(e.text().skip(10) =~= m),
        ErrorModel::NotFound(m) => assert(e.text().skip(11) =~= m),
        ErrorModel::Timeout => {},
    }
}

/// A start that is refused tells all that it waits for.
pub proof fn law_refused_start_told(lines: Seq<Str>)
    ensures
        unmet_error(lines) matches ErrorModel::Operation(m) && m.subrange(
            27,
            27 + joined(lines, ", "@).len() as int,
        ) == joined(lines, ", "@),
{
    reveal_strlit("start_after not satisfied: ");
    let m = unmet_error(lines)->Operation_0;
    let what = joined(lines, ", "@);
    assert(m.subrange(27, 27 + what.len() as int) =~= what);
}

/// A service that does not run is not checked: that is told with its name and its state, and
/// nothing was done.
pub proof fn law_not_running_told(name: Str, state: ServiceState)
    ensures
        ({
            let r = not_running(name, state);
            &&& r.result == "failed"@
            &&& r.error matches Some(m) && m.subrange(9, 9 + name.len() as int) == name
                && m.subrange(
                14 + name.len() as int,
                14 + name.len() as int + state.text().len() as int,
            ) == state.text()
            &&& r.actions.started.len() == 0
            &&& r.actions.restarted.len() == 0
            &&& r.actions.stopped.len() == 0
            &&& r.probes.keys.len() == 0
            &&& r.targets.keys.len() == 0
        }),
{
    reveal_strlit("service '");
    reveal_strlit("' is ");
    let m = not_running(name, state).error->0;
    let n = name.len() as int;
    assert(m.subrange(9, 9 + n) =~= name);
    assert(m.subrange(14 + n, 14 + n + state.text().len() as int) =~= state.text());
}

/// A start alone tells the service as started, and a stop alone as stopped.
pub proof fn law_single_actions(name: Str)
    ensures
        only_started(name).started == seq![name],
        only_started(name).restarted.len() == 0,
        only_started(name).stopped.len() == 0,
        only_started(name).start_errors.keys.len() == 0,
        only_stopped(name).stopped == seq![name],
        only_stopped(name).started.len() == 0,
        only_stopped(name).restarted.len() == 0,
        only_stopped(name).start_errors.keys.len() == 0,
{
}

/// The outcome of one attempt has that attempt: it went well if the check did, took as long, and
/// has its error.
pub proof fn law_single_attempt(o: OutcomeModel, result: ResultModel, detail: Str)
    requires
        is_single(o, result, detail),
    ensures
        o.result == result,
        o.attempts.len() == 1,
        o.attempts[0].attempt == 1,
        o.attempts[0].detail == detail,
        match result {
            ResultModel::Passed { duration_ms } => o.attempts[0].ok && o.attempts[0].elapsed_ms
                == duration_ms && o.attempts[0].error is None,
            ResultModel::Failed { error, duration_ms } => !o.attempts[0].ok
                && o.attempts[0].elapsed_ms == duration_ms && o.attempts[0].error == Some(error),
        },
{
}

/// The name of a check tells the port, or the start of what it looks for.
pub proof fn law_check_names(port: u16, success: Str)
    ensures
        tcp_detail(port).skip(5) == decimal(port as nat),
        log_detail(success).subrange(5, 5 + truncated(success, 40).len() as int) == truncated(
            success,
            40,
        ),
{
    reveal_strlit("tcp :");
    reveal_strlit("log \"");
    assert(tcp_detail(port).skip(5) =~= decimal(port as nat));
    let t = truncated(success, 40);
    assert(log_detail(success).subrange(5, 5 + t.len() as int) =~= t);
}

/// A line of a log that is followed is looked at alone, and there is none where the log ends.
pub proof fn law_lines_of_event(e: LogEvent)
    ensures
        e matches LogEvent::Line(line) ==> event_lines(e) == seq![line@],
        !(e is Line) ==> event_lines(e).len() == 0,
{
}

/// Why a target was not brought to green is told: the time was up, a service failed for good, or
/// nothing more could be done. Services that could not be started are all named.
pub proof fn law_failure_told(outcome: Option<PipelineOutcome>, errors: Table<Str>)
    ensures
        failure_reason(outcome) == "timeout"@ <==> outcome is None,
        failure_reason(outcome) == "restart_on_fail=false service has red probes"@ <==> outcome
            == Some(PipelineOutcome::TerminalFailure),
        failure_reason(outcome) == "no progress possible"@ <==> outcome == Some(
            PipelineOutcome::NoProgress,
        ),
        errors.keys.len() == 0 ==> failure_text(outcome, errors) == failure_reason(outcome),
        errors.keys.len() > 0 ==> failure_text(outcome, errors) == failure_reason(outcome)
            + "; failed to start: "@ + joined(errors.keys, ", "@),
{
    reveal_strlit("timeout");
    reveal_strlit("restart_on_fail=false service has red probes");
    reveal_strlit("no progress possible");
    reveal_strlit("target not ready");
    assert("timeout"@.len() == 7 && "no progress possible"@.len() == 20 && "target not ready"@.len()
        == 16);
    assert("restart_on_fail=false service has red probes"@.len() == 44);
}

/// What a service starts after is wrong if it is no reference, or if it names a service that is not
/// there. Then the message names it.
pub proof fn law_wrong_start_told(c: ConfigModel, svc: Str, dep: Str)
    ensures
        start_edge(c, svc, dep) is Ok <==> (parse_ref(dep) matches Some(r) && c.services.has(
            r.service,
        )),
        parse_ref(dep) is None ==> (start_edge(c, svc, dep) matches Err(m) && m.skip(
            m.len() - dep.len(),
        ) == dep),
        (parse_ref(dep) matches Some(r) && !c.services.has(r.service)) ==> (start_edge(
            c,
            svc,
            dep,
        ) matches Err(m) && m.subrange(9, 9 + parse_ref(dep)->0.service.len() as int) == parse_ref(
            dep,
        )->0.service),
{
    reveal_strlit("service '");
    reveal_strlit("invalid probe reference in start_after: ");
    if let Err(m) = start_edge(c, svc, dep) {
        match parse_ref(dep) {
            None => assert(m.skip(m.len() - dep.len()) =~= dep),
            Some(r) => assert(m.subrange(9, 9 + r.service.len() as int) =~= r.service),
        }
    }
}

/// The first name that is unknown is one of some names that is not among those that are known, and
/// those before it are.
pub proof fn law_first_unknown(all: Seq<Str>, names: Seq<Str>)
    ensures
        match first_unknown(all, names) {
            Some(x) => exists|i: int|
                0 <= i < names.len() && #[trigger] names[i] == x && !all.contains(names[i])
                    && forall|j: int| 0 <= j < i ==> all.contains(#[trigger] names[j]),
            None => forall|i: int| 0 <= i < names.len() ==> all.contains(#[trigger] names[i]),
        },
    decreases names.len(),
{
    if names.len() > 0 {
        let front = names.drop_last();
        let n = names.len() - 1;
        law_first_unknown(all, front);
        match first_unknown(all, front) {
            Some(x) => {
                let i = choose|i: int|
                    0 <= i < front.len() && #[trigger] front[i] == x && !all.contains(front[i])
                        && forall|j: int| 0 <= j < i ==> all.contains(#[trigger] front[j]);
                assert(names[i] == x);
                assert forall|j: int| 0 <= j < i implies all.contains(#[trigger] names[j]) by {
                    assert(front[j] == names[j]);
                }
            },
            None => {
                assert forall|j: int| 0 <= j < n implies all.contains(#[trigger] names[j]) by {
                    assert(front[j] == names[j]);
                }
                assert(names[n] == names.last());
            },
        }
    }
}

/// The error of a cycle names what lies on it.
pub proof fn law_cycle_named(what: Str, name: Str)
    ensures
        cycle_error(what, name) matches ErrorModel::Validation(m) && m.subrange(
            what.len() as int,
            (what.len() + name.len()) as int,
        ) == name,
{
    let m = cycle_error(what, name)->Validation_0;
    assert(m.subrange(what.len() as int, (what.len() + name.len()) as int) =~= name);
}

} // verus!
