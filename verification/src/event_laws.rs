//! What events say, and what the answers, the addresses and the lines for a terminal say.
use crate::cli::{
    graph_address, graph_lines, heading, padded, post_address, probe_line, service_lines,
    services_lines, status_address, target_line,
};
use crate::config::ProbeConfigModel;
use crate::error::ErrorModel;
use crate::events::EventModel;
use crate::json::JsonModel;
use crate::model::{PendingModel, RedModel, StateModel};
use crate::routes::{failed_response, status_of};
use crate::runtime::TargetStateModel;
use crate::text::{decimal, joined, Str};
use crate::view_laws::says;
use vstd::prelude::*;

verus! {

proof fn lemma_says(list: Seq<(Str, JsonModel)>, i: int)
    requires
        0 <= i < list.len(),
    ensures
        says(JsonModel::Object(list), list[i].0, list[i].1),
{
    let j = JsonModel::Object(list);
    assert(j->Object_0[i] == (list[i].0, list[i].1));
}

/// Whether an object tells a text under a name, or null where there is none.
pub open spec fn says_or_null(j: JsonModel, name: Str, v: Option<Str>) -> bool {
    match v {
        Some(s) => says(j, name, JsonModel::Text(s)),
        None => says(j, name, JsonModel::Null),
    }
}

/// Whether an object tells a number under a name, or null where there is none.
pub open spec fn counts_or_null(j: JsonModel, name: Str, v: Option<u64>) -> bool {
    match v {
        Some(n) => says(j, name, JsonModel::Num(n)),
        None => says(j, name, JsonModel::Null),
    }
}

/// The data of an event tell all that the event is about, each thing under its name.
pub proof fn law_event_data(e: EventModel)
    ensures
        ({
            let j = e.data();
            match e {
                EventModel::ServiceState { service, state, display_state, reason, .. } => {
                    &&& says(j, "service"@, JsonModel::Text(service))
                    &&& says(j, "state"@, JsonModel::Text(state.text()))
                    &&& says(j, "display_state"@, JsonModel::Text(display_state))
                    &&& says_or_null(j, "reason"@, reason)
                },
                EventModel::ProbeStateChange { probe, state, prev, display_state } => {
                    &&& says(j, "probe"@, JsonModel::Text(probe))
                    &&& says(j, "state"@, JsonModel::Text(state.text()))
                    &&& says(j, "prev"@, JsonModel::Text(prev.text()))
                    &&& says(j, "display_state"@, JsonModel::Text(display_state))
                    &&& says_or_null(j, "reason"@, state.reason())
                },
                EventModel::ProbeResult { probe, result, duration_ms, attempt, error, .. } => {
                    &&& says(j, "probe"@, JsonModel::Text(probe))
                    &&& says(j, "result"@, JsonModel::Text(result))
                    &&& counts_or_null(j, "duration_ms"@, duration_ms)
                    &&& says(j, "attempt"@, JsonModel::Num(attempt as u64))
                    &&& says_or_null(j, "error"@, error)
                },
                EventModel::TargetState { target, state, duration_ms, .. } => {
                    &&& says(j, "target"@, JsonModel::Text(target))
                    &&& says(j, "state"@, JsonModel::Text(state.text()))
                    &&& counts_or_null(j, "duration_ms"@, duration_ms)
                    &&& says_or_null(
                        j,
                        "reason"@,
                        match state {
                            TargetStateModel::Red { probes, .. } if probes.len() > 0 => Some(
                                probes[0].service + seq!['.'] + probes[0].probe,
                            ),
                            _ => None,
                        },
                    )
                },
                EventModel::OpStart { op, target_or_service } => {
                    &&& says(j, "op"@, JsonModel::Text(op))
                    &&& says(j, "scope"@, JsonModel::Text(target_or_service))
                },
                EventModel::OpComplete { op, target_or_service, result, duration_ms } => {
                    &&& says(j, "op"@, JsonModel::Text(op))
                    &&& says(j, "scope"@, JsonModel::Text(target_or_service))
                    &&& says(j, "result"@, JsonModel::Text(result))
                    &&& says(j, "duration_ms"@, JsonModel::Num(duration_ms))
                },
                EventModel::Message { text } => says(j, "text"@, JsonModel::Text(text)),
            }
        }),
{
    let list = e.data()->Object_0;
    lemma_says(list, 0);
    if list.len() > 1 {
        lemma_says(list, 1);
    }
    if list.len() > 2 {
        lemma_says(list, 2);
    }
    if list.len() > 3 {
        lemma_says(list, 3);
    }
    if list.len() > 4 {
        lemma_says(list, 4);
    }
}

/// The kinds of events are told apart. Both ends of an operation are of one kind.
pub proof fn law_event_kinds(e: EventModel)
    ensures
        e.category() == "service"@ <==> e is ServiceState,
        e.category() == "probe_state"@ <==> e is ProbeStateChange,
        e.category() == "probe"@ <==> e is ProbeResult,
        e.category() == "target"@ <==> e is TargetState,
        e.category() == "op"@ <==> e is OpStart || e is OpComplete,
        e.category() == "message"@ <==> e is Message,
{
    reveal_strlit("service");
    reveal_strlit("probe_state");
    reveal_strlit("probe");
    reveal_strlit("target");
    reveal_strlit("op");
    reveal_strlit("message");
    assert("service"@.len() == 7 && "message"@.len() == 7 && "service"@[0] == 's' && "message"@[0]
        == 'm');
    assert("probe_state"@.len() == 11 && "probe"@.len() == 5 && "target"@.len() == 6 && "op"@.len()
        == 2);
}

/// An event is less important if and only if it is an attempt of a check, or a probe that turned
/// red or pending just because of its service or of what it depends on.
pub proof fn law_event_levels(e: EventModel)
    ensures
        e.level() == "debug"@ <==> e is ProbeResult || (e matches EventModel::ProbeStateChange {
            state,
            ..
        } && ((state matches StateModel::Red(why) && !(why is ProbeFailed)) || (
        state matches StateModel::Pending(why) && why != PendingModel::Reprobing))),
        e.level() != "debug"@ ==> e.level() == "info"@,
{
    reveal_strlit("debug");
    reveal_strlit("info");
    assert("debug"@.len() == 5 && "info"@.len() == 4);
}

/// An event names what it is about.
pub proof fn law_event_about(e: EventModel)
    ensures
        match e {
            EventModel::ServiceState { service, .. } => e.entity() == service,
            EventModel::ProbeStateChange { probe, .. } => e.entity() == probe,
            EventModel::ProbeResult { probe, .. } => e.entity() == probe,
            EventModel::TargetState { target, .. } => e.entity() == target,
            EventModel::OpStart { target_or_service, .. } => e.entity() == target_or_service,
            EventModel::OpComplete { target_or_service, .. } => e.entity() == target_or_service,
            EventModel::Message { .. } => e.entity().len() == 0,
        },
{
}

/// The line of an event that is about something names it: in brackets at the start, and for an
/// operation behind its name. A message is told as it is.
pub proof fn law_event_line(e: EventModel)
    ensures
        e is ServiceState || e is ProbeStateChange || e is ProbeResult || e is TargetState
            ==> e.summary().len() >= e.entity().len() + 3 && e.summary().take(
            e.entity().len() as int + 3,
        ) == seq!['['] + e.entity() + seq![']', ' '],
        e matches EventModel::OpStart { op, .. } ==> e.summary() == op + " ["@ + e.entity() + "]"@,
        e matches EventModel::OpComplete { op, result, duration_ms, .. } ==> e.summary() == op
            + " ["@ + e.entity() + "] "@ + result + " "@ + decimal(duration_ms as nat) + "ms"@,
        e matches EventModel::Message { text } ==> e.summary() == text,
{
    reveal_strlit("[");
    reveal_strlit("] ");
    if e is ServiceState || e is ProbeStateChange || e is ProbeResult || e is TargetState {
        let n = e.entity().len() as int;
        assert(e.summary().take(n + 3) =~= seq!['['] + e.entity() + seq![']', ' ']);
    }
}

/// The line of a service or of a target ends with how it is shown, and with the reason if there is
/// one.
pub proof fn law_state_told(e: EventModel)
    ensures
        e matches EventModel::ServiceState { service, display_state, reason, .. } ==> e.summary().skip(
            service.len() as int + 3,
        ) == display_state + (match reason {
            Some(why) => ": "@ + why,
            None => Seq::empty(),
        }),
        e matches EventModel::TargetState { target, state, reason_override, .. }
            ==> e.summary().skip(target.len() as int + 3) == state.text() + (
        match reason_override {
            Some(why) => ": "@ + why,
            None => Seq::empty(),
        }),
        e matches EventModel::ProbeResult { probe, result, attempt, duration_ms, .. }
            ==> e.summary().skip(probe.len() as int + 3) == result + ": #"@ + decimal(
            attempt as nat,
        ) + (match duration_ms {
            Some(ms) => " "@ + decimal(ms as nat) + "ms"@,
            None => Seq::empty(),
        }),
{
    reveal_strlit("[");
    reveal_strlit("] ");
    match e {
        EventModel::ServiceState { service, display_state, reason, .. } => {
            let rest = e.summary().skip(service.len() as int + 3);
            match reason {
                Some(why) => assert(rest =~= display_state + (": "@ + why)),
                None => assert(rest =~= display_state + Seq::<char>::empty()),
            }
        },
        EventModel::TargetState { target, state, reason_override, .. } => {
            let rest = e.summary().skip(target.len() as int + 3);
            match reason_override {
                Some(why) => assert(rest =~= state.text() + (": "@ + why)),
                None => assert(rest =~= state.text() + Seq::<char>::empty()),
            }
        },
        EventModel::ProbeResult { probe, result, attempt, duration_ms, .. } => {
            let rest = e.summary().skip(probe.len() as int + 3);
            let more = match duration_ms {
                Some(ms) => " "@ + decimal(ms as nat) + "ms"@,
                None => Seq::<char>::empty(),
            };
            assert(rest =~= result + ": #"@ + decimal(attempt as nat) + more);
        },
        _ => {},
    }
}

/// More is told of an attempt: what was done, then what was wrong, then the lines that matched. Of
/// a service the red probe is told, of a probe what is behind its state, and of a target all
/// reasons.
pub proof fn law_event_details(e: EventModel)
    ensures
        match e {
            EventModel::ProbeResult { error, matched_lines, probe_detail, .. } => {
                let n: int = if probe_detail is Some {
                    1
                } else {
                    0
                };
                let m: int = if error is Some {
                    n + 1
                } else {
                    n
                };
                &&& e.detail().len() == m + matched_lines.len()
                &&& probe_detail matches Some(d) ==> e.detail()[0] == d
                &&& error matches Some(x) ==> e.detail()[n] == x
                &&& e.detail().skip(m) == matched_lines
            },
            EventModel::ServiceState { svc_detail, .. } => match svc_detail {
                Some(d) => e.detail() == seq![d],
                None => e.detail().len() == 0,
            },
            EventModel::ProbeStateChange { state, .. } => match state {
                StateModel::Red(RedModel::DepRed { dep }) => e.detail() == seq![dep.text()],
                StateModel::Pending(PendingModel::DepNotReady { dep }) => e.detail() == seq![
                    dep.text(),
                ],
                StateModel::Green => e.detail().len() == 0,
                _ => true,
            },
            EventModel::TargetState { extra_reasons, .. } => e.detail() == extra_reasons,
            _ => e.detail().len() == 0,
        },
{
    if let EventModel::ProbeResult { error, matched_lines, probe_detail, .. } = e {
        let n: int = if probe_detail is Some {
            1
        } else {
            0
        };
        let m: int = if error is Some {
            n + 1
        } else {
            n
        };
        assert(e.detail().skip(m) =~= matched_lines);
    }
}

/// The line for the log is the line of the event behind a mark of three letters, with all that
/// there is more to say behind it. The mark says what the event is about: a service, a probe, a
/// target or a command. A message has none.
pub proof fn law_log_line(e: EventModel)
    ensures
        e is ServiceState ==> e.log_line().take(3) == "svc"@,
        e is ProbeStateChange || e is ProbeResult ==> e.log_line().take(3) == "prb"@,
        e is TargetState ==> e.log_line().take(3) == "tgt"@,
        e is OpStart || e is OpComplete ==> e.log_line().take(3) == "cmd"@,
        e is Message ==> e.log_line().take(3) == "   "@,
        e.log_line().skip(4).take(e.summary().len() as int) == e.summary(),
        e.detail().len() == 0 ==> e.log_line().skip(4) == e.summary(),
        e.detail().len() > 0 ==> e.log_line().skip(4 + e.summary().len() as int) == " — "@ + joined(
            e.detail(),
            ", "@,
        ),
{
    reveal_strlit("svc");
    reveal_strlit("prb");
    reveal_strlit("tgt");
    reveal_strlit("cmd");
    reveal_strlit("   ");
    reveal_strlit(" ");
    let n = e.summary().len() as int;
    assert(e is ServiceState ==> e.log_line().take(3) =~= "svc"@);
    assert(e is ProbeStateChange || e is ProbeResult ==> e.log_line().take(3) =~= "prb"@);
    assert(e is TargetState ==> e.log_line().take(3) =~= "tgt"@);
    assert(e is OpStart || e is OpComplete ==> e.log_line().take(3) =~= "cmd"@);
    assert(e is Message ==> e.log_line().take(3) =~= "   "@);
    assert(e.log_line().skip(4).take(n) =~= e.summary());
    if e.detail().len() > 0 {
        assert(e.log_line().skip(4 + n) =~= " — "@ + joined(e.detail(), ", "@));
    } else {
        assert(e.log_line().skip(4) =~= e.summary());
    }
}

/// A reason is told with its cause behind it, where there is one.
pub proof fn law_reason_and_cause(red: RedModel, pending: PendingModel)
    ensures
        red.display() == red.short() + (match red.cause() {
            Some(c) => ": "@ + c,
            None => Seq::empty(),
        }),
        red matches RedModel::DepRed { dep } ==> red.cause() == Some(
            dep.service + seq!['.'] + dep.probe,
        ),
        red matches RedModel::ProbeFailed { error, duration_ms } ==> red.cause() == Some(
            error + " ("@ + decimal(duration_ms as nat) + "ms)"@,
        ),
        pending matches PendingModel::DepNotReady { dep } ==> pending.cause() == Some(
            dep.service + seq!['.'] + dep.probe,
        ) && pending.display() == "dep "@ + (dep.service + seq!['.'] + dep.probe)
            + pending.short().skip(3),
        pending matches PendingModel::DepRecovered { dep } ==> pending.cause() == Some(
            dep.service + seq!['.'] + dep.probe,
        ) && pending.display() == "dep "@ + (dep.service + seq!['.'] + dep.probe)
            + pending.short().skip(3),
        pending.cause() is None ==> pending.display() == pending.short(),
{
    reveal_strlit("dep ");
    reveal_strlit("dep not ready");
    reveal_strlit(" not ready");
    reveal_strlit("dep recovered");
    reveal_strlit(" recovered");
    assert("dep not ready"@.skip(3) =~= " not ready"@);
    assert("dep recovered"@.skip(3) =~= " recovered"@);
    reveal_strlit("probe failed: ");
    reveal_strlit("probe failed");
    reveal_strlit("dep red: ");
    reveal_strlit("dep red");
    reveal_strlit(": ");
    assert("probe failed: "@ =~= "probe failed"@ + ": "@);
    assert("dep red: "@ =~= "dep red"@ + ": "@);
    let tail = match red.cause() {
        Some(c) => ": "@ + c,
        None => Seq::<char>::empty(),
    };
    assert(red.display() =~= red.short() + tail);
}

/// The names of the reasons tell them apart, and those of the states of targets too.
pub proof fn law_reason_names(red: RedModel, pending: PendingModel, t: TargetStateModel)
    ensures
        red.short() == "probe failed"@ <==> red is ProbeFailed,
        red.short() == "dep red"@ <==> red is DepRed,
        red.short() == "stopped"@ <==> red is Stopped,
        red.short() == "container died"@ <==> red is ContainerDied,
        pending.short() == "dep recovered"@ <==> pending is DepRecovered,
        pending.short() == "dep not ready"@ <==> pending is DepNotReady,
        pending.short() == "container started"@ <==> pending is ContainerStarted,
        pending.short() == "reprobing"@ <==> pending is Reprobing,
        pending.short() == "unchecked"@ <==> pending is Unchecked,
        t.text() == "green"@ <==> t is Green,
        t.text() == "red"@ <==> t is Red,
        t.text() == "inactive"@ <==> t is Inactive,
{
    reveal_strlit("probe failed");
    reveal_strlit("dep red");
    reveal_strlit("stopped");
    reveal_strlit("container died");
    reveal_strlit("dep recovered");
    reveal_strlit("dep not ready");
    reveal_strlit("container started");
    reveal_strlit("reprobing");
    reveal_strlit("unchecked");
    reveal_strlit("green");
    reveal_strlit("red");
    reveal_strlit("inactive");
    assert("probe failed"@.len() == 12 && "dep red"@.len() == 7 && "stopped"@.len() == 7
        && "container died"@.len() == 14);
    assert("dep red"@[0] == 'd' && "stopped"@[0] == 's');
    assert("dep recovered"@.len() == 13 && "dep not ready"@.len() == 13 && "container started"@.len()
        == 17 && "reprobing"@.len() == 9 && "unchecked"@.len() == 9);
    assert("dep recovered"@[4] == 'r' && "dep not ready"@[4] == 'n' && "reprobing"@[0] == 'r'
        && "unchecked"@[0] == 'u');
    assert("green"@.len() == 5 && "red"@.len() == 3 && "inactive"@.len() == 8);
}

/// What is not found, and what conflicts with an operation in progress, have a status of their own.
/// Whatever went wrong is told as failed, with the message.
pub proof fn law_errors_answered(e: ErrorModel, text: Str)
    ensures
        status_of(e) == 404 <==> e is NotFound,
        status_of(e) == 409 <==> e is Conflict,
        status_of(e) == 500 <==> !(e is NotFound || e is Conflict),
        failed_response(text).error == Some(text),
        failed_response(text).result == "failed"@,
        failed_response(text).actions.started.len() == 0,
        failed_response(text).actions.restarted.len() == 0,
        failed_response(text).actions.stopped.len() == 0,
{
}

/// The kind of a check is told with its port or with what it looks for.
pub proof fn law_check_told(p: ProbeConfigModel)
    ensures
        p matches ProbeConfigModel::Tcp { port, .. } ==> p.display().skip(5) == decimal(
            port as nat,
        ),
        p matches ProbeConfigModel::Log { success, .. } ==> p.display().subrange(
            5,
            5 + success.len() as int,
        ) == success,
{
    reveal_strlit("tcp :");
    reveal_strlit("log \"");
    match p {
        ProbeConfigModel::Tcp { port, .. } => {
            assert(p.display().skip(5) =~= decimal(port as nat));
        },
        ProbeConfigModel::Log { success, .. } => {
            assert(p.display().subrange(5, 5 + success.len() as int) =~= success);
        },
        _ => {},
    }
}

/// Addresses begin with the host. A time limit is added to the address of an operation, and the
/// kind and the name to that of one thing.
pub proof fn law_addresses(host: Str, path: Str, t: u64, kind: Str, name: Str)
    ensures
        post_address(host, path, None) == host + path,
        post_address(host, path, Some(t)) == post_address(host, path, None) + "?timeout="@
            + decimal(t as nat),
        status_address(host, Some(kind), Some(name)) == status_address(host, None, None) + "/"@
            + kind + "/"@ + name,
        status_address(host, None, None) == host + "/api/status"@,
        graph_address(host, Some(name)) == graph_address(host, None) + "/target/"@ + name,
        graph_address(host, None) == host + "/api/graph"@,
{
    reveal_strlit("/api/status/");
    reveal_strlit("/api/status");
    reveal_strlit("/");
    reveal_strlit("/api/graph/target/");
    reveal_strlit("/api/graph");
    reveal_strlit("/target/");
    assert("/api/status/"@ =~= "/api/status"@ + "/"@);
    assert("/api/graph/target/"@ =~= "/api/graph"@ + "/target/"@);
    assert(status_address(host, Some(kind), Some(name)) =~= status_address(host, None, None) + "/"@
        + kind + "/"@ + name);
    assert(graph_address(host, Some(name)) =~= graph_address(host, None) + "/target/"@ + name);
}

/// A text that is filled up begins with the text, goes on with spaces, and is as long as the width
/// unless the text is longer.
pub proof fn law_padded(s: Str, width: nat)
    ensures
        padded(s, width).len() == (if s.len() < width {
            width
        } else {
            s.len()
        }),
        padded(s, width).take(s.len() as int) == s,
        forall|i: int|
            s.len() <= i < padded(s, width).len() ==> #[trigger] padded(s, width)[i] == ' ',
{
    assert(padded(s, width).take(s.len() as int) =~= s);
}

/// The lines of a service are its heading, one line for each of its probes in their order, one for
/// what it starts after if there is something, and an empty one.
pub proof fn law_service_lines(svc: JsonModel)
    ensures
        service_lines(svc)[0] == heading(svc),
        service_lines(svc).last().len() == 0,
        svc.member("probes"@) matches JsonModel::List(l) ==> {
            &&& service_lines(svc).len() >= l.len() + 2
            &&& forall|i: int|
                0 <= i < l.len() ==> service_lines(svc)[i + 1] == probe_line(#[trigger] l[i])
            &&& (svc.member("start_after"@) matches JsonModel::List(m) && m.len() > 0)
                <==> service_lines(svc).len() == l.len() + 3
        },
{
}

/// The lines of a graph hold the lines of each service, and of each target its line in their order
/// at the end.
pub proof fn law_graph_lines(body: JsonModel)
    ensures
        body.member("targets"@) matches JsonModel::List(l) ==> {
            &&& graph_lines(body).len() >= l.len() + 1
            &&& forall|i: int|
                0 <= i < l.len() ==> graph_lines(body)[graph_lines(body).len() - l.len() + i]
                    == target_line(#[trigger] l[i])
        },
        body.member("services"@) matches JsonModel::List(l) ==> {
            &&& graph_lines(body).len() >= services_lines(l).len() + 1
            &&& graph_lines(body).subrange(1, 1 + services_lines(l).len() as int)
                == services_lines(l)
        },
{
    if let JsonModel::List(l) = body.member("services"@) {
        assert(graph_lines(body).subrange(1, 1 + services_lines(l).len() as int)
            =~= services_lines(l));
    }
}

/// The lines of some services follow one another.
pub proof fn law_lines_follow(a: Seq<JsonModel>, b: Seq<JsonModel>)
    ensures
        services_lines(a + b) == services_lines(a) + services_lines(b),
        a.len() == 1 ==> services_lines(a) == service_lines(a[0]),
    decreases b.len(),
{
    if b.len() == 0 {
        assert(a + b =~= a);
        assert(services_lines(a) + services_lines(b) =~= services_lines(a));
    } else {
        law_lines_follow(a, b.drop_last());
        assert((a + b).drop_last() =~= a + b.drop_last());
        assert(services_lines(a + b) =~= services_lines(a) + services_lines(b));
    }
    if a.len() == 1 {
        assert(services_lines(a.drop_last()).len() == 0);
        assert(services_lines(a) =~= services_lines(a.drop_last()) + service_lines(a[0]));
        assert(services_lines(a) =~= service_lines(a[0]));
    }
}

/// Texts that are joined follow one another with the separator between them.
pub proof fn law_joined(a: Seq<Str>, b: Seq<Str>, sep: Str)
    requires
        a.len() > 0,
        b.len() > 0,
    ensures
        joined(a + b, sep) == joined(a, sep) + sep + joined(b, sep),
        a.len() == 1 ==> joined(a, sep) == a[0],
    decreases b.len(),
{
    assert((a + b).last() == b.last());
    assert((a + b).drop_last() =~= a + b.drop_last());
    if b.len() == 1 {
        assert(a + b.drop_last() =~= a);
        assert(b.last() == b[0]);
    } else {
        law_joined(a, b.drop_last(), sep);
        assert(joined(a + b, sep) =~= joined(a, sep) + sep + joined(b, sep));
    }
}

} // verus!
