//! What the outcome of a check does to its probe.
use crate::apply::{
    apply_outcome, attempt_event, attempt_events, first_bad, first_waiting, judged, passed_state,
    take_on,
};
use crate::batch::{last_outcome, Progress};
use crate::events::EventModel;
use crate::graph::Layer;
use crate::model::{lemma_ref_text, parse_ref, PendingModel, RedModel, RefModel, StateModel};
use crate::names::{lemma_unseen_less, unseen};
use crate::ops::{report_changes, Report};
use crate::probe::{OutcomeModel, ResultModel};
use crate::propagate::{
    moved, pending_result, recovery_result, start_walk, visit_pending, visit_recovery, walk_pending,
    walk_recovery, ChangeModel, Walk,
};
use crate::propagate_laws::lemma_set_probe;
use crate::resolve::{hold, take_outcome, HeldModel};
use crate::round_laws::is_green;
use crate::runtime::{probe_at, red_at, set_probe, ProbeModel, ServicesModel};
use crate::text::Str;
use vstd::prelude::*;

verus! {

/// Whether a probe is missing or red.
pub open spec fn is_bad(s: ServicesModel, r: RefModel) -> bool {
    !(s.has(r.service) && s.at(r.service).probes.has(r.probe)) || s.at(r.service).probes.at(
        r.probe,
    ).state is Red
}

/// Whether a probe is there and awaits a check.
pub open spec fn is_waiting(s: ServicesModel, r: RefModel) -> bool {
    s.has(r.service) && s.at(r.service).probes.has(r.probe) && s.at(r.service).probes.at(
        r.probe,
    ).state is Pending
}

proof fn lemma_first_bad(s: ServicesModel, deps: Seq<RefModel>)
    ensures
        match first_bad(s, deps) {
            Some(d) => exists|i: int|
                0 <= i < deps.len() && #[trigger] deps[i] == d && is_bad(s, deps[i]) && forall|
                    j: int,
                |
                    0 <= j < i ==> !is_bad(s, #[trigger] deps[j]),
            None => forall|i: int| 0 <= i < deps.len() ==> !is_bad(s, #[trigger] deps[i]),
        },
    decreases deps.len(),
{
    if deps.len() > 0 {
        let front = deps.drop_last();
        lemma_first_bad(s, front);
        assert(forall|i: int| 0 <= i < front.len() ==> front[i] == deps[i]);
        match first_bad(s, front) {
            Some(d) => {
                let i = choose|i: int|
                    0 <= i < front.len() && #[trigger] front[i] == d && is_bad(s, front[i])
                        && forall|j: int| 0 <= j < i ==> !is_bad(s, #[trigger] front[j]);
                assert forall|j: int| 0 <= j < i implies !is_bad(s, #[trigger] deps[j]) by {
                    assert(front[j] == deps[j]);
                }
                assert(deps[i] == d);
            },
            None => {
                assert forall|j: int| 0 <= j < front.len() implies !is_bad(
                    s,
                    #[trigger] deps[j],
                ) by {
                    assert(!is_bad(s, front[j]));
                }
                let n = deps.len() - 1;
                assert(deps[n] == deps.last());
                if is_bad(s, deps[n]) {
                    assert(first_bad(s, deps) == Some(deps[n]));
                }
            },
        }
    }
}

proof fn lemma_first_waiting(s: ServicesModel, deps: Seq<RefModel>)
    ensures
        match first_waiting(s, deps) {
            Some(d) => exists|i: int|
                0 <= i < deps.len() && #[trigger] deps[i] == d && is_waiting(s, deps[i]) && forall|
                    j: int,
                |
                    0 <= j < i ==> !is_waiting(s, #[trigger] deps[j]),
            None => forall|i: int| 0 <= i < deps.len() ==> !is_waiting(s, #[trigger] deps[i]),
        },
    decreases deps.len(),
{
    if deps.len() > 0 {
        let front = deps.drop_last();
        lemma_first_waiting(s, front);
        assert(forall|i: int| 0 <= i < front.len() ==> front[i] == deps[i]);
        match first_waiting(s, front) {
            Some(d) => {
                let i = choose|i: int|
                    0 <= i < front.len() && #[trigger] front[i] == d && is_waiting(s, front[i])
                        && forall|j: int| 0 <= j < i ==> !is_waiting(s, #[trigger] front[j]);
                assert forall|j: int| 0 <= j < i implies !is_waiting(s, #[trigger] deps[j]) by {
                    assert(front[j] == deps[j]);
                }
                assert(deps[i] == d);
            },
            None => {
                assert forall|j: int| 0 <= j < front.len() implies !is_waiting(
                    s,
                    #[trigger] deps[j],
                ) by {
                    assert(!is_waiting(s, front[j]));
                }
                let n = deps.len() - 1;
                assert(deps[n] == deps.last());
                if is_waiting(s, deps[n]) {
                    assert(first_waiting(s, deps) == Some(deps[n]));
                }
            },
        }
    }
}

/// Whether a probe whose check succeeded is in the right state: green if all that it depends on is
/// green, red behind the first that is missing or red, and else pending behind the first that
/// awaits a check.
pub open spec fn rightly_passed(s: ServicesModel, deps: Seq<RefModel>, state: StateModel) -> bool {
    match state {
        StateModel::Green => forall|i: int|
            0 <= i < deps.len() ==> is_green(s, #[trigger] deps[i]),
        StateModel::Red(why) => exists|i: int|
            0 <= i < deps.len() && why == (RedModel::DepRed { dep: #[trigger] deps[i] }) && is_bad(
                s,
                deps[i],
            ) && forall|j: int| 0 <= j < i ==> !is_bad(s, #[trigger] deps[j]),
        StateModel::Pending(why) => (forall|i: int|
            0 <= i < deps.len() ==> !is_bad(s, #[trigger] deps[i])) && exists|i: int|
            0 <= i < deps.len() && why == (PendingModel::DepNotReady { dep: #[trigger] deps[i] })
                && is_waiting(s, deps[i]) && forall|j: int|
                0 <= j < i ==> !is_waiting(s, #[trigger] deps[j]),
    }
}

/// A probe whose check succeeded is green if all that it depends on is green, red behind the first
/// that is missing or red, and else pending behind the first that awaits a check.
pub proof fn law_passed_state(s: ServicesModel, deps: Seq<RefModel>)
    ensures
        rightly_passed(s, deps, passed_state(s, deps).0),
{
    lemma_first_bad(s, deps);
    lemma_first_waiting(s, deps);
    if first_bad(s, deps) is None && first_waiting(s, deps) is None {
        assert forall|i: int| 0 <= i < deps.len() implies is_green(s, #[trigger] deps[i]) by {
            assert(!is_bad(s, deps[i]));
            assert(!is_waiting(s, deps[i]));
        }
    }
}

spec fn not_told(changes: Seq<ChangeModel>, key: Str) -> bool {
    forall|i: int| 0 <= i < changes.len() ==> (#[trigger] changes[i]).0.text() != key
}

proof fn lemma_recovery_spares(g: Layer, w: Walk, from: Str, next: Seq<Str>, x: RefModel)
    requires
        w.visited.contains(x.text()),
        not_told(w.changes, x.text()),
    ensures
        probe_at(walk_recovery(g, w, from, next).services, x) == probe_at(w.services, x),
        not_told(walk_recovery(g, w, from, next).changes, x.text()),
    decreases unseen(g.nodes, w.visited), w.queue.len(), next.len(),
{
    if next.len() > 0 {
        let key = next[0];
        let v = visit_recovery(g, w, from, key);
        if !w.visited.contains(key) && g.nodes.contains(key) {
            lemma_unseen_less(g.nodes, w.visited, key);
            assert(v.visited == w.visited.push(key));
            let i = choose|i: int| 0 <= i < w.visited.len() && w.visited[i] == x.text();
            assert(v.visited[i] == x.text());
            if let Some(r) = parse_ref(key) {
                lemma_ref_text(key);
                if let Some(p) = probe_at(w.services, r) {
                    let state = StateModel::Pending(
                        PendingModel::DepRecovered { dep: parse_ref(from)->0 },
                    );
                    lemma_set_probe(w.services, r, moved(p, state));
                }
            }
        }
        lemma_recovery_spares(g, v, from, next.drop_first(), x);
    } else if w.queue.len() > 0 {
        lemma_recovery_spares(
            g,
            Walk { queue: w.queue.drop_first(), ..w },
            w.queue[0],
            g.next(w.queue[0]),
            x,
        );
    }
}

proof fn lemma_pending_spares(g: Layer, w: Walk, from: Str, next: Seq<Str>, x: RefModel)
    requires
        w.visited.contains(x.text()),
        not_told(w.changes, x.text()),
    ensures
        probe_at(walk_pending(g, w, from, next).services, x) == probe_at(w.services, x),
        not_told(walk_pending(g, w, from, next).changes, x.text()),
    decreases unseen(g.nodes, w.visited), w.queue.len(), next.len(),
{
    if next.len() > 0 {
        let key = next[0];
        let v = visit_pending(g, w, from, key);
        if !w.visited.contains(key) && g.nodes.contains(key) {
            lemma_unseen_less(g.nodes, w.visited, key);
            assert(v.visited == w.visited.push(key));
            let i = choose|i: int| 0 <= i < w.visited.len() && w.visited[i] == x.text();
            assert(v.visited[i] == x.text());
            if let Some(r) = parse_ref(key) {
                lemma_ref_text(key);
                if let Some(p) = probe_at(w.services, r) {
                    let state = crate::propagate::passed_on(from, w.red.contains(from));
                    lemma_set_probe(w.services, r, moved(p, state));
                }
            }
        }
        lemma_pending_spares(g, v, from, next.drop_first(), x);
    } else if w.queue.len() > 0 {
        lemma_pending_spares(
            g,
            Walk { queue: w.queue.drop_first(), ..w },
            w.queue[0],
            g.next(w.queue[0]),
            x,
        );
    }
}

proof fn lemma_report_spares(s: ServicesModel, changes: Seq<ChangeModel>, report: Report, key: Str)
    requires
        not_told(changes, key),
    ensures
        report_changes(s, changes, report).statuses.has(key) == report.statuses.has(key),
        report_changes(s, changes, report).statuses.at(key) == report.statuses.at(key),
    decreases changes.len(),
{
    if changes.len() > 0 {
        let front = changes.drop_last();
        assert forall|i: int| 0 <= i < front.len() implies (#[trigger] front[i]).0.text()
            != key by {
            assert(front[i] == changes[i]);
        }
        lemma_report_spares(s, front, report, key);
        assert(changes[changes.len() - 1].0.text() != key);
    }
}

/// A probe that takes on a state keeps it, whatever is passed on to others: it is in that state,
/// with the time that its check took and what is wrong, and the answer tells that.
proof fn lemma_taken_on(
    g: Layer,
    s: ServicesModel,
    report: Report,
    r: RefModel,
    state: StateModel,
    ms: u64,
    error: Option<Str>,
)
    requires
        probe_at(s, r) is Some,
    ensures
        ({
            let step = take_on(g, s, report, r, state, ms, error);
            let p = probe_at(s, r)->0;
            &&& probe_at(step.services, r) == Some(
                ProbeModel {
                    state,
                    prev_color: Some(p.state.color()),
                    last_probe_ms: Some(ms),
                    last_error: error,
                    ..p
                },
            )
            &&& step.report.statuses.has(r.text())
            &&& step.report.statuses.at(r.text()).state == state.text()
            &&& step.report.statuses.at(r.text()).prev == p.state.text()
            &&& step.report.statuses.at(r.text()).reason == state.reason()
            &&& step.report.statuses.at(r.text()).probe_ms == Some(ms)
            &&& step.report.statuses.at(r.text()).error == error
            &&& step.report.statuses.at(r.text()).logs is None
        }),
{
    let p = probe_at(s, r)->0;
    let prev = p.state;
    let now = ProbeModel {
        state,
        prev_color: Some(prev.color()),
        last_probe_ms: Some(ms),
        last_error: error,
        ..p
    };
    let next = set_probe(s, r, now);
    lemma_set_probe(s, r, now);
    let told = Report {
        events: report.events.push(
            crate::events::probe_changed(r, state, prev, state.text()),
        ),
        statuses: report.statuses.put(
            r.text(),
            crate::ops::StatusModel {
                state: state.text(),
                prev: prev.text(),
                reason: state.reason(),
                probe_ms: Some(ms),
                error,
                logs: None,
            },
        ),
    };
    let none = Seq::<ChangeModel>::empty();
    let a = start_walk(r.text(), false, next, none);
    assert(a.visited[0] == r.text());
    lemma_recovery_spares(g, a, Seq::empty(), Seq::empty(), r);
    let w = recovery_result(g, r.text(), next, none);
    lemma_report_spares(w.services, w.changes, told, r.text());
    let red = parse_ref(r.text()) is Some && red_at(next, parse_ref(r.text())->0);
    let b = start_walk(r.text(), red, next, none);
    assert(b.visited[0] == r.text());
    lemma_pending_spares(g, b, Seq::empty(), Seq::empty(), r);
    let v = pending_result(g, r.text(), next, none);
    lemma_report_spares(v.services, v.changes, told, r.text());
}

/// Whether an outcome comes in time: its service was neither started nor stopped since the check
/// was sent out, or that does not matter.
pub open spec fn in_time(s: ServicesModel, r: RefModel, o: OutcomeModel) -> bool {
    o.generation == u64::MAX || o.generation == s.at(r.service).generation
}

/// An outcome that comes in time decides on its probe. One that failed makes it red with the error
/// and the time that it took. One that passed makes it green, or red or pending behind what it
/// depends on. The time is kept, and the last log line that matched, if there is one. Nothing else
/// of the probe changes. The answer tells all of that.
pub proof fn law_outcome_decides(
    g: Layer,
    s: ServicesModel,
    report: Report,
    r: RefModel,
    o: OutcomeModel,
)
    requires
        probe_at(s, r) is Some,
        in_time(s, r, o),
    ensures
        ({
            let step = apply_outcome(g, s, report, r, o);
            let p = s.at(r.service).probes.at(r.probe);
            let key = r.service + seq!['.'] + r.probe;
            let status = step.report.statuses.at(key);
            probe_at(step.services, r) matches Some(q) && {
                &&& match o.result {
                    ResultModel::Passed { duration_ms } => {
                        &&& rightly_passed(s, p.depends_on, q.state)
                        &&& q.last_probe_ms == Some(duration_ms)
                        &&& q.last_error is None <==> q.state is Green
                    },
                    ResultModel::Failed { error, duration_ms } => {
                        &&& q.state == StateModel::Red(RedModel::ProbeFailed { error, duration_ms })
                        &&& q.last_probe_ms == Some(duration_ms)
                        &&& q.last_error == Some(error)
                    },
                }
                &&& q.last_log_match == (if o.matched_lines.len() > 0 {
                    Some(o.matched_lines.last())
                } else {
                    p.last_log_match
                })
                &&& q.depends_on == p.depends_on
                &&& q.probe_config == p.probe_config
                &&& q.probe_ref == p.probe_ref
                &&& step.report.statuses.has(key)
                &&& status.state == q.state.text()
                &&& status.prev == p.state.text()
                &&& status.reason == q.state.reason()
                &&& status.probe_ms == q.last_probe_ms
                &&& status.error == q.last_error
                &&& status.logs == (if o.matched_lines.len() > 0 {
                    Some(seq![o.matched_lines.last()])
                } else {
                    None
                })
            }
        }),
{
    let (state, ms, error) = judged(s, r, o);
    let told = Report { events: report.events + attempt_events(r, o), statuses: report.statuses };
    law_passed_state(s, probe_at(s, r)->0.depends_on);
    lemma_taken_on(g, s, told, r, state, ms, error);
    let taken = take_on(g, s, told, r, state, ms, error);
    let q = probe_at(taken.services, r)->0;
    if o.matched_lines.len() > 0 {
        lemma_set_probe(
            taken.services,
            r,
            ProbeModel { last_log_match: Some(o.matched_lines.last()), ..q },
        );
    }
}

/// An outcome that comes late, of a check from before its service was started or stopped, changes
/// nothing and is not in the answer. Its attempts are told.
pub proof fn law_late_outcome(
    g: Layer,
    s: ServicesModel,
    report: Report,
    r: RefModel,
    o: OutcomeModel,
)
    requires
        s.has(r.service),
        !in_time(s, r, o),
    ensures
        ({
            let step = apply_outcome(g, s, report, r, o);
            &&& step.services == s
            &&& step.report.statuses == report.statuses
            &&& step.report.events.len() == report.events.len() + o.attempts.len()
            &&& step.affected.len() == 0
        }),
{
}

/// Each attempt of a check is told: the probe, whether it went well, the time that it took, its
/// number, what is wrong, what was done and when. The last attempt tells the last log line that
/// matched.
pub proof fn law_attempts_told(r: RefModel, o: OutcomeModel, i: int)
    requires
        0 <= i < o.attempts.len(),
    ensures
        ({
            let a = o.attempts[i];
            attempt_events(r, o)[i] matches EventModel::ProbeResult {
                probe,
                result,
                duration_ms,
                attempt,
                error,
                matched_lines,
                probe_detail,
                ts,
            } && {
                &&& probe == r.service + seq!['.'] + r.probe
                &&& result == "ok"@ <==> a.ok
                &&& result == "fail"@ <==> !a.ok
                &&& duration_ms == Some(a.elapsed_ms)
                &&& attempt == a.attempt
                &&& error == a.error
                &&& probe_detail == Some(a.detail)
                &&& ts == a.ts
                &&& i < o.attempts.len() - 1 || o.matched_lines.len() == 0 ==> matched_lines.len()
                    == 0
                &&& i == o.attempts.len() - 1 && o.matched_lines.len() > 0 ==> matched_lines
                    == seq![o.matched_lines[o.matched_lines.len() - 1]]
            }
        }),
{
    reveal_strlit("ok");
    reveal_strlit("fail");
    assert("ok"@.len() != "fail"@.len());
    assert(attempt_events(r, o)[i] == attempt_event(r, o, i));
}

/// The outcome of a batch that counts for a key is the last one whose probe has that key.
pub proof fn law_last_outcome(batch: Seq<(RefModel, OutcomeModel)>, key: Str)
    ensures
        match last_outcome(batch, key) {
            Some(o) => exists|i: int|
                0 <= i < batch.len() && (#[trigger] batch[i]).1 == o && batch[i].0.service
                    + seq!['.'] + batch[i].0.probe == key && forall|j: int|
                    i < j < batch.len() ==> (#[trigger] batch[j]).0.text() != key,
            None => forall|j: int| 0 <= j < batch.len() ==> (#[trigger] batch[j]).0.text() != key,
        },
    decreases batch.len(),
{
    if batch.len() > 0 {
        let n = batch.len() - 1;
        let front = batch.drop_last();
        assert(batch[n] == batch.last());
        if batch[n].0.text() != key {
            law_last_outcome(front, key);
            match last_outcome(front, key) {
                Some(o) => {
                    let i = choose|i: int|
                        0 <= i < front.len() && (#[trigger] front[i]).1 == o && front[i].0.service
                            + seq!['.'] + front[i].0.probe == key && forall|j: int|
                            i < j < front.len() ==> (#[trigger] front[j]).0.text() != key;
                    assert(batch[i] == front[i]);
                    assert forall|j: int| i < j < batch.len() implies (
                    #[trigger] batch[j]).0.text() != key by {
                        if j < n {
                            assert(front[j] == batch[j]);
                        }
                    }
                },
                None => {
                    assert forall|j: int| 0 <= j < batch.len() implies (
                    #[trigger] batch[j]).0.text() != key by {
                        if j < n {
                            assert(front[j] == batch[j]);
                        }
                    }
                },
            }
        }
    }
}

/// An outcome that is held back is kept for its probe, in place of an earlier one for the same
/// probe. Those for other probes stay.
pub proof fn law_held_back(held: HeldModel, r: RefModel, o: OutcomeModel, x: (RefModel, OutcomeModel))
    ensures
        hold(held, r, o).contains((r, o)),
        x.0 != r ==> (hold(held, r, o).contains(x) <==> held.contains(x)),
    decreases held.len(),
{
    let after = hold(held, r, o);
    if held.len() == 0 {
        assert(after[0] == (r, o));
    } else if held[0].0 == r {
        assert(after[0] == (r, o));
        if held.contains(x) && x.0 != r {
            let i = choose|i: int| 0 <= i < held.len() && held[i] == x;
            assert(after[i] == x);
        }
        if after.contains(x) && x.0 != r {
            let i = choose|i: int| 0 <= i < after.len() && after[i] == x;
            assert(held[i] == x);
        }
    } else {
        let rest = held.drop_first();
        law_held_back(rest, r, o, x);
        let more = hold(rest, r, o);
        assert(after == seq![held[0]] + more);
        let i = choose|i: int| 0 <= i < more.len() && more[i] == (r, o);
        assert(after[i + 1] == (r, o));
        if held.contains(x) && x.0 != r {
            let j = choose|j: int| 0 <= j < held.len() && held[j] == x;
            if j == 0 {
                assert(after[0] == x);
            } else {
                assert(rest[j - 1] == x);
                let k = choose|k: int| 0 <= k < more.len() && more[k] == x;
                assert(after[k + 1] == x);
            }
        }
        if after.contains(x) && x.0 != r {
            let j = choose|j: int| 0 <= j < after.len() && after[j] == x;
            if j == 0 {
                assert(held[0] == x);
            } else {
                assert(more[j - 1] == x);
                let k = choose|k: int| 0 <= k < rest.len() && rest[k] == x;
                assert(held[k + 1] == x);
            }
        }
    }
}

/// An outcome that passed while not all that its probe depends on is green changes nothing yet: it
/// is held back.
pub proof fn law_passed_too_early(
    g: Layer,
    at: Progress,
    held: HeldModel,
    r: RefModel,
    o: OutcomeModel,
    i: int,
)
    requires
        probe_at(at.services, r) is Some,
        o.result is Passed,
        0 <= i < at.services.at(r.service).probes.at(r.probe).depends_on.len(),
        !is_green(at.services, at.services.at(r.service).probes.at(r.probe).depends_on[i]),
    ensures
        take_outcome(g, at, held, r, o).0 == at,
        take_outcome(g, at, held, r, o).1.contains((r, o)),
{
    law_held_back(held, r, o, (r, o));
    let deps = probe_at(at.services, r)->0.depends_on;
    assert(!crate::runtime::green_at(at.services, deps[i]));
}

} // verus!
