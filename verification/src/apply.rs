//! How the outcome of a check changes its probe, and what follows from that.
use crate::app_state::{AppModel, AppState};
use crate::events::{probe_changed, result_text, Event, EventModel};
use crate::graph::Layer;
use crate::model::{
    PendingModel, PendingReason, ProbeFailure, ProbeRef, ProbeState, RedModel, RedReason, RefModel,
    StateModel,
};
use crate::names::{with_names, NameSet};
use crate::ops::{
    emit_propagated_changes, report_changes, ProbeStatus, Report, StatusModel,
};
use crate::ordered_map::{OrderedMap, Table};
use crate::probe::{OutcomeModel, ProbeOutcome, ProbeResult, ResultModel};
use crate::propagate::{lemma_text_parses, pending_result, recovery_result, Change, ChangeModel};
use crate::runtime::{
    all_green_at, find_probe, green_at, probe_at, probe_mut, red_at, set_probe, ProbeModel,
    Services, ServicesModel,
};
use crate::text::{copy_option, Str};
use vstd::prelude::*;

verus! {

/// The first of some probes that is red or missing.
pub open spec fn first_bad(s: ServicesModel, deps: Seq<RefModel>) -> Option<RefModel>
    decreases deps.len(),
{
    if deps.len() == 0 {
        None
    } else {
        match first_bad(s, deps.drop_last()) {
            Some(d) => Some(d),
            None => if probe_at(s, deps.last()) is None || red_at(s, deps.last()) {
                Some(deps.last())
            } else {
                None
            },
        }
    }
}

/// The first of some probes that awaits a check.
pub open spec fn first_waiting(s: ServicesModel, deps: Seq<RefModel>) -> Option<RefModel>
    decreases deps.len(),
{
    if deps.len() == 0 {
        None
    } else {
        match first_waiting(s, deps.drop_last()) {
            Some(d) => Some(d),
            None => if probe_at(s, deps.last()) matches Some(p) && p.state is Pending {
                Some(deps.last())
            } else {
                None
            },
        }
    }
}

/// The state of a probe whose check succeeded, and what is wrong with its dependencies: red
/// if one is red or missing, pending if one awaits a check, else green.
pub open spec fn passed_state(s: ServicesModel, deps: Seq<RefModel>) -> (StateModel, Option<Str>) {
    match first_bad(s, deps) {
        Some(dep) => (StateModel::Red(RedModel::DepRed { dep }), Some("dep red"@)),
        None => match first_waiting(s, deps) {
            Some(dep) => (
                StateModel::Pending(PendingModel::DepNotReady { dep }),
                Some("deps not all green"@),
            ),
            None => (StateModel::Green, None),
        },
    }
}

proof fn lemma_firsts(s: ServicesModel, deps: Seq<RefModel>)
    ensures
        first_bad(s, deps) is None && first_waiting(s, deps) is None <==> all_green_at(s, deps),
    decreases deps.len(),
{
    if deps.len() > 0 {
        let front = deps.drop_last();
        lemma_firsts(s, front);
        if all_green_at(s, deps) {
            assert forall|i: int| 0 <= i < front.len() implies green_at(s, #[trigger] front[i]) by {
                assert(front[i] == deps[i]);
            }
            assert(green_at(s, deps[deps.len() - 1]));
        }
        if all_green_at(s, front) && green_at(s, deps.last()) {
            assert forall|i: int| 0 <= i < deps.len() implies green_at(s, #[trigger] deps[i]) by {
                if i < front.len() {
                    assert(green_at(s, front[i]));
                }
            }
        }
    }
}

/// A probe whose check succeeded is green if and only if all that it depends on is green.
pub proof fn law_green_needs_green(s: ServicesModel, deps: Seq<RefModel>)
    ensures
        passed_state(s, deps).0 is Green <==> all_green_at(s, deps),
{
    lemma_firsts(s, deps);
}

/// Decides on the state of a probe whose check succeeded.
pub(crate) fn resolve_ok_state(
    services: &Services,
    deps: &Vec<ProbeRef>,
) -> (r: (ProbeState, Option<String>))
    requires
        services.wf(),
    ensures
        (r.0.deep_view(), r.1.deep_view()) == passed_state(
            services.deep_view(),
            deps.deep_view(),
        ),
{
    let ghost s = services.deep_view();
    let ghost all = deps.deep_view();
    let mut bad: Option<ProbeRef> = None;
    let mut waiting: Option<ProbeRef> = None;
    let mut i: usize = 0;
    while i < deps.len()
        invariant
            services.wf(),
            s == services.deep_view(),
            all == deps.deep_view(),
            i <= deps.len(),
            bad.deep_view() == first_bad(s, all.take(i as int)),
            waiting.deep_view() == first_waiting(s, all.take(i as int)),
        decreases deps.len() - i,
    {
        let ghost next = all.take(i + 1);
        assert(next.drop_last() =~= all.take(i as int));
        assert(next.last() == deps[i as int].deep_view());
        match find_probe(services, &deps[i]) {
            Some(p) => {
                if p.state.is_red() {
                    if bad.is_none() {
                        bad = Some(deps[i].clone());
                    }
                } else if p.state.is_pending() {
                    if waiting.is_none() {
                        waiting = Some(deps[i].clone());
                    }
                }
            },
            None => {
                if bad.is_none() {
                    bad = Some(deps[i].clone());
                }
            },
        }
        i = i + 1;
    }
    assert(all.take(i as int) =~= all);
    match bad {
        Some(dep) => (
            ProbeState::Red(RedReason::DepRed { dep }),
            Some("dep red".to_owned()),
        ),
        None => match waiting {
            Some(dep) => (
                ProbeState::Pending(PendingReason::DepNotReady { dep }),
                Some("deps not all green".to_owned()),
            ),
            None => (ProbeState::Green, None),
        },
    }
}

/// The services of some changes.
pub open spec fn change_services(changes: Seq<ChangeModel>) -> Seq<Str> {
    Seq::new(changes.len(), |i: int| changes[i].0.service)
}

/// What has come of a step: the services, what was reported, and the services that changes
/// were passed on to.
#[verifier::ext_equal]
pub struct Step {
    pub services: ServicesModel,
    pub report: Report,
    pub affected: Seq<Str>,
}

/// The step in which a probe takes on a state, after `ms` milliseconds and with an error.
/// Where it turns green its recovery is passed on, and where it turns red its redness.
pub open spec fn take_on(
    g: Layer,
    s: ServicesModel,
    report: Report,
    r: RefModel,
    state: StateModel,
    ms: u64,
    error: Option<Str>,
) -> Step {
    let p = probe_at(s, r)->0;
    let prev = p.state;
    let next = set_probe(
        s,
        r,
        ProbeModel {
            state,
            prev_color: Some(prev.color()),
            last_probe_ms: Some(ms),
            last_error: error,
            ..p
        },
    );
    let told = Report {
        events: report.events.push(probe_changed(r, state, prev, state.text())),
        statuses: report.statuses.put(
            r.text(),
            StatusModel {
                state: state.text(),
                prev: prev.text(),
                reason: state.reason(),
                probe_ms: Some(ms),
                error,
                logs: None,
            },
        ),
    };
    if state is Green && !(prev is Green) {
        let w = recovery_result(g, r.text(), next, Seq::empty());
        Step {
            services: w.services,
            report: report_changes(w.services, w.changes, told),
            affected: with_names(Seq::empty(), change_services(w.changes)),
        }
    } else if state is Red && !(prev is Red) {
        let w = pending_result(g, r.text(), next, Seq::empty());
        Step {
            services: w.services,
            report: report_changes(w.services, w.changes, told),
            affected: with_names(Seq::empty(), change_services(w.changes)),
        }
    } else {
        Step { services: next, report: told, affected: Seq::empty() }
    }
}

fn list_change_services(changes: &Vec<Change>) -> (r: NameSet)
    ensures
        r.wf(),
        r.deep_view() == with_names(Seq::empty(), change_services(changes.deep_view())),
{
    let ghost all = change_services(changes.deep_view());
    let mut set = NameSet::new();
    let mut i: usize = 0;
    while i < changes.len()
        invariant
            all == change_services(changes.deep_view()),
            i <= changes.len(),
            set.wf(),
            set.deep_view() == with_names(Seq::empty(), all.take(i as int)),
        decreases changes.len() - i,
    {
        let ghost next = all.take(i + 1);
        assert(next.drop_last() =~= all.take(i as int));
        let change = &changes[i];
        assert(next.last() == change.0.service@) by {
            assert(changes.deep_view()[i as int] == change.deep_view());
        }
        set.insert(change.0.service.as_str());
        i = i + 1;
    }
    assert(all.take(i as int) =~= all);
    set
}

impl AppModel {
    /// What was reported so far.
    pub open spec fn report(self, statuses: Table<StatusModel>) -> Report {
        Report { events: self.events, statuses }
    }

    /// The state after a step.
    pub open spec fn after(self, step: Step) -> AppModel {
        AppModel { services: step.services, events: step.report.events, ..self }
    }
}

/// Lets a probe take on a state.
fn apply_result_inner(
    state: &mut AppState,
    probe_ref: &ProbeRef,
    new_state: ProbeState,
    duration_ms: u64,
    error: Option<String>,
    probe_statuses: &mut OrderedMap<ProbeStatus>,
) -> (r: NameSet)
    requires
        old(state).wf(),
        old(probe_statuses).wf(),
        probe_at(old(state).deep_view().services, probe_ref.deep_view()) is Some,
    ensures
        final(state).wf(),
        final(probe_statuses).wf(),
        r.wf(),
        ({
            let a = old(state).deep_view();
            let step = take_on(
                a.graph.probes,
                a.services,
                a.report(old(probe_statuses).deep_view()),
                probe_ref.deep_view(),
                new_state.deep_view(),
                duration_ms,
                error.deep_view(),
            );
            &&& final(state).deep_view() == a.after(step)
            &&& final(probe_statuses).deep_view() == step.report.statuses
            &&& r.deep_view() == step.affected
        }),
{
    let ghost a = state.deep_view();
    let ghost r = probe_ref.deep_view();
    proof {
        lemma_text_parses(r);
    }
    let p = probe_mut(&mut state.services, probe_ref);
    let prev = p.state.clone();
    p.prev_color = Some(prev.color());
    p.state = new_state.clone();
    p.last_probe_ms = Some(duration_ms);
    p.last_error = copy_option(&error);
    let ghost next = state.services.deep_view();
    state.emit(
        Event::probe_state_change(probe_ref, new_state.clone(), prev.clone(), new_state.as_str()),
    );
    probe_statuses.insert(
        probe_ref.to_string(),
        ProbeStatus {
            state: new_state.as_str().to_owned(),
            prev: prev.as_str().to_owned(),
            reason: new_state.reason(),
            probe_ms: Some(duration_ms),
            error,
            logs: None,
        },
    );
    let mut changes: Vec<Change> = Vec::new();
    assert(changes.deep_view() =~= Seq::<ChangeModel>::empty());
    let key = probe_ref.to_string();
    if new_state.is_green() && !prev.is_green() {
        state.graph.propagate_recovery(key.as_str(), &mut state.services, &mut changes);
    } else if new_state.is_red() && !prev.is_red() {
        state.graph.propagate_pending(key.as_str(), &mut state.services, &mut changes);
    }
    emit_propagated_changes(&mut state.events, &state.services, &changes, probe_statuses);
    let affected = list_change_services(&changes);
    assert(change_services(Seq::<ChangeModel>::empty()) =~= Seq::<Str>::empty());
    affected
}

/// The event for an attempt of a check. The last one tells the last log line that matched.
pub open spec fn attempt_event(r: RefModel, o: OutcomeModel, i: int) -> EventModel {
    let a = o.attempts[i];
    EventModel::ProbeResult {
        probe: r.text(),
        result: result_text(a.ok),
        duration_ms: Some(a.elapsed_ms),
        attempt: a.attempt,
        error: a.error,
        matched_lines: if i == o.attempts.len() - 1 && o.matched_lines.len() > 0 {
            seq![o.matched_lines.last()]
        } else {
            Seq::empty()
        },
        probe_detail: Some(a.detail),
        ts: a.ts,
    }
}

/// The events for the attempts of a check.
pub open spec fn attempt_events(r: RefModel, o: OutcomeModel) -> Seq<EventModel> {
    Seq::new(o.attempts.len(), |i: int| attempt_event(r, o, i))
}

/// Whether a service has been started, stopped or has crashed since a check was sent out.
pub open spec fn stale(s: ServicesModel, r: RefModel, o: OutcomeModel) -> bool {
    let current = if s.has(r.service) {
        s.at(r.service).generation
    } else {
        0
    };
    o.generation != u64::MAX && current != o.generation
}

/// The state of a probe after its check, the time that it took, and what is wrong.
pub open spec fn judged(s: ServicesModel, r: RefModel, o: OutcomeModel) -> (
    StateModel,
    u64,
    Option<Str>,
) {
    match o.result {
        ResultModel::Passed { duration_ms } => {
            let (state, error) = passed_state(s, probe_at(s, r)->0.depends_on);
            (state, duration_ms, error)
        },
        ResultModel::Failed { error, duration_ms } => (
            StateModel::Red(RedModel::ProbeFailed { error, duration_ms }),
            duration_ms,
            Some(error),
        ),
    }
}

/// A step after the last log line that matched is kept with the probe and in its status.
pub open spec fn keep_line(step: Step, r: RefModel, o: OutcomeModel) -> Step {
    if o.matched_lines.len() == 0 {
        step
    } else {
        let line = o.matched_lines.last();
        let statuses = step.report.statuses;
        Step {
            services: match probe_at(step.services, r) {
                Some(p) => set_probe(
                    step.services,
                    r,
                    ProbeModel { last_log_match: Some(line), ..p },
                ),
                None => step.services,
            },
            report: Report {
                events: step.report.events,
                statuses: if statuses.has(r.text()) {
                    statuses.put(
                        r.text(),
                        StatusModel { logs: Some(seq![line]), ..statuses.at(r.text()) },
                    )
                } else {
                    statuses
                },
            },
            affected: step.affected,
        }
    }
}

/// The step in which the outcome of a check is applied. The outcome of a check that was sent
/// out in an earlier generation of the service is told and changes nothing.
pub open spec fn apply_outcome(
    g: Layer,
    s: ServicesModel,
    report: Report,
    r: RefModel,
    o: OutcomeModel,
) -> Step {
    let told = Report { events: report.events + attempt_events(r, o), statuses: report.statuses };
    if stale(s, r, o) {
        Step { services: s, report: told, affected: Seq::empty() }
    } else {
        let (state, ms, error) = judged(s, r, o);
        keep_line(take_on(g, s, told, r, state, ms, error), r, o)
    }
}

/// Adds the events for the attempts of a check.
fn emit_attempts(state: &mut AppState, probe_ref: &ProbeRef, outcome: &ProbeOutcome)
    requires
        old(state).wf(),
    ensures
        final(state).wf(),
        final(state).deep_view() == (AppModel {
            events: old(state).deep_view().events + attempt_events(
                probe_ref.deep_view(),
                outcome.deep_view(),
            ),
            ..old(state).deep_view()
        }),
{
    let ghost a = state.deep_view();
    let ghost r = probe_ref.deep_view();
    let ghost o = outcome.deep_view();
    let ghost all = attempt_events(r, o);
    let n: usize = outcome.attempts.len();
    let m: usize = outcome.matched_lines.len();
    let mut i: usize = 0;
    assert(a.events + all.take(0) =~= a.events);
    while i < n
        invariant
            state.wf(),
            r == probe_ref.deep_view(),
            o == outcome.deep_view(),
            all == attempt_events(r, o),
            n == outcome.attempts.len(),
            m == outcome.matched_lines.len(),
            i <= n,
            state.deep_view() == (AppModel { events: a.events + all.take(i as int), ..a }),
        decreases n - i,
    {
        let att = &outcome.attempts[i];
        assert(att.deep_view() == o.attempts[i as int]);
        let mut lines: Vec<String> = Vec::new();
        if i == n - 1 && m > 0 {
            lines.push(outcome.matched_lines[m - 1].clone());
        }
        assert(lines.deep_view() =~= attempt_event(r, o, i as int)->ProbeResult_matched_lines);
        let event = Event::ProbeResult {
            probe: probe_ref.to_string(),
            result: (if att.ok {
                "ok"
            } else {
                "fail"
            }).to_owned(),
            duration_ms: Some(att.elapsed_ms),
            attempt: att.attempt,
            error: copy_option(&att.error),
            matched_lines: lines,
            probe_detail: Some(att.detail.clone()),
            ts: att.ts,
        };
        assert(event.deep_view() == all[i as int]);
        state.emit(event);
        assert(state.deep_view().events =~= a.events + all.take(i + 1));
        i = i + 1;
    }
    assert(all.take(i as int) =~= all);
}

/// Applies the outcome of a check, and lists the services that changes were passed on to.
pub fn apply_probe_result(
    state: &mut AppState,
    probe_ref: &ProbeRef,
    outcome: &ProbeOutcome,
    probe_statuses: &mut OrderedMap<ProbeStatus>,
) -> (r: NameSet)
    requires
        old(state).wf(),
        old(probe_statuses).wf(),
        probe_at(old(state).deep_view().services, probe_ref.deep_view()) is Some || stale(
            old(state).deep_view().services,
            probe_ref.deep_view(),
            outcome.deep_view(),
        ),
    ensures
        final(state).wf(),
        final(probe_statuses).wf(),
        r.wf(),
        ({
            let a = old(state).deep_view();
            let step = apply_outcome(
                a.graph.probes,
                a.services,
                a.report(old(probe_statuses).deep_view()),
                probe_ref.deep_view(),
                outcome.deep_view(),
            );
            &&& final(state).deep_view() == a.after(step)
            &&& final(probe_statuses).deep_view() == step.report.statuses
            &&& r.deep_view() == step.affected
        }),
{
    let ghost a = state.deep_view();
    let ghost r = probe_ref.deep_view();
    let ghost o = outcome.deep_view();
    emit_attempts(state, probe_ref, outcome);
    let current: u64 = match state.services.get(probe_ref.service.as_str()) {
        Some(svc) => svc.generation,
        None => 0,
    };
    if outcome.generation != u64::MAX && current != outcome.generation {
        return NameSet::new();
    }
    let (new_state, ms, error) = match &outcome.result {
        ProbeResult::Passed { duration_ms } => {
            let (s, e) = match find_probe(&state.services, probe_ref) {
                Some(p) => resolve_ok_state(&state.services, &p.depends_on),
                None => (ProbeState::Green, None),
            };
            (s, *duration_ms, e)
        },
        ProbeResult::Failed { error, duration_ms } => (
            ProbeState::Red(
                RedReason::ProbeFailed(
                    ProbeFailure { error: error.clone(), duration_ms: *duration_ms },
                ),
            ),
            *duration_ms,
            Some(error.clone()),
        ),
    };
    let affected = apply_result_inner(state, probe_ref, new_state, ms, error, probe_statuses);
    let m: usize = outcome.matched_lines.len();
    if m > 0 {
        let line = &outcome.matched_lines[m - 1];
        assert(o.matched_lines.last() == line@);
        let key = probe_ref.to_string();
        if let Some(i) = probe_statuses.position(key.as_str()) {
            let mut logs: Vec<String> = Vec::new();
            logs.push(line.clone());
            assert(logs.deep_view() =~= seq![line@]);
            let status = probe_statuses.value_mut(i);
            status.logs = Some(logs);
        }
        if find_probe(&state.services, probe_ref).is_some() {
            let p = probe_mut(&mut state.services, probe_ref);
            p.last_log_match = Some(line.clone());
        }
    }
    affected
}

} // verus!
