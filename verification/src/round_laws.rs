//! What the steps of a round do: who is restarted, who waits, and when the round ends.
use crate::app_state::AppModel;
use crate::apply::{apply_outcome, attempt_events, judged, take_on};
use crate::batch::{meta_names, meta_state, update_metas, update_service, Progress};
use crate::converge::{
    after_start, after_start_error, beyond_help, converge_begun, converge_ended, failed_at, go_on,
    lagging, outcome_applied, probed, round_result, rounds_result, start_failed, wait_of,
    ConvergenceModel, PipelineOutcome, ProbeTaskModel, Wait,
};
use crate::duration::Duration;
use crate::emit::law_show_keeps;
use crate::health::lemma_meta_names;
use crate::keeps::{
    law_apply_changes_probes, law_meta_changes_probes, lemma_only_probes_trans,
};
use crate::lifecycle_laws::law_stopped;
use crate::model::{RedModel, RefModel, ServiceState, StateModel};
use crate::ops::{Report, ResponseModel, StatusModel};
use crate::ordered_map::Table;
use crate::probe::OutcomeModel;
use crate::propagate::{moved, pending_result};
use crate::propagate_laws::{
    kept_or_moved, law_pending_keeps_failures, lemma_set_probe, only_probes_changed,
    only_probes_differ,
};
use crate::runtime::{probe_at, set_probe, ProbeModel, ServiceModel, ServicesModel};
use crate::text::Str;
use vstd::prelude::*;

verus! {

/// Whether a probe is there and green.
pub open spec fn is_green(s: ServicesModel, r: RefModel) -> bool {
    s.has(r.service) && s.at(r.service).probes.has(r.probe) && s.at(r.service).probes.at(
        r.probe,
    ).state == StateModel::Green
}

/// Whether a probe is there and failed its own check.
pub open spec fn has_failed(s: ServicesModel, r: RefModel) -> bool {
    s.has(r.service) && s.at(r.service).probes.has(r.probe) && (s.at(r.service).probes.at(
        r.probe,
    ).state matches StateModel::Red(x) && x is ProbeFailed)
}

/// A task may go ahead if and only if each probe that it waits for is green. It is given up if
/// and only if not all are green and one of them failed its own check.
pub proof fn law_waits_for_all(s: ServicesModel, deps: Seq<RefModel>)
    ensures
        wait_of(s, deps) == Wait::Ready <==> forall|i: int|
            0 <= i < deps.len() ==> is_green(s, #[trigger] deps[i]),
        wait_of(s, deps) == Wait::Failed <==> (exists|i: int|
            0 <= i < deps.len() && has_failed(s, #[trigger] deps[i])) && !(forall|i: int|
            0 <= i < deps.len() ==> is_green(s, #[trigger] deps[i])),
{
    assert forall|i: int| 0 <= i < deps.len() implies (crate::runtime::green_at(
        s,
        #[trigger] deps[i],
    ) <==> is_green(s, deps[i])) && (failed_at(s, deps[i]) <==> has_failed(s, deps[i])) by {}
    if forall|i: int| 0 <= i < deps.len() ==> is_green(s, #[trigger] deps[i]) {
        assert forall|i: int| 0 <= i < deps.len() implies crate::runtime::green_at(
            s,
            #[trigger] deps[i],
        ) by {
            assert(is_green(s, deps[i]));
        }
    }
    if wait_of(s, deps) == Wait::Ready {
        assert forall|i: int| 0 <= i < deps.len() implies is_green(s, #[trigger] deps[i]) by {
            assert(crate::runtime::green_at(s, deps[i]));
        }
    }
    if exists|i: int| 0 <= i < deps.len() && has_failed(s, #[trigger] deps[i]) {
        let i = choose|i: int| 0 <= i < deps.len() && has_failed(s, #[trigger] deps[i]);
        assert(failed_at(s, deps[i]));
    }
    if exists|i: int| 0 <= i < deps.len() && failed_at(s, #[trigger] deps[i]) {
        let i = choose|i: int| 0 <= i < deps.len() && failed_at(s, #[trigger] deps[i]);
        assert(has_failed(s, deps[i]));
    }
}

/// Whether services are in place with all but the values of their probes and how they were last
/// shown.
pub open spec fn same_services(a: ServicesModel, b: ServicesModel) -> bool {
    &&& a.keys == b.keys
    &&& forall|k: Str| #[trigger] b.has(k) == a.has(k)
    &&& forall|k: Str| #[trigger] b.has(k) ==> same_but_probes(a.at(k), b.at(k))
}

/// Whether two services are the same but for the values of their probes and how they were last
/// shown.
pub open spec fn same_but_probes(a: ServiceModel, b: ServiceModel) -> bool {
    &&& a.state == b.state
    &&& a.name == b.name
    &&& a.container == b.container
    &&& a.start_after == b.start_after
    &&& a.restart_on_fail == b.restart_on_fail
    &&& a.generation == b.generation
    &&& a.log_since == b.log_since
    &&& a.probes.keys == b.probes.keys
    &&& forall|p: Str| #[trigger] b.probes.has(p) == a.probes.has(p)
}

proof fn lemma_only_probes_valid(a: ServicesModel, b: ServicesModel)
    requires
        only_probes_changed(a, b),
        a.valid(),
    ensures
        b.valid(),
{
    assert forall|k: Str| #[trigger] b.map.contains_key(k) <==> b.keys.contains(k) by {
        assert(a.has(k) == b.has(k));
        assert(a.map.contains_key(k) <==> a.keys.contains(k));
    }
}

/// Applying the outcome of a check changes the values of probes and how services were last shown,
/// and nothing else.
pub proof fn law_outcome_changes_probes(
    a: AppModel,
    statuses: Table<StatusModel>,
    r: RefModel,
    o: OutcomeModel,
)
    requires
        a.services.valid(),
        probe_at(a.services, r) is Some,
        a.services.at(r.service).probes.valid(),
    ensures
        same_services(a.services, outcome_applied(a, statuses, r, o).0.services),
        outcome_applied(a, statuses, r, o).0.targets == a.targets,
        outcome_applied(a, statuses, r, o).0.services.valid(),
        outcome_applied(a, statuses, r, o).0.services.at(r.service).probes.valid(),
{
    let step = apply_outcome(a.graph.probes, a.services, a.report(statuses), r, o);
    let at = Progress { services: step.services, report: step.report };
    law_apply_changes_probes(a.graph.probes, a.services, a.report(statuses), r, o);
    let name = r.service;
    assert(step.services.has(name) == a.services.has(name)) by {
        assert(a.services.has(name) == step.services.has(name));
    }
    assert(only_probes_differ(a.services.at(name), step.services.at(name)));
    lemma_probes_valid(a.services.at(name), step.services.at(name));
    law_meta_changes_probes(at, name);
    let then = update_service(at, name).services;
    lemma_only_probes_trans(a.services, step.services, then);
    lemma_only_probes_valid(a.services, then);
    let b = outcome_applied(a, statuses, r, o).0.services;
    assert forall|k: Str| #[trigger] b.has(k) == a.services.has(k) by {
        law_show_keeps(then, a.targets, k);
        assert(a.services.has(k) == then.has(k));
    }
    assert forall|k: Str| #[trigger] b.has(k) implies same_but_probes(a.services.at(k), b.at(k)) by {
        law_show_keeps(then, a.targets, k);
        assert(a.services.has(k) == then.has(k));
        assert(only_probes_differ(a.services.at(k), then.at(k)));
        assert forall|p: Str| #[trigger] b.at(k).probes.has(p) == a.services.at(k).probes.has(p) by {
            assert(a.services.at(k).probes.has(p) == then.at(k).probes.has(p));
        }
    }
    law_show_keeps(then, a.targets, name);
    assert(a.services.has(name) == then.has(name));
    assert(only_probes_differ(a.services.at(name), then.at(name)));
    lemma_probes_valid(a.services.at(name), then.at(name));
    assert(b.valid()) by {
        assert forall|k: Str| #[trigger] b.map.contains_key(k) <==> b.keys.contains(k) by {
            assert(b.has(k) == a.services.has(k));
            assert(a.services.map.contains_key(k) <==> a.services.keys.contains(k));
        }
    }
}

pub proof fn lemma_probes_valid(a: ServiceModel, b: ServiceModel)
    requires
        only_probes_differ(a, b),
        a.probes.valid(),
    ensures
        b.probes.valid(),
{
    assert forall|p: Str| #[trigger] b.probes.map.contains_key(p) <==> b.probes.keys.contains(p) by {
        assert(a.probes.has(p) == b.probes.has(p));
        assert(a.probes.map.contains_key(p) <==> a.probes.keys.contains(p));
    }
}

/// Whether a probe of a service is red.
pub open spec fn has_red(svc: ServiceModel) -> bool {
    exists|p: Str| #[trigger] svc.probes.has(p) && svc.probes.at(p).state is Red
}

/// Whether a service may be restarted after a check: restarts are allowed, it was neither
/// restarted before nor started in this round, it runs, and it is to be restarted when it fails.
pub open spec fn may_restart(svc: ServiceModel, c: ConvergenceModel, name: Str) -> bool {
    &&& c.allow_restart
    &&& !c.restarted.contains(name)
    &&& !c.just_started.contains(name)
    &&& svc.state == ServiceState::Running
    &&& svc.restart_on_fail
}

/// A round ends in a restart after a check if and only if the check failed, its service may be
/// restarted, and one of its probes is red once the outcome is known. Then the container of the
/// service is stopped, the service is stopped, and the restart is told. Else no service changes
/// its state, nothing is stopped, and nothing is told as restarted.
pub proof fn law_restarts_what_fails(a: AppModel, c: ConvergenceModel, r: RefModel, o: OutcomeModel)
    requires
        a.services.valid(),
        probe_at(a.services, r) is Some,
        a.services.at(r.service).probes.valid(),
    ensures
        ({
            let (e, d, next) = probed(a, c, r, o);
            let name = r.service;
            let svc = a.services.at(name);
            let after = outcome_applied(a, c.statuses, r, o).0.services.at(name);
            &&& next.outcome == Some(PipelineOutcome::Restarted) <==> o.result is Failed
                && may_restart(svc, c, name) && has_red(after)
            &&& next.outcome == Some(PipelineOutcome::Restarted) ==> {
                &&& next.container == Some(svc.container)
                &&& e.services.at(name).state == ServiceState::Stopped
                &&& d.actions.restarted == c.actions.restarted.push(name)
                &&& d.restarted == c.restarted.push(name)
            }
            &&& next.outcome != Some(PipelineOutcome::Restarted) ==> {
                &&& next.container is None
                &&& d.actions == c.actions
                &&& d.restarted == c.restarted
                &&& same_services(a.services, e.services)
            }
            &&& d.just_started == c.just_started
            &&& d.actions.started == c.actions.started
            &&& d.actions.stopped == c.actions.stopped
            &&& d.actions.start_errors == c.actions.start_errors
            &&& d.probes == c.probes
            &&& next.probes.len() == 0
        }),
{
    let name = r.service;
    let (b, statuses) = outcome_applied(a, c.statuses, r, o);
    law_outcome_changes_probes(a, c.statuses, r, o);
    assert(b.services.has(name) == a.services.has(name));
    assert(same_but_probes(a.services.at(name), b.services.at(name)));
    if exists|p: Str| #[trigger]
        b.services.at(name).probes.has(p) && b.services.at(name).probes.at(p).state is Red {
        let p = choose|p: Str| #[trigger]
            b.services.at(name).probes.has(p) && b.services.at(name).probes.at(p).state is Red;
        assert(b.services.at(name).probes.has(p));
    }
    let told = crate::reprobe::told(
        b,
        crate::events::EventModel::OpStart { op: "restart"@, target_or_service: name },
    );
    law_stopped(told, name, r.probe);
}

pub proof fn lemma_metas_touch(at: Progress, svc: Str, names: Seq<Str>, q: RefModel)
    requires
        forall|i: int|
            0 <= i < names.len() ==> probe_at(
                at.services,
                RefModel { service: svc, probe: #[trigger] names[i] },
            ) is Some,
        q.service != svc || !names.contains(q.probe),
    ensures
        probe_at(update_metas(at, svc, names).services, q) == probe_at(at.services, q),
        forall|i: int|
            0 <= i < names.len() ==> probe_at(
                update_metas(at, svc, names).services,
                RefModel { service: svc, probe: #[trigger] names[i] },
            ) is Some,
    decreases names.len(),
{
    if names.len() > 0 {
        let front = names.drop_last();
        assert forall|i: int| 0 <= i < front.len() implies probe_at(
            at.services,
            RefModel { service: svc, probe: #[trigger] front[i] },
        ) is Some by {
            assert(front[i] == names[i]);
        }
        if q.service == svc && front.contains(q.probe) {
            let i = choose|i: int| 0 <= i < front.len() && front[i] == q.probe;
            assert(names[i] == q.probe);
        }
        lemma_metas_touch(at, svc, front, q);
        let before = update_metas(at, svc, front);
        let x = RefModel { service: svc, probe: names[names.len() - 1] };
        assert(probe_at(at.services, x) is Some);
        lemma_kept_there(at, svc, front, x);
        lemma_set_probe(
            before.services,
            x,
            moved(probe_at(before.services, x)->0, meta_state(before.services, x)),
        );
        assert(names.contains(names[names.len() - 1]));
        assert(q != x);
        let after = update_metas(at, svc, names);
        assert forall|i: int| 0 <= i < names.len() implies probe_at(
            after.services,
            RefModel { service: svc, probe: #[trigger] names[i] },
        ) is Some by {
            if i < front.len() {
                assert(front[i] == names[i]);
            }
        }
    }
}

proof fn lemma_kept_there(at: Progress, svc: Str, names: Seq<Str>, x: RefModel)
    requires
        probe_at(at.services, x) is Some,
        forall|i: int|
            0 <= i < names.len() ==> probe_at(
                at.services,
                RefModel { service: svc, probe: #[trigger] names[i] },
            ) is Some,
    ensures
        probe_at(update_metas(at, svc, names).services, x) is Some,
    decreases names.len(),
{
    if names.len() > 0 {
        let front = names.drop_last();
        assert forall|i: int| 0 <= i < front.len() implies probe_at(
            at.services,
            RefModel { service: svc, probe: #[trigger] front[i] },
        ) is Some by {
            assert(front[i] == names[i]);
        }
        lemma_kept_there(at, svc, front, x);
        let y = RefModel { service: svc, probe: names[names.len() - 1] };
        assert(probe_at(at.services, y) is Some);
        lemma_kept_there(at, svc, front, y);
        let before = update_metas(at, svc, front);
        lemma_set_probe(
            before.services,
            y,
            moved(probe_at(before.services, y)->0, meta_state(before.services, y)),
        );
    }
}

/// A check that failed in time makes its probe red, with the error that it failed with.
pub proof fn law_failed_check_reddens(
    a: AppModel,
    statuses: Table<StatusModel>,
    r: RefModel,
    o: OutcomeModel,
)
    requires
        a.services.valid(),
        probe_at(a.services, r) matches Some(p) && !(p.probe_config is Meta),
        a.services.at(r.service).probes.valid(),
        o.generation == u64::MAX || o.generation == a.services.at(r.service).generation,
        o.result is Failed,
    ensures
        probe_at(outcome_applied(a, statuses, r, o).0.services, r) matches Some(q) && q.state
            == StateModel::Red(
            RedModel::ProbeFailed {
                error: o.result->error,
                duration_ms: o.result->Failed_duration_ms,
            },
        ),
{
    let g = a.graph.probes;
    let report = a.report(statuses);
    let step = apply_outcome(g, a.services, report, r, o);
    let told = Report { events: report.events + attempt_events(r, o), statuses: report.statuses };
    let (state, ms, error) = judged(a.services, r, o);
    let p = probe_at(a.services, r)->0;
    let now = ProbeModel {
        state,
        prev_color: Some(p.state.color()),
        last_probe_ms: Some(ms),
        last_error: error,
        ..p
    };
    let next = set_probe(a.services, r, now);
    lemma_set_probe(a.services, r, now);
    law_pending_keeps_failures(g, r.text(), next, Seq::empty(), r);
    let taken = take_on(g, a.services, told, r, state, ms, error);
    assert(kept_or_moved(
        next,
        pending_result(g, r.text(), next, Seq::empty()).services,
        r,
        false,
    ));
    assert(probe_at(taken.services, r) matches Some(q) && q.state == state && !(
    q.probe_config is Meta));
    if o.matched_lines.len() > 0 {
        let q = probe_at(taken.services, r)->0;
        lemma_set_probe(
            taken.services,
            r,
            ProbeModel { last_log_match: Some(o.matched_lines.last()), ..q },
        );
    }
    assert(probe_at(step.services, r) matches Some(q) && q.state == state && !(
    q.probe_config is Meta));
    law_apply_changes_probes(g, a.services, report, r, o);
    let name = r.service;
    assert(a.services.has(name) == step.services.has(name));
    assert(only_probes_differ(a.services.at(name), step.services.at(name)));
    lemma_probes_valid(a.services.at(name), step.services.at(name));
    let at = Progress { services: step.services, report: step.report };
    let probes = step.services.at(name).probes;
    let names = meta_names(probes, probes.keys);
    lemma_meta_names(probes, probes.keys);
    assert forall|i: int| 0 <= i < names.len() implies probe_at(
        step.services,
        RefModel { service: name, probe: #[trigger] names[i] },
    ) is Some by {
        assert(probes.keys.contains(names[i]));
        assert(probes.map.contains_key(names[i]));
    }
    if names.contains(r.probe) {
        let i = choose|i: int| 0 <= i < names.len() && names[i] == r.probe;
        assert(probes.at(names[i]).probe_config is Meta);
    }
    lemma_metas_touch(at, name, names, r);
    law_meta_changes_probes(at, name);
    let then = update_service(at, name).services;
    lemma_only_probes_trans(a.services, step.services, then);
    lemma_only_probes_valid(a.services, then);
    law_show_keeps(then, a.targets, name);
}

/// Where a check failed in time and its service may be restarted, it is.
pub proof fn law_failed_check_restarts(
    a: AppModel,
    c: ConvergenceModel,
    r: RefModel,
    o: OutcomeModel,
)
    requires
        a.services.valid(),
        probe_at(a.services, r) matches Some(p) && !(p.probe_config is Meta),
        a.services.at(r.service).probes.valid(),
        o.generation == u64::MAX || o.generation == a.services.at(r.service).generation,
        o.result is Failed,
        may_restart(a.services.at(r.service), c, r.service),
    ensures
        probed(a, c, r, o).2.outcome == Some(PipelineOutcome::Restarted),
{
    law_restarts_what_fails(a, c, r, o);
    law_failed_check_reddens(a, c.statuses, r, o);
    let after = outcome_applied(a, c.statuses, r, o).0.services.at(r.service);
    assert(after.probes.has(r.probe) && after.probes.at(r.probe).state is Red);
}

/// A round that goes on ends once all that the target needs is green, and not before. Checks
/// that are to be sent out are, and nothing is stopped.
pub proof fn law_round_ends_green(
    s: ServicesModel,
    refs: Seq<RefModel>,
    probes: Seq<ProbeTaskModel>,
)
    ensures
        go_on(s, refs, probes).outcome == Some(PipelineOutcome::AllGreen) <==> forall|i: int|
            0 <= i < refs.len() ==> is_green(s, #[trigger] refs[i]),
        go_on(s, refs, probes).outcome is Some ==> go_on(s, refs, probes).outcome == Some(
            PipelineOutcome::AllGreen,
        ),
        go_on(s, refs, probes).probes == probes,
        go_on(s, refs, probes).container is None,
{
    law_waits_for_all(s, refs);
}

/// Whether a service runs, has a probe that failed its own check, and is not restarted for it.
pub open spec fn is_lost(svc: ServiceModel, allow_restart: bool) -> bool {
    &&& svc.state == ServiceState::Running
    &&& !(allow_restart && svc.restart_on_fail)
    &&& exists|p: Str| #[trigger]
        svc.probes.has(p) && (svc.probes.at(p).state matches StateModel::Red(x)
            && x is ProbeFailed)
}

/// A round in which nothing more can be done has failed for good if and only if a service could
/// not be started, or a service that the target needs has failed and is not restarted. Else there
/// was just no progress.
pub proof fn law_round_lost(s: ServicesModel, c: ConvergenceModel)
    ensures
        round_result(s, c) == PipelineOutcome::TerminalFailure <==> c.actions.start_errors.keys.len()
            > 0 || exists|i: int|
            0 <= i < c.services.len() && is_lost(s.at(#[trigger] c.services[i]), c.allow_restart),
        round_result(s, c) != PipelineOutcome::TerminalFailure ==> round_result(s, c)
            == PipelineOutcome::NoProgress,
{
    assert forall|i: int| 0 <= i < c.services.len() implies (beyond_help(
        s.at(#[trigger] c.services[i]),
        c.allow_restart,
    ) <==> is_lost(s.at(c.services[i]), c.allow_restart)) by {
        let svc = s.at(c.services[i]);
        if beyond_help(svc, c.allow_restart) {
            let p = choose|p: Str| #[trigger]
                svc.probes.has(p) && svc.probes.at(p).state.probe_failed();
            assert(svc.probes.has(p));
        }
        if is_lost(svc, c.allow_restart) {
            let p = choose|p: Str| #[trigger]
                svc.probes.has(p) && (svc.probes.at(p).state matches StateModel::Red(x)
                    && x is ProbeFailed);
            assert(svc.probes.has(p));
        }
    }
    if round_result(s, c) == PipelineOutcome::TerminalFailure && c.actions.start_errors.keys.len()
        == 0 {
        let i = choose|i: int|
            0 <= i < c.services.len() && beyond_help(s.at(#[trigger] c.services[i]), c.allow_restart);
        assert(is_lost(s.at(c.services[i]), c.allow_restart));
    }
    if exists|i: int|
        0 <= i < c.services.len() && is_lost(s.at(#[trigger] c.services[i]), c.allow_restart) {
        let i = choose|i: int|
            0 <= i < c.services.len() && is_lost(s.at(#[trigger] c.services[i]), c.allow_restart);
        assert(beyond_help(s.at(c.services[i]), c.allow_restart));
    }
}

/// There is another round at first and after a restart, while there is time. Any other end of a
/// round is the end.
pub proof fn law_another_round(last: Option<PipelineOutcome>, remaining: Duration)
    ensures
        rounds_result(last, remaining) is None <==> remaining.millis > 0 && (last is None || last
            == Some(PipelineOutcome::Restarted)),
        last is Some && last != Some(PipelineOutcome::Restarted) ==> rounds_result(last, remaining)
            == last,
        (last is None || last == Some(PipelineOutcome::Restarted)) && remaining.millis == 0
            ==> rounds_result(last, remaining) == Some(PipelineOutcome::NoProgress),
{
}

/// After a service was started that is told, it counts as started in this round, and nothing else
/// of what is known is lost. After it could not be started that is told with the error.
pub proof fn law_starts_told(
    c: ConvergenceModel,
    name: Str,
    response: ResponseModel,
    error: Str,
)
    ensures
        ({
            let d = after_start(c, name, response);
            &&& d.actions.started == c.actions.started.push(name)
            &&& d.actions.restarted == c.actions.restarted
            &&& d.actions.stopped == c.actions.stopped
            &&& d.actions.start_errors == c.actions.start_errors
            &&& d.just_started.contains(name)
            &&& forall|x: Str| c.just_started.contains(x) ==> #[trigger] d.just_started.contains(x)
            &&& d.restarted == c.restarted
            &&& d.allow_restart == c.allow_restart
            &&& d.probes == c.probes
        }),
        ({
            let d = after_start_error(c, name, error);
            &&& d.actions.start_errors.has(name)
            &&& d.actions.start_errors.at(name) == error
            &&& d.actions.started == c.actions.started
            &&& d.actions.restarted == c.actions.restarted
            &&& d.actions.stopped == c.actions.stopped
            &&& d.just_started == c.just_started
            &&& d.restarted == c.restarted
            &&& d.statuses == c.statuses
        }),
{
    crate::names::lemma_with_name(c.just_started, name);
}

/// Where a service could not be started all of its probes have failed with the error, and nothing
/// else of it changes.
pub proof fn law_start_error_fails(svc: ServiceModel, error: Str, p: Str)
    requires
        svc.probes.has(p),
    ensures
        start_failed(svc, error).probes.has(p),
        start_failed(svc, error).probes.at(p).state == StateModel::Red(
            RedModel::ProbeFailed { error, duration_ms: 0 },
        ),
        start_failed(svc, error).probes.at(p).depends_on == svc.probes.at(p).depends_on,
        start_failed(svc, error).probes.at(p).probe_config == svc.probes.at(p).probe_config,
        start_failed(svc, error).state == svc.state,
        start_failed(svc, error).generation == svc.generation,
        start_failed(svc, error).container == svc.container,
        start_failed(svc, error).restart_on_fail == svc.restart_on_fail,
{
}

/// A target that is to be brought to green begins with nothing done: its probes are those that it
/// needs, and restarts are allowed as was asked.
pub proof fn law_begins_with_nothing(a: AppModel, name: Str, allow_restart: bool)
    ensures
        ({
            let c = converge_begun(a, name, allow_restart).1;
            &&& c.target == name
            &&& c.allow_restart == allow_restart
            &&& c.probes == a.targets.at(name).transitive_probes
            &&& c.restarted.len() == 0
            &&& c.just_started.len() == 0
            &&& c.actions.started.len() == 0
            &&& c.actions.restarted.len() == 0
            &&& c.actions.stopped.len() == 0
            &&& c.actions.start_errors.keys.len() == 0
        }),
{
}

/// Whether a service is not fully green: it does not run, or a probe of it is not green.
pub open spec fn is_behind(svc: ServiceModel) -> bool {
    svc.state != ServiceState::Running || exists|p: Str| #[trigger]
        svc.probes.has(p) && svc.probes.at(p).state != StateModel::Green
}

/// The services that are told as not green are those of a list that are not fully green.
pub proof fn law_lagging(s: ServicesModel, names: Seq<Str>, x: Str)
    ensures
        lagging(s, names).contains(x) <==> names.contains(x) && s.has(x) && is_behind(s.at(x)),
    decreases names.len(),
{
    if names.len() > 0 {
        let front = names.drop_last();
        let last = names.last();
        law_lagging(s, front, x);
        assert(names[names.len() - 1] == last);
        let svc = s.at(last);
        assert(crate::converge::lags(s, last) <==> s.has(last) && is_behind(svc)) by {
            if is_behind(svc) && svc.state == ServiceState::Running {
                let p = choose|p: Str| #[trigger]
                    svc.probes.has(p) && svc.probes.at(p).state != StateModel::Green;
                assert(svc.probes.has(p));
            }
        }
        let before = lagging(s, front);
        let after = lagging(s, names);
        if front.contains(x) {
            let i = choose|i: int| 0 <= i < front.len() && front[i] == x;
            assert(names[i] == x);
        }
        if names.contains(x) && x != last {
            let i = choose|i: int| 0 <= i < names.len() && names[i] == x;
            assert(front[i] == x);
        }
        if before.contains(x) {
            let i = choose|i: int| 0 <= i < before.len() && before[i] == x;
            assert(after[i] == x);
        }
        if crate::converge::lags(s, last) {
            assert(after[before.len() as int] == last);
        }
        if after.contains(x) && !before.contains(x) {
            let i = choose|i: int| 0 <= i < after.len() && after[i] == x;
            assert(i == before.len());
        }
    }
}

/// The answer tells what was done and each probe that was checked, as it is known, and how long it
/// took. Services that are not fully green are told where the target is not green.
pub proof fn law_answer_tells(
    a: AppModel,
    c: ConvergenceModel,
    outcome: Option<PipelineOutcome>,
    duration_ms: u64,
)
    ensures
        ({
            let (e, response) = converge_ended(a, c, outcome, duration_ms);
            &&& response.actions == c.actions
            &&& response.probes == c.statuses
            &&& response.duration_ms == duration_ms
            &&& response.error is None ==> response.not_green.len() == 0
            &&& response.error is Some ==> forall|x: Str| #[trigger]
                response.not_green.contains(x) <==> (exists|i: int|
                    0 <= i < c.probes.len() && (#[trigger] c.probes[i]).service == x)
                    && e.services.has(x) && is_behind(e.services.at(x))
        }),
{
    let (e, response) = converge_ended(a, c, outcome, duration_ms);
    if response.error is Some {
        assert forall|x: Str| #[trigger] response.not_green.contains(x) <==> (exists|i: int|
            0 <= i < c.probes.len() && (#[trigger] c.probes[i]).service == x) && e.services.has(x)
            && is_behind(e.services.at(x)) by {
            let names = crate::converge::distinct_services(c.probes);
            law_lagging(e.services, names, x);
            crate::converge_laws::law_needed_services(Seq::empty(), c.probes, x);
            crate::converge_laws::lemma_distinct(c.probes, x);
        }
    }
}

} // verus!
