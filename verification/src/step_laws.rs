//! What the steps of operations do as a whole.
use crate::app_state::AppModel;
use crate::apply::{apply_outcome, Step};
use crate::apply_laws::{in_time, law_outcome_decides, rightly_passed};
use crate::batch::{batch_known, update_service, update_services, Progress};
use crate::batch_laws::{
    goes_on, has_taken, law_batch_takes_all, lemma_apply_goes_on, lemma_update_spares,
    lemma_updates_spare,
};
use crate::check_laws::{is_check_of, is_due, law_due_checks, law_running_probes};
use crate::converge::{
    converge_begun, listed_in, needed_services, outcome_applied, probed, ConvergenceModel,
    PipelineOutcome,
};
use crate::converge_laws::law_needed_services;
use crate::duration::duration_of;
use crate::emit::{after_show, after_tell, law_show_keeps, show_events, tell_targets};
use crate::events::EventModel;
use crate::graph::Layer;
use crate::keeps::{
    law_apply_changes_probes, law_meta_changes_probes, lemma_only_probes_trans,
};
use crate::lifecycle_laws::law_stopped;
use crate::model::{RedModel, RefModel, ServiceState, StateModel};
use crate::names::with_names;
use crate::ops::{report_changes, Report, StatusModel};
use crate::ordered_map::Table;
use crate::probe::OutcomeModel;
use crate::propagate::ChangeModel;
use crate::propagate_laws::{only_probes_changed, only_probes_differ};
use crate::reprobe::begun;
use crate::resolve::{
    apply_held, apply_rest, deps_green, release_all, release_from, running_refs, take_outcome,
    HeldModel,
};
use crate::round_laws::{
    is_green, law_outcome_changes_probes, law_restarts_what_fails, law_round_ends_green,
    lemma_probes_valid, same_but_probes,
};
use crate::runtime::{probe_at, ProbeModel, ServicesModel};
use crate::start::{after_batch, started};
use crate::targets::{activate_all, law_activation};
use crate::tell_laws::law_affected_told;
use crate::text::{trimmed, Str};
use vstd::prelude::*;

verus! {

/// Showing services and telling targets adds to what is told, and takes nothing away. The services
/// are as they were when targets are told, and the targets when services are shown.
pub proof fn law_telling_adds(a: AppModel, affected: Seq<Str>)
    ensures
        after_show(a).events.take(a.events.len() as int) == a.events,
        after_show(a).events.skip(a.events.len() as int) == show_events(
            a.services,
            a.targets,
            a.services.keys,
        ),
        after_show(a).targets == a.targets,
        after_tell(a, affected).events.take(a.events.len() as int) == a.events,
        after_tell(a, affected).events.skip(a.events.len() as int) == tell_targets(
            a.services,
            a.targets,
            affected,
            a.targets.keys,
        ).events,
        after_tell(a, affected).services == a.services,
        after_tell(a, affected).current_op == a.current_op,
{
    let n = a.events.len() as int;
    assert(after_show(a).events.take(n) =~= a.events);
    assert(after_show(a).events.skip(n) =~= show_events(a.services, a.targets, a.services.keys));
    assert(after_tell(a, affected).events.take(n) =~= a.events);
    assert(after_tell(a, affected).events.skip(n) =~= tell_targets(
        a.services,
        a.targets,
        affected,
        a.targets.keys,
    ).events);
}

/// A target that is to be brought to green has been asked for from then on, and so has each target
/// that it depends on. That the operation begins is told.
pub proof fn law_converge_asks(a: AppModel, name: Str, allow_restart: bool, d: Str)
    requires
        a.targets.valid(),
        a.targets.has(name),
    ensures
        ({
            let b = converge_begun(a, name, allow_restart).0;
            &&& b.targets.at(name).activated
            &&& !a.targets.at(name).activated && a.targets.at(name).depends_on_targets.contains(d)
                && a.targets.has(d) ==> b.targets.at(d).activated
            &&& b.events.len() > a.events.len()
            &&& b.events[a.events.len() as int] == (EventModel::OpStart {
                op: "converge"@,
                target_or_service: name,
            })
        }),
{
    let done = activate_all(a.targets, seq![name]);
    law_activation(a.targets, name);
    assert(done.valid()) by {
        assert forall|k: Str| #[trigger] done.map.contains_key(k) <==> done.keys.contains(k) by {
            assert(done.has(k) == a.targets.has(k));
            assert(a.targets.map.contains_key(k) <==> a.targets.keys.contains(k));
        }
    }
    let refs = a.targets.at(name).transitive_probes;
    let needed = needed_services(a.graph.topo_order, refs);
    let told = crate::reprobe::told(
        AppModel { targets: done, ..a },
        EventModel::OpStart { op: "converge"@, target_or_service: name },
    );
    let shown = after_show(told);
    assert(done.has(name) == a.targets.has(name));
    law_affected_told(shown.services, done, needed, name);
    if a.targets.has(d) {
        assert(done.has(d) == a.targets.has(d));
        law_affected_told(shown.services, done, needed, d);
    }
    let b = after_tell(shown, needed);
    let n = a.events.len() as int;
    assert(told.events[n] == (EventModel::OpStart { op: "converge"@, target_or_service: name }));
    assert(shown.events[n] == told.events[n]);
    assert(b.events[n] == shown.events[n]);
}

/// Services that a target needs are brought up in the order of what starts after what.
pub proof fn law_needed_in_order(order: Seq<Str>, refs: Seq<RefModel>, i: int, j: int)
    requires
        order.no_duplicates(),
        0 <= i < j < order.len(),
        exists|k: int| 0 <= k < refs.len() && (#[trigger] refs[k]).service == order[i],
        exists|k: int| 0 <= k < refs.len() && (#[trigger] refs[k]).service == order[j],
    ensures
        exists|a: int, b: int|
            0 <= a < b < needed_services(order, refs).len() && #[trigger] needed_services(
                order,
                refs,
            )[a] == order[i] && #[trigger] needed_services(order, refs)[b] == order[j],
{
    let set = crate::converge::distinct_services(refs);
    crate::converge_laws::lemma_distinct(refs, order[i]);
    crate::converge_laws::lemma_distinct(refs, order[j]);
    let listed = listed_in(order, set);
    let (a, b) = lemma_listed_order(order, set, i, j);
    lemma_names_behind(listed, set);
    assert(needed_services(order, refs)[a] == listed[a]);
    assert(needed_services(order, refs)[b] == listed[b]);
}

proof fn lemma_names_behind(s: Seq<Str>, more: Seq<Str>)
    ensures
        with_names(s, more).len() >= s.len(),
        forall|i: int| 0 <= i < s.len() ==> #[trigger] with_names(s, more)[i] == s[i],
    decreases more.len(),
{
    if more.len() > 0 {
        lemma_names_behind(s, more.drop_last());
    }
}

proof fn lemma_listed_at(order: Seq<Str>, set: Seq<Str>, i: int) -> (a: int)
    requires
        0 <= i < order.len(),
        set.contains(order[i]),
    ensures
        0 <= a < listed_in(order, set).len(),
        listed_in(order, set)[a] == order[i],
    decreases order.len(),
{
    let front = order.drop_last();
    let before = listed_in(front, set);
    let after = listed_in(order, set);
    if i < front.len() {
        assert(front[i] == order[i]);
        let a = lemma_listed_at(front, set, i);
        assert(after[a] == before[a]);
        a
    } else if before.contains(order[i]) {
        let a = choose|a: int| 0 <= a < before.len() && before[a] == order[i];
        assert(after[a] == order[i]);
        a
    } else {
        assert(after[before.len() as int] == order[i]);
        before.len() as int
    }
}

proof fn lemma_listed_from(order: Seq<Str>, set: Seq<Str>, x: Str)
    requires
        listed_in(order, set).contains(x),
    ensures
        order.contains(x),
    decreases order.len(),
{
    if order.len() > 0 {
        let front = order.drop_last();
        let before = listed_in(front, set);
        let last = order[order.len() - 1];
        if before.contains(x) {
            lemma_listed_from(front, set, x);
            let i = choose|i: int| 0 <= i < front.len() && front[i] == x;
            assert(order[i] == x);
        } else {
            crate::names::lemma_with_name(before, last);
            assert(x == last);
        }
    }
}

proof fn lemma_listed_order(order: Seq<Str>, set: Seq<Str>, i: int, j: int) -> (at: (int, int))
    requires
        order.no_duplicates(),
        0 <= i < j < order.len(),
        set.contains(order[i]),
        set.contains(order[j]),
    ensures
        0 <= at.0 < at.1 < listed_in(order, set).len(),
        listed_in(order, set)[at.0] == order[i],
        listed_in(order, set)[at.1] == order[j],
    decreases order.len(),
{
    let front = order.drop_last();
    let before = listed_in(front, set);
    let after = listed_in(order, set);
    if j < front.len() {
        assert(front[i] == order[i] && front[j] == order[j]);
        let (a, b) = lemma_listed_order(front, set, i, j);
        assert(after[a] == before[a] && after[b] == before[b]);
        (a, b)
    } else {
        assert(front[i] == order[i]);
        let a = lemma_listed_at(front, set, i);
        if before.contains(order[j]) {
            lemma_listed_from(front, set, order[j]);
            let k = choose|k: int| 0 <= k < front.len() && front[k] == order[j];
            assert(order[k] == order[j]);
        }
        assert(after[a] == before[a]);
        assert(after[before.len() as int] == order[j]);
        (a, before.len() as int)
    }
}

/// Where probes are to be checked again all checks are sent out that are due then, of services that
/// run, and no others. The services that were asked about are kept, and no target changes.
pub proof fn law_begun_checks(a: AppModel, refs: Seq<RefModel>, affected: Seq<Str>, r: RefModel)
    ensures
        ({
            let (b, next) = begun(a, refs, affected);
            let runs = b.services.keys.contains(r.service) && b.services.at(r.service).state
                == ServiceState::Running && b.services.at(r.service).probes.keys.contains(r.probe);
            &&& runs && is_due(b.services, r) ==> exists|j: int|
                0 <= j < next.pending.len() && is_check_of(
                    #[trigger] next.pending[j],
                    b.services,
                    r,
                )
            &&& forall|j: int|
                0 <= j < next.pending.len() && (#[trigger] next.pending[j]).probe_ref == r ==> runs
                    && is_due(b.services, r)
            &&& next.affected == affected
            &&& b.targets == a.targets
            &&& b.graph == a.graph
            &&& b.current_op == a.current_op
        }),
{
    let (b, next) = begun(a, refs, affected);
    let all = running_refs(b.services, b.services.keys);
    law_running_probes(b.services, b.services.keys, r);
    law_due_checks(b.services, all);
    if all.contains(r) && is_due(b.services, r) {
        let i = choose|i: int| 0 <= i < all.len() && all[i] == r;
        assert(is_due(b.services, all[i]));
    }
}

proof fn lemma_nothing_changed(s: ServicesModel)
    ensures
        only_probes_changed(s, s),
{
    assert forall|k: Str| #[trigger] s.has(k) implies only_probes_differ(s.at(k), s.at(k)) by {}
}

proof fn lemma_keys_valid(a: ServicesModel, s: ServicesModel)
    requires
        a.valid(),
        only_probes_changed(a, s),
    ensures
        s.valid(),
{
    assert forall|k: Str| #[trigger] s.map.contains_key(k) <==> s.keys.contains(k) by {
        assert(a.has(k) == s.has(k));
        assert(a.map.contains_key(k) <==> a.keys.contains(k));
    }
}

proof fn lemma_release_takes(
    g: Layer,
    a: ServicesModel,
    st: Step,
    held: HeldModel,
    i: nat,
    x: RefModel,
    o: OutcomeModel,
)
    requires
        goes_on(a, st.services, x),
        has_taken(st.services, x, o),
        in_time(a, x, o),
        forall|j: int|
            0 <= j < held.len() ==> probe_at(a, (#[trigger] held[j]).0) is Some && held[j].0 != x,
    ensures
        ({
            let (next, left) = release_from(g, st, held, i);
            &&& goes_on(a, next.services, x)
            &&& has_taken(next.services, x, o)
            &&& forall|j: int|
                0 <= j < left.len() ==> probe_at(a, (#[trigger] left[j]).0) is Some && left[j].0
                    != x
        }),
    decreases held.len() - i,
{
    if i < held.len() {
        let (r, other) = held[i as int];
        if deps_green(st.services, r) {
            let fewer = held.remove(i as int);
            assert forall|j: int| 0 <= j < fewer.len() implies probe_at(
                a,
                (#[trigger] fewer[j]).0,
            ) is Some && fewer[j].0 != x by {
                if j < i {
                    assert(fewer[j] == held[j]);
                } else {
                    assert(fewer[j] == held[j + 1]);
                }
            }
            assert(held[i as int].0 == r);
            lemma_apply_goes_on(g, a, st.services, st.report, r, other, x, o);
            lemma_release_takes(g, a, apply_held(g, st, r, other), fewer, i, x, o);
        } else {
            lemma_release_takes(g, a, st, held, i + 1, x, o);
        }
    }
}

proof fn lemma_release_all_takes(
    g: Layer,
    a: ServicesModel,
    st: Step,
    held: HeldModel,
    x: RefModel,
    o: OutcomeModel,
)
    requires
        goes_on(a, st.services, x),
        has_taken(st.services, x, o),
        in_time(a, x, o),
        forall|j: int|
            0 <= j < held.len() ==> probe_at(a, (#[trigger] held[j]).0) is Some && held[j].0 != x,
    ensures
        goes_on(a, release_all(g, st, held).0.services, x),
        has_taken(release_all(g, st, held).0.services, x, o),
    decreases held.len(),
{
    lemma_release_takes(g, a, st, held, 0, x, o);
    let (next, left) = release_from(g, st, held, 0);
    if left.len() < held.len() {
        lemma_release_all_takes(g, a, next, left, x, o);
    }
}

/// An outcome that failed, or one that passed once all that its probe depends on is green, is taken
/// in at once, whatever is released by it.
pub proof fn law_outcome_taken(
    g: Layer,
    at: Progress,
    held: HeldModel,
    r: RefModel,
    o: OutcomeModel,
)
    requires
        probe_at(at.services, r) matches Some(p) && !(p.probe_config is Meta),
        in_time(at.services, r, o),
        forall|k: Str| #[trigger] at.services.has(k) ==> at.services.at(k).probes.valid(),
        forall|j: int|
            0 <= j < held.len() ==> probe_at(at.services, (#[trigger] held[j]).0) is Some
                && held[j].0 != r,
        o.result is Failed || forall|i: int|
            0 <= i < at.services.at(r.service).probes.at(r.probe).depends_on.len() ==> is_green(
                at.services,
                #[trigger] at.services.at(r.service).probes.at(r.probe).depends_on[i],
            ),
    ensures
        has_taken(take_outcome(g, at, held, r, o).0.services, r, o),
{
    let a = at.services;
    let deps = probe_at(a, r)->0.depends_on;
    if o.result is Passed {
        assert forall|i: int| 0 <= i < deps.len() implies crate::runtime::green_at(
            a,
            #[trigger] deps[i],
        ) by {
            assert(is_green(a, a.at(r.service).probes.at(r.probe).depends_on[i]));
        }
        assert(deps_green(a, r));
    }
    lemma_nothing_changed(a);
    lemma_apply_goes_on(g, a, a, at.report, r, o, r, o);
    let first = apply_outcome(g, a, at.report, r, o);
    let st = Step { services: first.services, report: first.report, affected: seq![r.service] };
    lemma_release_all_takes(g, a, st, held, r, o);
    let next = release_all(g, st, held).0;
    lemma_updates_spare(
        a,
        Progress { services: next.services, report: next.report },
        next.affected,
        r,
    );
}

/// An outcome for which nothing was held back does what applying it does, with the meta probes of
/// its service brought up to date then.
pub proof fn law_outcome_alone(g: Layer, at: Progress, r: RefModel, o: OutcomeModel)
    requires
        o.result is Failed || deps_green(at.services, r),
    ensures
        ({
            let step = apply_outcome(g, at.services, at.report, r, o);
            let (next, left) = take_outcome(g, at, Seq::empty(), r, o);
            &&& next == update_service(
                Progress { services: step.services, report: step.report },
                r.service,
            )
            &&& left.len() == 0
        }),
{
    let step = apply_outcome(g, at.services, at.report, r, o);
    let st = Step { services: step.services, report: step.report, affected: seq![r.service] };
    let none: HeldModel = Seq::empty();
    assert(release_from(g, st, none, 0) == (st, none));
    assert(release_all(g, st, none) == (st, none));
    assert(st.affected.drop_last() =~= Seq::<Str>::empty());
    reveal_with_fuel(update_services, 2);
}

/// Whether a probe that has a check of its own is in the right state after a check: red with the
/// error if it failed, and else as what it depends on says.
pub open spec fn rightly_checked(
    s: ServicesModel,
    r: RefModel,
    o: OutcomeModel,
    q: ProbeModel,
) -> bool {
    &&& has_taken_in(q, o)
    &&& o.result is Passed ==> rightly_passed(
        s,
        s.at(r.service).probes.at(r.probe).depends_on,
        q.state,
    )
}

/// Whether a probe knows how long a check took, and is red with the error where it failed.
pub open spec fn has_taken_in(q: ProbeModel, o: OutcomeModel) -> bool {
    q.last_probe_ms == Some(crate::batch_laws::time_of(o)) && (o.result is Failed ==> q.state
        == StateModel::Red(
        crate::model::RedModel::ProbeFailed {
            error: o.result->error,
            duration_ms: o.result->Failed_duration_ms,
        },
    ) && q.last_error == Some(o.result->error))
}

/// A check in a round that comes in time decides on its probe: it is red with the error where the
/// check failed, and else green, or red or pending behind what it depends on.
pub proof fn law_check_in_round(
    a: AppModel,
    statuses: Table<StatusModel>,
    r: RefModel,
    o: OutcomeModel,
)
    requires
        a.services.valid(),
        probe_at(a.services, r) matches Some(p) && !(p.probe_config is Meta),
        a.services.at(r.service).probes.valid(),
        in_time(a.services, r, o),
    ensures
        probe_at(outcome_applied(a, statuses, r, o).0.services, r) matches Some(q)
            && rightly_checked(a.services, r, o, q),
{
    let g = a.graph.probes;
    let report = a.report(statuses);
    let name = r.service;
    law_outcome_decides(g, a.services, report, r, o);
    law_apply_changes_probes(g, a.services, report, r, o);
    let step = apply_outcome(g, a.services, report, r, o);
    assert(a.services.has(name) == step.services.has(name));
    assert(only_probes_differ(a.services.at(name), step.services.at(name)));
    lemma_probes_valid(a.services.at(name), step.services.at(name));
    let at = Progress { services: step.services, report: step.report };
    lemma_update_spares(at, name, r);
    law_meta_changes_probes(at, name);
    let then = update_service(at, name).services;
    lemma_only_probes_trans(a.services, step.services, then);
    lemma_keys_valid(a.services, then);
    law_show_keeps(then, a.targets, name);
}

/// A round that does not end in a restart after a check ends if and only if all that the target
/// needs is green then.
pub proof fn law_check_may_end_round(a: AppModel, c: ConvergenceModel, r: RefModel, o: OutcomeModel)
    requires
        a.services.valid(),
        probe_at(a.services, r) is Some,
        a.services.at(r.service).probes.valid(),
        probed(a, c, r, o).2.outcome != Some(PipelineOutcome::Restarted),
    ensures
        ({
            let (e, _, next) = probed(a, c, r, o);
            &&& next.outcome == Some(PipelineOutcome::AllGreen) <==> forall|i: int|
                0 <= i < c.probes.len() ==> is_green(e.services, #[trigger] c.probes[i])
            &&& next.outcome != Some(PipelineOutcome::AllGreen) ==> next.outcome is None
        }),
{
    let e = probed(a, c, r, o).0;
    law_restarts_what_fails(a, c, r, o);
    law_round_ends_green(e.services, c.probes, Seq::empty());
}

/// Where a round ends in a restart each probe of the service is red because it was stopped, checks
/// that are still under way are out of date, and the restart is told.
pub proof fn law_restart_in_round(
    a: AppModel,
    c: ConvergenceModel,
    r: RefModel,
    o: OutcomeModel,
    p: Str,
)
    requires
        a.services.valid(),
        probe_at(a.services, r) is Some,
        a.services.at(r.service).probes.valid(),
        probed(a, c, r, o).2.outcome == Some(PipelineOutcome::Restarted),
    ensures
        ({
            let e = probed(a, c, r, o).0;
            let before = a.services.at(r.service);
            let after = e.services.at(r.service);
            &&& before.probes.has(p) ==> after.probes.at(p).state == StateModel::Red(
                RedModel::Stopped,
            )
            &&& after.generation == (before.generation + 1) as u64
            &&& exists|j: int|
                0 <= j < e.events.len() && #[trigger] e.events[j] == (EventModel::OpStart {
                    op: "restart"@,
                    target_or_service: r.service,
                })
        }),
{
    let name = r.service;
    let b = outcome_applied(a, c.statuses, r, o).0;
    law_outcome_changes_probes(a, c.statuses, r, o);
    assert(b.services.has(name) == a.services.has(name));
    assert(same_but_probes(a.services.at(name), b.services.at(name)));
    assert(a.services.at(name).probes.has(p) == b.services.at(name).probes.has(p));
    let event = EventModel::OpStart { op: "restart"@, target_or_service: name };
    let begun = crate::reprobe::told(b, event);
    law_stopped(begun, name, p);
    let j = b.events.len() as int;
    assert(begun.events[j] == event);
    lemma_stop_tells(begun, name, j);
    let e = crate::lifecycle::stopped(begun, name).0;
    assert(after_tell(e, seq![name]).events[j] == event);
}

proof fn lemma_stop_tells(a: AppModel, name: Str, j: int)
    requires
        0 <= j < a.events.len(),
    ensures
        j < crate::lifecycle::stopped(a, name).0.events.len(),
        crate::lifecycle::stopped(a, name).0.events[j] == a.events[j],
{
    let svc = a.services.at(name);
    let to = StateModel::Red(RedModel::Stopped);
    let s = a.services.put(
        name,
        crate::ops::move_service(
            crate::lifecycle::next_generation(svc, ServiceState::Stopped),
            crate::ops::Stay::Nothing,
            to,
        ),
    );
    let moves = crate::ops::move_changes(
        name,
        svc.probes,
        svc.probes.keys,
        crate::ops::Stay::Nothing,
        to,
    );
    lemma_report_adds(s, moves, a.report(Table::empty()), j);
    let first = report_changes(s, moves, a.report(Table::empty()));
    let (after, changes) = crate::ops::pass_on(a.graph.probes, name, svc.probes.keys, s);
    lemma_report_adds(after, changes, first, j);
}

proof fn lemma_report_adds(s: ServicesModel, changes: Seq<ChangeModel>, report: Report, j: int)
    requires
        0 <= j < report.events.len(),
    ensures
        j < report_changes(s, changes, report).events.len(),
        report_changes(s, changes, report).events[j] == report.events[j],
    decreases changes.len(),
{
    if changes.len() > 0 {
        lemma_report_adds(s, changes.drop_last(), report, j);
    }
}

/// What a round was asked for stays as it is after a check.
pub proof fn law_round_keeps_aim(a: AppModel, c: ConvergenceModel, r: RefModel, o: OutcomeModel)
    ensures
        probed(a, c, r, o).1.target == c.target,
        probed(a, c, r, o).1.allow_restart == c.allow_restart,
        probed(a, c, r, o).1.services == c.services,
        probed(a, c, r, o).1.statuses == outcome_applied(a, c.statuses, r, o).1,
{
}

/// A round is begun for all services that have a probe which the target needs, and for no others,
/// and tells of no probe yet.
pub proof fn law_round_begins_for(a: AppModel, name: Str, allow_restart: bool, x: Str)
    ensures
        converge_begun(a, name, allow_restart).1.services.contains(x) <==> exists|i: int|
            0 <= i < a.targets.at(name).transitive_probes.len() && (
            #[trigger] a.targets.at(name).transitive_probes[i]).service == x,
        converge_begun(a, name, allow_restart).1.statuses.keys.len() == 0,
{
    law_needed_services(a.graph.topo_order, a.targets.at(name).transitive_probes, x);
}

/// When the checks of a start have come in, each is taken in, if it is the last one for its probe.
pub proof fn law_start_takes_all(
    a: AppModel,
    statuses: Table<StatusModel>,
    batch: Seq<(RefModel, OutcomeModel)>,
    i: int,
)
    requires
        a.services.valid(),
        batch_known(a.services, batch),
        forall|k: Str| #[trigger] a.services.has(k) ==> a.services.at(k).probes.valid(),
        0 <= i < batch.len(),
        forall|j: int| i < j < batch.len() ==> (#[trigger] batch[j]).0 != batch[i].0,
        in_time(a.services, batch[i].0, batch[i].1),
        !(probe_at(a.services, batch[i].0)->0.probe_config is Meta),
        a.graph.probe_topo_order.contains(batch[i].0.text()),
    ensures
        has_taken(after_batch(a, statuses, batch).0.services, batch[i].0, batch[i].1),
        has_taken(apply_rest(a, statuses, batch).0.services, batch[i].0, batch[i].1),
{
    let st = a.step(statuses, Seq::empty());
    law_batch_takes_all(a.graph.probes, batch, a.graph.probe_topo_order, st, i);
    let step = crate::batch::resolve_batch(a.graph.probes, batch, a.graph.probe_topo_order, st);
    lemma_keys_valid(a.services, step.services);
    law_show_keeps(step.services, a.targets, batch[i].0.service);
}

/// That a service was started is told last, as the begin of an operation.
pub proof fn law_start_told(a: AppModel, name: Str, log_since: i64)
    ensures
        started(a, name, log_since).events.last() == (EventModel::OpStart {
            op: "start"@,
            target_or_service: name,
        }),
{
}

/// White space around a duration does not matter.
pub proof fn law_space_around_duration(s: Str)
    ensures
        duration_of(trimmed(s)) == duration_of(s),
{
    crate::text_laws::law_trimmed(s);
    let t = trimmed(s);
    assert(trimmed(t) == t);
}

} // verus!
