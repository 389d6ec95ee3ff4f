//! Which checks are sent out, what a round begins with, and how meta probes follow.
use crate::apply::passed_state;
use crate::apply_laws::{is_bad, is_waiting, law_passed_state, rightly_passed};
use crate::batch::{first_unsatisfied, meta_names, meta_state, update_meta, Progress};
use crate::converge::{put_all, round_for, task_for, tasks_for, ProbeTaskModel};
use crate::events::EventModel;
use crate::graph::Layer;
use crate::keeps::lemma_only_probes_trans;
use crate::meta_laws::relies_on;
use crate::model::{lemma_ref_round_trip, PendingModel, RefModel, ServiceState, StateModel};
use crate::ops::{ok_response, ActionsModel, StatusModel, TargetStatusModel};
use crate::ordered_map::Table;
use crate::probe_meta::{acyclic, deps_satisfied, rank_of, ranked_by, satisfied};
use crate::propagate::{moved, pending_result};
use crate::propagate_laws::{
    kept_or_moved, law_only_red_reddens, law_pending_keeps_failures, lemma_set_probe,
    only_probes_changed, only_probes_differ,
};
use crate::reprobe::mark_again;
use crate::resolve::{pending_among, refs_in, running_refs, to_check, PendingProbeModel};
use crate::round_laws::is_green;
use crate::runtime::{probe_at, red_at, set_probe, ProbeModel, ServiceModel, ServicesModel};
use crate::text::Str;
use vstd::prelude::*;

verus! {

/// Whether a probe is there, awaits a check, and has a check of its own.
pub open spec fn is_due(s: ServicesModel, r: RefModel) -> bool {
    &&& s.has(r.service)
    &&& s.at(r.service).probes.has(r.probe)
    &&& s.at(r.service).probes.at(r.probe).state is Pending
    &&& !(s.at(r.service).probes.at(r.probe).probe_config is Meta)
}

/// Whether a check is that of a probe: of its container, with its configuration, for log lines from
/// the last start on, and in the generation that its service is in.
pub open spec fn is_check_of(t: PendingProbeModel, s: ServicesModel, r: RefModel) -> bool {
    let svc = s.at(r.service);
    &&& t.probe_ref == r
    &&& t.service_name == svc.name
    &&& t.container == svc.container
    &&& t.config == svc.probes.at(r.probe).probe_config
    &&& t.log_since == svc.log_since
    &&& t.generation == svc.generation
}

/// Of some probes just those are checked that are due, each as it is configured.
pub proof fn law_due_checks(s: ServicesModel, refs: Seq<RefModel>)
    ensures
        forall|i: int|
            0 <= i < refs.len() && is_due(s, #[trigger] refs[i]) ==> exists|j: int|
                0 <= j < pending_among(s, refs).len() && is_check_of(
                    #[trigger] pending_among(s, refs)[j],
                    s,
                    refs[i],
                ),
        forall|j: int|
            0 <= j < pending_among(s, refs).len() ==> is_due(
                s,
                (#[trigger] pending_among(s, refs)[j]).probe_ref,
            ) && refs.contains(pending_among(s, refs)[j].probe_ref) && is_check_of(
                pending_among(s, refs)[j],
                s,
                pending_among(s, refs)[j].probe_ref,
            ),
    decreases refs.len(),
{
    let after = pending_among(s, refs);
    if refs.len() == 0 {
        assert(after.len() == 0);
    } else {
        let front = refs.drop_last();
        let n = refs.len() - 1;
        law_due_checks(s, front);
        let before = pending_among(s, front);
        assert(refs[n] == refs.last());
        assert forall|i: int| 0 <= i < refs.len() && is_due(s, #[trigger] refs[i]) implies exists|
            j: int,
        |
            0 <= j < after.len() && is_check_of(#[trigger] after[j], s, refs[i]) by {
            if i < n {
                assert(front[i] == refs[i]);
                let j = choose|j: int|
                    0 <= j < before.len() && is_check_of(#[trigger] before[j], s, front[i]);
                assert(after[j] == before[j]);
                assert(is_check_of(after[j], s, refs[i]));
            } else {
                assert(is_check_of(after[before.len() as int], s, refs[i]));
            }
        }
        assert forall|j: int| 0 <= j < after.len() implies is_due(
            s,
            (#[trigger] after[j]).probe_ref,
        ) && refs.contains(after[j].probe_ref) && is_check_of(after[j], s, after[j].probe_ref) by {
            if j < before.len() {
                assert(after[j] == before[j]);
                let i = choose|i: int| 0 <= i < front.len() && front[i] == before[j].probe_ref;
                assert(refs[i] == after[j].probe_ref);
            } else {
                assert(after[j] == to_check(s, refs[n]));
            }
        }
    }
}

/// The probes of the services that run are those of each service of a list that runs, and no
/// others.
pub proof fn law_running_probes(s: ServicesModel, keys: Seq<Str>, r: RefModel)
    ensures
        running_refs(s, keys).contains(r) <==> keys.contains(r.service) && s.at(r.service).state
            == ServiceState::Running && s.at(r.service).probes.keys.contains(r.probe),
    decreases keys.len(),
{
    let after = running_refs(s, keys);
    if keys.len() > 0 {
        let front = keys.drop_last();
        let last = keys[keys.len() - 1];
        law_running_probes(s, front, r);
        let before = running_refs(s, front);
        let mine = refs_in(last, s.at(last).probes.keys);
        if front.contains(r.service) {
            let i = choose|i: int| 0 <= i < front.len() && front[i] == r.service;
            assert(keys[i] == r.service);
        }
        if keys.contains(r.service) && r.service != last {
            let i = choose|i: int| 0 <= i < keys.len() && keys[i] == r.service;
            assert(front[i] == r.service);
        }
        assert(keys.contains(last));
        if before.contains(r) {
            let i = choose|i: int| 0 <= i < before.len() && before[i] == r;
            assert(after[i] == r);
        }
        if r.service == last && s.at(last).state == ServiceState::Running && s.at(
            last,
        ).probes.keys.contains(r.probe) {
            let probes = s.at(last).probes.keys;
            let i = choose|i: int| 0 <= i < probes.len() && probes[i] == r.probe;
            assert(mine[i] == r);
            assert(after[before.len() + i] == r);
        }
        if after.contains(r) && !before.contains(r) {
            let i = choose|i: int| 0 <= i < after.len() && after[i] == r;
            if i < before.len() {
                assert(before[i] == r);
            } else {
                assert(mine[i - before.len()] == r);
                assert(s.at(last).probes.keys[i - before.len()] == r.probe);
            }
        }
    }
}

/// Whether some probes are all there, and their services all run.
pub open spec fn all_run(s: ServicesModel, refs: Seq<RefModel>) -> bool {
    forall|i: int|
        0 <= i < refs.len() ==> s.has((#[trigger] refs[i]).service) && s.at(
            refs[i].service,
        ).probes.has(refs[i].probe) && s.at(refs[i].service).state == ServiceState::Running
            && !refs[i].service.contains('.')
}

/// Probes of running services that are to be checked again all await a check then. No service
/// changes but for the values of its probes.
pub proof fn law_marked_await(g: Layer, refs: Seq<RefModel>, s: ServicesModel)
    requires
        all_run(s, refs),
    ensures
        only_probes_changed(s, mark_again(g, refs, s).0),
        forall|i: int|
            0 <= i < refs.len() ==> is_waiting(mark_again(g, refs, s).0, #[trigger] refs[i]),
    decreases refs.len(),
{
    if refs.len() == 0 {
        assert(only_probes_changed(s, s)) by {
            assert forall|k: Str| #[trigger] s.has(k) implies only_probes_differ(
                s.at(k),
                s.at(k),
            ) by {}
        }
    } else {
        let front = refs.drop_last();
        let n = refs.len() - 1;
        assert(all_run(s, front)) by {
            assert forall|i: int| 0 <= i < front.len() implies s.has((#[trigger] front[i]).service)
                && s.at(front[i].service).probes.has(front[i].probe) && s.at(front[i].service).state
                == ServiceState::Running && !front[i].service.contains('.') by {
                assert(front[i] == refs[i]);
            }
        }
        law_marked_await(g, front, s);
        let (so_far, changes) = mark_again(g, front, s);
        let r = refs[n];
        assert(r == refs.last());
        assert(s.has(r.service) == so_far.has(r.service));
        assert(only_probes_differ(s.at(r.service), so_far.at(r.service)));
        assert(s.at(r.service).probes.has(r.probe) == so_far.at(r.service).probes.has(r.probe));
        let to = StateModel::Pending(PendingModel::Reprobing);
        let p = probe_at(so_far, r)->0;
        let (marked, listed) = if !(p.state is Pending) {
            (set_probe(so_far, r, moved(p, to)), changes.push((r, to, p.state)))
        } else {
            (so_far, changes)
        };
        if !(p.state is Pending) {
            lemma_set_probe(so_far, r, moved(p, to));
            assert(only_probes_changed(so_far, marked)) by {
                assert forall|k: Str| #[trigger] so_far.has(k) == marked.has(k) by {}
                assert forall|k: Str| #[trigger] so_far.has(k) implies only_probes_differ(
                    so_far.at(k),
                    marked.at(k),
                ) by {}
            }
            lemma_only_probes_trans(s, so_far, marked);
        }
        lemma_ref_round_trip(r);
        law_pending_keeps_failures(g, r.text(), marked, listed, r);
        let after = pending_result(g, r.text(), marked, listed).services;
        lemma_only_probes_trans(s, marked, after);
        assert(mark_again(g, refs, s).0 == after);
        assert forall|i: int| 0 <= i < refs.len() implies is_waiting(after, #[trigger] refs[i]) by {
            let x = refs[i];
            if i < n {
                assert(front[i] == x);
                assert(is_waiting(so_far, x));
            }
            assert(is_waiting(marked, x));
            law_pending_keeps_failures(g, r.text(), marked, listed, x);
            assert(kept_or_moved(marked, after, x, false));
            if red_at(after, x) {
                law_only_red_reddens(g, r.text(), marked, listed, x);
            }
        }
    }
}

/// Whether a task is to check a probe of a service: one that is not green and has a check of its
/// own, as it is configured, once what it depends on is green.
pub open spec fn is_task_of(t: ProbeTaskModel, name: Str, svc: ServiceModel, probe: Str) -> bool {
    let p = svc.probes.at(probe);
    &&& t.probe.probe_ref == (RefModel { service: name, probe })
    &&& t.probe.service_name == name
    &&& t.probe.container == svc.container
    &&& t.probe.config == p.probe_config
    &&& t.probe.log_since == svc.log_since
    &&& t.probe.generation == svc.generation
    &&& t.depends_on == p.depends_on
}

/// Whether a probe is to be checked in a round.
pub open spec fn is_open(svc: ServiceModel, probe: Str) -> bool {
    svc.probes.at(probe).state != StateModel::Green && !(svc.probes.at(probe).probe_config is Meta)
}

/// Of some probes of a service just those are checked in a round that are not green and have a
/// check of their own.
pub proof fn law_tasks_of_service(name: Str, svc: ServiceModel, keys: Seq<Str>)
    ensures
        forall|i: int|
            0 <= i < keys.len() && is_open(svc, #[trigger] keys[i]) ==> exists|j: int|
                0 <= j < tasks_for(name, svc, keys).len() && is_task_of(
                    #[trigger] tasks_for(name, svc, keys)[j],
                    name,
                    svc,
                    keys[i],
                ),
        forall|j: int|
            0 <= j < tasks_for(name, svc, keys).len() ==> ({
                let t = #[trigger] tasks_for(name, svc, keys)[j];
                let probe = t.probe.probe_ref.probe;
                keys.contains(probe) && is_open(svc, probe) && is_task_of(t, name, svc, probe)
            }),
    decreases keys.len(),
{
    let after = tasks_for(name, svc, keys);
    if keys.len() == 0 {
        assert(after.len() == 0);
    } else {
        let front = keys.drop_last();
        let n = keys.len() - 1;
        law_tasks_of_service(name, svc, front);
        let before = tasks_for(name, svc, front);
        assert(keys[n] == keys.last());
        assert forall|i: int| 0 <= i < keys.len() && is_open(svc, #[trigger] keys[i]) implies exists|
            j: int,
        |
            0 <= j < after.len() && is_task_of(#[trigger] after[j], name, svc, keys[i]) by {
            if i < n {
                assert(front[i] == keys[i]);
                let j = choose|j: int|
                    0 <= j < before.len() && is_task_of(#[trigger] before[j], name, svc, front[i]);
                assert(after[j] == before[j]);
                assert(is_task_of(after[j], name, svc, keys[i]));
            } else {
                assert(is_task_of(after[before.len() as int], name, svc, keys[i]));
            }
        }
        assert forall|j: int| 0 <= j < after.len() implies ({
            let t = #[trigger] after[j];
            let probe = t.probe.probe_ref.probe;
            keys.contains(probe) && is_open(svc, probe) && is_task_of(t, name, svc, probe)
        }) by {
            if j < before.len() {
                assert(after[j] == before[j]);
                let probe = before[j].probe.probe_ref.probe;
                let i = choose|i: int| 0 <= i < front.len() && front[i] == probe;
                assert(keys[i] == probe);
            } else {
                assert(after[j] == task_for(name, svc, keys[n]));
            }
        }
    }
}

/// The next service of a round is started, after the probes that it starts after, if and only if
/// it does not run. Else its probes are checked.
pub proof fn law_round_grows(s: ServicesModel, names: Seq<Str>, name: Str)
    ensures
        ({
            let a = round_for(s, names);
            let b = round_for(s, names.push(name));
            let svc = s.at(name);
            if svc.state == ServiceState::Running {
                b.starts == a.starts && b.probes == a.probes + tasks_for(name, svc, svc.probes.keys)
            } else {
                b.probes == a.probes && b.starts.len() == a.starts.len() + 1 && b.starts.take(
                    a.starts.len() as int,
                ) == a.starts && b.starts.last().service == name && b.starts.last().start_after
                    == svc.start_after
            }
        }),
{
    assert(names.push(name).drop_last() =~= names);
    let a = round_for(s, names);
    let b = round_for(s, names.push(name));
    if s.at(name).state != ServiceState::Running {
        assert(b.starts.take(a.starts.len() as int) =~= a.starts);
    }
}

/// All that a probe depends on is satisfied if and only if the probe is there, and each probe that
/// one of those relies on is green, with a service that runs.
pub proof fn law_deps_satisfied(s: ServicesModel, r: RefModel)
    requires
        acyclic(s),
    ensures
        probe_at(s, r) is None ==> !deps_satisfied(s, r),
        probe_at(s, r) matches Some(p) ==> (deps_satisfied(s, r) <==> forall|i: int, q: RefModel|
            #![trigger relies_on(s, p.depends_on[i], q)]
            0 <= i < p.depends_on.len() && relies_on(s, p.depends_on[i], q) ==> is_green(s, q)
                && s.at(q.service).state == ServiceState::Running),
{
    let deps = probe_at(s, r)->0.depends_on;
    if probe_at(s, r) is Some {
        assert forall|i: int| 0 <= i < deps.len() implies satisfied(s, #[trigger] deps[i])
            == forall|q: RefModel| #[trigger]
            relies_on(s, deps[i], q) ==> is_green(s, q) && s.at(q.service).state
                == ServiceState::Running by {
            law_satisfied(s, deps[i]);
        }
    }
}

/// A probe is satisfied if and only if it is green, its service runs, and so it is with each probe
/// that it depends on, directly or through others.
pub proof fn law_satisfied(s: ServicesModel, r: RefModel)
    requires
        acyclic(s),
    ensures
        satisfied(s, r) <==> forall|q: RefModel| #[trigger]
            relies_on(s, r, q) ==> is_green(s, q) && s.at(q.service).state == ServiceState::Running,
    decreases rank_of(s, r),
{
    let deps = probe_at(s, r)->0.depends_on;
    if probe_at(s, r) is Some {
        assert forall|i: int| 0 <= i < deps.len() implies rank_of(s, #[trigger] deps[i]) < rank_of(
            s,
            r,
        ) by {
            let rank = choose|rank: spec_fn(RefModel) -> nat| ranked_by(s, rank);
            assert(rank(probe_at(s, r)->0.depends_on[i]) < rank(r));
        }
    }
    assert(relies_on(s, r, r));
    if satisfied(s, r) {
        assert forall|q: RefModel| #[trigger] relies_on(s, r, q) implies is_green(s, q) && s.at(
            q.service,
        ).state == ServiceState::Running by {
            if q != r {
                let i = choose|i: int|
                    0 <= i < probe_at(s, r)->0.depends_on.len() && relies_on(
                        s,
                        #[trigger] probe_at(s, r)->0.depends_on[i],
                        q,
                    );
                assert(satisfied(s, deps[i]));
                assert(rank_of(s, deps[i]) < rank_of(s, r));
                law_satisfied(s, deps[i]);
            }
        }
    }
    if forall|q: RefModel| #[trigger]
        relies_on(s, r, q) ==> is_green(s, q) && s.at(q.service).state == ServiceState::Running {
        assert(is_green(s, r));
        assert forall|i: int| 0 <= i < probe_at(s, r)->0.depends_on.len() implies satisfied(
            s,
            #[trigger] probe_at(s, r)->0.depends_on[i],
        ) by {
            assert(deps[i] == probe_at(s, r)->0.depends_on[i]);
            assert(rank_of(s, deps[i]) < rank_of(s, r));
            law_satisfied(s, deps[i]);
            assert forall|q: RefModel| #[trigger] relies_on(s, deps[i], q) implies is_green(s, q)
                && s.at(q.service).state == ServiceState::Running by {
                assert(relies_on(s, probe_at(s, r)->0.depends_on[i], q));
                assert(relies_on(s, r, q));
            }
        }
    }
}

/// A meta probe that is not green is red behind the first probe that it depends on which is missing
/// or red, and pending behind another one where none is.
pub proof fn law_meta_behind(s: ServicesModel, r: RefModel)
    requires
        probe_at(s, r) is Some,
    ensures
        ({
            let deps = s.at(r.service).probes.at(r.probe).depends_on;
            match meta_state(s, r) {
                StateModel::Green => true,
                StateModel::Red(why) => rightly_passed(s, deps, StateModel::Red(why)),
                StateModel::Pending(why) => (forall|i: int|
                    0 <= i < deps.len() ==> !is_bad(s, #[trigger] deps[i])) && (
                why matches PendingModel::DepNotReady { dep } && deps.contains(dep)),
            }
        }),
{
    let deps = probe_at(s, r)->0.depends_on;
    law_passed_state(s, deps);
    lemma_unsatisfied(s, deps);
    let state = passed_state(s, deps).0;
    if state is Green {
        assert forall|i: int| 0 <= i < deps.len() implies !is_bad(s, #[trigger] deps[i]) by {
            assert(is_green(s, deps[i]));
        }
    }
    if let StateModel::Pending(why) = state {
        let i = choose|i: int|
            0 <= i < deps.len() && why == (PendingModel::DepNotReady { dep: #[trigger] deps[i] })
                && is_waiting(s, deps[i]) && forall|j: int|
                0 <= j < i ==> !is_waiting(s, #[trigger] deps[j]);
        assert(deps.contains(deps[i]));
    }
}

proof fn lemma_unsatisfied(s: ServicesModel, deps: Seq<RefModel>)
    ensures
        first_unsatisfied(s, deps) matches Some(d) ==> deps.contains(d),
    decreases deps.len(),
{
    if deps.len() > 0 {
        let front = deps.drop_last();
        lemma_unsatisfied(s, front);
        assert(deps[deps.len() - 1] == deps.last());
        if let Some(d) = first_unsatisfied(s, front) {
            let i = choose|i: int| 0 <= i < front.len() && front[i] == d;
            assert(deps[i] == d);
        }
    }
}

/// When a meta probe is brought up to date it is in its state, nothing else of it changes, and the
/// answer tells it. An event is told if and only if it has turned another color.
pub proof fn law_meta_updated(at: Progress, r: RefModel)
    requires
        probe_at(at.services, r) is Some,
    ensures
        ({
            let after = update_meta(at, r);
            let p = probe_at(at.services, r)->0;
            let state = meta_state(at.services, r);
            let key = r.service + seq!['.'] + r.probe;
            let n = at.report.events.len();
            &&& probe_at(after.services, r) matches Some(q) && q.state == state && q.depends_on
                == p.depends_on && q.probe_config == p.probe_config && q.last_error == p.last_error
                && q.last_probe_ms == p.last_probe_ms && q.last_log_match == p.last_log_match
            &&& forall|q: RefModel|
                q != r ==> #[trigger] probe_at(after.services, q) == probe_at(at.services, q)
            &&& after.report.statuses.has(key)
            &&& after.report.statuses.at(key).state == state.text()
            &&& after.report.statuses.at(key).prev == p.state.text()
            &&& after.report.statuses.at(key).reason == state.reason()
            &&& after.report.events.len() == n + (if state.text() != p.state.text() {
                1int
            } else {
                0
            })
            &&& state.text() != p.state.text() ==> (
            after.report.events[n as int] matches EventModel::ProbeStateChange {
                probe,
                state: now,
                prev,
                ..
            } && probe == key && now == state && prev == p.state)
        }),
{
    let p = probe_at(at.services, r)->0;
    lemma_set_probe(at.services, r, moved(p, meta_state(at.services, r)));
}

/// The meta probes of some probes are those that have no check of their own, and no others.
pub proof fn law_meta_names(probes: Table<ProbeModel>, keys: Seq<Str>, x: Str)
    ensures
        meta_names(probes, keys).contains(x) <==> keys.contains(x) && probes.at(
            x,
        ).probe_config is Meta,
    decreases keys.len(),
{
    if keys.len() > 0 {
        let front = keys.drop_last();
        let last = keys[keys.len() - 1];
        law_meta_names(probes, front, x);
        let before = meta_names(probes, front);
        let after = meta_names(probes, keys);
        if front.contains(x) {
            let i = choose|i: int| 0 <= i < front.len() && front[i] == x;
            assert(keys[i] == x);
        }
        if keys.contains(x) && x != last {
            let i = choose|i: int| 0 <= i < keys.len() && keys[i] == x;
            assert(front[i] == x);
        }
        assert(keys.contains(last));
        if before.contains(x) {
            let i = choose|i: int| 0 <= i < before.len() && before[i] == x;
            assert(after[i] == x);
        }
        if probes.at(last).probe_config is Meta {
            assert(after[before.len() as int] == last);
        }
        if after.contains(x) && !before.contains(x) {
            let i = choose|i: int| 0 <= i < after.len() && after[i] == x;
            assert(i == before.len());
        }
    }
}

/// What is put into a table replaces what was there under the same names, and all else stays.
pub proof fn law_put_all<T>(t: Table<T>, more: Table<T>, keys: Seq<Str>, k: Str)
    ensures
        put_all(t, more, keys).has(k) <==> t.has(k) || keys.contains(k),
        put_all(t, more, keys).at(k) == (if keys.contains(k) {
            more.at(k)
        } else {
            t.at(k)
        }),
    decreases keys.len(),
{
    if keys.len() > 0 {
        let front = keys.drop_last();
        let last = keys[keys.len() - 1];
        law_put_all(t, more, front, k);
        if front.contains(k) {
            let i = choose|i: int| 0 <= i < front.len() && front[i] == k;
            assert(keys[i] == k);
        }
        if keys.contains(k) && k != last {
            let i = choose|i: int| 0 <= i < keys.len() && keys[i] == k;
            assert(front[i] == k);
        }
        assert(keys.contains(last));
    }
}

/// The answer of an operation that went well tells what was done, and no error.
pub proof fn law_ok_answer(
    ms: u64,
    actions: ActionsModel,
    probes: Table<StatusModel>,
    targets: Table<TargetStatusModel>,
)
    ensures
        ({
            let r = ok_response(ms, actions, probes, targets);
            &&& r.result == "ok"@
            &&& r.duration_ms == ms
            &&& r.error is None
            &&& r.not_green.len() == 0
            &&& r.actions == actions
            &&& r.probes == probes
            &&& r.targets == targets
        }),
{
}

} // verus!
