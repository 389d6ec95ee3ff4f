//! Outcomes of many checks, applied in the order of the dependencies.
use crate::app_state::{AppModel, AppState};
use crate::apply::{
    apply_outcome, apply_probe_result, judged, keep_line, passed_state, resolve_ok_state, stale,
    take_on, Step,
};
use crate::emit::{after_show, emit_svc_display_states};
use crate::events::{probe_changed, Event};
use crate::graph::Layer;
use crate::keeps::lemma_show_same;
use crate::model::{
    lemma_ref_round_trip, parse_ref, PendingModel, PendingReason, ProbeRef, ProbeState, RefModel, StateModel,
};
use crate::names::{with_name, with_names, NameSet};
use crate::ops::{ProbeStatus, Report, StatusModel};
use crate::ordered_map::{Item, OrderedMap, Table};
use crate::probe::{OutcomeModel, ProbeOutcome};
use crate::probe_meta::{
    acyclic, deps_satisfied, is_probe_satisfied, lemma_same_deps, same_deps, satisfied,
};
use crate::propagate::{moved, pending_result, recovery_result, ChangeModel};
use crate::propagate_laws::{
    law_pending_keeps_failures, law_recovery_keeps_failures, lemma_set_probe,
};
use crate::runtime::{
    find_probe, probe_at, probe_mut, set_probe, ProbeModel, ServiceRuntime, Services,
    ServicesModel,
};
use crate::text::{text_eq, Str};
use vstd::prelude::*;

verus! {

pub proof fn lemma_same_deps_refl(a: ServicesModel)
    ensures
        same_deps(a, a),
{
}

pub proof fn lemma_same_deps_trans(a: ServicesModel, b: ServicesModel, c: ServicesModel)
    requires
        same_deps(a, b),
        same_deps(b, c),
    ensures
        same_deps(a, c),
{
    assert forall|r: RefModel|
        match (#[trigger] probe_at(a, r), probe_at(c, r)) {
            (None, None) => true,
            (Some(p), Some(q)) => p.depends_on == q.depends_on,
            _ => false,
        } by {
        let q = probe_at(b, r);
    }
}

pub proof fn lemma_set_same_deps(s: ServicesModel, r: RefModel, p: ProbeModel)
    requires
        probe_at(s, r) is Some,
        p.depends_on == probe_at(s, r)->0.depends_on,
    ensures
        same_deps(s, set_probe(s, r, p)),
{
    lemma_set_probe(s, r, p);
    assert forall|q: RefModel|
        match (#[trigger] probe_at(s, q), probe_at(set_probe(s, r, p), q)) {
            (None, None) => true,
            (Some(p), Some(q)) => p.depends_on == q.depends_on,
            _ => false,
        } by {
        if q != r {
            assert(probe_at(set_probe(s, r, p), q) == probe_at(s, q));
        }
    }
}

pub proof fn lemma_pending_same_deps(g: Layer, key: Str, s: ServicesModel, changes: Seq<ChangeModel>)
    ensures
        same_deps(s, pending_result(g, key, s, changes).services),
{
    let t = pending_result(g, key, s, changes).services;
    assert forall|r: RefModel|
        match (#[trigger] probe_at(s, r), probe_at(t, r)) {
            (None, None) => true,
            (Some(p), Some(q)) => p.depends_on == q.depends_on,
            _ => false,
        } by {
        law_pending_keeps_failures(g, key, s, changes, r);
    }
}

pub proof fn lemma_recovery_same_deps(g: Layer, key: Str, s: ServicesModel, changes: Seq<ChangeModel>)
    ensures
        same_deps(s, recovery_result(g, key, s, changes).services),
{
    let t = recovery_result(g, key, s, changes).services;
    assert forall|r: RefModel|
        match (#[trigger] probe_at(s, r), probe_at(t, r)) {
            (None, None) => true,
            (Some(p), Some(q)) => p.depends_on == q.depends_on,
            _ => false,
        } by {
        law_recovery_keeps_failures(g, key, s, changes, r);
    }
}

/// Applying the outcome of a check touches no dependency.
pub proof fn lemma_apply_same_deps(
    g: Layer,
    s: ServicesModel,
    report: Report,
    r: RefModel,
    o: OutcomeModel,
)
    requires
        probe_at(s, r) is Some || stale(s, r, o),
    ensures
        same_deps(s, apply_outcome(g, s, report, r, o).services),
{
    if !stale(s, r, o) {
        let told = Report {
            events: report.events + crate::apply::attempt_events(r, o),
            statuses: report.statuses,
        };
        let (state, ms, error) = judged(s, r, o);
        let p = probe_at(s, r)->0;
        let taken = ProbeModel {
            state,
            prev_color: Some(p.state.color()),
            last_probe_ms: Some(ms),
            last_error: error,
            ..p
        };
        let next = set_probe(s, r, taken);
        lemma_set_same_deps(s, r, taken);
        lemma_recovery_same_deps(g, r.text(), next, Seq::empty());
        lemma_pending_same_deps(g, r.text(), next, Seq::empty());
        let step = take_on(g, s, told, r, state, ms, error);
        lemma_same_deps_trans(s, next, recovery_result(g, r.text(), next, Seq::empty()).services);
        lemma_same_deps_trans(s, next, pending_result(g, r.text(), next, Seq::empty()).services);
        assert(same_deps(s, step.services));
        let done = keep_line(step, r, o);
        if o.matched_lines.len() > 0 {
            if let Some(q) = probe_at(step.services, r) {
                let kept = ProbeModel { last_log_match: Some(o.matched_lines.last()), ..q };
                lemma_set_same_deps(step.services, r, kept);
                lemma_same_deps_trans(s, step.services, done.services);
            }
        }
    }
}

/// Those of some probes of a service that have no check of their own.
pub open spec fn meta_names(probes: Table<ProbeModel>, keys: Seq<Str>) -> Seq<Str>
    decreases keys.len(),
{
    if keys.len() == 0 {
        Seq::empty()
    } else if probes.at(keys.last()).probe_config is Meta {
        meta_names(probes, keys.drop_last()).push(keys.last())
    } else {
        meta_names(probes, keys.drop_last())
    }
}

/// The first of some probes that is not satisfied.
pub open spec fn first_unsatisfied(s: ServicesModel, deps: Seq<RefModel>) -> Option<RefModel>
    decreases deps.len(),
{
    if deps.len() == 0 {
        None
    } else {
        match first_unsatisfied(s, deps.drop_last()) {
            Some(d) => Some(d),
            None => if satisfied(s, deps.last()) {
                None
            } else {
                Some(deps.last())
            },
        }
    }
}

/// The state of a meta probe: green if all that it depends on is satisfied, else as its
/// dependencies make it. Behind green dependencies that are not satisfied it is pending.
pub open spec fn meta_state(s: ServicesModel, r: RefModel) -> StateModel {
    let deps = probe_at(s, r)->0.depends_on;
    match first_unsatisfied(s, deps) {
        None => StateModel::Green,
        Some(dep) => match passed_state(s, deps).0 {
            StateModel::Green => StateModel::Pending(PendingModel::DepNotReady { dep }),
            state => state,
        },
    }
}

proof fn lemma_first_unsatisfied(s: ServicesModel, deps: Seq<RefModel>)
    ensures
        first_unsatisfied(s, deps) is None <==> forall|i: int|
            0 <= i < deps.len() ==> satisfied(s, #[trigger] deps[i]),
    decreases deps.len(),
{
    if deps.len() > 0 {
        let front = deps.drop_last();
        lemma_first_unsatisfied(s, front);
        assert(forall|i: int| 0 <= i < front.len() ==> #[trigger] front[i] == deps[i]);
        assert(deps[deps.len() - 1] == deps.last());
        if first_unsatisfied(s, deps) is None {
            assert forall|i: int| 0 <= i < deps.len() implies satisfied(s, #[trigger] deps[i]) by {
                if i < front.len() {
                    assert(front[i] == deps[i]);
                }
            }
        }
    }
}

/// A meta probe is green if and only if all that it depends on is satisfied. Else it is red or
/// pending behind a probe that it depends on.
pub proof fn law_meta_state(s: ServicesModel, r: RefModel)
    requires
        probe_at(s, r) is Some,
    ensures
        meta_state(s, r) is Green <==> deps_satisfied(s, r),
        !(meta_state(s, r) is Green) ==> (meta_state(s, r) matches StateModel::Red(x) && x is DepRed)
            || (meta_state(s, r) matches StateModel::Pending(x) && x is DepNotReady),
{
    lemma_first_unsatisfied(s, probe_at(s, r)->0.depends_on);
}

fn find_unsatisfied(services: &Services, deps: &Vec<ProbeRef>) -> (r: Option<ProbeRef>)
    requires
        services.wf(),
        acyclic(services.deep_view()),
    ensures
        r.deep_view() == first_unsatisfied(services.deep_view(), deps.deep_view()),
{
    let ghost s = services.deep_view();
    let ghost all = deps.deep_view();
    let mut i: usize = 0;
    while i < deps.len()
        invariant
            services.wf(),
            acyclic(s),
            s == services.deep_view(),
            all == deps.deep_view(),
            i <= deps.len(),
            first_unsatisfied(s, all.take(i as int)) is None,
        decreases deps.len() - i,
    {
        let ghost next = all.take(i + 1);
        assert(next.drop_last() =~= all.take(i as int));
        assert(next.last() == deps[i as int].deep_view());
        if !is_probe_satisfied(&deps[i], services) {
            proof {
                lemma_first_stays(s, all, i + 1);
            }
            return Some(deps[i].clone());
        }
        i = i + 1;
    }
    assert(all.take(i as int) =~= all);
    None
}

proof fn lemma_first_stays(s: ServicesModel, deps: Seq<RefModel>, n: int)
    requires
        0 <= n <= deps.len(),
        first_unsatisfied(s, deps.take(n)) is Some,
    ensures
        first_unsatisfied(s, deps) == first_unsatisfied(s, deps.take(n)),
    decreases deps.len(),
{
    if n < deps.len() {
        let front = deps.drop_last();
        assert(front.take(n) =~= deps.take(n));
        lemma_first_stays(s, front, n);
    } else {
        assert(deps.take(n) =~= deps);
    }
}

fn find_meta_state(services: &Services, deps: &Vec<ProbeRef>) -> (r: ProbeState)
    requires
        services.wf(),
        acyclic(services.deep_view()),
    ensures
        r.deep_view() == (match first_unsatisfied(services.deep_view(), deps.deep_view()) {
            None => StateModel::Green,
            Some(dep) => match passed_state(services.deep_view(), deps.deep_view()).0 {
                StateModel::Green => StateModel::Pending(PendingModel::DepNotReady { dep }),
                state => state,
            },
        }),
{
    match find_unsatisfied(services, deps) {
        None => ProbeState::Green,
        Some(dep) => {
            let state = resolve_ok_state(services, deps).0;
            if state.is_green() {
                ProbeState::Pending(PendingReason::DepNotReady { dep })
            } else {
                state
            }
        },
    }
}

/// The services and what was reported.
#[verifier::ext_equal]
pub struct Progress {
    pub services: ServicesModel,
    pub report: Report,
}

/// The progress after a meta probe is brought up to date.
pub open spec fn update_meta(at: Progress, r: RefModel) -> Progress {
    let p = probe_at(at.services, r)->0;
    let state = meta_state(at.services, r);
    Progress {
        services: set_probe(at.services, r, moved(p, state)),
        report: Report {
            events: if state.text() != p.state.text() {
                at.report.events.push(probe_changed(r, state, p.state, state.text()))
            } else {
                at.report.events
            },
            statuses: at.report.statuses.put(
                r.text(),
                StatusModel {
                    state: state.text(),
                    prev: p.state.text(),
                    reason: state.reason(),
                    probe_ms: None,
                    error: None,
                    logs: None,
                },
            ),
        },
    }
}

/// The progress after some meta probes of a service are brought up to date.
pub open spec fn update_metas(at: Progress, svc: Str, names: Seq<Str>) -> Progress
    decreases names.len(),
{
    if names.len() == 0 {
        at
    } else {
        update_meta(
            update_metas(at, svc, names.drop_last()),
            RefModel { service: svc, probe: names.last() },
        )
    }
}

/// The progress after the meta probes of a service are brought up to date.
pub open spec fn update_service(at: Progress, svc: Str) -> Progress {
    if at.services.has(svc) {
        update_metas(
            at,
            svc,
            meta_names(at.services.at(svc).probes, at.services.at(svc).probes.keys),
        )
    } else {
        at
    }
}

fn list_meta_probes(svc: &ServiceRuntime) -> (r: Vec<String>)
    requires
        svc.ok(),
    ensures
        r.deep_view() == meta_names(svc.deep_view().probes, svc.deep_view().probes.keys),
        forall|i: int|
            0 <= i < r.deep_view().len() ==> svc.deep_view().probes.has(
                #[trigger] r.deep_view()[i],
            ),
{
    let ghost t = svc.probes.deep_view();
    let mut out: Vec<String> = Vec::new();
    let n: usize = svc.probes.len();
    let mut i: usize = 0;
    assert(out.deep_view() =~= Seq::<Str>::empty());
    while i < n
        invariant
            svc.ok(),
            t == svc.probes.deep_view(),
            i <= n == t.keys.len(),
            out.deep_view() == meta_names(t, t.keys.take(i as int)),
            forall|j: int|
                0 <= j < out.deep_view().len() ==> t.has(#[trigger] out.deep_view()[j]),
        decreases n - i,
    {
        let ghost next = t.keys.take(i + 1);
        let ghost before = out.deep_view();
        assert(next.drop_last() =~= t.keys.take(i as int));
        assert(next.last() == t.keys[i as int]);
        if svc.probes.value(i).is_meta() {
            out.push(svc.probes.name(i).clone());
            assert(out.deep_view() =~= before.push(t.keys[i as int]));
        }
        i = i + 1;
    }
    assert(t.keys.take(i as int) =~= t.keys);
    out
}

impl AppModel {
    /// The progress so far.
    pub open spec fn progress(self, statuses: Table<StatusModel>) -> Progress {
        Progress { services: self.services, report: self.report(statuses) }
    }

    /// The state with a progress.
    pub open spec fn with_progress(self, at: Progress) -> AppModel {
        AppModel { services: at.services, events: at.report.events, ..self }
    }
}

/// Brings the meta probes of a service up to date.
pub fn update_meta_probes(
    state: &mut AppState,
    service_name: &str,
    probe_statuses: &mut OrderedMap<ProbeStatus>,
)
    requires
        old(state).wf(),
        old(probe_statuses).wf(),
        acyclic(old(state).deep_view().services),
    ensures
        final(state).wf(),
        final(probe_statuses).wf(),
        ({
            let a = old(state).deep_view();
            let at = update_service(a.progress(old(probe_statuses).deep_view()), service_name@);
            &&& final(state).deep_view() == a.with_progress(at)
            &&& final(probe_statuses).deep_view() == at.report.statuses
            &&& same_deps(a.services, at.services)
            &&& acyclic(at.services)
        }),
{
    let ghost a = state.deep_view();
    let ghost start = a.progress(probe_statuses.deep_view());
    let ghost svc_name = service_name@;
    let names = match state.services.get(service_name) {
        None => {
            proof {
                lemma_same_deps_refl(a.services);
            }
            return ;
        },
        Some(svc) => list_meta_probes(svc),
    };
    let ghost all = names.deep_view();
    proof {
        lemma_same_deps_refl(a.services);
    }
    let mut i: usize = 0;
    while i < names.len()
        invariant
            state.wf(),
            probe_statuses.wf(),
            svc_name == service_name@,
            all == names.deep_view(),
            i <= names.len(),
            a.services.has(svc_name),
            forall|j: int|
                0 <= j < all.len() ==> a.services.at(svc_name).probes.has(#[trigger] all[j]),
            acyclic(a.services),
            start.services == a.services,
            state.deep_view() == a.with_progress(
                update_metas(start, svc_name, all.take(i as int)),
            ),
            probe_statuses.deep_view() == update_metas(
                start,
                svc_name,
                all.take(i as int),
            ).report.statuses,
            same_deps(a.services, state.deep_view().services),
        decreases names.len() - i,
    {
        let ghost next = all.take(i + 1);
        let ghost at = update_metas(start, svc_name, all.take(i as int));
        assert(next.drop_last() =~= all.take(i as int));
        assert(next.last() == names[i as int]@);
        let r = ProbeRef::new(service_name, names[i].as_str());
        let ghost m = r.deep_view();
        proof {
            lemma_same_deps(a.services, at.services);
            assert(a.services.at(svc_name).probes.has(all[i as int]));
            assert(probe_at(a.services, m) is Some);
        }
        let state_new = match find_probe(&state.services, &r) {
            Some(p) => find_meta_state(&state.services, &p.depends_on),
            None => ProbeState::Green,
        };
        assert(state_new.deep_view() == meta_state(at.services, m));
        let p = probe_mut(&mut state.services, &r);
        let prev = p.state.clone();
        p.prev_color = Some(prev.color());
        p.state = state_new.clone();
        proof {
            let was = probe_at(at.services, m)->0;
            lemma_set_same_deps(at.services, m, moved(was, state_new.deep_view()));
            lemma_same_deps_trans(a.services, at.services, state.services.deep_view());
        }
        if !text_eq(state_new.as_str(), prev.as_str()) {
            state.emit(
                Event::probe_state_change(
                    &r,
                    state_new.clone(),
                    prev.clone(),
                    state_new.as_str(),
                ),
            );
        }
        probe_statuses.insert(
            r.to_string(),
            ProbeStatus {
                state: state_new.as_str().to_owned(),
                prev: prev.as_str().to_owned(),
                reason: state_new.reason(),
                probe_ms: None,
                error: None,
                logs: None,
            },
        );
        i = i + 1;
    }
    assert(all.take(i as int) =~= all);
    proof {
        lemma_same_deps(a.services, state.deep_view().services);
    }
}

/// The last outcome in a batch for the probe of the given key.
pub open spec fn last_outcome(batch: Seq<(RefModel, OutcomeModel)>, key: Str) -> Option<
    OutcomeModel,
>
    decreases batch.len(),
{
    if batch.len() == 0 {
        None
    } else if batch.last().0.text() == key {
        Some(batch.last().1)
    } else {
        last_outcome(batch.drop_last(), key)
    }
}

/// Whether a reference names a probe, and is read back from what it is written as.
pub open spec fn known(s: ServicesModel, r: RefModel) -> bool {
    probe_at(s, r) is Some && !r.service.contains('.')
}

/// Whether each outcome of a batch is of a probe that there is.
pub open spec fn batch_known(s: ServicesModel, batch: Seq<(RefModel, OutcomeModel)>) -> bool {
    forall|i: int| 0 <= i < batch.len() ==> known(s, (#[trigger] batch[i]).0)
}

proof fn lemma_outcome_known(s: ServicesModel, batch: Seq<(RefModel, OutcomeModel)>, key: Str)
    requires
        batch_known(s, batch),
        last_outcome(batch, key) is Some,
    ensures
        parse_ref(key) is Some,
        probe_at(s, parse_ref(key)->0) is Some,
    decreases batch.len(),
{
    if batch.last().0.text() == key {
        assert(known(s, batch[batch.len() - 1].0));
        lemma_ref_round_trip(batch.last().0);
    } else {
        let front = batch.drop_last();
        assert forall|i: int| 0 <= i < front.len() implies known(s, (#[trigger] front[i]).0) by {
            assert(front[i] == batch[i]);
        }
        lemma_outcome_known(s, front, key);
    }
}

pub proof fn lemma_batch_same(
    a: ServicesModel,
    b: ServicesModel,
    batch: Seq<(RefModel, OutcomeModel)>,
)
    requires
        batch_known(a, batch),
        same_deps(a, b),
    ensures
        batch_known(b, batch),
{
    assert forall|i: int| 0 <= i < batch.len() implies known(b, (#[trigger] batch[i]).0) by {
        assert(known(a, batch[i].0));
        let p = probe_at(a, batch[i].0);
    }
}

/// The step after the outcomes for some keys, in turn, are applied.
pub open spec fn apply_in_order(
    g: Layer,
    batch: Seq<(RefModel, OutcomeModel)>,
    order: Seq<Str>,
    st: Step,
) -> Step
    decreases order.len(),
{
    if order.len() == 0 {
        st
    } else {
        let so_far = apply_in_order(g, batch, order.drop_last(), st);
        match last_outcome(batch, order.last()) {
            None => so_far,
            Some(o) => {
                let r = parse_ref(order.last())->0;
                let step = apply_outcome(g, so_far.services, so_far.report, r, o);
                Step {
                    services: step.services,
                    report: step.report,
                    affected: with_names(with_name(so_far.affected, r.service), step.affected),
                }
            },
        }
    }
}

/// Whether a probe waits for one that it depends on.
pub open spec fn waits(s: ServicesModel, r: RefModel) -> bool {
    probe_at(s, r) matches Some(p) && (p.state matches StateModel::Pending(w) && w is DepNotReady)
}

/// The step after the outcomes for those of some keys whose probes wait are applied again,
/// and whether one of the probes waits no more.
pub open spec fn apply_again(
    g: Layer,
    batch: Seq<(RefModel, OutcomeModel)>,
    order: Seq<Str>,
    st: Step,
) -> (Step, bool)
    decreases order.len(),
{
    if order.len() == 0 {
        (st, false)
    } else {
        let (so_far, any) = apply_again(g, batch, order.drop_last(), st);
        match last_outcome(batch, order.last()) {
            None => (so_far, any),
            Some(o) => {
                let r = parse_ref(order.last())->0;
                if waits(so_far.services, r) {
                    let step = apply_outcome(g, so_far.services, so_far.report, r, o);
                    (
                        Step {
                            services: step.services,
                            report: step.report,
                            affected: with_names(so_far.affected, step.affected),
                        },
                        any || !waits(step.services, r),
                    )
                } else {
                    (so_far, any)
                }
            },
        }
    }
}

/// The progress after the meta probes of some services are brought up to date.
pub open spec fn update_services(at: Progress, svcs: Seq<Str>) -> Progress
    decreases svcs.len(),
{
    if svcs.len() == 0 {
        at
    } else {
        update_service(update_services(at, svcs.drop_last()), svcs.last())
    }
}

/// The step after the meta probes of the affected services are brought up to date.
pub open spec fn update_affected(st: Step) -> Step {
    let at = update_services(
        Progress { services: st.services, report: st.report },
        st.affected,
    );
    Step { services: at.services, report: at.report, affected: st.affected }
}

/// The step after at most `n` rounds, in each of which meta probes are brought up to date
/// and probes that wait are tried again. A round is the last if no meta probe turned another
/// color in it, which would be told, and no probe that waited was settled.
pub open spec fn settle(
    g: Layer,
    batch: Seq<(RefModel, OutcomeModel)>,
    order: Seq<Str>,
    st: Step,
    n: nat,
) -> Step
    decreases n,
{
    if n == 0 {
        st
    } else {
        let fresh = update_affected(st);
        let (next, any) = apply_again(g, batch, order, fresh);
        if any || fresh.report.events.len() != st.report.events.len() {
            settle(g, batch, order, next, (n - 1) as nat)
        } else {
            next
        }
    }
}

/// How many rounds there are at most for `n` probes. A probe that waits is settled at most
/// once, and between two such rounds each round brings a meta probe up to date for good.
pub open spec fn round_limit(n: nat) -> nat {
    n * (n + 2)
}

/// The step in which a batch of outcomes is applied.
pub open spec fn resolve_batch(
    g: Layer,
    batch: Seq<(RefModel, OutcomeModel)>,
    order: Seq<Str>,
    st: Step,
) -> Step {
    settle(g, batch, order, apply_in_order(g, batch, order, st), round_limit(order.len()))
}

fn find_outcome<'a>(batch: &'a Vec<(ProbeRef, ProbeOutcome)>, key: &str) -> (r: Option<
    &'a ProbeOutcome,
>)
    ensures
        match r {
            Some(o) => last_outcome(batch.deep_view(), key@) == Some(o.deep_view()),
            None => last_outcome(batch.deep_view(), key@) is None,
        },
{
    let ghost all = batch.deep_view();
    let mut i: usize = batch.len();
    assert(all.take(i as int) =~= all);
    while i > 0
        invariant
            all == batch.deep_view(),
            i <= batch.len(),
            last_outcome(all, key@) == last_outcome(all.take(i as int), key@),
        decreases i,
    {
        let entry = &batch[i - 1];
        assert(all.take(i as int).last() == entry.deep_view());
        assert(all.take(i as int).drop_last() =~= all.take(i - 1));
        if text_eq(entry.0.to_string().as_str(), key) {
            return Some(&entry.1);
        }
        i = i - 1;
    }
    None
}

impl AppModel {
    /// The state at a step.
    pub open spec fn step(self, statuses: Table<StatusModel>, affected: Seq<Str>) -> Step {
        Step { services: self.services, report: self.report(statuses), affected }
    }
}

/// Applies the outcomes of a batch in the order of the dependencies.
fn apply_ordered(
    state: &mut AppState,
    batch: &Vec<(ProbeRef, ProbeOutcome)>,
    order: &Vec<String>,
    probe_statuses: &mut OrderedMap<ProbeStatus>,
    affected: &mut NameSet,
)
    requires
        old(state).wf(),
        old(probe_statuses).wf(),
        old(affected).wf(),
        batch_known(old(state).deep_view().services, batch.deep_view()),
    ensures
        final(state).wf(),
        final(probe_statuses).wf(),
        final(affected).wf(),
        ({
            let a = old(state).deep_view();
            let step = apply_in_order(
                a.graph.probes,
                batch.deep_view(),
                order.deep_view(),
                a.step(old(probe_statuses).deep_view(), old(affected).deep_view()),
            );
            &&& final(state).deep_view() == a.after(step)
            &&& final(probe_statuses).deep_view() == step.report.statuses
            &&& final(affected).deep_view() == step.affected
            &&& same_deps(a.services, step.services)
        }),
{
    let ghost a = state.deep_view();
    let ghost g = a.graph.probes;
    let ghost b = batch.deep_view();
    let ghost all = order.deep_view();
    let ghost start = a.step(probe_statuses.deep_view(), affected.deep_view());
    proof {
        lemma_same_deps_refl(a.services);
    }
    let mut i: usize = 0;
    while i < order.len()
        invariant
            state.wf(),
            probe_statuses.wf(),
            affected.wf(),
            g == a.graph.probes,
            b == batch.deep_view(),
            all == order.deep_view(),
            i <= order.len(),
            batch_known(a.services, b),
            state.deep_view() == a.after(apply_in_order(g, b, all.take(i as int), start)),
            probe_statuses.deep_view() == apply_in_order(
                g,
                b,
                all.take(i as int),
                start,
            ).report.statuses,
            affected.deep_view() == apply_in_order(g, b, all.take(i as int), start).affected,
            same_deps(a.services, state.deep_view().services),
        decreases order.len() - i,
    {
        let ghost next = all.take(i + 1);
        let ghost so_far = apply_in_order(g, b, all.take(i as int), start);
        assert(next.drop_last() =~= all.take(i as int));
        assert(next.last() == order[i as int]@);
        if let Some(outcome) = find_outcome(batch, order[i].as_str()) {
            proof {
                lemma_outcome_known(a.services, b, order[i as int]@);
                let r = parse_ref(order[i as int]@)->0;
                let p = probe_at(a.services, r);
                lemma_apply_same_deps(
                    g,
                    so_far.services,
                    so_far.report,
                    r,
                    outcome.deep_view(),
                );
            }
            let r = ProbeRef::parse(order[i].as_str()).unwrap();
            affected.insert(r.service.as_str());
            let more = apply_probe_result(state, &r, outcome, probe_statuses);
            affected.extend(&more.to_list());
            proof {
                lemma_same_deps_trans(
                    a.services,
                    so_far.services,
                    state.deep_view().services,
                );
            }
        }
        i = i + 1;
    }
    assert(all.take(i as int) =~= all);
}

fn is_waiting(services: &Services, r: &ProbeRef) -> (b: bool)
    requires
        services.wf(),
    ensures
        b == waits(services.deep_view(), r.deep_view()),
{
    match find_probe(services, r) {
        Some(p) => match &p.state {
            ProbeState::Pending(PendingReason::DepNotReady { .. }) => true,
            _ => false,
        },
        None => false,
    }
}

/// Applies again the outcomes for probes that wait.
fn apply_waiting(
    state: &mut AppState,
    batch: &Vec<(ProbeRef, ProbeOutcome)>,
    order: &Vec<String>,
    probe_statuses: &mut OrderedMap<ProbeStatus>,
    affected: &mut NameSet,
) -> (any: bool)
    requires
        old(state).wf(),
        old(probe_statuses).wf(),
        old(affected).wf(),
        batch_known(old(state).deep_view().services, batch.deep_view()),
    ensures
        final(state).wf(),
        final(probe_statuses).wf(),
        final(affected).wf(),
        ({
            let a = old(state).deep_view();
            let (step, again) = apply_again(
                a.graph.probes,
                batch.deep_view(),
                order.deep_view(),
                a.step(old(probe_statuses).deep_view(), old(affected).deep_view()),
            );
            &&& final(state).deep_view() == a.after(step)
            &&& final(probe_statuses).deep_view() == step.report.statuses
            &&& final(affected).deep_view() == step.affected
            &&& any == again
            &&& same_deps(a.services, step.services)
        }),
{
    let ghost a = state.deep_view();
    let ghost g = a.graph.probes;
    let ghost b = batch.deep_view();
    let ghost all = order.deep_view();
    let ghost start = a.step(probe_statuses.deep_view(), affected.deep_view());
    proof {
        lemma_same_deps_refl(a.services);
    }
    let mut any = false;
    let mut i: usize = 0;
    while i < order.len()
        invariant
            state.wf(),
            probe_statuses.wf(),
            affected.wf(),
            g == a.graph.probes,
            b == batch.deep_view(),
            all == order.deep_view(),
            i <= order.len(),
            batch_known(a.services, b),
            state.deep_view() == a.after(apply_again(g, b, all.take(i as int), start).0),
            probe_statuses.deep_view() == apply_again(
                g,
                b,
                all.take(i as int),
                start,
            ).0.report.statuses,
            affected.deep_view() == apply_again(g, b, all.take(i as int), start).0.affected,
            any == apply_again(g, b, all.take(i as int), start).1,
            same_deps(a.services, state.deep_view().services),
        decreases order.len() - i,
    {
        let ghost next = all.take(i + 1);
        let ghost so_far = apply_again(g, b, all.take(i as int), start).0;
        assert(next.drop_last() =~= all.take(i as int));
        assert(next.last() == order[i as int]@);
        if let Some(outcome) = find_outcome(batch, order[i].as_str()) {
            proof {
                lemma_outcome_known(a.services, b, order[i as int]@);
                let r = parse_ref(order[i as int]@)->0;
                let p = probe_at(a.services, r);
                lemma_apply_same_deps(
                    g,
                    so_far.services,
                    so_far.report,
                    r,
                    outcome.deep_view(),
                );
            }
            let r = ProbeRef::parse(order[i].as_str()).unwrap();
            if is_waiting(&state.services, &r) {
                let more = apply_probe_result(state, &r, outcome, probe_statuses);
                affected.extend(&more.to_list());
                if !is_waiting(&state.services, &r) {
                    any = true;
                }
                proof {
                    lemma_same_deps_trans(
                        a.services,
                        so_far.services,
                        state.deep_view().services,
                    );
                }
            }
        }
        i = i + 1;
    }
    assert(all.take(i as int) =~= all);
    any
}

/// Brings the meta probes of the affected services up to date.
pub(crate) fn update_affected_probes(
    state: &mut AppState,
    probe_statuses: &mut OrderedMap<ProbeStatus>,
    affected: &NameSet,
)
    requires
        old(state).wf(),
        old(probe_statuses).wf(),
        affected.wf(),
        acyclic(old(state).deep_view().services),
    ensures
        final(state).wf(),
        final(probe_statuses).wf(),
        ({
            let a = old(state).deep_view();
            let step = update_affected(
                a.step(old(probe_statuses).deep_view(), affected.deep_view()),
            );
            &&& final(state).deep_view() == a.after(step)
            &&& final(probe_statuses).deep_view() == step.report.statuses
            &&& same_deps(a.services, step.services)
            &&& acyclic(step.services)
        }),
{
    let ghost a = state.deep_view();
    let ghost start = a.progress(probe_statuses.deep_view());
    let ghost all = affected.deep_view();
    let n: usize = affected.len();
    proof {
        lemma_same_deps_refl(a.services);
    }
    let mut i: usize = 0;
    while i < n
        invariant
            state.wf(),
            probe_statuses.wf(),
            affected.wf(),
            all == affected.deep_view(),
            i <= n == all.len(),
            acyclic(state.deep_view().services),
            state.deep_view() == a.with_progress(update_services(start, all.take(i as int))),
            probe_statuses.deep_view() == update_services(
                start,
                all.take(i as int),
            ).report.statuses,
            same_deps(a.services, state.deep_view().services),
        decreases n - i,
    {
        let ghost next = all.take(i + 1);
        let ghost mid = state.deep_view();
        assert(next.drop_last() =~= all.take(i as int));
        assert(next.last() == all[i as int]);
        assert(mid.progress(probe_statuses.deep_view()) == update_services(
            start,
            all.take(i as int),
        ));
        update_meta_probes(state, affected.name(i).as_str(), probe_statuses);
        proof {
            lemma_same_deps_trans(a.services, mid.services, state.deep_view().services);
        }
        i = i + 1;
    }
    assert(all.take(i as int) =~= all);
}

/// Applies a batch of outcomes in the order of the dependencies. Then brings meta probes up
/// to date and tries probes again that wait for one of them, until that changes nothing.
pub fn resolve_probe_batch(
    state: &mut AppState,
    batch: &Vec<(ProbeRef, ProbeOutcome)>,
    probe_statuses: &mut OrderedMap<ProbeStatus>,
) -> (r: NameSet)
    requires
        old(state).wf(),
        old(probe_statuses).wf(),
        acyclic(old(state).deep_view().services),
        batch_known(old(state).deep_view().services, batch.deep_view()),
    ensures
        final(state).wf(),
        final(probe_statuses).wf(),
        r.wf(),
        same_deps(old(state).deep_view().services, final(state).deep_view().services),
        ({
            let a = old(state).deep_view();
            let step = resolve_batch(
                a.graph.probes,
                batch.deep_view(),
                a.graph.probe_topo_order,
                a.step(old(probe_statuses).deep_view(), Seq::empty()),
            );
            &&& final(state).deep_view() == after_show(a.after(step))
            &&& final(probe_statuses).deep_view() == step.report.statuses
            &&& r.deep_view() == step.affected
        }),
{
    let ghost a = state.deep_view();
    let ghost g = a.graph.probes;
    let ghost b = batch.deep_view();
    let order = crate::text::copy_list(state.graph.probe_topo_order());
    let ghost all = order.deep_view();
    assert(all =~= a.graph.probe_topo_order);
    let mut affected = NameSet::new();
    let ghost start = a.step(probe_statuses.deep_view(), Seq::empty());
    apply_ordered(state, batch, &order, probe_statuses, &mut affected);
    let ghost goal = resolve_batch(g, b, all, start);
    let n: u128 = order.len() as u128;
    assert(n * (n + 2) <= u128::MAX) by (nonlinear_arith)
        requires
            n <= 0xffff_ffff_ffff_ffff,
    ;
    let mut left: u128 = n * (n + 2);
    assert(left == round_limit(all.len()));
    let mut go_on = true;
    proof {
        lemma_same_deps(a.services, state.deep_view().services);
        lemma_batch_same(a.services, state.deep_view().services, b);
    }
    while go_on && left > 0
        invariant
            state.wf(),
            probe_statuses.wf(),
            affected.wf(),
            g == a.graph.probes,
            b == batch.deep_view(),
            all == order.deep_view(),
            acyclic(state.deep_view().services),
            batch_known(state.deep_view().services, b),
            same_deps(a.services, state.deep_view().services),
            state.deep_view() == (AppModel {
                services: state.deep_view().services,
                events: state.deep_view().events,
                ..a
            }),
            ({
                let st = state.deep_view().step(
                    probe_statuses.deep_view(),
                    affected.deep_view(),
                );
                goal == (if go_on {
                    settle(g, b, all, st, left as nat)
                } else {
                    st
                })
            }),
        decreases left,
    {
        let ghost mid = state.deep_view();
        let told: usize = state.events.len();
        assert(mid.events.len() == told);
        update_affected_probes(state, probe_statuses, &affected);
        let turned = state.events.len() != told;
        let ghost then = state.deep_view();
        proof {
            assert(then.events.len() == state.events.len());
            lemma_batch_same(mid.services, then.services, b);
            lemma_same_deps_trans(a.services, mid.services, then.services);
        }
        let settled = apply_waiting(state, batch, &order, probe_statuses, &mut affected);
        go_on = settled || turned;
        proof {
            lemma_batch_same(then.services, state.deep_view().services, b);
            lemma_same_deps_trans(a.services, then.services, state.deep_view().services);
            lemma_same_deps(then.services, state.deep_view().services);
        }
        left = left - 1;
    }
    let ghost last = state.deep_view();
    assert(goal == last.step(probe_statuses.deep_view(), affected.deep_view()));
    assert(last =~= a.after(goal));
    proof {
        state.services.lemma_valid();
        lemma_show_same(last);
    }
    emit_svc_display_states(state);
    proof {
        lemma_same_deps_trans(a.services, last.services, state.deep_view().services);
    }
    affected
}

} // verus!
