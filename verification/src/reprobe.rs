//! Probes that are checked again.
use crate::app_state::{AppModel, AppState};
use crate::batch::{
    lemma_pending_same_deps, lemma_same_deps_refl, lemma_same_deps_trans, lemma_set_same_deps,
};
use crate::emit::{after_show, after_tell, emit_target_states, told_statuses};
use crate::error::{no_service, no_target, service_not_found, target_not_found, GantryError};
use crate::events::{Event, EventModel};
use crate::graph::Layer;
use crate::lifecycle::{only_name, show};
use crate::model::{
    copy_refs, PendingModel, PendingReason, ProbeRef, ProbeState, RefModel, ServiceState,
    StateModel,
};
use crate::ops::{
    emit_propagated_changes, ok_response, report_changes, ActionsModel, OpActions, OpResponse,
    ProbeStatus, ResponseModel, StatusModel,
};
use crate::ordered_map::{OrderedMap, Table};
use crate::probe_meta::same_deps;
use crate::propagate::{lemma_text_parses, moved, pending_result, Change, ChangeModel};
use crate::resolve::{
    collect_pending_probes, list_running_refs, list_service_refs, pending_among, refs_in,
    running_refs, PendingProbe, PendingProbeModel,
};
use crate::runtime::{probe_at, probe_mut, set_probe, Services, ServicesModel};
use crate::targets::{activate_all, activate_target_transitive};
use crate::text::{cat5, Str};
use vstd::prelude::*;

verus! {

/// The services and the changes after some probes are to be checked again. Only a probe of a
/// service that runs, and that does not await a check yet, is moved.
pub open spec fn mark_again(g: Layer, refs: Seq<RefModel>, s: ServicesModel) -> (
    ServicesModel,
    Seq<ChangeModel>,
)
    decreases refs.len(),
{
    if refs.len() == 0 {
        (s, Seq::empty())
    } else {
        let (so_far, changes) = mark_again(g, refs.drop_last(), s);
        let r = refs.last();
        let to = StateModel::Pending(PendingModel::Reprobing);
        let (marked, listed) = match probe_at(so_far, r) {
            Some(p) => if so_far.at(r.service).state is Running && !(p.state is Pending) {
                (set_probe(so_far, r, moved(p, to)), changes.push((r, to, p.state)))
            } else {
                (so_far, changes)
            },
            None => (so_far, changes),
        };
        let w = pending_result(g, r.text(), marked, listed);
        (w.services, w.changes)
    }
}

/// The state and the statuses after some probes are to be checked again.
pub open spec fn marked_again(a: AppModel, refs: Seq<RefModel>) -> (AppModel, Table<StatusModel>) {
    let (s, changes) = mark_again(a.graph.probes, refs, a.services);
    let told = report_changes(s, changes, a.report(Table::empty()));
    (AppModel { services: s, events: told.events, ..a }, told.statuses)
}

proof fn lemma_mark_again_same(g: Layer, refs: Seq<RefModel>, s: ServicesModel)
    ensures
        same_deps(s, mark_again(g, refs, s).0),
    decreases refs.len(),
{
    lemma_same_deps_refl(s);
    if refs.len() > 0 {
        let (so_far, changes) = mark_again(g, refs.drop_last(), s);
        lemma_mark_again_same(g, refs.drop_last(), s);
        let r = refs.last();
        let to = StateModel::Pending(PendingModel::Reprobing);
        if let Some(p) = probe_at(so_far, r) {
            if so_far.at(r.service).state is Running && !(p.state is Pending) {
                let marked = set_probe(so_far, r, moved(p, to));
                lemma_set_same_deps(so_far, r, moved(p, to));
                lemma_same_deps_trans(s, so_far, marked);
                let listed = changes.push((r, to, p.state));
                lemma_pending_same_deps(g, r.text(), marked, listed);
                lemma_same_deps_trans(
                    s,
                    marked,
                    pending_result(g, r.text(), marked, listed).services,
                );
                return ;
            }
        }
        lemma_pending_same_deps(g, r.text(), so_far, changes);
        lemma_same_deps_trans(
            s,
            so_far,
            pending_result(g, r.text(), so_far, changes).services,
        );
    }
}

/// Marks some probes as to be checked again, and passes that on.
fn mark_pending_and_propagate(
    state: &mut AppState,
    refs: &Vec<ProbeRef>,
    probe_statuses: &mut OrderedMap<ProbeStatus>,
)
    requires
        old(state).wf(),
        old(probe_statuses).wf(),
        old(probe_statuses).deep_view() == Table::<StatusModel>::empty(),
    ensures
        final(state).wf(),
        final(probe_statuses).wf(),
        same_deps(old(state).deep_view().services, final(state).deep_view().services),
        (final(state).deep_view(), final(probe_statuses).deep_view()) == marked_again(
            old(state).deep_view(),
            refs.deep_view(),
        ),
{
    let ghost a = state.deep_view();
    let ghost g = a.graph.probes;
    let ghost all = refs.deep_view();
    let ghost to = StateModel::Pending(PendingModel::Reprobing);
    let mut changes: Vec<Change> = Vec::new();
    let mut i: usize = 0;
    assert(changes.deep_view() =~= Seq::<ChangeModel>::empty());
    while i < refs.len()
        invariant
            state.wf(),
            g == a.graph.probes,
            all == refs.deep_view(),
            to == StateModel::Pending(PendingModel::Reprobing),
            i <= refs.len(),
            state.deep_view() == (AppModel { services: state.deep_view().services, ..a }),
            (state.deep_view().services, changes.deep_view()) == mark_again(
                g,
                all.take(i as int),
                a.services,
            ),
        decreases refs.len() - i,
    {
        let ghost next = all.take(i + 1);
        let r = &refs[i];
        assert(next.drop_last() =~= all.take(i as int));
        assert(next.last() == r.deep_view());
        if can_be_marked(&state.services, r) {
            let ghost listed = changes.deep_view();
            let p = probe_mut(&mut state.services, r);
            let prev = p.state.clone();
            p.prev_color = Some(prev.color());
            p.state = ProbeState::Pending(PendingReason::Reprobing);
            let change = (r.clone(), ProbeState::Pending(PendingReason::Reprobing), prev);
            let ghost m = (change.0.deep_view(), change.1.deep_view(), change.2.deep_view());
            changes.push(change);
            assert(changes.deep_view() =~= listed.push(m));
        }
        proof {
            lemma_text_parses(r.deep_view());
        }
        state.graph.propagate_pending(
            r.to_string().as_str(),
            &mut state.services,
            &mut changes,
        );
        i = i + 1;
    }
    proof {
        assert(all.take(i as int) =~= all);
        lemma_mark_again_same(g, all, a.services);
    }
    emit_propagated_changes(&mut state.events, &state.services, &changes, probe_statuses);
}

fn can_be_marked(services: &Services, r: &ProbeRef) -> (b: bool)
    requires
        services.wf(),
    ensures
        b == (probe_at(services.deep_view(), r.deep_view()) is Some && services.deep_view().at(
            r.service@,
        ).state is Running && !(probe_at(services.deep_view(), r.deep_view())->0.state
            is Pending)),
{
    match services.get(r.service.as_str()) {
        Some(svc) => svc.state == ServiceState::Running && match svc.probes.get(r.probe.as_str()) {
            Some(p) => !p.state.is_pending(),
            None => false,
        },
        None => false,
    }
}

/// Checks that are to be sent out, the statuses so far, and the services that they concern.
/// No services stand for all.
pub struct Reprobe {
    pub pending: Vec<PendingProbe>,
    pub statuses: OrderedMap<ProbeStatus>,
    pub affected: Vec<String>,
}

/// The model of a [`Reprobe`].
#[verifier::ext_equal]
pub struct ReprobeModel {
    pub pending: Seq<PendingProbeModel>,
    pub statuses: Table<StatusModel>,
    pub affected: Seq<Str>,
}

impl DeepView for Reprobe {
    type V = ReprobeModel;

    open spec fn deep_view(&self) -> ReprobeModel {
        ReprobeModel {
            pending: self.pending.deep_view(),
            statuses: self.statuses.deep_view(),
            affected: self.affected.deep_view(),
        }
    }
}

/// The state after some probes are to be checked again, and all checks that are to be sent
/// out then.
pub open spec fn begun(a: AppModel, refs: Seq<RefModel>, affected: Seq<Str>) -> (
    AppModel,
    ReprobeModel,
) {
    let (b, statuses) = marked_again(a, refs);
    (
        b,
        ReprobeModel {
            pending: pending_among(b.services, running_refs(b.services, b.services.keys)),
            statuses,
            affected,
        },
    )
}

/// Marks some probes as to be checked again, and lists all checks that are to be sent out.
fn reprobe_core(state: &mut AppState, refs: &Vec<ProbeRef>, affected: Vec<String>) -> (r: Reprobe)
    requires
        old(state).wf(),
    ensures
        final(state).wf(),
        r.statuses.wf(),
        same_deps(old(state).deep_view().services, final(state).deep_view().services),
        (final(state).deep_view(), r.deep_view()) == begun(
            old(state).deep_view(),
            refs.deep_view(),
            affected.deep_view(),
        ),
{
    let mut statuses: OrderedMap<ProbeStatus> = OrderedMap::new();
    mark_pending_and_propagate(state, refs, &mut statuses);
    let pending = collect_pending_probes(&state.services, None);
    Reprobe { pending, statuses, affected }
}

/// The state after an event is added.
pub open spec fn told(a: AppModel, e: EventModel) -> AppModel {
    AppModel { events: a.events.push(e), ..a }
}

/// The answer to a request to check the probes of a service that does not run.
pub open spec fn not_running(name: Str, state: ServiceState) -> ResponseModel {
    ResponseModel {
        result: "failed"@,
        duration_ms: 0,
        error: Some("service '"@ + name + "' is "@ + state.text() + " \u{2014} start it first"@),
        not_green: Seq::empty(),
        actions: ActionsModel::none(),
        probes: Table::empty(),
        targets: Table::empty(),
    }
}

/// What is next when the probes of a service are to be checked again.
pub enum ServiceReprobe {
    /// Nothing: the service does not run.
    Refused(OpResponse),
    /// Checks are to be sent out.
    Check(Reprobe),
}

/// Begins to check all probes of a service again.
pub fn reprobe_service(state: &mut AppState, service_name: &str) -> (r: Result<
    ServiceReprobe,
    GantryError,
>)
    requires
        old(state).wf(),
    ensures
        final(state).wf(),
        same_deps(old(state).deep_view().services, final(state).deep_view().services),
        ({
            let name = service_name@;
            let a = told(
                old(state).deep_view(),
                EventModel::OpStart { op: "reprobe"@, target_or_service: name },
            );
            let b = final(state).deep_view();
            if !a.services.has(name) {
                b == a && r is Err && r->Err_0.deep_view() == no_service(name)
            } else if !(a.services.at(name).state is Running) {
                &&& b == a
                &&& r matches Ok(ServiceReprobe::Refused(response))
                &&& response.wf()
                &&& response.deep_view() == not_running(name, a.services.at(name).state)
            } else {
                &&& r matches Ok(ServiceReprobe::Check(next))
                &&& next.statuses.wf()
                &&& (b, next.deep_view()) == begun(
                    a,
                    refs_in(name, a.services.at(name).probes.keys),
                    seq![name],
                )
            }
        }),
{
    proof {
        lemma_same_deps_refl(state.deep_view().services);
    }
    state.emit(Event::op_start("reprobe", service_name));
    let refs = match state.services.get(service_name) {
        None => {
            return Err(service_not_found(service_name));
        },
        Some(svc) => {
            if svc.state != ServiceState::Running {
                let response = OpResponse {
                    result: "failed".to_owned(),
                    duration_ms: 0,
                    error: Some(
                        cat5(
                            "service '",
                            service_name,
                            "' is ",
                            svc.state.as_str(),
                            " \u{2014} start it first",
                        ),
                    ),
                    not_green: Vec::new(),
                    actions: OpActions::default(),
                    probes: OrderedMap::new(),
                    targets: OrderedMap::new(),
                };
                assert(response.not_green.deep_view() =~= Seq::<Str>::empty());
                return Ok(ServiceReprobe::Refused(response));
            }
            list_service_refs(service_name, svc)
        },
    };
    let affected = only_name(service_name);
    Ok(ServiceReprobe::Check(reprobe_core(state, &refs, affected)))
}

/// The services of some probes, one for each.
pub open spec fn services_of(refs: Seq<RefModel>) -> Seq<Str> {
    Seq::new(refs.len(), |i: int| refs[i].service)
}

/// Lists the services of some probes, one for each.
pub fn list_services(refs: &Vec<ProbeRef>) -> (r: Vec<String>)
    ensures
        r.deep_view() == services_of(refs.deep_view()),
{
    let mut out: Vec<String> = Vec::new();
    let mut i: usize = 0;
    while i < refs.len()
        invariant
            i <= refs.len(),
            out.len() == i,
            forall|j: int|
                0 <= j < i ==> (#[trigger] out@[j])@ == refs.deep_view()[j].service,
        decreases refs.len() - i,
    {
        out.push(refs[i].service.clone());
        i = i + 1;
    }
    assert(out.deep_view() =~= services_of(refs.deep_view()));
    out
}

/// Begins to check all probes again that a target needs. The target is made active, and all
/// targets that it depends on.
pub fn reprobe_target(state: &mut AppState, target_name: &str) -> (r: Result<
    Reprobe,
    GantryError,
>)
    requires
        old(state).wf(),
    ensures
        final(state).wf(),
        same_deps(old(state).deep_view().services, final(state).deep_view().services),
        ({
            let a = old(state).deep_view();
            let b = final(state).deep_view();
            let name = target_name@;
            if !a.targets.has(name) {
                b == a && r is Err && r->Err_0.deep_view() == no_target(name)
            } else {
                let c = AppModel { targets: activate_all(a.targets, seq![name]), ..a };
                let refs = a.targets.at(name).transitive_probes;
                &&& r is Ok
                &&& r->Ok_0.statuses.wf()
                &&& (b, r->Ok_0.deep_view()) == begun(c, refs, services_of(refs))
            }
        }),
{
    let ghost a = state.deep_view();
    proof {
        lemma_same_deps_refl(a.services);
    }
    let refs = match state.targets.get(target_name) {
        None => {
            return Err(target_not_found(target_name));
        },
        Some(t) => copy_refs(&t.transitive_probes),
    };
    activate_target_transitive(&mut state.targets, target_name);
    let affected = list_services(&refs);
    Ok(reprobe_core(state, &refs, affected))
}

/// Begins to check all probes of services that run again.
pub fn reprobe_all(state: &mut AppState) -> (r: Reprobe)
    requires
        old(state).wf(),
    ensures
        final(state).wf(),
        r.statuses.wf(),
        same_deps(old(state).deep_view().services, final(state).deep_view().services),
        ({
            let a = told(
                old(state).deep_view(),
                EventModel::OpStart { op: "reprobe"@, target_or_service: "all"@ },
            );
            (final(state).deep_view(), r.deep_view()) == begun(
                a,
                running_refs(a.services, a.services.keys),
                Seq::empty(),
            )
        }),
{
    state.emit(Event::op_start("reprobe", "all"));
    let refs = list_running_refs(&state.services);
    let affected: Vec<String> = Vec::new();
    assert(affected.deep_view() =~= Seq::<Str>::empty());
    reprobe_core(state, &refs, affected)
}

/// Ends an operation that checked probes again, when all checks have come in.
pub fn reprobe_done(
    state: &mut AppState,
    affected: &Vec<String>,
    statuses: OrderedMap<ProbeStatus>,
) -> (r: OpResponse)
    requires
        old(state).wf(),
        statuses.wf(),
    ensures
        final(state).wf(),
        r.wf(),
        same_deps(old(state).deep_view().services, final(state).deep_view().services),
        ({
            let b = after_show(old(state).deep_view());
            &&& final(state).deep_view() == after_tell(b, affected.deep_view())
            &&& r.deep_view() == ok_response(
                0,
                ActionsModel::none(),
                statuses.deep_view(),
                told_statuses(b, affected.deep_view()),
            )
        }),
{
    show(state);
    let target_statuses = emit_target_states(state, affected);
    OpResponse::ok(0, OpActions::default(), statuses, target_statuses)
}

} // verus!
