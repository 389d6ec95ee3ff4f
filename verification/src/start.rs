//! How a service is started and restarted.
use crate::app_state::{AppModel, AppState};
use crate::batch::{
    batch_known, lemma_same_deps_refl, lemma_same_deps_trans, resolve_batch, resolve_probe_batch,
};
use crate::emit::{after_show, after_tell, emit_target_states, law_show_keeps, told_statuses};
use crate::error::{no_service, service_not_found, ErrorModel, GantryError};
use crate::events::{Event, EventModel};
use crate::keeps::lemma_move_same;
use crate::lifecycle::{lemma_moved_keys, next_generation, only_name, show};
use crate::model::{
    PendingModel, PendingReason, ProbeRef, ProbeState, RefModel, ServiceState, StateModel,
};
use crate::ops::{
    emit_propagated_changes, move_all_probes, move_changes, move_service, ok_response,
    report_changes, ActionsModel, OpActions, OpResponse, ProbeStatus, ResponseModel, Stay,
    StatusModel,
};
use crate::ordered_map::{OrderedMap, Table};
use crate::probe::{OutcomeModel, ProbeOutcome};
use crate::probe_meta::{acyclic, same_deps};
use crate::resolve::{
    collect_pending_probes, list_service_refs, pending_among, refs_in, PendingProbe,
};
use crate::runtime::{find_probe, green_at, probe_at, ServiceModel, Services, ServicesModel};
use crate::text::{cat, cat3, cat5, join, joined, text_eq, Str};
use vstd::prelude::*;

verus! {

/// What is told of a probe that is not green while a service is to start after it: its state,
/// and what may help.
pub open spec fn unmet_line(s: ServicesModel, dep: RefModel) -> Str {
    let (state, help) = match probe_at(s, dep) {
        None => ("missing"@, "start "@),
        Some(p) => (
            p.state.text(),
            match p.state {
                StateModel::Red(_) => "check "@,
                StateModel::Pending(_) => "reprobe "@,
                StateModel::Green => "start "@,
            },
        ),
    };
    dep.text() + ": "@ + state + " ("@ + (help + dep.service) + ")"@
}

/// What is told of those of some probes that are not green.
pub open spec fn unmet(s: ServicesModel, deps: Seq<RefModel>) -> Seq<Str>
    decreases deps.len(),
{
    if deps.len() == 0 {
        Seq::empty()
    } else if green_at(s, deps.last()) {
        unmet(s, deps.drop_last())
    } else {
        unmet(s, deps.drop_last()).push(unmet_line(s, deps.last()))
    }
}

/// The error for a service that is to start after probes that are not green.
pub open spec fn unmet_error(lines: Seq<Str>) -> ErrorModel {
    ErrorModel::Operation(
        "start_after not satisfied: "@ + joined(lines, ", "@)
            + ". Use converge to resolve all dependencies"@,
    )
}

fn tell_unmet(services: &Services, dep: &ProbeRef) -> (r: String)
    requires
        services.wf(),
    ensures
        r@ == unmet_line(services.deep_view(), dep.deep_view()),
{
    let (state, help) = match find_probe(services, dep) {
        None => ("missing", "start "),
        Some(p) => (
            p.state.as_str(),
            match p.state {
                ProbeState::Red(_) => "check ",
                ProbeState::Pending(_) => "reprobe ",
                ProbeState::Green => "start ",
            },
        ),
    };
    let line = cat5(
        dep.to_string().as_str(),
        ": ",
        state,
        " (",
        cat(help, dep.service.as_str()).as_str(),
    );
    cat(line.as_str(), ")")
}

fn list_unmet(services: &Services, deps: &Vec<ProbeRef>) -> (r: Vec<String>)
    requires
        services.wf(),
    ensures
        r.deep_view() == unmet(services.deep_view(), deps.deep_view()),
{
    let ghost s = services.deep_view();
    let ghost all = deps.deep_view();
    let mut out: Vec<String> = Vec::new();
    let mut i: usize = 0;
    assert(out.deep_view() =~= Seq::<Str>::empty());
    while i < deps.len()
        invariant
            services.wf(),
            s == services.deep_view(),
            all == deps.deep_view(),
            i <= deps.len(),
            out.deep_view() == unmet(s, all.take(i as int)),
        decreases deps.len() - i,
    {
        let ghost next = all.take(i + 1);
        let dep = &deps[i];
        assert(next.drop_last() =~= all.take(i as int));
        assert(next.last() == dep.deep_view());
        if !crate::runtime::probe_is_green(services, dep) {
            let line = tell_unmet(services, dep);
            let ghost before = out.deep_view();
            out.push(line);
            assert(out.deep_view() =~= before.push(line@));
        }
        i = i + 1;
    }
    assert(all.take(i as int) =~= all);
    out
}

/// What is next for a service that is to be started.
pub enum Starting {
    /// Nothing: it runs already.
    Running(OpResponse),
    /// Its container is to be started.
    Start { container: String },
}

/// Begins the start of a service. If asked to, looks whether the probes that it starts after
/// are green.
pub fn start(state: &mut AppState, service_name: &str, check_start_after: bool) -> (r: Result<
    Starting,
    GantryError,
>)
    requires
        old(state).wf(),
    ensures
        final(state).wf(),
        same_deps(old(state).deep_view().services, final(state).deep_view().services),
        ({
            let a = old(state).deep_view();
            let b = final(state).deep_view();
            let name = service_name@;
            if !a.services.has(name) {
                r is Err && r->Err_0.deep_view() == no_service(name) && b == a
            } else if a.services.at(name).state is Running {
                &&& b == after_tell(a, seq![name])
                &&& r matches Ok(Starting::Running(response))
                &&& response.wf()
                &&& response.deep_view() == ok_response(
                    0,
                    ActionsModel::none(),
                    Table::empty(),
                    told_statuses(a, seq![name]),
                )
            } else {
                let lines = unmet(a.services, a.services.at(name).start_after);
                &&& b == a
                &&& if check_start_after && lines.len() > 0 {
                    r is Err && r->Err_0.deep_view() == unmet_error(lines)
                } else {
                    r matches Ok(Starting::Start { container }) && container@ == a.services.at(
                        name,
                    ).container
                }
            }
        }),
{
    proof {
        lemma_same_deps_refl(state.deep_view().services);
    }
    let (running, container, lines) = match state.services.get(service_name) {
        None => {
            return Err(service_not_found(service_name));
        },
        Some(svc) => (
            svc.state == ServiceState::Running,
            svc.container.clone(),
            list_unmet(&state.services, &svc.start_after),
        ),
    };
    if running {
        let affected = only_name(service_name);
        let target_statuses = emit_target_states(state, &affected);
        return Ok(
            Starting::Running(
                OpResponse::ok(0, OpActions::default(), OrderedMap::new(), target_statuses),
            ),
        );
    }
    assert(lines.deep_view().len() == lines.len());
    if check_start_after && lines.len() > 0 {
        return Err(
            GantryError::Operation(
                cat3(
                    "start_after not satisfied: ",
                    join(&lines, ", ").as_str(),
                    ". Use converge to resolve all dependencies",
                ),
            ),
        );
    }
    Ok(Starting::Start { container })
}

/// A service that was just started: what was sent out before is stale, and all of its probes
/// are to be checked again.
pub open spec fn fresh(svc: ServiceModel, log_since: i64) -> ServiceModel {
    move_service(
        ServiceModel { log_since, ..next_generation(svc, ServiceState::Running) },
        Stay::Reprobing,
        StateModel::Pending(PendingModel::Reprobing),
    )
}

/// The state after the container of a service was started.
pub open spec fn started(a: AppModel, name: Str, log_since: i64) -> AppModel {
    let svc = a.services.at(name);
    let s = a.services.put(name, fresh(svc, log_since));
    let told = report_changes(
        s,
        move_changes(
            name,
            svc.probes,
            svc.probes.keys,
            Stay::Reprobing,
            StateModel::Pending(PendingModel::Reprobing),
        ),
        a.report(Table::empty()),
    );
    let b = after_show(AppModel { services: s, events: told.events, ..a });
    AppModel {
        events: b.events.push(
            EventModel::OpStart { op: "start"@, target_or_service: name },
        ),
        ..b
    }
}

/// Takes in that the container of a service was started by an operation, and lists the
/// checks that are to be sent out. Log lines from before `log_since` do not count.
pub fn start_checks(state: &mut AppState, service_name: &str, log_since: i64) -> (r: Vec<
    PendingProbe,
>)
    requires
        old(state).wf(),
        old(state).deep_view().services.has(service_name@),
        old(state).deep_view().services.at(service_name@).generation < u64::MAX,
    ensures
        final(state).wf(),
        final(state).deep_view() == started(old(state).deep_view(), service_name@, log_since),
        same_deps(old(state).deep_view().services, final(state).deep_view().services),
        r.deep_view() == pending_among(
            final(state).deep_view().services,
            refs_in(
                service_name@,
                old(state).deep_view().services.at(service_name@).probes.keys,
            ),
        ),
{
    let ghost a = state.deep_view();
    let ghost name = service_name@;
    let i: usize = state.services.position(service_name).unwrap();
    let mut probe_statuses: OrderedMap<ProbeStatus> = OrderedMap::new();
    let svc = state.services.value_mut(i);
    svc.state = ServiceState::Running;
    svc.generation = svc.generation + 1;
    svc.log_since = log_since;
    proof {
        svc.probes.lemma_valid();
    }
    let to = ProbeState::Pending(PendingReason::Reprobing);
    let changes = move_all_probes(service_name, svc, Stay::Reprobing, &to);
    assert(state.services.deep_view() =~= a.services.put(
        name,
        fresh(a.services.at(name), log_since),
    ));
    let ghost s = state.services.deep_view();
    proof {
        let now = ServiceModel {
            log_since,
            ..next_generation(a.services.at(name), ServiceState::Running)
        };
        let reprobing = StateModel::Pending(PendingModel::Reprobing);
        lemma_move_same(a.services, name, now, Stay::Reprobing, reprobing);
        lemma_moved_keys(a.services.at(name).probes, Stay::Reprobing, reprobing);
    }
    emit_propagated_changes(&mut state.events, &state.services, &changes, &mut probe_statuses);
    proof {
        state.services.lemma_valid();
        law_show_keeps(s, a.targets, name);
    }
    show(state);
    proof {
        lemma_same_deps_trans(a.services, s, state.services.deep_view());
    }
    state.emit(Event::op_start("start", service_name));
    let refs = list_service_refs(service_name, state.services.get(service_name).unwrap());
    collect_pending_probes(&state.services, Some(&refs))
}

/// What was started, alone.
pub open spec fn only_started(name: Str) -> ActionsModel {
    ActionsModel { started: seq![name], ..ActionsModel::none() }
}

/// The state and the statuses after a batch of outcomes was applied.
pub open spec fn after_batch(
    a: AppModel,
    statuses: Table<StatusModel>,
    batch: Seq<(RefModel, OutcomeModel)>,
) -> (AppModel, Table<StatusModel>) {
    let step = resolve_batch(
        a.graph.probes,
        batch,
        a.graph.probe_topo_order,
        a.step(statuses, Seq::empty()),
    );
    (after_show(a.after(step)), step.report.statuses)
}

/// Ends the start of a service, when all checks have come in. They are applied in the order
/// of the dependencies.
pub fn start_done(
    state: &mut AppState,
    service_name: &str,
    outcomes: &Vec<(ProbeRef, ProbeOutcome)>,
) -> (r: OpResponse)
    requires
        old(state).wf(),
        acyclic(old(state).deep_view().services),
        batch_known(old(state).deep_view().services, outcomes.deep_view()),
    ensures
        final(state).wf(),
        r.wf(),
        same_deps(old(state).deep_view().services, final(state).deep_view().services),
        ({
            let (b, statuses) = after_batch(
                old(state).deep_view(),
                Table::empty(),
                outcomes.deep_view(),
            );
            &&& final(state).deep_view() == after_tell(b, seq![service_name@])
            &&& r.deep_view() == ok_response(
                0,
                only_started(service_name@),
                statuses,
                told_statuses(b, seq![service_name@]),
            )
        }),
{
    let mut probe_statuses: OrderedMap<ProbeStatus> = OrderedMap::new();
    resolve_probe_batch(state, outcomes, &mut probe_statuses);
    let mut actions = OpActions::default();
    actions.started.push(service_name.to_owned());
    assert(actions.deep_view() =~= only_started(service_name@));
    let affected = only_name(service_name);
    let target_statuses = emit_target_states(state, &affected);
    OpResponse::ok(0, actions, probe_statuses, target_statuses)
}

/// A list without a name.
pub open spec fn without(list: Seq<Str>, name: Str) -> Seq<Str> {
    list.filter(|x: Str| x != name)
}

/// The answer of a start that was part of a restart.
pub open spec fn restarted(response: ResponseModel, name: Str) -> ResponseModel {
    ResponseModel {
        actions: ActionsModel {
            started: without(response.actions.started, name),
            restarted: response.actions.restarted.push(name),
            ..response.actions
        },
        ..response
    }
}

/// Tells the start of a service in an answer as a restart.
pub fn restart(response: OpResponse, service_name: &str) -> (r: OpResponse)
    requires
        response.wf(),
    ensures
        r.wf(),
        r.deep_view() == restarted(response.deep_view(), service_name@),
{
    let ghost all = response.actions.started.deep_view();
    let ghost keep = |x: Str| x != service_name@;
    let mut response = response;
    let mut started: Vec<String> = Vec::new();
    let mut i: usize = 0;
    proof {
        assert(started.deep_view() =~= Seq::<Str>::empty());
        assert(all.take(0) =~= Seq::<Str>::empty());
        reveal(Seq::filter);
    }
    while i < response.actions.started.len()
        invariant
            all == response.actions.started.deep_view(),
            keep == |x: Str| x != service_name@,
            i <= response.actions.started.len(),
            started.deep_view() == all.take(i as int).filter(keep),
        decreases response.actions.started.len() - i,
    {
        let ghost next = all.take(i + 1);
        let name = &response.actions.started[i];
        proof {
            reveal(Seq::filter);
            assert(next.drop_last() =~= all.take(i as int));
            assert(next.last() == name@);
        }
        if !text_eq(name.as_str(), service_name) {
            let ghost before = started.deep_view();
            started.push(name.clone());
            assert(started.deep_view() =~= before.push(name@));
        }
        i = i + 1;
    }
    assert(all.take(i as int) =~= all);
    response.actions.started = started;
    let ghost before = response.actions.restarted.deep_view();
    response.actions.restarted.push(service_name.to_owned());
    assert(response.actions.restarted.deep_view() =~= before.push(service_name@));
    response
}

} // verus!
