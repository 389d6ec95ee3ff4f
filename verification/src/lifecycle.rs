//! Services that are started and stopped, by an operation or from outside.
use crate::app_state::{AppModel, AppState};
use crate::batch::{lemma_recovery_same_deps, lemma_same_deps_refl, lemma_same_deps_trans};
use crate::emit::{
    after_show, after_tell, emit_svc_display_states, emit_target_states, told_statuses,
};
use crate::error::{no_service, service_not_found, GantryError};
use crate::graph::{DependencyGraph, Layer};
use crate::keeps::{lemma_move_same, lemma_pass_on_same, lemma_show_same};
use crate::model::{PendingModel, PendingReason, RedModel, RedReason, ServiceState, StateModel};
use crate::ops::{
    emit_propagated_changes, lemma_marked, lemma_move_probes, mark_all_probes_pending,
    mark_all_probes_red, move_changes, move_service, ok_response, pass_on, propagate_all_pending,
    report_changes, ActionsModel, OpActions, OpResponse, ProbeStatus, Stay, StatusModel,
};
use crate::ordered_map::{OrderedMap, Table};
use crate::probe_meta::same_deps;
use crate::propagate::{lemma_text_parses, recovery_result, Change, ChangeModel};
use crate::runtime::{ServiceModel, Services, ServicesModel};
use crate::text::{text_eq, Str};
use vstd::prelude::*;

verus! {

/// A service once it is known to be in another state: what was sent out before is stale.
pub open spec fn next_generation(svc: ServiceModel, state: ServiceState) -> ServiceModel {
    ServiceModel { state, generation: (svc.generation + 1) as u64, ..svc }
}

/// The state and the statuses after a service no longer runs: its probes are red for a
/// reason, and the probes that depend on them are red because of them.
pub open spec fn halted(
    a: AppModel,
    statuses: Table<StatusModel>,
    name: Str,
    state: ServiceState,
    reason: RedModel,
) -> (AppModel, Table<StatusModel>) {
    let svc = a.services.at(name);
    let to = StateModel::Red(reason);
    let s = a.services.put(name, move_service(next_generation(svc, state), Stay::Nothing, to));
    let told = report_changes(
        s,
        move_changes(name, svc.probes, svc.probes.keys, Stay::Nothing, to),
        a.report(statuses),
    );
    let (after, changes) = pass_on(a.graph.probes, name, svc.probes.keys, s);
    let done = report_changes(after, changes, told);
    (AppModel { services: after, events: done.events, ..a }, done.statuses)
}

/// Lets a service that does not run any longer be in a state, with red probes.
fn halt<F: Fn() -> RedReason>(
    state: &mut AppState,
    service_name: &str,
    to: ServiceState,
    reason: F,
    Ghost(m): Ghost<RedModel>,
    probe_statuses: &mut OrderedMap<ProbeStatus>,
)
    requires
        old(state).wf(),
        old(probe_statuses).wf(),
        old(state).deep_view().services.has(service_name@),
        old(state).deep_view().services.at(service_name@).generation < u64::MAX,
        call_requires(reason, ()),
        forall|y: RedReason| #[trigger] call_ensures(reason, (), y) ==> y.deep_view() == m,
    ensures
        final(state).wf(),
        final(probe_statuses).wf(),
        same_deps(old(state).deep_view().services, final(state).deep_view().services),
        (final(state).deep_view(), final(probe_statuses).deep_view()) == halted(
            old(state).deep_view(),
            old(probe_statuses).deep_view(),
            service_name@,
            to,
            m,
        ),
{
    let ghost a = state.deep_view();
    let ghost name = service_name@;
    let ghost svc_before = a.services.at(name);
    let position = state.services.position(service_name);
    if let Some(i) = position {
        let svc = state.services.value_mut(i);
        svc.state = to;
        svc.generation = svc.generation + 1;
        let ghost probes = svc.deep_view().probes;
        proof {
            svc.probes.lemma_valid();
        }
        let changes = mark_all_probes_red(service_name, svc, reason);
        proof {
            lemma_marked(name, probes, svc.deep_view().probes, Stay::Nothing, StateModel::Red(m));
        }
        let ghost s = state.services.deep_view();
        proof {
            assert(s =~= a.services.put(
                name,
                move_service(next_generation(svc_before, to), Stay::Nothing, StateModel::Red(m)),
            ));
            lemma_moved_keys(probes, Stay::Nothing, StateModel::Red(m));
            lemma_move_same(
                a.services,
                name,
                next_generation(svc_before, to),
                Stay::Nothing,
                StateModel::Red(m),
            );
            lemma_pass_on_same(a.graph.probes, name, svc_before.probes.keys, s);
        }
        emit_propagated_changes(&mut state.events, &state.services, &changes, probe_statuses);
        let changes = propagate_all_pending(&state.graph, service_name, &mut state.services);
        proof {
            lemma_same_deps_trans(a.services, s, state.services.deep_view());
        }
        emit_propagated_changes(&mut state.events, &state.services, &changes, probe_statuses);
    }
}

/// Moving probes changes no name.
pub proof fn lemma_moved_keys(
    probes: Table<crate::runtime::ProbeModel>,
    stay: Stay,
    to: StateModel,
)
    requires
        probes.valid(),
    ensures
        crate::ops::move_probes(probes, probes.keys, stay, to).keys == probes.keys,
{
    assert forall|i: int| 0 <= i < probes.keys.len() implies probes.has(
        #[trigger] probes.keys[i],
    ) by {
        assert(probes.keys.contains(probes.keys[i]));
    }
    lemma_move_probes(probes, probes.keys, stay, to);
}

/// One name alone.
pub fn only_name(name: &str) -> (r: Vec<String>)
    ensures
        r.deep_view() == seq![name@],
{
    let mut out: Vec<String> = Vec::new();
    out.push(name.to_owned());
    assert(out.deep_view() =~= seq![name@]);
    out
}

fn reason_stopped() -> (r: RedReason)
    ensures
        r.deep_view() == RedModel::Stopped,
{
    RedReason::Stopped
}

fn reason_died() -> (r: RedReason)
    ensures
        r.deep_view() == RedModel::ContainerDied,
{
    RedReason::ContainerDied
}

/// Reports the services that are not shown as they were last.
pub(crate) fn show(state: &mut AppState)
    requires
        old(state).wf(),
    ensures
        final(state).wf(),
        final(state).deep_view() == after_show(old(state).deep_view()),
        same_deps(old(state).deep_view().services, final(state).deep_view().services),
{
    proof {
        state.services.lemma_valid();
        lemma_show_same(state.deep_view());
    }
    emit_svc_display_states(state);
}

/// A stop that has begun: the answer, and the container that is still to be stopped.
pub struct Stopping {
    pub response: OpResponse,
    pub container: Option<String>,
}

/// What was stopped, alone.
pub open spec fn only_stopped(name: Str) -> ActionsModel {
    ActionsModel { stopped: seq![name], ..ActionsModel::none() }
}

/// The state and the statuses after a service was stopped.
pub open spec fn stopped(a: AppModel, name: Str) -> (AppModel, Table<StatusModel>) {
    let (b, statuses) = halted(
        a,
        Table::empty(),
        name,
        ServiceState::Stopped,
        RedModel::Stopped,
    );
    (after_show(b), statuses)
}

/// Stops a service. It is marked as stopped at once, so that the end of its container is no
/// surprise. The container is stopped afterwards, unless it is known to have died.
pub fn stop(state: &mut AppState, service_name: &str) -> (r: Result<Stopping, GantryError>)
    requires
        old(state).wf(),
        ({
            let s = old(state).deep_view().services;
            s.has(service_name@) && !(s.at(service_name@).state is Stopped) ==> s.at(
                service_name@,
            ).generation < u64::MAX
        }),
    ensures
        final(state).wf(),
        r matches Ok(done) ==> done.response.wf(),
        same_deps(old(state).deep_view().services, final(state).deep_view().services),
        ({
            let a = old(state).deep_view();
            let b = final(state).deep_view();
            let name = service_name@;
            if !a.services.has(name) {
                r is Err && r->Err_0.deep_view() == no_service(name) && b == a
            } else if a.services.at(name).state is Stopped {
                &&& r is Ok
                &&& b == after_tell(a, seq![name])
                &&& r->Ok_0.response.deep_view() == ok_response(
                    0,
                    ActionsModel::none(),
                    Table::empty(),
                    told_statuses(a, seq![name]),
                )
                &&& r->Ok_0.container is None
            } else {
                let (c, statuses) = stopped(a, name);
                &&& r is Ok
                &&& b == after_tell(c, seq![name])
                &&& r->Ok_0.response.deep_view() == ok_response(
                    0,
                    only_stopped(name),
                    statuses,
                    told_statuses(c, seq![name]),
                )
                &&& r->Ok_0.container.deep_view() == (if a.services.at(name).state is Crashed {
                    None
                } else {
                    Some(a.services.at(name).container)
                })
            }
        }),
{
    let ghost a = state.deep_view();
    proof {
        lemma_same_deps_refl(a.services);
    }
    let mut actions = OpActions::default();
    let mut probe_statuses: OrderedMap<ProbeStatus> = OrderedMap::new();
    let (current, container) = match state.services.get(service_name) {
        None => {
            return Err(service_not_found(service_name));
        },
        Some(svc) => (svc.state, svc.container.clone()),
    };
    let affected = only_name(service_name);
    if current == ServiceState::Stopped {
        let target_statuses = emit_target_states(state, &affected);
        return Ok(
            Stopping {
                response: OpResponse::ok(0, actions, probe_statuses, target_statuses),
                container: None,
            },
        );
    }
    halt(
        state,
        service_name,
        ServiceState::Stopped,
        reason_stopped,
        Ghost(RedModel::Stopped),
        &mut probe_statuses,
    );
    let ghost b = state.deep_view();
    actions.stopped.push(service_name.to_owned());
    assert(actions.deep_view() =~= only_stopped(service_name@));
    show(state);
    proof {
        lemma_same_deps_trans(a.services, b.services, state.deep_view().services);
    }
    let target_statuses = emit_target_states(state, &affected);
    Ok(
        Stopping {
            response: OpResponse::ok(0, actions, probe_statuses, target_statuses),
            container: if current == ServiceState::Crashed {
                None
            } else {
                Some(container)
            },
        },
    )
}

/// The state after a container died from outside.
pub open spec fn died(a: AppModel, name: Str) -> AppModel {
    if a.services.has(name) && !(a.services.at(name).state is Stopped) {
        let (b, _) = halted(
            a,
            Table::empty(),
            name,
            ServiceState::Crashed,
            RedModel::ContainerDied,
        );
        after_tell(after_show(b), seq![name])
    } else {
        a
    }
}

/// Takes in that the container of a service died. The end of a service that was stopped is
/// no surprise.
pub fn handle_die(state: &mut AppState, svc_name: &str)
    requires
        old(state).wf(),
        ({
            let s = old(state).deep_view().services;
            s.has(svc_name@) && !(s.at(svc_name@).state is Stopped) ==> s.at(svc_name@).generation
                < u64::MAX
        }),
    ensures
        final(state).wf(),
        same_deps(old(state).deep_view().services, final(state).deep_view().services),
        final(state).deep_view() == died(old(state).deep_view(), svc_name@),
{
    let ghost a = state.deep_view();
    proof {
        lemma_same_deps_refl(a.services);
    }
    match state.services.get(svc_name) {
        None => {
            return ;
        },
        Some(svc) => {
            if svc.state == ServiceState::Stopped {
                return ;
            }
        },
    }
    let mut probe_statuses: OrderedMap<ProbeStatus> = OrderedMap::new();
    halt(
        state,
        svc_name,
        ServiceState::Crashed,
        reason_died,
        Ghost(RedModel::ContainerDied),
        &mut probe_statuses,
    );
    let ghost b = state.deep_view();
    show(state);
    proof {
        lemma_same_deps_trans(a.services, b.services, state.deep_view().services);
    }
    let affected = only_name(svc_name);
    emit_target_states(state, &affected);
}

fn reason_started() -> (r: PendingReason)
    ensures
        r.deep_view() == PendingModel::ContainerStarted,
{
    PendingReason::ContainerStarted
}

/// The services and the changes after the recovery of those of some probes that were red is
/// passed on.
pub open spec fn recover(g: Layer, moves: Seq<ChangeModel>, s: ServicesModel) -> (
    ServicesModel,
    Seq<ChangeModel>,
)
    decreases moves.len(),
{
    if moves.len() == 0 {
        (s, Seq::empty())
    } else {
        let (so_far, changes) = recover(g, moves.drop_last(), s);
        let (r, _, prev) = moves.last();
        if prev is Red {
            let w = recovery_result(g, r.text(), so_far, changes);
            (w.services, w.changes)
        } else {
            (so_far, changes)
        }
    }
}

proof fn lemma_recover_same(g: Layer, moves: Seq<ChangeModel>, s: ServicesModel)
    ensures
        same_deps(s, recover(g, moves, s).0),
    decreases moves.len(),
{
    lemma_same_deps_refl(s);
    if moves.len() > 0 {
        let (so_far, changes) = recover(g, moves.drop_last(), s);
        lemma_recover_same(g, moves.drop_last(), s);
        let (r, _, prev) = moves.last();
        lemma_recovery_same_deps(g, r.text(), so_far, changes);
        lemma_same_deps_trans(
            s,
            so_far,
            recovery_result(g, r.text(), so_far, changes).services,
        );
    }
}

/// Passes on the recovery of those of some probes that were red.
fn pass_on_recovery(graph: &DependencyGraph, moves: &Vec<Change>, services: &mut Services) -> (r:
    Vec<Change>)
    requires
        graph.wf(),
        old(services).wf(),
    ensures
        final(services).wf(),
        (final(services).deep_view(), r.deep_view()) == recover(
            graph.deep_view().probes,
            moves.deep_view(),
            old(services).deep_view(),
        ),
{
    let ghost s = services.deep_view();
    let ghost g = graph.deep_view().probes;
    let ghost all = moves.deep_view();
    let mut changes: Vec<Change> = Vec::new();
    let mut i: usize = 0;
    assert(changes.deep_view() =~= Seq::<ChangeModel>::empty());
    while i < moves.len()
        invariant
            graph.wf(),
            services.wf(),
            g == graph.deep_view().probes,
            all == moves.deep_view(),
            i <= moves.len(),
            (services.deep_view(), changes.deep_view()) == recover(g, all.take(i as int), s),
        decreases moves.len() - i,
    {
        let ghost next = all.take(i + 1);
        assert(next.drop_last() =~= all.take(i as int));
        let c = &moves[i];
        assert(next.last() == (c.0.deep_view(), c.1.deep_view(), c.2.deep_view()));
        if c.2.is_red() {
            proof {
                lemma_text_parses(c.0.deep_view());
            }
            graph.propagate_recovery(c.0.to_string().as_str(), services, &mut changes);
        }
        i = i + 1;
    }
    assert(all.take(i as int) =~= all);
    changes
}

/// The state after a container was started from outside: its probes await a check, and so do
/// the probes that were red because of them.
pub open spec fn woken(a: AppModel, name: Str) -> AppModel {
    if a.services.has(name) && !(a.services.at(name).state is Running) {
        let svc = a.services.at(name);
        let to = StateModel::Pending(PendingModel::ContainerStarted);
        let s = a.services.put(
            name,
            move_service(next_generation(svc, ServiceState::Running), Stay::Pending, to),
        );
        let moves = move_changes(name, svc.probes, svc.probes.keys, Stay::Pending, to);
        let told = report_changes(s, moves, a.report(Table::empty()));
        let (after, changes) = recover(a.graph.probes, moves, s);
        let done = report_changes(after, changes, told);
        after_tell(
            after_show(AppModel { services: after, events: done.events, ..a }),
            seq![name],
        )
    } else {
        a
    }
}

/// Takes in that the container of a service was started.
pub fn handle_start(state: &mut AppState, svc_name: &str)
    requires
        old(state).wf(),
        ({
            let s = old(state).deep_view().services;
            s.has(svc_name@) && !(s.at(svc_name@).state is Running) ==> s.at(svc_name@).generation
                < u64::MAX
        }),
    ensures
        final(state).wf(),
        same_deps(old(state).deep_view().services, final(state).deep_view().services),
        final(state).deep_view() == woken(old(state).deep_view(), svc_name@),
{
    let ghost a = state.deep_view();
    let ghost name = svc_name@;
    let ghost svc_before = a.services.at(name);
    let ghost to = StateModel::Pending(PendingModel::ContainerStarted);
    proof {
        lemma_same_deps_refl(a.services);
    }
    let i: usize = match state.services.position(svc_name) {
        None => {
            return ;
        },
        Some(i) => i,
    };
    if state.services.value(i).state == ServiceState::Running {
        return ;
    }
    let mut probe_statuses: OrderedMap<ProbeStatus> = OrderedMap::new();
    let svc = state.services.value_mut(i);
    svc.state = ServiceState::Running;
    svc.generation = svc.generation + 1;
    let ghost probes = svc.deep_view().probes;
    proof {
        svc.probes.lemma_valid();
    }
    let changes = mark_all_probes_pending(svc_name, svc, reason_started);
    proof {
        lemma_marked(name, probes, svc.deep_view().probes, Stay::Pending, to);
    }
    let ghost s = state.services.deep_view();
    assert(s =~= a.services.put(
        name,
        move_service(next_generation(svc_before, ServiceState::Running), Stay::Pending, to),
    ));
    proof {
        lemma_move_same(
            a.services,
            name,
            next_generation(svc_before, ServiceState::Running),
            Stay::Pending,
            to,
        );
        lemma_recover_same(a.graph.probes, changes.deep_view(), s);
    }
    emit_propagated_changes(&mut state.events, &state.services, &changes, &mut probe_statuses);
    let passed = pass_on_recovery(&state.graph, &changes, &mut state.services);
    proof {
        lemma_same_deps_trans(a.services, s, state.services.deep_view());
    }
    emit_propagated_changes(&mut state.events, &state.services, &passed, &mut probe_statuses);
    let ghost b = state.deep_view();
    show(state);
    proof {
        lemma_same_deps_trans(a.services, b.services, state.deep_view().services);
    }
    let affected = only_name(svc_name);
    emit_target_states(state, &affected);
}

/// The first of some services that has a container.
pub open spec fn service_of(s: ServicesModel, keys: Seq<Str>, container: Str) -> Option<Str>
    decreases keys.len(),
{
    if keys.len() == 0 {
        None
    } else {
        match service_of(s, keys.drop_last(), container) {
            Some(name) => Some(name),
            None => if s.at(keys.last()).container == container {
                Some(keys.last())
            } else {
                None
            },
        }
    }
}

/// Finds the service that has a container.
pub fn find_service(services: &Services, container: &str) -> (r: Option<String>)
    requires
        services.wf(),
    ensures
        r.deep_view() == service_of(
            services.deep_view(),
            services.deep_view().keys,
            container@,
        ),
{
    let ghost s = services.deep_view();
    let n: usize = services.len();
    let mut found: Option<String> = None;
    let mut i: usize = 0;
    while i < n
        invariant
            services.wf(),
            s == services.deep_view(),
            i <= n == s.keys.len(),
            found.deep_view() == service_of(s, s.keys.take(i as int), container@),
        decreases n - i,
    {
        let ghost next = s.keys.take(i + 1);
        assert(next.drop_last() =~= s.keys.take(i as int));
        assert(next.last() == s.keys[i as int]);
        if found.is_none() && text_eq(services.value(i).container.as_str(), container) {
            found = Some(services.name(i).clone());
        }
        i = i + 1;
    }
    assert(s.keys.take(i as int) =~= s.keys);
    found
}

/// The state after an event of the container engine.
pub open spec fn after_engine_event(
    a: AppModel,
    action: Option<Str>,
    container: Option<Str>,
) -> AppModel {
    match (action, container) {
        (Some(action), Some(container)) => match service_of(
            a.services,
            a.services.keys,
            container,
        ) {
            Some(name) => if action == "die"@ {
                died(a, name)
            } else if action == "start"@ {
                woken(a, name)
            } else {
                a
            },
            None => a,
        },
        _ => a,
    }
}

/// Takes in an event of the container engine: what happened, and to which container. Events
/// of other containers, and events that tell neither of an end nor of a start, change nothing.
pub fn handle_engine_event(
    state: &mut AppState,
    action: Option<&str>,
    container: Option<&str>,
)
    requires
        old(state).wf(),
        forall|k: Str| #[trigger]
            old(state).deep_view().services.has(k) ==> old(state).deep_view().services.at(
                k,
            ).generation < u64::MAX,
    ensures
        final(state).wf(),
        same_deps(old(state).deep_view().services, final(state).deep_view().services),
        final(state).deep_view() == after_engine_event(
            old(state).deep_view(),
            match action {
                Some(x) => Some(x@),
                None => None,
            },
            match container {
                Some(x) => Some(x@),
                None => None,
            },
        ),
{
    proof {
        reveal_strlit("die");
        reveal_strlit("start");
    }
    proof {
        lemma_same_deps_refl(state.deep_view().services);
    }
    if let (Some(action), Some(container)) = (action, container) {
        if let Some(name) = find_service(&state.services, container) {
            if text_eq(action, "die") {
                handle_die(state, name.as_str());
            } else if text_eq(action, "start") {
                handle_start(state, name.as_str());
            }
        }
    }
}

} // verus!
