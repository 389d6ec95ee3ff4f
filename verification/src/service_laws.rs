//! What starts, stops and the events of the container engine do to services.
use crate::app_state::AppModel;
use crate::config::ConfigModel;
use crate::docker::ContainerInfo;
use crate::emit::law_show_keeps;
use crate::graph::{GraphModel, Layer};
use crate::keeps::lemma_only_probes_trans;
use crate::lifecycle::{
    after_engine_event, died, halted, next_generation, recover, service_of, stopped, woken,
};
use crate::lifecycle_laws::{law_halted, law_pass_on_keeps_red, lemma_halted_valid};
use crate::model::{
    parse_ref, parse_refs, PendingModel, RedModel, RefModel, ServiceState, StateModel,
};
use crate::ops::{
    lemma_move_probes, move_changes, move_probes, move_service, pass_on, ResponseModel, Stay,
};
use crate::ordered_map::{lemma_put_valid, Table};
use crate::plan::{can_be_checked, first_red_dep, init_probes, init_services, lemma_init_probes};
use crate::propagate::{recovery_result, ChangeModel};
use crate::propagate_laws::{
    kept_or_moved, law_recovery_keeps_failures, lemma_set_probe, only_probes_changed,
    only_probes_differ,
};
use crate::round_laws::is_green;
use crate::runtime::{first_services, probe_at, ServiceModel, ServicesModel};
use crate::start::{fresh, restarted, started, unmet, unmet_line, without};
use crate::startup::{container_noted, first_state, whole_targets};
use crate::text::Str;
use vstd::prelude::*;

verus! {

/// Of the probes that a service is to start after just those that are not green are told.
pub proof fn law_unmet_told(s: ServicesModel, deps: Seq<RefModel>)
    ensures
        unmet(s, deps).len() == 0 <==> forall|i: int|
            0 <= i < deps.len() ==> is_green(s, #[trigger] deps[i]),
        forall|i: int|
            0 <= i < deps.len() && !is_green(s, #[trigger] deps[i]) ==> unmet(s, deps).contains(
                unmet_line(s, deps[i]),
            ),
    decreases deps.len(),
{
    if deps.len() > 0 {
        let front = deps.drop_last();
        let n = deps.len() - 1;
        law_unmet_told(s, front);
        let before = unmet(s, front);
        let after = unmet(s, deps);
        assert forall|i: int| 0 <= i < deps.len() && !is_green(s, #[trigger] deps[i]) implies after.contains(
            unmet_line(s, deps[i]),
        ) by {
            if i < n {
                assert(front[i] == deps[i]);
                let j = choose|j: int|
                    0 <= j < before.len() && before[j] == unmet_line(s, deps[i]);
                assert(after[j] == unmet_line(s, deps[i]));
            } else {
                assert(after[before.len() as int] == unmet_line(s, deps[i]));
            }
        }
        if after.len() == 0 {
            assert forall|i: int| 0 <= i < deps.len() implies is_green(s, #[trigger] deps[i]) by {
                if i < n {
                    assert(front[i] == deps[i]);
                }
            }
        }
        if forall|i: int| 0 <= i < deps.len() ==> is_green(s, #[trigger] deps[i]) {
            assert(is_green(s, deps[n]));
            assert forall|i: int| 0 <= i < front.len() implies is_green(s, #[trigger] front[i]) by {
                assert(front[i] == deps[i]);
            }
        }
    }
}

/// What is told of a probe that a start waits for begins with its name. A red one is to be
/// checked, a pending one to be checked again, and a missing one is told as missing.
pub proof fn law_unmet_line(s: ServicesModel, dep: RefModel)
    ensures
        ({
            let line = unmet_line(s, dep);
            let name = dep.service + seq!['.'] + dep.probe;
            match probe_at(s, dep) {
                None => line == name + ": "@ + "missing"@ + " ("@ + ("start "@ + dep.service) + ")"@,
                Some(p) => match p.state {
                    StateModel::Red(_) => line == name + ": "@ + "red"@ + " ("@ + ("check "@
                        + dep.service) + ")"@,
                    StateModel::Pending(_) => line == name + ": "@ + "pending"@ + " ("@ + (
                    "reprobe "@ + dep.service) + ")"@,
                    StateModel::Green => true,
                },
            }
        }),
{
}

/// Whether two services are the same but for the values of their probes and how they were last
/// shown.
pub open spec fn stays_put(a: ServiceModel, b: ServiceModel) -> bool {
    &&& b.state == a.state
    &&& b.generation == a.generation
    &&& b.container == a.container
    &&& b.name == a.name
    &&& b.start_after == a.start_after
    &&& b.restart_on_fail == a.restart_on_fail
    &&& b.log_since == a.log_since
    &&& b.probes.keys == a.probes.keys
}

/// When a service is started no other one changes, but for how it was last shown.
pub proof fn law_start_leaves_others(a: AppModel, name: Str, log_since: i64, k: Str)
    requires
        a.services.valid(),
        a.services.has(name),
        a.services.has(k),
        k != name,
    ensures
        started(a, name, log_since).services.has(k),
        started(a, name, log_since).services.at(k).probes == a.services.at(k).probes,
        stays_put(a.services.at(k), started(a, name, log_since).services.at(k)),
        started(a, name, log_since).targets == a.targets,
        started(a, name, log_since).current_op == a.current_op,
{
    let svc = a.services.at(name);
    let s = a.services.put(name, fresh(svc, log_since));
    lemma_put_valid(a.services, name, fresh(svc, log_since));
    law_show_keeps(s, a.targets, k);
}

/// When a service is stopped, or found to have crashed, it keeps its container and all that was
/// configured. Of other services just the values of probes change.
pub proof fn law_halt_leaves_others(
    a: AppModel,
    name: Str,
    state: ServiceState,
    reason: RedModel,
    k: Str,
)
    requires
        a.services.valid(),
        a.services.has(name),
        a.services.at(name).probes.valid(),
        a.services.has(k),
    ensures
        ({
            let b = halted(a, Table::empty(), name, state, reason).0;
            &&& b.services.has(k)
            &&& k != name ==> stays_put(a.services.at(k), b.services.at(k))
            &&& b.services.at(name).container == a.services.at(name).container
            &&& b.services.at(name).start_after == a.services.at(name).start_after
            &&& b.services.at(name).restart_on_fail == a.services.at(name).restart_on_fail
            &&& b.services.at(name).probes.keys == a.services.at(name).probes.keys
            &&& b.targets == a.targets
            &&& b.current_op == a.current_op
        }),
{
    let svc = a.services.at(name);
    let to = StateModel::Red(reason);
    let now = move_service(next_generation(svc, state), Stay::Nothing, to);
    let s = a.services.put(name, now);
    let probes = svc.probes;
    assert forall|i: int| 0 <= i < probes.keys.len() implies probes.has(
        #[trigger] probes.keys[i],
    ) by {
        assert(probes.keys.contains(probes.keys[i]));
    }
    lemma_move_probes(probes, probes.keys, Stay::Nothing, to);
    law_pass_on_keeps_red(
        a.graph.probes,
        name,
        probes.keys,
        s,
        RefModel { service: name, probe: name },
    );
    let after = pass_on(a.graph.probes, name, probes.keys, s).0;
    assert(s.has(k) == after.has(k));
    assert(only_probes_differ(s.at(k), after.at(k)));
    assert(s.has(name) == after.has(name));
    assert(only_probes_differ(s.at(name), after.at(name)));
}

/// A container that ends is no surprise where its service was stopped: then nothing changes. Else
/// the service has crashed, what was sent out before is stale, and all of its probes are red
/// because the container died.
pub proof fn law_container_died(a: AppModel, name: Str, probe: Str)
    requires
        a.services.valid(),
        a.services.has(name),
        a.services.at(name).probes.valid(),
    ensures
        a.services.at(name).state == ServiceState::Stopped ==> died(a, name) == a,
        a.services.at(name).state != ServiceState::Stopped ==> ({
            let svc = died(a, name).services.at(name);
            &&& svc.state == ServiceState::Crashed
            &&& a.services.at(name).generation < u64::MAX ==> svc.generation == a.services.at(
                name,
            ).generation + 1
            &&& svc.container == a.services.at(name).container
            &&& a.services.at(name).probes.has(probe) ==> svc.probes.has(probe) && svc.probes.at(
                probe,
            ).state == StateModel::Red(RedModel::ContainerDied)
        }),
{
    if a.services.at(name).state != ServiceState::Stopped {
        let to = ServiceState::Crashed;
        let why = RedModel::ContainerDied;
        law_halted(a, Table::empty(), name, to, why, probe);
        law_halt_leaves_others(a, name, to, why, name);
        lemma_halted_valid(a, name, to, why);
        let b = halted(a, Table::empty(), name, to, why).0;
        law_show_keeps(b.services, b.targets, name);
    }
}

proof fn lemma_recover(g: Layer, moves: Seq<ChangeModel>, s: ServicesModel, r: RefModel)
    ensures
        only_probes_changed(s, recover(g, moves, s).0),
        (probe_at(s, r) matches Some(p) && p.state is Pending) ==> probe_at(
            recover(g, moves, s).0,
            r,
        ) == probe_at(s, r),
    decreases moves.len(),
{
    if moves.len() > 0 {
        let (so_far, changes) = recover(g, moves.drop_last(), s);
        lemma_recover(g, moves.drop_last(), s, r);
        let key = moves.last().0.text();
        law_recovery_keeps_failures(g, key, so_far, changes, r);
        let after = recovery_result(g, key, so_far, changes).services;
        lemma_only_probes_trans(s, so_far, after);
        assert(kept_or_moved(so_far, after, r, true));
    }
}

/// A container that starts by itself changes nothing where its service runs. Else the service
/// runs, what was sent out before is stale, and each of its probes awaits a check: one that awaited
/// one already stays as it is, and each other one does because its container was started.
pub proof fn law_container_started(a: AppModel, name: Str, probe: Str)
    requires
        a.services.valid(),
        a.services.has(name),
        a.services.at(name).probes.valid(),
    ensures
        a.services.at(name).state == ServiceState::Running ==> woken(a, name) == a,
        a.services.at(name).state != ServiceState::Running ==> ({
            let old = a.services.at(name);
            let svc = woken(a, name).services.at(name);
            &&& svc.state == ServiceState::Running
            &&& old.generation < u64::MAX ==> svc.generation == old.generation + 1
            &&& svc.container == old.container
            &&& svc.log_since == old.log_since
            &&& old.probes.has(probe) ==> svc.probes.has(probe) && svc.probes.at(probe).state == (
            if old.probes.at(probe).state is Pending {
                old.probes.at(probe).state
            } else {
                StateModel::Pending(PendingModel::ContainerStarted)
            })
        }),
{
    if a.services.at(name).state != ServiceState::Running {
        let svc = a.services.at(name);
        let to = StateModel::Pending(PendingModel::ContainerStarted);
        let now = move_service(next_generation(svc, ServiceState::Running), Stay::Pending, to);
        let s = a.services.put(name, now);
        let probes = svc.probes;
        let moves = move_changes(name, probes, probes.keys, Stay::Pending, to);
        assert forall|i: int| 0 <= i < probes.keys.len() implies probes.has(
            #[trigger] probes.keys[i],
        ) by {
            assert(probes.keys.contains(probes.keys[i]));
        }
        lemma_move_probes(probes, probes.keys, Stay::Pending, to);
        let m = move_probes(probes, probes.keys, Stay::Pending, to);
        assert(m.has(probe) == probes.has(probe));
        assert(probes.has(probe) ==> probes.keys.contains(probe));
        assert(m.at(probe) == m.at(probe));
        let r = RefModel { service: name, probe };
        lemma_recover(a.graph.probes, moves, s, r);
        let after = recover(a.graph.probes, moves, s).0;
        assert(s.has(name) == after.has(name));
        assert(only_probes_differ(s.at(name), after.at(name)));
        lemma_put_valid(a.services, name, now);
        assert(after.valid()) by {
            assert forall|k: Str| #[trigger] after.map.contains_key(k) <==> after.keys.contains(
                k,
            ) by {
                assert(s.has(k) == after.has(k));
                assert(s.map.contains_key(k) <==> s.keys.contains(k));
            }
        }
        law_show_keeps(after, a.targets, name);
    }
}

/// The service that a container belongs to is the first one that has it.
pub proof fn law_owner_of_container(s: ServicesModel, keys: Seq<Str>, container: Str)
    ensures
        match service_of(s, keys, container) {
            Some(name) => exists|i: int|
                0 <= i < keys.len() && #[trigger] keys[i] == name && s.at(keys[i]).container
                    == container && forall|j: int|
                    0 <= j < i ==> s.at(#[trigger] keys[j]).container != container,
            None => forall|i: int|
                0 <= i < keys.len() ==> s.at(#[trigger] keys[i]).container != container,
        },
    decreases keys.len(),
{
    if keys.len() > 0 {
        let front = keys.drop_last();
        let n = keys.len() - 1;
        law_owner_of_container(s, front, container);
        match service_of(s, front, container) {
            Some(name) => {
                let i = choose|i: int|
                    0 <= i < front.len() && #[trigger] front[i] == name && s.at(front[i]).container
                        == container && forall|j: int|
                        0 <= j < i ==> s.at(#[trigger] front[j]).container != container;
                assert(keys[i] == name);
                assert forall|j: int| 0 <= j < i implies s.at(#[trigger] keys[j]).container
                    != container by {
                    assert(front[j] == keys[j]);
                }
            },
            None => {
                assert forall|j: int| 0 <= j < n implies s.at(#[trigger] keys[j]).container
                    != container by {
                    assert(front[j] == keys[j]);
                }
                assert(keys[n] == keys.last());
            },
        }
    }
}

/// An event of the container engine that tells neither of an end nor of a start changes nothing,
/// nor does one of a container that belongs to no service, or one that does not tell what happened
/// to which container.
pub proof fn law_other_events(a: AppModel, action: Str, container: Str)
    ensures
        after_engine_event(a, None, Some(container)) == a,
        after_engine_event(a, Some(action), None) == a,
        action != "die"@ && action != "start"@ ==> after_engine_event(
            a,
            Some(action),
            Some(container),
        ) == a,
        (forall|i: int|
            0 <= i < a.services.keys.len() ==> a.services.at(
                #[trigger] a.services.keys[i],
            ).container != container) ==> after_engine_event(a, Some(action), Some(container)) == a,
{
    law_owner_of_container(a.services, a.services.keys, container);
}

/// The end and the start of a container are taken in by the first service that it belongs to.
pub proof fn law_engine_events(a: AppModel, container: Str, i: int)
    requires
        0 <= i < a.services.keys.len(),
        a.services.at(a.services.keys[i]).container == container,
        forall|j: int|
            0 <= j < i ==> a.services.at(#[trigger] a.services.keys[j]).container != container,
    ensures
        after_engine_event(a, Some("die"@), Some(container)) == died(a, a.services.keys[i]),
        after_engine_event(a, Some("start"@), Some(container)) == woken(a, a.services.keys[i]),
{
    reveal_strlit("die");
    reveal_strlit("start");
    assert("die"@.len() != "start"@.len());
    lemma_owner(a.services, a.services.keys, container, i);
}

proof fn lemma_owner(s: ServicesModel, keys: Seq<Str>, container: Str, i: int)
    requires
        0 <= i < keys.len(),
        s.at(keys[i]).container == container,
        forall|j: int| 0 <= j < i ==> s.at(#[trigger] keys[j]).container != container,
    ensures
        service_of(s, keys, container) == Some(keys[i]),
{
    law_owner_of_container(s, keys, container);
    assert(s.at(keys[i]).container == container);
    let name = service_of(s, keys, container)->0;
    let k = choose|k: int|
        0 <= k < keys.len() && #[trigger] keys[k] == name && s.at(keys[k]).container == container
            && forall|j: int| 0 <= j < k ==> s.at(#[trigger] keys[j]).container != container;
    if k < i {
        assert(s.at(keys[k]).container != container);
    }
    if i < k {
        assert(s.at(keys[i]).container != container);
    }
}

proof fn lemma_without(list: Seq<Str>, name: Str, x: Str)
    ensures
        without(list, name).contains(x) <==> list.contains(x) && x != name,
    decreases list.len(),
{
    reveal(Seq::filter);
    if list.len() > 0 {
        let front = list.drop_last();
        let last = list[list.len() - 1];
        lemma_without(front, name, x);
        let before = without(front, name);
        let after = without(list, name);
        if front.contains(x) {
            let i = choose|i: int| 0 <= i < front.len() && front[i] == x;
            assert(list[i] == x);
        }
        if list.contains(x) && x != last {
            let i = choose|i: int| 0 <= i < list.len() && list[i] == x;
            assert(front[i] == x);
        }
        if last != name {
            assert(after == before.push(last));
            assert(after[before.len() as int] == last);
        } else {
            assert(after == before);
        }
        if before.contains(x) {
            let i = choose|i: int| 0 <= i < before.len() && before[i] == x;
            assert(after[i] == x);
        }
        if after.contains(x) && !before.contains(x) {
            let i = choose|i: int| 0 <= i < after.len() && after[i] == x;
            assert(i == before.len());
        }
    }
}

/// The answer of a restart tells the service as restarted and no longer as started. All else stays
/// as the start told it.
pub proof fn law_restart_told(response: ResponseModel, name: Str, x: Str)
    ensures
        ({
            let r = restarted(response, name);
            &&& r.actions.restarted == response.actions.restarted.push(name)
            &&& !r.actions.started.contains(name)
            &&& x != name ==> (r.actions.started.contains(x) <==> response.actions.started.contains(
                x,
            ))
            &&& r.actions.stopped == response.actions.stopped
            &&& r.actions.start_errors == response.actions.start_errors
            &&& r.result == response.result
            &&& r.error == response.error
            &&& r.probes == response.probes
            &&& r.targets == response.targets
            &&& r.duration_ms == response.duration_ms
            &&& r.not_green == response.not_green
        }),
{
    lemma_without(response.actions.started, name, name);
    lemma_without(response.actions.started, name, x);
}

/// The references that are read from a list of texts are those of its texts that are references.
pub proof fn law_refs_read(list: Seq<Str>, r: RefModel)
    ensures
        parse_refs(list).contains(r) <==> exists|i: int|
            0 <= i < list.len() && parse_ref(#[trigger] list[i]) == Some(r),
        parse_refs(list).len() <= list.len(),
        (forall|i: int| 0 <= i < list.len() ==> parse_ref(#[trigger] list[i]) is Some)
            ==> parse_refs(list).len() == list.len() && forall|i: int|
            0 <= i < list.len() ==> parse_ref(list[i]) == Some(#[trigger] parse_refs(list)[i]),
    decreases list.len(),
{
    if list.len() > 0 {
        let front = list.drop_last();
        let n = list.len() - 1;
        law_refs_read(front, r);
        let before = parse_refs(front);
        let after = parse_refs(list);
        assert(list[n] == list.last());
        if before.contains(r) {
            let i = choose|i: int| 0 <= i < before.len() && before[i] == r;
            assert(after[i] == r);
            let j = choose|j: int| 0 <= j < front.len() && parse_ref(#[trigger] front[j]) == Some(r);
            assert(parse_ref(list[j]) == Some(r));
        }
        if parse_ref(list[n]) == Some(r) {
            assert(after[before.len() as int] == r);
        }
        if exists|i: int| 0 <= i < list.len() && parse_ref(#[trigger] list[i]) == Some(r) {
            let i = choose|i: int| 0 <= i < list.len() && parse_ref(#[trigger] list[i]) == Some(r);
            if i < n {
                assert(parse_ref(front[i]) == Some(r));
            }
        }
        if after.contains(r) && !before.contains(r) {
            let i = choose|i: int| 0 <= i < after.len() && after[i] == r;
            assert(i == before.len());
        }
        if forall|i: int| 0 <= i < list.len() ==> parse_ref(#[trigger] list[i]) is Some {
            assert forall|i: int| 0 <= i < front.len() implies parse_ref(
                #[trigger] front[i],
            ) is Some by {
                assert(front[i] == list[i]);
            }
            assert(parse_ref(list[n]) is Some);
            assert forall|i: int| 0 <= i < list.len() implies parse_ref(list[i]) == Some(
                #[trigger] after[i],
            ) by {
                if i < n {
                    assert(after[i] == before[i]);
                    assert(front[i] == list[i]);
                }
            }
        }
    }
}

/// At the start each service is stopped, with its container, with what it starts after, and with
/// what was said of restarts, by itself or for all. Each of its probes is red because the service
/// is stopped, and knows its check and what it depends on.
pub proof fn law_first_services(c: ConfigModel, k: Str, p: Str)
    requires
        c.services.has(k),
    ensures
        ({
            let conf = c.services.at(k);
            let svc = first_services(c).at(k);
            &&& first_services(c).has(k)
            &&& first_services(c).keys == c.services.keys
            &&& svc.name == k
            &&& svc.state == ServiceState::Stopped
            &&& svc.generation == 0
            &&& svc.container == conf.container
            &&& svc.start_after == parse_refs(conf.start_after)
            &&& svc.restart_on_fail == (if conf.restart_on_fail is Some {
                conf.restart_on_fail->0
            } else {
                c.defaults.restart_on_fail
            })
            &&& svc.last_emitted_display is None
            &&& svc.last_emitted_runtime is None
            &&& svc.probes.keys == conf.probes.keys
            &&& svc.probes.has(p) == conf.probes.has(p)
            &&& conf.probes.has(p) ==> svc.probes.at(p).state == StateModel::Red(RedModel::Stopped)
                && svc.probes.at(p).probe_config == conf.probes.at(p).probe && svc.probes.at(
                p,
            ).depends_on == parse_refs(conf.probes.at(p).depends_on) && svc.probes.at(p).probe_ref
                == (RefModel { service: k, probe: p }) && svc.probes.at(p).last_error is None
                && svc.probes.at(p).last_probe_ms is None && svc.probes.at(p).last_log_match is None
        }),
{
}

/// At the start no target was asked for. Each knows its own probes and the targets that it depends
/// on, and nothing was told of it.
pub proof fn law_first_targets(c: ConfigModel, g: GraphModel, k: Str)
    requires
        c.targets.has(k),
    ensures
        ({
            let t = whole_targets(c, g).at(k);
            &&& whole_targets(c, g).has(k)
            &&& whole_targets(c, g).keys == c.targets.keys
            &&& !t.activated
            &&& t.name == k
            &&& t.direct_probes == parse_refs(c.targets.at(k).probes)
            &&& t.depends_on_targets == c.targets.at(k).depends_on
            &&& t.last_emitted_state is None
            &&& first_state(c, g).targets == whole_targets(c, g)
            &&& first_state(c, g).services == first_services(c)
            &&& first_state(c, g).events.len() == 0
            &&& first_state(c, g).current_op is None
        }),
{
}

/// A service counts as running if its container runs, as crashed if its container ended with an
/// error, and else as stopped. Nothing else changes, and no other service.
pub proof fn law_container_noted(a: AppModel, name: Str, info: Option<ContainerInfo>, k: Str)
    requires
        a.services.has(name),
    ensures
        ({
            let b = container_noted(a, name, info);
            let svc = b.services.at(name);
            &&& svc.state == ServiceState::Running <==> (info matches Some(i) && i.running)
            &&& svc.state == ServiceState::Crashed <==> (info matches Some(i) && !i.running
                && i.exit_code != 0)
            &&& svc.probes == a.services.at(name).probes
            &&& stays_put(
                a.services.at(name),
                ServiceModel { state: a.services.at(name).state, ..svc },
            )
            &&& k != name ==> b.services.at(k) == a.services.at(k)
            &&& b.services.keys == a.services.keys
            &&& b.targets == a.targets
            &&& b.events == a.events
        }),
{
}

/// Whether a probe is there and red.
pub open spec fn is_red(s: ServicesModel, r: RefModel) -> bool {
    s.has(r.service) && s.at(r.service).probes.has(r.probe) && s.at(r.service).probes.at(
        r.probe,
    ).state is Red
}

proof fn lemma_first_red_dep(s: ServicesModel, deps: Seq<RefModel>)
    ensures
        match first_red_dep(s, deps) {
            Some(d) => exists|i: int|
                0 <= i < deps.len() && #[trigger] deps[i] == d && is_red(s, deps[i]) && forall|
                    j: int,
                |
                    0 <= j < i ==> !is_red(s, #[trigger] deps[j]),
            None => forall|i: int| 0 <= i < deps.len() ==> !is_red(s, #[trigger] deps[i]),
        },
    decreases deps.len(),
{
    if deps.len() > 0 {
        let front = deps.drop_last();
        let n = deps.len() - 1;
        lemma_first_red_dep(s, front);
        match first_red_dep(s, front) {
            Some(d) => {
                let i = choose|i: int|
                    0 <= i < front.len() && #[trigger] front[i] == d && is_red(s, front[i])
                        && forall|j: int| 0 <= j < i ==> !is_red(s, #[trigger] front[j]);
                assert(deps[i] == d);
                assert forall|j: int| 0 <= j < i implies !is_red(s, #[trigger] deps[j]) by {
                    assert(front[j] == deps[j]);
                }
            },
            None => {
                assert forall|j: int| 0 <= j < n implies !is_red(s, #[trigger] deps[j]) by {
                    assert(front[j] == deps[j]);
                }
                assert(deps[n] == deps.last());
                if is_red(s, deps[n]) {
                    assert(first_red_dep(s, deps) == Some(deps[n]));
                }
            },
        }
    }
}

/// The next probe of a service that is given its first state is red behind the first red probe
/// that it depends on, and else unchecked. No other probe changes by that.
pub proof fn law_first_state_of_probe(s: ServicesModel, svc: Str, before: Seq<Str>, p: Str)
    requires
        s.has(svc),
        s.at(svc).probes.has(p),
        forall|i: int| 0 <= i < before.len() ==> s.at(svc).probes.has(#[trigger] before[i]),
    ensures
        ({
            let t = init_probes(s, svc, before);
            let u = init_probes(s, svc, before.push(p));
            let r = RefModel { service: svc, probe: p };
            let deps = t.at(svc).probes.at(p).depends_on;
            &&& match u.at(svc).probes.at(p).state {
                StateModel::Red(why) => exists|i: int|
                    0 <= i < deps.len() && why == (RedModel::DepRed { dep: #[trigger] deps[i] })
                        && is_red(t, deps[i]) && forall|j: int|
                        0 <= j < i ==> !is_red(t, #[trigger] deps[j]),
                StateModel::Pending(why) => why == PendingModel::Unchecked && forall|i: int|
                    0 <= i < deps.len() ==> !is_red(t, #[trigger] deps[i]),
                StateModel::Green => false,
            }
            &&& forall|q: RefModel| q != r ==> #[trigger] probe_at(u, q) == probe_at(t, q)
        }),
{
    let t = init_probes(s, svc, before);
    let u = init_probes(s, svc, before.push(p));
    assert(before.push(p).drop_last() =~= before);
    lemma_init_probes(s, svc, before);
    assert(s.has(svc) == t.has(svc));
    assert(only_probes_differ(s.at(svc), t.at(svc)));
    assert(s.at(svc).probes.has(p) == t.at(svc).probes.has(p));
    let r = RefModel { service: svc, probe: p };
    lemma_first_red_dep(t, t.at(svc).probes.at(p).depends_on);
    lemma_set_probe(t, r, u.at(svc).probes.at(p));
}

/// The probes of the next service are given their first states if and only if it runs and each
/// service that it starts after runs. Else nothing changes.
pub proof fn law_first_states_of_service(s: ServicesModel, order: Seq<Str>, svc: Str)
    ensures
        ({
            let t = init_services(s, order);
            let u = init_services(s, order.push(svc));
            let deps = t.at(svc).start_after;
            let runs = t.at(svc).state == ServiceState::Running && forall|i: int|
                0 <= i < deps.len() ==> t.has((#[trigger] deps[i]).service) && t.at(
                    deps[i].service,
                ).state == ServiceState::Running;
            &&& runs ==> u == init_probes(t, svc, t.at(svc).probes.keys)
            &&& !runs ==> u == t
        }),
{
    let t = init_services(s, order);
    assert(order.push(svc).drop_last() =~= order);
    let deps = t.at(svc).start_after;
    assert(can_be_checked(t, svc) <==> t.at(svc).state == ServiceState::Running && forall|i: int|
        0 <= i < deps.len() ==> t.has((#[trigger] deps[i]).service) && t.at(deps[i].service).state
            == ServiceState::Running);
}

} // verus!
