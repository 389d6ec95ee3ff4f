//! Every operation keeps it so that a probe is green only while its service runs and all that it
//! depends on is green.
use crate::app_state::AppModel;
use crate::apply::{apply_outcome, Step};
use crate::batch::{update_affected, update_service, Progress};
use crate::converge::{outcome_applied, probed, restarts, start_failed, ConvergenceModel};
use crate::emit::{after_show, law_show_keeps};
use crate::events::EventModel;
use crate::graph::Layer;
use crate::health::{
    all_timely, all_valid, healthy, healthy_but, in_order, lemma_affected_heals,
    lemma_all_still_timely, lemma_apply_heals, lemma_batch_heals, lemma_healthy,
    lemma_pending_heals, lemma_pending_steady, lemma_recovery_keeps_health,
    lemma_recovery_steady, lemma_same_probes_in_order, lemma_set_not_green, lemma_set_steady,
    lemma_steady_sound, lemma_steady_trans, lemma_steady_valid, lemma_still_timely,
    lemma_update_service_heals, same_service, sound, steady, timely,
};
use crate::lifecycle::{died, halted, next_generation, recover, stopped, woken};
use crate::lifecycle_laws::law_pass_on_keeps_red;
use crate::model::{PendingModel, RedModel, RefModel, ServiceState, StateModel};
use crate::ops::{
    lemma_move_probes, move_changes, move_service, pass_on, Stay, StatusModel,
};
use crate::ordered_map::{lemma_put_valid, Table};
use crate::probe::OutcomeModel;
use crate::propagate::{moved, pending_result, recovery_result, ChangeModel};
use crate::reprobe::{begun, mark_again, told};
use crate::resolve::{
    apply_held, apply_rest, deps_green, hold, release_all, release_from, resolved, take_outcome,
    take_outcomes, HeldModel,
};
use crate::runtime::{
    all_green_at, green_at, probe_at, red_at, set_probe, ProbeModel, ServiceModel, ServicesModel,
};
use crate::start::{after_batch, fresh, started};
use crate::text::Str;
use vstd::prelude::*;

verus! {

/// How services are shown has nothing to do with their health.
pub proof fn lemma_show_sound(g: Layer, a: AppModel)
    requires
        sound(g, a.services),
    ensures
        sound(g, after_show(a).services),
        steady(a.services, after_show(a).services),
{
    let s = a.services;
    let t = after_show(a).services;
    law_show_keeps(s, a.targets, Seq::empty());
    assert forall|k: Str| #[trigger] t.has(k) == s.has(k) by {
        law_show_keeps(s, a.targets, k);
    }
    assert forall|k: Str| #[trigger] t.has(k) implies same_service(s.at(k), t.at(k)) by {
        law_show_keeps(s, a.targets, k);
    }
    assert forall|r: RefModel| #[trigger] probe_at(t, r) == probe_at(s, r) by {
        law_show_keeps(s, a.targets, r.service);
    }
    assert forall|q: RefModel| #[trigger] green_at(t, q) implies t.at(
        q.service,
    ).state is Running && all_green_at(t, probe_at(t, q)->0.depends_on) by {
        assert(probe_at(t, q) == probe_at(s, q));
        assert(green_at(s, q));
        assert(t.has(q.service));
        let deps = probe_at(s, q)->0.depends_on;
        assert(all_green_at(s, deps));
        assert forall|i: int| 0 <= i < deps.len() implies green_at(t, #[trigger] deps[i]) by {
            assert(green_at(s, deps[i]));
            assert(probe_at(t, deps[i]) == probe_at(s, deps[i]));
        }
    }
    lemma_steady_sound(g, s, t);
}

proof fn lemma_held_heals(g: Layer, st: Step, r: RefModel, o: OutcomeModel)
    requires
        sound(g, st.services),
        timely(st.services, r, o),
    ensures
        sound(g, apply_held(g, st, r, o).services),
        steady(st.services, apply_held(g, st, r, o).services),
{
    lemma_apply_heals(g, st.services, st.report, r, o);
    lemma_steady_sound(
        g,
        st.services,
        apply_outcome(g, st.services, st.report, r, o).services,
    );
}

proof fn lemma_removed_timely(s: ServicesModel, held: HeldModel, i: int)
    requires
        all_timely(s, held),
        0 <= i < held.len(),
    ensures
        all_timely(s, held.remove(i)),
{
    let left = held.remove(i);
    assert forall|j: int| 0 <= j < left.len() implies timely(s, (#[trigger] left[j]).0, left[j].1)
        && !left[j].0.service.contains('.') by {
        if j < i {
            assert(left[j] == held[j]);
        } else {
            assert(left[j] == held[j + 1]);
        }
    }
}

proof fn lemma_release_from_heals(g: Layer, st: Step, held: HeldModel, i: nat)
    requires
        sound(g, st.services),
        all_timely(st.services, held),
    ensures
        sound(g, release_from(g, st, held, i).0.services),
        steady(st.services, release_from(g, st, held, i).0.services),
        all_timely(release_from(g, st, held, i).0.services, release_from(g, st, held, i).1),
    decreases held.len() - i,
{
    if i < held.len() {
        let (r, o) = held[i as int];
        if deps_green(st.services, r) {
            assert(timely(st.services, held[i as int].0, held[i as int].1));
            lemma_held_heals(g, st, r, o);
            let next = apply_held(g, st, r, o);
            let left = held.remove(i as int);
            lemma_removed_timely(st.services, held, i as int);
            lemma_all_still_timely(st.services, next.services, left);
            lemma_release_from_heals(g, next, left, i);
            lemma_steady_trans(
                st.services,
                next.services,
                release_from(g, next, left, i).0.services,
            );
        } else {
            lemma_release_from_heals(g, st, held, i + 1);
        }
    }
}

proof fn lemma_release_all_heals(g: Layer, st: Step, held: HeldModel)
    requires
        sound(g, st.services),
        all_timely(st.services, held),
    ensures
        sound(g, release_all(g, st, held).0.services),
        steady(st.services, release_all(g, st, held).0.services),
        all_timely(release_all(g, st, held).0.services, release_all(g, st, held).1),
    decreases held.len(),
{
    lemma_release_from_heals(g, st, held, 0);
    let (next, left) = release_from(g, st, held, 0);
    if left.len() < held.len() {
        lemma_release_all_heals(g, next, left);
        lemma_steady_trans(st.services, next.services, release_all(g, next, left).0.services);
    }
}

proof fn lemma_hold_timely(s: ServicesModel, held: HeldModel, r: RefModel, o: OutcomeModel)
    requires
        all_timely(s, held),
        timely(s, r, o),
        !r.service.contains('.'),
    ensures
        all_timely(s, hold(held, r, o)),
    decreases held.len(),
{
    let all = hold(held, r, o);
    if held.len() > 0 && held[0].0 != r {
        let rest = held.drop_first();
        assert forall|j: int| 0 <= j < rest.len() implies timely(
            s,
            (#[trigger] rest[j]).0,
            rest[j].1,
        ) && !rest[j].0.service.contains('.') by {
            assert(rest[j] == held[j + 1]);
        }
        lemma_hold_timely(s, rest, r, o);
        assert forall|j: int| 0 <= j < all.len() implies timely(
            s,
            (#[trigger] all[j]).0,
            all[j].1,
        ) && !all[j].0.service.contains('.') by {
            if j > 0 {
                assert(all[j] == hold(rest, r, o)[j - 1]);
            } else {
                assert(all[j] == held[0]);
            }
        }
    } else {
        assert forall|j: int| 0 <= j < all.len() implies timely(
            s,
            (#[trigger] all[j]).0,
            all[j].1,
        ) && !all[j].0.service.contains('.') by {
            if held.len() > 0 && j > 0 {
                assert(all[j] == held[j]);
            }
        }
    }
}

/// Health is kept when the outcome of a check comes in, and so it is that what is held back
/// may be applied later.
pub proof fn law_outcome_keeps_health(
    g: Layer,
    at: Progress,
    held: HeldModel,
    r: RefModel,
    o: OutcomeModel,
)
    requires
        sound(g, at.services),
        all_timely(at.services, held),
        timely(at.services, r, o),
        !r.service.contains('.'),
    ensures
        sound(g, take_outcome(g, at, held, r, o).0.services),
        steady(at.services, take_outcome(g, at, held, r, o).0.services),
        all_timely(take_outcome(g, at, held, r, o).0.services, take_outcome(g, at, held, r, o).1),
{
    if o.result is Passed && !deps_green(at.services, r) {
        lemma_hold_timely(at.services, held, r, o);
    } else {
        let first = apply_outcome(g, at.services, at.report, r, o);
        lemma_apply_heals(g, at.services, at.report, r, o);
        lemma_steady_sound(g, at.services, first.services);
        lemma_all_still_timely(at.services, first.services, held);
        let begin = Step {
            services: first.services,
            report: first.report,
            affected: seq![r.service],
        };
        lemma_release_all_heals(g, begin, held);
        let (next, left) = release_all(g, begin, held);
        lemma_steady_trans(at.services, first.services, next.services);
        lemma_affected_heals(g, next);
        let done = update_affected(next);
        lemma_steady_trans(at.services, next.services, done.services);
        lemma_all_still_timely(next.services, done.services, left);
    }
}

proof fn lemma_outcomes_heal(g: Layer, at: Progress, outcomes: Seq<(RefModel, OutcomeModel)>)
    requires
        sound(g, at.services),
        all_timely(at.services, outcomes),
    ensures
        sound(g, take_outcomes(g, at, outcomes).0.services),
        steady(at.services, take_outcomes(g, at, outcomes).0.services),
        all_timely(take_outcomes(g, at, outcomes).0.services, take_outcomes(g, at, outcomes).1),
    decreases outcomes.len(),
{
    if outcomes.len() > 0 {
        let front = outcomes.drop_last();
        assert forall|j: int| 0 <= j < front.len() implies timely(
            at.services,
            (#[trigger] front[j]).0,
            front[j].1,
        ) && !front[j].0.service.contains('.') by {
            assert(front[j] == outcomes[j]);
        }
        lemma_outcomes_heal(g, at, front);
        let (before, held) = take_outcomes(g, at, front);
        let (r, o) = outcomes[outcomes.len() - 1];
        assert(timely(
            at.services,
            outcomes[outcomes.len() - 1].0,
            outcomes[outcomes.len() - 1].1,
        ));
        lemma_still_timely(at.services, before.services, r, o);
        law_outcome_keeps_health(g, before, held, r, o);
        lemma_steady_trans(
            at.services,
            before.services,
            take_outcome(g, before, held, r, o).0.services,
        );
    }
}

/// Health is kept when the outcomes that still wait are applied.
pub proof fn law_rest_keeps_health(
    a: AppModel,
    statuses: Table<StatusModel>,
    held: HeldModel,
)
    requires
        sound(a.graph.probes, a.services),
        all_timely(a.services, held),
    ensures
        sound(a.graph.probes, apply_rest(a, statuses, held).0.services),
        steady(a.services, apply_rest(a, statuses, held).0.services),
{
    if held.len() > 0 {
        law_batch_keeps_health(a, statuses, held);
    }
}

/// Health is kept when the checks of a service that was started have come in.
pub proof fn law_batch_keeps_health(
    a: AppModel,
    statuses: Table<StatusModel>,
    batch: Seq<(RefModel, OutcomeModel)>,
)
    requires
        sound(a.graph.probes, a.services),
        all_timely(a.services, batch),
    ensures
        sound(a.graph.probes, after_batch(a, statuses, batch).0.services),
        steady(a.services, after_batch(a, statuses, batch).0.services),
{
    let g = a.graph.probes;
    let order = a.graph.probe_topo_order;
    let st = a.step(statuses, Seq::empty());
    lemma_batch_heals(g, batch, order, st);
    let step = crate::batch::resolve_batch(g, batch, order, st);
    lemma_show_sound(g, a.after(step));
    lemma_steady_trans(a.services, step.services, after_show(a.after(step)).services);
}

/// Health is kept when checks that were sent out together have come in.
pub proof fn law_checks_keep_health(
    a: AppModel,
    statuses: Table<StatusModel>,
    outcomes: Seq<(RefModel, OutcomeModel)>,
)
    requires
        sound(a.graph.probes, a.services),
        all_timely(a.services, outcomes),
    ensures
        sound(a.graph.probes, resolved(a, statuses, outcomes).0.services),
        steady(a.services, resolved(a, statuses, outcomes).0.services),
{
    let g = a.graph.probes;
    let start = a.progress(statuses);
    lemma_outcomes_heal(g, start, outcomes);
    let (at, held) = take_outcomes(g, start, outcomes);
    let b = a.with_progress(at);
    law_rest_keeps_health(b, at.report.statuses, held);
    lemma_steady_trans(
        a.services,
        at.services,
        apply_rest(b, at.report.statuses, held).0.services,
    );
}

/// Whether a service is another one with the same probes, none of which is green.
spec fn without_green(a: ServiceModel, b: ServiceModel) -> bool {
    &&& a.probes.keys == b.probes.keys
    &&& forall|p: Str| #[trigger] b.probes.has(p) == a.probes.has(p)
    &&& forall|p: Str| #[trigger]
        b.probes.has(p) ==> !(b.probes.at(p).state is Green) && b.probes.at(p).depends_on
            == a.probes.at(p).depends_on && b.probes.at(p).probe_config == a.probes.at(
            p,
        ).probe_config
}

/// The probes of a service with the given names.
pub open spec fn refs_to(svc: Str, names: Seq<Str>) -> Set<RefModel> {
    Set::new(|r: RefModel| r.service == svc && names.contains(r.probe))
}

/// A service whose probes are no longer green leaves health as it was, but for what depends on
/// them, and if none of them was green before, altogether.
proof fn lemma_service_dims(g: Layer, s: ServicesModel, name: Str, svc: ServiceModel)
    requires
        sound(g, s),
        s.has(name),
        without_green(s.at(name), svc),
    ensures
        all_valid(s.put(name, svc)),
        in_order(g, s.put(name, svc)),
        healthy_but(s.put(name, svc), refs_to(name, svc.probes.keys)),
        !(s.at(name).state is Running) ==> healthy(s.put(name, svc)),
{
    let t = s.put(name, svc);
    let old_svc = s.at(name);
    lemma_put_valid(s, name, svc);
    assert forall|k: Str| #[trigger] t.has(k) implies t.at(k).probes.valid() by {
        assert(s.has(k));
        if k == name {
            let (p, q) = (old_svc.probes, svc.probes);
            assert(p.valid());
            assert forall|x: Str| #[trigger] q.map.contains_key(x) <==> q.keys.contains(x) by {
                assert(q.has(x) == p.has(x));
                assert(p.map.contains_key(x) <==> p.keys.contains(x));
            }
        }
    }
    assert forall|r: RefModel|
        match (probe_at(s, r), #[trigger] probe_at(t, r)) {
            (None, None) => true,
            (Some(p), Some(q)) => p.depends_on == q.depends_on && p.probe_config
                == q.probe_config,
            _ => false,
        } by {
        if r.service == name {
            assert(svc.probes.has(r.probe) == old_svc.probes.has(r.probe));
        }
    }
    lemma_same_probes_in_order(g, s, t);
    let dirty = refs_to(name, svc.probes.keys);
    assert forall|q: RefModel| #[trigger] green_at(t, q) implies q.service != name && green_at(
        s,
        q,
    ) && probe_at(t, q) == probe_at(s, q) by {
        if q.service == name {
            assert(svc.probes.has(q.probe));
        }
    }
    assert forall|q: RefModel| #[trigger] green_at(t, q) implies ({
        &&& t.at(q.service).state is Running
        &&& forall|i: int|
            0 <= i < probe_at(t, q)->0.depends_on.len() ==> green_at(
                t,
                #[trigger] probe_at(t, q)->0.depends_on[i],
            ) || dirty.contains(probe_at(t, q)->0.depends_on[i])
    }) by {
        assert(green_at(s, q));
        let deps = probe_at(t, q)->0.depends_on;
        assert(all_green_at(s, deps));
        assert forall|i: int| 0 <= i < deps.len() implies green_at(
            t,
            #[trigger] probe_at(t, q)->0.depends_on[i],
        ) || dirty.contains(probe_at(t, q)->0.depends_on[i]) by {
            assert(green_at(s, deps[i]));
            if deps[i].service == name {
                assert(old_svc.probes.valid());
                assert(old_svc.probes.map.contains_key(deps[i].probe));
                assert(svc.probes.keys.contains(deps[i].probe));
            }
        }
    }
    if !(old_svc.state is Running) {
        assert forall|q: RefModel| #[trigger] green_at(t, q) implies t.at(
            q.service,
        ).state is Running && all_green_at(t, probe_at(t, q)->0.depends_on) by {
            assert(green_at(s, q));
            let deps = probe_at(t, q)->0.depends_on;
            assert(all_green_at(s, deps));
            assert forall|i: int| 0 <= i < deps.len() implies green_at(t, #[trigger] deps[i]) by {
                assert(green_at(s, deps[i]));
                assert(deps[i].service != name);
            }
        }
    }
}

proof fn lemma_moved_without_green(svc: ServiceModel, stay: Stay, to: StateModel)
    requires
        svc.probes.valid(),
        !(to is Green),
    ensures
        without_green(svc, move_service(svc, stay, to)),
{
    let probes = svc.probes;
    assert forall|i: int| 0 <= i < probes.keys.len() implies probes.has(
        #[trigger] probes.keys[i],
    ) by {
        assert(probes.keys.contains(probes.keys[i]));
    }
    lemma_move_probes(probes, probes.keys, stay, to);
    let m = move_service(svc, stay, to).probes;
    assert forall|p: Str| #[trigger] m.has(p) implies !(m.at(p).state is Green) && m.at(
        p,
    ).depends_on == probes.at(p).depends_on && m.at(p).probe_config == probes.at(
        p,
    ).probe_config by {
        assert(probes.has(p));
        assert(probes.keys.contains(p));
        assert(m.at(p) == m.at(p));
    }
}

proof fn lemma_less_dirty(s: ServicesModel, a: Set<RefModel>, b: Set<RefModel>)
    requires
        healthy_but(s, a),
        forall|r: RefModel| #[trigger] a.contains(r) ==> b.contains(r),
    ensures
        healthy_but(s, b),
{
    assert forall|q: RefModel| #[trigger] green_at(s, q) implies ({
        &&& s.at(q.service).state is Running
        &&& forall|i: int|
            0 <= i < probe_at(s, q)->0.depends_on.len() ==> green_at(
                s,
                #[trigger] probe_at(s, q)->0.depends_on[i],
            ) || b.contains(probe_at(s, q)->0.depends_on[i])
    }) by {
        assert forall|i: int| 0 <= i < probe_at(s, q)->0.depends_on.len() implies green_at(
            s,
            #[trigger] probe_at(s, q)->0.depends_on[i],
        ) || b.contains(probe_at(s, q)->0.depends_on[i]) by {
            let d = probe_at(s, q)->0.depends_on[i];
            assert(green_at(s, d) || a.contains(d));
        }
    }
}

/// Passing all red probes of a service on makes up for them.
proof fn lemma_pass_on_heals(
    g: Layer,
    svc: Str,
    keys: Seq<Str>,
    s: ServicesModel,
    dirty: Set<RefModel>,
)
    requires
        in_order(g, s),
        !svc.contains('.'),
        forall|i: int|
            0 <= i < keys.len() ==> red_at(s, RefModel { service: svc, probe: #[trigger] keys[i] }),
        healthy_but(s, dirty.union(refs_to(svc, keys))),
    ensures
        healthy_but(pass_on(g, svc, keys, s).0, dirty),
        steady(s, pass_on(g, svc, keys, s).0),
    decreases keys.len(),
{
    if keys.len() == 0 {
        lemma_less_dirty(s, dirty.union(refs_to(svc, keys)), dirty);
    } else {
        let front = keys.drop_last();
        let r = RefModel { service: svc, probe: keys[keys.len() - 1] };
        let more = dirty.insert(r);
        assert forall|i: int| 0 <= i < front.len() implies red_at(
            s,
            RefModel { service: svc, probe: #[trigger] front[i] },
        ) by {
            assert(front[i] == keys[i]);
        }
        assert forall|x: RefModel| #[trigger]
            dirty.union(refs_to(svc, keys)).contains(x) implies more.union(
            refs_to(svc, front),
        ).contains(x) by {
            if x.service == svc && keys.contains(x.probe) && x != r {
                let i = choose|i: int| 0 <= i < keys.len() && keys[i] == x.probe;
                assert(front[i] == x.probe);
            }
        }
        lemma_less_dirty(s, dirty.union(refs_to(svc, keys)), more.union(refs_to(svc, front)));
        lemma_pass_on_heals(g, svc, front, s, more);
        let (so_far, changes) = pass_on(g, svc, front, s);
        lemma_same_probes_in_order(g, s, so_far);
        law_pass_on_keeps_red(g, svc, front, s, r);
        assert(red_at(s, RefModel { service: svc, probe: keys[keys.len() - 1] }));
        lemma_pending_heals(g, r, so_far, changes, dirty);
        lemma_pending_steady(g, r.text(), so_far, changes);
        lemma_steady_trans(s, so_far, pending_result(g, r.text(), so_far, changes).services);
    }
}

/// Health is kept when a service ends.
pub proof fn law_halt_keeps_health(
    a: AppModel,
    statuses: Table<StatusModel>,
    name: Str,
    state: ServiceState,
    reason: RedModel,
)
    requires
        sound(a.graph.probes, a.services),
        a.services.has(name),
        !name.contains('.'),
    ensures
        sound(a.graph.probes, halted(a, statuses, name, state, reason).0.services),
{
    let g = a.graph.probes;
    let svc = a.services.at(name);
    let to = StateModel::Red(reason);
    let now = move_service(next_generation(svc, state), Stay::Nothing, to);
    let s = a.services.put(name, now);
    let keys = svc.probes.keys;
    lemma_moved_without_green(next_generation(svc, state), Stay::Nothing, to);
    lemma_service_dims(g, a.services, name, now);
    let none = Set::<RefModel>::empty();
    assert(none.union(refs_to(name, keys)) =~= refs_to(name, keys));
    assert forall|i: int| 0 <= i < keys.len() implies svc.probes.has(#[trigger] keys[i]) by {
        assert(keys.contains(keys[i]));
    }
    lemma_move_probes(svc.probes, keys, Stay::Nothing, to);
    assert forall|i: int| 0 <= i < keys.len() implies red_at(
        s,
        RefModel { service: name, probe: #[trigger] keys[i] },
    ) by {
        assert(keys.contains(keys[i]));
        assert(now.probes.has(keys[i]) == svc.probes.has(keys[i]));
        assert(now.probes.at(keys[i]).state == to);
    }
    lemma_pass_on_heals(g, name, keys, s, none);
    let after = pass_on(g, name, keys, s).0;
    lemma_healthy(after);
    lemma_steady_valid(s, after);
    lemma_same_probes_in_order(g, s, after);
}

/// Health is kept when a service is stopped.
pub proof fn law_stop_keeps_health(a: AppModel, name: Str)
    requires
        sound(a.graph.probes, a.services),
        a.services.has(name),
        !name.contains('.'),
    ensures
        sound(a.graph.probes, stopped(a, name).0.services),
{
    law_halt_keeps_health(a, Table::empty(), name, ServiceState::Stopped, RedModel::Stopped);
    lemma_show_sound(
        a.graph.probes,
        halted(a, Table::empty(), name, ServiceState::Stopped, RedModel::Stopped).0,
    );
}

/// Health is kept when a container dies.
pub proof fn law_death_keeps_health(a: AppModel, name: Str)
    requires
        sound(a.graph.probes, a.services),
        !name.contains('.'),
    ensures
        sound(a.graph.probes, died(a, name).services),
{
    if a.services.has(name) && !(a.services.at(name).state is Stopped) {
        let to = ServiceState::Crashed;
        law_halt_keeps_health(a, Table::empty(), name, to, RedModel::ContainerDied);
        lemma_show_sound(
            a.graph.probes,
            halted(a, Table::empty(), name, to, RedModel::ContainerDied).0,
        );
    }
}

/// Health is kept when a service that does not run is started.
pub proof fn law_start_keeps_health(a: AppModel, name: Str, log_since: i64)
    requires
        sound(a.graph.probes, a.services),
        a.services.has(name),
        !(a.services.at(name).state is Running),
    ensures
        sound(a.graph.probes, started(a, name, log_since).services),
{
    let g = a.graph.probes;
    let svc = a.services.at(name);
    let to = StateModel::Pending(PendingModel::Reprobing);
    let next = ServiceModel { log_since, ..next_generation(svc, ServiceState::Running) };
    lemma_moved_without_green(next, Stay::Reprobing, to);
    lemma_service_dims(g, a.services, name, fresh(svc, log_since));
    let s = a.services.put(name, fresh(svc, log_since));
    lemma_show_sound(g, AppModel { services: s, ..a });
}

proof fn lemma_recover_heals(g: Layer, name: Str, moves: Seq<ChangeModel>, s: ServicesModel)
    requires
        in_order(g, s),
        healthy(s),
        !name.contains('.'),
        forall|i: int| 0 <= i < moves.len() ==> (#[trigger] moves[i]).0.service == name,
        forall|q: RefModel| #[trigger] green_at(s, q) ==> q.service != name,
    ensures
        healthy(recover(g, moves, s).0),
        steady(s, recover(g, moves, s).0),
        forall|q: RefModel| #[trigger] green_at(recover(g, moves, s).0, q) ==> q.service != name,
    decreases moves.len(),
{
    if moves.len() > 0 {
        let front = moves.drop_last();
        assert forall|i: int| 0 <= i < front.len() implies (#[trigger] front[i]).0.service
            == name by {
            assert(front[i] == moves[i]);
        }
        lemma_recover_heals(g, name, front, s);
        let (so_far, changes) = recover(g, front, s);
        let (r, _, prev) = moves[moves.len() - 1];
        assert(moves[moves.len() - 1].0.service == name);
        if prev is Red {
            lemma_same_probes_in_order(g, s, so_far);
            lemma_recovery_keeps_health(g, r, so_far, changes);
            lemma_recovery_steady(g, r.text(), so_far, changes);
            lemma_steady_trans(
                s,
                so_far,
                recovery_result(g, r.text(), so_far, changes).services,
            );
        }
    }
}

proof fn lemma_moves_at(
    svc: Str,
    probes: Table<ProbeModel>,
    keys: Seq<Str>,
    stay: Stay,
    to: StateModel,
)
    ensures
        forall|i: int|
            0 <= i < move_changes(svc, probes, keys, stay, to).len() ==> (
            #[trigger] move_changes(svc, probes, keys, stay, to)[i]).0.service == svc,
    decreases keys.len(),
{
    if keys.len() > 0 {
        lemma_moves_at(svc, probes, keys.drop_last(), stay, to);
        let before = move_changes(svc, probes, keys.drop_last(), stay, to);
        let all = move_changes(svc, probes, keys, stay, to);
        assert forall|i: int| 0 <= i < all.len() implies (#[trigger] all[i]).0.service == svc by {
            if i < before.len() {
                assert(all[i] == before[i]);
            }
        }
    }
}

/// Health is kept when a container starts by itself.
pub proof fn law_wake_keeps_health(a: AppModel, name: Str)
    requires
        sound(a.graph.probes, a.services),
        !name.contains('.'),
    ensures
        sound(a.graph.probes, woken(a, name).services),
{
    if a.services.has(name) && !(a.services.at(name).state is Running) {
        let g = a.graph.probes;
        let svc = a.services.at(name);
        let to = StateModel::Pending(PendingModel::ContainerStarted);
        let next = next_generation(svc, ServiceState::Running);
        let now = move_service(next, Stay::Pending, to);
        let s = a.services.put(name, now);
        lemma_moved_without_green(next, Stay::Pending, to);
        lemma_service_dims(g, a.services, name, now);
        let moves = move_changes(name, svc.probes, svc.probes.keys, Stay::Pending, to);
        lemma_moves_at(name, svc.probes, svc.probes.keys, Stay::Pending, to);
        assert forall|q: RefModel| #[trigger] green_at(s, q) implies q.service != name by {
            if q.service == name {
                assert(now.probes.has(q.probe));
            }
        }
        lemma_recover_heals(g, name, moves, s);
        let after = recover(g, moves, s).0;
        lemma_steady_valid(s, after);
        lemma_same_probes_in_order(g, s, after);
        lemma_show_sound(g, AppModel { services: after, ..a });
    }
}

/// Health is kept when a service that does not run cannot be started.
pub proof fn law_failed_start_keeps_health(a: AppModel, name: Str, error: Str)
    requires
        sound(a.graph.probes, a.services),
        a.services.has(name),
        !(a.services.at(name).state is Running),
    ensures
        sound(
            a.graph.probes,
            a.services.put(name, start_failed(a.services.at(name), error)),
        ),
{
    let svc = a.services.at(name);
    let now = start_failed(svc, error);
    assert(svc.probes.valid());
    assert(without_green(svc, now)) by {
        assert forall|p: Str| #[trigger] now.probes.has(p) == svc.probes.has(p) by {}
    }
    lemma_service_dims(a.graph.probes, a.services, name, now);
}

/// Health is kept when probes are to be checked again.
pub proof fn law_mark_keeps_health(g: Layer, refs: Seq<RefModel>, s: ServicesModel)
    requires
        sound(g, s),
        forall|i: int| 0 <= i < refs.len() ==> !(#[trigger] refs[i]).service.contains('.'),
    ensures
        sound(g, mark_again(g, refs, s).0),
        steady(s, mark_again(g, refs, s).0),
    decreases refs.len(),
{
    if refs.len() > 0 {
        let front = refs.drop_last();
        assert forall|i: int| 0 <= i < front.len() implies !(
        #[trigger] front[i]).service.contains('.') by {
            assert(front[i] == refs[i]);
        }
        law_mark_keeps_health(g, front, s);
        let (so_far, changes) = mark_again(g, front, s);
        let r = refs[refs.len() - 1];
        let to = StateModel::Pending(PendingModel::Reprobing);
        let none = Set::<RefModel>::empty();
        let (marked, listed) = match probe_at(so_far, r) {
            Some(p) => if so_far.at(r.service).state is Running && !(p.state is Pending) {
                (set_probe(so_far, r, moved(p, to)), changes.push((r, to, p.state)))
            } else {
                (so_far, changes)
            },
            None => (so_far, changes),
        };
        if let Some(p) = probe_at(so_far, r) {
            lemma_set_steady(so_far, r, moved(p, to));
            lemma_set_not_green(so_far, r, moved(p, to));
        }
        lemma_same_probes_in_order(g, so_far, marked);
        lemma_healthy(so_far);
        if marked == so_far {
            lemma_less_dirty(so_far, none, none.insert(r));
        }
        assert(!green_at(marked, r));
        lemma_pending_heals(g, r, marked, listed, none);
        lemma_pending_steady(g, r.text(), marked, listed);
        let after = pending_result(g, r.text(), marked, listed).services;
        lemma_healthy(after);
        lemma_steady_trans(so_far, marked, after);
        lemma_steady_sound(g, so_far, after);
        lemma_steady_trans(s, so_far, after);
    }
}

/// Health is kept when a request to check probes again begins.
pub proof fn law_reprobe_keeps_health(a: AppModel, refs: Seq<RefModel>, affected: Seq<Str>)
    requires
        sound(a.graph.probes, a.services),
        forall|i: int| 0 <= i < refs.len() ==> !(#[trigger] refs[i]).service.contains('.'),
    ensures
        sound(a.graph.probes, begun(a, refs, affected).0.services),
{
    law_mark_keeps_health(a.graph.probes, refs, a.services);
}

/// Health is kept when the outcome of a check comes in while a target is brought to green,
/// also where the service is stopped to be restarted.
pub proof fn law_probed_keeps_health(
    a: AppModel,
    c: ConvergenceModel,
    r: RefModel,
    o: OutcomeModel,
)
    requires
        sound(a.graph.probes, a.services),
        timely(a.services, r, o),
        !r.service.contains('.'),
    ensures
        sound(a.graph.probes, probed(a, c, r, o).0.services),
{
    let g = a.graph.probes;
    let step = apply_outcome(g, a.services, a.report(c.statuses), r, o);
    lemma_apply_heals(g, a.services, a.report(c.statuses), r, o);
    lemma_steady_sound(g, a.services, step.services);
    let before = Progress { services: step.services, report: step.report };
    lemma_update_service_heals(g, before, r.service);
    let at = update_service(before, r.service);
    lemma_steady_sound(g, step.services, at.services);
    lemma_show_sound(g, a.with_progress(at));
    let b = outcome_applied(a, c.statuses, r, o).0;
    if restarts(b.services, c, r.service, o) {
        law_stop_keeps_health(
            told(b, EventModel::OpStart { op: "restart"@, target_or_service: r.service }),
            r.service,
        );
    }
}

} // verus!
