//! How far a stop and a new check reach.
use crate::app_state::AppModel;
use crate::emit::{after_show, law_show_keeps};
use crate::graph::Layer;
use crate::keeps::lemma_only_probes_trans;
use crate::lifecycle::{halted, next_generation, stopped};
use crate::lifecycle_laws::{law_pass_on_keeps_red, law_pending_listed, lemma_halted_valid};
use crate::model::{
    lemma_ref_round_trip, parse_ref, PendingModel, RedModel, RefModel, ServiceState, StateModel,
};
use crate::ops::{lemma_move_probes, move_service, pass_on, Stay, StatusModel};
use crate::ordered_map::Table;
use crate::propagate::{moved, pending_result, ChangeModel};
use crate::propagate_laws::{
    kept_or_moved, law_only_red_reddens, law_pending_keeps_failures, law_red_reaches_dependents,
    lemma_set_probe, only_probes_changed, red_if_running,
};
use crate::reprobe::{begun, mark_again};
use crate::resolve::{awaits_check, refs_in, running_refs, to_check};
use crate::runtime::{green_at, probe_at, red_at, set_probe, ServicesModel};
use crate::start::unmet;
use crate::text::Str;
use vstd::prelude::*;

verus! {

/// A probe that is red where its service runs stays so while more is passed on.
proof fn lemma_stays_red(
    g: Layer,
    key: Str,
    s: ServicesModel,
    changes: Seq<ChangeModel>,
    dependent: Str,
)
    requires
        red_if_running(s, dependent),
    ensures
        red_if_running(pending_result(g, key, s, changes).services, dependent),
{
    if let Some(r) = parse_ref(dependent) {
        law_pending_keeps_failures(g, key, s, changes, r);
        let after = pending_result(g, key, s, changes).services;
        assert(only_probes_changed(s, after));
        assert(s.has(r.service) == after.has(r.service));
    }
}

/// Once red probes of a service are passed on, every probe of a running service that depends
/// on one of them, or on a probe that was changed, is red.
proof fn lemma_pass_on_reddens(
    g: Layer,
    svc: Str,
    keys: Seq<Str>,
    s: ServicesModel,
    source: Str,
    dependent: Str,
)
    requires
        g.nodes.len() <= u32::MAX,
        g.closed_edges(),
        !svc.contains('.'),
        forall|i: int|
            0 <= i < keys.len() ==> red_at(s, RefModel { service: svc, probe: #[trigger] keys[i] }),
        ({
            ||| exists|i: int|
                0 <= i < keys.len() && source == (RefModel {
                    service: svc,
                    probe: #[trigger] keys[i],
                }).text()
            ||| parse_ref(source) is Some && probe_at(
                pass_on(g, svc, keys, s).0,
                parse_ref(source)->0,
            ) != probe_at(s, parse_ref(source)->0)
        }),
        g.next(source).contains(dependent),
    ensures
        red_if_running(pass_on(g, svc, keys, s).0, dependent),
    decreases keys.len(),
{
    if keys.len() > 0 {
        let front = keys.drop_last();
        let (so_far, changes) = pass_on(g, svc, front, s);
        let r = RefModel { service: svc, probe: keys.last() };
        let key = r.text();
        assert forall|i: int| 0 <= i < front.len() implies red_at(
            s,
            RefModel { service: svc, probe: #[trigger] front[i] },
        ) by {
            assert(front[i] == keys[i]);
        }
        let early = exists|i: int|
            0 <= i < front.len() && source == (RefModel {
                service: svc,
                probe: #[trigger] front[i],
            }).text();
        let p = parse_ref(source);
        if early || (p is Some && probe_at(so_far, p->0) != probe_at(s, p->0)) {
            lemma_pass_on_reddens(g, svc, front, s, source, dependent);
            lemma_stays_red(g, key, so_far, changes, dependent);
        } else {
            lemma_ref_round_trip(r);
            assert(red_at(s, RefModel { service: svc, probe: keys[keys.len() - 1] }));
            law_pass_on_keeps_red(g, svc, front, s, r);
            if source != key {
                if exists|i: int|
                    0 <= i < keys.len() && source == (RefModel {
                        service: svc,
                        probe: #[trigger] keys[i],
                    }).text() {
                    let i = choose|i: int|
                        0 <= i < keys.len() && source == (RefModel {
                            service: svc,
                            probe: #[trigger] keys[i],
                        }).text();
                    assert(i < front.len() ==> front[i] == keys[i]);
                }
            }
            law_red_reaches_dependents(g, key, so_far, changes, source, dependent);
        }
    }
}

/// When a service ends, by a stop or because its container died, red cascades: afterwards
/// every probe of a running service that depends on a probe of the service, or on a probe
/// that was changed, is red.
pub proof fn law_halt_cascades(
    a: AppModel,
    statuses: Table<StatusModel>,
    name: Str,
    state: ServiceState,
    reason: RedModel,
    source: RefModel,
    dependent: Str,
)
    requires
        a.services.has(name),
        a.services.at(name).probes.valid(),
        a.graph.probes.nodes.len() <= u32::MAX,
        a.graph.probes.closed_edges(),
        !name.contains('.'),
        !source.service.contains('.'),
        ({
            let s = halted(a, statuses, name, state, reason).0.services;
            ||| source.service == name && a.services.at(name).probes.has(source.probe)
            ||| probe_at(s, source) != probe_at(a.services, source)
        }),
        a.graph.probes.next(source.text()).contains(dependent),
    ensures
        red_if_running(halted(a, statuses, name, state, reason).0.services, dependent),
{
    let g = a.graph.probes;
    let svc = a.services.at(name);
    let to = StateModel::Red(reason);
    let probes = svc.probes;
    let s = a.services.put(
        name,
        move_service(next_generation(svc, state), Stay::Nothing, to),
    );
    assert forall|i: int| 0 <= i < probes.keys.len() implies probes.has(
        #[trigger] probes.keys[i],
    ) by {
        assert(probes.keys.contains(probes.keys[i]));
    }
    lemma_move_probes(probes, probes.keys, Stay::Nothing, to);
    assert forall|i: int| 0 <= i < probes.keys.len() implies red_at(
        s,
        RefModel { service: name, probe: #[trigger] probes.keys[i] },
    ) by {
        let k = probes.keys[i];
        assert(probes.keys.contains(k));
        let m = s.at(name).probes;
        assert(m.has(k) == probes.has(k));
        assert(m.at(k).state == to);
    }
    lemma_ref_round_trip(source);
    let after = pass_on(g, name, probes.keys, s).0;
    if source.service == name && probes.has(source.probe) {
        assert(probes.keys.contains(source.probe));
        let i = choose|i: int| 0 <= i < probes.keys.len() && probes.keys[i] == source.probe;
        assert(source == (RefModel { service: name, probe: probes.keys[i] }));
    } else if source.service == name {
        let m = s.at(name).probes;
        assert(m.has(source.probe) == probes.has(source.probe));
        assert(probe_at(s, source) is None);
        assert(probe_at(a.services, source) is None);
    } else {
        assert(probe_at(s, source) == probe_at(a.services, source));
    }
    lemma_pass_on_reddens(g, name, probes.keys, s, source.text(), dependent);
}

/// A stop cascades: after a service was stopped, every probe of a running service that depends
/// on a probe of it, or on a probe that the stop changed, is red.
pub proof fn law_stop_cascades(a: AppModel, name: Str, source: RefModel, dependent: Str)
    requires
        a.services.valid(),
        a.services.has(name),
        a.services.at(name).probes.valid(),
        a.graph.probes.nodes.len() <= u32::MAX,
        a.graph.probes.closed_edges(),
        !name.contains('.'),
        !source.service.contains('.'),
        ({
            ||| source.service == name && a.services.at(name).probes.has(source.probe)
            ||| probe_at(stopped(a, name).0.services, source) != probe_at(a.services, source)
        }),
        a.graph.probes.next(source.text()).contains(dependent),
    ensures
        red_if_running(stopped(a, name).0.services, dependent),
{
    let to = ServiceState::Stopped;
    let b = halted(a, Table::empty(), name, to, RedModel::Stopped).0;
    lemma_halted_valid(a, name, to, RedModel::Stopped);
    law_show_keeps(b.services, b.targets, source.service);
    assert(probe_at(after_show(b).services, source) == probe_at(b.services, source));
    law_halt_cascades(a, Table::empty(), name, to, RedModel::Stopped, source, dependent);
    if let Some(r) = parse_ref(dependent) {
        law_show_keeps(b.services, b.targets, r.service);
        assert(probe_at(after_show(b).services, r) == probe_at(b.services, r));
    }
}

/// A service may start just where all probes that it is to start after are green.
pub proof fn law_start_is_gated(s: ServicesModel, deps: Seq<RefModel>)
    ensures
        unmet(s, deps).len() == 0 <==> forall|i: int|
            0 <= i < deps.len() ==> green_at(s, #[trigger] deps[i]),
    decreases deps.len(),
{
    if deps.len() > 0 {
        let front = deps.drop_last();
        law_start_is_gated(s, front);
        let last = deps[deps.len() - 1];
        if unmet(s, deps).len() == 0 {
            assert forall|i: int| 0 <= i < deps.len() implies green_at(s, #[trigger] deps[i]) by {
                assert(i < front.len() ==> front[i] == deps[i]);
            }
        }
        if forall|i: int| 0 <= i < deps.len() ==> green_at(s, #[trigger] deps[i]) {
            assert(green_at(s, last));
            assert forall|i: int| 0 <= i < front.len() implies green_at(s, #[trigger] front[i]) by {
                assert(front[i] == deps[i]);
            }
        }
    }
}

/// Probes of a service that runs all await a check once they are to be checked again.
proof fn lemma_mark_again_pending(
    g: Layer,
    name: Str,
    keys: Seq<Str>,
    s: ServicesModel,
    i: int,
)
    requires
        s.has(name),
        s.at(name).state is Running,
        !name.contains('.'),
        forall|j: int| 0 <= j < keys.len() ==> s.at(name).probes.has(#[trigger] keys[j]),
        0 <= i < keys.len(),
    ensures
        ({
            let r = RefModel { service: name, probe: keys[i] };
            let after = mark_again(g, refs_in(name, keys), s).0;
            &&& probe_at(after, r) is Some
            &&& probe_at(after, r)->0.state is Pending
            &&& probe_at(after, r)->0.probe_config == probe_at(s, r)->0.probe_config
        }),
    decreases keys.len(),
{
    let front = keys.drop_last();
    let refs = refs_in(name, keys);
    assert(refs.drop_last() =~= refs_in(name, front));
    let (so_far, changes) = mark_again(g, refs.drop_last(), s);
    let x = RefModel { service: name, probe: keys[i] };
    let r = refs.last();
    assert forall|j: int| 0 <= j < front.len() implies s.at(name).probes.has(
        #[trigger] front[j],
    ) by {
        assert(front[j] == keys[j]);
    }
    lemma_mark_again_kept(g, name, front, s);
    assert(only_probes_changed(s, so_far));
    assert(s.has(name) == so_far.has(name));
    assert(s.at(name).probes.has(keys[keys.len() - 1]));
    assert(probe_at(so_far, r) is Some);
    let to = StateModel::Pending(PendingModel::Reprobing);
    let p = probe_at(so_far, r)->0;
    let (marked, listed) = if !(p.state is Pending) {
        (set_probe(so_far, r, moved(p, to)), changes.push((r, to, p.state)))
    } else {
        (so_far, changes)
    };
    if !(p.state is Pending) {
        lemma_set_probe(so_far, r, moved(p, to));
    }
    if i < front.len() {
        assert(front[i] == keys[i]);
        lemma_mark_again_pending(g, name, front, s, i);
        assert(probe_at(marked, x)->0.state is Pending);
    }
    lemma_ref_round_trip(r);
    lemma_mark_again_config(g, name, front, s, x);
    law_pending_keeps_failures(g, r.text(), marked, listed, x);
    let after = pending_result(g, r.text(), marked, listed).services;
    assert(kept_or_moved(marked, after, x, false));
    if red_at(after, x) {
        law_only_red_reddens(g, r.text(), marked, listed, x);
    }
}

/// Checking probes again changes the values of probes alone.
proof fn lemma_mark_again_kept(g: Layer, name: Str, keys: Seq<Str>, s: ServicesModel)
    ensures
        only_probes_changed(s, mark_again(g, refs_in(name, keys), s).0),
    decreases keys.len(),
{
    if keys.len() > 0 {
        let front = keys.drop_last();
        let refs = refs_in(name, keys);
        assert(refs.drop_last() =~= refs_in(name, front));
        lemma_mark_again_kept(g, name, front, s);
        let (so_far, changes) = mark_again(g, refs.drop_last(), s);
        let r = refs.last();
        let to = StateModel::Pending(PendingModel::Reprobing);
        let (marked, listed) = match probe_at(so_far, r) {
            Some(p) => if so_far.at(r.service).state is Running && !(p.state is Pending) {
                (set_probe(so_far, r, moved(p, to)), changes.push((r, to, p.state)))
            } else {
                (so_far, changes)
            },
            None => (so_far, changes),
        };
        if let Some(p) = probe_at(so_far, r) {
            lemma_set_probe(so_far, r, moved(p, to));
        }
        assert(only_probes_changed(so_far, marked));
        lemma_only_probes_trans(s, so_far, marked);
        law_pending_keeps_failures(g, r.text(), marked, listed, r);
        lemma_only_probes_trans(s, marked, pending_result(g, r.text(), marked, listed).services);
    }
}

/// Checking probes again leaves it as it was how a probe is checked.
proof fn lemma_mark_again_config(
    g: Layer,
    name: Str,
    keys: Seq<Str>,
    s: ServicesModel,
    x: RefModel,
)
    ensures
        probe_at(s, x) is Some ==> probe_at(mark_again(g, refs_in(name, keys), s).0, x) is Some
            && probe_at(mark_again(g, refs_in(name, keys), s).0, x)->0.probe_config == probe_at(
            s,
            x,
        )->0.probe_config,
    decreases keys.len(),
{
    if keys.len() > 0 {
        let front = keys.drop_last();
        let refs = refs_in(name, keys);
        assert(refs.drop_last() =~= refs_in(name, front));
        lemma_mark_again_config(g, name, front, s, x);
        let (so_far, changes) = mark_again(g, refs.drop_last(), s);
        let r = refs.last();
        let to = StateModel::Pending(PendingModel::Reprobing);
        let (marked, listed) = match probe_at(so_far, r) {
            Some(p) => if so_far.at(r.service).state is Running && !(p.state is Pending) {
                (set_probe(so_far, r, moved(p, to)), changes.push((r, to, p.state)))
            } else {
                (so_far, changes)
            },
            None => (so_far, changes),
        };
        if let Some(p) = probe_at(so_far, r) {
            lemma_set_probe(so_far, r, moved(p, to));
        }
        law_pending_keeps_failures(g, r.text(), marked, listed, x);
        assert(kept_or_moved(
            marked,
            pending_result(g, r.text(), marked, listed).services,
            x,
            false,
        ));
    }
}

proof fn lemma_running_ref(s: ServicesModel, keys: Seq<Str>, n: int, j: int)
    requires
        0 <= n < keys.len(),
        s.at(keys[n]).state is Running,
        0 <= j < s.at(keys[n]).probes.keys.len(),
    ensures
        running_refs(s, keys).contains(
            RefModel { service: keys[n], probe: s.at(keys[n]).probes.keys[j] },
        ),
    decreases keys.len(),
{
    let all = running_refs(s, keys);
    let t = RefModel { service: keys[n], probe: s.at(keys[n]).probes.keys[j] };
    let before = running_refs(s, keys.drop_last());
    if n < keys.len() - 1 {
        assert(keys.drop_last()[n] == keys[n]);
        lemma_running_ref(s, keys.drop_last(), n, j);
        let k = choose|k: int| 0 <= k < before.len() && before[k] == t;
        assert(all[k] == t);
    } else {
        assert(all[before.len() + j] == t);
    }
}

/// When the probes of a running service are to be checked again, each of them that has a
/// check of its own is checked.
pub proof fn law_reprobe_checks_all(a: AppModel, name: Str, affected: Seq<Str>, probe: Str)
    requires
        a.services.valid(),
        a.services.has(name),
        a.services.at(name).state is Running,
        a.services.at(name).probes.valid(),
        a.services.at(name).probes.has(probe),
        !(a.services.at(name).probes.at(probe).probe_config is Meta),
        !name.contains('.'),
    ensures
        ({
            let (b, next) = begun(a, refs_in(name, a.services.at(name).probes.keys), affected);
            next.pending.contains(to_check(b.services, RefModel { service: name, probe }))
        }),
{
    let s = a.services;
    let g = a.graph.probes;
    let keys = s.at(name).probes.keys;
    let r = RefModel { service: name, probe };
    assert forall|j: int| 0 <= j < keys.len() implies s.at(name).probes.has(
        #[trigger] keys[j],
    ) by {
        assert(keys.contains(keys[j]));
    }
    assert(keys.contains(probe));
    let i = choose|i: int| 0 <= i < keys.len() && keys[i] == probe;
    lemma_mark_again_pending(g, name, keys, s, i);
    lemma_mark_again_kept(g, name, keys, s);
    let t = mark_again(g, refs_in(name, keys), s).0;
    assert(awaits_check(t, r));
    assert(s.has(name) == t.has(name));
    assert(t.keys == s.keys && s.keys.contains(name));
    let n = choose|n: int| 0 <= n < t.keys.len() && t.keys[n] == name;
    lemma_running_ref(t, t.keys, n, i);
    let refs = running_refs(t, t.keys);
    let k = choose|k: int| 0 <= k < refs.len() && refs[k] == r;
    law_pending_listed(t, refs, k);
}

} // verus!
