//! What holds after a service was started or stopped.
use crate::app_state::AppModel;
use crate::apply::apply_outcome;
use crate::emit::law_show_keeps;
use crate::graph::Layer;
use crate::keeps::lemma_only_probes_trans;
use crate::lifecycle::{halted, next_generation, stopped};
use crate::model::{PendingModel, RedModel, RefModel, ServiceState, StateModel};
use crate::ops::{lemma_move_probes, move_probes, move_service, pass_on, Report, Stay, StatusModel};
use crate::ordered_map::{lemma_put_valid, Table};
use crate::probe::OutcomeModel;
use crate::propagate::pending_result;
use crate::propagate_laws::{
    kept_or_moved, law_pending_keeps_failures, only_probes_changed, only_probes_differ,
};
use crate::resolve::{awaits_check, pending_among, refs_in, to_check};
use crate::runtime::{probe_at, ServicesModel};
use crate::start::{fresh, started};
use crate::text::Str;
use vstd::prelude::*;

verus! {

/// Passing on that probes of a service are red changes the values of probes alone, and no
/// probe that is red.
pub proof fn law_pass_on_keeps_red(
    g: Layer,
    svc: Str,
    keys: Seq<Str>,
    s: ServicesModel,
    r: RefModel,
)
    ensures
        only_probes_changed(s, pass_on(g, svc, keys, s).0),
        (probe_at(s, r) matches Some(p) && p.state is Red) ==> probe_at(
            pass_on(g, svc, keys, s).0,
            r,
        ) == probe_at(s, r),
    decreases keys.len(),
{
    if keys.len() > 0 {
        let (so_far, changes) = pass_on(g, svc, keys.drop_last(), s);
        law_pass_on_keeps_red(g, svc, keys.drop_last(), s, r);
        let key = (RefModel { service: svc, probe: keys.last() }).text();
        law_pending_keeps_failures(g, key, so_far, changes, r);
        let after = pending_result(g, key, so_far, changes).services;
        lemma_only_probes_trans(s, so_far, after);
        assert(kept_or_moved(so_far, after, r, false));
    }
}

/// After a service was halted it is in its new state and generation, and each of its probes
/// is red for the reason.
pub proof fn law_halted(
    a: AppModel,
    statuses: Table<StatusModel>,
    name: Str,
    state: ServiceState,
    reason: RedModel,
    probe: Str,
)
    requires
        a.services.has(name),
        a.services.at(name).probes.valid(),
    ensures
        ({
            let s = halted(a, statuses, name, state, reason).0.services;
            &&& s.has(name)
            &&& s.at(name).state == state
            &&& s.at(name).generation == (a.services.at(name).generation + 1) as u64
            &&& a.services.at(name).probes.has(probe) ==> s.at(name).probes.has(probe) && s.at(
                name,
            ).probes.at(probe).state == StateModel::Red(reason)
        }),
{
    let svc = a.services.at(name);
    let to = StateModel::Red(reason);
    let probes = svc.probes;
    let now = move_service(next_generation(svc, state), Stay::Nothing, to);
    let s = a.services.put(name, now);
    assert forall|i: int| 0 <= i < probes.keys.len() implies probes.has(
        #[trigger] probes.keys[i],
    ) by {
        assert(probes.keys.contains(probes.keys[i]));
    }
    lemma_move_probes(probes, probes.keys, Stay::Nothing, to);
    let r = RefModel { service: name, probe };
    law_pass_on_keeps_red(a.graph.probes, name, probes.keys, s, r);
    let after = pass_on(a.graph.probes, name, probes.keys, s).0;
    assert(s.has(name) == after.has(name));
    assert(only_probes_differ(s.at(name), after.at(name)));
    if probes.has(probe) {
        assert(probes.keys.contains(probe));
        let m = move_probes(probes, probes.keys, Stay::Nothing, to);
        assert(m.has(probe) == probes.has(probe));
        assert(m.at(probe).state == to);
        assert(probe_at(s, r) == Some(m.at(probe)));
    }
}

/// After a service was stopped each of its probes is red because it was stopped.
pub proof fn law_stopped(a: AppModel, name: Str, probe: Str)
    requires
        a.services.valid(),
        a.services.has(name),
        a.services.at(name).probes.valid(),
    ensures
        ({
            let s = stopped(a, name).0.services;
            &&& s.has(name)
            &&& s.at(name).state is Stopped
            &&& s.at(name).generation == (a.services.at(name).generation + 1) as u64
            &&& a.services.at(name).probes.has(probe) ==> s.at(name).probes.has(probe) && s.at(
                name,
            ).probes.at(probe).state == StateModel::Red(RedModel::Stopped)
        }),
{
    let to = ServiceState::Stopped;
    law_halted(a, Table::empty(), name, to, RedModel::Stopped, probe);
    let b = halted(a, Table::empty(), name, to, RedModel::Stopped).0;
    lemma_halted_valid(a, name, to, RedModel::Stopped);
    law_show_keeps(b.services, b.targets, name);
}

pub proof fn lemma_halted_valid(a: AppModel, name: Str, state: ServiceState, reason: RedModel)
    requires
        a.services.valid(),
        a.services.has(name),
    ensures
        halted(a, Table::empty(), name, state, reason).0.services.valid(),
{
    let svc = a.services.at(name);
    let to = StateModel::Red(reason);
    let now = move_service(next_generation(svc, state), Stay::Nothing, to);
    let s = a.services.put(name, now);
    lemma_put_valid(a.services, name, now);
    let after = pass_on(a.graph.probes, name, svc.probes.keys, s).0;
    law_pass_on_keeps_red(
        a.graph.probes,
        name,
        svc.probes.keys,
        s,
        RefModel { service: name, probe: name },
    );
    assert forall|k: Str| #[trigger] after.map.contains_key(k) <==> after.keys.contains(k) by {
        assert(s.has(k) == after.has(k));
        assert(s.map.contains_key(k) <==> s.keys.contains(k));
    }
}

/// The outcome of a check that was sent out before a service was stopped changes nothing
/// afterwards.
pub proof fn law_stop_makes_stale(a: AppModel, r: RefModel, o: OutcomeModel, report: Report)
    requires
        a.services.valid(),
        a.services.has(r.service),
        a.services.at(r.service).probes.valid(),
        a.services.at(r.service).generation == o.generation,
        o.generation < u64::MAX,
    ensures
        ({
            let b = stopped(a, r.service).0;
            apply_outcome(b.graph.probes, b.services, report, r, o).services == b.services
        }),
{
    law_stopped(a, r.service, r.probe);
}

/// After a service was started it is in a new generation, and each of its probes awaits a
/// check.
pub proof fn law_started(a: AppModel, name: Str, log_since: i64, probe: Str)
    requires
        a.services.valid(),
        a.services.has(name),
        a.services.at(name).probes.valid(),
    ensures
        ({
            let s = started(a, name, log_since).services;
            let svc = a.services.at(name);
            &&& s.has(name)
            &&& s.at(name).state is Running
            &&& s.at(name).generation == (svc.generation + 1) as u64
            &&& s.at(name).log_since == log_since
            &&& s.at(name).probes.has(probe) == svc.probes.has(probe)
            &&& svc.probes.has(probe) ==> s.at(name).probes.at(probe).state
                == StateModel::Pending(PendingModel::Reprobing) && s.at(name).probes.at(
                probe,
            ).probe_config == svc.probes.at(probe).probe_config
        }),
{
    let svc = a.services.at(name);
    let probes = svc.probes;
    let to = StateModel::Pending(PendingModel::Reprobing);
    let s = a.services.put(name, fresh(svc, log_since));
    assert forall|i: int| 0 <= i < probes.keys.len() implies probes.has(
        #[trigger] probes.keys[i],
    ) by {
        assert(probes.keys.contains(probes.keys[i]));
    }
    lemma_move_probes(probes, probes.keys, Stay::Reprobing, to);
    let m = move_probes(probes, probes.keys, Stay::Reprobing, to);
    assert(m.has(probe) == probes.has(probe));
    if probes.has(probe) {
        assert(probes.keys.contains(probe));
        assert(m.at(probe) == m.at(probe));
    }
    lemma_put_valid(a.services, name, fresh(svc, log_since));
    law_show_keeps(s, a.targets, name);
}

/// The outcome of a check that was sent out before a service was started changes nothing
/// afterwards.
pub proof fn law_start_makes_stale(
    a: AppModel,
    log_since: i64,
    r: RefModel,
    o: OutcomeModel,
    report: Report,
)
    requires
        a.services.valid(),
        a.services.has(r.service),
        a.services.at(r.service).probes.valid(),
        a.services.at(r.service).generation == o.generation,
        o.generation < u64::MAX,
    ensures
        ({
            let b = started(a, r.service, log_since);
            apply_outcome(b.graph.probes, b.services, report, r, o).services == b.services
        }),
{
    law_started(a, r.service, log_since, r.probe);
}

/// A probe of a list that awaits a check is checked.
pub proof fn law_pending_listed(s: ServicesModel, refs: Seq<RefModel>, i: int)
    requires
        0 <= i < refs.len(),
        awaits_check(s, refs[i]),
    ensures
        pending_among(s, refs).contains(to_check(s, refs[i])),
    decreases refs.len(),
{
    let all = pending_among(s, refs);
    let t = to_check(s, refs[i]);
    if i < refs.len() - 1 {
        let front = refs.drop_last();
        assert(front[i] == refs[i]);
        law_pending_listed(s, front, i);
        let before = pending_among(s, front);
        let j = choose|j: int| 0 <= j < before.len() && before[j] == t;
        assert(all[j] == t);
    } else {
        assert(all[all.len() - 1] == t);
    }
}

/// When a service is started, each of its probes that has a check of its own is checked.
pub proof fn law_start_checks_all(a: AppModel, name: Str, log_since: i64, probe: Str)
    requires
        a.services.valid(),
        a.services.has(name),
        a.services.at(name).probes.valid(),
        a.services.at(name).probes.has(probe),
        !(a.services.at(name).probes.at(probe).probe_config is Meta),
    ensures
        ({
            let s = started(a, name, log_since).services;
            let r = RefModel { service: name, probe };
            pending_among(s, refs_in(name, a.services.at(name).probes.keys)).contains(
                to_check(s, r),
            )
        }),
{
    let s = started(a, name, log_since).services;
    let keys = a.services.at(name).probes.keys;
    law_started(a, name, log_since, probe);
    assert(keys.contains(probe));
    let i = choose|i: int| 0 <= i < keys.len() && keys[i] == probe;
    assert(refs_in(name, keys)[i] == (RefModel { service: name, probe }));
    law_pending_listed(s, refs_in(name, keys), i);
}

} // verus!
