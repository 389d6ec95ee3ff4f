//! What every operation keeps: the services, their probes, and what these depend on.
use crate::app_state::AppModel;
use crate::apply::{apply_outcome, attempt_events, judged, keep_line, stale, take_on};
use crate::batch::{
    lemma_pending_same_deps, lemma_same_deps_refl, lemma_same_deps_trans, meta_names, meta_state,
    update_metas, update_service, Progress,
};
use crate::emit::{after_show, law_show_keeps};
use crate::graph::Layer;
use crate::model::{RefModel, StateModel};
use crate::ops::{lemma_move_probes, move_probes, move_service, pass_on, Report, Stay};
use crate::ordered_map::Table;
use crate::probe::OutcomeModel;
use crate::probe_meta::same_deps;
use crate::propagate::{moved, pending_result, recovery_result};
use crate::propagate_laws::{
    law_pending_keeps_failures, law_recovery_keeps_failures, lemma_set_probe, only_probes_changed,
    only_probes_differ,
};
use crate::runtime::{probe_at, set_probe, ProbeModel, ServiceModel, ServicesModel};
use crate::text::Str;
use vstd::prelude::*;

verus! {

/// Showing the services touches no dependency.
pub proof fn lemma_show_same(a: AppModel)
    requires
        a.services.valid(),
    ensures
        same_deps(a.services, after_show(a).services),
{
    let t = after_show(a).services;
    assert forall|r: RefModel|
        match (#[trigger] probe_at(a.services, r), probe_at(t, r)) {
            (None, None) => true,
            (Some(p), Some(q)) => p.depends_on == q.depends_on,
            _ => false,
        } by {
        law_show_keeps(a.services, a.targets, r.service);
    }
}

/// Moving the probes of a service to a state touches no dependency.
pub proof fn lemma_move_same(
    s: ServicesModel,
    name: Str,
    svc: ServiceModel,
    stay: Stay,
    to: StateModel,
)
    requires
        s.has(name),
        svc.probes == s.at(name).probes,
        svc.probes.valid(),
    ensures
        same_deps(s, s.put(name, move_service(svc, stay, to))),
{
    let t = s.put(name, move_service(svc, stay, to));
    let probes = svc.probes;
    assert forall|i: int| 0 <= i < probes.keys.len() implies probes.has(
        #[trigger] probes.keys[i],
    ) by {
        assert(probes.keys.contains(probes.keys[i]));
    }
    lemma_move_probes(probes, probes.keys, stay, to);
    assert forall|r: RefModel|
        match (#[trigger] probe_at(s, r), probe_at(t, r)) {
            (None, None) => true,
            (Some(p), Some(q)) => p.depends_on == q.depends_on,
            _ => false,
        } by {
        if r.service == name {
            let m = move_probes(probes, probes.keys, stay, to);
            assert(m.has(r.probe) == probes.has(r.probe));
            assert(m.at(r.probe) == m.at(r.probe));
        }
    }
}

/// Passing on that probes of a service are red touches no dependency.
pub proof fn lemma_pass_on_same(g: Layer, svc: Str, keys: Seq<Str>, s: ServicesModel)
    ensures
        same_deps(s, pass_on(g, svc, keys, s).0),
    decreases keys.len(),
{
    if keys.len() == 0 {
        lemma_same_deps_refl(s);
    } else {
        let (so_far, changes) = pass_on(g, svc, keys.drop_last(), s);
        lemma_pass_on_same(g, svc, keys.drop_last(), s);
        let key = (RefModel { service: svc, probe: keys.last() }).text();
        lemma_pending_same_deps(g, key, so_far, changes);
        lemma_same_deps_trans(s, so_far, pass_on(g, svc, keys, s).0);
    }
}

/// What differs in the values of the probes alone, step by step, does so as a whole.
pub proof fn lemma_only_probes_trans(a: ServicesModel, b: ServicesModel, c: ServicesModel)
    requires
        only_probes_changed(a, b),
        only_probes_changed(b, c),
    ensures
        only_probes_changed(a, c),
{
    assert forall|k: Str| #[trigger] a.has(k) == c.has(k) by {
        assert(a.has(k) == b.has(k));
    }
    assert forall|k: Str| #[trigger] a.has(k) implies only_probes_differ(a.at(k), c.at(k)) by {
        assert(b.has(k));
        assert(only_probes_differ(a.at(k), b.at(k)));
        assert(only_probes_differ(b.at(k), c.at(k)));
        assert forall|p: Str| #[trigger] a.at(k).probes.has(p) == c.at(k).probes.has(p) by {
            assert(a.at(k).probes.has(p) == b.at(k).probes.has(p));
            assert(b.at(k).probes.has(p) == c.at(k).probes.has(p));
        }
    }
}

proof fn lemma_set_only_probes(s: ServicesModel, r: RefModel, p: ProbeModel)
    requires
        probe_at(s, r) is Some,
    ensures
        only_probes_changed(s, set_probe(s, r, p)),
{
    lemma_set_probe(s, r, p);
    let t = set_probe(s, r, p);
    assert forall|k: Str| #[trigger] s.has(k) == t.has(k) by {}
    assert forall|k: Str| #[trigger] s.has(k) implies only_probes_differ(s.at(k), t.at(k)) by {}
}

/// Applying the outcome of a check changes the values of probes alone.
pub proof fn law_apply_changes_probes(
    g: Layer,
    s: ServicesModel,
    report: Report,
    r: RefModel,
    o: OutcomeModel,
)
    requires
        probe_at(s, r) is Some || stale(s, r, o),
    ensures
        only_probes_changed(s, apply_outcome(g, s, report, r, o).services),
{
    if !stale(s, r, o) {
        let told = Report {
            events: report.events + attempt_events(r, o),
            statuses: report.statuses,
        };
        let (state, ms, error) = judged(s, r, o);
        let p = probe_at(s, r)->0;
        let taken = ProbeModel {
            state,
            prev_color: Some(p.state.color()),
            last_probe_ms: Some(ms),
            last_error: error,
            ..p
        };
        let next = set_probe(s, r, taken);
        lemma_set_only_probes(s, r, taken);
        law_recovery_keeps_failures(g, r.text(), next, Seq::empty(), r);
        law_pending_keeps_failures(g, r.text(), next, Seq::empty(), r);
        lemma_only_probes_trans(
            s,
            next,
            recovery_result(g, r.text(), next, Seq::empty()).services,
        );
        lemma_only_probes_trans(
            s,
            next,
            pending_result(g, r.text(), next, Seq::empty()).services,
        );
        let step = take_on(g, s, told, r, state, ms, error);
        assert(only_probes_changed(s, step.services));
        let done = keep_line(step, r, o);
        if o.matched_lines.len() > 0 {
            if let Some(q) = probe_at(step.services, r) {
                let kept = ProbeModel { last_log_match: Some(o.matched_lines.last()), ..q };
                lemma_set_only_probes(step.services, r, kept);
                lemma_only_probes_trans(s, step.services, done.services);
            }
        }
    }
}

proof fn lemma_metas_change_probes(at: Progress, svc: Str, names: Seq<Str>)
    requires
        forall|i: int|
            0 <= i < names.len() ==> probe_at(
                at.services,
                RefModel { service: svc, probe: #[trigger] names[i] },
            ) is Some,
    ensures
        only_probes_changed(at.services, update_metas(at, svc, names).services),
    decreases names.len(),
{
    if names.len() > 0 {
        let front = names.drop_last();
        assert forall|i: int| 0 <= i < front.len() implies probe_at(
            at.services,
            RefModel { service: svc, probe: #[trigger] front[i] },
        ) is Some by {
            assert(front[i] == names[i]);
        }
        lemma_metas_change_probes(at, svc, front);
        let before = update_metas(at, svc, front);
        let r = RefModel { service: svc, probe: names.last() };
        assert(names[names.len() - 1] == names.last());
        assert(probe_at(at.services, r) is Some);
        assert(only_probes_differ(at.services.at(svc), before.services.at(svc)));
        assert(at.services.at(svc).probes.has(r.probe) == before.services.at(svc).probes.has(
            r.probe,
        ));
        let p = probe_at(before.services, r)->0;
        lemma_set_only_probes(before.services, r, moved(p, meta_state(before.services, r)));
        lemma_only_probes_trans(
            at.services,
            before.services,
            update_metas(at, svc, names).services,
        );
    }
}

proof fn lemma_meta_names_known(probes: Table<ProbeModel>, keys: Seq<Str>)
    requires
        forall|i: int| 0 <= i < keys.len() ==> probes.has(#[trigger] keys[i]),
    ensures
        forall|i: int|
            0 <= i < meta_names(probes, keys).len() ==> probes.has(
                #[trigger] meta_names(probes, keys)[i],
            ),
    decreases keys.len(),
{
    if keys.len() > 0 {
        let front = keys.drop_last();
        assert forall|i: int| 0 <= i < front.len() implies probes.has(#[trigger] front[i]) by {
            assert(front[i] == keys[i]);
        }
        lemma_meta_names_known(probes, front);
        assert(probes.has(keys[keys.len() - 1]));
        let names = meta_names(probes, keys);
        assert forall|i: int| 0 <= i < names.len() implies probes.has(#[trigger] names[i]) by {
            if i < meta_names(probes, front).len() {
                assert(names[i] == meta_names(probes, front)[i]);
            }
        }
    }
}

/// Bringing meta probes up to date changes the values of probes alone.
pub proof fn law_meta_changes_probes(at: Progress, svc: Str)
    requires
        at.services.has(svc) ==> at.services.at(svc).probes.valid(),
    ensures
        only_probes_changed(at.services, update_service(at, svc).services),
{
    if at.services.has(svc) {
        let probes = at.services.at(svc).probes;
        assert forall|i: int| 0 <= i < probes.keys.len() implies probes.has(
            #[trigger] probes.keys[i],
        ) by {
            assert(probes.keys.contains(probes.keys[i]));
        }
        lemma_meta_names_known(probes, probes.keys);
        let names = meta_names(probes, probes.keys);
        assert forall|i: int| 0 <= i < names.len() implies probe_at(
            at.services,
            RefModel { service: svc, probe: #[trigger] names[i] },
        ) is Some by {
            assert(probes.has(names[i]));
        }
        lemma_metas_change_probes(at, svc, names);
    }
}

} // verus!
