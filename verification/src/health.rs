//! A probe is green only while its service runs and all that it depends on is green.
use crate::apply::{
    apply_outcome, attempt_events, judged, keep_line, law_green_needs_green, stale, take_on, Step,
};
use crate::batch::{
    apply_again, apply_in_order, last_outcome, law_meta_state, meta_names, meta_state,
    resolve_batch, round_limit, settle, update_affected, update_meta, update_metas,
    update_service, update_services, Progress,
};
use crate::graph::Layer;
use crate::model::{lemma_ref_round_trip, lemma_ref_text, parse_ref, RefModel, StateModel};
use crate::names::{lemma_unseen_less, unseen};
use crate::ops::Report;
use crate::probe::OutcomeModel;
use crate::probe_meta::{
    acyclic, deps_satisfied, lemma_same_deps, rank_of, ranked_by, same_deps, satisfied,
};
use crate::propagate::{
    moved, pending_result, recovery_result, start_walk, visit_recovery, walk_recovery,
    ChangeModel, Walk,
};
use crate::propagate_laws::{
    kept_or_moved, law_dependents_lose_green, law_pending_keeps_failures,
    law_recovery_keeps_failures, lemma_set_probe, not_green_if_running, only_probes_changed,
    only_probes_differ,
};
use crate::runtime::{
    all_green_at, green_at, probe_at, set_probe, ProbeModel, ServiceModel, ServicesModel,
};
use crate::text::Str;
use vstd::prelude::*;

verus! {

/// Whether every green probe belongs to a service that runs, and depends on green probes alone.
pub open spec fn healthy(s: ServicesModel) -> bool {
    forall|q: RefModel| #[trigger]
        green_at(s, q) ==> s.at(q.service).state is Running && all_green_at(
            s,
            probe_at(s, q)->0.depends_on,
        )
}

/// Whether every green probe belongs to a service that runs, and depends on green probes and
/// on those in `dirty` alone.
pub open spec fn healthy_but(s: ServicesModel, dirty: Set<RefModel>) -> bool {
    forall|q: RefModel| #[trigger]
        green_at(s, q) ==> {
            &&& s.at(q.service).state is Running
            &&& forall|i: int|
                0 <= i < probe_at(s, q)->0.depends_on.len() ==> green_at(
                    s,
                    #[trigger] probe_at(s, q)->0.depends_on[i],
                ) || dirty.contains(probe_at(s, q)->0.depends_on[i])
        }
}

/// Whether an edge leads from a probe to another just where the other depends on it, and each
/// probe is read back from what it is written as.
pub open spec fn linked(g: Layer, s: ServicesModel) -> bool {
    &&& g.nodes.len() <= u32::MAX
    &&& g.closed_edges()
    &&& forall|q: RefModel| #[trigger] probe_at(s, q) is Some ==> !q.service.contains('.')
    &&& forall|q: RefModel, i: int|
        #![trigger probe_at(s, q)->0.depends_on[i]]
        probe_at(s, q) is Some && 0 <= i < probe_at(s, q)->0.depends_on.len() ==> g.next(
            probe_at(s, q)->0.depends_on[i].text(),
        ).contains(q.text()) && !probe_at(s, q)->0.depends_on[i].service.contains('.')
    &&& forall|k: Str, q: RefModel|
        #![trigger g.next(k).contains(q.text())]
        probe_at(s, q) is Some && g.next(k).contains(q.text()) ==> exists|i: int|
            0 <= i < probe_at(s, q)->0.depends_on.len() && (
            #[trigger] probe_at(s, q)->0.depends_on[i]).text() == k
}

/// Whether each meta probe depends on a probe of its own service.
pub open spec fn metas_at_home(s: ServicesModel) -> bool {
    forall|q: RefModel|
        (#[trigger] probe_at(s, q) matches Some(p) && p.probe_config is Meta) ==> exists|i: int|
            0 <= i < probe_at(s, q)->0.depends_on.len() && (
            #[trigger] probe_at(s, q)->0.depends_on[i]).service == q.service
}

/// Whether the graph and the probes fit together.
pub open spec fn in_order(g: Layer, s: ServicesModel) -> bool {
    linked(g, s) && acyclic(s) && metas_at_home(s)
}

/// Whether the tables of all services are valid.
pub open spec fn all_valid(s: ServicesModel) -> bool {
    s.valid() && forall|k: Str| #[trigger] s.has(k) ==> s.at(k).probes.valid()
}

/// Whether two services have the same state and generation, and the same probes.
pub open spec fn same_service(a: ServiceModel, b: ServiceModel) -> bool {
    a.state == b.state && a.generation == b.generation && a.probes.keys == b.probes.keys
}

/// Whether a step has left all services and probes in place, with the state and generation of
/// each service, and with what each probe depends on and how it is checked.
pub open spec fn steady(a: ServicesModel, b: ServicesModel) -> bool {
    &&& a.keys == b.keys
    &&& forall|k: Str| #[trigger] b.has(k) == a.has(k)
    &&& forall|k: Str| #[trigger] b.has(k) ==> same_service(a.at(k), b.at(k))
    &&& forall|r: RefModel|
        match (probe_at(a, r), #[trigger] probe_at(b, r)) {
            (None, None) => true,
            (Some(p), Some(q)) => p.depends_on == q.depends_on && p.probe_config
                == q.probe_config,
            _ => false,
        }
}

pub proof fn lemma_steady_trans(a: ServicesModel, b: ServicesModel, c: ServicesModel)
    requires
        steady(a, b),
        steady(b, c),
    ensures
        steady(a, c),
{
    assert forall|k: Str| #[trigger] c.has(k) == a.has(k) by {
        assert(c.has(k) == b.has(k));
    }
    assert forall|k: Str| #[trigger] c.has(k) implies same_service(a.at(k), c.at(k)) by {
        assert(b.has(k));
    }
    assert forall|r: RefModel|
        match (probe_at(a, r), #[trigger] probe_at(c, r)) {
            (None, None) => true,
            (Some(p), Some(q)) => p.depends_on == q.depends_on && p.probe_config
                == q.probe_config,
            _ => false,
        } by {
        let m = probe_at(b, r);
    }
}

/// What the probes depend on, and how they are checked, says whether all is in order.
pub proof fn lemma_same_probes_in_order(g: Layer, a: ServicesModel, b: ServicesModel)
    requires
        in_order(g, a),
        forall|r: RefModel|
            match (probe_at(a, r), #[trigger] probe_at(b, r)) {
                (None, None) => true,
                (Some(p), Some(q)) => p.depends_on == q.depends_on && p.probe_config
                    == q.probe_config,
                _ => false,
            },
    ensures
        in_order(g, b),
{
    assert(same_deps(a, b)) by {
        assert forall|r: RefModel|
            match (#[trigger] probe_at(a, r), probe_at(b, r)) {
                (None, None) => true,
                (Some(p), Some(q)) => p.depends_on == q.depends_on,
                _ => false,
            } by {
            let m = probe_at(b, r);
        }
    }
    lemma_same_deps(a, b);
    assert forall|q: RefModel, i: int|
        #![trigger probe_at(b, q)->0.depends_on[i]]
        probe_at(b, q) is Some && 0 <= i < probe_at(b, q)->0.depends_on.len() implies g.next(
        probe_at(b, q)->0.depends_on[i].text(),
    ).contains(q.text()) && !probe_at(b, q)->0.depends_on[i].service.contains('.') by {
        let d = probe_at(a, q)->0.depends_on[i];
        assert(probe_at(a, q) is Some);
    }
    assert forall|k: Str, q: RefModel|
        #![trigger g.next(k).contains(q.text())]
        probe_at(b, q) is Some && g.next(k).contains(q.text()) implies exists|i: int|
        0 <= i < probe_at(b, q)->0.depends_on.len() && (
        #[trigger] probe_at(b, q)->0.depends_on[i]).text() == k by {
        assert(probe_at(a, q) is Some);
        let i = choose|i: int|
            0 <= i < probe_at(a, q)->0.depends_on.len() && (
            #[trigger] probe_at(a, q)->0.depends_on[i]).text() == k;
        assert(probe_at(b, q)->0.depends_on[i].text() == k);
    }
    assert forall|q: RefModel|
        (#[trigger] probe_at(b, q) matches Some(p) && p.probe_config is Meta) implies exists|i: int|
        0 <= i < probe_at(b, q)->0.depends_on.len() && (
        #[trigger] probe_at(b, q)->0.depends_on[i]).service == q.service by {
        assert(probe_at(a, q) is Some);
        let i = choose|i: int|
            0 <= i < probe_at(a, q)->0.depends_on.len() && (
            #[trigger] probe_at(a, q)->0.depends_on[i]).service == q.service;
        assert(probe_at(b, q)->0.depends_on[i].service == q.service);
    }
}

pub proof fn lemma_set_steady(s: ServicesModel, r: RefModel, p: ProbeModel)
    requires
        probe_at(s, r) is Some,
        p.depends_on == probe_at(s, r)->0.depends_on,
        p.probe_config == probe_at(s, r)->0.probe_config,
    ensures
        steady(s, set_probe(s, r, p)),
{
    lemma_set_probe(s, r, p);
    let t = set_probe(s, r, p);
    assert forall|k: Str| #[trigger] t.has(k) implies same_service(s.at(k), t.at(k)) by {
        assert(s.has(k));
        assert(only_probes_differ(s.at(k), t.at(k)));
    }
}

proof fn lemma_only_probes_steady(a: ServicesModel, b: ServicesModel)
    requires
        only_probes_changed(a, b),
        forall|r: RefModel|
            match (probe_at(a, r), #[trigger] probe_at(b, r)) {
                (None, None) => true,
                (Some(p), Some(q)) => p.depends_on == q.depends_on && p.probe_config
                    == q.probe_config,
                _ => false,
            },
    ensures
        steady(a, b),
{
    assert forall|k: Str| #[trigger] b.has(k) == a.has(k) by {
        assert(a.has(k) == b.has(k));
    }
    assert forall|k: Str| #[trigger] b.has(k) implies same_service(a.at(k), b.at(k)) by {
        assert(a.has(k));
        assert(only_probes_differ(a.at(k), b.at(k)));
    }
}

pub proof fn lemma_pending_steady(g: Layer, key: Str, s: ServicesModel, changes: Seq<ChangeModel>)
    ensures
        steady(s, pending_result(g, key, s, changes).services),
{
    let t = pending_result(g, key, s, changes).services;
    law_pending_keeps_failures(g, key, s, changes, RefModel { service: key, probe: key });
    assert forall|r: RefModel|
        match (probe_at(s, r), #[trigger] probe_at(t, r)) {
            (None, None) => true,
            (Some(p), Some(q)) => p.depends_on == q.depends_on && p.probe_config
                == q.probe_config,
            _ => false,
        } by {
        law_pending_keeps_failures(g, key, s, changes, r);
    }
    lemma_only_probes_steady(s, t);
}

pub proof fn lemma_recovery_steady(g: Layer, key: Str, s: ServicesModel, changes: Seq<ChangeModel>)
    ensures
        steady(s, recovery_result(g, key, s, changes).services),
{
    let t = recovery_result(g, key, s, changes).services;
    law_recovery_keeps_failures(g, key, s, changes, RefModel { service: key, probe: key });
    assert forall|r: RefModel|
        match (probe_at(s, r), #[trigger] probe_at(t, r)) {
            (None, None) => true,
            (Some(p), Some(q)) => p.depends_on == q.depends_on && p.probe_config
                == q.probe_config,
            _ => false,
        } by {
        law_recovery_keeps_failures(g, key, s, changes, r);
    }
    lemma_only_probes_steady(s, t);
}

/// Passing a probe that is not green on makes up for it.
pub proof fn lemma_pending_heals(
    g: Layer,
    r: RefModel,
    s: ServicesModel,
    changes: Seq<ChangeModel>,
    dirty: Set<RefModel>,
)
    requires
        linked(g, s),
        !green_at(s, r),
        !r.service.contains('.'),
        healthy_but(s, dirty.insert(r)),
    ensures
        healthy_but(pending_result(g, r.text(), s, changes).services, dirty),
{
    let key = r.text();
    let t = pending_result(g, key, s, changes).services;
    lemma_ref_round_trip(r);
    lemma_pending_steady(g, key, s, changes);
    assert forall|q: RefModel| #[trigger] green_at(t, q) implies ({
        &&& t.at(q.service).state is Running
        &&& forall|i: int|
            0 <= i < probe_at(t, q)->0.depends_on.len() ==> green_at(
                t,
                #[trigger] probe_at(t, q)->0.depends_on[i],
            ) || dirty.contains(probe_at(t, q)->0.depends_on[i])
    }) by {
        law_pending_keeps_failures(g, key, s, changes, q);
        assert(kept_or_moved(s, t, q, false));
        assert(probe_at(t, q) == probe_at(s, q));
        assert(green_at(s, q));
        assert(t.has(q.service));
        assert(t.at(q.service).state is Running);
        assert(probe_at(s, q) is Some);
        lemma_ref_round_trip(q);
        assert(q != r);
        if q.text() == key {
            assert(parse_ref(q.text()) == Some(q));
        }
        assert forall|i: int| 0 <= i < probe_at(t, q)->0.depends_on.len() implies green_at(
            t,
            #[trigger] probe_at(t, q)->0.depends_on[i],
        ) || dirty.contains(probe_at(t, q)->0.depends_on[i]) by {
            let d = probe_at(t, q)->0.depends_on[i];
            assert(d == probe_at(s, q)->0.depends_on[i]);
            assert(g.next(d.text()).contains(q.text()));
            lemma_ref_round_trip(d);
            assert(!not_green_if_running(t, q.text()));
            if d == r {
                law_dependents_lose_green(g, key, s, changes, key, q.text());
            } else if probe_at(t, d) != probe_at(s, d) {
                law_dependents_lose_green(g, key, s, changes, d.text(), q.text());
            }
        }
    }
}

/// Health is health with nothing left out.
pub proof fn lemma_healthy(s: ServicesModel)
    ensures
        healthy(s) <==> healthy_but(s, Set::empty()),
{
    if healthy_but(s, Set::empty()) {
        assert forall|q: RefModel| #[trigger] green_at(s, q) implies s.at(
            q.service,
        ).state is Running && all_green_at(s, probe_at(s, q)->0.depends_on) by {
            let deps = probe_at(s, q)->0.depends_on;
            assert forall|i: int| 0 <= i < deps.len() implies green_at(s, #[trigger] deps[i]) by {
                let d = probe_at(s, q)->0.depends_on[i];
            }
        }
    }
    if healthy(s) {
        assert forall|q: RefModel| #[trigger] green_at(s, q) implies ({
            &&& s.at(q.service).state is Running
            &&& forall|i: int|
                0 <= i < probe_at(s, q)->0.depends_on.len() ==> green_at(
                    s,
                    #[trigger] probe_at(s, q)->0.depends_on[i],
                ) || Set::<RefModel>::empty().contains(probe_at(s, q)->0.depends_on[i])
        }) by {
            let deps = probe_at(s, q)->0.depends_on;
            assert(all_green_at(s, deps));
        }
    }
}

/// Whether no green probe depends on `x`.
spec fn nothing_behind(s: ServicesModel, x: RefModel) -> bool {
    forall|q: RefModel, i: int|
        #![trigger probe_at(s, q)->0.depends_on[i]]
        green_at(s, q) && 0 <= i < probe_at(s, q)->0.depends_on.len() ==> probe_at(
            s,
            q,
        )->0.depends_on[i] != x
}

spec fn nothing_behind_key(s: ServicesModel, key: Str) -> bool {
    parse_ref(key) is Some && nothing_behind(s, parse_ref(key)->0)
}

spec fn quiet(g: Layer, a: ServicesModel, w: Walk, from: Str, next: Seq<Str>) -> bool {
    &&& forall|i: int| 0 <= i < w.queue.len() ==> nothing_behind_key(a, #[trigger] w.queue[i])
    &&& next.len() > 0 ==> nothing_behind_key(a, from)
    &&& forall|i: int| 0 <= i < next.len() ==> g.next(from).contains(#[trigger] next[i])
    &&& forall|x: RefModel| #[trigger] green_at(a, x) ==> probe_at(w.services, x) == probe_at(a, x)
    &&& forall|x: RefModel| #[trigger] probe_at(w.services, x) is Some ==> probe_at(a, x) is Some
}

proof fn lemma_visit_quiet(g: Layer, a: ServicesModel, w: Walk, from: Str, next: Seq<Str>)
    requires
        linked(g, a),
        healthy(a),
        next.len() > 0,
        quiet(g, a, w, from, next),
    ensures
        quiet(g, a, visit_recovery(g, w, from, next[0]), from, next.drop_first()),
{
    let key = next[0];
    let v = visit_recovery(g, w, from, key);
    let rest = next.drop_first();
    assert(g.next(from).contains(next[0]));
    if !w.visited.contains(key) && g.nodes.contains(key) {
        if let Some(r) = parse_ref(key) {
            lemma_ref_text(key);
            if let Some(p) = probe_at(w.services, r) {
                let x = parse_ref(from)->0;
                lemma_ref_text(from);
                assert(probe_at(a, r) is Some);
                assert(g.next(from).contains(r.text()));
                let i = choose|i: int|
                    0 <= i < probe_at(a, r)->0.depends_on.len() && (
                    #[trigger] probe_at(a, r)->0.depends_on[i]).text() == from;
                let d = probe_at(a, r)->0.depends_on[i];
                lemma_ref_round_trip(d);
                assert(d == x);
                assert(!green_at(a, r));
                assert(nothing_behind(a, r)) by {
                    assert forall|q: RefModel, j: int|
                        #![trigger probe_at(a, q)->0.depends_on[j]]
                        green_at(a, q) && 0 <= j < probe_at(a, q)->0.depends_on.len() implies probe_at(
                        a,
                        q,
                    )->0.depends_on[j] != r by {
                        let deps = probe_at(a, q)->0.depends_on;
                        assert(all_green_at(a, deps));
                        assert(green_at(a, deps[j]));
                    }
                }
                let state = StateModel::Pending(
                    crate::model::PendingModel::DepRecovered { dep: x },
                );
                lemma_set_probe(w.services, r, moved(p, state));
            }
        }
    }
    assert forall|i: int| 0 <= i < v.queue.len() implies nothing_behind_key(
        a,
        #[trigger] v.queue[i],
    ) by {
        if i < w.queue.len() {
            assert(v.queue[i] == w.queue[i]);
        }
    }
    assert forall|i: int| 0 <= i < rest.len() implies g.next(from).contains(#[trigger] rest[i]) by {
        assert(rest[i] == next[i + 1]);
    }
}

proof fn lemma_walk_quiet(g: Layer, a: ServicesModel, w: Walk, from: Str, next: Seq<Str>)
    requires
        linked(g, a),
        healthy(a),
        quiet(g, a, w, from, next),
    ensures
        quiet(g, a, walk_recovery(g, w, from, next), Seq::empty(), Seq::empty()),
    decreases unseen(g.nodes, w.visited), w.queue.len(), next.len(),
{
    if next.len() > 0 {
        if !w.visited.contains(next[0]) && g.nodes.contains(next[0]) {
            lemma_unseen_less(g.nodes, w.visited, next[0]);
        }
        lemma_visit_quiet(g, a, w, from, next);
        lemma_walk_quiet(g, a, visit_recovery(g, w, from, next[0]), from, next.drop_first());
    } else if w.queue.len() > 0 {
        let k0 = w.queue[0];
        let popped = Walk { queue: w.queue.drop_first(), ..w };
        assert(nothing_behind_key(a, w.queue[0]));
        assert forall|i: int| 0 <= i < popped.queue.len() implies nothing_behind_key(
            a,
            #[trigger] popped.queue[i],
        ) by {
            assert(popped.queue[i] == w.queue[i + 1]);
        }
        assert forall|i: int| 0 <= i < g.next(k0).len() implies g.next(k0).contains(
            #[trigger] g.next(k0)[i],
        ) by {}
        lemma_walk_quiet(g, a, popped, k0, g.next(k0));
    }
}

/// Passing the recovery of a probe on keeps health, if no green probe depends on it.
proof fn lemma_recovery_heals(
    g: Layer,
    r: RefModel,
    s: ServicesModel,
    changes: Seq<ChangeModel>,
)
    requires
        linked(g, s),
        healthy(s),
        !r.service.contains('.'),
        nothing_behind(s, r),
    ensures
        healthy(recovery_result(g, r.text(), s, changes).services),
{
    let key = r.text();
    let t = recovery_result(g, key, s, changes).services;
    lemma_ref_round_trip(r);
    lemma_recovery_steady(g, key, s, changes);
    let w = start_walk(key, false, s, changes);
    let none = Seq::<char>::empty();
    let no_next = Seq::<Str>::empty();
    assert(w.queue[0] == key);
    lemma_walk_quiet(g, s, w, none, no_next);
    assert forall|q: RefModel| #[trigger] green_at(t, q) implies t.at(
        q.service,
    ).state is Running && all_green_at(t, probe_at(t, q)->0.depends_on) by {
        law_recovery_keeps_failures(g, key, s, changes, q);
        assert(kept_or_moved(s, t, q, true));
        assert(green_at(s, q));
        assert(probe_at(t, q) == probe_at(s, q));
        assert(t.has(q.service));
        let deps = probe_at(t, q)->0.depends_on;
        assert(all_green_at(s, deps));
        assert forall|i: int| 0 <= i < deps.len() implies green_at(t, #[trigger] deps[i]) by {
            assert(green_at(s, deps[i]));
            assert(probe_at(t, deps[i]) == probe_at(s, deps[i]));
        }
    }
}

/// A probe that keeps its state leaves health as it was.
proof fn lemma_set_same_state(s: ServicesModel, r: RefModel, p: ProbeModel)
    requires
        healthy(s),
        probe_at(s, r) is Some,
        p.depends_on == probe_at(s, r)->0.depends_on,
        p.state == probe_at(s, r)->0.state || !(p.state is Green) && !green_at(s, r),
    ensures
        healthy(set_probe(s, r, p)),
{
    let t = set_probe(s, r, p);
    lemma_set_probe(s, r, p);
    assert forall|q: RefModel| #[trigger] green_at(t, q) == green_at(s, q) by {
        if q != r {
            assert(probe_at(t, q) == probe_at(s, q));
        }
    }
    assert forall|q: RefModel| #[trigger] green_at(t, q) implies t.at(
        q.service,
    ).state is Running && all_green_at(t, probe_at(t, q)->0.depends_on) by {
        assert(green_at(s, q));
        assert(s.has(q.service));
        assert(only_probes_differ(s.at(q.service), t.at(q.service)));
        let deps = probe_at(t, q)->0.depends_on;
        assert(deps == probe_at(s, q)->0.depends_on) by {
            if q != r {
                assert(probe_at(t, q) == probe_at(s, q));
            }
        }
        assert(all_green_at(s, deps));
        assert forall|i: int| 0 <= i < deps.len() implies green_at(t, #[trigger] deps[i]) by {
            assert(green_at(s, deps[i]));
        }
    }
}

/// A probe of a running service may turn green when all that it depends on is green.
proof fn lemma_set_green(s: ServicesModel, r: RefModel, p: ProbeModel)
    requires
        healthy(s),
        probe_at(s, r) is Some,
        s.at(r.service).state is Running,
        p.depends_on == probe_at(s, r)->0.depends_on,
        p.state is Green,
        all_green_at(s, p.depends_on),
    ensures
        healthy(set_probe(s, r, p)),
        !green_at(s, r) ==> nothing_behind(set_probe(s, r, p), r),
{
    let t = set_probe(s, r, p);
    lemma_set_probe(s, r, p);
    assert forall|q: RefModel| #[trigger] green_at(t, q) == (q == r || green_at(s, q)) by {
        if q != r {
            assert(probe_at(t, q) == probe_at(s, q));
        }
    }
    assert forall|q: RefModel| #[trigger] green_at(t, q) implies t.at(
        q.service,
    ).state is Running && all_green_at(t, probe_at(t, q)->0.depends_on) by {
        assert(s.has(q.service)) by {
            if q != r {
                assert(green_at(s, q));
            }
        }
        assert(only_probes_differ(s.at(q.service), t.at(q.service)));
        let deps = probe_at(t, q)->0.depends_on;
        assert(all_green_at(s, deps)) by {
            if q != r {
                assert(probe_at(t, q) == probe_at(s, q));
                assert(green_at(s, q));
            }
        }
        assert forall|i: int| 0 <= i < deps.len() implies green_at(t, #[trigger] deps[i]) by {
            assert(green_at(s, deps[i]));
        }
    }
    if !green_at(s, r) {
        assert forall|q: RefModel, i: int|
            #![trigger probe_at(t, q)->0.depends_on[i]]
            green_at(t, q) && 0 <= i < probe_at(t, q)->0.depends_on.len() implies probe_at(
            t,
            q,
        )->0.depends_on[i] != r by {
            let deps = probe_at(t, q)->0.depends_on;
            assert(all_green_at(s, deps)) by {
                if q != r {
                    assert(probe_at(t, q) == probe_at(s, q));
                    assert(green_at(s, q));
                }
            }
            assert(green_at(s, deps[i]));
        }
    }
}

/// A probe that is no longer green leaves health as it was, but for what depends on it.
pub proof fn lemma_set_not_green(s: ServicesModel, r: RefModel, p: ProbeModel)
    requires
        healthy(s),
        probe_at(s, r) is Some,
        p.depends_on == probe_at(s, r)->0.depends_on,
        !(p.state is Green),
    ensures
        healthy_but(set_probe(s, r, p), Set::<RefModel>::empty().insert(r)),
        !green_at(set_probe(s, r, p), r),
{
    let t = set_probe(s, r, p);
    let dirty = Set::<RefModel>::empty().insert(r);
    lemma_set_probe(s, r, p);
    assert forall|q: RefModel| #[trigger] green_at(t, q) implies ({
        &&& t.at(q.service).state is Running
        &&& forall|i: int|
            0 <= i < probe_at(t, q)->0.depends_on.len() ==> green_at(
                t,
                #[trigger] probe_at(t, q)->0.depends_on[i],
            ) || dirty.contains(probe_at(t, q)->0.depends_on[i])
    }) by {
        assert(q != r);
        assert(probe_at(t, q) == probe_at(s, q));
        assert(green_at(s, q));
        assert(s.has(q.service));
        assert(only_probes_differ(s.at(q.service), t.at(q.service)));
        let deps = probe_at(t, q)->0.depends_on;
        assert(all_green_at(s, deps));
        assert forall|i: int| 0 <= i < deps.len() implies green_at(
            t,
            #[trigger] probe_at(t, q)->0.depends_on[i],
        ) || dirty.contains(probe_at(t, q)->0.depends_on[i]) by {
            assert(green_at(s, deps[i]));
            if deps[i] != r {
                assert(probe_at(t, deps[i]) == probe_at(s, deps[i]));
            }
        }
    }
}

proof fn lemma_take_on(
    g: Layer,
    s: ServicesModel,
    report: Report,
    r: RefModel,
    state: StateModel,
    ms: u64,
    error: Option<Str>,
)
    requires
        in_order(g, s),
        healthy(s),
        probe_at(s, r) is Some,
        s.at(r.service).state is Running,
        state is Green ==> all_green_at(s, probe_at(s, r)->0.depends_on),
        state is Pending ==> !green_at(s, r),
    ensures
        healthy(take_on(g, s, report, r, state, ms, error).services),
        steady(s, take_on(g, s, report, r, state, ms, error).services),
{
    let p = probe_at(s, r)->0;
    let now = ProbeModel {
        state,
        prev_color: Some(p.state.color()),
        last_probe_ms: Some(ms),
        last_error: error,
        ..p
    };
    let next = set_probe(s, r, now);
    lemma_set_probe(s, r, now);
    lemma_set_steady(s, r, now);
    lemma_same_probes_in_order(g, s, next);
    if state is Green {
        lemma_set_green(s, r, now);
        if !(p.state is Green) {
            lemma_recovery_heals(g, r, next, Seq::empty());
            lemma_recovery_steady(g, r.text(), next, Seq::empty());
            lemma_steady_trans(
                s,
                next,
                recovery_result(g, r.text(), next, Seq::empty()).services,
            );
        }
    } else if state is Red && !(p.state is Red) {
        lemma_set_not_green(s, r, now);
        lemma_pending_heals(g, r, next, Seq::empty(), Set::empty());
        lemma_pending_steady(g, r.text(), next, Seq::empty());
        let after = pending_result(g, r.text(), next, Seq::empty()).services;
        lemma_healthy(after);
        lemma_steady_trans(s, next, after);
    } else {
        lemma_set_same_state(s, r, now);
    }
}

/// Whether an outcome comes too late, or from a service that runs.
pub open spec fn timely(s: ServicesModel, r: RefModel, o: OutcomeModel) -> bool {
    stale(s, r, o) || probe_at(s, r) is Some && s.at(r.service).state is Running
}

pub proof fn lemma_apply_heals(
    g: Layer,
    s: ServicesModel,
    report: Report,
    r: RefModel,
    o: OutcomeModel,
)
    requires
        in_order(g, s),
        healthy(s),
        timely(s, r, o),
    ensures
        healthy(apply_outcome(g, s, report, r, o).services),
        steady(s, apply_outcome(g, s, report, r, o).services),
{
    if !stale(s, r, o) {
        let told = Report {
            events: report.events + attempt_events(r, o),
            statuses: report.statuses,
        };
        let (state, ms, error) = judged(s, r, o);
        let deps = probe_at(s, r)->0.depends_on;
        law_green_needs_green(s, deps);
        lemma_take_on(g, s, told, r, state, ms, error);
        let step = take_on(g, s, told, r, state, ms, error);
        let done = keep_line(step, r, o);
        if o.matched_lines.len() > 0 {
            if let Some(q) = probe_at(step.services, r) {
                let kept = ProbeModel { last_log_match: Some(o.matched_lines.last()), ..q };
                lemma_set_same_state(step.services, r, kept);
                lemma_set_steady(step.services, r, kept);
                lemma_steady_trans(s, step.services, done.services);
            }
        }
    }
}

/// A green probe is satisfied.
pub proof fn lemma_green_satisfied(s: ServicesModel, q: RefModel)
    requires
        acyclic(s),
        healthy(s),
        green_at(s, q),
    ensures
        satisfied(s, q),
    decreases rank_of(s, q),
{
    let deps = probe_at(s, q)->0.depends_on;
    assert(all_green_at(s, deps));
    assert forall|i: int| 0 <= i < probe_at(s, q)->0.depends_on.len() implies satisfied(
        s,
        #[trigger] probe_at(s, q)->0.depends_on[i],
    ) by {
        assert(green_at(s, deps[i]));
        let rank = choose|rank: spec_fn(RefModel) -> nat| ranked_by(s, rank);
        assert(rank(probe_at(s, q)->0.depends_on[i]) < rank(q));
        lemma_green_satisfied(s, deps[i]);
    }
}

/// A meta probe is to be green just where all that it depends on is.
pub proof fn lemma_meta_state(s: ServicesModel, r: RefModel)
    requires
        acyclic(s),
        healthy(s),
        probe_at(s, r) is Some,
    ensures
        meta_state(s, r) is Green <==> all_green_at(s, probe_at(s, r)->0.depends_on),
{
    let deps = probe_at(s, r)->0.depends_on;
    law_meta_state(s, r);
    if all_green_at(s, deps) {
        assert forall|i: int| 0 <= i < probe_at(s, r)->0.depends_on.len() implies satisfied(
            s,
            #[trigger] probe_at(s, r)->0.depends_on[i],
        ) by {
            assert(green_at(s, deps[i]));
            lemma_green_satisfied(s, deps[i]);
        }
    }
    if deps_satisfied(s, r) {
        assert forall|i: int| 0 <= i < deps.len() implies green_at(s, #[trigger] deps[i]) by {
            assert(satisfied(s, probe_at(s, r)->0.depends_on[i]));
        }
    }
}

pub proof fn lemma_update_meta_heals(g: Layer, at: Progress, r: RefModel)
    requires
        in_order(g, at.services),
        healthy(at.services),
        probe_at(at.services, r) matches Some(p) && p.probe_config is Meta,
    ensures
        healthy(update_meta(at, r).services),
        steady(at.services, update_meta(at, r).services),
{
    let s = at.services;
    let p = probe_at(s, r)->0;
    let state = meta_state(s, r);
    lemma_meta_state(s, r);
    lemma_set_steady(s, r, moved(p, state));
    if state is Green {
        let i = choose|i: int|
            0 <= i < probe_at(s, r)->0.depends_on.len() && (
            #[trigger] probe_at(s, r)->0.depends_on[i]).service == r.service;
        assert(green_at(s, p.depends_on[i]));
        lemma_set_green(s, r, moved(p, state));
    } else {
        lemma_set_same_state(s, r, moved(p, state));
    }
}

proof fn lemma_update_metas_heals(g: Layer, at: Progress, svc: Str, names: Seq<Str>)
    requires
        in_order(g, at.services),
        healthy(at.services),
        forall|i: int|
            0 <= i < names.len() ==> (probe_at(
                at.services,
                RefModel { service: svc, probe: #[trigger] names[i] },
            ) matches Some(p) && p.probe_config is Meta),
    ensures
        healthy(update_metas(at, svc, names).services),
        steady(at.services, update_metas(at, svc, names).services),
    decreases names.len(),
{
    if names.len() > 0 {
        let front = names.drop_last();
        assert forall|i: int| 0 <= i < front.len() implies (probe_at(
            at.services,
            RefModel { service: svc, probe: #[trigger] front[i] },
        ) matches Some(p) && p.probe_config is Meta) by {
            assert(front[i] == names[i]);
        }
        lemma_update_metas_heals(g, at, svc, front);
        let before = update_metas(at, svc, front);
        let r = RefModel { service: svc, probe: names[names.len() - 1] };
        lemma_same_probes_in_order(g, at.services, before.services);
        assert(probe_at(at.services, r) is Some);
        let m = probe_at(before.services, r);
        lemma_update_meta_heals(g, before, r);
        lemma_steady_trans(at.services, before.services, update_meta(before, r).services);
    }
}

pub proof fn lemma_meta_names(probes: crate::ordered_map::Table<ProbeModel>, keys: Seq<Str>)
    ensures
        forall|i: int|
            0 <= i < meta_names(probes, keys).len() ==> keys.contains(
                #[trigger] meta_names(probes, keys)[i],
            ) && probes.at(meta_names(probes, keys)[i]).probe_config is Meta,
    decreases keys.len(),
{
    if keys.len() > 0 {
        let front = keys.drop_last();
        lemma_meta_names(probes, front);
        let all = meta_names(probes, keys);
        assert forall|i: int| 0 <= i < all.len() implies keys.contains(#[trigger] all[i])
            && probes.at(all[i]).probe_config is Meta by {
            if i < meta_names(probes, front).len() {
                assert(all[i] == meta_names(probes, front)[i]);
                let j = choose|j: int| 0 <= j < front.len() && front[j] == all[i];
                assert(keys[j] == all[i]);
            } else {
                assert(all[i] == keys[keys.len() - 1]);
            }
        }
    }
}

pub proof fn lemma_steady_valid(a: ServicesModel, b: ServicesModel)
    requires
        all_valid(a),
        steady(a, b),
    ensures
        all_valid(b),
{
    assert forall|k: Str| #[trigger] b.map.contains_key(k) <==> b.keys.contains(k) by {
        assert(b.has(k) == a.has(k));
        assert(a.map.contains_key(k) <==> a.keys.contains(k));
    }
    assert forall|k: Str| #[trigger] b.has(k) implies b.at(k).probes.valid() by {
        assert(a.has(k));
        let (p, q) = (a.at(k).probes, b.at(k).probes);
        assert(same_service(a.at(k), b.at(k)));
        assert forall|x: Str| #[trigger] q.map.contains_key(x) <==> q.keys.contains(x) by {
            let r = RefModel { service: k, probe: x };
            let m = probe_at(b, r);
            assert(p.map.contains_key(x) <==> p.keys.contains(x));
            assert(probe_at(a, r) is Some <==> p.has(x));
            assert(probe_at(b, r) is Some <==> q.has(x));
        }
    }
}

pub proof fn lemma_update_service_heals(g: Layer, at: Progress, svc: Str)
    requires
        in_order(g, at.services),
        healthy(at.services),
        all_valid(at.services),
    ensures
        healthy(update_service(at, svc).services),
        steady(at.services, update_service(at, svc).services),
{
    if at.services.has(svc) {
        let probes = at.services.at(svc).probes;
        let names = meta_names(probes, probes.keys);
        lemma_meta_names(probes, probes.keys);
        assert(probes.valid());
        assert forall|i: int| 0 <= i < names.len() implies (probe_at(
            at.services,
            RefModel { service: svc, probe: #[trigger] names[i] },
        ) matches Some(p) && p.probe_config is Meta) by {
            assert(probes.keys.contains(names[i]));
            assert(probes.map.contains_key(names[i]));
        }
        lemma_update_metas_heals(g, at, svc, names);
    }
}

proof fn lemma_update_services_heals(g: Layer, at: Progress, svcs: Seq<Str>)
    requires
        in_order(g, at.services),
        healthy(at.services),
        all_valid(at.services),
    ensures
        healthy(update_services(at, svcs).services),
        steady(at.services, update_services(at, svcs).services),
    decreases svcs.len(),
{
    if svcs.len() > 0 {
        lemma_update_services_heals(g, at, svcs.drop_last());
        let before = update_services(at, svcs.drop_last());
        lemma_same_probes_in_order(g, at.services, before.services);
        lemma_steady_valid(at.services, before.services);
        lemma_update_service_heals(g, before, svcs.last());
        lemma_steady_trans(
            at.services,
            before.services,
            update_service(before, svcs.last()).services,
        );
    }
}

/// Whether health can be kept: the tables are valid, and the graph and the probes fit together.
pub open spec fn sound(g: Layer, s: ServicesModel) -> bool {
    all_valid(s) && in_order(g, s) && healthy(s)
}

pub proof fn lemma_steady_sound(g: Layer, a: ServicesModel, b: ServicesModel)
    requires
        sound(g, a),
        steady(a, b),
        healthy(b),
    ensures
        sound(g, b),
{
    lemma_steady_valid(a, b);
    lemma_same_probes_in_order(g, a, b);
}

/// Whether each outcome of a batch comes too late, or from a service that runs.
pub open spec fn all_timely(s: ServicesModel, batch: Seq<(RefModel, OutcomeModel)>) -> bool {
    forall|i: int|
        0 <= i < batch.len() ==> timely(s, (#[trigger] batch[i]).0, batch[i].1)
            && !batch[i].0.service.contains('.')
}

pub proof fn lemma_still_timely(a: ServicesModel, b: ServicesModel, r: RefModel, o: OutcomeModel)
    requires
        steady(a, b),
        timely(a, r, o),
    ensures
        timely(b, r, o),
{
    assert(b.has(r.service) == a.has(r.service));
    if a.has(r.service) {
        assert(same_service(a.at(r.service), b.at(r.service)));
    }
    let m = probe_at(b, r);
}

pub proof fn lemma_all_still_timely(
    a: ServicesModel,
    b: ServicesModel,
    batch: Seq<(RefModel, OutcomeModel)>,
)
    requires
        steady(a, b),
        all_timely(a, batch),
    ensures
        all_timely(b, batch),
{
    assert forall|i: int| 0 <= i < batch.len() implies timely(b, (#[trigger] batch[i]).0, batch[i].1)
        && !batch[i].0.service.contains('.') by {
        lemma_still_timely(a, b, batch[i].0, batch[i].1);
    }
}

pub proof fn lemma_last_timely(s: ServicesModel, batch: Seq<(RefModel, OutcomeModel)>, key: Str)
    requires
        all_timely(s, batch),
        last_outcome(batch, key) is Some,
    ensures
        parse_ref(key) is Some,
        timely(s, parse_ref(key)->0, last_outcome(batch, key)->0),
    decreases batch.len(),
{
    let last = batch[batch.len() - 1];
    if last.0.text() == key {
        lemma_ref_round_trip(last.0);
        assert(timely(s, last.0, last.1));
    } else {
        let front = batch.drop_last();
        assert forall|i: int| 0 <= i < front.len() implies timely(
            s,
            (#[trigger] front[i]).0,
            front[i].1,
        ) && !front[i].0.service.contains('.') by {
            assert(front[i] == batch[i]);
        }
        lemma_last_timely(s, front, key);
    }
}

pub proof fn lemma_in_order_heals(
    g: Layer,
    batch: Seq<(RefModel, OutcomeModel)>,
    order: Seq<Str>,
    st: Step,
)
    requires
        sound(g, st.services),
        all_timely(st.services, batch),
    ensures
        sound(g, apply_in_order(g, batch, order, st).services),
        steady(st.services, apply_in_order(g, batch, order, st).services),
    decreases order.len(),
{
    if order.len() > 0 {
        lemma_in_order_heals(g, batch, order.drop_last(), st);
        let before = apply_in_order(g, batch, order.drop_last(), st);
        if let Some(o) = last_outcome(batch, order.last()) {
            lemma_all_still_timely(st.services, before.services, batch);
            lemma_last_timely(before.services, batch, order.last());
            let r = parse_ref(order.last())->0;
            lemma_apply_heals(g, before.services, before.report, r, o);
            let after = apply_outcome(g, before.services, before.report, r, o).services;
            lemma_steady_sound(g, before.services, after);
            lemma_steady_trans(st.services, before.services, after);
        }
    }
}

pub proof fn lemma_again_heals(
    g: Layer,
    batch: Seq<(RefModel, OutcomeModel)>,
    order: Seq<Str>,
    st: Step,
)
    requires
        sound(g, st.services),
        all_timely(st.services, batch),
    ensures
        sound(g, apply_again(g, batch, order, st).0.services),
        steady(st.services, apply_again(g, batch, order, st).0.services),
    decreases order.len(),
{
    if order.len() > 0 {
        lemma_again_heals(g, batch, order.drop_last(), st);
        let before = apply_again(g, batch, order.drop_last(), st).0;
        if let Some(o) = last_outcome(batch, order.last()) {
            lemma_all_still_timely(st.services, before.services, batch);
            lemma_last_timely(before.services, batch, order.last());
            let r = parse_ref(order.last())->0;
            lemma_apply_heals(g, before.services, before.report, r, o);
            let after = apply_outcome(g, before.services, before.report, r, o).services;
            lemma_steady_sound(g, before.services, after);
            lemma_steady_trans(st.services, before.services, after);
        }
    }
}

pub proof fn lemma_affected_heals(g: Layer, st: Step)
    requires
        sound(g, st.services),
    ensures
        sound(g, update_affected(st).services),
        steady(st.services, update_affected(st).services),
{
    let at = Progress { services: st.services, report: st.report };
    lemma_update_services_heals(g, at, st.affected);
    lemma_steady_sound(g, st.services, update_services(at, st.affected).services);
}

proof fn lemma_settle_heals(
    g: Layer,
    batch: Seq<(RefModel, OutcomeModel)>,
    order: Seq<Str>,
    st: Step,
    n: nat,
)
    requires
        sound(g, st.services),
        all_timely(st.services, batch),
    ensures
        sound(g, settle(g, batch, order, st, n).services),
        steady(st.services, settle(g, batch, order, st, n).services),
    decreases n,
{
    if n > 0 {
        lemma_affected_heals(g, st);
        let fresh = update_affected(st);
        lemma_all_still_timely(st.services, fresh.services, batch);
        lemma_again_heals(g, batch, order, fresh);
        let (next, any) = apply_again(g, batch, order, fresh);
        lemma_steady_trans(st.services, fresh.services, next.services);
        if any || fresh.report.events.len() != st.report.events.len() {
            lemma_all_still_timely(st.services, next.services, batch);
            lemma_settle_heals(g, batch, order, next, (n - 1) as nat);
            lemma_steady_trans(
                st.services,
                next.services,
                settle(g, batch, order, next, (n - 1) as nat).services,
            );
        }
    }
}

pub proof fn lemma_batch_heals(
    g: Layer,
    batch: Seq<(RefModel, OutcomeModel)>,
    order: Seq<Str>,
    st: Step,
)
    requires
        sound(g, st.services),
        all_timely(st.services, batch),
    ensures
        sound(g, resolve_batch(g, batch, order, st).services),
        steady(st.services, resolve_batch(g, batch, order, st).services),
{
    lemma_in_order_heals(g, batch, order, st);
    let first = apply_in_order(g, batch, order, st);
    lemma_all_still_timely(st.services, first.services, batch);
    lemma_settle_heals(g, batch, order, first, round_limit(order.len()));
    lemma_steady_trans(
        st.services,
        first.services,
        settle(g, batch, order, first, round_limit(order.len())).services,
    );
}

/// Passing the recovery of a probe that is not green on keeps health.
pub proof fn lemma_recovery_keeps_health(
    g: Layer,
    r: RefModel,
    s: ServicesModel,
    changes: Seq<ChangeModel>,
)
    requires
        linked(g, s),
        healthy(s),
        !r.service.contains('.'),
        !green_at(s, r),
    ensures
        healthy(recovery_result(g, r.text(), s, changes).services),
        forall|q: RefModel| #[trigger]
            green_at(recovery_result(g, r.text(), s, changes).services, q) ==> green_at(s, q),
{
    assert forall|q: RefModel, i: int|
        #![trigger probe_at(s, q)->0.depends_on[i]]
        green_at(s, q) && 0 <= i < probe_at(s, q)->0.depends_on.len() implies probe_at(
        s,
        q,
    )->0.depends_on[i] != r by {
        let deps = probe_at(s, q)->0.depends_on;
        assert(all_green_at(s, deps));
        assert(green_at(s, deps[i]));
    }
    lemma_recovery_heals(g, r, s, changes);
    let t = recovery_result(g, r.text(), s, changes).services;
    assert forall|q: RefModel| #[trigger] green_at(t, q) implies green_at(s, q) by {
        law_recovery_keeps_failures(g, r.text(), s, changes, q);
        assert(kept_or_moved(s, t, q, true));
    }
}

} // verus!
