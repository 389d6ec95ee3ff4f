//! All is healthy at the start.
use crate::acyclic::{law_built_graph_acyclic, lemma_edge, lemma_parsed};
use crate::app_state::AppModel;
use crate::config::{ConfigModel, ProbeEntryModel};
use crate::converge::all_known;
use crate::digraph::targets_of;
use crate::docker::ContainerInfo;
use crate::graph::{
    dep_edges, dep_edges_in, dep_edges_of, graph_of, index_of, lemma_index, lemma_probe_keys,
    probe_keys, Edge, Layer,
};
use crate::health::{
    all_valid, healthy, in_order, lemma_same_probes_in_order, lemma_set_steady,
    lemma_steady_trans, lemma_steady_valid, linked, metas_at_home, sound, steady,
};
use crate::model::{lemma_ref_round_trip, lemma_ref_text, parse_ref, parse_refs, RefModel};
use crate::ordered_map::lemma_put_valid;
use crate::plan::{can_be_checked, init_probes, init_services};
use crate::prepare::with_ready;
use crate::propagate::lemma_text_parses;
use crate::propagate_laws::lemma_set_probe;
use crate::runtime::{first_services, green_at, probe_at, set_probe, ServicesModel};
use crate::startup::container_noted;
use crate::text::Str;
use vstd::prelude::*;

verus! {

proof fn lemma_target(es: Seq<Edge>, i: usize, j: usize)
    ensures
        targets_of(es, i).contains(j) <==> es.contains((i, j)),
    decreases es.len(),
{
    if es.len() > 0 {
        let front = es.drop_last();
        let last = es[es.len() - 1];
        lemma_target(front, i, j);
        let all = targets_of(es, i);
        let rest = targets_of(front, i);
        if es.contains((i, j)) {
            let e = choose|e: int| 0 <= e < es.len() && es[e] == (i, j);
            if e < front.len() {
                assert(front[e] == (i, j));
                let k = choose|k: int| 0 <= k < rest.len() && rest[k] == j;
                assert(all[if last.0 == i {
                    k + 1
                } else {
                    k
                }] == j);
            } else {
                assert(all[0] == j);
            }
        }
        if all.contains(j) {
            let k = choose|k: int| 0 <= k < all.len() && all[k] == j;
            if last.0 == i && k == 0 {
                assert(es[es.len() - 1] == (i, j));
            } else {
                assert(rest[if last.0 == i {
                    k - 1
                } else {
                    k
                }] == j);
                let e = choose|e: int| 0 <= e < front.len() && front[e] == (i, j);
                assert(es[e] == (i, j));
            }
        }
    }
}

/// Each edge of a probe is there because of one of its dependencies.
proof fn lemma_cause_of(all: Seq<Str>, key: Str, deps: Seq<Str>, e: Edge) -> (i: int)
    requires
        dep_edges_of(all, key, deps) is Ok,
        dep_edges_of(all, key, deps)->Ok_0.contains(e),
    ensures
        0 <= i < deps.len(),
        all.contains(deps[i]),
        e == (index_of(all).at(deps[i]), index_of(all).at(key)),
    decreases deps.len(),
{
    let front = deps.drop_last();
    let es = dep_edges_of(all, key, deps)->Ok_0;
    let before = dep_edges_of(all, key, front)->Ok_0;
    let n = choose|n: int| 0 <= n < es.len() && es[n] == e;
    if n < before.len() {
        assert(before[n] == e);
        let i = lemma_cause_of(all, key, front, e);
        assert(front[i] == deps[i]);
        i
    } else {
        deps.len() - 1
    }
}

proof fn lemma_cause_in(
    c: ConfigModel,
    all: Seq<Str>,
    svc: Str,
    probes: Seq<Str>,
    e: Edge,
) -> (at: (int, int))
    requires
        dep_edges_in(c, all, svc, probes) is Ok,
        dep_edges_in(c, all, svc, probes)->Ok_0.contains(e),
    ensures
        0 <= at.0 < probes.len(),
        ({
            let deps = c.services.at(svc).probes.at(probes[at.0]).depends_on;
            let key = (RefModel { service: svc, probe: probes[at.0] }).text();
            &&& 0 <= at.1 < deps.len()
            &&& all.contains(deps[at.1])
            &&& e == (index_of(all).at(deps[at.1]), index_of(all).at(key))
        }),
    decreases probes.len(),
{
    let front = probes.drop_last();
    let es = dep_edges_in(c, all, svc, probes)->Ok_0;
    let before = dep_edges_in(c, all, svc, front)->Ok_0;
    let n = choose|n: int| 0 <= n < es.len() && es[n] == e;
    if n < before.len() {
        assert(before[n] == e);
        let at = lemma_cause_in(c, all, svc, front, e);
        assert(front[at.0] == probes[at.0]);
        at
    } else {
        let last = probes[probes.len() - 1];
        let key = (RefModel { service: svc, probe: last }).text();
        let deps = c.services.at(svc).probes.at(last).depends_on;
        let more = dep_edges_of(all, key, deps)->Ok_0;
        assert(more[n - before.len()] == e);
        let i = lemma_cause_of(all, key, deps, e);
        (probes.len() - 1, i)
    }
}

proof fn lemma_cause(c: ConfigModel, all: Seq<Str>, svcs: Seq<Str>, e: Edge) -> (at: (
    int,
    int,
    int,
))
    requires
        dep_edges(c, all, svcs) is Ok,
        dep_edges(c, all, svcs)->Ok_0.contains(e),
    ensures
        0 <= at.0 < svcs.len(),
        ({
            let probes = c.services.at(svcs[at.0]).probes;
            let deps = probes.at(probes.keys[at.1]).depends_on;
            let key = (RefModel { service: svcs[at.0], probe: probes.keys[at.1] }).text();
            &&& 0 <= at.1 < probes.keys.len()
            &&& 0 <= at.2 < deps.len()
            &&& all.contains(deps[at.2])
            &&& e == (index_of(all).at(deps[at.2]), index_of(all).at(key))
        }),
    decreases svcs.len(),
{
    let front = svcs.drop_last();
    let es = dep_edges(c, all, svcs)->Ok_0;
    let before = dep_edges(c, all, front)->Ok_0;
    let n = choose|n: int| 0 <= n < es.len() && es[n] == e;
    if n < before.len() {
        assert(before[n] == e);
        let at = lemma_cause(c, all, front, e);
        assert(front[at.0] == svcs[at.0]);
        at
    } else {
        let last = svcs[svcs.len() - 1];
        let keys = c.services.at(last).probes.keys;
        let more = dep_edges_in(c, all, last, keys)->Ok_0;
        assert(more[n - before.len()] == e);
        let (j, i) = lemma_cause_in(c, all, last, keys, e);
        (svcs.len() - 1, j, i)
    }
}

proof fn lemma_parsed_all(list: Seq<Str>, i: int) -> (k: int)
    requires
        0 <= i < list.len(),
        parse_ref(list[i]) is Some,
    ensures
        0 <= k < parse_refs(list).len(),
        parse_refs(list)[k] == parse_ref(list[i])->0,
    decreases list.len(),
{
    let front = list.drop_last();
    if i < list.len() - 1 {
        assert(front[i] == list[i]);
        let k = lemma_parsed_all(front, i);
        assert(parse_refs(list)[k] == parse_refs(front)[k]);
        k
    } else {
        parse_refs(front).len() as int
    }
}

proof fn lemma_keys_parse(c: ConfigModel, svcs: Seq<Str>, key: Str)
    requires
        probe_keys(c, svcs).contains(key),
    ensures
        parse_ref(key) is Some,
    decreases svcs.len(),
{
    if svcs.len() > 0 {
        let front = svcs.drop_last();
        let last = svcs[svcs.len() - 1];
        let all = probe_keys(c, svcs);
        let before = probe_keys(c, front);
        let n = choose|n: int| 0 <= n < all.len() && all[n] == key;
        if n < before.len() {
            assert(before[n] == key);
            lemma_keys_parse(c, front, key);
        } else {
            let probe = c.services.at(last).probes.keys[n - before.len()];
            lemma_text_parses(RefModel { service: last, probe });
        }
    }
}

/// Where the graph of a configuration could be built, an edge leads from a probe to another
/// just where the other depends on it.
pub proof fn law_built_graph_linked(c: ConfigModel)
    requires
        graph_of(c) is Ok,
        graph_of(c)->Ok_0.valid(),
        c.services.valid(),
        forall|k: Str| #[trigger] c.services.has(k) ==> c.services.at(k).probes.valid(),
        forall|k: Str| #[trigger] c.services.has(k) ==> !k.contains('.'),
    ensures
        linked(graph_of(c)->Ok_0.probes, first_services(c)),
{
    let g = graph_of(c)->Ok_0.probes;
    let svcs = c.services.keys;
    let all = probe_keys(c, svcs);
    let edges = g.edges;
    let s = first_services(c);
    lemma_index(all);
    assert(dep_edges(c, all, svcs) == Ok::<_, Str>(edges));
    assert forall|q: RefModel, k: int|
        #![trigger probe_at(s, q)->0.depends_on[k]]
        probe_at(s, q) is Some && 0 <= k < probe_at(s, q)->0.depends_on.len() implies g.next(
        probe_at(s, q)->0.depends_on[k].text(),
    ).contains(q.text()) && !probe_at(s, q)->0.depends_on[k].service.contains('.') by {
        let dep = probe_at(s, q)->0.depends_on[k];
        assert(c.services.has(q.service));
        assert(svcs.contains(q.service));
        let n = choose|n: int| 0 <= n < svcs.len() && svcs[n] == q.service;
        let probes = c.services.at(q.service).probes;
        assert(probes.has(q.probe));
        assert(probes.keys.contains(q.probe));
        let j = choose|j: int| 0 <= j < probes.keys.len() && probes.keys[j] == q.probe;
        let deps = probes.at(q.probe).depends_on;
        assert(probe_at(s, q)->0.depends_on == parse_refs(deps));
        let i = lemma_parsed(deps, k);
        lemma_ref_text(deps[i]);
        lemma_edge(c, all, svcs, n, j, i);
        lemma_probe_keys(c, svcs, n);
        assert(all.contains(crate::graph::keys_in(svcs[n], probes.keys)[j]));
        let from = index_of(all).at(dep.text());
        let to = index_of(all).at(q.text());
        assert(index_of(all).has(dep.text()));
        assert(index_of(all).has(q.text()));
        lemma_target(edges, from, to);
        let ts = targets_of(edges, from);
        let x = choose|x: int| 0 <= x < ts.len() && ts[x] == to;
        assert(g.next(dep.text())[x] == q.text());
    }
    assert forall|k: Str, q: RefModel|
        #![trigger g.next(k).contains(q.text())]
        probe_at(s, q) is Some && g.next(k).contains(q.text()) implies exists|i: int|
        0 <= i < probe_at(s, q)->0.depends_on.len() && (
        #[trigger] probe_at(s, q)->0.depends_on[i]).text() == k by {
        assert(g.has(k));
        let ts = targets_of(edges, g.node(k));
        let x = choose|x: int| 0 <= x < g.next(k).len() && g.next(k)[x] == q.text();
        let e = (g.node(k), ts[x]);
        assert(ts.contains(ts[x]));
        lemma_target(edges, g.node(k), ts[x]);
        let (n, j, i) = lemma_cause(c, all, svcs, e);
        let probes = c.services.at(svcs[n]).probes;
        let r = RefModel { service: svcs[n], probe: probes.keys[j] };
        let deps = probes.at(r.probe).depends_on;
        assert(svcs.contains(svcs[n]));
        assert(c.services.has(svcs[n]));
        lemma_probe_keys(c, svcs, n);
        assert(all.contains(crate::graph::keys_in(svcs[n], probes.keys)[j]));
        assert(index_of(all).has(r.text()));
        assert(all[ts[x] as int] == r.text());
        lemma_ref_round_trip(r);
        assert(c.services.has(q.service));
        lemma_ref_round_trip(q);
        assert(r == q);
        assert(index_of(all).has(deps[i]));
        assert(deps[i] == k);
        lemma_keys_parse(c, svcs, k);
        let m = lemma_parsed_all(deps, i);
        lemma_ref_text(k);
        assert(probe_at(s, q)->0.depends_on == parse_refs(deps));
        assert(probe_at(s, q)->0.depends_on[m].text() == k);
    }
    assert forall|q: RefModel| #[trigger] probe_at(s, q) is Some implies !q.service.contains(
        '.',
    ) by {
        assert(c.services.has(q.service));
    }
}

/// Whether no probe is green.
pub open spec fn none_green(s: ServicesModel) -> bool {
    forall|q: RefModel| !(#[trigger] green_at(s, q))
}

/// Whether the tables are valid, the graph and the probes fit together, and no probe is green.
pub open spec fn unchecked(g: Layer, s: ServicesModel) -> bool {
    all_valid(s) && in_order(g, s) && none_green(s)
}

/// Whether the probe `p` of the service `svc` depends on a probe of that service.
pub open spec fn needs_own(svc: Str, p: ProbeEntryModel) -> bool {
    exists|i: int|
        0 <= i < p.depends_on.len() && (parse_ref(#[trigger] p.depends_on[i]) matches Some(r)
            && r.service == svc)
}

/// Each meta probe depends on a probe of its own service once the `ready` probes are added, if
/// each that was given does.
pub proof fn law_ready_at_home(before: ConfigModel, c: ConfigModel)
    requires
        forall|k: Str| #[trigger]
            before.services.has(k) ==> before.services.at(k).probes.valid() && !k.contains('.'),
        forall|k: Str, p: Str|
            before.services.has(k) && (#[trigger] before.services.at(k).probes.has(p))
                && before.services.at(k).probes.at(p).probe is Meta ==> needs_own(
                k,
                before.services.at(k).probes.at(p),
            ),
        forall|k: Str| #[trigger] c.services.has(k) ==> before.services.has(k),
        forall|k: Str| #[trigger]
            c.services.has(k) ==> c.services.at(k).probes.map == with_ready(
                k,
                before.services.at(k).probes,
            ).map,
    ensures
        metas_at_home(first_services(c)),
{
    let s = first_services(c);
    assert forall|q: RefModel|
        (#[trigger] probe_at(s, q) matches Some(p) && p.probe_config is Meta) implies exists|
        i: int,
    |
        0 <= i < probe_at(s, q)->0.depends_on.len() && (
        #[trigger] probe_at(s, q)->0.depends_on[i]).service == q.service by {
        let svc = q.service;
        assert(c.services.has(svc));
        let given = before.services.at(svc).probes;
        let p = c.services.at(svc).probes.at(q.probe);
        let ready = with_ready(svc, given);
        assert(ready.has(q.probe) && ready.at(q.probe) == p);
        let i = if given.has(q.probe) {
            assert(given.at(q.probe) == p);
            choose|i: int|
                0 <= i < p.depends_on.len() && (parse_ref(
                    #[trigger] p.depends_on[i],
                ) matches Some(r) && r.service == svc)
        } else {
            lemma_ref_round_trip(RefModel { service: svc, probe: given.keys[0] });
            0
        };
        let k = lemma_parsed_all(p.depends_on, i);
        assert(probe_at(s, q)->0.depends_on == parse_refs(p.depends_on));
        assert(probe_at(s, q)->0.depends_on[k].service == svc);
    }
}

/// The state that is assembled from a configuration is in order, and no probe is green.
pub proof fn law_assembled_unchecked(c: ConfigModel)
    requires
        graph_of(c) is Ok,
        graph_of(c)->Ok_0.valid(),
        c.services.valid(),
        forall|k: Str| #[trigger] c.services.has(k) ==> c.services.at(k).probes.valid(),
        forall|k: Str| #[trigger] c.services.has(k) ==> !k.contains('.'),
        metas_at_home(first_services(c)),
    ensures
        unchecked(graph_of(c)->Ok_0.probes, first_services(c)),
{
    let s = first_services(c);
    law_built_graph_linked(c);
    law_built_graph_acyclic(c);
    assert forall|k: Str| #[trigger] s.map.contains_key(k) <==> s.keys.contains(k) by {
        assert(c.services.map.contains_key(k) <==> c.services.keys.contains(k));
    }
    assert forall|k: Str| #[trigger] s.has(k) implies s.at(k).probes.valid() by {
        let p = c.services.at(k).probes;
        let q = s.at(k).probes;
        assert(c.services.has(k));
        assert forall|x: Str| #[trigger] q.map.contains_key(x) <==> q.keys.contains(x) by {
            assert(p.map.contains_key(x) <==> p.keys.contains(x));
        }
    }
}

/// What is found out of containers at the start keeps it so.
pub proof fn law_noted_unchecked(a: AppModel, name: Str, info: Option<ContainerInfo>)
    requires
        unchecked(a.graph.probes, a.services),
    ensures
        unchecked(a.graph.probes, container_noted(a, name, info).services),
{
    let s = a.services;
    let t = container_noted(a, name, info).services;
    if s.has(name) {
        lemma_put_valid(s, name, t.at(name));
        assert forall|k: Str| #[trigger] t.has(k) implies t.at(k).probes.valid() by {
            assert(s.has(k));
        }
        assert forall|r: RefModel| #[trigger] probe_at(t, r) == probe_at(s, r) by {}
        lemma_same_probes_in_order(a.graph.probes, s, t);
        assert forall|q: RefModel| !(#[trigger] green_at(t, q)) by {
            assert(probe_at(t, q) == probe_at(s, q));
            assert(!green_at(s, q));
        }
    }
}

proof fn lemma_init_probes(s: ServicesModel, svc: Str, probes: Seq<Str>)
    requires
        none_green(s),
        s.has(svc),
        forall|i: int| 0 <= i < probes.len() ==> s.at(svc).probes.has(#[trigger] probes[i]),
    ensures
        none_green(init_probes(s, svc, probes)),
        steady(s, init_probes(s, svc, probes)),
    decreases probes.len(),
{
    if probes.len() > 0 {
        let front = probes.drop_last();
        assert forall|i: int| 0 <= i < front.len() implies s.at(svc).probes.has(
            #[trigger] front[i],
        ) by {
            assert(front[i] == probes[i]);
        }
        lemma_init_probes(s, svc, front);
        let so_far = init_probes(s, svc, front);
        let r = RefModel { service: svc, probe: probes[probes.len() - 1] };
        assert(probe_at(s, r) is Some);
        let m = probe_at(so_far, r);
        let p = probe_at(so_far, r)->0;
        let t = init_probes(s, svc, probes);
        let now = t.at(svc).probes.at(r.probe);
        assert(t == set_probe(so_far, r, now));
        lemma_set_probe(so_far, r, now);
        lemma_set_steady(so_far, r, now);
        lemma_steady_trans(s, so_far, t);
        assert forall|q: RefModel| !(#[trigger] green_at(t, q)) by {
            if q != r {
                assert(probe_at(t, q) == probe_at(so_far, q));
                assert(!green_at(so_far, q));
            }
        }
    }
}

proof fn lemma_init_services(s: ServicesModel, order: Seq<Str>)
    requires
        none_green(s),
        all_valid(s),
        all_known(s, order),
    ensures
        none_green(init_services(s, order)),
        steady(s, init_services(s, order)),
    decreases order.len(),
{
    if order.len() > 0 {
        let front = order.drop_last();
        assert forall|i: int| 0 <= i < front.len() implies s.has(#[trigger] front[i]) by {
            assert(front[i] == order[i]);
        }
        lemma_init_services(s, front);
        let so_far = init_services(s, front);
        let svc = order[order.len() - 1];
        assert(s.has(svc));
        assert(so_far.has(svc));
        lemma_steady_valid(s, so_far);
        if can_be_checked(so_far, svc) {
            let keys = so_far.at(svc).probes.keys;
            assert(so_far.at(svc).probes.valid());
            assert forall|i: int| 0 <= i < keys.len() implies so_far.at(svc).probes.has(
                #[trigger] keys[i],
            ) by {
                assert(keys.contains(keys[i]));
            }
            lemma_init_probes(so_far, svc, keys);
            lemma_steady_trans(s, so_far, init_probes(so_far, svc, keys));
        }
    }
}

/// All is healthy once the probes have their first state: no probe is green before it was
/// checked.
pub proof fn law_begin_is_healthy(a: AppModel)
    requires
        unchecked(a.graph.probes, a.services),
        all_known(a.services, a.graph.topo_order),
    ensures
        sound(a.graph.probes, init_services(a.services, a.graph.topo_order)),
        none_green(init_services(a.services, a.graph.topo_order)),
{
    let s = a.services;
    let t = init_services(s, a.graph.topo_order);
    lemma_init_services(s, a.graph.topo_order);
    lemma_steady_valid(s, t);
    lemma_same_probes_in_order(a.graph.probes, s, t);
    assert(healthy(t));
}

} // verus!
