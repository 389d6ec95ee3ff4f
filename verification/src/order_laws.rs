//! The orders of a graph hold each service and each probe once, each after what it needs.
use crate::acyclic::lemma_edge;
use crate::config::ConfigModel;
use crate::digraph::is_topo_order;
use crate::graph::{
    graph_of, index_of, keys_in, law_sorted, lemma_all_listed, lemma_index, lemma_probe_keys,
    names_of, probe_keys, sorted, start_edge, start_edges, start_edges_of, Edge, Layer,
};
use crate::model::{lemma_ref_round_trip, parse_ref, RefModel};
use crate::text::Str;
use vstd::prelude::*;

verus! {

/// Whether a key is that of a probe of one of some services.
pub open spec fn is_probe_key(c: ConfigModel, svcs: Seq<Str>, key: Str) -> bool {
    exists|svc: Str, p: Str|
        #![trigger c.services.at(svc).probes.keys.contains(p)]
        svcs.contains(svc) && c.services.at(svc).probes.keys.contains(p) && key == (RefModel {
            service: svc,
            probe: p,
        }).text()
}

proof fn lemma_keys_named(c: ConfigModel, svcs: Seq<Str>)
    ensures
        forall|key: Str| #[trigger]
            probe_keys(c, svcs).contains(key) <==> is_probe_key(c, svcs, key),
    decreases svcs.len(),
{
    let all = probe_keys(c, svcs);
    assert forall|key: Str| #[trigger] all.contains(key) <==> is_probe_key(c, svcs, key) by {
        if is_probe_key(c, svcs, key) {
            let (svc, p) = choose|svc: Str, p: Str|
                #![trigger c.services.at(svc).probes.keys.contains(p)]
                svcs.contains(svc) && c.services.at(svc).probes.keys.contains(p) && key
                    == (RefModel { service: svc, probe: p }).text();
            let probes = c.services.at(svc).probes.keys;
            let at = choose|at: int| 0 <= at < svcs.len() && svcs[at] == svc;
            let j = choose|j: int| 0 <= j < probes.len() && probes[j] == p;
            lemma_probe_keys(c, svcs, at);
            assert(all.contains(keys_in(svcs[at], c.services.at(svcs[at]).probes.keys)[j]));
        }
        if all.contains(key) {
            let front = svcs.drop_last();
            let last = svcs.last();
            let head = probe_keys(c, front);
            let probes = c.services.at(last).probes.keys;
            lemma_keys_named(c, front);
            let i = choose|i: int| 0 <= i < all.len() && all[i] == key;
            if i < head.len() {
                assert(head[i] == key);
                assert(head.contains(key));
                let (svc, p) = choose|svc: Str, p: Str|
                    #![trigger c.services.at(svc).probes.keys.contains(p)]
                    front.contains(svc) && c.services.at(svc).probes.keys.contains(p) && key
                        == (RefModel { service: svc, probe: p }).text();
                let k = choose|k: int| 0 <= k < front.len() && front[k] == svc;
                assert(svcs[k] == svc);
                assert(c.services.at(svc).probes.keys.contains(p));
            } else {
                let p = probes[i - head.len()];
                assert(svcs[svcs.len() - 1] == last);
                assert(c.services.at(last).probes.keys.contains(p));
            }
        }
    }
}

proof fn lemma_keys_once(c: ConfigModel, svcs: Seq<Str>)
    requires
        svcs.no_duplicates(),
        forall|i: int|
            0 <= i < svcs.len() ==> !(#[trigger] svcs[i]).contains('.') && c.services.at(
                svcs[i],
            ).probes.keys.no_duplicates(),
    ensures
        probe_keys(c, svcs).no_duplicates(),
    decreases svcs.len(),
{
    if svcs.len() > 0 {
        let front = svcs.drop_last();
        let last = svcs[svcs.len() - 1];
        let head = probe_keys(c, front);
        let probes = c.services.at(last).probes.keys;
        let all = probe_keys(c, svcs);
        assert(forall|i: int| 0 <= i < front.len() ==> #[trigger] front[i] == svcs[i]);
        lemma_keys_once(c, front);
        lemma_keys_named(c, front);
        assert forall|i: int, j: int| 0 <= i < all.len() && 0 <= j < all.len() && i != j implies
            all[i] != all[j] by {
            let (lo, hi) = if i < j {
                (i, j)
            } else {
                (j, i)
            };
            if hi >= head.len() {
                let x = RefModel { service: last, probe: probes[hi - head.len()] };
                lemma_ref_round_trip(x);
                if lo < head.len() {
                    assert(head.contains(head[lo]));
                    let (svc, p) = choose|svc: Str, p: Str|
                        #![trigger c.services.at(svc).probes.keys.contains(p)]
                        front.contains(svc) && c.services.at(svc).probes.keys.contains(p)
                            && head[lo] == (RefModel { service: svc, probe: p }).text();
                    let k = choose|k: int| 0 <= k < front.len() && front[k] == svc;
                    assert(svcs[k] == svc);
                    lemma_ref_round_trip(RefModel { service: svc, probe: p });
                    assert(svc != last);
                } else {
                    lemma_ref_round_trip(
                        RefModel { service: last, probe: probes[lo - head.len()] },
                    );
                }
            }
        }
    }
}

/// A sorted layer is told in an order that holds all of its names, each once where they
/// differ.
proof fn lemma_sorted_once(layer: Layer, order: Seq<Str>)
    requires
        sorted(layer, order),
        layer.nodes.len() <= u32::MAX,
    ensures
        order.len() == layer.nodes.len(),
        layer.nodes.no_duplicates() ==> order.no_duplicates(),
        forall|k: Str| #[trigger] order.contains(k) <==> layer.nodes.contains(k),
{
    let nodes = layer.nodes;
    let list = choose|list: Seq<usize>| #[trigger]
        is_topo_order(nodes.len(), layer.edges, list) && order == names_of(nodes, list);
    assert forall|i: int, j: int|
        nodes.no_duplicates() && 0 <= i < order.len() && 0 <= j < order.len() && i != j implies
        order[i] != order[j] by {
        assert(list[i] < nodes.len() && list[j] < nodes.len());
        assert(list[i] != list[j]);
        assert(nodes[list[i] as int] != nodes[list[j] as int]);
    }
    assert forall|k: Str| #[trigger] order.contains(k) <==> nodes.contains(k) by {
        if order.contains(k) {
            let i = choose|i: int| 0 <= i < order.len() && order[i] == k;
            assert(list[i] < nodes.len());
            assert(nodes[list[i] as int] == k);
        }
        if nodes.contains(k) {
            let i = choose|i: int| 0 <= i < nodes.len() && nodes[i] == k;
            lemma_all_listed(list, nodes.len(), i as usize);
            let j = choose|j: int| 0 <= j < list.len() && list[j] == i as usize;
            assert(order[j] == k);
        }
    }
}

proof fn lemma_start_edge_of(c: ConfigModel, svc: Str, deps: Seq<Str>, i: int)
    requires
        start_edges_of(c, svc, deps) is Ok,
        0 <= i < deps.len(),
    ensures
        start_edge(c, svc, deps[i]) is Ok,
        start_edges_of(c, svc, deps)->Ok_0.contains(start_edge(c, svc, deps[i])->Ok_0),
    decreases deps.len(),
{
    let es = start_edges_of(c, svc, deps)->Ok_0;
    let front = deps.drop_last();
    let before = start_edges_of(c, svc, front)->Ok_0;
    if i < front.len() {
        lemma_start_edge_of(c, svc, front, i);
        assert(front[i] == deps[i]);
        let e = start_edge(c, svc, deps[i])->Ok_0;
        let j = choose|j: int| 0 <= j < before.len() && before[j] == e;
        assert(es[j] == e);
    } else {
        assert(es[before.len() as int] == start_edge(c, svc, deps[i])->Ok_0);
    }
}

proof fn lemma_start_edge(c: ConfigModel, svcs: Seq<Str>, n: int, i: int)
    requires
        start_edges(c, svcs) is Ok,
        0 <= n < svcs.len(),
        0 <= i < c.services.at(svcs[n]).start_after.len(),
    ensures
        start_edge(c, svcs[n], c.services.at(svcs[n]).start_after[i]) is Ok,
        start_edges(c, svcs)->Ok_0.contains(
            start_edge(c, svcs[n], c.services.at(svcs[n]).start_after[i])->Ok_0,
        ),
    decreases svcs.len(),
{
    let es = start_edges(c, svcs)->Ok_0;
    let front = svcs.drop_last();
    let before = start_edges(c, front)->Ok_0;
    let dep = c.services.at(svcs[n]).start_after[i];
    let e = start_edge(c, svcs[n], dep)->Ok_0;
    if n < front.len() {
        lemma_start_edge(c, front, n, i);
        assert(front[n] == svcs[n]);
        let j = choose|j: int| 0 <= j < before.len() && before[j] == e;
        assert(es[j] == e);
    } else {
        let deps = c.services.at(svcs[n]).start_after;
        lemma_start_edge_of(c, svcs[n], deps, i);
        let more = start_edges_of(c, svcs[n], deps)->Ok_0;
        let j = choose|j: int| 0 <= j < more.len() && more[j] == e;
        assert(es[before.len() + j] == e);
    }
}

/// Whether `a` stands before `b` in an order.
pub open spec fn before(order: Seq<Str>, a: Str, b: Str) -> bool {
    exists|i: int, j: int|
        #![trigger order[i], order[j]]
        0 <= i < j < order.len() && order[i] == a && order[j] == b
}

/// The order of services of a graph that was built holds each service once, and nothing else.
/// Each service stands after every service that it starts after a probe of.
pub proof fn law_service_order(c: ConfigModel)
    requires
        graph_of(c) is Ok,
        graph_of(c)->Ok_0.valid(),
        c.services.valid(),
    ensures
        graph_of(c)->Ok_0.topo_order.no_duplicates(),
        forall|k: Str| #[trigger]
            graph_of(c)->Ok_0.topo_order.contains(k) <==> c.services.has(k),
        forall|k: Str, i: int|
            #![trigger c.services.at(k).start_after[i]]
            c.services.has(k) && 0 <= i < c.services.at(k).start_after.len() ==> (parse_ref(
                c.services.at(k).start_after[i],
            ) matches Some(r) && before(graph_of(c)->Ok_0.topo_order, r.service, k)),
{
    let g = graph_of(c)->Ok_0;
    let svcs = c.services.keys;
    let edges = g.services.edges;
    lemma_sorted_once(g.services, g.topo_order);
    lemma_index(svcs);
    assert forall|k: Str| #[trigger] g.topo_order.contains(k) <==> c.services.has(k) by {
        assert(c.services.map.contains_key(k) <==> svcs.contains(k));
    }
    assert forall|k: Str, i: int|
        #![trigger c.services.at(k).start_after[i]]
        c.services.has(k) && 0 <= i < c.services.at(k).start_after.len() implies (parse_ref(
        c.services.at(k).start_after[i],
    ) matches Some(r) && before(g.topo_order, r.service, k)) by {
        assert(svcs.contains(k));
        let n = choose|n: int| 0 <= n < svcs.len() && svcs[n] == k;
        let dep = c.services.at(k).start_after[i];
        lemma_start_edge(c, svcs, n, i);
        let r = parse_ref(dep)->0;
        let edge = start_edge(c, k, dep)->Ok_0;
        let e = choose|e: int| 0 <= e < edges.len() && edges[e] == edge;
        assert(c.services.map.contains_key(r.service) <==> svcs.contains(r.service));
        assert(index_of(svcs).has(k) && index_of(svcs).has(r.service));
        let (x, y) = law_sorted(g.services, g.topo_order, e);
        assert(g.topo_order[x] == r.service && g.topo_order[y] == k);
    }
}

/// The order of probes of a graph that was built holds the key of each probe, and nothing else.
/// Each stands after all that the probe depends on. Where the keys of the probes differ, as
/// they do where no service has a dot in its name, each stands once.
pub proof fn law_probe_order(c: ConfigModel)
    requires
        graph_of(c) is Ok,
        graph_of(c)->Ok_0.valid(),
        c.services.valid(),
        forall|k: Str| #[trigger] c.services.has(k) ==> c.services.at(k).probes.valid(),
    ensures
        probe_keys(c, c.services.keys).no_duplicates()
            ==> graph_of(c)->Ok_0.probe_topo_order.no_duplicates(),
        (forall|k: Str| #[trigger] c.services.has(k) ==> !k.contains('.')) ==> probe_keys(
            c,
            c.services.keys,
        ).no_duplicates(),
        forall|key: Str| #[trigger]
            graph_of(c)->Ok_0.probe_topo_order.contains(key) <==> is_probe_key(
                c,
                c.services.keys,
                key,
            ),
        forall|k: Str, p: Str, i: int|
            #![trigger c.services.at(k).probes.at(p).depends_on[i]]
            c.services.has(k) && c.services.at(k).probes.has(p) && 0 <= i < c.services.at(
                k,
            ).probes.at(p).depends_on.len() ==> before(
                graph_of(c)->Ok_0.probe_topo_order,
                c.services.at(k).probes.at(p).depends_on[i],
                (RefModel { service: k, probe: p }).text(),
            ),
{
    let g = graph_of(c)->Ok_0;
    let svcs = c.services.keys;
    let all = probe_keys(c, svcs);
    let edges = g.probes.edges;
    if forall|k: Str| #[trigger] c.services.has(k) ==> !k.contains('.') {
        assert forall|i: int| 0 <= i < svcs.len() implies !(#[trigger] svcs[i]).contains('.')
            && c.services.at(svcs[i]).probes.keys.no_duplicates() by {
            assert(svcs.contains(svcs[i]));
            assert(c.services.has(svcs[i]));
        }
        lemma_keys_once(c, svcs);
    }
    lemma_keys_named(c, svcs);
    lemma_sorted_once(g.probes, g.probe_topo_order);
    lemma_index(all);
    assert forall|k: Str, p: Str, i: int|
        #![trigger c.services.at(k).probes.at(p).depends_on[i]]
        c.services.has(k) && c.services.at(k).probes.has(p) && 0 <= i < c.services.at(
            k,
        ).probes.at(p).depends_on.len() implies before(
        g.probe_topo_order,
        c.services.at(k).probes.at(p).depends_on[i],
        (RefModel { service: k, probe: p }).text(),
    ) by {
        let probes = c.services.at(k).probes;
        assert(svcs.contains(k));
        let n = choose|n: int| 0 <= n < svcs.len() && svcs[n] == k;
        assert(probes.keys.contains(p));
        let j = choose|j: int| 0 <= j < probes.keys.len() && probes.keys[j] == p;
        let dep = probes.at(p).depends_on[i];
        let key = (RefModel { service: k, probe: p }).text();
        lemma_edge(c, all, svcs, n, j, i);
        lemma_probe_keys(c, svcs, n);
        assert(keys_in(svcs[n], c.services.at(svcs[n]).probes.keys)[j] == key);
        assert(index_of(all).has(key) && index_of(all).has(dep));
        let edge: Edge = (index_of(all).at(dep), index_of(all).at(key));
        let e = choose|e: int| 0 <= e < edges.len() && edges[e] == edge;
        let (x, y) = law_sorted(g.probes, g.probe_topo_order, e);
        assert(g.probe_topo_order[x] == dep && g.probe_topo_order[y] == key);
    }
}

} // verus!
