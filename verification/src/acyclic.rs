//! A graph that could be built has no cycle, so no probe depends on itself.
use crate::config::ConfigModel;
use crate::digraph::is_topo_order;
use crate::graph::{
    dep_edges, dep_edges_in, dep_edges_of, graph_of, index_of, lemma_all_listed, lemma_index,
    names_of, probe_keys,
};
use crate::model::{lemma_ref_text, parse_ref, parse_refs, RefModel};
use crate::probe_meta::{acyclic, ranked_by};
use crate::runtime::{first_services, probe_at};
use crate::text::Str;
use vstd::prelude::*;

verus! {

/// Each reference of a list was read from one of the texts.
pub proof fn lemma_parsed(list: Seq<Str>, k: int) -> (i: int)
    requires
        0 <= k < parse_refs(list).len(),
    ensures
        0 <= i < list.len(),
        parse_ref(list[i]) == Some(parse_refs(list)[k]),
    decreases list.len(),
{
    let front = list.drop_last();
    let n = list.len() - 1;
    if k < parse_refs(front).len() {
        let i = lemma_parsed(front, k);
        assert(front[i] == list[i]);
        i
    } else {
        n
    }
}

proof fn lemma_edge_of(all: Seq<Str>, key: Str, deps: Seq<Str>, i: int)
    requires
        dep_edges_of(all, key, deps) is Ok,
        0 <= i < deps.len(),
    ensures
        all.contains(deps[i]),
        dep_edges_of(all, key, deps)->Ok_0.contains(
            (index_of(all).at(deps[i]), index_of(all).at(key)),
        ),
    decreases deps.len(),
{
    let es = dep_edges_of(all, key, deps)->Ok_0;
    let e = (index_of(all).at(deps[i]), index_of(all).at(key));
    if i < deps.len() - 1 {
        let front = deps.drop_last();
        lemma_edge_of(all, key, front, i);
        assert(front[i] == deps[i]);
        let before = dep_edges_of(all, key, front)->Ok_0;
        let j = choose|j: int| 0 <= j < before.len() && before[j] == e;
        assert(es[j] == e);
    } else {
        assert(es.last() == e);
        assert(es[es.len() - 1] == e);
    }
}

proof fn lemma_edge_in(c: ConfigModel, all: Seq<Str>, svc: Str, probes: Seq<Str>, j: int, i: int)
    requires
        dep_edges_in(c, all, svc, probes) is Ok,
        0 <= j < probes.len(),
        0 <= i < c.services.at(svc).probes.at(probes[j]).depends_on.len(),
    ensures
        ({
            let dep = c.services.at(svc).probes.at(probes[j]).depends_on[i];
            let key = (RefModel { service: svc, probe: probes[j] }).text();
            &&& all.contains(dep)
            &&& dep_edges_in(c, all, svc, probes)->Ok_0.contains(
                (index_of(all).at(dep), index_of(all).at(key)),
            )
        }),
    decreases probes.len(),
{
    let es = dep_edges_in(c, all, svc, probes)->Ok_0;
    let deps = c.services.at(svc).probes.at(probes[j]).depends_on;
    let key = (RefModel { service: svc, probe: probes[j] }).text();
    let e = (index_of(all).at(deps[i]), index_of(all).at(key));
    let front = probes.drop_last();
    let before = dep_edges_in(c, all, svc, front)->Ok_0;
    if j < probes.len() - 1 {
        assert(front[j] == probes[j]);
        lemma_edge_in(c, all, svc, front, j, i);
        let k = choose|k: int| 0 <= k < before.len() && before[k] == e;
        assert(es[k] == e);
    } else {
        lemma_edge_of(all, key, deps, i);
        let more = dep_edges_of(all, key, deps)->Ok_0;
        let k = choose|k: int| 0 <= k < more.len() && more[k] == e;
        assert(es[before.len() + k] == e);
    }
}

pub proof fn lemma_edge(c: ConfigModel, all: Seq<Str>, svcs: Seq<Str>, n: int, j: int, i: int)
    requires
        dep_edges(c, all, svcs) is Ok,
        0 <= n < svcs.len(),
        0 <= j < c.services.at(svcs[n]).probes.keys.len(),
        ({
            let probes = c.services.at(svcs[n]).probes;
            0 <= i < probes.at(probes.keys[j]).depends_on.len()
        }),
    ensures
        ({
            let probes = c.services.at(svcs[n]).probes;
            let dep = probes.at(probes.keys[j]).depends_on[i];
            let key = (RefModel { service: svcs[n], probe: probes.keys[j] }).text();
            &&& all.contains(dep)
            &&& dep_edges(c, all, svcs)->Ok_0.contains(
                (index_of(all).at(dep), index_of(all).at(key)),
            )
        }),
    decreases svcs.len(),
{
    let es = dep_edges(c, all, svcs)->Ok_0;
    let probes = c.services.at(svcs[n]).probes;
    let dep = probes.at(probes.keys[j]).depends_on[i];
    let key = (RefModel { service: svcs[n], probe: probes.keys[j] }).text();
    let e = (index_of(all).at(dep), index_of(all).at(key));
    let front = svcs.drop_last();
    let before = dep_edges(c, all, front)->Ok_0;
    if n < svcs.len() - 1 {
        assert(front[n] == svcs[n]);
        lemma_edge(c, all, front, n, j, i);
        let k = choose|k: int| 0 <= k < before.len() && before[k] == e;
        assert(es[k] == e);
    } else {
        lemma_edge_in(c, all, svcs[n], probes.keys, j, i);
        let more = dep_edges_in(c, all, svcs[n], probes.keys)->Ok_0;
        let k = choose|k: int| 0 <= k < more.len() && more[k] == e;
        assert(es[before.len() + k] == e);
    }
}

/// The place of a probe in an order of the nodes.
spec fn place(nodes: Seq<Str>, list: Seq<usize>, r: RefModel) -> nat {
    (choose|i: int| 0 <= i < list.len() && list[i] == index_of(nodes).at(r.text())) as nat
}

/// Where the graph of a configuration could be built, no probe depends on itself, directly or
/// through others.
pub proof fn law_built_graph_acyclic(c: ConfigModel)
    requires
        graph_of(c) is Ok,
        graph_of(c)->Ok_0.valid(),
        c.services.valid(),
        forall|k: Str| #[trigger] c.services.has(k) ==> c.services.at(k).probes.valid(),
    ensures
        acyclic(first_services(c)),
{
    let g = graph_of(c)->Ok_0;
    let svcs = c.services.keys;
    let all = probe_keys(c, svcs);
    let edges = g.probes.edges;
    let s = first_services(c);
    let list = choose|list: Seq<usize>| #[trigger]
        is_topo_order(all.len(), edges, list) && g.probe_topo_order == names_of(all, list);
    let rank = |r: RefModel| place(all, list, r);
    lemma_index(all);
    assert(dep_edges(c, all, svcs) == Ok::<_, Str>(edges));
    assert forall|r: RefModel, k: int|
        #![trigger probe_at(s, r)->0.depends_on[k]]
        probe_at(s, r) is Some && 0 <= k < probe_at(s, r)->0.depends_on.len() implies rank(
        probe_at(s, r)->0.depends_on[k],
    ) < rank(r) by {
        let dep = probe_at(s, r)->0.depends_on[k];
        assert(svcs.contains(r.service));
        let n = choose|n: int| 0 <= n < svcs.len() && svcs[n] == r.service;
        let probes = c.services.at(r.service).probes;
        assert(c.services.has(r.service));
        assert(probes.keys.contains(r.probe));
        let j = choose|j: int| 0 <= j < probes.keys.len() && probes.keys[j] == r.probe;
        let deps = probes.at(r.probe).depends_on;
        assert(probe_at(s, r)->0.depends_on == parse_refs(deps));
        let i = lemma_parsed(deps, k);
        lemma_ref_text(deps[i]);
        assert(dep.text() == deps[i]);
        lemma_edge(c, all, svcs, n, j, i);
        let from = index_of(all).at(dep.text());
        let to = index_of(all).at(r.text());
        assert(edges.contains((from, to)));
        let e = choose|e: int| 0 <= e < edges.len() && edges[e] == (from, to);
        assert(g.probes.edges[e].0 < all.len() && g.probes.edges[e].1 < all.len());
        lemma_all_listed(list, all.len(), from);
        lemma_all_listed(list, all.len(), to);
        let x = choose|x: int| 0 <= x < list.len() && list[x] == from;
        let y = choose|y: int| 0 <= y < list.len() && list[y] == to;
        assert(edges.contains((list[x], list[y])));
        assert(x < y);
        assert(rank(dep) == x);
        assert(rank(r) == y);
    }
    assert(ranked_by(s, rank));
}

} // verus!
