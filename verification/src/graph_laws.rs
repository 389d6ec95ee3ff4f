//! What the graph of a configuration leads to: which probes a target needs, and which services
//! start together.
use crate::acyclic::lemma_edge;
use crate::config::{ConfigModel, ProbeEntryModel};
use crate::digraph::{is_path, reaches, steps};
use crate::graph::{
    graph_of, index_of, lemma_index, lemma_probe_keys, probe_keys, target_edges, target_edges_of,
    Layer,
};
use crate::model::{lemma_ref_round_trip, lemma_ref_text, parse_ref, RefModel};
use crate::ordered_map::Table;
use crate::plan::{
    depends_on_probe, leads_into, levels_of, names_probe, needs_probe, place,
};
use crate::prepare::with_ready;
use crate::text::Str;
use vstd::prelude::*;

verus! {

proof fn lemma_alone(es: Seq<(usize, usize)>, v: usize)
    ensures
        reaches(es, v, v),
{
    let path = seq![v];
    assert(is_path(es, path) && path[0] == v && path.last() == v);
}

proof fn lemma_one_more(es: Seq<(usize, usize)>, a: usize, b: usize, c: usize)
    requires
        reaches(es, a, b),
        es.contains((b, c)),
    ensures
        reaches(es, a, c),
{
    let path = choose|path: Seq<usize>| #[trigger]
        is_path(es, path) && path[0] == a && path.last() == b;
    let next = path.push(c);
    assert forall|i: int| 0 <= i < next.len() - 1 implies #[trigger] steps(es, next, i) by {
        if i < path.len() - 1 {
            assert(steps(es, path, i));
        }
    }
    assert(is_path(es, next) && next[0] == a && next.last() == c);
}

proof fn lemma_one_before(es: Seq<(usize, usize)>, a: usize, b: usize, c: usize)
    requires
        es.contains((a, b)),
        reaches(es, b, c),
    ensures
        reaches(es, a, c),
{
    let path = choose|path: Seq<usize>| #[trigger]
        is_path(es, path) && path[0] == b && path.last() == c;
    let next = seq![a] + path;
    assert forall|i: int| 0 <= i < next.len() - 1 implies #[trigger] steps(es, next, i) by {
        if i > 0 {
            assert(steps(es, path, i - 1));
            assert(next[i] == path[i - 1] && next[i + 1] == path[i]);
        } else {
            assert(next[0] == a && next[1] == path[0]);
        }
    }
    assert(is_path(es, next) && next[0] == a && next.last() == c);
}

proof fn lemma_target_edge_of(all: Seq<Str>, tgt: Str, deps: Seq<Str>, i: int)
    requires
        0 <= i < deps.len(),
        all.contains(deps[i]),
    ensures
        target_edges_of(all, tgt, deps).contains((index_of(all).at(deps[i]), index_of(all).at(tgt))),
    decreases deps.len(),
{
    let es = target_edges_of(all, tgt, deps);
    let e = (index_of(all).at(deps[i]), index_of(all).at(tgt));
    let front = deps.drop_last();
    let before = target_edges_of(all, tgt, front);
    if i < front.len() {
        assert(front[i] == deps[i]);
        lemma_target_edge_of(all, tgt, front, i);
        let k = choose|k: int| 0 <= k < before.len() && before[k] == e;
        assert(es[k] == e);
    } else {
        assert(es[before.len() as int] == e);
    }
}

proof fn lemma_target_edge(c: ConfigModel, tgts: Seq<Str>, n: int, i: int)
    requires
        0 <= n < tgts.len(),
        0 <= i < c.targets.at(tgts[n]).depends_on.len(),
        c.targets.keys.contains(c.targets.at(tgts[n]).depends_on[i]),
    ensures
        target_edges(c, tgts).contains(
            (
                index_of(c.targets.keys).at(c.targets.at(tgts[n]).depends_on[i]),
                index_of(c.targets.keys).at(tgts[n]),
            ),
        ),
    decreases tgts.len(),
{
    let all = c.targets.keys;
    let es = target_edges(c, tgts);
    let front = tgts.drop_last();
    let before = target_edges(c, front);
    let deps = c.targets.at(tgts[n]).depends_on;
    let e = (index_of(all).at(deps[i]), index_of(all).at(tgts[n]));
    if n < front.len() {
        assert(front[n] == tgts[n]);
        lemma_target_edge(c, front, n, i);
        let k = choose|k: int| 0 <= k < before.len() && before[k] == e;
        assert(es[k] == e);
    } else {
        lemma_target_edge_of(all, tgts[n], deps, i);
        let more = target_edges_of(all, tgts[n], deps);
        let k = choose|k: int| 0 <= k < more.len() && more[k] == e;
        assert(es[before.len() + k] == e);
    }
}

/// A target needs each probe that it names.
pub proof fn law_target_needs_its_own(c: ConfigModel, k: Str, i: int, r: RefModel)
    requires
        graph_of(c) is Ok,
        c.targets.valid(),
        c.targets.has(k),
        0 <= i < c.targets.at(k).probes.len(),
        parse_ref(c.targets.at(k).probes[i]) == Some(r),
        c.targets.keys.len() <= u32::MAX,
    ensures
        needs_probe(graph_of(c)->Ok_0, c, k, r),
{
    let g = graph_of(c)->Ok_0;
    lemma_index(g.targets.nodes);
    assert(c.targets.keys.contains(k));
    let v = g.targets.node(k);
    assert(g.targets.has(k));
    lemma_alone(g.targets.edges, v);
    assert(leads_into(g.targets, v, k));
    assert(g.targets.nodes[v as int] == k);
    assert(c.targets.at(g.targets.nodes[v as int]).probes[i] == c.targets.at(k).probes[i]);
    assert(names_probe(g, c, k, r));
    assert(depends_on_probe(g.probes, r, r));
}

/// A target needs each probe that a target needs which it depends on.
pub proof fn law_target_needs_what_others_need(c: ConfigModel, k: Str, i: int, r: RefModel)
    requires
        graph_of(c) is Ok,
        c.targets.valid(),
        c.targets.has(k),
        c.targets.keys.len() <= u32::MAX,
        0 <= i < c.targets.at(k).depends_on.len(),
        c.targets.has(c.targets.at(k).depends_on[i]),
        needs_probe(graph_of(c)->Ok_0, c, c.targets.at(k).depends_on[i], r),
    ensures
        needs_probe(graph_of(c)->Ok_0, c, k, r),
{
    let g = graph_of(c)->Ok_0;
    let d = c.targets.at(k).depends_on[i];
    lemma_index(g.targets.nodes);
    assert(c.targets.keys.contains(k));
    assert(c.targets.keys.contains(d));
    let n = choose|n: int| 0 <= n < c.targets.keys.len() && c.targets.keys[n] == k;
    lemma_target_edge(c, c.targets.keys, n, i);
    assert(g.targets.has(k) && g.targets.has(d));
    let q = choose|q: RefModel| #[trigger]
        names_probe(g, c, d, q) && depends_on_probe(g.probes, q, r);
    let (v, j) = choose|v: usize, j: int|
        #![trigger c.targets.at(g.targets.nodes[v as int]).probes[j]]
        leads_into(g.targets, v, d) && c.targets.has(g.targets.nodes[v as int]) && 0 <= j
            < c.targets.at(g.targets.nodes[v as int]).probes.len() && parse_ref(
            c.targets.at(g.targets.nodes[v as int]).probes[j],
        ) == Some(q);
    lemma_one_more(g.targets.edges, v, g.targets.node(d), g.targets.node(k));
    assert(leads_into(g.targets, v, k));
    assert(parse_ref(c.targets.at(g.targets.nodes[v as int]).probes[j]) == Some(q));
    assert(names_probe(g, c, k, q));
}

/// A target needs each probe that a probe depends on which it needs.
pub proof fn law_target_needs_what_probes_need(
    c: ConfigModel,
    k: Str,
    q: RefModel,
    i: int,
    r: RefModel,
)
    requires
        graph_of(c) is Ok,
        graph_of(c)->Ok_0.valid(),
        graph_of(c)->Ok_0.probes.nodes.no_duplicates(),
        c.services.valid(),
        c.services.has(q.service),
        c.services.at(q.service).probes.valid(),
        c.services.at(q.service).probes.has(q.probe),
        !q.service.contains('.'),
        0 <= i < c.services.at(q.service).probes.at(q.probe).depends_on.len(),
        parse_ref(c.services.at(q.service).probes.at(q.probe).depends_on[i]) == Some(r),
        needs_probe(graph_of(c)->Ok_0, c, k, q),
    ensures
        needs_probe(graph_of(c)->Ok_0, c, k, r),
{
    let g = graph_of(c)->Ok_0;
    let p = g.probes;
    let svcs = c.services.keys;
    let probes = c.services.at(q.service).probes;
    let dep = probes.at(q.probe).depends_on[i];
    lemma_index(p.nodes);
    assert(svcs.contains(q.service));
    let n = choose|n: int| 0 <= n < svcs.len() && svcs[n] == q.service;
    assert(probes.keys.contains(q.probe));
    let j = choose|j: int| 0 <= j < probes.keys.len() && probes.keys[j] == q.probe;
    lemma_edge(c, probe_keys(c, svcs), svcs, n, j, i);
    lemma_probe_keys(c, svcs, n);
    assert(p.nodes.contains(crate::graph::keys_in(svcs[n], probes.keys)[j]));
    assert(p.has(q.text()));
    assert(p.has(dep));
    lemma_ref_text(dep);
    lemma_ref_round_trip(q);
    let from = p.node(dep);
    let to = p.node(q.text());
    assert(p.edges.contains((from, to)));
    assert(p.nodes[from as int] == dep && p.nodes[to as int] == q.text());
    let d = choose|d: RefModel| #[trigger]
        names_probe(g, c, k, d) && depends_on_probe(p, d, q);
    if d == q {
        lemma_alone(p.edges, from);
        lemma_one_more(p.edges, from, from, to);
        assert(leads_into(p, from, d.text()));
    } else {
        let v = choose|v: usize| #[trigger]
            leads_into(p, v, d.text()) && parse_ref(p.nodes[v as int]) == Some(q);
        lemma_ref_text(p.nodes[v as int]);
        assert(p.nodes[v as int] == p.nodes[to as int]);
        assert(v == to);
        lemma_one_before(p.edges, from, v, p.node(d.text()));
        assert(leads_into(p, from, d.text()));
    }
    assert(parse_ref(p.nodes[from as int]) == Some(r));
    assert(depends_on_probe(p, d, r));
}

/// Each service that is asked for and is part of the order stands on a level, and no other one
/// does.
pub proof fn law_levels_hold_all(g: Layer, names: Seq<Str>, order: Seq<Str>, x: Str)
    ensures
        (exists|l: int|
            0 <= l < levels_of(g, names, order).levels.len() && (#[trigger] levels_of(
                g,
                names,
                order,
            ).levels[l]).contains(x)) <==> names.contains(x) && order.contains(x),
    decreases order.len(),
{
    let st = levels_of(g, names, order);
    if order.len() > 0 {
        let front = order.drop_last();
        let last = order[order.len() - 1];
        law_levels_hold_all(g, names, front, x);
        let before = levels_of(g, names, front);
        if front.contains(x) {
            let i = choose|i: int| 0 <= i < front.len() && front[i] == x;
            assert(order[i] == x);
        }
        if order.contains(x) && x != last {
            let i = choose|i: int| 0 <= i < order.len() && order[i] == x;
            assert(front[i] == x);
        }
        assert(order.contains(last));
        if names.contains(last) {
            assert(st == place(g, before, last));
            let n = crate::plan::level_above(before.assigned, g.prev(last));
            if exists|l: int| 0 <= l < before.levels.len() && (#[trigger] before.levels[l]).contains(x) {
                let l = choose|l: int|
                    0 <= l < before.levels.len() && (#[trigger] before.levels[l]).contains(x);
                let i = choose|i: int| 0 <= i < before.levels[l].len() && before.levels[l][i] == x;
                assert(st.levels[l][i] == x);
                assert(st.levels[l].contains(x));
            }
            let at = if 0 <= n < before.levels.len() {
                n
            } else {
                before.levels.len() as int
            };
            if n < before.levels.len() {
                lemma_level_above(before.assigned, g.prev(last));
                assert(st.levels[n][before.levels[n].len() as int] == last);
                assert(st.levels[n].contains(last));
            } else {
                assert(st.levels[at][0] == last);
                assert(st.levels[at].contains(last));
            }
            if exists|l: int| 0 <= l < st.levels.len() && (#[trigger] st.levels[l]).contains(x) {
                let l = choose|l: int|
                    0 <= l < st.levels.len() && (#[trigger] st.levels[l]).contains(x);
                let i = choose|i: int| 0 <= i < st.levels[l].len() && st.levels[l][i] == x;
                if x != last {
                    assert(l < before.levels.len());
                    assert(before.levels[l][i] == x);
                    assert(before.levels[l].contains(x));
                }
            }
        } else {
            assert(st == before);
        }
    } else {
        assert(st.levels.len() == 0);
    }
}

proof fn lemma_level_above(assigned: Table<usize>, deps: Seq<Str>)
    ensures
        crate::plan::level_above(assigned, deps) >= 0,
{
}

/// The probe `ready` that a service is given depends on each of its probes, and has no check of its
/// own.
pub proof fn law_ready_waits_for_all(svc: Str, probes: Table<ProbeEntryModel>)
    requires
        probes.keys.len() > 0,
        !probes.has("ready"@),
    ensures
        ({
            let ready = with_ready(svc, probes).at("ready"@);
            &&& ready.probe is Meta
            &&& ready.depends_on.len() == probes.keys.len()
            &&& forall|i: int|
                0 <= i < probes.keys.len() ==> ready.depends_on[i] == svc + seq!['.']
                    + #[trigger] probes.keys[i]
            &&& with_ready(svc, probes).keys == probes.keys.push("ready"@)
        }),
{
}

} // verus!
