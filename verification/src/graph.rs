//! The dependencies between services, probes and targets.
use crate::config::{ConfigModel, GantryConfig};
use crate::digraph::{
    bfs_back, dfs_back, edges, graph_add_edge, graph_add_node, graph_bfs_back, graph_dfs_back,
    graph_name, graph_new, graph_sources, graph_targets, graph_toposort, is_ancestry,
    is_path, is_topo_order, nodes, on_cycle, sources_of, steps, targets_of, topo_result,
};
use crate::error::{ErrorModel, GantryError};
use crate::model::{parse_ref, ProbeRef, RefModel};
use crate::ordered_map::{Item, OrderedMap, Table};
use crate::text::{cat, cat3, cat5, Str};
use petgraph::graph::DiGraph;
use vstd::prelude::*;

verus! {

/// One edge: from a node to a node.
pub type Edge = (usize, usize);

/// A graph of named nodes.
#[verifier::ext_equal]
pub struct Layer {
    pub nodes: Seq<Str>,
    pub edges: Seq<Edge>,
}

/// The node of each name: the last one, where nodes share a name.
pub open spec fn index_of(nodes: Seq<Str>) -> Table<usize>
    decreases nodes.len(),
{
    if nodes.len() == 0 {
        Table::empty()
    } else {
        index_of(nodes.drop_last()).put(nodes.last(), (nodes.len() - 1) as usize)
    }
}

/// The names of nodes.
pub open spec fn names_of(nodes: Seq<Str>, list: Seq<usize>) -> Seq<Str> {
    Seq::new(list.len(), |i: int| nodes[list[i] as int])
}

impl Layer {
    /// Every edge is between two nodes.
    pub open spec fn closed_edges(self) -> bool {
        forall|i: int|
            0 <= i < self.edges.len() ==> (#[trigger] self.edges[i]).0 < self.nodes.len()
                && self.edges[i].1 < self.nodes.len()
    }

    /// Whether a node has the name.
    pub open spec fn has(self, name: Str) -> bool {
        index_of(self.nodes).has(name)
    }

    /// The node that has the name.
    pub open spec fn node(self, name: Str) -> usize {
        index_of(self.nodes).at(name)
    }

    /// The names of the nodes to which edges lead from the named node.
    pub open spec fn next(self, name: Str) -> Seq<Str> {
        if self.has(name) {
            names_of(self.nodes, targets_of(self.edges, self.node(name)))
        } else {
            Seq::empty()
        }
    }

    /// The names of the nodes from which edges lead to the named node.
    pub open spec fn prev(self, name: Str) -> Seq<Str> {
        if self.has(name) {
            names_of(self.nodes, sources_of(self.edges, self.node(name)))
        } else {
            Seq::empty()
        }
    }
}

/// A name has a node if and only if it stands among the nodes, and its node has that name.
pub proof fn lemma_index(nodes: Seq<Str>)
    requires
        nodes.len() <= usize::MAX,
    ensures
        forall|k: Str| #[trigger] index_of(nodes).has(k) <==> nodes.contains(k),
        forall|k: Str| #[trigger]
            index_of(nodes).has(k) ==> index_of(nodes).at(k) < nodes.len()
                && nodes[index_of(nodes).at(k) as int] == k,
    decreases nodes.len(),
{
    if nodes.len() > 0 {
        let front = nodes.drop_last();
        lemma_index(front);
        let last = nodes.last();
        let t = index_of(front);
        assert(nodes[nodes.len() - 1] == last);
        assert forall|k: Str| #[trigger] index_of(nodes).has(k) <==> nodes.contains(k) by {
            assert(t.has(k) <==> front.contains(k));
            assert(index_of(nodes).has(k) == (k == last || t.has(k)));
            if nodes.contains(k) && k != last {
                let i = choose|i: int| 0 <= i < nodes.len() && nodes[i] == k;
                assert(front[i] == k);
            }
            if front.contains(k) {
                let i = choose|i: int| 0 <= i < front.len() && front[i] == k;
                assert(nodes[i] == k);
            }
        }
        assert forall|k: Str| #[trigger] index_of(nodes).has(k) implies index_of(nodes).at(k)
            < nodes.len() && nodes[index_of(nodes).at(k) as int] == k by {
            if k != last {
                assert(t.has(k));
                assert(front[t.at(k) as int] == k);
                assert(index_of(nodes).at(k) == t.at(k));
            }
        }
    }
}

/// The targets of edges are nodes.
pub proof fn lemma_targets(es: Seq<Edge>, i: usize, n: nat)
    requires
        forall|j: int| 0 <= j < es.len() ==> (#[trigger] es[j]).1 < n,
    ensures
        forall|j: int|
            0 <= j < targets_of(es, i).len() ==> #[trigger] targets_of(es, i)[j] < n,
    decreases es.len(),
{
    if es.len() > 0 {
        let front = es.drop_last();
        assert forall|j: int| 0 <= j < front.len() implies (#[trigger] front[j]).1 < n by {
            assert(front[j] == es[j]);
        }
        lemma_targets(front, i, n);
        let all = targets_of(es, i);
        assert forall|j: int| 0 <= j < all.len() implies #[trigger] all[j] < n by {
            if es.last().0 == i {
                if j > 0 {
                    assert(all[j] == targets_of(front, i)[j - 1]);
                } else {
                    assert(es[es.len() - 1].1 < n);
                }
            }
        }
    }
}

/// The sources of edges are nodes.
pub proof fn lemma_sources(es: Seq<Edge>, i: usize, n: nat)
    requires
        forall|j: int| 0 <= j < es.len() ==> (#[trigger] es[j]).0 < n,
    ensures
        forall|j: int|
            0 <= j < sources_of(es, i).len() ==> #[trigger] sources_of(es, i)[j] < n && es.contains(
                (sources_of(es, i)[j], i),
            ),
    decreases es.len(),
{
    if es.len() > 0 {
        let front = es.drop_last();
        assert forall|j: int| 0 <= j < front.len() implies (#[trigger] front[j]).0 < n by {
            assert(front[j] == es[j]);
        }
        lemma_sources(front, i, n);
        let all = sources_of(es, i);
        let some = sources_of(front, i);
        assert forall|j: int| 0 <= j < all.len() implies #[trigger] all[j] < n && es.contains(
            (all[j], i),
        ) by {
            if es.last().1 == i && j == 0 {
                assert(es[es.len() - 1] == (all[j], i));
            } else {
                let k = if es.last().1 == i {
                    j - 1
                } else {
                    j
                };
                assert(all[j] == some[k]);
                let m = choose|m: int| 0 <= m < front.len() && front[m] == (some[k], i);
                assert(es[m] == (all[j], i));
            }
        }
    }
}

/// Makes a graph with the given nodes and no edge, and the index of its names.
pub(crate) fn add_nodes(names: &Vec<String>) -> (r: (DiGraph<String, ()>, OrderedMap<usize>))
    requires
        names.len() <= u32::MAX,
    ensures
        nodes(r.0) == names.deep_view(),
        edges(r.0) == Seq::<Edge>::empty(),
        r.1.wf(),
        r.1.deep_view() == index_of(names.deep_view()),
{
    let mut g = graph_new();
    let mut index: OrderedMap<usize> = OrderedMap::new();
    let mut i: usize = 0;
    assert(names.deep_view().take(0) =~= Seq::<Str>::empty());
    while i < names.len()
        invariant
            i <= names.len() <= u32::MAX,
            nodes(g) == names.deep_view().take(i as int),
            edges(g) == Seq::<Edge>::empty(),
            index.wf(),
            index.deep_view() == index_of(names.deep_view().take(i as int)),
        decreases names.len() - i,
    {
        let ghost next = names.deep_view().take(i + 1);
        assert(next.drop_last() =~= names.deep_view().take(i as int));
        assert(next.last() == names[i as int]@);
        let n: usize = graph_add_node(&mut g, names[i].clone());
        index.insert(names[i].clone(), n);
        assert(nodes(g) =~= next);
        i = i + 1;
    }
    assert(names.deep_view().take(i as int) =~= names.deep_view());
    (g, index)
}

/// The keys of a service's probes, as references are written.
pub open spec fn keys_in(svc: Str, probes: Seq<Str>) -> Seq<Str> {
    Seq::new(probes.len(), |i: int| (RefModel { service: svc, probe: probes[i] }).text())
}

/// The keys of all probes of the given services.
pub open spec fn probe_keys(c: ConfigModel, svcs: Seq<Str>) -> Seq<Str>
    decreases svcs.len(),
{
    if svcs.len() == 0 {
        Seq::empty()
    } else {
        probe_keys(c, svcs.drop_last()) + keys_in(
            svcs.last(),
            c.services.at(svcs.last()).probes.keys,
        )
    }
}

/// The edge for one entry of `start_after`, or what is wrong with the entry.
pub open spec fn start_edge(c: ConfigModel, svc: Str, dep: Str) -> Result<Edge, Str> {
    match parse_ref(dep) {
        None => Err("invalid probe reference in start_after: "@ + dep),
        Some(r) => if c.services.has(r.service) {
            Ok((index_of(c.services.keys).at(r.service), index_of(c.services.keys).at(svc)))
        } else {
            Err(
                "service '"@ + r.service + "' in start_after of '"@ + svc + "' does not exist"@,
            )
        },
    }
}

/// The edges for some entries of a service's `start_after`, or the first thing wrong.
pub open spec fn start_edges_of(c: ConfigModel, svc: Str, deps: Seq<Str>) -> Result<Seq<Edge>, Str>
    decreases deps.len(),
{
    if deps.len() == 0 {
        Ok(Seq::empty())
    } else {
        match start_edges_of(c, svc, deps.drop_last()) {
            Err(e) => Err(e),
            Ok(es) => match start_edge(c, svc, deps.last()) {
                Err(e) => Err(e),
                Ok(edge) => Ok(es.push(edge)),
            },
        }
    }
}

/// The edges for the `start_after` of the given services, or the first thing wrong.
pub open spec fn start_edges(c: ConfigModel, svcs: Seq<Str>) -> Result<Seq<Edge>, Str>
    decreases svcs.len(),
{
    if svcs.len() == 0 {
        Ok(Seq::empty())
    } else {
        match start_edges(c, svcs.drop_last()) {
            Err(e) => Err(e),
            Ok(es) => match start_edges_of(
                c,
                svcs.last(),
                c.services.at(svcs.last()).start_after,
            ) {
                Err(e) => Err(e),
                Ok(more) => Ok(es + more),
            },
        }
    }
}

/// The edges for some entries of a probe's `depends_on`, or the first thing wrong. The
/// keys of all probes are `all`.
pub open spec fn dep_edges_of(all: Seq<Str>, key: Str, deps: Seq<Str>) -> Result<Seq<Edge>, Str>
    decreases deps.len(),
{
    if deps.len() == 0 {
        Ok(Seq::empty())
    } else {
        match dep_edges_of(all, key, deps.drop_last()) {
            Err(e) => Err(e),
            Ok(es) => if all.contains(deps.last()) {
                Ok(es.push((index_of(all).at(deps.last()), index_of(all).at(key))))
            } else {
                Err("probe '"@ + deps.last() + "' in depends_on of '"@ + key + "' does not exist"@)
            },
        }
    }
}

/// The edges for the `depends_on` of some probes of a service, or the first thing wrong.
pub open spec fn dep_edges_in(
    c: ConfigModel,
    all: Seq<Str>,
    svc: Str,
    probes: Seq<Str>,
) -> Result<Seq<Edge>, Str>
    decreases probes.len(),
{
    if probes.len() == 0 {
        Ok(Seq::empty())
    } else {
        match dep_edges_in(c, all, svc, probes.drop_last()) {
            Err(e) => Err(e),
            Ok(es) => match dep_edges_of(
                all,
                (RefModel { service: svc, probe: probes.last() }).text(),
                c.services.at(svc).probes.at(probes.last()).depends_on,
            ) {
                Err(e) => Err(e),
                Ok(more) => Ok(es + more),
            },
        }
    }
}

/// The edges for the `depends_on` of all probes of some services, or the first thing wrong.
pub open spec fn dep_edges(c: ConfigModel, all: Seq<Str>, svcs: Seq<Str>) -> Result<Seq<Edge>, Str>
    decreases svcs.len(),
{
    if svcs.len() == 0 {
        Ok(Seq::empty())
    } else {
        match dep_edges(c, all, svcs.drop_last()) {
            Err(e) => Err(e),
            Ok(es) => match dep_edges_in(
                c,
                all,
                svcs.last(),
                c.services.at(svcs.last()).probes.keys,
            ) {
                Err(e) => Err(e),
                Ok(more) => Ok(es + more),
            },
        }
    }
}

/// The edges for some entries of a target's `depends_on`. An unknown target has none.
pub open spec fn target_edges_of(all: Seq<Str>, tgt: Str, deps: Seq<Str>) -> Seq<Edge>
    decreases deps.len(),
{
    if deps.len() == 0 {
        Seq::empty()
    } else {
        let es = target_edges_of(all, tgt, deps.drop_last());
        if all.contains(deps.last()) {
            es.push((index_of(all).at(deps.last()), index_of(all).at(tgt)))
        } else {
            es
        }
    }
}

/// The edges for the `depends_on` of some targets.
pub open spec fn target_edges(c: ConfigModel, tgts: Seq<Str>) -> Seq<Edge>
    decreases tgts.len(),
{
    if tgts.len() == 0 {
        Seq::empty()
    } else {
        target_edges(c, tgts.drop_last()) + target_edges_of(
            c.targets.keys,
            tgts.last(),
            c.targets.at(tgts.last()).depends_on,
        )
    }
}

/// The first of some names that is not among `all`.
pub open spec fn first_unknown(all: Seq<Str>, names: Seq<Str>) -> Option<Str>
    decreases names.len(),
{
    if names.len() == 0 {
        None
    } else {
        match first_unknown(all, names.drop_last()) {
            Some(x) => Some(x),
            None => if all.contains(names.last()) {
                None
            } else {
                Some(names.last())
            },
        }
    }
}

/// The first unknown probe or target that some targets name.
pub open spec fn target_error(c: ConfigModel, all: Seq<Str>, tgts: Seq<Str>) -> Option<Str>
    decreases tgts.len(),
{
    if tgts.len() == 0 {
        None
    } else {
        let name = tgts.last();
        let t = c.targets.at(name);
        match target_error(c, all, tgts.drop_last()) {
            Some(e) => Some(e),
            None => match first_unknown(all, t.probes) {
                Some(x) => Some("target '"@ + name + "' references unknown probe '"@ + x + "'"@),
                None => match first_unknown(c.targets.keys, t.depends_on) {
                    Some(x) => Some("target '"@ + name + "' depends on unknown target '"@ + x + "'"@),
                    None => None,
                },
            },
        }
    }
}

/// The dependencies of a configuration.
#[verifier::ext_equal]
pub struct GraphModel {
    /// An edge leads from a service to one that starts after a probe of it.
    pub services: Layer,
    /// An edge leads from a probe to one that depends on it.
    pub probes: Layer,
    /// An edge leads from a target to one that depends on it.
    pub targets: Layer,
    pub topo_order: Seq<Str>,
    pub probe_topo_order: Seq<Str>,
}

/// The error for a cycle.
pub open spec fn cycle_error(what: Str, name: Str) -> ErrorModel {
    ErrorModel::Validation(what + name + "'"@)
}

/// The dependencies of a configuration, or what is wrong with it.
pub open spec fn graph_of(c: ConfigModel) -> Result<GraphModel, ErrorModel> {
    let svcs = c.services.keys;
    let keys = probe_keys(c, svcs);
    let tgts = c.targets.keys;
    match start_edges(c, svcs) {
        Err(e) => Err(ErrorModel::Validation(e)),
        Ok(se) => match topo_result(svcs.len(), se) {
            Err(v) => Err(
                cycle_error("start_after has a cycle involving service '"@, svcs[v as int]),
            ),
            Ok(so) => match dep_edges(c, keys, svcs) {
                Err(e) => Err(ErrorModel::Validation(e)),
                Ok(de) => match topo_result(keys.len(), de) {
                    Err(v) => Err(
                        cycle_error("depends_on has a cycle involving probe '"@, keys[v as int]),
                    ),
                    Ok(po) => match topo_result(tgts.len(), target_edges(c, tgts)) {
                        Err(v) => Err(
                            cycle_error(
                                "target depends_on has a cycle involving target '"@,
                                tgts[v as int],
                            ),
                        ),
                        Ok(_) => match target_error(c, keys, tgts) {
                            Some(e) => Err(ErrorModel::Validation(e)),
                            None => Ok(
                                GraphModel {
                                    services: Layer { nodes: svcs, edges: se },
                                    probes: Layer { nodes: keys, edges: de },
                                    targets: Layer { nodes: tgts, edges: target_edges(c, tgts) },
                                    topo_order: names_of(svcs, so),
                                    probe_topo_order: names_of(keys, po),
                                },
                            ),
                        },
                    },
                },
            },
        },
    }
}

/// The sum of some numbers.
pub open spec fn total(list: Seq<nat>) -> nat
    decreases list.len(),
{
    if list.len() == 0 {
        0
    } else {
        total(list.drop_last()) + list.last()
    }
}

pub proof fn lemma_total_take(list: Seq<nat>, i: int)
    requires
        0 <= i < list.len(),
    ensures
        total(list.take(i + 1)) == total(list.take(i)) + list[i],
        total(list.take(i + 1)) <= total(list),
    decreases list.len(),
{
    assert(list.take(i + 1).drop_last() =~= list.take(i));
    if i + 1 < list.len() {
        let front = list.drop_last();
        lemma_total_take(front, i);
        assert(front.take(i + 1) =~= list.take(i + 1));
    } else {
        assert(list.take(i + 1) =~= list);
    }
}

/// How many probes each of some services has.
pub open spec fn probe_counts(c: ConfigModel, svcs: Seq<Str>) -> Seq<nat> {
    Seq::new(svcs.len(), |i: int| c.services.at(svcs[i]).probes.keys.len())
}

/// How many probes each of some services starts after.
pub open spec fn start_counts(c: ConfigModel, svcs: Seq<Str>) -> Seq<nat> {
    Seq::new(svcs.len(), |i: int| c.services.at(svcs[i]).start_after.len())
}

/// How many probes each of some probes depends on.
pub open spec fn dep_counts_in(c: ConfigModel, svc: Str, probes: Seq<Str>) -> Seq<nat> {
    Seq::new(probes.len(), |i: int| c.services.at(svc).probes.at(probes[i]).depends_on.len())
}

/// How many probes the probes of each of some services depend on.
pub open spec fn dep_counts(c: ConfigModel, svcs: Seq<Str>) -> Seq<nat> {
    Seq::new(
        svcs.len(),
        |i: int| total(dep_counts_in(c, svcs[i], c.services.at(svcs[i]).probes.keys)),
    )
}

/// How many targets each of some targets depends on.
pub open spec fn target_counts(c: ConfigModel, tgts: Seq<Str>) -> Seq<nat> {
    Seq::new(tgts.len(), |i: int| c.targets.at(tgts[i]).depends_on.len())
}

/// Whether the nodes and the edges of a configuration can be counted in 32 bits, as the
/// graphs count them.
pub open spec fn fits(c: ConfigModel) -> bool {
    &&& c.services.keys.len() <= u32::MAX
    &&& c.targets.keys.len() <= u32::MAX
    &&& total(probe_counts(c, c.services.keys)) <= u32::MAX
    &&& total(start_counts(c, c.services.keys)) <= u32::MAX
    &&& total(dep_counts(c, c.services.keys)) <= u32::MAX
    &&& total(target_counts(c, c.targets.keys)) <= u32::MAX
}

/// Adds the edges for a service's `start_after`.
fn add_start_edges_of(
    config: &GantryConfig,
    index: &OrderedMap<usize>,
    g: &mut DiGraph<String, ()>,
    svc: &str,
    deps: &Vec<String>,
) -> (r: Result<(), GantryError>)
    requires
        config.wf(),
        index.wf(),
        index.deep_view() == index_of(config.deep_view().services.keys),
        nodes(*old(g)) == config.deep_view().services.keys,
        nodes(*old(g)).len() <= u32::MAX,
        config.deep_view().services.has(svc@),
        edges(*old(g)).len() + deps.len() <= u32::MAX,
    ensures
        nodes(*final(g)) == nodes(*old(g)),
        match r {
            Ok(_) => start_edges_of(config.deep_view(), svc@, deps.deep_view()) is Ok && edges(
                *final(g),
            ) == edges(*old(g)) + start_edges_of(
                config.deep_view(),
                svc@,
                deps.deep_view(),
            )->Ok_0 && edges(*final(g)).len() == edges(*old(g)).len() + deps.len(),
            Err(e) => start_edges_of(config.deep_view(), svc@, deps.deep_view()) is Err
                && e.deep_view() == ErrorModel::Validation(
                start_edges_of(config.deep_view(), svc@, deps.deep_view())->Err_0,
            ),
        },
{
    let ghost c = config.deep_view();
    let ghost es = edges(*g);
    proof {
        lemma_index(c.services.keys);
        config.services.lemma_valid();
    }
    let to: usize = *index.get(svc).unwrap();
    let mut i: usize = 0;
    assert(es + Seq::<Edge>::empty() =~= es);
    while i < deps.len()
        invariant
            config.wf(),
            index.wf(),
            c == config.deep_view(),
            index.deep_view() == index_of(c.services.keys),
            c.services.valid(),
            forall|k: Str| #[trigger]
                index_of(c.services.keys).has(k) <==> c.services.keys.contains(k),
            forall|k: Str| #[trigger]
                index_of(c.services.keys).has(k) ==> index_of(c.services.keys).at(k)
                    < c.services.keys.len(),
            nodes(*g) == c.services.keys,
            nodes(*old(g)) == nodes(*g),
            es == edges(*old(g)),
            to == index_of(c.services.keys).at(svc@),
            to < nodes(*g).len(),
            i <= deps.len(),
            es.len() + deps.len() <= u32::MAX,
            start_edges_of(c, svc@, deps.deep_view().take(i as int)) is Ok,
            edges(*g) == es + start_edges_of(c, svc@, deps.deep_view().take(i as int))->Ok_0,
            edges(*g).len() == es.len() + i,
        decreases deps.len() - i,
    {
        let ghost next = deps.deep_view().take(i + 1);
        assert(next.drop_last() =~= deps.deep_view().take(i as int));
        assert(next.last() == deps[i as int]@);
        proof {
            lemma_start_err(c, svc@, deps.deep_view(), i + 1);
        }
        match ProbeRef::parse(deps[i].as_str()) {
            None => {
                return Err(
                    GantryError::Validation(
                        cat("invalid probe reference in start_after: ", deps[i].as_str()),
                    ),
                );
            },
            Some(r) => match index.get(r.service.as_str()) {
                None => {
                    return Err(
                        GantryError::Validation(
                            cat5(
                                "service '",
                                r.service.as_str(),
                                "' in start_after of '",
                                svc,
                                "' does not exist",
                            ),
                        ),
                    );
                },
                Some(from) => {
                    graph_add_edge(g, *from, to);
                    assert(edges(*g) =~= es + start_edges_of(c, svc@, next)->Ok_0);
                },
            },
        }
        i = i + 1;
    }
    assert(deps.deep_view().take(i as int) =~= deps.deep_view());
    Ok(())
}

/// Something wrong with some entries is what is wrong with all of them.
proof fn lemma_start_err(c: ConfigModel, svc: Str, deps: Seq<Str>, i: int)
    requires
        0 <= i <= deps.len(),
    ensures
        start_edges_of(c, svc, deps.take(i)) is Err ==> start_edges_of(c, svc, deps)
            == start_edges_of(c, svc, deps.take(i)),
    decreases deps.len() - i,
{
    if i < deps.len() {
        assert(deps.take(i + 1).drop_last() =~= deps.take(i));
        lemma_start_err(c, svc, deps, i + 1);
    } else {
        assert(deps.take(i) =~= deps);
    }
}

proof fn lemma_starts_err(c: ConfigModel, svcs: Seq<Str>, i: int)
    requires
        0 <= i <= svcs.len(),
    ensures
        start_edges(c, svcs.take(i)) is Err ==> start_edges(c, svcs) == start_edges(
            c,
            svcs.take(i),
        ),
    decreases svcs.len() - i,
{
    if i < svcs.len() {
        assert(svcs.take(i + 1).drop_last() =~= svcs.take(i));
        lemma_starts_err(c, svcs, i + 1);
    } else {
        assert(svcs.take(i) =~= svcs);
    }
}

/// Adds the edges for the `start_after` of all services.
fn add_start_edges(
    config: &GantryConfig,
    index: &OrderedMap<usize>,
    g: &mut DiGraph<String, ()>,
) -> (r: Result<(), GantryError>)
    requires
        config.wf(),
        fits(config.deep_view()),
        index.wf(),
        index.deep_view() == index_of(config.deep_view().services.keys),
        nodes(*old(g)) == config.deep_view().services.keys,
        edges(*old(g)) == Seq::<Edge>::empty(),
    ensures
        nodes(*final(g)) == nodes(*old(g)),
        match r {
            Ok(_) => start_edges(config.deep_view(), config.deep_view().services.keys) == Ok::<
                Seq<Edge>,
                Str,
            >(edges(*final(g))),
            Err(e) => start_edges(config.deep_view(), config.deep_view().services.keys) is Err
                && e.deep_view() == ErrorModel::Validation(
                start_edges(config.deep_view(), config.deep_view().services.keys)->Err_0,
            ),
        },
{
    let ghost c = config.deep_view();
    let ghost svcs = c.services.keys;
    let n: usize = config.services.len();
    let mut i: usize = 0;
    assert(start_counts(c, svcs).take(0) =~= Seq::<nat>::empty());
    while i < n
        invariant
            config.wf(),
            c == config.deep_view(),
            svcs == c.services.keys,
            fits(c),
            index.wf(),
            index.deep_view() == index_of(svcs),
            nodes(*g) == svcs,
            nodes(*old(g)) == svcs,
            i <= n == svcs.len(),
            start_edges(c, svcs.take(i as int)) == Ok::<Seq<Edge>, Str>(edges(*g)),
            edges(*g).len() == total(start_counts(c, svcs).take(i as int)),
        decreases n - i,
    {
        let ghost next = svcs.take(i + 1);
        assert(next.drop_last() =~= svcs.take(i as int));
        assert(next.last() == svcs[i as int]);
        proof {
            lemma_starts_err(c, svcs, i + 1);
            lemma_total_take(start_counts(c, svcs), i as int);
        }
        let name = config.services.name(i);
        let svc = config.services.value(i);
        add_start_edges_of(config, index, g, name.as_str(), &svc.start_after)?;
        i = i + 1;
    }
    assert(svcs.take(i as int) =~= svcs);
    Ok(())
}

proof fn lemma_dep_err(all: Seq<Str>, key: Str, deps: Seq<Str>, i: int)
    requires
        0 <= i <= deps.len(),
    ensures
        dep_edges_of(all, key, deps.take(i)) is Err ==> dep_edges_of(all, key, deps)
            == dep_edges_of(all, key, deps.take(i)),
    decreases deps.len() - i,
{
    if i < deps.len() {
        assert(deps.take(i + 1).drop_last() =~= deps.take(i));
        lemma_dep_err(all, key, deps, i + 1);
    } else {
        assert(deps.take(i) =~= deps);
    }
}

/// Adds the edges for a probe's `depends_on`.
fn add_dep_edges_of(
    index: &OrderedMap<usize>,
    g: &mut DiGraph<String, ()>,
    key: &str,
    deps: &Vec<String>,
) -> (r: Result<(), GantryError>)
    requires
        index.wf(),
        nodes(*old(g)).len() <= u32::MAX,
        index.deep_view() == index_of(nodes(*old(g))),
        nodes(*old(g)).contains(key@),
        edges(*old(g)).len() + deps.len() <= u32::MAX,
    ensures
        nodes(*final(g)) == nodes(*old(g)),
        match r {
            Ok(_) => dep_edges_of(nodes(*old(g)), key@, deps.deep_view()) is Ok && edges(*final(g))
                == edges(*old(g)) + dep_edges_of(nodes(*old(g)), key@, deps.deep_view())->Ok_0
                && edges(*final(g)).len() == edges(*old(g)).len() + deps.len(),
            Err(e) => dep_edges_of(nodes(*old(g)), key@, deps.deep_view()) is Err && e.deep_view()
                == ErrorModel::Validation(
                dep_edges_of(nodes(*old(g)), key@, deps.deep_view())->Err_0,
            ),
        },
{
    let ghost all = nodes(*g);
    let ghost es = edges(*g);
    proof {
        lemma_index(all);
    }
    let to: usize = *index.get(key).unwrap();
    let mut i: usize = 0;
    assert(es + Seq::<Edge>::empty() =~= es);
    while i < deps.len()
        invariant
            index.wf(),
            index.deep_view() == index_of(all),
            forall|k: Str| #[trigger] index_of(all).has(k) <==> all.contains(k),
            forall|k: Str| #[trigger] index_of(all).has(k) ==> index_of(all).at(k) < all.len(),
            nodes(*g) == all,
            nodes(*old(g)) == all,
            es == edges(*old(g)),
            to == index_of(all).at(key@),
            to < all.len(),
            i <= deps.len(),
            es.len() + deps.len() <= u32::MAX,
            dep_edges_of(all, key@, deps.deep_view().take(i as int)) is Ok,
            edges(*g) == es + dep_edges_of(all, key@, deps.deep_view().take(i as int))->Ok_0,
            edges(*g).len() == es.len() + i,
        decreases deps.len() - i,
    {
        let ghost next = deps.deep_view().take(i + 1);
        assert(next.drop_last() =~= deps.deep_view().take(i as int));
        assert(next.last() == deps[i as int]@);
        proof {
            lemma_dep_err(all, key@, deps.deep_view(), i + 1);
        }
        match index.get(deps[i].as_str()) {
            None => {
                assert(!index_of(all).has(deps[i as int]@));
                return Err(
                    GantryError::Validation(
                        cat5(
                            "probe '",
                            deps[i].as_str(),
                            "' in depends_on of '",
                            key,
                            "' does not exist",
                        ),
                    ),
                );
            },
            Some(from) => {
                assert(index_of(all).has(deps[i as int]@));
                graph_add_edge(g, *from, to);
                assert(edges(*g) =~= es + dep_edges_of(all, key@, next)->Ok_0);
            },
        }
        i = i + 1;
    }
    assert(deps.deep_view().take(i as int) =~= deps.deep_view());
    Ok(())
}

proof fn lemma_deps_in_err(c: ConfigModel, all: Seq<Str>, svc: Str, probes: Seq<Str>, i: int)
    requires
        0 <= i <= probes.len(),
    ensures
        dep_edges_in(c, all, svc, probes.take(i)) is Err ==> dep_edges_in(c, all, svc, probes)
            == dep_edges_in(c, all, svc, probes.take(i)),
    decreases probes.len() - i,
{
    if i < probes.len() {
        assert(probes.take(i + 1).drop_last() =~= probes.take(i));
        lemma_deps_in_err(c, all, svc, probes, i + 1);
    } else {
        assert(probes.take(i) =~= probes);
    }
}

/// Adds the edges for the `depends_on` of a service's probes.
fn add_dep_edges_in(
    config: &GantryConfig,
    index: &OrderedMap<usize>,
    g: &mut DiGraph<String, ()>,
    at: usize,
) -> (r: Result<(), GantryError>)
    requires
        config.wf(),
        index.wf(),
        at < config.deep_view().services.keys.len(),
        nodes(*old(g)).len() <= u32::MAX,
        index.deep_view() == index_of(nodes(*old(g))),
        nodes(*old(g)) == probe_keys(config.deep_view(), config.deep_view().services.keys),
        edges(*old(g)).len() + dep_counts(
            config.deep_view(),
            config.deep_view().services.keys,
        )[at as int] <= u32::MAX,
    ensures
        nodes(*final(g)) == nodes(*old(g)),
        ({
            let c = config.deep_view();
            let svc = c.services.keys[at as int];
            let d = dep_edges_in(c, nodes(*old(g)), svc, c.services.at(svc).probes.keys);
            match r {
                Ok(_) => d is Ok && edges(*final(g)) == edges(*old(g)) + d->Ok_0 && edges(
                    *final(g),
                ).len() == edges(*old(g)).len() + dep_counts(c, c.services.keys)[at as int],
                Err(e) => d is Err && e.deep_view() == ErrorModel::Validation(d->Err_0),
            }
        }),
{
    let ghost c = config.deep_view();
    let ghost svc = c.services.keys[at as int];
    let ghost probes = c.services.at(svc).probes.keys;
    let ghost all = nodes(*g);
    let ghost es = edges(*g);
    let ghost counts = dep_counts_in(c, svc, probes);
    let name = config.services.name(at);
    let sc = config.services.value(at);
    let n: usize = sc.probes.len();
    let mut i: usize = 0;
    assert(es + Seq::<Edge>::empty() =~= es);
    assert(counts.take(0) =~= Seq::<nat>::empty());
    proof {
        config.services.lemma_valid();
        lemma_probe_keys(c, c.services.keys, at as int);
    }
    while i < n
        invariant
            config.wf(),
            index.wf(),
            c == config.deep_view(),
            at < c.services.keys.len(),
            svc == c.services.keys[at as int],
            name@ == svc,
            sc.ok(),
            sc.deep_view() == c.services.at(svc),
            probes == c.services.at(svc).probes.keys,
            counts == dep_counts_in(c, svc, probes),
            index.deep_view() == index_of(all),
            all.len() <= u32::MAX,
            nodes(*g) == all,
            nodes(*old(g)) == all,
            es == edges(*old(g)),
            es.len() + total(counts) <= u32::MAX,
            forall|j: int| 0 <= j < probes.len() ==> all.contains(#[trigger] keys_in(svc, probes)[j]),
            i <= n == probes.len(),
            dep_edges_in(c, all, svc, probes.take(i as int)) is Ok,
            edges(*g) == es + dep_edges_in(c, all, svc, probes.take(i as int))->Ok_0,
            edges(*g).len() == es.len() + total(counts.take(i as int)),
        decreases n - i,
    {
        let ghost next = probes.take(i + 1);
        assert(next.drop_last() =~= probes.take(i as int));
        assert(next.last() == probes[i as int]);
        proof {
            lemma_deps_in_err(c, all, svc, probes, i + 1);
            lemma_total_take(counts, i as int);
        }
        let key = ProbeRef::new(name.as_str(), sc.probes.name(i).as_str()).to_string();
        assert(key@ == keys_in(svc, probes)[i as int]);
        let ghost mid = edges(*g);
        add_dep_edges_of(index, g, key.as_str(), &sc.probes.value(i).depends_on)?;
        assert(edges(*g) =~= es + dep_edges_in(c, all, svc, next)->Ok_0);
        i = i + 1;
    }
    assert(probes.take(i as int) =~= probes);
    assert(counts.take(i as int) =~= counts);
    Ok(())
}

/// The keys of a service's probes are among the keys of all probes.
pub proof fn lemma_probe_keys(c: ConfigModel, svcs: Seq<Str>, at: int)
    requires
        0 <= at < svcs.len(),
    ensures
        forall|j: int|
            0 <= j < c.services.at(svcs[at]).probes.keys.len() ==> probe_keys(
                c,
                svcs,
            ).contains(#[trigger] keys_in(svcs[at], c.services.at(svcs[at]).probes.keys)[j]),
    decreases svcs.len(),
{
    let front = svcs.drop_last();
    let last = svcs.last();
    let mine = keys_in(svcs[at], c.services.at(svcs[at]).probes.keys);
    let head = probe_keys(c, front);
    let tail = keys_in(last, c.services.at(last).probes.keys);
    let all = probe_keys(c, svcs);
    assert forall|j: int| 0 <= j < mine.len() implies all.contains(#[trigger] mine[j]) by {
        if at == svcs.len() - 1 {
            assert(all[head.len() + j] == mine[j]);
        } else {
            lemma_probe_keys(c, front, at);
            assert(head.contains(mine[j]));
            let k = choose|k: int| 0 <= k < head.len() && head[k] == mine[j];
            assert(all[k] == mine[j]);
        }
    }
}

proof fn lemma_deps_err(c: ConfigModel, all: Seq<Str>, svcs: Seq<Str>, i: int)
    requires
        0 <= i <= svcs.len(),
    ensures
        dep_edges(c, all, svcs.take(i)) is Err ==> dep_edges(c, all, svcs) == dep_edges(
            c,
            all,
            svcs.take(i),
        ),
    decreases svcs.len() - i,
{
    if i < svcs.len() {
        assert(svcs.take(i + 1).drop_last() =~= svcs.take(i));
        lemma_deps_err(c, all, svcs, i + 1);
    } else {
        assert(svcs.take(i) =~= svcs);
    }
}

/// Adds the edges for the `depends_on` of all probes.
fn add_dep_edges(
    config: &GantryConfig,
    index: &OrderedMap<usize>,
    g: &mut DiGraph<String, ()>,
) -> (r: Result<(), GantryError>)
    requires
        config.wf(),
        fits(config.deep_view()),
        index.wf(),
        nodes(*old(g)).len() <= u32::MAX,
        index.deep_view() == index_of(nodes(*old(g))),
        nodes(*old(g)) == probe_keys(config.deep_view(), config.deep_view().services.keys),
        edges(*old(g)) == Seq::<Edge>::empty(),
    ensures
        nodes(*final(g)) == nodes(*old(g)),
        ({
            let c = config.deep_view();
            let d = dep_edges(c, nodes(*old(g)), c.services.keys);
            match r {
                Ok(_) => d == Ok::<Seq<Edge>, Str>(edges(*final(g))),
                Err(e) => d is Err && e.deep_view() == ErrorModel::Validation(d->Err_0),
            }
        }),
{
    let ghost c = config.deep_view();
    let ghost svcs = c.services.keys;
    let ghost all = nodes(*g);
    let n: usize = config.services.len();
    let mut i: usize = 0;
    assert(dep_counts(c, svcs).take(0) =~= Seq::<nat>::empty());
    while i < n
        invariant
            config.wf(),
            c == config.deep_view(),
            svcs == c.services.keys,
            fits(c),
            index.wf(),
            index.deep_view() == index_of(all),
            all == probe_keys(c, svcs),
            all.len() <= u32::MAX,
            nodes(*g) == all,
            nodes(*old(g)) == all,
            i <= n == svcs.len(),
            dep_edges(c, all, svcs.take(i as int)) == Ok::<Seq<Edge>, Str>(edges(*g)),
            edges(*g).len() == total(dep_counts(c, svcs).take(i as int)),
        decreases n - i,
    {
        let ghost next = svcs.take(i + 1);
        assert(next.drop_last() =~= svcs.take(i as int));
        assert(next.last() == svcs[i as int]);
        proof {
            lemma_deps_err(c, all, svcs, i + 1);
            lemma_total_take(dep_counts(c, svcs), i as int);
        }
        add_dep_edges_in(config, index, g, i)?;
        i = i + 1;
    }
    assert(svcs.take(i as int) =~= svcs);
    Ok(())
}

/// Adds the edges for a target's `depends_on`.
fn add_target_edges_of(
    index: &OrderedMap<usize>,
    g: &mut DiGraph<String, ()>,
    tgt: &str,
    deps: &Vec<String>,
)
    requires
        index.wf(),
        nodes(*old(g)).len() <= u32::MAX,
        index.deep_view() == index_of(nodes(*old(g))),
        nodes(*old(g)).contains(tgt@),
        edges(*old(g)).len() + deps.len() <= u32::MAX,
    ensures
        nodes(*final(g)) == nodes(*old(g)),
        edges(*final(g)) == edges(*old(g)) + target_edges_of(
            nodes(*old(g)),
            tgt@,
            deps.deep_view(),
        ),
        edges(*final(g)).len() <= edges(*old(g)).len() + deps.len(),
{
    let ghost all = nodes(*g);
    let ghost es = edges(*g);
    proof {
        lemma_index(all);
    }
    let to: usize = *index.get(tgt).unwrap();
    let mut i: usize = 0;
    assert(es + Seq::<Edge>::empty() =~= es);
    while i < deps.len()
        invariant
            index.wf(),
            index.deep_view() == index_of(all),
            forall|k: Str| #[trigger] index_of(all).has(k) <==> all.contains(k),
            forall|k: Str| #[trigger] index_of(all).has(k) ==> index_of(all).at(k) < all.len(),
            nodes(*g) == all,
            nodes(*old(g)) == all,
            es == edges(*old(g)),
            to == index_of(all).at(tgt@),
            to < all.len(),
            i <= deps.len(),
            es.len() + deps.len() <= u32::MAX,
            edges(*g) == es + target_edges_of(all, tgt@, deps.deep_view().take(i as int)),
            edges(*g).len() <= es.len() + i,
        decreases deps.len() - i,
    {
        let ghost next = deps.deep_view().take(i + 1);
        assert(next.drop_last() =~= deps.deep_view().take(i as int));
        assert(next.last() == deps[i as int]@);
        assert(index_of(all).has(deps[i as int]@) <==> all.contains(deps[i as int]@));
        if let Some(from) = index.get(deps[i].as_str()) {
            graph_add_edge(g, *from, to);
        }
        assert(edges(*g) =~= es + target_edges_of(all, tgt@, next));
        i = i + 1;
    }
    assert(deps.deep_view().take(i as int) =~= deps.deep_view());
}

/// Adds the edges for the `depends_on` of all targets.
fn add_target_edges(config: &GantryConfig, index: &OrderedMap<usize>, g: &mut DiGraph<String, ()>)
    requires
        config.wf(),
        fits(config.deep_view()),
        index.wf(),
        index.deep_view() == index_of(nodes(*old(g))),
        nodes(*old(g)) == config.deep_view().targets.keys,
        edges(*old(g)) == Seq::<Edge>::empty(),
    ensures
        nodes(*final(g)) == nodes(*old(g)),
        edges(*final(g)) == target_edges(config.deep_view(), config.deep_view().targets.keys),
{
    let ghost c = config.deep_view();
    let ghost tgts = c.targets.keys;
    let n: usize = config.targets.len();
    let mut i: usize = 0;
    assert(target_counts(c, tgts).take(0) =~= Seq::<nat>::empty());
    while i < n
        invariant
            config.wf(),
            c == config.deep_view(),
            tgts == c.targets.keys,
            fits(c),
            index.wf(),
            index.deep_view() == index_of(tgts),
            nodes(*g) == tgts,
            nodes(*old(g)) == tgts,
            i <= n == tgts.len(),
            edges(*g) == target_edges(c, tgts.take(i as int)),
            edges(*g).len() <= total(target_counts(c, tgts).take(i as int)),
        decreases n - i,
    {
        let ghost next = tgts.take(i + 1);
        assert(next.drop_last() =~= tgts.take(i as int));
        assert(next.last() == tgts[i as int]);
        proof {
            lemma_total_take(target_counts(c, tgts), i as int);
        }
        let name = config.targets.name(i);
        add_target_edges_of(index, g, name.as_str(), &config.targets.value(i).depends_on);
        i = i + 1;
    }
    assert(tgts.take(i as int) =~= tgts);
}

proof fn lemma_unknown(all: Seq<Str>, list: Seq<Str>, i: int)
    requires
        0 <= i <= list.len(),
    ensures
        first_unknown(all, list.take(i)) is Some ==> first_unknown(all, list) == first_unknown(
            all,
            list.take(i),
        ),
    decreases list.len() - i,
{
    if i < list.len() {
        assert(list.take(i + 1).drop_last() =~= list.take(i));
        lemma_unknown(all, list, i + 1);
    } else {
        assert(list.take(i) =~= list);
    }
}

/// The first of some names that the index does not know.
fn find_unknown<'a>(
    index: &OrderedMap<usize>,
    list: &'a Vec<String>,
    all: Ghost<Seq<Str>>,
) -> (r: Option<&'a String>)
    requires
        index.wf(),
        all@.len() <= u32::MAX,
        index.deep_view() == index_of(all@),
    ensures
        match r {
            Some(x) => first_unknown(all@, list.deep_view()) == Some(x@),
            None => first_unknown(all@, list.deep_view()) is None,
        },
{
    proof {
        lemma_index(all@);
    }
    let mut i: usize = 0;
    while i < list.len()
        invariant
            index.wf(),
            index.deep_view() == index_of(all@),
            forall|k: Str| #[trigger] index_of(all@).has(k) <==> all@.contains(k),
            i <= list.len(),
            first_unknown(all@, list.deep_view().take(i as int)) is None,
        decreases list.len() - i,
    {
        let ghost next = list.deep_view().take(i + 1);
        assert(next.drop_last() =~= list.deep_view().take(i as int));
        assert(next.last() == list[i as int]@);
        assert(index_of(all@).has(list[i as int]@) <==> all@.contains(list[i as int]@));
        if !index.contains_key(list[i].as_str()) {
            proof {
                lemma_unknown(all@, list.deep_view(), i + 1);
            }
            return Some(&list[i]);
        }
        i = i + 1;
    }
    assert(list.deep_view().take(i as int) =~= list.deep_view());
    None
}

proof fn lemma_target_error(c: ConfigModel, all: Seq<Str>, tgts: Seq<Str>, i: int)
    requires
        0 <= i <= tgts.len(),
    ensures
        target_error(c, all, tgts.take(i)) is Some ==> target_error(c, all, tgts) == target_error(
            c,
            all,
            tgts.take(i),
        ),
    decreases tgts.len() - i,
{
    if i < tgts.len() {
        assert(tgts.take(i + 1).drop_last() =~= tgts.take(i));
        lemma_target_error(c, all, tgts, i + 1);
    } else {
        assert(tgts.take(i) =~= tgts);
    }
}

/// Checks that the targets name known probes and targets.
fn check_targets(
    config: &GantryConfig,
    probes: &OrderedMap<usize>,
    targets: &OrderedMap<usize>,
    all: Ghost<Seq<Str>>,
) -> (r: Result<(), GantryError>)
    requires
        config.wf(),
        probes.wf(),
        targets.wf(),
        all@.len() <= u32::MAX,
        config.deep_view().targets.keys.len() <= u32::MAX,
        probes.deep_view() == index_of(all@),
        targets.deep_view() == index_of(config.deep_view().targets.keys),
    ensures
        ({
            let c = config.deep_view();
            let t = target_error(c, all@, c.targets.keys);
            match r {
                Ok(_) => t is None,
                Err(e) => t is Some && e.deep_view() == ErrorModel::Validation(t->0),
            }
        }),
{
    let ghost c = config.deep_view();
    let ghost tgts = c.targets.keys;
    let n: usize = config.targets.len();
    let mut i: usize = 0;
    while i < n
        invariant
            config.wf(),
            probes.wf(),
            targets.wf(),
            c == config.deep_view(),
            tgts == c.targets.keys,
            all@.len() <= u32::MAX,
            tgts.len() <= u32::MAX,
            probes.deep_view() == index_of(all@),
            targets.deep_view() == index_of(tgts),
            i <= n == tgts.len(),
            target_error(c, all@, tgts.take(i as int)) is None,
        decreases n - i,
    {
        let ghost next = tgts.take(i + 1);
        assert(next.drop_last() =~= tgts.take(i as int));
        assert(next.last() == tgts[i as int]);
        proof {
            lemma_target_error(c, all@, tgts, i + 1);
        }
        let name = config.targets.name(i);
        let t = config.targets.value(i);
        if let Some(x) = find_unknown(probes, &t.probes, all) {
            return Err(
                GantryError::Validation(
                    cat5("target '", name.as_str(), "' references unknown probe '", x.as_str(), "'"),
                ),
            );
        }
        if let Some(x) = find_unknown(targets, &t.depends_on, Ghost(tgts)) {
            return Err(
                GantryError::Validation(
                    cat5("target '", name.as_str(), "' depends on unknown target '", x.as_str(), "'"),
                ),
            );
        }
        i = i + 1;
    }
    assert(tgts.take(i as int) =~= tgts);
    Ok(())
}

/// Lists the keys of all probes.
fn list_probe_keys(config: &GantryConfig) -> (r: Vec<String>)
    requires
        config.wf(),
    ensures
        r.deep_view() == probe_keys(config.deep_view(), config.deep_view().services.keys),
{
    let ghost c = config.deep_view();
    let ghost svcs = c.services.keys;
    let n: usize = config.services.len();
    let mut out: Vec<String> = Vec::new();
    let mut i: usize = 0;
    assert(out.deep_view() =~= Seq::<Str>::empty());
    while i < n
        invariant
            config.wf(),
            c == config.deep_view(),
            svcs == c.services.keys,
            i <= n == svcs.len(),
            out.deep_view() == probe_keys(c, svcs.take(i as int)),
        decreases n - i,
    {
        let ghost next = svcs.take(i + 1);
        assert(next.drop_last() =~= svcs.take(i as int));
        assert(next.last() == svcs[i as int]);
        let name = config.services.name(i);
        let sc = config.services.value(i);
        let m: usize = sc.probes.len();
        let ghost head = out.deep_view();
        let ghost probes = c.services.at(svcs[i as int]).probes.keys;
        let ghost tail = keys_in(svcs[i as int], probes);
        let mut j: usize = 0;
        assert(head + tail.take(0) =~= head);
        while j < m
            invariant
                sc.ok(),
                sc.deep_view().probes.keys == probes,
                name@ == svcs[i as int],
                tail == keys_in(svcs[i as int], probes),
                j <= m == probes.len(),
                out.deep_view() == head + tail.take(j as int),
            decreases m - j,
        {
            let ghost before = out.deep_view();
            let key = ProbeRef::new(name.as_str(), sc.probes.name(j).as_str()).to_string();
            out.push(key);
            assert(out.deep_view() =~= before.push(tail[j as int]));
            assert(out.deep_view() =~= head + tail.take(j + 1));
            j = j + 1;
        }
        assert(tail.take(j as int) =~= tail);
        i = i + 1;
    }
    assert(svcs.take(i as int) =~= svcs);
    out
}

/// The number of probe keys is the sum of the services' probes.
proof fn lemma_probe_keys_len(c: ConfigModel, svcs: Seq<Str>)
    ensures
        probe_keys(c, svcs).len() == total(probe_counts(c, svcs)),
    decreases svcs.len(),
{
    if svcs.len() > 0 {
        lemma_probe_keys_len(c, svcs.drop_last());
        assert(probe_counts(c, svcs).drop_last() =~= probe_counts(c, svcs.drop_last()));
    }
}

/// Names the nodes of a list.
fn list_names(g: &DiGraph<String, ()>, list: &Vec<usize>) -> (r: Vec<String>)
    requires
        forall|i: int| 0 <= i < list@.len() ==> #[trigger] list@[i] < nodes(*g).len(),
    ensures
        r.deep_view() == names_of(nodes(*g), list@),
{
    let mut out: Vec<String> = Vec::new();
    let mut i: usize = 0;
    while i < list.len()
        invariant
            forall|i: int| 0 <= i < list@.len() ==> #[trigger] list@[i] < nodes(*g).len(),
            i <= list.len(),
            out.len() == i,
            forall|j: int|
                0 <= j < i ==> (#[trigger] out@[j])@ == nodes(*g)[list@[j] as int],
        decreases list.len() - i,
    {
        out.push(graph_name(g, list[i]).clone());
        i = i + 1;
    }
    assert(out.deep_view() =~= names_of(nodes(*g), list@));
    out
}

/// Whether each end of some edges is below `n`.
pub open spec fn edges_below(es: Seq<Edge>, n: nat) -> bool {
    forall|i: int| 0 <= i < es.len() ==> (#[trigger] es[i]).0 < n && es[i].1 < n
}

proof fn lemma_start_below(c: ConfigModel, svc: Str, deps: Seq<Str>)
    requires
        c.services.valid(),
        c.services.keys.len() <= u32::MAX,
        c.services.has(svc),
        start_edges_of(c, svc, deps) is Ok,
    ensures
        edges_below(start_edges_of(c, svc, deps)->Ok_0, c.services.keys.len()),
    decreases deps.len(),
{
    if deps.len() > 0 {
        lemma_start_below(c, svc, deps.drop_last());
        lemma_index(c.services.keys);
        let r = parse_ref(deps.last())->0;
        assert(index_of(c.services.keys).has(svc));
        assert(index_of(c.services.keys).has(r.service));
    }
}

proof fn lemma_starts_below(c: ConfigModel, svcs: Seq<Str>)
    requires
        c.services.valid(),
        c.services.keys.len() <= u32::MAX,
        forall|i: int| 0 <= i < svcs.len() ==> c.services.has(#[trigger] svcs[i]),
        start_edges(c, svcs) is Ok,
    ensures
        edges_below(start_edges(c, svcs)->Ok_0, c.services.keys.len()),
    decreases svcs.len(),
{
    if svcs.len() > 0 {
        lemma_starts_below(c, svcs.drop_last());
        assert(c.services.has(svcs[svcs.len() - 1]));
        lemma_start_below(c, svcs.last(), c.services.at(svcs.last()).start_after);
    }
}

proof fn lemma_dep_below(all: Seq<Str>, key: Str, deps: Seq<Str>)
    requires
        all.len() <= u32::MAX,
        all.contains(key),
        dep_edges_of(all, key, deps) is Ok,
    ensures
        edges_below(dep_edges_of(all, key, deps)->Ok_0, all.len()),
    decreases deps.len(),
{
    if deps.len() > 0 {
        lemma_dep_below(all, key, deps.drop_last());
        lemma_index(all);
        assert(index_of(all).has(key));
        assert(index_of(all).has(deps.last()));
    }
}

proof fn lemma_deps_in_below(c: ConfigModel, all: Seq<Str>, svc: Str, probes: Seq<Str>)
    requires
        all.len() <= u32::MAX,
        forall|j: int| 0 <= j < probes.len() ==> all.contains(#[trigger] keys_in(svc, probes)[j]),
        dep_edges_in(c, all, svc, probes) is Ok,
    ensures
        edges_below(dep_edges_in(c, all, svc, probes)->Ok_0, all.len()),
    decreases probes.len(),
{
    if probes.len() > 0 {
        let front = probes.drop_last();
        assert forall|j: int| 0 <= j < front.len() implies all.contains(
            #[trigger] keys_in(svc, front)[j],
        ) by {
            assert(keys_in(svc, front)[j] == keys_in(svc, probes)[j]);
        }
        lemma_deps_in_below(c, all, svc, front);
        assert(all.contains(keys_in(svc, probes)[probes.len() - 1]));
        lemma_dep_below(
            all,
            (RefModel { service: svc, probe: probes.last() }).text(),
            c.services.at(svc).probes.at(probes.last()).depends_on,
        );
    }
}

proof fn lemma_deps_below(c: ConfigModel, all: Seq<Str>, svcs: Seq<Str>, n: int)
    requires
        0 <= n <= svcs.len(),
        all.len() <= u32::MAX,
        all == probe_keys(c, svcs),
        dep_edges(c, all, svcs.take(n)) is Ok,
    ensures
        edges_below(dep_edges(c, all, svcs.take(n))->Ok_0, all.len()),
    decreases n,
{
    if n > 0 {
        assert(svcs.take(n).drop_last() =~= svcs.take(n - 1));
        lemma_deps_below(c, all, svcs, n - 1);
        lemma_probe_keys(c, svcs, n - 1);
        lemma_deps_in_below(c, all, svcs[n - 1], c.services.at(svcs[n - 1]).probes.keys);
    }
}

proof fn lemma_target_below(all: Seq<Str>, tgt: Str, deps: Seq<Str>)
    requires
        all.len() <= u32::MAX,
        all.contains(tgt),
    ensures
        edges_below(target_edges_of(all, tgt, deps), all.len()),
    decreases deps.len(),
{
    if deps.len() > 0 {
        lemma_target_below(all, tgt, deps.drop_last());
        lemma_index(all);
        assert(index_of(all).has(tgt));
        assert(index_of(all).has(deps.last()) <==> all.contains(deps.last()));
    }
}

proof fn lemma_targets_below(c: ConfigModel, tgts: Seq<Str>)
    requires
        c.targets.keys.len() <= u32::MAX,
        forall|i: int| 0 <= i < tgts.len() ==> c.targets.keys.contains(#[trigger] tgts[i]),
    ensures
        edges_below(target_edges(c, tgts), c.targets.keys.len()),
    decreases tgts.len(),
{
    if tgts.len() > 0 {
        lemma_targets_below(c, tgts.drop_last());
        assert(c.targets.keys.contains(tgts[tgts.len() - 1]));
        lemma_target_below(c.targets.keys, tgts.last(), c.targets.at(tgts.last()).depends_on);
    }
}

/// Whether no path of edges leads from a node back to it.
pub open spec fn no_cycle(es: Seq<Edge>) -> bool {
    forall|v: usize| !(#[trigger] on_cycle(es, v))
}

/// What is known of the result of sorting: every edge leads forward in the order, or the node
/// lies on a cycle.
pub open spec fn sorting_told(n: nat, es: Seq<Edge>) -> bool {
    match topo_result(n, es) {
        Ok(list) => is_topo_order(n, es, list),
        Err(v) => v < n && on_cycle(es, v),
    }
}

/// What is known of each graph of a configuration that was sorted: a cycle is told only where
/// there is one, and is told where there is one.
pub open spec fn cycles_told(c: ConfigModel) -> bool {
    let svcs = c.services.keys;
    let keys = probe_keys(c, svcs);
    let tgts = c.targets.keys;
    match start_edges(c, svcs) {
        Err(_) => true,
        Ok(se) => sorting_told(svcs.len(), se) && (topo_result(svcs.len(), se) is Ok ==> match dep_edges(
            c,
            keys,
            svcs,
        ) {
            Err(_) => true,
            Ok(de) => sorting_told(keys.len(), de) && (topo_result(keys.len(), de) is Ok
                ==> sorting_told(tgts.len(), target_edges(c, tgts))),
        }),
    }
}

/// Whether each service, probe and target that a configuration names exists.
pub open spec fn names_known(c: ConfigModel) -> bool {
    let all = probe_keys(c, c.services.keys);
    &&& forall|k: Str, i: int|
        #![trigger c.services.at(k).start_after[i]]
        c.services.keys.contains(k) && 0 <= i < c.services.at(k).start_after.len() ==> (parse_ref(
            c.services.at(k).start_after[i],
        ) matches Some(r) && c.services.has(r.service))
    &&& forall|k: Str, p: Str, i: int|
        #![trigger c.services.at(k).probes.at(p).depends_on[i]]
        c.services.keys.contains(k) && c.services.at(k).probes.keys.contains(p) && 0 <= i
            < c.services.at(k).probes.at(p).depends_on.len() ==> all.contains(
            c.services.at(k).probes.at(p).depends_on[i],
        )
    &&& forall|k: Str, i: int|
        #![trigger c.targets.at(k).probes[i]]
        c.targets.keys.contains(k) && 0 <= i < c.targets.at(k).probes.len() ==> all.contains(
            c.targets.at(k).probes[i],
        )
    &&& forall|k: Str, i: int|
        #![trigger c.targets.at(k).depends_on[i]]
        c.targets.keys.contains(k) && 0 <= i < c.targets.at(k).depends_on.len()
            ==> c.targets.keys.contains(c.targets.at(k).depends_on[i])
}

/// Whether no service starts after itself, and no probe and no target depends on itself,
/// directly or through others.
pub open spec fn loop_free(c: ConfigModel) -> bool {
    let svcs = c.services.keys;
    &&& no_cycle(start_edges(c, svcs)->Ok_0)
    &&& no_cycle(dep_edges(c, probe_keys(c, svcs), svcs)->Ok_0)
    &&& no_cycle(target_edges(c, c.targets.keys))
}

/// Along a path every node stands later in a topological order.
proof fn lemma_later(n: nat, es: Seq<Edge>, list: Seq<usize>, path: Seq<usize>, k: int) -> (at: (
    int,
    int,
))
    requires
        is_topo_order(n, es, list),
        edges_below(es, n),
        is_path(es, path),
        0 < k < path.len(),
    ensures
        0 <= at.0 < at.1 < list.len(),
        list[at.0] == path[0],
        list[at.1] == path[k],
    decreases k,
{
    assert(steps(es, path, k - 1));
    let e = choose|e: int| 0 <= e < es.len() && es[e] == (path[k - 1], path[k]);
    lemma_all_listed(list, n, es[e].0);
    lemma_all_listed(list, n, es[e].1);
    let j = choose|j: int| 0 <= j < list.len() && list[j] == path[k];
    if k == 1 {
        let i = choose|i: int| 0 <= i < list.len() && list[i] == path[0];
        assert(es.contains((list[i], list[j])));
        (i, j)
    } else {
        let (i, m) = lemma_later(n, es, list, path, k - 1);
        assert(es.contains((list[m], list[j])));
        (i, j)
    }
}

/// Where there is a topological order, there is no cycle.
pub proof fn lemma_order_no_cycle(n: nat, es: Seq<Edge>, list: Seq<usize>)
    requires
        is_topo_order(n, es, list),
        edges_below(es, n),
    ensures
        no_cycle(es),
{
    assert forall|v: usize| !(#[trigger] on_cycle(es, v)) by {
        if on_cycle(es, v) {
            let path = choose|path: Seq<usize>| #[trigger]
                is_path(es, path) && path.len() > 1 && path[0] == v && path.last() == v;
            let (i, j) = lemma_later(n, es, list, path, path.len() - 1);
            assert(list[i] == list[j]);
        }
    }
}

proof fn lemma_start_known_of(c: ConfigModel, svc: Str, deps: Seq<Str>)
    ensures
        start_edges_of(c, svc, deps) is Ok <==> forall|i: int|
            0 <= i < deps.len() ==> (parse_ref(#[trigger] deps[i]) matches Some(r)
                && c.services.has(r.service)),
    decreases deps.len(),
{
    if deps.len() > 0 {
        let front = deps.drop_last();
        lemma_start_known_of(c, svc, front);
        assert(forall|i: int| 0 <= i < front.len() ==> #[trigger] front[i] == deps[i]);
        assert(deps.last() == deps[deps.len() - 1]);
        if start_edges_of(c, svc, deps) is Ok {
            assert forall|i: int| 0 <= i < deps.len() implies (parse_ref(
                #[trigger] deps[i],
            ) matches Some(r) && c.services.has(r.service)) by {
                if i < front.len() {
                    assert(front[i] == deps[i]);
                }
            }
        }
    }
}

proof fn lemma_start_known(c: ConfigModel, svcs: Seq<Str>)
    ensures
        start_edges(c, svcs) is Ok <==> forall|k: Str, i: int|
            #![trigger c.services.at(k).start_after[i]]
            svcs.contains(k) && 0 <= i < c.services.at(k).start_after.len() ==> (parse_ref(
                c.services.at(k).start_after[i],
            ) matches Some(r) && c.services.has(r.service)),
    decreases svcs.len(),
{
    if svcs.len() > 0 {
        let front = svcs.drop_last();
        let last = svcs.last();
        let deps = c.services.at(last).start_after;
        lemma_start_known(c, front);
        lemma_start_known_of(c, last, deps);
        lemma_split(svcs);
        if start_edges(c, svcs) is Ok {
            assert forall|k: Str, i: int|
                #![trigger c.services.at(k).start_after[i]]
                svcs.contains(k) && 0 <= i < c.services.at(k).start_after.len() implies (parse_ref(
                c.services.at(k).start_after[i],
            ) matches Some(r) && c.services.has(r.service)) by {
                if k == last {
                    assert(deps[i] == c.services.at(k).start_after[i]);
                } else {
                    assert(front.contains(k));
                }
            }
        } else if start_edges(c, front) is Err {
            let (k, i) = choose|k: Str, i: int|
                #![trigger c.services.at(k).start_after[i]]
                front.contains(k) && 0 <= i < c.services.at(k).start_after.len() && !(parse_ref(
                    c.services.at(k).start_after[i],
                ) matches Some(r) && c.services.has(r.service));
            assert(svcs.contains(k));
        } else {
            let i = choose|i: int|
                0 <= i < deps.len() && !(parse_ref(#[trigger] deps[i]) matches Some(r)
                    && c.services.has(r.service));
            assert(svcs.contains(last));
            assert(c.services.at(last).start_after[i] == deps[i]);
        }
    }
}

/// A list holds what its front holds, and its last name.
proof fn lemma_split(list: Seq<Str>)
    requires
        list.len() > 0,
    ensures
        forall|k: Str| #[trigger]
            list.contains(k) <==> list.drop_last().contains(k) || k == list.last(),
{
    let front = list.drop_last();
    assert forall|k: Str| #[trigger] list.contains(k) <==> front.contains(k) || k
        == list.last() by {
        if list.contains(k) {
            let i = choose|i: int| 0 <= i < list.len() && list[i] == k;
            if i < front.len() {
                assert(front[i] == k);
            }
        }
        if front.contains(k) {
            let i = choose|i: int| 0 <= i < front.len() && front[i] == k;
            assert(list[i] == k);
        }
        assert(list[list.len() - 1] == list.last());
    }
}

proof fn lemma_dep_known_of(all: Seq<Str>, key: Str, deps: Seq<Str>)
    ensures
        dep_edges_of(all, key, deps) is Ok <==> forall|i: int|
            0 <= i < deps.len() ==> all.contains(#[trigger] deps[i]),
    decreases deps.len(),
{
    if deps.len() > 0 {
        let front = deps.drop_last();
        lemma_dep_known_of(all, key, front);
        assert(forall|i: int| 0 <= i < front.len() ==> #[trigger] front[i] == deps[i]);
        assert(deps.last() == deps[deps.len() - 1]);
        if dep_edges_of(all, key, deps) is Ok {
            assert forall|i: int| 0 <= i < deps.len() implies all.contains(#[trigger] deps[i]) by {
                if i < front.len() {
                    assert(front[i] == deps[i]);
                }
            }
        }
    }
}

spec fn deps_known(c: ConfigModel, all: Seq<Str>, svc: Str, probes: Seq<Str>) -> bool {
    forall|p: Str, i: int|
        #![trigger c.services.at(svc).probes.at(p).depends_on[i]]
        probes.contains(p) && 0 <= i < c.services.at(svc).probes.at(p).depends_on.len()
            ==> all.contains(c.services.at(svc).probes.at(p).depends_on[i])
}

proof fn lemma_dep_known_in(c: ConfigModel, all: Seq<Str>, svc: Str, probes: Seq<Str>)
    ensures
        dep_edges_in(c, all, svc, probes) is Ok <==> deps_known(c, all, svc, probes),
    decreases probes.len(),
{
    if probes.len() > 0 {
        let front = probes.drop_last();
        let last = probes.last();
        let deps = c.services.at(svc).probes.at(last).depends_on;
        lemma_dep_known_in(c, all, svc, front);
        lemma_dep_known_of(all, (RefModel { service: svc, probe: last }).text(), deps);
        lemma_split(probes);
        if dep_edges_in(c, all, svc, probes) is Ok {
            assert forall|p: Str, i: int|
                #![trigger c.services.at(svc).probes.at(p).depends_on[i]]
                probes.contains(p) && 0 <= i < c.services.at(svc).probes.at(p).depends_on.len()
                implies all.contains(c.services.at(svc).probes.at(p).depends_on[i]) by {
                if p == last {
                    assert(deps[i] == c.services.at(svc).probes.at(p).depends_on[i]);
                } else {
                    assert(front.contains(p));
                }
            }
        } else if dep_edges_in(c, all, svc, front) is Err {
            let (p, i) = choose|p: Str, i: int|
                #![trigger c.services.at(svc).probes.at(p).depends_on[i]]
                front.contains(p) && 0 <= i < c.services.at(svc).probes.at(p).depends_on.len()
                    && !all.contains(c.services.at(svc).probes.at(p).depends_on[i]);
            assert(probes.contains(p));
        } else {
            let i = choose|i: int| 0 <= i < deps.len() && !all.contains(#[trigger] deps[i]);
            assert(probes.contains(last));
            assert(c.services.at(svc).probes.at(last).depends_on[i] == deps[i]);
        }
    }
}

proof fn lemma_dep_known(c: ConfigModel, all: Seq<Str>, svcs: Seq<Str>)
    ensures
        dep_edges(c, all, svcs) is Ok <==> forall|k: Str| #[trigger]
            svcs.contains(k) ==> deps_known(c, all, k, c.services.at(k).probes.keys),
    decreases svcs.len(),
{
    if svcs.len() > 0 {
        let front = svcs.drop_last();
        let last = svcs.last();
        lemma_dep_known(c, all, front);
        lemma_dep_known_in(c, all, last, c.services.at(last).probes.keys);
        lemma_split(svcs);
        if dep_edges(c, all, svcs) is Ok {
            assert forall|k: Str| #[trigger] svcs.contains(k) implies deps_known(
                c,
                all,
                k,
                c.services.at(k).probes.keys,
            ) by {
                if k != last {
                    assert(front.contains(k));
                }
            }
        } else if dep_edges(c, all, front) is Err {
            let k = choose|k: Str| #[trigger]
                front.contains(k) && !deps_known(c, all, k, c.services.at(k).probes.keys);
            assert(svcs.contains(k));
        } else {
            assert(svcs.contains(last));
        }
    }
}

proof fn lemma_first_unknown(all: Seq<Str>, names: Seq<Str>)
    ensures
        first_unknown(all, names) is None <==> forall|i: int|
            0 <= i < names.len() ==> all.contains(#[trigger] names[i]),
    decreases names.len(),
{
    if names.len() > 0 {
        let front = names.drop_last();
        lemma_first_unknown(all, front);
        assert(forall|i: int| 0 <= i < front.len() ==> #[trigger] front[i] == names[i]);
        assert(names.last() == names[names.len() - 1]);
        if first_unknown(all, names) is None {
            assert forall|i: int| 0 <= i < names.len() implies all.contains(
                #[trigger] names[i],
            ) by {
                if i < front.len() {
                    assert(front[i] == names[i]);
                }
            }
        }
    }
}

spec fn target_known(c: ConfigModel, all: Seq<Str>, k: Str) -> bool {
    &&& forall|i: int|
        0 <= i < c.targets.at(k).probes.len() ==> all.contains(
            #[trigger] c.targets.at(k).probes[i],
        )
    &&& forall|i: int|
        0 <= i < c.targets.at(k).depends_on.len() ==> c.targets.keys.contains(
            #[trigger] c.targets.at(k).depends_on[i],
        )
}

proof fn lemma_targets_known(c: ConfigModel, all: Seq<Str>, tgts: Seq<Str>)
    ensures
        target_error(c, all, tgts) is None <==> forall|k: Str| #[trigger]
            tgts.contains(k) ==> target_known(c, all, k),
    decreases tgts.len(),
{
    if tgts.len() > 0 {
        let front = tgts.drop_last();
        let last = tgts.last();
        lemma_targets_known(c, all, front);
        lemma_first_unknown(all, c.targets.at(last).probes);
        lemma_first_unknown(c.targets.keys, c.targets.at(last).depends_on);
        lemma_split(tgts);
        if target_error(c, all, tgts) is None {
            assert forall|k: Str| #[trigger] tgts.contains(k) implies target_known(
                c,
                all,
                k,
            ) by {
                if k != last {
                    assert(front.contains(k));
                }
            }
        } else if target_error(c, all, front) is Some {
            let k = choose|k: Str| #[trigger] front.contains(k) && !target_known(c, all, k);
            assert(tgts.contains(k));
        } else {
            assert(tgts.contains(last));
        }
    }
}

/// A graph can be built of a configuration if and only if all that it names exists, and
/// nothing depends on itself.
pub proof fn law_buildable(c: ConfigModel)
    requires
        c.services.valid(),
        fits(c),
        cycles_told(c),
    ensures
        graph_of(c) is Ok <==> names_known(c) && loop_free(c),
{
    let svcs = c.services.keys;
    let keys = probe_keys(c, svcs);
    let tgts = c.targets.keys;
    lemma_start_known(c, svcs);
    lemma_dep_known(c, keys, svcs);
    lemma_targets_known(c, keys, tgts);
    lemma_probe_keys_len(c, svcs);
    assert forall|i: int| 0 <= i < svcs.len() implies c.services.has(#[trigger] svcs[i]) by {
        assert(svcs.contains(svcs[i]));
    }
    assert(svcs.take(svcs.len() as int) =~= svcs);
    lemma_targets_below(c, tgts);
    if start_edges(c, svcs) is Ok {
        lemma_starts_below(c, svcs);
    }
    if dep_edges(c, keys, svcs) is Ok {
        lemma_deps_below(c, keys, svcs, svcs.len() as int);
    }
    if graph_of(c) is Ok {
        let se = start_edges(c, svcs)->Ok_0;
        let de = dep_edges(c, keys, svcs)->Ok_0;
        let te = target_edges(c, tgts);
        lemma_order_no_cycle(svcs.len(), se, topo_result(svcs.len(), se)->Ok_0);
        lemma_order_no_cycle(keys.len(), de, topo_result(keys.len(), de)->Ok_0);
        lemma_order_no_cycle(tgts.len(), te, topo_result(tgts.len(), te)->Ok_0);
        assert forall|k: Str, p: Str, i: int|
            #![trigger c.services.at(k).probes.at(p).depends_on[i]]
            svcs.contains(k) && c.services.at(k).probes.keys.contains(p) && 0 <= i
                < c.services.at(k).probes.at(p).depends_on.len() implies keys.contains(
            c.services.at(k).probes.at(p).depends_on[i],
        ) by {
            assert(deps_known(c, keys, k, c.services.at(k).probes.keys));
        }
        assert forall|k: Str, i: int|
            #![trigger c.targets.at(k).probes[i]]
            tgts.contains(k) && 0 <= i < c.targets.at(k).probes.len() implies keys.contains(
            c.targets.at(k).probes[i],
        ) by {
            assert(target_known(c, keys, k));
        }
        assert forall|k: Str, i: int|
            #![trigger c.targets.at(k).depends_on[i]]
            tgts.contains(k) && 0 <= i < c.targets.at(k).depends_on.len() implies tgts.contains(
            c.targets.at(k).depends_on[i],
        ) by {
            assert(target_known(c, keys, k));
        }
    }
    if names_known(c) {
        assert forall|k: Str| #[trigger] svcs.contains(k) implies deps_known(
            c,
            keys,
            k,
            c.services.at(k).probes.keys,
        ) by {}
        assert forall|k: Str| #[trigger] tgts.contains(k) implies target_known(c, keys, k) by {}
    }
}

/// Whether a list names each node of a layer once, with every edge leading forward.
pub open spec fn sorted(layer: Layer, order: Seq<Str>) -> bool {
    exists|list: Seq<usize>| #[trigger]
        is_topo_order(layer.nodes.len(), layer.edges, list) && order == names_of(layer.nodes, list)
}

impl GraphModel {
    /// Edges are between nodes, the two orders are topological, and no target leads back to
    /// itself.
    pub open spec fn valid(self) -> bool {
        &&& self.services.nodes.len() <= u32::MAX
        &&& self.probes.nodes.len() <= u32::MAX
        &&& self.targets.nodes.len() <= u32::MAX
        &&& self.services.closed_edges()
        &&& self.probes.closed_edges()
        &&& self.targets.closed_edges()
        &&& self.services.nodes.no_duplicates()
        &&& self.targets.nodes.no_duplicates()
        &&& sorted(self.services, self.topo_order)
        &&& sorted(self.probes, self.probe_topo_order)
        &&& no_cycle(self.targets.edges)
    }
}

/// The dependencies between services, probes and targets.
pub struct DependencyGraph {
    pub start_after_graph: DiGraph<String, ()>,
    pub depends_on_graph: DiGraph<String, ()>,
    svc_to_node: OrderedMap<usize>,
    probe_to_node: OrderedMap<usize>,
    /// The services, each after those it starts after.
    pub topo_order: Vec<String>,
    /// The probes, each after those it depends on.
    pub probe_topo_order: Vec<String>,
    target_graph: DiGraph<String, ()>,
    tgt_to_node: OrderedMap<usize>,
}

impl DeepView for DependencyGraph {
    type V = GraphModel;

    closed spec fn deep_view(&self) -> GraphModel {
        GraphModel {
            services: Layer {
                nodes: nodes(self.start_after_graph),
                edges: edges(self.start_after_graph),
            },
            probes: Layer {
                nodes: nodes(self.depends_on_graph),
                edges: edges(self.depends_on_graph),
            },
            targets: Layer { nodes: nodes(self.target_graph), edges: edges(self.target_graph) },
            topo_order: self.topo_order.deep_view(),
            probe_topo_order: self.probe_topo_order.deep_view(),
        }
    }
}

impl DependencyGraph {
    /// The model is valid, and each name is indexed.
    pub closed spec fn wf(&self) -> bool {
        &&& self.deep_view().valid()
        &&& self.svc_to_node.wf()
        &&& self.probe_to_node.wf()
        &&& self.tgt_to_node.wf()
        &&& self.svc_to_node.deep_view() == index_of(nodes(self.start_after_graph))
        &&& self.probe_to_node.deep_view() == index_of(nodes(self.depends_on_graph))
        &&& self.tgt_to_node.deep_view() == index_of(nodes(self.target_graph))
    }

    /// The model of a graph in order is valid.
    pub proof fn lemma_valid(&self)
        requires
            self.wf(),
        ensures
            self.deep_view().valid(),
    {
    }

    /// The services, each after those it starts after.
    pub fn topo_order(&self) -> (r: &Vec<String>)
        ensures
            r.deep_view() == self.deep_view().topo_order,
    {
        &self.topo_order
    }

    /// The probes, each after those it depends on.
    pub fn probe_topo_order(&self) -> (r: &Vec<String>)
        ensures
            r.deep_view() == self.deep_view().probe_topo_order,
    {
        &self.probe_topo_order
    }

    /// The probes that depend on a probe.
    pub fn reverse_depends_on(&self, probe_key: &str) -> (r: Vec<String>)
        requires
            self.wf(),
        ensures
            r.deep_view() == self.deep_view().probes.next(probe_key@),
    {
        match self.probe_to_node.get(probe_key) {
            None => {
                let r: Vec<String> = Vec::new();
                assert(r.deep_view() =~= Seq::<Str>::empty());
                r
            },
            Some(node) => {
                proof {
                    lemma_index(nodes(self.depends_on_graph));
                    lemma_targets(
                        edges(self.depends_on_graph),
                        *node,
                        nodes(self.depends_on_graph).len(),
                    );
                }
                let list = graph_targets(&self.depends_on_graph, *node);
                list_names(&self.depends_on_graph, &list)
            },
        }
    }

    /// Builds the graph of a configuration, and says what is wrong with it otherwise.
    pub fn build(config: &GantryConfig) -> (r: Result<Self, GantryError>)
        requires
            config.wf(),
            fits(config.deep_view()),
        ensures
            r is Ok <==> names_known(config.deep_view()) && loop_free(config.deep_view()),
            cycles_told(config.deep_view()),
            match r {
                Ok(g) => g.wf() && graph_of(config.deep_view()) == Ok::<GraphModel, ErrorModel>(
                    g.deep_view(),
                ),
                Err(e) => graph_of(config.deep_view()) == Err::<GraphModel, ErrorModel>(
                    e.deep_view(),
                ),
            },
    {
        let ghost c = config.deep_view();
        let ghost svcs = c.services.keys;
        let ghost keys = probe_keys(c, svcs);
        proof {
            config.services.lemma_valid();
            config.targets.lemma_valid();
            lemma_probe_keys_len(c, svcs);
            if cycles_told(c) {
                law_buildable(c);
            }
        }
        // Services, by what they start after.
        let svc_names = config.services.names();
        assert(svc_names.deep_view().len() == svc_names.len());
        let (mut start_after_graph, svc_to_node) = add_nodes(&svc_names);
        add_start_edges(config, &svc_to_node, &mut start_after_graph)?;
        let topo_order = match graph_toposort(&start_after_graph) {
            Ok(order) => {
                proof {
                    lemma_starts_below(c, svcs);
                    assert(is_topo_order(svcs.len(), edges(start_after_graph), order@));
                }
                list_names(&start_after_graph, &order)
            },
            Err(v) => {
                return Err(
                    GantryError::Validation(
                        cat3(
                            "start_after has a cycle involving service '",
                            graph_name(&start_after_graph, v).as_str(),
                            "'",
                        ),
                    ),
                );
            },
        };
        // Probes, by what they depend on.
        let key_list = list_probe_keys(config);
        assert(key_list.deep_view().len() == key_list.len());
        let (mut depends_on_graph, probe_to_node) = add_nodes(&key_list);
        add_dep_edges(config, &probe_to_node, &mut depends_on_graph)?;
        let probe_topo_order = match graph_toposort(&depends_on_graph) {
            Ok(order) => {
                proof {
                    assert(svcs.take(svcs.len() as int) =~= svcs);
                    lemma_deps_below(c, keys, svcs, svcs.len() as int);
                    assert(is_topo_order(keys.len(), edges(depends_on_graph), order@));
                }
                list_names(&depends_on_graph, &order)
            },
            Err(v) => {
                return Err(
                    GantryError::Validation(
                        cat3(
                            "depends_on has a cycle involving probe '",
                            graph_name(&depends_on_graph, v).as_str(),
                            "'",
                        ),
                    ),
                );
            },
        };
        // Targets, by what they depend on.
        let tgt_names = config.targets.names();
        assert(tgt_names.deep_view().len() == tgt_names.len());
        let (mut target_graph, tgt_to_node) = add_nodes(&tgt_names);
        add_target_edges(config, &tgt_to_node, &mut target_graph);
        proof {
            lemma_targets_below(c, c.targets.keys);
        }
        if let Err(v) = graph_toposort(&target_graph) {
            return Err(
                GantryError::Validation(
                    cat3(
                        "target depends_on has a cycle involving target '",
                        graph_name(&target_graph, v).as_str(),
                        "'",
                    ),
                ),
            );
        }
        check_targets(config, &probe_to_node, &tgt_to_node, Ghost(keys))?;
        let g = DependencyGraph {
            start_after_graph,
            depends_on_graph,
            svc_to_node,
            probe_to_node,
            topo_order,
            probe_topo_order,
            target_graph,
            tgt_to_node,
        };
        proof {
            let m = g.deep_view();
            assert(edges_below(m.services.edges, m.services.nodes.len()));
            assert(m.services.closed_edges());
            assert(edges_below(m.probes.edges, m.probes.nodes.len()));
            assert(m.probes.closed_edges());
            assert(edges_below(m.targets.edges, m.targets.nodes.len()));
            assert(m.targets.closed_edges());
            assert(sorted(m.services, m.topo_order));
            assert(sorted(m.probes, m.probe_topo_order));
            assert(m == graph_of(c)->Ok_0);
        }
        Ok(g)
    }
}

impl DependencyGraph {
    /// The services that the named one starts after.
    pub fn start_deps(&self, svc: &str) -> (r: Vec<String>)
        requires
            self.wf(),
        ensures
            r.deep_view() == self.deep_view().services.prev(svc@),
    {
        match self.svc_to_node.get(svc) {
            None => {
                let r: Vec<String> = Vec::new();
                assert(r.deep_view() =~= Seq::<Str>::empty());
                r
            },
            Some(node) => {
                proof {
                    lemma_index(nodes(self.start_after_graph));
                    lemma_sources(
                        edges(self.start_after_graph),
                        *node,
                        nodes(self.start_after_graph).len(),
                    );
                }
                let list = graph_sources(&self.start_after_graph, *node);
                list_names(&self.start_after_graph, &list)
            },
        }
    }

    /// The named target and all that it depends on, breadth first.
    pub(crate) fn target_chain(&self, name: &str) -> (r: Vec<String>)
        requires
            self.wf(),
        ensures
            r.deep_view() == chain(self.deep_view().targets, name@),
            self.deep_view().targets.has(name@) ==> is_ancestry_in(
                self.deep_view().targets,
                self.deep_view().targets.node(name@),
                bfs_back(
                    self.deep_view().targets.edges,
                    self.deep_view().targets.node(name@),
                ),
            ),
    {
        match self.tgt_to_node.get(name) {
            None => {
                let r: Vec<String> = Vec::new();
                assert(r.deep_view() =~= Seq::<Str>::empty());
                r
            },
            Some(node) => {
                proof {
                    lemma_index(nodes(self.target_graph));
                }
                let list = graph_bfs_back(&self.target_graph, *node);
                list_names(&self.target_graph, &list)
            },
        }
    }

    /// The probe of the given key and all that it depends on, depth first.
    pub(crate) fn probe_chain(&self, key: &str) -> (r: Vec<String>)
        requires
            self.wf(),
        ensures
            r.deep_view() == ancestors(self.deep_view().probes, key@),
            self.deep_view().probes.has(key@) ==> is_ancestry_in(
                self.deep_view().probes,
                self.deep_view().probes.node(key@),
                dfs_back(self.deep_view().probes.edges, self.deep_view().probes.node(key@)),
            ),
    {
        match self.probe_to_node.get(key) {
            None => {
                let r: Vec<String> = Vec::new();
                assert(r.deep_view() =~= Seq::<Str>::empty());
                r
            },
            Some(node) => {
                proof {
                    lemma_index(nodes(self.depends_on_graph));
                }
                let list = graph_dfs_back(&self.depends_on_graph, *node);
                list_names(&self.depends_on_graph, &list)
            },
        }
    }
}

/// Whether a list holds each node of a layer from which `start` can be reached once, and no
/// other.
pub open spec fn is_ancestry_in(g: Layer, start: usize, list: Seq<usize>) -> bool {
    &&& is_ancestry(g.edges, start, list)
    &&& forall|i: int| 0 <= i < list.len() ==> #[trigger] list[i] < g.nodes.len()
}

/// The names of the nodes that a breadth-first walk against the edges meets.
pub open spec fn chain(g: Layer, name: Str) -> Seq<Str> {
    if g.has(name) {
        names_of(g.nodes, bfs_back(g.edges, g.node(name)))
    } else {
        Seq::empty()
    }
}

/// The names of the nodes that a depth-first walk against the edges meets.
pub open spec fn ancestors(g: Layer, name: Str) -> Seq<Str> {
    if g.has(name) {
        names_of(g.nodes, dfs_back(g.edges, g.node(name)))
    } else {
        Seq::empty()
    }
}

/// Every edge of a sorted layer leads from a name to a later one.
pub proof fn law_sorted(layer: Layer, order: Seq<Str>, e: int) -> (at: (int, int))
    requires
        sorted(layer, order),
        layer.closed_edges(),
        0 <= e < layer.edges.len(),
    ensures
        0 <= at.0 < at.1 < order.len(),
        order[at.0] == layer.nodes[layer.edges[e].0 as int],
        order[at.1] == layer.nodes[layer.edges[e].1 as int],
{
    let list = choose|list: Seq<usize>| #[trigger]
        is_topo_order(layer.nodes.len(), layer.edges, list) && order == names_of(layer.nodes, list);
    let n = layer.nodes.len();
    lemma_all_listed(list, n, layer.edges[e].0);
    lemma_all_listed(list, n, layer.edges[e].1);
    let i = choose|i: int| 0 <= i < list.len() && list[i] == layer.edges[e].0;
    let j = choose|j: int| 0 <= j < list.len() && list[j] == layer.edges[e].1;
    assert(layer.edges.contains((list[i], list[j])));
    (i, j)
}

/// A list of as many different indices as there are holds each of them.
pub proof fn lemma_all_listed(list: Seq<usize>, n: nat, v: usize)
    requires
        list.len() == n,
        list.no_duplicates(),
        forall|i: int| 0 <= i < list.len() ==> #[trigger] list[i] < n,
        v < n,
    ensures
        list.contains(v),
{
    let all = Set::new(|x: int| 0 <= x < n);
    let nums = list.map_values(|x: usize| x as int);
    assert(nums.no_duplicates());
    nums.unique_seq_to_set();
    vstd::set_lib::lemma_int_range(0, n as int);
    assert(all =~= vstd::set_lib::set_int_range(0, n as int));
    assert(nums.to_set().subset_of(all)) by {
        assert forall|x: int| nums.to_set().contains(x) implies all.contains(x) by {
            let i = choose|i: int| 0 <= i < nums.len() && nums[i] == x;
            assert(list[i] < n);
        }
    }
    vstd::set_lib::lemma_subset_equality(nums.to_set(), all);
    assert(all.contains(v as int));
    assert(nums.contains(v as int));
    let i = choose|i: int| 0 <= i < nums.len() && nums[i] == v as int;
    assert(list[i] == v);
}

} // verus!
