//! What is done to a configuration once it is read.
use crate::config::{
    ConfigModel, GantryConfig, ProbeConfig, ProbeConfigModel, ProbeEntry, ProbeEntryModel,
    ServiceConfigModel,
};
use crate::digraph::{
    edges, graph_add_edge, graph_name, graph_toposort, is_path, is_topo_order, nodes, on_cycle,
    steps, topo_result,
};
use crate::graph::{
    add_nodes, dep_counts, dep_counts_in, edges_below, fits, index_of, keys_in, lemma_all_listed,
    lemma_index, lemma_order_no_cycle, lemma_total_take, names_of, no_cycle, probe_counts,
    start_counts, target_counts, total, Edge,
};
use crate::model::{parse_ref, ProbeRef, RefModel};
use crate::ordered_map::{Item, OrderedMap, Table};
use crate::text::{copy_list, text_eq, Str};
use petgraph::graph::DiGraph;
use vstd::prelude::*;

verus! {

/// The probes of a service after a meta probe `ready` is added that depends on all others.
/// A service that has one, or that has no probe, gets none.
pub open spec fn with_ready(svc: Str, probes: Table<ProbeEntryModel>) -> Table<ProbeEntryModel> {
    if probes.has("ready"@) || probes.keys.len() == 0 {
        probes
    } else {
        probes.put(
            "ready"@,
            ProbeEntryModel {
                probe: ProbeConfigModel::Meta,
                depends_on: keys_in(svc, probes.keys),
            },
        )
    }
}

/// The edges from the probes of a service that one of them depends on, for some entries of
/// its `depends_on`. Probes of other services have none.
pub open spec fn inner_edges_of(
    svc: Str,
    keys: Seq<Str>,
    to: Str,
    deps: Seq<Str>,
) -> Seq<Edge>
    decreases deps.len(),
{
    if deps.len() == 0 {
        Seq::empty()
    } else {
        let es = inner_edges_of(svc, keys, to, deps.drop_last());
        match parse_ref(deps.last()) {
            Some(r) => if r.service == svc && keys.contains(r.probe) {
                es.push((index_of(keys).at(r.probe), index_of(keys).at(to)))
            } else {
                es
            },
            None => es,
        }
    }
}

/// The edges between the probes of a service, for some of them.
pub open spec fn inner_edges(
    svc: Str,
    probes: Table<ProbeEntryModel>,
    some: Seq<Str>,
) -> Seq<Edge>
    decreases some.len(),
{
    if some.len() == 0 {
        Seq::empty()
    } else {
        inner_edges(svc, probes, some.drop_last()) + inner_edges_of(
            svc,
            probes.keys,
            some.last(),
            probes.at(some.last()).depends_on,
        )
    }
}

/// The probes of a service, each after those of the service that it depends on. Where that
/// cannot be, they stay as they are.
pub open spec fn sorted_probes(svc: Str, probes: Table<ProbeEntryModel>) -> Table<ProbeEntryModel> {
    if probes.keys.len() <= 1 {
        probes
    } else {
        match topo_result(probes.keys.len(), inner_edges(svc, probes, probes.keys)) {
            Ok(order) => Table { keys: names_of(probes.keys, order), map: probes.map },
            Err(_) => probes,
        }
    }
}

/// What is known of the order in which the probes of a service are put: every dependency
/// leads forward in it, or there is a cycle.
pub open spec fn sorting_known(svc: Str, probes: Table<ProbeEntryModel>) -> bool {
    let es = inner_edges(svc, probes, probes.keys);
    probes.keys.len() > 1 ==> match topo_result(probes.keys.len(), es) {
        Ok(order) => is_topo_order(probes.keys.len(), es, order),
        Err(v) => v < probes.keys.len() && on_cycle(es, v),
    }
}

impl ProbeEntry {
    /// A copy of the entry.
    pub fn copy(&self) -> (r: Self)
        ensures
            r.deep_view() == self.deep_view(),
    {
        let depends_on = copy_list(&self.depends_on);
        assert(depends_on.deep_view() =~= self.depends_on.deep_view());
        ProbeEntry { probe: self.probe.clone(), depends_on }
    }
}

fn add_inner_edges_of(
    svc: &str,
    index: &OrderedMap<usize>,
    g: &mut DiGraph<String, ()>,
    to: usize,
    deps: &Vec<String>,
    to_name: Ghost<Str>,
)
    requires
        index.wf(),
        nodes(*old(g)).len() <= u32::MAX,
        index.deep_view() == index_of(nodes(*old(g))),
        to == index_of(nodes(*old(g))).at(to_name@),
        to < nodes(*old(g)).len(),
        edges(*old(g)).len() + deps.len() <= u32::MAX,
    ensures
        nodes(*final(g)) == nodes(*old(g)),
        edges(*final(g)) == edges(*old(g)) + inner_edges_of(
            svc@,
            nodes(*old(g)),
            to_name@,
            deps.deep_view(),
        ),
        edges(*final(g)).len() <= edges(*old(g)).len() + deps.len(),
{
    let ghost keys = nodes(*g);
    let ghost es = edges(*g);
    proof {
        lemma_index(keys);
    }
    let mut i: usize = 0;
    assert(es + Seq::<Edge>::empty() =~= es);
    while i < deps.len()
        invariant
            index.wf(),
            index.deep_view() == index_of(keys),
            forall|k: Str| #[trigger] index_of(keys).has(k) <==> keys.contains(k),
            forall|k: Str| #[trigger] index_of(keys).has(k) ==> index_of(keys).at(k) < keys.len(),
            nodes(*g) == keys,
            nodes(*old(g)) == keys,
            es == edges(*old(g)),
            to == index_of(keys).at(to_name@),
            to < keys.len(),
            i <= deps.len(),
            es.len() + deps.len() <= u32::MAX,
            edges(*g) == es + inner_edges_of(
                svc@,
                keys,
                to_name@,
                deps.deep_view().take(i as int),
            ),
            edges(*g).len() <= es.len() + i,
        decreases deps.len() - i,
    {
        let ghost next = deps.deep_view().take(i + 1);
        assert(next.drop_last() =~= deps.deep_view().take(i as int));
        assert(next.last() == deps[i as int]@);
        if let Some(r) = ProbeRef::parse(deps[i].as_str()) {
            if text_eq(r.service.as_str(), svc) {
                assert(index_of(keys).has(r.probe@) <==> keys.contains(r.probe@));
                if let Some(from) = index.get(r.probe.as_str()) {
                    graph_add_edge(g, *from, to);
                }
            }
        }
        assert(edges(*g) =~= es + inner_edges_of(svc@, keys, to_name@, next));
        i = i + 1;
    }
    assert(deps.deep_view().take(i as int) =~= deps.deep_view());
}

/// Puts the probes of a service in order.
fn sort_service_probes(svc: &str, probes: &OrderedMap<ProbeEntry>) -> (r: Option<
    OrderedMap<ProbeEntry>,
>)
    requires
        probes.wf(),
        probes.deep_view().keys.len() <= u32::MAX,
        total(entry_counts(probes.deep_view(), probes.deep_view().keys)) <= u32::MAX,
    ensures
        sorting_known(svc@, probes.deep_view()),
        match r {
            Some(m) => m.wf() && m.deep_view() == sorted_probes(svc@, probes.deep_view()),
            None => sorted_probes(svc@, probes.deep_view()) == probes.deep_view(),
        },
{
    let ghost t = probes.deep_view();
    let names = probes.names();
    assert(names.deep_view().len() == names.len());
    if names.len() <= 1 {
        return None;
    }
    proof {
        probes.lemma_valid();
        lemma_index(t.keys);
    }
    let (mut g, index) = add_nodes(&names);
    let ghost counts = entry_counts(t, t.keys);
    let mut i: usize = 0;
    assert(counts.take(0) =~= Seq::<nat>::empty());
    while i < names.len()
        invariant
            probes.wf(),
            t == probes.deep_view(),
            t.valid(),
            names.deep_view() == t.keys,
            t.keys.len() <= u32::MAX,
            index.wf(),
            index.deep_view() == index_of(t.keys),
            forall|k: Str| #[trigger] index_of(t.keys).has(k) <==> t.keys.contains(k),
            forall|k: Str| #[trigger]
                index_of(t.keys).has(k) ==> index_of(t.keys).at(k) < t.keys.len(),
            counts == entry_counts(t, t.keys),
            total(counts) <= u32::MAX,
            nodes(g) == t.keys,
            i <= names.len(),
            edges(g) == inner_edges(svc@, t, t.keys.take(i as int)),
            edges(g).len() <= total(counts.take(i as int)),
        decreases names.len() - i,
    {
        let ghost next = t.keys.take(i + 1);
        assert(next.drop_last() =~= t.keys.take(i as int));
        assert(next.last() == names[i as int]@);
        assert(t.keys.contains(t.keys[i as int]));
        assert(index_of(t.keys).has(t.keys[i as int]));
        proof {
            lemma_total_take(counts, i as int);
        }
        let to: usize = *index.get(names[i].as_str()).unwrap();
        add_inner_edges_of(
            svc,
            &index,
            &mut g,
            to,
            &probes.value(i).depends_on,
            Ghost(t.keys[i as int]),
        );
        i = i + 1;
    }
    assert(t.keys.take(i as int) =~= t.keys);
    match graph_toposort(&g) {
        Err(_) => None,
        Ok(order) => {
            let ghost want = names_of(t.keys, order@);
            let mut out: OrderedMap<ProbeEntry> = OrderedMap::new();
            let mut i: usize = 0;
            while i < order.len()
                invariant
                    probes.wf(),
                    t == probes.deep_view(),
                    t.valid(),
                    nodes(g) == t.keys,
                    is_topo_order(t.keys.len(), edges(g), order@),
                    want == names_of(t.keys, order@),
                    out.wf(),
                    i <= order.len(),
                    out.deep_view().keys == want.take(i as int),
                    forall|k: Str| #[trigger]
                        out.deep_view().has(k) <==> want.take(i as int).contains(k),
                    forall|k: Str| #[trigger]
                        out.deep_view().has(k) ==> t.has(k) && out.deep_view().at(k) == t.at(k),
                decreases order.len() - i,
            {
                let ghost before = out.deep_view();
                assert(order@[i as int] < t.keys.len());
                let name = graph_name(&g, order[i]);
                assert(name@ == want[i as int]);
                assert(!want.take(i as int).contains(name@)) by {
                    if want.take(i as int).contains(name@) {
                        let j = choose|j: int| 0 <= j < i && want.take(i as int)[j] == name@;
                        assert(order@[j] < t.keys.len());
                        assert(t.keys[order@[j] as int] == t.keys[order@[i as int] as int]);
                        assert(order@[j] == order@[i as int]);
                    }
                }
                out.insert(name.clone(), probes.value(order[i]).copy());
                proof {
                    let now = out.deep_view();
                    assert(want.take(i + 1) =~= want.take(i as int).push(want[i as int]));
                    assert(now.keys =~= want.take(i + 1));
                    crate::names::lemma_with_name(want.take(i as int), want[i as int]);
                    assert forall|k: Str| #[trigger] now.has(k) <==> want.take(i + 1).contains(
                        k,
                    ) by {
                        assert(before.has(k) <==> want.take(i as int).contains(k));
                    }
                    assert forall|k: Str| #[trigger] now.has(k) implies t.has(k) && now.at(k)
                        == t.at(k) by {
                        if k != name@ {
                            assert(before.has(k));
                        }
                    }
                }
                i = i + 1;
            }
            proof {
                assert(want.take(i as int) =~= want);
                assert forall|k: Str| #[trigger] out.deep_view().map.contains_key(k)
                    == t.map.contains_key(k) by {
                    if t.has(k) {
                        let j = choose|j: int| 0 <= j < t.keys.len() && t.keys[j] == k;
                        lemma_all_listed(order@, t.keys.len(), j as usize);
                        let m = choose|m: int| 0 <= m < order@.len() && order@[m] == j as usize;
                        assert(want[m] == k);
                    }
                    assert(out.deep_view().has(k) == want.contains(k));
                }
                assert forall|k: Str| #[trigger] out.deep_view().map.contains_key(k) implies
                    out.deep_view().map[k] == t.map[k] by {
                    assert(out.deep_view().has(k));
                    assert(out.deep_view().at(k) == t.at(k));
                }
                assert(out.deep_view().map =~= t.map);
                assert(out.deep_view() =~= sorted_probes(svc@, t));
            }
            Some(out)
        },
    }
}

/// How many probes each of some probes of a service depends on.
pub open spec fn entry_counts(probes: Table<ProbeEntryModel>, some: Seq<Str>) -> Seq<nat> {
    Seq::new(some.len(), |i: int| probes.at(some[i]).depends_on.len())
}

/// Whether the nodes and the edges of each service can be counted in 32 bits.
pub open spec fn services_fit(c: ConfigModel) -> bool {
    forall|k: Str| #[trigger]
        c.services.has(k) ==> c.services.at(k).probes.keys.len() <= u32::MAX && total(
            entry_counts(c.services.at(k).probes, c.services.at(k).probes.keys),
        ) <= u32::MAX
}

impl GantryConfig {
    /// Adds to each service a meta probe `ready` that depends on all of its probes. A service
    /// that has one, or that has no probe, gets none.
    pub fn auto_generate_ready_probes(&mut self)
        requires
            old(self).wf(),
        ensures
            final(self).wf(),
            final(self).deep_view().targets == old(self).deep_view().targets,
            final(self).deep_view().defaults == old(self).deep_view().defaults,
            final(self).deep_view().services.keys == old(self).deep_view().services.keys,
            forall|k: Str| #[trigger]
                final(self).deep_view().services.has(k) == old(self).deep_view().services.has(k),
            forall|k: Str|
                old(self).deep_view().services.has(k) ==>
                #[trigger] final(self).deep_view().services.at(k) == (ServiceConfigModel {
                    probes: with_ready(k, old(self).deep_view().services.at(k).probes),
                    ..old(self).deep_view().services.at(k)
                }),
    {
        let ghost before = self.services.deep_view();
        let n: usize = self.services.len();
        let mut i: usize = 0;
        while i < n
            invariant
                self.wf(),
                before.valid(),
                self.deep_view().targets == old(self).deep_view().targets,
                self.deep_view().defaults == old(self).deep_view().defaults,
                self.services.deep_view().keys == before.keys,
                i <= n == before.keys.len(),
                forall|k: Str| #[trigger] self.services.deep_view().has(k) == before.has(k),
                forall|j: int|
                    #![trigger before.keys[j]]
                    0 <= j < before.keys.len() ==> self.services.deep_view().at(before.keys[j])
                        == (if j < i {
                        ServiceConfigModel {
                            probes: with_ready(before.keys[j], before.at(before.keys[j]).probes),
                            ..before.at(before.keys[j])
                        }
                    } else {
                        before.at(before.keys[j])
                    }),
            decreases n - i,
        {
            let ghost mid = self.services.deep_view();
            let name = self.services.name(i).clone();
            let ghost key = before.keys[i as int];
            assert(before.keys.contains(key));
            let svc = self.services.value_mut(i);
            let ghost probes = svc.probes.deep_view();
            let m: usize = svc.probes.len();
            if !svc.probes.contains_key("ready") && m > 0 {
                let mut depends_on: Vec<String> = Vec::new();
                let mut j: usize = 0;
                while j < m
                    invariant
                        svc.probes.wf(),
                        probes == svc.probes.deep_view(),
                        m == probes.keys.len(),
                        name@ == key,
                        j <= m,
                        depends_on.deep_view() == keys_in(key, probes.keys).take(j as int),
                    decreases m - j,
                {
                    let ghost so_far = depends_on.deep_view();
                    let text = ProbeRef::new(
                        name.as_str(),
                        svc.probes.name(j).as_str(),
                    ).to_string();
                    depends_on.push(text);
                    assert(depends_on.deep_view() =~= so_far.push(
                        keys_in(key, probes.keys)[j as int],
                    ));
                    assert(depends_on.deep_view() =~= keys_in(key, probes.keys).take(j + 1));
                    j = j + 1;
                }
                assert(keys_in(key, probes.keys).take(j as int) =~= keys_in(key, probes.keys));
                svc.probes.insert(
                    "ready".to_owned(),
                    ProbeEntry { probe: ProbeConfig::Meta, depends_on },
                );
            }
            proof {
                let now = self.services.deep_view();
                assert(mid.has(key));
                assert forall|k: Str| #[trigger] now.has(k) == before.has(k) by {
                    assert(mid.has(k) == before.has(k));
                }
            }
            i = i + 1;
        }
        proof {
            assert forall|k: Str| before.has(k) implies #[trigger] self.services.deep_view().at(k)
                == (ServiceConfigModel {
                probes: with_ready(k, before.at(k).probes),
                ..before.at(k)
            }) by {
                let j = choose|j: int| 0 <= j < before.keys.len() && before.keys[j] == k;
                assert(before.keys[j] == k);
            }
        }
    }
}

impl GantryConfig {
    /// Puts the probes of each service in an order in which each comes after those of the
    /// service that it depends on. Where probes depend on one another, the order stays.
    pub fn topo_sort_probes(&mut self)
        requires
            old(self).wf(),
            services_fit(old(self).deep_view()),
        ensures
            final(self).wf(),
            final(self).deep_view().targets == old(self).deep_view().targets,
            final(self).deep_view().defaults == old(self).deep_view().defaults,
            final(self).deep_view().services.keys == old(self).deep_view().services.keys,
            forall|k: Str| #[trigger]
                final(self).deep_view().services.has(k) == old(self).deep_view().services.has(k),
            forall|k: Str|
                old(self).deep_view().services.has(k) ==>
                #[trigger] final(self).deep_view().services.at(k) == (ServiceConfigModel {
                    probes: sorted_probes(k, old(self).deep_view().services.at(k).probes),
                    ..old(self).deep_view().services.at(k)
                }) && sorting_known(k, old(self).deep_view().services.at(k).probes),
    {
        let ghost before = self.services.deep_view();
        let n: usize = self.services.len();
        let mut i: usize = 0;
        while i < n
            invariant
                self.wf(),
                before.valid(),
                before == old(self).deep_view().services,
                services_fit(old(self).deep_view()),
                self.deep_view().targets == old(self).deep_view().targets,
                self.deep_view().defaults == old(self).deep_view().defaults,
                self.services.deep_view().keys == before.keys,
                i <= n == before.keys.len(),
                forall|k: Str| #[trigger] self.services.deep_view().has(k) == before.has(k),
                forall|j: int|
                    #![trigger before.keys[j]]
                    0 <= j < before.keys.len() ==> self.services.deep_view().at(before.keys[j])
                        == (if j < i {
                        ServiceConfigModel {
                            probes: sorted_probes(before.keys[j], before.at(before.keys[j]).probes),
                            ..before.at(before.keys[j])
                        }
                    } else {
                        before.at(before.keys[j])
                    }) && (j < i ==> sorting_known(
                        before.keys[j],
                        before.at(before.keys[j]).probes,
                    )),
            decreases n - i,
        {
            let ghost mid = self.services.deep_view();
            let name = self.services.name(i).clone();
            let ghost key = before.keys[i as int];
            assert(before.keys.contains(key));
            assert(before.has(key));
            let svc = self.services.value_mut(i);
            if let Some(probes) = sort_service_probes(name.as_str(), &svc.probes) {
                svc.probes = probes;
            }
            proof {
                let now = self.services.deep_view();
                assert(mid.has(key));
                assert forall|k: Str| #[trigger] now.has(k) == before.has(k) by {
                    assert(mid.has(k) == before.has(k));
                }
            }
            i = i + 1;
        }
        proof {
            assert forall|k: Str| before.has(k) implies #[trigger] self.services.deep_view().at(k)
                == (ServiceConfigModel {
                probes: sorted_probes(k, before.at(k).probes),
                ..before.at(k)
            }) && sorting_known(k, before.at(k).probes) by {
                let j = choose|j: int| 0 <= j < before.keys.len() && before.keys[j] == k;
                assert(before.keys[j] == k);
            }
        }
    }
}

/// Every service that has a probe has one named `ready` once they are added, and it depends
/// on all others, unless the service had one.
pub proof fn law_ready(svc: Str, probes: Table<ProbeEntryModel>)
    requires
        probes.valid(),
    ensures
        probes.keys.len() > 0 ==> with_ready(svc, probes).has("ready"@),
        probes.keys.len() > 0 && !probes.has("ready"@) ==> with_ready(svc, probes).at(
            "ready"@,
        ).depends_on == keys_in(svc, probes.keys),
        forall|p: Str| #[trigger]
            probes.has(p) ==> with_ready(svc, probes).has(p) && with_ready(svc, probes).at(p)
                == probes.at(p),
        with_ready(svc, with_ready(svc, probes)) == with_ready(svc, probes),
{
}

/// Whether the probe `b` of a service depends on its probe `a`.
pub open spec fn depends_within(svc: Str, probes: Table<ProbeEntryModel>, a: Str, b: Str) -> bool {
    exists|i: int|
        0 <= i < probes.at(b).depends_on.len() && parse_ref(#[trigger] probes.at(b).depends_on[i])
            == Some(RefModel { service: svc, probe: a })
}

proof fn lemma_inner_edge_of(svc: Str, keys: Seq<Str>, to: Str, deps: Seq<Str>, i: int, a: Str)
    requires
        0 <= i < deps.len(),
        keys.contains(a),
        parse_ref(deps[i]) == Some(RefModel { service: svc, probe: a }),
    ensures
        inner_edges_of(svc, keys, to, deps).contains(
            (index_of(keys).at(a), index_of(keys).at(to)),
        ),
    decreases deps.len(),
{
    let edge = (index_of(keys).at(a), index_of(keys).at(to));
    let es = inner_edges_of(svc, keys, to, deps);
    if i == deps.len() - 1 {
        assert(es[es.len() - 1] == edge);
    } else {
        let front = inner_edges_of(svc, keys, to, deps.drop_last());
        lemma_inner_edge_of(svc, keys, to, deps.drop_last(), i, a);
        let j = choose|j: int| 0 <= j < front.len() && front[j] == edge;
        assert(es[j] == edge);
    }
}

proof fn lemma_inner_edge(
    svc: Str,
    probes: Table<ProbeEntryModel>,
    some: Seq<Str>,
    at: int,
    a: Str,
)
    requires
        0 <= at < some.len(),
        probes.keys.contains(a),
        depends_within(svc, probes, a, some[at]),
    ensures
        inner_edges(svc, probes, some).contains(
            (index_of(probes.keys).at(a), index_of(probes.keys).at(some[at])),
        ),
    decreases some.len(),
{
    let edge = (index_of(probes.keys).at(a), index_of(probes.keys).at(some[at]));
    let front = inner_edges(svc, probes, some.drop_last());
    let last = inner_edges_of(
        svc,
        probes.keys,
        some.last(),
        probes.at(some.last()).depends_on,
    );
    let es = inner_edges(svc, probes, some);
    if at == some.len() - 1 {
        let i = choose|i: int|
            0 <= i < probes.at(some[at]).depends_on.len() && parse_ref(
                #[trigger] probes.at(some[at]).depends_on[i],
            ) == Some(RefModel { service: svc, probe: a });
        lemma_inner_edge_of(
            svc,
            probes.keys,
            some.last(),
            probes.at(some.last()).depends_on,
            i,
            a,
        );
        let j = choose|j: int| 0 <= j < last.len() && last[j] == edge;
        assert(es[front.len() + j] == edge);
    } else {
        lemma_inner_edge(svc, probes, some.drop_last(), at, a);
        let j = choose|j: int| 0 <= j < front.len() && front[j] == edge;
        assert(es[j] == edge);
    }
}

proof fn lemma_inner_below_of(svc: Str, keys: Seq<Str>, to: Str, deps: Seq<Str>)
    requires
        keys.len() <= u32::MAX,
        keys.contains(to),
    ensures
        edges_below(inner_edges_of(svc, keys, to, deps), keys.len()),
    decreases deps.len(),
{
    if deps.len() > 0 {
        lemma_inner_below_of(svc, keys, to, deps.drop_last());
        lemma_index(keys);
        assert(index_of(keys).has(to));
        if let Some(r) = parse_ref(deps.last()) {
            assert(index_of(keys).has(r.probe) <==> keys.contains(r.probe));
        }
    }
}

proof fn lemma_inner_below(svc: Str, probes: Table<ProbeEntryModel>, some: Seq<Str>)
    requires
        probes.keys.len() <= u32::MAX,
        forall|i: int| 0 <= i < some.len() ==> probes.keys.contains(#[trigger] some[i]),
    ensures
        edges_below(inner_edges(svc, probes, some), probes.keys.len()),
    decreases some.len(),
{
    if some.len() > 0 {
        lemma_inner_below(svc, probes, some.drop_last());
        assert(probes.keys.contains(some[some.len() - 1]));
        lemma_inner_below_of(
            svc,
            probes.keys,
            some.last(),
            probes.at(some.last()).depends_on,
        );
    }
}

/// Sorting the probes of a service loses none and adds none. If none of them depends on
/// itself, directly or through others of the service, each comes after those that it depends
/// on. Else the order stays.
pub proof fn law_sorted_probes(svc: Str, probes: Table<ProbeEntryModel>)
    requires
        probes.valid(),
        probes.keys.len() <= u32::MAX,
        sorting_known(svc, probes),
    ensures
        sorted_probes(svc, probes).valid(),
        sorted_probes(svc, probes).map == probes.map,
        sorted_probes(svc, probes).keys.len() == probes.keys.len(),
        no_cycle(inner_edges(svc, probes, probes.keys)) ==> forall|i: int, j: int|
            #![trigger sorted_probes(svc, probes).keys[i], sorted_probes(svc, probes).keys[j]]
            0 <= i < probes.keys.len() && 0 <= j < probes.keys.len() && depends_within(
                svc,
                probes,
                sorted_probes(svc, probes).keys[i],
                sorted_probes(svc, probes).keys[j],
            ) ==> i < j,
        !no_cycle(inner_edges(svc, probes, probes.keys)) ==> sorted_probes(svc, probes) == probes,
{
    let es = inner_edges(svc, probes, probes.keys);
    assert forall|i: int| 0 <= i < probes.keys.len() implies probes.keys.contains(
        #[trigger] probes.keys[i],
    ) by {}
    lemma_inner_below(svc, probes, probes.keys);
    if probes.keys.len() == 1 && no_cycle(es) {
        let a = probes.keys[0];
        if depends_within(svc, probes, a, a) {
            lemma_index(probes.keys);
            assert(probes.keys.contains(a));
            assert(index_of(probes.keys).has(a));
            lemma_inner_edge(svc, probes, probes.keys, 0, a);
            let path = seq![0usize, 0usize];
            assert forall|i: int| 0 <= i < path.len() - 1 implies #[trigger] steps(
                es,
                path,
                i,
            ) by {}
            assert(is_path(es, path) && path.len() > 1 && path[0] == 0 && path.last() == 0);
            assert(on_cycle(es, 0));
        }
    }
    if probes.keys.len() > 1 {
        if let Ok(order) = topo_result(probes.keys.len(), es) {
            lemma_order_no_cycle(probes.keys.len(), es, order);
        }
        if let Ok(order) = topo_result(probes.keys.len(), es) {
            let t = sorted_probes(svc, probes);
            assert forall|i: int, j: int|
                0 <= i < t.keys.len() && 0 <= j < t.keys.len() && i != j implies t.keys[i]
                != t.keys[j] by {
                assert(order[i] != order[j]);
                assert(order[i] < probes.keys.len() && order[j] < probes.keys.len());
            }
            assert forall|k: Str| #[trigger] t.map.contains_key(k) <==> t.keys.contains(k) by {
                if probes.has(k) {
                    let j = choose|j: int| 0 <= j < probes.keys.len() && probes.keys[j] == k;
                    lemma_all_listed(order, probes.keys.len(), j as usize);
                    let m = choose|m: int| 0 <= m < order.len() && order[m] == j as usize;
                    assert(t.keys[m] == k);
                }
                if t.keys.contains(k) {
                    let m = choose|m: int| 0 <= m < t.keys.len() && t.keys[m] == k;
                    assert(order[m] < probes.keys.len());
                    assert(probes.keys.contains(k));
                }
            }
            lemma_index(probes.keys);
            assert forall|i: int, j: int|
                #![trigger t.keys[i], t.keys[j]]
                0 <= i < probes.keys.len() && 0 <= j < probes.keys.len() && depends_within(
                    svc,
                    probes,
                    t.keys[i],
                    t.keys[j],
                ) implies i < j by {
                let (a, b) = (order[i], order[j]);
                assert(a < probes.keys.len() && b < probes.keys.len());
                assert(probes.keys[a as int] == t.keys[i] && probes.keys[b as int] == t.keys[j]);
                assert(probes.keys.contains(t.keys[i]) && probes.keys.contains(t.keys[j]));
                assert(index_of(probes.keys).has(t.keys[i]));
                assert(index_of(probes.keys).has(t.keys[j]));
                lemma_inner_edge(svc, probes, probes.keys, b as int, t.keys[i]);
                assert(es.contains((order[i], order[j])));
            }
        }
    }
}

/// The sum of a number and a length, if it is counted in 32 bits.
fn count_on(count: u64, more: usize) -> (r: Option<u64>)
    requires
        count <= u32::MAX,
    ensures
        match r {
            Some(n) => n == count + more && n <= u32::MAX,
            None => count + more > u32::MAX,
        },
{
    if more as u64 <= 0xffff_ffff - count {
        Some(count + more as u64)
    } else {
        None
    }
}

fn count_deps_in(
    config: &GantryConfig,
    at: usize,
) -> (r: Option<u64>)
    requires
        config.wf(),
        at < config.deep_view().services.keys.len(),
    ensures
        ({
            let n = dep_counts(config.deep_view(), config.deep_view().services.keys)[at as int];
            match r {
                Some(m) => m == n && m <= u32::MAX,
                None => n > u32::MAX,
            }
        }),
{
    let ghost c = config.deep_view();
    let ghost svc = c.services.keys[at as int];
    let ghost counts = dep_counts_in(c, svc, c.services.at(svc).probes.keys);
    let sc = config.services.value(at);
    let n: usize = sc.probes.len();
    let mut count: u64 = 0;
    let mut i: usize = 0;
    assert(counts.take(0) =~= Seq::<nat>::empty());
    while i < n
        invariant
            c == config.deep_view(),
            at < c.services.keys.len(),
            svc == c.services.keys[at as int],
            sc.ok(),
            sc.deep_view() == c.services.at(svc),
            counts == dep_counts_in(c, svc, c.services.at(svc).probes.keys),
            i <= n == counts.len(),
            count == total(counts.take(i as int)),
            count <= u32::MAX,
        decreases n - i,
    {
        proof {
            lemma_total_take(counts, i as int);
        }
        let more = &sc.probes.value(i).depends_on;
        assert(more.deep_view().len() == counts[i as int]);
        match count_on(count, more.len()) {
            Some(m) => {
                count = m;
            },
            None => {
                return None;
            },
        }
        i = i + 1;
    }
    assert(counts.take(i as int) =~= counts);
    Some(count)
}

impl GantryConfig {
    /// Whether the nodes and the edges of the configuration can be counted in 32 bits, as
    /// the graphs count them.
    pub fn fits_graph(&self) -> (r: bool)
        requires
            self.wf(),
        ensures
            r == fits(self.deep_view()),
            r ==> services_fit(self.deep_view()),
    {
        let ghost c = self.deep_view();
        let ghost svcs = c.services.keys;
        let ghost tgts = c.targets.keys;
        let n: usize = self.services.len();
        let m: usize = self.targets.len();
        if n as u64 > 0xffff_ffff || m as u64 > 0xffff_ffff {
            return false;
        }
        let mut probes: u64 = 0;
        let mut starts: u64 = 0;
        let mut deps: u64 = 0;
        let mut i: usize = 0;
        assert(probe_counts(c, svcs).take(0) =~= Seq::<nat>::empty());
        assert(start_counts(c, svcs).take(0) =~= Seq::<nat>::empty());
        assert(dep_counts(c, svcs).take(0) =~= Seq::<nat>::empty());
        while i < n
            invariant
                self.wf(),
                c == self.deep_view(),
                svcs == c.services.keys,
                i <= n == svcs.len(),
                probes == total(probe_counts(c, svcs).take(i as int)),
                starts == total(start_counts(c, svcs).take(i as int)),
                deps == total(dep_counts(c, svcs).take(i as int)),
                probes <= u32::MAX,
                starts <= u32::MAX,
                deps <= u32::MAX,
            decreases n - i,
        {
            proof {
                lemma_total_take(probe_counts(c, svcs), i as int);
                lemma_total_take(start_counts(c, svcs), i as int);
                lemma_total_take(dep_counts(c, svcs), i as int);
            }
            let svc = self.services.value(i);
            assert(svc.start_after.deep_view().len() == start_counts(c, svcs)[i as int]);
            match (count_on(probes, svc.probes.len()), count_on(starts, svc.start_after.len())) {
                (Some(a), Some(b)) => {
                    probes = a;
                    starts = b;
                },
                _ => {
                    return false;
                },
            }
            match count_deps_in(self, i) {
                Some(d) => {
                    if d > 0xffff_ffff - deps {
                        return false;
                    }
                    deps = deps + d;
                },
                None => {
                    return false;
                },
            }
            i = i + 1;
        }
        assert(probe_counts(c, svcs).take(i as int) =~= probe_counts(c, svcs));
        assert(start_counts(c, svcs).take(i as int) =~= start_counts(c, svcs));
        assert(dep_counts(c, svcs).take(i as int) =~= dep_counts(c, svcs));
        let mut links: u64 = 0;
        let mut i: usize = 0;
        assert(target_counts(c, tgts).take(0) =~= Seq::<nat>::empty());
        while i < m
            invariant
                self.wf(),
                c == self.deep_view(),
                tgts == c.targets.keys,
                i <= m == tgts.len(),
                links == total(target_counts(c, tgts).take(i as int)),
                links <= u32::MAX,
            decreases m - i,
        {
            proof {
                lemma_total_take(target_counts(c, tgts), i as int);
            }
            let t = self.targets.value(i);
            assert(t.depends_on.deep_view().len() == target_counts(c, tgts)[i as int]);
            match count_on(links, t.depends_on.len()) {
                Some(a) => {
                    links = a;
                },
                None => {
                    return false;
                },
            }
            i = i + 1;
        }
        assert(target_counts(c, tgts).take(i as int) =~= target_counts(c, tgts));
        proof {
            self.services.lemma_valid();
            lemma_services_fit(c);
        }
        true
    }
}

/// Where the whole configuration can be counted, so can each service.
proof fn lemma_services_fit(c: ConfigModel)
    requires
        c.services.valid(),
        fits(c),
    ensures
        services_fit(c),
{
    let svcs = c.services.keys;
    assert forall|k: Str| #[trigger] c.services.has(k) implies c.services.at(k).probes.keys.len()
        <= u32::MAX && total(
        entry_counts(c.services.at(k).probes, c.services.at(k).probes.keys),
    ) <= u32::MAX by {
        let i = choose|i: int| 0 <= i < svcs.len() && svcs[i] == k;
        lemma_total_take(probe_counts(c, svcs), i);
        lemma_total_take(dep_counts(c, svcs), i);
        assert(entry_counts(c.services.at(k).probes, c.services.at(k).probes.keys)
            =~= dep_counts_in(c, k, c.services.at(k).probes.keys));
    }
}

} // verus!
