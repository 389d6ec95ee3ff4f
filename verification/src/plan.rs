//! What follows from the dependencies: which services start together, which probes a target
//! needs, and the first state of each probe.
use crate::config::{ConfigModel, GantryConfig};
use crate::digraph::{bfs_back, dfs_back, is_path, is_topo_order, reaches, sources_of, steps};
use crate::graph::{
    ancestors, chain, is_ancestry_in, law_sorted, lemma_index, lemma_sources, names_of,
    DependencyGraph, GraphModel, Layer,
};
use crate::model::{
    copy_refs, lemma_ref_text, parse_ref, refs_contain, PendingModel, PendingReason, ProbeRef,
    ProbeState, RedModel, RedReason, RefModel, ServiceState, StateModel,
};
use crate::ordered_map::{OrderedMap, Table};
use crate::propagate_laws::{lemma_set_probe, only_probes_changed, only_probes_differ};
use crate::runtime::{
    find_probe, probe_at, probe_is_red, probe_mut, red_at, set_probe, ProbeModel, Services,
    ServicesModel,
};
use crate::text::{list_contains, Str};
use vstd::prelude::*;

verus! {

/// Services by level, and the level of each.
#[verifier::ext_equal]
pub struct Levels {
    pub levels: Seq<Seq<Str>>,
    pub assigned: Table<usize>,
}

/// The highest level among some services that have one.
pub open spec fn max_level(assigned: Table<usize>, names: Seq<Str>) -> Option<usize>
    decreases names.len(),
{
    if names.len() == 0 {
        None
    } else {
        let so_far = max_level(assigned, names.drop_last());
        if assigned.has(names.last()) {
            let l = assigned.at(names.last());
            match so_far {
                Some(m) => if l > m {
                    Some(l)
                } else {
                    Some(m)
                },
                None => Some(l),
            }
        } else {
            so_far
        }
    }
}

/// The level of a service: one above the highest of those it starts after.
pub open spec fn level_above(assigned: Table<usize>, deps: Seq<Str>) -> int {
    match max_level(assigned, deps) {
        Some(m) => m + 1,
        None => 0,
    }
}

/// The levels after a service is given its own.
pub open spec fn place(g: Layer, st: Levels, svc: Str) -> Levels {
    let l = level_above(st.assigned, g.prev(svc));
    Levels {
        levels: if l < st.levels.len() {
            st.levels.update(l, st.levels[l].push(svc))
        } else {
            st.levels.push(seq![svc])
        },
        assigned: st.assigned.put(svc, l as usize),
    }
}

/// The levels of those services of `order` that are among `names`.
pub open spec fn levels_of(g: Layer, names: Seq<Str>, order: Seq<Str>) -> Levels
    decreases order.len(),
{
    if order.len() == 0 {
        Levels { levels: Seq::empty(), assigned: Table::empty() }
    } else {
        let st = levels_of(g, names, order.drop_last());
        if names.contains(order.last()) {
            place(g, st, order.last())
        } else {
            st
        }
    }
}

/// Each level that is given is one of the levels there are.
pub open spec fn levels_known(st: Levels) -> bool {
    forall|k: Str| #[trigger] st.assigned.has(k) ==> st.assigned.at(k) < st.levels.len()
}

proof fn lemma_max_level(assigned: Table<usize>, names: Seq<Str>, bound: int)
    requires
        forall|k: Str| #[trigger] assigned.has(k) ==> assigned.at(k) < bound,
    ensures
        match max_level(assigned, names) {
            Some(m) => m < bound,
            None => true,
        },
        forall|i: int|
            0 <= i < names.len() && assigned.has(#[trigger] names[i]) ==> max_level(
                assigned,
                names,
            ) is Some && assigned.at(names[i]) <= max_level(assigned, names)->0,
    decreases names.len(),
{
    if names.len() > 0 {
        let front = names.drop_last();
        lemma_max_level(assigned, front, bound);
        assert forall|i: int| 0 <= i < names.len() && assigned.has(#[trigger] names[i]) implies
            max_level(assigned, names) is Some && assigned.at(names[i]) <= max_level(
            assigned,
            names,
        )->0 by {
            if i < names.len() - 1 {
                assert(front[i] == names[i]);
            }
        }
    }
}

impl DependencyGraph {
    /// Groups services into levels. Those of one level do not start after one another, so
    /// that they can be started together.
    pub fn topo_levels(&self, service_names: &Vec<String>) -> (r: Vec<Vec<String>>)
        requires
            self.wf(),
        ensures
            r.deep_view() == levels_of(
                self.deep_view().services,
                service_names.deep_view(),
                self.deep_view().topo_order,
            ).levels,
    {
        let ghost g = self.deep_view().services;
        let ghost names = service_names.deep_view();
        let order = self.topo_order();
        let ghost all = order.deep_view();
        let mut levels: Vec<Vec<String>> = Vec::new();
        let mut assigned: OrderedMap<usize> = OrderedMap::new();
        let mut i: usize = 0;
        assert(levels.deep_view() =~= Seq::<Seq<Str>>::empty());
        while i < order.len()
            invariant
                self.wf(),
                g == self.deep_view().services,
                names == service_names.deep_view(),
                all == order.deep_view(),
                assigned.wf(),
                i <= order.len(),
                levels.deep_view() == levels_of(g, names, all.take(i as int)).levels,
                assigned.deep_view() == levels_of(g, names, all.take(i as int)).assigned,
                levels_known(levels_of(g, names, all.take(i as int))),
            decreases order.len() - i,
        {
            let ghost next = all.take(i + 1);
            let ghost st = levels_of(g, names, all.take(i as int));
            assert(next.drop_last() =~= all.take(i as int));
            assert(next.last() == order[i as int]@);
            if list_contains(service_names, order[i].as_str()) {
                let deps = self.start_deps(order[i].as_str());
                let mut best: Option<usize> = None;
                let mut j: usize = 0;
                while j < deps.len()
                    invariant
                        assigned.wf(),
                        j <= deps.len(),
                        best == max_level(assigned.deep_view(), deps.deep_view().take(j as int)),
                    decreases deps.len() - j,
                {
                    let ghost more = deps.deep_view().take(j + 1);
                    assert(more.drop_last() =~= deps.deep_view().take(j as int));
                    assert(more.last() == deps[j as int]@);
                    if let Some(l) = assigned.get(deps[j].as_str()) {
                        best = match best {
                            Some(m) => if *l > m {
                                Some(*l)
                            } else {
                                Some(m)
                            },
                            None => Some(*l),
                        };
                    }
                    j = j + 1;
                }
                assert(deps.deep_view().take(j as int) =~= deps.deep_view());
                proof {
                    lemma_max_level(st.assigned, deps.deep_view(), st.levels.len() as int);
                    assert(levels.deep_view().len() == levels.len());
                }
                let level: usize = match best {
                    Some(m) => m + 1,
                    None => 0,
                };
                let ghost before = levels.deep_view();
                if level == levels.len() {
                    let mut fresh: Vec<String> = Vec::new();
                    fresh.push(order[i].clone());
                    assert(fresh.deep_view() =~= seq![order[i as int]@]);
                    levels.push(fresh);
                    assert(levels.deep_view() =~= before.push(seq![order[i as int]@]));
                } else {
                    let ghost inner = levels.deep_view()[level as int];
                    levels[level].push(order[i].clone());
                    assert(levels[level as int].deep_view() =~= inner.push(order[i as int]@));
                    assert(levels.deep_view() =~= before.update(
                        level as int,
                        inner.push(order[i as int]@),
                    ));
                }
                assigned.insert(order[i].clone(), level);
                proof {
                    let now = levels_of(g, names, next);
                    assert(now.levels.len() >= st.levels.len());
                    assert forall|k: Str| #[trigger] now.assigned.has(k) implies now.assigned.at(k)
                        < now.levels.len() by {
                        if k != order[i as int]@ {
                            assert(st.assigned.has(k));
                        }
                    }
                }
            }
            i = i + 1;
        }
        assert(all.take(i as int) =~= all);
        levels
    }
}

/// A list of references after `r` is added, unless it is there already.
pub open spec fn with_ref(list: Seq<RefModel>, r: RefModel) -> Seq<RefModel> {
    if list.contains(r) {
        list
    } else {
        list.push(r)
    }
}

/// A list of references after those that some texts write are added in turn.
pub open spec fn with_keys(list: Seq<RefModel>, keys: Seq<Str>) -> Seq<RefModel>
    decreases keys.len(),
{
    if keys.len() == 0 {
        list
    } else {
        let so_far = with_keys(list, keys.drop_last());
        match parse_ref(keys.last()) {
            Some(r) => with_ref(so_far, r),
            None => so_far,
        }
    }
}

/// The probes of some targets.
pub open spec fn probes_of(c: ConfigModel, tgts: Seq<Str>) -> Seq<RefModel>
    decreases tgts.len(),
{
    if tgts.len() == 0 {
        Seq::empty()
    } else {
        let so_far = probes_of(c, tgts.drop_last());
        if c.targets.has(tgts.last()) {
            with_keys(so_far, c.targets.at(tgts.last()).probes)
        } else {
            so_far
        }
    }
}

/// A list of probes after all that each of `roots` depends on is added.
pub open spec fn with_ancestors(
    g: Layer,
    list: Seq<RefModel>,
    roots: Seq<RefModel>,
) -> Seq<RefModel>
    decreases roots.len(),
{
    if roots.len() == 0 {
        list
    } else {
        with_keys(with_ancestors(g, list, roots.drop_last()), ancestors(g, roots.last().text()))
    }
}

/// The probes of a target and of those it depends on, and all that these probes depend on.
pub open spec fn flattened(g: GraphModel, c: ConfigModel, target: Str) -> Seq<RefModel> {
    let direct = probes_of(c, chain(g.targets, target));
    with_ancestors(g.probes, direct, direct)
}

fn add_keys(list: &mut Vec<ProbeRef>, keys: &Vec<String>)
    ensures
        final(list).deep_view() == with_keys(old(list).deep_view(), keys.deep_view()),
{
    let ghost start = list.deep_view();
    let mut i: usize = 0;
    while i < keys.len()
        invariant
            i <= keys.len(),
            list.deep_view() == with_keys(start, keys.deep_view().take(i as int)),
        decreases keys.len() - i,
    {
        let ghost next = keys.deep_view().take(i + 1);
        let ghost before = list.deep_view();
        assert(next.drop_last() =~= keys.deep_view().take(i as int));
        assert(next.last() == keys[i as int]@);
        if let Some(r) = ProbeRef::parse(keys[i].as_str()) {
            if !refs_contain(list, &r) {
                let ghost m = r.deep_view();
                list.push(r);
                assert(list.deep_view() =~= before.push(m));
            }
        }
        i = i + 1;
    }
    assert(keys.deep_view().take(i as int) =~= keys.deep_view());
}

/// Whether a list holds, with each probe, all probes that it depends on.
pub open spec fn holds_ancestors(g: Layer, list: Seq<RefModel>) -> bool {
    forall|i: int, v: usize|
        #![trigger list[i], g.nodes[v as int]]
        0 <= i < list.len() && v < g.nodes.len() && g.has(list[i].text()) && reaches(
            g.edges,
            v,
            g.node(list[i].text()),
        ) && parse_ref(g.nodes[v as int]) is Some ==> list.contains(
            parse_ref(g.nodes[v as int])->0,
        )
}

/// Whether the node `v` is the named one, or one from which edges lead to it.
pub open spec fn leads_into(g: Layer, v: usize, name: Str) -> bool {
    g.has(name) && v < g.nodes.len() && reaches(g.edges, v, g.node(name))
}

/// Whether a target, or one that it depends on, names a probe.
pub open spec fn names_probe(g: GraphModel, c: ConfigModel, target: Str, r: RefModel) -> bool {
    exists|v: usize, i: int|
        #![trigger c.targets.at(g.targets.nodes[v as int]).probes[i]]
        leads_into(g.targets, v, target) && c.targets.has(g.targets.nodes[v as int]) && 0 <= i
            < c.targets.at(g.targets.nodes[v as int]).probes.len() && parse_ref(
            c.targets.at(g.targets.nodes[v as int]).probes[i],
        ) == Some(r)
}

/// Whether the probe `d` depends on a probe, or is the same.
pub open spec fn depends_on_probe(g: Layer, d: RefModel, r: RefModel) -> bool {
    d == r || exists|v: usize| #[trigger]
        leads_into(g, v, d.text()) && parse_ref(g.nodes[v as int]) == Some(r)
}

/// Whether a target needs a probe: it, or a target that it depends on, names the probe or one
/// that depends on it.
pub open spec fn needs_probe(g: GraphModel, c: ConfigModel, target: Str, r: RefModel) -> bool {
    exists|d: RefModel| #[trigger]
        names_probe(g, c, target, d) && depends_on_probe(g.probes, d, r)
}

proof fn lemma_probes_named(c: ConfigModel, tgts: Seq<Str>)
    ensures
        forall|r: RefModel| #[trigger]
            probes_of(c, tgts).contains(r) <==> exists|j: int, i: int|
                #![trigger c.targets.at(tgts[j]).probes[i]]
                0 <= j < tgts.len() && c.targets.has(tgts[j]) && 0 <= i < c.targets.at(
                    tgts[j],
                ).probes.len() && parse_ref(c.targets.at(tgts[j]).probes[i]) == Some(r),
    decreases tgts.len(),
{
    if tgts.len() > 0 {
        let front = tgts.drop_last();
        let last = tgts.last();
        let so_far = probes_of(c, front);
        let all = probes_of(c, tgts);
        lemma_probes_named(c, front);
        if c.targets.has(last) {
            lemma_with_keys(so_far, c.targets.at(last).probes);
        }
        assert(tgts[tgts.len() - 1] == last);
        assert forall|r: RefModel| #[trigger] all.contains(r) <==> exists|j: int, i: int|
            #![trigger c.targets.at(tgts[j]).probes[i]]
            0 <= j < tgts.len() && c.targets.has(tgts[j]) && 0 <= i < c.targets.at(
                tgts[j],
            ).probes.len() && parse_ref(c.targets.at(tgts[j]).probes[i]) == Some(r) by {
            if all.contains(r) {
                if so_far.contains(r) {
                    let (j, i) = choose|j: int, i: int|
                        #![trigger c.targets.at(front[j]).probes[i]]
                        0 <= j < front.len() && c.targets.has(front[j]) && 0 <= i < c.targets.at(
                            front[j],
                        ).probes.len() && parse_ref(c.targets.at(front[j]).probes[i]) == Some(r);
                    assert(front[j] == tgts[j]);
                    assert(parse_ref(c.targets.at(tgts[j]).probes[i]) == Some(r));
                } else {
                    let keys = c.targets.at(last).probes;
                    let i = choose|i: int|
                        0 <= i < keys.len() && parse_ref(#[trigger] keys[i]) == Some(r);
                    assert(parse_ref(c.targets.at(tgts[tgts.len() - 1]).probes[i]) == Some(r));
                }
            }
            if exists|j: int, i: int|
                #![trigger c.targets.at(tgts[j]).probes[i]]
                0 <= j < tgts.len() && c.targets.has(tgts[j]) && 0 <= i < c.targets.at(
                    tgts[j],
                ).probes.len() && parse_ref(c.targets.at(tgts[j]).probes[i]) == Some(r) {
                let (j, i) = choose|j: int, i: int|
                    #![trigger c.targets.at(tgts[j]).probes[i]]
                    0 <= j < tgts.len() && c.targets.has(tgts[j]) && 0 <= i < c.targets.at(
                        tgts[j],
                    ).probes.len() && parse_ref(c.targets.at(tgts[j]).probes[i]) == Some(r);
                if j < front.len() {
                    assert(front[j] == tgts[j]);
                    assert(parse_ref(c.targets.at(front[j]).probes[i]) == Some(r));
                    assert(so_far.contains(r));
                } else {
                    assert(parse_ref(c.targets.at(last).probes[i]) == Some(r));
                }
            }
        }
    }
}

/// The probes of the targets that a walk meets are those that the target names.
proof fn lemma_direct(g: GraphModel, c: ConfigModel, target: Str)
    requires
        g.targets.has(target) ==> is_ancestry_in(
            g.targets,
            g.targets.node(target),
            bfs_back(g.targets.edges, g.targets.node(target)),
        ),
    ensures
        forall|r: RefModel| #[trigger]
            probes_of(c, chain(g.targets, target)).contains(r) <==> names_probe(g, c, target, r),
{
    let tgts = chain(g.targets, target);
    let list = bfs_back(g.targets.edges, g.targets.node(target));
    let nodes = g.targets.nodes;
    lemma_probes_named(c, tgts);
    assert forall|r: RefModel| #[trigger] probes_of(c, tgts).contains(r) <==> names_probe(
        g,
        c,
        target,
        r,
    ) by {
        if probes_of(c, tgts).contains(r) {
            let (j, i) = choose|j: int, i: int|
                #![trigger c.targets.at(tgts[j]).probes[i]]
                0 <= j < tgts.len() && c.targets.has(tgts[j]) && 0 <= i < c.targets.at(
                    tgts[j],
                ).probes.len() && parse_ref(c.targets.at(tgts[j]).probes[i]) == Some(r);
            assert(list.contains(list[j]));
            assert(leads_into(g.targets, list[j], target));
            assert(parse_ref(c.targets.at(nodes[list[j] as int]).probes[i]) == Some(r));
        }
        if names_probe(g, c, target, r) {
            let (v, i) = choose|v: usize, i: int|
                #![trigger c.targets.at(g.targets.nodes[v as int]).probes[i]]
                leads_into(g.targets, v, target) && c.targets.has(g.targets.nodes[v as int]) && 0
                    <= i < c.targets.at(g.targets.nodes[v as int]).probes.len() && parse_ref(
                    c.targets.at(g.targets.nodes[v as int]).probes[i],
                ) == Some(r);
            assert(list.contains(v));
            let j = choose|j: int| 0 <= j < list.len() && list[j] == v;
            assert(tgts[j] == nodes[v as int]);
            assert(parse_ref(c.targets.at(tgts[j]).probes[i]) == Some(r));
        }
    }
}

/// What is listed for a target is just what it needs.
proof fn lemma_needed(g: GraphModel, c: ConfigModel, target: Str)
    requires
        g.targets.has(target) ==> is_ancestry_in(
            g.targets,
            g.targets.node(target),
            bfs_back(g.targets.edges, g.targets.node(target)),
        ),
        ({
            let direct = probes_of(c, chain(g.targets, target));
            forall|j: int|
                0 <= j < direct.len() ==> known_ancestry(g.probes, #[trigger] direct[j].text())
        }),
    ensures
        forall|r: RefModel| #[trigger]
            flattened(g, c, target).contains(r) <==> needs_probe(g, c, target, r),
{
    let direct = probes_of(c, chain(g.targets, target));
    let all = flattened(g, c, target);
    lemma_direct(g, c, target);
    lemma_with_ancestors(g.probes, direct, direct);
    assert forall|r: RefModel| #[trigger] all.contains(r) <==> needs_probe(g, c, target, r) by {
        if all.contains(r) {
            if direct.contains(r) {
                assert(names_probe(g, c, target, r) && depends_on_probe(g.probes, r, r));
            } else {
                let (i, k) = choose|i: int, k: int|
                    0 <= i < direct.len() && 0 <= k < ancestors(g.probes, direct[i].text()).len()
                        && parse_ref(#[trigger] ancestors(g.probes, direct[i].text())[k]) == Some(
                        r,
                    );
                let d = direct[i];
                let list = dfs_back(g.probes.edges, g.probes.node(d.text()));
                assert(known_ancestry(g.probes, direct[i].text()));
                assert(list.contains(list[k]));
                assert(leads_into(g.probes, list[k], d.text()));
                assert(depends_on_probe(g.probes, d, r));
                assert(direct.contains(d));
                assert(names_probe(g, c, target, d));
            }
        }
        if needs_probe(g, c, target, r) {
            let d = choose|d: RefModel| #[trigger]
                names_probe(g, c, target, d) && depends_on_probe(g.probes, d, r);
            assert(direct.contains(d));
            if d != r {
                let v = choose|v: usize| #[trigger]
                    leads_into(g.probes, v, d.text()) && parse_ref(g.probes.nodes[v as int])
                        == Some(r);
                let i = choose|i: int| 0 <= i < direct.len() && direct[i] == d;
                assert(known_ancestry(g.probes, direct[i].text()));
                let list = dfs_back(g.probes.edges, g.probes.node(d.text()));
                assert(list.contains(v));
                let k = choose|k: int| 0 <= k < list.len() && list[k] == v;
                assert(parse_ref(ancestors(g.probes, direct[i].text())[k]) == Some(r));
            }
        }
    }
}

impl DependencyGraph {
    /// The probes of a target and of those it depends on, and all that these probes depend
    /// on.
    pub fn flatten_target(&self, target_name: &str, config: &GantryConfig) -> (r: Vec<ProbeRef>)
        requires
            self.wf(),
            config.wf(),
        ensures
            r.deep_view() == flattened(self.deep_view(), config.deep_view(), target_name@),
            r.deep_view().no_duplicates(),
            forall|x: RefModel| #[trigger]
                r.deep_view().contains(x) <==> needs_probe(
                    self.deep_view(),
                    config.deep_view(),
                    target_name@,
                    x,
                ),
            self.deep_view().probes.nodes.no_duplicates() ==> holds_ancestors(
                self.deep_view().probes,
                r.deep_view(),
            ),
    {
        let ghost c = config.deep_view();
        let ghost g = self.deep_view();
        proof {
            self.lemma_valid();
        }
        let tgts = self.target_chain(target_name);
        let mut probes: Vec<ProbeRef> = Vec::new();
        let mut i: usize = 0;
        assert(probes.deep_view() =~= Seq::<RefModel>::empty());
        while i < tgts.len()
            invariant
                config.wf(),
                c == config.deep_view(),
                i <= tgts.len(),
                probes.deep_view() == probes_of(c, tgts.deep_view().take(i as int)),
            decreases tgts.len() - i,
        {
            let ghost next = tgts.deep_view().take(i + 1);
            assert(next.drop_last() =~= tgts.deep_view().take(i as int));
            assert(next.last() == tgts[i as int]@);
            if let Some(t) = config.targets.get(tgts[i].as_str()) {
                add_keys(&mut probes, &t.probes);
            }
            i = i + 1;
        }
        assert(tgts.deep_view().take(i as int) =~= tgts.deep_view());
        let initial = copy_refs(&probes);
        let ghost direct = initial.deep_view();
        let mut i: usize = 0;
        proof {
            lemma_probes_of(c, tgts.deep_view());
        }
        while i < initial.len()
            invariant
                self.wf(),
                g == self.deep_view(),
                g.valid(),
                direct == initial.deep_view(),
                i <= initial.len(),
                probes.deep_view() == with_ancestors(g.probes, direct, direct.take(i as int)),
                probes.deep_view().no_duplicates(),
                forall|j: int|
                    0 <= j < i ==> known_ancestry(g.probes, #[trigger] direct[j].text()),
            decreases initial.len() - i,
        {
            let ghost next = direct.take(i + 1);
            assert(next.drop_last() =~= direct.take(i as int));
            assert(next.last() == direct[i as int]);
            let key = initial[i].to_string();
            assert(key@ == direct[i as int].text());
            let deps = self.probe_chain(key.as_str());
            assert(known_ancestry(g.probes, direct[i as int].text()));
            proof {
                lemma_with_keys(probes.deep_view(), deps.deep_view());
            }
            add_keys(&mut probes, &deps);
            i = i + 1;
        }
        assert(direct.take(i as int) =~= direct);
        proof {
            lemma_needed(g, c, target_name@);
            if g.probes.nodes.no_duplicates() {
                lemma_holds_ancestors(g.probes, direct);
            }
        }
        probes
    }
}

/// Adding references in turn keeps those there are, adds each readable one, and makes no
/// duplicate.
proof fn lemma_with_keys(list: Seq<RefModel>, keys: Seq<Str>)
    ensures
        list.no_duplicates() ==> with_keys(list, keys).no_duplicates(),
        forall|r: RefModel| list.contains(r) ==> #[trigger] with_keys(list, keys).contains(r),
        forall|i: int|
            0 <= i < keys.len() && parse_ref(#[trigger] keys[i]) is Some ==> with_keys(
                list,
                keys,
            ).contains(parse_ref(keys[i])->0),
        forall|r: RefModel| #[trigger]
            with_keys(list, keys).contains(r) ==> list.contains(r) || exists|i: int|
                0 <= i < keys.len() && parse_ref(#[trigger] keys[i]) == Some(r),
    decreases keys.len(),
{
    if keys.len() > 0 {
        let front = keys.drop_last();
        let so_far = with_keys(list, front);
        let all = with_keys(list, keys);
        lemma_with_keys(list, front);
        assert(forall|i: int| 0 <= i < front.len() ==> front[i] == keys[i]);
        if let Some(x) = parse_ref(keys.last()) {
            lemma_with_ref(so_far, x);
        }
        assert forall|i: int| 0 <= i < keys.len() && parse_ref(#[trigger] keys[i]) is Some implies
            all.contains(parse_ref(keys[i])->0) by {
            if i < front.len() {
                assert(so_far.contains(parse_ref(front[i])->0));
            }
        }
        assert forall|r: RefModel| #[trigger] all.contains(r) implies list.contains(r) || exists|
            i: int,
        |
            0 <= i < keys.len() && parse_ref(#[trigger] keys[i]) == Some(r) by {
            if so_far.contains(r) {
                if !list.contains(r) {
                    let i = choose|i: int|
                        0 <= i < front.len() && parse_ref(#[trigger] front[i]) == Some(r);
                    assert(parse_ref(keys[i]) == Some(r));
                }
            } else {
                assert(parse_ref(keys[keys.len() - 1]) == Some(r));
            }
        }
    }
}

proof fn lemma_with_ref(list: Seq<RefModel>, x: RefModel)
    ensures
        list.no_duplicates() ==> with_ref(list, x).no_duplicates(),
        with_ref(list, x).contains(x),
        forall|r: RefModel| list.contains(r) ==> #[trigger] with_ref(list, x).contains(r),
        forall|r: RefModel| #[trigger] with_ref(list, x).contains(r) ==> r == x || list.contains(r),
{
    if !list.contains(x) {
        let t = list.push(x);
        assert(t[list.len() as int] == x);
        assert forall|r: RefModel| list.contains(r) implies #[trigger] t.contains(r) by {
            let i = choose|i: int| 0 <= i < list.len() && list[i] == r;
            assert(t[i] == r);
        }
        assert forall|r: RefModel| #[trigger] t.contains(r) implies r == x || list.contains(r) by {
            let i = choose|i: int| 0 <= i < t.len() && t[i] == r;
            if i < list.len() {
                assert(list[i] == r);
            }
        }
    }
}

proof fn lemma_probes_of(c: ConfigModel, tgts: Seq<Str>)
    ensures
        probes_of(c, tgts).no_duplicates(),
    decreases tgts.len(),
{
    if tgts.len() > 0 {
        lemma_probes_of(c, tgts.drop_last());
        if c.targets.has(tgts.last()) {
            lemma_with_keys(probes_of(c, tgts.drop_last()), c.targets.at(tgts.last()).probes);
        }
    }
}

/// Whether the walk from a key is known to meet all that the key depends on.
pub open spec fn known_ancestry(g: Layer, key: Str) -> bool {
    g.has(key) ==> is_ancestry_in(g, g.node(key), dfs_back(g.edges, g.node(key)))
}

proof fn lemma_reaches_trans(g: Layer, a: usize, b: usize, c: usize)
    requires
        reaches(g.edges, a, b),
        reaches(g.edges, b, c),
    ensures
        reaches(g.edges, a, c),
{
    let p = choose|path: Seq<usize>| #[trigger]
        is_path(g.edges, path) && path[0] == a && path.last() == b;
    let q = choose|path: Seq<usize>| #[trigger]
        is_path(g.edges, path) && path[0] == b && path.last() == c;
    let r = p + q.drop_first();
    assert(r[0] == a);
    assert(r.last() == c) by {
        if q.len() == 1 {
            assert(r =~= p);
        }
    }
    assert forall|i: int| 0 <= i < r.len() - 1 implies #[trigger] steps(g.edges, r, i) by {
        if i < p.len() - 1 {
            assert(steps(g.edges, p, i));
        } else {
            assert(steps(g.edges, q, i - (p.len() - 1)));
        }
    }
    assert(is_path(g.edges, r));
}

/// What a walk from a root adds holds all that any of it depends on.
proof fn lemma_with_ancestors(g: Layer, list: Seq<RefModel>, roots: Seq<RefModel>)
    ensures
        forall|r: RefModel| list.contains(r) ==> #[trigger] with_ancestors(g, list, roots).contains(
            r,
        ),
        forall|i: int, k: int|
            0 <= i < roots.len() && 0 <= k < ancestors(g, roots[i].text()).len() && parse_ref(
                #[trigger] ancestors(g, roots[i].text())[k],
            ) is Some ==> with_ancestors(g, list, roots).contains(
                parse_ref(ancestors(g, roots[i].text())[k])->0,
            ),
        forall|r: RefModel| #[trigger]
            with_ancestors(g, list, roots).contains(r) ==> list.contains(r) || exists|
                i: int,
                k: int,
            |
                0 <= i < roots.len() && 0 <= k < ancestors(g, roots[i].text()).len() && parse_ref(
                    #[trigger] ancestors(g, roots[i].text())[k],
                ) == Some(r),
    decreases roots.len(),
{
    if roots.len() > 0 {
        let front = roots.drop_last();
        let so_far = with_ancestors(g, list, front);
        let keys = ancestors(g, roots.last().text());
        let all = with_ancestors(g, list, roots);
        lemma_with_ancestors(g, list, front);
        lemma_with_keys(so_far, keys);
        assert(forall|i: int| 0 <= i < front.len() ==> front[i] == roots[i]);
        assert forall|i: int, k: int|
            0 <= i < roots.len() && 0 <= k < ancestors(g, roots[i].text()).len() && parse_ref(
                #[trigger] ancestors(g, roots[i].text())[k],
            ) is Some implies all.contains(parse_ref(ancestors(g, roots[i].text())[k])->0) by {
            if i < front.len() {
                assert(so_far.contains(parse_ref(ancestors(g, front[i].text())[k])->0));
            }
        }
        assert forall|r: RefModel| #[trigger] all.contains(r) implies list.contains(r) || exists|
            i: int,
            k: int,
        |
            0 <= i < roots.len() && 0 <= k < ancestors(g, roots[i].text()).len() && parse_ref(
                #[trigger] ancestors(g, roots[i].text())[k],
            ) == Some(r) by {
            if so_far.contains(r) {
                if !list.contains(r) {
                    let (i, k) = choose|i: int, k: int|
                        0 <= i < front.len() && 0 <= k < ancestors(g, front[i].text()).len()
                            && parse_ref(#[trigger] ancestors(g, front[i].text())[k]) == Some(r);
                    assert(parse_ref(ancestors(g, roots[i].text())[k]) == Some(r));
                }
            } else {
                let k = choose|k: int| 0 <= k < keys.len() && parse_ref(#[trigger] keys[k]) == Some(r);
                assert(parse_ref(ancestors(g, roots[roots.len() - 1].text())[k]) == Some(r));
            }
        }
    }
}

proof fn lemma_holds_ancestors(g: Layer, direct: Seq<RefModel>)
    requires
        g.nodes.len() <= u32::MAX,
        g.nodes.no_duplicates(),
        forall|j: int|
            0 <= j < direct.len() ==> known_ancestry(g, #[trigger] direct[j].text()),
    ensures
        holds_ancestors(g, with_ancestors(g, direct, direct)),
{
    let list = with_ancestors(g, direct, direct);
    lemma_with_ancestors(g, direct, direct);
    lemma_index(g.nodes);
    assert forall|i: int, v: usize|
        #![trigger list[i], g.nodes[v as int]]
        0 <= i < list.len() && v < g.nodes.len() && g.has(list[i].text()) && reaches(
            g.edges,
            v,
            g.node(list[i].text()),
        ) && parse_ref(g.nodes[v as int]) is Some implies list.contains(
        parse_ref(g.nodes[v as int])->0,
    ) by {
        let r = list[i];
        assert(list.contains(r));
        // The root from whose walk the probe came.
        let j = if direct.contains(r) {
            choose|j: int| 0 <= j < direct.len() && direct[j] == r
        } else {
            let (j, k) = choose|j: int, k: int|
                0 <= j < direct.len() && 0 <= k < ancestors(g, direct[j].text()).len()
                    && parse_ref(#[trigger] ancestors(g, direct[j].text())[k]) == Some(r);
            j
        };
        let root = direct[j].text();
        let walk = dfs_back(g.edges, g.node(root));
        assert(known_ancestry(g, root));
        if !direct.contains(r) {
            let (j2, k) = choose|j: int, k: int|
                0 <= j < direct.len() && 0 <= k < ancestors(g, direct[j].text()).len()
                    && parse_ref(#[trigger] ancestors(g, direct[j].text())[k]) == Some(r);
            lemma_ref_text(ancestors(g, root)[k]);
            let u = walk[k];
            assert(walk.contains(u));
            assert(reaches(g.edges, u, g.node(root)));
            assert(g.has(root));
            assert(ancestors(g, root)[k] == g.nodes[u as int]);
            assert(walk[k] < g.nodes.len());
            assert(r.text() == g.nodes[u as int]);
            assert(g.node(r.text()) == u);
            lemma_reaches_trans(g, v, u, g.node(root));
        } else {
            assert(direct[j] == r);
        }
        assert(reaches(g.edges, v, g.node(root)));
        assert(walk.contains(v));
        let k = choose|k: int| 0 <= k < walk.len() && walk[k] == v;
        assert(ancestors(g, root)[k] == g.nodes[v as int]);
        assert(parse_ref(ancestors(g, direct[j].text())[k]) is Some);
    }
}

/// The levels that are given stay, and none is above the number of services.
proof fn lemma_levels(g: Layer, names: Seq<Str>, order: Seq<Str>, i: int, n: int)
    requires
        0 <= i <= n <= order.len(),
        order.len() <= u32::MAX,
        order.no_duplicates(),
    ensures
        levels_known(levels_of(g, names, order.take(n))),
        levels_of(g, names, order.take(n)).levels.len() <= n,
        forall|k: Str| #[trigger]
            levels_of(g, names, order.take(i)).assigned.has(k) ==> levels_of(
                g,
                names,
                order.take(n),
            ).assigned.has(k) && levels_of(g, names, order.take(n)).assigned.at(k) == levels_of(
                g,
                names,
                order.take(i),
            ).assigned.at(k),
        forall|k: Str| #[trigger]
            levels_of(g, names, order.take(n)).assigned.has(k) ==> order.take(n).contains(k),
    decreases n,
{
    if n > 0 {
        let m = if i < n {
            i
        } else {
            n - 1
        };
        let prev = order.take(n - 1);
        let now = order.take(n);
        lemma_levels(g, names, order, m, n - 1);
        assert(now.drop_last() =~= prev);
        let a = levels_of(g, names, prev);
        let b = levels_of(g, names, now);
        let svc = now.last();
        lemma_max_level(a.assigned, g.prev(svc), a.levels.len() as int);
        assert(!prev.contains(svc)) by {
            if prev.contains(svc) {
                let j = choose|j: int| 0 <= j < prev.len() && prev[j] == svc;
                assert(order[j] == order[n - 1]);
            }
        }
        assert forall|k: Str| #[trigger] b.assigned.has(k) implies now.contains(k) by {
            if a.assigned.has(k) {
                let j = choose|j: int| 0 <= j < prev.len() && prev[j] == k;
                assert(now[j] == k);
            } else {
                assert(now[n - 1] == k);
            }
        }
        assert forall|k: Str| #[trigger] b.assigned.has(k) implies b.assigned.at(k)
            < b.levels.len() by {
            if k != svc {
                assert(a.assigned.has(k));
            }
        }
        assert forall|k: Str| #[trigger]
            levels_of(g, names, order.take(i)).assigned.has(k) implies b.assigned.has(k)
            && b.assigned.at(k) == levels_of(g, names, order.take(i)).assigned.at(k) by {
            if i < n {
                assert(a.assigned.has(k));
            }
        }
    }
}

/// A service stands on a higher level than each of those it starts after.
pub proof fn law_levels(g: GraphModel, names: Seq<Str>, dep: Str, svc: Str)
    requires
        g.valid(),
        names.contains(dep),
        names.contains(svc),
        g.services.prev(svc).contains(dep),
    ensures
        ({
            let st = levels_of(g.services, names, g.topo_order);
            st.assigned.has(dep) && st.assigned.has(svc) && st.assigned.at(dep) < st.assigned.at(
                svc,
            )
        }),
{
    let layer = g.services;
    let order = g.topo_order;
    let n = order.len() as int;
    lemma_index(layer.nodes);
    lemma_sources(layer.edges, layer.node(svc), layer.nodes.len());
    let from = sources_of(layer.edges, layer.node(svc));
    let k = choose|k: int| 0 <= k < layer.prev(svc).len() && layer.prev(svc)[k] == dep;
    let edge = (from[k], layer.node(svc));
    assert(layer.edges.contains(edge));
    let e = choose|e: int| 0 <= e < layer.edges.len() && layer.edges[e] == edge;
    let (i, j) = law_sorted(layer, order, e);
    lemma_order_unique(g);
    let before = levels_of(layer, names, order.take(j));
    assert(order.take(j + 1).drop_last() =~= order.take(j));
    assert(order.take(i + 1).drop_last() =~= order.take(i));
    assert(order.take(i + 1).last() == dep);
    assert(order.take(j + 1).last() == svc);
    assert(levels_of(layer, names, order.take(i + 1)).assigned.has(dep));
    lemma_levels(layer, names, order, i + 1, j);
    lemma_levels(layer, names, order, j, j + 1);
    lemma_levels(layer, names, order, j + 1, n);
    assert(order.take(n) =~= order);
    assert(before.assigned.has(dep));
    lemma_max_level(before.assigned, layer.prev(svc), before.levels.len() as int);
    assert(before.assigned.has(layer.prev(svc)[k]));
    let after = levels_of(layer, names, order.take(j + 1));
    assert(after == place(layer, before, svc));
    assert(after.assigned.has(svc));
    assert(dep != svc);
    assert(after.assigned.has(dep));
}

/// Each service stands once in the order.
proof fn lemma_order_unique(g: GraphModel)
    requires
        g.valid(),
    ensures
        g.topo_order.no_duplicates(),
        g.topo_order.len() <= u32::MAX,
{
    let layer = g.services;
    let list = choose|list: Seq<usize>| #[trigger]
        is_topo_order(layer.nodes.len(), layer.edges, list) && g.topo_order == names_of(
            layer.nodes,
            list,
        );
    assert forall|i: int, j: int|
        0 <= i < g.topo_order.len() && 0 <= j < g.topo_order.len() && i != j implies g.topo_order[i]
        != g.topo_order[j] by {
        assert(list[i] != list[j]);
        assert(list[i] < layer.nodes.len() && list[j] < layer.nodes.len());
    }
}

/// The first of some probes that is red.
pub open spec fn first_red_dep(s: ServicesModel, deps: Seq<RefModel>) -> Option<RefModel>
    decreases deps.len(),
{
    if deps.len() == 0 {
        None
    } else {
        match first_red_dep(s, deps.drop_last()) {
            Some(d) => Some(d),
            None => if red_at(s, deps.last()) {
                Some(deps.last())
            } else {
                None
            },
        }
    }
}

/// The services after some probes of a running service are given their first state: red
/// behind a red probe, else unchecked.
pub open spec fn init_probes(s: ServicesModel, svc: Str, probes: Seq<Str>) -> ServicesModel
    decreases probes.len(),
{
    if probes.len() == 0 {
        s
    } else {
        let so_far = init_probes(s, svc, probes.drop_last());
        let r = RefModel { service: svc, probe: probes.last() };
        let p = probe_at(so_far, r)->0;
        set_probe(
            so_far,
            r,
            ProbeModel {
                state: match first_red_dep(so_far, p.depends_on) {
                    Some(dep) => StateModel::Red(RedModel::DepRed { dep }),
                    None => StateModel::Pending(PendingModel::Unchecked),
                },
                ..p
            },
        )
    }
}

/// Whether a service runs, and so does each one that it starts after a probe of.
pub open spec fn can_be_checked(s: ServicesModel, svc: Str) -> bool {
    &&& s.at(svc).state is Running
    &&& forall|i: int|
        #![trigger s.at(svc).start_after[i]]
        0 <= i < s.at(svc).start_after.len() ==> s.has(s.at(svc).start_after[i].service) && s.at(
            s.at(svc).start_after[i].service,
        ).state is Running
}

/// The services after the probes of some of them, in turn, are given their first state.
pub open spec fn init_services(s: ServicesModel, order: Seq<Str>) -> ServicesModel
    decreases order.len(),
{
    if order.len() == 0 {
        s
    } else {
        let so_far = init_services(s, order.drop_last());
        let svc = order.last();
        if can_be_checked(so_far, svc) {
            init_probes(so_far, svc, so_far.at(svc).probes.keys)
        } else {
            so_far
        }
    }
}

proof fn lemma_first_red(s: ServicesModel, deps: Seq<RefModel>, i: int)
    requires
        0 <= i <= deps.len(),
    ensures
        first_red_dep(s, deps.take(i)) is Some ==> first_red_dep(s, deps) == first_red_dep(
            s,
            deps.take(i),
        ),
    decreases deps.len() - i,
{
    if i < deps.len() {
        assert(deps.take(i + 1).drop_last() =~= deps.take(i));
        lemma_first_red(s, deps, i + 1);
    } else {
        assert(deps.take(i) =~= deps);
    }
}

/// Finds the first of some probes that is red.
pub fn find_red_dep(services: &Services, deps: &Vec<ProbeRef>) -> (r: Option<ProbeRef>)
    requires
        services.wf(),
    ensures
        match r {
            Some(d) => first_red_dep(services.deep_view(), deps.deep_view()) == Some(d.deep_view()),
            None => first_red_dep(services.deep_view(), deps.deep_view()) is None,
        },
{
    let mut i: usize = 0;
    while i < deps.len()
        invariant
            services.wf(),
            i <= deps.len(),
            first_red_dep(services.deep_view(), deps.deep_view().take(i as int)) is None,
        decreases deps.len() - i,
    {
        let ghost next = deps.deep_view().take(i + 1);
        assert(next.drop_last() =~= deps.deep_view().take(i as int));
        assert(next.last() == deps[i as int].deep_view());
        if probe_is_red(services, &deps[i]) {
            proof {
                lemma_first_red(services.deep_view(), deps.deep_view(), i + 1);
            }
            return Some(deps[i].clone());
        }
        i = i + 1;
    }
    assert(deps.deep_view().take(i as int) =~= deps.deep_view());
    None
}

/// Giving probes of a service their first state changes the values of probes alone.
pub proof fn lemma_init_probes(s: ServicesModel, svc: Str, probes: Seq<Str>)
    requires
        s.has(svc),
        forall|i: int| 0 <= i < probes.len() ==> s.at(svc).probes.has(#[trigger] probes[i]),
    ensures
        only_probes_changed(s, init_probes(s, svc, probes)),
    decreases probes.len(),
{
    if probes.len() > 0 {
        let front = probes.drop_last();
        let so_far = init_probes(s, svc, front);
        lemma_init_probes(s, svc, front);
        let r = RefModel { service: svc, probe: probes.last() };
        assert(s.has(svc));
        assert(only_probes_differ(s.at(svc), so_far.at(svc)));
        assert(s.at(svc).probes.has(probes[probes.len() - 1]));
        let done = init_probes(s, svc, probes);
        lemma_set_probe(so_far, r, done.at(svc).probes.at(probes.last()));
        assert forall|k: Str| #[trigger] s.has(k) implies only_probes_differ(
            s.at(k),
            done.at(k),
        ) by {
            assert(only_probes_differ(s.at(k), so_far.at(k)));
        }
        assert forall|k: Str| #[trigger] s.has(k) == done.has(k) by {
            assert(s.has(k) == so_far.has(k));
        }
    }
}

/// Gives the probes of a service their first state.
fn init_service_probes(services: &mut Services, svc: &str)
    requires
        old(services).wf(),
        old(services).deep_view().has(svc@),
    ensures
        final(services).wf(),
        final(services).deep_view() == init_probes(
            old(services).deep_view(),
            svc@,
            old(services).deep_view().at(svc@).probes.keys,
        ),
        only_probes_changed(old(services).deep_view(), final(services).deep_view()),
{
    let ghost s = services.deep_view();
    let ghost probes = s.at(svc@).probes.keys;
    let names = match services.get(svc) {
        Some(v) => {
            proof {
                v.probes.lemma_valid();
            }
            v.probes.names()
        },
        None => Vec::new(),
    };
    let mut i: usize = 0;
    while i < names.len()
        invariant
            services.wf(),
            s.has(svc@),
            probes == s.at(svc@).probes.keys,
            s.at(svc@).probes.valid(),
            names.deep_view() == probes,
            i <= names.len(),
            services.deep_view() == init_probes(s, svc@, probes.take(i as int)),
        decreases names.len() - i,
    {
        let ghost next = probes.take(i + 1);
        let ghost so_far = services.deep_view();
        assert(next.drop_last() =~= probes.take(i as int));
        assert(next.last() == names[i as int]@);
        proof {
            assert forall|j: int| 0 <= j < i implies s.at(svc@).probes.has(
                #[trigger] probes.take(i as int)[j],
            ) by {
                assert(probes.contains(probes[j]));
            }
            lemma_init_probes(s, svc@, probes.take(i as int));
            assert(s.has(svc@));
            assert(only_probes_differ(s.at(svc@), so_far.at(svc@)));
            assert(probes.contains(probes[i as int]));
            assert(s.at(svc@).probes.has(probes[i as int]));
        }
        let r = ProbeRef::new(svc, names[i].as_str());
        assert(r.deep_view() == (RefModel { service: svc@, probe: next.last() }));
        let dep = match find_probe(services, &r) {
            Some(p) => find_red_dep(services, &p.depends_on),
            None => None,
        };
        let p = probe_mut(services, &r);
        p.state = match dep {
            Some(dep) => ProbeState::Red(RedReason::DepRed { dep }),
            None => ProbeState::Pending(PendingReason::Unchecked),
        };
        i = i + 1;
    }
    assert(probes.take(i as int) =~= probes);
    proof {
        assert forall|j: int| 0 <= j < probes.len() implies s.at(svc@).probes.has(
            #[trigger] probes[j],
        ) by {
            assert(probes.contains(probes[j]));
        }
        lemma_init_probes(s, svc@, probes);
    }
}

fn runs_with_deps(services: &Services, svc: &str) -> (r: bool)
    requires
        services.wf(),
        services.deep_view().has(svc@),
    ensures
        r == can_be_checked(services.deep_view(), svc@),
{
    let ghost s = services.deep_view();
    let v = services.get(svc).unwrap();
    if v.state != ServiceState::Running {
        return false;
    }
    let ghost deps = s.at(svc@).start_after;
    let mut i: usize = 0;
    while i < v.start_after.len()
        invariant
            services.wf(),
            s == services.deep_view(),
            v.deep_view() == s.at(svc@),
            deps == v.start_after.deep_view(),
            i <= v.start_after.len(),
            forall|j: int|
                0 <= j < i ==> s.has((#[trigger] deps[j]).service) && s.at(
                    deps[j].service,
                ).state is Running,
        decreases v.start_after.len() - i,
    {
        let runs = match services.get(v.start_after[i].service.as_str()) {
            Some(d) => d.state == ServiceState::Running,
            None => false,
        };
        if !runs {
            assert(deps[i as int] == v.start_after[i as int].deep_view());
            assert(s.at(svc@).start_after[i as int].service == v.start_after[i as int].service@);
            return false;
        }
        i = i + 1;
    }
    true
}

impl DependencyGraph {
    /// Gives each probe its first state, once it is known which services run. The probes of
    /// a service that runs, with all that it starts after, await a check; those that depend
    /// on a red probe are red. The others keep their state.
    pub fn initialize_probe_states(&self, services: &mut Services)
        requires
            self.wf(),
            old(services).wf(),
            forall|i: int|
                0 <= i < self.deep_view().topo_order.len() ==> old(services).deep_view().has(
                    #[trigger] self.deep_view().topo_order[i],
                ),
        ensures
            final(services).wf(),
            final(services).deep_view() == init_services(
                old(services).deep_view(),
                self.deep_view().topo_order,
            ),
            only_probes_changed(old(services).deep_view(), final(services).deep_view()),
    {
        let ghost s = services.deep_view();
        let order = self.topo_order();
        let ghost all = order.deep_view();
        let mut i: usize = 0;
        while i < order.len()
            invariant
                services.wf(),
                all == order.deep_view(),
                i <= order.len(),
                forall|j: int| 0 <= j < all.len() ==> s.has(#[trigger] all[j]),
                services.deep_view() == init_services(s, all.take(i as int)),
                only_probes_changed(s, services.deep_view()),
            decreases order.len() - i,
        {
            let ghost next = all.take(i + 1);
            let ghost so_far = services.deep_view();
            assert(next.drop_last() =~= all.take(i as int));
            assert(next.last() == order[i as int]@);
            assert(s.has(all[i as int]));
            assert(so_far.has(all[i as int]));
            if runs_with_deps(services, order[i].as_str()) {
                init_service_probes(services, order[i].as_str());
                proof {
                    let now = services.deep_view();
                    assert forall|k: Str| #[trigger] s.has(k) == now.has(k) by {
                        assert(s.has(k) == so_far.has(k));
                        assert(so_far.has(k) == now.has(k));
                    }
                    assert forall|k: Str| #[trigger] s.has(k) implies only_probes_differ(
                        s.at(k),
                        now.at(k),
                    ) by {
                        assert(only_probes_differ(s.at(k), so_far.at(k)));
                        assert(so_far.has(k));
                        assert(only_probes_differ(so_far.at(k), now.at(k)));
                    }
                }
            }
            i = i + 1;
        }
        assert(all.take(i as int) =~= all);
    }
}

} // verus!
