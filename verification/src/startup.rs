//! How the state is put together when gantry starts.
use crate::acyclic::law_built_graph_acyclic;
use crate::app_state::{AppModel, AppState};
use crate::batch::{lemma_same_deps_refl, lemma_same_deps_trans, lemma_set_same_deps};
use crate::config::{ConfigModel, GantryConfig};
use crate::converge::all_known;
use crate::digraph::is_topo_order;
use crate::docker::{service_state, state_by, ContainerInfo};
use crate::error::GantryError;
use crate::graph::{fits, graph_of, names_of, DependencyGraph, GraphModel};
use crate::keeps::lemma_only_probes_trans;
use crate::model::RefModel;
use crate::ops::{ok_response, ActionsModel, OpActions, OpResponse};
use crate::ordered_map::{
    changed_up_to, lemma_changed_all, lemma_changed_next, map_table, OrderedMap, Table,
};
use crate::plan::{flattened, init_probes, init_services, lemma_init_probes};
use crate::probe_meta::{acyclic, same_deps};
use crate::propagate_laws::{only_probes_changed, only_probes_differ};
use crate::runtime::{
    first_services, first_targets, probe_at, RuntimeState, ServiceModel, ServicesModel,
    TargetModel, Targets, TargetsModel,
};
use crate::text::Str;
use vstd::prelude::*;

verus! {

/// The targets at the start, each with all probes that it needs.
pub open spec fn whole_targets(c: ConfigModel, g: GraphModel) -> TargetsModel {
    map_table(
        first_targets(c),
        |k: Str, t: TargetModel|
            TargetModel { transitive_probes: flattened(g, c, k), ..t },
    )
}

/// The state at the start.
pub open spec fn first_state(c: ConfigModel, g: GraphModel) -> AppModel {
    AppModel {
        config: c,
        graph: g,
        services: first_services(c),
        targets: whole_targets(c, g),
        current_op: None,
        events: Seq::empty(),
    }
}

fn flatten_targets(targets: &mut Targets, graph: &DependencyGraph, config: &GantryConfig)
    requires
        old(targets).wf(),
        graph.wf(),
        config.wf(),
    ensures
        final(targets).wf(),
        final(targets).deep_view() == map_table(
            old(targets).deep_view(),
            |k: Str, t: TargetModel|
                TargetModel {
                    transitive_probes: flattened(graph.deep_view(), config.deep_view(), k),
                    ..t
                },
        ),
{
    let ghost c = config.deep_view();
    let ghost g = graph.deep_view();
    let ghost start = targets.deep_view();
    let ghost f = |k: Str, t: TargetModel|
        TargetModel { transitive_probes: flattened(g, c, k), ..t };
    proof {
        targets.lemma_valid();
    }
    let n: usize = targets.len();
    let mut i: usize = 0;
    while i < n
        invariant
            targets.wf(),
            graph.wf(),
            config.wf(),
            c == config.deep_view(),
            g == graph.deep_view(),
            f == (|k: Str, t: TargetModel|
                TargetModel { transitive_probes: flattened(g, c, k), ..t }),
            start.valid(),
            i <= n == start.keys.len(),
            changed_up_to(start, f, i as int, targets.deep_view()),
        decreases n - i,
    {
        proof {
            lemma_changed_next(start, f, i as int, targets.deep_view());
        }
        let probes = graph.flatten_target(targets.name(i).as_str(), config);
        let t = targets.value_mut(i);
        t.transitive_probes = probes;
        i = i + 1;
    }
    proof {
        lemma_changed_all(start, f, targets.deep_view());
    }
}

/// All probes of a configuration are in order.
proof fn lemma_config_valid(config: &GantryConfig)
    requires
        config.wf(),
    ensures
        config.deep_view().services.valid(),
        forall|k: Str| #[trigger]
            config.deep_view().services.has(k) ==> config.deep_view().services.at(
                k,
            ).probes.valid(),
{
    config.services.lemma_valid();
    assert forall|k: Str| #[trigger]
        config.deep_view().services.has(k) implies config.deep_view().services.at(
        k,
    ).probes.valid() by {
        let v = config.services.lemma_value(k);
        v.probes.lemma_valid();
    }
}

/// The names in the order of the services are services.
proof fn lemma_order_known(c: ConfigModel)
    requires
        graph_of(c) is Ok,
        graph_of(c)->Ok_0.valid(),
        c.services.valid(),
    ensures
        all_known(first_services(c), graph_of(c)->Ok_0.topo_order),
{
    let g = graph_of(c)->Ok_0;
    let svcs = c.services.keys;
    let order = g.topo_order;
    let list = choose|list: Seq<usize>| #[trigger]
        is_topo_order(svcs.len(), g.services.edges, list) && order == names_of(svcs, list);
    assert forall|i: int| 0 <= i < order.len() implies first_services(c).has(
        #[trigger] order[i],
    ) by {
        assert(list[i] < svcs.len());
        assert(svcs.contains(svcs[list[i] as int]));
    }
}

/// Puts the state together from a configuration. All services count as stopped, until it is
/// known which of their containers run.
pub fn assemble(config: GantryConfig) -> (r: Result<AppState, GantryError>)
    requires
        config.wf(),
        fits(config.deep_view()),
    ensures
        match graph_of(config.deep_view()) {
            Ok(g) => {
                &&& r is Ok
                &&& r->Ok_0.wf()
                &&& r->Ok_0.deep_view() == first_state(config.deep_view(), g)
                &&& acyclic(r->Ok_0.deep_view().services)
                &&& all_known(r->Ok_0.deep_view().services, g.topo_order)
            },
            Err(e) => r is Err && r->Err_0.deep_view() == e,
        },
{
    let ghost c = config.deep_view();
    let graph = DependencyGraph::build(&config)?;
    let mut runtime = RuntimeState::from_config(&config);
    flatten_targets(&mut runtime.targets, &graph, &config);
    proof {
        lemma_config_valid(&config);
        graph.lemma_valid();
        law_built_graph_acyclic(c);
        lemma_order_known(c);
    }
    Ok(AppState::new(config, graph, runtime))
}

/// The state after it is known of a service's container whether it runs.
pub open spec fn container_noted(
    a: AppModel,
    name: Str,
    info: Option<ContainerInfo>,
) -> AppModel {
    if a.services.has(name) {
        AppModel {
            services: a.services.put(
                name,
                ServiceModel { state: state_by(info), ..a.services.at(name) },
            ),
            ..a
        }
    } else {
        a
    }
}

/// Takes in what is known of a service's container at the start.
pub fn note_container(state: &mut AppState, name: &str, info: &Option<ContainerInfo>)
    requires
        old(state).wf(),
    ensures
        final(state).wf(),
        final(state).deep_view() == container_noted(old(state).deep_view(), name@, *info),
        same_deps(old(state).deep_view().services, final(state).deep_view().services),
        forall|k: Str| #[trigger]
            final(state).deep_view().services.has(k) == old(state).deep_view().services.has(k),
{
    let ghost a = state.deep_view();
    if let Some(i) = state.services.position(name) {
        let svc = state.services.value_mut(i);
        svc.state = service_state(info);
    }
    proof {
        let b = state.deep_view();
        assert forall|r: RefModel|
            match (#[trigger] probe_at(a.services, r), probe_at(b.services, r)) {
                (None, None) => true,
                (Some(p), Some(q)) => p.depends_on == q.depends_on,
                _ => false,
            } by {}
    }
}

proof fn lemma_init_probes_same(s: ServicesModel, svc: Str, probes: Seq<Str>)
    requires
        s.has(svc),
        forall|i: int| 0 <= i < probes.len() ==> s.at(svc).probes.has(#[trigger] probes[i]),
    ensures
        same_deps(s, init_probes(s, svc, probes)),
    decreases probes.len(),
{
    lemma_same_deps_refl(s);
    if probes.len() > 0 {
        let front = probes.drop_last();
        assert forall|i: int| 0 <= i < front.len() implies s.at(svc).probes.has(
            #[trigger] front[i],
        ) by {
            assert(front[i] == probes[i]);
        }
        lemma_init_probes_same(s, svc, front);
        lemma_init_probes(s, svc, front);
        let so_far = init_probes(s, svc, front);
        let r = RefModel { service: svc, probe: probes.last() };
        assert(s.at(svc).probes.has(probes[probes.len() - 1]));
        assert(probe_at(s, r) is Some);
        assert(only_probes_differ(s.at(svc), so_far.at(svc)));
        assert(so_far.at(svc).probes.has(probes.last()) == s.at(svc).probes.has(probes.last()));
        let done = init_probes(s, svc, probes);
        lemma_set_same_deps(so_far, r, done.at(svc).probes.at(probes.last()));
        lemma_same_deps_trans(s, so_far, done);
    }
}

proof fn lemma_init_services_same(s: ServicesModel, order: Seq<Str>)
    requires
        all_known(s, order),
        forall|k: Str| #[trigger] s.has(k) ==> s.at(k).probes.valid(),
    ensures
        same_deps(s, init_services(s, order)),
        only_probes_changed(s, init_services(s, order)),
    decreases order.len(),
{
    lemma_same_deps_refl(s);
    if order.len() > 0 {
        let front = order.drop_last();
        assert forall|i: int| 0 <= i < front.len() implies s.has(#[trigger] front[i]) by {
            assert(front[i] == order[i]);
        }
        lemma_init_services_same(s, front);
        let so_far = init_services(s, front);
        let svc = order.last();
        assert(s.has(order[order.len() - 1]));
        assert(s.has(svc) == so_far.has(svc));
        assert(only_probes_differ(s.at(svc), so_far.at(svc)));
        let probes = so_far.at(svc).probes.keys;
        assert forall|i: int| 0 <= i < probes.len() implies so_far.at(svc).probes.has(
            #[trigger] probes[i],
        ) by {
            assert(s.at(svc).probes.keys.contains(probes[i]));
            assert(s.at(svc).probes.has(probes[i]) == so_far.at(svc).probes.has(probes[i]));
        }
        lemma_init_probes_same(so_far, svc, probes);
        lemma_init_probes(so_far, svc, probes);
        let done = init_probes(so_far, svc, probes);
        lemma_same_deps_trans(s, so_far, done);
        lemma_only_probes_trans(s, so_far, done);
    }
}

/// Gives each probe its first state, once it is known which containers run.
pub fn begin(state: &mut AppState)
    requires
        old(state).wf(),
        all_known(old(state).deep_view().services, old(state).deep_view().graph.topo_order),
    ensures
        final(state).wf(),
        final(state).deep_view() == (AppModel {
            services: init_services(
                old(state).deep_view().services,
                old(state).deep_view().graph.topo_order,
            ),
            ..old(state).deep_view()
        }),
        same_deps(old(state).deep_view().services, final(state).deep_view().services),
{
    let ghost a = state.deep_view();
    proof {
        assert forall|k: Str| #[trigger] a.services.has(k) implies a.services.at(
            k,
        ).probes.valid() by {
            let v = state.services.lemma_value(k);
            v.probes.lemma_valid();
        }
        lemma_init_services_same(a.services, a.graph.topo_order);
    }
    state.graph.initialize_probe_states(&mut state.services);
}

/// Begins anew with another configuration. All services count as stopped. The events that are
/// still to be sent out stay, and so does the operation in progress. Where the graph cannot be
/// built, nothing changes.
pub fn reload(state: &mut AppState, config: GantryConfig) -> (r: Result<OpResponse, GantryError>)
    requires
        old(state).wf(),
        config.wf(),
        fits(config.deep_view()),
    ensures
        final(state).wf(),
        match graph_of(config.deep_view()) {
            Ok(g) => {
                &&& r is Ok
                &&& r->Ok_0.wf()
                &&& r->Ok_0.deep_view() == ok_response(
                    0,
                    ActionsModel::none(),
                    Table::empty(),
                    Table::empty(),
                )
                &&& final(state).deep_view() == (AppModel {
                    current_op: old(state).deep_view().current_op,
                    events: old(state).deep_view().events,
                    ..first_state(config.deep_view(), g)
                })
                &&& acyclic(final(state).deep_view().services)
            },
            Err(e) => {
                &&& r is Err
                &&& r->Err_0.deep_view() == e
                &&& final(state).deep_view() == old(state).deep_view()
            },
        },
{
    let next = assemble(config)?;
    state.config = next.config;
    state.graph = next.graph;
    state.services = next.services;
    state.targets = next.targets;
    Ok(OpResponse::ok(0, OpActions::default(), OrderedMap::new(), OrderedMap::new()))
}

} // verus!
