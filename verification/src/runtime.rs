//! Services, probes and targets with their current state.
use crate::config::{
    restarts, ConfigModel, DefaultsConfig, GantryConfig, ProbeConfig, ProbeConfigModel,
    ProbeEntryModel, ServiceConfig, ServiceConfigModel, TargetConfigModel,
};
use crate::model::{
    copy_refs, parse_ref_list, parse_refs, ProbeColor, ProbeRef, ProbeState, RedModel, RedReason,
    RefModel, ServiceState, StateModel,
};
use crate::ordered_map::{
    lemma_mapped_all, lemma_mapped_next, map_table, mapped_up_to, Item, OrderedMap, Table,
};
use crate::text::{copy_list, Str};
use vstd::prelude::*;

verus! {

/// The state of a probe as it is shown.
///
/// Green and red are outcomes. A probing one is being checked, a pending one awaits its
/// check, and a stopped one belongs to a service that does not run.
#[derive(Debug, Clone, Copy, PartialEq, Eq, Structural)]
pub enum ProbeDisplayState {
    Green,
    Red,
    Probing,
    Pending,
    Stopped,
}

/// The state of a service as it is shown: green if all of its probes are, red if not,
/// stopped if it does not run and nothing needs it.
#[derive(Debug, Clone, Copy, PartialEq, Eq, Structural)]
pub enum SvcDisplayState {
    Green,
    Red,
    Stopped,
}

/// The state of a target.
#[derive(Debug)]
pub enum TargetState {
    Green,
    Red {
        /// The probes that are not green.
        probes: Vec<ProbeRef>,
        /// The targets it depends on that are red.
        dep_targets: Vec<String>,
    },
    Inactive,
}

/// The model of a [`TargetState`].
#[verifier::ext_equal]
pub enum TargetStateModel {
    Green,
    Red { probes: Seq<RefModel>, dep_targets: Seq<Str> },
    Inactive,
}

impl DeepView for TargetState {
    type V = TargetStateModel;

    open spec fn deep_view(&self) -> TargetStateModel {
        match *self {
            TargetState::Green => TargetStateModel::Green,
            TargetState::Red { probes, dep_targets } => TargetStateModel::Red {
                probes: probes.deep_view(),
                dep_targets: dep_targets.deep_view(),
            },
            TargetState::Inactive => TargetStateModel::Inactive,
        }
    }
}

impl TargetStateModel {
    /// The name of the state.
    pub open spec fn text(self) -> Str {
        match self {
            TargetStateModel::Green => "green"@,
            TargetStateModel::Red { .. } => "red"@,
            TargetStateModel::Inactive => "inactive"@,
        }
    }

    /// The first probe that is not green.
    pub open spec fn first_red(self) -> Option<RefModel> {
        match self {
            TargetStateModel::Red { probes, .. } => if probes.len() > 0 {
                Some(probes[0])
            } else {
                None
            },
            _ => None,
        }
    }
}

impl TargetState {
    /// The name of the state.
    pub fn as_str(&self) -> (r: &'static str)
        ensures
            r@ == self.deep_view().text(),
    {
        match self {
            TargetState::Green => "green",
            TargetState::Red { .. } => "red",
            TargetState::Inactive => "inactive",
        }
    }

    /// The first probe that is not green.
    pub fn first_red_probe(&self) -> (r: Option<&ProbeRef>)
        ensures
            match r {
                Some(p) => self.deep_view().first_red() == Some(p.deep_view()),
                None => self.deep_view().first_red() is None,
            },
    {
        match self {
            TargetState::Red { probes, .. } => if probes.len() > 0 {
                Some(&probes[0])
            } else {
                None
            },
            _ => None,
        }
    }

    /// Whether the target is green.
    pub fn is_green(&self) -> (r: bool)
        ensures
            r == (self.deep_view() is Green),
    {
        match self {
            TargetState::Green => true,
            _ => false,
        }
    }

    /// A copy of the state.
    pub fn copy(&self) -> (r: Self)
        ensures
            r.deep_view() == self.deep_view(),
    {
        match self {
            TargetState::Green => TargetState::Green,
            TargetState::Red { probes, dep_targets } => {
                let p = copy_refs(probes);
                let d = copy_list(dep_targets);
                assert(d.deep_view() =~= dep_targets.deep_view());
                TargetState::Red { probes: p, dep_targets: d }
            },
            TargetState::Inactive => TargetState::Inactive,
        }
    }
}

/// A probe with its current state.
pub struct ProbeRuntime {
    pub probe_ref: ProbeRef,
    pub state: ProbeState,
    pub prev_color: Option<ProbeColor>,
    pub probe_config: ProbeConfig,
    pub depends_on: Vec<ProbeRef>,
    pub last_probe_ms: Option<u64>,
    pub last_error: Option<String>,
    /// The last log line that the probe matched.
    pub last_log_match: Option<String>,
}

/// The model of a [`ProbeRuntime`].
#[verifier::ext_equal]
pub struct ProbeModel {
    pub probe_ref: RefModel,
    pub state: StateModel,
    pub prev_color: Option<ProbeColor>,
    pub probe_config: ProbeConfigModel,
    pub depends_on: Seq<RefModel>,
    pub last_probe_ms: Option<u64>,
    pub last_error: Option<Str>,
    pub last_log_match: Option<Str>,
}

impl DeepView for ProbeRuntime {
    type V = ProbeModel;

    open spec fn deep_view(&self) -> ProbeModel {
        ProbeModel {
            probe_ref: self.probe_ref.deep_view(),
            state: self.state.deep_view(),
            prev_color: self.prev_color,
            probe_config: self.probe_config.deep_view(),
            depends_on: self.depends_on.deep_view(),
            last_probe_ms: self.last_probe_ms,
            last_error: self.last_error.deep_view(),
            last_log_match: self.last_log_match.deep_view(),
        }
    }
}

impl Item for ProbeRuntime {
    open spec fn ok(&self) -> bool {
        true
    }
}

impl ProbeRuntime {
    /// Whether the probe has no check of its own.
    pub fn is_meta(&self) -> (r: bool)
        ensures
            r == (self.deep_view().probe_config is Meta),
    {
        self.probe_config.is_meta()
    }
}

/// A service with its current state.
pub struct ServiceRuntime {
    pub name: String,
    pub container: String,
    pub state: ServiceState,
    pub probes: OrderedMap<ProbeRuntime>,
    pub start_after: Vec<ProbeRef>,
    pub restart_on_fail: bool,
    /// Counts the starts, stops and crashes, so that the result of a probe that was sent
    /// out before one of them can be told.
    pub generation: u64,
    /// The unix time in seconds from which log probes read.
    pub log_since: i64,
    pub last_emitted_display: Option<SvcDisplayState>,
    pub last_emitted_runtime: Option<ServiceState>,
}

/// The model of a [`ServiceRuntime`].
#[verifier::ext_equal]
pub struct ServiceModel {
    pub name: Str,
    pub container: Str,
    pub state: ServiceState,
    pub probes: Table<ProbeModel>,
    pub start_after: Seq<RefModel>,
    pub restart_on_fail: bool,
    pub generation: u64,
    pub log_since: i64,
    pub last_emitted_display: Option<SvcDisplayState>,
    pub last_emitted_runtime: Option<ServiceState>,
}

impl DeepView for ServiceRuntime {
    type V = ServiceModel;

    open spec fn deep_view(&self) -> ServiceModel {
        ServiceModel {
            name: self.name@,
            container: self.container@,
            state: self.state,
            probes: self.probes.deep_view(),
            start_after: self.start_after.deep_view(),
            restart_on_fail: self.restart_on_fail,
            generation: self.generation,
            log_since: self.log_since,
            last_emitted_display: self.last_emitted_display,
            last_emitted_runtime: self.last_emitted_runtime,
        }
    }
}

impl Item for ServiceRuntime {
    open spec fn ok(&self) -> bool {
        self.probes.wf()
    }
}

/// A target with its current state.
pub struct TargetRuntime {
    pub name: String,
    pub direct_probes: Vec<ProbeRef>,
    pub transitive_probes: Vec<ProbeRef>,
    pub depends_on_targets: Vec<String>,
    pub last_emitted_state: Option<TargetState>,
    /// Whether the target has been converged or probed.
    pub activated: bool,
}

/// The model of a [`TargetRuntime`].
#[verifier::ext_equal]
pub struct TargetModel {
    pub name: Str,
    pub direct_probes: Seq<RefModel>,
    pub transitive_probes: Seq<RefModel>,
    pub depends_on_targets: Seq<Str>,
    pub last_emitted_state: Option<TargetStateModel>,
    pub activated: bool,
}

impl DeepView for TargetRuntime {
    type V = TargetModel;

    open spec fn deep_view(&self) -> TargetModel {
        TargetModel {
            name: self.name@,
            direct_probes: self.direct_probes.deep_view(),
            transitive_probes: self.transitive_probes.deep_view(),
            depends_on_targets: self.depends_on_targets.deep_view(),
            last_emitted_state: self.last_emitted_state.deep_view(),
            activated: self.activated,
        }
    }
}

impl Item for TargetRuntime {
    open spec fn ok(&self) -> bool {
        true
    }
}

/// All services by name.
pub type Services = OrderedMap<ServiceRuntime>;

/// All targets by name.
pub type Targets = OrderedMap<TargetRuntime>;

/// The model of [`Services`].
pub type ServicesModel = Table<ServiceModel>;

/// The model of [`Targets`].
pub type TargetsModel = Table<TargetModel>;

/// The probe that a reference names.
pub open spec fn probe_at(s: ServicesModel, r: RefModel) -> Option<ProbeModel> {
    if s.has(r.service) && s.at(r.service).probes.has(r.probe) {
        Some(s.at(r.service).probes.at(r.probe))
    } else {
        None
    }
}

/// Whether a reference names a probe that is green.
pub open spec fn green_at(s: ServicesModel, r: RefModel) -> bool {
    probe_at(s, r) matches Some(p) && p.state is Green
}

/// Whether a reference names a probe that is red.
pub open spec fn red_at(s: ServicesModel, r: RefModel) -> bool {
    probe_at(s, r) matches Some(p) && p.state is Red
}

/// Whether each reference of a list names a probe that is green.
pub open spec fn all_green_at(s: ServicesModel, refs: Seq<RefModel>) -> bool {
    forall|i: int| 0 <= i < refs.len() ==> green_at(s, #[trigger] refs[i])
}

/// The services after the probe that `r` names is replaced.
pub open spec fn set_probe(s: ServicesModel, r: RefModel, p: ProbeModel) -> ServicesModel {
    s.put(
        r.service,
        ServiceModel { probes: s.at(r.service).probes.put(r.probe, p), ..s.at(r.service) },
    )
}

/// Finds the probe that a reference names.
pub fn find_probe<'a>(services: &'a Services, r: &ProbeRef) -> (p: Option<&'a ProbeRuntime>)
    requires
        services.wf(),
    ensures
        match p {
            Some(p) => probe_at(services.deep_view(), r.deep_view()) == Some(p.deep_view()),
            None => probe_at(services.deep_view(), r.deep_view()) is None,
        },
{
    match services.get(r.service.as_str()) {
        Some(svc) => svc.probes.get(r.probe.as_str()),
        None => None,
    }
}

/// Whether a reference names a probe that is green.
pub fn probe_is_green(services: &Services, r: &ProbeRef) -> (b: bool)
    requires
        services.wf(),
    ensures
        b == green_at(services.deep_view(), r.deep_view()),
{
    match find_probe(services, r) {
        Some(p) => p.state.is_green(),
        None => false,
    }
}

/// Whether a reference names a probe that is red.
pub fn probe_is_red(services: &Services, r: &ProbeRef) -> (b: bool)
    requires
        services.wf(),
    ensures
        b == red_at(services.deep_view(), r.deep_view()),
{
    match find_probe(services, r) {
        Some(p) => p.state.is_red(),
        None => false,
    }
}

/// Whether each reference of a list names a probe that is green.
pub fn probes_all_green(services: &Services, refs: &Vec<ProbeRef>) -> (b: bool)
    requires
        services.wf(),
    ensures
        b == all_green_at(services.deep_view(), refs.deep_view()),
{
    let mut i: usize = 0;
    while i < refs.len()
        invariant
            services.wf(),
            i <= refs.len(),
            forall|j: int|
                0 <= j < i ==> green_at(services.deep_view(), #[trigger] refs.deep_view()[j]),
        decreases refs.len() - i,
    {
        if !probe_is_green(services, &refs[i]) {
            assert(!green_at(services.deep_view(), refs.deep_view()[i as int]));
            return false;
        }
        i = i + 1;
    }
    true
}

/// The probe that a reference names, to be changed in place.
pub fn probe_mut<'a>(services: &'a mut Services, r: &ProbeRef) -> (p: &'a mut ProbeRuntime)
    requires
        old(services).wf(),
        probe_at(old(services).deep_view(), r.deep_view()) is Some,
    ensures
        probe_at(old(services).deep_view(), r.deep_view()) == Some(p.deep_view()),
        final(services).wf(),
        final(services).deep_view() == set_probe(
            old(services).deep_view(),
            r.deep_view(),
            final(p).deep_view(),
        ),
{
    let i: usize = services.position(r.service.as_str()).unwrap();
    let svc = services.value_mut(i);
    let j: usize = svc.probes.position(r.probe.as_str()).unwrap();
    svc.probes.value_mut(j)
}

/// A probe at its start.
pub open spec fn first_probe(svc: Str, name: Str, e: ProbeEntryModel) -> ProbeModel {
    ProbeModel {
        probe_ref: RefModel { service: svc, probe: name },
        state: StateModel::Red(RedModel::Stopped),
        prev_color: None,
        probe_config: e.probe,
        depends_on: parse_refs(e.depends_on),
        last_probe_ms: None,
        last_error: None,
        last_log_match: None,
    }
}

/// A service at its start.
pub open spec fn first_service(
    defaults: DefaultsConfig,
    name: Str,
    c: ServiceConfigModel,
) -> ServiceModel {
    ServiceModel {
        name,
        container: c.container,
        state: ServiceState::Stopped,
        probes: map_table(c.probes, |p: Str, e: ProbeEntryModel| first_probe(name, p, e)),
        start_after: parse_refs(c.start_after),
        restart_on_fail: restarts(c.restart_on_fail, defaults),
        generation: 0,
        log_since: 0,
        last_emitted_display: None,
        last_emitted_runtime: None,
    }
}

/// A target at its start.
pub open spec fn first_target(name: Str, c: TargetConfigModel) -> TargetModel {
    TargetModel {
        name,
        direct_probes: parse_refs(c.probes),
        transitive_probes: parse_refs(c.probes),
        depends_on_targets: c.depends_on,
        last_emitted_state: None,
        activated: false,
    }
}

/// The services of a configuration at their start.
pub open spec fn first_services(c: ConfigModel) -> ServicesModel {
    map_table(c.services, |k: Str, s: ServiceConfigModel| first_service(c.defaults, k, s))
}

/// The targets of a configuration at their start.
pub open spec fn first_targets(c: ConfigModel) -> TargetsModel {
    map_table(c.targets, |k: Str, t: TargetConfigModel| first_target(k, t))
}

/// The services and targets while gantry runs.
pub struct RuntimeState {
    pub services: Services,
    pub targets: Targets,
}

impl RuntimeState {
    /// The state at the start: all services stopped, and no target active.
    pub fn from_config(config: &GantryConfig) -> (r: Self)
        requires
            config.wf(),
        ensures
            r.services.wf(),
            r.targets.wf(),
            r.services.deep_view() == first_services(config.deep_view()),
            r.targets.deep_view() == first_targets(config.deep_view()),
    {
        let ghost c = config.deep_view();
        let ghost of_service = |k: Str, s: ServiceConfigModel| first_service(c.defaults, k, s);
        let ghost of_target = |k: Str, t: TargetConfigModel| first_target(k, t);
        let mut services: Services = OrderedMap::new();
        let n: usize = config.services.len();
        let mut i: usize = 0;
        assert(c.services.keys.take(0) =~= Seq::<Str>::empty());
        while i < n
            invariant
                config.wf(),
                c == config.deep_view(),
                c.services.valid(),
                of_service == (|k: Str, s: ServiceConfigModel| first_service(c.defaults, k, s)),
                services.wf(),
                i <= n == c.services.keys.len(),
                mapped_up_to(c.services, of_service, i as int, services.deep_view()),
            decreases n - i,
        {
            let name = config.services.name(i);
            let sc = config.services.value(i);
            let svc = start_service(name, sc, &config.defaults);
            proof {
                lemma_mapped_next(c.services, of_service, i as int, services.deep_view());
            }
            services.insert(name.clone(), svc);
            i = i + 1;
        }
        proof {
            lemma_mapped_all(c.services, of_service, services.deep_view());
        }
        let mut targets: Targets = OrderedMap::new();
        let m: usize = config.targets.len();
        let mut i: usize = 0;
        assert(c.targets.keys.take(0) =~= Seq::<Str>::empty());
        while i < m
            invariant
                config.wf(),
                c == config.deep_view(),
                c.targets.valid(),
                of_target == (|k: Str, t: TargetConfigModel| first_target(k, t)),
                targets.wf(),
                i <= m == c.targets.keys.len(),
                mapped_up_to(c.targets, of_target, i as int, targets.deep_view()),
            decreases m - i,
        {
            let name = config.targets.name(i);
            let tc = config.targets.value(i);
            let direct_probes = parse_ref_list(&tc.probes);
            let transitive_probes = copy_refs(&direct_probes);
            let depends_on_targets = copy_list(&tc.depends_on);
            assert(depends_on_targets.deep_view() =~= tc.depends_on.deep_view());
            proof {
                lemma_mapped_next(c.targets, of_target, i as int, targets.deep_view());
            }
            targets.insert(
                name.clone(),
                TargetRuntime {
                    name: name.clone(),
                    direct_probes,
                    transitive_probes,
                    depends_on_targets,
                    last_emitted_state: None,
                    activated: false,
                },
            );
            i = i + 1;
        }
        proof {
            lemma_mapped_all(c.targets, of_target, targets.deep_view());
        }
        RuntimeState { services, targets }
    }
}

fn start_service(name: &String, sc: &ServiceConfig, defaults: &DefaultsConfig) -> (r: ServiceRuntime)
    requires
        sc.ok(),
    ensures
        r.ok(),
        r.deep_view() == first_service(*defaults, name@, sc.deep_view()),
{
    let ghost t = sc.probes.deep_view();
    let ghost of_probe = |p: Str, e: ProbeEntryModel| first_probe(name@, p, e);
    let mut probes: OrderedMap<ProbeRuntime> = OrderedMap::new();
    let n: usize = sc.probes.len();
    let mut i: usize = 0;
    assert(t.keys.take(0) =~= Seq::<Str>::empty());
    while i < n
        invariant
            sc.ok(),
            t == sc.probes.deep_view(),
            t.valid(),
            of_probe == (|p: Str, e: ProbeEntryModel| first_probe(name@, p, e)),
            probes.wf(),
            i <= n == t.keys.len(),
            mapped_up_to(t, of_probe, i as int, probes.deep_view()),
        decreases n - i,
    {
        let probe_name = sc.probes.name(i);
        let entry = sc.probes.value(i);
        proof {
            lemma_mapped_next(t, of_probe, i as int, probes.deep_view());
        }
        probes.insert(
            probe_name.clone(),
            ProbeRuntime {
                probe_ref: ProbeRef::new(name.as_str(), probe_name.as_str()),
                state: ProbeState::Red(RedReason::Stopped),
                prev_color: None,
                probe_config: entry.probe.clone(),
                depends_on: parse_ref_list(&entry.depends_on),
                last_probe_ms: None,
                last_error: None,
                last_log_match: None,
            },
        );
        i = i + 1;
    }
    proof {
        lemma_mapped_all(t, of_probe, probes.deep_view());
    }
    ServiceRuntime {
        name: name.clone(),
        container: sc.container.clone(),
        state: ServiceState::Stopped,
        probes,
        start_after: parse_ref_list(&sc.start_after),
        restart_on_fail: sc.restart_on_fail(defaults),
        generation: 0,
        log_since: 0,
        last_emitted_display: None,
        last_emitted_runtime: None,
    }
}

} // verus!
