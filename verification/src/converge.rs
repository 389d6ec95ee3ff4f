//! How a target is brought to green: services are started and checked, and those that fail are
//! restarted once.
use crate::app_state::{AppModel, AppState};
use crate::apply::{apply_outcome, apply_probe_result};
use crate::batch::{
    lemma_apply_same_deps, lemma_same_deps_refl, lemma_same_deps_trans, update_meta_probes,
    update_service, Progress,
};
use crate::display::{
    all_probes_green, any_probe_failed, any_probe_red, service_all_green, service_any_failed,
    service_any_red,
};
use crate::duration::Duration;
use crate::emit::{after_show, after_tell, emit_target_states, law_show_keeps, told_statuses};
use crate::error::{no_target, target_not_found, ErrorModel, GantryError};
use crate::events::{Event, EventModel};
use crate::keeps::{law_apply_changes_probes, law_meta_changes_probes};
use crate::lifecycle::{show, stop, stopped};
use crate::model::{
    copy_refs, ProbeFailure, ProbeRef, ProbeState, RedModel, RedReason, RefModel, ServiceState,
    StateModel,
};
use crate::names::{with_name, with_names, NameSet};
use crate::ops::{
    ActionsModel, OpActions, OpResponse, ProbeStatus, ResponseModel, StatusModel,
    TargetStatusModel,
};
use crate::ordered_map::{
    changed_up_to, lemma_changed_all, lemma_changed_next, map_table, Item, OrderedMap, Table,
};
use crate::probe::{OutcomeModel, ProbeOutcome, ProbeResult, ResultModel};
use crate::probe_meta::{acyclic, lemma_same_deps, same_deps};
use crate::propagate_laws::only_probes_differ;
use crate::reprobe::{list_services, services_of, told};
use crate::resolve::{collect_pending_probes, pending_among, PendingProbe, PendingProbeModel};
use crate::runtime::{
    all_green_at, probe_at, probes_all_green, ProbeModel, ServiceModel, ServiceRuntime, Services,
    ServicesModel,
};
use crate::targets::{activate_all, activate_target_transitive};
use crate::text::{cat, cat3, copy_list, join, joined, text_eq, Str};
use vstd::prelude::*;

verus! {

/// How far a target has been brought to green.
pub struct Convergence {
    pub target: String,
    pub allow_restart: bool,
    /// The probes that the target needs.
    pub probes: Vec<ProbeRef>,
    /// The services of these probes, each after those that it depends on.
    pub services: Vec<String>,
    pub actions: OpActions,
    pub statuses: OrderedMap<ProbeStatus>,
    /// The services that were restarted.
    pub restarted: NameSet,
    /// The services that were started in this round.
    pub just_started: NameSet,
}

/// The model of a [`Convergence`].
#[verifier::ext_equal]
pub struct ConvergenceModel {
    pub target: Str,
    pub allow_restart: bool,
    pub probes: Seq<RefModel>,
    pub services: Seq<Str>,
    pub actions: ActionsModel,
    pub statuses: Table<StatusModel>,
    pub restarted: Seq<Str>,
    pub just_started: Seq<Str>,
}

impl DeepView for Convergence {
    type V = ConvergenceModel;

    open spec fn deep_view(&self) -> ConvergenceModel {
        ConvergenceModel {
            target: self.target@,
            allow_restart: self.allow_restart,
            probes: self.probes.deep_view(),
            services: self.services.deep_view(),
            actions: self.actions.deep_view(),
            statuses: self.statuses.deep_view(),
            restarted: self.restarted.deep_view(),
            just_started: self.just_started.deep_view(),
        }
    }
}

impl Convergence {
    /// The parts are in order.
    pub open spec fn wf(&self) -> bool {
        &&& self.actions.start_errors.wf()
        &&& self.statuses.wf()
        &&& self.restarted.wf()
        &&& self.just_started.wf()
    }
}

/// The names of a list that are in a set, each once.
pub open spec fn listed_in(order: Seq<Str>, set: Seq<Str>) -> Seq<Str>
    decreases order.len(),
{
    if order.len() == 0 {
        Seq::empty()
    } else if set.contains(order.last()) {
        with_name(listed_in(order.drop_last(), set), order.last())
    } else {
        listed_in(order.drop_last(), set)
    }
}

/// The services of some probes, each once, as they first occur.
pub open spec fn distinct_services(refs: Seq<RefModel>) -> Seq<Str> {
    with_names(Seq::empty(), services_of(refs))
}

/// The services of some probes in an order. Those that are not part of it come last.
pub open spec fn needed_services(order: Seq<Str>, refs: Seq<RefModel>) -> Seq<Str> {
    let set = distinct_services(refs);
    with_names(listed_in(order, set), set)
}

fn list_distinct_services(refs: &Vec<ProbeRef>) -> (r: NameSet)
    ensures
        r.wf(),
        r.deep_view() == distinct_services(refs.deep_view()),
{
    let mut set = NameSet::new();
    set.extend(&list_services(refs));
    set
}

fn list_needed_services(order: &Vec<String>, refs: &Vec<ProbeRef>) -> (r: Vec<String>)
    ensures
        r.deep_view() == needed_services(order.deep_view(), refs.deep_view()),
{
    let set = list_distinct_services(refs);
    let ghost all = order.deep_view();
    let mut out = NameSet::new();
    let mut i: usize = 0;
    while i < order.len()
        invariant
            set.wf(),
            out.wf(),
            all == order.deep_view(),
            i <= order.len(),
            out.deep_view() == listed_in(all.take(i as int), set.deep_view()),
        decreases order.len() - i,
    {
        let ghost next = all.take(i + 1);
        assert(next.drop_last() =~= all.take(i as int));
        assert(next.last() == order[i as int]@);
        if set.contains(order[i].as_str()) {
            out.insert(order[i].as_str());
        }
        i = i + 1;
    }
    assert(all.take(i as int) =~= all);
    out.extend(&set.to_list());
    out.to_list()
}

/// The state and the progress at the beginning, where a target is to be brought to green.
pub open spec fn converge_begun(a: AppModel, name: Str, allow_restart: bool) -> (
    AppModel,
    ConvergenceModel,
) {
    let refs = a.targets.at(name).transitive_probes;
    let needed = needed_services(a.graph.topo_order, refs);
    let b = told(
        AppModel { targets: activate_all(a.targets, seq![name]), ..a },
        EventModel::OpStart { op: "converge"@, target_or_service: name },
    );
    (
        after_tell(after_show(b), needed),
        ConvergenceModel {
            target: name,
            allow_restart,
            probes: refs,
            services: needed,
            actions: ActionsModel::none(),
            statuses: Table::empty(),
            restarted: Seq::empty(),
            just_started: Seq::empty(),
        },
    )
}

/// Begins to bring a target to green. The target is made active, and all targets that it
/// depends on.
pub fn converge(state: &mut AppState, target_name: &str, allow_restart: bool) -> (r: Result<
    Convergence,
    GantryError,
>)
    requires
        old(state).wf(),
    ensures
        final(state).wf(),
        same_deps(old(state).deep_view().services, final(state).deep_view().services),
        ({
            let a = old(state).deep_view();
            let b = final(state).deep_view();
            if !a.targets.has(target_name@) {
                b == a && r is Err && r->Err_0.deep_view() == no_target(target_name@)
            } else {
                &&& r is Ok
                &&& r->Ok_0.wf()
                &&& (b, r->Ok_0.deep_view()) == converge_begun(a, target_name@, allow_restart)
            }
        }),
{
    let ghost a = state.deep_view();
    proof {
        lemma_same_deps_refl(a.services);
    }
    let probes = match state.targets.get(target_name) {
        None => {
            return Err(target_not_found(target_name));
        },
        Some(t) => copy_refs(&t.transitive_probes),
    };
    activate_target_transitive(&mut state.targets, target_name);
    state.emit(Event::op_start("converge", target_name));
    let order = copy_list(state.graph.topo_order());
    assert(order.deep_view() =~= a.graph.topo_order);
    let services = list_needed_services(&order, &probes);
    show(state);
    emit_target_states(state, &services);
    Ok(
        Convergence {
            target: target_name.to_owned(),
            allow_restart,
            probes,
            services,
            actions: OpActions::default(),
            statuses: OrderedMap::new(),
            restarted: NameSet::new(),
            just_started: NameSet::new(),
        },
    )
}

/// How a round ended.
#[derive(Debug, Clone, Copy, PartialEq, Eq, Structural)]
pub enum PipelineOutcome {
    /// All that the target needs is green.
    AllGreen,
    /// A service was stopped, to be started again in the next round.
    Restarted,
    /// A probe failed, and nothing more can be done about it.
    TerminalFailure,
    /// Nothing was left to do.
    NoProgress,
}

/// A service that is to be started as soon as some probes are green.
pub struct StartTask {
    pub service: String,
    pub start_after: Vec<ProbeRef>,
}

/// The model of a [`StartTask`].
#[verifier::ext_equal]
pub struct StartTaskModel {
    pub service: Str,
    pub start_after: Seq<RefModel>,
}

impl DeepView for StartTask {
    type V = StartTaskModel;

    open spec fn deep_view(&self) -> StartTaskModel {
        StartTaskModel { service: self.service@, start_after: self.start_after.deep_view() }
    }
}

/// A check that is to be sent out as soon as some probes are green.
pub struct ProbeTask {
    pub probe: PendingProbe,
    pub depends_on: Vec<ProbeRef>,
}

/// The model of a [`ProbeTask`].
#[verifier::ext_equal]
pub struct ProbeTaskModel {
    pub probe: PendingProbeModel,
    pub depends_on: Seq<RefModel>,
}

impl DeepView for ProbeTask {
    type V = ProbeTaskModel;

    open spec fn deep_view(&self) -> ProbeTaskModel {
        ProbeTaskModel { probe: self.probe.deep_view(), depends_on: self.depends_on.deep_view() }
    }
}

/// The task to check a probe of a service.
pub open spec fn task_for(name: Str, svc: ServiceModel, probe: Str) -> ProbeTaskModel {
    ProbeTaskModel {
        probe: PendingProbeModel {
            probe_ref: RefModel { service: name, probe },
            service_name: name,
            container: svc.container,
            config: svc.probes.at(probe).probe_config,
            log_since: svc.log_since,
            generation: svc.generation,
        },
        depends_on: svc.probes.at(probe).depends_on,
    }
}

/// The tasks to check those of some probes of a service that are not green and have a check.
pub open spec fn tasks_for(name: Str, svc: ServiceModel, keys: Seq<Str>) -> Seq<ProbeTaskModel>
    decreases keys.len(),
{
    if keys.len() == 0 {
        Seq::empty()
    } else {
        let so_far = tasks_for(name, svc, keys.drop_last());
        let p = svc.probes.at(keys.last());
        if p.state is Green || p.probe_config is Meta {
            so_far
        } else {
            so_far.push(task_for(name, svc, keys.last()))
        }
    }
}

fn list_tasks(name: &str, svc: &ServiceRuntime) -> (r: Vec<ProbeTask>)
    requires
        svc.ok(),
    ensures
        r.deep_view() == tasks_for(name@, svc.deep_view(), svc.deep_view().probes.keys),
{
    let ghost m = svc.deep_view();
    let ghost keys = m.probes.keys;
    let mut out: Vec<ProbeTask> = Vec::new();
    let n: usize = svc.probes.len();
    let mut i: usize = 0;
    assert(out.deep_view() =~= Seq::<ProbeTaskModel>::empty());
    while i < n
        invariant
            svc.ok(),
            m == svc.deep_view(),
            keys == m.probes.keys,
            i <= n == keys.len(),
            out.deep_view() == tasks_for(name@, m, keys.take(i as int)),
        decreases n - i,
    {
        let ghost next = keys.take(i + 1);
        assert(next.drop_last() =~= keys.take(i as int));
        assert(next.last() == keys[i as int]);
        let p = svc.probes.value(i);
        if !p.state.is_green() && !p.is_meta() {
            let task = ProbeTask {
                probe: PendingProbe {
                    probe_ref: ProbeRef::new(name, svc.probes.name(i).as_str()),
                    service_name: name.to_owned(),
                    container: svc.container.clone(),
                    config: p.probe_config.clone(),
                    log_since: svc.log_since,
                    generation: svc.generation,
                },
                depends_on: copy_refs(&p.depends_on),
            };
            let ghost before = out.deep_view();
            let ghost t = task.deep_view();
            out.push(task);
            assert(out.deep_view() =~= before.push(t));
        }
        i = i + 1;
    }
    assert(keys.take(i as int) =~= keys);
    out
}

/// What is to be done in a round.
#[verifier::ext_equal]
pub struct RoundModel {
    pub starts: Seq<StartTaskModel>,
    pub probes: Seq<ProbeTaskModel>,
}

/// What is to be done for some services: those that do not run are started, and the probes of
/// the others that are not green are checked.
pub open spec fn round_for(s: ServicesModel, names: Seq<Str>) -> RoundModel
    decreases names.len(),
{
    if names.len() == 0 {
        RoundModel { starts: Seq::empty(), probes: Seq::empty() }
    } else {
        let so_far = round_for(s, names.drop_last());
        let name = names.last();
        let svc = s.at(name);
        if svc.state is Running {
            RoundModel {
                probes: so_far.probes + tasks_for(name, svc, svc.probes.keys),
                ..so_far
            }
        } else {
            RoundModel {
                starts: so_far.starts.push(
                    StartTaskModel { service: name, start_after: svc.start_after },
                ),
                ..so_far
            }
        }
    }
}

/// Whether some services are all configured.
pub open spec fn all_known(s: ServicesModel, names: Seq<Str>) -> bool {
    forall|i: int| 0 <= i < names.len() ==> s.has(#[trigger] names[i])
}

fn plan_round(services: &Services, names: &Vec<String>) -> (r: (Vec<StartTask>, Vec<ProbeTask>))
    requires
        services.wf(),
        all_known(services.deep_view(), names.deep_view()),
    ensures
        (RoundModel { starts: r.0.deep_view(), probes: r.1.deep_view() }) == round_for(
            services.deep_view(),
            names.deep_view(),
        ),
{
    let ghost s = services.deep_view();
    let ghost all = names.deep_view();
    let mut starts: Vec<StartTask> = Vec::new();
    let mut probes: Vec<ProbeTask> = Vec::new();
    let mut i: usize = 0;
    assert(starts.deep_view() =~= Seq::<StartTaskModel>::empty());
    assert(probes.deep_view() =~= Seq::<ProbeTaskModel>::empty());
    while i < names.len()
        invariant
            services.wf(),
            s == services.deep_view(),
            all == names.deep_view(),
            all_known(s, all),
            i <= names.len(),
            (RoundModel { starts: starts.deep_view(), probes: probes.deep_view() }) == round_for(
                s,
                all.take(i as int),
            ),
        decreases names.len() - i,
    {
        let ghost next = all.take(i + 1);
        assert(next.drop_last() =~= all.take(i as int));
        assert(next.last() == names[i as int]@);
        assert(s.has(all[i as int]));
        let name = names[i].as_str();
        if let Some(svc) = services.get(name) {
            if svc.state == ServiceState::Running {
                let mut tasks = list_tasks(name, svc);
                let ghost before = probes.deep_view();
                let ghost more = tasks.deep_view();
                probes.append(&mut tasks);
                assert(probes.deep_view() =~= before + more);
            } else {
                let task = StartTask {
                    service: name.to_owned(),
                    start_after: copy_refs(&svc.start_after),
                };
                let ghost before = starts.deep_view();
                let ghost t = task.deep_view();
                starts.push(task);
                assert(starts.deep_view() =~= before.push(t));
            }
        }
        i = i + 1;
    }
    assert(all.take(i as int) =~= all);
    (starts, probes)
}

/// What is next for a target that is to be brought to green.
pub enum Round {
    /// Nothing.
    Done(PipelineOutcome),
    /// Services are to be started, and probes to be checked.
    Run { starts: Vec<StartTask>, probes: Vec<ProbeTask> },
}

/// Lists the checks that a round begins with: those of probes that the target needs and that
/// await one.
pub fn refresh(state: &AppState, conv: &Convergence) -> (r: Vec<PendingProbe>)
    requires
        state.wf(),
    ensures
        r.deep_view() == pending_among(state.deep_view().services, conv.deep_view().probes),
{
    collect_pending_probes(&state.services, Some(&conv.probes))
}

/// Begins a round, once the probes that awaited a check were checked. It is the last one if
/// all that the target needs is green, or if nothing is left to do.
pub fn begin_round(state: &AppState, conv: &mut Convergence) -> (r: Round)
    requires
        state.wf(),
        old(conv).wf(),
        all_known(state.deep_view().services, old(conv).deep_view().services),
    ensures
        final(conv).wf(),
        final(conv).deep_view() == (ConvergenceModel {
            just_started: Seq::empty(),
            ..old(conv).deep_view()
        }),
        ({
            let s = state.deep_view().services;
            let plan = round_for(s, old(conv).deep_view().services);
            if all_green_at(s, old(conv).deep_view().probes) {
                r == Round::Done(PipelineOutcome::AllGreen)
            } else if plan.starts.len() == 0 && plan.probes.len() == 0 {
                r == Round::Done(PipelineOutcome::NoProgress)
            } else {
                r matches Round::Run { starts, probes } && starts.deep_view() == plan.starts
                    && probes.deep_view() == plan.probes
            }
        }),
{
    conv.just_started = NameSet::new();
    if probes_all_green(&state.services, &conv.probes) {
        return Round::Done(PipelineOutcome::AllGreen);
    }
    let (starts, probes) = plan_round(&state.services, &conv.services);
    assert(starts.deep_view().len() == starts.len());
    assert(probes.deep_view().len() == probes.len());
    if starts.len() == 0 && probes.len() == 0 {
        Round::Done(PipelineOutcome::NoProgress)
    } else {
        Round::Run { starts, probes }
    }
}

/// What all rounds come to, with `remaining` time left before the next one. There is another
/// round at first and after a restart, if there is time left.
pub open spec fn rounds_result(
    last: Option<PipelineOutcome>,
    remaining: Duration,
) -> Option<PipelineOutcome> {
    match last {
        Some(outcome) if outcome != PipelineOutcome::Restarted => Some(outcome),
        _ => if remaining.millis == 0 {
            Some(PipelineOutcome::NoProgress)
        } else {
            None
        },
    }
}

/// Decides after a round, or before the first one, what all rounds come to, or that there is
/// another one.
pub fn after_round(last: Option<PipelineOutcome>, remaining: Duration) -> (r: Option<
    PipelineOutcome,
>)
    ensures
        r == rounds_result(last, remaining),
{
    if let Some(outcome) = last {
        if outcome != PipelineOutcome::Restarted {
            return Some(outcome);
        }
    }
    if remaining.is_zero() {
        Some(PipelineOutcome::NoProgress)
    } else {
        None
    }
}

/// Whether a task can go ahead.
#[derive(Debug, Clone, Copy, PartialEq, Eq, Structural)]
pub enum Wait {
    /// All that it waits for is green.
    Ready,
    /// What it waits for has failed.
    Failed,
    /// Neither.
    Wait,
}

/// Whether a probe failed its own check.
pub open spec fn failed_at(s: ServicesModel, r: RefModel) -> bool {
    probe_at(s, r) matches Some(p) && p.state.probe_failed()
}

/// Whether a task that waits for some probes can go ahead.
pub open spec fn wait_of(s: ServicesModel, deps: Seq<RefModel>) -> Wait {
    if all_green_at(s, deps) {
        Wait::Ready
    } else if exists|i: int| 0 <= i < deps.len() && failed_at(s, #[trigger] deps[i]) {
        Wait::Failed
    } else {
        Wait::Wait
    }
}

/// Looks whether a task that waits for some probes can go ahead.
pub fn wait_for_deps_green(services: &Services, deps: &Vec<ProbeRef>) -> (r: Wait)
    requires
        services.wf(),
    ensures
        r == wait_of(services.deep_view(), deps.deep_view()),
{
    let ghost s = services.deep_view();
    let ghost all = deps.deep_view();
    if probes_all_green(services, deps) {
        return Wait::Ready;
    }
    let mut i: usize = 0;
    while i < deps.len()
        invariant
            services.wf(),
            s == services.deep_view(),
            all == deps.deep_view(),
            !all_green_at(s, all),
            i <= deps.len(),
            forall|j: int| 0 <= j < i ==> !failed_at(s, #[trigger] all[j]),
        decreases deps.len() - i,
    {
        assert(all[i as int] == deps[i as int].deep_view());
        if let Some(p) = crate::runtime::find_probe(services, &deps[i]) {
            if p.state.is_probe_failed() {
                assert(failed_at(s, all[i as int]));
                return Wait::Failed;
            }
        }
        i = i + 1;
    }
    Wait::Wait
}

/// The error of a service whose start waited in vain.
pub fn start_waited_in_vain(service: &str) -> (r: GantryError)
    ensures
        r.deep_view() == ErrorModel::Operation(
            "start_after deps not satisfied for "@ + service@,
        ),
{
    GantryError::Operation(cat("start_after deps not satisfied for ", service))
}

/// The outcome of a check that waited in vain.
pub fn probe_waited_in_vain(generation: u64) -> (r: ProbeOutcome)
    ensures
        r.deep_view() == (OutcomeModel {
            result: ResultModel::Failed {
                error: "probe deps not green in time"@,
                duration_ms: 0,
            },
            attempts: Seq::empty(),
            matched_lines: Seq::empty(),
            generation,
        }),
{
    let mut outcome = ProbeOutcome::immediate(
        ProbeResult::Failed {
            error: "probe deps not green in time".to_owned(),
            duration_ms: 0,
        },
    );
    outcome.generation = generation;
    outcome
}

/// A service whose container could not be started: all of its probes failed.
pub open spec fn start_failed(svc: ServiceModel, error: Str) -> ServiceModel {
    let state = StateModel::Red(RedModel::ProbeFailed { error, duration_ms: 0 });
    ServiceModel {
        probes: map_table(svc.probes, |k: Str, p: ProbeModel| ProbeModel { state, ..p }),
        ..svc
    }
}

fn fail_probes(svc: &mut ServiceRuntime, error: &str)
    requires
        old(svc).ok(),
    ensures
        final(svc).ok(),
        final(svc).deep_view() == start_failed(old(svc).deep_view(), error@),
{
    let ghost start = svc.deep_view();
    let ghost probes = start.probes;
    let ghost state = StateModel::Red(RedModel::ProbeFailed { error: error@, duration_ms: 0 });
    proof {
        svc.probes.lemma_valid();
    }
    let ghost f = |k: Str, p: ProbeModel| ProbeModel { state, ..p };
    let n: usize = svc.probes.len();
    let mut i: usize = 0;
    while i < n
        invariant
            svc.ok(),
            probes == start.probes,
            probes.valid(),
            state == StateModel::Red(RedModel::ProbeFailed { error: error@, duration_ms: 0 }),
            f == (|k: Str, p: ProbeModel| ProbeModel { state, ..p }),
            i <= n == probes.keys.len(),
            svc.deep_view() == (ServiceModel { probes: svc.deep_view().probes, ..start }),
            changed_up_to(probes, f, i as int, svc.deep_view().probes),
        decreases n - i,
    {
        proof {
            lemma_changed_next(probes, f, i as int, svc.deep_view().probes);
        }
        let p = svc.probes.value_mut(i);
        p.state =
        ProbeState::Red(
            RedReason::ProbeFailed(ProbeFailure { error: error.to_owned(), duration_ms: 0 }),
        );
        i = i + 1;
    }
    proof {
        lemma_changed_all(probes, f, svc.deep_view().probes);
    }
}

/// A table after all of some entries of another are put into it.
pub open spec fn put_all<T>(t: Table<T>, more: Table<T>, keys: Seq<Str>) -> Table<T>
    decreases keys.len(),
{
    if keys.len() == 0 {
        t
    } else {
        put_all(t, more, keys.drop_last()).put(keys.last(), more.at(keys.last()))
    }
}

fn merge_statuses(statuses: &mut OrderedMap<ProbeStatus>, more: &OrderedMap<ProbeStatus>)
    requires
        old(statuses).wf(),
        more.wf(),
    ensures
        final(statuses).wf(),
        final(statuses).deep_view() == put_all(
            old(statuses).deep_view(),
            more.deep_view(),
            more.deep_view().keys,
        ),
{
    let ghost start = statuses.deep_view();
    let ghost m = more.deep_view();
    let n: usize = more.len();
    let mut i: usize = 0;
    while i < n
        invariant
            statuses.wf(),
            more.wf(),
            m == more.deep_view(),
            i <= n == m.keys.len(),
            statuses.deep_view() == put_all(start, m, m.keys.take(i as int)),
        decreases n - i,
    {
        let ghost next = m.keys.take(i + 1);
        assert(next.drop_last() =~= m.keys.take(i as int));
        assert(next.last() == m.keys[i as int]);
        statuses.insert(more.name(i).clone(), more.value(i).copy());
        i = i + 1;
    }
    assert(m.keys.take(i as int) =~= m.keys);
}

/// What is next within a round.
pub struct Next {
    /// More checks that are to be sent out.
    pub probes: Vec<ProbeTask>,
    /// The container that is to be stopped.
    pub container: Option<String>,
    /// How the round ends, if it does.
    pub outcome: Option<PipelineOutcome>,
}

/// The model of a [`Next`].
#[verifier::ext_equal]
pub struct NextModel {
    pub probes: Seq<ProbeTaskModel>,
    pub container: Option<Str>,
    pub outcome: Option<PipelineOutcome>,
}

impl DeepView for Next {
    type V = NextModel;

    open spec fn deep_view(&self) -> NextModel {
        NextModel {
            probes: self.probes.deep_view(),
            container: self.container.deep_view(),
            outcome: self.outcome,
        }
    }
}

/// A round goes on until all that the target needs is green.
pub open spec fn go_on(
    s: ServicesModel,
    refs: Seq<RefModel>,
    probes: Seq<ProbeTaskModel>,
) -> NextModel {
    NextModel {
        probes,
        container: None,
        outcome: if all_green_at(s, refs) {
            Some(PipelineOutcome::AllGreen)
        } else {
            None
        },
    }
}

fn decide(state: &AppState, conv: &Convergence, probes: Vec<ProbeTask>) -> (r: Next)
    requires
        state.wf(),
    ensures
        r.deep_view() == go_on(
            state.deep_view().services,
            conv.deep_view().probes,
            probes.deep_view(),
        ),
{
    let outcome = if probes_all_green(&state.services, &conv.probes) {
        Some(PipelineOutcome::AllGreen)
    } else {
        None
    };
    Next { probes, container: None, outcome }
}

/// What is known after a service was started: its probes that are not green are checked.
pub open spec fn after_start(
    c: ConvergenceModel,
    name: Str,
    response: ResponseModel,
) -> ConvergenceModel {
    ConvergenceModel {
        statuses: put_all(c.statuses, response.probes, response.probes.keys),
        actions: ActionsModel { started: c.actions.started.push(name), ..c.actions },
        just_started: with_name(c.just_started, name),
        ..c
    }
}

/// What is known after a service could not be started.
pub open spec fn after_start_error(c: ConvergenceModel, name: Str, error: Str) -> ConvergenceModel {
    ConvergenceModel {
        actions: ActionsModel {
            start_errors: c.actions.start_errors.put(name, error),
            ..c.actions
        },
        ..c
    }
}

/// Takes in that a service was started in a round.
pub fn on_started(
    state: &AppState,
    conv: &mut Convergence,
    svc_name: &str,
    response: &OpResponse,
) -> (r: Next)
    requires
        state.wf(),
        old(conv).wf(),
        response.wf(),
        state.deep_view().services.has(svc_name@),
    ensures
        final(conv).wf(),
        final(conv).deep_view() == after_start(
            old(conv).deep_view(),
            svc_name@,
            response.deep_view(),
        ),
        ({
            let s = state.deep_view().services;
            let svc = s.at(svc_name@);
            r.deep_view() == go_on(
                s,
                old(conv).deep_view().probes,
                tasks_for(svc_name@, svc, svc.probes.keys),
            )
        }),
{
    merge_statuses(&mut conv.statuses, &response.probes);
    let ghost before = conv.actions.started.deep_view();
    conv.actions.started.push(svc_name.to_owned());
    assert(conv.actions.started.deep_view() =~= before.push(svc_name@));
    conv.just_started.insert(svc_name);
    let probes = list_tasks(svc_name, state.services.get(svc_name).unwrap());
    decide(state, conv, probes)
}

/// Takes in that a service could not be started in a round. Its probes fail, so that nothing
/// waits for them any longer.
pub fn on_start_error(
    state: &mut AppState,
    conv: &mut Convergence,
    svc_name: &str,
    error: &GantryError,
) -> (r: Next)
    requires
        old(state).wf(),
        old(conv).wf(),
    ensures
        final(state).wf(),
        final(conv).wf(),
        same_deps(old(state).deep_view().services, final(state).deep_view().services),
        ({
            let a = old(state).deep_view();
            let text = error.deep_view().text();
            let b = AppModel {
                services: if a.services.has(svc_name@) {
                    a.services.put(
                        svc_name@,
                        start_failed(a.services.at(svc_name@), text),
                    )
                } else {
                    a.services
                },
                ..a
            };
            &&& final(state).deep_view() == b
            &&& final(conv).deep_view() == after_start_error(
                old(conv).deep_view(),
                svc_name@,
                text,
            )
            &&& r.deep_view() == go_on(b.services, old(conv).deep_view().probes, Seq::empty())
        }),
{
    let ghost a = state.deep_view();
    let text = error.to_string();
    conv.actions.start_errors.insert(svc_name.to_owned(), text.clone());
    if let Some(i) = state.services.position(svc_name) {
        let svc = state.services.value_mut(i);
        fail_probes(svc, text.as_str());
    }
    proof {
        let b = state.deep_view();
        assert forall|r: RefModel|
            match (#[trigger] probe_at(a.services, r), probe_at(b.services, r)) {
                (None, None) => true,
                (Some(p), Some(q)) => p.depends_on == q.depends_on,
                _ => false,
            } by {}
    }
    let probes: Vec<ProbeTask> = Vec::new();
    assert(probes.deep_view() =~= Seq::<ProbeTaskModel>::empty());
    decide(state, conv, probes)
}

/// Whether a service is restarted after the check of one of its probes. It happens at most
/// once, and not to a service that was started in this round.
pub open spec fn restarts(
    s: ServicesModel,
    c: ConvergenceModel,
    name: Str,
    o: OutcomeModel,
) -> bool {
    &&& o.result is Failed
    &&& c.allow_restart
    &&& !c.restarted.contains(name)
    &&& !c.just_started.contains(name)
    &&& s.has(name)
    &&& s.at(name).restart_on_fail
    &&& s.at(name).state is Running
    &&& any_probe_red(s.at(name))
}

/// The state and the progress after the outcome of a check is applied.
pub open spec fn outcome_applied(
    a: AppModel,
    statuses: Table<StatusModel>,
    r: RefModel,
    o: OutcomeModel,
) -> (AppModel, Table<StatusModel>) {
    let step = apply_outcome(a.graph.probes, a.services, a.report(statuses), r, o);
    let at = update_service(
        Progress { services: step.services, report: step.report },
        r.service,
    );
    (after_show(a.with_progress(at)), at.report.statuses)
}

/// The state, the progress and what is next after a check in a round.
pub open spec fn probed(a: AppModel, c: ConvergenceModel, r: RefModel, o: OutcomeModel) -> (
    AppModel,
    ConvergenceModel,
    NextModel,
) {
    let (b, statuses) = outcome_applied(a, c.statuses, r, o);
    let d = ConvergenceModel { statuses, ..c };
    let name = r.service;
    if restarts(b.services, c, name, o) {
        let (e, _) = stopped(
            told(b, EventModel::OpStart { op: "restart"@, target_or_service: name }),
            name,
        );
        (
            after_tell(e, seq![name]),
            ConvergenceModel {
                actions: ActionsModel {
                    restarted: c.actions.restarted.push(name),
                    ..c.actions
                },
                restarted: with_name(c.restarted, name),
                ..d
            },
            NextModel {
                probes: Seq::empty(),
                container: Some(b.services.at(name).container),
                outcome: Some(PipelineOutcome::Restarted),
            },
        )
    } else {
        (b, d, go_on(b.services, c.probes, Seq::empty()))
    }
}

fn apply_in_round(
    state: &mut AppState,
    probe_ref: &ProbeRef,
    outcome: &ProbeOutcome,
    statuses: &mut OrderedMap<ProbeStatus>,
)
    requires
        old(state).wf(),
        old(statuses).wf(),
        acyclic(old(state).deep_view().services),
        probe_at(old(state).deep_view().services, probe_ref.deep_view()) is Some,
    ensures
        final(state).wf(),
        final(statuses).wf(),
        same_deps(old(state).deep_view().services, final(state).deep_view().services),
        (final(state).deep_view(), final(statuses).deep_view()) == outcome_applied(
            old(state).deep_view(),
            old(statuses).deep_view(),
            probe_ref.deep_view(),
            outcome.deep_view(),
        ),
        final(state).deep_view().services.has(probe_ref.service@),
        final(state).deep_view().services.at(probe_ref.service@).generation == old(
            state,
        ).deep_view().services.at(probe_ref.service@).generation,
{
    let ghost a = state.deep_view();
    let ghost r = probe_ref.deep_view();
    let ghost name = r.service;
    let ghost report = a.report(statuses.deep_view());
    apply_probe_result(state, probe_ref, outcome, statuses);
    let ghost b = state.deep_view();
    proof {
        lemma_apply_same_deps(a.graph.probes, a.services, report, r, outcome.deep_view());
        law_apply_changes_probes(a.graph.probes, a.services, report, r, outcome.deep_view());
        lemma_same_deps(a.services, b.services);
        assert(a.services.has(name) == b.services.has(name));
        assert(only_probes_differ(a.services.at(name), b.services.at(name)));
    }
    let svc = state.services.get(probe_ref.service.as_str()).unwrap();
    let ghost at = b.progress(statuses.deep_view());
    proof {
        svc.probes.lemma_valid();
        law_meta_changes_probes(at, name);
    }
    update_meta_probes(state, probe_ref.service.as_str(), statuses);
    let ghost c = state.deep_view();
    proof {
        assert(b.services.has(name) == c.services.has(name));
        assert(only_probes_differ(b.services.at(name), c.services.at(name)));
        state.services.lemma_valid();
        law_show_keeps(c.services, c.targets, name);
        lemma_same_deps_trans(a.services, b.services, c.services);
    }
    show(state);
    proof {
        lemma_same_deps_trans(a.services, c.services, state.deep_view().services);
    }
}

/// Takes in the outcome of a check in a round. Where it failed, its service may be restarted:
/// it is stopped, and the round ends.
pub fn on_probed(
    state: &mut AppState,
    conv: &mut Convergence,
    probe_ref: &ProbeRef,
    outcome: &ProbeOutcome,
) -> (r: Next)
    requires
        old(state).wf(),
        old(conv).wf(),
        acyclic(old(state).deep_view().services),
        probe_at(old(state).deep_view().services, probe_ref.deep_view()) is Some,
        old(state).deep_view().services.at(probe_ref.service@).generation < u64::MAX,
    ensures
        final(state).wf(),
        final(conv).wf(),
        same_deps(old(state).deep_view().services, final(state).deep_view().services),
        (final(state).deep_view(), final(conv).deep_view(), r.deep_view()) == probed(
            old(state).deep_view(),
            old(conv).deep_view(),
            probe_ref.deep_view(),
            outcome.deep_view(),
        ),
{
    let ghost a = state.deep_view();
    let ghost c = conv.deep_view();
    apply_in_round(state, probe_ref, outcome, &mut conv.statuses);
    let ghost b = state.deep_view();
    let name = probe_ref.service.as_str();
    let probes: Vec<ProbeTask> = Vec::new();
    assert(probes.deep_view() =~= Seq::<ProbeTaskModel>::empty());
    let may_restart = !outcome.result.is_ok() && conv.allow_restart && !conv.restarted.contains(
        name,
    ) && !conv.just_started.contains(name);
    if may_restart && should_restart(state.services.get(name).unwrap()) {
        state.emit(Event::op_start("restart", name));
        if let Ok(stopping) = stop(state, name) {
            proof {
                lemma_same_deps_trans(a.services, b.services, state.deep_view().services);
            }
            let ghost before = conv.actions.restarted.deep_view();
            conv.actions.restarted.push(name.to_owned());
            assert(conv.actions.restarted.deep_view() =~= before.push(name@));
            conv.restarted.insert(name);
            return Next {
                probes,
                container: stopping.container,
                outcome: Some(PipelineOutcome::Restarted),
            };
        }
    }
    decide(state, conv, probes)
}

fn should_restart(svc: &ServiceRuntime) -> (r: bool)
    requires
        svc.ok(),
    ensures
        ({
            let m = svc.deep_view();
            r == (m.restart_on_fail && m.state is Running && any_probe_red(m))
        }),
{
    svc.restart_on_fail && svc.state == ServiceState::Running && service_any_red(svc)
}

/// Whether a service has a probe that failed and is not restarted for it.
pub open spec fn beyond_help(svc: ServiceModel, allow_restart: bool) -> bool {
    (!allow_restart || !svc.restart_on_fail) && svc.state is Running && any_probe_failed(svc)
}

/// How a round ends in which all tasks have ended.
pub open spec fn round_result(s: ServicesModel, c: ConvergenceModel) -> PipelineOutcome {
    if c.actions.start_errors.keys.len() > 0 || exists|i: int|
        0 <= i < c.services.len() && beyond_help(s.at(#[trigger] c.services[i]), c.allow_restart) {
        PipelineOutcome::TerminalFailure
    } else {
        PipelineOutcome::NoProgress
    }
}

/// Ends a round in which all tasks have ended.
pub fn end_round(state: &AppState, conv: &Convergence) -> (r: PipelineOutcome)
    requires
        state.wf(),
        conv.wf(),
        all_known(state.deep_view().services, conv.deep_view().services),
    ensures
        r == round_result(state.deep_view().services, conv.deep_view()),
{
    let ghost s = state.deep_view().services;
    let ghost names = conv.deep_view().services;
    if conv.actions.start_errors.len() > 0 {
        return PipelineOutcome::TerminalFailure;
    }
    let mut i: usize = 0;
    while i < conv.services.len()
        invariant
            state.wf(),
            s == state.deep_view().services,
            names == conv.services.deep_view(),
            all_known(s, names),
            i <= conv.services.len(),
            forall|j: int|
                0 <= j < i ==> !beyond_help(s.at(#[trigger] names[j]), conv.allow_restart),
        decreases conv.services.len() - i,
    {
        assert(names[i as int] == conv.services[i as int]@);
        assert(s.has(names[i as int]));
        if let Some(svc) = state.services.get(conv.services[i].as_str()) {
            if (!conv.allow_restart || !svc.restart_on_fail) && svc.state == ServiceState::Running
                && service_any_failed(svc) {
                assert(beyond_help(
                    s.at(conv.deep_view().services[i as int]),
                    conv.deep_view().allow_restart,
                ));
                return PipelineOutcome::TerminalFailure;
            }
        }
        i = i + 1;
    }
    PipelineOutcome::NoProgress
}

/// Whether a service that a target needs is not fully green.
pub open spec fn lags(s: ServicesModel, name: Str) -> bool {
    s.has(name) && (!all_probes_green(s.at(name)) || !(s.at(name).state is Running))
}

/// Those of some services that are not fully green.
pub open spec fn lagging(s: ServicesModel, names: Seq<Str>) -> Seq<Str>
    decreases names.len(),
{
    if names.len() == 0 {
        Seq::empty()
    } else if lags(s, names.last()) {
        lagging(s, names.drop_last()).push(names.last())
    } else {
        lagging(s, names.drop_last())
    }
}

fn list_lagging(services: &Services, names: &NameSet) -> (r: Vec<String>)
    requires
        services.wf(),
        names.wf(),
    ensures
        r.deep_view() == lagging(services.deep_view(), names.deep_view()),
{
    let ghost s = services.deep_view();
    let ghost all = names.deep_view();
    let mut out: Vec<String> = Vec::new();
    let n: usize = names.len();
    let mut i: usize = 0;
    assert(out.deep_view() =~= Seq::<Str>::empty());
    while i < n
        invariant
            services.wf(),
            names.wf(),
            s == services.deep_view(),
            all == names.deep_view(),
            i <= n == all.len(),
            out.deep_view() == lagging(s, all.take(i as int)),
        decreases n - i,
    {
        let ghost next = all.take(i + 1);
        assert(next.drop_last() =~= all.take(i as int));
        assert(next.last() == all[i as int]);
        let name = names.name(i);
        let lags = match services.get(name.as_str()) {
            Some(svc) => !service_all_green(svc) || svc.state != ServiceState::Running,
            None => false,
        };
        if lags {
            let ghost before = out.deep_view();
            out.push(name.clone());
            assert(out.deep_view() =~= before.push(name@));
        }
        i = i + 1;
    }
    assert(all.take(i as int) =~= all);
    out
}

/// Why a target was not brought to green. `None` stands for the end of the time.
pub open spec fn failure_reason(outcome: Option<PipelineOutcome>) -> Str {
    match outcome {
        None => "timeout"@,
        Some(PipelineOutcome::TerminalFailure) => "restart_on_fail=false service has red probes"@,
        Some(PipelineOutcome::NoProgress) => "no progress possible"@,
        Some(_) => "target not ready"@,
    }
}

/// What is told of a target that was not brought to green.
pub open spec fn failure_text(outcome: Option<PipelineOutcome>, start_errors: Table<Str>) -> Str {
    let reason = failure_reason(outcome);
    if start_errors.keys.len() == 0 {
        reason
    } else {
        reason + "; failed to start: "@ + joined(start_errors.keys, ", "@)
    }
}

fn tell_failure(outcome: Option<PipelineOutcome>, start_errors: &OrderedMap<String>) -> (r: String)
    requires
        start_errors.wf(),
    ensures
        r@ == failure_text(outcome, start_errors.deep_view()),
{
    let reason = match outcome {
        None => "timeout",
        Some(PipelineOutcome::TerminalFailure) => "restart_on_fail=false service has red probes",
        Some(PipelineOutcome::NoProgress) => "no progress possible",
        Some(_) => "target not ready",
    };
    if start_errors.len() == 0 {
        reason.to_owned()
    } else {
        cat3(reason, "; failed to start: ", join(&start_errors.names(), ", ").as_str())
    }
}

/// Whether a target is green in the answer.
pub open spec fn told_green(targets: Table<TargetStatusModel>, name: Str) -> bool {
    targets.has(name) && targets.at(name).state == "green"@
}

/// The state and the answer at the end.
pub open spec fn converge_ended(
    a: AppModel,
    c: ConvergenceModel,
    outcome: Option<PipelineOutcome>,
    duration_ms: u64,
) -> (AppModel, ResponseModel) {
    let b = after_show(a);
    let affected = services_of(c.probes);
    let targets = told_statuses(b, affected);
    let green = told_green(targets, c.target);
    let result = if green {
        "ok"@
    } else {
        "failed"@
    };
    let e = told(
        after_tell(b, affected),
        EventModel::OpComplete {
            op: "converge"@,
            target_or_service: c.target,
            result,
            duration_ms,
        },
    );
    (
        e,
        ResponseModel {
            result,
            duration_ms,
            error: if green {
                None
            } else {
                Some(failure_text(outcome, c.actions.start_errors))
            },
            not_green: if green {
                Seq::empty()
            } else {
                lagging(e.services, distinct_services(c.probes))
            },
            actions: c.actions,
            probes: c.statuses,
            targets,
        },
    )
}

/// Ends the operation, after the last round or when no time is left.
pub fn converge_done(
    state: &mut AppState,
    conv: Convergence,
    outcome: Option<PipelineOutcome>,
    duration_ms: u64,
) -> (r: OpResponse)
    requires
        old(state).wf(),
        conv.wf(),
    ensures
        final(state).wf(),
        r.wf(),
        same_deps(old(state).deep_view().services, final(state).deep_view().services),
        (final(state).deep_view(), r.deep_view()) == converge_ended(
            old(state).deep_view(),
            conv.deep_view(),
            outcome,
            duration_ms,
        ),
{
    show(state);
    let affected = list_services(&conv.probes);
    let targets = emit_target_states(state, &affected);
    let green = match targets.get(conv.target.as_str()) {
        Some(t) => text_eq(t.state.as_str(), "green"),
        None => false,
    };
    let result = if green {
        "ok"
    } else {
        "failed"
    };
    state.emit(Event::op_complete("converge", conv.target.as_str(), result, duration_ms));
    let (error, not_green) = if green {
        let none: Vec<String> = Vec::new();
        assert(none.deep_view() =~= Seq::<Str>::empty());
        (None, none)
    } else {
        let names = list_distinct_services(&conv.probes);
        (
            Some(tell_failure(outcome, &conv.actions.start_errors)),
            list_lagging(&state.services, &names),
        )
    };
    OpResponse {
        result: result.to_owned(),
        duration_ms,
        error,
        not_green,
        actions: conv.actions,
        probes: conv.statuses,
        targets,
    }
}

} // verus!
