//! Checks that are sent out together, and their outcomes as they come in.
use crate::app_state::{AppModel, AppState};
use crate::apply::{apply_outcome, apply_probe_result, Step};
use crate::batch::{
    batch_known, known, lemma_apply_same_deps, lemma_batch_same, lemma_same_deps_refl,
    lemma_same_deps_trans, resolve_batch, resolve_probe_batch, update_affected,
    update_affected_probes, Progress,
};
use crate::config::{ProbeConfig, ProbeConfigModel};
use crate::emit::after_show;
use crate::graph::Layer;
use crate::model::{ProbeRef, RefModel, ServiceState};
use crate::names::{with_name, NameSet};
use crate::ops::{ProbeStatus, StatusModel};
use crate::ordered_map::{Item, OrderedMap, Table};
use crate::probe::{OutcomeModel, ProbeOutcome};
use crate::probe_meta::{acyclic, lemma_same_deps, same_deps};
use crate::runtime::{
    all_green_at, find_probe, probe_at, probes_all_green, ServiceRuntime, Services, ServicesModel,
};
use crate::text::Str;
use vstd::prelude::*;

verus! {

/// A probe that awaits its check, with all that the check needs.
pub struct PendingProbe {
    pub probe_ref: ProbeRef,
    pub service_name: String,
    pub container: String,
    pub config: ProbeConfig,
    pub log_since: i64,
    pub generation: u64,
}

/// The model of a [`PendingProbe`].
#[verifier::ext_equal]
pub struct PendingProbeModel {
    pub probe_ref: RefModel,
    pub service_name: Str,
    pub container: Str,
    pub config: ProbeConfigModel,
    pub log_since: i64,
    pub generation: u64,
}

impl DeepView for PendingProbe {
    type V = PendingProbeModel;

    open spec fn deep_view(&self) -> PendingProbeModel {
        PendingProbeModel {
            probe_ref: self.probe_ref.deep_view(),
            service_name: self.service_name@,
            container: self.container@,
            config: self.config.deep_view(),
            log_since: self.log_since,
            generation: self.generation,
        }
    }
}

/// Whether a reference names a probe that awaits a check of its own.
pub open spec fn awaits_check(s: ServicesModel, r: RefModel) -> bool {
    probe_at(s, r) matches Some(p) && p.state is Pending && !(p.probe_config is Meta)
}

/// What the check of a probe needs.
pub open spec fn to_check(s: ServicesModel, r: RefModel) -> PendingProbeModel {
    let svc = s.at(r.service);
    PendingProbeModel {
        probe_ref: r,
        service_name: svc.name,
        container: svc.container,
        config: svc.probes.at(r.probe).probe_config,
        log_since: svc.log_since,
        generation: svc.generation,
    }
}

/// Those of some probes that await a check, in their order.
pub open spec fn pending_among(s: ServicesModel, refs: Seq<RefModel>) -> Seq<PendingProbeModel>
    decreases refs.len(),
{
    if refs.len() == 0 {
        Seq::empty()
    } else if awaits_check(s, refs.last()) {
        pending_among(s, refs.drop_last()).push(to_check(s, refs.last()))
    } else {
        pending_among(s, refs.drop_last())
    }
}

/// The references to some probes of a service.
pub open spec fn refs_in(svc: Str, probes: Seq<Str>) -> Seq<RefModel> {
    Seq::new(probes.len(), |i: int| RefModel { service: svc, probe: probes[i] })
}

/// The references to all probes of those of some services that run.
pub open spec fn running_refs(s: ServicesModel, keys: Seq<Str>) -> Seq<RefModel>
    decreases keys.len(),
{
    if keys.len() == 0 {
        Seq::empty()
    } else {
        let so_far = running_refs(s, keys.drop_last());
        let k = keys.last();
        if s.at(k).state is Running {
            so_far + refs_in(k, s.at(k).probes.keys)
        } else {
            so_far
        }
    }
}

/// Lists the references to all probes of the services that run.
pub fn list_running_refs(services: &Services) -> (r: Vec<ProbeRef>)
    requires
        services.wf(),
    ensures
        r.deep_view() == running_refs(services.deep_view(), services.deep_view().keys),
{
    let ghost s = services.deep_view();
    let mut out: Vec<ProbeRef> = Vec::new();
    let n: usize = services.len();
    let mut i: usize = 0;
    assert(out.deep_view() =~= Seq::<RefModel>::empty());
    while i < n
        invariant
            services.wf(),
            s == services.deep_view(),
            i <= n == s.keys.len(),
            out.deep_view() == running_refs(s, s.keys.take(i as int)),
        decreases n - i,
    {
        let ghost next = s.keys.take(i + 1);
        assert(next.drop_last() =~= s.keys.take(i as int));
        assert(next.last() == s.keys[i as int]);
        let svc = services.value(i);
        if svc.state == ServiceState::Running {
            let mut refs = list_service_refs(services.name(i).as_str(), svc);
            let ghost before = out.deep_view();
            let ghost more = refs.deep_view();
            out.append(&mut refs);
            assert(out.deep_view() =~= before + more);
        }
        i = i + 1;
    }
    assert(s.keys.take(i as int) =~= s.keys);
    out
}

/// Lists the references to the probes of a service.
pub fn list_service_refs(name: &str, svc: &ServiceRuntime) -> (r: Vec<ProbeRef>)
    requires
        svc.ok(),
    ensures
        r.deep_view() == refs_in(name@, svc.deep_view().probes.keys),
{
    let ghost keys = svc.probes.deep_view().keys;
    let mut out: Vec<ProbeRef> = Vec::new();
    let n: usize = svc.probes.len();
    let mut i: usize = 0;
    while i < n
        invariant
            svc.ok(),
            keys == svc.probes.deep_view().keys,
            i <= n == keys.len(),
            out.len() == i,
            forall|j: int|
                0 <= j < i ==> (#[trigger] out@[j]).deep_view() == (RefModel {
                    service: name@,
                    probe: keys[j],
                }),
        decreases n - i,
    {
        out.push(ProbeRef::new(name, svc.probes.name(i).as_str()));
        i = i + 1;
    }
    assert(out.deep_view() =~= refs_in(name@, keys));
    out
}

/// Lists the probes that await a check of their own: among those of a scope, or among all
/// probes of services that run.
pub fn collect_pending_probes(services: &Services, scope: Option<&Vec<ProbeRef>>) -> (r: Vec<
    PendingProbe,
>)
    requires
        services.wf(),
    ensures
        r.deep_view() == pending_among(
            services.deep_view(),
            match scope {
                Some(refs) => refs.deep_view(),
                None => running_refs(services.deep_view(), services.deep_view().keys),
            },
        ),
{
    match scope {
        Some(refs) => list_pending(services, refs),
        None => {
            let refs = list_running_refs(services);
            list_pending(services, &refs)
        },
    }
}

fn list_pending(services: &Services, refs: &Vec<ProbeRef>) -> (r: Vec<PendingProbe>)
    requires
        services.wf(),
    ensures
        r.deep_view() == pending_among(services.deep_view(), refs.deep_view()),
{
    let ghost s = services.deep_view();
    let ghost all = refs.deep_view();
    let mut out: Vec<PendingProbe> = Vec::new();
    let mut i: usize = 0;
    assert(out.deep_view() =~= Seq::<PendingProbeModel>::empty());
    while i < refs.len()
        invariant
            services.wf(),
            s == services.deep_view(),
            all == refs.deep_view(),
            i <= refs.len(),
            out.deep_view() == pending_among(s, all.take(i as int)),
        decreases refs.len() - i,
    {
        let ghost next = all.take(i + 1);
        let ghost before = out.deep_view();
        let pr = &refs[i];
        assert(next.drop_last() =~= all.take(i as int));
        assert(next.last() == pr.deep_view());
        if let Some(svc) = services.get(pr.service.as_str()) {
            if let Some(p) = svc.probes.get(pr.probe.as_str()) {
                if p.state.is_pending() && !p.is_meta() {
                    let pending = PendingProbe {
                        probe_ref: pr.clone(),
                        service_name: svc.name.clone(),
                        container: svc.container.clone(),
                        config: p.probe_config.clone(),
                        log_since: svc.log_since,
                        generation: svc.generation,
                    };
                    let ghost m = pending.deep_view();
                    out.push(pending);
                    assert(out.deep_view() =~= before.push(m));
                }
            }
        }
        i = i + 1;
    }
    assert(all.take(i as int) =~= all);
    out
}

/// Outcomes that wait for the dependencies of their probes, in the order in which they came.
pub type Held = Vec<(ProbeRef, ProbeOutcome)>;

/// The model of [`Held`].
pub type HeldModel = Seq<(RefModel, OutcomeModel)>;

/// The outcomes that wait, after one more is held back. One for the same probe is replaced.
pub open spec fn hold(held: HeldModel, r: RefModel, o: OutcomeModel) -> HeldModel
    decreases held.len(),
{
    if held.len() == 0 {
        seq![(r, o)]
    } else if held[0].0 == r {
        held.update(0, (r, o))
    } else {
        seq![held[0]] + hold(held.drop_first(), r, o)
    }
}

/// Whether all that a probe depends on is green.
pub open spec fn deps_green(s: ServicesModel, r: RefModel) -> bool {
    probe_at(s, r) matches Some(p) && all_green_at(s, p.depends_on)
}

/// The step after the outcome of a check is applied, with its service among the affected.
pub open spec fn apply_held(g: Layer, st: Step, r: RefModel, o: OutcomeModel) -> Step {
    let step = apply_outcome(g, st.services, st.report, r, o);
    Step {
        services: step.services,
        report: step.report,
        affected: with_name(st.affected, r.service),
    }
}

/// The step and the outcomes that still wait, after those from position `i` on whose probes
/// have green dependencies were applied in turn.
pub open spec fn release_from(g: Layer, st: Step, held: HeldModel, i: nat) -> (Step, HeldModel)
    decreases held.len() - i,
{
    if i >= held.len() {
        (st, held)
    } else {
        let (r, o) = held[i as int];
        if deps_green(st.services, r) {
            release_from(g, apply_held(g, st, r, o), held.remove(i as int), i)
        } else {
            release_from(g, st, held, i + 1)
        }
    }
}

pub proof fn lemma_release_len(g: Layer, st: Step, held: HeldModel, i: nat)
    ensures
        release_from(g, st, held, i).1.len() <= held.len(),
    decreases held.len() - i,
{
    if i < held.len() {
        let (r, o) = held[i as int];
        if deps_green(st.services, r) {
            lemma_release_len(g, apply_held(g, st, r, o), held.remove(i as int), i);
        } else {
            lemma_release_len(g, st, held, i + 1);
        }
    }
}

/// The step and the outcomes that still wait, once no more can be applied.
pub open spec fn release_all(g: Layer, st: Step, held: HeldModel) -> (Step, HeldModel)
    decreases held.len(),
{
    let (next, left) = release_from(g, st, held, 0);
    if left.len() < held.len() {
        release_all(g, next, left)
    } else {
        (next, left)
    }
}

/// What follows when the outcome of a check comes in: one that failed, or whose probe has
/// green dependencies, is applied, with all that waited for it; the others are held back.
pub open spec fn take_outcome(
    g: Layer,
    at: Progress,
    held: HeldModel,
    r: RefModel,
    o: OutcomeModel,
) -> (Progress, HeldModel) {
    if o.result is Passed && !deps_green(at.services, r) {
        (at, hold(held, r, o))
    } else {
        let first = apply_outcome(g, at.services, at.report, r, o);
        let (next, left) = release_all(
            g,
            Step { services: first.services, report: first.report, affected: seq![r.service] },
            held,
        );
        let done = update_affected(next);
        (Progress { services: done.services, report: done.report }, left)
    }
}

fn deps_are_green(services: &Services, r: &ProbeRef) -> (b: bool)
    requires
        services.wf(),
    ensures
        b == deps_green(services.deep_view(), r.deep_view()),
{
    match find_probe(services, r) {
        Some(p) => probes_all_green(services, &p.depends_on),
        None => false,
    }
}

proof fn lemma_hold(held: HeldModel, i: int, r: RefModel, o: OutcomeModel)
    requires
        0 <= i <= held.len(),
        forall|j: int| 0 <= j < i ==> (#[trigger] held[j]).0 != r,
        i < held.len() ==> held[i].0 == r,
    ensures
        hold(held, r, o) == (if i < held.len() {
            held.update(i, (r, o))
        } else {
            held.push((r, o))
        }),
    decreases held.len(),
{
    if held.len() == 0 {
        assert(held.push((r, o)) =~= seq![(r, o)]);
    } else if i > 0 {
        let rest = held.drop_first();
        assert forall|j: int| 0 <= j < i - 1 implies (#[trigger] rest[j]).0 != r by {
            assert(rest[j] == held[j + 1]);
        }
        assert(held[0].0 != r);
        lemma_hold(rest, i - 1, r, o);
        let want = if i < held.len() {
            held.update(i, (r, o))
        } else {
            held.push((r, o))
        };
        assert(seq![held[0]] + hold(rest, r, o) =~= want);
    }
}

fn hold_back(held: &mut Held, probe_ref: ProbeRef, outcome: ProbeOutcome)
    ensures
        final(held).deep_view() == hold(
            old(held).deep_view(),
            probe_ref.deep_view(),
            outcome.deep_view(),
        ),
        forall|s: ServicesModel|
            batch_known(s, old(held).deep_view()) && known(s, probe_ref.deep_view()) ==>
            #[trigger] batch_known(s, final(held).deep_view()),
{
    let ghost before = held.deep_view();
    let ghost r = probe_ref.deep_view();
    let ghost o = outcome.deep_view();
    let mut i: usize = 0;
    while i < held.len() && !held[i].0.same(&probe_ref)
        invariant
            before == held.deep_view(),
            r == probe_ref.deep_view(),
            i <= held.len(),
            forall|j: int| 0 <= j < i ==> (#[trigger] before[j]).0 != r,
        decreases held.len() - i,
    {
        assert(before[i as int].0 == held[i as int].0.deep_view());
        i = i + 1;
    }
    proof {
        if i < held.len() {
            assert(before[i as int].0 == held[i as int].0.deep_view());
        }
        lemma_hold(before, i as int, r, o);
    }
    if i < held.len() {
        held[i] = (probe_ref, outcome);
        assert(held.deep_view() =~= before.update(i as int, (r, o)));
    } else {
        held.push((probe_ref, outcome));
        assert(held.deep_view() =~= before.push((r, o)));
    }
    assert forall|s: ServicesModel|
        batch_known(s, before) && known(s, r) implies #[trigger] batch_known(
        s,
        held.deep_view(),
    ) by {
        assert forall|j: int| 0 <= j < held.deep_view().len() implies known(
            s,
            (#[trigger] held.deep_view()[j]).0,
        ) by {
            if j < before.len() && j != i {
                assert(known(s, before[j].0));
            }
        }
    }
}

/// Whether a part of the state is all that may have changed.
pub open spec fn only_progress(a: AppModel, b: AppModel) -> bool {
    b == (AppModel { services: b.services, events: b.events, ..a })
}

/// Applies those of the outcomes that wait whose probes have green dependencies, in turn.
fn release_once(
    state: &mut AppState,
    held: &mut Held,
    probe_statuses: &mut OrderedMap<ProbeStatus>,
    affected: &mut NameSet,
)
    requires
        old(state).wf(),
        old(probe_statuses).wf(),
        old(affected).wf(),
        acyclic(old(state).deep_view().services),
        batch_known(old(state).deep_view().services, old(held).deep_view()),
    ensures
        final(state).wf(),
        final(probe_statuses).wf(),
        final(affected).wf(),
        only_progress(old(state).deep_view(), final(state).deep_view()),
        same_deps(old(state).deep_view().services, final(state).deep_view().services),
        acyclic(final(state).deep_view().services),
        batch_known(final(state).deep_view().services, final(held).deep_view()),
        (
            final(state).deep_view().step(
                final(probe_statuses).deep_view(),
                final(affected).deep_view(),
            ),
            final(held).deep_view(),
        ) == release_from(
            old(state).deep_view().graph.probes,
            old(state).deep_view().step(
                old(probe_statuses).deep_view(),
                old(affected).deep_view(),
            ),
            old(held).deep_view(),
            0,
        ),
{
    let ghost a = state.deep_view();
    let ghost g = a.graph.probes;
    let ghost goal = release_from(
        g,
        a.step(probe_statuses.deep_view(), affected.deep_view()),
        held.deep_view(),
        0,
    );
    proof {
        lemma_same_deps_refl(a.services);
    }
    let mut i: usize = 0;
    while i < held.len()
        invariant
            state.wf(),
            probe_statuses.wf(),
            affected.wf(),
            g == a.graph.probes,
            i <= held.len(),
            only_progress(a, state.deep_view()),
            same_deps(a.services, state.deep_view().services),
            acyclic(state.deep_view().services),
            batch_known(state.deep_view().services, held.deep_view()),
            goal == release_from(
                g,
                state.deep_view().step(probe_statuses.deep_view(), affected.deep_view()),
                held.deep_view(),
                i as nat,
            ),
        decreases held.len() - i,
    {
        let ghost mid = state.deep_view();
        let ghost list = held.deep_view();
        let ghost statuses = probe_statuses.deep_view();
        assert(held.deep_view().len() == held.len());
        assert(known(mid.services, list[i as int].0));
        assert(list[i as int] == (held[i as int].0.deep_view(), held[i as int].1.deep_view()));
        if deps_are_green(&state.services, &held[i].0) {
            let (probe_ref, outcome) = held.remove(i);
            assert(held.deep_view() =~= list.remove(i as int));
            apply_probe_result(state, &probe_ref, &outcome, probe_statuses);
            affected.insert(probe_ref.service.as_str());
            proof {
                let now = state.deep_view();
                lemma_apply_same_deps(
                    g,
                    mid.services,
                    mid.report(statuses),
                    probe_ref.deep_view(),
                    outcome.deep_view(),
                );
                lemma_step_same(mid.services, now.services, a.services, list);
                assert forall|j: int| 0 <= j < held.deep_view().len() implies known(
                    now.services,
                    (#[trigger] held.deep_view()[j]).0,
                ) by {
                    let k = if j < i {
                        j
                    } else {
                        j + 1
                    };
                    assert(held.deep_view()[j] == list[k]);
                    assert(known(now.services, list[k].0));
                }
            }
        } else {
            i = i + 1;
        }
    }
}

proof fn lemma_step_same(s: ServicesModel, t: ServicesModel, a: ServicesModel, list: HeldModel)
    requires
        same_deps(a, s),
        same_deps(s, t),
        acyclic(s),
        batch_known(s, list),
    ensures
        same_deps(a, t),
        acyclic(t),
        batch_known(t, list),
{
    lemma_same_deps_trans(a, s, t);
    lemma_same_deps(s, t);
    lemma_batch_same(s, t, list);
}

/// Once no more can be applied, each outcome that still waits is for a probe with a
/// dependency that is not green.
pub proof fn law_released(g: Layer, st: Step, held: HeldModel, i: int)
    requires
        0 <= i < release_all(g, st, held).1.len(),
    ensures
        !deps_green(release_all(g, st, held).0.services, release_all(g, st, held).1[i].0),
    decreases held.len(),
{
    let (next, left) = release_from(g, st, held, 0);
    lemma_release_len(g, st, held, 0);
    if left.len() < held.len() {
        law_released(g, next, left, i);
    } else {
        lemma_none_released(g, st, held, 0, i);
    }
}

proof fn lemma_none_released(g: Layer, st: Step, held: HeldModel, from: nat, i: int)
    requires
        release_from(g, st, held, from).1.len() == held.len(),
    ensures
        release_from(g, st, held, from) == (st, held),
        from <= i < held.len() ==> !deps_green(st.services, held[i].0),
    decreases held.len() - from,
{
    if from < held.len() {
        let (r, o) = held[from as int];
        if deps_green(st.services, r) {
            lemma_release_len(g, apply_held(g, st, r, o), held.remove(from as int), from);
        } else {
            lemma_none_released(g, st, held, from + 1, i);
        }
    }
}

/// Applies outcomes that wait until no more can be applied.
fn release_held(
    state: &mut AppState,
    held: &mut Held,
    probe_statuses: &mut OrderedMap<ProbeStatus>,
    affected: &mut NameSet,
)
    requires
        old(state).wf(),
        old(probe_statuses).wf(),
        old(affected).wf(),
        acyclic(old(state).deep_view().services),
        batch_known(old(state).deep_view().services, old(held).deep_view()),
    ensures
        final(state).wf(),
        final(probe_statuses).wf(),
        final(affected).wf(),
        only_progress(old(state).deep_view(), final(state).deep_view()),
        same_deps(old(state).deep_view().services, final(state).deep_view().services),
        acyclic(final(state).deep_view().services),
        batch_known(final(state).deep_view().services, final(held).deep_view()),
        (
            final(state).deep_view().step(
                final(probe_statuses).deep_view(),
                final(affected).deep_view(),
            ),
            final(held).deep_view(),
        ) == release_all(
            old(state).deep_view().graph.probes,
            old(state).deep_view().step(
                old(probe_statuses).deep_view(),
                old(affected).deep_view(),
            ),
            old(held).deep_view(),
        ),
    decreases old(held).len(),
{
    let ghost a = state.deep_view();
    let before: usize = held.len();
    assert(held.deep_view().len() == before);
    release_once(state, held, probe_statuses, affected);
    let ghost mid = state.deep_view();
    assert(held.deep_view().len() == held.len());
    if held.len() < before {
        release_held(state, held, probe_statuses, affected);
        proof {
            lemma_same_deps_trans(a.services, mid.services, state.deep_view().services);
        }
    }
}

/// Whether an outcome is held back: the check passed, and not all that the probe depends on is
/// green.
pub fn must_wait(services: &Services, probe_ref: &ProbeRef, outcome: &ProbeOutcome) -> (b: bool)
    requires
        services.wf(),
    ensures
        b == (outcome.deep_view().result is Passed && !deps_green(
            services.deep_view(),
            probe_ref.deep_view(),
        )),
{
    outcome.result.is_ok() && !deps_are_green(services, probe_ref)
}

/// Takes in the outcome of a check.
pub fn resolve_outcome(
    state: &mut AppState,
    held: &mut Held,
    probe_ref: ProbeRef,
    outcome: ProbeOutcome,
    probe_statuses: &mut OrderedMap<ProbeStatus>,
)
    requires
        old(state).wf(),
        old(probe_statuses).wf(),
        acyclic(old(state).deep_view().services),
        probe_at(old(state).deep_view().services, probe_ref.deep_view()) is Some,
        outcome.deep_view().result is Passed && !deps_green(
            old(state).deep_view().services,
            probe_ref.deep_view(),
        ) ==> known(old(state).deep_view().services, probe_ref.deep_view()),
        batch_known(old(state).deep_view().services, old(held).deep_view()),
    ensures
        final(state).wf(),
        final(probe_statuses).wf(),
        same_deps(old(state).deep_view().services, final(state).deep_view().services),
        acyclic(final(state).deep_view().services),
        batch_known(final(state).deep_view().services, final(held).deep_view()),
        ({
            let a = old(state).deep_view();
            let (at, left) = take_outcome(
                a.graph.probes,
                a.progress(old(probe_statuses).deep_view()),
                old(held).deep_view(),
                probe_ref.deep_view(),
                outcome.deep_view(),
            );
            &&& final(state).deep_view() == a.with_progress(at)
            &&& final(probe_statuses).deep_view() == at.report.statuses
            &&& final(held).deep_view() == left
        }),
{
    let ghost a = state.deep_view();
    let ghost g = a.graph.probes;
    let ghost list = held.deep_view();
    let ghost statuses = probe_statuses.deep_view();
    let ghost r = probe_ref.deep_view();
    let ghost o = outcome.deep_view();
    if must_wait(&state.services, &probe_ref, &outcome) {
        hold_back(held, probe_ref, outcome);
        proof {
            lemma_same_deps_refl(a.services);
        }
        return ;
    }
    apply_probe_result(state, &probe_ref, &outcome, probe_statuses);
    let ghost b = state.deep_view();
    proof {
        lemma_apply_same_deps(g, a.services, a.report(statuses), r, o);
        lemma_same_deps_refl(a.services);
        lemma_step_same(a.services, b.services, a.services, list);
    }
    let mut affected = NameSet::new();
    affected.insert(probe_ref.service.as_str());
    assert(affected.deep_view() =~= seq![r.service]);
    release_held(state, held, probe_statuses, &mut affected);
    let ghost c = state.deep_view();
    let ghost left = held.deep_view();
    update_affected_probes(state, probe_statuses, &affected);
    proof {
        lemma_same_deps_trans(a.services, b.services, c.services);
        lemma_same_deps_trans(a.services, c.services, state.deep_view().services);
        lemma_batch_same(c.services, state.deep_view().services, left);
    }
}

/// The state and the statuses after the outcomes that still wait are applied as a batch.
pub open spec fn apply_rest(a: AppModel, statuses: Table<StatusModel>, held: HeldModel) -> (
    AppModel,
    Table<StatusModel>,
) {
    if held.len() == 0 {
        (a, statuses)
    } else {
        let step = resolve_batch(
            a.graph.probes,
            held,
            a.graph.probe_topo_order,
            a.step(statuses, Seq::empty()),
        );
        (after_show(a.after(step)), step.report.statuses)
    }
}

/// Applies the outcomes that still wait when all have come in.
pub fn resolve_rest(
    state: &mut AppState,
    held: &Held,
    probe_statuses: &mut OrderedMap<ProbeStatus>,
)
    requires
        old(state).wf(),
        old(probe_statuses).wf(),
        acyclic(old(state).deep_view().services),
        batch_known(old(state).deep_view().services, held.deep_view()),
    ensures
        final(state).wf(),
        final(probe_statuses).wf(),
        same_deps(old(state).deep_view().services, final(state).deep_view().services),
        (final(state).deep_view(), final(probe_statuses).deep_view()) == apply_rest(
            old(state).deep_view(),
            old(probe_statuses).deep_view(),
            held.deep_view(),
        ),
{
    assert(held.deep_view().len() == held.len());
    proof {
        lemma_same_deps_refl(state.deep_view().services);
    }
    if held.len() > 0 {
        resolve_probe_batch(state, held, probe_statuses);
    }
}

/// What follows when outcomes come in one after the other.
pub open spec fn take_outcomes(
    g: Layer,
    at: Progress,
    outcomes: Seq<(RefModel, OutcomeModel)>,
) -> (Progress, HeldModel)
    decreases outcomes.len(),
{
    if outcomes.len() == 0 {
        (at, Seq::empty())
    } else {
        let (before, held) = take_outcomes(g, at, outcomes.drop_last());
        let (r, o) = outcomes.last();
        take_outcome(g, before, held, r, o)
    }
}

/// The state and the statuses after checks that were sent out together have come in.
pub open spec fn resolved(
    a: AppModel,
    statuses: Table<StatusModel>,
    outcomes: Seq<(RefModel, OutcomeModel)>,
) -> (AppModel, Table<StatusModel>) {
    let (at, held) = take_outcomes(a.graph.probes, a.progress(statuses), outcomes);
    apply_rest(a.with_progress(at), at.report.statuses, held)
}

/// Whether each outcome is of a probe that there is.
pub open spec fn all_exist(s: ServicesModel, outcomes: Seq<(RefModel, OutcomeModel)>) -> bool {
    forall|i: int| 0 <= i < outcomes.len() ==> probe_at(s, (#[trigger] outcomes[i]).0) is Some
}

/// Whether each outcome that is held back, when its turn comes, is of a service without a dot
/// in its name, so that its probe is read back from its key.
pub open spec fn held_named(
    g: Layer,
    at: Progress,
    outcomes: Seq<(RefModel, OutcomeModel)>,
) -> bool {
    forall|i: int|
        0 <= i < outcomes.len() && (#[trigger] outcomes[i]).1.result is Passed && !deps_green(
            take_outcomes(g, at, outcomes.take(i)).0.services,
            outcomes[i].0,
        ) ==> !outcomes[i].0.service.contains('.')
}

/// Takes in the outcomes of checks that were sent out together, in the order in which they
/// came in.
pub fn probe_and_resolve(
    state: &mut AppState,
    outcomes: Vec<(ProbeRef, ProbeOutcome)>,
    probe_statuses: &mut OrderedMap<ProbeStatus>,
)
    requires
        old(state).wf(),
        old(probe_statuses).wf(),
        acyclic(old(state).deep_view().services),
        all_exist(old(state).deep_view().services, outcomes.deep_view()),
        held_named(
            old(state).deep_view().graph.probes,
            old(state).deep_view().progress(old(probe_statuses).deep_view()),
            outcomes.deep_view(),
        ),
    ensures
        final(state).wf(),
        final(probe_statuses).wf(),
        same_deps(old(state).deep_view().services, final(state).deep_view().services),
        (final(state).deep_view(), final(probe_statuses).deep_view()) == resolved(
            old(state).deep_view(),
            old(probe_statuses).deep_view(),
            outcomes.deep_view(),
        ),
{
    let ghost a = state.deep_view();
    let ghost g = a.graph.probes;
    let ghost start = a.progress(probe_statuses.deep_view());
    let ghost all = outcomes.deep_view();
    let mut held: Held = Vec::new();
    proof {
        lemma_same_deps_refl(a.services);
        assert(held.deep_view() =~= Seq::empty());
    }
    let mut rest = outcomes;
    let ghost mut i: int = 0;
    while rest.len() > 0
        invariant
            state.wf(),
            probe_statuses.wf(),
            g == a.graph.probes,
            start == a.progress(start.report.statuses),
            0 <= i <= all.len(),
            rest.deep_view() == all.skip(i),
            all_exist(a.services, all),
            held_named(g, start, all),
            same_deps(a.services, state.deep_view().services),
            acyclic(state.deep_view().services),
            batch_known(state.deep_view().services, held.deep_view()),
            ({
                let (at, left) = take_outcomes(g, start, all.take(i));
                &&& state.deep_view() == a.with_progress(at)
                &&& probe_statuses.deep_view() == at.report.statuses
                &&& held.deep_view() == left
            }),
        decreases rest.len(),
    {
        let ghost mid = state.deep_view();
        let ghost next = all.take(i + 1);
        let ghost list = rest.deep_view();
        assert(list.len() == rest.len());
        let (probe_ref, outcome) = rest.remove(0);
        proof {
            assert(next.drop_last() =~= all.take(i));
            assert(list[0] == all[i]);
            assert(next.last() == all[i]);
            assert(list[0] == (probe_ref.deep_view(), outcome.deep_view()));
            assert(probe_at(a.services, all[i].0) is Some);
            assert(rest.deep_view() =~= list.remove(0));
            assert(list.remove(0) =~= all.skip(i + 1));
            assert(mid.progress(probe_statuses.deep_view()) == take_outcomes(
                g,
                start,
                all.take(i),
            ).0);
        }
        resolve_outcome(state, &mut held, probe_ref, outcome, probe_statuses);
        proof {
            lemma_same_deps_trans(a.services, mid.services, state.deep_view().services);
            i = i + 1;
        }
    }
    assert(rest.deep_view().len() == rest.len());
    assert(all.take(i) =~= all);
    let ghost last = state.deep_view();
    resolve_rest(state, &held, probe_statuses);
    proof {
        lemma_same_deps_trans(a.services, last.services, state.deep_view().services);
    }
}

} // verus!
