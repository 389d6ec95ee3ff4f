//! How services, probes and targets are shown to callers.
use crate::app_state::AppState;
use crate::display::{
    active_services, compute_svc_reason, compute_target_reasons, is_active, probe_display,
    svc_display, svc_reason, target_reasons,
};
use crate::model::{ref_text_list, ref_texts, ServiceState};
use crate::ordered_map::{
    lemma_mapped_all, lemma_mapped_next, map_table, mapped_up_to, Item, OrderedMap, Table,
};
use crate::runtime::{
    ProbeDisplayState, ProbeModel, ProbeRuntime, ServiceModel, ServiceRuntime, Services,
    ServicesModel, SvcDisplayState, TargetModel, TargetRuntime, Targets, TargetsModel,
};
use crate::targets::state_of;
use crate::text::{copy_list, join, joined, Str};
use vstd::prelude::*;

verus! {

/// A probe as it is shown.
pub struct ProbeView {
    pub state: &'static str,
    pub probe_type: String,
    pub reason: Option<String>,
    pub depends_on: Vec<String>,
}

/// The model of a [`ProbeView`].
#[verifier::ext_equal]
pub struct ProbeViewModel {
    pub state: Str,
    pub probe_type: Str,
    pub reason: Option<Str>,
    pub depends_on: Seq<Str>,
}

impl DeepView for ProbeView {
    type V = ProbeViewModel;

    open spec fn deep_view(&self) -> ProbeViewModel {
        ProbeViewModel {
            state: self.state@,
            probe_type: self.probe_type@,
            reason: self.reason.deep_view(),
            depends_on: self.depends_on.deep_view(),
        }
    }
}

impl Item for ProbeView {
    open spec fn ok(&self) -> bool {
        true
    }
}

/// A service as it is shown.
pub struct SvcView {
    pub state: &'static str,
    pub runtime: &'static str,
    pub reason: Option<String>,
    pub container: String,
    pub restart_on_fail: bool,
    pub start_after: Vec<String>,
    pub probes: OrderedMap<ProbeView>,
}

/// The model of a [`SvcView`].
#[verifier::ext_equal]
pub struct SvcViewModel {
    pub state: Str,
    pub runtime: Str,
    pub reason: Option<Str>,
    pub container: Str,
    pub restart_on_fail: bool,
    pub start_after: Seq<Str>,
    pub probes: Table<ProbeViewModel>,
}

impl DeepView for SvcView {
    type V = SvcViewModel;

    open spec fn deep_view(&self) -> SvcViewModel {
        SvcViewModel {
            state: self.state@,
            runtime: self.runtime@,
            reason: self.reason.deep_view(),
            container: self.container@,
            restart_on_fail: self.restart_on_fail,
            start_after: self.start_after.deep_view(),
            probes: self.probes.deep_view(),
        }
    }
}

impl Item for SvcView {
    open spec fn ok(&self) -> bool {
        self.probes.wf()
    }
}

/// A target as it is shown.
pub struct TgtView {
    pub state: &'static str,
    pub reason: Option<String>,
    pub probes: Vec<String>,
    pub direct_probes: Vec<String>,
    pub depends_on: Vec<String>,
}

/// The model of a [`TgtView`].
#[verifier::ext_equal]
pub struct TgtViewModel {
    pub state: Str,
    pub reason: Option<Str>,
    pub probes: Seq<Str>,
    pub direct_probes: Seq<Str>,
    pub depends_on: Seq<Str>,
}

impl DeepView for TgtView {
    type V = TgtViewModel;

    open spec fn deep_view(&self) -> TgtViewModel {
        TgtViewModel {
            state: self.state@,
            reason: self.reason.deep_view(),
            probes: self.probes.deep_view(),
            direct_probes: self.direct_probes.deep_view(),
            depends_on: self.depends_on.deep_view(),
        }
    }
}

impl Item for TgtView {
    open spec fn ok(&self) -> bool {
        true
    }
}

/// How a probe of a service is shown.
pub open spec fn probe_view(p: ProbeModel, svc: ServiceState) -> ProbeViewModel {
    ProbeViewModel {
        state: probe_display(p.state, svc).text(),
        probe_type: p.probe_config.display(),
        reason: p.state.reason(),
        depends_on: ref_texts(p.depends_on),
    }
}

/// How a service is shown.
pub open spec fn svc_view(svc: ServiceModel, active: bool) -> SvcViewModel {
    let display = svc_display(svc, active);
    SvcViewModel {
        state: display.text(),
        runtime: svc.state.text(),
        reason: svc_reason(display, svc),
        container: svc.container,
        restart_on_fail: svc.restart_on_fail,
        start_after: ref_texts(svc.start_after),
        probes: map_table(svc.probes, |k: Str, p: ProbeModel| probe_view(p, svc.state)),
    }
}

/// How a target is shown. The reasons lead back to what failed first.
pub open spec fn tgt_view(s: ServicesModel, ts: TargetsModel, t: TargetModel) -> TgtViewModel {
    let state = state_of(s, ts, t);
    let reasons = target_reasons(state, s);
    TgtViewModel {
        state: state.text(),
        reason: if reasons.len() == 0 {
            None
        } else {
            Some(joined(reasons, ", "@))
        },
        probes: ref_texts(t.transitive_probes),
        direct_probes: ref_texts(t.direct_probes),
        depends_on: t.depends_on_targets,
    }
}

/// How the services are shown.
pub open spec fn svc_views(s: ServicesModel, ts: TargetsModel) -> Table<SvcViewModel> {
    map_table(s, |k: Str, svc: ServiceModel| svc_view(svc, is_active(s, ts, k)))
}

/// How the targets are shown.
pub open spec fn tgt_views(s: ServicesModel, ts: TargetsModel) -> Table<TgtViewModel> {
    map_table(ts, |k: Str, t: TargetModel| tgt_view(s, ts, t))
}

fn show_probe(p: &ProbeRuntime, svc: ServiceState) -> (r: ProbeView)
    ensures
        r.deep_view() == probe_view(p.deep_view(), svc),
{
    ProbeView {
        state: ProbeDisplayState::from_probe(p, svc).as_str(),
        probe_type: p.probe_config.display_type(),
        reason: p.state.reason(),
        depends_on: ref_text_list(&p.depends_on),
    }
}

fn show_service(svc: &ServiceRuntime, active: bool) -> (r: SvcView)
    requires
        svc.ok(),
    ensures
        r.ok(),
        r.deep_view() == svc_view(svc.deep_view(), active),
{
    let ghost m = svc.deep_view();
    let ghost of_probe = |k: Str, p: ProbeModel| probe_view(p, m.state);
    let display = SvcDisplayState::from_service_active(svc, active);
    let mut probes: OrderedMap<ProbeView> = OrderedMap::new();
    let n: usize = svc.probes.len();
    let mut i: usize = 0;
    assert(m.probes.keys.take(0) =~= Seq::<Str>::empty());
    while i < n
        invariant
            svc.ok(),
            m == svc.deep_view(),
            m.probes.valid(),
            of_probe == (|k: Str, p: ProbeModel| probe_view(p, m.state)),
            probes.wf(),
            i <= n == m.probes.keys.len(),
            mapped_up_to(m.probes, of_probe, i as int, probes.deep_view()),
        decreases n - i,
    {
        let view = show_probe(svc.probes.value(i), svc.state);
        proof {
            lemma_mapped_next(m.probes, of_probe, i as int, probes.deep_view());
        }
        probes.insert(svc.probes.name(i).clone(), view);
        i = i + 1;
    }
    proof {
        lemma_mapped_all(m.probes, of_probe, probes.deep_view());
    }
    SvcView {
        state: display.as_str(),
        runtime: svc.state.as_str(),
        reason: compute_svc_reason(display, svc),
        container: svc.container.clone(),
        restart_on_fail: svc.restart_on_fail,
        start_after: ref_text_list(&svc.start_after),
        probes,
    }
}

fn show_target(services: &Services, targets: &Targets, t: &TargetRuntime) -> (r: TgtView)
    requires
        services.wf(),
        targets.wf(),
    ensures
        r.deep_view() == tgt_view(services.deep_view(), targets.deep_view(), t.deep_view()),
{
    let state = t.state(services, targets);
    let reasons = compute_target_reasons(&state, services);
    assert(reasons.deep_view().len() == reasons.len());
    let reason = if reasons.len() == 0 {
        None
    } else {
        Some(join(&reasons, ", "))
    };
    let depends_on = copy_list(&t.depends_on_targets);
    assert(depends_on.deep_view() =~= t.depends_on_targets.deep_view());
    TgtView {
        state: state.as_str(),
        reason,
        probes: ref_text_list(&t.transitive_probes),
        direct_probes: ref_text_list(&t.direct_probes),
        depends_on,
    }
}

/// How all services and all targets are shown.
pub fn compute_display(state: &AppState) -> (r: (OrderedMap<SvcView>, OrderedMap<TgtView>))
    requires
        state.wf(),
    ensures
        r.0.wf(),
        r.1.wf(),
        r.0.deep_view() == svc_views(state.deep_view().services, state.deep_view().targets),
        r.1.deep_view() == tgt_views(state.deep_view().services, state.deep_view().targets),
{
    let ghost s = state.deep_view().services;
    let ghost ts = state.deep_view().targets;
    let ghost of_service = |k: Str, svc: ServiceModel| svc_view(svc, is_active(s, ts, k));
    let ghost of_target = |k: Str, t: TargetModel| tgt_view(s, ts, t);
    let active = active_services(&state.services, &state.targets);
    let mut svcs: OrderedMap<SvcView> = OrderedMap::new();
    let n: usize = state.services.len();
    let mut i: usize = 0;
    assert(s.keys.take(0) =~= Seq::<Str>::empty());
    while i < n
        invariant
            state.wf(),
            s == state.deep_view().services,
            s.valid(),
            of_service == (|k: Str, svc: ServiceModel| svc_view(svc, is_active(s, ts, k))),
            active.wf(),
            forall|x: Str| #[trigger] active.deep_view().contains(x) <==> is_active(s, ts, x),
            svcs.wf(),
            i <= n == s.keys.len(),
            mapped_up_to(s, of_service, i as int, svcs.deep_view()),
        decreases n - i,
    {
        let name = state.services.name(i);
        let view = show_service(state.services.value(i), active.contains(name.as_str()));
        proof {
            lemma_mapped_next(s, of_service, i as int, svcs.deep_view());
        }
        svcs.insert(name.clone(), view);
        i = i + 1;
    }
    proof {
        lemma_mapped_all(s, of_service, svcs.deep_view());
    }
    let mut tgts: OrderedMap<TgtView> = OrderedMap::new();
    let m: usize = state.targets.len();
    let mut i: usize = 0;
    assert(ts.keys.take(0) =~= Seq::<Str>::empty());
    while i < m
        invariant
            state.wf(),
            s == state.deep_view().services,
            ts == state.deep_view().targets,
            ts.valid(),
            of_target == (|k: Str, t: TargetModel| tgt_view(s, ts, t)),
            tgts.wf(),
            i <= m == ts.keys.len(),
            mapped_up_to(ts, of_target, i as int, tgts.deep_view()),
        decreases m - i,
    {
        let view = show_target(&state.services, &state.targets, state.targets.value(i));
        proof {
            lemma_mapped_next(ts, of_target, i as int, tgts.deep_view());
        }
        tgts.insert(state.targets.name(i).clone(), view);
        i = i + 1;
    }
    proof {
        lemma_mapped_all(ts, of_target, tgts.deep_view());
    }
    (svcs, tgts)
}

} // verus!
