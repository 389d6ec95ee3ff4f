//! How services and targets that have changed are reported.
use crate::app_state::{AppModel, AppState};
use crate::display::{
    active_services, compute_svc_detail, compute_svc_reason, compute_target_reasons, is_active,
    svc_detail, svc_display, svc_reason, target_reasons,
};
use crate::events::{Event, EventModel};
use crate::model::{ProbeRef, RefModel, ServiceState};
use crate::ops::{TargetStatus, TargetStatusModel};
use crate::ordered_map::{OrderedMap, Table};
use crate::runtime::{
    ServiceModel, Services, ServicesModel, SvcDisplayState, TargetModel, TargetState,
    TargetStateModel, Targets, TargetsModel,
};
use crate::targets::state_of;
use crate::text::{cat3, decimal, decimal_text, list_contains, text_eq, Str};
use vstd::prelude::*;

verus! {

/// Whether a service is not shown as it was last.
pub open spec fn shown_anew(svc: ServiceModel, active: bool) -> bool {
    svc.last_emitted_display != Some(svc_display(svc, active)) || svc.last_emitted_runtime != Some(
        svc.state,
    )
}

/// A service once it is known how it was shown.
pub open spec fn shown(svc: ServiceModel, active: bool) -> ServiceModel {
    if shown_anew(svc, active) {
        ServiceModel {
            last_emitted_display: Some(svc_display(svc, active)),
            last_emitted_runtime: Some(svc.state),
            ..svc
        }
    } else {
        svc
    }
}

/// The event for a service that is shown anew.
pub open spec fn shown_event(name: Str, svc: ServiceModel, active: bool) -> EventModel {
    let d = svc_display(svc, active);
    EventModel::ServiceState {
        service: name,
        state: svc.state,
        display_state: d.text(),
        reason: svc_reason(d, svc),
        svc_detail: svc_detail(d, svc),
    }
}

/// The services after some of them are shown.
pub open spec fn show_services(s: ServicesModel, ts: TargetsModel, keys: Seq<Str>) -> ServicesModel
    decreases keys.len(),
{
    if keys.len() == 0 {
        s
    } else {
        let k = keys.last();
        show_services(s, ts, keys.drop_last()).put(k, shown(s.at(k), is_active(s, ts, k)))
    }
}

/// The events for those of some services that are shown anew.
pub open spec fn show_events(s: ServicesModel, ts: TargetsModel, keys: Seq<Str>) -> Seq<EventModel>
    decreases keys.len(),
{
    if keys.len() == 0 {
        Seq::empty()
    } else {
        let so_far = show_events(s, ts, keys.drop_last());
        let k = keys.last();
        let active = is_active(s, ts, k);
        if shown_anew(s.at(k), active) {
            so_far.push(shown_event(k, s.at(k), active))
        } else {
            so_far
        }
    }
}

proof fn lemma_show_services(s: ServicesModel, ts: TargetsModel, keys: Seq<Str>)
    requires
        s.valid(),
        forall|i: int| 0 <= i < keys.len() ==> s.has(#[trigger] keys[i]),
    ensures
        show_services(s, ts, keys).keys == s.keys,
        forall|k: Str| #[trigger] show_services(s, ts, keys).has(k) == s.has(k),
        forall|k: Str|
            !keys.contains(k) ==> #[trigger] show_services(s, ts, keys).at(k) == s.at(k),
    decreases keys.len(),
{
    if keys.len() > 0 {
        let front = keys.drop_last();
        let last = keys.last();
        lemma_show_services(s, ts, front);
        let a = show_services(s, ts, front);
        let b = show_services(s, ts, keys);
        assert(s.has(keys[keys.len() - 1]));
        assert(a.has(last) == s.has(last));
        assert forall|k: Str| #[trigger] b.has(k) == s.has(k) by {
            assert(a.has(k) == s.has(k));
        }
        assert forall|k: Str| !keys.contains(k) implies #[trigger] b.at(k) == s.at(k) by {
            assert(keys[keys.len() - 1] == last);
            if front.contains(k) {
                let i = choose|i: int| 0 <= i < front.len() && front[i] == k;
                assert(keys[i] == k);
            }
            assert(a.at(k) == s.at(k));
        }
    }
}

/// The state after all services are shown.
pub open spec fn after_show(a: AppModel) -> AppModel {
    AppModel {
        services: show_services(a.services, a.targets, a.services.keys),
        events: a.events + show_events(a.services, a.targets, a.services.keys),
        ..a
    }
}

/// Reports the services that are not shown as they were last.
pub fn emit_svc_display_states(state: &mut AppState)
    requires
        old(state).wf(),
    ensures
        final(state).wf(),
        final(state).deep_view() == after_show(old(state).deep_view()),
{
    let ghost a = state.deep_view();
    let ghost s = a.services;
    let ghost ts = a.targets;
    let active = active_services(&state.services, &state.targets);
    let n: usize = state.services.len();
    let mut i: usize = 0;
    assert(a.events + Seq::<EventModel>::empty() =~= a.events);
    while i < n
        invariant
            state.wf(),
            s == a.services,
            ts == a.targets,
            s.valid(),
            active.wf(),
            forall|x: Str| #[trigger] active.deep_view().contains(x) <==> is_active(s, ts, x),
            i <= n == s.keys.len(),
            state.deep_view() == (AppModel {
                services: show_services(s, ts, s.keys.take(i as int)),
                events: a.events + show_events(s, ts, s.keys.take(i as int)),
                ..a
            }),
        decreases n - i,
    {
        let ghost before = s.keys.take(i as int);
        let ghost next = s.keys.take(i + 1);
        let ghost key = s.keys[i as int];
        proof {
            assert(next.drop_last() =~= before);
            assert forall|j: int| 0 <= j < before.len() implies s.has(#[trigger] before[j]) by {
                assert(s.keys.contains(s.keys[j]));
            }
            lemma_show_services(s, ts, before);
            assert(!before.contains(key)) by {
                if before.contains(key) {
                    let j = choose|j: int| 0 <= j < i && before[j] == key;
                    assert(s.keys[j] == s.keys[i as int]);
                }
            }
            assert(s.keys.contains(key));
        }
        let ghost mid = state.services.deep_view();
        assert(mid.at(key) == s.at(key));
        let name = state.services.name(i).clone();
        let is_needed = active.contains(name.as_str());
        let ghost needed = is_needed;
        let svc = state.services.value_mut(i);
        let display = SvcDisplayState::from_service_active(svc, is_needed);
        let display_changed = match svc.last_emitted_display {
            Some(d) => d != display,
            None => true,
        };
        let runtime_changed = match svc.last_emitted_runtime {
            Some(d) => d != svc.state,
            None => true,
        };
        if display_changed || runtime_changed {
            svc.last_emitted_display = Some(display);
            svc.last_emitted_runtime = Some(svc.state);
            let reason = compute_svc_reason(display, svc);
            let detail = compute_svc_detail(display, svc);
            proof {
                lemma_reason_same(display, svc.deep_view(), s.at(key));
            }
            let svc_state = svc.state;
            let ghost sent = state.events.deep_view();
            let e = Event::service_state(
                name.as_str(),
                svc_state,
                display.as_str(),
                reason,
                detail,
            );
            let ghost m = e.deep_view();
            state.events.push(e);
            assert(state.events.deep_view() =~= sent.push(m));
            assert(m == shown_event(key, s.at(key), needed));
        }
        proof {
            let now = state.services.deep_view();
            assert(mid.has(key) == s.has(key));
            if !shown_anew(s.at(key), needed) {
                assert(mid.put(key, mid.at(key)).map =~= mid.map);
            }
            assert(now =~= show_services(s, ts, next));
            assert(state.events.deep_view() =~= a.events + show_events(s, ts, next));
        }
        i = i + 1;
    }
    assert(s.keys.take(i as int) =~= s.keys);
}

/// Why a service is not green does not depend on how it was last shown.
proof fn lemma_reason_same(display: SvcDisplayState, a: ServiceModel, b: ServiceModel)
    requires
        a.probes == b.probes,
        a.state == b.state,
    ensures
        svc_reason(display, a) == svc_reason(display, b),
        svc_detail(display, a) == svc_detail(display, b),
{
}

/// Whether one of some probes belongs to one of some services. No services stand for all.
pub open spec fn probes_affected(probes: Seq<RefModel>, affected: Seq<Str>) -> bool {
    affected.len() == 0 || exists|i: int|
        0 <= i < probes.len() && affected.contains((#[trigger] probes[i]).service)
}

/// Whether a target needs a probe of one of some services. No services stand for all.
pub open spec fn target_affected(t: TargetModel, affected: Seq<Str>) -> bool {
    probes_affected(t.transitive_probes, affected)
}

fn is_affected(probes: &Vec<ProbeRef>, affected: &Vec<String>) -> (r: bool)
    ensures
        r == probes_affected(probes.deep_view(), affected.deep_view()),
{
    assert(affected.deep_view().len() == affected.len());
    if affected.len() == 0 {
        return true;
    }
    let mut i: usize = 0;
    while i < probes.len()
        invariant
            i <= probes.len(),
            forall|j: int|
                0 <= j < i ==> !affected.deep_view().contains(
                    (#[trigger] probes.deep_view()[j]).service,
                ),
        decreases probes.len() - i,
    {
        if list_contains(affected, probes[i].service.as_str()) {
            assert(affected.deep_view().contains(probes.deep_view()[i as int].service));
            return true;
        }
        i = i + 1;
    }
    false
}

/// The reason of a target that is shown first, and the list that more than one make.
pub open spec fn told_reasons(reasons: Seq<Str>) -> (Option<Str>, Seq<Str>) {
    if reasons.len() == 0 {
        (None, Seq::empty())
    } else if reasons.len() == 1 {
        (Some(reasons[0]), Seq::empty())
    } else {
        (
            Some(reasons[0] + " (+"@ + decimal((reasons.len() - 1) as nat) + " more)"@),
            reasons,
        )
    }
}

/// Whether a target is in another state than was last reported.
pub open spec fn target_changed(t: TargetModel, now: TargetStateModel) -> bool {
    match t.last_emitted_state {
        Some(prev) => prev.text() != now.text(),
        None => true,
    }
}

/// A target once its state is reported.
pub open spec fn told_target(t: TargetModel, now: TargetStateModel) -> TargetModel {
    if target_changed(t, now) {
        TargetModel { last_emitted_state: Some(now), ..t }
    } else {
        t
    }
}

/// A target in the answer of an operation.
pub open spec fn target_status(t: TargetModel, now: TargetStateModel) -> TargetStatusModel {
    TargetStatusModel {
        state: now.text(),
        prev: match t.last_emitted_state {
            Some(prev) => prev.text(),
            None => now.text(),
        },
    }
}

/// The event for a target that is in another state.
pub open spec fn target_event(s: ServicesModel, name: Str, now: TargetStateModel) -> EventModel {
    let told = told_reasons(target_reasons(now, s));
    EventModel::TargetState {
        target: name,
        state: now,
        duration_ms: None,
        reason_override: told.0,
        extra_reasons: told.1,
    }
}

/// What is told of targets.
#[verifier::ext_equal]
pub struct Told {
    pub targets: TargetsModel,
    pub events: Seq<EventModel>,
    pub statuses: Table<TargetStatusModel>,
}

/// What is told of those of some targets that services affect.
pub open spec fn tell_targets(
    s: ServicesModel,
    ts: TargetsModel,
    affected: Seq<Str>,
    keys: Seq<Str>,
) -> Told
    decreases keys.len(),
{
    if keys.len() == 0 {
        Told { targets: ts, events: Seq::empty(), statuses: Table::empty() }
    } else {
        let so_far = tell_targets(s, ts, affected, keys.drop_last());
        let k = keys.last();
        let t = ts.at(k);
        let now = state_of(s, ts, t);
        if target_affected(t, affected) {
            Told {
                targets: so_far.targets.put(k, told_target(t, now)),
                events: if target_changed(t, now) {
                    so_far.events.push(target_event(s, k, now))
                } else {
                    so_far.events
                },
                statuses: so_far.statuses.put(k, target_status(t, now)),
            }
        } else {
            so_far
        }
    }
}

proof fn lemma_tell_targets(
    s: ServicesModel,
    ts: TargetsModel,
    affected: Seq<Str>,
    keys: Seq<Str>,
)
    requires
        ts.valid(),
        forall|i: int| 0 <= i < keys.len() ==> ts.has(#[trigger] keys[i]),
    ensures
        tell_targets(s, ts, affected, keys).targets.keys == ts.keys,
        forall|k: Str| #[trigger]
            tell_targets(s, ts, affected, keys).targets.has(k) == ts.has(k),
        forall|k: Str|
            !keys.contains(k) ==> #[trigger] tell_targets(s, ts, affected, keys).targets.at(k)
                == ts.at(k),
    decreases keys.len(),
{
    if keys.len() > 0 {
        let front = keys.drop_last();
        let last = keys.last();
        lemma_tell_targets(s, ts, affected, front);
        let a = tell_targets(s, ts, affected, front).targets;
        let b = tell_targets(s, ts, affected, keys).targets;
        assert(ts.has(keys[keys.len() - 1]));
        assert(a.has(last) == ts.has(last));
        assert forall|k: Str| #[trigger] b.has(k) == ts.has(k) by {
            assert(a.has(k) == ts.has(k));
        }
        assert forall|k: Str| !keys.contains(k) implies #[trigger] b.at(k) == ts.at(k) by {
            assert(keys[keys.len() - 1] == last);
            if front.contains(k) {
                let i = choose|i: int| 0 <= i < front.len() && front[i] == k;
                assert(keys[i] == k);
            }
            assert(a.at(k) == ts.at(k));
        }
    }
}

/// The states of all targets, in their order.
fn all_target_states(services: &Services, targets: &Targets) -> (r: Vec<TargetState>)
    requires
        services.wf(),
        targets.wf(),
    ensures
        ({
            let ts = targets.deep_view();
            r.deep_view() == Seq::new(
                ts.keys.len(),
                |i: int| state_of(services.deep_view(), ts, ts.at(ts.keys[i])),
            )
        }),
{
    let ghost s = services.deep_view();
    let ghost ts = targets.deep_view();
    let mut out: Vec<TargetState> = Vec::new();
    let n: usize = targets.len();
    let mut i: usize = 0;
    while i < n
        invariant
            services.wf(),
            targets.wf(),
            s == services.deep_view(),
            ts == targets.deep_view(),
            i <= n == ts.keys.len(),
            out.len() == i,
            forall|j: int|
                0 <= j < i ==> (#[trigger] out@[j]).deep_view() == state_of(
                    s,
                    ts,
                    ts.at(ts.keys[j]),
                ),
        decreases n - i,
    {
        out.push(targets.value(i).state(services, targets));
        i = i + 1;
    }
    assert(out.deep_view() =~= Seq::new(
        ts.keys.len(),
        |i: int| state_of(s, ts, ts.at(ts.keys[i])),
    ));
    out
}

fn tell_reasons(reasons: Vec<String>) -> (r: (Option<String>, Vec<String>))
    ensures
        (r.0.deep_view(), r.1.deep_view()) == told_reasons(reasons.deep_view()),
{
    assert(reasons.deep_view().len() == reasons.len());
    if reasons.len() <= 1 {
        let first = if reasons.len() == 1 {
            Some(reasons[0].clone())
        } else {
            None
        };
        let rest: Vec<String> = Vec::new();
        assert(rest.deep_view() =~= Seq::<Str>::empty());
        (first, rest)
    } else {
        let line = cat3(
            reasons[0].as_str(),
            " (+",
            decimal_text((reasons.len() - 1) as u64).as_str(),
        );
        let line = crate::text::cat(line.as_str(), " more)");
        (Some(line), reasons)
    }
}

/// The state after targets are told.
pub open spec fn after_tell(a: AppModel, affected: Seq<Str>) -> AppModel {
    let told = tell_targets(a.services, a.targets, affected, a.targets.keys);
    AppModel { targets: told.targets, events: a.events + told.events, ..a }
}

/// The targets in the answer once they are told.
pub open spec fn told_statuses(a: AppModel, affected: Seq<Str>) -> Table<TargetStatusModel> {
    tell_targets(a.services, a.targets, affected, a.targets.keys).statuses
}

/// Finds the state of each target that some services affect, and reports those that have
/// changed.
pub fn emit_target_states(state: &mut AppState, affected_services: &Vec<String>) -> (r: OrderedMap<
    TargetStatus,
>)
    requires
        old(state).wf(),
    ensures
        final(state).wf(),
        r.wf(),
        final(state).deep_view() == after_tell(
            old(state).deep_view(),
            affected_services.deep_view(),
        ),
        r.deep_view() == told_statuses(old(state).deep_view(), affected_services.deep_view()),
{
    let ghost a = state.deep_view();
    let ghost s = a.services;
    let ghost ts = a.targets;
    let ghost affected = affected_services.deep_view();
    let computed = all_target_states(&state.services, &state.targets);
    let n: usize = state.targets.len();
    let mut statuses: OrderedMap<TargetStatus> = OrderedMap::new();
    let mut i: usize = 0;
    assert(computed.deep_view().len() == computed.len());
    assert(a.events + Seq::<EventModel>::empty() =~= a.events);
    while i < n
        invariant
            state.wf(),
            statuses.wf(),
            s == a.services,
            ts == a.targets,
            ts.valid(),
            affected == affected_services.deep_view(),
            i <= n == ts.keys.len(),
            computed.len() == n,
            computed.deep_view() == Seq::new(
                ts.keys.len(),
                |i: int| state_of(s, ts, ts.at(ts.keys[i])),
            ),
            state.deep_view() == (AppModel {
                targets: tell_targets(s, ts, affected, ts.keys.take(i as int)).targets,
                events: a.events + tell_targets(s, ts, affected, ts.keys.take(i as int)).events,
                ..a
            }),
            statuses.deep_view() == tell_targets(s, ts, affected, ts.keys.take(i as int)).statuses,
        decreases n - i,
    {
        let ghost before = ts.keys.take(i as int);
        let ghost next = ts.keys.take(i + 1);
        let ghost key = ts.keys[i as int];
        proof {
            assert(next.drop_last() =~= before);
            assert forall|j: int| 0 <= j < before.len() implies ts.has(#[trigger] before[j]) by {
                assert(ts.keys.contains(ts.keys[j]));
            }
            lemma_tell_targets(s, ts, affected, before);
            assert(!before.contains(key)) by {
                if before.contains(key) {
                    let j = choose|j: int| 0 <= j < i && before[j] == key;
                    assert(ts.keys[j] == ts.keys[i as int]);
                }
            }
            assert(ts.keys.contains(key));
        }
        let ghost mid = state.targets.deep_view();
        assert(mid.at(key) == ts.at(key));
        let current = &computed[i];
        assert(current.deep_view() == computed.deep_view()[i as int]);
        let ghost now = state_of(s, ts, ts.at(key));
        assert(current.deep_view() == now);
        if is_affected(&state.targets.value(i).transitive_probes, affected_services) {
            assert(target_affected(ts.at(key), affected));
            let name = state.targets.name(i).clone();
            let t = state.targets.value_mut(i);
            let (changed, prev) = match &t.last_emitted_state {
                Some(p) => (!text_eq(p.as_str(), current.as_str()), p.as_str()),
                None => (true, current.as_str()),
            };
            let status = TargetStatus {
                state: current.as_str().to_owned(),
                prev: prev.to_owned(),
            };
            assert(status.deep_view() == target_status(ts.at(key), now));
            if changed {
                t.last_emitted_state = Some(current.copy());
            }
            statuses.insert(name.clone(), status);
            if changed {
                let (reason, extra) = tell_reasons(
                    compute_target_reasons(current, &state.services),
                );
                let ghost sent = state.events.deep_view();
                let e = Event::target_state(name.as_str(), current.copy(), None, reason, extra);
                let ghost m = e.deep_view();
                state.events.push(e);
                assert(state.events.deep_view() =~= sent.push(m));
                assert(m == target_event(s, key, now));
            }
            proof {
                let have = state.targets.deep_view();
                assert(mid.has(key) == ts.has(key));
                assert(have =~= tell_targets(s, ts, affected, next).targets);
                assert(state.events.deep_view() =~= a.events + tell_targets(
                    s,
                    ts,
                    affected,
                    next,
                ).events);
            }
        } else {
            assert(!target_affected(ts.at(key), affected));
        }
        i = i + 1;
    }
    assert(ts.keys.take(i as int) =~= ts.keys);
    statuses
}

/// Showing a service changes nothing but what is known of how it was last shown.
pub proof fn law_show_keeps(s: ServicesModel, ts: TargetsModel, k: Str)
    requires
        s.valid(),
    ensures
        show_services(s, ts, s.keys).keys == s.keys,
        show_services(s, ts, s.keys).has(k) == s.has(k),
        s.has(k) ==> show_services(s, ts, s.keys).at(k) == shown(s.at(k), is_active(s, ts, k)),
{
    assert forall|i: int| 0 <= i < s.keys.len() implies s.has(#[trigger] s.keys[i]) by {
        assert(s.keys.contains(s.keys[i]));
    }
    lemma_show_services(s, ts, s.keys);
    if s.has(k) {
        assert(s.keys.contains(k));
        let n = choose|n: int| 0 <= n < s.keys.len() && s.keys[n] == k;
        lemma_shown_at(s, ts, s.keys, n);
    }
}

proof fn lemma_shown_at(s: ServicesModel, ts: TargetsModel, keys: Seq<Str>, n: int)
    requires
        keys.no_duplicates(),
        0 <= n < keys.len(),
    ensures
        show_services(s, ts, keys).at(keys[n]) == shown(s.at(keys[n]), is_active(s, ts, keys[n])),
    decreases keys.len(),
{
    if n < keys.len() - 1 {
        assert(keys[n] != keys[keys.len() - 1]);
        assert(keys.drop_last()[n] == keys[n]);
        lemma_shown_at(s, ts, keys.drop_last(), n);
    }
}

} // verus!
