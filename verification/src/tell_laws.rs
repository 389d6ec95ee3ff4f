//! What is told: which services and targets, when, and with which words.
use crate::app_state::AppModel;
use crate::display::{is_active, probe_display, svc_detail, svc_display, svc_reason, target_reasons};
use crate::display_laws::law_needed;
use crate::emit::{after_show, law_show_keeps, show_events, tell_targets, told_reasons};
use crate::events::EventModel;
use crate::model::{RefModel, ServiceState};
use crate::ops::{report_changes, Report};
use crate::propagate::ChangeModel;
use crate::runtime::{ProbeDisplayState, ServiceModel, ServicesModel, TargetModel, TargetsModel};
use crate::targets::state_of;
use crate::text::{decimal, Str};
use vstd::prelude::*;

verus! {

/// Whether a service was last shown otherwise than it is now: in another color, or in another
/// state.
pub open spec fn looks_new(svc: ServiceModel, active: bool) -> bool {
    !(svc.last_emitted_display == Some(svc_display(svc, active)) && svc.last_emitted_runtime == Some(
        svc.state,
    ))
}

/// Whether an event tells how a service is shown now, and why.
pub open spec fn tells_shown(e: EventModel, name: Str, svc: ServiceModel, active: bool) -> bool {
    let d = svc_display(svc, active);
    e matches EventModel::ServiceState { service, state, display_state, reason, svc_detail: detail }
        && service == name && state == svc.state && display_state == d.text() && reason
        == svc_reason(d, svc) && detail == svc_detail(d, svc)
}

/// Whether an event tells of one of some services that it looks otherwise than it was last shown.
pub open spec fn tells_new(e: EventModel, s: ServicesModel, ts: TargetsModel, keys: Seq<Str>) -> bool {
    exists|i: int|
        0 <= i < keys.len() && looks_new(s.at(#[trigger] keys[i]), is_active(s, ts, keys[i]))
            && tells_shown(e, keys[i], s.at(keys[i]), is_active(s, ts, keys[i]))
}

/// Each service that looks otherwise than it was last shown is told, and no other one is.
pub proof fn law_new_looks_told(s: ServicesModel, ts: TargetsModel, keys: Seq<Str>)
    ensures
        ({
            let events = show_events(s, ts, keys);
            &&& forall|i: int|
                0 <= i < keys.len() && looks_new(
                    s.at(#[trigger] keys[i]),
                    is_active(s, ts, keys[i]),
                ) ==> exists|j: int|
                    0 <= j < events.len() && tells_shown(
                        #[trigger] events[j],
                        keys[i],
                        s.at(keys[i]),
                        is_active(s, ts, keys[i]),
                    )
            &&& forall|j: int|
                0 <= j < events.len() ==> tells_new(#[trigger] events[j], s, ts, keys)
        }),
    decreases keys.len(),
{
    if keys.len() == 0 {
        assert(show_events(s, ts, keys).len() == 0);
    } else {
        let front = keys.drop_last();
        let n = keys.len() - 1;
        law_new_looks_told(s, ts, front);
        let before = show_events(s, ts, front);
        let after = show_events(s, ts, keys);
        assert forall|i: int|
            0 <= i < keys.len() && looks_new(
                s.at(#[trigger] keys[i]),
                is_active(s, ts, keys[i]),
            ) implies exists|j: int|
            0 <= j < after.len() && tells_shown(
                #[trigger] after[j],
                keys[i],
                s.at(keys[i]),
                is_active(s, ts, keys[i]),
            ) by {
            let k = keys[i];
            if i < n {
                assert(front[i] == k);
                let j = choose|j: int|
                    0 <= j < before.len() && tells_shown(
                        #[trigger] before[j],
                        k,
                        s.at(k),
                        is_active(s, ts, k),
                    );
                assert(after[j] == before[j]);
                assert(tells_shown(after[j], k, s.at(k), is_active(s, ts, k)));
            } else {
                assert(tells_shown(after[before.len() as int], k, s.at(k), is_active(s, ts, k)));
            }
        }
        assert forall|j: int| 0 <= j < after.len() implies tells_new(
            #[trigger] after[j],
            s,
            ts,
            keys,
        ) by {
            if j < before.len() {
                assert(after[j] == before[j]);
                assert(tells_new(before[j], s, ts, front));
                let i = choose|i: int|
                    0 <= i < front.len() && looks_new(
                        s.at(#[trigger] front[i]),
                        is_active(s, ts, front[i]),
                    ) && tells_shown(
                        before[j],
                        front[i],
                        s.at(front[i]),
                        is_active(s, ts, front[i]),
                    );
                assert(keys[i] == front[i]);
            } else {
                let k = keys[n];
                assert(looks_new(s.at(k), is_active(s, ts, k)));
                assert(tells_shown(after[j], k, s.at(k), is_active(s, ts, k)));
            }
        }
    }
}

proof fn lemma_needed_alike(a: ServicesModel, b: ServicesModel, ts: TargetsModel, n: Str)
    requires
        forall|k: Str| #[trigger] b.has(k) == a.has(k),
        forall|k: Str| #[trigger]
            a.has(k) ==> b.at(k).state == a.at(k).state && b.at(k).start_after == a.at(
                k,
            ).start_after,
    ensures
        is_active(b, ts, n) == is_active(a, ts, n),
{
    law_needed(a, ts, n);
    law_needed(b, ts, n);
    assert(b.has(n) == a.has(n));
    if exists|k: Str, i: int|
        #![trigger a.at(k).start_after[i]]
        a.has(k) && a.at(k).state == ServiceState::Running && 0 <= i < a.at(k).start_after.len()
            && a.at(k).start_after[i].service == n {
        let (k, i) = choose|k: Str, i: int|
            #![trigger a.at(k).start_after[i]]
            a.has(k) && a.at(k).state == ServiceState::Running && 0 <= i < a.at(k).start_after.len()
                && a.at(k).start_after[i].service == n;
        assert(b.has(k));
        assert(b.at(k).start_after[i].service == n);
    }
    if exists|k: Str, i: int|
        #![trigger b.at(k).start_after[i]]
        b.has(k) && b.at(k).state == ServiceState::Running && 0 <= i < b.at(k).start_after.len()
            && b.at(k).start_after[i].service == n {
        let (k, i) = choose|k: Str, i: int|
            #![trigger b.at(k).start_after[i]]
            b.has(k) && b.at(k).state == ServiceState::Running && 0 <= i < b.at(k).start_after.len()
                && b.at(k).start_after[i].service == n;
        assert(a.has(k));
        assert(a.at(k).start_after[i].service == n);
    }
}

/// After services are shown each was last shown as it is, and nothing else of it has changed.
pub proof fn law_shown_as_it_is(a: AppModel, k: Str)
    requires
        a.services.valid(),
        a.services.has(k),
    ensures
        ({
            let old = a.services.at(k);
            let now = after_show(a).services.at(k);
            &&& after_show(a).services.has(k)
            &&& now.last_emitted_display == Some(
                svc_display(old, is_active(a.services, a.targets, k)),
            )
            &&& now.last_emitted_runtime == Some(old.state)
            &&& now.state == old.state
            &&& now.probes == old.probes
            &&& now.generation == old.generation
            &&& now.start_after == old.start_after
            &&& now.container == old.container
            &&& now.restart_on_fail == old.restart_on_fail
            &&& now.log_since == old.log_since
            &&& now.name == old.name
        }),
{
    law_show_keeps(a.services, a.targets, k);
}

/// Showing services again when nothing has changed tells nothing.
pub proof fn law_shown_once(a: AppModel)
    requires
        a.services.valid(),
    ensures
        after_show(after_show(a)).events == after_show(a).events,
{
    let b = after_show(a);
    let s = a.services;
    let t = b.services;
    assert forall|k: Str| #[trigger] t.has(k) == s.has(k) by {
        law_show_keeps(s, a.targets, k);
    }
    assert forall|k: Str| #[trigger] s.has(k) implies t.at(k).state == s.at(k).state && t.at(
        k,
    ).start_after == s.at(k).start_after by {
        law_shown_as_it_is(a, k);
    }
    law_show_keeps(s, a.targets, "green"@);
    law_new_looks_told(t, b.targets, t.keys);
    let again = show_events(t, b.targets, t.keys);
    if again.len() > 0 {
        assert(tells_new(again[0], t, b.targets, t.keys));
        let i = choose|i: int|
            0 <= i < t.keys.len() && looks_new(
                t.at(#[trigger] t.keys[i]),
                is_active(t, b.targets, t.keys[i]),
            ) && tells_shown(
                again[0],
                t.keys[i],
                t.at(t.keys[i]),
                is_active(t, b.targets, t.keys[i]),
            );
        let k = t.keys[i];
        assert(s.keys.contains(s.keys[i]));
        assert(s.has(k));
        law_shown_as_it_is(a, k);
        lemma_needed_alike(s, t, a.targets, k);
        assert(svc_display(t.at(k), is_active(t, b.targets, k)) == svc_display(
            s.at(k),
            is_active(s, a.targets, k),
        ));
    }
    assert(again =~= Seq::empty());
    assert(after_show(b).events =~= b.events);
}

/// Whether a target needs a probe of one of some services. No services stand for all.
pub open spec fn is_hit(t: TargetModel, affected: Seq<Str>) -> bool {
    affected.len() == 0 || exists|i: int|
        0 <= i < t.transitive_probes.len() && affected.contains(
            (#[trigger] t.transitive_probes[i]).service,
        )
}

proof fn lemma_told_at(s: ServicesModel, ts: TargetsModel, affected: Seq<Str>, keys: Seq<Str>, k: Str)
    requires
        forall|i: int| 0 <= i < keys.len() ==> ts.has(#[trigger] keys[i]),
        keys.no_duplicates(),
        ts.has(k),
    ensures
        ({
            let told = tell_targets(s, ts, affected, keys);
            let t = ts.at(k);
            let u = told.targets.at(k);
            let now = state_of(s, ts, t);
            let hit = keys.contains(k) && is_hit(t, affected);
            &&& told.targets.keys == ts.keys
            &&& forall|x: Str| #[trigger] told.targets.has(x) == ts.has(x)
            &&& told.statuses.has(k) == hit
            &&& hit ==> told.statuses.at(k).state == now.text() && told.statuses.at(k).prev == (
            match t.last_emitted_state {
                Some(last) => last.text(),
                None => now.text(),
            }) && (u.last_emitted_state matches Some(x) && x.text() == now.text())
            &&& !hit ==> u == t
            &&& u.name == t.name
            &&& u.direct_probes == t.direct_probes
            &&& u.transitive_probes == t.transitive_probes
            &&& u.depends_on_targets == t.depends_on_targets
            &&& u.activated == t.activated
        }),
    decreases keys.len(),
{
    if keys.len() > 0 {
        let front = keys.drop_last();
        let last = keys[keys.len() - 1];
        assert forall|i: int| 0 <= i < front.len() implies ts.has(#[trigger] front[i]) by {
            assert(front[i] == keys[i]);
        }
        lemma_told_at(s, ts, affected, front, k);
        assert(ts.has(last));
        if front.contains(k) {
            let i = choose|i: int| 0 <= i < front.len() && front[i] == k;
            assert(keys[i] == k);
            assert(k != last);
        }
        if keys.contains(k) && k != last {
            let i = choose|i: int| 0 <= i < keys.len() && keys[i] == k;
            assert(front[i] == k);
        }
        if k == last {
            assert(keys.contains(k));
        }
        let before = tell_targets(s, ts, affected, front);
        assert(before.targets.has(last) == ts.has(last));
        let after = tell_targets(s, ts, affected, keys);
        assert forall|x: Str| #[trigger] after.targets.has(x) == ts.has(x) by {
            assert(before.targets.has(x) == ts.has(x));
        }
        assert(crate::emit::target_affected(ts.at(last), affected) == is_hit(
            ts.at(last),
            affected,
        ));
    }
}

/// A target is told in the answer if and only if it needs a probe of one of the services that are
/// affected, with the state it is in and the one that was last told of it. Then its state counts
/// as told. Nothing else of a target changes.
pub proof fn law_affected_told(s: ServicesModel, ts: TargetsModel, affected: Seq<Str>, k: Str)
    requires
        ts.valid(),
        ts.has(k),
    ensures
        ({
            let told = tell_targets(s, ts, affected, ts.keys);
            let t = ts.at(k);
            let u = told.targets.at(k);
            let now = state_of(s, ts, t);
            &&& told.statuses.has(k) <==> is_hit(t, affected)
            &&& is_hit(t, affected) ==> told.statuses.at(k).state == now.text() && told.statuses.at(
                k,
            ).prev == (match t.last_emitted_state {
                Some(last) => last.text(),
                None => now.text(),
            }) && (u.last_emitted_state matches Some(x) && x.text() == now.text())
            &&& !is_hit(t, affected) ==> u == t
            &&& u.direct_probes == t.direct_probes
            &&& u.transitive_probes == t.transitive_probes
            &&& u.depends_on_targets == t.depends_on_targets
            &&& u.activated == t.activated
        }),
{
    assert forall|i: int| 0 <= i < ts.keys.len() implies ts.has(#[trigger] ts.keys[i]) by {
        assert(ts.keys.contains(ts.keys[i]));
    }
    lemma_told_at(s, ts, affected, ts.keys, k);
    assert(ts.keys.contains(k));
}

/// Whether a target is affected and was last told in another color, or never.
pub open spec fn turned(s: ServicesModel, ts: TargetsModel, affected: Seq<Str>, k: Str) -> bool {
    is_hit(ts.at(k), affected) && (match ts.at(k).last_emitted_state {
        Some(last) => last.text() != state_of(s, ts, ts.at(k)).text(),
        None => true,
    })
}

/// Whether an event tells the state of a target, and the reasons for it.
pub open spec fn tells_turned(e: EventModel, s: ServicesModel, ts: TargetsModel, k: Str) -> bool {
    let now = state_of(s, ts, ts.at(k));
    e matches EventModel::TargetState { target, state, duration_ms, reason_override, extra_reasons }
        && target == k && state == now && duration_ms is None && (reason_override, extra_reasons)
        == told_reasons(target_reasons(now, s))
}

/// Whether an event tells of one of some targets that it has turned another color.
pub open spec fn tells_some_turned(
    e: EventModel,
    s: ServicesModel,
    ts: TargetsModel,
    affected: Seq<Str>,
    keys: Seq<Str>,
) -> bool {
    exists|i: int|
        0 <= i < keys.len() && turned(s, ts, affected, #[trigger] keys[i]) && tells_turned(
            e,
            s,
            ts,
            keys[i],
        )
}

/// Each target that is affected and has turned another color is told, and no other one is.
pub proof fn law_turned_told(s: ServicesModel, ts: TargetsModel, affected: Seq<Str>, keys: Seq<Str>)
    ensures
        ({
            let events = tell_targets(s, ts, affected, keys).events;
            &&& forall|i: int|
                0 <= i < keys.len() && turned(s, ts, affected, #[trigger] keys[i]) ==> exists|
                    j: int,
                |
                    0 <= j < events.len() && tells_turned(#[trigger] events[j], s, ts, keys[i])
            &&& forall|j: int|
                0 <= j < events.len() ==> tells_some_turned(
                    #[trigger] events[j],
                    s,
                    ts,
                    affected,
                    keys,
                )
        }),
    decreases keys.len(),
{
    if keys.len() == 0 {
        assert(tell_targets(s, ts, affected, keys).events.len() == 0);
    } else {
        let front = keys.drop_last();
        let n = keys.len() - 1;
        law_turned_told(s, ts, affected, front);
        let before = tell_targets(s, ts, affected, front).events;
        let after = tell_targets(s, ts, affected, keys).events;
        assert forall|i: int|
            0 <= i < keys.len() && turned(s, ts, affected, #[trigger] keys[i]) implies exists|
            j: int,
        |
            0 <= j < after.len() && tells_turned(#[trigger] after[j], s, ts, keys[i]) by {
            if i < n {
                assert(front[i] == keys[i]);
                let j = choose|j: int|
                    0 <= j < before.len() && tells_turned(#[trigger] before[j], s, ts, front[i]);
                assert(after[j] == before[j]);
                assert(tells_turned(after[j], s, ts, keys[i]));
            } else {
                assert(tells_turned(after[before.len() as int], s, ts, keys[i]));
            }
        }
        assert forall|j: int| 0 <= j < after.len() implies tells_some_turned(
            #[trigger] after[j],
            s,
            ts,
            affected,
            keys,
        ) by {
            if j < before.len() {
                assert(after[j] == before[j]);
                assert(tells_some_turned(before[j], s, ts, affected, front));
                let i = choose|i: int|
                    0 <= i < front.len() && turned(s, ts, affected, #[trigger] front[i])
                        && tells_turned(before[j], s, ts, front[i]);
                assert(keys[i] == front[i]);
            } else {
                assert(turned(s, ts, affected, keys[n]));
                assert(tells_turned(after[j], s, ts, keys[n]));
            }
        }
    }
}

/// Of the reasons of a target the first one is told, with the number of the others if there are
/// some. Then all of them are told besides.
pub proof fn law_first_reason_told(reasons: Seq<Str>)
    ensures
        told_reasons(reasons).0 is None <==> reasons.len() == 0,
        reasons.len() == 1 ==> told_reasons(reasons).0 == Some(reasons[0]),
        reasons.len() > 0 ==> told_reasons(reasons).0->0.take(reasons[0].len() as int)
            == reasons[0],
        reasons.len() > 1 ==> told_reasons(reasons).0->0.skip(reasons[0].len() as int) == " (+"@
            + decimal((reasons.len() - 1) as nat) + " more)"@,
        told_reasons(reasons).1 == (if reasons.len() > 1 {
            reasons
        } else {
            Seq::empty()
        }),
{
    if reasons.len() > 0 {
        let told = told_reasons(reasons).0->0;
        assert(told.take(reasons[0].len() as int) =~= reasons[0]);
        if reasons.len() > 1 {
            assert(told.skip(reasons[0].len() as int) =~= " (+"@ + decimal(
                (reasons.len() - 1) as nat,
            ) + " more)"@);
        }
    }
}

/// How a probe is shown: as its state and that of its service say, or stopped where it is
/// missing.
pub open spec fn shown_at(s: ServicesModel, r: RefModel) -> ProbeDisplayState {
    if s.has(r.service) && s.at(r.service).probes.has(r.probe) {
        probe_display(s.at(r.service).probes.at(r.probe).state, s.at(r.service).state)
    } else {
        ProbeDisplayState::Stopped
    }
}

/// The answer tells of each probe that a change was passed on to how it is shown, what it was
/// before the change, and the reason. The last change of a probe is what counts.
pub proof fn law_changes_in_answer(
    s: ServicesModel,
    changes: Seq<ChangeModel>,
    report: Report,
    i: int,
)
    requires
        0 <= i < changes.len(),
        forall|j: int|
            i < j < changes.len() ==> (#[trigger] changes[j]).0.text() != changes[i].0.text(),
    ensures
        ({
            let statuses = report_changes(s, changes, report).statuses;
            let (r, state, prev) = changes[i];
            let key = r.service + seq!['.'] + r.probe;
            &&& statuses.has(key)
            &&& statuses.at(key).state == shown_at(s, r).text()
            &&& statuses.at(key).prev == prev.text()
            &&& statuses.at(key).reason == state.reason()
            &&& statuses.at(key).probe_ms is None
            &&& statuses.at(key).error is None
        }),
    decreases changes.len(),
{
    let front = changes.drop_last();
    if i < front.len() {
        assert forall|j: int| i < j < front.len() implies (#[trigger] front[j]).0.text()
            != front[i].0.text() by {
            assert(front[j] == changes[j]);
        }
        assert(front[i] == changes[i]);
        law_changes_in_answer(s, front, report, i);
        assert(changes[changes.len() - 1].0.text() != changes[i].0.text());
    }
}

/// Whether a change is to be seen: of a service that is not stopped, and in the color of the
/// probe or in the reason.
pub open spec fn is_seen(s: ServicesModel, c: ChangeModel) -> bool {
    shown_at(s, c.0) != ProbeDisplayState::Stopped && (c.1.text() != c.2.text() || c.1.reason()
        != c.2.reason())
}

/// Whether an event tells a change of a probe.
pub open spec fn tells_change(e: EventModel, s: ServicesModel, c: ChangeModel) -> bool {
    e matches EventModel::ProbeStateChange { probe, state, prev, display_state } && probe
        == c.0.service + seq!['.'] + c.0.probe && state == c.1 && prev == c.2 && display_state
        == shown_at(s, c.0).text()
}

/// Whether an event tells one of some changes that are to be seen.
pub open spec fn tells_some_change(e: EventModel, s: ServicesModel, changes: Seq<ChangeModel>) -> bool {
    exists|i: int|
        0 <= i < changes.len() && is_seen(s, #[trigger] changes[i]) && tells_change(
            e,
            s,
            changes[i],
        )
}

/// Each change that is to be seen is told, behind what was told before, and no other one is.
pub proof fn law_changes_told(s: ServicesModel, changes: Seq<ChangeModel>, report: Report)
    ensures
        ({
            let events = report_changes(s, changes, report).events;
            let n = report.events.len();
            &&& events.len() >= n
            &&& events.take(n as int) == report.events
            &&& forall|i: int|
                0 <= i < changes.len() && is_seen(s, #[trigger] changes[i]) ==> exists|j: int|
                    n <= j < events.len() && tells_change(#[trigger] events[j], s, changes[i])
            &&& forall|j: int|
                n <= j < events.len() ==> tells_some_change(#[trigger] events[j], s, changes)
        }),
    decreases changes.len(),
{
    let events = report_changes(s, changes, report).events;
    let n = report.events.len();
    if changes.len() == 0 {
        assert(events.take(n as int) =~= report.events);
    } else {
        let front = changes.drop_last();
        let m = changes.len() - 1;
        law_changes_told(s, front, report);
        let before = report_changes(s, front, report).events;
        assert(events.take(n as int) =~= before.take(n as int));
        assert forall|i: int| 0 <= i < changes.len() && is_seen(s, #[trigger] changes[i]) implies exists|
            j: int,
        |
            n <= j < events.len() && tells_change(#[trigger] events[j], s, changes[i]) by {
            if i < m {
                assert(front[i] == changes[i]);
                let j = choose|j: int|
                    n <= j < before.len() && tells_change(#[trigger] before[j], s, front[i]);
                assert(events[j] == before[j]);
                assert(tells_change(events[j], s, changes[i]));
            } else {
                assert(tells_change(events[before.len() as int], s, changes[i]));
            }
        }
        assert forall|j: int| n <= j < events.len() implies tells_some_change(
            #[trigger] events[j],
            s,
            changes,
        ) by {
            if j < before.len() {
                assert(events[j] == before[j]);
                assert(tells_some_change(before[j], s, front));
                let i = choose|i: int|
                    0 <= i < front.len() && is_seen(s, #[trigger] front[i]) && tells_change(
                        before[j],
                        s,
                        front[i],
                    );
                assert(changes[i] == front[i]);
            } else {
                assert(is_seen(s, changes[m]));
                assert(tells_change(events[j], s, changes[m]));
            }
        }
    }
}

} // verus!
