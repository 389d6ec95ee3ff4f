//! How probes, services and targets are shown, and why.
use crate::display::{
    first_red_of, is_active, probe_display, root_cause, svc_detail, svc_display, svc_reason,
    target_reasons, with_probe_reasons, with_target_reasons,
};
use crate::model::{PendingModel, RedModel, RefModel, ServiceState, StateModel};
use crate::names::lemma_with_name;
use crate::ordered_map::Table;
use crate::round_laws::is_green;
use crate::runtime::{
    probe_at, ProbeDisplayState, ProbeModel, ServiceModel, ServicesModel, SvcDisplayState,
    TargetModel, TargetStateModel, TargetsModel,
};
use crate::targets::{not_green, state_of};
use crate::text::Str;
use vstd::prelude::*;

verus! {

/// A probe is shown green if and only if it is green and its service runs. It is shown stopped
/// while its service is stopped, and red once it crashed. One of a running service that is being
/// checked again is told from others that await a check.
pub proof fn law_probe_shown(state: StateModel, svc: ServiceState)
    ensures
        probe_display(state, svc) == ProbeDisplayState::Green <==> svc == ServiceState::Running
            && state == StateModel::Green,
        probe_display(state, svc) == ProbeDisplayState::Stopped <==> svc == ServiceState::Stopped,
        probe_display(state, svc) == ProbeDisplayState::Red <==> svc == ServiceState::Crashed || (
        svc == ServiceState::Running && state is Red),
        probe_display(state, svc) == ProbeDisplayState::Probing <==> svc == ServiceState::Running
            && state == StateModel::Pending(PendingModel::Reprobing),
{
}

/// A service is shown green if and only if it runs and all of its probes are green. It is shown
/// stopped if and only if it is stopped and nothing needs it.
pub proof fn law_service_shown(svc: ServiceModel, active: bool)
    ensures
        svc_display(svc, active) == SvcDisplayState::Green <==> svc.state == ServiceState::Running
            && forall|p: Str| #[trigger]
            svc.probes.has(p) ==> svc.probes.at(p).state == StateModel::Green,
        svc_display(svc, active) == SvcDisplayState::Stopped <==> svc.state == ServiceState::Stopped
            && !active,
{
}

/// The names of the states that are shown tell them apart.
pub proof fn law_shown_names(d: ProbeDisplayState, e: SvcDisplayState, s: ServiceState, m: StateModel)
    ensures
        d.text() == "green"@ <==> d == ProbeDisplayState::Green,
        d.text() == "red"@ <==> d == ProbeDisplayState::Red,
        d.text() == "probing"@ <==> d == ProbeDisplayState::Probing,
        d.text() == "pending"@ <==> d == ProbeDisplayState::Pending,
        d.text() == "stopped"@ <==> d == ProbeDisplayState::Stopped,
        e.text() == "green"@ <==> e == SvcDisplayState::Green,
        e.text() == "red"@ <==> e == SvcDisplayState::Red,
        e.text() == "stopped"@ <==> e == SvcDisplayState::Stopped,
        s.text() == "running"@ <==> s == ServiceState::Running,
        s.text() == "crashed"@ <==> s == ServiceState::Crashed,
        s.text() == "stopped"@ <==> s == ServiceState::Stopped,
        m.text() == "green"@ <==> m is Green,
        m.text() == "red"@ <==> m is Red,
        m.text() == "pending"@ <==> m is Pending,
{
    reveal_strlit("green");
    reveal_strlit("red");
    reveal_strlit("probing");
    reveal_strlit("pending");
    reveal_strlit("stopped");
    reveal_strlit("running");
    reveal_strlit("crashed");
    assert("probing"@[2] == 'o' && "pending"@[2] == 'n' && "stopped"@[2] == 'o' && "running"@[2]
        == 'n' && "crashed"@[2] == 'a');
    assert("probing"@[0] == 'p' && "pending"@[0] == 'p' && "stopped"@[0] == 's' && "running"@[0]
        == 'r' && "crashed"@[0] == 'c');
    assert("green"@.len() == 5 && "red"@.len() == 3);
}

/// Something needs a service if and only if it runs or crashed, a target that was asked for needs
/// a probe of it, or a service that runs starts after a probe of it.
pub proof fn law_needed(s: ServicesModel, ts: TargetsModel, n: Str)
    ensures
        is_active(s, ts, n) <==> (s.has(n) && s.at(n).state != ServiceState::Stopped) || (exists|
            t: Str,
            i: int,
        |
            #![trigger ts.at(t).transitive_probes[i]]
            ts.has(t) && ts.at(t).activated && 0 <= i < ts.at(t).transitive_probes.len() && ts.at(
                t,
            ).transitive_probes[i].service == n) || (exists|k: Str, i: int|
            #![trigger s.at(k).start_after[i]]
            s.has(k) && s.at(k).state == ServiceState::Running && 0 <= i < s.at(k).start_after.len()
                && s.at(k).start_after[i].service == n),
{
    if exists|t: Str| #[trigger]
        ts.has(t) && ts.at(t).activated && crate::display::names_service(
            ts.at(t).transitive_probes,
            n,
        ) {
        let t = choose|t: Str| #[trigger]
            ts.has(t) && ts.at(t).activated && crate::display::names_service(
                ts.at(t).transitive_probes,
                n,
            );
        let refs = ts.at(t).transitive_probes;
        let i = choose|i: int| 0 <= i < refs.len() && (#[trigger] refs[i]).service == n;
        assert(ts.at(t).transitive_probes[i].service == n);
    }
    if exists|k: Str| #[trigger]
        s.has(k) && s.at(k).state is Running && crate::display::names_service(
            s.at(k).start_after,
            n,
        ) {
        let k = choose|k: Str| #[trigger]
            s.has(k) && s.at(k).state is Running && crate::display::names_service(
                s.at(k).start_after,
                n,
            );
        let refs = s.at(k).start_after;
        let i = choose|i: int| 0 <= i < refs.len() && (#[trigger] refs[i]).service == n;
        assert(s.at(k).start_after[i].service == n);
    }
    if exists|t: Str, i: int|
        #![trigger ts.at(t).transitive_probes[i]]
        ts.has(t) && ts.at(t).activated && 0 <= i < ts.at(t).transitive_probes.len() && ts.at(
            t,
        ).transitive_probes[i].service == n {
        let (t, i) = choose|t: Str, i: int|
            #![trigger ts.at(t).transitive_probes[i]]
            ts.has(t) && ts.at(t).activated && 0 <= i < ts.at(t).transitive_probes.len() && ts.at(
                t,
            ).transitive_probes[i].service == n;
        assert(crate::display::names_service(ts.at(t).transitive_probes, n));
        assert(ts.has(t));
    }
    if exists|k: Str, i: int|
        #![trigger s.at(k).start_after[i]]
        s.has(k) && s.at(k).state == ServiceState::Running && 0 <= i < s.at(k).start_after.len()
            && s.at(k).start_after[i].service == n {
        let (k, i) = choose|k: Str, i: int|
            #![trigger s.at(k).start_after[i]]
            s.has(k) && s.at(k).state == ServiceState::Running && 0 <= i < s.at(k).start_after.len()
                && s.at(k).start_after[i].service == n;
        assert(crate::display::names_service(s.at(k).start_after, n));
        assert(s.has(k));
    }
}

proof fn lemma_first_red(probes: Table<ProbeModel>, keys: Seq<Str>, i: int)
    requires
        0 <= i < keys.len(),
        probes.at(keys[i]).state is Red,
        forall|j: int| 0 <= j < i ==> !(probes.at(#[trigger] keys[j]).state is Red),
    ensures
        first_red_of(probes, keys) == Some(probes.at(keys[i])),
    decreases keys.len(),
{
    let front = keys.drop_last();
    if i < front.len() {
        assert forall|j: int| 0 <= j < i implies !(probes.at(#[trigger] front[j]).state is Red) by {
            assert(front[j] == keys[j]);
        }
        assert(front[i] == keys[i]);
        lemma_first_red(probes, front, i);
    } else {
        assert forall|j: int| 0 <= j < front.len() implies !(probes.at(
            #[trigger] front[j],
        ).state is Red) by {
            assert(front[j] == keys[j]);
        }
        lemma_none_red(probes, front);
    }
}

proof fn lemma_none_red(probes: Table<ProbeModel>, keys: Seq<Str>)
    requires
        forall|j: int| 0 <= j < keys.len() ==> !(probes.at(#[trigger] keys[j]).state is Red),
    ensures
        first_red_of(probes, keys) is None,
    decreases keys.len(),
{
    if keys.len() > 0 {
        let front = keys.drop_last();
        assert forall|j: int| 0 <= j < front.len() implies !(probes.at(
            #[trigger] front[j],
        ).state is Red) by {
            assert(front[j] == keys[j]);
        }
        assert(!(probes.at(keys[keys.len() - 1]).state is Red));
        lemma_none_red(probes, front);
    }
}

/// A service that does not run is shown red because it is stopped or because it crashed. One that
/// is not shown red has no reason.
pub proof fn law_halted_reason(svc: ServiceModel, display: SvcDisplayState)
    ensures
        display != SvcDisplayState::Red ==> svc_reason(display, svc) is None && svc_detail(
            display,
            svc,
        ) is None,
        svc.state == ServiceState::Stopped ==> svc_reason(SvcDisplayState::Red, svc) == Some(
            "stopped"@,
        ) && svc_detail(SvcDisplayState::Red, svc) is None,
        svc.state == ServiceState::Crashed ==> svc_reason(SvcDisplayState::Red, svc) == Some(
            "crashed"@,
        ) && svc_detail(SvcDisplayState::Red, svc) is None,
{
}

/// A running service is red because of its first red probe: that probe failed, or it waits for a
/// probe of another service. The detail names the probe and what is behind it.
pub proof fn law_red_reason(svc: ServiceModel, i: int)
    requires
        svc.state == ServiceState::Running,
        0 <= i < svc.probes.keys.len(),
        svc.probes.at(svc.probes.keys[i]).state is Red,
        forall|j: int|
            0 <= j < i ==> !(svc.probes.at(#[trigger] svc.probes.keys[j]).state is Red),
    ensures
        ({
            let p = svc.probes.at(svc.probes.keys[i]);
            match p.state->Red_0 {
                RedModel::ProbeFailed { error, duration_ms } => {
                    &&& svc_reason(SvcDisplayState::Red, svc) == Some("probe failed"@)
                    &&& svc_detail(SvcDisplayState::Red, svc) == Some(
                        p.probe_ref.service + seq!['.'] + p.probe_ref.probe + " → "@ + (error
                            + " ("@ + crate::text::decimal(duration_ms as nat) + "ms)"@),
                    )
                },
                RedModel::DepRed { dep } => {
                    &&& svc_reason(SvcDisplayState::Red, svc) == Some("waiting for "@ + dep.service)
                    &&& svc_detail(SvcDisplayState::Red, svc) == Some(
                        p.probe_ref.service + seq!['.'] + p.probe_ref.probe + " → "@ + (dep.service
                            + seq!['.'] + dep.probe),
                    )
                },
                _ => svc_detail(SvcDisplayState::Red, svc) is None,
            }
        }),
{
    lemma_first_red(svc.probes, svc.probes.keys, i);
}

/// A running service without a red probe that is shown red has a probe that awaits a check, and
/// that is the reason.
pub proof fn law_pending_reason(svc: ServiceModel)
    requires
        svc.probes.valid(),
        svc.state == ServiceState::Running,
        forall|p: Str| #[trigger] svc.probes.has(p) ==> !(svc.probes.at(p).state is Red),
    ensures
        svc_display(svc, true) == SvcDisplayState::Red ==> svc_reason(SvcDisplayState::Red, svc)
            == Some("probes pending"@),
{
    let keys = svc.probes.keys;
    assert forall|j: int| 0 <= j < keys.len() implies !(svc.probes.at(
        #[trigger] keys[j],
    ).state is Red) by {
        assert(keys.contains(keys[j]));
        assert(svc.probes.has(keys[j]));
    }
    lemma_none_red(svc.probes, keys);
    if svc_display(svc, true) == SvcDisplayState::Red {
        let p = choose|p: Str| #[trigger]
            svc.probes.has(p) && !(svc.probes.at(p).state is Green);
        assert(svc.probes.has(p));
        assert(!(svc.probes.at(p).state is Red));
        assert(svc.probes.at(p).state is Pending);
    }
}

/// Whether each probe of a chain is red behind the next.
pub open spec fn is_red_chain(s: ServicesModel, chain: Seq<RefModel>) -> bool {
    chain.len() > 0 && forall|i: int|
        #![trigger chain[i]]
        0 <= i < chain.len() - 1 ==> (probe_at(s, chain[i]) matches Some(p) && p.state
            == StateModel::Red(RedModel::DepRed { dep: chain[i + 1] }))
}

/// The root cause of a red probe is found at the end of the chain of those that are red behind
/// one another: a probe that failed, a service that was stopped or crashed, or a check that is
/// awaited. Where the end is green or missing there is no cause.
pub proof fn law_root_cause(s: ServicesModel, chain: Seq<RefModel>, steps: nat)
    requires
        is_red_chain(s, chain),
        chain.len() <= steps,
    ensures
        match probe_at(s, chain.last()) {
            None => root_cause(s, chain[0], steps) is None,
            Some(p) => match p.state {
                StateModel::Green => root_cause(s, chain[0], steps) is None,
                StateModel::Pending(_) => root_cause(s, chain[0], steps) == Some(
                    "probes pending"@,
                ),
                StateModel::Red(RedModel::ProbeFailed { .. }) => root_cause(s, chain[0], steps)
                    == Some(
                    "probe "@ + (chain.last().service + seq!['.'] + chain.last().probe) + " failed"@,
                ),
                StateModel::Red(RedModel::Stopped) => root_cause(s, chain[0], steps) == Some(
                    "service "@ + chain.last().service + " stopped"@,
                ),
                StateModel::Red(RedModel::ContainerDied) => root_cause(s, chain[0], steps) == Some(
                    "service "@ + chain.last().service + " crashed"@,
                ),
                _ => true,
            },
        },
    decreases steps,
{
    if chain.len() > 1 {
        let rest = chain.drop_first();
        assert forall|i: int| #![trigger rest[i]] 0 <= i < rest.len() - 1 implies (probe_at(
            s,
            rest[i],
        ) matches Some(p) && p.state == StateModel::Red(RedModel::DepRed { dep: rest[i + 1] })) by {
            assert(rest[i] == chain[i + 1]);
        }
        law_root_cause(s, rest, (steps - 1) as nat);
        assert(rest.last() == chain.last());
        assert(rest[0] == chain[1]);
        assert(probe_at(s, chain[0]) is Some);
    }
}

/// A chain of red probes that is as long as may be looked at ends at the service it has come to.
pub proof fn law_long_chain(s: ServicesModel, chain: Seq<RefModel>, steps: nat)
    requires
        is_red_chain(s, chain),
        chain.len() == steps + 1,
    ensures
        root_cause(s, chain[0], steps) == Some("waiting for "@ + chain.last().service),
    decreases steps,
{
    if chain.len() > 1 {
        let rest = chain.drop_first();
        assert forall|i: int| #![trigger rest[i]] 0 <= i < rest.len() - 1 implies (probe_at(
            s,
            rest[i],
        ) matches Some(p) && p.state == StateModel::Red(RedModel::DepRed { dep: rest[i + 1] })) by {
            assert(rest[i] == chain[i + 1]);
        }
        law_long_chain(s, rest, (steps - 1) as nat);
        assert(rest.last() == chain.last());
        assert(rest[0] == chain[1]);
        assert(probe_at(s, chain[0]) is Some);
    }
}

proof fn lemma_target_reasons(reasons: Seq<Str>, deps: Seq<Str>, x: Str)
    ensures
        with_target_reasons(reasons, deps).contains(x) <==> reasons.contains(x) || exists|i: int|
            0 <= i < deps.len() && x == "target "@ + #[trigger] deps[i] + " red"@,
        reasons.no_duplicates() ==> with_target_reasons(reasons, deps).no_duplicates(),
    decreases deps.len(),
{
    if deps.len() > 0 {
        let front = deps.drop_last();
        lemma_target_reasons(reasons, front, x);
        let last = deps[deps.len() - 1];
        let so_far = with_target_reasons(reasons, front);
        lemma_with_name(so_far, "target "@ + last + " red"@);
        assert(forall|i: int| 0 <= i < front.len() ==> front[i] == deps[i]);
        if exists|i: int|
            0 <= i < front.len() && x == "target "@ + #[trigger] front[i] + " red"@ {
            let i = choose|i: int|
                0 <= i < front.len() && x == "target "@ + #[trigger] front[i] + " red"@;
            assert(x == "target "@ + deps[i] + " red"@);
        }
        if exists|i: int| 0 <= i < deps.len() && x == "target "@ + #[trigger] deps[i] + " red"@ {
            let i = choose|i: int|
                0 <= i < deps.len() && x == "target "@ + #[trigger] deps[i] + " red"@;
            if i < front.len() {
                assert(x == "target "@ + front[i] + " red"@);
            }
        }
    }
}

proof fn lemma_probe_reasons(s: ServicesModel, reasons: Seq<Str>, probes: Seq<RefModel>, x: Str)
    ensures
        with_probe_reasons(s, reasons, probes).contains(x) <==> reasons.contains(x) || exists|
            i: int,
        |
            0 <= i < probes.len() && root_cause(s, #[trigger] probes[i], 50) == Some(x),
        reasons.no_duplicates() ==> with_probe_reasons(s, reasons, probes).no_duplicates(),
    decreases probes.len(),
{
    if probes.len() > 0 {
        let front = probes.drop_last();
        lemma_probe_reasons(s, reasons, front, x);
        let last = probes[probes.len() - 1];
        let so_far = with_probe_reasons(s, reasons, front);
        if let Some(r) = root_cause(s, last, 50) {
            lemma_with_name(so_far, r);
        }
        if exists|i: int| 0 <= i < front.len() && root_cause(s, #[trigger] front[i], 50) == Some(x) {
            let i = choose|i: int|
                0 <= i < front.len() && root_cause(s, #[trigger] front[i], 50) == Some(x);
            assert(root_cause(s, probes[i], 50) == Some(x));
        }
        if exists|i: int| 0 <= i < probes.len() && root_cause(s, #[trigger] probes[i], 50) == Some(
            x,
        ) {
            let i = choose|i: int|
                0 <= i < probes.len() && root_cause(s, #[trigger] probes[i], 50) == Some(x);
            if i < front.len() {
                assert(root_cause(s, front[i], 50) == Some(x));
            }
        }
    }
}

/// The reasons of a red target are the red targets that it depends on and the root causes of its
/// probes that are not green, each once. A target that is not red has none.
pub proof fn law_target_reasons(s: ServicesModel, state: TargetStateModel, x: Str)
    ensures
        match state {
            TargetStateModel::Red { probes, dep_targets } => target_reasons(state, s).contains(x)
                <==> (exists|i: int|
                0 <= i < dep_targets.len() && x == "target "@ + #[trigger] dep_targets[i]
                    + " red"@) || (exists|i: int|
                0 <= i < probes.len() && root_cause(s, #[trigger] probes[i], 50) == Some(x)),
            _ => target_reasons(state, s).len() == 0,
        },
        target_reasons(state, s).no_duplicates(),
{
    if let TargetStateModel::Red { probes, dep_targets } = state {
        lemma_target_reasons(Seq::empty(), dep_targets, x);
        lemma_probe_reasons(s, with_target_reasons(Seq::empty(), dep_targets), probes, x);
    }
}

/// The probes of a list that are not green are told, and no others.
pub proof fn law_not_green(s: ServicesModel, refs: Seq<RefModel>, x: RefModel)
    ensures
        not_green(s, refs).contains(x) <==> refs.contains(x) && !is_green(s, x),
        not_green(s, refs).len() <= refs.len(),
    decreases refs.len(),
{
    if refs.len() > 0 {
        let front = refs.drop_last();
        let last = refs[refs.len() - 1];
        law_not_green(s, front, x);
        let before = not_green(s, front);
        let after = not_green(s, refs);
        if front.contains(x) {
            let i = choose|i: int| 0 <= i < front.len() && front[i] == x;
            assert(refs[i] == x);
        }
        if refs.contains(x) && x != last {
            let i = choose|i: int| 0 <= i < refs.len() && refs[i] == x;
            assert(front[i] == x);
        }
        if before.contains(x) {
            let i = choose|i: int| 0 <= i < before.len() && before[i] == x;
            assert(after[i] == x);
        }
        if !is_green(s, last) {
            assert(after[before.len() as int] == last);
        }
        if after.contains(x) && !before.contains(x) {
            let i = choose|i: int| 0 <= i < after.len() && after[i] == x;
            assert(i == before.len());
        }
        assert(refs.contains(last));
    }
}

/// An active target is green if and only if each of its own probes is green and no target that it
/// depends on is red.
pub proof fn law_green_target(s: ServicesModel, ts: TargetsModel, t: TargetModel)
    requires
        t.activated,
    ensures
        state_of(s, ts, t) is Green <==> (forall|i: int|
            0 <= i < t.direct_probes.len() ==> is_green(s, #[trigger] t.direct_probes[i])) && (
        forall|d: Str|
            t.depends_on_targets.contains(d) && ts.keys.contains(d) ==> !(#[trigger] state_of(
                s,
                ts,
                ts.at(d),
            ) is Red)),
{
    crate::targets::law_target_green(s, ts, t);
    let bad = not_green(s, t.direct_probes);
    if bad.len() == 0 {
        assert forall|i: int| 0 <= i < t.direct_probes.len() implies is_green(
            s,
            #[trigger] t.direct_probes[i],
        ) by {
            law_not_green(s, t.direct_probes, t.direct_probes[i]);
            assert(t.direct_probes.contains(t.direct_probes[i]));
        }
    } else {
        law_not_green(s, t.direct_probes, bad[0]);
        assert(bad.contains(bad[0]));
        let i = choose|i: int| 0 <= i < t.direct_probes.len() && t.direct_probes[i] == bad[0];
        assert(!is_green(s, t.direct_probes[i]));
    }
}

} // verus!
