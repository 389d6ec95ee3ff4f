//! States and reasons as they are shown.
use crate::model::{
    PendingReason, ProbeRef, ProbeState, RedModel, RedReason, RefModel, ServiceState, StateModel,
};
use crate::names::{lemma_with_name, with_name, NameSet};
use crate::ordered_map::{Item, Table};
use crate::runtime::{
    find_probe, probe_at, ProbeDisplayState, ProbeModel, ProbeRuntime, ServiceModel,
    ServiceRuntime, Services, ServicesModel, SvcDisplayState, TargetState, TargetStateModel,
    Targets, TargetsModel,
};
use crate::text::{cat, cat3, list_contains, Str};
use vstd::prelude::*;

verus! {

impl ProbeDisplayState {
    /// The name of the state.
    pub open spec fn text(self) -> Str {
        match self {
            ProbeDisplayState::Green => "green"@,
            ProbeDisplayState::Red => "red"@,
            ProbeDisplayState::Probing => "probing"@,
            ProbeDisplayState::Pending => "pending"@,
            ProbeDisplayState::Stopped => "stopped"@,
        }
    }

    /// The name of the state.
    pub fn as_str(&self) -> (r: &'static str)
        ensures
            r@ == self.text(),
    {
        match self {
            ProbeDisplayState::Green => "green",
            ProbeDisplayState::Red => "red",
            ProbeDisplayState::Probing => "probing",
            ProbeDisplayState::Pending => "pending",
            ProbeDisplayState::Stopped => "stopped",
        }
    }

    /// How a probe of a service is shown.
    pub fn from_probe(probe: &ProbeRuntime, svc_state: ServiceState) -> (r: Self)
        ensures
            r == probe_display(probe.deep_view().state, svc_state),
    {
        match svc_state {
            ServiceState::Stopped => ProbeDisplayState::Stopped,
            ServiceState::Crashed => ProbeDisplayState::Red,
            ServiceState::Running => match &probe.state {
                ProbeState::Green => ProbeDisplayState::Green,
                ProbeState::Red(_) => ProbeDisplayState::Red,
                ProbeState::Pending(PendingReason::Reprobing) => ProbeDisplayState::Probing,
                ProbeState::Pending(_) => ProbeDisplayState::Pending,
            },
        }
    }
}

/// How a probe is shown: as its state is while the service runs, red once it crashed,
/// stopped while it is stopped.
pub open spec fn probe_display(state: StateModel, svc_state: ServiceState) -> ProbeDisplayState {
    match svc_state {
        ServiceState::Stopped => ProbeDisplayState::Stopped,
        ServiceState::Crashed => ProbeDisplayState::Red,
        ServiceState::Running => match state {
            StateModel::Green => ProbeDisplayState::Green,
            StateModel::Red(_) => ProbeDisplayState::Red,
            StateModel::Pending(r) => if r is Reprobing {
                ProbeDisplayState::Probing
            } else {
                ProbeDisplayState::Pending
            },
        },
    }
}

/// Whether all probes of a service are green.
pub open spec fn all_probes_green(svc: ServiceModel) -> bool {
    forall|p: Str| #[trigger] svc.probes.has(p) ==> svc.probes.at(p).state is Green
}

/// Whether a probe of a service is red.
pub open spec fn any_probe_red(svc: ServiceModel) -> bool {
    exists|p: Str| #[trigger] svc.probes.has(p) && svc.probes.at(p).state is Red
}

/// Whether a probe of a service failed by itself.
pub open spec fn any_probe_failed(svc: ServiceModel) -> bool {
    exists|p: Str| #[trigger] svc.probes.has(p) && svc.probes.at(p).state.probe_failed()
}

/// Whether a probe of a service awaits a check.
pub open spec fn any_probe_pending(svc: ServiceModel) -> bool {
    exists|p: Str| #[trigger] svc.probes.has(p) && svc.probes.at(p).state is Pending
}

/// Whether all probes of a service are green.
pub fn service_all_green(svc: &ServiceRuntime) -> (r: bool)
    requires
        svc.ok(),
    ensures
        r == all_probes_green(svc.deep_view()),
{
    let ghost t = svc.probes.deep_view();
    let n: usize = svc.probes.len();
    let mut i: usize = 0;
    while i < n
        invariant
            svc.ok(),
            t == svc.probes.deep_view(),
            t.valid(),
            i <= n == t.keys.len(),
            forall|j: int| 0 <= j < i ==> t.at(#[trigger] t.keys[j]).state is Green,
        decreases n - i,
    {
        if !svc.probes.value(i).state.is_green() {
            assert(t.has(t.keys[i as int]));
            return false;
        }
        i = i + 1;
    }
    assert forall|p: Str| #[trigger] t.has(p) implies t.at(p).state is Green by {
        let j = choose|j: int| 0 <= j < t.keys.len() && t.keys[j] == p;
        assert(t.at(t.keys[j]).state is Green);
    }
    true
}

/// Whether a probe of a service is red.
pub fn service_any_red(svc: &ServiceRuntime) -> (r: bool)
    requires
        svc.ok(),
    ensures
        r == any_probe_red(svc.deep_view()),
{
    let ghost t = svc.probes.deep_view();
    let n: usize = svc.probes.len();
    let mut i: usize = 0;
    while i < n
        invariant
            svc.ok(),
            t == svc.probes.deep_view(),
            t.valid(),
            i <= n == t.keys.len(),
            forall|j: int| 0 <= j < i ==> !(t.at(#[trigger] t.keys[j]).state is Red),
        decreases n - i,
    {
        if svc.probes.value(i).state.is_red() {
            assert(svc.deep_view().probes.has(t.keys[i as int]));
            return true;
        }
        i = i + 1;
    }
    assert forall|p: Str| #[trigger] t.has(p) implies !(t.at(p).state is Red) by {
        let j = choose|j: int| 0 <= j < t.keys.len() && t.keys[j] == p;
        assert(!(t.at(t.keys[j]).state is Red));
    }
    false
}

/// Whether a probe of a service failed by itself.
pub fn service_any_failed(svc: &ServiceRuntime) -> (r: bool)
    requires
        svc.ok(),
    ensures
        r == any_probe_failed(svc.deep_view()),
{
    let ghost t = svc.probes.deep_view();
    let n: usize = svc.probes.len();
    let mut i: usize = 0;
    while i < n
        invariant
            svc.ok(),
            t == svc.probes.deep_view(),
            t.valid(),
            i <= n == t.keys.len(),
            forall|j: int| 0 <= j < i ==> !t.at(#[trigger] t.keys[j]).state.probe_failed(),
        decreases n - i,
    {
        if svc.probes.value(i).state.is_probe_failed() {
            assert(svc.deep_view().probes.has(t.keys[i as int]));
            return true;
        }
        i = i + 1;
    }
    assert forall|p: Str| #[trigger] t.has(p) implies !t.at(p).state.probe_failed() by {
        let j = choose|j: int| 0 <= j < t.keys.len() && t.keys[j] == p;
        assert(!t.at(t.keys[j]).state.probe_failed());
    }
    false
}

/// Whether a probe of a service awaits a check.
pub fn service_any_pending(svc: &ServiceRuntime) -> (r: bool)
    requires
        svc.ok(),
    ensures
        r == any_probe_pending(svc.deep_view()),
{
    let ghost t = svc.probes.deep_view();
    let n: usize = svc.probes.len();
    let mut i: usize = 0;
    while i < n
        invariant
            svc.ok(),
            t == svc.probes.deep_view(),
            t.valid(),
            i <= n == t.keys.len(),
            forall|j: int| 0 <= j < i ==> !(t.at(#[trigger] t.keys[j]).state is Pending),
        decreases n - i,
    {
        if svc.probes.value(i).state.is_pending() {
            assert(svc.deep_view().probes.has(t.keys[i as int]));
            return true;
        }
        i = i + 1;
    }
    assert forall|p: Str| #[trigger] t.has(p) implies !(t.at(p).state is Pending) by {
        let j = choose|j: int| 0 <= j < t.keys.len() && t.keys[j] == p;
        assert(!(t.at(t.keys[j]).state is Pending));
    }
    false
}

/// How a service is shown. A stopped one is red if something needs it.
pub open spec fn svc_display(svc: ServiceModel, is_active: bool) -> SvcDisplayState {
    match svc.state {
        ServiceState::Stopped => if is_active {
            SvcDisplayState::Red
        } else {
            SvcDisplayState::Stopped
        },
        ServiceState::Crashed => SvcDisplayState::Red,
        ServiceState::Running => if all_probes_green(svc) {
            SvcDisplayState::Green
        } else {
            SvcDisplayState::Red
        },
    }
}

impl SvcDisplayState {
    /// The name of the state.
    pub open spec fn text(self) -> Str {
        match self {
            SvcDisplayState::Green => "green"@,
            SvcDisplayState::Red => "red"@,
            SvcDisplayState::Stopped => "stopped"@,
        }
    }

    /// The name of the state.
    pub fn as_str(&self) -> (r: &'static str)
        ensures
            r@ == self.text(),
    {
        match self {
            SvcDisplayState::Green => "green",
            SvcDisplayState::Red => "red",
            SvcDisplayState::Stopped => "stopped",
        }
    }

    /// How a service that is needed is shown.
    pub fn from_service(svc: &ServiceRuntime) -> (r: Self)
        requires
            svc.ok(),
        ensures
            r == svc_display(svc.deep_view(), true),
    {
        SvcDisplayState::from_service_active(svc, true)
    }

    /// How a service is shown. A stopped one is red if something needs it.
    pub fn from_service_active(svc: &ServiceRuntime, is_active: bool) -> (r: Self)
        requires
            svc.ok(),
        ensures
            r == svc_display(svc.deep_view(), is_active),
    {
        match svc.state {
            ServiceState::Stopped => if is_active {
                SvcDisplayState::Red
            } else {
                SvcDisplayState::Stopped
            },
            ServiceState::Crashed => SvcDisplayState::Red,
            ServiceState::Running => if service_all_green(svc) {
                SvcDisplayState::Green
            } else {
                SvcDisplayState::Red
            },
        }
    }
}

/// Whether one of some probes belongs to the service `n`.
pub open spec fn names_service(refs: Seq<RefModel>, n: Str) -> bool {
    exists|i: int| 0 <= i < refs.len() && (#[trigger] refs[i]).service == n
}

/// Whether something needs a service: it runs or crashed, an active target needs a probe of
/// it, or a running service starts after a probe of it.
pub open spec fn is_active(s: ServicesModel, ts: TargetsModel, n: Str) -> bool {
    ||| s.has(n) && !(s.at(n).state is Stopped)
    ||| exists|t: Str| #[trigger]
        ts.has(t) && ts.at(t).activated && names_service(ts.at(t).transitive_probes, n)
    ||| exists|k: Str| #[trigger]
        s.has(k) && s.at(k).state is Running && names_service(s.at(k).start_after, n)
}

fn add_services(active: &mut NameSet, refs: &Vec<ProbeRef>)
    requires
        old(active).wf(),
    ensures
        final(active).wf(),
        forall|n: Str| #[trigger]
            final(active).deep_view().contains(n) <==> old(active).deep_view().contains(n)
                || names_service(refs.deep_view(), n),
{
    let ghost start = active.deep_view();
    let ghost all = refs.deep_view();
    let mut i: usize = 0;
    while i < refs.len()
        invariant
            active.wf(),
            all == refs.deep_view(),
            i <= refs.len(),
            forall|n: Str| #[trigger]
                active.deep_view().contains(n) <==> start.contains(n) || names_service(
                    all.take(i as int),
                    n,
                ),
        decreases refs.len() - i,
    {
        let ghost before = active.deep_view();
        let ghost name = refs[i as int].service@;
        active.insert(refs[i].service.as_str());
        proof {
            lemma_with_name(before, name);
            assert forall|n: Str| #[trigger] active.deep_view().contains(n) <==> start.contains(n)
                || names_service(all.take(i + 1), n) by {
                let old_part = all.take(i as int);
                let new_part = all.take(i + 1);
                assert(before.contains(n) <==> start.contains(n) || names_service(old_part, n));
                if names_service(old_part, n) {
                    let j = choose|j: int| 0 <= j < old_part.len() && (#[trigger] old_part[j]).service
                        == n;
                    assert(new_part[j].service == n);
                }
                if n == name {
                    assert(new_part[i as int].service == n);
                }
                if names_service(new_part, n) {
                    let j = choose|j: int| 0 <= j < new_part.len() && (#[trigger] new_part[j]).service
                        == n;
                    if j < i {
                        assert(old_part[j].service == n);
                    }
                }
            }
        }
        i = i + 1;
    }
    assert(all.take(i as int) =~= all);
}

/// The services that something needs.
pub fn active_services(services: &Services, targets: &Targets) -> (r: NameSet)
    requires
        services.wf(),
        targets.wf(),
    ensures
        r.wf(),
        forall|n: Str| #[trigger]
            r.deep_view().contains(n) <==> is_active(
                services.deep_view(),
                targets.deep_view(),
                n,
            ),
{
    let ghost s = services.deep_view();
    let ghost ts = targets.deep_view();
    let mut active = NameSet::new();
    let n: usize = services.len();
    let mut i: usize = 0;
    while i < n
        invariant
            services.wf(),
            s == services.deep_view(),
            s.valid(),
            active.wf(),
            i <= n == s.keys.len(),
            forall|x: Str| #[trigger]
                active.deep_view().contains(x) <==> s.keys.take(i as int).contains(x) && !(s.at(
                    x,
                ).state is Stopped),
        decreases n - i,
    {
        let ghost before = active.deep_view();
        let ghost key = s.keys[i as int];
        if services.value(i).state != ServiceState::Stopped {
            active.insert(services.name(i).as_str());
        }
        proof {
            lemma_with_name(before, key);
            lemma_with_name(s.keys.take(i as int), key);
            assert(!s.keys.take(i as int).contains(key)) by {
                if s.keys.take(i as int).contains(key) {
                    let j = choose|j: int| 0 <= j < i && s.keys.take(i as int)[j] == key;
                    assert(s.keys[j] == s.keys[i as int]);
                }
            }
            assert(s.keys.take(i + 1) =~= s.keys.take(i as int).push(key));
            assert forall|x: Str| #[trigger] active.deep_view().contains(x) <==> s.keys.take(
                i + 1,
            ).contains(x) && !(s.at(x).state is Stopped) by {
                assert(before.contains(x) <==> s.keys.take(i as int).contains(x) && !(s.at(
                    x,
                ).state is Stopped));
            }
        }
        i = i + 1;
    }
    assert(s.keys.take(i as int) =~= s.keys);
    let ghost running = active.deep_view();
    let m: usize = targets.len();
    let mut i: usize = 0;
    while i < m
        invariant
            targets.wf(),
            ts == targets.deep_view(),
            ts.valid(),
            active.wf(),
            i <= m == ts.keys.len(),
            forall|x: Str| #[trigger]
                active.deep_view().contains(x) <==> running.contains(x) || target_needs(
                    ts,
                    i as int,
                    x,
                ),
        decreases m - i,
    {
        let ghost before = active.deep_view();
        let t = targets.value(i);
        if t.activated {
            add_services(&mut active, &t.transitive_probes);
        }
        proof {
            assert forall|x: Str| #[trigger] active.deep_view().contains(x) <==> running.contains(x)
                || target_needs(ts, i + 1, x) by {
                assert(before.contains(x) <==> running.contains(x) || target_needs(
                    ts,
                    i as int,
                    x,
                ));
                if target_needs(ts, i + 1, x) {
                    let j = choose|j: int| #[trigger] needs_at(ts, j, x) && 0 <= j < i + 1;
                    if j < i {
                        assert(needs_at(ts, j, x));
                    }
                }
                if target_needs(ts, i as int, x) {
                    let j = choose|j: int| #[trigger] needs_at(ts, j, x) && 0 <= j < i;
                    assert(needs_at(ts, j, x));
                }
                if active.deep_view().contains(x) && !before.contains(x) {
                    assert(needs_at(ts, i as int, x));
                }
            }
        }
        i = i + 1;
    }
    let ghost wanted = active.deep_view();
    let mut i: usize = 0;
    while i < n
        invariant
            services.wf(),
            s == services.deep_view(),
            s.valid(),
            active.wf(),
            i <= n == s.keys.len(),
            forall|x: Str| #[trigger]
                active.deep_view().contains(x) <==> wanted.contains(x) || service_needs(
                    s,
                    i as int,
                    x,
                ),
        decreases n - i,
    {
        let ghost before = active.deep_view();
        let svc = services.value(i);
        if svc.state == ServiceState::Running {
            add_services(&mut active, &svc.start_after);
        }
        proof {
            assert forall|x: Str| #[trigger] active.deep_view().contains(x) <==> wanted.contains(x)
                || service_needs(s, i + 1, x) by {
                assert(before.contains(x) <==> wanted.contains(x) || service_needs(
                    s,
                    i as int,
                    x,
                ));
                if service_needs(s, i + 1, x) {
                    let j = choose|j: int| #[trigger] starts_after_at(s, j, x) && 0 <= j < i + 1;
                    if j < i {
                        assert(starts_after_at(s, j, x));
                    }
                }
                if service_needs(s, i as int, x) {
                    let j = choose|j: int| #[trigger] starts_after_at(s, j, x) && 0 <= j < i;
                    assert(starts_after_at(s, j, x));
                }
                if active.deep_view().contains(x) && !before.contains(x) {
                    assert(starts_after_at(s, i as int, x));
                }
            }
        }
        i = i + 1;
    }
    proof {
        assert forall|x: Str| #[trigger] active.deep_view().contains(x) <==> is_active(
            s,
            ts,
            x,
        ) by {
            assert(wanted.contains(x) <==> running.contains(x) || target_needs(
                ts,
                ts.keys.len() as int,
                x,
            ));
            assert(running.contains(x) <==> s.keys.contains(x) && !(s.at(x).state is Stopped));
            if target_needs(ts, ts.keys.len() as int, x) {
                let j = choose|j: int| #[trigger] needs_at(ts, j, x) && 0 <= j < ts.keys.len();
                assert(ts.keys.contains(ts.keys[j]));
                assert(ts.has(ts.keys[j]));
            }
            if exists|t: Str| #[trigger]
                ts.has(t) && ts.at(t).activated && names_service(ts.at(t).transitive_probes, x) {
                let t = choose|t: Str| #[trigger]
                    ts.has(t) && ts.at(t).activated && names_service(ts.at(t).transitive_probes, x);
                let j = choose|j: int| 0 <= j < ts.keys.len() && ts.keys[j] == t;
                assert(needs_at(ts, j, x));
            }
            if service_needs(s, s.keys.len() as int, x) {
                let j = choose|j: int| #[trigger]
                    starts_after_at(s, j, x) && 0 <= j < s.keys.len();
                assert(s.keys.contains(s.keys[j]));
                assert(s.has(s.keys[j]));
            }
            if exists|k: Str| #[trigger]
                s.has(k) && s.at(k).state is Running && names_service(s.at(k).start_after, x) {
                let k = choose|k: Str| #[trigger]
                    s.has(k) && s.at(k).state is Running && names_service(s.at(k).start_after, x);
                let j = choose|j: int| 0 <= j < s.keys.len() && s.keys[j] == k;
                assert(starts_after_at(s, j, x));
            }
        }
    }
    active
}

spec fn needs_at(ts: TargetsModel, j: int, x: Str) -> bool {
    ts.at(ts.keys[j]).activated && names_service(ts.at(ts.keys[j]).transitive_probes, x)
}

spec fn target_needs(ts: TargetsModel, n: int, x: Str) -> bool {
    exists|j: int| #[trigger] needs_at(ts, j, x) && 0 <= j < n
}

spec fn starts_after_at(s: ServicesModel, j: int, x: Str) -> bool {
    s.at(s.keys[j]).state is Running && names_service(s.at(s.keys[j]).start_after, x)
}

spec fn service_needs(s: ServicesModel, n: int, x: Str) -> bool {
    exists|j: int| #[trigger] starts_after_at(s, j, x) && 0 <= j < n
}

/// The first of some probes of a service that is red.
pub open spec fn first_red_of(probes: Table<ProbeModel>, keys: Seq<Str>) -> Option<ProbeModel>
    decreases keys.len(),
{
    if keys.len() == 0 {
        None
    } else {
        match first_red_of(probes, keys.drop_last()) {
            Some(p) => Some(p),
            None => if probes.at(keys.last()).state is Red {
                Some(probes.at(keys.last()))
            } else {
                None
            },
        }
    }
}

proof fn lemma_first_red_of(probes: Table<ProbeModel>, keys: Seq<Str>, i: int)
    requires
        0 <= i <= keys.len(),
    ensures
        first_red_of(probes, keys.take(i)) is Some ==> first_red_of(probes, keys) == first_red_of(
            probes,
            keys.take(i),
        ),
    decreases keys.len() - i,
{
    if i < keys.len() {
        assert(keys.take(i + 1).drop_last() =~= keys.take(i));
        lemma_first_red_of(probes, keys, i + 1);
    } else {
        assert(keys.take(i) =~= keys);
    }
}

fn find_first_red(svc: &ServiceRuntime) -> (r: Option<&ProbeRuntime>)
    requires
        svc.ok(),
    ensures
        match r {
            Some(p) => first_red_of(svc.deep_view().probes, svc.deep_view().probes.keys) == Some(
                p.deep_view(),
            ) && p.deep_view().state is Red,
            None => first_red_of(svc.deep_view().probes, svc.deep_view().probes.keys) is None,
        },
{
    let ghost t = svc.probes.deep_view();
    let n: usize = svc.probes.len();
    let mut i: usize = 0;
    while i < n
        invariant
            svc.ok(),
            t == svc.probes.deep_view(),
            i <= n == t.keys.len(),
            first_red_of(t, t.keys.take(i as int)) is None,
        decreases n - i,
    {
        assert(t.keys.take(i + 1).drop_last() =~= t.keys.take(i as int));
        assert(t.keys.take(i + 1).last() == t.keys[i as int]);
        if svc.probes.value(i).state.is_red() {
            proof {
                lemma_first_red_of(t, t.keys, i + 1);
            }
            return Some(svc.probes.value(i));
        }
        i = i + 1;
    }
    assert(t.keys.take(i as int) =~= t.keys);
    None
}

/// Why a service is not green.
pub open spec fn svc_reason(display: SvcDisplayState, svc: ServiceModel) -> Option<Str> {
    if !(display is Red) {
        None
    } else {
        match svc.state {
            ServiceState::Stopped => Some("stopped"@),
            ServiceState::Crashed => Some("crashed"@),
            ServiceState::Running => match first_red_of(svc.probes, svc.probes.keys) {
                Some(ProbeModel { state: StateModel::Red(RedModel::ProbeFailed { .. }), .. }) => Some(
                    "probe failed"@,
                ),
                Some(ProbeModel { state: StateModel::Red(RedModel::DepRed { dep }), .. }) => Some(
                    "waiting for "@ + dep.service,
                ),
                _ => if any_probe_pending(svc) {
                    Some("probes pending"@)
                } else {
                    None
                },
            },
        }
    }
}

/// Why a service is not green.
pub fn compute_svc_reason(display: SvcDisplayState, svc: &ServiceRuntime) -> (r: Option<String>)
    requires
        svc.ok(),
    ensures
        r.deep_view() == svc_reason(display, svc.deep_view()),
{
    if display != SvcDisplayState::Red {
        return None;
    }
    match svc.state {
        ServiceState::Stopped => Some("stopped".to_owned()),
        ServiceState::Crashed => Some("crashed".to_owned()),
        ServiceState::Running => {
            if let Some(p) = find_first_red(svc) {
                match &p.state {
                    ProbeState::Red(RedReason::ProbeFailed(_)) => {
                        return Some("probe failed".to_owned());
                    },
                    ProbeState::Red(RedReason::DepRed { dep }) => {
                        return Some(cat("waiting for ", dep.service.as_str()));
                    },
                    _ => {},
                }
            }
            if service_any_pending(svc) {
                Some("probes pending".to_owned())
            } else {
                None
            }
        },
    }
}

/// The first red probe of a running service that is not green, with its cause.
pub open spec fn svc_detail(display: SvcDisplayState, svc: ServiceModel) -> Option<Str> {
    if display is Red && svc.state is Running {
        match first_red_of(svc.probes, svc.probes.keys) {
            Some(p) => match p.state.cause() {
                Some(d) => Some(p.probe_ref.text() + " → "@ + d),
                None => None,
            },
            None => None,
        }
    } else {
        None
    }
}

/// The first red probe of a running service that is not green, with its cause.
pub fn compute_svc_detail(display: SvcDisplayState, svc: &ServiceRuntime) -> (r: Option<String>)
    requires
        svc.ok(),
    ensures
        r.deep_view() == svc_detail(display, svc.deep_view()),
{
    if display != SvcDisplayState::Red || svc.state != ServiceState::Running {
        return None;
    }
    match find_first_red(svc) {
        Some(p) => match p.state.state_detail() {
            Some(d) => Some(cat3(p.probe_ref.to_string().as_str(), " → ", d.as_str())),
            None => None,
        },
        None => None,
    }
}

/// The root cause of a probe that is not green, found along at most `steps` dependencies.
pub open spec fn root_cause(s: ServicesModel, r: RefModel, steps: nat) -> Option<Str>
    decreases steps,
{
    if steps == 0 {
        Some("waiting for "@ + r.service)
    } else {
        match probe_at(s, r) {
            None => None,
            Some(p) => match p.state {
                StateModel::Green => None,
                StateModel::Pending(_) => Some("probes pending"@),
                StateModel::Red(RedModel::DepRed { dep }) => root_cause(s, dep, (steps - 1) as nat),
                StateModel::Red(RedModel::ProbeFailed { .. }) => Some(
                    "probe "@ + r.text() + " failed"@,
                ),
                StateModel::Red(RedModel::Stopped) => Some("service "@ + r.service + " stopped"@),
                StateModel::Red(RedModel::ContainerDied) => Some(
                    "service "@ + r.service + " crashed"@,
                ),
            },
        }
    }
}

/// The root cause of a probe that is not green, found along red dependencies. A chain that
/// is too long ends at the service it has come to.
pub fn target_reason(probe: &ProbeRef, services: &Services) -> (r: Option<String>)
    requires
        services.wf(),
    ensures
        r.deep_view() == root_cause(services.deep_view(), probe.deep_view(), 50),
{
    let ghost s = services.deep_view();
    let ghost goal = root_cause(s, probe.deep_view(), 50);
    let mut current = probe.clone();
    let mut left: u32 = 50;
    while left > 0
        invariant
            services.wf(),
            s == services.deep_view(),
            goal == root_cause(s, probe.deep_view(), 50),
            goal == root_cause(s, current.deep_view(), left as nat),
        decreases left,
    {
        match find_probe(services, &current) {
            None => {
                return None;
            },
            Some(p) => match &p.state {
                ProbeState::Red(RedReason::DepRed { dep }) => {
                    current = dep.clone();
                },
                ProbeState::Red(RedReason::ProbeFailed(_)) => {
                    return Some(cat3("probe ", current.to_string().as_str(), " failed"));
                },
                ProbeState::Red(RedReason::Stopped) => {
                    return Some(cat3("service ", current.service.as_str(), " stopped"));
                },
                ProbeState::Red(RedReason::ContainerDied) => {
                    return Some(cat3("service ", current.service.as_str(), " crashed"));
                },
                ProbeState::Pending(_) => {
                    return Some("probes pending".to_owned());
                },
                ProbeState::Green => {
                    return None;
                },
            },
        }
        left = left - 1;
    }
    Some(cat("waiting for ", current.service.as_str()))
}

/// A list of reasons after those of some targets are added, each once.
pub open spec fn with_target_reasons(reasons: Seq<Str>, dep_targets: Seq<Str>) -> Seq<Str>
    decreases dep_targets.len(),
{
    if dep_targets.len() == 0 {
        reasons
    } else {
        with_name(
            with_target_reasons(reasons, dep_targets.drop_last()),
            "target "@ + dep_targets.last() + " red"@,
        )
    }
}

/// A list of reasons after the root causes of some probes are added, each once.
pub open spec fn with_probe_reasons(
    s: ServicesModel,
    reasons: Seq<Str>,
    probes: Seq<RefModel>,
) -> Seq<Str>
    decreases probes.len(),
{
    if probes.len() == 0 {
        reasons
    } else {
        let so_far = with_probe_reasons(s, reasons, probes.drop_last());
        match root_cause(s, probes.last(), 50) {
            Some(r) => with_name(so_far, r),
            None => so_far,
        }
    }
}

/// Why a target is red, each reason once.
pub open spec fn target_reasons(state: TargetStateModel, s: ServicesModel) -> Seq<Str> {
    match state {
        TargetStateModel::Red { probes, dep_targets } => with_probe_reasons(
            s,
            with_target_reasons(Seq::empty(), dep_targets),
            probes,
        ),
        _ => Seq::empty(),
    }
}

fn add_reason(reasons: &mut Vec<String>, r: String)
    ensures
        final(reasons).deep_view() == with_name(old(reasons).deep_view(), r@),
{
    let ghost before = reasons.deep_view();
    if !list_contains(reasons, r.as_str()) {
        let ghost text = r@;
        reasons.push(r);
        assert(reasons.deep_view() =~= before.push(text));
    }
}

/// Why a target is red, each reason once.
pub fn compute_target_reasons(target_state: &TargetState, services: &Services) -> (r: Vec<String>)
    requires
        services.wf(),
    ensures
        r.deep_view() == target_reasons(target_state.deep_view(), services.deep_view()),
{
    let ghost s = services.deep_view();
    let mut reasons: Vec<String> = Vec::new();
    assert(reasons.deep_view() =~= Seq::<Str>::empty());
    if let TargetState::Red { probes, dep_targets } = target_state {
        let mut i: usize = 0;
        while i < dep_targets.len()
            invariant
                i <= dep_targets.len(),
                reasons.deep_view() == with_target_reasons(
                    Seq::empty(),
                    dep_targets.deep_view().take(i as int),
                ),
            decreases dep_targets.len() - i,
        {
            let ghost next = dep_targets.deep_view().take(i + 1);
            assert(next.drop_last() =~= dep_targets.deep_view().take(i as int));
            assert(next.last() == dep_targets[i as int]@);
            add_reason(&mut reasons, cat3("target ", dep_targets[i].as_str(), " red"));
            i = i + 1;
        }
        assert(dep_targets.deep_view().take(i as int) =~= dep_targets.deep_view());
        let ghost first = reasons.deep_view();
        let mut i: usize = 0;
        while i < probes.len()
            invariant
                services.wf(),
                s == services.deep_view(),
                i <= probes.len(),
                reasons.deep_view() == with_probe_reasons(
                    s,
                    first,
                    probes.deep_view().take(i as int),
                ),
            decreases probes.len() - i,
        {
            let ghost next = probes.deep_view().take(i + 1);
            assert(next.drop_last() =~= probes.deep_view().take(i as int));
            assert(next.last() == probes[i as int].deep_view());
            if let Some(r) = target_reason(&probes[i], services) {
                add_reason(&mut reasons, r);
            }
            i = i + 1;
        }
        assert(probes.deep_view().take(i as int) =~= probes.deep_view());
    }
    reasons
}

} // verus!
