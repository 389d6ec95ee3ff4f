//! Meta probes: satisfied when all that they depend on is.
use crate::model::{ProbeRef, RefModel, ServiceState};
use crate::runtime::{find_probe, probe_at, Services, ServicesModel};
use vstd::prelude::*;

verus! {

/// Whether each probe has a higher rank than all that it depends on.
pub open spec fn ranked_by(s: ServicesModel, rank: spec_fn(RefModel) -> nat) -> bool {
    forall|r: RefModel, i: int|
        #![trigger probe_at(s, r)->0.depends_on[i]]
        probe_at(s, r) is Some && 0 <= i < probe_at(s, r)->0.depends_on.len() ==> rank(
            probe_at(s, r)->0.depends_on[i],
        ) < rank(r)
}

/// Whether no probe depends on itself, directly or through others.
pub open spec fn acyclic(s: ServicesModel) -> bool {
    exists|rank: spec_fn(RefModel) -> nat| ranked_by(s, rank)
}

/// A rank of each probe, above all that it depends on.
pub open spec fn rank_of(s: ServicesModel, r: RefModel) -> nat {
    (choose|rank: spec_fn(RefModel) -> nat| ranked_by(s, rank))(r)
}

/// Whether a probe is green, its service runs, and so it is with all that it depends on.
pub open spec fn satisfied(s: ServicesModel, r: RefModel) -> bool
    decreases rank_of(s, r),
    when acyclic(s)
{
    &&& probe_at(s, r) is Some
    &&& s.at(r.service).state is Running
    &&& probe_at(s, r)->0.state is Green
    &&& forall|i: int|
        0 <= i < probe_at(s, r)->0.depends_on.len() ==> satisfied(
            s,
            #[trigger] probe_at(s, r)->0.depends_on[i],
        )
}

/// Whether all that a probe depends on is satisfied.
pub open spec fn deps_satisfied(s: ServicesModel, r: RefModel) -> bool {
    &&& probe_at(s, r) is Some
    &&& forall|i: int|
        0 <= i < probe_at(s, r)->0.depends_on.len() ==> satisfied(
            s,
            #[trigger] probe_at(s, r)->0.depends_on[i],
        )
}

/// Whether all that a meta probe depends on is satisfied.
pub fn is_satisfied(probe_ref: &ProbeRef, services: &Services) -> (b: bool)
    requires
        services.wf(),
        acyclic(services.deep_view()),
    ensures
        b == deps_satisfied(services.deep_view(), probe_ref.deep_view()),
{
    let ghost s = services.deep_view();
    let ghost r = probe_ref.deep_view();
    match find_probe(services, probe_ref) {
        None => false,
        Some(p) => {
            let mut i: usize = 0;
            while i < p.depends_on.len()
                invariant
                    services.wf(),
                    s == services.deep_view(),
                    r == probe_ref.deep_view(),
                    acyclic(s),
                    probe_at(s, r) == Some(p.deep_view()),
                    i <= p.depends_on.len(),
                    forall|j: int|
                        0 <= j < i ==> satisfied(s, #[trigger] probe_at(s, r)->0.depends_on[j]),
                decreases p.depends_on.len() - i,
            {
                assert(probe_at(s, r)->0.depends_on[i as int] == p.depends_on[i as int].deep_view());
                if !is_probe_satisfied(&p.depends_on[i], services) {
                    return false;
                }
                i = i + 1;
            }
            true
        },
    }
}

/// Whether a probe is green, its service runs, and so it is with all that it depends on.
pub fn is_probe_satisfied(probe_ref: &ProbeRef, services: &Services) -> (b: bool)
    requires
        services.wf(),
        acyclic(services.deep_view()),
    ensures
        b == satisfied(services.deep_view(), probe_ref.deep_view()),
    decreases rank_of(services.deep_view(), probe_ref.deep_view()),
{
    let ghost s = services.deep_view();
    let ghost r = probe_ref.deep_view();
    let running = match services.get(probe_ref.service.as_str()) {
        Some(svc) => svc.state == ServiceState::Running,
        None => false,
    };
    if !running {
        return false;
    }
    match find_probe(services, probe_ref) {
        None => false,
        Some(p) => {
            if !p.state.is_green() {
                return false;
            }
            let mut i: usize = 0;
            while i < p.depends_on.len()
                invariant
                    services.wf(),
                    s == services.deep_view(),
                    r == probe_ref.deep_view(),
                    acyclic(s),
                    probe_at(s, r) == Some(p.deep_view()),
                    i <= p.depends_on.len(),
                    forall|j: int|
                        0 <= j < i ==> satisfied(s, #[trigger] probe_at(s, r)->0.depends_on[j]),
                decreases p.depends_on.len() - i,
            {
                assert(probe_at(s, r)->0.depends_on[i as int] == p.depends_on[i as int].deep_view());
                proof {
                    let rank = choose|rank: spec_fn(RefModel) -> nat| ranked_by(s, rank);
                    assert(ranked_by(s, rank));
                    assert(rank(probe_at(s, r)->0.depends_on[i as int]) < rank(r));
                }
                if !is_probe_satisfied(&p.depends_on[i], services) {
                    return false;
                }
                i = i + 1;
            }
            true
        },
    }
}

/// Whether two tables hold the same probes, with the same dependencies.
pub open spec fn same_deps(a: ServicesModel, b: ServicesModel) -> bool {
    forall|r: RefModel|
        match (#[trigger] probe_at(a, r), probe_at(b, r)) {
            (None, None) => true,
            (Some(p), Some(q)) => p.depends_on == q.depends_on,
            _ => false,
        }
}

/// What does not touch dependencies makes no cycle.
pub proof fn lemma_same_deps(a: ServicesModel, b: ServicesModel)
    requires
        acyclic(a),
        same_deps(a, b),
    ensures
        acyclic(b),
{
    let rank = choose|rank: spec_fn(RefModel) -> nat| ranked_by(a, rank);
    assert(ranked_by(b, rank)) by {
        assert forall|r: RefModel, i: int|
            #![trigger probe_at(b, r)->0.depends_on[i]]
            probe_at(b, r) is Some && 0 <= i < probe_at(b, r)->0.depends_on.len() implies rank(
            probe_at(b, r)->0.depends_on[i],
        ) < rank(r) by {
            assert(probe_at(a, r) is Some);
            assert(rank(probe_at(a, r)->0.depends_on[i]) < rank(r));
        }
    }
}

} // verus!
