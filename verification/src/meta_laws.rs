//! Meta probes follow what they depend on.
use crate::batch::{
    law_meta_state, lemma_same_deps_refl, lemma_same_deps_trans, lemma_set_same_deps, meta_names,
    meta_state, update_meta, update_metas, update_service, Progress,
};
use crate::model::{RefModel, StateModel};
use crate::ordered_map::Table;
use crate::probe_meta::{
    acyclic, deps_satisfied, lemma_same_deps, rank_of, ranked_by, same_deps, satisfied,
};
use crate::propagate::moved;
use crate::propagate_laws::lemma_set_probe;
use crate::runtime::{probe_at, ProbeModel, ServicesModel};
use crate::text::Str;
use vstd::prelude::*;

verus! {

/// Whether the probe `q` is `m`, or depends on it, directly or through others.
pub open spec fn relies_on(s: ServicesModel, q: RefModel, m: RefModel) -> bool
    decreases rank_of(s, q),
    when acyclic(s)
{
    q == m || (probe_at(s, q) is Some && exists|i: int|
        0 <= i < probe_at(s, q)->0.depends_on.len() && relies_on(
            s,
            #[trigger] probe_at(s, q)->0.depends_on[i],
            m,
        ))
}

proof fn lemma_rank(s: ServicesModel, q: RefModel, i: int)
    requires
        acyclic(s),
        probe_at(s, q) is Some,
        0 <= i < probe_at(s, q)->0.depends_on.len(),
    ensures
        rank_of(s, probe_at(s, q)->0.depends_on[i]) < rank_of(s, q),
{
    let rank = choose|rank: spec_fn(RefModel) -> nat| ranked_by(s, rank);
    assert(rank(probe_at(s, q)->0.depends_on[i]) < rank(q));
}

proof fn lemma_relies_rank(s: ServicesModel, q: RefModel, m: RefModel)
    requires
        acyclic(s),
        relies_on(s, q, m),
    ensures
        rank_of(s, m) <= rank_of(s, q),
    decreases rank_of(s, q),
{
    if q != m {
        let i = choose|i: int|
            0 <= i < probe_at(s, q)->0.depends_on.len() && relies_on(
                s,
                #[trigger] probe_at(s, q)->0.depends_on[i],
                m,
            );
        lemma_rank(s, q, i);
        lemma_relies_rank(s, probe_at(s, q)->0.depends_on[i], m);
    }
}

/// Whether two tables of services differ in one probe alone, and not in its dependencies.
spec fn differ_at(s: ServicesModel, t: ServicesModel, m: RefModel) -> bool {
    &&& forall|q: RefModel| q != m ==> #[trigger] probe_at(t, q) == probe_at(s, q)
    &&& forall|k: Str| s.has(k) ==> (#[trigger] t.at(k)).state == s.at(k).state
}

/// Whether a probe is satisfied does not depend on one that it does not rely on.
proof fn lemma_satisfied_apart(
    s0: ServicesModel,
    s: ServicesModel,
    t: ServicesModel,
    m: RefModel,
    q: RefModel,
)
    requires
        acyclic(s0),
        same_deps(s0, s),
        same_deps(s0, t),
        differ_at(s, t, m),
        !relies_on(s0, q, m),
    ensures
        satisfied(s, q) == satisfied(t, q),
    decreases rank_of(s0, q),
{
    lemma_same_deps(s0, s);
    lemma_same_deps(s0, t);
    assert(probe_at(t, q) == probe_at(s, q));
    if probe_at(s, q) is Some {
        assert(probe_at(s0, q) is Some);
        let deps = probe_at(s0, q)->0.depends_on;
        assert(probe_at(s, q)->0.depends_on == deps);
        assert forall|i: int| 0 <= i < deps.len() implies satisfied(s, #[trigger] deps[i])
            == satisfied(t, deps[i]) by {
            lemma_rank(s0, q, i);
            assert(!relies_on(s0, probe_at(s0, q)->0.depends_on[i], m));
            lemma_satisfied_apart(s0, s, t, m, deps[i]);
        }
        if satisfied(s, q) {
            assert forall|i: int| 0 <= i < probe_at(t, q)->0.depends_on.len() implies satisfied(
                t,
                #[trigger] probe_at(t, q)->0.depends_on[i],
            ) by {
                assert(satisfied(s, probe_at(s, q)->0.depends_on[i]));
                assert(satisfied(s, deps[i]));
            }
        }
        if satisfied(t, q) {
            assert forall|i: int| 0 <= i < probe_at(s, q)->0.depends_on.len() implies satisfied(
                s,
                #[trigger] probe_at(s, q)->0.depends_on[i],
            ) by {
                assert(satisfied(t, probe_at(t, q)->0.depends_on[i]));
                assert(satisfied(t, deps[i]));
            }
        }
    }
}

/// Whether what a probe depends on is satisfied does not depend on one that none of it relies
/// on.
proof fn lemma_deps_apart(
    s0: ServicesModel,
    s: ServicesModel,
    t: ServicesModel,
    m: RefModel,
    q: RefModel,
)
    requires
        acyclic(s0),
        same_deps(s0, s),
        same_deps(s0, t),
        differ_at(s, t, m),
        probe_at(s0, q) is Some,
        forall|i: int|
            0 <= i < probe_at(s0, q)->0.depends_on.len() ==> !relies_on(
                s0,
                #[trigger] probe_at(s0, q)->0.depends_on[i],
                m,
            ),
    ensures
        deps_satisfied(s, q) == deps_satisfied(t, q),
{
    let deps = probe_at(s0, q)->0.depends_on;
    let (p, u) = (probe_at(s, q), probe_at(t, q));
    assert(p is Some && p->0.depends_on == deps);
    assert(u is Some && u->0.depends_on == deps);
    assert forall|i: int| 0 <= i < deps.len() implies satisfied(s, #[trigger] deps[i])
        == satisfied(t, deps[i]) by {
        assert(!relies_on(s0, probe_at(s0, q)->0.depends_on[i], m));
        lemma_satisfied_apart(s0, s, t, m, deps[i]);
    }
    if deps_satisfied(s, q) {
        assert forall|i: int| 0 <= i < probe_at(t, q)->0.depends_on.len() implies satisfied(
            t,
            #[trigger] probe_at(t, q)->0.depends_on[i],
        ) by {
            assert(satisfied(s, probe_at(s, q)->0.depends_on[i]));
            assert(satisfied(s, deps[i]));
        }
    }
    if deps_satisfied(t, q) {
        assert forall|i: int| 0 <= i < probe_at(s, q)->0.depends_on.len() implies satisfied(
            s,
            #[trigger] probe_at(s, q)->0.depends_on[i],
        ) by {
            assert(satisfied(t, probe_at(t, q)->0.depends_on[i]));
            assert(satisfied(t, deps[i]));
        }
    }
}

/// Whether a state is green just where all that the probe depends on is satisfied, and else
/// red or pending behind one that it depends on.
pub open spec fn follows(s: ServicesModel, r: RefModel) -> bool {
    probe_at(s, r) matches Some(p) && (p.state is Green <==> deps_satisfied(s, r)) && (p.state
        is Green || (p.state matches StateModel::Red(x) && x is DepRed) || (
    p.state matches StateModel::Pending(x) && x is DepNotReady))
}

/// Whether the named probes of a service do not rely on one another.
pub open spec fn apart(s: ServicesModel, svc: Str, names: Seq<Str>) -> bool {
    forall|i: int, j: int|
        0 <= i < names.len() && 0 <= j < names.len() && i != j ==> !relies_on(
            s,
            RefModel { service: svc, probe: #[trigger] names[i] },
            RefModel { service: svc, probe: #[trigger] names[j] },
        )
}

proof fn lemma_metas_follow(at: Progress, svc: Str, names: Seq<Str>)
    requires
        acyclic(at.services),
        names.no_duplicates(),
        apart(at.services, svc, names),
        forall|i: int|
            0 <= i < names.len() ==> probe_at(
                at.services,
                RefModel { service: svc, probe: #[trigger] names[i] },
            ) is Some,
    ensures
        ({
            let b = update_metas(at, svc, names);
            &&& same_deps(at.services, b.services)
            &&& forall|i: int|
                0 <= i < names.len() ==> follows(
                    b.services,
                    RefModel { service: svc, probe: #[trigger] names[i] },
                ) && b.report.statuses.has((RefModel { service: svc, probe: names[i] }).text())
            &&& forall|q: RefModel|
                !(q.service == svc && names.contains(q.probe)) ==> #[trigger] probe_at(
                    b.services,
                    q,
                ) == probe_at(at.services, q)
            &&& forall|k: Str| #[trigger] b.services.has(k) == at.services.has(k)
            &&& forall|k: Str|
                at.services.has(k) ==> (#[trigger] b.services.at(k)).state == at.services.at(
                    k,
                ).state
        }),
    decreases names.len(),
{
    let s0 = at.services;
    if names.len() == 0 {
        lemma_same_deps_refl(s0);
    } else {
        let front = names.drop_last();
        let n = names.len() - 1;
        assert(forall|i: int| 0 <= i < front.len() ==> #[trigger] front[i] == names[i]);
        assert(apart(s0, svc, front)) by {
            assert forall|i: int, j: int|
                0 <= i < front.len() && 0 <= j < front.len() && i != j implies !relies_on(
                s0,
                RefModel { service: svc, probe: #[trigger] front[i] },
                RefModel { service: svc, probe: #[trigger] front[j] },
            ) by {
                assert(front[i] == names[i] && front[j] == names[j]);
            }
        }
        lemma_metas_follow(at, svc, front);
        let a = update_metas(at, svc, front);
        let b = update_metas(at, svc, names);
        let m = RefModel { service: svc, probe: names[n] };
        let (s, t) = (a.services, b.services);
        assert(b == update_meta(a, m));
        assert(probe_at(s0, m) is Some);
        assert(probe_at(s, m) is Some);
        let p = probe_at(s, m)->0;
        let state = meta_state(s, m);
        lemma_set_probe(s, m, moved(p, state));
        lemma_set_same_deps(s, m, moved(p, state));
        lemma_same_deps_trans(s0, s, t);
        lemma_same_deps(s0, s);
        lemma_same_deps(s0, t);
        law_meta_state(s, m);
        assert(differ_at(s, t, m));
        // What `m` depends on does not rely on it.
        assert forall|i: int| 0 <= i < probe_at(s0, m)->0.depends_on.len() implies !relies_on(
            s0,
            #[trigger] probe_at(s0, m)->0.depends_on[i],
            m,
        ) by {
            lemma_rank(s0, m, i);
            if relies_on(s0, probe_at(s0, m)->0.depends_on[i], m) {
                lemma_relies_rank(s0, probe_at(s0, m)->0.depends_on[i], m);
            }
        }
        lemma_deps_apart(s0, s, t, m, m);
        assert(follows(t, m));
        assert forall|i: int| 0 <= i < names.len() implies follows(
            t,
            RefModel { service: svc, probe: #[trigger] names[i] },
        ) && b.report.statuses.has((RefModel { service: svc, probe: names[i] }).text()) by {
            let r = RefModel { service: svc, probe: names[i] };
            if i < n {
                assert(front[i] == names[i]);
                assert(follows(s, r));
                assert(!relies_on(s0, r, m));
                assert(probe_at(s0, r) is Some);
                assert forall|j: int|
                    0 <= j < probe_at(s0, r)->0.depends_on.len() implies !relies_on(
                    s0,
                    #[trigger] probe_at(s0, r)->0.depends_on[j],
                    m,
                ) by {}
                lemma_deps_apart(s0, s, t, m, r);
                assert(probe_at(t, r) == probe_at(s, r));
            }
        }
        assert forall|q: RefModel|
            !(q.service == svc && names.contains(q.probe)) implies #[trigger] probe_at(t, q)
            == probe_at(s0, q) by {
            assert(names.contains(names[n]));
            if front.contains(q.probe) {
                let i = choose|i: int| 0 <= i < front.len() && front[i] == q.probe;
                assert(names[i] == q.probe);
            }
            assert(probe_at(s, q) == probe_at(s0, q));
        }
    }
}

proof fn lemma_meta_names(probes: Table<ProbeModel>, keys: Seq<Str>)
    requires
        keys.no_duplicates(),
    ensures
        meta_names(probes, keys).no_duplicates(),
        forall|p: Str| #[trigger]
            meta_names(probes, keys).contains(p) <==> keys.contains(p) && probes.at(
                p,
            ).probe_config is Meta,
    decreases keys.len(),
{
    if keys.len() > 0 {
        let front = keys.drop_last();
        let last = keys[keys.len() - 1];
        let (a, b) = (meta_names(probes, front), meta_names(probes, keys));
        lemma_meta_names(probes, front);
        assert(!front.contains(last));
        assert(!a.contains(last));
        assert forall|i: int, j: int| 0 <= i < j < b.len() implies b[i] != b[j] by {
            if j >= a.len() {
                assert(a.contains(a[i]));
            }
        }
        assert forall|p: Str| #[trigger] b.contains(p) <==> keys.contains(p) && probes.at(
            p,
        ).probe_config is Meta by {
            if b.contains(p) {
                let i = choose|i: int| 0 <= i < b.len() && b[i] == p;
                if i < a.len() {
                    assert(a[i] == p);
                    assert(a.contains(p));
                    let j = choose|j: int| 0 <= j < front.len() && front[j] == p;
                    assert(keys[j] == p);
                }
            }
            if keys.contains(p) && probes.at(p).probe_config is Meta {
                let i = choose|i: int| 0 <= i < keys.len() && keys[i] == p;
                if i < front.len() {
                    assert(front[i] == p);
                    assert(a.contains(p));
                    let j = choose|j: int| 0 <= j < a.len() && a[j] == p;
                    assert(b[j] == p);
                } else {
                    assert(b[a.len() as int] == p);
                }
            }
        }
    }
}

/// Once the meta probes of a service are brought up to date, each is green if and only if all
/// that it depends on is satisfied, and is told, if none of them relies on another. Nothing
/// else changes.
pub proof fn law_metas_follow(at: Progress, svc: Str)
    requires
        acyclic(at.services),
        at.services.has(svc),
        at.services.at(svc).probes.valid(),
        apart(
            at.services,
            svc,
            meta_names(at.services.at(svc).probes, at.services.at(svc).probes.keys),
        ),
    ensures
        ({
            let b = update_service(at, svc);
            &&& forall|q: RefModel| #[trigger]
                probe_at(b.services, q) is Some && q.service == svc && probe_at(
                    at.services,
                    q,
                )->0.probe_config is Meta ==> follows(b.services, q) && b.report.statuses.has(
                    q.text(),
                )
            &&& forall|q: RefModel|
                !(q.service == svc && (probe_at(at.services, q) matches Some(p)
                    && p.probe_config is Meta)) ==> #[trigger] probe_at(b.services, q) == probe_at(
                    at.services,
                    q,
                )
            &&& forall|k: Str| #[trigger] b.services.has(k) == at.services.has(k)
            &&& forall|k: Str|
                at.services.has(k) ==> (#[trigger] b.services.at(k)).state == at.services.at(
                    k,
                ).state
        }),
{
    let probes = at.services.at(svc).probes;
    let names = meta_names(probes, probes.keys);
    lemma_meta_names(probes, probes.keys);
    assert forall|p: Str| #[trigger] names.contains(p) <==> probes.has(p) && probes.at(
        p,
    ).probe_config is Meta by {
        assert(probes.map.contains_key(p) <==> probes.keys.contains(p));
    }
    assert forall|i: int| 0 <= i < names.len() implies probe_at(
        at.services,
        RefModel { service: svc, probe: #[trigger] names[i] },
    ) is Some by {
        assert(names.contains(names[i]));
    }
    lemma_metas_follow(at, svc, names);
    let b = update_service(at, svc);
    assert forall|q: RefModel| #[trigger]
        probe_at(b.services, q) is Some && q.service == svc && probe_at(
            at.services,
            q,
        )->0.probe_config is Meta implies follows(b.services, q) && b.report.statuses.has(
        q.text(),
    ) by {
        assert(probe_at(at.services, q) is Some);
        assert(names.contains(q.probe));
        let i = choose|i: int| 0 <= i < names.len() && names[i] == q.probe;
        assert(RefModel { service: svc, probe: names[i] } == q);
    }
}

} // verus!
