//! What holds of every change that is passed on along dependencies.
use crate::graph::Layer;
use crate::model::{lemma_ref_text, parse_ref, PendingModel, RefModel, StateModel};
use crate::names::{lemma_unseen_less, lemma_with_name, unseen};
use crate::propagate::{
    lemma_next_nodes, moved, other_red, passed_on, pending_result, recovery_result, start_walk,
    visit_pending, visit_recovery, walk_pending, walk_recovery, ChangeModel, Walk,
};
use crate::runtime::{green_at, probe_at, red_at, set_probe, ProbeModel, ServiceModel, ServicesModel};
use crate::text::Str;
use vstd::prelude::*;

verus! {

/// Replacing a probe changes what its own reference names, and nothing else.
pub proof fn lemma_set_probe(s: ServicesModel, r: RefModel, p: ProbeModel)
    requires
        probe_at(s, r) is Some,
    ensures
        probe_at(set_probe(s, r, p), r) == Some(p),
        forall|q: RefModel|
            q != r ==> #[trigger] probe_at(set_probe(s, r, p), q) == probe_at(s, q),
        set_probe(s, r, p).keys == s.keys,
        forall|k: Str| #[trigger] set_probe(s, r, p).has(k) == s.has(k),
        forall|k: Str|
            s.has(k) ==> only_probes_differ(s.at(k), #[trigger] set_probe(s, r, p).at(k)),
        s.valid() ==> set_probe(s, r, p).valid(),
{
    let t = set_probe(s, r, p);
    assert(forall|k: Str| #[trigger] t.map.contains_key(k) == s.map.contains_key(k));
}

/// Whether two services are the same but for the probes' values.
pub open spec fn only_probes_differ(a: ServiceModel, b: ServiceModel) -> bool {
    &&& (ServiceModel { probes: b.probes, ..a }) == b
    &&& a.probes.keys == b.probes.keys
    &&& forall|p: Str| #[trigger] a.probes.has(p) == b.probes.has(p)
}

/// Whether two tables hold the same services and probes, which may differ in the values of
/// the probes alone.
pub open spec fn only_probes_changed(a: ServicesModel, b: ServicesModel) -> bool {
    &&& a.keys == b.keys
    &&& forall|k: Str| #[trigger] a.has(k) == b.has(k)
    &&& forall|k: Str| #[trigger] a.has(k) ==> only_probes_differ(a.at(k), b.at(k))
}

/// Whether a probe that is `a` may be `b` after a change was passed on to it: a green one
/// becomes pending or red, a pending one red, and the reason names a dependency.
pub open spec fn may_be_passed(a: StateModel, b: StateModel) -> bool {
    match b {
        StateModel::Green => false,
        StateModel::Pending(r) => a is Green && r is DepNotReady,
        StateModel::Red(r) => (a is Green || a is Pending) && r is DepRed,
    }
}

/// Whether a probe that is `a` may be `b` after a recovery was passed on to it: it awaits a
/// check, and neither awaited one nor failed by itself.
pub open spec fn may_be_recovered(a: StateModel, b: StateModel) -> bool {
    &&& !(a is Pending)
    &&& !a.probe_failed()
    &&& (b matches StateModel::Pending(r) && r is DepRecovered)
}

/// Whether the probe that `r` names has stayed as it was, or belongs to a running service
/// and has moved as `allowed` says.
pub open spec fn kept_or_moved(
    a: ServicesModel,
    b: ServicesModel,
    r: RefModel,
    recovery: bool,
) -> bool {
    match (probe_at(a, r), probe_at(b, r)) {
        (None, None) => true,
        (Some(p), Some(q)) => p == q || (a.at(r.service).state is Running && q == moved(p, q.state)
            && (if recovery {
            may_be_recovered(p.state, q.state)
        } else {
            may_be_passed(p.state, q.state)
        })),
        _ => false,
    }
}

spec fn tame(a: ServicesModel, w: Walk, recovery: bool) -> bool {
    &&& only_probes_changed(a, w.services)
    &&& forall|r: RefModel| #[trigger] kept_or_moved(a, w.services, r, recovery)
    &&& forall|r: RefModel|
        !w.visited.contains(#[trigger] r.text()) ==> probe_at(w.services, r) == probe_at(a, r)
}

proof fn lemma_visit_pending_tame(g: Layer, a: ServicesModel, w: Walk, from: Str, key: Str)
    requires
        tame(a, w, false),
    ensures
        tame(a, visit_pending(g, w, from, key), false),
{
    let v = visit_pending(g, w, from, key);
    if !w.visited.contains(key) && g.nodes.contains(key) {
        lemma_with_name(w.visited, key);
        if let Some(r) = parse_ref(key) {
            lemma_ref_text(key);
            if let Some(p) = probe_at(w.services, r) {
                let state = passed_on(from, w.red.contains(from));
                lemma_set_probe(w.services, r, moved(p, state));
                assert(a.has(r.service));
                assert(only_probes_differ(a.at(r.service), w.services.at(r.service)));
                assert forall|q: RefModel| #[trigger] kept_or_moved(a, v.services, q, false) by {
                    assert(kept_or_moved(a, w.services, q, false));
                }
                assert(only_probes_changed(a, v.services)) by {
                    assert forall|k: Str| #[trigger] a.has(k) == v.services.has(k) by {
                        assert(a.has(k) == w.services.has(k));
                    }
                    assert forall|k: Str| #[trigger] a.has(k) implies only_probes_differ(
                        a.at(k),
                        v.services.at(k),
                    ) by {
                        assert(only_probes_differ(a.at(k), w.services.at(k)));
                    }
                }
            }
        }
    }
}

proof fn lemma_visit_recovery_tame(g: Layer, a: ServicesModel, w: Walk, from: Str, key: Str)
    requires
        tame(a, w, true),
    ensures
        tame(a, visit_recovery(g, w, from, key), true),
{
    let v = visit_recovery(g, w, from, key);
    if !w.visited.contains(key) && g.nodes.contains(key) {
        lemma_with_name(w.visited, key);
        if let Some(r) = parse_ref(key) {
            lemma_ref_text(key);
            if let Some(p) = probe_at(w.services, r) {
                let state = StateModel::Pending(
                    PendingModel::DepRecovered { dep: parse_ref(from)->0 },
                );
                lemma_set_probe(w.services, r, moved(p, state));
                assert(a.has(r.service));
                assert(only_probes_differ(a.at(r.service), w.services.at(r.service)));
                assert forall|q: RefModel| #[trigger] kept_or_moved(a, v.services, q, true) by {
                    assert(kept_or_moved(a, w.services, q, true));
                }
                assert(only_probes_changed(a, v.services)) by {
                    assert forall|k: Str| #[trigger] a.has(k) == v.services.has(k) by {
                        assert(a.has(k) == w.services.has(k));
                    }
                    assert forall|k: Str| #[trigger] a.has(k) implies only_probes_differ(
                        a.at(k),
                        v.services.at(k),
                    ) by {
                        assert(only_probes_differ(a.at(k), w.services.at(k)));
                    }
                }
            }
        }
    }
}

proof fn lemma_walk_pending_tame(g: Layer, a: ServicesModel, w: Walk, from: Str, next: Seq<Str>)
    requires
        tame(a, w, false),
    ensures
        tame(a, walk_pending(g, w, from, next), false),
    decreases unseen(g.nodes, w.visited), w.queue.len(), next.len(),
{
    if next.len() > 0 {
        if !w.visited.contains(next[0]) && g.nodes.contains(next[0]) {
            lemma_unseen_less(g.nodes, w.visited, next[0]);
        }
        lemma_visit_pending_tame(g, a, w, from, next[0]);
        lemma_walk_pending_tame(
            g,
            a,
            visit_pending(g, w, from, next[0]),
            from,
            next.drop_first(),
        );
    } else if w.queue.len() > 0 {
        lemma_walk_pending_tame(
            g,
            a,
            Walk { queue: w.queue.drop_first(), ..w },
            w.queue[0],
            g.next(w.queue[0]),
        );
    }
}

proof fn lemma_walk_recovery_tame(g: Layer, a: ServicesModel, w: Walk, from: Str, next: Seq<Str>)
    requires
        tame(a, w, true),
    ensures
        tame(a, walk_recovery(g, w, from, next), true),
    decreases unseen(g.nodes, w.visited), w.queue.len(), next.len(),
{
    if next.len() > 0 {
        if !w.visited.contains(next[0]) && g.nodes.contains(next[0]) {
            lemma_unseen_less(g.nodes, w.visited, next[0]);
        }
        lemma_visit_recovery_tame(g, a, w, from, next[0]);
        lemma_walk_recovery_tame(
            g,
            a,
            visit_recovery(g, w, from, next[0]),
            from,
            next.drop_first(),
        );
    } else if w.queue.len() > 0 {
        lemma_walk_recovery_tame(
            g,
            a,
            Walk { queue: w.queue.drop_first(), ..w },
            w.queue[0],
            g.next(w.queue[0]),
        );
    }
}

proof fn lemma_start_tame(a: ServicesModel, w: Walk, recovery: bool)
    requires
        w.services == a,
    ensures
        tame(a, w, recovery),
{
    assert forall|r: RefModel| #[trigger] kept_or_moved(a, w.services, r, recovery) by {}
}

/// Passing a change on touches the probes of running services alone. It never touches a
/// red probe, so that a probe that failed by itself stays so. A green probe may become
/// pending or red and a pending one red, because of a dependency that the reason names.
pub proof fn law_pending_keeps_failures(
    g: Layer,
    key: Str,
    services: ServicesModel,
    changes: Seq<ChangeModel>,
    r: RefModel,
)
    ensures
        only_probes_changed(services, pending_result(g, key, services, changes).services),
        kept_or_moved(services, pending_result(g, key, services, changes).services, r, false),
{
    let red = parse_ref(key) is Some && red_at(services, parse_ref(key)->0);
    let w = start_walk(key, red, services, changes);
    lemma_start_tame(services, w, false);
    lemma_walk_pending_tame(g, services, w, Seq::empty(), Seq::empty());
}

/// Passing a recovery on touches the probes of running services alone. It never touches a
/// probe that failed by itself or that awaits a check. What it touches awaits a check.
pub proof fn law_recovery_keeps_failures(
    g: Layer,
    key: Str,
    services: ServicesModel,
    changes: Seq<ChangeModel>,
    r: RefModel,
)
    ensures
        only_probes_changed(services, recovery_result(g, key, services, changes).services),
        kept_or_moved(services, recovery_result(g, key, services, changes).services, r, true),
{
    let w = start_walk(key, false, services, changes);
    lemma_start_tame(services, w, true);
    lemma_walk_recovery_tame(g, services, w, Seq::empty(), Seq::empty());
}

/// Whether `key` names no probe of a running service but a red one.
pub open spec fn red_if_running(s: ServicesModel, key: Str) -> bool {
    match parse_ref(key) {
        Some(r) => probe_at(s, r) is Some && s.at(r.service).state is Running ==> red_at(s, r),
        None => true,
    }
}

spec fn reached(g: Layer, w: Walk, from: Str, next: Seq<Str>, k: Str) -> bool {
    ||| w.queue.contains(k)
    ||| forall|i: int|
        0 <= i < g.next(k).len() ==> w.visited.contains(#[trigger] g.next(k)[i]) || (k == from
            && next.contains(g.next(k)[i]))
}

spec fn red_front(g: Layer, a: ServicesModel, w: Walk, from: Str, next: Seq<Str>) -> bool {
    &&& forall|i: int| 0 <= i < w.queue.len() ==> w.red.contains(#[trigger] w.queue[i])
    &&& next.len() > 0 ==> w.red.contains(from)
    &&& forall|i: int| 0 <= i < next.len() ==> g.nodes.contains(#[trigger] next[i])
    &&& forall|k: Str| #[trigger] w.visited.contains(k) ==> red_if_running(w.services, k)
    &&& forall|k: Str| #[trigger] w.red.contains(k) ==> reached(g, w, from, next, k)
    &&& forall|r: RefModel| #[trigger]
        probe_at(w.services, r) != probe_at(a, r) ==> w.red.contains(r.text())
}

proof fn lemma_visit_red(g: Layer, a: ServicesModel, w: Walk, from: Str, next: Seq<Str>)
    requires
        next.len() > 0,
        red_front(g, a, w, from, next),
    ensures
        red_front(g, a, visit_pending(g, w, from, next[0]), from, next.drop_first()),
{
    let key = next[0];
    let v = visit_pending(g, w, from, key);
    let rest = next.drop_first();
    lemma_with_name(w.visited, key);
    lemma_with_name(w.red, key);
    assert(w.red.contains(from));
    assert(g.nodes.contains(next[0]));
    assert forall|k: Str| w.visited.contains(k) || k == key implies v.visited.contains(k) by {}
    assert forall|k: Str| #[trigger] w.queue.contains(k) implies v.queue.contains(k) by {
        let i = choose|i: int| 0 <= i < w.queue.len() && w.queue[i] == k;
        assert(v.queue[i] == k);
    }
    // What is replaced is the probe that `key` names.
    if !w.visited.contains(key) {
        if let Some(r) = parse_ref(key) {
            lemma_ref_text(key);
            if let Some(p) = probe_at(w.services, r) {
                lemma_set_probe(w.services, r, moved(p, passed_on(from, true)));
            }
        }
    }
    assert forall|k: Str| #[trigger] v.visited.contains(k) implies red_if_running(
        v.services,
        k,
    ) by {
        if k != key {
            assert(w.visited.contains(k));
            if let Some(q) = parse_ref(k) {
                lemma_ref_text(k);
            }
        }
    }
    assert forall|k: Str| #[trigger] v.red.contains(k) implies reached(g, v, from, rest, k) by {
        if w.red.contains(k) {
            assert(reached(g, w, from, next, k));
            if !w.queue.contains(k) {
                assert forall|i: int| 0 <= i < g.next(k).len() implies v.visited.contains(
                    #[trigger] g.next(k)[i],
                ) || (k == from && rest.contains(g.next(k)[i])) by {
                    let x = g.next(k)[i];
                    if !w.visited.contains(x) && x != key {
                        let j = choose|j: int| 0 <= j < next.len() && next[j] == x;
                        assert(rest[j - 1] == x);
                    }
                }
            }
        } else {
            assert(k == key);
            assert(v.queue[v.queue.len() - 1] == key);
        }
    }
    assert forall|i: int| 0 <= i < v.queue.len() implies v.red.contains(#[trigger] v.queue[i]) by {
        if i < w.queue.len() {
            assert(w.red.contains(w.queue[i]));
        }
    }
    assert forall|r: RefModel| #[trigger]
        probe_at(v.services, r) != probe_at(a, r) implies v.red.contains(r.text()) by {
        if probe_at(w.services, r) != probe_at(a, r) {
            assert(w.red.contains(r.text()));
        }
    }
    assert forall|i: int| 0 <= i < rest.len() implies g.nodes.contains(#[trigger] rest[i]) by {
        assert(rest[i] == next[i + 1]);
    }
}

proof fn lemma_walk_red(g: Layer, a: ServicesModel, w: Walk, from: Str, next: Seq<Str>)
    requires
        g.nodes.len() <= u32::MAX,
        g.closed_edges(),
        red_front(g, a, w, from, next),
    ensures
        ({
            let end = walk_pending(g, w, from, next);
            red_front(g, a, end, Seq::empty(), Seq::empty()) && end.queue.len() == 0
        }),
        forall|k: Str|
            w.red.contains(k) ==> #[trigger] walk_pending(g, w, from, next).red.contains(k),
    decreases unseen(g.nodes, w.visited), w.queue.len(), next.len(),
{
    if next.len() > 0 {
        if !w.visited.contains(next[0]) && g.nodes.contains(next[0]) {
            lemma_unseen_less(g.nodes, w.visited, next[0]);
        }
        lemma_visit_red(g, a, w, from, next);
        lemma_with_name(w.red, next[0]);
        lemma_walk_red(g, a, visit_pending(g, w, from, next[0]), from, next.drop_first());
    } else if w.queue.len() > 0 {
        let k0 = w.queue[0];
        let popped = Walk { queue: w.queue.drop_first(), ..w };
        lemma_next_nodes(g, k0);
        assert(w.red.contains(w.queue[0]));
        assert forall|k: Str| #[trigger] popped.red.contains(k) implies reached(
            g,
            popped,
            k0,
            g.next(k0),
            k,
        ) by {
            assert(w.red.contains(k));
            assert(reached(g, w, from, next, k));
            if w.queue.contains(k) && k != k0 {
                let i = choose|i: int| 0 <= i < w.queue.len() && w.queue[i] == k;
                assert(popped.queue[i - 1] == k);
            }
            if k == k0 {
                assert forall|i: int| 0 <= i < g.next(k).len() implies g.next(k0).contains(
                    #[trigger] g.next(k)[i],
                ) by {}
            }
        }
        assert forall|i: int| 0 <= i < popped.queue.len() implies popped.red.contains(
            #[trigger] popped.queue[i],
        ) by {
            assert(popped.queue[i] == w.queue[i + 1]);
        }
        lemma_walk_red(g, a, popped, k0, g.next(k0));
    } else {
        assert forall|k: Str| #[trigger] w.red.contains(k) implies reached(
            g,
            w,
            Seq::empty(),
            Seq::empty(),
            k,
        ) by {
            assert(reached(g, w, from, next, k));
        }
    }
}

/// A red probe turns its dependents red, and theirs in turn: once its redness is passed on,
/// every probe of a running service that depends on it, or on a probe that was changed, is
/// red.
pub proof fn law_red_reaches_dependents(
    g: Layer,
    key: Str,
    services: ServicesModel,
    changes: Seq<ChangeModel>,
    source: Str,
    dependent: Str,
)
    requires
        g.nodes.len() <= u32::MAX,
        g.closed_edges(),
        parse_ref(key) is Some,
        red_at(services, parse_ref(key)->0),
        source == key || (parse_ref(source) is Some && probe_at(
            pending_result(g, key, services, changes).services,
            parse_ref(source)->0,
        ) != probe_at(services, parse_ref(source)->0)),
        g.next(source).contains(dependent),
    ensures
        red_if_running(pending_result(g, key, services, changes).services, dependent),
{
    let w = start_walk(key, true, services, changes);
    let none = Seq::<char>::empty();
    let no_next = Seq::<Str>::empty();
    assert forall|k: Str| #[trigger] w.red.contains(k) implies reached(g, w, none, no_next, k) by {
        assert(w.queue[0] == k);
    }
    assert(w.red[0] == key);
    assert(red_front(g, services, w, none, no_next));
    lemma_walk_red(g, services, w, none, no_next);
    let end = walk_pending(g, w, none, no_next);
    if source == key {
        assert(w.red.contains(key));
    } else {
        lemma_ref_text(source);
    }
    assert(end.red.contains(source));
    assert(reached(g, end, none, no_next, source));
    let i = choose|i: int| 0 <= i < g.next(source).len() && g.next(source)[i] == dependent;
    assert(end.visited.contains(g.next(source)[i]));
}

spec fn nothing_red(w: Walk) -> bool {
    w.red.len() == 0
}

proof fn lemma_walk_not_red(g: Layer, a: ServicesModel, w: Walk, from: Str, next: Seq<Str>)
    requires
        nothing_red(w),
        forall|r: RefModel| #[trigger] red_at(w.services, r) ==> red_at(a, r),
    ensures
        forall|r: RefModel| #[trigger]
            red_at(walk_pending(g, w, from, next).services, r) ==> red_at(a, r),
    decreases unseen(g.nodes, w.visited), w.queue.len(), next.len(),
{
    if next.len() > 0 {
        let key = next[0];
        let v = visit_pending(g, w, from, key);
        if !w.visited.contains(key) && g.nodes.contains(key) {
            lemma_unseen_less(g.nodes, w.visited, key);
            if let Some(r) = parse_ref(key) {
                if let Some(p) = probe_at(w.services, r) {
                    lemma_set_probe(w.services, r, moved(p, passed_on(from, false)));
                }
            }
        }
        assert forall|r: RefModel| #[trigger] red_at(v.services, r) implies red_at(a, r) by {
            assert(red_at(w.services, r) ==> red_at(a, r));
        }
        lemma_walk_not_red(g, a, v, from, next.drop_first());
        assert(walk_pending(g, w, from, next) == walk_pending(g, v, from, next.drop_first()));
    } else if w.queue.len() > 0 {
        let popped = Walk { queue: w.queue.drop_first(), ..w };
        lemma_walk_not_red(g, a, popped, w.queue[0], g.next(w.queue[0]));
        assert(walk_pending(g, w, from, next) == walk_pending(
            g,
            popped,
            w.queue[0],
            g.next(w.queue[0]),
        ));
    } else {
        assert(walk_pending(g, w, from, next) == w);
    }
}

/// A probe that is not red turns none of its dependents red.
pub proof fn law_only_red_reddens(
    g: Layer,
    key: Str,
    services: ServicesModel,
    changes: Seq<ChangeModel>,
    r: RefModel,
)
    requires
        parse_ref(key) is Some,
        !red_at(services, parse_ref(key)->0),
        red_at(pending_result(g, key, services, changes).services, r),
    ensures
        red_at(services, r),
{
    let w = start_walk(key, false, services, changes);
    lemma_walk_not_red(g, services, w, Seq::empty(), Seq::empty());
}

/// Whether `key` names no green probe of a running service.
pub open spec fn not_green_if_running(s: ServicesModel, key: Str) -> bool {
    match parse_ref(key) {
        Some(r) => !(green_at(s, r) && s.at(r.service).state is Running),
        None => true,
    }
}

spec fn cold_front(
    g: Layer,
    a: ServicesModel,
    w: Walk,
    start: Str,
    from: Str,
    next: Seq<Str>,
) -> bool {
    &&& forall|i: int| 0 <= i < next.len() ==> g.nodes.contains(#[trigger] next[i])
    &&& forall|k: Str| #[trigger]
        w.visited.contains(k) ==> k == start || not_green_if_running(w.services, k)
    &&& reached(g, w, from, next, start)
    &&& forall|r: RefModel| #[trigger]
        probe_at(w.services, r) != probe_at(a, r) ==> reached(g, w, from, next, r.text())
}

proof fn lemma_still_reached(
    g: Layer,
    w: Walk,
    v: Walk,
    from: Str,
    next: Seq<Str>,
    k: Str,
)
    requires
        next.len() > 0,
        reached(g, w, from, next, k),
        forall|x: Str| #[trigger] w.queue.contains(x) ==> v.queue.contains(x),
        forall|x: Str| w.visited.contains(x) || x == next[0] ==> #[trigger] v.visited.contains(x),
    ensures
        reached(g, v, from, next.drop_first(), k),
{
    let rest = next.drop_first();
    if !w.queue.contains(k) {
        assert forall|i: int| 0 <= i < g.next(k).len() implies v.visited.contains(
            #[trigger] g.next(k)[i],
        ) || (k == from && rest.contains(g.next(k)[i])) by {
            let x = g.next(k)[i];
            if !w.visited.contains(x) && x != next[0] {
                let j = choose|j: int| 0 <= j < next.len() && next[j] == x;
                assert(rest[j - 1] == x);
            }
        }
    }
}

proof fn lemma_visit_cold(
    g: Layer,
    a: ServicesModel,
    w: Walk,
    start: Str,
    from: Str,
    next: Seq<Str>,
)
    requires
        next.len() > 0,
        cold_front(g, a, w, start, from, next),
    ensures
        cold_front(
            g,
            a,
            visit_pending(g, w, from, next[0]),
            start,
            from,
            next.drop_first(),
        ),
{
    let key = next[0];
    let v = visit_pending(g, w, from, key);
    let rest = next.drop_first();
    lemma_with_name(w.visited, key);
    assert(g.nodes.contains(next[0]));
    assert forall|k: Str| w.visited.contains(k) || k == key implies #[trigger] v.visited.contains(
        k,
    ) by {}
    assert forall|k: Str| #[trigger] w.queue.contains(k) implies v.queue.contains(k) by {
        let i = choose|i: int| 0 <= i < w.queue.len() && w.queue[i] == k;
        assert(v.queue[i] == k);
    }
    let state = passed_on(from, w.red.contains(from));
    if !w.visited.contains(key) {
        if let Some(r) = parse_ref(key) {
            lemma_ref_text(key);
            if let Some(p) = probe_at(w.services, r) {
                lemma_set_probe(w.services, r, moved(p, state));
            }
        }
    }
    assert forall|k: Str| #[trigger] v.visited.contains(k) implies k == start
        || not_green_if_running(v.services, k) by {
        if k != key {
            assert(w.visited.contains(k));
        }
        if let Some(q) = parse_ref(k) {
            lemma_ref_text(k);
        }
    }
    lemma_still_reached(g, w, v, from, next, start);
    assert forall|r: RefModel| #[trigger]
        probe_at(v.services, r) != probe_at(a, r) implies reached(
        g,
        v,
        from,
        rest,
        r.text(),
    ) by {
        if probe_at(w.services, r) != probe_at(a, r) {
            lemma_still_reached(g, w, v, from, next, r.text());
        } else {
            assert(v.queue[v.queue.len() - 1] == key);
        }
    }
    assert forall|i: int| 0 <= i < rest.len() implies g.nodes.contains(#[trigger] rest[i]) by {
        assert(rest[i] == next[i + 1]);
    }
}

proof fn lemma_popped_reached(g: Layer, w: Walk, from: Str, k: Str)
    requires
        w.queue.len() > 0,
        reached(g, w, from, Seq::empty(), k),
    ensures
        reached(
            g,
            Walk { queue: w.queue.drop_first(), ..w },
            w.queue[0],
            g.next(w.queue[0]),
            k,
        ),
{
    let k0 = w.queue[0];
    let popped = Walk { queue: w.queue.drop_first(), ..w };
    if w.queue.contains(k) && k != k0 {
        let i = choose|i: int| 0 <= i < w.queue.len() && w.queue[i] == k;
        assert(popped.queue[i - 1] == k);
    }
    if k == k0 {
        assert forall|i: int| 0 <= i < g.next(k).len() implies g.next(k0).contains(
            #[trigger] g.next(k)[i],
        ) by {}
    }
}

proof fn lemma_walk_cold(
    g: Layer,
    a: ServicesModel,
    w: Walk,
    start: Str,
    from: Str,
    next: Seq<Str>,
)
    requires
        g.nodes.len() <= u32::MAX,
        g.closed_edges(),
        cold_front(g, a, w, start, from, next),
    ensures
        ({
            let end = walk_pending(g, w, from, next);
            cold_front(g, a, end, start, Seq::empty(), Seq::empty()) && end.queue.len() == 0
        }),
    decreases unseen(g.nodes, w.visited), w.queue.len(), next.len(),
{
    let none = Seq::<char>::empty();
    let no_next = Seq::<Str>::empty();
    if next.len() > 0 {
        if !w.visited.contains(next[0]) && g.nodes.contains(next[0]) {
            lemma_unseen_less(g.nodes, w.visited, next[0]);
        }
        lemma_visit_cold(g, a, w, start, from, next);
        lemma_walk_cold(g, a, visit_pending(g, w, from, next[0]), start, from, next.drop_first());
    } else if w.queue.len() > 0 {
        let k0 = w.queue[0];
        let popped = Walk { queue: w.queue.drop_first(), ..w };
        assert(next =~= no_next);
        lemma_next_nodes(g, k0);
        lemma_popped_reached(g, w, from, start);
        assert forall|r: RefModel| #[trigger]
            probe_at(popped.services, r) != probe_at(a, r) implies reached(
            g,
            popped,
            k0,
            g.next(k0),
            r.text(),
        ) by {
            lemma_popped_reached(g, w, from, r.text());
        }
        lemma_walk_cold(g, a, popped, start, k0, g.next(k0));
    } else {
        assert(reached(g, w, none, no_next, start));
        assert forall|r: RefModel| #[trigger]
            probe_at(w.services, r) != probe_at(a, r) implies reached(
            g,
            w,
            none,
            no_next,
            r.text(),
        ) by {
            assert(reached(g, w, from, next, r.text()));
        }
    }
}

/// Whatever is passed on, nothing stays green behind it: once a change of a probe is passed
/// on, no other probe of a running service that depends on it, or on a probe that was
/// changed, is green.
pub proof fn law_dependents_lose_green(
    g: Layer,
    key: Str,
    services: ServicesModel,
    changes: Seq<ChangeModel>,
    source: Str,
    dependent: Str,
)
    requires
        g.nodes.len() <= u32::MAX,
        g.closed_edges(),
        source == key || (parse_ref(source) is Some && probe_at(
            pending_result(g, key, services, changes).services,
            parse_ref(source)->0,
        ) != probe_at(services, parse_ref(source)->0)),
        g.next(source).contains(dependent),
        dependent != key,
    ensures
        not_green_if_running(pending_result(g, key, services, changes).services, dependent),
{
    let red = parse_ref(key) is Some && red_at(services, parse_ref(key)->0);
    let w = start_walk(key, red, services, changes);
    let none = Seq::<char>::empty();
    let no_next = Seq::<Str>::empty();
    assert(w.queue[0] == key);
    assert(cold_front(g, services, w, key, none, no_next));
    lemma_walk_cold(g, services, w, key, none, no_next);
    let end = walk_pending(g, w, none, no_next);
    if source != key {
        lemma_ref_text(source);
    }
    assert(reached(g, end, none, no_next, source));
    let i = choose|i: int| 0 <= i < g.next(source).len() && g.next(source)[i] == dependent;
    assert(end.visited.contains(g.next(source)[i]));
}

/// A probe that a walk has met is left as it is from there on.
proof fn lemma_met_stays(g: Layer, w: Walk, from: Str, next: Seq<Str>, d: Str)
    requires
        w.visited.contains(d),
        parse_ref(d) is Some,
    ensures
        probe_at(walk_recovery(g, w, from, next).services, parse_ref(d)->0) == probe_at(
            w.services,
            parse_ref(d)->0,
        ),
    decreases unseen(g.nodes, w.visited), w.queue.len(), next.len(),
{
    if next.len() > 0 {
        let key = next[0];
        let v = visit_recovery(g, w, from, key);
        if !w.visited.contains(key) && g.nodes.contains(key) {
            lemma_unseen_less(g.nodes, w.visited, key);
            lemma_ref_text(d);
            if let Some(r) = parse_ref(key) {
                lemma_ref_text(key);
                if let Some(p) = probe_at(w.services, r) {
                    let state = StateModel::Pending(
                        PendingModel::DepRecovered { dep: parse_ref(from)->0 },
                    );
                    lemma_set_probe(w.services, r, moved(p, state));
                }
            }
            let i = choose|i: int| 0 <= i < w.visited.len() && w.visited[i] == d;
            assert(v.visited[i] == d);
        }
        lemma_met_stays(g, v, from, next.drop_first(), d);
    } else if w.queue.len() > 0 {
        let popped = Walk { queue: w.queue.drop_first(), ..w };
        lemma_met_stays(g, popped, w.queue[0], g.next(w.queue[0]), d);
    }
}

/// Whether a recovery of `from` can be passed on to a probe: its service runs, it neither
/// awaits its check nor failed by itself, and no other probe that it depends on is red.
pub open spec fn can_recover(s: ServicesModel, from: Str, r: RefModel) -> bool {
    probe_at(s, r) matches Some(p) && !(p.state is Pending) && !p.state.probe_failed() && s.at(
        r.service,
    ).state is Running && !other_red(s, p.depends_on, from)
}

proof fn lemma_recovers(g: Layer, w: Walk, from: Str, next: Seq<Str>, d: Str)
    requires
        next.contains(d),
        g.nodes.contains(d),
        !w.visited.contains(d),
        parse_ref(d) is Some,
        can_recover(w.services, from, parse_ref(d)->0),
    ensures
        probe_at(walk_recovery(g, w, from, next).services, parse_ref(d)->0) == Some(
            moved(
                probe_at(w.services, parse_ref(d)->0)->0,
                StateModel::Pending(PendingModel::DepRecovered { dep: parse_ref(from)->0 }),
            ),
        ),
    decreases next.len(),
{
    let rd = parse_ref(d)->0;
    let key = next[0];
    let rest = next.drop_first();
    let v = visit_recovery(g, w, from, key);
    let state = StateModel::Pending(PendingModel::DepRecovered { dep: parse_ref(from)->0 });
    if !w.visited.contains(key) && g.nodes.contains(key) {
        lemma_unseen_less(g.nodes, w.visited, key);
    }
    lemma_ref_text(d);
    if key == d {
        let p = probe_at(w.services, rd)->0;
        lemma_set_probe(w.services, rd, moved(p, state));
        assert(v.visited[w.visited.len() as int] == d);
        lemma_met_stays(g, v, from, rest, d);
    } else {
        let i = choose|i: int| 0 <= i < next.len() && next[i] == d;
        assert(rest[i - 1] == d);
        if !w.visited.contains(key) && g.nodes.contains(key) {
            if let Some(r) = parse_ref(key) {
                lemma_ref_text(key);
                assert(r != rd);
                if let Some(p) = probe_at(w.services, r) {
                    lemma_set_probe(w.services, r, moved(p, state));
                    assert forall|q: RefModel| #[trigger] red_at(v.services, q) implies red_at(
                        w.services,
                        q,
                    ) by {
                        if q != r {
                            assert(probe_at(v.services, q) == probe_at(w.services, q));
                        }
                    }
                }
            }
        }
        assert(probe_at(v.services, rd) == probe_at(w.services, rd));
        let deps = probe_at(v.services, rd)->0.depends_on;
        if other_red(v.services, deps, from) {
            let j = choose|j: int|
                0 <= j < deps.len() && (#[trigger] deps[j]).text() != from && red_at(
                    v.services,
                    deps[j],
                );
            assert(red_at(w.services, deps[j]));
            assert(other_red(w.services, deps, from));
        }
        assert(can_recover(v.services, from, rd));
        if v.visited.contains(d) {
            let j = choose|j: int| 0 <= j < v.visited.len() && v.visited[j] == d;
            if j < w.visited.len() {
                assert(w.visited[j] == d);
            }
        }
        lemma_recovers(g, v, from, rest, d);
    }
}

/// A recovery reaches each direct dependent: one whose service runs, that neither awaits its
/// check nor failed by itself, and that has no other red dependency, is to be checked again as
/// what it depends on has recovered.
pub proof fn law_recovery_reaches_dependents(
    g: Layer,
    key: Str,
    services: ServicesModel,
    changes: Seq<ChangeModel>,
    dependent: Str,
)
    requires
        g.nodes.len() <= u32::MAX,
        g.closed_edges(),
        g.next(key).contains(dependent),
        dependent != key,
        parse_ref(dependent) is Some,
        can_recover(services, key, parse_ref(dependent)->0),
    ensures
        probe_at(
            recovery_result(g, key, services, changes).services,
            parse_ref(dependent)->0,
        ) == Some(
            moved(
                probe_at(services, parse_ref(dependent)->0)->0,
                StateModel::Pending(PendingModel::DepRecovered { dep: parse_ref(key)->0 }),
            ),
        ),
{
    let w = start_walk(key, false, services, changes);
    let popped = Walk { queue: w.queue.drop_first(), ..w };
    let i = choose|i: int| 0 <= i < g.next(key).len() && g.next(key)[i] == dependent;
    lemma_next_nodes(g, key);
    assert(g.nodes.contains(g.next(key)[i]));
    assert(walk_recovery(g, w, Seq::empty(), Seq::empty()) == walk_recovery(
        g,
        popped,
        key,
        g.next(key),
    ));
    lemma_recovers(g, popped, key, g.next(key), dependent);
}

} // verus!
