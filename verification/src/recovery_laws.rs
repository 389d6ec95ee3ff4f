//! How far the recovery of a probe is passed on.
use crate::graph::Layer;
use crate::model::{lemma_ref_text, parse_ref, RefModel, StateModel};
use crate::names::{lemma_unseen_less, unseen};
use crate::propagate::{recovery_result, start_walk, visit_recovery, walk_recovery, Walk};
use crate::propagate_laws::{lemma_set_probe, only_probes_differ};
use crate::runtime::{probe_at, red_at, ServicesModel};
use crate::text::Str;
use vstd::prelude::*;

verus! {

/// Whether one of some probes, other than `from`, is red.
pub open spec fn is_blocked(s: ServicesModel, deps: Seq<RefModel>, from: Str) -> bool {
    exists|i: int|
        0 <= i < deps.len() && (#[trigger] deps[i]).text() != from && (probe_at(
            s,
            deps[i],
        ) matches Some(q) && q.state is Red)
}

/// Whether a recovery had its effect on a probe, or could have none: the probe awaits its check, it
/// failed by itself, its service does not run, or another probe that it depends on was red before.
pub open spec fn is_settled(g: Layer, a: ServicesModel, s: ServicesModel, d: Str) -> bool {
    match parse_ref(d) {
        None => true,
        Some(r) => match probe_at(s, r) {
            None => true,
            Some(p) => {
                ||| p.state is Pending
                ||| p.state is Red && p.state->Red_0 is ProbeFailed
                ||| !(s.at(r.service).state is Running)
                ||| exists|f: Str| #[trigger]
                    g.next(f).contains(d) && is_blocked(a, p.depends_on, f)
            },
        },
    }
}

spec fn covered(g: Layer, w: Walk, next: Seq<Str>, t: Str) -> bool {
    forall|x: Str| #[trigger]
        g.next(t).contains(x) && g.nodes.contains(x) ==> w.visited.contains(x) || next.contains(x)
}

spec fn goes_far(
    g: Layer,
    a: ServicesModel,
    key: Str,
    w: Walk,
    from: Str,
    next: Seq<Str>,
) -> bool {
    &&& forall|r: RefModel| #[trigger] red_at(w.services, r) ==> red_at(a, r)
    &&& forall|x: Str| #[trigger]
        w.visited.contains(x) && x != key ==> is_settled(g, a, w.services, x)
    &&& forall|i: int|
        0 <= i < w.changes.len() ==> w.queue.contains((#[trigger] w.changes[i]).0.text())
            || covered(g, w, next, w.changes[i].0.text())
    &&& forall|i: int| 0 <= i < next.len() ==> g.next(from).contains(#[trigger] next[i])
}

proof fn lemma_visit_settles(
    g: Layer,
    a: ServicesModel,
    key: Str,
    w: Walk,
    from: Str,
    next: Seq<Str>,
)
    requires
        goes_far(g, a, key, w, from, next),
        next.len() > 0,
        !w.visited.contains(next[0]),
        g.nodes.contains(next[0]),
    ensures
        forall|r: RefModel| #[trigger]
            red_at(visit_recovery(g, w, from, next[0]).services, r) ==> red_at(a, r),
        forall|x: Str| #[trigger]
            visit_recovery(g, w, from, next[0]).visited.contains(x) && x != key ==> is_settled(
                g,
                a,
                visit_recovery(g, w, from, next[0]).services,
                x,
            ),
{
    let d = next[0];
    let v = visit_recovery(g, w, from, d);
    assert(g.next(from).contains(d));
    assert(v.visited == w.visited.push(d));
    let moves = v.services != w.services;
    if parse_ref(d) is Some {
        lemma_ref_text(d);
        let r = parse_ref(d)->0;
        if probe_at(w.services, r) is Some {
            let p = probe_at(w.services, r)->0;
            let state = StateModel::Pending(
                crate::model::PendingModel::DepRecovered { dep: parse_ref(from)->0 },
            );
            lemma_set_probe(w.services, r, crate::propagate::moved(p, state));
            if crate::propagate::other_red(w.services, p.depends_on, from) {
                let i = choose|i: int|
                    0 <= i < p.depends_on.len() && (#[trigger] p.depends_on[i]).text() != from
                        && red_at(w.services, p.depends_on[i]);
                assert(red_at(a, p.depends_on[i]));
                assert(is_blocked(a, p.depends_on, from));
            }
        }
    }
    assert forall|q: RefModel| #[trigger] red_at(v.services, q) implies red_at(a, q) by {
        assert(red_at(w.services, q) ==> red_at(a, q));
    }
    assert forall|x: Str| #[trigger] v.visited.contains(x) && x != key implies is_settled(
        g,
        a,
        v.services,
        x,
    ) by {
        if x != d {
            let i = choose|i: int| 0 <= i < v.visited.len() && v.visited[i] == x;
            assert(w.visited[i] == x);
            assert(w.visited.contains(x));
            assert(is_settled(g, a, w.services, x));
            if parse_ref(x) is Some {
                lemma_ref_text(x);
                let y = parse_ref(x)->0;
                assert(probe_at(v.services, y) == probe_at(w.services, y));
                if probe_at(w.services, y) is Some {
                    assert(w.services.has(y.service));
                    assert(v.services.at(y.service).state == w.services.at(y.service).state) by {
                        if moves {
                            assert(only_probes_differ(
                                w.services.at(y.service),
                                v.services.at(y.service),
                            ));
                        }
                    }
                }
            }
        }
    }
}

proof fn lemma_walk_goes_far(
    g: Layer,
    a: ServicesModel,
    key: Str,
    w: Walk,
    from: Str,
    next: Seq<Str>,
)
    requires
        goes_far(g, a, key, w, from, next),
    ensures
        goes_far(g, a, key, walk_recovery(g, w, from, next), Seq::empty(), Seq::empty()),
        walk_recovery(g, w, from, next).queue.len() == 0,
    decreases unseen(g.nodes, w.visited), w.queue.len(), next.len(),
{
    if next.len() > 0 {
        let d = next[0];
        let rest = next.drop_first();
        let v = visit_recovery(g, w, from, d);
        let news = !w.visited.contains(d) && g.nodes.contains(d);
        if news {
            lemma_unseen_less(g.nodes, w.visited, d);
            lemma_visit_settles(g, a, key, w, from, next);
            assert(v.visited == w.visited.push(d));
        }
        assert forall|i: int| 0 <= i < rest.len() implies g.next(from).contains(
            #[trigger] rest[i],
        ) by {
            assert(rest[i] == next[i + 1]);
        }
        assert forall|i: int| 0 <= i < v.changes.len() implies v.queue.contains(
            (#[trigger] v.changes[i]).0.text(),
        ) || covered(g, v, rest, v.changes[i].0.text()) by {
            let t = v.changes[i].0.text();
            if i < w.changes.len() {
                assert(v.changes[i] == w.changes[i]);
                if w.queue.contains(t) {
                    let j = choose|j: int| 0 <= j < w.queue.len() && w.queue[j] == t;
                    assert(v.queue[j] == t);
                } else {
                    assert(covered(g, w, next, t));
                    assert forall|x: Str| #[trigger]
                        g.next(t).contains(x) && g.nodes.contains(x) implies v.visited.contains(x)
                        || rest.contains(x) by {
                        if w.visited.contains(x) {
                            let j = choose|j: int| 0 <= j < w.visited.len() && w.visited[j] == x;
                            assert(v.visited[j] == x);
                        } else {
                            let j = choose|j: int| 0 <= j < next.len() && next[j] == x;
                            if j > 0 {
                                assert(rest[j - 1] == x);
                            } else {
                                assert(v.visited[v.visited.len() - 1] == x);
                            }
                        }
                    }
                }
            } else {
                lemma_ref_text(d);
                assert(v.queue[v.queue.len() - 1] == d);
            }
        }
        assert(goes_far(g, a, key, v, from, rest));
        lemma_walk_goes_far(g, a, key, v, from, rest);
        assert(walk_recovery(g, w, from, next) == walk_recovery(g, v, from, rest));
    } else if w.queue.len() > 0 {
        let popped = Walk { queue: w.queue.drop_first(), ..w };
        let t0 = w.queue[0];
        assert forall|i: int| 0 <= i < popped.changes.len() implies popped.queue.contains(
            (#[trigger] popped.changes[i]).0.text(),
        ) || covered(g, popped, g.next(t0), popped.changes[i].0.text()) by {
            let t = w.changes[i].0.text();
            if w.queue.contains(t) {
                let j = choose|j: int| 0 <= j < w.queue.len() && w.queue[j] == t;
                if j > 0 {
                    assert(popped.queue[j - 1] == t);
                }
            } else {
                assert(covered(g, w, next, t));
                assert forall|x: Str| #[trigger]
                    g.next(t).contains(x) && g.nodes.contains(x) implies popped.visited.contains(x)
                    || g.next(t0).contains(x) by {
                    assert(w.visited.contains(x) || next.contains(x));
                }
            }
        }
        assert forall|i: int| 0 <= i < g.next(t0).len() implies g.next(t0).contains(
            #[trigger] g.next(t0)[i],
        ) by {}
        assert(goes_far(g, a, key, popped, t0, g.next(t0)));
        lemma_walk_goes_far(g, a, key, popped, t0, g.next(t0));
        assert(walk_recovery(g, w, from, next) == walk_recovery(g, popped, t0, g.next(t0)));
    } else {
        assert(walk_recovery(g, w, from, next) == w);
        assert forall|i: int| 0 <= i < w.changes.len() implies w.queue.contains(
            (#[trigger] w.changes[i]).0.text(),
        ) || covered(g, w, Seq::empty(), w.changes[i].0.text()) by {
            let t = w.changes[i].0.text();
            assert(covered(g, w, next, t));
            assert forall|x: Str| #[trigger]
                g.next(t).contains(x) && g.nodes.contains(x) implies w.visited.contains(x)
                || Seq::<Str>::empty().contains(x) by {
                assert(w.visited.contains(x) || next.contains(x));
            }
        }
    }
}

/// A recovery does not end at the probes that depend directly on the one that has recovered: it is
/// passed on from each probe that it has changed to all that depend on that one.
pub proof fn law_recovery_goes_on(g: Layer, key: Str, s: ServicesModel, i: int, d: Str)
    requires
        0 <= i < recovery_result(g, key, s, Seq::empty()).changes.len(),
        g.nodes.contains(d),
        d != key,
        g.next(recovery_result(g, key, s, Seq::empty()).changes[i].0.text()).contains(d),
    ensures
        is_settled(g, s, recovery_result(g, key, s, Seq::empty()).services, d),
{
    let w = start_walk(key, false, s, Seq::empty());
    assert(goes_far(g, s, key, w, Seq::empty(), Seq::empty()));
    lemma_walk_goes_far(g, s, key, w, Seq::empty(), Seq::empty());
    let end = recovery_result(g, key, s, Seq::empty());
    let t = end.changes[i].0.text();
    assert(covered(g, end, Seq::empty(), t));
    assert(end.visited.contains(d) || Seq::<Str>::empty().contains(d));
}

} // verus!
