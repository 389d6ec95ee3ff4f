//! What is told of a change that is passed on: who has changed, from what, and because of whom.
use crate::graph::Layer;
use crate::model::{lemma_ref_text, parse_ref, PendingModel, RedModel, RefModel, StateModel};
use crate::names::{lemma_unseen_less, unseen};
use crate::propagate::{
    mark_red_result, moved, passed_on, pending_result, recovery_result, start_walk, visit_pending,
    visit_recovery, walk_pending, walk_recovery, ChangeModel, Walk,
};
use crate::propagate_laws::{kept_or_moved, law_pending_keeps_failures, lemma_set_probe};
use crate::runtime::{probe_at, red_at, ProbeModel, ServicesModel};
use crate::text::Str;
use vstd::prelude::*;

verus! {

/// Whether a state says that the probe is red or pending behind another one.
pub open spec fn is_behind(state: StateModel, dep: RefModel) -> bool {
    state == StateModel::Red(RedModel::DepRed { dep }) || state == StateModel::Pending(
        PendingModel::DepNotReady { dep },
    )
}

/// Whether a change tells the truth: the probe was as it says before, is as it says now, and the
/// reason names a probe that it depends on directly.
pub open spec fn tells_truly(
    g: Layer,
    a: ServicesModel,
    b: ServicesModel,
    c: ChangeModel,
    recovery: bool,
) -> bool {
    &&& probe_at(a, c.0) matches Some(p) && p.state == c.2
    &&& probe_at(b, c.0) matches Some(q) && q.state == c.1
    &&& exists|dep: RefModel|
        #![trigger dep.text()]
        g.next(dep.text()).contains(c.0.text()) && (if recovery {
            c.1 == StateModel::Pending(PendingModel::DepRecovered { dep })
        } else {
            is_behind(c.1, dep)
        })
}

/// Whether a list holds a change of a probe.
pub open spec fn lists(changes: Seq<ChangeModel>, r: RefModel) -> bool {
    exists|i: int| 0 <= i < changes.len() && (#[trigger] changes[i]).0 == r
}

spec fn on_track(
    g: Layer,
    a: ServicesModel,
    w: Walk,
    from: Str,
    next: Seq<Str>,
    recovery: bool,
) -> bool {
    &&& forall|r: RefModel| #[trigger] probe_at(w.services, r) != probe_at(a, r) ==> lists(w.changes, r)
    &&& forall|i: int|
        0 <= i < w.changes.len() ==> tells_truly(g, a, w.services, #[trigger] w.changes[i], recovery)
            && w.visited.contains(w.changes[i].0.text())
    &&& forall|i: int| 0 <= i < w.queue.len() ==> parse_ref(#[trigger] w.queue[i]) is Some
    &&& next.len() > 0 ==> parse_ref(from) is Some
    &&& forall|i: int| 0 <= i < next.len() ==> g.next(from).contains(#[trigger] next[i])
}

proof fn lemma_next_change(
    g: Layer,
    a: ServicesModel,
    w: Walk,
    v: Walk,
    from: Str,
    key: Str,
    state: StateModel,
    recovery: bool,
)
    requires
        !w.visited.contains(key),
        parse_ref(key) is Some,
        parse_ref(from) is Some,
        g.next(from).contains(key),
        probe_at(w.services, parse_ref(key)->0) is Some,
        forall|r: RefModel| #[trigger]
            probe_at(w.services, r) != probe_at(a, r) ==> lists(w.changes, r),
        forall|i: int|
            0 <= i < w.changes.len() ==> tells_truly(
                g,
                a,
                w.services,
                #[trigger] w.changes[i],
                recovery,
            ) && w.visited.contains(w.changes[i].0.text()),
        v.visited == w.visited.push(key),
        v.services == crate::runtime::set_probe(
            w.services,
            parse_ref(key)->0,
            moved(probe_at(w.services, parse_ref(key)->0)->0, state),
        ),
        v.changes == w.changes.push(
            (parse_ref(key)->0, state, probe_at(w.services, parse_ref(key)->0)->0.state),
        ),
        if recovery {
            state == StateModel::Pending(PendingModel::DepRecovered { dep: parse_ref(from)->0 })
        } else {
            is_behind(state, parse_ref(from)->0)
        },
    ensures
        forall|r: RefModel| #[trigger]
            probe_at(v.services, r) != probe_at(a, r) ==> lists(v.changes, r),
        forall|i: int|
            0 <= i < v.changes.len() ==> tells_truly(
                g,
                a,
                v.services,
                #[trigger] v.changes[i],
                recovery,
            ) && v.visited.contains(v.changes[i].0.text()),
{
    let x = parse_ref(key)->0;
    let p = probe_at(w.services, x)->0;
    let n = w.changes.len() as int;
    lemma_ref_text(key);
    lemma_ref_text(from);
    lemma_set_probe(w.services, x, moved(p, state));
    assert(v.changes[n] == (x, state, p.state));
    if probe_at(w.services, x) != probe_at(a, x) {
        let i = choose|i: int| 0 <= i < w.changes.len() && (#[trigger] w.changes[i]).0 == x;
        assert(w.visited.contains(w.changes[i].0.text()));
    }
    assert forall|r: RefModel| #[trigger] probe_at(v.services, r) != probe_at(a, r) implies lists(
        v.changes,
        r,
    ) by {
        if r != x {
            assert(probe_at(w.services, r) != probe_at(a, r));
            let i = choose|i: int| 0 <= i < w.changes.len() && (#[trigger] w.changes[i]).0 == r;
            assert(v.changes[i].0 == r);
        } else {
            assert(v.changes[n].0 == r);
        }
    }
    assert forall|i: int| 0 <= i < v.changes.len() implies tells_truly(
        g,
        a,
        v.services,
        #[trigger] v.changes[i],
        recovery,
    ) && v.visited.contains(v.changes[i].0.text()) by {
        if i < n {
            assert(v.changes[i] == w.changes[i]);
            let c = w.changes[i];
            assert(tells_truly(g, a, w.services, c, recovery));
            let j = choose|j: int| 0 <= j < w.visited.len() && w.visited[j] == c.0.text();
            assert(v.visited[j] == c.0.text());
            assert(c.0 != x);
        } else {
            assert(v.visited[w.visited.len() as int] == key);
            let dep = parse_ref(from)->0;
            assert(g.next(dep.text()).contains(x.text()));
            assert(tells_truly(g, a, v.services, v.changes[i], recovery));
        }
    }
}

proof fn lemma_visited_grows(w: Walk, key: Str, x: Str)
    requires
        w.visited.contains(x),
    ensures
        w.visited.push(key).contains(x),
{
    let i = choose|i: int| 0 <= i < w.visited.len() && w.visited[i] == x;
    assert(w.visited.push(key)[i] == x);
}

proof fn lemma_track_pending(g: Layer, a: ServicesModel, w: Walk, from: Str, next: Seq<Str>)
    requires
        on_track(g, a, w, from, next, false),
    ensures
        on_track(g, a, walk_pending(g, w, from, next), Seq::empty(), Seq::empty(), false),
    decreases unseen(g.nodes, w.visited), w.queue.len(), next.len(),
{
    if next.len() > 0 {
        let key = next[0];
        let rest = next.drop_first();
        let v = visit_pending(g, w, from, key);
        assert(g.next(from).contains(key));
        assert forall|i: int| 0 <= i < rest.len() implies g.next(from).contains(
            #[trigger] rest[i],
        ) by {
            assert(rest[i] == next[i + 1]);
        }
        if !w.visited.contains(key) && g.nodes.contains(key) {
            lemma_unseen_less(g.nodes, w.visited, key);
            assert(v.visited == w.visited.push(key));
            let state = passed_on(from, w.red.contains(from));
            let same = v.services == w.services && v.changes == w.changes;
            if same {
                assert forall|i: int| 0 <= i < v.changes.len() implies tells_truly(
                    g,
                    a,
                    v.services,
                    #[trigger] v.changes[i],
                    false,
                ) && v.visited.contains(v.changes[i].0.text()) by {
                    lemma_visited_grows(w, key, w.changes[i].0.text());
                }
            } else {
                lemma_next_change(g, a, w, v, from, key, state, false);
            }
            assert forall|i: int| 0 <= i < v.queue.len() implies parse_ref(
                #[trigger] v.queue[i],
            ) is Some by {
                if i < w.queue.len() {
                    assert(v.queue[i] == w.queue[i]);
                }
            }
        }
        assert(on_track(g, a, v, from, rest, false));
        lemma_track_pending(g, a, v, from, rest);
        assert(walk_pending(g, w, from, next) == walk_pending(g, v, from, rest));
    } else if w.queue.len() > 0 {
        let popped = Walk { queue: w.queue.drop_first(), ..w };
        let key = w.queue[0];
        assert(parse_ref(key) is Some);
        assert forall|i: int| 0 <= i < popped.queue.len() implies parse_ref(
            #[trigger] popped.queue[i],
        ) is Some by {
            assert(popped.queue[i] == w.queue[i + 1]);
        }
        assert forall|i: int| 0 <= i < g.next(key).len() implies g.next(key).contains(
            #[trigger] g.next(key)[i],
        ) by {}
        lemma_track_pending(g, a, popped, key, g.next(key));
        assert(walk_pending(g, w, from, next) == walk_pending(g, popped, key, g.next(key)));
    } else {
        assert(walk_pending(g, w, from, next) == w);
    }
}

proof fn lemma_track_recovery(g: Layer, a: ServicesModel, w: Walk, from: Str, next: Seq<Str>)
    requires
        on_track(g, a, w, from, next, true),
    ensures
        on_track(g, a, walk_recovery(g, w, from, next), Seq::empty(), Seq::empty(), true),
    decreases unseen(g.nodes, w.visited), w.queue.len(), next.len(),
{
    if next.len() > 0 {
        let key = next[0];
        let rest = next.drop_first();
        let v = visit_recovery(g, w, from, key);
        assert(g.next(from).contains(key));
        assert forall|i: int| 0 <= i < rest.len() implies g.next(from).contains(
            #[trigger] rest[i],
        ) by {
            assert(rest[i] == next[i + 1]);
        }
        if !w.visited.contains(key) && g.nodes.contains(key) {
            lemma_unseen_less(g.nodes, w.visited, key);
            assert(v.visited == w.visited.push(key));
            let state = StateModel::Pending(
                PendingModel::DepRecovered { dep: parse_ref(from)->0 },
            );
            let same = v.services == w.services && v.changes == w.changes;
            if same {
                assert forall|i: int| 0 <= i < v.changes.len() implies tells_truly(
                    g,
                    a,
                    v.services,
                    #[trigger] v.changes[i],
                    true,
                ) && v.visited.contains(v.changes[i].0.text()) by {
                    lemma_visited_grows(w, key, w.changes[i].0.text());
                }
            } else {
                lemma_next_change(g, a, w, v, from, key, state, true);
            }
            assert forall|i: int| 0 <= i < v.queue.len() implies parse_ref(
                #[trigger] v.queue[i],
            ) is Some by {
                if i < w.queue.len() {
                    assert(v.queue[i] == w.queue[i]);
                }
            }
        }
        assert(on_track(g, a, v, from, rest, true));
        lemma_track_recovery(g, a, v, from, rest);
        assert(walk_recovery(g, w, from, next) == walk_recovery(g, v, from, rest));
    } else if w.queue.len() > 0 {
        let popped = Walk { queue: w.queue.drop_first(), ..w };
        let key = w.queue[0];
        assert(parse_ref(key) is Some);
        assert forall|i: int| 0 <= i < popped.queue.len() implies parse_ref(
            #[trigger] popped.queue[i],
        ) is Some by {
            assert(popped.queue[i] == w.queue[i + 1]);
        }
        assert forall|i: int| 0 <= i < g.next(key).len() implies g.next(key).contains(
            #[trigger] g.next(key)[i],
        ) by {}
        lemma_track_recovery(g, a, popped, key, g.next(key));
        assert(walk_recovery(g, w, from, next) == walk_recovery(g, popped, key, g.next(key)));
    } else {
        assert(walk_recovery(g, w, from, next) == w);
    }
}

/// Where a change is passed on each probe that has changed is told, with what it was before and
/// what it is now, and with the probe that it depends on as the reason. Nothing else is told.
pub proof fn law_passed_on_told(g: Layer, key: Str, s: ServicesModel)
    requires
        parse_ref(key) is Some,
    ensures
        ({
            let w = pending_result(g, key, s, Seq::empty());
            &&& forall|r: RefModel| #[trigger]
                probe_at(w.services, r) != probe_at(s, r) ==> lists(w.changes, r)
            &&& forall|i: int|
                0 <= i < w.changes.len() ==> tells_truly(
                    g,
                    s,
                    w.services,
                    #[trigger] w.changes[i],
                    false,
                )
        }),
{
    let red = red_at(s, parse_ref(key)->0);
    let w = start_walk(key, red, s, Seq::empty());
    assert(on_track(g, s, w, Seq::empty(), Seq::empty(), false));
    lemma_track_pending(g, s, w, Seq::empty(), Seq::empty());
}

/// Where a recovery is passed on each probe that has changed is told, with what it was before and
/// what it is now, and with the probe that has recovered as the reason. Nothing else is told.
pub proof fn law_recovery_told(g: Layer, key: Str, s: ServicesModel)
    requires
        parse_ref(key) is Some,
    ensures
        ({
            let w = recovery_result(g, key, s, Seq::empty());
            &&& forall|r: RefModel| #[trigger]
                probe_at(w.services, r) != probe_at(s, r) ==> lists(w.changes, r)
            &&& forall|i: int|
                0 <= i < w.changes.len() ==> tells_truly(
                    g,
                    s,
                    w.services,
                    #[trigger] w.changes[i],
                    true,
                )
        }),
{
    let w = start_walk(key, false, s, Seq::empty());
    assert(on_track(g, s, w, Seq::empty(), Seq::empty(), true));
    lemma_track_recovery(g, s, w, Seq::empty(), Seq::empty());
}

/// A probe that is moved is in its new state, remembers the color that it had, and keeps all else.
pub proof fn law_moved(p: ProbeModel, state: StateModel)
    ensures
        moved(p, state).state == state,
        moved(p, state).prev_color == Some(p.state.color()),
        moved(p, state).depends_on == p.depends_on,
        moved(p, state).probe_config == p.probe_config,
        moved(p, state).probe_ref == p.probe_ref,
        moved(p, state).last_error == p.last_error,
        moved(p, state).last_probe_ms == p.last_probe_ms,
        moved(p, state).last_log_match == p.last_log_match,
{
}

/// A probe that is marked red is red.
pub proof fn law_marked_red(g: Layer, r: RefModel, s: ServicesModel, changes: Seq<ChangeModel>)
    requires
        probe_at(s, r) is Some,
    ensures
        red_at(mark_red_result(g, r, s, changes).services, r),
{
    let p = probe_at(s, r)->0;
    let state = StateModel::Red(RedModel::DepRed { dep: r });
    let next = crate::runtime::set_probe(s, r, moved(p, state));
    let listed = changes.push((r, state, p.state));
    lemma_set_probe(s, r, moved(p, state));
    law_pending_keeps_failures(g, r.text(), next, listed, r);
    assert(kept_or_moved(next, pending_result(g, r.text(), next, listed).services, r, false));
}

} // verus!
