//! The state of a target: what its own probes and the targets it depends on make of it.
use crate::model::{ProbeRef, RefModel};
use crate::names::{
    lemma_unseen_less, lemma_unseen_mono, lemma_with_name, unseen, with_name, NameSet,
};
use crate::runtime::{
    green_at, probe_is_green, Services, ServicesModel, TargetModel, TargetRuntime, TargetState,
    TargetStateModel, Targets, TargetsModel,
};
use crate::text::{list_contains, Str};
use vstd::prelude::*;

verus! {

/// Those of some probes that are not green.
pub open spec fn not_green(s: ServicesModel, refs: Seq<RefModel>) -> Seq<RefModel>
    decreases refs.len(),
{
    if refs.len() == 0 {
        Seq::empty()
    } else if green_at(s, refs.last()) {
        not_green(s, refs.drop_last())
    } else {
        not_green(s, refs.drop_last()).push(refs.last())
    }
}

/// Whether `x` is an active target with a probe that is not green.
pub open spec fn spoiled(s: ServicesModel, ts: TargetsModel, x: Str) -> bool {
    ts.keys.contains(x) && ts.at(x).activated && not_green(s, ts.at(x).direct_probes).len() > 0
}

/// Whether `a` is an active target that depends on `b`.
pub open spec fn needs(ts: TargetsModel, a: Str, b: Str) -> bool {
    ts.keys.contains(a) && ts.at(a).activated && ts.at(a).depends_on_targets.contains(b)
}

/// Whether the target at position `i` of a path depends on the next.
pub open spec fn needs_next(ts: TargetsModel, path: Seq<Str>, i: int) -> bool {
    needs(ts, path[i], path[i + 1])
}

/// Whether each target of a path but the last is active and depends on the next.
pub open spec fn is_chain(ts: TargetsModel, path: Seq<Str>) -> bool {
    path.len() > 0 && forall|i: int| 0 <= i < path.len() - 1 ==> #[trigger] needs_next(ts, path, i)
}

/// Whether a chain leads from `a` to `b`. The chain may be `a` alone.
pub open spec fn leads_to(ts: TargetsModel, a: Str, b: Str) -> bool {
    exists|path: Seq<Str>| #[trigger] is_chain(ts, path) && path[0] == a && path.last() == b
}

/// Whether a target is red: it leads to one, itself counted, that is active and has a probe
/// that is not green.
pub open spec fn is_red(s: ServicesModel, ts: TargetsModel, name: Str) -> bool {
    exists|x: Str| leads_to(ts, name, x) && #[trigger] spoiled(s, ts, x)
}

/// Those of some targets that are red, each once.
pub open spec fn red_among(s: ServicesModel, ts: TargetsModel, names: Seq<Str>) -> Seq<Str>
    decreases names.len(),
{
    if names.len() == 0 {
        Seq::empty()
    } else if is_red(s, ts, names.last()) {
        with_name(red_among(s, ts, names.drop_last()), names.last())
    } else {
        red_among(s, ts, names.drop_last())
    }
}

/// The state of a target: inactive if it was never asked for, green if its own probes are
/// green and no target that it depends on is red, else red, with all that is not green.
pub open spec fn state_of(s: ServicesModel, ts: TargetsModel, t: TargetModel) -> TargetStateModel {
    let probes = not_green(s, t.direct_probes);
    let dep_targets = red_among(s, ts, t.depends_on_targets);
    if !t.activated {
        TargetStateModel::Inactive
    } else if probes.len() == 0 && dep_targets.len() == 0 {
        TargetStateModel::Green
    } else {
        TargetStateModel::Red { probes, dep_targets }
    }
}

proof fn lemma_chain_on(ts: TargetsModel, a: Str, b: Str, c: Str)
    requires
        leads_to(ts, a, b),
        needs(ts, b, c),
    ensures
        leads_to(ts, a, c),
{
    let path = choose|path: Seq<Str>| #[trigger]
        is_chain(ts, path) && path[0] == a && path.last() == b;
    let next = path.push(c);
    assert forall|i: int| 0 <= i < next.len() - 1 implies #[trigger] needs_next(ts, next, i) by {
        if i < path.len() - 1 {
            assert(needs_next(ts, path, i));
        }
    }
    assert(is_chain(ts, next) && next[0] == a && next.last() == c);
}

/// A set that holds `a` and with each target the known ones that it needs holds all known
/// targets that `a` leads to.
proof fn lemma_closed_holds(ts: TargetsModel, all: Seq<Str>, path: Seq<Str>)
    requires
        is_chain(ts, path),
        all.contains(path[0]),
        ts.keys.contains(path.last()),
        forall|x: Str, y: Str|
            all.contains(x) && #[trigger] needs(ts, x, y) && ts.keys.contains(y) ==> all.contains(y),
    ensures
        all.contains(path.last()),
    decreases path.len(),
{
    if path.len() > 1 {
        let front = path.drop_last();
        assert forall|i: int| 0 <= i < front.len() - 1 implies #[trigger] needs_next(
            ts,
            front,
            i,
        ) by {
            assert(needs_next(ts, path, i));
        }
        assert(needs_next(ts, path, path.len() - 2));
        assert(needs(ts, front.last(), path.last()));
        lemma_closed_holds(ts, all, front);
    }
}

/// Lists those of some probes that are not green.
pub fn list_not_green(services: &Services, refs: &Vec<ProbeRef>) -> (r: Vec<ProbeRef>)
    requires
        services.wf(),
    ensures
        r.deep_view() == not_green(services.deep_view(), refs.deep_view()),
{
    let ghost s = services.deep_view();
    let mut out: Vec<ProbeRef> = Vec::new();
    let mut i: usize = 0;
    assert(out.deep_view() =~= Seq::<RefModel>::empty());
    while i < refs.len()
        invariant
            services.wf(),
            s == services.deep_view(),
            i <= refs.len(),
            out.deep_view() == not_green(s, refs.deep_view().take(i as int)),
        decreases refs.len() - i,
    {
        let ghost next = refs.deep_view().take(i + 1);
        let ghost before = out.deep_view();
        assert(next.drop_last() =~= refs.deep_view().take(i as int));
        assert(next.last() == refs[i as int].deep_view());
        if !probe_is_green(services, &refs[i]) {
            out.push(refs[i].clone());
            assert(out.deep_view() =~= before.push(refs[i as int].deep_view()));
        }
        i = i + 1;
    }
    assert(refs.deep_view().take(i as int) =~= refs.deep_view());
    out
}

/// Whether a target is red: looks at all targets that it leads to.
fn is_red_target(services: &Services, targets: &Targets, name: &str) -> (r: bool)
    requires
        services.wf(),
        targets.wf(),
    ensures
        r == is_red(services.deep_view(), targets.deep_view(), name@),
{
    let ghost s = services.deep_view();
    let ghost ts = targets.deep_view();
    proof {
        targets.lemma_valid();
    }
    let mut seen = NameSet::new();
    seen.insert(name);
    proof {
        let path = seq![name@];
        assert(is_chain(ts, path) && path[0] == name@ && path.last() == name@);
        assert(seen.deep_view() =~= seq![name@]);
    }
    let mut i: usize = 0;
    while i < seen.len()
        invariant
            services.wf(),
            targets.wf(),
            s == services.deep_view(),
            ts == targets.deep_view(),
            ts.valid(),
            seen.wf(),
            i <= seen.deep_view().len(),
            seen.deep_view().contains(name@),
            forall|j: int|
                0 <= j < seen.deep_view().len() ==> leads_to(
                    ts,
                    name@,
                    #[trigger] seen.deep_view()[j],
                ),
            forall|j: int|
                0 <= j < i ==> !spoiled(s, ts, #[trigger] seen.deep_view()[j]),
            forall|j: int, y: Str|
                0 <= j < i && #[trigger] needs(ts, seen.deep_view()[j], y) && ts.keys.contains(y)
                    ==> seen.deep_view().contains(y),
        decreases unseen(ts.keys, seen.deep_view()), seen.deep_view().len() - i,
    {
        let ghost before = seen.deep_view();
        let x = seen.name(i).clone();
        assert(ts.has(x@) <==> ts.keys.contains(x@));
        if let Some(t) = targets.get(x.as_str()) {
            if t.activated {
                let bad = list_not_green(services, &t.direct_probes);
                assert(bad.deep_view().len() == bad.len());
                if bad.len() > 0 {
                    assert(spoiled(s, ts, x@));
                    return true;
                }
                let ghost deps = t.depends_on_targets.deep_view();
                let mut j: usize = 0;
                while j < t.depends_on_targets.len()
                    invariant
                        targets.wf(),
                        ts == targets.deep_view(),
                        ts.valid(),
                        seen.wf(),
                        ts.keys.contains(x@),
                        ts.at(x@).activated,
                        ts.at(x@) == t.deep_view(),
                        deps == t.depends_on_targets.deep_view(),
                        j <= t.depends_on_targets.len(),
                        leads_to(ts, name@, x@),
                        before.len() <= seen.deep_view().len(),
                        seen.deep_view().take(before.len() as int) == before,
                        unseen(ts.keys, seen.deep_view()) <= unseen(ts.keys, before),
                        seen.deep_view().len() > before.len() ==> unseen(
                            ts.keys,
                            seen.deep_view(),
                        ) < unseen(ts.keys, before),
                        forall|k: int|
                            0 <= k < seen.deep_view().len() ==> leads_to(
                                ts,
                                name@,
                                #[trigger] seen.deep_view()[k],
                            ),
                        forall|k: int|
                            0 <= k < j && ts.keys.contains(deps[k]) ==> seen.deep_view().contains(
                                #[trigger] deps[k],
                            ),
                    decreases t.depends_on_targets.len() - j,
                {
                    let d = t.depends_on_targets[j].as_str();
                    let ghost mid = seen.deep_view();
                    assert(deps[j as int] == d@);
                    assert(ts.has(d@) <==> ts.keys.contains(d@));
                    if targets.contains_key(d) {
                        proof {
                            assert(needs(ts, x@, d@));
                            lemma_chain_on(ts, name@, x@, d@);
                            lemma_with_name(mid, d@);
                            lemma_unseen_mono(ts.keys, mid, with_name(mid, d@));
                            if !mid.contains(d@) {
                                lemma_unseen_less(ts.keys, mid, d@);
                            }
                        }
                        seen.insert(d);
                        assert(seen.deep_view().take(before.len() as int) =~= mid.take(
                            before.len() as int,
                        ));
                    }
                    j = j + 1;
                    assert forall|k: int|
                        0 <= k < j && ts.keys.contains(deps[k]) implies seen.deep_view().contains(
                        #[trigger] deps[k],
                    ) by {
                        if k < j - 1 {
                            assert(mid.contains(deps[k]));
                        }
                    }
                }
            }
        }
        proof {
            let now = seen.deep_view();
            assert(!spoiled(s, ts, x@));
            assert(now.take(before.len() as int) =~= before);
            assert forall|k: int| 0 <= k < before.len() implies now[k] == #[trigger] before[k] by {
                assert(now.take(before.len() as int)[k] == now[k]);
            }
            assert forall|k: int, y: Str|
                0 <= k < i + 1 && #[trigger] needs(ts, now[k], y) && ts.keys.contains(y) implies
                now.contains(y) by {
                assert(now[k] == before[k]);
                if k < i {
                    assert(before.contains(y));
                    let m = choose|m: int| 0 <= m < before.len() && before[m] == y;
                    assert(now[m] == y);
                }
            }
            assert forall|k: int| 0 <= k < i + 1 implies !spoiled(s, ts, #[trigger] now[k]) by {
                assert(now[k] == before[k]);
            }
            let m = choose|m: int| 0 <= m < before.len() && before[m] == name@;
            assert(now[m] == name@);
        }
        i = i + 1;
    }
    proof {
        let all = seen.deep_view();
        if is_red(s, ts, name@) {
            let x = choose|x: Str| leads_to(ts, name@, x) && #[trigger] spoiled(s, ts, x);
            let path = choose|path: Seq<Str>| #[trigger]
                is_chain(ts, path) && path[0] == name@ && path.last() == x;
            lemma_closed_holds(ts, all, path);
            let j = choose|j: int| 0 <= j < all.len() && all[j] == x;
            assert(!spoiled(s, ts, all[j]));
        }
    }
    false
}

impl TargetRuntime {
    /// The state of the target: green if its own probes are green and no target that it
    /// depends on is red. A target that was never asked for is inactive.
    pub fn state(&self, services: &Services, targets: &Targets) -> (r: TargetState)
        requires
            services.wf(),
            targets.wf(),
        ensures
            r.deep_view() == state_of(
                services.deep_view(),
                targets.deep_view(),
                self.deep_view(),
            ),
    {
        if !self.activated {
            return TargetState::Inactive;
        }
        let ghost s = services.deep_view();
        let ghost ts = targets.deep_view();
        let ghost deps = self.depends_on_targets.deep_view();
        let mut red: Vec<String> = Vec::new();
        let mut i: usize = 0;
        assert(red.deep_view() =~= Seq::<Str>::empty());
        while i < self.depends_on_targets.len()
            invariant
                services.wf(),
                targets.wf(),
                s == services.deep_view(),
                ts == targets.deep_view(),
                deps == self.depends_on_targets.deep_view(),
                i <= self.depends_on_targets.len(),
                red.deep_view() == red_among(s, ts, deps.take(i as int)),
            decreases self.depends_on_targets.len() - i,
        {
            let ghost next = deps.take(i + 1);
            let ghost before = red.deep_view();
            assert(next.drop_last() =~= deps.take(i as int));
            assert(next.last() == self.depends_on_targets[i as int]@);
            let name = self.depends_on_targets[i].as_str();
            if is_red_target(services, targets, name) && !list_contains(&red, name) {
                red.push(self.depends_on_targets[i].clone());
                assert(red.deep_view() =~= before.push(next.last()));
            }
            i = i + 1;
        }
        assert(deps.take(i as int) =~= deps);
        let probes = list_not_green(services, &self.direct_probes);
        assert(probes.deep_view().len() == probes.len());
        assert(red.deep_view().len() == red.len());
        if probes.len() == 0 && red.len() == 0 {
            TargetState::Green
        } else {
            TargetState::Red { probes, dep_targets: red }
        }
    }
}

proof fn lemma_red_among(s: ServicesModel, ts: TargetsModel, names: Seq<Str>)
    ensures
        forall|d: Str| #[trigger]
            red_among(s, ts, names).contains(d) <==> names.contains(d) && is_red(s, ts, d),
        red_among(s, ts, names).no_duplicates(),
    decreases names.len(),
{
    if names.len() > 0 {
        let front = names.drop_last();
        let last = names.last();
        let (a, b) = (red_among(s, ts, front), red_among(s, ts, names));
        lemma_red_among(s, ts, front);
        assert forall|d: Str| #[trigger] b.contains(d) <==> names.contains(d) && is_red(
            s,
            ts,
            d,
        ) by {
            assert(names =~= front.push(last));
            lemma_push_contains(front, last, d);
            lemma_push_contains(a, last, d);
        }
    }
}

proof fn lemma_push_contains(list: Seq<Str>, last: Str, d: Str)
    ensures
        list.push(last).contains(d) <==> list.contains(d) || d == last,
{
    let more = list.push(last);
    if list.contains(d) {
        let i = choose|i: int| 0 <= i < list.len() && list[i] == d;
        assert(more[i] == d);
    }
    if d == last {
        assert(more[list.len() as int] == d);
    }
    if more.contains(d) {
        let i = choose|i: int| 0 <= i < more.len() && more[i] == d;
        if i < list.len() {
            assert(list[i] == d);
        }
    }
}

/// A known target is red as others see it if and only if its own state is red.
proof fn lemma_own_state(s: ServicesModel, ts: TargetsModel, d: Str)
    requires
        ts.keys.contains(d),
    ensures
        is_red(s, ts, d) <==> state_of(s, ts, ts.at(d)) is Red,
{
    let t = ts.at(d);
    let deps = t.depends_on_targets;
    lemma_red_among(s, ts, deps);
    if is_red(s, ts, d) {
        let x = choose|x: Str| leads_to(ts, d, x) && #[trigger] spoiled(s, ts, x);
        let path = choose|path: Seq<Str>| #[trigger]
            is_chain(ts, path) && path[0] == d && path.last() == x;
        if path.len() > 1 {
            let rest = path.drop_first();
            assert(needs_next(ts, path, 0));
            assert forall|i: int| 0 <= i < rest.len() - 1 implies #[trigger] needs_next(
                ts,
                rest,
                i,
            ) by {
                assert(needs_next(ts, path, i + 1));
            }
            assert(is_chain(ts, rest) && rest[0] == path[1] && rest.last() == x);
            assert(leads_to(ts, path[1], x));
            assert(is_red(s, ts, path[1]));
            assert(red_among(s, ts, deps).contains(path[1]));
        }
    }
    if state_of(s, ts, t) is Red {
        if not_green(s, t.direct_probes).len() > 0 {
            let path = seq![d];
            assert(is_chain(ts, path) && path[0] == d && path.last() == d);
            assert(leads_to(ts, d, d));
            assert(spoiled(s, ts, d));
        } else {
            let red = red_among(s, ts, deps);
            let y = red[0];
            assert(red.contains(y));
            let x = choose|x: Str| leads_to(ts, y, x) && #[trigger] spoiled(s, ts, x);
            let path = choose|path: Seq<Str>| #[trigger]
                is_chain(ts, path) && path[0] == y && path.last() == x;
            let more = seq![d] + path;
            assert forall|i: int| 0 <= i < more.len() - 1 implies #[trigger] needs_next(
                ts,
                more,
                i,
            ) by {
                if i > 0 {
                    assert(needs_next(ts, path, i - 1));
                }
            }
            assert(is_chain(ts, more) && more[0] == d && more.last() == x);
            assert(leads_to(ts, d, x));
        }
    }
}

/// A target is inactive if and only if it was never asked for. An active one is green if and
/// only if its own probes are green and none of the targets it depends on is red. A red one
/// tells all of its probes that are not green, and once each all targets that it depends on
/// whose own state is red.
pub proof fn law_target_green(s: ServicesModel, ts: TargetsModel, t: TargetModel)
    ensures
        state_of(s, ts, t) is Inactive <==> !t.activated,
        t.activated ==> (state_of(s, ts, t) is Green <==> not_green(s, t.direct_probes).len() == 0
            && (forall|d: Str|
            t.depends_on_targets.contains(d) && ts.keys.contains(d) ==> !(#[trigger] state_of(
                s,
                ts,
                ts.at(d),
            ) is Red))),
        state_of(s, ts, t) matches TargetStateModel::Red { probes, dep_targets } ==> probes
            == not_green(s, t.direct_probes) && dep_targets.no_duplicates() && forall|
            d: Str,
        | #[trigger]
            dep_targets.contains(d) <==> t.depends_on_targets.contains(d) && ts.keys.contains(d)
                && state_of(s, ts, ts.at(d)) is Red,
{
    let deps = t.depends_on_targets;
    let red = red_among(s, ts, deps);
    lemma_red_among(s, ts, deps);
    assert forall|d: Str| #[trigger] red.contains(d) <==> deps.contains(d) && ts.keys.contains(d)
        && state_of(s, ts, ts.at(d)) is Red by {
        if ts.keys.contains(d) {
            lemma_own_state(s, ts, d);
        } else if is_red(s, ts, d) {
            let x = choose|x: Str| leads_to(ts, d, x) && #[trigger] spoiled(s, ts, x);
            let path = choose|path: Seq<Str>| #[trigger]
                is_chain(ts, path) && path[0] == d && path.last() == x;
            if path.len() > 1 {
                assert(needs_next(ts, path, 0));
            }
        }
    }
    if red.len() > 0 {
        assert(red.contains(red[0]));
    }
    if exists|d: Str|
        deps.contains(d) && ts.keys.contains(d) && #[trigger] state_of(s, ts, ts.at(d)) is Red {
        let d = choose|d: Str|
            deps.contains(d) && ts.keys.contains(d) && #[trigger] state_of(s, ts, ts.at(d)) is Red;
        assert(red.contains(d));
    }
}

/// How many of the named targets are not active.
pub open spec fn inactive_count(ts: TargetsModel, names: Seq<Str>) -> nat
    decreases names.len(),
{
    if names.len() == 0 {
        0
    } else {
        inactive_count(ts, names.drop_last()) + (if ts.at(names.last()).activated {
            0nat
        } else {
            1nat
        })
    }
}

/// The targets after one is made active.
pub open spec fn activate(ts: TargetsModel, name: Str) -> TargetsModel {
    ts.put(name, TargetModel { activated: true, ..ts.at(name) })
}

pub proof fn lemma_inactive_less(ts: TargetsModel, names: Seq<Str>, name: Str)
    requires
        !ts.at(name).activated,
    ensures
        inactive_count(activate(ts, name), names) <= inactive_count(ts, names),
        names.contains(name) ==> inactive_count(activate(ts, name), names) < inactive_count(
            ts,
            names,
        ),
    decreases names.len(),
{
    if names.len() > 0 {
        lemma_inactive_less(ts, names.drop_last(), name);
        if names.contains(name) && names.last() != name {
            let i = choose|i: int| 0 <= i < names.len() && names[i] == name;
            assert(names.drop_last()[i] == name);
        }
    }
}

/// The targets after each one on a stack, and all that it leads to, is made active.
pub open spec fn activate_all(ts: TargetsModel, stack: Seq<Str>) -> TargetsModel
    decreases inactive_count(ts, ts.keys), stack.len(),
{
    if stack.len() == 0 {
        ts
    } else {
        let name = stack.last();
        let rest = stack.drop_last();
        if ts.has(name) && ts.keys.contains(name) && !ts.at(name).activated {
            proof {
                lemma_inactive_less(ts, ts.keys, name);
            }
            activate_all(activate(ts, name), rest + ts.at(name).depends_on_targets)
        } else {
            activate_all(ts, rest)
        }
    }
}

/// Makes a target active, and all targets that it depends on.
pub fn activate_target_transitive(targets: &mut Targets, target_name: &str)
    requires
        old(targets).wf(),
    ensures
        final(targets).wf(),
        final(targets).deep_view() == activate_all(old(targets).deep_view(), seq![target_name@]),
{
    let mut stack: Vec<String> = Vec::new();
    stack.push(target_name.to_owned());
    let ghost goal = activate_all(targets.deep_view(), seq![target_name@]);
    assert(stack.deep_view() =~= seq![target_name@]);
    while stack.len() > 0
        invariant
            targets.wf(),
            goal == activate_all(targets.deep_view(), stack.deep_view()),
        decreases
            inactive_count(targets.deep_view(), targets.deep_view().keys),
            stack.len(),
    {
        let ghost ts = targets.deep_view();
        let ghost before = stack.deep_view();
        let name = stack.pop().unwrap();
        assert(before.last() == name@);
        assert(stack.deep_view() =~= before.drop_last());
        proof {
            targets.lemma_valid();
            assert(ts.has(name@) <==> ts.keys.contains(name@));
        }
        if let Some(i) = targets.position(name.as_str()) {
            if !targets.value(i).activated {
                proof {
                    lemma_inactive_less(ts, ts.keys, name@);
                }
                let t = targets.value_mut(i);
                t.activated = true;
                let mut deps = crate::text::copy_list(&t.depends_on_targets);
                assert(deps.deep_view() =~= ts.at(name@).depends_on_targets);
                let ghost rest = stack.deep_view();
                let ghost more = deps.deep_view();
                assert(targets.deep_view() =~= activate(ts, name@));
                stack.append(&mut deps);
                assert(stack.deep_view() =~= rest + more);
            }
        }
    }
    assert(stack.deep_view() =~= Seq::<Str>::empty());
}

/// Whether targets differ in being active alone, and none is made inactive.
pub open spec fn only_activated(a: TargetsModel, b: TargetsModel) -> bool {
    &&& a.keys == b.keys
    &&& forall|k: Str| #[trigger] b.has(k) == a.has(k)
    &&& forall|k: Str| #[trigger]
        b.has(k) ==> (a.at(k).activated ==> b.at(k).activated) && (TargetModel {
            activated: b.at(k).activated,
            ..a.at(k)
        }) == b.at(k)
}

spec fn deps_active_or(ts: TargetsModel, start: TargetsModel, stack: Seq<Str>) -> bool {
    forall|k: Str, d: Str|
        #![trigger ts.at(k).depends_on_targets.contains(d)]
        ts.has(k) && ts.at(k).activated && !start.at(k).activated
            && ts.at(k).depends_on_targets.contains(d) && ts.has(d) ==> ts.at(d).activated
            || stack.contains(d)
}

proof fn lemma_activate_all(start: TargetsModel, ts: TargetsModel, stack: Seq<Str>)
    requires
        start.valid(),
        only_activated(start, ts),
        deps_active_or(ts, start, stack),
    ensures
        only_activated(start, activate_all(ts, stack)),
        deps_active_or(activate_all(ts, stack), start, Seq::empty()),
        only_activated(ts, activate_all(ts, stack)),
        forall|i: int|
            0 <= i < stack.len() && ts.has(#[trigger] stack[i]) ==> activate_all(ts, stack).at(
                stack[i],
            ).activated,
    decreases inactive_count(ts, ts.keys), stack.len(),
{
    let done = activate_all(ts, stack);
    if stack.len() > 0 {
        let name = stack.last();
        let rest = stack.drop_last();
        assert(ts.has(name) == start.has(name));
        assert(start.map.contains_key(name) <==> start.keys.contains(name));
        assert forall|x: Str| stack.contains(x) implies x == name || #[trigger] rest.contains(x) by {
            let i = choose|i: int| 0 <= i < stack.len() && stack[i] == x;
            if i < rest.len() {
                assert(rest[i] == x);
            }
        }
        if ts.has(name) && !ts.at(name).activated {
            lemma_inactive_less(ts, ts.keys, name);
            let next = activate(ts, name);
            let deps = ts.at(name).depends_on_targets;
            let more = rest + deps;
            assert forall|x: Str| rest.contains(x) || deps.contains(x) implies
                #[trigger] more.contains(x) by {
                if rest.contains(x) {
                    let i = choose|i: int| 0 <= i < rest.len() && rest[i] == x;
                    assert(more[i] == x);
                } else {
                    let i = choose|i: int| 0 <= i < deps.len() && deps[i] == x;
                    assert(more[rest.len() + i] == x);
                }
            }
            assert(only_activated(start, next)) by {
                assert forall|k: Str| #[trigger] next.has(k) == start.has(k) by {
                    assert(ts.has(k) == start.has(k));
                }
                assert forall|k: Str| #[trigger] next.has(k) implies (start.at(k).activated
                    ==> next.at(k).activated) && (TargetModel {
                    activated: next.at(k).activated,
                    ..start.at(k)
                }) == next.at(k) by {
                    assert(ts.has(k));
                }
            }
            assert(deps_active_or(next, start, more)) by {
                assert forall|k: Str, d: Str|
                    #![trigger next.at(k).depends_on_targets.contains(d)]
                    next.has(k) && next.at(k).activated && !start.at(k).activated && next.at(
                        k,
                    ).depends_on_targets.contains(d) && next.has(d) implies next.at(d).activated
                    || more.contains(d) by {
                    if k != name {
                        assert(ts.at(k).depends_on_targets.contains(d));
                    }
                }
            }
            lemma_activate_all(start, next, more);
            assert(only_activated(ts, done)) by {
                assert forall|k: Str| #[trigger] done.has(k) == ts.has(k) by {
                    assert(done.has(k) == next.has(k));
                }
                assert forall|k: Str| #[trigger] done.has(k) implies (ts.at(k).activated
                    ==> done.at(k).activated) && (TargetModel {
                    activated: done.at(k).activated,
                    ..ts.at(k)
                }) == done.at(k) by {
                    assert(next.has(k));
                }
            }
            assert forall|i: int| 0 <= i < stack.len() && ts.has(#[trigger] stack[i]) implies
                done.at(stack[i]).activated by {
                if i < rest.len() {
                    assert(more[i] == stack[i]);
                    assert(next.has(more[i]));
                } else {
                    assert(done.has(name));
                    assert(next.at(name).activated);
                }
            }
        } else {
            assert(deps_active_or(ts, start, rest)) by {
                assert forall|k: Str, d: Str|
                    #![trigger ts.at(k).depends_on_targets.contains(d)]
                    ts.has(k) && ts.at(k).activated && !start.at(k).activated && ts.at(
                        k,
                    ).depends_on_targets.contains(d) && ts.has(d) implies ts.at(d).activated
                    || rest.contains(d) by {}
            }
            lemma_activate_all(start, ts, rest);
            assert forall|i: int| 0 <= i < stack.len() && ts.has(#[trigger] stack[i]) implies
                done.at(stack[i]).activated by {
                if i < rest.len() {
                    assert(rest[i] == stack[i]);
                } else {
                    assert(done.has(name));
                }
            }
        }
    } else {
        assert forall|k: Str, d: Str|
            #![trigger ts.at(k).depends_on_targets.contains(d)]
            ts.has(k) && ts.at(k).activated && !start.at(k).activated
                && ts.at(k).depends_on_targets.contains(d) && ts.has(d) implies ts.at(d).activated
            || Seq::<Str>::empty().contains(d) by {}
    }
}

/// Activating a target makes it active, and with each target that becomes active all that
/// it depends on. Nothing else of a target changes, and none becomes inactive.
pub proof fn law_activation(ts: TargetsModel, name: Str)
    requires
        ts.valid(),
    ensures
        ({
            let done = activate_all(ts, seq![name]);
            &&& only_activated(ts, done)
            &&& ts.has(name) ==> done.at(name).activated
            &&& forall|k: Str, d: Str|
                #![trigger done.at(k).depends_on_targets.contains(d)]
                done.has(k) && done.at(k).activated && !ts.at(k).activated && done.at(
                    k,
                ).depends_on_targets.contains(d) && done.has(d) ==> done.at(d).activated
        }),
{
    lemma_activate_all(ts, ts, seq![name]);
    assert(seq![name][0] == name);
}

} // verus!
