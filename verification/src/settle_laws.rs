//! A batch of outcomes is applied until nothing changes any more.
use crate::apply::{
    apply_outcome, attempt_events, first_bad, judged, law_green_needs_green, passed_state, stale,
    take_on, Step,
};
use crate::batch::{
    apply_again, apply_in_order, last_outcome, meta_names, meta_state, resolve_batch, round_limit,
    settle, update_affected, update_meta, update_metas, update_services, waits, Progress,
};
use crate::graph::Layer;
use crate::health::{
    all_timely, healthy, lemma_affected_heals, lemma_again_heals, lemma_all_still_timely,
    lemma_apply_heals, lemma_in_order_heals, lemma_last_timely, lemma_meta_names, lemma_meta_state,
    lemma_steady_sound, lemma_steady_trans, lemma_update_meta_heals, same_service, sound, steady,
    timely,
};
use crate::model::{lemma_ref_round_trip, parse_ref, ProbeColor, RefModel, StateModel};
use crate::names::{lemma_unseen_less, lemma_with_name, unseen};
use crate::ops::Report;
use crate::ordered_map::Table;
use crate::probe::OutcomeModel;
use crate::probe_meta::{acyclic, rank_of, ranked_by};
use crate::propagate::{moved, passed_on, start_walk, visit_pending, walk_pending, Walk};
use crate::propagate_laws::{
    kept_or_moved, law_pending_keeps_failures, law_recovery_keeps_failures, lemma_set_probe,
};
use crate::runtime::{
    all_green_at, green_at, probe_at, red_at, set_probe, ProbeModel, ServicesModel,
};
use crate::text::Str;
use vstd::prelude::*;

verus! {

/// The color of a probe.
pub open spec fn color_at(s: ServicesModel, r: RefModel) -> ProbeColor {
    probe_at(s, r)->0.state.color()
}

/// Whether services and probes are in place as they were, each probe with its color.
pub open spec fn looks_same(a: ServicesModel, b: ServicesModel) -> bool {
    steady(a, b) && forall|r: RefModel|
        probe_at(a, r) is Some ==> #[trigger] color_at(b, r) == color_at(a, r)
}

proof fn lemma_steady_refl(a: ServicesModel)
    ensures
        steady(a, a),
        looks_same(a, a),
{
}

proof fn lemma_looks_trans(a: ServicesModel, b: ServicesModel, c: ServicesModel)
    requires
        looks_same(a, b),
        looks_same(b, c),
    ensures
        looks_same(a, c),
{
    lemma_steady_trans(a, b, c);
    assert forall|r: RefModel| probe_at(a, r) is Some implies #[trigger] color_at(c, r) == color_at(
        a,
        r,
    ) by {
        let m = probe_at(b, r);
        assert(color_at(b, r) == color_at(a, r));
    }
}

proof fn lemma_first_bad(s: ServicesModel, deps: Seq<RefModel>)
    ensures
        first_bad(s, deps) is Some <==> exists|i: int|
            0 <= i < deps.len() && (probe_at(s, #[trigger] deps[i]) is None || red_at(s, deps[i])),
    decreases deps.len(),
{
    if deps.len() > 0 {
        let front = deps.drop_last();
        lemma_first_bad(s, front);
        assert(deps[deps.len() - 1] == deps.last());
        if first_bad(s, front) is Some {
            let i = choose|i: int|
                0 <= i < front.len() && (probe_at(s, #[trigger] front[i]) is None || red_at(
                    s,
                    front[i],
                ));
            assert(deps[i] == front[i]);
        }
        if exists|i: int|
            0 <= i < deps.len() && (probe_at(s, #[trigger] deps[i]) is None || red_at(s, deps[i])) {
            let i = choose|i: int|
                0 <= i < deps.len() && (probe_at(s, #[trigger] deps[i]) is None || red_at(
                    s,
                    deps[i],
                ));
            if i < front.len() {
                assert(front[i] == deps[i]);
            }
        }
    }
}

/// Whether one of some probes is red or missing comes of their colors.
proof fn lemma_bad_looks(a: ServicesModel, b: ServicesModel, deps: Seq<RefModel>)
    requires
        steady(a, b),
        forall|i: int|
            0 <= i < deps.len() && probe_at(a, #[trigger] deps[i]) is Some ==> color_at(b, deps[i])
                == color_at(a, deps[i]),
    ensures
        first_bad(a, deps) is Some <==> first_bad(b, deps) is Some,
        all_green_at(a, deps) <==> all_green_at(b, deps),
{
    lemma_first_bad(a, deps);
    lemma_first_bad(b, deps);
    assert forall|i: int| 0 <= i < deps.len() implies (probe_at(a, #[trigger] deps[i]) is None
        <==> probe_at(b, deps[i]) is None) && (red_at(a, deps[i]) <==> red_at(b, deps[i])) && (
    green_at(a, deps[i]) <==> green_at(b, deps[i])) by {
        let m = probe_at(b, deps[i]);
    }
    if all_green_at(a, deps) {
        assert forall|i: int| 0 <= i < deps.len() implies green_at(b, #[trigger] deps[i]) by {
            assert(green_at(a, deps[i]));
        }
    }
    if all_green_at(b, deps) {
        assert forall|i: int| 0 <= i < deps.len() implies green_at(a, #[trigger] deps[i]) by {
            assert(green_at(b, deps[i]));
        }
    }
}

/// The color of a meta probe: green behind green probes, red behind one that is red or missing,
/// else pending.
proof fn lemma_meta_color(s: ServicesModel, r: RefModel)
    requires
        acyclic(s),
        healthy(s),
        probe_at(s, r) is Some,
    ensures
        meta_state(s, r).color() == (if all_green_at(s, probe_at(s, r)->0.depends_on) {
            ProbeColor::Green
        } else if first_bad(s, probe_at(s, r)->0.depends_on) is Some {
            ProbeColor::Red
        } else {
            ProbeColor::Pending
        }),
{
    lemma_meta_state(s, r);
}

/// A meta probe is to have the same color where all that it depends on has.
proof fn lemma_meta_looks(a: ServicesModel, b: ServicesModel, r: RefModel)
    requires
        acyclic(a),
        healthy(a),
        acyclic(b),
        healthy(b),
        steady(a, b),
        probe_at(a, r) is Some,
        forall|i: int|
            0 <= i < probe_at(a, r)->0.depends_on.len() && probe_at(
                a,
                #[trigger] probe_at(a, r)->0.depends_on[i],
            ) is Some ==> color_at(b, probe_at(a, r)->0.depends_on[i]) == color_at(
                a,
                probe_at(a, r)->0.depends_on[i],
            ),
    ensures
        meta_state(a, r).color() == meta_state(b, r).color(),
{
    let m = probe_at(b, r);
    lemma_meta_color(a, r);
    lemma_meta_color(b, r);
    lemma_bad_looks(a, b, probe_at(a, r)->0.depends_on);
}

/// Whether a meta probe has the color that it is to have.
pub open spec fn is_right(s: ServicesModel, m: RefModel) -> bool {
    color_at(s, m) == meta_state(s, m).color()
}

/// Whether a meta probe of a list has the color that it is to have, and so have all of the list
/// that it depends on.
pub open spec fn is_settled(s: ServicesModel, list: Seq<RefModel>, m: RefModel) -> bool
    decreases rank_of(s, m),
    when acyclic(s)
{
    is_right(s, m) && forall|i: int|
        0 <= i < probe_at(s, m)->0.depends_on.len() && probe_at(s, m) is Some && list.contains(
            #[trigger] probe_at(s, m)->0.depends_on[i],
        ) ==> is_settled(s, list, probe_at(s, m)->0.depends_on[i])
}

proof fn lemma_rank(s: ServicesModel, q: RefModel, i: int)
    requires
        acyclic(s),
        probe_at(s, q) is Some,
        0 <= i < probe_at(s, q)->0.depends_on.len(),
    ensures
        rank_of(s, probe_at(s, q)->0.depends_on[i]) < rank_of(s, q),
{
    let rank = choose|rank: spec_fn(RefModel) -> nat| ranked_by(s, rank);
    assert(rank(probe_at(s, q)->0.depends_on[i]) < rank(q));
}

/// Whether a list holds meta probes alone.
pub open spec fn all_metas(s: ServicesModel, list: Seq<RefModel>) -> bool {
    forall|i: int|
        0 <= i < list.len() ==> (probe_at(s, #[trigger] list[i]) matches Some(p)
            && p.probe_config is Meta)
}

/// A settled meta probe stays so when one that is not settled, or any that keeps its color, is
/// changed.
proof fn lemma_settled_stays(
    g: Layer,
    a: ServicesModel,
    b: ServicesModel,
    list: Seq<RefModel>,
    x: RefModel,
    m: RefModel,
)
    requires
        sound(g, a),
        sound(g, b),
        steady(a, b),
        all_metas(a, list),
        list.contains(x),
        list.contains(m),
        forall|r: RefModel|
            r != x && probe_at(a, r) is Some ==> #[trigger] color_at(b, r) == color_at(a, r),
        is_settled(a, list, x) ==> color_at(b, x) == color_at(a, x),
        is_settled(a, list, m),
    ensures
        is_settled(b, list, m),
    decreases rank_of(a, m),
{
    let k = choose|k: int| 0 <= k < list.len() && list[k] == m;
    assert(probe_at(a, list[k]) is Some);
    let deps = probe_at(a, m)->0.depends_on;
    assert(probe_at(b, m)->0.depends_on == deps) by {
        let n = probe_at(b, m);
    }
    assert forall|i: int|
        0 <= i < probe_at(a, m)->0.depends_on.len() && probe_at(
            a,
            #[trigger] probe_at(a, m)->0.depends_on[i],
        ) is Some implies color_at(b, probe_at(a, m)->0.depends_on[i]) == color_at(
        a,
        probe_at(a, m)->0.depends_on[i],
    ) by {
        let d = probe_at(a, m)->0.depends_on[i];
        if d == x {
            assert(is_settled(a, list, d));
        }
    }
    lemma_meta_looks(a, b, m);
    assert(color_at(b, m) == color_at(a, m));
    assert forall|i: int|
        0 <= i < probe_at(b, m)->0.depends_on.len() && probe_at(b, m) is Some && list.contains(
            #[trigger] probe_at(b, m)->0.depends_on[i],
        ) implies is_settled(b, list, probe_at(b, m)->0.depends_on[i]) by {
        let d = deps[i];
        assert(list.contains(probe_at(a, m)->0.depends_on[i]));
        assert(is_settled(a, list, probe_at(a, m)->0.depends_on[i]));
        lemma_rank(a, m, i);
        lemma_settled_stays(g, a, b, list, x, d);
    }
}

/// The progress after some meta probes are brought up to date.
pub open spec fn update_refs(at: Progress, list: Seq<RefModel>) -> Progress
    decreases list.len(),
{
    if list.len() == 0 {
        at
    } else {
        update_meta(update_refs(at, list.drop_last()), list.last())
    }
}

/// The references to the named probes of a service.
pub open spec fn refs_to(svc: Str, names: Seq<Str>) -> Seq<RefModel> {
    Seq::new(names.len(), |i: int| RefModel { service: svc, probe: names[i] })
}

/// The meta probes of some services.
pub open spec fn metas_of(s: ServicesModel, svcs: Seq<Str>) -> Seq<RefModel>
    decreases svcs.len(),
{
    if svcs.len() == 0 {
        Seq::empty()
    } else {
        let so_far = metas_of(s, svcs.drop_last());
        let svc = svcs.last();
        if s.has(svc) {
            so_far + refs_to(svc, meta_names(s.at(svc).probes, s.at(svc).probes.keys))
        } else {
            so_far
        }
    }
}

proof fn lemma_metas_as_refs(at: Progress, svc: Str, names: Seq<Str>)
    ensures
        update_metas(at, svc, names) == update_refs(at, refs_to(svc, names)),
    decreases names.len(),
{
    if names.len() > 0 {
        lemma_metas_as_refs(at, svc, names.drop_last());
        assert(refs_to(svc, names).drop_last() =~= refs_to(svc, names.drop_last()));
    }
}

proof fn lemma_refs_split(at: Progress, a: Seq<RefModel>, b: Seq<RefModel>)
    ensures
        update_refs(at, a + b) == update_refs(update_refs(at, a), b),
    decreases b.len(),
{
    if b.len() == 0 {
        assert(a + b =~= a);
    } else {
        lemma_refs_split(at, a, b.drop_last());
        assert((a + b).drop_last() =~= a + b.drop_last());
        assert((a + b).last() == b.last());
    }
}

proof fn lemma_names_stay(
    a: ServicesModel,
    b: ServicesModel,
    svc: Str,
    keys: Seq<Str>,
)
    requires
        steady(a, b),
        a.has(svc),
        forall|i: int| 0 <= i < keys.len() ==> a.at(svc).probes.has(#[trigger] keys[i]),
    ensures
        meta_names(a.at(svc).probes, keys) == meta_names(b.at(svc).probes, keys),
    decreases keys.len(),
{
    if keys.len() > 0 {
        let front = keys.drop_last();
        assert forall|i: int| 0 <= i < front.len() implies a.at(svc).probes.has(
            #[trigger] front[i],
        ) by {
            assert(front[i] == keys[i]);
        }
        lemma_names_stay(a, b, svc, front);
        assert(a.at(svc).probes.has(keys[keys.len() - 1]));
        let r = RefModel { service: svc, probe: keys.last() };
        assert(b.has(svc) == a.has(svc));
        let m = probe_at(b, r);
        assert(probe_at(a, r) is Some);
    }
}

proof fn lemma_all_have(s: ServicesModel, g: Layer, svc: Str)
    requires
        sound(g, s),
        s.has(svc),
    ensures
        forall|i: int|
            0 <= i < s.at(svc).probes.keys.len() ==> s.at(svc).probes.has(
                #[trigger] s.at(svc).probes.keys[i],
            ),
{
    let probes = s.at(svc).probes;
    assert(probes.valid());
    assert forall|i: int| 0 <= i < probes.keys.len() implies probes.has(
        #[trigger] probes.keys[i],
    ) by {
        assert(probes.keys.contains(probes.keys[i]));
        assert(probes.map.contains_key(probes.keys[i]));
    }
}

/// The meta probes of services stay the same ones.
proof fn lemma_metas_stay(g: Layer, a: ServicesModel, b: ServicesModel, svcs: Seq<Str>)
    requires
        sound(g, a),
        steady(a, b),
    ensures
        metas_of(a, svcs) == metas_of(b, svcs),
        all_metas(a, metas_of(a, svcs)),
        forall|m: RefModel|
            svcs.contains(m.service) && (probe_at(a, m) matches Some(p) && p.probe_config is Meta)
                ==> #[trigger] metas_of(a, svcs).contains(m),
    decreases svcs.len(),
{
    if svcs.len() > 0 {
        let front = svcs.drop_last();
        let svc = svcs[svcs.len() - 1];
        let so_far = metas_of(a, front);
        let all = metas_of(a, svcs);
        lemma_metas_stay(g, a, b, front);
        assert(b.has(svc) == a.has(svc));
        let probes = a.at(svc).probes;
        let names = meta_names(probes, probes.keys);
        if a.has(svc) {
            lemma_all_have(a, g, svc);
            lemma_names_stay(a, b, svc, probes.keys);
            lemma_meta_names(probes, probes.keys);
            assert(same_service(a.at(svc), b.at(svc)));
        }
        assert forall|i: int| 0 <= i < all.len() implies (probe_at(
            a,
            #[trigger] all[i],
        ) matches Some(p) && p.probe_config is Meta) by {
            if i < so_far.len() {
                assert(all[i] == so_far[i]);
            } else {
                let n = names[i - so_far.len()];
                assert(probes.keys.contains(n));
                let j = choose|j: int| 0 <= j < probes.keys.len() && probes.keys[j] == n;
                assert(probes.has(probes.keys[j]));
            }
        }
        assert forall|m: RefModel|
            svcs.contains(m.service) && (probe_at(a, m) matches Some(p) && p.probe_config is Meta)
            implies #[trigger] all.contains(m) by {
            if m.service == svc {
                assert(probes.map.contains_key(m.probe) <==> probes.keys.contains(m.probe)) by {
                    assert(probes.valid());
                }
                lemma_meta_listed(probes, probes.keys, m.probe);
                let j = choose|j: int| 0 <= j < names.len() && names[j] == m.probe;
                assert(all[so_far.len() + j] == m);
            } else {
                let i = choose|i: int| 0 <= i < svcs.len() && svcs[i] == m.service;
                assert(front[i] == m.service);
                assert(so_far.contains(m));
                let j = choose|j: int| 0 <= j < so_far.len() && so_far[j] == m;
                assert(all[j] == m);
            }
        }
    }
}

proof fn lemma_meta_listed(probes: Table<ProbeModel>, keys: Seq<Str>, p: Str)
    requires
        keys.contains(p),
        probes.at(p).probe_config is Meta,
    ensures
        meta_names(probes, keys).contains(p),
    decreases keys.len(),
{
    let front = keys.drop_last();
    let all = meta_names(probes, keys);
    let some = meta_names(probes, front);
    if keys.last() == p {
        assert(all[some.len() as int] == p);
    } else {
        let i = choose|i: int| 0 <= i < keys.len() && keys[i] == p;
        assert(front[i] == p);
        lemma_meta_listed(probes, front, p);
        let j = choose|j: int| 0 <= j < some.len() && some[j] == p;
        assert(all[j] == p);
    }
}

/// Bringing a meta probe up to date changes its color alone, and tells it if it does.
proof fn lemma_one_meta(g: Layer, at: Progress, x: RefModel)
    requires
        sound(g, at.services),
        probe_at(at.services, x) matches Some(p) && p.probe_config is Meta,
    ensures
        ({
            let b = update_meta(at, x);
            &&& sound(g, b.services)
            &&& steady(at.services, b.services)
            &&& color_at(b.services, x) == meta_state(at.services, x).color()
            &&& forall|r: RefModel|
                r != x && probe_at(at.services, r) is Some ==> #[trigger] color_at(b.services, r)
                    == color_at(at.services, r)
            &&& b.report.events.len() == at.report.events.len() + (if is_right(at.services, x) {
                0nat
            } else {
                1nat
            })
        }),
{
    let s = at.services;
    let p = probe_at(s, x)->0;
    let state = meta_state(s, x);
    let b = update_meta(at, x);
    lemma_update_meta_heals(g, at, x);
    lemma_steady_sound(g, s, b.services);
    lemma_set_probe(s, x, moved(p, state));
    lemma_text_color(state.color(), p.state.color());
    assert forall|r: RefModel| r != x && probe_at(s, r) is Some implies #[trigger] color_at(
        b.services,
        r,
    ) == color_at(s, r) by {
        assert(probe_at(b.services, r) == probe_at(s, r));
    }
}

proof fn lemma_text_color(a: ProbeColor, b: ProbeColor)
    ensures
        a.text() == b.text() <==> a == b,
{
    reveal_strlit("green");
    reveal_strlit("red");
    reveal_strlit("pending");
    assert("green"@.len() == 5 && "red"@.len() == 3 && "pending"@.len() == 7);
}

/// Bringing meta probes up to date keeps all in place.
proof fn lemma_refs_sound(g: Layer, at: Progress, part: Seq<RefModel>)
    requires
        sound(g, at.services),
        all_metas(at.services, part),
    ensures
        sound(g, update_refs(at, part).services),
        steady(at.services, update_refs(at, part).services),
        update_refs(at, part).report.events.len() >= at.report.events.len(),
    decreases part.len(),
{
    if part.len() == 0 {
        lemma_steady_refl(at.services);
    } else {
        let front = part.drop_last();
        let x = part[part.len() - 1];
        lemma_front_metas(at.services, part);
        lemma_refs_sound(g, at, front);
        let a = update_refs(at, front);
        assert(probe_at(at.services, x) is Some);
        let m = probe_at(a.services, x);
        lemma_one_meta(g, a, x);
        lemma_steady_trans(at.services, a.services, update_meta(a, x).services);
    }
}

proof fn lemma_front_metas(s: ServicesModel, part: Seq<RefModel>)
    requires
        all_metas(s, part),
        part.len() > 0,
    ensures
        all_metas(s, part.drop_last()),
        probe_at(s, part.last()) matches Some(p) && p.probe_config is Meta,
{
    let front = part.drop_last();
    assert forall|i: int| 0 <= i < front.len() implies (probe_at(s, #[trigger] front[i]) matches Some(
        p,
    ) && p.probe_config is Meta) by {
        assert(front[i] == part[i]);
    }
    assert(part[part.len() - 1] == part.last());
}

proof fn lemma_steady_metas(a: ServicesModel, b: ServicesModel, list: Seq<RefModel>)
    requires
        steady(a, b),
        all_metas(a, list),
    ensures
        all_metas(b, list),
{
    assert forall|i: int| 0 <= i < list.len() implies (probe_at(b, #[trigger] list[i]) matches Some(
        p,
    ) && p.probe_config is Meta) by {
        assert(probe_at(a, list[i]) is Some);
        let m = probe_at(b, list[i]);
    }
}

/// Meta probes that are settled stay so while others of their list are brought up to date.
proof fn lemma_refs_keep_settled(
    g: Layer,
    at: Progress,
    part: Seq<RefModel>,
    list: Seq<RefModel>,
    m: RefModel,
)
    requires
        sound(g, at.services),
        all_metas(at.services, part),
        all_metas(at.services, list),
        forall|i: int| 0 <= i < part.len() ==> list.contains(#[trigger] part[i]),
        list.contains(m),
        is_settled(at.services, list, m),
    ensures
        is_settled(update_refs(at, part).services, list, m),
    decreases part.len(),
{
    if part.len() > 0 {
        let front = part.drop_last();
        let x = part[part.len() - 1];
        lemma_front_metas(at.services, part);
        assert forall|i: int| 0 <= i < front.len() implies list.contains(#[trigger] front[i]) by {
            assert(front[i] == part[i]);
        }
        lemma_refs_keep_settled(g, at, front, list, m);
        lemma_refs_sound(g, at, front);
        let a = update_refs(at, front);
        let b = update_meta(a, x);
        assert(probe_at(at.services, x) is Some);
        let n = probe_at(a.services, x);
        lemma_one_meta(g, a, x);
        lemma_steady_metas(at.services, a.services, list);
        assert(list.contains(part[part.len() - 1]));
        lemma_settled_stays(g, a.services, b.services, list, x, m);
    }
}

/// Whether all probes of a list that a probe depends on are settled.
spec fn deps_settled(s: ServicesModel, list: Seq<RefModel>, x: RefModel) -> bool {
    forall|i: int|
        0 <= i < probe_at(s, x)->0.depends_on.len() && list.contains(
            #[trigger] probe_at(s, x)->0.depends_on[i],
        ) ==> is_settled(s, list, probe_at(s, x)->0.depends_on[i])
}

/// A meta probe behind settled ones is settled once it is brought up to date.
proof fn lemma_meta_settles(g: Layer, at: Progress, list: Seq<RefModel>, x: RefModel)
    requires
        sound(g, at.services),
        all_metas(at.services, list),
        list.contains(x),
        deps_settled(at.services, list, x),
    ensures
        is_settled(update_meta(at, x).services, list, x),
{
    let k = choose|k: int| 0 <= k < list.len() && list[k] == x;
    assert(probe_at(at.services, list[k]) is Some);
    lemma_one_meta(g, at, x);
    let (s, t) = (at.services, update_meta(at, x).services);
    let deps = probe_at(s, x)->0.depends_on;
    assert(probe_at(t, x) is Some && probe_at(t, x)->0.depends_on == deps) by {
        let o = probe_at(t, x);
    }
    assert(meta_state(s, x).color() == meta_state(t, x).color()) by {
        assert forall|i: int|
            0 <= i < probe_at(s, x)->0.depends_on.len() && probe_at(
                s,
                #[trigger] probe_at(s, x)->0.depends_on[i],
            ) is Some implies color_at(t, probe_at(s, x)->0.depends_on[i]) == color_at(
            s,
            probe_at(s, x)->0.depends_on[i],
        ) by {
            lemma_rank(s, x, i);
        }
        lemma_meta_looks(s, t, x);
    }
    assert forall|i: int|
        0 <= i < probe_at(t, x)->0.depends_on.len() && probe_at(t, x) is Some && list.contains(
            #[trigger] probe_at(t, x)->0.depends_on[i],
        ) implies is_settled(t, list, probe_at(t, x)->0.depends_on[i]) by {
        let d = probe_at(s, x)->0.depends_on[i];
        assert(is_settled(s, list, d));
        lemma_settled_stays(g, s, t, list, x, d);
    }
}

/// Meta probes behind settled ones are settled once they are brought up to date.
proof fn lemma_refs_settle(
    g: Layer,
    at: Progress,
    part: Seq<RefModel>,
    list: Seq<RefModel>,
    x: RefModel,
)
    requires
        sound(g, at.services),
        all_metas(at.services, part),
        all_metas(at.services, list),
        forall|i: int| 0 <= i < part.len() ==> list.contains(#[trigger] part[i]),
        part.contains(x),
        deps_settled(at.services, list, x),
    ensures
        is_settled(update_refs(at, part).services, list, x),
    decreases part.len(),
{
    let front = part.drop_last();
    let y = part[part.len() - 1];
    lemma_front_metas(at.services, part);
    assert forall|i: int| 0 <= i < front.len() implies list.contains(#[trigger] front[i]) by {
        assert(front[i] == part[i]);
    }
    lemma_refs_sound(g, at, front);
    let a = update_refs(at, front);
    lemma_steady_metas(at.services, a.services, list);
    if y == x {
        assert(deps_settled(a.services, list, x)) by {
            assert(probe_at(a.services, x)->0.depends_on == probe_at(
                at.services,
                x,
            )->0.depends_on) by {
                let m = probe_at(a.services, x);
            }
            assert forall|i: int|
                0 <= i < probe_at(a.services, x)->0.depends_on.len() && list.contains(
                    #[trigger] probe_at(a.services, x)->0.depends_on[i],
                ) implies is_settled(a.services, list, probe_at(a.services, x)->0.depends_on[i]) by {
                let d = probe_at(at.services, x)->0.depends_on[i];
                assert(is_settled(at.services, list, d));
                lemma_refs_keep_settled(g, at, front, list, d);
            }
        }
        lemma_meta_settles(g, a, list, x);
    } else {
        let i = choose|i: int| 0 <= i < part.len() && part[i] == x;
        assert(front[i] == x);
        lemma_refs_settle(g, at, front, list, x);
        assert(list.contains(part[i]));
        assert(list.contains(y));
        let n = probe_at(a.services, y);
        assert(probe_at(at.services, y) is Some);
        lemma_one_meta(g, a, y);
        lemma_settled_stays(g, a.services, update_meta(a, y).services, list, y, x);
    }
}

/// Where one of a list is not settled, there is one behind settled ones that is not.
proof fn lemma_least_unsettled(s: ServicesModel, list: Seq<RefModel>, m: RefModel) -> (x: RefModel)
    requires
        acyclic(s),
        all_metas(s, list),
        list.contains(m),
        !is_settled(s, list, m),
    ensures
        list.contains(x),
        !is_settled(s, list, x),
        deps_settled(s, list, x),
    decreases rank_of(s, m),
{
    let k = choose|k: int| 0 <= k < list.len() && list[k] == m;
    assert(probe_at(s, list[k]) is Some);
    if deps_settled(s, list, m) {
        m
    } else {
        let i = choose|i: int|
            0 <= i < probe_at(s, m)->0.depends_on.len() && list.contains(
                #[trigger] probe_at(s, m)->0.depends_on[i],
            ) && !is_settled(s, list, probe_at(s, m)->0.depends_on[i]);
        lemma_rank(s, m, i);
        lemma_least_unsettled(s, list, probe_at(s, m)->0.depends_on[i])
    }
}

proof fn lemma_right_looks(g: Layer, a: ServicesModel, b: ServicesModel, x: RefModel)
    requires
        sound(g, a),
        sound(g, b),
        looks_same(a, b),
        probe_at(a, x) is Some,
    ensures
        is_right(a, x) == is_right(b, x),
{
    assert(color_at(b, x) == color_at(a, x));
    lemma_meta_looks(a, b, x);
}

/// Where nothing is told, each meta probe had its color, and all looks the same.
proof fn lemma_refs_quiet(g: Layer, at: Progress, part: Seq<RefModel>)
    requires
        sound(g, at.services),
        all_metas(at.services, part),
        update_refs(at, part).report.events.len() == at.report.events.len(),
    ensures
        looks_same(at.services, update_refs(at, part).services),
        forall|i: int| 0 <= i < part.len() ==> is_right(at.services, #[trigger] part[i]),
    decreases part.len(),
{
    if part.len() == 0 {
        lemma_steady_refl(at.services);
    } else {
        let front = part.drop_last();
        let x = part[part.len() - 1];
        lemma_front_metas(at.services, part);
        lemma_refs_sound(g, at, front);
        let a = update_refs(at, front);
        assert(probe_at(at.services, x) is Some);
        let m = probe_at(a.services, x);
        lemma_one_meta(g, a, x);
        lemma_refs_quiet(g, at, front);
        lemma_right_looks(g, at.services, a.services, x);
        let b = update_meta(a, x);
        assert(looks_same(a.services, b.services)) by {
            assert forall|r: RefModel| probe_at(a.services, r) is Some implies #[trigger] color_at(
                b.services,
                r,
            ) == color_at(a.services, r) by {
                if r == x {
                    assert(color_at(b.services, x) == meta_state(a.services, x).color());
                }
            }
        }
        lemma_looks_trans(at.services, a.services, b.services);
        assert forall|i: int| 0 <= i < part.len() implies is_right(
            at.services,
            #[trigger] part[i],
        ) by {
            if i < front.len() {
                assert(front[i] == part[i]);
            }
        }
    }
}

/// Where each meta probe has its color, nothing is told.
proof fn lemma_refs_all_right(g: Layer, at: Progress, part: Seq<RefModel>)
    requires
        sound(g, at.services),
        all_metas(at.services, part),
        forall|i: int| 0 <= i < part.len() ==> is_right(at.services, #[trigger] part[i]),
    ensures
        update_refs(at, part).report.events.len() == at.report.events.len(),
    decreases part.len(),
{
    if part.len() > 0 {
        let front = part.drop_last();
        let x = part[part.len() - 1];
        lemma_front_metas(at.services, part);
        assert forall|i: int| 0 <= i < front.len() implies is_right(
            at.services,
            #[trigger] front[i],
        ) by {
            assert(front[i] == part[i]);
        }
        lemma_refs_all_right(g, at, front);
        lemma_refs_sound(g, at, front);
        lemma_refs_quiet(g, at, front);
        let a = update_refs(at, front);
        assert(probe_at(at.services, x) is Some);
        let m = probe_at(a.services, x);
        lemma_right_looks(g, at.services, a.services, x);
        assert(is_right(at.services, part[part.len() - 1]));
        lemma_one_meta(g, a, x);
    }
}

/// The meta probes of services are brought up to date one by one.
proof fn lemma_services_as_refs(g: Layer, at: Progress, svcs: Seq<Str>)
    requires
        sound(g, at.services),
    ensures
        update_services(at, svcs) == update_refs(at, metas_of(at.services, svcs)),
    decreases svcs.len(),
{
    if svcs.len() > 0 {
        let front = svcs.drop_last();
        let svc = svcs.last();
        lemma_services_as_refs(g, at, front);
        lemma_steady_refl(at.services);
        lemma_metas_stay(g, at.services, at.services, front);
        let list = metas_of(at.services, front);
        lemma_refs_sound(g, at, list);
        let a = update_refs(at, list);
        assert(a.services.has(svc) == at.services.has(svc));
        if at.services.has(svc) {
            let probes = at.services.at(svc).probes;
            lemma_all_have(at.services, g, svc);
            lemma_names_stay(at.services, a.services, svc, probes.keys);
            assert(same_service(at.services.at(svc), a.services.at(svc)));
            let names = meta_names(probes, probes.keys);
            lemma_metas_as_refs(a, svc, names);
            lemma_refs_split(at, list, refs_to(svc, names));
        }
    }
}

/// Whether a walk passes on redness alone.
spec fn all_red(w: Walk, from: Str, next: Seq<Str>) -> bool {
    &&& next.len() > 0 ==> w.red.contains(from)
    &&& forall|i: int| 0 <= i < w.queue.len() ==> w.red.contains(#[trigger] w.queue[i])
}

/// A walk that passes on redness alone lets no probe wait.
proof fn lemma_walk_waits(g: Layer, a: ServicesModel, w: Walk, from: Str, next: Seq<Str>)
    requires
        all_red(w, from, next),
        forall|q: RefModel| #[trigger] waits(w.services, q) ==> waits(a, q),
    ensures
        forall|q: RefModel| #[trigger]
            waits(walk_pending(g, w, from, next).services, q) ==> waits(a, q),
    decreases unseen(g.nodes, w.visited), w.queue.len(), next.len(),
{
    if next.len() > 0 {
        let key = next[0];
        let v = visit_pending(g, w, from, key);
        lemma_with_name(w.red, key);
        if !w.visited.contains(key) && g.nodes.contains(key) {
            lemma_unseen_less(g.nodes, w.visited, key);
            if let Some(r) = parse_ref(key) {
                if let Some(p) = probe_at(w.services, r) {
                    lemma_set_probe(w.services, r, moved(p, passed_on(from, true)));
                }
            }
        }
        assert forall|q: RefModel| #[trigger] waits(v.services, q) implies waits(a, q) by {
            assert(waits(w.services, q) ==> waits(a, q));
        }
        assert(all_red(v, from, next.drop_first()));
        lemma_walk_waits(g, a, v, from, next.drop_first());
        assert(walk_pending(g, w, from, next) == walk_pending(g, v, from, next.drop_first()));
    } else if w.queue.len() > 0 {
        let popped = Walk { queue: w.queue.drop_first(), ..w };
        assert(all_red(popped, w.queue[0], g.next(w.queue[0])));
        lemma_walk_waits(g, a, popped, w.queue[0], g.next(w.queue[0]));
        assert(walk_pending(g, w, from, next) == walk_pending(
            g,
            popped,
            w.queue[0],
            g.next(w.queue[0]),
        ));
    } else {
        assert(walk_pending(g, w, from, next) == w);
    }
}

/// Whether a probe that waits goes on to do so when an outcome is applied to it.
pub open spec fn stays(s: ServicesModel, r: RefModel, o: OutcomeModel) -> bool {
    stale(s, r, o) || (o.result is Passed && passed_state(
        s,
        probe_at(s, r)->0.depends_on,
    ).0 is Pending)
}

proof fn lemma_take_on_waits(
    g: Layer,
    s: ServicesModel,
    report: Report,
    r: RefModel,
    state: StateModel,
    ms: u64,
    error: Option<Str>,
)
    requires
        sound(g, s),
        waits(s, r),
        state matches StateModel::Pending(x) ==> x is DepNotReady,
    ensures
        ({
            let b = take_on(g, s, report, r, state, ms, error);
            &&& waits(b.services, r) <==> state is Pending
            &&& forall|q: RefModel| #[trigger] waits(b.services, q) ==> waits(s, q)
            &&& state is Pending ==> b.affected.len() == 0 && (forall|q: RefModel|
                #![trigger probe_at(b.services, q)]
                q != r ==> probe_at(b.services, q) == probe_at(s, q))
        }),
{
    let p = probe_at(s, r)->0;
    let now = ProbeModel {
        state,
        prev_color: Some(p.state.color()),
        last_probe_ms: Some(ms),
        last_error: error,
        ..p
    };
    let next = set_probe(s, r, now);
    lemma_set_probe(s, r, now);
    lemma_ref_round_trip(r);
    let b = take_on(g, s, report, r, state, ms, error);
    assert forall|q: RefModel| #[trigger] waits(next, q) implies waits(s, q) by {
        if q != r {
            assert(probe_at(next, q) == probe_at(s, q));
        }
    }
    if state is Green {
        assert forall|q: RefModel| #[trigger] waits(b.services, q) implies waits(s, q) && q != r by {
            law_recovery_keeps_failures(g, r.text(), next, Seq::empty(), q);
            assert(kept_or_moved(next, b.services, q, true));
            assert(waits(next, q));
        }
    } else if state is Red {
        let w = start_walk(r.text(), true, next, Seq::empty());
        assert(all_red(w, Seq::empty(), Seq::empty())) by {
            assert(w.red[0] == r.text());
        }
        lemma_walk_waits(g, s, w, Seq::empty(), Seq::empty());
        law_pending_keeps_failures(g, r.text(), next, Seq::empty(), r);
        assert(kept_or_moved(next, b.services, r, false));
    }
}

/// What comes of the outcome for a probe that waits.
proof fn lemma_apply_waits(g: Layer, s: ServicesModel, report: Report, r: RefModel, o: OutcomeModel)
    requires
        sound(g, s),
        timely(s, r, o),
        waits(s, r),
    ensures
        ({
            let b = apply_outcome(g, s, report, r, o);
            &&& waits(b.services, r) <==> stays(s, r, o)
            &&& forall|q: RefModel| #[trigger] waits(b.services, q) ==> waits(s, q)
            &&& stays(s, r, o) ==> b.affected.len() == 0 && looks_same(s, b.services) && (forall|
                q: RefModel,
            | #[trigger]
                waits(b.services, q) == waits(s, q))
        }),
{
    lemma_steady_refl(s);
    if !stale(s, r, o) {
        let told = Report {
            events: report.events + attempt_events(r, o),
            statuses: report.statuses,
        };
        let (state, ms, error) = judged(s, r, o);
        let step = take_on(g, s, told, r, state, ms, error);
        let b = apply_outcome(g, s, report, r, o);
        lemma_take_on_waits(g, s, told, r, state, ms, error);
        lemma_apply_heals(g, s, report, r, o);
        if o.matched_lines.len() > 0 {
            if let Some(q) = probe_at(step.services, r) {
                let kept = ProbeModel { last_log_match: Some(o.matched_lines.last()), ..q };
                lemma_set_probe(step.services, r, kept);
            }
        }
        assert forall|q: RefModel| #[trigger] waits(b.services, q) == waits(step.services, q) by {
            if q != r && probe_at(step.services, r) is Some {
                assert(probe_at(b.services, q) == probe_at(step.services, q));
            }
        }
        assert forall|q: RefModel| #[trigger] waits(b.services, q) implies waits(s, q) by {
            assert(waits(step.services, q));
        }
        if state is Pending {
            assert forall|q: RefModel| probe_at(s, q) is Some implies #[trigger] color_at(
                b.services,
                q,
            ) == color_at(s, q) by {
                if q != r {
                    assert(probe_at(step.services, q) == probe_at(s, q));
                    assert(probe_at(b.services, q) == probe_at(step.services, q));
                } else {
                    assert(waits(b.services, r));
                }
            }
            assert forall|q: RefModel| #[trigger] waits(b.services, q) == waits(s, q) by {
                if q != r {
                    assert(probe_at(step.services, q) == probe_at(s, q));
                    assert(probe_at(b.services, q) == probe_at(step.services, q));
                }
            }
        }
    }
}

/// Whether no outcome of a batch is for a meta probe.
pub open spec fn none_meta(s: ServicesModel, batch: Seq<(RefModel, OutcomeModel)>) -> bool {
    forall|i: int|
        0 <= i < batch.len() ==> (probe_at(s, (#[trigger] batch[i]).0) matches Some(p) ==> !(
        p.probe_config is Meta))
}

/// Whether each meta probe is in an order of keys.
pub open spec fn metas_ordered(s: ServicesModel, order: Seq<Str>) -> bool {
    forall|q: RefModel|
        (#[trigger] probe_at(s, q) matches Some(p) && p.probe_config is Meta) ==> order.contains(
            q.text(),
        )
}

/// Whether a batch of outcomes can be applied in an order of keys: all fits together, no
/// outcome is for a meta probe, and each meta probe is in the order.
pub open spec fn can_settle(
    g: Layer,
    batch: Seq<(RefModel, OutcomeModel)>,
    order: Seq<Str>,
    s: ServicesModel,
) -> bool {
    sound(g, s) && all_timely(s, batch) && none_meta(s, batch) && metas_ordered(s, order)
}

proof fn lemma_can_still_settle(
    g: Layer,
    batch: Seq<(RefModel, OutcomeModel)>,
    order: Seq<Str>,
    a: ServicesModel,
    b: ServicesModel,
)
    requires
        can_settle(g, batch, order, a),
        steady(a, b),
        sound(g, b),
    ensures
        can_settle(g, batch, order, b),
{
    lemma_all_still_timely(a, b, batch);
    assert forall|i: int| 0 <= i < batch.len() implies (probe_at(
        b,
        (#[trigger] batch[i]).0,
    ) matches Some(p) ==> !(p.probe_config is Meta)) by {
        let m = probe_at(a, batch[i].0);
    }
    assert forall|q: RefModel|
        (#[trigger] probe_at(b, q) matches Some(p) && p.probe_config is Meta) implies order.contains(
        q.text(),
    ) by {
        let m = probe_at(a, q);
    }
}

proof fn lemma_last_not_meta(s: ServicesModel, batch: Seq<(RefModel, OutcomeModel)>, key: Str)
    requires
        all_timely(s, batch),
        none_meta(s, batch),
        last_outcome(batch, key) is Some,
    ensures
        probe_at(s, parse_ref(key)->0) matches Some(p) ==> !(p.probe_config is Meta),
    decreases batch.len(),
{
    let last = batch[batch.len() - 1];
    if last.0.text() == key {
        lemma_ref_round_trip(last.0);
    } else {
        let front = batch.drop_last();
        assert forall|i: int| 0 <= i < front.len() implies timely(
            s,
            (#[trigger] front[i]).0,
            front[i].1,
        ) && !front[i].0.service.contains('.') by {
            assert(front[i] == batch[i]);
        }
        assert forall|i: int| 0 <= i < front.len() implies (probe_at(
            s,
            (#[trigger] front[i]).0,
        ) matches Some(p) ==> !(p.probe_config is Meta)) by {
            assert(front[i] == batch[i]);
        }
        lemma_last_not_meta(s, front, key);
    }
}

/// Where no probe that waited is settled, all looks the same after it was tried.
proof fn lemma_again_idle(
    g: Layer,
    batch: Seq<(RefModel, OutcomeModel)>,
    order: Seq<Str>,
    st: Step,
)
    requires
        sound(g, st.services),
        all_timely(st.services, batch),
        !apply_again(g, batch, order, st).1,
    ensures
        ({
            let next = apply_again(g, batch, order, st).0;
            &&& looks_same(st.services, next.services)
            &&& next.affected == st.affected
            &&& forall|q: RefModel| #[trigger] waits(next.services, q) == waits(st.services, q)
        }),
    decreases order.len(),
{
    lemma_steady_refl(st.services);
    if order.len() > 0 {
        lemma_again_idle(g, batch, order.drop_last(), st);
        lemma_again_heals(g, batch, order.drop_last(), st);
        let before = apply_again(g, batch, order.drop_last(), st).0;
        if let Some(o) = last_outcome(batch, order.last()) {
            let r = parse_ref(order.last())->0;
            if waits(before.services, r) {
                lemma_all_still_timely(st.services, before.services, batch);
                lemma_last_timely(before.services, batch, order.last());
                lemma_apply_waits(g, before.services, before.report, r, o);
                let after = apply_outcome(g, before.services, before.report, r, o);
                lemma_looks_trans(st.services, before.services, after.services);
                assert forall|q: RefModel| #[trigger] waits(after.services, q) == waits(
                    st.services,
                    q,
                ) by {
                    assert(waits(before.services, q) == waits(st.services, q));
                }
            }
        }
    }
}

/// No probe comes to wait while those that wait are tried, and where one is settled there is
/// one that waits no more.
proof fn lemma_again_waits(
    g: Layer,
    batch: Seq<(RefModel, OutcomeModel)>,
    order: Seq<Str>,
    st: Step,
)
    requires
        sound(g, st.services),
        all_timely(st.services, batch),
    ensures
        ({
            let (next, any) = apply_again(g, batch, order, st);
            &&& forall|q: RefModel| #[trigger] waits(next.services, q) ==> waits(st.services, q)
            &&& any ==> exists|i: int|
                0 <= i < order.len() && last_outcome(batch, #[trigger] order[i]) is Some && waits(
                    st.services,
                    parse_ref(order[i])->0,
                ) && !waits(next.services, parse_ref(order[i])->0)
        }),
    decreases order.len(),
{
    if order.len() > 0 {
        let front = order.drop_last();
        let key = order[order.len() - 1];
        lemma_again_waits(g, batch, front, st);
        lemma_again_heals(g, batch, front, st);
        let (before, any) = apply_again(g, batch, front, st);
        let next = apply_again(g, batch, order, st).0;
        if let Some(o) = last_outcome(batch, key) {
            let r = parse_ref(key)->0;
            if waits(before.services, r) {
                lemma_all_still_timely(st.services, before.services, batch);
                lemma_last_timely(before.services, batch, key);
                lemma_apply_waits(g, before.services, before.report, r, o);
                let after = apply_outcome(g, before.services, before.report, r, o);
                assert forall|q: RefModel| #[trigger] waits(after.services, q) implies waits(
                    st.services,
                    q,
                ) && waits(before.services, q) by {}
                if !waits(after.services, r) {
                    assert(last_outcome(batch, order[order.len() - 1]) is Some);
                }
            }
        }
        if any {
            let i = choose|i: int|
                0 <= i < front.len() && last_outcome(batch, #[trigger] front[i]) is Some && waits(
                    st.services,
                    parse_ref(front[i])->0,
                ) && !waits(before.services, parse_ref(front[i])->0);
            assert(order[i] == front[i]);
            assert(!waits(next.services, parse_ref(order[i])->0));
        }
    }
}

/// Where no probe was settled, none is in what looks the same.
proof fn lemma_idle_again(
    g: Layer,
    batch: Seq<(RefModel, OutcomeModel)>,
    order: Seq<Str>,
    a: Step,
    b: Step,
)
    requires
        sound(g, a.services),
        all_timely(a.services, batch),
        none_meta(a.services, batch),
        sound(g, b.services),
        looks_same(a.services, b.services),
        forall|q: RefModel|
            (probe_at(a.services, q) matches Some(p) && !(p.probe_config is Meta)) ==> (
            #[trigger] waits(b.services, q) ==> waits(a.services, q)),
        !apply_again(g, batch, order, a).1,
    ensures
        !apply_again(g, batch, order, b).1,
    decreases order.len(),
{
    if order.len() > 0 {
        let front = order.drop_last();
        let key = order.last();
        lemma_idle_again(g, batch, front, a, b);
        if let Some(o) = last_outcome(batch, key) {
            let r = parse_ref(key)->0;
            lemma_all_still_timely(a.services, b.services, batch);
            lemma_again_idle(g, batch, front, a);
            lemma_again_idle(g, batch, front, b);
            lemma_again_heals(g, batch, front, a);
            lemma_again_heals(g, batch, front, b);
            let x = apply_again(g, batch, front, a).0;
            let y = apply_again(g, batch, front, b).0;
            if waits(y.services, r) {
                assert(waits(b.services, r));
                lemma_last_not_meta(a.services, batch, key);
                let m = probe_at(b.services, r);
                assert(waits(a.services, r));
                assert(waits(x.services, r));
                lemma_all_still_timely(a.services, x.services, batch);
                lemma_all_still_timely(b.services, y.services, batch);
                lemma_last_timely(x.services, batch, key);
                lemma_last_timely(y.services, batch, key);
                lemma_apply_waits(g, x.services, x.report, r, o);
                lemma_apply_waits(g, y.services, y.report, r, o);
                lemma_stays_looks(a.services, x.services, r, o);
                lemma_stays_looks(a.services, b.services, r, o);
                lemma_stays_looks(b.services, y.services, r, o);
            }
        }
    }
}

/// Whether a probe goes on to wait comes of colors.
proof fn lemma_stays_looks(a: ServicesModel, b: ServicesModel, r: RefModel, o: OutcomeModel)
    requires
        looks_same(a, b),
        probe_at(a, r) is Some,
    ensures
        stays(a, r, o) == stays(b, r, o),
{
    let deps = probe_at(a, r)->0.depends_on;
    let m = probe_at(b, r);
    assert(b.has(r.service) == a.has(r.service));
    if a.has(r.service) {
        assert(same_service(a.at(r.service), b.at(r.service)));
    }
    lemma_bad_looks(a, b, deps);
    law_green_needs_green(a, deps);
    law_green_needs_green(b, deps);
}

/// How many of some keys are as told.
spec fn count(keys: Seq<Str>, f: spec_fn(Str) -> bool) -> nat
    decreases keys.len(),
{
    if keys.len() == 0 {
        0
    } else {
        count(keys.drop_last(), f) + (if f(keys.last()) {
            1nat
        } else {
            0nat
        })
    }
}

proof fn lemma_count(keys: Seq<Str>, f: spec_fn(Str) -> bool, h: spec_fn(Str) -> bool)
    requires
        forall|i: int| 0 <= i < keys.len() && f(#[trigger] keys[i]) ==> h(keys[i]),
    ensures
        count(keys, f) <= count(keys, h) <= keys.len(),
        (exists|i: int| 0 <= i < keys.len() && h(#[trigger] keys[i]) && !f(keys[i])) ==> count(
            keys,
            f,
        ) < count(keys, h),
    decreases keys.len(),
{
    if keys.len() > 0 {
        let front = keys.drop_last();
        assert forall|i: int| 0 <= i < front.len() && f(#[trigger] front[i]) implies h(front[i]) by {
            assert(front[i] == keys[i]);
        }
        lemma_count(front, f, h);
        assert(keys[keys.len() - 1] == keys.last());
        if exists|i: int| 0 <= i < keys.len() && h(#[trigger] keys[i]) && !f(keys[i]) {
            let i = choose|i: int| 0 <= i < keys.len() && h(#[trigger] keys[i]) && !f(keys[i]);
            if i < front.len() {
                assert(front[i] == keys[i]);
            }
        }
    }
}

/// Tells whether a key names a probe that waits and has an outcome.
spec fn waiting(batch: Seq<(RefModel, OutcomeModel)>, s: ServicesModel) -> spec_fn(Str) -> bool {
    |k: Str| last_outcome(batch, k) is Some && waits(s, parse_ref(k)->0)
}

/// Tells whether a key names a meta probe of a list that is not settled.
spec fn unsettled(s: ServicesModel, list: Seq<RefModel>) -> spec_fn(Str) -> bool {
    |k: Str| parse_ref(k) matches Some(m) && list.contains(m) && !is_settled(s, list, m)
}

/// How far a step is from the end: first come the probes that wait, then the meta probes that
/// are not settled.
spec fn distance(batch: Seq<(RefModel, OutcomeModel)>, order: Seq<Str>, st: Step) -> nat {
    count(order, waiting(batch, st.services)) * (order.len() + 1) + count(
        order,
        unsettled(st.services, metas_of(st.services, st.affected)),
    )
}

/// Bringing meta probes up to date touches no other probe.
proof fn lemma_refs_touch(g: Layer, at: Progress, part: Seq<RefModel>)
    requires
        sound(g, at.services),
        all_metas(at.services, part),
    ensures
        forall|q: RefModel|
            #![trigger probe_at(update_refs(at, part).services, q)]
            (probe_at(at.services, q) matches Some(p) && !(p.probe_config is Meta)) ==> probe_at(
                update_refs(at, part).services,
                q,
            ) == probe_at(at.services, q),
    decreases part.len(),
{
    if part.len() > 0 {
        let front = part.drop_last();
        let x = part[part.len() - 1];
        lemma_front_metas(at.services, part);
        lemma_refs_sound(g, at, front);
        lemma_refs_touch(g, at, front);
        let a = update_refs(at, front);
        assert(probe_at(at.services, x) is Some);
        let m = probe_at(a.services, x);
        lemma_set_probe(a.services, x, moved(m->0, meta_state(a.services, x)));
        let b = update_meta(a, x);
        assert forall|q: RefModel|
            #![trigger probe_at(b.services, q)]
            (probe_at(at.services, q) matches Some(p) && !(p.probe_config is Meta)) implies probe_at(
            b.services,
            q,
        ) == probe_at(at.services, q) by {
            if q != x {
                assert(probe_at(b.services, q) == probe_at(a.services, q));
            }
        }
    }
}

/// Bringing the meta probes of the affected services up to date, one by one.
proof fn lemma_affected_as_refs(g: Layer, st: Step)
    requires
        sound(g, st.services),
    ensures
        ({
            let at = Progress { services: st.services, report: st.report };
            let list = metas_of(st.services, st.affected);
            &&& all_metas(st.services, list)
            &&& update_affected(st).services == update_refs(at, list).services
            &&& update_affected(st).report == update_refs(at, list).report
        }),
{
    let at = Progress { services: st.services, report: st.report };
    lemma_services_as_refs(g, at, st.affected);
    lemma_steady_refl(st.services);
    lemma_metas_stay(g, st.services, st.services, st.affected);
}

/// Whether one more round settles no probe that waits and turns no meta probe another color.
pub open spec fn quiet(
    g: Layer,
    batch: Seq<(RefModel, OutcomeModel)>,
    order: Seq<Str>,
    st: Step,
) -> bool {
    let fresh = update_affected(st);
    fresh.report.events.len() == st.report.events.len() && !apply_again(g, batch, order, fresh).1
}

/// The step after one more round.
pub open spec fn one_round(
    g: Layer,
    batch: Seq<(RefModel, OutcomeModel)>,
    order: Seq<Str>,
    st: Step,
) -> Step {
    apply_again(g, batch, order, update_affected(st)).0
}

proof fn lemma_round_heals(
    g: Layer,
    batch: Seq<(RefModel, OutcomeModel)>,
    order: Seq<Str>,
    st: Step,
)
    requires
        can_settle(g, batch, order, st.services),
    ensures
        can_settle(g, batch, order, update_affected(st).services),
        steady(st.services, update_affected(st).services),
        can_settle(g, batch, order, one_round(g, batch, order, st).services),
        steady(st.services, one_round(g, batch, order, st).services),
{
    let fresh = update_affected(st);
    lemma_affected_heals(g, st);
    lemma_can_still_settle(g, batch, order, st.services, fresh.services);
    lemma_again_heals(g, batch, order, fresh);
    let next = one_round(g, batch, order, st);
    lemma_can_still_settle(g, batch, order, fresh.services, next.services);
    lemma_steady_trans(st.services, fresh.services, next.services);
}

/// Bringing meta probes up to date leaves as many probes to wait as there were.
proof fn lemma_affected_waiting(
    g: Layer,
    batch: Seq<(RefModel, OutcomeModel)>,
    order: Seq<Str>,
    st: Step,
)
    requires
        can_settle(g, batch, order, st.services),
    ensures
        count(order, waiting(batch, update_affected(st).services)) <= count(
            order,
            waiting(batch, st.services),
        ),
        forall|q: RefModel|
            (probe_at(st.services, q) matches Some(p) && !(p.probe_config is Meta)) ==> (
            #[trigger] waits(update_affected(st).services, q) == waits(st.services, q)),
{
    let at = Progress { services: st.services, report: st.report };
    let list = metas_of(st.services, st.affected);
    let fresh = update_affected(st);
    lemma_affected_as_refs(g, st);
    lemma_refs_touch(g, at, list);
    lemma_affected_heals(g, st);
    assert forall|q: RefModel|
        (probe_at(st.services, q) matches Some(p) && !(p.probe_config is Meta)) implies (
    #[trigger] waits(fresh.services, q) == waits(st.services, q)) by {
        assert(probe_at(fresh.services, q) == probe_at(st.services, q));
    }
    let f = waiting(batch, fresh.services);
    let h = waiting(batch, st.services);
    assert forall|i: int| 0 <= i < order.len() && f(#[trigger] order[i]) implies h(order[i]) by {
        let r = parse_ref(order[i])->0;
        lemma_last_not_meta(st.services, batch, order[i]);
        assert(waits(fresh.services, r));
        let m = probe_at(fresh.services, r);
        assert(probe_at(st.services, r) is Some);
    }
    lemma_count(order, f, h);
}

/// Where a meta probe turns another color, fewer are left to settle.
proof fn lemma_affected_settles(
    g: Layer,
    batch: Seq<(RefModel, OutcomeModel)>,
    order: Seq<Str>,
    st: Step,
)
    requires
        can_settle(g, batch, order, st.services),
        update_affected(st).report.events.len() != st.report.events.len(),
    ensures
        ({
            let list = metas_of(st.services, st.affected);
            count(order, unsettled(update_affected(st).services, list)) < count(
                order,
                unsettled(st.services, list),
            )
        }),
{
    let at = Progress { services: st.services, report: st.report };
    let list = metas_of(st.services, st.affected);
    let fresh = update_affected(st);
    lemma_affected_as_refs(g, st);
    lemma_affected_heals(g, st);
    if forall|i: int| 0 <= i < list.len() ==> is_right(st.services, #[trigger] list[i]) {
        lemma_refs_all_right(g, at, list);
    }
    let j = choose|j: int| 0 <= j < list.len() && !is_right(st.services, #[trigger] list[j]);
    assert(list.contains(list[j]));
    let x = lemma_least_unsettled(st.services, list, list[j]);
    assert forall|i: int| 0 <= i < list.len() implies list.contains(#[trigger] list[i]) by {}
    lemma_refs_settle(g, at, list, list, x);
    let f = unsettled(fresh.services, list);
    let h = unsettled(st.services, list);
    assert forall|i: int| 0 <= i < order.len() && f(#[trigger] order[i]) implies h(order[i]) by {
        let m = parse_ref(order[i])->0;
        if is_settled(st.services, list, m) {
            lemma_refs_keep_settled(g, at, list, list, m);
        }
    }
    let k = choose|k: int| 0 <= k < list.len() && list[k] == x;
    assert(probe_at(st.services, list[k]) is Some);
    assert(order.contains(x.text()));
    let i = choose|i: int| 0 <= i < order.len() && order[i] == x.text();
    lemma_ref_round_trip(x);
    assert(h(order[i]) && !f(order[i]));
    lemma_count(order, f, h);
}

/// A round that is not quiet comes closer to the end.
proof fn lemma_round_nearer(
    g: Layer,
    batch: Seq<(RefModel, OutcomeModel)>,
    order: Seq<Str>,
    st: Step,
)
    requires
        can_settle(g, batch, order, st.services),
        !quiet(g, batch, order, st),
    ensures
        distance(batch, order, one_round(g, batch, order, st)) < distance(batch, order, st),
{
    let fresh = update_affected(st);
    let next = one_round(g, batch, order, st);
    let n = order.len();
    let list = metas_of(st.services, st.affected);
    let before = count(order, waiting(batch, st.services));
    let after = count(order, waiting(batch, next.services));
    lemma_round_heals(g, batch, order, st);
    lemma_affected_waiting(g, batch, order, st);
    lemma_again_waits(g, batch, order, fresh);
    let f = waiting(batch, next.services);
    let h = waiting(batch, fresh.services);
    assert forall|i: int| 0 <= i < order.len() && f(#[trigger] order[i]) implies h(order[i]) by {
        assert(waits(next.services, parse_ref(order[i])->0));
    }
    lemma_count(order, f, h);
    let left = unsettled(next.services, metas_of(next.services, next.affected));
    lemma_count(order, left, left);
    if apply_again(g, batch, order, fresh).1 {
        let i = choose|i: int|
            0 <= i < order.len() && last_outcome(batch, #[trigger] order[i]) is Some && waits(
                fresh.services,
                parse_ref(order[i])->0,
            ) && !waits(next.services, parse_ref(order[i])->0);
        assert(h(order[i]) && !f(order[i]));
        assert(after * (n + 1) + n < before * (n + 1)) by (nonlinear_arith)
            requires
                after + 1 <= before,
        ;
    } else {
        lemma_affected_settles(g, batch, order, st);
        lemma_again_idle(g, batch, order, fresh);
        lemma_metas_stay(g, st.services, next.services, st.affected);
        lemma_affected_as_refs(g, st);
        lemma_steady_metas(st.services, fresh.services, list);
        let u = unsettled(fresh.services, list);
        assert forall|i: int| 0 <= i < order.len() && left(#[trigger] order[i]) implies u(
            order[i],
        ) by {
            let m = parse_ref(order[i])->0;
            if is_settled(fresh.services, list, m) {
                lemma_settled_stays(g, fresh.services, next.services, list, m, m);
            }
        }
        lemma_count(order, left, u);
        assert(after * (n + 1) <= before * (n + 1)) by (nonlinear_arith)
            requires
                after <= before,
        ;
    }
}

/// After a quiet round comes a quiet round.
proof fn lemma_quiet_stays(
    g: Layer,
    batch: Seq<(RefModel, OutcomeModel)>,
    order: Seq<Str>,
    st: Step,
)
    requires
        can_settle(g, batch, order, st.services),
        quiet(g, batch, order, st),
    ensures
        quiet(g, batch, order, one_round(g, batch, order, st)),
        looks_same(st.services, one_round(g, batch, order, st).services),
{
    let at = Progress { services: st.services, report: st.report };
    let list = metas_of(st.services, st.affected);
    let fresh = update_affected(st);
    let next = one_round(g, batch, order, st);
    lemma_round_heals(g, batch, order, st);
    lemma_affected_as_refs(g, st);
    lemma_refs_quiet(g, at, list);
    lemma_again_idle(g, batch, order, fresh);
    lemma_looks_trans(st.services, fresh.services, next.services);
    lemma_metas_stay(g, st.services, next.services, st.affected);
    lemma_steady_metas(st.services, next.services, list);
    lemma_affected_as_refs(g, next);
    let then = Progress { services: next.services, report: next.report };
    assert forall|i: int| 0 <= i < list.len() implies is_right(next.services, #[trigger] list[i]) by {
        assert(probe_at(st.services, list[i]) is Some);
        lemma_right_looks(g, st.services, next.services, list[i]);
    }
    lemma_refs_all_right(g, then, list);
    lemma_refs_quiet(g, then, list);
    let again = update_affected(next);
    lemma_round_heals(g, batch, order, next);
    lemma_looks_trans(fresh.services, next.services, again.services);
    lemma_affected_waiting(g, batch, order, next);
    assert forall|q: RefModel|
        (probe_at(fresh.services, q) matches Some(p) && !(p.probe_config is Meta)) implies (
    #[trigger] waits(again.services, q) ==> waits(fresh.services, q)) by {
        let m = probe_at(next.services, q);
        assert(waits(next.services, q) == waits(fresh.services, q));
    }
    lemma_idle_again(g, batch, order, fresh, again);
}

/// Rounds enough for the distance lead to the end.
proof fn lemma_settle_quiet(
    g: Layer,
    batch: Seq<(RefModel, OutcomeModel)>,
    order: Seq<Str>,
    st: Step,
    n: nat,
)
    requires
        can_settle(g, batch, order, st.services),
        distance(batch, order, st) <= n,
    ensures
        can_settle(g, batch, order, settle(g, batch, order, st, n).services),
        quiet(g, batch, order, settle(g, batch, order, st, n)),
    decreases n,
{
    lemma_round_heals(g, batch, order, st);
    if quiet(g, batch, order, st) {
        lemma_quiet_stays(g, batch, order, st);
    } else {
        lemma_round_nearer(g, batch, order, st);
        lemma_settle_quiet(g, batch, order, one_round(g, batch, order, st), (n - 1) as nat);
    }
}

/// A batch of outcomes is applied to the end: one more round would settle no probe that waits,
/// would bring no meta probe up to date, and would leave every probe with its color.
pub proof fn law_batch_settles(
    g: Layer,
    batch: Seq<(RefModel, OutcomeModel)>,
    order: Seq<Str>,
    st: Step,
)
    requires
        can_settle(g, batch, order, st.services),
    ensures
        quiet(g, batch, order, resolve_batch(g, batch, order, st)),
        looks_same(
            resolve_batch(g, batch, order, st).services,
            one_round(g, batch, order, resolve_batch(g, batch, order, st)).services,
        ),
{
    let first = apply_in_order(g, batch, order, st);
    lemma_in_order_heals(g, batch, order, st);
    lemma_can_still_settle(g, batch, order, st.services, first.services);
    let n = order.len();
    let f = waiting(batch, first.services);
    let h = unsettled(first.services, metas_of(first.services, first.affected));
    lemma_count(order, f, f);
    lemma_count(order, h, h);
    let w = count(order, f);
    assert(w * (n + 1) + n <= n * (n + 2)) by (nonlinear_arith)
        requires
            w <= n,
    ;
    lemma_settle_quiet(g, batch, order, first, round_limit(n));
    lemma_quiet_stays(g, batch, order, resolve_batch(g, batch, order, st));
}

} // verus!
