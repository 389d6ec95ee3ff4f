//! Each outcome of a batch is taken in, and none that could be applied is left waiting.
use crate::apply::{apply_outcome, attempt_events, judged, stale, take_on, Step};
use crate::apply_laws::{in_time, law_last_outcome, law_outcome_decides};
use crate::batch::{
    apply_again, apply_in_order, batch_known, last_outcome, meta_names, resolve_batch, settle,
    update_affected, update_service, update_services, waits, Progress,
};
use crate::graph::Layer;
use crate::health::lemma_meta_names;
use crate::keeps::{
    law_apply_changes_probes, law_meta_changes_probes, lemma_only_probes_trans,
};
use crate::model::{lemma_ref_round_trip, lemma_ref_text, parse_ref, RedModel, RefModel, StateModel};
use crate::ops::Report;
use crate::probe::{OutcomeModel, ResultModel};
use crate::propagate::{pending_result, recovery_result};
use crate::propagate_laws::{
    kept_or_moved, law_pending_keeps_failures, law_recovery_keeps_failures, lemma_set_probe,
    only_probes_changed, only_probes_differ,
};
use crate::resolve::{apply_held, deps_green, release_all, release_from, HeldModel};
use crate::round_laws::{is_green, lemma_metas_touch, lemma_probes_valid};
use crate::runtime::{probe_at, set_probe, ProbeModel, ServicesModel};
use crate::text::Str;
use vstd::prelude::*;

verus! {

/// Whether a probe has the same record of its last check, and is as it was if it failed by itself.
pub open spec fn same_record(p: ProbeModel, q: ProbeModel) -> bool {
    &&& q.last_probe_ms == p.last_probe_ms
    &&& q.last_error == p.last_error
    &&& q.last_log_match == p.last_log_match
    &&& q.probe_config == p.probe_config
    &&& q.depends_on == p.depends_on
    &&& (p.state matches StateModel::Red(why) && why is ProbeFailed) ==> q.state == p.state
}

/// The outcome of a check leaves the records of other probes as they are, and leaves those failed
/// that failed by themselves.
pub proof fn law_outcome_spares_others(
    g: Layer,
    s: ServicesModel,
    report: Report,
    r: RefModel,
    o: OutcomeModel,
    x: RefModel,
)
    requires
        probe_at(s, r) is Some || stale(s, r, o),
        x != r,
    ensures
        match (probe_at(s, x), probe_at(apply_outcome(g, s, report, r, o).services, x)) {
            (Some(p), Some(q)) => same_record(p, q),
            (None, None) => true,
            _ => false,
        },
{
    if !stale(s, r, o) {
        let told = Report { events: report.events + attempt_events(r, o), statuses: report.statuses };
        let (state, ms, error) = judged(s, r, o);
        let p = probe_at(s, r)->0;
        let taken = ProbeModel {
            state,
            prev_color: Some(p.state.color()),
            last_probe_ms: Some(ms),
            last_error: error,
            ..p
        };
        let next = set_probe(s, r, taken);
        lemma_set_probe(s, r, taken);
        law_recovery_keeps_failures(g, r.text(), next, Seq::empty(), x);
        law_pending_keeps_failures(g, r.text(), next, Seq::empty(), x);
        assert(kept_or_moved(
            next,
            recovery_result(g, r.text(), next, Seq::empty()).services,
            x,
            true,
        ));
        assert(kept_or_moved(
            next,
            pending_result(g, r.text(), next, Seq::empty()).services,
            x,
            false,
        ));
        let step = take_on(g, s, told, r, state, ms, error);
        if o.matched_lines.len() > 0 {
            if let Some(q) = probe_at(step.services, r) {
                lemma_set_probe(
                    step.services,
                    r,
                    ProbeModel { last_log_match: Some(o.matched_lines.last()), ..q },
                );
            }
        }
    }
}

/// How long a check took.
pub open spec fn time_of(o: OutcomeModel) -> u64 {
    match o.result {
        ResultModel::Passed { duration_ms } => duration_ms,
        ResultModel::Failed { duration_ms, .. } => duration_ms,
    }
}

/// Whether a probe has taken in an outcome: it knows how long the check took, and is red with the
/// error where the check failed.
pub open spec fn has_taken(s: ServicesModel, x: RefModel, o: OutcomeModel) -> bool {
    probe_at(s, x) matches Some(p) && p.last_probe_ms == Some(time_of(o)) && (
    o.result matches ResultModel::Failed { error, duration_ms } ==> p.last_error == Some(error)
        && p.state == StateModel::Red(RedModel::ProbeFailed { error, duration_ms }))
}

/// Whether just the values of probes have changed since, and a probe is there that has a check of
/// its own.
pub open spec fn goes_on(a: ServicesModel, s: ServicesModel, x: RefModel) -> bool {
    &&& only_probes_changed(a, s)
    &&& probe_at(s, x) matches Some(p) && !(p.probe_config is Meta)
}

pub proof fn lemma_still_there(a: ServicesModel, s: ServicesModel, r: RefModel)
    requires
        only_probes_changed(a, s),
        probe_at(a, r) is Some,
    ensures
        probe_at(s, r) is Some,
        s.at(r.service).generation == a.at(r.service).generation,
{
    assert(a.has(r.service) == s.has(r.service));
    assert(only_probes_differ(a.at(r.service), s.at(r.service)));
    assert(a.at(r.service).probes.has(r.probe) == s.at(r.service).probes.has(r.probe));
}

proof fn lemma_key_known(s: ServicesModel, batch: Seq<(RefModel, OutcomeModel)>, key: Str)
    requires
        batch_known(s, batch),
        last_outcome(batch, key) is Some,
    ensures
        parse_ref(key) is Some,
        probe_at(s, parse_ref(key)->0) is Some,
{
    law_last_outcome(batch, key);
    let o = last_outcome(batch, key)->0;
    let i = choose|i: int|
        0 <= i < batch.len() && (#[trigger] batch[i]).1 == o && batch[i].0.service + seq!['.']
            + batch[i].0.probe == key && forall|j: int|
            i < j < batch.len() ==> (#[trigger] batch[j]).0.text() != key;
    lemma_ref_round_trip(batch[i].0);
}

pub proof fn lemma_apply_goes_on(
    g: Layer,
    a: ServicesModel,
    s: ServicesModel,
    report: Report,
    r: RefModel,
    o: OutcomeModel,
    x: RefModel,
    ox: OutcomeModel,
)
    requires
        goes_on(a, s, x),
        probe_at(a, r) is Some,
        in_time(a, x, ox),
        r == x ==> o == ox,
    ensures
        goes_on(a, apply_outcome(g, s, report, r, o).services, x),
        r == x || has_taken(s, x, ox) ==> has_taken(
            apply_outcome(g, s, report, r, o).services,
            x,
            ox,
        ),
{
    let t = apply_outcome(g, s, report, r, o).services;
    lemma_still_there(a, s, r);
    law_apply_changes_probes(g, s, report, r, o);
    lemma_only_probes_trans(a, s, t);
    if r == x {
        law_outcome_decides(g, s, report, r, o);
    } else {
        law_outcome_spares_others(g, s, report, r, o, x);
    }
}

proof fn lemma_order_takes(
    g: Layer,
    batch: Seq<(RefModel, OutcomeModel)>,
    order: Seq<Str>,
    st: Step,
    key: Str,
    o: OutcomeModel,
)
    requires
        batch_known(st.services, batch),
        last_outcome(batch, key) == Some(o),
        in_time(st.services, parse_ref(key)->0, o),
        probe_at(st.services, parse_ref(key)->0) matches Some(p) && !(p.probe_config is Meta),
        only_probes_changed(st.services, st.services),
    ensures
        goes_on(
            st.services,
            apply_in_order(g, batch, order, st).services,
            parse_ref(key)->0,
        ),
        order.contains(key) ==> has_taken(
            apply_in_order(g, batch, order, st).services,
            parse_ref(key)->0,
            o,
        ),
    decreases order.len(),
{
    if order.len() > 0 {
        let front = order.drop_last();
        let last = order[order.len() - 1];
        let x = parse_ref(key)->0;
        lemma_order_takes(g, batch, front, st, key, o);
        if order.contains(key) && key != last {
            let i = choose|i: int| 0 <= i < order.len() && order[i] == key;
            assert(front[i] == key);
        }
        let so_far = apply_in_order(g, batch, front, st);
        if let Some(other) = last_outcome(batch, last) {
            lemma_key_known(st.services, batch, last);
            lemma_key_known(st.services, batch, key);
            let r = parse_ref(last)->0;
            lemma_ref_text(last);
            lemma_ref_text(key);
            assert(r == x ==> last == key);
            lemma_apply_goes_on(
                g,
                st.services,
                so_far.services,
                so_far.report,
                r,
                other,
                x,
                o,
            );
        }
    }
}

proof fn lemma_again_takes(
    g: Layer,
    a: ServicesModel,
    batch: Seq<(RefModel, OutcomeModel)>,
    order: Seq<Str>,
    st: Step,
    key: Str,
    o: OutcomeModel,
)
    requires
        batch_known(a, batch),
        last_outcome(batch, key) == Some(o),
        in_time(a, parse_ref(key)->0, o),
        goes_on(a, st.services, parse_ref(key)->0),
    ensures
        goes_on(a, apply_again(g, batch, order, st).0.services, parse_ref(key)->0),
        has_taken(st.services, parse_ref(key)->0, o) ==> has_taken(
            apply_again(g, batch, order, st).0.services,
            parse_ref(key)->0,
            o,
        ),
    decreases order.len(),
{
    if order.len() > 0 {
        let front = order.drop_last();
        let last = order.last();
        let x = parse_ref(key)->0;
        lemma_again_takes(g, a, batch, front, st, key, o);
        let so_far = apply_again(g, batch, front, st).0;
        if let Some(other) = last_outcome(batch, last) {
            lemma_key_known(a, batch, last);
            lemma_key_known(a, batch, key);
            let r = parse_ref(last)->0;
            lemma_ref_text(last);
            lemma_ref_text(key);
            if waits(so_far.services, r) {
                lemma_apply_goes_on(g, a, so_far.services, so_far.report, r, other, x, o);
            }
        }
    }
}

pub proof fn lemma_valid_on(a: ServicesModel, s: ServicesModel)
    requires
        forall|k: Str| #[trigger] a.has(k) ==> a.at(k).probes.valid(),
        only_probes_changed(a, s),
    ensures
        forall|k: Str| #[trigger] s.has(k) ==> s.at(k).probes.valid(),
{
    assert forall|k: Str| #[trigger] s.has(k) implies s.at(k).probes.valid() by {
        assert(a.has(k) == s.has(k));
        assert(only_probes_differ(a.at(k), s.at(k)));
        lemma_probes_valid(a.at(k), s.at(k));
    }
}

pub proof fn lemma_update_spares(at: Progress, svc: Str, x: RefModel)
    requires
        at.services.has(svc) ==> at.services.at(svc).probes.valid(),
        probe_at(at.services, x) matches Some(p) && !(p.probe_config is Meta),
    ensures
        probe_at(update_service(at, svc).services, x) == probe_at(at.services, x),
{
    if at.services.has(svc) {
        let probes = at.services.at(svc).probes;
        let names = meta_names(probes, probes.keys);
        lemma_meta_names(probes, probes.keys);
        assert forall|i: int| 0 <= i < names.len() implies probe_at(
            at.services,
            RefModel { service: svc, probe: #[trigger] names[i] },
        ) is Some by {
            assert(probes.keys.contains(names[i]));
            assert(probes.map.contains_key(names[i]));
        }
        if x.service == svc && names.contains(x.probe) {
            let i = choose|i: int| 0 <= i < names.len() && names[i] == x.probe;
            assert(probes.at(names[i]).probe_config is Meta);
        }
        lemma_metas_touch(at, svc, names, x);
    }
}

pub proof fn lemma_updates_spare(a: ServicesModel, at: Progress, svcs: Seq<Str>, x: RefModel)
    requires
        forall|k: Str| #[trigger] a.has(k) ==> a.at(k).probes.valid(),
        goes_on(a, at.services, x),
    ensures
        goes_on(a, update_services(at, svcs).services, x),
        probe_at(update_services(at, svcs).services, x) == probe_at(at.services, x),
    decreases svcs.len(),
{
    if svcs.len() > 0 {
        let front = svcs.drop_last();
        lemma_updates_spare(a, at, front, x);
        let before = update_services(at, front);
        lemma_valid_on(a, before.services);
        lemma_update_spares(before, svcs.last(), x);
        law_meta_changes_probes(before, svcs.last());
        lemma_only_probes_trans(
            a,
            before.services,
            update_service(before, svcs.last()).services,
        );
    }
}

proof fn lemma_settle_takes(
    g: Layer,
    a: ServicesModel,
    batch: Seq<(RefModel, OutcomeModel)>,
    order: Seq<Str>,
    st: Step,
    n: nat,
    key: Str,
    o: OutcomeModel,
)
    requires
        batch_known(a, batch),
        forall|k: Str| #[trigger] a.has(k) ==> a.at(k).probes.valid(),
        last_outcome(batch, key) == Some(o),
        in_time(a, parse_ref(key)->0, o),
        goes_on(a, st.services, parse_ref(key)->0),
        has_taken(st.services, parse_ref(key)->0, o),
    ensures
        has_taken(settle(g, batch, order, st, n).services, parse_ref(key)->0, o),
        only_probes_changed(a, settle(g, batch, order, st, n).services),
    decreases n,
{
    if n > 0 {
        let x = parse_ref(key)->0;
        let fresh = update_affected(st);
        lemma_updates_spare(
            a,
            Progress { services: st.services, report: st.report },
            st.affected,
            x,
        );
        lemma_again_takes(g, a, batch, order, fresh, key, o);
        let next = apply_again(g, batch, order, fresh).0;
        lemma_settle_takes(g, a, batch, order, next, (n - 1) as nat, key, o);
    }
}

/// Each outcome of a batch that comes in time is taken in, if it is the last one for its probe:
/// once the batch is applied the probe knows how long the check took, and where the check failed it
/// is red with the error. Nothing changes but values of probes.
pub proof fn law_batch_takes_all(
    g: Layer,
    batch: Seq<(RefModel, OutcomeModel)>,
    order: Seq<Str>,
    st: Step,
    i: int,
)
    requires
        batch_known(st.services, batch),
        forall|k: Str| #[trigger] st.services.has(k) ==> st.services.at(k).probes.valid(),
        0 <= i < batch.len(),
        forall|j: int| i < j < batch.len() ==> (#[trigger] batch[j]).0 != batch[i].0,
        in_time(st.services, batch[i].0, batch[i].1),
        !(probe_at(st.services, batch[i].0)->0.probe_config is Meta),
        order.contains(batch[i].0.text()),
    ensures
        has_taken(resolve_batch(g, batch, order, st).services, batch[i].0, batch[i].1),
        only_probes_changed(st.services, resolve_batch(g, batch, order, st).services),
{
    let x = batch[i].0;
    let o = batch[i].1;
    let key = x.text();
    lemma_ref_round_trip(x);
    assert(last_outcome(batch, key) == Some(o)) by {
        assert forall|j: int| i < j < batch.len() implies (#[trigger] batch[j]).0.text() != key by {
            lemma_ref_round_trip(batch[j].0);
        }
        lemma_last(batch, i);
    }
    assert(only_probes_changed(st.services, st.services)) by {
        assert forall|k: Str| #[trigger] st.services.has(k) implies only_probes_differ(
            st.services.at(k),
            st.services.at(k),
        ) by {}
    }
    lemma_order_takes(g, batch, order, st, key, o);
    let first = apply_in_order(g, batch, order, st);
    lemma_settle_takes(
        g,
        st.services,
        batch,
        order,
        first,
        crate::batch::round_limit(order.len()),
        key,
        o,
    );
}

proof fn lemma_last(batch: Seq<(RefModel, OutcomeModel)>, i: int)
    requires
        0 <= i < batch.len(),
        forall|j: int|
            i < j < batch.len() ==> (#[trigger] batch[j]).0.text() != batch[i].0.text(),
    ensures
        last_outcome(batch, batch[i].0.text()) == Some(batch[i].1),
    decreases batch.len(),
{
    if i < batch.len() - 1 {
        let front = batch.drop_last();
        assert(front[i] == batch[i]);
        assert forall|j: int| i < j < front.len() implies (#[trigger] front[j]).0.text()
            != front[i].0.text() by {
            assert(front[j] == batch[j]);
        }
        assert(batch[batch.len() - 1].0.text() != batch[i].0.text());
        lemma_last(front, i);
    }
}

proof fn lemma_release_from(g: Layer, st: Step, held: HeldModel, i: nat)
    requires
        i <= held.len(),
        forall|j: int| 0 <= j < i ==> !deps_green(st.services, (#[trigger] held[j]).0),
    ensures
        ({
            let (next, left) = release_from(g, st, held, i);
            &&& left.len() <= held.len()
            &&& left.len() == held.len() ==> next == st && left == held && forall|j: int|
                0 <= j < held.len() ==> !deps_green(st.services, (#[trigger] held[j]).0)
            &&& forall|x: (RefModel, OutcomeModel)| #[trigger] left.contains(x) ==> held.contains(x)
        }),
    decreases held.len() - i,
{
    if i < held.len() {
        let (r, o) = held[i as int];
        if deps_green(st.services, r) {
            let fewer = held.remove(i as int);
            let next = apply_held(g, st, r, o);
            lemma_fewer(g, next, fewer, i);
            assert forall|x: (RefModel, OutcomeModel)| #[trigger]
                release_from(g, next, fewer, i).1.contains(x) implies held.contains(x) by {
                let j = choose|j: int| 0 <= j < fewer.len() && fewer[j] == x;
                if j < i {
                    assert(held[j] == x);
                } else {
                    assert(held[j + 1] == x);
                }
            }
        } else {
            lemma_release_from(g, st, held, i + 1);
        }
    }
}

proof fn lemma_fewer(g: Layer, st: Step, held: HeldModel, i: nat)
    requires
        i <= held.len(),
    ensures
        release_from(g, st, held, i).1.len() <= held.len(),
        forall|x: (RefModel, OutcomeModel)| #[trigger]
            release_from(g, st, held, i).1.contains(x) ==> held.contains(x),
    decreases held.len() - i,
{
    if i < held.len() {
        let (r, o) = held[i as int];
        if deps_green(st.services, r) {
            let fewer = held.remove(i as int);
            let next = apply_held(g, st, r, o);
            lemma_fewer(g, next, fewer, i);
            assert forall|x: (RefModel, OutcomeModel)| #[trigger]
                release_from(g, next, fewer, i).1.contains(x) implies held.contains(x) by {
                let j = choose|j: int| 0 <= j < fewer.len() && fewer[j] == x;
                if j < i {
                    assert(held[j] == x);
                } else {
                    assert(held[j + 1] == x);
                }
            }
        } else {
            lemma_fewer(g, st, held, i + 1);
        }
    }
}

/// Once outcomes that were held back are released, each that is left belongs to a probe that
/// depends on one that is not green, or that is not there. None is left that was not held back.
pub proof fn law_none_left_waiting(g: Layer, st: Step, held: HeldModel)
    ensures
        ({
            let (next, left) = release_all(g, st, held);
            &&& forall|j: int|
                0 <= j < left.len() ==> !(probe_at(
                    next.services,
                    (#[trigger] left[j]).0,
                ) matches Some(p) && forall|i: int|
                    0 <= i < p.depends_on.len() ==> is_green(
                        next.services,
                        #[trigger] p.depends_on[i],
                    ))
            &&& forall|x: (RefModel, OutcomeModel)| #[trigger] left.contains(x) ==> held.contains(x)
        }),
    decreases held.len(),
{
    let (next, left) = release_from(g, st, held, 0);
    lemma_release_from(g, st, held, 0);
    if left.len() < held.len() {
        law_none_left_waiting(g, next, left);
    } else {
        assert forall|j: int| 0 <= j < left.len() implies !(probe_at(
            next.services,
            (#[trigger] left[j]).0,
        ) matches Some(p) && forall|i: int|
            0 <= i < p.depends_on.len() ==> is_green(next.services, #[trigger] p.depends_on[i])) by {
            assert(!deps_green(st.services, held[j].0));
            if let Some(p) = probe_at(next.services, left[j].0) {
                let deps = p.depends_on;
                let i = choose|i: int|
                    0 <= i < deps.len() && !crate::runtime::green_at(
                        st.services,
                        #[trigger] deps[i],
                    );
                assert(!is_green(next.services, p.depends_on[i]));
            }
        }
    }
}

} // verus!
