//! What holds of a target that is brought to green.
use crate::app_state::AppModel;
use crate::converge::{
    after_start, after_start_error, converge_begun, converge_ended, distinct_services, listed_in,
    needed_services, probed, round_for, task_for, tasks_for, ConvergenceModel, PipelineOutcome,
    StartTaskModel,
};
use crate::emit::{after_show, target_affected, target_status, tell_targets};
use crate::model::RefModel;
use crate::names::{with_name, with_names};
use crate::ops::ResponseModel;
use crate::probe::OutcomeModel;
use crate::reprobe::services_of;
use crate::runtime::{ServiceModel, ServicesModel, TargetsModel};
use crate::targets::state_of;
use crate::text::Str;
use vstd::prelude::*;

verus! {

/// A service is restarted at most once: a round that ends in a restart does so for a service
/// that was not restarted before, and afterwards it was. Nothing else is forgotten of what was
/// restarted, and without permission nothing is restarted.
pub proof fn law_restarted_once(a: AppModel, c: ConvergenceModel, r: RefModel, o: OutcomeModel)
    ensures
        ({
            let (_, d, next) = probed(a, c, r, o);
            &&& next.outcome == Some(PipelineOutcome::Restarted) <==> d.restarted != c.restarted
            &&& next.outcome == Some(PipelineOutcome::Restarted) ==> c.allow_restart
                && !c.restarted.contains(r.service) && !c.just_started.contains(r.service)
                && d.restarted == c.restarted.push(r.service)
        }),
{
    assert(c.restarted.push(r.service).len() == c.restarted.len() + 1);
}

/// What names a list leads to.
proof fn lemma_with_names(s: Seq<Str>, more: Seq<Str>, x: Str)
    ensures
        with_names(s, more).contains(x) <==> s.contains(x) || more.contains(x),
        s.no_duplicates() ==> with_names(s, more).no_duplicates(),
    decreases more.len(),
{
    if more.len() > 0 {
        let front = more.drop_last();
        lemma_with_names(s, front, x);
        let before = with_names(s, front);
        let last = more.last();
        assert(more[more.len() - 1] == last);
        if before.contains(last) {
            lemma_with_names(s, front, last);
        } else {
            let after = before.push(last);
            assert(after[before.len() as int] == last);
            if before.contains(x) {
                let i = choose|i: int| 0 <= i < before.len() && before[i] == x;
                assert(after[i] == x);
            }
        }
        if front.contains(x) {
            let i = choose|i: int| 0 <= i < front.len() && front[i] == x;
            assert(more[i] == x);
        }
        if more.contains(x) && x != last {
            let i = choose|i: int| 0 <= i < more.len() && more[i] == x;
            assert(front[i] == x);
        }
    }
}

proof fn lemma_listed_in(order: Seq<Str>, set: Seq<Str>, x: Str)
    ensures
        listed_in(order, set).contains(x) ==> set.contains(x),
        listed_in(order, set).no_duplicates(),
    decreases order.len(),
{
    if order.len() > 0 {
        lemma_listed_in(order.drop_last(), set, x);
        let before = listed_in(order.drop_last(), set);
        let after = with_name(before, order.last());
        if after.contains(x) && !before.contains(x) {
            let i = choose|i: int| 0 <= i < after.len() && after[i] == x;
            assert(i == before.len());
        }
    }
}

/// The services that a target needs are those of its probes, each once.
pub proof fn law_needed_services(order: Seq<Str>, refs: Seq<RefModel>, x: Str)
    ensures
        needed_services(order, refs).contains(x) <==> exists|i: int|
            0 <= i < refs.len() && (#[trigger] refs[i]).service == x,
        needed_services(order, refs).no_duplicates(),
{
    let set = distinct_services(refs);
    let all = services_of(refs);
    lemma_with_names(Seq::empty(), all, x);
    lemma_listed_in(order, set, x);
    lemma_with_names(listed_in(order, set), set, x);
    if all.contains(x) {
        let i = choose|i: int| 0 <= i < all.len() && all[i] == x;
        assert(refs[i].service == x);
    }
    if exists|i: int| 0 <= i < refs.len() && (#[trigger] refs[i]).service == x {
        let i = choose|i: int| 0 <= i < refs.len() && (#[trigger] refs[i]).service == x;
        assert(all[i] == x);
    }
}

/// The services of some probes are those that one of them belongs to.
pub proof fn lemma_distinct(refs: Seq<RefModel>, x: Str)
    ensures
        distinct_services(refs).contains(x) <==> exists|i: int|
            0 <= i < refs.len() && (#[trigger] refs[i]).service == x,
{
    let all = services_of(refs);
    lemma_with_names(Seq::empty(), all, x);
    if all.contains(x) {
        let i = choose|i: int| 0 <= i < all.len() && all[i] == x;
        assert(refs[i].service == x);
    }
    if exists|i: int| 0 <= i < refs.len() && (#[trigger] refs[i]).service == x {
        let i = choose|i: int| 0 <= i < refs.len() && (#[trigger] refs[i]).service == x;
        assert(all[i] == x);
    }
}

/// In a round each service that the target needs and that does not run is started.
pub proof fn law_round_starts(s: ServicesModel, names: Seq<Str>, i: int)
    requires
        0 <= i < names.len(),
        !(s.at(names[i]).state is Running),
    ensures
        round_for(s, names).starts.contains(
            StartTaskModel { service: names[i], start_after: s.at(names[i]).start_after },
        ),
    decreases names.len(),
{
    let all = round_for(s, names).starts;
    let t = StartTaskModel { service: names[i], start_after: s.at(names[i]).start_after };
    if i < names.len() - 1 {
        let front = names.drop_last();
        assert(front[i] == names[i]);
        law_round_starts(s, front, i);
        let before = round_for(s, front).starts;
        let j = choose|j: int| 0 <= j < before.len() && before[j] == t;
        assert(all[j] == t);
    } else {
        assert(all[all.len() - 1] == t);
    }
}

/// In a round each probe of a service that the target needs and that runs is checked, unless
/// it is green or has no check of its own.
pub proof fn law_round_checks(s: ServicesModel, names: Seq<Str>, i: int, j: int)
    requires
        0 <= i < names.len(),
        s.at(names[i]).state is Running,
        0 <= j < s.at(names[i]).probes.keys.len(),
        ({
            let probes = s.at(names[i]).probes;
            let p = probes.at(probes.keys[j]);
            !(p.state is Green) && !(p.probe_config is Meta)
        }),
    ensures
        round_for(s, names).probes.contains(
            task_for(names[i], s.at(names[i]), s.at(names[i]).probes.keys[j]),
        ),
    decreases names.len(),
{
    let all = round_for(s, names).probes;
    let svc = s.at(names[i]);
    let t = task_for(names[i], svc, svc.probes.keys[j]);
    let front = names.drop_last();
    let before = round_for(s, front).probes;
    if i < names.len() - 1 {
        assert(front[i] == names[i]);
        law_round_checks(s, front, i, j);
        let k = choose|k: int| 0 <= k < before.len() && before[k] == t;
        assert(all[k] == t);
    } else {
        lemma_task_listed(names[i], svc, svc.probes.keys, j);
        let more = tasks_for(names[i], svc, svc.probes.keys);
        let k = choose|k: int| 0 <= k < more.len() && more[k] == t;
        assert(all[before.len() + k] == t);
    }
}

proof fn lemma_task_listed(name: Str, svc: ServiceModel, keys: Seq<Str>, j: int)
    requires
        0 <= j < keys.len(),
        !(svc.probes.at(keys[j]).state is Green),
        !(svc.probes.at(keys[j]).probe_config is Meta),
    ensures
        tasks_for(name, svc, keys).contains(task_for(name, svc, keys[j])),
    decreases keys.len(),
{
    let all = tasks_for(name, svc, keys);
    let t = task_for(name, svc, keys[j]);
    if j < keys.len() - 1 {
        let front = keys.drop_last();
        assert(front[j] == keys[j]);
        lemma_task_listed(name, svc, front, j);
        let before = tasks_for(name, svc, front);
        let k = choose|k: int| 0 <= k < before.len() && before[k] == t;
        assert(all[k] == t);
    } else {
        assert(all[all.len() - 1] == t);
    }
}

proof fn lemma_told(
    s: ServicesModel,
    ts: TargetsModel,
    affected: Seq<Str>,
    keys: Seq<Str>,
    n: int,
)
    requires
        keys.no_duplicates(),
        0 <= n < keys.len(),
        target_affected(ts.at(keys[n]), affected),
    ensures
        ({
            let told = tell_targets(s, ts, affected, keys).statuses;
            &&& told.has(keys[n])
            &&& told.at(keys[n]) == target_status(ts.at(keys[n]), state_of(s, ts, ts.at(keys[n])))
        }),
    decreases keys.len(),
{
    if n < keys.len() - 1 {
        let front = keys.drop_last();
        assert(front[n] == keys[n]);
        assert(keys[n] != keys[keys.len() - 1]);
        lemma_told(s, ts, affected, front, n);
    }
}

/// The answer is "ok" if and only if the target is green at the end.
pub proof fn law_ok_if_green(
    a: AppModel,
    c: ConvergenceModel,
    outcome: Option<PipelineOutcome>,
    duration_ms: u64,
)
    requires
        a.targets.valid(),
        a.targets.has(c.target),
        c.probes == a.targets.at(c.target).transitive_probes,
    ensures
        ({
            let s = after_show(a).services;
            let state = state_of(s, a.targets, a.targets.at(c.target));
            let (_, response) = converge_ended(a, c, outcome, duration_ms);
            &&& response.result == (if state is Green {
                "ok"@
            } else {
                "failed"@
            })
            &&& response.error is None <==> state is Green
        }),
{
    let b = after_show(a);
    let t = a.targets.at(c.target);
    let keys = a.targets.keys;
    let affected = services_of(c.probes);
    assert(keys.contains(c.target));
    let n = choose|n: int| 0 <= n < keys.len() && keys[n] == c.target;
    if affected.len() > 0 {
        assert(affected[0] == c.probes[0].service);
        assert(affected.contains(t.transitive_probes[0].service));
    }
    assert(target_affected(t, affected));
    lemma_told(b.services, b.targets, affected, keys, n);
    reveal_strlit("green");
    reveal_strlit("red");
    reveal_strlit("inactive");
    assert("green"@.len() == 5 && "red"@.len() == 3 && "inactive"@.len() == 8);
}

/// Whether the restarts that are told are those that are known, each service once.
pub open spec fn restarts_told_once(c: ConvergenceModel) -> bool {
    c.actions.restarted == c.restarted && c.restarted.no_duplicates()
}

/// From the beginning and through every step, the answer lists each service that was
/// restarted, and none of them twice.
pub proof fn law_restarts_told_once(
    a: AppModel,
    target: Str,
    allow_restart: bool,
    c: ConvergenceModel,
    name: Str,
    response: ResponseModel,
    error: Str,
    r: RefModel,
    o: OutcomeModel,
)
    requires
        restarts_told_once(c),
    ensures
        restarts_told_once(converge_begun(a, target, allow_restart).1),
        restarts_told_once(after_start(c, name, response)),
        restarts_told_once(after_start_error(c, name, error)),
        restarts_told_once(probed(a, c, r, o).1),
{
    law_restarted_once(a, c, r, o);
}

proof fn lemma_tasks_of(name: Str, svc: ServiceModel, keys: Seq<Str>)
    ensures
        forall|i: int|
            0 <= i < tasks_for(name, svc, keys).len() ==> (#[trigger] tasks_for(
                name,
                svc,
                keys,
            )[i]).probe.probe_ref.service == name,
    decreases keys.len(),
{
    if keys.len() > 0 {
        lemma_tasks_of(name, svc, keys.drop_last());
    }
}

/// A round starts services, and checks probes of services, that the target needs, and no
/// others.
pub proof fn law_round_is_needed(s: ServicesModel, names: Seq<Str>)
    ensures
        forall|i: int|
            0 <= i < round_for(s, names).starts.len() ==> names.contains(
                (#[trigger] round_for(s, names).starts[i]).service,
            ),
        forall|i: int|
            0 <= i < round_for(s, names).probes.len() ==> names.contains(
                (#[trigger] round_for(s, names).probes[i]).probe.probe_ref.service,
            ),
    decreases names.len(),
{
    if names.len() > 0 {
        let front = names.drop_last();
        let last = names.last();
        let (a, b) = (round_for(s, front), round_for(s, names));
        law_round_is_needed(s, front);
        lemma_tasks_of(last, s.at(last), s.at(last).probes.keys);
        assert(names[names.len() - 1] == last);
        assert forall|x: Str| front.contains(x) implies #[trigger] names.contains(x) by {
            let i = choose|i: int| 0 <= i < front.len() && front[i] == x;
            assert(names[i] == x);
        }
        assert forall|i: int| 0 <= i < b.starts.len() implies names.contains(
            (#[trigger] b.starts[i]).service,
        ) by {
            if i < a.starts.len() {
                assert(front.contains(a.starts[i].service));
            }
        }
        assert forall|i: int| 0 <= i < b.probes.len() implies names.contains(
            (#[trigger] b.probes[i]).probe.probe_ref.service,
        ) by {
            if i < a.probes.len() {
                assert(front.contains(a.probes[i].probe.probe_ref.service));
            } else {
                let more = tasks_for(last, s.at(last), s.at(last).probes.keys);
                assert(b.probes[i] == more[i - a.probes.len()]);
            }
        }
    }
}

/// Whether all services that were restarted are ones that the target needs.
pub open spec fn restarts_needed(c: ConvergenceModel) -> bool {
    forall|x: Str| #[trigger] c.restarted.contains(x) ==> c.services.contains(x)
}

/// From the beginning and through every step, only services that the target needs are
/// restarted, as only their probes are checked.
pub proof fn law_restarts_needed(
    a: AppModel,
    target: Str,
    allow_restart: bool,
    c: ConvergenceModel,
    name: Str,
    response: ResponseModel,
    error: Str,
    r: RefModel,
    o: OutcomeModel,
)
    requires
        restarts_needed(c),
        c.services.contains(r.service),
    ensures
        restarts_needed(converge_begun(a, target, allow_restart).1),
        restarts_needed(after_start(c, name, response)),
        restarts_needed(after_start_error(c, name, error)),
        restarts_needed(probed(a, c, r, o).1),
        after_start(c, name, response).services == c.services,
        after_start_error(c, name, error).services == c.services,
        probed(a, c, r, o).1.services == c.services,
{
    let d = probed(a, c, r, o).1;
    assert forall|x: Str| #[trigger] d.restarted.contains(x) implies d.services.contains(x) by {
        if !c.restarted.contains(x) {
            let i = choose|i: int| 0 <= i < d.restarted.len() && d.restarted[i] == x;
            assert(i == c.restarted.len());
        }
    }
}

} // verus!
