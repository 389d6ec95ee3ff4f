//! What the interface tells of services, probes and targets: all that is known of them.
use crate::app_state::AppModel;
use crate::display::{is_active, probe_display, svc_display, svc_reason, target_reasons};
use crate::display_laws::law_shown_names;
use crate::graph_json::{
    all_shown_green, brief_json, graph_json, probe_json, running_count, service_json,
    snapshot_json, snapshot_service, status_json, target_json,
};
use crate::json::{texts_json, JsonModel};
use crate::model::{ref_texts, RedModel, RefModel, ServiceState, StateModel};
use crate::routes::{
    brief_services, discovery_json, endpoint_json, probe_detail, service_detail, target_detail,
};
use crate::runtime::{ProbeModel, ServiceModel, ServicesModel, SvcDisplayState, TargetsModel};
use crate::targets::state_of;
use crate::text::{joined, Str};
use crate::views::{probe_view, svc_view, svc_views, tgt_view, tgt_views};
use vstd::prelude::*;

verus! {

/// Whether an object has a member with a name and a value.
pub open spec fn says(j: JsonModel, name: Str, v: JsonModel) -> bool {
    j matches JsonModel::Object(list) && exists|i: int|
        0 <= i < list.len() && #[trigger] list[i] == (name, v)
}

/// Whether an object has no member with a name.
pub open spec fn silent(j: JsonModel, name: Str) -> bool {
    j matches JsonModel::Object(list) && forall|i: int|
        0 <= i < list.len() ==> (#[trigger] list[i]).0 != name
}

/// Whether an object tells a text under a name, or has no such member where there is no text.
pub open spec fn may_say(j: JsonModel, name: Str, v: Option<Str>) -> bool {
    match v {
        Some(s) => says(j, name, JsonModel::Text(s)),
        None => silent(j, name),
    }
}

/// Whether a value is the list of some references as they are written.
pub open spec fn is_refs(v: JsonModel, refs: Seq<RefModel>) -> bool {
    v matches JsonModel::List(l) && l.len() == refs.len() && forall|i: int|
        0 <= i < refs.len() ==> #[trigger] l[i] == JsonModel::Text(
            refs[i].service + seq!['.'] + refs[i].probe,
        )
}

/// Whether a value is the list of some texts.
pub open spec fn is_texts(v: JsonModel, texts: Seq<Str>) -> bool {
    v matches JsonModel::List(l) && l.len() == texts.len() && forall|i: int|
        0 <= i < texts.len() ==> #[trigger] l[i] == JsonModel::Text(texts[i])
}

/// Whether an object tells some references under a name.
pub open spec fn says_refs(j: JsonModel, name: Str, refs: Seq<RefModel>) -> bool {
    exists|v: JsonModel| #[trigger] says(j, name, v) && is_refs(v, refs)
}

/// Whether an object tells some texts under a name.
pub open spec fn says_texts(j: JsonModel, name: Str, texts: Seq<Str>) -> bool {
    exists|v: JsonModel| #[trigger] says(j, name, v) && is_texts(v, texts)
}

proof fn lemma_says(list: Seq<(Str, JsonModel)>, i: int)
    requires
        0 <= i < list.len(),
    ensures
        says(JsonModel::Object(list), list[i].0, list[i].1),
{
    let j = JsonModel::Object(list);
    assert(j->Object_0[i] == (list[i].0, list[i].1));
}

proof fn lemma_refs(refs: Seq<RefModel>)
    ensures
        is_refs(texts_json(ref_texts(refs)), refs),
{
}

proof fn lemma_texts(texts: Seq<Str>)
    ensures
        is_texts(texts_json(texts), texts),
{
}

proof fn lemma_brief(state: Str, reason: Option<Str>)
    ensures
        says(brief_json(state, reason), "state"@, JsonModel::Text(state)),
        may_say(brief_json(state, reason), "reason"@, reason),
{
    reveal_strlit("state");
    reveal_strlit("reason");
    assert("state"@.len() != "reason"@.len());
    let list = brief_json(state, reason)->Object_0;
    lemma_says(list, 0);
    if let Some(r) = reason {
        lemma_says(list, 1);
    }
}

/// Whether the graph tells of a probe its name, how it is shown, its kind, what it depends on, and
/// why it is not green.
pub open spec fn graph_tells_probe(j: JsonModel, name: Str, p: ProbeModel, svc: ServiceState) -> bool {
    &&& says(j, "name"@, JsonModel::Text(name))
    &&& says(j, "state"@, JsonModel::Text(probe_display(p.state, svc).text()))
    &&& says(j, "probe_type"@, JsonModel::Text(p.probe_config.display()))
    &&& says_refs(j, "depends_on"@, p.depends_on)
    &&& may_say(j, "reason"@, p.state.reason())
}

proof fn lemma_graph_probe(name: Str, p: ProbeModel, svc: ServiceState)
    ensures
        graph_tells_probe(probe_json(name, probe_view(p, svc)), name, p, svc),
{
    reveal_strlit("name");
    reveal_strlit("state");
    reveal_strlit("probe_type");
    reveal_strlit("depends_on");
    reveal_strlit("reason");
    assert("reason"@.len() == 6 && "name"@.len() == 4 && "state"@.len() == 5);
    assert("probe_type"@.len() == 10 && "depends_on"@.len() == 10);
    let list = probe_json(name, probe_view(p, svc))->Object_0;
    lemma_says(list, 0);
    lemma_says(list, 1);
    lemma_says(list, 2);
    lemma_says(list, 3);
    lemma_refs(p.depends_on);
    if p.state.reason() is Some {
        lemma_says(list, 4);
    }
}

/// Whether the graph tells of a service its name, how it is shown, its container, the state that
/// it is in, whether it is restarted, what it starts after, why it is not green, and all of its
/// probes in their order.
pub open spec fn graph_tells_service(j: JsonModel, name: Str, svc: ServiceModel, active: bool) -> bool {
    let d = svc_display(svc, active);
    &&& says(j, "name"@, JsonModel::Text(name))
    &&& says(j, "state"@, JsonModel::Text(d.text()))
    &&& says(j, "container"@, JsonModel::Text(svc.container))
    &&& says(j, "runtime"@, JsonModel::Text(svc.state.text()))
    &&& says(j, "restart_on_fail"@, JsonModel::Bool(svc.restart_on_fail))
    &&& says_refs(j, "start_after"@, svc.start_after)
    &&& may_say(j, "reason"@, svc_reason(d, svc))
    &&& exists|l: Seq<JsonModel>| #[trigger]
        says(j, "probes"@, JsonModel::List(l)) && l.len() == svc.probes.keys.len() && forall|i: int|
            0 <= i < l.len() ==> graph_tells_probe(
                #[trigger] l[i],
                svc.probes.keys[i],
                svc.probes.at(svc.probes.keys[i]),
                svc.state,
            )
}

proof fn lemma_graph_service(name: Str, svc: ServiceModel, active: bool)
    requires
        svc.probes.valid(),
    ensures
        graph_tells_service(service_json(name, svc_view(svc, active)), name, svc, active),
{
    reveal_strlit("name");
    reveal_strlit("state");
    reveal_strlit("container");
    reveal_strlit("runtime");
    reveal_strlit("restart_on_fail");
    reveal_strlit("start_after");
    reveal_strlit("probes");
    reveal_strlit("reason");
    assert("reason"@.len() == 6 && "name"@.len() == 4 && "state"@.len() == 5 && "probes"@.len() == 6);
    assert("container"@.len() == 9 && "runtime"@.len() == 7 && "start_after"@.len() == 11);
    assert("restart_on_fail"@.len() == 15 && "probes"@[0] == 'p' && "reason"@[0] == 'r');
    let v = svc_view(svc, active);
    let j = service_json(name, v);
    let list = j->Object_0;
    lemma_says(list, 0);
    lemma_says(list, 1);
    lemma_says(list, 2);
    lemma_says(list, 3);
    lemma_says(list, 4);
    lemma_says(list, 5);
    lemma_refs(svc.start_after);
    lemma_says(list, 6);
    if v.reason is Some {
        lemma_says(list, 7);
    }
    let l = list[6].1->List_0;
    assert(says(j, "probes"@, JsonModel::List(l)));
    assert forall|i: int| 0 <= i < l.len() implies graph_tells_probe(
        #[trigger] l[i],
        svc.probes.keys[i],
        svc.probes.at(svc.probes.keys[i]),
        svc.state,
    ) by {
        let k = svc.probes.keys[i];
        assert(svc.probes.keys.contains(k));
        assert(svc.probes.has(k));
        assert(v.probes.at(k) == probe_view(svc.probes.at(k), svc.state));
        lemma_graph_probe(k, svc.probes.at(k), svc.state);
    }
}

/// Whether the graph tells of a target its name, the state it is in, the probes that it needs, its
/// own probes, the targets that it depends on, and all reasons for which it is red.
pub open spec fn graph_tells_target(
    j: JsonModel,
    name: Str,
    s: ServicesModel,
    ts: TargetsModel,
) -> bool {
    let t = ts.at(name);
    let now = state_of(s, ts, t);
    let reasons = target_reasons(now, s);
    &&& says(j, "name"@, JsonModel::Text(name))
    &&& says(j, "state"@, JsonModel::Text(now.text()))
    &&& says_refs(j, "probes"@, t.transitive_probes)
    &&& says_refs(j, "direct_probes"@, t.direct_probes)
    &&& says_texts(j, "depends_on"@, t.depends_on_targets)
    &&& if reasons.len() > 0 {
        says(j, "reason"@, JsonModel::Text(joined(reasons, ", "@)))
    } else {
        silent(j, "reason"@)
    }
}

proof fn lemma_graph_target(name: Str, s: ServicesModel, ts: TargetsModel)
    ensures
        graph_tells_target(target_json(name, tgt_view(s, ts, ts.at(name))), name, s, ts),
{
    reveal_strlit("name");
    reveal_strlit("state");
    reveal_strlit("probes");
    reveal_strlit("direct_probes");
    reveal_strlit("depends_on");
    reveal_strlit("reason");
    assert("reason"@.len() == 6 && "name"@.len() == 4 && "state"@.len() == 5 && "probes"@.len() == 6);
    assert("direct_probes"@.len() == 13 && "depends_on"@.len() == 10 && "probes"@[0] == 'p'
        && "reason"@[0] == 'r');
    let v = tgt_view(s, ts, ts.at(name));
    let list = target_json(name, v)->Object_0;
    lemma_says(list, 0);
    lemma_says(list, 1);
    lemma_says(list, 2);
    lemma_says(list, 3);
    lemma_says(list, 4);
    lemma_refs(ts.at(name).transitive_probes);
    lemma_refs(ts.at(name).direct_probes);
    lemma_texts(ts.at(name).depends_on_targets);
    if v.reason is Some {
        lemma_says(list, 5);
    }
}

/// The graph tells all services and all targets in their order, with all that is known of them.
pub proof fn law_graph_tells_all(a: AppModel)
    requires
        a.services.valid(),
        a.targets.valid(),
        forall|k: Str| #[trigger] a.services.has(k) ==> a.services.at(k).probes.valid(),
    ensures
        exists|l: Seq<JsonModel>| #[trigger]
            says(graph_json(a), "services"@, JsonModel::List(l)) && l.len() == a.services.keys.len()
                && forall|i: int|
                0 <= i < l.len() ==> graph_tells_service(
                    #[trigger] l[i],
                    a.services.keys[i],
                    a.services.at(a.services.keys[i]),
                    is_active(a.services, a.targets, a.services.keys[i]),
                ),
        exists|l: Seq<JsonModel>| #[trigger]
            says(graph_json(a), "targets"@, JsonModel::List(l)) && l.len() == a.targets.keys.len()
                && forall|i: int|
                0 <= i < l.len() ==> graph_tells_target(
                    #[trigger] l[i],
                    a.targets.keys[i],
                    a.services,
                    a.targets,
                ),
        match a.current_op {
            Some(op) => says(graph_json(a), "current_op"@, JsonModel::Text(op)),
            None => says(graph_json(a), "current_op"@, JsonModel::Null),
        },
{
    let j = graph_json(a);
    let list = j->Object_0;
    let svcs = svc_views(a.services, a.targets);
    let tgts = tgt_views(a.services, a.targets);
    lemma_says(list, 1);
    lemma_says(list, 2);
    lemma_says(list, 4);
    let l = list[1].1->List_0;
    assert(says(j, "services"@, JsonModel::List(l)));
    assert forall|i: int| 0 <= i < l.len() implies graph_tells_service(
        #[trigger] l[i],
        a.services.keys[i],
        a.services.at(a.services.keys[i]),
        is_active(a.services, a.targets, a.services.keys[i]),
    ) by {
        let k = a.services.keys[i];
        assert(a.services.keys.contains(k));
        assert(a.services.has(k));
        let active = is_active(a.services, a.targets, k);
        assert(svcs.at(k) == svc_view(a.services.at(k), active));
        lemma_graph_service(k, a.services.at(k), active);
    }
    let m = list[2].1->List_0;
    assert(says(j, "targets"@, JsonModel::List(m)));
    assert forall|i: int| 0 <= i < m.len() implies graph_tells_target(
        #[trigger] m[i],
        a.targets.keys[i],
        a.services,
        a.targets,
    ) by {
        let k = a.targets.keys[i];
        assert(a.targets.keys.contains(k));
        assert(a.targets.has(k));
        assert(tgts.at(k) == tgt_view(a.services, a.targets, a.targets.at(k)));
        lemma_graph_target(k, a.services, a.targets);
    }
}

/// Whether each service and each target is shown green.
pub open spec fn all_is_well(a: AppModel) -> bool {
    &&& forall|k: Str| #[trigger]
        a.services.has(k) ==> svc_display(
            a.services.at(k),
            is_active(a.services, a.targets, k),
        ) == SvcDisplayState::Green
    &&& forall|k: Str| #[trigger]
        a.targets.has(k) ==> state_of(a.services, a.targets, a.targets.at(k)).text() == "green"@
}

proof fn lemma_all_is_well(a: AppModel)
    requires
        a.services.valid(),
        a.targets.valid(),
    ensures
        all_shown_green(svc_views(a.services, a.targets), tgt_views(a.services, a.targets))
            <==> all_is_well(a),
{
    let svcs = svc_views(a.services, a.targets);
    let tgts = tgt_views(a.services, a.targets);
    if all_shown_green(svcs, tgts) {
        assert forall|k: Str| #[trigger] a.services.has(k) implies svc_display(
            a.services.at(k),
            is_active(a.services, a.targets, k),
        ) == SvcDisplayState::Green by {
            assert(a.services.keys.contains(k));
            let i = choose|i: int| 0 <= i < a.services.keys.len() && a.services.keys[i] == k;
            assert(svcs.at(svcs.keys[i]).state == "green"@);
            law_shown_names(
                crate::runtime::ProbeDisplayState::Green,
                svc_display(a.services.at(k), is_active(a.services, a.targets, k)),
                ServiceState::Running,
                StateModel::Green,
            );
        }
        assert forall|k: Str| #[trigger] a.targets.has(k) implies state_of(
            a.services,
            a.targets,
            a.targets.at(k),
        ).text() == "green"@ by {
            assert(a.targets.keys.contains(k));
            let i = choose|i: int| 0 <= i < a.targets.keys.len() && a.targets.keys[i] == k;
            assert(tgts.at(tgts.keys[i]).state == "green"@);
        }
    }
    if all_is_well(a) {
        assert forall|i: int| 0 <= i < svcs.keys.len() implies svcs.at(
            #[trigger] svcs.keys[i],
        ).state == "green"@ by {
            assert(a.services.keys.contains(svcs.keys[i]));
            assert(a.services.has(svcs.keys[i]));
        }
        assert forall|i: int| 0 <= i < tgts.keys.len() implies tgts.at(
            #[trigger] tgts.keys[i],
        ).state == "green"@ by {
            assert(a.targets.keys.contains(tgts.keys[i]));
            assert(a.targets.has(tgts.keys[i]));
        }
    }
}

/// All is told as healthy if and only if each service and each target is shown green.
pub proof fn law_health_told(a: AppModel)
    requires
        a.services.valid(),
        a.targets.valid(),
    ensures
        all_is_well(a) ==> says(graph_json(a), "status"@, JsonModel::Text("healthy"@)) && says(
            status_json(a),
            "healthy"@,
            JsonModel::Bool(true),
        ),
        !all_is_well(a) ==> says(graph_json(a), "status"@, JsonModel::Text("degraded"@)) && says(
            status_json(a),
            "healthy"@,
            JsonModel::Bool(false),
        ),
{
    lemma_all_is_well(a);
    lemma_says(graph_json(a)->Object_0, 0);
    lemma_says(status_json(a)->Object_0, 0);
}

proof fn lemma_running(s: ServicesModel, ts: TargetsModel, n: int)
    requires
        s.valid(),
        0 <= n <= s.keys.len(),
    ensures
        running_count(svc_views(s, ts), n) == s.keys.take(n).filter(
            |k: Str| s.at(k).state == ServiceState::Running,
        ).len(),
        running_count(svc_views(s, ts), n) <= n,
    decreases n,
{
    let f = |k: Str| s.at(k).state == ServiceState::Running;
    reveal(Seq::filter);
    if n > 0 {
        lemma_running(s, ts, n - 1);
        let k = s.keys[n - 1];
        assert(s.keys.contains(k));
        assert(s.has(k));
        assert(s.keys.take(n).drop_last() =~= s.keys.take(n - 1));
        assert(s.keys.take(n).last() == k);
        assert(svc_views(s, ts).keys[n - 1] == k);
        law_shown_names(
            crate::runtime::ProbeDisplayState::Green,
            SvcDisplayState::Green,
            s.at(k).state,
            StateModel::Green,
        );
    } else {
        assert(s.keys.take(0) =~= Seq::<Str>::empty());
    }
}

/// The graph counts all services, those that run, and all targets.
pub proof fn law_graph_counts(a: AppModel)
    requires
        a.services.valid(),
        a.services.keys.len() <= u64::MAX,
        a.targets.keys.len() <= u64::MAX,
    ensures
        exists|m: JsonModel| #[trigger]
            says(graph_json(a), "summary"@, m) && says(
                m,
                "services_running"@,
                JsonModel::Num(
                    a.services.keys.filter(
                        |k: Str| a.services.at(k).state == ServiceState::Running,
                    ).len() as u64,
                ),
            ) && says(m, "services_total"@, JsonModel::Num(a.services.keys.len() as u64)) && says(
                m,
                "targets_total"@,
                JsonModel::Num(a.targets.keys.len() as u64),
            ),
{
    let list = graph_json(a)->Object_0;
    lemma_says(list, 3);
    let m = list[3].1;
    lemma_says(m->Object_0, 0);
    lemma_says(m->Object_0, 1);
    lemma_says(m->Object_0, 2);
    let keys = a.services.keys;
    lemma_running(a.services, a.targets, keys.len() as int);
    assert(keys.take(keys.len() as int) =~= keys);
    assert(says(graph_json(a), "summary"@, m));
}

/// Whether an object tells how something is shown, and why.
pub open spec fn tells_brief(j: JsonModel, state: Str, reason: Option<Str>) -> bool {
    says(j, "state"@, JsonModel::Text(state)) && may_say(j, "reason"@, reason)
}

/// Whether a table of targets tells the state of a target, and all reasons for which it is red.
pub open spec fn tells_target_state(j: JsonModel, s: ServicesModel, ts: TargetsModel, k: Str) -> bool {
    let now = state_of(s, ts, ts.at(k));
    let reasons = target_reasons(now, s);
    tells_brief(
        j,
        now.text(),
        if reasons.len() > 0 {
            Some(joined(reasons, ", "@))
        } else {
            None
        },
    )
}

proof fn lemma_brief_target(a: AppModel, k: Str)
    requires
        a.targets.valid(),
        a.targets.has(k),
    ensures
        exists|j: JsonModel| #[trigger]
            says(
                crate::graph_json::brief_targets(tgt_views(a.services, a.targets)),
                k,
                j,
            ) && tells_target_state(j, a.services, a.targets, k),
{
    let tgts = tgt_views(a.services, a.targets);
    let all = crate::graph_json::brief_targets(tgts);
    assert(a.targets.keys.contains(k));
    let i = choose|i: int| 0 <= i < a.targets.keys.len() && a.targets.keys[i] == k;
    lemma_says(all->Object_0, i);
    let v = tgts.at(k);
    assert(v == tgt_view(a.services, a.targets, a.targets.at(k)));
    lemma_brief(v.state, v.reason);
    assert(says(all, k, brief_json(v.state, v.reason)));
}

/// The summary tells of each service how it is shown and why, of each target its state and why,
/// and the operation in progress.
pub proof fn law_summary_tells(a: AppModel, svc: Str, tgt: Str)
    requires
        a.services.valid(),
        a.targets.valid(),
    ensures
        a.services.has(svc) ==> exists|all: JsonModel, j: JsonModel|
            #![trigger says(status_json(a), "services"@, all), says(all, svc, j)]
            says(status_json(a), "services"@, all) && says(all, svc, j) && ({
                let d = svc_display(a.services.at(svc), is_active(a.services, a.targets, svc));
                tells_brief(j, d.text(), svc_reason(d, a.services.at(svc)))
            }),
        a.targets.has(tgt) ==> exists|all: JsonModel, j: JsonModel|
            #![trigger says(status_json(a), "targets"@, all), says(all, tgt, j)]
            says(status_json(a), "targets"@, all) && says(all, tgt, j) && tells_target_state(
                j,
                a.services,
                a.targets,
                tgt,
            ),
        match a.current_op {
            Some(op) => says(status_json(a), "current_op"@, JsonModel::Text(op)),
            None => says(status_json(a), "current_op"@, JsonModel::Null),
        },
{
    let list = status_json(a)->Object_0;
    lemma_says(list, 1);
    lemma_says(list, 2);
    lemma_says(list, 3);
    if a.services.has(svc) {
        let svcs = svc_views(a.services, a.targets);
        assert(a.services.keys.contains(svc));
        let i = choose|i: int| 0 <= i < a.services.keys.len() && a.services.keys[i] == svc;
        let all = list[1].1;
        lemma_says(all->Object_0, i);
        let v = svcs.at(svc);
        assert(v == svc_view(a.services.at(svc), is_active(a.services, a.targets, svc)));
        lemma_brief(v.state, v.reason);
        assert(says(status_json(a), "services"@, all));
        assert(says(all, svc, brief_json(v.state, v.reason)));
    }
    if a.targets.has(tgt) {
        lemma_brief_target(a, tgt);
        let all = list[2].1;
        let j = choose|j: JsonModel| #[trigger]
            says(all, tgt, j) && tells_target_state(j, a.services, a.targets, tgt);
        assert(says(status_json(a), "targets"@, all));
        assert(says(all, tgt, j));
    }
}

/// The first message to a listener tells of each service how it is shown, the state that it is in,
/// and how each of its probes is shown and why. It tells each target with its state and why.
pub proof fn law_snapshot_tells(a: AppModel, svc: Str, probe: Str, tgt: Str)
    requires
        a.services.valid(),
        a.targets.valid(),
        a.services.has(svc) ==> a.services.at(svc).probes.valid(),
    ensures
        says(snapshot_json(a), "type"@, JsonModel::Text("snapshot"@)),
        a.services.has(svc) ==> exists|all: JsonModel, j: JsonModel|
            #![trigger says(snapshot_json(a), "services"@, all), says(all, svc, j)]
            says(snapshot_json(a), "services"@, all) && says(all, svc, j) && ({
                let m = a.services.at(svc);
                let d = svc_display(m, is_active(a.services, a.targets, svc));
                &&& says(j, "state"@, JsonModel::Text(d.text()))
                &&& says(j, "runtime"@, JsonModel::Text(m.state.text()))
                &&& m.probes.has(probe) ==> exists|ps: JsonModel, q: JsonModel|
                    #![trigger says(j, "probes"@, ps), says(ps, probe, q)]
                    says(j, "probes"@, ps) && says(ps, probe, q) && tells_brief(
                        q,
                        probe_display(m.probes.at(probe).state, m.state).text(),
                        m.probes.at(probe).state.reason(),
                    )
            }),
        a.targets.has(tgt) ==> exists|all: JsonModel, j: JsonModel|
            #![trigger says(snapshot_json(a), "targets"@, all), says(all, tgt, j)]
            says(snapshot_json(a), "targets"@, all) && says(all, tgt, j) && tells_target_state(
                j,
                a.services,
                a.targets,
                tgt,
            ),
{
    let list = snapshot_json(a)->Object_0;
    lemma_says(list, 0);
    lemma_says(list, 1);
    lemma_says(list, 2);
    if a.services.has(svc) {
        let svcs = svc_views(a.services, a.targets);
        assert(a.services.keys.contains(svc));
        let i = choose|i: int| 0 <= i < a.services.keys.len() && a.services.keys[i] == svc;
        let all = list[1].1;
        lemma_says(all->Object_0, i);
        let m = a.services.at(svc);
        let v = svcs.at(svc);
        assert(v == svc_view(m, is_active(a.services, a.targets, svc)));
        let j = snapshot_service(v);
        lemma_says(j->Object_0, 0);
        lemma_says(j->Object_0, 1);
        lemma_says(j->Object_0, 2);
        if m.probes.has(probe) {
            assert(m.probes.keys.contains(probe));
            let k = choose|k: int| 0 <= k < m.probes.keys.len() && m.probes.keys[k] == probe;
            let ps = j->Object_0[2].1;
            lemma_says(ps->Object_0, k);
            let w = v.probes.at(probe);
            assert(w == probe_view(m.probes.at(probe), m.state));
            lemma_brief(w.state, w.reason);
            assert(says(j, "probes"@, ps));
            assert(says(ps, probe, brief_json(w.state, w.reason)));
        }
        assert(says(snapshot_json(a), "services"@, all));
        assert(says(all, svc, j));
    }
    if a.targets.has(tgt) {
        lemma_brief_target(a, tgt);
        let all = list[2].1;
        let j = choose|j: JsonModel| #[trigger]
            says(all, tgt, j) && tells_target_state(j, a.services, a.targets, tgt);
        assert(says(snapshot_json(a), "targets"@, all));
        assert(says(all, tgt, j));
    }
}

/// Whether a probe is told in detail: how it is shown, its kind, what it depends on, the reason,
/// the last error, the time that the last check took, the last log line that matched, and the probe
/// that it is red behind.
pub open spec fn details_probe(j: JsonModel, p: ProbeModel, svc: ServiceState) -> bool {
    &&& says(j, "state"@, JsonModel::Text(probe_display(p.state, svc).text()))
    &&& says(j, "probe_type"@, JsonModel::Text(p.probe_config.display()))
    &&& says_refs(j, "depends_on"@, p.depends_on)
    &&& may_say(j, "reason"@, p.state.short_reason())
    &&& may_say(j, "error"@, p.last_error)
    &&& match p.last_probe_ms {
        Some(ms) => says(j, "probe_ms"@, JsonModel::Num(ms)),
        None => silent(j, "probe_ms"@),
    }
    &&& may_say(j, "log"@, p.last_log_match)
    &&& may_say(
        j,
        "blocked_by"@,
        match p.state {
            StateModel::Red(RedModel::DepRed { dep }) => Some(
                dep.service + seq!['.'] + dep.probe,
            ),
            _ => None,
        },
    )
}

spec fn keeps_saying(m: Seq<(Str, JsonModel)>, n: Seq<(Str, JsonModel)>) -> bool {
    m.len() <= n.len() && forall|i: int| 0 <= i < m.len() ==> #[trigger] n[i] == m[i]
}

proof fn lemma_with_text(m: Seq<(Str, JsonModel)>, name: Str, v: Option<Str>)
    ensures
        keeps_saying(m, crate::json::with_text(m, name, v)),
        v is None ==> crate::json::with_text(m, name, v) == m,
        v is Some ==> crate::json::with_text(m, name, v) == m.push((name, JsonModel::Text(v->0))),
{
}

/// A probe is told in detail.
pub proof fn law_probe_details(p: ProbeModel, svc: ServiceState)
    ensures
        details_probe(probe_detail(p, svc), p, svc),
{
    reveal_strlit("state");
    reveal_strlit("probe_type");
    reveal_strlit("depends_on");
    reveal_strlit("reason");
    reveal_strlit("error");
    reveal_strlit("probe_ms");
    reveal_strlit("log");
    reveal_strlit("blocked_by");
    assert("reason"@.len() == 6 && "error"@.len() == 5 && "state"@.len() == 5 && "log"@.len() == 3);
    assert("probe_ms"@.len() == 8 && "blocked_by"@.len() == 10 && "probe_type"@.len() == 10
        && "depends_on"@.len() == 10);
    assert("error"@[0] == 'e' && "state"@[0] == 's' && "blocked_by"@[0] == 'b' && "probe_type"@[0]
        == 'p' && "depends_on"@[0] == 'd');
    let m0 = seq![
        ("state"@, JsonModel::Text(probe_display(p.state, svc).text())),
        ("probe_type"@, JsonModel::Text(p.probe_config.display())),
        ("depends_on"@, texts_json(ref_texts(p.depends_on))),
    ];
    let m1 = crate::json::with_text(m0, "reason"@, p.state.short_reason());
    let m2 = crate::json::with_text(m1, "error"@, p.last_error);
    let m3 = match p.last_probe_ms {
        Some(ms) => m2.push(("probe_ms"@, JsonModel::Num(ms))),
        None => m2,
    };
    let m4 = crate::json::with_text(m3, "log"@, p.last_log_match);
    let blocked = crate::routes::blocked_by(p.state);
    let m5 = crate::json::with_text(m4, "blocked_by"@, blocked);
    lemma_with_text(m0, "reason"@, p.state.short_reason());
    lemma_with_text(m1, "error"@, p.last_error);
    lemma_with_text(m3, "log"@, p.last_log_match);
    lemma_with_text(m4, "blocked_by"@, blocked);
    assert(probe_detail(p, svc) == JsonModel::Object(m5));
    lemma_says(m5, 0);
    lemma_says(m5, 1);
    lemma_says(m5, 2);
    lemma_refs(p.depends_on);
    if p.state.short_reason() is Some {
        lemma_says(m5, m0.len() as int);
    }
    if p.last_error is Some {
        lemma_says(m5, m1.len() as int);
    }
    if p.last_probe_ms is Some {
        lemma_says(m5, m2.len() as int);
    }
    if p.last_log_match is Some {
        lemma_says(m5, m3.len() as int);
    }
    if blocked is Some {
        lemma_says(m5, m4.len() as int);
    }
}

/// A service is told in detail: how it is shown and why, the state that it is in, its container,
/// whether it is restarted, what it starts after, and each of its probes.
pub proof fn law_service_details(a: AppModel, name: Str, probe: Str)
    requires
        a.services.has(name),
        a.services.at(name).probes.valid(),
    ensures
        ({
            let j = service_detail(a, name);
            let svc = a.services.at(name);
            let d = svc_display(svc, is_active(a.services, a.targets, name));
            &&& says(j, "name"@, JsonModel::Text(name))
            &&& says(j, "state"@, JsonModel::Text(d.text()))
            &&& says(j, "runtime"@, JsonModel::Text(svc.state.text()))
            &&& says(j, "container"@, JsonModel::Text(svc.container))
            &&& says(j, "restart_on_fail"@, JsonModel::Bool(svc.restart_on_fail))
            &&& says_refs(j, "start_after"@, svc.start_after)
            &&& may_say(j, "reason"@, svc_reason(d, svc))
            &&& svc.probes.has(probe) ==> exists|ps: JsonModel, q: JsonModel|
                #![trigger says(j, "probes"@, ps), says(ps, probe, q)]
                says(j, "probes"@, ps) && says(ps, probe, q) && details_probe(
                    q,
                    svc.probes.at(probe),
                    svc.state,
                )
        }),
{
    reveal_strlit("name");
    reveal_strlit("state");
    reveal_strlit("container");
    reveal_strlit("runtime");
    reveal_strlit("restart_on_fail");
    reveal_strlit("start_after");
    reveal_strlit("probes");
    reveal_strlit("reason");
    assert("reason"@.len() == 6 && "name"@.len() == 4 && "state"@.len() == 5 && "probes"@.len() == 6);
    assert("container"@.len() == 9 && "runtime"@.len() == 7 && "start_after"@.len() == 11);
    assert("restart_on_fail"@.len() == 15 && "probes"@[0] == 'p' && "reason"@[0] == 'r');
    let j = service_detail(a, name);
    let list = j->Object_0;
    let svc = a.services.at(name);
    lemma_says(list, 0);
    lemma_says(list, 1);
    lemma_says(list, 2);
    lemma_says(list, 3);
    lemma_says(list, 4);
    lemma_says(list, 5);
    lemma_says(list, 6);
    lemma_refs(svc.start_after);
    if list.len() > 7 {
        lemma_says(list, 7);
    }
    if svc.probes.has(probe) {
        assert(svc.probes.keys.contains(probe));
        let k = choose|k: int| 0 <= k < svc.probes.keys.len() && svc.probes.keys[k] == probe;
        let ps = list[6].1;
        lemma_says(ps->Object_0, k);
        law_probe_details(svc.probes.at(probe), svc.state);
        assert(says(j, "probes"@, ps));
        assert(says(ps, probe, probe_detail(svc.probes.at(probe), svc.state)));
    }
}

proof fn lemma_brief_services(s: ServicesModel, ts: TargetsModel, names: Seq<Str>, k: Str)
    requires
        names.contains(k),
        s.has(k),
    ensures
        exists|j: JsonModel| #[trigger]
            says(JsonModel::Object(brief_services(s, ts, names)), k, j) && ({
                let d = svc_display(s.at(k), is_active(s, ts, k));
                tells_brief(j, d.text(), svc_reason(d, s.at(k)))
            }),
    decreases names.len(),
{
    let all = brief_services(s, ts, names);
    let front = names.drop_last();
    let d = svc_display(s.at(k), is_active(s, ts, k));
    if names.last() == k {
        lemma_brief(d.text(), svc_reason(d, s.at(k)));
        lemma_says(all, all.len() - 1);
        assert(says(JsonModel::Object(all), k, brief_json(d.text(), svc_reason(d, s.at(k)))));
    } else {
        let i = choose|i: int| 0 <= i < names.len() && names[i] == k;
        assert(front[i] == k);
        lemma_brief_services(s, ts, front, k);
        let before = brief_services(s, ts, front);
        let j = choose|j: JsonModel| #[trigger]
            says(JsonModel::Object(before), k, j) && tells_brief(
                j,
                d.text(),
                svc_reason(d, s.at(k)),
            );
        let n = choose|n: int| 0 <= n < before.len() && #[trigger] before[n] == (k, j);
        assert(all[n] == (k, j));
        lemma_says(all, n);
    }
}

/// A target is told in detail: its state, the targets that it depends on, all reasons for which it
/// is red, and how each service that it needs is shown and why.
pub proof fn law_target_details(a: AppModel, name: Str, i: int)
    requires
        a.targets.has(name),
    ensures
        ({
            let j = target_detail(a, name);
            let t = a.targets.at(name);
            let now = state_of(a.services, a.targets, t);
            let reasons = target_reasons(now, a.services);
            &&& says(j, "name"@, JsonModel::Text(name))
            &&& says(j, "state"@, JsonModel::Text(now.text()))
            &&& says_texts(j, "depends_on"@, t.depends_on_targets)
            &&& if reasons.len() > 0 {
                says_texts(j, "reasons"@, reasons)
            } else {
                silent(j, "reasons"@)
            }
            &&& 0 <= i < t.transitive_probes.len() && a.services.has(
                t.transitive_probes[i].service,
            ) ==> exists|all: JsonModel, q: JsonModel|
                #![trigger says(j, "services"@, all), says(all, t.transitive_probes[i].service, q)]
                says(j, "services"@, all) && says(all, t.transitive_probes[i].service, q) && ({
                    let k = t.transitive_probes[i].service;
                    let d = svc_display(a.services.at(k), is_active(a.services, a.targets, k));
                    tells_brief(q, d.text(), svc_reason(d, a.services.at(k)))
                })
        }),
{
    reveal_strlit("name");
    reveal_strlit("state");
    reveal_strlit("depends_on");
    reveal_strlit("services");
    reveal_strlit("reasons");
    assert("reasons"@.len() == 7 && "name"@.len() == 4 && "state"@.len() == 5);
    assert("depends_on"@.len() == 10 && "services"@.len() == 8);
    let j = target_detail(a, name);
    let list = j->Object_0;
    let t = a.targets.at(name);
    let reasons = target_reasons(state_of(a.services, a.targets, t), a.services);
    lemma_says(list, 0);
    lemma_says(list, 1);
    lemma_says(list, 2);
    lemma_says(list, 3);
    lemma_texts(t.depends_on_targets);
    lemma_texts(reasons);
    if reasons.len() > 0 {
        lemma_says(list, 4);
    }
    if 0 <= i < t.transitive_probes.len() && a.services.has(t.transitive_probes[i].service) {
        let k = t.transitive_probes[i].service;
        let names = crate::converge::distinct_services(t.transitive_probes);
        crate::converge_laws::lemma_distinct(t.transitive_probes, k);
        lemma_brief_services(a.services, a.targets, names, k);
        let all = list[3].1;
        assert(says(j, "services"@, all));
        let d = svc_display(a.services.at(k), is_active(a.services, a.targets, k));
        let q = choose|q: JsonModel| #[trigger]
            says(all, k, q) && tells_brief(q, d.text(), svc_reason(d, a.services.at(k)));
        assert(says(all, t.transitive_probes[i].service, q));
    }
}

/// A call that the interface offers is told with its method, its path, what it may be given, and
/// what it does.
pub proof fn law_endpoint_told(method: Str, path: Str, params: Option<Str>, description: Str)
    ensures
        ({
            let j = endpoint_json(method, path, params, description);
            &&& says(j, "method"@, JsonModel::Text(method))
            &&& says(j, "path"@, JsonModel::Text(path))
            &&& may_say(j, "params"@, params)
            &&& says(j, "description"@, JsonModel::Text(description))
        }),
{
    reveal_strlit("method");
    reveal_strlit("path");
    reveal_strlit("params");
    reveal_strlit("description");
    assert("method"@[0] == 'm' && "params"@[0] == 'p' && "description"@[0] == 'd');
    assert("path"@.len() == 4 && "params"@.len() == 6);
    let list = endpoint_json(method, path, params, description)->Object_0;
    lemma_says(list, 0);
    lemma_says(list, 1);
    lemma_says(list, 2);
    if params is Some {
        lemma_says(list, 3);
    }
}

/// What the interface offers comes with the names of all services and of all targets.
pub proof fn law_discovery_names_all(a: AppModel)
    ensures
        says_texts(discovery_json(a), "services"@, a.services.keys),
        says_texts(discovery_json(a), "targets"@, a.targets.keys),
        says(discovery_json(a), "name"@, JsonModel::Text("gantry"@)),
{
    let list = discovery_json(a)->Object_0;
    lemma_says(list, 0);
    lemma_says(list, 2);
    lemma_says(list, 3);
    lemma_texts(a.services.keys);
    lemma_texts(a.targets.keys);
}

} // verus!
