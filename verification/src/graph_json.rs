//! The state of everything as JSON: for the graph, for the first message to a listener, and as
//! a summary.
use crate::app_state::{AppModel, AppState};
use crate::json::{
    list, models, option_json, option_text, text, texts, texts_json, Json, JsonModel, Members,
};
use crate::ordered_map::{Item, OrderedMap, Table};
use crate::text::{text_eq, Str};
use crate::views::{
    compute_display, svc_views, tgt_views, ProbeView, ProbeViewModel, SvcView, SvcViewModel,
    TgtView, TgtViewModel,
};
use vstd::prelude::*;

verus! {

/// Members with a reason, if there is one.
pub open spec fn with_reason(m: Seq<(Str, JsonModel)>, reason: Option<Str>) -> Seq<
    (Str, JsonModel),
> {
    match reason {
        Some(r) => m.push(("reason"@, JsonModel::Text(r))),
        None => m,
    }
}

/// Adds a reason, if there is one.
pub fn put_reason(m: &mut Members, reason: &Option<String>)
    ensures
        final(m).all() == with_reason(old(m).all(), reason.deep_view()),
{
    if let Some(r) = reason {
        m.put("reason", text(r.as_str()));
    }
}

/// A state and a reason, if there is one.
pub open spec fn brief_json(state: Str, reason: Option<Str>) -> JsonModel {
    JsonModel::Object(with_reason(seq![("state"@, JsonModel::Text(state))], reason))
}

/// A state and a reason, if there is one.
pub fn brief(state: &str, reason: &Option<String>) -> (r: Json)
    ensures
        r.model() == brief_json(state@, reason.deep_view()),
{
    let mut m = Members::new();
    m.put("state", text(state));
    assert(m.all() =~= seq![("state"@, JsonModel::Text(state@))]);
    put_reason(&mut m, reason);
    m.object()
}

/// A probe in the graph.
pub open spec fn probe_json(name: Str, p: ProbeViewModel) -> JsonModel {
    JsonModel::Object(
        with_reason(
            seq![
                ("name"@, JsonModel::Text(name)),
                ("state"@, JsonModel::Text(p.state)),
                ("probe_type"@, JsonModel::Text(p.probe_type)),
                ("depends_on"@, texts_json(p.depends_on)),
            ],
            p.reason,
        ),
    )
}

/// A service in the graph.
pub open spec fn service_json(name: Str, s: SvcViewModel) -> JsonModel {
    JsonModel::Object(
        with_reason(
            seq![
                ("name"@, JsonModel::Text(name)),
                ("state"@, JsonModel::Text(s.state)),
                ("container"@, JsonModel::Text(s.container)),
                ("runtime"@, JsonModel::Text(s.runtime)),
                ("restart_on_fail"@, JsonModel::Bool(s.restart_on_fail)),
                ("start_after"@, texts_json(s.start_after)),
                (
                    "probes"@,
                    JsonModel::List(
                        Seq::new(
                            s.probes.keys.len(),
                            |i: int| probe_json(s.probes.keys[i], s.probes.at(s.probes.keys[i])),
                        ),
                    ),
                ),
            ],
            s.reason,
        ),
    )
}

/// A target in the graph.
pub open spec fn target_json(name: Str, t: TgtViewModel) -> JsonModel {
    JsonModel::Object(
        with_reason(
            seq![
                ("name"@, JsonModel::Text(name)),
                ("state"@, JsonModel::Text(t.state)),
                ("probes"@, texts_json(t.probes)),
                ("direct_probes"@, texts_json(t.direct_probes)),
                ("depends_on"@, texts_json(t.depends_on)),
            ],
            t.reason,
        ),
    )
}

fn write_probe(name: &str, p: &ProbeView) -> (r: Json)
    ensures
        r.model() == probe_json(name@, p.deep_view()),
{
    let mut m = Members::new();
    m.put("name", text(name));
    m.put("state", text(p.state));
    m.put("probe_type", text(p.probe_type.as_str()));
    m.put("depends_on", texts(&p.depends_on));
    assert(m.all() =~= seq![
        ("name"@, JsonModel::Text(name@)),
        ("state"@, JsonModel::Text(p.state@)),
        ("probe_type"@, JsonModel::Text(p.probe_type@)),
        ("depends_on"@, texts_json(p.depends_on.deep_view())),
    ]);
    put_reason(&mut m, &p.reason);
    m.object()
}

fn write_service(name: &str, s: &SvcView) -> (r: Json)
    requires
        s.ok(),
    ensures
        r.model() == service_json(name@, s.deep_view()),
{
    let ghost t = s.deep_view().probes;
    let mut probes: Vec<Json> = Vec::new();
    let n: usize = s.probes.len();
    let mut i: usize = 0;
    while i < n
        invariant
            s.ok(),
            t == s.deep_view().probes,
            i <= n == t.keys.len(),
            probes.len() == i,
            forall|j: int|
                0 <= j < i ==> (#[trigger] probes@[j]).model() == probe_json(
                    t.keys[j],
                    t.at(t.keys[j]),
                ),
        decreases n - i,
    {
        probes.push(write_probe(s.probes.name(i).as_str(), s.probes.value(i)));
        i = i + 1;
    }
    let ghost all = Seq::new(t.keys.len(), |i: int| probe_json(t.keys[i], t.at(t.keys[i])));
    assert(models(probes@) =~= all);
    let mut m = Members::new();
    m.put("name", text(name));
    m.put("state", text(s.state));
    m.put("container", text(s.container.as_str()));
    m.put("runtime", text(s.runtime));
    m.put("restart_on_fail", Json::Bool(s.restart_on_fail));
    m.put("start_after", texts(&s.start_after));
    m.put("probes", list(probes));
    assert(m.all() =~= seq![
        ("name"@, JsonModel::Text(name@)),
        ("state"@, JsonModel::Text(s.state@)),
        ("container"@, JsonModel::Text(s.container@)),
        ("runtime"@, JsonModel::Text(s.runtime@)),
        ("restart_on_fail"@, JsonModel::Bool(s.restart_on_fail)),
        ("start_after"@, texts_json(s.start_after.deep_view())),
        ("probes"@, JsonModel::List(all)),
    ]);
    put_reason(&mut m, &s.reason);
    m.object()
}

fn write_target(name: &str, t: &TgtView) -> (r: Json)
    ensures
        r.model() == target_json(name@, t.deep_view()),
{
    let mut m = Members::new();
    m.put("name", text(name));
    m.put("state", text(t.state));
    m.put("probes", texts(&t.probes));
    m.put("direct_probes", texts(&t.direct_probes));
    m.put("depends_on", texts(&t.depends_on));
    assert(m.all() =~= seq![
        ("name"@, JsonModel::Text(name@)),
        ("state"@, JsonModel::Text(t.state@)),
        ("probes"@, texts_json(t.probes.deep_view())),
        ("direct_probes"@, texts_json(t.direct_probes.deep_view())),
        ("depends_on"@, texts_json(t.depends_on.deep_view())),
    ]);
    put_reason(&mut m, &t.reason);
    m.object()
}

/// The number of the first `n` services whose containers run.
pub open spec fn running_count(svcs: Table<SvcViewModel>, n: int) -> nat
    decreases n,
{
    if n <= 0 {
        0
    } else if svcs.at(svcs.keys[n - 1]).runtime == "running"@ {
        running_count(svcs, n - 1) + 1
    } else {
        running_count(svcs, n - 1)
    }
}

/// Whether all services and all targets are shown as green.
pub open spec fn all_shown_green(svcs: Table<SvcViewModel>, tgts: Table<TgtViewModel>) -> bool {
    &&& forall|i: int|
        0 <= i < svcs.keys.len() ==> svcs.at(#[trigger] svcs.keys[i]).state == "green"@
    &&& forall|i: int|
        0 <= i < tgts.keys.len() ==> tgts.at(#[trigger] tgts.keys[i]).state == "green"@
}

fn is_all_green(svcs: &OrderedMap<SvcView>, tgts: &OrderedMap<TgtView>) -> (r: bool)
    requires
        svcs.wf(),
        tgts.wf(),
    ensures
        r == all_shown_green(svcs.deep_view(), tgts.deep_view()),
{
    let ghost a = svcs.deep_view();
    let ghost b = tgts.deep_view();
    let n: usize = svcs.len();
    let mut i: usize = 0;
    while i < n
        invariant
            svcs.wf(),
            a == svcs.deep_view(),
            b == tgts.deep_view(),
            i <= n == a.keys.len(),
            forall|j: int| 0 <= j < i ==> a.at(#[trigger] a.keys[j]).state == "green"@,
        decreases n - i,
    {
        if !text_eq(svcs.value(i).state, "green") {
            assert(a.at(a.keys[i as int]).state != "green"@);
            return false;
        }
        i = i + 1;
    }
    let m: usize = tgts.len();
    let mut i: usize = 0;
    while i < m
        invariant
            tgts.wf(),
            a == svcs.deep_view(),
            b == tgts.deep_view(),
            i <= m == b.keys.len(),
            forall|j: int| 0 <= j < i ==> b.at(#[trigger] b.keys[j]).state == "green"@,
        decreases m - i,
    {
        if !text_eq(tgts.value(i).state, "green") {
            assert(b.at(b.keys[i as int]).state != "green"@);
            return false;
        }
        i = i + 1;
    }
    true
}

fn count_running(svcs: &OrderedMap<SvcView>) -> (r: u64)
    requires
        svcs.wf(),
    ensures
        r == running_count(svcs.deep_view(), svcs.deep_view().keys.len() as int),
{
    let ghost a = svcs.deep_view();
    let n: usize = svcs.len();
    let mut count: u64 = 0;
    let mut i: usize = 0;
    while i < n
        invariant
            svcs.wf(),
            a == svcs.deep_view(),
            i <= n == a.keys.len(),
            count == running_count(a, i as int),
            count <= i,
        decreases n - i,
    {
        if text_eq(svcs.value(i).runtime, "running") {
            count = count + 1;
        }
        i = i + 1;
    }
    count
}

/// The state of everything, with all that is configured.
pub open spec fn graph_json(a: AppModel) -> JsonModel {
    let svcs = svc_views(a.services, a.targets);
    let tgts = tgt_views(a.services, a.targets);
    JsonModel::Object(
        seq![
            (
                "status"@,
                JsonModel::Text(
                    if all_shown_green(svcs, tgts) {
                        "healthy"@
                    } else {
                        "degraded"@
                    },
                ),
            ),
            (
                "services"@,
                JsonModel::List(
                    Seq::new(
                        svcs.keys.len(),
                        |i: int| service_json(svcs.keys[i], svcs.at(svcs.keys[i])),
                    ),
                ),
            ),
            (
                "targets"@,
                JsonModel::List(
                    Seq::new(
                        tgts.keys.len(),
                        |i: int| target_json(tgts.keys[i], tgts.at(tgts.keys[i])),
                    ),
                ),
            ),
            (
                "summary"@,
                JsonModel::Object(
                    seq![
                        (
                            "services_running"@,
                            JsonModel::Num(running_count(svcs, svcs.keys.len() as int) as u64),
                        ),
                        ("services_total"@, JsonModel::Num(svcs.keys.len() as u64)),
                        ("targets_total"@, JsonModel::Num(tgts.keys.len() as u64)),
                    ],
                ),
            ),
            ("current_op"@, option_json(a.current_op)),
        ],
    )
}

/// The state of everything, with all that is configured.
pub fn build_graph_json(state: &AppState) -> (r: Json)
    requires
        state.wf(),
    ensures
        r.model() == graph_json(state.deep_view()),
{
    let ghost a = state.deep_view();
    let (svcs, tgts) = compute_display(state);
    let ghost sv = svcs.deep_view();
    let ghost tv = tgts.deep_view();
    let n: usize = svcs.len();
    let m: usize = tgts.len();
    let mut services: Vec<Json> = Vec::new();
    let mut i: usize = 0;
    while i < n
        invariant
            svcs.wf(),
            sv == svcs.deep_view(),
            i <= n == sv.keys.len(),
            services.len() == i,
            forall|j: int|
                0 <= j < i ==> (#[trigger] services@[j]).model() == service_json(
                    sv.keys[j],
                    sv.at(sv.keys[j]),
                ),
        decreases n - i,
    {
        services.push(write_service(svcs.name(i).as_str(), svcs.value(i)));
        i = i + 1;
    }
    let mut targets: Vec<Json> = Vec::new();
    let mut i: usize = 0;
    while i < m
        invariant
            tgts.wf(),
            tv == tgts.deep_view(),
            i <= m == tv.keys.len(),
            targets.len() == i,
            forall|j: int|
                0 <= j < i ==> (#[trigger] targets@[j]).model() == target_json(
                    tv.keys[j],
                    tv.at(tv.keys[j]),
                ),
        decreases m - i,
    {
        targets.push(write_target(tgts.name(i).as_str(), tgts.value(i)));
        i = i + 1;
    }
    let ghost all = Seq::new(sv.keys.len(), |i: int| service_json(sv.keys[i], sv.at(sv.keys[i])));
    let ghost rest = Seq::new(tv.keys.len(), |i: int| target_json(tv.keys[i], tv.at(tv.keys[i])));
    assert(models(services@) =~= all);
    assert(models(targets@) =~= rest);
    let running: u64 = count_running(&svcs);
    let mut summary = Members::new();
    summary.put("services_running", Json::Num(running));
    summary.put("services_total", Json::Num(n as u64));
    summary.put("targets_total", Json::Num(m as u64));
    let ghost sum = seq![
        ("services_running"@, JsonModel::Num(running)),
        ("services_total"@, JsonModel::Num(n as u64)),
        ("targets_total"@, JsonModel::Num(m as u64)),
    ];
    assert(summary.all() =~= sum);
    let green = is_all_green(&svcs, &tgts);
    let current = state.op_lock.current_op();
    let mut out = Members::new();
    out.put(
        "status",
        text(
            if green {
                "healthy"
            } else {
                "degraded"
            },
        ),
    );
    out.put("services", list(services));
    out.put("targets", list(targets));
    out.put("summary", summary.object());
    out.put("current_op", option_text(&current));
    assert(out.all() =~= graph_json(a)->Object_0);
    out.object()
}

/// Services with their states and the states of their probes.
pub open spec fn snapshot_service(s: SvcViewModel) -> JsonModel {
    let t = s.probes;
    JsonModel::Object(
        seq![
            ("state"@, JsonModel::Text(s.state)),
            ("runtime"@, JsonModel::Text(s.runtime)),
            (
                "probes"@,
                JsonModel::Object(
                    Seq::new(
                        t.keys.len(),
                        |i: int|
                            (t.keys[i], brief_json(t.at(t.keys[i]).state, t.at(t.keys[i]).reason)),
                    ),
                ),
            ),
        ],
    )
}

/// Targets with their states.
pub open spec fn brief_targets(tgts: Table<TgtViewModel>) -> JsonModel {
    JsonModel::Object(
        Seq::new(
            tgts.keys.len(),
            |i: int|
                (
                    tgts.keys[i],
                    brief_json(tgts.at(tgts.keys[i]).state, tgts.at(tgts.keys[i]).reason),
                ),
        ),
    )
}

/// The first message to a listener.
pub open spec fn snapshot_json(a: AppModel) -> JsonModel {
    let svcs = svc_views(a.services, a.targets);
    JsonModel::Object(
        seq![
            ("type"@, JsonModel::Text("snapshot"@)),
            (
                "services"@,
                JsonModel::Object(
                    Seq::new(
                        svcs.keys.len(),
                        |i: int| (svcs.keys[i], snapshot_service(svcs.at(svcs.keys[i]))),
                    ),
                ),
            ),
            ("targets"@, brief_targets(tgt_views(a.services, a.targets))),
        ],
    )
}

fn write_snapshot_service(s: &SvcView) -> (r: Json)
    requires
        s.ok(),
    ensures
        r.model() == snapshot_service(s.deep_view()),
{
    let ghost t = s.deep_view().probes;
    let ghost f = |i: int|
        (t.keys[i], brief_json(t.at(t.keys[i]).state, t.at(t.keys[i]).reason));
    let mut probes = Members::new();
    let n: usize = s.probes.len();
    let mut i: usize = 0;
    assert(probes.all() =~= Seq::new(0, f));
    while i < n
        invariant
            s.ok(),
            t == s.deep_view().probes,
            f == (|i: int|
                (t.keys[i], brief_json(t.at(t.keys[i]).state, t.at(t.keys[i]).reason))),
            i <= n == t.keys.len(),
            probes.all() == Seq::new(i as nat, f),
        decreases n - i,
    {
        let p = s.probes.value(i);
        probes.put(s.probes.name(i).as_str(), brief(p.state, &p.reason));
        i = i + 1;
        assert(probes.all() =~= Seq::new(i as nat, f));
    }
    let mut out = Members::new();
    out.put("state", text(s.state));
    out.put("runtime", text(s.runtime));
    out.put("probes", probes.object());
    assert(out.all() =~= snapshot_service(s.deep_view())->Object_0);
    out.object()
}

fn write_brief_targets(tgts: &OrderedMap<TgtView>) -> (r: Json)
    requires
        tgts.wf(),
    ensures
        r.model() == brief_targets(tgts.deep_view()),
{
    let ghost t = tgts.deep_view();
    let ghost f = |i: int|
        (t.keys[i], brief_json(t.at(t.keys[i]).state, t.at(t.keys[i]).reason));
    let mut out = Members::new();
    let n: usize = tgts.len();
    let mut i: usize = 0;
    assert(out.all() =~= Seq::new(0, f));
    while i < n
        invariant
            tgts.wf(),
            t == tgts.deep_view(),
            f == (|i: int|
                (t.keys[i], brief_json(t.at(t.keys[i]).state, t.at(t.keys[i]).reason))),
            i <= n == t.keys.len(),
            out.all() == Seq::new(i as nat, f),
        decreases n - i,
    {
        let v = tgts.value(i);
        out.put(tgts.name(i).as_str(), brief(v.state, &v.reason));
        i = i + 1;
        assert(out.all() =~= Seq::new(i as nat, f));
    }
    assert(out.all() =~= brief_targets(t)->Object_0);
    out.object()
}

/// The first message to a listener.
pub fn build_ws_snapshot(state: &AppState) -> (r: Json)
    requires
        state.wf(),
    ensures
        r.model() == snapshot_json(state.deep_view()),
{
    let ghost a = state.deep_view();
    let (svcs, tgts) = compute_display(state);
    let ghost t = svcs.deep_view();
    let ghost f = |i: int| (t.keys[i], snapshot_service(t.at(t.keys[i])));
    let mut services = Members::new();
    let n: usize = svcs.len();
    let mut i: usize = 0;
    assert(services.all() =~= Seq::new(0, f));
    while i < n
        invariant
            svcs.wf(),
            t == svcs.deep_view(),
            f == (|i: int| (t.keys[i], snapshot_service(t.at(t.keys[i])))),
            i <= n == t.keys.len(),
            services.all() == Seq::new(i as nat, f),
        decreases n - i,
    {
        services.put(svcs.name(i).as_str(), write_snapshot_service(svcs.value(i)));
        i = i + 1;
        assert(services.all() =~= Seq::new(i as nat, f));
    }
    let mut out = Members::new();
    out.put("type", text("snapshot"));
    out.put("services", services.object());
    out.put("targets", write_brief_targets(&tgts));
    assert(out.all() =~= snapshot_json(a)->Object_0);
    out.object()
}

/// A summary: the states of services and targets, and why they are not green.
pub open spec fn status_json(a: AppModel) -> JsonModel {
    let svcs = svc_views(a.services, a.targets);
    let tgts = tgt_views(a.services, a.targets);
    JsonModel::Object(
        seq![
            ("healthy"@, JsonModel::Bool(all_shown_green(svcs, tgts))),
            (
                "services"@,
                JsonModel::Object(
                    Seq::new(
                        svcs.keys.len(),
                        |i: int|
                            (
                                svcs.keys[i],
                                brief_json(
                                    svcs.at(svcs.keys[i]).state,
                                    svcs.at(svcs.keys[i]).reason,
                                ),
                            ),
                    ),
                ),
            ),
            ("targets"@, brief_targets(tgts)),
            ("current_op"@, option_json(a.current_op)),
        ],
    )
}

/// A summary: the states of services and targets, and why they are not green.
pub fn get_status(state: &AppState) -> (r: Json)
    requires
        state.wf(),
    ensures
        r.model() == status_json(state.deep_view()),
{
    let ghost a = state.deep_view();
    let (svcs, tgts) = compute_display(state);
    let ghost t = svcs.deep_view();
    let ghost f = |i: int|
        (t.keys[i], brief_json(t.at(t.keys[i]).state, t.at(t.keys[i]).reason));
    let mut services = Members::new();
    let n: usize = svcs.len();
    let mut i: usize = 0;
    assert(services.all() =~= Seq::new(0, f));
    while i < n
        invariant
            svcs.wf(),
            t == svcs.deep_view(),
            f == (|i: int|
                (t.keys[i], brief_json(t.at(t.keys[i]).state, t.at(t.keys[i]).reason))),
            i <= n == t.keys.len(),
            services.all() == Seq::new(i as nat, f),
        decreases n - i,
    {
        let v = svcs.value(i);
        services.put(svcs.name(i).as_str(), brief(v.state, &v.reason));
        i = i + 1;
        assert(services.all() =~= Seq::new(i as nat, f));
    }
    let current = state.op_lock.current_op();
    let mut out = Members::new();
    out.put("healthy", Json::Bool(is_all_green(&svcs, &tgts)));
    out.put("services", services.object());
    out.put("targets", write_brief_targets(&tgts));
    out.put("current_op", option_text(&current));
    assert(out.all() =~= status_json(a)->Object_0);
    out.object()
}

} // verus!
