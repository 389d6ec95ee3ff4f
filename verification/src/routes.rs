//! The answers of the HTTP interface.
use crate::app_state::{AppModel, AppState};
use crate::converge::distinct_services;
use crate::display::{
    active_services, compute_svc_reason, compute_target_reasons, is_active, probe_display,
    svc_display, svc_reason, target_reasons,
};
use crate::error::{ErrorModel, GantryError};
use crate::events::{Event, EventModel};
use crate::graph_json::{brief, brief_json, put_reason, with_reason};
use crate::json::{
    list, models, text, texts, texts_json, with_text, Json, JsonModel, Members,
};
use crate::model::{
    ref_text_list, ref_texts, ProbeState, RedModel, RedReason, ServiceState, StateModel,
};
use crate::names::NameSet;
use crate::ops::{ActionsModel, OpActions, OpResponse, ResponseModel};
use crate::ordered_map::{Item, OrderedMap, Table};
use crate::reprobe::{list_services, told};
use crate::runtime::{
    ProbeDisplayState, ProbeModel, ProbeRuntime, ServicesModel, SvcDisplayState, TargetsModel,
};
use crate::targets::state_of;
use crate::text::Str;
use vstd::prelude::*;

verus! {

/// The seconds that an operation may take, unless a caller says otherwise.
pub const DEFAULT_TIMEOUT: u64 = 60;

/// What a caller may say of an operation.
pub struct TimeoutQuery {
    pub timeout: u64,
}

/// What a caller may say of bringing a target to green.
pub struct ConvergeQuery {
    pub timeout: u64,
    pub skip_restart: bool,
}

impl TimeoutQuery {
    /// What a caller said, if anything.
    pub fn new(timeout: Option<u64>) -> (r: Self)
        ensures
            r.timeout == (match timeout {
                Some(t) => t,
                None => DEFAULT_TIMEOUT,
            }),
    {
        TimeoutQuery {
            timeout: match timeout {
                Some(t) => t,
                None => DEFAULT_TIMEOUT,
            },
        }
    }
}

impl ConvergeQuery {
    /// What a caller said, if anything.
    pub fn new(timeout: Option<u64>, skip_restart: Option<bool>) -> (r: Self)
        ensures
            r.timeout == (match timeout {
                Some(t) => t,
                None => DEFAULT_TIMEOUT,
            }),
            r.skip_restart == (skip_restart == Some(true)),
    {
        ConvergeQuery {
            timeout: match timeout {
                Some(t) => t,
                None => DEFAULT_TIMEOUT,
            },
            skip_restart: match skip_restart {
                Some(b) => b,
                None => false,
            },
        }
    }
}

/// The HTTP status for an error.
pub open spec fn status_of(e: ErrorModel) -> u16 {
    match e {
        ErrorModel::NotFound(_) => 404,
        ErrorModel::Conflict(_) => 409,
        _ => 500,
    }
}

/// The answer of an operation that went wrong.
pub open spec fn failed_response(error: Str) -> ResponseModel {
    ResponseModel {
        result: "failed"@,
        duration_ms: 0,
        error: Some(error),
        not_green: Seq::empty(),
        actions: ActionsModel::none(),
        probes: Table::empty(),
        targets: Table::empty(),
    }
}

/// The HTTP status and the answer for an error.
pub fn err_response(e: &GantryError) -> (r: (u16, OpResponse))
    ensures
        r.0 == status_of(e.deep_view()),
        r.1.wf(),
        r.1.deep_view() == failed_response(e.deep_view().text()),
{
    let status: u16 = match e {
        GantryError::NotFound(_) => 404,
        GantryError::Conflict(_) => 409,
        _ => 500,
    };
    let response = OpResponse {
        result: "failed".to_owned(),
        duration_ms: 0,
        error: Some(e.to_string()),
        not_green: Vec::new(),
        actions: OpActions::default(),
        probes: OrderedMap::new(),
        targets: OrderedMap::new(),
    };
    assert(response.deep_view().not_green =~= Seq::<Str>::empty());
    (status, response)
}

/// The dependency that makes a probe red.
pub open spec fn blocked_by(state: StateModel) -> Option<Str> {
    match state {
        StateModel::Red(RedModel::DepRed { dep }) => Some(dep.text()),
        _ => None,
    }
}

/// A probe in detail: its state, its last check and what it waits for.
pub open spec fn probe_detail(p: ProbeModel, svc: ServiceState) -> JsonModel {
    let m = seq![
        ("state"@, JsonModel::Text(probe_display(p.state, svc).text())),
        ("probe_type"@, JsonModel::Text(p.probe_config.display())),
        ("depends_on"@, texts_json(ref_texts(p.depends_on))),
    ];
    let m = with_text(m, "reason"@, p.state.short_reason());
    let m = with_text(m, "error"@, p.last_error);
    let m = match p.last_probe_ms {
        Some(ms) => m.push(("probe_ms"@, JsonModel::Num(ms))),
        None => m,
    };
    let m = with_text(m, "log"@, p.last_log_match);
    JsonModel::Object(with_text(m, "blocked_by"@, blocked_by(p.state)))
}

fn write_probe_detail(p: &ProbeRuntime, svc: ServiceState) -> (r: Json)
    ensures
        r.model() == probe_detail(p.deep_view(), svc),
{
    let mut m = Members::new();
    m.put("state", text(ProbeDisplayState::from_probe(p, svc).as_str()));
    m.put("probe_type", text(p.probe_config.display_type().as_str()));
    m.put("depends_on", texts(&ref_text_list(&p.depends_on)));
    assert(m.all() =~= seq![
        ("state"@, JsonModel::Text(probe_display(p.deep_view().state, svc).text())),
        ("probe_type"@, JsonModel::Text(p.deep_view().probe_config.display())),
        ("depends_on"@, texts_json(ref_texts(p.deep_view().depends_on))),
    ]);
    if let Some(r) = p.state.short_reason() {
        m.put("reason", text(r));
    }
    m.put_text("error", &p.last_error);
    if let Some(ms) = p.last_probe_ms {
        m.put("probe_ms", Json::Num(ms));
    }
    m.put_text("log", &p.last_log_match);
    if let ProbeState::Red(RedReason::DepRed { dep }) = &p.state {
        m.put("blocked_by", text(dep.to_string().as_str()));
    }
    m.object()
}

/// A service in detail.
pub open spec fn service_detail(a: AppModel, name: Str) -> JsonModel {
    let svc = a.services.at(name);
    let display = svc_display(svc, is_active(a.services, a.targets, name));
    let t = svc.probes;
    JsonModel::Object(
        with_reason(
            seq![
                ("name"@, JsonModel::Text(name)),
                ("state"@, JsonModel::Text(display.text())),
                ("runtime"@, JsonModel::Text(svc.state.text())),
                ("container"@, JsonModel::Text(svc.container)),
                ("restart_on_fail"@, JsonModel::Bool(svc.restart_on_fail)),
                ("start_after"@, texts_json(ref_texts(svc.start_after))),
                (
                    "probes"@,
                    JsonModel::Object(
                        Seq::new(
                            t.keys.len(),
                            |i: int| (t.keys[i], probe_detail(t.at(t.keys[i]), svc.state)),
                        ),
                    ),
                ),
            ],
            svc_reason(display, svc),
        ),
    )
}

/// A service in detail, if it is configured.
pub fn get_service(state: &AppState, name: &str) -> (r: Option<Json>)
    requires
        state.wf(),
    ensures
        match r {
            Some(j) => state.deep_view().services.has(name@) && j.model() == service_detail(
                state.deep_view(),
                name@,
            ),
            None => !state.deep_view().services.has(name@),
        },
{
    let ghost a = state.deep_view();
    let svc = match state.services.get(name) {
        Some(svc) => svc,
        None => {
            return None;
        },
    };
    let ghost s = svc.deep_view();
    let active = active_services(&state.services, &state.targets);
    let display = SvcDisplayState::from_service_active(svc, active.contains(name));
    let ghost t = s.probes;
    let ghost f = |i: int| (t.keys[i], probe_detail(t.at(t.keys[i]), s.state));
    let mut probes = Members::new();
    let n: usize = svc.probes.len();
    let mut i: usize = 0;
    assert(probes.all() =~= Seq::new(0, f));
    while i < n
        invariant
            svc.ok(),
            s == svc.deep_view(),
            t == s.probes,
            f == (|i: int| (t.keys[i], probe_detail(t.at(t.keys[i]), s.state))),
            i <= n == t.keys.len(),
            probes.all() == Seq::new(i as nat, f),
        decreases n - i,
    {
        let p = svc.probes.value(i);
        probes.put(svc.probes.name(i).as_str(), write_probe_detail(p, svc.state));
        i = i + 1;
        assert(probes.all() =~= Seq::new(i as nat, f));
    }
    let mut m = Members::new();
    m.put("name", text(name));
    m.put("state", text(display.as_str()));
    m.put("runtime", text(svc.state.as_str()));
    m.put("container", text(svc.container.as_str()));
    m.put("restart_on_fail", Json::Bool(svc.restart_on_fail));
    m.put("start_after", texts(&ref_text_list(&svc.start_after)));
    m.put("probes", probes.object());
    assert(m.all() =~= seq![
        ("name"@, JsonModel::Text(name@)),
        ("state"@, JsonModel::Text(display.text())),
        ("runtime"@, JsonModel::Text(s.state.text())),
        ("container"@, JsonModel::Text(s.container)),
        ("restart_on_fail"@, JsonModel::Bool(s.restart_on_fail)),
        ("start_after"@, texts_json(ref_texts(s.start_after))),
        (
            "probes"@,
            JsonModel::Object(
                Seq::new(
                    t.keys.len(),
                    |i: int| (t.keys[i], probe_detail(t.at(t.keys[i]), s.state)),
                ),
            ),
        ),
    ]);
    put_reason(&mut m, &compute_svc_reason(display, svc));
    Some(m.object())
}

/// Those of some services that are configured, each with its state.
pub open spec fn brief_services(s: ServicesModel, ts: TargetsModel, names: Seq<Str>) -> Seq<
    (Str, JsonModel),
>
    decreases names.len(),
{
    if names.len() == 0 {
        Seq::empty()
    } else {
        let so_far = brief_services(s, ts, names.drop_last());
        let k = names.last();
        if s.has(k) {
            let display = svc_display(s.at(k), is_active(s, ts, k));
            so_far.push((k, brief_json(display.text(), svc_reason(display, s.at(k)))))
        } else {
            so_far
        }
    }
}

/// A target in detail: what makes it red, and the states of the services that it needs.
pub open spec fn target_detail(a: AppModel, name: Str) -> JsonModel {
    let t = a.targets.at(name);
    let state = state_of(a.services, a.targets, t);
    let reasons = target_reasons(state, a.services);
    let m = seq![
        ("name"@, JsonModel::Text(name)),
        ("state"@, JsonModel::Text(state.text())),
        ("depends_on"@, texts_json(t.depends_on_targets)),
        (
            "services"@,
            JsonModel::Object(
                brief_services(
                    a.services,
                    a.targets,
                    distinct_services(t.transitive_probes),
                ),
            ),
        ),
    ];
    JsonModel::Object(
        if reasons.len() > 0 {
            m.push(("reasons"@, texts_json(reasons)))
        } else {
            m
        },
    )
}

fn write_brief_services(state: &AppState, names: &NameSet) -> (r: Json)
    requires
        state.wf(),
        names.wf(),
    ensures
        r.model() == JsonModel::Object(
            brief_services(
                state.deep_view().services,
                state.deep_view().targets,
                names.deep_view(),
            ),
        ),
{
    let ghost s = state.deep_view().services;
    let ghost ts = state.deep_view().targets;
    let ghost all = names.deep_view();
    let active = active_services(&state.services, &state.targets);
    let mut out = Members::new();
    let n: usize = names.len();
    let mut i: usize = 0;
    while i < n
        invariant
            state.wf(),
            names.wf(),
            s == state.deep_view().services,
            ts == state.deep_view().targets,
            all == names.deep_view(),
            active.wf(),
            forall|x: Str| #[trigger] active.deep_view().contains(x) <==> is_active(s, ts, x),
            i <= n == all.len(),
            out.all() == brief_services(s, ts, all.take(i as int)),
        decreases n - i,
    {
        let ghost next = all.take(i + 1);
        assert(next.drop_last() =~= all.take(i as int));
        assert(next.last() == all[i as int]);
        let name = names.name(i);
        if let Some(svc) = state.services.get(name.as_str()) {
            let display = SvcDisplayState::from_service_active(
                svc,
                active.contains(name.as_str()),
            );
            let reason = compute_svc_reason(display, svc);
            out.put(name.as_str(), brief(display.as_str(), &reason));
        }
        i = i + 1;
    }
    assert(all.take(i as int) =~= all);
    out.object()
}

/// A target in detail, if it is configured.
pub fn get_target(state: &AppState, name: &str) -> (r: Option<Json>)
    requires
        state.wf(),
    ensures
        match r {
            Some(j) => state.deep_view().targets.has(name@) && j.model() == target_detail(
                state.deep_view(),
                name@,
            ),
            None => !state.deep_view().targets.has(name@),
        },
{
    let ghost a = state.deep_view();
    let t = match state.targets.get(name) {
        Some(t) => t,
        None => {
            return None;
        },
    };
    let current = t.state(&state.services, &state.targets);
    let reasons = compute_target_reasons(&current, &state.services);
    let mut names = NameSet::new();
    names.extend(&list_services(&t.transitive_probes));
    let mut m = Members::new();
    m.put("name", text(name));
    m.put("state", text(current.as_str()));
    m.put("depends_on", texts(&t.depends_on_targets));
    m.put("services", write_brief_services(state, &names));
    assert(m.all() =~= seq![
        ("name"@, JsonModel::Text(name@)),
        ("state"@, JsonModel::Text(current.deep_view().text())),
        ("depends_on"@, texts_json(t.deep_view().depends_on_targets)),
        (
            "services"@,
            JsonModel::Object(
                brief_services(
                    a.services,
                    a.targets,
                    distinct_services(t.deep_view().transitive_probes),
                ),
            ),
        ),
    ]);
    assert(reasons.deep_view().len() == reasons.len());
    if reasons.len() > 0 {
        m.put("reasons", texts(&reasons));
    }
    Some(m.object())
}

/// Takes in a message that is passed on to all listeners.
pub fn post_message(state: &mut AppState, message: Option<&str>)
    requires
        old(state).wf(),
    ensures
        final(state).wf(),
        final(state).deep_view() == told(
            old(state).deep_view(),
            EventModel::Message {
                text: match message {
                    Some(m) => m@,
                    None => ""@,
                },
            },
        ),
{
    match message {
        Some(m) => state.emit(Event::message(m)),
        None => state.emit(Event::message("")),
    }
}

/// A place at which the interface can be called.
pub open spec fn endpoint_json(
    method: Str,
    path: Str,
    params: Option<Str>,
    description: Str,
) -> JsonModel {
    let m = seq![("method"@, JsonModel::Text(method)), ("path"@, JsonModel::Text(path))];
    JsonModel::Object(
        with_text(m, "params"@, params).push(("description"@, JsonModel::Text(description))),
    )
}

fn endpoint(method: &str, path: &str, params: Option<&str>, description: &str) -> (r: Json)
    ensures
        r.model() == endpoint_json(
            method@,
            path@,
            match params {
                Some(p) => Some(p@),
                None => None,
            },
            description@,
        ),
{
    let mut m = Members::new();
    m.put("method", text(method));
    m.put("path", text(path));
    assert(m.all() =~= seq![
        ("method"@, JsonModel::Text(method@)),
        ("path"@, JsonModel::Text(path@)),
    ]);
    if let Some(p) = params {
        m.put("params", text(p));
    }
    m.put("description", text(description));
    m.object()
}

/// The places at which the interface can be called.
pub open spec fn endpoints() -> Seq<JsonModel> {
    seq![
        endpoint_json(
            "GET"@,
            "/api/status"@,
            None,
            "Health summary: target/service states with reasons."@,
        ),
        endpoint_json(
            "GET"@,
            "/api/service/:name"@,
            None,
            "Service detail: probes, errors, log matches, deps."@,
        ),
        endpoint_json(
            "GET"@,
            "/api/target/:name"@,
            None,
            "Target detail: root causes, service states."@,
        ),
        endpoint_json(
            "GET"@,
            "/api/graph"@,
            None,
            "Full topology with probe-level detail (for UI)."@,
        ),
        endpoint_json(
            "POST"@,
            "/api/converge/target/:name"@,
            Some("?timeout=N&skip_restart=true"@),
            "Bring target to green: start services, probe, restart on failure."@,
        ),
        endpoint_json(
            "POST"@,
            "/api/stop/service/:name"@,
            None,
            "Stop a service and propagate state."@,
        ),
        endpoint_json(
            "POST"@,
            "/api/start/service/:name"@,
            Some("?timeout=N"@),
            "Start a service and wait for probes."@,
        ),
        endpoint_json(
            "POST"@,
            "/api/restart/service/:name"@,
            Some("?timeout=N"@),
            "Stop then start a service."@,
        ),
        endpoint_json(
            "POST"@,
            "/api/reprobe/service/:name"@,
            Some("?timeout=N"@),
            "Re-check probes on a running service."@,
        ),
        endpoint_json(
            "POST"@,
            "/api/reprobe/target/:name"@,
            Some("?timeout=N"@),
            "Re-check probes for all services in a target."@,
        ),
        endpoint_json(
            "POST"@,
            "/api/reprobe/all"@,
            Some("?timeout=N"@),
            "Re-check all probes."@,
        ),
        endpoint_json("POST"@, "/api/message"@, None, "Post a message to the event stream."@),
        endpoint_json(
            "GET"@,
            "/api/ws"@,
            None,
            "WebSocket event stream (real-time state changes)."@,
        ),
    ]
}

fn list_endpoints() -> (r: Vec<Json>)
    ensures
        models(r@) == endpoints(),
{
    let mut out: Vec<Json> = Vec::new();
    out.push(
        endpoint(
            "GET",
            "/api/status",
            None,
            "Health summary: target/service states with reasons.",
        ),
    );
    out.push(
        endpoint(
            "GET",
            "/api/service/:name",
            None,
            "Service detail: probes, errors, log matches, deps.",
        ),
    );
    out.push(
        endpoint(
            "GET",
            "/api/target/:name",
            None,
            "Target detail: root causes, service states.",
        ),
    );
    out.push(
        endpoint(
            "GET",
            "/api/graph",
            None,
            "Full topology with probe-level detail (for UI).",
        ),
    );
    out.push(
        endpoint(
            "POST",
            "/api/converge/target/:name",
            Some("?timeout=N&skip_restart=true"),
            "Bring target to green: start services, probe, restart on failure.",
        ),
    );
    out.push(
        endpoint(
            "POST",
            "/api/stop/service/:name",
            None,
            "Stop a service and propagate state.",
        ),
    );
    out.push(
        endpoint(
            "POST",
            "/api/start/service/:name",
            Some("?timeout=N"),
            "Start a service and wait for probes.",
        ),
    );
    out.push(
        endpoint(
            "POST",
            "/api/restart/service/:name",
            Some("?timeout=N"),
            "Stop then start a service.",
        ),
    );
    out.push(
        endpoint(
            "POST",
            "/api/reprobe/service/:name",
            Some("?timeout=N"),
            "Re-check probes on a running service.",
        ),
    );
    out.push(
        endpoint(
            "POST",
            "/api/reprobe/target/:name",
            Some("?timeout=N"),
            "Re-check probes for all services in a target.",
        ),
    );
    out.push(
        endpoint(
            "POST",
            "/api/reprobe/all",
            Some("?timeout=N"),
            "Re-check all probes.",
        ),
    );
    out.push(
        endpoint("POST", "/api/message", None, "Post a message to the event stream."),
    );
    out.push(
        endpoint(
            "GET",
            "/api/ws",
            None,
            "WebSocket event stream (real-time state changes).",
        ),
    );
    assert(models(out@) =~= endpoints());
    out
}

/// What the interface offers, and the names of all services and targets.
pub open spec fn discovery_json(a: AppModel) -> JsonModel {
    JsonModel::Object(
        seq![
            ("name"@, JsonModel::Text("gantry"@)),
            ("endpoints"@, JsonModel::List(endpoints())),
            ("services"@, texts_json(a.services.keys)),
            ("targets"@, texts_json(a.targets.keys)),
            (
                "concurrency"@,
                JsonModel::Text(
                    "One write operation at a time. Returns 409 Conflict if busy."@,
                ),
            ),
        ],
    )
}

/// What the interface offers, and the names of all services and targets.
pub fn api_discovery(state: &AppState) -> (r: Json)
    requires
        state.wf(),
    ensures
        r.model() == discovery_json(state.deep_view()),
{
    let mut m = Members::new();
    m.put("name", text("gantry"));
    m.put("endpoints", list(list_endpoints()));
    m.put("services", texts(&state.services.names()));
    m.put("targets", texts(&state.targets.names()));
    m.put(
        "concurrency",
        text("One write operation at a time. Returns 409 Conflict if busy."),
    );
    assert(m.all() =~= discovery_json(state.deep_view())->Object_0);
    m.object()
}

} // verus!
