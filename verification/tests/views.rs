use gantry::app_state::AppState;
use gantry::cli::{graph, graph_url, post_url, status_url};
use gantry::config::{
    DefaultsConfig, GantryConfig, ProbeConfig, ProbeEntry, ServiceConfig, TargetConfig,
};
use gantry::duration::Duration;
use gantry::error::GantryError;
use gantry::events::Event;
use gantry::graph_json::{build_graph_json, build_ws_snapshot, get_status};
use gantry::json::{Json, Members};
use gantry::json_text::write_json;
use gantry::model::ProbeRef;
use gantry::ops::OpResponse;
use gantry::ordered_map::OrderedMap;
use gantry::probe::{ProbeOutcome, ProbeResult};
use gantry::routes::{
    api_discovery, err_response, get_service, get_target, post_message, ConvergeQuery,
    TimeoutQuery,
};
use gantry::start::{start, start_checks, start_done, Starting};
use gantry::startup::assemble;
use serde_json::Value;

fn tcp(port: u16, depends_on: &[&str]) -> ProbeEntry {
    ProbeEntry {
        probe: ProbeConfig::Tcp { host: None, port, timeout: Duration::from_secs(5) },
        depends_on: depends_on.iter().map(|s| s.to_string()).collect(),
    }
}

fn service(container: &str, start_after: &[&str], probes: Vec<(&str, ProbeEntry)>) -> ServiceConfig {
    let mut table = OrderedMap::new();
    for (name, p) in probes {
        table.insert(name.to_string(), p);
    }
    ServiceConfig {
        container: container.to_string(),
        start_after: start_after.iter().map(|s| s.to_string()).collect(),
        probes: table,
        restart_on_fail: None,
    }
}

/// `app` starts after `db.ready`, and `app.http` depends on `db.ready`.
fn config() -> GantryConfig {
    let mut services = OrderedMap::new();
    services.insert("db".to_string(), service("c-db", &[], vec![("port", tcp(5432, &[]))]));
    services.insert(
        "app".to_string(),
        service("c-app", &["db.ready"], vec![("http", tcp(8080, &["db.ready"]))]),
    );
    let mut targets = OrderedMap::new();
    targets.insert(
        "all".to_string(),
        TargetConfig { probes: vec!["app.ready".to_string()], depends_on: vec![] },
    );
    let mut c = GantryConfig { services, targets, defaults: DefaultsConfig::default() };
    c.auto_generate_ready_probes();
    c.topo_sort_probes();
    c
}

fn state() -> AppState {
    assemble(config()).unwrap()
}

fn generation(s: &AppState, svc: &str) -> u64 {
    s.services.get(svc).unwrap().generation
}

fn passed(s: &AppState, svc: &str, probe: &str) -> (ProbeRef, ProbeOutcome) {
    let r = ProbeResult::Passed { duration_ms: 7 };
    (
        ProbeRef::new(svc, probe),
        ProbeOutcome::immediate(r).with_generation(generation(s, svc)),
    )
}

fn failed(s: &AppState, svc: &str, probe: &str) -> (ProbeRef, ProbeOutcome) {
    let r = ProbeResult::Failed { error: "refused".to_string(), duration_ms: 9 };
    (
        ProbeRef::new(svc, probe),
        ProbeOutcome::immediate(r).with_generation(generation(s, svc)),
    )
}

/// Starts a service and has its one checked probe pass.
fn up(s: &mut AppState, svc: &str, probe: &str) -> OpResponse {
    assert!(matches!(start(s, svc, true), Ok(Starting::Start { .. })));
    let pending = start_checks(s, svc, 11);
    assert_eq!(pending.len(), 1);
    let outcomes = vec![passed(s, svc, probe)];
    start_done(s, svc, &outcomes)
}

fn value(j: &Json) -> Value {
    serde_json::from_str(&write_json(j)).unwrap()
}

fn parse(text: &str) -> Value {
    serde_json::from_str(text).unwrap()
}

#[test]
fn status_of_a_half_started_setup() {
    let mut s = state();
    up(&mut s, "db", "port");
    assert_eq!(
        value(&get_status(&s)),
        parse(
            r#"{"healthy": false,
                "services": {"db": {"state": "green"}, "app": {"state": "stopped"}},
                "targets": {"all": {"state": "inactive"}},
                "current_op": null}"#
        )
    );
    assert!(s.op_lock.try_acquire("start app").is_ok());
    assert_eq!(value(&get_status(&s))["current_op"], "start app");
}

#[test]
fn status_names_the_cause() {
    let mut s = state();
    up(&mut s, "db", "port");
    s.targets.value_mut(0).activated = true;
    let v = value(&get_status(&s));
    assert_eq!(v["services"]["app"], parse(r#"{"state": "red", "reason": "stopped"}"#));
    assert_eq!(v["targets"]["all"]["state"], "red");
    up(&mut s, "app", "http");
    let v = value(&get_status(&s));
    assert_eq!(v["healthy"], true);
    assert_eq!(v["targets"]["all"], parse(r#"{"state": "green"}"#));
}

#[test]
fn the_graph_tells_all() {
    let mut s = state();
    up(&mut s, "db", "port");
    let v = value(&build_graph_json(&s));
    assert_eq!(v["status"], "degraded");
    assert_eq!(
        v["summary"],
        parse(r#"{"services_running": 1, "services_total": 2, "targets_total": 1}"#)
    );
    assert_eq!(
        v["services"][0],
        parse(
            r#"{"name": "db", "state": "green", "container": "c-db", "runtime": "running",
                "restart_on_fail": true, "start_after": [],
                "probes": [
                  {"name": "port", "state": "green", "probe_type": "tcp :5432",
                   "depends_on": []},
                  {"name": "ready", "state": "green", "probe_type": "meta",
                   "depends_on": ["db.port"]}]}"#
        )
    );
    assert_eq!(v["services"][1]["start_after"][0], "db.ready");
    assert_eq!(v["targets"][0]["direct_probes"], parse(r#"["app.ready"]"#));
}

#[test]
fn the_snapshot_holds_the_states() {
    let s = state();
    let v = value(&build_ws_snapshot(&s));
    assert_eq!(v["type"], "snapshot");
    assert_eq!(v["services"]["db"]["runtime"], "stopped");
    assert_eq!(
        v["services"]["db"]["probes"]["port"],
        parse(r#"{"state": "stopped", "reason": "stopped"}"#)
    );
    assert_eq!(v["targets"]["all"]["state"], "inactive");
}

#[test]
fn details_of_a_service() {
    let mut s = state();
    up(&mut s, "db", "port");
    assert!(start(&mut s, "app", true).is_ok());
    start_checks(&mut s, "app", 0);
    let outcomes = vec![failed(&s, "app", "http")];
    start_done(&mut s, "app", &outcomes);
    assert!(get_service(&s, "none").is_none());
    let v = value(&get_service(&s, "app").unwrap());
    assert_eq!(v["state"], "red");
    assert_eq!(v["runtime"], "running");
    assert_eq!(v["probes"]["http"]["state"], "red");
    assert_eq!(v["probes"]["http"]["error"], "refused");
    assert_eq!(v["probes"]["http"]["probe_ms"], 9);
    assert_eq!(v["probes"]["ready"]["blocked_by"], "app.http");
    let v = value(&get_service(&s, "db").unwrap());
    assert_eq!(v["probes"]["port"]["probe_ms"], 7);
    assert!(v.get("reason").is_none());
}

#[test]
fn details_of_a_target() {
    let mut s = state();
    assert!(get_target(&s, "none").is_none());
    up(&mut s, "db", "port");
    s.targets.value_mut(0).activated = true;
    let v = value(&get_target(&s, "all").unwrap());
    assert_eq!(v["name"], "all");
    assert_eq!(v["state"], "red");
    assert_eq!(v["services"]["db"]["state"], "green");
    assert_eq!(v["services"]["app"]["state"], "red");
    assert!(!v["reasons"].as_array().unwrap().is_empty());
}

#[test]
fn the_service_describes_itself() {
    let s = state();
    let v = value(&api_discovery(&s));
    assert_eq!(v["name"], "gantry");
    assert_eq!(v["services"], parse(r#"["db", "app"]"#));
    assert_eq!(v["targets"], parse(r#"["all"]"#));
    assert_eq!(
        v["endpoints"][4],
        parse(
            r#"{"method": "POST", "path": "/api/converge/target/:name",
                "params": "?timeout=N&skip_restart=true",
                "description": "Bring target to green: start services, probe, restart on failure."}"#
        )
    );
    assert_eq!(
        v["endpoints"][11],
        parse(
            r#"{"method": "POST", "path": "/api/message",
                "description": "Post a message to the event stream."}"#
        )
    );
    assert_eq!(v["endpoints"].as_array().unwrap().len(), 13);
    assert_eq!(
        v["concurrency"],
        "One write operation at a time. Returns 409 Conflict if busy."
    );
}

#[test]
fn every_error_has_its_status_and_text() {
    for (e, status, text) in [
        (GantryError::Config("a".into()), 500, "config error: a"),
        (GantryError::Validation("a".into()), 500, "validation error: a"),
        (GantryError::Docker("a".into()), 500, "docker error: a"),
        (GantryError::Operation("a".into()), 500, "operation error: a"),
        (GantryError::Timeout, 500, "operation timed out"),
        (GantryError::Conflict("a".into()), 409, "conflict: a"),
        (GantryError::NotFound("a".into()), 404, "not found: a"),
    ] {
        let (code, body) = err_response(&e);
        assert_eq!(code, status);
        assert_eq!(body.result, "failed");
        assert_eq!(body.error, Some(text.to_string()));
        assert_eq!(e.to_string(), text);
    }
}

#[test]
fn queries_have_defaults() {
    assert_eq!(TimeoutQuery::new(None).timeout, 60);
    assert_eq!(TimeoutQuery::new(Some(5)).timeout, 5);
    let q = ConvergeQuery::new(None, None);
    assert_eq!((q.timeout, q.skip_restart), (60, false));
    let q = ConvergeQuery::new(Some(1), Some(true));
    assert_eq!((q.timeout, q.skip_restart), (1, true));
}

#[test]
fn a_message_becomes_an_event() {
    let mut s = state();
    post_message(&mut s, Some("hello"));
    post_message(&mut s, None);
    let events = s.take_events();
    assert_eq!(events.len(), 2);
    match &events[0] {
        Event::Message { text, ts } => {
            assert_eq!(text, "hello");
            assert!(*ts > 1_600_000_000_000);
        }
        _ => panic!("a message was posted"),
    }
    assert!(matches!(&events[1], Event::Message { text, .. } if text.is_empty()));
    assert!(s.take_events().is_empty());
}

#[test]
fn events_as_lines_of_a_log() {
    let e = Event::op_start("converge", "all");
    assert!(e.log_line().starts_with("cmd "), "{}", e.log_line());
    assert!(!e.is_debug());
    let e = Event::message("hi");
    assert!(e.log_line().starts_with("    "), "{}", e.log_line());
}

#[test]
fn json_is_written_as_usual() {
    let mut m = Members::new();
    m.put("a", Json::Null);
    m.put("b", Json::Bool(true));
    m.put("c", Json::Num(u64::MAX));
    m.put("d", Json::Raw("-1.5".to_string()));
    m.put("e", Json::Text("q\"\\\n\t\r\u{8}\u{c}\u{1}\u{1f}/\u{e9}".to_string()));
    m.put("f", Json::List(vec![Json::List(vec![]), Json::Object(vec![])]));
    let text = write_json(&m.object());
    assert_eq!(
        text,
        "{\"a\":null,\"b\":true,\"c\":18446744073709551615,\"d\":-1.5,\
         \"e\":\"q\\\"\\\\\\n\\t\\r\\b\\f\\u0001\\u001f/\u{e9}\",\"f\":[[],{}]}"
    );
    assert_eq!(parse(&text)["e"], "q\"\\\n\t\r\u{8}\u{c}\u{1}\u{1f}/\u{e9}");
}

#[test]
fn addresses_of_the_service() {
    assert_eq!(status_url("h", None, None), "h/api/status");
    assert_eq!(status_url("h", Some("service"), None), "h/api/status");
    assert_eq!(status_url("h", Some("service"), Some("db")), "h/api/status/service/db");
    assert_eq!(post_url("h", "/api/reprobe/all", None), "h/api/reprobe/all");
    assert_eq!(post_url("h", "/p", Some(30)), "h/p?timeout=30");
    assert_eq!(graph_url("h", None), "h/api/graph");
    assert_eq!(graph_url("h", Some("all")), "h/api/graph/target/all");
}

#[test]
fn the_graph_as_text() {
    let mut s = state();
    up(&mut s, "db", "port");
    let lines = graph(&build_graph_json(&s));
    assert_eq!(
        lines.join("\n"),
        "Services:\n  db [green]\n    \u{25cf} port         green\n    \
         \u{25cf} ready        green  depends_on: db.port\n\n  app [stopped]\n    \
         \u{25cb} http         stopped  depends_on: db.ready\n    \
         \u{25cb} ready        stopped  depends_on: app.http\n    \
         start_after: db.ready\n\nTargets:\n  all [inactive]  \
         probes: app.ready, app.http, db.ready, db.port"
    );
    assert!(graph(&Json::Null).is_empty());
}
