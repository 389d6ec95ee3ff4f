use gantry::config::{
    DefaultsConfig, GantryConfig, ProbeConfig, ProbeEntry, ServiceConfig, TargetConfig,
};
use gantry::duration::{parse_duration, Duration};
use gantry::app_state::AppState;
use gantry::apply::apply_probe_result;
use gantry::batch::{resolve_probe_batch, update_meta_probes};
use gantry::graph::DependencyGraph;
use gantry::model::{PendingReason, ProbeFailure, ProbeRef, ProbeState, RedReason, ServiceState};
use gantry::ops::emit_propagated_changes;
use gantry::ordered_map::OrderedMap;
use gantry::probe::{ProbeOutcome, ProbeResult};
use gantry::runtime::{probe_mut, ProbeRuntime, RuntimeState, Services, TargetState};
use serde_yaml::Value;

fn texts(v: &Value) -> Vec<String> {
    match v.as_sequence() {
        Some(list) => list.iter().map(|t| t.as_str().unwrap().to_string()).collect(),
        None => Vec::new(),
    }
}

fn seconds(v: &Value, default: u64) -> Duration {
    match v.as_str() {
        Some(s) => parse_duration(s).unwrap(),
        None => Duration::from_secs(default),
    }
}

fn parse_probe(v: &Value) -> ProbeConfig {
    match v["type"].as_str().unwrap() {
        "tcp" => ProbeConfig::Tcp {
            host: v["host"].as_str().map(|s| s.to_string()),
            port: v["port"].as_u64().unwrap() as u16,
            timeout: seconds(&v["timeout"], 10),
        },
        "log" => ProbeConfig::Log {
            success: v["success"].as_str().unwrap().to_string(),
            failure: v["failure"].as_str().map(|s| s.to_string()),
            timeout: seconds(&v["timeout"], 30),
        },
        _ => ProbeConfig::Meta,
    }
}

fn parse_config(yaml: &str) -> GantryConfig {
    let v: Value = serde_yaml::from_str(yaml).unwrap();
    let mut services = OrderedMap::new();
    for (name, s) in v["services"].as_mapping().unwrap() {
        let mut probes = OrderedMap::new();
        if let Some(list) = s["probes"].as_mapping() {
            for (probe, e) in list {
                probes.insert(
                    probe.as_str().unwrap().to_string(),
                    ProbeEntry {
                        probe: parse_probe(&e["probe"]),
                        depends_on: texts(&e["depends_on"]),
                    },
                );
            }
        }
        services.insert(
            name.as_str().unwrap().to_string(),
            ServiceConfig {
                container: s["container"].as_str().unwrap().to_string(),
                start_after: texts(&s["start_after"]),
                probes,
                restart_on_fail: s["restart_on_fail"].as_bool(),
            },
        );
    }
    let mut targets = OrderedMap::new();
    if let Some(list) = v["targets"].as_mapping() {
        for (name, t) in list {
            targets.insert(
                name.as_str().unwrap().to_string(),
                TargetConfig { probes: texts(&t["probes"]), depends_on: texts(&t["depends_on"]) },
            );
        }
    }
    GantryConfig { services, targets, defaults: DefaultsConfig::default() }
}

fn at<'a>(services: &'a Services, svc: &str, probe: &str) -> &'a ProbeRuntime {
    services.get(svc).unwrap().probes.get(probe).unwrap()
}

fn at_mut<'a>(services: &'a mut Services, svc: &str, probe: &str) -> &'a mut ProbeRuntime {
    probe_mut(services, &ProbeRef::new(svc, probe))
}

/// The state for a configuration, with all targets active.
fn test_app_state(config: GantryConfig) -> AppState {
    let graph = DependencyGraph::build(&config).unwrap();
    let mut runtime = RuntimeState::from_config(&config);
    for i in 0..runtime.targets.len() {
        let probes = graph.flatten_target(runtime.targets.name(i), &config);
        let tgt = runtime.targets.value_mut(i);
        tgt.activated = true;
        tgt.transitive_probes = probes;
    }
    AppState::new(config, graph, runtime)
}

/// Test that resolve_probe_batch handles cross-service meta deps correctly.
/// Setup: flaky-api has dep + http + ready(meta).
///        doomed has dep (depends on flaky-api.ready) + http.
/// All probes pass. After resolve_probe_batch, doomed.dep must be green
/// (not pending), even though flaky-api.ready is a meta probe resolved mid-batch.
#[test]
fn resolve_batch_cross_service_meta_deps() {
    let yaml = r#"
services:
  flaky-api:
    container: test-flaky-api
    probes:
      dep:
        probe: { type: log, success: "connected", timeout: 5s }
      http:
        probe: { type: tcp, port: 8080, timeout: 5s }
        depends_on: [flaky-api.dep]
  doomed:
    container: test-doomed
    start_after: [flaky-api.ready]
    probes:
      dep:
        probe: { type: log, success: "connected", timeout: 5s }
        depends_on: [flaky-api.ready]
      http:
        probe: { type: tcp, port: 8080, timeout: 5s }
        depends_on: [doomed.dep]
targets:
  all:
    probes: [doomed.ready]
"#;
    let mut config = parse_config(yaml);
    config.auto_generate_ready_probes();
    config.topo_sort_probes();
    let mut state = test_app_state(config);

    // Set all services to Running with pending probes (simulates reprobe_all)
    {
        for i in 0..state.services.len() {
        let svc = state.services.value_mut(i);
            svc.state = ServiceState::Running;
            for j in 0..svc.probes.len() {
            let probe = svc.probes.value_mut(j);
                probe.state = ProbeState::Pending(PendingReason::Reprobing);
            }
        }
    }

    // All probes pass — build Ok results for all non-meta probes
    let batch: Vec<(ProbeRef, ProbeOutcome)> = vec![
        (
            ProbeRef::new("flaky-api", "dep"),
            ProbeOutcome::immediate(ProbeResult::Passed { duration_ms: 1 }),
        ),
        (
            ProbeRef::new("flaky-api", "http"),
            ProbeOutcome::immediate(ProbeResult::Passed { duration_ms: 1 }),
        ),
        (
            ProbeRef::new("doomed", "dep"),
            ProbeOutcome::immediate(ProbeResult::Passed { duration_ms: 1 }),
        ),
        (
            ProbeRef::new("doomed", "http"),
            ProbeOutcome::immediate(ProbeResult::Passed { duration_ms: 1 }),
        ),
    ];

    let mut probe_statuses = OrderedMap::new();
    resolve_probe_batch(&mut state, &batch, &mut probe_statuses);

    // Verify all probes are green (including cross-service meta dep chain)
    for i in 0..state.services.len() {
        let (svc_name, svc) = (state.services.name(i), state.services.value(i));
        for j in 0..svc.probes.len() {
            let (probe_name, probe) = (svc.probes.name(j), svc.probes.value(j));
            assert!(
                probe.state.is_green(),
                "{svc_name}.{probe_name} should be green but is {:?}",
                probe.state
            );
        }
    }
}

// ── Shared config for apply/meta/trace tests ──

fn two_svc_config() -> GantryConfig {
    let yaml = r#"
services:
  db:
    container: test-db
    probes:
      port:
        probe: { type: tcp, port: 5432, timeout: 5s }
      ready:
        probe: { type: log, success: "ready", timeout: 5s }
        depends_on: [db.port]
  app:
    container: test-app
    start_after: [db.ready]
    probes:
      http:
        probe: { type: tcp, port: 8080, timeout: 5s }
        depends_on: [db.ready]
targets:
  all:
    probes: [app.ready]
"#;
    let mut config = parse_config(yaml);
    config.auto_generate_ready_probes();
    config.topo_sort_probes();
    config
}

fn setup_running(state: &mut AppState) {
    for i in 0..state.services.len() {
        let svc = state.services.value_mut(i);
        svc.state = ServiceState::Running;
        for j in 0..svc.probes.len() {
            let probe = svc.probes.value_mut(j);
            probe.state = ProbeState::Green;
        }
    }
}

// ── apply_probe_result tests ──

#[test]
fn apply_probe_ok_all_deps_green() {
    let config = two_svc_config();
    let mut state = test_app_state(config);
    setup_running(&mut state);

    // Mark app.http pending, but db.ready is green
    {
        at_mut(&mut state.services, "app", "http").state = ProbeState::Pending(PendingReason::Reprobing);
    }

    let outcome = ProbeOutcome::immediate(ProbeResult::Passed { duration_ms: 5 });
    let mut statuses = OrderedMap::new();
    let pr = ProbeRef::new("app", "http");
    apply_probe_result(&mut state, &pr, &outcome, &mut statuses);
    assert!(at(&state.services, "app", "http").state.is_green());
}

#[test]
fn apply_probe_ok_dep_red() {
    let config = two_svc_config();
    let mut state = test_app_state(config);
    setup_running(&mut state);

    // db.ready is red, app.http probe passes
    {
        at_mut(&mut state.services, "db", "ready").state = ProbeState::Red(RedReason::ProbeFailed(
            ProbeFailure {
                error: "timeout".into(),
                duration_ms: 5000,
            },
        ));
        at_mut(&mut state.services, "app", "http").state = ProbeState::Pending(PendingReason::Reprobing);
    }

    let outcome = ProbeOutcome::immediate(ProbeResult::Passed { duration_ms: 5 });
    let mut statuses = OrderedMap::new();
    let pr = ProbeRef::new("app", "http");
    apply_probe_result(&mut state, &pr, &outcome, &mut statuses);

    // Probe passed but dep is red → stays Red(DepRed)
    assert!(
        at(&state.services, "app", "http").state.is_red(),
        "probe should be red when dep is red, got {:?}",
        at(&state.services, "app", "http").state
    );
}

#[test]
fn apply_probe_ok_dep_pending() {
    let config = two_svc_config();
    let mut state = test_app_state(config);
    setup_running(&mut state);

    // db.ready is pending, app.http probe passes
    {
        at_mut(&mut state.services, "db", "ready").state = ProbeState::Pending(PendingReason::Reprobing);
        at_mut(&mut state.services, "app", "http").state = ProbeState::Pending(PendingReason::Reprobing);
    }

    let outcome = ProbeOutcome::immediate(ProbeResult::Passed { duration_ms: 5 });
    let mut statuses = OrderedMap::new();
    let pr = ProbeRef::new("app", "http");
    apply_probe_result(&mut state, &pr, &outcome, &mut statuses);

    // Probe passed but dep is pending → stays Pending(DepNotReady)
    assert!(
        at(&state.services, "app", "http").state.is_pending(),
        "probe should be pending when dep is pending, got {:?}",
        at(&state.services, "app", "http").state
    );
}

#[test]
fn apply_probe_failed() {
    let config = two_svc_config();
    let mut state = test_app_state(config);
    setup_running(&mut state);

    let outcome = ProbeOutcome::immediate(ProbeResult::Failed {
        error: "connection refused".into(),
        duration_ms: 100,
    });
    let mut statuses = OrderedMap::new();
    let pr = ProbeRef::new("app", "http");
    apply_probe_result(&mut state, &pr, &outcome, &mut statuses);
    assert!(at(&state.services, "app", "http").state.is_red());
}

// ── update_meta_probes tests ──

#[test]
fn meta_probe_green_when_deps_green() {
    let config = two_svc_config();
    let mut state = test_app_state(config);
    setup_running(&mut state);

    // db.port and db.ready are green → db.ready (meta=auto-generated) should be green
    // app.http is green → app.ready should be green
    let mut statuses = OrderedMap::new();
    update_meta_probes(&mut state, "app", &mut statuses);
    assert!(at(&state.services, "app", "ready").state.is_green());
}

#[test]
fn meta_probe_red_when_dep_red() {
    let config = two_svc_config();
    let mut state = test_app_state(config);
    setup_running(&mut state);

    // Make app.http red
    {
        at_mut(&mut state.services, "app", "http").state = ProbeState::Red(RedReason::ProbeFailed(
            ProbeFailure {
                error: "fail".into(),
                duration_ms: 0,
            },
        ));
    }

    let mut statuses = OrderedMap::new();
    update_meta_probes(&mut state, "app", &mut statuses);
    assert!(
        !at(&state.services, "app", "ready").state.is_green(),
        "meta probe should not be green when dep is red"
    );
}

#[test]
fn meta_probe_pending_when_dep_pending() {
    let config = two_svc_config();
    let mut state = test_app_state(config);
    setup_running(&mut state);

    // Make app.http pending (not red) — meta probe should be Pending, not Red
    {
        at_mut(&mut state.services, "app", "http").state = ProbeState::Pending(PendingReason::Reprobing);
    }

    let mut statuses = OrderedMap::new();
    update_meta_probes(&mut state, "app", &mut statuses);
    assert!(
        at(&state.services, "app", "ready").state.is_pending(),
        "meta probe should be pending when dep is pending, got {:?}",
        at(&state.services, "app", "ready").state
    );
}

// ── mark_pending_and_propagate test ──

#[test]
fn mark_pending_propagates_downstream() {
    let config = two_svc_config();
    let mut state = test_app_state(config);
    setup_running(&mut state);

    // Mark db.ready pending: app.http (depends on db.ready) goes pending too
    let mut statuses = OrderedMap::new();
    let mut changes = Vec::new();
    let pr = ProbeRef::new("db", "ready");
    at_mut(&mut state.services, "db", "ready").state =
        ProbeState::Pending(PendingReason::Reprobing);
    changes.push((
        ProbeRef::new("db", "ready"),
        ProbeState::Pending(PendingReason::Reprobing),
        ProbeState::Green,
    ));
    state.graph.propagate_pending(&pr.to_string(), &mut state.services, &mut changes);
    emit_propagated_changes(&mut state.events, &state.services, &changes, &mut statuses);

    assert!(
        at(&state.services, "app", "http").state.is_pending(),
        "app.http should be pending after db.ready went pending, got {:?}",
        at(&state.services, "app", "http").state
    );
}

#[test]
fn meta_probe_waits_behind_a_green_probe_of_a_stopped_service() {
    let mut state = test_app_state(two_svc_config());
    setup_running(&mut state);
    set_service(&mut state, "app", ServiceState::Stopped);
    let mut statuses = OrderedMap::new();
    update_meta_probes(&mut state, "app", &mut statuses);
    assert!(at(&state.services, "app", "http").state.is_green());
    assert!(matches!(
        at(&state.services, "app", "ready").state,
        ProbeState::Pending(PendingReason::DepNotReady { .. })
    ));
    assert_eq!(statuses.get("app.ready").unwrap().state, "pending");
}

fn set_service(state: &mut AppState, name: &str, to: ServiceState) {
    let i = state.services.position(name).unwrap();
    state.services.value_mut(i).state = to;
}

/// Each service but the first depends on the `ready` probe of the one before.
#[test]
fn a_long_chain_of_meta_probes_settles() {
    let mut yaml = String::from("services:\n");
    for i in 0..7 {
        yaml += &format!("  s{i}:\n    container: s{i}\n    probes:\n");
        yaml += "      up:\n        probe: { type: tcp, port: 1 }\n";
        if i > 0 {
            yaml += &format!("        depends_on: [s{}.ready]\n", i - 1);
        }
        yaml += &format!("      ready:\n        probe: {{ type: meta }}\n        depends_on: [s{i}.up]\n");
    }
    let mut state = test_app_state(parse_config(&yaml));
    let mut batch = Vec::new();
    for i in 0..7 {
        let name = format!("s{i}");
        set_service(&mut state, &name, ServiceState::Running);
        for probe in ["up", "ready"] {
            at_mut(&mut state.services, &name, probe).state =
                ProbeState::Pending(PendingReason::Reprobing);
        }
        let passed = ProbeOutcome::immediate(ProbeResult::Passed { duration_ms: 1 });
        batch.push((ProbeRef::new(&name, "up"), passed));
    }
    let mut statuses = OrderedMap::new();
    resolve_probe_batch(&mut state, &batch, &mut statuses);
    for i in 0..7 {
        let name = format!("s{i}");
        assert!(at(&state.services, &name, "up").state.is_green(), "{name}.up");
        assert!(at(&state.services, &name, "ready").state.is_green(), "{name}.ready");
    }
}

/// `t` depends on `a` and `c`, and `a` depends on `c`, which has a red probe.
#[test]
fn a_target_tells_all_red_targets_it_depends_on() {
    let state = test_app_state(parse_config(
        r#"
services:
  db:
    container: db
    probes:
      port:
        probe: { type: tcp, port: 5432 }
targets:
  c:
    probes: [db.port]
  a:
    probes: []
    depends_on: [c]
  t:
    probes: []
    depends_on: [a, c]
"#,
    ));
    let t = state.targets.get("t").unwrap();
    match t.state(&state.services, &state.targets) {
        TargetState::Red { probes, dep_targets } => {
            assert!(probes.is_empty());
            assert_eq!(dep_targets, vec!["a".to_string(), "c".to_string()]);
        }
        _ => panic!("t is red"),
    }
}

/// A target that names another one twice tells it once.
#[test]
fn a_red_target_is_told_once() {
    let state = test_app_state(parse_config(
        r#"
services:
  db:
    container: db
    probes:
      port:
        probe: { type: tcp, port: 5432 }
targets:
  c:
    probes: [db.port]
  t:
    probes: []
    depends_on: [c, c]
"#,
    ));
    let t = state.targets.get("t").unwrap();
    match t.state(&state.services, &state.targets) {
        TargetState::Red { dep_targets, .. } => {
            assert_eq!(dep_targets, vec!["c".to_string()]);
        }
        _ => panic!("t is red"),
    }
}

/// The first of a chain fails. After the batch nothing is left to bring up to date.
#[test]
fn nothing_is_left_to_do_after_a_batch() {
    let mut yaml = String::from("services:\n");
    for i in 0..5 {
        yaml += &format!("  s{i}:\n    container: s{i}\n    probes:\n");
        yaml += "      up:\n        probe: { type: tcp, port: 1 }\n";
        if i > 0 {
            yaml += &format!("        depends_on: [s{}.ready]\n", i - 1);
        }
        yaml += &format!("      ready:\n        probe: {{ type: meta }}\n        depends_on: [s{i}.up]\n");
    }
    let mut state = test_app_state(parse_config(&yaml));
    let mut batch = Vec::new();
    for i in 0..5 {
        let name = format!("s{i}");
        set_service(&mut state, &name, ServiceState::Running);
        for probe in ["up", "ready"] {
            at_mut(&mut state.services, &name, probe).state =
                ProbeState::Pending(PendingReason::Reprobing);
        }
        let result = if i == 0 {
            ProbeResult::Failed { error: "refused".into(), duration_ms: 1 }
        } else {
            ProbeResult::Passed { duration_ms: 1 }
        };
        batch.push((ProbeRef::new(&name, "up"), ProbeOutcome::immediate(result)));
    }
    let mut statuses = OrderedMap::new();
    resolve_probe_batch(&mut state, &batch, &mut statuses);
    let told = state.events.len();
    for i in 0..5 {
        let name = format!("s{i}");
        assert!(at(&state.services, &name, "up").state.is_red(), "{name}.up");
        assert!(at(&state.services, &name, "ready").state.is_red(), "{name}.ready");
        update_meta_probes(&mut state, &name, &mut statuses);
    }
    assert_eq!(state.events.len(), told);
}
