use gantry::config::{
    DefaultsConfig, GantryConfig, ProbeConfig, ProbeEntry, ServiceConfig, TargetConfig,
};
use gantry::duration::{parse_duration, Duration};
use gantry::model::{PendingReason, ProbeRef, ProbeState, RedReason, ServiceState};
use gantry::ordered_map::OrderedMap;
use gantry::runtime::{
    probe_mut, ProbeDisplayState, ProbeRuntime, RuntimeState, ServiceRuntime, Services,
    SvcDisplayState, TargetState,
};
use serde_yaml::Value;

fn texts(v: &Value) -> Vec<String> {
    match v.as_sequence() {
        Some(list) => list.iter().map(|t| t.as_str().unwrap().to_string()).collect(),
        None => Vec::new(),
    }
}

fn seconds(v: &Value, default: u64) -> Duration {
    match v.as_str() {
        Some(s) => parse_duration(s).unwrap(),
        None => Duration::from_secs(default),
    }
}

fn parse_probe(v: &Value) -> ProbeConfig {
    match v["type"].as_str().unwrap() {
        "tcp" => ProbeConfig::Tcp {
            host: v["host"].as_str().map(|s| s.to_string()),
            port: v["port"].as_u64().unwrap() as u16,
            timeout: seconds(&v["timeout"], 10),
        },
        "log" => ProbeConfig::Log {
            success: v["success"].as_str().unwrap().to_string(),
            failure: v["failure"].as_str().map(|s| s.to_string()),
            timeout: seconds(&v["timeout"], 30),
        },
        _ => ProbeConfig::Meta,
    }
}

fn parse_config(yaml: &str) -> GantryConfig {
    let v: Value = serde_yaml::from_str(yaml).unwrap();
    let mut services = OrderedMap::new();
    for (name, s) in v["services"].as_mapping().unwrap() {
        let mut probes = OrderedMap::new();
        if let Some(list) = s["probes"].as_mapping() {
            for (probe, e) in list {
                probes.insert(
                    probe.as_str().unwrap().to_string(),
                    ProbeEntry {
                        probe: parse_probe(&e["probe"]),
                        depends_on: texts(&e["depends_on"]),
                    },
                );
            }
        }
        services.insert(
            name.as_str().unwrap().to_string(),
            ServiceConfig {
                container: s["container"].as_str().unwrap().to_string(),
                start_after: texts(&s["start_after"]),
                probes,
                restart_on_fail: s["restart_on_fail"].as_bool(),
            },
        );
    }
    let mut targets = OrderedMap::new();
    if let Some(list) = v["targets"].as_mapping() {
        for (name, t) in list {
            targets.insert(
                name.as_str().unwrap().to_string(),
                TargetConfig { probes: texts(&t["probes"]), depends_on: texts(&t["depends_on"]) },
            );
        }
    }
    GantryConfig { services, targets, defaults: DefaultsConfig::default() }
}

fn at_mut<'a>(services: &'a mut Services, svc: &str, probe: &str) -> &'a mut ProbeRuntime {
    probe_mut(services, &ProbeRef::new(svc, probe))
}

fn svc_mut<'a>(services: &'a mut Services, svc: &str) -> &'a mut ServiceRuntime {
    let i = services.position(svc).unwrap();
    services.value_mut(i)
}


#[test]
fn probe_ref_parse() {
    let pr = ProbeRef::parse("db.port").unwrap();
    assert_eq!(pr.service, "db");
    assert_eq!(pr.probe, "port");
    assert_eq!(pr.to_string(), "db.port");
}

#[test]
fn probe_ref_parse_invalid() {
    assert!(ProbeRef::parse("noperiod").is_none());
}

// ── ProbeDisplayState tests ──

fn make_probe(state: ProbeState) -> ProbeRuntime {
    ProbeRuntime {
        probe_ref: ProbeRef::new("test", "probe"),
        state,
        prev_color: None,
        probe_config: ProbeConfig::Meta,
        depends_on: vec![],
        last_probe_ms: None,
        last_error: None,
        last_log_match: None,
    }
}

#[test]
fn probe_display_stopped_service() {
    let probe = make_probe(ProbeState::Green);
    assert!(matches!(
        ProbeDisplayState::from_probe(&probe, ServiceState::Stopped),
        ProbeDisplayState::Stopped
    ));
}

#[test]
fn probe_display_running_green() {
    let probe = make_probe(ProbeState::Green);
    assert!(matches!(
        ProbeDisplayState::from_probe(&probe, ServiceState::Running),
        ProbeDisplayState::Green
    ));
}

#[test]
fn probe_display_running_red() {
    let probe = make_probe(ProbeState::Red(RedReason::Stopped));
    assert!(matches!(
        ProbeDisplayState::from_probe(&probe, ServiceState::Running),
        ProbeDisplayState::Red
    ));
}

#[test]
fn probe_display_running_probing() {
    let probe = make_probe(ProbeState::Pending(PendingReason::Reprobing));
    assert!(matches!(
        ProbeDisplayState::from_probe(&probe, ServiceState::Running),
        ProbeDisplayState::Probing
    ));
}

#[test]
fn probe_display_running_pending() {
    let probe = make_probe(ProbeState::Pending(PendingReason::Unchecked));
    assert!(matches!(
        ProbeDisplayState::from_probe(&probe, ServiceState::Running),
        ProbeDisplayState::Pending
    ));
}

#[test]
fn probe_display_crashed_forces_red() {
    // Even if probe is internally Green, crashed service forces Red display
    let probe = make_probe(ProbeState::Green);
    assert!(matches!(
        ProbeDisplayState::from_probe(&probe, ServiceState::Crashed),
        ProbeDisplayState::Red
    ));
}

#[test]
fn probe_display_crashed_with_pending_probe() {
    let probe = make_probe(ProbeState::Pending(PendingReason::Reprobing));
    assert!(matches!(
        ProbeDisplayState::from_probe(&probe, ServiceState::Crashed),
        ProbeDisplayState::Red
    ));
}

// ── SvcDisplayState tests ──

fn make_svc(state: ServiceState, probe_states: &[ProbeState]) -> ServiceRuntime {
    let mut probes = OrderedMap::new();
    for (i, ps) in probe_states.iter().enumerate() {
        probes.insert(
            format!("probe{i}"),
            ProbeRuntime {
                probe_ref: ProbeRef::new("test", &format!("probe{i}")),
                state: ps.clone(),
                prev_color: None,
                probe_config: ProbeConfig::Meta,
                depends_on: vec![],
                last_probe_ms: None,
                last_error: None,
                last_log_match: None,
            },
        );
    }
    ServiceRuntime {
        name: "test".into(),
        container: "test-1".into(),
        state,
        probes,
        start_after: vec![],
        restart_on_fail: true,
        generation: 0,
        log_since: 0,
        last_emitted_display: None,
        last_emitted_runtime: None,
    }
}

#[test]
fn svc_display_stopped_inactive() {
    // Stopped service not reachable from active targets → gray/stopped
    let svc = make_svc(
        ServiceState::Stopped,
        &[ProbeState::Red(RedReason::Stopped)],
    );
    assert!(matches!(
        SvcDisplayState::from_service_active(&svc, false),
        SvcDisplayState::Stopped
    ));
}

#[test]
fn svc_display_stopped_active() {
    // Stopped service reachable from active targets → red (blocker)
    let svc = make_svc(
        ServiceState::Stopped,
        &[ProbeState::Red(RedReason::Stopped)],
    );
    assert!(matches!(
        SvcDisplayState::from_service_active(&svc, true),
        SvcDisplayState::Red
    ));
}

#[test]
fn svc_display_crashed() {
    let svc = make_svc(ServiceState::Crashed, &[ProbeState::Green]);
    assert!(matches!(
        SvcDisplayState::from_service(&svc),
        SvcDisplayState::Red
    ));
}

#[test]
fn svc_display_all_green() {
    let svc = make_svc(
        ServiceState::Running,
        &[ProbeState::Green, ProbeState::Green],
    );
    assert!(matches!(
        SvcDisplayState::from_service(&svc),
        SvcDisplayState::Green
    ));
}

#[test]
fn svc_display_any_red() {
    let svc = make_svc(
        ServiceState::Running,
        &[ProbeState::Green, ProbeState::Red(RedReason::Stopped)],
    );
    assert!(matches!(
        SvcDisplayState::from_service(&svc),
        SvcDisplayState::Red
    ));
}

#[test]
fn svc_display_pending_and_red_shows_red() {
    // With pending+red probes, service shows red (not green)
    let svc = make_svc(
        ServiceState::Running,
        &[
            ProbeState::Pending(PendingReason::Reprobing),
            ProbeState::Red(RedReason::Stopped),
        ],
    );
    assert!(matches!(
        SvcDisplayState::from_service(&svc),
        SvcDisplayState::Red
    ));
}

#[test]
fn svc_display_pending_only_shows_red() {
    // Pending probes mean service is not green → red
    let svc = make_svc(
        ServiceState::Running,
        &[
            ProbeState::Green,
            ProbeState::Pending(PendingReason::Reprobing),
        ],
    );
    assert!(matches!(
        SvcDisplayState::from_service(&svc),
        SvcDisplayState::Red
    ));
}

// ── TargetRuntime::state tests ──

#[test]
fn target_state_all_green() {
    let yaml = r#"
services:
  db:
    container: db-1
    probes:
      port:
        probe: { type: tcp, port: 5432, timeout: 10s }
targets:
  t:
    probes: [db.port]
"#;
    let config = parse_config(yaml);
    let mut state = RuntimeState::from_config(&config);
    for i in 0..state.targets.len() {
        let tgt = state.targets.value_mut(i);
        tgt.activated = true;
    }
    let db = svc_mut(&mut state.services, "db");
    db.state = ServiceState::Running;
    for j in 0..db.probes.len() {
        db.probes.value_mut(j).state = ProbeState::Green;
    }
    assert!(
        state.targets
            .get("t")
            .unwrap()
            .state(&state.services, &state.targets)
            .is_green()
    );
}

#[test]
fn target_state_stopped_service_is_red() {
    let yaml = r#"
services:
  db:
    container: db-1
    probes:
      port:
        probe: { type: tcp, port: 5432, timeout: 10s }
targets:
  t:
    probes: [db.port]
"#;
    let config = parse_config(yaml);
    let mut state = RuntimeState::from_config(&config);
    for i in 0..state.targets.len() {
        let tgt = state.targets.value_mut(i);
        tgt.activated = true;
    }
    // db is Stopped by default, target activated → Red
    assert!(matches!(
        state.targets.get("t").unwrap().state(&state.services, &state.targets),
        TargetState::Red { .. }
    ));
}

#[test]
fn target_state_pending_probe_is_red() {
    let yaml = r#"
services:
  db:
    container: db-1
    probes:
      port:
        probe: { type: tcp, port: 5432, timeout: 10s }
targets:
  t:
    probes: [db.port]
"#;
    let config = parse_config(yaml);
    let mut state = RuntimeState::from_config(&config);
    for i in 0..state.targets.len() {
        let tgt = state.targets.value_mut(i);
        tgt.activated = true;
    }
    svc_mut(&mut state.services, "db").state = ServiceState::Running;
    at_mut(&mut state.services, "db", "port").state = ProbeState::Pending(PendingReason::Reprobing);
    assert!(matches!(
        state.targets.get("t").unwrap().state(&state.services, &state.targets),
        TargetState::Red { .. }
    ));
}

#[test]
fn target_state_crashed_service_is_red() {
    let yaml = r#"
services:
  db:
    container: db-1
    probes:
      port:
        probe: { type: tcp, port: 5432, timeout: 10s }
targets:
  t:
    probes: [db.port]
"#;
    let config = parse_config(yaml);
    let mut state = RuntimeState::from_config(&config);
    for i in 0..state.targets.len() {
        let tgt = state.targets.value_mut(i);
        tgt.activated = true;
    }
    svc_mut(&mut state.services, "db").state = ServiceState::Crashed;
    assert!(matches!(
        state.targets.get("t").unwrap().state(&state.services, &state.targets),
        TargetState::Red { .. }
    ));
}

#[test]
fn target_state_inactive_before_activation() {
    let yaml = r#"
services:
  db:
    container: db-1
    probes:
      port:
        probe: { type: tcp, port: 5432, timeout: 10s }
targets:
  t:
    probes: [db.port]
"#;
    let config = parse_config(yaml);
    let state = RuntimeState::from_config(&config);
    // Target not activated → Inactive (not Red)
    assert!(matches!(
        state.targets.get("t").unwrap().state(&state.services, &state.targets),
        TargetState::Inactive
    ));
}
