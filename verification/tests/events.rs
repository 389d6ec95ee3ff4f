use gantry::events::Event;
use gantry::model::{PendingReason, ProbeFailure, ProbeRef, ProbeState, RedReason, ServiceState};
use gantry::runtime::TargetState;


#[test]
fn event_categories() {
    let svc = Event::service_state("db", ServiceState::Running, "green", None, None);
    assert_eq!(svc.to_ws_event().category, "service");

    let probe = Event::probe_state_change(
        &ProbeRef::new("db", "port"),
        ProbeState::Green,
        ProbeState::Red(RedReason::Stopped),
        "green",
    );
    assert_eq!(probe.to_ws_event().category, "probe_state");

    let result = Event::probe_result(&ProbeRef::new("db", "port"), true, Some(10), 1, None, 0);
    assert_eq!(result.to_ws_event().category, "probe");

    let target = Event::target_state("full", TargetState::Green, None, None, vec![]);
    assert_eq!(target.to_ws_event().category, "target");

    let op = Event::op_start("converge", "full");
    assert_eq!(op.to_ws_event().category, "op");
}

#[test]
fn event_levels() {
    // Probe results are debug
    let result = Event::probe_result(&ProbeRef::new("db", "port"), true, Some(10), 1, None, 0);
    assert_eq!(result.to_ws_event().level, "debug");

    // Reprobing is info (visible to UI for pulsing state)
    let reprobing = Event::probe_state_change(
        &ProbeRef::new("db", "port"),
        ProbeState::Pending(PendingReason::Reprobing),
        ProbeState::Green,
        "probing",
    );
    assert_eq!(reprobing.to_ws_event().level, "info");

    // Other pending states are debug
    let dep_recovered = Event::probe_state_change(
        &ProbeRef::new("db", "port"),
        ProbeState::Pending(PendingReason::DepRecovered {
            dep: ProbeRef::new("redis", "port"),
        }),
        ProbeState::Red(RedReason::Stopped),
        "pending",
    );
    assert_eq!(dep_recovered.to_ws_event().level, "debug");

    // Green/red probe state is info
    let green = Event::probe_state_change(
        &ProbeRef::new("db", "port"),
        ProbeState::Green,
        ProbeState::Pending(PendingReason::Reprobing),
        "green",
    );
    assert_eq!(green.to_ws_event().level, "info");

    // Service state is info
    let svc = Event::service_state("db", ServiceState::Running, "green", None, None);
    assert_eq!(svc.to_ws_event().level, "info");
}

#[test]
fn ws_event_data_fields() {
    let probe = Event::probe_state_change(
        &ProbeRef::new("db", "port"),
        ProbeState::Green,
        ProbeState::Red(RedReason::Stopped),
        "green",
    );
    let ws = probe.to_ws_event();
    assert_eq!(ws.entity, "db.port");
    assert_eq!(ws.data.member_text("probe", ""), "db.port");
    assert_eq!(ws.data.member_text("state", ""), "green");
    assert_eq!(ws.data.member_text("prev", ""), "red");
}

// ── Summary format tests ──

#[test]
fn summary_svc_green() {
    let e = Event::service_state("db", ServiceState::Running, "green", None, None);
    assert_eq!(e.to_ws_event().summary, "[db] green");
}

#[test]
fn summary_svc_red_with_reason() {
    let e = Event::service_state(
        "db",
        ServiceState::Stopped,
        "red",
        Some("stopped".into()),
        None,
    );
    assert_eq!(e.to_ws_event().summary, "[db] red: stopped");
}

#[test]
fn summary_svc_stopped() {
    let e = Event::service_state("db", ServiceState::Stopped, "stopped", None, None);
    assert_eq!(e.to_ws_event().summary, "[db] stopped");
}

#[test]
fn summary_probe_green() {
    let e = Event::probe_state_change(
        &ProbeRef::new("db", "port"),
        ProbeState::Green,
        ProbeState::Pending(PendingReason::Reprobing),
        "green",
    );
    assert_eq!(e.to_ws_event().summary, "[db.port] green");
}

#[test]
fn summary_probe_red_failed() {
    let e = Event::probe_state_change(
        &ProbeRef::new("db", "port"),
        ProbeState::Red(RedReason::ProbeFailed(
            ProbeFailure {
                error: "conn refused".into(),
                duration_ms: 120,
            },
        )),
        ProbeState::Green,
        "red",
    );
    let ws = e.to_ws_event();
    assert_eq!(ws.summary, "[db.port] red: probe failed");
    assert_eq!(ws.detail, vec!["conn refused (120ms)"]);
}

#[test]
fn summary_probe_pending() {
    let e = Event::probe_state_change(
        &ProbeRef::new("db", "port"),
        ProbeState::Pending(PendingReason::Reprobing),
        ProbeState::Green,
        "probing",
    );
    assert_eq!(e.to_ws_event().summary, "[db.port] probing: reprobing");
}

#[test]
fn summary_target_green() {
    let e = Event::target_state("app", TargetState::Green, None, None, vec![]);
    assert_eq!(e.to_ws_event().summary, "[app] green");
}

#[test]
fn summary_target_red_probe_failed() {
    let e = Event::target_state(
        "app",
        TargetState::Red {
            probes: vec![ProbeRef::new("db", "port")],
            dep_targets: vec![],
        },
        None,
        Some("probe db.port failed".into()),
        vec![],
    );
    let ws = e.to_ws_event();
    assert_eq!(ws.summary, "[app] red: probe db.port failed");
    assert!(ws.detail.is_empty());
}

#[test]
fn summary_target_red_service_stopped() {
    let e = Event::target_state(
        "app",
        TargetState::Red {
            probes: vec![ProbeRef::new("db", "port")],
            dep_targets: vec![],
        },
        None,
        Some("service db stopped".into()),
        vec![],
    );
    let ws = e.to_ws_event();
    assert_eq!(ws.summary, "[app] red: service db stopped");
    assert!(ws.detail.is_empty());
}

#[test]
fn summary_target_multiple_reasons() {
    let e = Event::target_state(
        "app",
        TargetState::Red {
            probes: vec![ProbeRef::new("db", "port"), ProbeRef::new("cache", "port")],
            dep_targets: vec![],
        },
        None,
        Some("service db stopped (+1 more)".into()),
        vec!["service db stopped".into(), "service cache stopped".into()],
    );
    let ws = e.to_ws_event();
    assert_eq!(ws.summary, "[app] red: service db stopped (+1 more)");
    assert_eq!(
        ws.detail,
        vec!["service db stopped", "service cache stopped"]
    );
}

#[test]
fn summary_target_inactive() {
    let e = Event::target_state("app", TargetState::Inactive, None, None, vec![]);
    assert_eq!(e.to_ws_event().summary, "[app] inactive");
}

#[test]
fn summary_op_start() {
    let e = Event::op_start("converge", "app");
    assert_eq!(e.to_ws_event().summary, "converge [app]");
}

#[test]
fn summary_op_restart() {
    let e = Event::op_start("restart", "db");
    assert_eq!(e.to_ws_event().summary, "restart [db]");
    assert_eq!(e.to_ws_event().category, "op");
}

#[test]
fn summary_probe_result() {
    let e = Event::probe_result(&ProbeRef::new("db", "port"), true, Some(5), 1, None, 0);
    assert_eq!(e.to_ws_event().summary, "[db.port] ok: #1 5ms");
}

// ── Detail tests ──

#[test]
fn detail_probe_green_empty() {
    // Green probe detail is empty (for now)
    let e = Event::probe_state_change(
        &ProbeRef::new("db", "port"),
        ProbeState::Green,
        ProbeState::Red(RedReason::Stopped),
        "green",
    );
    assert!(e.to_ws_event().detail.is_empty());
}

#[test]
fn detail_probe_red_dep() {
    // Red(DepRed) detail has the dep entity name
    let e = Event::probe_state_change(
        &ProbeRef::new("db", "ready"),
        ProbeState::Red(RedReason::DepRed {
            dep: ProbeRef::new("db", "port"),
        }),
        ProbeState::Green,
        "red",
    );
    assert_eq!(e.to_ws_event().detail, vec!["db.port"]);
}

#[test]
fn detail_svc_empty() {
    // Service events have no detail (reason is in summary)
    let e = Event::service_state(
        "db",
        ServiceState::Stopped,
        "red",
        Some("stopped".into()),
        None,
    );
    assert!(e.to_ws_event().detail.is_empty());
}
