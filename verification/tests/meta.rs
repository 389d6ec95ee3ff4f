use gantry::config::ProbeConfig;
use gantry::model::{PendingReason, ProbeRef, ProbeState, RedReason, ServiceState};
use gantry::ordered_map::OrderedMap;
use gantry::probe_meta::is_satisfied;
use gantry::runtime::{ProbeRuntime, ServiceRuntime};

fn make_probe(name: &str, svc: &str, state: ProbeState, deps: Vec<ProbeRef>) -> ProbeRuntime {
    ProbeRuntime {
        probe_ref: ProbeRef::new(svc, name),
        state,
        prev_color: None,
        probe_config: ProbeConfig::Meta,
        depends_on: deps,
        last_probe_ms: None,
        last_error: None,
        last_log_match: None,
    }
}

fn make_svc(name: &str, state: ServiceState, probes: Vec<ProbeRuntime>) -> ServiceRuntime {
    let mut probe_map = OrderedMap::new();
    for p in probes {
        probe_map.insert(p.probe_ref.probe.clone(), p);
    }
    ServiceRuntime {
        name: name.into(),
        container: format!("{name}-1"),
        state,
        probes: probe_map,
        start_after: Vec::new(),
        restart_on_fail: true,
        generation: 0,
        log_since: 0,
        last_emitted_display: None,
        last_emitted_runtime: None,
    }
}

#[test]
fn meta_satisfied_all_deps_green() {
    let svc = make_svc(
        "svc",
        ServiceState::Running,
        vec![
            make_probe("port", "svc", ProbeState::Green, vec![]),
            make_probe(
                "http",
                "svc",
                ProbeState::Green,
                vec![ProbeRef::new("svc", "port")],
            ),
            make_probe(
                "ready",
                "svc",
                ProbeState::Red(RedReason::Stopped),
                vec![ProbeRef::new("svc", "port"), ProbeRef::new("svc", "http")],
            ),
        ],
    );
    let mut services = OrderedMap::new();
    services.insert("svc".into(), svc);
    assert!(is_satisfied(&ProbeRef::new("svc", "ready"), &services));
}

#[test]
fn meta_not_satisfied_dep_red() {
    let svc = make_svc(
        "svc",
        ServiceState::Running,
        vec![
            make_probe(
                "port",
                "svc",
                ProbeState::Red(RedReason::Stopped),
                vec![],
            ),
            make_probe(
                "ready",
                "svc",
                ProbeState::Red(RedReason::Stopped),
                vec![ProbeRef::new("svc", "port")],
            ),
        ],
    );
    let mut services = OrderedMap::new();
    services.insert("svc".into(), svc);
    assert!(!is_satisfied(&ProbeRef::new("svc", "ready"), &services));
}

#[test]
fn meta_not_satisfied_dep_stale() {
    let svc = make_svc(
        "svc",
        ServiceState::Running,
        vec![
            make_probe(
                "port",
                "svc",
                ProbeState::Pending(PendingReason::Reprobing),
                vec![],
            ),
            make_probe(
                "ready",
                "svc",
                ProbeState::Red(RedReason::Stopped),
                vec![ProbeRef::new("svc", "port")],
            ),
        ],
    );
    let mut services = OrderedMap::new();
    services.insert("svc".into(), svc);
    assert!(!is_satisfied(&ProbeRef::new("svc", "ready"), &services));
}

#[test]
fn meta_not_satisfied_service_stopped() {
    let svc = make_svc(
        "svc",
        ServiceState::Stopped,
        vec![
            make_probe("port", "svc", ProbeState::Green, vec![]),
            make_probe(
                "ready",
                "svc",
                ProbeState::Red(RedReason::Stopped),
                vec![ProbeRef::new("svc", "port")],
            ),
        ],
    );
    let mut services = OrderedMap::new();
    services.insert("svc".into(), svc);
    assert!(!is_satisfied(&ProbeRef::new("svc", "ready"), &services));
}

#[test]
fn meta_cross_service_dep() {
    let db = make_svc(
        "db",
        ServiceState::Running,
        vec![make_probe("port", "db", ProbeState::Green, vec![])],
    );
    let app = make_svc(
        "app",
        ServiceState::Running,
        vec![
            make_probe(
                "http",
                "app",
                ProbeState::Green,
                vec![ProbeRef::new("db", "port")],
            ),
            make_probe(
                "ready",
                "app",
                ProbeState::Red(RedReason::Stopped),
                vec![ProbeRef::new("app", "http")],
            ),
        ],
    );
    let mut services = OrderedMap::new();
    services.insert("db".into(), db);
    services.insert("app".into(), app);
    assert!(is_satisfied(&ProbeRef::new("app", "ready"), &services));
}
