use gantry::app_state::AppState;
use gantry::apply::apply_probe_result;
use gantry::config::{
    DefaultsConfig, GantryConfig, ProbeConfig, ProbeEntry, ServiceConfig, TargetConfig,
};
use gantry::docker::{container_info, inspect_container, log_since, service_state};
use gantry::duration::Duration;
use gantry::lifecycle::{find_service, handle_engine_event, stop};
use gantry::model::{ProbeRef, ServiceState};
use gantry::ops::OpResponse;
use gantry::ordered_map::OrderedMap;
use gantry::probe::{ProbeOutcome, ProbeResult};
use gantry::reprobe::{
    reprobe_all, reprobe_done, reprobe_service, reprobe_target, ServiceReprobe,
};
use gantry::resolve::{probe_and_resolve, resolve_outcome, resolve_rest};
use gantry::routes::err_response;
use gantry::start::{restart, start, start_checks, start_done, Starting};
use gantry::startup::{assemble, begin, note_container, reload};

fn tcp(port: u16, depends_on: &[&str]) -> ProbeEntry {
    ProbeEntry {
        probe: ProbeConfig::Tcp { host: None, port, timeout: Duration::from_secs(5) },
        depends_on: depends_on.iter().map(|s| s.to_string()).collect(),
    }
}

fn service(container: &str, start_after: &[&str], probes: Vec<(&str, ProbeEntry)>) -> ServiceConfig {
    let mut table = OrderedMap::new();
    for (name, p) in probes {
        table.insert(name.to_string(), p);
    }
    ServiceConfig {
        container: container.to_string(),
        start_after: start_after.iter().map(|s| s.to_string()).collect(),
        probes: table,
        restart_on_fail: None,
    }
}

/// `app` starts after `db.ready`, and `app.http` depends on `db.ready`.
fn config() -> GantryConfig {
    let mut services = OrderedMap::new();
    services.insert("db".to_string(), service("c-db", &[], vec![("port", tcp(5432, &[]))]));
    services.insert(
        "app".to_string(),
        service("c-app", &["db.ready"], vec![("http", tcp(8080, &["db.ready"]))]),
    );
    let mut targets = OrderedMap::new();
    targets.insert(
        "all".to_string(),
        TargetConfig { probes: vec!["app.ready".to_string()], depends_on: vec![] },
    );
    let mut c = GantryConfig { services, targets, defaults: DefaultsConfig::default() };
    c.auto_generate_ready_probes();
    c.topo_sort_probes();
    c
}

fn state() -> AppState {
    assemble(config()).unwrap()
}

fn color(s: &AppState, svc: &str, probe: &str) -> &'static str {
    s.services.get(svc).unwrap().probes.get(probe).unwrap().state.as_str()
}

fn reason(s: &AppState, svc: &str, probe: &str) -> String {
    s.services.get(svc).unwrap().probes.get(probe).unwrap().state.reason().unwrap_or_default()
}

fn generation(s: &AppState, svc: &str) -> u64 {
    s.services.get(svc).unwrap().generation
}

fn passed(s: &AppState, svc: &str, probe: &str) -> (ProbeRef, ProbeOutcome) {
    let r = ProbeResult::Passed { duration_ms: 7 };
    (
        ProbeRef::new(svc, probe),
        ProbeOutcome::immediate(r).with_generation(generation(s, svc)),
    )
}

fn failed(s: &AppState, svc: &str, probe: &str) -> (ProbeRef, ProbeOutcome) {
    let r = ProbeResult::Failed { error: "refused".to_string(), duration_ms: 9 };
    (
        ProbeRef::new(svc, probe),
        ProbeOutcome::immediate(r).with_generation(generation(s, svc)),
    )
}

/// Starts a service and has its one checked probe pass.
fn up(s: &mut AppState, svc: &str, probe: &str) -> OpResponse {
    assert!(matches!(start(s, svc, true), Ok(Starting::Start { .. })));
    let pending = start_checks(s, svc, 11);
    assert_eq!(pending.len(), 1);
    let outcomes = vec![passed(s, svc, probe)];
    start_done(s, svc, &outcomes)
}

#[test]
fn a_service_starts_only_after_what_it_waits_for() {
    let mut s = state();
    let Err(e) = start(&mut s, "app", true) else { panic!("app must wait for db") };
    assert_eq!(
        e.to_string(),
        "operation error: start_after not satisfied: db.ready: red (check db). \
         Use converge to resolve all dependencies"
    );
    let Err(e) = start(&mut s, "none", true) else { panic!("there is no such service") };
    assert_eq!(e.to_string(), "not found: service 'none' not found");
    // without the check it may start
    match start(&mut s, "app", false) {
        Ok(Starting::Start { container }) => assert_eq!(container, "c-app"),
        _ => panic!("app may start"),
    }
    let r = up(&mut s, "db", "port");
    assert_eq!(r.result, "ok");
    assert_eq!(r.actions.started, vec!["db".to_string()]);
    assert!(matches!(start(&mut s, "app", true), Ok(Starting::Start { .. })));
    match start(&mut s, "db", true) {
        Ok(Starting::Running(r)) => assert!(r.actions.started.is_empty() && r.result == "ok"),
        _ => panic!("db runs"),
    }
}

#[test]
fn a_pending_probe_is_to_be_checked_again() {
    let mut s = state();
    start_checks(&mut s, "db", 0);
    let Err(e) = start(&mut s, "app", true) else { panic!("db is not green yet") };
    assert!(e.to_string().contains("db.ready: pending (reprobe db)"), "{}", e.to_string());
}

#[test]
fn starting_marks_all_probes_for_a_check() {
    let mut s = state();
    let pending = start_checks(&mut s, "db", 42);
    assert_eq!(pending.len(), 1);
    assert_eq!(pending[0].probe_ref.to_string(), "db.port");
    assert_eq!(pending[0].container, "c-db");
    assert_eq!(pending[0].log_since, 42);
    assert_eq!(pending[0].generation, 1);
    assert_eq!(color(&s, "db", "port"), "pending");
    assert_eq!(color(&s, "db", "ready"), "pending");
    let outcomes = vec![passed(&s, "db", "port")];
    let r = start_done(&mut s, "db", &outcomes);
    assert_eq!(color(&s, "db", "port"), "green");
    assert_eq!(color(&s, "db", "ready"), "green");
    let st = r.probes.get("db.port").unwrap();
    assert_eq!((st.state.as_str(), st.prev.as_str(), st.probe_ms), ("green", "pending", Some(7)));
}

#[test]
fn stopping_makes_all_probes_and_their_dependents_red() {
    let mut s = state();
    up(&mut s, "db", "port");
    up(&mut s, "app", "http");
    assert_eq!(color(&s, "app", "ready"), "green");
    let before = generation(&s, "db");
    let r = stop(&mut s, "db").ok().unwrap();
    assert_eq!(r.container, Some("c-db".to_string()));
    assert_eq!(r.response.actions.stopped, vec!["db".to_string()]);
    assert_eq!(generation(&s, "db"), before + 1);
    assert_eq!(color(&s, "db", "port"), "red");
    assert_eq!(color(&s, "db", "ready"), "red");
    assert_eq!(reason(&s, "app", "http"), "dep red: db.ready");
    assert_eq!(color(&s, "app", "ready"), "red");
    // a second stop does nothing
    let r = stop(&mut s, "db").ok().unwrap();
    assert_eq!(r.container, None);
    assert!(r.response.actions.stopped.is_empty());
    assert_eq!(generation(&s, "db"), before + 1);
    let Err(e) = stop(&mut s, "none") else { panic!("there is no such service") };
    assert_eq!(e.to_string(), "not found: service 'none' not found");
}

#[test]
fn an_outcome_from_before_a_stop_is_dropped() {
    let mut s = state();
    up(&mut s, "db", "port");
    let (r, old) = passed(&s, "db", "port");
    assert!(stop(&mut s, "db").is_ok());
    let mut statuses = OrderedMap::new();
    apply_probe_result(&mut s, &r, &old, &mut statuses);
    assert_eq!(color(&s, "db", "port"), "red");
    assert_eq!(statuses.len(), 0);
}

#[test]
fn a_restart_is_told_as_such() {
    let mut s = state();
    up(&mut s, "db", "port");
    assert!(stop(&mut s, "db").is_ok());
    let r = restart(up(&mut s, "db", "port"), "db");
    assert!(r.actions.started.is_empty());
    assert_eq!(r.actions.restarted, vec!["db".to_string()]);
}

#[test]
fn a_container_that_dies_takes_its_dependents_along() {
    let mut s = state();
    up(&mut s, "db", "port");
    up(&mut s, "app", "http");
    s.take_events();
    handle_engine_event(&mut s, Some("die"), Some("c-db"));
    assert_eq!(s.services.get("db").unwrap().state, ServiceState::Crashed);
    assert_eq!(reason(&s, "db", "port"), "container died");
    assert_eq!(color(&s, "app", "http"), "red");
    assert!(!s.take_events().is_empty());
    // a crashed service has no container left to stop
    let r = stop(&mut s, "db").ok().unwrap();
    assert_eq!(r.container, None);
    assert_eq!(r.response.actions.stopped, vec!["db".to_string()]);
    // what gantry stopped has not died
    handle_engine_event(&mut s, Some("die"), Some("c-db"));
    assert_eq!(s.services.get("db").unwrap().state, ServiceState::Stopped);
}

#[test]
fn a_container_that_starts_is_pending() {
    let mut s = state();
    handle_engine_event(&mut s, Some("start"), Some("c-db"));
    assert_eq!(s.services.get("db").unwrap().state, ServiceState::Running);
    assert_eq!(generation(&s, "db"), 1);
    assert_eq!(color(&s, "db", "port"), "pending");
    handle_engine_event(&mut s, Some("start"), Some("c-db"));
    assert_eq!(generation(&s, "db"), 1);
}

#[test]
fn other_engine_events_are_passed_over() {
    let mut s = state();
    for (action, container) in [
        (None, Some("c-db")),
        (Some("start"), None),
        (Some("start"), Some("other")),
        (Some("pause"), Some("c-db")),
    ] {
        handle_engine_event(&mut s, action, container);
    }
    assert_eq!(s.services.get("db").unwrap().state, ServiceState::Stopped);
    assert!(s.take_events().is_empty());
    assert_eq!(find_service(&s.services, "c-app"), Some("app".to_string()));
    assert_eq!(find_service(&s.services, "app"), None);
}

#[test]
fn a_service_that_does_not_run_is_not_checked_again() {
    let mut s = state();
    match reprobe_service(&mut s, "db").ok().unwrap() {
        ServiceReprobe::Refused(r) => {
            assert_eq!(r.result, "failed");
            assert_eq!(
                r.error,
                Some("service 'db' is stopped \u{2014} start it first".to_string())
            );
            assert!(r.not_green.is_empty());
        }
        ServiceReprobe::Check(_) => panic!("db is stopped"),
    }
    let Err(e) = reprobe_service(&mut s, "none") else { panic!("there is no such service") };
    assert_eq!(e.to_string(), "not found: service 'none' not found");
    let Err(e) = reprobe_target(&mut s, "none") else { panic!("there is no such target") };
    assert_eq!(e.to_string(), "not found: target 'none' not found");
}

#[test]
fn a_check_again_reaches_the_dependents() {
    let mut s = state();
    up(&mut s, "db", "port");
    up(&mut s, "app", "http");
    let ServiceReprobe::Check(mut again) = reprobe_service(&mut s, "db").ok().unwrap() else {
        panic!("db runs")
    };
    let refs: Vec<String> = again.pending.iter().map(|p| p.probe_ref.to_string()).collect();
    assert_eq!(refs, vec!["db.port".to_string(), "app.http".to_string()]);
    // the outcome of app.http comes first, and is held until db.ready is green
    let mut held = Vec::new();
    let (r, o) = passed(&s, "app", "http");
    resolve_outcome(&mut s, &mut held, r, o, &mut again.statuses);
    assert_eq!(held.len(), 1);
    assert_eq!(color(&s, "app", "http"), "pending");
    let (r, o) = passed(&s, "db", "port");
    resolve_outcome(&mut s, &mut held, r, o, &mut again.statuses);
    resolve_rest(&mut s, &held, &mut again.statuses);
    assert_eq!(color(&s, "db", "ready"), "green");
    assert_eq!(color(&s, "app", "http"), "green");
    assert_eq!(color(&s, "app", "ready"), "green");
    let done = reprobe_done(&mut s, &again.affected, again.statuses);
    assert_eq!(done.result, "ok");
    assert_eq!(done.probes.get("app.http").unwrap().state, "green");
}

#[test]
fn a_failed_check_blocks_the_dependents() {
    let mut s = state();
    up(&mut s, "db", "port");
    up(&mut s, "app", "http");
    let mut again = reprobe_all(&mut s);
    assert_eq!(again.pending.len(), 2);
    let outcomes = vec![failed(&s, "db", "port"), passed(&s, "app", "http")];
    probe_and_resolve(&mut s, outcomes, &mut again.statuses);
    assert_eq!(color(&s, "db", "port"), "red");
    assert_eq!(color(&s, "db", "ready"), "red");
    assert_eq!(color(&s, "app", "http"), "red");
    assert_eq!(reason(&s, "app", "http"), "dep red: db.ready");
    let st = again.statuses.get("db.port").unwrap();
    assert_eq!(st.error, Some("refused".to_string()));
    assert_eq!(st.probe_ms, Some(9));
}

#[test]
fn a_target_is_activated_by_a_check() {
    let mut s = state();
    assert!(!s.targets.get("all").unwrap().activated);
    let again = reprobe_target(&mut s, "all").ok().unwrap();
    assert!(s.targets.get("all").unwrap().activated);
    assert!(again.pending.is_empty());
    let done = reprobe_done(&mut s, &again.affected, again.statuses);
    assert_eq!(done.targets.get("all").unwrap().state, "red");
}

#[test]
fn one_operation_at_a_time() {
    let mut s = state();
    assert_eq!(s.op_lock.current_op(), None);
    let guard = s.op_lock.try_acquire("stop db").ok().unwrap();
    assert_eq!(s.op_lock.current_op(), Some("stop db".to_string()));
    let Err(e) = s.op_lock.try_acquire("start db") else { panic!("an operation runs") };
    assert_eq!(e.to_string(), "conflict: operation in progress: stop db");
    let (status, body) = err_response(&e);
    assert_eq!(status, 409);
    assert_eq!(body.error, Some(e.to_string()));
    assert_eq!(s.op_lock.current_op(), Some("stop db".to_string()));
    s.op_lock.release(guard);
    assert_eq!(s.op_lock.current_op(), None);
    assert!(s.op_lock.try_acquire("start db").is_ok());
}

#[test]
fn containers_found_at_the_start_are_noted() {
    let mut s = state();
    let running = Some(container_info(Some(true), Some(0), Some(17)));
    note_container(&mut s, "db", &running);
    note_container(&mut s, "app", &Some(container_info(Some(false), Some(137), None)));
    begin(&mut s);
    assert_eq!(s.services.get("db").unwrap().state, ServiceState::Running);
    assert_eq!(s.services.get("app").unwrap().state, ServiceState::Crashed);
    assert_eq!(color(&s, "db", "port"), "pending");
    assert_eq!(color(&s, "app", "http"), "red");
}

#[test]
fn a_reload_starts_afresh() {
    let mut s = state();
    up(&mut s, "db", "port");
    let r = reload(&mut s, config()).ok().unwrap();
    assert_eq!(r.result, "ok");
    assert_eq!(s.services.get("db").unwrap().state, ServiceState::Stopped);
    assert_eq!(
        s.targets.get("all").unwrap().transitive_probes.len(),
        state().targets.get("all").unwrap().transitive_probes.len()
    );
}

#[test]
fn what_docker_tells_of_a_container() {
    let info = inspect_container(Some(true), None, Some("2024-01-01T00:00:10.5Z"));
    assert_eq!((info.running, info.exit_code, info.started_at), (true, 0, 1704067210));
    let info = inspect_container(None, Some(1), Some("2024-01-01T01:00:00+01:00"));
    assert_eq!((info.running, info.exit_code, info.started_at), (false, 1, 1704067200));
    let info = inspect_container(None, None, Some("yesterday"));
    assert_eq!(info.started_at, 0);
    assert_eq!(inspect_container(None, None, None).started_at, 0);
    assert_eq!(log_since(&None), 0);
    assert_eq!(log_since(&Some(container_info(None, None, Some(5)))), 5);
    assert_eq!(service_state(&None), ServiceState::Stopped);
    assert_eq!(
        service_state(&Some(container_info(Some(false), Some(0), None))),
        ServiceState::Stopped
    );
}

/// Whether every green probe belongs to a running service and depends on green probes alone.
fn healthy(s: &AppState) -> bool {
    (0..s.services.len()).all(|i| {
        let svc = s.services.value(i);
        (0..svc.probes.len()).all(|j| {
            let p = svc.probes.value(j);
            !p.state.is_green()
                || svc.state == ServiceState::Running
                    && p.depends_on.iter().all(|d| color(s, &d.service, &d.probe) == "green")
        })
    })
}

#[test]
fn no_probe_is_green_before_what_it_depends_on() {
    let mut s = state();
    assert!(healthy(&s));
    begin(&mut s);
    assert!(healthy(&s));
    // the check of app.http passes while db is down
    assert!(start(&mut s, "app", false).is_ok());
    start_checks(&mut s, "app", 0);
    assert!(healthy(&s));
    let outcomes = vec![passed(&s, "app", "http")];
    start_done(&mut s, "app", &outcomes);
    assert!(healthy(&s));
    assert_eq!(color(&s, "app", "http"), "red");
    up(&mut s, "db", "port");
    assert!(healthy(&s));
    let mut again = reprobe_all(&mut s);
    assert!(healthy(&s));
    let outcomes = vec![passed(&s, "app", "http"), passed(&s, "db", "port")];
    probe_and_resolve(&mut s, outcomes, &mut again.statuses);
    assert!(healthy(&s));
    assert_eq!(color(&s, "app", "ready"), "green");
    handle_engine_event(&mut s, Some("die"), Some("c-db"));
    assert!(healthy(&s));
    assert_eq!(color(&s, "app", "ready"), "red");
    handle_engine_event(&mut s, Some("start"), Some("c-db"));
    assert!(healthy(&s));
    assert_eq!(color(&s, "app", "ready"), "pending");
    let mut again = reprobe_all(&mut s);
    let outcomes = vec![failed(&s, "db", "port"), passed(&s, "app", "http")];
    probe_and_resolve(&mut s, outcomes, &mut again.statuses);
    assert!(healthy(&s));
    assert!(stop(&mut s, "app").is_ok());
    assert!(healthy(&s));
}
