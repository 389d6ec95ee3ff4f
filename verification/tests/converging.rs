use gantry::app_state::AppState;
use gantry::config::{
    DefaultsConfig, GantryConfig, ProbeConfig, ProbeEntry, ServiceConfig, TargetConfig,
};
use gantry::converge::{
    after_round, begin_round, converge, converge_done, end_round, on_probed, on_start_error, on_started,
    probe_waited_in_vain, refresh, start_waited_in_vain, wait_for_deps_green, PipelineOutcome,
    Round, Wait,
};
use gantry::duration::Duration;
use gantry::model::{ProbeRef, ServiceState};
use gantry::ops::OpResponse;
use gantry::ordered_map::OrderedMap;
use gantry::probe::{ProbeOutcome, ProbeResult};
use gantry::start::{start, start_checks, start_done, Starting};
use gantry::startup::assemble;

fn tcp(port: u16, depends_on: &[&str]) -> ProbeEntry {
    ProbeEntry {
        probe: ProbeConfig::Tcp { host: None, port, timeout: Duration::from_secs(5) },
        depends_on: depends_on.iter().map(|s| s.to_string()).collect(),
    }
}

fn service(container: &str, start_after: &[&str], probes: Vec<(&str, ProbeEntry)>) -> ServiceConfig {
    let mut table = OrderedMap::new();
    for (name, p) in probes {
        table.insert(name.to_string(), p);
    }
    ServiceConfig {
        container: container.to_string(),
        start_after: start_after.iter().map(|s| s.to_string()).collect(),
        probes: table,
        restart_on_fail: None,
    }
}

/// `app` starts after `db.ready`, and `app.http` depends on `db.ready`.
fn config() -> GantryConfig {
    let mut services = OrderedMap::new();
    services.insert("db".to_string(), service("c-db", &[], vec![("port", tcp(5432, &[]))]));
    services.insert(
        "app".to_string(),
        service("c-app", &["db.ready"], vec![("http", tcp(8080, &["db.ready"]))]),
    );
    let mut targets = OrderedMap::new();
    targets.insert(
        "all".to_string(),
        TargetConfig { probes: vec!["app.ready".to_string()], depends_on: vec![] },
    );
    let mut c = GantryConfig { services, targets, defaults: DefaultsConfig::default() };
    c.auto_generate_ready_probes();
    c.topo_sort_probes();
    c
}

fn state() -> AppState {
    assemble(config()).unwrap()
}

fn generation(s: &AppState, svc: &str) -> u64 {
    s.services.get(svc).unwrap().generation
}

fn passed(s: &AppState, svc: &str, probe: &str) -> (ProbeRef, ProbeOutcome) {
    let r = ProbeResult::Passed { duration_ms: 7 };
    (
        ProbeRef::new(svc, probe),
        ProbeOutcome::immediate(r).with_generation(generation(s, svc)),
    )
}

fn failed(s: &AppState, svc: &str, probe: &str) -> (ProbeRef, ProbeOutcome) {
    let r = ProbeResult::Failed { error: "refused".to_string(), duration_ms: 9 };
    (
        ProbeRef::new(svc, probe),
        ProbeOutcome::immediate(r).with_generation(generation(s, svc)),
    )
}

/// Starts a service without the check of what it starts after.
fn launch(s: &mut AppState, svc: &str, outcomes: Vec<(ProbeRef, ProbeOutcome)>) -> OpResponse {
    assert!(matches!(start(s, svc, false), Ok(Starting::Start { .. })));
    start_checks(s, svc, 0);
    let now = generation(s, svc);
    let outcomes: Vec<(ProbeRef, ProbeOutcome)> =
        outcomes.into_iter().map(|(r, o)| (r, o.with_generation(now))).collect();
    start_done(s, svc, &outcomes)
}

#[test]
fn a_target_converges_to_green() {
    let mut s = state();
    let Err(e) = converge(&mut s, "none", true) else { panic!("there is no such target") };
    assert_eq!(e.to_string(), "not found: target 'none' not found");
    let mut conv = converge(&mut s, "all", true).ok().unwrap();
    assert!(s.targets.get("all").unwrap().activated);
    assert_eq!(conv.services, vec!["db".to_string(), "app".to_string()]);
    assert!(refresh(&s, &conv).is_empty());
    let Round::Run { starts, probes } = begin_round(&s, &mut conv) else {
        panic!("there is work to do")
    };
    assert_eq!(starts.len(), 2);
    assert!(probes.is_empty());
    assert_eq!(starts[1].service, "app");
    assert_eq!(wait_for_deps_green(&s.services, &starts[0].start_after), Wait::Ready);
    assert_eq!(wait_for_deps_green(&s.services, &starts[1].start_after), Wait::Wait);

    let outcomes = vec![passed(&s, "db", "port")];
    let r = launch(&mut s, "db", outcomes);
    let next = on_started(&s, &mut conv, "db", &r);
    assert!(next.probes.is_empty());
    assert_eq!(next.outcome, None);
    assert_eq!(wait_for_deps_green(&s.services, &starts[1].start_after), Wait::Ready);

    let outcomes = vec![passed(&s, "app", "http")];
    let r = launch(&mut s, "app", outcomes);
    let next = on_started(&s, &mut conv, "app", &r);
    assert_eq!(next.outcome, Some(PipelineOutcome::AllGreen));

    let done = converge_done(&mut s, conv, next.outcome, 1234);
    assert_eq!(done.result, "ok");
    assert_eq!(done.duration_ms, 1234);
    assert_eq!(done.error, None);
    assert!(done.not_green.is_empty());
    assert_eq!(done.actions.started, vec!["db".to_string(), "app".to_string()]);
    assert_eq!(done.targets.get("all").unwrap().state, "green");

    // once green there is nothing left to do
    let mut conv = converge(&mut s, "all", true).ok().unwrap();
    assert!(matches!(begin_round(&s, &mut conv), Round::Done(PipelineOutcome::AllGreen)));
}

#[test]
fn a_service_is_restarted_at_most_once() {
    let mut s = state();
    let outcomes = vec![failed(&s, "db", "port")];
    launch(&mut s, "db", outcomes);
    let mut conv = converge(&mut s, "all", true).ok().unwrap();
    let Round::Run { starts, probes } = begin_round(&s, &mut conv) else {
        panic!("there is work to do")
    };
    assert_eq!(starts.len(), 1);
    assert_eq!(probes.len(), 1);
    assert_eq!(probes[0].probe.probe_ref.to_string(), "db.port");
    let (r, o) = failed(&s, "db", "port");
    let next = on_probed(&mut s, &mut conv, &r, &o);
    assert_eq!(next.container, Some("c-db".to_string()));
    assert_eq!(next.outcome, Some(PipelineOutcome::Restarted));
    assert_eq!(conv.actions.restarted, vec!["db".to_string()]);
    assert_eq!(s.services.get("db").unwrap().state, ServiceState::Stopped);

    // the next round starts it, and its failure does not restart it again
    let Round::Run { starts, .. } = begin_round(&s, &mut conv) else {
        panic!("there is work to do")
    };
    assert_eq!(starts.len(), 2);
    let outcomes = vec![failed(&s, "db", "port")];
    let resp = launch(&mut s, "db", outcomes);
    let next = on_started(&s, &mut conv, "db", &resp);
    assert_eq!(next.probes.len(), 1);
    let (r, o) = failed(&s, "db", "port");
    let next = on_probed(&mut s, &mut conv, &r, &o);
    assert_eq!(next.container, None);
    assert_eq!(next.outcome, None);
    assert_eq!(conv.actions.restarted, vec!["db".to_string()]);
    assert_eq!(s.services.get("db").unwrap().state, ServiceState::Running);
}

#[test]
fn without_restarts_a_failure_is_final() {
    let mut s = state();
    let outcomes = vec![failed(&s, "db", "port")];
    launch(&mut s, "db", outcomes);
    let mut conv = converge(&mut s, "all", false).ok().unwrap();
    begin_round(&s, &mut conv);
    let (r, o) = failed(&s, "db", "port");
    let next = on_probed(&mut s, &mut conv, &r, &o);
    assert_eq!((next.container, next.outcome), (None, None));
    let outcome = end_round(&s, &conv);
    assert_eq!(outcome, PipelineOutcome::TerminalFailure);
    let done = converge_done(&mut s, conv, Some(outcome), 1);
    assert_eq!(done.result, "failed");
    assert_eq!(
        done.error,
        Some("restart_on_fail=false service has red probes".to_string())
    );
    assert_eq!(done.not_green, vec!["app".to_string(), "db".to_string()]);
}

#[test]
fn a_start_that_fails_is_told() {
    let mut s = state();
    let mut conv = converge(&mut s, "all", true).ok().unwrap();
    let Round::Run { starts, .. } = begin_round(&s, &mut conv) else {
        panic!("there is work to do")
    };
    let e = start_waited_in_vain("db");
    assert_eq!(e.to_string(), "operation error: start_after deps not satisfied for db");
    on_start_error(&mut s, &mut conv, "db", &e);
    assert_eq!(wait_for_deps_green(&s.services, &starts[1].start_after), Wait::Failed);
    let outcome = end_round(&s, &conv);
    assert_eq!(outcome, PipelineOutcome::TerminalFailure);
    let done = converge_done(&mut s, conv, Some(outcome), 1);
    assert_eq!(
        done.error,
        Some(
            "restart_on_fail=false service has red probes; failed to start: db".to_string()
        )
    );
    assert_eq!(done.actions.start_errors.get("db"), Some(&e.to_string()));
}

#[test]
fn a_timeout_is_told() {
    let mut s = state();
    let conv = converge(&mut s, "all", true).ok().unwrap();
    assert_eq!(end_round(&s, &conv), PipelineOutcome::NoProgress);
    let done = converge_done(&mut s, conv, None, 60000);
    assert_eq!(done.error, Some("timeout".to_string()));
    let conv = converge(&mut s, "all", true).ok().unwrap();
    let done = converge_done(&mut s, conv, Some(PipelineOutcome::NoProgress), 0);
    assert_eq!(done.error, Some("no progress possible".to_string()));
    let conv = converge(&mut s, "all", true).ok().unwrap();
    let done = converge_done(&mut s, conv, Some(PipelineOutcome::AllGreen), 0);
    assert_eq!(done.error, Some("target not ready".to_string()));
}

#[test]
fn a_check_that_waited_in_vain_fails() {
    let o = probe_waited_in_vain(3);
    assert_eq!(o.generation, 3);
    match o.result {
        ProbeResult::Failed { error, duration_ms } => {
            assert_eq!(error, "probe deps not green in time");
            assert_eq!(duration_ms, 0);
        }
        ProbeResult::Passed { .. } => panic!("it must fail"),
    }
}

#[test]
fn pending_probes_are_refreshed_first() {
    let mut s = state();
    start_checks(&mut s, "db", 5);
    let conv = converge(&mut s, "all", true).ok().unwrap();
    let again = refresh(&s, &conv);
    assert_eq!(again.len(), 1);
    assert_eq!(again[0].probe_ref.to_string(), "db.port");
    assert_eq!(again[0].log_since, 5);
}

#[test]
fn rounds_go_on_after_a_restart() {
    let time = Duration::from_secs(1);
    assert_eq!(after_round(None, time), None);
    assert_eq!(after_round(Some(PipelineOutcome::Restarted), time), None);
    assert_eq!(
        after_round(Some(PipelineOutcome::Restarted), Duration::zero()),
        Some(PipelineOutcome::NoProgress)
    );
    for outcome in [
        PipelineOutcome::AllGreen,
        PipelineOutcome::TerminalFailure,
        PipelineOutcome::NoProgress,
    ] {
        assert_eq!(after_round(Some(outcome), time), Some(outcome));
    }
}
