use gantry::config::{
    DefaultsConfig, GantryConfig, ProbeConfig, ProbeEntry, ServiceConfig, TargetConfig,
};
use gantry::duration::{parse_duration, Duration};
use gantry::graph::DependencyGraph;
use gantry::model::{PendingReason, ProbeFailure, ProbeRef, ProbeState, RedReason, ServiceState};
use gantry::ordered_map::OrderedMap;
use gantry::probe_meta::is_satisfied;
use gantry::runtime::{probe_mut, ProbeRuntime, RuntimeState, ServiceRuntime, Services};
use serde_yaml::Value;

fn texts(v: &Value) -> Vec<String> {
    match v.as_sequence() {
        Some(list) => list.iter().map(|t| t.as_str().unwrap().to_string()).collect(),
        None => Vec::new(),
    }
}

fn seconds(v: &Value, default: u64) -> Duration {
    match v.as_str() {
        Some(s) => parse_duration(s).unwrap(),
        None => Duration::from_secs(default),
    }
}

fn parse_probe(v: &Value) -> ProbeConfig {
    match v["type"].as_str().unwrap() {
        "tcp" => ProbeConfig::Tcp {
            host: v["host"].as_str().map(|s| s.to_string()),
            port: v["port"].as_u64().unwrap() as u16,
            timeout: seconds(&v["timeout"], 10),
        },
        "log" => ProbeConfig::Log {
            success: v["success"].as_str().unwrap().to_string(),
            failure: v["failure"].as_str().map(|s| s.to_string()),
            timeout: seconds(&v["timeout"], 30),
        },
        _ => ProbeConfig::Meta,
    }
}

fn parse_config(yaml: &str) -> GantryConfig {
    let v: Value = serde_yaml::from_str(yaml).unwrap();
    let mut services = OrderedMap::new();
    for (name, s) in v["services"].as_mapping().unwrap() {
        let mut probes = OrderedMap::new();
        if let Some(list) = s["probes"].as_mapping() {
            for (probe, e) in list {
                probes.insert(
                    probe.as_str().unwrap().to_string(),
                    ProbeEntry {
                        probe: parse_probe(&e["probe"]),
                        depends_on: texts(&e["depends_on"]),
                    },
                );
            }
        }
        services.insert(
            name.as_str().unwrap().to_string(),
            ServiceConfig {
                container: s["container"].as_str().unwrap().to_string(),
                start_after: texts(&s["start_after"]),
                probes,
                restart_on_fail: s["restart_on_fail"].as_bool(),
            },
        );
    }
    let mut targets = OrderedMap::new();
    if let Some(list) = v["targets"].as_mapping() {
        for (name, t) in list {
            targets.insert(
                name.as_str().unwrap().to_string(),
                TargetConfig { probes: texts(&t["probes"]), depends_on: texts(&t["depends_on"]) },
            );
        }
    }
    GantryConfig { services, targets, defaults: DefaultsConfig::default() }
}

fn at<'a>(services: &'a Services, svc: &str, probe: &str) -> &'a ProbeRuntime {
    services.get(svc).unwrap().probes.get(probe).unwrap()
}

fn at_mut<'a>(services: &'a mut Services, svc: &str, probe: &str) -> &'a mut ProbeRuntime {
    probe_mut(services, &ProbeRef::new(svc, probe))
}

fn svc_mut<'a>(services: &'a mut Services, svc: &str) -> &'a mut ServiceRuntime {
    let i = services.position(svc).unwrap();
    services.value_mut(i)
}


fn test_config() -> GantryConfig {
    let yaml = r#"
services:
  db:
    container: demo-db-1
    probes:
      port:
        probe:
          type: tcp
          port: 5432
          timeout: 10s
      ready:
        probe:
          type: meta
        depends_on: [db.port]
  app:
    container: demo-app-1
    start_after: [db.ready]
    probes:
      http:
        probe:
          type: tcp
          port: 8080
          timeout: 10s
        depends_on: [db.ready]
      ready:
        probe:
          type: meta
        depends_on: [app.http]
targets:
  integration:
    probes: [app.ready]
"#;
    parse_config(yaml)
}

#[test]
fn build_graph_valid() {
    let config = test_config();
    let graph = DependencyGraph::build(&config).unwrap();
    assert_eq!(*graph.topo_order(), vec!["db", "app"]);
}

#[test]
fn detect_start_after_cycle() {
    let yaml = r#"
services:
  a:
    container: a
    start_after: [b.ready]
    probes:
      ready:
        probe:
          type: meta
  b:
    container: b
    start_after: [a.ready]
    probes:
      ready:
        probe:
          type: meta
targets:
  t:
    probes: [a.ready]
"#;
    let config = parse_config(yaml);
    let result = DependencyGraph::build(&config);
    assert!(result.is_err());
}

#[test]
fn detect_depends_on_cycle() {
    let yaml = r#"
services:
  a:
    container: a
    probes:
      x:
        probe: { type: tcp, port: 1, timeout: 1s }
        depends_on: [a.y]
      y:
        probe: { type: tcp, port: 2, timeout: 1s }
        depends_on: [a.x]
targets:
  t:
    probes: [a.x]
"#;
    let config = parse_config(yaml);
    let err = DependencyGraph::build(&config).err().expect("should fail");
    assert!(
        err.to_string().contains("depends_on has a cycle"),
        "expected depends_on cycle error, got: {}",
        err.to_string()
    );
}

#[test]
fn detect_target_depends_on_cycle() {
    let yaml = r#"
services:
  a:
    container: a
    probes:
      ready:
        probe: { type: meta }
targets:
  t1:
    probes: [a.ready]
    depends_on: [t2]
  t2:
    probes: [a.ready]
    depends_on: [t1]
"#;
    let config = parse_config(yaml);
    let err = DependencyGraph::build(&config).err().expect("should fail");
    assert!(
        err.to_string().contains("target depends_on has a cycle"),
        "expected target cycle error, got: {}",
        err.to_string()
    );
}

#[test]
fn flatten_target_with_deps() {
    let yaml = r#"
services:
  db:
    container: db
    probes:
      ready:
        probe:
          type: meta
  app:
    container: app
    probes:
      ready:
        probe:
          type: meta
targets:
  db-ready:
    probes: [db.ready]
  integration:
    probes: [app.ready]
    depends_on: [db-ready]
"#;
    let config = parse_config(yaml);
    let graph = DependencyGraph::build(&config).unwrap();
    let probes = graph.flatten_target("integration", &config);
    assert_eq!(probes.len(), 2);
    assert!(probes.contains(&ProbeRef::new("app", "ready")));
    assert!(probes.contains(&ProbeRef::new("db", "ready")));
}

#[test]
fn pending_propagation() {
    let config = test_config();
    let graph = DependencyGraph::build(&config).unwrap();
    let mut state = RuntimeState::from_config(&config);

    // Set everything to running + green
    for i in 0..state.services.len() {
        let svc = state.services.value_mut(i);
        svc.state = ServiceState::Running;
        for j in 0..svc.probes.len() {
            let probe = svc.probes.value_mut(j);
            probe.state = ProbeState::Green;
        }
    }

    // Mark db.port as red
    let db_port = ProbeRef::new("db", "port");
    let mut changes = Vec::new();
    graph.mark_red(&db_port, &mut state.services, &mut changes);

    // db.port should be red
    assert!(at(&state.services, "db", "port").state.is_red());
    // db.ready depends on db.port -> red (source is red)
    assert!(at(&state.services, "db", "ready").state.is_red());
    // app.http depends on db.ready -> red (transitive from red source)
    assert!(at(&state.services, "app", "http").state.is_red());
    // app.ready depends on app.http -> red
    assert!(at(&state.services, "app", "ready").state.is_red());
}

#[test]
fn recovery_propagation() {
    let config = test_config();
    let graph = DependencyGraph::build(&config).unwrap();
    let mut state = RuntimeState::from_config(&config);

    // Set everything to running + green
    for i in 0..state.services.len() {
        let svc = state.services.value_mut(i);
        svc.state = ServiceState::Running;
        for j in 0..svc.probes.len() {
            let probe = svc.probes.value_mut(j);
            probe.state = ProbeState::Green;
        }
    }

    // Mark db.port as red (simulates stop) → propagates pending downstream
    let db_port = ProbeRef::new("db", "port");
    let mut changes = Vec::new();
    graph.mark_red(&db_port, &mut state.services, &mut changes);
    assert!(at(&state.services, "app", "http").state.is_red());

    // Now db.port recovers to green → recovery propagation
    at_mut(&mut state.services, "db", "port").state = ProbeState::Green;
    let mut recovery = Vec::new();
    graph.propagate_recovery("db.port", &mut state.services, &mut recovery);

    // Reset app.http to Red(DepRed) — simulating dep chain still blocked
    at_mut(&mut state.services, "app", "http").state = ProbeState::Red(RedReason::DepRed {
        dep: ProbeRef::new("db", "ready"),
    });

    // Simulate db.ready also recovers
    at_mut(&mut state.services, "db", "ready").state = ProbeState::Green;
    let mut recovery2 = Vec::new();
    graph.propagate_recovery("db.ready", &mut state.services, &mut recovery2);

    // app.http was red → now pending (recovery propagation)
    assert!(at(&state.services, "app", "http").state.is_pending());
    assert!(
        recovery2
            .iter()
            .any(|(pr, new, _)| pr.to_string() == "app.http" && new.is_pending())
    );
}

#[test]
fn recovery_invalidates_green_dependents() {
    // Green is transitive — if a dep recovered, all downstream must re-verify.
    let config = test_config();
    let graph = DependencyGraph::build(&config).unwrap();
    let mut state = RuntimeState::from_config(&config);

    // Everything running + green
    for i in 0..state.services.len() {
        let svc = state.services.value_mut(i);
        svc.state = ServiceState::Running;
        for j in 0..svc.probes.len() {
            let probe = svc.probes.value_mut(j);
            probe.state = ProbeState::Green;
        }
    }

    let mut changes = Vec::new();
    graph.propagate_recovery("db.port", &mut state.services, &mut changes);

    // Green dependents become pending — dep fluctuated, must re-verify
    assert!(at(&state.services, "db", "ready").state.is_pending());
    assert!(at(&state.services, "app", "http").state.is_pending());
}

#[test]
fn topo_levels_parallel() {
    let yaml = r#"
services:
  db:
    container: db
    probes:
      ready:
        probe:
          type: meta
  redis:
    container: redis
    probes:
      ready:
        probe:
          type: meta
  app:
    container: app
    start_after: [db.ready, redis.ready]
    probes:
      ready:
        probe:
          type: meta
  worker:
    container: worker
    start_after: [db.ready]
    probes:
      ready:
        probe:
          type: meta
targets:
  full:
    probes: [app.ready, worker.ready]
"#;
    let config = parse_config(yaml);
    let graph = DependencyGraph::build(&config).unwrap();
    let all_svcs = vec![
        "db".to_string(),
        "redis".to_string(),
        "app".to_string(),
        "worker".to_string(),
    ];
    let levels = graph.topo_levels(&all_svcs);

    // Level 0: db, redis (no deps, parallel)
    assert_eq!(levels.len(), 2);
    assert!(levels[0].contains(&"db".to_string()));
    assert!(levels[0].contains(&"redis".to_string()));
    // Level 1: app, worker (both depend on level 0)
    assert!(levels[1].contains(&"app".to_string()));
    assert!(levels[1].contains(&"worker".to_string()));
}

#[test]
fn test_probe_topo_order_deps_before_dependents() {
    let config = demo_config();
    let graph = DependencyGraph::build(&config).unwrap();
    let order = graph.probe_topo_order();

    // Helper: position in topo order
    let pos = |key: &str| order.iter().position(|k| k == key).unwrap_or(usize::MAX);

    // db.port before db.accepting (accepting depends on port)
    assert!(
        pos("db.port") < pos("db.accepting"),
        "db.port should come before db.accepting"
    );
    // db.port before db.ready (ready depends on port + accepting)
    assert!(pos("db.port") < pos("db.ready"));
    // db.ready before web.http (web.http depends on db.ready)
    assert!(
        pos("db.ready") < pos("web.http"),
        "db.ready should come before web.http"
    );
    // db.ready before app.init (app.init depends on db.ready)
    assert!(
        pos("db.ready") < pos("app.init"),
        "db.ready should come before app.init"
    );
    // redis.ready before app.http (app.http depends on redis.ready)
    assert!(
        pos("redis.ready") < pos("app.http"),
        "redis.ready should come before app.http"
    );
    // app.init before app.http (app.http depends on app.init)
    assert!(
        pos("app.init") < pos("app.http"),
        "app.init should come before app.http"
    );
    // web.http before web.ready
    assert!(pos("web.http") < pos("web.ready"));
    // app.http before app.ready
    assert!(pos("app.http") < pos("app.ready"));
}

#[test]
fn propagate_pending_only_from_non_green() {
    // Callers must only call propagate_pending for probes that are NOT green.
    // This test verifies the converge pattern: after restart, only propagate
    // from probes that are still pending/red, not from green ones.
    let config = demo_config();
    let graph = DependencyGraph::build(&config).unwrap();
    let mut state = RuntimeState::from_config(&config);

    // Everything green and running
    for i in 0..state.services.len() {
        let svc = state.services.value_mut(i);
        svc.state = ServiceState::Running;
        for j in 0..svc.probes.len() {
            let probe = svc.probes.value_mut(j);
            probe.state = ProbeState::Green;
        }
    }

    // Simulate: web restarted, web.http is now green, web.ready is green.
    // Only propagate from probes that are NOT green (none in this case).
    let web = &state.services.get("web").unwrap().probes;
    let non_green: Vec<String> = (0..web.len())
        .filter(|i| !web.value(*i).state.is_green())
        .map(|i| format!("web.{}", web.name(i)))
        .collect();
    let mut changes = Vec::new();
    for probe_key in &non_green {
        graph.propagate_pending(probe_key, &mut state.services, &mut changes);
    }

    // Nothing should change — all probes are green, no propagation needed.
    assert!(changes.is_empty());
    assert!(at(&state.services, "web", "ready").state.is_green());
}

#[test]
fn propagate_pending_from_red_probe_marks_dependents_pending() {
    // When a probe goes red, its green dependents should go pending.
    let config = demo_config();
    let graph = DependencyGraph::build(&config).unwrap();
    let mut state = RuntimeState::from_config(&config);

    for i in 0..state.services.len() {
        let svc = state.services.value_mut(i);
        svc.state = ServiceState::Running;
        for j in 0..svc.probes.len() {
            let probe = svc.probes.value_mut(j);
            probe.state = ProbeState::Green;
        }
    }

    // web.http goes red — propagate pending
    at_mut(&mut state.services, "web", "http").state = ProbeState::Red(RedReason::Stopped);
    let mut changes = Vec::new();
    graph.propagate_pending("web.http", &mut state.services, &mut changes);

    // web.ready (depends on web.http, was green) → now RED (source is Red)
    assert!(at(&state.services, "web", "ready").state.is_red());
    assert!(
        changes
            .iter()
            .any(|(pr, new, _)| pr.to_string() == "web.ready" && new.is_red())
    );
}

fn demo_config() -> GantryConfig {
    // Note: uses serde_yaml then manually calls auto_generate + topo_sort
    // to match what GantryConfig::load() does
    let yaml = r#"
services:
  db:
    container: db
    probes:
      port:
        probe: { type: tcp, port: 5432, timeout: 10s }
      accepting:
        probe: { type: log, success: "ready", timeout: 10s }
        depends_on: [db.port]
  redis:
    container: redis
    probes:
      port:
        probe: { type: tcp, port: 6379, timeout: 10s }
  web:
    container: web
    start_after: [db.ready]
    probes:
      http:
        probe: { type: tcp, port: 80, timeout: 10s }
        depends_on: [db.ready]
  app:
    container: app
    start_after: [db.ready, redis.ready]
    probes:
      init:
        probe: { type: log, success: "connected", timeout: 10s }
        depends_on: [db.ready]
      http:
        probe: { type: tcp, port: 8080, timeout: 10s }
        depends_on: [app.init, redis.ready]
targets:
  full:
    probes: [app.ready, web.ready]
"#;
    let mut config = parse_config(yaml);
    config.auto_generate_ready_probes();
    config.topo_sort_probes();
    config
}

#[test]
fn reverse_depends_on_correct() {
    let config = demo_config();
    let graph = DependencyGraph::build(&config).unwrap();

    // db.port → [db.accepting]
    let rev = graph.reverse_depends_on("db.port");
    assert!(rev.contains(&"db.accepting".to_string()));
    assert!(!rev.contains(&"web.http".to_string()));

    // db.ready → [web.http, app.init]
    let rev = graph.reverse_depends_on("db.ready");
    assert!(rev.contains(&"web.http".to_string()));
    assert!(rev.contains(&"app.init".to_string()));
    assert!(!rev.contains(&"app.http".to_string())); // app.http depends on app.init, not db.ready

    // redis.ready → [app.http]
    let rev = graph.reverse_depends_on("redis.ready");
    assert!(rev.contains(&"app.http".to_string()));
    assert!(!rev.contains(&"web.http".to_string())); // web doesn't depend on redis

    // app.http → [app.ready]
    let rev = graph.reverse_depends_on("app.http");
    assert!(rev.contains(&"app.ready".to_string()));
    assert!(!rev.contains(&"web.ready".to_string())); // web.ready doesn't depend on app.http

    // web.http → [web.ready]
    let rev = graph.reverse_depends_on("web.http");
    assert!(rev.contains(&"web.ready".to_string()));
}

#[test]
fn recovery_propagation_does_not_cross_services_incorrectly() {
    let config = demo_config();
    let graph = DependencyGraph::build(&config).unwrap();
    let mut state = RuntimeState::from_config(&config);

    // Set everything green
    for i in 0..state.services.len() {
        let svc = state.services.value_mut(i);
        svc.state = ServiceState::Running;
        for j in 0..svc.probes.len() {
            let probe = svc.probes.value_mut(j);
            probe.state = ProbeState::Green;
        }
    }

    // Mark web.http as red (simulating it was red then its dep recovered)
    at_mut(&mut state.services, "web", "http").state = ProbeState::Red(RedReason::DepRed {
        dep: ProbeRef::new("db", "ready"),
    });

    // web.http recovers to green → propagate_recovery
    at_mut(&mut state.services, "web", "http").state = ProbeState::Green;
    let mut changes = Vec::new();
    graph.propagate_recovery("web.http", &mut state.services, &mut changes);

    // web.ready should be pending (depends on web.http)
    assert!(at(&state.services, "web", "ready").state.is_pending());

    // app.ready should NOT be affected (doesn't depend on web.http)
    assert!(at(&state.services, "app", "ready").state.is_green());
    // app.http should NOT be affected
    assert!(at(&state.services, "app", "http").state.is_green());
}

#[test]
fn all_pending_then_resolve_in_topo_order() {
    // Simulates reprobe-all: everything pending, probes all pass, resolve in topo order
    let config = demo_config();
    let graph = DependencyGraph::build(&config).unwrap();
    let mut state = RuntimeState::from_config(&config);

    // Set everything running + pending (simulates force reprobe-all)
    for i in 0..state.services.len() {
        let svc = state.services.value_mut(i);
        svc.state = ServiceState::Running;
        for j in 0..svc.probes.len() {
            let probe = svc.probes.value_mut(j);
            probe.state = ProbeState::Pending(PendingReason::Reprobing);
        }
    }

    // Simulate: all probes pass, resolve in topo order
    let all_svcs: Vec<String> = state.services.names();
    let levels = graph.topo_levels(&all_svcs);

    for level in &levels {
        for svc_name in level {
            let probe_names: Vec<String> = state.services.get(svc_name).unwrap().probes.names();
            for probe_name in &probe_names {
                let probe = at(&state.services, svc_name, probe_name);
                if probe.is_meta() {
                    continue; // Meta probes resolved by separate step
                }
                // "Probe passes" -- check deps to determine state
                let deps_all_green = probe.depends_on.iter().all(|dep| {
                    state
                        .services
                        .get(&dep.service)
                        .and_then(|s| s.probes.get(&dep.probe))
                        .is_some_and(|p| p.state.is_green())
                });
                let new_state = if deps_all_green {
                    ProbeState::Green
                } else {
                    ProbeState::Pending(PendingReason::DepNotReady {
                        dep: probe
                            .depends_on
                            .first()
                            .cloned()
                            .unwrap_or_else(|| ProbeRef::new(svc_name, probe_name)),
                    })
                };
                at_mut(&mut state.services, svc_name, probe_name).state = new_state.clone();

                // Recovery propagation if went green
                if new_state.is_green() {
                    let mut changes = Vec::new();
                    graph.propagate_recovery(
                        &format!("{svc_name}.{probe_name}"),
                        &mut state.services,
                        &mut changes,
                    );
                }
            }
            // Resolve meta probes
            for probe_name in &probe_names {
                let probe = at(&state.services, svc_name, probe_name);
                if !probe.is_meta() {
                    continue;
                }
                let satisfied = is_satisfied(
                    &ProbeRef::new(svc_name, probe_name),
                    &state.services,
                );
                let new_state = if satisfied {
                    ProbeState::Green
                } else {
                    ProbeState::Red(RedReason::DepRed {
                        dep: ProbeRef::new(svc_name, probe_name),
                    })
                };
                at_mut(&mut state.services, svc_name, probe_name).state = new_state.clone();
                if new_state.is_green() {
                    let mut changes = Vec::new();
                    graph.propagate_recovery(
                        &format!("{svc_name}.{probe_name}"),
                        &mut state.services,
                        &mut changes,
                    );
                }
            }
        }
    }

    // ALL probes should be green
    for i in 0..state.services.len() {
        let (svc_name, svc) = (state.services.name(i), state.services.value(i));
        for j in 0..svc.probes.len() {
            let (probe_name, probe) = (svc.probes.name(j), svc.probes.value(j));
            assert!(
                probe.state.is_green(),
                "{svc_name}.{probe_name} should be green but is {:?}",
                probe.state
            );
        }
    }
}

#[test]
fn red_propagates_to_pending_dependents() {
    // If app.http is pending and db.ready goes red, app.http should go red (not stay pending)
    let yaml = r#"
services:
  db:
    container: db-1
    probes:
      ready:
        probe: { type: tcp, port: 5432, timeout: 10s }
  app:
    container: app-1
    probes:
      http:
        probe: { type: tcp, port: 8080, timeout: 10s }
        depends_on: [db.ready]
targets:
  full:
    probes: [app.http]
"#;
    let config = parse_config(yaml);
    let graph = DependencyGraph::build(&config).unwrap();
    let mut state = RuntimeState::from_config(&config);
    for i in 0..state.services.len() {
        let svc = state.services.value_mut(i);
        svc.state = ServiceState::Running;
    }
    // Set app.http to pending, db.ready to green
    at_mut(&mut state.services, "app", "http").state = ProbeState::Pending(PendingReason::Reprobing);
    at_mut(&mut state.services, "db", "ready").state = ProbeState::Green;

    // Now db.ready goes red → propagate
    let mut changes = Vec::new();
    graph.mark_red(
        &ProbeRef::new("db", "ready"),
        &mut state.services,
        &mut changes,
    );

    // app.http was pending, dep went red → should now be red
    assert!(
        at(&state.services, "app", "http").state.is_red(),
        "pending probe with red dep should become red"
    );
}

#[test]
fn recovery_blocked_by_other_red_dep() {
    // app.http depends on db.ready AND redis.port.
    // db.ready recovers, but redis.port is still red.
    // app.http should stay red (not go pending).
    let yaml = r#"
services:
  db:
    container: db-1
    probes:
      ready:
        probe: { type: tcp, port: 5432, timeout: 10s }
  redis:
    container: redis-1
    probes:
      port:
        probe: { type: tcp, port: 6379, timeout: 10s }
  app:
    container: app-1
    probes:
      http:
        probe: { type: tcp, port: 8080, timeout: 10s }
        depends_on: [db.ready, redis.port]
targets:
  full:
    probes: [app.http]
"#;
    let config = parse_config(yaml);
    let graph = DependencyGraph::build(&config).unwrap();
    let mut state = RuntimeState::from_config(&config);
    for i in 0..state.services.len() {
        let svc = state.services.value_mut(i);
        svc.state = ServiceState::Running;
    }
    // All red initially
    for i in 0..state.services.len() {
        let svc = state.services.value_mut(i);
        for j in 0..svc.probes.len() {
            let probe = svc.probes.value_mut(j);
            probe.state = ProbeState::Red(RedReason::Stopped);
        }
    }

    // db.ready recovers to green
    at_mut(&mut state.services, "db", "ready").state = ProbeState::Green;
    let mut changes = Vec::new();
    graph.propagate_recovery("db.ready", &mut state.services, &mut changes);

    // app.http should stay red — redis.port is still red
    assert!(
        at(&state.services, "app", "http").state.is_red(),
        "should stay red when another dep is still red"
    );
}

// ── initialize_probe_states tests ──

#[test]
fn init_probes_all_running_no_deps() {
    // db and redis have no start_after deps, both running → probes become Pending(Unchecked)
    let config = demo_config();
    let graph = DependencyGraph::build(&config).unwrap();
    let mut state = RuntimeState::from_config(&config);
    for i in 0..state.services.len() {
        let svc = state.services.value_mut(i);
        svc.state = ServiceState::Running;
    }
    graph.initialize_probe_states(&mut state.services);
    // All probes should be Pending(Unchecked)
    for i in 0..state.services.len() {
        let (svc_name, svc) = (state.services.name(i), state.services.value(i));
        for j in 0..svc.probes.len() {
            let (probe_name, probe) = (svc.probes.name(j), svc.probes.value(j));
            assert!(
                probe.state.is_pending(),
                "{svc_name}.{probe_name} should be pending but is {:?}",
                probe.state
            );
        }
    }
}

#[test]
fn init_probes_stopped_service_stays_red() {
    let config = demo_config();
    let graph = DependencyGraph::build(&config).unwrap();
    let mut state = RuntimeState::from_config(&config);
    // Leave all services stopped (default)
    graph.initialize_probe_states(&mut state.services);
    for i in 0..state.services.len() {
        let (svc_name, svc) = (state.services.name(i), state.services.value(i));
        for j in 0..svc.probes.len() {
            let (probe_name, probe) = (svc.probes.name(j), svc.probes.value(j));
            assert!(
                probe.state.is_red(),
                "{svc_name}.{probe_name} should be red but is {:?}",
                probe.state
            );
        }
    }
}

#[test]
fn init_probes_running_with_stopped_dep() {
    // web depends on db (start_after: [db.ready]).
    // db is stopped, web is running → web probes stay Red
    let config = demo_config();
    let graph = DependencyGraph::build(&config).unwrap();
    let mut state = RuntimeState::from_config(&config);
    // Only web is running, db is stopped
    svc_mut(&mut state.services, "web").state = ServiceState::Running;
    graph.initialize_probe_states(&mut state.services);
    let probes = &state.services.get("web").unwrap().probes;
    for j in 0..probes.len() {
        let (probe_name, probe) = (probes.name(j), probes.value(j));
        assert!(
            probe.state.is_red(),
            "web.{probe_name} should be red (dep db is stopped) but is {:?}",
            probe.state
        );
    }
}

#[test]
fn init_probes_partial_running() {
    // db running, redis stopped, web running (depends on db), app running (depends on db+redis)
    // web probes → Pending (db is running)
    // app probes → Red (redis is stopped, app start_after includes redis.ready)
    let config = demo_config();
    let graph = DependencyGraph::build(&config).unwrap();
    let mut state = RuntimeState::from_config(&config);
    svc_mut(&mut state.services, "db").state = ServiceState::Running;
    svc_mut(&mut state.services, "web").state = ServiceState::Running;
    svc_mut(&mut state.services, "app").state = ServiceState::Running;
    // redis stays Stopped
    graph.initialize_probe_states(&mut state.services);

    // db probes: pending (running, no deps)
    let probes = &state.services.get("db").unwrap().probes;
    for j in 0..probes.len() {
        let probe = probes.value(j);
        assert!(probe.state.is_pending(), "db probe should be pending");
    }
    // web.http depends on db.ready which is pending (not red) → web.http should be pending
    // Actually wait — web's start_after deps are all running (db), so web probes can be pending.
    // But web.http depends_on db.ready, and db.ready is pending, not red.
    // Our logic only keeps probes Red if a dep is red, otherwise Pending(Unchecked).
    // Pending dep is fine — the probe will get reprobed anyway.
    let probes = &state.services.get("web").unwrap().probes;
    for j in 0..probes.len() {
        let probe = probes.value(j);
        assert!(probe.state.is_pending(), "web probe should be pending");
    }
    // app: start_after includes redis.ready, redis is stopped → probes stay Red
    let probes = &state.services.get("app").unwrap().probes;
    for j in 0..probes.len() {
        let (probe_name, probe) = (probes.name(j), probes.value(j));
        assert!(
            probe.state.is_red(),
            "app.{probe_name} should be red (redis stopped)"
        );
    }
}

#[test]
fn init_probes_crashed_stays_red() {
    let config = demo_config();
    let graph = DependencyGraph::build(&config).unwrap();
    let mut state = RuntimeState::from_config(&config);
    svc_mut(&mut state.services, "db").state = ServiceState::Crashed;
    graph.initialize_probe_states(&mut state.services);
    let probes = &state.services.get("db").unwrap().probes;
    for j in 0..probes.len() {
        let probe = probes.value(j);
        assert!(probe.state.is_red(), "crashed service probe should be red");
    }
}

#[test]
fn target_requires_dependent_targets_green() {
    let yaml = r#"
services:
  db:
    container: db-1
    probes:
      port:
        probe: { type: tcp, port: 5432, timeout: 10s }
  app:
    container: app-1
    probes:
      http:
        probe: { type: tcp, port: 8080, timeout: 10s }
targets:
  infra:
    probes: [db.port]
  full:
    probes: [app.http]
    depends_on: [infra]
"#;
    let mut config = parse_config(yaml);
    config.auto_generate_ready_probes();
    let graph = DependencyGraph::build(&config).unwrap();
    let mut state = RuntimeState::from_config(&config);
    for i in 0..state.targets.len() {
        let probes = graph.flatten_target(state.targets.name(i), &config);
        state.targets.value_mut(i).transitive_probes = probes;
    }
    for i in 0..state.services.len() {
        let svc = state.services.value_mut(i);
        svc.state = ServiceState::Running;
    }

    // app.http green, but db.port red
    at_mut(&mut state.services, "app", "http").state = ProbeState::Green;
    at_mut(&mut state.services, "app", "ready").state = ProbeState::Green;
    at_mut(&mut state.services, "db", "port").state = ProbeState::Red(RedReason::Stopped);

    // full target should not be green (infra dep is red)
    let full_state = state.targets.get("full").unwrap().state(&state.services, &state.targets);
    assert!(
        !full_state.is_green(),
        "target should not be green when dependent target's probes are red"
    );
}

#[test]
fn propagation_walks_through_stopped_service() {
    // db (stopped) → db.ready → app.http (running)
    // Stopping db should propagate red to app.http even though db is stopped.
    let config = test_config();
    let graph = DependencyGraph::build(&config).unwrap();
    let mut state = RuntimeState::from_config(&config);

    // Both services running + green
    for i in 0..state.services.len() {
        let svc = state.services.value_mut(i);
        svc.state = ServiceState::Running;
        for j in 0..svc.probes.len() {
            let probe = svc.probes.value_mut(j);
            probe.state = ProbeState::Green;
        }
    }

    // Stop db — mark its probes red
    svc_mut(&mut state.services, "db").state = ServiceState::Stopped;
    at_mut(&mut state.services, "db", "port").state = ProbeState::Red(RedReason::Stopped);

    // Propagate from db.port — should walk through db.ready (stopped) to reach app.http (running)
    let mut changes = Vec::new();
    graph.propagate_pending("db.port", &mut state.services, &mut changes);

    // app.http must be red — the propagation walked through stopped db.ready
    assert!(
        at(&state.services, "app", "http").state.is_red(),
        "app.http should be red: propagation must walk through stopped service probes"
    );
    // app.ready depends on app.http → also red
    assert!(
        at(&state.services, "app", "ready").state.is_red(),
        "app.ready should be red transitively"
    );
    // db.ready state should NOT be changed (db is stopped)
    assert!(
        at(&state.services, "db", "ready").state.is_green(),
        "stopped service probe state should not be modified"
    );
}

#[test]
fn recovery_skips_stopped_services() {
    // db is stopped, db.port recovers. Recovery should NOT cross into
    // stopped db — db.ready is on a stopped service, skip it.
    // app.http stays Red(DepRed) because db.ready is still Red(Stopped).
    // The has_other_red guard handles this correctly.
    let config = test_config();
    let graph = DependencyGraph::build(&config).unwrap();
    let mut state = RuntimeState::from_config(&config);

    for i in 0..state.services.len() {
        let svc = state.services.value_mut(i);
        svc.state = ServiceState::Running;
    }
    svc_mut(&mut state.services, "db").state = ServiceState::Stopped;

    let db = svc_mut(&mut state.services, "db");
    for j in 0..db.probes.len() {
        db.probes.value_mut(j).state = ProbeState::Red(RedReason::Stopped);
    }
    at_mut(&mut state.services, "app", "http").state = ProbeState::Red(RedReason::DepRed {
        dep: ProbeRef::new("db", "ready"),
    });

    // db.port recovers
    at_mut(&mut state.services, "db", "port").state = ProbeState::Green;
    let mut changes = Vec::new();
    graph.propagate_recovery("db.port", &mut state.services, &mut changes);

    // app.http stays Red — db.ready is still Red(Stopped), recovery skipped stopped service
    assert!(
        at(&state.services, "app", "http").state.is_red(),
        "app.http should stay red — db is still stopped"
    );
    assert!(
        changes.is_empty(),
        "no changes — recovery can't cross stopped service"
    );
}

#[test]
fn log_since_not_advanced_on_propagation() {
    // log_since is only advanced on service restart (start.rs), not during
    // dep propagation. A running service's log output is still valid even
    // if a dependency goes red — the probe state (Red/DepRed) already
    // captures the dep failure. Reprobe can match existing logs.
    let config = test_config();
    let graph = DependencyGraph::build(&config).unwrap();
    let mut state = RuntimeState::from_config(&config);

    for i in 0..state.services.len() {
        let svc = state.services.value_mut(i);
        svc.state = ServiceState::Running;
        for j in 0..svc.probes.len() {
            let probe = svc.probes.value_mut(j);
            probe.state = ProbeState::Green;
        }
    }

    let app_log_since_before = state.services.get("app").unwrap().log_since;

    // Stop db, mark db.port red, propagate
    svc_mut(&mut state.services, "db").state = ServiceState::Stopped;
    at_mut(&mut state.services, "db", "port").state = ProbeState::Red(RedReason::Stopped);
    let mut changes = Vec::new();
    graph.propagate_pending("db.port", &mut state.services, &mut changes);

    // app's log_since must NOT be advanced — only restart advances it
    assert_eq!(
        state.services.get("app").unwrap().log_since, app_log_since_before,
        "propagation should not advance log_since"
    );
}

#[test]
fn recovery_does_not_overwrite_probe_failed() {
    // app.http depends on db.ready. Both are on running services.
    // app.http fails its probe check → Red(ProbeFailed).
    // db.ready recovers → propagate_recovery should NOT overwrite app.http
    // because it failed for its own reason, not because of db.
    let config = test_config();
    let graph = DependencyGraph::build(&config).unwrap();
    let mut state = RuntimeState::from_config(&config);

    for i in 0..state.services.len() {
        let svc = state.services.value_mut(i);
        svc.state = ServiceState::Running;
        for j in 0..svc.probes.len() {
            let probe = svc.probes.value_mut(j);
            probe.state = ProbeState::Green;
        }
    }

    // app.http fails its own probe check
    at_mut(&mut state.services, "app", "http").state = ProbeState::Red(RedReason::ProbeFailed(
        ProbeFailure {
            error: "connection refused".into(),
            duration_ms: 100,
        },
    ));

    // db.ready recovers → propagate recovery
    let mut changes = Vec::new();
    graph.propagate_recovery("db.ready", &mut state.services, &mut changes);

    // app.http must STILL be Red(ProbeFailed) — recovery can't fix a probe's own failure
    assert!(
        matches!(
            at(&state.services, "app", "http").state,
            ProbeState::Red(RedReason::ProbeFailed(_))
        ),
        "recovery propagation must not overwrite ProbeFailed: got {:?}",
        at(&state.services, "app", "http").state
    );
}
