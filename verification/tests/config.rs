use gantry::config::{
    DefaultsConfig, GantryConfig, ProbeConfig, ProbeEntry, ServiceConfig, TargetConfig,
};
use gantry::duration::{parse_duration, Duration};
use gantry::ordered_map::OrderedMap;
use serde_yaml::Value;

fn texts(v: &Value) -> Vec<String> {
    match v.as_sequence() {
        Some(list) => list.iter().map(|t| t.as_str().unwrap().to_string()).collect(),
        None => Vec::new(),
    }
}

fn seconds(v: &Value, default: u64) -> Duration {
    match v.as_str() {
        Some(s) => parse_duration(s).unwrap(),
        None => Duration::from_secs(default),
    }
}

fn parse_probe(v: &Value) -> ProbeConfig {
    match v["type"].as_str().unwrap() {
        "tcp" => ProbeConfig::Tcp {
            host: v["host"].as_str().map(|s| s.to_string()),
            port: v["port"].as_u64().unwrap() as u16,
            timeout: seconds(&v["timeout"], 10),
        },
        "log" => ProbeConfig::Log {
            success: v["success"].as_str().unwrap().to_string(),
            failure: v["failure"].as_str().map(|s| s.to_string()),
            timeout: seconds(&v["timeout"], 30),
        },
        _ => ProbeConfig::Meta,
    }
}

fn parse_config(yaml: &str) -> GantryConfig {
    let v: Value = serde_yaml::from_str(yaml).unwrap();
    let mut services = OrderedMap::new();
    for (name, s) in v["services"].as_mapping().unwrap() {
        let mut probes = OrderedMap::new();
        if let Some(list) = s["probes"].as_mapping() {
            for (probe, e) in list {
                probes.insert(
                    probe.as_str().unwrap().to_string(),
                    ProbeEntry {
                        probe: parse_probe(&e["probe"]),
                        depends_on: texts(&e["depends_on"]),
                    },
                );
            }
        }
        services.insert(
            name.as_str().unwrap().to_string(),
            ServiceConfig {
                container: s["container"].as_str().unwrap().to_string(),
                start_after: texts(&s["start_after"]),
                probes,
                restart_on_fail: s["restart_on_fail"].as_bool(),
            },
        );
    }
    let mut targets = OrderedMap::new();
    if let Some(list) = v["targets"].as_mapping() {
        for (name, t) in list {
            targets.insert(
                name.as_str().unwrap().to_string(),
                TargetConfig { probes: texts(&t["probes"]), depends_on: texts(&t["depends_on"]) },
            );
        }
    }
    GantryConfig { services, targets, defaults: DefaultsConfig::default() }
}


#[test]
fn parse_duration_variants() {
    assert_eq!(parse_duration("100ms").unwrap(), Duration::from_millis(100));
    assert_eq!(parse_duration("10s").unwrap(), Duration::from_secs(10));
    assert_eq!(parse_duration("2m").unwrap(), Duration::from_secs(120));
}

#[test]
fn parse_minimal_config() {
    let yaml = r#"
services:
  db:
    container: demo-db-1
    probes:
      port:
        probe:
          type: tcp
          port: 5432
          timeout: 10s
targets:
  db-ready:
    probes: [db.ready]
"#;
    let config = parse_config(yaml);
    assert!(config.services.contains_key("db"));
    assert!(config.targets.contains_key("db-ready"));
}

#[test]
fn auto_generate_ready() {
    let yaml = r#"
services:
  db:
    container: demo-db-1
    probes:
      port:
        probe:
          type: tcp
          port: 5432
          timeout: 10s
      accepting:
        probe:
          type: log
          success: "ready to accept connections"
          timeout: 30s
        depends_on: [db.port]
targets:
  db-ready:
    probes: [db.ready]
"#;
    let mut config = parse_config(yaml);
    config.auto_generate_ready_probes();
    let db = config.services.get("db").unwrap();
    assert!(db.probes.contains_key("ready"));
    let ready = db.probes.get("ready").unwrap();
    assert!(matches!(ready.probe, ProbeConfig::Meta));
    assert!(ready.depends_on.contains(&"db.port".to_string()));
    assert!(ready.depends_on.contains(&"db.accepting".to_string()));
}

#[test]
fn topo_sort_probes_order() {
    let yaml = r#"
services:
  app:
    container: app-1
    probes:
      ready:
        probe: { type: meta }
        depends_on: [app.http]
      http:
        probe: { type: tcp, port: 8080, timeout: 10s }
        depends_on: [app.init]
      init:
        probe: { type: log, success: "ready", timeout: 10s }
targets: {}
"#;
    let mut config = parse_config(yaml);
    config.topo_sort_probes();
    let names = config.services.get("app").unwrap().probes.names();
    let probe_names: Vec<&str> = names.iter().map(|s| s.as_str()).collect();
    // init before http before ready
    assert_eq!(probe_names, vec!["init", "http", "ready"]);
}

#[test]
fn topo_sort_probes_cycle_keeps_original() {
    let yaml = r#"
services:
  svc:
    container: svc-1
    probes:
      a:
        probe: { type: tcp, port: 1, timeout: 1s }
        depends_on: [svc.b]
      b:
        probe: { type: tcp, port: 2, timeout: 1s }
        depends_on: [svc.a]
targets: {}
"#;
    let mut config = parse_config(yaml);
    config.topo_sort_probes();
    // Cycle → original order preserved
    let names = config.services.get("svc").unwrap().probes.names();
    let probe_names: Vec<&str> = names.iter().map(|s| s.as_str()).collect();
    assert_eq!(probe_names, vec!["a", "b"]);
}

#[test]
fn topo_sort_ignores_cross_service_deps() {
    let yaml = r#"
services:
  db:
    container: db-1
    probes:
      port:
        probe: { type: tcp, port: 5432, timeout: 10s }
  app:
    container: app-1
    probes:
      http:
        probe: { type: tcp, port: 8080, timeout: 10s }
        depends_on: [db.port]
      init:
        probe: { type: log, success: "ok", timeout: 10s }
targets: {}
"#;
    let mut config = parse_config(yaml);
    config.topo_sort_probes();
    // http depends on db.port (cross-service) — doesn't affect intra-service ordering
    // init and http have no intra-service dep, so order is preserved
    let names = config.services.get("app").unwrap().probes.names();
    let probe_names: Vec<&str> = names.iter().map(|s| s.as_str()).collect();
    assert!(probe_names.contains(&"http"));
    assert!(probe_names.contains(&"init"));
}
