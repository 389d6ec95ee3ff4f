use gantry::config::{
    DefaultsConfig, GantryConfig, ProbeConfig, ProbeEntry, ServiceConfig, TargetConfig,
};
use gantry::duration::{parse_duration, Duration};
use gantry::generator::gantry_yaml::generate_gantry_yaml;
use gantry::generator::schema::{
    BackoffDef, BuildDef, DefaultsDef, FileDef, ImageDef, ProbeDef, ProbeEntryDef, ServiceDef,
    SetupJson, TargetDef, VolumeConfig,
};
use gantry::json::Json;
use gantry::ordered_map::OrderedMap;
use serde_json::Value;

fn json_of(v: &Value) -> Json {
    match v {
        Value::Null => Json::Null,
        Value::Bool(b) => Json::Bool(*b),
        Value::Number(n) => match n.as_u64() {
            Some(m) => Json::Num(m),
            None => Json::Raw(n.to_string()),
        },
        Value::String(s) => Json::Text(s.clone()),
        Value::Array(list) => Json::List(list.iter().map(json_of).collect()),
        Value::Object(map) => {
            Json::Object(map.iter().map(|(k, v)| (k.clone(), json_of(v))).collect())
        }
    }
}

fn text(v: &Value) -> Option<String> {
    v.as_str().map(|s| s.to_string())
}

fn value(v: &Value) -> Option<Json> {
    match v {
        Value::Null => None,
        _ => Some(json_of(v)),
    }
}

fn list(v: &Value) -> Vec<String> {
    match v.as_array() {
        Some(a) => a.iter().map(|t| t.as_str().unwrap().to_string()).collect(),
        None => Vec::new(),
    }
}

fn table(v: &Value) -> OrderedMap<String> {
    let mut t = OrderedMap::new();
    if let Some(map) = v.as_object() {
        for (k, v) in map {
            t.insert(k.clone(), v.as_str().unwrap().to_string());
        }
    }
    t
}

fn files(v: &Value) -> Vec<FileDef> {
    match v.as_array() {
        Some(a) => a
            .iter()
            .map(|f| FileDef {
                src: text(&f["src"]).unwrap(),
                dst: text(&f["dst"]).unwrap(),
                template: f["template"].as_bool().unwrap_or(false),
                context: value(&f["context"]),
            })
            .collect(),
        None => Vec::new(),
    }
}

fn probes(v: &Value) -> OrderedMap<ProbeEntryDef> {
    let mut t = OrderedMap::new();
    if let Some(map) = v.as_object() {
        for (k, e) in map {
            let mut extra = OrderedMap::new();
            for (name, field) in e["probe"].as_object().unwrap() {
                if name != "type" {
                    extra.insert(name.clone(), json_of(field));
                }
            }
            t.insert(
                k.clone(),
                ProbeEntryDef {
                    probe: ProbeDef { probe_type: text(&e["probe"]["type"]).unwrap(), extra },
                    depends_on: list(&e["depends_on"]),
                },
            );
        }
    }
    t
}

fn service(v: &Value) -> ServiceDef {
    ServiceDef {
        container_name: text(&v["container_name"]).unwrap_or_default(),
        image: match v["image"].as_str() {
            Some(i) => ImageDef::Prebuilt(i.to_string()),
            None => ImageDef::Build {
                build: BuildDef {
                    context: text(&v["image"]["build"]["context"]).unwrap(),
                    dockerfile: text(&v["image"]["build"]["dockerfile"]).unwrap(),
                },
            },
        },
        config: value(&v["config"]),
        env: table(&v["env"]),
        ports: list(&v["ports"]),
        volumes: list(&v["volumes"]),
        command: value(&v["command"]),
        entrypoint: value(&v["entrypoint"]),
        user: text(&v["user"]),
        working_dir: text(&v["working_dir"]),
        hostname: text(&v["hostname"]),
        cap_add: list(&v["cap_add"]),
        cap_drop: list(&v["cap_drop"]),
        privileged: v["privileged"].as_bool(),
        labels: table(&v["labels"]),
        extra_hosts: list(&v["extra_hosts"]),
        init: v["init"].as_bool(),
        stop_grace_period: text(&v["stop_grace_period"]),
        files: files(&v["files"]),
        start_after: list(&v["start_after"]),
        restart_on_fail: v["restart_on_fail"].as_bool(),
        probes: probes(&v["probes"]),
    }
}

fn parse_setup(json: &str) -> SetupJson {
    let v: Value = serde_json::from_str(json).unwrap();
    let mut services = OrderedMap::new();
    for (k, s) in v["services"].as_object().unwrap() {
        services.insert(k.clone(), service(s));
    }
    let mut targets = OrderedMap::new();
    if let Some(map) = v["targets"].as_object() {
        for (k, t) in map {
            targets.insert(
                k.clone(),
                TargetDef { probes: list(&t["probes"]), depends_on: list(&t["depends_on"]) },
            );
        }
    }
    let mut volumes = OrderedMap::new();
    if let Some(map) = v["volumes"].as_object() {
        for (k, d) in map {
            volumes.insert(k.clone(), VolumeConfig { driver: text(&d["driver"]) });
        }
    }
    let d = &v["defaults"];
    let b = &d["probe_backoff"];
    let defaults = d.as_object().map(|_| DefaultsDef {
        tcp_probe_timeout: text(&d["tcp_probe_timeout"]),
        log_probe_timeout: text(&d["log_probe_timeout"]),
        restart_on_fail: d["restart_on_fail"].as_bool(),
        probe_backoff: b.as_object().map(|_| BackoffDef {
            initial: text(&b["initial"]),
            max: text(&b["max"]),
            multiplier: b["multiplier"].as_f64().map(|m| format!("{m:?}")),
        }),
    });
    SetupJson {
        name: text(&v["name"]).unwrap_or_default(),
        services,
        targets,
        defaults,
        files: files(&v["files"]),
        volumes,
    }
}

fn texts(v: &serde_yaml::Value) -> Vec<String> {
    match v.as_sequence() {
        Some(list) => list.iter().map(|t| t.as_str().unwrap().to_string()).collect(),
        None => Vec::new(),
    }
}

fn seconds(v: &serde_yaml::Value, default: u64) -> Duration {
    match v.as_str() {
        Some(s) => parse_duration(s).unwrap(),
        None => Duration::from_secs(default),
    }
}

fn parse_probe(v: &serde_yaml::Value) -> ProbeConfig {
    match v["type"].as_str().unwrap() {
        "tcp" => ProbeConfig::Tcp {
            host: v["host"].as_str().map(|s| s.to_string()),
            port: v["port"].as_u64().unwrap() as u16,
            timeout: seconds(&v["timeout"], 10),
        },
        "log" => ProbeConfig::Log {
            success: v["success"].as_str().unwrap().to_string(),
            failure: v["failure"].as_str().map(|s| s.to_string()),
            timeout: seconds(&v["timeout"], 30),
        },
        _ => ProbeConfig::Meta,
    }
}

fn parse_config(yaml: &str) -> GantryConfig {
    let v: serde_yaml::Value = serde_yaml::from_str(yaml).unwrap();
    let mut services = OrderedMap::new();
    for (name, s) in v["services"].as_mapping().unwrap() {
        let mut probes = OrderedMap::new();
        if let Some(list) = s["probes"].as_mapping() {
            for (probe, e) in list {
                probes.insert(
                    probe.as_str().unwrap().to_string(),
                    ProbeEntry {
                        probe: parse_probe(&e["probe"]),
                        depends_on: texts(&e["depends_on"]),
                    },
                );
            }
        }
        services.insert(
            name.as_str().unwrap().to_string(),
            ServiceConfig {
                container: s["container"].as_str().unwrap().to_string(),
                start_after: texts(&s["start_after"]),
                probes,
                restart_on_fail: s["restart_on_fail"].as_bool(),
            },
        );
    }
    let mut targets = OrderedMap::new();
    if let Some(list) = v["targets"].as_mapping() {
        for (name, t) in list {
            targets.insert(
                name.as_str().unwrap().to_string(),
                TargetConfig { probes: texts(&t["probes"]), depends_on: texts(&t["depends_on"]) },
            );
        }
    }
    let d = &v["defaults"];
    let defaults = DefaultsConfig {
        tcp_probe_timeout: seconds(&d["tcp_probe_timeout"], 10),
        log_probe_timeout: seconds(&d["log_probe_timeout"], 30),
        ..DefaultsConfig::default()
    };
    GantryConfig { services, targets, defaults }
}


fn sample_json() -> &'static str {
    r#"{
          "services": {
            "db": {
              "image": "postgres:16",
              "env": {"POSTGRES_PASSWORD": "dev"},
              "ports": ["5432"],
              "probes": {
                "port": {"probe": {"type": "tcp", "port": 5432}, "depends_on": []},
                "accepting": {
                  "probe": {"type": "log", "success": "ready to accept connections"},
                  "depends_on": ["db.port"]
                }
              }
            },
            "app": {
              "image": {"build": {"context": ".", "dockerfile": "Dockerfile"}},
              "env": {"DATABASE_URL": "postgres://db:5432/app"},
              "ports": ["8080"],
              "start_after": ["db.ready"],
              "probes": {
                "http": {"probe": {"type": "tcp", "port": 8080}, "depends_on": ["db.ready"]}
              }
            }
          },
          "targets": {
            "integration": {
              "probes": ["app.ready"],
              "depends_on": []
            }
          },
          "defaults": {
            "tcp_probe_timeout": "10s",
            "log_probe_timeout": "30s",
            "probe_backoff": {"initial": "100ms", "max": "5s", "multiplier": 2}
          }
        }"#
}

#[test]
fn generates_valid_yaml() {
    let setup = parse_setup(sample_json());
    let yaml = generate_gantry_yaml(&setup, "demo").unwrap();

    assert!(yaml.contains("container: demo-db"));
    assert!(yaml.contains("container: demo-app"));
    assert!(yaml.contains("type: tcp"));
    assert!(yaml.contains("type: log"));
    // Output uses "probes" (gantry's field name), not "probes"
    assert!(yaml.contains("probes:"));
    assert!(!yaml.contains("capabilities:"));
}

#[test]
fn round_trip_through_gantry_config() {
    let setup = parse_setup(sample_json());
    let yaml = generate_gantry_yaml(&setup, "demo").unwrap();

    // The supervisor's GantryConfig must be able to parse our output
    let config = parse_config(&yaml);
    assert_eq!(config.services.len(), 2);
    assert_eq!(config.services.get("db").unwrap().container, "demo-db");
    assert_eq!(config.services.get("app").unwrap().container, "demo-app");
    assert_eq!(config.services.get("app").unwrap().start_after, vec!["db.ready"]);

    // Probes preserved
    let http = config.services.get("app").unwrap().probes.get("http").unwrap();
    assert_eq!(http.depends_on, vec!["db.ready"]);

    // Targets preserved
    assert_eq!(config.targets.get("integration").unwrap().probes, vec!["app.ready"]);

    // Defaults preserved
    assert_eq!(
        config.defaults.tcp_probe_timeout,
        Duration::from_secs(10)
    );
}

#[test]
fn preserves_structure() {
    let setup = parse_setup(sample_json());
    let yaml = generate_gantry_yaml(&setup, "demo").unwrap();

    let parsed: serde_yaml::Value = serde_yaml::from_str(&yaml).unwrap();

    let services = parsed["services"].as_mapping().unwrap();
    assert_eq!(services.len(), 2);

    let app = &parsed["services"]["app"];
    assert_eq!(app["container"].as_str(), Some("demo-app"));

    let start_after = app["start_after"].as_sequence().unwrap();
    assert_eq!(start_after[0].as_str(), Some("db.ready"));

    let tgt = &parsed["targets"]["integration"];
    let probes = tgt["probes"].as_sequence().unwrap();
    assert_eq!(probes[0].as_str(), Some("app.ready"));

    assert_eq!(
        parsed["defaults"]["tcp_probe_timeout"].as_str(),
        Some("10s")
    );
}

#[test]
fn no_defaults_when_absent() {
    let json = r#"{
          "services": {
            "db": {
              "image": "postgres:16",
              "probes": {
                "port": {"probe": {"type": "tcp", "port": 5432}}
              }
            }
          },
          "targets": {}
        }"#;
    let setup = parse_setup(json);
    let yaml = generate_gantry_yaml(&setup, "test").unwrap();
    assert!(!yaml.contains("defaults"));
}

#[test]
fn restart_on_fail_is_written() {
    let json = r#"{
          "services": {
            "db": {
              "image": "postgres:16",
              "restart_on_fail": false,
              "probes": {
                "port": {"probe": {"type": "tcp", "port": 5432}}
              }
            }
          },
          "targets": {},
          "defaults": {"restart_on_fail": true, "tcp_probe_timeout": "10s"}
        }"#;
    let yaml = generate_gantry_yaml(&parse_setup(json), "test").unwrap();
    let parsed: serde_yaml::Value = serde_yaml::from_str(&yaml).unwrap();
    assert_eq!(parsed["defaults"]["restart_on_fail"].as_bool(), Some(true));
    assert_eq!(parsed["services"]["db"]["restart_on_fail"].as_bool(), Some(false));
    assert!(!parse_config(&yaml).services.get("db").unwrap().restart_on_fail.unwrap());
}
