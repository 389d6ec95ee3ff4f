use gantry::generator::compose::generate_compose;
use gantry::generator::schema::{
    BackoffDef, BuildDef, DefaultsDef, FileDef, ImageDef, ProbeDef, ProbeEntryDef, ServiceDef,
    SetupJson, TargetDef, VolumeConfig,
};
use gantry::json::Json;
use gantry::ordered_map::OrderedMap;
use serde_json::Value;

fn json_of(v: &Value) -> Json {
    match v {
        Value::Null => Json::Null,
        Value::Bool(b) => Json::Bool(*b),
        Value::Number(n) => match n.as_u64() {
            Some(m) => Json::Num(m),
            None => Json::Raw(n.to_string()),
        },
        Value::String(s) => Json::Text(s.clone()),
        Value::Array(list) => Json::List(list.iter().map(json_of).collect()),
        Value::Object(map) => {
            Json::Object(map.iter().map(|(k, v)| (k.clone(), json_of(v))).collect())
        }
    }
}

fn text(v: &Value) -> Option<String> {
    v.as_str().map(|s| s.to_string())
}

fn value(v: &Value) -> Option<Json> {
    match v {
        Value::Null => None,
        _ => Some(json_of(v)),
    }
}

fn list(v: &Value) -> Vec<String> {
    match v.as_array() {
        Some(a) => a.iter().map(|t| t.as_str().unwrap().to_string()).collect(),
        None => Vec::new(),
    }
}

fn table(v: &Value) -> OrderedMap<String> {
    let mut t = OrderedMap::new();
    if let Some(map) = v.as_object() {
        for (k, v) in map {
            t.insert(k.clone(), v.as_str().unwrap().to_string());
        }
    }
    t
}

fn files(v: &Value) -> Vec<FileDef> {
    match v.as_array() {
        Some(a) => a
            .iter()
            .map(|f| FileDef {
                src: text(&f["src"]).unwrap(),
                dst: text(&f["dst"]).unwrap(),
                template: f["template"].as_bool().unwrap_or(false),
                context: value(&f["context"]),
            })
            .collect(),
        None => Vec::new(),
    }
}

fn probes(v: &Value) -> OrderedMap<ProbeEntryDef> {
    let mut t = OrderedMap::new();
    if let Some(map) = v.as_object() {
        for (k, e) in map {
            let mut extra = OrderedMap::new();
            for (name, field) in e["probe"].as_object().unwrap() {
                if name != "type" {
                    extra.insert(name.clone(), json_of(field));
                }
            }
            t.insert(
                k.clone(),
                ProbeEntryDef {
                    probe: ProbeDef { probe_type: text(&e["probe"]["type"]).unwrap(), extra },
                    depends_on: list(&e["depends_on"]),
                },
            );
        }
    }
    t
}

fn service(v: &Value) -> ServiceDef {
    ServiceDef {
        container_name: text(&v["container_name"]).unwrap_or_default(),
        image: match v["image"].as_str() {
            Some(i) => ImageDef::Prebuilt(i.to_string()),
            None => ImageDef::Build {
                build: BuildDef {
                    context: text(&v["image"]["build"]["context"]).unwrap(),
                    dockerfile: text(&v["image"]["build"]["dockerfile"]).unwrap(),
                },
            },
        },
        config: value(&v["config"]),
        env: table(&v["env"]),
        ports: list(&v["ports"]),
        volumes: list(&v["volumes"]),
        command: value(&v["command"]),
        entrypoint: value(&v["entrypoint"]),
        user: text(&v["user"]),
        working_dir: text(&v["working_dir"]),
        hostname: text(&v["hostname"]),
        cap_add: list(&v["cap_add"]),
        cap_drop: list(&v["cap_drop"]),
        privileged: v["privileged"].as_bool(),
        labels: table(&v["labels"]),
        extra_hosts: list(&v["extra_hosts"]),
        init: v["init"].as_bool(),
        stop_grace_period: text(&v["stop_grace_period"]),
        files: files(&v["files"]),
        start_after: list(&v["start_after"]),
        restart_on_fail: v["restart_on_fail"].as_bool(),
        probes: probes(&v["probes"]),
    }
}

fn parse_setup(json: &str) -> SetupJson {
    let v: Value = serde_json::from_str(json).unwrap();
    let mut services = OrderedMap::new();
    for (k, s) in v["services"].as_object().unwrap() {
        services.insert(k.clone(), service(s));
    }
    let mut targets = OrderedMap::new();
    if let Some(map) = v["targets"].as_object() {
        for (k, t) in map {
            targets.insert(
                k.clone(),
                TargetDef { probes: list(&t["probes"]), depends_on: list(&t["depends_on"]) },
            );
        }
    }
    let mut volumes = OrderedMap::new();
    if let Some(map) = v["volumes"].as_object() {
        for (k, d) in map {
            volumes.insert(k.clone(), VolumeConfig { driver: text(&d["driver"]) });
        }
    }
    let d = &v["defaults"];
    let b = &d["probe_backoff"];
    let defaults = d.as_object().map(|_| DefaultsDef {
        tcp_probe_timeout: text(&d["tcp_probe_timeout"]),
        log_probe_timeout: text(&d["log_probe_timeout"]),
        restart_on_fail: d["restart_on_fail"].as_bool(),
        probe_backoff: b.as_object().map(|_| BackoffDef {
            initial: text(&b["initial"]),
            max: text(&b["max"]),
            multiplier: b["multiplier"].as_f64().map(|m| format!("{m:?}")),
        }),
    });
    SetupJson {
        name: text(&v["name"]).unwrap_or_default(),
        services,
        targets,
        defaults,
        files: files(&v["files"]),
        volumes,
    }
}


fn sample_json() -> &'static str {
    r#"{
          "name": "demo",
          "services": {
            "db": {
              "container_name": "demo-db",
              "image": "postgres:16",
              "env": {"POSTGRES_PASSWORD": "dev"},
              "ports": ["5432"],
              "capabilities": {
                "port": {"probe": {"type": "tcp", "port": 5432}}
              }
            },
            "app": {
              "container_name": "demo-app",
              "image": {"build": {"context": ".", "dockerfile": "Dockerfile"}},
              "env": {"DATABASE_URL": "postgres://db:5432/app"},
              "ports": ["8080"],
              "capabilities": {
                "http": {"probe": {"type": "tcp", "port": 8080}}
              }
            }
          }
        }"#
}

#[test]
fn generates_compose_yaml() {
    let setup = parse_setup(sample_json());
    let yaml = generate_compose(&setup).unwrap();

    // Parse back to verify structure
    let parsed: serde_yaml::Value = serde_yaml::from_str(&yaml).unwrap();
    let services = parsed["services"].as_mapping().unwrap();

    // Gantry service present
    assert!(services.contains_key(&serde_yaml::Value::String("gantry".into())));

    // User services present
    assert!(services.contains_key(&serde_yaml::Value::String("db".into())));
    assert!(services.contains_key(&serde_yaml::Value::String("app".into())));
}

#[test]
fn gantry_service_correct() {
    let setup = parse_setup(sample_json());
    let yaml = generate_compose(&setup).unwrap();

    assert!(yaml.contains("ghcr.io/chaoyi/gantry:latest"));
    assert!(!yaml.contains("command:"));
    assert!(yaml.contains("/var/run/docker.sock"));
    assert!(yaml.contains("gantry.yaml:/etc/gantry/config.yaml:ro"));
    assert!(yaml.contains("9090:9090"));
    assert!(yaml.contains("container_name: demo-gantry"));
}

#[test]
fn prebuilt_image_has_no_build() {
    let setup = parse_setup(sample_json());
    let yaml = generate_compose(&setup).unwrap();

    // Parse and check db service
    let parsed: serde_yaml::Value = serde_yaml::from_str(&yaml).unwrap();
    let db = &parsed["services"]["db"];
    assert_eq!(db["image"].as_str(), Some("postgres:16"));
    assert!(db["build"].is_null());
}

#[test]
fn build_image_has_no_image_field() {
    let setup = parse_setup(sample_json());
    let yaml = generate_compose(&setup).unwrap();

    let parsed: serde_yaml::Value = serde_yaml::from_str(&yaml).unwrap();
    let app = &parsed["services"]["app"];
    assert!(app["image"].is_null());
    assert_eq!(app["build"]["context"].as_str(), Some("./services/app"));
    assert_eq!(app["build"]["dockerfile"].as_str(), Some("Dockerfile"));
}

#[test]
fn container_names() {
    let setup = parse_setup(sample_json());
    let yaml = generate_compose(&setup).unwrap();

    assert!(yaml.contains("container_name: demo-db"));
    assert!(yaml.contains("container_name: demo-app"));
    assert!(yaml.contains("container_name: demo-gantry"));
}

#[test]
fn no_depends_on_or_healthcheck() {
    let setup = parse_setup(sample_json());
    let yaml = generate_compose(&setup).unwrap();

    assert!(!yaml.contains("depends_on"));
    assert!(!yaml.contains("healthcheck"));
}

#[test]
fn environment_no_host_ports() {
    let setup = parse_setup(sample_json());
    let yaml = generate_compose(&setup).unwrap();

    assert!(yaml.contains("POSTGRES_PASSWORD"));
    assert!(yaml.contains("DATABASE_URL"));
    // User services get no host port mapping (Docker network handles it)
    assert!(!yaml.contains("5432:5432"));
    assert!(!yaml.contains("8080:8080"));
    // Only gantry gets host-mapped ports for the UI
    assert!(yaml.contains("9090:9090"));
}

#[test]
fn new_compose_fields_pass_through() {
    let json = r#"{
          "name": "test",
          "services": {
            "vpn": {
              "container_name": "test-vpn",
              "image": "wireguard:latest",
              "entrypoint": ["/init.sh", "--start"],
              "user": "1000:1000",
              "working_dir": "/app",
              "hostname": "vpn-node",
              "cap_add": ["NET_ADMIN"],
              "cap_drop": ["ALL"],
              "privileged": true,
              "labels": {"com.example.env": "dev"},
              "extra_hosts": ["host.docker.internal:host-gateway"],
              "init": true,
              "stop_grace_period": "30s",
              "probes": {}
            }
          },
          "volumes": {
            "pgdata": {"driver": "local"},
            "cache": {}
          }
        }"#;
    let setup = parse_setup(json);
    let yaml = generate_compose(&setup).unwrap();

    // Verify new fields appear in output
    assert!(yaml.contains("entrypoint:"), "missing entrypoint");
    assert!(
        yaml.contains("user:") && yaml.contains("1000:1000"),
        "missing user, yaml:\n{yaml}"
    );
    assert!(yaml.contains("working_dir: /app"), "missing working_dir");
    assert!(yaml.contains("hostname: vpn-node"), "missing hostname");
    assert!(yaml.contains("cap_add:"), "missing cap_add");
    assert!(yaml.contains("NET_ADMIN"), "missing NET_ADMIN in cap_add");
    assert!(yaml.contains("cap_drop:"), "missing cap_drop");
    assert!(yaml.contains("privileged: true"), "missing privileged");
    assert!(yaml.contains("com.example.env"), "missing labels");
    assert!(yaml.contains("extra_hosts:"), "missing extra_hosts");
    assert!(
        yaml.contains("host.docker.internal:host-gateway"),
        "missing extra_hosts entry"
    );
    assert!(yaml.contains("init: true"), "missing init");
    assert!(
        yaml.contains("stop_grace_period:"),
        "missing stop_grace_period"
    );

    // Top-level volumes
    let parsed: serde_yaml::Value = serde_yaml::from_str(&yaml).unwrap();
    let vols = parsed["volumes"].as_mapping().unwrap();
    assert_eq!(vols.len(), 2);
}

#[test]
fn new_fields_omitted_when_empty() {
    // Existing sample_json has none of the new fields — they should not appear
    let setup = parse_setup(sample_json());
    let yaml = generate_compose(&setup).unwrap();

    assert!(
        !yaml.contains("entrypoint:"),
        "entrypoint should be omitted"
    );
    assert!(!yaml.contains("user:"), "user should be omitted");
    assert!(
        !yaml.contains("working_dir:"),
        "working_dir should be omitted"
    );
    assert!(!yaml.contains("hostname:"), "hostname should be omitted");
    assert!(!yaml.contains("cap_add:"), "cap_add should be omitted");
    assert!(!yaml.contains("cap_drop:"), "cap_drop should be omitted");
    assert!(
        !yaml.contains("privileged:"),
        "privileged should be omitted"
    );
    assert!(!yaml.contains("labels:"), "labels should be omitted");
    assert!(
        !yaml.contains("extra_hosts:"),
        "extra_hosts should be omitted"
    );
    assert!(!yaml.contains("init:"), "init should be omitted");
    assert!(
        !yaml.contains("stop_grace_period:"),
        "stop_grace_period should be omitted"
    );
    // No top-level volumes key
    let parsed: serde_yaml::Value = serde_yaml::from_str(&yaml).unwrap();
    assert!(
        parsed["volumes"].is_null(),
        "top-level volumes should be omitted"
    );
}
