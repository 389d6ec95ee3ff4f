use gantry::config::{
    DefaultsConfig, GantryConfig, ProbeConfig, ProbeEntry, ServiceConfig, TargetConfig,
};
use gantry::duration::Duration;
use gantry::graph::DependencyGraph;
use gantry::model::ProbeRef;
use gantry::names::NameSet;
use gantry::ordered_map::OrderedMap;

#[test]
fn a_table_keeps_its_order() {
    let mut t: OrderedMap<usize> = OrderedMap::new();
    assert_eq!(t.len(), 0);
    for (i, name) in ["c", "a", "b"].iter().enumerate() {
        t.insert(name.to_string(), i);
    }
    assert_eq!(t.names(), vec!["c".to_string(), "a".to_string(), "b".to_string()]);
    // a name that is there keeps its place
    t.insert("c".to_string(), 9);
    assert_eq!(t.len(), 3);
    assert_eq!(t.get("c"), Some(&9));
    assert_eq!(t.position("c"), Some(0));
    assert_eq!(t.position("b"), Some(2));
    assert_eq!(t.position("d"), None);
    assert_eq!(t.get("d"), None);
    assert!(t.contains_key("a") && !t.contains_key("d"));
    *t.value_mut(1) = 7;
    assert_eq!((t.name(1).as_str(), *t.value(1)), ("a", 7));
}

#[test]
fn a_set_of_names_keeps_its_order() {
    let mut s = NameSet::new();
    assert!(s.insert("b"));
    assert!(s.insert("a"));
    assert!(!s.insert("b"));
    s.extend(&vec!["c".to_string(), "a".to_string()]);
    assert_eq!(s.to_list(), vec!["b".to_string(), "a".to_string(), "c".to_string()]);
    assert_eq!(s.len(), 3);
    assert_eq!(s.name(2), "c");
    assert!(s.contains("c") && !s.contains("d"));
}

fn probe(depends_on: &[&str]) -> ProbeEntry {
    ProbeEntry {
        probe: ProbeConfig::Tcp { host: None, port: 1, timeout: Duration::from_secs(1) },
        depends_on: depends_on.iter().map(|s| s.to_string()).collect(),
    }
}

/// A service `a` with the probe `p`, and one target `t`.
fn config(start_after: &str, depends_on: &[&str], probes: &str, targets: &str) -> GantryConfig {
    let list = |s: &str| -> Vec<String> {
        s.split_whitespace().map(|s| s.to_string()).collect()
    };
    let mut table = OrderedMap::new();
    table.insert("p".to_string(), probe(depends_on));
    let mut services = OrderedMap::new();
    services.insert(
        "a".to_string(),
        ServiceConfig {
            container: "c".to_string(),
            start_after: list(start_after),
            probes: table,
            restart_on_fail: None,
        },
    );
    let mut t = OrderedMap::new();
    t.insert("t".to_string(), TargetConfig { probes: list(probes), depends_on: list(targets) });
    GantryConfig { services, targets: t, defaults: DefaultsConfig::default() }
}

fn error(c: &GantryConfig) -> String {
    match DependencyGraph::build(c) {
        Ok(_) => panic!("the configuration is wrong"),
        Err(e) => e.to_string(),
    }
}

#[test]
fn every_mistake_in_a_configuration_is_told() {
    assert!(DependencyGraph::build(&config("", &[], "a.p", "")).is_ok());
    for (c, text) in [
        (config("x", &[], "", ""), "invalid probe reference in start_after: x"),
        (config("b.p", &[], "", ""), "service 'b' in start_after of 'a' does not exist"),
        (config("a.p", &[], "", ""), "start_after has a cycle involving service 'a'"),
        (config("", &["a.q"], "", ""), "probe 'a.q' in depends_on of 'a.p' does not exist"),
        (config("", &["a.p"], "", ""), "depends_on has a cycle involving probe 'a.p'"),
        (config("", &[], "", "t"), "target depends_on has a cycle involving target 't'"),
        (config("", &[], "a.q", ""), "target 't' references unknown probe 'a.q'"),
        (config("", &[], "", "u"), "target 't' depends on unknown target 'u'"),
    ] {
        assert!(c.fits_graph());
        assert_eq!(error(&c), format!("validation error: {text}"));
    }
}

#[test]
fn services_come_after_what_they_start_after() {
    let mut c = config("b.p", &[], "", "");
    let mut probes = OrderedMap::new();
    probes.insert("p".to_string(), probe(&[]));
    c.services.insert(
        "b".to_string(),
        ServiceConfig {
            container: "d".to_string(),
            start_after: vec![],
            probes,
            restart_on_fail: Some(false),
        },
    );
    let g = DependencyGraph::build(&c).ok().unwrap();
    assert_eq!(g.topo_order(), &vec!["b".to_string(), "a".to_string()]);
    assert_eq!(g.start_deps("a"), vec!["b".to_string()]);
    assert!(g.start_deps("b").is_empty());
    let both = vec!["a".to_string(), "b".to_string()];
    assert_eq!(
        g.topo_levels(&both),
        vec![vec!["b".to_string()], vec!["a".to_string()]]
    );
    assert!(!c.services.get("b").unwrap().restart_on_fail(&c.defaults));
    assert!(c.services.get("a").unwrap().restart_on_fail(&c.defaults));
}

#[test]
fn a_reference_is_read_back() {
    let r = ProbeRef::new("db", "a.b");
    assert_eq!(r.to_string(), "db.a.b");
    assert!(ProbeRef::parse("db.a.b").unwrap().same(&r));
    assert!(!r.same(&ProbeRef::new("db", "a")));
}
