use gantry::generator::files::{
    can_be_filled, file_action, render_template, take_rendered, FileAction,
};
use gantry::generator::schema::{BuildDef, FileDef, ImageDef, ServiceDef, SetupJson};
use gantry::generator::validate::{list_sources, validate, Expected, Found, Source};
use gantry::json::Json;
use gantry::ordered_map::OrderedMap;

fn setup(services: OrderedMap<ServiceDef>) -> SetupJson {
    SetupJson {
        name: "test".into(),
        services,
        targets: OrderedMap::new(),
        defaults: None,
        files: vec![],
        volumes: OrderedMap::new(),
    }
}

fn service(image: ImageDef, files: Vec<FileDef>) -> ServiceDef {
    ServiceDef {
        container_name: "test-app".into(),
        image,
        config: None,
        env: OrderedMap::new(),
        ports: vec![],
        volumes: vec![],
        command: None,
        entrypoint: None,
        user: None,
        working_dir: None,
        hostname: None,
        cap_add: vec![],
        cap_drop: vec![],
        privileged: None,
        labels: OrderedMap::new(),
        extra_hosts: vec![],
        init: None,
        stop_grace_period: None,
        files,
        start_after: vec![],
        restart_on_fail: None,
        probes: OrderedMap::new(),
    }
}

fn build() -> ImageDef {
    ImageDef::Build { build: BuildDef { context: ".".into(), dockerfile: "Dockerfile".into() } }
}

fn file(src: &str, dst: &str, template: bool) -> FileDef {
    FileDef { src: src.into(), dst: dst.into(), template, context: None }
}

fn with_app(app: ServiceDef) -> SetupJson {
    let mut services = OrderedMap::new();
    services.insert("app".into(), app);
    setup(services)
}

fn missing(s: &Source) -> Found {
    let shown = match &s.context {
        Some(c) => format!("/base/{c}/{}", s.path),
        None => format!("/base/{}", s.path),
    };
    Found { shown, is_file: false, is_dir: false }
}

fn present(s: &Source) -> Found {
    let dir = s.expected == Expected::Directory;
    Found { is_file: !dir, is_dir: dir, ..missing(s) }
}

#[test]
fn validate_empty_setup() {
    let sources = list_sources(&setup(OrderedMap::new()));
    assert!(validate(&sources, &vec![]).is_ok());
}

#[test]
fn validate_missing_dockerfile() {
    let sources = list_sources(&with_app(service(build(), vec![])));
    let found: Vec<Found> = sources.iter().map(missing).collect();
    let err = validate(&sources, &found).unwrap_err();
    assert!(err.to_string().contains("Dockerfile not found"), "{}", err.to_string());
}

#[test]
fn validate_missing_file_source() {
    let files = vec![file("nonexistent.toml", "config.toml", false)];
    let sources = list_sources(&with_app(service(ImageDef::Prebuilt("nginx".into()), files)));
    let found: Vec<Found> = sources.iter().map(missing).collect();
    let err = validate(&sources, &found).unwrap_err();
    assert!(err.to_string().contains("file not found"), "{}", err.to_string());
}

#[test]
fn validate_collects_multiple_errors() {
    let files = vec![file("missing1.txt", "a.txt", false), file("missing2.txt", "b.txt", false)];
    let sources = list_sources(&with_app(service(build(), files)));
    let found: Vec<Found> = sources.iter().map(missing).collect();
    let err = validate(&sources, &found).unwrap_err();
    let msg = err.to_string();
    // Dockerfile + 2 missing files = 3 errors
    assert_eq!(msg.matches('\n').count(), 2, "expected 3 errors: {msg}");
}

#[test]
fn validate_all_present() {
    let files = vec![
        file("config.tmpl", "config.toml", true),
        file("migrations/", "migrations/", false),
    ];
    let sources = list_sources(&with_app(service(build(), files)));
    let found: Vec<Found> = sources.iter().map(present).collect();
    assert!(validate(&sources, &found).is_ok());
}

#[test]
fn errors_are_told_line_by_line() {
    let files = vec![file("t.tmpl", "t", true), file("d/", "d", false)];
    let sources = list_sources(&with_app(service(build(), files)));
    assert_eq!(sources.len(), 3);
    let mut found: Vec<Found> = sources.iter().map(missing).collect();
    found[1].is_dir = true;
    let err = validate(&sources, &found).unwrap_err();
    assert_eq!(
        err.to_string(),
        "validation error: service 'app': Dockerfile not found: /base/./Dockerfile\n\
         service 'app': file not found: /base/t.tmpl\n\
         service 'app': template source must be a file, not directory: /base/t.tmpl\n\
         service 'app': directory not found: /base/d/"
    );
}

#[test]
fn template_rendering() {
    let content = "[server]\nport = {{ port }}\nlog_level = \"{{ log_level }}\"\n";
    let context = Json::Object(vec![
        ("port".into(), Json::Num(8080)),
        ("log_level".into(), Json::Text("info".into())),
    ]);
    let content = render_template("config.toml.tmpl", content, &Some(context)).unwrap();
    assert!(content.contains("port = 8080"));
    assert!(content.contains("log_level = \"info\""));
}

#[test]
fn bad_template_returns_error() {
    let err = render_template("bad.tmpl", "{{ unclosed", &None);
    assert!(err.is_err());
    let text = err.unwrap_err().to_string();
    assert!(text.starts_with("config error: template parse error in bad.tmpl: "), "{text}");
}

#[test]
fn template_errors_are_told_apart() {
    let err = render_template("a.tmpl", "x", &Some(Json::Num(1))).unwrap_err().to_string();
    assert_eq!(
        err,
        "config error: template context error: Creating a Context from a Value/Serialize \
         requires it being a JSON object"
    );
    let err = render_template("a.tmpl", "{{ absent }}", &None).unwrap_err().to_string();
    assert!(err.starts_with("config error: template render error in a.tmpl: "), "{err}");
    assert_eq!(render_template("a.tmpl", "plain", &None).unwrap(), "plain");
    assert_eq!(take_rendered("b", Ok("c".into())).unwrap(), "c");
    let err = take_rendered("b", Err("e".into())).unwrap_err().to_string();
    assert_eq!(err, "config error: template render error in b: e");
}

#[test]
fn a_file_is_copied_or_filled_in() {
    assert_eq!(file_action(&file("a", "b", true)), FileAction::Render);
    assert_eq!(file_action(&file("a/", "b", true)), FileAction::Render);
    assert_eq!(file_action(&file("a/", "b", false)), FileAction::CopyDirectory);
    assert_eq!(file_action(&file("a", "b", false)), FileAction::CopyFile);
}

#[test]
fn missing_names_are_filled_in() {
    let mut app = service(build(), vec![]);
    app.container_name = String::new();
    let mut s = with_app(app);
    s.name = String::new();
    s.services.insert("db".into(), service(build(), vec![]));
    s.fill_names("demo");
    assert_eq!(s.name, "demo");
    assert_eq!(s.services.get("app").unwrap().container_name, "demo-app");
    assert_eq!(s.services.get("db").unwrap().container_name, "test-app");
}

#[test]
fn a_missing_shared_file_is_told() {
    let mut s = setup(OrderedMap::new());
    s.files = vec![file("shared/nginx.conf", "nginx.conf", false), file("certs/", "certs", false)];
    let sources = list_sources(&s);
    assert_eq!(sources.len(), 2);
    assert_eq!(sources[0].service, None);
    let found: Vec<Found> = sources.iter().map(missing).collect();
    let err = validate(&sources, &found).unwrap_err().to_string();
    assert_eq!(
        err,
        "validation error: shared files: file not found: /base/shared/nginx.conf\n\
         shared files: directory not found: /base/certs/"
    );
    let found: Vec<Found> = sources.iter().map(present).collect();
    assert!(validate(&sources, &found).is_ok());
}

#[test]
fn templates_that_may_never_end_are_not_handed_over() {
    for good in [
        "port = {{ port }}",
        "{% for p in ports %}{{ p | upper }}{% else %}none{% endfor %}",
        "{%- if a.b is defined and (c == 1 or not d) -%}x{%- endif -%}",
        "{{ name | default(value=\"db\") | trim }}",
        "include the template: macro f::g, 99999999999999999999, a + b {# get_random( #}",
        "{{ unclosed",
        "{{ port + 1 }} {{ a - b }}",
        "{{ a * 2 / b }} {{ -1 }}",
        "{% block a %}x{% endblock %}{% block b %}y{% endblock %}",
        "{{ __tera_context }}",
        "{% set x = y %}{{ x | upper }}",
    ] {
        assert!(can_be_filled(good, &None), "{good}");
    }
    for bad in [
        "{{ get_random(start=1, end=1) }}",
        "{% for i in range(end=3, step_by=0) %}{% endfor %}",
        "{% macro f() %}{{ self::f() }}{% endmacro %}",
        "{% include \"template\" %}",
        "{{ 9999999999999999 | date }}",
        "{{ a * a + a }}",
        "{{ a % b }}",
        "{% set x = x + x %}",
        "{% block a %}{% if true %}{% block a %}x{% endblock %}{% endif %}{% endblock %}",
        "{% set a = __tera_context %}{% set b = __tera_context %}",
        "{{ a(x=a(x=a(x=a(x=1)))) }}",
        "{{ ((((a)))) }}",
        "{% raw %}{{ \"{% endraw %}",
        "{{ 1234567890123456789 }}",
        "{{ a | json_encode | json_encode }}",
        "{% set x = y | join(sep=z) %}",
    ] {
        assert!(!can_be_filled(bad, &None), "{bad}");
    }
    let deep = "{% if a %}".repeat(9);
    assert!(!can_be_filled(&deep, &None));
    assert!(can_be_filled(&"{% if a %}{% endif %}".repeat(9), &None));
    let word = |w: &str| Some(Json::Object(vec![("w".into(), Json::Text(w.into()))]));
    let spell = "{% for c in w %}{{ c }}{% endfor %}";
    assert!(!can_be_filled(spell, &word("e\u{301}")));
    assert!(can_be_filled(spell, &word("caf\u{e9} \u{4e2d}\u{6587}")));
    assert!(can_be_filled("{{ w }}", &word("e\u{301}")));
    assert!(!can_be_filled(spell, &word("\u{1}")));
    assert!(!can_be_filled("{{ w + 1 }}", &word("1e9")));
    assert!(!can_be_filled("{{ w + 1 }}", &word(&"9".repeat(301))));
    assert!(can_be_filled("{{ w + 1 }}", &word(&"9".repeat(300))));
}

#[test]
fn loops_and_conditions_are_filled_in() {
    let ports = Json::List(vec![Json::Num(1), Json::Num(2)]);
    let context = Json::Object(vec![("ports".into(), ports), ("on".into(), Json::Bool(true))]);
    let text = "{% if on %}{% for p in ports %}{{ p }};{% endfor %}{% endif %}";
    assert_eq!(render_template("a.tmpl", text, &Some(context)).unwrap(), "1;2;");
}

#[test]
fn sums_are_filled_in() {
    let context = Json::Object(vec![("port".into(), Json::Num(5432))]);
    let out = render_template("a.tmpl", "{{ port + 1 }}, {{ port - 1 }}", &Some(context));
    assert_eq!(out.unwrap(), "5433, 5431");
}

#[test]
fn a_context_reaches_the_template() {
    let context = Json::Object(vec![("port".into(), Json::Num(5432))]);
    let out = render_template("a.tmpl", "port = {{ port }}", &Some(context));
    assert_eq!(out.unwrap(), "port = 5432");
}
