//! What docker compose reads.
use crate::error::{ErrorModel, GantryError};
use crate::generator::schema::{
    ImageDef, ImageModel, ServiceDef, ServiceDefModel, SetupJson, SetupModel, VolumeConfig,
    VolumeModel,
};
use crate::generator::yaml::{write_yaml, yaml_of, yaml_result};
use crate::json::{
    table, table_json, text, texts, texts_json, with_text, with_text_table, with_texts, with_value,
    Json, JsonModel, Members,
};
use crate::json_text::json_text;
use crate::ordered_map::{Item, OrderedMap, Table};
use crate::text::{cat, Str};
use vstd::prelude::*;

verus! {

/// The service that gantry itself is.
pub open spec fn gantry_service(setup: Str) -> JsonModel {
    JsonModel::Object(
        seq![
            ("image"@, JsonModel::Text("ghcr.io/chaoyi/gantry:latest"@)),
            ("container_name"@, JsonModel::Text(setup + "-gantry"@)),
            ("ports"@, texts_json(seq!["9090:9090"@])),
            (
                "volumes"@,
                texts_json(
                    seq![
                        "/var/run/docker.sock:/var/run/docker.sock"@,
                        "./gantry.yaml:/etc/gantry/config.yaml:ro"@,
                    ],
                ),
            ),
        ],
    )
}

fn write_gantry_service(setup: &str) -> (r: Json)
    ensures
        r.model() == gantry_service(setup@),
{
    let mut ports: Vec<String> = Vec::new();
    ports.push("9090:9090".to_owned());
    assert(ports.deep_view() =~= seq!["9090:9090"@]);
    let mut volumes: Vec<String> = Vec::new();
    volumes.push("/var/run/docker.sock:/var/run/docker.sock".to_owned());
    volumes.push("./gantry.yaml:/etc/gantry/config.yaml:ro".to_owned());
    assert(volumes.deep_view() =~= seq![
        "/var/run/docker.sock:/var/run/docker.sock"@,
        "./gantry.yaml:/etc/gantry/config.yaml:ro"@,
    ]);
    let mut m = Members::new();
    m.put("image", text("ghcr.io/chaoyi/gantry:latest"));
    m.put("container_name", text(cat(setup, "-gantry").as_str()));
    m.put("ports", texts(&ports));
    m.put("volumes", texts(&volumes));
    assert(m.all() =~= gantry_service(setup@)->Object_0);
    m.object()
}

/// The image of a service, or the place where it is built.
pub open spec fn image_members(name: Str, image: ImageModel) -> Seq<(Str, JsonModel)> {
    match image {
        ImageModel::Prebuilt(i) => seq![("image"@, JsonModel::Text(i))],
        ImageModel::Build { .. } => seq![
            (
                "build"@,
                JsonModel::Object(
                    seq![
                        ("context"@, JsonModel::Text("./services/"@ + name)),
                        ("dockerfile"@, JsonModel::Text("Dockerfile"@)),
                    ],
                ),
            ),
        ],
    }
}

/// Members with a flag, if it is set to something.
pub open spec fn with_flag(m: Seq<(Str, JsonModel)>, name: Str, flag: Option<bool>) -> Seq<
    (Str, JsonModel),
> {
    match flag {
        Some(b) => m.push((name, JsonModel::Bool(b))),
        None => m,
    }
}

/// A service. What is empty is left out.
pub open spec fn compose_service(name: Str, d: ServiceDefModel) -> JsonModel {
    let m = image_members(name, d.image);
    let m = with_value(m, "command"@, d.command);
    let m = with_value(m, "entrypoint"@, d.entrypoint);
    let m = m.push(("container_name"@, JsonModel::Text(d.container_name)));
    let m = with_text(m, "user"@, d.user);
    let m = with_text(m, "working_dir"@, d.working_dir);
    let m = with_text(m, "hostname"@, d.hostname);
    let m = with_text_table(m, "environment"@, d.env);
    let m = with_texts(m, "ports"@, d.ports);
    let m = with_texts(m, "volumes"@, d.volumes);
    let m = with_texts(m, "cap_add"@, d.cap_add);
    let m = with_texts(m, "cap_drop"@, d.cap_drop);
    let m = if d.privileged == Some(true) {
        m.push(("privileged"@, JsonModel::Bool(true)))
    } else {
        m
    };
    let m = with_text_table(m, "labels"@, d.labels);
    let m = with_texts(m, "extra_hosts"@, d.extra_hosts);
    let m = with_flag(m, "init"@, d.init);
    JsonModel::Object(with_text(m, "stop_grace_period"@, d.stop_grace_period))
}

fn write_service(name: &str, d: &ServiceDef) -> (r: Json)
    requires
        d.ok(),
    ensures
        r.model() == compose_service(name@, d.deep_view()),
{
    let mut m = Members::new();
    match &d.image {
        ImageDef::Prebuilt(image) => {
            m.put("image", text(image.as_str()));
        },
        ImageDef::Build { .. } => {
            let mut build = Members::new();
            build.put("context", text(cat("./services/", name).as_str()));
            build.put("dockerfile", text("Dockerfile"));
            assert(build.all() =~= seq![
                ("context"@, JsonModel::Text("./services/"@ + name@)),
                ("dockerfile"@, JsonModel::Text("Dockerfile"@)),
            ]);
            m.put("build", build.object());
        },
    }
    assert(m.all() =~= image_members(name@, d.image.deep_view()));
    m.put_value("command", &d.command);
    m.put_value("entrypoint", &d.entrypoint);
    m.put("container_name", text(d.container_name.as_str()));
    m.put_text("user", &d.user);
    m.put_text("working_dir", &d.working_dir);
    m.put_text("hostname", &d.hostname);
    m.put_text_table("environment", &d.env);
    m.put_texts("ports", &d.ports);
    m.put_texts("volumes", &d.volumes);
    m.put_texts("cap_add", &d.cap_add);
    m.put_texts("cap_drop", &d.cap_drop);
    if let Some(true) = d.privileged {
        m.put("privileged", Json::Bool(true));
    }
    m.put_text_table("labels", &d.labels);
    m.put_texts("extra_hosts", &d.extra_hosts);
    if let Some(b) = d.init {
        m.put("init", Json::Bool(b));
    }
    m.put_text("stop_grace_period", &d.stop_grace_period);
    m.object()
}

/// The services: gantry itself, and some of the setup. One of the setup that has the name of
/// gantry takes its place.
pub open spec fn compose_services(s: SetupModel, names: Seq<Str>) -> Table<JsonModel>
    decreases names.len(),
{
    if names.len() == 0 {
        Table::empty().put("gantry"@, gantry_service(s.name))
    } else {
        compose_services(s, names.drop_last()).put(
            names.last(),
            compose_service(names.last(), s.services.at(names.last())),
        )
    }
}

/// A volume.
pub open spec fn volume_json(v: VolumeModel) -> JsonModel {
    JsonModel::Object(with_text(Seq::empty(), "driver"@, v.driver))
}

/// The volumes of a setup.
pub open spec fn volumes_json(t: Table<VolumeModel>) -> JsonModel {
    JsonModel::Object(
        Seq::new(t.keys.len(), |i: int| (t.keys[i], volume_json(t.at(t.keys[i])))),
    )
}

fn write_volumes(t: &OrderedMap<VolumeConfig>) -> (r: Json)
    requires
        t.wf(),
    ensures
        r.model() == volumes_json(t.deep_view()),
{
    let ghost m = t.deep_view();
    let ghost f = |i: int| (m.keys[i], volume_json(m.at(m.keys[i])));
    let mut out = Members::new();
    let n: usize = t.len();
    let mut i: usize = 0;
    assert(out.all() =~= Seq::new(0, f));
    while i < n
        invariant
            t.wf(),
            m == t.deep_view(),
            f == (|i: int| (m.keys[i], volume_json(m.at(m.keys[i])))),
            i <= n == m.keys.len(),
            out.all() == Seq::new(i as nat, f),
        decreases n - i,
    {
        let mut v = Members::new();
        v.put_text("driver", &t.value(i).driver);
        out.put(t.name(i).as_str(), v.object());
        i = i + 1;
        assert(out.all() =~= Seq::new(i as nat, f));
    }
    assert(out.all() =~= volumes_json(m)->Object_0);
    out.object()
}

/// All that docker compose reads.
pub open spec fn compose_json(s: SetupModel) -> JsonModel {
    let m = seq![("services"@, table_json(compose_services(s, s.services.keys)))];
    JsonModel::Object(
        if s.volumes.keys.len() > 0 {
            m.push(("volumes"@, volumes_json(s.volumes)))
        } else {
            m
        },
    )
}

/// Writes all that docker compose reads.
pub fn compose(setup: &SetupJson) -> (r: Json)
    requires
        setup.wf(),
    ensures
        r.model() == compose_json(setup.deep_view()),
{
    let ghost s = setup.deep_view();
    let ghost keys = s.services.keys;
    let mut services: OrderedMap<Json> = OrderedMap::new();
    services.insert("gantry".to_owned(), write_gantry_service(setup.name.as_str()));
    let n: usize = setup.services.len();
    let mut i: usize = 0;
    assert(keys.take(0) =~= Seq::<Str>::empty());
    while i < n
        invariant
            setup.wf(),
            s == setup.deep_view(),
            keys == s.services.keys,
            services.wf(),
            i <= n == keys.len(),
            services.deep_view() == compose_services(s, keys.take(i as int)),
        decreases n - i,
    {
        let ghost next = keys.take(i + 1);
        assert(next.drop_last() =~= keys.take(i as int));
        assert(next.last() == keys[i as int]);
        let name = setup.services.name(i);
        services.insert(name.clone(), write_service(name.as_str(), setup.services.value(i)));
        i = i + 1;
    }
    assert(keys.take(i as int) =~= keys);
    let mut m = Members::new();
    m.put("services", table(&services));
    if setup.volumes.len() > 0 {
        m.put("volumes", write_volumes(&setup.volumes));
    }
    assert(m.all() =~= compose_json(s)->Object_0);
    m.object()
}

/// Writes what docker compose reads, as YAML.
pub fn generate_compose(setup: &SetupJson) -> (r: Result<String, GantryError>)
    requires
        setup.wf(),
    ensures
        ({
            let want = yaml_result(yaml_of(json_text(compose_json(setup.deep_view()))));
            match r {
                Ok(s) => want == Ok::<Str, ErrorModel>(s@),
                Err(e) => want == Err::<Str, ErrorModel>(e.deep_view()),
            }
        }),
{
    write_yaml(&compose(setup))
}

} // verus!
