//! What is read back of the documents that are generated.
use crate::generator::compose::{
    compose_json, compose_service, compose_services, gantry_service, image_members, volume_json,
    volumes_json, with_flag,
};
use crate::generator::gantry_yaml::{
    backoff_json, defaults_json, entry_json, gantry_json, probe_fields, service_json, target_json,
};
use crate::generator::schema::{
    BackoffModel, DefaultsModel, ImageModel, ProbeEntryDefModel, ServiceDefModel, SetupModel,
    TargetDefModel,
};
use crate::json::{
    table_json, texts_json, with_text, with_text_table, with_texts, with_value, JsonModel,
};
use crate::json_laws::{
    added, field, found, lemma_adds_flag, lemma_adds_table, lemma_adds_text, lemma_adds_texts,
    lemma_adds_value, lemma_listed, lemma_mapped_valid, lemma_one, lemma_push, lemma_table_field,
    lemma_two, reads_flag, reads_list, reads_table, reads_text, reads_texts,
};
use crate::ordered_map::{lemma_put_valid, map_table, Table};
use crate::text::Str;
use vstd::prelude::*;

verus! {

/// Whether a name is told from others by its length and its first letters.
spec fn begins(s: Str, n: nat, a: char, b: char) -> bool {
    s.len() == n && s[0] == a && s[1] == b
}

proof fn lemma_service_names()
    ensures
        begins("image"@, 5, 'i', 'm'),
        begins("build"@, 5, 'b', 'u'),
        begins("command"@, 7, 'c', 'o'),
        begins("entrypoint"@, 10, 'e', 'n'),
        begins("container_name"@, 14, 'c', 'o'),
        begins("user"@, 4, 'u', 's'),
        begins("working_dir"@, 11, 'w', 'o'),
        begins("hostname"@, 8, 'h', 'o'),
        begins("environment"@, 11, 'e', 'n'),
        begins("ports"@, 5, 'p', 'o'),
        begins("volumes"@, 7, 'v', 'o'),
        begins("cap_add"@, 7, 'c', 'a'),
        begins("cap_drop"@, 8, 'c', 'a'),
        begins("privileged"@, 10, 'p', 'r'),
        begins("labels"@, 6, 'l', 'a'),
        begins("extra_hosts"@, 11, 'e', 'x'),
        begins("init"@, 4, 'i', 'n'),
        begins("stop_grace_period"@, 17, 's', 't'),
{
    reveal_strlit("image");
    reveal_strlit("build");
    reveal_strlit("command");
    reveal_strlit("entrypoint");
    reveal_strlit("container_name");
    reveal_strlit("user");
    reveal_strlit("working_dir");
    reveal_strlit("hostname");
    reveal_strlit("environment");
    reveal_strlit("ports");
    reveal_strlit("volumes");
    reveal_strlit("cap_add");
    reveal_strlit("cap_drop");
    reveal_strlit("privileged");
    reveal_strlit("labels");
    reveal_strlit("extra_hosts");
    reveal_strlit("init");
    reveal_strlit("stop_grace_period");
}

/// Whether a name is one of those that a service of docker compose may have.
pub open spec fn service_name(n: Str) -> bool {
    n == "image"@ || n == "build"@ || n == "command"@ || n == "entrypoint"@
        || n == "container_name"@ || n == "user"@ || n == "working_dir"@ || n == "hostname"@
        || n == "environment"@ || n == "ports"@ || n == "volumes"@ || n == "cap_add"@
        || n == "cap_drop"@ || n == "privileged"@ || n == "labels"@ || n == "extra_hosts"@
        || n == "init"@ || n == "stop_grace_period"@
}

/// Whether a service of docker compose says all that its definition says, and nothing else: the
/// image or the place where it is built, and each other thing under its name, if it is there.
pub open spec fn tells_service(j: JsonModel, name: Str, d: ServiceDefModel) -> bool {
    &&& match d.image {
        ImageModel::Prebuilt(image) => field(j, "image"@) == Some(JsonModel::Text(image)) && field(
            j,
            "build"@,
        ) is None,
        ImageModel::Build { .. } => field(j, "image"@) is None && (field(j, "build"@) matches Some(b)
            && field(b, "context"@) == Some(JsonModel::Text("./services/"@ + name)) && field(
            b,
            "dockerfile"@,
        ) == Some(JsonModel::Text("Dockerfile"@))),
    }
    &&& field(j, "command"@) == d.command
    &&& field(j, "entrypoint"@) == d.entrypoint
    &&& field(j, "container_name"@) == Some(JsonModel::Text(d.container_name))
    &&& reads_text(field(j, "user"@), d.user)
    &&& reads_text(field(j, "working_dir"@), d.working_dir)
    &&& reads_text(field(j, "hostname"@), d.hostname)
    &&& reads_table(field(j, "environment"@), d.env)
    &&& reads_texts(field(j, "ports"@), d.ports)
    &&& reads_texts(field(j, "volumes"@), d.volumes)
    &&& reads_texts(field(j, "cap_add"@), d.cap_add)
    &&& reads_texts(field(j, "cap_drop"@), d.cap_drop)
    &&& field(j, "privileged"@) == (if d.privileged == Some(true) {
        Some(JsonModel::Bool(true))
    } else {
        None
    })
    &&& reads_table(field(j, "labels"@), d.labels)
    &&& reads_texts(field(j, "extra_hosts"@), d.extra_hosts)
    &&& reads_flag(field(j, "init"@), d.init)
    &&& reads_text(field(j, "stop_grace_period"@), d.stop_grace_period)
    &&& forall|n: Str| #[trigger] field(j, n) is Some ==> service_name(n)
}

/// What a name leads to in a service that docker compose reads.
proof fn lemma_service_field(name: Str, d: ServiceDefModel, n: Str)
    ensures
        ({
            let there = field(compose_service(name, d), n);
            let first = found(image_members(name, d.image), n);
            &&& n == "image"@ || n == "build"@ ==> there == first
            &&& n == "command"@ ==> there == d.command
            &&& n == "entrypoint"@ ==> there == d.entrypoint
            &&& n == "container_name"@ ==> there == Some(JsonModel::Text(d.container_name))
            &&& n == "user"@ ==> reads_text(there, d.user)
            &&& n == "working_dir"@ ==> reads_text(there, d.working_dir)
            &&& n == "hostname"@ ==> reads_text(there, d.hostname)
            &&& n == "environment"@ ==> reads_table(there, d.env)
            &&& n == "ports"@ ==> reads_texts(there, d.ports)
            &&& n == "volumes"@ ==> reads_texts(there, d.volumes)
            &&& n == "cap_add"@ ==> reads_texts(there, d.cap_add)
            &&& n == "cap_drop"@ ==> reads_texts(there, d.cap_drop)
            &&& n == "privileged"@ ==> there == (if d.privileged == Some(true) {
                Some(JsonModel::Bool(true))
            } else {
                None
            })
            &&& n == "labels"@ ==> reads_table(there, d.labels)
            &&& n == "extra_hosts"@ ==> reads_texts(there, d.extra_hosts)
            &&& n == "init"@ ==> reads_flag(there, d.init)
            &&& n == "stop_grace_period"@ ==> reads_text(there, d.stop_grace_period)
            &&& there is Some ==> service_name(n)
        }),
{
    lemma_service_names();
    let m = image_members(name, d.image);
    lemma_image(name, d.image, n);
    lemma_adds_value(m, "command"@, d.command, n);
    let m = with_value(m, "command"@, d.command);
    lemma_adds_value(m, "entrypoint"@, d.entrypoint, n);
    let m = with_value(m, "entrypoint"@, d.entrypoint);
    lemma_push(m, "container_name"@, JsonModel::Text(d.container_name), n);
    let m = m.push(("container_name"@, JsonModel::Text(d.container_name)));
    lemma_adds_text(m, "user"@, d.user, n);
    let m = with_text(m, "user"@, d.user);
    lemma_adds_text(m, "working_dir"@, d.working_dir, n);
    let m = with_text(m, "working_dir"@, d.working_dir);
    lemma_adds_text(m, "hostname"@, d.hostname, n);
    let m = with_text(m, "hostname"@, d.hostname);
    lemma_adds_table(m, "environment"@, d.env, n);
    let m = with_text_table(m, "environment"@, d.env);
    lemma_adds_texts(m, "ports"@, d.ports, n);
    let m = with_texts(m, "ports"@, d.ports);
    lemma_adds_texts(m, "volumes"@, d.volumes, n);
    let m = with_texts(m, "volumes"@, d.volumes);
    lemma_adds_texts(m, "cap_add"@, d.cap_add, n);
    let m = with_texts(m, "cap_add"@, d.cap_add);
    lemma_adds_texts(m, "cap_drop"@, d.cap_drop, n);
    let m = with_texts(m, "cap_drop"@, d.cap_drop);
    let flag: Option<bool> = if d.privileged == Some(true) {
        Some(true)
    } else {
        None
    };
    lemma_adds_flag(m, "privileged"@, flag, n);
    let m = with_flag(m, "privileged"@, flag);
    lemma_adds_table(m, "labels"@, d.labels, n);
    let m = with_text_table(m, "labels"@, d.labels);
    lemma_adds_texts(m, "extra_hosts"@, d.extra_hosts, n);
    let m = with_texts(m, "extra_hosts"@, d.extra_hosts);
    lemma_adds_flag(m, "init"@, d.init, n);
    let m = with_flag(m, "init"@, d.init);
    lemma_adds_text(m, "stop_grace_period"@, d.stop_grace_period, n);
    let m = with_text(m, "stop_grace_period"@, d.stop_grace_period);
    assert(compose_service(name, d) == JsonModel::Object(m));
}

proof fn lemma_image(name: Str, image: ImageModel, n: Str)
    ensures
        ({
            let there = found(image_members(name, image), n);
            match image {
                ImageModel::Prebuilt(i) => there == added(
                    None,
                    "image"@,
                    Some(JsonModel::Text(i)),
                    n,
                ),
                ImageModel::Build { .. } => (there is Some <==> n == "build"@) && (there matches Some(
                    b,
                ) ==> field(b, "context"@) == Some(JsonModel::Text("./services/"@ + name)) && field(
                    b,
                    "dockerfile"@,
                ) == Some(JsonModel::Text("Dockerfile"@))),
            }
        }),
{
    let place = JsonModel::Text("./services/"@ + name);
    let file = JsonModel::Text("Dockerfile"@);
    let build = seq![("context"@, place), ("dockerfile"@, file)];
    match image {
        ImageModel::Prebuilt(i) => {
            lemma_one("image"@, JsonModel::Text(i), n);
        },
        ImageModel::Build { .. } => {
            lemma_one("build"@, JsonModel::Object(build), n);
            lemma_two("context"@, place, "dockerfile"@, file, "context"@);
            lemma_two("context"@, place, "dockerfile"@, file, "dockerfile"@);
            reveal_strlit("context");
            reveal_strlit("dockerfile");
            assert("context"@.len() == 7 && "dockerfile"@.len() == 10);
        },
    }
}

/// The service that docker compose reads says all that its definition says, and nothing else.
pub proof fn law_service_reads_back(name: Str, d: ServiceDefModel)
    ensures
        tells_service(compose_service(name, d), name, d),
{
    lemma_service_names();
    let j = compose_service(name, d);
    lemma_service_field(name, d, "image"@);
    lemma_service_field(name, d, "build"@);
    lemma_service_field(name, d, "command"@);
    lemma_service_field(name, d, "entrypoint"@);
    lemma_service_field(name, d, "container_name"@);
    lemma_service_field(name, d, "user"@);
    lemma_service_field(name, d, "working_dir"@);
    lemma_service_field(name, d, "hostname"@);
    lemma_service_field(name, d, "environment"@);
    lemma_service_field(name, d, "ports"@);
    lemma_service_field(name, d, "volumes"@);
    lemma_service_field(name, d, "cap_add"@);
    lemma_service_field(name, d, "cap_drop"@);
    lemma_service_field(name, d, "privileged"@);
    lemma_service_field(name, d, "labels"@);
    lemma_service_field(name, d, "extra_hosts"@);
    lemma_service_field(name, d, "init"@);
    lemma_service_field(name, d, "stop_grace_period"@);
    lemma_image(name, d.image, "image"@);
    lemma_image(name, d.image, "build"@);
    assert forall|n: Str| #[trigger] field(j, n) is Some implies service_name(n) by {
        lemma_service_field(name, d, n);
    }
}

proof fn lemma_compose_services(s: SetupModel, names: Seq<Str>, n: Str)
    ensures
        ({
            let t = compose_services(s, names);
            &&& t.valid()
            &&& t.has(n) <==> n == "gantry"@ || names.contains(n)
            &&& names.contains(n) ==> t.at(n) == compose_service(n, s.services.at(n))
            &&& !names.contains(n) && n == "gantry"@ ==> t.at(n) == gantry_service(s.name)
        }),
    decreases names.len(),
{
    let t = compose_services(s, names);
    if names.len() == 0 {
        lemma_put_valid(Table::empty(), "gantry"@, gantry_service(s.name));
    } else {
        let front = names.drop_last();
        lemma_compose_services(s, front, n);
        let last = names.last();
        lemma_put_valid(
            compose_services(s, front),
            last,
            compose_service(last, s.services.at(last)),
        );
        assert(names[names.len() - 1] == last);
        if front.contains(n) {
            let i = choose|i: int| 0 <= i < front.len() && front[i] == n;
            assert(names[i] == n);
        }
        if names.contains(n) && n != last {
            let i = choose|i: int| 0 <= i < names.len() && names[i] == n;
            assert(front[i] == n);
        }
    }
}

/// Whether a service of docker compose is gantry: its image, a container that is named after the
/// setup, its port, the socket of docker and what gantry reads.
pub open spec fn tells_gantry(j: JsonModel, setup: Str) -> bool {
    &&& field(j, "image"@) == Some(JsonModel::Text("ghcr.io/chaoyi/gantry:latest"@))
    &&& field(j, "container_name"@) == Some(JsonModel::Text(setup + "-gantry"@))
    &&& reads_list(field(j, "ports"@), seq!["9090:9090"@])
    &&& reads_list(
        field(j, "volumes"@),
        seq![
            "/var/run/docker.sock:/var/run/docker.sock"@,
            "./gantry.yaml:/etc/gantry/config.yaml:ro"@,
        ],
    )
}

proof fn lemma_gantry(setup: Str)
    ensures
        tells_gantry(gantry_service(setup), setup),
{
    let all = gantry_service(setup)->Object_0;
    let image = JsonModel::Text("ghcr.io/chaoyi/gantry:latest"@);
    let container = JsonModel::Text(setup + "-gantry"@);
    lemma_service_names();
    let first = seq![("image"@, image), ("container_name"@, container)];
    let third = first.push(("ports"@, all[2].1));
    assert(all =~= third.push(("volumes"@, all[3].1)));
    assert forall|n: Str|
        n == "image"@ || n == "container_name"@ || n == "ports"@ || n == "volumes"@ implies
        #[trigger] found(all, n) == (if n == "image"@ {
        Some(image)
    } else if n == "container_name"@ {
        Some(container)
    } else if n == "ports"@ {
        Some(all[2].1)
    } else {
        Some(all[3].1)
    }) by {
        lemma_two("image"@, image, "container_name"@, container, n);
        lemma_push(first, "ports"@, all[2].1, n);
        lemma_push(third, "volumes"@, all[3].1, n);
    }
    assert(field(gantry_service(setup), "image"@) == Some(image));
    assert(field(gantry_service(setup), "container_name"@) == Some(container));
    assert(field(gantry_service(setup), "ports"@) == Some(all[2].1));
    assert(field(gantry_service(setup), "volumes"@) == Some(all[3].1));
}

/// What docker compose reads holds each service of the setup, with all that its definition says,
/// and gantry itself, unless a service has that name. It holds each volume with its driver. There
/// is nothing else.
pub proof fn law_compose_reads_back(s: SetupModel)
    requires
        s.services.valid(),
        s.volumes.valid(),
    ensures
        field(compose_json(s), "services"@) matches Some(services) && {
            &&& forall|k: Str| #[trigger]
                s.services.has(k) ==> (field(services, k) matches Some(j) && tells_service(
                    j,
                    k,
                    s.services.at(k),
                ))
            &&& !s.services.has("gantry"@) ==> (field(services, "gantry"@) matches Some(j)
                && tells_gantry(j, s.name))
            &&& forall|k: Str| #[trigger]
                field(services, k) is Some ==> k == "gantry"@ || s.services.has(k)
        },
        s.volumes.keys.len() == 0 ==> field(compose_json(s), "volumes"@) is None,
        s.volumes.keys.len() > 0 ==> (field(compose_json(s), "volumes"@) matches Some(volumes) && {
            &&& forall|k: Str| #[trigger]
                s.volumes.has(k) ==> (field(volumes, k) matches Some(j) && reads_text(
                    field(j, "driver"@),
                    s.volumes.at(k).driver,
                ))
            &&& forall|k: Str| #[trigger] field(volumes, k) is Some ==> s.volumes.has(k)
        }),
        forall|n: Str| #[trigger]
            field(compose_json(s), n) is Some ==> n == "services"@ || n == "volumes"@,
{
    let t = compose_services(s, s.services.keys);
    let services = table_json(t);
    let volumes = volumes_json(s.volumes);
    reveal_strlit("services");
    reveal_strlit("volumes");
    assert("services"@.len() == 8 && "volumes"@.len() == 7);
    assert forall|n: Str| #[trigger] field(compose_json(s), n) == added(
        added(None, "services"@, Some(services), n),
        "volumes"@,
        if s.volumes.keys.len() > 0 {
            Some(volumes)
        } else {
            None
        },
        n,
    ) by {
        lemma_one("services"@, services, n);
        lemma_push(seq![("services"@, services)], "volumes"@, volumes, n);
    }
    assert(field(compose_json(s), "services"@) == Some(services));
    assert forall|k: Str| true implies #[trigger] field(services, k) == (if t.has(k) {
        Some(t.at(k))
    } else {
        None
    }) by {
        lemma_compose_services(s, s.services.keys, k);
        lemma_table_field(t, k);
    }
    assert forall|k: Str| #[trigger] s.services.has(k) implies (field(services, k) matches Some(j)
        && tells_service(j, k, s.services.at(k))) by {
        lemma_compose_services(s, s.services.keys, k);
        assert(s.services.map.contains_key(k) <==> s.services.keys.contains(k));
        law_service_reads_back(k, s.services.at(k));
    }
    assert(s.services.map.contains_key("gantry"@) <==> s.services.keys.contains("gantry"@));
    lemma_compose_services(s, s.services.keys, "gantry"@);
    lemma_gantry(s.name);
    assert forall|k: Str| #[trigger] field(services, k) is Some implies k == "gantry"@
        || s.services.has(k) by {
        lemma_compose_services(s, s.services.keys, k);
        assert(s.services.map.contains_key(k) <==> s.services.keys.contains(k));
    }
    let f = |k: Str| volume_json(s.volumes.at(k));
    let keys = s.volumes.keys;
    assert(volumes->Object_0 =~= Seq::new(keys.len(), |i: int| (keys[i], f(keys[i]))));
    assert forall|k: Str| true implies #[trigger] field(volumes, k) == (if s.volumes.has(k) {
        Some(volume_json(s.volumes.at(k)))
    } else {
        None
    }) by {
        lemma_listed(keys, f, k);
        assert(s.volumes.map.contains_key(k) <==> keys.contains(k));
    }
    assert forall|k: Str| #[trigger] s.volumes.has(k) implies (field(volumes, k) matches Some(j)
        && reads_text(field(j, "driver"@), s.volumes.at(k).driver)) by {
        lemma_adds_text(Seq::empty(), "driver"@, s.volumes.at(k).driver, "driver"@);
    }
}

/// Whether a target says which probes it needs, and on which targets it depends.
pub open spec fn tells_target(j: JsonModel, t: TargetDefModel) -> bool {
    &&& reads_list(field(j, "probes"@), t.probes)
    &&& reads_texts(field(j, "depends_on"@), t.depends_on)
    &&& forall|n: Str| #[trigger] field(j, n) is Some ==> n == "probes"@ || n == "depends_on"@
}

/// A target that gantry reads says which probes it needs, and on which targets it depends.
pub proof fn law_target_reads_back(t: TargetDefModel)
    ensures
        tells_target(target_json(t), t),
{
    let j = target_json(t);
    let first = seq![("probes"@, texts_json(t.probes))];
    reveal_strlit("probes");
    reveal_strlit("depends_on");
    assert("probes"@.len() == 6 && "depends_on"@.len() == 10);
    lemma_one("probes"@, texts_json(t.probes), "probes"@);
    lemma_adds_texts(first, "depends_on"@, t.depends_on, "probes"@);
    lemma_one("probes"@, texts_json(t.probes), "depends_on"@);
    lemma_adds_texts(first, "depends_on"@, t.depends_on, "depends_on"@);
    assert forall|n: Str| #[trigger] field(j, n) is Some implies n == "probes"@ || n
        == "depends_on"@ by {
        lemma_one("probes"@, texts_json(t.probes), n);
        lemma_adds_texts(first, "depends_on"@, t.depends_on, n);
    }
}

proof fn lemma_probe_fields(e: ProbeEntryDefModel, names: Seq<Str>, n: Str)
    ensures
        ({
            let t = probe_fields(e.probe, names);
            &&& t.valid()
            &&& t.has(n) <==> n == "type"@ || names.contains(n)
            &&& names.contains(n) ==> t.at(n) == e.probe.extra.at(n)
            &&& !names.contains(n) && n == "type"@ ==> t.at(n) == JsonModel::Text(
                e.probe.probe_type,
            )
        }),
    decreases names.len(),
{
    if names.len() == 0 {
        lemma_put_valid(Table::empty(), "type"@, JsonModel::Text(e.probe.probe_type));
    } else {
        let front = names.drop_last();
        lemma_probe_fields(e, front, n);
        let last = names.last();
        lemma_put_valid(probe_fields(e.probe, front), last, e.probe.extra.at(last));
        assert(names[names.len() - 1] == last);
        if front.contains(n) {
            let i = choose|i: int| 0 <= i < front.len() && front[i] == n;
            assert(names[i] == n);
        }
        if names.contains(n) && n != last {
            let i = choose|i: int| 0 <= i < names.len() && names[i] == n;
            assert(front[i] == n);
        }
    }
}

/// Whether a probe says what kind of check it is, all else that was said of the check, and on
/// which probes it depends.
pub open spec fn tells_probe(j: JsonModel, e: ProbeEntryDefModel) -> bool {
    &&& field(j, "probe"@) matches Some(p) && {
        &&& !e.probe.extra.has("type"@) ==> field(p, "type"@) == Some(
            JsonModel::Text(e.probe.probe_type),
        )
        &&& forall|k: Str| #[trigger]
            e.probe.extra.has(k) ==> field(p, k) == Some(e.probe.extra.at(k))
        &&& forall|k: Str| #[trigger] field(p, k) is Some ==> k == "type"@ || e.probe.extra.has(k)
    }
    &&& reads_texts(field(j, "depends_on"@), e.depends_on)
}

/// A probe that gantry reads says what kind of check it is, all else that was said of the check,
/// and on which probes it depends.
pub proof fn law_probe_reads_back(e: ProbeEntryDefModel)
    requires
        e.probe.extra.valid(),
    ensures
        tells_probe(entry_json(e), e),
{
    let t = probe_fields(e.probe, e.probe.extra.keys);
    let p = table_json(t);
    let first = seq![("probe"@, p)];
    reveal_strlit("probe");
    reveal_strlit("depends_on");
    assert("probe"@.len() == 5 && "depends_on"@.len() == 10);
    lemma_one("probe"@, p, "probe"@);
    lemma_adds_texts(first, "depends_on"@, e.depends_on, "probe"@);
    lemma_one("probe"@, p, "depends_on"@);
    lemma_adds_texts(first, "depends_on"@, e.depends_on, "depends_on"@);
    assert(field(entry_json(e), "probe"@) == Some(p));
    assert forall|k: Str| true implies #[trigger] field(p, k) == (if e.probe.extra.has(k) {
        Some(e.probe.extra.at(k))
    } else if k == "type"@ {
        Some(JsonModel::Text(e.probe.probe_type))
    } else {
        None
    }) by {
        lemma_probe_fields(e, e.probe.extra.keys, k);
        lemma_table_field(t, k);
        assert(e.probe.extra.map.contains_key(k) <==> e.probe.extra.keys.contains(k));
    }
}

/// Whether a service that gantry reads says which container it is, which probes it starts after,
/// whether it is restarted, and all of its probes.
pub open spec fn tells_watched(j: JsonModel, setup: Str, name: Str, d: ServiceDefModel) -> bool {
    &&& field(j, "container"@) == Some(JsonModel::Text(setup + "-"@ + name))
    &&& reads_texts(field(j, "start_after"@), d.start_after)
    &&& reads_flag(field(j, "restart_on_fail"@), d.restart_on_fail)
    &&& field(j, "probes"@) matches Some(probes) && {
        &&& forall|k: Str| #[trigger]
            d.probes.has(k) ==> (field(probes, k) matches Some(e) && tells_probe(
                e,
                d.probes.at(k),
            ))
        &&& forall|k: Str| #[trigger] field(probes, k) is Some ==> d.probes.has(k)
    }
}

/// Whether the tables of a service are valid.
pub open spec fn probes_valid(d: ServiceDefModel) -> bool {
    d.probes.valid() && forall|k: Str| #[trigger]
        d.probes.has(k) ==> d.probes.at(k).probe.extra.valid()
}

/// A service that gantry reads says which container it is, which probes it starts after, whether
/// it is restarted, and all of its probes.
pub proof fn law_watched_reads_back(setup: Str, name: Str, d: ServiceDefModel)
    requires
        probes_valid(d),
    ensures
        tells_watched(service_json(setup, name, d), setup, name, d),
{
    let j = service_json(setup, name, d);
    let container = JsonModel::Text(setup + "-"@ + name);
    let f = |k: Str, e: ProbeEntryDefModel| entry_json(e);
    let t = map_table(d.probes, f);
    let probes = table_json(t);
    reveal_strlit("container");
    reveal_strlit("start_after");
    reveal_strlit("restart_on_fail");
    reveal_strlit("probes");
    assert("container"@.len() == 9 && "start_after"@.len() == 11 && "restart_on_fail"@.len() == 15
        && "probes"@.len() == 6);
    let one = seq![("container"@, container)];
    let two = with_texts(one, "start_after"@, d.start_after);
    let three = crate::generator::gantry_yaml::with_flag(two, "restart_on_fail"@, d.restart_on_fail);
    assert(j == JsonModel::Object(three.push(("probes"@, probes))));
    let names = seq!["container"@, "start_after"@, "restart_on_fail"@, "probes"@];
    lemma_watched(one, container, d, probes, names[0]);
    lemma_watched(one, container, d, probes, names[1]);
    lemma_watched(one, container, d, probes, names[2]);
    lemma_watched(one, container, d, probes, names[3]);
    assert(field(j, "probes"@) == Some(probes));
    lemma_mapped_valid(d.probes, f);
    assert forall|k: Str| true implies #[trigger] field(probes, k) == (if d.probes.has(k) {
        Some(entry_json(d.probes.at(k)))
    } else {
        None
    }) by {
        lemma_table_field(t, k);
    }
    assert forall|k: Str| #[trigger] d.probes.has(k) implies (field(probes, k) matches Some(e)
        && tells_probe(e, d.probes.at(k))) by {
        law_probe_reads_back(d.probes.at(k));
    }
}

proof fn lemma_watched(
    one: Seq<(Str, JsonModel)>,
    container: JsonModel,
    d: ServiceDefModel,
    probes: JsonModel,
    n: Str,
)
    requires
        one == seq![("container"@, container)],
        "container"@.len() == 9 && "start_after"@.len() == 11 && "restart_on_fail"@.len() == 15
            && "probes"@.len() == 6,
    ensures
        ({
            let two = with_texts(one, "start_after"@, d.start_after);
            let three = crate::generator::gantry_yaml::with_flag(
                two,
                "restart_on_fail"@,
                d.restart_on_fail,
            );
            let there = found(three.push(("probes"@, probes)), n);
            &&& n == "container"@ ==> there == Some(container)
            &&& n == "start_after"@ ==> reads_texts(there, d.start_after)
            &&& n == "restart_on_fail"@ ==> reads_flag(there, d.restart_on_fail)
            &&& n == "probes"@ ==> there == Some(probes)
        }),
{
    let two = with_texts(one, "start_after"@, d.start_after);
    let three = crate::generator::gantry_yaml::with_flag(two, "restart_on_fail"@, d.restart_on_fail);
    lemma_one("container"@, container, n);
    lemma_adds_texts(one, "start_after"@, d.start_after, n);
    lemma_adds_flag(two, "restart_on_fail"@, d.restart_on_fail, n);
    lemma_push(three, "probes"@, probes, n);
}

/// Whether what holds by default is said, and how checks are repeated.
pub open spec fn tells_defaults(j: JsonModel, d: DefaultsModel) -> bool {
    &&& reads_flag(field(j, "restart_on_fail"@), d.restart_on_fail)
    &&& reads_text(field(j, "tcp_probe_timeout"@), d.tcp_probe_timeout)
    &&& reads_text(field(j, "log_probe_timeout"@), d.log_probe_timeout)
    &&& match d.probe_backoff {
        Some(b) => field(j, "probe_backoff"@) matches Some(k) && reads_text(
            field(k, "initial"@),
            b.initial,
        ) && reads_text(field(k, "max"@), b.max) && field(k, "multiplier"@) == (
        match b.multiplier {
            Some(n) => Some(JsonModel::Raw(n)),
            None => None,
        }),
        None => field(j, "probe_backoff"@) is None,
    }
}

proof fn lemma_default_names()
    ensures
        "restart_on_fail"@.len() == 15,
        "tcp_probe_timeout"@.len() == 17,
        "tcp_probe_timeout"@[0] == 't',
        "log_probe_timeout"@.len() == 17,
        "log_probe_timeout"@[0] == 'l',
        "probe_backoff"@.len() == 13,
        "initial"@.len() == 7,
        "max"@.len() == 3,
        "multiplier"@.len() == 10,
{
    reveal_strlit("restart_on_fail");
    reveal_strlit("tcp_probe_timeout");
    reveal_strlit("log_probe_timeout");
    reveal_strlit("probe_backoff");
    reveal_strlit("initial");
    reveal_strlit("max");
    reveal_strlit("multiplier");
}

proof fn lemma_backoff(b: BackoffModel, n: Str)
    ensures
        ({
            let there = field(backoff_json(b), n);
            &&& n == "initial"@ ==> reads_text(there, b.initial)
            &&& n == "max"@ ==> reads_text(there, b.max)
            &&& n == "multiplier"@ ==> there == (match b.multiplier {
                Some(x) => Some(JsonModel::Raw(x)),
                None => None,
            })
        }),
{
    lemma_default_names();
    let one = with_text(Seq::empty(), "initial"@, b.initial);
    let two = with_text(one, "max"@, b.max);
    lemma_adds_text(Seq::empty(), "initial"@, b.initial, n);
    lemma_adds_text(one, "max"@, b.max, n);
    if let Some(x) = b.multiplier {
        lemma_push(two, "multiplier"@, JsonModel::Raw(x), n);
    }
}

proof fn lemma_defaults(d: DefaultsModel, n: Str)
    ensures
        ({
            let there = field(defaults_json(d), n);
            &&& n == "restart_on_fail"@ ==> reads_flag(there, d.restart_on_fail)
            &&& n == "tcp_probe_timeout"@ ==> reads_text(there, d.tcp_probe_timeout)
            &&& n == "log_probe_timeout"@ ==> reads_text(there, d.log_probe_timeout)
            &&& n == "probe_backoff"@ ==> there == (match d.probe_backoff {
                Some(b) => Some(backoff_json(b)),
                None => None,
            })
        }),
{
    lemma_default_names();
    let one = crate::generator::gantry_yaml::with_flag(
        Seq::empty(),
        "restart_on_fail"@,
        d.restart_on_fail,
    );
    let two = with_text(one, "tcp_probe_timeout"@, d.tcp_probe_timeout);
    let three = with_text(two, "log_probe_timeout"@, d.log_probe_timeout);
    lemma_adds_flag(Seq::empty(), "restart_on_fail"@, d.restart_on_fail, n);
    lemma_adds_text(one, "tcp_probe_timeout"@, d.tcp_probe_timeout, n);
    lemma_adds_text(two, "log_probe_timeout"@, d.log_probe_timeout, n);
    if let Some(b) = d.probe_backoff {
        lemma_push(three, "probe_backoff"@, backoff_json(b), n);
    }
}

/// What gantry reads says what holds by default, and how checks are repeated.
pub proof fn law_defaults_read_back(d: DefaultsModel)
    ensures
        tells_defaults(defaults_json(d), d),
{
    lemma_defaults(d, "restart_on_fail"@);
    lemma_defaults(d, "tcp_probe_timeout"@);
    lemma_defaults(d, "log_probe_timeout"@);
    lemma_defaults(d, "probe_backoff"@);
    if let Some(b) = d.probe_backoff {
        lemma_backoff(b, "initial"@);
        lemma_backoff(b, "max"@);
        lemma_backoff(b, "multiplier"@);
    }
}

/// What gantry reads holds each service and each target of the setup, with all that was said of
/// it, and what holds by default, if that was said. There is nothing else.
pub proof fn law_gantry_reads_back(s: SetupModel, name: Str)
    requires
        s.services.valid(),
        s.targets.valid(),
        forall|k: Str| #[trigger] s.services.has(k) ==> probes_valid(s.services.at(k)),
    ensures
        field(gantry_json(s, name), "services"@) matches Some(services) && {
            &&& forall|k: Str| #[trigger]
                s.services.has(k) ==> (field(services, k) matches Some(j) && tells_watched(
                    j,
                    name,
                    k,
                    s.services.at(k),
                ))
            &&& forall|k: Str| #[trigger] field(services, k) is Some ==> s.services.has(k)
        },
        field(gantry_json(s, name), "targets"@) matches Some(targets) && {
            &&& forall|k: Str| #[trigger]
                s.targets.has(k) ==> (field(targets, k) matches Some(j) && tells_target(
                    j,
                    s.targets.at(k),
                ))
            &&& forall|k: Str| #[trigger] field(targets, k) is Some ==> s.targets.has(k)
        },
        match s.defaults {
            Some(d) => field(gantry_json(s, name), "defaults"@) matches Some(j) && tells_defaults(
                j,
                d,
            ),
            None => field(gantry_json(s, name), "defaults"@) is None,
        },
{
    let doc = gantry_json(s, name);
    let of_service = |k: Str, d: ServiceDefModel| service_json(name, k, d);
    let of_target = |k: Str, t: TargetDefModel| target_json(t);
    let st = map_table(s.services, of_service);
    let tt = map_table(s.targets, of_target);
    let services = table_json(st);
    let targets = table_json(tt);
    reveal_strlit("services");
    reveal_strlit("targets");
    reveal_strlit("defaults");
    assert("services"@.len() == 8 && "targets"@.len() == 7 && "defaults"@.len() == 8);
    assert("services"@[0] == 's' && "defaults"@[0] == 'd');
    let two = seq![("services"@, services), ("targets"@, targets)];
    assert forall|n: Str| true implies #[trigger] field(doc, n) == added(
        added(added(None, "services"@, Some(services), n), "targets"@, Some(targets), n),
        "defaults"@,
        match s.defaults {
            Some(d) => Some(defaults_json(d)),
            None => None,
        },
        n,
    ) by {
        lemma_two("services"@, services, "targets"@, targets, n);
        if let Some(d) = s.defaults {
            lemma_push(two, "defaults"@, defaults_json(d), n);
        }
    }
    assert(field(doc, "services"@) == Some(services));
    assert(field(doc, "targets"@) == Some(targets));
    lemma_mapped_valid(s.services, of_service);
    lemma_mapped_valid(s.targets, of_target);
    assert forall|k: Str| true implies #[trigger] field(services, k) == (if s.services.has(k) {
        Some(service_json(name, k, s.services.at(k)))
    } else {
        None
    }) by {
        lemma_table_field(st, k);
    }
    assert forall|k: Str| true implies #[trigger] field(targets, k) == (if s.targets.has(k) {
        Some(target_json(s.targets.at(k)))
    } else {
        None
    }) by {
        lemma_table_field(tt, k);
    }
    assert forall|k: Str| #[trigger] s.services.has(k) implies (field(services, k) matches Some(j)
        && tells_watched(j, name, k, s.services.at(k))) by {
        law_watched_reads_back(name, k, s.services.at(k));
    }
    assert forall|k: Str| #[trigger] s.targets.has(k) implies (field(targets, k) matches Some(j)
        && tells_target(j, s.targets.at(k))) by {
        law_target_reads_back(s.targets.at(k));
    }
    if let Some(d) = s.defaults {
        law_defaults_read_back(d);
    }
}

} // verus!
