//! What gantry reads.
use crate::error::{ErrorModel, GantryError};
use crate::generator::schema::{
    BackoffModel, DefaultsDef, DefaultsModel, ProbeDefModel, ProbeEntryDef, ProbeEntryDefModel,
    ServiceDef, ServiceDefModel, SetupJson, SetupModel, TargetDef, TargetDefModel,
};
use crate::generator::yaml::{write_yaml, yaml_of, yaml_result};
use crate::json::{
    table, table_json, text, texts, texts_json, with_text, with_texts, Json, JsonModel, Members,
};
use crate::json_text::json_text;
use crate::ordered_map::{
    lemma_mapped_all, lemma_mapped_next, map_table, mapped_up_to, Item, OrderedMap, Table,
};
use crate::text::{cat3, Str};
use vstd::prelude::*;

verus! {

/// A check: its kind, and some of what else was said of it.
pub open spec fn probe_fields(p: ProbeDefModel, names: Seq<Str>) -> Table<JsonModel>
    decreases names.len(),
{
    if names.len() == 0 {
        Table::empty().put("type"@, JsonModel::Text(p.probe_type))
    } else {
        probe_fields(p, names.drop_last()).put(names.last(), p.extra.at(names.last()))
    }
}

/// A probe.
pub open spec fn entry_json(e: ProbeEntryDefModel) -> JsonModel {
    let probe = table_json(probe_fields(e.probe, e.probe.extra.keys));
    JsonModel::Object(with_texts(seq![("probe"@, probe)], "depends_on"@, e.depends_on))
}

/// The members of an object after a flag, if there is one.
pub open spec fn with_flag(
    m: Seq<(Str, JsonModel)>,
    name: Str,
    flag: Option<bool>,
) -> Seq<(Str, JsonModel)> {
    match flag {
        Some(b) => m.push((name, JsonModel::Bool(b))),
        None => m,
    }
}

fn put_flag(m: &mut Members, name: &str, flag: Option<bool>)
    ensures
        final(m).all() == with_flag(old(m).all(), name@, flag),
{
    if let Some(b) = flag {
        m.put(name, Json::Bool(b));
    }
}

/// A service. Its container is named after the setup and the service.
pub open spec fn service_json(setup: Str, name: Str, d: ServiceDefModel) -> JsonModel {
    let m = seq![("container"@, JsonModel::Text(setup + "-"@ + name))];
    let m = with_texts(m, "start_after"@, d.start_after);
    let m = with_flag(m, "restart_on_fail"@, d.restart_on_fail);
    let t = d.probes;
    JsonModel::Object(
        m.push(
            (
                "probes"@,
                table_json(map_table(t, |k: Str, e: ProbeEntryDefModel| entry_json(e))),
            ),
        ),
    )
}

/// A target.
pub open spec fn target_json(t: TargetDefModel) -> JsonModel {
    JsonModel::Object(
        with_texts(seq![("probes"@, texts_json(t.probes))], "depends_on"@, t.depends_on),
    )
}

/// How checks are repeated.
pub open spec fn backoff_json(b: BackoffModel) -> JsonModel {
    let m = with_text(Seq::empty(), "initial"@, b.initial);
    let m = with_text(m, "max"@, b.max);
    JsonModel::Object(
        match b.multiplier {
            Some(n) => m.push(("multiplier"@, JsonModel::Raw(n))),
            None => m,
        },
    )
}

/// What holds unless something else is said.
pub open spec fn defaults_json(d: DefaultsModel) -> JsonModel {
    let m = with_flag(Seq::empty(), "restart_on_fail"@, d.restart_on_fail);
    let m = with_text(m, "tcp_probe_timeout"@, d.tcp_probe_timeout);
    let m = with_text(m, "log_probe_timeout"@, d.log_probe_timeout);
    JsonModel::Object(
        match d.probe_backoff {
            Some(b) => m.push(("probe_backoff"@, backoff_json(b))),
            None => m,
        },
    )
}

/// All that gantry reads.
pub open spec fn gantry_json(s: SetupModel, name: Str) -> JsonModel {
    let m = seq![
        (
            "services"@,
            table_json(
                map_table(s.services, |k: Str, d: ServiceDefModel| service_json(name, k, d)),
            ),
        ),
        (
            "targets"@,
            table_json(map_table(s.targets, |k: Str, t: TargetDefModel| target_json(t))),
        ),
    ];
    JsonModel::Object(
        match s.defaults {
            Some(d) => m.push(("defaults"@, defaults_json(d))),
            None => m,
        },
    )
}

fn write_entry(e: &ProbeEntryDef) -> (r: Json)
    requires
        e.ok(),
    ensures
        r.model() == entry_json(e.deep_view()),
{
    let ghost p = e.probe.deep_view();
    let ghost keys = p.extra.keys;
    let mut fields: OrderedMap<Json> = OrderedMap::new();
    fields.insert("type".to_owned(), text(e.probe.probe_type.as_str()));
    let n: usize = e.probe.extra.len();
    let mut i: usize = 0;
    assert(keys.take(0) =~= Seq::<Str>::empty());
    while i < n
        invariant
            e.ok(),
            p == e.probe.deep_view(),
            keys == p.extra.keys,
            fields.wf(),
            i <= n == keys.len(),
            fields.deep_view() == probe_fields(p, keys.take(i as int)),
        decreases n - i,
    {
        let ghost next = keys.take(i + 1);
        assert(next.drop_last() =~= keys.take(i as int));
        assert(next.last() == keys[i as int]);
        fields.insert(e.probe.extra.name(i).clone(), e.probe.extra.value(i).copy());
        i = i + 1;
    }
    assert(keys.take(i as int) =~= keys);
    let mut m = Members::new();
    m.put("probe", table(&fields));
    assert(m.all() =~= seq![("probe"@, table_json(probe_fields(p, keys)))]);
    m.put_texts("depends_on", &e.depends_on);
    m.object()
}

fn write_service(setup: &str, name: &str, d: &ServiceDef) -> (r: Json)
    requires
        d.ok(),
    ensures
        r.model() == service_json(setup@, name@, d.deep_view()),
{
    let ghost t = d.deep_view().probes;
    let ghost of_entry = |k: Str, e: ProbeEntryDefModel| entry_json(e);
    let mut probes: OrderedMap<Json> = OrderedMap::new();
    let n: usize = d.probes.len();
    let mut i: usize = 0;
    assert(t.keys.take(0) =~= Seq::<Str>::empty());
    while i < n
        invariant
            d.ok(),
            t == d.deep_view().probes,
            t.valid(),
            of_entry == (|k: Str, e: ProbeEntryDefModel| entry_json(e)),
            probes.wf(),
            i <= n == t.keys.len(),
            mapped_up_to(t, of_entry, i as int, probes.deep_view()),
        decreases n - i,
    {
        let entry = write_entry(d.probes.value(i));
        proof {
            lemma_mapped_next(t, of_entry, i as int, probes.deep_view());
        }
        probes.insert(d.probes.name(i).clone(), entry);
        i = i + 1;
    }
    proof {
        lemma_mapped_all(t, of_entry, probes.deep_view());
    }
    let mut m = Members::new();
    m.put("container", text(cat3(setup, "-", name).as_str()));
    assert(m.all() =~= seq![("container"@, JsonModel::Text(setup@ + "-"@ + name@))]);
    m.put_texts("start_after", &d.start_after);
    put_flag(&mut m, "restart_on_fail", d.restart_on_fail);
    m.put("probes", table(&probes));
    m.object()
}

fn write_target(t: &TargetDef) -> (r: Json)
    ensures
        r.model() == target_json(t.deep_view()),
{
    let mut m = Members::new();
    m.put("probes", texts(&t.probes));
    assert(m.all() =~= seq![("probes"@, texts_json(t.probes.deep_view()))]);
    m.put_texts("depends_on", &t.depends_on);
    m.object()
}

fn convert_defaults(d: &DefaultsDef) -> (r: Json)
    ensures
        r.model() == defaults_json(d.deep_view()),
{
    let mut m = Members::new();
    put_flag(&mut m, "restart_on_fail", d.restart_on_fail);
    m.put_text("tcp_probe_timeout", &d.tcp_probe_timeout);
    m.put_text("log_probe_timeout", &d.log_probe_timeout);
    if let Some(b) = &d.probe_backoff {
        let mut backoff = Members::new();
        backoff.put_text("initial", &b.initial);
        backoff.put_text("max", &b.max);
        if let Some(n) = &b.multiplier {
            backoff.put("multiplier", Json::Raw(n.clone()));
        }
        m.put("probe_backoff", backoff.object());
    }
    m.object()
}

/// Writes all that gantry reads.
pub fn gantry_config(setup: &SetupJson, setup_name: &str) -> (r: Json)
    requires
        setup.wf(),
    ensures
        r.model() == gantry_json(setup.deep_view(), setup_name@),
{
    let ghost s = setup.deep_view();
    let ghost of_service = |k: Str, d: ServiceDefModel| service_json(setup_name@, k, d);
    let ghost of_target = |k: Str, t: TargetDefModel| target_json(t);
    let mut services: OrderedMap<Json> = OrderedMap::new();
    let n: usize = setup.services.len();
    let mut i: usize = 0;
    assert(s.services.keys.take(0) =~= Seq::<Str>::empty());
    while i < n
        invariant
            setup.wf(),
            s == setup.deep_view(),
            s.services.valid(),
            of_service == (|k: Str, d: ServiceDefModel| service_json(setup_name@, k, d)),
            services.wf(),
            i <= n == s.services.keys.len(),
            mapped_up_to(s.services, of_service, i as int, services.deep_view()),
        decreases n - i,
    {
        let name = setup.services.name(i);
        let svc = write_service(setup_name, name.as_str(), setup.services.value(i));
        proof {
            lemma_mapped_next(s.services, of_service, i as int, services.deep_view());
        }
        services.insert(name.clone(), svc);
        i = i + 1;
    }
    proof {
        lemma_mapped_all(s.services, of_service, services.deep_view());
    }
    let mut targets: OrderedMap<Json> = OrderedMap::new();
    let k: usize = setup.targets.len();
    let mut i: usize = 0;
    assert(s.targets.keys.take(0) =~= Seq::<Str>::empty());
    while i < k
        invariant
            setup.wf(),
            s == setup.deep_view(),
            s.targets.valid(),
            of_target == (|k: Str, t: TargetDefModel| target_json(t)),
            targets.wf(),
            i <= k == s.targets.keys.len(),
            mapped_up_to(s.targets, of_target, i as int, targets.deep_view()),
        decreases k - i,
    {
        let t = write_target(setup.targets.value(i));
        proof {
            lemma_mapped_next(s.targets, of_target, i as int, targets.deep_view());
        }
        targets.insert(setup.targets.name(i).clone(), t);
        i = i + 1;
    }
    proof {
        lemma_mapped_all(s.targets, of_target, targets.deep_view());
    }
    let mut m = Members::new();
    m.put("services", table(&services));
    m.put("targets", table(&targets));
    if let Some(d) = &setup.defaults {
        m.put("defaults", convert_defaults(d));
    }
    assert(m.all() =~= gantry_json(s, setup_name@)->Object_0);
    m.object()
}

/// Writes what gantry reads, as YAML.
pub fn generate_gantry_yaml(setup: &SetupJson, setup_name: &str) -> (r: Result<
    String,
    GantryError,
>)
    requires
        setup.wf(),
    ensures
        ({
            let want = yaml_result(
                yaml_of(json_text(gantry_json(setup.deep_view(), setup_name@))),
            );
            match r {
                Ok(s) => want == Ok::<Str, ErrorModel>(s@),
                Err(e) => want == Err::<Str, ErrorModel>(e.deep_view()),
            }
        }),
{
    write_yaml(&gantry_config(setup, setup_name))
}

} // verus!
