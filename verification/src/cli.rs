//! The command line client: which address it calls, and how it prints the graph.
use crate::json::{list_texts, models, texts_among, Json, JsonModel};
use crate::text::{cat, cat3, cat5, decimal, decimal_text, join, joined, text_eq, Str};
use vstd::prelude::*;

verus! {

/// The address for the states of everything, or of one thing.
pub open spec fn status_address(host: Str, kind: Option<Str>, name: Option<Str>) -> Str {
    match (kind, name) {
        (Some(k), Some(n)) => host + "/api/status/"@ + k + "/"@ + n,
        _ => host + "/api/status"@,
    }
}

/// The address for the states of everything, or of one thing.
pub fn status_url(host: &str, kind: Option<&str>, name: Option<&str>) -> (r: String)
    ensures
        r@ == status_address(
            host@,
            match kind {
                Some(k) => Some(k@),
                None => None,
            },
            match name {
                Some(n) => Some(n@),
                None => None,
            },
        ),
{
    match (kind, name) {
        (Some(k), Some(n)) => cat5(host, "/api/status/", k, "/", n),
        _ => cat(host, "/api/status"),
    }
}

/// The address for an operation.
pub open spec fn post_address(host: Str, path: Str, timeout: Option<u64>) -> Str {
    match timeout {
        Some(t) => host + path + "?timeout="@ + decimal(t as nat),
        None => host + path,
    }
}

/// The address for an operation.
pub fn post_url(host: &str, path: &str, timeout: Option<u64>) -> (r: String)
    ensures
        r@ == post_address(host@, path@, timeout),
{
    match timeout {
        Some(t) => {
            let s = cat3(host, path, "?timeout=");
            cat(s.as_str(), decimal_text(t).as_str())
        },
        None => cat(host, path),
    }
}

/// The address for the graph, or for that of one target.
pub open spec fn graph_address(host: Str, target: Option<Str>) -> Str {
    match target {
        Some(t) => host + "/api/graph/target/"@ + t,
        None => host + "/api/graph"@,
    }
}

/// The address for the graph, or for that of one target.
pub fn graph_url(host: &str, target: Option<&str>) -> (r: String)
    ensures
        r@ == graph_address(
            host@,
            match target {
                Some(t) => Some(t@),
                None => None,
            },
        ),
{
    match target {
        Some(t) => cat3(host, "/api/graph/target/", t),
        None => cat(host, "/api/graph"),
    }
}

/// A text that is filled up with spaces to a width.
pub open spec fn padded(s: Str, width: nat) -> Str {
    if s.len() < width {
        s + Seq::new((width - s.len()) as nat, |i: int| ' ')
    } else {
        s
    }
}

fn pad(s: &str, width: usize) -> (r: String)
    ensures
        r@ == padded(s@, width as nat),
{
    let mut out = s.to_owned();
    let n: usize = s.unicode_len();
    let mut i: usize = n;
    assert(out@ =~= s@ + Seq::new(0, |i: int| ' '));
    while i < width
        invariant
            n == s@.len(),
            n <= i,
            i <= width || i == n,
            out@ == s@ + Seq::new((i - n) as nat, |i: int| ' '),
        decreases width - i,
    {
        proof {
            reveal_strlit(" ");
        }
        out.append(" ");
        i = i + 1;
        assert(out@ =~= s@ + Seq::new((i - n) as nat, |i: int| ' '));
    }
    assert(out@ =~= padded(s@, width as nat));
    out
}

/// The names in a list, one after the other.
pub open spec fn names_in(j: JsonModel) -> Str {
    match j {
        JsonModel::List(list) => joined(texts_among(list), ", "@),
        _ => Seq::empty(),
    }
}

fn tell_names(j: &Json, member: &str) -> (r: String)
    ensures
        r@ == names_in(j.model().member(member@)),
{
    match j.member_list(member) {
        Some(list) => join(&list_texts(list), ", "),
        None => String::new(),
    }
}

/// The mark in front of a probe.
pub open spec fn dot_of(state: Str) -> Str {
    if state == "green"@ || state == "red"@ || state == "stale"@ {
        "\u{25cf}"@
    } else {
        "\u{25cb}"@
    }
}

/// The line of a probe.
pub open spec fn probe_line(p: JsonModel) -> Str {
    let state = p.member("state"@).text_or("?"@);
    let deps = names_in(p.member("depends_on"@));
    let start = "    "@ + dot_of(state) + " "@ + padded(p.member("name"@).text_or("?"@), 12)
        + " "@;
    if deps.len() == 0 {
        start + state
    } else {
        start + state + "  depends_on: "@ + deps
    }
}

fn tell_probe(p: &Json) -> (r: String)
    ensures
        r@ == probe_line(p.model()),
{
    let state = p.member_text("state", "?");
    let deps = tell_names(p, "depends_on");
    let dot = if text_eq(state, "green") || text_eq(state, "red") || text_eq(state, "stale") {
        "\u{25cf}"
    } else {
        "\u{25cb}"
    };
    let name = pad(p.member_text("name", "?"), 12);
    let start = cat5("    ", dot, " ", name.as_str(), " ");
    if deps.as_str().unicode_len() == 0 {
        cat(start.as_str(), state)
    } else {
        let line = cat3(start.as_str(), state, "  depends_on: ");
        cat(line.as_str(), deps.as_str())
    }
}

/// The name of something and, in brackets, its state.
pub open spec fn heading(j: JsonModel) -> Str {
    "  "@ + j.member("name"@).text_or("?"@) + " ["@ + j.member("state"@).text_or("?"@) + "]"@
}

fn tell_heading(j: &Json) -> (r: String)
    ensures
        r@ == heading(j.model()),
{
    cat5("  ", j.member_text("name", "?"), " [", j.member_text("state", "?"), "]")
}

/// The lines of a service: its own, one for each probe, and an empty one.
pub open spec fn service_lines(svc: JsonModel) -> Seq<Str> {
    let probes = match svc.member("probes"@) {
        JsonModel::List(list) => Seq::new(list.len(), |i: int| probe_line(list[i])),
        _ => Seq::empty(),
    };
    let after = match svc.member("start_after"@) {
        JsonModel::List(list) => if list.len() > 0 {
            seq!["    start_after: "@ + joined(texts_among(list), ", "@)]
        } else {
            Seq::empty()
        },
        _ => Seq::empty(),
    };
    (seq![heading(svc)] + probes + after).push(Seq::empty())
}

fn tell_service(svc: &Json, out: &mut Vec<String>)
    ensures
        final(out).deep_view() == old(out).deep_view() + service_lines(svc.model()),
{
    let ghost before = out.deep_view();
    let ghost m = svc.model();
    out.push(tell_heading(svc));
    assert(out.deep_view() =~= before + seq![heading(m)]);
    let ghost mut probes: Seq<Str> = Seq::empty();
    if let Some(list) = svc.member_list("probes") {
        let ghost all = models(list@);
        let ghost start = out.deep_view();
        let mut i: usize = 0;
        assert(start =~= start + Seq::new(0, |i: int| probe_line(all[i])));
        while i < list.len()
            invariant
                all == models(list@),
                i <= list.len(),
                out.deep_view() == start + Seq::new(i as nat, |i: int| probe_line(all[i])),
            decreases list.len() - i,
        {
            let line = tell_probe(&list[i]);
            assert(line@ == probe_line(all[i as int]));
            let ghost prev = out.deep_view();
            out.push(line);
            assert(out.deep_view() =~= prev.push(line@));
            i = i + 1;
            assert(out.deep_view() =~= start + Seq::new(i as nat, |i: int| probe_line(all[i])));
        }
        proof {
            probes = Seq::new(all.len(), |i: int| probe_line(all[i]));
        }
    }
    let ghost told = out.deep_view();
    assert(told =~= before + (seq![heading(m)] + probes));
    let ghost mut after: Seq<Str> = Seq::empty();
    if let Some(list) = svc.member_list("start_after") {
        assert(models(list@).len() == list.len());
        if list.len() > 0 {
            let line = cat("    start_after: ", join(&list_texts(list), ", ").as_str());
            proof {
                after = seq![line@];
            }
            out.push(line);
        }
    }
    let ghost prev = out.deep_view();
    assert(prev =~= told + after);
    let empty = String::new();
    assert(empty@ =~= Seq::<char>::empty());
    out.push(empty);
    assert(out.deep_view() =~= prev.push(Seq::empty()));
    assert(service_lines(m) =~= (seq![heading(m)] + probes + after).push(Seq::empty()));
    assert(out.deep_view() =~= before + service_lines(m));
}

/// The line of a target.
pub open spec fn target_line(t: JsonModel) -> Str {
    heading(t) + "  probes: "@ + names_in(t.member("probes"@))
}

/// The lines of some services, one after the other.
pub open spec fn services_lines(list: Seq<JsonModel>) -> Seq<Str>
    decreases list.len(),
{
    if list.len() == 0 {
        Seq::empty()
    } else {
        services_lines(list.drop_last()) + service_lines(list.last())
    }
}

/// The lines for a graph.
pub open spec fn graph_lines(body: JsonModel) -> Seq<Str> {
    let services = match body.member("services"@) {
        JsonModel::List(list) => seq!["Services:"@] + services_lines(list),
        _ => Seq::empty(),
    };
    let targets = match body.member("targets"@) {
        JsonModel::List(list) => seq!["Targets:"@] + Seq::new(
            list.len(),
            |i: int| target_line(list[i]),
        ),
        _ => Seq::empty(),
    };
    services + targets
}

/// Writes a graph as lines of text.
pub fn graph(body: &Json) -> (r: Vec<String>)
    ensures
        r.deep_view() == graph_lines(body.model()),
{
    let ghost m = body.model();
    let mut out: Vec<String> = Vec::new();
    let ghost mut services: Seq<Str> = Seq::empty();
    assert(out.deep_view() =~= Seq::<Str>::empty());
    if let Some(list) = body.member_list("services") {
        let ghost all = models(list@);
        out.push("Services:".to_owned());
        assert(out.deep_view() =~= seq!["Services:"@] + services_lines(all.take(0)));
        let mut i: usize = 0;
        while i < list.len()
            invariant
                all == models(list@),
                i <= list.len(),
                out.deep_view() == seq!["Services:"@] + services_lines(all.take(i as int)),
            decreases list.len() - i,
        {
            let ghost next = all.take(i + 1);
            assert(next.drop_last() =~= all.take(i as int));
            assert(next.last() == list@[i as int].model());
            tell_service(&list[i], &mut out);
            assert(out.deep_view() =~= seq!["Services:"@] + services_lines(next));
            i = i + 1;
        }
        assert(all.take(i as int) =~= all);
        proof {
            services = out.deep_view();
        }
    }
    assert(out.deep_view() =~= services);
    let ghost mut targets: Seq<Str> = Seq::empty();
    if let Some(list) = body.member_list("targets") {
        let ghost all = models(list@);
        let ghost f = |i: int| target_line(all[i]);
        out.push("Targets:".to_owned());
        assert(out.deep_view() =~= services + (seq!["Targets:"@] + Seq::new(0, f)));
        let mut i: usize = 0;
        while i < list.len()
            invariant
                all == models(list@),
                f == (|i: int| target_line(all[i])),
                i <= list.len(),
                out.deep_view() == services + (seq!["Targets:"@] + Seq::new(i as nat, f)),
            decreases list.len() - i,
        {
            let t = &list[i];
            let line = cat3(
                tell_heading(t).as_str(),
                "  probes: ",
                tell_names(t, "probes").as_str(),
            );
            assert(line@ == f(i as int));
            let ghost prev = out.deep_view();
            out.push(line);
            assert(out.deep_view() =~= prev.push(line@));
            i = i + 1;
            assert(out.deep_view() =~= services + (seq!["Targets:"@] + Seq::new(i as nat, f)));
        }
        proof {
            targets = seq!["Targets:"@] + Seq::new(all.len(), f);
        }
    }
    assert(out.deep_view() =~= services + targets);
    out
}

} // verus!
