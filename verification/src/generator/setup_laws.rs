//! What is made of a setup: its names, the paths that it needs, and what is done with its files.
use crate::generator::files::{action_of, FileAction};
use crate::generator::schema::{
    named, FileModel, ImageModel, ServiceDefModel, SetupModel,
};
use crate::generator::validate::{
    all_errors, file_sources, path_errors, service_sources, setup_sources, sources_of, Expected,
    FoundModel, SourceModel,
};
use crate::text::{ends_with, Str};
use vstd::prelude::*;

verus! {

/// The name that a setup has: its own, or one that is given where it has none.
pub open spec fn name_of(s: SetupModel, given: Str) -> Str {
    if s.name.len() > 0 {
        s.name
    } else {
        given
    }
}

/// Where a setup or a container has no name it is given one: the setup the one that is given, and a
/// container one after the setup and the service. Names that are there stay, and nothing else
/// changes.
pub proof fn law_names_filled(s: SetupModel, given: Str, k: Str)
    requires
        s.services.has(k),
    ensures
        ({
            let t = named(s, given);
            let d = s.services.at(k);
            let e = t.services.at(k);
            &&& t.name == name_of(s, given)
            &&& t.services.has(k)
            &&& t.services.keys == s.services.keys
            &&& t.targets == s.targets
            &&& t.defaults == s.defaults
            &&& t.files == s.files
            &&& t.volumes == s.volumes
            &&& d.container_name.len() > 0 ==> e.container_name == d.container_name
            &&& d.container_name.len() == 0 ==> e.container_name == name_of(s, given) + "-"@ + k
            &&& e == (ServiceDefModel { container_name: e.container_name, ..d })
        }),
{
}

/// Filling in names again changes nothing.
pub proof fn law_names_filled_once(s: SetupModel, given: Str, other: Str, k: Str)
    requires
        s.services.has(k),
        name_of(s, given).len() > 0,
    ensures
        named(named(s, given), other).name == named(s, given).name,
        named(named(s, given), other).services.at(k) == named(s, given).services.at(k),
{
    reveal_strlit("-");
}

proof fn lemma_slash(s: Str)
    ensures
        ends_with(s, "/"@) <==> s.len() > 0 && s[s.len() - 1] == '/',
{
    reveal_strlit("/");
    if s.len() > 0 {
        let end = s.subrange(s.len() - 1, s.len() as int);
        assert(end[0] == s[s.len() - 1]);
        if s[s.len() - 1] == '/' {
            assert(end =~= "/"@);
        }
    }
}

/// A template is filled in. What else ends with a slash is copied as a directory, and all else as a
/// file.
pub proof fn law_file_actions(f: FileModel)
    ensures
        action_of(f) == FileAction::Render <==> f.template,
        action_of(f) == FileAction::CopyDirectory <==> !f.template && f.src.len() > 0 && f.src[
            f.src.len() - 1
        ] == '/',
        action_of(f) == FileAction::CopyFile <==> !f.template && !(f.src.len() > 0 && f.src[
            f.src.len() - 1
        ] == '/'),
{
    lemma_slash(f.src);
}

/// Whether a path is one of a file: what ends with a slash is to be a directory, a template is to
/// be a file and no directory, and all else is to be a file.
pub open spec fn is_path_of(x: SourceModel, service: Option<Str>, f: FileModel) -> bool {
    let slash = f.src.len() > 0 && f.src[f.src.len() - 1] == '/';
    &&& x.service == service
    &&& x.path == f.src
    &&& x.context is None
    &&& x.expected == Expected::Directory <==> slash
    &&& x.expected == Expected::Template <==> !slash && f.template
    &&& x.expected == Expected::File <==> !slash && !f.template
}

/// Whether a path is the one of the Dockerfile that a service is built from.
pub open spec fn is_dockerfile_of(x: SourceModel, name: Str, d: ServiceDefModel) -> bool {
    d.image matches ImageModel::Build { build } && x.service == Some(name) && x.expected
        == Expected::Dockerfile && x.context == Some(build.context) && x.path == build.dockerfile
}

proof fn lemma_file_path(service: Option<Str>, files: Seq<FileModel>, i: int)
    requires
        0 <= i < files.len(),
    ensures
        is_path_of(file_sources(service, files)[i], service, files[i]),
{
    lemma_slash(files[i].src);
}

/// The paths that a service names are that of its Dockerfile, if it is built, and one for each of
/// its files, in their order.
pub proof fn law_paths_of_service(name: Str, d: ServiceDefModel)
    ensures
        d.image is Prebuilt ==> service_sources(name, d).len() == d.files.len() && forall|i: int|
            0 <= i < d.files.len() ==> is_path_of(
                service_sources(name, d)[i],
                Some(name),
                #[trigger] d.files[i],
            ),
        d.image is Build ==> service_sources(name, d).len() == d.files.len() + 1
            && is_dockerfile_of(service_sources(name, d)[0], name, d) && forall|i: int|
            0 <= i < d.files.len() ==> is_path_of(
                service_sources(name, d)[i + 1],
                Some(name),
                #[trigger] d.files[i],
            ),
{
    let files = file_sources(Some(name), d.files);
    let all = service_sources(name, d);
    assert forall|i: int| 0 <= i < d.files.len() implies is_path_of(
        files[i],
        Some(name),
        #[trigger] d.files[i],
    ) by {
        lemma_file_path(Some(name), d.files, i);
    }
    if d.image is Prebuilt {
        assert(all =~= files);
    } else {
        assert(forall|i: int| 0 <= i < files.len() ==> all[i + 1] == #[trigger] files[i]);
        assert forall|i: int| 0 <= i < d.files.len() implies is_path_of(
            all[i + 1],
            Some(name),
            #[trigger] d.files[i],
        ) by {
            assert(all[i + 1] == files[i]);
        }
    }
}

/// The paths of some services follow those of the services before them.
pub proof fn law_paths_follow(s: SetupModel, before: Seq<Str>, name: Str)
    ensures
        sources_of(s, before.push(name)) == sources_of(s, before) + service_sources(
            name,
            s.services.at(name),
        ),
        sources_of(s, Seq::empty()).len() == 0,
{
    assert(before.push(name).drop_last() =~= before);
}

proof fn lemma_sources(s: SetupModel, names: Seq<Str>, k: int, i: int)
    requires
        0 <= k < names.len(),
        0 <= i < service_sources(names[k], s.services.at(names[k])).len(),
    ensures
        sources_of(s, names).contains(service_sources(names[k], s.services.at(names[k]))[i]),
    decreases names.len(),
{
    let front = names.drop_last();
    let last = service_sources(names.last(), s.services.at(names.last()));
    let all = sources_of(s, names);
    let before = sources_of(s, front);
    let x = service_sources(names[k], s.services.at(names[k]))[i];
    if k < front.len() {
        assert(front[k] == names[k]);
        lemma_sources(s, front, k, i);
        let j = choose|j: int| 0 <= j < before.len() && before[j] == x;
        assert(all[j] == x);
    } else {
        assert(all[before.len() + i] == last[i]);
    }
}

/// Each path that a service names is among those of the setup, and so is the path of each file that
/// the services share.
pub proof fn law_all_paths_listed(s: SetupModel, k: Str, i: int)
    requires
        s.services.valid(),
    ensures
        s.services.has(k) && 0 <= i < service_sources(k, s.services.at(k)).len() ==> setup_sources(
            s,
        ).contains(service_sources(k, s.services.at(k))[i]),
        0 <= i < s.files.len() ==> exists|x: SourceModel| #[trigger]
            setup_sources(s).contains(x) && is_path_of(x, None, s.files[i]),
{
    let all = setup_sources(s);
    let own = sources_of(s, s.services.keys);
    let shared = file_sources(None, s.files);
    if s.services.has(k) && 0 <= i < service_sources(k, s.services.at(k)).len() {
        assert(s.services.keys.contains(k));
        let n = choose|n: int| 0 <= n < s.services.keys.len() && s.services.keys[n] == k;
        lemma_sources(s, s.services.keys, n, i);
        let x = service_sources(k, s.services.at(k))[i];
        let j = choose|j: int| 0 <= j < own.len() && own[j] == x;
        assert(all[j] == x);
    }
    if 0 <= i < s.files.len() {
        lemma_file_path(None, s.files, i);
        assert(all[own.len() + i] == shared[i]);
        assert(all.contains(shared[i]));
    }
}

/// What is told of a path names its service, or the shared files, and ends with the path.
pub proof fn law_path_errors(s: SourceModel, f: FoundModel, i: int)
    requires
        0 <= i < path_errors(s, f).len(),
    ensures
        ({
            let line = path_errors(s, f)[i];
            let start = match s.service {
                Some(name) => "service '"@ + name + "': "@,
                None => "shared files: "@,
            };
            &&& line.len() >= start.len() + f.shown.len()
            &&& line.take(start.len() as int) == start
            &&& line.skip(line.len() - f.shown.len()) == f.shown
        }),
{
    let line = path_errors(s, f)[i];
    let start = match s.service {
        Some(name) => "service '"@ + name + "': "@,
        None => "shared files: "@,
    };
    assert(line.take(start.len() as int) =~= start);
    assert(line.skip(line.len() - f.shown.len()) =~= f.shown);
}

/// A missing Dockerfile is told as one, a missing directory as one, and a missing file as one. A
/// directory in place of a template is told besides.
pub proof fn law_path_errors_told(service: Str, shown: Str, path: Str, is_file: bool, is_dir: bool)
    ensures
        ({
            let start = "service '"@ + service + "': "@;
            let f = FoundModel { shown, is_file, is_dir };
            let at = |e: Expected|
                SourceModel { service: Some(service), expected: e, context: None, path };
            &&& path_errors(at(Expected::Dockerfile), f) == (if is_file {
                Seq::empty()
            } else {
                seq![start + "Dockerfile not found: "@ + shown]
            })
            &&& path_errors(at(Expected::Directory), f) == (if is_dir {
                Seq::empty()
            } else {
                seq![start + "directory not found: "@ + shown]
            })
            &&& path_errors(at(Expected::File), f) == (if is_file {
                Seq::empty()
            } else {
                seq![start + "file not found: "@ + shown]
            })
            &&& path_errors(at(Expected::Template), f).len() == (if is_file {
                0int
            } else {
                1
            }) + (if is_dir {
                1int
            } else {
                0
            })
        }),
{
}

/// What is wrong with a path is told, whatever is wrong with others.
pub proof fn law_all_errors_told(
    sources: Seq<SourceModel>,
    found: Seq<FoundModel>,
    n: nat,
    i: int,
    j: int,
)
    requires
        n <= sources.len(),
        n <= found.len(),
        0 <= i < n,
        0 <= j < path_errors(sources[i], found[i]).len(),
    ensures
        all_errors(sources, found, n).contains(path_errors(sources[i], found[i])[j]),
    decreases n,
{
    let x = path_errors(sources[i], found[i])[j];
    let before = all_errors(sources, found, (n - 1) as nat);
    let all = all_errors(sources, found, n);
    if i < n - 1 {
        law_all_errors_told(sources, found, (n - 1) as nat, i, j);
        let k = choose|k: int| 0 <= k < before.len() && before[k] == x;
        assert(all[k] == x);
    } else {
        assert(all[before.len() + j] == x);
    }
}

} // verus!
