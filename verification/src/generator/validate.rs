//! Whether all files that a setup names are there.
use crate::error::{ErrorModel, GantryError};
use crate::generator::schema::{
    FileDef, FileModel, ImageDef, ImageModel, ServiceDef, ServiceDefModel, SetupJson, SetupModel,
};
use crate::text::{cat3, cat5, ends_with, join, joined, strip_suffix, Str};
use vstd::prelude::*;

verus! {

/// What is expected of a path.
#[derive(Debug, Clone, Copy, PartialEq, Eq, Structural)]
pub enum Expected {
    Dockerfile,
    Directory,
    File,
    Template,
}

/// A path that a setup names: its parts, one below the other.
pub struct Source {
    /// The service that names it. None names a file that the services share.
    pub service: Option<String>,
    pub expected: Expected,
    pub context: Option<String>,
    pub path: String,
}

/// The model of a [`Source`].
#[verifier::ext_equal]
pub struct SourceModel {
    pub service: Option<Str>,
    pub expected: Expected,
    pub context: Option<Str>,
    pub path: Str,
}

impl DeepView for Source {
    type V = SourceModel;

    open spec fn deep_view(&self) -> SourceModel {
        SourceModel {
            service: self.service.deep_view(),
            expected: self.expected,
            context: self.context.deep_view(),
            path: self.path@,
        }
    }
}

/// What is found at a path.
pub struct Found {
    /// The whole path, as it is told.
    pub shown: String,
    pub is_file: bool,
    pub is_dir: bool,
}

/// The model of a [`Found`].
#[verifier::ext_equal]
pub struct FoundModel {
    pub shown: Str,
    pub is_file: bool,
    pub is_dir: bool,
}

impl DeepView for Found {
    type V = FoundModel;

    open spec fn deep_view(&self) -> FoundModel {
        FoundModel { shown: self.shown@, is_file: self.is_file, is_dir: self.is_dir }
    }
}

/// What is expected of a file of a service. A slash at the end stands for a directory.
pub open spec fn expected_of(f: FileModel) -> Expected {
    if ends_with(f.src, "/"@) {
        Expected::Directory
    } else if f.template {
        Expected::Template
    } else {
        Expected::File
    }
}

/// The path of a file of a service, or of one that the services share.
pub open spec fn file_source(service: Option<Str>, f: FileModel) -> SourceModel {
    SourceModel { service, expected: expected_of(f), context: None, path: f.src }
}

/// The paths of some files.
pub open spec fn file_sources(service: Option<Str>, files: Seq<FileModel>) -> Seq<SourceModel> {
    Seq::new(files.len(), |i: int| file_source(service, files[i]))
}

/// The paths that a service names: that of its Dockerfile, and those of its files.
pub open spec fn service_sources(name: Str, d: ServiceDefModel) -> Seq<SourceModel> {
    let build = match d.image {
        ImageModel::Build { build } => seq![
            SourceModel {
                service: Some(name),
                expected: Expected::Dockerfile,
                context: Some(build.context),
                path: build.dockerfile,
            },
        ],
        ImageModel::Prebuilt(_) => Seq::empty(),
    };
    build + file_sources(Some(name), d.files)
}

/// The paths that some services name.
pub open spec fn sources_of(s: SetupModel, names: Seq<Str>) -> Seq<SourceModel>
    decreases names.len(),
{
    if names.len() == 0 {
        Seq::empty()
    } else {
        sources_of(s, names.drop_last()) + service_sources(
            names.last(),
            s.services.at(names.last()),
        )
    }
}

/// All paths that a setup names: those of its services, then those of the shared files.
pub open spec fn setup_sources(s: SetupModel) -> Seq<SourceModel> {
    sources_of(s, s.services.keys) + file_sources(None, s.files)
}

fn list_file_sources(service: Option<&str>, files: &Vec<FileDef>, out: &mut Vec<Source>)
    ensures
        final(out).deep_view() == old(out).deep_view() + file_sources(
            match service {
                Some(s) => Some(s@),
                None => None,
            },
            files.deep_view(),
        ),
{
    let ghost before = out.deep_view();
    let ghost all = files.deep_view();
    let ghost owner = match service {
        Some(s) => Some(s@),
        None => None,
    };
    let mut i: usize = 0;
    assert(before =~= before + file_sources(owner, all.take(0)));
    while i < files.len()
        invariant
            all == files.deep_view(),
            owner == (match service {
                Some(s) => Some(s@),
                None => None,
            }),
            i <= files.len(),
            out.deep_view() == before + file_sources(owner, all.take(i as int)),
        decreases files.len() - i,
    {
        let file = &files[i];
        assert(all[i as int] == file.deep_view());
        let expected = if strip_suffix(file.src.as_str(), "/").is_some() {
            Expected::Directory
        } else if file.template {
            Expected::Template
        } else {
            Expected::File
        };
        let source = Source {
            service: match service {
                Some(s) => Some(s.to_owned()),
                None => None,
            },
            expected,
            context: None,
            path: file.src.clone(),
        };
        let ghost t = source.deep_view();
        assert(t == file_source(owner, all[i as int]));
        let ghost prev = out.deep_view();
        out.push(source);
        assert(out.deep_view() =~= prev.push(t));
        i = i + 1;
        assert(out.deep_view() =~= before + file_sources(owner, all.take(i as int)));
    }
    assert(all.take(i as int) =~= all);
}

fn list_service_sources(name: &str, d: &ServiceDef, out: &mut Vec<Source>)
    ensures
        final(out).deep_view() == old(out).deep_view() + service_sources(name@, d.deep_view()),
{
    let ghost start = out.deep_view();
    if let ImageDef::Build { build } = &d.image {
        let source = Source {
            service: Some(name.to_owned()),
            expected: Expected::Dockerfile,
            context: Some(build.context.clone()),
            path: build.dockerfile.clone(),
        };
        let ghost t = source.deep_view();
        out.push(source);
        assert(out.deep_view() =~= start.push(t));
    }
    list_file_sources(Some(name), &d.files, out);
    assert(out.deep_view() =~= start + service_sources(name@, d.deep_view()));
}

/// Lists the paths that a setup names.
pub fn list_sources(setup: &SetupJson) -> (r: Vec<Source>)
    requires
        setup.wf(),
    ensures
        r.deep_view() == setup_sources(setup.deep_view()),
{
    let ghost s = setup.deep_view();
    let ghost keys = s.services.keys;
    let mut out: Vec<Source> = Vec::new();
    let n: usize = setup.services.len();
    let mut i: usize = 0;
    assert(out.deep_view() =~= Seq::<SourceModel>::empty());
    while i < n
        invariant
            setup.wf(),
            s == setup.deep_view(),
            keys == s.services.keys,
            i <= n == keys.len(),
            out.deep_view() == sources_of(s, keys.take(i as int)),
        decreases n - i,
    {
        let ghost next = keys.take(i + 1);
        assert(next.drop_last() =~= keys.take(i as int));
        assert(next.last() == keys[i as int]);
        list_service_sources(
            setup.services.name(i).as_str(),
            setup.services.value(i),
            &mut out,
        );
        i = i + 1;
    }
    assert(keys.take(i as int) =~= keys);
    list_file_sources(None, &setup.files, &mut out);
    out
}

/// A line of what is wrong with a service, or with the shared files.
pub open spec fn error_line(service: Option<Str>, what: Str, shown: Str) -> Str {
    match service {
        Some(name) => "service '"@ + name + "': "@ + what + shown,
        None => "shared files: "@ + what + shown,
    }
}

/// What is wrong with a path.
pub open spec fn path_errors(s: SourceModel, f: FoundModel) -> Seq<Str> {
    match s.expected {
        Expected::Dockerfile => if f.is_file {
            Seq::empty()
        } else {
            seq![error_line(s.service, "Dockerfile not found: "@, f.shown)]
        },
        Expected::Directory => if f.is_dir {
            Seq::empty()
        } else {
            seq![error_line(s.service, "directory not found: "@, f.shown)]
        },
        Expected::File => if f.is_file {
            Seq::empty()
        } else {
            seq![error_line(s.service, "file not found: "@, f.shown)]
        },
        Expected::Template => {
            let missing = if f.is_file {
                Seq::empty()
            } else {
                seq![error_line(s.service, "file not found: "@, f.shown)]
            };
            if f.is_dir {
                missing.push(
                    error_line(
                        s.service,
                        "template source must be a file, not directory: "@,
                        f.shown,
                    ),
                )
            } else {
                missing
            }
        },
    }
}

/// What is wrong with the first `n` paths.
pub open spec fn all_errors(sources: Seq<SourceModel>, found: Seq<FoundModel>, n: nat) -> Seq<Str>
    decreases n,
{
    if n == 0 {
        Seq::empty()
    } else {
        all_errors(sources, found, (n - 1) as nat) + path_errors(sources[n - 1], found[n - 1])
    }
}

fn push_error(out: &mut Vec<String>, service: &Option<String>, what: &str, shown: &str)
    ensures
        final(out).deep_view() == old(out).deep_view().push(
            error_line(service.deep_view(), what@, shown@),
        ),
{
    let ghost before = out.deep_view();
    let line = match service {
        Some(name) => cat5("service '", name.as_str(), "': ", what, shown),
        None => cat3("shared files: ", what, shown),
    };
    out.push(line);
    assert(out.deep_view() =~= before.push(line@));
}

fn tell_path(s: &Source, f: &Found, out: &mut Vec<String>)
    ensures
        final(out).deep_view() == old(out).deep_view() + path_errors(
            s.deep_view(),
            f.deep_view(),
        ),
{
    let ghost before = out.deep_view();
    let service = &s.service;
    let shown = f.shown.as_str();
    match s.expected {
        Expected::Dockerfile => {
            if !f.is_file {
                push_error(out, service, "Dockerfile not found: ", shown);
            }
        },
        Expected::Directory => {
            if !f.is_dir {
                push_error(out, service, "directory not found: ", shown);
            }
        },
        Expected::File => {
            if !f.is_file {
                push_error(out, service, "file not found: ", shown);
            }
        },
        Expected::Template => {
            if !f.is_file {
                push_error(out, service, "file not found: ", shown);
            }
            if f.is_dir {
                push_error(
                    out,
                    service,
                    "template source must be a file, not directory: ",
                    shown,
                );
            }
        },
    }
    assert(out.deep_view() =~= before + path_errors(s.deep_view(), f.deep_view()));
}

/// Looks whether all paths that a setup names are there. All that are not are told together.
pub fn validate(sources: &Vec<Source>, found: &Vec<Found>) -> (r: Result<(), GantryError>)
    requires
        sources.len() == found.len(),
    ensures
        ({
            let errors = all_errors(
                sources.deep_view(),
                found.deep_view(),
                sources.deep_view().len(),
            );
            match r {
                Ok(_) => errors.len() == 0,
                Err(e) => errors.len() > 0 && e.deep_view() == ErrorModel::Validation(
                    joined(errors, "\n"@),
                ),
            }
        }),
{
    let ghost ss = sources.deep_view();
    let ghost ff = found.deep_view();
    let mut errors: Vec<String> = Vec::new();
    let mut i: usize = 0;
    assert(errors.deep_view() =~= Seq::<Str>::empty());
    while i < sources.len()
        invariant
            sources.len() == found.len(),
            ss == sources.deep_view(),
            ff == found.deep_view(),
            i <= sources.len(),
            errors.deep_view() == all_errors(ss, ff, i as nat),
        decreases sources.len() - i,
    {
        assert(ss[i as int] == sources[i as int].deep_view());
        assert(ff[i as int] == found[i as int].deep_view());
        tell_path(&sources[i], &found[i], &mut errors);
        i = i + 1;
    }
    assert(errors.deep_view().len() == errors.len());
    if errors.len() == 0 {
        Ok(())
    } else {
        Err(GantryError::Validation(join(&errors, "\n")))
    }
}

/// Whether what is found at a path is what is expected there.
pub open spec fn is_there(s: SourceModel, f: FoundModel) -> bool {
    match s.expected {
        Expected::Dockerfile => f.is_file,
        Expected::Directory => f.is_dir,
        Expected::File => f.is_file,
        Expected::Template => f.is_file && !f.is_dir,
    }
}

/// Nothing is wrong with some paths if and only if at each what is expected is found.
pub proof fn law_all_there(sources: Seq<SourceModel>, found: Seq<FoundModel>, n: nat)
    requires
        n <= sources.len(),
        n <= found.len(),
    ensures
        all_errors(sources, found, n).len() == 0 <==> forall|i: int|
            0 <= i < n ==> is_there(#[trigger] sources[i], found[i]),
    decreases n,
{
    if n > 0 {
        law_all_there(sources, found, (n - 1) as nat);
        let last = path_errors(sources[n - 1], found[n - 1]);
        assert(last.len() == 0 <==> is_there(sources[n - 1], found[n - 1]));
        assert(all_errors(sources, found, n).len() == all_errors(
            sources,
            found,
            (n - 1) as nat,
        ).len() + last.len());
    }
}

} // verus!
