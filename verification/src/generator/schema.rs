//! The definition of a setup.
use crate::json::{Json, JsonModel};
use crate::ordered_map::{
    changed_up_to, lemma_changed_all, lemma_changed_next, map_table, Item, OrderedMap, Table,
};
use crate::text::{cat3, Str};
use vstd::prelude::*;

verus! {

/// The image of a service: one that exists, or one that is built.
#[derive(Debug)]
pub enum ImageDef {
    Prebuilt(String),
    Build { build: BuildDef },
}

/// The model of an [`ImageDef`].
#[verifier::ext_equal]
pub enum ImageModel {
    Prebuilt(Str),
    Build { build: BuildModel },
}

impl DeepView for ImageDef {
    type V = ImageModel;

    open spec fn deep_view(&self) -> ImageModel {
        match *self {
            ImageDef::Prebuilt(image) => ImageModel::Prebuilt(image@),
            ImageDef::Build { build } => ImageModel::Build { build: build.deep_view() },
        }
    }
}

/// A named volume.
#[derive(Debug)]
pub struct VolumeConfig {
    pub driver: Option<String>,
}

/// The model of a [`VolumeConfig`].
#[verifier::ext_equal]
pub struct VolumeModel {
    pub driver: Option<Str>,
}

impl DeepView for VolumeConfig {
    type V = VolumeModel;

    open spec fn deep_view(&self) -> VolumeModel {
        VolumeModel {
            driver: self.driver.deep_view(),
        }
    }
}

impl Item for VolumeConfig {
    open spec fn ok(&self) -> bool {
        true
    }
}

/// How an image is built.
#[derive(Debug)]
pub struct BuildDef {
    pub context: String,
    pub dockerfile: String,
}

/// The model of a [`BuildDef`].
#[verifier::ext_equal]
pub struct BuildModel {
    pub context: Str,
    pub dockerfile: Str,
}

impl DeepView for BuildDef {
    type V = BuildModel;

    open spec fn deep_view(&self) -> BuildModel {
        BuildModel {
            context: self.context@,
            dockerfile: self.dockerfile@,
        }
    }
}

/// A file or a directory that is copied, or a template that is filled in.
#[derive(Debug)]
pub struct FileDef {
    pub src: String,
    pub dst: String,
    pub template: bool,
    /// What the template is filled in with.
    pub context: Option<Json>,
}

/// The model of a [`FileDef`].
#[verifier::ext_equal]
pub struct FileModel {
    pub src: Str,
    pub dst: Str,
    pub template: bool,
    pub context: Option<JsonModel>,
}

impl DeepView for FileDef {
    type V = FileModel;

    open spec fn deep_view(&self) -> FileModel {
        FileModel {
            src: self.src@,
            dst: self.dst@,
            template: self.template,
            context: self.context.deep_view(),
        }
    }
}

/// A check, as it is passed on.
pub struct ProbeDef {
    pub probe_type: String,
    pub extra: OrderedMap<Json>,
}

/// The model of a [`ProbeDef`].
#[verifier::ext_equal]
pub struct ProbeDefModel {
    pub probe_type: Str,
    pub extra: Table<JsonModel>,
}

impl DeepView for ProbeDef {
    type V = ProbeDefModel;

    open spec fn deep_view(&self) -> ProbeDefModel {
        ProbeDefModel {
            probe_type: self.probe_type@,
            extra: self.extra.deep_view(),
        }
    }
}

impl Item for ProbeDef {
    open spec fn ok(&self) -> bool {
        self.extra.wf()
    }
}

/// A probe of a service.
pub struct ProbeEntryDef {
    pub probe: ProbeDef,
    pub depends_on: Vec<String>,
}

/// The model of a [`ProbeEntryDef`].
#[verifier::ext_equal]
pub struct ProbeEntryDefModel {
    pub probe: ProbeDefModel,
    pub depends_on: Seq<Str>,
}

impl DeepView for ProbeEntryDef {
    type V = ProbeEntryDefModel;

    open spec fn deep_view(&self) -> ProbeEntryDefModel {
        ProbeEntryDefModel {
            probe: self.probe.deep_view(),
            depends_on: self.depends_on.deep_view(),
        }
    }
}

impl Item for ProbeEntryDef {
    open spec fn ok(&self) -> bool {
        self.probe.ok()
    }
}

/// A target.
#[derive(Debug)]
pub struct TargetDef {
    pub probes: Vec<String>,
    pub depends_on: Vec<String>,
}

/// The model of a [`TargetDef`].
#[verifier::ext_equal]
pub struct TargetDefModel {
    pub probes: Seq<Str>,
    pub depends_on: Seq<Str>,
}

impl DeepView for TargetDef {
    type V = TargetDefModel;

    open spec fn deep_view(&self) -> TargetDefModel {
        TargetDefModel {
            probes: self.probes.deep_view(),
            depends_on: self.depends_on.deep_view(),
        }
    }
}

impl Item for TargetDef {
    open spec fn ok(&self) -> bool {
        true
    }
}

/// How checks are repeated.
#[derive(Debug)]
pub struct BackoffDef {
    pub initial: Option<String>,
    pub max: Option<String>,
    /// A number, as it is written.
    pub multiplier: Option<String>,
}

/// The model of a [`BackoffDef`].
#[verifier::ext_equal]
pub struct BackoffModel {
    pub initial: Option<Str>,
    pub max: Option<Str>,
    pub multiplier: Option<Str>,
}

impl DeepView for BackoffDef {
    type V = BackoffModel;

    open spec fn deep_view(&self) -> BackoffModel {
        BackoffModel {
            initial: self.initial.deep_view(),
            max: self.max.deep_view(),
            multiplier: self.multiplier.deep_view(),
        }
    }
}

/// What holds unless something else is said.
#[derive(Debug)]
pub struct DefaultsDef {
    pub tcp_probe_timeout: Option<String>,
    pub log_probe_timeout: Option<String>,
    pub restart_on_fail: Option<bool>,
    pub probe_backoff: Option<BackoffDef>,
}

/// The model of a [`DefaultsDef`].
#[verifier::ext_equal]
pub struct DefaultsModel {
    pub tcp_probe_timeout: Option<Str>,
    pub log_probe_timeout: Option<Str>,
    pub restart_on_fail: Option<bool>,
    pub probe_backoff: Option<BackoffModel>,
}

impl DeepView for DefaultsDef {
    type V = DefaultsModel;

    open spec fn deep_view(&self) -> DefaultsModel {
        DefaultsModel {
            tcp_probe_timeout: self.tcp_probe_timeout.deep_view(),
            log_probe_timeout: self.log_probe_timeout.deep_view(),
            restart_on_fail: self.restart_on_fail,
            probe_backoff: self.probe_backoff.deep_view(),
        }
    }
}

/// A service.
pub struct ServiceDef {
    /// Empty, where it follows from the names of the setup and of the service.
    pub container_name: String,
    pub image: ImageDef,
    pub config: Option<Json>,
    pub env: OrderedMap<String>,
    pub ports: Vec<String>,
    pub volumes: Vec<String>,
    pub command: Option<Json>,
    pub entrypoint: Option<Json>,
    pub user: Option<String>,
    pub working_dir: Option<String>,
    pub hostname: Option<String>,
    pub cap_add: Vec<String>,
    pub cap_drop: Vec<String>,
    pub privileged: Option<bool>,
    pub labels: OrderedMap<String>,
    pub extra_hosts: Vec<String>,
    pub init: Option<bool>,
    pub stop_grace_period: Option<String>,
    pub files: Vec<FileDef>,
    pub start_after: Vec<String>,
    pub restart_on_fail: Option<bool>,
    pub probes: OrderedMap<ProbeEntryDef>,
}

/// The model of a [`ServiceDef`].
#[verifier::ext_equal]
pub struct ServiceDefModel {
    pub container_name: Str,
    pub image: ImageModel,
    pub config: Option<JsonModel>,
    pub env: Table<Str>,
    pub ports: Seq<Str>,
    pub volumes: Seq<Str>,
    pub command: Option<JsonModel>,
    pub entrypoint: Option<JsonModel>,
    pub user: Option<Str>,
    pub working_dir: Option<Str>,
    pub hostname: Option<Str>,
    pub cap_add: Seq<Str>,
    pub cap_drop: Seq<Str>,
    pub privileged: Option<bool>,
    pub labels: Table<Str>,
    pub extra_hosts: Seq<Str>,
    pub init: Option<bool>,
    pub stop_grace_period: Option<Str>,
    pub files: Seq<FileModel>,
    pub start_after: Seq<Str>,
    pub restart_on_fail: Option<bool>,
    pub probes: Table<ProbeEntryDefModel>,
}

impl DeepView for ServiceDef {
    type V = ServiceDefModel;

    open spec fn deep_view(&self) -> ServiceDefModel {
        ServiceDefModel {
            container_name: self.container_name@,
            image: self.image.deep_view(),
            config: self.config.deep_view(),
            env: self.env.deep_view(),
            ports: self.ports.deep_view(),
            volumes: self.volumes.deep_view(),
            command: self.command.deep_view(),
            entrypoint: self.entrypoint.deep_view(),
            user: self.user.deep_view(),
            working_dir: self.working_dir.deep_view(),
            hostname: self.hostname.deep_view(),
            cap_add: self.cap_add.deep_view(),
            cap_drop: self.cap_drop.deep_view(),
            privileged: self.privileged,
            labels: self.labels.deep_view(),
            extra_hosts: self.extra_hosts.deep_view(),
            init: self.init,
            stop_grace_period: self.stop_grace_period.deep_view(),
            files: self.files.deep_view(),
            start_after: self.start_after.deep_view(),
            restart_on_fail: self.restart_on_fail,
            probes: self.probes.deep_view(),
        }
    }
}

impl Item for ServiceDef {
    open spec fn ok(&self) -> bool {
        &&& self.env.wf()
        &&& self.labels.wf()
        &&& self.probes.wf()
    }
}

/// A setup.
pub struct SetupJson {
    /// Empty, where it is that of the directory.
    pub name: String,
    pub services: OrderedMap<ServiceDef>,
    pub targets: OrderedMap<TargetDef>,
    pub defaults: Option<DefaultsDef>,
    pub files: Vec<FileDef>,
    pub volumes: OrderedMap<VolumeConfig>,
}

/// The model of a [`SetupJson`].
#[verifier::ext_equal]
pub struct SetupModel {
    pub name: Str,
    pub services: Table<ServiceDefModel>,
    pub targets: Table<TargetDefModel>,
    pub defaults: Option<DefaultsModel>,
    pub files: Seq<FileModel>,
    pub volumes: Table<VolumeModel>,
}

impl DeepView for SetupJson {
    type V = SetupModel;

    open spec fn deep_view(&self) -> SetupModel {
        SetupModel {
            name: self.name@,
            services: self.services.deep_view(),
            targets: self.targets.deep_view(),
            defaults: self.defaults.deep_view(),
            files: self.files.deep_view(),
            volumes: self.volumes.deep_view(),
        }
    }
}

impl SetupJson {
    /// The tables are in order.
    pub open spec fn wf(&self) -> bool {
        &&& self.services.wf()
        &&& self.targets.wf()
        &&& self.volumes.wf()
    }
}

/// A service with a name for its container.
pub open spec fn named_service(setup: Str, name: Str, d: ServiceDefModel) -> ServiceDefModel {
    ServiceDefModel {
        container_name: if d.container_name.len() == 0 {
            setup + "-"@ + name
        } else {
            d.container_name
        },
        ..d
    }
}

/// A setup with a name, and with names for all containers.
pub open spec fn named(s: SetupModel, name: Str) -> SetupModel {
    let own = if s.name.len() == 0 {
        name
    } else {
        s.name
    };
    SetupModel {
        name: own,
        services: map_table(
            s.services,
            |k: Str, d: ServiceDefModel| named_service(own, k, d),
        ),
        ..s
    }
}

impl SetupJson {
    /// Fills in the name of the setup and the names of the containers, where they are missing.
    pub fn fill_names(&mut self, setup_name: &str)
        requires
            old(self).wf(),
        ensures
            final(self).wf(),
            final(self).deep_view() == named(old(self).deep_view(), setup_name@),
    {
        let ghost start = self.deep_view();
        let ghost t = start.services;
        if self.name.as_str().unicode_len() == 0 {
            self.name = setup_name.to_owned();
        }
        let own = self.name.clone();
        let ghost f = |k: Str, d: ServiceDefModel| named_service(own@, k, d);
        proof {
            self.services.lemma_valid();
        }
        let n: usize = self.services.len();
        let mut i: usize = 0;
        while i < n
            invariant
                self.wf(),
                t == start.services,
                t.valid(),
                f == (|k: Str, d: ServiceDefModel| named_service(own@, k, d)),
                i <= n == t.keys.len(),
                self.deep_view() == (SetupModel {
                    name: own@,
                    services: self.deep_view().services,
                    ..start
                }),
                changed_up_to(t, f, i as int, self.deep_view().services),
            decreases n - i,
        {
            proof {
                lemma_changed_next(t, f, i as int, self.deep_view().services);
            }
            let container = cat3(own.as_str(), "-", self.services.name(i).as_str());
            let d = self.services.value_mut(i);
            if d.container_name.as_str().unicode_len() == 0 {
                d.container_name = container;
            }
            i = i + 1;
        }
        proof {
            lemma_changed_all(t, f, self.deep_view().services);
        }
    }
}

} // verus!
