//! The configuration: services with their probes, and targets.
use crate::duration::Duration;
use crate::ordered_map::{Item, OrderedMap, Table};
use crate::text::{cat, cat3, copy_option, decimal, decimal_text, Str};
use vstd::prelude::*;

verus! {

/// How a probe checks its service.
#[derive(Debug)]
pub enum ProbeConfig {
    /// A connection to a port.
    Tcp {
        /// The host to connect to. By default, the name of the service.
        host: Option<String>,
        port: u16,
        timeout: Duration,
    },
    /// A pattern in the container's log.
    Log { success: String, failure: Option<String>, timeout: Duration },
    /// No check of its own: the probe follows what it depends on.
    Meta,
}

/// The model of a [`ProbeConfig`].
#[verifier::ext_equal]
pub enum ProbeConfigModel {
    Tcp { host: Option<Str>, port: u16, timeout: Duration },
    Log { success: Str, failure: Option<Str>, timeout: Duration },
    Meta,
}

impl DeepView for ProbeConfig {
    type V = ProbeConfigModel;

    open spec fn deep_view(&self) -> ProbeConfigModel {
        match *self {
            ProbeConfig::Tcp { host, port, timeout } => ProbeConfigModel::Tcp {
                host: host.deep_view(),
                port,
                timeout,
            },
            ProbeConfig::Log { success, failure, timeout } => ProbeConfigModel::Log {
                success: success@,
                failure: failure.deep_view(),
                timeout,
            },
            ProbeConfig::Meta => ProbeConfigModel::Meta,
        }
    }
}

impl Clone for ProbeConfig {
    fn clone(&self) -> (r: Self)
        ensures
            r == *self,
    {
        match self {
            ProbeConfig::Tcp { host, port, timeout } => ProbeConfig::Tcp {
                host: copy_option(host),
                port: *port,
                timeout: *timeout,
            },
            ProbeConfig::Log { success, failure, timeout } => ProbeConfig::Log {
                success: success.clone(),
                failure: copy_option(failure),
                timeout: *timeout,
            },
            ProbeConfig::Meta => ProbeConfig::Meta,
        }
    }
}

/// A probe as it is configured: how it checks, and the probes it depends on.
pub struct ProbeEntry {
    pub probe: ProbeConfig,
    pub depends_on: Vec<String>,
}

/// The model of a [`ProbeEntry`].
#[verifier::ext_equal]
pub struct ProbeEntryModel {
    pub probe: ProbeConfigModel,
    pub depends_on: Seq<Str>,
}

impl DeepView for ProbeEntry {
    type V = ProbeEntryModel;

    open spec fn deep_view(&self) -> ProbeEntryModel {
        ProbeEntryModel {
            probe: self.probe.deep_view(),
            depends_on: self.depends_on.deep_view(),
        }
    }
}

impl Item for ProbeEntry {
    open spec fn ok(&self) -> bool {
        true
    }
}

/// A service as it is configured.
pub struct ServiceConfig {
    pub container: String,
    /// The probes that must be green before the service is started.
    pub start_after: Vec<String>,
    pub probes: OrderedMap<ProbeEntry>,
    /// Whether converging may restart the service. By default, as in [`DefaultsConfig`].
    pub restart_on_fail: Option<bool>,
}

/// The model of a [`ServiceConfig`].
#[verifier::ext_equal]
pub struct ServiceConfigModel {
    pub container: Str,
    pub start_after: Seq<Str>,
    pub probes: Table<ProbeEntryModel>,
    pub restart_on_fail: Option<bool>,
}

impl DeepView for ServiceConfig {
    type V = ServiceConfigModel;

    open spec fn deep_view(&self) -> ServiceConfigModel {
        ServiceConfigModel {
            container: self.container@,
            start_after: self.start_after.deep_view(),
            probes: self.probes.deep_view(),
            restart_on_fail: self.restart_on_fail,
        }
    }
}

impl Item for ServiceConfig {
    open spec fn ok(&self) -> bool {
        self.probes.wf()
    }
}

/// A target as it is configured: a named set of probes, and the targets it depends on.
pub struct TargetConfig {
    pub probes: Vec<String>,
    pub depends_on: Vec<String>,
}

/// The model of a [`TargetConfig`].
#[verifier::ext_equal]
pub struct TargetConfigModel {
    pub probes: Seq<Str>,
    pub depends_on: Seq<Str>,
}

impl DeepView for TargetConfig {
    type V = TargetConfigModel;

    open spec fn deep_view(&self) -> TargetConfigModel {
        TargetConfigModel {
            probes: self.probes.deep_view(),
            depends_on: self.depends_on.deep_view(),
        }
    }
}

impl Item for TargetConfig {
    open spec fn ok(&self) -> bool {
        true
    }
}

/// How long to wait between the attempts of a probe: at first, and at most. The factor
/// between two waits belongs to the timer that draws them.
#[derive(Debug, Clone, Copy, PartialEq, Eq, Structural)]
pub struct BackoffConfig {
    pub initial: Duration,
    pub max: Duration,
}

impl Default for BackoffConfig {
    fn default() -> (r: Self)
        ensures
            r.initial.millis == 100,
            r.max.millis == 5000,
    {
        BackoffConfig { initial: Duration::from_millis(100), max: Duration::from_secs(5) }
    }
}

/// What holds where a service or a probe says nothing else.
#[derive(Debug, Clone, Copy, PartialEq, Eq, Structural)]
pub struct DefaultsConfig {
    pub tcp_probe_timeout: Duration,
    pub log_probe_timeout: Duration,
    pub probe_backoff: BackoffConfig,
    pub restart_on_fail: bool,
}

impl Default for DefaultsConfig {
    fn default() -> (r: Self)
        ensures
            r.tcp_probe_timeout.millis == 10000,
            r.log_probe_timeout.millis == 30000,
            r.probe_backoff.initial.millis == 100,
            r.probe_backoff.max.millis == 5000,
            r.restart_on_fail,
    {
        DefaultsConfig {
            tcp_probe_timeout: Duration::from_secs(10),
            log_probe_timeout: Duration::from_secs(30),
            probe_backoff: BackoffConfig::default(),
            restart_on_fail: true,
        }
    }
}

/// The whole configuration.
pub struct GantryConfig {
    pub services: OrderedMap<ServiceConfig>,
    pub targets: OrderedMap<TargetConfig>,
    pub defaults: DefaultsConfig,
}

/// The model of a [`GantryConfig`].
#[verifier::ext_equal]
pub struct ConfigModel {
    pub services: Table<ServiceConfigModel>,
    pub targets: Table<TargetConfigModel>,
    pub defaults: DefaultsConfig,
}

impl DeepView for GantryConfig {
    type V = ConfigModel;

    open spec fn deep_view(&self) -> ConfigModel {
        ConfigModel {
            services: self.services.deep_view(),
            targets: self.targets.deep_view(),
            defaults: self.defaults,
        }
    }
}

impl GantryConfig {
    /// The maps of the configuration are in order.
    pub open spec fn wf(&self) -> bool {
        self.services.wf() && self.targets.wf()
    }
}

impl ProbeConfig {
    /// Whether the probe has no check of its own.
    pub fn is_meta(&self) -> (r: bool)
        ensures
            r == (self.deep_view() is Meta),
    {
        match self {
            ProbeConfig::Meta => true,
            _ => false,
        }
    }

    /// The kind of check, with the port or the pattern.
    pub fn display_type(&self) -> (r: String)
        ensures
            r@ == self.deep_view().display(),
    {
        match self {
            ProbeConfig::Tcp { port, .. } => cat("tcp :", decimal_text(*port as u64).as_str()),
            ProbeConfig::Log { success, .. } => cat3("log \"", success.as_str(), "\""),
            ProbeConfig::Meta => "meta".to_owned(),
        }
    }
}

impl ProbeConfigModel {
    /// The kind of check, with the port or the pattern.
    pub open spec fn display(self) -> Str {
        match self {
            ProbeConfigModel::Tcp { port, .. } => "tcp :"@ + decimal(port as nat),
            ProbeConfigModel::Log { success, .. } => "log \""@ + success + "\""@,
            ProbeConfigModel::Meta => "meta"@,
        }
    }
}

impl ServiceConfig {
    /// Whether converging may restart the service.
    pub fn restart_on_fail(&self, defaults: &DefaultsConfig) -> (r: bool)
        ensures
            r == restarts(self.restart_on_fail, *defaults),
    {
        match self.restart_on_fail {
            Some(r) => r,
            None => defaults.restart_on_fail,
        }
    }
}

/// Whether converging may restart a service: as it says itself, or else by default.
pub open spec fn restarts(own: Option<bool>, defaults: DefaultsConfig) -> bool {
    match own {
        Some(r) => r,
        None => defaults.restart_on_fail,
    }
}

} // verus!
