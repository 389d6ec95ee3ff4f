//! What the container engine tells of a container.
use crate::model::ServiceState;
use crate::text::Str;
use vstd::prelude::*;

verus! {

/// What is known of a container.
#[derive(Debug)]
pub struct ContainerInfo {
    pub running: bool,
    pub exit_code: i64,
    /// When it was last started, in seconds since the unix epoch.
    pub started_at: i64,
}

/// The result of reading a date and time: the seconds since the unix epoch, or nothing.
pub uninterp spec fn rfc3339_seconds(s: Str) -> Option<i64>;

/// `chrono::DateTime::parse_from_rfc3339` reads a date and time. What it makes of a text
/// depends on the text alone. The seconds are those of `DateTime::timestamp`.
#[verifier::external_body]
fn parse_rfc3339(s: &str) -> (r: Option<i64>)
    ensures
        r == rfc3339_seconds(s@),
{
    chrono::DateTime::parse_from_rfc3339(s).ok().map(|t| t.timestamp())
}

/// What is known of a container, where what is missing counts as not running, as an exit
/// without an error, and as started at the beginning of time.
pub open spec fn info_of(
    running: Option<bool>,
    exit_code: Option<i64>,
    started_at: Option<i64>,
) -> ContainerInfo {
    ContainerInfo {
        running: running == Some(true),
        exit_code: match exit_code {
            Some(c) => c,
            None => 0,
        },
        started_at: match started_at {
            Some(t) => t,
            None => 0,
        },
    }
}

/// Fills in what is not known of a container.
pub fn container_info(
    running: Option<bool>,
    exit_code: Option<i64>,
    started_at: Option<i64>,
) -> (r: ContainerInfo)
    ensures
        r == info_of(running, exit_code, started_at),
{
    ContainerInfo {
        running: match running {
            Some(b) => b,
            None => false,
        },
        exit_code: match exit_code {
            Some(c) => c,
            None => 0,
        },
        started_at: match started_at {
            Some(t) => t,
            None => 0,
        },
    }
}

/// Reads what the container engine tells of a container.
pub fn inspect_container(
    running: Option<bool>,
    exit_code: Option<i64>,
    started_at: Option<&str>,
) -> (r: ContainerInfo)
    ensures
        r == info_of(
            running,
            exit_code,
            match started_at {
                Some(s) => rfc3339_seconds(s@),
                None => None,
            },
        ),
{
    let seconds = match started_at {
        Some(s) => parse_rfc3339(s),
        None => None,
    };
    container_info(running, exit_code, seconds)
}

/// The time from which on the log lines of a container count.
pub open spec fn log_since_of(info: Option<ContainerInfo>) -> i64 {
    match info {
        Some(i) => i.started_at,
        None => 0,
    }
}

/// The time from which on the log lines of a container count.
pub fn log_since(info: &Option<ContainerInfo>) -> (r: i64)
    ensures
        r == log_since_of(*info),
{
    match info {
        Some(i) => i.started_at,
        None => 0,
    }
}

/// The state of a service, by what is known of its container.
pub open spec fn state_by(info: Option<ContainerInfo>) -> ServiceState {
    match info {
        Some(i) => if i.running {
            ServiceState::Running
        } else if i.exit_code != 0 {
            ServiceState::Crashed
        } else {
            ServiceState::Stopped
        },
        None => ServiceState::Stopped,
    }
}

/// The state of a service, by what is known of its container.
pub fn service_state(info: &Option<ContainerInfo>) -> (r: ServiceState)
    ensures
        r == state_by(*info),
{
    match info {
        Some(i) => {
            if i.running {
                ServiceState::Running
            } else if i.exit_code != 0 {
                ServiceState::Crashed
            } else {
                ServiceState::Stopped
            }
        },
        None => ServiceState::Stopped,
    }
}

} // verus!
