//! The errors of the library.
use crate::text::{cat, cat3, Str};
use vstd::prelude::*;

verus! {

/// What can go wrong.
#[derive(Debug)]
pub enum GantryError {
    Config(String),
    Validation(String),
    Docker(String),
    Operation(String),
    Timeout,
    Conflict(String),
    NotFound(String),
}

/// The model of a [`GantryError`].
#[verifier::ext_equal]
pub enum ErrorModel {
    Config(Str),
    Validation(Str),
    Docker(Str),
    Operation(Str),
    Timeout,
    Conflict(Str),
    NotFound(Str),
}

impl DeepView for GantryError {
    type V = ErrorModel;

    open spec fn deep_view(&self) -> ErrorModel {
        match *self {
            GantryError::Config(m) => ErrorModel::Config(m@),
            GantryError::Validation(m) => ErrorModel::Validation(m@),
            GantryError::Docker(m) => ErrorModel::Docker(m@),
            GantryError::Operation(m) => ErrorModel::Operation(m@),
            GantryError::Timeout => ErrorModel::Timeout,
            GantryError::Conflict(m) => ErrorModel::Conflict(m@),
            GantryError::NotFound(m) => ErrorModel::NotFound(m@),
        }
    }
}

impl ErrorModel {
    /// The error as it is reported.
    pub open spec fn text(self) -> Str {
        match self {
            ErrorModel::Config(m) => "config error: "@ + m,
            ErrorModel::Validation(m) => "validation error: "@ + m,
            ErrorModel::Docker(m) => "docker error: "@ + m,
            ErrorModel::Operation(m) => "operation error: "@ + m,
            ErrorModel::Timeout => "operation timed out"@,
            ErrorModel::Conflict(m) => "conflict: "@ + m,
            ErrorModel::NotFound(m) => "not found: "@ + m,
        }
    }
}

impl GantryError {
    /// The error as it is reported.
    pub fn to_string(&self) -> (r: String)
        ensures
            r@ == self.deep_view().text(),
    {
        match self {
            GantryError::Config(m) => cat("config error: ", m.as_str()),
            GantryError::Validation(m) => cat("validation error: ", m.as_str()),
            GantryError::Docker(m) => cat("docker error: ", m.as_str()),
            GantryError::Operation(m) => cat("operation error: ", m.as_str()),
            GantryError::Timeout => "operation timed out".to_owned(),
            GantryError::Conflict(m) => cat("conflict: ", m.as_str()),
            GantryError::NotFound(m) => cat("not found: ", m.as_str()),
        }
    }
}

/// The error for a service that is not configured.
pub open spec fn no_service(name: Str) -> ErrorModel {
    ErrorModel::NotFound("service '"@ + name + "' not found"@)
}

/// The error for a target that is not configured.
pub open spec fn no_target(name: Str) -> ErrorModel {
    ErrorModel::NotFound("target '"@ + name + "' not found"@)
}

/// The error for a service that is not configured.
pub fn service_not_found(name: &str) -> (r: GantryError)
    ensures
        r.deep_view() == no_service(name@),
{
    GantryError::NotFound(cat3("service '", name, "' not found"))
}

/// The error for a target that is not configured.
pub fn target_not_found(name: &str) -> (r: GantryError)
    ensures
        r.deep_view() == no_target(name@),
{
    GantryError::NotFound(cat3("target '", name, "' not found"))
}

} // verus!
