//! JSON values as YAML.
use crate::error::{ErrorModel, GantryError};
use crate::json::Json;
use crate::json_text::{json_text, write_json};
use crate::text::Str;
use vstd::prelude::*;

verus! {

/// The YAML for a value that is written as JSON, or what is wrong with it.
pub uninterp spec fn yaml_of(json: Str) -> Result<Str, Str>;

/// `serde_yaml::to_string` writes a value as YAML. The value is read from a JSON text with
/// `serde_json::from_str`, with the members of objects in their order, to a depth of at most
/// 127. What comes out depends on the text alone.
#[verifier::external_body]
fn yaml_from_json(json: &str) -> (r: Result<String, String>)
    ensures
        match r {
            Ok(s) => yaml_of(json@) == Ok::<Str, Str>(s@),
            Err(e) => yaml_of(json@) == Err::<Str, Str>(e@),
        },
{
    let value: serde_yaml::Value = serde_json::from_str(json).map_err(|e| e.to_string())?;
    serde_yaml::to_string(&value).map_err(|e| e.to_string())
}

/// What becomes of YAML, or of what is wrong with it.
pub open spec fn yaml_result(r: Result<Str, Str>) -> Result<Str, ErrorModel> {
    match r {
        Ok(s) => Ok(s),
        Err(e) => Err(ErrorModel::Config(e)),
    }
}

/// Takes YAML, or what is wrong with it.
pub fn take_yaml(r: Result<String, String>) -> (s: Result<String, GantryError>)
    ensures
        match r {
            Ok(y) => s is Ok && s->Ok_0@ == y@,
            Err(e) => s is Err && s->Err_0.deep_view() == ErrorModel::Config(e@),
        },
{
    match r {
        Ok(y) => Ok(y),
        Err(e) => Err(GantryError::Config(e)),
    }
}

/// Writes a value as YAML.
pub fn write_yaml(j: &Json) -> (r: Result<String, GantryError>)
    ensures
        match r {
            Ok(s) => yaml_result(yaml_of(json_text(j.model()))) == Ok::<Str, ErrorModel>(s@),
            Err(e) => yaml_result(yaml_of(json_text(j.model()))) == Err::<Str, ErrorModel>(
                e.deep_view(),
            ),
        },
{
    let text = write_json(j);
    take_yaml(yaml_from_json(text.as_str()))
}

} // verus!
