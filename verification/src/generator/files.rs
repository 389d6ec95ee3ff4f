//! The files of a service: what is copied, and what is filled in.
use crate::error::{ErrorModel, GantryError};
use crate::generator::schema::{FileDef, FileModel};
use crate::generator::template::{is_steady, is_tame, keeps_tame, tokens};
use crate::json::{Json, JsonModel};
use crate::json_text::{json_text, write_json};
use crate::text::{cat, cat3, ends_with, strip_suffix, Str};
use vstd::prelude::*;

verus! {

/// What is done with a file.
#[derive(Debug, Clone, Copy, PartialEq, Eq, Structural)]
pub enum FileAction {
    /// It is filled in.
    Render,
    /// It is copied, with all that is in it.
    CopyDirectory,
    /// It is copied.
    CopyFile,
}

/// What is done with a file. A slash at the end stands for a directory.
pub open spec fn action_of(f: FileModel) -> FileAction {
    if f.template {
        FileAction::Render
    } else if ends_with(f.src, "/"@) {
        FileAction::CopyDirectory
    } else {
        FileAction::CopyFile
    }
}

/// Decides what is done with a file.
pub fn file_action(f: &FileDef) -> (r: FileAction)
    ensures
        r == action_of(f.deep_view()),
{
    if f.template {
        FileAction::Render
    } else if strip_suffix(f.src.as_str(), "/").is_some() {
        FileAction::CopyDirectory
    } else {
        FileAction::CopyFile
    }
}

/// What is wrong with a template, if anything.
pub uninterp spec fn template_error(content: Str) -> Option<Str>;

/// `Tera::add_raw_template` refuses a text that is no template. Whether it does, and what it
/// says then, depends on the text alone, as its tags are not deep. A text without an opening
/// brace is a template.
#[verifier::external_body]
fn check_template(content: &str) -> (r: Option<String>)
    requires
        is_steady(tokens(content@)),
    ensures
        match r {
            Some(e) => template_error(content@) == Some(e@),
            None => template_error(content@) is None,
        },
        !content@.contains('{') ==> r is None,
{
    let mut tera = tera::Tera::default();
    tera.add_raw_template("template", content).err().map(|e| e.to_string())
}

/// Whether a template with a context, which is the text of a JSON object, can come out as a
/// text, or fail with a message. There may be several results: a template may ask for the
/// time.
pub uninterp spec fn can_render(content: Str, context: Str, out: Result<Str, Str>) -> bool;

/// `Tera::render` fills in a template with a context, which is read from the text of a JSON
/// object of a depth of at most 127. A template without an opening brace comes out as it is.
/// What comes out of another one depends on the template and the context, and on the time
/// where it asks for it.
#[verifier::external_body]
fn fill_in(content: &str, context: &str) -> (r: Result<String, String>)
    requires
        is_tame(content@, context@),
    ensures
        match r {
            Ok(s) => can_render(content@, context@, Ok(s@)),
            Err(e) => can_render(content@, context@, Err(e@)),
        },
        !content@.contains('{') && context@ == "{}"@ ==> r is Ok && r->Ok_0@ == content@,
{
    let mut tera = tera::Tera::default();
    tera.add_raw_template("template", content).map_err(|e| e.to_string())?;
    let value: serde_json::Value = serde_json::from_str(context).map_err(|e| e.to_string())?;
    let context = tera::Context::from_value(value).map_err(|e| e.to_string())?;
    tera.render("template", &context).map_err(|e| e.to_string())
}

/// The error of a text that is no template.
pub open spec fn parse_error(src: Str, e: Str) -> ErrorModel {
    ErrorModel::Config("template parse error in "@ + src + ": "@ + e)
}

/// The error of a template that cannot be filled in.
pub open spec fn render_error(src: Str, e: Str) -> ErrorModel {
    ErrorModel::Config("template render error in "@ + src + ": "@ + e)
}

/// The error of a context that is not an object.
pub open spec fn context_error() -> ErrorModel {
    ErrorModel::Config(
        "template context error: "@
            + "Creating a Context from a Value/Serialize requires it being a JSON object"@,
    )
}

/// Looks what came of filling in a template.
pub fn take_rendered(src: &str, r: Result<String, String>) -> (s: Result<String, GantryError>)
    ensures
        match r {
            Ok(text) => s is Ok && s->Ok_0@ == text@,
            Err(e) => s is Err && s->Err_0.deep_view() == render_error(src@, e@),
        },
{
    match r {
        Ok(text) => Ok(text),
        Err(e) => {
            let line = cat3("template render error in ", src, ": ");
            Err(GantryError::Config(cat(line.as_str(), e.as_str())))
        },
    }
}

/// The text of a context. One that is missing is an object without members.
pub open spec fn context_text(context: Option<JsonModel>) -> Str {
    match context {
        Some(j) => json_text(j),
        None => "{}"@,
    }
}

fn write_context(context: &Option<Json>) -> (r: String)
    ensures
        r@ == context_text(context.deep_view()),
{
    match context {
        Some(j) => write_json(j),
        None => "{}".to_owned(),
    }
}

/// Whether a template can be handed over to be filled in with a context.
pub fn can_be_filled(content: &str, context: &Option<Json>) -> (r: bool)
    ensures
        r == is_tame(content@, context_text(context.deep_view())),
{
    keeps_tame(content, write_context(context).as_str())
}

/// What becomes of a template that was filled in.
pub open spec fn rendered(src: Str, out: Result<Str, Str>) -> Result<Str, ErrorModel> {
    match out {
        Ok(s) => Ok(s),
        Err(m) => Err(render_error(src, m)),
    }
}

/// Fills in a template that stands in the file `src`. Without a context it is filled in with
/// nothing, and a text without an opening brace is kept as it is.
pub fn render_template(src: &str, content: &str, context: &Option<Json>) -> (r: Result<
    String,
    GantryError,
>)
    requires
        is_tame(content@, context_text(context.deep_view())),
    ensures
        match template_error(content@) {
            Some(e) => r is Err && r->Err_0.deep_view() == parse_error(src@, e),
            None => match context.deep_view() {
                Some(j) if !(j is Object) => r is Err && r->Err_0.deep_view() == context_error(),
                _ => exists|out: Result<Str, Str>| #[trigger]
                    can_render(content@, context_text(context.deep_view()), out) && match r {
                        Ok(s) => rendered(src@, out) == Ok::<Str, ErrorModel>(s@),
                        Err(e) => rendered(src@, out) == Err::<Str, ErrorModel>(e.deep_view()),
                    },
            },
        },
        context is None && !content@.contains('{') ==> r is Ok && r->Ok_0@ == content@,
{
    if let Some(e) = check_template(content) {
        let line = cat3("template parse error in ", src, ": ");
        return Err(GantryError::Config(cat(line.as_str(), e.as_str())));
    }
    let is_object = match context {
        None => true,
        Some(j) => match j {
            Json::Object(_) => true,
            _ => false,
        },
    };
    if !is_object {
        return Err(
            GantryError::Config(
                cat(
                    "template context error: ",
                    "Creating a Context from a Value/Serialize requires it being a JSON object",
                ),
            ),
        );
    }
    let json = write_context(context);
    let out = fill_in(content, json.as_str());
    let ghost told: Result<Str, Str> = match &out {
        Ok(s) => Ok(s@),
        Err(e) => Err(e@),
    };
    assert(can_render(content@, json@, told));
    take_rendered(src, out)
}

} // verus!
