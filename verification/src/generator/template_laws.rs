//! Which templates are handed over to be filled in.
use crate::generator::files::{context_error, context_text, parse_error, render_error, rendered};
use crate::generator::template::{
    depth_after, has_statement, has_sum, is_steady, is_tame, is_used, is_word_char, tokens,
    tokens_from, word_end, Place, TokenModel,
};
use crate::generator::yaml::yaml_result;
use crate::error::ErrorModel;
use crate::json::JsonModel;
use crate::text::Str;
use vstd::prelude::*;

verus! {

proof fn lemma_no_tags(s: Str, i: int)
    requires
        0 <= i <= s.len(),
        !s.contains('{'),
    ensures
        tokens_from(s, i, Place::Text).len() == 0,
    decreases s.len() - i,
{
    if i < s.len() {
        assert(s.contains(s[i]));
        lemma_no_tags(s, i + 1);
    }
}

/// A text without an opening brace has no tags, and can be handed over with any context.
pub proof fn law_plain_text_is_tame(content: Str, context: Str)
    requires
        !content.contains('{'),
    ensures
        tokens(content).len() == 0,
        is_tame(content, context),
{
    lemma_no_tags(content, 0);
    let t = tokens(content);
    assert forall|n: nat| n <= t.len() implies crate::generator::template::is_shallow(
        #[trigger] depth_after(t, n),
    ) by {
        assert(n == 0);
    }
}

proof fn lemma_word_end(s: Str, w: Str, i: int)
    requires
        2 <= i <= 2 + w.len(),
        s.len() == w.len() + 4,
        forall|k: int| 0 <= k < w.len() ==> s[k + 2] == #[trigger] w[k] && is_word_char(w[k]),
        !is_word_char(s[w.len() as int + 2]),
    ensures
        word_end(s, i) == 2 + w.len(),
    decreases 2 + w.len() - i,
{
    if i < 2 + w.len() {
        assert(s[i] == w[i - 2]);
        lemma_word_end(s, w, i + 1);
    }
}

/// Whether a text is a word: one or more letters, digits or underscores.
pub open spec fn is_word(w: Str) -> bool {
    w.len() > 0 && forall|i: int|
        0 <= i < w.len() ==> ('a' <= #[trigger] w[i] <= 'z' || 'A' <= w[i] <= 'Z' || '0' <= w[i]
            <= '9' || w[i] == '_')
}

/// The pieces of a tag with a word in it are its start, the word and its end. In braces alone it is
/// one that gives a value, and with percent signs it is a statement.
pub proof fn law_tag_pieces(w: Str)
    requires
        is_word(w),
    ensures
        tokens("{{"@ + w + "}}"@) == seq![
            TokenModel::Open(false),
            TokenModel::Word(w),
            TokenModel::Close,
        ],
        tokens("{%"@ + w + "%}"@) == seq![
            TokenModel::Open(true),
            TokenModel::Word(w),
            TokenModel::Close,
        ],
{
    reveal_strlit("{{");
    reveal_strlit("}}");
    reveal_strlit("{%");
    reveal_strlit("%}");
    lemma_tag("{{"@ + w + "}}"@, w, false);
    lemma_tag("{%"@ + w + "%}"@, w, true);
}

proof fn lemma_tag(s: Str, w: Str, statement: bool)
    requires
        is_word(w),
        s.len() == w.len() + 4,
        s[0] == '{',
        s[1] == (if statement {
            '%'
        } else {
            '{'
        }),
        forall|k: int| 0 <= k < w.len() ==> s[k + 2] == #[trigger] w[k],
        s[w.len() as int + 2] == (if statement {
            '%'
        } else {
            '}'
        }),
        s[w.len() as int + 3] == '}',
    ensures
        tokens(s) == seq![TokenModel::Open(statement), TokenModel::Word(w), TokenModel::Close],
{
    let n = w.len() as int;
    assert(s[2] == w[0]);
    lemma_word_end(s, w, 3);
    assert(s.subrange(2, n + 2) =~= w);
    let at = Place::Tag(statement);
    assert(tokens_from(s, n + 4, Place::Text) =~= Seq::<TokenModel>::empty());
    assert(tokens_from(s, n + 2, at) =~= seq![TokenModel::Close] + tokens_from(
        s,
        n + 4,
        Place::Text,
    ));
    assert(tokens_from(s, 2, at) =~= seq![TokenModel::Word(w)] + tokens_from(s, n + 2, at));
    assert(tokens_from(s, 0, Place::Text) =~= seq![TokenModel::Open(statement)] + tokens_from(
        s,
        2,
        at,
    ));
    assert(tokens(s) =~= seq![
        TokenModel::Open(statement),
        TokenModel::Word(w),
        TokenModel::Close,
    ]);
}

/// A tag that gives the value of a name can be handed over with any context.
pub proof fn law_names_are_tame(w: Str, context: Str)
    requires
        is_word(w),
        w.len() <= 18,
    ensures
        is_tame("{{"@ + w + "}}"@, context),
{
    law_tag_pieces(w);
    let t = tokens("{{"@ + w + "}}"@);
    assert forall|i: int| 0 <= i < t.len() implies #[trigger] is_used(t, i) by {}
    assert forall|n: nat| n <= t.len() implies crate::generator::template::is_shallow(
        #[trigger] depth_after(t, n),
    ) by {
        reveal_with_fuel(depth_after, 4);
    }
    assert(!has_statement(t, "set"@));
    assert(is_steady(t));
    assert(!has_statement(t, "for"@));
    assert(!has_sum(t));
}

/// Statements that lead to other templates or that hold text which is no tag are not handed over.
pub proof fn law_statements_left_out(context: Str)
    ensures
        !is_tame("{%"@ + "include"@ + "%}"@, context),
        !is_tame("{%"@ + "import"@ + "%}"@, context),
        !is_tame("{%"@ + "extends"@ + "%}"@, context),
        !is_tame("{%"@ + "macro"@ + "%}"@, context),
        !is_tame("{%"@ + "raw"@ + "%}"@, context),
{
    reveal_strlit("include");
    reveal_strlit("import");
    reveal_strlit("extends");
    reveal_strlit("macro");
    reveal_strlit("raw");
    lemma_left_out("include"@, context);
    lemma_left_out("import"@, context);
    lemma_left_out("extends"@, context);
    lemma_left_out("macro"@, context);
    lemma_left_out("raw"@, context);
}

proof fn lemma_left_out(w: Str, context: Str)
    requires
        is_word(w),
        crate::generator::template::is_denied(w),
    ensures
        !is_tame("{%"@ + w + "%}"@, context),
{
    law_tag_pieces(w);
    let t = tokens("{%"@ + w + "%}"@);
    assert(t[1] == TokenModel::Word(w) && t[0] == TokenModel::Open(true));
    assert(!is_used(t, 1));
}

/// What goes wrong with a template or with YAML is an error of the configuration, and its message
/// ends with what was told of it. What goes well is kept.
pub proof fn law_errors_of_templates(src: Str, e: Str, out: Str)
    ensures
        parse_error(src, e) matches ErrorModel::Config(m) && m.len() >= e.len() && m.skip(
            m.len() - e.len(),
        ) == e,
        render_error(src, e) matches ErrorModel::Config(m) && m.len() >= e.len() && m.skip(
            m.len() - e.len(),
        ) == e,
        parse_error(src, e) != render_error(src, e),
        context_error() is Config,
        rendered(src, Ok(out)) == Ok::<Str, ErrorModel>(out),
        rendered(src, Err(e)) == Err::<Str, ErrorModel>(render_error(src, e)),
        yaml_result(Ok(out)) == Ok::<Str, ErrorModel>(out),
        yaml_result(Err(e)) == Err::<Str, ErrorModel>(ErrorModel::Config(e)),
{
    reveal_strlit("template parse error in ");
    reveal_strlit("template render error in ");
    let m = parse_error(src, e)->Config_0;
    let n = render_error(src, e)->Config_0;
    assert(m.skip(m.len() - e.len()) =~= e);
    assert(n.skip(n.len() - e.len()) =~= e);
    assert(m[9] == 'p' && n[9] == 'r');
}

/// A context that is missing is an object without members.
pub proof fn law_missing_context(j: JsonModel)
    ensures
        context_text(None) == context_text(Some(JsonModel::Object(Seq::empty()))),
        context_text(Some(j)) == crate::json_text::json_text(j),
{
    reveal_strlit("{}");
    let none = Seq::<(Str, JsonModel)>::empty();
    assert(crate::json_text::members_text(none, 0) =~= Seq::<char>::empty());
    assert(crate::json_text::json_text(JsonModel::Object(none)) =~= seq!['{', '}']);
    assert("{}"@ =~= seq!['{', '}']);
}

} // verus!
