//! Which templates are handed over to be filled in: their tags use a part of the language that
//! always comes to an end, with a text or with an error.
use crate::text::{chars_have, has_part, list_chars, text_eq, Str};
use vstd::prelude::*;
use vstd::string::StrSliceExecFns;

verus! {

/// A piece of a tag.
pub enum Token {
    /// The beginning of a tag: of a statement, or of a value that is put in.
    Open(bool),
    /// The end of a tag.
    Close,
    /// Letters, digits and underscores.
    Word(String),
    /// A text in quotes.
    Quoted(String),
    /// Any other character.
    Sym(char),
}

/// The model of a [`Token`].
#[verifier::ext_equal]
pub enum TokenModel {
    Open(bool),
    Close,
    Word(Str),
    Quoted(Str),
    Sym(char),
}

impl DeepView for Token {
    type V = TokenModel;

    open spec fn deep_view(&self) -> TokenModel {
        match self {
            Token::Open(b) => TokenModel::Open(*b),
            Token::Close => TokenModel::Close,
            Token::Word(w) => TokenModel::Word(w@),
            Token::Quoted(q) => TokenModel::Quoted(q@),
            Token::Sym(c) => TokenModel::Sym(*c),
        }
    }
}

/// Where in a template a position is.
#[derive(Clone, Copy, PartialEq, Eq, Structural)]
pub enum Place {
    Text,
    Comment,
    Tag(bool),
}

/// Whether two characters stand in a text at position `i`.
pub open spec fn pair_at(s: Str, i: int, a: char, b: char) -> bool {
    0 <= i && i + 1 < s.len() && s[i] == a && s[i + 1] == b
}

/// Whether a character is a letter, a digit or an underscore.
pub open spec fn is_word_char(c: char) -> bool {
    'a' <= c <= 'z' || 'A' <= c <= 'Z' || '0' <= c <= '9' || c == '_'
}

/// Whether a character begins a text in quotes.
pub open spec fn is_quote(c: char) -> bool {
    c == '"' || c == '\'' || c == '`'
}

/// Whether a character separates the pieces of a tag.
pub open spec fn is_blank(c: char) -> bool {
    c == ' ' || c == '\t' || c == '\r' || c == '\n'
}

/// Where the word that stands at position `i` ends.
pub open spec fn word_end(s: Str, i: int) -> int
    decreases s.len() - i,
{
    if 0 <= i < s.len() && is_word_char(s[i]) {
        word_end(s, i + 1)
    } else {
        i
    }
}

/// Where the next `q` stands from position `i` on, or the end of the text.
pub open spec fn quote_end(s: Str, i: int, q: char) -> int
    decreases s.len() - i,
{
    if 0 <= i < s.len() && s[i] != q {
        quote_end(s, i + 1, q)
    } else {
        i
    }
}

pub proof fn lemma_ends(s: Str, i: int, q: char)
    requires
        0 <= i <= s.len(),
    ensures
        i <= word_end(s, i) <= s.len(),
        i <= quote_end(s, i, q) <= s.len(),
    decreases s.len() - i,
{
    if i < s.len() {
        lemma_ends(s, i + 1, q);
    }
}

/// The pieces of the tags of a template from position `i` on.
pub open spec fn tokens_from(s: Str, i: int, at: Place) -> Seq<TokenModel>
    decreases s.len() - i,
{
    if i < 0 || i >= s.len() {
        Seq::empty()
    } else {
        match at {
            Place::Text => if pair_at(s, i, '{', '{') {
                seq![TokenModel::Open(false)] + tokens_from(s, i + 2, Place::Tag(false))
            } else if pair_at(s, i, '{', '%') {
                seq![TokenModel::Open(true)] + tokens_from(s, i + 2, Place::Tag(true))
            } else if pair_at(s, i, '{', '#') {
                tokens_from(s, i + 2, Place::Comment)
            } else {
                tokens_from(s, i + 1, Place::Text)
            },
            Place::Comment => if pair_at(s, i, '#', '}') {
                tokens_from(s, i + 2, Place::Text)
            } else {
                tokens_from(s, i + 1, Place::Comment)
            },
            Place::Tag(statement) => if pair_at(
                s,
                i,
                if statement {
                    '%'
                } else {
                    '}'
                },
                '}',
            ) {
                seq![TokenModel::Close] + tokens_from(s, i + 2, Place::Text)
            } else if is_quote(s[i]) {
                let end = quote_end(s, i + 1, s[i]);
                proof {
                    lemma_ends(s, i + 1, s[i]);
                }
                let next = if end < s.len() {
                    end + 1
                } else {
                    end
                };
                seq![TokenModel::Quoted(s.subrange(i + 1, end))] + tokens_from(s, next, at)
            } else if is_word_char(s[i]) {
                let end = word_end(s, i + 1);
                proof {
                    lemma_ends(s, i + 1, s[i]);
                }
                seq![TokenModel::Word(s.subrange(i, end))] + tokens_from(s, end, at)
            } else if is_blank(s[i]) {
                tokens_from(s, i + 1, at)
            } else {
                seq![TokenModel::Sym(s[i])] + tokens_from(s, i + 1, at)
            },
        }
    }
}

/// The pieces of all tags of a template.
pub open spec fn tokens(s: Str) -> Seq<TokenModel> {
    tokens_from(s, 0, Place::Text)
}

fn word_char(c: char) -> (r: bool)
    ensures
        r == is_word_char(c),
{
    ('a' <= c && c <= 'z') || ('A' <= c && c <= 'Z') || ('0' <= c && c <= '9') || c == '_'
}

fn find_word_end(s: &Vec<char>, i: usize) -> (r: usize)
    requires
        i <= s.len(),
    ensures
        r == word_end(s@, i as int),
        i <= r <= s.len(),
{
    let mut j: usize = i;
    while j < s.len() && word_char(s[j])
        invariant
            i <= j <= s.len(),
            word_end(s@, i as int) == word_end(s@, j as int),
        decreases s.len() - j,
    {
        j = j + 1;
    }
    j
}

fn find_quote_end(s: &Vec<char>, i: usize, q: char) -> (r: usize)
    requires
        i <= s.len(),
    ensures
        r == quote_end(s@, i as int, q),
        i <= r <= s.len(),
{
    let mut j: usize = i;
    while j < s.len() && s[j] != q
        invariant
            i <= j <= s.len(),
            quote_end(s@, i as int, q) == quote_end(s@, j as int, q),
        decreases s.len() - j,
    {
        j = j + 1;
    }
    j
}

fn pair_stands(s: &Vec<char>, i: usize, a: char, b: char) -> (r: bool)
    requires
        i < s.len(),
    ensures
        r == pair_at(s@, i as int, a, b),
{
    s[i] == a && i < s.len() - 1 && s[i + 1] == b
}

fn push_token(out: &mut Vec<Token>, t: Token)
    ensures
        final(out).deep_view() == old(out).deep_view().push(t.deep_view()),
{
    let ghost before = out.deep_view();
    out.push(t);
    assert(out.deep_view() =~= before.push(t.deep_view()));
}

/// Reads on from position `i`: the next piece, if there is one there, where it ends, and what
/// is there.
fn read_token(content: &str, s: &Vec<char>, i: usize, at: Place) -> (r: (
    Option<Token>,
    usize,
    Place,
))
    requires
        s@ == content@,
        i < s.len(),
    ensures
        i < r.1 <= s.len(),
        tokens_from(s@, i as int, at) == (match r.0 {
            Some(t) => seq![t.deep_view()] + tokens_from(s@, r.1 as int, r.2),
            None => tokens_from(s@, r.1 as int, r.2),
        }),
{
    let c = s[i];
    proof {
        lemma_ends(s@, i + 1, c);
    }
    match at {
        Place::Text => {
            if pair_stands(s, i, '{', '{') {
                (Some(Token::Open(false)), i + 2, Place::Tag(false))
            } else if pair_stands(s, i, '{', '%') {
                (Some(Token::Open(true)), i + 2, Place::Tag(true))
            } else if pair_stands(s, i, '{', '#') {
                (None, i + 2, Place::Comment)
            } else {
                (None, i + 1, at)
            }
        },
        Place::Comment => {
            if pair_stands(s, i, '#', '}') {
                (None, i + 2, Place::Text)
            } else {
                (None, i + 1, at)
            }
        },
        Place::Tag(statement) => {
            let closer = if statement {
                '%'
            } else {
                '}'
            };
            if pair_stands(s, i, closer, '}') {
                (Some(Token::Close), i + 2, Place::Text)
            } else if c == '"' || c == '\'' || c == '`' {
                let end = find_quote_end(s, i + 1, c);
                let part = content.substring_char(i + 1, end);
                let next = if end < s.len() {
                    end + 1
                } else {
                    end
                };
                (Some(Token::Quoted(part.to_owned())), next, at)
            } else if word_char(c) {
                let end = find_word_end(s, i + 1);
                let part = content.substring_char(i, end);
                (Some(Token::Word(part.to_owned())), end, at)
            } else if c == ' ' || c == '\t' || c == '\r' || c == '\n' {
                (None, i + 1, at)
            } else {
                (Some(Token::Sym(c)), i + 1, at)
            }
        },
    }
}

/// Lists the pieces of all tags of a template.
fn list_tokens(content: &str) -> (r: Vec<Token>)
    ensures
        r.deep_view() == tokens(content@),
{
    let s = list_chars(content);
    let mut out: Vec<Token> = Vec::new();
    let mut at = Place::Text;
    let mut i: usize = 0;
    let ghost goal = tokens(s@);
    assert(out.deep_view() =~= Seq::<TokenModel>::empty());
    assert(out.deep_view() + tokens_from(s@, 0, at) =~= goal);
    while i < s.len()
        invariant
            s@ == content@,
            i <= s.len(),
            out.deep_view() + tokens_from(s@, i as int, at) == goal,
        decreases s.len() - i,
    {
        let ghost before = out.deep_view();
        let (token, next, then) = read_token(content, &s, i, at);
        let ghost whole = tokens_from(s@, i as int, at);
        let ghost rest = tokens_from(s@, next as int, then);
        if let Some(t) = token {
            let ghost m = t.deep_view();
            push_token(&mut out, t);
            assert(out.deep_view() =~= before.push(m));
            assert(before.push(m) + rest =~= before + (seq![m] + rest));
        }
        i = next;
        at = then;
    }
    assert(out.deep_view() + tokens_from(s@, i as int, at) =~= out.deep_view());
    out
}

/// Whether the token at position `i` is the first word of a statement.
pub open spec fn begins_statement(t: Seq<TokenModel>, i: int) -> bool {
    ||| i > 0 && t[i - 1] == TokenModel::Open(true)
    ||| i > 1 && t[i - 1] == TokenModel::Sym('-') && t[i - 2] == TokenModel::Open(true)
}

/// Whether the token at position `i` stands behind a bar, and so names a filter.
pub open spec fn names_filter(t: Seq<TokenModel>, i: int) -> bool {
    i > 0 && t[i - 1] == TokenModel::Sym('|')
}

/// Whether the token at position `i` stands before an opening bracket.
pub open spec fn stands_before_bracket(t: Seq<TokenModel>, i: int) -> bool {
    i + 1 < t.len() && t[i + 1] == TokenModel::Sym('(')
}

/// The statements that are left out: they lead to other templates and back, give things to
/// later rounds of a loop, or hold text that is no tag.
pub open spec fn is_denied(w: Str) -> bool {
    w == "include"@ || w == "import"@ || w == "extends"@ || w == "macro"@ || w == "set_global"@
        || w == "filter"@ || w == "raw"@
}

/// The filters whose result may be many times as long as what they are given.
pub open spec fn is_growing(w: Str) -> bool {
    w == "replace"@ || w == "join"@ || w == "json_encode"@ || w == "addslashes"@
}

/// The filters that come to an end with every value.
pub open spec fn is_calm_filter(w: Str) -> bool {
    w == "upper"@ || w == "lower"@ || w == "trim"@ || w == "trim_start"@ || w == "trim_end"@ || w
        == "capitalize"@ || w == "default"@ || w == "safe"@ || w == "escape"@ || w == "length"@ || w
        == "first"@ || w == "last"@ || w == "nth"@ || w == "split"@ || w == "wordcount"@ || w
        == "reverse"@ || w == "as_str"@ || w == "urlencode"@ || is_growing(w)
}

/// The words that may stand before a bracket: those of conditions, a function, and tests.
pub open spec fn is_callable(w: Str) -> bool {
    w == "if"@ || w == "elif"@ || w == "and"@ || w == "or"@ || w == "not"@ || w == "now"@ || w
        == "starting_with"@ || w == "ending_with"@ || w == "containing"@
}

/// Whether a word is made of digits.
pub open spec fn is_number(w: Str) -> bool {
    forall|i: int| 0 <= i < w.len() ==> '0' <= #[trigger] w[i] <= '9'
}

/// Whether a character is left out: those of remainders, of joined texts and of lists.
pub open spec fn is_left_out(c: char) -> bool {
    c == '%' || c == '~' || c == '[' || c == ']'
}

/// Whether the token at position `i` is the sign of a sum or of a difference. A minus at the
/// edge of a tag is none.
pub open spec fn is_sum(t: Seq<TokenModel>, i: int) -> bool {
    ||| t[i] == TokenModel::Sym('+')
    ||| t[i] == TokenModel::Sym('-') && !(i > 0 && t[i - 1] is Open) && !(i + 1 < t.len() && t[i
        + 1] is Close)
}

/// Whether the token at position `i` is the sign of a product or of a quotient.
pub open spec fn is_product(t: Seq<TokenModel>, i: int) -> bool {
    t[i] == TokenModel::Sym('*') || t[i] == TokenModel::Sym('/')
}

/// Whether the token at position `i` belongs to the part of the language that is used.
pub open spec fn is_used(t: Seq<TokenModel>, i: int) -> bool {
    match t[i] {
        TokenModel::Sym(c) => !is_left_out(c),
        TokenModel::Word(w) => {
            &&& is_number(w) ==> w.len() <= 18
            &&& begins_statement(t, i) ==> !is_denied(w)
            &&& names_filter(t, i) ==> is_calm_filter(w)
            &&& stands_before_bracket(t, i) && !names_filter(t, i) ==> is_callable(w)
        },
        _ => true,
    }
}

/// How deep one is in a template.
#[derive(Clone, Copy, PartialEq, Eq, Structural)]
pub struct Depth {
    /// The brackets that are open in the tag.
    pub brackets: u64,
    /// The conditions, loops and blocks that are open.
    pub blocks: u64,
    /// Those of them that have a name. One may be called again by its name, so that none
    /// stands in another.
    pub named: u64,
    /// The pieces of the tag so far.
    pub size: u64,
    /// Its filters so far that may make a text much longer.
    pub growing: u64,
}

/// How deep is allowed.
pub open spec fn is_shallow(d: Depth) -> bool {
    d.brackets <= 3 && d.blocks <= 8 && d.named <= 1 && d.size <= 200 && d.growing <= 1
}

/// Whether a word begins a block.
pub open spec fn opens_block(w: Str) -> bool {
    w == "if"@ || w == "for"@ || w == "block"@
}

/// Whether a word ends a block.
pub open spec fn closes_block(w: Str) -> bool {
    w == "endif"@ || w == "endfor"@ || w == "endblock"@
}

/// How deep one is after the token at position `i`.
pub open spec fn step_in(t: Seq<TokenModel>, d: Depth, i: int) -> Depth {
    let d = Depth { size: (d.size + 1) as u64, ..d };
    match t[i] {
        TokenModel::Open(_) => Depth { brackets: 0, size: 0, growing: 0, ..d },
        TokenModel::Sym(c) => if c == '(' {
            Depth { brackets: (d.brackets + 1) as u64, ..d }
        } else if c == ')' && d.brackets > 0 {
            Depth { brackets: (d.brackets - 1) as u64, ..d }
        } else {
            d
        },
        TokenModel::Word(w) => if begins_statement(t, i) && opens_block(w) {
            Depth {
                blocks: (d.blocks + 1) as u64,
                named: if w == "block"@ {
                    (d.named + 1) as u64
                } else {
                    d.named
                },
                ..d
            }
        } else if begins_statement(t, i) && closes_block(w) && d.blocks > 0 {
            Depth {
                blocks: (d.blocks - 1) as u64,
                named: if w == "endblock"@ && d.named > 0 {
                    (d.named - 1) as u64
                } else {
                    d.named
                },
                ..d
            }
        } else if names_filter(t, i) && is_growing(w) {
            Depth { growing: (d.growing + 1) as u64, ..d }
        } else {
            d
        },
        _ => d,
    }
}

/// How deep one is after the first `n` tokens.
pub open spec fn depth_after(t: Seq<TokenModel>, n: nat) -> Depth
    decreases n,
{
    if n == 0 {
        Depth { brackets: 0, blocks: 0, named: 0, size: 0, growing: 0 }
    } else {
        step_in(t, depth_after(t, (n - 1) as nat), n - 1)
    }
}

/// Whether a statement with the given first word is among some tokens.
pub open spec fn has_statement(t: Seq<TokenModel>, w: Str) -> bool {
    exists|i: int|
        0 <= i < t.len() && #[trigger] t[i] == TokenModel::Word(w) && begins_statement(t, i)
}

/// Whether a filter that may make a text much longer is among some tokens.
pub open spec fn has_growing(t: Seq<TokenModel>) -> bool {
    exists|i: int|
        0 <= i < t.len() && (#[trigger] t[i] matches TokenModel::Word(w) && is_growing(w))
            && names_filter(t, i)
}

/// Whether a word is among some tokens.
pub open spec fn has_word(t: Seq<TokenModel>, w: Str) -> bool {
    exists|i: int| 0 <= i < t.len() && #[trigger] t[i] == TokenModel::Word(w)
}

/// Whether the tags of a template keep to the part of the language that is used, and are not
/// deep: what reads them, and what fills them in, then comes to an end. What is set may not be
/// made longer and longer, nor hold the text of all that was set before.
pub open spec fn is_steady(t: Seq<TokenModel>) -> bool {
    &&& forall|i: int| 0 <= i < t.len() ==> #[trigger] is_used(t, i)
    &&& forall|n: nat| n <= t.len() ==> is_shallow(#[trigger] depth_after(t, n))
    &&& !(has_statement(t, "set"@) && (has_growing(t) || has_word(t, "__tera_context"@)))
}

/// Whether a character is a letter as it is read: it combines with none beside it, nor does
/// its upper or lower case.
pub open spec fn is_single(c: char) -> bool {
    ||| c < '\u{180}' && c != '\r' && c != '\u{130}'
    ||| '\u{391}' <= c <= '\u{3a9}'
    ||| '\u{3b1}' <= c <= '\u{3c9}'
    ||| '\u{400}' <= c <= '\u{482}'
    ||| '\u{3041}' <= c <= '\u{3096}'
    ||| '\u{30a0}' <= c <= '\u{30ff}'
    ||| '\u{4e00}' <= c <= '\u{9fff}'
    ||| '\u{ac00}' <= c <= '\u{d7a3}'
}

/// Whether all characters of a text are.
pub open spec fn single_letters(s: Str) -> bool {
    forall|i: int| 0 <= i < s.len() ==> is_single(#[trigger] s[i])
}

/// Whether a loop can go through the characters of a text one by one: none of those in quotes
/// in the tags and in the context combines with another. The context is the text of a JSON
/// object, in which no character is written as a number.
pub open spec fn can_be_spelled(t: Seq<TokenModel>, context: Str) -> bool {
    &&& forall|i: int|
        0 <= i < t.len() ==> (#[trigger] t[i] matches TokenModel::Quoted(q) ==> single_letters(q))
    &&& single_letters(context)
    &&& !has_part(context, "\\r"@)
    &&& !has_part(context, "\\u"@)
}

/// Whether a sum or a difference is among some tokens.
pub open spec fn has_sum(t: Seq<TokenModel>) -> bool {
    exists|i: int| 0 <= i < t.len() && #[trigger] is_sum(t, i)
}

/// Whether a product or a quotient is among some tokens.
pub open spec fn has_product(t: Seq<TokenModel>) -> bool {
    exists|i: int| 0 <= i < t.len() && #[trigger] is_product(t, i)
}

/// Whether a character is a digit.
pub open spec fn is_digit(c: char) -> bool {
    '0' <= c <= '9'
}

/// How many digits stand in a row before position `i`.
pub open spec fn digits_before(s: Str, i: int) -> nat
    decreases i,
{
    if 0 < i <= s.len() && is_digit(s[i - 1]) {
        digits_before(s, i - 1) + 1
    } else {
        0
    }
}

/// Whether an exponent follows the digit at position `i`.
pub open spec fn has_exponent(s: Str, i: int) -> bool {
    is_digit(s[i]) && i + 1 < s.len() && (s[i + 1] == 'e' || s[i + 1] == 'E')
}

/// Whether no number in a text is near the largest ones that there are: none has an exponent
/// or more than 300 digits in a row. A sum of few such numbers is not too large either.
pub open spec fn is_modest(s: Str) -> bool {
    &&& forall|i: int| 0 <= i < s.len() ==> !#[trigger] has_exponent(s, i)
    &&& forall|i: int| 0 <= i <= s.len() ==> #[trigger] digits_before(s, i) <= 300
}

/// Whether all sums of a template can be made: of numbers that are not too large, and not of
/// what products or other sums have come to.
pub open spec fn can_be_summed(t: Seq<TokenModel>, context: Str) -> bool {
    !has_product(t) && !has_statement(t, "set"@) && is_modest(context)
}

/// Whether a template can be filled in with a context.
pub open spec fn is_tame(content: Str, context: Str) -> bool {
    &&& is_steady(tokens(content))
    &&& has_statement(tokens(content), "for"@) ==> can_be_spelled(tokens(content), context)
    &&& has_sum(tokens(content)) ==> can_be_summed(tokens(content), context)
}

fn token_is_sym(t: &Token, c: char) -> (r: bool)
    ensures
        r == (t.deep_view() == TokenModel::Sym(c)),
{
    match t {
        Token::Sym(x) => *x == c,
        _ => false,
    }
}

fn token_opens(t: &Token, statement: bool) -> (r: bool)
    ensures
        r == (t.deep_view() == TokenModel::Open(statement)),
{
    match t {
        Token::Open(b) => *b == statement,
        _ => false,
    }
}

fn starts_statement(t: &Vec<Token>, i: usize) -> (r: bool)
    requires
        i < t.len(),
    ensures
        r == begins_statement(t.deep_view(), i as int),
{
    assert(forall|k: int| 0 <= k < t.len() ==> #[trigger] t.deep_view()[k] == t[k].deep_view());
    if i > 0 && token_opens(&t[i - 1], true) {
        return true;
    }
    i > 1 && token_is_sym(&t[i - 1], '-') && token_opens(&t[i - 2], true)
}

fn is_filter_name(t: &Vec<Token>, i: usize) -> (r: bool)
    requires
        i < t.len(),
    ensures
        r == names_filter(t.deep_view(), i as int),
{
    assert(forall|k: int| 0 <= k < t.len() ==> #[trigger] t.deep_view()[k] == t[k].deep_view());
    i > 0 && token_is_sym(&t[i - 1], '|')
}

fn denied(w: &str) -> (r: bool)
    ensures
        r == is_denied(w@),
{
    text_eq(w, "include") || text_eq(w, "import") || text_eq(w, "extends") || text_eq(w, "macro")
        || text_eq(w, "set_global") || text_eq(w, "filter") || text_eq(w, "raw")
}

fn growing(w: &str) -> (r: bool)
    ensures
        r == is_growing(w@),
{
    text_eq(w, "replace") || text_eq(w, "join") || text_eq(w, "json_encode") || text_eq(
        w,
        "addslashes",
    )
}

fn calm_filter(w: &str) -> (r: bool)
    ensures
        r == is_calm_filter(w@),
{
    text_eq(w, "upper") || text_eq(w, "lower") || text_eq(w, "trim") || text_eq(w, "trim_start")
        || text_eq(w, "trim_end") || text_eq(w, "capitalize") || text_eq(w, "default") || text_eq(
        w,
        "safe",
    ) || text_eq(w, "escape") || text_eq(w, "length") || text_eq(w, "first") || text_eq(w, "last")
        || text_eq(w, "nth") || text_eq(w, "split") || text_eq(w, "wordcount") || text_eq(
        w,
        "reverse",
    ) || text_eq(w, "as_str") || text_eq(w, "urlencode") || growing(w)
}

fn callable(w: &str) -> (r: bool)
    ensures
        r == is_callable(w@),
{
    text_eq(w, "if") || text_eq(w, "elif") || text_eq(w, "and") || text_eq(w, "or") || text_eq(
        w,
        "not",
    ) || text_eq(w, "now") || text_eq(w, "starting_with") || text_eq(w, "ending_with") || text_eq(
        w,
        "containing",
    )
}

fn is_long_number(w: &str) -> (r: bool)
    ensures
        r == (is_number(w@) && w@.len() > 18),
{
    let s = list_chars(w);
    let mut i: usize = 0;
    while i < s.len()
        invariant
            s@ == w@,
            i <= s.len(),
            forall|k: int| 0 <= k < i ==> '0' <= #[trigger] w@[k] <= '9',
        decreases s.len() - i,
    {
        if !('0' <= s[i] && s[i] <= '9') {
            assert(!('0' <= w@[i as int] <= '9'));
            return false;
        }
        i = i + 1;
    }
    s.len() > 18
}

fn uses_token(t: &Vec<Token>, i: usize) -> (r: bool)
    requires
        i < t.len(),
    ensures
        r == is_used(t.deep_view(), i as int),
{
    let ghost m = t.deep_view();
    assert(forall|k: int| 0 <= k < t.len() ==> #[trigger] m[k] == t[k].deep_view());
    match &t[i] {
        Token::Sym(c) => {
            let c = *c;
            !(c == '%' || c == '~' || c == '[' || c == ']')
        },
        Token::Word(w) => {
            let w = w.as_str();
            if is_long_number(w) || (starts_statement(t, i) && denied(w)) {
                return false;
            }
            let filter = is_filter_name(t, i);
            if filter {
                return calm_filter(w);
            }
            let called = i < t.len() - 1 && token_is_sym(&t[i + 1], '(');
            !called || callable(w)
        },
        _ => true,
    }
}

fn deepen(t: &Vec<Token>, d: Depth, i: usize) -> (r: Depth)
    requires
        i < t.len(),
        is_shallow(d),
    ensures
        r == step_in(t.deep_view(), d, i as int),
{
    assert(t.deep_view()[i as int] == t[i as int].deep_view());
    let d = Depth { size: d.size + 1, ..d };
    match &t[i] {
        Token::Open(_) => Depth { brackets: 0, size: 0, growing: 0, ..d },
        Token::Sym(c) => {
            if *c == '(' {
                Depth { brackets: d.brackets + 1, ..d }
            } else if *c == ')' && d.brackets > 0 {
                Depth { brackets: d.brackets - 1, ..d }
            } else {
                d
            }
        },
        Token::Word(w) => {
            let w = w.as_str();
            let first = starts_statement(t, i);
            if first && (text_eq(w, "if") || text_eq(w, "for") || text_eq(w, "block")) {
                let named = if text_eq(w, "block") {
                    d.named + 1
                } else {
                    d.named
                };
                Depth { blocks: d.blocks + 1, named, ..d }
            } else if first && (text_eq(w, "endif") || text_eq(w, "endfor") || text_eq(
                w,
                "endblock",
            )) && d.blocks > 0 {
                let named = if text_eq(w, "endblock") && d.named > 0 {
                    d.named - 1
                } else {
                    d.named
                };
                Depth { blocks: d.blocks - 1, named, ..d }
            } else if is_filter_name(t, i) && growing(w) {
                Depth { growing: d.growing + 1, ..d }
            } else {
                d
            }
        },
        _ => d,
    }
}

fn finds_statement(t: &Vec<Token>, w: &str) -> (r: bool)
    ensures
        r == has_statement(t.deep_view(), w@),
{
    let ghost m = t.deep_view();
    let mut i: usize = 0;
    while i < t.len()
        invariant
            m == t.deep_view(),
            i <= t.len(),
            forall|k: int|
                0 <= k < i && #[trigger] m[k] == TokenModel::Word(w@) ==> !begins_statement(m, k),
        decreases t.len() - i,
    {
        assert(m[i as int] == t[i as int].deep_view());
        if let Token::Word(x) = &t[i] {
            if text_eq(x.as_str(), w) && starts_statement(t, i) {
                assert(m[i as int] == TokenModel::Word(w@));
                return true;
            }
        }
        i = i + 1;
    }
    false
}

fn finds_word(t: &Vec<Token>, w: &str) -> (r: bool)
    ensures
        r == has_word(t.deep_view(), w@),
{
    let ghost m = t.deep_view();
    let mut i: usize = 0;
    while i < t.len()
        invariant
            m == t.deep_view(),
            i <= t.len(),
            forall|k: int| 0 <= k < i ==> #[trigger] m[k] != TokenModel::Word(w@),
        decreases t.len() - i,
    {
        assert(m[i as int] == t[i as int].deep_view());
        if let Token::Word(x) = &t[i] {
            if text_eq(x.as_str(), w) {
                assert(m[i as int] == TokenModel::Word(w@));
                return true;
            }
        }
        i = i + 1;
    }
    false
}

fn finds_growing(t: &Vec<Token>) -> (r: bool)
    ensures
        r == has_growing(t.deep_view()),
{
    let ghost m = t.deep_view();
    let mut i: usize = 0;
    while i < t.len()
        invariant
            m == t.deep_view(),
            i <= t.len(),
            forall|k: int|
                0 <= k < i && (#[trigger] m[k] matches TokenModel::Word(w) && is_growing(w))
                    ==> !names_filter(m, k),
        decreases t.len() - i,
    {
        assert(m[i as int] == t[i as int].deep_view());
        if let Token::Word(x) = &t[i] {
            if growing(x.as_str()) && is_filter_name(t, i) {
                return true;
            }
        }
        i = i + 1;
    }
    false
}

fn steady(t: &Vec<Token>) -> (r: bool)
    ensures
        r == is_steady(t.deep_view()),
{
    let ghost m = t.deep_view();
    assert(m.len() == t.len());
    let mut d = Depth { brackets: 0, blocks: 0, named: 0, size: 0, growing: 0 };
    let mut i: usize = 0;
    while i < t.len()
        invariant
            m == t.deep_view(),
            m.len() == t.len(),
            i <= t.len(),
            d == depth_after(m, i as nat),
            is_shallow(d),
            forall|k: int| 0 <= k < i ==> #[trigger] is_used(m, k),
            forall|n: nat| n <= i ==> is_shallow(#[trigger] depth_after(m, n)),
        decreases t.len() - i,
    {
        if !uses_token(t, i) {
            return false;
        }
        d = deepen(t, d, i);
        assert(d == depth_after(m, (i + 1) as nat));
        if !(d.brackets <= 3 && d.blocks <= 8 && d.named <= 1 && d.size <= 200 && d.growing <= 1) {
            return false;
        }
        i = i + 1;
    }
    !(finds_statement(t, "set") && (finds_growing(t) || finds_word(t, "__tera_context")))
}

fn single(c: char) -> (r: bool)
    ensures
        r == is_single(c),
{
    (c < '\u{180}' && c != '\r' && c != '\u{130}') || ('\u{391}' <= c && c <= '\u{3a9}') || (
    '\u{3b1}' <= c && c <= '\u{3c9}') || ('\u{400}' <= c && c <= '\u{482}') || ('\u{3041}' <= c && c
        <= '\u{3096}') || ('\u{30a0}' <= c && c <= '\u{30ff}') || ('\u{4e00}' <= c && c
        <= '\u{9fff}') || ('\u{ac00}' <= c && c <= '\u{d7a3}')
}

fn all_single(s: &Vec<char>) -> (r: bool)
    ensures
        r == single_letters(s@),
{
    let mut i: usize = 0;
    while i < s.len()
        invariant
            i <= s.len(),
            forall|j: int| 0 <= j < i ==> is_single(#[trigger] s@[j]),
        decreases s.len() - i,
    {
        if !single(s[i]) {
            return false;
        }
        i = i + 1;
    }
    true
}

fn spells(t: &Vec<Token>, context: &str) -> (r: bool)
    ensures
        r == can_be_spelled(t.deep_view(), context@),
{
    let ghost m = t.deep_view();
    let x = list_chars(context);
    if !all_single(&x) || chars_have(&x, "\\r") || chars_have(&x, "\\u") {
        return false;
    }
    let mut i: usize = 0;
    while i < t.len()
        invariant
            m == t.deep_view(),
            i <= t.len(),
            forall|k: int|
                0 <= k < i ==> (#[trigger] m[k] matches TokenModel::Quoted(q) ==> single_letters(
                    q,
                )),
        decreases t.len() - i,
    {
        assert(m[i as int] == t[i as int].deep_view());
        if let Token::Quoted(q) = &t[i] {
            if !all_single(&list_chars(q.as_str())) {
                return false;
            }
        }
        i = i + 1;
    }
    true
}

fn sum_stands(t: &Vec<Token>, i: usize) -> (r: bool)
    requires
        i < t.len(),
    ensures
        r == is_sum(t.deep_view(), i as int),
{
    assert(forall|k: int| 0 <= k < t.len() ==> #[trigger] t.deep_view()[k] == t[k].deep_view());
    if token_is_sym(&t[i], '+') {
        return true;
    }
    if !token_is_sym(&t[i], '-') {
        return false;
    }
    if i > 0 && (token_opens(&t[i - 1], true) || token_opens(&t[i - 1], false)) {
        return false;
    }
    if i < t.len() - 1 {
        if let Token::Close = &t[i + 1] {
            return false;
        }
    }
    true
}

fn finds_sum(t: &Vec<Token>) -> (r: bool)
    ensures
        r == has_sum(t.deep_view()),
{
    let ghost m = t.deep_view();
    let mut i: usize = 0;
    while i < t.len()
        invariant
            m == t.deep_view(),
            i <= t.len(),
            forall|k: int| 0 <= k < i ==> !#[trigger] is_sum(m, k),
        decreases t.len() - i,
    {
        if sum_stands(t, i) {
            return true;
        }
        i = i + 1;
    }
    false
}

fn finds_product(t: &Vec<Token>) -> (r: bool)
    ensures
        r == has_product(t.deep_view()),
{
    let ghost m = t.deep_view();
    let mut i: usize = 0;
    while i < t.len()
        invariant
            m == t.deep_view(),
            i <= t.len(),
            forall|k: int| 0 <= k < i ==> !#[trigger] is_product(m, k),
        decreases t.len() - i,
    {
        assert(m[i as int] == t[i as int].deep_view());
        if token_is_sym(&t[i], '*') || token_is_sym(&t[i], '/') {
            assert(is_product(m, i as int));
            return true;
        }
        i = i + 1;
    }
    false
}

fn holds_modest(s: &Vec<char>) -> (r: bool)
    ensures
        r == is_modest(s@),
{
    let mut digits: u64 = 0;
    let mut i: usize = 0;
    while i < s.len()
        invariant
            i <= s.len(),
            digits == digits_before(s@, i as int),
            digits <= 300,
            forall|k: int| 0 <= k < i ==> !#[trigger] has_exponent(s@, k),
            forall|k: int| 0 <= k <= i ==> #[trigger] digits_before(s@, k) <= 300,
        decreases s.len() - i,
    {
        if '0' <= s[i] && s[i] <= '9' {
            digits = digits + 1;
            if i < s.len() - 1 && (s[i + 1] == 'e' || s[i + 1] == 'E') {
                assert(has_exponent(s@, i as int));
                return false;
            }
        } else {
            digits = 0;
        }
        assert(digits == digits_before(s@, i + 1));
        if digits > 300 {
            return false;
        }
        i = i + 1;
    }
    true
}

fn sums_up(t: &Vec<Token>, context: &str) -> (r: bool)
    ensures
        r == can_be_summed(t.deep_view(), context@),
{
    !finds_product(t) && !finds_statement(t, "set") && holds_modest(&list_chars(context))
}

/// Whether a template can be filled in with a context.
pub(crate) fn keeps_tame(content: &str, context: &str) -> (r: bool)
    ensures
        r == is_tame(content@, context@),
{
    let t = list_tokens(content);
    steady(&t) && (!finds_statement(&t, "for") || spells(&t, context)) && (!finds_sum(&t)
        || sums_up(&t, context))
}

} // verus!
