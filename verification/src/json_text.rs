//! JSON values as text.
use crate::json::{Json, JsonModel};
use crate::text::{decimal, decimal_text, Str};
use vstd::prelude::*;

verus! {

/// A hexadecimal digit.
pub open spec fn hex_digit(n: int) -> char {
    "0123456789abcdef"@[n]
}

/// The letter that stands behind a backslash for a character, where there is one.
pub open spec fn escape_letter(c: char) -> Option<char> {
    if c == '"' || c == '\\' {
        Some(c)
    } else if c == '\u{8}' {
        Some('b')
    } else if c == '\t' {
        Some('t')
    } else if c == '\n' {
        Some('n')
    } else if c == '\u{c}' {
        Some('f')
    } else if c == '\r' {
        Some('r')
    } else {
        None
    }
}

/// A character within a JSON text: quotes, backslashes and control characters are escaped.
pub open spec fn escape(c: char) -> Str {
    if let Some(letter) = escape_letter(c) {
        seq!['\\', letter]
    } else if (c as u32) < 0x20 {
        seq![
            '\\',
            'u',
            '0',
            '0',
            hex_digit(c as int / 16),
            hex_digit(c as int % 16),
        ]
    } else {
        seq![c]
    }
}

/// Characters within a JSON text.
pub open spec fn escaped(s: Str) -> Str
    decreases s.len(),
{
    if s.len() == 0 {
        Seq::empty()
    } else {
        escaped(s.drop_last()) + escape(s.last())
    }
}

/// A text between quotes.
pub open spec fn quoted(s: Str) -> Str {
    seq!['"'] + escaped(s) + seq!['"']
}

/// The first `n` values of a list, with commas between them.
pub open spec fn items_text(list: Seq<JsonModel>, n: nat) -> Str
    decreases list, n,
{
    if n == 0 || n > list.len() {
        Seq::empty()
    } else if n == 1 {
        json_text(list[0])
    } else {
        items_text(list, (n - 1) as nat) + seq![','] + json_text(list[n - 1])
    }
}

/// The first `n` members of an object, with commas between them.
pub open spec fn members_text(list: Seq<(Str, JsonModel)>, n: nat) -> Str
    decreases list, n,
{
    if n == 0 || n > list.len() {
        Seq::empty()
    } else if n == 1 {
        quoted(list[0].0) + seq![':'] + json_text(list[0].1)
    } else {
        members_text(list, (n - 1) as nat) + seq![','] + quoted(list[n - 1].0) + seq![':']
            + json_text(list[n - 1].1)
    }
}

/// A value as text.
pub open spec fn json_text(j: JsonModel) -> Str
    decreases j, 0nat,
{
    match j {
        JsonModel::Null => "null"@,
        JsonModel::Bool(b) => if b {
            "true"@
        } else {
            "false"@
        },
        JsonModel::Num(n) => decimal(n as nat),
        JsonModel::Raw(s) => s,
        JsonModel::Text(s) => quoted(s),
        JsonModel::List(list) => seq!['['] + items_text(list, list.len()) + seq![']'],
        JsonModel::Object(list) => seq!['{'] + members_text(list, list.len()) + seq!['}'],
    }
}

fn append_hex(out: &mut String, n: usize)
    requires
        n < 16,
    ensures
        final(out)@ == old(out)@.push(hex_digit(n as int)),
{
    let ghost before = out@;
    let digits = "0123456789abcdef";
    proof {
        reveal_strlit("0123456789abcdef");
    }
    out.append(digits.substring_char(n, n + 1));
    assert(out@ =~= before.push(hex_digit(n as int)));
}

/// Adds the character at position `i` of a text with `n` characters, as it stands within a
/// JSON text.
fn append_escape(out: &mut String, s: &str, i: usize, n: usize)
    requires
        i < n == s@.len(),
    ensures
        final(out)@ == old(out)@ + escape(s@[i as int]),
{
    let ghost before = out@;
    let c = s.get_char(i);
    proof {
        reveal_strlit("\\\"");
        reveal_strlit("\\\\");
        reveal_strlit("\\b");
        reveal_strlit("\\t");
        reveal_strlit("\\n");
        reveal_strlit("\\f");
        reveal_strlit("\\r");
        reveal_strlit("\\u00");
    }
    let short = if c == '"' {
        Some("\\\"")
    } else if c == '\\' {
        Some("\\\\")
    } else if c == '\u{8}' {
        Some("\\b")
    } else if c == '\t' {
        Some("\\t")
    } else if c == '\n' {
        Some("\\n")
    } else if c == '\u{c}' {
        Some("\\f")
    } else if c == '\r' {
        Some("\\r")
    } else {
        None
    };
    if let Some(text) = short {
        out.append(text);
        assert(out@ =~= before + escape(c));
    } else if (c as u32) < 0x20 {
        let code: u32 = c as u32;
        out.append("\\u00");
        append_hex(out, (code / 16) as usize);
        append_hex(out, (code % 16) as usize);
        assert(out@ =~= before + escape(c));
    } else {
        out.append(s.substring_char(i, i + 1));
        assert(out@ =~= before + escape(c));
    }
}

fn append_quoted(out: &mut String, s: &str)
    ensures
        final(out)@ == old(out)@ + quoted(s@),
{
    let ghost before = out@;
    let ghost start = before + seq!['"'];
    proof {
        reveal_strlit("\"");
    }
    out.append("\"");
    let n: usize = s.unicode_len();
    let mut i: usize = 0;
    assert(out@ =~= start + escaped(s@.take(0)));
    while i < n
        invariant
            i <= n == s@.len(),
            out@ == start + escaped(s@.take(i as int)),
        decreases n - i,
    {
        let ghost next = s@.take(i + 1);
        assert(next.drop_last() =~= s@.take(i as int));
        append_escape(out, s, i, n);
        i = i + 1;
        assert(out@ =~= start + escaped(next));
    }
    assert(s@.take(i as int) =~= s@);
    out.append("\"");
    assert(out@ =~= before + quoted(s@));
}

fn append_json(out: &mut String, j: &Json)
    ensures
        final(out)@ == old(out)@ + json_text(j.model()),
    decreases j,
{
    let ghost before = out@;
    let ghost m = j.model();
    proof {
        reveal_strlit("[");
        reveal_strlit("]");
        reveal_strlit("{");
        reveal_strlit("}");
        reveal_strlit(",");
        reveal_strlit(":");
    }
    match j {
        Json::Null => {
            out.append("null");
        },
        Json::Bool(b) => {
            if *b {
                out.append("true");
            } else {
                out.append("false");
            }
        },
        Json::Num(n) => {
            out.append(decimal_text(*n).as_str());
        },
        Json::Raw(s) => {
            out.append(s.as_str());
        },
        Json::Text(s) => {
            append_quoted(out, s.as_str());
        },
        Json::List(v) => {
            let ghost list = m->List_0;
            let ghost start = before + seq!['['];
            out.append("[");
            assert(out@ =~= start + items_text(list, 0));
            let mut i: usize = 0;
            while i < v.len()
                invariant
                    *j == Json::List(*v),
                    m == j.model(),
                    list == m->List_0,
                    list.len() == v.len(),
                    ","@ =~= seq![','],
                    i <= v.len(),
                    out@ == start + items_text(list, i as nat),
                decreases v.len() - i,
            {
                let ghost prev = out@;
                assert(list[i as int] == v@[i as int].model());
                if i > 0 {
                    out.append(",");
                }
                append_json(out, &v[i]);
                i = i + 1;
                assert(out@ =~= start + items_text(list, i as nat));
            }
            out.append("]");
            assert(out@ =~= before + json_text(m));
        },
        Json::Object(v) => {
            let ghost list = m->Object_0;
            let ghost start = before + seq!['{'];
            out.append("{");
            assert(out@ =~= start + members_text(list, 0));
            let mut i: usize = 0;
            while i < v.len()
                invariant
                    *j == Json::Object(*v),
                    m == j.model(),
                    list == m->Object_0,
                    list.len() == v.len(),
                    ","@ =~= seq![','],
                    ":"@ =~= seq![':'],
                    i <= v.len(),
                    out@ == start + members_text(list, i as nat),
                decreases v.len() - i,
            {
                assert(list[i as int] == (v@[i as int].0@, v@[i as int].1.model()));
                if i > 0 {
                    out.append(",");
                }
                append_quoted(out, v[i].0.as_str());
                out.append(":");
                append_json(out, &v[i].1);
                i = i + 1;
                assert(out@ =~= start + members_text(list, i as nat));
            }
            out.append("}");
            assert(out@ =~= before + json_text(m));
        },
    }
}

/// Writes a value as text.
pub fn write_json(j: &Json) -> (r: String)
    ensures
        r@ == json_text(j.model()),
{
    let mut out = String::new();
    append_json(&mut out, j);
    assert(out@ =~= json_text(j.model()));
    out
}

} // verus!
