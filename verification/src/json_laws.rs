//! What is read back of JSON values, and of the texts that they are written as.
use crate::generator::{compose, gantry_yaml};
use crate::json::{
    table_json, text_table_json, texts_json, with_text, with_text_table, with_texts, with_value,
    JsonModel,
};
use crate::json_text::{
    escape, escape_letter, escaped, hex_digit, items_text, json_text, members_text, quoted,
};
use crate::ordered_map::{map_table, Table};
use crate::text::Str;
use vstd::prelude::*;

verus! {

/// The value of the first member that has a name, if there is one.
pub open spec fn found(list: Seq<(Str, JsonModel)>, name: Str) -> Option<JsonModel>
    decreases list.len(),
{
    if list.len() == 0 {
        None
    } else {
        match found(list.drop_last(), name) {
            Some(v) => Some(v),
            None => if list.last().0 == name {
                Some(list.last().1)
            } else {
                None
            },
        }
    }
}

/// The value of a member of an object, if there is one.
pub open spec fn field(j: JsonModel, name: Str) -> Option<JsonModel> {
    match j {
        JsonModel::Object(list) => found(list, name),
        _ => None,
    }
}

/// Whether what was found is a text, or nothing where there is none.
pub open spec fn reads_text(j: Option<JsonModel>, v: Option<Str>) -> bool {
    match v {
        Some(s) => j == Some(JsonModel::Text(s)),
        None => j is None,
    }
}

/// Whether what was found is a flag, or nothing where there is none.
pub open spec fn reads_flag(j: Option<JsonModel>, v: Option<bool>) -> bool {
    match v {
        Some(b) => j == Some(JsonModel::Bool(b)),
        None => j is None,
    }
}

/// Whether what was found is a list of some texts in their order.
pub open spec fn reads_list(j: Option<JsonModel>, v: Seq<Str>) -> bool {
    j matches Some(JsonModel::List(l)) && l.len() == v.len() && forall|i: int|
        0 <= i < v.len() ==> #[trigger] l[i] == JsonModel::Text(v[i])
}

/// Whether what was found is a list of some texts in their order, or nothing where there are
/// none.
pub open spec fn reads_texts(j: Option<JsonModel>, v: Seq<Str>) -> bool {
    if v.len() == 0 {
        j is None
    } else {
        reads_list(j, v)
    }
}

/// Whether what was found is a table of some texts in their order, or nothing where there are
/// none.
pub open spec fn reads_table(j: Option<JsonModel>, t: Table<Str>) -> bool {
    if t.keys.len() == 0 {
        j is None
    } else {
        j matches Some(JsonModel::Object(l)) && l.len() == t.keys.len() && forall|i: int|
            0 <= i < t.keys.len() ==> #[trigger] l[i] == (
                t.keys[i],
                JsonModel::Text(t.at(t.keys[i])),
            )
    }
}

pub proof fn lemma_push(m: Seq<(Str, JsonModel)>, k: Str, v: JsonModel, n: Str)
    ensures
        found(m.push((k, v)), n) == added(found(m, n), k, Some(v), n),
{
    assert(m.push((k, v)).drop_last() =~= m);
}

pub proof fn lemma_one(k: Str, v: JsonModel, n: Str)
    ensures
        found(seq![(k, v)], n) == added(None, k, Some(v), n),
{
    lemma_push(Seq::empty(), k, v, n);
    assert(seq![(k, v)] =~= Seq::<(Str, JsonModel)>::empty().push((k, v)));
}

/// What a name leads to once `there` is added under the name `k`: what it led to before, else
/// `there` if it is that name.
pub open spec fn added(before: Option<JsonModel>, k: Str, there: Option<JsonModel>, n: Str) -> Option<
    JsonModel,
> {
    match before {
        Some(w) => Some(w),
        None => if k == n {
            there
        } else {
            None
        },
    }
}

pub proof fn lemma_two(k: Str, v: JsonModel, l: Str, w: JsonModel, n: Str)
    ensures
        found(seq![(k, v), (l, w)], n) == added(added(None, k, Some(v), n), l, Some(w), n),
{
    lemma_one(k, v, n);
    lemma_push(seq![(k, v)], l, w, n);
    assert(seq![(k, v), (l, w)] =~= seq![(k, v)].push((l, w)));
}

pub proof fn lemma_adds_text(m: Seq<(Str, JsonModel)>, k: Str, v: Option<Str>, n: Str) -> (there: Option<
    JsonModel,
>)
    ensures
        found(with_text(m, k, v), n) == added(found(m, n), k, there, n),
        reads_text(there, v),
{
    match v {
        Some(s) => {
            lemma_push(m, k, JsonModel::Text(s), n);
            Some(JsonModel::Text(s))
        },
        None => None,
    }
}

pub proof fn lemma_adds_value(m: Seq<(Str, JsonModel)>, k: Str, v: Option<JsonModel>, n: Str)
    ensures
        found(with_value(m, k, v), n) == added(found(m, n), k, v, n),
{
    if let Some(j) = v {
        lemma_push(m, k, j, n);
    }
}

pub proof fn lemma_adds_texts(m: Seq<(Str, JsonModel)>, k: Str, v: Seq<Str>, n: Str) -> (there: Option<
    JsonModel,
>)
    ensures
        found(with_texts(m, k, v), n) == added(found(m, n), k, there, n),
        reads_texts(there, v),
{
    if v.len() > 0 {
        lemma_push(m, k, texts_json(v), n);
        Some(texts_json(v))
    } else {
        None
    }
}

pub proof fn lemma_adds_table(m: Seq<(Str, JsonModel)>, k: Str, t: Table<Str>, n: Str) -> (there: Option<
    JsonModel,
>)
    ensures
        found(with_text_table(m, k, t), n) == added(found(m, n), k, there, n),
        reads_table(there, t),
{
    if t.keys.len() > 0 {
        lemma_push(m, k, text_table_json(t), n);
        Some(text_table_json(t))
    } else {
        None
    }
}

pub proof fn lemma_adds_flag(m: Seq<(Str, JsonModel)>, k: Str, v: Option<bool>, n: Str) -> (there: Option<
    JsonModel,
>)
    ensures
        found(compose::with_flag(m, k, v), n) == added(found(m, n), k, there, n),
        found(gantry_yaml::with_flag(m, k, v), n) == added(found(m, n), k, there, n),
        reads_flag(there, v),
{
    match v {
        Some(b) => {
            lemma_push(m, k, JsonModel::Bool(b), n);
            Some(JsonModel::Bool(b))
        },
        None => None,
    }
}

/// The members of a list of names lead to their values.
pub proof fn lemma_listed(keys: Seq<Str>, f: spec_fn(Str) -> JsonModel, n: Str)
    ensures
        found(Seq::new(keys.len(), |i: int| (keys[i], f(keys[i]))), n) == (if keys.contains(n) {
            Some(f(n))
        } else {
            None
        }),
    decreases keys.len(),
{
    let all = Seq::new(keys.len(), |i: int| (keys[i], f(keys[i])));
    if keys.len() > 0 {
        let front = keys.drop_last();
        lemma_listed(front, f, n);
        let before = Seq::new(front.len(), |i: int| (front[i], f(front[i])));
        assert(all.drop_last() =~= before);
        assert(keys[keys.len() - 1] == keys.last());
        if front.contains(n) {
            let i = choose|i: int| 0 <= i < front.len() && front[i] == n;
            assert(keys[i] == n);
        } else if keys.contains(n) {
            let i = choose|i: int| 0 <= i < keys.len() && keys[i] == n;
            if i < front.len() {
                assert(front[i] == n);
            }
        }
    }
}

/// The members of a table lead to its values.
pub proof fn lemma_table_field(t: Table<JsonModel>, n: Str)
    requires
        t.valid(),
    ensures
        field(table_json(t), n) == (if t.has(n) {
            Some(t.at(n))
        } else {
            None
        }),
{
    let f = |k: Str| t.at(k);
    lemma_listed(t.keys, f, n);
    let all = Seq::new(t.keys.len(), |i: int| (t.keys[i], f(t.keys[i])));
    assert(table_json(t)->Object_0 =~= all);
    assert(t.map.contains_key(n) <==> t.keys.contains(n));
}

pub proof fn lemma_mapped_valid<A, B>(t: Table<A>, f: spec_fn(Str, A) -> B)
    requires
        t.valid(),
    ensures
        map_table(t, f).valid(),
{
    let u = map_table(t, f);
    assert forall|k: Str| #[trigger] u.map.contains_key(k) <==> u.keys.contains(k) by {
        assert(t.map.contains_key(k) <==> t.keys.contains(k));
    }
}

/// The value of a hexadecimal digit.
pub open spec fn hex_value(c: char) -> int {
    if '0' <= c <= '9' {
        c as int - '0' as int
    } else {
        c as int - 'a' as int + 10
    }
}

/// The character that a backslash and a letter stand for.
pub open spec fn meant_by(letter: char) -> char {
    if letter == 'b' {
        '\u{8}'
    } else if letter == 't' {
        '\t'
    } else if letter == 'n' {
        '\n'
    } else if letter == 'f' {
        '\u{c}'
    } else if letter == 'r' {
        '\r'
    } else {
        letter
    }
}

/// The characters that are read from what stands between the quotes of a JSON text: a backslash
/// and what follows it stand for one character, and all else stands for itself.
pub open spec fn unescaped(s: Str) -> Str
    decreases s.len(),
{
    if s.len() == 0 {
        Seq::empty()
    } else if s[0] != '\\' || s.len() < 2 {
        seq![s[0]] + unescaped(s.skip(1))
    } else if s[1] != 'u' || s.len() < 6 {
        seq![meant_by(s[1])] + unescaped(s.skip(2))
    } else {
        let n = ((hex_value(s[2]) * 16 + hex_value(s[3])) * 16 + hex_value(s[4])) * 16 + hex_value(
            s[5],
        );
        seq![n as u32 as char] + unescaped(s.skip(6))
    }
}

proof fn lemma_hex(n: int)
    requires
        0 <= n < 16,
    ensures
        hex_value(hex_digit(n)) == n,
        hex_digit(n) >= '0',
{
    reveal_strlit("0123456789abcdef");
}

proof fn lemma_unescape_one(c: char, rest: Str)
    ensures
        unescaped(escape(c) + rest) == seq![c] + unescaped(rest),
{
    let s = escape(c) + rest;
    if escape_letter(c) is Some {
        assert(s.skip(2) =~= rest);
    } else if (c as u32) < 0x20 {
        lemma_hex(0);
        lemma_hex(c as int / 16);
        lemma_hex(c as int % 16);
        assert(hex_value('0') == 0);
        assert(s.skip(6) =~= rest);
    } else {
        assert(s.skip(1) =~= rest);
    }
}

proof fn lemma_escaped_front(s: Str)
    requires
        s.len() > 0,
    ensures
        escaped(s) == escape(s[0]) + escaped(s.drop_first()),
    decreases s.len(),
{
    if s.len() == 1 {
        assert(s.drop_last() =~= Seq::<char>::empty());
        assert(s.drop_first() =~= Seq::<char>::empty());
        assert(escaped(Seq::<char>::empty()) =~= Seq::<char>::empty());
        assert(escaped(s) =~= escape(s[0]));
    } else {
        lemma_escaped_front(s.drop_last());
        assert(s.drop_last().drop_first() =~= s.drop_first().drop_last());
        assert(s.drop_first().last() == s.last());
        assert(escaped(s) =~= escape(s[0]) + (escaped(s.drop_first().drop_last()) + escape(
            s.last(),
        )));
    }
}

/// A text is read back from how it is written in JSON: each character is, whatever it is.
pub proof fn law_text_reads_back(s: Str)
    ensures
        unescaped(escaped(s)) == s,
    decreases s.len(),
{
    if s.len() > 0 {
        lemma_escaped_front(s);
        lemma_unescape_one(s[0], escaped(s.drop_first()));
        law_text_reads_back(s.drop_first());
        assert(seq![s[0]] + s.drop_first() =~= s);
    }
}

proof fn lemma_escape_one(c: char, k: int)
    requires
        0 <= k < escape(c).len(),
    ensures
        escape(c)[k] >= ' ',
        escape(c)[k] == '"' ==> k > 0 && escape(c)[k - 1] == '\\',
{
    if escape_letter(c) is None && (c as u32) < 0x20 {
        lemma_hex(0);
        lemma_hex(c as int / 16);
        lemma_hex(c as int % 16);
    }
}

/// What stands between quotes holds no character below a space, and no quote but behind a
/// backslash.
pub proof fn law_text_stays_between_quotes(s: Str, i: int)
    requires
        0 <= i < escaped(s).len(),
    ensures
        escaped(s)[i] >= ' ',
        escaped(s)[i] == '"' ==> i > 0 && escaped(s)[i - 1] == '\\',
    decreases s.len(),
{
    if s.len() > 0 {
        let front = escaped(s.drop_last());
        if i < front.len() {
            law_text_stays_between_quotes(s.drop_last(), i);
        } else {
            let c = s.last();
            let e = escape(c);
            assert(escaped(s) == front + e);
            assert(escaped(s)[i] == e[i - front.len()]);
            assert(i > front.len() ==> escaped(s)[i - 1] == e[i - 1 - front.len()]);
            lemma_escape_one(c, i - front.len());
        }
    }
}

/// What stands between the brackets of a value.
pub open spec fn within(j: JsonModel) -> Str {
    json_text(j).subrange(1, json_text(j).len() - 1)
}

/// A list is written in square brackets: nothing for no value, the value for one, and for two
/// lists that follow each other what stands for the one, a comma and what stands for the other.
pub proof fn law_list_text(x: JsonModel, a: Seq<JsonModel>, b: Seq<JsonModel>)
    requires
        a.len() > 0,
        b.len() > 0,
    ensures
        json_text(JsonModel::List(Seq::empty())) == seq!['[', ']'],
        json_text(JsonModel::List(seq![x])) == seq!['['] + json_text(x) + seq![']'],
        json_text(JsonModel::List(a + b)) == seq!['['] + within(JsonModel::List(a)) + seq![',']
            + within(JsonModel::List(b)) + seq![']'],
{
    assert(json_text(JsonModel::List(Seq::empty())) =~= seq!['[', ']']);
    assert(items_text(seq![x], 1) == json_text(x));
    lemma_items_within(a);
    lemma_items_within(b);
    lemma_items_split(a, b, b.len());
    let all = a + b;
    assert(all.len() == a.len() + b.len());
    assert(json_text(JsonModel::List(all)) =~= seq!['['] + items_text(a, a.len()) + seq![',']
        + items_text(b, b.len()) + seq![']']);
}

proof fn lemma_items_within(a: Seq<JsonModel>)
    ensures
        within(JsonModel::List(a)) == items_text(a, a.len()),
{
    let t = items_text(a, a.len());
    assert((seq!['['] + t + seq![']']).subrange(1, t.len() as int + 1) =~= t);
}

proof fn lemma_items_same(a: Seq<JsonModel>, b: Seq<JsonModel>, n: nat)
    requires
        n <= a.len(),
        n <= b.len(),
        forall|i: int| 0 <= i < n ==> a[i] == b[i],
    ensures
        items_text(a, n) == items_text(b, n),
    decreases n,
{
    if n > 1 {
        lemma_items_same(a, b, (n - 1) as nat);
    }
}

proof fn lemma_items_split(a: Seq<JsonModel>, b: Seq<JsonModel>, n: nat)
    requires
        a.len() > 0,
        0 < n <= b.len(),
    ensures
        items_text(a + b, a.len() + n) == items_text(a, a.len()) + seq![','] + items_text(b, n),
    decreases n,
{
    let all = a + b;
    assert(all[a.len() + n - 1] == b[n - 1]);
    if n == 1 {
        lemma_items_same(all, a, a.len());
    } else {
        lemma_items_split(a, b, (n - 1) as nat);
        let x = json_text(b[n - 1]);
        assert(items_text(all, a.len() + n) =~= items_text(a, a.len()) + seq![','] + (items_text(
            b,
            (n - 1) as nat,
        ) + seq![','] + x));
    }
}

/// An object is written in curly brackets: nothing for no member, for one its name in quotes, a
/// colon and its value, and for members that follow each other what stands for the ones, a comma
/// and what stands for the others.
pub proof fn law_object_text(
    name: Str,
    x: JsonModel,
    a: Seq<(Str, JsonModel)>,
    b: Seq<(Str, JsonModel)>,
)
    requires
        a.len() > 0,
        b.len() > 0,
    ensures
        json_text(JsonModel::Object(Seq::empty())) == seq!['{', '}'],
        json_text(JsonModel::Object(seq![(name, x)])) == seq!['{'] + json_text(
            JsonModel::Text(name),
        ) + seq![':'] + json_text(x) + seq!['}'],
        json_text(JsonModel::Object(a + b)) == seq!['{'] + within(JsonModel::Object(a)) + seq![',']
            + within(JsonModel::Object(b)) + seq!['}'],
{
    assert(json_text(JsonModel::Object(Seq::empty())) =~= seq!['{', '}']);
    assert(members_text(seq![(name, x)], 1) == quoted(name) + seq![':'] + json_text(x));
    assert(json_text(JsonModel::Object(seq![(name, x)])) =~= seq!['{'] + json_text(
        JsonModel::Text(name),
    ) + seq![':'] + json_text(x) + seq!['}']);
    lemma_members_within(a);
    lemma_members_within(b);
    lemma_members_split(a, b, b.len());
    let all = a + b;
    assert(all.len() == a.len() + b.len());
    assert(json_text(JsonModel::Object(all)) =~= seq!['{'] + members_text(a, a.len()) + seq![',']
        + members_text(b, b.len()) + seq!['}']);
}

proof fn lemma_members_within(a: Seq<(Str, JsonModel)>)
    ensures
        within(JsonModel::Object(a)) == members_text(a, a.len()),
{
    let t = members_text(a, a.len());
    assert((seq!['{'] + t + seq!['}']).subrange(1, t.len() as int + 1) =~= t);
}

proof fn lemma_members_same(a: Seq<(Str, JsonModel)>, b: Seq<(Str, JsonModel)>, n: nat)
    requires
        n <= a.len(),
        n <= b.len(),
        forall|i: int| 0 <= i < n ==> a[i] == b[i],
    ensures
        members_text(a, n) == members_text(b, n),
    decreases n,
{
    if n > 1 {
        lemma_members_same(a, b, (n - 1) as nat);
    }
}

proof fn lemma_members_split(a: Seq<(Str, JsonModel)>, b: Seq<(Str, JsonModel)>, n: nat)
    requires
        a.len() > 0,
        0 < n <= b.len(),
    ensures
        members_text(a + b, a.len() + n) == members_text(a, a.len()) + seq![','] + members_text(
            b,
            n,
        ),
    decreases n,
{
    let all = a + b;
    assert(all[a.len() + n - 1] == b[n - 1]);
    if n == 1 {
        lemma_members_same(all, a, a.len());
        assert(members_text(all, a.len() + 1) =~= members_text(a, a.len()) + seq![',']
            + members_text(b, 1));
    } else {
        lemma_members_split(a, b, (n - 1) as nat);
        let (k, x) = (quoted(b[n - 1].0), json_text(b[n - 1].1));
        assert(members_text(all, a.len() + n) =~= members_text(a, a.len()) + seq![','] + (
        members_text(b, (n - 1) as nat) + seq![','] + k + seq![':'] + x));
    }
}

/// A text is written in quotes, and the other values as JSON names them.
pub proof fn law_plain_text(s: Str, b: bool)
    ensures
        unescaped(within(JsonModel::Text(s))) == s,
        json_text(JsonModel::Text(s)) == seq!['"'] + within(JsonModel::Text(s)) + seq!['"'],
        json_text(JsonModel::Null) == "null"@,
        json_text(JsonModel::Bool(b)) == (if b {
            "true"@
        } else {
            "false"@
        }),
        json_text(JsonModel::Raw(s)) == s,
{
    law_text_reads_back(s);
    let t = escaped(s);
    assert((seq!['"'] + t + seq!['"']).subrange(1, t.len() as int + 1) =~= t);
}

} // verus!
