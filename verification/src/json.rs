//! JSON values, with the members of objects in order.
use crate::ordered_map::{Item, OrderedMap, Table};
use crate::text::{text_eq, Str};
use vstd::prelude::*;

verus! {

/// A JSON value.
#[derive(Debug)]
pub enum Json {
    Null,
    Bool(bool),
    Num(u64),
    /// Another number, as it is written.
    Raw(String),
    Text(String),
    List(Vec<Json>),
    Object(Vec<(String, Json)>),
}

/// The model of a [`Json`].
pub enum JsonModel {
    Null,
    Bool(bool),
    Num(u64),
    Raw(Str),
    Text(Str),
    List(Seq<JsonModel>),
    Object(Seq<(Str, JsonModel)>),
}

impl Json {
    /// The model of the value.
    pub open spec fn model(self) -> JsonModel
        decreases self,
    {
        match self {
            Json::Null => JsonModel::Null,
            Json::Bool(b) => JsonModel::Bool(b),
            Json::Num(n) => JsonModel::Num(n),
            Json::Raw(s) => JsonModel::Raw(s@),
            Json::Text(s) => JsonModel::Text(s@),
            Json::List(v) => JsonModel::List(
                Seq::new(
                    v@.len(),
                    |i: int|
                        if 0 <= i < v@.len() {
                            v@[i].model()
                        } else {
                            JsonModel::Null
                        },
                ),
            ),
            Json::Object(v) => JsonModel::Object(
                Seq::new(
                    v@.len(),
                    |i: int|
                        if 0 <= i < v@.len() {
                            (v@[i].0@, v@[i].1.model())
                        } else {
                            (Seq::empty(), JsonModel::Null)
                        },
                ),
            ),
        }
    }
}

/// The models of a list of values.
pub open spec fn models(list: Seq<Json>) -> Seq<JsonModel> {
    Seq::new(list.len(), |i: int| list[i].model())
}

/// The models of the members of an object.
pub open spec fn members(list: Seq<(String, Json)>) -> Seq<(Str, JsonModel)> {
    Seq::new(list.len(), |i: int| (list[i].0@, list[i].1.model()))
}

/// A text, as JSON.
pub open spec fn text_json(s: Str) -> JsonModel {
    JsonModel::Text(s)
}

/// An optional text, as JSON.
pub open spec fn option_json(s: Option<Str>) -> JsonModel {
    match s {
        Some(t) => JsonModel::Text(t),
        None => JsonModel::Null,
    }
}

/// An optional number, as JSON.
pub open spec fn number_json(n: Option<u64>) -> JsonModel {
    match n {
        Some(m) => JsonModel::Num(m),
        None => JsonModel::Null,
    }
}

/// A list of texts, as JSON.
pub open spec fn texts_json(list: Seq<Str>) -> JsonModel {
    JsonModel::List(Seq::new(list.len(), |i: int| JsonModel::Text(list[i])))
}

/// A text, as JSON.
pub fn text(s: &str) -> (r: Json)
    ensures
        r.model() == text_json(s@),
{
    Json::Text(s.to_owned())
}

/// An optional text, as JSON.
pub fn option_text(s: &Option<String>) -> (r: Json)
    ensures
        r.model() == option_json(s.deep_view()),
{
    match s {
        Some(t) => Json::Text(t.clone()),
        None => Json::Null,
    }
}

/// An optional number, as JSON.
pub fn option_number(n: Option<u64>) -> (r: Json)
    ensures
        r.model() == number_json(n),
{
    match n {
        Some(m) => Json::Num(m),
        None => Json::Null,
    }
}

/// A list of texts, as JSON.
pub fn texts(list: &Vec<String>) -> (r: Json)
    ensures
        r.model() == texts_json(list.deep_view()),
{
    let mut out: Vec<Json> = Vec::new();
    let mut i: usize = 0;
    while i < list.len()
        invariant
            i <= list.len(),
            out.len() == i,
            forall|j: int|
                0 <= j < i ==> (#[trigger] out@[j]).model() == JsonModel::Text(list@[j]@),
        decreases list.len() - i,
    {
        out.push(Json::Text(list[i].clone()));
        i = i + 1;
    }
    let r = Json::List(out);
    assert(r.model()->List_0 =~= texts_json(list.deep_view())->List_0);
    r
}

/// A list of values, as JSON.
pub fn list(items: Vec<Json>) -> (r: Json)
    ensures
        r.model() == JsonModel::List(models(items@)),
{
    let r = Json::List(items);
    assert(r.model()->List_0 =~= models(items@));
    r
}

/// The members of a JSON object, one by one.
pub struct Members {
    list: Vec<(String, Json)>,
}

impl Members {
    /// The members so far.
    pub closed spec fn all(&self) -> Seq<(Str, JsonModel)> {
        members(self.list@)
    }

    /// No members.
    pub fn new() -> (r: Self)
        ensures
            r.all() == Seq::<(Str, JsonModel)>::empty(),
    {
        let r = Members { list: Vec::new() };
        assert(r.all() =~= Seq::<(Str, JsonModel)>::empty());
        r
    }

    /// Adds a member.
    pub fn put(&mut self, name: &str, value: Json)
        ensures
            final(self).all() == old(self).all().push((name@, value.model())),
    {
        let ghost before = self.all();
        self.list.push((name.to_owned(), value));
        assert(self.all() =~= before.push((name@, value.model())));
    }

    /// The object.
    pub fn object(self) -> (r: Json)
        ensures
            r.model() == JsonModel::Object(self.all()),
    {
        let ghost all = self.all();
        let r = Json::Object(self.list);
        assert(r.model()->Object_0 =~= all);
        r
    }
}

/// The value of the first member with a name.
pub open spec fn member_of(list: Seq<(Str, JsonModel)>, name: Str) -> JsonModel
    decreases list.len(),
{
    if list.len() == 0 {
        JsonModel::Null
    } else if list[0].0 == name {
        list[0].1
    } else {
        member_of(list.drop_first(), name)
    }
}

impl JsonModel {
    /// The value of a member, or null.
    pub open spec fn member(self, name: Str) -> JsonModel {
        match self {
            JsonModel::Object(list) => member_of(list, name),
            _ => JsonModel::Null,
        }
    }

    /// The text that the value is, or another text.
    pub open spec fn text_or(self, other: Str) -> Str {
        match self {
            JsonModel::Text(s) => s,
            _ => other,
        }
    }
}

/// Those of some values that are texts.
pub open spec fn texts_among(list: Seq<JsonModel>) -> Seq<Str>
    decreases list.len(),
{
    if list.len() == 0 {
        Seq::empty()
    } else {
        match list.last() {
            JsonModel::Text(s) => texts_among(list.drop_last()).push(s),
            _ => texts_among(list.drop_last()),
        }
    }
}

impl Json {
    /// The value of a member, if there is one.
    pub fn get(&self, name: &str) -> (r: Option<&Json>)
        ensures
            match r {
                Some(j) => self.model().member(name@) == j.model(),
                None => self.model().member(name@) == JsonModel::Null,
            },
    {
        let ghost m = self.model();
        match self {
            Json::Object(list) => {
                let ghost all = m->Object_0;
                let mut i: usize = 0;
                assert(all.skip(0) =~= all);
                while i < list.len()
                    invariant
                        m == self.model(),
                        *self == Json::Object(*list),
                        all == m->Object_0,
                        all.len() == list.len(),
                        i <= list.len(),
                        m.member(name@) == member_of(all.skip(i as int), name@),
                    decreases list.len() - i,
                {
                    let ghost rest = all.skip(i as int);
                    assert(rest[0] == all[i as int]);
                    assert(all[i as int] == (list@[i as int].0@, list@[i as int].1.model()));
                    assert(rest.drop_first() =~= all.skip(i + 1));
                    if text_eq(list[i].0.as_str(), name) {
                        return Some(&list[i].1);
                    }
                    i = i + 1;
                }
                None
            },
            _ => None,
        }
    }

    /// The text that the value is.
    pub fn as_text(&self) -> (r: Option<&str>)
        ensures
            match r {
                Some(s) => self.model() == JsonModel::Text(s@),
                None => !(self.model() is Text),
            },
    {
        match self {
            Json::Text(s) => Some(s.as_str()),
            _ => None,
        }
    }

    /// The list that the value is.
    pub fn as_list(&self) -> (r: Option<&Vec<Json>>)
        ensures
            match r {
                Some(v) => self.model() == JsonModel::List(models(v@)),
                None => !(self.model() is List),
            },
    {
        match self {
            Json::List(v) => {
                assert(self.model()->List_0 =~= models(v@));
                Some(v)
            },
            _ => None,
        }
    }

    /// The text of a member, or another text.
    pub fn member_text<'a>(&'a self, name: &str, other: &'a str) -> (r: &'a str)
        ensures
            r@ == self.model().member(name@).text_or(other@),
    {
        match self.get(name) {
            Some(j) => match j.as_text() {
                Some(s) => s,
                None => other,
            },
            None => other,
        }
    }

    /// The list that a member is.
    pub fn member_list(&self, name: &str) -> (r: Option<&Vec<Json>>)
        ensures
            match r {
                Some(v) => self.model().member(name@) == JsonModel::List(models(v@)),
                None => !(self.model().member(name@) is List),
            },
    {
        match self.get(name) {
            Some(j) => j.as_list(),
            None => None,
        }
    }
}

/// Lists those of some values that are texts.
pub fn list_texts(list: &Vec<Json>) -> (r: Vec<String>)
    ensures
        r.deep_view() == texts_among(models(list@)),
{
    let ghost all = models(list@);
    let mut out: Vec<String> = Vec::new();
    let mut i: usize = 0;
    assert(out.deep_view() =~= Seq::<Str>::empty());
    while i < list.len()
        invariant
            all == models(list@),
            i <= list.len(),
            out.deep_view() == texts_among(all.take(i as int)),
        decreases list.len() - i,
    {
        let ghost next = all.take(i + 1);
        assert(next.drop_last() =~= all.take(i as int));
        assert(next.last() == list@[i as int].model());
        if let Some(s) = list[i].as_text() {
            let ghost before = out.deep_view();
            out.push(s.to_owned());
            assert(out.deep_view() =~= before.push(s@));
        }
        i = i + 1;
    }
    assert(all.take(i as int) =~= all);
    out
}

impl DeepView for Json {
    type V = JsonModel;

    open spec fn deep_view(&self) -> JsonModel {
        self.model()
    }
}

impl Item for Json {
    open spec fn ok(&self) -> bool {
        true
    }
}

impl Json {
    /// The same value.
    pub fn copy(&self) -> (r: Self)
        ensures
            r.model() == self.model(),
        decreases self,
    {
        let ghost m = self.model();
        match self {
            Json::Null => Json::Null,
            Json::Bool(b) => Json::Bool(*b),
            Json::Num(n) => Json::Num(*n),
            Json::Raw(s) => Json::Raw(s.clone()),
            Json::Text(s) => Json::Text(s.clone()),
            Json::List(v) => {
                let mut out: Vec<Json> = Vec::new();
                let mut i: usize = 0;
                while i < v.len()
                    invariant
                        *self == Json::List(*v),
                        i <= v.len(),
                        out.len() == i,
                        forall|k: int|
                            0 <= k < i ==> (#[trigger] out@[k]).model() == v@[k].model(),
                    decreases v.len() - i,
                {
                    assert(decreases_to!(self->List_0 => self->List_0@));
                    assert(decreases_to!(v@ => v@[i as int]));
                    out.push(v[i].copy());
                    i = i + 1;
                }
                let r = Json::List(out);
                assert(r.model()->List_0 =~= m->List_0);
                r
            },
            Json::Object(v) => {
                let mut out: Vec<(String, Json)> = Vec::new();
                let mut i: usize = 0;
                while i < v.len()
                    invariant
                        *self == Json::Object(*v),
                        i <= v.len(),
                        out.len() == i,
                        forall|k: int|
                            0 <= k < i ==> (#[trigger] out@[k]).0@ == v@[k].0@
                                && out@[k].1.model() == v@[k].1.model(),
                    decreases v.len() - i,
                {
                    assert(decreases_to!(self->Object_0 => self->Object_0@));
                    assert(decreases_to!(v@ => v@[i as int]));
                    out.push((v[i].0.clone(), v[i].1.copy()));
                    i = i + 1;
                }
                let r = Json::Object(out);
                assert(r.model()->Object_0 =~= m->Object_0);
                r
            },
        }
    }
}

/// A table of values, as JSON.
pub open spec fn table_json(t: Table<JsonModel>) -> JsonModel {
    JsonModel::Object(Seq::new(t.keys.len(), |i: int| (t.keys[i], t.at(t.keys[i]))))
}

/// A table of values, as JSON.
pub fn table(t: &OrderedMap<Json>) -> (r: Json)
    requires
        t.wf(),
    ensures
        r.model() == table_json(t.deep_view()),
{
    let ghost m = t.deep_view();
    let ghost f = |i: int| (m.keys[i], m.at(m.keys[i]));
    let mut out = Members::new();
    let n: usize = t.len();
    let mut i: usize = 0;
    assert(out.all() =~= Seq::new(0, f));
    while i < n
        invariant
            t.wf(),
            m == t.deep_view(),
            f == (|i: int| (m.keys[i], m.at(m.keys[i]))),
            i <= n == m.keys.len(),
            out.all() == Seq::new(i as nat, f),
        decreases n - i,
    {
        out.put(t.name(i).as_str(), t.value(i).copy());
        i = i + 1;
        assert(out.all() =~= Seq::new(i as nat, f));
    }
    assert(out.all() =~= table_json(m)->Object_0);
    out.object()
}

/// A table of texts, as JSON.
pub open spec fn text_table_json(t: Table<Str>) -> JsonModel {
    JsonModel::Object(
        Seq::new(t.keys.len(), |i: int| (t.keys[i], JsonModel::Text(t.at(t.keys[i])))),
    )
}

/// A table of texts, as JSON.
pub fn text_table(t: &OrderedMap<String>) -> (r: Json)
    requires
        t.wf(),
    ensures
        r.model() == text_table_json(t.deep_view()),
{
    let ghost m = t.deep_view();
    let ghost f = |i: int| (m.keys[i], JsonModel::Text(m.at(m.keys[i])));
    let mut out = Members::new();
    let n: usize = t.len();
    let mut i: usize = 0;
    assert(out.all() =~= Seq::new(0, f));
    while i < n
        invariant
            t.wf(),
            m == t.deep_view(),
            f == (|i: int| (m.keys[i], JsonModel::Text(m.at(m.keys[i])))),
            i <= n == m.keys.len(),
            out.all() == Seq::new(i as nat, f),
        decreases n - i,
    {
        out.put(t.name(i).as_str(), text(t.value(i).as_str()));
        i = i + 1;
        assert(out.all() =~= Seq::new(i as nat, f));
    }
    assert(out.all() =~= text_table_json(m)->Object_0);
    out.object()
}

/// Members with a text, if there is one.
pub open spec fn with_text(m: Seq<(Str, JsonModel)>, name: Str, value: Option<Str>) -> Seq<
    (Str, JsonModel),
> {
    match value {
        Some(v) => m.push((name, JsonModel::Text(v))),
        None => m,
    }
}

/// Members with a value, if there is one.
pub open spec fn with_value(
    m: Seq<(Str, JsonModel)>,
    name: Str,
    value: Option<JsonModel>,
) -> Seq<(Str, JsonModel)> {
    match value {
        Some(v) => m.push((name, v)),
        None => m,
    }
}

/// Members with a list of texts, if it is not empty.
pub open spec fn with_texts(m: Seq<(Str, JsonModel)>, name: Str, list: Seq<Str>) -> Seq<
    (Str, JsonModel),
> {
    if list.len() > 0 {
        m.push((name, texts_json(list)))
    } else {
        m
    }
}

/// Members with a table of texts, if it is not empty.
pub open spec fn with_text_table(m: Seq<(Str, JsonModel)>, name: Str, t: Table<Str>) -> Seq<
    (Str, JsonModel),
> {
    if t.keys.len() > 0 {
        m.push((name, text_table_json(t)))
    } else {
        m
    }
}

impl Members {
    /// Adds a text, if there is one.
    pub fn put_text(&mut self, name: &str, value: &Option<String>)
        ensures
            final(self).all() == with_text(old(self).all(), name@, value.deep_view()),
    {
        if let Some(v) = value {
            self.put(name, text(v.as_str()));
        }
    }

    /// Adds a value, if there is one.
    pub fn put_value(&mut self, name: &str, value: &Option<Json>)
        ensures
            final(self).all() == with_value(old(self).all(), name@, value.deep_view()),
    {
        if let Some(v) = value {
            self.put(name, v.copy());
        }
    }

    /// Adds a list of texts, if it is not empty.
    pub fn put_texts(&mut self, name: &str, list: &Vec<String>)
        ensures
            final(self).all() == with_texts(old(self).all(), name@, list.deep_view()),
    {
        assert(list.deep_view().len() == list.len());
        if list.len() > 0 {
            self.put(name, texts(list));
        }
    }

    /// Adds a table of texts, if it is not empty.
    pub fn put_text_table(&mut self, name: &str, t: &OrderedMap<String>)
        requires
            t.wf(),
        ensures
            final(self).all() == with_text_table(old(self).all(), name@, t.deep_view()),
    {
        if t.len() > 0 {
            self.put(name, text_table(t));
        }
    }
}

} // verus!
