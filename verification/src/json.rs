//! JSON values, as story and passage metadata hold them.
//!
//! [`JsonValue`] and [`JsonMap`] are this crate's own representation.  Text
//! is parsed and printed by `serde_json`; the functions at the end of this
//! file convert between the two representations one level at a time.

use vstd::prelude::*;
use crate::assoc::{find_key, lemma_find_key_is, lemma_find_key_none, lemma_upsert_unique,
    lemma_without_unique, lookup, unique_keys, upsert, without};

verus! {

/// `serde_json::Number`, carried as it is.
#[verifier::external_type_specification]
#[verifier::external_body]
pub struct ExNumber(serde_json::Number);

/// `serde_json::Value`, taken apart and built by the functions at the end
/// of this file.
#[verifier::external_type_specification]
#[verifier::external_body]
pub struct ExValue(serde_json::Value);

/// `Clone` on `serde_json::Number` returns an equal number.
pub assume_specification[ <serde_json::Number as Clone>::clone ](
    n: &serde_json::Number,
) -> (r: serde_json::Number)
    ensures
        r == *n,
;

/// The text that `Display` writes for a `serde_json::Number`.  `serde_json`
/// writes the same text where it prints the number as JSON.
pub uninterp spec fn number_text(n: serde_json::Number) -> Seq<char>;

/// A JSON value as a mathematical object: what a [`JsonValue`] stands for.
/// A number stands for the text that writes it.
pub enum Json {
    Null,
    Bool(bool),
    Number(Seq<char>),
    String(Seq<char>),
    Array(Seq<Json>),
    Object(Seq<(Seq<char>, Json)>),
}

/// A JSON value.
#[derive(Debug)]
pub enum JsonValue {
    Null,
    Bool(bool),
    Number(serde_json::Number),
    String(String),
    Array(Vec<JsonValue>),
    Object(JsonMap),
}

/// An ordered mapping from keys to JSON values.  No key occurs twice, and
/// the entries keep the order in which their keys were first inserted.
#[derive(Debug)]
pub struct JsonMap {
    entries: Vec<(String, JsonValue)>,
}

/// The mathematical form of a list of entries.
pub open spec fn entries_view(e: Seq<(String, JsonValue)>) -> Seq<(Seq<char>, Json)>
    decreases e,
{
    Seq::new(
        e.len(),
        |i: int|
            if 0 <= i < e.len() {
                (e[i].0@, e[i].1.view())
            } else {
                (Seq::empty(), Json::Null)
            },
    )
}

/// The mathematical form of a list of values.
pub open spec fn items_view(items: Seq<JsonValue>) -> Seq<Json>
    decreases items,
{
    Seq::new(
        items.len(),
        |i: int|
            if 0 <= i < items.len() {
                items[i].view()
            } else {
                Json::Null
            },
    )
}

impl View for JsonValue {
    type V = Json;

    open spec fn view(&self) -> Json
        decreases self,
    {
        match self {
            JsonValue::Null => Json::Null,
            JsonValue::Bool(b) => Json::Bool(*b),
            JsonValue::Number(n) => Json::Number(number_text(*n)),
            JsonValue::String(s) => Json::String(s@),
            JsonValue::Array(items) => Json::Array(items_view(items@)),
            JsonValue::Object(m) => Json::Object(m.view()),
        }
    }
}

impl View for JsonMap {
    type V = Seq<(Seq<char>, Json)>;

    closed spec fn view(&self) -> Seq<(Seq<char>, Json)>
        decreases self,
    {
        entries_view(self.entries@)
    }
}

impl JsonMap {
    #[verifier::type_invariant]
    spec fn unique(self) -> bool {
        unique_keys(self@)
    }

    /// An empty mapping.
    pub fn new() -> (m: JsonMap)
        ensures
            m@ == Seq::<(Seq<char>, Json)>::empty(),
    {
        let m = JsonMap { entries: Vec::new() };
        assert(m@ =~= Seq::<(Seq<char>, Json)>::empty());
        m
    }

    /// The number of entries.
    pub fn len(&self) -> (n: usize)
        ensures
            n == self@.len(),
            unique_keys(self@),
    {
        proof {
            use_type_invariant(&*self);
        }
        self.entries.len()
    }

    /// Whether the mapping has no entry.
    pub fn is_empty(&self) -> (b: bool)
        ensures
            b == (self@.len() == 0),
    {
        self.entries.len() == 0
    }

    /// The entries, in order.
    pub fn entries(&self) -> (e: &Vec<(String, JsonValue)>)
        ensures
            entries_view(e@) == self@,
            unique_keys(self@),
    {
        proof {
            use_type_invariant(&*self);
        }
        &self.entries
    }

    /// The value stored under `key`.
    pub fn get(&self, key: &str) -> (r: Option<&JsonValue>)
        ensures
            match lookup(self@, key@) {
                Some(j) => r is Some && r.unwrap()@ == j,
                None => r is None,
            },
    {
        let k = key.to_owned();
        let mut i: usize = 0;
        while i < self.entries.len()
            invariant
                i <= self.entries@.len(),
                k@ == key@,
                forall|j: int| 0 <= j < i ==> (#[trigger] self@[j]).0 != key@,
            decreases self.entries@.len() - i,
        {
            if self.entries[i].0 == k {
                proof {
                    lemma_find_key_is(self@, key@, i as int);
                }
                return Some(&self.entries[i].1);
            }
            i += 1;
        }
        proof {
            lemma_find_key_none(self@, key@);
        }
        None
    }

    /// Maps `key` to `value`.  An existing entry keeps its place; a new key
    /// goes to the end.
    pub fn insert(&mut self, key: String, value: JsonValue)
        ensures
            final(self)@ == upsert(old(self)@, key@, value@),
    {
        proof {
            use_type_invariant(&*self);
            lemma_upsert_unique(self@, key@, value@);
        }
        let mut taken = JsonMap::new();
        core::mem::swap(self, &mut taken);
        let JsonMap { entries: mut entries } = taken;
        let ghost before = entries_view(entries@);
        let mut i: usize = 0;
        let mut found = false;
        while i < entries.len() && !found
            invariant
                i <= entries@.len(),
                before == entries_view(entries@),
                !found ==> forall|j: int| 0 <= j < i ==> (#[trigger] before[j]).0 != key@,
                found ==> i < entries@.len() && find_key(before, key@) == Some(i as int),
            decreases entries@.len() - i + (if found { 0int } else { 1int }),
        {
            if entries[i].0 == key {
                proof {
                    lemma_find_key_is(before, key@, i as int);
                }
                found = true;
            } else {
                i += 1;
            }
        }
        if found {
            entries.set(i, (key, value));
            assert(entries_view(entries@) =~= before.update(i as int, (key@, value@)));
        } else {
            proof {
                lemma_find_key_none(before, key@);
            }
            entries.push((key, value));
            assert(entries_view(entries@) =~= before.push((key@, value@)));
        }
        *self = JsonMap { entries };
    }

    /// Removes the entry for `key` and returns its value.  The other entries
    /// keep their order.
    pub fn remove(&mut self, key: &str) -> (r: Option<JsonValue>)
        ensures
            final(self)@ == without(old(self)@, key@),
            match lookup(old(self)@, key@) {
                Some(j) => r is Some && r.unwrap()@ == j,
                None => r is None,
            },
    {
        proof {
            use_type_invariant(&*self);
            lemma_without_unique(self@, key@);
        }
        let k = key.to_owned();
        let mut taken = JsonMap::new();
        core::mem::swap(self, &mut taken);
        let JsonMap { entries: mut entries } = taken;
        let ghost before = entries_view(entries@);
        let mut i: usize = 0;
        let mut found = false;
        while i < entries.len() && !found
            invariant
                i <= entries@.len(),
                k@ == key@,
                before == entries_view(entries@),
                !found ==> forall|j: int| 0 <= j < i ==> (#[trigger] before[j]).0 != key@,
                found ==> i < entries@.len() && find_key(before, key@) == Some(i as int),
            decreases entries@.len() - i + (if found { 0int } else { 1int }),
        {
            if entries[i].0 == k {
                proof {
                    lemma_find_key_is(before, key@, i as int);
                }
                found = true;
            } else {
                i += 1;
            }
        }
        if found {
            let entry = entries.remove(i);
            assert(entries_view(entries@) =~= before.remove(i as int));
            *self = JsonMap { entries };
            Some(entry.1)
        } else {
            proof {
                lemma_find_key_none(before, key@);
            }
            *self = JsonMap { entries };
            None
        }
    }
}

impl Clone for JsonValue {
    fn clone(&self) -> (r: JsonValue)
        ensures
            r@ == self@,
    {
        self.duplicate()
    }
}

impl Clone for JsonMap {
    fn clone(&self) -> (r: JsonMap)
        ensures
            r@ == self@,
    {
        proof {
            use_type_invariant(&*self);
        }
        let mut out: Vec<(String, JsonValue)> = Vec::new();
        let mut i: usize = 0;
        while i < self.entries.len()
            invariant
                i <= self.entries@.len(),
                entries_view(out@) == entries_view(self.entries@).take(i as int),
            decreases self.entries@.len() - i,
        {
            let key = self.entries[i].0.clone();
            let value = self.entries[i].1.duplicate();
            let ghost before = out@;
            out.push((key, value));
            assert(entries_view(out@) =~= entries_view(before).push((key@, value@)));
            assert(entries_view(self.entries@).take(i + 1) =~= entries_view(self.entries@).take(
                i as int,
            ).push((self.entries@[i as int].0@, self.entries@[i as int].1@)));
            i += 1;
        }
        assert(entries_view(self.entries@).take(i as int) =~= entries_view(self.entries@));
        JsonMap { entries: out }
    }
}

impl JsonValue {
    /// A copy of this value.
    pub fn duplicate(&self) -> (r: JsonValue)
        ensures
            r@ == self@,
        decreases self,
    {
        match self {
            JsonValue::Null => JsonValue::Null,
            JsonValue::Bool(b) => JsonValue::Bool(*b),
            JsonValue::Number(n) => JsonValue::Number(n.clone()),
            JsonValue::String(s) => JsonValue::String(s.clone()),
            JsonValue::Array(items) => {
                let mut out: Vec<JsonValue> = Vec::new();
                let mut i: usize = 0;
                while i < items.len()
                    invariant
                        i <= items@.len(),
                        decreases_to!(*self => items@),
                        items_view(out@) == items_view(items@).take(i as int),
                    decreases items@.len() - i,
                {
                    proof {
                        assert(decreases_to!(items@ => items@[i as int]));
                    }
                    let item = items[i].duplicate();
                    let ghost before = out@;
                    out.push(item);
                    assert(items_view(out@) =~= items_view(before).push(item@));
                    assert(items_view(items@).take(i + 1) =~= items_view(items@).take(
                        i as int,
                    ).push(items@[i as int]@));
                    i += 1;
                }
                assert(items_view(items@).take(i as int) =~= items_view(items@));
                JsonValue::Array(out)
            },
            JsonValue::Object(m) => {
                proof {
                    use_type_invariant(m);
                }
                let mut out: Vec<(String, JsonValue)> = Vec::new();
                let mut i: usize = 0;
                while i < m.entries.len()
                    invariant
                        i <= m.entries@.len(),
                        decreases_to!(*self => m.entries@),
                        entries_view(out@) == entries_view(m.entries@).take(i as int),
                    decreases m.entries@.len() - i,
                {
                    let key = m.entries[i].0.clone();
                    proof {
                        assert(decreases_to!(m.entries@ => m.entries@[i as int]));
                        assert(decreases_to!(m.entries@[i as int] => m.entries@[i as int].1));
                    }
                    let value = m.entries[i].1.duplicate();
                    let ghost before = out@;
                    out.push((key, value));
                    assert(entries_view(out@) =~= entries_view(before).push((key@, value@)));
                    assert(entries_view(m.entries@).take(i + 1) =~= entries_view(m.entries@).take(
                        i as int,
                    ).push((m.entries@[i as int].0@, m.entries@[i as int].1@)));
                    i += 1;
                }
                assert(entries_view(m.entries@).take(i as int) =~= entries_view(m.entries@));
                JsonValue::Object(JsonMap { entries: out })
            },
        }
    }

    /// Whether this value and `other` are the same JSON value.  Numbers
    /// are the same where they are written the same; objects are the same
    /// where they hold the same entries in the same order.
    pub fn same(&self, other: &JsonValue) -> (r: bool)
        ensures
            r == (self@ == other@),
        decreases self,
    {
        match self {
            JsonValue::Null => match other {
                JsonValue::Null => true,
                _ => false,
            },
            JsonValue::Bool(a) => match other {
                JsonValue::Bool(b) => *a == *b,
                _ => false,
            },
            JsonValue::Number(a) => match other {
                JsonValue::Number(b) => number_to_string(a) == number_to_string(b),
                _ => false,
            },
            JsonValue::String(a) => match other {
                JsonValue::String(b) => *a == *b,
                _ => false,
            },
            JsonValue::Array(a) => match other {
                JsonValue::Array(b) => {
                    if a.len() != b.len() {
                        assert(items_view(a@).len() != items_view(b@).len());
                        return false;
                    }
                    let mut i: usize = 0;
                    while i < a.len()
                        invariant
                            i <= a@.len(),
                            a@.len() == b@.len(),
                            decreases_to!(*self => a@),
                            self@ == Json::Array(items_view(a@)),
                            other@ == Json::Array(items_view(b@)),
                            forall|j: int| 0 <= j < i ==> (#[trigger] a@[j])@ == b@[j]@,
                        decreases a@.len() - i,
                    {
                        proof {
                            assert(decreases_to!(a@ => a@[i as int]));
                        }
                        if !a[i].same(&b[i]) {
                            assert(items_view(a@)[i as int] != items_view(b@)[i as int]);
                            return false;
                        }
                        i += 1;
                    }
                    assert(items_view(a@) =~= items_view(b@));
                    true
                },
                _ => false,
            },
            JsonValue::Object(a) => match other {
                JsonValue::Object(b) => {
                    if a.entries.len() != b.entries.len() {
                        assert(a@.len() != b@.len());
                        return false;
                    }
                    let mut i: usize = 0;
                    while i < a.entries.len()
                        invariant
                            i <= a.entries@.len(),
                            a.entries@.len() == b.entries@.len(),
                            decreases_to!(*self => a.entries@),
                            self@ == Json::Object(a@),
                            other@ == Json::Object(b@),
                            forall|j: int|
                                0 <= j < i ==> (#[trigger] a.entries@[j]).0@ == b.entries@[j].0@
                                    && a.entries@[j].1@ == b.entries@[j].1@,
                        decreases a.entries@.len() - i,
                    {
                        proof {
                            assert(decreases_to!(a.entries@ => a.entries@[i as int]));
                            assert(decreases_to!(a.entries@[i as int] => a.entries@[i as int].1));
                        }
                        if !(a.entries[i].0 == b.entries[i].0) || !a.entries[i].1.same(
                            &b.entries[i].1,
                        ) {
                            assert(a@[i as int] != b@[i as int]);
                            return false;
                        }
                        i += 1;
                    }
                    assert(a@ =~= b@);
                    true
                },
                _ => false,
            },
        }
    }

    /// The text of a string value.
    pub fn as_str(&self) -> (r: Option<&String>)
        ensures
            match self@ {
                Json::String(s) => r is Some && r.unwrap()@ == s,
                _ => r is None,
            },
    {
        match self {
            JsonValue::String(s) => Some(s),
            _ => None,
        }
    }

    /// The mapping of an object value.
    pub fn as_object(&self) -> (r: Option<&JsonMap>)
        ensures
            match self@ {
                Json::Object(m) => r is Some && r.unwrap()@ == m,
                _ => r is None,
            },
    {
        match self {
            JsonValue::Object(m) => Some(m),
            _ => None,
        }
    }
}

/// What a `serde_json::Value` holds: its variant, and in it the text of
/// the number, the string, the items in order, or the entries in the order
/// in which the map walks them.
pub uninterp spec fn json_of(v: serde_json::Value) -> Json;

/// What `serde_json::from_str` makes of a text: the value it returns, or
/// `None` where it returns an error.
pub uninterp spec fn parsed_json(text: Seq<char>) -> Option<Json>;

/// The text that `serde_json::to_string` writes for a value.
pub uninterp spec fn compact_json(j: Json) -> Seq<char>;

/// The text that `serde_json::to_string_pretty` writes for a value.
pub uninterp spec fn pretty_json(j: Json) -> Seq<char>;

/// One level of a `serde_json::Value`: the variant with its fields, the
/// values below it still in `serde_json`'s form.
enum Shape {
    Null,
    Bool(bool),
    Number(serde_json::Number),
    String(String),
    Array(Vec<serde_json::Value>),
    Object(Vec<(String, serde_json::Value)>),
}

spec fn shape_items(items: Seq<serde_json::Value>) -> Seq<Json> {
    Seq::new(items.len(), |i: int| json_of(items[i]))
}

spec fn shape_entries(entries: Seq<(String, serde_json::Value)>) -> Seq<(Seq<char>, Json)> {
    Seq::new(entries.len(), |i: int| (entries[i].0@, json_of(entries[i].1)))
}

spec fn shape_json(s: Shape) -> Json {
    match s {
        Shape::Null => Json::Null,
        Shape::Bool(b) => Json::Bool(b),
        Shape::Number(n) => Json::Number(number_text(n)),
        Shape::String(t) => Json::String(t@),
        Shape::Array(items) => Json::Array(shape_items(items@)),
        Shape::Object(entries) => Json::Object(shape_entries(entries@)),
    }
}

spec fn shape_unique(s: Shape) -> bool {
    s matches Shape::Object(entries) ==> unique_keys(shape_entries(entries@))
}

/// Tells the variants of a `serde_json::Value` apart and copies the fields
/// of the one it finds.  An object's entries come in the order of
/// `serde_json::Map::iter`, which with `preserve_order` is the order of
/// insertion; a `serde_json::Map` holds no key twice.
#[verifier::external_body]
fn value_shape(v: &serde_json::Value) -> (s: Shape)
    ensures
        shape_json(s) == json_of(*v),
        shape_unique(s),
{
    match v {
        serde_json::Value::Null => Shape::Null,
        serde_json::Value::Bool(b) => Shape::Bool(*b),
        serde_json::Value::Number(n) => Shape::Number(n.clone()),
        serde_json::Value::String(t) => Shape::String(t.clone()),
        serde_json::Value::Array(items) => Shape::Array(items.clone()),
        serde_json::Value::Object(m) => Shape::Object(
            m.iter().map(|(k, x)| (k.clone(), x.clone())).collect(),
        ),
    }
}

/// Builds the `serde_json::Value` of one variant from its fields.  An
/// object's entries are collected into a `serde_json::Map`, which with
/// `preserve_order` and distinct keys keeps them in the order given.
#[verifier::external_body]
fn value_from_shape(s: Shape) -> (v: serde_json::Value)
    requires
        shape_unique(s),
    ensures
        json_of(v) == shape_json(s),
{
    match s {
        Shape::Null => serde_json::Value::Null,
        Shape::Bool(b) => serde_json::Value::Bool(b),
        Shape::Number(n) => serde_json::Value::Number(n),
        Shape::String(t) => serde_json::Value::String(t),
        Shape::Array(items) => serde_json::Value::Array(items),
        Shape::Object(entries) => serde_json::Value::Object(entries.into_iter().collect()),
    }
}

/// Calls `to_string` on a `serde_json::Number`, which writes it as
/// `Display` does.
#[verifier::external_body]
fn number_to_string(n: &serde_json::Number) -> (s: String)
    ensures
        s@ == number_text(*n),
{
    n.to_string()
}

/// Calls `serde_json::from_str` for a `serde_json::Value`; an error becomes
/// `None`.
#[verifier::external_body]
fn value_from_str(text: &str) -> (r: Option<serde_json::Value>)
    ensures
        match r {
            Some(v) => parsed_json(text@) == Some(json_of(v)),
            None => parsed_json(text@) is None,
        },
{
    serde_json::from_str::<serde_json::Value>(text).ok()
}

/// Calls `serde_json::to_string`, which does not fail on a
/// `serde_json::Value`.
#[verifier::external_body]
fn value_to_string(v: &serde_json::Value) -> (s: String)
    ensures
        s@ == compact_json(json_of(*v)),
{
    serde_json::to_string(v).unwrap_or_default()
}

/// Calls `serde_json::to_string_pretty`, which does not fail on a
/// `serde_json::Value`.
#[verifier::external_body]
fn value_to_string_pretty(v: &serde_json::Value) -> (s: String)
    ensures
        s@ == pretty_json(json_of(*v)),
{
    serde_json::to_string_pretty(v).unwrap_or_default()
}

impl JsonValue {
    /// The value that a `serde_json::Value` holds.
    pub fn from_outside(v: &serde_json::Value) -> (r: JsonValue)
        ensures
            r@ == json_of(*v),
        decreases json_of(*v),
    {
        match value_shape(v) {
            Shape::Null => JsonValue::Null,
            Shape::Bool(b) => JsonValue::Bool(b),
            Shape::Number(n) => JsonValue::Number(n),
            Shape::String(t) => JsonValue::String(t),
            Shape::Array(items) => {
                let ghost model = shape_items(items@);
                assert(json_of(*v)->Array_0 == model);
                assert(decreases_to!(json_of(*v) => json_of(*v)->Array_0));
                let mut out: Vec<JsonValue> = Vec::new();
                let mut i: usize = 0;
                while i < items.len()
                    invariant
                        i <= items@.len(),
                        model == shape_items(items@),
                        decreases_to!(json_of(*v) => model),
                        items_view(out@) == model.take(i as int),
                    decreases items@.len() - i,
                {
                    proof {
                        assert(decreases_to!(model => model[i as int]));
                    }
                    let item = JsonValue::from_outside(&items[i]);
                    let ghost before = out@;
                    out.push(item);
                    assert(items_view(out@) =~= items_view(before).push(item@));
                    assert(model.take(i + 1) =~= model.take(i as int).push(model[i as int]));
                    i += 1;
                }
                assert(model.take(i as int) =~= model);
                JsonValue::Array(out)
            },
            Shape::Object(entries) => {
                let ghost model = shape_entries(entries@);
                assert(json_of(*v)->Object_0 == model);
                assert(decreases_to!(json_of(*v) => json_of(*v)->Object_0));
                let mut out: Vec<(String, JsonValue)> = Vec::new();
                let mut i: usize = 0;
                while i < entries.len()
                    invariant
                        i <= entries@.len(),
                        model == shape_entries(entries@),
                        decreases_to!(json_of(*v) => model),
                        entries_view(out@) == model.take(i as int),
                    decreases entries@.len() - i,
                {
                    proof {
                        assert(decreases_to!(model => model[i as int]));
                        assert(decreases_to!(model[i as int] => model[i as int].1));
                    }
                    let key = entries[i].0.clone();
                    let value = JsonValue::from_outside(&entries[i].1);
                    let ghost before = out@;
                    out.push((key, value));
                    assert(entries_view(out@) =~= entries_view(before).push((key@, value@)));
                    assert(model.take(i + 1) =~= model.take(i as int).push(model[i as int]));
                    i += 1;
                }
                assert(model.take(i as int) =~= model);
                JsonValue::Object(JsonMap { entries: out })
            },
        }
    }

    /// The `serde_json::Value` that holds this value.
    pub fn to_outside(&self) -> (v: serde_json::Value)
        ensures
            json_of(v) == self@,
        decreases self,
    {
        match self {
            JsonValue::Null => value_from_shape(Shape::Null),
            JsonValue::Bool(b) => value_from_shape(Shape::Bool(*b)),
            JsonValue::Number(n) => value_from_shape(Shape::Number(n.clone())),
            JsonValue::String(t) => value_from_shape(Shape::String(t.clone())),
            JsonValue::Array(items) => {
                let mut out: Vec<serde_json::Value> = Vec::new();
                let mut i: usize = 0;
                while i < items.len()
                    invariant
                        i <= items@.len(),
                        decreases_to!(*self => items@),
                        shape_items(out@) == items_view(items@).take(i as int),
                    decreases items@.len() - i,
                {
                    proof {
                        assert(decreases_to!(items@ => items@[i as int]));
                    }
                    let item = items[i].to_outside();
                    let ghost before = out@;
                    out.push(item);
                    assert(shape_items(out@) =~= shape_items(before).push(json_of(item)));
                    assert(items_view(items@).take(i + 1) =~= items_view(items@).take(
                        i as int,
                    ).push(items@[i as int]@));
                    i += 1;
                }
                assert(items_view(items@).take(i as int) =~= items_view(items@));
                value_from_shape(Shape::Array(out))
            },
            JsonValue::Object(m) => {
                proof {
                    use_type_invariant(m);
                }
                let mut out: Vec<(String, serde_json::Value)> = Vec::new();
                let mut i: usize = 0;
                while i < m.entries.len()
                    invariant
                        i <= m.entries@.len(),
                        decreases_to!(*self => m.entries@),
                        shape_entries(out@) == entries_view(m.entries@).take(i as int),
                    decreases m.entries@.len() - i,
                {
                    proof {
                        assert(decreases_to!(m.entries@ => m.entries@[i as int]));
                        assert(decreases_to!(m.entries@[i as int] => m.entries@[i as int].1));
                    }
                    let key = m.entries[i].0.clone();
                    let value = m.entries[i].1.to_outside();
                    let ghost before = out@;
                    out.push((key, value));
                    assert(shape_entries(out@) =~= shape_entries(before).push(
                        (key@, json_of(value)),
                    ));
                    assert(entries_view(m.entries@).take(i + 1) =~= entries_view(
                        m.entries@,
                    ).take(i as int).push((m.entries@[i as int].0@, m.entries@[i as int].1@)));
                    i += 1;
                }
                assert(entries_view(m.entries@).take(i as int) =~= entries_view(m.entries@));
                value_from_shape(Shape::Object(out))
            },
        }
    }

    /// Reads a JSON text.  Returns the value where the text is one JSON
    /// value, and `None` where it is not.
    pub fn parse(text: &str) -> (r: Option<JsonValue>)
        ensures
            match parsed_json(text@) {
                Some(j) => r is Some && r.unwrap()@ == j,
                None => r is None,
            },
    {
        match value_from_str(text) {
            Some(v) => Some(JsonValue::from_outside(&v)),
            None => None,
        }
    }

    /// The value as JSON text on one line.
    pub fn to_text(&self) -> (s: String)
        ensures
            s@ == compact_json(self@),
    {
        let v = self.to_outside();
        value_to_string(&v)
    }

    /// The value as indented JSON text.
    pub fn to_text_pretty(&self) -> (s: String)
        ensures
            s@ == pretty_json(self@),
    {
        let v = self.to_outside();
        value_to_string_pretty(&v)
    }
}

} // verus!
