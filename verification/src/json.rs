//! JSON values: an own tree type, read from and written to text through `serde_json`.

use vstd::prelude::*;

use crate::textmap::TextMap;
#[allow(unused_imports)]
use crate::floats::int_real;
#[allow(unused_imports)]
use crate::text::decimal;
#[allow(unused_imports)]
use crate::textmap::{
    ascending, entries_view, has_key, keys, lemma_map_view, lemma_mapped, lookup, mapped, put,
    without,
};

verus! {

// ---------------------------------------------------------------------------
// The model
// ---------------------------------------------------------------------------

/// What a JSON number is: a non-negative integer, a negative one, or a float given by its bits.
pub enum NumberView {
    PosInt(u64),
    NegInt(i64),
    Float(u64),
}

/// A JSON value; an object lists its entries in code point order of the keys.
pub enum JsonView {
    Null,
    Bool(bool),
    Number(NumberView),
    Str(Seq<char>),
    Array(Seq<JsonView>),
    Object(Seq<(Seq<char>, JsonView)>),
}

/// The entries of an object.
pub type Entries = Seq<(Seq<char>, JsonView)>;

pub open spec fn no_entries() -> Entries {
    Seq::empty()
}

impl JsonView {
    /// The value under a key; nothing where the value is no object or lacks the key.
    pub open spec fn get(self, key: Seq<char>) -> Option<JsonView> {
        match self {
            JsonView::Object(e) => lookup(e, key),
            _ => None,
        }
    }

    pub open spec fn as_str(self) -> Option<Seq<char>> {
        match self {
            JsonView::Str(s) => Some(s),
            _ => None,
        }
    }

    pub open spec fn as_bool(self) -> Option<bool> {
        match self {
            JsonView::Bool(b) => Some(b),
            _ => None,
        }
    }

    pub open spec fn as_u64(self) -> Option<u64> {
        match self {
            JsonView::Number(NumberView::PosInt(n)) => Some(n),
            _ => None,
        }
    }

    pub open spec fn as_i64(self) -> Option<i64> {
        match self {
            JsonView::Number(NumberView::PosInt(n)) => if n <= i64::MAX {
                Some(n as i64)
            } else {
                None
            },
            JsonView::Number(NumberView::NegInt(n)) => Some(n),
            _ => None,
        }
    }

    /// The bits of the number as a float.
    pub open spec fn as_real(self) -> Option<u64> {
        match self {
            JsonView::Number(n) => Some(real_of(n)),
            _ => None,
        }
    }

    pub open spec fn as_array(self) -> Option<Seq<JsonView>> {
        match self {
            JsonView::Array(a) => Some(a),
            _ => None,
        }
    }

    pub open spec fn as_object(self) -> Option<Entries> {
        match self {
            JsonView::Object(e) => Some(e),
            _ => None,
        }
    }

    /// The text under a key.
    pub open spec fn text_at(self, key: Seq<char>) -> Option<Seq<char>> {
        match self.get(key) {
            Some(v) => v.as_str(),
            None => None,
        }
    }
}

/// The bits of a number as a float; an integer goes to the float that it is cast to.
pub open spec fn real_of(n: NumberView) -> u64 {
    match n {
        NumberView::PosInt(u) => int_real(u as int),
        NumberView::NegInt(i) => int_real(i as int),
        NumberView::Float(bits) => bits,
    }
}

/// How a number is written.
pub open spec fn number_text(n: NumberView) -> Seq<char> {
    match n {
        NumberView::PosInt(u) => decimal(u as nat),
        NumberView::NegInt(i) => seq!['-'] + decimal((-i) as nat),
        NumberView::Float(bits) => float_text(bits),
    }
}

pub open spec fn int_number(n: int) -> NumberView {
    if n < 0 {
        NumberView::NegInt(n as i64)
    } else {
        NumberView::PosInt(n as u64)
    }
}

pub open spec fn str_json(s: Seq<char>) -> JsonView {
    JsonView::Str(s)
}

pub open spec fn int_json(n: int) -> JsonView {
    JsonView::Number(int_number(n))
}

pub open spec fn real_json(bits: u64) -> JsonView {
    JsonView::Number(NumberView::Float(bits))
}

pub open spec fn opt_str_json(s: Option<Seq<char>>) -> JsonView {
    match s {
        Some(t) => JsonView::Str(t),
        None => JsonView::Null,
    }
}

// ---------------------------------------------------------------------------
// serde_json
// ---------------------------------------------------------------------------

/// The number type of `serde_json`.
#[verifier::external_type_specification]
#[verifier::external_body]
pub struct ExNumber(serde_json::Number);

/// The value type of `serde_json`.
#[verifier::external_type_specification]
#[verifier::external_body]
pub struct ExValue(serde_json::Value);

/// What a `serde_json::Number` holds.
pub uninterp spec fn number_view(n: serde_json::Number) -> NumberView;

/// What a `serde_json::Value` holds.
pub uninterp spec fn value_view(v: serde_json::Value) -> JsonView;

/// How a float is written.
pub uninterp spec fn float_text(bits: u64) -> Seq<char>;

/// What `serde_json` reads from a text: a value, or the words of its complaint.
pub uninterp spec fn read_text(text: Seq<char>) -> Result<JsonView, Seq<char>>;

/// The compact text that `serde_json` writes for a value.
pub uninterp spec fn written(v: JsonView) -> Seq<char>;

/// Calls `serde_json::Number::clone`: the copy holds the same number.
#[verifier::external_body]
fn number_clone(n: &serde_json::Number) -> (r: serde_json::Number)
    ensures
        number_view(r) == number_view(*n),
{
    n.clone()
}

/// Calls `serde_json::Number::as_i64`, which gives the integers that an `i64` can hold.
#[verifier::external_body]
fn number_as_i64(n: &serde_json::Number) -> (r: Option<i64>)
    ensures
        r == JsonView::Number(number_view(*n)).as_i64(),
{
    n.as_i64()
}

/// Calls `serde_json::Number::as_u64`, which gives the non-negative integers.
#[verifier::external_body]
fn number_as_u64(n: &serde_json::Number) -> (r: Option<u64>)
    ensures
        r == JsonView::Number(number_view(*n)).as_u64(),
{
    n.as_u64()
}

/// Calls `serde_json::Number::as_f64` and takes the bits of the float. A number always has a
/// float: an integer is cast, which rounds to the nearest float and from halfway to the even one;
/// a float is handed out as it is.
#[verifier::external_body]
fn number_bits(n: &serde_json::Number) -> (r: Option<u64>)
    ensures
        r == Some(
            match number_view(*n) {
                NumberView::PosInt(u) => int_real(u as int),
                NumberView::NegInt(i) => int_real(i as int),
                NumberView::Float(bits) => bits,
            },
        ),
{
    n.as_f64().map(|x| x.to_bits())
}

/// Calls `serde_json::Number::from_f64` on the float of a number, which is always finite: the
/// result is that float as a number.
#[verifier::external_body]
fn number_as_float(n: &serde_json::Number) -> (r: Option<serde_json::Number>)
    ensures
        r is Some,
        number_view(r->0) == NumberView::Float(real_of(number_view(*n))),
{
    n.as_f64().and_then(serde_json::Number::from_f64)
}

/// Calls `serde_json::Number::to_string`: integers are written in decimal, a float as
/// `serde_json` writes it.
#[verifier::external_body]
fn number_to_string(n: &serde_json::Number) -> (r: String)
    ensures
        r@ == match number_view(*n) {
            NumberView::PosInt(u) => decimal(u as nat),
            NumberView::NegInt(i) => seq!['-'] + decimal((-i) as nat),
            NumberView::Float(bits) => float_text(bits),
        },
{
    n.to_string()
}

/// Calls `serde_json::Number::from` on a `u64`.
#[verifier::external_body]
fn number_of_u64(n: u64) -> (r: serde_json::Number)
    ensures
        number_view(r) == NumberView::PosInt(n),
{
    serde_json::Number::from(n)
}

/// Calls `serde_json::Number::from` on an `i64`: a negative one stays so, another becomes a
/// non-negative integer.
#[verifier::external_body]
fn number_of_i64(n: i64) -> (r: serde_json::Number)
    ensures
        number_view(r) == int_number(n as int),
{
    serde_json::Number::from(n)
}

/// Calls `serde_json::from_str` for a `serde_json::Value`: the value, or the words of the error.
#[verifier::external_body]
fn value_from_str(text: &str) -> (r: Result<serde_json::Value, String>)
    ensures
        match r {
            Ok(v) => read_text(text@) == Ok::<JsonView, Seq<char>>(value_view(v)),
            Err(e) => read_text(text@) == Err::<JsonView, Seq<char>>(e@),
        },
{
    serde_json::from_str::<serde_json::Value>(text).map_err(|e| e.to_string())
}

/// Calls `serde_json::Value::to_string`, which writes the value as compact JSON.
#[verifier::external_body]
fn value_to_string(v: &serde_json::Value) -> (r: String)
    ensures
        r@ == written(value_view(*v)),
{
    v.to_string()
}

/// One level of a `serde_json::Value`.
enum Node {
    Null,
    Bool(bool),
    Number(serde_json::Number),
    Str(String),
    Array(Vec<serde_json::Value>),
    Object(Vec<(String, serde_json::Value)>),
}

spec fn values_view(a: Seq<serde_json::Value>) -> Seq<JsonView> {
    a.map_values(|v: serde_json::Value| value_view(v))
}

spec fn fields_view(e: Seq<(String, serde_json::Value)>) -> Entries {
    e.map_values(|p: (String, serde_json::Value)| (p.0@, value_view(p.1)))
}

spec fn node_view(n: Node) -> JsonView {
    match n {
        Node::Null => JsonView::Null,
        Node::Bool(b) => JsonView::Bool(b),
        Node::Number(m) => JsonView::Number(number_view(m)),
        Node::Str(s) => JsonView::Str(s@),
        Node::Array(a) => JsonView::Array(values_view(a@)),
        Node::Object(e) => JsonView::Object(fields_view(e@)),
    }
}

/// Takes the variants of `serde_json::Value` apart. The map of an object hands its entries out
/// in the order of their keys, each key once.
#[verifier::external_body]
fn open_value(v: serde_json::Value) -> (r: Node)
    ensures
        node_view(r) == value_view(v),
        r matches Node::Object(e) ==> ascending(keys(fields_view(e@))),
{
    match v {
        serde_json::Value::Null => Node::Null,
        serde_json::Value::Bool(b) => Node::Bool(b),
        serde_json::Value::Number(n) => Node::Number(n),
        serde_json::Value::String(s) => Node::Str(s),
        serde_json::Value::Array(a) => Node::Array(a),
        serde_json::Value::Object(m) => Node::Object(m.into_iter().collect()),
    }
}

/// Builds the variants of `serde_json::Value`. Entries that stand in the order of their keys
/// are the entries of the map that is collected from them.
#[verifier::external_body]
fn close_value(n: Node) -> (r: serde_json::Value)
    requires
        n matches Node::Object(e) ==> ascending(keys(fields_view(e@))),
    ensures
        value_view(r) == node_view(n),
{
    match n {
        Node::Null => serde_json::Value::Null,
        Node::Bool(b) => serde_json::Value::Bool(b),
        Node::Number(n) => serde_json::Value::Number(n),
        Node::Str(s) => serde_json::Value::String(s),
        Node::Array(a) => serde_json::Value::Array(a),
        Node::Object(e) => serde_json::Value::Object(e.into_iter().collect()),
    }
}

// ---------------------------------------------------------------------------
// The value type
// ---------------------------------------------------------------------------

/// A JSON value.
#[derive(Debug, PartialEq)]
pub enum Json {
    Null,
    Bool(bool),
    Number(serde_json::Number),
    Str(String),
    Array(Vec<Json>),
    Object(JsonObject),
}

/// A JSON object.
#[derive(Debug, PartialEq)]
pub struct JsonObject {
    map: TextMap<Json>,
}

pub closed spec fn json_view(j: Json) -> JsonView
    decreases j,
{
    match j {
        Json::Null => JsonView::Null,
        Json::Bool(b) => JsonView::Bool(b),
        Json::Number(n) => JsonView::Number(number_view(n)),
        Json::Str(s) => JsonView::Str(s@),
        Json::Array(a) => JsonView::Array(
            Seq::new(
                a@.len(),
                |i: int|
                    if 0 <= i < a@.len() {
                        json_view(a@[i])
                    } else {
                        JsonView::Null
                    },
            ),
        ),
        Json::Object(o) => JsonView::Object(
            Seq::new(
                o.map.entries@.len(),
                |i: int|
                    if 0 <= i < o.map.entries@.len() {
                        (o.map.entries@[i].0@, json_view(o.map.entries@[i].1))
                    } else {
                        (Seq::empty(), JsonView::Null)
                    },
            ),
        ),
    }
}

impl View for Json {
    type V = JsonView;

    closed spec fn view(&self) -> JsonView {
        json_view(*self)
    }
}

impl View for JsonObject {
    type V = Entries;

    closed spec fn view(&self) -> Entries {
        json_view(Json::Object(*self))->Object_0
    }
}

/// What the values of an array are.
pub open spec fn array_view(a: Seq<Json>) -> Seq<JsonView> {
    a.map_values(|j: Json| j@)
}

/// The view of a value, one level down.
pub broadcast proof fn lemma_json_view(j: Json)
    ensures
        #[trigger] j@ == match j {
            Json::Null => JsonView::Null,
            Json::Bool(b) => JsonView::Bool(b),
            Json::Number(n) => JsonView::Number(number_view(n)),
            Json::Str(s) => JsonView::Str(s@),
            Json::Array(a) => JsonView::Array(array_view(a@)),
            Json::Object(o) => JsonView::Object(o@),
        },
{
    if let Json::Array(a) = j {
        assert(j@->Array_0 =~= array_view(a@));
    }
}

spec fn deep(e: Seq<(Seq<char>, Json)>) -> Entries {
    mapped(e, |v: Json| v@)
}

proof fn lemma_object_view(o: JsonObject)
    ensures
        o@ == deep(o.map@),
        keys(o@) == keys(o.map@),
        o@.len() == o.map@.len(),
{
    lemma_map_view(o.map);
    assert(o@ =~= deep(o.map@));
    assert(keys(o@) =~= keys(o.map@));
}

/// Looking up, setting and removing go through the deep view.
proof fn lemma_deep(e: Seq<(Seq<char>, Json)>, key: Seq<char>, value: Json)
    ensures
        keys(deep(e)) == keys(e),
        has_key(deep(e), key) == has_key(e, key),
        lookup(deep(e), key) == match lookup(e, key) {
            Some(v) => Some(v@),
            None => None,
        },
        deep(put(e, key, value)) == put(deep(e), key, value@),
        deep(without(e, key)) == without(deep(e), key),
{
    lemma_mapped(e, |v: Json| v@, key, value);
}

impl JsonObject {
    /// The keys of an object stand in order, and none of them twice.
    #[verifier::type_invariant]
    pub open spec fn wf(self) -> bool {
        ascending(keys(self@))
    }

    fn of_map(map: TextMap<Json>) -> (r: JsonObject)
        ensures
            r.map == map,
            r@ == deep(map@),
    {
        proof {
            use_type_invariant(&map);
            lemma_object_view(JsonObject { map });
        }
        JsonObject { map }
    }

    fn take_map(&mut self) -> (r: TextMap<Json>)
        ensures
            r == old(self).map,
            final(self)@ == no_entries(),
    {
        let mut map: TextMap<Json> = TextMap::new();
        proof {
            lemma_object_view(JsonObject { map });
            assert(deep(map@) =~= no_entries());
            lemma_object_view(*self);
        }
        std::mem::swap(&mut map, &mut self.map);
        map
    }

    pub fn new() -> (r: JsonObject)
        ensures
            r@ == no_entries(),
    {
        let r = JsonObject::of_map(TextMap::new());
        proof {
            assert(r@ =~= no_entries());
        }
        r
    }

    pub fn len(&self) -> (r: usize)
        ensures
            r == self@.len(),
    {
        proof {
            lemma_object_view(*self);
        }
        self.map.len()
    }

    pub fn is_empty(&self) -> (r: bool)
        ensures
            r == (self@.len() == 0),
    {
        proof {
            lemma_object_view(*self);
        }
        self.map.is_empty()
    }

    pub fn key_at(&self, i: usize) -> (r: &String)
        requires
            i < self@.len(),
        ensures
            r@ == self@[i as int].0,
    {
        proof {
            lemma_object_view(*self);
        }
        self.map.key_at(i)
    }

    pub fn value_at(&self, i: usize) -> (r: &Json)
        requires
            i < self@.len(),
        ensures
            r@ == self@[i as int].1,
            decreases_to!(*self => *r),
    {
        proof {
            lemma_object_view(*self);
            lemma_map_view(self.map);
            assert(decreases_to!(*self => self.map));
            assert(decreases_to!(self.map => self.map.entries));
            assert(decreases_to!(self.map.entries => self.map.entries@));
            assert(decreases_to!(self.map.entries@ => self.map.entries@[i as int]));
            assert(decreases_to!(self.map.entries@[i as int] => self.map.entries@[i as int].1));
        }
        self.map.value_at(i)
    }

    pub fn get(&self, key: &str) -> (r: Option<&Json>)
        ensures
            match r {
                Some(v) => lookup(self@, key@) == Some(v@),
                None => lookup(self@, key@) is None,
            },
    {
        proof {
            lemma_object_view(*self);
            lemma_deep(self.map@, key@, Json::Null);
        }
        self.map.get(key)
    }

    pub fn contains_key(&self, key: &str) -> (r: bool)
        ensures
            r == has_key(self@, key@),
    {
        proof {
            lemma_object_view(*self);
            lemma_deep(self.map@, key@, Json::Null);
        }
        self.map.contains_key(key)
    }

    /// Sets or replaces the value under a key.
    pub fn insert(&mut self, key: String, value: Json)
        ensures
            final(self)@ == put(old(self)@, key@, value@),
    {
        proof {
            lemma_object_view(*self);
            lemma_deep(self.map@, key@, value);
        }
        let mut map = self.take_map();
        map.insert(key, value);
        *self = JsonObject::of_map(map);
    }

    /// Sets or replaces the value under a key.
    pub fn set(&mut self, key: &str, value: Json)
        ensures
            final(self)@ == put(old(self)@, key@, value@),
    {
        self.insert(key.to_owned(), value);
    }

    /// Takes a key and its value out.
    pub fn remove(&mut self, key: &str) -> (r: Option<Json>)
        ensures
            final(self)@ == without(old(self)@, key@),
            match r {
                Some(v) => lookup(old(self)@, key@) == Some(v@),
                None => lookup(old(self)@, key@) is None,
            },
    {
        proof {
            lemma_object_view(*self);
            lemma_deep(self.map@, key@, Json::Null);
        }
        let mut map = self.take_map();
        let r = map.remove(key);
        *self = JsonObject::of_map(map);
        r
    }

    /// An object with the same entries.
    pub fn copy(&self) -> (r: JsonObject)
        ensures
            r@ == self@,
        decreases self,
    {
        let n = self.len();
        let mut entries: Vec<(String, Json)> = Vec::new();
        let mut i: usize = 0;
        proof {
            lemma_object_view(*self);
            use_type_invariant(self);
        }
        while i < n
            invariant
                i <= n,
                n == self@.len(),
                entries@.len() == i,
                forall|k: int|
                    0 <= k < i ==> (#[trigger] entries@[k]).0@ == self@[k].0 && entries@[k].1@
                        == self@[k].1,
            decreases n - i,
        {
            let key = self.key_at(i).clone();
            let value = self.value_at(i);
            entries.push((key, value.copy()));
            i += 1;
        }
        proof {
            assert(keys(entries_view(entries@)) =~= keys(self@));
            assert(deep(entries_view(entries@)) =~= self@);
        }
        JsonObject::of_map(TextMap::from_entries(entries))
    }
}

impl Json {
    /// A value that holds the same.
    pub fn copy(&self) -> (r: Json)
        ensures
            r@ == self@,
        decreases self,
    {
        broadcast use lemma_json_view;

        match self {
            Json::Null => Json::Null,
            Json::Bool(b) => Json::Bool(*b),
            Json::Number(n) => Json::Number(number_clone(n)),
            Json::Str(s) => Json::Str(s.clone()),
            Json::Array(a) => {
                let n = a.len();
                let mut out: Vec<Json> = Vec::new();
                let mut i: usize = 0;
                while i < n
                    invariant
                        i <= n,
                        n == a@.len(),
                        out@.len() == i,
                        decreases_to!(self => a@),
                        forall|k: int| 0 <= k < i ==> (#[trigger] out@[k])@ == a@[k]@,
                    decreases n - i,
                {
                    assert(decreases_to!(a@ => a@[i as int]));
                    out.push(a[i].copy());
                    i += 1;
                }
                proof {
                    assert(array_view(out@) =~= array_view(a@));
                }
                Json::Array(out)
            },
            Json::Object(o) => Json::Object(o.copy()),
        }
    }
}

impl Json {
    pub fn text(s: &str) -> (r: Json)
        ensures
            r@ == str_json(s@),
    {
        broadcast use lemma_json_view;

        Json::Str(s.to_owned())
    }

    pub fn from_u64(n: u64) -> (r: Json)
        ensures
            r@ == int_json(n as int),
    {
        broadcast use lemma_json_view;

        Json::Number(number_of_u64(n))
    }

    pub fn from_i64(n: i64) -> (r: Json)
        ensures
            r@ == int_json(n as int),
    {
        broadcast use lemma_json_view;

        Json::Number(number_of_i64(n))
    }

    pub fn from_bool(b: bool) -> (r: Json)
        ensures
            r@ == JsonView::Bool(b),
    {
        broadcast use lemma_json_view;

        Json::Bool(b)
    }

    pub fn null() -> (r: Json)
        ensures
            r@ == JsonView::Null,
    {
        broadcast use lemma_json_view;

        Json::Null
    }

    pub fn array(a: Vec<Json>) -> (r: Json)
        ensures
            r@ == JsonView::Array(array_view(a@)),
    {
        broadcast use lemma_json_view;

        Json::Array(a)
    }

    pub fn object(o: JsonObject) -> (r: Json)
        ensures
            r@ == JsonView::Object(o@),
    {
        broadcast use lemma_json_view;

        Json::Object(o)
    }

    /// A text, or null where there is none.
    pub fn opt_text(s: &Option<String>) -> (r: Json)
        ensures
            r@ == opt_str_json(opt_view(*s)),
    {
        match s {
            Some(t) => Json::text(t.as_str()),
            None => Json::null(),
        }
    }

    /// The value under a key of an object.
    pub fn get(&self, key: &str) -> (r: Option<&Json>)
        ensures
            match r {
                Some(v) => self@.get(key@) == Some(v@),
                None => self@.get(key@) is None,
            },
    {
        broadcast use lemma_json_view;

        match self {
            Json::Object(o) => o.get(key),
            _ => None,
        }
    }

    pub fn as_str(&self) -> (r: Option<&String>)
        ensures
            match r {
                Some(s) => self@.as_str() == Some(s@),
                None => self@.as_str() is None,
            },
    {
        broadcast use lemma_json_view;

        match self {
            Json::Str(s) => Some(s),
            _ => None,
        }
    }

    /// The text under a key of an object.
    pub fn text_at(&self, key: &str) -> (r: Option<&String>)
        ensures
            match r {
                Some(s) => self@.text_at(key@) == Some(s@),
                None => self@.text_at(key@) is None,
            },
    {
        match self.get(key) {
            Some(v) => v.as_str(),
            None => None,
        }
    }

    pub fn as_bool(&self) -> (r: Option<bool>)
        ensures
            r == self@.as_bool(),
    {
        broadcast use lemma_json_view;

        match self {
            Json::Bool(b) => Some(*b),
            _ => None,
        }
    }

    pub fn as_u64(&self) -> (r: Option<u64>)
        ensures
            r == self@.as_u64(),
    {
        broadcast use lemma_json_view;

        match self {
            Json::Number(n) => number_as_u64(n),
            _ => None,
        }
    }

    pub fn as_i64(&self) -> (r: Option<i64>)
        ensures
            r == self@.as_i64(),
    {
        broadcast use lemma_json_view;

        match self {
            Json::Number(n) => number_as_i64(n),
            _ => None,
        }
    }

    pub fn as_real(&self) -> (r: Option<Real>)
        ensures
            match r {
                Some(x) => self@.as_real() == Some(x@),
                None => self@.as_real() is None,
            },
    {
        broadcast use lemma_json_view;

        match self {
            Json::Number(n) => Some(Real { number: number_clone(n) }),
            _ => None,
        }
    }

    pub fn as_array(&self) -> (r: Option<&Vec<Json>>)
        ensures
            match r {
                Some(a) => self@.as_array() == Some(array_view(a@)),
                None => self@.as_array() is None,
            },
    {
        broadcast use lemma_json_view;

        match self {
            Json::Array(a) => Some(a),
            _ => None,
        }
    }

    pub fn as_object(&self) -> (r: Option<&JsonObject>)
        ensures
            match r {
                Some(o) => self@.as_object() == Some(o@),
                None => self@.as_object() is None,
            },
    {
        broadcast use lemma_json_view;

        match self {
            Json::Object(o) => Some(o),
            _ => None,
        }
    }

    /// Takes a value over from `serde_json`.
    pub fn from_value(v: serde_json::Value) -> (r: Json)
        ensures
            r@ == value_view(v),
        decreases value_view(v),
    {
        broadcast use lemma_json_view;

        let ghost whole = value_view(v);
        match open_value(v) {
            Node::Null => Json::Null,
            Node::Bool(b) => Json::Bool(b),
            Node::Number(n) => Json::Number(n),
            Node::Str(s) => Json::Str(s),
            Node::Array(a) => {
                let mut out: Vec<Json> = Vec::new();
                for x in it: a
                    invariant
                        whole == JsonView::Array(values_view(a@)),
                        whole == value_view(v),
                        it.seq() == a@,
                        out@.len() == it.index(),
                        forall|k: int|
                            0 <= k < it.index() ==> (#[trigger] out@[k])@ == value_view(a@[k]),
                {
                    proof {
                        let i = it.index();
                        let s = whole->Array_0;
                        assert(s[i] == value_view(x));
                        assert(decreases_to!(whole => whole->Array_0));
                        assert(decreases_to!(s => s[i]));
                    }
                    out.push(Json::from_value(x));
                }
                proof {
                    assert(array_view(out@) =~= values_view(a@));
                }
                Json::Array(out)
            },
            Node::Object(e) => {
                let mut out: Vec<(String, Json)> = Vec::new();
                for x in it: e
                    invariant
                        whole == JsonView::Object(fields_view(e@)),
                        whole == value_view(v),
                        it.seq() == e@,
                        out@.len() == it.index(),
                        forall|k: int|
                            0 <= k < it.index() ==> (#[trigger] out@[k]).0@ == e@[k].0@
                                && out@[k].1@ == value_view(e@[k].1),
                {
                    proof {
                        let i = it.index();
                        let s = whole->Object_0;
                        assert(s[i] == (x.0@, value_view(x.1)));
                        assert(decreases_to!(whole => whole->Object_0));
                        assert(decreases_to!(s => s[i]));
                        assert(decreases_to!(s[i] => s[i].1));
                    }
                    let (key, value) = x;
                    out.push((key, Json::from_value(value)));
                }
                proof {
                    assert(deep(entries_view(out@)) =~= fields_view(e@));
                    assert(keys(entries_view(out@)) =~= keys(fields_view(e@)));
                }
                Json::Object(JsonObject::of_map(TextMap::from_entries(out)))
            },
        }
    }

    /// Hands a value over to `serde_json`.
    pub fn to_value(&self) -> (r: serde_json::Value)
        ensures
            value_view(r) == self@,
        decreases self,
    {
        broadcast use lemma_json_view;

        match self {
            Json::Null => close_value(Node::Null),
            Json::Bool(b) => close_value(Node::Bool(*b)),
            Json::Number(n) => close_value(Node::Number(number_clone(n))),
            Json::Str(s) => close_value(Node::Str(s.clone())),
            Json::Array(a) => {
                let n = a.len();
                let mut out: Vec<serde_json::Value> = Vec::new();
                let mut i: usize = 0;
                while i < n
                    invariant
                        i <= n,
                        n == a@.len(),
                        out@.len() == i,
                        decreases_to!(self => a@),
                        forall|k: int| 0 <= k < i ==> value_view(#[trigger] out@[k]) == a@[k]@,
                    decreases n - i,
                {
                    assert(decreases_to!(a@ => a@[i as int]));
                    out.push(a[i].to_value());
                    i += 1;
                }
                proof {
                    assert(values_view(out@) =~= array_view(a@));
                }
                close_value(Node::Array(out))
            },
            Json::Object(o) => {
                let n = o.len();
                let mut out: Vec<(String, serde_json::Value)> = Vec::new();
                let mut i: usize = 0;
                while i < n
                    invariant
                        i <= n,
                        n == o@.len(),
                        out@.len() == i,
                        decreases_to!(self => o),
                        forall|k: int|
                            0 <= k < i ==> (#[trigger] out@[k]).0@ == o@[k].0 && value_view(
                                out@[k].1,
                            ) == o@[k].1,
                    decreases n - i,
                {
                    let key = o.key_at(i).clone();
                    let value = o.value_at(i);
                    out.push((key, value.to_value()));
                    i += 1;
                }
                proof {
                    use_type_invariant(o);
                    assert(fields_view(out@) =~= o@);
                }
                close_value(Node::Object(out))
            },
        }
    }

    /// Reads a JSON text.
    pub fn parse(text: &str) -> (r: Result<Json, String>)
        ensures
            match r {
                Ok(j) => read_text(text@) == Ok::<JsonView, Seq<char>>(j@),
                Err(e) => read_text(text@) == Err::<JsonView, Seq<char>>(e@),
            },
    {
        match value_from_str(text) {
            Ok(v) => Ok(Json::from_value(v)),
            Err(e) => Err(e),
        }
    }

    /// Writes the value as compact JSON.
    pub fn to_text(&self) -> (r: String)
        ensures
            r@ == written(self@),
    {
        let v = self.to_value();
        value_to_string(&v)
    }

    /// How a number is written; nothing for another value.
    pub fn number_to_text(&self) -> (r: Option<String>)
        ensures
            match r {
                Some(s) => self@ matches JsonView::Number(n) && s@ == number_text(n),
                None => !(self@ is Number),
            },
    {
        broadcast use lemma_json_view;

        match self {
            Json::Number(n) => Some(number_to_string(n)),
            _ => None,
        }
    }
}

pub open spec fn opt_view(s: Option<String>) -> Option<Seq<char>> {
    match s {
        Some(t) => Some(t@),
        None => None,
    }
}

// ---------------------------------------------------------------------------
// Finite floats
// ---------------------------------------------------------------------------

/// A finite float, known by its bits.
#[derive(Debug, PartialEq)]
pub struct Real {
    number: serde_json::Number,
}

impl View for Real {
    type V = u64;

    closed spec fn view(&self) -> u64 {
        real_of(number_view(self.number))
    }
}

/// The place of a finite float among all of them; both zeros stand at the same place.
pub open spec fn rank(bits: u64) -> int {
    if bits < 0x8000_0000_0000_0000 {
        bits as int
    } else {
        0x8000_0000_0000_0000 - bits
    }
}

impl Real {
    /// The number as a float.
    pub fn from_number(number: serde_json::Number) -> (r: Real)
        ensures
            r@ == real_of(number_view(number)),
    {
        Real { number }
    }

    /// The float that an integer is cast to.
    pub fn from_u64(n: u64) -> (r: Real)
        ensures
            r@ == int_real(n as int),
    {
        Real { number: number_of_u64(n) }
    }

    /// The float as a number.
    pub fn to_number(&self) -> (r: serde_json::Number)
        ensures
            number_view(r) == NumberView::Float(self@),
    {
        match number_as_float(&self.number) {
            Some(n) => n,
            None => number_clone(&self.number),
        }
    }

    pub fn to_json(&self) -> (r: Json)
        ensures
            r@ == real_json(self@),
    {
        broadcast use lemma_json_view;

        Json::Number(self.to_number())
    }

    pub fn bits(&self) -> (r: u64)
        ensures
            r == self@,
    {
        match number_bits(&self.number) {
            Some(b) => b,
            None => 0,
        }
    }

    pub fn copy(&self) -> (r: Real)
        ensures
            r@ == self@,
    {
        Real { number: number_clone(&self.number) }
    }

    /// The place of the float among all of them.
    pub fn place(&self) -> (r: i128)
        ensures
            r == rank(self@),
    {
        let b = self.bits();
        if b < 0x8000_0000_0000_0000 {
            b as i128
        } else {
            0x8000_0000_0000_0000i128 - (b as i128)
        }
    }
}

} // verus!
