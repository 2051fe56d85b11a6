//! Layer and feature nodes, the attributes that they keep, and the text by which they are found.

pub mod geojson;

use vstd::prelude::*;

use crate::geometry::{Coord, Geometry};
use crate::json::{Json, JsonObject};
use crate::stamp::{fresh_id, now};
use crate::text::{
    chars_of, has_prefix, is_ascii_alphanumeric, is_ascii_digit, is_control, joined, same_text,
    string_of_range,
};
#[allow(unused_imports)]
use crate::geometry::{CoordView, GeometryView};
#[allow(unused_imports)]
use crate::json::{
    int_json, lemma_json_view, no_entries, number_text, opt_view, read_text, str_json, Entries,
    JsonView,
};
#[allow(unused_imports)]
use crate::models::geojson::opt_geometry_view;
#[allow(unused_imports)]
use crate::stamp::{is_stamp, uuid_shape};
#[allow(unused_imports)]
use crate::text::{
    ascii_alphanumeric, ascii_digit, ascii_letter, control, first_chars, join, starts_with, text_lt,
    texts,
};
#[allow(unused_imports)]
use crate::textmap::{
    ascending, has_key, keys, lemma_lookup, lemma_put, lemma_same_lookup, lemma_put_last, lemma_slot, lookup, put,
};

verus! {

/// `node_type` of layer records.
pub const NODE_LAYER: &'static str = "Layer";

/// `node_type` of feature records.
pub const NODE_FEATURE: &'static str = "Feature";

/// Edge label from a layer to a feature.
pub const EDGE_CONTAINS: &'static str = "CONTAINS";

/// Property keys kept out of the attributes: they stand for node fields or wire ids.
pub const RESERVED_PROPS: [&'static str; 4] = ["id", "name", "source_id", "layer_id"];

/// The longest text value that an attribute keeps, in characters.
pub const MAX_ATTR_STRING_LEN: usize = 4096;

/// How many characters of an attribute stand in the search text of a node.
pub const MAX_VALUE: usize = 200;

// ---------------------------------------------------------------------------
// Attribute keys
// ---------------------------------------------------------------------------

/// Property keys that stand for node fields or wire ids, not for attributes.
pub open spec fn reserved_prop(k: Seq<char>) -> bool {
    k == "id"@ || k == "name"@ || k == "source_id"@ || k == "layer_id"@
}

/// Keys that the graph store uses for its own node fields.
pub open spec fn store_base_key(k: Seq<char>) -> bool {
    k == "uuid"@ || k == "node_type"@ || k == "subtype"@ || k == "description"@ || k
        == "embedding_id"@ || k == "created_at"@ || k == "updated_at"@ || k == "version"@
}

/// Every character that is no ASCII letter or digit becomes an underscore.
pub open spec fn underscored(s: Seq<char>) -> Seq<char> {
    s.map_values(
        |c: char|
            if ascii_alphanumeric(c) {
                c
            } else {
                '_'
            },
    )
}

pub open spec fn strip_front(s: Seq<char>) -> Seq<char>
    decreases s.len(),
{
    if s.len() > 0 && s[0] == '_' {
        strip_front(s.drop_first())
    } else {
        s
    }
}

pub open spec fn strip_back(s: Seq<char>) -> Seq<char>
    decreases s.len(),
{
    if s.len() > 0 && s.last() == '_' {
        strip_back(s.drop_last())
    } else {
        s
    }
}

/// The identifier that an attribute key is rewritten to, if anything usable remains.
pub open spec fn safe_key(key: Seq<char>) -> Option<Seq<char>> {
    let s = strip_back(strip_front(underscored(key)));
    if s.len() == 0 || ascii_digit(s[0]) {
        None
    } else {
        Some(s)
    }
}

/// Rewrites an attribute key into a safe property identifier (`"SHAPE.LEN"` becomes
/// `"SHAPE_LEN"`); nothing where no usable text remains.
pub fn sanitize_key(key: &str) -> (r: Option<String>)
    ensures
        opt_view(r) == safe_key(key@),
{
    let chars = chars_of(key);
    let n = chars.len();
    let mut out: Vec<char> = Vec::new();
    let mut i: usize = 0;
    while i < n
        invariant
            i <= n,
            n == chars@.len(),
            out@.len() == i,
            forall|k: int| 0 <= k < i ==> #[trigger] out@[k] == underscored(chars@)[k],
        decreases n - i,
    {
        if is_ascii_alphanumeric(chars[i]) {
            out.push(chars[i]);
        } else {
            out.push('_');
        }
        i += 1;
    }
    let ghost whole = underscored(key@);
    proof {
        assert(out@ =~= whole);
        assert(whole.skip(0) =~= whole);
    }
    let mut lo: usize = 0;
    while lo < n && out[lo] == '_'
        invariant
            lo <= n,
            n == out@.len(),
            out@ == whole,
            strip_front(whole) == strip_front(whole.skip(lo as int)),
        decreases n - lo,
    {
        proof {
            assert(whole.skip(lo as int)[0] == whole[lo as int]);
            assert(whole.skip(lo as int).drop_first() =~= whole.skip(lo + 1));
        }
        lo += 1;
    }
    let ghost front = strip_front(whole);
    proof {
        if lo < n {
            assert(whole.skip(lo as int)[0] == whole[lo as int]);
        }
        assert(front == whole.skip(lo as int));
        assert(front.take(n - lo) =~= front);
    }
    let mut hi: usize = n;
    while lo < hi && out[hi - 1] == '_'
        invariant
            lo <= hi <= n,
            n == out@.len(),
            out@ == whole,
            front == whole.skip(lo as int),
            strip_back(front) == strip_back(front.take(hi - lo)),
        decreases hi - lo,
    {
        proof {
            assert(front.take(hi - lo).last() == whole[hi - 1]);
            assert(front.take(hi - lo).drop_last() =~= front.take(hi - lo - 1));
        }
        hi -= 1;
    }
    proof {
        let t = front.take(hi - lo);
        if lo < hi {
            assert(t.last() == whole[hi - 1]);
            assert(t[0] == whole[lo as int]);
        }
        assert(strip_back(t) == t);
        assert(t =~= whole.subrange(lo as int, hi as int));
    }
    if lo == hi || is_ascii_digit(out[lo]) {
        None
    } else {
        Some(string_of_range(&out, lo, hi))
    }
}

/// A safe identifier: an ASCII letter, then ASCII letters, digits and underscores.
pub open spec fn identifier(s: Seq<char>) -> bool {
    &&& s.len() > 0
    &&& ascii_letter(s[0])
    &&& forall|i: int| 0 <= i < s.len() ==> ascii_alphanumeric(#[trigger] s[i]) || s[i] == '_'
}

proof fn lemma_strip_front(s: Seq<char>)
    ensures
        strip_front(s).len() <= s.len(),
        strip_front(s) == s.skip(s.len() - strip_front(s).len()),
        strip_front(s).len() > 0 ==> strip_front(s)[0] != '_',
    decreases s.len(),
{
    if s.len() > 0 && s[0] == '_' {
        lemma_strip_front(s.drop_first());
        let t = strip_front(s);
        assert(s.drop_first().skip(s.len() - 1 - t.len()) =~= s.skip(s.len() - t.len()));
    } else {
        assert(s.skip(0) =~= s);
    }
}

proof fn lemma_strip_back(s: Seq<char>)
    ensures
        strip_back(s).len() <= s.len(),
        strip_back(s) == s.take(strip_back(s).len() as int),
        strip_back(s).len() > 0 ==> strip_back(s).last() != '_',
    decreases s.len(),
{
    if s.len() > 0 && s.last() == '_' {
        lemma_strip_back(s.drop_last());
        let t = strip_back(s);
        assert(s.drop_last().take(t.len() as int) =~= s.take(t.len() as int));
    } else {
        assert(s.take(s.len() as int) =~= s);
    }
}

/// A rewritten key is a safe identifier, and rewriting it again changes nothing.
pub proof fn sanitized_key_is_safe(key: Seq<char>)
    ensures
        safe_key(key) matches Some(s) ==> identifier(s) && safe_key(s) == Some(s),
{
    let u = underscored(key);
    let f = strip_front(u);
    let s = strip_back(f);
    lemma_strip_front(u);
    lemma_strip_back(f);
    if safe_key(key) is Some {
        assert forall|i: int| 0 <= i < s.len() implies ascii_alphanumeric(#[trigger] s[i]) || s[i]
            == '_' by {
            assert(s[i] == f[i]);
            assert(f[i] == u[i + u.len() - f.len()]);
        }
        assert(s[0] == f[0]);
        assert(underscored(s) =~= s);
        assert(strip_front(s) == s);
        assert(strip_back(s) == s);
    }
}

// ---------------------------------------------------------------------------
// Attribute values
// ---------------------------------------------------------------------------

/// The text without its control characters.
pub open spec fn printable(s: Seq<char>) -> Seq<char>
    decreases s.len(),
{
    if s.len() == 0 {
        Seq::empty()
    } else if control(s.last()) {
        printable(s.drop_last())
    } else {
        printable(s.drop_last()).push(s.last())
    }
}

/// The text value that an attribute keeps.
pub open spec fn safe_text(s: Seq<char>) -> Seq<char> {
    first_chars(printable(s), MAX_ATTR_STRING_LEN as nat)
}

/// Drops control characters and caps the length.
pub fn sanitize_string_value(s: &str) -> (r: String)
    ensures
        r@ == safe_text(s@),
{
    let chars = chars_of(s);
    let n = chars.len();
    let mut clean: Vec<char> = Vec::new();
    let mut i: usize = 0;
    while i < n
        invariant
            i <= n,
            n == chars@.len(),
            clean@.len() <= i,
            clean@ == printable(chars@.take(i as int)),
        decreases n - i,
    {
        proof {
            assert(chars@.take(i + 1).drop_last() =~= chars@.take(i as int));
        }
        if !is_control(chars[i]) {
            clean.push(chars[i]);
        }
        i += 1;
    }
    proof {
        assert(chars@.take(n as int) =~= chars@);
    }
    let m = if clean.len() < MAX_ATTR_STRING_LEN {
        clean.len()
    } else {
        MAX_ATTR_STRING_LEN
    };
    string_of_range(&clean, 0, m)
}

proof fn lemma_printable(s: Seq<char>)
    ensures
        forall|i: int| 0 <= i < printable(s).len() ==> !control(#[trigger] printable(s)[i]),
    decreases s.len(),
{
    if s.len() > 0 {
        lemma_printable(s.drop_last());
        let before = printable(s.drop_last());
        assert forall|i: int| 0 <= i < printable(s).len() implies !control(
            #[trigger] printable(s)[i],
        ) by {
            if i < before.len() {
                assert(printable(s)[i] == before[i]);
            }
        }
    }
}

proof fn lemma_printable_same(s: Seq<char>)
    requires
        forall|i: int| 0 <= i < s.len() ==> !control(#[trigger] s[i]),
    ensures
        printable(s) == s,
    decreases s.len(),
{
    if s.len() > 0 {
        assert forall|i: int| 0 <= i < s.drop_last().len() implies !control(
            #[trigger] s.drop_last()[i],
        ) by {
            assert(!control(s[i]));
        }
        lemma_printable_same(s.drop_last());
        assert(!control(s[s.len() - 1]));
        assert(s =~= s.drop_last().push(s.last()));
    } else {
        assert(s =~= Seq::empty());
    }
}

/// A kept text has no control characters and no more characters than the cap, and cleaning it
/// again changes nothing.
pub proof fn sanitized_text_is_safe(s: Seq<char>)
    ensures
        safe_text(s).len() <= MAX_ATTR_STRING_LEN,
        forall|i: int| 0 <= i < safe_text(s).len() ==> !control(#[trigger] safe_text(s)[i]),
        safe_text(safe_text(s)) == safe_text(s),
{
    lemma_printable(s);
    let t = safe_text(s);
    assert forall|i: int| 0 <= i < t.len() implies !control(#[trigger] t[i]) by {
        assert(t[i] == printable(s)[i]);
    }
    lemma_printable_same(t);
}

// ---------------------------------------------------------------------------
// Attributes
// ---------------------------------------------------------------------------

/// The value that an attribute keeps: a number, a truth value or a cleaned text.
pub open spec fn safe_value(v: JsonView) -> Option<JsonView> {
    match v {
        JsonView::Str(s) => Some(JsonView::Str(safe_text(s))),
        JsonView::Number(_) => Some(v),
        JsonView::Bool(_) => Some(v),
        _ => None,
    }
}

/// The attribute that an entry becomes, if it is kept.
pub open spec fn safe_entry(p: (Seq<char>, JsonView)) -> Option<(Seq<char>, JsonView)> {
    match (safe_key(p.0), safe_value(p.1)) {
        (Some(k), Some(v)) => if reserved_prop(k) || store_base_key(k) {
            None
        } else {
            Some((k, v))
        },
        _ => None,
    }
}

/// The attributes that are kept of an object; where two keys become one, the later entry counts.
pub open spec fn safe_attributes(e: Entries) -> Entries
    decreases e.len(),
{
    if e.len() == 0 {
        no_entries()
    } else {
        match safe_entry(e.last()) {
            Some((k, v)) => put(safe_attributes(e.drop_last()), k, v),
            None => safe_attributes(e.drop_last()),
        }
    }
}

fn is_reserved(k: &str) -> (r: bool)
    ensures
        r == (reserved_prop(k@) || store_base_key(k@)),
{
    same_text(k, "id") || same_text(k, "name") || same_text(k, "source_id") || same_text(
        k,
        "layer_id",
    ) || same_text(k, "uuid") || same_text(k, "node_type") || same_text(k, "subtype") || same_text(
        k,
        "description",
    ) || same_text(k, "embedding_id") || same_text(k, "created_at") || same_text(k, "updated_at")
        || same_text(k, "version")
}

fn sanitize_value(v: &Json) -> (r: Option<Json>)
    ensures
        match r {
            Some(x) => safe_value(v@) == Some(x@),
            None => safe_value(v@) is None,
        },
{
    broadcast use lemma_json_view;

    match v {
        Json::Str(s) => Some(Json::Str(sanitize_string_value(s.as_str()))),
        Json::Number(_) => Some(v.copy()),
        Json::Bool(_) => Some(v.copy()),
        _ => None,
    }
}

/// Keeps the scalars with safe keys that are not reserved. Raw attributes go through this before
/// they are stored or reflected in the schema of a layer.
pub fn sanitize_attributes(attrs: &JsonObject) -> (r: JsonObject)
    ensures
        r@ == safe_attributes(attrs@),
{
    let n = attrs.len();
    let ghost e = attrs@;
    let mut out = JsonObject::new();
    let mut i: usize = 0;
    while i < n
        invariant
            i <= n,
            n == attrs@.len(),
            e == attrs@,
            out@ == safe_attributes(e.take(i as int)),
        decreases n - i,
    {
        proof {
            assert(e.take(i + 1).drop_last() =~= e.take(i as int));
            assert(e.take(i + 1).last() == e[i as int]);
        }
        let value = sanitize_value(attrs.value_at(i));
        match sanitize_key(attrs.key_at(i).as_str()) {
            Some(key) => {
                if !is_reserved(key.as_str()) {
                    match value {
                        Some(v) => {
                            out.insert(key, v);
                        },
                        None => {},
                    }
                }
            },
            None => {},
        }
        i += 1;
    }
    proof {
        assert(e.take(n as int) =~= e);
    }
    out
}

/// An attribute as it is stored: a safe key that is not reserved, and a clean scalar.
pub open spec fn stored_attribute(p: (Seq<char>, JsonView)) -> bool {
    &&& identifier(p.0)
    &&& !reserved_prop(p.0)
    &&& !store_base_key(p.0)
    &&& match p.1 {
        JsonView::Str(s) => s.len() <= MAX_ATTR_STRING_LEN && forall|i: int|
            0 <= i < s.len() ==> !control(#[trigger] s[i]),
        JsonView::Number(_) => true,
        JsonView::Bool(_) => true,
        _ => false,
    }
}

proof fn lemma_safe_entry(p: (Seq<char>, JsonView))
    ensures
        safe_entry(p) matches Some(q) ==> stored_attribute(q) && safe_entry(q) == Some(q),
{
    sanitized_key_is_safe(p.0);
    if let JsonView::Str(s) = p.1 {
        sanitized_text_is_safe(s);
    }
}

proof fn lemma_safe_attributes(e: Entries)
    ensures
        ascending(keys(safe_attributes(e))),
        forall|i: int|
            0 <= i < safe_attributes(e).len() ==> stored_attribute(
                #[trigger] safe_attributes(e)[i],
            ) && safe_entry(safe_attributes(e)[i]) == Some(safe_attributes(e)[i]),
    decreases e.len(),
{
    if e.len() > 0 {
        let before = safe_attributes(e.drop_last());
        lemma_safe_attributes(e.drop_last());
        lemma_safe_entry(e.last());
        if let Some((k, v)) = safe_entry(e.last()) {
            lemma_put(before, k, v);
            lemma_slot(keys(before), k);
            let after = put(before, k, v);
            let at = crate::textmap::slot(keys(before), k);
            assert forall|i: int| 0 <= i < after.len() implies stored_attribute(
                #[trigger] after[i],
            ) && safe_entry(after[i]) == Some(after[i]) by {
                if i == at {
                    assert(after[i] == (k, v));
                } else if has_key(before, k) || i < at {
                    assert(after[i] == before[i]);
                } else {
                    assert(after[i] == before[i - 1]);
                }
            }
        }
    } else {
        assert(keys(safe_attributes(e)) =~= Seq::empty());
    }
}

proof fn lemma_safe_again(e: Entries)
    requires
        ascending(keys(e)),
        forall|i: int| 0 <= i < e.len() ==> safe_entry(#[trigger] e[i]) == Some(e[i]),
    ensures
        safe_attributes(e) == e,
    decreases e.len(),
{
    if e.len() > 0 {
        let d = e.drop_last();
        assert(keys(d) =~= keys(e).drop_last());
        assert forall|i: int| 0 <= i < d.len() implies safe_entry(#[trigger] d[i]) == Some(
            d[i],
        ) by {
            assert(safe_entry(e[i]) == Some(e[i]));
        }
        lemma_safe_again(d);
        assert(safe_entry(e[e.len() - 1]) == Some(e[e.len() - 1]));
        assert forall|i: int| 0 <= i < d.len() implies text_lt(#[trigger] d[i].0, e.last().0) by {
            assert(keys(e)[i] == d[i].0);
            assert(keys(e)[e.len() - 1] == e.last().0);
        }
        lemma_put_last(d, e.last().0, e.last().1);
        assert(e =~= d.push(e.last()));
    } else {
        assert(e =~= no_entries());
    }
}

/// Whatever attributes come in, each one that is kept has a safe key that is not reserved and a
/// clean scalar value, no key twice; keeping them again changes nothing.
pub proof fn sanitized_attributes_are_safe(e: Entries)
    ensures
        ascending(keys(safe_attributes(e))),
        forall|i: int|
            0 <= i < safe_attributes(e).len() ==> stored_attribute(
                #[trigger] safe_attributes(e)[i],
            ),
        safe_attributes(safe_attributes(e)) == safe_attributes(e),
{
    lemma_safe_attributes(e);
    lemma_safe_again(safe_attributes(e));
}

// ---------------------------------------------------------------------------
// Nodes
// ---------------------------------------------------------------------------

#[verifier::ext_equal]
pub struct NodeView {
    pub id: Seq<char>,
    pub node_type: Seq<char>,
    pub subtype: Option<Seq<char>>,
    pub name: Seq<char>,
    pub description: Option<Seq<char>>,
    pub properties: Entries,
    pub geometry: Option<GeometryView>,
    pub point: Option<CoordView>,
    pub embedding_id: Option<Seq<char>>,
    pub created_at: Seq<char>,
    pub updated_at: Seq<char>,
    pub version: u64,
}

/// A node of the graph store: a typed record with scalar properties. `geometry` is its spatial
/// geometry and `point` the position that the store falls back to; times are RFC 3339 texts.
#[derive(Debug, PartialEq)]
pub struct AttrNode {
    pub id: String,
    pub node_type: String,
    pub subtype: Option<String>,
    pub name: String,
    pub description: Option<String>,
    pub properties: JsonObject,
    pub geometry: Option<Geometry>,
    pub point: Option<Coord>,
    pub embedding_id: Option<String>,
    pub created_at: String,
    pub updated_at: String,
    pub version: u64,
}

pub open spec fn opt_coord_view(c: Option<Coord>) -> Option<CoordView> {
    match c {
        Some(x) => Some(x@),
        None => None,
    }
}

impl View for AttrNode {
    type V = NodeView;

    open spec fn view(&self) -> NodeView {
        NodeView {
            id: self.id@,
            node_type: self.node_type@,
            subtype: opt_view(self.subtype),
            name: self.name@,
            description: opt_view(self.description),
            properties: self.properties@,
            geometry: opt_geometry_view(self.geometry),
            point: opt_coord_view(self.point),
            embedding_id: opt_view(self.embedding_id),
            created_at: self.created_at@,
            updated_at: self.updated_at@,
            version: self.version,
        }
    }
}

pub open spec fn nodes_view(nodes: Seq<AttrNode>) -> Seq<NodeView> {
    nodes.map_values(|n: AttrNode| n@)
}

impl NodeView {
    /// The value of a property.
    pub open spec fn get(self, key: Seq<char>) -> Option<JsonView> {
        lookup(self.properties, key)
    }

    /// The text of a property.
    pub open spec fn text_at(self, key: Seq<char>) -> Option<Seq<char>> {
        match self.get(key) {
            Some(v) => v.as_str(),
            None => None,
        }
    }
}

pub fn copy_opt(s: &Option<String>) -> (r: Option<String>)
    ensures
        opt_view(r) == opt_view(*s),
{
    match s {
        Some(t) => Some(t.clone()),
        None => None,
    }
}

impl AttrNode {
    pub fn get(&self, key: &str) -> (r: Option<&Json>)
        ensures
            match r {
                Some(v) => self@.get(key@) == Some(v@),
                None => self@.get(key@) is None,
            },
    {
        self.properties.get(key)
    }

    pub fn text_at(&self, key: &str) -> (r: Option<&String>)
        ensures
            match r {
                Some(s) => self@.text_at(key@) == Some(s@),
                None => self@.text_at(key@) is None,
            },
    {
        match self.properties.get(key) {
            Some(v) => v.as_str(),
            None => None,
        }
    }

    pub fn copy(&self) -> (r: AttrNode)
        ensures
            r@ == self@,
    {
        AttrNode {
            id: self.id.clone(),
            node_type: self.node_type.clone(),
            subtype: copy_opt(&self.subtype),
            name: self.name.clone(),
            description: copy_opt(&self.description),
            properties: self.properties.copy(),
            geometry: match &self.geometry {
                Some(g) => Some(g.copy()),
                None => None,
            },
            point: match &self.point {
                Some(c) => Some(c.copy()),
                None => None,
            },
            embedding_id: copy_opt(&self.embedding_id),
            created_at: self.created_at.clone(),
            updated_at: self.updated_at.clone(),
            version: self.version,
        }
    }
}

/// A node as it is first made: no subtype, no description, no geometry, version 1.
pub open spec fn blank_node(
    id: Seq<char>,
    node_type: Seq<char>,
    name: Seq<char>,
    created_at: Seq<char>,
    updated_at: Seq<char>,
) -> NodeView {
    NodeView {
        id,
        node_type,
        subtype: None,
        name,
        description: None,
        properties: no_entries(),
        geometry: None,
        point: None,
        embedding_id: None,
        created_at,
        updated_at,
        version: 1,
    }
}

fn new_node(id: String, node_type: &str, name: &str) -> (r: AttrNode)
    ensures
        is_stamp(r@.created_at),
        is_stamp(r@.updated_at),
        r@ == blank_node(id@, node_type@, name@, r@.created_at, r@.updated_at),
{
    AttrNode {
        id,
        node_type: node_type.to_owned(),
        subtype: None,
        name: name.to_owned(),
        description: None,
        properties: JsonObject::new(),
        geometry: None,
        point: None,
        embedding_id: None,
        created_at: now(),
        updated_at: now(),
        version: 1,
    }
}

/// The properties of a layer node.
pub open spec fn layer_properties(
    display_name: Seq<char>,
    geometry_type: Seq<char>,
    source: Seq<char>,
    style: JsonView,
    schema: JsonView,
    z_order: int,
) -> Entries {
    let e = put(no_entries(), "display_name"@, str_json(display_name));
    let e = put(e, "geometry_type"@, str_json(geometry_type));
    let e = put(e, "source"@, str_json(source));
    let e = put(e, "style"@, style);
    let e = put(e, "schema"@, schema);
    put(e, "z_order"@, int_json(z_order))
}

/// A layer node: a catalog record with the style and the attribute schema of the layer. Its
/// stacking order is 0 (higher is drawn on top); an import raises it.
pub fn layer_node(
    name: &str,
    display_name: &str,
    description: &str,
    geometry_type: &str,
    source: &str,
    style: Json,
    schema: Json,
) -> (r: AttrNode)
    ensures
        uuid_shape(r@.id),
        is_stamp(r@.created_at),
        is_stamp(r@.updated_at),
        r@ == (NodeView {
            description: Some(description@),
            properties: layer_properties(
                display_name@,
                geometry_type@,
                source@,
                style@,
                schema@,
                0,
            ),
            ..blank_node(r@.id, "Layer"@, name@, r@.created_at, r@.updated_at)
        }),
{
    let mut n = new_node(fresh_id(), NODE_LAYER, name);
    n.description = Some(description.to_owned());
    let mut props = JsonObject::new();
    props.set("display_name", Json::text(display_name));
    props.set("geometry_type", Json::text(geometry_type));
    props.set("source", Json::text(source));
    props.set("style", style);
    props.set("schema", schema);
    props.set("z_order", Json::from_i64(0));
    n.properties = props;
    n
}

/// The entries with others set over them, one by one.
pub open spec fn put_all(e: Entries, more: Entries) -> Entries
    decreases more.len(),
{
    if more.len() == 0 {
        e
    } else {
        put(put_all(e, more.drop_last()), more.last().0, more.last().1)
    }
}

/// Sets entries over those of an object.
pub fn set_all(o: &mut JsonObject, more: &JsonObject)
    ensures
        final(o)@ == put_all(old(o)@, more@),
{
    let n = more.len();
    let ghost start = o@;
    let ghost m = more@;
    let mut i: usize = 0;
    while i < n
        invariant
            i <= n,
            n == more@.len(),
            m == more@,
            o@ == put_all(start, m.take(i as int)),
        decreases n - i,
    {
        proof {
            assert(m.take(i + 1).drop_last() =~= m.take(i as int));
            assert(m.take(i + 1).last() == m[i as int]);
        }
        o.insert(more.key_at(i).clone(), more.value_at(i).copy());
        i += 1;
    }
    proof {
        assert(m.take(n as int) =~= m);
    }
}

/// The properties of a feature node: where it belongs and comes from, then its attributes.
pub open spec fn feature_properties(
    layer_id: Seq<char>,
    source_id: Seq<char>,
    attributes: Entries,
) -> Entries {
    put_all(
        put(
            put(no_entries(), "layer_id"@, str_json(layer_id)),
            "source_id"@,
            str_json(source_id),
        ),
        safe_attributes(attributes),
    )
}

/// A feature node as it is made, but for its id and its times.
pub open spec fn feature_view(
    id: Seq<char>,
    layer_id: Seq<char>,
    source_id: Seq<char>,
    name: Seq<char>,
    geometry: GeometryView,
    attributes: Entries,
    created_at: Seq<char>,
    updated_at: Seq<char>,
) -> NodeView {
    NodeView {
        properties: feature_properties(layer_id, source_id, attributes),
        geometry: Some(geometry),
        ..blank_node(id, "Feature"@, name, created_at, updated_at)
    }
}

/// A feature node: its geometry, and its scalar attributes inline.
pub fn feature_node(
    layer_id: &str,
    source_id: &str,
    name: &str,
    geometry: &Geometry,
    attributes: &JsonObject,
) -> (r: AttrNode)
    ensures
        uuid_shape(r@.id),
        is_stamp(r@.created_at),
        is_stamp(r@.updated_at),
        r@ == feature_view(
            r@.id,
            layer_id@,
            source_id@,
            name@,
            geometry@,
            attributes@,
            r@.created_at,
            r@.updated_at,
        ),
{
    let mut n = new_node(fresh_id(), NODE_FEATURE, name);
    let mut props = JsonObject::new();
    props.set("layer_id", Json::text(layer_id));
    props.set("source_id", Json::text(source_id));
    set_all(&mut props, &sanitize_attributes(attributes));
    n.properties = props;
    n.geometry = Some(geometry.copy());
    n
}

proof fn lemma_put_all_lookup(e: Entries, more: Entries, k: Seq<char>)
    requires
        ascending(keys(e)),
        ascending(keys(more)),
    ensures
        ascending(keys(put_all(e, more))),
        lookup(put_all(e, more), k) == match lookup(more, k) {
            Some(v) => Some(v),
            None => lookup(e, k),
        },
    decreases more.len(),
{
    if more.len() > 0 {
        let d = more.drop_last();
        assert(keys(d) =~= keys(more).drop_last());
        lemma_put_all_lookup(e, d, k);
        lemma_put(put_all(e, d), more.last().0, more.last().1);
        assert forall|i: int| 0 <= i < d.len() implies text_lt(#[trigger] d[i].0, more.last().0) by {
            assert(keys(more)[i] == d[i].0);
            assert(keys(more)[more.len() - 1] == more.last().0);
        }
        lemma_put_last(d, more.last().0, more.last().1);
        assert(more =~= d.push(more.last()));
        lemma_put(d, more.last().0, more.last().1);
    }
}

/// A feature node carries its layer and its source whatever attributes come with it, and under
/// every other key exactly the attribute that is kept there.
pub proof fn feature_keeps_its_layer(
    layer_id: Seq<char>,
    source_id: Seq<char>,
    attributes: Entries,
    key: Seq<char>,
)
    ensures
        lookup(feature_properties(layer_id, source_id, attributes), "layer_id"@) == Some(
            str_json(layer_id),
        ),
        lookup(feature_properties(layer_id, source_id, attributes), "source_id"@) == Some(
            str_json(source_id),
        ),
        key != "layer_id"@ && key != "source_id"@ ==> lookup(
            feature_properties(layer_id, source_id, attributes),
            key,
        ) == lookup(safe_attributes(attributes), key),
{
    let a = safe_attributes(attributes);
    sanitized_attributes_are_safe(attributes);
    reveal_strlit("layer_id");
    reveal_strlit("source_id");
    assert("layer_id"@.len() != "source_id"@.len());
    assert(keys(no_entries()) =~= Seq::empty());
    let e1 = put(no_entries(), "layer_id"@, str_json(layer_id));
    lemma_put(no_entries(), "layer_id"@, str_json(layer_id));
    let e2 = put(e1, "source_id"@, str_json(source_id));
    lemma_put(e1, "source_id"@, str_json(source_id));
    lemma_put_all_lookup(e2, a, "layer_id"@);
    lemma_put_all_lookup(e2, a, "source_id"@);
    lemma_put_all_lookup(e2, a, key);
    if let Some(v) = lookup(a, "layer_id"@) {
        lemma_lookup(a, "layer_id"@, v);
        let i = choose|i: int| 0 <= i < a.len() && a[i] == ("layer_id"@, v);
        assert(stored_attribute(a[i]));
    }
    if let Some(v) = lookup(a, "source_id"@) {
        lemma_lookup(a, "source_id"@, v);
        let i = choose|i: int| 0 <= i < a.len() && a[i] == ("source_id"@, v);
        assert(stored_attribute(a[i]));
    }
    assert(lookup(no_entries(), key) is None);
}

/// Properties as a feature node has them once it is stored.
pub open spec fn are_stored_properties(e: Entries) -> bool {
    exists|layer_id: Seq<char>, source_id: Seq<char>, attributes: Entries|
        e == #[trigger] feature_properties(layer_id, source_id, attributes)
}

proof fn lemma_identifier_kept(s: Seq<char>)
    requires
        identifier(s),
        s.last() != '_',
    ensures
        safe_key(s) == Some(s),
{
    assert(underscored(s) =~= s);
    assert(strip_front(s) == s);
    assert(strip_back(s) == s);
}

/// An entry that a stored feature may have: where it belongs, or a clean attribute.
spec fn is_stored_entry(p: (Seq<char>, JsonView)) -> bool {
    p.0 == "layer_id"@ || p.0 == "source_id"@ || safe_entry(p) == Some(p)
}

proof fn lemma_safe_lookup(e: Entries, k: Seq<char>)
    requires
        ascending(keys(e)),
        forall|i: int| 0 <= i < e.len() ==> is_stored_entry(#[trigger] e[i]),
        k != "layer_id"@,
        k != "source_id"@,
    ensures
        lookup(safe_attributes(e), k) == lookup(e, k),
    decreases e.len(),
{
    if e.len() > 0 {
        let d = e.drop_last();
        let last = e.last();
        assert(keys(d) =~= keys(e).drop_last());
        assert forall|i: int| 0 <= i < d.len() implies is_stored_entry(#[trigger] d[i]) by {
            assert(is_stored_entry(e[i]));
        }
        lemma_safe_lookup(d, k);
        assert(is_stored_entry(e[e.len() - 1]));
        assert forall|i: int| 0 <= i < d.len() implies text_lt(#[trigger] d[i].0, last.0) by {
            assert(keys(e)[i] == d[i].0);
            assert(keys(e)[e.len() - 1] == last.0);
        }
        lemma_put_last(d, last.0, last.1);
        assert(e =~= d.push(last));
        lemma_put(d, last.0, last.1);
        lemma_safe_attributes(d);
        if last.0 == "layer_id"@ || last.0 == "source_id"@ {
            reveal_strlit("layer_id");
            reveal_strlit("source_id");
            lemma_identifier_kept("layer_id"@);
            lemma_identifier_kept("source_id"@);
            assert(safe_entry(last) is None);
        } else {
            lemma_put(safe_attributes(d), last.0, last.1);
        }
    } else {
        assert(lookup(safe_attributes(e), k) is None);
        assert(lookup(e, k) is None);
    }
}

proof fn lemma_stored_entries(layer_id: Seq<char>, source_id: Seq<char>, attributes: Entries)
    ensures
        ascending(keys(feature_properties(layer_id, source_id, attributes))),
        forall|i: int|
            0 <= i < feature_properties(layer_id, source_id, attributes).len() ==> is_stored_entry(
                #[trigger] feature_properties(layer_id, source_id, attributes)[i],
            ),
{
    let p = feature_properties(layer_id, source_id, attributes);
    let a = safe_attributes(attributes);
    lemma_safe_attributes(attributes);
    assert(keys(no_entries()) =~= Seq::empty());
    let e1 = put(no_entries(), "layer_id"@, str_json(layer_id));
    lemma_put(no_entries(), "layer_id"@, str_json(layer_id));
    let e2 = put(e1, "source_id"@, str_json(source_id));
    lemma_put(e1, "source_id"@, str_json(source_id));
    lemma_put_all_lookup(e2, a, ""@);
    assert forall|i: int| 0 <= i < p.len() implies is_stored_entry(#[trigger] p[i]) by {
        let (k, v) = p[i];
        lemma_put_all_lookup(e2, a, k);
        assert(p.contains((k, v)));
        lemma_lookup(p, k, v);
        if k != "layer_id"@ && k != "source_id"@ {
            assert(lookup(e1, k) == lookup(no_entries(), k));
            assert(lookup(no_entries(), k) is None);
            lemma_lookup(a, k, v);
            let j = choose|j: int| 0 <= j < a.len() && a[j] == (k, v);
            assert(safe_entry(a[j]) == Some(a[j]));
        }
    }
}

/// Storing a stored feature again keeps its attributes as they are.
pub proof fn stored_attributes_are_kept(
    e: Entries,
    layer_id: Seq<char>,
    source_id: Seq<char>,
    key: Seq<char>,
)
    requires
        are_stored_properties(e),
        key != "layer_id"@,
        key != "source_id"@,
    ensures
        lookup(feature_properties(layer_id, source_id, e), key) == lookup(e, key),
{
    let (l, s, a) = choose|l: Seq<char>, s: Seq<char>, a: Entries|
        e == #[trigger] feature_properties(l, s, a);
    lemma_stored_entries(l, s, a);
    lemma_safe_lookup(e, key);
    feature_keeps_its_layer(layer_id, source_id, e, key);
}

/// Storing a stored feature again under the same layer and source changes nothing of its
/// properties.
pub proof fn stored_properties_are_kept(
    layer_id: Seq<char>,
    source_id: Seq<char>,
    attributes: Entries,
)
    ensures
        feature_properties(
            layer_id,
            source_id,
            feature_properties(layer_id, source_id, attributes),
        ) == feature_properties(layer_id, source_id, attributes),
{
    let e = feature_properties(layer_id, source_id, attributes);
    let again = feature_properties(layer_id, source_id, e);
    lemma_stored_entries(layer_id, source_id, attributes);
    lemma_stored_entries(layer_id, source_id, e);
    feature_keeps_its_layer(layer_id, source_id, attributes, ""@);
    feature_keeps_its_layer(layer_id, source_id, e, ""@);
    assert forall|k: Seq<char>| #[trigger] lookup(again, k) == lookup(e, k) by {
        if k != "layer_id"@ && k != "source_id"@ {
            stored_attributes_are_kept(e, layer_id, source_id, k);
        }
    }
    lemma_same_lookup(again, e);
}

// ---------------------------------------------------------------------------
// Style and kind
// ---------------------------------------------------------------------------

/// The number that a JSON text stands for.
pub open spec fn number_in(text: Seq<char>) -> JsonView {
    match read_text(text) {
        Ok(v) => v,
        Err(_) => JsonView::Null,
    }
}

fn number(text: &str) -> (r: Json)
    ensures
        r@ == number_in(text@),
{
    match Json::parse(text) {
        Ok(v) => v,
        Err(_) => Json::null(),
    }
}

pub open spec fn style_out(layer_type: Seq<char>, paint: Entries) -> JsonView {
    JsonView::Object(
        put(
            put(no_entries(), "type"@, str_json(layer_type)),
            "paint"@,
            JsonView::Object(paint),
        ),
    )
}

/// The MapLibre paint for a geometry type; polygons and mixed layers get translucent fills.
pub open spec fn style_for(geometry_type: Seq<char>) -> JsonView {
    let blue = str_json("#3388ff"@);
    if geometry_type == "Point"@ {
        let e = put(no_entries(), "circle-radius"@, int_json(5));
        let e = put(e, "circle-color"@, blue);
        style_out("circle"@, put(e, "circle-opacity"@, number_in("0.9"@)))
    } else if geometry_type == "LineString"@ {
        let e = put(no_entries(), "line-color"@, blue);
        let e = put(e, "line-width"@, int_json(2));
        style_out("line"@, put(e, "line-opacity"@, number_in("0.9"@)))
    } else {
        let e = put(no_entries(), "fill-color"@, blue);
        style_out("fill"@, put(e, "fill-opacity"@, number_in("0.35"@)))
    }
}

fn style(layer_type: &str, paint: JsonObject) -> (r: Json)
    ensures
        r@ == style_out(layer_type@, paint@),
{
    let mut o = JsonObject::new();
    o.set("type", Json::text(layer_type));
    o.set("paint", Json::object(paint));
    Json::object(o)
}

/// The default MapLibre paint for a geometry type.
pub fn default_style(geometry_type: &str) -> (r: Json)
    ensures
        r@ == style_for(geometry_type@),
{
    let mut paint = JsonObject::new();
    if same_text(geometry_type, "Point") {
        paint.set("circle-radius", Json::from_u64(5));
        paint.set("circle-color", Json::text("#3388ff"));
        paint.set("circle-opacity", number("0.9"));
        style("circle", paint)
    } else if same_text(geometry_type, "LineString") {
        paint.set("line-color", Json::text("#3388ff"));
        paint.set("line-width", Json::from_u64(2));
        paint.set("line-opacity", number("0.9"));
        style("line", paint)
    } else {
        paint.set("fill-color", Json::text("#3388ff"));
        paint.set("fill-opacity", number("0.35"));
        style("fill", paint)
    }
}

/// Point, line or polygon.
pub open spec fn kind_of(g: GeometryView) -> Seq<char> {
    match g {
        GeometryView::Point(_) | GeometryView::MultiPoint(_) => "Point"@,
        GeometryView::Line(_, _)
        | GeometryView::LineString(_)
        | GeometryView::MultiLineString(_) => "LineString"@,
        GeometryView::Polygon(_)
        | GeometryView::MultiPolygon(_)
        | GeometryView::Rect(_) => "Polygon"@,
        GeometryView::Other(_, _) => "Mixed"@,
    }
}

/// The label of a geometry: point, line or polygon.
pub fn geometry_kind(g: &Geometry) -> (r: &'static str)
    ensures
        r@ == kind_of(g@),
{
    match g {
        Geometry::Point(_) | Geometry::MultiPoint(_) => "Point",
        Geometry::Line(_, _) | Geometry::LineString(_) | Geometry::MultiLineString(_) => {
            "LineString"
        },
        Geometry::Polygon(_) | Geometry::MultiPolygon(_) | Geometry::Rect(_) => "Polygon",
        Geometry::Other(_, _) => "Mixed",
    }
}

// ---------------------------------------------------------------------------
// Search text
// ---------------------------------------------------------------------------

/// Keys whose values are no descriptive text.
pub open spec fn plumbing_key(k: Seq<char>) -> bool {
    ||| k == "geometry"@ || k == "layer_id"@ || k == "source_id"@ || k == "embedding"@
    ||| k == "OBJECTID"@ || k == "objectid"@ || k == "FID"@ || k == "fid"@ || k == "ID"@ || k
        == "id"@
    ||| starts_with(k, "min_"@)
    ||| starts_with(k, "max_"@)
    ||| k.len() == 0
}

/// Whether a key holds plumbing that is left out of the search text.
pub fn is_plumbing_key(k: &str) -> (r: bool)
    ensures
        r == plumbing_key(k@),
{
    proof {
        reveal_strlit("");
        if k@.len() == 0 {
            assert(k@ =~= ""@);
        }
    }
    same_text(k, "geometry") || same_text(k, "layer_id") || same_text(k, "source_id") || same_text(
        k,
        "embedding",
    ) || same_text(k, "OBJECTID") || same_text(k, "objectid") || same_text(k, "FID") || same_text(
        k,
        "fid",
    ) || same_text(k, "ID") || same_text(k, "id") || has_prefix(k, "min_") || has_prefix(k, "max_")
        || same_text(k, "")
}

pub open spec fn bool_text(b: bool) -> Seq<char> {
    if b {
        "true"@
    } else {
        "false"@
    }
}

/// The text of a scalar: a text that is not empty, a number, a truth value.
pub open spec fn text_of_scalar(v: JsonView) -> Option<Seq<char>> {
    match v {
        JsonView::Str(s) => if s.len() > 0 {
            Some(s)
        } else {
            None
        },
        JsonView::Number(n) => Some(number_text(n)),
        JsonView::Bool(b) => Some(bool_text(b)),
        _ => None,
    }
}

fn scalar_text(v: &Json) -> (r: Option<String>)
    ensures
        opt_view(r) == text_of_scalar(v@),
{
    broadcast use lemma_json_view;

    match v {
        Json::Str(s) => {
            proof {
                reveal_strlit("");
                if s@.len() == 0 {
                    assert(s@ =~= ""@);
                }
            }
            if same_text(s.as_str(), "") {
                None
            } else {
                Some(s.clone())
            }
        },
        Json::Number(_) => v.number_to_text(),
        Json::Bool(b) => Some(
            if *b {
                "true".to_owned()
            } else {
                "false".to_owned()
            },
        ),
        _ => None,
    }
}

/// What stands in the search text for an attribute: the beginning of its text.
pub open spec fn searchable(t: Seq<char>) -> Seq<char> {
    first_chars(t, MAX_VALUE as nat)
}

fn searchable_part(s: String) -> (r: String)
    ensures
        r@ == searchable(s@),
{
    let chars = chars_of(s.as_str());
    if chars.len() <= MAX_VALUE {
        s
    } else {
        string_of_range(&chars, 0, MAX_VALUE)
    }
}

/// The texts of the attributes that describe a node: the beginning of every scalar whose key is
/// not plumbing, in order of the keys.
pub open spec fn attribute_texts(e: Entries) -> Seq<Seq<char>>
    decreases e.len(),
{
    if e.len() == 0 {
        Seq::empty()
    } else {
        let before = attribute_texts(e.drop_last());
        match text_of_scalar(e.last().1) {
            Some(t) if !plumbing_key(e.last().0) => before.push(searchable(t)),
            _ => before,
        }
    }
}

pub open spec fn as_list(s: Option<Seq<char>>) -> Seq<Seq<char>> {
    match s {
        Some(t) => seq![t],
        None => Seq::empty(),
    }
}

pub open spec fn nonempty(parts: Seq<Seq<char>>) -> Seq<Seq<char>>
    decreases parts.len(),
{
    if parts.len() == 0 {
        Seq::empty()
    } else if parts.last().len() == 0 {
        nonempty(parts.drop_last())
    } else {
        nonempty(parts.drop_last()).push(parts.last())
    }
}

/// The text by which a node is found: its name, its class, its layer, then its attributes in
/// order of their keys.
pub open spec fn search_text(n: NodeView) -> Seq<char> {
    let parts = seq![n.name] + as_list(n.text_at("FOLDERPATH"@)) + as_list(n.subtype)
        + attribute_texts(n.properties);
    join(nonempty(parts), " | "@)
}

fn push_attribute_texts(props: &JsonObject, parts: &mut Vec<String>)
    ensures
        texts(final(parts)@) == texts(old(parts)@) + attribute_texts(props@),
{
    let n = props.len();
    let ghost e = props@;
    let ghost front = texts(parts@);
    let mut i: usize = 0;
    proof {
        assert(front + attribute_texts(e.take(0)) =~= front);
    }
    while i < n
        invariant
            i <= n,
            n == props@.len(),
            e == props@,
            texts(parts@) == front + attribute_texts(e.take(i as int)),
        decreases n - i,
    {
        proof {
            assert(e.take(i + 1).drop_last() =~= e.take(i as int));
            assert(e.take(i + 1).last() == e[i as int]);
        }
        if !is_plumbing_key(props.key_at(i).as_str()) {
            match scalar_text(props.value_at(i)) {
                Some(whole) => {
                    let ghost before = parts@;
                    let s = searchable_part(whole);
                    parts.push(s);
                    proof {
                        assert(texts(parts@) =~= texts(before).push(s@));
                        assert(texts(parts@) =~= front + attribute_texts(e.take(i as int)).push(
                            s@,
                        ));
                    }
                },
                None => {},
            }
        }
        i += 1;
    }
    proof {
        assert(e.take(n as int) =~= e);
    }
}

fn drop_empty(parts: Vec<String>) -> (r: Vec<String>)
    ensures
        texts(r@) == nonempty(texts(parts@)),
{
    let ghost all = texts(parts@);
    let mut out: Vec<String> = Vec::new();
    for part in it: parts
        invariant
            it.seq() == parts@,
            all == texts(parts@),
            texts(out@) == nonempty(all.take(it.index())),
    {
        proof {
            let i = it.index();
            assert(all.take(i + 1).drop_last() =~= all.take(i));
            assert(all.take(i + 1).last() == part@);
            reveal_strlit("");
            if part@.len() == 0 {
                assert(part@ =~= ""@);
            }
        }
        if !same_text(part.as_str(), "") {
            let ghost before = out@;
            out.push(part);
            proof {
                assert(texts(out@) =~= texts(before).push(part@));
            }
        }
    }
    proof {
        assert(all.take(parts@.len() as int) =~= all);
    }
    out
}

/// A compact text of a node for semantic search.
pub fn node_search_text(node: &AttrNode) -> (r: String)
    ensures
        r@ == search_text(node@),
{
    let mut parts: Vec<String> = Vec::new();
    parts.push(node.name.clone());
    proof {
        assert(texts(parts@) =~= seq![node@.name]);
    }
    match node.text_at("FOLDERPATH") {
        Some(c) => {
            parts.push(c.clone());
        },
        None => {},
    }
    proof {
        assert(texts(parts@) =~= seq![node@.name] + as_list(node@.text_at("FOLDERPATH"@)));
    }
    let ghost before = texts(parts@);
    match &node.subtype {
        Some(s) => {
            parts.push(s.clone());
        },
        None => {},
    }
    proof {
        assert(texts(parts@) =~= before + as_list(node@.subtype));
    }
    push_attribute_texts(&node.properties, &mut parts);
    let kept = drop_empty(parts);
    joined(&kept, " | ")
}

/// Every scalar attribute whose key is not plumbing is in the search text of a node, with its
/// first characters, and in order of the keys.
pub proof fn every_attribute_is_searchable(e: Entries, i: int, j: int)
    requires
        0 <= i < j < e.len(),
        !plumbing_key(e[i].0),
        !plumbing_key(e[j].0),
        text_of_scalar(e[i].1) is Some,
        text_of_scalar(e[j].1) is Some,
    ensures
        exists|a: int, b: int|
            0 <= a < b < attribute_texts(e).len() && #[trigger] attribute_texts(e)[a] == searchable(
                text_of_scalar(e[i].1)->0,
            ) && #[trigger] attribute_texts(e)[b] == searchable(text_of_scalar(e[j].1)->0),
    decreases e.len(),
{
    let d = e.drop_last();
    if j < e.len() - 1 {
        every_attribute_is_searchable(d, i, j);
        let (a, b) = choose|a: int, b: int|
            0 <= a < b < attribute_texts(d).len() && #[trigger] attribute_texts(d)[a] == searchable(
                text_of_scalar(d[i].1)->0,
            ) && #[trigger] attribute_texts(d)[b] == searchable(text_of_scalar(d[j].1)->0);
        assert(attribute_texts(e)[a] == attribute_texts(d)[a]);
        assert(attribute_texts(e)[b] == attribute_texts(d)[b]);
    } else {
        let a = lemma_attribute_is_there(d, i);
        assert(attribute_texts(e)[a] == attribute_texts(d)[a]);
        assert(attribute_texts(e)[attribute_texts(d).len() as int] == searchable(
            text_of_scalar(e[j].1)->0,
        ));
    }
}

proof fn lemma_attribute_is_there(e: Entries, i: int) -> (a: int)
    requires
        0 <= i < e.len(),
        !plumbing_key(e[i].0),
        text_of_scalar(e[i].1) is Some,
    ensures
        0 <= a < attribute_texts(e).len(),
        attribute_texts(e)[a] == searchable(text_of_scalar(e[i].1)->0),
    decreases e.len(),
{
    if i < e.len() - 1 {
        lemma_attribute_is_there(e.drop_last(), i)
    } else {
        attribute_texts(e.drop_last()).len() as int
    }
}

} // verus!
