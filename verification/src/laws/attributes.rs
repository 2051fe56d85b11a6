//! Attributes: under which keys and as which values they are stored, and the text by which a node
//! is found.

use vstd::prelude::*;

#[allow(unused_imports)]
use crate::geometry::GeometryView;
#[allow(unused_imports)]
use crate::json::{int_json, no_entries, number_text, str_json, Entries, JsonView};
#[allow(unused_imports)]
use crate::laws::merging::lemma_flatten_push;
#[allow(unused_imports)]
use crate::models::{
    as_list, attribute_texts, kind_of, layer_properties, nonempty, plumbing_key, printable,
    safe_attributes, safe_entry, safe_key, safe_text, safe_value, sanitized_attributes_are_safe,
    search_text, searchable, strip_back, strip_front, style_for, style_out, text_of_scalar,
    underscored, NodeView,
};
#[allow(unused_imports)]
use crate::text::join;
#[allow(unused_imports)]
use crate::textmap::{ascending, keys, lemma_put, lookup, put};

verus! {

// ---------------------------------------------------------------------------
// Keys and values
// ---------------------------------------------------------------------------

/// An ASCII letter or digit.
pub open spec fn is_plain(c: char) -> bool {
    'a' <= c <= 'z' || 'A' <= c <= 'Z' || '0' <= c <= '9'
}

/// The key under which an attribute is stored: letters and digits as they are, anything else as an
/// underscore, and no underscores around it.
pub open spec fn is_clean_key(key: Seq<char>, t: Seq<char>) -> bool {
    exists|i: int, j: int| #[trigger] is_core(key, i, j) && is_rewritten(key.subrange(i, j), t)
}

/// From the first to the last letter or digit of a text.
pub open spec fn is_core(key: Seq<char>, i: int, j: int) -> bool {
    &&& 0 <= i < j <= key.len()
    &&& is_plain(key[i]) && is_plain(key[j - 1])
    &&& forall|k: int| 0 <= k < i ==> !is_plain(#[trigger] key[k])
    &&& forall|k: int| j <= k < key.len() ==> !is_plain(#[trigger] key[k])
}

pub open spec fn is_rewritten(s: Seq<char>, t: Seq<char>) -> bool {
    s.len() == t.len() && forall|k: int|
        0 <= k < s.len() ==> #[trigger] t[k] == (if is_plain(s[k]) {
            s[k]
        } else {
            '_'
        })
}

proof fn lemma_strip_front(s: Seq<char>) -> (i: int)
    ensures
        0 <= i <= s.len(),
        strip_front(s) == s.skip(i),
        forall|k: int| 0 <= k < i ==> #[trigger] s[k] == '_',
        i < s.len() ==> s[i] != '_',
    decreases s.len(),
{
    if s.len() > 0 && s[0] == '_' {
        let d = s.drop_first();
        let j = lemma_strip_front(d);
        assert(s.skip(j + 1) =~= d.skip(j));
        assert forall|k: int| 0 <= k < j + 1 implies #[trigger] s[k] == '_' by {
            if k > 0 {
                assert(d[k - 1] == '_');
            }
        }
        j + 1
    } else {
        assert(s.skip(0) =~= s);
        0
    }
}

proof fn lemma_strip_back(s: Seq<char>) -> (j: int)
    ensures
        0 <= j <= s.len(),
        strip_back(s) == s.take(j),
        forall|k: int| j <= k < s.len() ==> #[trigger] s[k] == '_',
        j > 0 ==> s[j - 1] != '_',
    decreases s.len(),
{
    if s.len() > 0 && s.last() == '_' {
        let d = s.drop_last();
        let j = lemma_strip_back(d);
        assert(s.take(j) =~= d.take(j));
        assert forall|k: int| j <= k < s.len() implies #[trigger] s[k] == '_' by {
            if k < d.len() {
                assert(d[k] == '_');
            }
        }
        j
    } else {
        assert(s.take(s.len() as int) =~= s);
        s.len() as int
    }
}

/// A key is stored as its letters and digits with underscores between them; one without any, and
/// one that starts with a digit, is not stored.
pub proof fn keys_are_cleaned(key: Seq<char>)
    ensures
        safe_key(key) matches Some(t) ==> is_clean_key(key, t) && !('0' <= t[0] <= '9'),
        forall|t: Seq<char>| #[trigger]
            is_clean_key(key, t) ==> (if '0' <= t[0] <= '9' {
                safe_key(key) is None
            } else {
                safe_key(key) == Some(t)
            }),
        (forall|k: int| 0 <= k < key.len() ==> !is_plain(#[trigger] key[k])) ==> safe_key(key)
            is None,
{
    let u = underscored(key);
    let i = lemma_strip_front(u);
    let v = u.skip(i);
    let n = lemma_strip_back(v);
    let j = i + n;
    let s = v.take(n);
    assert(strip_back(strip_front(u)) == s);
    assert forall|k: int| 0 <= k < key.len() implies (u[k] == '_' <==> !is_plain(
        #[trigger] key[k],
    )) by {}
    assert forall|k: int| 0 <= k < i implies !is_plain(#[trigger] key[k]) by {
        assert(u[k] == '_');
    }
    assert forall|k: int| j <= k < key.len() implies !is_plain(#[trigger] key[k]) by {
        assert(v[k - i] == '_');
        assert(u[k] == '_');
    }
    if n > 0 {
        assert(v[n - 1] == u[j - 1]);
        assert(is_plain(key[j - 1]));
        assert(v[0] == u[i]);
        assert(is_core(key, i, j));
        let c = key.subrange(i, j);
        assert forall|k: int| 0 <= k < c.len() implies #[trigger] s[k] == (if is_plain(c[k]) {
            c[k]
        } else {
            '_'
        }) by {
            assert(s[k] == u[i + k]);
        }
        assert(is_rewritten(key.subrange(i, j), s));
    }
    assert forall|t: Seq<char>| #[trigger] is_clean_key(key, t) implies (if '0' <= t[0] <= '9' {
        safe_key(key) is None
    } else {
        safe_key(key) == Some(t)
    }) by {
        let (a, b) = choose|a: int, b: int| #[trigger]
            is_core(key, a, b) && is_rewritten(key.subrange(a, b), t);
        assert(is_plain(key[a]));
        assert(is_plain(key[b - 1]));
        assert(n > 0) by {
            if n == 0 {
                assert(!is_plain(key[a]));
            }
        }
        assert(a == i) by {
            if a < i {
                assert(!is_plain(key[a]));
            }
            if i < a {
                assert(!is_plain(key[i]));
            }
        }
        assert(b == j) by {
            if b < j {
                assert(!is_plain(key[j - 1]));
            }
            if j < b {
                assert(!is_plain(key[b - 1]));
            }
        }
        assert(t =~= s);
    }
    if forall|k: int| 0 <= k < key.len() ==> !is_plain(#[trigger] key[k]) {
        if n > 0 {
            assert(!is_plain(key[j - 1]));
        }
    }
}

/// A control character.
pub open spec fn is_control_char(c: char) -> bool {
    (c as u32) < 0x20 || (0x7f <= (c as u32) && (c as u32) < 0xa0)
}

proof fn lemma_printable(s: Seq<char>)
    ensures
        printable(s) == s.filter(|c: char| !is_control_char(c)),
    decreases s.len(),
{
    reveal(Seq::filter);
    if s.len() > 0 {
        lemma_printable(s.drop_last());
    } else {
        assert(printable(s) =~= s.filter(|c: char| !is_control_char(c)));
    }
}

/// The beginning of a text.
pub open spec fn beginning(s: Seq<char>, n: int) -> Seq<char> {
    s.take(if n < s.len() {
        n
    } else {
        s.len() as int
    })
}

/// A text is stored without its control characters, up to 4096 characters; numbers and truth
/// values are stored as they are, and nothing else is stored.
pub proof fn values_are_cleaned(v: JsonView, s: Seq<char>)
    ensures
        safe_text(s) == beginning(s.filter(|c: char| !is_control_char(c)), 4096),
        safe_value(JsonView::Str(s)) == Some(JsonView::Str(safe_text(s))),
        v is Number || v is Bool ==> safe_value(v) == Some(v),
        !(v is Str || v is Number || v is Bool) ==> safe_value(v) is None,
{
    lemma_printable(s);
    let t = s.filter(|c: char| !is_control_char(c));
    assert(t.take(t.len() as int) =~= t);
}

/// Keys that the store keeps for itself.
pub open spec fn is_kept_back(k: Seq<char>) -> bool {
    ||| k == "id"@ || k == "name"@ || k == "source_id"@ || k == "layer_id"@
    ||| k == "uuid"@ || k == "node_type"@ || k == "subtype"@ || k == "description"@
    ||| k == "embedding_id"@ || k == "created_at"@ || k == "updated_at"@ || k == "version"@
}

/// Whether an attribute is stored under a key as a value.
pub open spec fn is_stored_as(p: (Seq<char>, JsonView), k: Seq<char>, v: JsonView) -> bool {
    &&& safe_key(p.0) == Some(k)
    &&& !is_kept_back(k)
    &&& match p.1 {
        JsonView::Str(s) => v == JsonView::Str(safe_text(s)),
        JsonView::Number(_) => v == p.1,
        JsonView::Bool(_) => v == p.1,
        _ => false,
    }
}

/// Every attribute with a key that can be stored and a scalar value is stored, unless a later one
/// is stored under the same key; and only such attributes are stored.
pub proof fn attributes_are_stored(e: Entries, i: int, k: Seq<char>, v: JsonView)
    ensures
        0 <= i < e.len() && is_stored_as(e[i], k, v) && (forall|j: int, w: JsonView|
            i < j < e.len() ==> !#[trigger] is_stored_as(e[j], k, w)) ==> lookup(
            safe_attributes(e),
            k,
        ) == Some(v),
        lookup(safe_attributes(e), k) == Some(v) ==> exists|j: int|
            0 <= j < e.len() && is_stored_as(#[trigger] e[j], k, v),
    decreases e.len(),
{
    if e.len() == 0 {
        assert(keys(safe_attributes(e)) =~= Seq::empty());
    } else {
        let d = e.drop_last();
        let n = e.len() - 1;
        attributes_are_stored(d, i, k, v);
        sanitized_attributes_are_safe(d);
        assert(e[n] == e.last());
        if let Some((x, y)) = safe_entry(e.last()) {
            assert(is_stored_as(e[n], x, y));
            lemma_put(safe_attributes(d), x, y);
        }
        if 0 <= i < e.len() && is_stored_as(e[i], k, v) && (forall|j: int, w: JsonView|
            i < j < e.len() ==> !#[trigger] is_stored_as(e[j], k, w)) {
            if i < n {
                assert(d[i] == e[i]);
                assert forall|j: int, w: JsonView| i < j < d.len() implies !#[trigger] is_stored_as(
                    d[j],
                    k,
                    w,
                ) by {
                    assert(!is_stored_as(e[j], k, w));
                }
                if let Some((x, y)) = safe_entry(e.last()) {
                    assert(!is_stored_as(e[n], k, y));
                }
            } else {
                assert(safe_entry(e.last()) == Some((k, v)));
            }
        }
        if lookup(safe_attributes(e), k) == Some(v) {
            if safe_entry(e.last()) == Some((k, v)) {
                assert(is_stored_as(e[n], k, v));
            } else {
                assert(lookup(safe_attributes(d), k) == Some(v));
                let j = choose|j: int| 0 <= j < d.len() && is_stored_as(#[trigger] d[j], k, v);
                assert(is_stored_as(e[j], k, v));
            }
        }
    }
}

// ---------------------------------------------------------------------------
// Layers
// ---------------------------------------------------------------------------

/// The kind of a geometry: points, lines and areas, however many, and what is none of these.
pub proof fn kinds_are_told_apart(g: GeometryView)
    ensures
        g is Point || g is MultiPoint ==> kind_of(g) == "Point"@,
        g is Line || g is LineString || g is MultiLineString ==> kind_of(g) == "LineString"@,
        g is Polygon || g is MultiPolygon || g is Rect ==> kind_of(g) == "Polygon"@,
        g is Other ==> kind_of(g) == "Mixed"@,
{
}

/// A layer is drawn as circles where it holds points, as lines where it holds lines, and as areas
/// otherwise.
pub proof fn layers_are_drawn_by_kind(kind: Seq<char>)
    ensures
        style_for("Point"@).text_at("type"@) == Some("circle"@),
        style_for("LineString"@).text_at("type"@) == Some("line"@),
        kind != "Point"@ && kind != "LineString"@ ==> style_for(kind).text_at("type"@) == Some(
            "fill"@,
        ),
        style_for(kind).get("paint"@) is Some && style_for(kind).get("paint"@)->0 is Object,
{
    reveal_strlit("Point");
    reveal_strlit("LineString");
    assert("Point"@.len() == 5 && "LineString"@.len() == 10);
    assert forall|t: Seq<char>, p: Entries| #[trigger]
        style_out(t, p).text_at("type"@) == Some(t) && style_out(t, p).get("paint"@) == Some(
            JsonView::Object(p),
        ) by {
        reveal_strlit("type");
        reveal_strlit("paint");
        assert("type"@.len() == 4 && "paint"@.len() == 5);
        assert(keys(no_entries()) =~= Seq::empty());
        lemma_put(no_entries(), "type"@, str_json(t));
        lemma_put(put(no_entries(), "type"@, str_json(t)), "paint"@, JsonView::Object(p));
    }
    assert(style_for(kind) is Object);
    assert(style_for(kind).get("paint"@) is Some) by {
        let blue = str_json("#3388ff"@);
        if kind == "Point"@ {
            let e = put(no_entries(), "circle-radius"@, int_json(5));
            let e = put(e, "circle-color"@, blue);
            let p = put(e, "circle-opacity"@, crate::models::number_in("0.9"@));
            assert(style_for(kind) == style_out("circle"@, p));
            assert(style_out("circle"@, p).text_at("type"@) == Some("circle"@));
        } else if kind == "LineString"@ {
            let e = put(no_entries(), "line-color"@, blue);
            let e = put(e, "line-width"@, int_json(2));
            let p = put(e, "line-opacity"@, crate::models::number_in("0.9"@));
            assert(style_for(kind) == style_out("line"@, p));
            assert(style_out("line"@, p).text_at("type"@) == Some("line"@));
        } else {
            let e = put(no_entries(), "fill-color"@, blue);
            let p = put(e, "fill-opacity"@, crate::models::number_in("0.35"@));
            assert(style_for(kind) == style_out("fill"@, p));
            assert(style_out("fill"@, p).text_at("type"@) == Some("fill"@));
        }
    }
}

/// A layer node holds everything that it is made from.
pub proof fn a_layer_holds_its_settings(
    display_name: Seq<char>,
    geometry_type: Seq<char>,
    source: Seq<char>,
    style: JsonView,
    schema: JsonView,
    z: int,
)
    ensures
        ({
            let e = layer_properties(display_name, geometry_type, source, style, schema, z);
            &&& ascending(keys(e))
            &&& lookup(e, "display_name"@) == Some(JsonView::Str(display_name))
            &&& lookup(e, "geometry_type"@) == Some(JsonView::Str(geometry_type))
            &&& lookup(e, "source"@) == Some(JsonView::Str(source))
            &&& lookup(e, "style"@) == Some(style)
            &&& lookup(e, "schema"@) == Some(schema)
            &&& lookup(e, "z_order"@) == Some(int_json(z))
        }),
{
    reveal_strlit("display_name");
    reveal_strlit("geometry_type");
    reveal_strlit("source");
    reveal_strlit("style");
    reveal_strlit("schema");
    reveal_strlit("z_order");
    assert("display_name"@.len() == 12 && "geometry_type"@.len() == 13 && "source"@.len() == 6
        && "style"@.len() == 5 && "schema"@.len() == 6 && "z_order"@.len() == 7);
    assert("source"@[1] == 'o' && "schema"@[1] == 'c');
    assert(keys(no_entries()) =~= Seq::empty());
    let e0 = no_entries();
    lemma_put(e0, "display_name"@, str_json(display_name));
    let e1 = put(e0, "display_name"@, str_json(display_name));
    lemma_put(e1, "geometry_type"@, str_json(geometry_type));
    let e2 = put(e1, "geometry_type"@, str_json(geometry_type));
    lemma_put(e2, "source"@, str_json(source));
    let e3 = put(e2, "source"@, str_json(source));
    lemma_put(e3, "style"@, style);
    let e4 = put(e3, "style"@, style);
    lemma_put(e4, "schema"@, schema);
    let e5 = put(e4, "schema"@, schema);
    lemma_put(e5, "z_order"@, int_json(z));
}

// ---------------------------------------------------------------------------
// Search text
// ---------------------------------------------------------------------------

/// Joined texts stand one after the other with the separator between them.
pub proof fn joined_texts_stand_apart(parts: Seq<Seq<char>>, sep: Seq<char>)
    requires
        parts.len() > 0,
    ensures
        join(parts, sep) == parts[0] + parts.skip(1).map_values(
            |p: Seq<char>| sep + p,
        ).flatten(),
    decreases parts.len(),
{
    let f = |p: Seq<char>| sep + p;
    let rest = parts.skip(1).map_values(f);
    if parts.len() == 1 {
        assert(rest =~= Seq::empty());
        assert(rest.flatten() =~= Seq::empty());
        assert(join(parts, sep) =~= parts[0] + rest.flatten());
    } else {
        let d = parts.drop_last();
        joined_texts_stand_apart(d, sep);
        lemma_flatten_push(rest);
        assert(rest.drop_last() =~= d.skip(1).map_values(f));
        assert(rest.last() == sep + parts.last());
        assert(join(parts, sep) =~= parts[0] + rest.flatten());
    }
}

/// A key of an attribute that says nothing about what a node is.
pub open spec fn is_plumbing(k: Seq<char>) -> bool {
    ||| k.len() == 0
    ||| k == "geometry"@ || k == "layer_id"@ || k == "source_id"@ || k == "embedding"@
    ||| k == "OBJECTID"@ || k == "objectid"@ || k == "FID"@ || k == "fid"@ || k == "ID"@ || k
        == "id"@
    ||| k.len() >= 4 && k.take(4) == "min_"@
    ||| k.len() >= 4 && k.take(4) == "max_"@
}

/// Whether an attribute describes a node: its key is not plumbing, and its value is a text that is
/// not empty, a number or a truth value.
pub open spec fn describes(p: (Seq<char>, JsonView)) -> bool {
    !is_plumbing(p.0) && match p.1 {
        JsonView::Str(s) => s.len() > 0,
        JsonView::Number(_) => true,
        JsonView::Bool(_) => true,
        _ => false,
    }
}

/// A scalar as text.
pub open spec fn is_scalar_text(v: JsonView, t: Seq<char>) -> bool {
    match v {
        JsonView::Str(s) => t == s,
        JsonView::Number(n) => t == number_text(n),
        JsonView::Bool(b) => t == (if b {
            "true"@
        } else {
            "false"@
        }),
        _ => false,
    }
}

/// The text of an attribute in the search text: the first two hundred characters.
pub open spec fn is_attribute_text(p: (Seq<char>, JsonView), t: Seq<char>) -> bool {
    exists|whole: Seq<char>| #[trigger] is_scalar_text(p.1, whole) && t == beginning(whole, 200)
}

proof fn lemma_attribute_texts(e: Entries)
    ensures
        ({
            let good = e.filter(|p: (Seq<char>, JsonView)| describes(p));
            &&& attribute_texts(e).len() == good.len()
            &&& forall|i: int|
                0 <= i < good.len() ==> is_attribute_text(good[i], #[trigger] attribute_texts(e)[i])
        }),
    decreases e.len(),
{
    reveal(Seq::filter);
    let f = |p: (Seq<char>, JsonView)| describes(p);
    if e.len() > 0 {
        let d = e.drop_last();
        let p = e.last();
        lemma_attribute_texts(d);
        lemma_plumbing(p.0);
        if let Some(t) = text_of_scalar(p.1) {
            assert(is_scalar_text(p.1, t));
            assert(t.take(t.len() as int) =~= t);
            assert(searchable(t) == beginning(t, 200));
        }
        let good = e.filter(f);
        assert forall|i: int| 0 <= i < good.len() implies is_attribute_text(
            good[i],
            #[trigger] attribute_texts(e)[i],
        ) by {
            if i < d.filter(f).len() {
                assert(is_attribute_text(d.filter(f)[i], attribute_texts(d)[i]));
            }
        }
    }
}

proof fn lemma_plumbing(k: Seq<char>)
    ensures
        plumbing_key(k) <==> is_plumbing(k),
{
    reveal_strlit("min_");
    reveal_strlit("max_");
    assert("min_"@.len() == 4 && "max_"@.len() == 4);
}

proof fn lemma_nonempty(parts: Seq<Seq<char>>)
    ensures
        nonempty(parts) == parts.filter(|p: Seq<char>| p.len() > 0),
    decreases parts.len(),
{
    reveal(Seq::filter);
    if parts.len() > 0 {
        lemma_nonempty(parts.drop_last());
    } else {
        assert(nonempty(parts) =~= parts.filter(|p: Seq<char>| p.len() > 0));
    }
}

/// The text by which a node is found: its name, its class, its layer, then each attribute that
/// describes it, in order of the keys, none of them left out; empty texts aside.
pub proof fn a_node_is_found_by_all_that_describes_it(n: NodeView) -> (ts: Seq<Seq<char>>)
    ensures
        ({
            let good = n.properties.filter(|p: (Seq<char>, JsonView)| describes(p));
            &&& ts.len() == good.len()
            &&& forall|i: int| 0 <= i < ts.len() ==> is_attribute_text(good[i], #[trigger] ts[i])
        }),
        search_text(n) == join(
            (seq![n.name] + (match lookup(n.properties, "FOLDERPATH"@) {
                Some(JsonView::Str(c)) => seq![c],
                _ => Seq::empty(),
            }) + (match n.subtype {
                Some(l) => seq![l],
                None => Seq::empty(),
            }) + ts).filter(|p: Seq<char>| p.len() > 0),
            " | "@,
        ),
{
    let ts = attribute_texts(n.properties);
    lemma_attribute_texts(n.properties);
    let parts = seq![n.name] + as_list(n.text_at("FOLDERPATH"@)) + as_list(n.subtype) + ts;
    lemma_nonempty(parts);
    ts
}

} // verus!
