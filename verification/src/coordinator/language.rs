//! Queries in natural language: the prompt for a language model, and what is made of its answer.

use vstd::prelude::*;

use crate::actors::layer::{ClassCount, LayerInfo};
use crate::json::Json;
use crate::text::{chars_of, is_at, string_of, string_of_range, trimmed};
#[allow(unused_imports)]
use crate::actors::layer::{classes_view, infos_view, ClassView, InfoView};
#[allow(unused_imports)]
use crate::coordinator::features::opt_json;
#[allow(unused_imports)]
use crate::json::{lemma_json_view, opt_view, read_text, str_json, written, JsonView};
#[allow(unused_imports)]
use crate::text::{ends_with, stands_at, starts_with, trim};
#[allow(unused_imports)]
use crate::textmap::put;

verus! {

/// What the language model is told of the query language.
pub const INSTRUCTIONS: &'static str =
    "You translate a natural-language Singapore map query into one gis/query \
     request. Respond with ONLY a JSON object: {\"params\": {...}, \"summary\": \"...\"}.\n\n\
     gis/query params schema:\n\
     - predicate: \"bbox\" | \"radius\" | \"nearest\" | \"near_class\" | \"near_layer\" \
     (NEVER use contains/intersects — you cannot supply geometries)\n\
     - region: ALWAYS include region. For bbox use the \"current view bbox\" value below \
     when it is a 4-number array, otherwise the whole-of-Singapore default \
     {\"bbox\":[103.6,1.15,104.1,1.5]}. For radius {\"center\":[lng,lat],\"radius_m\":N}; \
     for nearest {\"center\":[lng,lat],\"k\":N}; for near_class/near_layer \
     {\"radius_m\":N,\"reference\":{\"classes\":[...] or \"layers\":[...]}} where \
     \"classes\" selects the reference feature class(es) (e.g. \"Layers/Major_Road\") and the \
     top-level \"layers\"/\"classes\" select the TARGET features\n\
     - layers/classes: arrays of layer/class keys from the catalog below. For a vague \
     concept like \"wooded recreation area\", pick the matching catalog layers \
     (e.g. \"parks\", \"nparks-nature-reserves\", \"tree-conservation-area\", \"park-connector-loop\") \
     and use predicate bbox.\n\
     - attributes: optional [{\"key\",\"op\",\"value\"}]\n\
     - limit: 200, output: \"features\"\n\n\
     Rules: \"parks near a main road\" => predicate near_class, top-level layers [\"parks\"], \
     region.reference.classes [\"Layers/Major_Road\"], radius 500. Prefer layer/class keys from \
     the catalog; never invent keys. When the user says \"here/this view\", use the current view \
     bbox below; otherwise default to the whole of Singapore.\n\n";

// ---------------------------------------------------------------------------
// The prompt
// ---------------------------------------------------------------------------

/// The classes of a layer in its line of the prompt.
pub open spec fn class_words(classes: Seq<ClassView>) -> Seq<char>
    decreases classes.len(),
{
    if classes.len() == 0 {
        Seq::empty()
    } else {
        class_words(classes.drop_last()) + " class \""@ + classes.last().key + "\""@
    }
}

/// The line of a layer in the prompt.
pub open spec fn layer_line(layer: InfoView) -> Seq<char> {
    "- layer \""@ + layer.name + "\""@ + class_words(layer.classes) + "\n"@
}

/// The lines of all layers.
pub open spec fn layer_lines(layers: Seq<InfoView>) -> Seq<char>
    decreases layers.len(),
{
    if layers.len() == 0 {
        Seq::empty()
    } else {
        layer_lines(layers.drop_last()) + layer_line(layers.last())
    }
}

/// The prompt for a query: the instructions, the catalog, the view and the words of the user.
pub open spec fn prompt_for(
    layers: Seq<InfoView>,
    viewport: JsonView,
    text: Seq<char>,
) -> Seq<char> {
    INSTRUCTIONS@ + "Available layers/classes:\n"@ + layer_lines(layers)
        + "\nCurrent view bbox: "@ + written(viewport) + "\nUser query: "@ + text + "\n"@
}

fn push_classes(line: &mut String, classes: &Vec<ClassCount>)
    ensures
        final(line)@ == old(line)@ + class_words(classes_view(classes@)),
{
    let n = classes.len();
    let ghost cs = classes_view(classes@);
    let ghost start = line@;
    let mut i: usize = 0;
    proof {
        assert(start + class_words(cs.take(0)) =~= start);
    }
    while i < n
        invariant
            i <= n,
            n == classes@.len(),
            cs == classes_view(classes@),
            line@ == start + class_words(cs.take(i as int)),
        decreases n - i,
    {
        proof {
            assert(cs.take(i + 1).drop_last() =~= cs.take(i as int));
            assert(cs.take(i + 1).last() == classes@[i as int]@);
        }
        line.append(" class \"");
        line.append(classes[i].key.as_str());
        line.append("\"");
        proof {
            assert(line@ =~= start + class_words(cs.take(i + 1)));
        }
        i += 1;
    }
    proof {
        assert(cs.take(n as int) =~= cs);
    }
}

/// The prompt for a query in natural language.
pub fn nl_prompt(layers: &Vec<LayerInfo>, viewport: &Json, text: &str) -> (r: String)
    ensures
        r@ == prompt_for(infos_view(layers@), viewport@, text@),
{
    let n = layers.len();
    let ghost ls = infos_view(layers@);
    let mut prompt = INSTRUCTIONS.to_owned();
    prompt.append("Available layers/classes:\n");
    let ghost head = prompt@;
    let mut i: usize = 0;
    proof {
        assert(head + layer_lines(ls.take(0)) =~= head);
    }
    while i < n
        invariant
            i <= n,
            n == layers@.len(),
            ls == infos_view(layers@),
            prompt@ == head + layer_lines(ls.take(i as int)),
        decreases n - i,
    {
        proof {
            assert(ls.take(i + 1).drop_last() =~= ls.take(i as int));
            assert(ls.take(i + 1).last() == layers@[i as int]@);
        }
        let mut line = "- layer \"".to_owned();
        line.append(layers[i].name.as_str());
        line.append("\"");
        push_classes(&mut line, &layers[i].classes);
        line.append("\n");
        prompt.append(line.as_str());
        proof {
            assert(line@ == layer_line(ls[i as int]));
            assert(prompt@ =~= head + layer_lines(ls.take(i + 1)));
        }
        i += 1;
    }
    proof {
        assert(ls.take(n as int) =~= ls);
    }
    prompt.append("\nCurrent view bbox: ");
    prompt.append(viewport.to_text().as_str());
    prompt.append("\nUser query: ");
    prompt.append(text);
    prompt.append("\n");
    prompt
}

// ---------------------------------------------------------------------------
// Finding the JSON in an answer
// ---------------------------------------------------------------------------

/// The text without any repetition of a beginning.
pub open spec fn strip_starts(s: Seq<char>, p: Seq<char>) -> Seq<char>
    decreases s.len(),
{
    if p.len() > 0 && starts_with(s, p) {
        strip_starts(s.skip(p.len() as int), p)
    } else {
        s
    }
}

/// The text without any repetition of an ending.
pub open spec fn strip_ends(s: Seq<char>, p: Seq<char>) -> Seq<char>
    decreases s.len(),
{
    if p.len() > 0 && ends_with(s, p) {
        strip_ends(s.take(s.len() - p.len()), p)
    } else {
        s
    }
}

/// The text without code fences around it.
pub open spec fn unfenced(t: Seq<char>) -> Seq<char> {
    trim(strip_ends(strip_starts(strip_starts(t, "```json"@), "```"@), "```"@))
}

/// The place of the first opening brace from a place on.
pub open spec fn next_brace(s: Seq<char>, from: int) -> Option<int>
    decreases s.len() - from,
{
    if from < 0 || from >= s.len() {
        None
    } else if s[from] == '{' {
        Some(from)
    } else {
        next_brace(s, from + 1)
    }
}

/// The place behind the brace that closes all that are open. Braces inside a JSON string do not
/// count; `quoted` says that a string is open, `escaped` that a backslash stands before.
pub open spec fn balanced_end(
    s: Seq<char>,
    i: int,
    depth: int,
    quoted: bool,
    escaped: bool,
) -> Option<int>
    decreases s.len() - i,
{
    if i < 0 || i >= s.len() {
        None
    } else if quoted {
        if escaped {
            balanced_end(s, i + 1, depth, true, false)
        } else {
            balanced_end(s, i + 1, depth, s[i] != '"', s[i] == '\\')
        }
    } else if s[i] == '"' {
        balanced_end(s, i + 1, depth, true, false)
    } else if s[i] == '{' {
        balanced_end(s, i + 1, depth + 1, false, false)
    } else if s[i] == '}' {
        if depth == 1 {
            Some(i + 1)
        } else {
            balanced_end(s, i + 1, depth - 1, false, false)
        }
    } else {
        balanced_end(s, i + 1, depth, false, false)
    }
}

pub proof fn lemma_next_brace(s: Seq<char>, from: int)
    ensures
        next_brace(s, from) matches Some(i) ==> from <= i < s.len() && 0 <= i && s[i] == '{',
    decreases s.len() - from,
{
    if 0 <= from < s.len() && s[from] != '{' {
        lemma_next_brace(s, from + 1);
    }
}

/// The object that stands at an opening brace: the text up to the brace that balances it, where
/// it can be read.
pub open spec fn object_at(s: Seq<char>, start: int) -> Option<JsonView> {
    match balanced_end(s, start, 0, false, false) {
        Some(end) => match read_text(s.subrange(start, end)) {
            Ok(v) => Some(v),
            Err(_) => None,
        },
        None => None,
    }
}

/// The first balanced object from a place on that can be read.
pub open spec fn first_object(s: Seq<char>, from: int) -> Option<JsonView>
    decreases s.len() - from,
{
    match next_brace(s, from) {
        None => None,
        Some(start) => match object_at(s, start) {
            Some(v) => Some(v),
            None => {
                proof {
                    lemma_next_brace(s, from);
                }
                first_object(s, start + 1)
            },
        },
    }
}

/// The JSON in an answer: the whole of it, what stands between code fences, or the first balanced
/// object that can be read.
pub open spec fn json_in(answer: Seq<char>) -> Option<JsonView> {
    let t = trim(answer);
    match read_text(t) {
        Ok(v) => Some(v),
        Err(_) => {
            let u = unfenced(t);
            match read_text(u) {
                Ok(v) => Some(v),
                Err(_) => first_object(u, 0),
            }
        },
    }
}

fn drop_starts(s: Vec<char>, p: &Vec<char>) -> (r: Vec<char>)
    requires
        p@.len() > 0,
    ensures
        r@ == strip_starts(s@, p@),
{
    let n = s.len();
    let m = p.len();
    let mut from: usize = 0;
    proof {
        assert(s@.skip(0) =~= s@);
    }
    while is_at(&s, p, from)
        invariant
            from <= n,
            n == s@.len(),
            m == p@.len(),
            m > 0,
            strip_starts(s@, p@) == strip_starts(s@.skip(from as int), p@),
        decreases n - from,
    {
        proof {
            let t = s@.skip(from as int);
            assert(t.take(m as int) =~= s@.subrange(from as int, from + m));
            assert(starts_with(t, p@));
            assert(t.skip(m as int) =~= s@.skip(from + m));
        }
        from = from + m;
    }
    proof {
        let t = s@.skip(from as int);
        if starts_with(t, p@) {
            assert(t.take(m as int) =~= s@.subrange(from as int, from + m));
            assert(stands_at(s@, p@, from as int));
        }
    }
    tail_of(&s, from, n)
}

fn tail_of(s: &Vec<char>, from: usize, to: usize) -> (r: Vec<char>)
    requires
        from <= to <= s@.len(),
    ensures
        r@ == s@.subrange(from as int, to as int),
        to == s@.len() ==> r@ == s@.skip(from as int),
        from == 0 ==> r@ == s@.take(to as int),
{
    let mut out: Vec<char> = Vec::new();
    let mut i: usize = from;
    while i < to
        invariant
            from <= i <= to <= s@.len(),
            out@ == s@.subrange(from as int, i as int),
        decreases to - i,
    {
        out.push(s[i]);
        i += 1;
        proof {
            assert(out@ =~= s@.subrange(from as int, i as int));
        }
    }
    proof {
        assert(to == s@.len() ==> out@ =~= s@.skip(from as int));
        assert(from == 0 ==> out@ =~= s@.take(to as int));
    }
    out
}

fn drop_ends(s: Vec<char>, p: &Vec<char>) -> (r: Vec<char>)
    requires
        p@.len() > 0,
    ensures
        r@ == strip_ends(s@, p@),
{
    let n = s.len();
    let m = p.len();
    let mut to: usize = n;
    proof {
        assert(s@.take(n as int) =~= s@);
    }
    while to >= m && is_at(&s, p, to - m)
        invariant
            to <= n,
            n == s@.len(),
            m == p@.len(),
            m > 0,
            strip_ends(s@, p@) == strip_ends(s@.take(to as int), p@),
        decreases to,
    {
        proof {
            let t = s@.take(to as int);
            assert(t.skip(to - m) =~= s@.subrange(to - m, to as int));
            assert(ends_with(t, p@));
            assert(t.take(to - m) =~= s@.take(to - m));
        }
        to = to - m;
    }
    proof {
        let t = s@.take(to as int);
        if ends_with(t, p@) {
            assert(t.skip(to - m) =~= s@.subrange(to - m, to as int));
            assert(stands_at(s@, p@, to - m));
        }
    }
    tail_of(&s, 0, to)
}

fn unfence(t: &str) -> (r: String)
    ensures
        r@ == unfenced(t@),
{
    proof {
        reveal_strlit("```json");
        reveal_strlit("```");
    }
    let tagged = chars_of("```json");
    let fence = chars_of("```");
    let s = drop_starts(chars_of(t), &tagged);
    let s = drop_starts(s, &fence);
    let s = drop_ends(s, &fence);
    trimmed(string_of(&s).as_str())
}

fn find_brace(s: &Vec<char>, from: usize) -> (r: Option<usize>)
    requires
        from <= s@.len(),
    ensures
        match r {
            Some(i) => next_brace(s@, from as int) == Some(i as int) && from <= i < s@.len(),
            None => next_brace(s@, from as int) is None,
        },
{
    let n = s.len();
    let mut i: usize = from;
    while i < n
        invariant
            from <= i <= n,
            n == s@.len(),
            next_brace(s@, from as int) == next_brace(s@, i as int),
        decreases n - i,
    {
        if s[i] == '{' {
            return Some(i);
        }
        i += 1;
    }
    None
}

fn find_end(s: &Vec<char>, start: usize) -> (r: Option<usize>)
    requires
        start < s@.len(),
        s@[start as int] == '{',
    ensures
        match r {
            Some(e) => balanced_end(s@, start as int, 0, false, false) == Some(e as int) && start
                < e <= s@.len(),
            None => balanced_end(s@, start as int, 0, false, false) is None,
        },
{
    let n = s.len();
    let mut depth: usize = 1;
    let mut quoted = false;
    let mut escaped = false;
    let mut i: usize = start + 1;
    while i < n
        invariant
            start < i <= n,
            n == s@.len(),
            1 <= depth <= i - start,
            balanced_end(s@, start as int, 0, false, false) == balanced_end(
                s@,
                i as int,
                depth as int,
                quoted,
                escaped,
            ),
            escaped ==> quoted,
        decreases n - i,
    {
        let c = s[i];
        if quoted {
            if escaped {
                escaped = false;
            } else {
                quoted = c != '"';
                escaped = c == '\\';
            }
        } else if c == '"' {
            quoted = true;
        } else if c == '{' {
            depth += 1;
        } else if c == '}' {
            if depth == 1 {
                return Some(i + 1);
            }
            depth -= 1;
        }
        i += 1;
    }
    None
}

fn find_object(s: &Vec<char>) -> (r: Option<Json>)
    ensures
        opt_json(r) == first_object(s@, 0),
{
    let n = s.len();
    let mut from: usize = 0;
    loop
        invariant
            from <= n,
            n == s@.len(),
            first_object(s@, 0) == first_object(s@, from as int),
        decreases n - from,
    {
        let start = match find_brace(s, from) {
            Some(i) => i,
            None => {
                return None;
            },
        };
        proof {
            lemma_next_brace(s@, from as int);
        }
        match find_end(s, start) {
            Some(end) => {
                let part = string_of_range(s, start, end);
                match Json::parse(part.as_str()) {
                    Ok(v) => {
                        return Some(v);
                    },
                    Err(_) => {},
                }
            },
            None => {},
        }
        from = start + 1;
    }
}

/// Finds the JSON in the answer of a language model, which may stand between code fences or in
/// the middle of prose.
pub fn extract_json_object(answer: &str) -> (r: Option<Json>)
    ensures
        opt_json(r) == json_in(answer@),
{
    let t = trimmed(answer);
    match Json::parse(t.as_str()) {
        Ok(v) => {
            return Some(v);
        },
        Err(_) => {},
    }
    let u = unfence(t.as_str());
    match Json::parse(u.as_str()) {
        Ok(v) => {
            return Some(v);
        },
        Err(_) => {},
    }
    let chars = chars_of(u.as_str());
    find_object(&chars)
}

// ---------------------------------------------------------------------------
// What an answer asks for
// ---------------------------------------------------------------------------

/// What to do with an answer: nothing, or to run a query and add a summary to its result.
#[derive(Debug, PartialEq)]
pub enum NlPlan {
    Fallback,
    Run { params: Json, summary: Option<String> },
}

pub enum NlPlanView {
    Fallback,
    Run { params: JsonView, summary: Option<Seq<char>> },
}

impl View for NlPlan {
    type V = NlPlanView;

    open spec fn view(&self) -> NlPlanView {
        match self {
            NlPlan::Fallback => NlPlanView::Fallback,
            NlPlan::Run { params, summary } => NlPlanView::Run {
                params: params@,
                summary: opt_view(*summary),
            },
        }
    }
}

/// What the JSON of an answer asks for.
pub open spec fn plan_in(parsed: Option<JsonView>) -> Result<NlPlanView, Seq<char>> {
    match parsed {
        None => Err("nl-query: LLM returned no parseable JSON"@),
        Some(p) => if p.get("fallback"@) == Some(JsonView::Bool(true)) {
            Ok(NlPlanView::Fallback)
        } else {
            match p.get("params"@) {
                None => Err("nl-query: LLM JSON missing 'params'"@),
                Some(params) => match params.text_at("predicate"@) {
                    None => Err("nl-query: LLM params missing 'predicate'"@),
                    Some(_) => Ok(NlPlanView::Run { params, summary: p.text_at("summary"@) }),
                },
            }
        },
    }
}

pub open spec fn plan_result(r: Result<NlPlan, String>) -> Result<NlPlanView, Seq<char>> {
    match r {
        Ok(p) => Ok(p@),
        Err(e) => Err(e@),
    }
}

/// What the JSON of an answer asks for.
pub fn interpret(parsed: &Option<Json>) -> (r: Result<NlPlan, String>)
    ensures
        plan_result(r) == plan_in(opt_json(*parsed)),
{
    broadcast use lemma_json_view;

    let p = match parsed {
        Some(p) => p,
        None => {
            return Err("nl-query: LLM returned no parseable JSON".to_owned());
        },
    };
    let fallback = match p.get("fallback") {
        Some(v) => match v.as_bool() {
            Some(b) => b,
            None => false,
        },
        None => false,
    };
    if fallback {
        return Ok(NlPlan::Fallback);
    }
    let params = match p.get("params") {
        Some(v) => v,
        None => {
            return Err("nl-query: LLM JSON missing 'params'".to_owned());
        },
    };
    match params.text_at("predicate") {
        None => Err("nl-query: LLM params missing 'predicate'".to_owned()),
        Some(_) => Ok(
            NlPlan::Run {
                params: params.copy(),
                summary: match p.text_at("summary") {
                    Some(s) => Some(s.clone()),
                    None => None,
                },
            },
        ),
    }
}

/// What the answer of a language model asks for.
pub fn interpret_answer(answer: &str) -> (r: Result<NlPlan, String>)
    ensures
        plan_result(r) == plan_in(json_in(answer@)),
{
    let parsed = extract_json_object(answer);
    interpret(&parsed)
}

/// The result of a query with the summary of the language model, marked as coming from it.
pub open spec fn summarized(result: JsonView, summary: Option<Seq<char>>) -> JsonView {
    match result {
        JsonView::Object(e) => {
            let e = match summary {
                Some(s) => put(e, "summary"@, str_json(s)),
                None => e,
            };
            JsonView::Object(put(e, "source"@, str_json("llm"@)))
        },
        other => other,
    }
}

/// Adds the summary of the language model to the result of a query.
pub fn with_summary(result: Json, summary: &Option<String>) -> (r: Json)
    ensures
        r@ == summarized(result@, opt_view(*summary)),
{
    broadcast use lemma_json_view;

    match result {
        Json::Object(o) => {
            let mut o = o;
            match summary {
                Some(s) => {
                    o.set("summary", Json::text(s.as_str()));
                },
                None => {},
            }
            o.set("source", Json::text("llm"));
            Json::Object(o)
        },
        other => other,
    }
}

} // verus!
