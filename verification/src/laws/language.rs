//! Queries in natural language: what the language model is told, and what is taken from its
//! answer.

use vstd::prelude::*;

#[allow(unused_imports)]
use crate::actors::layer::{ClassView, InfoView};
#[allow(unused_imports)]
use crate::coordinator::language::{
    balanced_end, class_words, first_object, json_in, layer_line, layer_lines, lemma_next_brace,
    next_brace, object_at, plan_in, prompt_for, strip_ends, strip_starts, summarized, unfenced,
    NlPlanView, INSTRUCTIONS,
};
#[allow(unused_imports)]
use crate::coordinator::request::query_in;
#[allow(unused_imports)]
use crate::coordinator::route::{nl_step, FinishView, NlStepView, QueryRunView};
#[allow(unused_imports)]
use crate::json::{read_text, str_json, written, Entries, JsonView};
#[allow(unused_imports)]
use crate::laws::merging::lemma_flatten_push;
#[allow(unused_imports)]
use crate::text::{ends_with, starts_with, trim};
#[allow(unused_imports)]
use crate::textmap::{ascending, keys, lemma_put, lookup, put};

verus! {

// ---------------------------------------------------------------------------
// The prompt
// ---------------------------------------------------------------------------

/// The line of a prompt about a layer: its name and the key of each of its classes, in order.
pub open spec fn is_line_about(line: Seq<char>, layer: InfoView) -> bool {
    exists|words: Seq<Seq<char>>| #[trigger]
        are_words(words, layer.classes) && line == "- layer \""@ + layer.name + "\""@
            + words.flatten() + "\n"@
}

/// The words about classes, one for each.
pub open spec fn are_words(words: Seq<Seq<char>>, classes: Seq<ClassView>) -> bool {
    words.len() == classes.len() && forall|i: int|
        0 <= i < words.len() ==> #[trigger] words[i] == " class \""@ + classes[i].key + "\""@
}

/// The lines about layers, one for each.
pub open spec fn are_lines(lines: Seq<Seq<char>>, layers: Seq<InfoView>) -> bool {
    lines.len() == layers.len() && forall|i: int|
        0 <= i < lines.len() ==> is_line_about(#[trigger] lines[i], layers[i])
}

proof fn lemma_words(classes: Seq<ClassView>) -> (words: Seq<Seq<char>>)
    ensures
        are_words(words, classes),
        class_words(classes) == words.flatten(),
    decreases classes.len(),
{
    if classes.len() == 0 {
        let words = Seq::<Seq<char>>::empty();
        assert(class_words(classes) =~= words.flatten());
        words
    } else {
        let before = lemma_words(classes.drop_last());
        let word = " class \""@ + classes.last().key + "\""@;
        let words = before.push(word);
        lemma_flatten_push(words);
        assert(words.drop_last() =~= before);
        assert(class_words(classes) =~= words.flatten());
        assert forall|i: int| 0 <= i < words.len() implies #[trigger] words[i] == " class \""@
            + classes[i].key + "\""@ by {
            if i < before.len() {
                assert(before[i] == " class \""@ + classes.drop_last()[i].key + "\""@);
            }
        }
        words
    }
}

proof fn lemma_lines(layers: Seq<InfoView>) -> (lines: Seq<Seq<char>>)
    ensures
        are_lines(lines, layers),
        layer_lines(layers) == lines.flatten(),
    decreases layers.len(),
{
    if layers.len() == 0 {
        let lines = Seq::<Seq<char>>::empty();
        assert(layer_lines(layers) =~= lines.flatten());
        lines
    } else {
        let before = lemma_lines(layers.drop_last());
        let line = layer_line(layers.last());
        let words = lemma_words(layers.last().classes);
        assert(are_words(words, layers.last().classes));
        assert(is_line_about(line, layers.last()));
        let lines = before.push(line);
        lemma_flatten_push(lines);
        assert(lines.drop_last() =~= before);
        assert forall|i: int| 0 <= i < lines.len() implies is_line_about(
            #[trigger] lines[i],
            layers[i],
        ) by {
            if i < before.len() {
                assert(is_line_about(before[i], layers.drop_last()[i]));
            }
        }
        lines
    }
}

/// The prompt has a line about every layer of the catalog, in order, between the instructions and
/// what is shown and asked.
pub proof fn the_prompt_tells_of_every_layer(
    layers: Seq<InfoView>,
    viewport: JsonView,
    text: Seq<char>,
) -> (lines: Seq<Seq<char>>)
    ensures
        are_lines(lines, layers),
        prompt_for(layers, viewport, text) == INSTRUCTIONS@ + "Available layers/classes:\n"@
            + lines.flatten() + "\nCurrent view bbox: "@ + written(viewport) + "\nUser query: "@
            + text + "\n"@,
{
    lemma_lines(layers)
}

// ---------------------------------------------------------------------------
// The answer
// ---------------------------------------------------------------------------

/// An answer that is JSON is taken as it is, white space around it aside.
pub proof fn a_json_answer_is_taken(answer: Seq<char>, v: JsonView)
    requires
        read_text(trim(answer)) == Ok::<JsonView, Seq<char>>(v),
    ensures
        json_in(answer) == Some(v),
{
}

/// An answer in a code fence is taken without the fence.
pub proof fn a_fenced_answer_is_taken(answer: Seq<char>, body: Seq<char>, v: JsonView)
    requires
        trim(answer) == "```json"@ + body + "```"@,
        body.len() > 0,
        body[0] != '`',
        body.last() != '`',
        read_text(trim(answer)) is Err,
        read_text(trim(body)) == Ok::<JsonView, Seq<char>>(v),
    ensures
        json_in(answer) == Some(v),
{
    reveal_strlit("```json");
    reveal_strlit("```");
    let t = trim(answer);
    let open = "```json"@;
    let shut = "```"@;
    let rest = body + shut;
    assert(t =~= open + rest);
    assert(t.take(open.len() as int) =~= open);
    assert(t.skip(open.len() as int) =~= rest);
    assert(rest[0] == body[0]);
    assert(open[0] == '`' && shut[0] == '`');
    assert(!starts_with(rest, open)) by {
        if starts_with(rest, open) {
            assert(rest.take(open.len() as int)[0] == rest[0]);
        }
    }
    reveal_with_fuel(strip_starts, 3);
    assert(strip_starts(t, open) == rest);
    assert(!starts_with(rest, shut)) by {
        if starts_with(rest, shut) {
            assert(rest.take(shut.len() as int)[0] == rest[0]);
        }
    }
    assert(strip_starts(rest, shut) == rest);
    assert(rest.skip(rest.len() - shut.len()) =~= shut);
    assert(rest.take(rest.len() - shut.len()) =~= body);
    assert(shut.len() == 3 && shut[2] == '`');
    assert(!ends_with(body, shut)) by {
        if ends_with(body, shut) {
            assert(body.skip(body.len() - 3)[2] == body.last());
        }
    }
    reveal_with_fuel(strip_ends, 3);
    assert(strip_ends(rest, shut) == body);
}

proof fn lemma_brace_behind(p: Seq<char>, s: Seq<char>, from: int)
    requires
        0 <= from <= p.len(),
        forall|i: int| 0 <= i < p.len() ==> #[trigger] p[i] != '{',
    ensures
        next_brace(p + s, from) == next_brace(p + s, p.len() as int),
    decreases p.len() - from,
{
    if from < p.len() {
        assert((p + s)[from] == p[from]);
        lemma_brace_behind(p, s, from + 1);
    }
}

proof fn lemma_next_shifted(p: Seq<char>, s: Seq<char>, i: int)
    requires
        0 <= i,
    ensures
        next_brace(p + s, p.len() + i) == match next_brace(s, i) {
            Some(j) => Some(p.len() + j),
            None => None,
        },
    decreases s.len() - i,
{
    if i < s.len() {
        assert((p + s)[p.len() + i] == s[i]);
        if s[i] != '{' {
            lemma_next_shifted(p, s, i + 1);
        }
    }
}

proof fn lemma_end_shifted(p: Seq<char>, s: Seq<char>, i: int, depth: int, q: bool, e: bool)
    requires
        0 <= i,
    ensures
        balanced_end(p + s, p.len() + i, depth, q, e) == match balanced_end(s, i, depth, q, e) {
            Some(j) => Some(p.len() + j),
            None => None,
        },
        balanced_end(s, i, depth, q, e) matches Some(j) ==> i < j <= s.len(),
    decreases s.len() - i,
{
    if i < s.len() {
        assert((p + s)[p.len() + i] == s[i]);
        if q {
            if e {
                lemma_end_shifted(p, s, i + 1, depth, true, false);
            } else {
                lemma_end_shifted(p, s, i + 1, depth, s[i] != '"', s[i] == '\\');
            }
        } else if s[i] == '"' {
            lemma_end_shifted(p, s, i + 1, depth, true, false);
        } else if s[i] == '{' {
            lemma_end_shifted(p, s, i + 1, depth + 1, false, false);
        } else if s[i] == '}' {
            if depth != 1 {
                lemma_end_shifted(p, s, i + 1, depth - 1, false, false);
            }
        } else {
            lemma_end_shifted(p, s, i + 1, depth, false, false);
        }
    }
}

proof fn lemma_first_shifted(p: Seq<char>, s: Seq<char>, i: int)
    requires
        0 <= i,
    ensures
        first_object(p + s, p.len() + i) == first_object(s, i),
    decreases s.len() - i,
{
    lemma_next_shifted(p, s, i);
    lemma_next_brace(s, i);
    if let Some(j) = next_brace(s, i) {
        lemma_end_shifted(p, s, j, 0, false, false);
        if let Some(end) = balanced_end(s, j, 0, false, false) {
            assert((p + s).subrange(p.len() + j, p.len() + end) =~= s.subrange(j, end));
        }
        assert(object_at(p + s, p.len() + j) == object_at(s, j));
        if object_at(s, j) is None {
            lemma_first_shifted(p, s, j + 1);
        }
    }
}

/// What stands before the first brace is passed over: the object is the same without it.
pub proof fn words_before_an_object_are_passed_over(p: Seq<char>, s: Seq<char>)
    requires
        forall|i: int| 0 <= i < p.len() ==> #[trigger] p[i] != '{',
    ensures
        first_object(p + s, 0) == first_object(s, 0),
{
    lemma_brace_behind(p, s, 0);
    lemma_first_shifted(p, s, 0);
    lemma_next_brace(p + s, 0);
    assert(first_object(p + s, 0) == first_object(p + s, p.len() as int));
}

proof fn lemma_end_kept(s: Seq<char>, t: Seq<char>, i: int, depth: int, q: bool, e: bool)
    requires
        balanced_end(s, i, depth, q, e) is Some,
    ensures
        balanced_end(s + t, i, depth, q, e) == balanced_end(s, i, depth, q, e),
        balanced_end(s, i, depth, q, e)->0 <= s.len(),
        i < balanced_end(s, i, depth, q, e)->0,
    decreases s.len() - i,
{
    assert((s + t)[i] == s[i]);
    if q {
        if e {
            lemma_end_kept(s, t, i + 1, depth, true, false);
        } else {
            lemma_end_kept(s, t, i + 1, depth, s[i] != '"', s[i] == '\\');
        }
    } else if s[i] == '"' {
        lemma_end_kept(s, t, i + 1, depth, true, false);
    } else if s[i] == '{' {
        lemma_end_kept(s, t, i + 1, depth + 1, false, false);
    } else if s[i] == '}' {
        if depth != 1 {
            lemma_end_kept(s, t, i + 1, depth - 1, false, false);
        }
    } else {
        lemma_end_kept(s, t, i + 1, depth, false, false);
    }
}

/// A text that is one object from its first brace to the brace that closes it.
pub open spec fn is_balanced(s: Seq<char>) -> bool {
    s.len() > 0 && s[0] == '{' && balanced_end(s, 0, 0, false, false) == Some(s.len() as int)
}

/// What stands behind an object is passed over: the object that starts at once is taken.
pub proof fn words_behind_an_object_are_passed_over(s: Seq<char>, t: Seq<char>, v: JsonView)
    requires
        is_balanced(s),
        read_text(s) == Ok::<JsonView, Seq<char>>(v),
    ensures
        first_object(s + t, 0) == Some(v),
{
    lemma_end_kept(s, t, 0, 0, false, false);
    assert((s + t)[0] == '{');
    assert(next_brace(s + t, 0) == Some(0int));
    assert((s + t).subrange(0, s.len() as int) =~= s);
}

/// An object in the middle of an answer is taken.
pub proof fn an_object_among_words_is_taken(
    answer: Seq<char>,
    p: Seq<char>,
    s: Seq<char>,
    t: Seq<char>,
    v: JsonView,
)
    requires
        read_text(trim(answer)) is Err,
        unfenced(trim(answer)) == p + (s + t),
        read_text(unfenced(trim(answer))) is Err,
        forall|i: int| 0 <= i < p.len() ==> #[trigger] p[i] != '{',
        is_balanced(s),
        read_text(s) == Ok::<JsonView, Seq<char>>(v),
    ensures
        json_in(answer) == Some(v),
{
    words_behind_an_object_are_passed_over(s, t, v);
    words_before_an_object_are_passed_over(p, s + t);
}

/// A text that leaves the depth of braces as it is: scanning goes on behind it as before it.
pub open spec fn is_level(w: Seq<char>) -> bool {
    forall|p: Seq<char>, s: Seq<char>, depth: int|
        depth >= 1 ==> #[trigger] balanced_end(p + w + s, p.len() as int, depth, false, false)
            == balanced_end(p + w + s, (p.len() + w.len()) as int, depth, false, false)
}

proof fn lemma_plain(p: Seq<char>, w: Seq<char>, s: Seq<char>, k: int, depth: int)
    requires
        0 <= k <= w.len(),
        forall|i: int|
            0 <= i < w.len() ==> #[trigger] w[i] != '"' && w[i] != '{' && w[i] != '}',
    ensures
        balanced_end(p + w + s, p.len() + k, depth, false, false) == balanced_end(
            p + w + s,
            (p.len() + w.len()) as int,
            depth,
            false,
            false,
        ),
    decreases w.len() - k,
{
    if k < w.len() {
        assert((p + w + s)[p.len() + k] == w[k]);
        lemma_plain(p, w, s, k + 1, depth);
    }
}

/// Words without quotes and braces do not change the depth.
pub proof fn plain_words_are_level(w: Seq<char>)
    requires
        forall|i: int|
            0 <= i < w.len() ==> #[trigger] w[i] != '"' && w[i] != '{' && w[i] != '}',
    ensures
        is_level(w),
{
    assert forall|p: Seq<char>, s: Seq<char>, depth: int| depth >= 1 implies #[trigger] balanced_end(
        p + w + s,
        p.len() as int,
        depth,
        false,
        false,
    ) == balanced_end(p + w + s, (p.len() + w.len()) as int, depth, false, false) by {
        lemma_plain(p, w, s, 0, depth);
    }
}

proof fn lemma_quoted(p: Seq<char>, w: Seq<char>, s: Seq<char>, k: int, depth: int)
    requires
        0 <= k <= w.len(),
        forall|i: int| 0 <= i < w.len() ==> #[trigger] w[i] != '"' && w[i] != '\\',
    ensures
        balanced_end(p + w + s, p.len() + k, depth, true, false) == balanced_end(
            p + w + s,
            (p.len() + w.len()) as int,
            depth,
            true,
            false,
        ),
    decreases w.len() - k,
{
    if k < w.len() {
        assert((p + w + s)[p.len() + k] == w[k]);
        lemma_quoted(p, w, s, k + 1, depth);
    }
}

/// Braces inside a quoted text do not count.
pub proof fn quoted_braces_do_not_count(w: Seq<char>)
    requires
        forall|i: int| 0 <= i < w.len() ==> #[trigger] w[i] != '"' && w[i] != '\\',
    ensures
        is_level(seq!['"'] + w + seq!['"']),
{
    let q = seq!['"'];
    let all = q + w + q;
    assert forall|p: Seq<char>, s: Seq<char>, depth: int| depth >= 1 implies #[trigger] balanced_end(
        p + all + s,
        p.len() as int,
        depth,
        false,
        false,
    ) == balanced_end(p + all + s, (p.len() + all.len()) as int, depth, false, false) by {
        let t = p + all + s;
        assert(t[p.len() as int] == '"');
        assert(t =~= (p + q) + w + (q + s));
        lemma_quoted(p + q, w, q + s, 0, depth);
        assert(t[p.len() as int + 1 + w.len()] == '"');
    }
}

/// Level texts, one after the other, are level.
pub proof fn level_texts_join(a: Seq<char>, b: Seq<char>)
    requires
        is_level(a),
        is_level(b),
    ensures
        is_level(a + b),
{
    assert forall|p: Seq<char>, s: Seq<char>, depth: int| depth >= 1 implies #[trigger] balanced_end(
        p + (a + b) + s,
        p.len() as int,
        depth,
        false,
        false,
    ) == balanced_end(p + (a + b) + s, (p.len() + (a + b).len()) as int, depth, false, false) by {
        let t = p + (a + b) + s;
        assert(t =~= p + a + (b + s));
        assert(t =~= (p + a) + b + s);
        assert(balanced_end(p + a + (b + s), p.len() as int, depth, false, false) == balanced_end(
            p + a + (b + s),
            (p.len() + a.len()) as int,
            depth,
            false,
            false,
        ));
        assert(balanced_end((p + a) + b + s, (p + a).len() as int, depth, false, false)
            == balanced_end((p + a) + b + s, ((p + a).len() + b.len()) as int, depth, false, false));
    }
}

/// A level text in braces is an object from brace to brace, and is level itself.
pub proof fn braces_close_what_they_open(w: Seq<char>)
    requires
        is_level(w),
    ensures
        is_balanced(seq!['{'] + w + seq!['}']),
        is_level(seq!['{'] + w + seq!['}']),
{
    let (o, c) = (seq!['{'], seq!['}']);
    let all = o + w + c;
    assert(balanced_end(all, 0, 0, false, false) == balanced_end(all, 1, 1, false, false));
    assert(balanced_end(o + w + c, o.len() as int, 1, false, false) == balanced_end(
        o + w + c,
        (o.len() + w.len()) as int,
        1,
        false,
        false,
    ));
    assert(all[1 + w.len() as int] == '}');
    assert forall|p: Seq<char>, s: Seq<char>, depth: int| depth >= 1 implies #[trigger] balanced_end(
        p + all + s,
        p.len() as int,
        depth,
        false,
        false,
    ) == balanced_end(p + all + s, (p.len() + all.len()) as int, depth, false, false) by {
        let t = p + all + s;
        assert(t[p.len() as int] == '{');
        assert(t =~= (p + o) + w + (c + s));
        assert(balanced_end(
            (p + o) + w + (c + s),
            (p + o).len() as int,
            depth + 1,
            false,
            false,
        ) == balanced_end(
            (p + o) + w + (c + s),
            ((p + o).len() + w.len()) as int,
            depth + 1,
            false,
            false,
        ));
        assert(t[p.len() as int + 1 + w.len()] == '}');
    }
}

// ---------------------------------------------------------------------------
// What is done with the answer
// ---------------------------------------------------------------------------

/// An answer that asks for the plain search is followed; any other has to hold parameters with a
/// predicate, which are then run as they stand, and its summary goes with them.
pub proof fn an_answer_is_a_query_or_a_fallback(p: JsonView)
    ensures
        plan_in(None) is Err,
        p.get("fallback"@) == Some(JsonView::Bool(true)) ==> plan_in(Some(p)) == Ok::<
            NlPlanView,
            Seq<char>,
        >(NlPlanView::Fallback),
        p.get("fallback"@) != Some(JsonView::Bool(true)) && p.get("params"@) is None ==> plan_in(
            Some(p),
        ) is Err,
        p.get("fallback"@) != Some(JsonView::Bool(true)) && p.get("params"@) is Some && p.get(
            "params"@,
        )->0.text_at("predicate"@) is None ==> plan_in(Some(p)) is Err,
        p.get("fallback"@) != Some(JsonView::Bool(true)) && p.get("params"@) is Some && p.get(
            "params"@,
        )->0.text_at("predicate"@) is Some ==> plan_in(Some(p)) == Ok::<NlPlanView, Seq<char>>(
            NlPlanView::Run { params: p.get("params"@)->0, summary: p.text_at("summary"@) },
        ),
{
}

/// The query of an answer is run as a query with the same parameters would be, and its reply is
/// marked with the summary; a fallback is handed back as such, and an error as it is.
pub proof fn a_plan_is_run_as_a_query(params: JsonView, summary: Option<Seq<char>>, e: Seq<char>)
    ensures
        nl_step(Ok(NlPlanView::Run { params, summary })) == match query_in(params) {
            Ok(q) => Ok::<NlStepView, Seq<char>>(
                NlStepView::Run(QueryRunView::begin(q, FinishView::Summarized(summary))),
            ),
            Err(x) => Err(x),
        },
        nl_step(Err(e)) == Err::<NlStepView, Seq<char>>(e),
        nl_step(Ok(NlPlanView::Fallback)) matches Ok(NlStepView::Reply(j)) && j.get("fallback"@)
            == Some(JsonView::Bool(true)),
{
    assert(keys(crate::json::no_entries()) =~= Seq::empty());
    lemma_put(crate::json::no_entries(), "fallback"@, JsonView::Bool(true));
}

/// A reply to a query of a language model says so, has the summary where there is one, and is
/// otherwise as the query gave it.
pub proof fn a_summary_is_added_alone(e: Entries, summary: Option<Seq<char>>)
    requires
        ascending(keys(e)),
    ensures
        ({
            let r = summarized(JsonView::Object(e), summary);
            &&& r.text_at("source"@) == Some("llm"@)
            &&& summary is Some ==> r.text_at("summary"@) == summary
            &&& forall|k: Seq<char>|
                k != "source"@ && (k != "summary"@ || summary is None) ==> #[trigger] r.get(k)
                    == lookup(e, k)
        }),
{
    reveal_strlit("source");
    reveal_strlit("summary");
    assert("source"@.len() == 6 && "summary"@.len() == 7);
    let e1 = match summary {
        Some(s) => put(e, "summary"@, str_json(s)),
        None => e,
    };
    if let Some(s) = summary {
        lemma_put(e, "summary"@, str_json(s));
    }
    lemma_put(e1, "source"@, str_json("llm"@));
}

} // verus!
