//! The envelope around requests and replies.

use vstd::prelude::*;

use crate::json::{Json, JsonObject};
use crate::text::{concat, same_text};
#[allow(unused_imports)]
use crate::coordinator::features::json_result;
#[allow(unused_imports)]
use crate::json::{no_entries, read_text, str_json, written, JsonView};
#[allow(unused_imports)]
use crate::textmap::put;

verus! {

/// A call: the method and its parameters.
#[derive(Debug, PartialEq)]
pub struct Call {
    pub method: String,
    pub params: Json,
}

#[verifier::ext_equal]
pub struct CallView {
    pub method: Seq<char>,
    pub params: JsonView,
}

impl View for Call {
    type V = CallView;

    open spec fn view(&self) -> CallView {
        CallView { method: self.method@, params: self.params@ }
    }
}

/// The call in a request: a method that is not empty, and parameters, an empty object where there
/// are none.
pub open spec fn call_in(req: JsonView) -> Result<CallView, Seq<char>> {
    match req.text_at("method"@) {
        Some(m) => if m.len() > 0 {
            Ok(
                CallView {
                    method: m,
                    params: match req.get("params"@) {
                        Some(p) => p,
                        None => JsonView::Object(no_entries()),
                    },
                },
            )
        } else {
            Err("missing method"@)
        },
        None => Err("missing method"@),
    }
}

pub open spec fn call_result(r: Result<Call, String>) -> Result<CallView, Seq<char>> {
    match r {
        Ok(c) => Ok(c@),
        Err(e) => Err(e@),
    }
}

/// The call in a request.
pub fn read_call(req: &Json) -> (r: Result<Call, String>)
    ensures
        call_result(r) == call_in(req@),
{
    match req.text_at("method") {
        Some(m) => {
            proof {
                reveal_strlit("");
                if m@.len() == 0 {
                    assert(m@ =~= ""@);
                }
            }
            if same_text(m.as_str(), "") {
                Err("missing method".to_owned())
            } else {
                let params = match req.get("params") {
                    Some(p) => p.copy(),
                    None => Json::object(JsonObject::new()),
                };
                Ok(Call { method: m.clone(), params })
            }
        },
        None => Err("missing method".to_owned()),
    }
}

/// The call in the text of a request.
pub fn parse_call(request: &str) -> (r: Result<Call, String>)
    ensures
        call_result(r) == match read_text(request@) {
            Ok(v) => call_in(v),
            Err(e) => Err("invalid json: "@ + e),
        },
{
    match Json::parse(request) {
        Ok(v) => read_call(&v),
        Err(e) => Err(concat("invalid json: ", e.as_str())),
    }
}

/// The envelope of a reply: `{"ok": true, "result": ..}` or `{"ok": false, "error": ..}`.
pub open spec fn envelope(result: Result<JsonView, Seq<char>>) -> JsonView {
    match result {
        Ok(v) => JsonView::Object(
            put(put(no_entries(), "ok"@, JsonView::Bool(true)), "result"@, v),
        ),
        Err(e) => JsonView::Object(
            put(put(no_entries(), "ok"@, JsonView::Bool(false)), "error"@, str_json(e)),
        ),
    }
}

/// The envelope of a reply.
pub fn reply_envelope(result: Result<Json, String>) -> (r: Json)
    ensures
        r@ == envelope(json_result(result)),
{
    let mut o = JsonObject::new();
    match result {
        Ok(v) => {
            o.set("ok", Json::from_bool(true));
            o.set("result", v);
        },
        Err(e) => {
            o.set("ok", Json::from_bool(false));
            o.set("error", Json::text(e.as_str()));
        },
    }
    Json::object(o)
}

/// The text of a reply.
pub fn reply_json(result: Result<Json, String>) -> (r: String)
    ensures
        r@ == written(envelope(json_result(result))),
{
    reply_envelope(result).to_text()
}

/// A reply says whether the request succeeded, and carries the result exactly where it did, the
/// error exactly where it did not.
pub proof fn envelope_tells_success(result: Result<JsonView, Seq<char>>)
    ensures
        match result {
            Ok(v) => envelope(result).get("ok"@) == Some(JsonView::Bool(true)) && envelope(
                result,
            ).get("result"@) == Some(v) && envelope(result).get("error"@) is None,
            Err(e) => envelope(result).get("ok"@) == Some(JsonView::Bool(false)) && envelope(
                result,
            ).text_at("error"@) == Some(e) && envelope(result).get("result"@) is None,
        },
{
    reveal_strlit("ok");
    reveal_strlit("result");
    reveal_strlit("error");
    assert("ok"@.len() == 2 && "result"@.len() == 6 && "error"@.len() == 5);
    assert(crate::textmap::keys(no_entries()) =~= Seq::empty());
    let b = JsonView::Bool(result is Ok);
    crate::textmap::lemma_put(no_entries(), "ok"@, b);
    let e1 = put(no_entries(), "ok"@, b);
    match result {
        Ok(v) => crate::textmap::lemma_put(e1, "result"@, v),
        Err(e) => crate::textmap::lemma_put(e1, "error"@, str_json(e)),
    }
    assert(crate::textmap::lookup(e1, "error"@) == crate::textmap::lookup(
        no_entries(),
        "error"@,
    ));
    assert(crate::textmap::lookup(e1, "result"@) == crate::textmap::lookup(
        no_entries(),
        "result"@,
    ));
}

} // verus!
