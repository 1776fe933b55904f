//! Language-server support: wire framing and the interpretation of the
//! server's messages.
//!
//! Readiness: rust-analyzer publishes progress via `$/progress`. The service
//! counts the index as ready only when the cache-priming/indexing work token
//! reports `end`, not on every progress end (several fire long before symbols
//! are queryable); until then symbol queries use the tree-sitter fallback.

pub mod jsonrpc;

use serde_json::Value;
use vstd::prelude::*;

use crate::json::{
    json_as_i64, json_at_path, json_doc, json_get, json_get_spec, json_i64_at, json_nodes, json_parse, json_str_at,
    json_str_path, key_views,
};
use crate::rpc::opt_view;
use crate::text::{chars_eq, chars_of, contains_seq, find_first};

verus! {

/// Whether a progress notification (method, `params.value.kind`,
/// `params.token`) reports the end of indexing.
pub open spec fn index_done_spec(method: Option<Seq<char>>, kind: Option<Seq<char>>, token: Option<Seq<char>>) -> bool {
    let t = match token {
        Some(t) => t,
        None => Seq::empty(),
    };
    &&& method == Some("$/progress"@)
    &&& kind == Some("end"@)
    &&& (contains_seq(t, "cachePriming"@) || contains_seq(t, "Indexing"@) || contains_seq(t, "indexing"@))
}

/// Whether an optional text equals `lit`.
fn opt_is(o: &Option<String>, lit: &str) -> (r: bool)
    ensures
        r == (opt_view(*o) == Some(lit@)),
{
    match o {
        Some(s) => chars_eq(chars_of(s.as_str()).as_slice(), chars_of(lit).as_slice()),
        None => false,
    }
}

/// [`index_done_spec`] over the notification's fields.
pub fn index_done_from(method: &Option<String>, kind: &Option<String>, token: &Option<String>) -> (r: bool)
    ensures
        r == index_done_spec(opt_view(*method), opt_view(*kind), opt_view(*token)),
{
    if !opt_is(method, "$/progress") {
        return false;
    }
    if !opt_is(kind, "end") {
        return false;
    }
    let t = match token {
        Some(t) => chars_of(t.as_str()),
        None => Vec::new(),
    };
    find_first(t.as_slice(), chars_of("cachePriming").as_slice()).is_some()
        || find_first(t.as_slice(), chars_of("Indexing").as_slice()).is_some()
        || find_first(t.as_slice(), chars_of("indexing").as_slice()).is_some()
}

/// The method of a message.
pub open spec fn msg_method(msg: Value) -> Option<Seq<char>> {
    json_str_at(json_nodes(msg), seq!["method"@])
}

/// The progress kind of a message (`params.value.kind`).
pub open spec fn msg_kind(msg: Value) -> Option<Seq<char>> {
    json_str_at(json_nodes(msg), seq!["params"@, "value"@, "kind"@])
}

/// The progress token of a message (`params.token`, when a string).
pub open spec fn msg_token(msg: Value) -> Option<Seq<char>> {
    json_str_at(json_nodes(msg), seq!["params"@, "token"@])
}

/// Recognise the indexing/cache-priming `$/progress` `end` notification:
/// `method`, `params.value.kind` and `params.token` (a non-string token
/// counts as empty) are read from `msg` and judged by [`index_done_from`].
pub fn is_index_done(msg: &Value) -> (r: bool)
    ensures
        r == index_done_spec(msg_method(*msg), msg_kind(*msg), msg_token(*msg)),
{
    let (method, kind, token) = progress_fields(msg);
    index_done_from(&method, &kind, &token)
}

/// The `method`, `params.value.kind` and `params.token` of a message.
fn progress_fields(msg: &Value) -> (r: (Option<String>, Option<String>, Option<String>))
    ensures
        opt_view(r.0) == msg_method(*msg),
        opt_view(r.1) == msg_kind(*msg),
        opt_view(r.2) == msg_token(*msg),
{
    let km: [&str; 1] = ["method"];
    let kk: [&str; 3] = ["params", "value", "kind"];
    let kt: [&str; 2] = ["params", "token"];
    let method = json_str_path(msg, km.as_slice());
    let kind = json_str_path(msg, kk.as_slice());
    let token = json_str_path(msg, kt.as_slice());
    assert(key_views(km@) =~= seq!["method"@]);
    assert(key_views(kk@) =~= seq!["params"@, "value"@, "kind"@]);
    assert(key_views(kt@) =~= seq!["params"@, "token"@]);
    (method, kind, token)
}

/// What a message from the language server is to the client.
#[derive(Debug, Clone, Copy, PartialEq, Eq, Structural)]
pub enum LspEvent {
    /// The response to the request with this id.
    Response(i64),
    /// The notification that the first index is complete.
    IndexDone,
    /// Anything else (other notifications, server requests).
    Other,
}

/// How a message with the given `id` and progress fields is handled: a
/// message with an integer id is a response; otherwise the end of indexing
/// is recognised by [`index_done_spec`].
pub open spec fn classify_spec(id: Option<i64>, method: Option<Seq<char>>, kind: Option<Seq<char>>, token: Option<Seq<char>>) -> LspEvent {
    match id {
        Some(i) => LspEvent::Response(i),
        None => if index_done_spec(method, kind, token) {
            LspEvent::IndexDone
        } else {
            LspEvent::Other
        },
    }
}

/// [`classify_spec`] over a message's fields.
pub fn classify_from(id: Option<i64>, method: &Option<String>, kind: &Option<String>, token: &Option<String>) -> (r: LspEvent)
    ensures
        r == classify_spec(id, opt_view(*method), opt_view(*kind), opt_view(*token)),
{
    match id {
        Some(i) => LspEvent::Response(i),
        None => if index_done_from(method, kind, token) {
            LspEvent::IndexDone
        } else {
            LspEvent::Other
        },
    }
}

/// Classify a message from the server: its `id` (when an integer),
/// `method`, `params.value.kind` and `params.token` are read and judged by
/// [`classify_from`].
pub fn classify_message(msg: &Value) -> (r: LspEvent)
    ensures
        r == classify_spec(
            json_i64_at(json_nodes(*msg), seq!["id"@]),
            msg_method(*msg),
            msg_kind(*msg),
            msg_token(*msg),
        ),
{
    let id = match json_get(msg, "id") {
        Some(v) => json_as_i64(v),
        None => None,
    };
    proof {
        let m = json_nodes(*msg);
        let ks = seq!["id"@];
        assert(ks[0] == "id"@);
        assert(ks.skip(1) =~= Seq::<Seq<char>>::empty());
        match json_get_spec(m, "id"@) {
            Some(c) => {
                assert(json_at_path(c, Seq::<Seq<char>>::empty()) == Some(c));
            },
            None => {},
        }
    }
    let (method, kind, token) = progress_fields(msg);
    classify_from(id, &method, &kind, &token)
}

/// Parse one frame from the server and classify it: `None` when the frame
/// is not JSON; else the message and what it is (see [`classify_message`]).
pub fn classify_frame(frame: &[u8]) -> (r: Option<(Value, LspEvent)>)
    ensures
        match r {
            None => json_doc(frame@) is None,
            Some((msg, ev)) => json_doc(frame@) == Some(json_nodes(msg)) && ev == classify_spec(
                json_i64_at(json_nodes(msg), seq!["id"@]),
                msg_method(msg),
                msg_kind(msg),
                msg_token(msg),
            ),
        },
{
    let msg = json_parse(frame)?;
    let ev = classify_message(&msg);
    Some((msg, ev))
}

/// What a response to a request carries: its `error` member when it has
/// one (`Err`), else its `result` member, if any (`Ok`).
pub fn lsp_reply<'a>(msg: &'a Value) -> (r: Result<Option<&'a Value>, &'a Value>)
    ensures
        match r {
            Err(e) => json_get_spec(json_nodes(*msg), "error"@) == Some(json_nodes(*e)),
            Ok(res) => json_get_spec(json_nodes(*msg), "error"@) is None && match res {
                Some(v) => json_get_spec(json_nodes(*msg), "result"@) == Some(json_nodes(*v)),
                None => json_get_spec(json_nodes(*msg), "result"@) is None,
            },
        },
{
    if let Some(err) = json_get(msg, "error") {
        return Err(err);
    }
    Ok(json_get(msg, "result"))
}

} // verus!
