//! The index counts as ready only on the end of rust-analyzer's
//! cache-priming / indexing work token, not on every progress end.
use serde_json::Value;
use tabbify_codeservice::lsp::{
    classify_frame, classify_from, classify_message, index_done_from, is_index_done, lsp_reply, LspEvent,
};

fn json(s: &str) -> Value {
    serde_json::from_str(s).unwrap()
}

#[test]
fn ready_only_on_indexing_token_end() {
    // A non-indexing progress end (e.g. "Roots Scanned") must not flip ready.
    let other = json(r#"{"method":"$/progress","params":{
        "token":"rustAnalyzer/Roots Scanned","value":{"kind":"end"}}}"#);
    assert!(!is_index_done(&other));

    let priming = json(r#"{"method":"$/progress","params":{
        "token":"rustAnalyzer/cachePriming","value":{"kind":"end"}}}"#);
    assert!(is_index_done(&priming));

    let indexing_begin = json(r#"{"method":"$/progress","params":{
        "token":"rustAnalyzer/Indexing","value":{"kind":"begin"}}}"#);
    assert!(!is_index_done(&indexing_begin)); // begin != end
}

#[test]
fn indexing_end_and_other_methods() {
    let indexing_end = json(r#"{"method":"$/progress","params":{"token":"rustAnalyzer/Indexing","value":{"kind":"end"}}}"#);
    assert!(is_index_done(&indexing_end));
    let lower = json(r#"{"method":"$/progress","params":{"token":"x/indexing","value":{"kind":"end"}}}"#);
    assert!(is_index_done(&lower));
    let numeric_token = json(r#"{"method":"$/progress","params":{"token":7,"value":{"kind":"end"}}}"#);
    assert!(!is_index_done(&numeric_token));
    let other_method = json(r#"{"method":"window/logMessage","params":{"token":"rustAnalyzer/Indexing","value":{"kind":"end"}}}"#);
    assert!(!is_index_done(&other_method));
    let response = json(r#"{"id":1,"result":null}"#);
    assert!(!is_index_done(&response));
}

#[test]
fn index_done_from_fields() {
    let s = |x: &str| Some(x.to_string());
    assert!(index_done_from(&s("$/progress"), &s("end"), &s("rustAnalyzer/cachePriming")));
    assert!(!index_done_from(&s("$/progress"), &s("report"), &s("rustAnalyzer/cachePriming")));
    assert!(!index_done_from(&s("$/progress"), &s("end"), &None));
    assert!(!index_done_from(&None, &s("end"), &s("Indexing")));
}

#[test]
fn messages_are_routed_by_id_then_progress() {
    assert_eq!(classify_message(&json(r#"{"jsonrpc":"2.0","id":7,"result":[]}"#)), LspEvent::Response(7));
    let done = json(r#"{"method":"$/progress","params":{"token":"rustAnalyzer/Indexing","value":{"kind":"end"}}}"#);
    assert_eq!(classify_message(&done), LspEvent::IndexDone);
    let log = json(r#"{"method":"window/logMessage","params":{"type":3,"message":"x"}}"#);
    assert_eq!(classify_message(&log), LspEvent::Other);
    // a string id is not one of ours
    assert_eq!(classify_message(&json(r#"{"id":"a","method":"client/registerCapability"}"#)), LspEvent::Other);
    let s = |x: &str| Some(x.to_string());
    assert_eq!(classify_from(Some(3), &s("$/progress"), &s("end"), &s("Indexing")), LspEvent::Response(3));
    assert_eq!(classify_from(None, &s("$/progress"), &s("end"), &s("Indexing")), LspEvent::IndexDone);
}

#[test]
fn frames_are_parsed_then_classified() {
    let (msg, ev) = classify_frame(br#"{"jsonrpc":"2.0","id":7,"result":null}"#).unwrap();
    assert_eq!(ev, LspEvent::Response(7));
    assert_eq!(msg["id"], 7);
    let done = br#"{"jsonrpc":"2.0","method":"$/progress","params":{"token":"rustAnalyzer/Indexing","value":{"kind":"end"}}}"#;
    assert_eq!(classify_frame(done).unwrap().1, LspEvent::IndexDone);
    let other = br#"{"jsonrpc":"2.0","method":"window/logMessage","params":{}}"#;
    assert_eq!(classify_frame(other).unwrap().1, LspEvent::Other);
    assert!(classify_frame(b"not json").is_none());
    assert!(classify_frame(b"").is_none());
}

#[test]
fn replies_carry_error_or_result() {
    let err = json(r#"{"id":1,"error":{"code":-32601,"message":"nope"},"result":3}"#);
    assert_eq!(lsp_reply(&err).unwrap_err()["code"], -32601);
    let ok = json(r#"{"id":1,"result":[1,2]}"#);
    assert_eq!(lsp_reply(&ok).unwrap().unwrap(), &json("[1,2]"));
    let bare = json(r#"{"id":1}"#);
    assert!(lsp_reply(&bare).unwrap().is_none());
}
