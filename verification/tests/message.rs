use jsp_lsp::message::{
    assemble_document_notification, document_notification, initialize_request,
    initialized_notification,
};
use jsp_lsp::method::JavaLspMethod;
use serde_json::Value;

#[test]
fn method_names() {
    assert_eq!(JavaLspMethod::DidOpen.value(), "textDocument/didOpen");
    assert_eq!(JavaLspMethod::DidChange.value(), "textDocument/didChange");
}

#[test]
fn initialize_request_text() {
    assert_eq!(
        initialize_request(1, 4321),
        "{\"id\":1,\"jsonrpc\":\"2.0\",\"method\":\"initialize\",\"params\":{\"capabilities\":{},\"processId\":4321,\"rootUri\":null}}"
    );
}

#[test]
fn initialize_request_is_json() {
    let value: Value = serde_json::from_str(&initialize_request(1, u32::MAX)).unwrap();
    assert_eq!(value["id"].as_u64(), Some(1));
    assert_eq!(value["jsonrpc"].as_str(), Some("2.0"));
    assert_eq!(value["method"].as_str(), Some("initialize"));
    assert_eq!(value["params"]["processId"].as_u64(), Some(u32::MAX as u64));
    assert!(value["params"]["rootUri"].is_null());
    assert_eq!(value["params"]["capabilities"].as_object().unwrap().len(), 0);
    let zero: Value = serde_json::from_str(&initialize_request(0, 0)).unwrap();
    assert_eq!(zero["id"].as_u64(), Some(0));
    let big: Value = serde_json::from_str(&initialize_request(u64::MAX, 10)).unwrap();
    assert_eq!(big["id"].as_u64(), Some(u64::MAX));
    assert_eq!(big["params"]["processId"].as_u64(), Some(10));
}

#[test]
fn initialized_notification_text() {
    assert_eq!(initialized_notification(), "{\"jsonrpc\":\"2.0\",\"method\":\"initialized\",\"params\":{}}");
}

#[test]
fn document_notification_quotes_its_parts() {
    let text = "String s = \"a\\b\";\n\tx();\u{1}\u{e9}";
    let message = document_notification(JavaLspMethod::DidOpen, "jsp-virtual:///S \"x\".java", text);
    let value: Value = serde_json::from_str(&message).unwrap();
    assert_eq!(value["jsonrpc"].as_str(), Some("2.0"));
    assert_eq!(value["method"].as_str(), Some("textDocument/didOpen"));
    let document = &value["params"]["textDocument"];
    assert_eq!(document["uri"].as_str(), Some("jsp-virtual:///S \"x\".java"));
    assert_eq!(document["languageId"].as_str(), Some("java"));
    assert_eq!(document["version"].as_u64(), Some(1));
    assert_eq!(document["text"].as_str(), Some(text));
    assert!(value.get("id").is_none());
}

#[test]
fn document_notification_text_is_what_serde_writes() {
    let message = document_notification(JavaLspMethod::DidChange, "u", "a\"b");
    assert_eq!(
        message,
        "{\"jsonrpc\":\"2.0\",\"method\":\"textDocument/didChange\",\"params\":{\"textDocument\":{\"languageId\":\"java\",\"text\":\"a\\\"b\",\"uri\":\"u\",\"version\":1}}}"
    );
    let value: Value = serde_json::from_str(&message).unwrap();
    assert_eq!(serde_json::to_string(&value).unwrap(), message);
}

#[test]
fn assembling_takes_literals_as_they_are() {
    assert_eq!(
        assemble_document_notification("\"m\"", "\"u\"", "\"t\""),
        "{\"jsonrpc\":\"2.0\",\"method\":\"m\",\"params\":{\"textDocument\":{\"languageId\":\"java\",\"text\":\"t\",\"uri\":\"u\",\"version\":1}}}"
    );
}
