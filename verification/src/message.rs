//! The JSON-RPC messages that are sent to the Java language server, as JSON
//! text. Members stand in alphabetical order of their names.

use vstd::prelude::*;
use vstd::string::StringExecFns;
use crate::method::JavaLspMethod;

verus! {

/// The JSON string literal for `text`, quotes included, as
/// `serde_json::to_string` writes it.
pub uninterp spec fn json_quoted(text: Seq<char>) -> Seq<char>;

/// `serde_json::to_string` on a `str`: the JSON string literal for `text`.
/// The call cannot fail, since a `str` always serializes and the output goes
/// to memory; the result depends on `text` alone.
#[verifier::external_body]
fn json_quote(text: &str) -> (quoted: String)
    ensures
        quoted@ == json_quoted(text@),
{
    serde_json::to_string(text).unwrap_or_default()
}

/// The character of a decimal digit.
pub open spec fn digit_char(d: nat) -> char {
    if d == 0 {
        '0'
    } else if d == 1 {
        '1'
    } else if d == 2 {
        '2'
    } else if d == 3 {
        '3'
    } else if d == 4 {
        '4'
    } else if d == 5 {
        '5'
    } else if d == 6 {
        '6'
    } else if d == 7 {
        '7'
    } else if d == 8 {
        '8'
    } else {
        '9'
    }
}

/// The shortest decimal numeral of `n`, as characters.
pub open spec fn decimal_text(n: nat) -> Seq<char>
    decreases n,
{
    if n < 10 {
        seq![digit_char(n)]
    } else {
        decimal_text(n / 10).push(digit_char(n % 10))
    }
}

/// The `initialize` request: the given id and process id, no root URI and no
/// capabilities.
pub open spec fn initialize_request_text(id: nat, process_id: nat) -> Seq<char> {
    "{\"id\":"@ + decimal_text(id)
        + ",\"jsonrpc\":\"2.0\",\"method\":\"initialize\",\"params\":{\"capabilities\":{},\"processId\":"@
        + decimal_text(process_id) + ",\"rootUri\":null}}"@
}

/// The `initialized` notification.
pub open spec fn initialized_notification_text() -> Seq<char> {
    "{\"jsonrpc\":\"2.0\",\"method\":\"initialized\",\"params\":{}}"@
}

/// A document notification, given its method, the URI and the text of the
/// document as JSON string literals: the document is Java, in version 1.
pub open spec fn document_notification_text(
    quoted_method: Seq<char>,
    quoted_uri: Seq<char>,
    quoted_text: Seq<char>,
) -> Seq<char> {
    "{\"jsonrpc\":\"2.0\",\"method\":"@ + quoted_method
        + ",\"params\":{\"textDocument\":{\"languageId\":\"java\",\"text\":"@ + quoted_text
        + ",\"uri\":"@ + quoted_uri + ",\"version\":1}}}"@
}

/// The text of one decimal digit.
fn digit_text(d: u64) -> (text: &'static str)
    requires
        d < 10,
    ensures
        text@ == seq![digit_char(d as nat)],
{
    proof {
        reveal_strlit("0");
        reveal_strlit("1");
        reveal_strlit("2");
        reveal_strlit("3");
        reveal_strlit("4");
        reveal_strlit("5");
        reveal_strlit("6");
        reveal_strlit("7");
        reveal_strlit("8");
        reveal_strlit("9");
    }
    let text = if d == 0 {
        "0"
    } else if d == 1 {
        "1"
    } else if d == 2 {
        "2"
    } else if d == 3 {
        "3"
    } else if d == 4 {
        "4"
    } else if d == 5 {
        "5"
    } else if d == 6 {
        "6"
    } else if d == 7 {
        "7"
    } else if d == 8 {
        "8"
    } else {
        "9"
    };
    assert(text@ =~= seq![digit_char(d as nat)]);
    text
}

/// Appends the decimal numeral of `n` to `out`.
fn push_decimal(out: &mut String, n: u64)
    ensures
        final(out)@ == old(out)@ + decimal_text(n as nat),
    decreases n,
{
    if n >= 10 {
        push_decimal(out, n / 10);
    }
    out.append(digit_text(n % 10));
    assert(out@ =~= old(out)@ + decimal_text(n as nat));
}

/// Writes the `initialize` request with the given request id and the id of
/// the process that sends it.
pub fn initialize_request(id: u64, process_id: u32) -> (message: String)
    ensures
        message@ == initialize_request_text(id as nat, process_id as nat),
{
    let mut message = "{\"id\":".to_owned();
    push_decimal(&mut message, id);
    message.append(
        ",\"jsonrpc\":\"2.0\",\"method\":\"initialize\",\"params\":{\"capabilities\":{},\"processId\":",
    );
    push_decimal(&mut message, process_id as u64);
    message.append(",\"rootUri\":null}}");
    message
}

/// Writes the `initialized` notification.
pub fn initialized_notification() -> (message: String)
    ensures
        message@ == initialized_notification_text(),
{
    "{\"jsonrpc\":\"2.0\",\"method\":\"initialized\",\"params\":{}}".to_owned()
}

/// Writes a document notification from JSON string literals for its method,
/// for the URI and for the text of the document.
pub fn assemble_document_notification(quoted_method: &str, quoted_uri: &str, quoted_text: &str) -> (message:
    String)
    ensures
        message@ == document_notification_text(quoted_method@, quoted_uri@, quoted_text@),
{
    let mut message = "{\"jsonrpc\":\"2.0\",\"method\":".to_owned();
    message.append(quoted_method);
    message.append(",\"params\":{\"textDocument\":{\"languageId\":\"java\",\"text\":");
    message.append(quoted_text);
    message.append(",\"uri\":");
    message.append(quoted_uri);
    message.append(",\"version\":1}}}");
    message
}

/// Writes the notification that hands the text of a document to the Java
/// language server, as opened or as changed.
pub fn document_notification(method: JavaLspMethod, uri: &str, text: &str) -> (message: String)
    ensures
        message@ == document_notification_text(
            json_quoted(method.name()),
            json_quoted(uri@),
            json_quoted(text@),
        ),
{
    let quoted_method = json_quote(method.value());
    let quoted_uri = json_quote(uri);
    let quoted_text = json_quote(text);
    assemble_document_notification(
        quoted_method.as_str(),
        quoted_uri.as_str(),
        quoted_text.as_str(),
    )
}

} // verus!
