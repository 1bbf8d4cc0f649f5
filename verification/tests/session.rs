use jsp_lsp::method::JavaLspMethod;
use jsp_lsp::model::{Diagnostic, Position, Severity, TextRange};
use jsp_lsp::session::{
    diagnostics_to_publish, BridgeError, BridgeSession, HandshakeEvent, HandshakeStep, Outcome,
    PendingValidation, ServerReply, SessionState, INITIALIZE_ID,
};
use jsp_lsp::translator::translate;
use jsp_lsp::wire::{decode, FramingError};
use serde_json::Value;

fn payload(frame: &[u8]) -> Value {
    let decoded = decode(frame).unwrap();
    assert_eq!(decoded.consumed, frame.len());
    serde_json::from_str(&decoded.payload).unwrap()
}

#[test]
fn handshake_leads_to_ready() {
    let mut session = BridgeSession::new(4);
    assert_eq!(session.state(), SessionState::Uninitialized);
    let request = payload(&session.begin_handshake(77).unwrap());
    assert_eq!(session.state(), SessionState::Initializing);
    assert_eq!(request["method"].as_str(), Some("initialize"));
    assert_eq!(request["id"].as_u64(), Some(INITIALIZE_ID));
    assert_eq!(request["params"]["processId"].as_u64(), Some(77));
    assert!(request["params"]["rootUri"].is_null());
    let done = session.complete_handshake().unwrap();
    assert_eq!(session.state(), SessionState::Ready);
    assert!(done.replay.is_empty());
    let notification = payload(&done.notification);
    assert_eq!(notification["method"].as_str(), Some("initialized"));
    assert!(notification.get("id").is_none());
}

#[test]
fn handshake_steps_out_of_turn_do_nothing() {
    let mut session = BridgeSession::new(1);
    assert!(session.complete_handshake().is_none());
    assert_eq!(session.state(), SessionState::Uninitialized);
    assert!(session.begin_handshake(1).is_some());
    assert!(session.begin_handshake(1).is_none());
    assert_eq!(session.state(), SessionState::Initializing);
    assert!(session.complete_handshake().is_some());
    assert!(session.complete_handshake().is_none());
    assert!(session.begin_handshake(1).is_none());
    assert_eq!(session.state(), SessionState::Ready);
}

#[test]
fn early_validations_wait_and_are_replayed_in_order() {
    let mut session = BridgeSession::new(2);
    let first = session.submit("file:///a.jsp", "<% a %>");
    assert_eq!(first.outcome, Outcome::Queued);
    assert!(first.translation.diagnostics.is_empty());
    session.begin_handshake(1);
    let second = session.submit("file:///b.jsp", "<% b");
    assert_eq!(second.outcome, Outcome::Queued);
    assert_eq!(second.translation.diagnostics.len(), 1);
    assert_eq!(session.waiting(), 2);
    let third = session.submit("file:///c.jsp", "%>");
    assert_eq!(third.outcome, Outcome::Rejected(BridgeError::NotReady));
    assert_eq!(third.translation.diagnostics.len(), 1);
    assert_eq!(session.waiting(), 2);
    let done = session.complete_handshake().unwrap();
    assert_eq!(
        done.replay,
        vec![
            PendingValidation { uri: "file:///a.jsp".to_string(), text: "<% a %>".to_string() },
            PendingValidation { uri: "file:///b.jsp".to_string(), text: "<% b".to_string() },
        ]
    );
    assert_eq!(session.waiting(), 0);
}

#[test]
fn queue_without_room_rejects() {
    let mut session = BridgeSession::new(0);
    assert_eq!(session.submit("u", "t").outcome, Outcome::Rejected(BridgeError::NotReady));
    assert_eq!(session.waiting(), 0);
}

#[test]
fn ready_session_opens_then_changes() {
    let mut session = BridgeSession::new(1);
    session.begin_handshake(1);
    session.complete_handshake();
    let first = session.submit("file:///a.jsp", "<p><% int x = \"\u{e9}\"; %></p>");
    match first.outcome {
        Outcome::Forward { method, frame } => {
            assert_eq!(method, JavaLspMethod::DidOpen);
            let message = payload(&frame);
            assert_eq!(message["method"].as_str(), Some("textDocument/didOpen"));
            let document = &message["params"]["textDocument"];
            assert_eq!(document["uri"].as_str(), Some("jsp-virtual:///Scriptlets.java"));
            assert_eq!(document["languageId"].as_str(), Some("java"));
            assert_eq!(document["text"].as_str(), Some(" int x = \"\u{e9}\"; \n"));
        },
        other => panic!("not forwarded: {:?}", other),
    }
    let again = session.submit("file:///a.jsp", "<% y %>");
    match again.outcome {
        Outcome::Forward { method, frame } => {
            assert_eq!(method, JavaLspMethod::DidChange);
            let message = payload(&frame);
            assert_eq!(message["method"].as_str(), Some("textDocument/didChange"));
            assert_eq!(message["params"]["textDocument"]["text"].as_str(), Some(" y \n"));
        },
        other => panic!("not forwarded: {:?}", other),
    }
    let other = session.submit("file:///b.jsp", "");
    match other.outcome {
        Outcome::Forward { method, .. } => assert_eq!(method, JavaLspMethod::DidOpen),
        other => panic!("not forwarded: {:?}", other),
    }
    assert_eq!(session.state(), SessionState::Ready);
}

#[test]
fn failed_session_rejects_and_hands_back_what_waited() {
    let mut session = BridgeSession::new(3);
    session.begin_handshake(1);
    session.submit("file:///a.jsp", "x");
    let dropped = session.fail();
    assert_eq!(dropped.len(), 1);
    assert_eq!(dropped[0].uri, "file:///a.jsp");
    assert_eq!(session.state(), SessionState::Failed);
    assert_eq!(session.waiting(), 0);
    let out = session.submit("file:///a.jsp", "<% x");
    assert_eq!(out.outcome, Outcome::Rejected(BridgeError::NotReady));
    assert_eq!(out.translation.diagnostics.len(), 1);
    assert!(session.begin_handshake(1).is_none());
    assert!(session.complete_handshake().is_none());
    assert_eq!(session.state(), SessionState::Failed);
}

#[test]
fn ready_session_can_fail() {
    let mut session = BridgeSession::new(3);
    session.begin_handshake(1);
    session.complete_handshake();
    session.submit("file:///a.jsp", "x");
    assert!(session.fail().is_empty());
    assert_eq!(session.state(), SessionState::Failed);
}

#[test]
fn every_error_has_a_value() {
    let all = [
        BridgeError::ConfigurationMissing,
        BridgeError::SpawnFailed,
        BridgeError::ProtocolFraming(FramingError::MissingContentLength),
        BridgeError::ProtocolFraming(FramingError::UnexpectedEof),
        BridgeError::ProtocolFraming(FramingError::InvalidUtf8),
        BridgeError::ProtocolFraming(FramingError::LengthParseError),
        BridgeError::HandshakeTimeout,
        BridgeError::NotReady,
    ];
    for (i, a) in all.iter().enumerate() {
        for (j, b) in all.iter().enumerate() {
            assert_eq!(a == b, i == j);
        }
    }
}

fn java_error(line: usize, from: usize, to: usize, message: &str) -> Diagnostic {
    Diagnostic {
        range: TextRange {
            start: Position { line, character: from },
            end: Position { line, character: to },
        },
        severity: Severity::Error,
        message: message.to_string(),
    }
}

#[test]
fn published_after_a_reply() {
    let out = translate("<p>\n<% int x = ; %>\n%>\n<% y");
    assert_eq!(out.diagnostics.len(), 2);
    let reply = ServerReply::Diagnostics(vec![
        java_error(0, 9, 10, "Syntax error"),
        java_error(5, 0, 1, "nowhere"),
        java_error(0, 9, 10, "Syntax error"),
    ]);
    let published = diagnostics_to_publish(&out.document, &out.diagnostics, &reply);
    assert_eq!(published.len(), 3);
    assert_eq!(published[0].message, "Syntax error");
    assert_eq!(published[0].range.start, Position { line: 1, character: 11 });
    assert_eq!(published[0].range.end, Position { line: 1, character: 12 });
    assert_eq!(published[1].message, "Unopened %> tag");
    assert_eq!(published[1].range.start, Position { line: 2, character: 0 });
    assert_eq!(published[2].message, "Unclosed <% tag");
    assert_eq!(published[2].range.start, Position { line: 3, character: 0 });
}

#[test]
fn published_after_a_timeout() {
    let out = translate("%> <% int x;");
    let published = diagnostics_to_publish(&out.document, &out.diagnostics, &ServerReply::TimedOut);
    assert_eq!(published, out.diagnostics);
}

#[test]
fn handshake_timeout_fails_the_session() {
    let mut session = BridgeSession::new(2);
    session.begin_handshake(1);
    session.submit("file:///a.jsp", "x");
    match session.handshake_event(HandshakeEvent::TimedOut) {
        HandshakeStep::Failed { error, dropped } => {
            assert_eq!(error, BridgeError::HandshakeTimeout);
            assert_eq!(dropped.len(), 1);
            assert_eq!(dropped[0].text, "x");
        },
        other => panic!("not failed: {:?}", other),
    }
    assert_eq!(session.state(), SessionState::Failed);
    assert_eq!(session.submit("u", "t").outcome, Outcome::Rejected(BridgeError::NotReady));
}

#[test]
fn unreadable_reply_fails_the_handshake() {
    let mut session = BridgeSession::new(2);
    session.begin_handshake(1);
    let step = session.handshake_event(HandshakeEvent::ReadFailed(FramingError::InvalidUtf8));
    assert_eq!(
        step,
        HandshakeStep::Failed {
            error: BridgeError::ProtocolFraming(FramingError::InvalidUtf8),
            dropped: Vec::new(),
        }
    );
    assert_eq!(session.state(), SessionState::Failed);
}

#[test]
fn reply_makes_the_session_ready() {
    let mut session = BridgeSession::new(2);
    session.begin_handshake(1);
    session.submit("file:///a.jsp", "x");
    match session.handshake_event(HandshakeEvent::Replied) {
        HandshakeStep::Ready(done) => {
            assert_eq!(done.replay.len(), 1);
            assert_eq!(payload(&done.notification)["method"].as_str(), Some("initialized"));
        },
        other => panic!("not ready: {:?}", other),
    }
    assert_eq!(session.state(), SessionState::Ready);
}

#[test]
fn handshake_events_are_ignored_when_no_reply_is_awaited() {
    let mut fresh = BridgeSession::new(2);
    assert_eq!(fresh.handshake_event(HandshakeEvent::Replied), HandshakeStep::Ignored);
    assert_eq!(fresh.handshake_event(HandshakeEvent::TimedOut), HandshakeStep::Ignored);
    assert_eq!(fresh.state(), SessionState::Uninitialized);
    let mut ready = BridgeSession::new(2);
    ready.begin_handshake(1);
    ready.handshake_event(HandshakeEvent::Replied);
    assert_eq!(ready.handshake_event(HandshakeEvent::TimedOut), HandshakeStep::Ignored);
    assert_eq!(
        ready.handshake_event(HandshakeEvent::ReadFailed(FramingError::UnexpectedEof)),
        HandshakeStep::Ignored
    );
    assert_eq!(ready.state(), SessionState::Ready);
}

#[test]
fn finish_publishes_and_keeps_the_session() {
    let mut session = BridgeSession::new(2);
    session.begin_handshake(1);
    session.handshake_event(HandshakeEvent::Replied);
    let out = session.submit("file:///a.jsp", "<% int x = ; %> %>");
    let reply = ServerReply::Diagnostics(vec![java_error(0, 9, 10, "Syntax error")]);
    let published = session.finish(&out.translation.document, &out.translation.diagnostics, &reply);
    assert_eq!(published.error, None);
    assert!(published.dropped.is_empty());
    assert_eq!(published.diagnostics.len(), 2);
    assert_eq!(published.diagnostics[0].range.start, Position { line: 0, character: 11 });
    assert_eq!(published.diagnostics[1].message, "Unopened %> tag");
    assert_eq!(session.state(), SessionState::Ready);
    let late = session.finish(
        &out.translation.document,
        &out.translation.diagnostics,
        &ServerReply::TimedOut,
    );
    assert_eq!(late.error, None);
    assert_eq!(late.diagnostics, out.translation.diagnostics);
    assert_eq!(session.state(), SessionState::Ready);
}

#[test]
fn finish_after_a_failed_read_fails_the_session() {
    let mut session = BridgeSession::new(2);
    session.begin_handshake(1);
    session.handshake_event(HandshakeEvent::Replied);
    let out = session.submit("file:///a.jsp", "<% x");
    let reply = ServerReply::Failed(FramingError::UnexpectedEof);
    let published = session.finish(&out.translation.document, &out.translation.diagnostics, &reply);
    assert_eq!(published.error, Some(BridgeError::ProtocolFraming(FramingError::UnexpectedEof)));
    assert_eq!(published.diagnostics, out.translation.diagnostics);
    assert_eq!(session.state(), SessionState::Failed);
    assert_eq!(
        session.submit("file:///a.jsp", "<% x").outcome,
        Outcome::Rejected(BridgeError::NotReady)
    );
}
