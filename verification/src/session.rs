//! The session with the Java language server: the handshake, what happens to
//! a validation in each state of the session, and what is published at the
//! end of a validation.

use vstd::prelude::*;
use vstd::string::StringSliceAdditionalSpecFns;
use vstd::utf8::{decode_utf8, encode_utf8, encode_utf8_decode_utf8};
use crate::mapping::{diagnostics_to_jsp, to_jsp_diagnostics};
use crate::merge::{merge_diagnostics, merged};
use crate::message::{
    document_notification, document_notification_text, initialize_request,
    initialize_request_text, initialized_notification, initialized_notification_text, json_quoted,
};
use crate::method::JavaLspMethod;
use crate::model::{
    diagnostic_views, lemma_diagnostic_views_push, Diagnostic, DiagnosticView, DocumentView,
    VirtualDocument,
};
use crate::translator::{document_of, structural_diagnostics, translate, Translation};
use crate::wire::{encode, frame_bytes, FramingError};

verus! {

/// Where the session with the Java language server stands.
#[derive(Clone, Copy, Debug, PartialEq, Eq, Structural)]
pub enum SessionState {
    /// No handshake has begun.
    Uninitialized,
    /// The `initialize` request is out and its reply is awaited.
    Initializing,
    /// The handshake is done; documents can be sent.
    Ready,
    /// The pipes have failed; the session is of no more use.
    Failed,
}

/// What can go wrong in the bridge.
#[derive(Clone, Copy, Debug, PartialEq, Eq, Structural)]
pub enum BridgeError {
    /// A file or directory that the Java language server needs is not there.
    ConfigurationMissing,
    /// The process of the Java language server could not be started.
    SpawnFailed,
    /// A frame from the Java language server could not be read.
    ProtocolFraming(FramingError),
    /// The reply to `initialize` did not come in time.
    HandshakeTimeout,
    /// A validation was asked for while the session could not take it.
    NotReady,
}

/// The id of the `initialize` request.
pub const INITIALIZE_ID: u64 = 1;

/// A validation that waits for the session to be ready.
#[derive(Clone, Debug, PartialEq, Eq)]
pub struct PendingValidation {
    /// The URI of the JSP document.
    pub uri: String,
    /// The text of the JSP document.
    pub text: String,
}

/// What a `PendingValidation` is, as a mathematical value.
pub struct RequestView {
    pub uri: Seq<char>,
    pub text: Seq<char>,
}

impl View for PendingValidation {
    type V = RequestView;

    open spec fn view(&self) -> RequestView {
        RequestView { uri: self.uri@, text: self.text@ }
    }
}

/// The views of a run of waiting validations, in order.
pub open spec fn request_views(items: Seq<PendingValidation>) -> Seq<RequestView> {
    Seq::new(items.len(), |i: int| items[i]@)
}

/// The views of a run of strings, in order.
pub open spec fn string_views(items: Seq<String>) -> Seq<Seq<char>> {
    Seq::new(items.len(), |i: int| items[i]@)
}

/// What a `BridgeSession` is, as a mathematical value.
pub struct SessionView {
    /// The state of the session.
    pub state: SessionState,
    /// How many validations may wait at most.
    pub capacity: nat,
    /// The validations that wait, oldest first.
    pub queue: Seq<RequestView>,
    /// The URIs of the JSP documents that were sent as opened.
    pub opened: Seq<Seq<char>>,
}

/// What a session does with a validation.
#[derive(Debug, PartialEq, Eq)]
pub enum Outcome {
    /// The session is ready: this frame goes to the Java language server.
    Forward { method: JavaLspMethod, frame: Vec<u8> },
    /// The validation waits until the session is ready.
    Queued,
    /// The validation is turned down.
    Rejected(BridgeError),
}

/// What an `Outcome` is, as a mathematical value.
pub enum OutcomeView {
    Forward { method: JavaLspMethod, frame: Seq<u8> },
    Queued,
    Rejected(BridgeError),
}

impl View for Outcome {
    type V = OutcomeView;

    open spec fn view(&self) -> OutcomeView {
        match *self {
            Outcome::Forward { method, frame } => OutcomeView::Forward { method, frame: frame@ },
            Outcome::Queued => OutcomeView::Queued,
            Outcome::Rejected(e) => OutcomeView::Rejected(e),
        }
    }
}

/// What a validation gives at once: the translation of the text, whose
/// structural diagnostics can be published right away, and what the session
/// does with it.
#[derive(Debug, PartialEq, Eq)]
pub struct Submission {
    pub translation: Translation,
    pub outcome: Outcome,
}

/// What the end of the handshake gives: the frame of the `initialized`
/// notification, and the validations that waited, oldest first, which are
/// now to be run again.
#[derive(Debug, PartialEq, Eq)]
pub struct Established {
    pub notification: Vec<u8>,
    pub replay: Vec<PendingValidation>,
}

/// What came back from the Java language server for a validation.
#[derive(Debug, PartialEq, Eq)]
pub enum ServerReply {
    /// Diagnostics for the virtual document, in virtual coordinates.
    Diagnostics(Vec<Diagnostic>),
    /// Nothing came in time.
    TimedOut,
    /// A frame could not be read.
    Failed(FramingError),
}

/// What happened while the reply to `initialize` was awaited.
#[derive(Clone, Copy, Debug, PartialEq, Eq, Structural)]
pub enum HandshakeEvent {
    /// The reply has come; what it says is of no account.
    Replied,
    /// No reply came in time.
    TimedOut,
    /// A frame could not be read.
    ReadFailed(FramingError),
}

/// What follows from an event of the handshake.
#[derive(Debug, PartialEq, Eq)]
pub enum HandshakeStep {
    /// The session is ready.
    Ready(Established),
    /// The session has failed; the validations that waited are handed back
    /// to be turned down.
    Failed { error: BridgeError, dropped: Vec<PendingValidation> },
    /// No reply was awaited, and nothing has changed.
    Ignored,
}

/// What the end of a validation gives: what is published for the document,
/// the error to be logged if there was one, and the validations that an
/// error has left behind.
#[derive(Debug, PartialEq, Eq)]
pub struct Published {
    pub diagnostics: Vec<Diagnostic>,
    pub error: Option<BridgeError>,
    pub dropped: Vec<PendingValidation>,
}

/// The session before any handshake, with room for `capacity` validations.
pub open spec fn fresh(capacity: nat) -> SessionView {
    SessionView {
        state: SessionState::Uninitialized,
        capacity,
        queue: Seq::empty(),
        opened: Seq::empty(),
    }
}

/// The session after the handshake was asked to begin: it begins only where
/// none has begun before.
pub open spec fn begun(s: SessionView) -> SessionView {
    if s.state is Uninitialized {
        SessionView { state: SessionState::Initializing, ..s }
    } else {
        s
    }
}

/// The session after the reply to `initialize` has come: where it was
/// awaited the session is ready and no validation waits any more.
pub open spec fn established(s: SessionView) -> SessionView {
    if s.state is Initializing {
        SessionView { state: SessionState::Ready, queue: Seq::empty(), ..s }
    } else {
        s
    }
}

/// The validations that are run again when the reply to `initialize` comes.
pub open spec fn replayed(s: SessionView) -> Seq<RequestView> {
    if s.state is Initializing {
        s.queue
    } else {
        Seq::empty()
    }
}

/// The error that an event of the handshake stands for, if it is one.
pub open spec fn handshake_error(event: HandshakeEvent) -> Option<BridgeError> {
    match event {
        HandshakeEvent::Replied => None,
        HandshakeEvent::TimedOut => Some(BridgeError::HandshakeTimeout),
        HandshakeEvent::ReadFailed(e) => Some(BridgeError::ProtocolFraming(e)),
    }
}

/// The session after an event of the handshake: only a session that awaits
/// the reply takes note, and is then ready or has failed.
pub open spec fn after_handshake_event(s: SessionView, event: HandshakeEvent) -> SessionView {
    if !(s.state is Initializing) {
        s
    } else if event is Replied {
        established(s)
    } else {
        failed(s)
    }
}

/// The diagnostics that a reply holds, if it holds any.
pub open spec fn reply_diagnostics(reply: ServerReply) -> Option<Seq<DiagnosticView>> {
    match reply {
        ServerReply::Diagnostics(items) => Some(diagnostic_views(items@)),
        _ => None,
    }
}

/// The error that a reply stands for, if it is one.
pub open spec fn reply_error(reply: ServerReply) -> Option<BridgeError> {
    match reply {
        ServerReply::Failed(e) => Some(BridgeError::ProtocolFraming(e)),
        _ => None,
    }
}

/// The session after the end of a validation: a frame that could not be
/// read makes it fail, anything else leaves it as it is.
pub open spec fn finished(s: SessionView, reply: ServerReply) -> SessionView {
    if reply is Failed {
        failed(s)
    } else {
        s
    }
}

/// The session after a failure of the pipes or of the handshake.
pub open spec fn failed(s: SessionView) -> SessionView {
    SessionView { state: SessionState::Failed, queue: Seq::empty(), opened: Seq::empty(), ..s }
}

/// True when a validation can wait: the handshake is still to come or under
/// way, and the queue has room.
pub open spec fn can_wait(s: SessionView) -> bool {
    (s.state is Uninitialized || s.state is Initializing) && s.queue.len() < s.capacity
}

/// The notification for a document: opened the first time, changed after.
pub open spec fn method_for(s: SessionView, uri: Seq<char>) -> JavaLspMethod {
    if s.opened.contains(uri) {
        JavaLspMethod::DidChange
    } else {
        JavaLspMethod::DidOpen
    }
}

/// The frame that hands a virtual document to the Java language server.
pub open spec fn notification_frame(method: JavaLspMethod, document: DocumentView) -> Seq<u8> {
    frame_bytes(
        encode_utf8(
            document_notification_text(
                json_quoted(method.name()),
                json_quoted(document.uri),
                json_quoted(decode_utf8(document.text)),
            ),
        ),
    )
}

/// What the session does with a validation of the JSP text `text` of the
/// document `uri`.
pub open spec fn outcome_of(s: SessionView, uri: Seq<char>, text: Seq<char>) -> OutcomeView {
    if s.state is Ready {
        OutcomeView::Forward {
            method: method_for(s, uri),
            frame: notification_frame(method_for(s, uri), document_of(encode_utf8(text))),
        }
    } else if can_wait(s) {
        OutcomeView::Queued
    } else {
        OutcomeView::Rejected(BridgeError::NotReady)
    }
}

/// The session after a validation of the JSP text `text` of the document
/// `uri`.
pub open spec fn submitted(s: SessionView, uri: Seq<char>, text: Seq<char>) -> SessionView {
    if s.state is Ready {
        if s.opened.contains(uri) {
            s
        } else {
            SessionView { opened: s.opened.push(uri), ..s }
        }
    } else if can_wait(s) {
        SessionView { queue: s.queue.push(RequestView { uri, text }), ..s }
    } else {
        s
    }
}

/// The frame of the `initialize` request.
pub open spec fn initialize_frame(process_id: nat) -> Seq<u8> {
    frame_bytes(encode_utf8(initialize_request_text(INITIALIZE_ID as nat, process_id)))
}

/// The frame of the `initialized` notification.
pub open spec fn initialized_frame() -> Seq<u8> {
    frame_bytes(encode_utf8(initialized_notification_text()))
}

/// What is published at the end of a validation: with diagnostics from the
/// Java language server, these in JSP coordinates merged with the structural
/// ones; without, the structural ones alone.
pub open spec fn published(
    document: DocumentView,
    structural: Seq<DiagnosticView>,
    reply: Option<Seq<DiagnosticView>>,
) -> Seq<DiagnosticView> {
    match reply {
        Some(items) => merged(to_jsp_diagnostics(document.blocks, items), structural),
        None => structural,
    }
}

/// The invariant of a session: no more validations wait than there is room
/// for, none waits once the session is ready or has failed, and no document
/// counts as opened twice.
pub open spec fn consistent(s: SessionView) -> bool {
    &&& s.queue.len() <= s.capacity
    &&& (s.state is Ready || s.state is Failed) ==> s.queue.len() == 0
    &&& s.opened.no_duplicates()
    &&& !(s.state is Ready) ==> s.opened.len() == 0
}

/// Every step keeps the invariant of the session.
pub proof fn lemma_steps_keep_consistent(s: SessionView, uri: Seq<char>, text: Seq<char>)
    requires
        consistent(s),
    ensures
        consistent(begun(s)),
        consistent(established(s)),
        consistent(failed(s)),
        consistent(submitted(s, uri, text)),
        forall|event: HandshakeEvent| consistent(#[trigger] after_handshake_event(s, event)),
        forall|reply: ServerReply| consistent(#[trigger] finished(s, reply)),
{
}

/// A new session obeys the invariant, and after a handshake that goes
/// through it is ready.
pub proof fn lemma_handshake_makes_ready(capacity: nat)
    ensures
        consistent(fresh(capacity)),
        begun(fresh(capacity)).state is Initializing,
        after_handshake_event(begun(fresh(capacity)), HandshakeEvent::Replied).state is Ready,
{
}

/// A session becomes ready in one way only: by the reply to the `initialize`
/// request that it awaits. Any other event of the handshake makes a session
/// that awaits the reply fail, and no other step makes a session ready.
pub proof fn lemma_ready_only_by_handshake(
    s: SessionView,
    event: HandshakeEvent,
    uri: Seq<char>,
    text: Seq<char>,
)
    requires
        !(s.state is Ready),
    ensures
        after_handshake_event(s, event).state is Ready <==> s.state is Initializing && event
            is Replied,
        s.state is Initializing && !(event is Replied) ==> after_handshake_event(s, event).state
            is Failed,
        !(begun(s).state is Ready),
        !(submitted(s, uri, text).state is Ready),
        !(failed(s).state is Ready),
{
}

/// A validation that is asked for before the session is ready is never lost:
/// it is turned down with `NotReady`, and then the session is as before, or
/// it waits at the end of the queue, behind all that waited before it.
/// Before the session is ready nothing is forwarded.
pub proof fn lemma_early_validation_is_kept(s: SessionView, uri: Seq<char>, text: Seq<char>)
    requires
        !(s.state is Ready),
    ensures
        outcome_of(s, uri, text) is Queued || outcome_of(s, uri, text) == OutcomeView::Rejected(
            BridgeError::NotReady,
        ),
        outcome_of(s, uri, text) is Rejected ==> submitted(s, uri, text) == s,
        outcome_of(s, uri, text) is Queued ==> submitted(s, uri, text).queue == s.queue.push(
            RequestView { uri, text },
        ) && submitted(s, uri, text).state == s.state,
{
}

/// Until the handshake ends, the queue only grows at its end: what waits
/// keeps its place.
pub proof fn lemma_queue_only_grows(s: SessionView, uri: Seq<char>, text: Seq<char>)
    ensures
        begun(s).queue == s.queue,
        s.queue.len() <= submitted(s, uri, text).queue.len(),
        submitted(s, uri, text).queue.subrange(0, s.queue.len() as int) == s.queue,
{
    assert(submitted(s, uri, text).queue.subrange(0, s.queue.len() as int) =~= s.queue);
}

/// Validations that wait are all run again when the handshake goes through,
/// in the order in which they came, and none of them when it does not: then
/// they are handed back to be turned down.
pub proof fn lemma_waiting_validations_are_replayed(s: SessionView)
    requires
        s.state is Initializing,
    ensures
        replayed(s) == s.queue,
        established(s).state is Ready,
        established(s).queue.len() == 0,
        failed(s).queue.len() == 0,
{
}

/// The session with the Java language server, together with the validations
/// that wait for it.
#[derive(Debug)]
pub struct BridgeSession {
    state: SessionState,
    capacity: usize,
    queue: Vec<PendingValidation>,
    opened: Vec<String>,
}

impl View for BridgeSession {
    type V = SessionView;

    closed spec fn view(&self) -> SessionView {
        SessionView {
            state: self.state,
            capacity: self.capacity as nat,
            queue: request_views(self.queue@),
            opened: string_views(self.opened@),
        }
    }
}

impl BridgeSession {
    /// A session before any handshake, in which at most `capacity`
    /// validations can wait.
    pub fn new(capacity: usize) -> (session: BridgeSession)
        ensures
            session@ == fresh(capacity as nat),
    {
        let session = BridgeSession {
            state: SessionState::Uninitialized,
            capacity,
            queue: Vec::new(),
            opened: Vec::new(),
        };
        assert(session@.queue =~= Seq::empty());
        assert(session@.opened =~= Seq::empty());
        session
    }

    /// The state of the session.
    pub fn state(&self) -> (state: SessionState)
        ensures
            state == self@.state,
    {
        self.state
    }

    /// How many validations wait.
    pub fn waiting(&self) -> (count: usize)
        ensures
            count == self@.queue.len(),
    {
        self.queue.len()
    }

    /// Begins the handshake: where none has begun before, the session is
    /// `Initializing` and the frame of the `initialize` request is handed
    /// out; in any other state nothing happens.
    pub fn begin_handshake(&mut self, process_id: u32) -> (frame: Option<Vec<u8>>)
        ensures
            final(self)@ == begun(old(self)@),
            match frame {
                Some(bytes) => old(self)@.state is Uninitialized && bytes@ == initialize_frame(
                    process_id as nat,
                ),
                None => !(old(self)@.state is Uninitialized),
            },
    {
        match self.state {
            SessionState::Uninitialized => {
                self.state = SessionState::Initializing;
                let request = initialize_request(INITIALIZE_ID, process_id);
                Some(encode(request.as_str()))
            },
            _ => None,
        }
    }

    /// Ends the handshake when the reply to `initialize` has come: where it
    /// was awaited, the session is `Ready`, and the frame of the
    /// `initialized` notification is handed out with the validations that
    /// waited; in any other state nothing happens.
    pub fn complete_handshake(&mut self) -> (done: Option<Established>)
        ensures
            final(self)@ == established(old(self)@),
            match done {
                Some(e) => old(self)@.state is Initializing && e.notification@
                    == initialized_frame() && request_views(e.replay@) == replayed(old(self)@),
                None => !(old(self)@.state is Initializing),
            },
    {
        match self.state {
            SessionState::Initializing => {
                self.state = SessionState::Ready;
                let mut replay: Vec<PendingValidation> = Vec::new();
                replay.append(&mut self.queue);
                assert(request_views(self.queue@) =~= Seq::empty());
                assert(replay@ =~= old(self).queue@);
                let notification = initialized_notification();
                Some(Established { notification: encode(notification.as_str()), replay })
            },
            _ => None,
        }
    }

    /// Marks the session as failed, from any state, and hands back the
    /// validations that waited, which can now only be turned down.
    pub fn fail(&mut self) -> (dropped: Vec<PendingValidation>)
        ensures
            final(self)@ == failed(old(self)@),
            request_views(dropped@) == old(self)@.queue,
    {
        self.state = SessionState::Failed;
        self.opened = Vec::new();
        let mut dropped: Vec<PendingValidation> = Vec::new();
        dropped.append(&mut self.queue);
        assert(request_views(self.queue@) =~= Seq::empty());
        assert(string_views(self.opened@) =~= Seq::empty());
        assert(dropped@ =~= old(self).queue@);
        dropped
    }

    /// Takes note of what happened while the reply to `initialize` was
    /// awaited. A session that awaits it is ready after the reply, and has
    /// failed after a timeout or a frame that could not be read; a session
    /// in any other state takes no note.
    pub fn handshake_event(&mut self, event: HandshakeEvent) -> (step: HandshakeStep)
        ensures
            final(self)@ == after_handshake_event(old(self)@, event),
            step is Ready ==> final(self)@.state is Ready,
            step is Failed ==> final(self)@.state is Failed,
            match step {
                HandshakeStep::Ready(e) => old(self)@.state is Initializing && event is Replied
                    && e.notification@ == initialized_frame() && request_views(e.replay@) == old(
                    self,
                )@.queue,
                HandshakeStep::Failed { error, dropped } => old(self)@.state is Initializing
                    && handshake_error(event) == Some(error) && request_views(dropped@) == old(
                    self,
                )@.queue,
                HandshakeStep::Ignored => !(old(self)@.state is Initializing),
            },
    {
        match self.state {
            SessionState::Initializing => {},
            _ => {
                return HandshakeStep::Ignored;
            },
        }
        match event {
            HandshakeEvent::Replied => {
                match self.complete_handshake() {
                    Some(done) => HandshakeStep::Ready(done),
                    None => HandshakeStep::Ignored,
                }
            },
            HandshakeEvent::TimedOut => {
                HandshakeStep::Failed { error: BridgeError::HandshakeTimeout, dropped: self.fail() }
            },
            HandshakeEvent::ReadFailed(e) => {
                HandshakeStep::Failed { error: BridgeError::ProtocolFraming(e), dropped: self.fail() }
            },
        }
    }

    /// Ends a validation: decides what is published for the document, and on
    /// a frame that could not be read marks the session as failed.
    pub fn finish(
        &mut self,
        document: &VirtualDocument,
        structural: &Vec<Diagnostic>,
        reply: &ServerReply,
    ) -> (out: Published)
        ensures
            final(self)@ == finished(old(self)@, *reply),
            diagnostic_views(out.diagnostics@) == published(
                document@,
                diagnostic_views(structural@),
                reply_diagnostics(*reply),
            ),
            out.error == reply_error(*reply),
            request_views(out.dropped@) == if *reply is Failed {
                old(self)@.queue
            } else {
                Seq::empty()
            },
    {
        let diagnostics = diagnostics_to_publish(document, structural, reply);
        match reply {
            ServerReply::Failed(e) => {
                let dropped = self.fail();
                Published { diagnostics, error: Some(BridgeError::ProtocolFraming(*e)), dropped }
            },
            _ => {
                let dropped: Vec<PendingValidation> = Vec::new();
                assert(request_views(dropped@) =~= Seq::empty());
                Published { diagnostics, error: None, dropped }
            },
        }
    }

    /// Tells whether the document `uri` was sent as opened.
    fn is_opened(&self, uri: &str) -> (yes: bool)
        ensures
            yes == self@.opened.contains(uri@),
    {
        let ghost views = string_views(self.opened@);
        let mut i: usize = 0;
        while i < self.opened.len()
            invariant
                i <= self.opened@.len(),
                views == string_views(self.opened@),
                forall|k: int| 0 <= k < i ==> views[k] != uri@,
            decreases self.opened@.len() - i,
        {
            assert(views[i as int] == self.opened@[i as int]@);
            if str_equal(self.opened[i].as_str(), uri) {
                return true;
            }
            i = i + 1;
        }
        false
    }

    /// Takes a validation of the JSP text `text` of the document `uri`:
    /// translates the text, and then, by the state of the session, hands out
    /// the frame for the Java language server, lets the validation wait, or
    /// turns it down with `NotReady`.
    pub fn submit(&mut self, uri: &str, text: &str) -> (out: Submission)
        ensures
            out.translation.document@ == document_of(text.spec_bytes()),
            diagnostic_views(out.translation.diagnostics@) == structural_diagnostics(
                text.spec_bytes(),
            ),
            out.outcome@ == outcome_of(old(self)@, uri@, text@),
            final(self)@ == submitted(old(self)@, uri@, text@),
            out.outcome@ is Forward <==> old(self)@.state is Ready,
            out.outcome@ is Queued ==> final(self)@.queue == old(self)@.queue.push(
                RequestView { uri: uri@, text: text@ },
            ),
            out.outcome@ is Rejected ==> out.outcome@ == OutcomeView::Rejected(
                BridgeError::NotReady,
            ) && final(self)@ == old(self)@,
    {
        let translation = translate(text);
        let outcome = match self.state {
            SessionState::Ready => {
                let method = if self.is_opened(uri) {
                    JavaLspMethod::DidChange
                } else {
                    let ghost before = self.opened@;
                    self.opened.push(uri.to_owned());
                    assert(string_views(self.opened@) =~= string_views(before).push(uri@));
                    JavaLspMethod::DidOpen
                };
                let document = &translation.document;
                let java = document.text();
                proof {
                    encode_utf8_decode_utf8(java@);
                }
                let message = document_notification(method, document.uri(), java);
                Outcome::Forward { method, frame: encode(message.as_str()) }
            },
            SessionState::Failed => Outcome::Rejected(BridgeError::NotReady),
            _ => {
                if self.queue.len() < self.capacity {
                    let ghost before = self.queue@;
                    let request = PendingValidation { uri: uri.to_owned(), text: text.to_owned() };
                    self.queue.push(request);
                    assert(request_views(self.queue@) =~= request_views(before).push(
                        RequestView { uri: uri@, text: text@ },
                    ));
                    Outcome::Queued
                } else {
                    Outcome::Rejected(BridgeError::NotReady)
                }
            },
        };
        Submission { translation, outcome }
    }
}

/// Tells whether two strings hold the same text.
fn str_equal(a: &str, b: &str) -> (yes: bool)
    ensures
        yes == (a@ == b@),
{
    let x = a.as_bytes();
    let y = b.as_bytes();
    proof {
        encode_utf8_decode_utf8(a@);
        encode_utf8_decode_utf8(b@);
    }
    if x.len() != y.len() {
        return false;
    }
    let mut i: usize = 0;
    while i < x.len()
        invariant
            i <= x@.len(),
            x@.len() == y@.len(),
            x@ == encode_utf8(a@),
            y@ == encode_utf8(b@),
            forall|k: int| 0 <= k < i ==> x@[k] == y@[k],
        decreases x@.len() - i,
    {
        if x[i] != y[i] {
            return false;
        }
        i = i + 1;
    }
    assert(x@ =~= y@);
    true
}

/// Decides what is published for a JSP document at the end of a validation.
/// With diagnostics from the Java language server, these are carried over to
/// JSP coordinates and merged with the structural diagnostics; after a
/// timeout or a failure the structural diagnostics are published alone.
pub fn diagnostics_to_publish(
    document: &VirtualDocument,
    structural: &Vec<Diagnostic>,
    reply: &ServerReply,
) -> (out: Vec<Diagnostic>)
    ensures
        diagnostic_views(out@) == published(
            document@,
            diagnostic_views(structural@),
            reply_diagnostics(*reply),
        ),
{
    match reply {
        ServerReply::Diagnostics(items) => {
            let translated = diagnostics_to_jsp(document, items);
            merge_diagnostics(&translated, structural)
        },
        _ => {
            let mut out: Vec<Diagnostic> = Vec::new();
            let mut i: usize = 0;
            assert(diagnostic_views(out@) =~= diagnostic_views(structural@).subrange(0, 0));
            while i < structural.len()
                invariant
                    i <= structural@.len(),
                    diagnostic_views(out@) == diagnostic_views(structural@).subrange(0, i as int),
                decreases structural@.len() - i,
            {
                let ghost seen = out@;
                let copy = structural[i].duplicate();
                out.push(copy);
                proof {
                    lemma_diagnostic_views_push(seen, copy);
                    assert(diagnostic_views(structural@).subrange(0, i + 1) =~= diagnostic_views(
                        structural@,
                    ).subrange(0, i as int).push(copy@));
                }
                i = i + 1;
            }
            assert(diagnostic_views(structural@).subrange(0, i as int) =~= diagnostic_views(
                structural@,
            ));
            out
        },
    }
}

} // verus!
