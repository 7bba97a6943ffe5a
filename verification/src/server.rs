use vstd::prelude::*;

use crate::parser::ParsedContext;

verus! {

/// A client's request: the action it names, the file and the one-based cursor
/// line.
#[derive(Debug, Clone)]
pub struct ContextRequest {
    pub action: String,
    pub file: String,
    pub cursor_line: usize,
}

/// The answer to a well-formed request.
#[derive(Debug, Clone)]
pub struct ContextResponse {
    pub status: String,
    pub request_id: String,
    pub message: String,
    pub context_snippet: Option<ParsedContext>,
    pub latency_ms: u128,
}

/// The answer when a request cannot be served.
#[derive(Debug, Clone)]
pub struct ErrorResponse {
    pub status: String,
    pub error: String,
}

/// An error answer with the given code.
pub open spec fn is_error_response(r: ErrorResponse, code: Seq<char>) -> bool {
    r.status@ == "error"@ && r.error@ == code
}

/// The message of every answer to a served request.
pub open spec fn received_message() -> Seq<char> {
    "request received"@
}

/// A lower-case hexadecimal digit.
pub open spec fn is_lower_hex_digit(c: char) -> bool {
    (0x30 <= (c as u32) <= 0x39) || (0x61 <= (c as u32) <= 0x66)
}

/// The hyphenated lower-case text of a random (version 4, RFC 4122 variant)
/// UUID, such as `67e55044-10b1-426f-9247-bb680e5fe0c8`.
pub open spec fn is_v4_uuid_text(s: Seq<char>) -> bool {
    &&& s.len() == 36
    &&& forall|i: int|
        0 <= i < 36 ==> if i == 8 || i == 13 || i == 18 || i == 23 {
            #[trigger] s[i] == '-'
        } else {
            is_lower_hex_digit(s[i])
        }
    &&& s[14] == '4'
    &&& (s[19] == '8' || s[19] == '9' || s[19] == 'a' || s[19] == 'b')
}

/// `uuid::Uuid::new_v4` written with `to_string`: a fresh random identifier.
/// Claimed of it: the text has the hyphenated lower-case layout of a version 4
/// UUID, as the crate's formatter and `new_v4` write it; its random digits are
/// left free. `new_v4` panics when the operating system gives no random bytes;
/// no clause can rule that out.
#[verifier::external_body]
fn new_request_id() -> (id: String)
    ensures
        is_v4_uuid_text(id@),
{
    uuid::Uuid::new_v4().to_string()
}

/// The error answer for a request that is not valid JSON of the expected shape.
pub fn malformed_json_response() -> (r: ErrorResponse)
    ensures
        is_error_response(r, "malformed_json"@),
{
    ErrorResponse { status: "error".to_owned(), error: "malformed_json".to_owned() }
}

/// The error answer for a client that ran out of time.
pub fn timeout_response() -> (r: ErrorResponse)
    ensures
        is_error_response(r, "timeout"@),
{
    ErrorResponse { status: "error".to_owned(), error: "timeout".to_owned() }
}

/// The answer to a served request, with its identifier, the context if one
/// was found, and the time taken.
pub fn context_response(
    request_id: String,
    context_snippet: Option<ParsedContext>,
    latency_ms: u128,
) -> (r: ContextResponse)
    ensures
        r.status@ == "ok"@,
        r.request_id == request_id,
        r.message@ == received_message(),
        r.context_snippet == context_snippet,
        r.latency_ms == latency_ms,
{
    ContextResponse {
        status: "ok".to_owned(),
        request_id,
        message: "request received".to_owned(),
        context_snippet,
        latency_ms,
    }
}

/// Where the handling of one client connection stands.
#[derive(Debug, Clone, Copy, PartialEq, Eq, Structural)]
pub enum ClientState {
    /// Waiting for the request bytes.
    Reading,
    /// The bytes are in; waiting for them to be decoded as a request.
    Decoding,
    /// The request is decoded; waiting for its context.
    LookingUp,
    /// An answer is being written; the time limit still holds.
    Answering,
    /// The connection has been answered or dropped.
    Finished,
}

/// What happened on a client connection.
#[derive(Debug, Clone)]
pub enum ClientEvent {
    /// A read ended with this many bytes; zero means the client hung up.
    Read(usize),
    /// A read failed with this message.
    ReadFailed(String),
    /// The bytes were decoded as a request, or could not be.
    Decoded(Option<ContextRequest>),
    /// The context of the request was looked up, in this many milliseconds
    /// since the connection was taken.
    ContextFound { context: Option<ParsedContext>, latency_ms: u128 },
    /// The answer has been written out.
    AnswerSent,
    /// The time allowed for the client ran out.
    TimedOut,
}

/// What to do next on a client connection.
#[derive(Debug, Clone)]
pub enum ClientAction {
    /// Close without answering further.
    Close,
    /// Log the failed read, then close.
    ReportReadError(String),
    /// Decode the bytes read as a request.
    DecodeRequest,
    /// Send this error, log the malformed request, then report it sent.
    RejectMalformed(ErrorResponse),
    /// Log the request and look up the context it asks for.
    LookUp(ContextRequest),
    /// Send this answer, then report it sent.
    Respond(ContextResponse),
    /// Send this error, log the timeout, then close.
    ReportTimeout(ErrorResponse),
    /// Nothing to do: the event does not belong to this state.
    Ignore,
}

/// The step of the client protocol, with `timeout_ms` the time allowed for
/// the client, from `state` on `event` to `next` with `action`. The request
/// identifier of an answer is free here beyond its layout; everything else is
/// fixed.
pub open spec fn client_step_spec(
    state: ClientState,
    event: ClientEvent,
    timeout_ms: u64,
    next: ClientState,
    action: ClientAction,
) -> bool {
    if state == ClientState::Finished {
        next == ClientState::Finished && action is Ignore
    } else {
        match event {
            ClientEvent::TimedOut => next == ClientState::Finished && (
            action matches ClientAction::ReportTimeout(r) && is_error_response(r, "timeout"@)),
            ClientEvent::Read(n) => if state == ClientState::Reading {
                if n == 0 {
                    next == ClientState::Finished && action is Close
                } else {
                    next == ClientState::Decoding && action is DecodeRequest
                }
            } else {
                next == state && action is Ignore
            },
            ClientEvent::ReadFailed(msg) => if state == ClientState::Reading {
                next == ClientState::Finished && action == ClientAction::ReportReadError(msg)
            } else {
                next == state && action is Ignore
            },
            ClientEvent::Decoded(request) => if state == ClientState::Decoding {
                match request {
                    Some(req) => next == ClientState::LookingUp && action == ClientAction::LookUp(
                        req,
                    ),
                    None => next == ClientState::Answering && (
                    action matches ClientAction::RejectMalformed(r) && is_error_response(
                        r,
                        "malformed_json"@,
                    )),
                }
            } else {
                next == state && action is Ignore
            },
            ClientEvent::ContextFound { context, latency_ms } => if state
                == ClientState::LookingUp {
                if latency_ms <= timeout_ms {
                    next == ClientState::Answering && (action matches ClientAction::Respond(resp)
                        && {
                        &&& resp.status@ == "ok"@
                        &&& is_v4_uuid_text(resp.request_id@)
                        &&& resp.message@ == received_message()
                        &&& resp.context_snippet == context
                        &&& resp.latency_ms == latency_ms
                    })
                } else {
                    next == ClientState::Finished && (action matches ClientAction::ReportTimeout(r)
                        && is_error_response(r, "timeout"@))
                }
            } else {
                next == state && action is Ignore
            },
            ClientEvent::AnswerSent => if state == ClientState::Answering {
                next == ClientState::Finished && action is Close
            } else {
                next == state && action is Ignore
            },
        }
    }
}

/// One step of the client protocol: reads, decoding, the context look-up,
/// writing the answer and the time limit of `timeout_ms`, each answered with
/// the next state and what to do.
pub fn client_step(state: ClientState, event: ClientEvent, timeout_ms: u64) -> (r: (
    ClientState,
    ClientAction,
))
    ensures
        client_step_spec(state, event, timeout_ms, r.0, r.1),
{
    if state == ClientState::Finished {
        return (ClientState::Finished, ClientAction::Ignore);
    }
    match event {
        ClientEvent::TimedOut => (ClientState::Finished, ClientAction::ReportTimeout(timeout_response())),
        ClientEvent::Read(n) => {
            if state != ClientState::Reading {
                (state, ClientAction::Ignore)
            } else if n == 0 {
                (ClientState::Finished, ClientAction::Close)
            } else {
                (ClientState::Decoding, ClientAction::DecodeRequest)
            }
        },
        ClientEvent::ReadFailed(msg) => {
            if state != ClientState::Reading {
                (state, ClientAction::Ignore)
            } else {
                (ClientState::Finished, ClientAction::ReportReadError(msg))
            }
        },
        ClientEvent::Decoded(request) => {
            if state != ClientState::Decoding {
                (state, ClientAction::Ignore)
            } else {
                match request {
                    Some(req) => (ClientState::LookingUp, ClientAction::LookUp(req)),
                    None => (
                        ClientState::Answering,
                        ClientAction::RejectMalformed(malformed_json_response()),
                    ),
                }
            }
        },
        ClientEvent::ContextFound { context, latency_ms } => {
            if state != ClientState::LookingUp {
                (state, ClientAction::Ignore)
            } else if latency_ms > timeout_ms as u128 {
                (ClientState::Finished, ClientAction::ReportTimeout(timeout_response()))
            } else {
                let response = context_response(new_request_id(), context, latency_ms);
                (ClientState::Answering, ClientAction::Respond(response))
            }
        },
        ClientEvent::AnswerSent => {
            if state != ClientState::Answering {
                (state, ClientAction::Ignore)
            } else {
                (ClientState::Finished, ClientAction::Close)
            }
        },
    }
}

/// The steps that start writing an answer to the client.
pub open spec fn sends_answer(action: ClientAction) -> bool {
    ||| action is RejectMalformed
    ||| action is Respond
    ||| action is ReportTimeout
}

/// Once a connection is finished every later event is ignored. An answer of
/// `ok` or `malformed_json` is followed only by its completion or, when the
/// time runs out while it is written, the `timeout` error; the `timeout` error
/// finishes the connection. So a client gets at most one answer, followed at
/// most by the `timeout` error that interrupts it.
pub proof fn law_answered_at_most_once(
    state: ClientState,
    event: ClientEvent,
    timeout_ms: u64,
    next: ClientState,
    action: ClientAction,
)
    requires
        client_step_spec(state, event, timeout_ms, next, action),
    ensures
        state == ClientState::Finished ==> next == ClientState::Finished && action is Ignore,
        sends_answer(action) ==> state != ClientState::Finished && state
            != ClientState::Answering || action is ReportTimeout,
        action is Respond || action is RejectMalformed ==> next == ClientState::Answering,
        action is ReportTimeout ==> next == ClientState::Finished,
        state == ClientState::Answering ==> (action is Ignore && next == state) || action is Close
            || action is ReportTimeout,
{
}

/// A connection that has not finished always answers the time limit running
/// out with the `timeout` error, also while an answer is being written.
pub proof fn law_timeout_is_answered(
    state: ClientState,
    timeout_ms: u64,
    next: ClientState,
    action: ClientAction,
)
    requires
        state != ClientState::Finished,
        client_step_spec(state, ClientEvent::TimedOut, timeout_ms, next, action),
    ensures
        next == ClientState::Finished,
        action matches ClientAction::ReportTimeout(r) && is_error_response(r, "timeout"@),
{
}

/// Malformed input does not end the service: bytes that do not decode as a
/// request are answered with the `malformed_json` error.
pub proof fn law_malformed_request_is_answered(
    timeout_ms: u64,
    next: ClientState,
    action: ClientAction,
)
    requires
        client_step_spec(ClientState::Decoding, ClientEvent::Decoded(None), timeout_ms, next, action),
    ensures
        next == ClientState::Answering,
        action matches ClientAction::RejectMalformed(r) && is_error_response(r, "malformed_json"@),
{
}

/// A request that arrives and decodes is looked up as it was sent; when its
/// context is found within the time allowed, the answer carries that context
/// with status `ok`, and the connection finishes once the answer is sent.
pub proof fn law_request_is_answered_with_its_context(
    n: usize,
    request: ContextRequest,
    context: Option<ParsedContext>,
    latency_ms: u128,
    timeout_ms: u64,
    s1: ClientState,
    a1: ClientAction,
    s2: ClientState,
    a2: ClientAction,
    s3: ClientState,
    a3: ClientAction,
    s4: ClientState,
    a4: ClientAction,
)
    requires
        n > 0,
        latency_ms <= timeout_ms,
        client_step_spec(ClientState::Reading, ClientEvent::Read(n), timeout_ms, s1, a1),
        client_step_spec(s1, ClientEvent::Decoded(Some(request)), timeout_ms, s2, a2),
        client_step_spec(
            s2,
            ClientEvent::ContextFound { context, latency_ms },
            timeout_ms,
            s3,
            a3,
        ),
        client_step_spec(s3, ClientEvent::AnswerSent, timeout_ms, s4, a4),
    ensures
        a1 is DecodeRequest,
        a2 == ClientAction::LookUp(request),
        a3 matches ClientAction::Respond(r) && r.status@ == "ok"@ && r.context_snippet == context
            && r.message@ == received_message() && r.latency_ms == latency_ms,
        s4 == ClientState::Finished,
        a4 is Close,
{
}

/// A context found after the time allowed is not sent: the client gets the
/// `timeout` error instead, so every `ok` answer has a latency within the
/// limit.
pub proof fn law_late_context_times_out(
    context: Option<ParsedContext>,
    latency_ms: u128,
    timeout_ms: u64,
    next: ClientState,
    action: ClientAction,
)
    requires
        client_step_spec(
            ClientState::LookingUp,
            ClientEvent::ContextFound { context, latency_ms },
            timeout_ms,
            next,
            action,
        ),
    ensures
        latency_ms > timeout_ms ==> next == ClientState::Finished && (
        action matches ClientAction::ReportTimeout(r) && is_error_response(r, "timeout"@)),
        action matches ClientAction::Respond(r) ==> r.latency_ms <= timeout_ms,
{
}

/// What became of an attempt to take a new connection.
#[derive(Debug, Clone)]
pub enum AcceptOutcome {
    /// A client connected; `permit_acquired` tells whether a serving slot was free.
    Connected { permit_acquired: bool },
    /// Taking the connection failed with this message.
    Failed(String),
}

/// What the daemon does with a new connection.
#[derive(Debug, Clone)]
pub enum DaemonAction {
    /// Serve the client in a task of its own.
    Serve,
    /// Drop the client at once and log the rejection: all slots are taken.
    Reject,
    /// Log the failure and keep listening.
    ReportAcceptError(String),
}

/// Back-pressure at the door: a client is served only with a free slot, and
/// turned away at once otherwise, never queued.
pub fn on_accept(outcome: AcceptOutcome) -> (action: DaemonAction)
    ensures
        match outcome {
            AcceptOutcome::Connected { permit_acquired } => if permit_acquired {
                action is Serve
            } else {
                action is Reject
            },
            AcceptOutcome::Failed(msg) => action == DaemonAction::ReportAcceptError(msg),
        },
{
    match outcome {
        AcceptOutcome::Connected { permit_acquired } => {
            if permit_acquired {
                DaemonAction::Serve
            } else {
                DaemonAction::Reject
            }
        },
        AcceptOutcome::Failed(msg) => DaemonAction::ReportAcceptError(msg),
    }
}

} // verus!
