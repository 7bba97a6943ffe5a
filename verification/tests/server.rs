use nilsu::parser::ParsedContext;
use nilsu::server::{
    client_step, context_response, malformed_json_response, on_accept, timeout_response,
    AcceptOutcome, ClientAction, ClientEvent, ClientState, ContextRequest, DaemonAction,
};

fn request() -> ContextRequest {
    ContextRequest { action: "get_context".to_string(), file: "src/main.rs".to_string(), cursor_line: 5 }
}

fn context() -> ParsedContext {
    ParsedContext { code_snippet: "fn a() {}".to_string(), start_line: 1, end_line: 1 }
}

fn is_v4_uuid(id: &str) -> bool {
    let chars: Vec<char> = id.chars().collect();
    chars.len() == 36
        && chars.iter().enumerate().all(|(i, c)| {
            if [8, 13, 18, 23].contains(&i) { *c == '-' } else { c.is_ascii_digit() || ('a'..='f').contains(c) }
        })
        && chars[14] == '4'
        && "89ab".contains(chars[19])
}

#[test]
fn error_responses_carry_their_codes() {
    let m = malformed_json_response();
    assert_eq!((m.status.as_str(), m.error.as_str()), ("error", "malformed_json"));
    let t = timeout_response();
    assert_eq!((t.status.as_str(), t.error.as_str()), ("error", "timeout"));
}

const LIMIT: u64 = 200;

#[test]
fn context_response_messages() {
    let found = context_response("id".to_string(), Some(context()), 7);
    assert_eq!(found.status, "ok");
    assert_eq!(found.request_id, "id");
    assert_eq!(found.message, "request received");
    assert_eq!(found.latency_ms, 7);
    assert_eq!(found.context_snippet.unwrap().code_snippet, "fn a() {}");
    let missing = context_response("id".to_string(), None, 0);
    assert_eq!(missing.message, "request received");
    assert!(missing.context_snippet.is_none());
}

#[test]
fn a_closed_connection_is_dropped_unanswered() {
    let (state, action) = client_step(ClientState::Reading, ClientEvent::Read(0), LIMIT);
    assert_eq!(state, ClientState::Finished);
    assert!(matches!(action, ClientAction::Close));
}

#[test]
fn a_failed_read_is_logged_and_dropped() {
    let (state, action) = client_step(ClientState::Reading, ClientEvent::ReadFailed("reset".to_string()), LIMIT);
    assert_eq!(state, ClientState::Finished);
    match action {
        ClientAction::ReportReadError(msg) => assert_eq!(msg, "reset"),
        other => panic!("unexpected {:?}", other),
    }
}

#[test]
fn a_malformed_request_gets_the_malformed_json_error() {
    let (state, action) = client_step(ClientState::Reading, ClientEvent::Read(20), LIMIT);
    assert_eq!(state, ClientState::Decoding);
    assert!(matches!(action, ClientAction::DecodeRequest));
    let (state, action) = client_step(state, ClientEvent::Decoded(None), LIMIT);
    assert_eq!(state, ClientState::Answering);
    match action {
        ClientAction::RejectMalformed(r) => assert_eq!(r.error, "malformed_json"),
        other => panic!("unexpected {:?}", other),
    }
    let (state, action) = client_step(state, ClientEvent::AnswerSent, LIMIT);
    assert_eq!(state, ClientState::Finished);
    assert!(matches!(action, ClientAction::Close));
}

#[test]
fn a_request_is_looked_up_and_answered() {
    let (state, _) = client_step(ClientState::Reading, ClientEvent::Read(64), LIMIT);
    let (state, action) = client_step(state, ClientEvent::Decoded(Some(request())), LIMIT);
    assert_eq!(state, ClientState::LookingUp);
    match action {
        ClientAction::LookUp(r) => {
            assert_eq!(r.file, "src/main.rs");
            assert_eq!(r.cursor_line, 5);
        }
        other => panic!("unexpected {:?}", other),
    }
    let (state, action) = client_step(state, ClientEvent::ContextFound { context: Some(context()), latency_ms: 3 }, LIMIT);
    assert_eq!(state, ClientState::Answering);
    match action {
        ClientAction::Respond(r) => {
            assert_eq!(r.status, "ok");
            assert_eq!(r.message, "request received");
            assert_eq!(r.latency_ms, 3);
            assert!(is_v4_uuid(&r.request_id), "{}", r.request_id);
        }
        other => panic!("unexpected {:?}", other),
    }
    let (state, action) = client_step(state, ClientEvent::AnswerSent, LIMIT);
    assert_eq!(state, ClientState::Finished);
    assert!(matches!(action, ClientAction::Close));
}

#[test]
fn a_context_found_at_the_limit_is_still_answered() {
    let (state, action) = client_step(ClientState::LookingUp, ClientEvent::ContextFound { context: None, latency_ms: 200 }, LIMIT);
    assert_eq!(state, ClientState::Answering);
    assert!(matches!(action, ClientAction::Respond(_)));
}

#[test]
fn a_context_found_after_the_limit_gets_the_timeout_error() {
    let (state, action) = client_step(ClientState::LookingUp, ClientEvent::ContextFound { context: Some(context()), latency_ms: 500 }, LIMIT);
    assert_eq!(state, ClientState::Finished);
    match action {
        ClientAction::ReportTimeout(r) => assert_eq!((r.status.as_str(), r.error.as_str()), ("error", "timeout")),
        other => panic!("unexpected {:?}", other),
    }
}

#[test]
fn request_ids_are_fresh_v4_uuids() {
    let id = |_: u8| match client_step(ClientState::LookingUp, ClientEvent::ContextFound { context: None, latency_ms: 0 }, LIMIT).1 {
        ClientAction::Respond(r) => {
            assert_eq!(r.message, "request received");
            r.request_id
        }
        other => panic!("unexpected {:?}", other),
    };
    let (a, b) = (id(0), id(1));
    assert!(is_v4_uuid(&a) && is_v4_uuid(&b));
    assert_ne!(a, b);
}

#[test]
fn a_timeout_is_answered_in_every_unfinished_state() {
    for state in [ClientState::Reading, ClientState::Decoding, ClientState::LookingUp, ClientState::Answering] {
        let (next, action) = client_step(state, ClientEvent::TimedOut, LIMIT);
        assert_eq!(next, ClientState::Finished);
        match action {
            ClientAction::ReportTimeout(r) => assert_eq!(r.error, "timeout"),
            other => panic!("unexpected {:?}", other),
        }
    }
}

#[test]
fn a_finished_connection_ignores_everything() {
    let events = vec![
        ClientEvent::Read(10),
        ClientEvent::ReadFailed("x".to_string()),
        ClientEvent::Decoded(None),
        ClientEvent::Decoded(Some(request())),
        ClientEvent::ContextFound { context: None, latency_ms: 1 },
        ClientEvent::AnswerSent,
        ClientEvent::TimedOut,
    ];
    for event in events {
        let (state, action) = client_step(ClientState::Finished, event, LIMIT);
        assert_eq!(state, ClientState::Finished);
        assert!(matches!(action, ClientAction::Ignore));
    }
}

#[test]
fn events_out_of_order_are_ignored() {
    let (state, action) = client_step(ClientState::Decoding, ClientEvent::Read(3), LIMIT);
    assert_eq!(state, ClientState::Decoding);
    assert!(matches!(action, ClientAction::Ignore));
    let (state, action) = client_step(ClientState::Reading, ClientEvent::Decoded(None), LIMIT);
    assert_eq!(state, ClientState::Reading);
    assert!(matches!(action, ClientAction::Ignore));
    let (state, action) = client_step(ClientState::Decoding, ClientEvent::ContextFound { context: None, latency_ms: 0 }, LIMIT);
    assert_eq!(state, ClientState::Decoding);
    assert!(matches!(action, ClientAction::Ignore));
    let (state, action) = client_step(ClientState::LookingUp, ClientEvent::AnswerSent, LIMIT);
    assert_eq!(state, ClientState::LookingUp);
    assert!(matches!(action, ClientAction::Ignore));
    let (state, action) = client_step(ClientState::Answering, ClientEvent::Read(3), LIMIT);
    assert_eq!(state, ClientState::Answering);
    assert!(matches!(action, ClientAction::Ignore));
}

#[test]
fn accept_serves_only_with_a_free_slot() {
    assert!(matches!(on_accept(AcceptOutcome::Connected { permit_acquired: true }), DaemonAction::Serve));
    assert!(matches!(on_accept(AcceptOutcome::Connected { permit_acquired: false }), DaemonAction::Reject));
    match on_accept(AcceptOutcome::Failed("too many files".to_string())) {
        DaemonAction::ReportAcceptError(msg) => assert_eq!(msg, "too many files"),
        other => panic!("unexpected {:?}", other),
    }
}
