use cdp_core::error::CdpError;
use cdp_core::httpfuture::{CommandPoll, HttpFuture, HttpPollResult, NavigationPoll};
use cdp_core::wire::{created_target_id, to_command_response, RequestError, Response};

fn json(text: &str) -> serde_json::Value {
    serde_json::from_str(text).unwrap()
}

#[test]
fn command_response_round_trip_is_identity() {
    let payload = json(r#"{"product":"HeadlessChrome/90.0","revision":"x"}"#);
    // Encode a successful outcome as a wire response, then decode it again.
    let wire = Response { id: 41, result: Some(payload.clone()), error: None };
    let decoded = to_command_response(wire).unwrap();
    assert_eq!(decoded.id, 41);
    assert_eq!(decoded.result, payload);
}

#[test]
fn response_error_payload_becomes_protocol_error() {
    let wire = Response {
        id: 8,
        result: None,
        error: Some(RequestError { code: -32601, message: "method not found".to_string() }),
    };
    match to_command_response(wire) {
        Err(CdpError::Protocol { code, message }) => {
            assert_eq!(code, -32601);
            assert_eq!(message, "method not found");
        }
        other => panic!("unexpected outcome: {other:?}"),
    }
}

#[test]
fn response_with_neither_slot_is_no_response() {
    let wire = Response { id: 8, result: None, error: None };
    assert!(matches!(to_command_response(wire), Err(CdpError::NoResponse)));
}

#[test]
fn result_slot_wins_over_error_payload() {
    let wire = Response {
        id: 9,
        result: Some(json("{}")),
        error: Some(RequestError { code: 1, message: "stale".to_string() }),
    };
    assert!(to_command_response(wire).is_ok());
}

#[test]
fn created_target_id_reads_the_payload() {
    assert_eq!(created_target_id(&json(r#"{"targetId":"X9"}"#)), Some("X9".to_string()));
    assert_eq!(created_target_id(&json(r#"{"other":"X9"}"#)), None);
    assert_eq!(created_target_id(&json(r#"{"targetId":7}"#)), None);
    assert_eq!(created_target_id(&json(r#""X9""#)), None);
}

#[test]
fn http_future_surfaces_navigation_only_after_command() {
    let mut f = HttpFuture::new();
    // The navigation being ready early changes nothing while the command is
    // still open.
    let ready_nav = NavigationPoll::Ready(Ok(Some(json(r#"{"url":"https://example.com"}"#))));
    assert!(matches!(f.poll(CommandPoll::Pending, ready_nav), HttpPollResult::Pending));
    let ready_nav = NavigationPoll::Ready(Ok(Some(json(r#"{"url":"https://example.com"}"#))));
    assert!(matches!(f.poll(CommandPoll::Ready(Ok(())), ready_nav), HttpPollResult::Pending));
    // After the command settled, the navigation outcome is surfaced.
    let ready_nav = NavigationPoll::Ready(Ok(Some(json(r#"{"url":"https://example.com"}"#))));
    match f.poll(CommandPoll::Pending, ready_nav) {
        HttpPollResult::Ready(Ok(Some(info))) => {
            assert_eq!(info, json(r#"{"url":"https://example.com"}"#));
        }
        other => panic!("unexpected outcome: {other:?}"),
    }
}

#[test]
fn http_future_command_failure_resolves_at_once() {
    let mut f = HttpFuture::new();
    let r = f.poll(CommandPoll::Ready(Err(CdpError::Timeout)), NavigationPoll::Pending);
    assert!(matches!(r, HttpPollResult::Ready(Err(CdpError::Timeout))));
}

#[test]
fn http_future_navigation_without_request_yields_none() {
    let mut f = HttpFuture::new();
    assert!(matches!(
        f.poll(CommandPoll::Ready(Ok(())), NavigationPoll::Pending),
        HttpPollResult::Pending
    ));
    match f.poll(CommandPoll::Pending, NavigationPoll::Ready(Ok(None))) {
        HttpPollResult::Ready(Ok(None)) => {}
        other => panic!("unexpected outcome: {other:?}"),
    }
}
