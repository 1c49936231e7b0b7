use cdp_core::error::CdpError;
use cdp_core::handler::{Effect, Handler, HandlerMessage, IncomingMessage};
use cdp_core::wire::{CdpEvent, CdpEventMessage, CommandMessage, RequestError, Response};

fn json(text: &str) -> serde_json::Value {
    serde_json::from_str(text).unwrap()
}

fn new_handler() -> Handler {
    let (handler, discover) = Handler::new(1, 30000, serde_json::Value::Null);
    let discover = discover.unwrap();
    assert_eq!(discover.id, 1);
    assert_eq!(discover.method, "Target.setDiscoverTargets");
    handler
}

fn target_created(id: &str) -> IncomingMessage {
    IncomingMessage::Event(CdpEventMessage {
        session_id: None,
        event: CdpEvent::TargetCreated { target_id: id.to_string(), kind: "page".to_string() },
    })
}

fn attached(session: &str, target: &str) -> IncomingMessage {
    IncomingMessage::Event(CdpEventMessage {
        session_id: None,
        event: CdpEvent::AttachedToTarget {
            session_id: session.to_string(),
            target_id: target.to_string(),
            kind: "page".to_string(),
        },
    })
}

fn response_ok(id: u64, body: &str) -> IncomingMessage {
    IncomingMessage::Response(Response { id, result: Some(json(body)), error: None })
}

fn count_command_completions(effects: &[Effect]) -> usize {
    effects
        .iter()
        .filter(|e| matches!(e, Effect::CompleteCommand { .. }))
        .count()
}

#[test]
fn create_page_happy_path() {
    let mut h = new_handler();
    let (effects, err) = h.tick(
        vec![HandlerMessage::CreatePage { params: serde_json::Value::Null, tx: 5 }],
        vec![],
        0,
        false,
    );
    assert!(err.is_none());
    let call_id = match &effects[..] {
        [Effect::Send(msg)] => {
            assert_eq!(msg.method, "Target.createTarget");
            msg.id
        }
        other => panic!("unexpected effects: {other:?}"),
    };
    // The browser announces and attaches the target, then answers the
    // create-target command.
    let (effects, err) = h.tick(
        vec![],
        vec![
            target_created("T1"),
            attached("S1", "T1"),
            response_ok(call_id, r#"{"targetId":"T1"}"#),
        ],
        1,
        false,
    );
    assert!(err.is_none());
    assert!(effects.is_empty());
    // The next pass polls the target, which is initialized, and delivers
    // the page to the waiting creator.
    let (effects, err) = h.tick(vec![], vec![], 2, false);
    assert!(err.is_none());
    match &effects[..] {
        [Effect::CompletePage { tx: 5, result: Ok(page) }] => assert_eq!(page, "T1"),
        other => panic!("unexpected effects: {other:?}"),
    }
}

#[test]
fn external_command_delivers_raw_response() {
    let mut h = new_handler();
    let (effects, _) = h.tick(
        vec![HandlerMessage::Command(CommandMessage {
            method: "Browser.getVersion".to_string(),
            session_id: None,
            params: json("{}"),
            sender: 7,
        })],
        vec![],
        0,
        false,
    );
    let call_id = match &effects[..] {
        [Effect::Send(msg)] => {
            assert_eq!(msg.method, "Browser.getVersion");
            msg.id
        }
        other => panic!("unexpected effects: {other:?}"),
    };
    let (effects, _) = h.tick(
        vec![],
        vec![response_ok(call_id, r#"{"product":"HeadlessChrome/90.0"}"#)],
        1,
        false,
    );
    match &effects[..] {
        [Effect::CompleteCommand { tx: 7, result: Ok(resp) }] => {
            assert_eq!(resp.id, call_id);
            assert_eq!(resp.result, Some(json(r#"{"product":"HeadlessChrome/90.0"}"#)));
        }
        other => panic!("unexpected effects: {other:?}"),
    }
}

fn start_navigation(h: &mut Handler) -> u64 {
    let (_, err) = h.tick(vec![], vec![target_created("T1"), attached("S1", "T1")], 0, false);
    assert!(err.is_none());
    let ok = h.deliver_to_target(
        &"T1".to_string(),
        CommandMessage {
            method: "Page.navigate".to_string(),
            session_id: Some("S1".to_string()),
            params: json(r#"{"url":"https://example.com"}"#),
            sender: 9,
        },
    );
    assert!(ok);
    let (effects, _) = h.tick(vec![], vec![], 1, false);
    match &effects[..] {
        [Effect::Send(msg)] => {
            assert_eq!(msg.method, "Page.navigate");
            msg.id
        }
        other => panic!("unexpected effects: {other:?}"),
    }
}

fn lifecycle(session: &str, name: &str) -> IncomingMessage {
    IncomingMessage::Event(CdpEventMessage {
        session_id: Some(session.to_string()),
        event: CdpEvent::Lifecycle { name: name.to_string() },
    })
}

#[test]
fn navigate_response_before_lifecycle() {
    let mut h = new_handler();
    let call_id = start_navigation(&mut h);
    // The command reply alone answers nobody.
    let (effects, _) = h.tick(vec![], vec![response_ok(call_id, r#"{"frameId":"F1"}"#)], 2, false);
    assert_eq!(count_command_completions(&effects), 0);
    // The terminal lifecycle event is routed to the target; the next pass
    // joins the two signals and answers exactly once.
    let (effects, _) = h.tick(vec![], vec![lifecycle("S1", "load")], 3, false);
    assert_eq!(count_command_completions(&effects), 0);
    let (effects, _) = h.tick(vec![], vec![], 4, false);
    match &effects[..] {
        [Effect::CompleteCommand { tx: 9, result: Ok(resp) }] => {
            assert_eq!(resp.id, call_id);
            assert_eq!(resp.result, Some(json(r#"{"frameId":"F1"}"#)));
        }
        other => panic!("unexpected effects: {other:?}"),
    }
    // Nothing fires twice.
    let (effects, _) = h.tick(vec![], vec![], 5, false);
    assert!(effects.is_empty());
}

#[test]
fn navigate_lifecycle_before_response() {
    let mut h = new_handler();
    let call_id = start_navigation(&mut h);
    let (effects, _) = h.tick(vec![], vec![lifecycle("S1", "networkIdle")], 2, false);
    assert_eq!(count_command_completions(&effects), 0);
    // The pass after the lifecycle event records completion; the reply is
    // still missing, so nobody is answered yet.
    let (effects, _) = h.tick(vec![], vec![], 3, false);
    assert_eq!(count_command_completions(&effects), 0);
    let (effects, _) = h.tick(vec![], vec![response_ok(call_id, r#"{"frameId":"F1"}"#)], 4, false);
    match &effects[..] {
        [Effect::CompleteCommand { tx: 9, result: Ok(resp) }] => {
            assert_eq!(resp.result, Some(json(r#"{"frameId":"F1"}"#)));
        }
        other => panic!("unexpected effects: {other:?}"),
    }
}

#[test]
fn navigate_failure_answers_with_navigation_error() {
    let mut h = new_handler();
    let call_id = start_navigation(&mut h);
    let (effects, _) = h.tick(vec![], vec![response_ok(call_id, r#"{"frameId":"F1"}"#)], 2, false);
    assert_eq!(count_command_completions(&effects), 0);
    let failure = IncomingMessage::Event(CdpEventMessage {
        session_id: Some("S1".to_string()),
        event: CdpEvent::NavigationFailed { kind: "ABORTED".to_string() },
    });
    let (effects, _) = h.tick(vec![], vec![failure], 3, false);
    assert_eq!(count_command_completions(&effects), 0);
    let (effects, _) = h.tick(vec![], vec![], 4, false);
    match &effects[..] {
        [Effect::CompleteCommand { tx: 9, result: Err(CdpError::Navigation { kind }) }] => {
            assert_eq!(kind, "ABORTED");
        }
        other => panic!("unexpected effects: {other:?}"),
    }
}

#[test]
fn timeout_evicts_and_late_response_is_dropped() {
    let mut h = new_handler();
    let (effects, _) = h.tick(
        vec![HandlerMessage::Command(CommandMessage {
            method: "Browser.getVersion".to_string(),
            session_id: None,
            params: json("{}"),
            sender: 7,
        })],
        vec![],
        0,
        false,
    );
    let call_id = match &effects[..] {
        [Effect::Send(msg)] => msg.id,
        other => panic!("unexpected effects: {other:?}"),
    };
    // A tick within the timeout does not evict.
    let (effects, _) = h.tick(vec![], vec![], 30000, true);
    assert!(effects.is_empty());
    // The next periodic tick past the timeout evicts the entry.
    let (effects, _) = h.tick(vec![], vec![], 30001, true);
    match &effects[..] {
        [Effect::CompleteCommand { tx: 7, result: Err(CdpError::Timeout) }] => {}
        other => panic!("unexpected effects: {other:?}"),
    }
    // The reply arriving after eviction answers nobody.
    let (effects, _) = h.tick(vec![], vec![response_ok(call_id, "{}")], 30002, false);
    assert!(effects.is_empty());
}

#[test]
fn duplicate_response_dispatches_once() {
    let mut h = new_handler();
    let (effects, _) = h.tick(
        vec![HandlerMessage::Command(CommandMessage {
            method: "Browser.getVersion".to_string(),
            session_id: None,
            params: json("{}"),
            sender: 3,
        })],
        vec![],
        0,
        false,
    );
    let call_id = match &effects[..] {
        [Effect::Send(msg)] => msg.id,
        other => panic!("unexpected effects: {other:?}"),
    };
    let (effects, _) = h.tick(vec![], vec![response_ok(call_id, "{}")], 1, false);
    assert_eq!(count_command_completions(&effects), 1);
    let (effects, _) = h.tick(vec![], vec![response_ok(call_id, "{}")], 2, false);
    assert_eq!(count_command_completions(&effects), 0);
}

#[test]
fn call_ids_strictly_increase() {
    let mut h = new_handler();
    let command = |sender: u64| {
        HandlerMessage::Command(CommandMessage {
            method: "Browser.getVersion".to_string(),
            session_id: None,
            params: serde_json::Value::Null,
            sender,
        })
    };
    let (effects, _) = h.tick(vec![command(1), command(2), command(3)], vec![], 0, false);
    let ids: Vec<u64> = effects
        .iter()
        .map(|e| match e {
            Effect::Send(msg) => msg.id,
            other => panic!("unexpected effect: {other:?}"),
        })
        .collect();
    assert_eq!(ids, vec![2, 3, 4]);
}

#[test]
fn registry_tracks_creation_attachment_and_destruction() {
    let mut h = new_handler();
    let (_, err) = h.tick(
        vec![],
        vec![target_created("T1"), target_created("T2"), attached("S1", "T1")],
        0,
        false,
    );
    assert!(err.is_none());
    assert_eq!(h.targets().len(), 2);
    let t1 = h.get_target(&"T1".to_string()).unwrap();
    assert_eq!(t1.session_id, Some("S1".to_string()));
    assert!(h.get_target(&"T2".to_string()).is_some());

    let detach = IncomingMessage::Event(CdpEventMessage {
        session_id: None,
        event: CdpEvent::DetachedFromTarget { session_id: "S1".to_string() },
    });
    let (_, _) = h.tick(vec![], vec![detach], 1, false);
    assert_eq!(h.get_target(&"T1".to_string()).unwrap().session_id, None);

    let destroy = IncomingMessage::Event(CdpEventMessage {
        session_id: None,
        event: CdpEvent::TargetDestroyed { target_id: "T1".to_string() },
    });
    let (_, _) = h.tick(vec![], vec![destroy], 2, false);
    assert!(h.get_target(&"T1".to_string()).is_none());
    assert_eq!(h.targets().len(), 1);
}

#[test]
fn get_pages_lists_one_page_per_ready_target() {
    let mut h = new_handler();
    let (_, _) = h.tick(
        vec![],
        vec![target_created("T1"), target_created("T2"), attached("S1", "T1")],
        0,
        false,
    );
    let (effects, _) = h.tick(vec![HandlerMessage::GetPages { tx: 4 }], vec![], 1, false);
    match &effects[..] {
        [Effect::CompletePages { tx: 4, pages }] => assert_eq!(pages, &vec!["T1".to_string()]),
        other => panic!("unexpected effects: {other:?}"),
    }
}

#[test]
fn create_target_response_for_unknown_target_fails_structurally() {
    let mut h = new_handler();
    let (effects, _) = h.tick(
        vec![HandlerMessage::CreatePage { params: serde_json::Value::Null, tx: 5 }],
        vec![],
        0,
        false,
    );
    let call_id = match &effects[..] {
        [Effect::Send(msg)] => msg.id,
        other => panic!("unexpected effects: {other:?}"),
    };
    let (effects, _) = h.tick(
        vec![],
        vec![response_ok(call_id, r#"{"targetId":"T9"}"#)],
        1,
        false,
    );
    match &effects[..] {
        [Effect::CompletePage { tx: 5, result: Err(CdpError::UnknownTarget) }] => {}
        other => panic!("unexpected effects: {other:?}"),
    }
}

#[test]
fn create_target_response_without_target_id_is_serialization_error() {
    let mut h = new_handler();
    let (effects, _) = h.tick(
        vec![HandlerMessage::CreatePage { params: serde_json::Value::Null, tx: 5 }],
        vec![],
        0,
        false,
    );
    let call_id = match &effects[..] {
        [Effect::Send(msg)] => msg.id,
        other => panic!("unexpected effects: {other:?}"),
    };
    let (effects, _) = h.tick(vec![], vec![response_ok(call_id, r#"{"nope":1}"#)], 1, false);
    match &effects[..] {
        [Effect::CompletePage { tx: 5, result: Err(CdpError::Serialization) }] => {}
        other => panic!("unexpected effects: {other:?}"),
    }
}

#[test]
fn create_target_error_payload_reaches_creator() {
    let mut h = new_handler();
    let (effects, _) = h.tick(
        vec![HandlerMessage::CreatePage { params: serde_json::Value::Null, tx: 5 }],
        vec![],
        0,
        false,
    );
    let call_id = match &effects[..] {
        [Effect::Send(msg)] => msg.id,
        other => panic!("unexpected effects: {other:?}"),
    };
    let failure = IncomingMessage::Response(Response {
        id: call_id,
        result: None,
        error: Some(RequestError { code: -32000, message: "not allowed".to_string() }),
    });
    let (effects, _) = h.tick(vec![], vec![failure], 1, false);
    match &effects[..] {
        [Effect::CompletePage { tx: 5, result: Err(CdpError::Protocol { code, message }) }] => {
            assert_eq!(*code, -32000);
            assert_eq!(message, "not allowed");
        }
        other => panic!("unexpected effects: {other:?}"),
    }
}

#[test]
fn transport_error_is_terminal() {
    let mut h = new_handler();
    let (_, err) = h.tick(vec![], vec![IncomingMessage::TransportError], 0, false);
    assert!(matches!(err, Some(CdpError::Transport)));
}

#[test]
fn subscribe_is_inert() {
    let mut h = new_handler();
    let (effects, err) = h.tick(vec![HandlerMessage::Subscribe], vec![], 0, false);
    assert!(effects.is_empty());
    assert!(err.is_none());
}

#[test]
fn unknown_events_are_ignored() {
    let mut h = new_handler();
    let other = IncomingMessage::Event(CdpEventMessage {
        session_id: None,
        event: CdpEvent::Other { method: "Network.requestWillBeSent".to_string() },
    });
    let (effects, err) = h.tick(vec![], vec![other], 0, false);
    assert!(effects.is_empty());
    assert!(err.is_none());
}

#[test]
fn navigation_timeout_fails_the_navigation() {
    let mut h = new_handler();
    let _call_id = start_navigation(&mut h);
    // The navigate command was issued at 1 ms; past the timeout the entry
    // is evicted and the navigation's caller hears the timeout.
    let (effects, _) = h.tick(vec![], vec![], 30002, true);
    match &effects[..] {
        [Effect::CompleteCommand { tx: 9, result: Err(CdpError::Timeout) }] => {}
        other => panic!("unexpected effects: {other:?}"),
    }
    // The lifecycle completing afterwards finds no navigation to answer.
    let (effects, _) = h.tick(vec![], vec![lifecycle("S1", "load")], 30003, false);
    assert!(effects.is_empty());
    let (effects, _) = h.tick(vec![], vec![], 30004, false);
    assert_eq!(count_command_completions(&effects), 0);
}
