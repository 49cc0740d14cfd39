//! Behavior of the protocol engine and the lifecycle controller: ordering,
//! routing, closure and the handshake and shutdown scenarios.

use qmp_engine::codec::serialize_line;
use qmp_engine::engine::{Engine, Eof, Routed};
use qmp_engine::lifecycle::{
    classify_exit, ExitClass, ExitStatus, HandshakeError, Lifecycle, Phase, Version,
};
use qmp_engine::msg::{execute_command, Message};
use qmp_engine::policy::{
    cont_command, event_requests_status_query, query_status_command, reply_reports_prelaunch,
};

fn obj(fields: Vec<(&str, Message)>) -> Message {
    Message::Obj(
        fields
            .into_iter()
            .map(|(k, v)| (k.as_bytes().to_vec(), v))
            .collect(),
    )
}

fn s(text: &str) -> Message {
    Message::Str(text.as_bytes().to_vec())
}

const GREETING: &[u8] =
    b"{\"QMP\":{\"version\":{\"qemu\":{\"major\":6,\"minor\":2,\"micro\":0}}}}";

#[test]
fn replies_return_in_submission_order() {
    let mut e = Engine::new();
    let commands = ["one", "two", "three"];
    let mut payloads = Vec::new();
    for (i, name) in commands.iter().enumerate() {
        let line = e
            .submit(execute_command(name))
            .expect("engine is running, slot free");
        assert_eq!(line, serialize_line(&execute_command(name)));
        // the simulated child echoes replies in request order
        let reply = format!("{{\"return\":{{\"id\":{}}}}}", i).into_bytes();
        match e.on_line(&reply) {
            Routed::Reply(p) => payloads.push(p),
            _ => panic!("a reply line with a pending command completes it"),
        }
    }
    assert_eq!(payloads.len(), 3);
    for (i, p) in payloads.iter().enumerate() {
        assert_eq!(*p, obj(vec![("id", Message::Int(i as i64))]));
    }
}

#[test]
fn events_bypass_the_pending_slot_and_keep_wire_order() {
    let mut e = Engine::new();
    e.submit(execute_command("query-status"))
        .expect("slot free");
    assert!(e.pending.is_some());

    // an event interleaved before the reply must not complete the command
    match e.on_line(&b"{\"event\":\"FIRST\"}".to_vec()) {
        Routed::Event => {}
        _ => panic!("an event line is queued, not routed to the slot"),
    }
    assert!(e.pending.is_some(), "the pending command is untouched");

    let first = e.next_event().expect("one event is queued");
    assert_eq!(first, obj(vec![("event", s("FIRST"))]));

    match e.on_line(&b"{\"event\":\"SECOND\"}".to_vec()) {
        Routed::Event => {}
        _ => panic!("second event is queued"),
    }
    let second = e.next_event().expect("second event is queued");
    assert_eq!(second, obj(vec![("event", s("SECOND"))]));

    // the reply still completes the original command
    match e.on_line(&b"{\"return\":{}}".to_vec()) {
        Routed::Reply(p) => assert_eq!(p, obj(vec![])),
        _ => panic!("the reply completes the pending command"),
    }
    assert!(e.pending.is_none());
}

#[test]
fn closed_stream_fails_the_pending_command() {
    let mut e = Engine::new();
    e.submit(execute_command("query-status"))
        .expect("slot free");
    let failed = e.on_eos();
    assert_eq!(failed, Some(execute_command("query-status")));
    assert!(e.pending.is_none());
    // after closure both sides observe the closed condition
    assert_eq!(e.next_event(), Err(Eof));
    assert_eq!(e.submit(execute_command("quit")), Err(Eof));
}

#[test]
fn stray_reply_is_reported_not_swallowed() {
    let mut e = Engine::new();
    match e.on_line(&b"{\"return\":{\"odd\":true}}".to_vec()) {
        Routed::StrayReply(p) => assert_eq!(p, obj(vec![("odd", Message::Bool(true))])),
        _ => panic!("a reply without a pending command is a reported violation"),
    }
    assert!(e.running, "the loop continues after a stray reply");
}

#[test]
fn malformed_line_is_fatal() {
    let mut e = Engine::new();
    e.submit(execute_command("query-status"))
        .expect("slot free");
    match e.on_line(&b"{\"neither\":1}".to_vec()) {
        Routed::Fatal => {}
        _ => panic!("a line of no known shape stops the engine"),
    }
    assert!(!e.running);
    assert!(e.pending.is_none(), "the pending command has been failed");

    let mut e2 = Engine::new();
    match e2.on_line(&b"###".to_vec()) {
        Routed::Fatal => {}
        _ => panic!("an unparseable line stops the engine"),
    }
    assert!(!e2.running);
}

#[test]
fn exit_status_classification() {
    assert_eq!(classify_exit(ExitStatus::Code(0)), ExitClass::Success);
    assert_eq!(
        classify_exit(ExitStatus::Code(1)),
        ExitClass::Failure(ExitStatus::Code(1))
    );
    assert_eq!(
        classify_exit(ExitStatus::Signal(9)),
        ExitClass::Failure(ExitStatus::Signal(9))
    );
}

#[test]
fn graceful_shutdown_classifies_success_and_failure() {
    let mut lc = Lifecycle::new();
    lc.on_spawned();
    lc.on_greeting_line(&GREETING.to_vec()).expect("greeting");
    lc.on_capabilities_reply();
    assert_eq!(lc.phase, Phase::Ready);
    lc.on_closed();
    lc.on_exit(ExitStatus::Code(0));
    assert_eq!(lc.phase, Phase::Terminated);
    assert_eq!(lc.exit_class(), Some(ExitClass::Success));

    let mut lc1 = Lifecycle::new();
    lc1.on_spawned();
    lc1.on_greeting_line(&GREETING.to_vec()).expect("greeting");
    lc1.on_capabilities_reply();
    lc1.on_closed();
    lc1.on_exit(ExitStatus::Code(1));
    assert_eq!(
        lc1.exit_class(),
        Some(ExitClass::Failure(ExitStatus::Code(1))),
        "exit status 1 stays retrievable"
    );
}

#[test]
fn handshake_reaches_ready_on_the_literal_greeting() {
    let mut lc = Lifecycle::new();
    lc.on_spawned();
    assert_eq!(lc.phase, Phase::Handshaking);

    let ver = lc
        .on_greeting_line(&GREETING.to_vec())
        .expect("the literal greeting is valid");
    assert_eq!(ver, Version(6, 2, 0));
    assert_eq!(lc.version, Some(Version(6, 2, 0)));
    assert_eq!(lc.phase, Phase::Handshaking, "Ready comes after the capability reply");

    let mut e = Engine::new();
    let caps_line = e
        .submit(Lifecycle::capabilities_command())
        .expect("slot free");
    assert_eq!(caps_line, b"{\"execute\":\"qmp_capabilities\"}\n".to_vec());

    match e.on_line(&b"{\"return\":{}}".to_vec()) {
        Routed::Reply(p) => assert_eq!(p, obj(vec![])),
        _ => panic!("the capability reply completes the negotiation"),
    }
    lc.on_capabilities_reply();
    assert_eq!(lc.phase, Phase::Ready);
}

#[test]
fn handshake_fails_on_bad_first_lines() {
    let mut lc = Lifecycle::new();
    lc.on_spawned();
    assert_eq!(
        lc.on_greeting_line(&b"{\"foo\":1}".to_vec()),
        Err(HandshakeError::BadGreeting)
    );
    assert_eq!(lc.phase, Phase::Closing);
    lc.on_exit(ExitStatus::Code(1));
    assert_eq!(lc.phase, Phase::Terminated);

    // a version component out of the unsigned 8-bit range is a failure
    let mut lc1 = Lifecycle::new();
    lc1.on_spawned();
    let oversized =
        b"{\"QMP\":{\"version\":{\"qemu\":{\"major\":300,\"minor\":2,\"micro\":0}}}}".to_vec();
    assert_eq!(
        lc1.on_greeting_line(&oversized),
        Err(HandshakeError::BadGreeting)
    );

    // immediate end of stream
    let mut lc2 = Lifecycle::new();
    lc2.on_spawned();
    assert_eq!(
        lc2.on_eos_before_greeting(),
        HandshakeError::ClosedBeforeGreeting
    );
    assert_eq!(lc2.phase, Phase::Closing);
}

#[test]
fn event_before_any_reply_reaches_the_consumer() {
    let mut e = Engine::new();
    assert!(e.pending.is_none());
    match e.on_line(&b"{\"event\":\"VNC_INITIALIZED\"}".to_vec()) {
        Routed::Event => {}
        _ => panic!("the event is queued"),
    }
    let ev = e.next_event().expect("the injected event arrives");
    assert_eq!(ev, obj(vec![("event", s("VNC_INITIALIZED"))]));
    assert!(e.pending.is_none(), "no command was outstanding at any point");
    assert!(event_requests_status_query(&ev));
}

#[test]
fn query_status_reply_resolves_to_the_exact_payload() {
    let mut e = Engine::new();
    let line = e.submit(query_status_command()).expect("slot free");
    assert_eq!(line, b"{\"execute\":\"query-status\"}\n".to_vec());

    match e.on_line(&b"{\"return\":{\"status\":\"prelaunch\"}}".to_vec()) {
        Routed::Reply(p) => {
            assert_eq!(p, obj(vec![("status", s("prelaunch"))]));
            assert!(reply_reports_prelaunch(&p));
        }
        _ => panic!("the reply completes the query"),
    }
}

#[test]
fn prelaunch_policy_drives_the_start_command() {
    let running = obj(vec![("status", s("running"))]);
    assert!(!reply_reports_prelaunch(&running));
    let not_an_event = obj(vec![("name", s("VNC_INITIALIZED"))]);
    assert!(!event_requests_status_query(&not_an_event));
    let other_event = obj(vec![("event", s("POWERDOWN"))]);
    assert!(!event_requests_status_query(&other_event));
    assert_eq!(
        serialize_line(&cont_command()),
        b"{\"execute\":\"cont\"}\n".to_vec()
    );
    assert_eq!(
        serialize_line(&Lifecycle::quit_command()),
        b"{\"execute\":\"quit\"}\n".to_vec()
    );
}

#[test]
fn greeting_after_handshake_is_reported() {
    let mut e = Engine::new();
    match e.on_line(&GREETING.to_vec()) {
        Routed::StrayGreeting(g) => {
            assert!(qmp_engine::msg::get_field(&g, "QMP").is_some());
        }
        _ => panic!("a repeated greeting is a reported violation"),
    }
    assert!(e.running, "the loop continues after a stray greeting");
}
