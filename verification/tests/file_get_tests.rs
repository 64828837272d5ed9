use std::time::Duration;

use file_sharing_example::file_get::{
    BehaviourAction, FileGet, FileGetConfig, FileGetEvent, InboundFailure, OutboundFailure,
    RequestId, RequestIdGenerator,
};
use file_sharing_example::handler::{
    ConnectionEvent, FileGetHandlerEvent, Handler, HandlerAction, KeepAlive, UpgradeFailure,
};
use file_sharing_example::message::FileGetMessage;

fn behaviour() -> FileGet {
    FileGet::from_config(FileGetConfig::new(Duration::from_secs(60)))
}

fn peer(n: u8) -> Vec<u8> {
    vec![0, 36, n]
}

fn drain(b: &mut FileGet) -> Vec<BehaviourAction> {
    let mut out = Vec::new();
    while let Some(a) = b.poll() {
        out.push(a);
    }
    out
}

#[test]
fn request_ids_count_up_from_one() {
    let mut g = RequestIdGenerator::new();
    assert_eq!(g.next_id(), RequestId(1));
    assert_eq!(g.next_id(), RequestId(2));
    assert_eq!(g.next_id(), RequestId(3));
    assert_eq!(RequestId::from(9), RequestId(9));
}

#[test]
fn config_keeps_its_timeout() {
    assert_eq!(FileGetConfig::new(Duration::from_millis(5)).timeout, Duration::from_millis(5));
}

#[test]
fn request_to_unconnected_peer_dials_and_waits() {
    let mut b = behaviour();
    let id = b.send_request(&peer(1), FileGetMessage::new("f".to_string()));
    assert_eq!(id, RequestId(1));
    let actions = drain(&mut b);
    assert_eq!(actions.len(), 1);
    assert!(matches!(&actions[0], BehaviourAction::Dial { peer_id } if *peer_id == peer(1)));

    b.on_connection_established(&peer(1), 7, Some(vec![4, 127, 0, 0, 1]), 0);
    let actions = drain(&mut b);
    assert_eq!(actions.len(), 1);
    match &actions[0] {
        BehaviourAction::NotifyHandler { peer_id, connection_id, request } => {
            assert_eq!(*peer_id, peer(1));
            assert_eq!(*connection_id, 7);
            assert_eq!(request.request_id, RequestId(1));
            assert_eq!(request.file_name, "f");
        }
        other => panic!("unexpected {:?}", other),
    }
}

#[test]
fn waiting_requests_are_sent_in_order_on_first_connection() {
    let mut b = behaviour();
    b.send_request(&peer(2), FileGetMessage::new("a".to_string()));
    b.send_request(&peer(2), FileGetMessage::new("b".to_string()));
    assert_eq!(drain(&mut b).len(), 2);
    b.on_connection_established(&peer(2), 3, None, 0);
    let names: Vec<String> = drain(&mut b)
        .into_iter()
        .map(|a| match a {
            BehaviourAction::NotifyHandler { request, .. } => request.file_name,
            other => panic!("unexpected {:?}", other),
        })
        .collect();
    assert_eq!(names, vec!["a".to_string(), "b".to_string()]);
}

#[test]
fn request_to_connected_peer_goes_to_a_connection() {
    let mut b = behaviour();
    b.on_connection_established(&peer(3), 10, None, 0);
    b.on_connection_established(&peer(3), 11, None, 1);
    let first = b.send_request(&peer(3), FileGetMessage::new("x".to_string()));
    let second = b.send_request(&peer(3), FileGetMessage::new("y".to_string()));
    let conns: Vec<usize> = drain(&mut b)
        .into_iter()
        .map(|a| match a {
            BehaviourAction::NotifyHandler { connection_id, .. } => connection_id,
            other => panic!("unexpected {:?}", other),
        })
        .collect();
    assert_eq!((first, second), (RequestId(1), RequestId(2)));
    assert_eq!(conns, vec![11, 10]);
}

#[test]
fn closing_a_connection_fails_its_pending_requests() {
    let mut b = behaviour();
    b.on_connection_established(&peer(4), 1, None, 0);
    let ours = b.send_request(&peer(4), FileGetMessage::new("x".to_string()));
    b.on_connection_handler_event(
        &peer(4),
        1,
        FileGetHandlerEvent::Request { request_id: RequestId(50), message: FileGetMessage::new("y".to_string()) },
    );
    drain(&mut b);
    b.on_connection_closed(&peer(4), 1);
    let actions = drain(&mut b);
    assert_eq!(actions.len(), 2);
    assert!(matches!(&actions[0], BehaviourAction::GenerateEvent(FileGetEvent::InboundFailure {
        request_id, error: InboundFailure::ConnectionClosed, .. }) if *request_id == RequestId(50)));
    assert!(matches!(&actions[1], BehaviourAction::GenerateEvent(FileGetEvent::OutboundFailure {
        request_id, error: OutboundFailure::ConnectionClosed, .. }) if *request_id == ours));
    b.send_request(&peer(4), FileGetMessage::new("z".to_string()));
    assert!(matches!(&drain(&mut b)[0], BehaviourAction::Dial { .. }));
}

#[test]
fn dial_failure_fails_the_waiting_requests() {
    let mut b = behaviour();
    let id = b.send_request(&peer(5), FileGetMessage::new("x".to_string()));
    drain(&mut b);
    b.on_dial_failure(Some(&peer(5)));
    let actions = drain(&mut b);
    assert_eq!(actions.len(), 1);
    assert!(matches!(&actions[0], BehaviourAction::GenerateEvent(FileGetEvent::OutboundFailure {
        request_id, error: OutboundFailure::DialFailure, .. }) if *request_id == id));
    b.on_dial_failure(Some(&peer(5)));
    b.on_dial_failure(None);
    assert!(drain(&mut b).is_empty());
}

#[test]
fn handler_events_become_behaviour_events() {
    let mut b = behaviour();
    b.on_connection_established(&peer(6), 2, None, 0);
    let id = b.send_request(&peer(6), FileGetMessage::new("x".to_string()));
    drain(&mut b);
    assert!(b.remove_pending_inbound_response(&peer(6), 2, id));
    assert!(!b.remove_pending_inbound_response(&peer(6), 2, id));
    b.on_connection_handler_event(&peer(6), 2, FileGetHandlerEvent::Response(id));
    b.on_connection_handler_event(
        &peer(6),
        2,
        FileGetHandlerEvent::Request { request_id: RequestId(8), message: FileGetMessage::new("m".to_string()) },
    );
    assert!(b.remove_pending_outbound_response(&peer(6), 2, RequestId(8)));
    b.on_connection_handler_event(&peer(6), 2, FileGetHandlerEvent::ResponseSent(RequestId(8)));
    b.on_connection_handler_event(&peer(6), 2, FileGetHandlerEvent::ResponseOmission(RequestId(9)));
    b.on_connection_handler_event(&peer(6), 2, FileGetHandlerEvent::OutboundTimeout(RequestId(10)));
    b.on_connection_handler_event(&peer(6), 2, FileGetHandlerEvent::OutboundUnsupportedProtocols(RequestId(11)));
    b.on_connection_handler_event(&peer(6), 2, FileGetHandlerEvent::InboundTimeout(RequestId(12)));
    b.on_connection_handler_event(&peer(6), 2, FileGetHandlerEvent::InboundUnsupportedProtocols(RequestId(13)));
    let events: Vec<FileGetEvent> = drain(&mut b)
        .into_iter()
        .map(|a| match a {
            BehaviourAction::GenerateEvent(e) => e,
            other => panic!("unexpected {:?}", other),
        })
        .collect();
    assert_eq!(events.len(), 8);
    assert!(matches!(&events[0], FileGetEvent::ResponseReceived { request_id, .. } if *request_id == id));
    assert!(matches!(&events[1], FileGetEvent::RequestReceived { request_id, message, .. }
        if *request_id == RequestId(8) && message.file_name == "m"));
    assert!(matches!(&events[2], FileGetEvent::ResponseSent { request_id, .. } if *request_id == RequestId(8)));
    assert!(matches!(&events[3], FileGetEvent::InboundFailure { error: InboundFailure::ResponseOmission, .. }));
    assert!(matches!(&events[4], FileGetEvent::OutboundFailure { error: OutboundFailure::Timeout, .. }));
    assert!(matches!(&events[5], FileGetEvent::OutboundFailure { error: OutboundFailure::UnsupportedProtocols, .. }));
    assert!(matches!(&events[6], FileGetEvent::InboundFailure { error: InboundFailure::Timeout, .. }));
    assert!(matches!(&events[7], FileGetEvent::InboundFailure { error: InboundFailure::UnsupportedProtocols, .. }));
}

#[test]
fn request_on_unknown_connection_fails_at_once() {
    let mut b = behaviour();
    b.on_connection_handler_event(
        &peer(7),
        4,
        FileGetHandlerEvent::Request { request_id: RequestId(3), message: FileGetMessage::new("m".to_string()) },
    );
    let actions = drain(&mut b);
    assert_eq!(actions.len(), 2);
    assert!(matches!(&actions[1], BehaviourAction::GenerateEvent(FileGetEvent::InboundFailure {
        error: InboundFailure::ConnectionClosed, .. })));
}

#[test]
fn addresses_and_address_changes_are_accepted() {
    let mut b = behaviour();
    b.add_address(&peer(8), vec![1, 2]);
    b.add_address(&peer(8), vec![3]);
    b.remove_address(&peer(8), &vec![1, 2]);
    b.remove_address(&peer(8), &vec![3]);
    b.remove_address(&peer(9), &vec![3]);
    b.on_connection_established(&peer(8), 1, None, 0);
    b.on_address_change(&peer(8), 1, Some(vec![9]));
    assert!(drain(&mut b).is_empty());
}

#[test]
fn new_handler_uses_the_configured_timeout() {
    let b = behaviour();
    let h = b.new_handler();
    assert_eq!(h.timeout(), Duration::from_secs(60));
    assert_eq!(h.connection_keep_alive(), KeepAlive::Yes);
}

#[test]
fn handler_reports_errors_then_events_then_requests() {
    let mut h = Handler::new(Duration::from_secs(1));
    assert!(h.poll().is_none());
    let b_id = RequestId(4);
    let mut b = behaviour();
    b.on_connection_established(&peer(1), 1, None, 0);
    b.send_request(&peer(1), FileGetMessage::new("x".to_string()));
    if let Some(BehaviourAction::NotifyHandler { request, .. }) = b.poll() {
        h.on_behaviour_event(request);
    }
    h.on_connection_event(ConnectionEvent::FullyNegotiatedInbound { sent: true, request_id: b_id });
    h.on_connection_event(ConnectionEvent::FullyNegotiatedInbound { sent: false, request_id: b_id });
    h.on_connection_event(ConnectionEvent::FullyNegotiatedOutbound { request_id: b_id });
    h.on_connection_event(ConnectionEvent::ListenUpgradeError { error: UpgradeFailure::Timeout, request_id: b_id });
    h.on_connection_event(ConnectionEvent::DialUpgradeError { error: UpgradeFailure::Upgrade, request_id: b_id });
    h.on_connection_event(ConnectionEvent::AddressChange);
    h.on_connection_event(ConnectionEvent::DialUpgradeError { error: UpgradeFailure::Other, request_id: b_id });
    assert!(matches!(h.poll(), Some(HandlerAction::Close)));
    assert!(matches!(h.poll(), Some(HandlerAction::Custom(FileGetHandlerEvent::ResponseSent(_)))));
    assert!(matches!(h.poll(), Some(HandlerAction::Custom(FileGetHandlerEvent::ResponseOmission(_)))));
    assert!(matches!(h.poll(), Some(HandlerAction::Custom(FileGetHandlerEvent::Response(_)))));
    assert!(matches!(h.poll(), Some(HandlerAction::Custom(FileGetHandlerEvent::InboundTimeout(_)))));
    assert!(matches!(h.poll(), Some(HandlerAction::Custom(FileGetHandlerEvent::OutboundUnsupportedProtocols(_)))));
    assert!(matches!(h.poll(), Some(HandlerAction::OutboundSubstreamRequest(r)) if r.file_name == "x"));
    assert!(h.poll().is_none());
}

#[test]
fn handler_idles_only_without_inbound_work() {
    let mut h = Handler::new(Duration::from_secs(1));
    assert!(!h.on_idle(true));
    assert_eq!(h.connection_keep_alive(), KeepAlive::Yes);
    assert!(h.on_idle(false));
    assert_eq!(h.connection_keep_alive(), KeepAlive::UntilIdleTimeout);
    assert!(!h.on_idle(false));
    let e = h.on_inbound_request(RequestId(2), FileGetMessage::new("q".to_string()));
    assert!(matches!(e, FileGetHandlerEvent::Request { request_id: RequestId(2), .. }));
    assert_eq!(h.connection_keep_alive(), KeepAlive::Yes);
}

#[test]
fn has_connection_tells_established_connections() {
    let mut b = behaviour();
    assert!(!b.has_connection(&peer(1), 4));
    b.on_connection_established(&peer(1), 4, None, 0);
    assert!(b.has_connection(&peer(1), 4));
    assert!(!b.has_connection(&peer(1), 5));
    assert!(!b.has_connection(&peer(2), 4));
    b.on_connection_closed(&peer(1), 4);
    assert!(!b.has_connection(&peer(1), 4));
}

#[test]
fn request_ids_of_one_generator_are_distinct() {
    let mut g = RequestIdGenerator::new();
    let ids: Vec<RequestId> = (0..1000).map(|_| g.next_id()).collect();
    for (k, id) in ids.iter().enumerate() {
        assert_eq!(*id, RequestId(k as u64 + 1));
    }
    let mut sorted = ids.clone();
    sorted.dedup();
    assert_eq!(sorted.len(), ids.len());
}
