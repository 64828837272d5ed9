use file_sharing_example::command::{Command, CommandResult, GetFile, ListFiles, Register};
use file_sharing_example::error::FileSharingError;
use file_sharing_example::file_get::RequestId;
use file_sharing_example::network::{
    listen_progress, listen_result, secret_key_bytes, CommandAction, CommandRequestIdGenerator,
    EventLoop, ListenEvent, NetworkEvent, Registration,
};

fn ready_loop() -> EventLoop {
    let mut l = EventLoop::new();
    l.on_rendezvous_point_identified(vec![9, 9]);
    l
}

fn discover(l: &mut EventLoop, namespace: &str, peer: Vec<u8>, address_count: usize) {
    l.handle_event(NetworkEvent::Discovered {
        registrations: vec![Registration { namespace: namespace.to_string(), peer_id: peer, address_count }],
    });
}

#[test]
fn register_answers_at_once() {
    let mut l = ready_loop();
    match l.handle_command(1, Command::Register(Register { user_name: "alice".to_string() })).unwrap() {
        CommandAction::Register { namespace, rendezvous_point, response } => {
            assert_eq!(namespace, "alice");
            assert_eq!(rendezvous_point, vec![9, 9]);
            assert_eq!(response.command_request_id, 1);
            assert_eq!(response.result, CommandResult::Register);
        }
        other => panic!("unexpected {:?}", other),
    }
}

#[test]
fn too_long_namespace_is_an_error() {
    let mut l = EventLoop::new();
    let long = "x".repeat(256);
    assert!(matches!(
        l.handle_command(1, Command::Register(Register { user_name: long })),
        Err(FileSharingError::NamespaceTooLong)
    ));
}

#[test]
fn unknown_user_is_rejected() {
    let mut l = ready_loop();
    assert!(matches!(
        l.handle_command(2, Command::ListFiles(ListFiles { user_name: "bob".to_string() })),
        Ok(CommandAction::Reject(FileSharingError::UserNotRegistered(u))) if u == "bob"
    ));
    assert!(matches!(
        l.handle_command(3, Command::GetFile(GetFile { user_name: "bob".to_string(), file_name: "f".to_string() })),
        Ok(CommandAction::Reject(FileSharingError::UserNotRegistered(u))) if u == "bob"
    ));
}

#[test]
fn list_peers_is_answered_by_discovery() {
    let mut l = ready_loop();
    assert!(matches!(l.handle_command(4, Command::ListPeers), Ok(CommandAction::Discover { .. })));
    let responses = l.handle_event(NetworkEvent::Discovered {
        registrations: vec![
            Registration { namespace: "a".to_string(), peer_id: vec![1], address_count: 1 },
            Registration { namespace: "b".to_string(), peer_id: vec![2], address_count: 0 },
            Registration { namespace: "c".to_string(), peer_id: vec![3], address_count: 2 },
        ],
    });
    assert_eq!(responses.len(), 1);
    assert_eq!(responses[0].command_request_id, 4);
    assert_eq!(responses[0].result, CommandResult::ListPeers(vec!["a".to_string(), "c".to_string()]));
    assert!(l.handle_event(NetworkEvent::Discovered { registrations: vec![] }).is_empty());
}

#[test]
fn list_files_is_answered_by_the_peer() {
    let mut l = ready_loop();
    discover(&mut l, "bob", vec![7], 1);
    assert_eq!(l.get_peer_id(&"bob".to_string()), Some(vec![7]));
    match l.handle_command(5, Command::ListFiles(ListFiles { user_name: "bob".to_string() })).unwrap() {
        CommandAction::SendListFiles { peer_id } => assert_eq!(peer_id, vec![7]),
        other => panic!("unexpected {:?}", other),
    }
    l.on_list_files_request_sent(70, 5);
    assert!(l.handle_event(NetworkEvent::ListFilesResponse { request_id: 71, file_names: vec![] }).is_empty());
    let responses = l.handle_event(NetworkEvent::ListFilesResponse {
        request_id: 70,
        file_names: vec!["f1".to_string(), "f2".to_string()],
    });
    assert_eq!(responses.len(), 1);
    assert_eq!(responses[0].command_request_id, 5);
    assert_eq!(responses[0].result, CommandResult::ListFiles(vec!["f1".to_string(), "f2".to_string()]));
    assert!(l.handle_event(NetworkEvent::ListFilesResponse { request_id: 70, file_names: vec![] }).is_empty());
}

#[test]
fn get_file_is_answered_when_the_file_came() {
    let mut l = ready_loop();
    discover(&mut l, "bob", vec![7], 1);
    discover(&mut l, "bob", vec![8], 1);
    match l.handle_command(6, Command::GetFile(GetFile { user_name: "bob".to_string(), file_name: "f".to_string() })).unwrap() {
        CommandAction::SendFileGet { peer_id, message } => {
            assert_eq!(peer_id, vec![8]);
            assert_eq!(message.file_name, "f");
        }
        other => panic!("unexpected {:?}", other),
    }
    l.on_file_get_request_sent(RequestId(3), 6);
    let responses = l.handle_event(NetworkEvent::FileGetResponseReceived { request_id: RequestId(3) });
    assert_eq!(responses.len(), 1);
    assert_eq!(responses[0].command_request_id, 6);
    assert_eq!(
        responses[0].result,
        CommandResult::GetFile { user_name: "bob".to_string(), file_name: "f".to_string() }
    );
}

#[test]
fn registrations_without_address_are_ignored() {
    let mut l = ready_loop();
    discover(&mut l, "eve", vec![1], 0);
    assert_eq!(l.get_peer_id(&"eve".to_string()), None);
    assert_eq!(l.get_peer_id(&"y".repeat(300)), None);
}

#[test]
fn rendezvous_point_must_identify_itself() {
    let mut l = EventLoop::new();
    assert!(matches!(l.rendezvous_point_connected(), Err(FileSharingError::RendezvousPointNotConnected)));
    l.on_rendezvous_point_identified(vec![1]);
    assert!(l.rendezvous_point_connected().is_ok());
}

#[test]
fn command_ids_count_up_from_zero() {
    let mut g = CommandRequestIdGenerator::new();
    assert_eq!((g.next_id(), g.next_id(), g.next_id()), (0, 1, 2));
}

#[test]
fn listening_outcome() {
    assert_eq!(listen_progress(ListenEvent::NewListenAddr), Some(true));
    assert_eq!(listen_progress(ListenEvent::ListenerError), Some(false));
    assert_eq!(listen_progress(ListenEvent::TimedOut), Some(false));
    assert_eq!(listen_progress(ListenEvent::Other), None);
    assert!(listen_result(true, "/ip4/0.0.0.0/tcp/0".to_string()).is_ok());
    assert!(matches!(listen_result(false, "addr".to_string()), Err(FileSharingError::ListenError(a)) if a == "addr"));
}

#[test]
fn secret_key_from_seed() {
    let k = secret_key_bytes(7);
    assert_eq!(k.len(), 32);
    assert_eq!(k[0], 7);
    assert!(k[1..].iter().all(|b| *b == 0));
}

#[test]
fn accepts_only_files_that_answer_pending_requests() {
    let mut l = ready_loop();
    let arrived = NetworkEvent::FileGetResponseReceived { request_id: RequestId(7) };
    assert!(!l.accepts(&arrived));
    discover(&mut l, "bob", vec![1, 2], 1);
    let _ = l.handle_command(4, Command::GetFile(GetFile { user_name: "bob".to_string(), file_name: "f".to_string() }));
    l.on_file_get_request_sent(RequestId(7), 4);
    assert!(l.accepts(&arrived));
    assert!(!l.accepts(&NetworkEvent::FileGetResponseReceived { request_id: RequestId(8) }));
    assert!(l.accepts(&NetworkEvent::ListFilesResponse { request_id: 3, file_names: vec![] }));
    l.handle_event(arrived);
    assert!(!l.accepts(&NetworkEvent::FileGetResponseReceived { request_id: RequestId(7) }));
}

#[test]
fn kth_command_gets_id_k() {
    let mut g = CommandRequestIdGenerator::new();
    for k in 0..1000u64 {
        assert_eq!(g.next_id(), k);
    }
}
