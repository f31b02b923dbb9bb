use volt::conversations::{ConversationType, CreateConversationRequest};
use volt::fanout::handle_inbound;
use volt::messages::CreateMessageRequest;
use volt::registry::ConnectionRegistry;
use volt::session::{Session, SessionAction, SessionEvent, SessionState};
use volt::store::InMemoryRepository;
use volt::users::CreateUserRequest;

fn user(repo: &mut InMemoryRepository, name: &str) -> u64 {
    repo.create_user(
        CreateUserRequest {
            username: name.to_string(),
            display_name: name.to_string(),
            avatar_url: String::new(),
        },
        1_000,
    )
    .id
}

fn group(repo: &mut InMemoryRepository, sender: u64, members: Vec<u64>) -> u64 {
    repo.create_conversation(
        CreateConversationRequest {
            conversation_type: ConversationType::Group,
            sender_id: sender,
            participants: members,
            name: Some("Team".to_string()),
        },
        2_000,
    )
    .conversation
    .id
}

#[test]
fn fanout_delivers_to_every_participant_exactly_once() {
    let mut repo = InMemoryRepository::new();
    let mut registry = ConnectionRegistry::new();
    let a = user(&mut repo, "a");
    let b = user(&mut repo, "b");
    let c = user(&mut repo, "c");
    let conv = group(&mut repo, a, vec![a, b, c]);
    let conn_a = registry.register(a, 100);
    let conn_b = registry.register(b, 100);
    let conn_c = registry.register(c, 100);

    let sent = handle_inbound(
        &mut repo,
        &mut registry,
        CreateMessageRequest { conversation_id: conv, sender_id: a, content: "hi".to_string() },
        3_000,
    );

    for (u, conn) in [(a, conn_a), (b, conn_b), (c, conn_c)] {
        let got = registry.pop_message(u, conn).unwrap();
        assert_eq!(got.id, sent.id);
        assert_eq!(got.content, "hi");
        assert!(registry.pop_message(u, conn).is_none());
    }
}

#[test]
fn fanout_is_offline_safe() {
    let mut repo = InMemoryRepository::new();
    let mut registry = ConnectionRegistry::new();
    let a = user(&mut repo, "a");
    let b = user(&mut repo, "b");
    let c = user(&mut repo, "c");
    let conv = group(&mut repo, a, vec![a, b, c]);
    let conn_c = registry.register(c, 100);

    let sent = handle_inbound(
        &mut repo,
        &mut registry,
        CreateMessageRequest { conversation_id: conv, sender_id: a, content: "hi".to_string() },
        3_000,
    );

    assert!(!registry.contains_user(b));
    let got = registry.pop_message(c, conn_c).unwrap();
    assert_eq!(got.id, sent.id);
}

#[test]
fn fanout_persists_before_delivery_even_without_conversation() {
    let mut repo = InMemoryRepository::new();
    let mut registry = ConnectionRegistry::new();
    let a = user(&mut repo, "a");
    let conn_a = registry.register(a, 100);

    let sent = handle_inbound(
        &mut repo,
        &mut registry,
        CreateMessageRequest { conversation_id: 424_242, sender_id: a, content: "x".to_string() },
        3_000,
    );

    assert!(repo.read_message(sent.id).is_some());
    assert!(registry.pop_message(a, conn_a).is_none());
}

#[test]
fn fanout_echoes_to_the_sender() {
    let mut repo = InMemoryRepository::new();
    let mut registry = ConnectionRegistry::new();
    let a = user(&mut repo, "a");
    let conv = group(&mut repo, a, vec![a]);
    let conn_a = registry.register(a, 100);

    let sent = handle_inbound(
        &mut repo,
        &mut registry,
        CreateMessageRequest { conversation_id: conv, sender_id: a, content: "me".to_string() },
        3_000,
    );

    let got = registry.pop_message(a, conn_a).unwrap();
    assert_eq!(got.id, sent.id);
}

#[test]
fn deliver_reaches_every_mailbox_of_a_user() {
    let mut repo = InMemoryRepository::new();
    let mut registry = ConnectionRegistry::new();
    let a = user(&mut repo, "a");
    let conv = group(&mut repo, a, vec![a]);
    let conn_1 = registry.register(a, 100);
    let conn_2 = registry.register(a, 100);

    let sent = handle_inbound(
        &mut repo,
        &mut registry,
        CreateMessageRequest { conversation_id: conv, sender_id: a, content: "hi".to_string() },
        3_000,
    );

    assert_eq!(registry.pop_message(a, conn_1).unwrap().id, sent.id);
    assert_eq!(registry.pop_message(a, conn_2).unwrap().id, sent.id);
}

#[test]
fn full_mailbox_is_skipped_without_affecting_others() {
    let mut repo = InMemoryRepository::new();
    let mut registry = ConnectionRegistry::new();
    let a = user(&mut repo, "a");
    let conv = group(&mut repo, a, vec![a]);
    let conn_small = registry.register(a, 1);
    let conn_big = registry.register(a, 100);

    let first = handle_inbound(
        &mut repo,
        &mut registry,
        CreateMessageRequest { conversation_id: conv, sender_id: a, content: "one".to_string() },
        3_000,
    );
    let second = handle_inbound(
        &mut repo,
        &mut registry,
        CreateMessageRequest { conversation_id: conv, sender_id: a, content: "two".to_string() },
        3_001,
    );

    assert_eq!(registry.pop_message(a, conn_small).unwrap().id, first.id);
    assert!(registry.pop_message(a, conn_small).is_none());
    assert_eq!(registry.pop_message(a, conn_big).unwrap().id, first.id);
    assert_eq!(registry.pop_message(a, conn_big).unwrap().id, second.id);
}

#[test]
fn deregister_last_mailbox_removes_registry_entry() {
    let mut registry = ConnectionRegistry::new();
    let conn = registry.register(9, 100);
    assert!(registry.contains_user(9));

    registry.deregister(9, conn);

    assert!(!registry.contains_user(9));
    let msg = volt::messages::Message {
        id: 1,
        conversation_id: 1,
        sender_id: 1,
        content: "x".to_string(),
        created_at: 0,
        updated_at: None,
    };
    let mut reg2 = registry;
    assert_eq!(reg2.deliver(9, &msg), 0);
    assert!(!reg2.contains_user(9));
}

#[test]
fn deregister_keeps_remaining_mailboxes() {
    let mut registry = ConnectionRegistry::new();
    let conn_1 = registry.register(9, 100);
    let conn_2 = registry.register(9, 100);

    registry.deregister(9, conn_1);

    assert!(registry.contains_user(9));
    registry.deregister(9, conn_2);
    assert!(!registry.contains_user(9));
}

#[test]
fn mailbox_hands_messages_out_in_arrival_order() {
    let mut registry = ConnectionRegistry::new();
    let conn = registry.register(9, 100);
    let mk = |id: u64, text: &str| volt::messages::Message {
        id,
        conversation_id: 1,
        sender_id: 2,
        content: text.to_string(),
        created_at: 0,
        updated_at: None,
    };
    assert_eq!(registry.deliver(9, &mk(1, "first")), 1);
    assert_eq!(registry.deliver(9, &mk(2, "second")), 1);

    assert_eq!(registry.pop_message(9, conn).unwrap().content, "first");
    assert_eq!(registry.pop_message(9, conn).unwrap().content, "second");
    assert!(registry.pop_message(9, conn).is_none());
}

#[test]
fn session_runs_open_then_tears_down_once() {
    let mut session = Session::new(7, 1);
    assert_eq!(session.state, SessionState::Connecting);

    assert_eq!(session.step(SessionEvent::Opened), SessionAction::StartLoops);
    assert_eq!(session.state, SessionState::Open);
    assert_eq!(session.step(SessionEvent::FrameReceived), SessionAction::HandleFrame);
    assert_eq!(session.step(SessionEvent::FrameRejected), SessionAction::Ignore);
    assert_eq!(session.state, SessionState::Open);
    assert_eq!(session.step(SessionEvent::InboundClosed), SessionAction::CancelPeer);
    assert_eq!(session.state, SessionState::Closing);
    assert_eq!(session.step(SessionEvent::PeerStopped), SessionAction::Deregister);
    assert_eq!(session.state, SessionState::Closed);
    assert_eq!(session.step(SessionEvent::PeerStopped), SessionAction::Ignore);
    assert_eq!(session.state, SessionState::Closed);
}

#[test]
fn session_writer_failure_also_closes() {
    let mut session = Session::new(7, 1);
    session.step(SessionEvent::Opened);
    assert_eq!(session.step(SessionEvent::OutboundClosed), SessionAction::CancelPeer);
    assert_eq!(session.state, SessionState::Closing);
    assert_eq!(session.step(SessionEvent::FrameReceived), SessionAction::Ignore);
    assert_eq!(session.step(SessionEvent::PeerStopped), SessionAction::Deregister);
}
