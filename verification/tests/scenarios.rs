use volt::conversations::{ConversationType, CreateConversationRequest};
use volt::messages::{CreateMessageRequest, Pagination};
use volt::store::InMemoryRepository;
use volt::users::CreateUserRequest;

fn user(repo: &mut InMemoryRepository, name: &str) -> u64 {
    repo.create_user(
        CreateUserRequest {
            username: name.to_string(),
            display_name: name.to_string(),
            avatar_url: String::new(),
        },
        1_000,
    )
    .id
}

#[test]
fn group_creation_stamps_sender_and_duplicate_join_is_safe() {
    let mut repo = InMemoryRepository::new();
    let s = user(&mut repo, "s");
    let x = user(&mut repo, "x");

    let agg = repo.create_conversation(
        CreateConversationRequest {
            conversation_type: ConversationType::Group,
            sender_id: s,
            participants: vec![s, x],
            name: Some("Team".to_string()),
        },
        5_000,
    );
    let conv_id = agg.conversation.id;

    assert_eq!(agg.conversation.conversation_type, ConversationType::Group);
    assert_eq!(agg.conversation.name, Some("Team".to_string()));
    let s_row = repo.read_participant(s, conv_id).unwrap();
    assert!(s_row.joined_at.is_some());
    assert!(s_row.last_read_at.is_some());
    let x_row = repo.read_participant(x, conv_id).unwrap();
    assert!(x_row.joined_at.is_none());
    assert!(x_row.last_read_at.is_none());

    // The duplicate-safe policy: recording an existing membership again is a
    // silent no-op that leaves the row exactly as it was.
    repo.create_participant(x, conv_id);
    let x_again = repo.read_participant(x, conv_id).unwrap();
    assert!(x_again.joined_at.is_none());
    assert!(x_again.last_read_at.is_none());
    let rows = repo.read_conversation(conv_id).unwrap().user_conversations;
    assert_eq!(rows.len(), 2);
}

#[test]
fn list_messages_pages_in_creation_order() {
    let mut repo = InMemoryRepository::new();
    let a = user(&mut repo, "a");
    let conv = repo
        .create_conversation(
            CreateConversationRequest {
                conversation_type: ConversationType::Group,
                sender_id: a,
                participants: vec![a],
                name: Some("G".to_string()),
            },
            2_000,
        )
        .conversation
        .id;
    let m1 = repo.create_message(
        CreateMessageRequest { conversation_id: conv, sender_id: a, content: "M1".to_string() },
        3_000,
    );
    let m2 = repo.create_message(
        CreateMessageRequest { conversation_id: conv, sender_id: a, content: "M2".to_string() },
        3_001,
    );
    let m3 = repo.create_message(
        CreateMessageRequest { conversation_id: conv, sender_id: a, content: "M3".to_string() },
        3_002,
    );
    let m4 = repo.create_message(
        CreateMessageRequest { conversation_id: conv, sender_id: a, content: "M4".to_string() },
        3_003,
    );
    assert!(m1.id < m2.id && m2.id < m3.id && m3.id < m4.id);

    let page = repo.list_messages(conv, Pagination { offset: Some(1), limit: Some(2) });

    assert_eq!(page.len(), 2);
    assert_eq!(page[0].id, m2.id);
    assert_eq!(page[0].content, "M2");
    assert_eq!(page[1].id, m3.id);
    assert_eq!(page[1].content, "M3");
}

#[test]
fn index_symmetry_holds_across_membership_changes() {
    let mut repo = InMemoryRepository::new();
    let a = user(&mut repo, "a");
    let b = user(&mut repo, "b");
    let conv = repo
        .create_conversation(
            CreateConversationRequest {
                conversation_type: ConversationType::Group,
                sender_id: a,
                participants: vec![a, b],
                name: Some("G".to_string()),
            },
            2_000,
        )
        .conversation
        .id;

    // Both directions of the index agree with the rows, for members and
    // non-members alike.
    for uid in [a, b] {
        let by_conv = repo.read_conversation(conv).unwrap().user_conversations;
        assert!(by_conv.iter().any(|p| p.user_id == uid));
        let by_user = repo.read_conversations_by_user(uid);
        assert!(by_user.iter().any(|agg| agg.conversation.id == conv));
    }

    repo.delete_participant(b, conv);
    let by_conv = repo.read_conversation(conv).unwrap().user_conversations;
    assert!(!by_conv.iter().any(|p| p.user_id == b));
    assert!(repo.read_conversations_by_user(b).is_empty());
}

#[test]
fn cascade_delete_leaves_no_trace_for_former_participants() {
    let mut repo = InMemoryRepository::new();
    let a = user(&mut repo, "a");
    let b = user(&mut repo, "b");
    let keep = repo
        .create_conversation(
            CreateConversationRequest {
                conversation_type: ConversationType::Group,
                sender_id: a,
                participants: vec![a],
                name: Some("Keep".to_string()),
            },
            2_000,
        )
        .conversation
        .id;
    let doomed = repo
        .create_conversation(
            CreateConversationRequest {
                conversation_type: ConversationType::Group,
                sender_id: a,
                participants: vec![a, b],
                name: Some("Doomed".to_string()),
            },
            2_001,
        )
        .conversation
        .id;

    repo.delete_conversation(doomed);

    assert!(repo.read_conversation(doomed).is_none());
    assert!(repo.read_participant(a, doomed).is_none());
    assert!(repo.read_participant(b, doomed).is_none());
    let a_convs = repo.read_conversations_by_user(a);
    assert_eq!(a_convs.len(), 1);
    assert_eq!(a_convs[0].conversation.id, keep);
    assert!(repo.read_conversations_by_user(b).is_empty());
}

#[test]
fn join_once_first_timestamp_wins() {
    let mut repo = InMemoryRepository::new();
    let a = user(&mut repo, "a");
    let b = user(&mut repo, "b");
    let conv = repo
        .create_conversation(
            CreateConversationRequest {
                conversation_type: ConversationType::Group,
                sender_id: a,
                participants: vec![a, b],
                name: Some("G".to_string()),
            },
            2_000,
        )
        .conversation
        .id;

    let t1 = 4_000;
    let t2 = 9_999;
    repo.update_participant(
        b,
        conv,
        volt::participants::UpdateParticipantRequest { joined_at: Some(t1), last_read_at: None },
    );
    let after_second = repo
        .update_participant(
            b,
            conv,
            volt::participants::UpdateParticipantRequest {
                joined_at: Some(t2),
                last_read_at: Some(t2),
            },
        )
        .unwrap();

    assert_eq!(after_second.joined_at, Some(t1));
    assert_eq!(after_second.last_read_at, Some(t2));
}

#[test]
fn deleted_user_is_dropped_when_rows_resolve() {
    let mut repo = InMemoryRepository::new();
    let a = user(&mut repo, "a");
    let b = user(&mut repo, "b");
    let conv = repo
        .create_conversation(
            CreateConversationRequest {
                conversation_type: ConversationType::Group,
                sender_id: a,
                participants: vec![a, b],
                name: Some("G".to_string()),
            },
            2_000,
        )
        .conversation
        .id;

    repo.delete_user(b);

    let agg = repo.read_conversation(conv).unwrap();
    assert_eq!(agg.user_conversations.len(), 2);
    assert_eq!(agg.users.len(), 1);
    assert_eq!(agg.users[0].id, a);
}
