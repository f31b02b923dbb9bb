use volt::conversations::{ConversationType, CreateConversationRequest, UpdateConversationRequest};
use volt::store::InMemoryRepository;
use volt::users::{CreateUserRequest, User};

fn setup_users(repo: &mut InMemoryRepository, count: usize) -> Vec<User> {
    let mut users = Vec::new();
    for i in 0..count {
        let user = repo.create_user(
            CreateUserRequest {
                username: format!("user{i}"),
                display_name: format!("User {i}"),
                avatar_url: format!("https://example.com/{i}.png"),
            },
            1_000 + i as i64,
        );
        users.push(user);
    }
    users
}

fn create_request(
    conversation_type: ConversationType,
    name: Option<&str>,
    sender_id: u64,
    participants: Vec<u64>,
) -> CreateConversationRequest {
    CreateConversationRequest {
        conversation_type,
        name: name.map(String::from),
        sender_id,
        participants,
    }
}

#[test]
fn create_conversation_returns_conversation_with_correct_fields() {
    let mut repo = InMemoryRepository::new();
    let users = setup_users(&mut repo, 2);
    let sender = users[0].id;
    let ids: Vec<u64> = users.iter().map(|u| u.id).collect();
    let request = create_request(ConversationType::Group, Some("Test Group"), sender, ids);

    let agg = repo.create_conversation(request, 2_000);

    assert_eq!(agg.conversation.conversation_type, ConversationType::Group);
    assert_eq!(agg.conversation.name, Some("Test Group".to_string()));
    assert_eq!(agg.user_conversations.len(), 2);
    assert_eq!(agg.users.len(), 2);
}

#[test]
fn create_conversation_sets_sender_timestamps() {
    let mut repo = InMemoryRepository::new();
    let users = setup_users(&mut repo, 2);
    let sender = users[0].id;
    let ids: Vec<u64> = users.iter().map(|u| u.id).collect();
    let request = create_request(ConversationType::Direct, None, sender, ids);

    let agg = repo.create_conversation(request, 2_000);

    let sender_participant = agg.user_conversations.iter().find(|p| p.user_id == sender).unwrap();
    assert!(sender_participant.joined_at.is_some());
    assert!(sender_participant.last_read_at.is_some());

    let other_participant = agg.user_conversations.iter().find(|p| p.user_id != sender).unwrap();
    assert!(other_participant.joined_at.is_none());
    assert!(other_participant.last_read_at.is_none());
}

#[test]
fn create_conversation_generates_unique_id() {
    let mut repo = InMemoryRepository::new();
    let users = setup_users(&mut repo, 1);
    let uid = users[0].id;
    let request1 = create_request(ConversationType::Direct, None, uid, vec![uid]);
    let request2 = create_request(ConversationType::Group, Some("Group"), uid, vec![uid]);

    let conv1 = repo.create_conversation(request1, 2_000);
    let conv2 = repo.create_conversation(request2, 2_001);

    assert_ne!(conv1.conversation.id, conv2.conversation.id);
}

#[test]
fn create_conversation_sets_created_at_timestamp() {
    let mut repo = InMemoryRepository::new();
    let users = setup_users(&mut repo, 1);
    let uid = users[0].id;
    let now = 31_337;
    let request = create_request(ConversationType::Direct, None, uid, vec![uid]);

    let agg = repo.create_conversation(request, now);

    assert_eq!(agg.conversation.created_at, now);
}

#[test]
fn create_direct_conversation_has_no_name() {
    let mut repo = InMemoryRepository::new();
    let users = setup_users(&mut repo, 1);
    let uid = users[0].id;
    let request = create_request(ConversationType::Direct, Some("ignored"), uid, vec![uid]);

    let agg = repo.create_conversation(request, 2_000);

    assert_eq!(agg.conversation.conversation_type, ConversationType::Direct);
    assert!(agg.conversation.name.is_none());
}

#[test]
fn create_group_conversation_has_name() {
    let mut repo = InMemoryRepository::new();
    let users = setup_users(&mut repo, 1);
    let uid = users[0].id;
    let request = create_request(ConversationType::Group, Some("My Group Chat"), uid, vec![uid]);

    let agg = repo.create_conversation(request, 2_000);

    assert_eq!(agg.conversation.conversation_type, ConversationType::Group);
    assert_eq!(agg.conversation.name, Some("My Group Chat".to_string()));
}

#[test]
fn read_conversation_returns_existing_with_user_conversations_and_users() {
    let mut repo = InMemoryRepository::new();
    let users = setup_users(&mut repo, 3);
    let sender = users[0].id;
    let ids: Vec<u64> = users.iter().map(|u| u.id).collect();
    let request = create_request(ConversationType::Group, Some("Test"), sender, ids);
    let created = repo.create_conversation(request, 2_000);

    let read = repo.read_conversation(created.conversation.id).unwrap();

    assert_eq!(read.conversation.id, created.conversation.id);
    assert_eq!(read.conversation.name, Some("Test".to_string()));
    assert_eq!(read.user_conversations.len(), 3);
    assert_eq!(read.users.len(), 3);
    for user in users {
        assert!(read.user_conversations.iter().any(|p| p.user_id == user.id));
        assert!(read.users.iter().any(|u| u.id == user.id));
    }
}

#[test]
fn read_conversation_returns_none_for_nonexistent() {
    let repo = InMemoryRepository::new();

    let result = repo.read_conversation(424_242);

    assert!(result.is_none());
}

#[test]
fn update_conversation_updates_name() {
    let mut repo = InMemoryRepository::new();
    let users = setup_users(&mut repo, 1);
    let uid = users[0].id;
    let request = create_request(ConversationType::Group, Some("Original"), uid, vec![uid]);
    let created = repo.create_conversation(request, 2_000);

    let update = UpdateConversationRequest { name: Some("Updated Name".to_string()) };
    let updated = repo.update_conversation(created.conversation.id, update, 3_000).unwrap();

    assert_eq!(updated.name, Some("Updated Name".to_string()));
}

#[test]
fn update_conversation_sets_updated_at() {
    let mut repo = InMemoryRepository::new();
    let users = setup_users(&mut repo, 1);
    let uid = users[0].id;
    let request = create_request(ConversationType::Group, Some("Test"), uid, vec![uid]);
    let created = repo.create_conversation(request, 2_000);
    assert!(created.conversation.updated_at.is_none());

    let later = 3_456;
    let update = UpdateConversationRequest { name: Some("New Name".to_string()) };
    let updated = repo.update_conversation(created.conversation.id, update, later).unwrap();

    assert_eq!(updated.updated_at, Some(later));
}

#[test]
fn update_conversation_returns_none_for_nonexistent() {
    let mut repo = InMemoryRepository::new();

    let update = UpdateConversationRequest { name: Some("Name".to_string()) };
    let result = repo.update_conversation(424_242, update, 3_000);

    assert!(result.is_none());
}

#[test]
fn update_direct_conversation_is_a_silent_no_op() {
    let mut repo = InMemoryRepository::new();
    let users = setup_users(&mut repo, 1);
    let uid = users[0].id;
    let request = create_request(ConversationType::Direct, None, uid, vec![uid]);
    let created = repo.create_conversation(request, 2_000);

    let update = UpdateConversationRequest { name: Some("Name".to_string()) };
    let updated = repo.update_conversation(created.conversation.id, update, 3_000).unwrap();

    assert!(updated.name.is_none());
    assert!(updated.updated_at.is_none());
}

#[test]
fn delete_conversation_removes_conversation_and_user_conversations() {
    let mut repo = InMemoryRepository::new();
    let users = setup_users(&mut repo, 2);
    let sender = users[0].id;
    let ids: Vec<u64> = users.iter().map(|u| u.id).collect();
    let request = create_request(ConversationType::Direct, None, sender, ids.clone());
    let created = repo.create_conversation(request, 2_000);
    let conv_id = created.conversation.id;

    repo.delete_conversation(conv_id);

    let read = repo.read_conversation(conv_id);
    assert!(read.is_none());

    for uid in &ids {
        assert!(repo.read_participant(*uid, conv_id).is_none());
        let convs = repo.read_conversations_by_user(*uid);
        assert!(convs.iter().all(|agg| agg.conversation.id != conv_id));
    }
}

#[test]
fn read_conversations_by_user_returns_conversations_for_user() {
    let mut repo = InMemoryRepository::new();
    let users = setup_users(&mut repo, 2);
    let sender = users[0].id;
    let ids: Vec<u64> = users.iter().map(|u| u.id).collect();

    let conv1 = repo.create_conversation(
        create_request(ConversationType::Group, Some("Group 1"), sender, ids.clone()),
        2_000,
    );
    let conv2 = repo.create_conversation(
        create_request(ConversationType::Group, Some("Group 2"), sender, ids.clone()),
        2_001,
    );

    let result = repo.read_conversations_by_user(sender);

    assert_eq!(result.len(), 2);
    let listed: Vec<u64> = result.iter().map(|a| a.conversation.id).collect();
    assert!(listed.contains(&conv1.conversation.id));
    assert!(listed.contains(&conv2.conversation.id));
}

#[test]
fn read_conversations_by_user_returns_empty_for_user_with_no_conversations() {
    let mut repo = InMemoryRepository::new();
    let users = setup_users(&mut repo, 1);

    let result = repo.read_conversations_by_user(users[0].id);

    assert!(result.is_empty());
}

#[test]
fn read_conversations_by_user_returns_empty_for_nonexistent_user() {
    let repo = InMemoryRepository::new();

    let result = repo.read_conversations_by_user(424_242);

    assert!(result.is_empty());
}

#[test]
fn read_conversations_by_user_does_not_return_other_users_conversations() {
    let mut repo = InMemoryRepository::new();
    let users = setup_users(&mut repo, 2);
    let user1 = users[0].id;
    let user2 = users[1].id;

    repo.create_conversation(
        create_request(ConversationType::Direct, None, user1, vec![user1]),
        2_000,
    );

    let result = repo.read_conversations_by_user(user2);

    assert!(result.is_empty());
}

#[test]
fn delete_conversation_succeeds_for_nonexistent() {
    let mut repo = InMemoryRepository::new();

    repo.delete_conversation(424_242);

    assert!(repo.read_conversation(424_242).is_none());
}

#[test]
fn create_conversation_skips_unknown_participants() {
    let mut repo = InMemoryRepository::new();
    let users = setup_users(&mut repo, 1);
    let uid = users[0].id;
    let request = create_request(ConversationType::Group, Some("G"), uid, vec![uid, 424_242]);

    let agg = repo.create_conversation(request, 2_000);

    assert_eq!(agg.user_conversations.len(), 1);
    assert_eq!(agg.users.len(), 1);
    assert_eq!(agg.users[0].id, uid);
}
