use volt::messages::{
    CreateMessageRequest, InMemoryMessageRepository, Pagination, UpdateMessageRequest,
};

fn create_request(conversation_id: u64, sender_id: u64, content: &str) -> CreateMessageRequest {
    CreateMessageRequest {
        conversation_id,
        sender_id,
        content: content.to_string(),
    }
}

#[test]
fn create_message_returns_message_with_correct_fields() {
    let mut repo = InMemoryMessageRepository::new();
    let conv_id = 7;
    let sender_id = 11;
    let request = create_request(conv_id, sender_id, "Hello world");

    let message = repo.create_message(request, 1_000);

    assert_eq!(message.conversation_id, conv_id);
    assert_eq!(message.sender_id, sender_id);
    assert_eq!(message.content, "Hello world");
}

#[test]
fn create_message_generates_unique_id() {
    let mut repo = InMemoryMessageRepository::new();
    let request1 = create_request(7, 11, "First");
    let request2 = create_request(7, 11, "Second");

    let msg1 = repo.create_message(request1, 1_000);
    let msg2 = repo.create_message(request2, 1_001);

    assert_ne!(msg1.id, msg2.id);
}

#[test]
fn create_message_sets_created_at_timestamp() {
    let mut repo = InMemoryMessageRepository::new();
    let now = 987_654;
    let request = create_request(7, 11, "Test");

    let message = repo.create_message(request, now);

    assert_eq!(message.created_at, now);
}

#[test]
fn read_message_returns_existing_message() {
    let mut repo = InMemoryMessageRepository::new();
    let request = create_request(7, 11, "Test message");
    let created = repo.create_message(request, 1_000);

    let message = repo.read_message(created.id).unwrap();

    assert_eq!(message.id, created.id);
    assert_eq!(message.content, "Test message");
}

#[test]
fn read_message_returns_none_for_nonexistent() {
    let repo = InMemoryMessageRepository::new();

    let result = repo.read_message(424_242);

    assert!(result.is_none());
}

#[test]
fn list_messages_returns_messages_for_conversation() {
    let mut repo = InMemoryMessageRepository::new();
    let conv_id = 7;
    let sender_id = 11;
    repo.create_message(create_request(conv_id, sender_id, "First"), 1_000);
    repo.create_message(create_request(conv_id, sender_id, "Second"), 1_001);

    let messages = repo.list_messages(conv_id, Pagination::default());

    assert_eq!(messages.len(), 2);
}

#[test]
fn list_messages_filters_by_conversation_id() {
    let mut repo = InMemoryMessageRepository::new();
    let conv1 = 7;
    let conv2 = 8;
    let sender_id = 11;
    repo.create_message(create_request(conv1, sender_id, "Conv1 msg"), 1_000);
    repo.create_message(create_request(conv2, sender_id, "Conv2 msg"), 1_001);

    let messages = repo.list_messages(conv1, Pagination::default());

    assert_eq!(messages.len(), 1);
    assert_eq!(messages[0].conversation_id, conv1);
}

#[test]
fn list_messages_applies_pagination_offset() {
    let mut repo = InMemoryMessageRepository::new();
    let conv_id = 7;
    let sender_id = 11;
    repo.create_message(create_request(conv_id, sender_id, "First"), 1_000);
    repo.create_message(create_request(conv_id, sender_id, "Second"), 1_001);
    repo.create_message(create_request(conv_id, sender_id, "Third"), 1_002);

    let pagination = Pagination { offset: Some(1), limit: None };
    let messages = repo.list_messages(conv_id, pagination);

    assert_eq!(messages.len(), 2);
}

#[test]
fn list_messages_applies_pagination_limit() {
    let mut repo = InMemoryMessageRepository::new();
    let conv_id = 7;
    let sender_id = 11;
    repo.create_message(create_request(conv_id, sender_id, "First"), 1_000);
    repo.create_message(create_request(conv_id, sender_id, "Second"), 1_001);
    repo.create_message(create_request(conv_id, sender_id, "Third"), 1_002);

    let pagination = Pagination { offset: None, limit: Some(2) };
    let messages = repo.list_messages(conv_id, pagination);

    assert_eq!(messages.len(), 2);
}

#[test]
fn list_messages_returns_empty_for_no_messages() {
    let repo = InMemoryMessageRepository::new();

    let messages = repo.list_messages(7, Pagination::default());

    assert!(messages.is_empty());
}

#[test]
fn update_message_updates_content() {
    let mut repo = InMemoryMessageRepository::new();
    let request = create_request(7, 11, "Original");
    let created = repo.create_message(request, 1_000);

    let update = UpdateMessageRequest { content: Some("Updated content".to_string()) };
    let updated = repo.update_message(created.id, update, 2_000).unwrap();

    assert_eq!(updated.content, "Updated content");
}

#[test]
fn update_message_sets_updated_at() {
    let mut repo = InMemoryMessageRepository::new();
    let request = create_request(7, 11, "Original");
    let created = repo.create_message(request, 1_000);
    assert!(created.updated_at.is_none());

    let later = 2_500;
    let update = UpdateMessageRequest { content: Some("Updated".to_string()) };
    let updated = repo.update_message(created.id, update, later).unwrap();

    assert_eq!(updated.updated_at, Some(later));
}

#[test]
fn update_message_returns_none_for_nonexistent() {
    let mut repo = InMemoryMessageRepository::new();

    let update = UpdateMessageRequest { content: Some("Content".to_string()) };
    let result = repo.update_message(424_242, update, 2_000);

    assert!(result.is_none());
}

#[test]
fn delete_message_removes_message() {
    let mut repo = InMemoryMessageRepository::new();
    let request = create_request(7, 11, "To delete");
    let created = repo.create_message(request, 1_000);

    repo.delete_message(created.id);

    let read = repo.read_message(created.id);
    assert!(read.is_none());
}

#[test]
fn delete_message_succeeds_for_nonexistent() {
    let mut repo = InMemoryMessageRepository::new();

    repo.delete_message(424_242);

    assert!(repo.read_message(424_242).is_none());
}

#[test]
fn update_message_with_empty_request_changes_nothing() {
    let mut repo = InMemoryMessageRepository::new();
    let created = repo.create_message(create_request(7, 11, "Original"), 1_000);

    let updated = repo.update_message(created.id, UpdateMessageRequest { content: None }, 2_000)
        .unwrap();

    assert_eq!(updated.content, "Original");
    assert!(updated.updated_at.is_none());
}
