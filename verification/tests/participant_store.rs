use volt::participants::{
    CreateParticipantsRequest, InMemoryParticipantRepository, UpdateParticipantRequest,
};

fn create_request(sender_id: u64, conversation_id: u64, users: Vec<u64>) -> CreateParticipantsRequest {
    CreateParticipantsRequest { sender_id, conversation_id, users }
}

#[test]
fn create_conversation_participants_creates_participants_for_multiple_users() {
    let mut repo = InMemoryParticipantRepository::new();
    let conversation_id = 50;
    let user1 = 1;
    let user2 = 2;
    let user3 = 3;
    let request = create_request(user1, conversation_id, vec![user1, user2, user3]);

    let participants = repo.create_conversation_participants(request, 1_000);
    assert_eq!(participants.len(), 3);
}

#[test]
fn create_conversation_participants_sets_timestamps_for_sender() {
    let mut repo = InMemoryParticipantRepository::new();
    let conversation_id = 50;
    let sender_id = 1;
    let request = create_request(sender_id, conversation_id, vec![sender_id]);

    repo.create_conversation_participants(request, 1_000);

    let participant = repo.read_participant(sender_id, conversation_id).unwrap();
    assert!(participant.joined_at.is_some());
    assert!(participant.last_read_at.is_some());
}

#[test]
fn create_conversation_participants_non_sender_has_none_timestamps() {
    let mut repo = InMemoryParticipantRepository::new();
    let conversation_id = 50;
    let sender_id = 1;
    let other_user = 2;
    let request = create_request(sender_id, conversation_id, vec![sender_id, other_user]);

    repo.create_conversation_participants(request, 1_000);

    let participant = repo.read_participant(other_user, conversation_id).unwrap();
    assert!(participant.joined_at.is_none());
    assert!(participant.last_read_at.is_none());
}

#[test]
fn create_conversation_participants_are_persisted_and_readable() {
    let mut repo = InMemoryParticipantRepository::new();
    let conversation_id = 50;
    let user_id = 1;
    let request = create_request(user_id, conversation_id, vec![user_id]);

    repo.create_conversation_participants(request, 1_000);

    let participant = repo.read_participant(user_id, conversation_id);
    assert!(participant.is_some());
    assert_eq!(participant.unwrap().user_id, user_id);
}

#[test]
fn read_participant_returns_existing_participant() {
    let mut repo = InMemoryParticipantRepository::new();
    let conversation_id = 50;
    let user_id = 1;
    let request = create_request(user_id, conversation_id, vec![user_id]);
    repo.create_conversation_participants(request, 1_000);

    let participant = repo.read_participant(user_id, conversation_id).unwrap();

    assert_eq!(participant.user_id, user_id);
    assert_eq!(participant.conversation_id, conversation_id);
}

#[test]
fn read_participant_returns_none_for_nonexistent_participant() {
    let repo = InMemoryParticipantRepository::new();

    let result = repo.read_participant(404, 505);

    assert!(result.is_none());
}

#[test]
fn read_conversation_participants_returns_all_participants() {
    let mut repo = InMemoryParticipantRepository::new();
    let conversation_id = 50;
    let user1 = 1;
    let user2 = 2;
    let request = create_request(user1, conversation_id, vec![user1, user2]);
    repo.create_conversation_participants(request, 1_000);

    let participants = repo.read_conversation_participants(conversation_id);

    assert_eq!(participants.len(), 2);
    let user_ids: Vec<u64> = participants.iter().map(|p| p.user_id).collect();
    assert!(user_ids.contains(&user1));
    assert!(user_ids.contains(&user2));
}

#[test]
fn read_conversation_participants_returns_empty_for_nonexistent_conversation() {
    let repo = InMemoryParticipantRepository::new();

    let participants = repo.read_conversation_participants(404);

    assert!(participants.is_empty());
}

#[test]
fn read_participant_conversations_returns_all_conversations() {
    let mut repo = InMemoryParticipantRepository::new();
    let user_id = 1;
    let conv1 = 50;
    let conv2 = 51;
    let request1 = create_request(user_id, conv1, vec![user_id]);
    let request2 = create_request(user_id, conv2, vec![user_id]);
    repo.create_conversation_participants(request1, 1_000);
    repo.create_conversation_participants(request2, 1_001);

    let conversations = repo.read_participant_conversations(user_id);

    assert_eq!(conversations.len(), 2);
    let conv_ids: Vec<u64> = conversations.iter().map(|p| p.conversation_id).collect();
    assert!(conv_ids.contains(&conv1));
    assert!(conv_ids.contains(&conv2));
}

#[test]
fn read_participant_conversations_returns_empty_for_user_not_in_any() {
    let repo = InMemoryParticipantRepository::new();

    let conversations = repo.read_participant_conversations(404);

    assert!(conversations.is_empty());
}

#[test]
fn update_participant_updates_joined_at_when_none() {
    let mut repo = InMemoryParticipantRepository::new();
    let conversation_id = 50;
    let sender_id = 1;
    let other_user = 2;
    let request = create_request(sender_id, conversation_id, vec![sender_id, other_user]);
    repo.create_conversation_participants(request, 1_000);

    let now = 5_000;
    let update = UpdateParticipantRequest { joined_at: Some(now), last_read_at: None };
    let updated = repo.update_participant(other_user, conversation_id, update).unwrap();

    assert_eq!(updated.joined_at, Some(now));
}

#[test]
fn update_participant_does_not_overwrite_existing_joined_at() {
    let mut repo = InMemoryParticipantRepository::new();
    let conversation_id = 50;
    let sender_id = 1;
    let request = create_request(sender_id, conversation_id, vec![sender_id]);
    repo.create_conversation_participants(request, 1_000);

    let original = repo.read_participant(sender_id, conversation_id).unwrap();
    let original_joined_at = original.joined_at;

    let new_time = 9_000;
    let update = UpdateParticipantRequest { joined_at: Some(new_time), last_read_at: None };
    let updated = repo.update_participant(sender_id, conversation_id, update).unwrap();

    assert_eq!(updated.joined_at, original_joined_at);
}

#[test]
fn update_participant_updates_last_read_at() {
    let mut repo = InMemoryParticipantRepository::new();
    let conversation_id = 50;
    let user_id = 1;
    let request = create_request(user_id, conversation_id, vec![user_id]);
    repo.create_conversation_participants(request, 1_000);

    let new_time = 7_000;
    let update = UpdateParticipantRequest { joined_at: None, last_read_at: Some(new_time) };
    let updated = repo.update_participant(user_id, conversation_id, update).unwrap();

    assert_eq!(updated.last_read_at, Some(new_time));
}

#[test]
fn update_participant_returns_none_for_nonexistent() {
    let mut repo = InMemoryParticipantRepository::new();

    let update = UpdateParticipantRequest { joined_at: Some(1_000), last_read_at: None };
    let result = repo.update_participant(404, 505, update);

    assert!(result.is_none());
}

#[test]
fn delete_participant_removes_from_main_storage() {
    let mut repo = InMemoryParticipantRepository::new();
    let conversation_id = 50;
    let user_id = 1;
    let request = create_request(user_id, conversation_id, vec![user_id]);
    repo.create_conversation_participants(request, 1_000);

    repo.delete_participant(user_id, conversation_id);

    let result = repo.read_participant(user_id, conversation_id);
    assert!(result.is_none());
}

#[test]
fn delete_participant_removes_from_conversation_index() {
    let mut repo = InMemoryParticipantRepository::new();
    let conversation_id = 50;
    let user1 = 1;
    let user2 = 2;
    let request = create_request(user1, conversation_id, vec![user1, user2]);
    repo.create_conversation_participants(request, 1_000);

    repo.delete_participant(user1, conversation_id);

    let participants = repo.read_conversation_participants(conversation_id);
    assert_eq!(participants.len(), 1);
    assert_eq!(participants[0].user_id, user2);
}

#[test]
fn delete_participant_removes_from_user_index() {
    let mut repo = InMemoryParticipantRepository::new();
    let user_id = 1;
    let conv1 = 50;
    let conv2 = 51;
    let request1 = create_request(user_id, conv1, vec![user_id]);
    let request2 = create_request(user_id, conv2, vec![user_id]);
    repo.create_conversation_participants(request1, 1_000);
    repo.create_conversation_participants(request2, 1_001);

    repo.delete_participant(user_id, conv1);

    let conversations = repo.read_participant_conversations(user_id);
    assert_eq!(conversations.len(), 1);
    assert_eq!(conversations[0].conversation_id, conv2);
}

#[test]
fn delete_participant_succeeds_for_nonexistent() {
    let mut repo = InMemoryParticipantRepository::new();

    repo.delete_participant(404, 505);

    assert!(repo.read_participant(404, 505).is_none());
}

#[test]
fn create_participant_twice_is_duplicate_safe() {
    let mut repo = InMemoryParticipantRepository::new();
    let conversation_id = 50;
    let sender_id = 1;
    let request = create_request(sender_id, conversation_id, vec![sender_id]);
    repo.create_conversation_participants(request, 1_000);
    let before = repo.read_participant(sender_id, conversation_id).unwrap();

    let again = create_request(sender_id, conversation_id, vec![sender_id]);
    repo.create_conversation_participants(again, 2_000);

    let after = repo.read_participant(sender_id, conversation_id).unwrap();
    assert_eq!(after.joined_at, before.joined_at);
    assert_eq!(after.last_read_at, before.last_read_at);
    assert_eq!(repo.read_conversation_participants(conversation_id).len(), 1);
}
