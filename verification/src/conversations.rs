use vstd::prelude::*;

use crate::participants::Participant;
use crate::users::User;
use crate::TimeMs;

verus! {

/// The two fixed kinds of conversation.
#[derive(Clone, Copy, Debug, PartialEq, Eq, Structural)]
pub enum ConversationType {
    Direct,
    Group,
}

/// A conversation. A name is meaningful only for the Group kind; Direct
/// conversations carry none.
pub struct Conversation {
    pub id: u64,
    pub conversation_type: ConversationType,
    pub name: Option<String>,
    pub created_at: TimeMs,
    pub updated_at: Option<TimeMs>,
}

impl Clone for Conversation {
    fn clone(&self) -> (r: Self)
        ensures
            r == *self,
    {
        Conversation {
            id: self.id,
            conversation_type: self.conversation_type,
            name: match &self.name {
                Some(n) => Some(n.clone()),
                None => None,
            },
            created_at: self.created_at,
            updated_at: self.updated_at,
        }
    }
}

/// A conversation bundled with its membership rows and the user records they
/// resolve to.
pub struct ConversationAggregate {
    pub conversation: Conversation,
    pub user_conversations: Vec<Participant>,
    pub users: Vec<User>,
}

pub struct CreateConversationRequest {
    pub conversation_type: ConversationType,
    pub sender_id: u64,
    pub participants: Vec<u64>,
    pub name: Option<String>,
}

pub struct UpdateConversationRequest {
    pub name: Option<String>,
}

/// The name a fresh conversation keeps: whatever was asked for a Group, none
/// for a Direct conversation.
pub open spec fn spec_conversation_name(
    conversation_type: ConversationType,
    name: Option<String>,
) -> Option<String> {
    match conversation_type {
        ConversationType::Direct => None,
        ConversationType::Group => name,
    }
}

/// A conversation after an update request: only a Group conversation with a
/// requested name takes it and stamps `updated_at`; everything else stays.
pub open spec fn spec_apply_conversation_update(
    conv: Conversation,
    request: UpdateConversationRequest,
    now: TimeMs,
) -> Conversation {
    if conv.conversation_type == ConversationType::Group && request.name is Some {
        Conversation { name: request.name, updated_at: Some(now), ..conv }
    } else {
        conv
    }
}

} // verus!
