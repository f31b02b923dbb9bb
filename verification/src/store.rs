use vstd::prelude::*;

use crate::conversations::{
    spec_apply_conversation_update, spec_conversation_name, Conversation, ConversationAggregate,
    ConversationType, CreateConversationRequest, UpdateConversationRequest,
};
use crate::idlist::{copy_ids, remove_id};
use crate::idmap::IdMap;
use crate::messages::{
    msgs_for, page, spec_apply_message_update, CreateMessageRequest, InMemoryMessageRepository,
    Message, Pagination, UpdateMessageRequest,
};
use crate::participants::{
    list_of, participants_inv, rows_without_conversation, spec_add_participant,
    spec_add_participants, spec_apply_participant_update, spec_created_rows,
    spec_remove_participant, CreateParticipantsRequest, InMemoryParticipantRepository,
    Participant, ParticipantsModel, UpdateParticipantRequest,
};
use crate::users::{
    known_users, resolve_users, spec_apply_user_update, CreateUserRequest, UpdateUserRequest, User,
};
use crate::TimeMs;

verus! {

/// The mathematical content of the aggregate store.
#[verifier::ext_equal]
pub struct StoreModel {
    pub conversations: Map<u64, Conversation>,
    pub users: Map<u64, User>,
    pub participants: ParticipantsModel,
    pub messages: Seq<(u64, Message)>,
}

/// Every conversation and user is keyed by its own id, and the participant
/// tables are consistent.
pub open spec fn store_inv(m: StoreModel) -> bool {
    &&& forall|k: u64| #[trigger] m.conversations.dom().contains(k) ==> m.conversations[k].id == k
    &&& forall|k: u64| #[trigger] m.users.dom().contains(k) ==> m.users[k].id == k
    &&& participants_inv(m.participants)
}

/// The in-memory aggregate store: users, conversations, participants and
/// messages, with the two secondary participant indices, all behind one
/// value. Callers hand each mutating operation the clock reading it should
/// record.
pub struct InMemoryRepository {
    conversations: IdMap<Conversation>,
    users: IdMap<User>,
    participants: InMemoryParticipantRepository,
    messages: InMemoryMessageRepository,
    next_id: u64,
}

impl View for InMemoryRepository {
    type V = StoreModel;

    closed spec fn view(&self) -> StoreModel {
        StoreModel {
            conversations: Map::new(
                |k: u64| self.conversations.contains_key(k),
                |k: u64| self.conversations.spec_get(k),
            ),
            users: Map::new(
                |k: u64| self.users.contains_key(k),
                |k: u64| self.users.spec_get(k),
            ),
            participants: self.participants@,
            messages: self.messages@,
        }
    }
}

impl InMemoryRepository {
    /// The backing tables hold one entry per key, and every conversation and
    /// user id was issued by the counter.
    pub closed spec fn containers_wf(self) -> bool {
        &&& self.conversations.wf()
        &&& self.users.wf()
        &&& self.participants.wf()
        &&& self.messages.wf()
        &&& forall|k: u64| #[trigger] self.conversations.contains_key(k) ==> k < self.next_id
        &&& forall|k: u64| #[trigger] self.users.contains_key(k) ==> k < self.next_id
    }

    pub open spec fn wf(self) -> bool {
        self.containers_wf() && store_inv(self@)
    }

    /// Whether the store's counter can still issue a fresh conversation or
    /// user id.
    pub closed spec fn ids_available(self) -> bool {
        self.next_id < u64::MAX
    }

    /// Whether the message table can still issue a fresh message id.
    pub closed spec fn message_ids_available(self) -> bool {
        self.messages.ids_available()
    }

    /// Whether a call that creates a user or conversation may be made.
    pub fn can_issue_ids(&self) -> (r: bool)
        ensures
            r == self.ids_available(),
    {
        self.next_id < u64::MAX
    }

    /// Whether a call that creates a message may be made.
    pub fn can_issue_message_ids(&self) -> (r: bool)
        ensures
            r == self.message_ids_available(),
    {
        self.messages.can_issue_ids()
    }

    pub fn new() -> (r: Self)
        ensures
            r.wf(),
            r.ids_available(),
            r.message_ids_available(),
            r@.conversations == Map::<u64, Conversation>::empty(),
            r@.users == Map::<u64, User>::empty(),
            r@.participants.rows == Map::<(u64, u64), Participant>::empty(),
            r@.participants.user_index == Map::<u64, Seq<u64>>::empty(),
            r@.participants.conversation_index == Map::<u64, Seq<u64>>::empty(),
            r@.messages == Seq::<(u64, Message)>::empty(),
    {
        let r = InMemoryRepository {
            conversations: IdMap::new(),
            users: IdMap::new(),
            participants: InMemoryParticipantRepository::new(),
            messages: InMemoryMessageRepository::new(),
            next_id: 1,
        };
        proof {
            assert(r@.conversations =~= Map::<u64, Conversation>::empty());
            assert(r@.users =~= Map::<u64, User>::empty());
        }
        r
    }

    /// Registers a user with a fresh id; `now` becomes `created_at`.
    pub fn create_user(&mut self, request: CreateUserRequest, now: TimeMs) -> (r: User)
        requires
            old(self).wf(),
            old(self).ids_available(),
        ensures
            final(self).wf(),
            !old(self)@.users.dom().contains(r.id),
            !old(self)@.conversations.dom().contains(r.id),
            r.username == request.username,
            r.display_name == request.display_name,
            r.avatar_url == request.avatar_url,
            r.created_at == now,
            final(self)@ == (StoreModel { users: old(self)@.users.insert(r.id, r), ..old(self)@ }),
    {
        let id = self.next_id;
        self.next_id = self.next_id + 1;
        let user = User {
            id,
            username: request.username,
            display_name: request.display_name,
            avatar_url: request.avatar_url,
            created_at: now,
        };
        let stored = user.clone();
        self.users.insert(id, stored);
        proof {
            assert(self@.users =~= old(self)@.users.insert(id, user));
            assert(self@.conversations =~= old(self)@.conversations);
            assert(self@ =~= StoreModel { users: old(self)@.users.insert(id, user), ..old(self)@ });
        }
        user
    }

    /// Reads one user by id.
    pub fn read_user(&self, user_id: u64) -> (r: Option<User>)
        requires
            self.wf(),
        ensures
            self@.users.dom().contains(user_id) ==> r == Some(self@.users[user_id]),
            !self@.users.dom().contains(user_id) ==> r is None,
    {
        match self.users.get(user_id) {
            Some(u) => Some(u.clone()),
            None => None,
        }
    }

    /// Reads the users found among `user_ids`, in request order; unknown ids
    /// are silently dropped, so the caller owns any cardinality check.
    pub fn read_users(&self, user_ids: Vec<u64>) -> (r: Vec<User>)
        requires
            self.wf(),
        ensures
            r@ == resolve_users(self@.users, user_ids@),
    {
        let mut out: Vec<User> = Vec::new();
        let mut i: usize = 0;
        let n = user_ids.len();
        while i < n
            invariant
                self.wf(),
                n == user_ids@.len(),
                i <= n,
                out@ == resolve_users(self@.users, user_ids@.take(i as int)),
            decreases n - i,
        {
            proof {
                lemma_resolve_users_step(self@.users, user_ids@, i as int);
            }
            match self.users.get(user_ids[i]) {
                Some(u) => {
                    out.push(u.clone());
                },
                None => {},
            }
            i = i + 1;
        }
        proof {
            assert(user_ids@.take(n as int) =~= user_ids@);
        }
        out
    }

    /// Overwrites the fields an update request carries; the rest of the user
    /// stays. Returns the user as they stand afterwards, or `None` when the
    /// id is unknown.
    pub fn update_user(&mut self, user_id: u64, request: UpdateUserRequest) -> (r: Option<User>)
        requires
            old(self).wf(),
        ensures
            final(self).wf(),
            !old(self)@.users.dom().contains(user_id) ==> final(self)@ == old(self)@ && r is None,
            old(self)@.users.dom().contains(user_id) ==> {
                let u1 = spec_apply_user_update(old(self)@.users[user_id], request);
                r == Some(u1) && final(self)@ == (StoreModel {
                    users: old(self)@.users.insert(user_id, u1),
                    ..old(self)@
                })
            },
    {
        let current = match self.users.get(user_id) {
            Some(u) => u.clone(),
            None => {
                return None;
            },
        };
        let display_name = match request.display_name {
            Some(d) => d,
            None => current.display_name,
        };
        let avatar_url = match request.avatar_url {
            Some(a) => a,
            None => current.avatar_url,
        };
        let updated = User { display_name, avatar_url, ..current };
        let stored = updated.clone();
        self.users.insert(user_id, stored);
        proof {
            let u1 = spec_apply_user_update(old(self)@.users[user_id], request);
            assert(updated == u1);
            assert(self@.users =~= old(self)@.users.insert(user_id, u1));
            assert forall|k: u64| #[trigger] self.users.contains_key(k) implies k
                < self.next_id by {
                assert(old(self).users.contains_key(k));
            }
            assert(old(self)@.users.dom().contains(user_id));
            assert(u1.id == user_id);
            assert forall|k: u64| #[trigger] self@.users.dom().contains(k) implies self@.users[k].id
                == k by {
                if k != user_id {
                    assert(old(self)@.users.dom().contains(k));
                }
            }
            assert(self@.conversations =~= old(self)@.conversations);
            assert(self@ =~= StoreModel {
                users: old(self)@.users.insert(user_id, u1),
                ..old(self)@
            });
        }
        Some(updated)
    }

    /// Removes a user; removing an unknown id is a silent no-op. Membership
    /// rows are not touched: resolving them later simply drops the user.
    pub fn delete_user(&mut self, user_id: u64)
        requires
            old(self).wf(),
        ensures
            final(self).wf(),
            final(self)@ == (StoreModel { users: old(self)@.users.remove(user_id), ..old(self)@ }),
    {
        self.users.remove(user_id);
        proof {
            assert(self@.users =~= old(self)@.users.remove(user_id));
            assert(self@.conversations =~= old(self)@.conversations);
            assert(self@ =~= StoreModel { users: old(self)@.users.remove(user_id), ..old(self)@ });
        }
    }

    /// Persists a new message; `now` becomes `created_at`.
    pub fn create_message(&mut self, request: CreateMessageRequest, now: TimeMs) -> (r: Message)
        requires
            old(self).wf(),
            old(self).message_ids_available(),
        ensures
            final(self).wf(),
            forall|i: int| 0 <= i < old(self)@.messages.len() ==> old(self)@.messages[i].0 != r.id,
            r.conversation_id == request.conversation_id,
            r.sender_id == request.sender_id,
            r.content == request.content,
            r.created_at == now,
            r.updated_at is None,
            final(self)@ == (StoreModel {
                messages: old(self)@.messages.push((r.id, r)),
                ..old(self)@
            }),
    {
        let message = self.messages.create_message(request, now);
        proof {
            assert(self@ =~= StoreModel {
                messages: old(self)@.messages.push((message.id, message)),
                ..old(self)@
            });
        }
        message
    }

    /// Reads one message by id.
    pub fn read_message(&self, message_id: u64) -> (r: Option<Message>)
        requires
            self.wf(),
        ensures
            self.messages_contain(message_id) ==> r == Some(self.spec_message(message_id)),
            !self.messages_contain(message_id) ==> r is None,
    {
        self.messages.read_message(message_id)
    }

    pub open spec fn messages_contain(self, id: u64) -> bool {
        exists|i: int| 0 <= i < self@.messages.len() && (#[trigger] self@.messages[i]).0 == id
    }

    pub open spec fn message_index_of(self, id: u64) -> int {
        choose|i: int| 0 <= i < self@.messages.len() && (#[trigger] self@.messages[i]).0 == id
    }

    pub open spec fn spec_message(self, id: u64) -> Message {
        self@.messages[self.message_index_of(id)].1
    }

    /// Lists the messages of one conversation in creation order, windowed by
    /// `pagination`.
    pub fn list_messages(&self, conversation_id: u64, pagination: Pagination) -> (r: Vec<Message>)
        requires
            self.wf(),
        ensures
            r@ == page(
                msgs_for(self@.messages, conversation_id),
                pagination.spec_offset(),
                pagination.spec_limit(),
            ),
    {
        self.messages.list_messages(conversation_id, pagination)
    }

    /// Rewrites a message's content, stamping `updated_at` with `now`.
    pub fn update_message(
        &mut self,
        message_id: u64,
        request: UpdateMessageRequest,
        now: TimeMs,
    ) -> (r: Option<Message>)
        requires
            old(self).wf(),
        ensures
            final(self).wf(),
            !old(self).messages_contain(message_id) ==> final(self)@ == old(self)@ && r is None,
            old(self).messages_contain(message_id) ==> {
                let m1 = spec_apply_message_update(old(self).spec_message(message_id), request, now);
                r == Some(m1) && final(self)@ == (StoreModel {
                    messages: old(self)@.messages.update(
                        old(self).message_index_of(message_id),
                        (message_id, m1),
                    ),
                    ..old(self)@
                })
            },
    {
        let r = self.messages.update_message(message_id, request, now);
        proof {
            if old(self).messages_contain(message_id) {
                let m1 = spec_apply_message_update(old(self).spec_message(message_id), request, now);
                assert(self@ =~= StoreModel {
                    messages: old(self)@.messages.update(
                        old(self).message_index_of(message_id),
                        (message_id, m1),
                    ),
                    ..old(self)@
                });
            } else {
                assert(self@ =~= old(self)@);
            }
        }
        r
    }

    /// Removes a message; removing an unknown id is a silent no-op.
    pub fn delete_message(&mut self, message_id: u64)
        requires
            old(self).wf(),
        ensures
            final(self).wf(),
            old(self).messages_contain(message_id) ==> final(self)@ == (StoreModel {
                messages: old(self)@.messages.remove(old(self).message_index_of(message_id)),
                ..old(self)@
            }),
            !old(self).messages_contain(message_id) ==> final(self)@ == old(self)@,
            !final(self).messages_contain(message_id),
    {
        self.messages.delete_message(message_id);
        proof {
            if old(self).messages_contain(message_id) {
                assert(self@ =~= StoreModel {
                    messages: old(self)@.messages.remove(old(self).message_index_of(message_id)),
                    ..old(self)@
                });
            } else {
                assert(self@ =~= old(self)@);
            }
        }
    }

    /// Records one membership row together with both index entries;
    /// recording an existing membership is a silent no-op, so the operation
    /// is duplicate-safe. The row starts with both timestamps unset.
    pub fn create_participant(&mut self, user_id: u64, conversation_id: u64) -> (r: Participant)
        requires
            old(self).wf(),
        ensures
            final(self).wf(),
            final(self)@ == (StoreModel {
                participants: spec_add_participant(
                    old(self)@.participants,
                    Participant { user_id, conversation_id, joined_at: None, last_read_at: None },
                ),
                ..old(self)@
            }),
            final(self)@.participants.rows.dom().contains((user_id, conversation_id)),
            r == final(self)@.participants.rows[(user_id, conversation_id)],
    {
        let p = Participant { user_id, conversation_id, joined_at: None, last_read_at: None };
        let r = self.participants.create_participant(p);
        proof {
            assert(self@ =~= StoreModel {
                participants: spec_add_participant(old(self)@.participants, p),
                ..old(self)@
            });
        }
        r
    }

    /// Removes one membership row together with both index entries; removing
    /// an absent membership is a silent no-op.
    pub fn delete_participant(&mut self, user_id: u64, conversation_id: u64)
        requires
            old(self).wf(),
        ensures
            final(self).wf(),
            final(self)@ == (StoreModel {
                participants: spec_remove_participant(
                    old(self)@.participants,
                    user_id,
                    conversation_id,
                ),
                ..old(self)@
            }),
            !final(self)@.participants.rows.dom().contains((user_id, conversation_id)),
    {
        self.participants.delete_participant(user_id, conversation_id);
        proof {
            assert(self@ =~= StoreModel {
                participants: spec_remove_participant(
                    old(self)@.participants,
                    user_id,
                    conversation_id,
                ),
                ..old(self)@
            });
        }
    }

    /// Reads one membership row.
    pub fn read_participant(&self, user_id: u64, conversation_id: u64) -> (r: Option<Participant>)
        requires
            self.wf(),
        ensures
            self@.participants.rows.dom().contains((user_id, conversation_id)) ==> r == Some(
                self@.participants.rows[(user_id, conversation_id)],
            ),
            !self@.participants.rows.dom().contains((user_id, conversation_id)) ==> r is None,
    {
        self.participants.read_participant(user_id, conversation_id)
    }

    /// Applies an update request to a membership row: `joined_at` is set
    /// once and never overwritten, `last_read_at` always takes the requested
    /// value.
    pub fn update_participant(
        &mut self,
        user_id: u64,
        conversation_id: u64,
        request: UpdateParticipantRequest,
    ) -> (r: Option<Participant>)
        requires
            old(self).wf(),
        ensures
            final(self).wf(),
            !old(self)@.participants.rows.dom().contains((user_id, conversation_id)) ==> final(self)@ == old(self)@ && r is None,
            old(self)@.participants.rows.dom().contains((user_id, conversation_id)) ==> {
                let p1 = spec_apply_participant_update(
                    old(self)@.participants.rows[(user_id, conversation_id)],
                    request,
                );
                r == Some(p1) && final(self)@ == (StoreModel {
                    participants: ParticipantsModel {
                        rows: old(self)@.participants.rows.insert((user_id, conversation_id), p1),
                        ..old(self)@.participants
                    },
                    ..old(self)@
                })
            },
    {
        let r = self.participants.update_participant(user_id, conversation_id, request);
        proof {
            if old(self)@.participants.rows.dom().contains((user_id, conversation_id)) {
                let p1 = spec_apply_participant_update(
                    old(self)@.participants.rows[(user_id, conversation_id)],
                    request,
                );
                assert(self@ =~= StoreModel {
                    participants: ParticipantsModel {
                        rows: old(self)@.participants.rows.insert((user_id, conversation_id), p1),
                        ..old(self)@.participants
                    },
                    ..old(self)@
                });
            } else {
                assert(self@ =~= old(self)@);
            }
        }
        r
    }

    /// Bundles a conversation with its membership rows and the user records
    /// they resolve to.
    fn assemble_aggregate(&self, conversation: Conversation) -> (r: ConversationAggregate)
        requires
            self.wf(),
        ensures
            r.conversation == conversation,
            r.user_conversations@ == spec_conv_rows(self@, conversation.id),
            r.users@ == spec_row_users(self@, spec_conv_rows(self@, conversation.id)),
    {
        let rows = self.participants.read_conversation_participants(conversation.id);
        proof {
            assert(rows@ =~= spec_conv_rows(self@, conversation.id));
        }
        let mut users: Vec<User> = Vec::new();
        let mut i: usize = 0;
        let n = rows.len();
        while i < n
            invariant
                self.wf(),
                n == rows@.len(),
                i <= n,
                users@ == spec_row_users(self@, rows@.take(i as int)),
            decreases n - i,
        {
            proof {
                lemma_row_users_step(self@, rows@, i as int);
            }
            match self.users.get(rows[i].user_id) {
                Some(u) => {
                    users.push(u.clone());
                },
                None => {},
            }
            i = i + 1;
        }
        proof {
            assert(rows@.take(n as int) =~= rows@);
        }
        ConversationAggregate { conversation, user_conversations: rows, users }
    }

    /// Reads a conversation as an aggregate: the conversation, its
    /// membership rows in index order, and the user records they resolve to.
    pub fn read_conversation(&self, id: u64) -> (r: Option<ConversationAggregate>)
        requires
            self.wf(),
        ensures
            r is Some <==> self@.conversations.dom().contains(id),
            r matches Some(agg) ==> agg.conversation == self@.conversations[id]
                && agg.user_conversations@ == spec_conv_rows(self@, id) && agg.users@
                == spec_row_users(self@, spec_conv_rows(self@, id)),
    {
        let conversation = match self.conversations.get(id) {
            Some(c) => c.clone(),
            None => {
                return None;
            },
        };
        proof {
            assert(self@.conversations.dom().contains(id));
            assert(conversation.id == id);
        }
        Some(self.assemble_aggregate(conversation))
    }

    /// Creates a conversation with a fresh id and records a membership for
    /// every requested participant that is a registered user, unknown ids
    /// silently dropped; only the sender's row gets its timestamps set. A
    /// Direct conversation never takes a name.
    pub fn create_conversation(&mut self, request: CreateConversationRequest, now: TimeMs) -> (r:
        ConversationAggregate)
        requires
            old(self).wf(),
            old(self).ids_available(),
        ensures
            final(self).wf(),
            !old(self)@.conversations.dom().contains(r.conversation.id),
            r.conversation.conversation_type == request.conversation_type,
            r.conversation.name == spec_conversation_name(
                request.conversation_type,
                request.name,
            ),
            r.conversation.created_at == now,
            r.conversation.updated_at is None,
            final(self)@.conversations == old(self)@.conversations.insert(
                r.conversation.id,
                r.conversation,
            ),
            final(self)@.participants == spec_add_participants(
                old(self)@.participants,
                known_users(old(self)@.users, request.participants@),
                r.conversation.id,
                request.sender_id,
                now,
            ),
            r.user_conversations@ == spec_created_rows(
                old(self)@.participants,
                known_users(old(self)@.users, request.participants@),
                r.conversation.id,
                request.sender_id,
                now,
            ),
            r.users@ == known_users(old(self)@.users, request.participants@).map_values(
                |u: u64| old(self)@.users[u],
            ),
            final(self)@.users == old(self)@.users,
            final(self)@.messages == old(self)@.messages,
    {
        let id = self.next_id;
        self.next_id = self.next_id + 1;
        let name = match request.conversation_type {
            ConversationType::Direct => None,
            ConversationType::Group => request.name,
        };
        let conversation = Conversation {
            id,
            conversation_type: request.conversation_type,
            name,
            created_at: now,
            updated_at: None,
        };
        proof {
            assert(!old(self)@.conversations.dom().contains(id));
        }
        let stored = conversation.clone();
        self.conversations.insert(id, stored);
        proof {
            assert(self@.conversations =~= old(self)@.conversations.insert(id, conversation));
            assert(self@.users =~= old(self)@.users);
        }
        let ghost mid = self@;
        let mut known: Vec<u64> = Vec::new();
        let mut i: usize = 0;
        let n = request.participants.len();
        while i < n
            invariant
                self.wf(),
                self@ == mid,
                n == request.participants@.len(),
                i <= n,
                known@ == known_users(self@.users, request.participants@.take(i as int)),
            decreases n - i,
        {
            proof {
                lemma_known_users_step(self@.users, request.participants@, i as int);
            }
            let pid = request.participants[i];
            if self.users.contains(pid) {
                known.push(pid);
            }
            i = i + 1;
        }
        proof {
            assert(request.participants@.take(n as int) =~= request.participants@);
        }
        let known_copy = copy_ids(&known);
        let ghost known_ids = known@;
        proof {
            lemma_known_users_members(self@.users, request.participants@);
        }
        let rows = self.participants.create_conversation_participants(
            CreateParticipantsRequest { sender_id: request.sender_id, conversation_id: id, users: known },
            now,
        );
        let mut users: Vec<User> = Vec::new();
        let mut j: usize = 0;
        let kn = known_copy.len();
        while j < kn
            invariant
                kn == known_ids.len(),
                known_copy@ == known_ids,
                j <= kn,
                self.users.wf(),
                forall|k2: u64| #[trigger]
                    self.users.contains_key(k2) == mid.users.dom().contains(k2),
                forall|k2: u64| #[trigger]
                    mid.users.dom().contains(k2) ==> self.users.spec_get(k2) == mid.users[k2],
                forall|k2: int| 0 <= k2 < kn ==> mid.users.dom().contains(known_ids[k2]),
                users@ =~= known_ids.take(j as int).map_values(|u: u64| mid.users[u]),
            decreases kn - j,
        {
            let uid = known_copy[j];
            proof {
                assert(mid.users.dom().contains(known_ids[j as int]));
            }
            let u = self.users.get(uid).unwrap();
            users.push(u.clone());
            proof {
                assert(users@ =~= known_ids.take(j as int + 1).map_values(
                    |u: u64| mid.users[u],
                ));
            }
            j = j + 1;
        }
        proof {
            assert(known_ids.take(kn as int) =~= known_ids);
            assert(self@.users =~= mid.users);
            assert(self@.conversations =~= mid.conversations);
            assert(self@.messages == mid.messages);
            assert(known_users(old(self)@.users, request.participants@) == known_ids);
            assert(users@ =~= known_ids.map_values(|u: u64| old(self)@.users[u]));
        }
        ConversationAggregate { conversation, user_conversations: rows, users }
    }

    /// Lists, as aggregates, the conversations a user belongs to, in the
    /// order the user's index entry records them; an index entry pointing to
    /// a conversation that is gone is skipped.
    pub fn read_conversations_by_user(&self, user_id: u64) -> (r: Vec<ConversationAggregate>)
        requires
            self.wf(),
        ensures
            r@.len() == known_conversations(
                self@.conversations,
                list_of(self@.participants.user_index, user_id),
            ).len(),
            forall|i: int|
                0 <= i < r@.len() ==> {
                    let cid = known_conversations(
                        self@.conversations,
                        list_of(self@.participants.user_index, user_id),
                    )[i];
                    (#[trigger] r@[i]).conversation == self@.conversations[cid]
                        && r@[i].user_conversations@ == spec_conv_rows(self@, cid) && r@[i].users@
                        == spec_row_users(self@, spec_conv_rows(self@, cid))
                },
    {
        let prows = self.participants.read_participant_conversations(user_id);
        let ghost list = list_of(self@.participants.user_index, user_id);
        proof {
            assert forall|i: int| 0 <= i < prows@.len() implies (#[trigger] prows@[i]).conversation_id
                == list[i] by {
                assert(list.contains(list[i]));
                assert(self@.participants.rows.dom().contains((user_id, list[i])));
            }
        }
        let mut out: Vec<ConversationAggregate> = Vec::new();
        let mut i: usize = 0;
        let n = prows.len();
        while i < n
            invariant
                self.wf(),
                n == prows@.len(),
                n == list.len(),
                i <= n,
                list == list_of(self@.participants.user_index, user_id),
                forall|j: int| 0 <= j < n ==> (#[trigger] prows@[j]).conversation_id == list[j],
                out@.len() == known_conversations(self@.conversations, list.take(i as int)).len(),
                forall|j: int|
                    0 <= j < out@.len() ==> {
                        let cid = known_conversations(self@.conversations, list.take(i as int))[j];
                        (#[trigger] out@[j]).conversation == self@.conversations[cid]
                            && out@[j].user_conversations@ == spec_conv_rows(self@, cid)
                            && out@[j].users@ == spec_row_users(self@, spec_conv_rows(self@, cid))
                    },
            decreases n - i,
        {
            proof {
                lemma_known_conversations_step(self@.conversations, list, i as int);
            }
            let cid = prows[i].conversation_id;
            match self.conversations.get(cid) {
                Some(c) => {
                    let conversation = c.clone();
                    proof {
                        assert(self@.conversations.dom().contains(cid));
                        assert(conversation.id == cid);
                    }
                    let agg = self.assemble_aggregate(conversation);
                    out.push(agg);
                },
                None => {},
            }
            i = i + 1;
        }
        proof {
            assert(list.take(n as int) =~= list);
        }
        out
    }

    /// Renames a conversation: only a Group conversation with a requested
    /// name takes it and stamps `updated_at`; a Direct conversation or an
    /// empty request silently changes nothing. Returns the conversation as
    /// it stands afterwards, or `None` when the id is unknown.
    pub fn update_conversation(
        &mut self,
        id: u64,
        request: UpdateConversationRequest,
        now: TimeMs,
    ) -> (r: Option<Conversation>)
        requires
            old(self).wf(),
        ensures
            final(self).wf(),
            !old(self)@.conversations.dom().contains(id) ==> final(self)@ == old(self)@ && r
                is None,
            old(self)@.conversations.dom().contains(id) ==> {
                let c1 = spec_apply_conversation_update(old(self)@.conversations[id], request, now);
                r == Some(c1) && final(self)@ == (StoreModel {
                    conversations: old(self)@.conversations.insert(id, c1),
                    ..old(self)@
                })
            },
    {
        let current = match self.conversations.get(id) {
            Some(c) => c.clone(),
            None => {
                return None;
            },
        };
        if current.conversation_type == ConversationType::Group && request.name.is_some() {
            let updated = Conversation { name: request.name, updated_at: Some(now), ..current };
            let stored = updated.clone();
            self.conversations.insert(id, stored);
            proof {
                let c1 = spec_apply_conversation_update(old(self)@.conversations[id], request, now);
                assert(updated == c1);
                assert(self@.conversations =~= old(self)@.conversations.insert(id, c1));
                assert(self@ =~= (StoreModel {
                    conversations: old(self)@.conversations.insert(id, c1),
                    ..old(self)@
                }));
                assert forall|k: u64| #[trigger] self.conversations.contains_key(k) implies k
                    < self.next_id by {
                    assert(old(self).conversations.contains_key(k));
                }
                assert forall|k: u64| #[trigger]
                    self@.conversations.dom().contains(k) implies self@.conversations[k].id
                    == k by {
                    if k != id {
                        assert(old(self)@.conversations.dom().contains(k));
                    }
                }
            }
            Some(updated)
        } else {
            proof {
                let c1 = spec_apply_conversation_update(old(self)@.conversations[id], request, now);
                assert(current == c1);
                assert(old(self)@.conversations.insert(id, c1) =~= old(self)@.conversations);
                assert(self@ =~= (StoreModel {
                    conversations: old(self)@.conversations.insert(id, c1),
                    ..old(self)@
                }));
            }
            Some(current)
        }
    }

    /// Deletes a conversation and cascades: every membership row keyed by it
    /// goes, its index entry goes, and it is pruned out of every affected
    /// user's index entry. Deleting an unknown id succeeds silently.
    pub fn delete_conversation(&mut self, id: u64)
        requires
            old(self).wf(),
        ensures
            final(self).wf(),
            final(self)@.conversations == old(self)@.conversations.remove(id),
            final(self)@.participants.rows == rows_without_conversation(
                old(self)@.participants.rows,
                id,
            ),
            final(self)@.participants.conversation_index
                == old(self)@.participants.conversation_index.remove(id),
            final(self)@.participants.user_index.dom() == old(self)@.participants.user_index.dom(),
            forall|u: u64| #[trigger]
                old(self)@.participants.user_index.dom().contains(u) ==> final(self)@.participants.user_index[u] == remove_id(
                    old(self)@.participants.user_index[u],
                    id,
                ),
            final(self)@.users == old(self)@.users,
            final(self)@.messages == old(self)@.messages,
    {
        self.conversations.remove(id);
        self.participants.delete_conversation_participants(id);
        proof {
            assert(self@.conversations =~= old(self)@.conversations.remove(id));
            assert(self@.users =~= old(self)@.users);
            assert forall|k: u64| #[trigger] self.conversations.contains_key(k) implies k
                < self.next_id by {
                assert(old(self).conversations.contains_key(k));
            }
            assert forall|k: u64| #[trigger]
                self@.conversations.dom().contains(k) implies self@.conversations[k].id == k by {
                assert(old(self)@.conversations.dom().contains(k));
            }
        }
    }
}

/// The membership rows of conversation `c`, in the order its index entry
/// records the users.
pub open spec fn spec_conv_rows(m: StoreModel, c: u64) -> Seq<Participant> {
    list_of(m.participants.conversation_index, c).map_values(
        |u: u64| m.participants.rows[(u, c)],
    )
}

/// The user records the rows resolve to, in row order; a row whose user is
/// gone is dropped.
pub open spec fn spec_row_users(m: StoreModel, rows: Seq<Participant>) -> Seq<User>
    decreases rows.len(),
{
    if rows.len() == 0 {
        Seq::empty()
    } else {
        let rest = spec_row_users(m, rows.drop_last());
        if m.users.dom().contains(rows.last().user_id) {
            rest.push(m.users[rows.last().user_id])
        } else {
            rest
        }
    }
}

/// The ids of `ids` whose conversations exist, in order.
pub open spec fn known_conversations(convs: Map<u64, Conversation>, ids: Seq<u64>) -> Seq<u64>
    decreases ids.len(),
{
    if ids.len() == 0 {
        Seq::empty()
    } else {
        let rest = known_conversations(convs, ids.drop_last());
        if convs.dom().contains(ids.last()) {
            rest.push(ids.last())
        } else {
            rest
        }
    }
}

/// One step of resolving users over a growing prefix of the request.
proof fn lemma_resolve_users_step(users: Map<u64, User>, ids: Seq<u64>, i: int)
    requires
        0 <= i < ids.len(),
    ensures
        resolve_users(users, ids.take(i + 1)) == if users.dom().contains(ids[i]) {
            resolve_users(users, ids.take(i)).push(users[ids[i]])
        } else {
            resolve_users(users, ids.take(i))
        },
{
    assert(ids.take(i + 1).drop_last() =~= ids.take(i));
    assert(ids.take(i + 1).last() == ids[i]);
}

/// Every id that the filter keeps is a registered user.
proof fn lemma_known_users_members(users: Map<u64, User>, ids: Seq<u64>)
    ensures
        forall|i: int|
            0 <= i < known_users(users, ids).len() ==> users.dom().contains(
                #[trigger] known_users(users, ids)[i],
            ),
    decreases ids.len(),
{
    if ids.len() > 0 {
        lemma_known_users_members(users, ids.drop_last());
        let rest = known_users(users, ids.drop_last());
        let whole = known_users(users, ids);
        assert forall|i: int| 0 <= i < whole.len() implies users.dom().contains(
            #[trigger] whole[i],
        ) by {
            if users.dom().contains(ids.last()) {
                assert(whole == rest.push(ids.last()));
                if i < rest.len() {
                    assert(whole[i] == rest[i]);
                } else {
                    assert(whole[i] == ids.last());
                }
            } else {
                assert(whole == rest);
            }
        }
    }
}

/// One step of filtering the registered users over a growing prefix.
proof fn lemma_known_users_step(users: Map<u64, User>, ids: Seq<u64>, i: int)
    requires
        0 <= i < ids.len(),
    ensures
        known_users(users, ids.take(i + 1)) == if users.dom().contains(ids[i]) {
            known_users(users, ids.take(i)).push(ids[i])
        } else {
            known_users(users, ids.take(i))
        },
{
    assert(ids.take(i + 1).drop_last() =~= ids.take(i));
    assert(ids.take(i + 1).last() == ids[i]);
}

/// One step of resolving rows to users over a growing prefix.
proof fn lemma_row_users_step(m: StoreModel, rows: Seq<Participant>, i: int)
    requires
        0 <= i < rows.len(),
    ensures
        spec_row_users(m, rows.take(i + 1)) == if m.users.dom().contains(rows[i].user_id) {
            spec_row_users(m, rows.take(i)).push(m.users[rows[i].user_id])
        } else {
            spec_row_users(m, rows.take(i))
        },
{
    assert(rows.take(i + 1).drop_last() =~= rows.take(i));
    assert(rows.take(i + 1).last() == rows[i]);
}

/// Cascade completeness, seen from the listing: a conversation id that no
/// longer stands in a user's index entry never appears among the
/// conversations listed for that user, whatever the conversations table
/// holds.
pub proof fn lemma_listing_excludes_conversation(
    convs: Map<u64, Conversation>,
    ids: Seq<u64>,
    c: u64,
)
    requires
        !ids.contains(c),
    ensures
        forall|i: int|
            0 <= i < known_conversations(convs, ids).len() ==> (#[trigger] known_conversations(
                convs,
                ids,
            )[i]) != c,
    decreases ids.len(),
{
    if ids.len() > 0 {
        assert(!ids.drop_last().contains(c)) by {
            if ids.drop_last().contains(c) {
                let w = choose|w: int| 0 <= w < ids.drop_last().len() && ids.drop_last()[w] == c;
                assert(ids[w] == c);
            }
        }
        lemma_listing_excludes_conversation(convs, ids.drop_last(), c);
        let rest = known_conversations(convs, ids.drop_last());
        let whole = known_conversations(convs, ids);
        assert(ids.last() != c) by {
            assert(ids[ids.len() - 1] == ids.last());
        }
        assert forall|i: int| 0 <= i < whole.len() implies (#[trigger] whole[i]) != c by {
            if convs.dom().contains(ids.last()) {
                assert(whole == rest.push(ids.last()));
                if i < rest.len() {
                    assert(whole[i] == rest[i]);
                } else {
                    assert(whole[i] == ids.last());
                }
            } else {
                assert(whole == rest);
            }
        }
    }
}

/// One step of filtering the existing conversations over a growing prefix.
proof fn lemma_known_conversations_step(convs: Map<u64, Conversation>, ids: Seq<u64>, i: int)
    requires
        0 <= i < ids.len(),
    ensures
        known_conversations(convs, ids.take(i + 1)) == if convs.dom().contains(ids[i]) {
            known_conversations(convs, ids.take(i)).push(ids[i])
        } else {
            known_conversations(convs, ids.take(i))
        },
{
    assert(ids.take(i + 1).drop_last() =~= ids.take(i));
    assert(ids.take(i + 1).last() == ids[i]);
}

} // verus!
