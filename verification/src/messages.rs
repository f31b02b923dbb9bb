use vstd::prelude::*;

use crate::idmap::IdMap;
use crate::TimeMs;

verus! {

/// A message persisted by the store.
///
/// Identifiers are issued by a per-store counter, so the natural order of
/// message identifiers is their creation order.
pub struct Message {
    pub id: u64,
    pub conversation_id: u64,
    pub sender_id: u64,
    pub content: String,
    pub created_at: TimeMs,
    pub updated_at: Option<TimeMs>,
}

impl Clone for Message {
    fn clone(&self) -> (r: Self)
        ensures
            r == *self,
    {
        Message {
            id: self.id,
            conversation_id: self.conversation_id,
            sender_id: self.sender_id,
            content: self.content.clone(),
            created_at: self.created_at,
            updated_at: self.updated_at,
        }
    }
}

pub struct CreateMessageRequest {
    pub conversation_id: u64,
    pub sender_id: u64,
    pub content: String,
}

pub struct UpdateMessageRequest {
    pub content: Option<String>,
}

/// An offset/limit window over a listing; a missing offset means the start,
/// a missing limit means no bound.
pub struct Pagination {
    pub offset: Option<usize>,
    pub limit: Option<usize>,
}

impl Pagination {
    pub open spec fn spec_offset(self) -> int {
        match self.offset {
            Some(o) => o as int,
            None => 0,
        }
    }

    pub open spec fn spec_limit(self) -> int {
        match self.limit {
            Some(l) => l as int,
            None => usize::MAX as int,
        }
    }
}

impl Default for Pagination {
    fn default() -> (r: Self)
        ensures
            r.offset is None,
            r.limit is None,
    {
        Pagination { offset: None, limit: None }
    }
}

/// The messages of conversation `c`, in the order they stand in `s`.
pub open spec fn msgs_for(s: Seq<(u64, Message)>, c: u64) -> Seq<Message>
    decreases s.len(),
{
    if s.len() == 0 {
        Seq::empty()
    } else {
        let rest = msgs_for(s.drop_last(), c);
        if s.last().1.conversation_id == c {
            rest.push(s.last().1)
        } else {
            rest
        }
    }
}

/// The window of `s` that starts at `offset` and holds at most `limit`
/// elements.
pub open spec fn page<T>(s: Seq<T>, offset: int, limit: int) -> Seq<T>
    recommends
        offset >= 0,
        limit >= 0,
{
    if offset >= s.len() {
        Seq::empty()
    } else if offset + limit >= s.len() {
        s.subrange(offset, s.len() as int)
    } else {
        s.subrange(offset, offset + limit)
    }
}

/// `m` after an update request: new content stamps `updated_at`, an empty
/// request changes nothing.
pub open spec fn spec_apply_message_update(
    m: Message,
    request: UpdateMessageRequest,
    now: TimeMs,
) -> Message {
    match request.content {
        Some(c) => Message { content: c, updated_at: Some(now), ..m },
        None => m,
    }
}

/// The message table: keyed by message id, in creation order.
pub struct InMemoryMessageRepository {
    table: IdMap<Message>,
    next_id: u64,
}

impl View for InMemoryMessageRepository {
    type V = Seq<(u64, Message)>;

    closed spec fn view(&self) -> Seq<(u64, Message)> {
        self.table@
    }
}

impl InMemoryMessageRepository {
    /// Every entry is keyed by its message's own id, identifiers strictly
    /// grow in table order, and all of them were issued by the counter.
    pub closed spec fn wf(self) -> bool {
        &&& self.table.wf()
        &&& forall|i: int|
            0 <= i < self@.len() ==> (#[trigger] self@[i]).1.id == self@[i].0 && self@[i].0
                < self.next_id
        &&& forall|i: int, j: int|
            0 <= i < j < self@.len() ==> (#[trigger] self@[i]).0 < (#[trigger] self@[j]).0
    }

    /// Whether the counter can still issue a fresh id.
    pub closed spec fn ids_available(self) -> bool {
        self.next_id < u64::MAX
    }

    pub open spec fn contains_message(self, id: u64) -> bool {
        exists|i: int| 0 <= i < self@.len() && (#[trigger] self@[i]).0 == id
    }

    pub open spec fn index_of(self, id: u64) -> int {
        choose|i: int| 0 <= i < self@.len() && (#[trigger] self@[i]).0 == id
    }

    pub open spec fn spec_msg(self, id: u64) -> Message {
        self@[self.index_of(id)].1
    }

    /// Whether a call that creates a message may be made.
    pub fn can_issue_ids(&self) -> (r: bool)
        ensures
            r == self.ids_available(),
    {
        self.next_id < u64::MAX
    }

    pub fn new() -> (r: Self)
        ensures
            r@ == Seq::<(u64, Message)>::empty(),
            r.wf(),
            r.ids_available(),
    {
        InMemoryMessageRepository { table: IdMap::new(), next_id: 1 }
    }

    /// Persists a new message with a fresh, creation-ordered id; `now` is the
    /// caller's clock reading and becomes `created_at`.
    pub fn create_message(&mut self, request: CreateMessageRequest, now: TimeMs) -> (r: Message)
        requires
            old(self).wf(),
            old(self).ids_available(),
        ensures
            final(self).wf(),
            !old(self).contains_message(r.id),
            r.conversation_id == request.conversation_id,
            r.sender_id == request.sender_id,
            r.content == request.content,
            r.created_at == now,
            r.updated_at is None,
            final(self)@ == old(self)@.push((r.id, r)),
    {
        let id = self.next_id;
        self.next_id = self.next_id + 1;
        let message = Message {
            id,
            conversation_id: request.conversation_id,
            sender_id: request.sender_id,
            content: request.content,
            created_at: now,
            updated_at: None,
        };
        proof {
            assert forall|i: int| 0 <= i < self@.len() implies (#[trigger] self@[i]).0 != id by {}
        }
        let stored = message.clone();
        self.table.insert(id, stored);
        message
    }

    /// Reads one message by id.
    pub fn read_message(&self, message_id: u64) -> (r: Option<Message>)
        requires
            self.wf(),
        ensures
            self.contains_message(message_id) ==> r == Some(self.spec_msg(message_id)),
            !self.contains_message(message_id) ==> r is None,
    {
        match self.table.get(message_id) {
            Some(m) => Some(m.clone()),
            None => None,
        }
    }

    /// Lists the messages of one conversation in creation order, windowed by
    /// `pagination`.
    pub fn list_messages(&self, conversation_id: u64, pagination: Pagination) -> (r: Vec<Message>)
        requires
            self.wf(),
        ensures
            r@ == page(
                msgs_for(self@, conversation_id),
                pagination.spec_offset(),
                pagination.spec_limit(),
            ),
    {
        let offset = match pagination.offset {
            Some(o) => o,
            None => 0,
        };
        let limit = match pagination.limit {
            Some(l) => l,
            None => usize::MAX,
        };
        let mut found: Vec<Message> = Vec::new();
        let mut i: usize = 0;
        let n = self.table.len();
        while i < n
            invariant
                n == self@.len(),
                i <= n,
                self.wf(),
                found@ == msgs_for(self@.take(i as int), conversation_id),
            decreases n - i,
        {
            proof {
                lemma_msgs_for_step(self@, conversation_id, i as int);
            }
            let entry = self.table.entry_at(i);
            if entry.1.conversation_id == conversation_id {
                found.push(entry.1.clone());
            }
            i = i + 1;
        }
        proof {
            assert(self@.take(n as int) =~= self@);
        }
        let start = if offset < found.len() {
            offset
        } else {
            found.len()
        };
        let remaining = found.len() - start;
        let count = if limit < remaining {
            limit
        } else {
            remaining
        };
        let mut out: Vec<Message> = Vec::new();
        let mut j: usize = 0;
        while j < count
            invariant
                start + count <= found.len(),
                j <= count,
                out@ == found@.subrange(start as int, start as int + j as int),
            decreases count - j,
        {
            let m = &found[start + j];
            out.push(m.clone());
            proof {
                assert(out@ =~= found@.subrange(start as int, start as int + j as int + 1));
            }
            j = j + 1;
        }
        proof {
            let all = msgs_for(self@, conversation_id);
            let target = page(all, pagination.spec_offset(), pagination.spec_limit());
            assert(out@ =~= target);
        }
        out
    }

    /// Rewrites a message's content, stamping `updated_at` with `now`; an
    /// empty request leaves the message unchanged. Returns the message as it
    /// stands afterwards, or `None` when the id is unknown.
    pub fn update_message(
        &mut self,
        message_id: u64,
        request: UpdateMessageRequest,
        now: TimeMs,
    ) -> (r: Option<Message>)
        requires
            old(self).wf(),
        ensures
            final(self).wf(),
            !old(self).contains_message(message_id) ==> final(self)@ == old(self)@ && r is None,
            old(self).contains_message(message_id) ==> {
                let m1 = spec_apply_message_update(old(self).spec_msg(message_id), request, now);
                r == Some(m1) && final(self)@ == old(self)@.update(
                    old(self).index_of(message_id),
                    (message_id, m1),
                )
            },
    {
        let current = match self.table.get(message_id) {
            Some(m) => m.clone(),
            None => {
                return None;
            },
        };
        let updated = match request.content {
            Some(content) => Message { content, updated_at: Some(now), ..current },
            None => current,
        };
        let stored = updated.clone();
        self.table.insert(message_id, stored);
        proof {
            let o = old(self)@;
            let n = self@;
            let iq = old(self).index_of(message_id);
            assert forall|p: int, q: int| 0 <= p < q < n.len() implies (#[trigger] n[p]).0 < (
            #[trigger] n[q]).0 by {
                assert(o[p].0 < o[q].0);
            }
            assert forall|p: int|
                0 <= p < n.len() implies (#[trigger] n[p]).1.id == n[p].0 && n[p].0
                < self.next_id by {
                assert(o[p].1.id == o[p].0 && o[p].0 < self.next_id);
            }
        }
        Some(updated)
    }

    /// Removes a message; removing an unknown id is a silent no-op.
    pub fn delete_message(&mut self, message_id: u64)
        requires
            old(self).wf(),
        ensures
            final(self).wf(),
            old(self).contains_message(message_id) ==> final(self)@ == old(self)@.remove(
                old(self).index_of(message_id),
            ),
            !old(self).contains_message(message_id) ==> final(self)@ == old(self)@,
            !final(self).contains_message(message_id),
    {
        self.table.remove(message_id);
        proof {
            let o = old(self)@;
            let n = self@;
            if old(self).contains_message(message_id) {
                let iq = old(self).index_of(message_id);
                assert forall|p: int, q: int| 0 <= p < q < n.len() implies (#[trigger] n[p]).0 < (
                #[trigger] n[q]).0 by {
                    let po = if p < iq {
                        p
                    } else {
                        p + 1
                    };
                    let qo = if q < iq {
                        q
                    } else {
                        q + 1
                    };
                    assert(o[po].0 < o[qo].0);
                }
                assert forall|p: int|
                    0 <= p < n.len() implies (#[trigger] n[p]).1.id == n[p].0 && n[p].0
                    < self.next_id by {
                    let po = if p < iq {
                        p
                    } else {
                        p + 1
                    };
                    assert(o[po].1.id == o[po].0 && o[po].0 < self.next_id);
                }
            }
        }
    }
}

/// One step of `msgs_for` over a growing prefix.
proof fn lemma_msgs_for_step(s: Seq<(u64, Message)>, c: u64, i: int)
    requires
        0 <= i < s.len(),
    ensures
        msgs_for(s.take(i + 1), c) == if s[i].1.conversation_id == c {
            msgs_for(s.take(i), c).push(s[i].1)
        } else {
            msgs_for(s.take(i), c)
        },
{
    assert(s.take(i + 1).drop_last() =~= s.take(i));
    assert(s.take(i + 1).last() == s[i]);
}

} // verus!
