use vstd::prelude::*;

use crate::idlist::{dup_free, lemma_push_contains};
use crate::messages::{CreateMessageRequest, Message};
use crate::participants::list_of;
use crate::registry::{spec_deliver_list, ConnectionRegistry, MailboxModel};
use crate::store::{InMemoryRepository, StoreModel};
use crate::TimeMs;

verus! {

/// The registry after one message is delivered, best effort, to every user of
/// the list that holds an entry; a user without one is passed over.
pub open spec fn spec_fanout(
    reg: Map<u64, Seq<MailboxModel>>,
    users: Seq<u64>,
    msg: Message,
) -> Map<u64, Seq<MailboxModel>>
    decreases users.len(),
{
    if users.len() == 0 {
        reg
    } else {
        let prev = spec_fanout(reg, users.drop_last(), msg);
        let u = users.last();
        if prev.dom().contains(u) {
            prev.insert(u, spec_deliver_list(prev[u], msg))
        } else {
            prev
        }
    }
}

/// Takes one inbound create-message request: persists the message first, then
/// resolves the conversation's participants and delivers the persisted
/// message to every one of them, the sender included. A request naming an
/// unknown conversation still persists the message but delivers nothing; a
/// participant without a mailbox is passed over without error.
pub fn handle_inbound(
    repo: &mut InMemoryRepository,
    registry: &mut ConnectionRegistry,
    request: CreateMessageRequest,
    now: TimeMs,
) -> (r: Message)
    requires
        old(repo).wf(),
        old(repo).message_ids_available(),
        old(registry).wf(),
    ensures
        final(repo).wf(),
        final(registry).wf(),
        final(repo)@ == (StoreModel {
            messages: old(repo)@.messages.push((r.id, r)),
            ..old(repo)@
        }),
        r.conversation_id == request.conversation_id,
        r.sender_id == request.sender_id,
        r.content == request.content,
        r.created_at == now,
        r.updated_at is None,
        !old(repo)@.conversations.dom().contains(request.conversation_id) ==> final(registry)@
            == old(registry)@,
        old(repo)@.conversations.dom().contains(request.conversation_id) ==> final(registry)@
            == spec_fanout(
            old(registry)@,
            list_of(old(repo)@.participants.conversation_index, request.conversation_id),
            r,
        ),
{
    let conversation_id = request.conversation_id;
    let message = repo.create_message(request, now);
    let aggregate = match repo.read_conversation(conversation_id) {
        Some(aggregate) => aggregate,
        None => {
            return message;
        },
    };
    let rows = aggregate.user_conversations;
    let ghost ulist = list_of(repo@.participants.conversation_index, conversation_id);
    proof {
        assert(ulist == list_of(
            old(repo)@.participants.conversation_index,
            conversation_id,
        ));
        assert forall|j: int| 0 <= j < rows@.len() implies (#[trigger] rows@[j]).user_id
            == ulist[j] by {
            assert(ulist.contains(ulist[j]));
            assert(repo@.participants.rows.dom().contains((ulist[j], conversation_id)));
        }
    }
    let mut i: usize = 0;
    let n = rows.len();
    while i < n
        invariant
            registry.wf(),
            n == rows@.len(),
            n == ulist.len(),
            i <= n,
            forall|j: int| 0 <= j < n ==> (#[trigger] rows@[j]).user_id == ulist[j],
            registry@ == spec_fanout(old(registry)@, ulist.take(i as int), message),
        decreases n - i,
    {
        proof {
            lemma_fanout_step(old(registry)@, ulist, message, i as int);
        }
        let user_id = rows[i].user_id;
        registry.deliver(user_id, &message);
        i = i + 1;
    }
    proof {
        assert(ulist.take(n as int) =~= ulist);
    }
    message
}

/// One step of the fan-out over a growing prefix of the participant list.
proof fn lemma_fanout_step(
    reg: Map<u64, Seq<MailboxModel>>,
    users: Seq<u64>,
    msg: Message,
    i: int,
)
    requires
        0 <= i < users.len(),
    ensures
        spec_fanout(reg, users.take(i + 1), msg) == ({
            let prev = spec_fanout(reg, users.take(i), msg);
            if prev.dom().contains(users[i]) {
                prev.insert(users[i], spec_deliver_list(prev[users[i]], msg))
            } else {
                prev
            }
        }),
{
    assert(users.take(i + 1).drop_last() =~= users.take(i));
    assert(users.take(i + 1).last() == users[i]);
}

/// Fan-out completeness: over a duplicate-free participant list, every
/// participant holding an entry has the message delivered into their
/// mailboxes exactly once, every user outside the list keeps their mailboxes
/// as they were, and no entry appears or disappears.
pub proof fn lemma_fanout_effect(reg: Map<u64, Seq<MailboxModel>>, users: Seq<u64>, msg: Message)
    requires
        dup_free(users),
    ensures
        spec_fanout(reg, users, msg).dom() == reg.dom(),
        forall|u: u64|
            reg.dom().contains(u) && users.contains(u) ==> spec_fanout(reg, users, msg)[u]
                == spec_deliver_list(reg[u], msg),
        forall|u: u64|
            reg.dom().contains(u) && !users.contains(u) ==> spec_fanout(reg, users, msg)[u]
                == reg[u],
    decreases users.len(),
{
    if users.len() == 0 {
    } else {
        let pre = users.drop_last();
        let u = users.last();
        assert(dup_free(pre));
        assert(!pre.contains(u)) by {
            if pre.contains(u) {
                let w = choose|w: int| 0 <= w < pre.len() && pre[w] == u;
                assert(users[w] == users[users.len() - 1]);
            }
        }
        lemma_fanout_effect(reg, pre, msg);
        assert(pre.push(u) =~= users);
        assert forall|u2: u64| users.contains(u2) == (pre.contains(u2) || u2 == u) by {
            lemma_push_contains(pre, u, u2);
        }
        let prev = spec_fanout(reg, pre, msg);
        assert(spec_fanout(reg, users, msg).dom() =~= reg.dom());
    }
}

/// Offline-safe delivery: a user with no registered mailbox stays without an
/// entry — delivery to them is a no-op — and every other participant of the
/// list still has the message delivered.
pub proof fn lemma_offline_safe(
    reg: Map<u64, Seq<MailboxModel>>,
    users: Seq<u64>,
    msg: Message,
    absent: u64,
)
    requires
        dup_free(users),
        !reg.dom().contains(absent),
    ensures
        !spec_fanout(reg, users, msg).dom().contains(absent),
        forall|u: u64|
            reg.dom().contains(u) && users.contains(u) ==> spec_fanout(reg, users, msg)[u]
                == spec_deliver_list(reg[u], msg),
{
    lemma_fanout_effect(reg, users, msg);
}

/// The per-mailbox reading of fan-out completeness: a participant's mailbox
/// with room ends with the message appended to its queue exactly once.
pub proof fn lemma_fanout_exactly_once(
    reg: Map<u64, Seq<MailboxModel>>,
    users: Seq<u64>,
    msg: Message,
    u: u64,
    j: int,
)
    requires
        dup_free(users),
        users.contains(u),
        reg.dom().contains(u),
        0 <= j < reg[u].len(),
        reg[u][j].queue.len() < reg[u][j].capacity,
    ensures
        spec_fanout(reg, users, msg)[u].len() == reg[u].len(),
        spec_fanout(reg, users, msg)[u][j].queue == reg[u][j].queue.push(msg),
        spec_fanout(reg, users, msg)[u][j].conn_id == reg[u][j].conn_id,
{
    lemma_fanout_effect(reg, users, msg);
    assert(spec_fanout(reg, users, msg)[u] == spec_deliver_list(reg[u], msg));
}

} // verus!
