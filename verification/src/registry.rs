use vstd::prelude::*;

use crate::idmap::IdMap;
use crate::messages::Message;

verus! {

/// A per-connection delivery queue: bounded, owned by the registry on behalf
/// of one connection, and drained by that connection's outbound writer.
pub struct Mailbox {
    conn_id: u64,
    capacity: usize,
    queue: Vec<Message>,
}

/// The mathematical content of one mailbox.
#[verifier::ext_equal]
pub struct MailboxModel {
    pub conn_id: u64,
    pub capacity: int,
    pub queue: Seq<Message>,
}

impl View for Mailbox {
    type V = MailboxModel;

    closed spec fn view(&self) -> MailboxModel {
        MailboxModel {
            conn_id: self.conn_id,
            capacity: self.capacity as int,
            queue: self.queue@,
        }
    }
}

/// The registry's view of one user's mailboxes, or no mailboxes at all for a
/// user without an entry.
pub open spec fn boxes_of(reg: Map<u64, Seq<MailboxModel>>, u: u64) -> Seq<MailboxModel> {
    if reg.dom().contains(u) {
        reg[u]
    } else {
        Seq::empty()
    }
}

/// Every mailbox of the list can hold at least one message and no connection
/// id repeats.
pub open spec fn boxes_ok(s: Seq<MailboxModel>) -> bool {
    &&& forall|j: int| 0 <= j < s.len() ==> (#[trigger] s[j]).capacity >= 1
    &&& forall|j1: int, j2: int|
        0 <= j1 < j2 < s.len() ==> (#[trigger] s[j1]).conn_id != (#[trigger] s[j2]).conn_id
}

/// Every connection id of the list lies below `b`.
pub open spec fn boxes_bounded(s: Seq<MailboxModel>, b: u64) -> bool {
    forall|j: int| 0 <= j < s.len() ==> (#[trigger] s[j]).conn_id < b
}

/// One best-effort delivery: a mailbox with room takes the message at the
/// back of its queue, a full one is left alone.
pub open spec fn spec_deliver_one(mb: MailboxModel, msg: Message) -> MailboxModel {
    if mb.queue.len() < mb.capacity {
        MailboxModel { queue: mb.queue.push(msg), ..mb }
    } else {
        mb
    }
}

/// Best-effort delivery into every mailbox of one list.
pub open spec fn spec_deliver_list(s: Seq<MailboxModel>, msg: Message) -> Seq<MailboxModel> {
    s.map_values(|mb: MailboxModel| spec_deliver_one(mb, msg))
}

/// How many mailboxes of a list still have room.
pub open spec fn spec_room_count(s: Seq<MailboxModel>) -> int
    decreases s.len(),
{
    if s.len() == 0 {
        0
    } else {
        spec_room_count(s.drop_last()) + if s.last().queue.len() < s.last().capacity {
            1int
        } else {
            0int
        }
    }
}

/// Whether a list holds a mailbox of `conn_id`.
pub open spec fn has_conn(s: Seq<MailboxModel>, conn_id: u64) -> bool {
    exists|i: int| 0 <= i < s.len() && (#[trigger] s[i]).conn_id == conn_id
}

/// The position of the mailbox of `conn_id`.
pub open spec fn spec_conn_index(s: Seq<MailboxModel>, conn_id: u64) -> int {
    choose|i: int| 0 <= i < s.len() && (#[trigger] s[i]).conn_id == conn_id
}

/// The list with the mailbox of `conn_id` removed; without one, the list as
/// it is.
pub open spec fn spec_remove_conn(s: Seq<MailboxModel>, conn_id: u64) -> Seq<MailboxModel> {
    if has_conn(s, conn_id) {
        s.remove(spec_conn_index(s, conn_id))
    } else {
        s
    }
}

/// The live-connection registry: for each user with at least one open
/// connection, that user's mailboxes. A user with no connection has no entry
/// at all — entries are pruned when the last mailbox goes.
pub struct ConnectionRegistry {
    entries: IdMap<Vec<Mailbox>>,
    next_conn: u64,
}

impl View for ConnectionRegistry {
    type V = Map<u64, Seq<MailboxModel>>;

    closed spec fn view(&self) -> Map<u64, Seq<MailboxModel>> {
        Map::new(
            |u: u64| self.entries.contains_key(u),
            |u: u64| self.entries.spec_get(u)@.map_values(|mb: Mailbox| mb@),
        )
    }
}

impl ConnectionRegistry {
    /// Every entry holds at least one mailbox, and the mailboxes of an entry
    /// are well formed.
    pub open spec fn inv(self) -> bool {
        forall|u: u64| #[trigger]
            self@.dom().contains(u) ==> self@[u].len() > 0 && boxes_ok(self@[u])
    }

    /// The counter every issued connection id lies below.
    pub closed spec fn conn_bound(self) -> u64 {
        self.next_conn
    }

    /// Every issued connection id lies below the counter.
    pub closed spec fn conns_bounded(self) -> bool {
        forall|u: u64| #[trigger]
            self@.dom().contains(u) ==> boxes_bounded(self@[u], self.conn_bound())
    }

    pub closed spec fn entries_wf(self) -> bool {
        self.entries.wf()
    }

    pub open spec fn wf(self) -> bool {
        self.entries_wf() && self.inv() && self.conns_bounded()
    }

    /// Whether the counter can still issue a fresh connection id.
    pub closed spec fn conn_ids_available(self) -> bool {
        self.next_conn < u64::MAX
    }

    /// Whether a call that opens a connection may be made.
    pub fn can_issue_conn_ids(&self) -> (r: bool)
        ensures
            r == self.conn_ids_available(),
    {
        self.next_conn < u64::MAX
    }

    pub fn new() -> (r: Self)
        ensures
            r.wf(),
            r.conn_ids_available(),
            r@ == Map::<u64, Seq<MailboxModel>>::empty(),
    {
        let r = ConnectionRegistry { entries: IdMap::new(), next_conn: 1 };
        proof {
            assert(r@ =~= Map::<u64, Seq<MailboxModel>>::empty());
        }
        r
    }

    /// Whether a user has at least one registered mailbox.
    pub fn contains_user(&self, user_id: u64) -> (r: bool)
        ensures
            r == self@.dom().contains(user_id),
    {
        let r = self.entries.contains(user_id);
        proof {
            assert(self@.dom().contains(user_id) == self.entries.contains_key(user_id));
        }
        r
    }

    /// Opens a mailbox for one new connection of `user_id`, creating the
    /// user's entry when absent, and returns the fresh connection id.
    pub fn register(&mut self, user_id: u64, capacity: usize) -> (conn_id: u64)
        requires
            old(self).wf(),
            old(self).conn_ids_available(),
            capacity >= 1,
        ensures
            final(self).wf(),
            !has_conn(boxes_of(old(self)@, user_id), conn_id),
            final(self)@ == old(self)@.insert(
                user_id,
                boxes_of(old(self)@, user_id).push(
                    MailboxModel { conn_id, capacity: capacity as int, queue: Seq::empty() },
                ),
            ),
    {
        let conn_id = self.next_conn;
        self.next_conn = self.next_conn + 1;
        let mailbox = Mailbox { conn_id, capacity, queue: Vec::new() };
        let mut list = match self.entries.take(user_id) {
            Some(l) => l,
            None => Vec::new(),
        };
        list.push(mailbox);
        self.entries.insert(user_id, list);
        proof {
            let o = old(self)@;
            let mbm = MailboxModel {
                conn_id,
                capacity: capacity as int,
                queue: Seq::<Message>::empty(),
            };
            let l0 = boxes_of(o, user_id);
            let l1 = l0.push(mbm);
            if o.dom().contains(user_id) {
                assert(boxes_bounded(o[user_id], old(self).next_conn));
            }
            assert forall|j: int| 0 <= j < l0.len() implies (#[trigger] l0[j]).conn_id
                != conn_id by {
                assert(l0[j].conn_id < conn_id);
            }
            assert(self@[user_id] =~= l1);
            assert(self@ =~= o.insert(user_id, l1));
            assert forall|u: u64| #[trigger] self@.dom().contains(u) implies self@[u].len() > 0
                && boxes_ok(self@[u]) && boxes_bounded(self@[u], self.next_conn) by {
                if u != user_id {
                    assert(o.dom().contains(u));
                    assert(boxes_bounded(o[u], old(self).next_conn));
                } else {
                    assert forall|j1: int, j2: int| 0 <= j1 < j2 < l1.len() implies (
                    #[trigger] l1[j1]).conn_id != (#[trigger] l1[j2]).conn_id by {
                        if j2 == l0.len() {
                            assert(l1[j1].conn_id != conn_id);
                        } else {
                            assert(l0[j1].conn_id != l0[j2].conn_id);
                        }
                    }
                    assert forall|j: int| 0 <= j < l1.len() implies (#[trigger] l1[j]).capacity
                        >= 1 && l1[j].conn_id < self.next_conn by {
                        if j < l0.len() {
                            assert(l0[j].capacity >= 1 && l0[j].conn_id < conn_id);
                        }
                    }
                }
            }
        }
        conn_id
    }

    /// Closes one connection's mailbox; when it was the user's last, the
    /// user's entry is removed entirely. Unknown users or connections are a
    /// silent no-op.
    pub fn deregister(&mut self, user_id: u64, conn_id: u64)
        requires
            old(self).wf(),
        ensures
            final(self).wf(),
            !old(self)@.dom().contains(user_id) ==> final(self)@ == old(self)@,
            old(self)@.dom().contains(user_id) ==> {
                let l2 = spec_remove_conn(old(self)@[user_id], conn_id);
                final(self)@ == if l2.len() == 0 {
                    old(self)@.remove(user_id)
                } else {
                    old(self)@.insert(user_id, l2)
                }
            },
            !has_conn(boxes_of(final(self)@, user_id), conn_id),
    {
        let mut list = match self.entries.take(user_id) {
            Some(l) => l,
            None => {
                proof {
                    assert(self@ =~= old(self)@);
                }
                return ;
            },
        };
        let ghost l0 = list@.map_values(|mb: Mailbox| mb@);
        proof {
            assert(old(self)@.dom().contains(user_id));
            assert(l0 == old(self)@[user_id]);
            assert(boxes_ok(l0) && boxes_bounded(l0, self.next_conn) && l0.len() > 0);
        }
        match scan_conn(&list, conn_id) {
            Some(i) => {
                proof {
                    assert(spec_conn_index(l0, conn_id) == i as int) by {
                        assert forall|w: int|
                            0 <= w < l0.len() && (#[trigger] l0[w]).conn_id
                                == conn_id implies w == i as int by {
                            if w < i as int {
                                assert(l0[i as int].conn_id != l0[w].conn_id);
                            } else if w > i as int {
                                assert(l0[i as int].conn_id != l0[w].conn_id);
                            }
                        }
                    }
                    assert(spec_remove_conn(l0, conn_id) == l0.remove(i as int));
                }
                list.remove(i);
                let ghost l2 = spec_remove_conn(l0, conn_id);
                proof {
                    assert(list@.map_values(|mb: Mailbox| mb@) =~= l2);
                    let iq = i as int;
                    assert forall|j: int| 0 <= j < l2.len() implies (#[trigger] l2[j]).capacity >= 1
                        && l2[j].conn_id != conn_id && l2[j].conn_id < self.next_conn by {
                        let jo = if j < iq {
                            j
                        } else {
                            j + 1
                        };
                        assert(l2[j] == l0[jo]);
                        if jo != iq {
                            let a = if jo < iq {
                                jo
                            } else {
                                iq
                            };
                            let b = if jo < iq {
                                iq
                            } else {
                                jo
                            };
                            assert(l0[a].conn_id != l0[b].conn_id);
                        }
                    }
                    assert forall|j1: int, j2: int| 0 <= j1 < j2 < l2.len() implies (
                    #[trigger] l2[j1]).conn_id != (#[trigger] l2[j2]).conn_id by {
                        let j1o = if j1 < iq {
                            j1
                        } else {
                            j1 + 1
                        };
                        let j2o = if j2 < iq {
                            j2
                        } else {
                            j2 + 1
                        };
                        assert(l0[j1o].conn_id != l0[j2o].conn_id);
                    }
                }
                if list.len() == 0 {
                    proof {
                        assert(l2.len() == 0);
                        assert(self@ =~= old(self)@.remove(user_id));
                        lemma_registry_wf_frame(*old(self), *self, user_id);
                    }
                } else {
                    self.entries.insert(user_id, list);
                    proof {
                        assert(self@[user_id] =~= l2);
                        assert(self@ =~= old(self)@.insert(user_id, l2));
                        lemma_registry_wf_frame(*old(self), *self, user_id);
                    }
                }
            },
            None => {
                proof {
                    assert(!has_conn(l0, conn_id));
                    assert(spec_remove_conn(l0, conn_id) == l0);
                }
                self.entries.insert(user_id, list);
                proof {
                    assert(self@[user_id] =~= l0);
                    assert(self@ =~= old(self)@.insert(user_id, l0));
                    assert(self@ =~= old(self)@);
                    lemma_registry_wf_frame(*old(self), *self, user_id);
                }
            },
        }
    }

    /// Best-effort delivery of one message into every mailbox the user holds:
    /// a full mailbox is skipped without affecting the others, a user with no
    /// entry is a silent no-op. Returns how many mailboxes took the message.
    #[verifier::rlimit(60)]
    pub fn deliver(&mut self, user_id: u64, message: &Message) -> (delivered: usize)
        requires
            old(self).wf(),
        ensures
            final(self).wf(),
            !old(self)@.dom().contains(user_id) ==> final(self)@ == old(self)@ && delivered == 0,
            old(self)@.dom().contains(user_id) ==> final(self)@ == old(self)@.insert(
                user_id,
                spec_deliver_list(old(self)@[user_id], *message),
            ) && delivered == spec_room_count(old(self)@[user_id]),
    {
        let mut list = match self.entries.take(user_id) {
            Some(l) => l,
            None => {
                proof {
                    assert(self@ =~= old(self)@);
                }
                return 0;
            },
        };
        let ghost l0 = list@.map_values(|mb: Mailbox| mb@);
        proof {
            assert(old(self)@.dom().contains(user_id));
            assert(l0 == old(self)@[user_id]);
            assert(boxes_ok(l0) && boxes_bounded(l0, self.next_conn) && l0.len() > 0);
        }
        let mut out: Vec<Mailbox> = Vec::new();
        let mut delivered: usize = 0;
        let ghost total = l0.len();
        while list.len() > 0
            invariant
                out@.len() + list@.len() == total,
                total == l0.len(),
                list@.map_values(|mb: Mailbox| mb@) =~= l0.skip(out@.len() as int),
                out@.map_values(|mb: Mailbox| mb@) =~= spec_deliver_list(
                    l0.take(out@.len() as int),
                    *message,
                ),
                delivered == spec_room_count(l0.take(out@.len() as int)),
                delivered <= out@.len(),
            decreases list@.len(),
        {
            let ghost done = out@.len() as int;
            let ghost lpre = list@;
            let mut mb = list.remove(0);
            proof {
                assert(mb == lpre[0]);
                assert(lpre.map_values(|mbx: Mailbox| mbx@)[0] == mb@);
                assert(l0.skip(done)[0] == l0[done]);
                assert(mb@ == l0[done]);
                assert forall|j: int|
                    0 <= j < list@.len() implies (#[trigger] list@[j])@ == l0.skip(done + 1)[j] by {
                    assert(list@[j] == lpre[j + 1]);
                    assert(lpre.map_values(|mbx: Mailbox| mbx@)[j + 1] == l0.skip(done)[j + 1]);
                }
                assert(list@.map_values(|mbx: Mailbox| mbx@) =~= l0.skip(done + 1));
                lemma_take_one_more(l0, done);
                assert(l0.take(done + 1).drop_last() =~= l0.take(done));
            }
            let had_room = mb.queue.len() < mb.capacity;
            if had_room {
                let m = message.clone();
                mb.queue.push(m);
            }
            proof {
                assert(mb@ == spec_deliver_one(l0[done], *message));
            }
            let ghost out_pre = out@;
            out.push(mb);
            let out_len = out.len();
            if had_room {
                proof {
                    assert(delivered <= out_pre.len());
                    assert(out_len == out@.len() && out@.len() == out_pre.len() + 1);
                }
                delivered = delivered + 1;
            }
            proof {
                let target = spec_deliver_list(l0.take(done + 1), *message);
                assert forall|j: int| 0 <= j < out@.len() implies (#[trigger] out@[j])@
                    == target[j] by {
                    assert(l0.take(done + 1)[j] == l0[j]);
                    if j < done {
                        assert(out@[j] == out_pre[j]);
                        assert(out_pre.map_values(|mbx: Mailbox| mbx@)[j] == spec_deliver_list(
                            l0.take(done),
                            *message,
                        )[j]);
                        assert(l0.take(done)[j] == l0[j]);
                    } else {
                        assert(out@[j] == mb);
                    }
                }
                assert(out@.map_values(|mbx: Mailbox| mbx@) =~= target);
            }
        }
        proof {
            assert(l0.take(total as int) =~= l0);
        }
        self.entries.insert(user_id, out);
        proof {
            let l2 = spec_deliver_list(l0, *message);
            assert(self@[user_id] =~= l2);
            assert(self@ =~= old(self)@.insert(user_id, l2));
            assert(l2.len() == l0.len());
            assert forall|j: int| 0 <= j < l2.len() implies (#[trigger] l2[j]).capacity >= 1 && (
            l2[j]).conn_id < self.next_conn by {
                assert(l0[j].capacity >= 1 && l0[j].conn_id < self.next_conn);
            }
            assert forall|j1: int, j2: int| 0 <= j1 < j2 < l2.len() implies (
            #[trigger] l2[j1]).conn_id != (#[trigger] l2[j2]).conn_id by {
                assert(l0[j1].conn_id != l0[j2].conn_id);
            }
            lemma_registry_wf_frame(*old(self), *self, user_id);
        }
        delivered
    }

    /// Hands the writer of one connection the oldest message waiting in its
    /// mailbox, or `None` when the mailbox is empty or unknown.
    pub fn pop_message(&mut self, user_id: u64, conn_id: u64) -> (r: Option<Message>)
        requires
            old(self).wf(),
        ensures
            final(self).wf(),
            ({
                let l = boxes_of(old(self)@, user_id);
                if has_conn(l, conn_id) && l[spec_conn_index(l, conn_id)].queue.len() > 0 {
                    let j = spec_conn_index(l, conn_id);
                    r == Some(l[j].queue[0]) && final(self)@ == old(self)@.insert(
                        user_id,
                        l.update(j, MailboxModel { queue: l[j].queue.skip(1), ..l[j] }),
                    )
                } else {
                    r is None && final(self)@ == old(self)@
                }
            }),
    {
        let mut list = match self.entries.take(user_id) {
            Some(l) => l,
            None => {
                proof {
                    assert(self@ =~= old(self)@);
                }
                return None;
            },
        };
        let ghost l0 = list@.map_values(|mb: Mailbox| mb@);
        proof {
            assert(old(self)@.dom().contains(user_id));
            assert(l0 == old(self)@[user_id]);
            assert(boxes_ok(l0) && boxes_bounded(l0, self.next_conn) && l0.len() > 0);
        }
        let i = match scan_conn(&list, conn_id) {
            Some(i) => i,
            None => {
                proof {
                    assert(!has_conn(l0, conn_id));
                }
                self.entries.insert(user_id, list);
                proof {
                    assert(self@[user_id] =~= l0);
                    assert(self@ =~= old(self)@);
                    lemma_registry_wf_frame(*old(self), *self, user_id);
                }
                return None;
            },
        };
        proof {
            assert(spec_conn_index(l0, conn_id) == i as int) by {
                assert forall|w: int|
                    0 <= w < l0.len() && (#[trigger] l0[w]).conn_id == conn_id implies w
                    == i as int by {
                    if w != i as int {
                        assert(l0[i as int].conn_id != l0[w].conn_id);
                    }
                }
            }
        }
        let ghost iq = i as int;
        let mut mb = list.remove(i);
        proof {
            assert(mb@ == l0[iq]);
        }
        if mb.queue.len() == 0 {
            list.insert(i, mb);
            proof {
                assert(list@.map_values(|mbx: Mailbox| mbx@) =~= l0);
            }
            self.entries.insert(user_id, list);
            proof {
                assert(self@[user_id] =~= l0);
                assert(self@ =~= old(self)@);
                lemma_registry_wf_frame(*old(self), *self, user_id);
            }
            return None;
        }
        let msg = mb.queue.remove(0);
        proof {
            assert(mb@ =~= (MailboxModel { queue: l0[iq].queue.skip(1), ..l0[iq] }));
        }
        list.insert(i, mb);
        self.entries.insert(user_id, list);
        proof {
            let l2 = l0.update(iq, MailboxModel { queue: l0[iq].queue.skip(1), ..l0[iq] });
            assert(list@.map_values(|mbx: Mailbox| mbx@) =~= l2);
            assert(self@[user_id] =~= l2);
            assert(self@ =~= old(self)@.insert(user_id, l2));
            assert forall|j: int| 0 <= j < l2.len() implies (#[trigger] l2[j]).capacity >= 1 && (
            l2[j]).conn_id < self.next_conn by {
                assert(l0[j].capacity >= 1 && l0[j].conn_id < self.next_conn);
                assert(l2[j].capacity == l0[j].capacity && l2[j].conn_id == l0[j].conn_id);
            }
            assert forall|j1: int, j2: int| 0 <= j1 < j2 < l2.len() implies (
            #[trigger] l2[j1]).conn_id != (#[trigger] l2[j2]).conn_id by {
                assert(l0[j1].conn_id != l0[j2].conn_id);
                assert(l2[j1].conn_id == l0[j1].conn_id && l2[j2].conn_id == l0[j2].conn_id);
            }
            lemma_registry_wf_frame(*old(self), *self, user_id);
            assert(msg == l0[iq].queue[0]);
        }
        Some(msg)
    }
}

/// The position of the mailbox of `conn_id` in a list, by linear scan.
fn scan_conn(list: &Vec<Mailbox>, conn_id: u64) -> (r: Option<usize>)
    ensures
        ({
            let l = list@.map_values(|mb: Mailbox| mb@);
            match r {
                Some(i) => i < l.len() && l[i as int].conn_id == conn_id,
                None => !has_conn(l, conn_id),
            }
        }),
{
    let ghost l = list@.map_values(|mb: Mailbox| mb@);
    let mut i: usize = 0;
    while i < list.len()
        invariant
            l == list@.map_values(|mb: Mailbox| mb@),
            i <= l.len(),
            l.len() == list@.len(),
            forall|j: int| 0 <= j < i ==> (#[trigger] l[j]).conn_id != conn_id,
        decreases l.len() - i,
    {
        if list[i].conn_id == conn_id {
            proof {
                assert(l[i as int].conn_id == conn_id);
            }
            return Some(i);
        }
        i = i + 1;
    }
    None
}

/// A change confined to one user's entry keeps the parts of the registry
/// invariant that speak of every other user.
proof fn lemma_registry_wf_frame(
    before: ConnectionRegistry,
    after: ConnectionRegistry,
    user_id: u64,
)
    requires
        before.wf(),
        after.conn_bound() == before.conn_bound(),
        forall|u: u64|
            u != user_id ==> after@.dom().contains(u) == before@.dom().contains(u),
        forall|u: u64|
            u != user_id && #[trigger] after@.dom().contains(u) ==> after@[u] == before@[u],
        after@.dom().contains(user_id) ==> after@[user_id].len() > 0 && boxes_ok(
            after@[user_id],
        ) && boxes_bounded(after@[user_id], after.conn_bound()),
    ensures
        after.inv(),
        after.conns_bounded(),
{
    assert forall|u: u64| #[trigger] after@.dom().contains(u) implies after@[u].len() > 0
        && boxes_ok(after@[u]) && boxes_bounded(after@[u], after.conn_bound()) by {
        if u != user_id {
            assert(before@.dom().contains(u));
            assert(boxes_bounded(before@[u], before.conn_bound()));
        }
    }
}

/// Taking one more element appends the element in place.
proof fn lemma_take_one_more(s: Seq<MailboxModel>, i: int)
    requires
        0 <= i < s.len(),
    ensures
        s.take(i + 1) == s.take(i).push(s[i]),
{
    assert(s.take(i + 1) =~= s.take(i).push(s[i]));
}

} // verus!
