use vstd::prelude::*;

use crate::idlist::{
    copy_ids, dup_free, lemma_push_contains, lemma_push_dup_free, lemma_remove_id_membership,
    remove_id, remove_id_exec,
};
use crate::idmap::IdMap;
use crate::pairmap::PairMap;
use crate::TimeMs;

verus! {

/// A user's membership in one conversation.
///
/// `joined_at` stays unset until the user is confirmed as a member; the
/// creator of a conversation is confirmed at once.
#[derive(Clone, Copy)]
pub struct Participant {
    pub user_id: u64,
    pub conversation_id: u64,
    pub joined_at: Option<TimeMs>,
    pub last_read_at: Option<TimeMs>,
}

pub struct CreateParticipantsRequest {
    pub sender_id: u64,
    pub conversation_id: u64,
    pub users: Vec<u64>,
}

pub struct UpdateParticipantRequest {
    pub joined_at: Option<TimeMs>,
    pub last_read_at: Option<TimeMs>,
}

/// The mathematical content of the participant store: the keyed rows and the
/// two secondary indices.
#[verifier::ext_equal]
pub struct ParticipantsModel {
    pub rows: Map<(u64, u64), Participant>,
    pub user_index: Map<u64, Seq<u64>>,
    pub conversation_index: Map<u64, Seq<u64>>,
}

/// The index entry of `k` in `index`, or the empty list where `k` has none.
pub open spec fn list_of(index: Map<u64, Seq<u64>>, k: u64) -> Seq<u64> {
    if index.dom().contains(k) {
        index[k]
    } else {
        Seq::empty()
    }
}

/// The consistency the participant store keeps at every quiescent point:
/// each row is keyed by its own user and conversation, index entries are
/// duplicate-free, and a row exists exactly when both secondary indices
/// record it.
pub open spec fn participants_inv(m: ParticipantsModel) -> bool {
    &&& forall|k: (u64, u64)| #[trigger]
        m.rows.dom().contains(k) ==> m.rows[k].user_id == k.0 && m.rows[k].conversation_id == k.1
    &&& forall|u: u64| #[trigger] m.user_index.dom().contains(u) ==> dup_free(m.user_index[u])
    &&& forall|c: u64| #[trigger]
        m.conversation_index.dom().contains(c) ==> dup_free(m.conversation_index[c])
    &&& forall|u: u64, c: u64|
        #![trigger m.rows.dom().contains((u, c))]
        #![trigger list_of(m.user_index, u).contains(c)]
        m.rows.dom().contains((u, c)) <==> list_of(m.user_index, u).contains(c)
    &&& forall|u: u64, c: u64|
        #![trigger m.rows.dom().contains((u, c))]
        #![trigger list_of(m.conversation_index, c).contains(u)]
        m.rows.dom().contains((u, c)) <==> list_of(m.conversation_index, c).contains(u)
}

/// The row a fresh membership gets: the sender is confirmed and caught up at
/// `now`, everyone else is left pending.
pub open spec fn spec_new_participant(u: u64, c: u64, sender: u64, now: TimeMs) -> Participant {
    Participant {
        user_id: u,
        conversation_id: c,
        joined_at: if u == sender {
            Some(now)
        } else {
            None
        },
        last_read_at: if u == sender {
            Some(now)
        } else {
            None
        },
    }
}

/// The store after one membership is added; adding an existing membership
/// changes nothing.
pub open spec fn spec_add_participant(m: ParticipantsModel, p: Participant) -> ParticipantsModel {
    let k = (p.user_id, p.conversation_id);
    if m.rows.dom().contains(k) {
        m
    } else {
        ParticipantsModel {
            rows: m.rows.insert(k, p),
            user_index: m.user_index.insert(
                p.user_id,
                list_of(m.user_index, p.user_id).push(p.conversation_id),
            ),
            conversation_index: m.conversation_index.insert(
                p.conversation_id,
                list_of(m.conversation_index, p.conversation_id).push(p.user_id),
            ),
        }
    }
}

/// The store after one membership is removed; removing an absent membership
/// changes nothing.
pub open spec fn spec_remove_participant(m: ParticipantsModel, u: u64, c: u64) -> ParticipantsModel {
    if m.rows.dom().contains((u, c)) {
        ParticipantsModel {
            rows: m.rows.remove((u, c)),
            user_index: m.user_index.insert(u, remove_id(list_of(m.user_index, u), c)),
            conversation_index: m.conversation_index.insert(
                c,
                remove_id(list_of(m.conversation_index, c), u),
            ),
        }
    } else {
        m
    }
}

/// The store after memberships for `users` are added to conversation `c`,
/// in request order.
pub open spec fn spec_add_participants(
    m: ParticipantsModel,
    users: Seq<u64>,
    c: u64,
    sender: u64,
    now: TimeMs,
) -> ParticipantsModel
    decreases users.len(),
{
    if users.len() == 0 {
        m
    } else {
        spec_add_participant(
            spec_add_participants(m, users.drop_last(), c, sender, now),
            spec_new_participant(users.last(), c, sender, now),
        )
    }
}

/// The rows reported for each requested user, in request order: the fresh
/// row, or the row as it already stood.
pub open spec fn spec_created_rows(
    m: ParticipantsModel,
    users: Seq<u64>,
    c: u64,
    sender: u64,
    now: TimeMs,
) -> Seq<Participant>
    decreases users.len(),
{
    if users.len() == 0 {
        Seq::empty()
    } else {
        spec_created_rows(m, users.drop_last(), c, sender, now).push(
            spec_add_participants(m, users, c, sender, now).rows[(users.last(), c)],
        )
    }
}

/// The rows that survive deleting conversation `c`.
pub open spec fn rows_without_conversation(
    rows: Map<(u64, u64), Participant>,
    c: u64,
) -> Map<(u64, u64), Participant> {
    Map::new(|k: (u64, u64)| rows.dom().contains(k) && k.1 != c, |k: (u64, u64)| rows[k])
}

/// A row after an update request: `joined_at` is set once and never
/// overwritten, `last_read_at` always takes the requested value.
pub open spec fn spec_apply_participant_update(
    p: Participant,
    request: UpdateParticipantRequest,
) -> Participant {
    Participant {
        joined_at: if p.joined_at is Some {
            p.joined_at
        } else {
            request.joined_at
        },
        last_read_at: if request.last_read_at is Some {
            request.last_read_at
        } else {
            p.last_read_at
        },
        ..p
    }
}

/// The participant table with its two secondary indices: user to
/// conversations and conversation to users.
pub struct InMemoryParticipantRepository {
    rows: PairMap<Participant>,
    user_index: IdMap<Vec<u64>>,
    conversation_index: IdMap<Vec<u64>>,
}

impl View for InMemoryParticipantRepository {
    type V = ParticipantsModel;

    closed spec fn view(&self) -> ParticipantsModel {
        ParticipantsModel {
            rows: Map::new(
                |k: (u64, u64)| self.rows.contains_key(k),
                |k: (u64, u64)| self.rows.spec_get(k),
            ),
            user_index: Map::new(
                |u: u64| self.user_index.contains_key(u),
                |u: u64| self.user_index.spec_get(u)@,
            ),
            conversation_index: Map::new(
                |c: u64| self.conversation_index.contains_key(c),
                |c: u64| self.conversation_index.spec_get(c)@,
            ),
        }
    }
}

impl InMemoryParticipantRepository {
    /// The backing tables hold one entry per key.
    pub closed spec fn containers_wf(self) -> bool {
        self.rows.wf() && self.user_index.wf() && self.conversation_index.wf()
    }

    pub open spec fn wf(self) -> bool {
        self.containers_wf() && participants_inv(self@)
    }

    pub fn new() -> (r: Self)
        ensures
            r.wf(),
            r@.rows == Map::<(u64, u64), Participant>::empty(),
            r@.user_index == Map::<u64, Seq<u64>>::empty(),
            r@.conversation_index == Map::<u64, Seq<u64>>::empty(),
    {
        let r = InMemoryParticipantRepository {
            rows: PairMap::new(),
            user_index: IdMap::new(),
            conversation_index: IdMap::new(),
        };
        proof {
            assert(r@.rows =~= Map::<(u64, u64), Participant>::empty());
            assert(r@.user_index =~= Map::<u64, Seq<u64>>::empty());
            assert(r@.conversation_index =~= Map::<u64, Seq<u64>>::empty());
        }
        r
    }

    /// Reads one membership row.
    pub fn read_participant(&self, user_id: u64, conversation_id: u64) -> (r: Option<Participant>)
        requires
            self.wf(),
        ensures
            self@.rows.dom().contains((user_id, conversation_id)) ==> r == Some(
                self@.rows[(user_id, conversation_id)],
            ),
            !self@.rows.dom().contains((user_id, conversation_id)) ==> r is None,
    {
        match self.rows.get((user_id, conversation_id)) {
            Some(p) => Some(*p),
            None => None,
        }
    }

    /// Records a membership row and both index entries together; an existing
    /// membership is left exactly as it is, so recording twice is safe.
    pub fn create_participant(&mut self, p: Participant) -> (r: Participant)
        requires
            old(self).wf(),
        ensures
            final(self).wf(),
            final(self)@ == spec_add_participant(old(self)@, p),
            final(self)@.rows.dom().contains((p.user_id, p.conversation_id)),
            r == final(self)@.rows[(p.user_id, p.conversation_id)],
    {
        let k = (p.user_id, p.conversation_id);
        if let Some(existing) = self.rows.get(k) {
            return *existing;
        }
        let mut ulist = match self.user_index.get(p.user_id) {
            Some(v) => copy_ids(v),
            None => Vec::new(),
        };
        ulist.push(p.conversation_id);
        self.user_index.insert(p.user_id, ulist);
        let mut clist = match self.conversation_index.get(p.conversation_id) {
            Some(v) => copy_ids(v),
            None => Vec::new(),
        };
        clist.push(p.user_id);
        self.conversation_index.insert(p.conversation_id, clist);
        self.rows.insert(k, p);
        proof {
            let o = old(self)@;
            let n = self@;
            let target = spec_add_participant(o, p);
            assert(n.rows =~= target.rows);
            assert(n.user_index =~= target.user_index);
            assert(n.conversation_index =~= target.conversation_index);
            assert(n =~= target);
            lemma_add_participant_inv(o, p);
        }
        p
    }

    /// Removes a membership row and both index entries together; removing an
    /// absent membership is a silent no-op.
    pub fn delete_participant(&mut self, user_id: u64, conversation_id: u64)
        requires
            old(self).wf(),
        ensures
            final(self).wf(),
            final(self)@ == spec_remove_participant(old(self)@, user_id, conversation_id),
            !final(self)@.rows.dom().contains((user_id, conversation_id)),
    {
        let k = (user_id, conversation_id);
        if !self.rows.contains(k) {
            proof {
                assert(!spec_remove_participant(self@, user_id, conversation_id).rows.dom()
                    .contains(k));
            }
            return ;
        }
        self.rows.remove(k);
        let mut ulist = match self.user_index.get(user_id) {
            Some(v) => copy_ids(v),
            None => Vec::new(),
        };
        proof {
            lemma_remove_id_membership(list_of(old(self)@.user_index, user_id), conversation_id);
        }
        remove_id_exec(&mut ulist, conversation_id);
        self.user_index.insert(user_id, ulist);
        let mut clist = match self.conversation_index.get(conversation_id) {
            Some(v) => copy_ids(v),
            None => Vec::new(),
        };
        proof {
            lemma_remove_id_membership(
                list_of(old(self)@.conversation_index, conversation_id),
                user_id,
            );
        }
        remove_id_exec(&mut clist, user_id);
        self.conversation_index.insert(conversation_id, clist);
        proof {
            let o = old(self)@;
            let n = self@;
            let target = spec_remove_participant(o, user_id, conversation_id);
            assert(n.rows =~= target.rows);
            assert(n.user_index =~= target.user_index);
            assert(n.conversation_index =~= target.conversation_index);
            assert(n =~= target);
            lemma_remove_participant_inv(o, user_id, conversation_id);
        }
    }

    /// Applies an update request to a membership row: `joined_at` only where
    /// it was still unset, `last_read_at` unconditionally. Returns the row as
    /// it stands afterwards, or `None` when the membership is unknown.
    pub fn update_participant(
        &mut self,
        user_id: u64,
        conversation_id: u64,
        request: UpdateParticipantRequest,
    ) -> (r: Option<Participant>)
        requires
            old(self).wf(),
        ensures
            final(self).wf(),
            !old(self)@.rows.dom().contains((user_id, conversation_id)) ==> final(self)@ == old(
                self,
            )@ && r is None,
            old(self)@.rows.dom().contains((user_id, conversation_id)) ==> {
                let p1 = spec_apply_participant_update(
                    old(self)@.rows[(user_id, conversation_id)],
                    request,
                );
                r == Some(p1) && final(self)@ == ParticipantsModel {
                    rows: old(self)@.rows.insert((user_id, conversation_id), p1),
                    ..old(self)@
                }
            },
    {
        let k = (user_id, conversation_id);
        let current = match self.rows.get(k) {
            Some(p) => *p,
            None => {
                return None;
            },
        };
        let joined_at = match current.joined_at {
            Some(t) => Some(t),
            None => request.joined_at,
        };
        let last_read_at = match request.last_read_at {
            Some(t) => Some(t),
            None => current.last_read_at,
        };
        let updated = Participant { joined_at, last_read_at, ..current };
        self.rows.insert(k, updated);
        proof {
            let o = old(self)@;
            let n = self@;
            let p1 = spec_apply_participant_update(o.rows[k], request);
            assert(updated == p1);
            assert(n.rows =~= o.rows.insert(k, p1));
            assert(n.user_index =~= o.user_index);
            assert(n.conversation_index =~= o.conversation_index);
            assert(n =~= ParticipantsModel { rows: o.rows.insert(k, p1), ..o });
            assert forall|k2: (u64, u64)| #[trigger] n.rows.dom().contains(k2) implies n.rows[k2].user_id
                == k2.0 && n.rows[k2].conversation_id == k2.1 by {
                if k2 != k {
                    assert(o.rows.dom().contains(k2));
                }
            }
            assert forall|u2: u64, c2: u64|
                n.rows.dom().contains((u2, c2)) == o.rows.dom().contains((u2, c2)) by {}
        }
        Some(updated)
    }
    /// Records a membership for every requested user, in request order; the
    /// sender's row alone gets its timestamps set to `now`. A user already a
    /// member keeps their row untouched and is reported as it stands.
    pub fn create_conversation_participants(
        &mut self,
        request: CreateParticipantsRequest,
        now: TimeMs,
    ) -> (r: Vec<Participant>)
        requires
            old(self).wf(),
        ensures
            final(self).wf(),
            final(self)@ == spec_add_participants(
                old(self)@,
                request.users@,
                request.conversation_id,
                request.sender_id,
                now,
            ),
            r@ == spec_created_rows(
                old(self)@,
                request.users@,
                request.conversation_id,
                request.sender_id,
                now,
            ),
    {
        let mut out: Vec<Participant> = Vec::new();
        let mut i: usize = 0;
        let n = request.users.len();
        while i < n
            invariant
                n == request.users@.len(),
                i <= n,
                self.wf(),
                self@ == spec_add_participants(
                    old(self)@,
                    request.users@.take(i as int),
                    request.conversation_id,
                    request.sender_id,
                    now,
                ),
                out@ == spec_created_rows(
                    old(self)@,
                    request.users@.take(i as int),
                    request.conversation_id,
                    request.sender_id,
                    now,
                ),
            decreases n - i,
        {
            proof {
                lemma_add_participants_step(
                    old(self)@,
                    request.users@,
                    request.conversation_id,
                    request.sender_id,
                    now,
                    i as int,
                );
            }
            let u = request.users[i];
            let stamp = if u == request.sender_id {
                Some(now)
            } else {
                None
            };
            let p = Participant {
                user_id: u,
                conversation_id: request.conversation_id,
                joined_at: stamp,
                last_read_at: stamp,
            };
            proof {
                assert(p == spec_new_participant(
                    u,
                    request.conversation_id,
                    request.sender_id,
                    now,
                ));
            }
            let row = self.create_participant(p);
            out.push(row);
            i = i + 1;
        }
        proof {
            assert(request.users@.take(n as int) =~= request.users@);
        }
        out
    }

    /// Lists the membership rows of one conversation, in the order its index
    /// entry records the users.
    pub fn read_conversation_participants(&self, conversation_id: u64) -> (r: Vec<Participant>)
        requires
            self.wf(),
        ensures
            r@.len() == list_of(self@.conversation_index, conversation_id).len(),
            forall|i: int|
                0 <= i < r@.len() ==> r@[i] == self@.rows[(
                    list_of(self@.conversation_index, conversation_id)[i],
                    conversation_id,
                )],
    {
        let list = match self.conversation_index.get(conversation_id) {
            Some(v) => v,
            None => {
                return Vec::new();
            },
        };
        let mut out: Vec<Participant> = Vec::new();
        let mut i: usize = 0;
        while i < list.len()
            invariant
                self.wf(),
                list@ == list_of(self@.conversation_index, conversation_id),
                i <= list@.len(),
                out@.len() == i,
                forall|j: int|
                    0 <= j < i ==> out@[j] == self@.rows[(list@[j], conversation_id)],
            decreases list@.len() - i,
        {
            let u = list[i];
            proof {
                assert(list_of(self@.conversation_index, conversation_id)[i as int] == u);
                assert(list_of(self@.conversation_index, conversation_id).contains(u));
                assert(self@.rows.dom().contains((u, conversation_id)));
            }
            let p = self.rows.get((u, conversation_id)).unwrap();
            out.push(*p);
            i = i + 1;
        }
        out
    }

    /// Lists the membership rows of one user, in the order their index entry
    /// records the conversations.
    pub fn read_participant_conversations(&self, user_id: u64) -> (r: Vec<Participant>)
        requires
            self.wf(),
        ensures
            r@.len() == list_of(self@.user_index, user_id).len(),
            forall|i: int|
                0 <= i < r@.len() ==> r@[i] == self@.rows[(
                    user_id,
                    list_of(self@.user_index, user_id)[i],
                )],
    {
        let list = match self.user_index.get(user_id) {
            Some(v) => v,
            None => {
                return Vec::new();
            },
        };
        let mut out: Vec<Participant> = Vec::new();
        let mut i: usize = 0;
        while i < list.len()
            invariant
                self.wf(),
                list@ == list_of(self@.user_index, user_id),
                i <= list@.len(),
                out@.len() == i,
                forall|j: int| 0 <= j < i ==> out@[j] == self@.rows[(user_id, list@[j])],
            decreases list@.len() - i,
        {
            let c = list[i];
            proof {
                assert(list_of(self@.user_index, user_id)[i as int] == c);
                assert(list_of(self@.user_index, user_id).contains(c));
                assert(self@.rows.dom().contains((user_id, c)));
            }
            let p = self.rows.get((user_id, c)).unwrap();
            out.push(*p);
            i = i + 1;
        }
        out
    }

    /// Deletes every membership of one conversation and drops the
    /// conversation's index entry entirely, pruning the conversation out of
    /// every affected user's index entry: no dangling index entry survives.
    pub fn delete_conversation_participants(&mut self, conversation_id: u64)
        requires
            old(self).wf(),
        ensures
            final(self).wf(),
            final(self)@.rows == rows_without_conversation(old(self)@.rows, conversation_id),
            final(self)@.conversation_index == old(self)@.conversation_index.remove(
                conversation_id,
            ),
            final(self)@.user_index.dom() == old(self)@.user_index.dom(),
            forall|u: u64| #[trigger]
                old(self)@.user_index.dom().contains(u) ==> final(self)@.user_index[u]
                    == remove_id(old(self)@.user_index[u], conversation_id),
    {
        let ghost o = old(self)@;
        let ghost users0 = list_of(o.conversation_index, conversation_id);
        let list = match self.conversation_index.get(conversation_id) {
            Some(v) => copy_ids(v),
            None => Vec::new(),
        };
        proof {
            assert(list@ == users0);
        }
        let mut i: usize = 0;
        let n = list.len();
        while i < n
            invariant
                n == users0.len(),
                list@ == users0,
                i <= n,
                self.wf(),
                participants_inv(o),
                dup_free(users0),
                list_of(o.conversation_index, conversation_id) == users0,
                self@.rows == Map::new(
                    |k: (u64, u64)|
                        o.rows.dom().contains(k) && !(k.1 == conversation_id
                            && users0.take(i as int).contains(k.0)),
                    |k: (u64, u64)| o.rows[k],
                ),
                self@.user_index.dom() == o.user_index.dom(),
                forall|u: u64| #[trigger]
                    o.user_index.dom().contains(u) ==> self@.user_index[u] == (if users0.take(
                        i as int,
                    ).contains(u) {
                        remove_id(o.user_index[u], conversation_id)
                    } else {
                        o.user_index[u]
                    }),
                self@.conversation_index.dom() == o.conversation_index.dom(),
                forall|c2: u64|
                    c2 != conversation_id && #[trigger] o.conversation_index.dom().contains(c2)
                        ==> self@.conversation_index[c2] == o.conversation_index[c2],
                o.conversation_index.dom().contains(conversation_id)
                    ==> self@.conversation_index[conversation_id] == users0.skip(i as int),
            decreases n - i,
        {
            let u = list[i];
            let ghost before = self@;
            proof {
                assert(users0[i as int] == u);
                assert(users0.contains(u));
                assert(o.rows.dom().contains((u, conversation_id)));
                assert forall|j: int| 0 <= j < i implies users0[j] != u by {}
                assert(!users0.take(i as int).contains(u));
                assert(before.rows.dom().contains((u, conversation_id)));
            }
            self.delete_participant(u, conversation_id);
            proof {
                let after = self@;
                let ghost iq = i as int;
                assert(after == spec_remove_participant(before, u, conversation_id));
                lemma_take_step(users0, iq);
                assert forall|y: u64|
                    users0.take(iq + 1).contains(y) == (users0.take(iq).contains(y) || y
                        == u) by {
                    lemma_push_contains(users0.take(iq), u, y);
                }
                assert(after.rows =~= Map::new(
                    |k: (u64, u64)|
                        o.rows.dom().contains(k) && !(k.1 == conversation_id && users0.take(
                            iq + 1,
                        ).contains(k.0)),
                    |k: (u64, u64)| o.rows[k],
                ));
                assert(after.user_index.dom() =~= o.user_index.dom());
                assert(list_of(before.user_index, u) == o.user_index[u]);
                assert forall|u2: u64| #[trigger]
                    o.user_index.dom().contains(u2) implies after.user_index[u2] == (if users0.take(
                    iq + 1,
                ).contains(u2) {
                    remove_id(o.user_index[u2], conversation_id)
                } else {
                    o.user_index[u2]
                }) by {}
                assert(after.conversation_index.dom() =~= o.conversation_index.dom());
                assert(list_of(before.conversation_index, conversation_id) == users0.skip(iq));
                lemma_remove_head(users0, iq);
            }
            i = i + 1;
        }
        proof {
            assert(users0.take(n as int) =~= users0);
        }
        self.conversation_index.remove(conversation_id);
        proof {
            let n2 = self@;
            assert forall|k: (u64, u64)|
                o.rows.dom().contains(k) && k.1 == conversation_id implies users0.contains(
                k.0,
            ) by {
                assert(list_of(o.conversation_index, conversation_id).contains(k.0));
            }
            assert(n2.rows =~= rows_without_conversation(o.rows, conversation_id));
            assert(n2.conversation_index =~= o.conversation_index.remove(conversation_id));
            assert(n2.user_index.dom() =~= o.user_index.dom());
            assert forall|u: u64| #[trigger] o.user_index.dom().contains(u) implies n2.user_index[u]
                == remove_id(o.user_index[u], conversation_id) by {
                if !users0.contains(u) {
                    assert(!list_of(o.user_index, u).contains(conversation_id));
                    assert(!o.user_index[u].contains(conversation_id));
                }
            }
            assert forall|u2: u64, c2: u64|
                n2.rows.dom().contains((u2, c2)) <==> list_of(n2.user_index, u2).contains(c2) by {
                if o.user_index.dom().contains(u2) {
                    lemma_remove_id_membership(o.user_index[u2], conversation_id);
                }
            }
            assert forall|u2: u64, c2: u64|
                n2.rows.dom().contains((u2, c2)) <==> list_of(n2.conversation_index, c2).contains(
                    u2,
                ) by {}
            assert forall|u2: u64| #[trigger] n2.user_index.dom().contains(u2) implies dup_free(
                n2.user_index[u2],
            ) by {
                lemma_remove_id_membership(o.user_index[u2], conversation_id);
            }
        }
    }
}

/// Taking one more element appends the element in place.
proof fn lemma_take_step(s: Seq<u64>, i: int)
    requires
        0 <= i < s.len(),
    ensures
        s.take(i + 1) == s.take(i).push(s[i]),
{
    assert(s.take(i + 1) =~= s.take(i).push(s[i]));
}

/// In a duplicate-free list, removing the element at the head of the suffix
/// advances the suffix by one.
proof fn lemma_remove_head(s: Seq<u64>, i: int)
    requires
        dup_free(s),
        0 <= i < s.len(),
    ensures
        remove_id(s.skip(i), s[i]) == s.skip(i + 1),
{
    let suf = s.skip(i);
    assert(suf[0] == s[i]);
    assert(suf.contains(s[i]));
    let w = choose|w: int| 0 <= w < suf.len() && suf[w] == s[i];
    assert(s[w + i] == s[i]);
    assert(w == 0) by {
        if w != 0 {
            assert(s[i] != s[w + i]);
        }
    }
    assert(suf.remove(0) =~= s.skip(i + 1));
}

/// One step of adding memberships over a growing prefix of the request.
proof fn lemma_add_participants_step(
    m: ParticipantsModel,
    users: Seq<u64>,
    c: u64,
    sender: u64,
    now: TimeMs,
    i: int,
)
    requires
        0 <= i < users.len(),
    ensures
        spec_add_participants(m, users.take(i + 1), c, sender, now) == spec_add_participant(
            spec_add_participants(m, users.take(i), c, sender, now),
            spec_new_participant(users[i], c, sender, now),
        ),
        spec_created_rows(m, users.take(i + 1), c, sender, now) == spec_created_rows(
            m,
            users.take(i),
            c,
            sender,
            now,
        ).push(spec_add_participants(m, users.take(i + 1), c, sender, now).rows[(users[i], c)]),
{
    assert(users.take(i + 1).drop_last() =~= users.take(i));
    assert(users.take(i + 1).last() == users[i]);
}

/// Adding a membership preserves the store's consistency.
proof fn lemma_add_participant_inv(m: ParticipantsModel, p: Participant)
    requires
        participants_inv(m),
    ensures
        participants_inv(spec_add_participant(m, p)),
{
    let k = (p.user_id, p.conversation_id);
    if m.rows.dom().contains(k) {
    } else {
        let n = spec_add_participant(m, p);
        let ul = list_of(m.user_index, p.user_id);
        let cl = list_of(m.conversation_index, p.conversation_id);
        assert(!ul.contains(p.conversation_id));
        assert(!cl.contains(p.user_id));
        lemma_push_dup_free(ul, p.conversation_id);
        lemma_push_dup_free(cl, p.user_id);
        assert forall|u2: u64, c2: u64|
            n.rows.dom().contains((u2, c2)) <==> list_of(n.user_index, u2).contains(c2) by {
            lemma_push_contains(ul, p.conversation_id, c2);
            if u2 != p.user_id {
                assert(list_of(n.user_index, u2) == list_of(m.user_index, u2));
            }
        }
        assert forall|u2: u64, c2: u64|
            n.rows.dom().contains((u2, c2)) <==> list_of(n.conversation_index, c2).contains(
                u2,
            ) by {
            lemma_push_contains(cl, p.user_id, u2);
            if c2 != p.conversation_id {
                assert(list_of(n.conversation_index, c2) == list_of(m.conversation_index, c2));
            }
        }
    }
}

/// Removing a membership preserves the store's consistency.
proof fn lemma_remove_participant_inv(m: ParticipantsModel, u: u64, c: u64)
    requires
        participants_inv(m),
    ensures
        participants_inv(spec_remove_participant(m, u, c)),
{
    if m.rows.dom().contains((u, c)) {
        let n = spec_remove_participant(m, u, c);
        let ul = list_of(m.user_index, u);
        let cl = list_of(m.conversation_index, c);
        lemma_remove_id_membership(ul, c);
        lemma_remove_id_membership(cl, u);
        assert forall|u2: u64, c2: u64|
            n.rows.dom().contains((u2, c2)) <==> list_of(n.user_index, u2).contains(c2) by {
            if u2 != u {
                assert(list_of(n.user_index, u2) == list_of(m.user_index, u2));
            }
        }
        assert forall|u2: u64, c2: u64|
            n.rows.dom().contains((u2, c2)) <==> list_of(n.conversation_index, c2).contains(
                u2,
            ) by {
            if c2 != c {
                assert(list_of(n.conversation_index, c2) == list_of(m.conversation_index, c2));
            }
        }
    }
}

/// Cascade completeness: once a conversation is deleted the way
/// `delete_conversation_participants` leaves the store, no membership row
/// keyed by it survives, no user's index entry still lists it, and its own
/// index entry is gone — no dangling index entry.
pub proof fn lemma_cascade_completeness(
    before: ParticipantsModel,
    after: ParticipantsModel,
    c: u64,
)
    requires
        participants_inv(before),
        after.rows == rows_without_conversation(before.rows, c),
        after.conversation_index == before.conversation_index.remove(c),
        after.user_index.dom() == before.user_index.dom(),
        forall|u: u64| #[trigger]
            before.user_index.dom().contains(u) ==> after.user_index[u] == remove_id(
                before.user_index[u],
                c,
            ),
    ensures
        forall|u: u64| !(#[trigger] after.rows.dom().contains((u, c))),
        forall|u: u64| !(#[trigger] list_of(after.user_index, u)).contains(c),
        !after.conversation_index.dom().contains(c),
{
    assert forall|u: u64| !(#[trigger] list_of(after.user_index, u)).contains(c) by {
        if after.user_index.dom().contains(u) {
            lemma_remove_id_membership(before.user_index[u], c);
        }
    }
}

/// Index symmetry: a user stands in a conversation's index entry exactly
/// when the conversation stands in the user's index entry, at every
/// quiescent point of a consistent store.
pub proof fn lemma_index_symmetry(m: ParticipantsModel, u: u64, c: u64)
    requires
        participants_inv(m),
    ensures
        list_of(m.user_index, u).contains(c) <==> list_of(m.conversation_index, c).contains(u),
{
}

/// First join wins: updating a row with `joined_at = t1` and then with any
/// `joined_at = t2` leaves `joined_at = t1`, whatever else the requests
/// carry.
pub proof fn lemma_join_once(p: Participant, r1: UpdateParticipantRequest, r2: UpdateParticipantRequest, t1: TimeMs)
    requires
        p.joined_at is None,
        r1.joined_at == Some(t1),
    ensures
        spec_apply_participant_update(
            spec_apply_participant_update(p, r1),
            r2,
        ).joined_at == Some(t1),
{
}

} // verus!
