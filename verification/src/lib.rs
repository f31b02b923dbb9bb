//! The core of a real-time conversation service: an in-memory aggregate
//! store (users, conversations, participants with their two secondary
//! indices, messages), a registry of live per-connection mailboxes, the
//! fan-out coordinator that persists an inbound message and delivers it to
//! every participant's mailboxes, and the per-connection session state
//! machine.
//!
//! Every operation here is sequential and verified; the surrounding process
//! holds the store and the registry each behind one async lock and drives
//! the sessions, so consistency under concurrent callers reduces to the
//! invariants proved here holding at every quiescent point.

pub mod conversations;
pub mod fanout;
pub mod idlist;
pub mod idmap;
pub mod messages;
pub mod pairmap;
pub mod participants;
pub mod registry;
pub mod session;
pub mod store;
pub mod users;

use vstd::prelude::*;

verus! {

/// A millisecond timestamp. The store computes nothing from time: every
/// mutating operation records the clock reading its caller hands in.
pub type TimeMs = i64;

} // verus!
