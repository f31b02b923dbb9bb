use vstd::prelude::*;

verus! {

/// Where one connection stands in its life: from accept, through the paired
/// reader and writer loops, to teardown.
#[derive(Clone, Copy, Debug, PartialEq, Eq, Structural)]
pub enum SessionState {
    Connecting,
    Open,
    Closing,
    Closed,
}

/// What the transport hands a session.
#[derive(Clone, Copy, Debug, PartialEq, Eq, Structural)]
pub enum SessionEvent {
    /// The connection is upgraded and both loops may start.
    Opened,
    /// The reader parsed a valid create-message frame.
    FrameReceived,
    /// The reader saw a malformed frame.
    FrameRejected,
    /// The reader's side of the connection closed or failed.
    InboundClosed,
    /// The writer's side closed or a write failed.
    OutboundClosed,
    /// The cancelled sibling loop has stopped.
    PeerStopped,
}

/// What the surrounding transport code must do after a step.
#[derive(Clone, Copy, Debug, PartialEq, Eq, Structural)]
pub enum SessionAction {
    /// Schedule the reader and writer loops.
    StartLoops,
    /// Hand the frame to the fan-out coordinator.
    HandleFrame,
    /// Log if need be and carry on: a malformed frame never ends the session.
    Ignore,
    /// Cancel the sibling loop.
    CancelPeer,
    /// Remove this connection's mailbox from the registry.
    Deregister,
}

/// The session's transition function: one step per event, total over both.
pub open spec fn spec_session_step(s: SessionState, e: SessionEvent) -> (SessionState,
    SessionAction) {
    match (s, e) {
        (SessionState::Connecting, SessionEvent::Opened) => (
            SessionState::Open,
            SessionAction::StartLoops,
        ),
        (SessionState::Connecting, _) => (SessionState::Connecting, SessionAction::Ignore),
        (SessionState::Open, SessionEvent::FrameReceived) => (
            SessionState::Open,
            SessionAction::HandleFrame,
        ),
        (SessionState::Open, SessionEvent::FrameRejected) => (
            SessionState::Open,
            SessionAction::Ignore,
        ),
        (SessionState::Open, SessionEvent::InboundClosed) => (
            SessionState::Closing,
            SessionAction::CancelPeer,
        ),
        (SessionState::Open, SessionEvent::OutboundClosed) => (
            SessionState::Closing,
            SessionAction::CancelPeer,
        ),
        (SessionState::Open, _) => (SessionState::Open, SessionAction::Ignore),
        (SessionState::Closing, SessionEvent::PeerStopped) => (
            SessionState::Closed,
            SessionAction::Deregister,
        ),
        (SessionState::Closing, _) => (SessionState::Closing, SessionAction::Ignore),
        (SessionState::Closed, _) => (SessionState::Closed, SessionAction::Ignore),
    }
}

/// One connection's protocol state, driven by the transport's events.
pub struct Session {
    pub user_id: u64,
    pub conn_id: u64,
    pub state: SessionState,
}

impl Session {
    pub fn new(user_id: u64, conn_id: u64) -> (r: Session)
        ensures
            r.user_id == user_id,
            r.conn_id == conn_id,
            r.state == SessionState::Connecting,
    {
        Session { user_id, conn_id, state: SessionState::Connecting }
    }

    /// Takes one event and says what the transport must do next.
    pub fn step(&mut self, event: SessionEvent) -> (a: SessionAction)
        ensures
            final(self).user_id == old(self).user_id,
            final(self).conn_id == old(self).conn_id,
            (final(self).state, a) == spec_session_step(old(self).state, event),
    {
        let (next, action) = match (self.state, event) {
            (SessionState::Connecting, SessionEvent::Opened) => (
                SessionState::Open,
                SessionAction::StartLoops,
            ),
            (SessionState::Connecting, _) => (SessionState::Connecting, SessionAction::Ignore),
            (SessionState::Open, SessionEvent::FrameReceived) => (
                SessionState::Open,
                SessionAction::HandleFrame,
            ),
            (SessionState::Open, SessionEvent::FrameRejected) => (
                SessionState::Open,
                SessionAction::Ignore,
            ),
            (SessionState::Open, SessionEvent::InboundClosed) => (
                SessionState::Closing,
                SessionAction::CancelPeer,
            ),
            (SessionState::Open, SessionEvent::OutboundClosed) => (
                SessionState::Closing,
                SessionAction::CancelPeer,
            ),
            (SessionState::Open, _) => (SessionState::Open, SessionAction::Ignore),
            (SessionState::Closing, SessionEvent::PeerStopped) => (
                SessionState::Closed,
                SessionAction::Deregister,
            ),
            (SessionState::Closing, _) => (SessionState::Closing, SessionAction::Ignore),
            (SessionState::Closed, _) => (SessionState::Closed, SessionAction::Ignore),
        };
        self.state = next;
        action
    }
}

/// Teardown runs exactly once: a step asks for deregistration exactly when it
/// moves the session into the Closed state, and Closed is terminal, so no
/// run of events can deregister twice.
pub proof fn lemma_deregister_once(s: SessionState, e: SessionEvent)
    ensures
        (spec_session_step(s, e).1 == SessionAction::Deregister) <==> (s == SessionState::Closing
            && e == SessionEvent::PeerStopped),
        (spec_session_step(s, e).0 == SessionState::Closed) <==> (spec_session_step(s, e).1
            == SessionAction::Deregister || s == SessionState::Closed),
        s == SessionState::Closed ==> spec_session_step(s, e).0 == SessionState::Closed,
{
}

/// The state a session reaches after a run of events.
pub open spec fn spec_session_run(s: SessionState, events: Seq<SessionEvent>) -> SessionState
    decreases events.len(),
{
    if events.len() == 0 {
        s
    } else {
        spec_session_step(spec_session_run(s, events.drop_last()), events.last()).0
    }
}

/// How many steps of a run ask for deregistration.
pub open spec fn spec_deregister_count(s: SessionState, events: Seq<SessionEvent>) -> int
    decreases events.len(),
{
    if events.len() == 0 {
        0
    } else {
        spec_deregister_count(s, events.drop_last()) + if spec_session_step(
            spec_session_run(s, events.drop_last()),
            events.last(),
        ).1 == SessionAction::Deregister {
            1int
        } else {
            0int
        }
    }
}

/// Over any run of events, teardown is asked for at most once, and exactly
/// when the run has reached the Closed state.
pub proof fn lemma_run_deregisters_at_most_once(s: SessionState, events: Seq<SessionEvent>)
    requires
        s != SessionState::Closed,
    ensures
        0 <= spec_deregister_count(s, events) <= 1,
        (spec_deregister_count(s, events) == 1) <==> (spec_session_run(s, events)
            == SessionState::Closed),
    decreases events.len(),
{
    if events.len() > 0 {
        lemma_run_deregisters_at_most_once(s, events.drop_last());
    }
}

/// A malformed frame never moves an open session out of Open: protocol noise
/// is dropped, the connection lives on.
pub proof fn lemma_noise_is_harmless(s: SessionState)
    requires
        s == SessionState::Open,
    ensures
        spec_session_step(s, SessionEvent::FrameRejected).0 == s,
        spec_session_step(s, SessionEvent::FrameRejected).1 == SessionAction::Ignore,
{
}

} // verus!
