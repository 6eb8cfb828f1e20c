//! The client-side negotiation state machine: it drives one peer from
//! "knows the room identifier" to "has an open data channel", one event at
//! a time. The machine only decides; the surrounding runtime performs each
//! returned action (sending through the relay, driving the transport) and
//! feeds the outcome back as the next event.

use vstd::prelude::*;
use crate::messages::{SignalMessage, SignalView};

verus! {

/// The two fixed roles of a 2-party negotiation. The initiator creates the
/// data channel and the initial offer; the responder answers.
#[derive(Debug, Clone, Copy, PartialEq, Eq, Structural)]
pub enum Role {
    Initiator,
    Responder,
}

/// The standard transport states reported by the underlying peer
/// connection; observed, never owned, by this subsystem.
#[derive(Debug, Clone, Copy, PartialEq, Eq, Structural)]
pub enum TransportState {
    New,
    Connecting,
    Connected,
    Disconnected,
    Failed,
    Closed,
}

/// One instruction from the state machine to its surroundings.
#[derive(Debug, Clone, PartialEq, Eq)]
pub enum NegotiationAction {
    /// Send this message through the relay connection.
    SendSignal(SignalMessage),
    /// Create the data channel, before any offer exists (initiator only).
    CreateDataChannel,
    /// Ask the transport for a local offer; it comes back as `OfferCreated`.
    CreateOffer,
    /// Ask the transport for a local answer; it comes back as
    /// `AnswerCreated`.
    CreateAnswer,
    /// Install this session description as the local description.
    SetLocalDescription(String),
    /// Install this session description as the remote description.
    SetRemoteDescription(String),
    /// Add this candidate to the session's remote candidate set.
    AddRemoteCandidate(String),
}

/// Mathematical view of a [`NegotiationAction`].
pub enum ActionView {
    SendSignal(SignalView),
    CreateDataChannel,
    CreateOffer,
    CreateAnswer,
    SetLocalDescription(Seq<char>),
    SetRemoteDescription(Seq<char>),
    AddRemoteCandidate(Seq<char>),
}

impl View for NegotiationAction {
    type V = ActionView;

    open spec fn view(&self) -> ActionView {
        match self {
            NegotiationAction::SendSignal(m) => ActionView::SendSignal(m@),
            NegotiationAction::CreateDataChannel => ActionView::CreateDataChannel,
            NegotiationAction::CreateOffer => ActionView::CreateOffer,
            NegotiationAction::CreateAnswer => ActionView::CreateAnswer,
            NegotiationAction::SetLocalDescription(d) => ActionView::SetLocalDescription(d@),
            NegotiationAction::SetRemoteDescription(d) => ActionView::SetRemoteDescription(d@),
            NegotiationAction::AddRemoteCandidate(c) => ActionView::AddRemoteCandidate(c@),
        }
    }
}

impl DeepView for NegotiationAction {
    type V = ActionView;

    open spec fn deep_view(&self) -> ActionView {
        self.view()
    }
}

/// One observation fed into the state machine.
#[derive(Debug, Clone, PartialEq, Eq)]
pub enum NegotiationEvent {
    /// A message arrived over the relay connection.
    Signal(SignalMessage),
    /// The transport discovered a local ICE candidate, already serialized;
    /// candidates trickle one by one, never batched.
    LocalCandidate(String),
    /// The transport produced the local offer that was asked for.
    OfferCreated(String),
    /// The transport produced the local answer that was asked for.
    AnswerCreated(String),
    /// The data channel reached its open state.
    ChannelOpened,
    /// The transport reported a new peer-connection state.
    TransportStateChanged(TransportState),
    /// The relay connection or the transport failed.
    TransportFailed,
}

/// Mathematical view of a [`NegotiationEvent`].
pub enum EventView {
    Signal(SignalView),
    LocalCandidate(Seq<char>),
    OfferCreated(Seq<char>),
    AnswerCreated(Seq<char>),
    ChannelOpened,
    TransportStateChanged(TransportState),
    TransportFailed,
}

impl View for NegotiationEvent {
    type V = EventView;

    open spec fn view(&self) -> EventView {
        match self {
            NegotiationEvent::Signal(m) => EventView::Signal(m@),
            NegotiationEvent::LocalCandidate(c) => EventView::LocalCandidate(c@),
            NegotiationEvent::OfferCreated(d) => EventView::OfferCreated(d@),
            NegotiationEvent::AnswerCreated(d) => EventView::AnswerCreated(d@),
            NegotiationEvent::ChannelOpened => EventView::ChannelOpened,
            NegotiationEvent::TransportStateChanged(s) => EventView::TransportStateChanged(*s),
            NegotiationEvent::TransportFailed => EventView::TransportFailed,
        }
    }
}

/// One negotiation session. The role and the locally generated device
/// identifier are fixed for the session's lifetime; the flags record how
/// far the handshake has come; `failed` is terminal and absorbing.
#[derive(Debug, Clone, PartialEq, Eq)]
pub struct NegotiationSession {
    pub role: Role,
    pub device_id: String,
    pub local_description_set: bool,
    pub remote_description_set: bool,
    pub channel_open: bool,
    pub failed: bool,
}

/// Mathematical view of a [`NegotiationSession`].
#[verifier::ext_equal]
pub struct SessionView {
    pub role: Role,
    pub device_id: Seq<char>,
    pub local_description_set: bool,
    pub remote_description_set: bool,
    pub channel_open: bool,
    pub failed: bool,
}

impl View for NegotiationSession {
    type V = SessionView;

    open spec fn view(&self) -> SessionView {
        SessionView {
            role: self.role,
            device_id: self.device_id@,
            local_description_set: self.local_description_set,
            remote_description_set: self.remote_description_set,
            channel_open: self.channel_open,
            failed: self.failed,
        }
    }
}

/// The fresh session for a role and device identifier.
pub open spec fn initial_session(role: Role, did: Seq<char>) -> SessionView {
    SessionView {
        role,
        device_id: did,
        local_description_set: false,
        remote_description_set: false,
        channel_open: false,
        failed: false,
    }
}

/// The actions a fresh session owes before any event arrives: register with
/// the relay; an initiator additionally creates the data channel — before
/// the offer, so channel negotiation is embedded in it — and asks for the
/// offer.
pub open spec fn start_actions(role: Role, did: Seq<char>) -> Seq<ActionView> {
    if role == Role::Initiator {
        seq![
            ActionView::SendSignal(SignalView::Join { device_id: did }),
            ActionView::CreateDataChannel,
            ActionView::CreateOffer,
        ]
    } else {
        seq![ActionView::SendSignal(SignalView::Join { device_id: did })]
    }
}

/// The transition relation of the negotiation machine: from a session and
/// one event to the next session and the owed actions. A failed session
/// absorbs every event and owes nothing. Every message sent to the peer is
/// addressed to the literal `"peer"` placeholder: in a two-party room the
/// concrete remote identifier is never exchanged.
pub open spec fn step_spec(s: SessionView, e: EventView) -> (SessionView, Seq<ActionView>) {
    if s.failed {
        (s, Seq::empty())
    } else {
        match e {
            EventView::OfferCreated(d) => {
                if s.role == Role::Initiator && !s.local_description_set {
                    (
                        SessionView { local_description_set: true, ..s },
                        seq![
                            ActionView::SetLocalDescription(d),
                            ActionView::SendSignal(
                                SignalView::Offer { payload: d, target: "peer"@ },
                            ),
                        ],
                    )
                } else {
                    (s, Seq::empty())
                }
            },
            EventView::AnswerCreated(d) => {
                if s.role == Role::Responder && s.remote_description_set
                    && !s.local_description_set {
                    (
                        SessionView { local_description_set: true, ..s },
                        seq![
                            ActionView::SetLocalDescription(d),
                            ActionView::SendSignal(
                                SignalView::Answer { payload: d, target: "peer"@ },
                            ),
                        ],
                    )
                } else {
                    (s, Seq::empty())
                }
            },
            EventView::Signal(SignalView::Offer { payload, target: _ }) => {
                if s.role == Role::Responder && !s.remote_description_set {
                    (
                        SessionView { remote_description_set: true, ..s },
                        seq![
                            ActionView::SetRemoteDescription(payload),
                            ActionView::CreateAnswer,
                        ],
                    )
                } else {
                    (s, Seq::empty())
                }
            },
            EventView::Signal(SignalView::Answer { payload, target: _ }) => {
                if s.role == Role::Initiator && s.local_description_set
                    && !s.remote_description_set {
                    (
                        SessionView { remote_description_set: true, ..s },
                        seq![ActionView::SetRemoteDescription(payload)],
                    )
                } else {
                    (s, Seq::empty())
                }
            },
            EventView::Signal(SignalView::IceCandidate { payload, target: _ }) => {
                (s, seq![ActionView::AddRemoteCandidate(payload)])
            },
            EventView::Signal(_) => (s, Seq::empty()),
            EventView::LocalCandidate(c) => {
                (
                    s,
                    seq![
                        ActionView::SendSignal(
                            SignalView::IceCandidate { payload: c, target: "peer"@ },
                        ),
                    ],
                )
            },
            EventView::ChannelOpened => (SessionView { channel_open: true, ..s }, Seq::empty()),
            EventView::TransportStateChanged(st) => {
                if st == TransportState::Failed || st == TransportState::Closed {
                    (SessionView { failed: true, ..s }, Seq::empty())
                } else {
                    (s, Seq::empty())
                }
            },
            EventView::TransportFailed => (SessionView { failed: true, ..s }, Seq::empty()),
        }
    }
}

impl NegotiationSession {
    /// Opens a session in the given role under a locally generated device
    /// identifier, and returns the actions owed before any event arrives.
    pub fn start(role: Role, device_id: String) -> (r: (NegotiationSession, Vec<NegotiationAction>))
        ensures
            r.0@ == initial_session(role, device_id@),
            r.1.deep_view() == start_actions(role, device_id@),
    {
        let join = NegotiationAction::SendSignal(
            SignalMessage::Join { device_id: device_id.clone() },
        );
        let mut actions: Vec<NegotiationAction> = Vec::new();
        actions.push(join);
        if matches!(role, Role::Initiator) {
            actions.push(NegotiationAction::CreateDataChannel);
            actions.push(NegotiationAction::CreateOffer);
        }
        let session = NegotiationSession {
            role,
            device_id,
            local_description_set: false,
            remote_description_set: false,
            channel_open: false,
            failed: false,
        };
        proof {
            assert(actions.deep_view() =~= start_actions(role, session.device_id@));
        }
        (session, actions)
    }

    /// Feeds one event to the machine; the result is exactly what
    /// [`step_spec`] owes for it, and the session advances accordingly.
    pub fn step(&mut self, event: NegotiationEvent) -> (actions: Vec<NegotiationAction>)
        ensures
            final(self)@ == step_spec(old(self)@, event@).0,
            actions.deep_view() == step_spec(old(self)@, event@).1,
    {
        let ghost pre = self@;
        let mut actions: Vec<NegotiationAction> = Vec::new();
        if self.failed {
            proof {
                assert(actions.deep_view() =~= step_spec(pre, event@).1);
            }
            return actions;
        }
        match event {
            NegotiationEvent::OfferCreated(d) => {
                if matches!(self.role, Role::Initiator) && !self.local_description_set {
                    self.local_description_set = true;
                    actions.push(NegotiationAction::SetLocalDescription(d.clone()));
                    actions.push(
                        NegotiationAction::SendSignal(
                            SignalMessage::Offer { payload: d, target: "peer".to_owned() },
                        ),
                    );
                }
            },
            NegotiationEvent::AnswerCreated(d) => {
                if matches!(self.role, Role::Responder) && self.remote_description_set
                    && !self.local_description_set {
                    self.local_description_set = true;
                    actions.push(NegotiationAction::SetLocalDescription(d.clone()));
                    actions.push(
                        NegotiationAction::SendSignal(
                            SignalMessage::Answer { payload: d, target: "peer".to_owned() },
                        ),
                    );
                }
            },
            NegotiationEvent::Signal(SignalMessage::Offer { payload, target: _ }) => {
                if matches!(self.role, Role::Responder) && !self.remote_description_set {
                    self.remote_description_set = true;
                    actions.push(NegotiationAction::SetRemoteDescription(payload));
                    actions.push(NegotiationAction::CreateAnswer);
                }
            },
            NegotiationEvent::Signal(SignalMessage::Answer { payload, target: _ }) => {
                if matches!(self.role, Role::Initiator) && self.local_description_set
                    && !self.remote_description_set {
                    self.remote_description_set = true;
                    actions.push(NegotiationAction::SetRemoteDescription(payload));
                }
            },
            NegotiationEvent::Signal(SignalMessage::IceCandidate { payload, target: _ }) => {
                actions.push(NegotiationAction::AddRemoteCandidate(payload));
            },
            NegotiationEvent::Signal(_) => {},
            NegotiationEvent::LocalCandidate(c) => {
                actions.push(
                    NegotiationAction::SendSignal(
                        SignalMessage::IceCandidate { payload: c, target: "peer".to_owned() },
                    ),
                );
            },
            NegotiationEvent::ChannelOpened => {
                self.channel_open = true;
            },
            NegotiationEvent::TransportStateChanged(st) => {
                if matches!(st, TransportState::Failed) || matches!(st, TransportState::Closed) {
                    self.failed = true;
                }
            },
            NegotiationEvent::TransportFailed => {
                self.failed = true;
            },
        }
        proof {
            assert(self@ =~~= step_spec(pre, event@).0);
            assert(actions.deep_view() =~= step_spec(pre, event@).1);
        }
        actions
    }
}

/// A client-side handle for one negotiation: the room derived from the
/// pairing secret, the fixed role, and the relay endpoint to dial.
#[derive(Debug, Clone, PartialEq, Eq)]
pub struct WebRtcClient {
    pub room_id: String,
    pub is_initiator: bool,
    pub signaling_url: String,
}

impl WebRtcClient {
    /// The fixed role this client plays for its session's lifetime.
    pub fn role(&self) -> (r: Role)
        ensures
            r == (if self.is_initiator {
                Role::Initiator
            } else {
                Role::Responder
            }),
    {
        if self.is_initiator {
            Role::Initiator
        } else {
            Role::Responder
        }
    }

    /// Starts this client's negotiation session under a locally generated
    /// device identifier.
    pub fn start(&self, device_id: String) -> (r: (
        NegotiationSession,
        Vec<NegotiationAction>,
    ))
        ensures
            r.0@ == initial_session(
                if self.is_initiator {
                    Role::Initiator
                } else {
                    Role::Responder
                },
                device_id@,
            ),
            r.1.deep_view() == start_actions(
                if self.is_initiator {
                    Role::Initiator
                } else {
                    Role::Responder
                },
                device_id@,
            ),
    {
        let role = self.role();
        NegotiationSession::start(role, device_id)
    }
}

// ---------------------------------------------------------------------------
// Laws of the negotiation machine
// ---------------------------------------------------------------------------
/// Fixed-identity law: no event ever changes a session's role or device
/// identifier.
pub proof fn lemma_role_fixed(s: SessionView, e: EventView)
    ensures
        step_spec(s, e).0.role == s.role,
        step_spec(s, e).0.device_id == s.device_id,
{
}

/// Terminal-failure law: a failed session is absorbing — every further
/// event leaves it unchanged and produces no action, so a negotiation error
/// is surfaced at most once.
pub proof fn lemma_failed_is_terminal(s: SessionView, e: EventView)
    requires
        s.failed,
    ensures
        step_spec(s, e).0 == s,
        step_spec(s, e).1 == Seq::<ActionView>::empty(),
{
}

/// Literal-target law: every message the machine ever sends to its peer —
/// at start or in any step — is addressed to the literal `"peer"`
/// placeholder, never to a concrete remote identifier.
pub proof fn lemma_peer_literal_target(s: SessionView, e: EventView, role: Role, did: Seq<char>)
    ensures
        forall|k: int|
            0 <= k < step_spec(s, e).1.len() ==> peer_addressed(#[trigger] step_spec(s, e).1[k]),
        forall|k: int|
            0 <= k < start_actions(role, did).len() ==> peer_addressed(
                #[trigger] start_actions(role, did)[k],
            ),
{
}

/// Whether an action, if it sends an `Offer`, `Answer` or `IceCandidate`,
/// addresses it to the literal `"peer"` placeholder.
pub open spec fn peer_addressed(a: ActionView) -> bool {
    match a {
        ActionView::SendSignal(SignalView::Offer { payload: _, target }) => target == "peer"@,
        ActionView::SendSignal(SignalView::Answer { payload: _, target }) => target == "peer"@,
        ActionView::SendSignal(SignalView::IceCandidate { payload: _, target }) => target
            == "peer"@,
        _ => true,
    }
}

} // verus!
