use signaling::codec::{decode_message, encode_message};
use signaling::messages::SignalMessage;
use signaling::negotiation::{
    NegotiationAction, NegotiationEvent, NegotiationSession, Role, WebRtcClient,
};
use signaling::pairing::{generate, hash};
use signaling::relay::{ConnState, Registry};

/// Sends one message over a connection the way the runtime would: encoded
/// to its wire frame, decoded by the relay, then handled.
fn send(
    reg: &mut Registry,
    state: ConnState,
    room: &str,
    message: SignalMessage,
) -> (ConnState, Option<SignalMessage>) {
    let wire = encode_message(&message);
    let decoded = decode_message(&wire).expect("the canonical frame must decode");
    assert_eq!(decoded, message);
    reg.handle_frame(state, room, decoded)
}

/// Performs a session's actions against the relay, returning the transport
/// requests it made.
fn perform(
    reg: &mut Registry,
    state: ConnState,
    room: &str,
    actions: Vec<NegotiationAction>,
) -> (ConnState, Vec<NegotiationAction>) {
    let mut st = state;
    let mut transport_work = Vec::new();
    for action in actions {
        match action {
            NegotiationAction::SendSignal(m) => {
                let (next, reply) = send(reg, st, room, m);
                assert_eq!(reply, None);
                st = next;
            }
            other => transport_work.push(other),
        }
    }
    (st, transport_work)
}

#[test]
fn two_devices_pair_negotiate_and_open_a_channel() {
    // Device A generates a pairing code and derives the room identifier;
    // device B receives the 4-word passphrase out of band and derives the
    // same identifier with no network round-trip.
    let code = generate().expect("entropy should be available");
    let room_a = hash(&code.uuid);
    let room_b = hash(&code.passphrase.join("-"));
    assert_eq!(room_a, room_b);
    let room = room_a.as_str();

    let mut reg = Registry::new();
    let client_a = WebRtcClient {
        room_id: room_a.clone(),
        is_initiator: true,
        signaling_url: "ws://relay.local:9489".to_string(),
    };
    let client_b = WebRtcClient {
        room_id: room_a.clone(),
        is_initiator: false,
        signaling_url: "ws://relay.local:9489".to_string(),
    };

    let (mut session_a, start_a) = client_a.start("device-a".to_string());
    let (mut session_b, start_b) = client_b.start("device-b".to_string());
    assert_eq!(session_a.role, Role::Initiator);
    assert_eq!(session_b.role, Role::Responder);

    // Both join; the initiator is also asked to create its data channel
    // before the offer.
    let (st_a, work_a) = perform(&mut reg, ConnState::Unjoined, room, start_a);
    let (st_b, work_b) = perform(&mut reg, ConnState::Unjoined, room, start_b);
    assert_eq!(
        work_a,
        vec![
            NegotiationAction::CreateDataChannel,
            NegotiationAction::CreateOffer
        ]
    );
    assert!(work_b.is_empty());
    assert_eq!(reg.participant_count(room), 2);

    // The transport hands A its offer; A installs and sends it to "peer".
    let offer_actions = session_a.step(NegotiationEvent::OfferCreated("offer-sdp-a".to_string()));
    let (st_a, transport_a) = perform(&mut reg, st_a, room, offer_actions);
    assert_eq!(
        transport_a,
        vec![NegotiationAction::SetLocalDescription(
            "offer-sdp-a".to_string()
        )]
    );

    // B receives the offer through the relay and answers.
    let received = reg
        .pop_message(room, "device-b")
        .expect("the offer must reach the responder");
    let answer_request = session_b.step(NegotiationEvent::Signal(received));
    assert_eq!(
        answer_request,
        vec![
            NegotiationAction::SetRemoteDescription("offer-sdp-a".to_string()),
            NegotiationAction::CreateAnswer,
        ]
    );
    let answer_actions =
        session_b.step(NegotiationEvent::AnswerCreated("answer-sdp-b".to_string()));
    let (st_b, _) = perform(&mut reg, st_b, room, answer_actions);

    // A installs the relayed answer.
    let received = reg
        .pop_message(room, "device-a")
        .expect("the answer must reach the initiator");
    let set_remote = session_a.step(NegotiationEvent::Signal(received));
    assert_eq!(
        set_remote,
        vec![NegotiationAction::SetRemoteDescription(
            "answer-sdp-b".to_string()
        )]
    );

    // Each side trickles one ICE candidate to the other.
    let cand_a = session_a.step(NegotiationEvent::LocalCandidate("cand-a".to_string()));
    let (st_a, _) = perform(&mut reg, st_a, room, cand_a);
    let got_b = reg.pop_message(room, "device-b").expect("candidate for b");
    assert_eq!(
        session_b.step(NegotiationEvent::Signal(got_b)),
        vec![NegotiationAction::AddRemoteCandidate("cand-a".to_string())]
    );
    let cand_b = session_b.step(NegotiationEvent::LocalCandidate("cand-b".to_string()));
    let (st_b, _) = perform(&mut reg, st_b, room, cand_b);
    let got_a = reg.pop_message(room, "device-a").expect("candidate for a");
    assert_eq!(
        session_a.step(NegotiationEvent::Signal(got_a)),
        vec![NegotiationAction::AddRemoteCandidate("cand-b".to_string())]
    );

    // A third device tries the same room and is turned away unregistered.
    let (st_c, reply_c) = send(
        &mut reg,
        ConnState::Unjoined,
        room,
        SignalMessage::Join {
            device_id: "device-c".to_string(),
        },
    );
    assert_eq!(st_c, ConnState::Closed);
    assert_eq!(
        reply_c,
        Some(SignalMessage::Error {
            message: "Room is full".to_string()
        })
    );
    assert_eq!(reg.participant_count(room), 2);

    // The initiator's data channel opens: negotiation is done and the relay
    // is no longer needed for this session.
    session_a.step(NegotiationEvent::ChannelOpened);
    assert!(session_a.channel_open);
    session_b.step(NegotiationEvent::ChannelOpened);
    assert!(session_b.channel_open);
    assert!(!session_a.failed && !session_b.failed);

    // B's socket closes; A is told exactly once, and when A leaves too the
    // room is gone.
    reg.handle_close(st_b, room);
    assert_eq!(
        reg.pop_message(room, "device-a"),
        Some(SignalMessage::PeerDisconnected {
            device_id: "device-b".to_string()
        })
    );
    assert_eq!(reg.pop_message(room, "device-a"), None);
    reg.handle_close(st_a, room);
    assert_eq!(reg.room_count(), 0);
}
