use signaling::messages::SignalMessage;
use signaling::negotiation::{
    NegotiationAction, NegotiationEvent, NegotiationSession, Role, TransportState, WebRtcClient,
};

#[test]
fn initiator_start_joins_creates_channel_then_offer() {
    let (session, actions) = NegotiationSession::start(Role::Initiator, "dev-a".to_string());
    assert_eq!(
        actions,
        vec![
            NegotiationAction::SendSignal(SignalMessage::Join {
                device_id: "dev-a".to_string()
            }),
            NegotiationAction::CreateDataChannel,
            NegotiationAction::CreateOffer,
        ]
    );
    assert_eq!(session.role, Role::Initiator);
    assert!(!session.failed);
    assert!(!session.channel_open);
}

#[test]
fn responder_start_only_joins() {
    let (session, actions) = NegotiationSession::start(Role::Responder, "dev-b".to_string());
    assert_eq!(
        actions,
        vec![NegotiationAction::SendSignal(SignalMessage::Join {
            device_id: "dev-b".to_string()
        })]
    );
    assert_eq!(session.role, Role::Responder);
}

#[test]
fn initiator_sends_its_created_offer_to_the_peer() {
    let (mut s, _) = NegotiationSession::start(Role::Initiator, "a".to_string());
    let actions = s.step(NegotiationEvent::OfferCreated("offer-sdp".to_string()));
    assert_eq!(
        actions,
        vec![
            NegotiationAction::SetLocalDescription("offer-sdp".to_string()),
            NegotiationAction::SendSignal(SignalMessage::Offer {
                payload: "offer-sdp".to_string(),
                target: "peer".to_string()
            }),
        ]
    );
    assert!(s.local_description_set);
    // A second OfferCreated is ignored: the local description is set once.
    let again = s.step(NegotiationEvent::OfferCreated("other".to_string()));
    assert!(again.is_empty());
}

#[test]
fn responder_answers_a_received_offer() {
    let (mut s, _) = NegotiationSession::start(Role::Responder, "b".to_string());
    let actions = s.step(NegotiationEvent::Signal(SignalMessage::Offer {
        payload: "offer-sdp".to_string(),
        target: "peer".to_string(),
    }));
    assert_eq!(
        actions,
        vec![
            NegotiationAction::SetRemoteDescription("offer-sdp".to_string()),
            NegotiationAction::CreateAnswer,
        ]
    );
    let actions = s.step(NegotiationEvent::AnswerCreated("answer-sdp".to_string()));
    assert_eq!(
        actions,
        vec![
            NegotiationAction::SetLocalDescription("answer-sdp".to_string()),
            NegotiationAction::SendSignal(SignalMessage::Answer {
                payload: "answer-sdp".to_string(),
                target: "peer".to_string()
            }),
        ]
    );
}

#[test]
fn initiator_installs_the_received_answer() {
    let (mut s, _) = NegotiationSession::start(Role::Initiator, "a".to_string());
    s.step(NegotiationEvent::OfferCreated("offer-sdp".to_string()));
    let actions = s.step(NegotiationEvent::Signal(SignalMessage::Answer {
        payload: "answer-sdp".to_string(),
        target: "peer".to_string(),
    }));
    assert_eq!(
        actions,
        vec![NegotiationAction::SetRemoteDescription(
            "answer-sdp".to_string()
        )]
    );
    assert!(s.remote_description_set);
}

#[test]
fn local_candidates_trickle_to_the_peer_immediately() {
    let (mut s, _) = NegotiationSession::start(Role::Initiator, "a".to_string());
    let actions = s.step(NegotiationEvent::LocalCandidate("cand-1".to_string()));
    assert_eq!(
        actions,
        vec![NegotiationAction::SendSignal(SignalMessage::IceCandidate {
            payload: "cand-1".to_string(),
            target: "peer".to_string()
        })]
    );
}

#[test]
fn remote_candidates_are_added_to_the_session() {
    let (mut s, _) = NegotiationSession::start(Role::Responder, "b".to_string());
    let actions = s.step(NegotiationEvent::Signal(SignalMessage::IceCandidate {
        payload: "cand-2".to_string(),
        target: "peer".to_string(),
    }));
    assert_eq!(
        actions,
        vec![NegotiationAction::AddRemoteCandidate("cand-2".to_string())]
    );
}

#[test]
fn channel_open_is_recorded() {
    let (mut s, _) = NegotiationSession::start(Role::Initiator, "a".to_string());
    let actions = s.step(NegotiationEvent::ChannelOpened);
    assert!(actions.is_empty());
    assert!(s.channel_open);
}

#[test]
fn failure_is_terminal_and_absorbing() {
    let (mut s, _) = NegotiationSession::start(Role::Initiator, "a".to_string());
    let actions = s.step(NegotiationEvent::TransportFailed);
    assert!(actions.is_empty());
    assert!(s.failed);
    // Every further event is absorbed without any action.
    assert!(s
        .step(NegotiationEvent::OfferCreated("x".to_string()))
        .is_empty());
    assert!(s
        .step(NegotiationEvent::LocalCandidate("c".to_string()))
        .is_empty());
    assert!(s.failed);
}

#[test]
fn failed_and_closed_transport_states_abort() {
    let (mut s, _) = NegotiationSession::start(Role::Responder, "b".to_string());
    s.step(NegotiationEvent::TransportStateChanged(
        TransportState::Connecting,
    ));
    assert!(!s.failed);
    s.step(NegotiationEvent::TransportStateChanged(
        TransportState::Connected,
    ));
    assert!(!s.failed);
    s.step(NegotiationEvent::TransportStateChanged(
        TransportState::Failed,
    ));
    assert!(s.failed);
}

#[test]
fn web_rtc_client_fixes_the_role() {
    let initiator = WebRtcClient {
        room_id: "room".to_string(),
        is_initiator: true,
        signaling_url: "ws://relay.local:9489".to_string(),
    };
    assert_eq!(initiator.role(), Role::Initiator);
    let responder = WebRtcClient {
        room_id: "room".to_string(),
        is_initiator: false,
        signaling_url: "ws://relay.local:9489".to_string(),
    };
    assert_eq!(responder.role(), Role::Responder);
    let (session, _) = responder.start("dev-b".to_string());
    assert_eq!(session.role, Role::Responder);
}
