use signaling::messages::SignalMessage;
use signaling::relay::{ConnState, JoinOutcome, Registry};

#[test]
fn a_room_never_exceeds_two_participants() {
    let mut reg = Registry::new();
    assert_eq!(reg.join("room", "a"), JoinOutcome::Joined);
    assert_eq!(reg.participant_count("room"), 1);
    assert_eq!(reg.join("room", "b"), JoinOutcome::Joined);
    assert_eq!(reg.participant_count("room"), 2);
    assert_eq!(reg.join("room", "c"), JoinOutcome::RoomFull);
    assert_eq!(reg.participant_count("room"), 2);
    assert_eq!(reg.join("room", "d"), JoinOutcome::RoomFull);
    assert_eq!(reg.participant_count("room"), 2);
}

#[test]
fn a_full_room_rejects_without_touching_membership() {
    let mut reg = Registry::new();
    reg.join("room", "a");
    reg.join("room", "b");
    assert_eq!(reg.join("room", "c"), JoinOutcome::RoomFull);
    // The original participants still receive messages.
    reg.relay(
        "room",
        "a",
        SignalMessage::Offer {
            payload: "sdp".to_string(),
            target: "a".to_string(),
        },
    );
    assert!(reg.pop_message("room", "a").is_some());
    // The rejected device was never added.
    assert_eq!(reg.pop_message("room", "c"), None);
}

#[test]
fn rooms_are_independent() {
    let mut reg = Registry::new();
    reg.join("one", "a");
    reg.join("one", "b");
    reg.join("two", "a");
    assert_eq!(reg.room_count(), 2);
    assert_eq!(reg.participant_count("one"), 2);
    assert_eq!(reg.participant_count("two"), 1);
}

#[test]
fn relay_delivers_to_the_target_in_send_order() {
    let mut reg = Registry::new();
    reg.join("room", "a");
    reg.join("room", "b");
    let first = SignalMessage::Offer {
        payload: "offer-sdp".to_string(),
        target: "b".to_string(),
    };
    let second = SignalMessage::IceCandidate {
        payload: "cand-1".to_string(),
        target: "b".to_string(),
    };
    reg.relay("room", "b", first.clone());
    reg.relay("room", "b", second.clone());
    assert_eq!(reg.pop_message("room", "b"), Some(first));
    assert_eq!(reg.pop_message("room", "b"), Some(second));
    assert_eq!(reg.pop_message("room", "b"), None);
    // Nothing went to the sender.
    assert_eq!(reg.pop_message("room", "a"), None);
}

#[test]
fn relay_to_an_absent_target_is_dropped_silently() {
    let mut reg = Registry::new();
    reg.join("room", "a");
    reg.relay(
        "room",
        "nobody",
        SignalMessage::Offer {
            payload: "sdp".to_string(),
            target: "nobody".to_string(),
        },
    );
    assert_eq!(reg.pop_message("room", "a"), None);
    assert_eq!(reg.participant_count("room"), 1);
}

#[test]
fn relay_in_an_absent_room_is_dropped_silently() {
    let mut reg = Registry::new();
    reg.join("room", "a");
    reg.relay(
        "other",
        "a",
        SignalMessage::Offer {
            payload: "sdp".to_string(),
            target: "a".to_string(),
        },
    );
    assert_eq!(reg.room_count(), 1);
    assert_eq!(reg.pop_message("room", "a"), None);
}

#[test]
fn disconnect_notifies_each_remaining_participant_exactly_once() {
    let mut reg = Registry::new();
    reg.join("room", "a");
    reg.join("room", "b");
    reg.disconnect("room", "a");
    assert_eq!(
        reg.pop_message("room", "b"),
        Some(SignalMessage::PeerDisconnected {
            device_id: "a".to_string()
        })
    );
    assert_eq!(reg.pop_message("room", "b"), None);
}

#[test]
fn last_leave_deletes_the_room_and_a_rejoin_starts_fresh() {
    let mut reg = Registry::new();
    reg.join("room", "a");
    reg.join("room", "b");
    reg.disconnect("room", "a");
    assert_eq!(reg.room_count(), 1);
    reg.disconnect("room", "b");
    assert_eq!(reg.room_count(), 0);
    // A later join for the same identifier creates a fresh, empty room.
    assert_eq!(reg.join("room", "c"), JoinOutcome::Joined);
    assert_eq!(reg.participant_count("room"), 1);
    assert_eq!(reg.pop_message("room", "c"), None);
}

#[test]
fn handle_frame_drives_the_connection_state_machine() {
    let mut reg = Registry::new();
    let (st_a, reply) = reg.handle_frame(
        ConnState::Unjoined,
        "r",
        SignalMessage::Join {
            device_id: "a".to_string(),
        },
    );
    assert_eq!(
        st_a,
        ConnState::Joined {
            device_id: "a".to_string()
        }
    );
    assert_eq!(reply, None);
    let (st_b, _) = reg.handle_frame(
        ConnState::Unjoined,
        "r",
        SignalMessage::Join {
            device_id: "b".to_string(),
        },
    );
    let offer = SignalMessage::Offer {
        payload: "sdp".to_string(),
        target: "b".to_string(),
    };
    let (st_a2, reply2) = reg.handle_frame(st_a, "r", offer.clone());
    assert_eq!(
        st_a2,
        ConnState::Joined {
            device_id: "a".to_string()
        }
    );
    assert_eq!(reply2, None);
    assert_eq!(reg.pop_message("r", "b"), Some(offer));
    // Ending both connections deletes the room.
    let closed = reg.handle_close(st_a2, "r");
    assert_eq!(closed, ConnState::Closed);
    reg.handle_close(st_b, "r");
    assert_eq!(reg.room_count(), 0);
}

#[test]
fn handle_frame_resolves_the_peer_placeholder() {
    let mut reg = Registry::new();
    let (st_a, _) = reg.handle_frame(
        ConnState::Unjoined,
        "r",
        SignalMessage::Join {
            device_id: "device-a".to_string(),
        },
    );
    reg.handle_frame(
        ConnState::Unjoined,
        "r",
        SignalMessage::Join {
            device_id: "device-b".to_string(),
        },
    );
    let offer = SignalMessage::Offer {
        payload: "sdp".to_string(),
        target: "peer".to_string(),
    };
    reg.handle_frame(st_a, "r", offer.clone());
    // The literal placeholder reached the other participant, verbatim.
    assert_eq!(reg.pop_message("r", "device-b"), Some(offer));
    assert_eq!(reg.pop_message("r", "device-a"), None);
}

#[test]
fn third_join_gets_the_room_is_full_error() {
    let mut reg = Registry::new();
    reg.handle_frame(
        ConnState::Unjoined,
        "r",
        SignalMessage::Join {
            device_id: "a".to_string(),
        },
    );
    reg.handle_frame(
        ConnState::Unjoined,
        "r",
        SignalMessage::Join {
            device_id: "b".to_string(),
        },
    );
    let (st_c, reply) = reg.handle_frame(
        ConnState::Unjoined,
        "r",
        SignalMessage::Join {
            device_id: "c".to_string(),
        },
    );
    assert_eq!(st_c, ConnState::Closed);
    assert_eq!(
        reply,
        Some(SignalMessage::Error {
            message: "Room is full".to_string()
        })
    );
    assert_eq!(reg.participant_count("r"), 2);
    assert_eq!(reg.pop_message("r", "c"), None);
}

#[test]
fn non_join_frames_are_ignored_while_unjoined() {
    let mut reg = Registry::new();
    reg.join("r", "a");
    let (st, reply) = reg.handle_frame(
        ConnState::Unjoined,
        "r",
        SignalMessage::Offer {
            payload: "sdp".to_string(),
            target: "a".to_string(),
        },
    );
    assert_eq!(st, ConnState::Unjoined);
    assert_eq!(reply, None);
    assert_eq!(reg.pop_message("r", "a"), None);
}
