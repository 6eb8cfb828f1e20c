use signaling::codec::{decode_message, encode_message, DecodeError};
use signaling::messages::SignalMessage;

fn round_trip(m: SignalMessage) {
    let wire = encode_message(&m);
    assert_eq!(decode_message(&wire), Ok(m));
}

#[test]
fn encode_join_is_canonical_json() {
    let m = SignalMessage::Join {
        device_id: "abc".to_string(),
    };
    assert_eq!(
        encode_message(&m),
        br#"{"type":"join","device_id":"abc"}"#.to_vec()
    );
}

#[test]
fn encode_offer_is_canonical_json() {
    let m = SignalMessage::Offer {
        payload: "sdp".to_string(),
        target: "peer".to_string(),
    };
    assert_eq!(
        encode_message(&m),
        br#"{"type":"offer","payload":"sdp","target":"peer"}"#.to_vec()
    );
}

#[test]
fn encode_escapes_quotes_and_backslashes() {
    let m = SignalMessage::Error {
        message: "a\"b\\c".to_string(),
    };
    assert_eq!(
        encode_message(&m),
        br#"{"type":"error","message":"a\"b\\c"}"#.to_vec()
    );
}

#[test]
fn encode_escapes_control_bytes() {
    let m = SignalMessage::Error {
        message: "a\nb".to_string(),
    };
    assert_eq!(
        encode_message(&m),
        br#"{"type":"error","message":"a\u000ab"}"#.to_vec()
    );
}

#[test]
fn every_variant_round_trips() {
    round_trip(SignalMessage::Join {
        device_id: "device-1".to_string(),
    });
    round_trip(SignalMessage::Offer {
        payload: "{\"sdp\":\"v=0\\r\\n\"}".to_string(),
        target: "peer".to_string(),
    });
    round_trip(SignalMessage::Answer {
        payload: "answer sdp".to_string(),
        target: "peer".to_string(),
    });
    round_trip(SignalMessage::IceCandidate {
        payload: "candidate:1 1 udp 2113937151".to_string(),
        target: "peer".to_string(),
    });
    round_trip(SignalMessage::PeerDisconnected {
        device_id: "device-2".to_string(),
    });
    round_trip(SignalMessage::Error {
        message: "Room is full".to_string(),
    });
}

#[test]
fn tricky_strings_round_trip() {
    round_trip(SignalMessage::Join {
        device_id: String::new(),
    });
    round_trip(SignalMessage::Error {
        message: "quotes \" backslash \\ newline \n tab \t nul \u{0} héllo → 日本".to_string(),
    });
}

#[test]
fn decode_rejects_garbage() {
    assert_eq!(
        decode_message(&b"not a frame".to_vec()),
        Err(DecodeError::Malformed)
    );
    assert_eq!(decode_message(&Vec::new()), Err(DecodeError::Malformed));
}

#[test]
fn decode_rejects_unknown_tag() {
    let wire = br#"{"type":"nope","device_id":"x"}"#.to_vec();
    assert_eq!(decode_message(&wire), Err(DecodeError::Malformed));
}

#[test]
fn decode_rejects_truncated_frame() {
    let mut wire = encode_message(&SignalMessage::Join {
        device_id: "abc".to_string(),
    });
    wire.pop();
    assert_eq!(decode_message(&wire), Err(DecodeError::Malformed));
}

#[test]
fn decode_rejects_trailing_bytes() {
    let mut wire = encode_message(&SignalMessage::Join {
        device_id: "abc".to_string(),
    });
    wire.push(b' ');
    assert_eq!(decode_message(&wire), Err(DecodeError::Malformed));
}

#[test]
fn decode_rejects_noncanonical_escape() {
    // The escape names 'A', which the canonical encoder never escapes.
    let wire = br#"{"type":"join","device_id":"\u0041"}"#.to_vec();
    assert_eq!(decode_message(&wire), Err(DecodeError::Malformed));
}

#[test]
fn decode_rejects_raw_control_byte() {
    let mut wire = br#"{"type":"join","device_id":""#.to_vec();
    wire.push(0x0a);
    wire.extend_from_slice(br#""}"#);
    assert_eq!(decode_message(&wire), Err(DecodeError::Malformed));
}

#[test]
fn encoded_frames_are_plain_json() {
    let m = SignalMessage::Offer {
        payload: "line1\nline2 \"quoted\"".to_string(),
        target: "peer".to_string(),
    };
    let wire = encode_message(&m);
    let v: serde_json::Value = serde_json::from_slice(&wire).expect("frame should be JSON");
    assert_eq!(v.get("type").and_then(|x| x.as_str()), Some("offer"));
    assert_eq!(
        v.get("payload").and_then(|x| x.as_str()),
        Some("line1\nline2 \"quoted\"")
    );
    assert_eq!(v.get("target").and_then(|x| x.as_str()), Some("peer"));
}
