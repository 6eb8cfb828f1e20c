//! The wire message exchanged between a relay and a negotiation client, and
//! its mathematical view.

use vstd::prelude::*;

verus! {

/// The only wire payload between the relay and a negotiation client.
///
/// `Offer`, `Answer` and `IceCandidate` carry an opaque `payload` that the
/// relay never interprets; it only routes by `target` inside the sender's
/// room. `Join` registers a socket under `device_id`; `PeerDisconnected`
/// and `Error` flow from the relay to a client.
#[derive(Debug, PartialEq, Eq)]
pub enum SignalMessage {
    Join { device_id: String },
    Offer { payload: String, target: String },
    Answer { payload: String, target: String },
    IceCandidate { payload: String, target: String },
    PeerDisconnected { device_id: String },
    Error { message: String },
}

/// Mathematical view of a [`SignalMessage`]: the same tagged union over
/// character sequences.
pub enum SignalView {
    Join { device_id: Seq<char> },
    Offer { payload: Seq<char>, target: Seq<char> },
    Answer { payload: Seq<char>, target: Seq<char> },
    IceCandidate { payload: Seq<char>, target: Seq<char> },
    PeerDisconnected { device_id: Seq<char> },
    Error { message: Seq<char> },
}

impl View for SignalMessage {
    type V = SignalView;

    open spec fn view(&self) -> SignalView {
        match self {
            SignalMessage::Join { device_id } => SignalView::Join { device_id: device_id@ },
            SignalMessage::Offer { payload, target } => SignalView::Offer {
                payload: payload@,
                target: target@,
            },
            SignalMessage::Answer { payload, target } => SignalView::Answer {
                payload: payload@,
                target: target@,
            },
            SignalMessage::IceCandidate { payload, target } => SignalView::IceCandidate {
                payload: payload@,
                target: target@,
            },
            SignalMessage::PeerDisconnected { device_id } => SignalView::PeerDisconnected {
                device_id: device_id@,
            },
            SignalMessage::Error { message } => SignalView::Error { message: message@ },
        }
    }
}

impl DeepView for SignalMessage {
    type V = SignalView;

    open spec fn deep_view(&self) -> SignalView {
        self.view()
    }
}

impl Clone for SignalMessage {
    /// A clone carries exactly the same variant and fields.
    fn clone(&self) -> (r: Self)
        ensures
            r == *self,
    {
        match self {
            SignalMessage::Join { device_id } => SignalMessage::Join { device_id: device_id.clone() },
            SignalMessage::Offer { payload, target } => SignalMessage::Offer {
                payload: payload.clone(),
                target: target.clone(),
            },
            SignalMessage::Answer { payload, target } => SignalMessage::Answer {
                payload: payload.clone(),
                target: target.clone(),
            },
            SignalMessage::IceCandidate { payload, target } => SignalMessage::IceCandidate {
                payload: payload.clone(),
                target: target.clone(),
            },
            SignalMessage::PeerDisconnected { device_id } => SignalMessage::PeerDisconnected {
                device_id: device_id.clone(),
            },
            SignalMessage::Error { message } => SignalMessage::Error { message: message.clone() },
        }
    }
}

} // verus!
