//! Pairing and signaling core for a two-device peer-to-peer file transfer:
//! a pairing-code generator that two devices use to derive a shared room
//! identifier, the relay state machine that pairs at most two connections
//! per room and forwards opaque negotiation messages between them, and the
//! client-side negotiation state machine that drives an offer/answer/ICE
//! exchange to an open data channel.

pub mod codec;
pub mod devices;
pub mod hex;
pub mod messages;
pub mod negotiation;
pub mod pairing;
pub mod relay;
pub mod strutil;
pub mod thumbnails;
