//! Protocol-level errors.
use vstd::prelude::*;

verus! {

/// Protocol-level errors. `HandshakeFailed` and `InvalidPacket` carry no text: their message
/// is the localized one that the application looks up when it displays them.
#[derive(Debug)]
pub enum ProtocolError {
    Message(String),
    InvalidLength(usize),
    PacketTooLarge,
    HandshakeFailed,
    InvalidPacket,
}

impl ProtocolError {
    /// The error for a failed connection-phase handshake.
    pub fn handshake_failed() -> (r: Self)
        ensures
            r is HandshakeFailed,
    {
        ProtocolError::HandshakeFailed
    }

    /// The error for a malformed packet.
    pub fn invalid_packet() -> (r: Self)
        ensures
            r is InvalidPacket,
    {
        ProtocolError::InvalidPacket
    }
}

} // verus!
