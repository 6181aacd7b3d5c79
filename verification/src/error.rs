//! Errors reported by the RakNet layer.
use vstd::prelude::*;

verus! {

/// Every failure the protocol layer reports.
#[derive(Debug, Clone, Copy, PartialEq, Eq, Structural)]
pub enum RaknetError {
    SetRaknetRawSocketError,
    NotListen,
    BindAddressError,
    ConnectionClosed,
    NotSupportVersion,
    IncorrectReply,
    PacketParseError,
    SocketError,
    IncorrectReliability,
    IncorrectPacketID,
    ReadPacketBufferError,
    PacketSizeExceedMTU,
    PacketHeaderError,
    SetMotdError,
}

} // verus!
