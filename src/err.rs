use vstd::prelude::*;
use crate::addr::SockAddr;
use crate::id::WorkStationId;
use crate::token::Token;

verus! {

/// Errors of the token-ring protocol.
#[derive(Debug)]
pub enum TokenRingError {
    /// Bytes that are no encoding of what was expected, or a value with no encoding.
    InvalidPacketHeader,
    /// The operation needs a connected station.
    NotConnected,
    /// A join answer arrived for a station that is already connected.
    AlreadyConnected,
    /// Traffic other than a join request from an id that is not a member.
    StationNotRegistered(WorkStationId, SockAddr),
    /// A packet header's signature does not verify.
    InvalidSignature,
    /// A returned token was refused: wrong sender or address, late, or badly signed.
    InvalidToken(WorkStationId, Token),
    /// This monitor refused a join request, for the given reason.
    RejectedJoinAttempt(WorkStationId, String),
    /// The monitor denied this station's join request, for the given reason.
    FailedJoinAttempt(String),
    /// A packet came from another id than the monitor's (got, expected).
    InvalidWorkStationId(WorkStationId, WorkStationId),
    /// A packet came from another address than the monitor's.
    InvalidSocketAddress(SockAddr),
    /// A pass was asked for with no members.
    EmptyRing,
    /// Nothing to do yet; try again later.
    TokenPending,
    Unknown,
}

} // verus!
