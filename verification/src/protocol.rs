//! Core protocol enumerations: OP codes and disconnect reasons.

use vstd::prelude::*;

verus! {

/// The packet OP codes used in the SOE protocol. All packets are prefixed with a
/// big-endian `u16` OP code.
#[derive(Debug, Clone, Copy, PartialEq, Eq, Hash, Structural)]
pub enum OpCode {
    /// Used to request the start of a session.
    SessionRequest,
    /// Used to confirm the start of a session, and set connection details.
    SessionResponse,
    /// Used to encapsulate two or more SOE protocol packets.
    MultiPacket,
    /// Used to indicate that a party is closing the session.
    Disconnect,
    /// Used to keep a session alive when no data has been received for some time.
    Heartbeat,
    /// Network status request.
    NetStatusRequest,
    /// Network status response.
    NetStatusResponse,
    /// Used to transfer small buffers of application data.
    ReliableData,
    /// Used to transfer large buffers of application data in multiple fragments.
    ReliableDataFragment,
    /// Used to acknowledge a single reliable data packet.
    Acknowledge,
    /// Used to acknowledge all reliable data packets up to a particular sequence.
    AcknowledgeAll,
    /// Indicates the receiver has no session associated with the sender's address.
    UnknownSender,
    /// Used to request that a session be remapped to another port.
    RemapConnection,
}

/// The number that stands for an OP code on the wire.
pub open spec fn op_code_value(op: OpCode) -> u16 {
    match op {
        OpCode::SessionRequest => 0x01,
        OpCode::SessionResponse => 0x02,
        OpCode::MultiPacket => 0x03,
        OpCode::Disconnect => 0x05,
        OpCode::Heartbeat => 0x06,
        OpCode::NetStatusRequest => 0x07,
        OpCode::NetStatusResponse => 0x08,
        OpCode::ReliableData => 0x09,
        OpCode::ReliableDataFragment => 0x0D,
        OpCode::Acknowledge => 0x11,
        OpCode::AcknowledgeAll => 0x15,
        OpCode::UnknownSender => 0x1D,
        OpCode::RemapConnection => 0x1E,
    }
}

/// Whether packets of this kind are used outside of an established session, and hence
/// are neither CRC-checked nor compressed.
pub open spec fn contextless(op: OpCode) -> bool {
    ||| op is SessionRequest
    ||| op is SessionResponse
    ||| op is NetStatusRequest
    ||| op is NetStatusResponse
    ||| op is UnknownSender
    ||| op is RemapConnection
}

/// The OP code that a number stands for, if there is one.
pub open spec fn op_code_of(value: u16) -> Option<OpCode> {
    match value {
        0x01 => Some(OpCode::SessionRequest),
        0x02 => Some(OpCode::SessionResponse),
        0x03 => Some(OpCode::MultiPacket),
        0x05 => Some(OpCode::Disconnect),
        0x06 => Some(OpCode::Heartbeat),
        0x07 => Some(OpCode::NetStatusRequest),
        0x08 => Some(OpCode::NetStatusResponse),
        0x09 => Some(OpCode::ReliableData),
        0x0D => Some(OpCode::ReliableDataFragment),
        0x11 => Some(OpCode::Acknowledge),
        0x15 => Some(OpCode::AcknowledgeAll),
        0x1D => Some(OpCode::UnknownSender),
        0x1E => Some(OpCode::RemapConnection),
        _ => None,
    }
}

/// An OP code's number stands for that OP code again, and a number that stands for an
/// OP code is that OP code's number: the two conversions undo each other.
pub proof fn law_op_code_round_trip(op: OpCode, value: u16)
    ensures
        op_code_of(op_code_value(op)) == Some(op),
        op_code_of(value) == Some(op) ==> op_code_value(op) == value,
{
}

impl OpCode {
    /// Attempts to convert a raw `u16` into an [`OpCode`].
    pub fn from_u16(value: u16) -> (op: Option<Self>)
        ensures
            op == op_code_of(value),
    {
        match value {
            0x01 => Some(OpCode::SessionRequest),
            0x02 => Some(OpCode::SessionResponse),
            0x03 => Some(OpCode::MultiPacket),
            0x05 => Some(OpCode::Disconnect),
            0x06 => Some(OpCode::Heartbeat),
            0x07 => Some(OpCode::NetStatusRequest),
            0x08 => Some(OpCode::NetStatusResponse),
            0x09 => Some(OpCode::ReliableData),
            0x0D => Some(OpCode::ReliableDataFragment),
            0x11 => Some(OpCode::Acknowledge),
            0x15 => Some(OpCode::AcknowledgeAll),
            0x1D => Some(OpCode::UnknownSender),
            0x1E => Some(OpCode::RemapConnection),
            _ => None,
        }
    }

    /// Returns the raw `u16` value of this OP code.
    pub fn as_u16(self) -> (value: u16)
        ensures
            value == op_code_value(self),
    {
        match self {
            OpCode::SessionRequest => 0x01,
            OpCode::SessionResponse => 0x02,
            OpCode::MultiPacket => 0x03,
            OpCode::Disconnect => 0x05,
            OpCode::Heartbeat => 0x06,
            OpCode::NetStatusRequest => 0x07,
            OpCode::NetStatusResponse => 0x08,
            OpCode::ReliableData => 0x09,
            OpCode::ReliableDataFragment => 0x0D,
            OpCode::Acknowledge => 0x11,
            OpCode::AcknowledgeAll => 0x15,
            OpCode::UnknownSender => 0x1D,
            OpCode::RemapConnection => 0x1E,
        }
    }

    /// Returns `true` if this packet type is used outside of an established session
    /// context (and hence is not CRC-checked or compressed).
    pub fn is_contextless(self) -> (yes: bool)
        ensures
            yes == contextless(self),
    {
        matches!(
            self,
            OpCode::SessionRequest
                | OpCode::SessionResponse
                | OpCode::NetStatusRequest
                | OpCode::NetStatusResponse
                | OpCode::UnknownSender
                | OpCode::RemapConnection
        )
    }
}

/// The possible session termination reasons.
#[derive(Debug, Clone, Copy, PartialEq, Eq, Hash, Structural)]
pub enum DisconnectReason {
    /// No reason can be given for the disconnect.
    NoReason,
    /// An ICMP error occurred, forcing the disconnect.
    IcmpError,
    /// The other party has let the session become inactive.
    Timeout,
    /// Internal: the other party has sent a disconnect.
    OtherSideTerminated,
    /// The session manager has been disposed of (e.g. shutting down).
    ManagerDeleted,
    /// Internal: a session request attempt has failed.
    ConnectFail,
    /// The application is terminating the session.
    Application,
    /// Internal: the other party is unreachable.
    UnreachableConnection,
    /// A data sequence was not acknowledged quickly enough.
    UnacknowledgedTimeout,
    /// A session request failed; a new attempt should be made after a short delay.
    NewConnectionAttempt,
    /// The application did not accept a session request.
    ConnectionRefused,
    /// The proper session negotiation flow has not been observed.
    ConnectError,
    /// A session request was probably looped back to the sender.
    ConnectingToSelf,
    /// Reliable data is being sent too fast to be processed.
    ReliableOverflow,
    /// The session manager has been orphaned by the application.
    ApplicationReleased,
    /// A corrupt packet was received.
    CorruptPacket,
    /// The requested SOE protocol version or application protocol is invalid.
    ProtocolMismatch,
}

/// The number that stands for a disconnect reason on the wire.
pub open spec fn disconnect_reason_value(reason: DisconnectReason) -> u16 {
    match reason {
        DisconnectReason::NoReason => 0,
        DisconnectReason::IcmpError => 1,
        DisconnectReason::Timeout => 2,
        DisconnectReason::OtherSideTerminated => 3,
        DisconnectReason::ManagerDeleted => 4,
        DisconnectReason::ConnectFail => 5,
        DisconnectReason::Application => 6,
        DisconnectReason::UnreachableConnection => 7,
        DisconnectReason::UnacknowledgedTimeout => 8,
        DisconnectReason::NewConnectionAttempt => 9,
        DisconnectReason::ConnectionRefused => 10,
        DisconnectReason::ConnectError => 11,
        DisconnectReason::ConnectingToSelf => 12,
        DisconnectReason::ReliableOverflow => 13,
        DisconnectReason::ApplicationReleased => 14,
        DisconnectReason::CorruptPacket => 15,
        DisconnectReason::ProtocolMismatch => 16,
    }
}

/// The disconnect reason that a number stands for; numbers that stand for none are read
/// as [`DisconnectReason::NoReason`].
pub open spec fn disconnect_reason_of(value: u16) -> DisconnectReason {
    match value {
        1 => DisconnectReason::IcmpError,
        2 => DisconnectReason::Timeout,
        3 => DisconnectReason::OtherSideTerminated,
        4 => DisconnectReason::ManagerDeleted,
        5 => DisconnectReason::ConnectFail,
        6 => DisconnectReason::Application,
        7 => DisconnectReason::UnreachableConnection,
        8 => DisconnectReason::UnacknowledgedTimeout,
        9 => DisconnectReason::NewConnectionAttempt,
        10 => DisconnectReason::ConnectionRefused,
        11 => DisconnectReason::ConnectError,
        12 => DisconnectReason::ConnectingToSelf,
        13 => DisconnectReason::ReliableOverflow,
        14 => DisconnectReason::ApplicationReleased,
        15 => DisconnectReason::CorruptPacket,
        16 => DisconnectReason::ProtocolMismatch,
        _ => DisconnectReason::NoReason,
    }
}

/// A disconnect reason's number stands for that reason again, and numbers that no
/// reason has are read as [`DisconnectReason::NoReason`].
pub proof fn law_disconnect_reason_round_trip(reason: DisconnectReason, value: u16)
    ensures
        disconnect_reason_of(disconnect_reason_value(reason)) == reason,
        value <= 16 ==> disconnect_reason_value(disconnect_reason_of(value)) == value,
        value > 16 ==> disconnect_reason_of(value) is NoReason,
{
}

impl DisconnectReason {
    /// Converts a raw `u16` into a [`DisconnectReason`], mapping unrecognized values to
    /// [`DisconnectReason::NoReason`].
    pub fn from_u16(value: u16) -> (reason: Self)
        ensures
            reason == disconnect_reason_of(value),
    {
        match value {
            1 => DisconnectReason::IcmpError,
            2 => DisconnectReason::Timeout,
            3 => DisconnectReason::OtherSideTerminated,
            4 => DisconnectReason::ManagerDeleted,
            5 => DisconnectReason::ConnectFail,
            6 => DisconnectReason::Application,
            7 => DisconnectReason::UnreachableConnection,
            8 => DisconnectReason::UnacknowledgedTimeout,
            9 => DisconnectReason::NewConnectionAttempt,
            10 => DisconnectReason::ConnectionRefused,
            11 => DisconnectReason::ConnectError,
            12 => DisconnectReason::ConnectingToSelf,
            13 => DisconnectReason::ReliableOverflow,
            14 => DisconnectReason::ApplicationReleased,
            15 => DisconnectReason::CorruptPacket,
            16 => DisconnectReason::ProtocolMismatch,
            _ => DisconnectReason::NoReason,
        }
    }

    /// Returns the raw `u16` value of this reason.
    pub fn as_u16(self) -> (value: u16)
        ensures
            value == disconnect_reason_value(self),
    {
        match self {
            DisconnectReason::NoReason => 0,
            DisconnectReason::IcmpError => 1,
            DisconnectReason::Timeout => 2,
            DisconnectReason::OtherSideTerminated => 3,
            DisconnectReason::ManagerDeleted => 4,
            DisconnectReason::ConnectFail => 5,
            DisconnectReason::Application => 6,
            DisconnectReason::UnreachableConnection => 7,
            DisconnectReason::UnacknowledgedTimeout => 8,
            DisconnectReason::NewConnectionAttempt => 9,
            DisconnectReason::ConnectionRefused => 10,
            DisconnectReason::ConnectError => 11,
            DisconnectReason::ConnectingToSelf => 12,
            DisconnectReason::ReliableOverflow => 13,
            DisconnectReason::ApplicationReleased => 14,
            DisconnectReason::CorruptPacket => 15,
            DisconnectReason::ProtocolMismatch => 16,
        }
    }
}

/// The disconnect reasons by their numbers.
pub proof fn law_disconnect_reason_numbers(n: int, value: u16)
    requires
        value == n,
    ensures
        ({
            let reasons = seq![
                DisconnectReason::NoReason,
                DisconnectReason::IcmpError,
                DisconnectReason::Timeout,
                DisconnectReason::OtherSideTerminated,
                DisconnectReason::ManagerDeleted,
                DisconnectReason::ConnectFail,
                DisconnectReason::Application,
                DisconnectReason::UnreachableConnection,
                DisconnectReason::UnacknowledgedTimeout,
                DisconnectReason::NewConnectionAttempt,
                DisconnectReason::ConnectionRefused,
                DisconnectReason::ConnectError,
                DisconnectReason::ConnectingToSelf,
                DisconnectReason::ReliableOverflow,
                DisconnectReason::ApplicationReleased,
                DisconnectReason::CorruptPacket,
                DisconnectReason::ProtocolMismatch,
            ];
            if n < reasons.len() {
                disconnect_reason_of(value) == reasons[n] && disconnect_reason_value(
                    reasons[n],
                ) == value
            } else {
                disconnect_reason_of(value) is NoReason
            }
        }),
{
}

/// The OP codes by their numbers. No other number stands for one.
pub proof fn law_op_code_numbers(value: u16)
    ensures
        op_code_of(value) == (if value == 0x01 {
            Some(OpCode::SessionRequest)
        } else if value == 0x02 {
            Some(OpCode::SessionResponse)
        } else if value == 0x03 {
            Some(OpCode::MultiPacket)
        } else if value == 0x05 {
            Some(OpCode::Disconnect)
        } else if value == 0x06 {
            Some(OpCode::Heartbeat)
        } else if value == 0x07 {
            Some(OpCode::NetStatusRequest)
        } else if value == 0x08 {
            Some(OpCode::NetStatusResponse)
        } else if value == 0x09 {
            Some(OpCode::ReliableData)
        } else if value == 0x0D {
            Some(OpCode::ReliableDataFragment)
        } else if value == 0x11 {
            Some(OpCode::Acknowledge)
        } else if value == 0x15 {
            Some(OpCode::AcknowledgeAll)
        } else if value == 0x1D {
            Some(OpCode::UnknownSender)
        } else if value == 0x1E {
            Some(OpCode::RemapConnection)
        } else {
            None
        }),
{
}

/// What is used outside of a session: requests for one and the answers, requests for network
/// statistics and the answers, and what there is to say about senders and connections.
pub proof fn law_contextless(op: OpCode)
    ensures
        ({
            let n = op_code_value(op);
            contextless(op) <==> n == 0x01 || n == 0x02 || n == 0x07 || n == 0x08 || n == 0x1D
                || n == 0x1E
        }),
{
}

} // verus!
