//! Constant values and defaults of the SOE protocol.

use vstd::prelude::*;

verus! {

/// The implemented version of the SOE protocol.
pub const SOE_PROTOCOL_VERSION: u32 = 3;

/// The default number of bytes used to store the CRC check value of a packet.
pub const CRC_LENGTH: u8 = 2;

/// The default maximum packet (UDP) length.
pub const DEFAULT_UDP_LENGTH: u32 = 512;

/// The default number of seconds after which to send a heartbeat, if no contextual
/// packets have been received within the interval.
pub const DEFAULT_SESSION_HEARTBEAT_AFTER_SECS: u64 = 25;

/// The default number of seconds after which to consider a session inactive, if no
/// contextual packets have been received within the interval.
pub const DEFAULT_SESSION_INACTIVITY_TIMEOUT_SECS: u64 = 30;

/// The byte sequence that indicates a reliable data packet is carrying bundled
/// ("multi") data.
pub const MULTI_DATA_INDICATOR: [u8; 2] = [0x00, 0x19];

/// The number of bytes an OP code occupies on the wire.
pub const OP_CODE_SIZE: usize = 2;

/// The number of independent reliable channels of a session.
pub const RELIABLE_CHANNEL_COUNT: usize = 4;

} // verus!
