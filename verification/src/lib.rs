//! A verified implementation of version 3 of the SOE (Sony Online Entertainment) network
//! protocol.
//!
//! The SOE protocol is a UDP transport layer used by various games. It provides sessions,
//! packet verification (CRC32), optional compression (zlib), reliable/ordered data
//! transmission, and optional encryption (RC4).
//!
//! The library is an I/O-agnostic core: the protocol logic is a pure state machine that
//! never touches the network or the clock directly. [`SoeSession`] (a single connection) and
//! [`SoeMultiplexer`] (many connections told apart by remote) consume incoming datagrams and
//! the current [`time::Instant`], and produce outgoing datagrams, application data and
//! events.
//!
//! Every function's contract is stated over a mathematical model of what it works on; what
//! holds of the protocol as a whole is stated in the proof functions whose names begin with
//! `law_`.

pub mod buffer;
pub mod channel;
pub mod constants;
pub mod crc32;
pub mod driver;
pub mod error;
pub mod io;
pub mod packet_utils;
pub mod packets;
pub mod protocol;
pub mod rc4;
pub mod session;
pub mod socket;
pub mod time;
pub mod varint;
pub mod wire;
pub mod zlib;

pub use error::Error;
pub use protocol::{DisconnectReason, OpCode};
pub use rc4::Rc4KeyState;
pub use session::{
    ApplicationParameters, Channel, SessionEvent, SessionMode, SessionParameters, SessionState,
    SoeSession,
};
pub use socket::{SocketConfig, SocketEvent, SoeMultiplexer};
