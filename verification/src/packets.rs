//! Wire representations of the SOE protocol packets, with (de)serialization.
//!
//! Two categories of packet exist:
//!
//! * **Session-control packets** (e.g. [`SessionRequest`], [`SessionResponse`],
//!   [`RemapConnection`], [`UnknownSender`]) embed their own OP code. Their `serialize`
//!   writes the OP code, and `deserialize` takes a `has_op_code` flag.
//! * **Session-context packets** (e.g. [`Disconnect`], [`Acknowledge`],
//!   [`AcknowledgeAll`]) are written without an OP code or CRC; those are added by the
//!   contextual packet wrapper.

use vstd::prelude::*;
use vstd::utf8::{encode_utf8, encode_utf8_decode_utf8, encode_utf8_valid_utf8};

use crate::constants::{OP_CODE_SIZE, SOE_PROTOCOL_VERSION};
use crate::error::Error;
use crate::io::{bool_bytes, lemma_null_at, lemma_text_not_null, null_at, text, BinaryReader, BinaryWriter};
use crate::protocol::{
    disconnect_reason_of, disconnect_reason_value, op_code_value, DisconnectReason, OpCode,
};
use crate::wire::{
    be_at, be_bytes, concat, concat_from, fields_end, first_short, first_short_from,
    lemma_be_bytes_len, lemma_be_value_of_bytes, lemma_pow256_values, too_short,
    write_fields, write_fields_from,
};

verus! {

/// The number of bytes that an OP code takes up at the start of a packet, if it is there.
pub open spec fn op_code_width(has_op_code: bool) -> int {
    if has_op_code {
        OP_CODE_SIZE as int
    } else {
        0
    }
}

/// An OP code as it stands at the start of a packet.
pub open spec fn op_code_bytes(op: OpCode) -> Seq<u8> {
    be_bytes(op_code_value(op) as nat, 2)
}

/// A packet used to request the start of a session.
#[derive(Debug, PartialEq, Eq)]
pub struct SessionRequest {
    /// The version of the SOE protocol in use.
    pub soe_protocol_version: u32,
    /// A randomly generated session identifier.
    pub session_id: u32,
    /// The maximum length of a UDP packet that the sender can receive.
    pub udp_length: u32,
    /// The application protocol that the sender wishes to transport.
    pub application_protocol: String,
}

/// What a [`SessionRequest`] holds.
pub struct SessionRequestFields {
    /// The version of the SOE protocol in use.
    pub soe_protocol_version: u32,
    /// The session identifier.
    pub session_id: u32,
    /// The maximum length of a UDP packet that the sender can receive.
    pub udp_length: u32,
    /// The application protocol.
    pub application_protocol: Seq<char>,
}

impl View for SessionRequest {
    type V = SessionRequestFields;

    open spec fn view(&self) -> SessionRequestFields {
        SessionRequestFields {
            soe_protocol_version: self.soe_protocol_version,
            session_id: self.session_id,
            udp_length: self.udp_length,
            application_protocol: self.application_protocol@,
        }
    }
}

impl Clone for SessionRequest {
    fn clone(&self) -> (copy: Self)
        ensures
            copy@ == self@,
    {
        Self {
            soe_protocol_version: self.soe_protocol_version,
            session_id: self.session_id,
            udp_length: self.udp_length,
            application_protocol: self.application_protocol.clone(),
        }
    }
}

impl SessionRequestFields {
    /// The fields of the packet on the wire.
    pub open spec fn wire(self) -> Seq<Seq<u8>> {
        seq![
            op_code_bytes(OpCode::SessionRequest),
            be_bytes(self.soe_protocol_version as nat, 4),
            be_bytes(self.session_id as nat, 4),
            be_bytes(self.udp_length as nat, 4),
            encode_utf8(self.application_protocol),
            seq![0u8],
        ]
    }

    /// What a packet in `buffer` is read as.
    pub open spec fn parsed(buffer: Seq<u8>, has_op_code: bool) -> Result<Self, Error> {
        let at = op_code_width(has_op_code);
        match first_short(buffer.len() as int, 0, seq![at, 4, 4, 4]) {
            Some(e) => Err(e),
            None => match null_at(buffer, at + 12) {
                None => Err(too_short(1, 0)),
                Some(end) => Ok(
                    SessionRequestFields {
                        soe_protocol_version: be_at(buffer, at, 4) as u32,
                        session_id: be_at(buffer, at + 4, 4) as u32,
                        udp_length: be_at(buffer, at + 8, 4) as u32,
                        application_protocol: text(buffer.subrange(at + 12, end)),
                    },
                ),
            },
        }
    }
}

impl SessionRequest {
    /// The minimum serialized size (with an empty application protocol).
    pub const MIN_SIZE: usize = OP_CODE_SIZE + 4 + 4 + 4 + 1;

    /// Returns the serialized size of this packet.
    pub fn size(&self) -> (n: usize)
        requires
            encode_utf8(self@.application_protocol).len() + 15 <= usize::MAX,
        ensures
            n == concat(self@.wire()).len(),
            n == encode_utf8(self@.application_protocol).len() + 15,
    {
        proof {
            lemma_session_request_wire(self@);
        }
        OP_CODE_SIZE + 4 + 4 + 4 + self.application_protocol.as_str().len() + 1
    }

    /// Deserializes a packet from `buffer`.
    pub fn deserialize(buffer: &[u8], has_op_code: bool) -> (r: Result<Self, Error>)
        ensures
            match SessionRequestFields::parsed(buffer@, has_op_code) {
                Ok(fields) => r is Ok && r->Ok_0@ == fields,
                Err(e) => r == Err::<Self, Error>(e),
            },
    {
        proof {
            reveal_with_fuel(first_short_from, 5);
        }
        let mut r = BinaryReader::new(buffer);
        if has_op_code {
            r.read_u16()?;
        }
        let soe_protocol_version: u32 = r.read_u32()?;
        let session_id: u32 = r.read_u32()?;
        let udp_length: u32 = r.read_u32()?;
        let application_protocol = r.read_null_terminated_string()?;
        Ok(Self { soe_protocol_version, session_id, udp_length, application_protocol })
    }

    /// Serializes this packet (including its OP code) into `buffer`, returning the
    /// number of bytes written.
    pub fn serialize(&self, buffer: &mut [u8]) -> (r: Result<usize, Error>)
        ensures
            (final(buffer)@, r) == write_fields(old(buffer)@, 0, self@.wire()),
    {
        proof {
            reveal_with_fuel(write_fields_from, 7);
            reveal_with_fuel(fields_end, 3);
        }
        let mut w = BinaryWriter::new(buffer);
        w.write_u16(OpCode::SessionRequest.as_u16())?;
        w.write_u32(self.soe_protocol_version)?;
        w.write_u32(self.session_id)?;
        w.write_u32(self.udp_length)?;
        w.write_null_terminated_string(self.application_protocol.as_str())?;
        Ok(w.offset())
    }
}

pub(crate) proof fn lemma_session_request_wire(p: SessionRequestFields)
    ensures
        concat(p.wire()) == op_code_bytes(OpCode::SessionRequest) + be_bytes(
            p.soe_protocol_version as nat,
            4,
        ) + be_bytes(p.session_id as nat, 4) + be_bytes(p.udp_length as nat, 4) + encode_utf8(
            p.application_protocol,
        ) + seq![0u8],
        concat(p.wire()).len() == encode_utf8(p.application_protocol).len() + 15,
{
    reveal_with_fuel(concat_from, 7);
    lemma_be_bytes_len(op_code_value(OpCode::SessionRequest) as nat, 2);
    lemma_be_bytes_len(p.soe_protocol_version as nat, 4);
    lemma_be_bytes_len(p.session_id as nat, 4);
    lemma_be_bytes_len(p.udp_length as nat, 4);
    assert(concat(p.wire()) =~= op_code_bytes(OpCode::SessionRequest) + be_bytes(
        p.soe_protocol_version as nat,
        4,
    ) + be_bytes(p.session_id as nat, 4) + be_bytes(p.udp_length as nat, 4) + encode_utf8(
        p.application_protocol,
    ) + seq![0u8]);
}

/// A session request is read back from its bytes, whatever follows them, if the name of
/// the application protocol holds no null character.
pub proof fn law_session_request_round_trip(p: SessionRequestFields, rest: Seq<u8>)
    requires
        forall|i: int|
            0 <= i < p.application_protocol.len() ==> p.application_protocol[i] != '\0',
    ensures
        SessionRequestFields::parsed(concat(p.wire()) + rest, true) == Ok::<_, Error>(p),
        SessionRequestFields::parsed(concat(p.wire()).skip(2) + rest, false) == Ok::<_, Error>(p),
{
    let bytes = concat(p.wire());
    let name = encode_utf8(p.application_protocol);
    let end = 14 + name.len();
    lemma_session_request_wire(p);
    lemma_pow256_values();
    lemma_be_bytes_len(op_code_value(OpCode::SessionRequest) as nat, 2);
    lemma_be_bytes_len(p.soe_protocol_version as nat, 4);
    lemma_be_bytes_len(p.session_id as nat, 4);
    lemma_be_bytes_len(p.udp_length as nat, 4);
    lemma_be_value_of_bytes(p.soe_protocol_version as nat, 4);
    lemma_be_value_of_bytes(p.session_id as nat, 4);
    lemma_be_value_of_bytes(p.udp_length as nat, 4);
    lemma_text_not_null(p.application_protocol);
    encode_utf8_valid_utf8(p.application_protocol);
    encode_utf8_decode_utf8(p.application_protocol);
    reveal_with_fuel(first_short_from, 5);
    let all = bytes + rest;
    assert(all.subrange(2, 6) =~= be_bytes(p.soe_protocol_version as nat, 4));
    assert(all.subrange(6, 10) =~= be_bytes(p.session_id as nat, 4));
    assert(all.subrange(10, 14) =~= be_bytes(p.udp_length as nat, 4));
    assert(all.subrange(14, end as int) =~= name);
    assert forall|i: int| 14 <= i < end implies all[i] != 0 by {
        assert(all[i] == name[i - 14]);
    }
    lemma_null_at(all, 14, end as int);
    let bare = bytes.skip(2) + rest;
    assert(bare =~= all.skip(2));
    assert(bare.subrange(0, 4) =~= be_bytes(p.soe_protocol_version as nat, 4));
    assert(bare.subrange(4, 8) =~= be_bytes(p.session_id as nat, 4));
    assert(bare.subrange(8, 12) =~= be_bytes(p.udp_length as nat, 4));
    assert(bare.subrange(12, end - 2) =~= name);
    lemma_null_at(bare, 12, end - 2);
}

/// A packet used to confirm a session request.
#[derive(Debug, Clone, Copy, PartialEq, Eq, Structural)]
pub struct SessionResponse {
    /// The ID of the session being confirmed.
    pub session_id: u32,
    /// A randomly generated seed used to calculate CRC-32 check values.
    pub crc_seed: u32,
    /// The number of bytes used to store CRC-32 check values.
    pub crc_length: u8,
    /// Whether relevant packets may be compressed.
    pub is_compression_enabled: bool,
    /// Unknown. Always observed to be `0`.
    pub unknown_value_1: u8,
    /// The maximum length of a UDP packet that the sender can receive.
    pub udp_length: u32,
    /// The version of the SOE protocol in use.
    pub soe_protocol_version: u32,
}

impl SessionResponse {
    /// The serialized size of this packet.
    pub const SIZE: usize = OP_CODE_SIZE + 4 + 4 + 1 + 1 + 1 + 4 + 4;

    /// The fields of the packet on the wire.
    pub open spec fn wire(self) -> Seq<Seq<u8>> {
        seq![
            op_code_bytes(OpCode::SessionResponse),
            be_bytes(self.session_id as nat, 4),
            be_bytes(self.crc_seed as nat, 4),
            seq![self.crc_length],
            bool_bytes(self.is_compression_enabled),
            seq![self.unknown_value_1],
            be_bytes(self.udp_length as nat, 4),
            be_bytes(self.soe_protocol_version as nat, 4),
        ]
    }

    /// What a packet in `buffer` is read as.
    pub open spec fn parsed(buffer: Seq<u8>, has_op_code: bool) -> Result<Self, Error> {
        let at = op_code_width(has_op_code);
        match first_short(buffer.len() as int, 0, seq![at, 4, 4, 1, 1, 1, 4, 4]) {
            Some(e) => Err(e),
            None => Ok(
                SessionResponse {
                    session_id: be_at(buffer, at, 4) as u32,
                    crc_seed: be_at(buffer, at + 4, 4) as u32,
                    crc_length: buffer[at + 8],
                    is_compression_enabled: buffer[at + 9] != 0,
                    unknown_value_1: buffer[at + 10],
                    udp_length: be_at(buffer, at + 11, 4) as u32,
                    soe_protocol_version: be_at(buffer, at + 15, 4) as u32,
                },
            ),
        }
    }

    /// Deserializes a packet from `buffer`.
    pub fn deserialize(buffer: &[u8], has_op_code: bool) -> (r: Result<Self, Error>)
        ensures
            r == Self::parsed(buffer@, has_op_code),
    {
        proof {
            reveal_with_fuel(first_short_from, 9);
        }
        let mut r = BinaryReader::new(buffer);
        if has_op_code {
            r.read_u16()?;
        }
        let session_id: u32 = r.read_u32()?;
        let crc_seed: u32 = r.read_u32()?;
        let crc_length: u8 = r.read_u8()?;
        let is_compression_enabled = r.read_bool()?;
        let unknown_value_1: u8 = r.read_u8()?;
        let udp_length: u32 = r.read_u32()?;
        let soe_protocol_version: u32 = r.read_u32()?;
        Ok(
            Self {
                session_id,
                crc_seed,
                crc_length,
                is_compression_enabled,
                unknown_value_1,
                udp_length,
                soe_protocol_version,
            },
        )
    }

    /// Serializes this packet (including its OP code) into `buffer`, returning the
    /// number of bytes written.
    pub fn serialize(&self, buffer: &mut [u8]) -> (r: Result<usize, Error>)
        ensures
            (final(buffer)@, r) == write_fields(old(buffer)@, 0, self.wire()),
    {
        proof {
            reveal_with_fuel(write_fields_from, 9);
        }
        let mut w = BinaryWriter::new(buffer);
        w.write_u16(OpCode::SessionResponse.as_u16())?;
        w.write_u32(self.session_id)?;
        w.write_u32(self.crc_seed)?;
        w.write_u8(self.crc_length)?;
        w.write_bool(self.is_compression_enabled)?;
        w.write_u8(self.unknown_value_1)?;
        w.write_u32(self.udp_length)?;
        w.write_u32(self.soe_protocol_version)?;
        Ok(w.offset())
    }
}

pub(crate) proof fn lemma_session_response_wire(p: SessionResponse)
    ensures
        concat(p.wire()) == op_code_bytes(OpCode::SessionResponse) + be_bytes(
            p.session_id as nat,
            4,
        ) + be_bytes(p.crc_seed as nat, 4) + seq![p.crc_length] + bool_bytes(
            p.is_compression_enabled,
        ) + seq![p.unknown_value_1] + be_bytes(p.udp_length as nat, 4) + be_bytes(
            p.soe_protocol_version as nat,
            4,
        ),
        concat(p.wire()).len() == SessionResponse::SIZE,
{
    reveal_with_fuel(concat_from, 9);
    lemma_be_bytes_len(op_code_value(OpCode::SessionResponse) as nat, 2);
    lemma_be_bytes_len(p.session_id as nat, 4);
    lemma_be_bytes_len(p.crc_seed as nat, 4);
    lemma_be_bytes_len(p.udp_length as nat, 4);
    lemma_be_bytes_len(p.soe_protocol_version as nat, 4);
    assert(concat(p.wire()) =~= op_code_bytes(OpCode::SessionResponse) + be_bytes(
        p.session_id as nat,
        4,
    ) + be_bytes(p.crc_seed as nat, 4) + seq![p.crc_length] + bool_bytes(
        p.is_compression_enabled,
    ) + seq![p.unknown_value_1] + be_bytes(p.udp_length as nat, 4) + be_bytes(
        p.soe_protocol_version as nat,
        4,
    ));
}

/// A session response is read back from its bytes, whatever follows them.
pub proof fn law_session_response_round_trip(p: SessionResponse, rest: Seq<u8>)
    ensures
        SessionResponse::parsed(concat(p.wire()) + rest, true) == Ok::<_, Error>(p),
        SessionResponse::parsed(concat(p.wire()).skip(2) + rest, false) == Ok::<_, Error>(p),
{
    lemma_session_response_wire(p);
    lemma_pow256_values();
    lemma_be_bytes_len(op_code_value(OpCode::SessionResponse) as nat, 2);
    lemma_be_bytes_len(p.session_id as nat, 4);
    lemma_be_bytes_len(p.crc_seed as nat, 4);
    lemma_be_bytes_len(p.udp_length as nat, 4);
    lemma_be_bytes_len(p.soe_protocol_version as nat, 4);
    lemma_be_value_of_bytes(p.session_id as nat, 4);
    lemma_be_value_of_bytes(p.crc_seed as nat, 4);
    lemma_be_value_of_bytes(p.udp_length as nat, 4);
    lemma_be_value_of_bytes(p.soe_protocol_version as nat, 4);
    reveal_with_fuel(first_short_from, 9);
    let all = concat(p.wire()) + rest;
    assert(all.subrange(2, 6) =~= be_bytes(p.session_id as nat, 4));
    assert(all.subrange(6, 10) =~= be_bytes(p.crc_seed as nat, 4));
    assert(all.subrange(13, 17) =~= be_bytes(p.udp_length as nat, 4));
    assert(all.subrange(17, 21) =~= be_bytes(p.soe_protocol_version as nat, 4));
    let bare = concat(p.wire()).skip(2) + rest;
    assert(bare =~= all.skip(2));
    assert(bare.subrange(0, 4) =~= all.subrange(2, 6));
    assert(bare.subrange(4, 8) =~= all.subrange(6, 10));
    assert(bare.subrange(11, 15) =~= all.subrange(13, 17));
    assert(bare.subrange(15, 19) =~= all.subrange(17, 21));
}

/// A packet used to terminate a session. Serialized without OP code or CRC.
#[derive(Debug, Clone, Copy, PartialEq, Eq, Structural)]
pub struct Disconnect {
    /// The ID of the session being terminated.
    pub session_id: u32,
    /// The reason for the termination.
    pub reason: DisconnectReason,
}

impl Disconnect {
    /// The serialized size of this packet (excluding OP code and CRC).
    pub const SIZE: usize = 4 + 2;

    /// The fields of the packet on the wire.
    pub open spec fn wire(self) -> Seq<Seq<u8>> {
        seq![
            be_bytes(self.session_id as nat, 4),
            be_bytes(disconnect_reason_value(self.reason) as nat, 2),
        ]
    }

    /// What a packet in `buffer` is read as.
    pub open spec fn parsed(buffer: Seq<u8>) -> Result<Self, Error> {
        match first_short(buffer.len() as int, 0, seq![4, 2]) {
            Some(e) => Err(e),
            None => Ok(
                Disconnect {
                    session_id: be_at(buffer, 0, 4) as u32,
                    reason: disconnect_reason_of(be_at(buffer, 4, 2) as u16),
                },
            ),
        }
    }

    /// Creates a new disconnect packet.
    pub fn new(session_id: u32, reason: DisconnectReason) -> (p: Self)
        ensures
            p == (Disconnect { session_id, reason }),
    {
        Self { session_id, reason }
    }

    /// Deserializes a packet from `buffer`.
    pub fn deserialize(buffer: &[u8]) -> (r: Result<Self, Error>)
        ensures
            r == Self::parsed(buffer@),
    {
        proof {
            reveal_with_fuel(first_short_from, 3);
        }
        let mut r = BinaryReader::new(buffer);
        let session_id: u32 = r.read_u32()?;
        let reason = DisconnectReason::from_u16(r.read_u16()?);
        Ok(Self { session_id, reason })
    }

    /// Serializes this packet into `buffer`, returning the number of bytes written.
    pub fn serialize(&self, buffer: &mut [u8]) -> (r: Result<usize, Error>)
        ensures
            (final(buffer)@, r) == write_fields(old(buffer)@, 0, self.wire()),
    {
        proof {
            reveal_with_fuel(write_fields_from, 3);
        }
        let mut w = BinaryWriter::new(buffer);
        w.write_u32(self.session_id)?;
        w.write_u16(self.reason.as_u16())?;
        Ok(w.offset())
    }
}

pub(crate) proof fn lemma_disconnect_wire(p: Disconnect)
    ensures
        concat(p.wire()) == be_bytes(p.session_id as nat, 4) + be_bytes(
            disconnect_reason_value(p.reason) as nat,
            2,
        ),
        concat(p.wire()).len() == Disconnect::SIZE,
{
    reveal_with_fuel(concat_from, 3);
    lemma_be_bytes_len(p.session_id as nat, 4);
    lemma_be_bytes_len(disconnect_reason_value(p.reason) as nat, 2);
    assert(concat(p.wire()) =~= be_bytes(p.session_id as nat, 4) + be_bytes(
        disconnect_reason_value(p.reason) as nat,
        2,
    ));
}

/// A disconnect packet is read back from its bytes, whatever follows them.
pub proof fn law_disconnect_round_trip(p: Disconnect, rest: Seq<u8>)
    ensures
        Disconnect::parsed(concat(p.wire()) + rest) == Ok::<_, Error>(p),
{
    lemma_disconnect_wire(p);
    lemma_pow256_values();
    lemma_be_bytes_len(p.session_id as nat, 4);
    lemma_be_bytes_len(disconnect_reason_value(p.reason) as nat, 2);
    lemma_be_value_of_bytes(p.session_id as nat, 4);
    lemma_be_value_of_bytes(disconnect_reason_value(p.reason) as nat, 2);
    reveal_with_fuel(first_short_from, 3);
    let all = concat(p.wire()) + rest;
    assert(all.subrange(0, 4) =~= be_bytes(p.session_id as nat, 4));
    assert(all.subrange(4, 6) =~= be_bytes(disconnect_reason_value(p.reason) as nat, 2));
}

/// A packet used to remap an existing session to a new port.
#[derive(Debug, Clone, Copy, PartialEq, Eq, Structural)]
pub struct RemapConnection {
    /// The ID of the session to remap.
    pub session_id: u32,
    /// The CRC seed being used in the session.
    pub crc_seed: u32,
}

impl RemapConnection {
    /// The serialized size of this packet (including OP code).
    pub const SIZE: usize = OP_CODE_SIZE + 4 + 4;

    /// The fields of the packet on the wire.
    pub open spec fn wire(self) -> Seq<Seq<u8>> {
        seq![
            op_code_bytes(OpCode::RemapConnection),
            be_bytes(self.session_id as nat, 4),
            be_bytes(self.crc_seed as nat, 4),
        ]
    }

    /// What a packet in `buffer` is read as.
    pub open spec fn parsed(buffer: Seq<u8>, has_op_code: bool) -> Result<Self, Error> {
        let at = op_code_width(has_op_code);
        match first_short(buffer.len() as int, 0, seq![at, 4, 4]) {
            Some(e) => Err(e),
            None => Ok(
                RemapConnection {
                    session_id: be_at(buffer, at, 4) as u32,
                    crc_seed: be_at(buffer, at + 4, 4) as u32,
                },
            ),
        }
    }

    /// Deserializes a packet from `buffer`.
    pub fn deserialize(buffer: &[u8], has_op_code: bool) -> (r: Result<Self, Error>)
        ensures
            r == Self::parsed(buffer@, has_op_code),
    {
        proof {
            reveal_with_fuel(first_short_from, 4);
        }
        let mut r = BinaryReader::new(buffer);
        if has_op_code {
            r.read_u16()?;
        }
        let session_id: u32 = r.read_u32()?;
        let crc_seed: u32 = r.read_u32()?;
        Ok(Self { session_id, crc_seed })
    }

    /// Serializes this packet (including its OP code) into `buffer`, returning the
    /// number of bytes written.
    pub fn serialize(&self, buffer: &mut [u8]) -> (r: Result<usize, Error>)
        ensures
            (final(buffer)@, r) == write_fields(old(buffer)@, 0, self.wire()),
    {
        proof {
            reveal_with_fuel(write_fields_from, 4);
        }
        let mut w = BinaryWriter::new(buffer);
        w.write_u16(OpCode::RemapConnection.as_u16())?;
        w.write_u32(self.session_id)?;
        w.write_u32(self.crc_seed)?;
        Ok(w.offset())
    }
}

/// A remap packet is read back from its bytes, whatever follows them.
pub proof fn law_remap_connection_round_trip(p: RemapConnection, rest: Seq<u8>)
    ensures
        concat(p.wire()).len() == RemapConnection::SIZE,
        RemapConnection::parsed(concat(p.wire()) + rest, true) == Ok::<_, Error>(p),
        RemapConnection::parsed(concat(p.wire()).skip(2) + rest, false) == Ok::<_, Error>(p),
{
    reveal_with_fuel(concat_from, 4);
    lemma_pow256_values();
    lemma_be_bytes_len(op_code_value(OpCode::RemapConnection) as nat, 2);
    lemma_be_bytes_len(p.session_id as nat, 4);
    lemma_be_bytes_len(p.crc_seed as nat, 4);
    lemma_be_value_of_bytes(p.session_id as nat, 4);
    lemma_be_value_of_bytes(p.crc_seed as nat, 4);
    reveal_with_fuel(first_short_from, 4);
    let all = concat(p.wire()) + rest;
    assert(all.subrange(2, 6) =~= be_bytes(p.session_id as nat, 4));
    assert(all.subrange(6, 10) =~= be_bytes(p.crc_seed as nat, 4));
    let bare = concat(p.wire()).skip(2) + rest;
    assert(bare =~= all.skip(2));
    assert(bare.subrange(0, 4) =~= all.subrange(2, 6));
    assert(bare.subrange(4, 8) =~= all.subrange(6, 10));
}

/// A packet used to acknowledge a single data sequence. Serialized without OP code.
#[derive(Debug, Clone, Copy, PartialEq, Eq, Structural)]
pub struct Acknowledge {
    /// The sequence number being acknowledged.
    pub sequence: u16,
}

impl Acknowledge {
    /// The serialized size of this packet (excluding OP code and CRC).
    pub const SIZE: usize = 2;

    /// The fields of the packet on the wire.
    pub open spec fn wire(self) -> Seq<Seq<u8>> {
        seq![be_bytes(self.sequence as nat, 2)]
    }

    /// What a packet in `buffer` is read as.
    pub open spec fn parsed(buffer: Seq<u8>) -> Result<Self, Error> {
        if buffer.len() < 2 {
            Err(too_short(2, buffer.len() as int))
        } else {
            Ok(Acknowledge { sequence: be_at(buffer, 0, 2) as u16 })
        }
    }

    /// Creates a new acknowledge packet.
    pub fn new(sequence: u16) -> (p: Self)
        ensures
            p == (Acknowledge { sequence }),
    {
        Self { sequence }
    }

    /// Deserializes a packet from `buffer`.
    pub fn deserialize(buffer: &[u8]) -> (r: Result<Self, Error>)
        ensures
            r == Self::parsed(buffer@),
    {
        let mut r = BinaryReader::new(buffer);
        let sequence: u16 = r.read_u16()?;
        Ok(Self { sequence })
    }

    /// Serializes this packet into `buffer`, returning the number of bytes written.
    pub fn serialize(&self, buffer: &mut [u8]) -> (r: Result<usize, Error>)
        ensures
            (final(buffer)@, r) == write_fields(old(buffer)@, 0, self.wire()),
    {
        proof {
            reveal_with_fuel(write_fields_from, 2);
        }
        let mut w = BinaryWriter::new(buffer);
        w.write_u16(self.sequence)?;
        Ok(w.offset())
    }
}

/// An acknowledge packet is read back from its bytes, whatever follows them.
pub proof fn law_acknowledge_round_trip(p: Acknowledge, rest: Seq<u8>)
    ensures
        concat(p.wire()) == be_bytes(p.sequence as nat, 2),
        concat(p.wire()).len() == Acknowledge::SIZE,
        Acknowledge::parsed(concat(p.wire()) + rest) == Ok::<_, Error>(p),
{
    reveal_with_fuel(concat_from, 2);
    lemma_pow256_values();
    lemma_be_bytes_len(p.sequence as nat, 2);
    lemma_be_value_of_bytes(p.sequence as nat, 2);
    assert(concat(p.wire()) =~= be_bytes(p.sequence as nat, 2));
    assert((concat(p.wire()) + rest).subrange(0, 2) =~= be_bytes(p.sequence as nat, 2));
}

/// A packet used to acknowledge all sequences up to and including `sequence`.
/// Serialized without OP code.
#[derive(Debug, Clone, Copy, PartialEq, Eq, Structural)]
pub struct AcknowledgeAll {
    /// The most recent sequence number received.
    pub sequence: u16,
}

impl AcknowledgeAll {
    /// The serialized size of this packet (excluding OP code and CRC).
    pub const SIZE: usize = 2;

    /// The fields of the packet on the wire.
    pub open spec fn wire(self) -> Seq<Seq<u8>> {
        seq![be_bytes(self.sequence as nat, 2)]
    }

    /// What a packet in `buffer` is read as.
    pub open spec fn parsed(buffer: Seq<u8>) -> Result<Self, Error> {
        if buffer.len() < 2 {
            Err(too_short(2, buffer.len() as int))
        } else {
            Ok(AcknowledgeAll { sequence: be_at(buffer, 0, 2) as u16 })
        }
    }

    /// Creates a new acknowledge-all packet.
    pub fn new(sequence: u16) -> (p: Self)
        ensures
            p == (AcknowledgeAll { sequence }),
    {
        Self { sequence }
    }

    /// Deserializes a packet from `buffer`.
    pub fn deserialize(buffer: &[u8]) -> (r: Result<Self, Error>)
        ensures
            r == Self::parsed(buffer@),
    {
        let mut r = BinaryReader::new(buffer);
        let sequence: u16 = r.read_u16()?;
        Ok(Self { sequence })
    }

    /// Serializes this packet into `buffer`, returning the number of bytes written.
    pub fn serialize(&self, buffer: &mut [u8]) -> (r: Result<usize, Error>)
        ensures
            (final(buffer)@, r) == write_fields(old(buffer)@, 0, self.wire()),
    {
        proof {
            reveal_with_fuel(write_fields_from, 2);
        }
        let mut w = BinaryWriter::new(buffer);
        w.write_u16(self.sequence)?;
        Ok(w.offset())
    }
}

/// An acknowledge-all packet is read back from its bytes, whatever follows them.
pub proof fn law_acknowledge_all_round_trip(p: AcknowledgeAll, rest: Seq<u8>)
    ensures
        concat(p.wire()) == be_bytes(p.sequence as nat, 2),
        concat(p.wire()).len() == AcknowledgeAll::SIZE,
        AcknowledgeAll::parsed(concat(p.wire()) + rest) == Ok::<_, Error>(p),
{
    reveal_with_fuel(concat_from, 2);
    lemma_pow256_values();
    lemma_be_bytes_len(p.sequence as nat, 2);
    lemma_be_value_of_bytes(p.sequence as nat, 2);
    assert(concat(p.wire()) =~= be_bytes(p.sequence as nat, 2));
    assert((concat(p.wire()) + rest).subrange(0, 2) =~= be_bytes(p.sequence as nat, 2));
}

/// A packet indicating the receiver has no session for the sender's address. Carries no
/// fields beyond its OP code.
#[derive(Debug, Clone, Copy, PartialEq, Eq)]
pub struct UnknownSender;

impl UnknownSender {
    /// The serialized size of this packet (the OP code only).
    pub const SIZE: usize = OP_CODE_SIZE;

    /// Serializes this packet (its OP code) into `buffer`, returning the number of
    /// bytes written.
    pub fn serialize(buffer: &mut [u8]) -> (r: Result<usize, Error>)
        ensures
            (final(buffer)@, r) == write_fields(
                old(buffer)@,
                0,
                seq![op_code_bytes(OpCode::UnknownSender)],
            ),
    {
        proof {
            reveal_with_fuel(write_fields_from, 2);
        }
        let mut w = BinaryWriter::new(buffer);
        w.write_u16(OpCode::UnknownSender.as_u16())?;
        Ok(w.offset())
    }
}

/// Constructs a [`SessionRequest`] using this crate's protocol version.
pub fn session_request(session_id: u32, udp_length: u32, application_protocol: &str) -> (p:
    SessionRequest)
    ensures
        p@ == (SessionRequestFields {
            soe_protocol_version: SOE_PROTOCOL_VERSION,
            session_id,
            udp_length,
            application_protocol: application_protocol@,
        }),
{
    SessionRequest {
        soe_protocol_version: SOE_PROTOCOL_VERSION,
        session_id,
        udp_length,
        application_protocol: application_protocol.to_owned(),
    }
}

/// The bytes of a remap packet, in order: the number of its kind, the session ID and the
/// seed of the check values.
pub proof fn law_remap_connection_layout(p: RemapConnection)
    ensures
        concat(p.wire()) == be_bytes(0x1E, 2) + be_bytes(p.session_id as nat, 4) + be_bytes(
            p.crc_seed as nat,
            4,
        ),
{
    reveal_with_fuel(concat_from, 4);
    assert(concat(p.wire()) =~= be_bytes(0x1E, 2) + be_bytes(p.session_id as nat, 4) + be_bytes(
        p.crc_seed as nat,
        4,
    ));
}

/// A packet is read exactly if all of its fields are there; of a session request the name
/// of the application protocol must also come to an end.
pub proof fn law_read_if_complete(buffer: Seq<u8>)
    ensures
        SessionResponse::parsed(buffer, true) is Ok <==> buffer.len() >= 21,
        SessionResponse::parsed(buffer, false) is Ok <==> buffer.len() >= 19,
        RemapConnection::parsed(buffer, true) is Ok <==> buffer.len() >= 10,
        RemapConnection::parsed(buffer, false) is Ok <==> buffer.len() >= 8,
        Disconnect::parsed(buffer) is Ok <==> buffer.len() >= 6,
        Acknowledge::parsed(buffer) is Ok <==> buffer.len() >= 2,
        AcknowledgeAll::parsed(buffer) is Ok <==> buffer.len() >= 2,
        SessionRequestFields::parsed(buffer, true) is Ok ==> buffer.len() >= 15,
        SessionRequestFields::parsed(buffer, false) is Ok ==> buffer.len() >= 13,
{
    reveal_with_fuel(first_short_from, 9);
}

/// A session request says what it holds.
pub proof fn law_session_request_says(p: SessionRequest)
    ensures
        p@ == (SessionRequestFields {
            soe_protocol_version: p.soe_protocol_version,
            session_id: p.session_id,
            udp_length: p.udp_length,
            application_protocol: p.application_protocol@,
        }),
{
}

} // verus!
