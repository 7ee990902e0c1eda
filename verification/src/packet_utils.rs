//! Utilities for validating, checksumming and (un)bundling SOE protocol packets.

use vstd::prelude::*;

use crate::constants::OP_CODE_SIZE;
use crate::crc32::{crc_of, Crc32};
use crate::error::Error;
use crate::packets::{
    Acknowledge, AcknowledgeAll, Disconnect, RemapConnection, SessionRequest, SessionResponse,
    UnknownSender,
};
use crate::protocol::{contextless, op_code_of, op_code_value, OpCode};
use crate::wire::{be_bytes, lemma_be_bytes_len, lemma_be_two, splice, too_short};

pub mod multi;

verus! {

/// The result of validating that a buffer plausibly contains an SOE packet.
#[derive(Debug, Clone, Copy, PartialEq, Eq, Structural)]
pub enum ValidationResult {
    /// The packet is valid.
    Valid,
    /// The packet is too short for its type.
    TooShort,
    /// The packet failed CRC validation.
    CrcMismatch,
    /// The packet had an unknown OP code.
    InvalidOpCode,
}

/// The number at the start of a packet.
pub open spec fn raw_op_code(buffer: Seq<u8>) -> u16 {
    (buffer[0] * 256 + buffer[1]) as u16
}

/// The kind of packet that a number at the start of a packet stands for. Each of the
/// four kinds that belong to a reliable channel has four numbers in a row, one for each
/// channel; the first is that of the kind's OP code.
pub open spec fn kind_of(raw: u16) -> Option<OpCode> {
    if 0x09 <= raw <= 0x0C {
        Some(OpCode::ReliableData)
    } else if 0x0D <= raw <= 0x10 {
        Some(OpCode::ReliableDataFragment)
    } else if 0x11 <= raw <= 0x14 {
        Some(OpCode::Acknowledge)
    } else if 0x15 <= raw <= 0x18 {
        Some(OpCode::AcknowledgeAll)
    } else {
        op_code_of(raw)
    }
}

/// The reliable channel that a number at the start of a packet belongs to; 0 for a
/// number that belongs to none.
pub open spec fn channel_of(raw: u16) -> int {
    if 0x09 <= raw <= 0x18 {
        (raw - 0x09) % 4
    } else {
        0
    }
}

/// Whether packets of this kind belong to a reliable channel.
pub open spec fn is_channel_kind(op: OpCode) -> bool {
    ||| op is ReliableData
    ||| op is ReliableDataFragment
    ||| op is Acknowledge
    ||| op is AcknowledgeAll
}

/// The kind and the channel are read back from the number that is written for them.
pub proof fn law_channel_round_trip(op: OpCode, channel: int)
    requires
        0 <= channel < 4,
        is_channel_kind(op) || channel == 0,
    ensures
        kind_of((op_code_value(op) + channel) as u16) == Some(op),
        channel_of((op_code_value(op) + channel) as u16) == channel,
{
}

/// The kind of packet in `buffer`, if its number is there and known.
pub open spec fn op_code_in(buffer: Seq<u8>) -> Option<OpCode> {
    if buffer.len() < 2 {
        None
    } else {
        kind_of(raw_op_code(buffer))
    }
}

/// The number at the start of a packet is the one that its first two bytes are the
/// bytes of.
pub proof fn lemma_raw_op_code(raw: u16, rest: Seq<u8>)
    ensures
        raw_op_code(be_bytes(raw as nat, 2) + rest) == raw,
        (be_bytes(raw as nat, 2) + rest).len() == 2 + rest.len(),
{
    lemma_be_two(raw as nat);
}

fn read_raw_op_code(buffer: &[u8]) -> (raw: u16)
    requires
        buffer@.len() >= 2,
    ensures
        raw == raw_op_code(buffer@),
{
    buffer[0] as u16 * 256 + buffer[1] as u16
}

/// Reads the OP code from the start of a packet buffer, if present and known. The
/// numbers of all reliable channels are read as the OP code of their kind; see
/// [`reliable_channel`].
pub fn read_op_code(buffer: &[u8]) -> (op: Option<OpCode>)
    ensures
        op == op_code_in(buffer@),
{
    if buffer.len() < OP_CODE_SIZE {
        return None;
    }
    let raw: u16 = read_raw_op_code(buffer);
    if 0x09 <= raw && raw <= 0x0C {
        Some(OpCode::ReliableData)
    } else if 0x0D <= raw && raw <= 0x10 {
        Some(OpCode::ReliableDataFragment)
    } else if 0x11 <= raw && raw <= 0x14 {
        Some(OpCode::Acknowledge)
    } else if 0x15 <= raw && raw <= 0x18 {
        Some(OpCode::AcknowledgeAll)
    } else {
        OpCode::from_u16(raw)
    }
}

/// Returns the reliable channel that a raw OP code belongs to; 0 for one that belongs
/// to none.
pub fn reliable_channel(raw: u16) -> (channel: usize)
    ensures
        channel == channel_of(raw),
        channel < 4,
{
    if 0x09 <= raw && raw <= 0x18 {
        ((raw - 0x09) % 4) as usize
    } else {
        0
    }
}

/// Whether packets of this kind are used within a session context.
pub open spec fn contextual(op: OpCode) -> bool {
    ||| op is MultiPacket
    ||| op is Disconnect
    ||| op is Heartbeat
    ||| op is NetStatusRequest
    ||| op is NetStatusResponse
    ||| is_channel_kind(op)
}

/// Returns `true` if the OP code denotes a packet used within a session context.
pub fn is_contextual(op: OpCode) -> (yes: bool)
    ensures
        yes == contextual(op),
{
    matches!(
        op,
        OpCode::MultiPacket
            | OpCode::Disconnect
            | OpCode::Heartbeat
            | OpCode::NetStatusRequest
            | OpCode::NetStatusResponse
            | OpCode::ReliableData
            | OpCode::ReliableDataFragment
            | OpCode::Acknowledge
            | OpCode::AcknowledgeAll
    )
}

/// The low `crc_length` bytes of the check value of `data`.
pub open spec fn crc_trailer(seed: u32, data: Seq<u8>, crc_length: nat) -> Seq<u8> {
    be_bytes(crc_of(seed, data) as nat, crc_length)
}

/// The low `n` bytes of a number's bytes are the number's low `n` bytes.
proof fn lemma_be_low(value: nat, n: nat, k: nat)
    requires
        k <= n,
    ensures
        be_bytes(value, n).len() == n,
        be_bytes(value, n).subrange(n - k, n as int) == be_bytes(value, k),
    decreases n,
{
    lemma_be_bytes_len(value, n);
    lemma_be_bytes_len(value, k);
    if k > 0 {
        lemma_be_low(value / 256, (n - 1) as nat, (k - 1) as nat);
        lemma_be_bytes_len(value / 256, (n - 1) as nat);
        lemma_be_bytes_len(value / 256, (k - 1) as nat);
        assert(be_bytes(value, n).subrange(n - k, n as int) =~= be_bytes(value, k));
    } else {
        assert(be_bytes(value, n).subrange(n - k, n as int) =~= be_bytes(value, k));
    }
}

fn crc_bytes(value: u32) -> (bytes: [u8; 4])
    ensures
        bytes@ == be_bytes(value as nat, 4),
{
    let bytes: [u8; 4] = [
        (value / 0x100_0000) as u8,
        (value / 0x1_0000 % 0x100) as u8,
        (value / 0x100 % 0x100) as u8,
        (value % 0x100) as u8,
    ];
    proof {
        reveal_with_fuel(be_bytes, 5);
        assert(bytes@ =~= be_bytes(value as nat, 4));
    }
    bytes
}

/// Computes a CRC over `buffer[..written]` and appends the low `crc_length` bytes
/// (big-endian) immediately after it. Returns the new total length.
///
/// `crc_length` must be 0..=4, unless there is no room for it; a length of 0 is a no-op.
pub fn append_crc(buffer: &mut [u8], written: usize, crc: &Crc32, crc_length: u8) -> (r: Result<
    usize,
    Error,
>)
    requires
        written + crc_length <= usize::MAX,
        crc_length <= 4 || written + crc_length > old(buffer)@.len(),
    ensures
        crc_length == 0 ==> {
            &&& r == Ok::<usize, Error>(written)
            &&& final(buffer)@ == old(buffer)@
        },
        crc_length > 0 && written + crc_length > old(buffer)@.len() ==> {
            &&& r == Err::<usize, Error>(
                too_short(written + crc_length, old(buffer)@.len() as int),
            )
            &&& final(buffer)@ == old(buffer)@
        },
        crc_length > 0 && written + crc_length <= old(buffer)@.len() ==> {
            &&& r == Ok::<usize, Error>((written + crc_length) as usize)
            &&& final(buffer)@ == splice(
                old(buffer)@,
                written as int,
                crc_trailer(crc@, old(buffer)@.subrange(0, written as int), crc_length as nat),
            )
        },
{
    if crc_length == 0 {
        return Ok(written);
    }
    let crc_length: usize = crc_length as usize;
    if written + crc_length > buffer.len() {
        return Err(
            Error::BufferTooShort { needed: written + crc_length, available: buffer.len() },
        );
    }
    let value: u32 = crc.hash(&buffer[0..written]);
    let bytes: [u8; 4] = crc_bytes(value);
    let ghost data = buffer@.subrange(0, written as int);
    let ghost trailer = crc_trailer(crc@, data, crc_length as nat);
    proof {
        lemma_be_low(value as nat, 4, crc_length as nat);
        lemma_be_bytes_len(value as nat, crc_length as nat);
    }
    let mut i: usize = 0;
    while i < crc_length
        invariant
            i <= crc_length <= 4,
            written + crc_length <= buffer@.len() <= usize::MAX,
            buffer@.len() == old(buffer)@.len(),
            trailer.len() == crc_length,
            bytes@.len() == 4,
            trailer == bytes@.subrange(4 - crc_length, 4),
            buffer@ =~= splice(old(buffer)@, written as int, trailer.subrange(0, i as int)),
        decreases crc_length - i,
    {
        buffer[written + i] = bytes[4 - crc_length + i];
        i = i + 1;
    }
    assert(trailer.subrange(0, i as int) =~= trailer);
    Ok(written + crc_length)
}

/// The verdict on a packet, and the kind of packet that it is.
pub open spec fn validated(
    packet: Seq<u8>,
    seed: u32,
    crc_length: u8,
    is_compression_enabled: bool,
) -> (ValidationResult, Option<OpCode>) {
    let n = packet.len() - crc_length;
    if packet.len() < 2 {
        (ValidationResult::TooShort, None)
    } else {
        match op_code_in(packet) {
            None => (ValidationResult::InvalidOpCode, None),
            Some(op) => if minimum_length(op, is_compression_enabled, crc_length)
                > packet.len() {
                (ValidationResult::TooShort, Some(op))
            } else if contextless(op) || crc_length == 0 {
                (ValidationResult::Valid, Some(op))
            } else if crc_trailer(seed, packet.subrange(0, n), crc_length as nat)
                == packet.subrange(n, packet.len() as int) {
                (ValidationResult::Valid, Some(op))
            } else {
                (ValidationResult::CrcMismatch, Some(op))
            },
        }
    }
}

/// Whether the verdict on a packet takes its check value into account.
pub open spec fn crc_checked(
    packet: Seq<u8>,
    crc_length: u8,
    is_compression_enabled: bool,
) -> bool {
    &&& op_code_in(packet) matches Some(op)
    &&& minimum_length(op, is_compression_enabled, crc_length) <= packet.len()
    &&& !contextless(op)
    &&& crc_length != 0
}

/// Validates that `packet_data` plausibly contains an SOE protocol packet, returning the
/// validation result and the decoded OP code (if any).
///
/// `crc` must be seeded with the session's CRC seed. Contextless packets and sessions
/// with a `crc_length` of 0 skip the CRC check; where it is made, `crc_length` must not
/// exceed 4.
pub fn validate_packet(
    packet_data: &[u8],
    crc: &Crc32,
    crc_length: u8,
    is_compression_enabled: bool,
) -> (r: (ValidationResult, Option<OpCode>))
    requires
        crc_length <= 4 || !crc_checked(packet_data@, crc_length, is_compression_enabled),
    ensures
        r == validated(packet_data@, crc@, crc_length, is_compression_enabled),
{
    if packet_data.len() < OP_CODE_SIZE {
        return (ValidationResult::TooShort, None);
    }
    let op = match read_op_code(packet_data) {
        Some(op) => op,
        None => {
            return (ValidationResult::InvalidOpCode, None);
        },
    };

    let minimum_length: usize = packet_minimum_length(op, is_compression_enabled, crc_length);
    if minimum_length > packet_data.len() {
        return (ValidationResult::TooShort, Some(op));
    }
    if op.is_contextless() || crc_length == 0 {
        return (ValidationResult::Valid, Some(op));
    }
    let crc_length: usize = crc_length as usize;
    let n: usize = packet_data.len() - crc_length;
    let value: u32 = crc.hash(&packet_data[0..n]);
    let bytes: [u8; 4] = crc_bytes(value);
    let expected = &bytes.as_slice()[4 - crc_length..4];
    let actual = &packet_data[n..packet_data.len()];
    proof {
        lemma_be_low(value as nat, 4, crc_length as nat);
    }
    if equal_bytes(expected, actual) {
        (ValidationResult::Valid, Some(op))
    } else {
        (ValidationResult::CrcMismatch, Some(op))
    }
}

/// Whether two slices hold the same bytes.
pub(crate) fn equal_bytes(a: &[u8], b: &[u8]) -> (same: bool)
    ensures
        same == (a@ == b@),
{
    if a.len() != b.len() {
        return false;
    }
    let mut i: usize = 0;
    while i < a.len()
        invariant
            i <= a@.len(),
            a@.len() == b@.len(),
            forall|k: int| 0 <= k < i ==> a@[k] == b@[k],
        decreases a@.len() - i,
    {
        if a[i] != b[i] {
            return false;
        }
        i = i + 1;
    }
    assert(a@ =~= b@);
    true
}

/// The bytes that a contextual packet has around its body: OP code, optional compression
/// flag and CRC.
pub open spec fn padding(is_compression_enabled: bool, crc_length: u8) -> int {
    OP_CODE_SIZE + (if is_compression_enabled { 1int } else { 0 }) + crc_length
}

/// The minimum valid serialized length of a packet of this kind.
pub open spec fn minimum_length(op: OpCode, is_compression_enabled: bool, crc_length: u8) -> int {
    let pad = padding(is_compression_enabled, crc_length);
    match op {
        OpCode::SessionRequest => SessionRequest::MIN_SIZE as int,
        OpCode::SessionResponse => SessionResponse::SIZE as int,
        OpCode::MultiPacket => pad + 2,
        OpCode::Disconnect => pad + Disconnect::SIZE,
        OpCode::Heartbeat => pad,
        OpCode::NetStatusRequest => pad,
        OpCode::NetStatusResponse => pad,
        OpCode::ReliableData => pad + 3,
        OpCode::ReliableDataFragment => pad + 3,
        OpCode::Acknowledge => pad + Acknowledge::SIZE,
        OpCode::AcknowledgeAll => pad + AcknowledgeAll::SIZE,
        OpCode::UnknownSender => UnknownSender::SIZE as int,
        OpCode::RemapConnection => RemapConnection::SIZE as int,
    }
}

/// Returns the per-packet padding (OP code + optional compression flag + CRC) applied to
/// contextual packets.
fn contextual_padding(is_compression_enabled: bool, crc_length: u8) -> (n: usize)
    ensures
        n == padding(is_compression_enabled, crc_length),
{
    let flag: usize = if is_compression_enabled {
        1
    } else {
        0
    };
    OP_CODE_SIZE + flag + crc_length as usize
}

/// Returns the minimum valid serialized length of a packet given its OP code.
pub fn packet_minimum_length(op: OpCode, is_compression_enabled: bool, crc_length: u8) -> (n:
    usize)
    ensures
        n == minimum_length(op, is_compression_enabled, crc_length),
{
    let pad: usize = contextual_padding(is_compression_enabled, crc_length);
    match op {
        OpCode::SessionRequest => SessionRequest::MIN_SIZE,
        OpCode::SessionResponse => SessionResponse::SIZE,
        // Data length varint (>=1) + first byte of data.
        OpCode::MultiPacket => pad + 2,
        OpCode::Disconnect => pad + Disconnect::SIZE,
        OpCode::Heartbeat => pad,
        OpCode::NetStatusRequest => pad,
        OpCode::NetStatusResponse => pad,
        // Sequence (u16) + first byte of data.
        OpCode::ReliableData | OpCode::ReliableDataFragment => pad + 2 + 1,
        OpCode::Acknowledge => pad + Acknowledge::SIZE,
        OpCode::AcknowledgeAll => pad + AcknowledgeAll::SIZE,
        OpCode::UnknownSender => UnknownSender::SIZE,
        OpCode::RemapConnection => RemapConnection::SIZE,
    }
}

/// A packet of a known kind that is long enough and carries the check value of its
/// bytes is valid, for every CRC length.
pub proof fn law_crc_validates(
    data: Seq<u8>,
    op: OpCode,
    seed: u32,
    crc_length: u8,
    is_compression_enabled: bool,
)
    requires
        op_code_in(data) == Some(op),
        data.len() + crc_length >= minimum_length(op, is_compression_enabled, crc_length),
    ensures
        validated(
            data + crc_trailer(seed, data, crc_length as nat),
            seed,
            crc_length,
            is_compression_enabled,
        ) == (ValidationResult::Valid, Some(op)),
{
    let trailer = crc_trailer(seed, data, crc_length as nat);
    let packet = data + trailer;
    lemma_be_bytes_len(crc_of(seed, data) as nat, crc_length as nat);
    assert(packet.subrange(0, data.len() as int) =~= data);
    assert(packet.subrange(data.len() as int, packet.len() as int) =~= trailer);
}

/// A packet of a kind that is used within a session, whose last bytes are not the check
/// value of those ahead of them, is not valid.
pub proof fn law_wrong_crc_is_refused(
    packet: Seq<u8>,
    op: OpCode,
    seed: u32,
    crc_length: u8,
    is_compression_enabled: bool,
)
    requires
        op_code_in(packet) == Some(op),
        !contextless(op),
        crc_length > 0,
        packet.len() >= crc_length,
        packet.skip(packet.len() - crc_length) != crc_trailer(
            seed,
            packet.take(packet.len() - crc_length),
            crc_length as nat,
        ),
    ensures
        validated(packet, seed, crc_length, is_compression_enabled).0 !is Valid,
{
}

/// The kinds of packets by their numbers, channel by channel; no other number is known.
pub proof fn law_kinds(packet: Seq<u8>)
    requires
        packet.len() >= 2,
    ensures
        ({
            let n = packet[1] as int;
            op_code_in(packet) == (if packet[0] != 0 {
                None
            } else if n == 1 {
                Some(OpCode::SessionRequest)
            } else if n == 2 {
                Some(OpCode::SessionResponse)
            } else if n == 3 {
                Some(OpCode::MultiPacket)
            } else if n == 5 {
                Some(OpCode::Disconnect)
            } else if n == 6 {
                Some(OpCode::Heartbeat)
            } else if n == 7 {
                Some(OpCode::NetStatusRequest)
            } else if n == 8 {
                Some(OpCode::NetStatusResponse)
            } else if 9 <= n < 13 {
                Some(OpCode::ReliableData)
            } else if 13 <= n < 17 {
                Some(OpCode::ReliableDataFragment)
            } else if 17 <= n < 21 {
                Some(OpCode::Acknowledge)
            } else if 21 <= n < 25 {
                Some(OpCode::AcknowledgeAll)
            } else if n == 29 {
                Some(OpCode::UnknownSender)
            } else if n == 30 {
                Some(OpCode::RemapConnection)
            } else {
                None
            })
        }),
        packet[0] == 0 && 9 <= packet[1] < 25 ==> channel_of(raw_op_code(packet)) == (packet[1]
            - 9) % 4,
{
}

/// What is valid: a packet of a known kind that has what its kind needs. Outside of a
/// session that is a length alone; within one it is the number of the kind, the compression
/// flag where there is one, the fields of the kind, and a right check value, unless there is
/// none.
pub proof fn law_validation(
    packet: Seq<u8>,
    op: OpCode,
    seed: u32,
    crc_length: u8,
    is_compression_enabled: bool,
)
    requires
        op_code_in(packet) == Some(op),
    ensures
        ({
            let fields = match op {
                OpCode::SessionRequest => 13int,
                OpCode::SessionResponse => 19,
                OpCode::RemapConnection => 8,
                OpCode::MultiPacket => 2,
                OpCode::Disconnect => 6,
                OpCode::ReliableData => 3,
                OpCode::ReliableDataFragment => 3,
                OpCode::Acknowledge => 2,
                OpCode::AcknowledgeAll => 2,
                _ => 0,
            };
            let alone = match op {
                OpCode::SessionRequest => true,
                OpCode::SessionResponse => true,
                OpCode::RemapConnection => true,
                OpCode::UnknownSender => true,
                _ => false,
            };
            let around = if alone {
                0
            } else if is_compression_enabled {
                1 + crc_length
            } else {
                crc_length as int
            };
            let unchecked = alone || op is NetStatusRequest || op is NetStatusResponse
                || crc_length == 0;
            let n = packet.len() - crc_length;
            let verdict = validated(packet, seed, crc_length, is_compression_enabled).0;
            if packet.len() < 2 + fields + around {
                verdict is TooShort
            } else if unchecked || packet.skip(n) == be_bytes(
                crc_of(seed, packet.take(n)) as nat,
                crc_length as nat,
            ) {
                verdict is Valid
            } else {
                verdict is CrcMismatch
            }
        }),
{
    let n = packet.len() - crc_length;
    if 0 <= n {
        assert(packet.subrange(0, n) =~= packet.take(n));
        assert(packet.subrange(n, packet.len() as int) =~= packet.skip(n));
    }
}

/// What is used within a session: all but requests for one and the answers, and what there
/// is to say about senders and connections.
pub proof fn law_contextual(op: OpCode)
    ensures
        ({
            let n = op_code_value(op);
            contextual(op) <==> n != 0x01 && n != 0x02 && n != 0x1D && n != 0x1E
        }),
{
}

} // verus!
