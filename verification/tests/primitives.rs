//! The protocol primitives: numbers on the wire, packets, check values, the cipher and
//! compression.

use soe_protocol::crc32::Crc32;
use soe_protocol::error::Error;
use soe_protocol::io::{BinaryReader, BinaryWriter};
use soe_protocol::packet_utils::{
    append_crc, is_contextual, multi, packet_minimum_length, read_op_code, reliable_channel,
    validate_packet, ValidationResult,
};
use soe_protocol::packets::{
    session_request, Acknowledge, AcknowledgeAll, Disconnect, RemapConnection, SessionRequest,
    SessionResponse, UnknownSender,
};
use soe_protocol::protocol::{DisconnectReason, OpCode};
use soe_protocol::rc4::Rc4KeyState;
use soe_protocol::time::{Duration, Instant};
use soe_protocol::varint::{data_bundle, multi_packet};
use soe_protocol::zlib::{deflate, inflate};

const OP_CODE_SIZE: usize = 2;

#[test]
fn round_trip_primitives() {
    let mut buf = [0u8; 32];
    {
        let mut w = BinaryWriter::new(&mut buf);
        w.write_u8(0x12).unwrap();
        w.write_u16(0x3456).unwrap();
        w.write_u32(0x789a_bcde).unwrap();
        w.write_u64(0x0102_0304_0506_0708).unwrap();
        w.write_bool(true).unwrap();
        assert_eq!(w.offset(), 16);
    }
    let mut r = BinaryReader::new(&buf);
    assert_eq!(r.read_u8().unwrap(), 0x12);
    assert_eq!(r.read_u16().unwrap(), 0x3456);
    assert_eq!(r.read_u32().unwrap(), 0x789a_bcde);
    assert_eq!(r.read_u64().unwrap(), 0x0102_0304_0506_0708);
    assert!(r.read_bool().unwrap());
}

#[test]
fn big_endian_byte_order() {
    let mut buf = [0u8; 2];
    BinaryWriter::new(&mut buf).write_u16(0x0102).unwrap();
    assert_eq!(buf, [0x01, 0x02]);
}

#[test]
fn null_terminated_string() {
    let mut buf = [0u8; 16];
    BinaryWriter::new(&mut buf)
        .write_null_terminated_string("Hi")
        .unwrap();
    assert_eq!(&buf[..3], b"Hi\0");
    let mut r = BinaryReader::new(&buf);
    assert_eq!(r.read_null_terminated_string().unwrap(), "Hi");
    assert_eq!(r.offset(), 3);
}

#[test]
fn short_buffer_errors() {
    let mut r = BinaryReader::new(&[0x00]);
    assert!(matches!(r.read_u32(), Err(Error::BufferTooShort { .. })));
}

#[test]
fn reader_reports_what_is_missing() {
    let data = [1u8, 2, 3];
    let mut r = BinaryReader::new(&data);
    assert_eq!(r.peek(2), Some(3));
    assert_eq!(r.peek(3), None);
    r.skip(1).unwrap();
    assert_eq!(r.remaining(), 2);
    assert_eq!(r.remaining_bytes(), &[2, 3]);
    assert!(matches!(
        r.read_u32(),
        Err(Error::BufferTooShort { needed: 4, available: 2 })
    ));
    // A failed read does not move the reader.
    assert_eq!(r.offset(), 1);
    assert_eq!(r.read_bytes(2).unwrap(), &[2, 3]);
    assert!(matches!(
        r.skip(1),
        Err(Error::BufferTooShort { needed: 1, available: 0 })
    ));
    assert_eq!(r.data(), &data);
}

#[test]
fn unterminated_string_is_refused() {
    let mut r = BinaryReader::new(b"abc");
    assert!(matches!(
        r.read_null_terminated_string(),
        Err(Error::BufferTooShort { needed: 1, available: 0 })
    ));
    assert_eq!(r.offset(), 3);
}

#[test]
fn invalid_utf8_is_read_lossily() {
    let mut r = BinaryReader::new(&[b'a', 0xFF, b'b', 0, b'c']);
    assert_eq!(r.read_null_terminated_string().unwrap(), "a\u{FFFD}b");
    assert_eq!(r.offset(), 4);
}

#[test]
fn partial_string_stays_written() {
    let mut buf = [9u8; 2];
    {
        let mut w = BinaryWriter::new(&mut buf);
        assert!(matches!(
            w.write_null_terminated_string("Hi"),
            Err(Error::BufferTooShort { needed: 1, available: 0 })
        ));
        assert_eq!(w.offset(), 2);
        assert_eq!(w.remaining(), 0);
    }
    assert_eq!(&buf, b"Hi");
}

#[test]
fn multi_packet_encoded_size_boundaries() {
    assert_eq!(multi_packet::encoded_size(0), 1);
    assert_eq!(multi_packet::encoded_size(0xFF), 1);
    assert_eq!(multi_packet::encoded_size(0x100), 3);
    assert_eq!(multi_packet::encoded_size(0xFFFE), 3);
    assert_eq!(multi_packet::encoded_size(0xFFFF), 7);
}

#[test]
fn data_bundle_encoded_size_boundaries() {
    assert_eq!(data_bundle::encoded_size(0), 1);
    assert_eq!(data_bundle::encoded_size(0xFE), 1);
    assert_eq!(data_bundle::encoded_size(0xFF), 3);
    assert_eq!(data_bundle::encoded_size(0xFFFE), 3);
    assert_eq!(data_bundle::encoded_size(0xFFFF), 7);
}

#[test]
fn data_bundle_round_trip() {
    for &len in &[0u32, 1, 0xFE, 0xFF, 0x100, 0xFFFE, 0xFFFF, 0x1_0000, 0xFFFF_FFFF] {
        let mut buf = [0u8; 8];
        let mut w = BinaryWriter::new(&mut buf);
        data_bundle::write(&mut w, len).unwrap();
        let written = w.offset();
        assert_eq!(written, data_bundle::encoded_size(len), "size len={len:#x}");
        let mut r = BinaryReader::new(&buf);
        let got = data_bundle::read(&mut r).unwrap();
        assert_eq!(got, len, "len={len:#x}");
        assert_eq!(r.offset(), written);
    }
}

#[test]
fn multi_packet_round_trip() {
    // The single-byte 0xFF case relies on a following 0x00 (the high byte of a
    // sub-packet OP code); the buffer is zero-initialized so this holds.
    for &len in &[0u32, 1, 0xFE, 0xFF, 0x100, 0xFFFE, 0xFFFF, 0x1_0000, 0xFFFF_FFFF] {
        let mut buf = [0u8; 9];
        let mut w = BinaryWriter::new(&mut buf);
        multi_packet::write(&mut w, len).unwrap();
        let written = w.offset();
        assert_eq!(written, multi_packet::encoded_size(len), "size len={len:#x}");
        let mut r = BinaryReader::new(&buf);
        let got = multi_packet::read(&mut r).unwrap();
        assert_eq!(got, len, "len={len:#x}");
        assert_eq!(r.offset(), written);
    }
}

#[test]
fn multi_packet_single_byte_ff() {
    let mut buf = [0u8; 4];
    let mut w = BinaryWriter::new(&mut buf);
    multi_packet::write(&mut w, 0xFF).unwrap();
    assert_eq!(w.offset(), 1);
    assert_eq!(buf[0], 0xFF);
    let mut r = BinaryReader::new(&buf);
    assert_eq!(multi_packet::read(&mut r).unwrap(), 0xFF);
    assert_eq!(r.offset(), 1);
}

#[test]
fn varints_have_exact_bytes_and_errors() {
    let mut buf = [0u8; 7];
    let mut w = BinaryWriter::new(&mut buf);
    data_bundle::write(&mut w, 0x0102_0304).unwrap();
    assert_eq!(buf, [0xFF, 0xFF, 0xFF, 1, 2, 3, 4]);

    let mut r = BinaryReader::new(&[]);
    assert!(matches!(
        multi_packet::read(&mut r),
        Err(Error::BufferTooShort { needed: 1, available: 0 })
    ));
    let mut r = BinaryReader::new(&[0xFF, 0x12]);
    assert!(matches!(
        data_bundle::read(&mut r),
        Err(Error::BufferTooShort { needed: 2, available: 1 })
    ));
    let mut r = BinaryReader::new(&[0xFF, 0xFF, 0xFF, 1]);
    assert!(matches!(
        data_bundle::read(&mut r),
        Err(Error::BufferTooShort { needed: 4, available: 1 })
    ));
    // What fits of a value that does not fit stays written.
    let mut short = [0u8; 2];
    {
        let mut w = BinaryWriter::new(&mut short);
        assert!(matches!(
            multi_packet::write(&mut w, 0x1234),
            Err(Error::BufferTooShort { needed: 2, available: 1 })
        ));
        assert_eq!(w.offset(), 1);
    }
    assert_eq!(short, [0xFF, 0]);
}

#[test]
fn session_request_round_trip() {
    let pkt = SessionRequest {
        soe_protocol_version: 3,
        session_id: 5_467_392,
        udp_length: 512,
        application_protocol: "TestProtocol".to_owned(),
    };
    let mut buf = vec![0u8; pkt.size()];
    let n = pkt.serialize(&mut buf).unwrap();
    assert_eq!(n, pkt.size());
    assert_eq!(SessionRequest::deserialize(&buf, true).unwrap(), pkt);
}

#[test]
fn session_response_round_trip() {
    let pkt = SessionResponse {
        session_id: 531_633,
        crc_seed: 34_322,
        crc_length: 2,
        is_compression_enabled: true,
        unknown_value_1: 0,
        udp_length: 512,
        soe_protocol_version: 3,
    };
    let mut buf = [0u8; SessionResponse::SIZE];
    let n = pkt.serialize(&mut buf).unwrap();
    assert_eq!(n, SessionResponse::SIZE);
    assert_eq!(SessionResponse::deserialize(&buf, true).unwrap(), pkt);
}

#[test]
fn disconnect_round_trip() {
    let pkt = Disconnect::new(5, DisconnectReason::Application);
    let mut buf = [0u8; Disconnect::SIZE];
    pkt.serialize(&mut buf).unwrap();
    assert_eq!(Disconnect::deserialize(&buf).unwrap(), pkt);
}

#[test]
fn remap_connection_round_trip() {
    let pkt = RemapConnection {
        session_id: 16,
        crc_seed: 32,
    };
    let mut buf = [0u8; RemapConnection::SIZE];
    pkt.serialize(&mut buf).unwrap();
    assert_eq!(RemapConnection::deserialize(&buf, true).unwrap(), pkt);
}

#[test]
fn acknowledge_round_trip() {
    let pkt = Acknowledge::new(2);
    let mut buf = [0u8; Acknowledge::SIZE];
    pkt.serialize(&mut buf).unwrap();
    assert_eq!(Acknowledge::deserialize(&buf).unwrap(), pkt);

    let all = AcknowledgeAll::new(2);
    let mut buf = [0u8; AcknowledgeAll::SIZE];
    all.serialize(&mut buf).unwrap();
    assert_eq!(AcknowledgeAll::deserialize(&buf).unwrap(), all);
}

#[test]
fn unknown_sender_serializes_opcode() {
    let mut buf = [0u8; UnknownSender::SIZE];
    UnknownSender::serialize(&mut buf).unwrap();
    assert_eq!(buf, [0x00, 0x1D]);
}

#[test]
fn packets_have_exact_bytes() {
    let request = session_request(0x0102_0304, 512, "Ab");
    let mut buf = vec![0u8; request.size()];
    request.clone().serialize(&mut buf).unwrap();
    assert_eq!(
        buf,
        [0, 1, 0, 0, 0, 3, 1, 2, 3, 4, 0, 0, 2, 0, b'A', b'b', 0]
    );
    // Without its OP code the same packet is read from behind it.
    assert_eq!(SessionRequest::deserialize(&buf[2..], false).unwrap(), request);
    assert!(matches!(
        SessionRequest::deserialize(&buf[..11], true),
        Err(Error::BufferTooShort { needed: 4, available: 1 })
    ));
    assert!(matches!(
        request.serialize(&mut [0u8; 15]),
        Err(Error::BufferTooShort { needed: 2, available: 1 })
    ));

    let mut buf = [0u8; Disconnect::SIZE];
    Disconnect::new(7, DisconnectReason::ProtocolMismatch)
        .serialize(&mut buf)
        .unwrap();
    assert_eq!(buf, [0, 0, 0, 7, 0, 16]);
    assert!(matches!(
        Acknowledge::deserialize(&[1]),
        Err(Error::BufferTooShort { needed: 2, available: 1 })
    ));
}

#[test]
fn opcode_round_trip() {
    for raw in [
        0x01u16, 0x02, 0x03, 0x05, 0x06, 0x07, 0x08, 0x09, 0x0D, 0x11, 0x15, 0x1D, 0x1E,
    ] {
        let op = OpCode::from_u16(raw).unwrap();
        assert_eq!(op.as_u16(), raw);
    }
    assert!(OpCode::from_u16(0x00).is_none());
    assert!(OpCode::from_u16(0xFFFF).is_none());
}

#[test]
fn contextless_classification() {
    assert!(OpCode::SessionRequest.is_contextless());
    assert!(OpCode::RemapConnection.is_contextless());
    assert!(!OpCode::ReliableData.is_contextless());
    assert!(!OpCode::Disconnect.is_contextless());
}

#[test]
fn disconnect_reason_round_trip() {
    for raw in 0u16..=16 {
        assert_eq!(DisconnectReason::from_u16(raw).as_u16(), raw);
    }
    assert_eq!(DisconnectReason::from_u16(999), DisconnectReason::NoReason);
}

#[test]
fn contextual_classification() {
    assert!(is_contextual(OpCode::Heartbeat));
    assert!(is_contextual(OpCode::AcknowledgeAll));
    assert!(!is_contextual(OpCode::SessionRequest));
    assert!(!is_contextual(OpCode::UnknownSender));
}

#[test]
fn channel_op_codes_are_folded() {
    for ch in 0u8..4 {
        assert_eq!(read_op_code(&[0, 0x09 + ch]), Some(OpCode::ReliableData));
        assert_eq!(read_op_code(&[0, 0x0D + ch]), Some(OpCode::ReliableDataFragment));
        assert_eq!(read_op_code(&[0, 0x11 + ch]), Some(OpCode::Acknowledge));
        assert_eq!(read_op_code(&[0, 0x15 + ch]), Some(OpCode::AcknowledgeAll));
        for base in [0x09u16, 0x0D, 0x11, 0x15] {
            assert_eq!(reliable_channel(base + ch as u16), ch as usize);
        }
    }
    assert_eq!(reliable_channel(0x06), 0);
    assert_eq!(read_op_code(&[0]), None);
    assert_eq!(read_op_code(&[1, 9]), None);
}

#[test]
fn crc_of_known_data() {
    // With seed bytes prepended, the value is the plain CRC-32 of both together: the
    // well-known check value of "123456789" comes out for a seed made of its first bytes.
    let seed = u32::from_le_bytes([b'1', b'2', b'3', b'4']);
    assert_eq!(Crc32::new(seed).hash(b"56789"), 0xCBF4_3926);
    assert_eq!(Crc32::new(0).hash(&[]), 0x2144_DF1C);
}

#[test]
fn append_crc_correct_for_all_valid_lengths() {
    for crc_length in 0u8..=4 {
        let crc = Crc32::new(5);
        let mut buffer = vec![0u8; 4 + crc_length as usize];
        {
            let mut w = BinaryWriter::new(&mut buffer);
            w.write_u32(454_653_524).unwrap();
        }
        let expected = crc.hash(&buffer[..4]).to_be_bytes();
        let total = append_crc(&mut buffer, 4, &crc, crc_length).unwrap();
        assert_eq!(total, 4 + crc_length as usize);
        for i in 0..crc_length as usize {
            assert_eq!(buffer[4 + i], expected[4 - crc_length as usize + i]);
        }
    }
}

#[test]
fn append_crc_needs_room() {
    let crc = Crc32::new(5);
    let mut buffer = [0u8; 5];
    assert!(matches!(
        append_crc(&mut buffer, 4, &crc, 2),
        Err(Error::BufferTooShort { needed: 6, available: 5 })
    ));
    assert_eq!(buffer, [0u8; 5]);
}

#[test]
fn validate_rejects_short_op_code() {
    let crc = Crc32::new(5);
    let (result, _) = validate_packet(&[OpCode::SessionRequest.as_u16() as u8], &crc, 0, false);
    assert_eq!(result, ValidationResult::TooShort);
}

#[test]
fn validate_rejects_invalid_op_code() {
    let crc = Crc32::new(5);
    for op in [0u8, 4, 0xFF] {
        let (result, _) = validate_packet(&[0, op], &crc, 0, false);
        assert_eq!(result, ValidationResult::InvalidOpCode, "op={op}");
    }
}

#[test]
fn validate_accepts_op_only_contextless_packet() {
    let crc = Crc32::new(5);
    let (result, op) = validate_packet(&[0, OpCode::UnknownSender.as_u16() as u8], &crc, 0, false);
    assert_eq!(result, ValidationResult::Valid);
    assert_eq!(op, Some(OpCode::UnknownSender));
}

#[test]
fn validate_accepts_contextual_packet_for_all_crc_lengths() {
    for crc_length in 0u8..=4 {
        let crc = Crc32::new(5);
        let mut packet = vec![0u8; OP_CODE_SIZE + AcknowledgeAll::SIZE + crc_length as usize];
        let written;
        {
            let mut w = BinaryWriter::new(&mut packet);
            w.write_u16(OpCode::AcknowledgeAll.as_u16()).unwrap();
            w.write_u16(10).unwrap();
            written = w.offset();
        }
        append_crc(&mut packet, written, &crc, crc_length).unwrap();
        let (result, _) = validate_packet(&packet, &crc, crc_length, false);
        assert_eq!(result, ValidationResult::Valid, "crc_length={crc_length}");
    }
}

#[test]
fn validate_rejects_contextual_packet_with_incorrect_crc() {
    const CRC_LENGTH: u8 = 2;
    let session_crc = Crc32::new(5);
    let wrong_crc = Crc32::new(0);
    let mut packet = vec![0u8; OP_CODE_SIZE + AcknowledgeAll::SIZE + CRC_LENGTH as usize];
    let written;
    {
        let mut w = BinaryWriter::new(&mut packet);
        w.write_u16(OpCode::AcknowledgeAll.as_u16()).unwrap();
        w.write_u16(10).unwrap();
        written = w.offset();
    }
    append_crc(&mut packet, written, &wrong_crc, CRC_LENGTH).unwrap();
    let (result, _) = validate_packet(&packet, &session_crc, CRC_LENGTH, false);
    assert_eq!(result, ValidationResult::CrcMismatch);
}

#[test]
fn minimum_lengths() {
    assert_eq!(packet_minimum_length(OpCode::SessionRequest, true, 4), 15);
    assert_eq!(packet_minimum_length(OpCode::SessionResponse, true, 4), 21);
    assert_eq!(packet_minimum_length(OpCode::Heartbeat, false, 2), 4);
    assert_eq!(packet_minimum_length(OpCode::ReliableData, true, 2), 8);
    assert_eq!(packet_minimum_length(OpCode::Disconnect, false, 2), 10);
    let (result, op) = validate_packet(&[0, 6, 0], &Crc32::new(0), 2, false);
    assert_eq!((result, op), (ValidationResult::TooShort, Some(OpCode::Heartbeat)));
}

#[test]
fn multi_packet_pack_unpack_round_trip() {
    // Use realistic sub-packets that begin with a 0x00 OP-code high byte.
    let ack: &[u8] = &[0x00, 0x11, 0x00, 0x05];
    let heartbeat: &[u8] = &[0x00, 0x06];
    let subs = [ack, heartbeat];

    let mut buf = vec![0u8; multi::packed_size(&subs)];
    let n = multi::pack(&subs, &mut buf).unwrap();
    assert_eq!(n, buf.len());

    let unpacked = multi::unpack(&buf).unwrap();
    assert_eq!(unpacked.len(), 2);
    assert_eq!(unpacked[0], ack);
    assert_eq!(unpacked[1], heartbeat);
}

#[test]
fn multi_packet_unpack_rejects_bad_length() {
    // Claims a sub-packet of length 10 but only 2 bytes follow.
    let bad = [0x0A, 0x00, 0x06];
    assert!(multi::unpack(&bad).is_err());
}

#[test]
fn multi_packet_errors_say_what_is_wrong() {
    match multi::unpack(&[0x0A, 0x00, 0x06]) {
        Err(Error::OutOfRange(message)) => {
            assert_eq!(message, "invalid multi-packet sub-packet length 10");
        }
        other => panic!("unexpected: {other:?}"),
    }
    match multi::unpack(&[1, 0]) {
        Err(Error::OutOfRange(message)) => {
            assert_eq!(message, "invalid multi-packet sub-packet length 1");
        }
        other => panic!("unexpected: {other:?}"),
    }
    assert!(matches!(
        multi::unpack(&[0xFF]),
        Err(Error::BufferTooShort { needed: 2, available: 0 })
    ));
    let long: &[u8] = &[0u8; 300];
    let mut buf = [0u8; 3];
    assert!(matches!(
        multi::pack(&[long], &mut buf),
        Err(Error::BufferTooShort { needed: 300, available: 0 })
    ));
    assert_eq!(buf, [0xFF, 0x01, 0x2C]);
}

#[test]
fn multi_packet_packs_at_the_start_of_a_larger_buffer() {
    let heartbeat: &[u8] = &[0x00, 0x06];
    let ack: &[u8] = &[0x00, 0x11, 0x00, 0x05];
    let mut buf = [0xEEu8; 10];
    assert_eq!(multi::packed_size(&[heartbeat, ack]), 8);
    assert_eq!(multi::pack(&[heartbeat, ack], &mut buf).unwrap(), 8);
    assert_eq!(buf, [2, 0, 6, 4, 0, 0x11, 0, 5, 0xEE, 0xEE]);
}

struct Vector {
    key: &'static str,
    plain: &'static str,
    cipher: &'static [u8],
}

const VECTORS: &[Vector] = &[
    Vector {
        key: "Key",
        plain: "Plaintext",
        cipher: &[0xBB, 0xF3, 0x16, 0xE8, 0xD9, 0x40, 0xAF, 0x0A, 0xD3],
    },
    Vector {
        key: "Wiki",
        plain: "pedia",
        cipher: &[0x10, 0x21, 0xBF, 0x04, 0x20],
    },
    Vector {
        key: "Secret",
        plain: "Attack at dawn",
        cipher: &[
            0x45, 0xA0, 0x1F, 0x64, 0x5F, 0xC3, 0x5B, 0x38, 0x35, 0x52, 0x54, 0x4B, 0x9B, 0xF5,
        ],
    },
];

#[test]
fn test_encryption() {
    for v in VECTORS {
        let mut state = Rc4KeyState::new(v.key.as_bytes());
        let mut out = vec![0u8; v.plain.len()];
        state.transform(v.plain.as_bytes(), &mut out);
        assert_eq!(out, v.cipher, "key={}", v.key);
    }
}

#[test]
fn test_round_trip() {
    for v in VECTORS {
        let mut enc = Rc4KeyState::new(v.key.as_bytes());
        let mut dec = Rc4KeyState::new(v.key.as_bytes());
        let mut encrypted = vec![0u8; v.plain.len()];
        let mut decrypted = vec![0u8; v.plain.len()];
        enc.transform(v.plain.as_bytes(), &mut encrypted);
        dec.transform(&encrypted, &mut decrypted);
        assert_eq!(decrypted, v.plain.as_bytes());
    }
}

#[test]
fn test_existing_key_state() {
    // Transforming in two halves with one state must match transforming whole.
    for v in VECTORS {
        let half = v.cipher.len() / 2;
        let mut state = Rc4KeyState::new(v.key.as_bytes());
        let mut decrypted = vec![0u8; v.cipher.len()];
        state.transform(&v.cipher[..half], &mut decrypted[..half]);
        let mut tail = vec![0u8; v.cipher.len() - half];
        state.transform(&v.cipher[half..], &mut tail);
        decrypted[half..].copy_from_slice(&tail);
        assert_eq!(decrypted, v.plain.as_bytes());
    }
}

#[test]
fn test_advance() {
    let key = VECTORS[0].key.as_bytes();
    let mut values1 = [1u8, 2, 3];
    let mut values2 = [1u8, 2, 3];

    let mut state1 = Rc4KeyState::new(key);
    let mut state2 = Rc4KeyState::new(key);

    let copy = values1;
    state1.transform(&copy, &mut values1);

    state2.advance(2);
    let tail = [values2[2]];
    let mut out = [0u8];
    state2.transform(&tail, &mut out);
    values2[2] = out[0];

    assert_eq!(values1[2], values2[2]);
}

#[test]
fn clone_creates_full_copy() {
    let mut state = Rc4KeyState::new(&[0, 1, 2, 3, 4]);
    state.advance(7);
    let copied = state.clone();
    assert_eq!(state.key_state(), copied.key_state());
    assert_eq!(state.indices(), copied.indices());
}

#[test]
fn transform_in_place_matches_transform() {
    let mut a = Rc4KeyState::new(b"Key");
    let mut b = Rc4KeyState::new(b"Key");
    let mut in_place = *b"Plaintext";
    let mut out = [0xEEu8; 12];
    a.transform_in_place(&mut in_place);
    b.transform(b"Plaintext", &mut out);
    assert_eq!(&out[..9], &in_place);
    // What lies behind the input is left alone.
    assert_eq!(&out[9..], &[0xEE; 3]);
    assert_eq!(a.indices(), b.indices());
}

#[test]
fn advancing_twice_is_advancing_by_the_sum() {
    let mut a = Rc4KeyState::new(b"Key");
    let mut b = Rc4KeyState::new(b"Key");
    a.advance(300);
    a.advance(7);
    b.advance(307);
    assert_eq!(a.key_state(), b.key_state());
    assert_eq!(a.indices(), b.indices());
}

#[test]
fn deflate_inflate_round_trip() {
    let original = b"The quick brown fox jumps over the lazy dog. ".repeat(16);
    let compressed = deflate(&original).unwrap();
    let decompressed = inflate(&compressed).unwrap();
    assert_eq!(decompressed, original);
}

#[test]
fn empty_round_trip() {
    let compressed = deflate(&[]).unwrap();
    assert_eq!(inflate(&compressed).unwrap(), Vec::<u8>::new());
}

#[test]
fn compression_changes_the_data() {
    let original = [7u8; 200];
    let compressed = deflate(&original).unwrap();
    assert!(compressed.len() < original.len());
    assert!(matches!(inflate(&original), Err(Error::Zlib(_))));
}

#[test]
fn time_is_counted_in_nanoseconds() {
    let t = Instant::after_origin(Duration::from_secs(3));
    let u = Instant::after_origin(Duration::from_millis(3_500));
    assert_eq!(u.duration_since(t).as_nanos(), 500_000_000);
    assert!(t.duration_since(u).is_zero());
    assert_eq!(t.since_origin(), Duration::from_secs(3));
    assert_eq!(Duration::from_nanos(7).unwrap().as_nanos(), 7);
    assert!(Duration::from_nanos(u128::MAX).is_none());
}
