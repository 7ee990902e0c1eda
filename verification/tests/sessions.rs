//! Sessions that talk to each other, the multiplexer and the driver.

use bytes::Bytes;

use soe_protocol::constants::RELIABLE_CHANNEL_COUNT;
use soe_protocol::crc32::Crc32;
use soe_protocol::driver::{
    client_start, client_step, server_step, socket_step, ClientCommand, ClientEvent,
    ClientStep, ClientWake, Command, Step, Wake,
};
use soe_protocol::packet_utils::append_crc;
use soe_protocol::packets::{session_request, SessionResponse};
use soe_protocol::protocol::{DisconnectReason, OpCode};
use soe_protocol::rc4::Rc4KeyState;
use soe_protocol::session::{
    ApplicationParameters, Channel, SessionEvent, SessionMode, SessionParameters, SessionState,
    SoeSession,
};
use soe_protocol::socket::{SocketConfig, SocketEvent, SoeMultiplexer};
use soe_protocol::time::{Duration, Instant};
use soe_protocol::zlib::deflate;

fn start() -> Instant {
    Instant::after_origin(Duration::from_secs(1_000))
}

fn later(millis: u64) -> Instant {
    Instant::after_origin(Duration::from_millis(1_000_000 + millis))
}

fn params(protocol: &str) -> SessionParameters {
    SessionParameters {
        application_protocol: protocol.to_owned(),
        // Keep the window small so fragmentation/windowing is exercised.
        max_queued_incoming_reliable: 32,
        max_queued_outgoing_reliable: 32,
        // Disable heartbeats/timeouts for deterministic tests.
        heartbeat_after: Duration::zero(),
        inactivity_timeout: Duration::zero(),
        ..SessionParameters::default()
    }
}

/// Drives a full negotiation handshake, returning the two running sessions.
fn negotiate(now: Instant) -> (SoeSession, SoeSession) {
    let mut client = SoeSession::new(
        SessionMode::Client,
        params("TestProtocol"),
        ApplicationParameters::default(),
        1,
        now,
    );
    let mut server = SoeSession::new(
        SessionMode::Server,
        params("TestProtocol"),
        ApplicationParameters::default(),
        2,
        now,
    );

    client.send_session_request();
    pump(&mut client, &mut server, now);

    (client, server)
}

/// Moves all queued datagrams between the two sessions until neither has any more to send.
fn pump(a: &mut SoeSession, b: &mut SoeSession, now: Instant) {
    loop {
        let from_a = a.take_outgoing();
        let from_b = b.take_outgoing();
        if from_a.is_empty() && from_b.is_empty() {
            break;
        }
        for dg in from_a {
            b.process_incoming(dg, now);
        }
        for dg in from_b {
            a.process_incoming(dg, now);
        }
    }
}

fn generate(size: usize) -> Vec<u8> {
    let mut state: u32 = 0x1234_5678 ^ size as u32;
    (0..size)
        .map(|_| {
            state = state.wrapping_mul(1_664_525).wrapping_add(1_013_904_223);
            (state >> 24) as u8
        })
        .collect()
}

#[test]
fn negotiation_establishes_running_session() {
    let now = start();
    let (mut client, mut server) = negotiate(now);

    assert_eq!(client.state(), SessionState::Running);
    assert_eq!(server.state(), SessionState::Running);
    assert_eq!(client.session_id(), server.session_id());
    // Both parties agreed on the server's CRC seed.
    assert_ne!(server.crc_seed(), 0);
    assert_eq!(client.crc_seed(), server.crc_seed());

    assert!(client.take_events().contains(&SessionEvent::Opened));
    // The server only opens the session once it receives its first packet after sending the
    // response. Drive one more packet.
    assert!(client.enqueue_data(b"hi"));
    client.run_tick(now);
    pump(&mut client, &mut server, now);
    assert!(server.take_events().contains(&SessionEvent::Opened));
}

#[test]
fn protocol_mismatch_terminates() {
    let now = start();
    let mut client = SoeSession::new(
        SessionMode::Client,
        params("ClientProtocol"),
        ApplicationParameters::default(),
        1,
        now,
    );
    let mut server = SoeSession::new(
        SessionMode::Server,
        params("ServerProtocol"),
        ApplicationParameters::default(),
        2,
        now,
    );

    client.send_session_request();
    pump(&mut client, &mut server, now);

    assert_eq!(server.state(), SessionState::Terminated);
    assert_eq!(
        server.termination_reason(),
        DisconnectReason::ProtocolMismatch
    );
    // The server rejects before a CRC seed is agreed, so it cannot send a valid contextual
    // Disconnect; the client stays in negotiation and would later time out.
    assert_eq!(client.state(), SessionState::Negotiating);
}

#[test]
fn round_trips_small_and_large_data() {
    let now = start();
    let (mut client, mut server) = negotiate(now);

    let small = generate(5);
    let large = generate(2000); // forces fragmentation

    assert!(client.enqueue_data(&small));
    assert!(client.enqueue_data(&large));

    client.run_tick(now);
    pump(&mut client, &mut server, now);

    let received = server.take_received();
    assert_eq!(received.len(), 2);
    assert_eq!(&received[0].data[..], &small[..]);
    assert_eq!(&received[1].data[..], &large[..]);
}

#[test]
fn round_trips_data_both_directions() {
    let now = start();
    let (mut client, mut server) = negotiate(now);

    let to_server = generate(1500);
    let to_client = generate(800);

    assert!(client.enqueue_data(&to_server));
    assert!(server.enqueue_data(&to_client));
    client.run_tick(now);
    server.run_tick(now);
    pump(&mut client, &mut server, now);

    assert_eq!(&server.take_received()[0].data[..], &to_server[..]);
    assert_eq!(&client.take_received()[0].data[..], &to_client[..]);
}

#[test]
fn round_trips_unreliable_data() {
    let now = start();
    let (mut client, mut server) = negotiate(now);

    // A payload whose first byte is non-zero is sent raw, with no OP code.
    let payload = [0x42u8, 1, 2, 3, 4];
    assert!(client.enqueue_data_on(&payload, Channel::Unreliable));
    pump(&mut client, &mut server, now);

    let received = server.take_received();
    assert_eq!(received.len(), 1);
    assert_eq!(&received[0].data[..], &payload[..]);
    assert_eq!(received[0].channel, Channel::Unreliable);
    // An unreliable packet is never acknowledged, so nothing flows back.
    assert!(client.take_received().is_empty());
    assert_eq!(server.state(), SessionState::Running);
}

#[test]
fn round_trips_zero_escaped_unreliable_data() {
    let now = start();
    let (mut client, mut server) = negotiate(now);

    // A payload that begins with 0x00 must be zero-escaped on the wire, then reconstructed
    // exactly on receipt.
    let payload = [0x00u8, 0x09, 0xff, 0x00];
    assert!(client.enqueue_data_on(&payload, Channel::Unreliable));
    pump(&mut client, &mut server, now);

    let received = server.take_received();
    assert_eq!(received.len(), 1);
    assert_eq!(&received[0].data[..], &payload[..]);
    assert_eq!(received[0].channel, Channel::Unreliable);
    assert_eq!(server.state(), SessionState::Running);
}

#[test]
fn inbound_unreliable_does_not_terminate_session() {
    let now = start();
    let (mut client, mut server) = negotiate(now);

    // An inbound packet with no recognised OP code (a non-zero lead byte) is no corruption;
    // it must be delivered.
    assert!(client.enqueue_data_on(b"\x05hello world", Channel::Unreliable));
    pump(&mut client, &mut server, now);

    assert_eq!(server.state(), SessionState::Running);
    assert_eq!(server.take_received().len(), 1);
    // The only event is the session opening on first contact; crucially, no
    // CorruptPacket-driven Closed event.
    assert!(server
        .take_events()
        .iter()
        .all(|e| matches!(e, SessionEvent::Opened)));
}

#[test]
fn oversized_unreliable_is_promoted_to_reliable() {
    let now = start();
    let (mut client, mut server) = negotiate(now);

    // Larger than the remote's UDP payload: must fall back to the reliable channel (which
    // fragments) rather than be dropped, and must still be acknowledged.
    let payload = generate(2000);
    assert!(client.enqueue_data_on(&payload, Channel::Unreliable));
    client.run_tick(now);
    pump(&mut client, &mut server, now);

    let received = server.take_received();
    assert_eq!(received.len(), 1);
    assert_eq!(&received[0].data[..], &payload[..]);
    // Promotion means it travelled reliably.
    assert_eq!(received[0].channel, Channel::Reliable(0));
}

#[test]
fn round_trips_data_on_multiple_reliable_channels() {
    let now = start();
    // Use an encrypted session so the test also proves each channel runs an independent RC4
    // stream cloned from the same initial key: output[ch] on the client stays in sync with
    // input[ch] on the server only if the per-channel ciphers are seeded identically and
    // advanced independently.
    let key = Rc4KeyState::new(&[9, 8, 7, 6, 5]);
    let app = ApplicationParameters {
        encryption_key_state: Some(key),
    };
    let mut client = SoeSession::new(
        SessionMode::Client,
        params("TestProtocol"),
        app.clone(),
        1,
        now,
    );
    let mut server = SoeSession::new(SessionMode::Server, params("TestProtocol"), app, 2, now);
    client.send_session_request();
    pump(&mut client, &mut server, now);

    // Each reliable channel has its own sequence space and cipher stream; data sent on
    // different channels must each arrive intact and be tagged with the channel it travelled
    // on.
    let on_zero = generate(1500);
    let on_one = generate(800);
    let on_three = generate(1200);

    assert!(client.enqueue_data_on(&on_zero, Channel::Reliable(0)));
    assert!(client.enqueue_data_on(&on_one, Channel::Reliable(1)));
    assert!(client.enqueue_data_on(&on_three, Channel::Reliable(3)));
    client.run_tick(now);
    pump(&mut client, &mut server, now);

    let mut received = server.take_received();
    // Order across channels is not guaranteed; index by the channel tag.
    received.sort_by_key(|r| match r.channel {
        Channel::Reliable(ch) => ch,
        Channel::Unreliable => usize::MAX,
    });
    assert_eq!(received.len(), 3);
    assert_eq!(received[0].channel, Channel::Reliable(0));
    assert_eq!(&received[0].data[..], &on_zero[..]);
    assert_eq!(received[1].channel, Channel::Reliable(1));
    assert_eq!(&received[1].data[..], &on_one[..]);
    assert_eq!(received[2].channel, Channel::Reliable(3));
    assert_eq!(&received[2].data[..], &on_three[..]);
    assert_eq!(server.state(), SessionState::Running);
}

#[test]
fn enqueue_on_out_of_range_reliable_channel_is_dropped() {
    let now = start();
    let (mut client, _server) = negotiate(now);

    // Channel indices are bounded by RELIABLE_CHANNEL_COUNT; an out-of-range index drops the
    // data (reported via a `false` return) rather than panicking.
    assert!(!client.enqueue_data_on(b"nope", Channel::Reliable(RELIABLE_CHANNEL_COUNT)));
    client.run_tick(now);
    assert!(client.take_outgoing().is_empty());
}

/// A `MultiPacket` bundle whose first sub-packet corrupts the session must not have its
/// remaining sub-packets processed: once a sub-packet terminates the session, the bundle loop
/// short-circuits rather than delivering data on a dead session.
#[test]
fn multi_packet_stops_after_sub_packet_terminates() {
    let now = start();
    let (_client, mut server) = negotiate(now);
    assert_eq!(server.state(), SessionState::Running);

    // Build a MultiPacket body with two sub-packets:
    //   1. a corrupt master ReliableDataFragment (only 2 of the required 4 total-length
    //      bytes) -> terminates the session as CorruptPacket;
    //   2. an otherwise-valid ReliableData carrying "hi".
    // Each sub-packet is `[length][op-code (2 BE)][sub-payload]`; lengths < 256 encode as a
    // single byte.
    let mut body = Vec::new();

    // Sub-packet 1: ReliableDataFragment, sequence 0, truncated length prefix.
    let sub1 = [0x00, 0x0D, 0x00, 0x00, 0xAB, 0xCD];
    body.push(sub1.len() as u8);
    body.extend_from_slice(&sub1);

    // Sub-packet 2: ReliableData, sequence 0, payload "hi".
    let sub2 = [0x00, 0x09, 0x00, 0x00, b'h', b'i'];
    body.push(sub2.len() as u8);
    body.extend_from_slice(&sub2);

    server.handle_contextual_inner(OpCode::MultiPacket, 0, Bytes::from(body), now);

    assert_eq!(server.state(), SessionState::Terminated);
    assert_eq!(server.termination_reason(), DisconnectReason::CorruptPacket);
    // The second sub-packet must never have reached the input channel.
    assert!(
        server.input_channel(0, now).take_app_data().is_empty(),
        "data after a terminating sub-packet was processed"
    );
    assert!(server.take_received().is_empty());
}

#[test]
fn disconnect_notifies_remote() {
    let now = start();
    let (mut client, mut server) = negotiate(now);

    client.terminate(DisconnectReason::Application, true, now);
    assert_eq!(client.state(), SessionState::Terminated);

    pump(&mut client, &mut server, now);
    assert_eq!(server.state(), SessionState::Terminated);
    assert_eq!(server.termination_reason(), DisconnectReason::Application);
    assert!(server.terminated_by_remote());
}

#[test]
fn encrypted_data_round_trips() {
    let now = start();
    let key = Rc4KeyState::new(&[1, 2, 3, 4, 5]);
    let app = ApplicationParameters {
        encryption_key_state: Some(key),
    };

    let mut client = SoeSession::new(
        SessionMode::Client,
        params("TestProtocol"),
        app.clone(),
        1,
        now,
    );
    let mut server = SoeSession::new(SessionMode::Server, params("TestProtocol"), app, 2, now);

    client.send_session_request();
    pump(&mut client, &mut server, now);

    let data = generate(1200);
    assert!(client.enqueue_data(&data));
    client.run_tick(now);
    pump(&mut client, &mut server, now);

    assert_eq!(&server.take_received()[0].data[..], &data[..]);
}

#[test]
fn acknowledgements_empty_the_sender() {
    let (mut client, mut server) = negotiate(start());
    assert!(client.enqueue_data(b"hello"));
    client.run_tick(start());
    pump(&mut client, &mut server, start());
    // The server acknowledges with its next tick, and the client then has nothing to resend.
    server.run_tick(later(10));
    pump(&mut client, &mut server, later(10));
    client.run_tick(later(5_000));
    assert!(client.take_outgoing().is_empty());
}

#[test]
fn terminated_session_is_inert() {
    let now = start();
    let (mut client, mut server) = negotiate(now);
    assert!(server.enqueue_data(b"late"));
    server.run_tick(now);
    let late = server.take_outgoing();
    client.terminate(DisconnectReason::Application, false, now);
    assert!(client.take_outgoing().is_empty());
    let _ = client.take_events();
    for dg in late {
        client.process_incoming(dg, now);
    }
    client.run_tick(later(100_000));
    client.terminate(DisconnectReason::Timeout, true, now);
    client.send_session_request();
    assert!(!client.enqueue_data(b"x"));
    assert!(client.take_outgoing().is_empty());
    assert!(client.take_events().is_empty());
    assert!(client.take_received().is_empty());
    assert_eq!(client.termination_reason(), DisconnectReason::Application);
}

#[test]
fn wrong_crc_terminates_reliable_and_drops_unreliable() {
    let now = start();
    let (mut client, mut server) = negotiate(now);
    assert!(client.enqueue_data_on(b"\x42data", Channel::Unreliable));
    let mut bytes = client.take_outgoing()[0].to_vec();
    let last = bytes.len() - 1;
    bytes[last] ^= 1;
    server.process_incoming(Bytes::from(bytes), now);
    assert_eq!(server.state(), SessionState::Running);
    assert!(server.take_received().is_empty());

    assert!(client.enqueue_data(b"data"));
    client.run_tick(now);
    let mut bytes = client.take_outgoing()[0].to_vec();
    bytes[3] ^= 1;
    server.process_incoming(Bytes::from(bytes), now);
    assert_eq!(server.state(), SessionState::Terminated);
    assert_eq!(server.termination_reason(), DisconnectReason::CorruptPacket);
    assert_eq!(
        server.take_events(),
        vec![SessionEvent::Closed(DisconnectReason::CorruptPacket)]
    );
    // The remote is told.
    pump(&mut server, &mut client, now);
    assert_eq!(client.termination_reason(), DisconnectReason::CorruptPacket);
    assert!(client.terminated_by_remote());
}

#[test]
fn heartbeats_are_sent_and_answered() {
    let now = start();
    let mut p = params("TestProtocol");
    p.heartbeat_after = Duration::from_secs(25);
    p.inactivity_timeout = Duration::from_secs(30);
    let mut client = SoeSession::new(
        SessionMode::Client,
        p.clone(),
        ApplicationParameters::default(),
        1,
        now,
    );
    let mut server =
        SoeSession::new(SessionMode::Server, p, ApplicationParameters::default(), 2, now);
    client.send_session_request();
    pump(&mut client, &mut server, now);
    assert_eq!(client.mode(), SessionMode::Client);

    client.run_tick(later(25_000));
    assert!(client.take_outgoing().is_empty());
    client.run_tick(later(25_001));
    let beat = client.take_outgoing();
    assert_eq!(beat.len(), 1);
    assert_eq!(&beat[0][..2], &[0, 6]);
    server.process_incoming(beat[0].clone(), later(25_001));
    let answer = server.take_outgoing();
    assert_eq!(answer, beat);
    client.process_incoming(answer[0].clone(), later(25_002));
    // The answer counts as a sign of life, and is not answered.
    assert!(client.take_outgoing().is_empty());
    client.run_tick(later(40_000));
    assert_eq!(client.state(), SessionState::Running);
    client.run_tick(later(55_003));
    assert_eq!(client.state(), SessionState::Terminated);
    assert_eq!(client.termination_reason(), DisconnectReason::Timeout);
}

#[test]
fn unexpected_handshake_packets_terminate() {
    let now = start();
    let (mut client, mut server) = negotiate(now);
    let response = SessionResponse {
        session_id: 1,
        crc_seed: 2,
        crc_length: 2,
        is_compression_enabled: false,
        unknown_value_1: 0,
        udp_length: 512,
        soe_protocol_version: 3,
    };
    let mut buf = [0u8; SessionResponse::SIZE];
    response.serialize(&mut buf).unwrap();
    server.process_incoming(Bytes::copy_from_slice(&buf), now);
    assert_eq!(server.termination_reason(), DisconnectReason::ConnectingToSelf);
    client.process_incoming(Bytes::copy_from_slice(&buf), now);
    assert_eq!(client.termination_reason(), DisconnectReason::ConnectError);

    let (mut client, _) = negotiate(now);
    client.process_incoming(Bytes::from(vec![0u8, 0x1D]), now);
    assert_eq!(
        client.termination_reason(),
        DisconnectReason::UnreachableConnection
    );

    let mut fresh = SoeSession::new(
        SessionMode::Client,
        params("P"),
        ApplicationParameters::default(),
        3,
        now,
    );
    fresh.send_session_request();
    let mut wrong = buf;
    wrong[20] = 2;
    fresh.process_incoming(Bytes::copy_from_slice(&wrong), now);
    assert_eq!(fresh.termination_reason(), DisconnectReason::ProtocolMismatch);
}

#[test]
fn unusable_negotiation_is_noticed() {
    let now = start();
    let mut client = SoeSession::new(
        SessionMode::Client,
        params("P"),
        ApplicationParameters::default(),
        3,
        now,
    );
    client.send_session_request();
    assert!(client.is_usable());
    let response = SessionResponse {
        session_id: 1,
        crc_seed: 2,
        crc_length: 9,
        is_compression_enabled: false,
        unknown_value_1: 0,
        udp_length: 512,
        soe_protocol_version: 3,
    };
    let mut buf = [0u8; SessionResponse::SIZE];
    response.serialize(&mut buf).unwrap();
    client.process_incoming(Bytes::copy_from_slice(&buf), now);
    assert_eq!(client.state(), SessionState::Running);
    assert!(!client.is_usable());
    assert!(!client.has_room_for(b"x", Channel::Unreliable));
}

#[test]
fn reliable_packets_fit_the_remote() {
    let now = start();
    let mut large = params("TestProtocol");
    large.udp_length = 1024;
    let mut client = SoeSession::new(
        SessionMode::Client,
        params("TestProtocol"),
        ApplicationParameters::default(),
        1,
        now,
    );
    let mut server =
        SoeSession::new(SessionMode::Server, large, ApplicationParameters::default(), 2, now);
    client.send_session_request();
    pump(&mut client, &mut server, now);

    // The server can receive 1024 bytes, the client 512: the server sends no more than that.
    let payload = generate(900);
    assert!(server.enqueue_data_on(&payload, Channel::Unreliable));
    server.run_tick(now);
    let sent = server.take_outgoing();
    // The first packet carries 502 bytes behind its sequence and the total length.
    assert_eq!(sent.iter().map(|dg| dg.len()).collect::<Vec<_>>(), vec![512, 398 + 6]);
    for dg in sent {
        client.process_incoming(dg, now);
    }
    assert_eq!(&client.take_received()[0].data[..], &payload[..]);

    // The client may send larger packets.
    let payload = generate(900);
    assert!(client.enqueue_data(&payload));
    client.run_tick(now);
    let sent = client.take_outgoing();
    assert_eq!(sent.len(), 1);
    assert_eq!(sent[0].len(), 906);
}

#[test]
fn a_session_goes_on_with_a_remote_without_room() {
    let now = start();
    let mut mux = SoeMultiplexer::new(SocketConfig {
        default_session_params: SessionParameters {
            remote_udp_length: 0,
            ..params("Game")
        },
        ..SocketConfig::default()
    });
    mux.connect(9, now);
    assert_eq!(mux.session_count(), 1);
    let response = SessionResponse {
        session_id: 1,
        crc_seed: 2,
        crc_length: 2,
        is_compression_enabled: false,
        unknown_value_1: 0,
        udp_length: 3,
        soe_protocol_version: 3,
    };
    let mut buf = [0u8; SessionResponse::SIZE];
    response.serialize(&mut buf).unwrap();
    mux.process_incoming(9, Bytes::copy_from_slice(&buf), now);
    let mut data = vec![0u8, 9, 0, 0, b'x', 0, 0];
    append_crc(&mut data, 5, &Crc32::new(2), 2).unwrap();
    mux.process_incoming(9, Bytes::from(data), now);
    assert_eq!(
        mux.take_events(),
        vec![
            SocketEvent::SessionOpened { remote: 9 },
            SocketEvent::DataReceived {
                remote: 9,
                data: Bytes::from_static(b"x"),
                channel: Channel::Reliable(0),
            },
        ]
    );
    assert_eq!(mux.session_count(), 1);
    // A single byte fits into an unreliable packet; nothing can be sent reliably.
    assert!(mux.enqueue_data_on(9, b"y", Channel::Unreliable));
    assert!(!mux.enqueue_data_on(9, b"yz", Channel::Unreliable));
    assert!(!mux.enqueue_data(9, b"y"));
}

#[test]
fn unframable_sessions_are_let_go() {
    let now = start();
    let mut mux = SoeMultiplexer::new(config(3));
    mux.connect(9, now);
    let response = SessionResponse {
        session_id: 1,
        crc_seed: 2,
        crc_length: 5,
        is_compression_enabled: false,
        unknown_value_1: 0,
        udp_length: 512,
        soe_protocol_version: 3,
    };
    let mut buf = [0u8; SessionResponse::SIZE];
    response.serialize(&mut buf).unwrap();
    mux.process_incoming(9, Bytes::copy_from_slice(&buf), now);
    assert_eq!(
        mux.take_events(),
        vec![
            SocketEvent::SessionOpened { remote: 9 },
            SocketEvent::SessionClosed {
                remote: 9,
                reason: DisconnectReason::ConnectError,
            },
        ]
    );
    assert_eq!(mux.session_count(), 0);
}

#[test]
fn small_data_is_accepted_for_a_remote_with_little_room() {
    let now = start();
    let mut server = SoeMultiplexer::new(config(1));
    let request = session_request(7, 8, "Game");
    let mut buf = vec![0u8; request.size()];
    request.serialize(&mut buf).unwrap();
    server.process_incoming(4, Bytes::from(buf), now);
    let _ = server.take_outgoing();
    assert!(server.enqueue_data_on(4, b"ab", Channel::Unreliable));
    assert_eq!(server.take_outgoing()[0].1.len(), 4);
    // OP code, sequence and check value leave two bytes for reliable data.
    assert!(server.enqueue_data(4, b"ab"));
    assert!(!server.enqueue_data(4, b"abc"));
    server.run_tick(now);
    assert_eq!(server.take_outgoing()[0].1.len(), 8);
}

#[test]
fn acknowledgements_without_a_channel_are_ignored_without_room() {
    let now = start();
    let mut p = params("TestProtocol");
    p.remote_udp_length = 0;
    let mut session = SoeSession::new(
        SessionMode::Client,
        p,
        ApplicationParameters::default(),
        1,
        now,
    );
    assert!(session.is_usable());
    let mut ack = vec![0u8, 0x15, 0, 3, 0, 0];
    append_crc(&mut ack, 4, &Crc32::new(0), 2).unwrap();
    session.process_incoming(Bytes::from(ack), now);
    assert_eq!(session.state(), SessionState::Negotiating);
}

#[test]
fn a_session_that_never_opened_ends_without_an_event() {
    let now = start();
    let mut mux = SoeMultiplexer::new(config(2));
    let _ = client_start(&mut mux, 9, now);
    let wake = ClientWake::Command(ClientCommand::Terminate {
        reason: DisconnectReason::Application,
    });
    match client_step(&mut mux, 9, wake, now) {
        ClientStep::Proceed { events, .. } => assert!(events.is_empty()),
        _ => panic!("must proceed"),
    }
    assert_eq!(mux.session_count(), 0);
}

#[test]
fn compressed_packets_are_understood() {
    let now = start();
    let mut p = params("TestProtocol");
    p.is_compression_enabled = true;
    let mut client = SoeSession::new(
        SessionMode::Client,
        p.clone(),
        ApplicationParameters::default(),
        1,
        now,
    );
    let mut server =
        SoeSession::new(SessionMode::Server, p, ApplicationParameters::default(), 2, now);
    client.send_session_request();
    pump(&mut client, &mut server, now);
    assert!(client.enqueue_data(b"plain"));
    client.run_tick(now);
    let sent = client.take_outgoing();
    // OP code, compression flag, sequence, data, CRC.
    assert_eq!(&sent[0][..10], &[0, 9, 0, 0, 0, b'p', b'l', b'a', b'i', b'n']);
    for dg in sent {
        server.process_incoming(dg, now);
    }
    assert_eq!(&server.take_received()[0].data[..], b"plain");

    let crc = Crc32::new(server.crc_seed());
    let mut packet = vec![0u8, 9, 1];
    packet.extend_from_slice(&deflate(&[0, 1, b'z', b'i', b'p']).unwrap());
    let written = packet.len();
    packet.extend_from_slice(&[0, 0]);
    append_crc(&mut packet, written, &crc, 2).unwrap();
    server.process_incoming(Bytes::from(packet), now);
    assert_eq!(&server.take_received()[0].data[..], b"zip");

    let mut packet = vec![0u8, 9, 1, 5, 5, 5];
    let written = packet.len();
    packet.extend_from_slice(&[0, 0]);
    append_crc(&mut packet, written, &crc, 2).unwrap();
    server.process_incoming(Bytes::from(packet), now);
    assert_eq!(server.termination_reason(), DisconnectReason::CorruptPacket);
}

#[test]
fn bundles_deliver_each_packet() {
    let now = start();
    let (_client, mut server) = negotiate(now);
    let body = [6, 0, 9, 0, 0, b'h', b'i', 5, 0, 9, 0, 1, b'!'];
    server.handle_contextual_inner(OpCode::MultiPacket, 0, Bytes::copy_from_slice(&body), now);
    let data = server.input_channel(0, now).take_app_data();
    assert_eq!(data, vec![Bytes::from_static(b"hi"), Bytes::from_static(b"!")]);
    // A malformed bundle is corruption.
    server.handle_contextual_inner(
        OpCode::MultiPacket,
        0,
        Bytes::copy_from_slice(&[9, 0, 9]),
        now,
    );
    assert_eq!(server.termination_reason(), DisconnectReason::CorruptPacket);
}

fn config(seed: u64) -> SocketConfig {
    SocketConfig {
        default_session_params: params("Game"),
        rng_seed: seed,
        ..SocketConfig::default()
    }
}

#[test]
fn multiplexer_keeps_sessions_apart() {
    let now = start();
    let mut server = SoeMultiplexer::new(config(1));
    let mut clients = [SoeMultiplexer::new(config(10)), SoeMultiplexer::new(config(20))];
    for c in clients.iter_mut() {
        c.connect(0, now);
    }
    let mut server_events = Vec::new();
    let mut client_events = [Vec::new(), Vec::new()];
    for round in 0..6 {
        for (i, c) in clients.iter_mut().enumerate() {
            if round == 2 {
                let _ = c.enqueue_data(0, &[i as u8, 7]);
            }
            c.run_tick(now);
            for (_, dg) in c.take_outgoing() {
                server.process_incoming(100 + i as u64, dg, now);
            }
            client_events[i].extend(c.take_events());
        }
        server.run_tick(now);
        for (remote, dg) in server.take_outgoing() {
            clients[(remote - 100) as usize].process_incoming(0, dg, now);
        }
        server_events.extend(server.take_events());
    }
    assert_eq!(server.session_count(), 2);
    for i in 0..2u64 {
        assert!(matches!(
            client_events[i as usize][0],
            SocketEvent::SessionOpened { remote: 0 }
        ));
        let of_remote: Vec<&SocketEvent> = server_events
            .iter()
            .filter(|e| match e {
                SocketEvent::SessionOpened { remote } => *remote == 100 + i,
                SocketEvent::DataReceived { remote, .. } => *remote == 100 + i,
                SocketEvent::SessionClosed { remote, .. } => *remote == 100 + i,
            })
            .collect();
        assert_eq!(of_remote.len(), 2);
        assert_eq!(of_remote[0], &SocketEvent::SessionOpened { remote: 100 + i });
        assert_eq!(
            of_remote[1],
            &SocketEvent::DataReceived {
                remote: 100 + i,
                data: Bytes::from(vec![i as u8, 7]),
                channel: Channel::Reliable(0),
            }
        );
    }
    // Ending one session leaves the other.
    server.terminate(100, DisconnectReason::Application, now);
    assert_eq!(server.session_count(), 1);
    assert!(!server.enqueue_data(100, b"x"));
    assert!(server.enqueue_data_on(101, b"x", Channel::Unreliable));
    let out = server.take_outgoing();
    assert_eq!(out.iter().map(|(r, _)| *r).collect::<Vec<_>>(), vec![100, 101]);
}

#[test]
fn multiplexer_answers_unknown_senders() {
    let now = start();
    let mut mux = SoeMultiplexer::new(config(1));
    mux.process_incoming(5, Bytes::from(vec![0u8, 6, 0, 0]), now);
    assert_eq!(mux.take_outgoing(), vec![(5, Bytes::from(vec![0u8, 0x1D]))]);
    mux.process_incoming(5, Bytes::from(vec![0u8, 0x1D]), now);
    assert!(mux.take_outgoing().is_empty());
    assert_eq!(mux.session_count(), 0);
}

#[test]
fn data_waits_for_the_opening() {
    let now = start();
    let mut client = SoeMultiplexer::new(config(3));
    client.connect(9, now);
    let _ = client.take_outgoing();
    // Reliable data that arrives while the session is being negotiated.
    let mut early = vec![0u8, 9, 0, 0, b'x', 0, 0];
    append_crc(&mut early, 5, &Crc32::new(0), 2).unwrap();
    client.process_incoming(9, Bytes::from(early), now);
    assert!(client.take_events().is_empty());

    let response = SessionResponse {
        session_id: 1,
        crc_seed: 2,
        crc_length: 2,
        is_compression_enabled: false,
        unknown_value_1: 0,
        udp_length: 512,
        soe_protocol_version: 3,
    };
    let mut buf = [0u8; SessionResponse::SIZE];
    response.serialize(&mut buf).unwrap();
    client.process_incoming(9, Bytes::copy_from_slice(&buf), now);
    assert_eq!(
        client.take_events(),
        vec![
            SocketEvent::SessionOpened { remote: 9 },
            SocketEvent::DataReceived {
                remote: 9,
                data: Bytes::from_static(b"x"),
                channel: Channel::Reliable(0),
            },
        ]
    );
    // Data that arrives together with the end comes before it.
    let mut last = vec![0u8, 3, 6, 0, 9, 0, 1, b'y', b'z', 8, 0, 5, 0, 0, 0, 1, 0, 6, 0, 0];
    append_crc(&mut last, 18, &Crc32::new(2), 2).unwrap();
    client.process_incoming(9, Bytes::from(last), now);
    assert_eq!(
        client.take_events(),
        vec![
            SocketEvent::DataReceived {
                remote: 9,
                data: Bytes::from_static(b"yz"),
                channel: Channel::Reliable(0),
            },
            SocketEvent::SessionClosed {
                remote: 9,
                reason: DisconnectReason::Application,
            },
        ]
    );
    assert_eq!(client.session_count(), 0);
}

#[test]
fn corrupt_unreliable_packets_are_no_sign_of_life() {
    let now = start();
    let mut p = params("TestProtocol");
    p.inactivity_timeout = Duration::from_secs(30);
    let mut client = SoeSession::new(
        SessionMode::Client,
        p.clone(),
        ApplicationParameters::default(),
        1,
        now,
    );
    let mut server =
        SoeSession::new(SessionMode::Server, p, ApplicationParameters::default(), 2, now);
    client.send_session_request();
    pump(&mut client, &mut server, now);
    server.process_incoming(Bytes::from_static(b"\x42abc\x00\x00"), later(20_000));
    assert!(server.take_received().is_empty());
    server.run_tick(later(30_000));
    assert_eq!(server.state(), SessionState::Running);
    server.run_tick(later(30_001));
    assert_eq!(server.termination_reason(), DisconnectReason::Timeout);
    assert!(!server.terminated_by_remote());
}

#[test]
fn drivers_connect_and_talk() {
    let now = start();
    let mut server = SoeMultiplexer::new(config(1));
    let mut client = SoeMultiplexer::new(config(2));
    let mut to_server = client_start(&mut client, 9, now);
    assert_eq!(to_server.len(), 1);
    let mut seen = Vec::new();
    for round in 0..6 {
        let mut to_client = Vec::new();
        for dg in to_server.drain(..) {
            match server_step(&mut server, Wake::Datagram { remote: 4, datagram: dg }, now) {
                Step::Proceed { outgoing, .. } => to_client.extend(outgoing),
                _ => panic!("must proceed"),
            }
        }
        let wake = match round {
            1 => Wake::Command(Command::EnqueueData {
                remote: 4,
                data: Bytes::from_static(b"news"),
                channel: Channel::Reliable(2),
            }),
            4 => Wake::Command(Command::Terminate {
                remote: 4,
                reason: DisconnectReason::Application,
            }),
            _ => Wake::Tick,
        };
        match server_step(&mut server, wake, now) {
            Step::Proceed { outgoing, .. } => to_client.extend(outgoing),
            _ => panic!("must proceed"),
        }
        for (remote, dg) in to_client {
            assert_eq!(remote, 4);
            match client_step(&mut client, 9, ClientWake::Datagram(dg), now) {
                ClientStep::Proceed { outgoing, events } => {
                    to_server.extend(outgoing);
                    seen.extend(events);
                }
                _ => panic!("must proceed"),
            }
        }
        match client_step(&mut client, 9, ClientWake::Tick, now) {
            ClientStep::Proceed { outgoing, events } => {
                to_server.extend(outgoing);
                seen.extend(events);
            }
            _ => panic!("must proceed"),
        }
    }
    assert_eq!(
        seen,
        vec![
            ClientEvent::Connected,
            ClientEvent::DataReceived {
                data: Bytes::from_static(b"news"),
                channel: Channel::Reliable(2),
            },
            ClientEvent::Disconnected {
                reason: DisconnectReason::Application,
            },
        ]
    );
    assert_eq!(seen[1].clone(), seen[1]);
}

#[test]
fn drivers_skip_and_stop() {
    let now = start();
    let mut mux = SoeMultiplexer::new(config(1));
    assert!(matches!(server_step(&mut mux, Wake::ReceiveFailed, now), Step::Skip));
    assert!(matches!(server_step(&mut mux, Wake::CommandsClosed, now), Step::Stop));
    assert!(matches!(
        client_step(&mut mux, 1, ClientWake::ReceiveFailed, now),
        ClientStep::Skip
    ));
    assert!(matches!(
        client_step(&mut mux, 1, ClientWake::CommandsClosed, now),
        ClientStep::Stop
    ));
    // Commands for a session that does not exist do nothing.
    let wake = ClientWake::Command(ClientCommand::EnqueueData {
        data: Bytes::from_static(b"x"),
        channel: Channel::Reliable(0),
    });
    match client_step(&mut mux, 1, wake, now) {
        ClientStep::Proceed { outgoing, events } => {
            assert!(outgoing.is_empty() && events.is_empty());
        }
        _ => panic!("must proceed"),
    }
    let wake = ClientWake::Command(ClientCommand::Terminate {
        reason: DisconnectReason::Application,
    });
    assert!(matches!(
        client_step(&mut mux, 1, wake, now),
        ClientStep::Proceed { .. }
    ));
    match server_step(&mut mux, Wake::Command(Command::Connect(3)), now) {
        Step::Proceed { outgoing, .. } => assert_eq!(outgoing.len(), 1),
        _ => panic!("must proceed"),
    }
}

#[test]
fn socket_steps_process_and_tick() {
    let now = start();
    let mut client = SoeMultiplexer::new(config(1));
    let mut server = SoeMultiplexer::new(config(2));
    client.connect(1, now);
    let (outgoing, events) = socket_step(&mut client, None, now, now);
    assert_eq!((outgoing.len(), events.len()), (1, 0));
    let (reply, _) = socket_step(&mut server, Some((7, outgoing[0].1.clone())), now, now);
    assert_eq!(reply.len(), 1);
    let (_, events) = socket_step(&mut client, Some((1, reply[0].1.clone())), now, now);
    assert_eq!(events, vec![SocketEvent::SessionOpened { remote: 1 }]);
}
