//! The reliable channels: fragmentation, retransmission, ordering and reassembly.

use bytes::Bytes;

use soe_protocol::channel::{
    true_incoming_sequence, CorruptData, InputConfig, OutgoingReliable, OutputConfig,
    ReliableDataInputChannel, ReliableDataOutputChannel,
};
use soe_protocol::protocol::OpCode;
use soe_protocol::rc4::Rc4KeyState;
use soe_protocol::time::{Duration, Instant};

const SEQUENCE_SIZE: usize = 2;
const FRAGMENT_LENGTH_SIZE: usize = 4;
const MAX_DATA_LENGTH: usize = 506; // 512 (udp) - 2 (op) - 2 (seq) - 2 (crc)
const FRAGMENT_WINDOW_SIZE: usize = 8;

#[test]
fn in_window_is_identity() {
    assert_eq!(true_incoming_sequence(5, 5, 256), 5);
    assert_eq!(true_incoming_sequence(300, 256, 256), 300);
}

#[test]
fn wraps_forward_past_u16_boundary() {
    // current just below a block boundary, packet sequence wrapped to 0.
    let current = 0x1_0000 - 1; // 65535
    assert_eq!(true_incoming_sequence(0, current, 256), 0x1_0000);
}

#[test]
fn wraps_backward() {
    // current just past a block boundary; a late packet from the previous block.
    let current = 0x1_0000 + 10;
    assert_eq!(true_incoming_sequence(0xFFFF, current, 256), 0xFFFF);
}

struct Clock {
    millis: u64,
    now: Instant,
}

impl Clock {
    fn new() -> Self {
        Self {
            millis: 1_000_000,
            now: Instant::after_origin(Duration::from_millis(1_000_000)),
        }
    }
    fn advance(&mut self, millis: u64) -> Instant {
        self.millis += millis;
        self.now = Instant::after_origin(Duration::from_millis(self.millis));
        self.now
    }
}

fn new_channel(clock: &Clock) -> ReliableDataOutputChannel {
    let config = OutputConfig {
        max_data_length: MAX_DATA_LENGTH + SEQUENCE_SIZE,
        max_queued_outgoing: FRAGMENT_WINDOW_SIZE,
        ack_wait: Duration::from_millis(500),
    };
    ReliableDataOutputChannel::new(config, None, clock.now)
}

/// A deterministic pseudo-random byte buffer.
fn generate_packet(size: usize) -> Vec<u8> {
    let mut state: u32 = 0x1234_5678 ^ size as u32;
    (0..size)
        .map(|_| {
            state = state.wrapping_mul(1_664_525).wrapping_add(1_013_904_223);
            (state >> 24) as u8
        })
        .collect()
}

/// Asserts that the data carried by `packets` (stripping the sequence and, for the first
/// packet if `expect_master_fragment`, the length prefix) concatenates to exactly `buffer`.
fn assert_packets_equal_buffer(
    packets: &[OutgoingReliable],
    buffer: &[u8],
    mut expect_master_fragment: bool,
) {
    let mut position = 0;
    for packet in packets {
        let data_offset = SEQUENCE_SIZE
            + if expect_master_fragment {
                FRAGMENT_LENGTH_SIZE
            } else {
                0
            };
        expect_master_fragment = false;

        let data = &packet.payload[data_offset..];
        assert!(
            position + data.len() <= buffer.len(),
            "received more data than expected"
        );
        assert_eq!(&buffer[position..position + data.len()], data);
        position += data.len();
    }
    assert_eq!(position, buffer.len(), "did not receive the whole buffer");
}

#[test]
fn repeats_data_on_ack_failure() {
    let mut clock = Clock::new();
    let mut ch = new_channel(&clock);

    let fragment_count = 4;
    let packet_length = MAX_DATA_LENGTH - 4 + MAX_DATA_LENGTH * (fragment_count - 1);
    let packet = generate_packet(packet_length);

    ch.enqueue_data(&packet);
    ch.run_tick(clock.advance(1));
    assert_packets_equal_buffer(&ch.take_outgoing(), &packet, true);

    // Don't acknowledge; after the ack wait elapses the data is resent in full.
    ch.run_tick(clock.advance(600));
    assert_packets_equal_buffer(&ch.take_outgoing(), &packet, true);
}

#[test]
fn repeats_data_from_arbitrary_position_on_ack_delay() {
    let mut clock = Clock::new();
    let mut ch = new_channel(&clock);

    let fragment_count = 4;
    let packet_length = MAX_DATA_LENGTH - 4 + MAX_DATA_LENGTH * (fragment_count - 1);
    let packet = generate_packet(packet_length);

    ch.enqueue_data(&packet);
    ch.run_tick(clock.advance(1));
    assert_packets_equal_buffer(&ch.take_outgoing(), &packet, true);

    ch.notify_of_acknowledge_all(1, clock.advance(1));

    ch.run_tick(clock.advance(600));
    // The master fragment (MAX-4) and the next fragment (MAX) were acknowledged.
    let expected_consumed = MAX_DATA_LENGTH - 4 + MAX_DATA_LENGTH;
    assert_packets_equal_buffer(&ch.take_outgoing(), &packet[expected_consumed..], false);
}

#[test]
fn repeats_full_window_from_arbitrary_position_on_ack_delay() {
    let mut clock = Clock::new();
    let mut ch = new_channel(&clock);

    let fragment_count = FRAGMENT_WINDOW_SIZE * 2;
    let packet_length = MAX_DATA_LENGTH - 4 + MAX_DATA_LENGTH * (fragment_count - 1);
    let packet = generate_packet(packet_length);

    ch.enqueue_data(&packet);
    ch.run_tick(clock.advance(1));

    // Only a full window of packets is sent initially.
    let expected_receive_length =
        MAX_DATA_LENGTH - 4 + MAX_DATA_LENGTH * (FRAGMENT_WINDOW_SIZE - 1);
    assert_packets_equal_buffer(
        &ch.take_outgoing(),
        &packet[..expected_receive_length],
        true,
    );

    ch.notify_of_acknowledge_all((FRAGMENT_WINDOW_SIZE - 2) as u16, clock.advance(1));
    ch.run_tick(clock.advance(600));

    let expected_consumed = MAX_DATA_LENGTH - 4 + MAX_DATA_LENGTH * (FRAGMENT_WINDOW_SIZE - 2);
    let expected_repeat_length = MAX_DATA_LENGTH * FRAGMENT_WINDOW_SIZE;
    assert_packets_equal_buffer(
        &ch.take_outgoing(),
        &packet[expected_consumed..expected_consumed + expected_repeat_length],
        false,
    );
}

#[test]
fn single_small_packet_is_not_fragmented() {
    let mut clock = Clock::new();
    let mut ch = new_channel(&clock);

    let data = generate_packet(32);
    ch.enqueue_data(&data);
    ch.run_tick(clock.advance(1));

    let outgoing = ch.take_outgoing();
    assert_eq!(outgoing.len(), 1);
    assert_eq!(outgoing[0].op_code, OpCode::ReliableData);
    // No length prefix: payload is [seq u16][data].
    assert_eq!(&outgoing[0].payload[SEQUENCE_SIZE..], &data[..]);
}

#[test]
fn single_ack_removes_specific_packet() {
    let mut clock = Clock::new();
    let mut ch = new_channel(&clock);

    let packet_length = MAX_DATA_LENGTH - 4 + MAX_DATA_LENGTH * 3;
    let packet = generate_packet(packet_length);
    ch.enqueue_data(&packet);
    assert_eq!(ch.queued_len(), 4);

    ch.run_tick(clock.advance(1));
    let _ = ch.take_outgoing();

    ch.notify_of_acknowledge(2, clock.advance(1));
    assert_eq!(ch.queued_len(), 3);
    assert_eq!(ch.stats().actual_acknowledge_count, 1);
}

/// Across consecutive ticks WITHOUT acknowledgement, the number of unacknowledged packets
/// in flight must never exceed `max_queued_outgoing`.
#[test]
fn window_does_not_grow_across_ticks_without_ack() {
    let mut clock = Clock::new();
    let mut ch = new_channel(&clock);

    // Enqueue far more than one window's worth of fragments.
    let fragment_count = FRAGMENT_WINDOW_SIZE * 4;
    let packet_length = MAX_DATA_LENGTH - 4 + MAX_DATA_LENGTH * (fragment_count - 1);
    let packet = generate_packet(packet_length);
    ch.enqueue_data(&packet);

    // Tick 1: a full window goes out.
    ch.run_tick(clock.advance(1));
    let mut in_flight = ch.take_outgoing().len();
    assert_eq!(
        in_flight, FRAGMENT_WINDOW_SIZE,
        "first tick should send exactly one window"
    );

    // Several more ticks, no ack, well within ack_wait: nothing new may be sent because the
    // window is still full of unacknowledged packets.
    for _ in 0..5 {
        ch.run_tick(clock.advance(10));
        in_flight += ch.take_outgoing().len();
        assert!(
            in_flight <= FRAGMENT_WINDOW_SIZE,
            "in-flight unacked packets ({in_flight}) exceeded the window ({FRAGMENT_WINDOW_SIZE})",
        );
    }
}

/// Once a real round-trip time has been measured, the retransmit timeout must adapt upward
/// so a quiet gap LONGER than the initial `ack_wait` no longer triggers a spurious resend. A
/// fixed RTO (== ack_wait) would resend here; the adaptive RTO (SRTT + 4*RTTVAR after a
/// ~500ms sample => ~1.5s) must not.
#[test]
fn adaptive_rto_suppresses_resend_after_learning_high_rtt() {
    let mut clock = Clock::new();
    let mut ch = new_channel(&clock); // ack_wait = 500ms

    // Send one window.
    let fragment_count = FRAGMENT_WINDOW_SIZE + 4;
    let packet_length = MAX_DATA_LENGTH - 4 + MAX_DATA_LENGTH * (fragment_count - 1);
    let packet = generate_packet(packet_length);
    ch.enqueue_data(&packet);
    ch.run_tick(clock.advance(1));
    let _ = ch.take_outgoing();

    // Acknowledge the whole first window after a ~500ms round trip: this feeds the RTO
    // estimator a 500ms sample, raising the RTO well above the 500ms ack_wait.
    ch.notify_of_acknowledge_all((FRAGMENT_WINDOW_SIZE - 1) as u16, clock.advance(500));

    // The newly admitted window is now in flight. Advance 600ms (> the old fixed ack_wait)
    // with no further ack. With a fixed RTO this resends the window; with the adaptive RTO
    // (~1.5s) it must NOT.
    ch.run_tick(clock.advance(1));
    let _ = ch.take_outgoing();
    ch.run_tick(clock.advance(600));
    let resent = ch.take_outgoing();

    assert!(
        resent.is_empty(),
        "adaptive RTO must not resend within the learned RTT, but resent {} packets",
        resent.len()
    );
    assert_eq!(
        ch.stats().total_resent,
        0,
        "no packet should have been retransmitted after the RTO adapted to the RTT"
    );
}

/// End-to-end drain at RTT ~= the initial `ack_wait`: the channel must deliver every packet
/// while keeping in-flight within ~1 window and the on-wire datagram count close to the
/// unique count (no resend storm). Models a delayed pipe with cumulative acks.
#[test]
fn adaptive_rto_bounds_inflight_at_high_rtt() {
    let mut clock = Clock::new();
    let mut ch = new_channel(&clock);

    let one_way: u64 = 250; // RTT ~= ack_wait (500ms)
    let tick: u64 = 5;

    let fragment_count = 30;
    let packet_length = MAX_DATA_LENGTH - 4 + MAX_DATA_LENGTH * (fragment_count - 1);
    let packet = generate_packet(packet_length);
    ch.enqueue_data(&packet);
    let unique = ch.queued_len();

    let mut to_client: Vec<(u64, u16)> = Vec::new();
    let mut to_server: Vec<(u64, u16)> = Vec::new();
    let mut received = vec![false; unique];

    let mut total_on_wire = 0usize;
    let mut highest_sent: i64 = -1;
    let mut last_ack: i64 = -1;
    let mut max_in_flight: i64 = 0;

    for _ in 0..800 {
        let now = clock.advance(tick);
        let at_now = clock.millis;

        // Deliver acks that have arrived back at the server.
        to_server.retain(|&(at, ack)| {
            if at <= at_now {
                ch.notify_of_acknowledge_all(ack, now);
                last_ack = last_ack.max(ack as i64);
                false
            } else {
                true
            }
        });

        // Deliver datagrams that have arrived at the client; ack the highest contiguous
        // sequence seen so far.
        let mut delivered_any = false;
        to_client.retain(|&(at, seq)| {
            if at <= at_now {
                received[seq as usize] = true;
                delivered_any = true;
                false
            } else {
                true
            }
        });
        if delivered_any {
            let mut hw: i64 = -1;
            for (seq, got) in received.iter().enumerate() {
                if *got {
                    hw = seq as i64;
                } else {
                    break;
                }
            }
            if hw >= 0 {
                to_server.push((at_now + one_way, hw as u16));
            }
        }

        ch.run_tick(now);
        for out in ch.take_outgoing() {
            let seq = u16::from_be_bytes([out.payload[0], out.payload[1]]);
            total_on_wire += 1;
            highest_sent = highest_sent.max(seq as i64);
            to_client.push((at_now + one_way, seq));
        }

        max_in_flight = max_in_flight.max(highest_sent - last_ack);

        if last_ack >= 0 && last_ack as usize + 1 == unique {
            break;
        }
    }

    assert!(
        last_ack >= 0 && last_ack as usize + 1 == unique,
        "channel did not drain all {unique} packets (acked through {last_ack})"
    );
    assert!(
        max_in_flight <= FRAGMENT_WINDOW_SIZE as i64 + 2,
        "in-flight ({max_in_flight}) far exceeded the window ({FRAGMENT_WINDOW_SIZE}) -> resend storm",
    );
    assert!(
        total_on_wire <= unique + unique / 4,
        "sent {total_on_wire} datagrams for {unique} unique packets (>1.25x = resend storm)",
    );
}

#[test]
fn payload_bytes_are_exact() {
    let clock = Clock::new();
    let config = OutputConfig {
        max_data_length: 8,
        max_queued_outgoing: 10,
        ack_wait: Duration::from_millis(500),
    };
    let mut ch = ReliableDataOutputChannel::new(config, None, clock.now);
    assert_eq!(ch.max_data_length(), 8);
    ch.enqueue_data(&[]);
    assert_eq!(ch.queued_len(), 0);
    ch.enqueue_data(&[1, 2, 3, 4, 5, 6, 7, 8, 9]);
    ch.run_tick(clock.now);
    let out = ch.take_outgoing();
    let payloads: Vec<Vec<u8>> = out.iter().map(|p| p.payload.to_vec()).collect();
    assert_eq!(
        payloads,
        vec![
            vec![0, 0, 0, 0, 0, 9, 1, 2],
            vec![0, 1, 3, 4, 5, 6, 7, 8],
            vec![0, 2, 9],
        ]
    );
    assert!(out.iter().all(|p| p.op_code == OpCode::ReliableDataFragment));
    assert_eq!(out[0].clone(), out[0]);
    assert_eq!(ch.stats().total_sent, 3);
    ch.set_max_data_length(100);
    ch.enqueue_data(&[5]);
    ch.run_tick(clock.now);
    assert_eq!(&ch.take_outgoing()[0].payload[..], &[0, 3, 5]);
}

#[test]
fn timeout_backs_off_and_is_bounded() {
    let mut clock = Clock::new();
    let mut ch = new_channel(&clock);
    ch.enqueue_data(&[1]);
    ch.run_tick(clock.advance(1));
    assert_eq!(ch.take_outgoing().len(), 1);
    // 500 ms, then 1 s, 2 s, 4 s, 8 s and never more.
    for wait in [500u64, 1_000, 2_000, 4_000, 8_000, 8_000] {
        ch.run_tick(clock.advance(wait));
        assert!(ch.take_outgoing().is_empty(), "too early after {wait}");
        ch.run_tick(clock.advance(1));
        assert_eq!(ch.take_outgoing().len(), 1, "not resent after {wait}");
    }
    assert_eq!(ch.stats().total_resent, 6);
}

#[test]
fn cumulative_acknowledgements_are_counted_once() {
    let mut clock = Clock::new();
    let mut ch = new_channel(&clock);
    ch.enqueue_data(&generate_packet(MAX_DATA_LENGTH * 4));
    assert_eq!(ch.queued_len(), 5);
    ch.run_tick(clock.advance(1));
    ch.notify_of_acknowledge_all(2, clock.advance(1));
    assert_eq!(ch.queued_len(), 2);
    assert_eq!(ch.stats().incoming_acknowledge_count, 1);
    assert_eq!(ch.stats().actual_acknowledge_count, 3);
    ch.notify_of_acknowledge_all(2, clock.advance(1));
    assert_eq!(ch.queued_len(), 2);
    assert_eq!(ch.stats().incoming_acknowledge_count, 2);
    assert_eq!(ch.stats().actual_acknowledge_count, 3);
}

fn input_config() -> InputConfig {
    InputConfig {
        max_queued_incoming: 32,
        acknowledge_all_data: false,
        data_ack_window: 32,
        max_ack_delay: Duration::from_millis(2),
    }
}

fn body(sequence: u16, data: &[u8]) -> Bytes {
    let mut all = sequence.to_be_bytes().to_vec();
    all.extend_from_slice(data);
    Bytes::from(all)
}

#[test]
fn out_of_order_packets_are_delivered_in_order() {
    let clock = Clock::new();
    let mut ch = ReliableDataInputChannel::new(input_config(), None, clock.now);
    ch.handle_reliable_data(body(2, b"c"), clock.now).unwrap();
    ch.handle_reliable_data(body(1, b"b"), clock.now).unwrap();
    ch.handle_reliable_data(body(1, b"b"), clock.now).unwrap();
    assert!(ch.take_app_data().is_empty());
    // Packets ahead of their turn are acknowledged one by one.
    let acks = ch.take_outgoing();
    assert_eq!(acks.iter().map(|a| a.sequence).collect::<Vec<_>>(), vec![2, 1, 1]);
    assert!(acks.iter().all(|a| a.op_code == OpCode::Acknowledge));

    ch.handle_reliable_data(body(0, b"a"), clock.now).unwrap();
    let data: Vec<Vec<u8>> = ch.take_app_data().iter().map(|d| d.to_vec()).collect();
    assert_eq!(data, vec![b"a".to_vec(), b"b".to_vec(), b"c".to_vec()]);
    assert_eq!(ch.stats().total_received, 4);
    assert_eq!(ch.stats().out_of_order_count, 2);
    assert_eq!(ch.stats().duplicate_count, 1);
}

#[test]
fn acknowledges_once_and_again_only_for_more() {
    let mut clock = Clock::new();
    let mut ch = ReliableDataInputChannel::new(input_config(), None, clock.now);
    ch.handle_reliable_data(body(0, b"a"), clock.now).unwrap();
    ch.run_tick(clock.advance(2));
    assert!(ch.take_outgoing().is_empty());
    ch.run_tick(clock.advance(1));
    let acks = ch.take_outgoing();
    assert_eq!(acks.len(), 1);
    assert_eq!((acks[0].op_code, acks[0].sequence), (OpCode::AcknowledgeAll, 0));
    ch.run_tick(clock.advance(1_000));
    assert!(ch.take_outgoing().is_empty());
    // A packet that has been processed is acknowledged again.
    ch.handle_reliable_data(body(0, b"a"), clock.now).unwrap();
    assert_eq!(ch.take_outgoing().len(), 1);
    assert_eq!(ch.take_app_data().len(), 1);
}

#[test]
fn half_a_window_is_acknowledged_at_once() {
    let clock = Clock::new();
    let mut ch = ReliableDataInputChannel::new(input_config(), None, clock.now);
    for i in 0..16u16 {
        ch.handle_reliable_data(body(i, b"x"), clock.now).unwrap();
    }
    ch.run_tick(clock.now);
    let acks = ch.take_outgoing();
    assert_eq!(acks.len(), 1);
    assert_eq!((acks[0].op_code, acks[0].sequence), (OpCode::AcknowledgeAll, 15));
}

#[test]
fn too_far_ahead_is_dropped() {
    let clock = Clock::new();
    let mut ch = ReliableDataInputChannel::new(input_config(), None, clock.now);
    ch.handle_reliable_data(body(33, b"x"), clock.now).unwrap();
    assert!(ch.take_outgoing().is_empty());
    ch.handle_reliable_data(body(32, b"x"), clock.now).unwrap();
    assert_eq!(ch.take_outgoing().len(), 1);
}

#[test]
fn stray_packets_are_not_mistaken() {
    let clock = Clock::new();
    let mut ch = ReliableDataInputChannel::new(input_config(), None, clock.now);
    for i in 0..100u16 {
        ch.handle_reliable_data(body(i, &[1]), clock.now).unwrap();
    }
    assert_eq!(ch.take_app_data().len(), 100);
    // A copy from further back than the window, and packets far ahead of it.
    for stray in [0u16, 5, 133, 1_000, 40_000, 65_535] {
        ch.handle_reliable_data(body(stray, &[2]), clock.now).unwrap();
    }
    assert!(ch.take_app_data().is_empty());
    ch.handle_reliable_data(body(100, &[3]), clock.now).unwrap();
    assert_eq!(ch.take_app_data(), vec![Bytes::from_static(&[3])]);
}

#[test]
fn small_data_fits_without_fragments() {
    let clock = Clock::new();
    for cipher in [None, Some(Rc4KeyState::new(b"key"))] {
        let config = OutputConfig {
            max_data_length: 5,
            ..OutputConfig::default()
        };
        let encrypted = cipher.is_some();
        let mut ch = ReliableDataOutputChannel::new(config, cipher, clock.now);
        assert!(ch.can_enqueue(&[]));
        assert!(!ch.can_enqueue(&[1, 2, 3, 4]));
        // A byte is put in front of encrypted data that begins with a zero.
        for first in 0u8..=255 {
            let fits = ch.can_enqueue(&[first, 2, 3]);
            assert!(fits || encrypted);
        }
        let refused = (0u8..=255).filter(|&b| !ch.can_enqueue(&[b, 2, 3])).count();
        assert_eq!(refused, if encrypted { 1 } else { 0 });
        ch.enqueue_data(&[7, 8]);
        assert_eq!(ch.queued_len(), 1);
    }
}

#[test]
fn corrupt_data_is_refused() {
    let clock = Clock::new();
    let mut ch = ReliableDataInputChannel::new(input_config(), None, clock.now);
    // Too short for a sequence.
    assert_eq!(
        ch.handle_reliable_data(Bytes::from(vec![0u8]), clock.now),
        Err(CorruptData)
    );
    // Too short for a total length.
    assert_eq!(
        ch.handle_reliable_data_fragment(body(0, &[0, 0, 1]), clock.now),
        Err(CorruptData)
    );
    // A total length that is out of all proportion.
    assert_eq!(
        ch.handle_reliable_data_fragment(body(0, &[0xFF, 0xFF, 0xFF, 0xFF, 1]), clock.now),
        Err(CorruptData)
    );
    // More data than announced.
    assert_eq!(
        ch.handle_reliable_data_fragment(body(0, &[0, 0, 0, 1, 7, 8]), clock.now),
        Err(CorruptData)
    );
    // A bundle whose piece is longer than what follows.
    assert_eq!(
        ch.handle_reliable_data(body(0, &[0x00, 0x19, 5, 1]), clock.now),
        Err(CorruptData)
    );
    assert!(ch.take_app_data().is_empty());
}

#[test]
fn bundles_are_taken_apart() {
    let clock = Clock::new();
    let mut ch = ReliableDataInputChannel::new(input_config(), None, clock.now);
    ch.handle_reliable_data(body(0, &[0x00, 0x19, 2, 1, 2, 1, 9]), clock.now)
        .unwrap();
    let data: Vec<Vec<u8>> = ch.take_app_data().iter().map(|d| d.to_vec()).collect();
    assert_eq!(data, vec![vec![1, 2], vec![9]]);
}

/// Runs packets of an output channel through an input channel, shuffled and repeated, and
/// compares what comes out with what went in.
fn carry(cipher: Option<Rc4KeyState>, pieces: &[Vec<u8>]) {
    let clock = Clock::new();
    let config = OutputConfig {
        max_data_length: 20,
        max_queued_outgoing: 30,
        ack_wait: Duration::from_millis(500),
    };
    let mut output = ReliableDataOutputChannel::new(config, cipher.clone(), clock.now);
    let mut input = ReliableDataInputChannel::new(input_config(), cipher, clock.now);
    for piece in pieces {
        output.enqueue_data(piece);
    }
    output.run_tick(clock.now);
    let packets = output.take_outgoing();
    assert_eq!(packets.len(), output.queued_len());
    let n = packets.len();
    for round in 0..3 {
        for k in 0..n {
            let packet = packets[(k * 7 + round) % n].clone();
            if packet.op_code == OpCode::ReliableData {
                input.handle_reliable_data(packet.payload, clock.now).unwrap();
            } else {
                input
                    .handle_reliable_data_fragment(packet.payload, clock.now)
                    .unwrap();
            }
        }
    }
    let data: Vec<Vec<u8>> = input.take_app_data().iter().map(|d| d.to_vec()).collect();
    assert_eq!(data, pieces);
}

#[test]
fn reordered_and_repeated_packets_deliver_once_in_order() {
    let pieces: Vec<Vec<u8>> = vec![generate_packet(5), generate_packet(100), generate_packet(1)];
    carry(None, &pieces);
    carry(Some(Rc4KeyState::new(b"key")), &pieces);
}

#[test]
fn encrypted_data_survives_leading_zeros() {
    // Whatever the first byte of the ciphertext is, the data comes back.
    for first in 0u8..=255 {
        carry(Some(Rc4KeyState::new(b"key")), &[vec![first, 0x19, 3], vec![first]]);
    }
}
