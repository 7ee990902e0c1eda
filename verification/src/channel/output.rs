//! The reliable data output channel: converts application data into ordered, fragmented
//! reliable data packets, and resends them until acknowledged.
//!
//! Retransmission is a simple go-back-N window. Like the input channel, this is an
//! I/O-agnostic component: enqueued data is fragmented into outgoing packets which
//! accumulate in an internal queue. Calling [`ReliableDataOutputChannel::run_tick`] moves
//! due packets into the outgoing buffer (drained via
//! [`ReliableDataOutputChannel::take_outgoing`]). Acknowledgements are fed back in via
//! [`ReliableDataOutputChannel::notify_of_acknowledge`] /
//! [`ReliableDataOutputChannel::notify_of_acknowledge_all`]. Time is supplied by the
//! caller as [`Instant`] values.

use std::collections::VecDeque;

use vstd::prelude::*;

use bytes::Bytes;

use crate::buffer::{
    buffer_extend, buffer_freeze, buffer_put_u16, buffer_put_u32, buffer_put_u8, buffer_tail,
    buffer_with_capacity, bytes_clone, bytes_copied, bytes_ref, bytes_slice, gathered, held,
};
use crate::channel::{short_sequence, shorten, true_incoming_sequence, true_sequence};
use crate::protocol::OpCode;
use crate::rc4::{Rc4KeyState, Rc4State};
use crate::time::{elapsed, Duration, Instant};
use crate::wire::{be_bytes, lemma_be_bytes_len};

verus! {

/// The size of a reliable data packet's sequence prefix.
pub const SEQUENCE_SIZE: usize = 2;

/// The size of a master fragment's total-length prefix.
pub const FRAGMENT_LENGTH_SIZE: usize = 4;

/// The factor of the variation in the adaptive retransmit timeout (RTO), which is
/// `SRTT + max(RTO_GRANULARITY, RTT_K * RTTVAR)`, clamped to `[RTO_MIN, RTO_MAX]`, after
/// Jacobson and Karels.
pub const RTT_K: u128 = 4;

/// Floor on the variance term, in nanoseconds, so that the RTO keeps headroom above a
/// perfectly steady RTT.
pub const RTO_GRANULARITY: u128 = 100_000_000;

/// Lower clamp on the computed RTO, in nanoseconds; avoids spurious resends on links with
/// a very low RTT.
pub const RTO_MIN: u128 = 200_000_000;

/// Upper clamp on the computed RTO, in nanoseconds (also the ceiling for exponential
/// backoff).
pub const RTO_MAX: u128 = 8_000_000_000;

/// Statistics gathered while sending reliable data. Counters wrap around.
#[derive(Debug, Clone, Copy)]
pub struct DataOutputStats {
    /// Total reliable data packets dispatched, including re-sends.
    pub total_sent: u64,
    /// Total reliable data packets that were re-sent.
    pub total_resent: u64,
    /// Total acknowledgement packets received (including ack-alls).
    pub incoming_acknowledge_count: u64,
    /// Total reliable data packets acknowledged (including via ack-all).
    pub actual_acknowledge_count: u64,
}

/// Statistics of a channel that has not been used.
pub open spec fn no_output_stats() -> DataOutputStats {
    DataOutputStats {
        total_sent: 0,
        total_resent: 0,
        incoming_acknowledge_count: 0,
        actual_acknowledge_count: 0,
    }
}

impl Default for DataOutputStats {
    fn default() -> (stats: Self)
        ensures
            stats == no_output_stats(),
    {
        Self {
            total_sent: 0,
            total_resent: 0,
            incoming_acknowledge_count: 0,
            actual_acknowledge_count: 0,
        }
    }
}

/// A counter `n` steps on, around the end of its range.
pub open spec fn counted(counter: u64, n: nat) -> u64 {
    ((counter + n) % 0x1_0000_0000_0000_0000) as u64
}

/// Configuration controlling the output channel's behaviour.
#[derive(Debug, Clone, Copy)]
pub struct OutputConfig {
    /// The maximum length, in bytes, of the data portion (sequence + data) of a single
    /// reliable data packet. This is the remote UDP length minus the OP code and CRC.
    pub max_data_length: usize,
    /// The maximum number of unacknowledged reliable data packets that may be in flight
    /// at once (the send window).
    pub max_queued_outgoing: usize,
    /// The initial retransmit timeout, used before any round-trip time has been
    /// measured. Once acknowledgements start arriving the channel derives an adaptive
    /// RTO from the measured RTT, so this value only governs the very first window.
    pub ack_wait: Duration,
}

impl Default for OutputConfig {
    fn default() -> (config: Self)
        ensures
            config.max_data_length == 508,
            config.max_queued_outgoing == 196,
            config.ack_wait@ == 500_000_000,
    {
        Self {
            max_data_length: 508,
            max_queued_outgoing: 196,
            ack_wait: Duration::from_millis(500),
        }
    }
}

/// A reliable data packet the channel wishes to send (without OP code or CRC framing,
/// which the session layer applies).
#[derive(Debug, PartialEq, Eq)]
pub struct OutgoingReliable {
    /// The OP code of the packet ([`OpCode::ReliableData`] or
    /// [`OpCode::ReliableDataFragment`]).
    pub op_code: OpCode,
    /// The packet payload: a big-endian `u16` sequence, an optional big-endian `u32`
    /// total-length prefix (master fragments only), and the data chunk.
    pub payload: Bytes,
}

/// What an [`OutgoingReliable`] holds.
pub struct OutgoingPacket {
    /// The OP code of the packet.
    pub op_code: OpCode,
    /// The packet payload.
    pub payload: Seq<u8>,
}

impl View for OutgoingReliable {
    type V = OutgoingPacket;

    open spec fn view(&self) -> OutgoingPacket {
        OutgoingPacket { op_code: self.op_code, payload: held(self.payload) }
    }
}

/// What each of a list of [`OutgoingReliable`] holds.
pub open spec fn outgoing_packets(list: Seq<OutgoingReliable>) -> Seq<OutgoingPacket> {
    Seq::new(list.len(), |i: int| list[i]@)
}

impl Clone for OutgoingReliable {
    fn clone(&self) -> (copy: Self)
        ensures
            copy@ == self@,
    {
        Self { op_code: self.op_code, payload: bytes_clone(&self.payload) }
    }
}

struct StashedOutputPacket {
    is_fragment: bool,
    data: Bytes,
    sent: bool,
    /// When this packet was most recently (re)sent, for RTT measurement and per-packet
    /// retransmit timing. `None` until first dispatched.
    sent_at: Option<Instant>,
    /// Set once the packet has been retransmitted: its RTT becomes ambiguous, so it must
    /// not be used as a round-trip sample (Karn's algorithm).
    resent: bool,
}

/// A packet that waits to be sent or acknowledged.
pub struct QueuedPacket {
    /// The sequence of the packet.
    pub sequence: i64,
    /// Whether the packet is a part of a larger piece of data.
    pub is_fragment: bool,
    /// The payload of the packet.
    pub data: Seq<u8>,
    /// Whether the packet has been sent.
    pub sent: bool,
    /// When the packet was sent last.
    pub sent_at: Option<nat>,
    /// Whether the packet has been sent more than once.
    pub resent: bool,
}

/// The view of an optional point in time.
pub open spec fn time_view(time: Option<Instant>) -> Option<nat> {
    match time {
        Some(t) => Some(t@),
        None => None,
    }
}

/// The view of an optional span of time.
pub open spec fn span_view(span: Option<Duration>) -> Option<nat> {
    match span {
        Some(d) => Some(d@),
        None => None,
    }
}

/// The view of an optional cipher.
pub open spec fn cipher_view(cipher: Option<Rc4KeyState>) -> Option<Rc4State> {
    match cipher {
        Some(c) => Some(c@),
        None => None,
    }
}

spec fn queued(entry: (i64, StashedOutputPacket)) -> QueuedPacket {
    QueuedPacket {
        sequence: entry.0,
        is_fragment: entry.1.is_fragment,
        data: held(entry.1.data),
        sent: entry.1.sent,
        sent_at: time_view(entry.1.sent_at),
        resent: entry.1.resent,
    }
}

/// The state of an output channel.
#[verifier::ext_equal]
pub struct OutputState {
    /// The maximum length of a packet's payload.
    pub max_data_length: usize,
    /// The send window.
    pub window: usize,
    /// The state of the cipher, if data is encrypted.
    pub cipher: Option<Rc4State>,
    /// The packets that wait to be sent or acknowledged, in order.
    pub queue: Seq<QueuedPacket>,
    /// The sequence that the next packet will have.
    pub total_sequence: i64,
    /// The highest sequence that has been acknowledged.
    pub max_client_sequence: i64,
    /// The position in the queue of the next packet to dispatch.
    pub dispatch_index: int,
    /// The smoothed round-trip time, once there is one.
    pub srtt: Option<nat>,
    /// The variation of the round-trip time.
    pub rttvar: nat,
    /// The retransmit timeout.
    pub rto: nat,
    /// The packets that have been dispatched and not been drained.
    pub outgoing: Seq<OutgoingPacket>,
    /// The statistics.
    pub stats: DataOutputStats,
}

/// A new output channel.
pub open spec fn new_output(
    max_data_length: usize,
    window: usize,
    ack_wait: nat,
    cipher: Option<Rc4State>,
) -> OutputState {
    OutputState {
        max_data_length,
        window,
        cipher,
        queue: Seq::empty(),
        total_sequence: 0,
        max_client_sequence: 0,
        dispatch_index: 0,
        srtt: None,
        rttvar: 0,
        rto: ack_wait,
        outgoing: Seq::empty(),
        stats: no_output_stats(),
    }
}

/// Encrypted data as it is sent: with a zero byte in front if it begins with one.
pub open spec fn padded(ciphertext: Seq<u8>) -> Seq<u8> {
    if ciphertext[0] == 0 {
        seq![0u8] + ciphertext
    } else {
        ciphertext
    }
}

/// The bytes that stand for `data` on a channel with the given cipher.
pub open spec fn sealed(cipher: Option<Rc4State>, data: Seq<u8>) -> Seq<u8> {
    match cipher {
        Some(c) => padded(c.transformed(data)),
        None => data,
    }
}

/// The cipher after `data` has gone through it.
pub open spec fn cipher_after(cipher: Option<Rc4State>, data: Seq<u8>) -> Option<Rc4State> {
    match cipher {
        Some(c) => Some(c.after(data.len())),
        None => None,
    }
}

/// A packet that has not been sent.
pub open spec fn unsent(sequence: i64, is_fragment: bool, chunk: Seq<u8>) -> QueuedPacket {
    QueuedPacket {
        sequence,
        is_fragment,
        data: be_bytes(short_sequence(sequence) as nat, 2) + chunk,
        sent: false,
        sent_at: None,
        resent: false,
    }
}

/// The fragments behind the first, of at most `chunk` bytes each, from `sequence` on.
pub open spec fn later_fragments(bytes: Seq<u8>, chunk: int, sequence: i64) -> Seq<QueuedPacket>
    decreases bytes.len(),
{
    if bytes.len() == 0 || chunk <= 0 {
        Seq::empty()
    } else if bytes.len() <= chunk {
        seq![unsent(sequence, true, bytes)]
    } else {
        seq![unsent(sequence, true, bytes.take(chunk))] + later_fragments(
            bytes.skip(chunk),
            chunk,
            sequence.wrapping_add(1),
        )
    }
}

/// The packets that carry `bytes`, from `sequence` on: one if it fits into `chunk` bytes,
/// else a first fragment that begins with the total length, and the later fragments.
pub open spec fn packets_for(bytes: Seq<u8>, chunk: int, sequence: i64) -> Seq<QueuedPacket> {
    if bytes.len() <= chunk {
        seq![unsent(sequence, false, bytes)]
    } else {
        seq![
            unsent(
                sequence,
                true,
                be_bytes((bytes.len() % 0x1_0000_0000) as nat, 4) + bytes.take(
                    chunk - FRAGMENT_LENGTH_SIZE,
                ),
            ),
        ] + later_fragments(
            bytes.skip(chunk - FRAGMENT_LENGTH_SIZE),
            chunk,
            sequence.wrapping_add(1),
        )
    }
}

/// A sequence `n` steps on, around the end of its range.
pub open spec fn sequence_after(sequence: i64, n: nat) -> i64
    decreases n,
{
    if n == 0 {
        sequence
    } else {
        sequence_after(sequence, (n - 1) as nat).wrapping_add(1)
    }
}

/// A packet that is dispatched at `now`.
pub open spec fn dispatched(packet: QueuedPacket, now: nat) -> QueuedPacket {
    QueuedPacket {
        sent: true,
        sent_at: Some(now),
        resent: packet.resent || packet.sent,
        ..packet
    }
}

/// A packet as it is handed out to be sent.
pub open spec fn handed_out(packet: QueuedPacket) -> OutgoingPacket {
    OutgoingPacket {
        op_code: if packet.is_fragment {
            OpCode::ReliableDataFragment
        } else {
            OpCode::ReliableData
        },
        payload: packet.data,
    }
}

/// The number of packets in `queue`, from `start` up to `end`, that have been sent.
pub open spec fn sent_count(queue: Seq<QueuedPacket>, start: int, end: int) -> nat
    decreases end - start,
{
    if start >= end {
        0
    } else {
        sent_count(queue, start, end - 1) + (if queue[end - 1].sent {
            1nat
        } else {
            0
        })
    }
}

/// The position of the first packet with the given sequence, from `i` on.
pub open spec fn position_of(queue: Seq<QueuedPacket>, sequence: i64, i: int) -> Option<int>
    decreases queue.len() - i,
{
    if i >= queue.len() {
        None
    } else if queue[i].sequence == sequence {
        Some(i)
    } else {
        position_of(queue, sequence, i + 1)
    }
}

/// The round-trip time that an acknowledgement of `packet` at `now` shows, unless it is
/// ambiguous.
pub open spec fn sample_of(packet: QueuedPacket, now: nat) -> Option<nat> {
    if packet.sent && !packet.resent {
        match packet.sent_at {
            Some(t) => Some(elapsed(now, t)),
            None => None,
        }
    } else {
        None
    }
}

/// The number of packets at the front of the queue, from `i` on, with at most the given
/// sequence.
pub open spec fn leading(queue: Seq<QueuedPacket>, sequence: i64, i: int) -> nat
    decreases queue.len() - i,
{
    if i < 0 || i >= queue.len() || queue[i].sequence > sequence {
        0
    } else {
        1 + leading(queue, sequence, i + 1)
    }
}

/// The last unambiguous round-trip time among the first `n` packets.
pub open spec fn last_sample(queue: Seq<QueuedPacket>, n: nat, now: nat) -> Option<nat>
    decreases n,
{
    if n == 0 {
        None
    } else {
        match sample_of(queue[n - 1], now) {
            Some(sample) => Some(sample),
            None => last_sample(queue, (n - 1) as nat, now),
        }
    }
}

/// `x`, but at least `low` and at most `high`.
pub open spec fn clamped(x: nat, low: nat, high: nat) -> nat {
    if x < low {
        low
    } else if x > high {
        high
    } else {
        x
    }
}

impl OutputState {
    /// The maximum number of data bytes in one packet.
    pub open spec fn max_chunk(self) -> int {
        self.max_data_length - SEQUENCE_SIZE
    }

    /// The channel after `data` has been enqueued.
    pub open spec fn enqueued(self, data: Seq<u8>) -> OutputState {
        if data.len() == 0 {
            self
        } else {
            let packets = packets_for(
                sealed(self.cipher, data),
                self.max_chunk(),
                self.total_sequence,
            );
            OutputState {
                cipher: cipher_after(self.cipher, data),
                queue: self.queue + packets,
                total_sequence: sequence_after(self.total_sequence, packets.len()),
                ..self
            }
        }
    }

    /// Whether the oldest packet in flight has gone unacknowledged for longer than the
    /// retransmit timeout.
    pub open spec fn timed_out(self, now: nat) -> bool {
        &&& self.queue.len() > 0
        &&& self.queue[0].sent
        &&& self.queue[0].sent_at matches Some(t)
        &&& elapsed(now, t) > self.rto
    }

    /// The channel with a backed-off timeout, set to start over from the front.
    pub open spec fn backed_off(self) -> OutputState {
        OutputState {
            dispatch_index: 0,
            rto: if self.rto * 2 <= RTO_MAX {
                self.rto * 2
            } else {
                RTO_MAX as nat
            },
            ..self
        }
    }

    /// The end of the part of the queue that may be in flight.
    pub open spec fn window_end(self) -> int {
        if self.queue.len() <= self.window {
            self.queue.len() as int
        } else {
            self.window as int
        }
    }

    /// The channel after the packets from the dispatch position up to `end` have been
    /// dispatched.
    pub open spec fn dispatched_to(self, end: int, now: nat) -> OutputState {
        if end <= self.dispatch_index {
            self
        } else {
            OutputState {
                queue: Seq::new(
                    self.queue.len(),
                    |i: int|
                        if self.dispatch_index <= i < end {
                            dispatched(self.queue[i], now)
                        } else {
                            self.queue[i]
                        },
                ),
                outgoing: self.outgoing + Seq::new(
                    (end - self.dispatch_index) as nat,
                    |k: int| handed_out(self.queue[self.dispatch_index + k]),
                ),
                dispatch_index: end,
                stats: DataOutputStats {
                    total_sent: counted(
                        self.stats.total_sent,
                        (end - self.dispatch_index) as nat,
                    ),
                    total_resent: counted(
                        self.stats.total_resent,
                        sent_count(self.queue, self.dispatch_index, end),
                    ),
                    ..self.stats
                },
                ..self
            }
        }
    }

    /// The channel after a tick: the whole window is dispatched anew after a timeout,
    /// else what of the window has not been dispatched.
    pub open spec fn ticked(self, now: nat) -> OutputState {
        let start = if self.timed_out(now) {
            self.backed_off()
        } else {
            self
        };
        start.dispatched_to(start.window_end(), now)
    }

    /// The channel after a round-trip time has been measured.
    pub open spec fn sampled(self, sample: nat) -> OutputState {
        let srtt = match self.srtt {
            None => sample,
            Some(srtt) => (srtt * 7 + sample) / 8,
        };
        let rttvar = match self.srtt {
            None => sample / 2,
            Some(srtt) => (self.rttvar * 3 + elapsed(srtt, sample) + elapsed(sample, srtt)) / 4,
        };
        let variation = if rttvar * RTT_K > RTO_GRANULARITY {
            (rttvar * RTT_K) as nat
        } else {
            RTO_GRANULARITY as nat
        };
        OutputState {
            srtt: Some(srtt),
            rttvar,
            rto: clamped(srtt + variation, RTO_MIN as nat, RTO_MAX as nat),
            ..self
        }
    }

    /// The channel after a round-trip time has been measured, if one was.
    pub open spec fn maybe_sampled(self, sample: Option<nat>) -> OutputState {
        match sample {
            Some(sample) => self.sampled(sample),
            None => self,
        }
    }

    /// The sequence that an acknowledgement speaks of.
    pub open spec fn acknowledged_sequence(self, sequence: u16) -> i64 {
        true_sequence(sequence, self.max_client_sequence, self.window as i64)
    }

    /// The channel that has learned that the remote has received `sequence`.
    pub open spec fn reached(self, sequence: i64) -> OutputState {
        OutputState {
            max_client_sequence: if sequence > self.max_client_sequence {
                sequence
            } else {
                self.max_client_sequence
            },
            ..self
        }
    }

    /// The channel with the counters of an acknowledgement of `n` packets moved on.
    pub open spec fn tallied(self, n: nat) -> OutputState {
        OutputState {
            stats: DataOutputStats {
                incoming_acknowledge_count: counted(self.stats.incoming_acknowledge_count, 1),
                actual_acknowledge_count: counted(self.stats.actual_acknowledge_count, n),
                ..self.stats
            },
            ..self
        }
    }

    /// The dispatch position after `n` packets have left the queue.
    pub open spec fn index_less(self, n: nat) -> int {
        if self.dispatch_index >= n {
            self.dispatch_index - n
        } else {
            0
        }
    }

    /// The channel after one packet has been acknowledged: it leaves the queue.
    pub open spec fn acknowledged(self, sequence: u16, now: nat) -> OutputState {
        let seq = self.acknowledged_sequence(sequence);
        match position_of(self.queue, seq, 0) {
            Some(pos) => (OutputState {
                queue: self.queue.remove(pos),
                dispatch_index: self.index_less(1),
                ..self.tallied(1)
            }).maybe_sampled(sample_of(self.queue[pos], now)).reached(seq),
            None => self.tallied(0).reached(seq),
        }
    }

    /// The channel after all packets up to one have been acknowledged: they leave the
    /// front of the queue.
    pub open spec fn acknowledged_all(self, sequence: u16, now: nat) -> OutputState {
        let seq = self.acknowledged_sequence(sequence);
        let n = leading(self.queue, seq, 0);
        (OutputState {
            queue: self.queue.skip(n as int),
            dispatch_index: self.index_less(n),
            ..self.tallied(n)
        }).maybe_sampled(last_sample(self.queue, n, now)).reached(seq)
    }

    /// That `data` can be enqueued.
    pub open spec fn can_enqueue(self, data: Seq<u8>) -> bool {
        carries(self.max_chunk(), self.cipher, data)
    }
}

/// That packets with at most `chunk` bytes of data can carry `data`: a packet has room for
/// the sequence, and either all of the data fits into one packet or a packet has room for
/// the total length.
pub open spec fn carries(chunk: int, cipher: Option<Rc4State>, data: Seq<u8>) -> bool {
    data.len() > 0 ==> {
        &&& chunk >= 0
        &&& chunk >= FRAGMENT_LENGTH_SIZE || sealed(cipher, data).len() <= chunk
        &&& data.len() + 7 <= isize::MAX
    }
}

/// Returns the first byte of what a cipher makes of `data`.
fn first_ciphered(cipher: &Rc4KeyState, data: &[u8]) -> (first: u8)
    requires
        data@.len() > 0,
    ensures
        first == cipher@.transformed(data@)[0],
{
    let mut probe = cipher.clone();
    let mut first: Vec<u8> = vec![data[0]];
    probe.transform_in_place(first.as_mut_slice());
    first[0]
}

/// Returns whether packets with at most `max_data_length` bytes of sequence and data can
/// carry `data`.
pub(crate) fn can_carry(
    max_data_length: usize,
    cipher: &Option<Rc4KeyState>,
    data: &[u8],
) -> (possible: bool)
    ensures
        possible == carries(max_data_length - SEQUENCE_SIZE, cipher_view(*cipher), data@),
{
    if data.len() == 0 {
        return true;
    }
    if max_data_length < SEQUENCE_SIZE || data.len() > isize::MAX as usize - 7 {
        return false;
    }
    let chunk: usize = max_data_length - SEQUENCE_SIZE;
    if chunk >= FRAGMENT_LENGTH_SIZE {
        return true;
    }
    let padding: usize = match cipher {
        Some(cipher) => if first_ciphered(cipher, data) == 0 {
            1
        } else {
            0
        },
        None => 0,
    };
    data.len() + padding <= chunk
}

/// Converts application data into ordered, fragmented reliable data packets.
pub struct ReliableDataOutputChannel {
    config: OutputConfig,
    cipher: Option<Rc4KeyState>,
    dispatch_queue: VecDeque<(i64, StashedOutputPacket)>,
    /// The total number of sequences that have been output.
    total_sequence: i64,
    /// The maximum sequence number that the client is known to have received.
    max_client_sequence: i64,
    /// The index into `dispatch_queue` of the next packet to dispatch.
    current_dispatch_index: usize,
    /// Smoothed round-trip time estimate (`None` until the first RTT sample).
    srtt: Option<Duration>,
    /// Round-trip time variation estimate.
    rttvar: Duration,
    /// Current retransmit timeout: adaptive once RTT is known, else `config.ack_wait`.
    rto: Duration,
    outgoing: Vec<OutgoingReliable>,
    stats: DataOutputStats,
}

impl View for ReliableDataOutputChannel {
    type V = OutputState;

    closed spec fn view(&self) -> OutputState {
        OutputState {
            max_data_length: self.config.max_data_length,
            window: self.config.max_queued_outgoing,
            cipher: cipher_view(self.cipher),
            queue: Seq::new(self.dispatch_queue@.len(), |i: int| queued(self.dispatch_queue@[i])),
            total_sequence: self.total_sequence,
            max_client_sequence: self.max_client_sequence,
            dispatch_index: self.current_dispatch_index as int,
            srtt: span_view(self.srtt),
            rttvar: self.rttvar@,
            rto: self.rto@,
            outgoing: outgoing_packets(self.outgoing@),
            stats: self.stats,
        }
    }
}

impl ReliableDataOutputChannel {
    /// Creates a new output channel. `cipher` is the initial RC4 key state; pass
    /// `Some(..)` to enable RC4 encryption of the proxied application data, or `None` to
    /// pass it through unencrypted.
    pub fn new(config: OutputConfig, cipher: Option<Rc4KeyState>, _now: Instant) -> (ch: Self)
        ensures
            ch@ == new_output(
                config.max_data_length,
                config.max_queued_outgoing,
                config.ack_wait@,
                cipher_view(cipher),
            ),
    {
        let initial_rto = config.ack_wait;
        let ch = Self {
            config,
            cipher,
            dispatch_queue: VecDeque::new(),
            total_sequence: 0,
            max_client_sequence: 0,
            current_dispatch_index: 0,
            srtt: None,
            rttvar: Duration::zero(),
            rto: initial_rto,
            outgoing: Vec::new(),
            stats: DataOutputStats::default(),
        };
        assert(ch@ =~= new_output(
            config.max_data_length,
            config.max_queued_outgoing,
            config.ack_wait@,
            cipher_view(cipher),
        ));
        ch
    }

    /// Returns the gathered output statistics.
    pub fn stats(&self) -> (stats: &DataOutputStats)
        ensures
            *stats == self@.stats,
    {
        &self.stats
    }

    /// Drains the outgoing reliable data packets accumulated so far.
    pub fn take_outgoing(&mut self) -> (packets: Vec<OutgoingReliable>)
        ensures
            outgoing_packets(packets@) == old(self)@.outgoing,
            final(self)@ == (OutputState { outgoing: Seq::empty(), ..old(self)@ }),
    {
        let mut packets: Vec<OutgoingReliable> = Vec::new();
        std::mem::swap(&mut packets, &mut self.outgoing);
        assert(self@ =~= (OutputState { outgoing: Seq::empty(), ..old(self)@ }));
        packets
    }

    /// Returns the number of reliable data packets currently awaiting acknowledgement.
    pub fn queued_len(&self) -> (n: usize)
        ensures
            n == self@.queue.len(),
    {
        self.dispatch_queue.len()
    }

    /// Sets the maximum length of the data portion (sequence + data) of a single packet.
    /// Should not be called after data has been enqueued.
    pub fn set_max_data_length(&mut self, max_data_length: usize)
        ensures
            final(self)@ == (OutputState { max_data_length, ..old(self)@ }),
    {
        self.config.max_data_length = max_data_length;
        assert(self@ =~= (OutputState { max_data_length, ..old(self)@ }));
    }

    /// Returns the maximum length of the data portion (sequence + data) of a single packet.
    pub fn max_data_length(&self) -> (n: usize)
        ensures
            n == self@.max_data_length,
    {
        self.config.max_data_length
    }

    fn max_chunk(&self) -> (n: usize)
        requires
            self@.max_chunk() >= 0,
        ensures
            n == self@.max_chunk(),
    {
        self.config.max_data_length - SEQUENCE_SIZE
    }

    /// Returns whether `data` can be enqueued: whether it can be split into packets of the
    /// configured maximum length.
    pub fn can_enqueue(&self, data: &[u8]) -> (possible: bool)
        ensures
            possible == self@.can_enqueue(data@),
    {
        can_carry(self.config.max_data_length, &self.cipher, data)
    }

    /// Enqueues application data to be sent on the reliable channel. The data is
    /// fragmented as required to fit within the configured maximum packet length.
    pub fn enqueue_data(&mut self, data: &[u8])
        requires
            old(self)@.can_enqueue(data@),
        ensures
            final(self)@ == old(self)@.enqueued(data@),
    {
        if data.len() == 0 {
            return;
        }
        let mut remaining: Bytes = if self.cipher.is_some() {
            self.encrypt(data)
        } else {
            bytes_copied(data)
        };
        let ghost bytes = held(remaining);
        let ghost chunk = self@.max_chunk();
        let ghost start = self@;

        let is_fragment = bytes_ref(&remaining).len() > self.max_chunk();
        self.stash_fragment(&mut remaining, true, is_fragment);
        proof {
            reveal_with_fuel(sequence_after, 2);
            if !is_fragment {
                assert(bytes.take(bytes.len() as int) =~= bytes);
                assert(Seq::<u8>::empty() + bytes =~= bytes);
                assert(held(remaining).len() == 0);
            }
            assert(start.queue + packets_for(bytes, chunk, start.total_sequence)
                =~= self@.queue + later_fragments(
                held(remaining),
                chunk,
                self@.total_sequence,
            ));
        }
        while bytes_ref(&remaining).len() > 0
            invariant
                bytes.len() + 6 <= isize::MAX,
                held(remaining).len() <= bytes.len(),
                held(remaining).len() > 0 ==> chunk >= FRAGMENT_LENGTH_SIZE,
                chunk == start.max_chunk(),
                chunk >= 0,
                self@ == (OutputState {
                    queue: self@.queue,
                    total_sequence: self@.total_sequence,
                    ..start
                }),
                self@.total_sequence == sequence_after(
                    start.total_sequence,
                    (self@.queue.len() - start.queue.len()) as nat,
                ),
                self@.queue.len() >= start.queue.len(),
                start.queue + packets_for(bytes, chunk, start.total_sequence) =~= self@.queue
                    + later_fragments(held(remaining), chunk, self@.total_sequence),
            decreases held(remaining).len(),
        {
            let ghost left = held(remaining);
            self.stash_fragment(&mut remaining, false, true);
            proof {
                assert(left.take(left.len() as int) =~= left);
                assert(held(remaining).len() == 0 ==> later_fragments(
                    held(remaining),
                    chunk,
                    self@.total_sequence,
                ) =~= Seq::empty());
            }
        }
        assert(self@ =~= old(self)@.enqueued(data@));
    }

    fn stash_fragment(&mut self, data: &mut Bytes, is_master: bool, is_fragment: bool)
        requires
            old(self)@.max_chunk() >= 0,
            is_master && is_fragment ==> held(*old(data)).len() > old(self)@.max_chunk()
                >= FRAGMENT_LENGTH_SIZE,
            held(*old(data)).len() + 6 <= isize::MAX,
        ensures
            ({
                let before = old(self)@;
                let bytes = held(*old(data));
                let amount = if is_master && is_fragment {
                    before.max_chunk() - FRAGMENT_LENGTH_SIZE
                } else if bytes.len() <= before.max_chunk() {
                    bytes.len() as int
                } else {
                    before.max_chunk()
                };
                let head = if is_master && is_fragment {
                    be_bytes((bytes.len() % 0x1_0000_0000) as nat, 4)
                } else {
                    Seq::empty()
                };
                &&& held(*final(data)) == bytes.skip(amount)
                &&& final(self)@ == (OutputState {
                    queue: before.queue.push(
                        unsent(before.total_sequence, is_fragment, head + bytes.take(amount)),
                    ),
                    total_sequence: before.total_sequence.wrapping_add(1),
                    ..before
                })
            }),
    {
        let len: usize = bytes_ref(data).len();
        let max_chunk: usize = self.max_chunk();
        let mut amount: usize = if len <= max_chunk {
            len
        } else {
            max_chunk
        };
        let ghost bytes = held(*data);
        let mut buf = buffer_with_capacity(SEQUENCE_SIZE + FRAGMENT_LENGTH_SIZE + amount);
        let short: u16 = shorten(self.total_sequence);
        proof {
            lemma_be_bytes_len(short as nat, 2);
            lemma_be_bytes_len((bytes.len() % 0x1_0000_0000) as nat, 4);
        }
        buffer_put_u16(&mut buf, short);
        if is_master && is_fragment {
            buffer_put_u32(&mut buf, (len as u64 % 0x1_0000_0000) as u32);
            amount = amount - FRAGMENT_LENGTH_SIZE;
        }
        buffer_extend(&mut buf, &bytes_ref(data)[0..amount]);
        let ghost head = if is_master && is_fragment {
            be_bytes((bytes.len() % 0x1_0000_0000) as nat, 4)
        } else {
            Seq::empty()
        };
        let packet = StashedOutputPacket {
            is_fragment,
            data: buffer_freeze(buf),
            sent: false,
            sent_at: None,
            resent: false,
        };
        proof {
            assert(held(packet.data) =~= be_bytes(short as nat, 2) + (head + bytes.take(
                amount as int,
            )));
        }
        self.dispatch_queue.push_back((self.total_sequence, packet));
        self.total_sequence = self.total_sequence.wrapping_add(1);
        *data = bytes_slice(data, amount, len);
        proof {
            assert(held(*data) =~= bytes.skip(amount as int));
            let before = old(self)@;
            assert(self@.queue =~= before.queue.push(
                unsent(before.total_sequence, is_fragment, head + bytes.take(amount as int)),
            ));
        }
    }

    /// Encrypts `data` with the channel's RC4 cipher. A leading zero byte is prepended
    /// when the ciphertext itself begins with a zero, mirroring the input channel's
    /// padding-strip logic.
    fn encrypt(&mut self, data: &[u8]) -> (bytes: Bytes)
        requires
            old(self)@.cipher is Some,
            0 < data@.len(),
            data@.len() + 1 <= isize::MAX,
        ensures
            held(bytes) == sealed(old(self)@.cipher, data@),
            held(bytes).len() <= data@.len() + 1,
            final(self)@ == (OutputState {
                cipher: cipher_after(old(self)@.cipher, data@),
                ..old(self)@
            }),
    {
        let mut buf = buffer_with_capacity(data.len() + 1);
        buffer_put_u8(&mut buf, 0);
        buffer_extend(&mut buf, data);
        let ghost plain = gathered(buf);
        assert(plain.skip(1) =~= data@);
        match &mut self.cipher {
            Some(cipher) => {
                cipher.transform_in_place(buffer_tail(&mut buf, 1));
            },
            None => {},
        }
        let ghost ciphertext = old(self)@.cipher->Some_0.transformed(data@);
        assert(gathered(buf) =~= seq![0u8] + ciphertext);
        assert(self@ =~= (OutputState {
            cipher: cipher_after(old(self)@.cipher, data@),
            ..old(self)@
        }));
        let frozen = buffer_freeze(buf);
        let whole = bytes_ref(&frozen);
        if whole[1] == 0 {
            frozen
        } else {
            let part = bytes_slice(&frozen, 1, whole.len());
            assert(held(part) =~= ciphertext);
            part
        }
    }

    /// Runs a tick of the output channel, moving due packets into the outgoing buffer. If
    /// the oldest in-flight packet has gone unacknowledged for longer than the current
    /// (adaptive) retransmit timeout, dispatch restarts from the front of the window
    /// (go-back-N) and the RTO is backed off exponentially (Karn).
    pub fn run_tick(&mut self, now: Instant)
        ensures
            final(self)@ == old(self)@.ticked(now@),
    {
        // Retransmission timeout is keyed off the oldest in-flight packet's own send time
        // (not a single global timer), so a long quiet period before the first ack can't
        // make every tick resend the whole window.
        if self.front_timed_out(now) {
            self.current_dispatch_index = 0;
            // Karn's exponential backoff; a fresh (unambiguous) RTT sample resets this.
            let doubled: u128 = self.rto.as_nanos() * 2;
            self.rto = Duration::of_nanos(
                if doubled <= RTO_MAX {
                    doubled
                } else {
                    RTO_MAX
                },
            );
            assert(self@ =~= old(self)@.backed_off());
        }
        let ghost start = self@;
        let queue_len: usize = self.dispatch_queue.len();
        let max_index: usize = if queue_len <= self.config.max_queued_outgoing {
            queue_len
        } else {
            self.config.max_queued_outgoing
        };
        assert(max_index == start.window_end());
        while self.current_dispatch_index < max_index
            invariant
                max_index <= start.queue.len(),
                start.dispatch_index <= self.current_dispatch_index,
                start.dispatch_index <= max_index ==> self.current_dispatch_index <= max_index,
                start.dispatch_index > max_index ==> self.current_dispatch_index
                    == start.dispatch_index,
                self@ == start.dispatched_to(self.current_dispatch_index as int, now@),
                self@.queue.len() == start.queue.len(),
                0 <= start.dispatch_index,
            decreases max_index - self.current_dispatch_index,
        {
            let ghost before = self@;
            let ghost entries = self.dispatch_queue@;
            let ghost handed = self.outgoing@;
            assert(before.outgoing.len() == handed.len());
            let index: usize = self.current_dispatch_index;
            assert(before.queue[index as int] == queued(entries[index as int]));
            assert(before.queue[index as int] == start.queue[index as int]);
            let (sequence, mut packet) = match self.dispatch_queue.remove(index) {
                Some(entry) => entry,
                None => {
                    return;
                },
            };
            let op_code = if packet.is_fragment {
                OpCode::ReliableDataFragment
            } else {
                OpCode::ReliableData
            };

            self.stats.total_sent = self.stats.total_sent.wrapping_add(1);
            if packet.sent {
                self.stats.total_resent = self.stats.total_resent.wrapping_add(1);
                // A retransmitted packet's RTT is ambiguous; exclude it from sampling.
                packet.resent = true;
            }
            packet.sent = true;
            packet.sent_at = Some(now);

            let payload = bytes_clone(&packet.data);
            self.dispatch_queue.insert(index, (sequence, packet));
            self.outgoing.push(OutgoingReliable { op_code, payload });
            self.current_dispatch_index = index + 1;
            proof {
                let after = start.dispatched_to(index + 1, now@);
                let stored = self.dispatch_queue@[index as int];
                assert(self.dispatch_queue@ =~= entries.update(index as int, stored));
                assert(queued(stored) == dispatched(start.queue[index as int], now@));
                assert forall|i: int| 0 <= i < start.queue.len() implies self@.queue[i]
                    == after.queue[i] by {
                    assert(before.queue[i] == queued(entries[i]));
                }
                assert(self@.queue =~= after.queue);
                assert(self.outgoing@.last()@ == handed_out(start.queue[index as int]));
                assert(handed.len() == start.outgoing.len() + (index - start.dispatch_index));
                assert(self@.outgoing.len() == after.outgoing.len());
                assert forall|i: int| 0 <= i < self@.outgoing.len() implies self@.outgoing[i]
                    == after.outgoing[i] by {
                    if i < handed.len() {
                        assert(self@.outgoing[i] == self.outgoing@[i]@);
                        assert(before.outgoing[i] == handed[i]@);
                    } else {
                        assert(self@.outgoing[i] == self.outgoing@.last()@);
                    }
                }
                assert(self@.outgoing =~= after.outgoing);
                assert(self@ =~= after);
            }
        }
    }

    fn front_timed_out(&self, now: Instant) -> (timed_out: bool)
        ensures
            timed_out == self@.timed_out(now@),
    {
        if self.dispatch_queue.len() == 0 {
            return false;
        }
        assert(self@.queue[0] == queued(self.dispatch_queue@[0]));
        let front = &self.dispatch_queue[0].1;
        if !front.sent {
            return false;
        }
        match front.sent_at {
            Some(sent_at) => now.duration_since(sent_at).as_nanos() > self.rto.as_nanos(),
            None => false,
        }
    }

    /// Folds a fresh, unambiguous round-trip sample into the smoothed RTT/variance
    /// estimates and recomputes the adaptive retransmit timeout (Jacobson/Karels
    /// estimator).
    fn update_rto(&mut self, sample: Duration)
        ensures
            final(self)@ == old(self)@.sampled(sample@),
    {
        let sample: u128 = sample.as_nanos();
        let rttvar: u128 = self.rttvar.as_nanos();
        let (new_srtt, new_rttvar) = match self.srtt {
            None => (sample, sample / 2),
            Some(srtt) => {
                let srtt: u128 = srtt.as_nanos();
                let diff: u128 = if srtt >= sample {
                    srtt - sample
                } else {
                    sample - srtt
                };
                // RTTVAR = 3/4 * RTTVAR + 1/4 * |SRTT - sample|,
                // SRTT = 7/8 * SRTT + 1/8 * sample
                ((srtt * 7 + sample) / 8, (rttvar * 3 + diff) / 4)
            },
        };
        self.srtt = Some(Duration::of_nanos(new_srtt));
        self.rttvar = Duration::of_nanos(new_rttvar);
        let scaled: u128 = new_rttvar * RTT_K;
        let variation: u128 = if scaled > RTO_GRANULARITY {
            scaled
        } else {
            RTO_GRANULARITY
        };
        let rto: u128 = new_srtt + variation;
        self.rto = Duration::of_nanos(
            if rto < RTO_MIN {
                RTO_MIN
            } else if rto > RTO_MAX {
                RTO_MAX
            } else {
                rto
            },
        );
        assert(self@ =~= old(self)@.sampled(sample as nat));
    }

    /// Notifies the channel that the remote has acknowledged a single sequence.
    pub fn notify_of_acknowledge(&mut self, sequence: u16, now: Instant)
        ensures
            final(self)@ == old(self)@.acknowledged(sequence, now@),
    {
        let seq: i64 = self.true_incoming(sequence);
        self.stats.incoming_acknowledge_count =
            self.stats.incoming_acknowledge_count.wrapping_add(1);
        let ghost start = old(self)@;
        match self.find(seq) {
            Some(pos) => {
                assert(start.queue[pos as int] == queued(self.dispatch_queue@[pos as int]));
                let sample = sample_at(&self.dispatch_queue[pos].1, now);
                let _ = self.dispatch_queue.remove(pos);
                if self.current_dispatch_index > 0 {
                    self.current_dispatch_index = self.current_dispatch_index - 1;
                }
                self.stats.actual_acknowledge_count =
                    self.stats.actual_acknowledge_count.wrapping_add(1);
                assert(self@.queue =~= start.queue.remove(pos as int));
                assert(self@ =~= (OutputState {
                    queue: start.queue.remove(pos as int),
                    dispatch_index: start.index_less(1),
                    ..start.tallied(1)
                }));
                if let Some(sample) = sample {
                    self.update_rto(sample);
                }
            },
            None => {
                assert(self@ =~= start.tallied(0));
            },
        }
        self.reach(seq);
    }

    /// Notifies the channel that the remote has acknowledged all sequences up to and
    /// including the given one.
    pub fn notify_of_acknowledge_all(&mut self, sequence: u16, now: Instant)
        ensures
            final(self)@ == old(self)@.acknowledged_all(sequence, now@),
    {
        let seq: i64 = self.true_incoming(sequence);
        self.stats.incoming_acknowledge_count =
            self.stats.incoming_acknowledge_count.wrapping_add(1);
        let ghost start = old(self)@;
        let ghost mut n: nat = 0;

        let mut sample: Option<Duration> = None;
        assert(self@.queue =~= start.queue.skip(0));
        while self.dispatch_queue.len() > 0 && self.dispatch_queue[0].0 <= seq
            invariant
                n <= start.queue.len(),
                self@ =~= (OutputState {
                    queue: start.queue.skip(n as int),
                    dispatch_index: start.index_less(n),
                    ..start.tallied(n)
                }),
                leading(start.queue, seq, 0) == n + leading(start.queue, seq, n as int),
                span_view(sample) == last_sample(start.queue, n, now@),
                self.dispatch_queue@.len() + n == start.queue.len(),
                self.dispatch_queue@.len() > 0 ==> start.queue[n as int].sequence
                    == self.dispatch_queue@[0].0,
                0 <= start.dispatch_index,
            decreases self.dispatch_queue@.len(),
        {
            let ghost entries = self.dispatch_queue@;
            let ghost before = self@.queue;
            assert(self@.queue[0] == queued(entries[0]));
            assert(start.queue[n as int] == queued(entries[0]));
            let this_sample = sample_at(&self.dispatch_queue[0].1, now);
            // Keep the freshest (most recently sent) unambiguous sample in this batch.
            if this_sample.is_some() {
                sample = this_sample;
            }
            let _ = self.dispatch_queue.pop_front();
            if self.current_dispatch_index > 0 {
                self.current_dispatch_index = self.current_dispatch_index - 1;
            }
            self.stats.actual_acknowledge_count =
                self.stats.actual_acknowledge_count.wrapping_add(1);
            proof {
                assert(self.dispatch_queue@ =~= entries.skip(1));
                assert forall|i: int| 0 <= i < self@.queue.len() implies self@.queue[i]
                    == start.queue.skip(n as int + 1)[i] by {
                    assert(before[i + 1] == queued(entries[i + 1]));
                    assert(before[i + 1] == start.queue.skip(n as int)[i + 1]);
                }
                assert(self@.queue =~= start.queue.skip(n as int + 1));
                if entries.len() > 1 {
                    assert(self@.queue[0] == queued(entries[1]));
                    assert(self@.queue[0] == start.queue[n as int + 1]);
                }
                n = n + 1;
            }
        }
        if let Some(sample) = sample {
            self.update_rto(sample);
        }
        self.reach(seq);
    }

    fn reach(&mut self, seq: i64)
        ensures
            final(self)@ == old(self)@.reached(seq),
    {
        if seq > self.max_client_sequence {
            self.max_client_sequence = seq;
        }
        assert(self@ =~= old(self)@.reached(seq));
    }

    fn find(&self, seq: i64) -> (pos: Option<usize>)
        ensures
            match pos {
                Some(pos) => position_of(self@.queue, seq, 0) == Some(pos as int) && pos
                    < self@.queue.len(),
                None => position_of(self@.queue, seq, 0) is None,
            },
    {
        let mut i: usize = 0;
        while i < self.dispatch_queue.len()
            invariant
                i <= self@.queue.len(),
                self@.queue.len() == self.dispatch_queue@.len(),
                position_of(self@.queue, seq, 0) == position_of(self@.queue, seq, i as int),
            decreases self.dispatch_queue@.len() - i,
        {
            assert(self@.queue[i as int] == queued(self.dispatch_queue@[i as int]));
            if self.dispatch_queue[i].0 == seq {
                return Some(i);
            }
            i = i + 1;
        }
        None
    }

    fn true_incoming(&self, packet_sequence: u16) -> (seq: i64)
        ensures
            seq == self@.acknowledged_sequence(packet_sequence),
    {
        true_incoming_sequence(
            packet_sequence,
            self.max_client_sequence,
            self.config.max_queued_outgoing as i64,
        )
    }
}

fn sample_at(packet: &StashedOutputPacket, now: Instant) -> (sample: Option<Duration>)
    ensures
        span_view(sample) == sample_of(queued((0, *packet)), now@),
{
    if packet.sent && !packet.resent {
        match packet.sent_at {
            Some(sent_at) => Some(now.duration_since(sent_at)),
            None => None,
        }
    } else {
        None
    }
}

} // verus!
