//! The reliable data input channel: orders and reassembles incoming reliable data
//! packets, and acknowledges them.
//!
//! Packets that arrive ahead of their turn are stashed until those before them have
//! arrived. Acknowledgements and complete pieces of application data accumulate in
//! internal queues, which are drained via [`ReliableDataInputChannel::take_outgoing`] and
//! [`ReliableDataInputChannel::take_app_data`]. Time is supplied by the caller as
//! [`Instant`] values.

use vstd::prelude::*;

use bytes::Bytes;

use crate::buffer::{bytes_from_vec, bytes_ref, bytes_slice, held, held_each};
use crate::channel::output::{cipher_view, counted};
use crate::channel::{short_sequence, shorten, true_incoming_sequence, true_sequence};
use crate::constants::MULTI_DATA_INDICATOR;
use crate::io::BinaryReader;
use crate::protocol::OpCode;
use crate::rc4::{Rc4KeyState, Rc4State};
use crate::time::{elapsed, Duration, Instant};
use crate::varint::data_bundle;
use crate::wire::{be_at, lemma_be_value_bound, lemma_be_value_two, lemma_pow256_values};

verus! {

/// The largest piece of application data that is reassembled from fragments. A fragment
/// that announces more is taken for corrupt.
pub const MAX_REASSEMBLED_LENGTH: u32 = 0x100_0000;

/// The error for reliable data that cannot have been sent by a well-behaved remote.
#[derive(Debug, Clone, Copy, PartialEq, Eq)]
pub struct CorruptData;

/// Statistics gathered while receiving reliable data. Counters wrap around.
#[derive(Debug, Clone, Copy)]
pub struct DataInputStats {
    /// Total reliable data packets received, of any kind.
    pub total_received: u64,
    /// Total reliable data packets that had been received before.
    pub duplicate_count: u64,
    /// Total reliable data packets that arrived ahead of their turn.
    pub out_of_order_count: u64,
}

/// Statistics of a channel that has not been used.
pub open spec fn no_input_stats() -> DataInputStats {
    DataInputStats { total_received: 0, duplicate_count: 0, out_of_order_count: 0 }
}

impl Default for DataInputStats {
    fn default() -> (stats: Self)
        ensures
            stats == no_input_stats(),
    {
        Self { total_received: 0, duplicate_count: 0, out_of_order_count: 0 }
    }
}

/// Configuration controlling the input channel's behaviour.
#[derive(Debug, Clone, Copy)]
pub struct InputConfig {
    /// The maximum number of packets ahead of the expected one that are kept.
    pub max_queued_incoming: u16,
    /// Whether every packet is acknowledged individually.
    pub acknowledge_all_data: bool,
    /// The acknowledgement window: half of it is acknowledged at once.
    pub data_ack_window: u16,
    /// The maximum delay before received data is acknowledged.
    pub max_ack_delay: Duration,
}

/// An acknowledgement the channel wishes to send (without OP code or CRC framing, which
/// the session layer applies).
#[derive(Debug, Clone, Copy, PartialEq, Eq, Structural)]
pub struct OutgoingContextual {
    /// The OP code of the packet ([`OpCode::Acknowledge`] or [`OpCode::AcknowledgeAll`]).
    pub op_code: OpCode,
    /// The sequence that is acknowledged.
    pub sequence: u16,
}

/// A packet that waits for those before it.
pub struct StashedPacket {
    /// The sequence of the packet.
    pub sequence: i64,
    /// Whether the packet is a part of a larger piece of data.
    pub is_fragment: bool,
    /// The data of the packet, without its sequence.
    pub data: Seq<u8>,
}

/// A piece of data of which the first fragments have arrived.
pub struct Assembly {
    /// The total length.
    pub total: u32,
    /// What has arrived.
    pub data: Seq<u8>,
}

/// The state of an input channel.
#[verifier::ext_equal]
pub struct InputState {
    /// The maximum number of packets ahead of the expected one that are kept.
    pub max_queued: u16,
    /// Whether every packet is acknowledged individually.
    pub acknowledge_all_data: bool,
    /// The acknowledgement window.
    pub ack_window: u16,
    /// The maximum delay before received data is acknowledged.
    pub max_ack_delay: nat,
    /// The state of the cipher, if data is encrypted.
    pub cipher: Option<Rc4State>,
    /// The sequence of the packet whose turn it is.
    pub window_start: i64,
    /// The packets that have arrived ahead of their turn.
    pub stash: Seq<StashedPacket>,
    /// The piece of data that is being reassembled.
    pub assembly: Option<Assembly>,
    /// The sequence up to which everything has been acknowledged.
    pub last_ack_all_sequence: i64,
    /// When everything up to some sequence was acknowledged last.
    pub last_ack_all_time: nat,
    /// The acknowledgements that have not been drained.
    pub outgoing: Seq<OutgoingContextual>,
    /// The pieces of application data that have not been drained.
    pub app_data: Seq<Seq<u8>>,
    /// The statistics.
    pub stats: DataInputStats,
}

/// A new input channel.
pub open spec fn new_input(
    max_queued: u16,
    acknowledge_all_data: bool,
    ack_window: u16,
    max_ack_delay: nat,
    cipher: Option<Rc4State>,
    now: nat,
) -> InputState {
    InputState {
        max_queued,
        acknowledge_all_data,
        ack_window,
        max_ack_delay,
        cipher,
        window_start: 0,
        stash: Seq::empty(),
        assembly: None,
        last_ack_all_sequence: (-1) as i64,
        last_ack_all_time: now,
        outgoing: Seq::empty(),
        app_data: Seq::empty(),
        stats: no_input_stats(),
    }
}

/// Whether data is a bundle of several pieces.
pub open spec fn is_bundle(data: Seq<u8>) -> bool {
    data.len() > 2 && data[0] == MULTI_DATA_INDICATOR[0] && data[1] == MULTI_DATA_INDICATOR[1]
}

/// Encrypted data without the zero byte that may stand in front of it.
pub open spec fn unpadded(data: Seq<u8>) -> Seq<u8> {
    if data.len() > 1 && data[0] == 0 {
        data.skip(1)
    } else {
        data
    }
}

/// The position of the stashed packet with the given sequence, from `i` on.
pub open spec fn stash_position(stash: Seq<StashedPacket>, sequence: i64, i: int) -> Option<int>
    decreases stash.len() - i,
{
    if i >= stash.len() {
        None
    } else if stash[i].sequence == sequence {
        Some(i)
    } else {
        stash_position(stash, sequence, i + 1)
    }
}

pub proof fn lemma_stash_position(stash: Seq<StashedPacket>, sequence: i64, i: int)
    requires
        0 <= i,
    ensures
        stash_position(stash, sequence, i) matches Some(pos) ==> i <= pos < stash.len()
            && stash[pos].sequence == sequence,
        stash_position(stash, sequence, i) is None ==> forall|k: int|
            i <= k < stash.len() ==> stash[k].sequence != sequence,
    decreases stash.len() - i,
{
    if i < stash.len() && stash[i].sequence != sequence {
        lemma_stash_position(stash, sequence, i + 1);
    }
}

impl InputState {
    /// The channel that has received a packet of any kind.
    pub open spec fn tallied(self) -> InputState {
        InputState {
            stats: DataInputStats {
                total_received: counted(self.stats.total_received, 1),
                ..self.stats
            },
            ..self
        }
    }

    /// The channel that has received a packet again.
    pub open spec fn duplicated(self) -> InputState {
        InputState {
            stats: DataInputStats {
                duplicate_count: counted(self.stats.duplicate_count, 1),
                ..self.stats
            },
            ..self
        }
    }

    /// The channel that wishes to acknowledge one packet.
    pub open spec fn acknowledging(self, sequence: u16) -> InputState {
        InputState {
            outgoing: self.outgoing.push(
                OutgoingContextual { op_code: OpCode::Acknowledge, sequence },
            ),
            ..self
        }
    }

    /// The last sequence whose turn has come and gone.
    pub open spec fn last_complete(self) -> i64 {
        self.window_start.wrapping_sub(1)
    }

    /// The channel that wishes to acknowledge everything whose turn has come and gone.
    pub open spec fn acknowledging_all(self, now: nat) -> InputState {
        InputState {
            outgoing: self.outgoing.push(
                OutgoingContextual {
                    op_code: OpCode::AcknowledgeAll,
                    sequence: short_sequence(self.last_complete()),
                },
            ),
            last_ack_all_sequence: self.last_complete(),
            last_ack_all_time: now,
            ..self
        }
    }

    /// Whether nothing has been acknowledged as a whole for longer than the maximum
    /// delay.
    pub open spec fn ack_delayed(self, now: nat) -> bool {
        elapsed(now, self.last_ack_all_time) > self.max_ack_delay
    }

    /// The channel after a packet whose turn has not come has been put aside, unless it
    /// has been before.
    pub open spec fn stashed(self, packet: StashedPacket) -> InputState {
        match stash_position(self.stash, packet.sequence, 0) {
            Some(_) => self.duplicated(),
            None => InputState {
                stash: self.stash.push(packet),
                stats: DataInputStats {
                    out_of_order_count: counted(self.stats.out_of_order_count, 1),
                    ..self.stats
                },
                ..self
            },
        }
    }

    /// The channel after a piece of application data has been decrypted, if a cipher is
    /// in use, and queued for the application.
    pub open spec fn delivered(self, data: Seq<u8>) -> InputState {
        match self.cipher {
            Some(c) => InputState {
                app_data: self.app_data.push(c.transformed(unpadded(data))),
                cipher: Some(c.after(unpadded(data).len())),
                ..self
            },
            None => InputState { app_data: self.app_data.push(data), ..self },
        }
    }

    /// The channel after the pieces of a bundle have been delivered, and whether the
    /// bundle is well-formed. Pieces ahead of a malformed one are delivered.
    pub open spec fn unbundled(self, rest: Seq<u8>) -> (InputState, bool)
        decreases rest.len(),
    {
        if rest.len() == 0 {
            (self, true)
        } else {
            match data_bundle::decoded(rest) {
                (Err(_), _) => (self, false),
                (Ok(len), at) => if len > rest.len() - at {
                    (self, false)
                } else {
                    self.delivered(rest.subrange(at, at + len)).unbundled(rest.skip(at + len))
                },
            }
        }
    }

    /// The channel after a complete piece of data, and whether it is well-formed.
    pub open spec fn processed(self, data: Seq<u8>) -> (InputState, bool) {
        if is_bundle(data) {
            self.unbundled(data.skip(2))
        } else {
            (self.delivered(data), true)
        }
    }

    /// The channel after `data` has arrived of a piece of the given total length.
    pub open spec fn assembled(self, total: u32, data: Seq<u8>) -> (InputState, bool) {
        if data.len() > total {
            (self, false)
        } else if data.len() == total {
            (InputState { assembly: None, ..self }).processed(data)
        } else {
            (InputState { assembly: Some(Assembly { total, data }), ..self }, true)
        }
    }

    /// The channel after a fragment whose turn it is, and whether it is well-formed.
    pub open spec fn fragment_processed(self, data: Seq<u8>) -> (InputState, bool) {
        match self.assembly {
            Some(assembly) => self.assembled(assembly.total, assembly.data + data),
            None => if data.len() < 4 || be_at(data, 0, 4) > MAX_REASSEMBLED_LENGTH {
                (self, false)
            } else {
                self.assembled(be_at(data, 0, 4) as u32, data.skip(4))
            },
        }
    }

    /// The channel after a packet whose turn it is, and whether the packet is well-formed.
    pub open spec fn consumed(self, is_fragment: bool, data: Seq<u8>) -> (InputState, bool) {
        let (after, ok) = if is_fragment {
            self.fragment_processed(data)
        } else {
            self.processed(data)
        };
        if ok {
            (InputState { window_start: after.window_start.wrapping_add(1), ..after }, true)
        } else {
            (after, false)
        }
    }

    /// The channel after the stashed packets whose turn has come, and whether all of them
    /// are well-formed.
    pub open spec fn drained(self) -> (InputState, bool)
        decreases self.stash.len(),
    {
        match stash_position(self.stash, self.window_start, 0) {
            None => (self, true),
            Some(pos) => {
                proof {
                    lemma_stash_position(self.stash, self.window_start, 0);
                    lemma_consumed_keeps_stash(
                        self.without(pos),
                        self.stash[pos].is_fragment,
                        self.stash[pos].data,
                    );
                }
                let packet = self.stash[pos];
                let (after, ok) = self.without(pos).consumed(packet.is_fragment, packet.data);
                if ok {
                    after.drained()
                } else {
                    (after, false)
                }
            },
        }
    }

    /// The channel without one of the stashed packets.
    pub open spec fn without(self, pos: int) -> InputState {
        InputState { stash: self.stash.remove(pos), ..self }
    }

    /// The channel after a packet (sequence and data) has arrived, and whether the packet
    /// is well-formed.
    pub open spec fn received(self, body: Seq<u8>, is_fragment: bool, now: nat) -> (
        InputState,
        bool,
    ) {
        if body.len() < 2 {
            (self, false)
        } else {
            let short = be_at(body, 0, 2) as u16;
            let sequence = true_sequence(short, self.window_start, self.max_queued as i64);
            let start = self.tallied();
            if sequence > self.window_start.wrapping_add(self.max_queued as i64) {
                (start, true)
            } else if sequence < self.window_start {
                (
                    if start.ack_delayed(now) {
                        start.duplicated().acknowledging_all(now)
                    } else {
                        start.duplicated()
                    },
                    true,
                )
            } else if sequence > self.window_start {
                (
                    start.acknowledging(short).stashed(
                        StashedPacket { sequence, is_fragment, data: body.skip(2) },
                    ),
                    true,
                )
            } else {
                let (after, ok) = (if self.acknowledge_all_data {
                    start.acknowledging(short)
                } else {
                    start
                }).consumed(is_fragment, body.skip(2));
                if ok {
                    after.drained()
                } else {
                    (after, false)
                }
            }
        }
    }

    /// The channel after a tick: what has been received is acknowledged as a whole if
    /// half of the window has been received since that was done last, or if that has been
    /// put off for the maximum delay.
    pub open spec fn ticked(self, now: nat) -> InputState {
        if !self.acknowledge_all_data && self.last_complete() > self.last_ack_all_sequence && (
        self.last_complete() >= self.last_ack_all_sequence.wrapping_add(
            (self.ack_window / 2) as i64,
        ) || self.ack_delayed(now)) {
            self.acknowledging_all(now)
        } else {
            self
        }
    }
}

proof fn lemma_unbundled_keeps(s: InputState, rest: Seq<u8>)
    ensures
        s.unbundled(rest).0 == (InputState {
            app_data: s.unbundled(rest).0.app_data,
            cipher: s.unbundled(rest).0.cipher,
            ..s
        }),
    decreases rest.len(),
{
    if rest.len() > 0 {
        match data_bundle::decoded(rest) {
            (Err(_), _) => {},
            (Ok(len), at) => if len <= rest.len() - at {
                lemma_unbundled_keeps(
                    s.delivered(rest.subrange(at, at + len)),
                    rest.skip(at + len),
                );
            },
        }
    }
}

/// A packet whose turn it is changes nothing but the position of the window, what is
/// being reassembled, the cipher and the application data.
pub proof fn lemma_consumed_keeps_stash(s: InputState, is_fragment: bool, data: Seq<u8>)
    ensures
        s.consumed(is_fragment, data).0 == (InputState {
            app_data: s.consumed(is_fragment, data).0.app_data,
            cipher: s.consumed(is_fragment, data).0.cipher,
            assembly: s.consumed(is_fragment, data).0.assembly,
            window_start: s.consumed(is_fragment, data).0.window_start,
            ..s
        }),
        s.consumed(is_fragment, data).0.window_start == (if s.consumed(is_fragment, data).1 {
            s.window_start.wrapping_add(1)
        } else {
            s.window_start
        }),
{
    if is_fragment {
        let (total, whole) = match s.assembly {
            Some(assembly) => (assembly.total, assembly.data + data),
            None => (be_at(data, 0, 4) as u32, data.skip(4)),
        };
        lemma_unbundled_keeps(InputState { assembly: None, ..s }, whole.skip(2));
    } else {
        lemma_unbundled_keeps(s, data.skip(2));
    }
}

struct StashedInputPacket {
    sequence: i64,
    is_fragment: bool,
    data: Bytes,
}

impl StashedInputPacket {
    spec fn packet(self) -> StashedPacket {
        StashedPacket {
            sequence: self.sequence,
            is_fragment: self.is_fragment,
            data: held(self.data),
        }
    }
}

struct PartialData {
    total: u32,
    data: Vec<u8>,
}

spec fn assembly_view(assembly: Option<PartialData>) -> Option<Assembly> {
    match assembly {
        Some(partial) => Some(Assembly { total: partial.total, data: partial.data@ }),
        None => None,
    }
}

/// Orders and reassembles incoming reliable data packets.
pub struct ReliableDataInputChannel {
    config: InputConfig,
    cipher: Option<Rc4KeyState>,
    /// The sequence of the packet whose turn it is.
    window_start: i64,
    stash: Vec<StashedInputPacket>,
    assembly: Option<PartialData>,
    last_ack_all_sequence: i64,
    last_ack_all_time: Instant,
    outgoing: Vec<OutgoingContextual>,
    app_data: Vec<Bytes>,
    stats: DataInputStats,
}

impl View for ReliableDataInputChannel {
    type V = InputState;

    closed spec fn view(&self) -> InputState {
        InputState {
            max_queued: self.config.max_queued_incoming,
            acknowledge_all_data: self.config.acknowledge_all_data,
            ack_window: self.config.data_ack_window,
            max_ack_delay: self.config.max_ack_delay@,
            cipher: cipher_view(self.cipher),
            window_start: self.window_start,
            stash: Seq::new(self.stash@.len(), |i: int| self.stash@[i].packet()),
            assembly: assembly_view(self.assembly),
            last_ack_all_sequence: self.last_ack_all_sequence,
            last_ack_all_time: self.last_ack_all_time@,
            outgoing: self.outgoing@,
            app_data: held_each(self.app_data@),
            stats: self.stats,
        }
    }
}

impl ReliableDataInputChannel {
    /// Creates a new input channel. `cipher` is the initial RC4 key state; pass `Some(..)`
    /// to enable RC4 decryption of the proxied application data, or `None` to pass it
    /// through as it is.
    pub fn new(config: InputConfig, cipher: Option<Rc4KeyState>, now: Instant) -> (ch: Self)
        ensures
            ch@ == new_input(
                config.max_queued_incoming,
                config.acknowledge_all_data,
                config.data_ack_window,
                config.max_ack_delay@,
                cipher_view(cipher),
                now@,
            ),
    {
        let ch = Self {
            config,
            cipher,
            window_start: 0,
            stash: Vec::new(),
            assembly: None,
            last_ack_all_sequence: -1,
            last_ack_all_time: now,
            outgoing: Vec::new(),
            app_data: Vec::new(),
            stats: DataInputStats::default(),
        };
        assert(ch@ =~= new_input(
            config.max_queued_incoming,
            config.acknowledge_all_data,
            config.data_ack_window,
            config.max_ack_delay@,
            cipher_view(cipher),
            now@,
        ));
        ch
    }

    /// Returns the gathered input statistics.
    pub fn stats(&self) -> (stats: &DataInputStats)
        ensures
            *stats == self@.stats,
    {
        &self.stats
    }

    /// Drains the acknowledgements accumulated so far.
    pub fn take_outgoing(&mut self) -> (acks: Vec<OutgoingContextual>)
        ensures
            acks@ == old(self)@.outgoing,
            final(self)@ == (InputState { outgoing: Seq::empty(), ..old(self)@ }),
    {
        let mut acks: Vec<OutgoingContextual> = Vec::new();
        std::mem::swap(&mut acks, &mut self.outgoing);
        assert(self@ =~= (InputState { outgoing: Seq::empty(), ..old(self)@ }));
        acks
    }

    /// Drains the application data accumulated so far.
    pub fn take_app_data(&mut self) -> (data: Vec<Bytes>)
        ensures
            held_each(data@) == old(self)@.app_data,
            final(self)@ == (InputState { app_data: Seq::empty(), ..old(self)@ }),
    {
        let mut data: Vec<Bytes> = Vec::new();
        std::mem::swap(&mut data, &mut self.app_data);
        assert(self@ =~= (InputState { app_data: Seq::empty(), ..old(self)@ }));
        data
    }

    /// Handles an incoming reliable data packet: a big-endian `u16` sequence, and a
    /// complete piece of data. Fails if no well-behaved remote can have sent it.
    pub fn handle_reliable_data(&mut self, body: Bytes, now: Instant) -> (r: Result<
        (),
        CorruptData,
    >)
        ensures
            final(self)@ == old(self)@.received(held(body), false, now@).0,
            r is Ok <==> old(self)@.received(held(body), false, now@).1,
    {
        self.handle(body, false, now)
    }

    /// Handles an incoming reliable data fragment: a big-endian `u16` sequence, in the
    /// first fragment of a piece of data the big-endian `u32` total length, and a part of
    /// the data. Fails if no well-behaved remote can have sent it.
    pub fn handle_reliable_data_fragment(&mut self, body: Bytes, now: Instant) -> (r: Result<
        (),
        CorruptData,
    >)
        ensures
            final(self)@ == old(self)@.received(held(body), true, now@).0,
            r is Ok <==> old(self)@.received(held(body), true, now@).1,
    {
        self.handle(body, true, now)
    }

    fn deliver(&mut self, data: Bytes)
        ensures
            final(self)@ == old(self)@.delivered(held(data)),
    {
        let ghost bytes = held(data);
        let ghost start = self@;
        match &mut self.cipher {
            None => {
                self.app_data.push(data);
            },
            Some(cipher) => {
                let whole = bytes_ref(&data);
                let from: usize = if whole.len() > 1 && whole[0] == 0 {
                    1
                } else {
                    0
                };
                let mut plain: Vec<u8> = Vec::new();
                plain.extend_from_slice(&whole[from..whole.len()]);
                assert(plain@ =~= unpadded(bytes));
                cipher.transform_in_place(plain.as_mut_slice());
                self.app_data.push(bytes_from_vec(plain));
            },
        }
        assert(self@.app_data =~= start.delivered(bytes).app_data);
        assert(self@ =~= start.delivered(bytes));
    }

    fn unbundle(&mut self, data: Bytes, start: usize) -> (ok: bool)
        requires
            start <= held(data).len(),
        ensures
            (final(self)@, ok) == old(self)@.unbundled(held(data).skip(start as int)),
    {
        let ghost bytes = held(data);
        let ghost first = self@;
        let mut offset: usize = start;
        let len: usize = bytes_ref(&data).len();
        while offset < len
            invariant
                bytes == held(data),
                len == bytes.len(),
                offset <= len,
                first.unbundled(bytes.skip(start as int)) == self@.unbundled(
                    bytes.skip(offset as int),
                ),
                first == old(self)@,
            decreases len - offset,
        {
            let ghost rest = bytes.skip(offset as int);
            let mut reader = BinaryReader::new(&bytes_ref(&data)[offset..len]);
            assert(reader.rest() =~= rest);
            let piece: usize = match data_bundle::read(&mut reader) {
                Ok(n) => n as usize,
                Err(_) => {
                    return false;
                },
            };
            offset = offset + reader.offset();
            if piece > len - offset {
                return false;
            }
            let part = bytes_slice(&data, offset, offset + piece);
            proof {
                let at = data_bundle::decoded(rest).1;
                assert(held(part) =~= rest.subrange(at, at + piece));
                assert(bytes.skip(offset + piece) =~= rest.skip(at + piece));
            }
            self.deliver(part);
            offset = offset + piece;
        }
        true
    }

    fn process(&mut self, data: Bytes) -> (ok: bool)
        ensures
            (final(self)@, ok) == old(self)@.processed(held(data)),
    {
        let whole = bytes_ref(&data);
        if whole.len() > 2 && whole[0] == MULTI_DATA_INDICATOR[0] && whole[1]
            == MULTI_DATA_INDICATOR[1] {
            self.unbundle(data, 2)
        } else {
            self.deliver(data);
            true
        }
    }

    fn assemble(&mut self, total: u32, data: Vec<u8>) -> (ok: bool)
        ensures
            (final(self)@, ok) == old(self)@.assembled(total, data@),
    {
        if data.len() == total as usize {
            self.assembly = None;
            assert(self@ =~= (InputState { assembly: None, ..old(self)@ }));
            self.process(bytes_from_vec(data))
        } else {
            if data.len() > total as usize {
                return false;
            }
            let ghost seq = data@;
            self.assembly = Some(PartialData { total, data });
            assert(self@ =~= (InputState {
                assembly: Some(Assembly { total, data: seq }),
                ..old(self)@
            }));
            true
        }
    }

    fn process_fragment(&mut self, data: Bytes) -> (ok: bool)
        ensures
            (final(self)@, ok) == old(self)@.fragment_processed(held(data)),
    {
        let ghost start = self@;
        let part = bytes_ref(&data);
        match self.assembly.take() {
            Some(partial) => {
                let mut partial = partial;
                let have: usize = partial.data.len();
                if have > partial.total as usize || part.len() > partial.total as usize - have {
                    self.assembly = Some(partial);
                    assert(self@ =~= start);
                    return false;
                }
                partial.data.extend_from_slice(part);
                let ghost without = InputState { assembly: None, ..start };
                assert(self@ =~= without);
                assert(partial.data@ =~= start.assembly->Some_0.data + held(data));
                self.assemble(partial.total, partial.data)
            },
            None => {
                assert(self@ =~= start);
                if part.len() < 4 {
                    return false;
                }
                let mut reader = BinaryReader::new(part);
                let total: u32 = match reader.read_u32() {
                    Ok(total) => total,
                    Err(_) => {
                        return false;
                    },
                };
                proof {
                    lemma_be_value_bound(held(data).subrange(0, 4));
                    lemma_pow256_values();
                }
                if total > MAX_REASSEMBLED_LENGTH {
                    return false;
                }
                let mut first: Vec<u8> = Vec::new();
                first.extend_from_slice(&part[4..part.len()]);
                assert(first@ =~= held(data).skip(4));
                self.assemble(total, first)
            },
        }
    }

    fn consume(&mut self, is_fragment: bool, data: Bytes) -> (ok: bool)
        ensures
            (final(self)@, ok) == old(self)@.consumed(is_fragment, held(data)),
    {
        let ok = if is_fragment {
            self.process_fragment(data)
        } else {
            self.process(data)
        };
        if ok {
            let ghost after = self@;
            self.window_start = self.window_start.wrapping_add(1);
            assert(self@ =~= (InputState {
                window_start: after.window_start.wrapping_add(1),
                ..after
            }));
        }
        ok
    }

    fn find_stashed(&self, sequence: i64) -> (pos: Option<usize>)
        ensures
            match pos {
                Some(pos) => pos < self@.stash.len() && stash_position(self@.stash, sequence, 0)
                    == Some(pos as int),
                None => stash_position(self@.stash, sequence, 0) is None,
            },
    {
        let mut i: usize = 0;
        while i < self.stash.len()
            invariant
                i <= self@.stash.len(),
                self@.stash.len() == self.stash@.len(),
                stash_position(self@.stash, sequence, 0) == stash_position(
                    self@.stash,
                    sequence,
                    i as int,
                ),
            decreases self.stash@.len() - i,
        {
            assert(self@.stash[i as int] == self.stash@[i as int].packet());
            if self.stash[i].sequence == sequence {
                return Some(i);
            }
            i = i + 1;
        }
        None
    }

    fn drain(&mut self) -> (ok: bool)
        ensures
            (final(self)@, ok) == old(self)@.drained(),
    {
        let ghost start = self@;
        loop
            invariant
                start == old(self)@,
                self@.drained() == start.drained(),
            decreases self@.stash.len(),
        {
            match self.find_stashed(self.window_start) {
                None => {
                    return true;
                },
                Some(pos) => {
                    let ghost before = self@;
                    let ghost entries = self.stash@;
                    let packet = self.stash.remove(pos);
                    proof {
                        assert(before.stash[pos as int] == entries[pos as int].packet());
                        assert forall|i: int| 0 <= i < self@.stash.len() implies self@.stash[i]
                            == before.stash.remove(pos as int)[i] by {
                            let from = if i < pos { i } else { i + 1 };
                            assert(before.stash[from] == entries[from].packet());
                        }
                        assert(self@.stash =~= before.stash.remove(pos as int));
                        assert(self@ =~= before.without(pos as int));
                        lemma_consumed_keeps_stash(
                            self@,
                            packet.is_fragment,
                            held(packet.data),
                        );
                    }
                    if !self.consume(packet.is_fragment, packet.data) {
                        return false;
                    }
                },
            }
        }
    }

    fn count_duplicate(&mut self)
        ensures
            final(self)@ == old(self)@.duplicated(),
    {
        self.stats.duplicate_count = self.stats.duplicate_count.wrapping_add(1);
        assert(self@ =~= old(self)@.duplicated());
    }

    fn acknowledge(&mut self, sequence: u16)
        ensures
            final(self)@ == old(self)@.acknowledging(sequence),
    {
        self.outgoing.push(OutgoingContextual { op_code: OpCode::Acknowledge, sequence });
        assert(self@ =~= old(self)@.acknowledging(sequence));
    }

    fn acknowledge_all(&mut self, now: Instant)
        ensures
            final(self)@ == old(self)@.acknowledging_all(now@),
    {
        let to_acknowledge: i64 = self.window_start.wrapping_sub(1);
        self.outgoing.push(
            OutgoingContextual {
                op_code: OpCode::AcknowledgeAll,
                sequence: shorten(to_acknowledge),
            },
        );
        self.last_ack_all_sequence = to_acknowledge;
        self.last_ack_all_time = now;
        assert(self@ =~= old(self)@.acknowledging_all(now@));
    }

    fn ack_delayed(&self, now: Instant) -> (delayed: bool)
        ensures
            delayed == self@.ack_delayed(now@),
    {
        now.duration_since(self.last_ack_all_time).as_nanos()
            > self.config.max_ack_delay.as_nanos()
    }

    fn set_aside(&mut self, sequence: i64, is_fragment: bool, data: Bytes)
        ensures
            final(self)@ == old(self)@.stashed(
                StashedPacket { sequence, is_fragment, data: held(data) },
            ),
    {
        if self.find_stashed(sequence).is_some() {
            self.count_duplicate();
            return;
        }
        let ghost packet = StashedPacket { sequence, is_fragment, data: held(data) };
        self.stash.push(StashedInputPacket { sequence, is_fragment, data });
        self.stats.out_of_order_count = self.stats.out_of_order_count.wrapping_add(1);
        proof {
            assert(self@.stash =~= old(self)@.stash.push(packet));
            assert(self@ =~= old(self)@.stashed(packet));
        }
    }

    fn handle(&mut self, body: Bytes, is_fragment: bool, now: Instant) -> (r: Result<
        (),
        CorruptData,
    >)
        ensures
            final(self)@ == old(self)@.received(held(body), is_fragment, now@).0,
            r is Ok <==> old(self)@.received(held(body), is_fragment, now@).1,
    {
        let whole = bytes_ref(&body);
        let len: usize = whole.len();
        if len < 2 {
            return Err(CorruptData);
        }
        let short: u16 = whole[0] as u16 * 256 + whole[1] as u16;
        proof {
            assert(held(body).subrange(0, 2) =~= seq![whole@[0], whole@[1]]);
            lemma_be_value_two(whole@[0], whole@[1]);
        }
        let max_queued: i64 = self.config.max_queued_incoming as i64;
        let sequence: i64 = true_incoming_sequence(short, self.window_start, max_queued);
        let data = bytes_slice(&body, 2, len);
        assert(held(data) =~= held(body).skip(2));

        self.stats.total_received = self.stats.total_received.wrapping_add(1);
        assert(self@ =~= old(self)@.tallied());

        // Too far ahead of the window: the remote will send it again.
        if sequence > self.window_start.wrapping_add(max_queued) {
            return Ok(());
        }
        // Already processed, so let the remote know; but since packets arrive in clumps,
        // not too often.
        if sequence < self.window_start {
            let delayed = self.ack_delayed(now);
            self.count_duplicate();
            if delayed {
                self.acknowledge_all(now);
            }
            return Ok(());
        }
        if sequence > self.window_start {
            self.acknowledge(short);
            self.set_aside(sequence, is_fragment, data);
            return Ok(());
        }
        if self.config.acknowledge_all_data {
            self.acknowledge(short);
        }
        if !self.consume(is_fragment, data) {
            return Err(CorruptData);
        }
        if self.drain() {
            Ok(())
        } else {
            Err(CorruptData)
        }
    }

    /// Runs a tick of the input channel, which acknowledges what has been received if it
    /// is time to do so.
    pub fn run_tick(&mut self, now: Instant)
        ensures
            final(self)@ == old(self)@.ticked(now@),
    {
        if self.config.acknowledge_all_data {
            return;
        }
        let to_acknowledge: i64 = self.window_start.wrapping_sub(1);
        if to_acknowledge <= self.last_ack_all_sequence {
            return;
        }
        let half_window: i64 = (self.config.data_ack_window / 2) as i64;
        if to_acknowledge >= self.last_ack_all_sequence.wrapping_add(half_window)
            || self.ack_delayed(now) {
            self.acknowledge_all(now);
        }
    }
}

} // verus!
