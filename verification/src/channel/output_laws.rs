//! What holds of the output channel as a whole.

use vstd::prelude::*;

use crate::channel::output::{
    counted, handed_out, later_fragments, leading, new_output, packets_for, position_of,
    sealed, sent_count, DataOutputStats, OutputState, QueuedPacket, FRAGMENT_LENGTH_SIZE,
    RTO_GRANULARITY, RTO_MAX, RTO_MIN,
};
use crate::channel::delivery_laws::law_order_kept;
use crate::channel::{
    law_sequence_in_window, law_sequence_recovered, law_sequence_settles, short_sequence,
    SEQUENCE_BLOCK,
};
use crate::rc4::Rc4State;
use crate::wire::lemma_be_bytes_len;

verus! {

impl OutputState {
    /// That the channel keeps to its window: no packet behind the window is in flight,
    /// and the dispatch position lies in the queue and in the window.
    pub open spec fn keeps_window(self) -> bool {
        &&& 0 <= self.dispatch_index <= self.queue.len()
        &&& self.dispatch_index <= self.window
        &&& forall|i: int| self.window <= i < self.queue.len() ==> !(#[trigger] self.queue[i]).sent
    }

    /// That the packets in the queue are in the order of their sequences, all of which are
    /// below the next one.
    pub open spec fn is_ordered(self) -> bool {
        &&& forall|i: int, j: int|
            0 <= i < j < self.queue.len() ==> (#[trigger] self.queue[i]).sequence < (
            #[trigger] self.queue[j]).sequence
        &&& forall|i: int|
            0 <= i < self.queue.len() ==> (#[trigger] self.queue[i]).sequence
                < self.total_sequence
    }

    /// That the sequences which an acknowledgement can speak of are within the range of
    /// sequences.
    pub open spec fn can_acknowledge(self) -> bool {
        &&& self.max_client_sequence + self.window <= i64::MAX
        &&& self.max_client_sequence + SEQUENCE_BLOCK <= i64::MAX
    }

    /// That no packet in the queue, and none that is handed out, is longer than a packet
    /// may be.
    pub open spec fn packets_fit(self) -> bool {
        &&& forall|i: int|
            0 <= i < self.queue.len() ==> (#[trigger] self.queue[i]).data.len()
                <= self.max_data_length
        &&& forall|i: int|
            0 <= i < self.outgoing.len() ==> (#[trigger] self.outgoing[i]).payload.len()
                <= self.max_data_length
    }
}

/// A new channel keeps to its window, is ordered, and holds no packet that is too long.
pub proof fn law_new_output(
    max_data_length: usize,
    window: usize,
    ack_wait: nat,
    cipher: Option<Rc4State>,
)
    ensures
        new_output(max_data_length, window, ack_wait, cipher).keeps_window(),
        new_output(max_data_length, window, ack_wait, cipher).is_ordered(),
        new_output(max_data_length, window, ack_wait, cipher).packets_fit(),
{
}

proof fn lemma_later_fit(bytes: Seq<u8>, chunk: int, sequence: i64)
    ensures
        forall|i: int|
            0 <= i < later_fragments(bytes, chunk, sequence).len() ==> (
            #[trigger] later_fragments(bytes, chunk, sequence)[i]).data.len() <= 2 + chunk,
    decreases bytes.len(),
{
    lemma_be_bytes_len(short_sequence(sequence) as nat, 2);
    if bytes.len() > chunk && chunk > 0 {
        let next = later_fragments(bytes.skip(chunk), chunk, sequence.wrapping_add(1));
        lemma_later_fit(bytes.skip(chunk), chunk, sequence.wrapping_add(1));
        assert forall|i: int| 0 <= i < later_fragments(bytes, chunk, sequence).len() implies (
        #[trigger] later_fragments(bytes, chunk, sequence)[i]).data.len() <= 2 + chunk by {
            if i > 0 {
                assert(later_fragments(bytes, chunk, sequence)[i] == next[i - 1]);
            }
        }
    }
}

proof fn lemma_packets_fit(bytes: Seq<u8>, chunk: int, sequence: i64)
    requires
        bytes.len() <= chunk || chunk >= FRAGMENT_LENGTH_SIZE,
    ensures
        forall|i: int|
            0 <= i < packets_for(bytes, chunk, sequence).len() ==> (
            #[trigger] packets_for(bytes, chunk, sequence)[i]).data.len() <= 2 + chunk,
{
    lemma_be_bytes_len(short_sequence(sequence) as nat, 2);
    lemma_be_bytes_len((bytes.len() % 0x1_0000_0000) as nat, 4);
    if bytes.len() > chunk {
        let n = chunk - FRAGMENT_LENGTH_SIZE;
        let later = later_fragments(bytes.skip(n), chunk, sequence.wrapping_add(1));
        lemma_later_fit(bytes.skip(n), chunk, sequence.wrapping_add(1));
        assert forall|i: int| 0 <= i < packets_for(bytes, chunk, sequence).len() implies (
        #[trigger] packets_for(bytes, chunk, sequence)[i]).data.len() <= 2 + chunk by {
            if i > 0 {
                assert(packets_for(bytes, chunk, sequence)[i] == later[i - 1]);
            }
        }
    }
}

/// Neither enqueueing nor a tick nor an acknowledgement makes a channel queue or hand out a
/// packet that is longer than a packet may be, or changes how long that is.
pub proof fn law_packets_fit(s: OutputState, data: Seq<u8>, sequence: u16, now: nat)
    requires
        0 <= s.dispatch_index,
        s.packets_fit(),
        s.can_enqueue(data),
    ensures
        s.enqueued(data).packets_fit(),
        s.ticked(now).packets_fit(),
        s.acknowledged(sequence, now).packets_fit(),
        s.acknowledged_all(sequence, now).packets_fit(),
        s.enqueued(data).max_data_length == s.max_data_length,
        s.ticked(now).max_data_length == s.max_data_length,
        s.acknowledged(sequence, now).max_data_length == s.max_data_length,
        s.acknowledged_all(sequence, now).max_data_length == s.max_data_length,
{
    if data.len() > 0 {
        let bytes = sealed(s.cipher, data);
        let packets = packets_for(bytes, s.max_chunk(), s.total_sequence);
        lemma_packets_fit(bytes, s.max_chunk(), s.total_sequence);
        assert forall|i: int| 0 <= i < s.enqueued(data).queue.len() implies (
        #[trigger] s.enqueued(data).queue[i]).data.len() <= s.max_data_length by {
            if i < s.queue.len() {
                assert(s.enqueued(data).queue[i] == s.queue[i]);
            } else {
                assert(s.enqueued(data).queue[i] == packets[i - s.queue.len()]);
            }
        }
    }
    assert(s.ticked(now).packets_fit()) by {
        let after = s.ticked(now);
        let from = if s.timed_out(now) { 0 } else { s.dispatch_index };
        assert forall|i: int| 0 <= i < after.queue.len() implies (
        #[trigger] after.queue[i]).data.len() <= s.max_data_length by {
            assert(s.queue[i].data.len() <= s.max_data_length);
        }
        assert forall|i: int| 0 <= i < after.outgoing.len() implies (
        #[trigger] after.outgoing[i]).payload.len() <= s.max_data_length by {
            if i < s.outgoing.len() {
                assert(after.outgoing[i] == s.outgoing[i]);
            } else {
                let k = from + i - s.outgoing.len();
                assert(after.outgoing[i] == handed_out(s.queue[k]));
            }
        }
    }
    let seq = s.acknowledged_sequence(sequence);
    lemma_position(s.queue, seq, 0);
    lemma_leading(s.queue, seq, 0);
}

proof fn lemma_later_unsent(bytes: Seq<u8>, chunk: int, sequence: i64)
    ensures
        forall|i: int|
            0 <= i < later_fragments(bytes, chunk, sequence).len() ==> !(
            #[trigger] later_fragments(bytes, chunk, sequence)[i]).sent,
    decreases bytes.len(),
{
    if bytes.len() > chunk && chunk > 0 {
        lemma_later_unsent(bytes.skip(chunk), chunk, sequence.wrapping_add(1));
    }
}

/// No operation makes a channel exceed its window.
pub proof fn law_window_kept(s: OutputState, data: Seq<u8>, sequence: u16, now: nat)
    requires
        s.keeps_window(),
    ensures
        s.enqueued(data).keeps_window(),
        s.ticked(now).keeps_window(),
        s.acknowledged(sequence, now).keeps_window(),
        s.acknowledged_all(sequence, now).keeps_window(),
{
    let chunk = s.max_chunk();
    let bytes = sealed(s.cipher, data);
    lemma_later_unsent(
        bytes.skip(chunk - FRAGMENT_LENGTH_SIZE),
        chunk,
        s.total_sequence.wrapping_add(1),
    );
    let seq = s.acknowledged_sequence(sequence);
    lemma_position(s.queue, seq, 0);
    lemma_leading(s.queue, seq, 0);
}

proof fn lemma_position(queue: Seq<QueuedPacket>, sequence: i64, i: int)
    requires
        0 <= i,
    ensures
        position_of(queue, sequence, i) matches Some(pos) ==> i <= pos < queue.len()
            && queue[pos].sequence == sequence,
        position_of(queue, sequence, i) is None ==> forall|k: int|
            i <= k < queue.len() ==> (#[trigger] queue[k]).sequence != sequence,
    decreases queue.len() - i,
{
    if i < queue.len() && queue[i].sequence != sequence {
        lemma_position(queue, sequence, i + 1);
    }
}

proof fn lemma_leading(queue: Seq<QueuedPacket>, sequence: i64, i: int)
    requires
        0 <= i <= queue.len(),
    ensures
        i + leading(queue, sequence, i) <= queue.len(),
        forall|k: int|
            i <= k < i + leading(queue, sequence, i) ==> (#[trigger] queue[k]).sequence
                <= sequence,
        i + leading(queue, sequence, i) < queue.len() ==> queue[i + leading(
            queue,
            sequence,
            i,
        )].sequence > sequence,
    decreases queue.len() - i,
{
    if i < queue.len() && queue[i].sequence <= sequence {
        lemma_leading(queue, sequence, i + 1);
    }
}

proof fn lemma_sent_count_bound(queue: Seq<QueuedPacket>, start: int, end: int, limit: int)
    requires
        0 <= start <= end <= queue.len(),
        forall|i: int| limit <= i < queue.len() ==> !(#[trigger] queue[i]).sent,
        0 <= limit,
    ensures
        sent_count(queue, start, end) <= end - start,
        start == 0 ==> sent_count(queue, start, end) <= limit,
    decreases end - start,
{
    if start < end {
        lemma_sent_count_bound(queue, start, end - 1, limit);
    }
}

/// The number of packets in flight never exceeds the window, whatever is enqueued and
/// acknowledged and however often the channel is ticked: it holds of every channel that
/// keeps to its window, as each operation lets it.
pub proof fn law_in_flight_bounded(s: OutputState)
    requires
        s.keeps_window(),
    ensures
        sent_count(s.queue, 0, s.queue.len() as int) <= s.window,
{
    lemma_sent_count_bound(s.queue, 0, s.queue.len() as int, s.window as int);
}

/// A tick hands out the packets of the window that have not been dispatched, in order;
/// after a timeout it hands out the whole window again (go-back-N), and with nothing left
/// to dispatch and no timeout it changes nothing.
pub proof fn law_tick(s: OutputState, now: nat)
    requires
        s.keeps_window(),
    ensures
        s.timed_out(now) ==> s.ticked(now).outgoing == s.outgoing + Seq::new(
            s.window_end() as nat,
            |k: int| handed_out(s.queue[k]),
        ),
        !s.timed_out(now) && s.dispatch_index == s.window_end() ==> s.ticked(now) == s,
        s.ticked(now).dispatch_index == s.window_end(),
        s.ticked(now).queue.len() == s.queue.len(),
{
    if s.timed_out(now) {
        let t = s.backed_off();
        assert(t.window_end() == s.window_end());
        assert(s.ticked(now).outgoing =~= s.outgoing + Seq::new(
            s.window_end() as nat,
            |k: int| handed_out(s.queue[k]),
        ));
    }
}

/// The retransmit timeout that a measured round-trip time leads to lies between the two
/// bounds, and keeps headroom above the smoothed round-trip time as far as the upper
/// bound allows; backing off never goes beyond that bound and never lowers a timeout that
/// is within it.
pub proof fn law_rto_bounds(s: OutputState, sample: nat)
    ensures
        RTO_MIN <= s.sampled(sample).rto <= RTO_MAX,
        s.sampled(sample).srtt matches Some(srtt) && (s.sampled(sample).rto >= srtt
            + RTO_GRANULARITY || s.sampled(sample).rto == RTO_MAX),
        s.backed_off().rto <= RTO_MAX,
        s.rto <= RTO_MAX ==> s.backed_off().rto >= s.rto,
{
}

/// An acknowledgement speaks of a sequence that ends in the 16 bits it carries, and of one
/// within the window of the highest sequence acknowledged so far if there is one: of the
/// only one if the window is less than half a block.
pub proof fn law_acknowledged_sequence(s: OutputState, sequence: i64)
    requires
        0 <= s.max_client_sequence,
        s.can_acknowledge(),
        s.max_client_sequence - s.window <= sequence <= s.max_client_sequence + s.window,
    ensures
        ({
            let taken = s.acknowledged_sequence(short_sequence(sequence));
            &&& short_sequence(taken) == short_sequence(sequence)
            &&& s.max_client_sequence - s.window <= taken <= s.max_client_sequence + s.window
            &&& s.window < 0x8000 ==> taken == sequence
        }),
{
    law_sequence_in_window(sequence, s.max_client_sequence, s.window as i64);
    if s.window < 0x8000 {
        law_sequence_recovered(sequence, s.max_client_sequence, s.window as i64);
    }
}

/// An acknowledgement of everything up to a sequence takes exactly the packets up to that
/// sequence out of an ordered queue, and leaves the others as they are and in order. It is
/// counted as one, and each packet that leaves the queue is counted too.
pub proof fn law_acknowledge_all(s: OutputState, sequence: u16, now: nat)
    requires
        s.is_ordered(),
    ensures
        ({
            let seq = s.acknowledged_sequence(sequence);
            let after = s.acknowledged_all(sequence, now);
            let removed = s.queue.len() - after.queue.len();
            &&& after.is_ordered()
            &&& 0 <= removed <= s.queue.len()
            &&& after.queue == s.queue.skip(removed)
            &&& forall|i: int| 0 <= i < removed ==> (#[trigger] s.queue[i]).sequence <= seq
            &&& forall|i: int|
                removed <= i < s.queue.len() ==> (#[trigger] s.queue[i]).sequence > seq
            &&& after.stats == (DataOutputStats {
                incoming_acknowledge_count: counted(s.stats.incoming_acknowledge_count, 1),
                actual_acknowledge_count: counted(
                    s.stats.actual_acknowledge_count,
                    removed as nat,
                ),
                ..s.stats
            })
        }),
{
    let seq = s.acknowledged_sequence(sequence);
    let n = leading(s.queue, seq, 0) as int;
    lemma_leading(s.queue, seq, 0);
    let after = s.acknowledged_all(sequence, now);
    assert(after.queue == s.queue.skip(n));
    assert forall|i: int| n <= i < s.queue.len() implies (#[trigger] s.queue[i]).sequence
        > seq by {
        assert(s.queue[n].sequence > seq);
    }
}

/// Acknowledging everything up to a sequence once more takes nothing out of the queue, and
/// is counted as an acknowledgement of no packet.
pub proof fn law_acknowledge_all_again(s: OutputState, sequence: u16, now: nat, later: nat)
    requires
        0 <= s.max_client_sequence,
        s.can_acknowledge(),
        s.acknowledged_all(sequence, now).can_acknowledge(),
    ensures
        ({
            let once = s.acknowledged_all(sequence, now);
            let twice = once.acknowledged_all(sequence, later);
            &&& twice.queue == once.queue
            &&& twice.stats == (DataOutputStats {
                incoming_acknowledge_count: counted(
                    once.stats.incoming_acknowledge_count,
                    1,
                ),
                ..once.stats
            })
        }),
{
    let seq = s.acknowledged_sequence(sequence);
    let once = s.acknowledged_all(sequence, now);
    law_sequence_settles(sequence, s.max_client_sequence, s.window as i64);
    lemma_leading(s.queue, seq, 0);
    assert(once.acknowledged_sequence(sequence) == seq);
    assert(leading(once.queue, seq, 0) == 0);
    assert(once.queue.skip(0) =~= once.queue);
}

/// An acknowledgement of one sequence takes the packet with that sequence out of an
/// ordered queue, and no other.
pub proof fn law_acknowledge(s: OutputState, sequence: u16, now: nat)
    requires
        s.is_ordered(),
    ensures
        ({
            let seq = s.acknowledged_sequence(sequence);
            let after = s.acknowledged(sequence, now);
            &&& after.is_ordered()
            &&& forall|p: QueuedPacket|
                after.queue.contains(p) <==> s.queue.contains(p) && p.sequence != seq
        }),
{
    let seq = s.acknowledged_sequence(sequence);
    let after = s.acknowledged(sequence, now);
    lemma_position(s.queue, seq, 0);
    match position_of(s.queue, seq, 0) {
        None => {
            assert forall|p: QueuedPacket|
                after.queue.contains(p) <==> s.queue.contains(p) && p.sequence != seq by {
                if s.queue.contains(p) {
                    let k = choose|k: int| 0 <= k < s.queue.len() && s.queue[k] == p;
                    assert(s.queue[k].sequence != seq);
                }
            }
        },
        Some(pos) => {
            let rest = s.queue.remove(pos);
            assert(after.queue == rest);
            assert forall|p: QueuedPacket|
                after.queue.contains(p) <==> s.queue.contains(p) && p.sequence != seq by {
                if s.queue.contains(p) && p.sequence != seq {
                    let k = choose|k: int| 0 <= k < s.queue.len() && s.queue[k] == p;
                    let at = if k < pos { k } else { k - 1 };
                    assert(rest[at] == p);
                }
                if rest.contains(p) {
                    let k = choose|k: int| 0 <= k < rest.len() && rest[k] == p;
                    let at = if k < pos { k } else { k + 1 };
                    assert(s.queue[at] == p);
                    assert(at < pos ==> s.queue[at].sequence < s.queue[pos].sequence);
                    assert(at > pos ==> s.queue[at].sequence > s.queue[pos].sequence);
                }
            }
        },
    }
}

/// Something that is done to an output channel.
pub enum OutputStep {
    /// Data is enqueued.
    Enqueue {
        /// The data.
        data: Seq<u8>,
    },
    /// The channel is ticked.
    Tick {
        /// The time.
        now: nat,
    },
    /// What the channel hands out is taken.
    Take,
    /// The length that a packet may have is set.
    Resize {
        /// The length.
        max_data_length: usize,
    },
    /// One packet is acknowledged.
    Acknowledge {
        /// The 16 bits of its sequence.
        sequence: u16,
        /// The time.
        now: nat,
    },
    /// All packets up to one are acknowledged.
    AcknowledgeAll {
        /// The 16 bits of its sequence.
        sequence: u16,
        /// The time.
        now: nat,
    },
}

impl OutputState {
    /// The channel after a step.
    pub open spec fn stepped(self, step: OutputStep) -> OutputState {
        match step {
            OutputStep::Enqueue { data } => self.enqueued(data),
            OutputStep::Tick { now } => self.ticked(now),
            OutputStep::Take => OutputState { outgoing: Seq::empty(), ..self },
            OutputStep::Resize { max_data_length } => OutputState { max_data_length, ..self },
            OutputStep::Acknowledge { sequence, now } => self.acknowledged(sequence, now),
            OutputStep::AcknowledgeAll { sequence, now } => self.acknowledged_all(
                sequence,
                now,
            ),
        }
    }

    /// That a step can be taken: the data can be enqueued, and no sequence leaves the range
    /// of sequences.
    pub open spec fn can_step(self, step: OutputStep) -> bool {
        match step {
            OutputStep::Enqueue { data } => self.can_enqueue(data) && self.total_sequence
                + data.len() + 2 < i64::MAX,
            OutputStep::Acknowledge { sequence, now } => self.can_acknowledge(),
            OutputStep::AcknowledgeAll { sequence, now } => self.can_acknowledge(),
            _ => true,
        }
    }

    /// The channel after several steps.
    pub open spec fn after_steps(self, steps: Seq<OutputStep>) -> OutputState
        decreases steps.len(),
    {
        if steps.len() == 0 {
            self
        } else {
            self.after_steps(steps.drop_last()).stepped(steps.last())
        }
    }

    /// That several steps can be taken, one after the other.
    pub open spec fn can_take_steps(self, steps: Seq<OutputStep>) -> bool
        decreases steps.len(),
    {
        steps.len() > 0 ==> {
            &&& self.can_take_steps(steps.drop_last())
            &&& self.after_steps(steps.drop_last()).can_step(steps.last())
        }
    }
}

/// Whatever is done to a new channel, it keeps to its window, its queue is in the order of
/// the sequences, and no sequence is negative.
pub proof fn law_channel_stays_ordered(
    max_data_length: usize,
    window: usize,
    ack_wait: nat,
    cipher: Option<Rc4State>,
    steps: Seq<OutputStep>,
)
    requires
        new_output(max_data_length, window, ack_wait, cipher).can_take_steps(steps),
    ensures
        ({
            let s = new_output(max_data_length, window, ack_wait, cipher).after_steps(steps);
            &&& s.is_ordered()
            &&& s.keeps_window()
            &&& s.window == window
            &&& s.total_sequence >= 0
            &&& s.max_client_sequence >= 0
        }),
    decreases steps.len(),
{
    if steps.len() > 0 {
        law_channel_stays_ordered(
            max_data_length,
            window,
            ack_wait,
            cipher,
            steps.drop_last(),
        );
        let s = new_output(max_data_length, window, ack_wait, cipher).after_steps(
            steps.drop_last(),
        );
        match steps.last() {
            OutputStep::Enqueue { data } => {
                law_order_kept(s, data, 0);
                law_window_kept(s, data, 0, 0);
            },
            OutputStep::Tick { now } => {
                law_window_kept(s, Seq::empty(), 0, now);
            },
            OutputStep::Take => {},
            OutputStep::Resize { max_data_length } => {},
            OutputStep::Acknowledge { sequence, now } => {
                law_acknowledge(s, sequence, now);
                law_window_kept(s, Seq::empty(), sequence, now);
            },
            OutputStep::AcknowledgeAll { sequence, now } => {
                law_acknowledge_all(s, sequence, now);
                law_window_kept(s, Seq::empty(), sequence, now);
            },
        }
    }
}

/// A cumulative acknowledgement takes exactly the packets up to the sequence that it speaks
/// of out of the queue, whatever has been done to the channel before: the others stay as
/// they are and in order. It is counted as one, and each packet that leaves the queue is
/// counted too. Repeated, it takes nothing more out.
///
/// The sequence that it speaks of ends in the 16 bits that the acknowledgement carries. It
/// lies within the window of the highest sequence acknowledged so far if any such sequence
/// does, and is the only one that does if the window is less than half a block.
pub proof fn law_cumulative_acknowledgement(
    max_data_length: usize,
    window: usize,
    ack_wait: nat,
    cipher: Option<Rc4State>,
    steps: Seq<OutputStep>,
    sequence: u16,
    now: nat,
    later: nat,
)
    requires
        ({
            let o = new_output(max_data_length, window, ack_wait, cipher);
            &&& o.can_take_steps(steps)
            &&& o.after_steps(steps).can_acknowledge()
            &&& o.after_steps(steps).acknowledged_all(sequence, now).can_acknowledge()
        }),
    ensures
        ({
            let s = new_output(max_data_length, window, ack_wait, cipher).after_steps(steps);
            let current = s.max_client_sequence;
            let q = s.acknowledged_sequence(sequence);
            let after = s.acknowledged_all(sequence, now);
            let again = after.acknowledged_all(sequence, later);
            let removed = s.queue.len() - after.queue.len();
            &&& short_sequence(q) == sequence
            &&& forall|x: i64|
                #[trigger] short_sequence(x) == sequence && current - window <= x <= current
                    + window ==> current - window <= q <= current + window && (window < 0x8000
                    ==> q == x)
            &&& 0 <= removed <= s.queue.len()
            &&& after.queue == s.queue.skip(removed)
            &&& forall|i: int| 0 <= i < removed ==> (#[trigger] s.queue[i]).sequence <= q
            &&& forall|i: int|
                removed <= i < s.queue.len() ==> (#[trigger] s.queue[i]).sequence > q
            &&& after.is_ordered()
            &&& after.stats == (DataOutputStats {
                incoming_acknowledge_count: counted(s.stats.incoming_acknowledge_count, 1),
                actual_acknowledge_count: counted(
                    s.stats.actual_acknowledge_count,
                    removed as nat,
                ),
                ..s.stats
            })
            &&& again.queue == after.queue
            &&& again.stats.actual_acknowledge_count == after.stats.actual_acknowledge_count
        }),
{
    let s = new_output(max_data_length, window, ack_wait, cipher).after_steps(steps);
    let current = s.max_client_sequence;
    law_channel_stays_ordered(max_data_length, window, ack_wait, cipher, steps);
    law_acknowledge_all(s, sequence, now);
    law_acknowledge_all_again(s, sequence, now, later);
    law_sequence_settles(sequence, current, s.window as i64);
    let q = s.acknowledged_sequence(sequence);
    assert forall|x: i64|
        #[trigger] short_sequence(x) == sequence && current - window <= x <= current
            + window implies current - window <= q <= current + window && (window < 0x8000
        ==> q == x) by {
        law_acknowledged_sequence(s, x);
    }
}

} // verus!
