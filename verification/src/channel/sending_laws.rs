//! What an output channel does with a piece of data, from its being enqueued to its being
//! acknowledged.

use vstd::prelude::*;

use crate::buffer::held;
use crate::channel::delivery_laws::{enqueued_all, law_order_kept};
use crate::channel::output::{
    cipher_view, last_sample, later_fragments, leading, new_output, outgoing_packets,
    packets_for, position_of, sealed, sent_count, sequence_after, span_view, time_view, unsent,
    OutgoingPacket, OutgoingReliable, OutputState, QueuedPacket,
};
use crate::channel::output_laws::{law_channel_stays_ordered, OutputStep};
use crate::channel::short_sequence;
use crate::protocol::OpCode;
use crate::rc4::{law_advance_adds, law_stream_splits, Rc4KeyState, Rc4State};
use crate::time::{Duration, Instant};
use crate::wire::{be_bytes, lemma_be_bytes_len};

verus! {

/// The bytes that each of the packets of one piece of data carries: what stands behind the
/// sequence, and in a first fragment behind the total length too.
pub open spec fn bodies(packets: Seq<QueuedPacket>) -> Seq<Seq<u8>> {
    Seq::new(
        packets.len(),
        |i: int|
            packets[i].data.skip(
                if i == 0 && packets[i].is_fragment {
                    6
                } else {
                    2
                },
            ),
    )
}

/// What follows the first of the given packets.
spec fn tails(packets: Seq<QueuedPacket>) -> Seq<Seq<u8>> {
    Seq::new(packets.len(), |i: int| packets[i].data.skip(2))
}

proof fn lemma_unsent(sequence: i64, is_fragment: bool, chunk: Seq<u8>)
    ensures
        unsent(sequence, is_fragment, chunk).data.skip(2) == chunk,
        unsent(sequence, is_fragment, chunk).data.take(2) == be_bytes(
            short_sequence(sequence) as nat,
            2,
        ),
        unsent(sequence, is_fragment, chunk).data.len() == chunk.len() + 2,
{
    lemma_be_bytes_len(short_sequence(sequence) as nat, 2);
    assert(unsent(sequence, is_fragment, chunk).data.skip(2) =~= chunk);
    assert(unsent(sequence, is_fragment, chunk).data.take(2) =~= be_bytes(
        short_sequence(sequence) as nat,
        2,
    ));
}

/// That packets are new, numbered from `first` on, and carry their numbers in front.
spec fn fresh_from(packets: Seq<QueuedPacket>, first: int) -> bool {
    forall|i: int|
        0 <= i < packets.len() ==> {
            let p = #[trigger] packets[i];
            &&& p.sequence == first + i
            &&& p.data.len() > 2
            &&& p.data.take(2) == be_bytes(((first + i) % 0x1_0000) as nat, 2)
            &&& !p.sent
            &&& !p.resent
            &&& p.sent_at is None
        }
}

proof fn lemma_later(bytes: Seq<u8>, chunk: int, sequence: i64)
    requires
        0 < chunk,
        0 <= sequence,
        sequence + bytes.len() <= i64::MAX,
    ensures
        ({
            let later = later_fragments(bytes, chunk, sequence);
            &&& tails(later).flatten() == bytes
            &&& fresh_from(later, sequence as int)
            &&& later.len() <= bytes.len()
            &&& forall|i: int|
                0 <= i < later.len() ==> (#[trigger] later[i]).is_fragment && later[i].data.len()
                    <= chunk + 2
            &&& forall|i: int|
                0 <= i < later.len() - 1 ==> (#[trigger] later[i]).data.len() == chunk + 2
        }),
    decreases bytes.len(),
{
    let later = later_fragments(bytes, chunk, sequence);
    if bytes.len() == 0 {
        assert(tails(later) =~= Seq::empty());
        assert(tails(later).flatten() =~= bytes);
    } else if bytes.len() <= chunk {
        lemma_unsent(sequence, true, bytes);
        assert(tails(later) =~= seq![bytes]);
        assert(tails(later).drop_first() =~= Seq::empty());
        reveal_with_fuel(Seq::flatten, 2);
        assert(tails(later).flatten() =~= bytes);
    } else {
        let first = bytes.take(chunk);
        let rest = later_fragments(bytes.skip(chunk), chunk, sequence.wrapping_add(1));
        lemma_unsent(sequence, true, first);
        lemma_later(bytes.skip(chunk), chunk, sequence.wrapping_add(1));
        assert(later == seq![unsent(sequence, true, first)] + rest);
        assert(tails(later).drop_first() =~= tails(rest));
        assert(tails(later)[0] == first);
        assert(tails(later).flatten() =~= first + bytes.skip(chunk));
        assert(first + bytes.skip(chunk) =~= bytes);
        assert forall|i: int| 0 < i < later.len() implies #[trigger] later[i] == rest[i - 1] by {
        }
    }
}

proof fn lemma_sequence_counts(sequence: i64, n: nat)
    requires
        0 <= sequence,
        sequence + n <= i64::MAX,
    ensures
        sequence_after(sequence, n) == sequence + n,
    decreases n,
{
    if n > 0 {
        lemma_sequence_counts(sequence, (n - 1) as nat);
    }
}

/// Enqueued data is cut into packets without a byte too many or too few.
///
/// What stands for the data is the data itself, or, on a channel with a cipher, what the
/// cipher makes of it, with a zero byte in front if it begins with one. If that fits behind
/// a sequence it travels in one packet. Otherwise it is cut into fragments, all of them
/// full but the last, of which the first begins with the total length. The packets are
/// numbered from the next sequence on, and carry the low 16 bits of their numbers in front.
/// Nothing of what was queued before, or has been handed out, is touched.
#[verifier::rlimit(50)]
pub proof fn law_enqueue_cuts(o: OutputState, data: Seq<u8>)
    requires
        data.len() > 0,
        o.can_enqueue(data),
        0 <= o.total_sequence,
        o.total_sequence + data.len() + 2 < i64::MAX,
        data.len() < u32::MAX,
    ensures
        ({
            let after = o.enqueued(data);
            let packets = after.queue.skip(o.queue.len() as int);
            let n = packets.len() as int;
            let bytes = match o.cipher {
                Some(c) => if c.transformed(data)[0] == 0 {
                    seq![0u8] + c.transformed(data)
                } else {
                    c.transformed(data)
                },
                None => data,
            };
            &&& after.queue == o.queue + packets
            &&& n >= 1
            &&& bodies(packets).flatten() == bytes
            &&& forall|i: int|
                0 <= i < n ==> {
                    let p = #[trigger] packets[i];
                    &&& p.sequence == o.total_sequence + i
                    &&& p.data.take(2) == be_bytes(((o.total_sequence + i) % 0x1_0000) as nat, 2)
                    &&& 2 < p.data.len() <= o.max_data_length
                    &&& p.is_fragment == (bytes.len() + 2 > o.max_data_length)
                    &&& !p.sent
                    &&& !p.resent
                    &&& p.sent_at is None
                }
            &&& bytes.len() + 2 <= o.max_data_length ==> n == 1
            &&& bytes.len() + 2 > o.max_data_length ==> packets[0].data.subrange(2, 6)
                == be_bytes(bytes.len(), 4)
            &&& forall|i: int|
                0 <= i < n - 1 ==> (#[trigger] packets[i]).data.len() == o.max_data_length
            &&& after.total_sequence == o.total_sequence + n
            &&& after.cipher == (match o.cipher {
                Some(c) => Some(c.after(data.len())),
                None => None,
            })
            &&& after == (OutputState {
                cipher: after.cipher,
                queue: after.queue,
                total_sequence: after.total_sequence,
                ..o
            })
        }),
{
    let after = o.enqueued(data);
    let bytes = sealed(o.cipher, data);
    let chunk = o.max_data_length - 2;
    let sequence = o.total_sequence;
    let made = packets_for(bytes, chunk, sequence);
    let packets = after.queue.skip(o.queue.len() as int);
    assert(packets =~= made);
    assert(after.queue =~= o.queue + packets);
    if bytes.len() <= chunk {
        lemma_unsent(sequence, false, bytes);
        assert(bodies(packets) =~= seq![bytes]);
        assert(bodies(packets).drop_first() =~= Seq::empty());
        reveal_with_fuel(Seq::flatten, 2);
        assert(bodies(packets).flatten() =~= bytes);
    } else {
        let m = chunk - 4;
        let total = be_bytes(bytes.len(), 4);
        let master = total + bytes.take(m);
        let rest = later_fragments(bytes.skip(m), chunk, sequence.wrapping_add(1));
        lemma_be_bytes_len(bytes.len(), 4);
        lemma_unsent(sequence, true, master);
        lemma_later(bytes.skip(m), chunk, sequence.wrapping_add(1));
        assert(made == seq![unsent(sequence, true, master)] + rest);
        let head = made[0];
        assert(head.data.skip(6) =~= head.data.skip(2).skip(4));
        assert(master.skip(4) =~= bytes.take(m));
        assert(head.data.subrange(2, 6) =~= head.data.skip(2).take(4));
        assert(master.take(4) =~= total);
        assert(bodies(packets).drop_first() =~= tails(rest));
        assert(bodies(packets)[0] == bytes.take(m));
        assert(bodies(packets).flatten() =~= bytes.take(m) + bytes.skip(m));
        assert(bytes.take(m) + bytes.skip(m) =~= bytes);
        assert forall|i: int| 0 < i < made.len() implies #[trigger] made[i] == rest[i - 1] by {
        }
    }
    lemma_sequence_counts(sequence, made.len());
}

/// The pieces of data that are enqueued on a channel with a cipher go through one key
/// stream, one after the other: what the cipher makes of the next piece is what it makes of
/// all pieces run together, from where the ones before it end. So the ciphertexts of the
/// pieces, run together, are the ciphertext of the pieces run together.
#[verifier::rlimit(50)]
pub proof fn law_one_key_stream(o: OutputState, c: Rc4State, pieces: Seq<Seq<u8>>, data: Seq<u8>)
    requires
        o.cipher == Some(c),
        data.len() > 0,
        ({
            let before = enqueued_all(o, pieces);
            &&& before.can_enqueue(data)
            &&& 0 <= before.total_sequence
            &&& before.total_sequence + data.len() + 2 < i64::MAX
        }),
        data.len() < u32::MAX,
    ensures
        ({
            let before = enqueued_all(o, pieces);
            let after = before.enqueued(data);
            let sent = bodies(after.queue.skip(before.queue.len() as int)).flatten();
            let all = pieces.flatten();
            let ciphertext = c.transformed(all + data).skip(all.len() as int);
            &&& sent == (if ciphertext[0] == 0 {
                seq![0u8] + ciphertext
            } else {
                ciphertext
            })
            &&& c.transformed(all) + ciphertext == c.transformed(all + data)
            &&& before.cipher == Some(c.after(all.len()))
            &&& after.cipher == Some(c.after(all.len() + data.len()))
        }),
{
    let before = enqueued_all(o, pieces);
    let all = pieces.flatten();
    lemma_cipher_moves_on(o, c, pieces);
    law_enqueue_cuts(before, data);
    law_stream_splits(c, all, data);
    law_advance_adds(c, all.len(), data.len());
    let whole = c.transformed(all) + c.after(all.len()).transformed(data);
    assert(whole.skip(all.len() as int) =~= c.after(all.len()).transformed(data));
}

proof fn lemma_cipher_moves_on(o: OutputState, c: Rc4State, pieces: Seq<Seq<u8>>)
    requires
        o.cipher == Some(c),
    ensures
        enqueued_all(o, pieces).cipher == Some(c.after(pieces.flatten().len())),
    decreases pieces.len(),
{
    if pieces.len() > 0 {
        let first = pieces[0];
        let next = o.enqueued(first);
        let rest = pieces.drop_first();
        law_advance_adds(c, first.len(), rest.flatten().len());
        assert(next.cipher == Some(c.after(first.len())));
        lemma_cipher_moves_on(next, c.after(first.len()), rest);
        assert(pieces.flatten() == first + rest.flatten());
    }
}

proof fn lemma_sent_count(queue: Seq<QueuedPacket>, start: int, end: int)
    requires
        0 <= start <= end <= queue.len(),
    ensures
        sent_count(queue, start, end) == queue.subrange(start, end).filter(
            |p: QueuedPacket| p.sent,
        ).len(),
    decreases end - start,
{
    let part = queue.subrange(start, end);
    reveal(Seq::filter);
    if start < end {
        lemma_sent_count(queue, start, end - 1);
        assert(part.drop_last() =~= queue.subrange(start, end - 1));
    }
}

/// A tick hands out packets and leaves everything else of them alone.
///
/// If the packet at the front of the queue has been sent and not been acknowledged for
/// longer than the timeout, all packets in the window are handed out again and the timeout
/// doubles, up to eight seconds; otherwise those in the window that have not been handed
/// out yet are. Each is handed out with its own data and the OP code of its kind. All that a
/// tick changes of a packet is whether, when and how often it was sent: its sequence, its
/// data and whether it is a fragment stay.
#[verifier::rlimit(50)]
pub proof fn law_tick_hands_out(s: OutputState, now: nat)
    requires
        0 <= s.dispatch_index <= s.queue.len(),
        s.dispatch_index <= s.window,
    ensures
        ({
            let after = s.ticked(now);
            let end = if s.queue.len() <= s.window {
                s.queue.len() as int
            } else {
                s.window as int
            };
            let late = s.queue.len() > 0 && s.queue[0].sent && s.queue[0].sent_at is Some && now
                - s.queue[0].sent_at->Some_0 > s.rto;
            let from = if late {
                0
            } else {
                s.dispatch_index
            };
            let n = end - from;
            &&& after.queue.len() == s.queue.len()
            &&& forall|i: int|
                0 <= i < s.queue.len() ==> {
                    let p = s.queue[i];
                    let q = #[trigger] after.queue[i];
                    &&& q.sequence == p.sequence
                    &&& q.is_fragment == p.is_fragment
                    &&& q.data == p.data
                    &&& if from <= i < end {
                        q.sent && q.sent_at == Some(now) && q.resent == (p.resent || p.sent)
                    } else {
                        q == p
                    }
                }
            &&& after.outgoing.len() == s.outgoing.len() + n
            &&& after.outgoing.take(s.outgoing.len() as int) == s.outgoing
            &&& forall|k: int|
                0 <= k < n ==> {
                    let sent = #[trigger] after.outgoing[s.outgoing.len() + k];
                    let p = s.queue[from + k];
                    &&& sent.payload == p.data
                    &&& sent.op_code == (if p.is_fragment {
                        OpCode::ReliableDataFragment
                    } else {
                        OpCode::ReliableData
                    })
                }
            &&& after.dispatch_index == end
            &&& after.rto == (if !late {
                s.rto
            } else if s.rto * 2 <= 8_000_000_000 {
                s.rto * 2
            } else {
                8_000_000_000
            })
            &&& after.stats.total_sent == (s.stats.total_sent + n) % 0x1_0000_0000_0000_0000
            &&& after.stats.total_resent == (s.stats.total_resent + s.queue.subrange(
                from,
                end,
            ).filter(|p: QueuedPacket| p.sent).len()) % 0x1_0000_0000_0000_0000
            &&& after.stats.incoming_acknowledge_count == s.stats.incoming_acknowledge_count
            &&& after.stats.actual_acknowledge_count == s.stats.actual_acknowledge_count
            &&& after == (OutputState {
                queue: after.queue,
                outgoing: after.outgoing,
                dispatch_index: after.dispatch_index,
                rto: after.rto,
                stats: after.stats,
                ..s
            })
        }),
{
    let after = s.ticked(now);
    let begun = if s.timed_out(now) {
        s.backed_off()
    } else {
        s
    };
    let end = begun.window_end();
    lemma_sent_count(s.queue, begun.dispatch_index, end);
    assert(after.outgoing.take(s.outgoing.len() as int) =~= s.outgoing);
    assert forall|k: int| 0 <= k < end - begun.dispatch_index implies (
    #[trigger] after.outgoing[s.outgoing.len() + k]).payload == s.queue[begun.dispatch_index
        + k].data by {}
}

/// What a queue holds, apart from whether, when and how often it was sent.
spec fn unchanged(a: QueuedPacket, b: QueuedPacket) -> bool {
    a.sequence == b.sequence && a.is_fragment == b.is_fragment && a.data == b.data
}

#[verifier::rlimit(50)]
proof fn lemma_step_keeps(s: OutputState, step: OutputStep, j: int)
    requires
        0 <= s.dispatch_index <= s.queue.len(),
        s.dispatch_index <= s.window,
        s.total_sequence >= 0,
        s.can_step(step),
        0 <= j < s.stepped(step).queue.len(),
        s.stepped(step).queue[j].sequence < s.total_sequence,
    ensures
        exists|i: int|
            0 <= i < s.queue.len() && unchanged(
                #[trigger] s.queue[i],
                s.stepped(step).queue[j],
            ),
{
    let after = s.stepped(step);
    let witness = match step {
        OutputStep::Enqueue { data } => {
            if data.len() > 0 && j >= s.queue.len() {
                let bytes = sealed(s.cipher, data);
                lemma_made_sequences(bytes, s.max_chunk(), s.total_sequence);
                let made = packets_for(bytes, s.max_chunk(), s.total_sequence);
                assert(after.queue[j] == made[j - s.queue.len()]);
                assert(made[j - s.queue.len()].sequence >= s.total_sequence);
                j
            } else {
                j
            }
        },
        OutputStep::Tick { now } => {
            law_tick_hands_out(s, now);
            j
        },
        OutputStep::Acknowledge { sequence, now } => {
            let seq = s.acknowledged_sequence(sequence);
            lemma_first(s.queue, seq, 0);
            match position_of(s.queue, seq, 0) {
                Some(pos) => if j < pos {
                    j
                } else {
                    j + 1
                },
                None => j,
            }
        },
        OutputStep::AcknowledgeAll { sequence, now } => {
            let seq = s.acknowledged_sequence(sequence);
            lemma_front(s.queue, seq, 0);
            j + leading(s.queue, seq, 0)
        },
        _ => j,
    };
    assert(unchanged(s.queue[witness], after.queue[j]));
}

proof fn lemma_first(queue: Seq<QueuedPacket>, sequence: i64, i: int)
    requires
        0 <= i,
    ensures
        position_of(queue, sequence, i) matches Some(pos) ==> i <= pos < queue.len()
            && queue[pos].sequence == sequence && (forall|k: int|
            i <= k < pos ==> (#[trigger] queue[k]).sequence != sequence),
        position_of(queue, sequence, i) is None ==> forall|k: int|
            i <= k < queue.len() ==> (#[trigger] queue[k]).sequence != sequence,
    decreases queue.len() - i,
{
    if i < queue.len() && queue[i].sequence != sequence {
        lemma_first(queue, sequence, i + 1);
    }
}

proof fn lemma_front(queue: Seq<QueuedPacket>, sequence: i64, i: int)
    requires
        0 <= i <= queue.len(),
    ensures
        i + leading(queue, sequence, i) <= queue.len(),
    decreases queue.len() - i,
{
    if i < queue.len() && queue[i].sequence <= sequence {
        lemma_front(queue, sequence, i + 1);
    }
}

proof fn lemma_made_sequences(bytes: Seq<u8>, chunk: int, sequence: i64)
    requires
        0 <= sequence,
        bytes.len() <= chunk || chunk >= 4,
        sequence + bytes.len() + 1 <= i64::MAX,
    ensures
        forall|i: int|
            0 <= i < packets_for(bytes, chunk, sequence).len() ==> (#[trigger] packets_for(
                bytes,
                chunk,
                sequence,
            )[i]).sequence == sequence + i,
{
    if bytes.len() > chunk {
        let rest = bytes.skip(chunk - 4);
        lemma_later(rest, chunk, sequence.wrapping_add(1));
        let later = later_fragments(rest, chunk, sequence.wrapping_add(1));
        assert forall|i: int| 0 <= i < packets_for(bytes, chunk, sequence).len() implies (
        #[trigger] packets_for(bytes, chunk, sequence)[i]).sequence == sequence + i by {
            if i > 0 {
                assert(packets_for(bytes, chunk, sequence)[i] == later[i - 1]);
            }
        }
    }
}

#[verifier::rlimit(50)]
proof fn lemma_kept_since(
    max_data_length: usize,
    window: usize,
    ack_wait: nat,
    cipher: Option<Rc4State>,
    steps: Seq<OutputStep>,
    n: int,
    j: int,
)
    requires
        0 <= n <= steps.len(),
        new_output(max_data_length, window, ack_wait, cipher).can_take_steps(steps),
        ({
            let o = new_output(max_data_length, window, ack_wait, cipher);
            &&& 0 <= j < o.after_steps(steps).queue.len()
            &&& o.after_steps(steps).queue[j].sequence < o.after_steps(
                steps.take(n),
            ).total_sequence
        }),
    ensures
        ({
            let o = new_output(max_data_length, window, ack_wait, cipher);
            let early = o.after_steps(steps.take(n));
            let after = o.after_steps(steps);
            exists|i: int|
                0 <= i < early.queue.len() && unchanged(
                    #[trigger] early.queue[i],
                    after.queue[j],
                )
        }),
    decreases steps.len(),
{
    let o = new_output(max_data_length, window, ack_wait, cipher);
    let early = o.after_steps(steps.take(n));
    let after = o.after_steps(steps);
    if n == steps.len() {
        assert(steps.take(n) =~= steps);
        assert(unchanged(early.queue[j], after.queue[j]));
    } else {
        let earlier = steps.drop_last();
        let before = o.after_steps(earlier);
        assert(earlier.take(n) =~= steps.take(n));
        law_channel_stays_ordered(max_data_length, window, ack_wait, cipher, earlier);
        lemma_total_grows(max_data_length, window, ack_wait, cipher, earlier, n);
        lemma_step_keeps(before, steps.last(), j);
        let k = choose|k: int|
            0 <= k < before.queue.len() && unchanged(#[trigger] before.queue[k], after.queue[j]);
        lemma_kept_since(max_data_length, window, ack_wait, cipher, earlier, n, k);
        let i = choose|i: int|
            0 <= i < early.queue.len() && unchanged(
                #[trigger] early.queue[i],
                before.queue[k],
            );
        assert(unchanged(early.queue[i], after.queue[j]));
    }
}

#[verifier::rlimit(50)]
proof fn lemma_total_grows(
    max_data_length: usize,
    window: usize,
    ack_wait: nat,
    cipher: Option<Rc4State>,
    steps: Seq<OutputStep>,
    n: int,
)
    requires
        0 <= n <= steps.len(),
        new_output(max_data_length, window, ack_wait, cipher).can_take_steps(steps),
    ensures
        ({
            let o = new_output(max_data_length, window, ack_wait, cipher);
            o.after_steps(steps.take(n)).total_sequence <= o.after_steps(steps).total_sequence
        }),
    decreases steps.len(),
{
    let o = new_output(max_data_length, window, ack_wait, cipher);
    if n == steps.len() {
        assert(steps.take(n) =~= steps);
    } else {
        let earlier = steps.drop_last();
        assert(earlier.take(n) =~= steps.take(n));
        lemma_total_grows(max_data_length, window, ack_wait, cipher, earlier, n);
        law_channel_stays_ordered(max_data_length, window, ack_wait, cipher, earlier);
        lemma_step_counts_up(o.after_steps(earlier), steps.last());
    }
}

proof fn lemma_step_counts_up(s: OutputState, step: OutputStep)
    requires
        s.is_ordered(),
        s.total_sequence >= 0,
        s.can_step(step),
    ensures
        s.stepped(step).total_sequence >= s.total_sequence,
{
    if let OutputStep::Enqueue { data } = step {
        law_order_kept(s, data, 0);
    }
}

/// A packet is the same packet for as long as it is in the queue: whatever is done to a
/// channel after the first `n` steps, a packet that is still there has the data it had then
/// and is a fragment if it was one then. So it is sent again as it was sent first.
#[verifier::rlimit(50)]
pub proof fn law_packets_stay_the_same(
    max_data_length: usize,
    window: usize,
    ack_wait: nat,
    cipher: Option<Rc4State>,
    steps: Seq<OutputStep>,
    n: int,
    i: int,
    j: int,
)
    requires
        0 <= n <= steps.len(),
        new_output(max_data_length, window, ack_wait, cipher).can_take_steps(steps),
        new_output(max_data_length, window, ack_wait, cipher).can_take_steps(steps.take(n)),
        ({
            let o = new_output(max_data_length, window, ack_wait, cipher);
            let early = o.after_steps(steps.take(n));
            let late = o.after_steps(steps);
            &&& 0 <= i < early.queue.len()
            &&& 0 <= j < late.queue.len()
            &&& early.queue[i].sequence == late.queue[j].sequence
        }),
    ensures
        ({
            let o = new_output(max_data_length, window, ack_wait, cipher);
            let early = o.after_steps(steps.take(n));
            let late = o.after_steps(steps);
            &&& early.queue[i].data == late.queue[j].data
            &&& early.queue[i].is_fragment == late.queue[j].is_fragment
        }),
{
    let o = new_output(max_data_length, window, ack_wait, cipher);
    let early = o.after_steps(steps.take(n));
    let late = o.after_steps(steps);
    law_channel_stays_ordered(max_data_length, window, ack_wait, cipher, steps.take(n));
    lemma_kept_since(max_data_length, window, ack_wait, cipher, steps, n, j);
    let k = choose|k: int|
        0 <= k < early.queue.len() && unchanged(#[trigger] early.queue[k], late.queue[j]);
    if k < i {
        assert(early.queue[k].sequence < early.queue[i].sequence);
    } else if i < k {
        assert(early.queue[i].sequence < early.queue[k].sequence);
    }
}

/// The place in the queue from which a tick hands out packets.
pub open spec fn first_due(s: OutputState, now: nat) -> int {
    if s.queue.len() > 0 && s.queue[0].sent && s.queue[0].sent_at is Some && now
        - s.queue[0].sent_at->Some_0 > s.rto {
        0
    } else {
        s.dispatch_index
    }
}

/// A packet is sent again as it was sent first: whatever is done to a channel between two
/// ticks, what the second hands out for a packet, OP code and payload, is what the first
/// handed out for it.
#[verifier::rlimit(50)]
pub proof fn law_sent_again_alike(
    max_data_length: usize,
    window: usize,
    ack_wait: nat,
    cipher: Option<Rc4State>,
    steps: Seq<OutputStep>,
    n: int,
    i: int,
    j: int,
    now: nat,
    later: nat,
)
    requires
        0 <= n <= steps.len(),
        new_output(max_data_length, window, ack_wait, cipher).can_take_steps(steps),
        new_output(max_data_length, window, ack_wait, cipher).can_take_steps(steps.take(n)),
        ({
            let o = new_output(max_data_length, window, ack_wait, cipher);
            let early = o.after_steps(steps.take(n));
            let late = o.after_steps(steps);
            &&& first_due(early, now) <= i < early.queue.len()
            &&& i < early.window
            &&& first_due(late, later) <= j < late.queue.len()
            &&& j < late.window
            &&& early.queue[i].sequence == late.queue[j].sequence
        }),
    ensures
        ({
            let o = new_output(max_data_length, window, ack_wait, cipher);
            let early = o.after_steps(steps.take(n));
            let late = o.after_steps(steps);
            let first = early.ticked(now).outgoing[early.outgoing.len() + i - first_due(
                early,
                now,
            )];
            let again = late.ticked(later).outgoing[late.outgoing.len() + j - first_due(
                late,
                later,
            )];
            &&& first.payload == early.queue[i].data
            &&& again == first
        }),
{
    let o = new_output(max_data_length, window, ack_wait, cipher);
    let early = o.after_steps(steps.take(n));
    let late = o.after_steps(steps);
    law_channel_stays_ordered(max_data_length, window, ack_wait, cipher, steps.take(n));
    law_channel_stays_ordered(max_data_length, window, ack_wait, cipher, steps);
    law_packets_stay_the_same(max_data_length, window, ack_wait, cipher, steps, n, i, j);
    lemma_handed_for(early, now, i);
    lemma_handed_for(late, later, j);
}

proof fn lemma_handed_for(s: OutputState, now: nat, i: int)
    requires
        0 <= s.dispatch_index <= s.queue.len(),
        s.dispatch_index <= s.window,
        first_due(s, now) <= i < s.queue.len(),
        i < s.window,
    ensures
        s.ticked(now).outgoing[s.outgoing.len() + i - first_due(s, now)] == (OutgoingPacket {
            op_code: if s.queue[i].is_fragment {
                OpCode::ReliableDataFragment
            } else {
                OpCode::ReliableData
            },
            payload: s.queue[i].data,
        }),
{
    law_tick_hands_out(s, now);
    let k = i - first_due(s, now);
    let sent = s.ticked(now).outgoing[s.outgoing.len() + k];
    assert(sent.payload == s.queue[i].data);
}

/// The timeout that a channel has after it has measured a round trip of `sample`
/// nanoseconds, and the smoothed round trip and its variation: after Jacobson and Karels,
/// with a variation of at least 100 ms, between 200 ms and 8 s.
pub open spec fn measured(s: OutputState, after: OutputState, sample: int) -> bool {
    let srtt = match s.srtt {
        None => sample,
        Some(srtt) => (srtt * 7 + sample) / 8,
    };
    let rttvar = match s.srtt {
        None => sample / 2,
        Some(srtt) => (s.rttvar * 3 + (if srtt >= sample {
            srtt - sample
        } else {
            sample - srtt
        })) / 4,
    };
    let rto = srtt + (if rttvar * 4 >= 100_000_000 {
        rttvar * 4
    } else {
        100_000_000
    });
    &&& after.srtt == Some(srtt as nat)
    &&& after.rttvar == rttvar
    &&& after.rto == (if rto < 200_000_000 {
        200_000_000
    } else if rto > 8_000_000_000 {
        8_000_000_000
    } else {
        rto
    })
}

/// That a channel has learned nothing about the round trip.
pub open spec fn unmeasured(s: OutputState, after: OutputState) -> bool {
    after.srtt == s.srtt && after.rttvar == s.rttvar && after.rto == s.rto
}

proof fn lemma_last_sample(queue: Seq<QueuedPacket>, n: nat, now: nat, j: int)
    requires
        n <= queue.len(),
    ensures
        (forall|i: int|
            0 <= i < n ==> !((#[trigger] queue[i]).sent && !queue[i].resent
                && queue[i].sent_at is Some)) ==> last_sample(queue, n, now) is None,
        0 <= j < n && queue[j].sent && !queue[j].resent && queue[j].sent_at is Some && (forall|
            i: int,
        |
            j < i < n ==> !((#[trigger] queue[i]).sent && !queue[i].resent && queue[i].sent_at
                is Some)) ==> last_sample(queue, n, now) == Some(
            if now >= queue[j].sent_at->Some_0 {
                (now - queue[j].sent_at->Some_0) as nat
            } else {
                0
            },
        ),
    decreases n,
{
    if n > 0 && j < n - 1 {
        lemma_last_sample(queue, (n - 1) as nat, now, j);
    } else if n > 0 {
        lemma_last_sample(queue, (n - 1) as nat, now, 0);
    }
}

/// What a cumulative acknowledgement teaches a channel: the round trip of the latest packet
/// among those acknowledged that was sent only once, if there is one (that of a packet sent
/// more than once is ambiguous); and how far the remote has got. What has been handed out
/// stays handed out: the place of the next packet to hand out moves with the queue.
#[verifier::rlimit(50)]
pub proof fn law_acknowledge_all_measures(s: OutputState, sequence: u16, now: nat, j: int)
    ensures
        ({
            let after = s.acknowledged_all(sequence, now);
            let seq = s.acknowledged_sequence(sequence);
            let removed = s.queue.len() - after.queue.len();
            &&& after.max_client_sequence == (if seq > s.max_client_sequence {
                seq
            } else {
                s.max_client_sequence
            })
            &&& after.dispatch_index == (if s.dispatch_index >= removed {
                s.dispatch_index - removed
            } else {
                0
            })
            &&& (forall|i: int|
                0 <= i < removed ==> !((#[trigger] s.queue[i]).sent && !s.queue[i].resent
                    && s.queue[i].sent_at is Some)) ==> unmeasured(s, after)
            &&& 0 <= j < removed && s.queue[j].sent && !s.queue[j].resent && s.queue[j].sent_at
                is Some && (forall|i: int|
                j < i < removed ==> !((#[trigger] s.queue[i]).sent && !s.queue[i].resent
                    && s.queue[i].sent_at is Some)) ==> measured(
                s,
                after,
                if now >= s.queue[j].sent_at->Some_0 {
                    now - s.queue[j].sent_at->Some_0
                } else {
                    0
                },
            )
            &&& after == (OutputState {
                queue: after.queue,
                dispatch_index: after.dispatch_index,
                max_client_sequence: after.max_client_sequence,
                srtt: after.srtt,
                rttvar: after.rttvar,
                rto: after.rto,
                stats: after.stats,
                ..s
            })
        }),
{
    let seq = s.acknowledged_sequence(sequence);
    lemma_front(s.queue, seq, 0);
    lemma_last_sample(s.queue, leading(s.queue, seq, 0), now, j);
}

/// An acknowledgement of one packet takes the first packet with that sequence out of the
/// queue and leaves the others in their order, and is counted. It teaches the channel the
/// packet's round trip if the packet was sent only once, and how far the remote has got. An
/// acknowledgement of a packet that is not in the queue takes nothing out.
#[verifier::rlimit(50)]
pub proof fn law_acknowledge_one(s: OutputState, sequence: u16, now: nat, pos: int)
    requires
        ({
            let seq = s.acknowledged_sequence(sequence);
            ||| pos == s.queue.len()
            ||| 0 <= pos < s.queue.len() && s.queue[pos].sequence == seq
        }),
        forall|i: int|
            0 <= i < pos ==> (#[trigger] s.queue[i]).sequence != s.acknowledged_sequence(
                sequence,
            ),
    ensures
        ({
            let after = s.acknowledged(sequence, now);
            let seq = s.acknowledged_sequence(sequence);
            let found = pos < s.queue.len();
            &&& after.queue == (if found {
                s.queue.take(pos) + s.queue.skip(pos + 1)
            } else {
                s.queue
            })
            &&& after.max_client_sequence == (if seq > s.max_client_sequence {
                seq
            } else {
                s.max_client_sequence
            })
            &&& after.dispatch_index == (if found {
                if s.dispatch_index >= 1 {
                    s.dispatch_index - 1
                } else {
                    0
                }
            } else {
                s.dispatch_index
            })
            &&& if found && s.queue[pos].sent && !s.queue[pos].resent && s.queue[pos].sent_at
                is Some {
                measured(
                    s,
                    after,
                    if now >= s.queue[pos].sent_at->Some_0 {
                        now - s.queue[pos].sent_at->Some_0
                    } else {
                        0
                    },
                )
            } else {
                unmeasured(s, after)
            }
            &&& after.stats.incoming_acknowledge_count == (s.stats.incoming_acknowledge_count + 1)
                % 0x1_0000_0000_0000_0000
            &&& after.stats.actual_acknowledge_count == (s.stats.actual_acknowledge_count + (
            if found {
                1int
            } else {
                0
            })) % 0x1_0000_0000_0000_0000
            &&& after.stats.total_sent == s.stats.total_sent
            &&& after.stats.total_resent == s.stats.total_resent
            &&& after == (OutputState {
                queue: after.queue,
                dispatch_index: after.dispatch_index,
                max_client_sequence: after.max_client_sequence,
                srtt: after.srtt,
                rttvar: after.rttvar,
                rto: after.rto,
                stats: after.stats,
                ..s
            })
        }),
{
    let seq = s.acknowledged_sequence(sequence);
    lemma_first(s.queue, seq, 0);
    if pos < s.queue.len() {
        assert(position_of(s.queue, seq, 0) == Some(pos)) by {
            let p = position_of(s.queue, seq, 0)->Some_0;
            assert(s.queue[p].sequence == seq);
            assert(s.queue[pos].sequence == seq);
        }
        assert(s.queue.remove(pos) =~= s.queue.take(pos) + s.queue.skip(pos + 1));
    } else {
        if position_of(s.queue, seq, 0) is Some {
            let p = position_of(s.queue, seq, 0)->Some_0;
            assert(s.queue[p].sequence == seq);
        }
    }
}

/// Data can be enqueued exactly if packets can carry it: there is room for a sequence, and
/// either for all of what stands for the data behind it or for the length of the whole. No
/// data at all can always be enqueued, and makes no packet.
pub proof fn law_can_enqueue(o: OutputState, data: Seq<u8>)
    requires
        data.len() + 7 <= isize::MAX,
    ensures
        ({
            let length = data.len() + (match o.cipher {
                Some(c) => if data.len() > 0 && c.transformed(data)[0] == 0 {
                    1int
                } else {
                    0
                },
                None => 0,
            });
            o.can_enqueue(data) <==> data.len() == 0 || o.max_data_length >= 6 || length + 2
                <= o.max_data_length
        }),
        o.enqueued(Seq::empty()) == o,
{
}

/// What is handed out says what it holds, one by one and in order; and so do the points in
/// time, the spans and the ciphers that a channel keeps.
pub proof fn law_handed_out_says(
    list: Seq<OutgoingReliable>,
    i: int,
    time: Instant,
    span: Duration,
    cipher: Rc4KeyState,
)
    ensures
        outgoing_packets(list).len() == list.len(),
        0 <= i < list.len() ==> outgoing_packets(list)[i] == (OutgoingPacket {
            op_code: list[i].op_code,
            payload: held(list[i].payload),
        }),
        time_view(Some(time)) == Some(time@),
        time_view(None) is None,
        span_view(Some(span)) == Some(span@),
        span_view(None) is None,
        cipher_view(Some(cipher)) == Some(cipher@),
        cipher_view(None) is None,
{
}

} // verus!
