//! What holds of an output and an input channel together: what goes into the one comes
//! out of the other, once and in order.

use vstd::prelude::*;

use crate::channel::input::{
    is_bundle, lemma_consumed_keeps_stash, stash_position, unpadded, lemma_stash_position,
    Assembly, InputState, StashedPacket, MAX_REASSEMBLED_LENGTH,
};
use crate::channel::output::{
    cipher_after, later_fragments, packets_for, padded, sealed, sequence_after, unsent,
    OutputState, QueuedPacket, FRAGMENT_LENGTH_SIZE, SEQUENCE_SIZE,
};
use crate::channel::{
    law_sequence_not_mistaken, short_sequence, true_sequence, SEQUENCE_BLOCK,
};
use crate::rc4::{law_symmetric, Rc4State};
use crate::varint::data_bundle;
use crate::wire::{
    be_at, be_bytes, lemma_be_bytes_len, lemma_be_value_of_bytes, lemma_pow256_values,
};

verus! {

/// A packet as it travels, without its sequence.
pub struct Packet {
    /// Whether the packet is a part of a larger piece of data.
    pub is_fragment: bool,
    /// The payload behind the sequence.
    pub data: Seq<u8>,
}

/// A queued packet as it travels.
pub open spec fn travelling(packet: QueuedPacket) -> Packet {
    Packet { is_fragment: packet.is_fragment, data: packet.data.skip(2) }
}

/// A list of queued packets as they travel.
pub open spec fn travelling_each(packets: Seq<QueuedPacket>) -> Seq<Packet> {
    Seq::new(packets.len(), |i: int| travelling(packets[i]))
}

/// An input channel after packets whose turn it is, one after the other, and whether all
/// of them are well-formed.
pub open spec fn consumed_all(s: InputState, packets: Seq<Packet>) -> (InputState, bool)
    decreases packets.len(),
{
    if packets.len() == 0 {
        (s, true)
    } else {
        let (after, ok) = s.consumed(packets[0].is_fragment, packets[0].data);
        if ok {
            consumed_all(after, packets.drop_first())
        } else {
            (after, false)
        }
    }
}

/// The input channel after one more piece of data has come out of it, in `n` packets.
pub open spec fn with_delivered(s: InputState, data: Seq<u8>, n: nat) -> InputState {
    InputState {
        app_data: s.app_data.push(data),
        cipher: cipher_after(s.cipher, data),
        window_start: (s.window_start + n) as i64,
        assembly: None,
        ..s
    }
}

/// Encrypted data never looks like a bundle, and loses the byte that was put in front of
/// it.
proof fn lemma_sealed(c: Rc4State, data: Seq<u8>)
    requires
        data.len() > 0,
    ensures
        !is_bundle(sealed(Some(c), data)),
        unpadded(sealed(Some(c), data)) == c.transformed(data),
        sealed(Some(c), data).len() <= data.len() + 1,
{
    let ciphertext = c.transformed(data);
    if ciphertext[0] == 0 {
        assert(padded(ciphertext).skip(1) =~= ciphertext);
    }
}

proof fn lemma_delivered(s: InputState, data: Seq<u8>)
    requires
        data.len() > 0,
        s.cipher is None ==> !is_bundle(data),
    ensures
        s.processed(sealed(s.cipher, data)) == (
            InputState {
                app_data: s.app_data.push(data),
                cipher: cipher_after(s.cipher, data),
                ..s
            },
            true,
        ),
{
    match s.cipher {
        Some(c) => {
            lemma_sealed(c, data);
            law_symmetric(c, data);
        },
        None => {},
    }
}

proof fn lemma_unsent_payload(sequence: i64, is_fragment: bool, chunk: Seq<u8>)
    ensures
        travelling(unsent(sequence, is_fragment, chunk)) == (Packet {
            is_fragment,
            data: chunk,
        }),
        unsent(sequence, is_fragment, chunk).data.len() == chunk.len() + 2,
{
    lemma_be_bytes_len(short_sequence(sequence) as nat, 2);
    assert(unsent(sequence, is_fragment, chunk).data.skip(2) =~= chunk);
}

/// The later fragments complete a piece of data whose first part has arrived.
proof fn lemma_later_fragments(
    s: InputState,
    data: Seq<u8>,
    got: Seq<u8>,
    rest: Seq<u8>,
    chunk: int,
    sequence: i64,
)
    requires
        data.len() > 0,
        s.cipher is None ==> !is_bundle(data),
        rest.len() > 0,
        chunk > 0,
        got + rest == sealed(s.cipher, data),
        got.len() + rest.len() <= MAX_REASSEMBLED_LENGTH,
        s.assembly == Some(Assembly { total: (got.len() + rest.len()) as u32, data: got }),
        0 <= s.window_start,
        s.window_start + rest.len() <= i64::MAX,
    ensures
        consumed_all(s, travelling_each(later_fragments(rest, chunk, sequence))) == (
            with_delivered(s, data, later_fragments(rest, chunk, sequence).len()),
            true,
        ),
        0 < later_fragments(rest, chunk, sequence).len() <= rest.len(),
    decreases rest.len(),
{
    let fragments = later_fragments(rest, chunk, sequence);
    let packets = travelling_each(fragments);
    let total = (got.len() + rest.len()) as u32;
    if rest.len() <= chunk {
        lemma_unsent_payload(sequence, true, rest);
        assert(fragments.len() == 1);
        assert(packets[0].data == rest);
        assert(packets.drop_first() =~= Seq::empty());
        let cleared = InputState { assembly: None, ..s };
        lemma_delivered(cleared, data);
        reveal_with_fuel(consumed_all, 2);
        assert(s.consumed(true, rest).0 =~= with_delivered(s, data, 1));
    } else {
        let first = rest.take(chunk);
        let others = rest.skip(chunk);
        lemma_unsent_payload(sequence, true, first);
        assert(packets[0].data == first);
        let next = InputState {
            assembly: Some(Assembly { total, data: got + first }),
            window_start: s.window_start.wrapping_add(1),
            ..s
        };
        assert(s.consumed(true, first) == (next, true));
        assert((got + first) + others =~= got + rest);
        lemma_later_fragments(next, data, got + first, others, chunk, sequence.wrapping_add(1));
        let later = later_fragments(others, chunk, sequence.wrapping_add(1));
        assert(fragments == seq![unsent(sequence, true, first)] + later);
        assert(packets.drop_first() =~= travelling_each(later));
        assert(with_delivered(next, data, later.len()) =~= with_delivered(
            s,
            data,
            fragments.len(),
        ));
    }
}

/// The first fragment of a piece of data makes the input channel wait for the others.
proof fn lemma_first_fragment(s: InputState, total: u32, first: Seq<u8>)
    requires
        s.assembly is None,
        first.len() < total <= MAX_REASSEMBLED_LENGTH,
    ensures
        s.consumed(true, be_bytes(total as nat, 4) + first) == (
            InputState {
                assembly: Some(Assembly { total, data: first }),
                window_start: s.window_start.wrapping_add(1),
                ..s
            },
            true,
        ),
{
    let head = be_bytes(total as nat, 4);
    let master = head + first;
    lemma_be_bytes_len(total as nat, 4);
    lemma_pow256_values();
    lemma_be_value_of_bytes(total as nat, 4);
    assert(master.subrange(0, 4) =~= head);
    assert(master.skip(4) =~= first);
}

/// A piece of data that fits into one packet is delivered from it.
proof fn lemma_single_packet(s: InputState, data: Seq<u8>, sequence: i64)
    requires
        data.len() > 0,
        s.cipher is None ==> !is_bundle(data),
        s.assembly is None,
        0 <= s.window_start < i64::MAX,
    ensures
        consumed_all(
            s,
            travelling_each(seq![unsent(sequence, false, sealed(s.cipher, data))]),
        ) == (with_delivered(s, data, 1), true),
        sealed(s.cipher, data).len() > 0,
{
    let bytes = sealed(s.cipher, data);
    let packets = travelling_each(seq![unsent(sequence, false, bytes)]);
    lemma_unsent_payload(sequence, false, bytes);
    assert(packets[0] == (Packet { is_fragment: false, data: bytes }));
    assert(packets.drop_first() =~= Seq::empty());
    lemma_delivered(s, data);
    reveal_with_fuel(consumed_all, 2);
    assert(s.consumed(false, bytes).0 =~= with_delivered(s, data, 1));
}

/// What an output channel makes of a piece of data is turned back into it: an input
/// channel that consumes its packets in order delivers exactly the data, and its cipher
/// moves on as the sender's did. The data must not be empty, must not be larger than is
/// reassembled, and, on a channel without a cipher, must not begin like a bundle.
pub proof fn law_packets_deliver(s: InputState, data: Seq<u8>, chunk: int, sequence: i64)
    requires
        data.len() > 0,
        s.cipher is None ==> !is_bundle(data),
        s.assembly is None,
        sealed(s.cipher, data).len() <= chunk || FRAGMENT_LENGTH_SIZE <= chunk,
        sealed(s.cipher, data).len() <= chunk || sealed(s.cipher, data).len()
            <= MAX_REASSEMBLED_LENGTH,
        0 <= s.window_start,
        s.window_start + sealed(s.cipher, data).len() < i64::MAX,
    ensures
        ({
            let packets = packets_for(sealed(s.cipher, data), chunk, sequence);
            &&& consumed_all(s, travelling_each(packets)) == (
                with_delivered(s, data, packets.len()),
                true,
            )
            &&& 0 < packets.len() <= sealed(s.cipher, data).len() + 1
        }),
{
    let bytes = sealed(s.cipher, data);
    let queue = packets_for(bytes, chunk, sequence);
    if bytes.len() <= chunk {
        lemma_single_packet(s, data, sequence);
    } else {
        let packets = travelling_each(queue);
        let n = chunk - FRAGMENT_LENGTH_SIZE;
        let first = bytes.take(n);
        let rest = bytes.skip(n);
        let total = bytes.len() as u32;
        let master = be_bytes(total as nat, 4) + first;
        let later = later_fragments(rest, chunk, sequence.wrapping_add(1));
        lemma_unsent_payload(sequence, true, master);
        assert(queue == seq![unsent(sequence, true, master)] + later);
        assert(packets[0] == (Packet { is_fragment: true, data: master }));
        let next = InputState {
            assembly: Some(Assembly { total, data: first }),
            window_start: s.window_start.wrapping_add(1),
            ..s
        };
        lemma_first_fragment(s, total, first);
        assert(first + rest =~= bytes);
        lemma_later_fragments(next, data, first, rest, chunk, sequence.wrapping_add(1));
        assert(packets.drop_first() =~= travelling_each(later));
        assert(with_delivered(next, data, later.len()) =~= with_delivered(
            s,
            data,
            queue.len(),
        ));
    }
}

/// An output channel after several pieces of data have been enqueued.
pub open spec fn enqueued_all(o: OutputState, pieces: Seq<Seq<u8>>) -> OutputState
    decreases pieces.len(),
{
    if pieces.len() == 0 {
        o
    } else {
        enqueued_all(o.enqueued(pieces[0]), pieces.drop_first())
    }
}

/// That a piece of data can be delivered over packets of `chunk` bytes: it is not empty,
/// not larger than is reassembled unless it fits into one packet, and, without a cipher,
/// does not begin like a bundle.
pub open spec fn deliverable(data: Seq<u8>, chunk: int, cipher: Option<Rc4State>) -> bool {
    &&& data.len() > 0
    &&& sealed(cipher, data).len() <= chunk || FRAGMENT_LENGTH_SIZE <= chunk && sealed(
        cipher,
        data,
    ).len() <= MAX_REASSEMBLED_LENGTH
    &&& cipher is None ==> !is_bundle(data)
}

/// That each of `pieces`, enqueued one after the other, can be delivered.
pub open spec fn deliverable_all(o: OutputState, pieces: Seq<Seq<u8>>) -> bool
    decreases pieces.len(),
{
    pieces.len() > 0 ==> deliverable(pieces[0], o.max_chunk(), o.cipher) && deliverable_all(
        o.enqueued(pieces[0]),
        pieces.drop_first(),
    )
}

/// An upper bound on the number of packets that carry `pieces`.
pub open spec fn packet_bound(pieces: Seq<Seq<u8>>) -> nat
    decreases pieces.len(),
{
    if pieces.len() == 0 {
        0
    } else {
        pieces[0].len() + 2 + packet_bound(pieces.drop_first())
    }
}

proof fn lemma_consumed_all_append(s: InputState, a: Seq<Packet>, b: Seq<Packet>)
    requires
        consumed_all(s, a).1,
    ensures
        consumed_all(s, a + b) == consumed_all(consumed_all(s, a).0, b),
    decreases a.len(),
{
    if a.len() == 0 {
        assert(a + b =~= b);
    } else {
        let after = s.consumed(a[0].is_fragment, a[0].data).0;
        lemma_consumed_all_append(after, a.drop_first(), b);
        assert((a + b).drop_first() =~= a.drop_first() + b);
    }
}

/// What goes into an output channel comes out of an input channel that consumes its
/// packets in order: the same pieces of data, in the same order, and nothing else.
pub proof fn law_stream_delivers(s: InputState, o: OutputState, pieces: Seq<Seq<u8>>)
    requires
        s.cipher == o.cipher,
        s.assembly is None,
        deliverable_all(o, pieces),
        0 <= s.window_start,
        s.window_start + packet_bound(pieces) < i64::MAX,
    ensures
        ({
            let sent = enqueued_all(o, pieces);
            let packets = sent.queue.skip(o.queue.len() as int);
            let (after, ok) = consumed_all(s, travelling_each(packets));
            &&& sent.queue == o.queue + packets
            &&& ok
            &&& after.app_data == s.app_data + pieces
            &&& after.cipher == sent.cipher
            &&& after.assembly is None
            &&& after.window_start == s.window_start + packets.len()
            &&& packets.len() <= packet_bound(pieces)
        }),
    decreases pieces.len(),
{
    let sent = enqueued_all(o, pieces);
    if pieces.len() == 0 {
        let packets = sent.queue.skip(o.queue.len() as int);
        assert(packets =~= Seq::empty());
        assert(s.app_data + pieces =~= s.app_data);
        assert(o.queue + packets =~= sent.queue);
    } else {
        let data = pieces[0];
        let others = pieces.drop_first();
        let next_o = o.enqueued(data);
        let queue = packets_for(sealed(o.cipher, data), o.max_chunk(), o.total_sequence);
        match o.cipher {
            Some(c) => lemma_sealed(c, data),
            None => {},
        }
        law_packets_deliver(s, data, o.max_chunk(), o.total_sequence);
        let next_s = with_delivered(s, data, queue.len());
        law_stream_delivers(next_s, next_o, others);
        let later = sent.queue.skip(next_o.queue.len() as int);
        let packets = sent.queue.skip(o.queue.len() as int);
        assert(sent.queue == o.queue + queue + later);
        assert(packets =~= queue + later);
        assert(travelling_each(packets) =~= travelling_each(queue) + travelling_each(later));
        lemma_consumed_all_append(s, travelling_each(queue), travelling_each(later));
        assert(s.app_data.push(data) + others =~= s.app_data + pieces);
        assert(o.queue + packets =~= sent.queue);
    }
}

/// An input channel with the progress of `s` and everything else of `t`.
spec fn progress_of(s: InputState, t: InputState) -> InputState {
    InputState {
        cipher: s.cipher,
        assembly: s.assembly,
        app_data: s.app_data,
        window_start: s.window_start,
        ..t
    }
}

proof fn lemma_unbundled_progress(s: InputState, t: InputState, rest: Seq<u8>)
    ensures
        progress_of(s, t).unbundled(rest) == (
            progress_of(s.unbundled(rest).0, t),
            s.unbundled(rest).1,
        ),
    decreases rest.len(),
{
    if rest.len() > 0 {
        match data_bundle::decoded(rest) {
            (Err(_), _) => {},
            (Ok(len), at) => if len <= rest.len() - at {
                let piece = rest.subrange(at, at + len);
                lemma_unbundled_progress(s.delivered(piece), t, rest.skip(at + len));
                assert(progress_of(s, t).delivered(piece) == progress_of(
                    s.delivered(piece),
                    t,
                ));
            },
        }
    }
}

/// What a packet does to the progress of a channel depends on nothing but the progress.
proof fn lemma_consumed_progress(s: InputState, t: InputState, is_fragment: bool, data: Seq<u8>)
    ensures
        progress_of(s, t).consumed(is_fragment, data) == (
            progress_of(s.consumed(is_fragment, data).0, t),
            s.consumed(is_fragment, data).1,
        ),
{
    if is_fragment {
        let whole = match s.assembly {
            Some(assembly) => assembly.data + data,
            None => data.skip(4),
        };
        let cleared = InputState { assembly: None, ..s };
        lemma_unbundled_progress(cleared, t, whole.skip(2));
        assert(progress_of(cleared, t) == (InputState {
            assembly: None,
            ..progress_of(s, t)
        }));
    } else {
        lemma_unbundled_progress(s, t, data.skip(2));
    }
}

/// The progress that `packets`, consumed in order from `start`, lead to after `k` of them.
pub open spec fn after_packets(start: InputState, packets: Seq<Packet>, k: int) -> InputState {
    consumed_all(start, packets.take(k)).0
}

/// That the channel has consumed exactly the first `k` packets of a stream that began at
/// `start`, in order, and holds nothing in its stash but later packets of the stream, each
/// at most once.
pub open spec fn follows(s: InputState, start: InputState, packets: Seq<Packet>, k: int) -> bool {
    &&& 0 <= k <= packets.len()
    &&& s.window_start == k
    &&& s.app_data == after_packets(start, packets, k).app_data
    &&& s.cipher == after_packets(start, packets, k).cipher
    &&& s.assembly == after_packets(start, packets, k).assembly
    &&& stash_matches(s.stash, packets, k + 1)
}

/// That a stash holds packets of a stream, from number `from` on, each at most once.
pub open spec fn stash_matches(
    stash: Seq<StashedPacket>,
    packets: Seq<Packet>,
    from: int,
) -> bool {
    &&& forall|i: int|
        0 <= i < stash.len() ==> {
            let p = #[trigger] stash[i];
            &&& from <= p.sequence < packets.len()
            &&& p.is_fragment == packets[p.sequence as int].is_fragment
            &&& p.data == packets[p.sequence as int].data
        }
    &&& forall|i: int, j: int|
        0 <= i < j < stash.len() ==> (#[trigger] stash[i]).sequence != (
        #[trigger] stash[j]).sequence
}

proof fn lemma_prefix_ok(s: InputState, packets: Seq<Packet>, k: int)
    requires
        0 <= k <= packets.len(),
        consumed_all(s, packets).1,
    ensures
        consumed_all(s, packets.take(k)).1,
    decreases packets.len(),
{
    if k > 0 {
        let after = s.consumed(packets[0].is_fragment, packets[0].data).0;
        lemma_prefix_ok(after, packets.drop_first(), k - 1);
        assert(packets.take(k).drop_first() =~= packets.drop_first().take(k - 1));
    }
}

/// Consuming one more packet of the stream is consuming it after those before it.
proof fn lemma_after_next(start: InputState, packets: Seq<Packet>, k: int)
    requires
        0 <= k < packets.len(),
        consumed_all(start, packets).1,
        start.window_start == 0,
        packets.len() < i64::MAX,
    ensures
        after_packets(start, packets, k).consumed(packets[k].is_fragment, packets[k].data) == (
            after_packets(start, packets, k + 1),
            true,
        ),
        after_packets(start, packets, k).window_start == k,
    decreases k,
{
    let one = seq![packets[k]];
    assert(packets.take(k) + one =~= packets.take(k + 1));
    lemma_prefix_ok(start, packets, k);
    lemma_prefix_ok(start, packets, k + 1);
    lemma_consumed_all_append(start, packets.take(k), one);
    reveal_with_fuel(consumed_all, 2);
    assert(one.drop_first() =~= Seq::empty());
    if k > 0 {
        lemma_after_next(start, packets, k - 1);
        lemma_consumed_keeps_stash(
            after_packets(start, packets, k - 1),
            packets[k - 1].is_fragment,
            packets[k - 1].data,
        );
    } else {
        assert(packets.take(0) =~= Seq::empty());
    }
}

/// A channel that has consumed the first `k` packets consumes the next one as the stream
/// does.
proof fn lemma_follow_step(
    s: InputState,
    start: InputState,
    packets: Seq<Packet>,
    k: int,
)
    requires
        0 <= k < packets.len(),
        consumed_all(start, packets).1,
        start.window_start == 0,
        packets.len() < i64::MAX,
        s.window_start == k,
        s.app_data == after_packets(start, packets, k).app_data,
        s.cipher == after_packets(start, packets, k).cipher,
        s.assembly == after_packets(start, packets, k).assembly,
    ensures
        ({
            let (after, ok) = s.consumed(packets[k].is_fragment, packets[k].data);
            &&& ok
            &&& after.window_start == k + 1
            &&& after.app_data == after_packets(start, packets, k + 1).app_data
            &&& after.cipher == after_packets(start, packets, k + 1).cipher
            &&& after.assembly == after_packets(start, packets, k + 1).assembly
            &&& after.stash == s.stash
            &&& after.max_queued == s.max_queued
        }),
{
    let ideal = after_packets(start, packets, k);
    lemma_after_next(start, packets, k);
    lemma_consumed_progress(ideal, s, packets[k].is_fragment, packets[k].data);
    assert(progress_of(ideal, s) == s);
    lemma_consumed_keeps_stash(s, packets[k].is_fragment, packets[k].data);
}

proof fn lemma_drain_follows(s: InputState, start: InputState, packets: Seq<Packet>, k: int)
    requires
        consumed_all(start, packets).1,
        start.window_start == 0,
        packets.len() < i64::MAX,
        0 <= k <= packets.len(),
        s.window_start == k,
        s.app_data == after_packets(start, packets, k).app_data,
        s.cipher == after_packets(start, packets, k).cipher,
        s.assembly == after_packets(start, packets, k).assembly,
        stash_matches(s.stash, packets, k),
    ensures
        s.drained().1,
        s.drained().0.window_start >= k,
        follows(s.drained().0, start, packets, s.drained().0.window_start as int),
        s.drained().0.max_queued == s.max_queued,
    decreases s.stash.len(),
{
    lemma_stash_position(s.stash, s.window_start, 0);
    match stash_position(s.stash, s.window_start, 0) {
        None => {},
        Some(pos) => {
            let without = s.without(pos);
            assert(s.stash[pos].sequence == k);
            lemma_follow_step(without, start, packets, k);
            let after = without.consumed(packets[k].is_fragment, packets[k].data).0;
            assert(stash_matches(without.stash, packets, k + 1)) by {
                assert forall|i: int| 0 <= i < without.stash.len() implies {
                    let p = #[trigger] without.stash[i];
                    &&& k + 1 <= p.sequence < packets.len()
                    &&& p.is_fragment == packets[p.sequence as int].is_fragment
                    &&& p.data == packets[p.sequence as int].data
                } by {
                    let from = if i < pos { i } else { i + 1 };
                    assert(without.stash[i] == s.stash[from]);
                    assert(s.stash[from].sequence != s.stash[pos].sequence);
                }
                assert forall|i: int, j: int| 0 <= i < j < without.stash.len() implies (
                #[trigger] without.stash[i]).sequence != (
                #[trigger] without.stash[j]).sequence by {
                    let a = if i < pos { i } else { i + 1 };
                    let b = if j < pos { j } else { j + 1 };
                    assert(without.stash[i] == s.stash[a]);
                    assert(without.stash[j] == s.stash[b]);
                }
            }
            lemma_drain_follows(after, start, packets, k + 1);
        },
    }
}

/// Delivery is reliable and ordered, whatever the network does: a channel that has
/// consumed the first packets of a well-formed stream, and then receives any packet of the
/// stream, early, late, again or in its turn, has consumed a possibly longer run of first
/// packets; so what it delivers is always what the first packets of the stream carry, in
/// order, and each once. Receiving the packet whose turn it is makes progress.
///
/// The 16 bits that a packet carries of its sequence do not tell it from one that is a
/// whole number of blocks away. So the packet must not be a block or more ahead of its
/// turn, nor so far behind that it looks like one in the window.
pub proof fn law_ordered_delivery(
    s: InputState,
    start: InputState,
    packets: Seq<Packet>,
    k: int,
    i: int,
    now: nat,
)
    requires
        consumed_all(start, packets).1,
        start.window_start == 0,
        packets.len() + SEQUENCE_BLOCK + SEQUENCE_BLOCK <= i64::MAX,
        follows(s, start, packets, k),
        0 <= i < packets.len(),
        k + s.max_queued - SEQUENCE_BLOCK < i < k + SEQUENCE_BLOCK,
    ensures
        ({
            let body = be_bytes(short_sequence(i as i64) as nat, 2) + packets[i].data;
            let (after, ok) = s.received(body, packets[i].is_fragment, now);
            &&& ok
            &&& follows(after, start, packets, after.window_start as int)
            &&& after.window_start >= k
            &&& i == k ==> after.window_start > k
        }),
{
    let short = short_sequence(i as i64);
    let body = be_bytes(short as nat, 2) + packets[i].data;
    let is_fragment = packets[i].is_fragment;
    lemma_pow256_values();
    lemma_be_bytes_len(short as nat, 2);
    lemma_be_value_of_bytes(short as nat, 2);
    assert(body.subrange(0, 2) =~= be_bytes(short as nat, 2));
    assert(body.skip(2) =~= packets[i].data);
    law_sequence_not_mistaken(i as i64, s.window_start, s.max_queued as i64);
    let sequence = true_sequence(short, s.window_start, s.max_queued as i64);
    if sequence < k || sequence > k + s.max_queued {
    } else if i > k {
        let begun = s.tallied().acknowledging(short);
        let packet = StashedPacket {
            sequence: i as i64,
            is_fragment,
            data: packets[i].data,
        };
        lemma_stash_position(begun.stash, packet.sequence, 0);
    } else {
        let begun = if s.acknowledge_all_data {
            s.tallied().acknowledging(short)
        } else {
            s.tallied()
        };
        lemma_follow_step(begun, start, packets, k);
        let after = begun.consumed(is_fragment, packets[i].data).0;
        lemma_drain_follows(after, start, packets, k + 1);
    }
}

/// That the packets of a queue are numbered from `first` on, and carry their numbers in
/// front of what they carry.
pub open spec fn numbered(queue: Seq<QueuedPacket>, first: int) -> bool {
    forall|i: int|
        0 <= i < queue.len() ==> {
            let p = #[trigger] queue[i];
            &&& p.sequence == first + i
            &&& p.data == be_bytes(short_sequence((first + i) as i64) as nat, 2) + travelling(
                p,
            ).data
        }
}

proof fn lemma_unsent_numbered(sequence: i64, is_fragment: bool, chunk: Seq<u8>)
    ensures
        numbered(seq![unsent(sequence, is_fragment, chunk)], sequence as int),
{
    lemma_unsent_payload(sequence, is_fragment, chunk);
}

proof fn lemma_numbered_append(a: Seq<QueuedPacket>, b: Seq<QueuedPacket>, first: int)
    requires
        numbered(a, first),
        numbered(b, first + a.len()),
    ensures
        numbered(a + b, first),
{
    let all = a + b;
    assert forall|i: int| 0 <= i < all.len() implies {
        let p = #[trigger] all[i];
        &&& p.sequence == first + i
        &&& p.data == be_bytes(short_sequence((first + i) as i64) as nat, 2) + travelling(
            p,
        ).data
    } by {
        if i < a.len() {
            assert(all[i] == a[i]);
        } else {
            assert(all[i] == b[i - a.len()]);
        }
    }
}

proof fn lemma_later_numbered(bytes: Seq<u8>, chunk: int, sequence: i64)
    requires
        0 <= sequence,
        sequence + bytes.len() < i64::MAX,
    ensures
        numbered(later_fragments(bytes, chunk, sequence), sequence as int),
        later_fragments(bytes, chunk, sequence).len() <= bytes.len(),
    decreases bytes.len(),
{
    if bytes.len() > 0 && chunk > 0 {
        if bytes.len() <= chunk {
            lemma_unsent_numbered(sequence, true, bytes);
        } else {
            let first = seq![unsent(sequence, true, bytes.take(chunk))];
            lemma_unsent_numbered(sequence, true, bytes.take(chunk));
            lemma_later_numbered(bytes.skip(chunk), chunk, sequence.wrapping_add(1));
            lemma_numbered_append(
                first,
                later_fragments(bytes.skip(chunk), chunk, sequence.wrapping_add(1)),
                sequence as int,
            );
        }
    }
}

proof fn lemma_packets_numbered(bytes: Seq<u8>, chunk: int, sequence: i64)
    requires
        0 <= sequence,
        bytes.len() <= chunk || chunk >= FRAGMENT_LENGTH_SIZE,
        sequence + bytes.len() + 1 < i64::MAX,
    ensures
        numbered(packets_for(bytes, chunk, sequence), sequence as int),
        packets_for(bytes, chunk, sequence).len() <= bytes.len() + 1,
{
    if bytes.len() <= chunk {
        lemma_unsent_numbered(sequence, false, bytes);
    } else {
        let n = chunk - FRAGMENT_LENGTH_SIZE;
        let master = be_bytes((bytes.len() % 0x1_0000_0000) as nat, 4) + bytes.take(n);
        let later = later_fragments(bytes.skip(n), chunk, sequence.wrapping_add(1));
        lemma_unsent_numbered(sequence, true, master);
        lemma_later_numbered(bytes.skip(n), chunk, sequence.wrapping_add(1));
        lemma_numbered_append(
            seq![unsent(sequence, true, master)],
            later,
            sequence as int,
        );
    }
}

proof fn lemma_sequence_after(sequence: i64, n: nat)
    requires
        0 <= sequence,
        sequence + n <= i64::MAX,
    ensures
        sequence_after(sequence, n) == sequence + n,
    decreases n,
{
    if n > 0 {
        lemma_sequence_after(sequence, (n - 1) as nat);
    }
}

/// An output channel numbers its packets in the order in which they are queued, without a
/// gap.
pub proof fn law_numbering(o: OutputState, pieces: Seq<Seq<u8>>)
    requires
        o.total_sequence >= 0,
        o.queue.len() <= o.total_sequence,
        numbered(o.queue, o.total_sequence - o.queue.len()),
        deliverable_all(o, pieces),
        o.total_sequence + packet_bound(pieces) < i64::MAX,
    ensures
        ({
            let sent = enqueued_all(o, pieces);
            &&& sent.total_sequence - sent.queue.len() == o.total_sequence - o.queue.len()
            &&& numbered(sent.queue, o.total_sequence - o.queue.len())
            &&& sent.total_sequence <= o.total_sequence + packet_bound(pieces)
        }),
    decreases pieces.len(),
{
    if pieces.len() > 0 {
        let data = pieces[0];
        let others = pieces.drop_first();
        let bytes = sealed(o.cipher, data);
        match o.cipher {
            Some(c) => lemma_sealed(c, data),
            None => {},
        }
        let packets = packets_for(bytes, o.max_chunk(), o.total_sequence);
        let next = o.enqueued(data);
        lemma_packets_numbered(bytes, o.max_chunk(), o.total_sequence);
        lemma_sequence_after(o.total_sequence, packets.len());
        lemma_numbered_append(o.queue, packets, o.total_sequence - o.queue.len());
        law_numbering(next, others);
    }
}

proof fn lemma_later_carry(bytes: Seq<u8>, chunk: int, sequence: i64)
    ensures
        forall|i: int|
            0 <= i < later_fragments(bytes, chunk, sequence).len() ==> (
            #[trigger] later_fragments(bytes, chunk, sequence)[i]).data.len() > SEQUENCE_SIZE,
    decreases bytes.len(),
{
    lemma_be_bytes_len(short_sequence(sequence) as nat, 2);
    if bytes.len() > chunk && chunk > 0 {
        let next = later_fragments(bytes.skip(chunk), chunk, sequence.wrapping_add(1));
        lemma_later_carry(bytes.skip(chunk), chunk, sequence.wrapping_add(1));
        assert forall|i: int| 0 <= i < later_fragments(bytes, chunk, sequence).len() implies (
        #[trigger] later_fragments(bytes, chunk, sequence)[i]).data.len() > SEQUENCE_SIZE by {
            if i > 0 {
                assert(later_fragments(bytes, chunk, sequence)[i] == next[i - 1]);
            }
        }
    }
}

/// No packet is sent in vain: each packet that an output channel queues carries something
/// besides its sequence.
pub proof fn law_packets_carry(o: OutputState, pieces: Seq<Seq<u8>>)
    requires
        forall|i: int|
            0 <= i < o.queue.len() ==> (#[trigger] o.queue[i]).data.len() > SEQUENCE_SIZE,
        deliverable_all(o, pieces),
    ensures
        forall|i: int|
            0 <= i < enqueued_all(o, pieces).queue.len() ==> (
            #[trigger] enqueued_all(o, pieces).queue[i]).data.len() > SEQUENCE_SIZE,
    decreases pieces.len(),
{
    if pieces.len() > 0 {
        let data = pieces[0];
        let others = pieces.drop_first();
        let next = o.enqueued(data);
        let chunk = o.max_chunk();
        let bytes = sealed(o.cipher, data);
        match o.cipher {
            Some(c) => lemma_sealed(c, data),
            None => {},
        }
        let n = chunk - FRAGMENT_LENGTH_SIZE;
        lemma_later_carry(bytes.skip(n), chunk, o.total_sequence.wrapping_add(1));
        lemma_be_bytes_len(short_sequence(o.total_sequence) as nat, 2);
        lemma_be_bytes_len((bytes.len() % 0x1_0000_0000) as nat, 4);
        assert forall|i: int| 0 <= i < next.queue.len() implies (
        #[trigger] next.queue[i]).data.len() > SEQUENCE_SIZE by {
            if i < o.queue.len() {
                assert(next.queue[i] == o.queue[i]);
            } else if i > o.queue.len() {
                let later = later_fragments(
                    bytes.skip(n),
                    chunk,
                    o.total_sequence.wrapping_add(1),
                );
                assert(next.queue[i] == later[i - o.queue.len() - 1]);
            }
        }
        law_packets_carry(next, others);
    }
}

/// Enqueueing and ticking keep the queue of an output channel in the order of the
/// sequences.
pub proof fn law_order_kept(o: OutputState, data: Seq<u8>, now: nat)
    requires
        o.is_ordered(),
        o.total_sequence >= 0,
        o.can_enqueue(data),
        o.total_sequence + data.len() + 2 < i64::MAX,
    ensures
        o.enqueued(data).is_ordered(),
        o.enqueued(data).total_sequence >= o.total_sequence,
        o.ticked(now).is_ordered(),
{
    if data.len() > 0 {
        let bytes = sealed(o.cipher, data);
        match o.cipher {
            Some(c) => lemma_sealed(c, data),
            None => {},
        }
        let packets = packets_for(bytes, o.max_chunk(), o.total_sequence);
        lemma_packets_numbered(bytes, o.max_chunk(), o.total_sequence);
        lemma_sequence_after(o.total_sequence, packets.len());
        let all = o.queue + packets;
        assert forall|i: int, j: int| 0 <= i < j < all.len() implies (
        #[trigger] all[i]).sequence < (#[trigger] all[j]).sequence by {
            if i >= o.queue.len() {
                assert(all[i] == packets[i - o.queue.len()]);
            }
            if j >= o.queue.len() {
                assert(all[j] == packets[j - o.queue.len()]);
            }
        }
        assert forall|i: int| 0 <= i < all.len() implies (#[trigger] all[i]).sequence
            < o.total_sequence + packets.len() by {
            if i >= o.queue.len() {
                assert(all[i] == packets[i - o.queue.len()]);
            }
        }
    }
    let t = o.ticked(now);
    let begun = if o.timed_out(now) {
        o.backed_off()
    } else {
        o
    };
    assert forall|i: int| 0 <= i < t.queue.len() implies (#[trigger] t.queue[i]).sequence
        == o.queue[i].sequence by {
        assert(begun.queue[i] == o.queue[i]);
    }
}

proof fn lemma_unbundled_extends(s: InputState, rest: Seq<u8>)
    ensures
        s.app_data.is_prefix_of(s.unbundled(rest).0.app_data),
    decreases rest.len(),
{
    if rest.len() > 0 {
        match data_bundle::decoded(rest) {
            (Err(_), _) => {},
            (Ok(len), at) => if len <= rest.len() - at {
                let piece = rest.subrange(at, at + len);
                lemma_unbundled_extends(s.delivered(piece), rest.skip(at + len));
                assert(s.app_data.is_prefix_of(s.delivered(piece).app_data));
            },
        }
    }
}

proof fn lemma_consumed_extends(s: InputState, is_fragment: bool, data: Seq<u8>)
    ensures
        s.app_data.is_prefix_of(s.consumed(is_fragment, data).0.app_data),
{
    if is_fragment {
        let whole = match s.assembly {
            Some(assembly) => assembly.data + data,
            None => data.skip(4),
        };
        lemma_unbundled_extends(InputState { assembly: None, ..s }, whole.skip(2));
    } else {
        lemma_unbundled_extends(s, data.skip(2));
    }
}

/// What the first packets of a stream carry is the beginning of what more of its packets
/// carry: what has been delivered is never taken back.
pub proof fn law_delivery_extends(start: InputState, packets: Seq<Packet>, k: int, n: int)
    requires
        0 <= k <= n <= packets.len(),
        consumed_all(start, packets).1,
        start.window_start == 0,
        packets.len() < i64::MAX,
    ensures
        after_packets(start, packets, k).app_data.is_prefix_of(
            after_packets(start, packets, n).app_data,
        ),
    decreases n - k,
{
    if k < n {
        lemma_after_next(start, packets, k);
        lemma_consumed_extends(
            after_packets(start, packets, k),
            packets[k].is_fragment,
            packets[k].data,
        );
        law_delivery_extends(start, packets, k + 1, n);
    }
}

/// A reliable channel delivers what is enqueued on it, in order, each piece once, over a
/// network that may lose, repeat and reorder packets. Two new channels with the same
/// cipher are taken, and `pieces` are enqueued on the one. Whichever of its packets the
/// other receives next, it has delivered the beginning of `pieces` and nothing else
/// before, and it has so afterwards; once it has consumed all packets it has delivered all
/// of `pieces`; and the packet whose turn it is, which the sender repeats until it is
/// acknowledged, always makes progress. The packet must be near enough to be told by the
/// 16 bits that it carries of its sequence.
pub proof fn law_reliable_delivery(
    o: OutputState,
    start: InputState,
    pieces: Seq<Seq<u8>>,
    s: InputState,
    i: int,
    now: nat,
)
    requires
        o.queue.len() == 0,
        o.total_sequence == 0,
        start.window_start == 0,
        start.assembly is None,
        start.app_data.len() == 0,
        start.stash.len() == 0,
        start.cipher == o.cipher,
        deliverable_all(o, pieces),
        packet_bound(pieces) + SEQUENCE_BLOCK + SEQUENCE_BLOCK < i64::MAX,
        0 <= i < enqueued_all(o, pieces).queue.len(),
        follows(
            s,
            start,
            travelling_each(enqueued_all(o, pieces).queue),
            s.window_start as int,
        ),
        s.window_start + s.max_queued - SEQUENCE_BLOCK < i < s.window_start + SEQUENCE_BLOCK,
    ensures
        ({
            let queue = enqueued_all(o, pieces).queue;
            let packets = travelling_each(queue);
            let (after, ok) = s.received(queue[i].data, queue[i].is_fragment, now);
            &&& follows(start, start, packets, 0)
            &&& s.app_data.is_prefix_of(pieces)
            &&& ok
            &&& follows(after, start, packets, after.window_start as int)
            &&& after.app_data.is_prefix_of(pieces)
            &&& after.window_start == queue.len() ==> after.app_data == pieces
            &&& after.window_start >= s.window_start
            &&& i == s.window_start ==> after.window_start > s.window_start
        }),
{
    let sent = enqueued_all(o, pieces);
    let packets = travelling_each(sent.queue);
    law_stream_delivers(start, o, pieces);
    assert(sent.queue.skip(0) =~= sent.queue);
    law_numbering(o, pieces);
    assert(start.app_data + pieces =~= pieces);
    let p = sent.queue[i];
    assert(packets[i] == travelling(p));
    assert(p.data == be_bytes(short_sequence(i as i64) as nat, 2) + packets[i].data);
    law_ordered_delivery(s, start, packets, s.window_start as int, i, now);
    let after = s.received(p.data, p.is_fragment, now).0;
    let n = packets.len() as int;
    assert(packets.take(n) =~= packets);
    law_delivery_extends(start, packets, s.window_start as int, n);
    law_delivery_extends(start, packets, after.window_start as int, n);
    assert(packets.take(0) =~= Seq::empty());
}

/// An input channel in front of whose application data `earlier` stands.
pub open spec fn preceded(earlier: Seq<Seq<u8>>, s: InputState) -> InputState {
    InputState { app_data: earlier + s.app_data, ..s }
}

proof fn lemma_delivered_preceded(earlier: Seq<Seq<u8>>, s: InputState, data: Seq<u8>)
    ensures
        preceded(earlier, s).delivered(data) == preceded(earlier, s.delivered(data)),
{
    assert(preceded(earlier, s).delivered(data).app_data =~= preceded(
        earlier,
        s.delivered(data),
    ).app_data);
}

proof fn lemma_unbundled_preceded(earlier: Seq<Seq<u8>>, s: InputState, rest: Seq<u8>)
    ensures
        preceded(earlier, s).unbundled(rest) == (
            preceded(earlier, s.unbundled(rest).0),
            s.unbundled(rest).1,
        ),
    decreases rest.len(),
{
    if rest.len() > 0 {
        match data_bundle::decoded(rest) {
            (Err(_), _) => {},
            (Ok(len), at) => if len <= rest.len() - at {
                let piece = rest.subrange(at, at + len);
                lemma_delivered_preceded(earlier, s, piece);
                lemma_unbundled_preceded(earlier, s.delivered(piece), rest.skip(at + len));
            },
        }
    }
}

proof fn lemma_processed_preceded(earlier: Seq<Seq<u8>>, s: InputState, data: Seq<u8>)
    ensures
        preceded(earlier, s).processed(data) == (
            preceded(earlier, s.processed(data).0),
            s.processed(data).1,
        ),
{
    lemma_unbundled_preceded(earlier, s, data.skip(2));
    lemma_delivered_preceded(earlier, s, data);
}

proof fn lemma_consumed_preceded(
    earlier: Seq<Seq<u8>>,
    s: InputState,
    is_fragment: bool,
    data: Seq<u8>,
)
    ensures
        preceded(earlier, s).consumed(is_fragment, data) == (
            preceded(earlier, s.consumed(is_fragment, data).0),
            s.consumed(is_fragment, data).1,
        ),
{
    if is_fragment {
        let whole = match s.assembly {
            Some(assembly) => assembly.data + data,
            None => data.skip(4),
        };
        lemma_processed_preceded(earlier, InputState { assembly: None, ..s }, whole);
    } else {
        lemma_processed_preceded(earlier, s, data);
    }
}

proof fn lemma_drained_preceded(earlier: Seq<Seq<u8>>, s: InputState)
    ensures
        preceded(earlier, s).drained() == (
            preceded(earlier, s.drained().0),
            s.drained().1,
        ),
    decreases s.stash.len(),
{
    lemma_stash_position(s.stash, s.window_start, 0);
    match stash_position(s.stash, s.window_start, 0) {
        None => {},
        Some(pos) => {
            let packet = s.stash[pos];
            let without = s.without(pos);
            lemma_consumed_preceded(earlier, without, packet.is_fragment, packet.data);
            lemma_consumed_keeps_stash(without, packet.is_fragment, packet.data);
            let (after, ok) = without.consumed(packet.is_fragment, packet.data);
            assert(preceded(earlier, s).without(pos) == preceded(earlier, without));
            if ok {
                lemma_drained_preceded(earlier, after);
            }
        },
    }
}

/// What a packet makes a channel deliver does not depend on what waits to be drained, and
/// comes behind it.
pub proof fn law_received_preceded(
    earlier: Seq<Seq<u8>>,
    s: InputState,
    body: Seq<u8>,
    is_fragment: bool,
    now: nat,
)
    ensures
        preceded(earlier, s).received(body, is_fragment, now) == (
            preceded(earlier, s.received(body, is_fragment, now).0),
            s.received(body, is_fragment, now).1,
        ),
{
    if body.len() >= 2 {
        let short = be_at(body, 0, 2) as u16;
        let begun = if s.acknowledge_all_data {
            s.tallied().acknowledging(short)
        } else {
            s.tallied()
        };
        lemma_consumed_preceded(earlier, begun, is_fragment, body.skip(2));
        let after = begun.consumed(is_fragment, body.skip(2)).0;
        lemma_drained_preceded(earlier, after);
    }
}

} // verus!
