//! What an input channel does with each packet that arrives, in its turn or not.

use vstd::prelude::*;

use crate::channel::input::{
    lemma_stash_position, stash_position, Assembly, DataInputStats, InputState,
    OutgoingContextual, StashedPacket,
};
use crate::channel::{
    law_sequence_ahead, law_sequence_not_mistaken, law_sequence_recovered, short_sequence,
};
use crate::protocol::OpCode;
use crate::rc4::{law_advance_adds, law_stream_splits, Rc4State};
use crate::varint::data_bundle;
use crate::wire::{
    be_at, be_bytes, be_value, lemma_be_value_bound, lemma_be_value_of_bytes,
    lemma_pow256_values,
};

verus! {

/// That the body of a packet carries the low 16 bits of a sequence in front.
pub open spec fn numbered_as(body: Seq<u8>, sequence: int) -> bool {
    body.len() >= 2 && body.take(2) == be_bytes((sequence % 0x1_0000) as nat, 2)
}

/// That a packet carries one piece of data, not a bundle of several.
pub open spec fn carries_one(body: Seq<u8>) -> bool {
    body.len() > 2 && !(body.len() > 4 && body[2] == 0 && body[3] == 0x19)
}

/// The data behind a packet's sequence, without the zero byte that may stand in front of
/// encrypted data.
pub open spec fn text_of(data: Seq<u8>) -> Seq<u8> {
    if data.len() > 1 && data[0] == 0 {
        data.skip(1)
    } else {
        data
    }
}

proof fn lemma_numbered(body: Seq<u8>, sequence: i64)
    requires
        numbered_as(body, sequence as int),
    ensures
        be_at(body, 0, 2) as u16 == short_sequence(sequence),
        be_at(body, 0, 2) == sequence % 0x1_0000,
{
    lemma_pow256_values();
    lemma_be_value_of_bytes((sequence % 0x1_0000) as nat, 2);
    assert(body.subrange(0, 2) =~= body.take(2));
}

/// A packet that carries one piece of data and whose turn it is hands out that data,
/// decrypted if the channel has a cipher, which moves on by as much; it is acknowledged at
/// once only where every packet is. The next packet's turn comes.
#[verifier::rlimit(50)]
pub proof fn law_piece_received(s: InputState, body: Seq<u8>, now: nat)
    requires
        0 <= s.window_start,
        s.window_start + s.max_queued + 0x1_0000 < i64::MAX,
        numbered_as(body, s.window_start as int),
        carries_one(body),
        forall|i: int|
            0 <= i < s.stash.len() ==> (#[trigger] s.stash[i]).sequence != s.window_start + 1,
    ensures
        ({
            let data = body.skip(2);
            let (after, ok) = s.received(body, false, now);
            &&& ok
            &&& after.app_data == s.app_data.push(
                match s.cipher {
                    Some(c) => c.transformed(text_of(data)),
                    None => data,
                },
            )
            &&& after.cipher == (match s.cipher {
                Some(c) => Some(c.after(text_of(data).len())),
                None => None,
            })
            &&& after.assembly == s.assembly
            &&& took_its_turn(s, after)
        }),
{
    lemma_numbered(body, s.window_start);
    law_sequence_not_mistaken(s.window_start, s.window_start, s.max_queued as i64);
    lemma_stash_position(s.stash, (s.window_start + 1) as i64, 0);
    let data = body.skip(2);
    assert(body.len() > 4 ==> data[0] == body[2] && data[1] == body[3]);
}

/// That a packet whose turn it was has been counted and, where every packet is acknowledged
/// on its own, acknowledged, that the next packet's turn has come, and that nothing has
/// changed but that, the cipher, what is being put together and what is handed out.
pub open spec fn took_its_turn(s: InputState, after: InputState) -> bool {
    &&& after.outgoing == (if s.acknowledge_all_data {
        s.outgoing.push(
            OutgoingContextual {
                op_code: OpCode::Acknowledge,
                sequence: (s.window_start % 0x1_0000) as u16,
            },
        )
    } else {
        s.outgoing
    })
    &&& after.stats.total_received == (s.stats.total_received + 1) % 0x1_0000_0000_0000_0000
    &&& after.window_start == s.window_start + 1
    &&& after == (InputState {
        app_data: after.app_data,
        cipher: after.cipher,
        assembly: after.assembly,
        window_start: after.window_start,
        outgoing: after.outgoing,
        stats: DataInputStats { total_received: after.stats.total_received, ..s.stats },
        ..s
    })
}

/// An input channel after several packets of complete data, one after the other.
pub open spec fn received_all(s: InputState, bodies: Seq<Seq<u8>>, now: nat) -> InputState
    decreases bodies.len(),
{
    if bodies.len() == 0 {
        s
    } else {
        received_all(s.received(bodies[0], false, now).0, bodies.drop_first(), now)
    }
}

/// What several packets carry, each without the zero byte that may stand in front.
pub open spec fn texts(bodies: Seq<Seq<u8>>) -> Seq<Seq<u8>> {
    Seq::new(bodies.len(), |i: int| text_of(bodies[i].skip(2)))
}

/// The cipher of an input channel is one continuous key stream, whatever the pieces that
/// it is cut into: what the channel hands out, run together, is what the cipher that it
/// started with makes of all that it has received, run together.
#[verifier::rlimit(50)]
pub proof fn law_one_key_stream_received(
    s: InputState,
    c: Rc4State,
    bodies: Seq<Seq<u8>>,
    now: nat,
)
    requires
        s.cipher == Some(c),
        s.stash.len() == 0,
        0 <= s.window_start,
        s.window_start + bodies.len() + s.max_queued + 0x1_0000 < i64::MAX,
        forall|i: int|
            0 <= i < bodies.len() ==> numbered_as(#[trigger] bodies[i], s.window_start + i)
                && carries_one(bodies[i]),
    ensures
        ({
            let after = received_all(s, bodies, now);
            let fresh = after.app_data.skip(s.app_data.len() as int);
            &&& after.app_data == s.app_data + fresh
            &&& fresh.len() == bodies.len()
            &&& fresh.flatten() == c.transformed(texts(bodies).flatten())
            &&& after.cipher == Some(c.after(texts(bodies).flatten().len()))
            &&& after.window_start == s.window_start + bodies.len()
        }),
    decreases bodies.len(),
{
    let after = received_all(s, bodies, now);
    let fresh = after.app_data.skip(s.app_data.len() as int);
    reveal_with_fuel(Seq::flatten, 2);
    if bodies.len() == 0 {
        assert(fresh =~= Seq::empty());
        assert(texts(bodies) =~= Seq::empty());
        assert(c.transformed(Seq::empty()) =~= Seq::empty());
        assert(s.app_data + fresh =~= s.app_data);
    } else {
        let text = text_of(bodies[0].skip(2));
        let others = bodies.drop_first();
        assert(numbered_as(bodies[0], s.window_start + 0));
        law_piece_received(s, bodies[0], now);
        let next = s.received(bodies[0], false, now).0;
        let later = c.after(text.len());
        assert forall|i: int| 0 <= i < others.len() implies numbered_as(
            #[trigger] others[i],
            next.window_start + i,
        ) && carries_one(others[i]) by {
            assert(others[i] == bodies[i + 1]);
        }
        law_one_key_stream_received(next, later, others, now);
        let rest = after.app_data.skip(next.app_data.len() as int);
        assert(fresh =~= seq![c.transformed(text)] + rest);
        assert(fresh.drop_first() =~= rest);
        assert(texts(bodies).drop_first() =~= texts(others));
        assert(s.app_data + fresh =~= next.app_data + rest);
        let tail = texts(others).flatten();
        law_stream_splits(c, text, tail);
        law_advance_adds(c, text.len(), tail.len());
        assert(texts(bodies).flatten() =~= text + tail);
        assert(fresh.flatten() =~= c.transformed(text) + rest.flatten());
    }
}

/// A packet whose turn it is not hands out nothing and changes nothing of what has been
/// received in order. One ahead of its turn is acknowledged on its own and kept, unless it
/// has been kept before; one whose turn has gone is counted, and answered with an
/// acknowledgement of everything whose turn has gone if none has been sent for longer than
/// the maximum delay; one that is too far ahead is dropped.
#[verifier::rlimit(50)]
pub proof fn law_out_of_turn(
    s: InputState,
    body: Seq<u8>,
    is_fragment: bool,
    sequence: i64,
    now: nat,
)
    requires
        0 <= s.window_start,
        s.window_start + s.max_queued + 0x1_0000 < i64::MAX,
        numbered_as(body, sequence as int),
        sequence != s.window_start,
        s.window_start - s.max_queued <= sequence,
        s.window_start + s.max_queued - 0x1_0000 < sequence < s.window_start + 0x1_0000
            - s.max_queued,
    ensures
        ({
            let (after, ok) = s.received(body, is_fragment, now);
            let kept = exists|i: int|
                0 <= i < s.stash.len() && (#[trigger] s.stash[i]).sequence == sequence;
            let ahead = s.window_start < sequence <= s.window_start + s.max_queued;
            let late = sequence < s.window_start;
            let overdue = now > s.last_ack_all_time + s.max_ack_delay;
            &&& ok
            &&& after.outgoing == (if ahead {
                s.outgoing.push(
                    OutgoingContextual {
                        op_code: OpCode::Acknowledge,
                        sequence: (sequence % 0x1_0000) as u16,
                    },
                )
            } else if late && overdue {
                s.outgoing.push(
                    OutgoingContextual {
                        op_code: OpCode::AcknowledgeAll,
                        sequence: ((s.window_start - 1) % 0x1_0000) as u16,
                    },
                )
            } else {
                s.outgoing
            })
            &&& after.stash == (if ahead && !kept {
                s.stash.push(StashedPacket { sequence, is_fragment, data: body.skip(2) })
            } else {
                s.stash
            })
            &&& after.last_ack_all_sequence == (if late && overdue {
                s.window_start - 1
            } else {
                s.last_ack_all_sequence as int
            })
            &&& after.last_ack_all_time == (if late && overdue {
                now
            } else {
                s.last_ack_all_time
            })
            &&& after.stats.total_received == (s.stats.total_received + 1)
                % 0x1_0000_0000_0000_0000
            &&& after.stats.duplicate_count == (s.stats.duplicate_count + (if late || (ahead
                && kept) {
                1int
            } else {
                0
            })) % 0x1_0000_0000_0000_0000
            &&& after.stats.out_of_order_count == (s.stats.out_of_order_count + (if ahead
                && !kept {
                1int
            } else {
                0
            })) % 0x1_0000_0000_0000_0000
            &&& after == (InputState {
                outgoing: after.outgoing,
                stash: after.stash,
                last_ack_all_sequence: after.last_ack_all_sequence,
                last_ack_all_time: after.last_ack_all_time,
                stats: after.stats,
                ..s
            })
        }),
{
    lemma_numbered(body, sequence);
    if sequence <= s.window_start + s.max_queued {
        law_sequence_recovered(sequence, s.window_start, s.max_queued as i64);
    } else {
        law_sequence_ahead(sequence, s.window_start, s.max_queued as i64);
    }
    lemma_stash_position(s.stash, sequence, 0);
    if stash_position(s.stash, sequence, 0) is Some {
        let pos = stash_position(s.stash, sequence, 0)->Some_0;
        assert(s.stash[pos].sequence == sequence);
    }
}

/// A piece of data that travels in fragments is put together before it is handed out. The
/// first fragment says how long it is; one that says too much, and one that brings more
/// than was announced, is refused, and hands out nothing.
#[verifier::rlimit(50)]
pub proof fn law_fragment_received(s: InputState, body: Seq<u8>, now: nat)
    requires
        0 <= s.window_start,
        s.window_start + s.max_queued + 0x1_0000 < i64::MAX,
        numbered_as(body, s.window_start as int),
        forall|i: int|
            0 <= i < s.stash.len() ==> (#[trigger] s.stash[i]).sequence != s.window_start + 1,
    ensures
        ({
            let data = body.skip(2);
            let (after, ok) = s.received(body, true, now);
            let head = s.assembly is None;
            let total = match s.assembly {
                Some(assembly) => assembly.total as int,
                None => be_value(data.take(4)) as int,
            };
            let got = match s.assembly {
                Some(assembly) => assembly.data + data,
                None => data.skip(4),
            };
            let announced = !head || (data.len() >= 4 && total <= 0x100_0000);
            &&& !announced || got.len() > total ==> !ok && after.app_data == s.app_data
                && after.window_start == s.window_start && after.cipher == s.cipher
            &&& announced && got.len() < total ==> {
                &&& ok
                &&& after.assembly == Some(Assembly { total: total as u32, data: got })
                &&& after.app_data == s.app_data
                &&& after.cipher == s.cipher
                &&& took_its_turn(s, after)
            }
            &&& announced && got.len() == total ==> s.received(body, true, now) == (
            InputState { assembly: None, ..s }).received(body.take(2) + got, false, now)
        }),
{
    let data = body.skip(2);
    lemma_numbered(body, s.window_start);
    law_sequence_not_mistaken(s.window_start, s.window_start, s.max_queued as i64);
    lemma_stash_position(s.stash, (s.window_start + 1) as i64, 0);
    let got = match s.assembly {
        Some(assembly) => assembly.data + data,
        None => data.skip(4),
    };
    let whole = body.take(2) + got;
    assert(whole.skip(2) =~= got);
    assert(whole.take(2) =~= body.take(2));
    lemma_numbered(whole, s.window_start);
    if data.len() >= 4 {
        assert(data.subrange(0, 4) =~= data.take(4));
        lemma_be_value_bound(data.take(4));
        lemma_pow256_values();
    }
}

/// Several pieces of data in one bundle, each behind its length.
pub open spec fn bundled(pieces: Seq<Seq<u8>>) -> Seq<u8>
    decreases pieces.len(),
{
    if pieces.len() == 0 {
        Seq::empty()
    } else {
        data_bundle::encoded(pieces[0].len() as u32) + pieces[0] + bundled(pieces.drop_first())
    }
}

/// Several pieces of data, each without the zero byte that may stand in front.
pub open spec fn plain_texts(pieces: Seq<Seq<u8>>) -> Seq<Seq<u8>> {
    Seq::new(pieces.len(), |i: int| text_of(pieces[i]))
}

#[verifier::rlimit(50)]
proof fn lemma_unbundled(s: InputState, pieces: Seq<Seq<u8>>)
    requires
        forall|i: int| 0 <= i < pieces.len() ==> (#[trigger] pieces[i]).len() <= u32::MAX,
    ensures
        ({
            let (after, ok) = s.unbundled(bundled(pieces));
            let fresh = after.app_data.skip(s.app_data.len() as int);
            &&& ok
            &&& after.app_data == s.app_data + fresh
            &&& fresh.len() == pieces.len()
            &&& s.cipher is None ==> fresh == pieces && after.cipher is None
            &&& s.cipher matches Some(c) ==> {
                &&& fresh.flatten() == c.transformed(plain_texts(pieces).flatten())
                &&& after.cipher == Some(c.after(plain_texts(pieces).flatten().len()))
            }
            &&& after == (InputState { app_data: after.app_data, cipher: after.cipher, ..s })
        }),
    decreases pieces.len(),
{
    let (after, ok) = s.unbundled(bundled(pieces));
    let fresh = after.app_data.skip(s.app_data.len() as int);
    reveal_with_fuel(Seq::flatten, 2);
    if pieces.len() == 0 {
        assert(fresh =~= Seq::empty());
        assert(plain_texts(pieces) =~= Seq::empty());
        assert(s.app_data + fresh =~= s.app_data);
        assert(pieces =~= Seq::empty());
        if let Some(c) = s.cipher {
            assert(c.transformed(Seq::empty()) =~= Seq::empty());
        }
    } else {
        let piece = pieces[0];
        let others = pieces.drop_first();
        let length = data_bundle::encoded(piece.len() as u32);
        let rest = bundled(pieces);
        let tail = piece + bundled(others);
        assert(rest =~= length + tail);
        data_bundle::law_round_trip(piece.len() as u32, tail);
        let at = length.len() as int;
        assert(rest.subrange(at, at + piece.len()) =~= piece);
        assert(rest.skip(at + piece.len()) =~= bundled(others));
        assert(at > 0) by {
            data_bundle::law_round_trip(piece.len() as u32, Seq::empty());
        }
        let next = s.delivered(piece);
        assert(s.unbundled(rest) == next.unbundled(bundled(others)));
        lemma_unbundled(next, others);
        let later = after.app_data.skip(next.app_data.len() as int);
        assert(fresh =~= seq![next.app_data.last()] + later);
        assert(fresh.drop_first() =~= later);
        assert(s.app_data + fresh =~= next.app_data + later);
        assert(plain_texts(pieces).drop_first() =~= plain_texts(others));
        match s.cipher {
            Some(c) => {
                let text = text_of(piece);
                let more = plain_texts(others).flatten();
                law_stream_splits(c, text, more);
                law_advance_adds(c, text.len(), more.len());
                assert(plain_texts(pieces).flatten() =~= text + more);
                assert(fresh.flatten() =~= c.transformed(text) + later.flatten());
            },
            None => {
                assert(fresh =~= pieces);
            },
        }
    }
}

/// A bundle hands out each of its pieces, in order, and takes one turn. On a channel with a
/// cipher its pieces are parts of the one key stream.
#[verifier::rlimit(50)]
pub proof fn law_bundle_received(s: InputState, body: Seq<u8>, pieces: Seq<Seq<u8>>, now: nat)
    requires
        0 <= s.window_start,
        s.window_start + s.max_queued + 0x1_0000 < i64::MAX,
        pieces.len() > 0,
        forall|i: int| 0 <= i < pieces.len() ==> (#[trigger] pieces[i]).len() <= u32::MAX,
        numbered_as(body, s.window_start as int),
        body.skip(2) == seq![0u8, 0x19u8] + bundled(pieces),
        forall|i: int|
            0 <= i < s.stash.len() ==> (#[trigger] s.stash[i]).sequence != s.window_start + 1,
    ensures
        ({
            let (after, ok) = s.received(body, false, now);
            let fresh = after.app_data.skip(s.app_data.len() as int);
            &&& ok
            &&& after.app_data == s.app_data + fresh
            &&& fresh.len() == pieces.len()
            &&& s.cipher is None ==> fresh == pieces
            &&& s.cipher matches Some(c) ==> {
                &&& fresh.flatten() == c.transformed(plain_texts(pieces).flatten())
                &&& after.cipher == Some(c.after(plain_texts(pieces).flatten().len()))
            }
            &&& after.assembly == s.assembly
            &&& took_its_turn(s, after)
        }),
{
    let data = body.skip(2);
    lemma_numbered(body, s.window_start);
    law_sequence_not_mistaken(s.window_start, s.window_start, s.max_queued as i64);
    lemma_stash_position(s.stash, (s.window_start + 1) as i64, 0);
    assert(bundled(pieces).len() > 0) by {
        data_bundle::law_round_trip(pieces[0].len() as u32, Seq::empty());
    }
    assert(data.skip(2) =~= bundled(pieces));
    let begun = if s.acknowledge_all_data {
        s.tallied().acknowledging(be_at(body, 0, 2) as u16)
    } else {
        s.tallied()
    };
    lemma_unbundled(begun, pieces);
}

proof fn lemma_unbundled_then(s: InputState, pieces: Seq<Seq<u8>>, tail: Seq<u8>)
    requires
        forall|i: int| 0 <= i < pieces.len() ==> (#[trigger] pieces[i]).len() <= u32::MAX,
    ensures
        s.unbundled(bundled(pieces) + tail) == s.unbundled(bundled(pieces)).0.unbundled(tail),
    decreases pieces.len(),
{
    if pieces.len() == 0 {
        assert(bundled(pieces) + tail =~= tail);
    } else {
        let piece = pieces[0];
        let others = pieces.drop_first();
        let length = data_bundle::encoded(piece.len() as u32);
        let at = length.len() as int;
        let rest = bundled(pieces);
        let more = rest + tail;
        data_bundle::law_round_trip(piece.len() as u32, piece + bundled(others));
        data_bundle::law_round_trip(piece.len() as u32, piece + bundled(others) + tail);
        data_bundle::law_layout(piece.len() as u32);
        assert(rest =~= length + (piece + bundled(others)));
        assert(more =~= length + (piece + bundled(others) + tail));
        assert(rest.subrange(at, at + piece.len()) =~= piece);
        assert(more.subrange(at, at + piece.len()) =~= piece);
        assert(rest.skip(at + piece.len()) =~= bundled(others));
        assert(more.skip(at + piece.len()) =~= bundled(others) + tail);
        lemma_unbundled_then(s.delivered(piece), others, tail);
    }
}

/// A bundle that announces more than it holds is refused: the pieces ahead of that are
/// handed out, and the packet does not count as received.
pub proof fn law_bundle_cut_short(
    s: InputState,
    body: Seq<u8>,
    pieces: Seq<Seq<u8>>,
    length: u32,
    rest: Seq<u8>,
    now: nat,
)
    requires
        0 <= s.window_start,
        s.window_start + s.max_queued + 0x1_0000 < i64::MAX,
        forall|i: int| 0 <= i < pieces.len() ==> (#[trigger] pieces[i]).len() <= u32::MAX,
        rest.len() < length,
        numbered_as(body, s.window_start as int),
        body.skip(2) == seq![0u8, 0x19u8] + (bundled(pieces) + (data_bundle::encoded(length)
            + rest)),
    ensures
        ({
            let (after, ok) = s.received(body, false, now);
            let fresh = after.app_data.skip(s.app_data.len() as int);
            &&& !ok
            &&& after.app_data == s.app_data + fresh
            &&& fresh.len() == pieces.len()
            &&& s.cipher is None ==> fresh == pieces
            &&& s.cipher matches Some(c) ==> fresh.flatten() == c.transformed(
                plain_texts(pieces).flatten(),
            )
            &&& after.window_start == s.window_start
        }),
{
    let data = body.skip(2);
    let tail = data_bundle::encoded(length) + rest;
    lemma_numbered(body, s.window_start);
    law_sequence_not_mistaken(s.window_start, s.window_start, s.max_queued as i64);
    data_bundle::law_round_trip(length, rest);
    data_bundle::law_layout(length);
    assert(tail.len() > 0);
    assert(data.skip(2) =~= bundled(pieces) + tail);
    let begun = if s.acknowledge_all_data {
        s.tallied().acknowledging(be_at(body, 0, 2) as u16)
    } else {
        s.tallied()
    };
    lemma_unbundled_then(begun, pieces, tail);
    lemma_unbundled(begun, pieces);
}

/// A tick acknowledges everything whose turn has gone, as a whole, where packets are not
/// acknowledged one by one and some have not been acknowledged as a whole before: if they
/// are half of the window, or if the last such acknowledgement is older than the maximum
/// delay. Otherwise a tick changes nothing.
pub proof fn law_input_tick(s: InputState, now: nat)
    requires
        0 <= s.window_start,
        -1 <= s.last_ack_all_sequence,
        s.last_ack_all_sequence + 0x1_0000 < i64::MAX,
    ensures
        ({
            let complete = s.window_start - 1;
            let due = !s.acknowledge_all_data && complete > s.last_ack_all_sequence && (complete
                >= s.last_ack_all_sequence + s.ack_window as int / 2 || now
                > s.last_ack_all_time + s.max_ack_delay);
            s.ticked(now) == (if due {
                InputState {
                    outgoing: s.outgoing.push(
                        OutgoingContextual {
                            op_code: OpCode::AcknowledgeAll,
                            sequence: (complete % 0x1_0000) as u16,
                        },
                    ),
                    last_ack_all_sequence: complete as i64,
                    last_ack_all_time: now,
                    ..s
                }
            } else {
                s
            })
        }),
{
}

/// Packets that have arrived ahead of their turn are not waited for again: when the packet
/// before them arrives, the first of them has its turn at once, just as if it arrived then,
/// but for what that would be acknowledged and counted as.
#[verifier::rlimit(50)]
pub proof fn law_stash_catches_up(s: InputState, body: Seq<u8>, pos: int, now: nat)
    requires
        0 <= s.window_start,
        s.window_start + s.max_queued + 0x1_0000 < i64::MAX,
        numbered_as(body, s.window_start as int),
        carries_one(body),
        0 <= pos < s.stash.len(),
        s.stash[pos].sequence == s.window_start + 1,
        !s.stash[pos].is_fragment,
        s.stash[pos].data.len() > 0,
        !(s.stash[pos].data.len() > 2 && s.stash[pos].data[0] == 0 && s.stash[pos].data[1]
            == 0x19),
        forall|i: int|
            0 <= i < s.stash.len() && i != pos ==> (#[trigger] s.stash[i]).sequence
                != s.window_start + 1,
        forall|i: int|
            0 <= i < s.stash.len() ==> (#[trigger] s.stash[i]).sequence != s.window_start + 2,
    ensures
        ({
            let first = body.skip(2);
            let second = s.stash[pos].data;
            let (after, ok) = s.received(body, false, now);
            &&& ok
            &&& after.window_start == s.window_start + 2
            &&& after.stash == s.stash.remove(pos)
            &&& after.app_data == (match s.cipher {
                Some(c) => s.app_data.push(c.transformed(text_of(first))).push(
                    c.after(text_of(first).len()).transformed(text_of(second)),
                ),
                None => s.app_data.push(first).push(second),
            })
        }),
{
    lemma_numbered(body, s.window_start);
    law_sequence_not_mistaken(s.window_start, s.window_start, s.max_queued as i64);
    let data = body.skip(2);
    assert(body.len() > 4 ==> data[0] == body[2] && data[1] == body[3]);
    let next = (s.window_start + 1) as i64;
    lemma_stash_position(s.stash, next, 0);
    assert(stash_position(s.stash, next, 0) == Some(pos)) by {
        if stash_position(s.stash, next, 0) is None {
            assert(s.stash[pos].sequence != next);
        }
        let p = stash_position(s.stash, next, 0)->Some_0;
        assert(s.stash[p].sequence == next);
    }
    let rest = s.stash.remove(pos);
    lemma_stash_position(rest, (s.window_start + 2) as i64, 0);
    assert forall|i: int| 0 <= i < rest.len() implies (#[trigger] rest[i]).sequence
        != s.window_start + 2 by {
        assert(rest[i] == s.stash[if i < pos { i } else { i + 1 }]);
    }
    if stash_position(rest, (s.window_start + 2) as i64, 0) is Some {
        let p = stash_position(rest, (s.window_start + 2) as i64, 0)->Some_0;
        assert(rest[p].sequence == s.window_start + 2);
    }
    reveal_with_fuel(InputState::drained, 3);
}

} // verus!
