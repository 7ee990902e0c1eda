//! What a session sends and hands on, datagram by datagram.

use vstd::prelude::*;

use crate::buffer::held;
use crate::channel::input::{DataInputStats, InputState, OutgoingContextual};
use crate::channel::output::{DataOutputStats, OutgoingPacket, OutputState, QueuedPacket};
use crate::channel::output_laws::{law_acknowledge_all, law_acknowledged_sequence};
use crate::channel::receiving_laws::law_input_tick;
use crate::channel::sending_laws::law_tick_hands_out;
use crate::constants::RELIABLE_CHANNEL_COUNT;
use crate::crc32::crc_of;
use crate::packet_utils::{op_code_in, validated};
use crate::packets::{
    law_acknowledge_all_round_trip, law_acknowledge_round_trip, law_disconnect_round_trip,
    lemma_disconnect_wire, Acknowledge, AcknowledgeAll, Disconnect,
};
use crate::protocol::{disconnect_reason_value, op_code_value, DisconnectReason, OpCode};
use crate::rc4::Rc4State;
use crate::session::laws::{agree, law_frame_received, law_terminate, met};
use crate::session::model::{
    default_params, lemma_flushed_settled, lemma_same_channels, new_session, rng_next,
    rng_value, Params, Received, Session,
};
use crate::session::{
    received_each, Channel, ReceivedData, SessionEvent, SessionMode, SessionParameters,
    SessionState,
};
use crate::varint::multi_packet;
use crate::wire::{be_bytes, concat, lemma_be_bytes_len};
use crate::zlib::decompressed;

verus! {

/// The bytes of a contextual packet, in order: its number, a zero byte if packets may be
/// compressed, its payload, and the low bytes of the check value of all that.
pub proof fn law_frame_layout(p: Params, raw_op: u16, payload: Seq<u8>)
    ensures
        ({
            let front = be_bytes(raw_op as nat, 2) + (if p.is_compression_enabled {
                seq![0u8]
            } else {
                Seq::empty()
            }) + payload;
            p.frame(raw_op, payload) == front + be_bytes(
                crc_of(p.crc_seed, front) as nat,
                p.crc_length as nat,
            )
        }),
{
}

/// The bytes of an unreliable packet, in order: a zero byte if the data begins with one, the
/// data, and the low bytes of the check value of all that.
pub proof fn law_unreliable_layout(p: Params, data: Seq<u8>)
    requires
        data.len() > 0,
    ensures
        ({
            let front = if data[0] == 0 {
                seq![0u8] + data
            } else {
                data
            };
            p.frame_unreliable(data) == front + be_bytes(
                crc_of(p.crc_seed, front) as nat,
                p.crc_length as nat,
            )
        }),
{
}

/// The datagrams that carry the given acknowledgements of a reliable channel.
pub open spec fn ack_datagrams(p: Params, ch: int, acks: Seq<OutgoingContextual>) -> Seq<
    Seq<u8>,
> {
    Seq::new(
        acks.len(),
        |i: int|
            p.frame(
                (op_code_value(acks[i].op_code) + ch) as u16,
                be_bytes(acks[i].sequence as nat, 2),
            ),
    )
}

/// The datagrams that carry the given packets of a reliable channel.
pub open spec fn packet_datagrams(p: Params, ch: int, packets: Seq<OutgoingPacket>) -> Seq<
    Seq<u8>,
> {
    Seq::new(
        packets.len(),
        |i: int| p.frame((op_code_value(packets[i].op_code) + ch) as u16, packets[i].payload),
    )
}

/// The datagrams that carry the packets of a queue, from `from` to before `end`.
pub open spec fn queue_datagrams(
    p: Params,
    ch: int,
    queue: Seq<QueuedPacket>,
    from: int,
    end: int,
) -> Seq<Seq<u8>> {
    Seq::new(
        if from <= end {
            (end - from) as nat
        } else {
            0
        },
        |k: int|
            p.frame(
                (if queue[from + k].is_fragment {
                    0x0D + ch
                } else {
                    0x09 + ch
                }) as u16,
                queue[from + k].data,
            ),
    )
}

/// What a channel sends when it passes on what it holds.
pub open spec fn sent_on(s: Session, ch: int) -> Seq<Seq<u8>> {
    ack_datagrams(
        s.params,
        ch,
        match s.inputs[ch] {
            Some(input) => input.outgoing,
            None => Seq::empty(),
        },
    ) + packet_datagrams(
        s.params,
        ch,
        match s.outputs[ch] {
            Some(output) => output.outgoing,
            None => Seq::empty(),
        },
    )
}

/// What a channel hands to the application when it passes on what it holds.
pub open spec fn handed_on(s: Session, ch: int) -> Seq<Received> {
    match s.inputs[ch] {
        Some(input) => Seq::new(
            input.app_data.len(),
            |i: int|
                Received { data: input.app_data[i], channel: Channel::Reliable(ch as usize) },
        ),
        None => Seq::empty(),
    }
}

spec fn flushed_like(s: Session, t: Session, n: int) -> bool {
    &&& t.wf()
    &&& forall|k: int|
        n <= k < RELIABLE_CHANNEL_COUNT ==> (#[trigger] t.inputs[k]) == s.inputs[k]
    &&& forall|k: int|
        n <= k < RELIABLE_CHANNEL_COUNT ==> (#[trigger] t.outputs[k]) == s.outputs[k]
    &&& forall|k: int|
        0 <= k < n ==> (#[trigger] t.inputs[k]) == (match s.inputs[k] {
            Some(input) => Some(
                InputState { outgoing: Seq::empty(), app_data: Seq::empty(), ..input },
            ),
            None => None,
        })
    &&& forall|k: int|
        0 <= k < n ==> (#[trigger] t.outputs[k]) == (match s.outputs[k] {
            Some(output) => Some(OutputState { outgoing: Seq::empty(), ..output }),
            None => None,
        })
    &&& t == (Session {
        inputs: t.inputs,
        outputs: t.outputs,
        outgoing: t.outgoing,
        received: t.received,
        ..s
    })
}

#[verifier::rlimit(50)]
proof fn lemma_flush_step(s: Session, n: nat)
    requires
        s.wf(),
        n < RELIABLE_CHANNEL_COUNT,
        flushed_like(s, s.flushed_up_to(n), n as int),
    ensures
        flushed_like(s, s.flushed_up_to(n + 1), n as int + 1),
        s.flushed_up_to(n + 1).outgoing == s.flushed_up_to(n).outgoing + sent_on(s, n as int),
        s.flushed_up_to(n + 1).received == s.flushed_up_to(n).received + handed_on(s, n as int),
{
    let t = s.flushed_up_to(n);
    let ch = n as int;
    let a = t.acks_flushed(ch);
    let b = a.packets_flushed(ch);
    assert(s.flushed_up_to(n + 1) == b.data_flushed(ch));
    assert(t.inputs[ch] == s.inputs[ch]);
    assert(t.outputs[ch] == s.outputs[ch]);
    let acks = match s.inputs[ch] {
        Some(input) => input.outgoing,
        None => Seq::empty(),
    };
    let packets = match s.outputs[ch] {
        Some(output) => output.outgoing,
        None => Seq::empty(),
    };
    assert(t.ack_frames(ch) =~= ack_datagrams(s.params, ch, acks));
    assert(a.packet_frames(ch) =~= packet_datagrams(s.params, ch, packets));
    assert(b.channel_data(ch) =~= handed_on(s, ch));
    assert(b.outgoing =~= t.outgoing + sent_on(s, ch));
}

/// What the channels hold is passed on channel by channel: of each, first its
/// acknowledgements and then its packets are sent, in order and each in a datagram with the
/// number of its kind and channel, and its data is handed to the application tagged with the
/// channel. The channels then hold none of it, and nothing else changes.
#[verifier::rlimit(50)]
pub proof fn law_flush(s: Session)
    requires
        s.wf(),
    ensures
        ({
            let after = s.flushed();
            &&& after.outgoing == s.outgoing + sent_on(s, 0) + sent_on(s, 1) + sent_on(s, 2)
                + sent_on(s, 3)
            &&& after.received == s.received + handed_on(s, 0) + handed_on(s, 1) + handed_on(
                s,
                2,
            ) + handed_on(s, 3)
            &&& forall|k: int|
                0 <= k < 4 ==> (#[trigger] after.inputs[k]) == (match s.inputs[k] {
                    Some(input) => Some(
                        InputState { outgoing: Seq::empty(), app_data: Seq::empty(), ..input },
                    ),
                    None => None,
                })
            &&& forall|k: int|
                0 <= k < 4 ==> (#[trigger] after.outputs[k]) == (match s.outputs[k] {
                    Some(output) => Some(OutputState { outgoing: Seq::empty(), ..output }),
                    None => None,
                })
            &&& after.wf()
            &&& after == (Session {
                inputs: after.inputs,
                outputs: after.outputs,
                outgoing: after.outgoing,
                received: after.received,
                ..s
            })
        }),
{
    reveal(Session::flushed);
    assert(s.flushed_up_to(0) == s);
    lemma_flush_step(s, 0);
    lemma_flush_step(s, 1);
    lemma_flush_step(s, 2);
    lemma_flush_step(s, 3);
}

/// Where an output channel begins to send at a tick: with the packet at the front, if that
/// has not been acknowledged for longer than the timeout, and otherwise with the first that
/// has not been handed out.
pub open spec fn due_from(o: OutputState, now: nat) -> int {
    if o.queue.len() > 0 && o.queue[0].sent && o.queue[0].sent_at is Some && now
        - o.queue[0].sent_at->Some_0 > o.rto {
        0
    } else {
        o.dispatch_index
    }
}

/// Where an output channel stops to send: at the end of its queue or of its window.
pub open spec fn due_to(o: OutputState) -> int {
    if o.queue.len() <= o.window {
        o.queue.len() as int
    } else {
        o.window as int
    }
}

/// What an output channel sends at a tick: what it has handed out already, and the packets
/// that are due.
pub open spec fn due_on(p: Params, ch: int, output: Option<OutputState>, now: nat) -> Seq<
    Seq<u8>,
> {
    match output {
        Some(o) => packet_datagrams(p, ch, o.outgoing) + queue_datagrams(
            p,
            ch,
            o.queue,
            due_from(o, now),
            due_to(o),
        ),
        None => Seq::empty(),
    }
}

/// That an output channel has handed out no more than there is and than its window allows.
pub open spec fn in_step(output: Option<OutputState>) -> bool {
    output matches Some(o) ==> 0 <= o.dispatch_index <= o.queue.len() && o.dispatch_index
        <= o.window
}

proof fn lemma_tick_sends(p: Params, ch: int, o: OutputState, now: nat)
    requires
        in_step(Some(o)),
    ensures
        packet_datagrams(p, ch, o.ticked(now).outgoing) == due_on(p, ch, Some(o), now),
{
    law_tick_hands_out(o, now);
    let after = o.ticked(now);
    let all = packet_datagrams(p, ch, after.outgoing);
    let parts = due_on(p, ch, Some(o), now);
    let n = o.outgoing.len();
    assert(all.len() == parts.len());
    assert forall|i: int| 0 <= i < all.len() implies all[i] == parts[i] by {
        if i < n {
            assert(after.outgoing.take(n as int)[i] == o.outgoing[i]);
        } else {
            assert(after.outgoing[n + (i - n)] == after.outgoing[i]);
        }
    }
    assert(all =~= parts);
}

/// What the acknowledgements and packets that a channel holds, and the packets that are due
/// at the given time, make it send.
pub open spec fn all_due_on(s: Session, ch: int, now: nat) -> Seq<Seq<u8>> {
    ack_datagrams(
        s.params,
        ch,
        match s.inputs[ch] {
            Some(input) => input.outgoing,
            None => Seq::empty(),
        },
    ) + due_on(s.params, ch, s.outputs[ch], now)
}

proof fn lemma_outputs_ticked_send(s: Session, ch: int, now: nat)
    requires
        s.wf(),
        0 <= ch < 4,
        in_step(s.outputs[ch]),
    ensures
        sent_on(s.outputs_ticked(now, 4), ch) == all_due_on(s, ch, now),
{
    let t = s.outputs_ticked(now, 4);
    match s.outputs[ch] {
        Some(o) => {
            lemma_tick_sends(s.params, ch, o, now);
            assert(t.outputs[ch] == Some(o.ticked(now)));
        },
        None => {
            assert(t.outputs[ch] is None);
            assert(packet_datagrams(s.params, ch, Seq::empty()) =~= Seq::empty());
        },
    }
}

/// A session that ends sends what it can before it goes: of each channel, in turn, the
/// acknowledgements, the packets that have been handed out and those in the send window that
/// have not; and then, if it was running and the remote is to be told, that it ends and why.
#[verifier::rlimit(50)]
pub proof fn law_termination_sends(
    s: Session,
    reason: DisconnectReason,
    notify_remote: bool,
    by_remote: bool,
    now: nat,
)
    requires
        s.wf(),
        s.state !is Terminated,
        forall|k: int| 0 <= k < 4 ==> in_step(#[trigger] s.outputs[k]),
    ensures
        ({
            let after = s.terminated(reason, notify_remote, by_remote, now);
            let goodbye = s.params.frame(
                0x05,
                be_bytes(s.session_id as nat, 4) + be_bytes(
                    disconnect_reason_value(reason) as nat,
                    2,
                ),
            );
            &&& after.outgoing == s.outgoing + all_due_on(s, 0, now) + all_due_on(s, 1, now)
                + all_due_on(s, 2, now) + all_due_on(s, 3, now) + (if notify_remote && s.state
                is Running {
                seq![goodbye]
            } else {
                Seq::empty()
            })
            &&& after.received == s.received + handed_on(s, 0) + handed_on(s, 1) + handed_on(
                s,
                2,
            ) + handed_on(s, 3)
            &&& after.state is Terminated
            &&& after.termination_reason == reason
            &&& after.terminated_by_remote == by_remote
            &&& after.events == s.events.push(SessionEvent::Closed(reason))
        }),
{
    reveal(Session::terminated);
    let t = s.outputs_ticked(now, 4);
    assert(t.wf());
    assert(in_step(s.outputs[0]) && in_step(s.outputs[1]) && in_step(s.outputs[2]) && in_step(
        s.outputs[3],
    ));
    lemma_outputs_ticked_send(s, 0, now);
    lemma_outputs_ticked_send(s, 1, now);
    lemma_outputs_ticked_send(s, 2, now);
    lemma_outputs_ticked_send(s, 3, now);
    law_flush(t);
    lemma_disconnect_wire(Disconnect { session_id: s.session_id, reason });
    let after = s.terminated(reason, notify_remote, by_remote, now);
    let base = t.flushed().outgoing;
    if notify_remote && s.state is Running {
        assert(after.outgoing =~= base + seq![after.outgoing.last()]);
    } else {
        assert(after.outgoing =~= base + Seq::<Seq<u8>>::empty());
    }
}

/// The datagram that carries a packet of a queue.
pub open spec fn datagram_of(p: Params, ch: int, packet: QueuedPacket) -> Seq<u8> {
    p.frame(
        (if packet.is_fragment {
            0x0D + ch
        } else {
            0x09 + ch
        }) as u16,
        packet.data,
    )
}

proof fn lemma_still_within(a: Seq<Seq<u8>>, b: Seq<Seq<u8>>, x: Seq<u8>)
    requires
        a.contains(x),
    ensures
        (a + b).contains(x),
        (b + a).contains(x),
{
    let i = choose|i: int| 0 <= i < a.len() && a[i] == x;
    assert((a + b)[i] == x);
    assert((b + a)[b.len() + i] == x);
}

/// Nothing that was enqueued is lost for want of a tick: a packet in the send window that
/// has not been handed out when a session ends is among the datagrams that the session
/// leaves.
#[verifier::rlimit(50)]
pub proof fn law_termination_sends_what_waits(
    s: Session,
    reason: DisconnectReason,
    notify_remote: bool,
    by_remote: bool,
    ch: int,
    o: OutputState,
    i: int,
    now: nat,
)
    requires
        s.wf(),
        s.state !is Terminated,
        forall|k: int| 0 <= k < 4 ==> in_step(#[trigger] s.outputs[k]),
        0 <= ch < 4,
        s.outputs[ch] == Some(o),
        o.dispatch_index <= i < o.queue.len(),
        i < o.window,
    ensures
        s.terminated(reason, notify_remote, by_remote, now).outgoing.contains(
            datagram_of(s.params, ch, o.queue[i]),
        ),
{
    law_termination_sends(s, reason, notify_remote, by_remote, now);
    assert(in_step(s.outputs[ch]));
    let x = datagram_of(s.params, ch, o.queue[i]);
    let from = due_from(o, now);
    let frames = queue_datagrams(s.params, ch, o.queue, from, due_to(o));
    assert(from <= i < due_to(o));
    assert(frames[i - from] == x);
    assert(frames.contains(x));
    lemma_still_within(frames, packet_datagrams(s.params, ch, o.outgoing), x);
    let due = due_on(s.params, ch, s.outputs[ch], now);
    let mine = all_due_on(s, ch, now);
    lemma_still_within(
        due,
        ack_datagrams(
            s.params,
            ch,
            match s.inputs[ch] {
                Some(input) => input.outgoing,
                None => Seq::empty(),
            },
        ),
        x,
    );
    assert(mine.contains(x));
    let after = s.terminated(reason, notify_remote, by_remote, now);
    let d0 = all_due_on(s, 0, now);
    let d1 = all_due_on(s, 1, now);
    let d2 = all_due_on(s, 2, now);
    let d3 = all_due_on(s, 3, now);
    let end = after.outgoing.skip((s.outgoing + d0 + d1 + d2 + d3).len() as int);
    assert(after.outgoing =~= s.outgoing + d0 + d1 + d2 + d3 + end);
    if ch == 0 {
        lemma_still_within(d0, s.outgoing, x);
    } else if ch == 1 {
        lemma_still_within(d1, s.outgoing + d0, x);
    } else if ch == 2 {
        lemma_still_within(d2, s.outgoing + d0 + d1, x);
    } else {
        lemma_still_within(d3, s.outgoing + d0 + d1 + d2, x);
    }
    if ch <= 0 {
        lemma_still_within(s.outgoing + d0, d1, x);
    }
    if ch <= 1 {
        lemma_still_within(s.outgoing + d0 + d1, d2, x);
    }
    if ch <= 2 {
        lemma_still_within(s.outgoing + d0 + d1 + d2, d3, x);
    }
    lemma_still_within(s.outgoing + d0 + d1 + d2 + d3, end, x);
}

/// The input channel that a packet meets: one that has not been used is made as the session
/// has it, has received nothing, and counts its acknowledgements from now.
pub open spec fn input_met(s: Session, ch: int, now: nat) -> InputState {
    match s.inputs[ch] {
        Some(input) => input,
        None => InputState {
            max_queued: s.params.max_queued_incoming_reliable,
            acknowledge_all_data: s.params.acknowledge_all_data,
            ack_window: s.params.data_ack_window,
            max_ack_delay: s.params.max_ack_delay,
            cipher: s.cipher,
            window_start: 0,
            stash: Seq::empty(),
            assembly: None,
            last_ack_all_sequence: (-1) as i64,
            last_ack_all_time: now,
            outgoing: Seq::empty(),
            app_data: Seq::empty(),
            stats: DataInputStats {
                total_received: 0,
                duplicate_count: 0,
                out_of_order_count: 0,
            },
        },
    }
}

/// The output channel that data or an acknowledgement meets: one that has not been used has
/// packets as long as the remote can receive, the send window of the session, a timeout of
/// half a second, and the cipher of the session.
pub open spec fn output_met(s: Session, ch: int) -> OutputState {
    match s.outputs[ch] {
        Some(output) => output,
        None => OutputState {
            max_data_length: (s.params.remote_udp_length - (if s.params.is_compression_enabled {
                3int
            } else {
                2
            }) - s.params.crc_length) as usize,
            window: s.params.max_queued_outgoing_reliable as usize,
            cipher: s.cipher,
            queue: Seq::empty(),
            total_sequence: 0,
            max_client_sequence: 0,
            dispatch_index: 0,
            srtt: None,
            rttvar: 0,
            rto: 500_000_000,
            outgoing: Seq::empty(),
            stats: DataOutputStats {
                total_sent: 0,
                total_resent: 0,
                incoming_acknowledge_count: 0,
                actual_acknowledge_count: 0,
            },
        },
    }
}

/// The events of a session that has received a packet: one that was to open with its next
/// packet has opened.
pub open spec fn events_met(s: Session) -> Seq<SessionEvent> {
    if s.open_session_on_next_packet {
        s.events.push(SessionEvent::Opened)
    } else {
        s.events
    }
}

proof fn lemma_still(s: Session, t: Session)
    requires
        t.wf(),
        t.settled(),
        s.inputs == t.inputs,
        s.outputs == t.outputs,
    ensures
        s.flushed() == s,
{
    reveal(Session::flushed);
    lemma_same_channels(t, s);
    lemma_flushed_settled(s, RELIABLE_CHANNEL_COUNT as nat);
}

/// An acknowledgement that arrives reaches the channel that it names: the output channel of
/// that number becomes what the acknowledgement of the sequence makes of it, of one packet
/// or of all up to it. No other channel is touched, nothing is sent and nothing handed on.
/// Where there is no such channel, and the remote receives no packet that has room for
/// anything, the acknowledgement is passed over.
#[verifier::rlimit(50)]
pub proof fn law_acknowledgement_received(
    p: Params,
    r: Session,
    ch: int,
    cumulative: bool,
    sequence: u16,
    now: nat,
)
    requires
        r.wf(),
        r.settled(),
        r.state !is Terminated,
        agree(p, r.params),
        0 <= ch < 4,
    ensures
        ({
            let datagram = p.frame(
                (if cumulative {
                    0x15 + ch
                } else {
                    0x11 + ch
                }) as u16,
                be_bytes(sequence as nat, 2),
            );
            let after = r.datagram_received(datagram, now);
            let o = output_met(r, ch);
            let room = r.params.remote_udp_length >= r.params.crc_length + (
            if r.params.is_compression_enabled {
                3int
            } else {
                2
            });
            &&& after.outputs == (if r.outputs[ch] is Some || room {
                r.outputs.update(
                    ch,
                    Some(
                        if cumulative {
                            o.acknowledged_all(sequence, now)
                        } else {
                            o.acknowledged(sequence, now)
                        },
                    ),
                )
            } else {
                r.outputs
            })
            &&& after == (Session {
                outputs: after.outputs,
                last_received: now,
                events: events_met(r),
                open_session_on_next_packet: false,
                ..r
            })
        }),
{
    reveal_with_fuel(Session::contextual_received, 1);
    reveal_with_fuel(Session::bundle_received, 1);
    let bytes = be_bytes(sequence as nat, 2);
    let op = if cumulative {
        OpCode::AcknowledgeAll
    } else {
        OpCode::Acknowledge
    };
    assert(bytes + Seq::<u8>::empty() =~= bytes);
    law_acknowledge_round_trip(Acknowledge { sequence }, Seq::empty());
    law_acknowledge_all_round_trip(AcknowledgeAll { sequence }, Seq::empty());
    law_frame_received(p, r, op, ch, bytes, now);
    let start = met(r, now);
    let t = start.contextual_received(op, ch, bytes, now);
    let o = output_met(r, ch);
    let acked = if cumulative {
        o.acknowledged_all(sequence, now)
    } else {
        o.acknowledged(sequence, now)
    };
    assert(start.output_at(ch) == o);
    assert(start.has_output(ch) ==> t == start.with_output(ch, acked));
    assert(r.channel_settled(ch));
    assert(acked.outgoing == o.outgoing);
    assert forall|k: int| 0 <= k < RELIABLE_CHANNEL_COUNT implies #[trigger] t.channel_settled(
        k,
    ) by {
        assert(r.channel_settled(k));
    }
    lemma_still(t, t);
}

/// What a channel sends at a tick of the session: the acknowledgements that it holds after
/// its own tick, and the packets that are due.
pub open spec fn ticked_on(s: Session, ch: int, now: nat) -> Seq<Seq<u8>> {
    ack_datagrams(
        s.params,
        ch,
        match s.inputs[ch] {
            Some(input) => input.ticked(now).outgoing,
            None => Seq::empty(),
        },
    ) + due_on(s.params, ch, s.outputs[ch], now)
}

/// A heartbeat, where one is due: from a client whose session is running and has received
/// nothing for longer than the interval, unless that is zero.
pub open spec fn beat(s: Session, now: nat) -> Seq<Seq<u8>> {
    if s.mode is Client && s.state is Running && s.params.heartbeat_after != 0 && now
        > s.last_received + s.params.heartbeat_after {
        seq![s.params.frame(0x06, Seq::empty())]
    } else {
        Seq::empty()
    }
}

proof fn lemma_channels_ticked_send(s: Session, ch: int, now: nat)
    requires
        s.wf(),
        0 <= ch < 4,
        in_step(s.outputs[ch]),
    ensures
        sent_on(s.channels_ticked(now), ch) == ticked_on(s, ch, now),
{
    let u = s.inputs_ticked(now, 4);
    lemma_outputs_ticked_send(u, ch, now);
    assert(s.channels_ticked(now) == u.outputs_ticked(now, 4));
    assert(u.outputs == s.outputs);
    match s.inputs[ch] {
        Some(input) => {
            assert(u.inputs[ch] == Some(input.ticked(now)));
        },
        None => {
            assert(u.inputs[ch] is None);
        },
    }
}

/// A tick of a session sends a heartbeat if one is due, and then of each channel, in turn,
/// the acknowledgements and the packets that are due. A session that has received nothing
/// for longer than is tolerated ends instead, as timed out, and sends what waits but tells
/// the remote nothing.
#[verifier::rlimit(50)]
pub proof fn law_session_tick(s: Session, now: nat)
    requires
        s.wf(),
        s.state !is Terminated,
        forall|k: int| 0 <= k < 4 ==> in_step(#[trigger] s.outputs[k]),
    ensures
        ({
            let after = s.ticked(now);
            let silent = s.params.inactivity_timeout != 0 && now > s.last_received
                + s.params.inactivity_timeout;
            &&& !silent ==> {
                &&& after.outgoing == s.outgoing + beat(s, now) + ticked_on(s, 0, now)
                    + ticked_on(s, 1, now) + ticked_on(s, 2, now) + ticked_on(s, 3, now)
                &&& after.received == s.received + handed_on(s, 0) + handed_on(s, 1) + handed_on(
                    s,
                    2,
                ) + handed_on(s, 3)
                &&& forall|k: int|
                    0 <= k < 4 ==> (#[trigger] after.outputs[k]) == (match s.outputs[k] {
                        Some(o) => Some(OutputState { outgoing: Seq::empty(), ..o.ticked(now) }),
                        None => None,
                    })
                &&& forall|k: int|
                    0 <= k < 4 ==> (#[trigger] after.inputs[k]) == (match s.inputs[k] {
                        Some(i) => Some(
                            InputState {
                                outgoing: Seq::empty(),
                                app_data: Seq::empty(),
                                ..i.ticked(now)
                            },
                        ),
                        None => None,
                    })
                &&& after == (Session {
                    inputs: after.inputs,
                    outputs: after.outputs,
                    outgoing: after.outgoing,
                    received: after.received,
                    ..s
                })
            }
            &&& silent ==> {
                &&& after.outgoing == s.outgoing + beat(s, now) + all_due_on(s, 0, now)
                    + all_due_on(s, 1, now) + all_due_on(s, 2, now) + all_due_on(s, 3, now)
                &&& after.state is Terminated
                &&& after.termination_reason is Timeout
                &&& !after.terminated_by_remote
                &&& after.events == s.events.push(
                    SessionEvent::Closed(DisconnectReason::Timeout),
                )
            }
        }),
{
    let start = s.heartbeat_sent(now);
    assert(start.outgoing =~= s.outgoing + beat(s, now));
    assert(in_step(s.outputs[0]) && in_step(s.outputs[1]) && in_step(s.outputs[2]) && in_step(
        s.outputs[3],
    ));
    if s.inactive(now) {
        law_termination_sends(start, DisconnectReason::Timeout, false, false, now);
        let all = start.outgoing + all_due_on(start, 0, now) + all_due_on(start, 1, now)
            + all_due_on(start, 2, now) + all_due_on(start, 3, now);
        assert(all + Seq::<Seq<u8>>::empty() =~= all);
    } else {
        let t = start.channels_ticked(now);
        lemma_channels_ticked_send(start, 0, now);
        lemma_channels_ticked_send(start, 1, now);
        lemma_channels_ticked_send(start, 2, now);
        lemma_channels_ticked_send(start, 3, now);
        law_flush(t);
        assert forall|k: int| 0 <= k < 4 implies #[trigger] handed_on(t, k) == handed_on(
            s,
            k,
        ) by {
            match s.inputs[k] {
                Some(input) => {
                    assert(t.inputs[k] == Some(input.ticked(now)));
                    assert(input.ticked(now).app_data == input.app_data);
                },
                None => {
                    assert(t.inputs[k] is None);
                },
            }
        }
        assert(handed_on(t, 0) == handed_on(s, 0));
        assert(handed_on(t, 1) == handed_on(s, 1));
        assert(handed_on(t, 2) == handed_on(s, 2));
        assert(handed_on(t, 3) == handed_on(s, 3));
    }
}

/// Enqueued data goes where it is sent. Data for a reliable channel is enqueued on that
/// channel and no other. Unreliable data is sent at once if, with a zero byte in front if it
/// begins with one and its check value behind, it is not longer than the remote can receive;
/// otherwise it is enqueued on the first reliable channel. A channel that does not exist, and
/// a session that is not running, accept nothing.
pub proof fn law_enqueue_effects(s: Session, data: Seq<u8>, channel: Channel)
    requires
        s.wf(),
        data.len() > 0,
    ensures
        ({
            let (after, accepted) = s.enqueued(data, channel);
            let length = data.len() + s.params.crc_length + (if data[0] == 0 {
                1int
            } else {
                0
            });
            let fits = length <= s.params.remote_udp_length;
            let goes_to = match channel {
                Channel::Unreliable => 0,
                Channel::Reliable(ch) => ch as int,
            };
            let reliably = channel is Reliable || !fits;
            if s.state !is Running || goes_to >= 4 {
                !accepted && after == s
            } else if reliably {
                &&& accepted
                &&& after.outputs[goes_to] == Some(output_met(s, goes_to).enqueued(data))
                &&& forall|k: int|
                    0 <= k < 4 && k != goes_to ==> (#[trigger] after.outputs[k])
                        == s.outputs[k]
                &&& after.outputs.len() == 4
                &&& after == (Session { outputs: after.outputs, ..s })
            } else {
                &&& accepted
                &&& after == (Session {
                    outgoing: s.outgoing.push(s.params.frame_unreliable(data)),
                    ..s
                })
            }
        }),
{
}

proof fn lemma_holds_nothing(s: Session, ch: int)
    requires
        s.channel_settled(ch),
    ensures
        sent_on(s, ch) == Seq::<Seq<u8>>::empty(),
        handed_on(s, ch) == Seq::<Received>::empty(),
{
    assert(sent_on(s, ch) =~= Seq::empty());
    assert(handed_on(s, ch) =~= Seq::empty());
}

/// Where the input channel of one number holds something and the others do not, that is
/// passed on and nothing else.
#[verifier::rlimit(50)]
proof fn lemma_one_channel(s: Session, ch: int, input: InputState)
    requires
        s.wf(),
        s.settled(),
        0 <= ch < 4,
    ensures
        s.with_input(ch, input).flushed() == (Session {
            inputs: s.inputs.update(
                ch,
                Some(InputState { outgoing: Seq::empty(), app_data: Seq::empty(), ..input }),
            ),
            outgoing: s.outgoing + ack_datagrams(s.params, ch, input.outgoing),
            received: s.received + Seq::new(
                input.app_data.len(),
                |i: int|
                    Received {
                        data: input.app_data[i],
                        channel: Channel::Reliable(ch as usize),
                    },
            ),
            ..s
        }),
{
    let held = s.with_input(ch, input);
    let after = held.flushed();
    law_flush(held);
    assert(s.channel_settled(0) && s.channel_settled(1) && s.channel_settled(2)
        && s.channel_settled(3));
    assert(sent_on(held, ch) =~= ack_datagrams(s.params, ch, input.outgoing));
    if ch != 0 {
        assert(held.channel_settled(0));
        lemma_holds_nothing(held, 0);
    }
    if ch != 1 {
        assert(held.channel_settled(1));
        lemma_holds_nothing(held, 1);
    }
    if ch != 2 {
        assert(held.channel_settled(2));
        lemma_holds_nothing(held, 2);
    }
    if ch != 3 {
        assert(held.channel_settled(3));
        lemma_holds_nothing(held, 3);
    }
    assert(after.outgoing =~= s.outgoing + sent_on(held, ch));
    assert(after.received =~= s.received + handed_on(held, ch));
    lemma_same_outputs(s, after);
    lemma_same_inputs(s, after, ch, input);
}

proof fn lemma_same_outputs(s: Session, after: Session)
    requires
        s.wf(),
        s.settled(),
        after.wf(),
        forall|k: int|
            0 <= k < 4 ==> (#[trigger] after.outputs[k]) == (match s.outputs[k] {
                Some(output) => Some(OutputState { outgoing: Seq::empty(), ..output }),
                None => None,
            }),
    ensures
        after.outputs == s.outputs,
{
    assert forall|k: int| 0 <= k < 4 implies #[trigger] after.outputs[k] == s.outputs[k] by {
        assert(s.channel_settled(k));
        if let Some(o) = s.outputs[k] {
            assert(o.outgoing =~= Seq::empty());
        }
    }
    assert(after.outputs =~= s.outputs);
}

proof fn lemma_same_inputs(s: Session, after: Session, ch: int, input: InputState)
    requires
        s.wf(),
        s.settled(),
        after.wf(),
        0 <= ch < 4,
        forall|k: int|
            0 <= k < 4 ==> (#[trigger] after.inputs[k]) == (match s.with_input(
                ch,
                input,
            ).inputs[k] {
                Some(i) => Some(
                    InputState { outgoing: Seq::empty(), app_data: Seq::empty(), ..i },
                ),
                None => None,
            }),
    ensures
        after.inputs == s.inputs.update(
            ch,
            Some(InputState { outgoing: Seq::empty(), app_data: Seq::empty(), ..input }),
        ),
{
    let wanted = s.inputs.update(
        ch,
        Some(InputState { outgoing: Seq::empty(), app_data: Seq::empty(), ..input }),
    );
    assert forall|k: int| 0 <= k < 4 implies #[trigger] after.inputs[k] == wanted[k] by {
        assert(s.channel_settled(k));
        if k != ch {
            if let Some(i) = s.inputs[k] {
                assert(i.outgoing =~= Seq::empty());
                assert(i.app_data =~= Seq::empty());
            }
        }
    }
    assert(after.inputs =~= wanted);
}

/// A reliable packet that arrives reaches the input channel of its number and no other. What
/// that channel then hands out is handed to the application, tagged with the channel, and
/// its acknowledgements are sent. A packet that the channel refuses ends the session as
/// corrupt, of which the remote is told if the session was running.
#[verifier::rlimit(50)]
pub proof fn law_reliable_packet_effects(
    p: Params,
    r: Session,
    ch: int,
    body: Seq<u8>,
    is_fragment: bool,
    now: nat,
)
    requires
        r.wf(),
        r.settled(),
        r.state !is Terminated,
        agree(p, r.params),
        0 <= ch < 4,
        body.len() >= 3,
    ensures
        ({
            let datagram = p.frame(
                (if is_fragment {
                    0x0D + ch
                } else {
                    0x09 + ch
                }) as u16,
                body,
            );
            let after = r.datagram_received(datagram, now);
            let (input, ok) = input_met(r, ch, now).received(body, is_fragment, now);
            &&& after.last_received == now
            &&& ok ==> after == (Session {
                received: r.received + Seq::new(
                    input.app_data.len(),
                    |i: int|
                        Received {
                            data: input.app_data[i],
                            channel: Channel::Reliable(ch as usize),
                        },
                ),
                outgoing: r.outgoing + ack_datagrams(r.params, ch, input.outgoing),
                inputs: r.inputs.update(
                    ch,
                    Some(
                        InputState { outgoing: Seq::empty(), app_data: Seq::empty(), ..input },
                    ),
                ),
                last_received: now,
                events: events_met(r),
                open_session_on_next_packet: false,
                ..r
            })
            &&& !ok ==> {
                &&& after.state is Terminated
                &&& after.termination_reason is CorruptPacket
                &&& !after.terminated_by_remote
                &&& after.events == events_met(r).push(
                    SessionEvent::Closed(DisconnectReason::CorruptPacket),
                )
                &&& r.state is Running ==> after.outgoing.last() == r.params.frame(
                    0x05,
                    be_bytes(r.session_id as nat, 4) + be_bytes(15, 2),
                )
            }
        }),
{
    reveal_with_fuel(Session::contextual_received, 1);
    reveal_with_fuel(Session::bundle_received, 1);
    let op = if is_fragment {
        OpCode::ReliableDataFragment
    } else {
        OpCode::ReliableData
    };
    law_frame_received(p, r, op, ch, body, now);
    let start = met(r, now);
    let (input, ok) = input_met(r, ch, now).received(body, is_fragment, now);
    assert(start.input_at(ch, now) == input_met(r, ch, now));
    if ok {
        lemma_same_channels(r, start);
        lemma_one_channel(start, ch, input);
    } else {
        lemma_refused(start.with_input(ch, input), now);
    }
}

proof fn lemma_refused(s: Session, now: nat)
    requires
        s.wf(),
        s.state !is Terminated,
    ensures
        ({
            let after = s.corrupted(now).flushed();
            &&& after.last_received == s.last_received
            &&& after.state is Terminated
            &&& after.termination_reason is CorruptPacket
            &&& !after.terminated_by_remote
            &&& after.events == s.events.push(
                SessionEvent::Closed(DisconnectReason::CorruptPacket),
            )
            &&& s.state is Running ==> after.outgoing.last() == s.params.frame(
                0x05,
                be_bytes(s.session_id as nat, 4) + be_bytes(15, 2),
            )
        }),
{
    law_terminate(s, DisconnectReason::CorruptPacket, true, false, now);
    lemma_disconnect_wire(
        Disconnect { session_id: s.session_id, reason: DisconnectReason::CorruptPacket },
    );
    let ended = s.corrupted(now);
    lemma_still(ended, ended);
    assert(ended.last_received == s.last_received) by {
        reveal(Session::terminated);
        law_flush(s.outputs_ticked(now, 4));
    }
}

/// A client takes no notice of a heartbeat but for the time, and a server answers it.
pub proof fn law_heartbeat_effects(p: Params, r: Session, now: nat)
    requires
        r.wf(),
        r.settled(),
        r.state !is Terminated,
        agree(p, r.params),
    ensures
        r.datagram_received(p.frame(0x06, Seq::empty()), now) == (Session {
            outgoing: if r.mode is Server {
                r.outgoing.push(r.params.frame(0x06, Seq::empty()))
            } else {
                r.outgoing
            },
            last_received: now,
            events: events_met(r),
            open_session_on_next_packet: false,
            ..r
        }),
{
    reveal_with_fuel(Session::contextual_received, 1);
    reveal_with_fuel(Session::bundle_received, 1);
    law_frame_received(p, r, OpCode::Heartbeat, 0, Seq::empty(), now);
    let t = met(r, now).contextual_received(OpCode::Heartbeat, 0, Seq::empty(), now);
    lemma_still(t, r);
}

/// A session that the remote ends is over, for the remote's reason, and the remote is not
/// told in turn.
#[verifier::rlimit(50)]
pub proof fn law_disconnect_received(
    p: Params,
    r: Session,
    session_id: u32,
    reason: DisconnectReason,
    now: nat,
)
    requires
        r.wf(),
        r.settled(),
        r.state !is Terminated,
        agree(p, r.params),
        forall|k: int| 0 <= k < 4 ==> in_step(#[trigger] r.outputs[k]),
    ensures
        ({
            let datagram = p.frame(
                0x05,
                be_bytes(session_id as nat, 4) + be_bytes(
                    disconnect_reason_value(reason) as nat,
                    2,
                ),
            );
            let after = r.datagram_received(datagram, now);
            &&& after.state is Terminated
            &&& after.termination_reason == reason
            &&& after.terminated_by_remote
            &&& after.events == events_met(r).push(SessionEvent::Closed(reason))
            &&& after.outgoing == r.outgoing + all_due_on(r, 0, now) + all_due_on(r, 1, now)
                + all_due_on(r, 2, now) + all_due_on(r, 3, now)
        }),
{
    reveal_with_fuel(Session::contextual_received, 1);
    reveal_with_fuel(Session::bundle_received, 1);
    let packet = Disconnect { session_id, reason };
    let bytes = concat(packet.wire());
    lemma_disconnect_wire(packet);
    law_disconnect_round_trip(packet, Seq::empty());
    assert(bytes + Seq::<u8>::empty() =~= bytes);
    law_frame_received(p, r, OpCode::Disconnect, 0, bytes, now);
    let start = met(r, now);
    assert(start.outputs == r.outputs);
    law_termination_sends(start, reason, false, true, now);
    law_terminate(start, reason, false, true, now);
    let ended = start.terminated(reason, false, true, now);
    lemma_still(ended, ended);
    let all = r.outgoing + all_due_on(start, 0, now) + all_due_on(start, 1, now) + all_due_on(
        start,
        2,
        now,
    ) + all_due_on(start, 3, now);
    assert(all + Seq::<Seq<u8>>::empty() =~= all);
}

/// Acknowledgements lead back to the packets that they are for. What the receiver of a
/// channel acknowledges as a whole at a tick, namely everything before the packet whose turn
/// it is, leaves the sender's queue of that same channel once the acknowledgement arrives,
/// and what has not been received stays queued; no other channel of the sender is touched.
#[verifier::rlimit(50)]
pub proof fn law_acknowledged_packets_leave(
    r: Session,
    s: Session,
    ch: int,
    input: InputState,
    o: OutputState,
    now: nat,
    later: nat,
)
    requires
        r.wf(),
        r.state is Running,
        r.params.inactivity_timeout == 0 || now <= r.last_received
            + r.params.inactivity_timeout,
        forall|k: int| 0 <= k < 4 ==> in_step(#[trigger] r.outputs[k]),
        0 <= ch < 4,
        r.inputs[ch] == Some(input),
        !input.acknowledge_all_data,
        -1 <= input.last_ack_all_sequence < input.window_start - 1,
        input.last_ack_all_sequence + 0x1_0000 < i64::MAX,
        input.window_start - 1 >= input.last_ack_all_sequence + input.ack_window as int / 2
            || now > input.last_ack_all_time + input.max_ack_delay,
        s.wf(),
        s.settled(),
        s.state is Running,
        agree(r.params, s.params),
        s.outputs[ch] == Some(o),
        o.is_ordered(),
        o.can_acknowledge(),
        o.window < 0x8000,
        0 <= o.max_client_sequence,
        o.max_client_sequence - o.window <= input.window_start - 1 <= o.max_client_sequence
            + o.window,
    ensures
        ({
            let datagram = r.params.frame(
                (0x15 + ch) as u16,
                be_bytes(((input.window_start - 1) % 0x1_0000) as nat, 2),
            );
            let after = s.datagram_received(datagram, later);
            let queue = after.outputs[ch]->Some_0.queue;
            let removed = o.queue.len() - queue.len();
            &&& r.ticked(now).outgoing.contains(datagram)
            &&& after.outputs[ch] is Some
            &&& 0 <= removed
            &&& queue == o.queue.skip(removed)
            &&& forall|i: int|
                0 <= i < o.queue.len() ==> ((#[trigger] o.queue[i]).sequence
                    < input.window_start <==> i < removed)
            &&& forall|k: int|
                0 <= k < 4 && k != ch ==> (#[trigger] after.outputs[k]) == s.outputs[k]
        }),
{
    let sequence = ((input.window_start - 1) % 0x1_0000) as u16;
    law_input_tick(input, now);
    law_session_tick(r, now);
    law_acknowledgement_received(r.params, s, ch, true, sequence, later);
    law_acknowledged_sequence(o, (input.window_start - 1) as i64);
    law_acknowledge_all(o, sequence, later);
    let datagram = r.params.frame(
        (0x15 + ch) as u16,
        be_bytes(((input.window_start - 1) % 0x1_0000) as nat, 2),
    );
    let after = s.datagram_received(datagram, later);
    assert(after.outputs[ch] == Some(o.acknowledged_all(sequence, later)));
    assert(o.acknowledged_sequence(sequence) == input.window_start - 1);
    let acks = input.ticked(now).outgoing;
    let frames = ack_datagrams(r.params, ch, acks);
    let x = frames.last();
    assert(acks.last().op_code is AcknowledgeAll && acks.last().sequence == sequence);
    assert(x == r.params.frame((0x15 + ch) as u16, be_bytes(sequence as nat, 2)));
    assert(frames[frames.len() - 1] == x);
    assert(frames.contains(x));
    lemma_still_within(frames, due_on(r.params, ch, r.outputs[ch], now), x);
    let d0 = ticked_on(r, 0, now);
    let d1 = ticked_on(r, 1, now);
    let d2 = ticked_on(r, 2, now);
    let d3 = ticked_on(r, 3, now);
    let front = r.outgoing + beat(r, now);
    if ch == 0 {
        lemma_still_within(d0, front, x);
    } else if ch == 1 {
        lemma_still_within(d1, front + d0, x);
    } else if ch == 2 {
        lemma_still_within(d2, front + d0 + d1, x);
    } else {
        lemma_still_within(d3, front + d0 + d1 + d2, x);
    }
    if ch <= 0 {
        lemma_still_within(front + d0, d1, x);
    }
    if ch <= 1 {
        lemma_still_within(front + d0 + d1, d2, x);
    }
    if ch <= 2 {
        lemma_still_within(front + d0 + d1 + d2, d3, x);
    }
}

/// Unreliable data that arrives at a running session is handed to the application as it was
/// sent, once and tagged as unreliable, and changes nothing else.
pub proof fn law_unreliable_effects(p: Params, r: Session, data: Seq<u8>, now: nat)
    requires
        r.wf(),
        r.settled(),
        r.state is Running,
        agree(p, r.params),
        data.len() > 0,
        data.len() + p.crc_length >= 2,
    ensures
        r.datagram_received(p.frame_unreliable(data), now) == (Session {
            received: r.received.push(Received { data, channel: Channel::Unreliable }),
            last_received: now,
            events: events_met(r),
            open_session_on_next_packet: false,
            ..r
        }),
{
    reveal(Session::unreliable_received);
    let front = if data[0] == 0 {
        seq![0u8] + data
    } else {
        data
    };
    let datagram = p.frame_unreliable(data);
    law_unreliable_layout(p, data);
    lemma_be_bytes_len(crc_of(p.crc_seed, front) as nat, p.crc_length as nat);
    assert(datagram[0] == front[0]);
    assert(front[0] == 0 ==> datagram[1] == 0);
    assert(op_code_in(datagram) is None);
    assert(datagram.take(front.len() as int) =~= front);
    assert(front[0] == 0 ==> front.skip(1) =~= data);
    lemma_still(r.unreliable_received(datagram, now).0, r);
}

/// Data that has been changed on its way does not arrive: an unreliable packet whose check
/// value is wrong changes nothing.
pub proof fn law_unreliable_damaged(r: Session, front: Seq<u8>, check: Seq<u8>, now: nat)
    requires
        r.wf(),
        r.settled(),
        r.state is Running,
        front.len() > 0,
        front[0] != 0,
        check.len() == r.params.crc_length,
        front.len() + check.len() >= 2,
        check != be_bytes(crc_of(r.params.crc_seed, front) as nat, r.params.crc_length as nat),
    ensures
        r.datagram_received(front + check, now) == r,
{
    reveal(Session::unreliable_received);
    let datagram = front + check;
    assert(datagram[0] == front[0]);
    assert(op_code_in(datagram) is None);
    assert(datagram.take(front.len() as int) =~= front);
    assert(datagram.skip(front.len() as int) =~= check);
    lemma_be_bytes_len(
        crc_of(r.params.crc_seed, front) as nat,
        r.params.crc_length as nat,
    );
    let checked = r.params.checked(front);
    if checked == datagram {
        assert(checked.skip(front.len() as int) =~= be_bytes(
            crc_of(r.params.crc_seed, front) as nat,
            r.params.crc_length as nat,
        ));
    }
    lemma_still(r, r);
}

/// Every tick of a live session sends the packets in the send window that have not been
/// handed out yet.
#[verifier::rlimit(50)]
pub proof fn law_tick_sends_what_waits(s: Session, ch: int, o: OutputState, i: int, now: nat)
    requires
        s.wf(),
        s.state !is Terminated,
        forall|k: int| 0 <= k < 4 ==> in_step(#[trigger] s.outputs[k]),
        0 <= ch < 4,
        s.outputs[ch] == Some(o),
        o.dispatch_index <= i < o.queue.len(),
        i < o.window,
    ensures
        s.ticked(now).outgoing.contains(datagram_of(s.params, ch, o.queue[i])),
{
    law_session_tick(s, now);
    assert(in_step(s.outputs[ch]));
    let x = datagram_of(s.params, ch, o.queue[i]);
    let from = due_from(o, now);
    let frames = queue_datagrams(s.params, ch, o.queue, from, due_to(o));
    assert(frames[i - from] == x);
    assert(frames.contains(x));
    lemma_still_within(frames, packet_datagrams(s.params, ch, o.outgoing), x);
    let due = due_on(s.params, ch, s.outputs[ch], now);
    let silent = s.params.inactivity_timeout != 0 && now > s.last_received
        + s.params.inactivity_timeout;
    let d = |k: int|
        if silent {
            all_due_on(s, k, now)
        } else {
            ticked_on(s, k, now)
        };
    let acks = ack_datagrams(
        s.params,
        ch,
        match s.inputs[ch] {
            Some(input) => if silent {
                input.outgoing
            } else {
                input.ticked(now).outgoing
            },
            None => Seq::empty(),
        },
    );
    lemma_still_within(due, acks, x);
    assert(d(ch) =~= acks + due);
    let front = s.outgoing + beat(s, now);
    lemma_among_four(front, d(0), d(1), d(2), d(3), x);
    assert(ch == 0 || ch == 1 || ch == 2 || ch == 3);
}

proof fn lemma_among_four(
    front: Seq<Seq<u8>>,
    a: Seq<Seq<u8>>,
    b: Seq<Seq<u8>>,
    c: Seq<Seq<u8>>,
    d: Seq<Seq<u8>>,
    x: Seq<u8>,
)
    requires
        a.contains(x) || b.contains(x) || c.contains(x) || d.contains(x),
    ensures
        (front + a + b + c + d).contains(x),
{
    if a.contains(x) {
        lemma_still_within(a, front, x);
        lemma_still_within(front + a, b, x);
        lemma_still_within(front + a + b, c, x);
        lemma_still_within(front + a + b + c, d, x);
    } else if b.contains(x) {
        lemma_still_within(b, front + a, x);
        lemma_still_within(front + a + b, c, x);
        lemma_still_within(front + a + b + c, d, x);
    } else if c.contains(x) {
        lemma_still_within(c, front + a + b, x);
        lemma_still_within(front + a + b + c, d, x);
    } else {
        lemma_still_within(d, front + a + b + c, x);
    }
}

/// That a session has ended as corrupt, has sent what waited, and has told the remote if it
/// was running.
pub open spec fn ended_as_corrupt(s: Session, after: Session, now: nat) -> bool {
    &&& after.state is Terminated
    &&& after.termination_reason is CorruptPacket
    &&& !after.terminated_by_remote
    &&& after.events == s.events.push(SessionEvent::Closed(DisconnectReason::CorruptPacket))
    &&& after.outgoing == s.outgoing + all_due_on(s, 0, now) + all_due_on(s, 1, now)
        + all_due_on(s, 2, now) + all_due_on(s, 3, now) + (if s.state is Running {
        seq![
            s.params.frame(0x05, be_bytes(s.session_id as nat, 4) + be_bytes(15, 2)),
        ]
    } else {
        Seq::empty()
    })
}

/// A datagram that is too short, or within a session has a wrong check value, ends the
/// session as corrupt, and so does one of an unknown kind unless the session is running; a
/// datagram cannot be shorter than a number.
#[verifier::rlimit(50)]
pub proof fn law_corrupt_datagram(s: Session, datagram: Seq<u8>, now: nat)
    requires
        s.wf(),
        s.state !is Terminated,
        forall|k: int| 0 <= k < 4 ==> in_step(#[trigger] s.outputs[k]),
        ({
            let verdict = validated(
                datagram,
                s.params.crc_seed,
                s.params.crc_length,
                s.params.is_compression_enabled,
            ).0;
            ||| verdict is TooShort
            ||| verdict is CrcMismatch
            ||| verdict is InvalidOpCode && s.state !is Running
            ||| verdict is InvalidOpCode && datagram.len() <= s.params.crc_length
        }),
    ensures
        ended_as_corrupt(s, s.datagram_received(datagram, now), now),
        datagram.len() < 2 ==> validated(
            datagram,
            s.params.crc_seed,
            s.params.crc_length,
            s.params.is_compression_enabled,
        ).0 is TooShort,
{
    reveal(Session::unreliable_received);
    law_termination_sends(s, DisconnectReason::CorruptPacket, true, false, now);
}

/// Within a session, a packet that says it is compressed and cannot be decompressed ends the
/// session as corrupt; one without the flag that it should have is passed over; and one
/// whose flag is zero is taken as it is.
pub proof fn law_compression_flag(s: Session, op: OpCode, ch: int, body: Seq<u8>, now: nat)
    requires
        s.params.is_compression_enabled,
    ensures
        body.len() == 0 ==> s.wrapped_received(op, ch, body, now) == s,
        body.len() > 0 && body[0] == 0 ==> s.wrapped_received(op, ch, body, now)
            == s.contextual_received(op, ch, body.skip(1), now),
        body.len() > 0 && body[0] != 0 ==> match decompressed(body.skip(1)) {
            Some(plain) => s.wrapped_received(op, ch, body, now) == s.contextual_received(
                op,
                ch,
                plain,
                now,
            ),
            None => s.wrapped_received(op, ch, body, now) == s.terminated(
                DisconnectReason::CorruptPacket,
                true,
                false,
                now,
            ),
        },
{
    reveal(Session::wrapped_received);
}

/// A bundle that holds something malformed ends the session as corrupt when that is reached:
/// a packet without an OP code, of an unknown kind, or longer than what is left.
pub proof fn law_malformed_bundle(s: Session, length: u32, rest: Seq<u8>, now: nat)
    requires
        length == 0xFF ==> rest.len() > 0 && rest[0] == 0,
        length < 2 || length > rest.len() || op_code_in(rest.take(length as int)) is None,
    ensures
        s.bundle_received(multi_packet::encoded(length) + rest, now) == s.terminated(
            DisconnectReason::CorruptPacket,
            true,
            false,
            now,
        ),
{
    reveal_with_fuel(Session::contextual_received, 1);
    reveal_with_fuel(Session::bundle_received, 1);
    let head = multi_packet::encoded(length);
    let all = head + rest;
    multi_packet::law_round_trip(length, rest);
    multi_packet::law_layout(length);
    assert(head.len() > 0);
    if length <= rest.len() {
        assert(all.subrange(head.len() as int, head.len() + length) =~= rest.take(
            length as int,
        ));
    }
}

/// Packets that a session has no use for are passed over: of the kinds that only matter
/// outside of a session nothing is taken but the time.
pub proof fn law_passed_over(r: Session, datagram: Seq<u8>, now: nat)
    requires
        r.wf(),
        r.settled(),
        r.state !is Terminated,
        datagram.len() >= 10 + r.params.crc_length,
        datagram[0] == 0,
        datagram[1] == 7 || datagram[1] == 8 || datagram[1] == 0x1E,
    ensures
        r.datagram_received(datagram, now) == (Session {
            last_received: now,
            events: events_met(r),
            open_session_on_next_packet: false,
            ..r
        }),
{
    reveal(Session::packet_received);
    reveal(Session::contextless_received);
    let t = met(r, now);
    lemma_still(t, r);
}

/// The next state of the generator that a session draws numbers from, a linear congruential
/// one modulo 2^64.
pub open spec fn stepped(state: u64) -> int {
    ((state * 6_364_136_223_846_793_005) % 0x1_0000_0000_0000_0000 + 1_442_695_040_888_963_407)
        % 0x1_0000_0000_0000_0000
}

/// The number that is drawn from the generator in the given state: the upper half of its
/// next state.
pub open spec fn drawn(state: u64) -> int {
    stepped(state) / 0x1_0000_0000
}

/// The numbers that a session draws come from its generator, each from the state that the
/// one before has left.
pub proof fn law_generator(state: u64)
    ensures
        rng_next(state) as int == stepped(state),
        rng_value(rng_next(state)) as int == drawn(state),
{
    let next = rng_next(state);
    assert((next >> 32) as u32 == next / 0x1_0000_0000) by (bit_vector);
}

/// What a session is made with unless it is told otherwise: packets of 512 bytes with check
/// values of two, no compression, 256 packets kept ahead of their turn and 196 in flight, an
/// acknowledgement window of 32 and a delay of two milliseconds, a heartbeat after 25
/// seconds and an end after 30.
pub proof fn law_defaults()
    ensures
        default_params() == (Params {
            application_protocol: Seq::empty(),
            udp_length: 512,
            remote_udp_length: 512,
            crc_seed: 0,
            crc_length: 2,
            is_compression_enabled: false,
            max_queued_incoming_reliable: 256,
            max_queued_outgoing_reliable: 196,
            data_ack_window: 32,
            heartbeat_after: 25 * 1_000_000_000,
            inactivity_timeout: 30 * 1_000_000_000,
            acknowledge_all_data: false,
            max_ack_delay: 2 * 1_000_000,
        }),
{
}

/// What a session's parameters and the data that it hands out say is what they hold.
pub proof fn law_values_say(
    params: SessionParameters,
    received: ReceivedData,
    list: Seq<ReceivedData>,
    i: int,
)
    ensures
        received_each(list).len() == list.len(),
        0 <= i < list.len() ==> received_each(list)[i] == list[i]@,
        params@ == (Params {
            application_protocol: params.application_protocol@,
            udp_length: params.udp_length,
            remote_udp_length: params.remote_udp_length,
            crc_seed: params.crc_seed,
            crc_length: params.crc_length,
            is_compression_enabled: params.is_compression_enabled,
            max_queued_incoming_reliable: params.max_queued_incoming_reliable,
            max_queued_outgoing_reliable: params.max_queued_outgoing_reliable,
            data_ack_window: params.data_ack_window,
            heartbeat_after: params.heartbeat_after@,
            inactivity_timeout: params.inactivity_timeout@,
            acknowledge_all_data: params.acknowledge_all_data,
            max_ack_delay: params.max_ack_delay@,
        }),
        received@.data == held(received.data),
        received@.channel == received.channel,
{
}

/// A new session has everything before it: nothing sent, received or used, no ID and no
/// reason to have ended, and a generator that begins from its seed.
pub proof fn law_new_session(
    mode: SessionMode,
    params: Params,
    cipher: Option<Rc4State>,
    seed: u64,
    now: nat,
)
    ensures
        new_session(mode, params, cipher, seed, now) == (Session {
            mode,
            state: SessionState::Negotiating,
            params,
            inputs: seq![None, None, None, None],
            outputs: seq![None, None, None, None],
            cipher,
            session_id: 0,
            termination_reason: DisconnectReason::NoReason,
            terminated_by_remote: false,
            open_session_on_next_packet: false,
            last_received: now,
            rng: seed ^ 0x9E37_79B9_7F4A_7C15,
            outgoing: Seq::empty(),
            received: Seq::empty(),
            events: Seq::empty(),
        }),
{
    let s = new_session(mode, params, cipher, seed, now);
    assert(s.inputs =~= seq![None, None, None, None]);
    assert(s.outputs =~= seq![None, None, None, None]);
}

/// No data at all is accepted by a running session, on a channel that exists, and sends
/// nothing.
pub proof fn law_nothing_enqueued(s: Session, ch: usize)
    requires
        s.wf(),
        s.state is Running,
        ch < 4,
    ensures
        s.enqueued(Seq::empty(), Channel::Unreliable) == (s, true),
        s.enqueued(Seq::empty(), Channel::Reliable(ch)).1,
        s.enqueued(Seq::empty(), Channel::Reliable(ch)).0 == (Session {
            outputs: s.outputs.update(ch as int, Some(output_met(s, ch as int))),
            ..s
        }),
{
}

/// At a running session, a datagram that begins with a single zero byte and is of no known
/// kind is not unreliable data, even with a right check value: it ends the session as
/// corrupt.
#[verifier::rlimit(50)]
pub proof fn law_zero_must_be_doubled(s: Session, front: Seq<u8>, now: nat)
    requires
        s.wf(),
        s.state is Running,
        forall|k: int| 0 <= k < 4 ==> in_step(#[trigger] s.outputs[k]),
        front.len() >= 2,
        front[0] == 0,
        front[1] != 0,
        op_code_in(front) is None,
    ensures
        ({
            let check = be_bytes(
                crc_of(s.params.crc_seed, front) as nat,
                s.params.crc_length as nat,
            );
            ended_as_corrupt(s, s.datagram_received(front + check, now), now)
        }),
{
    reveal(Session::unreliable_received);
    let check = be_bytes(crc_of(s.params.crc_seed, front) as nat, s.params.crc_length as nat);
    lemma_be_bytes_len(
        crc_of(s.params.crc_seed, front) as nat,
        s.params.crc_length as nat,
    );
    let datagram = front + check;
    assert(datagram[0] == front[0] && datagram[1] == front[1]);
    assert(datagram.take(front.len() as int) =~= front);
    law_termination_sends(s, DisconnectReason::CorruptPacket, true, false, now);
}

/// When data can be enqueued: data for a reliable channel, or that is too long for an
/// unreliable packet, if there is such a channel or the remote receives packets that have
/// room for one, and its packets can carry the data; an unreliable packet if it can be
/// framed. Data that is not accepted anyway can always be enqueued.
pub proof fn law_when_enqueueable(s: Session, data: Seq<u8>, channel: Channel)
    requires
        s.wf(),
        data.len() > 0,
    ensures
        ({
            let fits = data.len() + s.params.crc_length + (if data[0] == 0 {
                1int
            } else {
                0
            }) <= s.params.remote_udp_length;
            let goes_to = match channel {
                Channel::Unreliable => 0,
                Channel::Reliable(ch) => ch as int,
            };
            let room = s.params.remote_udp_length >= s.params.crc_length + (
            if s.params.is_compression_enabled {
                3int
            } else {
                2
            });
            s.can_enqueue(data, channel) <==> if s.state !is Running || goes_to >= 4 {
                true
            } else if channel is Reliable || !fits {
                &&& s.outputs[goes_to] is Some || room
                &&& output_met(s, goes_to).can_enqueue(data)
            } else {
                s.params.crc_length <= 4
            }
        }),
{
}

} // verus!
