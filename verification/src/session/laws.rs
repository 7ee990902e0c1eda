//! What holds of sessions as a whole, and of two sessions that talk to each other.

use vstd::prelude::*;

use crate::channel::delivery_laws::{
    deliverable_all, enqueued_all, follows, law_packets_carry, law_received_preceded,
    law_reliable_delivery, packet_bound, preceded, travelling_each,
};
use crate::channel::input::InputState;
use crate::channel::output::{handed_out, OutputState, QueuedPacket};
use crate::channel::output_laws::law_packets_fit;
use crate::channel::SEQUENCE_BLOCK;
use crate::constants::{CRC_LENGTH, OP_CODE_SIZE, RELIABLE_CHANNEL_COUNT, SOE_PROTOCOL_VERSION};
use crate::crc32::crc_of;
use crate::packet_utils::{
    channel_of, is_channel_kind, law_channel_round_trip, law_crc_validates,
    lemma_raw_op_code, minimum_length, multi, op_code_in, padding, raw_op_code, validated,
    ValidationResult,
};
use crate::packets::{
    law_disconnect_round_trip, law_session_request_round_trip,
    law_session_response_round_trip, lemma_disconnect_wire, lemma_session_request_wire,
    lemma_session_response_wire, Disconnect, SessionRequestFields, SessionResponse,
};
use crate::protocol::{contextless, op_code_value, DisconnectReason, OpCode};
use crate::session::model::{
    bundle_entry, channel_op, escaped, lemma_flushed, lemma_flushed_settled, rng_next,
    rng_value, BundleEntry, Params, Received, Session,
};
use crate::session::{Channel, SessionEvent};
use crate::varint::multi_packet;
use crate::wire::{be_bytes, concat, lemma_be_bytes_len, lemma_be_two};
use crate::zlib::decompressed;

verus! {

/// A terminated session is inert: datagrams, ticks and another termination leave it as it
/// is, and no data is accepted.
pub proof fn law_terminated_is_inert(
    s: Session,
    datagram: Seq<u8>,
    data: Seq<u8>,
    channel: Channel,
    reason: DisconnectReason,
    notify_remote: bool,
    now: nat,
)
    requires
        s.state is Terminated,
    ensures
        s.datagram_received(datagram, now) == s,
        s.ticked(now) == s,
        s.terminated(reason, notify_remote, false, now) == s,
        s.requested() == s,
        s.enqueued(data, channel) == (s, false),
{
    reveal(Session::terminated);
}

/// That a session that reports its end has ended, and reports nothing behind it.
pub open spec fn ends_when_closed(s: Session) -> bool {
    forall|k: int|
        0 <= k < s.events.len() && #[trigger] s.events[k] is Closed ==> s.state is Terminated
            && k == s.events.len() - 1
}

proof fn lemma_flushing_reports_nothing(s: Session, n: nat)
    ensures
        s.flushed_up_to(n).events == s.events,
        s.flushed_up_to(n).state == s.state,
    decreases n,
{
    if n > 0 {
        lemma_flushing_reports_nothing(s, (n - 1) as nat);
    }
}

proof fn lemma_terminated_ends(
    s: Session,
    reason: DisconnectReason,
    notify_remote: bool,
    by_remote: bool,
    now: nat,
)
    requires
        ends_when_closed(s),
    ensures
        ends_when_closed(s.terminated(reason, notify_remote, by_remote, now)),
{
    reveal(Session::terminated);
    reveal(Session::flushed);
    let after = s.terminated(reason, notify_remote, by_remote, now);
    lemma_flushing_reports_nothing(
        s.outputs_ticked(now, RELIABLE_CHANNEL_COUNT as nat),
        RELIABLE_CHANNEL_COUNT as nat,
    );
    if s.state !is Terminated {
        assert(after.events == s.events.push(SessionEvent::Closed(reason)));
        assert forall|k: int|
            0 <= k < after.events.len() && #[trigger] after.events[k] is Closed implies k
            == after.events.len() - 1 by {
            if k < s.events.len() {
                assert(s.events[k] is Closed);
            }
        }
    }
}

proof fn lemma_contextual_ends(s: Session, op: OpCode, ch: int, body: Seq<u8>, now: nat)
    requires
        ends_when_closed(s),
    ensures
        ends_when_closed(s.contextual_received(op, ch, body, now)),
    decreases body.len(), 1int,
{
    reveal_with_fuel(Session::contextual_received, 1);
    reveal_with_fuel(Session::bundle_received, 1);
    match op {
        OpCode::MultiPacket => {
            lemma_bundle_ends(s, body, now);
        },
        OpCode::Disconnect => {
            if let Ok(disconnect) = Disconnect::parsed(body) {
                lemma_terminated_ends(s, disconnect.reason, false, true, now);
            }
        },
        OpCode::ReliableData | OpCode::ReliableDataFragment => {
            let (input, _) = s.input_at(ch, now).received(
                body,
                op is ReliableDataFragment,
                now,
            );
            lemma_terminated_ends(
                s.with_input(ch, input),
                DisconnectReason::CorruptPacket,
                true,
                false,
                now,
            );
        },
        _ => {},
    }
}

proof fn lemma_bundle_ends(s: Session, rest: Seq<u8>, now: nat)
    requires
        ends_when_closed(s),
    ensures
        ends_when_closed(s.bundle_received(rest, now)),
    decreases rest.len(), 0int,
{
    reveal_with_fuel(Session::contextual_received, 1);
    reveal_with_fuel(Session::bundle_received, 1);
    if rest.len() > 0 {
        match bundle_entry(rest) {
            None => {
                lemma_terminated_ends(s, DisconnectReason::CorruptPacket, true, false, now);
            },
            Some(entry) => {
                lemma_contextual_ends(s, entry.op, entry.channel, entry.body, now);
                let after = s.contextual_received(entry.op, entry.channel, entry.body, now);
                if after.state !is Terminated {
                    lemma_bundle_ends(after, rest.skip(entry.size), now);
                }
            },
        }
    }
}

proof fn lemma_contextless_ends(s: Session, op: OpCode, body: Seq<u8>, now: nat)
    requires
        ends_when_closed(s),
        s.state !is Terminated,
    ensures
        ends_when_closed(s.contextless_received(op, body, now)),
{
    reveal(Session::contextless_received);
    lemma_terminated_ends(s, DisconnectReason::UnreachableConnection, false, false, now);
    lemma_terminated_ends(s, DisconnectReason::ConnectingToSelf, false, false, now);
    lemma_terminated_ends(s, DisconnectReason::CorruptPacket, true, false, now);
    lemma_terminated_ends(s, DisconnectReason::ConnectError, true, false, now);
    lemma_terminated_ends(s, DisconnectReason::ProtocolMismatch, true, false, now);
    match op {
        OpCode::SessionRequest => {
            reveal(Session::request_received);
            if let Ok(request) = SessionRequestFields::parsed(body, false) {
                let known = Session {
                    params: Params { remote_udp_length: request.udp_length, ..s.params },
                    session_id: request.session_id,
                    ..s
                };
                assert(ends_when_closed(known));
                lemma_terminated_ends(known, DisconnectReason::ConnectError, true, false, now);
                lemma_terminated_ends(
                    known,
                    DisconnectReason::ProtocolMismatch,
                    true,
                    false,
                    now,
                );
                assert(known.accepted().events == s.events);
                assert(ends_when_closed(known.accepted())) by {
                    assert forall|k: int| 0 <= k < s.events.len() implies !(
                    #[trigger] known.accepted().events[k] is Closed) by {
                        assert(!(s.events[k] is Closed));
                    }
                }
            }
        },
        OpCode::SessionResponse => {
            reveal(Session::response_received);
            let after = s.response_received(body, now);
            if after.events == s.events.push(SessionEvent::Opened) {
                assert forall|k: int| 0 <= k < after.events.len() implies !(
                #[trigger] after.events[k] is Closed) by {
                    if k < s.events.len() {
                        assert(!(s.events[k] is Closed));
                    }
                }
            }
        },
        _ => {},
    }
}

proof fn lemma_packet_ends(s: Session, op: OpCode, datagram: Seq<u8>, now: nat)
    requires
        ends_when_closed(s),
        s.state !is Terminated,
    ensures
        ends_when_closed(s.packet_received(op, datagram, now)),
{
    reveal(Session::packet_received);
    reveal(Session::wrapped_received);
    let start = Session { last_received: now, ..s.opened() };
    assert(ends_when_closed(start)) by {
        assert forall|k: int| 0 <= k < start.events.len() implies !(#[trigger] start.events[k]
            is Closed) by {
            if k < s.events.len() {
                assert(!(s.events[k] is Closed));
            }
        }
    }
    if contextless(op) {
        lemma_contextless_ends(start, op, datagram.skip(2), now);
    } else {
        let ch = channel_of(raw_op_code(datagram));
        let body = datagram.subrange(2, datagram.len() - s.params.crc_length);
        lemma_contextual_ends(start, op, ch, body, now);
        lemma_contextual_ends(start, op, ch, body.skip(1), now);
        if let Some(plain) = decompressed(body.skip(1)) {
            lemma_contextual_ends(start, op, ch, plain, now);
        }
        lemma_terminated_ends(start, DisconnectReason::CorruptPacket, true, false, now);
    }
}

/// A session reports its end only when it has ended, and nothing behind it: as long as a
/// session lives, whatever it receives and whatever is done to it, no closing event waits
/// to be drained.
pub proof fn law_closing_is_the_end(
    s: Session,
    datagram: Seq<u8>,
    data: Seq<u8>,
    channel: Channel,
    reason: DisconnectReason,
    notify_remote: bool,
    now: nat,
)
    requires
        ends_when_closed(s),
    ensures
        ends_when_closed(s.datagram_received(datagram, now)),
        ends_when_closed(s.ticked(now)),
        ends_when_closed(s.terminated(reason, notify_remote, false, now)),
        ends_when_closed(s.requested()),
        ends_when_closed(s.enqueued(data, channel).0),
{
    reveal(Session::flushed);
    reveal(Session::unreliable_received);
    lemma_terminated_ends(s, reason, notify_remote, false, now);
    lemma_terminated_ends(s, DisconnectReason::CorruptPacket, true, false, now);
    lemma_terminated_ends(s.heartbeat_sent(now), DisconnectReason::Timeout, false, false, now);
    lemma_flushing_reports_nothing(
        s.heartbeat_sent(now).channels_ticked(now),
        RELIABLE_CHANNEL_COUNT as nat,
    );
    let (after, _) = s.unreliable_received(datagram, now);
    assert(ends_when_closed(after)) by {
        if s.state is Running {
            assert forall|k: int| 0 <= k < after.events.len() implies !(
            #[trigger] after.events[k] is Closed) by {
                if k < s.events.len() {
                    assert(!(s.events[k] is Closed));
                }
            }
        }
    }
    lemma_flushing_reports_nothing(after, RELIABLE_CHANNEL_COUNT as nat);
    if s.state !is Terminated && op_code_in(datagram) is Some {
        let op = op_code_in(datagram)->Some_0;
        lemma_packet_ends(s, op, datagram, now);
        lemma_flushing_reports_nothing(
            s.packet_received(op, datagram, now),
            RELIABLE_CHANNEL_COUNT as nat,
        );
    }
}

/// Data is accepted exactly if the session is running and the channel exists, and data
/// that is not accepted changes nothing.
pub proof fn law_enqueue_accepts(s: Session, data: Seq<u8>, channel: Channel)
    ensures
        s.enqueued(data, channel).1 <==> s.state is Running && (channel matches Channel::Reliable(
            ch,
        ) ==> ch < RELIABLE_CHANNEL_COUNT),
        !s.enqueued(data, channel).1 ==> s.enqueued(data, channel).0 == s,
{
}

/// Unreliable data that is too large for a packet is not lost: it travels as if it had been
/// enqueued on the first reliable channel.
pub proof fn law_oversized_is_promoted(s: Session, data: Seq<u8>)
    requires
        data.len() > 0,
        !s.fits_unreliable(data),
    ensures
        s.enqueued(data, Channel::Unreliable) == s.enqueued(data, Channel::Reliable(0)),
{
}

/// A contextual packet is as long as its payload and what stands around it.
proof fn lemma_frame_len(p: Params, raw_op: u16, payload: Seq<u8>)
    ensures
        p.frame(raw_op, payload).len() == payload.len() + padding(
            p.is_compression_enabled,
            p.crc_length,
        ),
{
    let front = p.unchecked_frame(raw_op, payload);
    lemma_be_bytes_len(raw_op as nat, 2);
    lemma_be_bytes_len(crc_of(p.crc_seed, front) as nat, p.crc_length as nat);
}

/// Data travels in datagrams that the remote can receive. A reliable channel that the
/// session makes has packets of the length that this allows, and, as long as it keeps that
/// length, every packet that enqueueing puts into its queue and every packet that it hands
/// out makes a datagram that is not longer than the remote's UDP length; nor is an
/// unreliable packet, unless the data goes to a reliable channel instead.
pub proof fn law_datagrams_fit_the_remote(s: Session, ch: int, o: OutputState, data: Seq<u8>)
    requires
        s.params.has_room(),
        o.max_data_length == s.max_data_length(),
        o.packets_fit(),
        0 <= o.dispatch_index,
        o.can_enqueue(data),
    ensures
        s.outputs[ch] is None ==> {
            &&& s.output_at(ch).max_data_length == s.max_data_length()
            &&& s.output_at(ch).packets_fit()
            &&& s.output_at(ch).dispatch_index == 0
        },
        forall|k: int|
            0 <= k < o.enqueued(data).queue.len() ==> s.packet_frame(
                ch,
                handed_out(#[trigger] o.enqueued(data).queue[k]),
            ).len() <= s.params.remote_udp_length,
        forall|k: int|
            0 <= k < o.outgoing.len() ==> s.packet_frame(ch, #[trigger] o.outgoing[k]).len()
                <= s.params.remote_udp_length,
        data.len() > 0 && s.fits_unreliable(data) ==> s.params.frame_unreliable(data).len()
            <= s.params.remote_udp_length,
{
    law_packets_fit(o, data, 0, 0);
    assert forall|k: int| 0 <= k < o.enqueued(data).queue.len() implies s.packet_frame(
        ch,
        handed_out(#[trigger] o.enqueued(data).queue[k]),
    ).len() <= s.params.remote_udp_length by {
        let packet = handed_out(o.enqueued(data).queue[k]);
        lemma_frame_len(s.params, channel_op(packet.op_code, ch), packet.payload);
    }
    assert forall|k: int| 0 <= k < o.outgoing.len() implies s.packet_frame(
        ch,
        #[trigger] o.outgoing[k],
    ).len() <= s.params.remote_udp_length by {
        let packet = o.outgoing[k];
        lemma_frame_len(s.params, channel_op(packet.op_code, ch), packet.payload);
    }
    lemma_be_bytes_len(
        crc_of(s.params.crc_seed, escaped(data)) as nat,
        s.params.crc_length as nat,
    );
}

/// Reliable channels do not disturb each other: sending or receiving on one leaves the
/// other channels, with their sequences and ciphers, as they are.
pub proof fn law_channels_are_independent(
    s: Session,
    ch: usize,
    other: int,
    data: Seq<u8>,
    body: Seq<u8>,
    is_fragment: bool,
    now: nat,
)
    requires
        s.wf(),
        ch < RELIABLE_CHANNEL_COUNT,
        0 <= other < RELIABLE_CHANNEL_COUNT,
        other != ch,
    ensures
        ({
            let sent = s.enqueued(data, Channel::Reliable(ch)).0;
            &&& sent.outputs[other] == s.outputs[other]
            &&& sent.inputs == s.inputs
        }),
        s.input_at(ch as int, now).received(body, is_fragment, now).1 ==> {
            let got = s.data_received(ch as int, body, is_fragment, now);
            &&& got.inputs[other] == s.inputs[other]
            &&& got.outputs == s.outputs
        },
{
}

/// Corrupt datagrams do not keep a session alive: neither one that is no valid packet nor
/// an unreliable packet with a wrong check value counts as a sign of life.
pub proof fn law_corruption_is_no_sign_of_life(s: Session, datagram: Seq<u8>, now: nat)
    requires
        s.wf(),
        ({
            let verdict = validated(
                datagram,
                s.params.crc_seed,
                s.params.crc_length,
                s.params.is_compression_enabled,
            ).0;
            let front = datagram.take(datagram.len() - s.params.crc_length);
            &&& verdict !is Valid
            &&& verdict is InvalidOpCode ==> s.params.checked(front) != datagram
        }),
    ensures
        s.datagram_received(datagram, now).last_received == s.last_received,
{
    reveal(Session::terminated);
    reveal(Session::flushed);
    reveal(Session::unreliable_received);
    lemma_flushed(s, RELIABLE_CHANNEL_COUNT as nat);
    lemma_flushed(
        s.outputs_ticked(now, RELIABLE_CHANNEL_COUNT as nat),
        RELIABLE_CHANNEL_COUNT as nat,
    );
}

/// A session from which nothing has been received for longer than is tolerated ends with
/// the next tick, and one that has not been silent for so long survives it.
pub proof fn law_silence_ends_the_session(s: Session, now: nat)
    requires
        s.wf(),
        s.state !is Terminated,
    ensures
        ({
            let after = s.ticked(now);
            if s.inactive(now) {
                &&& after.state is Terminated
                &&& after.termination_reason == DisconnectReason::Timeout
                &&& !after.terminated_by_remote
            } else {
                after.state == s.state && after.events == s.events
            }
        }),
{
    reveal(Session::terminated);
    reveal(Session::flushed);
    lemma_flushed(
        s.heartbeat_sent(now).channels_ticked(now),
        RELIABLE_CHANNEL_COUNT as nat,
    );
}

/// Terminating a session terminates it, for the reason given, and raises one event that
/// says so.
pub proof fn law_terminate(
    s: Session,
    reason: DisconnectReason,
    notify_remote: bool,
    by_remote: bool,
    now: nat,
)
    requires
        s.wf(),
        s.state !is Terminated,
    ensures
        ({
            let after = s.terminated(reason, notify_remote, by_remote, now);
            &&& after.state is Terminated
            &&& after.termination_reason == reason
            &&& after.terminated_by_remote == by_remote
            &&& after.events == s.events.push(SessionEvent::Closed(reason))
            &&& after.params == s.params
            &&& after.wf()
            &&& after.settled()
            &&& notify_remote && s.state is Running ==> after.outgoing.len() > 0
                && after.outgoing.last() == s.disconnect_frame(reason)
        }),
{
    reveal(Session::terminated);
    reveal(Session::flushed);
    let ticked = s.outputs_ticked(now, RELIABLE_CHANNEL_COUNT as nat);
    lemma_flushed(ticked, RELIABLE_CHANNEL_COUNT as nat);
    let flushed = ticked.flushed();
    let after = s.terminated(reason, notify_remote, by_remote, now);
    assert forall|ch: int| 0 <= ch < RELIABLE_CHANNEL_COUNT implies #[trigger]
    after.channel_settled(ch) by {
        assert(flushed.channel_settled(ch));
    }
}

/// Corruption ends a session: a datagram that is too short for its kind or whose check
/// value is wrong terminates it as corrupt.
pub proof fn law_corruption_terminates(s: Session, datagram: Seq<u8>, now: nat)
    requires
        s.wf(),
        s.state !is Terminated,
        ({
            let verdict = validated(
                datagram,
                s.params.crc_seed,
                s.params.crc_length,
                s.params.is_compression_enabled,
            ).0;
            verdict is TooShort || verdict is CrcMismatch
        }),
    ensures
        s.datagram_received(datagram, now).state is Terminated,
        s.datagram_received(datagram, now).termination_reason is CorruptPacket,
        !s.datagram_received(datagram, now).terminated_by_remote,
{
    law_terminate(s, DisconnectReason::CorruptPacket, true, false, now);
}

/// That two sessions have agreed on how packets are framed.
pub open spec fn agree(a: Params, b: Params) -> bool {
    &&& a.crc_seed == b.crc_seed
    &&& a.crc_length == b.crc_length
    &&& a.is_compression_enabled == b.is_compression_enabled
}

/// The session that a valid packet meets: opened, if it was about to be, and with the time
/// noted.
pub open spec fn met(s: Session, now: nat) -> Session {
    Session { last_received: now, ..s.opened() }
}

/// A contextual packet that one party frames is received by the other as what it is: its
/// kind, its channel and its payload.
pub proof fn law_frame_received(
    p: Params,
    r: Session,
    op: OpCode,
    ch: int,
    payload: Seq<u8>,
    now: nat,
)
    requires
        agree(p, r.params),
        r.state !is Terminated,
        !contextless(op),
        0 <= ch < RELIABLE_CHANNEL_COUNT,
        is_channel_kind(op) || ch == 0,
        padding(p.is_compression_enabled, p.crc_length) + payload.len() >= minimum_length(
            op,
            p.is_compression_enabled,
            p.crc_length,
        ),
    ensures
        r.datagram_received(p.frame(channel_op(op, ch), payload), now) == met(
            r,
            now,
        ).contextual_received(op, ch, payload, now).flushed(),
{
    reveal(Session::packet_received);
    reveal(Session::wrapped_received);
    let raw = channel_op(op, ch);
    let front = p.unchecked_frame(raw, payload);
    let datagram = p.frame(raw, payload);
    let flag = if p.is_compression_enabled {
        seq![0u8]
    } else {
        Seq::empty()
    };
    law_channel_round_trip(op, ch);
    lemma_raw_op_code(raw, flag + payload);
    assert(front =~= be_bytes(raw as nat, 2) + (flag + payload));
    assert(op_code_in(front) == Some(op));
    law_crc_validates(front, op, p.crc_seed, p.crc_length, p.is_compression_enabled);
    lemma_be_bytes_len(crc_of(p.crc_seed, front) as nat, p.crc_length as nat);
    let body = datagram.subrange(2, datagram.len() - p.crc_length);
    assert(body =~= flag + payload);
    assert(datagram[0] == front[0] && datagram[1] == front[1]);
    if p.is_compression_enabled {
        assert(body.skip(1) =~= payload);
    } else {
        assert(body =~= payload);
    }
}

/// A reliable packet that one party sends reaches the same channel of the other.
pub proof fn law_reliable_packet_received(
    s: Session,
    r: Session,
    ch: int,
    packet: QueuedPacket,
    now: nat,
)
    requires
        agree(s.params, r.params),
        r.state !is Terminated,
        0 <= ch < RELIABLE_CHANNEL_COUNT,
        packet.data.len() >= 3,
    ensures
        r.datagram_received(s.packet_frame(ch, handed_out(packet)), now) == met(
            r,
            now,
        ).data_received(ch, packet.data, packet.is_fragment, now).flushed(),
{
    reveal_with_fuel(Session::contextual_received, 1);
    reveal_with_fuel(Session::bundle_received, 1);
    law_frame_received(s.params, r, handed_out(packet).op_code, ch, packet.data, now);
}

/// What a reliable packet makes its channel deliver is handed to the application, tagged
/// with the channel, and nothing else is.
pub proof fn law_reliable_data_surfaces(
    r: Session,
    ch: int,
    body: Seq<u8>,
    is_fragment: bool,
    now: nat,
)
    requires
        r.wf(),
        r.settled(),
        0 <= ch < RELIABLE_CHANNEL_COUNT,
        r.input_at(ch, now).received(body, is_fragment, now).1,
    ensures
        ({
            let input = r.input_at(ch, now).received(body, is_fragment, now).0;
            let after = r.data_received(ch, body, is_fragment, now).flushed();
            &&& after.received == r.received + Seq::new(
                input.app_data.len(),
                |i: int|
                    Received {
                        data: input.app_data[i],
                        channel: Channel::Reliable(ch as usize),
                    },
            )
            &&& after.outgoing == r.outgoing + Seq::new(
                input.outgoing.len(),
                |i: int| r.ack_frame(ch, input.outgoing[i]),
            )
            &&& after.inputs[ch] == Some(
                InputState { outgoing: Seq::empty(), app_data: Seq::empty(), ..input },
            )
            &&& after.state == r.state
            &&& after.events == r.events
            &&& after.settled()
        }),
{
    reveal(Session::flushed);
    let input = r.input_at(ch, now).received(body, is_fragment, now).0;
    let start = r.with_input(ch, input);
    assert(r.channel_settled(ch));
    assert forall|k: int| 0 <= k < RELIABLE_CHANNEL_COUNT && k != ch implies #[trigger]
    start.channel_settled(k) by {
        assert(r.channel_settled(k));
    }
    lemma_others_settled(start, ch);
    assert(start.channel_data(ch) =~= Seq::new(
        input.app_data.len(),
        |i: int|
            Received { data: input.app_data[i], channel: Channel::Reliable(ch as usize) },
    ));
    assert(start.ack_frames(ch) =~= Seq::new(
        input.outgoing.len(),
        |i: int| r.ack_frame(ch, input.outgoing[i]),
    ));
}

/// Where only one channel holds something, only that channel passes something on.
proof fn lemma_others_settled(s: Session, ch: int)
    requires
        s.wf(),
        0 <= ch < RELIABLE_CHANNEL_COUNT,
        forall|k: int|
            0 <= k < RELIABLE_CHANNEL_COUNT && k != ch ==> #[trigger] s.channel_settled(k),
        s.outputs[ch] matches Some(output) ==> output.outgoing.len() == 0,
    ensures
        s.flushed().received == s.received + s.channel_data(ch),
        s.flushed().outgoing == s.outgoing + s.ack_frames(ch),
        s.inputs[ch] matches Some(input) ==> s.flushed().inputs[ch] == Some(
            InputState { outgoing: Seq::empty(), app_data: Seq::empty(), ..input },
        ),
        s.flushed().settled(),
        s.flushed().state == s.state,
        s.flushed().events == s.events,
{
    reveal(Session::flushed);
    lemma_flushed(s, RELIABLE_CHANNEL_COUNT as nat);
    lemma_flushed_but_one(s, ch, RELIABLE_CHANNEL_COUNT as nat);
}

proof fn lemma_channel_idle(s: Session, k: int)
    requires
        s.wf(),
        0 <= k < RELIABLE_CHANNEL_COUNT,
        s.channel_settled(k),
    ensures
        s.channel_flushed(k) == s,
{
    assert(s.ack_frames(k) =~= Seq::empty());
    assert(s.acks_flushed(k) =~= s) by {
        match s.inputs[k] {
            Some(input) => {
                assert(input.outgoing =~= Seq::empty());
            },
            None => {},
        }
    }
    assert(s.packet_frames(k) =~= Seq::empty());
    assert(s.packets_flushed(k) =~= s) by {
        match s.outputs[k] {
            Some(output) => {
                assert(output.outgoing =~= Seq::empty());
            },
            None => {},
        }
    }
    assert(s.channel_data(k) =~= Seq::empty());
    assert(s.data_flushed(k) =~= s) by {
        match s.inputs[k] {
            Some(input) => {
                assert(input.app_data =~= Seq::empty());
            },
            None => {},
        }
    }
}

proof fn lemma_flushed_but_one(s: Session, ch: int, n: nat)
    requires
        s.wf(),
        0 <= ch < RELIABLE_CHANNEL_COUNT,
        n <= RELIABLE_CHANNEL_COUNT,
        forall|k: int|
            0 <= k < RELIABLE_CHANNEL_COUNT && k != ch ==> #[trigger] s.channel_settled(k),
        s.outputs[ch] matches Some(output) ==> output.outgoing.len() == 0,
    ensures
        s.flushed_up_to(n) == (if n <= ch {
            s
        } else {
            s.channel_flushed(ch)
        }),
        s.channel_flushed(ch).received == s.received + s.channel_data(ch),
        s.channel_flushed(ch).outgoing == s.outgoing + s.ack_frames(ch),
    decreases n,
{
    let one = s.channel_flushed(ch);
    assert(s.acks_flushed(ch).packet_frames(ch) =~= Seq::empty());
    assert(s.outgoing + s.ack_frames(ch) + Seq::<Seq<u8>>::empty() =~= s.outgoing
        + s.ack_frames(ch));
    assert(one.outgoing =~= s.outgoing + s.ack_frames(ch));
    assert(s.acks_flushed(ch).packets_flushed(ch).channel_data(ch) =~= s.channel_data(ch));
    if n > 0 {
        lemma_flushed_but_one(s, ch, (n - 1) as nat);
        if n - 1 < ch {
            assert(s.channel_settled(n - 1));
            lemma_channel_idle(s, n - 1);
        } else if n - 1 > ch {
            assert(s.channel_settled(n - 1));
            assert(one.channel_settled(n - 1));
            lemma_channel_idle(one, n - 1);
        }
    }
}

/// Data that has arrived on a reliable channel, as it is handed to the application.
pub open spec fn on_channel(pieces: Seq<Seq<u8>>, ch: int) -> Seq<Received> {
    Seq::new(
        pieces.len(),
        |i: int| Received { data: pieces[i], channel: Channel::Reliable(ch as usize) },
    )
}

/// Sessions carry reliable data: what the one party enqueues on a reliable channel is
/// handed to the application of the other, tagged with the channel, in order and each
/// piece once, over a network that may lose, repeat and reorder datagrams.
///
/// `pieces` are enqueued on an unused channel of a session with parameters `p`, which
/// splits them into packets; `done` is what session `r` has handed out of that channel so
/// far. Whichever of the datagrams that carry the packets `r` receives next, what it has
/// handed out then is again the beginning of `pieces`; it is all of them once all packets
/// have had their turn, and the packet whose turn it is always makes progress. The packet
/// must be near enough to be told by the 16 bits that it carries of its sequence.
pub proof fn law_session_delivers(
    p: Params,
    r: Session,
    ch: int,
    o: OutputState,
    start: InputState,
    pieces: Seq<Seq<u8>>,
    done: Seq<Seq<u8>>,
    i: int,
    now: nat,
)
    requires
        r.wf(),
        r.settled(),
        r.state !is Terminated,
        agree(p, r.params),
        0 <= ch < RELIABLE_CHANNEL_COUNT,
        o.queue.len() == 0,
        o.total_sequence == 0,
        start.window_start == 0,
        start.assembly is None,
        start.app_data.len() == 0,
        start.stash.len() == 0,
        start.cipher == o.cipher,
        deliverable_all(o, pieces),
        packet_bound(pieces) + SEQUENCE_BLOCK + SEQUENCE_BLOCK < i64::MAX,
        0 <= i < enqueued_all(o, pieces).queue.len(),
        ({
            let channel = r.input_at(ch, now);
            &&& follows(
                preceded(done, channel),
                start,
                travelling_each(enqueued_all(o, pieces).queue),
                channel.window_start as int,
            )
            &&& channel.window_start + channel.max_queued - SEQUENCE_BLOCK < i
                < channel.window_start + SEQUENCE_BLOCK
        }),
    ensures
        ({
            let queue = enqueued_all(o, pieces).queue;
            let channel = r.input_at(ch, now);
            let fresh = channel.received(queue[i].data, queue[i].is_fragment, now).0.app_data;
            let op = handed_out(queue[i]).op_code;
            let after = r.datagram_received(
                p.frame(channel_op(op, ch), queue[i].data),
                now,
            );
            &&& after.received == r.received + on_channel(fresh, ch)
            &&& (done + fresh).is_prefix_of(pieces)
            &&& follows(
                preceded(done + fresh, after.input_at(ch, now)),
                start,
                travelling_each(queue),
                after.input_at(ch, now).window_start as int,
            )
            &&& after.input_at(ch, now).window_start == queue.len() ==> done + fresh == pieces
            &&& i == channel.window_start ==> after.input_at(ch, now).window_start
                > channel.window_start
            &&& after.state == r.state
            &&& after.settled()
        }),
{
    reveal_with_fuel(Session::contextual_received, 1);
    reveal_with_fuel(Session::bundle_received, 1);
    let queue = enqueued_all(o, pieces).queue;
    let channel = r.input_at(ch, now);
    let packet = queue[i];
    let op = handed_out(packet).op_code;
    let before = preceded(done, channel);
    law_reliable_delivery(o, start, pieces, before, i, now);
    law_packets_carry(o, pieces);
    law_received_preceded(done, channel, packet.data, packet.is_fragment, now);
    law_frame_received(p, r, op, ch, packet.data, now);
    let begun = met(r, now);
    assert(begun.input_at(ch, now) == channel);
    assert forall|k: int| 0 <= k < RELIABLE_CHANNEL_COUNT implies #[trigger]
    begun.channel_settled(k) by {
        assert(r.channel_settled(k));
    }
    law_reliable_data_surfaces(begun, ch, packet.data, packet.is_fragment, now);
    let input = channel.received(packet.data, packet.is_fragment, now).0;
    let after = r.datagram_received(p.frame(channel_op(op, ch), packet.data), now);
    assert(preceded(done + input.app_data, after.input_at(ch, now)).app_data =~= done
        + input.app_data);
}

/// A session that is terminated with notice tells the remote, and a remote that has agreed
/// with it on how packets are framed terminates too, for the same reason, and knows that
/// it was the other party's doing.
pub proof fn law_disconnect_reaches_remote(
    s: Session,
    r: Session,
    reason: DisconnectReason,
    now: nat,
)
    requires
        s.wf(),
        r.wf(),
        s.state is Running,
        r.state !is Terminated,
        agree(s.params, r.params),
    ensures
        ({
            let sent = s.terminated(reason, true, false, now).outgoing.last();
            let after = r.datagram_received(sent, now);
            &&& after.state is Terminated
            &&& after.termination_reason == reason
            &&& after.terminated_by_remote
        }),
{
    reveal_with_fuel(Session::contextual_received, 1);
    reveal_with_fuel(Session::bundle_received, 1);
    law_terminate(s, reason, true, false, now);
    let disconnect = Disconnect { session_id: s.session_id, reason };
    let payload = concat(disconnect.wire());
    lemma_disconnect_wire(disconnect);
    law_disconnect_round_trip(disconnect, Seq::empty());
    assert(payload + Seq::<u8>::empty() =~= payload);
    law_frame_received(s.params, r, OpCode::Disconnect, 0, payload, now);
    let start = met(r, now);
    law_terminate(start, reason, false, true, now);
    let ended = start.terminated(reason, false, true, now);
    reveal(Session::flushed);
    lemma_flushed_settled(ended, RELIABLE_CHANNEL_COUNT as nat);
}

/// A server answers every heartbeat of a client with a heartbeat.
pub proof fn law_heartbeat_answered(s: Session, r: Session, now: nat)
    requires
        r.wf(),
        r.settled(),
        r.mode is Server,
        r.state !is Terminated,
        agree(s.params, r.params),
    ensures
        ({
            let beat = s.params.frame(op_code_value(OpCode::Heartbeat), Seq::empty());
            let after = r.datagram_received(beat, now);
            &&& after.outgoing == r.outgoing.push(
                r.params.frame(op_code_value(OpCode::Heartbeat), Seq::empty()),
            )
            &&& after.last_received == now
            &&& after.state == r.state
        }),
{
    reveal_with_fuel(Session::contextual_received, 1);
    reveal_with_fuel(Session::bundle_received, 1);
    law_frame_received(s.params, r, OpCode::Heartbeat, 0, Seq::empty(), now);
    assert(channel_op(OpCode::Heartbeat, 0) == op_code_value(OpCode::Heartbeat));
    let after = met(r, now).contextual_received(OpCode::Heartbeat, 0, Seq::empty(), now);
    reveal(Session::flushed);
    assert forall|k: int| 0 <= k < RELIABLE_CHANNEL_COUNT implies #[trigger]
    after.channel_settled(k) by {
        assert(r.channel_settled(k));
    }
    lemma_flushed_settled(after, RELIABLE_CHANNEL_COUNT as nat);
}

/// Unreliable data that fits into a packet arrives as it was sent, tagged as unreliable,
/// if it and its check value make up at least two bytes.
pub proof fn law_unreliable_round_trip(s: Session, r: Session, data: Seq<u8>, now: nat)
    requires
        r.wf(),
        r.settled(),
        s.state is Running,
        r.state is Running,
        agree(s.params, r.params),
        data.len() > 0,
        s.fits_unreliable(data),
        data.len() + s.params.crc_length >= 2,
    ensures
        ({
            let (sent, accepted) = s.enqueued(data, Channel::Unreliable);
            let after = r.datagram_received(sent.outgoing.last(), now);
            &&& accepted
            &&& sent.outgoing == s.outgoing.push(s.params.frame_unreliable(data))
            &&& after.received == r.received.push(
                Received { data, channel: Channel::Unreliable },
            )
            &&& after.outgoing == r.outgoing
            &&& after.state is Running
        }),
{
    reveal(Session::unreliable_received);
    reveal(Session::flushed);
    let datagram = s.params.frame_unreliable(data);
    let front = escaped(data);
    lemma_be_bytes_len(
        crc_of(s.params.crc_seed, front) as nat,
        s.params.crc_length as nat,
    );
    assert(datagram.len() == front.len() + s.params.crc_length);
    assert(datagram[0] == front[0]);
    assert(front[0] == 0 ==> datagram[1] == 0);
    assert(op_code_in(datagram) is None);
    assert(datagram.take(front.len() as int) =~= front);
    assert(front[0] == 0 ==> front.skip(1) =~= data);
    let after = r.unreliable_received(datagram, now).0;
    assert forall|k: int| 0 <= k < RELIABLE_CHANNEL_COUNT implies #[trigger]
    after.channel_settled(k) by {
        assert(r.channel_settled(k));
    }
    lemma_flushed_settled(after, RELIABLE_CHANNEL_COUNT as nat);
}

/// Once a packet of a bundle has terminated the session, the rest of the bundle is not
/// looked at.
pub proof fn law_bundle_stops(s: Session, rest: Seq<u8>, entry: BundleEntry, now: nat)
    requires
        rest.len() > 0,
        bundle_entry(rest) == Some(entry),
        s.contextual_received(entry.op, entry.channel, entry.body, now).state is Terminated,
    ensures
        s.bundle_received(rest, now) == s.contextual_received(
            entry.op,
            entry.channel,
            entry.body,
            now,
        ),
{
    reveal_with_fuel(Session::contextual_received, 1);
    reveal_with_fuel(Session::bundle_received, 1);
}

/// A bundle is received packet by packet.
proof fn lemma_bundle_unfolds(s: Session, rest: Seq<u8>, entry: BundleEntry, now: nat)
    requires
        rest.len() > 0,
        bundle_entry(rest) == Some(entry),
    ensures
        ({
            let after = s.contextual_received(entry.op, entry.channel, entry.body, now);
            s.bundle_received(rest, now) == (if after.state is Terminated {
                after
            } else {
                after.bundle_received(rest.skip(entry.size), now)
            })
        }),
{
    reveal_with_fuel(Session::contextual_received, 1);
    reveal_with_fuel(Session::bundle_received, 1);
}

/// Receiving a bundle is receiving its packets one after the other, for as long as the
/// session is not terminated.
pub proof fn law_bundle_is_its_packets(s: Session, packets: Seq<Seq<u8>>, op: OpCode, now: nat)
    requires
        packets.len() > 0,
        OP_CODE_SIZE <= packets[0].len() <= u32::MAX,
        packets[0].len() == 0xFF ==> packets[0][0] == 0,
        op_code_in(packets[0]) == Some(op),
    ensures
        ({
            let after = s.contextual_received(
                op,
                channel_of(raw_op_code(packets[0])),
                packets[0].skip(2),
                now,
            );
            s.bundle_received(multi::packed(packets), now) == (if after.state is Terminated {
                after
            } else {
                after.bundle_received(multi::packed(packets.drop_first()), now)
            })
        }),
{
    let first = packets[0];
    let others = packets.drop_first();
    multi::lemma_packed_first(packets);
    let len = first.len() as u32;
    let head = multi_packet::encoded(len);
    let all = multi::packed(packets);
    assert(all =~= head + (first + multi::packed(others)));
    multi_packet::law_round_trip(len, first + multi::packed(others));
    assert(all.subrange(head.len() as int, head.len() + len) =~= first);
    assert(all.skip(head.len() + len) =~= multi::packed(others));
    let entry = BundleEntry {
        op,
        channel: channel_of(raw_op_code(first)),
        body: first.skip(2),
        size: head.len() + len,
    };
    assert(bundle_entry(all) == Some(entry));
    lemma_bundle_unfolds(s, all, entry, now);
}

/// A compressed packet is received as what it decompresses to.
pub proof fn law_compressed_is_received(
    s: Session,
    op: OpCode,
    ch: int,
    stream: Seq<u8>,
    plain: Seq<u8>,
    now: nat,
)
    requires
        s.params.is_compression_enabled,
        decompressed(stream) == Some(plain),
    ensures
        s.wrapped_received(op, ch, seq![1u8] + stream, now) == s.wrapped_received(
            op,
            ch,
            seq![0u8] + plain,
            now,
        ),
{
    let packed = seq![1u8] + stream;
    let unpacked = seq![0u8] + plain;
    assert(packed.skip(1) =~= stream);
    assert(unpacked.skip(1) =~= plain);
    assert(s.wrapped_received(op, ch, packed, now) == s.contextual_received(
        op,
        ch,
        plain,
        now,
    )) by {
        reveal(Session::wrapped_received);
    }
    assert(s.wrapped_received(op, ch, unpacked, now) == s.contextual_received(
        op,
        ch,
        plain,
        now,
    )) by {
        reveal(Session::wrapped_received);
    }
}

/// The request that a client sends.
pub open spec fn request_of(c: Session) -> SessionRequestFields {
    SessionRequestFields {
        soe_protocol_version: SOE_PROTOCOL_VERSION,
        session_id: rng_value(rng_next(c.rng)),
        udp_length: c.params.udp_length,
        application_protocol: c.params.application_protocol,
    }
}

proof fn lemma_request_valid(c: Session, params: Params)
    ensures
        ({
            let datagram = concat(request_of(c).wire());
            &&& validated(
                datagram,
                params.crc_seed,
                params.crc_length,
                params.is_compression_enabled,
            ) == (ValidationResult::Valid, Some(OpCode::SessionRequest))
        }),
{
    let request = request_of(c);
    let datagram = concat(request.wire());
    lemma_session_request_wire(request);
    lemma_be_two(op_code_value(OpCode::SessionRequest) as nat);
    assert(datagram[0] == 0 && datagram[1] == 1);
}

proof fn lemma_response_valid(response: SessionResponse, params: Params)
    ensures
        validated(
            concat(response.wire()),
            params.crc_seed,
            params.crc_length,
            params.is_compression_enabled,
        ) == (ValidationResult::Valid, Some(OpCode::SessionResponse)),
{
    let datagram = concat(response.wire());
    lemma_session_response_wire(response);
    lemma_be_two(op_code_value(OpCode::SessionResponse) as nat);
    assert(datagram[0] == 0 && datagram[1] == 2);
}

/// A settled, unopened session that negotiates is not changed by passing on what its
/// channels hold.
proof fn lemma_settled_like(s: Session, t: Session)
    requires
        t.wf(),
        t.settled(),
        s.inputs == t.inputs,
        s.outputs == t.outputs,
    ensures
        s.flushed() == s,
{
    reveal(Session::flushed);
    assert forall|k: int| 0 <= k < RELIABLE_CHANNEL_COUNT implies #[trigger]
    s.channel_settled(k) by {
        assert(t.channel_settled(k));
    }
    lemma_flushed_settled(s, RELIABLE_CHANNEL_COUNT as nat);
}

/// A server accepts a request for the application protocol that it serves.
proof fn lemma_server_accepts(c: Session, v: Session, now: nat)
    requires
        v.wf(),
        v.settled(),
        v.mode is Server,
        v.state is Negotiating,
        c.params.application_protocol == v.params.application_protocol,
        forall|i: int|
            0 <= i < c.params.application_protocol.len()
                ==> c.params.application_protocol[i] != '\0',
    ensures
        v.datagram_received(concat(request_of(c).wire()), now) == (Session {
            params: Params {
                remote_udp_length: c.params.udp_length,
                ..v.params
            },
            session_id: request_of(c).session_id,
            ..met(v, now)
        }).accepted(),
{
    reveal(Session::packet_received);
    reveal(Session::contextless_received);
    reveal(Session::request_received);
    let request = request_of(c);
    let datagram = concat(request.wire());
    lemma_request_valid(c, v.params);
    law_session_request_round_trip(request, Seq::empty());
    assert(datagram.skip(2) + Seq::<u8>::empty() =~= datagram.skip(2));
    let after = v.packet_received(OpCode::SessionRequest, datagram, now);
    lemma_settled_like(after, v);
}

/// A handshake leads to agreement: a client that asks for a session and a server that
/// serves the same application protocol are both running after one request and one
/// response, with the same session ID and the same framing, and each knows how much the
/// other can receive. The client's session counts as opened at once, the server's with the
/// next packet.
pub proof fn law_handshake(c: Session, v: Session, now: nat)
    requires
        c.wf(),
        c.settled(),
        c.mode is Client,
        c.state is Negotiating,
        v.wf(),
        v.settled(),
        v.mode is Server,
        v.state is Negotiating,
        c.params.application_protocol == v.params.application_protocol,
        forall|i: int|
            0 <= i < c.params.application_protocol.len()
                ==> c.params.application_protocol[i] != '\0',
        !c.open_session_on_next_packet,
    ensures
        ({
            let asked = c.requested();
            let served = v.datagram_received(asked.outgoing.last(), now);
            let opened = asked.datagram_received(served.outgoing.last(), now);
            &&& asked.outgoing.len() == c.outgoing.len() + 1
            &&& served.state is Running
            &&& opened.state is Running
            &&& opened.session_id == served.session_id
            &&& agree(opened.params, served.params)
            &&& served.params.crc_length == CRC_LENGTH
            &&& opened.params.remote_udp_length == v.params.udp_length
            &&& served.params.remote_udp_length == c.params.udp_length
            &&& opened.events == c.events.push(SessionEvent::Opened)
            &&& served.open_session_on_next_packet
            &&& served.outgoing.len() == v.outgoing.len() + 1
        }),
{
    reveal(Session::packet_received);
    reveal(Session::contextless_received);
    reveal(Session::response_received);
    let asked = c.requested();
    let request = concat(request_of(c).wire());
    assert(asked.outgoing.last() == request);
    lemma_server_accepts(c, v, now);
    let served = v.datagram_received(request, now);
    let response = SessionResponse {
        session_id: served.session_id,
        crc_seed: served.params.crc_seed,
        crc_length: served.params.crc_length,
        is_compression_enabled: served.params.is_compression_enabled,
        unknown_value_1: 0,
        udp_length: served.params.udp_length,
        soe_protocol_version: SOE_PROTOCOL_VERSION,
    };
    let answer = concat(response.wire());
    assert(served.outgoing.last() == answer);
    lemma_response_valid(response, asked.params);
    law_session_response_round_trip(response, Seq::empty());
    assert(answer.skip(2) + Seq::<u8>::empty() =~= answer.skip(2));
    let after = asked.packet_received(OpCode::SessionResponse, answer, now);
    lemma_settled_like(after, c);
}

/// A server refuses a request for an application protocol that it does not serve: its
/// session terminates, and a remote that knows nothing yet is told nothing.
pub proof fn law_protocol_mismatch(c: Session, v: Session, now: nat)
    requires
        v.wf(),
        v.mode is Server,
        v.state is Negotiating,
        c.params.application_protocol != v.params.application_protocol,
        forall|i: int|
            0 <= i < c.params.application_protocol.len()
                ==> c.params.application_protocol[i] != '\0',
        forall|k: int| 0 <= k < RELIABLE_CHANNEL_COUNT ==> #[trigger] v.outputs[k] is None,
        v.settled(),
    ensures
        ({
            let after = v.datagram_received(concat(request_of(c).wire()), now);
            &&& after.state is Terminated
            &&& after.termination_reason is ProtocolMismatch
            &&& after.outgoing == v.outgoing
        }),
{
    reveal(Session::packet_received);
    reveal(Session::contextless_received);
    reveal(Session::request_received);
    let request = request_of(c);
    let datagram = concat(request.wire());
    lemma_request_valid(c, v.params);
    law_session_request_round_trip(request, Seq::empty());
    assert(datagram.skip(2) + Seq::<u8>::empty() =~= datagram.skip(2));
    let known = Session {
        params: Params { remote_udp_length: request.udp_length, ..v.params },
        session_id: request.session_id,
        ..met(v, now)
    };
    law_terminate(known, DisconnectReason::ProtocolMismatch, true, false, now);
    let ended = known.terminated(DisconnectReason::ProtocolMismatch, true, false, now);
    assert(ended.outgoing == v.outgoing) by {
        reveal(Session::terminated);
        let ticked = known.outputs_ticked(now, RELIABLE_CHANNEL_COUNT as nat);
        assert(ticked.outputs =~= v.outputs);
        lemma_settled_like(ticked, v);
    }
    lemma_settled_like(ended, ended);
}

} // verus!
