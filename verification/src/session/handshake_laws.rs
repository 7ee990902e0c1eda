//! What a session makes of the packets that open it, expected or not.

use vstd::prelude::*;
use vstd::utf8::encode_utf8;

use crate::packets::{
    law_session_request_round_trip, law_session_response_round_trip,
    lemma_session_request_wire, lemma_session_response_wire, SessionRequestFields,
    SessionResponse,
};
use crate::protocol::{disconnect_reason_value, DisconnectReason, OpCode};
use crate::session::conduct_laws::{
    all_due_on, drawn, events_met, in_step, law_generator, law_termination_sends, stepped,
};
use crate::session::laws::{law_terminate, met};
use crate::session::model::{lemma_flushed_settled, lemma_same_channels, Params, Session};
use crate::session::{SessionEvent, SessionState};
use crate::wire::{be_bytes, concat, lemma_be_two};

verus! {

/// The bytes of a session request.
pub open spec fn request_bytes(
    version: u32,
    session_id: u32,
    udp_length: u32,
    application_protocol: Seq<char>,
) -> Seq<u8> {
    be_bytes(0x01, 2) + be_bytes(version as nat, 4) + be_bytes(session_id as nat, 4) + be_bytes(
        udp_length as nat,
        4,
    ) + encode_utf8(application_protocol) + seq![0u8]
}

/// The bytes of a session response.
pub open spec fn response_bytes(
    session_id: u32,
    crc_seed: u32,
    crc_length: u8,
    is_compression_enabled: bool,
    udp_length: u32,
    version: u32,
) -> Seq<u8> {
    be_bytes(0x02, 2) + be_bytes(session_id as nat, 4) + be_bytes(crc_seed as nat, 4)
        + seq![crc_length] + seq![
        if is_compression_enabled {
            1u8
        } else {
            0u8
        },
    ] + seq![0u8] + be_bytes(udp_length as nat, 4) + be_bytes(version as nat, 4)
}

/// A client that has yet to ask for its session asks for it in one datagram, with the
/// version of the protocol, a session ID, how much it can receive and the application
/// protocol. Nobody else asks for anything.
pub proof fn law_request_sent(c: Session)
    ensures
        ({
            let after = c.requested();
            if c.mode is Client && c.state is Negotiating {
                &&& after.outgoing == c.outgoing.push(
                    request_bytes(
                        3,
                        after.session_id,
                        c.params.udp_length,
                        c.params.application_protocol,
                    ),
                )
                &&& after.session_id as int == drawn(c.rng)
                &&& after.rng as int == stepped(c.rng)
                &&& after == (Session {
                    outgoing: after.outgoing,
                    session_id: after.session_id,
                    rng: after.rng,
                    ..c
                })
            } else {
                after == c
            }
        }),
{
    law_generator(c.rng);
    if c.mode is Client && c.state is Negotiating {
        let request = SessionRequestFields {
            soe_protocol_version: 3,
            session_id: c.requested().session_id,
            udp_length: c.params.udp_length,
            application_protocol: c.params.application_protocol,
        };
        lemma_session_request_wire(request);
        assert(c.requested().outgoing.last() == concat(request.wire()));
    }
}

proof fn lemma_at_rest(s: Session, t: Session)
    requires
        t.wf(),
        t.settled(),
        s.inputs == t.inputs,
        s.outputs == t.outputs,
    ensures
        s.flushed() == s,
{
    reveal(Session::flushed);
    lemma_same_channels(t, s);
    lemma_flushed_settled(s, 4);
}

/// What ends a session also sends what waits, and the reason if the remote is to be told.
pub open spec fn ended_with(
    s: Session,
    after: Session,
    session_id: u32,
    reason: DisconnectReason,
    told: bool,
    now: nat,
) -> bool {
    &&& after.state is Terminated
    &&& after.termination_reason == reason
    &&& !after.terminated_by_remote
    &&& after.events == events_met(s).push(SessionEvent::Closed(reason))
    &&& after.outgoing == s.outgoing + all_due_on(s, 0, now) + all_due_on(s, 1, now)
        + all_due_on(s, 2, now) + all_due_on(s, 3, now) + (if told && s.state is Running {
        seq![
            s.params.frame(
                0x05,
                be_bytes(session_id as nat, 4) + be_bytes(
                    disconnect_reason_value(reason) as nat,
                    2,
                ),
            ),
        ]
    } else {
        Seq::empty()
    })
}

#[verifier::rlimit(50)]
proof fn lemma_ended(
    s: Session,
    known: Session,
    reason: DisconnectReason,
    told: bool,
    now: nat,
)
    requires
        s.wf(),
        s.settled(),
        s.state !is Terminated,
        forall|k: int| 0 <= k < 4 ==> in_step(#[trigger] s.outputs[k]),
        known == (Session {
            params: Params { remote_udp_length: known.params.remote_udp_length, ..s.params },
            session_id: known.session_id,
            ..met(s, now)
        }),
    ensures
        ended_with(
            s,
            known.terminated(reason, told, false, now).flushed(),
            known.session_id,
            reason,
            told,
            now,
        ),
{
    assert(known.outputs == s.outputs);
    law_termination_sends(known, reason, told, false, now);
    law_terminate(known, reason, told, false, now);
    let ended = known.terminated(reason, told, false, now);
    lemma_at_rest(ended, ended);
    assert forall|k: int| 0 <= k < 4 implies #[trigger] all_due_on(known, k, now) == all_due_on(
        s,
        k,
        now,
    ) by {
        assert(known.inputs == s.inputs);
        lemma_same_due(s, known, k, now);
    }
    assert(all_due_on(known, 0, now) == all_due_on(s, 0, now));
    assert(all_due_on(known, 1, now) == all_due_on(s, 1, now));
    assert(all_due_on(known, 2, now) == all_due_on(s, 2, now));
    assert(all_due_on(known, 3, now) == all_due_on(s, 3, now));
    lemma_same_frames(s.params, known.params);
}

/// How much the remote can receive does not change how packets are framed.
proof fn lemma_same_frames(p: Params, q: Params)
    requires
        q == (Params { remote_udp_length: q.remote_udp_length, ..p }),
    ensures
        forall|op: u16, payload: Seq<u8>| #[trigger]
            q.frame(op, payload) == p.frame(op, payload),
{
}

proof fn lemma_same_due(s: Session, t: Session, k: int, now: nat)
    requires
        t.inputs == s.inputs,
        t.outputs == s.outputs,
        t.params == (Params { remote_udp_length: t.params.remote_udp_length, ..s.params }),
    ensures
        all_due_on(t, k, now) == all_due_on(s, k, now),
{
    lemma_same_frames(s.params, t.params);
    assert(all_due_on(t, k, now) =~= all_due_on(s, k, now));
}

/// What a session makes of a session request.
///
/// A server that has yet to be asked, and serves the version and the application protocol
/// asked for, is running from then on, with the session ID of the request, and answers in
/// one datagram: with the session ID, a seed for check values of two bytes, whether packets
/// may be compressed, and how much it can receive. It knows how much the client can receive,
/// and counts as opened with the next packet. Otherwise the session ends: for a mismatch of
/// the protocol, for a request out of place, or, at a client, for having asked itself.
#[verifier::rlimit(50)]
pub proof fn law_request_received(
    v: Session,
    version: u32,
    session_id: u32,
    udp_length: u32,
    application_protocol: Seq<char>,
    now: nat,
)
    requires
        v.wf(),
        v.settled(),
        v.state !is Terminated,
        forall|k: int| 0 <= k < 4 ==> in_step(#[trigger] v.outputs[k]),
        forall|i: int|
            0 <= i < application_protocol.len() ==> application_protocol[i] != '\0',
    ensures
        ({
            let datagram = request_bytes(version, session_id, udp_length, application_protocol);
            let after = v.datagram_received(datagram, now);
            if v.mode is Client {
                ended_with(
                    v,
                    after,
                    v.session_id,
                    DisconnectReason::ConnectingToSelf,
                    false,
                    now,
                )
            } else if v.state !is Negotiating {
                ended_with(v, after, session_id, DisconnectReason::ConnectError, true, now)
            } else if version != 3 || application_protocol != v.params.application_protocol {
                ended_with(v, after, session_id, DisconnectReason::ProtocolMismatch, true, now)
            } else {
                &&& after.state is Running
                &&& after.session_id == session_id
                &&& after.open_session_on_next_packet
                &&& after.params.crc_seed as int == drawn(v.rng)
                &&& after.rng as int == stepped(v.rng)
                &&& after.params == (Params {
                    remote_udp_length: udp_length,
                    crc_length: 2,
                    crc_seed: after.params.crc_seed,
                    ..v.params
                })
                &&& after.outgoing == v.outgoing.push(
                    response_bytes(
                        session_id,
                        after.params.crc_seed,
                        2,
                        v.params.is_compression_enabled,
                        v.params.udp_length,
                        3,
                    ),
                )
                &&& after == (Session {
                    state: after.state,
                    session_id,
                    params: after.params,
                    outgoing: after.outgoing,
                    rng: after.rng,
                    last_received: now,
                    events: events_met(v),
                    open_session_on_next_packet: true,
                    ..v
                })
            }
        }),
{
    reveal(Session::packet_received);
    reveal(Session::contextless_received);
    reveal(Session::request_received);
    let request = SessionRequestFields {
        soe_protocol_version: version,
        session_id,
        udp_length,
        application_protocol,
    };
    let datagram = concat(request.wire());
    lemma_session_request_wire(request);
    lemma_be_two(0x01);
    assert(datagram == request_bytes(version, session_id, udp_length, application_protocol));
    assert(datagram[0] == 0 && datagram[1] == 1);
    law_session_request_round_trip(request, Seq::empty());
    assert(datagram.skip(2) + Seq::<u8>::empty() =~= datagram.skip(2));
    let start = met(v, now);
    let known = Session {
        params: Params { remote_udp_length: udp_length, ..v.params },
        session_id,
        ..start
    };
    if v.mode is Client {
        lemma_ended(v, start, DisconnectReason::ConnectingToSelf, false, now);
    } else if v.state !is Negotiating {
        lemma_ended(v, known, DisconnectReason::ConnectError, true, now);
    } else if version != 3 || application_protocol != v.params.application_protocol {
        lemma_ended(v, known, DisconnectReason::ProtocolMismatch, true, now);
    } else {
        let after = known.accepted();
        law_generator(v.rng);
        lemma_at_rest(after, v);
        let response = SessionResponse {
            session_id,
            crc_seed: after.params.crc_seed,
            crc_length: 2,
            is_compression_enabled: v.params.is_compression_enabled,
            unknown_value_1: 0,
            udp_length: v.params.udp_length,
            soe_protocol_version: 3,
        };
        lemma_session_response_wire(response);
        assert(after.outgoing.last() == concat(response.wire()));
    }
}

/// What a session makes of a session response.
///
/// A client that has yet to be answered is running from then on and counts as opened, if the
/// answer is of its version of the protocol: with the session ID, the check values, the
/// compression and the length of packets that the answer says. Otherwise the session ends:
/// for a mismatch of the version, for an answer out of place, or, at a server, for having
/// answered itself.
#[verifier::rlimit(50)]
pub proof fn law_response_received(c: Session, response: SessionResponse, now: nat)
    requires
        c.wf(),
        c.settled(),
        c.state !is Terminated,
        forall|k: int| 0 <= k < 4 ==> in_step(#[trigger] c.outputs[k]),
        response.unknown_value_1 == 0,
    ensures
        ({
            let datagram = response_bytes(
                response.session_id,
                response.crc_seed,
                response.crc_length,
                response.is_compression_enabled,
                response.udp_length,
                response.soe_protocol_version,
            );
            let after = c.datagram_received(datagram, now);
            if c.mode is Server {
                ended_with(
                    c,
                    after,
                    c.session_id,
                    DisconnectReason::ConnectingToSelf,
                    false,
                    now,
                )
            } else if c.state !is Negotiating {
                ended_with(c, after, c.session_id, DisconnectReason::ConnectError, true, now)
            } else if response.soe_protocol_version != 3 {
                ended_with(c, after, c.session_id, DisconnectReason::ProtocolMismatch, true, now)
            } else {
                after == (Session {
                    state: SessionState::Running,
                    session_id: response.session_id,
                    params: Params {
                        remote_udp_length: response.udp_length,
                        crc_seed: response.crc_seed,
                        crc_length: response.crc_length,
                        is_compression_enabled: response.is_compression_enabled,
                        ..c.params
                    },
                    last_received: now,
                    events: events_met(c).push(SessionEvent::Opened),
                    open_session_on_next_packet: false,
                    ..c
                })
            }
        }),
{
    reveal(Session::packet_received);
    reveal(Session::contextless_received);
    reveal(Session::response_received);
    let datagram = concat(response.wire());
    lemma_session_response_wire(response);
    lemma_be_two(0x02);
    assert(datagram[0] == 0 && datagram[1] == 2);
    law_session_response_round_trip(response, Seq::empty());
    assert(datagram.skip(2) + Seq::<u8>::empty() =~= datagram.skip(2));
    let start = met(c, now);
    if c.mode is Server {
        lemma_ended(c, start, DisconnectReason::ConnectingToSelf, false, now);
    } else if c.state !is Negotiating {
        lemma_ended(c, start, DisconnectReason::ConnectError, true, now);
    } else if response.soe_protocol_version != 3 {
        lemma_ended(c, start, DisconnectReason::ProtocolMismatch, true, now);
    } else {
        let after = c.packet_received(OpCode::SessionResponse, datagram, now);
        lemma_at_rest(after, c);
    }
}

/// A session that the remote does not know is over, as unreachable, and the remote is not
/// told.
pub proof fn law_unknown_sender_received(s: Session, now: nat)
    requires
        s.wf(),
        s.settled(),
        s.state !is Terminated,
        forall|k: int| 0 <= k < 4 ==> in_step(#[trigger] s.outputs[k]),
    ensures
        ended_with(
            s,
            s.datagram_received(be_bytes(0x1D, 2), now),
            s.session_id,
            DisconnectReason::UnreachableConnection,
            false,
            now,
        ),
{
    reveal(Session::packet_received);
    reveal(Session::contextless_received);
    let datagram = be_bytes(0x1D, 2);
    lemma_be_two(0x1D);
    assert(datagram[0] == 0 && datagram[1] == 0x1D);
    lemma_ended(s, met(s, now), DisconnectReason::UnreachableConnection, false, now);
}

} // verus!
