//! What a session is and what each event makes of it, in mathematical terms.

use vstd::prelude::*;

use crate::channel::input::{new_input, InputState, OutgoingContextual};
use crate::channel::output::{new_output, OutgoingPacket, OutputState};
use crate::constants::{CRC_LENGTH, RELIABLE_CHANNEL_COUNT, SOE_PROTOCOL_VERSION};
use crate::packet_utils::{
    channel_of, crc_trailer, op_code_in, padding, raw_op_code, validated, ValidationResult,
};
use crate::packets::{
    Acknowledge, AcknowledgeAll, Disconnect, SessionRequestFields, SessionResponse,
};
use crate::protocol::{contextless, op_code_value, DisconnectReason, OpCode};
use crate::rc4::Rc4State;
use crate::session::{Channel, SessionEvent, SessionMode, SessionState};
use crate::time::elapsed;
use crate::varint::multi_packet;
use crate::wire::{be_bytes, concat};
use crate::zlib::decompressed;

verus! {

/// The initial retransmit timeout of output channels, in nanoseconds.
pub const DEFAULT_ACK_WAIT_NANOS: u128 = 500_000_000;

/// The parameters of a session.
pub struct Params {
    /// The application protocol.
    pub application_protocol: Seq<char>,
    /// The maximum UDP payload length this party can receive.
    pub udp_length: u32,
    /// The maximum UDP payload length the remote party can receive.
    pub remote_udp_length: u32,
    /// The seed of the check values.
    pub crc_seed: u32,
    /// The number of bytes of a check value that are sent.
    pub crc_length: u8,
    /// Whether contextual packets may be compressed.
    pub is_compression_enabled: bool,
    /// The maximum number of incoming reliable data packets that may be queued.
    pub max_queued_incoming_reliable: u16,
    /// The maximum number of outgoing reliable data packets in flight at once.
    pub max_queued_outgoing_reliable: u16,
    /// The acknowledgement window.
    pub data_ack_window: u16,
    /// The interval after which to send a heartbeat; zero for never.
    pub heartbeat_after: nat,
    /// The interval after which to terminate an inactive session; zero for never.
    pub inactivity_timeout: nat,
    /// Whether every packet is acknowledged individually.
    pub acknowledge_all_data: bool,
    /// The maximum delay before received data is acknowledged.
    pub max_ack_delay: nat,
}

/// The parameters that are taken where nothing else is said.
pub open spec fn default_params() -> Params {
    Params {
        application_protocol: Seq::empty(),
        udp_length: 512,
        remote_udp_length: 512,
        crc_seed: 0,
        crc_length: 2,
        is_compression_enabled: false,
        max_queued_incoming_reliable: 256,
        max_queued_outgoing_reliable: 196,
        data_ack_window: 32,
        heartbeat_after: 25_000_000_000,
        inactivity_timeout: 30_000_000_000,
        acknowledge_all_data: false,
        max_ack_delay: 2_000_000,
    }
}

impl Params {
    /// That a packet that the remote can receive has room for what stands around its body.
    pub open spec fn has_room(self) -> bool {
        self.remote_udp_length >= padding(self.is_compression_enabled, self.crc_length)
    }

    /// That packets can be framed: the check value has as many bytes as are asked for.
    pub open spec fn usable(self) -> bool {
        self.crc_length <= 4
    }

    /// `data`, followed by its check value.
    pub open spec fn checked(self, data: Seq<u8>) -> Seq<u8> {
        data + crc_trailer(self.crc_seed, data, self.crc_length as nat)
    }

    /// A contextual packet ahead of its check value.
    pub open spec fn unchecked_frame(self, raw_op: u16, payload: Seq<u8>) -> Seq<u8> {
        be_bytes(raw_op as nat, 2) + (if self.is_compression_enabled {
            seq![0u8]
        } else {
            Seq::empty()
        }) + payload
    }

    /// A contextual packet: OP code, the compression flag if packets may be compressed,
    /// the payload and the check value.
    pub open spec fn frame(self, raw_op: u16, payload: Seq<u8>) -> Seq<u8> {
        self.checked(self.unchecked_frame(raw_op, payload))
    }

    /// An unreliable packet: the payload, with a zero byte in front if it begins with
    /// one, and the check value.
    pub open spec fn frame_unreliable(self, payload: Seq<u8>) -> Seq<u8> {
        self.checked(escaped(payload))
    }
}

/// The payload of an unreliable packet as it is sent.
pub open spec fn escaped(payload: Seq<u8>) -> Seq<u8> {
    if payload[0] == 0 {
        seq![0u8] + payload
    } else {
        payload
    }
}

/// A piece of application data that has been received.
pub struct Received {
    /// The data.
    pub data: Seq<u8>,
    /// The channel that it arrived on.
    pub channel: Channel,
}

/// The state of the generator of session IDs and CRC seeds, from its seed.
pub open spec fn rng_seeded(seed: u64) -> u64 {
    seed ^ 0x9E37_79B9_7F4A_7C15
}

/// The next state of the generator.
pub open spec fn rng_next(state: u64) -> u64 {
    state.wrapping_mul(6_364_136_223_846_793_005).wrapping_add(1_442_695_040_888_963_407)
}

/// The number that a state of the generator yields.
pub open spec fn rng_value(state: u64) -> u32 {
    (state >> 32) as u32
}

/// The number that stands for a kind of packet on a reliable channel.
pub open spec fn channel_op(op: OpCode, ch: int) -> u16 {
    (op_code_value(op) + ch) as u16
}

/// A packet in a bundle.
pub struct BundleEntry {
    /// The kind of packet.
    pub op: OpCode,
    /// The reliable channel that the packet belongs to, if it belongs to one.
    pub channel: int,
    /// The packet without its OP code.
    pub body: Seq<u8>,
    /// The number of bytes that the packet and its length take up in the bundle.
    pub size: int,
}

/// The packet at the start of (the rest of) a bundle, unless that is malformed.
pub open spec fn bundle_entry(rest: Seq<u8>) -> Option<BundleEntry> {
    match multi_packet::decoded(rest) {
        (Err(_), _) => None,
        (Ok(len), at) => if len < 2 || len > rest.len() - at {
            None
        } else {
            let packet = rest.subrange(at, at + len);
            match op_code_in(packet) {
                None => None,
                Some(op) => Some(
                    BundleEntry {
                        op,
                        channel: channel_of(raw_op_code(packet)),
                        body: packet.skip(2),
                        size: at + len,
                    },
                ),
            }
        },
    }
}

/// A session.
#[verifier::ext_equal]
pub struct Session {
    /// Whether this party asks for the session or accepts it.
    pub mode: SessionMode,
    /// Where in its life the session is.
    pub state: SessionState,
    /// The parameters.
    pub params: Params,
    /// The reliable input channels, those that have been used.
    pub inputs: Seq<Option<InputState>>,
    /// The reliable output channels, those that have been used.
    pub outputs: Seq<Option<OutputState>>,
    /// The cipher that each reliable channel starts from.
    pub cipher: Option<Rc4State>,
    /// The session ID.
    pub session_id: u32,
    /// Why the session has terminated.
    pub termination_reason: DisconnectReason,
    /// Whether the remote party has terminated the session.
    pub terminated_by_remote: bool,
    /// Whether the session counts as opened when the next packet arrives.
    pub open_session_on_next_packet: bool,
    /// When a packet was received last.
    pub last_received: nat,
    /// The state of the generator.
    pub rng: u64,
    /// The datagrams to send that have not been drained.
    pub outgoing: Seq<Seq<u8>>,
    /// The application data that has not been drained.
    pub received: Seq<Received>,
    /// The events that have not been drained.
    pub events: Seq<SessionEvent>,
}

/// A new session.
pub open spec fn new_session(
    mode: SessionMode,
    params: Params,
    cipher: Option<Rc4State>,
    rng_seed: u64,
    now: nat,
) -> Session {
    Session {
        mode,
        state: SessionState::Negotiating,
        params,
        inputs: Seq::new(RELIABLE_CHANNEL_COUNT as nat, |i: int| None),
        outputs: Seq::new(RELIABLE_CHANNEL_COUNT as nat, |i: int| None),
        cipher,
        session_id: 0,
        termination_reason: DisconnectReason::NoReason,
        terminated_by_remote: false,
        open_session_on_next_packet: false,
        last_received: now,
        rng: rng_seeded(rng_seed),
        outgoing: Seq::empty(),
        received: Seq::empty(),
        events: Seq::empty(),
    }
}

impl Session {
    /// That there is a place for each of the reliable channels.
    pub open spec fn wf(self) -> bool {
        &&& self.inputs.len() == RELIABLE_CHANNEL_COUNT
        &&& self.outputs.len() == RELIABLE_CHANNEL_COUNT
    }

    /// That a channel holds nothing that has yet to be passed on.
    pub open spec fn channel_settled(self, ch: int) -> bool {
        &&& self.inputs[ch] matches Some(input) ==> input.outgoing.len() == 0
            && input.app_data.len() == 0
        &&& self.outputs[ch] matches Some(output) ==> output.outgoing.len() == 0
    }

    /// That none of the channels below `n` holds anything that has yet to be passed on.
    pub open spec fn settled_below(self, n: int) -> bool {
        forall|ch: int| 0 <= ch < n ==> #[trigger] self.channel_settled(ch)
    }

    /// That no channel holds anything that has yet to be passed on.
    pub open spec fn settled(self) -> bool {
        self.settled_below(RELIABLE_CHANNEL_COUNT as int)
    }

    /// The session with one more datagram to send.
    pub open spec fn sending(self, datagram: Seq<u8>) -> Session {
        Session { outgoing: self.outgoing.push(datagram), ..self }
    }

    /// The session with one more event.
    pub open spec fn with_event(self, event: SessionEvent) -> Session {
        Session { events: self.events.push(event), ..self }
    }

    /// The maximum length of a reliable packet's payload: what is left of the longest
    /// datagram that the remote can receive.
    pub open spec fn max_data_length(self) -> usize {
        (self.params.remote_udp_length - padding(
            self.params.is_compression_enabled,
            self.params.crc_length,
        )) as usize
    }

    /// A reliable input channel, new if it has not been used.
    pub open spec fn input_at(self, ch: int, now: nat) -> InputState {
        match self.inputs[ch] {
            Some(input) => input,
            None => new_input(
                self.params.max_queued_incoming_reliable,
                self.params.acknowledge_all_data,
                self.params.data_ack_window,
                self.params.max_ack_delay,
                self.cipher,
                now,
            ),
        }
    }

    /// A reliable output channel, new if it has not been used.
    pub open spec fn output_at(self, ch: int) -> OutputState {
        match self.outputs[ch] {
            Some(output) => output,
            None => new_output(
                self.max_data_length(),
                self.params.max_queued_outgoing_reliable as usize,
                DEFAULT_ACK_WAIT_NANOS as nat,
                self.cipher,
            ),
        }
    }

    /// The session with another state of a reliable input channel.
    pub open spec fn with_input(self, ch: int, input: InputState) -> Session {
        Session { inputs: self.inputs.update(ch, Some(input)), ..self }
    }

    /// The session with another state of a reliable output channel.
    pub open spec fn with_output(self, ch: int, output: OutputState) -> Session {
        Session { outputs: self.outputs.update(ch, Some(output)), ..self }
    }

    /// The session after a session request has been sent.
    pub open spec fn requested(self) -> Session {
        if self.state is Negotiating && self.mode is Client {
            let rng = rng_next(self.rng);
            let request = SessionRequestFields {
                soe_protocol_version: SOE_PROTOCOL_VERSION,
                session_id: rng_value(rng),
                udp_length: self.params.udp_length,
                application_protocol: self.params.application_protocol,
            };
            (Session { rng, session_id: rng_value(rng), ..self }).sending(concat(request.wire()))
        } else {
            self
        }
    }

    /// Whether application data fits into one unreliable packet.
    pub open spec fn fits_unreliable(self, data: Seq<u8>) -> bool {
        escaped(data).len() + self.params.crc_length <= self.params.remote_udp_length
    }

    /// The reliable channel that data enqueued on `channel` goes to, if it goes to one:
    /// unreliable data that is too large for a packet goes to the first.
    pub open spec fn reliable_target(self, data: Seq<u8>, channel: Channel) -> Option<int> {
        match channel {
            Channel::Reliable(ch) => if ch < RELIABLE_CHANNEL_COUNT {
                Some(ch as int)
            } else {
                None
            },
            Channel::Unreliable => if data.len() > 0 && !self.fits_unreliable(data) {
                Some(0)
            } else {
                None
            },
        }
    }

    /// That an output channel is there or can be made.
    pub open spec fn has_output(self, ch: int) -> bool {
        self.outputs[ch] is Some || self.params.has_room()
    }

    /// That `data` can be enqueued on `channel`: data that goes to a reliable channel can
    /// be split into packets, and an unreliable packet can be framed.
    pub open spec fn can_enqueue(self, data: Seq<u8>, channel: Channel) -> bool {
        self.state is Running ==> match self.reliable_target(data, channel) {
            Some(ch) => self.has_output(ch) && self.output_at(ch).can_enqueue(data),
            None => channel is Unreliable && data.len() > 0 ==> self.params.crc_length <= 4,
        }
    }

    /// The session after application data has been enqueued, and whether it was accepted.
    pub open spec fn enqueued(self, data: Seq<u8>, channel: Channel) -> (Session, bool) {
        if self.state !is Running {
            (self, false)
        } else {
            match self.reliable_target(data, channel) {
                Some(ch) => (self.with_output(ch, self.output_at(ch).enqueued(data)), true),
                None => if channel !is Unreliable {
                    (self, false)
                } else if data.len() == 0 {
                    (self, true)
                } else {
                    (self.sending(self.params.frame_unreliable(data)), true)
                },
            }
        }
    }

    /// The acknowledgements of an input channel, as they are sent.
    pub open spec fn ack_frames(self, ch: int) -> Seq<Seq<u8>> {
        match self.inputs[ch] {
            Some(input) => Seq::new(
                input.outgoing.len(),
                |i: int| self.ack_frame(ch, input.outgoing[i]),
            ),
            None => Seq::empty(),
        }
    }

    /// An acknowledgement as it is sent.
    pub open spec fn ack_frame(self, ch: int, ack: OutgoingContextual) -> Seq<u8> {
        self.params.frame(channel_op(ack.op_code, ch), be_bytes(ack.sequence as nat, 2))
    }

    /// The packets of an output channel, as they are sent.
    pub open spec fn packet_frames(self, ch: int) -> Seq<Seq<u8>> {
        match self.outputs[ch] {
            Some(output) => Seq::new(
                output.outgoing.len(),
                |i: int| self.packet_frame(ch, output.outgoing[i]),
            ),
            None => Seq::empty(),
        }
    }

    /// A reliable packet as it is sent.
    pub open spec fn packet_frame(self, ch: int, packet: OutgoingPacket) -> Seq<u8> {
        self.params.frame(channel_op(packet.op_code, ch), packet.payload)
    }

    /// The application data of an input channel, tagged with the channel.
    pub open spec fn channel_data(self, ch: int) -> Seq<Received> {
        match self.inputs[ch] {
            Some(input) => Seq::new(
                input.app_data.len(),
                |i: int|
                    Received {
                        data: input.app_data[i],
                        channel: Channel::Reliable(ch as usize),
                    },
            ),
            None => Seq::empty(),
        }
    }

    /// The session after one input channel has passed on its acknowledgements.
    pub open spec fn acks_flushed(self, ch: int) -> Session {
        Session {
            inputs: match self.inputs[ch] {
                Some(input) => self.inputs.update(
                    ch,
                    Some(InputState { outgoing: Seq::empty(), ..input }),
                ),
                None => self.inputs,
            },
            outgoing: self.outgoing + self.ack_frames(ch),
            ..self
        }
    }

    /// The session after one output channel has passed on its packets.
    pub open spec fn packets_flushed(self, ch: int) -> Session {
        Session {
            outputs: match self.outputs[ch] {
                Some(output) => self.outputs.update(
                    ch,
                    Some(OutputState { outgoing: Seq::empty(), ..output }),
                ),
                None => self.outputs,
            },
            outgoing: self.outgoing + self.packet_frames(ch),
            ..self
        }
    }

    /// The session after one input channel has passed on its application data.
    pub open spec fn data_flushed(self, ch: int) -> Session {
        Session {
            inputs: match self.inputs[ch] {
                Some(input) => self.inputs.update(
                    ch,
                    Some(InputState { app_data: Seq::empty(), ..input }),
                ),
                None => self.inputs,
            },
            received: self.received + self.channel_data(ch),
            ..self
        }
    }

    /// The session after one channel has passed on what it holds.
    pub open spec fn channel_flushed(self, ch: int) -> Session {
        self.acks_flushed(ch).packets_flushed(ch).data_flushed(ch)
    }

    /// The session after the first `n` channels have passed on what they hold.
    pub open spec fn flushed_up_to(self, n: nat) -> Session
        decreases n,
    {
        if n == 0 {
            self
        } else {
            self.flushed_up_to((n - 1) as nat).channel_flushed(n - 1)
        }
    }

    /// The session after all channels have passed on what they hold.
    #[verifier::opaque]
    pub open spec fn flushed(self) -> Session {
        self.flushed_up_to(RELIABLE_CHANNEL_COUNT as nat)
    }

    /// The session after a tick of the first `n` output channels.
    pub open spec fn outputs_ticked(self, now: nat, n: nat) -> Session {
        Session {
            outputs: Seq::new(
                self.outputs.len(),
                |i: int|
                    if i < n {
                        match self.outputs[i] {
                            Some(output) => Some(output.ticked(now)),
                            None => None,
                        }
                    } else {
                        self.outputs[i]
                    },
            ),
            ..self
        }
    }

    /// The session after a tick of the first `n` input channels.
    pub open spec fn inputs_ticked(self, now: nat, n: nat) -> Session {
        Session {
            inputs: Seq::new(
                self.inputs.len(),
                |i: int|
                    if i < n {
                        match self.inputs[i] {
                            Some(input) => Some(input.ticked(now)),
                            None => None,
                        }
                    } else {
                        self.inputs[i]
                    },
            ),
            ..self
        }
    }

    /// The datagram that tells the remote that the session ends.
    pub open spec fn disconnect_frame(self, reason: DisconnectReason) -> Seq<u8> {
        self.params.frame(
            op_code_value(OpCode::Disconnect),
            concat((Disconnect { session_id: self.session_id, reason }).wire()),
        )
    }

    /// The session after it has been terminated: what can be sent is sent, and the remote
    /// is told if it is to be told and the session was running.
    #[verifier::opaque]
    pub open spec fn terminated(
        self,
        reason: DisconnectReason,
        notify_remote: bool,
        by_remote: bool,
        now: nat,
    ) -> Session {
        if self.state is Terminated {
            self
        } else {
            let flushed = self.outputs_ticked(now, RELIABLE_CHANNEL_COUNT as nat).flushed();
            let told = if notify_remote && self.state is Running {
                flushed.sending(flushed.disconnect_frame(reason))
            } else {
                flushed
            };
            (Session {
                termination_reason: reason,
                state: SessionState::Terminated,
                terminated_by_remote: by_remote,
                ..told
            }).with_event(SessionEvent::Closed(reason))
        }
    }

    /// That the session can be terminated: what is sent on that occasion, if anything,
    /// can be framed.
    pub open spec fn can_terminate(self, notify_remote: bool, now: nat) -> bool {
        ||| self.state is Terminated
        ||| self.params.crc_length <= 4
        ||| self.outputs_ticked(now, RELIABLE_CHANNEL_COUNT as nat).settled() && !(
        notify_remote && self.state is Running)
    }

    /// The session after something corrupt has been received.
    pub open spec fn corrupted(self, now: nat) -> Session {
        self.terminated(DisconnectReason::CorruptPacket, true, false, now)
    }

    /// The session after a session request (without its OP code) has been received.
    #[verifier::opaque]
    pub open spec fn request_received(self, body: Seq<u8>, now: nat) -> Session {
        if self.mode is Client {
            self.terminated(DisconnectReason::ConnectingToSelf, false, false, now)
        } else {
            match SessionRequestFields::parsed(body, false) {
                Err(_) => self.corrupted(now),
                Ok(request) => {
                    let known = Session {
                        params: Params {
                            remote_udp_length: request.udp_length,
                            ..self.params
                        },
                        session_id: request.session_id,
                        ..self
                    };
                    if self.state !is Negotiating {
                        known.terminated(DisconnectReason::ConnectError, true, false, now)
                    } else if request.soe_protocol_version != SOE_PROTOCOL_VERSION
                        || request.application_protocol != self.params.application_protocol {
                        known.terminated(DisconnectReason::ProtocolMismatch, true, false, now)
                    } else {
                        known.accepted()
                    }
                },
            }
        }
    }

    /// The session after a session request has been accepted.
    pub open spec fn accepted(self) -> Session {
        let rng = rng_next(self.rng);
        let params = Params {
            crc_length: CRC_LENGTH,
            crc_seed: rng_value(rng),
            ..self.params
        };
        let response = SessionResponse {
            session_id: self.session_id,
            crc_seed: params.crc_seed,
            crc_length: params.crc_length,
            is_compression_enabled: params.is_compression_enabled,
            unknown_value_1: 0,
            udp_length: params.udp_length,
            soe_protocol_version: SOE_PROTOCOL_VERSION,
        };
        (Session {
            rng,
            params,
            state: SessionState::Running,
            open_session_on_next_packet: true,
            ..self
        }).sending(concat(response.wire()))
    }

    /// The session after a session response (without its OP code) has been received.
    #[verifier::opaque]
    pub open spec fn response_received(self, body: Seq<u8>, now: nat) -> Session {
        if self.mode is Server {
            self.terminated(DisconnectReason::ConnectingToSelf, false, false, now)
        } else {
            match SessionResponse::parsed(body, false) {
                Err(_) => self.corrupted(now),
                Ok(response) => if self.state !is Negotiating {
                    self.terminated(DisconnectReason::ConnectError, true, false, now)
                } else if response.soe_protocol_version != SOE_PROTOCOL_VERSION {
                    self.terminated(DisconnectReason::ProtocolMismatch, true, false, now)
                } else {
                    (Session {
                        params: Params {
                            remote_udp_length: response.udp_length,
                            crc_length: response.crc_length,
                            crc_seed: response.crc_seed,
                            is_compression_enabled: response.is_compression_enabled,
                            ..self.params
                        },
                        session_id: response.session_id,
                        state: SessionState::Running,
                        ..self
                    }).with_event(SessionEvent::Opened)
                },
            }
        }
    }

    /// The session after a contextless packet (without its OP code) has been received.
    #[verifier::opaque]
    pub open spec fn contextless_received(self, op: OpCode, body: Seq<u8>, now: nat) -> Session {
        match op {
            OpCode::SessionRequest => self.request_received(body, now),
            OpCode::SessionResponse => self.response_received(body, now),
            OpCode::UnknownSender => self.terminated(
                DisconnectReason::UnreachableConnection,
                false,
                false,
                now,
            ),
            _ => self,
        }
    }

    /// The session after a reliable packet has been received on a channel.
    pub open spec fn data_received(
        self,
        ch: int,
        body: Seq<u8>,
        is_fragment: bool,
        now: nat,
    ) -> Session {
        let (input, ok) = self.input_at(ch, now).received(body, is_fragment, now);
        let after = self.with_input(ch, input);
        if ok {
            after
        } else {
            after.corrupted(now)
        }
    }

    /// The session after the body of a contextual packet has been received. An
    /// acknowledgement on a channel that has not been used, and cannot be because the remote
    /// receives no packet that has room for anything, is ignored.
    #[verifier::opaque]
    pub open spec fn contextual_received(
        self,
        op: OpCode,
        ch: int,
        body: Seq<u8>,
        now: nat,
    ) -> Session
        decreases body.len(), 1int,
    {
        match op {
            OpCode::MultiPacket => self.bundle_received(body, now),
            OpCode::Disconnect => match Disconnect::parsed(body) {
                Ok(disconnect) => self.terminated(disconnect.reason, false, true, now),
                Err(_) => self,
            },
            OpCode::Heartbeat => if self.mode is Server {
                self.sending(
                    self.params.frame(op_code_value(OpCode::Heartbeat), Seq::empty()),
                )
            } else {
                self
            },
            OpCode::ReliableData => self.data_received(ch, body, false, now),
            OpCode::ReliableDataFragment => self.data_received(ch, body, true, now),
            OpCode::Acknowledge => match Acknowledge::parsed(body) {
                Ok(ack) if self.has_output(ch) => self.with_output(
                    ch,
                    self.output_at(ch).acknowledged(ack.sequence, now),
                ),
                _ => self,
            },
            OpCode::AcknowledgeAll => match AcknowledgeAll::parsed(body) {
                Ok(ack) if self.has_output(ch) => self.with_output(
                    ch,
                    self.output_at(ch).acknowledged_all(ack.sequence, now),
                ),
                _ => self,
            },
            _ => self,
        }
    }

    /// The session after the packets of a bundle have been received, one after the other,
    /// up to one that terminates the session.
    #[verifier::opaque]
    pub open spec fn bundle_received(self, rest: Seq<u8>, now: nat) -> Session
        decreases rest.len(), 0int,
    {
        if rest.len() == 0 {
            self
        } else {
            match bundle_entry(rest) {
                None => self.corrupted(now),
                Some(entry) => {
                    let after = self.contextual_received(
                        entry.op,
                        entry.channel,
                        entry.body,
                        now,
                    );
                    if after.state is Terminated {
                        after
                    } else {
                        after.bundle_received(rest.skip(entry.size), now)
                    }
                },
            }
        }
    }

    /// The session after a contextual packet (without OP code and check value) has been
    /// received: where packets may be compressed, a flag tells whether this one is.
    #[verifier::opaque]
    pub open spec fn wrapped_received(
        self,
        op: OpCode,
        ch: int,
        body: Seq<u8>,
        now: nat,
    ) -> Session {
        if !self.params.is_compression_enabled {
            self.contextual_received(op, ch, body, now)
        } else if body.len() == 0 {
            self
        } else if body[0] == 0 {
            self.contextual_received(op, ch, body.skip(1), now)
        } else {
            match decompressed(body.skip(1)) {
                Some(plain) => self.contextual_received(op, ch, plain, now),
                None => self.corrupted(now),
            }
        }
    }

    /// The session that counts as opened if it was about to.
    pub open spec fn opened(self) -> Session {
        if self.open_session_on_next_packet {
            (Session { open_session_on_next_packet: false, ..self }).with_event(
                SessionEvent::Opened,
            )
        } else {
            self
        }
    }

    /// The session after a datagram without a known OP code has been received, and
    /// whether it was an unreliable packet (which is dropped if its check value is
    /// wrong).
    #[verifier::opaque]
    pub open spec fn unreliable_received(self, datagram: Seq<u8>, now: nat) -> (Session, bool) {
        let n = datagram.len() - self.params.crc_length;
        let body = datagram.take(n);
        if self.state !is Running || n < 1 {
            (self, false)
        } else if self.params.checked(body) != datagram {
            (self, true)
        } else if body[0] == 0 && (body.len() < 2 || body[1] != 0) {
            (self, false)
        } else {
            let payload = if body[0] == 0 {
                body.skip(1)
            } else {
                body
            };
            let after = (Session { last_received: now, ..self }).opened();
            (
                Session {
                    received: after.received.push(
                        Received { data: payload, channel: Channel::Unreliable },
                    ),
                    ..after
                },
                true,
            )
        }
    }

    /// The session after a datagram with a valid packet of the given kind.
    #[verifier::opaque]
    pub open spec fn packet_received(self, op: OpCode, datagram: Seq<u8>, now: nat) -> Session {
        let start = Session { last_received: now, ..self.opened() };
        if contextless(op) {
            start.contextless_received(op, datagram.skip(2), now)
        } else {
            start.wrapped_received(
                op,
                channel_of(raw_op_code(datagram)),
                datagram.subrange(2, datagram.len() - self.params.crc_length),
                now,
            )
        }
    }

    /// The session after a datagram has been received.
    pub open spec fn datagram_received(self, datagram: Seq<u8>, now: nat) -> Session {
        if self.state is Terminated {
            self
        } else {
            match validated(
                datagram,
                self.params.crc_seed,
                self.params.crc_length,
                self.params.is_compression_enabled,
            ) {
                (ValidationResult::Valid, Some(op)) => self.packet_received(
                    op,
                    datagram,
                    now,
                ).flushed(),
                (ValidationResult::InvalidOpCode, _) => {
                    let (after, consumed) = self.unreliable_received(datagram, now);
                    if consumed {
                        after.flushed()
                    } else {
                        self.corrupted(now)
                    }
                },
                _ => self.corrupted(now),
            }
        }
    }

    /// That a datagram can be received: packets can be framed, and no channel holds
    /// anything that has yet to be passed on, as is the case between the calls of a
    /// session's public functions.
    pub open spec fn can_receive(self) -> bool {
        self.state is Terminated || self.params.usable() && self.settled()
    }

    /// Whether it is time to send a heartbeat.
    pub open spec fn heartbeat_due(self, now: nat) -> bool {
        &&& self.mode is Client
        &&& self.state is Running
        &&& self.params.heartbeat_after != 0
        &&& elapsed(now, self.last_received) > self.params.heartbeat_after
    }

    /// The session after a heartbeat, if it is time for one.
    pub open spec fn heartbeat_sent(self, now: nat) -> Session {
        if self.heartbeat_due(now) {
            self.sending(self.params.frame(op_code_value(OpCode::Heartbeat), Seq::empty()))
        } else {
            self
        }
    }

    /// Whether nothing has been received for longer than is tolerated.
    pub open spec fn inactive(self, now: nat) -> bool {
        &&& self.params.inactivity_timeout != 0
        &&& elapsed(now, self.last_received) > self.params.inactivity_timeout
    }

    /// The session after a tick of all channels.
    pub open spec fn channels_ticked(self, now: nat) -> Session {
        self.inputs_ticked(now, RELIABLE_CHANNEL_COUNT as nat).outputs_ticked(
            now,
            RELIABLE_CHANNEL_COUNT as nat,
        )
    }

    /// That the session can be ticked: what is sent on that occasion, if anything, can be
    /// framed.
    pub open spec fn can_tick(self, now: nat) -> bool {
        ||| self.state is Terminated
        ||| self.params.crc_length <= 4
        ||| !self.heartbeat_due(now) && if self.inactive(now) {
            self.can_terminate(false, now)
        } else {
            self.channels_ticked(now).settled()
        }
    }

    /// The session after a tick.
    pub open spec fn ticked(self, now: nat) -> Session {
        if self.state is Terminated {
            self
        } else {
            let start = self.heartbeat_sent(now);
            if self.inactive(now) {
                start.terminated(DisconnectReason::Timeout, false, false, now)
            } else {
                start.channels_ticked(now).flushed()
            }
        }
    }
}

/// One channel that passes on what it holds is settled, and the other channels and the
/// rest of the session stay as they are.
pub proof fn lemma_channel_flushed(s: Session, ch: int)
    requires
        s.wf(),
        0 <= ch < RELIABLE_CHANNEL_COUNT,
    ensures
        s.channel_flushed(ch).channel_settled(ch),
        s.channel_flushed(ch).wf(),
        forall|k: int|
            0 <= k < RELIABLE_CHANNEL_COUNT && s.channel_settled(k) ==> #[trigger]
            s.channel_flushed(ch).channel_settled(k),
        s.channel_flushed(ch) == (Session {
            inputs: s.channel_flushed(ch).inputs,
            outputs: s.channel_flushed(ch).outputs,
            outgoing: s.channel_flushed(ch).outgoing,
            received: s.channel_flushed(ch).received,
            ..s
        }),
{
}

/// Whether a session is settled depends on its channels alone.
pub proof fn lemma_same_channels(a: Session, b: Session)
    requires
        a.settled(),
        a.inputs == b.inputs,
        a.outputs == b.outputs,
    ensures
        b.settled(),
{
    assert forall|k: int| 0 <= k < RELIABLE_CHANNEL_COUNT implies #[trigger]
    b.channel_settled(k) by {
        assert(a.channel_settled(k));
    }
}

/// Passing on what the channels hold settles them all, and changes nothing but the
/// channels and the queues.
pub proof fn lemma_flushed(s: Session, n: nat)
    requires
        s.wf(),
        n <= RELIABLE_CHANNEL_COUNT,
    ensures
        s.flushed_up_to(n).wf(),
        s.flushed_up_to(n).settled_below(n as int),
        s.settled() ==> s.flushed_up_to(n).settled(),
        s.flushed_up_to(n) == (Session {
            inputs: s.flushed_up_to(n).inputs,
            outputs: s.flushed_up_to(n).outputs,
            outgoing: s.flushed_up_to(n).outgoing,
            received: s.flushed_up_to(n).received,
            ..s
        }),
    decreases n,
{
    if n > 0 {
        let before = s.flushed_up_to((n - 1) as nat);
        lemma_flushed(s, (n - 1) as nat);
        lemma_channel_flushed(before, n - 1);
        assert forall|k: int| 0 <= k < n implies #[trigger] s.flushed_up_to(n).channel_settled(
            k,
        ) by {
            if k < n - 1 {
                assert(before.channel_settled(k));
            }
        }
        if s.settled() {
            assert forall|k: int| 0 <= k < RELIABLE_CHANNEL_COUNT implies #[trigger]
            s.flushed_up_to(n).channel_settled(k) by {
                assert(before.channel_settled(k));
            }
        }
    }
}

/// A session in which no channel holds anything is left as it is.
pub proof fn lemma_flushed_settled(s: Session, n: nat)
    requires
        s.wf(),
        s.settled(),
        n <= RELIABLE_CHANNEL_COUNT,
    ensures
        s.flushed_up_to(n) == s,
    decreases n,
{
    if n > 0 {
        lemma_flushed_settled(s, (n - 1) as nat);
        assert(s.channel_settled(n - 1));
        let ch = n - 1;
        assert(s.ack_frames(ch) =~= Seq::empty());
        assert(s.acks_flushed(ch) =~= s) by {
            match s.inputs[ch] {
                Some(input) => {
                    assert(input.outgoing =~= Seq::empty());
                },
                None => {},
            }
        }
        assert(s.packet_frames(ch) =~= Seq::empty());
        assert(s.packets_flushed(ch) =~= s) by {
            match s.outputs[ch] {
                Some(output) => {
                    assert(output.outgoing =~= Seq::empty());
                },
                None => {},
            }
        }
        assert(s.channel_data(ch) =~= Seq::empty());
        assert(s.data_flushed(ch) =~= s) by {
            match s.inputs[ch] {
                Some(input) => {
                    assert(input.app_data =~= Seq::empty());
                },
                None => {},
            }
        }
    }
}

} // verus!
