//! The session handler: an I/O-agnostic state machine driving a single SOE session.
//!
//! Rather than owning a socket, the handler accepts incoming datagrams via
//! [`SoeSession::process_incoming`], surfaces datagrams to be sent via
//! [`SoeSession::take_outgoing`], and surfaces received application data via
//! [`SoeSession::take_received`]. Time is supplied by the caller as [`Instant`].
//!
//! The handler negotiates a session (contextless [`SessionRequest`]/[`SessionResponse`]
//! exchange), then dispatches contextual packets: routing reliable data to the input
//! channel, acknowledgements to the output channel, and handling heartbeats and
//! disconnects.
//!
//! Each function's contract says which mathematical state ([`model::Session`]) it makes
//! of the one before.

use vstd::prelude::*;
use vstd::utf8::encode_utf8;

use bytes::Bytes;

use crate::buffer::{
    bytes_clone, bytes_copied, bytes_from_vec, bytes_ref, bytes_slice, held, held_each,
};
use crate::channel::input::{InputConfig, InputState, ReliableDataInputChannel};
use crate::channel::output::{
    can_carry, cipher_view, outgoing_packets, OutputConfig, OutputState,
    ReliableDataOutputChannel,
};
use crate::constants::{
    CRC_LENGTH, DEFAULT_SESSION_HEARTBEAT_AFTER_SECS, DEFAULT_SESSION_INACTIVITY_TIMEOUT_SECS,
    DEFAULT_UDP_LENGTH, OP_CODE_SIZE, RELIABLE_CHANNEL_COUNT, SOE_PROTOCOL_VERSION,
};
use crate::crc32::Crc32;
use crate::io::BinaryReader;
use crate::packet_utils::{
    append_crc, crc_trailer, padding, read_op_code, reliable_channel, validate_packet,
    ValidationResult,
};
use crate::packets::{
    lemma_disconnect_wire, lemma_session_request_wire, lemma_session_response_wire,
    Acknowledge, AcknowledgeAll, Disconnect, SessionRequest, SessionResponse,
};
use crate::protocol::{contextless, DisconnectReason, OpCode};
use crate::rc4::Rc4KeyState;
use crate::time::{Duration, Instant};
use crate::varint::multi_packet;
use crate::wire::{be_bytes, lemma_be_bytes_len, lemma_be_two, lemma_write_fields_exact, splice};
use crate::zlib;

use model::{
    bundle_entry, default_params, escaped, new_session, rng_next, rng_seeded, rng_value,
    Params, Received, Session,
};

pub mod conduct_laws;
pub mod handshake_laws;
pub mod laws;
pub mod model;

verus! {

/// The mode a [`SoeSession`] operates in.
#[derive(Debug, Clone, Copy, PartialEq, Eq, Structural)]
pub enum SessionMode {
    /// The handler initiates the session (sends the [`SessionRequest`]).
    Client,
    /// The handler accepts a session (responds to a [`SessionRequest`]).
    Server,
}

/// The lifecycle state of a [`SoeSession`].
#[derive(Debug, Clone, Copy, PartialEq, Eq, Structural)]
pub enum SessionState {
    /// The session is being negotiated.
    Negotiating,
    /// The session is established and exchanging data.
    Running,
    /// The session has terminated.
    Terminated,
}

/// An event surfaced by a [`SoeSession`].
#[derive(Debug, Clone, Copy, PartialEq, Eq, Structural)]
pub enum SessionEvent {
    /// The session has been established and is ready to exchange data.
    Opened,
    /// The session has terminated for the given reason.
    Closed(DisconnectReason),
}

/// The channel a unit of application data is sent on (or was received on).
///
/// SOE multiplexes application data over several kinds of channel: up to
/// `RELIABLE_CHANNEL_COUNT` independent ordered, lossless **reliable** channels (each
/// acknowledged and retransmitted, with its own sequence space and cipher stream), and a
/// single best-effort **unreliable** channel (sent once, never acked, may be dropped or
/// reordered). The reliable channel index lets callers fan independent reliable streams
/// across the four channels.
#[derive(Debug, Clone, Copy, PartialEq, Eq, Structural)]
pub enum Channel {
    /// Ordered, acknowledged, retransmitted delivery on the reliable channel with the
    /// given index. Each channel has its own independent sequence space and cipher
    /// stream. The index must be `< RELIABLE_CHANNEL_COUNT`; data on an out-of-range
    /// channel is dropped. RC4-encrypted if a cipher is configured.
    Reliable(usize),
    /// Best-effort delivery: sent once, never acknowledged, may be lost or reordered
    /// (the SOE unreliable channel). Application data is **not** RC4-encrypted on this
    /// channel, since a continuous stream cipher cannot tolerate loss or reordering.
    Unreliable,
}

/// A unit of application data received from the remote, tagged with the channel it
/// arrived on.
#[derive(Debug, PartialEq, Eq)]
pub struct ReceivedData {
    /// The received application data.
    pub data: Bytes,
    /// Which channel the data arrived on.
    pub channel: Channel,
}

impl View for ReceivedData {
    type V = Received;

    open spec fn view(&self) -> Received {
        Received { data: held(self.data), channel: self.channel }
    }
}

impl Clone for ReceivedData {
    fn clone(&self) -> (copy: Self)
        ensures
            copy@ == self@,
    {
        Self { data: bytes_clone(&self.data), channel: self.channel }
    }
}

/// What each of a list of [`ReceivedData`] holds.
pub open spec fn received_each(list: Seq<ReceivedData>) -> Seq<Received> {
    Seq::new(list.len(), |i: int| list[i]@)
}

/// Parameters controlling a session. Mutated during negotiation as the two parties agree
/// on connection details.
#[derive(Debug)]
pub struct SessionParameters {
    /// The application protocol being proxied (must match between the two parties).
    pub application_protocol: String,
    /// The maximum UDP payload length this party can receive.
    pub udp_length: u32,
    /// The maximum UDP payload length the remote party can receive.
    pub remote_udp_length: u32,
    /// The seed used to compute packet CRCs (agreed during negotiation).
    pub crc_seed: u32,
    /// The number of bytes used to store a packet CRC (0..=4).
    pub crc_length: u8,
    /// Whether contextual packets may be compressed.
    pub is_compression_enabled: bool,
    /// The maximum number of incoming reliable data packets that may be queued.
    pub max_queued_incoming_reliable: u16,
    /// The maximum number of outgoing reliable data packets in flight at once.
    pub max_queued_outgoing_reliable: u16,
    /// The acknowledgement window used by the input channel.
    pub data_ack_window: u16,
    /// The interval after which to send a heartbeat (client only). Zero disables.
    pub heartbeat_after: Duration,
    /// The interval after which to terminate an inactive session. Zero disables.
    pub inactivity_timeout: Duration,
    /// Whether every incoming reliable data packet is acknowledged individually.
    pub acknowledge_all_data: bool,
    /// The maximum delay before acknowledging incoming reliable data sequences.
    pub max_ack_delay: Duration,
}

impl View for SessionParameters {
    type V = Params;

    open spec fn view(&self) -> Params {
        Params {
            application_protocol: self.application_protocol@,
            udp_length: self.udp_length,
            remote_udp_length: self.remote_udp_length,
            crc_seed: self.crc_seed,
            crc_length: self.crc_length,
            is_compression_enabled: self.is_compression_enabled,
            max_queued_incoming_reliable: self.max_queued_incoming_reliable,
            max_queued_outgoing_reliable: self.max_queued_outgoing_reliable,
            data_ack_window: self.data_ack_window,
            heartbeat_after: self.heartbeat_after@,
            inactivity_timeout: self.inactivity_timeout@,
            acknowledge_all_data: self.acknowledge_all_data,
            max_ack_delay: self.max_ack_delay@,
        }
    }
}

impl Clone for SessionParameters {
    fn clone(&self) -> (copy: Self)
        ensures
            copy@ == self@,
    {
        Self {
            application_protocol: self.application_protocol.clone(),
            udp_length: self.udp_length,
            remote_udp_length: self.remote_udp_length,
            crc_seed: self.crc_seed,
            crc_length: self.crc_length,
            is_compression_enabled: self.is_compression_enabled,
            max_queued_incoming_reliable: self.max_queued_incoming_reliable,
            max_queued_outgoing_reliable: self.max_queued_outgoing_reliable,
            data_ack_window: self.data_ack_window,
            heartbeat_after: self.heartbeat_after,
            inactivity_timeout: self.inactivity_timeout,
            acknowledge_all_data: self.acknowledge_all_data,
            max_ack_delay: self.max_ack_delay,
        }
    }
}

impl Default for SessionParameters {
    fn default() -> (params: Self)
        ensures
            params@ == default_params(),
    {
        Self {
            application_protocol: String::new(),
            udp_length: DEFAULT_UDP_LENGTH,
            remote_udp_length: DEFAULT_UDP_LENGTH,
            crc_seed: 0,
            crc_length: CRC_LENGTH,
            is_compression_enabled: false,
            max_queued_incoming_reliable: 256,
            max_queued_outgoing_reliable: 196,
            data_ack_window: 32,
            heartbeat_after: Duration::from_secs(DEFAULT_SESSION_HEARTBEAT_AFTER_SECS),
            inactivity_timeout: Duration::from_secs(DEFAULT_SESSION_INACTIVITY_TIMEOUT_SECS),
            acknowledge_all_data: false,
            max_ack_delay: Duration::from_millis(2),
        }
    }
}

/// Application-level parameters: the optional encryption key state.
pub struct ApplicationParameters {
    /// The RC4 key state used to (en/de)crypt application data, if encryption is enabled.
    pub encryption_key_state: Option<Rc4KeyState>,
}

fn clone_cipher(cipher: &Option<Rc4KeyState>) -> (copy: Option<Rc4KeyState>)
    ensures
        cipher_view(copy) == cipher_view(*cipher),
{
    match cipher {
        Some(state) => Some(state.clone()),
        None => None,
    }
}

impl Clone for ApplicationParameters {
    fn clone(&self) -> (copy: Self)
        ensures
            cipher_view(copy.encryption_key_state) == cipher_view(self.encryption_key_state),
    {
        Self { encryption_key_state: clone_cipher(&self.encryption_key_state) }
    }
}

impl Default for ApplicationParameters {
    fn default() -> (app: Self)
        ensures
            app.encryption_key_state is None,
    {
        Self { encryption_key_state: None }
    }
}

/// A small linear-congruential generator used to produce session IDs and CRC seeds.
#[derive(Debug)]
struct Lcg {
    state: u64,
}

impl Lcg {
    fn new(seed: u64) -> (rng: Self)
        ensures
            rng.state == rng_seeded(seed),
    {
        Self { state: seed ^ 0x9E37_79B9_7F4A_7C15 }
    }

    fn next_u32(&mut self) -> (value: u32)
        ensures
            final(self).state == rng_next(old(self).state),
            value == rng_value(final(self).state),
    {
        self.state = self.state.wrapping_mul(6_364_136_223_846_793_005).wrapping_add(
            1_442_695_040_888_963_407,
        );
        (self.state >> 32) as u32
    }
}

/// A packet in a bundle.
struct NextInBundle {
    op: OpCode,
    channel: usize,
    body: Bytes,
    /// The position behind the packet.
    end: usize,
}

/// The packet that begins, with its length, at `offset` in a bundle, unless that is
/// malformed.
fn next_in_bundle(bundle: &Bytes, offset: usize) -> (next: Option<NextInBundle>)
    requires
        offset < held(*bundle).len(),
    ensures
        match bundle_entry(held(*bundle).skip(offset as int)) {
            None => next is None,
            Some(entry) => {
                &&& next matches Some(next)
                &&& next.op == entry.op
                &&& next.channel == entry.channel
                &&& next.channel < RELIABLE_CHANNEL_COUNT
                &&& held(next.body) == entry.body
                &&& held(next.body).len() < held(*bundle).len()
                &&& next.end == offset + entry.size
                &&& offset < next.end <= held(*bundle).len()
            },
        },
{
    let ghost rest = held(*bundle).skip(offset as int);
    let bytes = bytes_ref(bundle);
    let mut reader = BinaryReader::new(&bytes[offset..bytes.len()]);
    assert(reader.rest() =~= rest);
    let packet_len: usize = match multi_packet::read(&mut reader) {
        Ok(n) => n as usize,
        Err(_) => {
            return None;
        },
    };
    // Advance past the length varint by however many bytes it used.
    let start: usize = offset + reader.offset();
    if packet_len < OP_CODE_SIZE || packet_len > bytes.len() - start {
        return None;
    }
    let end: usize = start + packet_len;
    let packet = &bytes[start..end];
    let ghost at = multi_packet::decoded(rest).1;
    assert(packet@ =~= rest.subrange(at, at + packet_len));
    let op = match read_op_code(packet) {
        Some(op) => op,
        None => {
            return None;
        },
    };
    let raw: u16 = packet[0] as u16 * 256 + packet[1] as u16;
    let channel: usize = reliable_channel(raw);
    let body = bytes_slice(bundle, start + OP_CODE_SIZE, end);
    assert(held(body) =~= packet@.skip(2));
    Some(NextInBundle { op, channel, body, end })
}

/// An I/O-agnostic handler for a single SOE protocol session.
pub struct SoeSession {
    mode: SessionMode,
    state: SessionState,
    params: SessionParameters,
    /// Per-channel reliable input/output, created lazily on first use. `cipher` is the
    /// pristine initial RC4 key state, cloned into each channel as it is created so every
    /// channel runs an independent stream seeded from the same key.
    inputs: [Option<ReliableDataInputChannel>; RELIABLE_CHANNEL_COUNT],
    outputs: [Option<ReliableDataOutputChannel>; RELIABLE_CHANNEL_COUNT],
    cipher: Option<Rc4KeyState>,
    session_id: u32,
    termination_reason: DisconnectReason,
    terminated_by_remote: bool,
    open_session_on_next_packet: bool,
    last_received: Instant,
    rng: Lcg,
    outgoing: Vec<Bytes>,
    received: Vec<ReceivedData>,
    events: Vec<SessionEvent>,
}

spec fn input_view(input: Option<ReliableDataInputChannel>) -> Option<InputState> {
    match input {
        Some(input) => Some(input@),
        None => None,
    }
}

spec fn output_view(output: Option<ReliableDataOutputChannel>) -> Option<OutputState> {
    match output {
        Some(output) => Some(output@),
        None => None,
    }
}

impl View for SoeSession {
    type V = Session;

    closed spec fn view(&self) -> Session {
        Session {
            mode: self.mode,
            state: self.state,
            params: self.params@,
            inputs: Seq::new(
                RELIABLE_CHANNEL_COUNT as nat,
                |i: int| input_view(self.inputs@[i]),
            ),
            outputs: Seq::new(
                RELIABLE_CHANNEL_COUNT as nat,
                |i: int| output_view(self.outputs@[i]),
            ),
            cipher: cipher_view(self.cipher),
            session_id: self.session_id,
            termination_reason: self.termination_reason,
            terminated_by_remote: self.terminated_by_remote,
            open_session_on_next_packet: self.open_session_on_next_packet,
            last_received: self.last_received@,
            rng: self.rng.state,
            outgoing: held_each(self.outgoing@),
            received: received_each(self.received@),
            events: self.events@,
        }
    }
}

impl SoeSession {
    /// Creates a new session handler in the [`SessionState::Negotiating`] state.
    ///
    /// `rng_seed` seeds the generator used for the session ID (client) and CRC seed
    /// (server); pass a fixed value for deterministic behaviour, or entropy for real
    /// sessions.
    pub fn new(
        mode: SessionMode,
        params: SessionParameters,
        app: ApplicationParameters,
        rng_seed: u64,
        now: Instant,
    ) -> (session: Self)
        ensures
            session@.wf(),
            session@ == new_session(
                mode,
                params@,
                cipher_view(app.encryption_key_state),
                rng_seed,
                now@,
            ),
            session@.settled(),
    {
        let session = Self {
            mode,
            state: SessionState::Negotiating,
            params,
            inputs: [None, None, None, None],
            outputs: [None, None, None, None],
            cipher: app.encryption_key_state,
            session_id: 0,
            termination_reason: DisconnectReason::NoReason,
            terminated_by_remote: false,
            open_session_on_next_packet: false,
            last_received: now,
            rng: Lcg::new(rng_seed),
            outgoing: Vec::new(),
            received: Vec::new(),
            events: Vec::new(),
        };
        assert(session@ =~= new_session(
            mode,
            params@,
            cipher_view(app.encryption_key_state),
            rng_seed,
            now@,
        ));
        session
    }

    /// Returns the current session state.
    pub fn state(&self) -> (state: SessionState)
        ensures
            state == self@.state,
    {
        self.state
    }

    /// Returns the session mode.
    pub fn mode(&self) -> (mode: SessionMode)
        ensures
            mode == self@.mode,
    {
        self.mode
    }

    /// Returns the negotiated session ID.
    pub fn session_id(&self) -> (id: u32)
        ensures
            id == self@.session_id,
    {
        self.session_id
    }

    /// Returns the negotiated CRC seed (meaningful once running).
    pub fn crc_seed(&self) -> (seed: u32)
        ensures
            seed == self@.params.crc_seed,
    {
        self.params.crc_seed
    }

    /// Returns whether packets can be framed with the negotiated parameters: whether the
    /// CRC length is at most 4. A remote that negotiates anything else leaves a session that
    /// cannot be used further.
    pub fn is_usable(&self) -> (usable: bool)
        ensures
            usable == self@.params.usable(),
    {
        self.params.crc_length <= 4
    }

    /// Returns whether a packet that the remote can receive has room for what stands around
    /// its body.
    fn has_room(&self) -> (room: bool)
        ensures
            room == self@.params.has_room(),
    {
        let flag: u32 = if self.params.is_compression_enabled {
            1
        } else {
            0
        };
        self.params.remote_udp_length >= 2 + flag + self.params.crc_length as u32
    }

    /// Returns the reason the session terminated (meaningful once terminated).
    pub fn termination_reason(&self) -> (reason: DisconnectReason)
        ensures
            reason == self@.termination_reason,
    {
        self.termination_reason
    }

    /// Returns whether the termination was initiated by the remote party.
    pub fn terminated_by_remote(&self) -> (by_remote: bool)
        ensures
            by_remote == self@.terminated_by_remote,
    {
        self.terminated_by_remote
    }

    /// Drains datagrams that the caller should send to the remote.
    pub fn take_outgoing(&mut self) -> (datagrams: Vec<Bytes>)
        ensures
            final(self)@.wf(),
            held_each(datagrams@) == old(self)@.outgoing,
            final(self)@ == (Session { outgoing: Seq::empty(), ..old(self)@ }),
    {
        let mut datagrams: Vec<Bytes> = Vec::new();
        std::mem::swap(&mut datagrams, &mut self.outgoing);
        assert(self@ =~= (Session { outgoing: Seq::empty(), ..old(self)@ }));
        datagrams
    }

    /// Drains application data received from the remote, each tagged with the channel
    /// (reliable or unreliable) it arrived on.
    pub fn take_received(&mut self) -> (data: Vec<ReceivedData>)
        ensures
            final(self)@.wf(),
            received_each(data@) == old(self)@.received,
            final(self)@ == (Session { received: Seq::empty(), ..old(self)@ }),
    {
        let mut data: Vec<ReceivedData> = Vec::new();
        std::mem::swap(&mut data, &mut self.received);
        assert(self@ =~= (Session { received: Seq::empty(), ..old(self)@ }));
        data
    }

    /// Drains session lifecycle events.
    pub fn take_events(&mut self) -> (events: Vec<SessionEvent>)
        ensures
            final(self)@.wf(),
            events@ == old(self)@.events,
            final(self)@ == (Session { events: Seq::empty(), ..old(self)@ }),
    {
        let mut events: Vec<SessionEvent> = Vec::new();
        std::mem::swap(&mut events, &mut self.events);
        assert(self@ =~= (Session { events: Seq::empty(), ..old(self)@ }));
        events
    }

    /// Returns the maximum length of a reliable packet's payload: the maximum UDP payload
    /// length that the remote can receive, less what stands around the payload.
    fn max_data_length(params: &SessionParameters) -> (n: usize)
        requires
            params@.has_room(),
        ensures
            n == params.remote_udp_length - padding(
                params.is_compression_enabled,
                params.crc_length,
            ),
    {
        let flag: usize = if params.is_compression_enabled {
            1
        } else {
            0
        };
        params.remote_udp_length as usize - OP_CODE_SIZE - flag - params.crc_length as usize
    }

    /// Returns a mutable reference to the reliable input channel `ch`, creating it (with
    /// a fresh clone of the initial cipher) on first use. Reliable channels are only
    /// created once the session is running, so the parameters are fully negotiated by the
    /// time a channel is built.
    pub fn input_channel(&mut self, ch: usize, now: Instant) -> (input:
        &mut ReliableDataInputChannel)
        requires
            ch < RELIABLE_CHANNEL_COUNT,
        ensures
            input@ == old(self)@.input_at(ch as int, now@),
            final(self)@ == old(self)@.with_input(ch as int, final(input)@),
    {
        if self.inputs[ch].is_none() {
            let config = InputConfig {
                max_queued_incoming: self.params.max_queued_incoming_reliable,
                acknowledge_all_data: self.params.acknowledge_all_data,
                data_ack_window: self.params.data_ack_window,
                max_ack_delay: self.params.max_ack_delay,
            };
            self.inputs[ch] = Some(
                ReliableDataInputChannel::new(config, clone_cipher(&self.cipher), now),
            );
        }
        self.inputs[ch].as_mut().unwrap()
    }

    /// Returns a mutable reference to the reliable output channel `ch`, creating it (with
    /// a fresh clone of the initial cipher) on first use.
    fn output_channel(&mut self, ch: usize, now: Instant) -> (output:
        &mut ReliableDataOutputChannel)
        requires
            ch < RELIABLE_CHANNEL_COUNT,
            old(self)@.has_output(ch as int),
        ensures
            output@ == old(self)@.output_at(ch as int),
            final(self)@ == old(self)@.with_output(ch as int, final(output)@),
    {
        if self.outputs[ch].is_none() {
            let config = OutputConfig {
                max_data_length: Self::max_data_length(&self.params),
                max_queued_outgoing: self.params.max_queued_outgoing_reliable as usize,
                ack_wait: Duration::from_millis(500),
            };
            self.outputs[ch] = Some(
                ReliableDataOutputChannel::new(config, clone_cipher(&self.cipher), now),
            );
        }
        self.outputs[ch].as_mut().unwrap()
    }

    /// Returns whether the reliable output channel `ch` is there or can be made.
    fn has_output(&self, ch: usize) -> (found: bool)
        requires
            ch < RELIABLE_CHANNEL_COUNT,
        ensures
            found == self@.has_output(ch as int),
    {
        self.outputs[ch].is_some() || self.has_room()
    }

    fn send(&mut self, datagram: Bytes)
        ensures
            final(self)@ == old(self)@.sending(held(datagram)),
    {
        self.outgoing.push(datagram);
        assert(self@.outgoing =~= old(self)@.outgoing.push(held(datagram)));
        assert(self@ =~= old(self)@.sending(held(datagram)));
    }

    fn raise(&mut self, event: SessionEvent)
        ensures
            final(self)@ == old(self)@.with_event(event),
    {
        self.events.push(event);
        assert(self@ =~= old(self)@.with_event(event));
    }

    /// Sends a [`SessionRequest`] to begin negotiation. Only valid in client mode while
    /// negotiating.
    pub fn send_session_request(&mut self)
        requires
            encode_utf8(old(self)@.params.application_protocol).len() + 15 <= usize::MAX,
        ensures
            final(self)@.wf(),
            final(self)@ == old(self)@.requested(),
    {
        if self.state != SessionState::Negotiating || self.mode != SessionMode::Client {
            return;
        }
        let id: u32 = self.rng.next_u32();
        self.session_id = id;
        let request = SessionRequest {
            soe_protocol_version: SOE_PROTOCOL_VERSION,
            session_id: id,
            udp_length: self.params.udp_length,
            application_protocol: self.params.application_protocol.clone(),
        };
        let mut buf: Vec<u8> = vec![0u8; request.size()];
        proof {
            lemma_session_request_wire(request@);
            lemma_write_fields_exact(buf@, request@.wire());
        }
        let _ = request.serialize(buf.as_mut_slice());
        assert(self@ =~= (Session {
            rng: rng_next(old(self)@.rng),
            session_id: id,
            ..old(self)@
        }));
        self.send(bytes_from_vec(buf));
    }

    /// Appends the check value to a packet, which is complete but for that.
    fn with_crc(&self, buf: Vec<u8>) -> (datagram: Bytes)
        requires
            self@.params.crc_length <= 4,
        ensures
            held(datagram) == self@.params.checked(buf@),
    {
        let mut buf: Vec<u8> = buf;
        let ghost data = buf@;
        let written: usize = buf.len();
        let mut i: u8 = 0;
        while i < self.params.crc_length
            invariant
                i <= self.params.crc_length,
                buf@.len() == data.len() + i,
                buf@.subrange(0, data.len() as int) =~= data,
            decreases self.params.crc_length - i,
        {
            buf.push(0);
            i = i + 1;
        }
        let crc = Crc32::new(self.params.crc_seed);
        let ghost room = buf@;
        assert(written + i == buf.len());
        let _ = append_crc(buf.as_mut_slice(), written, &crc, self.params.crc_length);
        proof {
            let trailer = crc_trailer(self.params.crc_seed, data, i as nat);
            lemma_be_bytes_len(
                crate::crc32::crc_of(self.params.crc_seed, data) as nat,
                i as nat,
            );
            if i == 0 {
                assert(buf@ =~= data + trailer);
            } else {
                assert(splice(room, written as int, trailer) =~= data + trailer);
            }
        }
        bytes_from_vec(buf)
    }

    /// Frames an unreliable packet: the raw payload (zero-escaped if it begins with a
    /// `0x00` byte) followed by the CRC. Unreliable data carries no OP code, sequence,
    /// compression flag or encryption.
    fn frame_unreliable(&self, payload: &[u8]) -> (datagram: Bytes)
        requires
            payload@.len() > 0,
            self@.params.crc_length <= 4,
        ensures
            held(datagram) == self@.params.frame_unreliable(payload@),
    {
        let mut buf: Vec<u8> = Vec::new();
        if payload[0] == 0 {
            buf.push(0);
        }
        buf.extend_from_slice(payload);
        assert(buf@ =~= escaped(payload@));
        self.with_crc(buf)
    }

    /// Frames a contextual packet: OP code, optional compression flag, payload, and CRC.
    fn frame_contextual(&self, op: OpCode, payload: &[u8]) -> (datagram: Bytes)
        requires
            self@.params.crc_length <= 4,
        ensures
            held(datagram) == self@.params.frame(
                crate::protocol::op_code_value(op),
                payload@,
            ),
    {
        self.frame_contextual_raw(op.as_u16(), payload)
    }

    /// Frames a contextual packet from a raw 16-bit opcode. Used by the per-channel flush
    /// path, where the wire opcode is the base kind plus the channel index and so cannot
    /// be expressed as a single [`OpCode`] variant.
    fn frame_contextual_raw(&self, raw_op: u16, payload: &[u8]) -> (datagram: Bytes)
        requires
            self@.params.crc_length <= 4,
        ensures
            held(datagram) == self@.params.frame(raw_op, payload@),
    {
        let mut buf: Vec<u8> = Vec::new();
        buf.push((raw_op / 256) as u8);
        buf.push((raw_op % 256) as u8);
        if self.params.is_compression_enabled {
            buf.push(0);
        }
        buf.extend_from_slice(payload);
        proof {
            lemma_be_two(raw_op as nat);
            assert(buf@ =~= self@.params.unchecked_frame(raw_op, payload@));
        }
        self.with_crc(buf)
    }

    /// Returns whether `data` fits into one unreliable packet that the remote can receive.
    fn fits_unreliable(&self, data: &[u8]) -> (fits: bool)
        requires
            data@.len() > 0,
        ensures
            fits == self@.fits_unreliable(data@),
    {
        // A raw unreliable packet carries no sequence; the escape byte (if any) and the CRC
        // are the only framing overhead.
        let overhead: u64 = (if data[0] == 0 {
            1u64
        } else {
            0u64
        }) + self.params.crc_length as u64;
        let limit: u64 = self.params.remote_udp_length as u64;
        overhead <= limit && data.len() as u64 <= limit - overhead
    }

    /// Returns whether `data` can be enqueued on `channel`: a running session must not be
    /// given data that it cannot split into packets that the remote can receive.
    pub fn has_room_for(&self, data: &[u8], channel: Channel) -> (room: bool)
        ensures
            room == self@.can_enqueue(data@, channel),
    {
        if self.state != SessionState::Running {
            return true;
        }
        let ch: usize = match channel {
            Channel::Reliable(ch) => {
                if ch >= RELIABLE_CHANNEL_COUNT {
                    return true;
                }
                ch
            },
            Channel::Unreliable => {
                if data.len() == 0 {
                    return true;
                }
                if self.fits_unreliable(data) {
                    return self.params.crc_length <= 4;
                }
                0
            },
        };
        match &self.outputs[ch] {
            Some(output) => output.can_enqueue(data),
            None => self.has_room() && can_carry(
                Self::max_data_length(&self.params),
                &self.cipher,
                data,
            ),
        }
    }

    /// Enqueues application data to be sent reliably. Returns `false` if the session is
    /// not running.
    #[must_use]
    pub fn enqueue_data(&mut self, data: &[u8]) -> (accepted: bool)
        requires
            old(self)@.can_enqueue(data@, Channel::Reliable(0)),
        ensures
            final(self)@.wf(),
            (final(self)@, accepted) == old(self)@.enqueued(data@, Channel::Reliable(0)),
            old(self)@.settled() ==> final(self)@.settled(),
    {
        self.enqueue_data_on(data, Channel::Reliable(0))
    }

    /// Enqueues application data to be sent on the given channel. Returns `false` if the
    /// session is not running, or if a [`Channel::Reliable`] index is out of range
    /// (`>= RELIABLE_CHANNEL_COUNT`); in both cases the data is dropped.
    ///
    /// [`Channel::Reliable`] data is sequenced, acknowledged and retransmitted (and
    /// RC4-encrypted if a cipher is configured), independently per channel index.
    /// [`Channel::Unreliable`] data is sent once as a raw SOE packet (no sequence, no
    /// acknowledgement, no encryption) and zero-escaped if it begins with a `0x00` byte.
    /// Unreliable data that would exceed the remote's maximum UDP payload is transparently
    /// promoted to reliable channel 0.
    #[must_use]
    pub fn enqueue_data_on(&mut self, data: &[u8], channel: Channel) -> (accepted: bool)
        requires
            old(self)@.can_enqueue(data@, channel),
        ensures
            final(self)@.wf(),
            (final(self)@, accepted) == old(self)@.enqueued(data@, channel),
            old(self)@.settled() ==> final(self)@.settled(),
    {
        if self.state != SessionState::Running {
            return false;
        }
        match channel {
            Channel::Reliable(ch) => {
                if ch >= RELIABLE_CHANNEL_COUNT {
                    return false;
                }
                let now = self.last_received;
                self.output_channel(ch, now).enqueue_data(data);
            },
            Channel::Unreliable => {
                if data.len() == 0 {
                    return true;
                }
                if self.fits_unreliable(data) {
                    let datagram = self.frame_unreliable(data);
                    self.send(datagram);
                } else {
                    // Too large to send raw; promoted to reliable.
                    let now = self.last_received;
                    self.output_channel(0, now).enqueue_data(data);
                }
            },
        }
        proof {
            assert forall|k: int|
                0 <= k < RELIABLE_CHANNEL_COUNT && old(self)@.settled() implies #[trigger]
            self@.channel_settled(k) by {
                assert(old(self)@.channel_settled(k));
            }
        }
        true
    }

    /// Terminates the session, optionally notifying the remote.
    pub fn terminate(&mut self, reason: DisconnectReason, notify_remote: bool, now: Instant)
        requires
            old(self)@.can_terminate(notify_remote, now@),
        ensures
            final(self)@.wf(),
            final(self)@ == old(self)@.terminated(reason, notify_remote, false, now@),
            old(self)@.settled() ==> final(self)@.settled(),
    {
        self.terminate_inner(reason, notify_remote, false, now);
    }

    fn flush_acks(&mut self, ch: usize)
        requires
            ch < RELIABLE_CHANNEL_COUNT,
            old(self)@.params.crc_length <= 4 || old(self)@.ack_frames(ch as int).len() == 0,
        ensures
            final(self)@ == old(self)@.acks_flushed(ch as int),
    {
        let ghost start = self@;
        let acks = match self.inputs[ch].as_mut() {
            Some(input) => input.take_outgoing(),
            None => Vec::new(),
        };
        let ghost frames = start.ack_frames(ch as int);
        assert(frames.len() == acks@.len());
        let ghost taken = self@;
        assert(taken =~= (Session {
            inputs: start.acks_flushed(ch as int).inputs,
            ..start
        }));
        let mut i: usize = 0;
        while i < acks.len()
            invariant
                ch < RELIABLE_CHANNEL_COUNT,
                i <= acks@.len(),
                start.inputs[ch as int] is Some || acks@.len() == 0,
                start.inputs[ch as int] matches Some(input) ==> acks@ == input.outgoing,
                start.params.crc_length <= 4 || acks@.len() == 0,
                frames == start.ack_frames(ch as int),
                frames.len() == acks@.len(),
                taken.params == start.params,
                self@ =~= (Session {
                    outgoing: taken.outgoing + frames.take(i as int),
                    ..taken
                }),
            decreases acks@.len() - i,
        {
            let ack = acks[i];
            let payload: [u8; 2] = [(ack.sequence / 256) as u8, (ack.sequence % 256) as u8];
            let raw: u16 = ack.op_code.as_u16() + ch as u16;
            proof {
                lemma_be_two(ack.sequence as nat);
                assert(payload@ =~= be_bytes(ack.sequence as nat, 2));
            }
            let datagram = self.frame_contextual_raw(raw, payload.as_slice());
            self.send(datagram);
            proof {
                assert(held(datagram) == frames[i as int]);
                assert(frames.take(i + 1) =~= frames.take(i as int).push(frames[i as int]));
            }
            i = i + 1;
        }
        assert(frames.take(i as int) =~= frames);
        assert(self@ =~= start.acks_flushed(ch as int));
    }

    fn flush_packets(&mut self, ch: usize)
        requires
            ch < RELIABLE_CHANNEL_COUNT,
            old(self)@.params.crc_length <= 4 || old(self)@.packet_frames(ch as int).len()
                == 0,
        ensures
            final(self)@ == old(self)@.packets_flushed(ch as int),
    {
        let ghost start = self@;
        let packets = match self.outputs[ch].as_mut() {
            Some(output) => output.take_outgoing(),
            None => Vec::new(),
        };
        let ghost frames = start.packet_frames(ch as int);
        assert(frames.len() == packets@.len()) by {
            match start.outputs[ch as int] {
                Some(output) => {
                    assert(outgoing_packets(packets@).len() == output.outgoing.len());
                },
                None => {},
            }
        }
        let ghost taken = self@;
        assert(taken =~= (Session {
            outputs: start.packets_flushed(ch as int).outputs,
            ..start
        }));
        let mut i: usize = 0;
        while i < packets.len()
            invariant
                ch < RELIABLE_CHANNEL_COUNT,
                i <= packets@.len(),
                start.outputs[ch as int] is Some || packets@.len() == 0,
                start.outputs[ch as int] matches Some(output) ==> outgoing_packets(packets@)
                    == output.outgoing,
                start.params.crc_length <= 4 || packets@.len() == 0,
                frames == start.packet_frames(ch as int),
                frames.len() == packets@.len(),
                taken.params == start.params,
                self@ =~= (Session {
                    outgoing: taken.outgoing + frames.take(i as int),
                    ..taken
                }),
            decreases packets@.len() - i,
        {
            let packet = &packets[i];
            let raw: u16 = packet.op_code.as_u16() + ch as u16;
            let datagram = self.frame_contextual_raw(raw, bytes_ref(&packet.payload));
            self.send(datagram);
            proof {
                assert(outgoing_packets(packets@)[i as int] == packets@[i as int]@);
                assert(held(datagram) == frames[i as int]);
                assert(frames.take(i + 1) =~= frames.take(i as int).push(frames[i as int]));
            }
            i = i + 1;
        }
        assert(frames.take(i as int) =~= frames);
        assert(self@ =~= start.packets_flushed(ch as int));
    }

    fn flush_data(&mut self, ch: usize)
        requires
            ch < RELIABLE_CHANNEL_COUNT,
        ensures
            final(self)@ == old(self)@.data_flushed(ch as int),
    {
        let ghost start = self@;
        let mut app_data = match self.inputs[ch].as_mut() {
            Some(input) => input.take_app_data(),
            None => Vec::new(),
        };
        let ghost all = start.channel_data(ch as int);
        assert(all.len() == app_data@.len()) by {
            match start.inputs[ch as int] {
                Some(input) => {
                    assert(held_each(app_data@).len() == input.app_data.len());
                },
                None => {},
            }
        }
        let ghost taken = self@;
        assert(taken =~= (Session { inputs: start.data_flushed(ch as int).inputs, ..start }));
        let mut i: usize = 0;
        while i < app_data.len()
            invariant
                ch < RELIABLE_CHANNEL_COUNT,
                i <= app_data@.len(),
                start.inputs[ch as int] is Some || app_data@.len() == 0,
                start.inputs[ch as int] matches Some(input) ==> held_each(app_data@)
                    == input.app_data,
                all == start.channel_data(ch as int),
                all.len() == app_data@.len(),
                self@ =~= (Session { received: taken.received + all.take(i as int), ..taken }),
            decreases app_data@.len() - i,
        {
            let ghost before = self@;
            let data = bytes_clone(&app_data[i]);
            self.received.push(ReceivedData { data, channel: Channel::Reliable(ch) });
            proof {
                assert(held_each(app_data@)[i as int] == held(app_data@[i as int]));
                assert(self.received@.last()@ == all[i as int]);
                assert(self@.received =~= before.received.push(all[i as int]));
                assert(all.take(i + 1) =~= all.take(i as int).push(all[i as int]));
            }
            i = i + 1;
        }
        assert(all.take(i as int) =~= all);
        assert(self@ =~= start.data_flushed(ch as int));
    }

    /// Passes on what the channels hold: acknowledgements and packets to the datagrams to
    /// send, framed with each channel's opcode (base kind + channel index), and
    /// application data to the received data.
    fn flush_channels(&mut self)
        requires
            old(self)@.params.crc_length <= 4 || old(self)@.settled(),
        ensures
            final(self)@ == old(self)@.flushed(),
            final(self)@.settled(),
            final(self)@ == (Session {
                inputs: final(self)@.inputs,
                outputs: final(self)@.outputs,
                outgoing: final(self)@.outgoing,
                received: final(self)@.received,
                ..old(self)@
            }),
    {
        proof {
            reveal(Session::flushed);
        }
        let ghost start = self@;
        let mut ch: usize = 0;
        while ch < RELIABLE_CHANNEL_COUNT
            invariant
                ch <= RELIABLE_CHANNEL_COUNT,
                start == old(self)@,
                start.wf(),
                start.params.crc_length <= 4 || start.settled(),
                self@ == start.flushed_up_to(ch as nat),
            decreases RELIABLE_CHANNEL_COUNT - ch,
        {
            proof {
                model::lemma_flushed(start, ch as nat);
                assert(self@.settled() ==> self@.channel_settled(ch as int));
            }
            self.flush_acks(ch);
            self.flush_packets(ch);
            self.flush_data(ch);
            ch = ch + 1;
        }
        proof {
            model::lemma_flushed(start, RELIABLE_CHANNEL_COUNT as nat);
        }
    }

    fn tick_outputs(&mut self, now: Instant)
        ensures
            final(self)@ == old(self)@.outputs_ticked(now@, RELIABLE_CHANNEL_COUNT as nat),
    {
        let ghost start = self@;
        assert(start =~= start.outputs_ticked(now@, 0));
        let mut ch: usize = 0;
        while ch < RELIABLE_CHANNEL_COUNT
            invariant
                ch <= RELIABLE_CHANNEL_COUNT,
                start.wf(),
                self@ == start.outputs_ticked(now@, ch as nat),
            decreases RELIABLE_CHANNEL_COUNT - ch,
        {
            let ghost before = self@;
            match self.outputs[ch].as_mut() {
                Some(output) => {
                    output.run_tick(now);
                },
                None => {},
            }
            ch = ch + 1;
            proof {
                let after = start.outputs_ticked(now@, ch as nat);
                assert forall|i: int| 0 <= i < RELIABLE_CHANNEL_COUNT implies self@.outputs[i]
                    == after.outputs[i] by {
                    assert(before.outputs[i] == start.outputs_ticked(
                        now@,
                        (ch - 1) as nat,
                    ).outputs[i]);
                }
                assert(self@ =~= after);
            }
        }
    }

    fn tick_inputs(&mut self, now: Instant)
        ensures
            final(self)@ == old(self)@.inputs_ticked(now@, RELIABLE_CHANNEL_COUNT as nat),
    {
        let ghost start = self@;
        assert(start =~= start.inputs_ticked(now@, 0));
        let mut ch: usize = 0;
        while ch < RELIABLE_CHANNEL_COUNT
            invariant
                ch <= RELIABLE_CHANNEL_COUNT,
                start.wf(),
                self@ == start.inputs_ticked(now@, ch as nat),
            decreases RELIABLE_CHANNEL_COUNT - ch,
        {
            let ghost before = self@;
            match self.inputs[ch].as_mut() {
                Some(input) => {
                    input.run_tick(now);
                },
                None => {},
            }
            ch = ch + 1;
            proof {
                let after = start.inputs_ticked(now@, ch as nat);
                assert forall|i: int| 0 <= i < RELIABLE_CHANNEL_COUNT implies self@.inputs[i]
                    == after.inputs[i] by {
                    assert(before.inputs[i] == start.inputs_ticked(
                        now@,
                        (ch - 1) as nat,
                    ).inputs[i]);
                }
                assert(self@ =~= after);
            }
        }
    }

    fn terminate_inner(
        &mut self,
        reason: DisconnectReason,
        notify_remote: bool,
        terminated_by_remote: bool,
        now: Instant,
    )
        requires
            old(self)@.can_terminate(notify_remote, now@),
        ensures
            final(self)@ == old(self)@.terminated(
                reason,
                notify_remote,
                terminated_by_remote,
                now@,
            ),
            final(self)@.state is Terminated,
            old(self)@.state !is Terminated || old(self)@.settled() ==> final(self)@.settled(),
            final(self)@.params == old(self)@.params,
    {
        proof {
            reveal(Session::terminated);
        }
        if self.state == SessionState::Terminated {
            return;
        }
        // Naive flush of the output channels.
        self.tick_outputs(now);
        self.flush_channels();
        let ghost flushed = self@;
        if notify_remote && self.state == SessionState::Running {
            let disconnect = Disconnect::new(self.session_id, reason);
            let mut payload: Vec<u8> = vec![0u8; Disconnect::SIZE];
            proof {
                lemma_disconnect_wire(disconnect);
                lemma_write_fields_exact(payload@, disconnect.wire());
            }
            let _ = disconnect.serialize(payload.as_mut_slice());
            let datagram = self.frame_contextual(OpCode::Disconnect, payload.as_slice());
            self.send(datagram);
        }
        let ghost told = self@;
        self.termination_reason = reason;
        self.state = SessionState::Terminated;
        self.terminated_by_remote = terminated_by_remote;
        assert(self@ =~= (Session {
            termination_reason: reason,
            state: SessionState::Terminated,
            terminated_by_remote,
            ..told
        }));
        self.raise(SessionEvent::Closed(reason));
        proof {
            assert forall|k: int| 0 <= k < RELIABLE_CHANNEL_COUNT implies #[trigger]
            self@.channel_settled(k) by {
                assert(flushed.channel_settled(k));
            }
        }
    }

    fn corrupt(&mut self, now: Instant)
        requires
            old(self)@.can_terminate(true, now@),
        ensures
            final(self)@ == old(self)@.corrupted(now@),
            final(self)@.state is Terminated,
            old(self)@.state !is Terminated || old(self)@.settled() ==> final(self)@.settled(),
            final(self)@.params == old(self)@.params,
    {
        self.terminate_inner(DisconnectReason::CorruptPacket, true, false, now);
    }

    fn handle_session_request(&mut self, body: &[u8], now: Instant)
        requires
            old(self)@.params.crc_length <= 4,
            old(self)@.settled(),
        ensures
            final(self)@ == old(self)@.request_received(body@, now@),
            final(self)@.settled(),
    {
        proof {
            reveal(Session::request_received);
        }
        let ghost start = self@;
        if self.mode == SessionMode::Client {
            self.terminate_inner(DisconnectReason::ConnectingToSelf, false, false, now);
            return;
        }
        let request = match SessionRequest::deserialize(body, false) {
            Ok(r) => r,
            Err(_) => {
                self.corrupt(now);
                return;
            },
        };
        self.params.remote_udp_length = request.udp_length;
        self.session_id = request.session_id;
        let ghost known = Session {
            params: Params { remote_udp_length: request.udp_length, ..start.params },
            session_id: request.session_id,
            ..start
        };
        proof {
            assert(self@ =~= known);
            assert forall|k: int| 0 <= k < RELIABLE_CHANNEL_COUNT implies #[trigger]
            known.channel_settled(k) by {
                assert(start.channel_settled(k));
            }
        }
        if self.state != SessionState::Negotiating {
            self.terminate_inner(DisconnectReason::ConnectError, true, false, now);
            return;
        }
        let protocols_match = request.soe_protocol_version == SOE_PROTOCOL_VERSION
            && request.application_protocol == self.params.application_protocol;
        if !protocols_match {
            self.terminate_inner(DisconnectReason::ProtocolMismatch, true, false, now);
            return;
        }
        self.params.crc_length = CRC_LENGTH;
        self.params.crc_seed = self.rng.next_u32();

        let response = SessionResponse {
            session_id: self.session_id,
            crc_seed: self.params.crc_seed,
            crc_length: self.params.crc_length,
            is_compression_enabled: self.params.is_compression_enabled,
            unknown_value_1: 0,
            udp_length: self.params.udp_length,
            soe_protocol_version: SOE_PROTOCOL_VERSION,
        };
        let mut buf: Vec<u8> = vec![0u8; SessionResponse::SIZE];
        proof {
            lemma_session_response_wire(response);
            lemma_write_fields_exact(buf@, response.wire());
        }
        let _ = response.serialize(buf.as_mut_slice());
        self.state = SessionState::Running;
        self.open_session_on_next_packet = true;
        self.send(bytes_copied(buf.as_slice()));
        proof {
            assert(self@ =~= known.accepted());
            assert forall|k: int| 0 <= k < RELIABLE_CHANNEL_COUNT implies #[trigger]
            self@.channel_settled(k) by {
                assert(start.channel_settled(k));
            }
        }
    }

    fn handle_session_response(&mut self, body: &[u8], now: Instant)
        requires
            old(self)@.params.crc_length <= 4,
            old(self)@.settled(),
        ensures
            final(self)@ == old(self)@.response_received(body@, now@),
            final(self)@.settled(),
    {
        proof {
            reveal(Session::response_received);
        }
        let ghost start = self@;
        if self.mode == SessionMode::Server {
            self.terminate_inner(DisconnectReason::ConnectingToSelf, false, false, now);
            return;
        }
        let response = match SessionResponse::deserialize(body, false) {
            Ok(r) => r,
            Err(_) => {
                self.corrupt(now);
                return;
            },
        };
        if self.state != SessionState::Negotiating {
            self.terminate_inner(DisconnectReason::ConnectError, true, false, now);
            return;
        }
        if response.soe_protocol_version != SOE_PROTOCOL_VERSION {
            self.terminate_inner(DisconnectReason::ProtocolMismatch, true, false, now);
            return;
        }
        self.params.remote_udp_length = response.udp_length;
        self.params.crc_length = response.crc_length;
        self.params.crc_seed = response.crc_seed;
        self.params.is_compression_enabled = response.is_compression_enabled;
        self.session_id = response.session_id;
        self.state = SessionState::Running;
        self.raise(SessionEvent::Opened);
        proof {
            assert(self@ =~= start.response_received(body@, now@));
            assert forall|k: int| 0 <= k < RELIABLE_CHANNEL_COUNT implies #[trigger]
            self@.channel_settled(k) by {
                assert(start.channel_settled(k));
            }
        }
    }

    fn handle_contextless(&mut self, op: OpCode, body: &[u8], now: Instant)
        requires
            old(self)@.params.crc_length <= 4,
            old(self)@.settled(),
        ensures
            final(self)@ == old(self)@.contextless_received(op, body@, now@),
            final(self)@.settled(),
    {
        proof {
            reveal(Session::contextless_received);
        }
        match op {
            OpCode::SessionRequest => self.handle_session_request(body, now),
            OpCode::SessionResponse => self.handle_session_response(body, now),
            OpCode::UnknownSender => {
                self.terminate_inner(
                    DisconnectReason::UnreachableConnection,
                    false,
                    false,
                    now,
                );
            },
            // Remap requests are the responsibility of a connection manager.
            _ => {},
        }
    }

    fn handle_data(&mut self, ch: usize, body: Bytes, is_fragment: bool, now: Instant)
        requires
            ch < RELIABLE_CHANNEL_COUNT,
            old(self)@.params.crc_length <= 4,
        ensures
            final(self)@ == old(self)@.data_received(ch as int, held(body), is_fragment, now@),
            final(self)@.params == old(self)@.params,
    {
        let input = self.input_channel(ch, now);
        let outcome = if is_fragment {
            input.handle_reliable_data_fragment(body, now)
        } else {
            input.handle_reliable_data(body, now)
        };
        if outcome.is_err() {
            self.corrupt(now);
        }
    }

    /// Handles the body of a contextual packet on the reliable channel `channel` (which
    /// only matters to packets that belong to one). What that makes the channels hold is
    /// not passed on yet.
    pub fn handle_contextual_inner(
        &mut self,
        op: OpCode,
        channel: usize,
        body: Bytes,
        now: Instant,
    )
        requires
            channel < RELIABLE_CHANNEL_COUNT,
            old(self)@.params.crc_length <= 4,
        ensures
            final(self)@ == old(self)@.contextual_received(
                op,
                channel as int,
                held(body),
                now@,
            ),
            final(self)@.params == old(self)@.params,
        decreases held(body).len(), 1int,
    {
        proof {
            reveal_with_fuel(Session::contextual_received, 1);
            reveal_with_fuel(Session::bundle_received, 1);
        }
        match op {
            OpCode::MultiPacket => self.handle_bundle(body, now),
            OpCode::Disconnect => {
                if let Ok(disconnect) = Disconnect::deserialize(bytes_ref(&body)) {
                    self.terminate_inner(disconnect.reason, false, true, now);
                }
            },
            OpCode::Heartbeat => {
                if self.mode == SessionMode::Server {
                    let empty: Vec<u8> = Vec::new();
                    let datagram = self.frame_contextual(
                        OpCode::Heartbeat,
                        empty.as_slice(),
                    );
                    self.send(datagram);
                }
            },
            OpCode::ReliableData => self.handle_data(channel, body, false, now),
            OpCode::ReliableDataFragment => self.handle_data(channel, body, true, now),
            OpCode::Acknowledge => {
                if let Ok(ack) = Acknowledge::deserialize(bytes_ref(&body)) {
                    if self.has_output(channel) {
                        self.output_channel(channel, now).notify_of_acknowledge(
                            ack.sequence,
                            now,
                        );
                    }
                }
            },
            OpCode::AcknowledgeAll => {
                if let Ok(ack) = AcknowledgeAll::deserialize(bytes_ref(&body)) {
                    if self.has_output(channel) {
                        self.output_channel(channel, now).notify_of_acknowledge_all(
                            ack.sequence,
                            now,
                        );
                    }
                }
            },
            _ => {},
        }
    }

    /// Handles the packets of a MultiPacket bundle, one after the other.
    fn handle_bundle(&mut self, body: Bytes, now: Instant)
        requires
            old(self)@.params.crc_length <= 4,
        ensures
            final(self)@ == old(self)@.bundle_received(held(body), now@),
            final(self)@.params == old(self)@.params,
        decreases held(body).len(), 0int,
    {
        proof {
            reveal_with_fuel(Session::contextual_received, 1);
            reveal_with_fuel(Session::bundle_received, 1);
        }
        let ghost bytes = held(body);
        let ghost start = self@;
        let len: usize = bytes_ref(&body).len();
        let mut offset: usize = 0;
        assert(bytes.skip(0) =~= bytes);
        while offset < len
            invariant
                bytes == held(body),
                len == bytes.len(),
                offset <= len,
                start == old(self)@,
                self@.params == start.params,
                start.params.crc_length <= 4,
                start.bundle_received(bytes, now@) == self@.bundle_received(
                    bytes.skip(offset as int),
                    now@,
                ),
            decreases len - offset,
        {
            proof {
                reveal_with_fuel(Session::contextual_received, 1);
                reveal_with_fuel(Session::bundle_received, 1);
            }
            let ghost rest = bytes.skip(offset as int);
            let entry = match next_in_bundle(&body, offset) {
                Some(entry) => entry,
                None => {
                    self.corrupt(now);
                    return;
                },
            };
            self.handle_contextual_inner(entry.op, entry.channel, entry.body, now);
            assert(rest.skip(entry.end - offset) =~= bytes.skip(entry.end as int));
            offset = entry.end;

            // A sub-packet may have terminated the session (e.g. a corrupt fragment or an
            // embedded Disconnect). Stop draining the bundle rather than processing data
            // on a dead session.
            if self.state == SessionState::Terminated {
                return;
            }
        }
    }

    fn handle_contextual(&mut self, op: OpCode, channel: usize, body: Bytes, now: Instant)
        requires
            channel < RELIABLE_CHANNEL_COUNT,
            old(self)@.params.crc_length <= 4,
        ensures
            final(self)@ == old(self)@.wrapped_received(op, channel as int, held(body), now@),
            final(self)@.params == old(self)@.params,
    {
        proof {
            reveal(Session::wrapped_received);
        }
        if !self.params.is_compression_enabled {
            self.handle_contextual_inner(op, channel, body, now);
            return;
        }
        let len: usize = bytes_ref(&body).len();
        if len == 0 {
            return;
        }
        let is_compressed = bytes_ref(&body)[0] > 0;
        let rest = bytes_slice(&body, 1, len);
        assert(held(rest) =~= held(body).skip(1));
        let plain = if is_compressed {
            match zlib::inflate(bytes_ref(&rest)) {
                Ok(d) => bytes_from_vec(d),
                Err(_) => {
                    self.corrupt(now);
                    return;
                },
            }
        } else {
            rest
        };
        self.handle_contextual_inner(op, channel, plain, now);
    }

    fn open_if_due(&mut self)
        ensures
            final(self)@ == old(self)@.opened(),
    {
        if self.open_session_on_next_packet {
            self.open_session_on_next_packet = false;
            assert(self@ =~= (Session { open_session_on_next_packet: false, ..old(self)@ }));
            self.raise(SessionEvent::Opened);
        }
    }

    /// Attempts to handle `datagram` as an unreliable application packet (one whose
    /// leading byte is non-zero, or a zero-escaped packet). Returns `true` if it was
    /// consumed (delivered or dropped as a best-effort packet), or `false` if it is not a
    /// valid unreliable packet and the caller should treat it as corruption.
    fn handle_unreliable(&mut self, datagram: &Bytes, now: Instant) -> (consumed: bool)
        requires
            old(self)@.params.crc_length <= 4,
        ensures
            (final(self)@, consumed) == old(self)@.unreliable_received(held(*datagram), now@),
            !consumed ==> final(self)@ == old(self)@,
            final(self)@.params == old(self)@.params,
            old(self)@.settled() ==> final(self)@.settled(),
    {
        proof {
            reveal(Session::unreliable_received);
        }
        // Unreliable data is only meaningful on a running session; during negotiation an
        // unknown OP code is genuine corruption.
        if self.state != SessionState::Running {
            return false;
        }
        let ghost start = self@;
        let ghost bytes = held(*datagram);
        let len: usize = bytes_ref(datagram).len();
        let crc_length: usize = self.params.crc_length as usize;
        // Need at least one body byte plus the trailing CRC.
        if len < crc_length + 1 {
            return false;
        }
        let split: usize = len - crc_length;
        let ghost front = bytes.take(split as int);
        // The CRC covers the whole datagram. A mismatch on a best-effort packet is dropped
        // rather than fatal (it may be wire corruption or a stray datagram), so report it
        // as consumed.
        if !self.has_valid_crc(bytes_ref(datagram), split) {
            return true;
        }
        let body = bytes_slice(datagram, 0, split);
        assert(held(body) =~= front);
        let payload = if bytes_ref(&body)[0] == 0 {
            // The only unreliable packet whose first byte is zero is a zero-escaped one: a
            // single 0x00 escape byte prefixing a payload that itself began with 0x00.
            // Anything else with a zero lead byte is an unknown control packet, i.e.
            // corruption.
            if split < 2 || bytes_ref(&body)[1] != 0 {
                return false;
            }
            let unescaped = bytes_slice(&body, 1, split);
            assert(held(unescaped) =~= front.skip(1));
            unescaped
        } else {
            body
        };
        self.last_received = now;
        assert(self@ =~= (Session { last_received: now@, ..start }));
        self.open_if_due();
        let ghost after = self@;
        let ghost data = held(payload);
        self.received.push(ReceivedData { data: payload, channel: Channel::Unreliable });
        proof {
            let received = Received { data, channel: Channel::Unreliable };
            assert(self.received@.last()@ == received);
            assert(self@.received =~= after.received.push(received));
            assert(self@ =~= (Session { received: after.received.push(received), ..after }));
            assert forall|k: int|
                0 <= k < RELIABLE_CHANNEL_COUNT && start.settled() implies #[trigger]
            self@.channel_settled(k) by {
                assert(start.channel_settled(k));
            }
        }
        true
    }

    /// Whether what follows the first `split` bytes of `datagram` is their check value.
    fn has_valid_crc(&self, datagram: &[u8], split: usize) -> (valid: bool)
        requires
            self@.params.crc_length <= 4,
            split + self@.params.crc_length == datagram@.len(),
        ensures
            valid == (self@.params.checked(datagram@.take(split as int)) == datagram@),
    {
        let ghost front = datagram@.take(split as int);
        let mut copy: Vec<u8> = Vec::new();
        copy.extend_from_slice(&datagram[0..split]);
        assert(copy@ =~= front);
        let framed = self.with_crc(copy);
        crate::packet_utils::equal_bytes(bytes_ref(&framed), datagram)
    }

    /// Processes a single incoming datagram from the remote.
    pub fn process_incoming(&mut self, datagram: Bytes, now: Instant)
        requires
            old(self)@.can_receive(),
        ensures
            final(self)@.wf(),
            final(self)@ == old(self)@.datagram_received(held(datagram), now@),
            old(self)@.settled() ==> final(self)@.settled(),
    {
        if self.state == SessionState::Terminated {
            return;
        }
        let crc = Crc32::new(self.params.crc_seed);
        let (result, op) = validate_packet(
            bytes_ref(&datagram),
            &crc,
            self.params.crc_length,
            self.params.is_compression_enabled,
        );
        if result != ValidationResult::Valid {
            // A packet with no recognised OP code may be an unreliable application packet,
            // which carries its payload raw (no OP code). Only an unknown OP code is
            // treated this way; genuine corruption (CRC/length) still terminates the
            // session.
            if result == ValidationResult::InvalidOpCode {
                if self.handle_unreliable(&datagram, now) {
                    self.flush_channels();
                    return;
                }
            }
            self.corrupt(now);
            return;
        }
        if let Some(op) = op {
            self.handle_packet(op, datagram, now);
            self.flush_channels();
        }
    }

    /// Handles a datagram that holds a valid packet of the given kind.
    fn handle_packet(&mut self, op: OpCode, datagram: Bytes, now: Instant)
        requires
            old(self)@.params.crc_length <= 4,
            old(self)@.settled(),
            held(datagram).len() >= 2,
            !contextless(op) ==> held(datagram).len() >= 2 + old(self)@.params.crc_length,
        ensures
            final(self)@ == old(self)@.packet_received(op, held(datagram), now@),
            final(self)@.params.crc_length <= 4 || final(self)@.settled(),
    {
        proof {
            reveal(Session::packet_received);
        }
        let ghost start = self@;
        let ghost bytes = held(datagram);
        let len: usize = bytes_ref(&datagram).len();
        self.open_if_due();

        // Set after validation, as a primitive guard against a stream of corrupt packets
        // keeping a session alive.
        self.last_received = now;
        let ghost opened = self@;
        proof {
            assert(opened =~= (Session { last_received: now@, ..start.opened() }));
            assert forall|k: int| 0 <= k < RELIABLE_CHANNEL_COUNT implies #[trigger]
            opened.channel_settled(k) by {
                assert(start.channel_settled(k));
            }
        }
        let body = bytes_slice(&datagram, OP_CODE_SIZE, len);
        assert(held(body) =~= bytes.skip(2));
        if op.is_contextless() {
            self.handle_contextless(op, bytes_ref(&body), now);
        } else {
            let raw: u16 = bytes_ref(&datagram)[0] as u16 * 256 + bytes_ref(
                &datagram,
            )[1] as u16;
            let channel: usize = reliable_channel(raw);
            let crc_length: usize = self.params.crc_length as usize;
            let body = bytes_slice(&body, 0, len - OP_CODE_SIZE - crc_length);
            assert(held(body) =~= bytes.subrange(2, bytes.len() - start.params.crc_length));
            self.handle_contextual(op, channel, body, now);
        }
    }

    fn send_heartbeat_if_required(&mut self, now: Instant)
        requires
            old(self)@.params.crc_length <= 4 || !old(self)@.heartbeat_due(now@),
        ensures
            final(self)@ == old(self)@.heartbeat_sent(now@),
    {
        let may_send = self.mode == SessionMode::Client && self.state == SessionState::Running
            && !self.params.heartbeat_after.is_zero() && now.duration_since(
            self.last_received,
        ).as_nanos() > self.params.heartbeat_after.as_nanos();
        if may_send {
            let empty: Vec<u8> = Vec::new();
            let datagram = self.frame_contextual(OpCode::Heartbeat, empty.as_slice());
            self.send(datagram);
        }
    }

    /// Runs a single tick of the session: heartbeats, inactivity timeout, and the reliable
    /// data channels.
    pub fn run_tick(&mut self, now: Instant)
        requires
            old(self)@.can_tick(now@),
        ensures
            final(self)@.wf(),
            final(self)@ == old(self)@.ticked(now@),
            old(self)@.settled() ==> final(self)@.settled(),
    {
        if self.state == SessionState::Terminated {
            return;
        }
        self.send_heartbeat_if_required(now);
        if !self.params.inactivity_timeout.is_zero() && now.duration_since(
            self.last_received,
        ).as_nanos() > self.params.inactivity_timeout.as_nanos() {
            self.terminate_inner(DisconnectReason::Timeout, false, false, now);
            return;
        }
        self.tick_inputs(now);
        self.tick_outputs(now);
        self.flush_channels();
    }
}

} // verus!
