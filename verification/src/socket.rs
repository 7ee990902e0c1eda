//! The multiplexer: many sessions behind one socket, told apart by the remote that each
//! is with.
//!
//! Like a session, the multiplexer performs no I/O: it is fed incoming datagrams and
//! ticks, and surfaces datagrams to send and events. A remote is a number that the caller
//! picks for an address.

pub mod laws;

use vstd::prelude::*;
use vstd::utf8::encode_utf8;

use bytes::Bytes;

use crate::buffer::{bytes_clone, bytes_from_vec, bytes_ref, held, held_each};
use crate::channel::output::cipher_view;
use crate::packet_utils::{op_code_in, read_op_code};
use crate::packets::{op_code_bytes, UnknownSender};
use crate::protocol::{DisconnectReason, OpCode};
use crate::rc4::Rc4State;
use crate::session::model::{
    default_params, lemma_same_channels, new_session, Params, Received, Session,
};
use crate::session::{
    received_each, ApplicationParameters, Channel, ReceivedData, SessionEvent, SessionMode,
    SessionParameters, SessionState, SoeSession,
};
use crate::time::Instant;
use crate::wire::{concat, concat_from, lemma_be_bytes_len, lemma_write_fields_exact};

verus! {

/// Configuration of a multiplexer.
pub struct SocketConfig {
    /// The parameters that sessions start with.
    pub default_session_params: SessionParameters,
    /// The application parameters that sessions start with.
    pub default_application_params: ApplicationParameters,
    /// The seed from which the seeds of the sessions' generators are counted on.
    pub rng_seed: u64,
}

impl Default for SocketConfig {
    fn default() -> (config: Self)
        ensures
            config.default_session_params@ == default_params(),
            config.default_application_params.encryption_key_state is None,
            config.rng_seed == 0,
    {
        Self {
            default_session_params: SessionParameters::default(),
            default_application_params: ApplicationParameters::default(),
            rng_seed: 0,
        }
    }
}

/// An event surfaced by a multiplexer.
#[derive(Debug, PartialEq, Eq)]
pub enum SocketEvent {
    /// The session with a remote has been established.
    SessionOpened {
        /// The remote.
        remote: u64,
    },
    /// Application data was received from a remote.
    DataReceived {
        /// The remote.
        remote: u64,
        /// The data.
        data: Bytes,
        /// The channel that the data arrived on.
        channel: Channel,
    },
    /// The session with a remote has terminated. The end of a session that has not been
    /// reported as opened is not reported.
    SessionClosed {
        /// The remote.
        remote: u64,
        /// Why the session has terminated.
        reason: DisconnectReason,
    },
}

/// What a [`SocketEvent`] says.
pub enum MuxEvent {
    /// The session with a remote has been established.
    SessionOpened {
        /// The remote.
        remote: u64,
    },
    /// Application data was received from a remote.
    DataReceived {
        /// The remote.
        remote: u64,
        /// The data.
        data: Seq<u8>,
        /// The channel that the data arrived on.
        channel: Channel,
    },
    /// The session with a remote has terminated.
    SessionClosed {
        /// The remote.
        remote: u64,
        /// Why the session has terminated.
        reason: DisconnectReason,
    },
}

impl View for SocketEvent {
    type V = MuxEvent;

    open spec fn view(&self) -> MuxEvent {
        match *self {
            SocketEvent::SessionOpened { remote } => MuxEvent::SessionOpened { remote },
            SocketEvent::DataReceived { remote, data, channel } => MuxEvent::DataReceived {
                remote,
                data: held(data),
                channel,
            },
            SocketEvent::SessionClosed { remote, reason } => MuxEvent::SessionClosed {
                remote,
                reason,
            },
        }
    }
}

/// What each of a list of events says.
pub open spec fn event_each(list: Seq<SocketEvent>) -> Seq<MuxEvent> {
    Seq::new(list.len(), |i: int| list[i]@)
}

/// What each of a list of datagrams with their remotes holds.
pub open spec fn addressed_each(list: Seq<(u64, Bytes)>) -> Seq<(u64, Seq<u8>)> {
    Seq::new(list.len(), |i: int| (list[i].0, held(list[i].1)))
}

/// A session and the remote that it is with.
pub struct MuxEntry {
    /// The remote.
    pub remote: u64,
    /// Whether the session has been reported as opened.
    pub opened: bool,
    /// The session.
    pub session: Session,
}

/// A multiplexer.
#[verifier::ext_equal]
pub struct Mux {
    /// The parameters that sessions start with.
    pub params: Params,
    /// The cipher that sessions start with.
    pub cipher: Option<Rc4State>,
    /// The seed of the next session's generator.
    pub seed: u64,
    /// The sessions.
    pub entries: Seq<MuxEntry>,
    /// The datagrams to send that have not been drained.
    pub outgoing: Seq<(u64, Seq<u8>)>,
    /// The events that have not been drained.
    pub events: Seq<MuxEvent>,
}

/// What is reported of an event of the session with `remote`.
pub open spec fn reported(remote: u64, event: SessionEvent) -> MuxEvent {
    match event {
        SessionEvent::Opened => MuxEvent::SessionOpened { remote },
        SessionEvent::Closed(reason) => MuxEvent::SessionClosed { remote, reason },
    }
}

/// What is reported of the events of a session that are, or are not, of its opening.
pub open spec fn lifecycle(
    remote: u64,
    events: Seq<SessionEvent>,
    opening: bool,
) -> Seq<MuxEvent>
    decreases events.len(),
{
    if events.len() == 0 {
        Seq::empty()
    } else {
        let before = lifecycle(remote, events.drop_last(), opening);
        if (events.last() is Opened) == opening {
            before.push(reported(remote, events.last()))
        } else {
            before
        }
    }
}

/// What is reported of the data that a session has received.
pub open spec fn data_events(remote: u64, received: Seq<Received>) -> Seq<MuxEvent> {
    Seq::new(
        received.len(),
        |i: int|
            MuxEvent::DataReceived {
                remote,
                data: received[i].data,
                channel: received[i].channel,
            },
    )
}

/// Datagrams for one remote.
pub open spec fn addressed(remote: u64, datagrams: Seq<Seq<u8>>) -> Seq<(u64, Seq<u8>)> {
    Seq::new(datagrams.len(), |i: int| (remote, datagrams[i]))
}

/// Whether the opening of a session is among its events.
pub open spec fn opens(events: Seq<SessionEvent>) -> bool {
    exists|k: int| 0 <= k < events.len() && #[trigger] events[k] is Opened
}

/// A session whose queues have been drained. Data waits until the session has been
/// reported as opened.
pub open spec fn emptied(s: Session, opened: bool) -> Session {
    Session {
        outgoing: Seq::empty(),
        received: if opened {
            Seq::empty()
        } else {
            s.received
        },
        events: Seq::empty(),
        ..s
    }
}

/// The position of the session with `remote`, from `i` on.
pub open spec fn entry_position(entries: Seq<MuxEntry>, remote: u64, i: int) -> Option<int>
    decreases entries.len() - i,
{
    if i >= entries.len() {
        None
    } else if entries[i].remote == remote {
        Some(i)
    } else {
        entry_position(entries, remote, i + 1)
    }
}

pub proof fn lemma_entry_position(entries: Seq<MuxEntry>, remote: u64, i: int)
    requires
        0 <= i,
    ensures
        entry_position(entries, remote, i) matches Some(pos) ==> i <= pos < entries.len()
            && entries[pos].remote == remote,
        entry_position(entries, remote, i) is None ==> forall|k: int|
            i <= k < entries.len() ==> (#[trigger] entries[k]).remote != remote,
    decreases entries.len() - i,
{
    if i < entries.len() && entries[i].remote != remote {
        lemma_entry_position(entries, remote, i + 1);
    }
}

impl Mux {
    /// That a session can be kept: it is alive, its packets can be framed, and nothing waits
    /// to be passed on but data that is held back.
    pub open spec fn keeps(entry: MuxEntry) -> bool {
        let s = entry.session;
        &&& s.wf()
        &&& s.state !is Terminated
        &&& s.params.usable()
        &&& s.settled()
        &&& s == emptied(s, entry.opened)
    }

    /// That there is at most one session with each remote, and that each can be kept.
    pub open spec fn wf(self) -> bool {
        &&& forall|i: int|
            0 <= i < self.entries.len() ==> Mux::keeps(#[trigger] self.entries[i])
        &&& forall|i: int, j: int|
            0 <= i < j < self.entries.len() ==> (#[trigger] self.entries[i]).remote != (
            #[trigger] self.entries[j]).remote
    }

    /// The multiplexer with another state of a session.
    pub open spec fn with_session(self, i: int, s: Session) -> Mux {
        Mux {
            entries: self.entries.update(i, MuxEntry { session: s, ..self.entries[i] }),
            ..self
        }
    }

    /// The events after what a session has to report has been passed on: the opening, the
    /// data, the end. As long as a session has not been opened nothing is reported of it,
    /// neither its data, which is held back, nor its end.
    pub open spec fn told_of(self, entry: MuxEntry) -> Seq<MuxEvent> {
        let s = entry.session;
        if entry.opened || opens(s.events) {
            self.events + lifecycle(entry.remote, s.events, true) + data_events(
                entry.remote,
                s.received,
            ) + lifecycle(entry.remote, s.events, false)
        } else {
            self.events
        }
    }

    /// The multiplexer after what a session has to send and to report has been passed on.
    /// A session that has ended is let go, and so is one whose packets cannot be framed with
    /// the parameters that have been negotiated.
    pub open spec fn settled_at(self, i: int) -> Mux {
        let remote = self.entries[i].remote;
        let s = self.entries[i].session;
        let opened = self.entries[i].opened || opens(s.events);
        let told = Mux {
            outgoing: self.outgoing + addressed(remote, s.outgoing),
            events: self.told_of(self.entries[i]),
            ..self
        };
        if s.state is Terminated {
            Mux { entries: self.entries.remove(i), ..told }
        } else if !s.params.usable() {
            Mux {
                entries: self.entries.remove(i),
                events: if opened {
                    told.events.push(
                        MuxEvent::SessionClosed {
                            remote,
                            reason: DisconnectReason::ConnectError,
                        },
                    )
                } else {
                    told.events
                },
                ..told
            }
        } else {
            Mux {
                entries: self.entries.update(
                    i,
                    MuxEntry { remote, opened, session: emptied(s, opened) },
                ),
                ..told
            }
        }
    }

    /// The multiplexer after a session has been opened in the given mode, with what it is
    /// made to do first.
    pub open spec fn with_new(self, remote: u64, s: Session) -> Mux {
        let added = Mux {
            seed: self.seed.wrapping_add(1),
            entries: self.entries.push(MuxEntry { remote, opened: false, session: s }),
            ..self
        };
        added.settled_at(self.entries.len() as int)
    }

    /// A new session in the given mode.
    pub open spec fn fresh(self, mode: SessionMode, now: nat) -> Session {
        new_session(mode, self.params, self.cipher, self.seed, now)
    }

    /// The multiplexer after a session with `remote` has been asked for, unless there is
    /// one.
    pub open spec fn connected(self, remote: u64, now: nat) -> Mux {
        match entry_position(self.entries, remote, 0) {
            Some(_) => self,
            None => self.with_new(remote, self.fresh(SessionMode::Client, now).requested()),
        }
    }

    /// The multiplexer after a datagram from `remote`: it goes to the session with that
    /// remote. Without one, a session request opens a session, an indication that the
    /// sender is unknown is ignored, and anything else is answered with such an
    /// indication.
    pub open spec fn datagram_received(self, remote: u64, datagram: Seq<u8>, now: nat) -> Mux {
        match entry_position(self.entries, remote, 0) {
            Some(i) => self.with_session(
                i,
                self.entries[i].session.datagram_received(datagram, now),
            ).settled_at(i),
            None => match op_code_in(datagram) {
                Some(OpCode::SessionRequest) => {
                    let s = self.fresh(SessionMode::Server, now);
                    if s.params.usable() {
                        self.with_new(remote, s.datagram_received(datagram, now))
                    } else {
                        self.with_new(remote, s)
                    }
                },
                Some(OpCode::UnknownSender) => self,
                _ => Mux {
                    outgoing: self.outgoing.push(
                        (remote, op_code_bytes(OpCode::UnknownSender)),
                    ),
                    ..self
                },
            },
        }
    }

    /// The multiplexer after data has been enqueued for `remote`, and whether it was
    /// accepted: there must be a session that accepts it and has room for it.
    pub open spec fn enqueued(self, remote: u64, data: Seq<u8>, channel: Channel) -> (Mux, bool) {
        match entry_position(self.entries, remote, 0) {
            None => (self, false),
            Some(i) => {
                let s = self.entries[i].session;
                if s.can_enqueue(data, channel) {
                    let (after, accepted) = s.enqueued(data, channel);
                    (self.with_session(i, after).settled_at(i), accepted)
                } else {
                    (self, false)
                }
            },
        }
    }

    /// The multiplexer after the session with `remote`, if there is one, has been
    /// terminated with notice.
    pub open spec fn terminated(self, remote: u64, reason: DisconnectReason, now: nat) -> Mux {
        match entry_position(self.entries, remote, 0) {
            None => self,
            Some(i) => self.with_session(
                i,
                self.entries[i].session.terminated(reason, true, false, now),
            ).settled_at(i),
        }
    }

    /// The multiplexer after a tick of the session at `i` and those behind it.
    pub open spec fn ticked_from(self, i: int, now: nat) -> Mux
        decreases self.entries.len() - i,
    {
        if i < 0 || i >= self.entries.len() {
            self
        } else {
            let after = self.with_session(
                i,
                self.entries[i].session.ticked(now),
            ).settled_at(i);
            if after.entries.len() < self.entries.len() {
                after.ticked_from(i, now)
            } else {
                after.ticked_from(i + 1, now)
            }
        }
    }

    /// The multiplexer after a tick of all sessions.
    pub open spec fn ticked(self, now: nat) -> Mux {
        self.ticked_from(0, now)
    }
}

/// Demultiplexes datagrams from many remotes into sessions.
pub struct SoeMultiplexer {
    config: SocketConfig,
    seed: u64,
    sessions: Vec<(u64, bool, SoeSession)>,
    outgoing: Vec<(u64, Bytes)>,
    events: Vec<SocketEvent>,
}

spec fn entry_view(entry: (u64, bool, SoeSession)) -> MuxEntry {
    MuxEntry { remote: entry.0, opened: entry.1, session: entry.2@ }
}

impl View for SoeMultiplexer {
    type V = Mux;

    closed spec fn view(&self) -> Mux {
        Mux {
            params: self.config.default_session_params@,
            cipher: cipher_view(self.config.default_application_params.encryption_key_state),
            seed: self.seed,
            entries: Seq::new(self.sessions@.len(), |i: int| entry_view(self.sessions@[i])),
            outgoing: addressed_each(self.outgoing@),
            events: event_each(self.events@),
        }
    }
}

fn has_opening(events: &Vec<SessionEvent>) -> (found: bool)
    ensures
        found == opens(events@),
{
    let mut i: usize = 0;
    while i < events.len()
        invariant
            i <= events@.len(),
            forall|k: int| 0 <= k < i ==> !(#[trigger] events@[k] is Opened),
        decreases events@.len() - i,
    {
        if events[i] == SessionEvent::Opened {
            assert(events@[i as int] is Opened);
            return true;
        }
        i = i + 1;
    }
    false
}

impl SoeMultiplexer {
    /// Creates a multiplexer without sessions.
    pub fn new(config: SocketConfig) -> (mux: Self)
        ensures
            mux@.wf(),
            mux@ == (Mux {
                params: config.default_session_params@,
                cipher: cipher_view(config.default_application_params.encryption_key_state),
                seed: config.rng_seed,
                entries: Seq::empty(),
                outgoing: Seq::empty(),
                events: Seq::empty(),
            }),
    {
        let seed: u64 = config.rng_seed;
        let mux = Self {
            config,
            seed,
            sessions: Vec::new(),
            outgoing: Vec::new(),
            events: Vec::new(),
        };
        assert(mux@ =~= (Mux {
            params: config.default_session_params@,
            cipher: cipher_view(config.default_application_params.encryption_key_state),
            seed: config.rng_seed,
            entries: Seq::empty(),
            outgoing: Seq::empty(),
            events: Seq::empty(),
        }));
        mux
    }

    /// Returns the number of sessions.
    pub fn session_count(&self) -> (n: usize)
        ensures
            n == self@.entries.len(),
    {
        self.sessions.len()
    }

    /// Returns whether there is a session with `remote`.
    pub fn has_session(&self, remote: u64) -> (found: bool)
        ensures
            found == (entry_position(self@.entries, remote, 0) is Some),
    {
        self.find(remote).is_some()
    }

    /// Drains the datagrams to send, each with the remote that it is for.
    pub fn take_outgoing(&mut self) -> (datagrams: Vec<(u64, Bytes)>)
        ensures
            addressed_each(datagrams@) == old(self)@.outgoing,
            final(self)@ == (Mux { outgoing: Seq::empty(), ..old(self)@ }),
    {
        let mut datagrams: Vec<(u64, Bytes)> = Vec::new();
        std::mem::swap(&mut datagrams, &mut self.outgoing);
        assert(self@ =~= (Mux { outgoing: Seq::empty(), ..old(self)@ }));
        datagrams
    }

    /// Drains the events.
    pub fn take_events(&mut self) -> (events: Vec<SocketEvent>)
        ensures
            event_each(events@) == old(self)@.events,
            final(self)@ == (Mux { events: Seq::empty(), ..old(self)@ }),
    {
        let mut events: Vec<SocketEvent> = Vec::new();
        std::mem::swap(&mut events, &mut self.events);
        assert(self@ =~= (Mux { events: Seq::empty(), ..old(self)@ }));
        events
    }

    fn find(&self, remote: u64) -> (pos: Option<usize>)
        ensures
            match pos {
                Some(pos) => entry_position(self@.entries, remote, 0) == Some(pos as int)
                    && pos < self@.entries.len(),
                None => entry_position(self@.entries, remote, 0) is None,
            },
    {
        let mut i: usize = 0;
        while i < self.sessions.len()
            invariant
                i <= self@.entries.len(),
                self@.entries.len() == self.sessions@.len(),
                entry_position(self@.entries, remote, 0) == entry_position(
                    self@.entries,
                    remote,
                    i as int,
                ),
            decreases self.sessions@.len() - i,
        {
            assert(self@.entries[i as int] == entry_view(self.sessions@[i as int]));
            if self.sessions[i].0 == remote {
                return Some(i);
            }
            i = i + 1;
        }
        None
    }

    fn send(&mut self, remote: u64, datagram: Bytes)
        ensures
            final(self)@ == (Mux {
                outgoing: old(self)@.outgoing.push((remote, held(datagram))),
                ..old(self)@
            }),
    {
        self.outgoing.push((remote, datagram));
        assert(self@.outgoing =~= old(self)@.outgoing.push((remote, held(datagram))));
        assert(self@ =~= (Mux {
            outgoing: old(self)@.outgoing.push((remote, held(datagram))),
            ..old(self)@
        }));
    }

    fn report(&mut self, event: SocketEvent)
        ensures
            final(self)@ == (Mux { events: old(self)@.events.push(event@), ..old(self)@ }),
    {
        self.events.push(event);
        assert(self@.events =~= old(self)@.events.push(event@));
        assert(self@ =~= (Mux { events: old(self)@.events.push(event@), ..old(self)@ }));
    }

    fn report_lifecycle(&mut self, remote: u64, events: &Vec<SessionEvent>, opening: bool)
        ensures
            final(self)@ == (Mux {
                events: old(self)@.events + lifecycle(remote, events@, opening),
                ..old(self)@
            }),
    {
        let ghost start = self@;
        let mut i: usize = 0;
        assert(events@.take(0) =~= Seq::empty());
        assert(start.events + lifecycle(remote, events@.take(0), opening) =~= start.events);
        while i < events.len()
            invariant
                i <= events@.len(),
                self@ =~= (Mux {
                    events: start.events + lifecycle(
                        remote,
                        events@.take(i as int),
                        opening,
                    ),
                    ..start
                }),
            decreases events@.len() - i,
        {
            let event = events[i];
            let ghost before = lifecycle(remote, events@.take(i as int), opening);
            proof {
                assert(events@.take(i + 1).drop_last() =~= events@.take(i as int));
                assert(events@.take(i + 1).last() == event);
            }
            match event {
                SessionEvent::Opened => {
                    if opening {
                        self.report(SocketEvent::SessionOpened { remote });
                    }
                },
                SessionEvent::Closed(reason) => {
                    if !opening {
                        self.report(SocketEvent::SessionClosed { remote, reason });
                    }
                },
            }
            assert(start.events + before.push(reported(remote, event)) =~= (start.events
                + before).push(reported(remote, event)));
            i = i + 1;
        }
        assert(events@.take(i as int) =~= events@);
    }

    fn report_data(&mut self, remote: u64, received: Vec<ReceivedData>)
        ensures
            final(self)@ == (Mux {
                events: old(self)@.events + data_events(remote, received_each(received@)),
                ..old(self)@
            }),
    {
        let ghost start = self@;
        let ghost all = data_events(remote, received_each(received@));
        let mut i: usize = 0;
        while i < received.len()
            invariant
                i <= received@.len(),
                all == data_events(remote, received_each(received@)),
                all.len() == received@.len(),
                self@ =~= (Mux { events: start.events + all.take(i as int), ..start }),
            decreases received@.len() - i,
        {
            let data = bytes_clone(&received[i].data);
            let channel = received[i].channel;
            self.report(SocketEvent::DataReceived { remote, data, channel });
            proof {
                assert(received_each(received@)[i as int] == received@[i as int]@);
                assert(all.take(i + 1) =~= all.take(i as int).push(all[i as int]));
            }
            i = i + 1;
        }
        assert(all.take(i as int) =~= all);
    }

    fn send_all(&mut self, remote: u64, datagrams: Vec<Bytes>)
        ensures
            final(self)@ == (Mux {
                outgoing: old(self)@.outgoing + addressed(remote, held_each(datagrams@)),
                ..old(self)@
            }),
    {
        let ghost start = self@;
        let ghost all = addressed(remote, held_each(datagrams@));
        let mut i: usize = 0;
        while i < datagrams.len()
            invariant
                i <= datagrams@.len(),
                all == addressed(remote, held_each(datagrams@)),
                all.len() == datagrams@.len(),
                self@ =~= (Mux { outgoing: start.outgoing + all.take(i as int), ..start }),
            decreases datagrams@.len() - i,
        {
            self.send(remote, bytes_clone(&datagrams[i]));
            proof {
                assert(held_each(datagrams@)[i as int] == held(datagrams@[i as int]));
                assert(all.take(i + 1) =~= all.take(i as int).push(all[i as int]));
            }
            i = i + 1;
        }
        assert(all.take(i as int) =~= all);
    }

    /// Puts a session in the place of number `i`.
    fn put(&mut self, i: usize, remote: u64, opened: bool, session: SoeSession)
        requires
            i <= old(self)@.entries.len(),
        ensures
            final(self)@ == (Mux {
                entries: old(self)@.entries.insert(
                    i as int,
                    MuxEntry { remote, opened, session: session@ },
                ),
                ..old(self)@
            }),
    {
        let ghost before = self.sessions@;
        let ghost start = self@;
        let ghost entry = MuxEntry { remote, opened, session: session@ };
        self.sessions.insert(i, (remote, opened, session));
        proof {
            let after = start.entries.insert(i as int, entry);
            assert(self.sessions@ =~= before.insert(i as int, self.sessions@[i as int]));
            assert forall|k: int| 0 <= k < after.len() implies self@.entries[k] == after[k] by {
                if k < i {
                    assert(start.entries[k] == entry_view(before[k]));
                } else if k > i {
                    assert(start.entries[k - 1] == entry_view(before[k - 1]));
                }
            }
            assert(self@.entries =~= after);
            assert(self@ =~= (Mux { entries: after, ..start }));
        }
    }

    /// Takes session number `i` out.
    fn take(&mut self, i: usize) -> (entry: (u64, bool, SoeSession))
        requires
            i < old(self)@.entries.len(),
        ensures
            entry_view(entry) == old(self)@.entries[i as int],
            final(self)@ == (Mux {
                entries: old(self)@.entries.remove(i as int),
                ..old(self)@
            }),
    {
        let ghost before = self.sessions@;
        let ghost start = self@;
        assert(start.entries[i as int] == entry_view(before[i as int]));
        let entry = self.sessions.remove(i);
        proof {
            let after = start.entries.remove(i as int);
            assert forall|k: int| 0 <= k < after.len() implies self@.entries[k] == after[k] by {
                if k < i {
                    assert(start.entries[k] == entry_view(before[k]));
                } else {
                    assert(start.entries[k + 1] == entry_view(before[k + 1]));
                }
            }
            assert(self@.entries =~= after);
            assert(self@ =~= (Mux { entries: after, ..start }));
        }
        entry
    }

    /// Passes on what a session that has been taken out of place `i` has to report, and
    /// puts it back if it can be kept.
    fn settle(&mut self, i: usize, remote: u64, opened: bool, session: SoeSession)
        requires
            i <= old(self)@.entries.len(),
            session@.wf(),
            session@.settled(),
        ensures
            final(self)@ == (Mux {
                entries: old(self)@.entries.insert(
                    i as int,
                    MuxEntry { remote, opened, session: session@ },
                ),
                ..old(self)@
            }).settled_at(i as int),
            ({
                let told = opened || opens(session@.events);
                let kept = MuxEntry { remote, opened: told, session: emptied(session@, told) };
                if session@.state is Terminated || !session@.params.usable() {
                    final(self)@.entries == old(self)@.entries
                } else {
                    &&& final(self)@.entries == old(self)@.entries.insert(i as int, kept)
                    &&& Mux::keeps(kept)
                }
            }),
    {
        let ghost start = self@;
        let ghost s = session@;
        let ghost entry = MuxEntry { remote, opened, session: s };
        let ghost whole = Mux { entries: start.entries.insert(i as int, entry), ..start };
        let mut session = session;
        let datagrams = session.take_outgoing();
        let events = session.take_events();
        let told = opened || has_opening(&events);
        self.send_all(remote, datagrams);
        if told {
            let received = session.take_received();
            self.report_lifecycle(remote, &events, true);
            self.report_data(remote, received);
            self.report_lifecycle(remote, &events, false);
        }
        proof {
            assert(session@ =~= emptied(s, told));
            assert(whole.entries[i as int] == entry);
            assert(whole.entries.remove(i as int) =~= start.entries);
            lemma_same_channels(s, emptied(s, told));
        }
        if session.state() == SessionState::Terminated {
            assert(self@ =~= whole.settled_at(i as int));
            return;
        }
        if !session.is_usable() {
            if told {
                self.report(
                    SocketEvent::SessionClosed {
                        remote,
                        reason: DisconnectReason::ConnectError,
                    },
                );
            }
            assert(self@ =~= whole.settled_at(i as int));
            return;
        }
        self.put(i, remote, told, session);
        proof {
            let kept = MuxEntry { remote, opened: told, session: emptied(s, told) };
            assert(whole.entries.update(i as int, kept) =~= start.entries.insert(
                i as int,
                kept,
            ));
            assert(self@ =~= whole.settled_at(i as int));
        }
    }

    /// Puts session number `i`, which has been taken out, back in its new state.
    fn replace(
        &mut self,
        i: usize,
        remote: u64,
        opened: bool,
        session: SoeSession,
        Ghost(before): Ghost<Mux>,
    )
        requires
            before.wf(),
            i < before.entries.len(),
            old(self)@ == (Mux { entries: before.entries.remove(i as int), ..before }),
            remote == before.entries[i as int].remote,
            opened == before.entries[i as int].opened,
            session@.wf(),
            session@.settled(),
        ensures
            final(self)@ == before.with_session(i as int, session@).settled_at(i as int),
            final(self)@.wf(),
            final(self)@.entries.len() <= before.entries.len(),
            final(self)@.entries.len() >= before.entries.len() - 1,
    {
        let ghost without = self@;
        let ghost s = session@;
        self.settle(i, remote, opened, session);
        proof {
            let entry = MuxEntry { remote, opened, session: s };
            assert(without.entries.insert(i as int, entry) =~= before.entries.update(
                i as int,
                entry,
            ));
            lemma_wf_without(before, i as int);
            if s.state !is Terminated && s.params.usable() {
                assert forall|k: int| 0 <= k < without.entries.len() implies (
                #[trigger] without.entries[k]).remote != remote by {
                    let from = if k < i { k } else { k + 1 };
                    assert(without.entries[k] == before.entries[from]);
                    if from < i {
                        assert(before.entries[from].remote != before.entries[i as int].remote);
                    } else {
                        assert(before.entries[i as int].remote != before.entries[from].remote);
                    }
                }
                let told = opened || opens(s.events);
                lemma_wf_with(
                    without,
                    i as int,
                    MuxEntry { remote, opened: told, session: emptied(s, told) },
                );
            }
        }
    }

    /// Adds the first session with `remote`.
    fn add_session(&mut self, remote: u64, session: SoeSession)
        requires
            old(self)@.wf(),
            entry_position(old(self)@.entries, remote, 0) is None,
            session@.wf(),
            session@.settled(),
        ensures
            final(self)@ == old(self)@.with_new(remote, session@),
            final(self)@.wf(),
    {
        let ghost start = self@;
        let ghost s = session@;
        let n: usize = self.sessions.len();
        self.seed = self.seed.wrapping_add(1);
        let ghost counted = Mux { seed: start.seed.wrapping_add(1), ..start };
        assert(self@ =~= counted);
        self.settle(n, remote, false, session);
        proof {
            let entry = MuxEntry { remote, opened: false, session: s };
            assert(counted.entries.insert(n as int, entry) =~= start.entries.push(entry));
            if s.state !is Terminated && s.params.usable() {
                lemma_entry_position(start.entries, remote, 0);
                let told = opens(s.events);
                lemma_wf_with(
                    counted,
                    n as int,
                    MuxEntry { remote, opened: told, session: emptied(s, told) },
                );
            }
        }
    }

    fn fresh_session(&self, mode: SessionMode, now: Instant) -> (session: SoeSession)
        ensures
            session@ == self@.fresh(mode, now@),
            session@.wf(),
            session@.settled(),
    {
        SoeSession::new(
            mode,
            self.config.default_session_params.clone(),
            self.config.default_application_params.clone(),
            self.seed,
            now,
        )
    }

    /// Opens a client session to `remote`, unless there is a session with it already.
    pub fn connect(&mut self, remote: u64, now: Instant)
        requires
            old(self)@.wf(),
            encode_utf8(old(self)@.params.application_protocol).len() + 15 <= usize::MAX,
        ensures
            final(self)@ == old(self)@.connected(remote, now@),
            final(self)@.wf(),
    {
        if self.find(remote).is_some() {
            return;
        }
        let mut session = self.fresh_session(SessionMode::Client, now);
        session.send_session_request();
        self.add_session(remote, session);
    }

    /// Processes a datagram from `remote`.
    pub fn process_incoming(&mut self, remote: u64, datagram: Bytes, now: Instant)
        requires
            old(self)@.wf(),
        ensures
            final(self)@ == old(self)@.datagram_received(remote, held(datagram), now@),
            final(self)@.wf(),
    {
        let ghost before = self@;
        match self.find(remote) {
            Some(i) => {
                assert(Mux::keeps(before.entries[i as int]));
                let (remote, opened, mut session) = self.take(i);
                session.process_incoming(datagram, now);
                self.replace(i, remote, opened, session, Ghost(before));
            },
            None => match read_op_code(bytes_ref(&datagram)) {
                Some(OpCode::SessionRequest) => {
                    let mut session = self.fresh_session(SessionMode::Server, now);
                    if session.is_usable() {
                        session.process_incoming(datagram, now);
                    }
                    self.add_session(remote, session);
                },
                Some(OpCode::UnknownSender) => {},
                _ => {
                    let mut reply: Vec<u8> = vec![0u8; UnknownSender::SIZE];
                    proof {
                        let fields = seq![op_code_bytes(OpCode::UnknownSender)];
                        reveal_with_fuel(concat_from, 2);
                        lemma_be_bytes_len(0x1D, 2);
                        assert(concat(fields) =~= fields[0]);
                        lemma_write_fields_exact(reply@, fields);
                    }
                    let _ = UnknownSender::serialize(reply.as_mut_slice());
                    self.send(remote, bytes_from_vec(reply));
                },
            },
        }
    }

    /// Enqueues application data to be sent reliably to `remote`. Returns `false` if it was
    /// dropped.
    #[must_use]
    pub fn enqueue_data(&mut self, remote: u64, data: &[u8]) -> (accepted: bool)
        requires
            old(self)@.wf(),
        ensures
            (final(self)@, accepted) == old(self)@.enqueued(
                remote,
                data@,
                Channel::Reliable(0),
            ),
            final(self)@.wf(),
    {
        self.enqueue_data_on(remote, data, Channel::Reliable(0))
    }

    /// Enqueues application data to be sent to `remote` on the given channel. Returns
    /// `false` if it was dropped: there is no running session with `remote`, the channel is
    /// out of range, or packets have no room for the data.
    #[must_use]
    pub fn enqueue_data_on(&mut self, remote: u64, data: &[u8], channel: Channel) -> (accepted:
        bool)
        requires
            old(self)@.wf(),
        ensures
            (final(self)@, accepted) == old(self)@.enqueued(remote, data@, channel),
            final(self)@.wf(),
    {
        let ghost before = self@;
        match self.find(remote) {
            None => false,
            Some(i) => {
                assert(Mux::keeps(before.entries[i as int]));
                assert(before.entries[i as int] == entry_view(self.sessions@[i as int]));
                if !self.sessions[i].2.has_room_for(data, channel) {
                    return false;
                }
                let (remote, opened, mut session) = self.take(i);
                let accepted = session.enqueue_data_on(data, channel);
                self.replace(i, remote, opened, session, Ghost(before));
                accepted
            },
        }
    }

    /// Terminates the session with `remote`, if there is one, and notifies it.
    pub fn terminate(&mut self, remote: u64, reason: DisconnectReason, now: Instant)
        requires
            old(self)@.wf(),
        ensures
            final(self)@ == old(self)@.terminated(remote, reason, now@),
            final(self)@.wf(),
    {
        let ghost before = self@;
        if let Some(i) = self.find(remote) {
            assert(Mux::keeps(before.entries[i as int]));
            let (remote, opened, mut session) = self.take(i);
            session.terminate(reason, true, now);
            self.replace(i, remote, opened, session, Ghost(before));
        }
    }

    /// Runs a tick of all sessions.
    pub fn run_tick(&mut self, now: Instant)
        requires
            old(self)@.wf(),
        ensures
            final(self)@ == old(self)@.ticked(now@),
            final(self)@.wf(),
    {
        let ghost start = self@;
        let mut i: usize = 0;
        while i < self.sessions.len()
            invariant
                self@.wf(),
                i <= self@.entries.len(),
                self@.entries.len() == self.sessions@.len(),
                start.ticked(now@) == self@.ticked_from(i as int, now@),
            decreases self@.entries.len() - i,
        {
            let ghost before = self@;
            assert(Mux::keeps(before.entries[i as int]));
            let count: usize = self.sessions.len();
            let (remote, opened, mut session) = self.take(i);
            session.run_tick(now);
            self.replace(i, remote, opened, session, Ghost(before));
            if self.sessions.len() == count {
                i = i + 1;
            }
        }
    }
}

/// The session with a remote, if there is one.
pub open spec fn session_with(entries: Seq<MuxEntry>, remote: u64) -> Option<Session> {
    match entry_position(entries, remote, 0) {
        Some(i) => Some(entries[i].session),
        None => None,
    }
}

proof fn lemma_others_stay(m: Mux, i: int, s: Session, other: u64)
    requires
        m.wf(),
        0 <= i < m.entries.len(),
        m.entries[i].remote != other,
    ensures
        session_with(m.with_session(i, s).settled_at(i).entries, other) == session_with(
            m.entries,
            other,
        ),
{
    let after = m.with_session(i, s).settled_at(i).entries;
    lemma_entry_position(m.entries, other, 0);
    lemma_entry_position(after, other, 0);
    if after.len() == m.entries.len() {
        match entry_position(m.entries, other, 0) {
            Some(p) => {
                assert(after[p] == m.entries[p]);
                let q = entry_position(after, other, 0)->Some_0;
                assert(after[q] == m.entries[q]);
                assert(p < q ==> m.entries[p].remote != m.entries[q].remote);
                assert(q < p ==> m.entries[q].remote != m.entries[p].remote);
            },
            None => {
                if entry_position(after, other, 0) is Some {
                    let q = entry_position(after, other, 0)->Some_0;
                    assert(after[q].remote == m.entries[q].remote);
                }
            },
        }
    } else {
        assert(after =~= m.entries.remove(i));
        match entry_position(m.entries, other, 0) {
            Some(p) => {
                let at = if p < i { p } else { p - 1 };
                assert(after[at] == m.entries[p]);
                let q = entry_position(after, other, 0)->Some_0;
                let from = if q < i { q } else { q + 1 };
                assert(after[q] == m.entries[from]);
                assert(p < from ==> m.entries[p].remote != m.entries[from].remote);
                assert(from < p ==> m.entries[from].remote != m.entries[p].remote);
            },
            None => {
                if entry_position(after, other, 0) is Some {
                    let q = entry_position(after, other, 0)->Some_0;
                    let from = if q < i { q } else { q + 1 };
                    assert(after[q] == m.entries[from]);
                }
            },
        }
    }
}

proof fn lemma_others_stay_new(m: Mux, remote: u64, s: Session, other: u64)
    requires
        m.wf(),
        remote != other,
    ensures
        session_with(m.with_new(remote, s).entries, other) == session_with(m.entries, other),
{
    let n = m.entries.len() as int;
    let after = m.with_new(remote, s).entries;
    let added = m.entries.push(MuxEntry { remote, opened: false, session: s });
    lemma_entry_position(m.entries, other, 0);
    lemma_entry_position(after, other, 0);
    assert(added.remove(n) =~= m.entries);
    if after.len() > n {
        assert(after[n].remote == remote);
        assert forall|k: int| 0 <= k < n implies after[k] == m.entries[k] by {}
        match entry_position(m.entries, other, 0) {
            Some(p) => {
                assert(after[p] == m.entries[p]);
                let q = entry_position(after, other, 0)->Some_0;
                assert(after[q] == m.entries[q]);
                assert(p < q ==> m.entries[p].remote != m.entries[q].remote);
                assert(q < p ==> m.entries[q].remote != m.entries[p].remote);
            },
            None => {
                if entry_position(after, other, 0) is Some {
                    let q = entry_position(after, other, 0)->Some_0;
                    assert(after[q].remote == m.entries[q].remote);
                }
            },
        }
    } else {
        assert(after =~= m.entries);
    }
}

/// Sessions do not disturb each other: whatever is done to, or received from, one remote,
/// the session with any other stays as it is.
pub proof fn law_sessions_are_separate(
    m: Mux,
    remote: u64,
    other: u64,
    datagram: Seq<u8>,
    data: Seq<u8>,
    channel: Channel,
    reason: DisconnectReason,
    now: nat,
)
    requires
        m.wf(),
        remote != other,
    ensures
        session_with(m.datagram_received(remote, datagram, now).entries, other) == session_with(
            m.entries,
            other,
        ),
        session_with(m.connected(remote, now).entries, other) == session_with(m.entries, other),
        session_with(m.enqueued(remote, data, channel).0.entries, other) == session_with(
            m.entries,
            other,
        ),
        session_with(m.terminated(remote, reason, now).entries, other) == session_with(
            m.entries,
            other,
        ),
{
    lemma_entry_position(m.entries, remote, 0);
    match entry_position(m.entries, remote, 0) {
        Some(i) => {
            let s = m.entries[i].session;
            lemma_others_stay(m, i, s.datagram_received(datagram, now), other);
            lemma_others_stay(m, i, s.enqueued(data, channel).0, other);
            lemma_others_stay(m, i, s.terminated(reason, true, false, now), other);
        },
        None => {
            let server = m.fresh(SessionMode::Server, now);
            lemma_others_stay_new(m, remote, server, other);
            lemma_others_stay_new(m, remote, server.datagram_received(datagram, now), other);
            lemma_others_stay_new(
                m,
                remote,
                m.fresh(SessionMode::Client, now).requested(),
                other,
            );
        },
    }
}

proof fn lemma_wf_without(m: Mux, i: int)
    requires
        m.wf(),
        0 <= i < m.entries.len(),
    ensures
        (Mux { entries: m.entries.remove(i), ..m }).wf(),
{
    let rest = m.entries.remove(i);
    assert forall|k: int| 0 <= k < rest.len() implies Mux::keeps(
        #[trigger] rest[k],
    ) by {
        let from = if k < i { k } else { k + 1 };
        assert(rest[k] == m.entries[from]);
    }
    assert forall|a: int, b: int| 0 <= a < b < rest.len() implies (#[trigger] rest[a]).remote
        != (#[trigger] rest[b]).remote by {
        let x = if a < i { a } else { a + 1 };
        let y = if b < i { b } else { b + 1 };
        assert(rest[a] == m.entries[x] && rest[b] == m.entries[y]);
    }
}

proof fn lemma_wf_with(m: Mux, i: int, entry: MuxEntry)
    requires
        m.wf(),
        0 <= i <= m.entries.len(),
        Mux::keeps(entry),
        forall|k: int| 0 <= k < m.entries.len() ==> (#[trigger] m.entries[k]).remote
            != entry.remote,
    ensures
        (Mux { entries: m.entries.insert(i, entry), ..m }).wf(),
{
    let all = m.entries.insert(i, entry);
    assert forall|k: int| 0 <= k < all.len() implies Mux::keeps(
        #[trigger] all[k],
    ) by {
        if k < i {
            assert(all[k] == m.entries[k]);
        } else if k > i {
            assert(all[k] == m.entries[k - 1]);
        }
    }
    assert forall|a: int, b: int| 0 <= a < b < all.len() implies (#[trigger] all[a]).remote != (
    #[trigger] all[b]).remote by {
        if a < i {
            assert(all[a] == m.entries[a]);
        } else if a > i {
            assert(all[a] == m.entries[a - 1]);
        }
        if b < i {
            assert(all[b] == m.entries[b]);
        } else if b > i {
            assert(all[b] == m.entries[b - 1]);
        }
    }
}

} // verus!
