//! What a driver of the multiplexer does each time it wakes up.
//!
//! A driver owns a socket and a multiplexer. It waits until a datagram arrives, it is time
//! for a tick, or a command comes in, hands what has happened to a function of this module,
//! and does what that function says: send datagrams, forward events, go on or stop.

pub mod laws;

use vstd::prelude::*;
use vstd::utf8::encode_utf8;

use bytes::Bytes;

use crate::buffer::{bytes_clone, bytes_ref, held, held_each};
use crate::protocol::DisconnectReason;
use crate::session::Channel;
use crate::socket::{
    addressed_each, event_each, Mux, MuxEvent, SocketEvent, SoeMultiplexer,
};
use crate::time::Instant;

verus! {

/// A command to the driver of a server.
#[derive(Debug)]
pub enum Command {
    /// Open a client session to a remote.
    Connect(u64),
    /// Enqueue application data for a remote.
    EnqueueData {
        /// The remote.
        remote: u64,
        /// The data.
        data: Bytes,
        /// The channel to send it on.
        channel: Channel,
    },
    /// Terminate the session with a remote.
    Terminate {
        /// The remote.
        remote: u64,
        /// The reason to give.
        reason: DisconnectReason,
    },
}

/// Why the driver of a server has woken up.
#[derive(Debug)]
pub enum Wake {
    /// A datagram has arrived.
    Datagram {
        /// The remote that sent it.
        remote: u64,
        /// The datagram.
        datagram: Bytes,
    },
    /// Receiving a datagram has failed.
    ReceiveFailed,
    /// It is time for a tick.
    Tick,
    /// A command has come in.
    Command(Command),
    /// No more commands can come in.
    CommandsClosed,
}

/// What the driver of a server is to do.
#[derive(Debug)]
pub enum Step {
    /// Send the datagrams, forward the events and go on.
    Proceed {
        /// The datagrams to send, each with the remote that it is for.
        outgoing: Vec<(u64, Bytes)>,
        /// The events to forward.
        events: Vec<SocketEvent>,
    },
    /// Go on at once.
    Skip,
    /// Stop.
    Stop,
}

/// The multiplexer after something has woken the driver up.
pub open spec fn woken(m: Mux, wake: Wake, now: nat) -> Mux {
    match wake {
        Wake::Datagram { remote, datagram } => m.datagram_received(remote, held(datagram), now),
        Wake::ReceiveFailed => m,
        Wake::Tick => m.ticked(now),
        Wake::Command(Command::Connect(remote)) => m.connected(remote, now),
        Wake::Command(Command::EnqueueData { remote, data, channel }) => m.enqueued(
            remote,
            held(data),
            channel,
        ).0,
        Wake::Command(Command::Terminate { remote, reason }) => m.terminated(
            remote,
            reason,
            now,
        ),
        Wake::CommandsClosed => m,
    }
}

/// A multiplexer whose queues have been drained.
pub open spec fn drained(m: Mux) -> Mux {
    Mux { outgoing: Seq::empty(), events: Seq::empty(), ..m }
}

/// Decides what the driver of a server does: a datagram, a tick or a command goes to the
/// multiplexer, and what that has to send and to report is passed on. A failure to receive
/// is passed over, since it need not mean anything for the other sessions. Once no more
/// commands can come in, nothing can drive the server, and the driver stops.
pub fn server_step(mux: &mut SoeMultiplexer, wake: Wake, now: Instant) -> (step: Step)
    requires
        old(mux)@.wf(),
        encode_utf8(old(mux)@.params.application_protocol).len() + 15 <= usize::MAX,
    ensures
        final(mux)@.wf(),
        match wake {
            Wake::ReceiveFailed => step is Skip && final(mux)@ == old(mux)@,
            Wake::CommandsClosed => step is Stop && final(mux)@ == old(mux)@,
            _ => {
                let after = woken(old(mux)@, wake, now@);
                &&& step matches Step::Proceed { outgoing, events }
                &&& addressed_each(outgoing@) == after.outgoing
                &&& event_each(events@) == after.events
                &&& final(mux)@ == drained(after)
            },
        },
{
    match wake {
        Wake::Datagram { remote, datagram } => {
            mux.process_incoming(remote, datagram, now);
        },
        Wake::ReceiveFailed => {
            return Step::Skip;
        },
        Wake::Tick => {
            mux.run_tick(now);
        },
        Wake::Command(command) => match command {
            Command::Connect(remote) => {
                mux.connect(remote, now);
            },
            // If no running session exists for `remote` the data is dropped: commands are
            // not answered.
            Command::EnqueueData { remote, data, channel } => {
                let _ = mux.enqueue_data_on(remote, bytes_ref(&data), channel);
            },
            Command::Terminate { remote, reason } => {
                mux.terminate(remote, reason, now);
            },
        },
        Wake::CommandsClosed => {
            return Step::Stop;
        },
    }
    let ghost after = mux@;
    let outgoing = mux.take_outgoing();
    let events = mux.take_events();
    proof {
        assert(after == woken(old(mux)@, wake, now@));
        assert(mux@ =~= drained(after));
    }
    Step::Proceed { outgoing, events }
}

/// One cycle of a socket that is driven step by step: a datagram, if one has arrived, is
/// processed, the sessions are ticked, and what there is to send and to report comes out.
pub fn socket_step(
    mux: &mut SoeMultiplexer,
    arrived: Option<(u64, Bytes)>,
    arrived_at: Instant,
    now: Instant,
) -> (r: (Vec<(u64, Bytes)>, Vec<SocketEvent>))
    requires
        old(mux)@.wf(),
    ensures
        final(mux)@.wf(),
        ({
            let received = match arrived {
                Some((remote, datagram)) => old(mux)@.datagram_received(
                    remote,
                    held(datagram),
                    arrived_at@,
                ),
                None => old(mux)@,
            };
            let after = received.ticked(now@);
            &&& addressed_each(r.0@) == after.outgoing
            &&& event_each(r.1@) == after.events
            &&& final(mux)@ == drained(after)
        }),
{
    if let Some((remote, datagram)) = arrived {
        mux.process_incoming(remote, datagram, arrived_at);
    }
    mux.run_tick(now);
    let ghost after = mux@;
    let outgoing = mux.take_outgoing();
    let events = mux.take_events();
    assert(mux@ =~= drained(after));
    (outgoing, events)
}

/// A command to the driver of a client.
#[derive(Debug)]
pub enum ClientCommand {
    /// Enqueue application data for the server.
    EnqueueData {
        /// The data.
        data: Bytes,
        /// The channel to send it on.
        channel: Channel,
    },
    /// Terminate the session.
    Terminate {
        /// The reason to give.
        reason: DisconnectReason,
    },
}

/// An event surfaced by the driver of a client: a [`SocketEvent`] without the remote, since
/// a client talks to a single server.
#[derive(Debug, PartialEq, Eq)]
pub enum ClientEvent {
    /// The session with the server has been established. This is always the first event,
    /// and data may only be sent once it has been observed.
    Connected,
    /// Application data was received from the server.
    DataReceived {
        /// The received application data.
        data: Bytes,
        /// Whether the data arrived on the reliable or unreliable channel.
        channel: Channel,
    },
    /// The session with the server has terminated for the given reason.
    Disconnected {
        /// The reason the session terminated.
        reason: DisconnectReason,
    },
}

impl Clone for ClientEvent {
    fn clone(&self) -> (copy: Self)
        ensures
            copy@ == self@,
    {
        match self {
            ClientEvent::Connected => ClientEvent::Connected,
            ClientEvent::DataReceived { data, channel } => ClientEvent::DataReceived {
                data: bytes_clone(data),
                channel: *channel,
            },
            ClientEvent::Disconnected { reason } => ClientEvent::Disconnected {
                reason: *reason,
            },
        }
    }
}

/// What a [`ClientEvent`] says.
pub enum ClientNews {
    /// The session has been established.
    Connected,
    /// Application data was received.
    DataReceived {
        /// The data.
        data: Seq<u8>,
        /// The channel that the data arrived on.
        channel: Channel,
    },
    /// The session has terminated.
    Disconnected {
        /// Why the session has terminated.
        reason: DisconnectReason,
    },
}

impl View for ClientEvent {
    type V = ClientNews;

    open spec fn view(&self) -> ClientNews {
        match *self {
            ClientEvent::Connected => ClientNews::Connected,
            ClientEvent::DataReceived { data, channel } => ClientNews::DataReceived {
                data: held(data),
                channel,
            },
            ClientEvent::Disconnected { reason } => ClientNews::Disconnected { reason },
        }
    }
}

/// What is left of an event without the remote.
pub open spec fn without_remote(event: MuxEvent) -> ClientNews {
    match event {
        MuxEvent::SessionOpened { remote } => ClientNews::Connected,
        MuxEvent::DataReceived { remote, data, channel } => ClientNews::DataReceived {
            data,
            channel,
        },
        MuxEvent::SessionClosed { remote, reason } => ClientNews::Disconnected { reason },
    }
}

/// A list of events without the remotes.
pub open spec fn news_of(events: Seq<MuxEvent>) -> Seq<ClientNews> {
    Seq::new(events.len(), |i: int| without_remote(events[i]))
}

/// What each of a list of client events says.
pub open spec fn news_each(list: Seq<ClientEvent>) -> Seq<ClientNews> {
    Seq::new(list.len(), |i: int| list[i]@)
}

/// The datagrams of a list without the remotes.
pub open spec fn unaddressed(list: Seq<(u64, Seq<u8>)>) -> Seq<Seq<u8>> {
    Seq::new(list.len(), |i: int| list[i].1)
}

/// Turns an event of the multiplexer into one for a client, which has a single session.
pub fn client_event(event: &SocketEvent) -> (news: ClientEvent)
    ensures
        news@ == without_remote(event@),
{
    match event {
        SocketEvent::SessionOpened { remote: _ } => ClientEvent::Connected,
        SocketEvent::DataReceived { remote: _, data, channel } => ClientEvent::DataReceived {
            data: bytes_clone(data),
            channel: *channel,
        },
        SocketEvent::SessionClosed { remote: _, reason } => ClientEvent::Disconnected {
            reason: *reason,
        },
    }
}

/// Why the driver of a client has woken up.
#[derive(Debug)]
pub enum ClientWake {
    /// A datagram has arrived from the server.
    Datagram(Bytes),
    /// Receiving a datagram has failed.
    ReceiveFailed,
    /// It is time for a tick.
    Tick,
    /// A command has come in.
    Command(ClientCommand),
    /// No more commands can come in.
    CommandsClosed,
}

/// What the driver of a client is to do.
#[derive(Debug)]
pub enum ClientStep {
    /// Send the datagrams to the server, forward the events and go on.
    Proceed {
        /// The datagrams to send.
        outgoing: Vec<Bytes>,
        /// The events to forward.
        events: Vec<ClientEvent>,
    },
    /// Go on at once.
    Skip,
    /// Stop.
    Stop,
}

/// What wakes up the driver of a client, as seen by the driver of a server.
pub open spec fn towards(server: u64, wake: ClientWake) -> Wake {
    match wake {
        ClientWake::Datagram(datagram) => Wake::Datagram { remote: server, datagram },
        ClientWake::ReceiveFailed => Wake::ReceiveFailed,
        ClientWake::Tick => Wake::Tick,
        ClientWake::Command(ClientCommand::EnqueueData { data, channel }) => Wake::Command(
            Command::EnqueueData { remote: server, data, channel },
        ),
        ClientWake::Command(ClientCommand::Terminate { reason }) => Wake::Command(
            Command::Terminate { remote: server, reason },
        ),
        ClientWake::CommandsClosed => Wake::CommandsClosed,
    }
}

fn strip_remotes(list: Vec<(u64, Bytes)>) -> (datagrams: Vec<Bytes>)
    ensures
        held_each(datagrams@) == unaddressed(addressed_each(list@)),
{
    let mut datagrams: Vec<Bytes> = Vec::new();
    let mut i: usize = 0;
    while i < list.len()
        invariant
            i <= list@.len(),
            datagrams@.len() == i,
            forall|k: int| 0 <= k < i ==> held(#[trigger] datagrams@[k]) == held(list@[k].1),
        decreases list@.len() - i,
    {
        datagrams.push(bytes_clone(&list[i].1));
        i = i + 1;
    }
    assert(held_each(datagrams@) =~= unaddressed(addressed_each(list@)));
    datagrams
}

fn client_events(list: Vec<SocketEvent>) -> (events: Vec<ClientEvent>)
    ensures
        news_each(events@) == news_of(event_each(list@)),
{
    let mut events: Vec<ClientEvent> = Vec::new();
    let mut i: usize = 0;
    while i < list.len()
        invariant
            i <= list@.len(),
            events@.len() == i,
            forall|k: int|
                0 <= k < i ==> (#[trigger] events@[k])@ == without_remote(list@[k]@),
        decreases list@.len() - i,
    {
        events.push(client_event(&list[i]));
        i = i + 1;
    }
    assert(news_each(events@) =~= news_of(event_each(list@)));
    events
}

/// Begins a client: asks the server for a session, at once rather than with the first tick,
/// and returns the datagrams to send.
pub fn client_start(mux: &mut SoeMultiplexer, server: u64, now: Instant) -> (outgoing: Vec<
    Bytes,
>)
    requires
        old(mux)@.wf(),
        encode_utf8(old(mux)@.params.application_protocol).len() + 15 <= usize::MAX,
    ensures
        final(mux)@.wf(),
        held_each(outgoing@) == unaddressed(old(mux)@.connected(server, now@).outgoing),
        final(mux)@ == (Mux {
            outgoing: Seq::empty(),
            ..old(mux)@.connected(server, now@)
        }),
{
    mux.connect(server, now);
    let outgoing = mux.take_outgoing();
    strip_remotes(outgoing)
}

/// Decides what the driver of a client does: what the driver of a server does with a single
/// remote, the server, which is left out of what is sent and reported.
pub fn client_step(mux: &mut SoeMultiplexer, server: u64, wake: ClientWake, now: Instant) -> (step:
    ClientStep)
    requires
        old(mux)@.wf(),
        encode_utf8(old(mux)@.params.application_protocol).len() + 15 <= usize::MAX,
    ensures
        final(mux)@.wf(),
        match wake {
            ClientWake::ReceiveFailed => step is Skip && final(mux)@ == old(mux)@,
            ClientWake::CommandsClosed => step is Stop && final(mux)@ == old(mux)@,
            _ => {
                let after = woken(old(mux)@, towards(server, wake), now@);
                &&& step matches ClientStep::Proceed { outgoing, events }
                &&& held_each(outgoing@) == unaddressed(after.outgoing)
                &&& news_each(events@) == news_of(after.events)
                &&& final(mux)@ == drained(after)
            },
        },
{
    let wake = match wake {
        ClientWake::Datagram(datagram) => Wake::Datagram { remote: server, datagram },
        ClientWake::ReceiveFailed => Wake::ReceiveFailed,
        ClientWake::Tick => Wake::Tick,
        ClientWake::Command(command) => match command {
            ClientCommand::EnqueueData { data, channel } => Wake::Command(
                Command::EnqueueData { remote: server, data, channel },
            ),
            ClientCommand::Terminate { reason } => Wake::Command(
                Command::Terminate { remote: server, reason },
            ),
        },
        ClientWake::CommandsClosed => Wake::CommandsClosed,
    };
    match server_step(mux, wake, now) {
        Step::Proceed { outgoing, events } => ClientStep::Proceed {
            outgoing: strip_remotes(outgoing),
            events: client_events(events),
        },
        Step::Skip => ClientStep::Skip,
        Step::Stop => ClientStep::Stop,
    }
}

} // verus!
