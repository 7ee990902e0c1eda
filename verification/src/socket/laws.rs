//! What a multiplexer sends and reports of each of its sessions, and to whom.

use vstd::prelude::*;

use bytes::Bytes;

use crate::buffer::{held, held_each};
use crate::channel::delivery_laws::{
    deliverable_all, enqueued_all, follows, law_packets_carry, packet_bound, preceded,
    travelling_each,
};
use crate::channel::input::InputState;
use crate::channel::output::OutputState;
use crate::packet_utils::op_code_in;
use crate::protocol::{DisconnectReason, OpCode};
use crate::session::conduct_laws::{
    datagram_of, drawn, in_step, law_enqueue_effects, law_new_session,
    law_reliable_packet_effects, law_tick_sends_what_waits, law_unreliable_effects, output_met,
};
use crate::session::handshake_laws::{law_request_sent, request_bytes};
use crate::session::laws::{agree, law_session_delivers};
use crate::session::model::{Params, Received, Session};
use crate::session::{Channel, SessionEvent, SessionMode};
use crate::socket::{
    addressed_each, data_events, entry_position, lemma_entry_position, lifecycle, opens, Mux,
    MuxEntry, MuxEvent,
};
use crate::wire::be_bytes;

verus! {

/// What is said of each opening among the events of the session with `remote`.
pub open spec fn openings(remote: u64, events: Seq<SessionEvent>) -> Seq<MuxEvent> {
    Seq::new(
        events.filter(|e: SessionEvent| e is Opened).len(),
        |i: int| MuxEvent::SessionOpened { remote },
    )
}

/// What is said of each end among the events of the session with `remote`.
pub open spec fn closings(remote: u64, events: Seq<SessionEvent>) -> Seq<MuxEvent> {
    let ends = events.filter(|e: SessionEvent| e is Closed);
    Seq::new(
        ends.len(),
        |i: int| MuxEvent::SessionClosed { remote, reason: ends[i]->Closed_0 },
    )
}

/// What is said of each piece of data that the session with `remote` has received: the data
/// and the channel that it arrived on.
pub open spec fn arrivals(remote: u64, received: Seq<Received>) -> Seq<MuxEvent> {
    Seq::new(
        received.len(),
        |i: int|
            MuxEvent::DataReceived {
                remote,
                data: received[i].data,
                channel: received[i].channel,
            },
    )
}

/// Each of some datagrams with the remote that it is for.
pub open spec fn for_each(remote: u64, datagrams: Seq<Seq<u8>>) -> Seq<(u64, Seq<u8>)> {
    Seq::new(datagrams.len(), |i: int| (remote, datagrams[i]))
}

/// Whether a session counts as opened once its events have been told.
pub open spec fn is_opened(opened: bool, s: Session) -> bool {
    opened || exists|k: int| 0 <= k < s.events.len() && #[trigger] s.events[k] is Opened
}

/// What is reported of a session: nothing before it has opened; and then that it has, what
/// has arrived, and that it is over. A session whose packets cannot be framed is over too.
pub open spec fn news(remote: u64, opened: bool, s: Session) -> Seq<MuxEvent> {
    if is_opened(opened, s) {
        openings(remote, s.events) + arrivals(remote, s.received) + closings(remote, s.events)
            + (if s.state !is Terminated && s.params.crc_length > 4 {
            seq![
                MuxEvent::SessionClosed { remote, reason: DisconnectReason::ConnectError },
            ]
        } else {
            Seq::empty()
        })
    } else {
        Seq::empty()
    }
}

/// What is kept of a session, if it is: the session without what has been passed on. Data is
/// held back until the session has opened.
pub open spec fn kept(remote: u64, opened: bool, s: Session) -> Option<MuxEntry> {
    if s.state is Terminated || s.params.crc_length > 4 {
        None
    } else {
        Some(
            MuxEntry {
                remote,
                opened: is_opened(opened, s),
                session: Session {
                    outgoing: Seq::empty(),
                    events: Seq::empty(),
                    received: if is_opened(opened, s) {
                        Seq::empty()
                    } else {
                        s.received
                    },
                    ..s
                },
            },
        )
    }
}

/// That a multiplexer has passed on what the session in place `i`, now `s`, has to send and
/// to report, and has touched nothing else.
pub open spec fn passed_on(m: Mux, i: int, s: Session, after: Mux) -> bool {
    let remote = m.entries[i].remote;
    let opened = m.entries[i].opened;
    &&& after.outgoing == m.outgoing + for_each(remote, s.outgoing)
    &&& after.events == m.events + news(remote, opened, s)
    &&& after.entries == (match kept(remote, opened, s) {
        Some(entry) => m.entries.update(i, entry),
        None => m.entries.remove(i),
    })
    &&& after.params == m.params
    &&& after.cipher == m.cipher
    &&& after.seed == m.seed
}

proof fn lemma_openings(remote: u64, events: Seq<SessionEvent>)
    ensures
        lifecycle(remote, events, true) == openings(remote, events),
    decreases events.len(),
{
    reveal(Seq::filter);
    if events.len() > 0 {
        lemma_openings(remote, events.drop_last());
    }
    assert(lifecycle(remote, events, true) =~= openings(remote, events));
}

proof fn lemma_closings(remote: u64, events: Seq<SessionEvent>)
    ensures
        lifecycle(remote, events, false) == closings(remote, events),
    decreases events.len(),
{
    reveal(Seq::filter);
    if events.len() > 0 {
        lemma_closings(remote, events.drop_last());
    }
    assert(lifecycle(remote, events, false) =~= closings(remote, events));
}

/// What a session has to send goes to its own remote, in order; what it has to report is
/// told of its own remote, one event for each opening, each piece of data with the channel
/// that it arrived on, and each end. No other session is touched.
#[verifier::rlimit(50)]
pub proof fn law_session_passed_on(m: Mux, i: int, s: Session)
    requires
        0 <= i < m.entries.len(),
    ensures
        passed_on(m, i, s, m.with_session(i, s).settled_at(i)),
{
    let remote = m.entries[i].remote;
    let opened = m.entries[i].opened;
    let set = m.with_session(i, s);
    let after = set.settled_at(i);
    lemma_openings(remote, s.events);
    lemma_closings(remote, s.events);
    assert(data_events(remote, s.received) =~= arrivals(remote, s.received));
    assert(after.outgoing =~= m.outgoing + for_each(remote, s.outgoing));
    assert(opens(s.events) || opened == is_opened(opened, s));
    assert(after.events =~= m.events + news(remote, opened, s));
    match kept(remote, opened, s) {
        Some(entry) => {
            assert(after.entries =~= m.entries.update(i, entry));
        },
        None => {
            assert(after.entries =~= m.entries.remove(i));
        },
    }
}

proof fn lemma_found(m: Mux, i: int)
    requires
        m.wf(),
        0 <= i < m.entries.len(),
    ensures
        entry_position(m.entries, m.entries[i].remote, 0) == Some(i),
{
    let remote = m.entries[i].remote;
    lemma_entry_position(m.entries, remote, 0);
    let p = entry_position(m.entries, remote, 0)->Some_0;
    assert(p < i ==> m.entries[p].remote != m.entries[i].remote);
    assert(i < p ==> m.entries[i].remote != m.entries[p].remote);
}

/// Everything that is done towards a remote is done to the session with that remote, and
/// what comes of it is passed on: a datagram that arrives, data that is enqueued, of which
/// is told whether it was accepted, and a termination, of which the remote is told.
pub proof fn law_goes_to_its_session(
    m: Mux,
    i: int,
    datagram: Seq<u8>,
    data: Seq<u8>,
    channel: Channel,
    reason: DisconnectReason,
    now: nat,
)
    requires
        m.wf(),
        0 <= i < m.entries.len(),
    ensures
        ({
            let remote = m.entries[i].remote;
            let s = m.entries[i].session;
            let (enqueued, accepted) = m.enqueued(remote, data, channel);
            &&& passed_on(
                m,
                i,
                s.datagram_received(datagram, now),
                m.datagram_received(remote, datagram, now),
            )
            &&& s.can_enqueue(data, channel) ==> accepted == s.enqueued(data, channel).1
                && passed_on(m, i, s.enqueued(data, channel).0, enqueued)
            &&& !s.can_enqueue(data, channel) ==> !accepted && enqueued == m
            &&& passed_on(
                m,
                i,
                s.terminated(reason, true, false, now),
                m.terminated(remote, reason, now),
            )
            &&& m.connected(remote, now) == m
        }),
{
    let s = m.entries[i].session;
    lemma_found(m, i);
    law_session_passed_on(m, i, s.datagram_received(datagram, now));
    law_session_passed_on(m, i, s.enqueued(data, channel).0);
    law_session_passed_on(m, i, s.terminated(reason, true, false, now));
}

/// A session as it begins.
pub open spec fn begun(m: Mux, mode: SessionMode, now: nat, s: Session) -> bool {
    &&& s.mode == mode
    &&& s.state is Negotiating
    &&& s.params == m.params
    &&& s.inputs == Seq::new(4, |k: int| None::<InputState>)
    &&& s.outputs == Seq::new(4, |k: int| None::<OutputState>)
    &&& s.cipher == m.cipher
    &&& !s.terminated_by_remote
    &&& !s.open_session_on_next_packet
    &&& s.last_received == now
    &&& s.received.len() == 0
    &&& s.events.len() == 0
}

/// A session that is asked for begins, and asks its remote in one datagram; the others go on
/// as before, and nothing is reported. A generator seed is used up.
#[verifier::rlimit(50)]
pub proof fn law_connect(m: Mux, remote: u64, now: nat)
    requires
        m.wf(),
        m.params.crc_length <= 4,
        forall|i: int| 0 <= i < m.entries.len() ==> (#[trigger] m.entries[i]).remote != remote,
    ensures
        ({
            let after = m.connected(remote, now);
            let s = after.entries.last().session;
            &&& after.entries == m.entries.push(after.entries.last())
            &&& after.entries.last().remote == remote
            &&& !after.entries.last().opened
            &&& begun(m, SessionMode::Client, now, s)
            &&& s.session_id as int == drawn(m.seed ^ 0x9E37_79B9_7F4A_7C15)
            &&& s.outgoing.len() == 0
            &&& after.outgoing == m.outgoing.push(
                (
                    remote,
                    request_bytes(
                        3,
                        s.session_id,
                        m.params.udp_length,
                        m.params.application_protocol,
                    ),
                ),
            )
            &&& after.events == m.events
            &&& after.seed == m.seed.wrapping_add(1)
            &&& after.params == m.params
            &&& after.cipher == m.cipher
        }),
{
    lemma_entry_position(m.entries, remote, 0);
    let s = m.fresh(SessionMode::Client, now);
    law_request_sent(s);
    law_new_session(SessionMode::Client, m.params, m.cipher, m.seed, now);
    let asked = s.requested();
    let added = Mux {
        seed: m.seed.wrapping_add(1),
        entries: m.entries.push(MuxEntry { remote, opened: false, session: asked }),
        ..m
    };
    let i = m.entries.len() as int;
    law_session_passed_on(added, i, asked);
    assert(added.with_session(i, asked) =~= added);
    let after = m.connected(remote, now);
    assert(after.entries =~= m.entries.push(after.entries.last()));
    assert(news(remote, false, asked) =~= Seq::empty());
    assert(after.outgoing =~= m.outgoing.push((remote, asked.outgoing.last())));
    assert(after.events =~= m.events);
}

/// A datagram from a remote without a session: one that tells that the receiver is unknown
/// is ignored, and any other is answered with just that, unless it asks for a session.
pub proof fn law_stranger(m: Mux, remote: u64, datagram: Seq<u8>, now: nat)
    requires
        m.wf(),
        forall|i: int| 0 <= i < m.entries.len() ==> (#[trigger] m.entries[i]).remote != remote,
        !(op_code_in(datagram) matches Some(op) && op is SessionRequest),
    ensures
        ({
            let after = m.datagram_received(remote, datagram, now);
            if datagram.len() >= 2 && datagram[0] == 0 && datagram[1] == 0x1D {
                after == m
            } else {
                after == (Mux { outgoing: m.outgoing.push((remote, be_bytes(0x1D, 2))), ..m })
            }
        }),
{
    lemma_entry_position(m.entries, remote, 0);
}

/// A stranger that asks for a session gets a new one, a server's, to which the datagram
/// goes; what comes of it is passed on.
#[verifier::rlimit(50)]
pub proof fn law_stranger_asks(m: Mux, remote: u64, datagram: Seq<u8>, now: nat)
    requires
        m.wf(),
        m.params.crc_length <= 4,
        forall|i: int| 0 <= i < m.entries.len() ==> (#[trigger] m.entries[i]).remote != remote,
        datagram.len() >= 2,
        datagram[0] == 0,
        datagram[1] == 1,
    ensures
        ({
            let after = m.datagram_received(remote, datagram, now);
            exists|s: Session|
                {
                    &&& begun(m, SessionMode::Server, now, s)
                    &&& s.rng == m.seed ^ 0x9E37_79B9_7F4A_7C15
                    &&& s.outgoing.len() == 0
                    &&& #[trigger] passed_on(
                        Mux {
                            entries: m.entries.push(
                                MuxEntry { remote, opened: false, session: s },
                            ),
                            seed: m.seed.wrapping_add(1),
                            ..m
                        },
                        m.entries.len() as int,
                        s.datagram_received(datagram, now),
                        after,
                    )
                }
        }),
{
    lemma_entry_position(m.entries, remote, 0);
    assert(op_code_in(datagram) == Some(OpCode::SessionRequest));
    let s = m.fresh(SessionMode::Server, now);
    let met = s.datagram_received(datagram, now);
    let i = m.entries.len() as int;
    let added = Mux {
        entries: m.entries.push(MuxEntry { remote, opened: false, session: s }),
        seed: m.seed.wrapping_add(1),
        ..m
    };
    law_session_passed_on(added, i, met);
    assert(added.with_session(i, met).entries =~= m.entries.push(
        MuxEntry { remote, opened: false, session: met },
    ));
    assert(begun(m, SessionMode::Server, now, s));
    assert(passed_on(added, i, met, m.datagram_received(remote, datagram, now)));
}

/// The remote that an event is about.
pub open spec fn about(event: MuxEvent) -> u64 {
    match event {
        MuxEvent::SessionOpened { remote } => remote,
        MuxEvent::DataReceived { remote, data, channel } => remote,
        MuxEvent::SessionClosed { remote, reason } => remote,
    }
}

/// Picks the datagrams for one remote.
pub open spec fn to_remote(remote: u64) -> spec_fn((u64, Seq<u8>)) -> bool {
    |x: (u64, Seq<u8>)| x.0 == remote
}

/// Picks the events about one remote.
pub open spec fn of_remote(remote: u64) -> spec_fn(MuxEvent) -> bool {
    |e: MuxEvent| about(e) == remote
}

proof fn lemma_picked<A>(list: Seq<A>, pred: spec_fn(A) -> bool)
    ensures
        (forall|i: int| 0 <= i < list.len() ==> pred(#[trigger] list[i])) ==> list.filter(pred)
            == list,
        (forall|i: int| 0 <= i < list.len() ==> !pred(#[trigger] list[i])) ==> list.filter(pred)
            == Seq::<A>::empty(),
    decreases list.len(),
{
    reveal(Seq::filter);
    if list.len() > 0 {
        let before = list.drop_last();
        lemma_picked(before, pred);
        assert(forall|i: int| 0 <= i < before.len() ==> before[i] == list[i]);
        if forall|i: int| 0 <= i < list.len() ==> pred(#[trigger] list[i]) {
            assert(pred(list[list.len() - 1]));
            assert(before.push(list.last()) =~= list);
        }
        if forall|i: int| 0 <= i < list.len() ==> !pred(#[trigger] list[i]) {
            assert(!pred(list[list.len() - 1]));
        }
    } else {
        assert(list =~= Seq::empty());
    }
}

/// That a multiplexer sends and reports of one remote what it did before, and then some.
spec fn adds(
    m: Mux,
    after: Mux,
    remote: u64,
    datagrams: Seq<(u64, Seq<u8>)>,
    events: Seq<MuxEvent>,
) -> bool {
    &&& after.outgoing.filter(to_remote(remote)) == m.outgoing.filter(to_remote(remote))
        + datagrams
    &&& after.events.filter(of_remote(remote)) == m.events.filter(of_remote(remote)) + events
}

proof fn lemma_adds(m: Mux, i: int, s: Session, after: Mux, remote: u64)
    requires
        0 <= i < m.entries.len(),
        passed_on(m, i, s, after),
    ensures
        m.entries[i].remote == remote ==> adds(
            m,
            after,
            remote,
            for_each(remote, s.outgoing),
            news(remote, m.entries[i].opened, s),
        ),
        m.entries[i].remote != remote ==> adds(m, after, remote, Seq::empty(), Seq::empty()),
{
    let own = m.entries[i].remote;
    let datagrams = for_each(own, s.outgoing);
    let told = news(own, m.entries[i].opened, s);
    Seq::filter_distributes_over_add(m.outgoing, datagrams, to_remote(remote));
    Seq::filter_distributes_over_add(m.events, told, of_remote(remote));
    lemma_picked(datagrams, to_remote(remote));
    lemma_picked(told, of_remote(remote));
    assert forall|k: int| 0 <= k < told.len() implies about(#[trigger] told[k]) == own by {
        let a = openings(own, s.events);
        let b = arrivals(own, s.received);
        let c = closings(own, s.events);
        assert(told[k] == (a + b + c + told.skip((a + b + c).len() as int))[k]);
    }
    assert(own == remote ==> forall|k: int|
        0 <= k < told.len() ==> of_remote(remote)(#[trigger] told[k]));
    assert(own != remote ==> forall|k: int|
        0 <= k < told.len() ==> !of_remote(remote)(#[trigger] told[k]));
    assert(own == remote ==> forall|k: int|
        0 <= k < datagrams.len() ==> to_remote(remote)(#[trigger] datagrams[k]));
    assert(own != remote ==> forall|k: int|
        0 <= k < datagrams.len() ==> !to_remote(remote)(#[trigger] datagrams[k]));
}

spec fn apart(entries: Seq<MuxEntry>) -> bool {
    forall|i: int, j: int|
        0 <= i < j < entries.len() ==> (#[trigger] entries[i]).remote != (
        #[trigger] entries[j]).remote
}

spec fn absent(entries: Seq<MuxEntry>, remote: u64) -> bool {
    forall|i: int| 0 <= i < entries.len() ==> (#[trigger] entries[i]).remote != remote
}

proof fn lemma_tick_step(m: Mux, i: int, now: nat)
    requires
        apart(m.entries),
        0 <= i < m.entries.len(),
    ensures
        ({
            let s = m.entries[i].session.ticked(now);
            let after = m.with_session(i, s).settled_at(i);
            &&& passed_on(m, i, s, after)
            &&& apart(after.entries)
            &&& after.entries.len() == m.entries.len() ==> m.ticked_from(i, now)
                == after.ticked_from(i + 1, now)
            &&& after.entries.len() < m.entries.len() ==> m.ticked_from(i, now)
                == after.ticked_from(i, now)
            &&& after.entries.len() == (if kept(
                m.entries[i].remote,
                m.entries[i].opened,
                s,
            ) is Some {
                m.entries.len() as int
            } else {
                m.entries.len() - 1
            })
        }),
{
    let s = m.entries[i].session.ticked(now);
    let after = m.with_session(i, s).settled_at(i);
    law_session_passed_on(m, i, s);
    match kept(m.entries[i].remote, m.entries[i].opened, s) {
        Some(entry) => {
            assert forall|a: int, b: int| 0 <= a < b < after.entries.len() implies (
            #[trigger] after.entries[a]).remote != (#[trigger] after.entries[b]).remote by {
                assert(m.entries[a].remote != m.entries[b].remote);
            }
        },
        None => {
            assert forall|a: int, b: int| 0 <= a < b < after.entries.len() implies (
            #[trigger] after.entries[a]).remote != (#[trigger] after.entries[b]).remote by {
                let x = if a < i { a } else { a + 1 };
                let y = if b < i { b } else { b + 1 };
                assert(after.entries[a] == m.entries[x]);
                assert(after.entries[b] == m.entries[y]);
                assert(m.entries[x].remote != m.entries[y].remote);
            }
        },
    }
}

/// A session that the tick has passed by, or that is not there, has no part in the rest.
#[verifier::rlimit(50)]
proof fn lemma_ticked_by(m: Mux, from: int, now: nat, remote: u64, p: int)
    requires
        apart(m.entries),
        0 <= from,
        absent(m.entries, remote) || (0 <= p < from && p < m.entries.len()
            && m.entries[p].remote == remote),
    ensures
        ({
            let after = m.ticked_from(from, now);
            &&& adds(m, after, remote, Seq::empty(), Seq::empty())
            &&& absent(m.entries, remote) ==> absent(after.entries, remote)
            &&& !absent(m.entries, remote) ==> p < after.entries.len() && after.entries[p]
                == m.entries[p]
        }),
    decreases m.entries.len() - from,
{
    if from < m.entries.len() {
        let s = m.entries[from].session.ticked(now);
        let next = m.with_session(from, s).settled_at(from);
        lemma_tick_step(m, from, now);
        lemma_adds(m, from, s, next, remote);
        if absent(m.entries, remote) {
            assert forall|k: int| 0 <= k < next.entries.len() implies (
            #[trigger] next.entries[k]).remote != remote by {
                let x = if next.entries.len() == m.entries.len() || k < from {
                    k
                } else {
                    k + 1
                };
                assert(next.entries[k].remote == m.entries[x].remote);
            }
        } else {
            assert(m.entries[p].remote != m.entries[from].remote);
            assert(next.entries[p] == m.entries[p]);
        }
        if next.entries.len() == m.entries.len() {
            lemma_ticked_by(next, from + 1, now, remote, p);
        } else {
            lemma_ticked_by(next, from, now, remote, p);
        }
        assert(m.outgoing.filter(to_remote(remote)) + Seq::<(u64, Seq<u8>)>::empty()
            =~= m.outgoing.filter(to_remote(remote)));
        assert(m.events.filter(of_remote(remote)) + Seq::<MuxEvent>::empty()
            =~= m.events.filter(of_remote(remote)));
    } else {
        assert(m.outgoing.filter(to_remote(remote)) + Seq::<(u64, Seq<u8>)>::empty()
            =~= m.outgoing.filter(to_remote(remote)));
        assert(m.events.filter(of_remote(remote)) + Seq::<MuxEvent>::empty()
            =~= m.events.filter(of_remote(remote)));
    }
}

#[verifier::rlimit(50)]
proof fn lemma_ticked_at(m: Mux, from: int, now: nat, p: int)
    requires
        apart(m.entries),
        0 <= from <= p < m.entries.len(),
    ensures
        ({
            let remote = m.entries[p].remote;
            let opened = m.entries[p].opened;
            let s = m.entries[p].session.ticked(now);
            let after = m.ticked_from(from, now);
            &&& adds(m, after, remote, for_each(remote, s.outgoing), news(remote, opened, s))
            &&& match kept(remote, opened, s) {
                Some(entry) => after.entries.contains(entry),
                None => absent(after.entries, remote),
            }
        }),
    decreases p - from,
{
    let remote = m.entries[p].remote;
    let opened = m.entries[p].opened;
    let s = m.entries[from].session.ticked(now);
    let next = m.with_session(from, s).settled_at(from);
    let after = m.ticked_from(from, now);
    lemma_tick_step(m, from, now);
    lemma_adds(m, from, s, next, remote);
    if p == from {
        match kept(remote, opened, s) {
            Some(entry) => {
                assert(next.entries[from] == entry);
                lemma_ticked_by(next, from + 1, now, remote, from);
                assert(!absent(next.entries, remote));
                assert(after.entries[from] == entry);
            },
            None => {
                assert forall|k: int| 0 <= k < next.entries.len() implies (
                #[trigger] next.entries[k]).remote != remote by {
                    let x = if k < from { k } else { k + 1 };
                    assert(next.entries[k] == m.entries[x]);
                    assert(x < from ==> m.entries[x].remote != m.entries[from].remote);
                    assert(from < x ==> m.entries[from].remote != m.entries[x].remote);
                }
                lemma_ticked_by(next, from, now, remote, 0);
            },
        }
        let mine = m.outgoing.filter(to_remote(remote)) + for_each(remote, s.outgoing);
        assert(mine + Seq::<(u64, Seq<u8>)>::empty() =~= mine);
        let told = m.events.filter(of_remote(remote)) + news(remote, opened, s);
        assert(told + Seq::<MuxEvent>::empty() =~= told);
    } else {
        assert(m.entries[from].remote != m.entries[p].remote);
        assert(m.outgoing.filter(to_remote(remote)) + Seq::<(u64, Seq<u8>)>::empty()
            =~= m.outgoing.filter(to_remote(remote)));
        assert(m.events.filter(of_remote(remote)) + Seq::<MuxEvent>::empty()
            =~= m.events.filter(of_remote(remote)));
        if next.entries.len() == m.entries.len() {
            assert(next.entries[p] == m.entries[p]);
            lemma_ticked_at(next, from + 1, now, p);
        } else {
            assert(next.entries[p - 1] == m.entries[p]);
            lemma_ticked_at(next, from, now, p - 1);
        }
    }
}

/// A tick reaches every session, once. To each remote goes what its own session sends at the
/// tick, behind what was to go there already; of each remote is reported what its own
/// session then has to report; and the session is kept as the tick leaves it, unless it has
/// ended.
pub proof fn law_every_session_ticked(m: Mux, i: int, now: nat)
    requires
        forall|a: int, b: int|
            0 <= a < b < m.entries.len() ==> (#[trigger] m.entries[a]).remote != (
            #[trigger] m.entries[b]).remote,
        0 <= i < m.entries.len(),
    ensures
        ({
            let remote = m.entries[i].remote;
            let opened = m.entries[i].opened;
            let s = m.entries[i].session.ticked(now);
            let after = m.ticked(now);
            &&& after.outgoing.filter(to_remote(remote)) == m.outgoing.filter(to_remote(remote))
                + for_each(remote, s.outgoing)
            &&& after.events.filter(of_remote(remote)) == m.events.filter(of_remote(remote))
                + news(remote, opened, s)
            &&& match kept(remote, opened, s) {
                Some(entry) => after.entries.contains(entry),
                None => forall|k: int|
                    0 <= k < after.entries.len() ==> (#[trigger] after.entries[k]).remote
                        != remote,
            }
        }),
{
    assert(apart(m.entries));
    lemma_ticked_at(m, 0, now, i);
}

/// Unreliable data goes from one application to the other: data that one multiplexer accepts
/// as unreliable, and that fits a packet, leaves it in one datagram for the remote that it is
/// meant for; and the multiplexer that this datagram reaches reports it in exactly one event,
/// with that very data and as unreliable, behind the opening of the session if the datagram
/// opens it.
#[verifier::rlimit(50)]
pub proof fn law_unreliable_across(a: Mux, i: int, b: Mux, j: int, data: Seq<u8>, now: nat)
    requires
        a.wf(),
        b.wf(),
        0 <= i < a.entries.len(),
        0 <= j < b.entries.len(),
        a.entries[i].session.state is Running,
        b.entries[j].session.state is Running,
        agree(a.entries[i].session.params, b.entries[j].session.params),
        b.entries[j].opened || b.entries[j].session.open_session_on_next_packet,
        b.entries[j].session.received.len() == 0,
        data.len() > 0,
        ({
            let p = a.entries[i].session.params;
            &&& data.len() + p.crc_length >= 2
            &&& data.len() + p.crc_length + (if data[0] == 0 {
                1int
            } else {
                0
            }) <= p.remote_udp_length
        }),
    ensures
        ({
            let there = a.entries[i].remote;
            let here = b.entries[j].remote;
            let (sent, accepted) = a.enqueued(there, data, Channel::Unreliable);
            let datagram = sent.outgoing.last().1;
            let after = b.datagram_received(here, datagram, now);
            &&& accepted
            &&& sent.outgoing == a.outgoing.push((there, datagram))
            &&& sent.events == a.events
            &&& after.events == b.events + (if b.entries[j].session.open_session_on_next_packet {
                seq![MuxEvent::SessionOpened { remote: here }]
            } else {
                Seq::empty()
            }) + seq![
                MuxEvent::DataReceived { remote: here, data, channel: Channel::Unreliable },
            ]
            &&& after.outgoing == b.outgoing
        }),
{
    let there = a.entries[i].remote;
    let here = b.entries[j].remote;
    let s = a.entries[i].session;
    let r = b.entries[j].session;
    assert(Mux::keeps(a.entries[i]));
    assert(Mux::keeps(b.entries[j]));
    law_goes_to_its_session(a, i, data, data, Channel::Unreliable, DisconnectReason::NoReason, now);
    law_enqueue_effects(s, data, Channel::Unreliable);
    assert(s.can_enqueue(data, Channel::Unreliable));
    let datagram = s.params.frame_unreliable(data);
    let sent = a.enqueued(there, data, Channel::Unreliable).0;
    let out = s.enqueued(data, Channel::Unreliable).0;
    assert(s.outgoing.len() == 0 && s.events.len() == 0);
    assert(s.outgoing =~= Seq::empty());
    reveal(Seq::filter);
    assert(news(there, a.entries[i].opened, out) =~= Seq::empty()) by {
        assert(out.events =~= Seq::empty());
        assert(a.entries[i].opened ==> out.received.len() == 0);
    }
    assert(sent.outgoing =~= a.outgoing.push((there, datagram)));
    law_goes_to_its_session(
        b,
        j,
        datagram,
        data,
        Channel::Unreliable,
        DisconnectReason::NoReason,
        now,
    );
    law_unreliable_effects(s.params, r, data, now);
    let met = r.datagram_received(datagram, now);
    let after = b.datagram_received(here, datagram, now);
    assert(r.events =~= Seq::empty());
    assert(r.received =~= Seq::empty());
    assert(r.outgoing =~= Seq::empty());
    lemma_first_events(here, met.events);
    assert(r.open_session_on_next_packet ==> met.events[0] is Opened);
    assert(arrivals(here, met.received) =~= seq![
        MuxEvent::DataReceived { remote: here, data, channel: Channel::Unreliable },
    ]);
    assert(after.outgoing =~= b.outgoing);
    assert(news(here, b.entries[j].opened, met) =~= openings(here, met.events) + arrivals(
        here,
        met.received,
    ));
    assert(after.events =~= b.events + openings(here, met.events) + arrivals(
        here,
        met.received,
    ));
}

proof fn lemma_first_events(remote: u64, events: Seq<SessionEvent>)
    requires
        events.len() == 0 || events == seq![SessionEvent::Opened],
    ensures
        openings(remote, events) == (if events.len() == 0 {
            Seq::empty()
        } else {
            seq![MuxEvent::SessionOpened { remote }]
        }),
        closings(remote, events) == Seq::<MuxEvent>::empty(),
{
    reveal_with_fuel(Seq::filter, 3);
    if events.len() > 0 {
        assert(events.drop_last() =~= Seq::empty());
        assert(events.last() is Opened);
    }
    assert(closings(remote, events) =~= Seq::empty());
    assert(openings(remote, events) =~= (if events.len() == 0 {
        Seq::empty()
    } else {
        seq![MuxEvent::SessionOpened { remote }]
    }));
}

/// Reliable data goes from one application to the other: `pieces` are what a session with
/// parameters `p` enqueues on a reliable channel, and `done` is what the multiplexer `b` has
/// reported of them so far. Whichever of the datagrams that carry them reaches `b` next, it
/// reports the pieces that this completes, each in exactly one event, with that very data
/// and the same channel, and nothing else: what has been reported is then again the
/// beginning of `pieces`, and it is all of them once all packets have had their turn.
#[verifier::rlimit(50)]
pub proof fn law_reliable_across(
    p: Params,
    b: Mux,
    j: int,
    ch: int,
    o: OutputState,
    start: InputState,
    pieces: Seq<Seq<u8>>,
    done: Seq<Seq<u8>>,
    i: int,
    now: nat,
)
    requires
        b.wf(),
        0 <= j < b.entries.len(),
        b.entries[j].opened,
        !b.entries[j].session.open_session_on_next_packet,
        agree(p, b.entries[j].session.params),
        0 <= ch < 4,
        o.queue.len() == 0,
        o.total_sequence == 0,
        start.window_start == 0,
        start.assembly is None,
        start.app_data.len() == 0,
        start.stash.len() == 0,
        start.cipher == o.cipher,
        deliverable_all(o, pieces),
        packet_bound(pieces) + 0x2_0000 < i64::MAX,
        0 <= i < enqueued_all(o, pieces).queue.len(),
        ({
            let channel = b.entries[j].session.input_at(ch, now);
            &&& follows(
                preceded(done, channel),
                start,
                travelling_each(enqueued_all(o, pieces).queue),
                channel.window_start as int,
            )
            &&& channel.window_start + channel.max_queued - 0x1_0000 < i < channel.window_start
                + 0x1_0000
        }),
    ensures
        ({
            let here = b.entries[j].remote;
            let queue = enqueued_all(o, pieces).queue;
            let before = b.entries[j].session.input_at(ch, now);
            let after = b.datagram_received(here, datagram_of(p, ch, queue[i]), now);
            let n = after.events.len() - b.events.len();
            let fresh = Seq::new(
                n as nat,
                |k: int| after.events[b.events.len() + k]->DataReceived_data,
            );
            let channel = after.entries[j].session.input_at(ch, now);
            &&& n >= 0
            &&& after.events == b.events + Seq::new(
                n as nat,
                |k: int|
                    MuxEvent::DataReceived {
                        remote: here,
                        data: fresh[k],
                        channel: Channel::Reliable(ch as usize),
                    },
            )
            &&& (done + fresh).is_prefix_of(pieces)
            &&& after.entries.len() == b.entries.len()
            &&& after.entries[j].remote == here
            &&& follows(
                preceded(done + fresh, channel),
                start,
                travelling_each(queue),
                channel.window_start as int,
            )
            &&& channel.window_start == queue.len() ==> done + fresh == pieces
            &&& i == before.window_start ==> channel.window_start > before.window_start
        }),
{
    let here = b.entries[j].remote;
    let r = b.entries[j].session;
    let queue = enqueued_all(o, pieces).queue;
    let datagram = datagram_of(p, ch, queue[i]);
    assert(Mux::keeps(b.entries[j]));
    law_session_delivers(p, r, ch, o, start, pieces, done, i, now);
    law_packets_carry(o, pieces);
    law_reliable_packet_effects(p, r, ch, queue[i].data, queue[i].is_fragment, now);
    law_goes_to_its_session(
        b,
        j,
        datagram,
        Seq::empty(),
        Channel::Unreliable,
        DisconnectReason::NoReason,
        now,
    );
    let met = r.datagram_received(datagram, now);
    let after = b.datagram_received(here, datagram, now);
    let fresh = r.input_at(ch, now).received(
        queue[i].data,
        queue[i].is_fragment,
        now,
    ).0.app_data;
    assert(r.events =~= Seq::empty());
    assert(r.received =~= Seq::empty());
    assert(met.events == r.events);
    lemma_first_events(here, met.events);
    let told = arrivals(here, met.received);
    assert(told.len() == fresh.len());
    assert(news(here, true, met) =~= told);
    let n = after.events.len() - b.events.len();
    let found = Seq::new(
        n as nat,
        |k: int| after.events[b.events.len() + k]->DataReceived_data,
    );
    assert(found =~= fresh) by {
        assert forall|k: int| 0 <= k < n implies found[k] == fresh[k] by {
            assert(after.events[b.events.len() + k] == told[k]);
        }
    }
    assert(after.events =~= b.events + Seq::new(
        n as nat,
        |k: int|
            MuxEvent::DataReceived {
                remote: here,
                data: found[k],
                channel: Channel::Reliable(ch as usize),
            },
    ));
    assert(after.entries[j].session.input_at(ch, now) == met.input_at(ch, now));
}

proof fn lemma_picked_from<A>(list: Seq<A>, pred: spec_fn(A) -> bool, x: A)
    requires
        list.filter(pred).contains(x),
    ensures
        list.contains(x),
    decreases list.len(),
{
    reveal(Seq::filter);
    if list.len() > 0 {
        let before = list.drop_last();
        if before.filter(pred).contains(x) {
            lemma_picked_from(before, pred, x);
            let k = choose|k: int| 0 <= k < before.len() && before[k] == x;
            assert(list[k] == x);
        } else {
            let all = list.filter(pred);
            let k = choose|k: int| 0 <= k < all.len() && all[k] == x;
            if k < before.filter(pred).len() {
                assert(before.filter(pred)[k] == x);
            }
            assert(list[list.len() - 1] == x);
        }
    }
}

/// Reliable data that a multiplexer accepts for a remote leaves it with the next tick, for
/// that remote: each of the packets on that channel that lie in the send window and have not
/// been handed out is among the datagrams.
#[verifier::rlimit(50)]
pub proof fn law_reliable_leaves(
    a: Mux,
    i: int,
    ch: usize,
    data: Seq<u8>,
    k: int,
    now: nat,
)
    requires
        a.wf(),
        0 <= i < a.entries.len(),
        a.entries[i].session.state is Running,
        ch < 4,
        data.len() > 0,
        a.entries[i].session.can_enqueue(data, Channel::Reliable(ch)),
        forall|n: int| 0 <= n < 4 ==> in_step(#[trigger] a.entries[i].session.outputs[n]),
        ({
            let o = output_met(a.entries[i].session, ch as int).enqueued(data);
            o.dispatch_index <= k < o.queue.len() && k < o.window
        }),
    ensures
        ({
            let there = a.entries[i].remote;
            let s = a.entries[i].session;
            let o = output_met(s, ch as int).enqueued(data);
            let (accepting, accepted) = a.enqueued(there, data, Channel::Reliable(ch));
            &&& accepted
            &&& accepting.ticked(now).outgoing.contains(
                (there, datagram_of(s.params, ch as int, o.queue[k])),
            )
        }),
{
    let there = a.entries[i].remote;
    let s = a.entries[i].session;
    let channel = Channel::Reliable(ch);
    let o = output_met(s, ch as int).enqueued(data);
    let x = datagram_of(s.params, ch as int, o.queue[k]);
    assert(Mux::keeps(a.entries[i]));
    law_goes_to_its_session(a, i, data, data, channel, DisconnectReason::NoReason, now);
    law_enqueue_effects(s, data, channel);
    let next = s.enqueued(data, channel).0;
    let m = a.enqueued(there, data, channel).0;
    assert(kept(there, a.entries[i].opened, next) is Some);
    let t = m.entries[i].session;
    assert(t.outputs == next.outputs);
    assert(t.outputs[ch as int] == Some(o));
    assert forall|n: int| 0 <= n < 4 implies in_step(#[trigger] t.outputs[n]) by {
        assert(in_step(s.outputs[n]));
    }
    law_tick_sends_what_waits(t, ch as int, o, k, now);
    let out = t.ticked(now).outgoing;
    let at = choose|at: int| 0 <= at < out.len() && out[at] == x;
    let mine = for_each(there, out);
    assert(mine[at] == (there, x));
    assert forall|p: int, q: int| 0 <= p < q < m.entries.len() implies (
    #[trigger] m.entries[p]).remote != (#[trigger] m.entries[q]).remote by {
        assert(a.entries[p].remote != a.entries[q].remote);
    }
    law_every_session_ticked(m, i, now);
    let picked = m.ticked(now).outgoing.filter(to_remote(there));
    assert(picked[m.outgoing.filter(to_remote(there)).len() + at] == (there, x));
    lemma_picked_from(m.ticked(now).outgoing, to_remote(there), (there, x));
}

/// What a multiplexer hands out to be sent says what it holds, one by one and in order: the
/// remote and the datagram.
pub proof fn law_datagrams_say(list: Seq<(u64, Bytes)>, bare: Seq<Bytes>, i: int)
    ensures
        addressed_each(list).len() == list.len(),
        0 <= i < list.len() ==> addressed_each(list)[i] == (list[i].0, held(list[i].1)),
        held_each(bare).len() == bare.len(),
        0 <= i < bare.len() ==> held_each(bare)[i] == held(bare[i]),
{
}

/// Towards a remote without a session nothing can be done but to ask for one: data is
/// refused, and there is nothing to end. Data for one with a session is accepted exactly if
/// the session is running, the channel exists and the data can be enqueued.
pub proof fn law_accepts(
    m: Mux,
    remote: u64,
    i: int,
    data: Seq<u8>,
    channel: Channel,
    reason: DisconnectReason,
    now: nat,
)
    requires
        m.wf(),
    ensures
        (forall|k: int| 0 <= k < m.entries.len() ==> (#[trigger] m.entries[k]).remote != remote)
            ==> m.enqueued(remote, data, channel) == (m, false) && m.terminated(
            remote,
            reason,
            now,
        ) == m,
        0 <= i < m.entries.len() ==> (m.enqueued(m.entries[i].remote, data, channel).1 <==> {
            let s = m.entries[i].session;
            &&& s.state is Running
            &&& channel matches Channel::Reliable(ch) ==> ch < 4
            &&& s.can_enqueue(data, channel)
        }),
{
    lemma_entry_position(m.entries, remote, 0);
    if 0 <= i < m.entries.len() {
        lemma_found(m, i);
    }
}

} // verus!
