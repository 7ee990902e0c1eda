//! The order in which a driver reports what happens to the sessions.

use vstd::prelude::*;

use bytes::Bytes;

use crate::buffer::held;
use crate::driver::{
    drained, news_each, news_of, towards, unaddressed, without_remote, woken, ClientEvent,
    ClientNews, ClientWake,
};
use crate::driver::{ClientCommand, Command, Wake};
use crate::packet_utils::op_code_in;
use crate::protocol::{DisconnectReason, OpCode};
use crate::rc4::Rc4State;
use crate::session::laws::{ends_when_closed, law_closing_is_the_end};
use crate::session::model::{Params, Received, Session};
use crate::session::{Channel, SessionEvent, SessionMode};
use crate::socket::{
    data_events, entry_position, event_each, lemma_entry_position, lifecycle, opens, Mux,
    MuxEntry, MuxEvent, SocketEvent,
};

verus! {

/// A multiplexer without sessions.
pub open spec fn new_mux(params: Params, cipher: Option<Rc4State>, seed: u64) -> Mux {
    Mux {
        params,
        cipher,
        seed,
        entries: Seq::empty(),
        outgoing: Seq::empty(),
        events: Seq::empty(),
    }
}

/// The multiplexer after a driver has dealt with what has woken it up, each time with the
/// current time.
pub open spec fn after_run(m: Mux, history: Seq<(Wake, nat)>) -> Mux
    decreases history.len(),
{
    if history.len() == 0 {
        m
    } else {
        let (wake, now) = history.last();
        drained(woken(after_run(m, history.drop_last()), wake, now))
    }
}

/// The events that a driver has forwarded meanwhile.
pub open spec fn surfaced(m: Mux, history: Seq<(Wake, nat)>) -> Seq<MuxEvent>
    decreases history.len(),
{
    if history.len() == 0 {
        Seq::empty()
    } else {
        let (wake, now) = history.last();
        surfaced(m, history.drop_last()) + woken(
            after_run(m, history.drop_last()),
            wake,
            now,
        ).events
    }
}

/// The remote that an event is about.
pub open spec fn remote_of(event: MuxEvent) -> u64 {
    match event {
        MuxEvent::SessionOpened { remote } => remote,
        MuxEvent::DataReceived { remote, data, channel } => remote,
        MuxEvent::SessionClosed { remote, reason } => remote,
    }
}

/// Whether, going by the events so far, there is an open session with `remote`.
pub open spec fn open_after(events: Seq<MuxEvent>, remote: u64) -> bool
    decreases events.len(),
{
    if events.len() == 0 {
        false
    } else if remote_of(events.last()) != remote {
        open_after(events.drop_last(), remote)
    } else {
        match events.last() {
            MuxEvent::SessionOpened { remote } => true,
            MuxEvent::DataReceived { remote, data, channel } => open_after(
                events.drop_last(),
                remote,
            ),
            MuxEvent::SessionClosed { remote, reason } => false,
        }
    }
}

/// That nothing but an opening is reported of `remote` unless there is an open session with
/// it: data and the end come after the opening, and no data comes after the end.
pub open spec fn in_order(events: Seq<MuxEvent>, remote: u64) -> bool {
    forall|k: int|
        0 <= k < events.len() && remote_of(#[trigger] events[k]) == remote && !(events[k]
            is SessionOpened) ==> open_after(events.take(k), remote)
}

/// That what has been reported is in order, and agrees with what the multiplexer keeps of
/// each session.
spec fn orderly(reported: Seq<MuxEvent>, m: Mux) -> bool {
    let events = reported + m.events;
    &&& forall|remote: u64| #[trigger] in_order(events, remote)
    &&& forall|i: int, j: int|
        0 <= i < j < m.entries.len() ==> (#[trigger] m.entries[i]).remote != (
        #[trigger] m.entries[j]).remote
    &&& forall|i: int| 0 <= i < m.entries.len() ==> entry_orderly(events, #[trigger] m.entries[i])
}

spec fn entry_orderly(events: Seq<MuxEvent>, entry: MuxEntry) -> bool {
    &&& entry.session.events.len() == 0
    &&& entry.opened ==> open_after(events, entry.remote)
}

proof fn lemma_pushed(events: Seq<MuxEvent>, event: MuxEvent)
    requires
        forall|remote: u64| #[trigger] in_order(events, remote),
        !(event is SessionOpened) ==> open_after(events, remote_of(event)),
    ensures
        forall|remote: u64| #[trigger] in_order(events.push(event), remote),
        forall|remote: u64|
            remote != remote_of(event) ==> #[trigger] open_after(events.push(event), remote)
                == open_after(events, remote),
        event is DataReceived ==> open_after(events.push(event), remote_of(event)),
        event is SessionOpened ==> open_after(events.push(event), remote_of(event)),
{
    let after = events.push(event);
    assert(after.drop_last() =~= events);
    assert forall|remote: u64| #[trigger] in_order(after, remote) by {
        assert(in_order(events, remote));
        assert forall|k: int|
            0 <= k < after.len() && remote_of(#[trigger] after[k]) == remote && !(after[k]
                is SessionOpened) implies open_after(after.take(k), remote) by {
            if k < events.len() {
                assert(remote_of(events[k]) == remote);
                assert(after.take(k) =~= events.take(k));
            } else {
                assert(after.take(k) =~= events);
            }
        }
    }
}

proof fn lemma_opening_told(events: Seq<MuxEvent>, remote: u64, list: Seq<SessionEvent>)
    requires
        forall|r: u64| #[trigger] in_order(events, r),
    ensures
        ({
            let after = events + lifecycle(remote, list, true);
            &&& forall|r: u64| #[trigger] in_order(after, r)
            &&& forall|r: u64|
                r != remote ==> #[trigger] open_after(after, r) == open_after(events, r)
            &&& open_after(events, remote) || opens(list) ==> open_after(after, remote)
        }),
    decreases list.len(),
{
    let told = lifecycle(remote, list, true);
    if list.len() == 0 {
        assert(events + told =~= events);
    } else {
        let before = lifecycle(remote, list.drop_last(), true);
        lemma_opening_told(events, remote, list.drop_last());
        if list.last() is Opened {
            let event = MuxEvent::SessionOpened { remote };
            lemma_pushed(events + before, event);
            assert(events + told =~= (events + before).push(event));
        } else if opens(list) {
            let k = choose|k: int| 0 <= k < list.len() && #[trigger] list[k] is Opened;
            assert(list.drop_last()[k] is Opened);
        }
    }
}

proof fn lemma_data_told(events: Seq<MuxEvent>, remote: u64, received: Seq<Received>)
    requires
        forall|r: u64| #[trigger] in_order(events, r),
        open_after(events, remote),
    ensures
        ({
            let after = events + data_events(remote, received);
            &&& forall|r: u64| #[trigger] in_order(after, r)
            &&& forall|r: u64|
                r != remote ==> #[trigger] open_after(after, r) == open_after(events, r)
            &&& open_after(after, remote)
        }),
    decreases received.len(),
{
    let told = data_events(remote, received);
    if received.len() == 0 {
        assert(events + told =~= events);
    } else {
        let before = data_events(remote, received.drop_last());
        lemma_data_told(events, remote, received.drop_last());
        lemma_pushed(events + before, told.last());
        assert(events + told =~= (events + before).push(told.last()));
    }
}

proof fn lemma_no_closing(remote: u64, list: Seq<SessionEvent>)
    requires
        forall|k: int| 0 <= k < list.len() ==> !(#[trigger] list[k] is Closed),
    ensures
        lifecycle(remote, list, false) == Seq::<MuxEvent>::empty(),
    decreases list.len(),
{
    if list.len() > 0 {
        assert forall|k: int| 0 <= k < list.drop_last().len() implies !(
        #[trigger] list.drop_last()[k] is Closed) by {
            assert(!(list[k] is Closed));
        }
        assert(!(list[list.len() - 1] is Closed));
        lemma_no_closing(remote, list.drop_last());
    }
}

proof fn lemma_closing_told(events: Seq<MuxEvent>, remote: u64, s: Session)
    requires
        forall|r: u64| #[trigger] in_order(events, r),
        open_after(events, remote),
        ends_when_closed(s),
    ensures
        ({
            let after = events + lifecycle(remote, s.events, false);
            &&& forall|r: u64| #[trigger] in_order(after, r)
            &&& forall|r: u64|
                r != remote ==> #[trigger] open_after(after, r) == open_after(events, r)
            &&& s.state !is Terminated ==> after == events
        }),
{
    let list = s.events;
    let told = lifecycle(remote, list, false);
    if list.len() > 0 && list.last() is Closed {
        let before = list.drop_last();
        assert(list[list.len() - 1] is Closed);
        assert forall|k: int| 0 <= k < before.len() implies !(#[trigger] before[k]
            is Closed) by {
            assert(before[k] == list[k]);
        }
        lemma_no_closing(remote, before);
        let event = MuxEvent::SessionClosed { remote, reason: list.last()->0 };
        lemma_pushed(events, event);
        assert(events + told =~= events.push(event));
    } else {
        assert forall|k: int| 0 <= k < list.len() implies !(#[trigger] list[k] is Closed) by {
            if list[k] is Closed {
                assert(list.last() is Closed);
            }
        }
        lemma_no_closing(remote, list);
        assert(events + told =~= events);
    }
}

/// What a session has to report is passed on in order.
proof fn lemma_told_orderly(reported: Seq<MuxEvent>, m: Mux, entry: MuxEntry)
    requires
        forall|r: u64| #[trigger] in_order(reported + m.events, r),
        ends_when_closed(entry.session),
        entry.opened ==> open_after(reported + m.events, entry.remote),
    ensures
        ({
            let before = reported + m.events;
            let after = reported + m.told_of(entry);
            &&& forall|r: u64| #[trigger] in_order(after, r)
            &&& forall|r: u64|
                r != entry.remote ==> #[trigger] open_after(after, r) == open_after(before, r)
            &&& (entry.opened || opens(entry.session.events)) && entry.session.state
                !is Terminated ==> open_after(after, entry.remote)
        }),
{
    let s = entry.session;
    let remote = entry.remote;
    if entry.opened || opens(s.events) {
        let e0 = reported + m.events;
        let e1 = e0 + lifecycle(remote, s.events, true);
        let e2 = e1 + data_events(remote, s.received);
        lemma_opening_told(e0, remote, s.events);
        lemma_data_told(e1, remote, s.received);
        lemma_closing_told(e2, remote, s);
        assert(reported + m.told_of(entry) =~= e2 + lifecycle(remote, s.events, false));
    }
}

/// A session that has been taken out of place `i` is put back, or let go, in order.
proof fn lemma_settled_orderly(reported: Seq<MuxEvent>, m: Mux, i: int, entry: MuxEntry)
    requires
        orderly(reported, m),
        0 <= i <= m.entries.len(),
        ends_when_closed(entry.session),
        entry.opened ==> open_after(reported + m.events, entry.remote),
        forall|k: int| 0 <= k < m.entries.len() ==> (#[trigger] m.entries[k]).remote
            != entry.remote,
    ensures
        orderly(
            reported,
            (Mux { entries: m.entries.insert(i, entry), ..m }).settled_at(i),
        ),
{
    let whole = Mux { entries: m.entries.insert(i, entry), ..m };
    let after = whole.settled_at(i);
    let s = entry.session;
    let remote = entry.remote;
    let opened = entry.opened || opens(s.events);
    let e0 = reported + m.events;
    let told = whole.told_of(entry);
    assert(whole.entries[i] == entry);
    lemma_told_orderly(reported, whole, entry);
    if s.state !is Terminated && opened {
        let lost = MuxEvent::SessionClosed { remote, reason: DisconnectReason::ConnectError };
        lemma_pushed(reported + told, lost);
        assert(reported + told.push(lost) =~= (reported + told).push(lost));
    }
    assert(whole.entries.remove(i) =~= m.entries);
    let events = reported + after.events;
    assert(forall|r: u64| #[trigger] in_order(events, r));
    assert(forall|r: u64|
        r != remote ==> #[trigger] open_after(events, r) == open_after(e0, r));
    if after.entries.len() == m.entries.len() {
        assert(after.entries =~= m.entries);
        assert forall|k: int| 0 <= k < after.entries.len() implies entry_orderly(
            events,
            #[trigger] after.entries[k],
        ) by {
            assert(entry_orderly(e0, m.entries[k]));
        }
    } else {
        let kept = after.entries[i];
        assert(after.entries =~= m.entries.insert(i, kept));
        assert(entry_orderly(events, kept));
        assert forall|k: int| 0 <= k < after.entries.len() implies entry_orderly(
            events,
            #[trigger] after.entries[k],
        ) by {
            if k < i {
                assert(after.entries[k] == m.entries[k]);
                assert(entry_orderly(e0, m.entries[k]));
            } else if k > i {
                assert(after.entries[k] == m.entries[k - 1]);
                assert(entry_orderly(e0, m.entries[k - 1]));
            }
        }
        assert forall|a: int, b: int| 0 <= a < b < after.entries.len() implies (
        #[trigger] after.entries[a]).remote != (#[trigger] after.entries[b]).remote by {
            if a < i {
                assert(after.entries[a] == m.entries[a]);
            } else if a > i {
                assert(after.entries[a] == m.entries[a - 1]);
            }
            if b < i {
                assert(after.entries[b] == m.entries[b]);
            } else if b > i {
                assert(after.entries[b] == m.entries[b - 1]);
            }
        }
    }
}

proof fn lemma_session_orderly(reported: Seq<MuxEvent>, m: Mux, i: int, s: Session)
    requires
        orderly(reported, m),
        0 <= i < m.entries.len(),
        ends_when_closed(s),
    ensures
        orderly(reported, m.with_session(i, s).settled_at(i)),
{
    let without = Mux { entries: m.entries.remove(i), ..m };
    let entry = MuxEntry { session: s, ..m.entries[i] };
    let events = reported + m.events;
    assert(entry_orderly(events, m.entries[i]));
    assert forall|k: int| 0 <= k < without.entries.len() implies entry_orderly(
        events,
        #[trigger] without.entries[k],
    ) && without.entries[k].remote != entry.remote by {
        let from = if k < i { k } else { k + 1 };
        assert(without.entries[k] == m.entries[from]);
        assert(entry_orderly(events, m.entries[from]));
        if from < i {
            assert(m.entries[from].remote != m.entries[i].remote);
        } else {
            assert(m.entries[i].remote != m.entries[from].remote);
        }
    }
    assert forall|a: int, b: int| 0 <= a < b < without.entries.len() implies (
    #[trigger] without.entries[a]).remote != (#[trigger] without.entries[b]).remote by {
        let x = if a < i { a } else { a + 1 };
        let y = if b < i { b } else { b + 1 };
        assert(without.entries[a] == m.entries[x] && without.entries[b] == m.entries[y]);
    }
    lemma_settled_orderly(reported, without, i, entry);
    assert(without.entries.insert(i, entry) =~= m.entries.update(i, entry));
}

proof fn lemma_new_orderly(reported: Seq<MuxEvent>, m: Mux, remote: u64, s: Session)
    requires
        orderly(reported, m),
        entry_position(m.entries, remote, 0) is None,
        ends_when_closed(s),
    ensures
        orderly(reported, m.with_new(remote, s)),
{
    let counted = Mux { seed: m.seed.wrapping_add(1), ..m };
    let entry = MuxEntry { remote, opened: false, session: s };
    let n = m.entries.len() as int;
    lemma_entry_position(m.entries, remote, 0);
    lemma_settled_orderly(reported, counted, n, entry);
    assert(counted.entries.insert(n, entry) =~= m.entries.push(entry));
}

proof fn lemma_ticked_orderly(reported: Seq<MuxEvent>, m: Mux, i: int, now: nat)
    requires
        orderly(reported, m),
        0 <= i,
    ensures
        orderly(reported, m.ticked_from(i, now)),
    decreases m.entries.len() - i,
{
    if i < m.entries.len() {
        let s = m.entries[i].session;
        assert(entry_orderly(reported + m.events, m.entries[i]));
        law_closing_is_the_end(
            s,
            Seq::empty(),
            Seq::empty(),
            Channel::Unreliable,
            DisconnectReason::NoReason,
            false,
            now,
        );
        lemma_session_orderly(reported, m, i, s.ticked(now));
        let after = m.with_session(i, s.ticked(now)).settled_at(i);
        if after.entries.len() < m.entries.len() {
            lemma_ticked_orderly(reported, after, i, now);
        } else {
            lemma_ticked_orderly(reported, after, i + 1, now);
        }
    }
}

proof fn lemma_woken_orderly(reported: Seq<MuxEvent>, m: Mux, wake: Wake, now: nat)
    requires
        orderly(reported, m),
    ensures
        orderly(reported, woken(m, wake, now)),
{
    match wake {
        Wake::Datagram { remote, datagram } => {
            lemma_datagram_orderly(reported, m, remote, held(datagram), now);
        },
        Wake::Tick => {
            lemma_ticked_orderly(reported, m, 0, now);
        },
        Wake::Command(Command::Connect(remote)) => {
            lemma_connected_orderly(reported, m, remote, now);
        },
        Wake::Command(Command::EnqueueData { remote, data, channel }) => {
            lemma_entry_position(m.entries, remote, 0);
            if let Some(i) = entry_position(m.entries, remote, 0) {
                let s = m.entries[i].session;
                assert(entry_orderly(reported + m.events, m.entries[i]));
                law_closing_is_the_end(
                    s,
                    Seq::empty(),
                    held(data),
                    channel,
                    DisconnectReason::NoReason,
                    false,
                    now,
                );
                lemma_session_orderly(reported, m, i, s.enqueued(held(data), channel).0);
            }
        },
        Wake::Command(Command::Terminate { remote, reason }) => {
            lemma_entry_position(m.entries, remote, 0);
            if let Some(i) = entry_position(m.entries, remote, 0) {
                let s = m.entries[i].session;
                assert(entry_orderly(reported + m.events, m.entries[i]));
                law_closing_is_the_end(
                    s,
                    Seq::empty(),
                    Seq::empty(),
                    Channel::Unreliable,
                    reason,
                    true,
                    now,
                );
                lemma_session_orderly(
                    reported,
                    m,
                    i,
                    s.terminated(reason, true, false, now),
                );
            }
        },
        _ => {},
    }
}

proof fn lemma_datagram_orderly(
    reported: Seq<MuxEvent>,
    m: Mux,
    remote: u64,
    datagram: Seq<u8>,
    now: nat,
)
    requires
        orderly(reported, m),
    ensures
        orderly(reported, m.datagram_received(remote, datagram, now)),
{
    lemma_entry_position(m.entries, remote, 0);
    match entry_position(m.entries, remote, 0) {
        Some(i) => {
            let s = m.entries[i].session;
            assert(entry_orderly(reported + m.events, m.entries[i]));
            law_closing_is_the_end(
                s,
                datagram,
                Seq::empty(),
                Channel::Unreliable,
                DisconnectReason::NoReason,
                false,
                now,
            );
            lemma_session_orderly(reported, m, i, s.datagram_received(datagram, now));
        },
        None => {
            let s = m.fresh(SessionMode::Server, now);
            law_closing_is_the_end(
                s,
                datagram,
                Seq::empty(),
                Channel::Unreliable,
                DisconnectReason::NoReason,
                false,
                now,
            );
            lemma_new_orderly(reported, m, remote, s);
            lemma_new_orderly(reported, m, remote, s.datagram_received(datagram, now));
            let after = m.datagram_received(remote, datagram, now);
            if op_code_in(datagram) != Some(OpCode::SessionRequest) {
                assert(after.events == m.events && after.entries == m.entries);
            }
        },
    }
}

proof fn lemma_connected_orderly(reported: Seq<MuxEvent>, m: Mux, remote: u64, now: nat)
    requires
        orderly(reported, m),
    ensures
        orderly(reported, m.connected(remote, now)),
{
    if entry_position(m.entries, remote, 0) is None {
        let s = m.fresh(SessionMode::Client, now);
        law_closing_is_the_end(
            s,
            Seq::empty(),
            Seq::empty(),
            Channel::Unreliable,
            DisconnectReason::NoReason,
            false,
            now,
        );
        lemma_new_orderly(reported, m, remote, s.requested());
    }
}

proof fn lemma_run_orderly(m: Mux, history: Seq<(Wake, nat)>)
    requires
        orderly(Seq::empty(), m),
    ensures
        orderly(surfaced(m, history), after_run(m, history)),
    decreases history.len(),
{
    if history.len() > 0 {
        let earlier = history.drop_last();
        let (wake, now) = history.last();
        let before = after_run(m, earlier);
        lemma_run_orderly(m, earlier);
        lemma_woken_orderly(surfaced(m, earlier), before, wake, now);
        let after = woken(before, wake, now);
        assert(surfaced(m, history) + drained(after).events =~= surfaced(m, earlier)
            + after.events);
    }
}

proof fn lemma_new_mux_orderly(params: Params, cipher: Option<Rc4State>, seed: u64)
    ensures
        orderly(Seq::empty(), new_mux(params, cipher, seed)),
{
    let m = new_mux(params, cipher, seed);
    assert(Seq::<MuxEvent>::empty() + m.events =~= Seq::empty());
}

/// The events of a server come in order: whatever arrives and whatever the server is told
/// to do, the opening of a session is reported before any of its data and before its end,
/// and its end after all of its data.
pub proof fn law_events_in_order(
    params: Params,
    cipher: Option<Rc4State>,
    seed: u64,
    history: Seq<(Wake, nat)>,
    remote: u64,
)
    ensures
        in_order(surfaced(new_mux(params, cipher, seed), history), remote),
{
    let m = new_mux(params, cipher, seed);
    lemma_new_mux_orderly(params, cipher, seed);
    lemma_run_orderly(m, history);
    let events = surfaced(m, history);
    let rest = after_run(m, history).events;
    assert(in_order(events + rest, remote));
    assert forall|k: int|
        0 <= k < events.len() && remote_of(#[trigger] events[k]) == remote && !(events[k]
            is SessionOpened) implies open_after(events.take(k), remote) by {
        assert(remote_of((events + rest)[k]) == remote);
        assert((events + rest).take(k) =~= events.take(k));
    }
}

/// Whether, going by the news so far, there is an open session with the server.
pub open spec fn connected_after(news: Seq<ClientNews>) -> bool
    decreases news.len(),
{
    if news.len() == 0 {
        false
    } else {
        match news.last() {
            ClientNews::Connected => true,
            ClientNews::DataReceived { data, channel } => connected_after(news.drop_last()),
            ClientNews::Disconnected { reason } => false,
        }
    }
}

/// The multiplexer of a client that has asked the server for a session.
pub open spec fn client_begun(m: Mux, server: u64, now: nat) -> Mux {
    Mux { outgoing: Seq::empty(), ..m.connected(server, now) }
}

/// What has woken up the driver of a client, as seen by the driver of a server.
pub open spec fn towards_each(server: u64, history: Seq<(ClientWake, nat)>) -> Seq<(Wake, nat)> {
    Seq::new(history.len(), |i: int| (towards(server, history[i].0), history[i].1))
}

/// That nothing but the sessions with one remote is kept and reported.
spec fn only(server: u64, events: Seq<MuxEvent>, m: Mux) -> bool {
    &&& forall|i: int| 0 <= i < m.entries.len() ==> (#[trigger] m.entries[i]).remote == server
    &&& forall|k: int| 0 <= k < m.events.len() ==> remote_of(#[trigger] m.events[k]) == server
    &&& forall|k: int| 0 <= k < events.len() ==> remote_of(#[trigger] events[k]) == server
}

proof fn lemma_lifecycle_remote(remote: u64, list: Seq<SessionEvent>, opening: bool)
    ensures
        forall|k: int|
            0 <= k < lifecycle(remote, list, opening).len() ==> remote_of(
                #[trigger] lifecycle(remote, list, opening)[k],
            ) == remote,
    decreases list.len(),
{
    if list.len() > 0 {
        lemma_lifecycle_remote(remote, list.drop_last(), opening);
        let before = lifecycle(remote, list.drop_last(), opening);
        assert forall|k: int| 0 <= k < lifecycle(remote, list, opening).len() implies remote_of(
            #[trigger] lifecycle(remote, list, opening)[k],
        ) == remote by {
            if k < before.len() {
                assert(lifecycle(remote, list, opening)[k] == before[k]);
            }
        }
    }
}

proof fn lemma_settled_only(server: u64, events: Seq<MuxEvent>, m: Mux, i: int)
    requires
        only(server, events, m),
        0 <= i < m.entries.len(),
    ensures
        only(server, events, m.settled_at(i)),
{
    let s = m.entries[i].session;
    lemma_lifecycle_remote(server, s.events, true);
    lemma_lifecycle_remote(server, s.events, false);
}

proof fn lemma_ticked_only(server: u64, events: Seq<MuxEvent>, m: Mux, i: int, now: nat)
    requires
        only(server, events, m),
        0 <= i,
    ensures
        only(server, events, m.ticked_from(i, now)),
    decreases m.entries.len() - i,
{
    if i < m.entries.len() {
        let ticked = m.with_session(i, m.entries[i].session.ticked(now));
        lemma_settled_only(server, events, ticked, i);
        let after = ticked.settled_at(i);
        if after.entries.len() < m.entries.len() {
            lemma_ticked_only(server, events, after, i, now);
        } else {
            lemma_ticked_only(server, events, after, i + 1, now);
        }
    }
}

proof fn lemma_new_only(server: u64, events: Seq<MuxEvent>, m: Mux, s: Session)
    requires
        only(server, events, m),
    ensures
        only(server, events, m.with_new(server, s)),
{
    let added = Mux {
        seed: m.seed.wrapping_add(1),
        entries: m.entries.push(MuxEntry { remote: server, opened: false, session: s }),
        ..m
    };
    lemma_settled_only(server, events, added, m.entries.len() as int);
}

proof fn lemma_woken_only(
    server: u64,
    events: Seq<MuxEvent>,
    m: Mux,
    wake: ClientWake,
    now: nat,
)
    requires
        only(server, events, m),
    ensures
        only(server, events, woken(m, towards(server, wake), now)),
{
    lemma_entry_position(m.entries, server, 0);
    let at = entry_position(m.entries, server, 0);
    match wake {
        ClientWake::Datagram(datagram) => match at {
            Some(i) => {
                let s = m.entries[i].session.datagram_received(held(datagram), now);
                lemma_settled_only(server, events, m.with_session(i, s), i);
            },
            None => {
                let s = m.fresh(SessionMode::Server, now);
                lemma_new_only(server, events, m, s);
                lemma_new_only(server, events, m, s.datagram_received(held(datagram), now));
            },
        },
        ClientWake::Tick => {
            lemma_ticked_only(server, events, m, 0, now);
        },
        ClientWake::Command(ClientCommand::EnqueueData { data, channel }) => {
            if let Some(i) = at {
                let s = m.entries[i].session.enqueued(held(data), channel).0;
                lemma_settled_only(server, events, m.with_session(i, s), i);
            }
        },
        ClientWake::Command(ClientCommand::Terminate { reason }) => {
            if let Some(i) = at {
                let s = m.entries[i].session.terminated(reason, true, false, now);
                lemma_settled_only(server, events, m.with_session(i, s), i);
            }
        },
        _ => {},
    }
}

proof fn lemma_run_only(server: u64, m: Mux, history: Seq<(ClientWake, nat)>)
    requires
        only(server, Seq::empty(), m),
    ensures
        only(
            server,
            surfaced(m, towards_each(server, history)),
            after_run(m, towards_each(server, history)),
        ),
    decreases history.len(),
{
    let seen = towards_each(server, history);
    if history.len() > 0 {
        let earlier = history.drop_last();
        let (wake, now) = history.last();
        assert(seen.drop_last() =~= towards_each(server, earlier));
        let before = after_run(m, towards_each(server, earlier));
        lemma_run_only(server, m, earlier);
        lemma_woken_only(
            server,
            surfaced(m, towards_each(server, earlier)),
            before,
            wake,
            now,
        );
        assert(seen.last() == (towards(server, wake), now));
    }
}

proof fn lemma_connected_after(server: u64, events: Seq<MuxEvent>)
    requires
        forall|k: int| 0 <= k < events.len() ==> remote_of(#[trigger] events[k]) == server,
    ensures
        connected_after(news_of(events)) == open_after(events, server),
    decreases events.len(),
{
    if events.len() > 0 {
        assert(news_of(events).drop_last() =~= news_of(events.drop_last()));
        assert(remote_of(events[events.len() - 1]) == server);
        lemma_connected_after(server, events.drop_last());
    }
}

/// The events of a client come in order: data and the end are reported only while the
/// session with the server is open, so that the first event is always that the session has
/// been established.
pub proof fn law_client_events_in_order(
    params: Params,
    cipher: Option<Rc4State>,
    seed: u64,
    server: u64,
    begun: nat,
    history: Seq<(ClientWake, nat)>,
)
    ensures
        ({
            let m = client_begun(new_mux(params, cipher, seed), server, begun);
            let news = news_of(surfaced(m, towards_each(server, history)));
            &&& forall|k: int|
                0 <= k < news.len() && !(#[trigger] news[k] is Connected) ==> connected_after(
                    news.take(k),
                )
            &&& news.len() > 0 ==> news[0] is Connected
        }),
{
    let start = new_mux(params, cipher, seed);
    let m = client_begun(start, server, begun);
    let seen = towards_each(server, history);
    let events = surfaced(m, seen);
    let news = news_of(events);
    lemma_new_mux_orderly(params, cipher, seed);
    lemma_connected_orderly(Seq::empty(), start, server, begun);
    lemma_new_only(
        server,
        Seq::empty(),
        start,
        start.fresh(SessionMode::Client, begun).requested(),
    );
    lemma_run_orderly(m, seen);
    lemma_run_only(server, m, history);
    let rest = after_run(m, seen).events;
    assert(in_order(events + rest, server));
    assert forall|k: int| 0 <= k < news.len() && !(#[trigger] news[k] is Connected) implies
    connected_after(news.take(k)) by {
        assert(!(without_remote(events[k]) is Connected));
        assert(remote_of((events + rest)[k]) == server);
        assert((events + rest).take(k) =~= events.take(k));
        lemma_connected_after(server, events.take(k));
        assert(news_of(events.take(k)) =~= news.take(k));
    }
    if news.len() > 0 && !(news[0] is Connected) {
        assert(connected_after(news.take(0)));
    }
}

/// What wakes a driver up reaches the multiplexer as it is: a datagram as one from the
/// remote that sent it, a tick as a tick, and a command as what it asks for, for the remote,
/// the data, the channel and the reason that it names.
pub proof fn law_wakes(
    m: Mux,
    remote: u64,
    datagram: Bytes,
    data: Bytes,
    channel: Channel,
    reason: DisconnectReason,
    now: nat,
)
    ensures
        woken(m, Wake::Datagram { remote, datagram }, now) == m.datagram_received(
            remote,
            held(datagram),
            now,
        ),
        woken(m, Wake::Tick, now) == m.ticked(now),
        woken(m, Wake::Command(Command::Connect(remote)), now) == m.connected(remote, now),
        woken(m, Wake::Command(Command::EnqueueData { remote, data, channel }), now)
            == m.enqueued(remote, held(data), channel).0,
        woken(m, Wake::Command(Command::Terminate { remote, reason }), now) == m.terminated(
            remote,
            reason,
            now,
        ),
        woken(m, Wake::ReceiveFailed, now) == m,
        woken(m, Wake::CommandsClosed, now) == m,
        drained(m) == (Mux { outgoing: Seq::empty(), events: Seq::empty(), ..m }),
{
}

/// What wakes the driver of a client up is for and from the server, and otherwise what it
/// would be for the driver of a server.
pub proof fn law_client_wakes(
    m: Mux,
    server: u64,
    datagram: Bytes,
    data: Bytes,
    channel: Channel,
    reason: DisconnectReason,
    now: nat,
)
    ensures
        woken(m, towards(server, ClientWake::Datagram(datagram)), now) == m.datagram_received(
            server,
            held(datagram),
            now,
        ),
        woken(m, towards(server, ClientWake::Tick), now) == m.ticked(now),
        woken(
            m,
            towards(server, ClientWake::Command(ClientCommand::EnqueueData { data, channel })),
            now,
        ) == m.enqueued(server, held(data), channel).0,
        woken(
            m,
            towards(server, ClientWake::Command(ClientCommand::Terminate { reason })),
            now,
        ) == m.terminated(server, reason, now),
{
}

/// A client is told what a server would be, event by event, without the remote: the data
/// and its channel, and the reason for the end. And it sends what a server would.
pub proof fn law_client_is_told(
    events: Seq<MuxEvent>,
    outgoing: Seq<(u64, Seq<u8>)>,
    remote: u64,
    data: Seq<u8>,
    channel: Channel,
    reason: DisconnectReason,
    i: int,
)
    requires
        0 <= i < events.len(),
    ensures
        news_of(events).len() == events.len(),
        events[i] == (MuxEvent::SessionOpened { remote }) ==> news_of(events)[i]
            == ClientNews::Connected,
        events[i] == (MuxEvent::DataReceived { remote, data, channel }) ==> news_of(events)[i]
            == (ClientNews::DataReceived { data, channel }),
        events[i] == (MuxEvent::SessionClosed { remote, reason }) ==> news_of(events)[i]
            == (ClientNews::Disconnected { reason }),
        unaddressed(outgoing).len() == outgoing.len(),
        forall|k: int| 0 <= k < outgoing.len() ==> #[trigger] unaddressed(outgoing)[k]
            == outgoing[k].1,
{
}

/// The events that are handed out say what they hold: a client's and a server's alike.
pub proof fn law_events_say(
    list: Seq<SocketEvent>,
    heard: Seq<ClientEvent>,
    remote: u64,
    data: Bytes,
    channel: Channel,
    reason: DisconnectReason,
    i: int,
)
    ensures
        event_each(list).len() == list.len(),
        news_each(heard).len() == heard.len(),
        0 <= i < list.len() ==> {
            &&& list[i] == (SocketEvent::SessionOpened { remote }) <==> event_each(list)[i]
                == (MuxEvent::SessionOpened { remote })
            &&& list[i] == (SocketEvent::DataReceived { remote, data, channel })
                ==> event_each(list)[i] == (MuxEvent::DataReceived {
                remote,
                data: held(data),
                channel,
            })
            &&& list[i] == (SocketEvent::SessionClosed { remote, reason }) <==> event_each(
                list,
            )[i] == (MuxEvent::SessionClosed { remote, reason })
        },
        0 <= i < heard.len() ==> {
            &&& heard[i] == ClientEvent::Connected <==> news_each(heard)[i]
                == ClientNews::Connected
            &&& heard[i] == (ClientEvent::DataReceived { data, channel }) ==> news_each(heard)[i]
                == (ClientNews::DataReceived { data: held(data), channel })
            &&& heard[i] == (ClientEvent::Disconnected { reason }) <==> news_each(heard)[i]
                == (ClientNews::Disconnected { reason })
        },
{
}

} // verus!
