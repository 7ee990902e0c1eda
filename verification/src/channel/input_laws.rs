//! What holds of the input channel as a whole.

use vstd::prelude::*;
use vstd::set_lib::{lemma_int_range, lemma_len_subset, set_int_range};

use crate::channel::input::{
    lemma_consumed_keeps_stash, lemma_stash_position, new_input, stash_position, InputState,
};
use crate::channel::true_sequence;
use crate::rc4::Rc4State;
use crate::wire::be_at;

verus! {

impl InputState {
    /// That the stash holds nothing but packets ahead of their turn by no more than the
    /// channel keeps, each at most once.
    pub open spec fn stash_in_window(self) -> bool {
        self.stash_within(self.window_start + 1, self.window_start + self.max_queued)
    }

    /// That the stash holds nothing but packets from `low` up to `high`, each at most
    /// once.
    pub open spec fn stash_within(self, low: int, high: int) -> bool {
        &&& forall|i: int|
            0 <= i < self.stash.len() ==> low <= (#[trigger] self.stash[i]).sequence <= high
        &&& forall|i: int, j: int|
            0 <= i < j < self.stash.len() ==> (#[trigger] self.stash[i]).sequence != (
            #[trigger] self.stash[j]).sequence
    }
}

/// A new channel's stash is empty.
pub proof fn law_new_input(
    max_queued: u16,
    acknowledge_all_data: bool,
    ack_window: u16,
    max_ack_delay: nat,
    cipher: Option<Rc4State>,
    now: nat,
)
    ensures
        new_input(
            max_queued,
            acknowledge_all_data,
            ack_window,
            max_ack_delay,
            cipher,
            now,
        ).stash_in_window(),
{
}

/// A stash that keeps to its window never holds more packets than the channel is to keep,
/// whatever the remote sends.
pub proof fn law_stash_bounded(s: InputState)
    requires
        s.stash_in_window(),
    ensures
        s.stash.len() <= s.max_queued,
{
    let sequences = Seq::new(s.stash.len(), |i: int| s.stash[i].sequence as int);
    let low = s.window_start + 1;
    let high = s.window_start + s.max_queued + 1;
    assert(sequences.no_duplicates()) by {
        assert forall|i: int, j: int|
            0 <= i < sequences.len() && 0 <= j < sequences.len() && i != j implies sequences[i]
            != sequences[j] by {
            if i < j {
                assert(s.stash[i].sequence != s.stash[j].sequence);
            } else {
                assert(s.stash[j].sequence != s.stash[i].sequence);
            }
        }
    }
    sequences.unique_seq_to_set();
    assert forall|x: int| sequences.to_set().contains(x) implies set_int_range(
        low,
        high,
    ).contains(x) by {
        let i = choose|i: int| 0 <= i < sequences.len() && sequences[i] == x;
        assert(s.stash[i].sequence == x);
    }
    lemma_int_range(low, high);
    lemma_len_subset(sequences.to_set(), set_int_range(low, high));
}

proof fn lemma_drain_keeps(s: InputState)
    requires
        0 <= s.window_start,
        s.stash_within(s.window_start as int, s.window_start + s.max_queued),
        s.window_start + s.stash.len() + s.max_queued + 1 < i64::MAX,
    ensures
        s.drained().1 ==> s.drained().0.stash_in_window(),
        s.drained().1 ==> s.window_start <= s.drained().0.window_start <= s.window_start
            + s.stash.len(),
        s.drained().0.max_queued == s.max_queued,
    decreases s.stash.len(),
{
    lemma_stash_position(s.stash, s.window_start, 0);
    match stash_position(s.stash, s.window_start, 0) {
        None => {},
        Some(pos) => {
            let packet = s.stash[pos];
            let without = s.without(pos);
            lemma_consumed_keeps_stash(without, packet.is_fragment, packet.data);
            let (after, ok) = without.consumed(packet.is_fragment, packet.data);
            if ok {
                assert forall|i: int| 0 <= i < after.stash.len() implies after.window_start <= (
                #[trigger] after.stash[i]).sequence <= after.window_start + after.max_queued by {
                    let from = if i < pos { i } else { i + 1 };
                    assert(after.stash[i] == s.stash[from]);
                    if from < pos {
                        assert(s.stash[from].sequence != s.stash[pos].sequence);
                    } else {
                        assert(s.stash[pos].sequence != s.stash[from].sequence);
                    }
                }
                assert forall|i: int, j: int| 0 <= i < j < after.stash.len() implies (
                #[trigger] after.stash[i]).sequence != (
                #[trigger] after.stash[j]).sequence by {
                    let a = if i < pos { i } else { i + 1 };
                    let b = if j < pos { j } else { j + 1 };
                    assert(after.stash[i] == s.stash[a]);
                    assert(after.stash[j] == s.stash[b]);
                }
                lemma_drain_keeps(after);
            }
        },
    }
}

/// Whatever arrives, the stash keeps to its window, as long as nothing corrupt arrives
/// (which ends the session).
pub proof fn law_stash_kept(s: InputState, body: Seq<u8>, is_fragment: bool, now: nat)
    requires
        0 <= s.window_start,
        s.stash_in_window(),
        s.window_start + s.max_queued + s.stash.len() + 2 < i64::MAX,
        s.received(body, is_fragment, now).1,
    ensures
        s.received(body, is_fragment, now).0.stash_in_window(),
        s.received(body, is_fragment, now).0.window_start >= s.window_start,
{
    let short = be_at(body, 0, 2) as u16;
    let sequence = true_sequence(short, s.window_start, s.max_queued as i64);
    if sequence > s.window_start + s.max_queued {
    } else if sequence < s.window_start {
    } else if sequence > s.window_start {
        lemma_stash_position(s.stash, sequence, 0);
    } else {
        let begun = if s.acknowledge_all_data {
            s.tallied().acknowledging(short)
        } else {
            s.tallied()
        };
        lemma_consumed_keeps_stash(begun, is_fragment, body.skip(2));
        let after = begun.consumed(is_fragment, body.skip(2)).0;
        lemma_drain_keeps(after);
    }
}

/// A packet whose turn has come and gone, or that lies too far ahead, delivers nothing and
/// leaves what is being reassembled, the cipher and the stash as they are; one that is
/// ahead of its turn delivers nothing either.
pub proof fn law_only_its_turn_delivers(
    s: InputState,
    body: Seq<u8>,
    is_fragment: bool,
    now: nat,
)
    requires
        body.len() >= 2,
        true_sequence(
            be_at(body, 0, 2) as u16,
            s.window_start,
            s.max_queued as i64,
        ) != s.window_start,
    ensures
        ({
            let (after, ok) = s.received(body, is_fragment, now);
            let sequence = true_sequence(
                be_at(body, 0, 2) as u16,
                s.window_start,
                s.max_queued as i64,
            );
            &&& ok
            &&& after.app_data == s.app_data
            &&& after.assembly == s.assembly
            &&& after.cipher == s.cipher
            &&& after.window_start == s.window_start
            &&& sequence < s.window_start || sequence > s.window_start + s.max_queued
                ==> after.stash == s.stash
        }),
{
}

/// What has been received is acknowledged as a whole by a tick that comes later than the
/// maximum delay after the last such acknowledgement, and is not acknowledged again until
/// more has been received.
pub proof fn law_acknowledged_in_time(s: InputState, now: nat, later: nat)
    requires
        !s.acknowledge_all_data,
        s.last_complete() > s.last_ack_all_sequence,
        s.ack_delayed(now),
    ensures
        s.ticked(now).last_ack_all_sequence == s.last_complete(),
        s.ticked(now).outgoing.len() == s.outgoing.len() + 1,
        s.ticked(now).ticked(later) == s.ticked(now),
{
}

} // verus!
