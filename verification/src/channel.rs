//! Reliable data channels: reassembly/ordering of incoming data, and
//! fragmentation/sequencing of outgoing data.

use vstd::prelude::*;

pub mod delivery_laws;
pub mod input;
pub mod input_laws;
pub mod output;
pub mod output_laws;
pub mod receiving_laws;
pub mod sending_laws;

pub use input::{
    CorruptData, DataInputStats, InputConfig, OutgoingContextual, ReliableDataInputChannel,
};
pub use output::{DataOutputStats, OutgoingReliable, OutputConfig, ReliableDataOutputChannel};

verus! {

/// The number of sequences that the 16 bits of a packet's sequence can tell apart.
pub const SEQUENCE_BLOCK: i64 = 0x1_0000;

/// The sequence that a packet with the given 16-bit sequence is taken to have, where
/// `current` is the position of the window and `max_queued` its size to either side: the
/// 16 bits are put in the place of the low bits of `current`, and the result is moved by
/// one block of 16 bits if it lies outside the window.
pub open spec fn true_sequence(packet_sequence: u16, current: i64, max_queued: i64) -> i64 {
    let placed = packet_sequence as i64 | (current & 0x7FFF_FFFF_FFFF_0000);
    let lowered = if placed > current.wrapping_add(max_queued) {
        placed.wrapping_sub(SEQUENCE_BLOCK)
    } else {
        placed
    };
    if lowered < current.wrapping_sub(max_queued) {
        lowered.wrapping_add(SEQUENCE_BLOCK)
    } else {
        lowered
    }
}

/// Computes the "true" (un-wrapped, monotonically increasing) sequence number for an
/// incoming packet, given the embedded 16-bit packet sequence and the expected window
/// position.
pub fn true_incoming_sequence(
    packet_sequence: u16,
    current_sequence: i64,
    max_queued_reliable_data_packets: i64,
) -> (sequence: i64)
    ensures
        sequence == true_sequence(
            packet_sequence,
            current_sequence,
            max_queued_reliable_data_packets,
        ),
{
    // Zero out the low two bytes of the last known sequence and insert the packet
    // sequence in that space.
    let mut sequence: i64 = packet_sequence as i64 | (current_sequence
        & 0x7FFF_FFFF_FFFF_0000);

    // If larger than our possible window, we wrapped back to the previous block.
    if sequence > current_sequence.wrapping_add(max_queued_reliable_data_packets) {
        sequence = sequence.wrapping_sub(SEQUENCE_BLOCK);
    }
    // If smaller than our possible window, we wrapped forward to the next block.

    if sequence < current_sequence.wrapping_sub(max_queued_reliable_data_packets) {
        sequence = sequence.wrapping_add(SEQUENCE_BLOCK);
    }
    sequence
}

/// The 16 bits that a packet carries of its sequence.
pub open spec fn short_sequence(sequence: i64) -> u16 {
    (sequence % SEQUENCE_BLOCK) as u16
}

/// The low 16 bits of a sequence.
pub(crate) fn shorten(sequence: i64) -> (short: u16)
    ensures
        short == short_sequence(sequence),
{
    proof {
        lemma_shorten(sequence);
    }
    sequence as u16
}

proof fn lemma_shorten(sequence: i64)
    ensures
        sequence as u16 == short_sequence(sequence),
{
    assert(sequence as u16 == (sequence % 0x1_0000) as u16) by (bit_vector);
}

proof fn lemma_place(packet_sequence: u16, current: i64)
    requires
        current >= 0,
    ensures
        packet_sequence as i64 | (current & 0x7FFF_FFFF_FFFF_0000) == current - current
            % SEQUENCE_BLOCK + packet_sequence,
{
    assert(packet_sequence as i64 | (current & 0x7FFF_FFFF_FFFF_0000) == current - current
        % 0x1_0000 + packet_sequence) by (bit_vector)
        requires
            current >= 0,
    ;
}

/// The 16 bits that a packet carries of its sequence are enough to tell it: every
/// sequence within the window to either side of the current position is recovered, as far
/// as it is nearer to that position than any other sequence in the window with the same 16
/// bits can be. That is all of a window of less than half a block.
pub proof fn law_sequence_recovered(sequence: i64, current: i64, max_queued: i64)
    requires
        0 <= current,
        0 <= max_queued,
        current - max_queued <= sequence <= current + max_queued,
        current + max_queued - SEQUENCE_BLOCK < sequence < current + SEQUENCE_BLOCK
            - max_queued,
        current + max_queued <= i64::MAX,
        current + SEQUENCE_BLOCK <= i64::MAX,
    ensures
        true_sequence(short_sequence(sequence), current, max_queued) == sequence,
{
    lemma_place(short_sequence(sequence), current);
}

/// A sequence ahead of the window is told too, as long as it is not nearer to the end of the
/// window than to the window of a block later.
pub proof fn law_sequence_ahead(sequence: i64, current: i64, max_queued: i64)
    requires
        0 <= current,
        0 <= max_queued,
        current + max_queued < sequence < current + SEQUENCE_BLOCK - max_queued,
        current + SEQUENCE_BLOCK <= i64::MAX,
    ensures
        true_sequence(short_sequence(sequence), current, max_queued) == sequence,
{
    lemma_place(short_sequence(sequence), current);
}

/// No packet is mistaken for another one that is due, or kept until it is due: a sequence
/// that is less than a block ahead of the current position, or behind it by less than a
/// block less the window, is taken for itself, for one behind the current position or for
/// one ahead of the window.
pub proof fn law_sequence_not_mistaken(sequence: i64, current: i64, max_queued: i64)
    requires
        0 <= current,
        0 <= max_queued,
        current + max_queued - SEQUENCE_BLOCK < sequence < current + SEQUENCE_BLOCK,
        current + max_queued <= i64::MAX,
        current + SEQUENCE_BLOCK <= i64::MAX,
    ensures
        ({
            let taken = true_sequence(short_sequence(sequence), current, max_queued);
            taken == sequence || taken < current || taken > current + max_queued
        }),
        sequence == current ==> true_sequence(short_sequence(sequence), current, max_queued)
            == sequence,
{
    lemma_place(short_sequence(sequence), current);
}

/// What 16 bits are taken for ends in these bits, and lies in the window if any sequence
/// that ends in them does.
pub proof fn law_sequence_in_window(sequence: i64, current: i64, max_queued: i64)
    requires
        0 <= current,
        0 <= max_queued,
        current - max_queued <= sequence <= current + max_queued,
        current + max_queued <= i64::MAX,
        current + SEQUENCE_BLOCK <= i64::MAX,
    ensures
        ({
            let taken = true_sequence(short_sequence(sequence), current, max_queued);
            &&& short_sequence(taken) == short_sequence(sequence)
            &&& current - max_queued <= taken <= current + max_queued
        }),
{
    lemma_place(short_sequence(sequence), current);
}

/// What a packet's 16 bits are taken for ends in these bits, and is taken for itself once
/// it is the current position.
pub proof fn law_sequence_settles(packet_sequence: u16, current: i64, max_queued: i64)
    requires
        0 <= current,
        0 <= max_queued,
        current + max_queued <= i64::MAX,
        current + SEQUENCE_BLOCK <= i64::MAX,
    ensures
        ({
            let sequence = true_sequence(packet_sequence, current, max_queued);
            &&& short_sequence(sequence) == packet_sequence
            &&& sequence > current && sequence + max_queued <= i64::MAX ==> true_sequence(
                packet_sequence,
                sequence,
                max_queued,
            ) == sequence
        }),
{
    let sequence = true_sequence(packet_sequence, current, max_queued);
    lemma_place(packet_sequence, current);
    if sequence > current {
        lemma_place(packet_sequence, sequence);
    }
}

} // verus!
