//! Variable-length integer encoding used by the SOE protocol.
//!
//! The protocol uses two subtly different variable-length integer schemes:
//!
//! * [`multi_packet`] prefixes sub-packets within a `MultiPacket`. A single-byte length
//!   may be up to `0xFF` inclusive, relying on every core OP code beginning with `0x00`
//!   (given big endian) to disambiguate a single-byte `0xFF` from the multi-byte forms.
//! * [`data_bundle`] prefixes data buffers within a reliable-data bundle. A single-byte
//!   length may only be up to `0xFE`.
//!
//! Larger values are encoded as three bytes (`0xFF` and a big-endian `u16`) or seven
//! bytes (`0xFF 0xFF 0xFF` and a big-endian `u32`).

use vstd::prelude::*;

use crate::error::Error;
use crate::io::BinaryWriter;
use crate::wire::{
    be_at, be_bytes, concat, concat_from, fields_end, lemma_be_bytes_len, lemma_be_two,
    lemma_be_value_of_bytes, lemma_pow256_values, too_short, write_fields_from,
};

pub mod data_bundle;
pub mod multi_packet;

verus! {

/// The fields of a value that takes more than one byte.
pub open spec fn multibyte_fields(length: u32) -> Seq<Seq<u8>> {
    if length < 0xFFFF {
        seq![seq![0xFFu8], be_bytes(length as nat, 2)]
    } else {
        seq![seq![0xFFu8], seq![0xFFu8], seq![0xFFu8], be_bytes(length as nat, 4)]
    }
}

/// What the bytes of a multi-byte value, whose first byte is `0xFF`, are read as, and
/// how many of them are consumed, also where the value is cut short.
pub open spec fn multibyte_read(rest: Seq<u8>) -> (Result<u32, Error>, int) {
    if rest.len() > 2 && rest[1] == 0xFF && rest[2] == 0xFF {
        if rest.len() >= 7 {
            (Ok(be_at(rest, 3, 4) as u32), 7)
        } else {
            (Err(too_short(4, rest.len() - 3)), 3)
        }
    } else if rest.len() >= 3 {
        (Ok(be_at(rest, 1, 2) as u32), 3)
    } else {
        (Err(too_short(2, rest.len() - 1)), 1)
    }
}

/// Multi-byte values of at least `0x100` are read back from their own bytes, whatever
/// follows them; so is `0xFF`, where a zero second byte is not taken for anything else.
pub(crate) proof fn lemma_multibyte_round_trip(length: u32, rest: Seq<u8>)
    requires
        length >= 0xFF,
    ensures
        ({
            let bytes = concat(multibyte_fields(length));
            &&& bytes.len() == if length < 0xFFFF { 3int } else { 7int }
            &&& bytes[0] == 0xFF
            &&& length >= 0x100 ==> bytes[1] != 0
            &&& multibyte_read(bytes + rest) == (
                Ok::<u32, Error>(length),
                bytes.len() as int,
            )
        }),
{
    let fields = multibyte_fields(length);
    let bytes = concat(fields);
    let all = bytes + rest;
    reveal_with_fuel(concat_from, 5);
    lemma_pow256_values();
    if length < 0xFFFF {
        lemma_be_two(length as nat);
        lemma_be_value_of_bytes(length as nat, 2);
        assert(bytes =~= seq![0xFFu8] + be_bytes(length as nat, 2));
        assert(all.subrange(1, 3) =~= be_bytes(length as nat, 2));
    } else {
        lemma_be_bytes_len(length as nat, 4);
        lemma_be_value_of_bytes(length as nat, 4);
        assert(bytes =~= seq![0xFFu8, 0xFFu8, 0xFFu8] + be_bytes(length as nat, 4));
        assert(all.subrange(3, 7) =~= be_bytes(length as nat, 4));
    }
}

fn write_multibyte(writer: &mut BinaryWriter, length: u32) -> (r: Result<(), Error>)
    requires
        old(writer).wf(),
    ensures
        final(writer).wf(),
        final(writer).wrote_fields(*old(writer), multibyte_fields(length), r),
        (*final(final(writer).data))@ == (*final(old(writer).data))@,
{
    proof {
        reveal_with_fuel(write_fields_from, 5);
        reveal_with_fuel(fields_end, 5);
    }
    if length < 0xFFFF {
        writer.write_u8(0xFF)?;
        writer.write_u16(length as u16)
    } else {
        writer.write_u8(0xFF)?;
        writer.write_u8(0xFF)?;
        writer.write_u8(0xFF)?;
        writer.write_u32(length)
    }
}

} // verus!
