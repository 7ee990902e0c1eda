//! The data-bundle variable-length integer scheme.

use vstd::prelude::*;

use crate::error::Error;
use crate::io::{BinaryReader, BinaryWriter};
use crate::varint::{
    lemma_multibyte_round_trip, multibyte_fields, multibyte_read, write_multibyte,
};
use crate::wire::{
    be_bytes, be_value, concat, concat_from, fields_end, lemma_be_bytes_len,
    lemma_be_value_bound, lemma_be_value_two, lemma_pow256_values, too_short,
    write_fields_from,
};

verus! {

/// The fields that a value is written as.
pub open spec fn fields(length: u32) -> Seq<Seq<u8>> {
    if length < 0xFF {
        seq![seq![length as u8]]
    } else {
        multibyte_fields(length)
    }
}

/// The bytes that a value is written as.
pub open spec fn encoded(length: u32) -> Seq<u8> {
    concat(fields(length))
}

/// What is read from the start of `rest`, and how many bytes that consumes, also where
/// the value is cut short.
pub open spec fn decoded(rest: Seq<u8>) -> (Result<u32, Error>, int) {
    if rest.len() == 0 {
        (Err(too_short(1, 0)), 0)
    } else if rest[0] < 0xFF {
        (Ok(rest[0] as u32), 1)
    } else {
        multibyte_read(rest)
    }
}

/// Returns the number of bytes a value of `length` occupies under this scheme.
pub fn encoded_size(length: u32) -> (n: usize)
    ensures
        n == encoded(length).len(),
        n == (if length < 0xFF {
            1int
        } else if length < 0xFFFF {
            3int
        } else {
            7int
        }),
{
    proof {
        if length < 0xFF {
            lemma_single(length);
        } else {
            lemma_multibyte_round_trip(length, Seq::empty());
        }
    }
    if length < 0xFF {
        1
    } else if length < 0xFFFF {
        3
    } else {
        7
    }
}

/// Reads a variable-length value from `reader`, advancing it past the value.
pub fn read(reader: &mut BinaryReader) -> (r: Result<u32, Error>)
    ensures
        r == decoded(old(reader).rest()).0,
        final(reader).moved(*old(reader), decoded(old(reader).rest()).1),
{
    let b0: u8 = match reader.peek(0) {
        Some(b) => b,
        None => {
            return Err(Error::BufferTooShort { needed: 1, available: 0 });
        },
    };
    proof {
        let bytes = reader.bytes();
        let pos = reader.pos();
        let rest = reader.rest();
        if rest.len() >= 3 {
            assert(rest.subrange(1, 3) =~= bytes.subrange(pos + 1, pos + 3));
            lemma_be_value_bound(rest.subrange(1, 3));
            lemma_pow256_values();
        }
        if rest.len() >= 7 {
            assert(rest.subrange(3, 7) =~= bytes.subrange(pos + 3, pos + 7));
        }
    }

    if b0 < 0xFF {
        reader.skip(1)?;
        Ok(b0 as u32)
    } else if reader.peek(1) == Some(0xFF) && reader.peek(2) == Some(0xFF) {
        reader.skip(3)?;
        reader.read_u32()
    } else {
        reader.skip(1)?;
        let value: u16 = reader.read_u16()?;
        Ok(value as u32)
    }
}

/// Writes a variable-length value to `writer`, advancing it past the value. Where the
/// value does not fit, the parts of it that do are written.
pub fn write(writer: &mut BinaryWriter, length: u32) -> (r: Result<(), Error>)
    requires
        old(writer).wf(),
    ensures
        final(writer).wf(),
        final(writer).wrote_fields(*old(writer), fields(length), r),
        (*final(final(writer).data))@ == (*final(old(writer).data))@,
{
    if length < 0xFF {
        proof {
            reveal_with_fuel(write_fields_from, 2);
            reveal_with_fuel(fields_end, 2);
        }
        writer.write_u8(length as u8)
    } else {
        write_multibyte(writer, length)
    }
}

proof fn lemma_single(length: u32)
    requires
        length < 0xFF,
    ensures
        encoded(length) == seq![length as u8],
{
    reveal_with_fuel(concat_from, 2);
    assert(encoded(length) =~= seq![length as u8]);
}

/// Reading gives back every value that was written, and consumes its bytes exactly,
/// whatever follows them.
pub proof fn law_round_trip(length: u32, rest: Seq<u8>)
    ensures
        decoded(encoded(length) + rest) == (
            Ok::<u32, Error>(length),
            encoded(length).len() as int,
        ),
{
    if length < 0xFF {
        lemma_single(length);
    } else {
        lemma_multibyte_round_trip(length, rest);
    }
}

/// The bytes of a value: one byte below 255; 255 and two bytes below 65535; and three times
/// 255 and four bytes from there on.
pub proof fn law_layout(length: u32)
    ensures
        encoded(length) == (if length < 255 {
            seq![length as u8]
        } else if length < 65535 {
            seq![255u8] + be_bytes(length as nat, 2)
        } else {
            seq![255u8, 255u8, 255u8] + be_bytes(length as nat, 4)
        }),
{
    reveal_with_fuel(concat_from, 5);
    lemma_be_bytes_len(length as nat, 2);
    lemma_be_bytes_len(length as nat, 4);
    assert(encoded(length) =~= (if length < 255 {
        seq![length as u8]
    } else if length < 65535 {
        seq![255u8] + be_bytes(length as nat, 2)
    } else {
        seq![255u8, 255u8, 255u8] + be_bytes(length as nat, 4)
    }));
}

/// What any bytes are read as: a byte below 255 is the value; behind 255 stand two bytes of
/// it, or, behind 255 twice more, four. Nothing is read of a value that is cut short.
pub proof fn law_reads(rest: Seq<u8>)
    ensures
        ({
            let (value, consumed) = decoded(rest);
            if rest.len() > 0 && rest[0] < 255 {
                value == Ok::<u32, Error>(rest[0] as u32) && consumed == 1
            } else if rest.len() < 3 {
                value is Err
            } else if rest[1] == 255 && rest[2] == 255 {
                if rest.len() < 7 {
                    value is Err
                } else {
                    value == Ok::<u32, Error>(be_value(rest.subrange(3, 7)) as u32) && consumed
                        == 7
                }
            } else {
                value == Ok::<u32, Error>((rest[1] * 256 + rest[2]) as u32) && consumed == 3
            }
        }),
{
    if rest.len() >= 3 {
        assert(rest.subrange(1, 3) =~= seq![rest[1], rest[2]]);
        lemma_be_value_two(rest[1], rest[2]);
    }
}

} // verus!
