//! MultiPacket bundling/unbundling helpers.
//!
//! A MultiPacket payload (the bytes after the `0x00 0x03` OP code) consists of
//! back-to-back sub-packets, each prefixed by its length as a MultiPacket varint.

use vstd::prelude::*;

use crate::constants::OP_CODE_SIZE;
use crate::error::{Error, ErrorView};
use crate::io::{BinaryReader, BinaryWriter};
use crate::varint::multi_packet;
use crate::wire::{
    concat, concat_from, fields_end, lemma_concat_append, lemma_write_fields_append,
    lemma_write_fields_fit, splice, write_fields, write_fields_from,
};

verus! {

/// The bytes of each of a list of slices.
pub open spec fn contents(slices: Seq<&[u8]>) -> Seq<Seq<u8>> {
    Seq::new(slices.len(), |i: int| slices[i]@)
}

/// The character of a decimal digit.
pub open spec fn digit(d: nat) -> char {
    seq!['0', '1', '2', '3', '4', '5', '6', '7', '8', '9'][d as int]
}

/// A number in decimal digits.
pub open spec fn decimal(n: nat) -> Seq<char>
    decreases n,
{
    if n < 10 {
        seq![digit(n)]
    } else {
        decimal(n / 10).push(digit(n % 10))
    }
}

fn digit_text(d: u32) -> (s: &'static str)
    requires
        d < 10,
    ensures
        s@ == seq![digit(d as nat)],
{
    proof {
        reveal_strlit("0");
        reveal_strlit("1");
        reveal_strlit("2");
        reveal_strlit("3");
        reveal_strlit("4");
        reveal_strlit("5");
        reveal_strlit("6");
        reveal_strlit("7");
        reveal_strlit("8");
        reveal_strlit("9");
    }
    let s = match d {
        0 => "0",
        1 => "1",
        2 => "2",
        3 => "3",
        4 => "4",
        5 => "5",
        6 => "6",
        7 => "7",
        8 => "8",
        _ => "9",
    };
    assert(s@ =~= seq![digit(d as nat)]);
    s
}

fn append_decimal(text: &mut String, n: u32)
    ensures
        final(text)@ == old(text)@ + decimal(n as nat),
    decreases n,
{
    if n >= 10 {
        append_decimal(text, n / 10);
    }
    text.append(digit_text(n % 10));
    assert(text@ =~= old(text)@ + decimal(n as nat));
}

/// What is reported of a sub-packet with an impossible length.
pub open spec fn bad_length(len: u32) -> ErrorView {
    ErrorView::OutOfRange("invalid multi-packet sub-packet length "@ + decimal(len as nat))
}

/// The sub-packets of a payload, or what is wrong with the first of them that is
/// malformed.
pub open spec fn unpacked(payload: Seq<u8>) -> Result<Seq<Seq<u8>>, ErrorView>
    decreases payload.len(),
{
    if payload.len() == 0 {
        Ok(Seq::empty())
    } else {
        match multi_packet::decoded(payload) {
            (Err(e), _) => Err(e@),
            (Ok(len), at) => if len < OP_CODE_SIZE || len > payload.len() - at {
                Err(bad_length(len))
            } else {
                match unpacked(payload.skip(at + len)) {
                    Err(e) => Err(e),
                    Ok(more) => Ok(seq![payload.subrange(at, at + len)] + more),
                }
            },
        }
    }
}

/// The result of unpacking a payload, of which `done` has been unpacked already and
/// the rest gives `more`.
spec fn joined(
    done: Seq<Seq<u8>>,
    more: Result<Seq<Seq<u8>>, ErrorView>,
) -> Result<Seq<Seq<u8>>, ErrorView> {
    match more {
        Ok(more) => Ok(done + more),
        Err(e) => Err(e),
    }
}

/// Returns the sub-packets within a MultiPacket payload (excluding the MultiPacket's own
/// OP code).
pub fn unpack(payload: &[u8]) -> (r: Result<Vec<&[u8]>, Error>)
    ensures
        match unpacked(payload@) {
            Ok(packets) => r is Ok && contents(r->Ok_0@) == packets,
            Err(e) => r is Err && r->Err_0@ == e,
        },
{
    let mut out: Vec<&[u8]> = Vec::new();
    let mut reader = BinaryReader::new(payload);
    proof {
        assert(reader.rest() =~= payload@);
        match unpacked(payload@) {
            Ok(more) => {
                assert(contents(out@) + more =~= more);
            },
            Err(_) => {},
        }
    }
    while reader.remaining() > 0
        invariant
            reader.bytes() == payload@,
            0 <= reader.pos() <= payload@.len(),
            unpacked(payload@) == joined(contents(out@), unpacked(reader.rest())),
        ensures
            contents(out@) == (if unpacked(payload@) is Ok {
                unpacked(payload@)->Ok_0
            } else {
                Seq::empty()
            }),
            unpacked(payload@) is Ok,
        decreases reader.left(),
    {
        let ghost rest = reader.rest();
        let ghost done = contents(out@);
        let len: u32 = match multi_packet::read(&mut reader) {
            Ok(len) => len,
            Err(e) => {
                return Err(e);
            },
        };
        if (len as usize) < OP_CODE_SIZE || len as usize > reader.remaining() {
            let mut message = String::from_str("invalid multi-packet sub-packet length ");
            append_decimal(&mut message, len);
            return Err(Error::OutOfRange(message));
        }
        let ghost at = multi_packet::decoded(rest).1;
        let packet = reader.read_bytes(len as usize)?;
        out.push(packet);
        proof {
            assert(packet@ =~= rest.subrange(at, at + len));
            assert(reader.rest() =~= rest.skip(at + len));
            assert(contents(out@) =~= done.push(packet@));
            match unpacked(reader.rest()) {
                Ok(more) => {
                    assert(done + (seq![packet@] + more) =~= contents(out@) + more);
                },
                Err(_) => {},
            }
        }
        assert(reader.left() == 0 ==> contents(out@) + Seq::<Seq<u8>>::empty() =~= contents(out@));
    }
    Ok(out)
}

/// The low 32 bits of a length.
pub open spec fn length_field(n: nat) -> u32 {
    (n % 0x1_0000_0000) as u32
}

fn length_of(packet: &[u8]) -> (len: u32)
    ensures
        len == length_field(packet@.len()),
{
    let len: u64 = packet.len() as u64;
    (len % 0x1_0000_0000) as u32
}

/// The payload that `packets` are packed into.
pub open spec fn packed(packets: Seq<Seq<u8>>) -> Seq<u8>
    decreases packets.len(),
{
    if packets.len() == 0 {
        Seq::empty()
    } else {
        packed(packets.drop_last()) + multi_packet::encoded(
            length_field(packets.last().len()),
        ) + packets.last()
    }
}

/// The fields that `packets` are written as: the parts of each one's length, then the
/// packet.
pub open spec fn pack_fields(packets: Seq<Seq<u8>>) -> Seq<Seq<u8>>
    decreases packets.len(),
{
    if packets.len() == 0 {
        Seq::empty()
    } else {
        pack_fields(packets.drop_last()) + multi_packet::fields(
            length_field(packets.last().len()),
        ) + seq![packets.last()]
    }
}

/// The fields that packets are written as make up the payload that they are packed into.
pub proof fn lemma_pack_fields(packets: Seq<Seq<u8>>)
    ensures
        concat(pack_fields(packets)) == packed(packets),
    decreases packets.len(),
{
    if packets.len() > 0 {
        let last = packets.last();
        let before = pack_fields(packets.drop_last());
        let length = multi_packet::fields(length_field(last.len()));
        lemma_pack_fields(packets.drop_last());
        lemma_concat_append(before + length, seq![last]);
        lemma_concat_append(before, length);
        reveal_with_fuel(concat_from, 2);
        assert(concat(seq![last]) =~= last);
    }
}

proof fn lemma_packed_append(a: Seq<Seq<u8>>, b: Seq<Seq<u8>>)
    ensures
        packed(a + b) == packed(a) + packed(b),
    decreases b.len(),
{
    if b.len() > 0 {
        lemma_packed_append(a, b.drop_last());
        assert((a + b).drop_last() =~= a + b.drop_last());
        assert(packed(a + b) =~= packed(a) + packed(b));
    } else {
        assert(a + b =~= a);
        assert(packed(a + b) =~= packed(a) + packed(b));
    }
}

/// A payload begins with the length and the bytes of the first packet.
pub(crate) proof fn lemma_packed_first(packets: Seq<Seq<u8>>)
    requires
        packets.len() > 0,
    ensures
        packed(packets) == multi_packet::encoded(length_field(packets[0].len())) + packets[0]
            + packed(packets.drop_first()),
{
    let first = seq![packets[0]];
    lemma_packed_append(first, packets.drop_first());
    assert(first + packets.drop_first() =~= packets);
    assert(first.drop_last() =~= Seq::<Seq<u8>>::empty());
    assert(packed(first.drop_last()) =~= Seq::<u8>::empty());
    assert(packed(first) =~= multi_packet::encoded(length_field(packets[0].len()))
        + packets[0]);
}

/// Returns the number of bytes required to pack the given sub-packets into a MultiPacket
/// payload (excluding the MultiPacket's own OP code).
pub fn packed_size(sub_packets: &[&[u8]]) -> (n: usize)
    requires
        packed(contents(sub_packets@)).len() <= usize::MAX,
    ensures
        n == packed(contents(sub_packets@)).len(),
{
    let ghost all = contents(sub_packets@);
    let mut total: usize = 0;
    let mut i: usize = 0;
    while i < sub_packets.len()
        invariant
            i <= sub_packets@.len(),
            all == contents(sub_packets@),
            packed(all).len() <= usize::MAX,
            total == packed(all.take(i as int)).len(),
        decreases sub_packets@.len() - i,
    {
        let packet = sub_packets[i];
        let size: usize = multi_packet::encoded_size(length_of(packet));
        proof {
            let next = all.take(i + 1);
            assert(next.drop_last() =~= all.take(i as int));
            assert(next.last() == packet@);
            lemma_packed_append(next, all.skip(i + 1));
            assert(next + all.skip(i + 1) =~= all);
        }
        total = total + size + packet.len();
        i = i + 1;
    }
    assert(all.take(i as int) =~= all);
    total
}

proof fn lemma_pack_fields_append(a: Seq<Seq<u8>>, b: Seq<Seq<u8>>)
    ensures
        pack_fields(a + b) == pack_fields(a) + pack_fields(b),
    decreases b.len(),
{
    if b.len() > 0 {
        lemma_pack_fields_append(a, b.drop_last());
        assert((a + b).drop_last() =~= a + b.drop_last());
    } else {
        assert(a + b =~= a);
    }
    assert(pack_fields(a + b) =~= pack_fields(a) + pack_fields(b));
}

/// How far packing gets: what writing the packets ahead of number `i` has led to, the
/// length of that packet and then the packet itself are written next, and the first of
/// these that does not fit ends it all.
proof fn lemma_pack_step(start: Seq<u8>, packets: Seq<Seq<u8>>, i: int)
    requires
        0 <= i < packets.len(),
        write_fields(start, 0, pack_fields(packets.take(i))).1 is Ok,
    ensures
        ({
            let n = start.len() as int;
            let done = pack_fields(packets.take(i));
            let length = multi_packet::fields(length_field(packets[i].len()));
            let next = pack_fields(packets.take(i + 1));
            let a = write_fields(start, 0, done);
            let a_end = fields_end(n, 0, done, 0);
            let b = write_fields_from(a.0, a_end, length, 0);
            let b_end = fields_end(n, a_end, length, 0);
            let c = write_fields_from(b.0, b_end, seq![packets[i]], 0);
            &&& b.1 is Err ==> write_fields(start, 0, pack_fields(packets)) == b
            &&& b.1 is Ok ==> {
                &&& write_fields(start, 0, next) == c
                &&& fields_end(n, 0, next, 0) == fields_end(n, b_end, seq![packets[i]], 0)
                &&& c.1 is Err ==> write_fields(start, 0, pack_fields(packets)) == c
            }
        }),
{
    let done = pack_fields(packets.take(i));
    let length = multi_packet::fields(length_field(packets[i].len()));
    let next = pack_fields(packets.take(i + 1));
    let later = pack_fields(packets.skip(i + 1));
    let packet = seq![packets[i]];
    assert(packets.take(i + 1).drop_last() =~= packets.take(i));
    assert(packets.take(i + 1).last() == packets[i]);
    assert(next == done + length + packet);
    lemma_pack_fields_append(packets.take(i + 1), packets.skip(i + 1));
    assert(packets.take(i + 1) + packets.skip(i + 1) =~= packets);
    lemma_write_fields_append(start, 0, done, length, 0);
    lemma_write_fields_append(start, 0, done + length, packet, 0);
    lemma_write_fields_append(start, 0, done + length, packet + later, 0);
    lemma_write_fields_append(start, 0, next, later, 0);
    assert(done + length + (packet + later) =~= pack_fields(packets));
}

/// Packs `sub_packets` into `buffer` as a MultiPacket payload (excluding the MultiPacket's
/// own OP code), returning the number of bytes written.
pub fn pack(sub_packets: &[&[u8]], buffer: &mut [u8]) -> (r: Result<usize, Error>)
    ensures
        (final(buffer)@, r) == write_fields(
            old(buffer)@,
            0,
            pack_fields(contents(sub_packets@)),
        ),
{
    let ghost all = contents(sub_packets@);
    let ghost start = buffer@;
    let mut writer = BinaryWriter::new(buffer);
    let mut i: usize = 0;
    assert(all.take(0) =~= Seq::<Seq<u8>>::empty());
    while i < sub_packets.len()
        invariant
            i <= sub_packets@.len(),
            all == contents(sub_packets@),
            writer.wf(),
            writer.data@.len() == start.len(),
            start == old(buffer)@,
            (*final(writer.data))@ == after_borrow(buffer)@,
            write_fields(start, 0, pack_fields(all.take(i as int))) == (
                writer.data@,
                Ok::<usize, Error>(writer.offset),
            ),
            fields_end(start.len() as int, 0, pack_fields(all.take(i as int)), 0)
                == writer.offset,
        decreases sub_packets@.len() - i,
    {
        let packet = sub_packets[i];
        let len: u32 = length_of(packet);
        proof {
            lemma_pack_step(start, all, i as int);
            reveal_with_fuel(write_fields_from, 2);
            reveal_with_fuel(fields_end, 2);
        }
        multi_packet::write(&mut writer, len)?;
        writer.write_bytes(packet)?;
        i = i + 1;
    }
    assert(all.take(i as int) =~= all);
    Ok(writer.offset())
}

/// A buffer with as many bytes as the packed packets take up is enough: packing succeeds,
/// writes the payload at the start of the buffer and returns its length.
pub proof fn law_packed_size_suffices(packets: Seq<Seq<u8>>, buffer: Seq<u8>)
    requires
        packed(packets).len() <= buffer.len(),
    ensures
        write_fields(buffer, 0, pack_fields(packets)) == (
            splice(buffer, 0, packed(packets)),
            Ok::<usize, Error>(packed(packets).len() as usize),
        ),
{
    lemma_pack_fields(packets);
    lemma_write_fields_fit(buffer, 0, pack_fields(packets), 0);
}

/// Packets that are packed and unpacked come out as they went in, if each is long enough
/// for an OP code and short enough for its length to be written, and if one of 255 bytes
/// begins, as every packet does, with a zero byte.
pub proof fn law_round_trip(packets: Seq<Seq<u8>>)
    requires
        forall|i: int|
            0 <= i < packets.len() ==> {
                &&& OP_CODE_SIZE <= (#[trigger] packets[i]).len() <= u32::MAX
                &&& packets[i].len() == 0xFF ==> packets[i][0] == 0
            },
    ensures
        unpacked(packed(packets)) == Ok::<_, ErrorView>(packets),
    decreases packets.len(),
{
    if packets.len() > 0 {
        let first = packets[0];
        let others = packets.drop_first();
        let len = length_field(first.len());
        let head = multi_packet::encoded(len);
        assert forall|i: int| 0 <= i < others.len() implies {
            &&& OP_CODE_SIZE <= (#[trigger] others[i]).len() <= u32::MAX
            &&& others[i].len() == 0xFF ==> others[i][0] == 0
        } by {
            assert(others[i] == packets[i + 1]);
        }
        law_round_trip(others);
        lemma_packed_first(packets);
        let all = packed(packets);
        assert(all =~= head + (first + packed(others)));
        multi_packet::law_round_trip(len, first + packed(others));
        assert(all.subrange(head.len() as int, head.len() + len) =~= first);
        assert(all.skip(head.len() + len) =~= packed(others));
        assert(seq![first] + others =~= packets);
    } else {
        assert(packets =~= Seq::empty());
    }
}

/// A payload is refused, as a whole, for a packet that is too short for an OP code or longer
/// than what is left of the payload.
pub proof fn law_malformed(length: u32, rest: Seq<u8>)
    requires
        length == 0xFF ==> rest.len() > 0 && rest[0] == 0,
        length < 2 || length > rest.len(),
    ensures
        unpacked(multi_packet::encoded(length) + rest) is Err,
{
    multi_packet::law_round_trip(length, rest);
    multi_packet::law_layout(length);
}

/// Packets are packed in order, each behind its length, with nothing around them.
pub proof fn law_packed_in_order(packets: Seq<Seq<u8>>)
    ensures
        packed(packets) == Seq::new(
            packets.len(),
            |i: int|
                multi_packet::encoded((packets[i].len() % 0x1_0000_0000) as u32) + packets[i],
        ).flatten(),
    decreases packets.len(),
{
    let parts = Seq::new(
        packets.len(),
        |i: int| multi_packet::encoded((packets[i].len() % 0x1_0000_0000) as u32) + packets[i],
    );
    if packets.len() == 0 {
        assert(parts =~= Seq::empty());
    } else {
        let others = packets.drop_first();
        lemma_packed_first(packets);
        law_packed_in_order(others);
        assert(parts.drop_first() =~= Seq::new(
            others.len(),
            |i: int| multi_packet::encoded((others[i].len() % 0x1_0000_0000) as u32) + others[i],
        ));
        assert(packed(packets) =~= parts[0] + packed(others));
    }
}

/// The number that decimal digits stand for.
pub open spec fn value_of(digits: Seq<char>) -> int
    decreases digits.len(),
{
    if digits.len() == 0 {
        0
    } else {
        value_of(digits.drop_last()) * 10 + (digits.last() as int - '0' as int)
    }
}

/// The digits that a number is written with stand for that number, and none of them is too
/// many.
pub proof fn law_decimal(n: nat)
    ensures
        value_of(decimal(n)) == n,
        decimal(n).len() > 0,
        forall|i: int| 0 <= i < decimal(n).len() ==> '0' <= #[trigger] decimal(n)[i] <= '9',
        n > 0 ==> decimal(n)[0] != '0',
        n == 0 ==> decimal(n) == seq!['0'],
    decreases n,
{
    if n < 10 {
        assert(decimal(n).drop_last() =~= Seq::empty());
        reveal_with_fuel(value_of, 2);
    } else {
        law_decimal(n / 10);
        assert(decimal(n).drop_last() =~= decimal(n / 10));
    }
}

} // verus!
