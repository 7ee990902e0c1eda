//! The mathematical meaning of bytes on the wire: big-endian numbers, and fields that
//! are read from or written to a buffer one after the other.

use vstd::prelude::*;

use crate::error::Error;

verus! {

/// The number of values that `n` bytes can hold.
pub open spec fn pow256(n: nat) -> nat
    decreases n,
{
    if n == 0 {
        1
    } else {
        256 * pow256((n - 1) as nat)
    }
}

/// The low `n` bytes of `value`, most significant byte first.
pub open spec fn be_bytes(value: nat, n: nat) -> Seq<u8>
    decreases n,
{
    if n == 0 {
        Seq::empty()
    } else {
        be_bytes(value / 256, (n - 1) as nat).push((value % 256) as u8)
    }
}

/// The number that `bytes` holds, most significant byte first.
pub open spec fn be_value(bytes: Seq<u8>) -> nat
    decreases bytes.len(),
{
    if bytes.len() == 0 {
        0
    } else {
        be_value(bytes.drop_last()) * 256 + bytes.last() as nat
    }
}

/// The number in the `n` bytes of `buffer` that begin at `pos`.
pub open spec fn be_at(buffer: Seq<u8>, pos: int, n: int) -> nat {
    be_value(buffer.subrange(pos, pos + n))
}

pub proof fn lemma_pow256_values()
    ensures
        pow256(1) == 0x100,
        pow256(2) == 0x1_0000,
        pow256(4) == 0x1_0000_0000,
        pow256(8) == 0x1_0000_0000_0000_0000,
{
    reveal_with_fuel(pow256, 9);
}

pub proof fn lemma_pow256_le(a: nat, b: nat)
    requires
        a <= b,
    ensures
        pow256(a) <= pow256(b),
    decreases b - a,
{
    if a < b {
        lemma_pow256_le(a, (b - 1) as nat);
        assert(pow256(b) == 256 * pow256((b - 1) as nat));
    }
}

pub proof fn lemma_be_bytes_len(value: nat, n: nat)
    ensures
        be_bytes(value, n).len() == n,
    decreases n,
{
    if n > 0 {
        lemma_be_bytes_len(value / 256, (n - 1) as nat);
    }
}

pub proof fn lemma_be_value_bound(bytes: Seq<u8>)
    ensures
        be_value(bytes) < pow256(bytes.len()),
    decreases bytes.len(),
{
    if bytes.len() > 0 {
        lemma_be_value_bound(bytes.drop_last());
    }
}

/// The low `n` bytes of a number that `n` bytes can hold give the number back.
pub proof fn lemma_be_value_of_bytes(value: nat, n: nat)
    requires
        value < pow256(n),
    ensures
        be_value(be_bytes(value, n)) == value,
    decreases n,
{
    if n > 0 {
        lemma_be_value_of_bytes(value / 256, (n - 1) as nat);
        let bytes = be_bytes(value, n);
        assert(bytes.drop_last() =~= be_bytes(value / 256, (n - 1) as nat));
    }
}

pub proof fn lemma_be_two(value: nat)
    ensures
        be_bytes(value, 2) == seq![((value / 256) % 256) as u8, (value % 256) as u8],
        be_bytes(value, 2).len() == 2,
{
    reveal_with_fuel(be_bytes, 3);
    assert(be_bytes(value, 2) =~= seq![((value / 256) % 256) as u8, (value % 256) as u8]);
}

pub proof fn lemma_be_value_two(a: u8, b: u8)
    ensures
        be_value(seq![a, b]) == a * 256 + b,
{
    reveal_with_fuel(be_value, 3);
    let s = seq![a, b];
    assert(s.drop_last() =~= seq![a]);
    assert(s.drop_last().drop_last() =~= Seq::<u8>::empty());
}

/// Every byte string is its own prefix followed by the rest, and its number splits
/// accordingly.
pub proof fn lemma_be_value_push(bytes: Seq<u8>, b: u8)
    ensures
        be_value(bytes.push(b)) == be_value(bytes) * 256 + b,
{
    assert(bytes.push(b).drop_last() =~= bytes);
}

/// The error for a field of `needed` bytes where only `available` are left.
pub open spec fn too_short(needed: int, available: int) -> Error {
    Error::BufferTooShort { needed: needed as usize, available: available as usize }
}

/// The error of the first of the fields of the given widths, laid out one after the
/// other from `pos`, that does not fit into a buffer of `len` bytes; none if all fit.
pub open spec fn first_short(len: int, pos: int, widths: Seq<int>) -> Option<Error> {
    first_short_from(len, pos, widths, 0)
}

/// [`first_short`], of the fields from number `i` on.
pub open spec fn first_short_from(len: int, pos: int, widths: Seq<int>, i: int) -> Option<Error>
    decreases widths.len() - i,
{
    if i >= widths.len() {
        None
    } else if len - pos < widths[i] {
        Some(too_short(widths[i], len - pos))
    } else {
        first_short_from(len, pos + widths[i], widths, i + 1)
    }
}

/// `buffer` with `bytes` written over the part that begins at `pos`.
pub open spec fn splice(buffer: Seq<u8>, pos: int, bytes: Seq<u8>) -> Seq<u8> {
    buffer.subrange(0, pos) + bytes + buffer.subrange(pos + bytes.len(), buffer.len() as int)
}

/// What writing `fields` into `buffer`, one after the other from `pos`, leaves in the
/// buffer, and what it returns: the position behind the last field, or the error of the
/// first field that does not fit. Fields ahead of that one stay written.
pub open spec fn write_fields(buffer: Seq<u8>, pos: int, fields: Seq<Seq<u8>>) -> (
    Seq<u8>,
    Result<usize, Error>,
) {
    write_fields_from(buffer, pos, fields, 0)
}

/// [`write_fields`], of the fields from number `i` on.
pub open spec fn write_fields_from(
    buffer: Seq<u8>,
    pos: int,
    fields: Seq<Seq<u8>>,
    i: int,
) -> (Seq<u8>, Result<usize, Error>)
    decreases fields.len() - i,
{
    if i >= fields.len() {
        (buffer, Ok(pos as usize))
    } else if buffer.len() - pos < fields[i].len() {
        (buffer, Err(too_short(fields[i].len() as int, buffer.len() - pos)))
    } else {
        write_fields_from(
            splice(buffer, pos, fields[i]),
            pos + fields[i].len(),
            fields,
            i + 1,
        )
    }
}

/// The position behind the last of the fields, from number `i` on, that
/// [`write_fields_from`] writes.
pub open spec fn fields_end(len: int, pos: int, fields: Seq<Seq<u8>>, i: int) -> int
    decreases fields.len() - i,
{
    if i >= fields.len() || len - pos < fields[i].len() {
        pos
    } else {
        fields_end(len, pos + fields[i].len(), fields, i + 1)
    }
}

/// The bytes of `fields`, one after the other.
pub open spec fn concat(fields: Seq<Seq<u8>>) -> Seq<u8> {
    concat_from(fields, 0)
}

/// [`concat`], of the fields from number `i` on.
pub open spec fn concat_from(fields: Seq<Seq<u8>>, i: int) -> Seq<u8>
    decreases fields.len() - i,
{
    if i >= fields.len() {
        Seq::empty()
    } else {
        fields[i] + concat_from(fields, i + 1)
    }
}

/// Where all fields fit, writing them one after the other writes their concatenation
/// and returns the position behind it.
pub proof fn lemma_write_fields_fit(buffer: Seq<u8>, pos: int, fields: Seq<Seq<u8>>, i: int)
    requires
        0 <= pos,
        0 <= i,
        pos + concat_from(fields, i).len() <= buffer.len(),
    ensures
        write_fields_from(buffer, pos, fields, i) == (
            splice(buffer, pos, concat_from(fields, i)),
            Ok::<usize, Error>((pos + concat_from(fields, i).len()) as usize),
        ),
        fields_end(buffer.len() as int, pos, fields, i) == pos + concat_from(fields, i).len(),
    decreases fields.len() - i,
{
    if i >= fields.len() {
        assert(splice(buffer, pos, concat_from(fields, i)) =~= buffer);
    } else {
        let rest = concat_from(fields, i + 1);
        let next = splice(buffer, pos, fields[i]);
        lemma_write_fields_fit(next, pos + fields[i].len(), fields, i + 1);
        assert(splice(next, pos + fields[i].len(), rest) =~= splice(
            buffer,
            pos,
            fields[i] + rest,
        ));
    }
}

/// Fields that make up as many bytes as the buffer has fill it.
pub proof fn lemma_write_fields_exact(buffer: Seq<u8>, fields: Seq<Seq<u8>>)
    requires
        concat(fields).len() == buffer.len(),
    ensures
        write_fields(buffer, 0, fields) == (
            concat(fields),
            Ok::<usize, Error>(buffer.len() as usize),
        ),
{
    lemma_write_fields_fit(buffer, 0, fields, 0);
    assert(splice(buffer, 0, concat(fields)) =~= concat(fields));
}

proof fn lemma_write_fields_shift(
    buffer: Seq<u8>,
    pos: int,
    a: Seq<Seq<u8>>,
    b: Seq<Seq<u8>>,
    k: int,
)
    requires
        0 <= k,
        0 <= pos,
    ensures
        fields_end(buffer.len() as int, pos, a + b, a.len() + k) == fields_end(
            buffer.len() as int,
            pos,
            b,
            k,
        ),
        write_fields_from(buffer, pos, a + b, a.len() + k) == write_fields_from(
            buffer,
            pos,
            b,
            k,
        ),
    decreases b.len() - k,
{
    if k < b.len() && buffer.len() - pos >= b[k].len() {
        let next = splice(buffer, pos, b[k]);
        assert(next.len() == buffer.len());
        lemma_write_fields_shift(next, pos + b[k].len(), a, b, k + 1);
    }
}

/// Writing one list of fields and then another is writing the two as one list.
pub proof fn lemma_write_fields_append(
    buffer: Seq<u8>,
    pos: int,
    a: Seq<Seq<u8>>,
    b: Seq<Seq<u8>>,
    i: int,
)
    requires
        0 <= pos,
        0 <= i <= a.len(),
    ensures
        match write_fields_from(buffer, pos, a, i) {
            (written, Ok(_)) => {
                let end = fields_end(buffer.len() as int, pos, a, i);
                &&& write_fields_from(buffer, pos, a + b, i) == write_fields_from(
                    written,
                    end,
                    b,
                    0,
                )
                &&& fields_end(buffer.len() as int, pos, a + b, i) == fields_end(
                    buffer.len() as int,
                    end,
                    b,
                    0,
                )
            },
            (written, Err(e)) => write_fields_from(buffer, pos, a + b, i) == (
                written,
                Err::<usize, Error>(e),
            ),
        },
    decreases a.len() - i,
{
    if i == a.len() {
        lemma_write_fields_shift(buffer, pos, a, b, 0);
    } else if buffer.len() - pos >= a[i].len() {
        let next = splice(buffer, pos, a[i]);
        lemma_write_fields_append(next, pos + a[i].len(), a, b, i + 1);
        assert((a + b)[i] == a[i]);
        assert(next.len() == buffer.len());
    }
}

/// The bytes of two lists of fields as one are those of the one and those of the other.
pub proof fn lemma_concat_append(a: Seq<Seq<u8>>, b: Seq<Seq<u8>>)
    ensures
        concat(a + b) == concat(a) + concat(b),
{
    lemma_concat_append_from(a, b, 0);
}

proof fn lemma_concat_append_from(a: Seq<Seq<u8>>, b: Seq<Seq<u8>>, i: int)
    requires
        0 <= i <= a.len(),
    ensures
        concat_from(a + b, i) == concat_from(a, i) + concat(b),
    decreases a.len() - i,
{
    if i < a.len() {
        lemma_concat_append_from(a, b, i + 1);
        assert((a + b)[i] == a[i]);
    } else {
        lemma_concat_shift(a, b, 0);
    }
    assert(concat_from(a + b, i) =~= concat_from(a, i) + concat(b));
}

proof fn lemma_concat_shift(a: Seq<Seq<u8>>, b: Seq<Seq<u8>>, k: int)
    requires
        0 <= k,
    ensures
        concat_from(a + b, a.len() + k) == concat_from(b, k),
    decreases b.len() - k,
{
    if k < b.len() {
        lemma_concat_shift(a, b, k + 1);
    }
}

proof fn lemma_concat_flat(fields: Seq<Seq<u8>>, i: int)
    requires
        0 <= i <= fields.len(),
    ensures
        concat_from(fields, i) == fields.skip(i).flatten(),
    decreases fields.len() - i,
{
    if i < fields.len() {
        lemma_concat_flat(fields, i + 1);
        assert(fields.skip(i).drop_first() =~= fields.skip(i + 1));
    } else {
        assert(fields.skip(i) =~= Seq::empty());
    }
}

/// Fields that fit into a buffer are written at its start, one after the other and with
/// nothing between them, and what stands behind them stays; the position behind them is
/// returned.
pub proof fn law_fields_written(buffer: Seq<u8>, fields: Seq<Seq<u8>>)
    requires
        fields.flatten().len() <= buffer.len(),
    ensures
        write_fields(buffer, 0, fields) == (
            fields.flatten() + buffer.skip(fields.flatten().len() as int),
            Ok::<usize, Error>(fields.flatten().len() as usize),
        ),
        concat(fields) == fields.flatten(),
{
    lemma_concat_flat(fields, 0);
    assert(fields.skip(0) =~= fields);
    lemma_write_fields_fit(buffer, 0, fields, 0);
    assert(splice(buffer, 0, concat(fields)) =~= fields.flatten() + buffer.skip(
        fields.flatten().len() as int,
    ));
}

proof fn lemma_write_until(buffer: Seq<u8>, pos: int, fields: Seq<Seq<u8>>, i: int, k: int)
    requires
        0 <= i <= k < fields.len(),
        0 <= pos,
        pos + fields.subrange(i, k).flatten().len() <= buffer.len(),
        pos + fields.subrange(i, k).flatten().len() + fields[k].len() > buffer.len(),
    ensures
        write_fields_from(buffer, pos, fields, i) == (
            splice(buffer, pos, fields.subrange(i, k).flatten()),
            Err::<usize, Error>(
                too_short(
                    fields[k].len() as int,
                    buffer.len() - pos - fields.subrange(i, k).flatten().len(),
                ),
            ),
        ),
    decreases k - i,
{
    let mid = fields.subrange(i, k);
    if i == k {
        assert(mid =~= Seq::empty());
        assert(splice(buffer, pos, mid.flatten()) =~= buffer);
    } else {
        assert(mid.drop_first() =~= fields.subrange(i + 1, k));
        let rest = fields.subrange(i + 1, k).flatten();
        assert(mid.flatten() == fields[i] + rest);
        let next = splice(buffer, pos, fields[i]);
        assert(next.len() == buffer.len());
        lemma_write_until(next, pos + fields[i].len(), fields, i + 1, k);
        assert(splice(next, pos + fields[i].len(), rest) =~= splice(
            buffer,
            pos,
            fields[i] + rest,
        ));
    }
}

/// Where a field does not fit, those before it are written all the same, what stands behind
/// them stays, and the error says how many bytes the field needs and how many there are.
pub proof fn law_fields_cut_short(buffer: Seq<u8>, fields: Seq<Seq<u8>>, k: int)
    requires
        0 <= k < fields.len(),
        fields.take(k).flatten().len() <= buffer.len() < fields.take(k).flatten().len()
            + fields[k].len(),
    ensures
        ({
            let front = fields.take(k).flatten();
            write_fields(buffer, 0, fields) == (
                front + buffer.skip(front.len() as int),
                Err::<usize, Error>(
                    Error::BufferTooShort {
                        needed: fields[k].len() as usize,
                        available: (buffer.len() - front.len()) as usize,
                    },
                ),
            )
        }),
{
    assert(fields.subrange(0, k) =~= fields.take(k));
    lemma_write_until(buffer, 0, fields, 0, k);
    let front = fields.take(k).flatten();
    assert(splice(buffer, 0, front) =~= front + buffer.skip(front.len() as int));
}

/// The sum of the first `k` of some widths.
pub open spec fn width_of(widths: Seq<int>, k: int) -> int
    decreases k,
{
    if k <= 0 {
        0
    } else {
        width_of(widths, k - 1) + widths[k - 1]
    }
}

proof fn lemma_short_from(len: int, widths: Seq<int>, i: int, k: int)
    requires
        0 <= i <= k <= widths.len(),
        forall|j: int| 0 <= j < widths.len() ==> 0 <= #[trigger] widths[j],
        width_of(widths, k) <= len,
        k < widths.len() ==> len < width_of(widths, k) + widths[k],
    ensures
        first_short_from(len, width_of(widths, i), widths, i) == (if k < widths.len() {
            Some(too_short(widths[k], len - width_of(widths, k)))
        } else {
            None
        }),
    decreases k - i,
{
    if i < k {
        lemma_widths_grow(widths, i + 1, k);
        assert(width_of(widths, i + 1) == width_of(widths, i) + widths[i]);
        lemma_short_from(len, widths, i + 1, k);
    }
}

proof fn lemma_widths_grow(widths: Seq<int>, i: int, k: int)
    requires
        0 <= i <= k <= widths.len(),
        forall|j: int| 0 <= j < widths.len() ==> 0 <= #[trigger] widths[j],
    ensures
        width_of(widths, i) <= width_of(widths, k),
    decreases k - i,
{
    if i < k {
        lemma_widths_grow(widths, i, k - 1);
        assert(width_of(widths, k) == width_of(widths, k - 1) + widths[k - 1]);
    }
}

/// Fields are there if there are enough bytes for all of them; otherwise the error is that of
/// the first field that is cut short, and says how many bytes that needs and how many there
/// are.
pub proof fn law_fields_missing(len: int, widths: Seq<int>, k: int)
    requires
        0 <= k <= widths.len(),
        forall|j: int| 0 <= j < widths.len() ==> 0 <= #[trigger] widths[j],
        width_of(widths, k) <= len,
        k < widths.len() ==> len < width_of(widths, k) + widths[k],
    ensures
        first_short(len, 0, widths) == (if k < widths.len() {
            Some(
                Error::BufferTooShort {
                    needed: widths[k] as usize,
                    available: (len - width_of(widths, k)) as usize,
                },
            )
        } else {
            None
        }),
{
    lemma_short_from(len, widths, 0, k);
}

} // verus!
