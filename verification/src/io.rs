//! Big-endian binary reading and writing helpers.
//!
//! All SOE protocol packets use big-endian byte order. These helpers provide
//! cursor-style reading and writing over byte slices, tracking an offset and returning
//! [`Error::BufferTooShort`] when there is insufficient space.

use vstd::prelude::*;
use vstd::utf8::{
    char_is_scalar, char_u32_cast, decode_utf8, encode_scalar, encode_utf8, last_continuation_byte, leading_byte_width_1,
    leading_byte_width_2, leading_byte_width_3, leading_byte_width_4,
    second_last_continuation_byte, third_last_continuation_byte, valid_utf8,
};

use crate::error::Error;
use crate::wire::{
    be_at, be_bytes, be_value, fields_end, lemma_be_value_bound,
    lemma_be_value_push, lemma_pow256_le, lemma_pow256_values, splice, too_short, write_fields,
    write_fields_from,
};

verus! {

/// A cursor-style reader over a big-endian byte slice.
#[derive(Debug)]
pub struct BinaryReader<'a> {
    data: &'a [u8],
    offset: usize,
}

impl<'a> BinaryReader<'a> {
    #[verifier::type_invariant]
    spec fn in_bounds(self) -> bool {
        self.offset <= self.data@.len()
    }

    /// The bytes that the reader was made over.
    pub closed spec fn bytes(self) -> Seq<u8> {
        self.data@
    }

    /// The number of bytes read so far.
    pub closed spec fn pos(self) -> int {
        self.offset as int
    }

    /// The number of bytes that remain to be read.
    pub open spec fn left(self) -> int {
        self.bytes().len() - self.pos()
    }

    /// The bytes that remain to be read.
    pub open spec fn rest(self) -> Seq<u8> {
        self.bytes().subrange(self.pos(), self.bytes().len() as int)
    }

    /// That `self` is `before`, moved forward by `n` bytes.
    pub open spec fn moved(self, before: Self, n: int) -> bool {
        &&& self.bytes() == before.bytes()
        &&& self.pos() == before.pos() + n
    }

    /// Creates a new reader over the given slice.
    pub fn new(data: &'a [u8]) -> (r: Self)
        ensures
            r.bytes() == data@,
            r.pos() == 0,
    {
        Self { data, offset: 0 }
    }

    /// Returns the current read offset.
    pub fn offset(&self) -> (n: usize)
        ensures
            n == self.pos(),
            n <= self.bytes().len(),
    {
        proof {
            use_type_invariant(&*self);
        }
        self.offset
    }

    /// Returns the number of bytes remaining to be read.
    pub fn remaining(&self) -> (n: usize)
        ensures
            n == self.left(),
            self.bytes().len() <= usize::MAX,
    {
        proof {
            use_type_invariant(&*self);
        }
        self.data.len() - self.offset
    }

    /// Returns the underlying slice.
    pub fn data(&self) -> (data: &'a [u8])
        ensures
            data@ == self.bytes(),
    {
        self.data
    }

    fn ensure(&self, needed: usize) -> (r: Result<(), Error>)
        ensures
            self.left() >= needed ==> r == Ok::<(), Error>(()),
            self.left() < needed ==> r == Err::<(), Error>(
                too_short(needed as int, self.left()),
            ),
            self.left() >= 0,
            self.bytes().len() <= usize::MAX,
    {
        if self.remaining() < needed {
            return Err(Error::BufferTooShort { needed, available: self.remaining() });
        }
        Ok(())
    }

    /// Returns the byte `ahead` bytes behind the current offset, if there is one,
    /// without advancing.
    pub fn peek(&self, ahead: usize) -> (b: Option<u8>)
        ensures
            b == (if ahead < self.left() {
                Some(self.bytes()[self.pos() + ahead])
            } else {
                None
            }),
            0 <= self.pos() <= self.bytes().len(),
    {
        proof {
            use_type_invariant(&*self);
        }
        if ahead < self.remaining() {
            Some(self.data[self.offset + ahead])
        } else {
            None
        }
    }

    /// Advances past `len` bytes.
    pub fn skip(&mut self, len: usize) -> (r: Result<(), Error>)
        ensures
            old(self).left() >= len ==> {
                &&& r == Ok::<(), Error>(())
                &&& final(self).moved(*old(self), len as int)
            },
            old(self).left() < len ==> {
                &&& r == Err::<(), Error>(too_short(len as int, old(self).left()))
                &&& *final(self) == *old(self)
            },
    {
        proof {
            use_type_invariant(&*self);
        }
        self.ensure(len)?;
        self.offset = self.offset + len;
        Ok(())
    }

    /// Reads a single byte.
    pub fn read_u8(&mut self) -> (r: Result<u8, Error>)
        ensures
            old(self).left() >= 1 ==> {
                &&& r == Ok::<u8, Error>(old(self).bytes()[old(self).pos()])
                &&& final(self).moved(*old(self), 1)
            },
            old(self).left() < 1 ==> {
                &&& r == Err::<u8, Error>(too_short(1, old(self).left()))
                &&& *final(self) == *old(self)
            },
    {
        proof {
            use_type_invariant(&*self);
        }
        self.ensure(1)?;
        let v: u8 = self.data[self.offset];
        self.offset = self.offset + 1;
        Ok(v)
    }

    /// Reads a boolean (a single non-zero byte is `true`).
    pub fn read_bool(&mut self) -> (r: Result<bool, Error>)
        ensures
            old(self).left() >= 1 ==> {
                &&& r == Ok::<bool, Error>(old(self).bytes()[old(self).pos()] != 0)
                &&& final(self).moved(*old(self), 1)
            },
            old(self).left() < 1 ==> {
                &&& r == Err::<bool, Error>(too_short(1, old(self).left()))
                &&& *final(self) == *old(self)
            },
    {
        let v: u8 = self.read_u8()?;
        Ok(v != 0)
    }

    /// The number in the `n` bytes ahead, which are known to be there.
    fn take_be(&mut self, n: usize) -> (v: u64)
        requires
            n <= 8,
            old(self).left() >= n,
            old(self).bytes().len() <= usize::MAX,
        ensures
            v == be_at(old(self).bytes(), old(self).pos(), n as int),
            final(self).moved(*old(self), n as int),
    {
        proof {
            use_type_invariant(&*self);
        }
        let start: usize = self.offset;
        let mut v: u64 = 0;
        let mut i: usize = 0;
        let data = self.data;
        while i < n
            invariant
                i <= n <= 8,
                start + n <= data@.len() <= usize::MAX,
                v == be_value(data@.subrange(start as int, start + i)),
            decreases n - i,
        {
            let ghost read = data@.subrange(start as int, start + i);
            proof {
                lemma_be_value_bound(read);
                lemma_pow256_values();
                lemma_pow256_le(i as nat, 7);
                assert(data@.subrange(start as int, start + i + 1) =~= read.push(
                    data@[start + i],
                ));
                lemma_be_value_push(read, data@[start + i]);
            }
            v = v * 256 + data[start + i] as u64;
            i = i + 1;
        }
        self.offset = start + n;
        v
    }

    /// Reads a big-endian `u16`.
    pub fn read_u16(&mut self) -> (r: Result<u16, Error>)
        ensures
            old(self).left() >= 2 ==> {
                &&& r == Ok::<u16, Error>(be_at(old(self).bytes(), old(self).pos(), 2) as u16)
                &&& final(self).moved(*old(self), 2)
            },
            old(self).left() < 2 ==> {
                &&& r == Err::<u16, Error>(too_short(2, old(self).left()))
                &&& *final(self) == *old(self)
            },
    {
        self.ensure(2)?;
        let v: u64 = self.take_be(2);
        Ok(v as u16)
    }

    /// Reads a big-endian `u32`.
    pub fn read_u32(&mut self) -> (r: Result<u32, Error>)
        ensures
            old(self).left() >= 4 ==> {
                &&& r == Ok::<u32, Error>(be_at(old(self).bytes(), old(self).pos(), 4) as u32)
                &&& final(self).moved(*old(self), 4)
            },
            old(self).left() < 4 ==> {
                &&& r == Err::<u32, Error>(too_short(4, old(self).left()))
                &&& *final(self) == *old(self)
            },
    {
        self.ensure(4)?;
        let v: u64 = self.take_be(4);
        Ok(v as u32)
    }

    /// Reads a big-endian `u64`.
    pub fn read_u64(&mut self) -> (r: Result<u64, Error>)
        ensures
            old(self).left() >= 8 ==> {
                &&& r == Ok::<u64, Error>(be_at(old(self).bytes(), old(self).pos(), 8) as u64)
                &&& final(self).moved(*old(self), 8)
            },
            old(self).left() < 8 ==> {
                &&& r == Err::<u64, Error>(too_short(8, old(self).left()))
                &&& *final(self) == *old(self)
            },
    {
        self.ensure(8)?;
        Ok(self.take_be(8))
    }

    /// Reads `len` bytes, returning a borrowed slice.
    pub fn read_bytes(&mut self, len: usize) -> (r: Result<&'a [u8], Error>)
        ensures
            old(self).left() >= len ==> {
                &&& r matches Ok(bytes)
                &&& bytes@ == old(self).bytes().subrange(old(self).pos(), old(self).pos() + len)
                &&& final(self).moved(*old(self), len as int)
            },
            old(self).left() < len ==> {
                &&& r == Err::<&'a [u8], Error>(too_short(len as int, old(self).left()))
                &&& *final(self) == *old(self)
            },
    {
        proof {
            use_type_invariant(&*self);
        }
        self.ensure(len)?;
        let data = self.data;
        let slice = &data[self.offset..self.offset + len];
        self.offset = self.offset + len;
        Ok(slice)
    }

    /// Reads a null-terminated ASCII/UTF-8 string, consuming the terminator. Without a
    /// terminator, everything is read and nothing is returned.
    pub fn read_null_terminated_string(&mut self) -> (r: Result<String, Error>)
        ensures
            match null_at(old(self).bytes(), old(self).pos()) {
                Some(end) => {
                    &&& r matches Ok(s)
                    &&& s@ == text(old(self).bytes().subrange(old(self).pos(), end))
                    &&& final(self).moved(*old(self), end + 1 - old(self).pos())
                },
                None => {
                    &&& r == Err::<String, Error>(too_short(1, 0))
                    &&& final(self).moved(*old(self), old(self).left())
                },
            },
    {
        proof {
            use_type_invariant(&*self);
        }
        let start: usize = self.offset;
        let data = self.data;
        while self.offset < data.len()
            invariant
                start <= self.offset <= data@.len(),
                self.data@ == data@,
                data@ == old(self).bytes(),
                start == old(self).pos(),
                null_at(data@, start as int) == null_at(data@, self.offset as int),
            decreases data@.len() - self.offset,
        {
            if data[self.offset] == 0 {
                let s = string_from_utf8_lossy(&data[start..self.offset]);
                self.offset = self.offset + 1;
                return Ok(s);
            }
            self.offset = self.offset + 1;
        }
        Err(Error::BufferTooShort { needed: 1, available: 0 })
    }

    /// Returns the remaining bytes without advancing.
    pub fn remaining_bytes(&self) -> (rest: &'a [u8])
        ensures
            rest@ == self.rest(),
    {
        proof {
            use_type_invariant(&*self);
        }
        &self.data[self.offset..self.data.len()]
    }
}

impl<'a> Clone for BinaryReader<'a> {
    fn clone(&self) -> (r: Self)
        ensures
            r == *self,
    {
        proof {
            use_type_invariant(&*self);
        }
        Self { data: self.data, offset: self.offset }
    }
}

/// A cursor-style writer over a mutable big-endian byte slice.
#[derive(Debug)]
pub struct BinaryWriter<'a> {
    /// The slice that is written to.
    pub data: &'a mut [u8],
    /// The number of bytes written so far.
    pub offset: usize,
}

impl<'a> BinaryWriter<'a> {
    /// That the offset lies within the slice.
    pub open spec fn wf(self) -> bool {
        self.offset <= self.data@.len()
    }

    /// The number of bytes that can still be written.
    pub open spec fn left(self) -> int {
        self.data@.len() - self.offset
    }

    /// That writing `bytes` through `before` returns `r` and leaves `self`: all of
    /// `bytes` where they fit, nothing where they do not.
    pub open spec fn wrote(self, before: Self, bytes: Seq<u8>, r: Result<(), Error>) -> bool {
        if before.left() >= bytes.len() {
            &&& r == Ok::<(), Error>(())
            &&& self.data@ == splice(before.data@, before.offset as int, bytes)
            &&& self.offset == before.offset + bytes.len()
        } else {
            &&& r == Err::<(), Error>(too_short(bytes.len() as int, before.left()))
            &&& self.data@ == before.data@
            &&& self.offset == before.offset
        }
    }

    /// That writing `fields` through `before`, one after the other, returns `r` and leaves
    /// `self`: the fields ahead of the first that does not fit are written.
    pub open spec fn wrote_fields(
        self,
        before: Self,
        fields: Seq<Seq<u8>>,
        r: Result<(), Error>,
    ) -> bool {
        let all = write_fields(before.data@, before.offset as int, fields);
        &&& self.data@ == all.0
        &&& self.data@.len() == before.data@.len()
        &&& self.offset == fields_end(before.data@.len() as int, before.offset as int, fields, 0)
        &&& match all.1 {
            Ok(_) => r == Ok::<(), Error>(()),
            Err(e) => r == Err::<(), Error>(e),
        }
    }

    /// Creates a new writer over the given mutable slice.
    pub fn new(data: &'a mut [u8]) -> (w: Self)
        ensures
            w.wf(),
            w.data@ == old(data)@,
            w.offset == 0,
            (*final(w.data))@ == final(data)@,
    {
        Self { data, offset: 0 }
    }

    /// Returns the number of bytes written so far.
    pub fn offset(&self) -> (n: usize)
        ensures
            n == self.offset,
    {
        self.offset
    }

    /// Returns the remaining writable capacity.
    pub fn remaining(&self) -> (n: usize)
        requires
            self.wf(),
        ensures
            n == self.left(),
            self.offset + self.left() <= usize::MAX,
    {
        self.data.len() - self.offset
    }

    fn ensure(&self, needed: usize) -> (r: Result<(), Error>)
        requires
            self.wf(),
        ensures
            self.left() >= needed ==> r == Ok::<(), Error>(()),
            self.left() < needed ==> r == Err::<(), Error>(
                too_short(needed as int, self.left()),
            ),
            self.offset + self.left() <= usize::MAX,
    {
        if self.remaining() < needed {
            return Err(Error::BufferTooShort { needed, available: self.remaining() });
        }
        Ok(())
    }

    /// Writes a single byte.
    pub fn write_u8(&mut self, value: u8) -> (r: Result<(), Error>)
        requires
            old(self).wf(),
        ensures
            final(self).wf(),
            final(self).wrote(*old(self), seq![value], r),
            (*final(final(self).data))@ == (*final(old(self).data))@,
    {
        let bytes: [u8; 1] = [value];
        assert(bytes@ =~= seq![value]);
        self.write_bytes(bytes.as_slice())
    }

    /// Writes a boolean as a single byte (`1` or `0`).
    pub fn write_bool(&mut self, value: bool) -> (r: Result<(), Error>)
        requires
            old(self).wf(),
        ensures
            final(self).wf(),
            final(self).wrote(*old(self), bool_bytes(value), r),
            (*final(final(self).data))@ == (*final(old(self).data))@,
    {
        if value {
            self.write_u8(1)
        } else {
            self.write_u8(0)
        }
    }

    /// Writes a big-endian `u16`.
    pub fn write_u16(&mut self, value: u16) -> (r: Result<(), Error>)
        requires
            old(self).wf(),
        ensures
            final(self).wf(),
            final(self).wrote(*old(self), be_bytes(value as nat, 2), r),
            (*final(final(self).data))@ == (*final(old(self).data))@,
    {
        self.write_be(value as u64, 2)
    }

    /// Writes a big-endian `u32`.
    pub fn write_u32(&mut self, value: u32) -> (r: Result<(), Error>)
        requires
            old(self).wf(),
        ensures
            final(self).wf(),
            final(self).wrote(*old(self), be_bytes(value as nat, 4), r),
            (*final(final(self).data))@ == (*final(old(self).data))@,
    {
        self.write_be(value as u64, 4)
    }

    /// Writes a big-endian `u64`.
    pub fn write_u64(&mut self, value: u64) -> (r: Result<(), Error>)
        requires
            old(self).wf(),
        ensures
            final(self).wf(),
            final(self).wrote(*old(self), be_bytes(value as nat, 8), r),
            (*final(final(self).data))@ == (*final(old(self).data))@,
    {
        self.write_be(value, 8)
    }

    /// Writes the low `n` bytes of `value`, most significant byte first.
    fn write_be(&mut self, value: u64, n: usize) -> (r: Result<(), Error>)
        requires
            old(self).wf(),
            n <= 8,
        ensures
            final(self).wf(),
            final(self).wrote(*old(self), be_bytes(value as nat, n as nat), r),
            (*final(final(self).data))@ == (*final(old(self).data))@,
    {
        let mut bytes: [u8; 8] = [0; 8];
        let mut rest: u64 = value;
        let mut k: usize = n;
        while k > 0
            invariant
                k <= n <= 8,
                be_bytes(value as nat, n as nat) =~= be_bytes(rest as nat, k as nat)
                    + bytes@.subrange(k as int, n as int),
            decreases k,
        {
            let ghost later = bytes@.subrange(k as int, n as int);
            k = k - 1;
            bytes[k] = (rest % 256) as u8;
            rest = rest / 256;
            assert(bytes@.subrange(k as int, n as int) =~= seq![bytes@[k as int]] + later);
        }
        self.write_bytes(&bytes.as_slice()[0..n])
    }

    /// Writes a raw byte slice.
    pub fn write_bytes(&mut self, bytes: &[u8]) -> (r: Result<(), Error>)
        requires
            old(self).wf(),
        ensures
            final(self).wf(),
            final(self).wrote(*old(self), bytes@, r),
            (*final(final(self).data))@ == (*final(old(self).data))@,
    {
        self.ensure(bytes.len())?;
        let start: usize = self.offset;
        let mut i: usize = 0;
        while i < bytes.len()
            invariant
                i <= bytes@.len(),
                start + bytes@.len() <= self.data@.len() <= usize::MAX,
                start == old(self).offset,
                self.offset == start,
                self.data@ =~= splice(
                    old(self).data@,
                    start as int,
                    bytes@.subrange(0, i as int),
                ),
                self.data@.len() == old(self).data@.len(),
                (*final(self.data))@ == (*final(old(self).data))@,
            decreases bytes@.len() - i,
        {
            self.data[start + i] = bytes[i];
            i = i + 1;
        }
        assert(bytes@.subrange(0, i as int) =~= bytes@);
        self.offset = start + bytes.len();
        Ok(())
    }

    /// Writes a string followed by a null terminator. Where the string fits but its
    /// terminator does not, the string stays written.
    pub fn write_null_terminated_string(&mut self, value: &str) -> (r: Result<(), Error>)
        requires
            old(self).wf(),
        ensures
            final(self).wf(),
            final(self).wrote_fields(*old(self), seq![encode_utf8(value@), seq![0u8]], r),
            (*final(final(self).data))@ == (*final(old(self).data))@,
    {
        proof {
            reveal_with_fuel(write_fields_from, 3);
            reveal_with_fuel(fields_end, 3);
        }
        self.write_bytes(value.as_bytes())?;
        self.write_u8(0)
    }
}

/// A boolean as a single byte.
pub open spec fn bool_bytes(value: bool) -> Seq<u8> {
    seq![if value { 1u8 } else { 0u8 }]
}

/// The position of the first zero byte at or behind `pos`, if there is one.
pub open spec fn null_at(bytes: Seq<u8>, pos: int) -> Option<int>
    decreases bytes.len() - pos,
{
    if pos < 0 || pos >= bytes.len() {
        None
    } else if bytes[pos] == 0 {
        Some(pos)
    } else {
        null_at(bytes, pos + 1)
    }
}

/// A zero byte behind bytes that are not zero is the first zero byte.
pub(crate) proof fn lemma_null_at(bytes: Seq<u8>, pos: int, end: int)
    requires
        0 <= pos <= end < bytes.len(),
        forall|i: int| pos <= i < end ==> bytes[i] != 0,
        bytes[end] == 0,
    ensures
        null_at(bytes, pos) == Some(end),
    decreases end - pos,
{
    if pos < end {
        lemma_null_at(bytes, pos + 1, end);
    }
}

proof fn lemma_scalar_not_null(c: u32)
    by (bit_vector)
    requires
        c != 0,
    ensures
        c <= 0x7F ==> leading_byte_width_1(c) != 0,
        leading_byte_width_2(c) != 0,
        leading_byte_width_3(c) != 0,
        leading_byte_width_4(c) != 0,
        last_continuation_byte(c) != 0,
        second_last_continuation_byte(c) != 0,
        third_last_continuation_byte(c) != 0,
{
}

/// The bytes of a text without null characters hold no zero byte.
pub(crate) proof fn lemma_text_not_null(chars: Seq<char>)
    requires
        forall|i: int| 0 <= i < chars.len() ==> chars[i] != '\0',
    ensures
        forall|i: int| 0 <= i < encode_utf8(chars).len() ==> encode_utf8(chars)[i] != 0,
    decreases chars.len(),
{
    if chars.len() > 0 {
        let c = chars[0];
        let rest = chars.drop_first();
        char_is_scalar(c);
        char_u32_cast(c, c as u32);
        assert(c as u32 == 0 ==> c == '\0');
        lemma_scalar_not_null(c as u32);
        assert forall|i: int| 0 <= i < rest.len() implies rest[i] != '\0' by {
            assert(rest[i] == chars[i + 1]);
        }
        lemma_text_not_null(rest);
        let first = encode_scalar(c as u32);
        let all = encode_utf8(chars);
        assert(all == first + encode_utf8(rest));
        assert forall|i: int| 0 <= i < all.len() implies all[i] != 0 by {
            if i < first.len() {
                assert(all[i] == first[i]);
            } else {
                assert(all[i] == encode_utf8(rest)[i - first.len()]);
            }
        }
    }
}

/// The characters that std's lossy UTF-8 decoding reads from `bytes`: those that they
/// encode, where they are valid UTF-8.
pub open spec fn text(bytes: Seq<u8>) -> Seq<char> {
    if valid_utf8(bytes) {
        decode_utf8(bytes)
    } else {
        utf8_lossy(bytes)
    }
}

/// The characters that std's lossy UTF-8 decoding reads from bytes that are not valid
/// UTF-8.
pub uninterp spec fn utf8_lossy(bytes: Seq<u8>) -> Seq<char>;

/// Calls std's `String::from_utf8_lossy`, and takes ownership of its result. Bytes that
/// are valid UTF-8 are decoded as they stand. Of other bytes the result is named
/// ([`utf8_lossy`]), since it depends on the bytes alone; what stands in the place of
/// invalid sequences is left unsaid.
#[verifier::external_body]
fn string_from_utf8_lossy(bytes: &[u8]) -> (s: String)
    ensures
        s@ == (if valid_utf8(bytes@) {
            decode_utf8(bytes@)
        } else {
            utf8_lossy(bytes@)
        }),
{
    String::from_utf8_lossy(bytes).into_owned()
}

} // verus!
