//! The CRC-32 check value that is appended to packets.
//!
//! The check value is the standard reflected CRC-32, computed over the four bytes of a
//! session's seed, least significant byte first, followed by the data.

use vstd::prelude::*;

verus! {

/// The generator polynomial, with its bits in reflected order.
pub const POLYNOMIAL: u32 = 0xEDB8_8320;

/// The value that the CRC register starts from.
pub const INITIAL_REGISTER: u32 = 0xFFFF_FFFF;

/// The register after one bit has been shifted out of it.
pub open spec fn shifted(register: u32) -> u32 {
    if register & 1 == 1 {
        (register >> 1) ^ POLYNOMIAL
    } else {
        register >> 1
    }
}

/// The register after `n` bits have been shifted out of it.
pub open spec fn shifted_by(register: u32, n: nat) -> u32
    decreases n,
{
    if n == 0 {
        register
    } else {
        shifted(shifted_by(register, (n - 1) as nat))
    }
}

/// The register after `data` has gone through it.
pub open spec fn register_after(register: u32, data: Seq<u8>) -> u32
    decreases data.len(),
{
    if data.len() == 0 {
        register
    } else {
        shifted_by(register_after(register, data.drop_last()) ^ data.last() as u32, 8)
    }
}

/// The bytes of a seed, least significant byte first.
pub open spec fn seed_bytes(seed: u32) -> Seq<u8> {
    seq![
        (seed % 0x100) as u8,
        (seed / 0x100 % 0x100) as u8,
        (seed / 0x1_0000 % 0x100) as u8,
        (seed / 0x100_0000) as u8,
    ]
}

/// The register that a seed puts in the place of the initial one.
pub open spec fn seeded(seed: u32) -> u32 {
    register_after(INITIAL_REGISTER, seed_bytes(seed))
}

/// The check value of `data` under `seed`.
pub open spec fn crc_of(seed: u32, data: Seq<u8>) -> u32 {
    !register_after(seeded(seed), data)
}

/// Data that goes through the register in two parts leaves in it what the whole leaves;
/// so the check value under a seed is the plain CRC-32 of the seed's bytes and the data.
pub proof fn law_register_splits(register: u32, first: Seq<u8>, second: Seq<u8>)
    ensures
        register_after(register, first + second) == register_after(
            register_after(register, first),
            second,
        ),
    decreases second.len(),
{
    if second.len() == 0 {
        assert(first + second =~= first);
    } else {
        law_register_splits(register, first, second.drop_last());
        assert((first + second).drop_last() =~= first + second.drop_last());
    }
}

fn push(register: u32, data: &[u8]) -> (after: u32)
    ensures
        after == register_after(register, data@),
{
    let mut after: u32 = register;
    let mut i: usize = 0;
    while i < data.len()
        invariant
            i <= data@.len(),
            after == register_after(register, data@.subrange(0, i as int)),
        decreases data@.len() - i,
    {
        let entered: u32 = after ^ data[i] as u32;
        after = entered;
        let mut bit: u32 = 0;
        while bit < 8
            invariant
                bit <= 8,
                after == shifted_by(entered, bit as nat),
            decreases 8 - bit,
        {
            if after & 1 == 1 {
                after = (after >> 1) ^ POLYNOMIAL;
            } else {
                after = after >> 1;
            }
            bit = bit + 1;
        }
        assert(data@.subrange(0, i + 1).drop_last() =~= data@.subrange(0, i as int));
        i = i + 1;
    }
    assert(data@.subrange(0, i as int) =~= data@);
    after
}

/// Computes check values under one seed.
#[derive(Debug)]
pub struct Crc32 {
    seed: u32,
    register: u32,
}

impl View for Crc32 {
    type V = u32;

    /// The seed.
    closed spec fn view(&self) -> u32 {
        self.seed
    }
}

impl Clone for Crc32 {
    fn clone(&self) -> (copy: Self)
        ensures
            copy@ == self@,
    {
        proof {
            use_type_invariant(&*self);
        }
        Self { seed: self.seed, register: self.register }
    }
}

impl Crc32 {
    #[verifier::type_invariant]
    spec fn is_seeded(self) -> bool {
        self.register == seeded(self.seed)
    }

    /// Prepares to compute check values under `seed`.
    pub fn new(seed: u32) -> (crc: Self)
        ensures
            crc@ == seed,
    {
        let bytes: [u8; 4] = [
            (seed % 0x100) as u8,
            (seed / 0x100 % 0x100) as u8,
            (seed / 0x1_0000 % 0x100) as u8,
            (seed / 0x100_0000) as u8,
        ];
        assert(bytes@ =~= seed_bytes(seed));
        let register: u32 = push(INITIAL_REGISTER, bytes.as_slice());
        Self { seed, register }
    }

    /// Computes the check value of `data`.
    pub fn hash(&self, data: &[u8]) -> (value: u32)
        ensures
            value == crc_of(self@, data@),
    {
        proof {
            use_type_invariant(&*self);
        }
        !push(self.register, data)
    }
}

proof fn lemma_shifted_apart(a: u32, b: u32)
    requires
        a != b,
    ensures
        shifted(a) != shifted(b),
{
    assert(a != b ==> (if a & 1 == 1 {
        (a >> 1) ^ 0xEDB8_8320
    } else {
        a >> 1
    }) != (if b & 1 == 1 {
        (b >> 1) ^ 0xEDB8_8320
    } else {
        b >> 1
    })) by (bit_vector);
}

proof fn lemma_shifted_by_apart(a: u32, b: u32, n: nat)
    requires
        a != b,
    ensures
        shifted_by(a, n) != shifted_by(b, n),
    decreases n,
{
    if n > 0 {
        lemma_shifted_by_apart(a, b, (n - 1) as nat);
        lemma_shifted_apart(shifted_by(a, (n - 1) as nat), shifted_by(b, (n - 1) as nat));
    }
}

proof fn lemma_registers_apart(a: u32, b: u32, data: Seq<u8>)
    requires
        a != b,
    ensures
        register_after(a, data) != register_after(b, data),
    decreases data.len(),
{
    if data.len() > 0 {
        let x = register_after(a, data.drop_last());
        let y = register_after(b, data.drop_last());
        let last = data.last() as u32;
        lemma_registers_apart(a, b, data.drop_last());
        assert(x != y ==> x ^ last != y ^ last) by (bit_vector);
        lemma_shifted_by_apart(x ^ last, y ^ last, 8);
    }
}

/// A byte that is changed on its way is noticed: data that differ in one byte have different
/// check values under every seed.
pub proof fn law_changed_byte_noticed(seed: u32, front: Seq<u8>, a: u8, b: u8, back: Seq<u8>)
    requires
        a != b,
    ensures
        crc_of(seed, front + seq![a] + back) != crc_of(seed, front + seq![b] + back),
{
    let start = seeded(seed);
    let met = register_after(start, front);
    law_register_splits(start, front + seq![a], back);
    law_register_splits(start, front + seq![b], back);
    assert((front + seq![a]).drop_last() =~= front);
    assert((front + seq![b]).drop_last() =~= front);
    assert(a != b ==> met ^ a as u32 != met ^ b as u32) by (bit_vector);
    lemma_shifted_by_apart(met ^ a as u32, met ^ b as u32, 8);
    let x = register_after(start, front + seq![a]);
    let y = register_after(start, front + seq![b]);
    lemma_registers_apart(x, y, back);
    let u = register_after(x, back);
    let v = register_after(y, back);
    assert(u != v ==> !u != !v) by (bit_vector);
}

/// The check value under a seed is that of the seed's bytes, least significant first, and
/// the data behind them.
pub proof fn law_seed_comes_first(seed: u32, data: Seq<u8>)
    ensures
        crc_of(seed, data) == !register_after(
            0xFFFF_FFFF,
            seq![
                (seed % 256) as u8,
                ((seed / 256) % 256) as u8,
                ((seed / 65536) % 256) as u8,
                (seed / 16777216) as u8,
            ] + data,
        ),
{
    law_register_splits(INITIAL_REGISTER, seed_bytes(seed), data);
    assert(seed_bytes(seed) =~= seq![
        (seed % 256) as u8,
        ((seed / 256) % 256) as u8,
        ((seed / 65536) % 256) as u8,
        (seed / 16777216) as u8,
    ]);
}

} // verus!
