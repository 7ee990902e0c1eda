//! The RC4 stream cipher, as used by the SOE protocol for optional data encryption.
//!
//! The cipher state is maintained for the entirety of a session, rather than being
//! reset per block of data.

use vstd::prelude::*;

use crate::wire::splice;

verus! {

/// The length of the RC4 key state buffer.
pub const KEY_STATE_LENGTH: usize = 256;

/// The mathematical state of the cipher: a table of 256 bytes and two indices into it.
#[verifier::ext_equal]
pub struct Rc4State {
    /// The table.
    pub table: Seq<u8>,
    /// The index that moves by one in each step.
    pub i: int,
    /// The index that moves by the table's entries.
    pub j: int,
}

/// `table` with the entries at `a` and `b` exchanged.
pub open spec fn swapped(table: Seq<u8>, a: int, b: int) -> Seq<u8> {
    table.update(a, table[b]).update(b, table[a])
}

impl Rc4State {
    /// That the table has its length and that both indices lie within it.
    pub open spec fn wf(self) -> bool {
        &&& self.table.len() == KEY_STATE_LENGTH
        &&& 0 <= self.i < KEY_STATE_LENGTH
        &&& 0 <= self.j < KEY_STATE_LENGTH
    }

    /// The state after one step.
    pub open spec fn next(self) -> Rc4State {
        let i = (self.i + 1) % 256;
        let j = (self.j + self.table[i]) % 256;
        Rc4State { table: swapped(self.table, i, j), i, j }
    }

    /// The state after `n` steps.
    pub open spec fn after(self, n: nat) -> Rc4State
        decreases n,
    {
        if n == 0 {
            self
        } else {
            self.after((n - 1) as nat).next()
        }
    }

    /// The byte of the key stream that the step into this state yields.
    pub open spec fn key_byte(self) -> u8 {
        self.table[(self.table[self.i] + self.table[self.j]) % 256]
    }

    /// What `input` is transformed to: each byte combined with the key stream.
    pub open spec fn transformed(self, input: Seq<u8>) -> Seq<u8> {
        Seq::new(input.len(), |k: int| input[k] ^ self.after((k + 1) as nat).key_byte())
    }
}

/// The table 0, 1, 2, ...
pub open spec fn identity_table() -> Seq<u8> {
    Seq::new(256, |k: int| k as u8)
}

/// The table and the swap index after the first `n` steps of scheduling `key`.
pub open spec fn schedule(key: Seq<u8>, n: nat) -> (Seq<u8>, int)
    decreases n,
{
    if n == 0 {
        (identity_table(), 0)
    } else {
        let i = n - 1;
        let (table, j) = schedule(key, i as nat);
        let next = (j + table[i] + key[i % key.len() as int]) % 256;
        (swapped(table, i, next), next)
    }
}

/// The state that scheduling `key` starts the cipher in.
pub open spec fn keyed(key: Seq<u8>) -> Rc4State {
    Rc4State { table: schedule(key, 256).0, i: 0, j: 0 }
}

proof fn lemma_schedule_len(key: Seq<u8>, n: nat)
    requires
        n <= 256,
    ensures
        schedule(key, n).0.len() == 256,
        0 <= schedule(key, n).1 < 256,
    decreases n,
{
    if n > 0 {
        lemma_schedule_len(key, (n - 1) as nat);
    }
}

/// Scheduling a key yields a well-formed state.
pub proof fn lemma_keyed_wf(key: Seq<u8>)
    ensures
        keyed(key).wf(),
{
    lemma_schedule_len(key, 256);
}

proof fn lemma_xor_twice(a: u8, b: u8)
    by (bit_vector)
    ensures
        (a ^ b) ^ b == a,
{
}

/// The cipher is symmetric: transforming the result of a transformation from the same
/// state gives the input back.
pub proof fn law_symmetric(s: Rc4State, input: Seq<u8>)
    ensures
        s.transformed(s.transformed(input)) == input,
{
    assert forall|k: int| 0 <= k < input.len() implies s.transformed(
        s.transformed(input),
    )[k] == input[k] by {
        lemma_xor_twice(input[k], s.after((k + 1) as nat).key_byte());
    }
    assert(s.transformed(s.transformed(input)) =~= input);
}

/// Advancing by `a` steps and then by `b` is advancing by `a + b` steps.
pub proof fn law_advance_adds(s: Rc4State, a: nat, b: nat)
    ensures
        s.after(a).after(b) == s.after(a + b),
    decreases b,
{
    if b > 0 {
        law_advance_adds(s, a, (b - 1) as nat);
    }
}

/// The cipher is one continuous stream: transforming data in two parts, with the state
/// carried over, gives what transforming it whole gives.
pub proof fn law_stream_splits(s: Rc4State, first: Seq<u8>, second: Seq<u8>)
    ensures
        s.transformed(first + second) == s.transformed(first) + s.after(
            first.len(),
        ).transformed(second),
{
    let whole = s.transformed(first + second);
    let parts = s.transformed(first) + s.after(first.len()).transformed(second);
    assert forall|k: int| 0 <= k < whole.len() implies whole[k] == parts[k] by {
        if k >= first.len() {
            law_advance_adds(s, first.len(), (k - first.len() + 1) as nat);
        }
    }
    assert(whole =~= parts);
}

/// Advancing without transforming skips exactly the data that it stands for: byte `n`
/// of a transformation is what transforming that byte alone gives after `n` steps.
pub proof fn law_advance_skips(s: Rc4State, input: Seq<u8>, n: int)
    requires
        0 <= n < input.len(),
    ensures
        s.after(n as nat).transformed(seq![input[n]]) == seq![s.transformed(input)[n]],
{
    law_advance_adds(s, n as nat, 1);
    assert(s.after(n as nat).transformed(seq![input[n]]) =~= seq![s.transformed(input)[n]]);
}

/// A reusable RC4 key state. The state is advanced as data is transformed, so a single
/// [`Rc4KeyState`] represents one continuous cipher stream.
pub struct Rc4KeyState {
    state: [u8; KEY_STATE_LENGTH],
    index1: usize,
    index2: usize,
}

impl View for Rc4KeyState {
    type V = Rc4State;

    closed spec fn view(&self) -> Rc4State {
        Rc4State { table: self.state@, i: self.index1 as int, j: self.index2 as int }
    }
}

impl Clone for Rc4KeyState {
    fn clone(&self) -> (copy: Self)
        ensures
            copy@ == self@,
    {
        proof {
            use_type_invariant(&*self);
        }
        Self { state: self.state, index1: self.index1, index2: self.index2 }
    }
}

impl Rc4KeyState {
    #[verifier::type_invariant]
    spec fn in_bounds(self) -> bool {
        self.index1 < KEY_STATE_LENGTH && self.index2 < KEY_STATE_LENGTH
    }

    /// Creates a new key state by scheduling the given key bytes.
    pub fn new(key: &[u8]) -> (s: Self)
        requires
            1 <= key@.len() <= KEY_STATE_LENGTH,
        ensures
            s@ == keyed(key@),
            s@.wf(),
    {
        let mut state: [u8; KEY_STATE_LENGTH] = [0; KEY_STATE_LENGTH];
        let mut i: usize = 0;
        while i < KEY_STATE_LENGTH
            invariant
                i <= KEY_STATE_LENGTH,
                forall|k: int| 0 <= k < i ==> state@[k] == k,
            decreases KEY_STATE_LENGTH - i,
        {
            state[i] = i as u8;
            i = i + 1;
        }
        assert(state@ =~= identity_table());

        let mut swap_index1: usize = 0;
        let mut swap_index2: usize = 0;
        i = 0;
        while i < KEY_STATE_LENGTH
            invariant
                i <= KEY_STATE_LENGTH,
                1 <= key@.len() <= KEY_STATE_LENGTH,
                swap_index1 == i as int % key@.len() as int,
                swap_index2 < KEY_STATE_LENGTH,
                schedule(key@, i as nat) == (state@, swap_index2 as int),
            decreases KEY_STATE_LENGTH - i,
        {
            swap_index2 = (swap_index2 + state[i] as usize + key[swap_index1] as usize)
                % KEY_STATE_LENGTH;
            let held: u8 = state[i];
            state[i] = state[swap_index2];
            state[swap_index2] = held;
            proof {
                lemma_mod_step(i as int, key@.len() as int);
            }
            swap_index1 = (swap_index1 + 1) % key.len();
            i = i + 1;
        }
        proof {
            lemma_keyed_wf(key@);
        }
        Self { state, index1: 0, index2: 0 }
    }

    /// Returns the current internal key state bytes (for inspection/testing).
    pub fn key_state(&self) -> (table: &[u8; KEY_STATE_LENGTH])
        ensures
            table@ == self@.table,
    {
        &self.state
    }

    /// Returns the two transform indices.
    pub fn indices(&self) -> (ij: (usize, usize))
        ensures
            ij.0 == self@.i,
            ij.1 == self@.j,
            self@.wf(),
    {
        proof {
            use_type_invariant(&*self);
        }
        (self.index1, self.index2)
    }

    fn increment(&mut self)
        ensures
            final(self)@ == old(self)@.next(),
            final(self)@.wf(),
    {
        proof {
            use_type_invariant(&*self);
        }
        self.index1 = (self.index1 + 1) % KEY_STATE_LENGTH;
        self.index2 = (self.index2 + self.state[self.index1] as usize) % KEY_STATE_LENGTH;
        let held: u8 = self.state[self.index1];
        self.state[self.index1] = self.state[self.index2];
        self.state[self.index2] = held;
        assert(self@ =~= old(self)@.next());
    }

    /// The byte of the key stream that the last step yielded.
    fn key_byte(&self) -> (b: u8)
        ensures
            b == self@.key_byte(),
    {
        proof {
            use_type_invariant(&*self);
        }
        let xor_index: usize = (self.state[self.index1] as usize
            + self.state[self.index2] as usize) % KEY_STATE_LENGTH;
        self.state[xor_index]
    }

    /// Transforms `input` into `output` using (and advancing) this key state. Bytes of
    /// `output` past the length of `input` are left as they are.
    ///
    /// RC4 is symmetric, so the same operation both encrypts and decrypts.
    pub fn transform(&mut self, input: &[u8], output: &mut [u8])
        requires
            old(output)@.len() >= input@.len(),
        ensures
            final(output)@ == splice(old(output)@, 0, old(self)@.transformed(input@)),
            final(self)@ == old(self)@.after(input@.len()),
    {
        let mut i: usize = 0;
        let ghost done = old(self)@.transformed(input@);
        while i < input.len()
            invariant
                i <= input@.len() <= output@.len(),
                output@.len() == old(output)@.len(),
                self@ == old(self)@.after(i as nat),
                done == old(self)@.transformed(input@),
                output@ =~= splice(old(output)@, 0, done.subrange(0, i as int)),
            decreases input@.len() - i,
        {
            self.increment();
            output[i] = input[i] ^ self.key_byte();
            i = i + 1;
        }
        assert(done.subrange(0, i as int) =~= done);
    }

    /// Transforms `buffer` in place.
    pub fn transform_in_place(&mut self, buffer: &mut [u8])
        ensures
            final(buffer)@ == old(self)@.transformed(old(buffer)@),
            final(self)@ == old(self)@.after(old(buffer)@.len()),
    {
        let mut i: usize = 0;
        let ghost input = buffer@;
        let ghost done = old(self)@.transformed(input);
        while i < buffer.len()
            invariant
                i <= buffer@.len(),
                buffer@.len() == input.len(),
                input == old(buffer)@,
                self@ == old(self)@.after(i as nat),
                done == old(self)@.transformed(input),
                forall|k: int| 0 <= k < i ==> buffer@[k] == done[k],
                forall|k: int| i <= k < input.len() ==> buffer@[k] == input[k],
            decreases input.len() - i,
        {
            self.increment();
            buffer[i] = buffer[i] ^ self.key_byte();
            i = i + 1;
        }
        assert(buffer@ =~= done);
    }

    /// Advances the key state by `amount` steps without transforming any data.
    pub fn advance(&mut self, amount: usize)
        ensures
            final(self)@ == old(self)@.after(amount as nat),
    {
        let mut i: usize = 0;
        while i < amount
            invariant
                i <= amount,
                self@ == old(self)@.after(i as nat),
            decreases amount - i,
        {
            self.increment();
            i = i + 1;
        }
    }
}

proof fn lemma_mod_step(i: int, n: int)
    requires
        0 <= i,
        0 < n,
    ensures
        (i + 1) % n == (i % n + 1) % n,
{
    vstd::arithmetic::div_mod::lemma_add_mod_noop(i, 1, n);
    vstd::arithmetic::div_mod::lemma_add_mod_noop(i % n, 1, n);
    vstd::arithmetic::div_mod::lemma_mod_twice(i, n);
}

} // verus!
