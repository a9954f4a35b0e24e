//! The stream cipher that drives the battle engine: a keyed byte
//! permutation with two indices, the keystream it yields, the two ways it
//! encrypts bytes, and the random choices built on the keystream.
use vstd::prelude::*;
use crate::perm::{
    identity256, is_perm256, ksa_passes, cyclic_key, prng_step, lemma_identity_perm,
    lemma_ksa_passes_perm, lemma_prng_step_perm, identity_array, cyclic_key_stream, mix_pass,
    swap_bytes,
};

verus! {

/// The state of the generator: the permutation and the indices `i` and `j`.
pub struct RC4 {
    i: u32,
    j: u32,
    main_val: [u8; 256],
}

impl View for RC4 {
    type V = (Seq<u8>, u32, u32);

    closed spec fn view(&self) -> (Seq<u8>, u32, u32) {
        (self.main_val@, self.i, self.j)
    }
}

/// A usable generator state: a permutation of the bytes and two indices below 256.
pub open spec fn state_ok(st: (Seq<u8>, u32, u32)) -> bool {
    &&& is_perm256(st.0)
    &&& st.1 < 256
    &&& st.2 < 256
}

/// One step of the generator: the next state and the keystream byte.
pub open spec fn next_state(st: (Seq<u8>, u32, u32)) -> ((Seq<u8>, u32, u32), u8) {
    let r = prng_step(st.0, st.1 as u8, st.2 as u8);
    ((r.0, r.1 as u32, r.2 as u32), r.3)
}

/// The state after `n` steps.
pub open spec fn skip_steps(st: (Seq<u8>, u32, u32), n: nat) -> (Seq<u8>, u32, u32)
    decreases n,
{
    if n == 0 {
        st
    } else {
        next_state(skip_steps(st, (n - 1) as nat)).0
    }
}

/// The first `n` keystream bytes from `st`.
pub open spec fn keystream(st: (Seq<u8>, u32, u32), n: nat) -> Seq<u8>
    decreases n,
{
    if n == 0 {
        Seq::empty()
    } else {
        keystream(st, (n - 1) as nat).push(next_state(skip_steps(st, (n - 1) as nat)).1)
    }
}

/// The state and the output after the first `n` bytes of `bytes` went through
/// the cipher: each byte is xored with the next keystream byte; with
/// feedback, `j` then advances by the ciphertext byte (the output when
/// encrypting, the input when decrypting).
pub open spec fn cipher_run(
    st: (Seq<u8>, u32, u32),
    bytes: Seq<u8>,
    n: nat,
    feedback: bool,
    encrypting: bool,
) -> ((Seq<u8>, u32, u32), Seq<u8>)
    decreases n,
{
    if n == 0 {
        (st, Seq::empty())
    } else {
        let p = cipher_run(st, bytes, (n - 1) as nat, feedback, encrypting);
        let r = next_state(p.0);
        let out = bytes[n - 1] ^ r.1;
        let c = if encrypting {
            out
        } else {
            bytes[n - 1]
        };
        let s = r.0;
        let s2 = if feedback {
            (s.0, s.1, ((s.2 + c) % 256) as u32)
        } else {
            s
        };
        (s2, p.1.push(out))
    }
}

/// One round of `nextInt`: shift in the next keystream byte and reduce below `max`.
pub open spec fn next_int_rounds(st: (Seq<u8>, u32, u32), max: int, v: int, round: nat) -> (
    (Seq<u8>, u32, u32),
    int,
)
    decreases round,
{
    let r = next_state(st);
    let v1 = v * 256 + r.1;
    let v2 = if v1 >= max {
        v1 % max
    } else {
        v1
    };
    if round / 64 == 0 {
        (r.0, v2)
    } else {
        next_int_rounds(r.0, max, v2, round / 64)
    }
}

/// `nextInt(max)`: a first keystream byte, then one more byte for every six
/// bits of `max`, each time reduced below `max`.
pub open spec fn next_int(st: (Seq<u8>, u32, u32), max: int) -> ((Seq<u8>, u32, u32), int) {
    let r = next_state(st);
    next_int_rounds(r.0, max, r.1 as int, max as nat)
}

/// The index `pick` returns for a list of `len` items, and the state after.
pub open spec fn pick_spec(st: (Seq<u8>, u32, u32), len: int) -> (
    (Seq<u8>, u32, u32),
    Option<usize>,
) {
    if len == 1 {
        (st, Some(0usize))
    } else if len > 1 {
        let r = next_int(st, len);
        (r.0, Some(r.1 as usize))
    } else {
        (st, None)
    }
}

/// The index `pick_skip` returns for `len` items skipping index `skip`: an
/// index outside the list skips nothing.
pub open spec fn pick_skip_spec(st: (Seq<u8>, u32, u32), len: int, skip: int) -> (
    (Seq<u8>, u32, u32),
    Option<usize>,
) {
    if len == 1 {
        (st, if skip == 0 { None } else { Some(0usize) })
    } else if len > 1 {
        if skip >= len {
            let r = next_int(st, len);
            (r.0, Some(r.1 as usize))
        } else {
            let r = next_int(st, len - 1);
            (r.0, Some((if r.1 >= skip { r.1 + 1 } else { r.1 }) as usize))
        }
    } else {
        (st, None)
    }
}

/// The index `pick_skip_range` returns for `len` items skipping the `count`
/// indices from `first` on: with nothing to skip it is `pick`; an index
/// outside the list shifts every choice past the skipped count.
pub open spec fn pick_skip_range_spec(
    st: (Seq<u8>, u32, u32),
    len: int,
    first: int,
    count: int,
) -> ((Seq<u8>, u32, u32), Option<usize>) {
    if count == 0 {
        pick_spec(st, len)
    } else if len > count {
        let r = next_int(st, len - count);
        (r.0, Some((if first >= len || r.1 >= first { r.1 + count } else { r.1 }) as usize))
    } else {
        (st, None)
    }
}

/// `r3x3`: one plus a 32nd of the product of the two nibbles of `b`, each plus one.
pub open spec fn r3x3_of(b: u8) -> u32 {
    (((b % 16 + 1) * (b / 16 + 1)) / 32 + 1) as u32
}

/// The number of rounds a key schedule runs: one when none is given.
pub open spec fn rounds_of(round: Option<usize>) -> nat {
    match round {
        Some(r) => r as nat,
        None => 1,
    }
}

proof fn lemma_next_state_ok(st: (Seq<u8>, u32, u32))
    requires
        state_ok(st),
    ensures
        state_ok(next_state(st).0),
{
    lemma_prng_step_perm(st.0, st.1 as u8, st.2 as u8);
}

proof fn lemma_next_int_rounds_range(st: (Seq<u8>, u32, u32), max: int, v: int, round: nat)
    requires
        state_ok(st),
        max > 0,
        0 <= v,
    ensures
        state_ok(next_int_rounds(st, max, v, round).0),
        0 <= next_int_rounds(st, max, v, round).1 < max,
    decreases round,
{
    lemma_next_state_ok(st);
    let r = next_state(st);
    let v1 = v * 256 + r.1;
    let v2 = if v1 >= max {
        v1 % max
    } else {
        v1
    };
    if round / 64 != 0 {
        lemma_next_int_rounds_range(r.0, max, v2, round / 64);
    }
}

impl RC4 {
    /// A fresh generator: `round` key schedule passes (one when none is
    /// given) over the identity with `keys` repeated as key, indices 0.
    pub fn new(keys: Vec<u8>, round: Option<usize>) -> (r: Self)
        requires
            keys@.len() > 0 || rounds_of(round) == 0,
        ensures
            r@ == (ksa_passes(identity256(), cyclic_key(keys@), rounds_of(round)), 0u32, 0u32),
            state_ok(r@),
    {
        let mut val = identity_array();
        proof {
            lemma_identity_perm();
        }
        let rounds = round.unwrap_or(1);
        if rounds > 0 {
            let key = cyclic_key_stream(keys.as_slice());
            let mut r: usize = 0;
            while r < rounds
                invariant
                    r <= rounds,
                    rounds == rounds_of(round),
                    key@.len() == 256,
                    key@ == cyclic_key(keys@),
                    val@ == ksa_passes(identity256(), key@, r as nat),
                decreases rounds - r,
            {
                mix_pass(&mut val, &key);
                r = r + 1;
            }
        }
        proof {
            lemma_ksa_passes_perm(identity256(), cyclic_key(keys@), rounds_of(round));
        }
        RC4 { i: 0, j: 0, main_val: val }
    }

    /// The next keystream byte.
    pub fn next_u8(&mut self) -> (r: u8)
        requires
            state_ok(old(self)@),
        ensures
            (final(self)@, r) == next_state(old(self)@),
            state_ok(final(self)@),
    {
        proof {
            lemma_next_state_ok(self@);
        }
        self.i = (self.i + 1) % 256;
        self.j = (self.j + self.main_val[self.i as usize] as u32) % 256;
        swap_bytes(&mut self.main_val, self.i as usize, self.j as usize);
        let k = ((self.main_val[self.i as usize] as u32 + self.main_val[self.j as usize] as u32)
            % 256) as usize;
        self.main_val[k]
    }

    /// Runs `bytes` through the cipher, in place.
    fn cipher(&mut self, bytes: &mut [u8], feedback: bool, encrypting: bool)
        requires
            state_ok(old(self)@),
        ensures
            (final(self)@, final(bytes)@) == cipher_run(
                old(self)@,
                old(bytes)@,
                old(bytes)@.len(),
                feedback,
                encrypting,
            ),
            state_ok(final(self)@),
    {
        let ghost st0 = self@;
        let ghost b0 = bytes@;
        let n = bytes.len();
        let mut x: usize = 0;
        while x < n
            invariant
                n == b0.len(),
                bytes@.len() == n,
                x <= n,
                state_ok(self@),
                self@ == cipher_run(st0, b0, x as nat, feedback, encrypting).0,
                cipher_run(st0, b0, x as nat, feedback, encrypting).1.len() == x,
                forall|k: int|
                    0 <= k < x ==> bytes@[k] == cipher_run(st0, b0, x as nat, feedback, encrypting).1[k],
                forall|k: int| x <= k < n ==> bytes@[k] == b0[k],
            decreases n - x,
        {
            let k = self.next_u8();
            let b = bytes[x];
            let out = b ^ k;
            bytes[x] = out;
            if feedback {
                let c = if encrypting {
                    out
                } else {
                    b
                };
                self.j = (self.j + c as u32) % 256;
            }
            x = x + 1;
        }
        proof {
            assert(bytes@ =~= cipher_run(st0, b0, n as nat, feedback, encrypting).1);
        }
    }

    /// Xors each byte with the next keystream byte.
    pub fn xor_bytes(&mut self, bytes: &mut [u8])
        requires
            state_ok(old(self)@),
        ensures
            (final(self)@, final(bytes)@) == cipher_run(
                old(self)@,
                old(bytes)@,
                old(bytes)@.len(),
                false,
                true,
            ),
            state_ok(final(self)@),
    {
        self.cipher(bytes, false, true);
    }

    /// Encrypts in place: xors each byte with the next keystream byte, and
    /// advances `j` by the encrypted byte.
    pub fn encrypt_bytes(&mut self, bytes: &mut [u8])
        requires
            state_ok(old(self)@),
        ensures
            (final(self)@, final(bytes)@) == cipher_run(
                old(self)@,
                old(bytes)@,
                old(bytes)@.len(),
                true,
                true,
            ),
            state_ok(final(self)@),
    {
        self.cipher(bytes, true, true);
    }

    /// Decrypts in place: xors each byte with the next keystream byte, and
    /// advances `j` by the encrypted byte it read.
    pub fn decrypt_bytes(&mut self, bytes: &mut [u8])
        requires
            state_ok(old(self)@),
        ensures
            (final(self)@, final(bytes)@) == cipher_run(
                old(self)@,
                old(bytes)@,
                old(bytes)@.len(),
                true,
                false,
            ),
            state_ok(final(self)@),
    {
        self.cipher(bytes, true, false);
    }

    /// `nextInt(max)`: a random number in `0..max`.
    pub fn next_i32(&mut self, max: i32) -> (r: i32)
        requires
            state_ok(old(self)@),
            max > 0,
        ensures
            (final(self)@, r as int) == next_int(old(self)@, max as int),
            0 <= r < max,
            state_ok(final(self)@),
    {
        let ghost st0 = self@;
        let mut round: i32 = max;
        let first = self.next_u8();
        let mut v: i64 = first as i64;
        loop
            invariant_except_break
                round > 0,
                next_int(st0, max as int) == next_int_rounds(self@, max as int, v as int, round as nat),
            invariant
                state_ok(self@),
                max > 0,
                0 <= v,
                v < 256 || v < max,
            ensures
                next_int(st0, max as int) == (self@, v as int),
                0 <= v < max,
            decreases round,
        {
            let b = self.next_u8();
            v = v * 256 + b as i64;
            if v >= max as i64 {
                v = v % max as i64;
            }
            round = round / 64;
            if round == 0 {
                break;
            }
        }
        v as i32
    }

    /// `round` further key schedule passes (one when none is given) over the
    /// permutation with `keys` repeated as key; both indices back to 0.
    pub fn round(&mut self, keys: Vec<u8>, round: Option<usize>)
        requires
            state_ok(old(self)@),
            keys@.len() > 0 || rounds_of(round) == 0,
        ensures
            final(self)@ == (
                ksa_passes(old(self)@.0, cyclic_key(keys@), rounds_of(round)),
                0u32,
                0u32,
            ),
            state_ok(final(self)@),
    {
        let ghost start = self.main_val@;
        let rounds = round.unwrap_or(1);
        if rounds > 0 {
            let key = cyclic_key_stream(keys.as_slice());
            let mut r: usize = 0;
            while r < rounds
                invariant
                    r <= rounds,
                    rounds == rounds_of(round),
                    key@.len() == 256,
                    key@ == cyclic_key(keys@),
                    self.main_val@ == ksa_passes(start, key@, r as nat),
                decreases rounds - r,
            {
                mix_pass(&mut self.main_val, &key);
                r = r + 1;
            }
        }
        proof {
            lemma_ksa_passes_perm(start, cyclic_key(keys@), rounds_of(round));
        }
        self.i = 0;
        self.j = 0;
    }

    /// An index into `list` chosen at random: `None` for an empty list.
    pub fn pick<T>(&mut self, list: Vec<T>) -> (r: Option<usize>)
        requires
            state_ok(old(self)@),
            list@.len() <= i32::MAX,
        ensures
            (final(self)@, r) == pick_spec(old(self)@, list@.len() as int),
            state_ok(final(self)@),
            r matches Some(k) ==> k < list@.len(),
    {
        let n = list.len();
        if n == 1 {
            Some(0)
        } else if n > 1 {
            Some(self.next_i32(n as i32) as usize)
        } else {
            None
        }
    }

    /// An index into `list` chosen at random other than `skip_after_index`:
    /// `None` when no other index exists.
    pub fn pick_skip<T>(&mut self, list: Vec<T>, skip_after_index: usize) -> (r: Option<usize>)
        requires
            state_ok(old(self)@),
            list@.len() <= i32::MAX,
        ensures
            (final(self)@, r) == pick_skip_spec(
                old(self)@,
                list@.len() as int,
                skip_after_index as int,
            ),
            state_ok(final(self)@),
            r matches Some(k) ==> k < list@.len() && k != skip_after_index,
    {
        let n = list.len();
        if n == 1 {
            if skip_after_index == 0 {
                None
            } else {
                Some(0)
            }
        } else if n > 1 {
            if skip_after_index >= n {
                Some(self.next_i32(n as i32) as usize)
            } else {
                let k = self.next_i32((n - 1) as i32) as usize;
                if k >= skip_after_index {
                    Some(k + 1)
                } else {
                    Some(k)
                }
            }
        } else {
            None
        }
    }

    /// An index into `list` chosen at random outside the `skips.len()`
    /// indices that start at `skips[0]`: `pick` when `skips` is empty, `None`
    /// when no index is left.
    pub fn pick_skip_range<T>(&mut self, list: Vec<T>, skips: Vec<usize>) -> (r: Option<usize>)
        requires
            state_ok(old(self)@),
            list@.len() <= i32::MAX,
        ensures
            (final(self)@, r) == pick_skip_range_spec(
                old(self)@,
                list@.len() as int,
                if skips@.len() > 0 { skips@[0] as int } else { 0 },
                skips@.len() as int,
            ),
            state_ok(final(self)@),
            r matches Some(k) ==> k < list@.len() && (skips@.len() == 0 || !(skips@[0] <= k
                < skips@[0] + skips@.len())),
    {
        if skips.is_empty() {
            return self.pick(list);
        }
        let first = skips[0];
        let skip_len = skips.len();
        if list.len() > skip_len {
            let n = self.next_i32((list.len() - skip_len) as i32) as usize;
            if first >= list.len() || n >= first {
                Some(n + skip_len)
            } else {
                Some(n)
            }
        } else {
            None
        }
    }

    /// The next keystream byte is below 240.
    pub fn c94(&mut self) -> (r: bool)
        requires
            state_ok(old(self)@),
        ensures
            final(self)@ == next_state(old(self)@).0,
            r == (next_state(old(self)@).1 < 240),
            state_ok(final(self)@),
    {
        self.next_u8() < 240
    }

    /// The next keystream byte is below 192.
    pub fn c75(&mut self) -> (r: bool)
        requires
            state_ok(old(self)@),
        ensures
            final(self)@ == next_state(old(self)@).0,
            r == (next_state(old(self)@).1 < 192),
            state_ok(final(self)@),
    {
        self.next_u8() < 192
    }

    /// The next keystream byte is below 128.
    pub fn c50(&mut self) -> (r: bool)
        requires
            state_ok(old(self)@),
        ensures
            final(self)@ == next_state(old(self)@).0,
            r == (next_state(old(self)@).1 < 128),
            state_ok(final(self)@),
    {
        self.next_u8() < 128
    }

    /// The next keystream byte is below 64.
    pub fn c25(&mut self) -> (r: bool)
        requires
            state_ok(old(self)@),
        ensures
            final(self)@ == next_state(old(self)@).0,
            r == (next_state(old(self)@).1 < 64),
            state_ok(final(self)@),
    {
        self.next_u8() < 64
    }

    /// The next keystream byte is below 32.
    pub fn c12(&mut self) -> (r: bool)
        requires
            state_ok(old(self)@),
        ensures
            final(self)@ == next_state(old(self)@).0,
            r == (next_state(old(self)@).1 < 32),
            state_ok(final(self)@),
    {
        self.next_u8() < 32
    }

    /// The next keystream byte is below 84.
    pub fn c33(&mut self) -> (r: bool)
        requires
            state_ok(old(self)@),
        ensures
            final(self)@ == next_state(old(self)@).0,
            r == (next_state(old(self)@).1 < 84),
            state_ok(final(self)@),
    {
        self.next_u8() < 84
    }

    /// The next keystream byte is below 171.
    pub fn c66(&mut self) -> (r: bool)
        requires
            state_ok(old(self)@),
        ensures
            final(self)@ == next_state(old(self)@).0,
            r == (next_state(old(self)@).1 < 171),
            state_ok(final(self)@),
    {
        self.next_u8() < 171
    }

    /// Three keystream bytes as one 24 bit number, the first the highest.
    pub fn rffffff(&mut self) -> (r: u32)
        requires
            state_ok(old(self)@),
        ensures
            final(self)@ == skip_steps(old(self)@, 3),
            r == keystream(old(self)@, 3)[0] * 65536 + keystream(old(self)@, 3)[1] * 256
                + keystream(old(self)@, 3)[2],
            state_ok(final(self)@),
    {
        let ghost st0 = self@;
        let a = self.next_u8() as u32;
        let b = self.next_u8() as u32;
        let c = self.next_u8() as u32;
        proof {
            reveal_with_fuel(keystream, 4);
            reveal_with_fuel(skip_steps, 4);
        }
        a * 65536 + b * 256 + c
    }

    /// Two keystream bytes as one 16 bit number, the first the higher.
    pub fn rffff(&mut self) -> (r: u32)
        requires
            state_ok(old(self)@),
        ensures
            final(self)@ == skip_steps(old(self)@, 2),
            r == keystream(old(self)@, 2)[0] * 256 + keystream(old(self)@, 2)[1],
            state_ok(final(self)@),
    {
        let ghost st0 = self@;
        let a = self.next_u8() as u32;
        let b = self.next_u8() as u32;
        proof {
            reveal_with_fuel(keystream, 3);
            reveal_with_fuel(skip_steps, 3);
        }
        a * 256 + b
    }

    /// The next keystream byte plus one: 1 to 256.
    pub fn r256(&mut self) -> (r: u32)
        requires
            state_ok(old(self)@),
        ensures
            final(self)@ == next_state(old(self)@).0,
            r == next_state(old(self)@).1 + 1,
            state_ok(final(self)@),
    {
        self.next_u8() as u32 + 1
    }

    /// The next keystream byte: 0 to 255.
    pub fn r255(&mut self) -> (r: u32)
        requires
            state_ok(old(self)@),
        ensures
            final(self)@ == next_state(old(self)@).0,
            r == next_state(old(self)@).1,
            state_ok(final(self)@),
    {
        self.next_u8() as u32
    }

    /// The low seven bits of the next keystream byte: 0 to 127.
    pub fn r127(&mut self) -> (r: u32)
        requires
            state_ok(old(self)@),
        ensures
            final(self)@ == next_state(old(self)@).0,
            r == next_state(old(self)@).1 % 128,
            state_ok(final(self)@),
    {
        let b = self.next_u8() as u32;
        let r = b & 127;
        assert(r == b % 128) by (bit_vector)
            requires
                r == b & 127,
        ;
        r
    }

    /// The low six bits of the next keystream byte plus one: 1 to 64.
    pub fn r64(&mut self) -> (r: u32)
        requires
            state_ok(old(self)@),
        ensures
            final(self)@ == next_state(old(self)@).0,
            r == next_state(old(self)@).1 % 64 + 1,
            state_ok(final(self)@),
    {
        let b = self.next_u8() as u32;
        let r = b & 63;
        assert(r == b % 64) by (bit_vector)
            requires
                r == b & 63,
        ;
        r + 1
    }

    /// The low six bits of the next keystream byte: 0 to 63.
    pub fn r63(&mut self) -> (r: u32)
        requires
            state_ok(old(self)@),
        ensures
            final(self)@ == next_state(old(self)@).0,
            r == next_state(old(self)@).1 % 64,
            state_ok(final(self)@),
    {
        let b = self.next_u8() as u32;
        let r = b & 63;
        assert(r == b % 64) by (bit_vector)
            requires
                r == b & 63,
        ;
        r
    }

    /// From the next keystream byte: one plus a 32nd of the product of its
    /// two nibbles, each plus one (1 to 9).
    pub fn r3x3(&mut self) -> (r: u32)
        requires
            state_ok(old(self)@),
        ensures
            final(self)@ == next_state(old(self)@).0,
            r == r3x3_of(next_state(old(self)@).1),
            1 <= r <= 9,
            state_ok(final(self)@),
    {
        let b = self.next_u8();
        let lo = b & 15;
        let hi = (b >> 4u8) & 15;
        assert(lo == b % 16 && hi == b / 16 && hi < 16) by (bit_vector)
            requires
                lo == b & 15,
                hi == (b >> 4u8) & 15,
        ;
        let b1 = lo + 1;
        let b2 = hi + 1;
        assert(b1 * b2 <= 256) by (nonlinear_arith)
            requires
                1 <= b1 <= 16,
                1 <= b2 <= 16,
        ;
        let p = b1 as u32 * b2 as u32;
        let q = p >> 5;
        assert(q == p / 32) by (bit_vector)
            requires
                q == p >> 5,
        ;
        q + 1
    }
}


/// The cipher writes one output byte for each input byte.
pub proof fn lemma_cipher_len(
    st: (Seq<u8>, u32, u32),
    bytes: Seq<u8>,
    n: nat,
    feedback: bool,
    encrypting: bool,
)
    ensures
        cipher_run(st, bytes, n, feedback, encrypting).1.len() == n,
    decreases n,
{
    if n > 0 {
        lemma_cipher_len(st, bytes, (n - 1) as nat, feedback, encrypting);
    }
}

/// Output bytes, once written, stay as they are.
proof fn lemma_cipher_prefix(
    st: (Seq<u8>, u32, u32),
    bytes: Seq<u8>,
    n: nat,
    m: nat,
    feedback: bool,
    encrypting: bool,
    k: int,
)
    requires
        0 <= k < m <= n,
    ensures
        cipher_run(st, bytes, n, feedback, encrypting).1[k] == cipher_run(
            st,
            bytes,
            m,
            feedback,
            encrypting,
        ).1[k],
    decreases n,
{
    if n > m {
        lemma_cipher_prefix(st, bytes, (n - 1) as nat, m, feedback, encrypting, k);
        lemma_cipher_len(st, bytes, (n - 1) as nat, feedback, encrypting);
    }
}

/// Without feedback, encrypting and decrypting are the same run.
proof fn lemma_plain_xor_same(st: (Seq<u8>, u32, u32), bytes: Seq<u8>, n: nat)
    ensures
        cipher_run(st, bytes, n, false, true) == cipher_run(st, bytes, n, false, false),
    decreases n,
{
    if n > 0 {
        lemma_plain_xor_same(st, bytes, (n - 1) as nat);
    }
}

/// Running the decrypting side over what the encrypting side wrote, from the
/// same state, gives back the first `n` input bytes and the same state.
proof fn lemma_inverse_prefix(st: (Seq<u8>, u32, u32), p: Seq<u8>, feedback: bool, n: nat)
    requires
        n <= p.len(),
    ensures
        ({
            let e = cipher_run(st, p, p.len(), feedback, true).1;
            cipher_run(st, e, n, feedback, false) == (
                cipher_run(st, p, n, feedback, true).0,
                p.take(n as int),
            )
        }),
    decreases n,
{
    let e = cipher_run(st, p, p.len(), feedback, true).1;
    if n == 0 {
        assert(p.take(0) =~= Seq::<u8>::empty());
    } else {
        lemma_inverse_prefix(st, p, feedback, (n - 1) as nat);
        let a = cipher_run(st, p, (n - 1) as nat, feedback, true);
        let r = next_state(a.0);
        lemma_cipher_len(st, p, (n - 1) as nat, feedback, true);
        lemma_cipher_prefix(st, p, p.len(), n, feedback, true, n - 1);
        let x = p[n - 1];
        let y = r.1;
        let c = x ^ y;
        assert(e[n - 1] == c);
        assert((c ^ y) == x) by (bit_vector)
            requires
                c == x ^ y,
        ;
        assert(p.take(n as int) =~= p.take(n - 1).push(p[n - 1]));
    }
}

/// Decrypting what was encrypted, from the same state, gives back the
/// plaintext and leaves the generator in the same state.
pub proof fn lemma_decrypt_inverts_encrypt(st: (Seq<u8>, u32, u32), plain: Seq<u8>)
    ensures
        ({
            let e = cipher_run(st, plain, plain.len(), true, true);
            cipher_run(st, e.1, plain.len(), true, false) == (e.0, plain)
        }),
{
    lemma_inverse_prefix(st, plain, true, plain.len());
    assert(plain.take(plain.len() as int) =~= plain);
}

/// Xoring twice with the keystream from the same state gives back the bytes
/// and leaves the generator in the same state.
pub proof fn lemma_xor_twice(st: (Seq<u8>, u32, u32), bytes: Seq<u8>)
    ensures
        ({
            let x = cipher_run(st, bytes, bytes.len(), false, true);
            cipher_run(st, x.1, bytes.len(), false, true) == (x.0, bytes)
        }),
{
    let x = cipher_run(st, bytes, bytes.len(), false, true);
    lemma_cipher_len(st, bytes, bytes.len(), false, true);
    lemma_plain_xor_same(st, x.1, bytes.len());
    lemma_inverse_prefix(st, bytes, false, bytes.len());
    assert(bytes.take(bytes.len() as int) =~= bytes);
}

/// Without feedback the state after the cipher does not depend on the bytes:
/// it is the state `n` steps on.
pub proof fn lemma_xor_state(st: (Seq<u8>, u32, u32), bytes: Seq<u8>, n: nat)
    ensures
        cipher_run(st, bytes, n, false, true).0 == skip_steps(st, n),
    decreases n,
{
    if n > 0 {
        lemma_xor_state(st, bytes, (n - 1) as nat);
    }
}

/// Without feedback each output byte is the input byte xored with the
/// keystream byte at its position.
pub proof fn lemma_xor_keystream(st: (Seq<u8>, u32, u32), bytes: Seq<u8>, n: nat, k: int)
    requires
        0 <= k < n,
    ensures
        cipher_run(st, bytes, n, false, true).1[k] == bytes[k] ^ keystream(st, n)[k],
    decreases n,
{
    lemma_xor_state(st, bytes, (n - 1) as nat);
    lemma_cipher_len(st, bytes, (n - 1) as nat, false, true);
    lemma_keystream_len(st, (n - 1) as nat);
    if k < n - 1 {
        lemma_xor_keystream(st, bytes, (n - 1) as nat, k);
    }
}

/// The keystream holds `n` bytes.
pub proof fn lemma_keystream_len(st: (Seq<u8>, u32, u32), n: nat)
    ensures
        keystream(st, n).len() == n,
    decreases n,
{
    if n > 0 {
        lemma_keystream_len(st, (n - 1) as nat);
    }
}


/// Keying in two steps, `a` passes and then `b` more with the same key,
/// gives the permutation of `a + b` passes.
pub proof fn lemma_ksa_passes_add(val: Seq<u8>, key: Seq<u8>, a: nat, b: nat)
    ensures
        ksa_passes(ksa_passes(val, key, a), key, b) == ksa_passes(val, key, a + b),
    decreases b,
{
    if b > 0 {
        lemma_ksa_passes_add(val, key, a, (b - 1) as nat);
        assert((a + b - 1) as nat == a + (b - 1) as nat);
    }
}


/// `round` with `Some(a)` passes and then with `Some(b)` passes of the same
/// key schedules the permutation as one `round` with `Some(a + b)` passes
/// would; `None` counts as one pass.
pub proof fn lemma_round_composes(val: Seq<u8>, key: Seq<u8>, a: usize, b: usize)
    requires
        a + b <= usize::MAX,
    ensures
        ksa_passes(ksa_passes(val, key, rounds_of(Some(a))), key, rounds_of(Some(b)))
            == ksa_passes(val, key, rounds_of(Some((a + b) as usize))),
        rounds_of(None) == rounds_of(Some(1usize)),
{
    lemma_ksa_passes_add(val, key, a as nat, b as nat);
}


/// Encrypting or decrypting with feedback, byte `k`: the output byte is the
/// input byte xored with the next keystream byte, and after it `j` advances
/// by the encrypted byte — the output byte when encrypting, the input byte
/// when decrypting.
pub proof fn lemma_cipher_feedback(
    st: (Seq<u8>, u32, u32),
    bytes: Seq<u8>,
    k: nat,
    encrypting: bool,
)
    requires
        k < bytes.len(),
    ensures
        ({
            let before = cipher_run(st, bytes, k, true, encrypting);
            let after = cipher_run(st, bytes, k + 1, true, encrypting);
            let ks = next_state(before.0);
            let out = after.1[k as int];
            let encrypted = if encrypting {
                out
            } else {
                bytes[k as int]
            };
            &&& out == bytes[k as int] ^ ks.1
            &&& after.0.0 == ks.0.0
            &&& after.0.1 == ks.0.1
            &&& after.0.2 == (ks.0.2 + encrypted) % 256
            &&& after.1.len() == k + 1
            &&& after.1.take(k as int) == before.1
        }),
{
    lemma_cipher_len(st, bytes, k, true, encrypting);
    let before = cipher_run(st, bytes, k, true, encrypting);
    let after = cipher_run(st, bytes, k + 1, true, encrypting);
    assert((k + 1 - 1) as nat == k);
    assert(after.1.take(k as int) =~= before.1);
}

/// Over a whole run with feedback, output byte `k` is input byte `k` xored
/// with the keystream byte of the generator as it stands after the first `k`
/// bytes, whose `j` the earlier encrypted bytes advanced.
pub proof fn lemma_cipher_output(
    st: (Seq<u8>, u32, u32),
    bytes: Seq<u8>,
    k: nat,
    encrypting: bool,
)
    requires
        k < bytes.len(),
    ensures
        cipher_run(st, bytes, bytes.len(), true, encrypting).1[k as int] == bytes[k as int]
            ^ next_state(cipher_run(st, bytes, k, true, encrypting).0).1,
{
    lemma_cipher_feedback(st, bytes, k, encrypting);
    lemma_cipher_prefix(st, bytes, bytes.len(), k + 1, true, encrypting, k as int);
}


/// `n` steps after one step are `n + 1` steps.
proof fn lemma_skip_after_one(st: (Seq<u8>, u32, u32), n: nat)
    ensures
        skip_steps(next_state(st).0, n) == skip_steps(st, n + 1),
    decreases n,
{
    if n == 0 {
        assert(skip_steps(st, 0) == st);
        assert(skip_steps(st, 1) == next_state(skip_steps(st, 0)).0);
    } else {
        lemma_skip_after_one(st, (n - 1) as nat);
        assert((n + 1 - 1) as nat == n);
        assert(skip_steps(next_state(st).0, n) == next_state(
            skip_steps(next_state(st).0, (n - 1) as nat),
        ).0);
        assert(skip_steps(st, n + 1) == next_state(skip_steps(st, n)).0);
    }
}

/// The number of keystream bytes the rounds of `nextInt` read for the round
/// counter `round`: one, and one more while the counter shifted by six bits
/// is not zero.
spec fn rounds_read(round: nat) -> nat
    decreases round,
{
    if round / 64 == 0 {
        1
    } else {
        1 + rounds_read(round / 64)
    }
}

proof fn lemma_rounds_state(st: (Seq<u8>, u32, u32), max: int, v: int, round: nat)
    ensures
        next_int_rounds(st, max, v, round).0 == skip_steps(st, rounds_read(round)),
    decreases round,
{
    let r = next_state(st);
    if round / 64 == 0 {
        assert(skip_steps(st, 1) == next_state(skip_steps(st, 0)).0);
    } else {
        let v1 = v * 256 + r.1;
        let v2 = if v1 >= max {
            v1 % max
        } else {
            v1
        };
        lemma_rounds_state(r.0, max, v2, round / 64);
        lemma_skip_after_one(st, rounds_read(round / 64));
    }
}

/// `nextInt(max)` reads one keystream byte, then one more for every six bits
/// of `max`: two bytes below 64, three below 4096, four below 2^18, five
/// below 2^24, six below 2^30 and seven above; the generator ends that many
/// steps on.
pub proof fn lemma_next_int_reads(st: (Seq<u8>, u32, u32), max: int)
    requires
        0 < max < 0x8000_0000,
    ensures
        next_int(st, max).0 == skip_steps(
            st,
            if max < 64 {
                2nat
            } else if max < 4096 {
                3nat
            } else if max < 0x40000 {
                4nat
            } else if max < 0x100_0000 {
                5nat
            } else if max < 0x4000_0000 {
                6nat
            } else {
                7nat
            },
        ),
{
    let r = next_state(st);
    lemma_rounds_state(r.0, max, r.1 as int, max as nat);
    reveal_with_fuel(rounds_read, 8);
    let n = rounds_read(max as nat);
    lemma_skip_after_one(st, n);
}

/// With `max` below 64, `nextInt(max)` is the first two keystream bytes, as
/// one big-endian number, modulo `max`.
pub proof fn lemma_next_int_two_bytes(st: (Seq<u8>, u32, u32), max: int)
    requires
        0 < max < 64,
    ensures
        next_int(st, max).1 == (keystream(st, 2)[0] * 256 + keystream(st, 2)[1]) % max,
{
    reveal_with_fuel(keystream, 3);
    reveal_with_fuel(skip_steps, 3);
    let v1 = keystream(st, 2)[0] * 256 + keystream(st, 2)[1];
    if v1 < max {
        vstd::arithmetic::div_mod::lemma_small_mod(v1 as nat, max as nat);
    }
}

/// With `max` from 64 to 4095, `nextInt(max)` takes the first two keystream
/// bytes modulo `max`, shifts in the third byte and reduces modulo `max` again.
pub proof fn lemma_next_int_three_bytes(st: (Seq<u8>, u32, u32), max: int)
    requires
        64 <= max < 4096,
    ensures
        next_int(st, max).1 == ((keystream(st, 3)[0] * 256 + keystream(st, 3)[1]) % max * 256
            + keystream(st, 3)[2]) % max,
{
    reveal_with_fuel(keystream, 4);
    reveal_with_fuel(skip_steps, 4);
    reveal_with_fuel(next_int_rounds, 3);
    let k = keystream(st, 3);
    let s0 = next_state(st);
    let s1 = next_state(s0.0);
    let s2 = next_state(s1.0);
    assert(k[0] == s0.1 && k[1] == s1.1 && k[2] == s2.1);
    let v1 = k[0] * 256 + k[1];
    let w1 = v1 % max;
    let v2 = w1 * 256 + k[2];
    assert(max / 64 != 0 && max / 64 / 64 == 0);
    assert(next_int_rounds(s0.0, max, s0.1 as int, max as nat) == next_int_rounds(
        s1.0,
        max,
        if v1 >= max {
            v1 % max
        } else {
            v1
        },
        (max / 64) as nat,
    ));
    if v1 < max {
        vstd::arithmetic::div_mod::lemma_small_mod(v1 as nat, max as nat);
    }
    if v2 < max {
        vstd::arithmetic::div_mod::lemma_small_mod(v2 as nat, max as nat);
    }
    assert(max / 64 / 64 == 0);
}

} // verus!
