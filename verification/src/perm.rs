//! The byte permutations behind names and the battle stream cipher:
//! the key schedule pass, the pseudo random byte step, and the filter
//! that turns a permutation into the base values of a name.
use vstd::prelude::*;
use vstd::seq_lib::*;
use vstd::multiset::*;

verus! {

broadcast use {vstd::seq_lib::group_to_multiset_ensures, vstd::multiset::group_multiset_axioms};

/// The bytes 0, 1, ..., 255 in order.
pub open spec fn identity256() -> Seq<u8> {
    Seq::new(256, |i: int| i as u8)
}

/// `s` with the entries at `a` and `b` exchanged.
pub open spec fn swap_seq<T>(s: Seq<T>, a: int, b: int) -> Seq<T> {
    s.update(a, s[b]).update(b, s[a])
}

/// `s` holds each byte value exactly once.
pub open spec fn is_perm256(s: Seq<u8>) -> bool {
    &&& s.len() == 256
    &&& s.to_multiset() =~= identity256().to_multiset()
}

/// The state (permutation and running index) after the first `n` steps of one
/// key schedule pass over `val` that draws the key byte of step `x` from `key[x]`.
pub open spec fn ksa_prefix(val: Seq<u8>, key: Seq<u8>, n: nat) -> (Seq<u8>, u8)
    decreases n,
{
    if n == 0 {
        (val, 0u8)
    } else {
        let prev = ksa_prefix(val, key, (n - 1) as nat);
        let v = prev.0;
        let s = ((prev.1 + key[n - 1] + v[n - 1]) % 256) as u8;
        (swap_seq(v, n - 1, s as int), s)
    }
}

/// One full pass of the key schedule: 256 steps, starting with index 0.
pub open spec fn ksa_pass(val: Seq<u8>, key: Seq<u8>) -> Seq<u8> {
    ksa_prefix(val, key, 256).0
}

/// The key stream of the name schedule: a zero byte followed by the bytes
/// of `bytes`, repeated until 256 bytes are drawn.
pub open spec fn padded_key(bytes: Seq<u8>) -> Seq<u8> {
    Seq::new(
        256,
        |x: int|
            if x % (bytes.len() as int + 1) == 0 {
                0u8
            } else {
                bytes[x % (bytes.len() as int + 1) - 1]
            },
    )
}

/// The key stream that repeats `bytes` until 256 bytes are drawn.
pub open spec fn cyclic_key(bytes: Seq<u8>) -> Seq<u8> {
    Seq::new(256, |x: int| bytes[x % (bytes.len() as int)])
}

/// The key stream made of `bytes` followed by zero bytes, 256 in all.
pub open spec fn zero_padded_key(bytes: Seq<u8>) -> Seq<u8> {
    Seq::new(256, |x: int| if x < bytes.len() { bytes[x] } else { 0u8 })
}

/// `r` key schedule passes over `val` with the key stream `key`.
pub open spec fn ksa_passes(val: Seq<u8>, key: Seq<u8>, r: nat) -> Seq<u8>
    decreases r,
{
    if r == 0 {
        val
    } else {
        ksa_pass(ksa_passes(val, key, (r - 1) as nat), key)
    }
}

/// One step of the pseudo random generator over the permutation `s` with the
/// indices `i` and `j`: the new permutation, indices and the output byte.
pub open spec fn prng_step(s: Seq<u8>, i: u8, j: u8) -> (Seq<u8>, u8, u8, u8) {
    let i1 = ((i + 1) % 256) as u8;
    let j1 = ((j + s[i1 as int]) % 256) as u8;
    let s1 = swap_seq(s, i1 as int, j1 as int);
    (s1, i1, j1, s1[((s1[i1 as int] + s1[j1 as int]) % 256) as int])
}

/// The value `(181 * v + 160) mod 256` from which a base value is taken.
pub open spec fn mix(v: u8) -> u8 {
    ((v * 181 + 160) % 256) as u8
}

/// A permutation entry yields a base value when its mixed value lies in 89..=216.
pub open spec fn yields_base(v: u8) -> bool {
    89 <= mix(v) && mix(v) < 217
}

/// The base value of an entry: the low six bits of its mixed value.
pub open spec fn base_value(v: u8) -> u8 {
    (mix(v) % 64) as u8
}

/// The base values of the first `n` entries of `val` that yield one, in
/// order, at most `cap` of them.
pub open spec fn capped_bases(val: Seq<u8>, n: nat, cap: nat) -> Seq<u8>
    decreases n,
{
    if n == 0 {
        Seq::empty()
    } else {
        let p = capped_bases(val, (n - 1) as nat, cap);
        if p.len() < cap && yields_base(val[n - 1]) {
            p.push(base_value(val[n - 1]))
        } else {
            p
        }
    }
}

/// The number of entries of `s` that yield a base value.
pub open spec fn base_count(s: Seq<u8>) -> nat
    decreases s.len(),
{
    if s.len() == 0 {
        0
    } else {
        base_count(s.drop_last()) + if yields_base(s.last()) {
            1nat
        } else {
            0nat
        }
    }
}

/// The base values of all entries of `val` that yield one, in order.
pub open spec fn all_bases(val: Seq<u8>) -> Seq<u8> {
    capped_bases(val, val.len(), val.len())
}

pub proof fn lemma_swap_multiset<T>(s: Seq<T>, a: int, b: int)
    requires
        0 <= a < s.len(),
        0 <= b < s.len(),
    ensures
        swap_seq(s, a, b).to_multiset() =~= s.to_multiset(),
        swap_seq(s, a, b).len() == s.len(),
{
    if a == b {
        assert(swap_seq(s, a, b) =~= s);
    } else {
        let s1 = s.update(a, s[b]);
        assert(s1[b] == s[b]);
        let m = s.to_multiset();
        assert(s1.to_multiset() == m.insert(s[b]).remove(s[a]));
        assert(swap_seq(s, a, b).to_multiset() == s1.to_multiset().insert(s[a]).remove(s1[b]));
        assert(m.count(s[a]) > 0) by {
            assert(s.contains(s[a]));
        }
        assert(swap_seq(s, a, b).to_multiset() =~= m);
    }
}

pub proof fn lemma_swap_perm(s: Seq<u8>, a: int, b: int)
    requires
        is_perm256(s),
        0 <= a < 256,
        0 <= b < 256,
    ensures
        is_perm256(swap_seq(s, a, b)),
{
    lemma_swap_multiset(s, a, b);
}

pub proof fn lemma_ksa_prefix_perm(val: Seq<u8>, key: Seq<u8>, n: nat)
    requires
        is_perm256(val),
        key.len() == 256,
        n <= 256,
    ensures
        is_perm256(ksa_prefix(val, key, n).0),
    decreases n,
{
    if n > 0 {
        lemma_ksa_prefix_perm(val, key, (n - 1) as nat);
        let prev = ksa_prefix(val, key, (n - 1) as nat);
        let s = ((prev.1 + key[n - 1] + prev.0[n - 1]) % 256) as u8;
        lemma_swap_perm(prev.0, n - 1, s as int);
    }
}

pub proof fn lemma_ksa_passes_perm(val: Seq<u8>, key: Seq<u8>, r: nat)
    requires
        is_perm256(val),
        key.len() == 256,
    ensures
        is_perm256(ksa_passes(val, key, r)),
    decreases r,
{
    if r > 0 {
        lemma_ksa_passes_perm(val, key, (r - 1) as nat);
        lemma_ksa_prefix_perm(ksa_passes(val, key, (r - 1) as nat), key, 256);
    }
}

pub proof fn lemma_prng_step_perm(s: Seq<u8>, i: u8, j: u8)
    requires
        is_perm256(s),
    ensures
        is_perm256(prng_step(s, i, j).0),
{
    let i1 = ((i + 1) % 256) as u8;
    let j1 = ((j + s[i1 as int]) % 256) as u8;
    lemma_swap_perm(s, i1 as int, j1 as int);
}

pub proof fn lemma_identity_perm()
    ensures
        is_perm256(identity256()),
{
}

/// Removing the entry at `k` removes its contribution to the count.
proof fn lemma_base_count_remove(t: Seq<u8>, k: int)
    requires
        0 <= k < t.len(),
    ensures
        base_count(t) == base_count(t.remove(k)) + if yields_base(t[k]) {
            1nat
        } else {
            0nat
        },
    decreases t.len(),
{
    if k == t.len() - 1 {
        assert(t.remove(k) =~= t.drop_last());
    } else {
        let r = t.remove(k);
        assert(r.drop_last() =~= t.drop_last().remove(k));
        assert(r.last() == t.last());
        lemma_base_count_remove(t.drop_last(), k);
    }
}

/// Sequences with the same elements have the same count.
pub proof fn lemma_base_count_multiset(s: Seq<u8>, t: Seq<u8>)
    requires
        s.to_multiset() =~= t.to_multiset(),
    ensures
        base_count(s) == base_count(t),
    decreases s.len(),
{
    if s.len() == 0 {
        assert(t.to_multiset().len() == 0);
        assert(t.len() == 0);
    } else {
        let x = s.last();
        assert(s.contains(x)) by {
            assert(s[s.len() - 1] == x);
        }
        assert(s.to_multiset().count(x) > 0);
        assert(t.contains(x));
        let k = choose|k: int| 0 <= k < t.len() && t[k] == x;
        assert(s.drop_last() =~= s.remove(s.len() - 1));
        assert(s.drop_last().to_multiset() =~= s.to_multiset().remove(x));
        assert(t.remove(k).to_multiset() =~= t.to_multiset().remove(x));
        lemma_base_count_multiset(s.drop_last(), t.remove(k));
        lemma_base_count_remove(t, k);
    }
}

proof fn lemma_base_count_push(s: Seq<u8>, x: u8)
    ensures
        base_count(s.push(x)) == base_count(s) + if yields_base(x) {
            1nat
        } else {
            0nat
        },
{
    assert(s.push(x).drop_last() =~= s);
}

pub proof fn lemma_base_count_concat(a: Seq<u8>, b: Seq<u8>)
    ensures
        base_count(a + b) == base_count(a) + base_count(b),
    decreases b.len(),
{
    if b.len() == 0 {
        assert(a + b =~= a);
    } else {
        lemma_base_count_concat(a, b.drop_last());
        assert((a + b).drop_last() =~= a + b.drop_last());
        assert((a + b).last() == b.last());
    }
}

/// Entries 128 apart have mixed values 128 apart, so exactly one of them
/// yields a base value.
proof fn lemma_half_turn(v: u8)
    requires
        v < 128,
    ensures
        yields_base(v) != yields_base((v + 128) as u8),
{
    let x = v * 181 + 160;
    assert((v + 128) * 181 + 160 == x + 90 * 256 + 128);
    assert((x + 90 * 256 + 128) % 256 == (x % 256 + 128) % 256) by (nonlinear_arith)
        requires
            x >= 0,
    ;
}

proof fn lemma_halves_count(n: nat)
    requires
        n <= 128,
    ensures
        base_count(Seq::new(128, |i: int| i as u8).take(n as int)) + base_count(
            Seq::new(128, |i: int| (i + 128) as u8).take(n as int),
        ) == n,
    decreases n,
{
    let lo = Seq::new(128, |i: int| i as u8);
    let hi = Seq::new(128, |i: int| (i + 128) as u8);
    if n == 0 {
        assert(lo.take(0) =~= Seq::<u8>::empty());
        assert(hi.take(0) =~= Seq::<u8>::empty());
    } else {
        lemma_halves_count((n - 1) as nat);
        assert(lo.take(n as int) =~= lo.take(n - 1).push(lo[n - 1]));
        assert(hi.take(n as int) =~= hi.take(n - 1).push(hi[n - 1]));
        lemma_base_count_push(lo.take(n - 1), lo[n - 1]);
        lemma_base_count_push(hi.take(n - 1), hi[n - 1]);
        lemma_half_turn(lo[n - 1]);
    }
}

proof fn lemma_base_count_identity()
    ensures
        base_count(identity256()) == 128,
{
    let lo = Seq::new(128, |i: int| i as u8);
    let hi = Seq::new(128, |i: int| (i + 128) as u8);
    lemma_halves_count(128);
    assert(lo.take(128) =~= lo);
    assert(hi.take(128) =~= hi);
    assert(identity256() =~= lo + hi);
    lemma_base_count_concat(lo, hi);
}

/// A permutation of the bytes yields exactly 128 base values.
pub proof fn lemma_perm_base_count(s: Seq<u8>)
    requires
        is_perm256(s),
    ensures
        base_count(s) == 128,
{
    lemma_base_count_multiset(s, identity256());
    lemma_base_count_identity();
}


/// The entry whose mixed value is `m` (157 undoes the factor 181 modulo 256).
pub open spec fn unmix(m: u8) -> u8 {
    (((m as u32 + 96) * 157) % 256) as u8
}

/// Besides `x + 128`, the mixed value in 89..=216 whose low six bits are `x`
/// (below 64): `x + 192` when `x` is below 25, else `x + 64`.
pub open spec fn other_mixed(x: u8) -> u8 {
    if x < 25 {
        (x + 192) as u8
    } else {
        (x + 64) as u8
    }
}

/// An entry yields the base value `x` (below 64) exactly when it is one of
/// two distinct entries: those whose mixed values are the two mixed values
/// in range with low bits `x`.
pub proof fn lemma_yields_x_iff(v: u8, x: u8)
    requires
        x < 64,
    ensures
        (yields_base(v) && base_value(v) == x) <==> (v == unmix((x + 128) as u8) || v == unmix(
            other_mixed(x),
        )),
        unmix((x + 128) as u8) != unmix(other_mixed(x)),
{
    let m = ((v as u32 * 181 + 160) % 256) as u8;
    let a = unmix((x + 128) as u8);
    let b = unmix(other_mixed(x));
    let c = other_mixed(x);
    assert(m == mix(v));
    assert((89 <= m && m < 217 && m % 64 == x) <==> (v == a || v == b)) by (bit_vector)
        requires
            x < 64,
            m == ((v as u32 * 181 + 160) % 256) as u8,
            a == (((((x + 128) as u8) as u32 + 96) * 157) % 256) as u8,
            c == (if x < 25 {
                (x + 192) as u8
            } else {
                (x + 64) as u8
            }),
            b == (((c as u32 + 96) * 157) % 256) as u8,
    ;
    assert(a != b) by (bit_vector)
        requires
            x < 64,
            a == (((((x + 128) as u8) as u32 + 96) * 157) % 256) as u8,
            c == (if x < 25 {
                (x + 192) as u8
            } else {
                (x + 64) as u8
            }),
            b == (((c as u32 + 96) * 157) % 256) as u8,
    ;
}


/// The number of entries of `s` that yield the base value `x`.
pub open spec fn base_hits(s: Seq<u8>, x: u8) -> nat
    decreases s.len(),
{
    if s.len() == 0 {
        0
    } else {
        base_hits(s.drop_last(), x) + if yields_base(s.last()) && base_value(s.last()) == x {
            1nat
        } else {
            0nat
        }
    }
}

/// The entries yielding `x` are the occurrences of its two entries.
proof fn lemma_base_hits_count(s: Seq<u8>, x: u8)
    requires
        x < 64,
    ensures
        base_hits(s, x) == s.to_multiset().count(unmix((x + 128) as u8)) + s.to_multiset().count(
            unmix(other_mixed(x)),
        ),
    decreases s.len(),
{
    if s.len() == 0 {
        assert(s.to_multiset() =~= Multiset::empty());
    } else {
        lemma_base_hits_count(s.drop_last(), x);
        lemma_yields_x_iff(s.last(), x);
        assert(s =~= s.drop_last().push(s.last()));
        assert(s.to_multiset() =~= s.drop_last().to_multiset().insert(s.last()));
    }
}

/// Each byte occurs once in the identity.
proof fn lemma_identity_count(a: u8)
    ensures
        identity256().to_multiset().count(a) == 1,
{
    let s = identity256();
    assert forall|i: int, j: int| 0 <= i < s.len() && 0 <= j < s.len() && i != j implies s[i]
        != s[j] by {
        assert(s[i] == i as u8);
        assert(s[j] == j as u8);
    }
    s.lemma_multiset_has_no_duplicates();
    assert(s[a as int] == a);
    assert(s.contains(a));
}

/// In a permutation of the bytes, each base value below 64 is yielded by
/// exactly two entries.
pub proof fn lemma_perm_base_hits(s: Seq<u8>, x: u8)
    requires
        is_perm256(s),
        x < 64,
    ensures
        base_hits(s, x) == 2,
{
    lemma_base_hits_count(s, x);
    lemma_identity_count(unmix((x + 128) as u8));
    lemma_identity_count(unmix(other_mixed(x)));
}

} // verus!

verus! {

/// Stepping a counter modulo `m`.
pub proof fn lemma_mod_step(a: int, m: int)
    requires
        a >= 0,
        m > 0,
    ensures
        (a + 1) % m == if a % m == m - 1 {
            0
        } else {
            a % m + 1
        },
{
    vstd::arithmetic::div_mod::lemma_fundamental_div_mod(a, m);
    vstd::arithmetic::div_mod::lemma_fundamental_div_mod(a + 1, m);
    let q = a / m;
    let r = a % m;
    if r == m - 1 {
        vstd::arithmetic::div_mod::lemma_mod_multiples_basic(q + 1, m);
        assert(a + 1 == (q + 1) * m) by (nonlinear_arith)
            requires
                a == m * q + r,
                r == m - 1,
        ;
    } else {
        assert(a + 1 == m * q + (r + 1));
        vstd::arithmetic::div_mod::lemma_mod_add_multiples_vanish(r + 1, m);
        vstd::arithmetic::div_mod::lemma_small_mod((r + 1) as nat, m as nat);
        vstd::arithmetic::div_mod::lemma_mod_multiples_vanish(q, r + 1, m);
    }
}

/// Exchanges the entries at `i` and `j`.
pub fn swap_bytes<const N: usize>(a: &mut [u8; N], i: usize, j: usize)
    requires
        i < N,
        j < N,
    ensures
        final(a)@ == swap_seq(old(a)@, i as int, j as int),
{
    let t = a[i];
    a[i] = a[j];
    a[j] = t;
    assert(a@ =~= swap_seq(old(a)@, i as int, j as int));
}

/// The bytes 0, 1, ..., 255 in order.
pub fn identity_array() -> (r: [u8; 256])
    ensures
        r@ == identity256(),
{
    let mut r = [0u8; 256];
    for i in 0..256
        invariant
            forall|k: int| 0 <= k < i ==> r@[k] == k as u8,
    {
        r[i] = i as u8;
    }
    assert(r@ =~= identity256());
    r
}

/// The key stream `padded_key(bytes)`: a zero followed by `bytes`, repeated.
pub fn padded_key_stream(bytes: &[u8]) -> (r: [u8; 256])
    ensures
        r@ == padded_key(bytes@),
{
    let len = bytes.len();
    let mut r = [0u8; 256];
    let mut k: usize = 0;
    for i in 0..256
        invariant
            len == bytes@.len(),
            k as int == i as int % (len as int + 1),
            forall|x: int| 0 <= x < i ==> r@[x] == padded_key(bytes@)[x],
    {
        r[i] = if k == 0 {
            0u8
        } else {
            bytes[k - 1]
        };
        proof {
            lemma_mod_step(i as int, len as int + 1);
        }
        k = if k == len {
            0
        } else {
            k + 1
        };
    }
    assert(r@ =~= padded_key(bytes@));
    r
}

/// The key stream `cyclic_key(bytes)`: `bytes` repeated.
pub fn cyclic_key_stream(bytes: &[u8]) -> (r: [u8; 256])
    requires
        bytes@.len() > 0,
    ensures
        r@ == cyclic_key(bytes@),
{
    let len = bytes.len();
    let mut r = [0u8; 256];
    for i in 0..256
        invariant
            len == bytes@.len(),
            len > 0,
            forall|x: int| 0 <= x < i ==> r@[x] == cyclic_key(bytes@)[x],
    {
        r[i] = bytes[i % len];
    }
    assert(r@ =~= cyclic_key(bytes@));
    r
}

/// The key stream `zero_padded_key(bytes)`: `bytes` followed by zeros.
pub fn zero_padded_key_stream(bytes: &[u8]) -> (r: [u8; 256])
    ensures
        r@ == zero_padded_key(bytes@),
{
    let len = bytes.len();
    let mut r = [0u8; 256];
    for i in 0..256
        invariant
            len == bytes@.len(),
            forall|x: int| 0 <= x < i ==> r@[x] == zero_padded_key(bytes@)[x],
            forall|x: int| i <= x < 256 ==> r@[x] == 0,
    {
        if i < len {
            r[i] = bytes[i];
        }
    }
    assert(r@ =~= zero_padded_key(bytes@));
    r
}

/// One key schedule pass over `val` with the key stream `key`.
pub fn mix_pass(val: &mut [u8; 256], key: &[u8; 256])
    ensures
        final(val)@ == ksa_pass(old(val)@, key@),
{
    let ghost start = val@;
    let mut s: u8 = 0;
    for i in 0..256
        invariant
            key@.len() == 256,
            (val@, s) == ksa_prefix(start, key@, i as nat),
    {
        s = ((s as u16 + key[i] as u16 + val[i] as u16) % 256) as u8;
        swap_bytes(val, i, s as usize);
    }
}

} // verus!
