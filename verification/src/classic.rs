//! The first version of the miner: its name computation, its settings and
//! the settings of its threads.
use vstd::prelude::*;
use vstd::utf8::encode_utf8;
use crate::median::spec_median;
use crate::perm::{
    identity256, ksa_pass, ksa_passes, zero_padded_key, cyclic_key, yields_base, base_value,
    identity_array, zero_padded_key_stream, cyclic_key_stream, mix_pass,
};
use crate::sort::{sorted_bytes, sort_ten, is_ascending, lemma_is_sorted_bytes};
use crate::text::{owned, split_once_char, split_once_spec};
use crate::decimal::{decimal, push_decimal};

verus! {

broadcast use {vstd::seq_lib::group_to_multiset_ensures, vstd::multiset::group_multiset_axioms};

/// The allowance added to a name's attribute total before it is compared.
pub const PROP_ALLOW: u32 = 10;

/// The middle of `x`, `y` and `z`: `max(min(x, y), min(max(x, y), z))`.
pub fn median(x: u8, y: u8, z: u8) -> (r: u8)
    ensures
        r == spec_median(x, y, z),
{
    let lo = if x < y {
        x
    } else {
        y
    };
    let hi = if x < y {
        y
    } else {
        x
    };
    let m = if hi < z {
        hi
    } else {
        z
    };
    if lo < m {
        m
    } else {
        lo
    }
}

/// The name and the team of `name@team`; without `@` the team is empty.
pub open spec fn classic_parts(raw: Seq<char>) -> (Seq<char>, Seq<char>) {
    match split_once_spec(raw, '@') {
        Some(parts) => parts,
        None => (raw, Seq::empty()),
    }
}

/// The permutation of a name: one schedule pass over the identity with the
/// name's bytes followed by zeros as key, then two passes with the name's
/// bytes repeated as key.
pub open spec fn classic_perm(name_bytes: Seq<u8>) -> Seq<u8> {
    ksa_passes(ksa_pass(identity256(), zero_padded_key(name_bytes)), cyclic_key(name_bytes), 2)
}

/// The base value of the last of the first `n` entries of `val` that yields
/// one, or 0 when none does.
pub open spec fn last_base(val: Seq<u8>, n: nat) -> u8
    decreases n,
{
    if n == 0 {
        0
    } else if yields_base(val[n - 1]) {
        base_value(val[n - 1])
    } else {
        last_base(val, (n - 1) as nat)
    }
}

/// The base values the first version keeps: every base value is written to
/// the first slot, so only the last remains; the other slots stay 0.
pub open spec fn classic_bases(val: Seq<u8>) -> Seq<u8> {
    seq![last_base(val, 256)] + Seq::new(127, |i: int| 0u8)
}

/// The attributes of the first version: slots 0 to 6 hold the median of base
/// values `10 + 3k` to `12 + 3k` plus 36; slot 7 holds 154 plus the 4th to 7th
/// smallest of the first ten base values.
pub open spec fn classic_props(nb: Seq<u8>) -> Seq<u8> {
    let s = sorted_bytes(nb.take(10));
    Seq::new(
        8,
        |k: int|
            if k < 7 {
                (spec_median(nb[10 + 3 * k], nb[11 + 3 * k], nb[12 + 3 * k]) + 36) as u8
            } else {
                (154 + s[3] + s[4] + s[5] + s[6]) as u8
            },
    )
}

/// A name of the first version with the values derived from it.
#[derive(Debug, Clone)]
pub struct Namer {
    pub name: String,
    pub team: String,
    pub val: [u8; 256],
    pub name_base: [u8; 128],
    pub name_bytes: [u8; 256],
    pub team_bytes: [u8; 256],
    pub name_prop: [u8; 8],
    pub skl_id: [u8; 40],
    pub skl_freq: [u8; 40],
}

/// The first ten base values of `classic_bases` in ascending order: nine
/// zeros, then the kept value.
proof fn lemma_classic_sorted(x: u8)
    ensures
        sorted_bytes((seq![x] + Seq::new(127, |i: int| 0u8)).take(10)) == Seq::new(
            9,
            |i: int| 0u8,
        ).push(x),
{
    let nb = seq![x] + Seq::new(127, |i: int| 0u8);
    let z9 = Seq::new(9, |i: int| 0u8);
    let t = z9.push(x);
    assert(nb.take(10) =~= seq![x] + z9);
    assert(t =~= z9 + seq![x]);
    vstd::seq_lib::lemma_multiset_commutative(seq![x], z9);
    vstd::seq_lib::lemma_multiset_commutative(z9, seq![x]);
    assert(is_ascending(t));
    lemma_is_sorted_bytes(nb.take(10), t);
}

/// Whatever the name, the first version gives attributes 36 in slots 0 to 6
/// and 154 in slot 7.
pub proof fn lemma_classic_props_constant(val: Seq<u8>)
    ensures
        classic_props(classic_bases(val)) == seq![36u8, 36u8, 36u8, 36u8, 36u8, 36u8, 36u8, 154u8],
{
    let x = last_base(val, 256);
    lemma_classic_sorted(x);
    let nb = classic_bases(val);
    assert(classic_props(nb) =~= seq![36u8, 36u8, 36u8, 36u8, 36u8, 36u8, 36u8, 154u8]);
}

/// Base values are below 64.
proof fn lemma_last_base_small(val: Seq<u8>, n: nat)
    ensures
        last_base(val, n) < 64,
    decreases n,
{
    if n > 0 {
        lemma_last_base_small(val, (n - 1) as nat);
    }
}

impl Namer {
    /// The name of `name@team` (without `@`, the team is empty), or `None`
    /// when the name or the team is longer than 255 bytes.
    #[verifier::spinoff_prover]
    pub fn new(raw_name: &String) -> (r: Option<Self>)
        requires
            ({
                let (name, team) = classic_parts(raw_name@);
                encode_utf8(name).len() > 0 || encode_utf8(team).len() > 255
            }),
        ensures
            ({
                let (name, team) = classic_parts(raw_name@);
                let nb = encode_utf8(name);
                let tb = encode_utf8(team);
                &&& r is None <==> (nb.len() > 255 || tb.len() > 255)
                &&& r matches Some(n) ==> {
                    &&& n.name@ == name
                    &&& n.team@ == team
                    &&& n.val@ == classic_perm(nb)
                    &&& n.name_base@ == classic_bases(n.val@)
                    &&& n.name_bytes@ == zero_padded_key(nb)
                    &&& n.team_bytes@ == zero_padded_key(tb)
                    &&& n.name_prop@ == classic_props(n.name_base@)
                    &&& n.skl_id@ == Seq::new(40, |i: int| 0u8)
                    &&& n.skl_freq@ == Seq::new(40, |i: int| 0u8)
                }
            }),
    {
        let raw = raw_name.as_str();
        let empty = "";
        proof {
            reveal_strlit("");
        }
        let (name, team) = match split_once_char(raw, '@') {
            Some(parts) => parts,
            None => (raw, empty),
        };
        if name.as_bytes().len() > 255 {
            return None;
        }
        if team.as_bytes().len() > 255 {
            return None;
        }
        let name_bytes = zero_padded_key_stream(name.as_bytes());
        let team_bytes = zero_padded_key_stream(team.as_bytes());
        let mut val = identity_array();
        mix_pass(&mut val, &name_bytes);
        let key = cyclic_key_stream(name.as_bytes());
        mix_pass(&mut val, &key);
        mix_pass(&mut val, &key);
        proof {
            reveal_with_fuel(ksa_passes, 3);
        }
        let mut name_base = [0u8; 128];
        for i in 0..256
            invariant
                name_base@ == seq![last_base(val@, i as nat)] + Seq::new(127, |k: int| 0u8),
        {
            let m = ((val[i] as u32 * 181 + 160) % 256) as u8;
            if m >= 89 && m < 217 {
                let b = m & 63;
                assert(b == m % 64) by (bit_vector)
                    requires
                        b == m & 63,
                ;
                name_base[0] = b;
            }
            proof {
                assert(name_base@ =~= seq![last_base(val@, (i + 1) as nat)] + Seq::new(
                    127,
                    |k: int| 0u8,
                ));
            }
        }
        let ghost nb = name_base@;
        proof {
            lemma_last_base_small(val@, 256);
            lemma_classic_sorted(last_base(val@, 256));
        }
        let mut r = [0u8; 10];
        for i in 0..10
            invariant
                name_base@ == nb,
                forall|k: int| 0 <= k < i ==> r@[k] == nb[k],
        {
            r[i] = name_base[i];
        }
        assert(r@ =~= nb.take(10));
        sort_ten(&mut r);
        let mut name_prop = [0u8; 8];
        for k in 0..7
            invariant
                name_base@ == nb,
                nb == classic_bases(val@),
                forall|j: int| 0 <= j < k ==> name_prop@[j] == spec_median(
                    nb[10 + 3 * j],
                    nb[11 + 3 * j],
                    nb[12 + 3 * j],
                ),
        {
            name_prop[k] = median(name_base[10 + 3 * k], name_base[11 + 3 * k], name_base[12 + 3 * k]);
        }
        name_prop[7] = 154;
        for i in 3..7
            invariant
                r@ == Seq::new(9, |k: int| 0u8).push(last_base(val@, 256)),
                name_prop@[7] == 154,
                forall|j: int| 0 <= j < 7 ==> name_prop@[j] == spec_median(
                    nb[10 + 3 * j],
                    nb[11 + 3 * j],
                    nb[12 + 3 * j],
                ),
        {
            name_prop[7] = name_prop[7] + r[i];
        }
        for i in 0..7
            invariant
                nb == classic_bases(val@),
                forall|j: int| 0 <= j < i ==> name_prop@[j] == spec_median(
                    nb[10 + 3 * j],
                    nb[11 + 3 * j],
                    nb[12 + 3 * j],
                ) + 36,
                forall|j: int| i <= j < 7 ==> name_prop@[j] == spec_median(
                    nb[10 + 3 * j],
                    nb[11 + 3 * j],
                    nb[12 + 3 * j],
                ),
                name_prop@[7] == 154,
        {
            name_prop[i] = name_prop[i] + 36;
        }
        proof {
            assert(name_prop@ =~= classic_props(nb));
        }
        Some(
            Namer {
                name: owned(name),
                team: owned(team),
                val,
                name_base,
                name_bytes,
                team_bytes,
                name_prop,
                skl_id: [0u8; 40],
                skl_freq: [0u8; 40],
            },
        )
    }

    /// The length of the name in bytes, plus one.
    pub fn name_len(&self) -> (r: usize)
        requires
            encode_utf8(self.name@).len() < usize::MAX,
        ensures
            r == encode_utf8(self.name@).len() + 1,
    {
        self.name.as_str().len() + 1
    }

    /// The length of the team in bytes, plus one.
    pub fn team_len(&self) -> (r: usize)
        requires
            encode_utf8(self.team@).len() < usize::MAX,
        ensures
            r == encode_utf8(self.team@).len() + 1,
    {
        self.team.as_str().len() + 1
    }
}

/// The attributes of a name of the first version and its attribute total
/// `property`: `HP|.. 攻|.. 防|.. 速|.. 敏|.. 魔|.. 抗|.. 智|.. 八围:P`.
pub open spec fn show_text(p: Seq<u8>, property: Seq<char>) -> Seq<char> {
    "HP|"@ + decimal(p[0] as nat) + " 攻|"@ + decimal(p[1] as nat) + " 防|"@ + decimal(p[2] as nat)
        + " 速|"@ + decimal(p[3] as nat) + " 敏|"@ + decimal(p[4] as nat) + " 魔|"@ + decimal(
        p[5] as nat,
    ) + " 抗|"@ + decimal(p[6] as nat) + " 智|"@ + decimal(p[7] as nat) + " 八围:"@ + property
}

/// The attributes of `namer` and the attribute total `property` as text.
pub fn show_name(namer: &Namer, property: &str) -> (r: String)
    ensures
        r@ == show_text(namer.name_prop@, property@),
{
    let mut r = String::new();
    r.append("HP|");
    push_decimal(&mut r, namer.name_prop[0] as u32);
    r.append(" 攻|");
    push_decimal(&mut r, namer.name_prop[1] as u32);
    r.append(" 防|");
    push_decimal(&mut r, namer.name_prop[2] as u32);
    r.append(" 速|");
    push_decimal(&mut r, namer.name_prop[3] as u32);
    r.append(" 敏|");
    push_decimal(&mut r, namer.name_prop[4] as u32);
    r.append(" 魔|");
    push_decimal(&mut r, namer.name_prop[5] as u32);
    r.append(" 抗|");
    push_decimal(&mut r, namer.name_prop[6] as u32);
    r.append(" 智|");
    push_decimal(&mut r, namer.name_prop[7] as u32);
    r.append(" 八围:");
    r.append(property);
    assert(r@ =~= show_text(namer.name_prop@, property@));
    r
}

/// The settings of one thread of the first version.
pub struct CacluateConfig {
    /// The first id.
    pub start: u64,
    /// The id after the last.
    pub end: u64,
    /// The number of threads.
    pub thread_count: u32,
    /// The attribute total a name must reach.
    pub prop_expect: u32,
    /// The allowance added to a name's total before it is compared.
    pub prop_allow: u32,
    /// The team.
    pub team: String,
    /// Seconds between status reports.
    pub report_interval: u64,
}

/// The settings the first version is started with.
pub struct Command {
    /// The first id.
    pub start: u64,
    /// The id after the last.
    pub end: u64,
    /// The number of threads.
    pub thread_count: u32,
    /// The attribute total a name must reach.
    pub prop_expect: u32,
    /// The team.
    pub team: String,
    /// Seconds between status reports.
    pub report_interval: u64,
}

impl Command {
    /// The settings of a thread: those of the command, with the allowance.
    pub fn as_cacl_config(&self) -> (r: CacluateConfig)
        ensures
            r.start == self.start,
            r.end == self.end,
            r.thread_count == self.thread_count,
            r.prop_expect == self.prop_expect,
            r.prop_allow == PROP_ALLOW,
            r.team@ == self.team@,
            r.report_interval == self.report_interval,
    {
        CacluateConfig {
            start: self.start,
            end: self.end,
            thread_count: self.thread_count,
            prop_expect: self.prop_expect,
            prop_allow: PROP_ALLOW,
            team: self.team.clone(),
            report_interval: self.report_interval,
        }
    }
}


/// The permutation of the first version is three schedule passes over the
/// identity: one keyed with the name's bytes followed by zeros, then two
/// keyed with the name's bytes repeated.
pub proof fn lemma_classic_perm_passes(name_bytes: Seq<u8>)
    ensures
        classic_perm(name_bytes) == ksa_pass(
            ksa_pass(
                ksa_pass(identity256(), zero_padded_key(name_bytes)),
                cyclic_key(name_bytes),
            ),
            cyclic_key(name_bytes),
        ),
{
    reveal_with_fuel(ksa_passes, 3);
}

} // verus!
