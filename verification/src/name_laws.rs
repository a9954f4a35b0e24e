//! What holds of every name: permutations stay permutations, a replaced
//! name agrees with a fresh one, and the attributes stay in their ranges.
use vstd::prelude::*;
use crate::median::spec_median;
use crate::name::{
    fresh_bases, is_fresh, levels_after, name_perm, props_of, screen_passes, screened_props,
    shuffle_state, skill_bases, skill_order, skill_update_ok, team_perm, trait_of, zeros,
};
use crate::perm::{
    base_count, capped_bases, identity256, is_perm256, lemma_identity_perm,
    lemma_ksa_passes_perm, lemma_ksa_prefix_perm, lemma_perm_base_count, lemma_prng_step_perm,
    lemma_swap_multiset, padded_key, prng_step,
};
use crate::sort::sorted_bytes;
use crate::perm::{base_hits, yields_base, base_value, lemma_perm_base_hits};
use crate::name::{last_doubled, skill_learnt};
use vstd::multiset::Multiset;

verus! {

broadcast use vstd::seq_lib::group_to_multiset_ensures;

/// The written prefix holds as many base values as were seen, up to the cap.
pub proof fn lemma_capped_len_min(val: Seq<u8>, n: nat, cap: nat)
    requires
        n <= val.len(),
    ensures
        capped_bases(val, n, cap).len() == if base_count(val.take(n as int)) < cap {
            base_count(val.take(n as int))
        } else {
            cap
        },
    decreases n,
{
    if n == 0 {
        assert(val.take(0) =~= Seq::<u8>::empty());
    } else {
        lemma_capped_len_min(val, (n - 1) as nat, cap);
        assert(val.take(n as int).drop_last() =~= val.take(n - 1));
    }
}

/// The permutation of a team is a permutation of the bytes.
pub proof fn lemma_team_perm_is_perm(team_bytes: Seq<u8>)
    ensures
        is_perm256(team_perm(team_bytes)),
{
    lemma_identity_perm();
    lemma_ksa_prefix_perm(identity256(), padded_key(team_bytes), 256);
}

/// The permutation of a name in a team is a permutation when the team's is.
pub proof fn lemma_name_perm_is_perm(team_val: Seq<u8>, name_bytes: Seq<u8>)
    requires
        is_perm256(team_val),
    ensures
        is_perm256(name_perm(team_val, name_bytes)),
{
    lemma_ksa_passes_perm(team_val, padded_key(name_bytes), 2);
}

/// The skill shuffle keeps the permutation a permutation and only reorders the skills.
pub proof fn lemma_shuffle_keeps_perm(val: Seq<u8>, ids: Seq<u8>, n: nat)
    requires
        is_perm256(val),
        ids.len() == 40,
    ensures
        is_perm256(shuffle_state(val, ids, n).0),
        shuffle_state(val, ids, n).4.to_multiset() =~= ids.to_multiset(),
        shuffle_state(val, ids, n).4.len() == 40,
        shuffle_state(val, ids, n).3 < 40,
    decreases n,
{
    reveal(shuffle_state);
    if n > 0 {
        lemma_shuffle_keeps_perm(val, ids, (n - 1) as nat);
        let st = shuffle_state(val, ids, (n - 1) as nat);
        lemma_prng_step_perm(st.0, st.1, st.2);
        let r1 = prng_step(st.0, st.1, st.2);
        lemma_prng_step_perm(r1.0, r1.1, r1.2);
        let r2 = prng_step(r1.0, r1.1, r1.2);
        let rnd = (r1.3 as int * 256 + r2.3 as int) % 40;
        let k = (n - 1) % 40;
        let s = ((st.3 + rnd + st.4[k]) % 40) as u8;
        lemma_swap_multiset(st.4, k, s as int);
    }
}

/// A fresh name holds a permutation and its skills can be updated; the
/// update keeps the permutation a permutation and leaves the skill order a
/// reordering of the 40 skills.
pub proof fn lemma_fresh_name_invariants(n: crate::name::Namer, team_val: Seq<u8>, team: Seq<char>, name: Seq<char>)
    requires
        is_perm256(team_val),
        is_fresh(n, team_val, team, name),
    ensures
        is_perm256(n.val@),
        skill_update_ok(n),
        is_perm256(shuffle_state(n.val@, skill_order(), 80).0),
        shuffle_state(n.val@, skill_order(), 80).4.to_multiset() =~= skill_order().to_multiset(),
{
    lemma_name_perm_is_perm(team_val, vstd::utf8::encode_utf8(name));
    lemma_perm_base_count(n.val@);
    lemma_shuffle_keeps_perm(n.val@, skill_order(), 80);
    let b = capped_bases(n.val@, 256, 31);
    lemma_capped_len_min(n.val@, 256, 31);
    assert(n.val@.take(256) =~= n.val@);
    crate::name::lemma_capped_below_64(n.val@, 256, 31);
    assert forall|k: int| 0 <= k < 128 implies n.name_base@[k] < 64 by {
        if k < b.len() {
            assert(n.name_base@[k] == b[k]);
        }
    }
}

/// Attributes depend on the first 31 base values only.
proof fn lemma_props_prefix(a: Seq<u8>, b: Seq<u8>)
    requires
        a.len() == 128,
        b.len() == 128,
        forall|k: int| 0 <= k < 31 ==> a[k] == b[k],
    ensures
        props_of(a) == props_of(b),
        screen_passes(a) == screen_passes(b),
{
    assert(a.take(10) =~= b.take(10));
    assert(props_of(a) =~= props_of(b));
}

/// Replacing the name of a name in a team and then updating the skills gives
/// what a fresh name of that team and name gives after its skill update: the
/// same permutation, base values and skill order, the same levels of the
/// sixteen skill slots, and, when the quick screen passes, the same
/// attributes.
pub proof fn lemma_replace_matches_fresh(
    team_val: Seq<u8>,
    name_bytes: Seq<u8>,
    old_nb: Seq<u8>,
    old_props: Seq<u32>,
    old_freq: Seq<u8>,
)
    requires
        is_perm256(team_val),
        old_nb.len() == 128,
        old_props.len() == 8,
        old_freq.len() == 40,
    ensures
        ({
            let v = name_perm(team_val, name_bytes);
            let written = capped_bases(v, 256, 31);
            let nb_r = written + old_nb.skip(written.len() as int);
            let nb_f = fresh_bases(v);
            let ids = shuffle_state(v, skill_order(), 80).4;
            &&& screen_passes(nb_r) == screen_passes(nb_f)
            &&& screen_passes(nb_r) ==> screened_props(old_props, nb_r) == props_of(nb_f)
            &&& skill_bases(v, nb_r) == skill_bases(v, nb_f)
            &&& forall|k: int|
                0 <= k < 16 ==> #[trigger] levels_after(old_freq, skill_bases(v, nb_r), ids)[k]
                    == levels_after(zeros(40), skill_bases(v, nb_f), ids)[k]
        }),
{
    let v = name_perm(team_val, name_bytes);
    lemma_name_perm_is_perm(team_val, name_bytes);
    lemma_perm_base_count(v);
    assert(v.take(256) =~= v);
    lemma_capped_len_min(v, 256, 31);
    lemma_capped_len_min(v, 256, 256);
    let written = capped_bases(v, 256, 31);
    let nb_r = written + old_nb.skip(written.len() as int);
    let nb_f = fresh_bases(v);
    assert(written.len() == 31);
    assert forall|k: int| 0 <= k < 31 implies nb_r[k] == nb_f[k] by {
        assert(nb_r[k] == written[k]);
        assert(nb_f[k] == written[k]);
    }
    lemma_props_prefix(nb_r, nb_f);
    let p = props_of(nb_r);
    if screen_passes(nb_r) {
        assert(screened_props(old_props, nb_r) =~= p);
    }
    let all = capped_bases(v, 256, 256);
    assert(all.len() == 128);
    assert(skill_bases(v, nb_r) =~= all);
    assert(skill_bases(v, nb_f) =~= all);
    let ids = shuffle_state(v, skill_order(), 80).4;
    let nb = skill_bases(v, nb_r);
    assert forall|k: int| 0 <= k < 16 implies #[trigger] levels_after(old_freq, nb, ids)[k]
        == levels_after(zeros(40), nb, ids)[k] by {
        let f1 = Seq::new(
            40,
            |i: int| if i < 16 { crate::name::raw_level(nb, ids, i) } else { old_freq[i] },
        );
        let f2 = Seq::new(
            40,
            |i: int| if i < 16 { crate::name::raw_level(nb, ids, i) } else { zeros(40)[i] },
        );
        crate::name::lemma_last_doubled_small(nb, ids, 16);
        let last = crate::name::last_doubled(nb, ids, 16);
        assert(f1[k] == f2[k]);
        assert(f1[14] == f2[14] && f1[15] == f2[15]);
        if last >= 0 {
            assert(f1[last] == f2[last]);
        }
    }
}

/// With base values below 64, hit points lie in 154..=406 and the other
/// attributes in 36..=99.
pub proof fn lemma_props_ranges(nb: Seq<u8>)
    requires
        nb.len() == 128,
        forall|k: int| 0 <= k < 128 ==> nb[k] < 64,
    ensures
        154 <= props_of(nb)[0] <= 406,
        forall|k: int| 1 <= k < 8 ==> 36 <= #[trigger] props_of(nb)[k] <= 99,
{
    let t = nb.take(10);
    crate::sort::lemma_sorted_bytes_bounded(t, 64);
    let s = sorted_bytes(t);
    assert(s.len() == 10);
    assert(s[3] < 64 && s[4] < 64 && s[5] < 64 && s[6] < 64);
    assert forall|k: int| 1 <= k < 8 implies 36 <= #[trigger] props_of(nb)[k] <= 99 by {
        assert(props_of(nb)[k] == trait_of(nb, k));
        let m = spec_median(nb[3 * k + 7], nb[3 * k + 8], nb[3 * k + 9]);
        assert(m < 64);
    }
}


/// Without a binding cap, the written base values hold `x` as often as the
/// scanned entries yield it.
proof fn lemma_capped_hits(val: Seq<u8>, n: nat, cap: nat, x: u8)
    requires
        n <= cap,
        n <= val.len(),
    ensures
        capped_bases(val, n, cap).to_multiset().count(x) == base_hits(val.take(n as int), x),
    decreases n,
{
    if n == 0 {
        assert(val.take(0) =~= Seq::<u8>::empty());
        assert(capped_bases(val, 0, cap).to_multiset() =~= Multiset::empty());
    } else {
        lemma_capped_hits(val, (n - 1) as nat, cap, x);
        crate::name::lemma_capped_len(val, (n - 1) as nat, cap);
        assert(val.take(n as int).drop_last() =~= val.take(n - 1));
        let p = capped_bases(val, (n - 1) as nat, cap);
        let v = val[n - 1];
        if yields_base(v) {
            assert(p.push(base_value(v)).to_multiset() =~= p.to_multiset().insert(base_value(v)));
        }
    }
}

/// The last doubled slot is a learnt one.
proof fn lemma_last_doubled_learnt(nb: Seq<u8>, ids: Seq<u8>, n: nat)
    ensures
        last_doubled(nb, ids, n) >= 0 ==> skill_learnt(nb, ids, last_doubled(nb, ids, n)),
    decreases n,
{
    if n > 0 {
        lemma_last_doubled_learnt(nb, ids, (n - 1) as nat);
    }
}

/// After the skill update of a name whose permutation is a permutation of
/// the bytes: the 128 base values hold each value below 64 exactly twice;
/// a slot among the first 16 whose skill is one of the last five (35 to 39)
/// has level 0; and the levels of slots 16 to 39 are left as they were.
pub proof fn lemma_skill_update_facts(val: Seq<u8>, old_nb: Seq<u8>, old_freq: Seq<u8>, x: u8)
    requires
        is_perm256(val),
        old_nb.len() == 128,
        old_freq.len() == 40,
        x < 64,
    ensures
        ({
            let nb = skill_bases(val, old_nb);
            let ids = shuffle_state(val, skill_order(), 80).4;
            let f = levels_after(old_freq, nb, ids);
            &&& nb.len() == 128
            &&& nb.to_multiset().count(x) == 2
            &&& forall|j: int| 0 <= j < 16 && ids[j] >= 35 ==> #[trigger] f[j] == 0
            &&& forall|j: int| 16 <= j < 40 ==> #[trigger] f[j] == old_freq[j]
        }),
{
    lemma_perm_base_count(val);
    assert(val.take(256) =~= val);
    lemma_capped_len_min(val, 256, 256);
    let all = capped_bases(val, 256, 256);
    assert(skill_bases(val, old_nb) =~= all);
    lemma_capped_hits(val, 256, 256, x);
    lemma_perm_base_hits(val, x);
    let nb = all;
    let ids = shuffle_state(val, skill_order(), 80).4;
    lemma_last_doubled_learnt(nb, ids, 16);
    crate::name::lemma_last_doubled_small(nb, ids, 16);
}


/// The smaller of two bytes.
pub open spec fn smaller(a: u8, b: u8) -> u8 {
    if a <= b {
        a
    } else {
        b
    }
}

/// The smallest of the four base values `64 + 4j` to `67 + 4j` of skill slot `j`.
pub open spec fn slot_min(nb: Seq<u8>, j: int) -> u8 {
    smaller(smaller(nb[64 + 4 * j], nb[65 + 4 * j]), smaller(nb[66 + 4 * j], nb[67 + 4 * j]))
}

/// The level skill slot `j` starts from: its smallest base value less 10
/// when that exceeds 10 and its skill is one of the first 35, else 0.
pub open spec fn slot_level(nb: Seq<u8>, ids: Seq<u8>, j: int) -> u8 {
    if slot_min(nb, j) > 10 && ids[j] < 35 {
        (slot_min(nb, j) - 10) as u8
    } else {
        0
    }
}

/// Skill slot `j` may be doubled: it has a level and its smallest base value is below 35.
pub open spec fn may_double(nb: Seq<u8>, ids: Seq<u8>, j: int) -> bool {
    slot_min(nb, j) > 10 && ids[j] < 35 && slot_min(nb, j) < 35
}

/// Skill slot `j` is the one doubled: the last of the first 16 slots that may be.
pub open spec fn is_doubled(nb: Seq<u8>, ids: Seq<u8>, j: int) -> bool {
    may_double(nb, ids, j) && forall|i: int| j < i < 16 ==> !may_double(nb, ids, i)
}

/// The last doubled slot among the first `n` is the last that may be doubled.
proof fn lemma_last_doubled_is_last(nb: Seq<u8>, ids: Seq<u8>, n: nat)
    requires
        n <= 16,
    ensures
        last_doubled(nb, ids, n) >= 0 ==> may_double(nb, ids, last_doubled(nb, ids, n)) && forall|
            i: int,
        | last_doubled(nb, ids, n) < i < n ==> !may_double(nb, ids, i),
        last_doubled(nb, ids, n) < 0 ==> forall|i: int| 0 <= i < n ==> !may_double(nb, ids, i),
    decreases n,
{
    if n > 0 {
        lemma_last_doubled_is_last(nb, ids, (n - 1) as nat);
        crate::name::lemma_last_doubled_small(nb, ids, (n - 1) as nat);
    }
}

/// The levels of the skill slots after the skill update, from the base
/// values `nb`, the shuffled skills `ids` and the levels before `old`:
/// - slots 16 to 39 keep their levels;
/// - the doubled slot (the last of the first 16 that may be doubled) gets
///   twice its starting level;
/// - every other slot among 0 to 13 gets its starting level;
/// - slot 14, unless doubled, gets its starting level plus the smaller of
///   that level and of base values 60 and 61; slot 15, unless doubled, its
///   starting level plus the smaller of that level and of base values 62 and 63.
pub proof fn lemma_skill_levels_rule(old: Seq<u8>, nb: Seq<u8>, ids: Seq<u8>)
    requires
        old.len() == 40,
        nb.len() == 128,
        ids.len() == 40,
        forall|k: int| 0 <= k < 128 ==> nb[k] < 64,
    ensures
        ({
            let f = levels_after(old, nb, ids);
            &&& f.len() == 40
            &&& forall|k: int| 16 <= k < 40 ==> #[trigger] f[k] == old[k]
            &&& forall|j: int|
                0 <= j < 16 && is_doubled(nb, ids, j) ==> #[trigger] f[j] == 2 * slot_level(
                    nb,
                    ids,
                    j,
                )
            &&& forall|j: int|
                0 <= j < 14 && !is_doubled(nb, ids, j) ==> #[trigger] f[j] == slot_level(nb, ids, j)
            &&& !is_doubled(nb, ids, 14) ==> f[14] == slot_level(nb, ids, 14) + smaller(
                smaller(nb[60], nb[61]),
                slot_level(nb, ids, 14),
            )
            &&& !is_doubled(nb, ids, 15) ==> f[15] == slot_level(nb, ids, 15) + smaller(
                smaller(nb[62], nb[63]),
                slot_level(nb, ids, 15),
            )
        }),
{
    lemma_last_doubled_is_last(nb, ids, 16);
    crate::name::lemma_last_doubled_small(nb, ids, 16);
    let last = last_doubled(nb, ids, 16);
    assert forall|j: int| 0 <= j < 16 implies is_doubled(nb, ids, j) == (j == last) by {
        if j == last {
        } else if is_doubled(nb, ids, j) {
            if last < j {
                if last >= 0 {
                } else {
                }
            } else {
                assert(may_double(nb, ids, last));
            }
        }
    }
    assert forall|j: int| 0 <= j < 16 implies slot_level(nb, ids, j) == crate::name::raw_level(
        nb,
        ids,
        j,
    ) && slot_level(nb, ids, j) <= 53 by {
        assert(nb[64 + 4 * j] < 64);
    }
}

} // verus!
