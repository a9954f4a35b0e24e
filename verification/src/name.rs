//! Names and teams: the permutation a team and a name produce, the base
//! values, the eight attributes and the skills derived from it.
use vstd::prelude::*;
use vstd::string::*;
use vstd::utf8::*;
use crate::median::{median, spec_median};
use crate::perm::{
    identity256, swap_seq, is_perm256, ksa_pass, ksa_passes, padded_key, capped_bases,
    base_count, prng_step, lemma_identity_perm, lemma_ksa_prefix_perm, identity_array,
    padded_key_stream, mix_pass, swap_bytes,
};
use crate::sort::{sorted_bytes, sort_ten};
use crate::text::{owned, split_once_char, split_once_spec};
use crate::decimal::{decimal, push_decimal};

verus! {

broadcast use vstd::seq_lib::group_to_multiset_ensures;

/// Longest team or name (in bytes) that the checked constructors accept.
pub const MAX_NAME_BYTES: usize = 256;

/// The permutation of a team: one schedule pass over the identity with the
/// team's bytes behind a zero byte as key.
pub open spec fn team_perm(team_bytes: Seq<u8>) -> Seq<u8> {
    ksa_pass(identity256(), padded_key(team_bytes))
}

/// The permutation of a name in a team: two schedule passes over the team's
/// permutation with the name's bytes behind a zero byte as key.
pub open spec fn name_perm(team_val: Seq<u8>, name_bytes: Seq<u8>) -> Seq<u8> {
    ksa_passes(team_val, padded_key(name_bytes), 2)
}

/// The 128 base values right after construction: the first 31 base values of
/// the permutation, then zeros.
pub open spec fn fresh_bases(val: Seq<u8>) -> Seq<u8> {
    let b = capped_bases(val, 256, 31);
    b + Seq::new((128 - b.len()) as nat, |i: int| 0u8)
}

/// Hit points: 154 plus the 4th to 7th smallest of the first ten base values.
pub open spec fn hp_of(nb: Seq<u8>) -> u32 {
    let s = sorted_bytes(nb.take(10));
    (154 + s[3] + s[4] + s[5] + s[6]) as u32
}

/// Attribute `k` (1 to 7): the median of base values `3k + 7` to `3k + 9`, plus 36.
pub open spec fn trait_of(nb: Seq<u8>, k: int) -> u32 {
    (spec_median(nb[3 * k + 7], nb[3 * k + 8], nb[3 * k + 9]) + 36) as u32
}

/// The eight attributes (hit points first) of the base values `nb`.
pub open spec fn props_of(nb: Seq<u8>) -> Seq<u32> {
    Seq::new(8, |k: int| if k == 0 { hp_of(nb) } else { trait_of(nb, k) })
}

/// `n` zero bytes.
pub open spec fn zeros(n: nat) -> Seq<u8> {
    Seq::new(n, |i: int| 0u8)
}

/// The median of base values `3k + 7` to `3k + 9` (attribute `k` less 36).
pub open spec fn trait_median(nb: Seq<u8>, k: int) -> u32 {
    spec_median(nb[3 * k + 7], nb[3 * k + 8], nb[3 * k + 9]) as u32
}

/// The first check of the quick screen: attribute 7 less 36 is at least 24.
pub open spec fn screen_stage1(nb: Seq<u8>) -> bool {
    trait_median(nb, 7) >= 24
}

/// The second check: attributes 7, 2, 3 and 6, each less 36, sum to at least 165.
pub open spec fn screen_stage2(nb: Seq<u8>) -> bool {
    trait_median(nb, 7) + trait_median(nb, 2) + trait_median(nb, 3) + trait_median(nb, 6) >= 165
}

/// The sum of the medians of all seven attributes.
pub open spec fn median_sum(nb: Seq<u8>) -> int {
    trait_median(nb, 7) + trait_median(nb, 2) + trait_median(nb, 3) + trait_median(nb, 6)
        + trait_median(nb, 1) + trait_median(nb, 4) + trait_median(nb, 5)
}

/// The third check: the seven attributes, each less 36, sum to at least 250.
pub open spec fn screen_stage3(nb: Seq<u8>) -> bool {
    median_sum(nb) >= 250
}

/// The last check: that sum plus a third of the hit points (rounded down)
/// plus 154 is at least 380.
pub open spec fn screen_stage4(nb: Seq<u8>) -> bool {
    median_sum(nb) + hp_of(nb) / 3 + 154 >= 380
}

/// The name passes all four checks of the quick screen.
pub open spec fn screen_passes(nb: Seq<u8>) -> bool {
    screen_stage1(nb) && screen_stage2(nb) && screen_stage3(nb) && screen_stage4(nb)
}

/// The attributes after the quick screen of `nb`: attribute 7 always; 2, 3
/// and 6 once the first check passed; 1, 4 and 5 once the second passed; the
/// hit points once the third passed; the others keep their values in `old`.
pub open spec fn screened_props(old: Seq<u32>, nb: Seq<u8>) -> Seq<u32> {
    let p = props_of(nb);
    let a = old.update(7, p[7]);
    let b = if screen_stage1(nb) {
        a.update(2, p[2]).update(3, p[3]).update(6, p[6])
    } else {
        a
    };
    let c = if screen_stage1(nb) && screen_stage2(nb) {
        b.update(1, p[1]).update(4, p[4]).update(5, p[5])
    } else {
        b
    };
    if screen_stage1(nb) && screen_stage2(nb) && screen_stage3(nb) {
        c.update(0, p[0])
    } else {
        c
    }
}

/// The skill order before shuffling: 0, 1, ..., 39.
pub open spec fn skill_order() -> Seq<u8> {
    Seq::new(40, |i: int| i as u8)
}

/// The state (permutation, generator indices, running index, skill order)
/// after `n` steps of the skill shuffle; step `n` swaps skill `n mod 40`.
#[verifier::opaque]
pub open spec fn shuffle_state(val: Seq<u8>, ids: Seq<u8>, n: nat) -> (
    Seq<u8>,
    u8,
    u8,
    u8,
    Seq<u8>,
)
    decreases n,
{
    if n == 0 {
        (val, 0u8, 0u8, 0u8, ids)
    } else {
        let st = shuffle_state(val, ids, (n - 1) as nat);
        let r1 = prng_step(st.0, st.1, st.2);
        let r2 = prng_step(r1.0, r1.1, r1.2);
        let rnd = (r1.3 as int * 256 + r2.3 as int) % 40;
        let k = (n - 1) % 40;
        let s = ((st.3 + rnd + st.4[k]) % 40) as u8;
        (r2.0, r2.1, r2.2, s, swap_seq(st.4, k, s as int))
    }
}

/// The smaller byte.
pub open spec fn min_u8(a: u8, b: u8) -> u8 {
    if a <= b {
        a
    } else {
        b
    }
}

/// The smallest of base values `64 + 4j` to `67 + 4j`.
pub open spec fn window_min(nb: Seq<u8>, j: int) -> u8 {
    min_u8(min_u8(nb[64 + 4 * j], nb[65 + 4 * j]), min_u8(nb[66 + 4 * j], nb[67 + 4 * j]))
}

/// Skill slot `j` is learnt: its window minimum exceeds 10 and its skill is one of the first 35.
pub open spec fn skill_learnt(nb: Seq<u8>, ids: Seq<u8>, j: int) -> bool {
    window_min(nb, j) > 10 && ids[j] < 35
}

/// The level of skill slot `j` before the final adjustments.
pub open spec fn raw_level(nb: Seq<u8>, ids: Seq<u8>, j: int) -> u8 {
    if skill_learnt(nb, ids, j) {
        (window_min(nb, j) - 10) as u8
    } else {
        0u8
    }
}

/// The last of the first `n` slots that is learnt with a window minimum
/// below 35, or -1 when there is none.
pub open spec fn last_doubled(nb: Seq<u8>, ids: Seq<u8>, n: nat) -> int
    decreases n,
{
    if n == 0 {
        -1
    } else if skill_learnt(nb, ids, n - 1) && window_min(nb, n - 1) < 35 {
        n - 1
    } else {
        last_doubled(nb, ids, (n - 1) as nat)
    }
}

/// A nonzero level `f` grows by the smaller of `m` and itself.
pub open spec fn bump(f: u8, m: u8) -> u8 {
    if f != 0 {
        (f + min_u8(m, f)) as u8
    } else {
        f
    }
}

/// The skill levels after the skill update, from the levels `old`, the base
/// values `nb` and the shuffled skill order `ids`: slots 0 to 15 get their raw
/// level; the last doubled slot doubles; slots 14 and 15, unless doubled,
/// grow by the smaller of two base values (60 and 61, 62 and 63).
pub open spec fn levels_after(old: Seq<u8>, nb: Seq<u8>, ids: Seq<u8>) -> Seq<u8> {
    let f = Seq::new(40, |k: int| if k < 16 { raw_level(nb, ids, k) } else { old[k] });
    let last = last_doubled(nb, ids, 16);
    let m14 = min_u8(nb[60], nb[61]);
    let m15 = min_u8(nb[62], nb[63]);
    if last == 14 {
        let g = f.update(14, (f[14] * 2) as u8);
        g.update(15, bump(g[15], m15))
    } else if last == 15 {
        let g = f.update(15, (f[15] * 2) as u8);
        g.update(14, bump(g[14], m14))
    } else {
        let g = if last >= 0 {
            f.update(last, (f[last] * 2) as u8)
        } else {
            f
        };
        g.update(14, bump(g[14], m14)).update(15, bump(g[15], m15))
    }
}

/// The base values written by the skill update over `old`: all base values of `val`.
pub open spec fn skill_bases(val: Seq<u8>, old: Seq<u8>) -> Seq<u8> {
    let b = capped_bases(val, 256, 256);
    b + old.skip(b.len() as int)
}

/// The skill update can run on `n`: its permutation yields at most 128 base
/// values, and the base values it keeps (those past the ones it writes) are
/// below 64.
pub open spec fn skill_update_ok(n: Namer) -> bool {
    &&& base_count(n.val@) <= 128
    &&& forall|k: int| base_count(n.val@) <= k < 128 ==> n.name_base@[k] < 64
}

/// The name and the team of a full name `name@team`; without `@`, the full
/// name is both.
pub open spec fn name_team_of(full: Seq<char>) -> (Seq<char>, Seq<char>) {
    match split_once_spec(full, '@') {
        Some(parts) => parts,
        None => (full, full),
    }
}

/// The full name `name@team` shown for a name; an empty team shows the name again.
pub open spec fn full_name_of(name: Seq<char>, team: Seq<char>) -> Seq<char> {
    name + seq!['@'] + if team.len() == 0 {
        name
    } else {
        team
    }
}

/// Three times the attribute total: the seven attributes count three times,
/// the hit points once (the total is hit points / 3 plus the others).
pub open spec fn property_thirds_of(p: Seq<u32>) -> int {
    3 * (p[1] + p[2] + p[3] + p[4] + p[5] + p[6] + p[7]) + p[0]
}

/// The level of each skill after `n` slots are read: a slot with a nonzero
/// level sets the level of its skill.
pub open spec fn levels_by_skill(ids: Seq<u8>, freq: Seq<u8>, n: nat) -> Seq<u8>
    decreases n,
{
    if n == 0 {
        zeros(40)
    } else {
        let prev = levels_by_skill(ids, freq, (n - 1) as nat);
        if freq[n - 1] != 0 {
            prev.update(ids[n - 1] as int, freq[n - 1])
        } else {
            prev
        }
    }
}

/// The names of the 40 skills.
pub open spec fn skill_names() -> Seq<Seq<char>> {
    seq![
        "火球"@,
        "冰冻"@,
        "雷击"@,
        "地裂"@,
        "吸血"@,
        "投毒"@,
        "连击"@,
        "会心"@,
        "瘟疫"@,
        "命轮"@,
        "狂暴"@,
        "魅惑"@,
        "加速"@,
        "减速"@,
        "诅咒"@,
        "治愈"@,
        "苏生"@,
        "净化"@,
        "铁壁"@,
        "蓄力"@,
        "聚气"@,
        "潜行"@,
        "血祭"@,
        "分身"@,
        "幻术"@,
        "防御"@,
        "守护"@,
        "反弹"@,
        "护符"@,
        "护盾"@,
        "反击"@,
        "吞噬"@,
        "亡灵"@,
        "垂死"@,
        "隐匿"@,
        "啧"@,
        "啧"@,
        "啧"@,
        "啧"@,
        "啧"@
    ]
}

/// The name of skill `i`.
fn skill_name(i: usize) -> (r: &'static str)
    requires
        i < 40,
    ensures
        r@ == skill_names()[i as int],
{
    match i {
        0 => "火球",
        1 => "冰冻",
        2 => "雷击",
        3 => "地裂",
        4 => "吸血",
        5 => "投毒",
        6 => "连击",
        7 => "会心",
        8 => "瘟疫",
        9 => "命轮",
        10 => "狂暴",
        11 => "魅惑",
        12 => "加速",
        13 => "减速",
        14 => "诅咒",
        15 => "治愈",
        16 => "苏生",
        17 => "净化",
        18 => "铁壁",
        19 => "蓄力",
        20 => "聚气",
        21 => "潜行",
        22 => "血祭",
        23 => "分身",
        24 => "幻术",
        25 => "防御",
        26 => "守护",
        27 => "反弹",
        28 => "护符",
        29 => "护盾",
        30 => "反击",
        31 => "吞噬",
        32 => "亡灵",
        33 => "垂死",
        34 => "隐匿",
        35 => "啧",
        36 => "啧",
        37 => "啧",
        38 => "啧",
        _ => "啧",
    }
}

/// The skills among the first `n` with a level, in order: each as its name,
/// `sep`, its level in decimal and `end`.
pub open spec fn skills_listing(levels: Seq<u8>, sep: Seq<char>, end: Seq<char>, n: nat) -> Seq<char>
    decreases n,
{
    if n == 0 {
        Seq::empty()
    } else {
        let p = skills_listing(levels, sep, end, (n - 1) as nat);
        if levels[n - 1] > 0 {
            p + skill_names()[n - 1] + sep + decimal(levels[n - 1] as nat) + end
        } else {
            p
        }
    }
}

/// Appends the listing of the skills with a level.
fn push_skills(out: &mut String, levels: &[u8; 40], sep: &str, end: &str)
    ensures
        final(out)@ == old(out)@ + skills_listing(levels@, sep@, end@, 40),
{
    let ghost start = out@;
    for i in 0..40
        invariant
            out@ == start + skills_listing(levels@, sep@, end@, i as nat),
    {
        if levels[i] > 0 {
            out.append(skill_name(i));
            out.append(sep);
            push_decimal(out, levels[i] as u32);
            out.append(end);
        }
        assert(out@ =~= start + skills_listing(levels@, sep@, end@, (i + 1) as nat));
    }
}

/// The attributes in decimal, each behind its label.
pub open spec fn labelled_props(p: Seq<u32>) -> Seq<char> {
    " HP|"@ + decimal(p[0] as nat) + " 攻|"@ + decimal(p[1] as nat) + " 防|"@ + decimal(p[2] as nat)
        + " 速|"@ + decimal(p[3] as nat) + " 敏|"@ + decimal(p[4] as nat) + " 魔|"@ + decimal(
        p[5] as nat,
    ) + " 抗|"@ + decimal(p[6] as nat) + " 智|"@ + decimal(p[7] as nat)
}

/// The attributes in decimal, each behind a comma.
pub open spec fn comma_props(p: Seq<u32>) -> Seq<char> {
    ","@ + decimal(p[0] as nat) + ","@ + decimal(p[1] as nat) + ","@ + decimal(p[2] as nat) + ","@
        + decimal(p[3] as nat) + ","@ + decimal(p[4] as nat) + ","@ + decimal(p[5] as nat) + ","@
        + decimal(p[6] as nat) + ","@ + decimal(p[7] as nat)
}

/// The line describing a name: its name, team, attributes, the attribute
/// total `property` and the skills with a level.
pub open spec fn info_text(n: Namer, property: Seq<char>) -> Seq<char> {
    "name: "@ + n.name@ + ", team: "@ + n.team@ + labelled_props(n.name_prop@) + " 八围:"@ + property
        + "|"@ + skills_listing(levels_by_skill(n.skl_id@, n.skl_freq@, 40), ": "@, "|"@, 40)
}

/// The record of a name: its name, team, attributes, the attribute total
/// `property` and the skills with a level, separated by commas.
pub open spec fn info_csv_text(n: Namer, property: Seq<char>) -> Seq<char> {
    n.name@ + ","@ + n.team@ + comma_props(n.name_prop@) + ","@ + property + ","@ + skills_listing(
        levels_by_skill(n.skl_id@, n.skl_freq@, 40),
        "-"@,
        ","@,
        40,
    )
}

/// A team: its text and its permutation.
#[derive(Debug, Clone)]
pub struct TeamNamer {
    pub team: String,
    pub val: [u8; 256],
}

impl TeamNamer {
    /// The team `team`, or `None` when its text is longer than 256 bytes.
    pub fn new(team: &str) -> (r: Option<Self>)
        ensures
            r is None <==> team.spec_bytes().len() > 256,
            r matches Some(t) ==> t.team@ == team@ && t.val@ == team_perm(team.spec_bytes()),
    {
        if team.as_bytes().len() > MAX_NAME_BYTES {
            return None;
        }
        Some(Self::new_unchecked(team))
    }

    /// The team `team`, whatever its length.
    pub fn new_unchecked(team: &str) -> (r: Self)
        ensures
            r.team@ == team@,
            r.val@ == team_perm(team.spec_bytes()),
            is_perm256(r.val@),
    {
        let team_bytes = team.as_bytes();
        let mut val = identity_array();
        let key = padded_key_stream(team_bytes);
        mix_pass(&mut val, &key);
        proof {
            lemma_identity_perm();
            lemma_ksa_prefix_perm(identity256(), key@, 256);
        }
        TeamNamer { team: owned(team), val }
    }

    /// A copy of the team's permutation.
    pub fn clone_vals(&self) -> (r: [u8; 256])
        ensures
            r@ == self.val@,
    {
        self.val
    }
}

/// A name in a team with the values derived from it.
#[derive(Debug, Clone)]
pub struct Namer {
    pub name: String,
    pub team: String,
    pub val: [u8; 256],
    pub name_base: [u8; 128],
    pub name_prop: [u32; 8],
    pub skl_id: [u8; 40],
    pub skl_freq: [u8; 40],
}

/// `n` is the name `name` freshly made in a team with permutation `team_val`
/// and text `team`.
pub open spec fn is_fresh(n: Namer, team_val: Seq<u8>, team: Seq<char>, name: Seq<char>) -> bool {
    &&& n.name@ == name
    &&& n.team@ == team
    &&& n.val@ == name_perm(team_val, encode_utf8(name))
    &&& n.name_base@ == fresh_bases(n.val@)
    &&& n.name_prop@ == props_of(n.name_base@)
    &&& n.skl_id@ == zeros(40)
    &&& n.skl_freq@ == zeros(40)
}

/// Writes the base values of `val`, at most `cap` of them, over the front of `nb`.
#[verifier::spinoff_prover]
fn write_capped_bases(val: &[u8; 256], nb: &mut [u8; 128], cap: usize)
    requires
        0 < cap <= 128,
    ensures
        final(nb)@ == capped_bases(val@, 256, cap as nat) + old(nb)@.skip(
            capped_bases(val@, 256, cap as nat).len() as int,
        ),
        capped_bases(val@, 256, cap as nat).len() <= cap,
{
    let ghost start = nb@;
    let mut c: usize = 0;
    let mut i: usize = 0;
    while i < 256
        invariant_except_break
            c < cap,
        invariant
            0 < cap <= 128,
            i <= 256,
            c <= cap,
            c == capped_bases(val@, i as nat, cap as nat).len(),
            nb@.len() == 128,
            forall|k: int| 0 <= k < c ==> nb@[k] == capped_bases(val@, i as nat, cap as nat)[k],
            forall|k: int| c <= k < 128 ==> nb@[k] == start[k],
        ensures
            c == capped_bases(val@, 256, cap as nat).len(),
            c <= cap,
            forall|k: int| 0 <= k < c ==> nb@[k] == capped_bases(val@, 256, cap as nat)[k],
            forall|k: int| c <= k < 128 ==> nb@[k] == start[k],
        decreases 256 - i,
    {
        let ghost p = capped_bases(val@, i as nat, cap as nat);
        let m = ((val[i] as u32 * 181 + 160) % 256) as u8;
        if m > 88 && m < 217 {
            let b = m & 63;
            proof {
                assert(b == m % 64) by (bit_vector)
                    requires
                        b == m & 63,
                ;
                assert(capped_bases(val@, (i + 1) as nat, cap as nat) == p.push(b));
            }
            nb[c] = b;
            c = c + 1;
        } else {
            proof {
                assert(capped_bases(val@, (i + 1) as nat, cap as nat) == p);
            }
        }
        i = i + 1;
        if c == cap {
            proof {
                lemma_capped_full_at(val@, i as nat, cap as nat, 256);
            }
            break;
        }
    }
    proof {
        let b = capped_bases(val@, 256, cap as nat);
        assert(nb@ =~= b + start.skip(b.len() as int));
    }
}

/// Once the cap is reached, later entries add nothing.
proof fn lemma_capped_full_at(val: Seq<u8>, i: nat, cap: nat, n: nat)
    requires
        capped_bases(val, i, cap).len() == cap,
        i <= n,
    ensures
        capped_bases(val, n, cap) == capped_bases(val, i, cap),
    decreases n - i,
{
    if n > i {
        lemma_capped_full_at(val, i, cap, (n - 1) as nat);
    }
}

/// The eight attributes of the base values `nb`.
fn compute_props(nb: &[u8; 128]) -> (r: [u32; 8])
    ensures
        r@ == props_of(nb@),
{
    let mut prop_name = [0u8; 10];
    for i in 0..10
        invariant
            forall|k: int| 0 <= k < i ==> prop_name@[k] == nb@[k],
    {
        prop_name[i] = nb[i];
    }
    assert(prop_name@ =~= nb@.take(10));
    sort_ten(&mut prop_name);
    let mut p = [0u32; 8];
    p[0] = 154 + prop_name[3] as u32 + prop_name[4] as u32 + prop_name[5] as u32
        + prop_name[6] as u32;
    p[1] = median(nb[10], nb[11], nb[12]) as u32 + 36;
    p[2] = median(nb[13], nb[14], nb[15]) as u32 + 36;
    p[3] = median(nb[16], nb[17], nb[18]) as u32 + 36;
    p[4] = median(nb[19], nb[20], nb[21]) as u32 + 36;
    p[5] = median(nb[22], nb[23], nb[24]) as u32 + 36;
    p[6] = median(nb[25], nb[26], nb[27]) as u32 + 36;
    p[7] = median(nb[28], nb[29], nb[30]) as u32 + 36;
    assert(p@ =~= props_of(nb@));
    p
}

/// The two schedule passes of `name_bytes` over `val`.
fn mix_name(val: &mut [u8; 256], name_bytes: &[u8])
    ensures
        final(val)@ == name_perm(old(val)@, name_bytes@),
{
    let key = padded_key_stream(name_bytes);
    mix_pass(val, &key);
    mix_pass(val, &key);
    proof {
        reveal_with_fuel(ksa_passes, 3);
    }
}

/// Base values of a written prefix are below 64.
pub proof fn lemma_capped_below_64(val: Seq<u8>, n: nat, cap: nat)
    ensures
        forall|k: int|
            0 <= k < capped_bases(val, n, cap).len() ==> #[trigger] capped_bases(val, n, cap)[k]
                < 64,
    decreases n,
{
    if n > 0 {
        lemma_capped_below_64(val, (n - 1) as nat, cap);
        let p = capped_bases(val, (n - 1) as nat, cap);
        let v = val[n - 1];
        assert(crate::perm::base_value(v) < 64);
        if p.len() < cap && crate::perm::yields_base(v) {
            assert forall|k: int| 0 <= k < p.len() + 1 implies #[trigger] p.push(
                crate::perm::base_value(v),
            )[k] < 64 by {
                if k < p.len() {
                    assert(p.push(crate::perm::base_value(v))[k] == p[k]);
                }
            }
        }
    }
}

/// A written prefix never holds more values than entries scanned.
pub proof fn lemma_capped_len(val: Seq<u8>, n: nat, cap: nat)
    ensures
        capped_bases(val, n, cap).len() <= n,
    decreases n,
{
    if n > 0 {
        lemma_capped_len(val, (n - 1) as nat, cap);
    }
}

/// Without a binding cap, the written prefix holds every base value seen.
proof fn lemma_capped_is_count(val: Seq<u8>, n: nat, cap: nat)
    requires
        n <= cap,
        n <= val.len(),
    ensures
        capped_bases(val, n, cap).len() == base_count(val.take(n as int)),
    decreases n,
{
    if n == 0 {
        assert(val.take(0) =~= Seq::<u8>::empty());
    } else {
        lemma_capped_is_count(val, (n - 1) as nat, cap);
        lemma_capped_len(val, (n - 1) as nat, cap);
        assert(val.take(n as int).drop_last() =~= val.take(n - 1));
    }
}

/// A prefix never yields more base values than the whole.
proof fn lemma_count_prefix(val: Seq<u8>, n: int)
    requires
        0 <= n <= val.len(),
    ensures
        base_count(val.take(n)) <= base_count(val),
{
    assert(val =~= val.take(n) + val.skip(n));
    crate::perm::lemma_base_count_concat(val.take(n), val.skip(n));
}

/// Writes all base values of `val` over the front of `nb`.
#[verifier::spinoff_prover]
fn write_all_bases(val: &[u8; 256], nb: &mut [u8; 128])
    requires
        base_count(val@) <= 128,
    ensures
        final(nb)@ == skill_bases(val@, old(nb)@),
        capped_bases(val@, 256, 256).len() <= 128,
{
    let ghost start = nb@;
    let mut c: usize = 0;
    for i in 0..256
        invariant
            base_count(val@) <= 128,
            c == capped_bases(val@, i as nat, 256).len(),
            c == base_count(val@.take(i as int)),
            c <= i,
            c <= 128,
            nb@.len() == 128,
            forall|k: int| 0 <= k < c ==> nb@[k] == capped_bases(val@, i as nat, 256)[k],
            forall|k: int| c <= k < 128 ==> nb@[k] == start[k],
    {
        let ghost p = capped_bases(val@, i as nat, 256);
        proof {
            lemma_capped_len(val@, i as nat, 256);
            lemma_capped_is_count(val@, (i + 1) as nat, 256);
            lemma_count_prefix(val@, i + 1);
        }
        let m = ((val[i] as u32 * 181 + 160) % 256) as u8;
        if m > 88 && m < 217 {
            let b = m & 63;
            proof {
                assert(b == m % 64) by (bit_vector)
                    requires
                        b == m & 63,
                ;
                assert(capped_bases(val@, (i + 1) as nat, 256) == p.push(b));
            }
            nb[c] = b;
            c = c + 1;
        } else {
            proof {
                assert(capped_bases(val@, (i + 1) as nat, 256) == p);
            }
        }
    }
    proof {
        let b = capped_bases(val@, 256, 256);
        assert(b.len() == c);
        assert(nb@ =~= b + start.skip(b.len() as int));
    }
}

/// The 80 steps of the skill shuffle over the permutation `val` and the skill order `ids`.
#[verifier::spinoff_prover]
#[verifier::rlimit(40)]
fn shuffle_skills(val: &mut [u8; 256], ids: &mut [u8; 40])
    ensures
        final(val)@ == shuffle_state(old(val)@, old(ids)@, 80).0,
        final(ids)@ == shuffle_state(old(val)@, old(ids)@, 80).4,
{
    let ghost val0 = val@;
    let ghost ids0 = ids@;
    proof {
        reveal(shuffle_state);
    }
    let mut a: u8 = 0;
    let mut b: u8 = 0;
    let mut s: u8 = 0;
    for n in 0..80
        invariant
            a == 2 * n,
            val@ == shuffle_state(val0, ids0, n as nat).0,
            a == shuffle_state(val0, ids0, n as nat).1,
            b == shuffle_state(val0, ids0, n as nat).2,
            s == shuffle_state(val0, ids0, n as nat).3,
            ids@ == shuffle_state(val0, ids0, n as nat).4,
    {
        proof {
            lemma_shuffle_unfold(val0, ids0, n as nat);
        }
        let i = n % 40;
        let u = prng_next(val, &mut a, &mut b);
        let t = prng_next(val, &mut a, &mut b);
        let rnd = ((u as u32 * 256 + t as u32) % 40) as u16;
        s = ((s as u16 + rnd + ids[i] as u16) % 40) as u8;
        swap_bytes(ids, i, s as usize);
    }
}

/// One more shuffle step, spelled out.
proof fn lemma_shuffle_unfold(val: Seq<u8>, ids: Seq<u8>, n: nat)
    ensures
        ({
            let st = shuffle_state(val, ids, n);
            let r1 = prng_step(st.0, st.1, st.2);
            let r2 = prng_step(r1.0, r1.1, r1.2);
            let rnd = (r1.3 as int * 256 + r2.3 as int) % 40;
            let s = ((st.3 + rnd + st.4[n as int % 40]) % 40) as u8;
            shuffle_state(val, ids, n + 1) == (
                r2.0,
                r2.1,
                r2.2,
                s,
                swap_seq(st.4, n as int % 40, s as int),
            )
        }),
{
    reveal(shuffle_state);
    assert((n + 1 - 1) as nat == n);
}

/// One step of the generator over `val` with the indices `a` and `b`; the output byte.
fn prng_next(val: &mut [u8; 256], a: &mut u8, b: &mut u8) -> (r: u8)
    requires
        *old(a) < 255,
    ensures
        (final(val)@, *final(a), *final(b), r) == prng_step(old(val)@, *old(a), *old(b)),
{
    *a = *a + 1;
    *b = ((*b as u16 + val[*a as usize] as u16) % 256) as u8;
    swap_bytes(val, *a as usize, *b as usize);
    val[((val[*a as usize] as u16 + val[*b as usize] as u16) % 256) as usize]
}

/// The smaller byte.
fn min_byte(a: u8, b: u8) -> (r: u8)
    ensures
        r == min_u8(a, b),
{
    if a <= b {
        a
    } else {
        b
    }
}

/// Sets the skill levels from the base values `nb` and the shuffled order `ids`.
#[verifier::spinoff_prover]
fn update_levels(nb: &[u8; 128], ids: &[u8; 40], freq: &mut [u8; 40])
    requires
        forall|k: int| 0 <= k < 128 ==> nb@[k] < 64,
    ensures
        final(freq)@ == levels_after(old(freq)@, nb@, ids@),
{
    let ghost start = freq@;
    let mut last: i32 = -1;
    for j in 0..16
        invariant
            forall|k: int| 0 <= k < 128 ==> nb@[k] < 64,
            freq@.len() == 40,
            forall|k: int| 0 <= k < j ==> freq@[k] == raw_level(nb@, ids@, k),
            forall|k: int| j <= k < 40 ==> freq@[k] == start[k],
            last == last_doubled(nb@, ids@, j as nat),
    {
        let i = 64 + 4 * j;
        let p = min_byte(min_byte(nb[i], nb[i + 1]), min_byte(nb[i + 2], nb[i + 3]));
        if p > 10 && ids[j] < 35 {
            freq[j] = p - 10;
            if p < 35 {
                last = j as i32;
            }
        } else {
            freq[j] = 0;
        }
    }
    let ghost f = freq@;
    proof {
        assert(f =~= Seq::new(
            40,
            |k: int| if k < 16 { raw_level(nb@, ids@, k) } else { start[k] },
        ));
        assert forall|k: int| 0 <= k < 16 implies f[k] <= 53 by {
            assert(window_min(nb@, k) < 64);
        }
        lemma_last_doubled_small(nb@, ids@, 16);
    }
    if last == -1 {
        if freq[14] != 0 {
            freq[14] = freq[14] + min_byte(min_byte(nb[60], nb[61]), freq[14]);
        }
        if freq[15] != 0 {
            freq[15] = freq[15] + min_byte(min_byte(nb[62], nb[63]), freq[15]);
        }
    } else if last == 14 {
        freq[14] = freq[14] * 2;
        if freq[15] != 0 {
            freq[15] = freq[15] + min_byte(min_byte(nb[62], nb[63]), freq[15]);
        }
    } else if last == 15 {
        freq[15] = freq[15] * 2;
        if freq[14] != 0 {
            freq[14] = freq[14] + min_byte(min_byte(nb[60], nb[61]), freq[14]);
        }
    } else {
        let x = last as usize;
        freq[x] = freq[x] * 2;
        if freq[14] != 0 {
            freq[14] = freq[14] + min_byte(min_byte(nb[60], nb[61]), freq[14]);
        }
        if freq[15] != 0 {
            freq[15] = freq[15] + min_byte(min_byte(nb[62], nb[63]), freq[15]);
        }
    }
    assert(freq@ =~= levels_after(start, nb@, ids@));
}

/// The doubled slot is one of the first `n` and its raw level is below 25.
pub proof fn lemma_last_doubled_small(nb: Seq<u8>, ids: Seq<u8>, n: nat)
    ensures
        -1 <= last_doubled(nb, ids, n) < n,
        last_doubled(nb, ids, n) >= 0 ==> raw_level(nb, ids, last_doubled(nb, ids, n)) < 25,
    decreases n,
{
    if n > 0 {
        lemma_last_doubled_small(nb, ids, (n - 1) as nat);
    }
}

impl Namer {
    /// The name `name` made in the team `team_namer`.
    pub fn new_from_team_namer_unchecked(team_namer: &TeamNamer, name: &str) -> (r: Self)
        ensures
            is_fresh(r, team_namer.val@, team_namer.team@, name@),
    {
        let mut val = team_namer.clone_vals();
        mix_name(&mut val, name.as_bytes());
        let mut name_base = [0u8; 128];
        write_capped_bases(&val, &mut name_base, 31);
        proof {
            let b = capped_bases(val@, 256, 31);
            assert(name_base@ =~= fresh_bases(val@));
        }
        let name_prop = compute_props(&name_base);
        let skl_id = [0u8; 40];
        let skl_freq = [0u8; 40];
        proof {
            assert(skl_id@ =~= zeros(40));
        }
        Namer {
            name: owned(name),
            team: team_namer.team.clone(),
            val,
            name_base,
            name_prop,
            skl_id,
            skl_freq,
        }
    }

    /// Puts the name `name` of the team `team_namer` in place of the current
    /// one, recomputing the permutation, the first 31 base values and, stage by
    /// stage, the attributes of the quick screen; `true` when all checks pass.
    #[verifier::spinoff_prover]
    pub fn replace_name(&mut self, team_namer: &TeamNamer, name: &str) -> (r: bool)
        ensures
            final(self).name@ == name@,
            final(self).team == old(self).team,
            final(self).val@ == name_perm(team_namer.val@, name.spec_bytes()),
            final(self).name_base@ == capped_bases(final(self).val@, 256, 31) + old(
                self,
            ).name_base@.skip(capped_bases(final(self).val@, 256, 31).len() as int),
            final(self).name_prop@ == screened_props(old(self).name_prop@, final(self).name_base@),
            final(self).skl_id == old(self).skl_id,
            final(self).skl_freq == old(self).skl_freq,
            r == screen_passes(final(self).name_base@),
    {
        self.val = team_namer.clone_vals();
        self.name = owned(name);
        mix_name(&mut self.val, name.as_bytes());
        write_capped_bases(&self.val, &mut self.name_base, 31);
        let ghost nb = self.name_base@;
        let ghost old_props = self.name_prop@;
        let ghost p = props_of(nb);
        let mut full: u32 = 0;
        self.name_prop[7] = median(self.name_base[28], self.name_base[29], self.name_base[30])
            as u32 + 36;
        full = full + self.name_prop[7] - 36;
        if full < 24 {
            assert(self.name_prop@ =~= screened_props(old_props, nb));
            return false;
        }
        self.name_prop[2] = median(self.name_base[13], self.name_base[14], self.name_base[15])
            as u32 + 36;
        self.name_prop[3] = median(self.name_base[16], self.name_base[17], self.name_base[18])
            as u32 + 36;
        self.name_prop[6] = median(self.name_base[25], self.name_base[26], self.name_base[27])
            as u32 + 36;
        full = full + self.name_prop[2] + self.name_prop[3] + self.name_prop[6] - 108;
        if full < 165 {
            assert(self.name_prop@ =~= screened_props(old_props, nb));
            return false;
        }
        self.name_prop[1] = median(self.name_base[10], self.name_base[11], self.name_base[12])
            as u32 + 36;
        self.name_prop[4] = median(self.name_base[19], self.name_base[20], self.name_base[21])
            as u32 + 36;
        self.name_prop[5] = median(self.name_base[22], self.name_base[23], self.name_base[24])
            as u32 + 36;
        full = full + self.name_prop[1] + self.name_prop[4] + self.name_prop[5] - 108;
        if full < 250 {
            assert(self.name_prop@ =~= screened_props(old_props, nb));
            return false;
        }
        let mut prop_name = [0u8; 10];
        for i in 0..10
            invariant
                self.name_base@ == nb,
                forall|k: int| 0 <= k < i ==> prop_name@[k] == nb[k],
        {
            prop_name[i] = self.name_base[i];
        }
        assert(prop_name@ =~= nb.take(10));
        sort_ten(&mut prop_name);
        self.name_prop[0] = 154 + prop_name[3] as u32 + prop_name[4] as u32 + prop_name[5] as u32
            + prop_name[6] as u32;
        full = full + self.name_prop[0] / 3 + 154;
        assert(self.name_prop@ =~= screened_props(old_props, nb));
        if full < 380 {
            return false;
        }
        true
    }

    /// Fills all 128 base values from the permutation, shuffles the skill
    /// order (80 steps of the generator, which also move the permutation) and
    /// sets the skill levels.
    pub fn update_skill(&mut self)
        requires
            skill_update_ok(*old(self)),
        ensures
            final(self).name_base@ == skill_bases(old(self).val@, old(self).name_base@),
            final(self).val@ == shuffle_state(old(self).val@, skill_order(), 80).0,
            final(self).skl_id@ == shuffle_state(old(self).val@, skill_order(), 80).4,
            final(self).skl_freq@ == levels_after(
                old(self).skl_freq@,
                final(self).name_base@,
                final(self).skl_id@,
            ),
            final(self).name == old(self).name,
            final(self).team == old(self).team,
            final(self).name_prop == old(self).name_prop,
    {
        let mut order = [0u8; 40];
        for i in 0..40
            invariant
                forall|k: int| 0 <= k < i ==> order@[k] == k as u8,
        {
            order[i] = i as u8;
        }
        assert(order@ =~= skill_order());
        self.skl_id = order;
        let ghost nb0 = self.name_base@;
        write_all_bases(&self.val, &mut self.name_base);
        proof {
            let b = capped_bases(self.val@, 256, 256);
            lemma_capped_below_64(self.val@, 256, 256);
            lemma_capped_is_count(self.val@, 256, 256);
            assert(self.val@.take(256) =~= self.val@);
            assert forall|k: int| 0 <= k < 128 implies self.name_base@[k] < 64 by {
                if k < b.len() {
                    assert(self.name_base@[k] == b[k]);
                } else {
                    assert(self.name_base@[k] == nb0[k]);
                }
            }
        }
        shuffle_skills(&mut self.val, &mut self.skl_id);
        update_levels(&self.name_base, &self.skl_id, &mut self.skl_freq);
    }

    /// The name made from a full name `name@team` (a full name without `@` is
    /// both name and team), or `None` when the name or the team is longer than
    /// 256 bytes.
    pub fn new(full_name: &String) -> (r: Option<Self>)
        ensures
            ({
                let (name, team) = name_team_of(full_name@);
                &&& r is None <==> (encode_utf8(name).len() > 256 || encode_utf8(team).len()
                    > 256)
                &&& r matches Some(n) ==> is_fresh(n, team_perm(encode_utf8(team)), team, name)
            }),
    {
        let full = full_name.as_str();
        let (name, team) = match split_once_char(full, '@') {
            Some(parts) => parts,
            None => (full, full),
        };
        if name.as_bytes().len() > MAX_NAME_BYTES {
            return None;
        }
        if team.as_bytes().len() > MAX_NAME_BYTES {
            return None;
        }
        Some(Self::new_raw_unchecked(name, team))
    }

    /// The name `name` in the team `team`, or `None` when either is longer than 256 bytes.
    pub fn new_raw(name: &str, team: &str) -> (r: Option<Self>)
        ensures
            r is None <==> (name.spec_bytes().len() > 256 || team.spec_bytes().len() > 256),
            r matches Some(n) ==> is_fresh(n, team_perm(team.spec_bytes()), team@, name@),
    {
        if name.as_bytes().len() > MAX_NAME_BYTES {
            return None;
        }
        if team.as_bytes().len() > MAX_NAME_BYTES {
            return None;
        }
        Some(Self::new_raw_unchecked(name, team))
    }

    /// The name made from a full name `name@team` (without `@`, the full name
    /// is both name and team), whatever the lengths.
    pub fn new_unchecked(full_name: &str) -> (r: Self)
        ensures
            ({
                let (name, team) = name_team_of(full_name@);
                is_fresh(r, team_perm(encode_utf8(team)), team, name)
            }),
    {
        let (name, team) = match split_once_char(full_name, '@') {
            Some(parts) => parts,
            None => (full_name, full_name),
        };
        Self::new_raw_unchecked(name, team)
    }

    /// The name `name` in the team `team`, whatever the lengths.
    pub fn new_raw_unchecked(name: &str, team: &str) -> (r: Self)
        ensures
            is_fresh(r, team_perm(team.spec_bytes()), team@, name@),
    {
        let team_namer = TeamNamer::new_unchecked(team);
        Self::new_from_team_namer_unchecked(&team_namer, name)
    }

    /// The name `name` in the team `team_namer`, or `None` when the name is
    /// longer than 256 bytes.
    pub fn new_from_team_namer(team_namer: &TeamNamer, name: &str) -> (r: Option<Self>)
        ensures
            r is None <==> name.spec_bytes().len() > 256,
            r matches Some(n) ==> is_fresh(n, team_namer.val@, team_namer.team@, name@),
    {
        if name.as_bytes().len() > MAX_NAME_BYTES {
            return None;
        }
        Some(Self::new_from_team_namer_unchecked(team_namer, name))
    }

    /// Three times the attribute total (hit points count a third).
    pub fn property_thirds(&self) -> (r: u64)
        ensures
            r == property_thirds_of(self.name_prop@),
    {
        let p = &self.name_prop;
        3 * (p[1] as u64 + p[2] as u64 + p[3] as u64 + p[4] as u64 + p[5] as u64 + p[6] as u64
            + p[7] as u64) + p[0] as u64
    }

    /// The level of each of the 40 skills: each slot with a nonzero level
    /// gives that level to its skill, later slots winning.
    pub fn skill_levels(&self) -> (r: [u8; 40])
        requires
            forall|i: int| 0 <= i < 40 && self.skl_freq@[i] != 0 ==> self.skl_id@[i] < 40,
        ensures
            r@ == levels_by_skill(self.skl_id@, self.skl_freq@, 40),
    {
        let mut skills = [0u8; 40];
        assert(skills@ =~= zeros(40));
        for i in 0..40
            invariant
                forall|k: int| 0 <= k < 40 && self.skl_freq@[k] != 0 ==> self.skl_id@[k] < 40,
                skills@ == levels_by_skill(self.skl_id@, self.skl_freq@, i as nat),
        {
            if self.skl_freq[i] != 0 {
                skills[self.skl_id[i] as usize] = self.skl_freq[i];
            }
        }
        skills
    }

    /// The line describing the name, with `property` as its attribute total:
    /// `name: N, team: T HP|.. 攻|.. 防|.. 速|.. 敏|.. 魔|.. 抗|.. 智|.. 八围:P|`
    /// followed by `skill: level|` for each skill with a level.
    #[verifier::spinoff_prover]
    pub fn get_info(&self, property: &str) -> (r: String)
        requires
            forall|i: int| 0 <= i < 40 && self.skl_freq@[i] != 0 ==> self.skl_id@[i] < 40,
        ensures
            r@ == info_text(*self, property@),
    {
        let levels = self.skill_levels();
        let mut r = String::new();
        r.append("name: ");
        r.append(self.name.as_str());
        r.append(", team: ");
        r.append(self.team.as_str());
        let ghost head = r@;
        r.append(" HP|");
        push_decimal(&mut r, self.name_prop[0]);
        r.append(" 攻|");
        push_decimal(&mut r, self.name_prop[1]);
        r.append(" 防|");
        push_decimal(&mut r, self.name_prop[2]);
        r.append(" 速|");
        push_decimal(&mut r, self.name_prop[3]);
        r.append(" 敏|");
        push_decimal(&mut r, self.name_prop[4]);
        r.append(" 魔|");
        push_decimal(&mut r, self.name_prop[5]);
        r.append(" 抗|");
        push_decimal(&mut r, self.name_prop[6]);
        r.append(" 智|");
        push_decimal(&mut r, self.name_prop[7]);
        assert(r@ =~= head + labelled_props(self.name_prop@));
        r.append(" 八围:");
        r.append(property);
        r.append("|");
        push_skills(&mut r, &levels, ": ", "|");
        assert(r@ =~= info_text(*self, property@));
        r
    }

    /// The record of the name, with `property` as its attribute total:
    /// name, team, the eight attributes and the total, then `skill-level,`
    /// for each skill with a level, all separated by commas.
    #[verifier::spinoff_prover]
    pub fn get_info_csv(&self, property: &str) -> (r: String)
        requires
            forall|i: int| 0 <= i < 40 && self.skl_freq@[i] != 0 ==> self.skl_id@[i] < 40,
        ensures
            r@ == info_csv_text(*self, property@),
    {
        let levels = self.skill_levels();
        let mut r = String::new();
        r.append(self.name.as_str());
        r.append(",");
        r.append(self.team.as_str());
        let ghost head = r@;
        r.append(",");
        push_decimal(&mut r, self.name_prop[0]);
        r.append(",");
        push_decimal(&mut r, self.name_prop[1]);
        r.append(",");
        push_decimal(&mut r, self.name_prop[2]);
        r.append(",");
        push_decimal(&mut r, self.name_prop[3]);
        r.append(",");
        push_decimal(&mut r, self.name_prop[4]);
        r.append(",");
        push_decimal(&mut r, self.name_prop[5]);
        r.append(",");
        push_decimal(&mut r, self.name_prop[6]);
        r.append(",");
        push_decimal(&mut r, self.name_prop[7]);
        assert(r@ =~= head + comma_props(self.name_prop@));
        r.append(",");
        r.append(property);
        r.append(",");
        push_skills(&mut r, &levels, "-", ",");
        assert(r@ =~= info_csv_text(*self, property@));
        r
    }

    /// The full name: `name@team`, or `name@name` when the team is empty.
    pub fn get_fullname(&self) -> (r: String)
        ensures
            r@ == full_name_of(self.name@, self.team@),
    {
        let mut r = String::new();
        r.append(self.name.as_str());
        let at = "@";
        proof {
            reveal_strlit("@");
        }
        r.append(at);
        if self.team.as_str().is_empty() {
            r.append(self.name.as_str());
        } else {
            r.append(self.team.as_str());
        }
        assert(r@ =~= full_name_of(self.name@, self.team@));
        r
    }
}

} // verus!
