//! Mining: the names of the ids, the screen each id goes through, and the
//! bookkeeping and dispatch of the work shared among the mining threads.
use vstd::prelude::*;
use vstd::utf8::encode_utf8;
use crate::name::{
    Namer, TeamNamer, fresh_bases, name_perm, props_of, screen_passes, property_thirds_of,
    lemma_capped_below_64, shuffle_state, skill_order,
};
use crate::name_laws::{lemma_replace_matches_fresh, lemma_name_perm_is_perm};
use crate::perm::{is_perm256, capped_bases, lemma_perm_base_count};
use crate::command::Command;

verus! {

/// What `Base16384Utf8::encode` makes of `data`.
pub uninterp spec fn base16384_utf8(data: Seq<u8>) -> Seq<char>;

/// A character of Base16384 text: one of the 16384 code points from U+4E00
/// on, or one of the padding marks U+3D00 to U+3D06.
pub open spec fn is_base16384_char(c: char) -> bool {
    (0x4E00 <= (c as u32) && (c as u32) < 0x8E00) || (0x3D00 <= (c as u32) && (c as u32) <= 0x3D06)
}

/// The Base16384 code point of the 14 bit value `v`: U+4E00 plus `v`.
pub open spec fn code_point(v: int) -> char {
    (0x4E00 + v) as char
}

/// The first seven bytes of `d` as one big-endian number.
pub open spec fn be56(d: Seq<u8>) -> int {
    d[0] * 0x1_0000_0000_0000 + d[1] * 0x100_0000_0000 + d[2] * 0x1_0000_0000 + d[3] * 0x100_0000
        + d[4] * 0x1_0000 + d[5] * 0x100 + d[6]
}

/// The Base16384 text of eight bytes: the 56 bits of the first seven as four
/// code points of 14 bits each, the last byte as the high 8 bits of a fifth
/// code point, and the padding mark U+3D01 for one leftover byte.
pub open spec fn eight_byte_text(d: Seq<u8>) -> Seq<char> {
    seq![
        code_point(be56(d) / 0x400_0000_0000 % 0x4000),
        code_point(be56(d) / 0x1000_0000 % 0x4000),
        code_point(be56(d) / 0x4000 % 0x4000),
        code_point(be56(d) % 0x4000),
        code_point(d[7] * 64),
        0x3D01 as char,
    ]
}

/// `Base16384Utf8::encode` of the `base16384` crate: the Base16384 text of
/// `data`.
///
/// The contract names the result, a function of `data` alone; states that
/// each of its characters is a Base16384 code point (the crate writes each
/// 14 bits of data as U+4E00 plus their value, and ends a text whose length
/// is not a multiple of 7 bytes with a padding mark); and spells out the
/// text of eight bytes (one chunk of seven, then one leftover byte). The
/// text of other lengths is not spelled out.
#[verifier::external_body]
fn encode_base16384(data: &[u8]) -> (r: String)
    ensures
        r@ == base16384_utf8(data@),
        forall|k: int| 0 <= k < r@.len() ==> is_base16384_char(#[trigger] r@[k]),
        data@.len() == 8 ==> r@ == eight_byte_text(data@),
{
    base16384::Base16384Utf8::encode(data)
}

/// The eight bytes of `id`, most significant first.
pub open spec fn be_bytes(id: u64) -> Seq<u8> {
    seq![
        (id >> 56u64) as u8,
        (id >> 48u64) as u8,
        (id >> 40u64) as u8,
        (id >> 32u64) as u8,
        (id >> 24u64) as u8,
        (id >> 16u64) as u8,
        (id >> 8u64) as u8,
        id as u8,
    ]
}

/// A name the game accepts: no control character (below U+0020), no `?`,
/// none of the special spaces U+2000 to U+202F, and no leading space.
pub open spec fn is_allowed_name(s: Seq<char>) -> bool {
    &&& forall|k: int|
        0 <= k < s.len() ==> {
            let c = #[trigger] s[k] as u32;
            c >= 0x20 && c != 0x3F && !(0x2000 <= c && c <= 0x202F)
        }
    &&& s.len() > 0 ==> s[0] != ' '
}

/// The name of the id `id`: the Base16384 text of its eight big-endian
/// bytes, which the game accepts as a name.
pub fn gen_name(id: u64) -> (r: String)
    ensures
        r@ == base16384_utf8(be_bytes(id)),
        r@ == eight_byte_text(be_bytes(id)),
        is_allowed_name(r@),
{
    let bytes: [u8; 8] = [
        (id >> 56u64) as u8,
        (id >> 48u64) as u8,
        (id >> 40u64) as u8,
        (id >> 32u64) as u8,
        (id >> 24u64) as u8,
        (id >> 16u64) as u8,
        (id >> 8u64) as u8,
        id as u8,
    ];
    proof {
        assert(bytes@ =~= be_bytes(id));
    }
    let r = encode_base16384(&bytes);
    proof {
        if r@.len() > 0 {
            assert(is_base16384_char(r@[0]));
        }
    }
    r
}

/// The name `name` in the team with permutation `team_val` passes the quick
/// screen and its attribute total exceeds `prop_expect` (three times the
/// total, in which the hit points count once, exceeds three times it).
pub open spec fn is_candidate(team_val: Seq<u8>, name: Seq<char>, prop_expect: u32) -> bool {
    let nb = fresh_bases(name_perm(team_val, encode_utf8(name)));
    screen_passes(nb) && property_thirds_of(props_of(nb)) > 3 * prop_expect
}

/// The ids among `start`, ..., `start + n - 1` whose names are candidates, in order.
pub open spec fn candidates(team_val: Seq<u8>, prop_expect: u32, start: u64, n: nat) -> Seq<u64>
    decreases n,
{
    if n == 0 {
        Seq::empty()
    } else {
        let p = candidates(team_val, prop_expect, start, (n - 1) as nat);
        let id = (start + n - 1) as u64;
        if is_candidate(team_val, base16384_utf8(be_bytes(id)), prop_expect) {
            p.push(id)
        } else {
            p
        }
    }
}

/// The settings of one mining thread.
pub struct CacluateConfig {
    /// The thread's id.
    pub thread_id: u32,
    /// The number of threads.
    pub thread_count: u32,
    /// The attribute total a name must exceed.
    pub prop_expect: u32,
    /// The evaluation score a name must reach.
    pub xp_expect: u32,
    /// The team.
    pub team: String,
    /// Whether batches are sized by time.
    pub time_based: bool,
    /// The core mask the thread runs on, if any.
    pub core_affinity: Option<usize>,
    /// The file the results go to.
    pub out_file: String,
}

/// A thread id.
pub type ThreadId = u32;

/// The sum of `s`.
pub open spec fn seq_sum(s: Seq<u64>) -> int
    decreases s.len(),
{
    if s.len() == 0 {
        0
    } else {
        seq_sum(s.drop_last()) + s.last()
    }
}

/// The sum of a concatenation is the sum of the sums.
pub proof fn lemma_seq_sum_concat(a: Seq<u64>, b: Seq<u64>)
    ensures
        seq_sum(a + b) == seq_sum(a) + seq_sum(b),
    decreases b.len(),
{
    if b.len() == 0 {
        assert(a + b =~= a);
    } else {
        lemma_seq_sum_concat(a, b.drop_last());
        assert((a + b).drop_last() =~= a + b.drop_last());
    }
}

proof fn lemma_seq_sum_nonneg(s: Seq<u64>)
    ensures
        seq_sum(s) >= 0,
    decreases s.len(),
{
    if s.len() > 0 {
        lemma_seq_sum_nonneg(s.drop_last());
    }
}

/// The sum of the first `n` entries is at most the whole sum.
proof fn lemma_seq_sum_prefix(s: Seq<u64>, n: int)
    requires
        0 <= n <= s.len(),
    ensures
        seq_sum(s.take(n)) <= seq_sum(s),
        n < s.len() ==> seq_sum(s.take(n + 1)) == seq_sum(s.take(n)) + s[n],
{
    assert(s =~= s.take(n) + s.skip(n));
    lemma_seq_sum_concat(s.take(n), s.skip(n));
    lemma_seq_sum_nonneg(s.skip(n));
    if n < s.len() {
        assert(s.take(n + 1).drop_last() =~= s.take(n));
    }
}

/// The sum of `s`, which must fit in a `u64`.
fn sum_u64(s: &Vec<u64>) -> (r: u64)
    requires
        seq_sum(s@) <= u64::MAX,
    ensures
        r == seq_sum(s@),
{
    let mut total: u64 = 0;
    let mut i: usize = 0;
    while i < s.len()
        invariant
            i <= s@.len(),
            seq_sum(s@) <= u64::MAX,
            total == seq_sum(s@.take(i as int)),
        decreases s@.len() - i,
    {
        proof {
            lemma_seq_sum_prefix(s@, i as int);
            lemma_seq_sum_prefix(s@, i + 1);
        }
        total = total + s[i];
        i = i + 1;
    }
    proof {
        assert(s@.take(i as int) =~= s@);
    }
    total
}

/// The state of the work shared by the mining threads.
pub struct ComputeStatus {
    /// The first id.
    pub start: u64,
    /// The id after the last.
    pub end: u64,
    /// The next id to hand out.
    pub top_id: u64,
    /// The speed of each thread.
    pub thread_speed: Vec<u64>,
    /// Whether each thread is computing.
    pub thread_running: Vec<bool>,
    /// How many names each thread found.
    pub thread_get_count: Vec<u64>,
}

/// `n` copies of `v`.
fn filled<T: Copy>(v: T, n: usize) -> (r: Vec<T>)
    ensures
        r@ == Seq::new(n as nat, |i: int| v),
{
    let mut r: Vec<T> = Vec::new();
    for i in 0..n
        invariant
            r@ == Seq::new(i as nat, |k: int| v),
    {
        r.push(v);
        proof {
            assert(r@ =~= Seq::new((i + 1) as nat, |k: int| v));
        }
    }
    r
}

impl ComputeStatus {
    /// The status before any work: the ids of `config`, the next id its
    /// start, and for each thread speed 0, not running, nothing found.
    pub fn new(config: &Command) -> (r: Self)
        ensures
            r.start == config.start,
            r.end == config.end,
            r.top_id == config.start,
            r.thread_speed@ == Seq::new(config.thread_count as nat, |i: int| 0u64),
            r.thread_running@ == Seq::new(config.thread_count as nat, |i: int| false),
            r.thread_get_count@ == Seq::new(config.thread_count as nat, |i: int| 0u64),
    {
        ComputeStatus {
            start: config.start,
            end: config.end,
            top_id: config.start,
            thread_speed: filled(0u64, config.thread_count as usize),
            thread_running: filled(false, config.thread_count as usize),
            thread_get_count: filled(0u64, config.thread_count as usize),
        }
    }

    /// The first thread that is not running, if any.
    pub fn get_idle_thread(&self) -> (r: Option<usize>)
        ensures
            match r {
                Some(k) => k < self.thread_running@.len() && !self.thread_running@[k as int]
                    && forall|j: int| 0 <= j < k ==> self.thread_running@[j],
                None => forall|j: int|
                    0 <= j < self.thread_running@.len() ==> self.thread_running@[j],
            },
    {
        let mut i: usize = 0;
        while i < self.thread_running.len()
            invariant
                i <= self.thread_running@.len(),
                forall|j: int| 0 <= j < i ==> self.thread_running@[j],
            decreases self.thread_running@.len() - i,
        {
            if !self.thread_running[i] {
                return Some(i);
            }
            i = i + 1;
        }
        None
    }

    /// No thread is running.
    pub fn all_stoped(&self) -> (r: bool)
        ensures
            r == forall|j: int| 0 <= j < self.thread_running@.len() ==> !self.thread_running@[j],
    {
        let mut i: usize = 0;
        while i < self.thread_running.len()
            invariant
                i <= self.thread_running@.len(),
                forall|j: int| 0 <= j < i ==> !self.thread_running@[j],
            decreases self.thread_running@.len() - i,
        {
            if self.thread_running[i] {
                return false;
            }
            i = i + 1;
        }
        true
    }

    /// Records the speed of thread `thread_id`.
    pub fn update_speed(&mut self, thread_id: ThreadId, speed: u64)
        requires
            thread_id < old(self).thread_speed@.len(),
        ensures
            final(self).thread_speed@ == old(self).thread_speed@.update(thread_id as int, speed),
            final(self).thread_running == old(self).thread_running,
            final(self).thread_get_count == old(self).thread_get_count,
            final(self).start == old(self).start,
            final(self).end == old(self).end,
            final(self).top_id == old(self).top_id,
    {
        self.thread_speed.set(thread_id as usize, speed);
    }

    /// Records whether thread `thread_id` is running.
    pub fn update_running(&mut self, thread_id: ThreadId, running: bool)
        requires
            thread_id < old(self).thread_running@.len(),
        ensures
            final(self).thread_running@ == old(self).thread_running@.update(
                thread_id as int,
                running,
            ),
            final(self).thread_speed == old(self).thread_speed,
            final(self).thread_get_count == old(self).thread_get_count,
            final(self).start == old(self).start,
            final(self).end == old(self).end,
            final(self).top_id == old(self).top_id,
    {
        self.thread_running.set(thread_id as usize, running);
    }

    /// Adds `count` to what thread `thread_id` found.
    pub fn add_get_count(&mut self, thread_id: ThreadId, count: u64)
        requires
            thread_id < old(self).thread_get_count@.len(),
            old(self).thread_get_count@[thread_id as int] + count <= u64::MAX,
        ensures
            final(self).thread_get_count@ == old(self).thread_get_count@.update(
                thread_id as int,
                (old(self).thread_get_count@[thread_id as int] + count) as u64,
            ),
            final(self).thread_speed == old(self).thread_speed,
            final(self).thread_running == old(self).thread_running,
            final(self).start == old(self).start,
            final(self).end == old(self).end,
            final(self).top_id == old(self).top_id,
    {
        let t = thread_id as usize;
        let v = self.thread_get_count[t] + count;
        self.thread_get_count.set(t, v);
    }

    /// The total speed of all threads.
    pub fn count_speed(&self) -> (r: u64)
        requires
            seq_sum(self.thread_speed@) <= u64::MAX,
        ensures
            r == seq_sum(self.thread_speed@),
    {
        sum_u64(&self.thread_speed)
    }

    /// The total number of names found.
    pub fn get_sum_count(&self) -> (r: u64)
        requires
            seq_sum(self.thread_get_count@) <= u64::MAX,
        ensures
            r == seq_sum(self.thread_get_count@),
    {
        sum_u64(&self.thread_get_count)
    }
}


/// Every base value of `n` is below 64.
pub open spec fn bases_below_64(n: Namer) -> bool {
    forall|k: int| 0 <= k < 128 ==> n.name_base@[k] < 64
}

/// Puts `name` of the team `team_namer` into `main_namer` and screens it:
/// `true` when the name passes the quick screen and its attribute total
/// exceeds `prop_expect`; the skills of a name that passes are then updated.
#[verifier::spinoff_prover]
pub fn screen_name(main_namer: &mut Namer, team_namer: &TeamNamer, name: &str, prop_expect: u32) -> (r: bool)
    requires
        is_perm256(team_namer.val@),
        bases_below_64(*old(main_namer)),
    ensures
        r == is_candidate(team_namer.val@, name@, prop_expect),
        bases_below_64(*final(main_namer)),
        final(main_namer).name@ == name@,
        final(main_namer).team == old(main_namer).team,
        ({
            let v = name_perm(team_namer.val@, encode_utf8(name@));
            if r {
                &&& final(main_namer).val@ == shuffle_state(v, skill_order(), 80).0
                &&& final(main_namer).skl_id@ == shuffle_state(v, skill_order(), 80).4
                &&& final(main_namer).name_prop@ == props_of(fresh_bases(v))
            } else {
                final(main_namer).val@ == v
            }
        }),
{
    let ghost old_nb = main_namer.name_base@;
    let ghost old_props = main_namer.name_prop@;
    let ghost old_freq = main_namer.skl_freq@;
    let pass = main_namer.replace_name(team_namer, name);
    let ghost v = main_namer.val@;
    proof {
        lemma_replace_matches_fresh(team_namer.val@, encode_utf8(name@), old_nb, old_props, old_freq);
        lemma_name_perm_is_perm(team_namer.val@, encode_utf8(name@));
        lemma_perm_base_count(v);
        lemma_capped_below_64(v, 256, 31);
        let w = capped_bases(v, 256, 31);
        assert forall|k: int| 0 <= k < 128 implies main_namer.name_base@[k] < 64 by {
            if k < w.len() {
                assert(main_namer.name_base@[k] == w[k]);
            } else {
                assert(main_namer.name_base@[k] == old_nb[k]);
            }
        }
    }
    if !pass {
        return false;
    }
    let thirds = main_namer.property_thirds();
    if thirds <= 3 * prop_expect as u64 {
        return false;
    }
    let ghost nb1 = main_namer.name_base@;
    main_namer.update_skill();
    proof {
        lemma_capped_below_64(v, 256, 256);
        let w = capped_bases(v, 256, 256);
        assert forall|k: int| 0 <= k < 128 implies main_namer.name_base@[k] < 64 by {
            if k < w.len() {
                assert(main_namer.name_base@[k] == w[k]);
            } else {
                assert(main_namer.name_base@[k] == nb1[k]);
            }
        }
    }
    true
}

/// Screens the ids `start..end` of the team `team_namer`, one after the
/// other in `main_namer`: the ids whose names are candidates, in order (none
/// when the range is empty).
pub fn inner_cacl(
    config: &CacluateConfig,
    start: u64,
    end: u64,
    main_namer: &mut Namer,
    team_namer: &TeamNamer,
) -> (r: Vec<u64>)
    requires
        is_perm256(team_namer.val@),
        bases_below_64(*old(main_namer)),
    ensures
        r@ == candidates(
            team_namer.val@,
            config.prop_expect,
            start,
            (if start <= end { end - start } else { 0 }) as nat,
        ),
        bases_below_64(*final(main_namer)),
        final(main_namer).team == old(main_namer).team,
{
    let mut found: Vec<u64> = Vec::new();
    if end <= start {
        return found;
    }
    let mut i: u64 = start;
    while i < end
        invariant
            start <= i <= end,
            is_perm256(team_namer.val@),
            bases_below_64(*main_namer),
            main_namer.team == old(main_namer).team,
            found@ == candidates(team_namer.val@, config.prop_expect, start, (i - start) as nat),
        decreases end - i,
    {
        let name = gen_name(i);
        let hit = screen_name(main_namer, team_namer, name.as_str(), config.prop_expect);
        if hit {
            found.push(i);
        }
        proof {
            assert((start + (i + 1 - start) - 1) as u64 == i);
        }
        i = i + 1;
    }
    found
}

/// What the dispatcher sends to the threads next.
#[derive(PartialEq, Eq, Structural, Debug, Clone, Copy)]
pub enum Dispatch {
    /// The ids `start..end` for thread `thread`; more batches follow.
    Batch { thread: u32, start: u64, end: u64 },
    /// The last ids `start..end` for thread `thread`; then every thread is told to stop.
    Last { thread: u32, start: u64, end: u64 },
}

/// One answer of the speed-sized dispatcher when the next id is `top` and
/// the thread reports `speed`: the batch `(start, end)` it hands out, whether
/// that batch is the last, and the next id after it.
pub open spec fn dynamic_step(top: int, end: int, speed: int, report_interval: int) -> (
    int,
    int,
    bool,
    int,
) {
    if speed == 0 {
        if top + 10000 >= end {
            (top, end, true, top)
        } else {
            (top, top + 10000, false, top + 10000)
        }
    } else if top + speed * report_interval > end {
        (top, end, true, top)
    } else {
        (top, top + speed * report_interval, false, top + speed * report_interval)
    }
}

/// The batches the speed-sized dispatcher hands out from `top` on for the
/// reported speeds `speeds`, in order, up to and including the last batch.
pub open spec fn dynamic_batches(top: int, end: int, speeds: Seq<int>, report_interval: int) -> Seq<
    (int, int),
>
    decreases speeds.len(),
{
    if speeds.len() == 0 {
        Seq::empty()
    } else {
        let st = dynamic_step(top, end, speeds[0], report_interval);
        if st.2 {
            seq![(st.0, st.1)]
        } else {
            seq![(st.0, st.1)] + dynamic_batches(st.3, end, speeds.drop_first(), report_interval)
        }
    }
}

/// The speed-sized batches follow one another without gap or overlap: the
/// first starts at `top`, each ends where the next starts, and when the
/// answers stop before the requests run out, the last batch ends at `end`.
pub proof fn lemma_dynamic_batches_contiguous(
    top: int,
    end: int,
    speeds: Seq<int>,
    report_interval: int,
)
    requires
        report_interval >= 0,
        forall|k: int| 0 <= k < speeds.len() ==> speeds[k] >= 0,
    ensures
        ({
            let b = dynamic_batches(top, end, speeds, report_interval);
            &&& b.len() <= speeds.len()
            &&& speeds.len() > 0 ==> b.len() > 0 && b[0].0 == top
            &&& forall|k: int| 0 <= k < b.len() - 1 ==> #[trigger] b[k].1 == b[k + 1].0
            &&& b.len() < speeds.len() ==> b.last().1 == end
            &&& top <= end ==> forall|k: int|
                0 <= k < b.len() ==> top <= #[trigger] b[k].0 <= b[k].1 <= end
        }),
    decreases speeds.len(),
{
    if speeds.len() > 0 {
        let st = dynamic_step(top, end, speeds[0], report_interval);
        let b = dynamic_batches(top, end, speeds, report_interval);
        assert(speeds[0] * report_interval >= 0) by (nonlinear_arith)
            requires
                speeds[0] >= 0,
                report_interval >= 0,
        ;
        if !st.2 {
            let rest = dynamic_batches(st.3, end, speeds.drop_first(), report_interval);
            assert forall|k: int| 0 <= k < speeds.drop_first().len() implies speeds.drop_first()[k]
                >= 0 by {
                assert(speeds.drop_first()[k] == speeds[k + 1]);
            }
            lemma_dynamic_batches_contiguous(st.3, end, speeds.drop_first(), report_interval);
            assert(b == seq![(st.0, st.1)] + rest);
            assert forall|k: int| 0 <= k < b.len() - 1 implies #[trigger] b[k].1 == b[k + 1].0 by {
                if k > 0 {
                    assert(b[k] == rest[k - 1]);
                    assert(b[k + 1] == rest[k]);
                } else {
                    assert(b[1] == rest[0]);
                }
            }
            if b.len() < speeds.len() {
                assert(b.last() == rest.last());
            }
            if top <= end {
                assert forall|k: int| 0 <= k < b.len() implies top <= #[trigger] b[k].0 <= b[k].1
                    <= end by {
                    if k > 0 {
                        assert(b[k] == rest[k - 1]);
                    }
                }
            }
        }
    }
}

/// Answers a thread's request when batches are sized by speed: forgets the
/// marks of threads that are running, then hands thread `request.0` the
/// next 10000 ids when it reports no speed yet, else as many ids as it
/// computes in `report_interval` seconds at speed `request.1`; when that
/// batch would reach or pass the end (with no speed yet) or pass it (with a
/// speed), the rest of the ids up to the end, as the last batch.
#[verifier::spinoff_prover]
pub fn dispatch_dynamic(
    status: &mut ComputeStatus,
    sended: &mut Vec<bool>,
    request: (ThreadId, u32),
    report_interval: u64,
) -> (r: Dispatch)
    requires
        old(sended)@.len() <= old(status).thread_running@.len(),
        request.1 != 0 ==> request.1 * report_interval <= u64::MAX,
        request.1 != 0 ==> old(status).top_id + request.1 * report_interval <= u64::MAX,
    ensures
        final(sended)@.len() == old(sended)@.len(),
        forall|i: int|
            0 <= i < old(sended)@.len() ==> #[trigger] final(sended)@[i] == (old(sended)@[i]
                && !old(status).thread_running@[i]),
        final(status).start == old(status).start,
        final(status).end == old(status).end,
        final(status).thread_speed == old(status).thread_speed,
        final(status).thread_running == old(status).thread_running,
        final(status).thread_get_count == old(status).thread_get_count,
        ({
            let st = dynamic_step(
                old(status).top_id as int,
                old(status).end as int,
                request.1 as int,
                report_interval as int,
            );
            &&& final(status).top_id == st.3
            &&& match r {
                Dispatch::Batch { start, end, .. } => !st.2 && start == st.0 && end == st.1,
                Dispatch::Last { start, end, .. } => st.2 && start == st.0 && end == st.1,
            }
        }),
        ({
            let top = old(status).top_id;
            let batch = request.1 * report_interval;
            if request.1 == 0 && top + 10000 >= old(status).end {
                &&& r == (Dispatch::Last { thread: request.0, start: top, end: old(status).end })
                &&& final(status).top_id == top
            } else if request.1 == 0 {
                &&& r == (Dispatch::Batch { thread: request.0, start: top, end: (top + 10000) as u64 })
                &&& final(status).top_id == top + 10000
            } else if top + batch > old(status).end {
                &&& r == (Dispatch::Last { thread: request.0, start: top, end: old(status).end })
                &&& final(status).top_id == top
            } else {
                &&& r == (Dispatch::Batch { thread: request.0, start: top, end: (top + batch) as u64 })
                &&& final(status).top_id == top + batch
            }
        }),
{
    let mut i: usize = 0;
    while i < sended.len()
        invariant
            sended@.len() == old(sended)@.len(),
            sended@.len() <= status.thread_running@.len(),
            i <= sended@.len(),
            forall|k: int|
                0 <= k < i ==> #[trigger] sended@[k] == (old(sended)@[k] && !status.thread_running@[k]),
            forall|k: int| i <= k < sended@.len() ==> sended@[k] == old(sended)@[k],
        decreases sended@.len() - i,
    {
        if sended[i] && status.thread_running[i] {
            sended.set(i, false);
        }
        i = i + 1;
    }
    let top = status.top_id;
    if request.1 == 0 {
        if top >= status.end || status.end - top <= 10000 {
            Dispatch::Last { thread: request.0, start: top, end: status.end }
        } else {
            status.top_id = top + 10000;
            Dispatch::Batch { thread: request.0, start: top, end: top + 10000 }
        }
    } else {
        let batch = request.1 as u64 * report_interval;
        if top + batch > status.end {
            Dispatch::Last { thread: request.0, start: top, end: status.end }
        } else {
            status.top_id = top + batch;
            Dispatch::Batch { thread: request.0, start: top, end: top + batch }
        }
    }
}

/// The batches `(start, end)` the fixed dispatcher hands out from `top` on,
/// `size` ids each, until the one that reaches `end`.
pub open spec fn fixed_batches(top: int, end: int, size: int) -> Seq<(int, int)>
    decreases end - top,
    when size > 0
{
    if top + size >= end {
        seq![(top, end)]
    } else {
        seq![(top, top + size)] + fixed_batches(top + size, end, size)
    }
}

/// The fixed batches from `top` cover the ids `top..end` one after the
/// other: the first starts at `top`, each ends where the next starts, the
/// last ends at `end`, and none is empty.
pub proof fn lemma_fixed_batches_tile(top: int, end: int, size: int)
    requires
        size > 0,
        top < end,
    ensures
        ({
            let b = fixed_batches(top, end, size);
            &&& b.len() >= 1
            &&& b[0].0 == top
            &&& b.last().1 == end
            &&& forall|k: int| 0 <= k < b.len() ==> #[trigger] b[k].0 < b[k].1
            &&& forall|k: int| 0 <= k < b.len() - 1 ==> #[trigger] b[k].1 == b[k + 1].0
        }),
    decreases end - top,
{
    let b = fixed_batches(top, end, size);
    if top + size < end {
        lemma_fixed_batches_tile(top + size, end, size);
        let rest = fixed_batches(top + size, end, size);
        assert(b == seq![(top, top + size)] + rest);
        assert forall|k: int| 0 <= k < b.len() - 1 implies #[trigger] b[k].1 == b[k + 1].0 by {
            if k > 0 {
                assert(b[k] == rest[k - 1]);
                assert(b[k + 1] == rest[k]);
            }
        }
        assert forall|k: int| 0 <= k < b.len() implies #[trigger] b[k].0 < b[k].1 by {
            if k > 0 {
                assert(b[k] == rest[k - 1]);
            }
        }
    }
}

/// Answers a request when batches have a fixed size: the first idle thread
/// gets the next `batch_size` ids, or the rest when they reach the end;
/// `None` when no thread is idle.
#[verifier::spinoff_prover]
pub fn dispatch_fixed(status: &mut ComputeStatus, batch_size: u64) -> (r: Option<Dispatch>)
    requires
        old(status).thread_running@.len() <= u32::MAX,
        old(status).top_id + batch_size <= u64::MAX,
    ensures
        final(status).start == old(status).start,
        final(status).end == old(status).end,
        final(status).thread_speed == old(status).thread_speed,
        final(status).thread_running == old(status).thread_running,
        final(status).thread_get_count == old(status).thread_get_count,
        ({
            let top = old(status).top_id;
            let running = old(status).thread_running@;
            match r {
                None => {
                    &&& forall|j: int| 0 <= j < running.len() ==> running[j]
                    &&& final(status).top_id == top
                },
                Some(d) => {
                    let t = match d {
                        Dispatch::Batch { thread, .. } => thread,
                        Dispatch::Last { thread, .. } => thread,
                    };
                    &&& t < running.len()
                    &&& !running[t as int]
                    &&& forall|j: int| 0 <= j < t ==> running[j]
                    &&& batch_size > 0 ==> fixed_batches(top as int, old(status).end as int, batch_size as int)
                        == seq![match d {
                            Dispatch::Batch { start, end, .. } => (start as int, end as int),
                            Dispatch::Last { start, end, .. } => (start as int, end as int),
                        }] + match d {
                            Dispatch::Batch { .. } => fixed_batches(
                                final(status).top_id as int,
                                old(status).end as int,
                                batch_size as int,
                            ),
                            Dispatch::Last { .. } => Seq::empty(),
                        }
                    &&& if top + batch_size >= old(status).end {
                        &&& d == (Dispatch::Last { thread: t, start: top, end: old(status).end })
                        &&& final(status).top_id == top
                    } else {
                        &&& d == (Dispatch::Batch {
                            thread: t,
                            start: top,
                            end: (top + batch_size) as u64,
                        })
                        &&& final(status).top_id == top + batch_size
                    }
                },
            }
        }),
{
    let idle = status.get_idle_thread();
    match idle {
        None => None,
        Some(t) => {
            let thread = t as u32;
            let top = status.top_id;
            if top + batch_size >= status.end {
                Some(Dispatch::Last { thread, start: top, end: status.end })
            } else {
                status.top_id = top + batch_size;
                Some(Dispatch::Batch { thread, start: top, end: top + batch_size })
            }
        },
    }
}

/// What a mining thread does with what it received.
#[derive(PartialEq, Eq, Structural, Debug, Clone, Copy)]
pub enum WorkerStep {
    /// Compute the ids `start..end`.
    Compute { start: u64, end: u64 },
    /// The batch was for another thread: ask again.
    Retry,
    /// Stop: the work is done or the dispatcher is gone.
    Stop,
}

/// The step of thread `thread_id` on `received`: `None` when the channel
/// closed, `Some(None)` when told to stop, `Some(Some((t, start, end)))`
/// for a batch meant for thread `t`.
pub fn worker_step(thread_id: ThreadId, received: Option<Option<(ThreadId, u64, u64)>>) -> (r: WorkerStep)
    ensures
        r == match received {
            Some(Some((t, s, e))) => if t == thread_id {
                WorkerStep::Compute { start: s, end: e }
            } else {
                WorkerStep::Retry
            },
            _ => WorkerStep::Stop,
        },
{
    match received {
        Some(Some((t, s, e))) => {
            if t == thread_id {
                WorkerStep::Compute { start: s, end: e }
            } else {
                WorkerStep::Retry
            }
        },
        _ => WorkerStep::Stop,
    }
}


/// How the miner starts.
pub enum StartPlan {
    /// Compute in the main thread with `config`, the process pinned to `cores`.
    Single { config: CacluateConfig, cores: usize },
    /// Start the mining threads and the dispatcher.
    Threads,
}

/// How the miner starts with the settings `cli_arg` and the output file
/// `out_path`: one thread computes in the main thread, pinned to its core;
/// several threads get the dispatcher.
pub fn start_main(cli_arg: &Command, out_path: &String) -> (r: StartPlan)
    requires
        cli_arg.thread_count == 1 ==> cli_arg.pick_core < usize::BITS,
    ensures
        match r {
            StartPlan::Single { config, cores } => {
                &&& cli_arg.thread_count == 1
                &&& cores == (1usize << cli_arg.pick_core) as usize
                &&& config.core_affinity == Some(cores)
                &&& config.thread_id == 0
                &&& config.thread_count == 1
                &&& config.prop_expect == cli_arg.prop_expect
                &&& config.xp_expect == cli_arg.qp_expect
                &&& config.team@ == cli_arg.team@
                &&& config.out_file@ == out_path@
            },
            StartPlan::Threads => cli_arg.thread_count != 1,
        },
{
    if cli_arg.is_single_core() {
        let config = cli_arg.as_cacl_config(out_path);
        let cores = match config.core_affinity {
            Some(c) => c,
            None => 0,
        };
        StartPlan::Single { config, cores }
    } else {
        StartPlan::Threads
    }
}

/// The settings of mining thread `i`: those of `cli_arg`, with the thread's
/// id and the thread pinned to core `i`.
pub fn thread_config(cli_arg: &Command, out_path: &String, i: u32) -> (r: CacluateConfig)
    requires
        i < usize::BITS,
        cli_arg.thread_count == 1 ==> cli_arg.pick_core < usize::BITS,
    ensures
        r.thread_id == i,
        r.thread_count == cli_arg.thread_count,
        r.prop_expect == cli_arg.prop_expect,
        r.xp_expect == cli_arg.qp_expect,
        r.team@ == cli_arg.team@,
        !r.time_based,
        r.core_affinity == Some((1usize << i) as usize),
        r.out_file@ == out_path@,
{
    let mut config = cli_arg.as_cacl_config(out_path);
    config.thread_id = i;
    config.core_affinity = Some(1usize << i);
    config
}

} // verus!
