//! The command line settings of the miner.
use vstd::prelude::*;
use crate::cacluate::CacluateConfig;

verus! {

/// The settings the miner is started with.
pub struct Command {
    /// The first id.
    pub start: u64,
    /// The id after the last.
    pub end: u64,
    /// The number of threads.
    pub thread_count: u32,
    /// The attribute total a name must exceed.
    pub prop_expect: u32,
    /// The evaluation score a name must reach.
    pub qp_expect: u32,
    /// The team.
    pub team: String,
    /// Seconds between status reports.
    pub report_interval: u64,
    /// The core a single thread runs on (counted from 0).
    pub pick_core: usize,
    /// Whether this is a child process.
    pub is_sub_process: bool,
}

impl Command {
    /// The settings of thread 0 writing to `out_file`: a single thread is
    /// pinned to the core `pick_core`; several threads are not pinned here.
    pub fn as_cacl_config(&self, out_file: &String) -> (r: CacluateConfig)
        requires
            self.thread_count == 1 ==> self.pick_core < usize::BITS,
        ensures
            r.thread_id == 0,
            r.thread_count == self.thread_count,
            r.prop_expect == self.prop_expect,
            r.xp_expect == self.qp_expect,
            r.team@ == self.team@,
            !r.time_based,
            r.core_affinity == if self.thread_count == 1 {
                Some((1usize << self.pick_core) as usize)
            } else {
                None::<usize>
            },
            r.out_file@ == out_file@,
    {
        CacluateConfig {
            thread_id: 0,
            thread_count: self.thread_count,
            prop_expect: self.prop_expect,
            xp_expect: self.qp_expect,
            team: self.team.clone(),
            time_based: false,
            core_affinity: if self.thread_count == 1 {
                Some(1usize << self.pick_core)
            } else {
                None
            },
            out_file: out_file.clone(),
        }
    }

    /// Only one thread runs.
    pub fn is_single_core(&self) -> (r: bool)
        ensures
            r == (self.thread_count == 1),
    {
        self.thread_count == 1
    }

    /// Moves the end by the start's remainder modulo the thread count
    /// (wrapping), so that every thread gets as many ids.
    pub fn align_end(&mut self)
        requires
            old(self).thread_count > 0,
        ensures
            final(self).end == (old(self).end + old(self).start % (old(self).thread_count as u64))
                % 0x1_0000_0000_0000_0000,
            final(self).start == old(self).start,
            final(self).thread_count == old(self).thread_count,
            final(self).prop_expect == old(self).prop_expect,
            final(self).qp_expect == old(self).qp_expect,
            final(self).team == old(self).team,
            final(self).report_interval == old(self).report_interval,
            final(self).pick_core == old(self).pick_core,
            final(self).is_sub_process == old(self).is_sub_process,
    {
        let left = self.start % self.thread_count as u64;
        self.end = self.end.wrapping_add(left);
    }
}

} // verus!
