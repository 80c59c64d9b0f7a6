//! Owns the two most recent counter snapshots and the cached diffed loads,
//! and throttles how often a fresh sample is taken. Reading the counters
//! themselves is the host's job: the host asks [`LoadReader::needs_refresh`],
//! samples if so, and hands the fresh counters to [`LoadReader::refresh`].

use vstd::prelude::*;

verus! {

use crate::cpuload::{diff, diff_spec, CpuLoad, LoadCounters};

/// Seconds that must fully elapse between two counter samples.
pub const SECONDS_BETWEEN_MEASUREMENTS: u64 = 1;

pub struct LoadReader {
    pub last_result: Vec<CpuLoad>,
    pub last_update_done_ms: u64,
    pub older_sample: Vec<LoadCounters>,
    pub newer_sample: Vec<LoadCounters>,
}

impl LoadReader {
    /// The cached loads are always the diff of the two stored snapshots.
    pub open spec fn wf(self) -> bool {
        &&& self.last_result@ == diff_spec(self.older_sample@, self.newer_sample@)
        &&& forall|i: int|
            0 <= i < self.last_result@.len() ==> (#[trigger] self.last_result@[i]).wf()
    }

    /// A reader takes one sample immediately, storing it as the newer
    /// snapshot against an empty older one, so a (zero) load exists per
    /// core before the first interval elapses.
    pub fn new(initial_counters: Vec<LoadCounters>, now_ms: u64) -> (r: LoadReader)
        ensures
            r.wf(),
            r.older_sample@ == Seq::<LoadCounters>::empty(),
            r.newer_sample@ == initial_counters@,
            r.last_update_done_ms == now_ms,
            r.last_result@ == diff_spec(Seq::<LoadCounters>::empty(), initial_counters@),
    {
        let older: Vec<LoadCounters> = Vec::new();
        let last_result = diff(&older, &initial_counters);
        LoadReader {
            last_result,
            last_update_done_ms: now_ms,
            older_sample: older,
            newer_sample: initial_counters,
        }
    }

    /// Is a fresh sample due? More than the measurement interval must have
    /// passed, counted in whole seconds, since the last refresh.
    pub fn needs_refresh(&self, now_ms: u64) -> (due: bool)
        requires
            now_ms >= self.last_update_done_ms,
        ensures
            due == ((now_ms - self.last_update_done_ms) / 1000 > SECONDS_BETWEEN_MEASUREMENTS),
    {
        (now_ms - self.last_update_done_ms) / 1000 > SECONDS_BETWEEN_MEASUREMENTS
    }

    /// Consume a fresh sample: the newer snapshot becomes the older one,
    /// the fresh counters become the newer one, and the cached loads are
    /// recomputed from the pair.
    pub fn refresh(&mut self, counters: Vec<LoadCounters>, now_ms: u64)
        ensures
            final(self).wf(),
            final(self).older_sample@ == old(self).newer_sample@,
            final(self).newer_sample@ == counters@,
            final(self).last_update_done_ms == now_ms,
            final(self).last_result@ == diff_spec(old(self).newer_sample@, counters@),
    {
        let mut fresh = counters;
        core::mem::swap(&mut self.newer_sample, &mut fresh);
        core::mem::swap(&mut self.older_sample, &mut fresh);
        let loads = diff(&self.older_sample, &self.newer_sample);
        self.last_result = loads;
        self.last_update_done_ms = now_ms;
    }

    /// A copy of the cached loads. Never blocks and never samples.
    pub fn get_loads(&self) -> (loads: Vec<CpuLoad>)
        ensures
            loads@ == self.last_result@,
    {
        let mut loads: Vec<CpuLoad> = Vec::new();
        let mut i: usize = 0;
        while i < self.last_result.len()
            invariant
                i <= self.last_result@.len(),
                loads@ == self.last_result@.take(i as int),
            decreases self.last_result@.len() - i,
        {
            loads.push(self.last_result[i]);
            proof {
                assert(self.last_result@.take(i + 1) =~= self.last_result@.take(i as int).push(
                    self.last_result@[i as int],
                ));
            }
            i += 1;
        }
        proof {
            assert(self.last_result@.take(self.last_result@.len() as int) =~= self.last_result@);
        }
        loads
    }
}

} // verus!
