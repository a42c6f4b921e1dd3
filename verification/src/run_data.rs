//! Per-run timing summary and comparative metrics.
//!
//! A run's wall time is the maximum clock across its simulated processors
//! (the critical path); the communication and idle overheads are stored as
//! absolute times averaged across processors. Speedup and efficiency against
//! a reference run are exact ratios of integers.

use vstd::prelude::*;

verus! {

/// Simulated processor: accumulated clock and its decomposition into compute,
/// communication and idle time.
#[derive(Clone, Copy, PartialEq, Eq, Structural, Debug)]
pub struct Processor {
    pub time: u64,
    pub time_spent_working: u64,
    pub time_spent_communicating: u64,
    pub time_spent_waiting: u64,
}

impl Processor {
    /// The clock decomposes exactly into compute, communication and idle time.
    pub open spec fn wf(self) -> bool {
        self.time == self.time_spent_working + self.time_spent_communicating
            + self.time_spent_waiting
    }

    /// Fresh processor with all counters at zero.
    pub fn new() -> (p: Processor)
        ensures
            p.time == 0,
            p.time_spent_working == 0,
            p.time_spent_communicating == 0,
            p.time_spent_waiting == 0,
            p.wf(),
    {
        Processor { time: 0, time_spent_working: 0, time_spent_communicating: 0, time_spent_waiting: 0 }
    }
}

/// Largest clock among the processors.
pub open spec fn spec_max_time(procs: Seq<Processor>) -> int
    decreases procs.len(),
{
    if procs.len() == 0 {
        0
    } else if procs.last().time >= spec_max_time(procs.drop_last()) {
        procs.last().time as int
    } else {
        spec_max_time(procs.drop_last())
    }
}

/// Sum of the processors' communication times.
pub open spec fn spec_sum_comm(procs: Seq<Processor>) -> int
    decreases procs.len(),
{
    if procs.len() == 0 {
        0
    } else {
        spec_sum_comm(procs.drop_last()) + procs.last().time_spent_communicating
    }
}

/// Sum of the processors' idle times.
pub open spec fn spec_sum_wait(procs: Seq<Processor>) -> int
    decreases procs.len(),
{
    if procs.len() == 0 {
        0
    } else {
        spec_sum_wait(procs.drop_last()) + procs.last().time_spent_waiting
    }
}

/// Exact ratio of two integral quantities, kept unevaluated so that equality
/// and comparisons stay exact.
#[derive(Clone, Copy, PartialEq, Eq, Structural, Debug)]
pub struct Ratio {
    pub num: u128,
    pub den: u128,
}

/// Per-run snapshot: critical-path wall time, processor count, and the two
/// overhead times averaged across processors. The averages are exact
/// ratios (summed time over processor count), so a non-zero overhead is
/// never reported as zero.
#[derive(Clone, Copy, PartialEq, Eq, Structural, Debug)]
pub struct RunData {
    pub time: u64,
    pub num_processors: usize,
    pub time_spent_communicating: Ratio,
    pub time_spent_waiting: Ratio,
}

/// Speedup of `run` against `reference`: reference time over own time.
pub open spec fn spec_speedup(run: RunData, reference: RunData) -> Ratio {
    Ratio { num: reference.time as u128, den: run.time as u128 }
}

/// Efficiency of `run` against `reference`: speedup normalized by the
/// relative processor counts.
pub open spec fn spec_efficiency(run: RunData, reference: RunData) -> Ratio {
    Ratio {
        num: (reference.time * reference.num_processors) as u128,
        den: (run.time * run.num_processors) as u128,
    }
}

impl RunData {
    /// Reduces a completed set of simulated processors: wall time is the
    /// maximum clock, overheads are averaged across processors as exact
    /// ratios of the summed time over the processor count.
    pub fn new(processors: &Vec<Processor>) -> (r: RunData)
        requires
            processors@.len() >= 1,
            spec_sum_comm(processors@) <= u64::MAX,
            spec_sum_wait(processors@) <= u64::MAX,
        ensures
            r.time == spec_max_time(processors@),
            r.num_processors == processors@.len(),
            r.time_spent_communicating.num == spec_sum_comm(processors@),
            r.time_spent_communicating.den == processors@.len(),
            r.time_spent_waiting.num == spec_sum_wait(processors@),
            r.time_spent_waiting.den == processors@.len(),
    {
        let n = processors.len();
        let mut time: u64 = 0;
        let mut sum_comm: u64 = 0;
        let mut sum_wait: u64 = 0;
        let mut i: usize = 0;
        while i < n
            invariant
                n == processors@.len(),
                i <= n,
                time == spec_max_time(processors@.take(i as int)),
                sum_comm == spec_sum_comm(processors@.take(i as int)),
                sum_wait == spec_sum_wait(processors@.take(i as int)),
                spec_sum_comm(processors@) <= u64::MAX,
                spec_sum_wait(processors@) <= u64::MAX,
            decreases n - i,
        {
            proof {
                assert(processors@.take(i + 1 as int).drop_last() =~= processors@.take(i as int));
                assert(processors@.take(i + 1 as int).last() == processors@[i as int]);
                lemma_sum_comm_prefix_le(processors@, i + 1 as int);
                lemma_sum_wait_prefix_le(processors@, i + 1 as int);
                lemma_sum_comm_nonneg(processors@.take(i as int));
                lemma_sum_wait_nonneg(processors@.take(i as int));
            }
            let p = &processors[i];
            if p.time > time {
                time = p.time;
            }
            sum_comm = sum_comm + p.time_spent_communicating;
            sum_wait = sum_wait + p.time_spent_waiting;
            i = i + 1;
        }
        proof {
            assert(processors@.take(n as int) =~= processors@);
        }
        RunData {
            time,
            num_processors: n,
            time_spent_communicating: Ratio { num: sum_comm as u128, den: n as u128 },
            time_spent_waiting: Ratio { num: sum_wait as u128, den: n as u128 },
        }
    }

    /// Speedup against a reference run, as an exact ratio.
    pub fn get_speedup(&self, reference: &RunData) -> (r: Ratio)
        requires
            self.time > 0,
        ensures
            r == spec_speedup(*self, *reference),
            r.den > 0,
    {
        Ratio { num: reference.time as u128, den: self.time as u128 }
    }

    /// Efficiency against a reference run, as an exact ratio.
    pub fn get_efficiency(&self, reference: &RunData) -> (r: Ratio)
        requires
            self.time > 0,
            self.num_processors > 0,
        ensures
            r == spec_efficiency(*self, *reference),
            r.den > 0,
    {
        proof {
            lemma_u64_usize_product_fits(
                reference.time as int,
                reference.num_processors as int,
            );
            lemma_u64_usize_product_fits(self.time as int, self.num_processors as int);
            assert(self.time as int * self.num_processors as int > 0) by (nonlinear_arith)
                requires
                    self.time as int > 0,
                    self.num_processors as int > 0,
            ;
        }
        Ratio {
            num: (reference.time as u128) * (reference.num_processors as u128),
            den: (self.time as u128) * (self.num_processors as u128),
        }
    }
}

/// A run compared against itself has speedup exactly one: the ratio's
/// numerator and denominator coincide.
pub proof fn lemma_speedup_of_self_is_one(run: RunData)
    ensures
        spec_speedup(run, run).num == spec_speedup(run, run).den,
{
}

/// A run compared against itself has efficiency exactly one: the ratio's
/// numerator and denominator coincide.
pub proof fn lemma_efficiency_of_self_is_one(run: RunData)
    ensures
        spec_efficiency(run, run).num == spec_efficiency(run, run).den,
{
}

/// Product of a `u64` value and a `usize` value fits in `u128`.
proof fn lemma_u64_usize_product_fits(a: int, b: int)
    requires
        0 <= a <= u64::MAX,
        0 <= b <= u64::MAX,
    ensures
        0 <= a * b <= u128::MAX,
{
    assert(0 <= a * b && a * b <= u64::MAX * u64::MAX) by (nonlinear_arith)
        requires
            0 <= a <= u64::MAX,
            0 <= b <= u64::MAX,
    ;
}

/// Communication sums are never negative.
proof fn lemma_sum_comm_nonneg(procs: Seq<Processor>)
    ensures
        spec_sum_comm(procs) >= 0,
    decreases procs.len(),
{
    if procs.len() > 0 {
        lemma_sum_comm_nonneg(procs.drop_last());
    }
}

/// Idle sums are never negative.
proof fn lemma_sum_wait_nonneg(procs: Seq<Processor>)
    ensures
        spec_sum_wait(procs) >= 0,
    decreases procs.len(),
{
    if procs.len() > 0 {
        lemma_sum_wait_nonneg(procs.drop_last());
    }
}

/// A prefix never sums more communication time than the whole.
proof fn lemma_sum_comm_prefix_le(procs: Seq<Processor>, k: int)
    requires
        0 <= k <= procs.len(),
    ensures
        spec_sum_comm(procs.take(k)) <= spec_sum_comm(procs),
    decreases procs.len() - k,
{
    if k == procs.len() {
        assert(procs.take(k) =~= procs);
    } else {
        assert(procs.take(k + 1).drop_last() =~= procs.take(k));
        assert(procs.take(k + 1).last() == procs[k]);
        lemma_sum_comm_prefix_le(procs, k + 1);
    }
}

/// A prefix never sums more idle time than the whole.
proof fn lemma_sum_wait_prefix_le(procs: Seq<Processor>, k: int)
    requires
        0 <= k <= procs.len(),
    ensures
        spec_sum_wait(procs.take(k)) <= spec_sum_wait(procs),
    decreases procs.len() - k,
{
    if k == procs.len() {
        assert(procs.take(k) =~= procs);
    } else {
        assert(procs.take(k + 1).drop_last() =~= procs.take(k));
        assert(procs.take(k + 1).last() == procs[k]);
        lemma_sum_wait_prefix_le(procs, k + 1);
    }
}

} // verus!
