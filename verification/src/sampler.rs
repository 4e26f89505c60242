//! Sampling coverage into spectrum matrices: the design is observed at
//! regular times before the failure; the observation at the failure time is
//! the one failing test, the earlier ones pass.
use vstd::prelude::*;

use crate::block::{BlockType, TimeAnnotation};
use crate::coverage::CoverageTracker;
use crate::dfb::strings_view;
use crate::mgr::{drives_on_line, first_with, scope_names, BlockManager};
use crate::spectrum::{rows_view, SpectrumMatrix};

verus! {

/// The sample times for a failure at `t` with a distance `step` between
/// samples: `t - step * i` for `i` from `n` down to 0, where
/// `n = t / max(step, 1)`, keeping those that are not negative. For `t >= 0`
/// all of them are kept; for `t < 0` none is.
pub open spec fn interval_times(t: int, step: int) -> Seq<int> {
    if t < 0 {
        Seq::empty()
    } else {
        let n = t / (if step > 1 {
            step
        } else {
            1
        });
        Seq::new((n + 1) as nat, |k: int| t - step * (n - k))
    }
}

/// The distance between samples fits in an `i64`, and so does every sample time.
pub open spec fn interval_fits(t: int, time_step: int, interval: int) -> bool {
    let step = time_step * interval;
    &&& i64::MIN <= step <= i64::MAX
    &&& (step > 0 || t <= 0 || t - step * t <= i64::MAX)
}

proof fn lemma_interval_value(t: int, step: int, n: int, d: int)
    requires
        t >= 0,
        n == t / (if step > 1 {
            step
        } else {
            1
        }),
        0 <= d <= n,
        step > 0 || t - step * t <= i64::MAX,
        i64::MIN <= step <= i64::MAX,
        t <= i64::MAX,
    ensures
        0 <= t - step * d <= i64::MAX,
        i64::MIN <= step * d <= i64::MAX,
{
    if step > 1 {
        assert(step * n <= t) by (nonlinear_arith)
            requires
                step > 1,
                n == t / step,
                t >= 0,
        ;
        assert(0 <= step * d <= step * n) by (nonlinear_arith)
            requires
                step > 1,
                0 <= d <= n,
        ;
    } else if step == 1 {
        assert(n == t);
    } else {
        assert(n == t);
        assert(step * t <= step * d <= 0) by (nonlinear_arith)
            requires
                step <= 0,
                0 <= d <= t,
        ;
    }
}

/// For a failure at a time not before 0 the samples end at the failure, and
/// none is before time 0.
pub proof fn lemma_samples_end_at_failure(t: int, step: int)
    requires
        t >= 0,
    ensures
        interval_times(t, step).len() >= 1,
        interval_times(t, step).last() == t,
        forall|k: int| 0 <= k < interval_times(t, step).len() ==> #[trigger] interval_times(t, step)[k] >= 0,
{
    let m = if step > 1 {
        step
    } else {
        1
    };
    let n = t / m;
    assert(0 <= n <= t) by (nonlinear_arith)
        requires
            m >= 1,
            t >= 0,
            n == t / m,
    ;
    assert forall|k: int| 0 <= k < interval_times(t, step).len() implies #[trigger] interval_times(t, step)[k] >= 0 by {
        assert(interval_times(t, step)[k] == t - step * (n - k));
        if step > 1 {
            assert(step * (n - k) <= t) by (nonlinear_arith)
                requires
                    step > 1,
                    n == t / step,
                    t >= 0,
                    0 <= k <= n,
            ;
        } else {
            assert(n == t);
            assert(step * (n - k) <= t) by (nonlinear_arith)
                requires
                    step <= 1,
                    0 <= n - k <= t,
            ;
        }
    }
}

/// The sample times for a failure at `t`, `time_step` apart per `interval`
/// (the test failed at `t`; with a clock step of 2 and an interval of 2 the
/// samples are `[..., t - 2 * 2 * 2, t - 2 * 2 * 1, t]`).
pub fn generate_interval_sequence(t: TimeAnnotation, time_step: TimeAnnotation, interval: TimeAnnotation) -> (r: Vec<
    TimeAnnotation,
>)
    requires
        interval_fits(t as int, time_step as int, interval as int),
    ensures
        r@.map_values(|x: TimeAnnotation| x as int) == interval_times(t as int, time_step * interval),
{
    let ghost spec_step = time_step * interval;
    let step = time_step * interval;
    let mut r: Vec<TimeAnnotation> = Vec::new();
    if t < 0 {
        assert(r@.map_values(|x: TimeAnnotation| x as int) =~= interval_times(t as int, spec_step));
        return r;
    }
    let m: i64 = if step > 1 {
        step
    } else {
        1
    };
    let n: i64 = t / m;
    assert(0 <= n <= t) by (nonlinear_arith)
        requires
            m >= 1,
            t >= 0,
            n == t / m,
    ;
    let mut k: u64 = 0;
    let count: u64 = n as u64 + 1;
    while k < count
        invariant
            0 <= n <= t,
            t >= 0,
            count == n + 1,
            step == spec_step,
            n == t / (if step > 1 {
                step
            } else {
                1
            }),
            step > 0 || t - step * t <= i64::MAX,
            i64::MIN <= step <= i64::MAX,
            0 <= k <= n + 1,
            r@.len() == k,
            forall|j: int| 0 <= j < k ==> r@[j] == t - step * (n - j),
        decreases count - k,
    {
        let d: i64 = (n as u64 - k) as i64;
        proof {
            lemma_interval_value(t as int, step as int, n as int, d as int);
        }
        let x = t - step * d;
        r.push(x);
        k = k + 1;
    }
    assert(r@.map_values(|x: TimeAnnotation| x as int) =~= interval_times(t as int, spec_step));
    r
}

/// Produces spectrum matrices, one for each scope; the columns are the lines
/// of the scope's module in the original source.
pub trait CoverageSampler {
    /// What sampling needs of the sampler.
    spec fn sampler_ok(&self) -> bool;

    fn sample(&self) -> Vec<(String, SpectrumMatrix)>
        requires
            self.sampler_ok(),
    ;
}

/// Samples the coverage a tracker reports at regular times up to the failure.
pub struct IntervalCoverageSampler<'b, CT: CoverageTracker> {
    pub interval: TimeAnnotation,
    pub time_step: TimeAnnotation,
    pub failed_time: TimeAnnotation,
    pub coverage_tracker: CT,
    pub block_manager: &'b BlockManager,
}

/// The type of the block of a scope that drives a signal on original line
/// `l`, if one does.
pub open spec fn line_block_type(mgr: &BlockManager, scope: Seq<char>, l: int) -> Option<BlockType> {
    let bs = mgr.blocks_of(scope);
    match first_with(bs, drives_on_line(l as u32, true)) {
        Some(j) => Some(bs[j]@.block_type),
        None => None,
    }
}

/// The module of a scope.
pub open spec fn module_of(mgr: &BlockManager, scope: Seq<char>) -> Seq<char> {
    mgr.scope_module_name@[mgr.scope_pos(scope)].1@
}

/// A cell of a scope's matrix: 1 when the line belongs to a block and the
/// tracker reports it reached at least once at `time`, else 0.
pub open spec fn line_cell<CT: CoverageTracker>(
    tracker: &CT,
    mgr: &BlockManager,
    scope: Seq<char>,
    time: int,
    l: int,
) -> u8 {
    match line_block_type(mgr, scope, l) {
        None => 0,
        Some(bt) => match tracker.spec_line_covered(
            Some(bt),
            Some(scope),
            Some(module_of(mgr, scope)),
            Some(time as TimeAnnotation),
            l as u32,
        ) {
            Some(v) => if v > 0 {
                1
            } else {
                0
            },
            None => 0,
        },
    }
}

/// The last line of a scope's module.
pub open spec fn max_line_of(mgr: &BlockManager, scope: Seq<char>) -> int {
    mgr.scope_max_line@[mgr.scope_pos(scope)].1 as int
}

/// The results of the samples: all pass but the last.
pub open spec fn sample_results(n: nat) -> Seq<bool> {
    Seq::new(n, |i: int| i == n - 1)
}

/// The matrix of a scope: a row for each sample time, a column for each line
/// from 0 to the last line of its module.
pub open spec fn scope_matrix<CT: CoverageTracker>(
    tracker: &CT,
    mgr: &BlockManager,
    scope: Seq<char>,
    times: Seq<int>,
) -> Seq<Seq<u8>> {
    Seq::new(
        times.len(),
        |i: int| Seq::new((max_line_of(mgr, scope) + 1) as nat, |l: int| line_cell(tracker, mgr, scope, times[i], l)),
    )
}

impl<'b, CT: CoverageTracker> IntervalCoverageSampler<'b, CT> {
    pub fn new(
        interval: TimeAnnotation,
        time_step: TimeAnnotation,
        failed_time: TimeAnnotation,
        coverage_tracker: CT,
        block_manager: &'b BlockManager,
    ) -> (r: Self)
        ensures
            r.interval == interval,
            r.time_step == time_step,
            r.failed_time == failed_time,
            r.coverage_tracker == coverage_tracker,
            r.block_manager == block_manager,
    {
        IntervalCoverageSampler { interval, time_step, failed_time, coverage_tracker, block_manager }
    }

    /// The sample times.
    pub open spec fn times(&self) -> Seq<int> {
        interval_times(self.failed_time as int, self.time_step * self.interval)
    }

    /// The vector of results for `n` samples.
    fn results(n: usize) -> (r: Vec<bool>)
        ensures
            r@ == sample_results(n as nat),
    {
        let mut r: Vec<bool> = Vec::new();
        let mut i: usize = 0;
        while i < n
            invariant
                i <= n,
                r@ == Seq::new(i as nat, |k: int| k == n - 1),
            decreases n - i,
        {
            r.push(i + 1 == n);
            i = i + 1;
        }
        assert(r@ =~= sample_results(n as nat));
        r
    }

    /// The block type of each line from 0 to `max_line` of a scope.
    fn line_types(&self, scope: &str, max_line: usize) -> (r: Vec<Option<BlockType>>)
        requires
            self.block_manager.wf(),
            max_line < usize::MAX,
        ensures
            r@.len() == max_line + 1,
            forall|l: int| 0 <= l <= max_line ==> r@[l] == line_block_type(self.block_manager, scope@, l),
    {
        let mut r: Vec<Option<BlockType>> = Vec::new();
        let mut l: usize = 0;
        while l <= max_line
            invariant
                self.block_manager.wf(),
                max_line < usize::MAX,
                l <= max_line + 1,
                r@.len() == l,
                forall|k: int| 0 <= k < l ==> r@[k] == line_block_type(self.block_manager, scope@, k),
            decreases max_line + 1 - l,
        {
            let lineno: u32 = l as u32;
            assert(lineno == (l as int) as u32);
            let b = self.block_manager.get_belong_block_from_original_lineno(scope, lineno);
            let bt = match b {
                Some(block) => Some(block.block_type),
                None => None,
            };
            r.push(bt);
            l = l + 1;
        }
        r
    }
}

impl<'b, CT: CoverageTracker> CoverageSampler for IntervalCoverageSampler<'b, CT> {
    /// The manager is well formed, the sample times fit and the failure is
    /// not before time 0, and no module has a line numbered `usize::MAX`.
    open spec fn sampler_ok(&self) -> bool {
        &&& self.block_manager.wf()
        &&& interval_fits(self.failed_time as int, self.time_step as int, self.interval as int)
        &&& self.failed_time >= 0
        &&& forall|i: int| 0 <= i < self.block_manager.scope_max_line@.len()
            ==> (#[trigger] self.block_manager.scope_max_line@[i]).1 < usize::MAX
    }

    /// For each scope, in the manager's order: its name and a matrix with a
    /// row for each sample time and a column for each line of its module.
    fn sample(&self) -> (r: Vec<(String, SpectrumMatrix)>)
        ensures
            r@.len() == self.block_manager.scope_block_mapping@.len(),
            forall|s: int| 0 <= s < r@.len() ==> {
                let scope = #[trigger] scope_names(self.block_manager.scope_block_mapping@)[s];
                &&& r@[s].0@ == scope
                &&& r@[s].1.test_results@ == sample_results(self.times().len())
                &&& r@[s].1.rows() == scope_matrix(&self.coverage_tracker, self.block_manager, scope, self.times())
            },
    {
        let mgr = self.block_manager;
        let timestamps = generate_interval_sequence(self.failed_time, self.time_step, self.interval);
        let ghost times = self.times();
        assert(timestamps@.len() == times.len());
        let test_n = timestamps.len();
        let test_results = Self::results(test_n);
        let scopes = mgr.get_scopes();
        let mut out: Vec<(String, SpectrumMatrix)> = Vec::new();
        let mut s: usize = 0;
        while s < scopes.len()
            invariant
                self.sampler_ok(),
                mgr == self.block_manager,
                times == self.times(),
                timestamps@.map_values(|x: TimeAnnotation| x as int) == times,
                test_n == timestamps@.len(),
                test_results@ == sample_results(test_n as nat),
                strings_view(scopes@) == scope_names(mgr.scope_block_mapping@),
                s <= scopes@.len(),
                out@.len() == s,
                forall|k: int| 0 <= k < s ==> {
                    let scope = #[trigger] scope_names(mgr.scope_block_mapping@)[k];
                    &&& out@[k].0@ == scope
                    &&& out@[k].1.test_results@ == sample_results(times.len())
                    &&& out@[k].1.rows() == scope_matrix(&self.coverage_tracker, mgr, scope, times)
                },
            decreases scopes@.len() - s,
        {
            let scope = scopes[s].as_str();
            let ghost sc = scope@;
            assert(sc == scope_names(mgr.scope_block_mapping@)[s as int]);
            proof {
                mgr.lemma_scope_pos(s as int);
            }
            let max_line = match mgr.get_scope_max_lineno(scope) {
                Some(m) => m,
                None => 0,
            };
            assert(max_line == max_line_of(mgr, sc));
            assert(max_line < usize::MAX) by {
                let p = mgr.scope_pos(sc);
                assert(mgr.scope_max_line@[p].1 < usize::MAX);
            }
            let module_name = match mgr.get_scope_module_name(scope) {
                Some(m) => m,
                None => String::new(),
            };
            assert(module_name@ == module_of(mgr, sc));
            let types = self.line_types(scope, max_line);
            let mut matrix: Vec<Vec<u8>> = Vec::new();
            let mut ti: usize = 0;
            while ti < test_n
                invariant
                    self.sampler_ok(),
                    mgr == self.block_manager,
                    timestamps@.map_values(|x: TimeAnnotation| x as int) == times,
                    test_n == timestamps@.len(),
                    scope@ == sc,
                    module_name@ == module_of(mgr, sc),
                    max_line == max_line_of(mgr, sc),
                    max_line < usize::MAX,
                    types@.len() == max_line + 1,
                    forall|l: int| 0 <= l <= max_line ==> types@[l] == line_block_type(mgr, sc, l),
                    ti <= test_n,
                    matrix@.len() == ti,
                    forall|i: int| 0 <= i < ti ==> (#[trigger] matrix@[i])@ == scope_matrix(&self.coverage_tracker, mgr, sc, times)[i],
                decreases test_n - ti,
            {
                let ts = timestamps[ti];
                assert(ts as int == times[ti as int]);
                let mut row: Vec<u8> = Vec::new();
                let mut l: usize = 0;
                while l <= max_line
                    invariant
                        self.sampler_ok(),
                        mgr == self.block_manager,
                        scope@ == sc,
                        module_name@ == module_of(mgr, sc),
                        max_line < usize::MAX,
                        types@.len() == max_line + 1,
                        forall|k: int| 0 <= k <= max_line ==> types@[k] == line_block_type(mgr, sc, k),
                        l <= max_line + 1,
                        row@.len() == l,
                        forall|k: int| 0 <= k < l ==> row@[k] == line_cell(&self.coverage_tracker, mgr, sc, ts as int, k),
                    decreases max_line + 1 - l,
                {
                    let lineno: u32 = l as u32;
                    assert(lineno == (l as int) as u32);
                    let cell: u8 = match types[l] {
                        None => 0,
                        Some(bt) => {
                            let v = self.coverage_tracker.check_line_covered(
                                Some(bt),
                                Some(scope),
                                Some(module_name.as_str()),
                                Some(ts),
                                lineno,
                            );
                            match v {
                                Some(c) => if c > 0 {
                                    1
                                } else {
                                    0
                                },
                                None => 0,
                            }
                        },
                    };
                    row.push(cell);
                    l = l + 1;
                }
                assert(row@ =~= scope_matrix(&self.coverage_tracker, mgr, sc, times)[ti as int]);
                matrix.push(row);
                ti = ti + 1;
            }
            assert(rows_view(matrix@) =~= scope_matrix(&self.coverage_tracker, mgr, sc, times));
            let spectrum = SpectrumMatrix { matrix, test_results: test_results.clone() };
            let name = scopes[s].clone();
            assert(name@ == sc);
            let ghost before = out@;
            out.push((name, spectrum));
            assert forall|k: int| 0 <= k < s + 1 implies {
                let scope = #[trigger] scope_names(mgr.scope_block_mapping@)[k];
                &&& out@[k].0@ == scope
                &&& out@[k].1.test_results@ == sample_results(times.len())
                &&& out@[k].1.rows() == scope_matrix(&self.coverage_tracker, mgr, scope, times)
            } by {
                if k < s {
                    assert(out@[k] == before[k]);
                }
            }
            s = s + 1;
        }
        assert(strings_view(scopes@).len() == scopes@.len());
        assert(scope_names(mgr.scope_block_mapping@).len() == mgr.scope_block_mapping@.len());
        out
    }
}

} // verus!
