//! Spectrum matrices: for each test (a row) which statements (columns) it
//! covered, and whether the test passed.
use vstd::prelude::*;

use crate::text::string_of;

verus! {

/// The suspiciousness metrics a spectrum can rank statements by.
#[derive(Debug, Clone, Copy, PartialEq, Eq, Hash, Structural)]
pub enum SpectrumMetric {
    Tarantula,
    Ochiai,
    Jaccard,
    Dstar,
    GP19,
    Barinel,
    Crosstab,
    Zoltar,
    Ample,
}

/// Rows are tests, columns statements; `matrix[i][j] == 1` when test `i`
/// covered statement `j`. `test_results[i]` is whether test `i` passed.
pub struct SpectrumMatrix {
    pub matrix: Vec<Vec<u8>>,
    pub test_results: Vec<bool>,
}

/// For one statement: how many failed and passed tests executed it and how
/// many did not.
#[derive(Debug, Clone, Copy, PartialEq, Eq, Structural)]
pub struct CoverageCounts {
    /// executed by failed tests
    pub a_ef: usize,
    /// executed by passed tests
    pub a_ep: usize,
    /// not executed by failed tests
    pub a_nf: usize,
    /// not executed by passed tests
    pub a_np: usize,
}

/// The width of a matrix: the length of its first row, 0 when it has none.
pub open spec fn width(m: Seq<Seq<u8>>) -> nat {
    if m.len() == 0 {
        0
    } else {
        m[0].len()
    }
}

/// Whether test `i` has a cell for statement `j`, and the cell is (not)
/// covered and the test passed (failed) as asked.
pub open spec fn cell_is(m: Seq<Seq<u8>>, r: Seq<bool>, i: int, j: int, covered: bool, passed: bool) -> bool {
    &&& 0 <= i < m.len()
    &&& 0 <= j < m[i].len()
    &&& (m[i][j] == 1) == covered
    &&& r[i] == passed
}

/// The number of the first `n` tests whose cell for statement `j` is as asked.
pub open spec fn count_cells(m: Seq<Seq<u8>>, r: Seq<bool>, j: int, n: int, covered: bool, passed: bool) -> nat
    decreases n,
{
    if n <= 0 {
        0
    } else {
        count_cells(m, r, j, n - 1, covered, passed) + (if cell_is(m, r, n - 1, j, covered, passed) {
            1nat
        } else {
            0nat
        })
    }
}

/// The number of the first `n` tests that have a cell for statement `j`.
pub open spec fn count_rows_with(m: Seq<Seq<u8>>, j: int, n: int) -> nat
    decreases n,
{
    if n <= 0 {
        0
    } else {
        count_rows_with(m, j, n - 1) + (if 0 <= n - 1 < m.len() && 0 <= j < m[n - 1].len() {
            1nat
        } else {
            0nat
        })
    }
}

/// The number of the first `n` tests that passed (or failed).
pub open spec fn count_results(r: Seq<bool>, n: int, passed: bool) -> nat
    decreases n,
{
    if n <= 0 {
        0
    } else {
        count_results(r, n - 1, passed) + (if r[n - 1] == passed {
            1nat
        } else {
            0nat
        })
    }
}

/// The counts of a statement over all tests: (a_ef, a_ep, a_nf, a_np).
pub open spec fn counts_of(m: Seq<Seq<u8>>, r: Seq<bool>, j: int) -> (nat, nat, nat, nat) {
    let n = r.len() as int;
    (
        count_cells(m, r, j, n, true, false),
        count_cells(m, r, j, n, true, true),
        count_cells(m, r, j, n, false, false),
        count_cells(m, r, j, n, false, true),
    )
}

impl CoverageCounts {
    /// The four counts as numbers.
    pub open spec fn as_tuple(self) -> (nat, nat, nat, nat) {
        (self.a_ef as nat, self.a_ep as nat, self.a_nf as nat, self.a_np as nat)
    }
}

proof fn lemma_count_bound(m: Seq<Seq<u8>>, r: Seq<bool>, j: int, n: int, covered: bool, passed: bool)
    ensures
        count_cells(m, r, j, n, covered, passed) <= (if n < 0 {
            0
        } else {
            n
        }),
    decreases n,
{
    if n > 0 {
        lemma_count_bound(m, r, j, n - 1, covered, passed);
    }
}

/// Every test that has a cell for a statement falls in exactly one of the
/// four counts.
pub proof fn lemma_counts_partition(m: Seq<Seq<u8>>, r: Seq<bool>, j: int, n: int)
    ensures
        count_cells(m, r, j, n, true, false) + count_cells(m, r, j, n, true, true) + count_cells(
            m,
            r,
            j,
            n,
            false,
            false,
        ) + count_cells(m, r, j, n, false, true) == count_rows_with(m, j, n),
    decreases n,
{
    if n > 0 {
        lemma_counts_partition(m, r, j, n - 1);
    }
}

/// Where every test has a cell for the statement, the tests that executed
/// it and those that did not, among the failed ones, are all failed tests.
pub proof fn lemma_failed_split(m: Seq<Seq<u8>>, r: Seq<bool>, j: int, n: int, passed: bool)
    requires
        n <= m.len(),
        0 <= j,
        forall|i: int| 0 <= i < n ==> j < #[trigger] m[i].len(),
    ensures
        count_cells(m, r, j, n, true, passed) + count_cells(m, r, j, n, false, passed) == count_results(r, n, passed),
    decreases n,
{
    if n > 0 {
        lemma_failed_split(m, r, j, n - 1, passed);
    }
}

proof fn lemma_rows_all(m: Seq<Seq<u8>>, j: int, n: int)
    requires
        n <= m.len(),
        0 <= j,
        forall|i: int| 0 <= i < n ==> j < #[trigger] m[i].len(),
    ensures
        count_rows_with(m, j, n) == (if n < 0 {
            0
        } else {
            n
        }),
    decreases n,
{
    if n > 0 {
        lemma_rows_all(m, j, n - 1);
    }
}

/// The rows of a matrix as sequences.
pub open spec fn rows_view(m: Seq<Vec<u8>>) -> Seq<Seq<u8>> {
    m.map_values(|v: Vec<u8>| v@)
}

impl SpectrumMatrix {
    /// The rows as sequences.
    pub open spec fn rows(&self) -> Seq<Seq<u8>> {
        rows_view(self.matrix@)
    }

    /// One result per row.
    pub open spec fn wf(&self) -> bool {
        self.matrix@.len() == self.test_results@.len()
    }

    /// A spectrum of the given rows and results; refused unless there is one
    /// result per row.
    pub fn new(matrix: Vec<Vec<u8>>, test_results: Vec<bool>) -> (r: Result<SpectrumMatrix, String>)
        ensures
            r is Ok <==> matrix@.len() == test_results@.len(),
            r matches Ok(s) ==> s.matrix@ == matrix@ && s.test_results@ == test_results@ && s.wf(),
            r matches Err(e) ==> e@ == "Number of test results must match number of matrix rows"@,
    {
        if matrix.len() != test_results.len() {
            return Err(string_of("Number of test results must match number of matrix rows"));
        }
        Ok(SpectrumMatrix { matrix, test_results })
    }

    /// The number of tests (rows).
    pub fn num_tests(&self) -> (r: usize)
        ensures
            r == self.matrix@.len(),
    {
        self.matrix.len()
    }

    /// The number of statements: the length of the first row, 0 without rows.
    pub fn num_statements(&self) -> (r: usize)
        ensures
            r == width(self.rows()),
    {
        if self.matrix.len() == 0 {
            0
        } else {
            self.matrix[0].len()
        }
    }

    /// Whether test `test_idx` covered statement `statement_idx`; `None` when
    /// the matrix has no such cell.
    pub fn get_coverage(&self, test_idx: usize, statement_idx: usize) -> (r: Option<bool>)
        ensures
            r == (if test_idx < self.matrix@.len() && statement_idx < self.matrix@[test_idx as int]@.len() {
                Some(self.matrix@[test_idx as int]@[statement_idx as int] == 1)
            } else {
                None
            }),
    {
        if test_idx >= self.matrix.len() {
            return None;
        }
        let row = &self.matrix[test_idx];
        if statement_idx >= row.len() {
            return None;
        }
        Some(row[statement_idx] == 1)
    }

    /// Appends a test; refused when the matrix has statements and the new row
    /// has another number of them.
    pub fn add_test(&mut self, coverage: Vec<u8>, result: bool) -> (r: Result<(), String>)
        ensures
            r is Err <==> (coverage@.len() != width(old(self).rows()) && width(old(self).rows()) > 0),
            r is Ok ==> final(self).matrix@ == old(self).matrix@.push(coverage) && final(self).test_results@ == old(
                self,
            ).test_results@.push(result),
            r is Err ==> *final(self) == *old(self),
            r matches Err(e) ==> e@ == "Coverage vector length must match number of statements"@,
            old(self).wf() ==> final(self).wf(),
    {
        let n = self.num_statements();
        if coverage.len() != n && n > 0 {
            return Err(string_of("Coverage vector length must match number of statements"));
        }
        self.matrix.push(coverage);
        self.test_results.push(result);
        Ok(())
    }

    /// How the tests executed statement `statement_idx`; a test without a
    /// cell for it counts nowhere.
    pub fn coverage_counts(&self, statement_idx: usize) -> (r: CoverageCounts)
        ensures
            r.as_tuple() == counts_of(self.rows(), self.test_results@, statement_idx as int),
    {
        let ghost m = self.rows();
        let ghost rs = self.test_results@;
        let ghost j = statement_idx as int;
        let mut a_ef: usize = 0;
        let mut a_ep: usize = 0;
        let mut a_nf: usize = 0;
        let mut a_np: usize = 0;
        let mut i: usize = 0;
        while i < self.test_results.len()
            invariant
                m == self.rows(),
                m.len() == self.matrix@.len(),
                rs == self.test_results@,
                j == statement_idx,
                i <= rs.len(),
                a_ef == count_cells(m, rs, j, i as int, true, false),
                a_ep == count_cells(m, rs, j, i as int, true, true),
                a_nf == count_cells(m, rs, j, i as int, false, false),
                a_np == count_cells(m, rs, j, i as int, false, true),
            decreases rs.len() - i,
        {
            proof {
                lemma_count_bound(m, rs, j, i as int, true, false);
                lemma_count_bound(m, rs, j, i as int, true, true);
                lemma_count_bound(m, rs, j, i as int, false, false);
                lemma_count_bound(m, rs, j, i as int, false, true);
            }
            if i < self.matrix.len() {
                let row = &self.matrix[i];
                if statement_idx < row.len() {
                    let covered = row[statement_idx] == 1;
                    let passed = self.test_results[i];
                    if covered && !passed {
                        a_ef = a_ef + 1;
                    } else if covered && passed {
                        a_ep = a_ep + 1;
                    } else if !covered && !passed {
                        a_nf = a_nf + 1;
                    } else {
                        a_np = a_np + 1;
                    }
                }
            }
            i = i + 1;
        }
        CoverageCounts { a_ef, a_ep, a_nf, a_np }
    }
}

/// In a spectrum whose rows all have a cell for statement `j`, the four
/// counts of `j` add up to the number of tests, and those of failed (passed)
/// tests add up to the number of failed (passed) tests.
pub proof fn lemma_counts_cover_all_tests(s: &SpectrumMatrix, j: int)
    requires
        s.wf(),
        0 <= j,
        forall|i: int| 0 <= i < s.rows().len() ==> j < #[trigger] s.rows()[i].len(),
    ensures
        ({
            let (ef, ep, nf, np) = counts_of(s.rows(), s.test_results@, j);
            &&& ef + ep + nf + np == s.test_results@.len()
            &&& ef + nf == count_results(s.test_results@, s.test_results@.len() as int, false)
            &&& ep + np == count_results(s.test_results@, s.test_results@.len() as int, true)
        }),
{
    let m = s.rows();
    let r = s.test_results@;
    let n = r.len() as int;
    lemma_counts_partition(m, r, j, n);
    lemma_rows_all(m, j, n);
    lemma_failed_split(m, r, j, n, false);
    lemma_failed_split(m, r, j, n, true);
    lemma_count_bound(m, r, j, n, true, false);
    lemma_count_bound(m, r, j, n, true, true);
    lemma_count_bound(m, r, j, n, false, false);
    lemma_count_bound(m, r, j, n, false, true);
}

} // verus!
