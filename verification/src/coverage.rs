//! Line coverage: which lines of which module instances were reached in
//! simulation, and how often.
use vstd::prelude::*;

use crate::block::{BlockType, TimeAnnotation};
use crate::dfb::strings_view;
use crate::text::{str_eq, string_of};

verus! {

/// How often a line was reached.
#[derive(Debug)]
pub struct LineCoverage {
    pub file_name: String,
    pub scope_name: String,
    pub time: TimeAnnotation,
    /// The line in the original source (as the coverage tool reports it).
    pub line: u32,
    pub origin_line: u32,
    pub count: usize,
}

impl LineCoverage {
    pub fn new(
        file_name: &str,
        scope_name: &str,
        time: TimeAnnotation,
        line: u32,
        origin_line: u32,
        count: usize,
    ) -> (r: LineCoverage)
        ensures
            r.file_name@ == file_name@,
            r.scope_name@ == scope_name@,
            r.time == time,
            r.line == line,
            r.origin_line == origin_line,
            r.count == count,
    {
        LineCoverage {
            file_name: string_of(file_name),
            scope_name: string_of(scope_name),
            time,
            line,
            origin_line,
            count,
        }
    }

    /// A copy.
    pub fn duplicate(&self) -> (r: LineCoverage)
        ensures
            r.file_name@ == self.file_name@,
            r.scope_name@ == self.scope_name@,
            r.time == self.time,
            r.line == self.line,
            r.origin_line == self.origin_line,
            r.count == self.count,
    {
        LineCoverage {
            file_name: self.file_name.clone(),
            scope_name: self.scope_name.clone(),
            time: self.time,
            line: self.line,
            origin_line: self.origin_line,
            count: self.count,
        }
    }
}

/// The text of an optional string slice.
pub open spec fn opt_view(o: Option<&str>) -> Option<Seq<char>> {
    match o {
        Some(s) => Some(s@),
        None => None,
    }
}

/// Coverage of lines by simulation. For a line of a block of the given kind,
/// in the given scope (instance) and module, at the given time, it answers
/// `None` when the block is not part of the final design, `Some(0)` when the
/// line was not reached and `Some(n)` when it was reached `n` times.
pub trait CoverageTracker {
    /// The answer for a line.
    spec fn spec_line_covered(
        &self,
        btype: Option<BlockType>,
        scope_name: Option<Seq<char>>,
        module_name: Option<Seq<char>>,
        time: Option<TimeAnnotation>,
        lineno: u32,
    ) -> Option<usize>;

    /// Whether the names of the covered module files can be given.
    spec fn module_files_ok(&self) -> bool;

    fn check_line_covered(
        &self,
        btype: Option<BlockType>,
        scope_name: Option<&str>,
        module_name: Option<&str>,
        time: Option<TimeAnnotation>,
        lineno: u32,
    ) -> (r: Option<usize>)
        ensures
            r == self.spec_line_covered(btype, opt_view(scope_name), opt_view(module_name), time, lineno),
    ;

    /// The names of the module files the coverage speaks of.
    fn get_covered_module_files(&self) -> Vec<String>
        requires
            self.module_files_ok(),
    ;
}

/// What `Path::file_name` gives for a path: its last component, unless it
/// ends in `..` or has none.
pub uninterp spec fn spec_file_name(path: Seq<char>) -> Option<Seq<char>>;

/// Calls `Path::file_name`; the result is named by `spec_file_name`.
#[verifier::external_body]
pub fn file_name_of(path: &str) -> (r: Option<String>)
    ensures
        r matches Some(x) ==> spec_file_name(path@) == Some(x@),
        r is None ==> spec_file_name(path@) is None,
{
    std::path::Path::new(path).file_name().and_then(|n| n.to_str()).map(|n| n.to_string())
}

/// Coverage that counts every line as reached once.
pub struct PlainCoverageReport {
    pub module_files: Vec<String>,
}

impl PlainCoverageReport {
    pub fn new(module_files: &Vec<String>) -> (r: PlainCoverageReport)
        ensures
            strings_view(r.module_files@) == strings_view(module_files@),
    {
        PlainCoverageReport { module_files: crate::dfb::copy_strings(module_files) }
    }
}

impl CoverageTracker for PlainCoverageReport {
    open spec fn spec_line_covered(
        &self,
        btype: Option<BlockType>,
        scope_name: Option<Seq<char>>,
        module_name: Option<Seq<char>>,
        time: Option<TimeAnnotation>,
        lineno: u32,
    ) -> Option<usize> {
        Some(1)
    }

    open spec fn module_files_ok(&self) -> bool {
        forall|i: int| 0 <= i < self.module_files@.len() ==> #[trigger] spec_file_name(self.module_files@[i]@) is Some
    }

    fn check_line_covered(
        &self,
        btype: Option<BlockType>,
        scope_name: Option<&str>,
        module_name: Option<&str>,
        time: Option<TimeAnnotation>,
        lineno: u32,
    ) -> (r: Option<usize>) {
        Some(1)
    }

    /// The file name of each module file.
    fn get_covered_module_files(&self) -> (r: Vec<String>)
        ensures
            strings_view(r@) == self.module_files@.map_values(|p: String| spec_file_name(p@).unwrap()),
    {
        let mut r: Vec<String> = Vec::new();
        let mut i: usize = 0;
        while i < self.module_files.len()
            invariant
                self.module_files_ok(),
                i <= self.module_files.len(),
                strings_view(r@) == self.module_files@.take(i as int).map_values(|p: String| spec_file_name(p@).unwrap()),
            decreases self.module_files.len() - i,
        {
            assert(spec_file_name(self.module_files@[i as int]@) is Some);
            let name = file_name_of(self.module_files[i].as_str()).unwrap();
            let ghost before = r@;
            r.push(name);
            assert(strings_view(r@) =~= strings_view(before).push(spec_file_name(self.module_files@[i as int]@).unwrap()));
            assert(self.module_files@.take(i + 1).map_values(|p: String| spec_file_name(p@).unwrap()) =~= self.module_files@.take(
                i as int,
            ).map_values(|p: String| spec_file_name(p@).unwrap()).push(spec_file_name(self.module_files@[i as int]@).unwrap()));
            i = i + 1;
        }
        assert(self.module_files@.take(self.module_files@.len() as int) == self.module_files@);
        r
    }
}

/// The value of the first entry with key `k`.
pub open spec fn table_first<V>(t: Seq<(String, V)>, k: Seq<char>) -> Option<V>
    decreases t.len(),
{
    if t.len() == 0 {
        None
    } else if t[0].0@ == k {
        Some(t[0].1)
    } else {
        table_first(t.drop_first(), k)
    }
}

/// The position of the first entry with key `k`.
pub fn find_first_key<V>(t: &Vec<(String, V)>, k: &str) -> (r: Option<usize>)
    ensures
        r matches Some(i) ==> i < t@.len() && table_first(t@, k@) == Some(t@[i as int].1),
        r is None ==> table_first(t@, k@) is None,
{
    let mut i: usize = 0;
    assert(t@.skip(0) == t@);
    while i < t.len()
        invariant
            i <= t.len(),
            table_first(t@, k@) == table_first(t@.skip(i as int), k@),
        decreases t.len() - i,
    {
        assert(t@.skip(i as int).drop_first() == t@.skip(i + 1));
        if str_eq(t[i].0.as_str(), k) {
            return Some(i);
        }
        i = i + 1;
    }
    None
}

/// The count of the first coverage entry of line `lineno`.
pub open spec fn first_line_count(v: Seq<LineCoverage>, lineno: u32) -> Option<usize>
    decreases v.len(),
{
    if v.len() == 0 {
        None
    } else if v[0].line == lineno {
        Some(v[0].count)
    } else {
        first_line_count(v.drop_first(), lineno)
    }
}

/// Finds the count of the first coverage entry of line `lineno`.
pub fn find_line_count(v: &Vec<LineCoverage>, lineno: u32) -> (r: Option<usize>)
    ensures
        r == first_line_count(v@, lineno),
{
    let mut i: usize = 0;
    assert(v@.skip(0) == v@);
    while i < v.len()
        invariant
            i <= v.len(),
            first_line_count(v@, lineno) == first_line_count(v@.skip(i as int), lineno),
        decreases v.len() - i,
    {
        assert(v@.skip(i as int).drop_first() == v@.skip(i + 1));
        if v[i].line == lineno {
            return Some(v[i].count);
        }
        i = i + 1;
    }
    None
}

/// Coverage of continuous assignments that survive parameter elaboration:
/// for each module, the lines of its live assignments.
pub struct ParameterCoverageReport {
    /// (module name, covered lines)
    pub lines_coverage: Vec<(String, Vec<LineCoverage>)>,
}

/// The count recorded for a line of a module.
pub open spec fn param_covered(t: Seq<(String, Vec<LineCoverage>)>, module_name: Option<Seq<char>>, lineno: u32) -> Option<usize> {
    match module_name {
        None => None,
        Some(m) => match table_first(t, m) {
            None => None,
            Some(v) => first_line_count(v@, lineno),
        },
    }
}

impl ParameterCoverageReport {
    /// Whether the report has lines of `module_name`.
    pub fn has_module_data(&self, module_name: &str) -> (r: bool)
        ensures
            r == (table_first(self.lines_coverage@, module_name@) is Some),
    {
        find_first_key(&self.lines_coverage, module_name).is_some()
    }

    /// The count of line `lineno` of `module_name`, if the report has it.
    pub fn check_covered(&self, module_name: Option<&str>, lineno: u32) -> (r: Option<usize>)
        ensures
            r == param_covered(self.lines_coverage@, opt_view(module_name), lineno),
    {
        match module_name {
            None => None,
            Some(m) => match find_first_key(&self.lines_coverage, m) {
                None => None,
                Some(i) => find_line_count(&self.lines_coverage[i].1, lineno),
            },
        }
    }
}

impl CoverageTracker for ParameterCoverageReport {
    open spec fn spec_line_covered(
        &self,
        btype: Option<BlockType>,
        scope_name: Option<Seq<char>>,
        module_name: Option<Seq<char>>,
        time: Option<TimeAnnotation>,
        lineno: u32,
    ) -> Option<usize> {
        param_covered(self.lines_coverage@, module_name, lineno)
    }

    open spec fn module_files_ok(&self) -> bool {
        true
    }

    fn check_line_covered(
        &self,
        btype: Option<BlockType>,
        scope_name: Option<&str>,
        module_name: Option<&str>,
        time: Option<TimeAnnotation>,
        lineno: u32,
    ) -> (r: Option<usize>) {
        self.check_covered(module_name, lineno)
    }

    /// The modules the report has lines of.
    fn get_covered_module_files(&self) -> (r: Vec<String>)
        ensures
            strings_view(r@) == self.lines_coverage@.map_values(|e: (String, Vec<LineCoverage>)| e.0@),
    {
        let mut r: Vec<String> = Vec::new();
        let mut i: usize = 0;
        while i < self.lines_coverage.len()
            invariant
                i <= self.lines_coverage.len(),
                strings_view(r@) == self.lines_coverage@.take(i as int).map_values(|e: (String, Vec<LineCoverage>)| e.0@),
            decreases self.lines_coverage.len() - i,
        {
            let ghost before = r@;
            r.push(self.lines_coverage[i].0.clone());
            assert(strings_view(r@) =~= strings_view(before).push(self.lines_coverage@[i as int].0@));
            assert(self.lines_coverage@.take(i + 1).map_values(|e: (String, Vec<LineCoverage>)| e.0@) =~= self.lines_coverage@.take(
                i as int,
            ).map_values(|e: (String, Vec<LineCoverage>)| e.0@).push(self.lines_coverage@[i as int].0@));
            i = i + 1;
        }
        assert(self.lines_coverage@.take(self.lines_coverage@.len() as int) == self.lines_coverage@);
        r
    }
}

} // verus!
