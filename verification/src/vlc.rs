//! Line coverage as Verilator's coverage tool writes it: points whose names
//! hold keyed fields, each with a count.
use vstd::prelude::*;
use vstd::string::StrSliceExecFns;

use crate::coverage::LineCoverage;
use crate::dfb::strings_view;
use crate::parse::{
    parse_i32, parse_u32, parse_usize, split_char, split_spec, spec_parse_i32, spec_parse_unsigned,
};
use crate::text::{chars_of, spec_trim, str_eq, string_from_chars, string_of, trim_str};

verus! {

/// The key of the file name field.
pub open spec fn key_filename() -> Seq<char> {
    seq!['f']
}

/// The key of the comment field.
pub open spec fn key_comment() -> Seq<char> {
    seq!['o']
}

/// The key of the type field.
pub open spec fn key_type() -> Seq<char> {
    seq!['t']
}

/// The key of the threshold field.
pub open spec fn key_thresh() -> Seq<char> {
    seq!['s']
}

/// The key of the covered lines field.
pub open spec fn key_linescov() -> Seq<char> {
    seq!['S']
}

/// The key of the line number field.
pub open spec fn key_lineno() -> Seq<char> {
    seq!['l']
}

/// The key of the column field.
pub open spec fn key_column() -> Seq<char> {
    seq!['n']
}

/// The key of the hierarchy (scope) field.
pub open spec fn key_hier() -> Seq<char> {
    seq!['h']
}

/// Whether a field with key `key` starts at `i`: a `\x01`, the key, a
/// `\x02`, and at least one character after it.
pub open spec fn key_at(s: Seq<char>, i: int, key: Seq<char>) -> bool {
    &&& 0 <= i
    &&& i + 1 + key.len() + 1 < s.len()
    &&& s[i] == '\x01'
    &&& s.subrange(i + 1, i + 1 + key.len()) == key
    &&& s[i + 1 + key.len()] == '\x02'
}

/// The first position from `i` on where a field with key `key` starts.
pub open spec fn first_key_from(s: Seq<char>, key: Seq<char>, i: int) -> Option<int>
    decreases s.len() - i,
{
    if i >= s.len() || i < 0 {
        None
    } else if key_at(s, i, key) {
        Some(i)
    } else {
        first_key_from(s, key, i + 1)
    }
}

/// The first position from `i` on that holds a `\x01`, or the end.
pub open spec fn field_end(s: Seq<char>, i: int) -> int
    decreases s.len() - i,
{
    if i >= s.len() || i < 0 {
        s.len() as int
    } else if s[i] == '\x01' {
        i
    } else {
        field_end(s, i + 1)
    }
}

/// The value of the first field with key `key`: what follows its `\x02` up
/// to the next `\x01`; empty when there is no such field.
pub open spec fn key_value(s: Seq<char>, key: Seq<char>) -> Seq<char> {
    match first_key_from(s, key, 0) {
        Some(i) => {
            let start = i + 2 + key.len();
            s.subrange(start, field_end(s, start))
        },
        None => Seq::empty(),
    }
}

proof fn lemma_field_end(s: Seq<char>, i: int)
    requires
        0 <= i <= s.len(),
    ensures
        i <= field_end(s, i) <= s.len(),
    decreases s.len() - i,
{
    if i < s.len() && s[i] != '\x01' {
        lemma_field_end(s, i + 1);
    }
}

proof fn lemma_first_key(s: Seq<char>, key: Seq<char>, i: int)
    ensures
        first_key_from(s, key, i) matches Some(p) ==> key_at(s, p, key),
    decreases s.len() - i,
{
    if 0 <= i < s.len() && !key_at(s, i, key) {
        lemma_first_key(s, key, i + 1);
    }
}

/// A coverage point: its name holds its fields.
pub struct VlcPoint {
    pub name_str: String,
}

/// The value of a field of a name.
fn key_extract_chars(s: &Vec<char>, key: &Vec<char>) -> (r: Vec<char>)
    ensures
        r@ == key_value(s@, key@),
{
    let n = s.len();
    let k = key.len();
    let mut i: usize = 0;
    while i < n
        invariant
            n == s@.len(),
            k == key@.len(),
            i <= n,
            first_key_from(s@, key@, 0) == first_key_from(s@, key@, i as int),
        decreases n - i,
    {
        let room = n - i;
        if s[i] == '\x01' && k < room && room - k > 2 && s[i + 1 + k] == '\x02' {
            let mut q: usize = 0;
            while q < k && s[i + 1 + q] == key[q]
                invariant
                    i + 1 + k + 1 < n,
                    n == s@.len(),
                    k == key@.len(),
                    q <= k,
                    forall|m: int| 0 <= m < q ==> s@[i + 1 + m] == key@[m],
                decreases k - q,
            {
                q = q + 1;
            }
            if q == k {
                assert(s@.subrange(i + 1, i + 1 + k) =~= key@);
                assert(key_at(s@, i as int, key@));
                let start = i + 2 + k;
                let mut ep: usize = start;
                while ep < n && s[ep] != '\x01'
                    invariant
                        start <= ep <= n,
                        n == s@.len(),
                        field_end(s@, start as int) == field_end(s@, ep as int),
                    decreases n - ep,
                {
                    ep = ep + 1;
                }
                let mut r: Vec<char> = Vec::new();
                let mut j: usize = start;
                while j < ep
                    invariant
                        start <= j <= ep <= n,
                        n == s@.len(),
                        r@ == s@.subrange(start as int, j as int),
                    decreases ep - j,
                {
                    r.push(s[j]);
                    assert(s@.subrange(start as int, j + 1) =~= s@.subrange(start as int, j as int).push(s@[j as int]));
                    j = j + 1;
                }
                return r;
            } else {
                assert(s@.subrange(i + 1, i + 1 + k)[q as int] != key@[q as int]);
            }
        }
        i = i + 1;
    }
    Vec::new()
}

impl VlcPoint {
    pub fn new(name_str: &str) -> (r: VlcPoint)
        ensures
            r.name_str@ == name_str@,
    {
        VlcPoint { name_str: string_of(name_str) }
    }

    /// A copy of the point.
    pub fn duplicate(&self) -> (r: VlcPoint)
        ensures
            r.name_str@ == self.name_str@,
    {
        VlcPoint { name_str: self.name_str.clone() }
    }

    /// The value of the field with key `short_key`.
    fn key_extract(&self, short_key: &str) -> (r: String)
        ensures
            r@ == key_value(self.name_str@, short_key@),
    {
        let s = chars_of(self.name_str.as_str());
        let k = chars_of(short_key);
        string_from_chars(&key_extract_chars(&s, &k))
    }

    /// The file the point is in.
    pub fn filename(&self) -> (r: String)
        ensures
            r@ == key_value(self.name_str@, key_filename()),
    {
        proof {
            reveal_strlit("f");
        }
        assert("f"@ =~= key_filename());
        self.key_extract("f")
    }

    pub fn comment(&self) -> (r: String)
        ensures
            r@ == key_value(self.name_str@, key_comment()),
    {
        proof {
            reveal_strlit("o");
        }
        assert("o"@ =~= key_comment());
        self.key_extract("o")
    }

    /// The kind of the point (named `type` in the tool's output).
    pub fn point_type(&self) -> (r: String)
        ensures
            r@ == key_value(self.name_str@, key_type()),
    {
        proof {
            reveal_strlit("t");
        }
        assert("t"@ =~= key_type());
        self.key_extract("t")
    }

    pub fn thresh(&self) -> (r: String)
        ensures
            r@ == key_value(self.name_str@, key_thresh()),
    {
        proof {
            reveal_strlit("s");
        }
        assert("s"@ =~= key_thresh());
        self.key_extract("s")
    }

    /// The lines the point covers, as a list of numbers and ranges.
    pub fn linescov(&self) -> (r: String)
        ensures
            r@ == key_value(self.name_str@, key_linescov()),
    {
        proof {
            reveal_strlit("S");
        }
        assert("S"@ =~= key_linescov());
        self.key_extract("S")
    }

    /// The line of the point; 0 when the field is not a number.
    pub fn lineno(&self) -> (r: u32)
        ensures
            r == (match spec_parse_unsigned(key_value(self.name_str@, key_lineno()), 0x1_0000_0000) {
                Some(v) => v as u32,
                None => 0,
            }),
    {
        proof {
            reveal_strlit("l");
        }
        assert("l"@ =~= key_lineno());
        let v = self.key_extract("l");
        match parse_u32(v.as_str()) {
            Some(x) => x,
            None => 0,
        }
    }

    /// The column of the point; 0 when the field is not a number.
    pub fn column(&self) -> (r: u32)
        ensures
            r == (match spec_parse_unsigned(key_value(self.name_str@, key_column()), 0x1_0000_0000) {
                Some(v) => v as u32,
                None => 0,
            }),
    {
        proof {
            reveal_strlit("n");
        }
        assert("n"@ =~= key_column());
        let v = self.key_extract("n");
        match parse_u32(v.as_str()) {
            Some(x) => x,
            None => 0,
        }
    }

    /// The scope (module instance) of the point.
    pub fn hierarchy(&self) -> (r: String)
        ensures
            r@ == key_value(self.name_str@, key_hier()),
    {
        proof {
            reveal_strlit("h");
        }
        assert("h"@ =~= key_hier());
        self.key_extract("h")
    }
}

/// The numbers a part of a list stands for: `a-b` for the numbers from `a`
/// to `b`, else the number itself.
pub open spec fn part_numbers(part: Seq<char>) -> Seq<int> {
    match crate::agent::first_index_of(part, '-') {
        Some(p) => {
            let a = spec_parse_i32(part.take(p)).unwrap() as int;
            let b = spec_parse_i32(part.skip(p + 1)).unwrap() as int;
            if a <= b {
                Seq::new((b - a + 1) as nat, |k: int| a + k)
            } else {
                Seq::empty()
            }
        },
        None => seq![spec_parse_i32(part).unwrap() as int],
    }
}

/// Whether a part of a list is a number or a range of numbers.
pub open spec fn part_ok(part: Seq<char>) -> bool {
    match crate::agent::first_index_of(part, '-') {
        Some(p) => spec_parse_i32(part.take(p)) is Some && spec_parse_i32(part.skip(p + 1)) is Some,
        None => spec_parse_i32(part) is Some,
    }
}

/// The numbers of the parts, one part after the other.
pub open spec fn parts_numbers(parts: Seq<Seq<char>>) -> Seq<int>
    decreases parts.len(),
{
    if parts.len() == 0 {
        Seq::empty()
    } else {
        parts_numbers(parts.drop_last()) + part_numbers(parts.last())
    }
}

/// The numbers a comma-separated list of numbers and ranges stands for.
pub open spec fn numbers_of(input: Seq<char>) -> Seq<int> {
    if input.len() == 0 {
        Seq::empty()
    } else {
        parts_numbers(split_spec(input, ','))
    }
}

/// Every part of the list is a number or a range.
pub open spec fn numbers_ok(input: Seq<char>) -> bool {
    input.len() == 0 || forall|i: int| 0 <= i < split_spec(input, ',').len() ==> part_ok(#[trigger] split_spec(input, ',')[i])
}

/// The lines of a report, read from its text; the tool's header and points.
pub struct VlcReport {
    pub header: String,
    pub points_coverage: Vec<(VlcPoint, usize)>,
}

/// The view of the points of a report: (name, count).
pub open spec fn points_view(v: Seq<(VlcPoint, usize)>) -> Seq<(Seq<char>, usize)> {
    v.map_values(|e: (VlcPoint, usize)| (e.0.name_str@, e.1))
}

/// Whether an item of a point line is quoted.
pub open spec fn is_quoted(s: Seq<char>) -> bool {
    s.len() > 0 && s[0] == '\'' && s.last() == '\''
}

/// The position of the first quoted item.
pub open spec fn first_quoted(items: Seq<Seq<char>>) -> Option<int>
    decreases items.len(),
{
    if items.len() == 0 {
        None
    } else if is_quoted(items[0]) {
        Some(0)
    } else {
        match first_quoted(items.drop_first()) {
            Some(i) => Some(i + 1),
            None => None,
        }
    }
}

/// The first item that is a count.
pub open spec fn first_count(items: Seq<Seq<char>>) -> Option<usize>
    decreases items.len(),
{
    if items.len() == 0 {
        None
    } else {
        match spec_parse_unsigned(items[0], usize::MAX + 1) {
            Some(v) => Some(v as usize),
            None => first_count(items.drop_first()),
        }
    }
}

/// The point a point line (one starting with `C`) gives: the first quoted
/// item without its quotes and the first count.
pub open spec fn point_of(line: Seq<char>) -> Option<(Seq<char>, usize)> {
    let items = split_spec(line, ' ');
    match (first_quoted(items), first_count(items)) {
        (Some(q), Some(c)) => Some((items[q].subrange(1, items[q].len() - 1), c)),
        _ => None,
    }
}

/// A point line has no lone quote as its first quoted item.
pub open spec fn point_line_ok(line: Seq<char>) -> bool {
    let items = split_spec(line, ' ');
    match first_quoted(items) {
        Some(q) => items[q].len() >= 2,
        None => true,
    }
}

/// A report after one more line: a header line (`#`) sets the header, a
/// point line (`C`) adds a point; other lines change nothing.
pub open spec fn report_step(r: (Seq<char>, Seq<(Seq<char>, usize)>), raw: Seq<char>) -> (Seq<char>, Seq<(Seq<char>, usize)>) {
    let line = spec_trim(raw);
    if line.len() == 0 {
        r
    } else if line[0] == '#' {
        (spec_trim(line.skip(1)), r.1)
    } else if line[0] == 'C' {
        match point_of(line) {
            Some(p) => (r.0, r.1.push(p)),
            None => r,
        }
    } else {
        r
    }
}

/// The report the lines give, one line after the other.
pub open spec fn report_of(lines: Seq<Seq<char>>) -> (Seq<char>, Seq<(Seq<char>, usize)>)
    decreases lines.len(),
{
    if lines.len() == 0 {
        ("SystemC::Coverage-3"@, Seq::empty())
    } else {
        report_step(report_of(lines.drop_last()), lines.last())
    }
}

/// Every point line is well formed.
pub open spec fn lines_ok(lines: Seq<Seq<char>>) -> bool {
    forall|i: int|
        0 <= i < lines.len() ==> {
            let line = spec_trim(#[trigger] lines[i]);
            line.len() > 0 && line[0] == 'C' ==> point_line_ok(line)
        }
}

/// The distinct scopes of the points, in the order they first occur.
pub open spec fn scopes_of(points: Seq<(Seq<char>, usize)>) -> Seq<Seq<char>>
    decreases points.len(),
{
    if points.len() == 0 {
        Seq::empty()
    } else {
        let rest = scopes_of(points.drop_last());
        let h = key_value(points.last().0, key_hier());
        if rest.contains(h) {
            rest
        } else {
            rest.push(h)
        }
    }
}

/// A line coverage as (file, scope, time, line, origin line, count).
pub type CovView = (Seq<char>, Seq<char>, i64, u32, u32, usize);

/// The view of line coverages.
pub open spec fn covs_view(v: Seq<LineCoverage>) -> Seq<CovView> {
    v.map_values(|c: LineCoverage| (c.file_name@, c.scope_name@, c.time, c.line, c.origin_line, c.count))
}

/// The coverage of the points of `scope`: for each of its points, in order,
/// each line it covers with the point's file and count, at time 0.
pub open spec fn scope_coverage(points: Seq<(Seq<char>, usize)>, scope: Seq<char>) -> Seq<CovView>
    decreases points.len(),
{
    if points.len() == 0 {
        Seq::empty()
    } else {
        let rest = scope_coverage(points.drop_last(), scope);
        let (name, count) = points.last();
        if key_value(name, key_hier()) == scope {
            rest + numbers_of(key_value(name, key_linescov())).map_values(
                |n: int| (key_value(name, key_filename()), scope, 0i64, n as u32, n as u32, count),
            )
        } else {
            rest
        }
    }
}

/// Every point of `scope` lists its lines well.
pub open spec fn scope_points_ok(points: Seq<(Seq<char>, usize)>, scope: Seq<char>) -> bool {
    forall|i: int|
        0 <= i < points.len() && key_value(points[i].0, key_hier()) == scope ==> numbers_ok(
            key_value(#[trigger] points[i].0, key_linescov()),
        )
}

impl VlcReport {
    /// An empty report.
    pub fn new() -> (r: VlcReport)
        ensures
            r.header@ == "SystemC::Coverage-3"@,
            r.points_coverage@.len() == 0,
    {
        VlcReport { header: string_of("SystemC::Coverage-3"), points_coverage: Vec::new() }
    }

    /// The report the lines of a coverage file give: lines are read without
    /// surrounding white space; `#` lines give the header, `C` lines points.
    pub fn parse_lines(lines: &Vec<String>) -> (r: VlcReport)
        requires
            lines_ok(strings_view(lines@)),
        ensures
            (r.header@, points_view(r.points_coverage@)) == report_of(strings_view(lines@)),
    {
        let ghost ls = strings_view(lines@);
        let mut report = VlcReport::new();
        let mut i: usize = 0;
        while i < lines.len()
            invariant
                ls == strings_view(lines@),
                lines_ok(ls),
                i <= lines@.len(),
                (report.header@, points_view(report.points_coverage@)) == report_of(ls.take(i as int)),
            decreases lines@.len() - i,
        {
            assert(ls.take(i + 1).drop_last() =~= ls.take(i as int));
            assert(ls.take(i + 1).last() == ls[i as int]);
            assert(ls[i as int] == lines@[i as int]@);
            let line = trim_str(lines[i].as_str());
            let cs = chars_of(line);
            if cs.len() == 0 {
            } else if cs[0] == '#' {
                let rest = line.substring_char(1, cs.len());
                report.header = string_of(trim_str(rest));
            } else if cs[0] == 'C' {
                let ghost before = points_view(report.points_coverage@);
                match point_of_line(line) {
                    Some((name, count)) => {
                        report.points_coverage.push((VlcPoint { name_str: name }, count));
                        assert(points_view(report.points_coverage@) =~= before.push(point_of(line@).unwrap()));
                    },
                    None => {},
                }
            }
            i = i + 1;
        }
        assert(ls.take(ls.len() as int) =~= ls);
        report
    }

    /// The scopes of the points, each once, in the order they first occur.
    pub fn get_scopes(&self) -> (r: Vec<String>)
        ensures
            strings_view(r@) == scopes_of(points_view(self.points_coverage@)),
    {
        let ghost pv = points_view(self.points_coverage@);
        let mut r: Vec<String> = Vec::new();
        let mut i: usize = 0;
        while i < self.points_coverage.len()
            invariant
                pv == points_view(self.points_coverage@),
                i <= self.points_coverage@.len(),
                strings_view(r@) == scopes_of(pv.take(i as int)),
            decreases self.points_coverage@.len() - i,
        {
            assert(pv.take(i + 1).drop_last() =~= pv.take(i as int));
            assert(pv.take(i + 1).last() == pv[i as int]);
            let h = self.points_coverage[i].0.hierarchy();
            let mut k: usize = 0;
            while k < r.len() && !str_eq(r[k].as_str(), h.as_str())
                invariant
                    k <= r@.len(),
                    forall|q: int| 0 <= q < k ==> r@[q]@ != h@,
                decreases r@.len() - k,
            {
                k = k + 1;
            }
            let ghost sv = strings_view(r@);
            if k == r.len() {
                assert(!sv.contains(h@)) by {
                    if sv.contains(h@) {
                        let q = choose|q: int| 0 <= q < sv.len() && sv[q] == h@;
                        assert(r@[q]@ == sv[q]);
                    }
                }
                r.push(h);
                assert(strings_view(r@) =~= sv.push(h@));
            } else {
                assert(sv[k as int] == h@);
            }
            i = i + 1;
        }
        assert(pv.take(pv.len() as int) =~= pv);
        r
    }

    /// The numbers a list of numbers and ranges (`14,16-19,22`) stands for,
    /// in order.
    pub fn parse_numbers(input: &str) -> (r: Vec<i32>)
        requires
            numbers_ok(input@),
        ensures
            r@.map_values(|x: i32| x as int) == numbers_of(input@),
    {
        let mut result: Vec<i32> = Vec::new();
        let cs = chars_of(input);
        if cs.len() == 0 {
            assert(result@.map_values(|x: i32| x as int) =~= numbers_of(input@));
            return result;
        }
        let parts = split_char(input, ',');
        let ghost pv = strings_view(parts@);
        let mut i: usize = 0;
        while i < parts.len()
            invariant
                pv == strings_view(parts@),
                pv == split_spec(input@, ','),
                input@.len() > 0,
                numbers_ok(input@),
                i <= parts@.len(),
                result@.map_values(|x: i32| x as int) == parts_numbers(pv.take(i as int)),
            decreases parts@.len() - i,
        {
            assert(pv.take(i + 1).drop_last() =~= pv.take(i as int));
            assert(pv.take(i + 1).last() == pv[i as int]);
            assert(part_ok(pv[i as int]));
            let ghost before = result@.map_values(|x: i32| x as int);
            let nums = part_values(parts[i].as_str());
            let mut k: usize = 0;
            while k < nums.len()
                invariant
                    k <= nums@.len(),
                    result@.map_values(|x: i32| x as int) == before + nums@.take(k as int).map_values(|x: i32| x as int),
                decreases nums@.len() - k,
            {
                let ghost b2 = result@;
                result.push(nums[k]);
                assert(result@.map_values(|x: i32| x as int) =~= b2.map_values(|x: i32| x as int).push(nums@[k as int] as int));
                assert(nums@.take(k + 1).map_values(|x: i32| x as int) =~= nums@.take(k as int).map_values(|x: i32| x as int).push(
                    nums@[k as int] as int,
                ));
                k = k + 1;
            }
            assert(nums@.take(nums@.len() as int) =~= nums@);
            i = i + 1;
        }
        assert(pv.take(pv.len() as int) =~= pv);
        result
    }

    /// The coverage of the points of `scope_name`: each line each of them
    /// covers, with its file and count, at time 0.
    pub fn get_scope_coverage(&self, scope_name: &str) -> (r: Vec<LineCoverage>)
        requires
            scope_points_ok(points_view(self.points_coverage@), scope_name@),
        ensures
            covs_view(r@) == scope_coverage(points_view(self.points_coverage@), scope_name@),
    {
        let ghost pv = points_view(self.points_coverage@);
        let mut r: Vec<LineCoverage> = Vec::new();
        let mut i: usize = 0;
        while i < self.points_coverage.len()
            invariant
                pv == points_view(self.points_coverage@),
                scope_points_ok(pv, scope_name@),
                i <= self.points_coverage@.len(),
                covs_view(r@) == scope_coverage(pv.take(i as int), scope_name@),
            decreases self.points_coverage@.len() - i,
        {
            assert(pv.take(i + 1).drop_last() =~= pv.take(i as int));
            assert(pv.take(i + 1).last() == pv[i as int]);
            let point = &self.points_coverage[i].0;
            let count = self.points_coverage[i].1;
            let h = point.hierarchy();
            if str_eq(h.as_str(), scope_name) {
                assert(numbers_ok(key_value(pv[i as int].0, key_linescov())));
                let linescov = point.linescov();
                let numbers = Self::parse_numbers(linescov.as_str());
                let file = point.filename();
                let ghost before = covs_view(r@);
                let ghost mk = |n: int| (key_value(pv[i as int].0, key_filename()), scope_name@, 0i64, n as u32, n as u32, count);
                let mut k: usize = 0;
                while k < numbers.len()
                    invariant
                        k <= numbers@.len(),
                        file@ == key_value(pv[i as int].0, key_filename()),
                        mk == (|n: int| (key_value(pv[i as int].0, key_filename()), scope_name@, 0i64, n as u32, n as u32, count)),
                        covs_view(r@) == before + numbers@.take(k as int).map_values(|x: i32| x as int).map_values(mk),
                    decreases numbers@.len() - k,
                {
                    let n = numbers[k];
                    let c = LineCoverage::new(file.as_str(), scope_name, 0, n as u32, n as u32, count);
                    let ghost b2 = covs_view(r@);
                    r.push(c);
                    assert(covs_view(r@) =~= b2.push(mk(n as int)));
                    assert(numbers@.take(k + 1).map_values(|x: i32| x as int).map_values(mk) =~= numbers@.take(
                        k as int,
                    ).map_values(|x: i32| x as int).map_values(mk).push(mk(n as int)));
                    k = k + 1;
                }
                assert(numbers@.take(numbers@.len() as int) =~= numbers@);
                assert(numbers@.map_values(|x: i32| x as int).map_values(mk) =~= numbers_of(
                    key_value(pv[i as int].0, key_linescov()),
                ).map_values(
                    |n: int| (key_value(pv[i as int].0, key_filename()), scope_name@, 0i64, n as u32, n as u32, count),
                ));
            }
            i = i + 1;
        }
        assert(pv.take(pv.len() as int) =~= pv);
        r
    }
}

/// The point of a point line, if it has a quoted item and a count.
fn point_of_line(line: &str) -> (r: Option<(String, usize)>)
    requires
        point_line_ok(line@),
    ensures
        (match r {
            Some((n, c)) => Some((n@, c)),
            None => None,
        }) == point_of(line@),
{
    let items = split_char(line, ' ');
    let ghost iv = strings_view(items@);
    let mut q: usize = 0;
    assert(iv.skip(0) =~= iv);
    while q < items.len() && !quoted_str(items[q].as_str())
        invariant
            iv == strings_view(items@),
            iv == split_spec(line@, ' '),
            q <= items@.len(),
            first_quoted(iv) == (match first_quoted(iv.skip(q as int)) {
                Some(k) => Some(k + q),
                None => None,
            }),
        decreases items@.len() - q,
    {
        assert(iv.skip(q as int)[0] == iv[q as int]);
        assert(iv.skip(q as int).drop_first() =~= iv.skip(q + 1));
        q = q + 1;
    }
    let name: Option<String> = if q < items.len() {
        assert(iv.skip(q as int)[0] == iv[q as int]);
        assert(first_quoted(iv) == Some(q as int));
        let cs = chars_of(items[q].as_str());
        assert(cs@.len() >= 2);
        Some(items[q].as_str().substring_char(1, cs.len() - 1).to_owned())
    } else {
        assert(iv.skip(q as int).len() == 0);
        None
    };
    let mut c: usize = 0;
    assert(iv.skip(0) =~= iv);
    while c < items.len() && parse_usize(items[c].as_str()).is_none()
        invariant
            iv == strings_view(items@),
            c <= items@.len(),
            first_count(iv) == first_count(iv.skip(c as int)),
        decreases items@.len() - c,
    {
        assert(iv.skip(c as int)[0] == iv[c as int]);
        assert(iv.skip(c as int).drop_first() =~= iv.skip(c + 1));
        c = c + 1;
    }
    let count: Option<usize> = if c < items.len() {
        assert(iv.skip(c as int)[0] == iv[c as int]);
        parse_usize(items[c].as_str())
    } else {
        assert(iv.skip(c as int).len() == 0);
        None
    };
    match (name, count) {
        (Some(n), Some(v)) => Some((n, v)),
        _ => None,
    }
}

/// Whether a point line is well formed, as `point_line_ok` says.
fn point_line_well_formed(line: &str) -> (r: bool)
    ensures
        r == point_line_ok(line@),
{
    let items = split_char(line, ' ');
    let ghost iv = strings_view(items@);
    let mut q: usize = 0;
    assert(iv.skip(0) =~= iv);
    while q < items.len() && !quoted_str(items[q].as_str())
        invariant
            iv == strings_view(items@),
            iv == split_spec(line@, ' '),
            q <= items@.len(),
            first_quoted(iv) == (match first_quoted(iv.skip(q as int)) {
                Some(k) => Some(k + q),
                None => None,
            }),
        decreases items@.len() - q,
    {
        assert(iv.skip(q as int)[0] == iv[q as int]);
        assert(iv.skip(q as int).drop_first() =~= iv.skip(q + 1));
        q = q + 1;
    }
    if q < items.len() {
        assert(iv.skip(q as int)[0] == iv[q as int]);
        assert(first_quoted(iv) == Some(q as int));
        let cs = chars_of(items[q].as_str());
        cs.len() >= 2
    } else {
        assert(iv.skip(q as int).len() == 0);
        true
    }
}

/// Whether every point line of a report is well formed, as `parse_lines`
/// needs (`lines_ok`).
pub fn lines_well_formed(lines: &Vec<String>) -> (r: bool)
    ensures
        r == lines_ok(strings_view(lines@)),
{
    let ghost ls = strings_view(lines@);
    let mut i: usize = 0;
    while i < lines.len()
        invariant
            ls == strings_view(lines@),
            i <= lines@.len(),
            forall|j: int|
                0 <= j < i ==> {
                    let line = spec_trim(#[trigger] ls[j]);
                    line.len() > 0 && line[0] == 'C' ==> point_line_ok(line)
                },
        decreases lines@.len() - i,
    {
        assert(ls[i as int] == lines@[i as int]@);
        let line = trim_str(lines[i].as_str());
        let cs = chars_of(line);
        if cs.len() > 0 && cs[0] == 'C' && !point_line_well_formed(line) {
            return false;
        }
        i = i + 1;
    }
    true
}

/// Whether one part of a list of numbers is well formed, as `part_ok` says.
fn part_well_formed(part: &str) -> (r: bool)
    ensures
        r == part_ok(part@),
{
    let cs = chars_of(part);
    let mut p: usize = 0;
    while p < cs.len() && cs[p] != '-'
        invariant
            cs@ == part@,
            p <= cs@.len(),
            forall|k: int| 0 <= k < p ==> cs@[k] != '-',
        decreases cs@.len() - p,
    {
        p = p + 1;
    }
    proof {
        crate::agent::lemma_first_index_of(cs@, '-');
        if p < cs@.len() {
            if first_index_of_is(cs@, p as int) {
            }
        }
    }
    if p < cs.len() {
        assert(crate::agent::first_index_of(part@, '-') == Some(p as int));
        assert(part@.subrange(0, p as int) =~= part@.take(p as int));
        assert(part@.subrange(p + 1, cs@.len() as int) =~= part@.skip(p + 1));
        parse_i32(part.substring_char(0, p)).is_some() && parse_i32(part.substring_char(p + 1, cs.len())).is_some()
    } else {
        assert(crate::agent::first_index_of(part@, '-') is None);
        parse_i32(part).is_some()
    }
}

/// Whether a list of numbers is well formed, as `parse_numbers` needs
/// (`numbers_ok`).
pub fn numbers_well_formed(input: &str) -> (r: bool)
    ensures
        r == numbers_ok(input@),
{
    let cs = chars_of(input);
    if cs.len() == 0 {
        return true;
    }
    let parts = split_char(input, ',');
    let ghost pv = strings_view(parts@);
    let mut i: usize = 0;
    while i < parts.len()
        invariant
            pv == strings_view(parts@),
            pv == split_spec(input@, ','),
            input@.len() > 0,
            i <= parts@.len(),
            forall|j: int| 0 <= j < i ==> part_ok(#[trigger] pv[j]),
        decreases parts@.len() - i,
    {
        assert(pv[i as int] == parts@[i as int]@);
        if !part_well_formed(parts[i].as_str()) {
            assert(!part_ok(split_spec(input@, ',')[i as int]));
            assert(input@.len() > 0);
            return false;
        }
        i = i + 1;
    }
    assert(input@.len() > 0);
    assert forall|j: int| 0 <= j < split_spec(input@, ',').len() implies part_ok(#[trigger] split_spec(input@, ',')[j]) by {
        assert(pv[j] == split_spec(input@, ',')[j]);
    };
    true
}

/// Whether every point of a report has a well formed list of lines, as a
/// coverage of reports needs (`report_ok`).
pub fn report_well_formed(report: &VlcReport) -> (r: bool)
    ensures
        r == report_ok(points_view(report.points_coverage@)),
{
    let ghost pv = points_view(report.points_coverage@);
    let mut i: usize = 0;
    while i < report.points_coverage.len()
        invariant
            pv == points_view(report.points_coverage@),
            i <= report.points_coverage@.len(),
            forall|j: int| 0 <= j < i ==> numbers_ok(key_value(#[trigger] pv[j].0, key_linescov())),
        decreases report.points_coverage@.len() - i,
    {
        assert(pv[i as int].0 == report.points_coverage@[i as int].0.name_str@);
        let l = report.points_coverage[i].0.linescov();
        if !numbers_well_formed(l.as_str()) {
            return false;
        }
        i = i + 1;
    }
    true
}

/// Whether a string is quoted.
fn quoted_str(s: &str) -> (r: bool)
    ensures
        r == is_quoted(s@),
{
    let cs = chars_of(s);
    cs.len() > 0 && cs[0] == '\'' && cs[cs.len() - 1] == '\''
}

/// The numbers one part of a list stands for.
fn part_values(part: &str) -> (r: Vec<i32>)
    requires
        part_ok(part@),
    ensures
        r@.map_values(|x: i32| x as int) == part_numbers(part@),
{
    let cs = chars_of(part);
    let mut p: usize = 0;
    while p < cs.len() && cs[p] != '-'
        invariant
            cs@ == part@,
            p <= cs@.len(),
            forall|k: int| 0 <= k < p ==> cs@[k] != '-',
        decreases cs@.len() - p,
    {
        p = p + 1;
    }
    proof {
        crate::agent::lemma_first_index_of(cs@, '-');
        if p < cs@.len() {
            if first_index_of_is(cs@, p as int) {
            }
        }
    }
    let mut r: Vec<i32> = Vec::new();
    if p < cs.len() {
        assert(crate::agent::first_index_of(part@, '-') == Some(p as int));
        let a = parse_i32(part.substring_char(0, p)).unwrap();
        let b = parse_i32(part.substring_char(p + 1, cs.len())).unwrap();
        assert(part@.subrange(0, p as int) =~= part@.take(p as int));
        assert(part@.subrange(p + 1, cs@.len() as int) =~= part@.skip(p + 1));
        if a <= b {
            let mut x: i64 = a as i64;
            while x <= b as i64
                invariant
                    a <= x <= b + 1,
                    r@.map_values(|v: i32| v as int) == Seq::new((x - a) as nat, |k: int| a + k),
                decreases b - x + 1,
            {
                let ghost before = r@;
                let y: i32 = x as i32;
                assert(y as int == x as int);
                r.push(y);
                assert(r@.map_values(|v: i32| v as int) =~= before.map_values(|v: i32| v as int).push(x as int));
                assert(r@.map_values(|v: i32| v as int) =~= Seq::new((x - a + 1) as nat, |k: int| a + k));
                x = x + 1;
            }
        } else {
            assert(r@.map_values(|v: i32| v as int) =~= Seq::<int>::empty());
        }
        r
    } else {
        assert(crate::agent::first_index_of(part@, '-') is None);
        let v = parse_i32(part).unwrap();
        r.push(v);
        assert(r@.map_values(|x: i32| x as int) =~= seq![v as int]);
        r
    }
}

spec fn first_index_of_is(s: Seq<char>, p: int) -> bool {
    crate::agent::first_index_of(s, '-') == Some(p)
}


/// The view of a report: (header, points).
pub open spec fn report_view(r: &VlcReport) -> (Seq<char>, Seq<(Seq<char>, usize)>) {
    (r.header@, points_view(r.points_coverage@))
}

/// Every point of a report lists its lines well.
pub open spec fn report_ok(points: Seq<(Seq<char>, usize)>) -> bool {
    forall|i: int| 0 <= i < points.len() ==> numbers_ok(key_value(#[trigger] points[i].0, key_linescov()))
}

/// A table of reports by time after setting the report of `t`: in place when
/// the table has `t`, else at the end.
pub open spec fn set_time<V>(tm: Seq<(i64, V)>, t: i64, v: V) -> Seq<(i64, V)> {
    if exists|i: int| 0 <= i < tm.len() && tm[i].0 == t {
        tm.update(choose|i: int| 0 <= i < tm.len() && tm[i].0 == t, (t, v))
    } else {
        tm.push((t, v))
    }
}

/// The reports of the files whose path ends with `suffix`, by time; a later
/// file of the same time replaces an earlier one.
pub open spec fn reports_by_time(
    inputs: Seq<(i64, Seq<char>, (Seq<char>, Seq<(Seq<char>, usize)>))>,
    suffix: Seq<char>,
) -> Seq<(i64, (Seq<char>, Seq<(Seq<char>, usize)>))>
    decreases inputs.len(),
{
    if inputs.len() == 0 {
        Seq::empty()
    } else {
        let rest = reports_by_time(inputs.drop_last(), suffix);
        let (t, path, rv) = inputs.last();
        if crate::text::is_suffix(suffix, path) {
            set_time(rest, t, rv)
        } else {
            rest
        }
    }
}

/// Coverage with its time set to `t`.
pub open spec fn at_time(covs: Seq<CovView>, t: i64) -> Seq<CovView> {
    covs.map_values(|c: CovView| (c.0, c.1, t, c.3, c.4, c.5))
}

/// The coverage of each scope of a report at its time.
pub open spec fn report_lines(t: i64, points: Seq<(Seq<char>, usize)>) -> Seq<((Seq<char>, i64), Seq<CovView>)> {
    scopes_of(points).map_values(|s: Seq<char>| ((s, t), at_time(scope_coverage(points, s), t)))
}

/// The coverage of each scope at each time, time after time.
pub open spec fn lines_by_scope_time(tm: Seq<(i64, (Seq<char>, Seq<(Seq<char>, usize)>))>) -> Seq<((Seq<char>, i64), Seq<CovView>)>
    decreases tm.len(),
{
    if tm.len() == 0 {
        Seq::empty()
    } else {
        lines_by_scope_time(tm.drop_last()) + report_lines(tm.last().0, tm.last().1.1)
    }
}

/// The view of a table of reports by time.
pub open spec fn time_view(v: Seq<(i64, VlcReport)>) -> Seq<(i64, (Seq<char>, Seq<(Seq<char>, usize)>))> {
    v.map_values(|e: (i64, VlcReport)| (e.0, report_view(&e.1)))
}

/// The view of a table of coverage by (scope, time).
pub open spec fn lines_view(v: Seq<((String, i64), Vec<LineCoverage>)>) -> Seq<((Seq<char>, i64), Seq<CovView>)> {
    v.map_values(|e: ((String, i64), Vec<LineCoverage>)| ((e.0.0@, e.0.1), covs_view(e.1@)))
}

/// The view of the inputs of a coverage report: (time, path, report).
pub open spec fn inputs_view(v: Seq<(i64, String, VlcReport)>) -> Seq<(i64, Seq<char>, (Seq<char>, Seq<(Seq<char>, usize)>))> {
    v.map_values(|e: (i64, String, VlcReport)| (e.0, e.1@, report_view(&e.2)))
}

/// The coverage recorded for a scope at a time: that of the first entry.
pub open spec fn lookup_lines(t: Seq<((Seq<char>, i64), Seq<CovView>)>, s: Seq<char>, time: i64) -> Option<Seq<CovView>>
    decreases t.len(),
{
    if t.len() == 0 {
        None
    } else if t[0].0 == (s, time) {
        Some(t[0].1)
    } else {
        lookup_lines(t.drop_first(), s, time)
    }
}

/// The count of the first coverage of line `lineno`.
pub open spec fn first_count_of(v: Seq<CovView>, lineno: u32) -> Option<usize>
    decreases v.len(),
{
    if v.len() == 0 {
        None
    } else if v[0].3 == lineno {
        Some(v[0].5)
    } else {
        first_count_of(v.drop_first(), lineno)
    }
}

/// Coverage from Verilator coverage files sampled at several times: files
/// named `..comb.dat` cover combinational blocks (sampled before the falling
/// clock edge), files named `..seq.dat` sequential ones (before the rising
/// edge). Without combinational files, the sequential ones stand for them.
pub struct VlcCoverageReport {
    pub time_coverage_mapping_comb: Vec<(TimeAnnotation, VlcReport)>,
    pub time_coverage_mapping_seq: Vec<(TimeAnnotation, VlcReport)>,
    pub lines_coverage_comb: Vec<((String, TimeAnnotation), Vec<LineCoverage>)>,
    pub lines_coverage_seq: Vec<((String, TimeAnnotation), Vec<LineCoverage>)>,
}

use crate::block::{BlockType, CircuitType, TimeAnnotation};
use crate::coverage::{spec_file_name, CoverageTracker};

/// The last component of a path (what follows its last `/`).
pub open spec fn last_component(path: Seq<char>) -> Seq<char> {
    split_spec(path, '/').last()
}

/// The distinct file names of the points, in the order they first occur.
pub open spec fn point_files(points: Seq<(Seq<char>, usize)>) -> Seq<Seq<char>>
    decreases points.len(),
{
    if points.len() == 0 {
        Seq::empty()
    } else {
        let rest = point_files(points.drop_last());
        let f = last_component(key_value(points.last().0, key_filename()));
        if rest.contains(f) {
            rest
        } else {
            rest.push(f)
        }
    }
}

impl VlcCoverageReport {
    /// The coverage table of combinational blocks in use.
    pub open spec fn comb_lines(&self) -> Seq<((Seq<char>, i64), Seq<CovView>)> {
        if self.lines_coverage_comb@.len() == 0 {
            lines_view(self.lines_coverage_seq@)
        } else {
            lines_view(self.lines_coverage_comb@)
        }
    }

    /// The tables are those of the inputs.
    pub open spec fn of_inputs(&self, inputs: Seq<(i64, Seq<char>, (Seq<char>, Seq<(Seq<char>, usize)>))>) -> bool {
        &&& time_view(self.time_coverage_mapping_comb@) == reports_by_time(inputs, "comb.dat"@)
        &&& time_view(self.time_coverage_mapping_seq@) == reports_by_time(inputs, "seq.dat"@)
        &&& lines_view(self.lines_coverage_comb@) == lines_by_scope_time(reports_by_time(inputs, "comb.dat"@))
        &&& lines_view(self.lines_coverage_seq@) == lines_by_scope_time(reports_by_time(inputs, "seq.dat"@))
    }

    /// The coverage of the reports read from the files of each sample time.
    pub fn new(inputs: Vec<(TimeAnnotation, String, VlcReport)>) -> (r: VlcCoverageReport)
        requires
            forall|i: int| 0 <= i < inputs@.len() ==> report_ok(#[trigger] inputs_view(inputs@)[i].2.1),
        ensures
            r.of_inputs(inputs_view(inputs@)),
    {
        let ghost iv = inputs_view(inputs@);
        assert(iv.len() == inputs.len());
        let mut comb: Vec<(TimeAnnotation, VlcReport)> = Vec::new();
        let mut seq: Vec<(TimeAnnotation, VlcReport)> = Vec::new();
        let mut i: usize = 0;
        let mut rest = inputs;
        let mut items: Vec<(TimeAnnotation, String, VlcReport)> = Vec::new();
        // keep the inputs in order, to move each report once
        while rest.len() > 0
            invariant
                inputs_view(rest@) + inputs_view(items@).reverse() == iv,
                iv.len() <= usize::MAX,
            decreases rest@.len(),
        {
            let ghost before_items = items@;
            let ghost before_rest = rest@;
            let e = rest.pop().unwrap();
            items.push(e);
            assert(inputs_view(before_rest) =~= inputs_view(rest@).push(inputs_view(items@).last()));
            assert(inputs_view(items@) =~= inputs_view(before_items).push(inputs_view(items@).last()));
            assert(inputs_view(items@).reverse() =~= seq![inputs_view(items@).last()] + inputs_view(before_items).reverse());
            assert(inputs_view(rest@) + inputs_view(items@).reverse() =~= inputs_view(before_rest) + inputs_view(
                before_items,
            ).reverse());
        }
        assert(inputs_view(rest@) =~= Seq::<(i64, Seq<char>, (Seq<char>, Seq<(Seq<char>, usize)>))>::empty());
        assert(inputs_view(items@).reverse() =~= iv);
        assert(inputs_view(items@) =~= iv.reverse());
        assert(iv.skip(0) =~= iv);
        let ghost rv = iv.reverse();
        proof {
            assert(iv.take(0) =~= Seq::<(i64, Seq<char>, (Seq<char>, Seq<(Seq<char>, usize)>))>::empty());
            assert(time_view(comb@) =~= Seq::<(i64, (Seq<char>, Seq<(Seq<char>, usize)>))>::empty());
            assert(time_view(seq@) =~= Seq::<(i64, (Seq<char>, Seq<(Seq<char>, usize)>))>::empty());
        }
        while items.len() > 0
            invariant
                iv.len() == i + items@.len(),
                iv.len() <= usize::MAX,
                inputs_view(items@) == iv.skip(i as int).reverse(),
                time_view(comb@) == reports_by_time(iv.take(i as int), "comb.dat"@),
                time_view(seq@) == reports_by_time(iv.take(i as int), "seq.dat"@),
                forall|k: int| 0 <= k < iv.len() ==> report_ok(#[trigger] iv[k].2.1),
                times_unique(time_view(comb@)),
                times_unique(time_view(seq@)),
                forall|k: int| 0 <= k < comb@.len() ==> report_ok(#[trigger] time_view(comb@)[k].1.1),
                forall|k: int| 0 <= k < seq@.len() ==> report_ok(#[trigger] time_view(seq@)[k].1.1),
            decreases items@.len(),
        {
            let ghost before_items = items@;
            let (t, path, report) = items.pop().unwrap();
            proof {
                assert(iv.skip(i as int).reverse().last() == iv[i as int]);
                assert(inputs_view(before_items).last() == (t, path@, report_view(&report)));
                assert(inputs_view(items@) =~= inputs_view(before_items).drop_last());
                assert(iv.skip(i as int).reverse().drop_last() =~= iv.skip(i + 1).reverse());
                assert(report_ok(iv[i as int].2.1));
                assert(iv.take(i + 1).drop_last() =~= iv.take(i as int));
                assert(iv.take(i + 1).last() == iv[i as int]);
            }
            let is_comb = crate::text::str_ends_with(path.as_str(), "comb.dat");
            let is_seq = crate::text::str_ends_with(path.as_str(), "seq.dat");
            proof {
                lemma_not_both(path@);
            }
            if is_comb {
                set_report(&mut comb, t, report);
            } else if is_seq {
                set_report(&mut seq, t, report);
            }
            i = i + 1;
        }
        assert(iv.take(iv.len() as int) =~= iv);
        let lines_coverage_comb = lines_of_reports(&comb);
        let lines_coverage_seq = lines_of_reports(&seq);
        VlcCoverageReport {
            time_coverage_mapping_comb: comb,
            time_coverage_mapping_seq: seq,
            lines_coverage_comb,
            lines_coverage_seq,
        }
    }

    /// The coverage of a scope at a time for blocks of the given kind; empty
    /// when none is recorded.
    pub fn get_always_lines_coverage(&self, ctype: CircuitType, scope_name: &str, time: TimeAnnotation) -> (r: Vec<
        LineCoverage,
    >)
        ensures
            covs_view(r@) == (match lookup_lines(
                match ctype {
                    CircuitType::COMB => self.comb_lines(),
                    CircuitType::SEQ => lines_view(self.lines_coverage_seq@),
                },
                scope_name@,
                time,
            ) {
                Some(v) => v,
                None => Seq::empty(),
            }),
    {
        let table = match ctype {
            CircuitType::COMB => if self.lines_coverage_comb.len() == 0 {
                &self.lines_coverage_seq
            } else {
                &self.lines_coverage_comb
            },
            CircuitType::SEQ => &self.lines_coverage_seq,
        };
        match find_lines(table, scope_name, time) {
            Some(k) => copy_covs(&table[k].1),
            None => {
                let e: Vec<LineCoverage> = Vec::new();
                assert(covs_view(e@) =~= Seq::<CovView>::empty());
                e
            },
        }
    }
}

/// Times occur once in a table.
pub open spec fn times_unique<V>(tm: Seq<(i64, V)>) -> bool {
    forall|i: int, j: int| 0 <= i < j < tm.len() ==> tm[i].0 != tm[j].0
}

proof fn lemma_set_time_unique<V>(tm: Seq<(i64, V)>, t: i64, v: V)
    requires
        times_unique(tm),
    ensures
        times_unique(set_time(tm, t, v)),
{
    if exists|i: int| 0 <= i < tm.len() && tm[i].0 == t {
        let k = choose|i: int| 0 <= i < tm.len() && tm[i].0 == t;
        let r = tm.update(k, (t, v));
        assert forall|i: int, j: int| 0 <= i < j < r.len() implies r[i].0 != r[j].0 by {
            if i == k {
                assert(tm[j].0 != tm[k].0);
            } else if j == k {
                assert(tm[i].0 != tm[k].0);
            }
        }
    }
}

proof fn lemma_reports_unique(inputs: Seq<(i64, Seq<char>, (Seq<char>, Seq<(Seq<char>, usize)>))>, suffix: Seq<char>)
    ensures
        times_unique(reports_by_time(inputs, suffix)),
    decreases inputs.len(),
{
    if inputs.len() > 0 {
        lemma_reports_unique(inputs.drop_last(), suffix);
        let (t, path, rv) = inputs.last();
        lemma_set_time_unique(reports_by_time(inputs.drop_last(), suffix), t, rv);
    }
}

/// No path ends with both names.
proof fn lemma_not_both(path: Seq<char>)
    ensures
        !(crate::text::is_suffix("comb.dat"@, path) && crate::text::is_suffix("seq.dat"@, path)),
{
    reveal_strlit("comb.dat");
    reveal_strlit("seq.dat");
    if crate::text::is_suffix("comb.dat"@, path) && crate::text::is_suffix("seq.dat"@, path) {
        let n = path.len() as int;
        assert(path.subrange(n - 8, n)[1] == 'o');
        assert(path.subrange(n - 7, n)[0] == 's');
        assert(path[n - 7] == 'o');
        assert(path[n - 7] == 's');
    }
}

/// Sets the report of a time in a table: in place when the table has it,
/// else at the end.
fn set_report(tm: &mut Vec<(TimeAnnotation, VlcReport)>, t: TimeAnnotation, report: VlcReport)
    requires
        times_unique(time_view(old(tm)@)),
        forall|k: int| 0 <= k < old(tm)@.len() ==> report_ok(#[trigger] time_view(old(tm)@)[k].1.1),
        report_ok(report_view(&report).1),
    ensures
        time_view(final(tm)@) == set_time(time_view(old(tm)@), t, report_view(&report)),
        times_unique(time_view(final(tm)@)),
        forall|k: int| 0 <= k < final(tm)@.len() ==> report_ok(#[trigger] time_view(final(tm)@)[k].1.1),
{
    let ghost tv = time_view(tm@);
    let ghost rv = report_view(&report);
    proof {
        lemma_set_time_unique(tv, t, rv);
    }
    let mut k: usize = 0;
    while k < tm.len() && tm[k].0 != t
        invariant
            tv == time_view(tm@),
            k <= tm@.len(),
            forall|q: int| 0 <= q < k ==> tm@[q].0 != t,
        decreases tm@.len() - k,
    {
        k = k + 1;
    }
    if k < tm.len() {
        proof {
            assert(tv[k as int].0 == t);
            let j = choose|j: int| 0 <= j < tv.len() && tv[j].0 == t;
            if j != k {
                if j < k {
                    assert(tm@[j].0 != t);
                } else {
                    assert(tv[k as int].0 != tv[j].0);
                }
            }
        }
        tm.set(k, (t, report));
        assert(time_view(tm@) =~= tv.update(k as int, (t, rv)));
    } else {
        tm.push((t, report));
        assert(!(exists|j: int| 0 <= j < tv.len() && tv[j].0 == t));
        assert(time_view(tm@) =~= tv.push((t, rv)));
    }
}

/// The coverage of each scope of each report at its time.
fn lines_of_reports(tm: &Vec<(TimeAnnotation, VlcReport)>) -> (r: Vec<((String, TimeAnnotation), Vec<LineCoverage>)>)
    requires
        forall|k: int| 0 <= k < tm@.len() ==> report_ok(#[trigger] time_view(tm@)[k].1.1),
    ensures
        lines_view(r@) == lines_by_scope_time(time_view(tm@)),
{
    let ghost tv = time_view(tm@);
    let mut r: Vec<((String, TimeAnnotation), Vec<LineCoverage>)> = Vec::new();
    let mut i: usize = 0;
    while i < tm.len()
        invariant
            tv == time_view(tm@),
            forall|k: int| 0 <= k < tm@.len() ==> report_ok(#[trigger] time_view(tm@)[k].1.1),
            i <= tm@.len(),
            lines_view(r@) == lines_by_scope_time(tv.take(i as int)),
        decreases tm@.len() - i,
    {
        assert(tv.take(i + 1).drop_last() =~= tv.take(i as int));
        assert(tv.take(i + 1).last() == tv[i as int]);
        let t = tm[i].0;
        let report = &tm[i].1;
        let ghost pts = tv[i as int].1.1;
        assert(report_ok(pts));
        let scopes = report.get_scopes();
        let ghost base = lines_view(r@);
        let mut k: usize = 0;
        while k < scopes.len()
            invariant
                k <= scopes@.len(),
                pts == points_view(report.points_coverage@),
                report_ok(pts),
                strings_view(scopes@) == scopes_of(pts),
                lines_view(r@) == base + report_lines(t, pts).take(k as int),
            decreases scopes@.len() - k,
        {
            let scope = scopes[k].as_str();
            assert(scope_points_ok(pts, scope@)) by {
                assert forall|q: int| 0 <= q < pts.len() && key_value(pts[q].0, key_hier()) == scope@ implies numbers_ok(
                    key_value(#[trigger] pts[q].0, key_linescov()),
                ) by {
                    assert(report_ok(pts));
                }
            }
            let covs = report.get_scope_coverage(scope);
            let timed = with_time(covs, t);
            let ghost before = lines_view(r@);
            r.push(((scopes[k].clone(), t), timed));
            assert(strings_view(scopes@)[k as int] == scope@);
            assert(lines_view(r@) =~= before.push(((scope@, t), at_time(scope_coverage(pts, scope@), t))));
            assert(report_lines(t, pts).take(k + 1) =~= report_lines(t, pts).take(k as int).push(
                ((scope@, t), at_time(scope_coverage(pts, scope@), t)),
            ));
            k = k + 1;
        }
        assert(report_lines(t, pts).take(scopes@.len() as int) =~= report_lines(t, pts));
        i = i + 1;
    }
    assert(tv.take(tv.len() as int) =~= tv);
    r
}

/// The coverage with its time set to `t`.
fn with_time(covs: Vec<LineCoverage>, t: TimeAnnotation) -> (r: Vec<LineCoverage>)
    ensures
        covs_view(r@) == at_time(covs_view(covs@), t),
{
    let mut r: Vec<LineCoverage> = Vec::new();
    let mut i: usize = 0;
    while i < covs.len()
        invariant
            i <= covs@.len(),
            covs_view(r@) == at_time(covs_view(covs@), t).take(i as int),
        decreases covs@.len() - i,
    {
        let c = &covs[i];
        let mut d = c.duplicate();
        d.time = t;
        let ghost before = covs_view(r@);
        r.push(d);
        assert(covs_view(r@) =~= before.push(at_time(covs_view(covs@), t)[i as int]));
        assert(at_time(covs_view(covs@), t).take(i + 1) =~= at_time(covs_view(covs@), t).take(i as int).push(
            at_time(covs_view(covs@), t)[i as int],
        ));
        i = i + 1;
    }
    assert(at_time(covs_view(covs@), t).take(covs@.len() as int) =~= at_time(covs_view(covs@), t));
    r
}

/// A copy of line coverages.
fn copy_covs(v: &Vec<LineCoverage>) -> (r: Vec<LineCoverage>)
    ensures
        covs_view(r@) == covs_view(v@),
{
    let mut r: Vec<LineCoverage> = Vec::new();
    let mut i: usize = 0;
    while i < v.len()
        invariant
            i <= v@.len(),
            covs_view(r@) == covs_view(v@).take(i as int),
        decreases v@.len() - i,
    {
        let ghost before = covs_view(r@);
        r.push(v[i].duplicate());
        assert(covs_view(r@) =~= before.push(covs_view(v@)[i as int]));
        assert(covs_view(v@).take(i + 1) =~= covs_view(v@).take(i as int).push(covs_view(v@)[i as int]));
        i = i + 1;
    }
    assert(covs_view(v@).take(v@.len() as int) =~= covs_view(v@));
    r
}

/// The position of the first entry for (`scope`, `time`).
fn find_lines(t: &Vec<((String, TimeAnnotation), Vec<LineCoverage>)>, scope: &str, time: TimeAnnotation) -> (r: Option<usize>)
    ensures
        r matches Some(k) ==> k < t@.len() && lookup_lines(lines_view(t@), scope@, time) == Some(covs_view(t@[k as int].1@)),
        r is None ==> lookup_lines(lines_view(t@), scope@, time) is None,
{
    let ghost tv = lines_view(t@);
    let mut i: usize = 0;
    assert(tv.skip(0) =~= tv);
    while i < t.len()
        invariant
            tv == lines_view(t@),
            i <= t@.len(),
            lookup_lines(tv, scope@, time) == lookup_lines(tv.skip(i as int), scope@, time),
        decreases t@.len() - i,
    {
        assert(tv.skip(i as int).drop_first() =~= tv.skip(i + 1));
        assert(tv.skip(i as int)[0] == tv[i as int]);
        if t[i].0.1 == time && str_eq(t[i].0.0.as_str(), scope) {
            return Some(i);
        }
        i = i + 1;
    }
    None
}


/// The count a coverage table gives for a line of a scope at a time.
pub open spec fn table_count(t: Seq<((Seq<char>, i64), Seq<CovView>)>, s: Seq<char>, time: i64, lineno: u32) -> Option<usize> {
    match lookup_lines(t, s, time) {
        Some(v) => first_count_of(v, lineno),
        None => None,
    }
}

/// The count of the first coverage of line `lineno`.
fn count_of_line(v: &Vec<LineCoverage>, lineno: u32) -> (r: Option<usize>)
    ensures
        r == first_count_of(covs_view(v@), lineno),
{
    let ghost cv = covs_view(v@);
    let mut i: usize = 0;
    assert(cv.skip(0) =~= cv);
    while i < v.len()
        invariant
            cv == covs_view(v@),
            i <= v@.len(),
            first_count_of(cv, lineno) == first_count_of(cv.skip(i as int), lineno),
        decreases v@.len() - i,
    {
        assert(cv.skip(i as int).drop_first() =~= cv.skip(i + 1));
        assert(cv.skip(i as int)[0] == cv[i as int]);
        if v[i].line == lineno {
            return Some(v[i].count);
        }
        i = i + 1;
    }
    None
}

/// The distinct last path components of the file names of the points.
fn files_of_points(points: &Vec<(VlcPoint, usize)>) -> (r: Vec<String>)
    ensures
        strings_view(r@) == point_files(points_view(points@)),
{
    let ghost pv = points_view(points@);
    let mut r: Vec<String> = Vec::new();
    let mut i: usize = 0;
    while i < points.len()
        invariant
            pv == points_view(points@),
            i <= points@.len(),
            strings_view(r@) == point_files(pv.take(i as int)),
        decreases points@.len() - i,
    {
        assert(pv.take(i + 1).drop_last() =~= pv.take(i as int));
        assert(pv.take(i + 1).last() == pv[i as int]);
        let fname = points[i].0.filename();
        let parts = split_char(fname.as_str(), '/');
        proof {
            crate::parse::lemma_split_nonempty(fname@, '/');
        }
        let f = parts[parts.len() - 1].clone();
        assert(f@ == last_component(fname@));
        let mut k: usize = 0;
        while k < r.len() && !str_eq(r[k].as_str(), f.as_str())
            invariant
                k <= r@.len(),
                forall|q: int| 0 <= q < k ==> r@[q]@ != f@,
            decreases r@.len() - k,
        {
            k = k + 1;
        }
        let ghost sv = strings_view(r@);
        if k == r.len() {
            assert(!sv.contains(f@)) by {
                if sv.contains(f@) {
                    let q = choose|q: int| 0 <= q < sv.len() && sv[q] == f@;
                    assert(r@[q]@ == sv[q]);
                }
            }
            r.push(f);
            assert(strings_view(r@) =~= sv.push(f@));
        } else {
            assert(sv[k as int] == f@);
        }
        i = i + 1;
    }
    assert(pv.take(pv.len() as int) =~= pv);
    r
}

impl CoverageTracker for VlcCoverageReport {
    /// Lines of always blocks: the count the file of their kind gives at the
    /// time for the scope (none without a scope or a time, or for a line the
    /// file does not list); any other block counts as reached once.
    open spec fn spec_line_covered(
        &self,
        btype: Option<BlockType>,
        scope_name: Option<Seq<char>>,
        module_name: Option<Seq<char>>,
        time: Option<TimeAnnotation>,
        lineno: u32,
    ) -> Option<usize> {
        match btype {
            Some(BlockType::Always(ct)) => match (scope_name, time) {
                (Some(s), Some(t)) => table_count(
                    match ct {
                        CircuitType::COMB => self.comb_lines(),
                        CircuitType::SEQ => lines_view(self.lines_coverage_seq@),
                    },
                    s,
                    t,
                    lineno,
                ),
                _ => None,
            },
            Some(_) => Some(1),
            None => None,
        }
    }

    open spec fn module_files_ok(&self) -> bool {
        true
    }

    fn check_line_covered(
        &self,
        btype: Option<BlockType>,
        scope_name: Option<&str>,
        module_name: Option<&str>,
        time: Option<TimeAnnotation>,
        lineno: u32,
    ) -> (r: Option<usize>) {
        match btype {
            Some(BlockType::Always(ct)) => match (scope_name, time) {
                (Some(s), Some(t)) => {
                    let table = match ct {
                        CircuitType::COMB => if self.lines_coverage_comb.len() == 0 {
                            &self.lines_coverage_seq
                        } else {
                            &self.lines_coverage_comb
                        },
                        CircuitType::SEQ => &self.lines_coverage_seq,
                    };
                    match find_lines(table, s, t) {
                        Some(k) => count_of_line(&table[k].1, lineno),
                        None => None,
                    }
                },
                _ => None,
            },
            Some(_) => Some(1),
            None => None,
        }
    }

    /// The files of the points of one report (the first sequential one, else
    /// the first combinational one), each by its last path component, once.
    fn get_covered_module_files(&self) -> (r: Vec<String>)
        ensures
            strings_view(r@) == (if self.time_coverage_mapping_seq@.len() > 0 {
                point_files(points_view(self.time_coverage_mapping_seq@[0].1.points_coverage@))
            } else if self.time_coverage_mapping_comb@.len() > 0 {
                point_files(points_view(self.time_coverage_mapping_comb@[0].1.points_coverage@))
            } else {
                Seq::empty()
            }),
    {
        if self.time_coverage_mapping_seq.len() > 0 {
            files_of_points(&self.time_coverage_mapping_seq[0].1.points_coverage)
        } else if self.time_coverage_mapping_comb.len() > 0 {
            files_of_points(&self.time_coverage_mapping_comb[0].1.points_coverage)
        } else {
            let e: Vec<String> = Vec::new();
            assert(strings_view(e@) =~= Seq::<Seq<char>>::empty());
            e
        }
    }
}


/// A module's file name: the name itself when it has a `.`, else with `.sv` added.
pub open spec fn module_file(name: Seq<char>) -> Seq<char> {
    if name.contains('.') {
        name
    } else {
        name + ".sv"@
    }
}

/// The elements of `s`, each once, in the order they first occur.
pub open spec fn distinct_names(s: Seq<Seq<char>>) -> Seq<Seq<char>>
    decreases s.len(),
{
    if s.len() == 0 {
        Seq::empty()
    } else {
        let rest = distinct_names(s.drop_last());
        if rest.contains(s.last()) {
            rest
        } else {
            rest.push(s.last())
        }
    }
}

/// Coverage from both sources: always blocks from the coverage files,
/// continuous assignments from the syntax tree.
pub struct CompositeCoverageTracker {
    pub vlc: VlcCoverageReport,
    pub param: crate::coverage::ParameterCoverageReport,
}

impl CompositeCoverageTracker {
    pub fn new(vlc: VlcCoverageReport, param: crate::coverage::ParameterCoverageReport) -> (r: Self)
        ensures
            r.vlc == vlc,
            r.param == param,
    {
        CompositeCoverageTracker { vlc, param }
    }
}

/// Adds `name` to `r` unless it is there.
fn add_distinct(r: &mut Vec<String>, name: String)
    ensures
        strings_view(final(r)@) == (if strings_view(old(r)@).contains(name@) {
            strings_view(old(r)@)
        } else {
            strings_view(old(r)@).push(name@)
        }),
{
    let mut k: usize = 0;
    while k < r.len() && !str_eq(r[k].as_str(), name.as_str())
        invariant
            k <= r@.len(),
            forall|q: int| 0 <= q < k ==> r@[q]@ != name@,
        decreases r@.len() - k,
    {
        k = k + 1;
    }
    let ghost sv = strings_view(r@);
    if k == r.len() {
        assert(!sv.contains(name@)) by {
            if sv.contains(name@) {
                let q = choose|q: int| 0 <= q < sv.len() && sv[q] == name@;
                assert(r@[q]@ == sv[q]);
            }
        }
        r.push(name);
        assert(strings_view(r@) =~= sv.push(name@));
    } else {
        assert(sv[k as int] == name@);
    }
}

impl CoverageTracker for CompositeCoverageTracker {
    /// Always blocks are answered by the coverage files, continuous
    /// assignments by the syntax tree; any other block counts as reached once.
    open spec fn spec_line_covered(
        &self,
        btype: Option<BlockType>,
        scope_name: Option<Seq<char>>,
        module_name: Option<Seq<char>>,
        time: Option<TimeAnnotation>,
        lineno: u32,
    ) -> Option<usize> {
        match btype {
            Some(BlockType::Always(_)) => self.vlc.spec_line_covered(btype, scope_name, module_name, time, lineno),
            Some(BlockType::Assign) => self.param.spec_line_covered(btype, scope_name, module_name, time, lineno),
            Some(_) => Some(1),
            None => None,
        }
    }

    open spec fn module_files_ok(&self) -> bool {
        true
    }

    fn check_line_covered(
        &self,
        btype: Option<BlockType>,
        scope_name: Option<&str>,
        module_name: Option<&str>,
        time: Option<TimeAnnotation>,
        lineno: u32,
    ) -> (r: Option<usize>) {
        match btype {
            Some(BlockType::Always(_)) => self.vlc.check_line_covered(btype, scope_name, module_name, time, lineno),
            Some(BlockType::Assign) => self.param.check_line_covered(btype, scope_name, module_name, time, lineno),
            Some(_) => Some(1),
            None => None,
        }
    }

    /// The files of both sources, each once; a module name without a `.`
    /// gets `.sv` added.
    fn get_covered_module_files(&self) -> (r: Vec<String>)
        ensures
            strings_view(r@) == distinct_names(
                (if self.vlc.time_coverage_mapping_seq@.len() > 0 {
                    point_files(points_view(self.vlc.time_coverage_mapping_seq@[0].1.points_coverage@))
                } else if self.vlc.time_coverage_mapping_comb@.len() > 0 {
                    point_files(points_view(self.vlc.time_coverage_mapping_comb@[0].1.points_coverage@))
                } else {
                    Seq::empty()
                }) + self.param.lines_coverage@.map_values(|e: (String, Vec<LineCoverage>)| module_file(e.0@)),
            ),
    {
        let a = self.vlc.get_covered_module_files();
        let b = self.param.get_covered_module_files();
        let mut names: Vec<String> = Vec::new();
        let mut i: usize = 0;
        while i < a.len()
            invariant
                i <= a@.len(),
                strings_view(names@) == strings_view(a@).take(i as int),
            decreases a@.len() - i,
        {
            let ghost before = names@;
            names.push(a[i].clone());
            assert(strings_view(names@) =~= strings_view(before).push(strings_view(a@)[i as int]));
            assert(strings_view(a@).take(i + 1) =~= strings_view(a@).take(i as int).push(strings_view(a@)[i as int]));
            i = i + 1;
        }
        assert(strings_view(a@).take(a@.len() as int) =~= strings_view(a@));
        let ghost bm = strings_view(b@).map_values(|n: Seq<char>| module_file(n));
        let mut j: usize = 0;
        while j < b.len()
            invariant
                j <= b@.len(),
                bm == strings_view(b@).map_values(|n: Seq<char>| module_file(n)),
                strings_view(names@) == strings_view(a@) + bm.take(j as int),
            decreases b@.len() - j,
        {
            let n = b[j].as_str();
            let f = if crate::text::str_contains_char(n, '.') {
                string_of(n)
            } else {
                let mut cs = chars_of(n);
                cs.push('.');
                cs.push('s');
                cs.push('v');
                proof {
                    reveal_strlit(".sv");
                }
                assert(cs@ =~= n@ + ".sv"@);
                string_from_chars(&cs)
            };
            assert(f@ == bm[j as int]);
            let ghost before = names@;
            names.push(f);
            assert(strings_view(names@) =~= strings_view(before).push(bm[j as int]));
            assert(bm.take(j + 1) =~= bm.take(j as int).push(bm[j as int]));
            j = j + 1;
        }
        assert(bm.take(b@.len() as int) =~= bm);
        assert(bm =~= self.param.lines_coverage@.map_values(|e: (String, Vec<LineCoverage>)| module_file(e.0@)));
        let ghost all = strings_view(names@);
        let mut r: Vec<String> = Vec::new();
        let mut k: usize = 0;
        while k < names.len()
            invariant
                k <= names@.len(),
                all == strings_view(names@),
                strings_view(r@) == distinct_names(all.take(k as int)),
            decreases names@.len() - k,
        {
            assert(all.take(k + 1).drop_last() =~= all.take(k as int));
            assert(all.take(k + 1).last() == all[k as int]);
            add_distinct(&mut r, names[k].clone());
            k = k + 1;
        }
        assert(all.take(all.len() as int) =~= all);
        r
    }
}

/// A clocked always block is answered by the sequential coverage alone: the
/// first count of the line among the sequential lines of its scope at its
/// time. Two reports with the same sequential lines answer alike, whatever
/// their combinational files hold.
pub proof fn lemma_seq_answered_by_seq_lines(
    a: VlcCoverageReport,
    b: VlcCoverageReport,
    s: Seq<char>,
    m: Option<Seq<char>>,
    t: TimeAnnotation,
    line: u32,
)
    requires
        lines_view(a.lines_coverage_seq@) == lines_view(b.lines_coverage_seq@),
    ensures
        a.spec_line_covered(Some(BlockType::Always(CircuitType::SEQ)), Some(s), m, Some(t), line) == table_count(
            lines_view(a.lines_coverage_seq@),
            s,
            t,
            line,
        ),
        a.spec_line_covered(Some(BlockType::Always(CircuitType::SEQ)), Some(s), m, Some(t), line) == b.spec_line_covered(
            Some(BlockType::Always(CircuitType::SEQ)),
            Some(s),
            m,
            Some(t),
            line,
        ),
{
}

} // verus!
