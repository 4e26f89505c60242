//! Coverage of continuous assignments from the syntax tree Verilator writes
//! as JSON after removing parameters: the lines of the assignments of each
//! live module.
use vstd::prelude::*;

use crate::coverage::{LineCoverage, ParameterCoverageReport};
use crate::parse::{split_char, split_spec, spec_parse_unsigned, parse_u32};
use crate::text::{str_eq, string_of};
use crate::vlc::{covs_view, CovView};

verus! {

/// A JSON value (numbers are kept only as numbers).
pub enum JsonValue {
    Null,
    Bool(bool),
    Number,
    Str(String),
    Array(Vec<JsonValue>),
    Object(Vec<(String, JsonValue)>),
}

/// The value of the first entry with key `k` of an object.
pub open spec fn obj_get(o: Seq<(String, JsonValue)>, k: Seq<char>) -> Option<JsonValue>
    decreases o.len(),
{
    if o.len() == 0 {
        None
    } else if o[0].0@ == k {
        Some(o[0].1)
    } else {
        obj_get(o.drop_first(), k)
    }
}

/// The lines a location `file,start:col,end:col` stands for: from the start
/// line to the end line, each reached once; none when a line is not a number.
pub open spec fn location_lines(loc: Seq<char>) -> Seq<CovView> {
    let tokens = split_spec(loc, ',');
    match (
        spec_parse_unsigned(split_spec(tokens[1], ':')[0], 0x1_0000_0000),
        spec_parse_unsigned(split_spec(tokens[2], ':')[0], 0x1_0000_0000),
    ) {
        (Some(a), Some(b)) => if a <= b {
            Seq::new((b - a + 1) as nat, |k: int| (Seq::<char>::empty(), Seq::<char>::empty(), 0i64, (a + k) as u32, (a + k) as u32, 1usize))
        } else {
            Seq::empty()
        },
        _ => Seq::empty(),
    }
}

/// A location has three parts.
pub open spec fn location_ok(loc: Seq<char>) -> bool {
    split_spec(loc, ',').len() == 3
}

/// The type of an object, when it is a string.
pub open spec fn type_of(o: Seq<(String, JsonValue)>) -> Option<Seq<char>> {
    match obj_get(o, "type"@) {
        Some(JsonValue::Str(t)) => Some(t@),
        _ => None,
    }
}

/// Whether an object is an assignment.
pub open spec fn is_assignment(o: Seq<(String, JsonValue)>) -> bool {
    type_of(o) == Some("ASSIGNW"@) || type_of(o) == Some("ASSIGN"@)
}

/// The lines of the left-hand sides of an assignment: those of the location
/// of each side that has one.
pub open spec fn lhs_lines(l: Seq<JsonValue>) -> Seq<CovView>
    decreases l.len(),
{
    if l.len() == 0 {
        Seq::empty()
    } else {
        lhs_lines(l.drop_last()) + match l.last() {
            JsonValue::Object(m) => match obj_get(m@, "loc"@) {
                Some(JsonValue::Str(s)) => location_lines(s@),
                _ => Seq::empty(),
            },
            _ => Seq::empty(),
        }
    }
}

/// The locations of the left-hand sides have three parts each.
pub open spec fn lhs_ok(l: Seq<JsonValue>) -> bool
    decreases l.len(),
{
    if l.len() == 0 {
        true
    } else {
        lhs_ok(l.drop_last()) && match l.last() {
            JsonValue::Object(m) => match obj_get(m@, "loc"@) {
                Some(JsonValue::Str(s)) => location_ok(s@),
                _ => true,
            },
            _ => true,
        }
    }
}

/// The lines of an assignment statement: those of its left-hand sides.
pub open spec fn assign_lines(o: Seq<(String, JsonValue)>) -> Option<Seq<CovView>> {
    if is_assignment(o) {
        match obj_get(o, "lhsp"@) {
            Some(JsonValue::Array(l)) => Some(lhs_lines(l@)),
            _ => None,
        }
    } else {
        None
    }
}

/// The assignment statement's locations are well formed.
pub open spec fn assign_ok(o: Seq<(String, JsonValue)>) -> bool {
    is_assignment(o) ==> match obj_get(o, "lhsp"@) {
        Some(JsonValue::Array(l)) => lhs_ok(l@),
        _ => true,
    }
}

/// The lines of a statement (an object): those of the statements in each of
/// its array entries, then its own when it is an assignment.
pub open spec fn stmt_lines(v: JsonValue) -> Option<Seq<CovView>>
    decreases v,
{
    match v {
        JsonValue::Object(o) => Some(entries_lines(o@) + match assign_lines(o@) {
            Some(c) => c,
            None => Seq::empty(),
        }),
        _ => None,
    }
}

/// The lines of the statements in the array entries of an object.
pub open spec fn entries_lines(o: Seq<(String, JsonValue)>) -> Seq<CovView>
    decreases o,
{
    if o.len() == 0 {
        Seq::empty()
    } else {
        entries_lines(o.drop_last()) + match o.last().1 {
            JsonValue::Array(a) => array_lines(a@),
            _ => Seq::empty(),
        }
    }
}

/// The lines of the statements of an array, one after the other.
pub open spec fn array_lines(a: Seq<JsonValue>) -> Seq<CovView>
    decreases a,
{
    if a.len() == 0 {
        Seq::empty()
    } else {
        array_lines(a.drop_last()) + match stmt_lines(a.last()) {
            Some(c) => c,
            None => Seq::empty(),
        }
    }
}

/// Every location a statement's lines are read from is well formed.
pub open spec fn stmt_ok(v: JsonValue) -> bool
    decreases v,
{
    match v {
        JsonValue::Object(o) => entries_ok(o@) && assign_ok(o@),
        _ => true,
    }
}

/// Every location in the array entries of an object is well formed.
pub open spec fn entries_ok(o: Seq<(String, JsonValue)>) -> bool
    decreases o,
{
    if o.len() == 0 {
        true
    } else {
        entries_ok(o.drop_last()) && match o.last().1 {
            JsonValue::Array(a) => array_ok(a@),
            _ => true,
        }
    }
}

/// Every location in the statements of an array is well formed.
pub open spec fn array_ok(a: Seq<JsonValue>) -> bool
    decreases a,
{
    if a.len() == 0 {
        true
    } else {
        array_ok(a.drop_last()) && stmt_ok(a.last())
    }
}

/// A module of the tree: its original name and the lines of its statements,
/// unless it is dead; `None` when it lacks its statements, name or liveness.
pub open spec fn module_entry(m: Seq<(String, JsonValue)>) -> Option<(Seq<char>, Seq<CovView>)> {
    match (obj_get(m, "stmtsp"@), obj_get(m, "origName"@), obj_get(m, "dead"@)) {
        (Some(JsonValue::Array(a)), Some(JsonValue::Str(name)), Some(JsonValue::Bool(dead))) => if !dead {
            Some((name@, array_lines(a@)))
        } else {
            None
        },
        _ => None,
    }
}

/// Whether a value is an object of type `MODULE`.
pub open spec fn is_module(v: JsonValue) -> bool {
    match v {
        JsonValue::Object(m) => type_of(m@) == Some("MODULE"@),
        _ => false,
    }
}

/// Sets the lines of a module: in place when the table has it, else at the end.
pub open spec fn set_module(t: Seq<(Seq<char>, Seq<CovView>)>, e: (Seq<char>, Seq<CovView>)) -> Seq<(Seq<char>, Seq<CovView>)> {
    if exists|i: int| 0 <= i < t.len() && t[i].0 == e.0 {
        t.update(choose|i: int| 0 <= i < t.len() && t[i].0 == e.0, e)
    } else {
        t.push(e)
    }
}

/// The lines of the live modules among `ms`; a later module of the same name
/// replaces an earlier one.
pub open spec fn modules_lines(ms: Seq<JsonValue>) -> Seq<(Seq<char>, Seq<CovView>)>
    decreases ms.len(),
{
    if ms.len() == 0 {
        Seq::empty()
    } else {
        let rest = modules_lines(ms.drop_last());
        match ms.last() {
            JsonValue::Object(m) => if type_of(m@) == Some("MODULE"@) {
                match module_entry(m@) {
                    Some(e) => set_module(rest, e),
                    None => rest,
                }
            } else {
                rest
            },
            _ => rest,
        }
    }
}

/// The locations read in the modules are well formed.
pub open spec fn modules_ok(ms: Seq<JsonValue>) -> bool {
    forall|i: int|
        0 <= i < ms.len() ==> match #[trigger] ms[i] {
            JsonValue::Object(m) => type_of(m@) == Some("MODULE"@) ==> match obj_get(m@, "stmtsp"@) {
                Some(JsonValue::Array(a)) => array_ok(a@),
                _ => true,
            },
            _ => true,
        }
}

/// The modules of a tree: the entries of its `modulesp` array.
pub open spec fn tree_modules(v: JsonValue) -> Option<Seq<JsonValue>> {
    match v {
        JsonValue::Object(o) => match obj_get(o@, "modulesp"@) {
            Some(JsonValue::Array(ms)) => Some(ms@),
            _ => None,
        },
        _ => None,
    }
}

/// The lines of the live modules of a tree (none when it has no modules).
pub open spec fn tree_lines(v: JsonValue) -> Seq<(Seq<char>, Seq<CovView>)> {
    match tree_modules(v) {
        Some(ms) => modules_lines(ms),
        None => Seq::empty(),
    }
}

/// The locations read in a tree are well formed.
pub open spec fn tree_ok(v: JsonValue) -> bool {
    match tree_modules(v) {
        Some(ms) => modules_ok(ms),
        None => true,
    }
}

/// The view of a report's table.
pub open spec fn param_view(t: Seq<(String, Vec<LineCoverage>)>) -> Seq<(Seq<char>, Seq<CovView>)> {
    t.map_values(|e: (String, Vec<LineCoverage>)| (e.0@, covs_view(e.1@)))
}

/// The first entry with key `k` of an object.
fn get_entry<'a>(o: &'a Vec<(String, JsonValue)>, k: &str) -> (r: Option<&'a JsonValue>)
    ensures
        (match r {
            Some(v) => Some(*v),
            None => None,
        }) == obj_get(o@, k@),
        r matches Some(v) ==> exists|i: int| 0 <= i < o@.len() && o@[i].1 == *v,
{
    let mut i: usize = 0;
    assert(o@.skip(0) =~= o@);
    while i < o.len()
        invariant
            i <= o@.len(),
            obj_get(o@, k@) == obj_get(o@.skip(i as int), k@),
        decreases o@.len() - i,
    {
        assert(o@.skip(i as int).drop_first() =~= o@.skip(i + 1));
        assert(o@.skip(i as int)[0] == o@[i as int]);
        if str_eq(o[i].0.as_str(), k) {
            return Some(&o[i].1);
        }
        i = i + 1;
    }
    None
}

/// Whether a value is a string equal to `s`.
fn is_str(v: Option<&JsonValue>, s: &str) -> (r: bool)
    ensures
        r == (match v {
            Some(JsonValue::Str(t)) => t@ == s@,
            _ => false,
        }),
{
    match v {
        Some(JsonValue::Str(t)) => str_eq(t.as_str(), s),
        _ => false,
    }
}

/// Appends coverages.
fn append_covs(a: &mut Vec<LineCoverage>, b: Vec<LineCoverage>)
    ensures
        covs_view(final(a)@) == covs_view(old(a)@) + covs_view(b@),
{
    let ghost a0 = covs_view(a@);
    let mut i: usize = 0;
    while i < b.len()
        invariant
            i <= b@.len(),
            covs_view(a@) == a0 + covs_view(b@).take(i as int),
        decreases b@.len() - i,
    {
        let ghost before = covs_view(a@);
        a.push(b[i].duplicate());
        assert(covs_view(a@) =~= before.push(covs_view(b@)[i as int]));
        assert(covs_view(b@).take(i + 1) =~= covs_view(b@).take(i as int).push(covs_view(b@)[i as int]));
        i = i + 1;
    }
    assert(covs_view(b@).take(b@.len() as int) =~= covs_view(b@));
}

impl ParameterCoverageReport {
    /// The lines of a location `file,start:col,end:col`: each line from the
    /// start line to the end line, reached once.
    pub fn parse_location(loc: &str) -> (r: Vec<LineCoverage>)
        requires
            location_ok(loc@),
        ensures
            covs_view(r@) == location_lines(loc@),
    {
        let tokens = split_char(loc, ',');
        assert(crate::dfb::strings_view(tokens@)[1] == tokens@[1]@);
        assert(crate::dfb::strings_view(tokens@)[2] == tokens@[2]@);
        let start_parts = split_char(tokens[1].as_str(), ':');
        let end_parts = split_char(tokens[2].as_str(), ':');
        proof {
            crate::parse::lemma_split_nonempty(tokens@[1]@, ':');
            crate::parse::lemma_split_nonempty(tokens@[2]@, ':');
        }
        assert(crate::dfb::strings_view(start_parts@)[0] == start_parts@[0]@);
        assert(crate::dfb::strings_view(end_parts@)[0] == end_parts@[0]@);
        let a = parse_u32(start_parts[0].as_str());
        let b = parse_u32(end_parts[0].as_str());
        let mut r: Vec<LineCoverage> = Vec::new();
        match (a, b) {
            (Some(a), Some(b)) => {
                if a <= b {
                    let mut x: u64 = a as u64;
                    while x <= b as u64
                        invariant
                            a <= x <= b + 1,
                            covs_view(r@) == Seq::new(
                                (x - a) as nat,
                                |k: int| (Seq::<char>::empty(), Seq::<char>::empty(), 0i64, (a + k) as u32, (a + k) as u32, 1usize),
                            ),
                        decreases b - x + 1,
                    {
                        let l: u32 = x as u32;
                        let c = LineCoverage::new("", "", 0, l, l, 1);
                        proof {
                            reveal_strlit("");
                        }
                        let ghost before = covs_view(r@);
                        r.push(c);
                        assert(""@ =~= Seq::<char>::empty());
                        assert(covs_view(r@) =~= before.push(
                            (Seq::<char>::empty(), Seq::<char>::empty(), 0i64, l, l, 1usize),
                        ));
                        assert(l == (a + (x - a)) as u32);
                        assert(covs_view(r@) =~= Seq::new(
                            (x - a + 1) as nat,
                            |k: int| (Seq::<char>::empty(), Seq::<char>::empty(), 0i64, (a + k) as u32, (a + k) as u32, 1usize),
                        ));
                        x = x + 1;
                    }
                } else {
                    assert(covs_view(r@) =~= Seq::<CovView>::empty());
                }
            },
            _ => {
                assert(covs_view(r@) =~= Seq::<CovView>::empty());
            },
        }
        r
    }

    /// The lines of the left-hand sides of an assignment.
    fn lhs_coverage(l: &Vec<JsonValue>) -> (r: Vec<LineCoverage>)
        requires
            lhs_ok(l@),
        ensures
            covs_view(r@) == lhs_lines(l@),
    {
        let mut r: Vec<LineCoverage> = Vec::new();
        let mut i: usize = 0;
        while i < l.len()
            invariant
                i <= l@.len(),
                lhs_ok(l@),
                covs_view(r@) == lhs_lines(l@.take(i as int)),
            decreases l@.len() - i,
        {
            assert(l@.take(i + 1).drop_last() =~= l@.take(i as int));
            assert(l@.take(i + 1).last() == l@[i as int]);
            proof {
                lemma_lhs_ok_prefix(l@, i + 1);
            }
            match &l[i] {
                JsonValue::Object(m) => match get_entry(m, "loc") {
                    Some(JsonValue::Str(s)) => {
                        let c = Self::parse_location(s.as_str());
                        append_covs(&mut r, c);
                    },
                    _ => {},
                },
                _ => {},
            }
            i = i + 1;
        }
        assert(l@.take(l@.len() as int) =~= l@);
        r
    }

    /// The lines of a statement, when it is an object.
    fn stmt_coverage(v: &JsonValue) -> (r: Option<Vec<LineCoverage>>)
        requires
            stmt_ok(*v),
        ensures
            (match r {
                Some(c) => Some(covs_view(c@)),
                None => None,
            }) == stmt_lines(*v),
        decreases v,
    {
        match v {
            JsonValue::Object(o) => {
                let mut r: Vec<LineCoverage> = Vec::new();
                let mut i: usize = 0;
                while i < o.len()
                    invariant
                        *v == JsonValue::Object(*o),
                        i <= o@.len(),
                        entries_ok(o@),
                        covs_view(r@) == entries_lines(o@.take(i as int)),
                    decreases o@.len() - i,
                {
                    assert(o@.take(i + 1).drop_last() =~= o@.take(i as int));
                    assert(o@.take(i + 1).last() == o@[i as int]);
                    proof {
                        lemma_entries_ok_prefix(o@, i + 1);
                    }
                    match &o[i].1 {
                        JsonValue::Array(a) => {
                            proof {
                                assert(decreases_to!(*v => (*v)->Object_0));
                                assert(decreases_to!((*v)->Object_0 => o@));
                                assert(decreases_to!(o@ => o@[i as int]));
                                assert(decreases_to!(o@[i as int] => o@[i as int].1));
                                assert(decreases_to!(o@[i as int].1 => (o@[i as int].1)->Array_0));
                            }
                            let c = Self::array_coverage(a);
                            append_covs(&mut r, c);
                        },
                        _ => {},
                    }
                    i = i + 1;
                }
                assert(o@.take(o@.len() as int) =~= o@);
                let is_assign = is_str(get_entry(o, "type"), "ASSIGNW") || is_str(get_entry(o, "type"), "ASSIGN");
                if is_assign {
                    match get_entry(o, "lhsp") {
                        Some(JsonValue::Array(l)) => {
                            let c = Self::lhs_coverage(l);
                            append_covs(&mut r, c);
                        },
                        _ => {},
                    }
                }
                Some(r)
            },
            _ => None,
        }
    }

    /// The lines of the statements of an array.
    fn array_coverage(a: &Vec<JsonValue>) -> (r: Vec<LineCoverage>)
        requires
            array_ok(a@),
        ensures
            covs_view(r@) == array_lines(a@),
        decreases a@,
    {
        let mut r: Vec<LineCoverage> = Vec::new();
        let mut i: usize = 0;
        while i < a.len()
            invariant
                i <= a@.len(),
                array_ok(a@),
                covs_view(r@) == array_lines(a@.take(i as int)),
            decreases a@.len() - i,
        {
            assert(a@.take(i + 1).drop_last() =~= a@.take(i as int));
            assert(a@.take(i + 1).last() == a@[i as int]);
            proof {
                lemma_array_ok_prefix(a@, i + 1);
                assert(decreases_to!(a@ => a@[i as int]));
            }
            match Self::stmt_coverage(&a[i]) {
                Some(c) => append_covs(&mut r, c),
                None => {},
            }
            i = i + 1;
        }
        assert(a@.take(a@.len() as int) =~= a@);
        r
    }

    /// The report of a syntax tree: for each live module (an object of type
    /// `MODULE` with its statements, original name and liveness), the lines
    /// of its continuous assignments; a later module of the same name
    /// replaces an earlier one; empty when the tree has no list of modules.
    pub fn from_json(tree: &JsonValue) -> (r: ParameterCoverageReport)
        requires
            tree_ok(*tree),
        ensures
            param_view(r.lines_coverage@) == tree_lines(*tree),
            names_unique(param_view(r.lines_coverage@)),
    {
        let mut t: Vec<(String, Vec<LineCoverage>)> = Vec::new();
        let ms = match tree {
            JsonValue::Object(o) => match get_entry(o, "modulesp") {
                Some(JsonValue::Array(ms)) => ms,
                _ => {
                    assert(param_view(t@) =~= Seq::<(Seq<char>, Seq<CovView>)>::empty());
                    return ParameterCoverageReport { lines_coverage: t };
                },
            },
            _ => {
                assert(param_view(t@) =~= Seq::<(Seq<char>, Seq<CovView>)>::empty());
                return ParameterCoverageReport { lines_coverage: t };
            },
        };
        let mut i: usize = 0;
        while i < ms.len()
            invariant
                tree_modules(*tree) == Some(ms@),
                modules_ok(ms@),
                i <= ms@.len(),
                param_view(t@) == modules_lines(ms@.take(i as int)),
                names_unique(param_view(t@)),
            decreases ms@.len() - i,
        {
            assert(ms@.take(i + 1).drop_last() =~= ms@.take(i as int));
            assert(ms@.take(i + 1).last() == ms@[i as int]);
            match &ms[i] {
                JsonValue::Object(m) => {
                    if is_str(get_entry(m, "type"), "MODULE") {
                        assert(match obj_get(m@, "stmtsp"@) {
                            Some(JsonValue::Array(a)) => array_ok(a@),
                            _ => true,
                        });
                        let stmts = get_entry(m, "stmtsp");
                        let name = get_entry(m, "origName");
                        let dead = get_entry(m, "dead");
                        match (stmts, name, dead) {
                            (Some(JsonValue::Array(a)), Some(JsonValue::Str(n)), Some(JsonValue::Bool(d))) => {
                                if !*d {
                                    let c = Self::array_coverage(a);
                                    set_module_entry(&mut t, n, c);
                                }
                            },
                            _ => {},
                        }
                    }
                },
                _ => {},
            }
            i = i + 1;
        }
        assert(ms@.take(ms@.len() as int) =~= ms@);
        ParameterCoverageReport { lines_coverage: t }
    }
}

/// Module names occur once in a table.
pub open spec fn names_unique(t: Seq<(Seq<char>, Seq<CovView>)>) -> bool {
    forall|i: int, j: int| 0 <= i < j < t.len() ==> t[i].0 != t[j].0
}

/// Sets the lines of module `name`: in place when the table has it, else at the end.
fn set_module_entry(t: &mut Vec<(String, Vec<LineCoverage>)>, name: &String, c: Vec<LineCoverage>)
    requires
        names_unique(param_view(old(t)@)),
    ensures
        param_view(final(t)@) == set_module(param_view(old(t)@), (name@, covs_view(c@))),
        names_unique(param_view(final(t)@)),
{
    let ghost tv = param_view(t@);
    let ghost e = (name@, covs_view(c@));
    let mut k: usize = 0;
    while k < t.len() && !str_eq(t[k].0.as_str(), name.as_str())
        invariant
            tv == param_view(t@),
            k <= t@.len(),
            forall|q: int| 0 <= q < k ==> t@[q].0@ != name@,
        decreases t@.len() - k,
    {
        k = k + 1;
    }
    if k < t.len() {
        proof {
            assert(tv[k as int].0 == name@);
            let j = choose|j: int| 0 <= j < tv.len() && tv[j].0 == e.0;
            if j != k {
                if j < k {
                    assert(t@[j].0@ != name@);
                } else {
                    assert(tv[k as int].0 != tv[j].0);
                }
            }
        }
        t.set(k, (name.clone(), c));
        assert(param_view(t@) =~= tv.update(k as int, e));
        assert forall|i: int, j: int| 0 <= i < j < param_view(t@).len() implies param_view(t@)[i].0
            != param_view(t@)[j].0 by {
            if i == k {
                assert(tv[j].0 != tv[k as int].0);
            } else if j == k {
                assert(tv[i].0 != tv[k as int].0);
            }
        }
    } else {
        t.push((name.clone(), c));
        assert(!(exists|j: int| 0 <= j < tv.len() && tv[j].0 == e.0));
        assert(param_view(t@) =~= tv.push(e));
    }
}

proof fn lemma_lhs_ok_prefix(l: Seq<JsonValue>, k: int)
    requires
        lhs_ok(l),
        0 <= k <= l.len(),
    ensures
        lhs_ok(l.take(k)),
        k > 0 ==> match l[k - 1] {
            JsonValue::Object(m) => match obj_get(m@, "loc"@) {
                Some(JsonValue::Str(s)) => location_ok(s@),
                _ => true,
            },
            _ => true,
        },
    decreases l.len() - k,
{
    if k < l.len() {
        lemma_lhs_ok_prefix(l, k + 1);
        assert(l.take(k + 1).drop_last() =~= l.take(k));
    } else {
        assert(l.take(k) =~= l);
    }
}

proof fn lemma_entries_ok_prefix(o: Seq<(String, JsonValue)>, k: int)
    requires
        entries_ok(o),
        0 <= k <= o.len(),
    ensures
        entries_ok(o.take(k)),
        k > 0 ==> match o[k - 1].1 {
            JsonValue::Array(a) => array_ok(a@),
            _ => true,
        },
    decreases o.len() - k,
{
    if k < o.len() {
        lemma_entries_ok_prefix(o, k + 1);
        assert(o.take(k + 1).drop_last() =~= o.take(k));
    } else {
        assert(o.take(k) =~= o);
    }
}

proof fn lemma_array_ok_prefix(a: Seq<JsonValue>, k: int)
    requires
        array_ok(a),
        0 <= k <= a.len(),
    ensures
        array_ok(a.take(k)),
        k > 0 ==> stmt_ok(a[k - 1]),
    decreases a.len() - k,
{
    if k < a.len() {
        lemma_array_ok_prefix(a, k + 1);
        assert(a.take(k + 1).drop_last() =~= a.take(k));
    } else {
        assert(a.take(k) =~= a);
    }
    if k > 0 {
        assert(a.take(k).last() == a[k - 1]);
        assert(a.take(k).drop_last() =~= a.take(k - 1));
    }
}

/// Whether a location has three parts.
fn location_well_formed(loc: &str) -> (r: bool)
    ensures
        r == location_ok(loc@),
{
    let parts = split_char(loc, ',');
    assert(parts@.len() == crate::dfb::strings_view(parts@).len());
    parts.len() == 3
}

/// Whether the locations of the left-hand sides are well formed.
fn lhs_well_formed(l: &Vec<JsonValue>) -> (r: bool)
    ensures
        r == lhs_ok(l@),
{
    let mut i: usize = 0;
    assert(l@.take(0) =~= Seq::<JsonValue>::empty());
    while i < l.len()
        invariant
            i <= l@.len(),
            lhs_ok(l@.take(i as int)),
        decreases l@.len() - i,
    {
        assert(l@.take(i + 1).drop_last() =~= l@.take(i as int));
        assert(l@.take(i + 1).last() == l@[i as int]);
        let ok = match &l[i] {
            JsonValue::Object(m) => match get_entry(m, "loc") {
                Some(JsonValue::Str(s)) => location_well_formed(s.as_str()),
                _ => true,
            },
            _ => true,
        };
        if !ok {
            proof {
                if lhs_ok(l@) {
                    lemma_lhs_ok_prefix(l@, i + 1);
                }
            }
            return false;
        }
        i = i + 1;
    }
    assert(l@.take(l@.len() as int) =~= l@);
    true
}

/// Whether the locations a statement's lines are read from are well formed.
fn stmt_well_formed(v: &JsonValue) -> (r: bool)
    ensures
        r == stmt_ok(*v),
    decreases v,
{
    match v {
        JsonValue::Object(o) => {
            let mut i: usize = 0;
            assert(o@.take(0) =~= Seq::<(String, JsonValue)>::empty());
            while i < o.len()
                invariant
                    *v == JsonValue::Object(*o),
                    i <= o@.len(),
                    entries_ok(o@.take(i as int)),
                decreases o@.len() - i,
            {
                assert(o@.take(i + 1).drop_last() =~= o@.take(i as int));
                assert(o@.take(i + 1).last() == o@[i as int]);
                let ok = match &o[i].1 {
                    JsonValue::Array(a) => {
                        proof {
                            assert(decreases_to!(*v => (*v)->Object_0));
                            assert(decreases_to!((*v)->Object_0 => o@));
                            assert(decreases_to!(o@ => o@[i as int]));
                            assert(decreases_to!(o@[i as int] => o@[i as int].1));
                            assert(decreases_to!(o@[i as int].1 => (o@[i as int].1)->Array_0));
                        }
                        array_well_formed(a)
                    },
                    _ => true,
                };
                if !ok {
                    proof {
                        if entries_ok(o@) {
                            lemma_entries_ok_prefix(o@, i + 1);
                        }
                    }
                    return false;
                }
                i = i + 1;
            }
            assert(o@.take(o@.len() as int) =~= o@);
            let is_assign = is_str(get_entry(o, "type"), "ASSIGNW") || is_str(get_entry(o, "type"), "ASSIGN");
            if is_assign {
                match get_entry(o, "lhsp") {
                    Some(JsonValue::Array(l)) => lhs_well_formed(l),
                    _ => true,
                }
            } else {
                true
            }
        },
        _ => true,
    }
}

/// Whether every statement of an array is well formed.
fn array_well_formed(a: &Vec<JsonValue>) -> (r: bool)
    ensures
        r == array_ok(a@),
    decreases a@,
{
    let mut i: usize = 0;
    assert(a@.take(0) =~= Seq::<JsonValue>::empty());
    while i < a.len()
        invariant
            i <= a@.len(),
            array_ok(a@.take(i as int)),
        decreases a@.len() - i,
    {
        assert(a@.take(i + 1).drop_last() =~= a@.take(i as int));
        assert(a@.take(i + 1).last() == a@[i as int]);
        proof {
            assert(decreases_to!(a@ => a@[i as int]));
        }
        if !stmt_well_formed(&a[i]) {
            proof {
                if array_ok(a@) {
                    lemma_array_ok_prefix(a@, i + 1);
                }
            }
            return false;
        }
        i = i + 1;
    }
    assert(a@.take(a@.len() as int) =~= a@);
    true
}

/// Whether the locations of a syntax tree are well formed, as `from_json`
/// needs (`tree_ok`).
pub fn tree_well_formed(tree: &JsonValue) -> (r: bool)
    ensures
        r == tree_ok(*tree),
{
    let ms = match tree {
        JsonValue::Object(o) => match get_entry(o, "modulesp") {
            Some(JsonValue::Array(ms)) => ms,
            _ => {
                return true;
            },
        },
        _ => {
            return true;
        },
    };
    let mut i: usize = 0;
    while i < ms.len()
        invariant
            tree_modules(*tree) == Some(ms@),
            i <= ms@.len(),
            forall|j: int|
                0 <= j < i ==> match #[trigger] ms@[j] {
                    JsonValue::Object(m) => type_of(m@) == Some("MODULE"@) ==> match obj_get(m@, "stmtsp"@) {
                        Some(JsonValue::Array(a)) => array_ok(a@),
                        _ => true,
                    },
                    _ => true,
                },
        decreases ms@.len() - i,
    {
        let ok = match &ms[i] {
            JsonValue::Object(m) => {
                if is_str(get_entry(m, "type"), "MODULE") {
                    match get_entry(m, "stmtsp") {
                        Some(JsonValue::Array(a)) => array_well_formed(a),
                        _ => true,
                    }
                } else {
                    true
                }
            },
            _ => true,
        };
        if !ok {
            return false;
        }
        i = i + 1;
    }
    true
}

} // verus!
