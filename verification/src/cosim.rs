//! Reading the report of a co-simulation of a core against its reference
//! model: what mismatched, the values the design produced, and when it failed.
use vstd::prelude::*;

use crate::block::TimeAnnotation;
use crate::parse::{lines_chars, parse_hex_chars, parse_i64_chars, spec_lines, spec_parse_hex, spec_parse_i64};
use crate::text::{chars_of, is_whitespace, spec_is_whitespace, lead_ws, spec_trim, trail_ws};
use crate::pattern::{regex_captures, spec_regex_captures};

verus! {

/// What the design under test produced.
#[derive(Clone, Copy, Debug, PartialEq, Eq, Structural)]
pub struct DutInfo {
    pub pc: u32,
    pub wen: bool,
    pub w_addr: u32,
    pub w_data: u32,
}

/// What mismatched, with the value the reference model expected.
#[derive(Clone, Copy, Debug, PartialEq, Eq, Structural)]
pub enum MismatchType {
    PcMismatch(u32),
    WeMismatch(bool),
    WaddrMismatch(u32),
    WdataMismatch(u32),
}

/// A co-simulation report.
#[derive(Clone, Copy, Debug, PartialEq, Eq, Structural)]
pub struct CoSimResult {
    pub dut: DutInfo,
    pub mismatch: Option<MismatchType>,
    pub failure_time: Option<TimeAnnotation>,
    pub time_step: TimeAnnotation,
}

/// Why a report could not be read.
#[derive(Clone, Copy, Debug, PartialEq, Eq, Structural)]
pub enum CoSimError {
    /// A value the design produced is not a hexadecimal 32-bit number.
    InvalidHex,
}

/// Every character is ASCII.
pub open spec fn is_ascii_text(s: Seq<char>) -> bool {
    forall|i: int| 0 <= i < s.len() ==> (#[trigger] s[i]) as u32 <= 127
}

/// The position of the first occurrence of `pat` in `s`.
pub open spec fn find_seq(s: Seq<char>, pat: Seq<char>) -> Option<int>
    decreases s.len(),
{
    if s.len() < pat.len() {
        None
    } else if s.take(pat.len() as int) == pat {
        Some(0)
    } else if s.len() == 0 {
        None
    } else {
        match find_seq(s.drop_first(), pat) {
            Some(i) => Some(i + 1),
            None => None,
        }
    }
}

/// An occurrence lies within the text.
pub proof fn lemma_find_seq_bound_pub(s: Seq<char>, pat: Seq<char>)
    ensures
        find_seq(s, pat) matches Some(i) ==> 0 <= i && i + pat.len() <= s.len(),
{
    lemma_find_seq_bound(s, pat);
}

proof fn lemma_find_seq_bound(s: Seq<char>, pat: Seq<char>)
    ensures
        find_seq(s, pat) matches Some(i) ==> 0 <= i && i + pat.len() <= s.len(),
    decreases s.len(),
{
    if s.len() >= pat.len() && s.take(pat.len() as int) != pat && s.len() > 0 {
        lemma_find_seq_bound(s.drop_first(), pat);
    }
}

/// The first occurrence of `pat` in `s`.
fn find_chars(s: &Vec<char>, pat: &Vec<char>) -> (r: Option<usize>)
    ensures
        (match r {
            Some(i) => Some(i as int),
            None => None,
        }) == find_seq(s@, pat@),
{
    let mut i: usize = 0;
    assert(s@.skip(0) =~= s@);
    loop
        invariant
            i <= s@.len(),
            find_seq(s@, pat@) == (match find_seq(s@.skip(i as int), pat@) {
                Some(k) => Some(k + i),
                None => None,
            }),
        decreases s@.len() - i,
    {
        let ghost t = s@.skip(i as int);
        if s.len() - i < pat.len() {
            return None;
        }
        let mut k: usize = 0;
        assert(i + pat.len() <= s.len());
        while k < pat.len() && s[i + k] == pat[k]
            invariant
                i + pat.len() <= s.len(),
                i + pat@.len() <= s@.len(),
                k <= pat@.len(),
                forall|q: int| 0 <= q < k ==> s@[i + q] == pat@[q],
            decreases pat@.len() - k,
        {
            k = k + 1;
        }
        if k == pat.len() {
            assert(t.take(pat@.len() as int) =~= pat@);
            return Some(i);
        }
        assert(t.take(pat@.len() as int)[k as int] != pat@[k as int]);
        if i == s.len() {
            return None;
        }
        assert(t.drop_first() =~= s@.skip(i + 1));
        i = i + 1;
    }
}

/// The ASCII lower case of a text.
pub open spec fn ascii_lower(s: Seq<char>) -> Seq<char> {
    s.map_values(|c: char| if 'A' <= c && c <= 'Z' { ((c as u32) + 32) as char } else { c })
}

fn to_lower_ascii(s: &Vec<char>) -> (r: Vec<char>)
    ensures
        r@ == ascii_lower(s@),
{
    let mut r: Vec<char> = Vec::new();
    let mut i: usize = 0;
    while i < s.len()
        invariant
            i <= s@.len(),
            r@ == ascii_lower(s@).take(i as int),
        decreases s@.len() - i,
    {
        let c = s[i];
        let d = if 'A' <= c && c <= 'Z' {
            let b: u8 = c as u8;
            assert(b == c as u32);
            ((b + 32) as char)
        } else {
            c
        };
        r.push(d);
        assert(ascii_lower(s@).take(i + 1) =~= ascii_lower(s@).take(i as int).push(d));
        i = i + 1;
    }
    r
}

/// The characters of `s` from position `from` on.
fn skip_chars(s: &Vec<char>, from: usize) -> (r: Vec<char>)
    requires
        from <= s@.len(),
    ensures
        r@ == s@.skip(from as int),
{
    let mut r: Vec<char> = Vec::new();
    let mut i: usize = from;
    while i < s.len()
        invariant
            from <= i <= s@.len(),
            r@ == s@.subrange(from as int, i as int),
        decreases s@.len() - i,
    {
        r.push(s[i]);
        assert(s@.subrange(from as int, i + 1) =~= s@.subrange(from as int, i as int).push(s@[i as int]));
        i = i + 1;
    }
    assert(s@.subrange(from as int, s@.len() as int) =~= s@.skip(from as int));
    r
}

/// The first `n` characters of `s`.
fn take_chars(s: &Vec<char>, n: usize) -> (r: Vec<char>)
    requires
        n <= s@.len(),
    ensures
        r@ == s@.take(n as int),
{
    let mut r: Vec<char> = Vec::new();
    let mut i: usize = 0;
    while i < n
        invariant
            i <= n <= s@.len(),
            r@ == s@.take(i as int),
        decreases n - i,
    {
        r.push(s[i]);
        assert(s@.take(i + 1) =~= s@.take(i as int).push(s@[i as int]));
        i = i + 1;
    }
    r
}

/// `str::trim` on characters.
fn trim_chars(s: &Vec<char>) -> (r: Vec<char>)
    ensures
        r@ == spec_trim(s@),
{
    let n = s.len();
    let mut i: usize = 0;
    while i < n && is_whitespace(s[i])
        invariant
            n == s@.len(),
            i <= n,
            forall|k: int| 0 <= k < i ==> spec_is_whitespace(#[trigger] s@[k]),
        decreases n - i,
    {
        i = i + 1;
    }
    proof {
        crate::text::lemma_lead_ws(s@, i as int);
    }
    let mut j: usize = n;
    while j > i && is_whitespace(s[j - 1])
        invariant
            n == s@.len(),
            i <= j <= n,
            forall|k: int| j <= k < n ==> spec_is_whitespace(#[trigger] s@[k]),
        decreases j,
    {
        j = j - 1;
    }
    proof {
        let t = s@.skip(i as int);
        assert forall|k: int| j - i <= k < t.len() implies spec_is_whitespace(#[trigger] t[k]) by {
            assert(t[k] == s@[k + i]);
        }
        if j > i {
            assert(t[j - i - 1] == s@[j - 1]);
        }
        crate::text::lemma_trail_ws(t, j - i);
        assert(t.take(t.len() - trail_ws(t)) =~= s@.subrange(i as int, j as int));
    }
    let mut r: Vec<char> = Vec::new();
    let mut k: usize = i;
    while k < j
        invariant
            i <= k <= j <= s@.len(),
            r@ == s@.subrange(i as int, k as int),
        decreases j - k,
    {
        r.push(s[k]);
        assert(s@.subrange(i as int, k + 1) =~= s@.subrange(i as int, k as int).push(s@[k as int]));
        k = k + 1;
    }
    r
}

/// The number of non-white-space characters `s` starts with.
pub open spec fn word_len(s: Seq<char>) -> nat
    decreases s.len(),
{
    if s.len() > 0 && !spec_is_whitespace(s[0]) {
        1 + word_len(s.drop_first())
    } else {
        0
    }
}

/// The first white-space separated word of `s` (`split_whitespace().next()`).
pub open spec fn first_word(s: Seq<char>) -> Option<Seq<char>> {
    let t = s.skip(lead_ws(s) as int);
    if t.len() == 0 {
        None
    } else {
        Some(t.take(word_len(t) as int))
    }
}

proof fn lemma_word_len(s: Seq<char>, i: int)
    requires
        0 <= i <= s.len(),
        forall|k: int| 0 <= k < i ==> !spec_is_whitespace(#[trigger] s[k]),
        i == s.len() || spec_is_whitespace(s[i]),
    ensures
        word_len(s) == i,
    decreases i,
{
    if i > 0 {
        assert forall|k: int| 0 <= k < i - 1 implies !spec_is_whitespace(#[trigger] s.drop_first()[k]) by {
            assert(s.drop_first()[k] == s[k + 1]);
        }
        if i - 1 < s.drop_first().len() {
            assert(s.drop_first()[i - 1] == s[i]);
        }
        lemma_word_len(s.drop_first(), i - 1);
    }
}

fn first_word_chars(s: &Vec<char>) -> (r: Option<Vec<char>>)
    ensures
        (match r {
            Some(w) => Some(w@),
            None => None,
        }) == first_word(s@),
{
    let n = s.len();
    let mut i: usize = 0;
    while i < n && is_whitespace(s[i])
        invariant
            n == s@.len(),
            i <= n,
            forall|k: int| 0 <= k < i ==> spec_is_whitespace(#[trigger] s@[k]),
        decreases n - i,
    {
        i = i + 1;
    }
    proof {
        crate::text::lemma_lead_ws(s@, i as int);
    }
    if i == n {
        return None;
    }
    let mut j: usize = i;
    while j < n && !is_whitespace(s[j])
        invariant
            n == s@.len(),
            i <= j <= n,
            forall|k: int| i <= k < j ==> !spec_is_whitespace(#[trigger] s@[k]),
        decreases n - j,
    {
        j = j + 1;
    }
    proof {
        let t = s@.skip(i as int);
        assert forall|k: int| 0 <= k < j - i implies !spec_is_whitespace(#[trigger] t[k]) by {
            assert(t[k] == s@[k + i]);
        }
        if j < n {
            assert(t[j - i] == s@[j as int]);
        }
        lemma_word_len(t, j - i);
        assert(t.take(j - i) =~= s@.subrange(i as int, j as int));
    }
    let t = skip_chars(s, i);
    Some(take_chars(&t, j - i))
}

/// The number of `:` characters `s` starts with.
pub open spec fn lead_colons(s: Seq<char>) -> nat
    decreases s.len(),
{
    if s.len() > 0 && s[0] == ':' {
        1 + lead_colons(s.drop_first())
    } else {
        0
    }
}

proof fn lemma_lead_colons(s: Seq<char>, i: int)
    requires
        0 <= i <= s.len(),
        forall|k: int| 0 <= k < i ==> #[trigger] s[k] == ':',
        i == s.len() || s[i] != ':',
    ensures
        lead_colons(s) == i,
    decreases i,
{
    if i > 0 {
        assert forall|k: int| 0 <= k < i - 1 implies #[trigger] s.drop_first()[k] == ':' by {
            assert(s.drop_first()[k] == s[k + 1]);
        }
        if i - 1 < s.drop_first().len() {
            assert(s.drop_first()[i - 1] == s[i]);
        }
        lemma_lead_colons(s.drop_first(), i - 1);
    }
}

/// A word without the comma that separates it from the next field.
pub open spec fn without_comma(w: Seq<char>) -> Seq<char> {
    if w.len() > 0 && w.last() == ',' {
        w.drop_last()
    } else {
        w
    }
}

/// The value after a `DUT retired` or `ISS retired` label: from the first
/// `0x`, or else the first `:`, the first word after leading colons and white
/// space, without a trailing comma, read as hexadecimal; 0 when it is not a
/// hexadecimal 32-bit number or there is no word. `None` when there is
/// neither `0x` nor `:`.
pub open spec fn retired_value(after: Seq<char>) -> Option<u32> {
    let start = match find_seq(after, "0x"@) {
        Some(h) => Some(h),
        None => find_seq(after, ":"@),
    };
    match start {
        None => None,
        Some(h) => {
            let part = after.skip(h);
            let hex_part = spec_trim(part.skip(lead_colons(part) as int));
            let word = match first_word(hex_part) {
                Some(w) => w,
                None => "0"@,
            };
            match spec_parse_hex(without_comma(word), 0x1_0000_0000) {
                Some(v) => Some(v as u32),
                None => Some(0),
            }
        },
    }
}

fn retired_value_exec(after: &Vec<char>) -> (r: Option<u32>)
    ensures
        r == retired_value(after@),
{
    let hex_pat = chars_of("0x");
    let colon_pat = chars_of(":");
    let start = match find_chars(after, &hex_pat) {
        Some(h) => Some(h),
        None => find_chars(after, &colon_pat),
    };
    match start {
        None => None,
        Some(h) => {
            proof {
                lemma_find_seq_bound(after@, "0x"@);
                lemma_find_seq_bound(after@, ":"@);
            }
            let part = skip_chars(after, h);
            let mut c: usize = 0;
            while c < part.len() && part[c] == ':'
                invariant
                    c <= part@.len(),
                    forall|k: int| 0 <= k < c ==> #[trigger] part@[k] == ':',
                decreases part@.len() - c,
            {
                c = c + 1;
            }
            proof {
                lemma_lead_colons(part@, c as int);
            }
            let rest = skip_chars(&part, c);
            let hex_part = trim_chars(&rest);
            let mut word = match first_word_chars(&hex_part) {
                Some(w) => w,
                None => chars_of("0"),
            };
            let ghost w0 = word@;
            let n = word.len();
            if n > 0 && word[n - 1] == ',' {
                word.pop();
                assert(word@ =~= without_comma(w0));
            } else {
                assert(word@ == without_comma(w0));
            }
            match parse_hex_chars(&word, 0x1_0000_0000) {
                Some(v) => Some(v as u32),
                None => Some(0),
            }
        },
    }
}

/// The value after `ORACLE=` in a line, if there is one and it is a
/// hexadecimal 32-bit number.
pub open spec fn oracle_of(line: Seq<char>) -> Option<u32> {
    match find_seq(line, "ORACLE="@) {
        Some(p) => match spec_parse_hex(line.skip(p + "ORACLE="@.len()), 0x1_0000_0000) {
            Some(v) => Some(v as u32),
            None => None,
        },
        None => None,
    }
}

/// The report after the mismatch a line states, if it states one; with the
/// second component telling whether the rest of the line is skipped.
pub open spec fn mismatch_step(r: CoSimResult, line: Seq<char>) -> (CoSimResult, bool) {
    let oracle = oracle_of(line);
    let lower = ascii_lower(line);
    if find_seq(line, "PC_MISMATCH"@) is Some || find_seq(lower, "pc mismatch"@) is Some {
        if oracle is None {
            let dut_pc = match find_seq(lower, "dut retired"@) {
                Some(dp) => match retired_value(line.skip(dp)) {
                    Some(v) => v,
                    None => r.dut.pc,
                },
                None => r.dut.pc,
            };
            let r1 = CoSimResult { dut: DutInfo { pc: dut_pc, ..r.dut }, ..r };
            match find_seq(lower, "iss retired"@) {
                Some(ip) => match retired_value(line.skip(ip)) {
                    Some(v) => (CoSimResult { mismatch: Some(MismatchType::PcMismatch(v)), ..r1 }, true),
                    None => (CoSimResult { mismatch: Some(MismatchType::PcMismatch(0)), ..r1 }, false),
                },
                None => (CoSimResult { mismatch: Some(MismatchType::PcMismatch(0)), ..r1 }, false),
            }
        } else {
            (CoSimResult { mismatch: Some(MismatchType::PcMismatch(oracle.unwrap())), ..r }, false)
        }
    } else if find_seq(line, "WE_MISMATCH"@) is Some {
        (CoSimResult { mismatch: Some(MismatchType::WeMismatch(oracle.unwrap_or(0) != 0)), ..r }, false)
    } else if find_seq(line, "WADDR_MISMATCH"@) is Some {
        (CoSimResult { mismatch: Some(MismatchType::WaddrMismatch(oracle.unwrap_or(0))), ..r }, false)
    } else if find_seq(line, "WDATA_MISMATCH"@) is Some {
        (CoSimResult { mismatch: Some(MismatchType::WdataMismatch(oracle.unwrap_or(0))), ..r }, false)
    } else {
        (r, false)
    }
}

/// Whether `line` starts with `prefix`.
pub open spec fn starts_with(line: Seq<char>, prefix: Seq<char>) -> bool {
    prefix.len() <= line.len() && line.take(prefix.len() as int) == prefix
}

/// The value after a label, read as a hexadecimal 32-bit number.
pub open spec fn label_value(line: Seq<char>, label: Seq<char>) -> Option<u32> {
    match spec_parse_hex(line.skip(label.len() as int), 0x1_0000_0000) {
        Some(v) => Some(v as u32),
        None => None,
    }
}

/// The report after the value of the design a line gives, if it gives one;
/// `None` when that value cannot be read.
pub open spec fn dut_step(r: CoSimResult, line: Seq<char>) -> Option<CoSimResult> {
    if starts_with(line, "DUT PC:"@) {
        match label_value(line, "DUT PC:"@) {
            Some(v) => Some(CoSimResult { dut: DutInfo { pc: v, ..r.dut }, ..r }),
            None => None,
        }
    } else if starts_with(line, "DUT WE:"@) {
        match label_value(line, "DUT WE:"@) {
            Some(v) => Some(CoSimResult { dut: DutInfo { wen: v != 0, ..r.dut }, ..r }),
            None => None,
        }
    } else if starts_with(line, "DUT WADDR:"@) {
        match label_value(line, "DUT WADDR:"@) {
            Some(v) => Some(CoSimResult { dut: DutInfo { w_addr: v, ..r.dut }, ..r }),
            None => None,
        }
    } else if starts_with(line, "DUT WDATA:"@) {
        match label_value(line, "DUT WDATA:"@) {
            Some(v) => Some(CoSimResult { dut: DutInfo { w_data: v, ..r.dut }, ..r }),
            None => None,
        }
    } else {
        Some(r)
    }
}

/// The text between the first and the second `time` of a line (to its end
/// when there is no second one).
pub open spec fn after_time(line: Seq<char>) -> Seq<char> {
    let p = find_seq(line, "time"@).unwrap();
    let rest = line.skip(p + "time"@.len());
    match find_seq(rest, "time"@) {
        Some(q) => rest.take(q),
        None => rest,
    }
}

/// The report after the failure time a line gives: the first word after
/// `time`, read as a number (none when it is not one).
pub open spec fn failure_step(r: CoSimResult, line: Seq<char>) -> CoSimResult {
    if find_seq(line, "FAILURE: Co-simulation mismatch at time"@) is Some && find_seq(line, "time"@) is Some {
        match first_word(spec_trim(after_time(line))) {
            Some(w) => CoSimResult { failure_time: spec_parse_i64(w), ..r },
            None => r,
        }
    } else {
        r
    }
}

/// The report after one line of the log; `None` when a value of the design
/// in it cannot be read.
#[verifier::opaque]
pub open spec fn line_step(r: CoSimResult, raw: Seq<char>) -> Option<CoSimResult> {
    let line = spec_trim(raw);
    let (r1, skip) = mismatch_step(r, line);
    if skip {
        Some(r1)
    } else {
        match dut_step(r1, line) {
            Some(r2) => Some(failure_step(r2, line)),
            None => None,
        }
    }
}

/// The report after all lines.
pub open spec fn parse_lines(r: CoSimResult, lines: Seq<Seq<char>>) -> Option<CoSimResult>
    decreases lines.len(),
{
    if lines.len() == 0 {
        Some(r)
    } else {
        match parse_lines(r, lines.drop_last()) {
            Some(r1) => line_step(r1, lines.last()),
            None => None,
        }
    }
}

/// A report with nothing read yet.
pub open spec fn empty_report(time_step: TimeAnnotation) -> CoSimResult {
    CoSimResult {
        dut: DutInfo { pc: 0, wen: false, w_addr: 0, w_data: 0 },
        mismatch: None,
        failure_time: None,
        time_step,
    }
}

fn label_value_exec(line: &Vec<char>, n: usize) -> (r: Option<u32>)
    requires
        n <= line@.len(),
    ensures
        r == (match spec_parse_hex(line@.skip(n as int), 0x1_0000_0000) {
            Some(v) => Some(v as u32),
            None => None,
        }),
{
    let rest = skip_chars(line, n);
    match parse_hex_chars(&rest, 0x1_0000_0000) {
        Some(v) => Some(v as u32),
        None => None,
    }
}

fn starts_with_exec(line: &Vec<char>, prefix: &Vec<char>) -> (r: bool)
    ensures
        r == starts_with(line@, prefix@),
{
    if prefix.len() > line.len() {
        return false;
    }
    let mut k: usize = 0;
    while k < prefix.len() && line[k] == prefix[k]
        invariant
            prefix@.len() <= line@.len(),
            k <= prefix@.len(),
            forall|q: int| 0 <= q < k ==> line@[q] == prefix@[q],
        decreases prefix@.len() - k,
    {
        k = k + 1;
    }
    if k == prefix.len() {
        assert(line@.take(prefix@.len() as int) =~= prefix@);
        true
    } else {
        assert(line@.take(prefix@.len() as int)[k as int] != prefix@[k as int]);
        false
    }
}

impl CoSimResult {
    fn mismatch_exec(r: CoSimResult, line: &Vec<char>) -> (out: (CoSimResult, bool))
        ensures
            out == mismatch_step(r, line@),
    {
        let oracle_pat = chars_of("ORACLE=");
        let oracle = match find_chars(line, &oracle_pat) {
            Some(p) => {
                proof {
                    lemma_find_seq_bound(line@, "ORACLE="@);
                }
                assert(p + oracle_pat@.len() <= line@.len());
                assert(p + oracle_pat.len() <= line.len());
                let rest = skip_chars(line, p + oracle_pat.len());
                match parse_hex_chars(&rest, 0x1_0000_0000) {
                    Some(v) => Some(v as u32),
                    None => None,
                }
            },
            None => None,
        };
        assert(oracle == oracle_of(line@));
        let lower = to_lower_ascii(line);
        let is_pc = find_chars(line, &chars_of("PC_MISMATCH")).is_some() || find_chars(
            &lower,
            &chars_of("pc mismatch"),
        ).is_some();
        if is_pc {
            match oracle {
                None => {
                    let dut_pc = match find_chars(&lower, &chars_of("dut retired")) {
                        Some(dp) => {
                            proof {
                                lemma_find_seq_bound(lower@, "dut retired"@);
                            }
                            let after = skip_chars(line, dp);
                            match retired_value_exec(&after) {
                                Some(v) => v,
                                None => r.dut.pc,
                            }
                        },
                        None => r.dut.pc,
                    };
                    let r1 = CoSimResult { dut: DutInfo { pc: dut_pc, ..r.dut }, ..r };
                    match find_chars(&lower, &chars_of("iss retired")) {
                        Some(ip) => {
                            proof {
                                lemma_find_seq_bound(lower@, "iss retired"@);
                            }
                            let after = skip_chars(line, ip);
                            match retired_value_exec(&after) {
                                Some(v) => (CoSimResult { mismatch: Some(MismatchType::PcMismatch(v)), ..r1 }, true),
                                None => (CoSimResult { mismatch: Some(MismatchType::PcMismatch(0)), ..r1 }, false),
                            }
                        },
                        None => (CoSimResult { mismatch: Some(MismatchType::PcMismatch(0)), ..r1 }, false),
                    }
                },
                Some(o) => (CoSimResult { mismatch: Some(MismatchType::PcMismatch(o)), ..r }, false),
            }
        } else if find_chars(line, &chars_of("WE_MISMATCH")).is_some() {
            let v = match oracle {
                Some(o) => o,
                None => 0,
            };
            (CoSimResult { mismatch: Some(MismatchType::WeMismatch(v != 0)), ..r }, false)
        } else if find_chars(line, &chars_of("WADDR_MISMATCH")).is_some() {
            let v = match oracle {
                Some(o) => o,
                None => 0,
            };
            (CoSimResult { mismatch: Some(MismatchType::WaddrMismatch(v)), ..r }, false)
        } else if find_chars(line, &chars_of("WDATA_MISMATCH")).is_some() {
            let v = match oracle {
                Some(o) => o,
                None => 0,
            };
            (CoSimResult { mismatch: Some(MismatchType::WdataMismatch(v)), ..r }, false)
        } else {
            (r, false)
        }
    }

    fn dut_exec(r: CoSimResult, line: &Vec<char>) -> (out: Option<CoSimResult>)
        ensures
            out == dut_step(r, line@),
    {
        let pc = chars_of("DUT PC:");
        let we = chars_of("DUT WE:");
        let waddr = chars_of("DUT WADDR:");
        let wdata = chars_of("DUT WDATA:");
        if starts_with_exec(line, &pc) {
            match label_value_exec(line, pc.len()) {
                Some(v) => Some(CoSimResult { dut: DutInfo { pc: v, ..r.dut }, ..r }),
                None => None,
            }
        } else if starts_with_exec(line, &we) {
            match label_value_exec(line, we.len()) {
                Some(v) => Some(CoSimResult { dut: DutInfo { wen: v != 0, ..r.dut }, ..r }),
                None => None,
            }
        } else if starts_with_exec(line, &waddr) {
            match label_value_exec(line, waddr.len()) {
                Some(v) => Some(CoSimResult { dut: DutInfo { w_addr: v, ..r.dut }, ..r }),
                None => None,
            }
        } else if starts_with_exec(line, &wdata) {
            match label_value_exec(line, wdata.len()) {
                Some(v) => Some(CoSimResult { dut: DutInfo { w_data: v, ..r.dut }, ..r }),
                None => None,
            }
        } else {
            Some(r)
        }
    }

    fn failure_exec(r: CoSimResult, line: &Vec<char>) -> (out: CoSimResult)
        ensures
            out == failure_step(r, line@),
    {
        let marker = chars_of("FAILURE: Co-simulation mismatch at time");
        let time_pat = chars_of("time");
        if find_chars(line, &marker).is_none() {
            return r;
        }
        let p = match find_chars(line, &time_pat) {
            Some(p) => p,
            None => {
                return r;
            },
        };
        proof {
            lemma_find_seq_bound(line@, "time"@);
        }
        assert(p + time_pat@.len() <= line@.len());
        assert(p + time_pat.len() <= line.len());
        let rest = skip_chars(line, p + time_pat.len());
        let part = match find_chars(&rest, &time_pat) {
            Some(q) => {
                proof {
                    lemma_find_seq_bound(rest@, "time"@);
                }
                take_chars(&rest, q)
            },
            None => rest,
        };
        assert(part@ == after_time(line@));
        let trimmed = trim_chars(&part);
        match first_word_chars(&trimmed) {
            Some(w) => CoSimResult { failure_time: parse_i64_chars(&w), ..r },
            None => r,
        }
    }

    /// The report after one line.
    fn step(r: CoSimResult, raw: &Vec<char>) -> (out: Option<CoSimResult>)
        ensures
            out == line_step(r, raw@),
    {
        reveal(line_step);
        let line = trim_chars(raw);
        let (r1, skip) = Self::mismatch_exec(r, &line);
        if skip {
            return Some(r1);
        }
        match Self::dut_exec(r1, &line) {
            Some(r2) => Some(Self::failure_exec(r2, &line)),
            None => None,
        }
    }

    /// Reads a co-simulation log (in ASCII), line by line, each line without
    /// surrounding white space. A line may state the mismatch (`PC_MISMATCH`
    /// or `pc mismatch`, `WE_MISMATCH`, `WADDR_MISMATCH`, `WDATA_MISMATCH`,
    /// with the expected value after `ORACLE=` or, for the program counter,
    /// after `ISS retired`), a value of the design (`DUT PC:` and the like,
    /// or `DUT retired`), or the failure time. A later line overrides an
    /// earlier one. Refused when a value after a `DUT ...:` label is not a
    /// hexadecimal 32-bit number.
    pub fn parse(input: &str, time_step: TimeAnnotation) -> (r: Result<CoSimResult, CoSimError>)
        requires
            is_ascii_text(input@),
        ensures
            (match r {
                Ok(c) => Some(c),
                Err(_) => None,
            }) == parse_lines(empty_report(time_step), spec_lines(input@)),
    {
        let lines = lines_chars(input);
        let ghost ls = lines@.map_values(|l: Vec<char>| l@);
        let mut res = CoSimResult {
            dut: DutInfo { pc: 0, wen: false, w_addr: 0, w_data: 0 },
            mismatch: None,
            failure_time: None,
            time_step,
        };
        let mut i: usize = 0;
        while i < lines.len()
            invariant
                ls == lines@.map_values(|l: Vec<char>| l@),
                ls == spec_lines(input@),
                i <= lines@.len(),
                parse_lines(empty_report(time_step), ls.take(i as int)) == Some(res),
            decreases lines@.len() - i,
        {
            assert(ls.take(i + 1).drop_last() =~= ls.take(i as int));
            assert(ls.take(i + 1).last() == lines@[i as int]@);
            match Self::step(res, &lines[i]) {
                Some(r1) => {
                    res = r1;
                },
                None => {
                    proof {
                        lemma_parse_none(empty_report(time_step), ls, i + 1);
                    }
                    assert(ls.take(ls.len() as int) =~= ls);
                    return Err(CoSimError::InvalidHex);
                },
            }
            i = i + 1;
        }
        assert(ls.take(ls.len() as int) =~= ls);
        Ok(res)
    }
}

/// Once a line cannot be read, neither can the log.
proof fn lemma_parse_none(r: CoSimResult, ls: Seq<Seq<char>>, k: int)
    requires
        0 <= k <= ls.len(),
        parse_lines(r, ls.take(k)) is None,
    ensures
        parse_lines(r, ls) is None,
    decreases ls.len() - k,
{
    if k < ls.len() {
        assert(ls.take(k + 1).drop_last() =~= ls.take(k));
        lemma_parse_none(r, ls, k + 1);
    } else {
        assert(ls.take(k) =~= ls);
    }
}


/// A retired instruction of a trace.
#[derive(Debug, Clone, PartialEq, Eq)]
pub struct InstructionTrace {
    pub core: u32,
    pub pc: u64,
    pub encoding: u32,
    pub instruction: String,
}

/// The mathematical value of an instruction of a trace.
pub ghost struct InstrView {
    pub core: u32,
    pub pc: u64,
    pub encoding: u32,
    pub instruction: Seq<char>,
}

impl View for InstructionTrace {
    type V = InstrView;

    open spec fn view(&self) -> InstrView {
        InstrView { core: self.core, pc: self.pc, encoding: self.encoding, instruction: self.instruction@ }
    }
}

/// The view of a trace.
pub open spec fn trace_view(t: Seq<InstructionTrace>) -> Seq<InstrView> {
    t.map_values(|i: InstructionTrace| i@)
}

/// The first format of a trace line: `core 0: 0x00100080 (0x7390906f) j pc + 0x9f38`.
pub open spec fn core_pattern() -> Seq<char> {
    "^core\\s+(\\d+):\\s+0x([0-9a-fA-F]+)\\s+\\(0x([0-9a-fA-F]+)\\)\\s+(.+)$"@
}

/// The tabular format of a trace line, with register values after the instruction.
pub open spec fn table_pattern() -> Seq<char> {
    "^\\s*\\d+\\s+\\d+\\s+([0-9a-fA-F]+)\\s+([0-9a-fA-F]+)\\s+(.+?)\\s{2,}.*$"@
}

/// The tabular format of a trace line without register values.
pub open spec fn short_table_pattern() -> Seq<char> {
    "^\\s*\\d+\\s+\\d+\\s+([0-9a-fA-F]+)\\s+([0-9a-fA-F]+)\\s+(\\S+)\\s*$"@
}

/// The capture group `i`, when it took part.
pub open spec fn group(g: Seq<Option<Seq<char>>>, i: int) -> Option<Seq<char>> {
    if 0 <= i < g.len() {
        g[i]
    } else {
        None
    }
}

/// The instruction of a line in the first format, from its groups.
pub open spec fn core_instr(g: Seq<Option<Seq<char>>>) -> Option<InstrView> {
    match (group(g, 0), group(g, 1), group(g, 2), group(g, 3)) {
        (Some(c), Some(p), Some(e), Some(i)) => match (
            crate::parse::spec_parse_unsigned(c, 0x1_0000_0000),
            spec_parse_hex(p, 0x1_0000_0000_0000_0000),
            spec_parse_hex(e, 0x1_0000_0000),
        ) {
            (Some(cv), Some(pv), Some(ev)) => Some(InstrView { core: cv as u32, pc: pv as u64, encoding: ev as u32, instruction: i }),
            _ => None,
        },
        _ => None,
    }
}

/// The instruction of a line in a tabular format, from its groups.
pub open spec fn table_instr(g: Seq<Option<Seq<char>>>) -> Option<InstrView> {
    match (group(g, 0), group(g, 1), group(g, 2)) {
        (Some(p), Some(e), Some(i)) => match (spec_parse_hex(p, 0x1_0000_0000_0000_0000), spec_parse_hex(e, 0x1_0000_0000)) {
            (Some(pv), Some(ev)) => Some(InstrView { core: 0, pc: pv as u64, encoding: ev as u32, instruction: spec_trim(i) }),
            _ => None,
        },
        _ => None,
    }
}

/// The instruction a trace line gives: the line without surrounding white
/// space is matched against the formats in turn; the first that matches
/// decides. `None` when no format matches, its numbers cannot be read, or a
/// pattern does not compile.
pub open spec fn spec_parse_line(line: Seq<char>) -> Option<InstrView> {
    let t = spec_trim(line);
    match spec_regex_captures(core_pattern(), t) {
        None => None,
        Some(Some(g)) => core_instr(g),
        Some(None) => match spec_regex_captures(table_pattern(), t) {
            None => None,
            Some(Some(g)) => table_instr(g),
            Some(None) => match spec_regex_captures(short_table_pattern(), t) {
                None => None,
                Some(Some(g)) => table_instr(g),
                Some(None) => None,
            },
        },
    }
}

fn group_at(g: &Vec<Option<String>>, i: usize) -> (r: Option<Vec<char>>)
    ensures
        (match r {
            Some(v) => Some(v@),
            None => None,
        }) == group(
            g@.map_values(|x: Option<String>| match x {
                Some(s) => Some(s@),
                None => None,
            }),
            i as int,
        ),
{
    if i < g.len() {
        match &g[i] {
            Some(s) => Some(chars_of(s.as_str())),
            None => None,
        }
    } else {
        None
    }
}

/// The views of capture groups.
pub open spec fn groups_view(g: Seq<Option<String>>) -> Seq<Option<Seq<char>>> {
    g.map_values(|x: Option<String>| match x {
        Some(s) => Some(s@),
        None => None,
    })
}

impl InstructionTrace {
    pub fn new(core: u32, pc: u64, encoding: u32, instruction: String) -> (r: InstructionTrace)
        ensures
            r@ == (InstrView { core, pc, encoding, instruction: instruction@ }),
    {
        InstructionTrace { core, pc, encoding, instruction }
    }

    /// A copy of the instruction.
    pub fn duplicate(&self) -> (r: InstructionTrace)
        ensures
            r@ == self@,
    {
        InstructionTrace { core: self.core, pc: self.pc, encoding: self.encoding, instruction: self.instruction.clone() }
    }

    fn from_core_groups(g: &Vec<Option<String>>) -> (r: Option<InstructionTrace>)
        ensures
            (match r {
                Some(i) => Some(i@),
                None => None,
            }) == core_instr(groups_view(g@)),
    {
        let c = match group_at(g, 0) { Some(c) => c, None => { return None; } };
        let p = match group_at(g, 1) { Some(p) => p, None => { return None; } };
        let e = match group_at(g, 2) { Some(e) => e, None => { return None; } };
        let ins = match group_at(g, 3) { Some(i) => i, None => { return None; } };
        let cs = crate::text::string_from_chars(&c);
        let cv = match crate::parse::parse_u32(cs.as_str()) { Some(v) => v, None => { return None; } };
        let pv = match parse_hex_chars(&p, 0x1_0000_0000_0000_0000) { Some(v) => v, None => { return None; } };
        let ev = match parse_hex_chars(&e, 0x1_0000_0000) { Some(v) => v, None => { return None; } };
        Some(InstructionTrace::new(cv, pv, ev as u32, crate::text::string_from_chars(&ins)))
    }

    fn from_table_groups(g: &Vec<Option<String>>) -> (r: Option<InstructionTrace>)
        ensures
            (match r {
                Some(i) => Some(i@),
                None => None,
            }) == table_instr(groups_view(g@)),
    {
        let p = match group_at(g, 0) { Some(p) => p, None => { return None; } };
        let e = match group_at(g, 1) { Some(e) => e, None => { return None; } };
        let ins = match group_at(g, 2) { Some(i) => i, None => { return None; } };
        let pv = match parse_hex_chars(&p, 0x1_0000_0000_0000_0000) { Some(v) => v, None => { return None; } };
        let ev = match parse_hex_chars(&e, 0x1_0000_0000) { Some(v) => v, None => { return None; } };
        let t = trim_chars(&ins);
        Some(InstructionTrace::new(0, pv, ev as u32, crate::text::string_from_chars(&t)))
    }

    /// The instruction a trace line gives, if it is in one of the formats.
    pub fn parse_line(line: &str) -> (r: Option<InstructionTrace>)
        ensures
            (match r {
                Some(i) => Some(i@),
                None => None,
            }) == spec_parse_line(line@),
    {
        let t = crate::text::trim_str(line);
        let p1 = "^core\\s+(\\d+):\\s+0x([0-9a-fA-F]+)\\s+\\(0x([0-9a-fA-F]+)\\)\\s+(.+)$";
        match regex_captures(p1, t) {
            None => None,
            Some(Some(g)) => Self::from_core_groups(&g),
            Some(None) => {
                let p2 = "^\\s*\\d+\\s+\\d+\\s+([0-9a-fA-F]+)\\s+([0-9a-fA-F]+)\\s+(.+?)\\s{2,}.*$";
                match regex_captures(p2, t) {
                    None => None,
                    Some(Some(g)) => Self::from_table_groups(&g),
                    Some(None) => {
                        let p3 = "^\\s*\\d+\\s+\\d+\\s+([0-9a-fA-F]+)\\s+([0-9a-fA-F]+)\\s+(\\S+)\\s*$";
                        match regex_captures(p3, t) {
                            None => None,
                            Some(Some(g)) => Self::from_table_groups(&g),
                            Some(None) => None,
                        }
                    },
                }
            },
        }
    }

    /// The instructions of a trace text: those of its lines that give one, in order.
    pub fn parse_string(content: &str) -> (r: Vec<InstructionTrace>)
        ensures
            trace_view(r@) == parsed_lines(spec_lines(content@)),
    {
        let lines = lines_chars(content);
        let ghost ls = lines@.map_values(|l: Vec<char>| l@);
        let mut r: Vec<InstructionTrace> = Vec::new();
        let mut i: usize = 0;
        while i < lines.len()
            invariant
                ls == lines@.map_values(|l: Vec<char>| l@),
                ls == spec_lines(content@),
                i <= lines@.len(),
                trace_view(r@) == parsed_lines(ls.take(i as int)),
            decreases lines@.len() - i,
        {
            assert(ls.take(i + 1).drop_last() =~= ls.take(i as int));
            assert(ls.take(i + 1).last() == lines@[i as int]@);
            let text = crate::text::string_from_chars(&lines[i]);
            match Self::parse_line(text.as_str()) {
                Some(ins) => {
                    let ghost before = r@;
                    r.push(ins);
                    assert(trace_view(r@) =~= trace_view(before).push(r@[i as int - (i as int - before.len())]@));
                },
                None => {},
            }
            i = i + 1;
        }
        assert(ls.take(ls.len() as int) =~= ls);
        r
    }
}

/// The instructions the lines give, in order.
pub open spec fn parsed_lines(ls: Seq<Seq<char>>) -> Seq<InstrView>
    decreases ls.len(),
{
    if ls.len() == 0 {
        Seq::empty()
    } else {
        let rest = parsed_lines(ls.drop_last());
        match spec_parse_line(ls.last()) {
            Some(i) => rest.push(i),
            None => rest,
        }
    }
}


/// The lowercase hexadecimal digit of `d` (below 16).
pub open spec fn hex_char(d: nat) -> char {
    if d < 10 {
        (d + '0' as nat) as char
    } else {
        ((d - 10) + 'a' as nat) as char
    }
}

/// The lowercase hexadecimal digits of `n`.
pub open spec fn hex_text(n: nat) -> Seq<char>
    decreases n,
{
    if n < 16 {
        seq![hex_char(n)]
    } else {
        hex_text(n / 16).push(hex_char(n % 16))
    }
}

/// `s` padded on the left with `c` to at least `w` characters.
pub open spec fn pad_left(s: Seq<char>, w: nat, c: char) -> Seq<char> {
    if s.len() < w {
        Seq::new((w - s.len()) as nat, |i: int| c) + s
    } else {
        s
    }
}

/// `n` as `format!("{:08x}")` writes it.
pub open spec fn hex8(n: nat) -> Seq<char> {
    pad_left(hex_text(n), 8, '0')
}

/// A boolean as `format!("{}")` writes it.
pub open spec fn bool_text(b: bool) -> Seq<char> {
    if b {
        "true"@
    } else {
        "false"@
    }
}

fn hex_digits(n: u64) -> (r: Vec<char>)
    ensures
        r@ == hex_text(n as nat),
    decreases n,
{
    let d: u64 = n % 16;
    let c: char = if d < 10 {
        ((d as u8) + 48) as char
    } else {
        ((d as u8) + 87) as char
    };
    assert(c == hex_char(d as nat));
    if n < 16 {
        let mut r: Vec<char> = Vec::new();
        r.push(c);
        assert(r@ =~= hex_text(n as nat));
        r
    } else {
        let mut r = hex_digits(n / 16);
        r.push(c);
        r
    }
}

fn pad_left_chars(s: Vec<char>, w: usize, c: char) -> (r: Vec<char>)
    ensures
        r@ == pad_left(s@, w as nat, c),
{
    if s.len() >= w {
        return s;
    }
    let mut r: Vec<char> = Vec::new();
    let n = w - s.len();
    let mut i: usize = 0;
    while i < n
        invariant
            i <= n,
            r@ == Seq::new(i as nat, |k: int| c),
        decreases n - i,
    {
        r.push(c);
        assert(r@ =~= Seq::new((i + 1) as nat, |k: int| c));
        i = i + 1;
    }
    let ghost pre = r@;
    push_chars(&mut r, &s);
    r
}

fn hex8_chars(n: u64) -> (r: Vec<char>)
    ensures
        r@ == hex8(n as nat),
{
    pad_left_chars(hex_digits(n), 8, '0')
}

/// Appends the characters of `s` to `out`.
fn push_chars(out: &mut Vec<char>, s: &Vec<char>)
    ensures
        final(out)@ == old(out)@ + s@,
{
    let mut i: usize = 0;
    while i < s.len()
        invariant
            i <= s@.len(),
            out@ == old(out)@ + s@.take(i as int),
        decreases s@.len() - i,
    {
        out.push(s[i]);
        assert(s@.take(i + 1) =~= s@.take(i as int).push(s@[i as int]));
        i = i + 1;
    }
    assert(s@.take(s@.len() as int) =~= s@);
}

/// Appends a string slice to `out`.
fn push_str(out: &mut Vec<char>, s: &str)
    ensures
        final(out)@ == old(out)@ + s@,
{
    let cs = chars_of(s);
    push_chars(out, &cs);
}

/// What a test's report says of the mismatch, with the instruction that
/// caused it when one is known (`current` for the register port, `last` for
/// the program counter).
pub open spec fn mismatch_message(report: CoSimResult, current: Option<InstrView>, last: Option<InstrView>) -> Seq<char> {
    let d = report.dut;
    match report.mismatch.unwrap() {
        MismatchType::PcMismatch(o) => match last {
            Some(i) => "Now this core design is buggy when executing the instruction:\n "@ + i.instruction
                + " \nAfter executing this instruction, this core jumps to a wrong address 0x"@ + hex8(d.pc as nat)
                + " which should jump to address 0x"@ + hex8(o as nat) + "\n\n"@,
            None => "PC mismatch detected: Expected PC 0x"@ + hex8(o as nat) + ", but got 0x"@ + hex8(d.pc as nat)
                + "\n\n"@,
        },
        MismatchType::WeMismatch(o) => match current {
            Some(i) => "Now this core design is buggy when executing a instruction. "@ + i.instruction
                + " this instruction "@ + (if o {
                "should write to register"@
            } else {
                "should not write to register"@
            }) + " but "@ + (if d.wen {
                "is writing to register"@
            } else {
                "is not writing to register"@
            }) + ".\n\n"@,
            None => "Write enable mismatch detected: Expected WE "@ + bool_text(o) + ", but got "@ + bool_text(d.wen)
                + "\n\n"@,
        },
        MismatchType::WaddrMismatch(o) => match current {
            Some(i) => "Now this core design is buggy when executing a instruction. "@ + i.instruction
                + " this instruction writes to wrong register address 0x"@ + hex8(d.w_addr as nat)
                + " which should write to register address 0x"@ + hex8(o as nat) + ".\n\n"@,
            None => "Write address mismatch detected: Expected WADDR 0x"@ + hex8(o as nat) + ", but got 0x"@ + hex8(
                d.w_addr as nat,
            ) + "\n\n"@,
        },
        MismatchType::WdataMismatch(o) => match current {
            Some(i) => "Now this core design is buggy when executing a instruction. "@ + i.instruction
                + " this instruction writes wrong data 0x"@ + hex8(d.w_data as nat)
                + " to register which should write data 0x"@ + hex8(o as nat) + ".\n\n"@,
            None => "Write data mismatch detected: Expected WDATA 0x"@ + hex8(o as nat) + ", but got 0x"@ + hex8(
                d.w_data as nat,
            ) + "\n\n"@,
        },
    }
}

/// The line of the context for the instruction at `k`, with the marker of
/// the instruction that caused the mismatch when `marked`.
pub open spec fn marked_line(k: nat, i: InstrView, marked: bool) -> Seq<char> {
    (if marked {
        ">>>"@
    } else {
        "   "@
    }) + " ["@ + pad_left(crate::wave::decimal(k), 2, ' ') + "] Core "@ + crate::wave::decimal(i.core as nat)
        + ": PC=0x"@ + hex8(i.pc as nat) + " (0x"@ + hex8(i.encoding as nat) + ") "@ + i.instruction + "\n"@
}

/// The line of the context for the instruction at `k`, marked when it is the
/// instruction that caused the mismatch.
pub open spec fn context_line(k: nat, i: InstrView, current: Option<InstrView>) -> Seq<char> {
    marked_line(k, i, current == Some(i))
}

fn marked_line_chars(k: usize, ins: &InstructionTrace, marked: bool) -> (r: Vec<char>)
    ensures
        r@ == marked_line(k as nat, ins@, marked),
{
    let mut out: Vec<char> = Vec::new();
    if marked {
        push_str(&mut out, ">>>");
    } else {
        push_str(&mut out, "   ");
    }
    push_str(&mut out, " [");
    push_chars(&mut out, &pad_left_chars(crate::wave::decimal_digits(k as u64), 2, ' '));
    push_str(&mut out, "] Core ");
    push_chars(&mut out, &crate::wave::decimal_digits(ins.core as u64));
    push_str(&mut out, ": PC=0x");
    push_chars(&mut out, &hex8_chars(ins.pc));
    push_str(&mut out, " (0x");
    push_chars(&mut out, &hex8_chars(ins.encoding as u64));
    push_str(&mut out, ") ");
    push_str(&mut out, ins.instruction.as_str());
    push_str(&mut out, "\n");
    out
}

/// The lines of the context, in order.
pub open spec fn context_lines(ctx: Seq<InstrView>, current: Option<InstrView>) -> Seq<char>
    decreases ctx.len(),
{
    if ctx.len() == 0 {
        Seq::empty()
    } else {
        context_lines(ctx.drop_last(), current) + context_line((ctx.len() - 1) as nat, ctx.last(), current)
    }
}

/// The last `n` instructions of a trace (all of them when it has fewer).
pub open spec fn last_n(t: Seq<InstrView>, n: nat) -> Seq<InstrView> {
    if t.len() >= n {
        t.skip(t.len() - n)
    } else {
        t
    }
}

/// The description of a test: what mismatched, then the last three
/// instructions of the trace, the last one marked.
pub open spec fn test_info(report: CoSimResult, trace: Seq<InstrView>) -> Seq<char> {
    let current = if trace.len() > 0 {
        Some(trace.last())
    } else {
        None
    };
    let ctx = last_n(trace, 3);
    let last = if ctx.len() > 1 {
        Some(ctx[ctx.len() - 2])
    } else {
        current
    };
    mismatch_message(report, current, last) + "\n"@ + "INSTRUCTION TRACE CONTEXT:\n"@ + (if ctx.len() == 0 {
        "  No instruction trace available\n"@
    } else {
        context_lines(ctx, current)
    }) + "\n"@
}

/// What is recorded of a failing test: where tracing starts, what the test
/// did, and how far back tracing may go.
pub struct TestMetaData {
    pub start_scope: String,
    pub start_sig: String,
    pub start_time: TimeAnnotation,
    pub test_info: String,
    pub time_bound: TimeAnnotation,
}

impl TestMetaData {
    pub fn new(
        start_scope: &str,
        start_sig: &str,
        start_time: TimeAnnotation,
        test_info: &str,
        time_bound: TimeAnnotation,
    ) -> (r: TestMetaData)
        ensures
            r.start_scope@ == start_scope@,
            r.start_sig@ == start_sig@,
            r.start_time == start_time,
            r.test_info@ == test_info@,
            r.time_bound == time_bound,
    {
        TestMetaData {
            start_scope: crate::text::string_of(start_scope),
            start_sig: crate::text::string_of(start_sig),
            start_time,
            test_info: crate::text::string_of(test_info),
            time_bound,
        }
    }
}

/// Describes a failing test from a template.
pub struct TemplateTestInfoGenerator;

fn same_instr(a: &InstructionTrace, b: &InstructionTrace) -> (r: bool)
    ensures
        r == (a@ == b@),
{
    a.core == b.core && a.pc == b.pc && a.encoding == b.encoding && crate::text::str_eq(
        a.instruction.as_str(),
        b.instruction.as_str(),
    )
}

impl TemplateTestInfoGenerator {
    /// The instruction that caused the mismatch: the last one of the trace.
    pub fn find_relevant_instruction<'a>(&self, trace: &'a Vec<InstructionTrace>, report: &CoSimResult) -> (r: Option<
        &'a InstructionTrace,
    >)
        ensures
            r is Some <==> trace@.len() > 0,
            r matches Some(i) ==> *i == trace@.last(),
    {
        if trace.len() == 0 {
            None
        } else {
            Some(&trace[trace.len() - 1])
        }
    }

    /// The last `context_size` instructions of the trace (all of them when it
    /// has fewer), in order.
    pub fn get_instruction_context<'a>(&self, trace: &'a Vec<InstructionTrace>, context_size: usize) -> (r: Vec<
        &'a InstructionTrace,
    >)
        ensures
            r@.map_values(|i: &InstructionTrace| i@) == last_n(trace_view(trace@), context_size as nat),
    {
        let len = trace.len();
        let start: usize = if len >= context_size {
            len - context_size
        } else {
            0
        };
        let mut r: Vec<&'a InstructionTrace> = Vec::new();
        let mut i: usize = start;
        while i < len
            invariant
                start <= i <= len,
                len == trace@.len(),
                r@.map_values(|x: &InstructionTrace| x@) == trace_view(trace@).subrange(start as int, i as int),
            decreases len - i,
        {
            let ghost before = r@;
            r.push(&trace[i]);
            assert(r@.map_values(|x: &InstructionTrace| x@) =~= before.map_values(|x: &InstructionTrace| x@).push(
                trace@[i as int]@,
            ));
            assert(trace_view(trace@).subrange(start as int, i + 1) =~= trace_view(trace@).subrange(
                start as int,
                i as int,
            ).push(trace@[i as int]@));
            i = i + 1;
        }
        assert(trace_view(trace@).subrange(start as int, len as int) =~= last_n(
            trace_view(trace@),
            context_size as nat,
        ));
        r
    }

    fn push_message(out: &mut Vec<char>, report: &CoSimResult, current: Option<&InstructionTrace>, last: Option<&InstructionTrace>)
        requires
            report.mismatch is Some,
        ensures
            final(out)@ == old(out)@ + mismatch_message(
                *report,
                match current {
                    Some(i) => Some(i@),
                    None => None,
                },
                match last {
                    Some(i) => Some(i@),
                    None => None,
                },
            ),
    {
        let d = report.dut;
        match report.mismatch {
            Some(MismatchType::PcMismatch(o)) => match last {
                Some(i) => {
                    push_str(out, "Now this core design is buggy when executing the instruction:\n ");
                    push_str(out, i.instruction.as_str());
                    push_str(out, " \nAfter executing this instruction, this core jumps to a wrong address 0x");
                    push_chars(out, &hex8_chars(d.pc as u64));
                    push_str(out, " which should jump to address 0x");
                    push_chars(out, &hex8_chars(o as u64));
                    push_str(out, "\n\n");
                },
                None => {
                    push_str(out, "PC mismatch detected: Expected PC 0x");
                    push_chars(out, &hex8_chars(o as u64));
                    push_str(out, ", but got 0x");
                    push_chars(out, &hex8_chars(d.pc as u64));
                    push_str(out, "\n\n");
                },
            },
            Some(MismatchType::WeMismatch(o)) => match current {
                Some(i) => {
                    push_str(out, "Now this core design is buggy when executing a instruction. ");
                    push_str(out, i.instruction.as_str());
                    push_str(out, " this instruction ");
                    if o {
                        push_str(out, "should write to register");
                    } else {
                        push_str(out, "should not write to register");
                    }
                    push_str(out, " but ");
                    if d.wen {
                        push_str(out, "is writing to register");
                    } else {
                        push_str(out, "is not writing to register");
                    }
                    push_str(out, ".\n\n");
                },
                None => {
                    push_str(out, "Write enable mismatch detected: Expected WE ");
                    if o {
                        push_str(out, "true");
                    } else {
                        push_str(out, "false");
                    }
                    push_str(out, ", but got ");
                    if d.wen {
                        push_str(out, "true");
                    } else {
                        push_str(out, "false");
                    }
                    push_str(out, "\n\n");
                },
            },
            Some(MismatchType::WaddrMismatch(o)) => match current {
                Some(i) => {
                    push_str(out, "Now this core design is buggy when executing a instruction. ");
                    push_str(out, i.instruction.as_str());
                    push_str(out, " this instruction writes to wrong register address 0x");
                    push_chars(out, &hex8_chars(d.w_addr as u64));
                    push_str(out, " which should write to register address 0x");
                    push_chars(out, &hex8_chars(o as u64));
                    push_str(out, ".\n\n");
                },
                None => {
                    push_str(out, "Write address mismatch detected: Expected WADDR 0x");
                    push_chars(out, &hex8_chars(o as u64));
                    push_str(out, ", but got 0x");
                    push_chars(out, &hex8_chars(d.w_addr as u64));
                    push_str(out, "\n\n");
                },
            },
            Some(MismatchType::WdataMismatch(o)) => match current {
                Some(i) => {
                    push_str(out, "Now this core design is buggy when executing a instruction. ");
                    push_str(out, i.instruction.as_str());
                    push_str(out, " this instruction writes wrong data 0x");
                    push_chars(out, &hex8_chars(d.w_data as u64));
                    push_str(out, " to register which should write data 0x");
                    push_chars(out, &hex8_chars(o as u64));
                    push_str(out, ".\n\n");
                },
                None => {
                    push_str(out, "Write data mismatch detected: Expected WDATA 0x");
                    push_chars(out, &hex8_chars(o as u64));
                    push_str(out, ", but got 0x");
                    push_chars(out, &hex8_chars(d.w_data as u64));
                    push_str(out, "\n\n");
                },
            },
            None => {},
        }
    }

    /// Describes a failing test from its report and its instruction trace.
    pub fn generate(&self, report: &CoSimResult, trace: &Vec<InstructionTrace>) -> (r: String)
        requires
            report.mismatch is Some,
        ensures
            r@ == test_info(*report, trace_view(trace@)),
    {
        let current = self.find_relevant_instruction(trace, report);
        let ctx = self.get_instruction_context(trace, 3);
        let ghost cv = ctx@.map_values(|i: &InstructionTrace| i@);
        let last: Option<&InstructionTrace> = if ctx.len() > 1 {
            Some(ctx[ctx.len() - 2])
        } else {
            current
        };
        proof {
            if trace@.len() > 0 {
                assert(trace_view(trace@).last() == trace@.last()@);
            }
        }
        let mut out: Vec<char> = Vec::new();
        Self::push_message(&mut out, report, current, last);
        push_str(&mut out, "\n");
        push_str(&mut out, "INSTRUCTION TRACE CONTEXT:\n");
        if ctx.len() == 0 {
            push_str(&mut out, "  No instruction trace available\n");
        } else {
            let ghost base = out@;
            let ghost cur = match current {
                Some(i) => Some(i@),
                None => None::<InstrView>,
            };
            let mut k: usize = 0;
            while k < ctx.len()
                invariant
                    k <= ctx@.len(),
                    cv == ctx@.map_values(|i: &InstructionTrace| i@),
                    cur == (match current {
                        Some(i) => Some(i@),
                        None => None::<InstrView>,
                    }),
                    ctx@.len() <= 3,
                    out@ == base + context_lines(cv.take(k as int), cur),
                decreases ctx@.len() - k,
            {
                let ins = ctx[k];
                let marked = match current {
                    Some(c) => same_instr(ins, c),
                    None => false,
                };
                let line = marked_line_chars(k, ins, marked);
                push_chars(&mut out, &line);
                proof {
                    assert(cv.take(k + 1).drop_last() =~= cv.take(k as int));
                    assert(cv.take(k + 1).last() == ins@);
                    assert((cur == Some(ins@)) == marked);
                }
                k = k + 1;
            }
            assert(cv.take(ctx@.len() as int) =~= cv);
        }
        push_str(&mut out, "\n");
        crate::text::string_from_chars(&out)
    }
}


/// The signal tracing starts from for a kind of mismatch: the program
/// counter written, or the destination register's address or data.
pub open spec fn start_signal(m: MismatchType) -> Seq<char> {
    match m {
        MismatchType::PcMismatch(_) => "rvfi_pc_wdata"@,
        MismatchType::WeMismatch(_) => "rvfi_rd_addr_d"@,
        MismatchType::WaddrMismatch(_) => "rvfi_rd_addr_d"@,
        MismatchType::WdataMismatch(_) => "rvfi_rd_wdata_d"@,
    }
}

/// The scope of the core, where tracing starts.
pub open spec fn core_scope() -> Seq<char> {
    "TOP.ibex_simple_system.u_top.u_ibex_top.u_ibex_core"@
}

/// What is recorded of a failing test: tracing starts in the core at the
/// signal of the mismatch, one time step and one time unit before the
/// failure, and goes back at most two instruction cycles (of two time steps
/// each) from there.
pub fn test_meta_data(report: &CoSimResult, test_info: &str) -> (r: TestMetaData)
    requires
        report.mismatch is Some,
        report.failure_time is Some,
        i64::MIN <= report.failure_time.unwrap() - 1,
        i64::MIN <= report.failure_time.unwrap() - 1 - report.time_step <= i64::MAX,
        i64::MIN <= 2 * report.time_step <= i64::MAX,
        i64::MIN <= 2 * (2 * report.time_step) <= i64::MAX,
        i64::MIN <= report.failure_time.unwrap() - 1 - report.time_step - 2 * (2 * report.time_step) <= i64::MAX,
    ensures
        r.start_scope@ == core_scope(),
        r.start_sig@ == start_signal(report.mismatch.unwrap()),
        r.start_time == report.failure_time.unwrap() - 1 - report.time_step,
        r.test_info@ == test_info@,
        r.time_bound == r.start_time - 2 * (2 * report.time_step),
{
    let failure_time = match report.failure_time {
        Some(t) => t,
        None => 0,
    };
    let ibex_cycle: i64 = 2 * report.time_step;
    let start_time: i64 = failure_time - 1 - report.time_step;
    let time_bound: i64 = start_time - 2 * ibex_cycle;
    let start_scope = "TOP.ibex_simple_system.u_top.u_ibex_top.u_ibex_core";
    let start_sig = match report.mismatch {
        Some(MismatchType::PcMismatch(_)) => "rvfi_pc_wdata",
        Some(MismatchType::WeMismatch(_)) => "rvfi_rd_addr_d",
        Some(MismatchType::WaddrMismatch(_)) => "rvfi_rd_addr_d",
        _ => "rvfi_rd_wdata_d",
    };
    TestMetaData::new(start_scope, start_sig, start_time, test_info, time_bound)
}

/// A register mismatch line keeps the expected value given after `ORACLE=`:
/// a write-data or write-address mismatch records that value, a write-enable
/// mismatch records whether it is nonzero; without an oracle value the
/// expected value is 0.
pub proof fn lemma_register_mismatch_oracle(r: CoSimResult, line: Seq<char>)
    requires
        find_seq(line, "PC_MISMATCH"@) is None,
        find_seq(ascii_lower(line), "pc mismatch"@) is None,
    ensures
        find_seq(line, "WE_MISMATCH"@) is None && find_seq(line, "WADDR_MISMATCH"@) is None
            && find_seq(line, "WDATA_MISMATCH"@) is Some ==> (oracle_of(line) matches Some(v) ==> mismatch_step(r, line).0.mismatch
            == Some(MismatchType::WdataMismatch(v))) && (oracle_of(line) is None ==> mismatch_step(r, line).0.mismatch == Some(
            MismatchType::WdataMismatch(0),
        )),
        find_seq(line, "WE_MISMATCH"@) is None && find_seq(line, "WADDR_MISMATCH"@) is Some ==> (oracle_of(line) matches Some(
            v,
        ) ==> mismatch_step(r, line).0.mismatch == Some(MismatchType::WaddrMismatch(v))),
        find_seq(line, "WE_MISMATCH"@) is Some ==> (oracle_of(line) matches Some(v) ==> mismatch_step(r, line).0.mismatch
            == Some(MismatchType::WeMismatch(v != 0))),
        mismatch_step(r, line).0.dut == r.dut,
        !mismatch_step(r, line).1,
{
}

} // verus!
