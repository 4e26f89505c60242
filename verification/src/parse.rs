//! Decimal numbers and separators in text, as the standard library reads them.
use vstd::prelude::*;

use crate::text::chars_of;

verus! {

/// Whether `c` is a decimal digit.
pub open spec fn is_digit(c: char) -> bool {
    '0' <= c && c <= '9'
}

/// Every character is a decimal digit.
pub open spec fn all_digits(s: Seq<char>) -> bool {
    forall|i: int| 0 <= i < s.len() ==> is_digit(#[trigger] s[i])
}

/// The value of a string of decimal digits.
pub open spec fn digits_value(s: Seq<char>) -> int
    decreases s.len(),
{
    if s.len() == 0 {
        0
    } else {
        digits_value(s.drop_last()) * 10 + (s.last() as int - '0' as int)
    }
}

/// The digits of an unsigned decimal number: an optional `+`, then the digits.
pub open spec fn unsigned_digits(s: Seq<char>) -> Seq<char> {
    if s.len() > 0 && s[0] == '+' {
        s.drop_first()
    } else {
        s
    }
}

/// What `str::parse::<u64>` and the like give for an unsigned number below `bound`:
/// an optional `+` and at least one decimal digit, with a value below `bound`.
pub open spec fn spec_parse_unsigned(s: Seq<char>, bound: int) -> Option<int> {
    let d = unsigned_digits(s);
    if d.len() > 0 && all_digits(d) && digits_value(d) < bound {
        Some(digits_value(d))
    } else {
        None
    }
}

/// What `str::parse::<i32>` gives: an optional sign and at least one decimal
/// digit, with a value in the range of `i32`.
pub open spec fn spec_parse_i32(s: Seq<char>) -> Option<i32> {
    if s.len() > 0 && s[0] == '-' {
        let d = s.drop_first();
        if d.len() > 0 && all_digits(d) && digits_value(d) <= 0x8000_0000 {
            Some((-digits_value(d)) as i32)
        } else {
            None
        }
    } else {
        match spec_parse_unsigned(s, 0x8000_0000) {
            Some(v) => Some(v as i32),
            None => None,
        }
    }
}

proof fn lemma_digits_value_step(s: Seq<char>, k: int)
    requires
        0 <= k < s.len(),
    ensures
        digits_value(s.take(k + 1)) == digits_value(s.take(k)) * 10 + (s[k] as int - '0' as int),
{
    assert(s.take(k + 1).drop_last() =~= s.take(k));
}

proof fn lemma_digits_value_nonneg(s: Seq<char>)
    requires
        all_digits(s),
    ensures
        digits_value(s) >= 0,
    decreases s.len(),
{
    if s.len() > 0 {
        assert(all_digits(s.drop_last())) by {
            assert forall|i: int| 0 <= i < s.drop_last().len() implies is_digit(#[trigger] s.drop_last()[i]) by {
                assert(s.drop_last()[i] == s[i]);
            };
        };
        lemma_digits_value_nonneg(s.drop_last());
    }
}

proof fn lemma_digits_value_mono(s: Seq<char>, k: int)
    requires
        all_digits(s),
        0 <= k <= s.len(),
    ensures
        digits_value(s.take(k)) <= digits_value(s),
    decreases s.len() - k,
{
    if k < s.len() {
        lemma_digits_value_mono(s, k + 1);
        lemma_digits_value_step(s, k);
        assert(all_digits(s.take(k))) by {
            assert forall|i: int| 0 <= i < s.take(k).len() implies is_digit(#[trigger] s.take(k)[i]) by {
                assert(s.take(k)[i] == s[i]);
            };
        };
        lemma_digits_value_nonneg(s.take(k));
        assert(is_digit(s[k]));
    } else {
        assert(s.take(k) =~= s);
    }
}

/// Reads the digits `d` as a number below `bound` (at most `u64::MAX + 1`).
fn digits_below(d: &Vec<char>, bound: u128) -> (r: Option<u64>)
    requires
        0 < bound <= 0x1_0000_0000_0000_0000,
    ensures
        r matches Some(v) ==> d@.len() > 0 && all_digits(d@) && digits_value(d@) < bound && v == digits_value(d@),
        r is None ==> !(d@.len() > 0 && all_digits(d@) && digits_value(d@) < bound),
{
    if d.len() == 0 {
        return None;
    }
    let mut acc: u128 = 0;
    let mut k: usize = 0;
    while k < d.len()
        invariant
            0 < bound <= 0x1_0000_0000_0000_0000,
            k <= d.len(),
            all_digits(d@.take(k as int)),
            acc == digits_value(d@.take(k as int)),
            acc < bound,
        decreases d.len() - k,
    {
        let c = d[k];
        proof {
            lemma_digits_value_step(d@, k as int);
        }
        if !('0' <= c && c <= '9') {
            assert(!all_digits(d@)) by {
                assert(!is_digit(d@[k as int]));
            };
            return None;
        }
        let next: u128 = acc * 10 + ((c as u32 - '0' as u32) as u128);
        if next >= bound {
            proof {
                assert(all_digits(d@.take(k + 1))) by {
                    assert forall|i: int| 0 <= i < d@.take(k + 1).len() implies is_digit(#[trigger] d@.take(k + 1)[i]) by {
                        if i < k {
                            assert(d@.take(k + 1)[i] == d@.take(k as int)[i]);
                        }
                    };
                };
                if all_digits(d@) {
                    lemma_digits_value_mono(d@, k + 1);
                }
            }
            return None;
        }
        acc = next;
        proof {
            assert forall|i: int| 0 <= i < d@.take(k + 1).len() implies is_digit(#[trigger] d@.take(k + 1)[i]) by {
                if i < k {
                    assert(d@.take(k + 1)[i] == d@.take(k as int)[i]);
                }
            };
        }
        k = k + 1;
    }
    assert(d@.take(d@.len() as int) =~= d@);
    Some(acc as u64)
}

/// Reads an unsigned 32-bit decimal number as `str::parse::<u32>` does.
pub fn parse_u32(s: &str) -> (r: Option<u32>)
    ensures
        r matches Some(v) ==> spec_parse_unsigned(s@, 0x1_0000_0000) == Some(v as int),
        r is None ==> spec_parse_unsigned(s@, 0x1_0000_0000) is None,
{
    let cs = chars_of(s);
    let d = strip_plus(&cs);
    match digits_below(&d, 0x1_0000_0000) {
        Some(v) => Some(v as u32),
        None => None,
    }
}

/// Reads an unsigned machine-word decimal number as `str::parse::<usize>` does.
pub fn parse_usize(s: &str) -> (r: Option<usize>)
    ensures
        r matches Some(v) ==> spec_parse_unsigned(s@, usize::MAX + 1) == Some(v as int),
        r is None ==> spec_parse_unsigned(s@, usize::MAX + 1) is None,
{
    let cs = chars_of(s);
    let d = strip_plus(&cs);
    let bound: u128 = usize::MAX as u128 + 1;
    match digits_below(&d, bound) {
        Some(v) => Some(v as usize),
        None => None,
    }
}

/// Reads a signed 32-bit decimal number as `str::parse::<i32>` does.
pub fn parse_i32(s: &str) -> (r: Option<i32>)
    ensures
        r == spec_parse_i32(s@),
{
    let cs = chars_of(s);
    if cs.len() > 0 && cs[0] == '-' {
        let mut d: Vec<char> = Vec::new();
        let mut k: usize = 1;
        while k < cs.len()
            invariant
                1 <= k <= cs.len(),
                d@ == cs@.subrange(1, k as int),
            decreases cs.len() - k,
        {
            d.push(cs[k]);
            assert(cs@.subrange(1, k + 1) == cs@.subrange(1, k as int).push(cs@[k as int]));
            k = k + 1;
        }
        assert(d@ =~= s@.drop_first());
        match digits_below(&d, 0x8000_0001) {
            Some(v) => {
                let r: i64 = 0 - (v as i64);
                Some(r as i32)
            },
            None => None,
        }
    } else {
        let d = strip_plus(&cs);
        match digits_below(&d, 0x8000_0000) {
            Some(v) => Some(v as i32),
            None => None,
        }
    }
}

pub(crate) fn strip_plus(cs: &Vec<char>) -> (r: Vec<char>)
    ensures
        r@ == unsigned_digits(cs@),
{
    let start: usize = if cs.len() > 0 && cs[0] == '+' { 1 } else { 0 };
    let mut d: Vec<char> = Vec::new();
    let mut k: usize = start;
    while k < cs.len()
        invariant
            start <= k <= cs.len(),
            start <= 1,
            d@ == cs@.subrange(start as int, k as int),
        decreases cs.len() - k,
    {
        d.push(cs[k]);
        assert(cs@.subrange(start as int, k + 1) == cs@.subrange(start as int, k as int).push(cs@[k as int]));
        k = k + 1;
    }
    assert(d@ =~= unsigned_digits(cs@));
    d
}

/// The pieces of `s` between the separator `sep`, as `str::split` gives them.
pub open spec fn split_spec(s: Seq<char>, sep: char) -> Seq<Seq<char>>
    decreases s.len(),
{
    if s.len() == 0 {
        seq![Seq::empty()]
    } else {
        let rest = split_spec(s.drop_last(), sep);
        if s.last() == sep {
            rest.push(Seq::empty())
        } else {
            rest.update(rest.len() - 1, rest.last().push(s.last()))
        }
    }
}

pub(crate) proof fn lemma_split_nonempty(s: Seq<char>, sep: char)
    ensures
        split_spec(s, sep).len() >= 1,
    decreases s.len(),
{
    if s.len() > 0 {
        lemma_split_nonempty(s.drop_last(), sep);
    }
}

/// Splits `s` at each `sep` (`str::split`).
pub fn split_char(s: &str, sep: char) -> (r: Vec<String>)
    ensures
        crate::dfb::strings_view(r@) == split_spec(s@, sep),
{
    let cs = chars_of(s);
    let mut parts: Vec<Vec<char>> = Vec::new();
    let mut cur: Vec<char> = Vec::new();
    let mut k: usize = 0;
    while k < cs.len()
        invariant
            k <= cs.len(),
            parts@.map_values(|p: Vec<char>| p@).push(cur@) == split_spec(cs@.take(k as int), sep),
        decreases cs.len() - k,
    {
        proof {
            lemma_split_nonempty(cs@.take(k as int), sep);
            assert(cs@.take(k + 1).drop_last() =~= cs@.take(k as int));
        }
        let ghost before = parts@.map_values(|p: Vec<char>| p@).push(cur@);
        if cs[k] == sep {
            let done = cur;
            parts.push(done);
            cur = Vec::new();
            assert(parts@.map_values(|p: Vec<char>| p@).push(cur@) =~= before.push(Seq::empty()));
        } else {
            cur.push(cs[k]);
            assert(parts@.map_values(|p: Vec<char>| p@).push(cur@) =~= before.update(before.len() - 1, before.last().push(cs@[k as int])));
        }
        k = k + 1;
    }
    parts.push(cur);
    assert(cs@.take(cs@.len() as int) =~= cs@);
    let mut r: Vec<String> = Vec::new();
    let mut i: usize = 0;
    while i < parts.len()
        invariant
            i <= parts.len(),
            crate::dfb::strings_view(r@) == parts@.map_values(|p: Vec<char>| p@).take(i as int),
        decreases parts.len() - i,
    {
        let ghost before = r@;
        r.push(crate::text::string_from_chars(&parts[i]));
        assert(crate::dfb::strings_view(r@) =~= crate::dfb::strings_view(before).push(parts@[i as int]@));
        assert(parts@.map_values(|p: Vec<char>| p@).take(i + 1) =~= parts@.map_values(|p: Vec<char>| p@).take(i as int).push(
            parts@[i as int]@,
        ));
        i = i + 1;
    }
    assert(parts@.map_values(|p: Vec<char>| p@).take(parts@.len() as int) =~= parts@.map_values(|p: Vec<char>| p@));
    r
}


/// The value of a hexadecimal digit (either case).
pub open spec fn hex_digit(c: char) -> Option<int> {
    if '0' <= c && c <= '9' {
        Some(c as int - '0' as int)
    } else if 'a' <= c && c <= 'f' {
        Some(c as int - 'a' as int + 10)
    } else if 'A' <= c && c <= 'F' {
        Some(c as int - 'A' as int + 10)
    } else {
        None
    }
}

/// Every character is a hexadecimal digit.
pub open spec fn all_hex(s: Seq<char>) -> bool {
    forall|i: int| 0 <= i < s.len() ==> (#[trigger] hex_digit(s[i])) is Some
}

/// The value of a string of hexadecimal digits.
pub open spec fn hex_value(s: Seq<char>) -> int
    decreases s.len(),
{
    if s.len() == 0 {
        0
    } else {
        hex_value(s.drop_last()) * 16 + hex_digit(s.last()).unwrap()
    }
}

/// What `u32::from_str_radix(s, 16)` and the like accept: an optional `+`
/// and at least one hexadecimal digit, with a value below `bound`.
pub open spec fn spec_parse_hex(s: Seq<char>, bound: int) -> Option<int> {
    let d = unsigned_digits(s);
    if d.len() > 0 && all_hex(d) && hex_value(d) < bound {
        Some(hex_value(d))
    } else {
        None
    }
}

proof fn lemma_hex_value_step(s: Seq<char>, k: int)
    requires
        0 <= k < s.len(),
    ensures
        hex_value(s.take(k + 1)) == hex_value(s.take(k)) * 16 + hex_digit(s[k]).unwrap(),
{
    assert(s.take(k + 1).drop_last() =~= s.take(k));
}

proof fn lemma_hex_value_nonneg(s: Seq<char>)
    requires
        all_hex(s),
    ensures
        hex_value(s) >= 0,
    decreases s.len(),
{
    if s.len() > 0 {
        assert(all_hex(s.drop_last())) by {
            assert forall|i: int| 0 <= i < s.drop_last().len() implies (#[trigger] hex_digit(s.drop_last()[i])) is Some by {
                assert(s.drop_last()[i] == s[i]);
            };
        };
        lemma_hex_value_nonneg(s.drop_last());
        assert(hex_digit(s[s.len() - 1]) is Some);
    }
}

proof fn lemma_hex_value_mono(s: Seq<char>, k: int)
    requires
        all_hex(s),
        0 <= k <= s.len(),
    ensures
        hex_value(s.take(k)) <= hex_value(s),
    decreases s.len() - k,
{
    if k < s.len() {
        lemma_hex_value_mono(s, k + 1);
        lemma_hex_value_step(s, k);
        assert(all_hex(s.take(k))) by {
            assert forall|i: int| 0 <= i < s.take(k).len() implies (#[trigger] hex_digit(s.take(k)[i])) is Some by {
                assert(s.take(k)[i] == s[i]);
            };
        };
        lemma_hex_value_nonneg(s.take(k));
        assert(hex_digit(s[k]) is Some);
    } else {
        assert(s.take(k) =~= s);
    }
}

/// The value of a hexadecimal digit character.
pub(crate) fn hex_digit_exec(c: char) -> (r: Option<u32>)
    ensures
        r matches Some(v) ==> hex_digit(c) == Some(v as int) && v < 16,
        r is None ==> hex_digit(c) is None,
{
    if '0' <= c && c <= '9' {
        Some(c as u32 - '0' as u32)
    } else if 'a' <= c && c <= 'f' {
        Some(c as u32 - 'a' as u32 + 10)
    } else if 'A' <= c && c <= 'F' {
        Some(c as u32 - 'A' as u32 + 10)
    } else {
        None
    }
}

/// Reads the hexadecimal digits `d` as a number below `bound`.
fn hex_below(d: &Vec<char>, bound: u128) -> (r: Option<u64>)
    requires
        0 < bound <= 0x1_0000_0000_0000_0000,
    ensures
        r matches Some(v) ==> d@.len() > 0 && all_hex(d@) && hex_value(d@) < bound && v == hex_value(d@),
        r is None ==> !(d@.len() > 0 && all_hex(d@) && hex_value(d@) < bound),
{
    if d.len() == 0 {
        return None;
    }
    let mut acc: u128 = 0;
    let mut k: usize = 0;
    while k < d.len()
        invariant
            0 < bound <= 0x1_0000_0000_0000_0000,
            k <= d.len(),
            all_hex(d@.take(k as int)),
            acc == hex_value(d@.take(k as int)),
            acc < bound,
        decreases d.len() - k,
    {
        let c = d[k];
        proof {
            lemma_hex_value_step(d@, k as int);
        }
        let v = match hex_digit_exec(c) {
            Some(v) => v,
            None => {
                assert(!all_hex(d@)) by {
                    assert(hex_digit(d@[k as int]) is None);
                };
                return None;
            },
        };
        let next: u128 = acc * 16 + (v as u128);
        proof {
            assert forall|i: int| 0 <= i < d@.take(k + 1).len() implies (#[trigger] hex_digit(d@.take(k + 1)[i])) is Some by {
                if i < k {
                    assert(d@.take(k + 1)[i] == d@.take(k as int)[i]);
                }
            };
        }
        if next >= bound {
            proof {
                if all_hex(d@) {
                    lemma_hex_value_mono(d@, k + 1);
                }
            }
            return None;
        }
        acc = next;
        k = k + 1;
    }
    assert(d@.take(d@.len() as int) =~= d@);
    Some(acc as u64)
}

/// Reads a hexadecimal number below `bound` from characters, as
/// `from_str_radix(.., 16)` does for an unsigned type.
pub fn parse_hex_chars(cs: &Vec<char>, bound: u128) -> (r: Option<u64>)
    requires
        0 < bound <= 0x1_0000_0000_0000_0000,
    ensures
        r matches Some(v) ==> spec_parse_hex(cs@, bound as int) == Some(v as int),
        r is None ==> spec_parse_hex(cs@, bound as int) is None,
{
    let d = strip_plus(cs);
    hex_below(&d, bound)
}

/// Reads a 32-bit hexadecimal number as `u32::from_str_radix(s, 16)` does.
pub fn parse_hex_value(s: &str) -> (r: Option<u32>)
    ensures
        r matches Some(v) ==> spec_parse_hex(s@, 0x1_0000_0000) == Some(v as int),
        r is None ==> spec_parse_hex(s@, 0x1_0000_0000) is None,
{
    let cs = chars_of(s);
    match parse_hex_chars(&cs, 0x1_0000_0000) {
        Some(v) => Some(v as u32),
        None => None,
    }
}

/// What `str::parse::<i64>` gives: an optional sign and at least one decimal
/// digit, with a value in the range of `i64`.
pub open spec fn spec_parse_i64(s: Seq<char>) -> Option<i64> {
    if s.len() > 0 && s[0] == '-' {
        let d = s.drop_first();
        if d.len() > 0 && all_digits(d) && digits_value(d) <= 0x8000_0000_0000_0000 {
            Some((-digits_value(d)) as i64)
        } else {
            None
        }
    } else {
        match spec_parse_unsigned(s, 0x8000_0000_0000_0000) {
            Some(v) => Some(v as i64),
            None => None,
        }
    }
}

/// Reads a signed 64-bit decimal number from characters as `str::parse::<i64>` does.
pub fn parse_i64_chars(cs: &Vec<char>) -> (r: Option<i64>)
    ensures
        r == spec_parse_i64(cs@),
{
    if cs.len() > 0 && cs[0] == '-' {
        let mut d: Vec<char> = Vec::new();
        let mut k: usize = 1;
        while k < cs.len()
            invariant
                1 <= k <= cs.len(),
                d@ == cs@.subrange(1, k as int),
            decreases cs.len() - k,
        {
            d.push(cs[k]);
            assert(cs@.subrange(1, k + 1) == cs@.subrange(1, k as int).push(cs@[k as int]));
            k = k + 1;
        }
        assert(d@ =~= cs@.drop_first());
        match digits_below(&d, 0x8000_0000_0000_0001) {
            Some(v) => {
                let r: i128 = 0 - (v as i128);
                Some(r as i64)
            },
            None => None,
        }
    } else {
        let d = strip_plus(cs);
        match digits_below(&d, 0x8000_0000_0000_0000) {
            Some(v) => Some(v as i64),
            None => None,
        }
    }
}

/// A line without the carriage return that ended it.
pub open spec fn strip_cr(x: Seq<char>) -> Seq<char> {
    if x.len() > 0 && x.last() == '\r' {
        x.drop_last()
    } else {
        x
    }
}

/// The lines of `s` (`str::lines`): the pieces between line feeds, each
/// without a carriage return before its line feed; a last empty piece is no line.
pub open spec fn spec_lines(s: Seq<char>) -> Seq<Seq<char>> {
    let p = split_spec(s, '\n');
    let n = p.len() as int;
    let body = p.take(n - 1).map_values(|x: Seq<char>| strip_cr(x));
    if p[n - 1].len() == 0 {
        body
    } else {
        body.push(p[n - 1])
    }
}

/// The lines of a text, as characters.
pub fn lines_chars(s: &str) -> (r: Vec<Vec<char>>)
    ensures
        r@.map_values(|l: Vec<char>| l@) == spec_lines(s@),
{
    let cs = chars_of(s);
    let mut parts: Vec<Vec<char>> = Vec::new();
    let mut cur: Vec<char> = Vec::new();
    let mut k: usize = 0;
    proof {
        assert(cs@.take(0) =~= Seq::<char>::empty());
    }
    while k < cs.len()
        invariant
            cs@ == s@,
            k <= cs.len(),
            parts@.map_values(|p: Vec<char>| p@) == split_spec(cs@.take(k as int), '\n').take(
                split_spec(cs@.take(k as int), '\n').len() - 1,
            ).map_values(|x: Seq<char>| strip_cr(x)),
            cur@ == split_spec(cs@.take(k as int), '\n').last(),
        decreases cs.len() - k,
    {
        let ghost sp = split_spec(cs@.take(k as int), '\n');
        proof {
            lemma_split_nonempty(cs@.take(k as int), '\n');
            assert(cs@.take(k + 1).drop_last() =~= cs@.take(k as int));
        }
        let ghost before = parts@.map_values(|p: Vec<char>| p@);
        if cs[k] == '\n' {
            let mut done = cur;
            let n = done.len();
            if n > 0 && done[n - 1] == '\r' {
                done.pop();
            }
            let ghost dv = done@;
            parts.push(done);
            cur = Vec::new();
            let ghost sp2 = split_spec(cs@.take(k + 1), '\n');
            assert(sp2 == sp.push(Seq::empty()));
            assert(sp2.take(sp2.len() - 1) =~= sp);
            assert(sp.take(sp.len() - 1).push(sp.last()) =~= sp);
            assert(dv == strip_cr(sp.last()));
            assert(parts@.map_values(|p: Vec<char>| p@) =~= before.push(strip_cr(sp.last())));
            assert(sp.map_values(|x: Seq<char>| strip_cr(x)) =~= sp.take(sp.len() - 1).map_values(
                |x: Seq<char>| strip_cr(x),
            ).push(strip_cr(sp.last())));
        } else {
            cur.push(cs[k]);
            let ghost sp2 = split_spec(cs@.take(k + 1), '\n');
            assert(sp2 == sp.update(sp.len() - 1, sp.last().push(cs@[k as int])));
            assert(sp2.take(sp2.len() - 1) =~= sp.take(sp.len() - 1));
        }
        k = k + 1;
    }
    assert(cs@.take(cs@.len() as int) =~= cs@);
    proof {
        lemma_split_nonempty(cs@, '\n');
    }
    if cur.len() > 0 {
        parts.push(cur);
    }
    parts
}

} // verus!
