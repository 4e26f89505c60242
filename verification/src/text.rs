//! Small string helpers on `str`/`String` used across the library.
use vstd::prelude::*;
use vstd::string::StrSliceExecFns;

verus! {

/// Equality of two string slices by their character sequences.
pub(crate) fn str_eq(a: &str, b: &str) -> (r: bool)
    ensures
        r == (a@ == b@),
{
    let ac = chars_of(a);
    let bc = chars_of(b);
    chars_eq(&ac, &bc)
}

/// Whether `c` has the Unicode `White_Space` property, which is what
/// `char::is_whitespace` tests: tab through carriage return, space, next
/// line, no-break space, ogham space mark, the spaces from en quad to hair
/// space, line and paragraph separators, narrow no-break space, medium
/// mathematical space and ideographic space.
pub open spec fn spec_is_whitespace(c: char) -> bool {
    let u = c as u32;
    ||| 0x09 <= u <= 0x0D
    ||| u == 0x20
    ||| u == 0x85
    ||| u == 0xA0
    ||| u == 0x1680
    ||| 0x2000 <= u <= 0x200A
    ||| u == 0x2028
    ||| u == 0x2029
    ||| u == 0x202F
    ||| u == 0x205F
    ||| u == 0x3000
}

/// Whether `c` is white space, as `spec_is_whitespace` says.
pub(crate) fn is_whitespace(c: char) -> (r: bool)
    ensures
        r == spec_is_whitespace(c),
        (c as u32) < 128 ==> (r <==> (c == ' ' || c == '\t' || c == '\n' || c == '\r' || c == '\x0B' || c
            == '\x0C')),
{
    let u = c as u32;
    (0x09 <= u && u <= 0x0D) || u == 0x20 || u == 0x85 || u == 0xA0 || u == 0x1680 || (0x2000 <= u && u <= 0x200A)
        || u == 0x2028 || u == 0x2029 || u == 0x202F || u == 0x205F || u == 0x3000
}

/// Whether `char::is_uppercase` holds of `c` (the Unicode `Uppercase` property).
pub uninterp spec fn spec_is_uppercase(c: char) -> bool;

/// Calls `char::is_uppercase`; the result is named by `spec_is_uppercase`.
/// Among ASCII characters it holds exactly of `'A'` to `'Z'`.
#[verifier::external_body]
pub(crate) fn is_uppercase(c: char) -> (r: bool)
    ensures
        r == spec_is_uppercase(c),
        (c as u32) < 128 ==> (r <==> ('A' <= c && c <= 'Z')),
{
    c.is_uppercase()
}

/// What `str::to_uppercase` gives for a string: each character mapped to its
/// Unicode upper case, which may be more than one character.
pub uninterp spec fn spec_to_uppercase(s: Seq<char>) -> Seq<char>;

/// Calls `str::to_uppercase`; the result is named by `spec_to_uppercase`.
#[verifier::external_body]
pub(crate) fn to_uppercase(s: &str) -> (r: String)
    ensures
        r@ == spec_to_uppercase(s@),
{
    s.to_uppercase()
}

/// The number of white space characters `s` starts with.
pub open spec fn lead_ws(s: Seq<char>) -> nat
    decreases s.len(),
{
    if s.len() > 0 && spec_is_whitespace(s[0]) {
        1 + lead_ws(s.drop_first())
    } else {
        0
    }
}

/// The number of white space characters `s` ends with.
pub open spec fn trail_ws(s: Seq<char>) -> nat
    decreases s.len(),
{
    if s.len() > 0 && spec_is_whitespace(s.last()) {
        1 + trail_ws(s.drop_last())
    } else {
        0
    }
}

/// What `str::trim` leaves of a string: it removes leading and trailing white space.
pub open spec fn spec_trim(s: Seq<char>) -> Seq<char> {
    let t = s.skip(lead_ws(s) as int);
    t.take(t.len() - trail_ws(t))
}

pub(crate) proof fn lemma_lead_ws(s: Seq<char>, i: int)
    requires
        0 <= i <= s.len(),
        forall|k: int| 0 <= k < i ==> spec_is_whitespace(#[trigger] s[k]),
        i == s.len() || !spec_is_whitespace(s[i]),
    ensures
        lead_ws(s) == i,
    decreases i,
{
    if i > 0 {
        assert forall|k: int| 0 <= k < i - 1 implies spec_is_whitespace(#[trigger] s.drop_first()[k]) by {
            assert(s.drop_first()[k] == s[k + 1]);
        }
        if i - 1 < s.drop_first().len() {
            assert(s.drop_first()[i - 1] == s[i]);
        }
        lemma_lead_ws(s.drop_first(), i - 1);
    }
}

pub(crate) proof fn lemma_trail_ws(s: Seq<char>, j: int)
    requires
        0 <= j <= s.len(),
        forall|k: int| j <= k < s.len() ==> spec_is_whitespace(#[trigger] s[k]),
        j == 0 || !spec_is_whitespace(s[j - 1]),
    ensures
        trail_ws(s) == s.len() - j,
    decreases s.len() - j,
{
    if j < s.len() {
        assert forall|k: int| j <= k < s.drop_last().len() implies spec_is_whitespace(#[trigger] s.drop_last()[k]) by {
            assert(s.drop_last()[k] == s[k]);
        }
        if j > 0 {
            assert(s.drop_last()[j - 1] == s[j - 1]);
        }
        lemma_trail_ws(s.drop_last(), j);
    }
}

/// `str::trim`: the string without leading and trailing white space.
pub(crate) fn trim_str(s: &str) -> (r: &str)
    ensures
        r@ == spec_trim(s@),
{
    let cs = chars_of(s);
    let n = cs.len();
    let mut i: usize = 0;
    while i < n && is_whitespace(cs[i])
        invariant
            cs@ == s@,
            n == cs@.len(),
            i <= n,
            forall|k: int| 0 <= k < i ==> spec_is_whitespace(#[trigger] cs@[k]),
        decreases n - i,
    {
        i = i + 1;
    }
    proof {
        lemma_lead_ws(cs@, i as int);
    }
    let mut j: usize = n;
    while j > i && is_whitespace(cs[j - 1])
        invariant
            cs@ == s@,
            n == cs@.len(),
            i <= j <= n,
            forall|k: int| j <= k < n ==> spec_is_whitespace(#[trigger] cs@[k]),
        decreases j,
    {
        j = j - 1;
    }
    proof {
        let t = cs@.skip(i as int);
        assert forall|k: int| j - i <= k < t.len() implies spec_is_whitespace(#[trigger] t[k]) by {
            assert(t[k] == cs@[k + i]);
        }
        if j > i {
            assert(t[j - i - 1] == cs@[j - 1]);
        }
        lemma_trail_ws(t, j - i);
        assert(t.take(t.len() - trail_ws(t)) =~= cs@.subrange(i as int, j as int));
    }
    s.substring_char(i, j)
}

/// Builds an owned string from a string slice.
pub(crate) fn string_of(s: &str) -> (r: String)
    ensures
        r@ == s@,
{
    s.to_owned()
}

/// Builds a string from its characters (`String::from_iter`).
#[verifier::external_body]
pub fn string_from_chars(cs: &Vec<char>) -> (r: String)
    ensures
        r@ == cs@,
{
    String::from_iter(cs.iter())
}

/// The characters of a string slice, in order.
pub fn chars_of(s: &str) -> (r: Vec<char>)
    ensures
        r@ == s@,
{
    let mut r: Vec<char> = Vec::new();
    for c in it: s.chars()
        invariant
            it.seq() == s@,
            r@ == it.seq().take(it.index() as int),
    {
        r.push(c);
    }
    r
}

/// Copies a vector of characters.
pub fn copy_chars(cs: &Vec<char>) -> (r: Vec<char>)
    ensures
        r@ == cs@,
{
    let mut r: Vec<char> = Vec::new();
    let mut i: usize = 0;
    while i < cs.len()
        invariant
            i <= cs.len(),
            r@ == cs@.take(i as int),
        decreases cs.len() - i,
    {
        r.push(cs[i]);
        i = i + 1;
    }
    r
}

/// Whether `a` and `b` hold the same characters.
pub fn chars_eq(a: &Vec<char>, b: &Vec<char>) -> (r: bool)
    ensures
        r == (a@ == b@),
{
    if a.len() != b.len() {
        return false;
    }
    let mut i: usize = 0;
    while i < a.len()
        invariant
            a.len() == b.len(),
            i <= a.len(),
            a@.take(i as int) == b@.take(i as int),
        decreases a.len() - i,
    {
        if a[i] != b[i] {
            assert(a@[i as int] != b@[i as int]);
            return false;
        }
        assert(a@.take(i + 1) == a@.take(i as int).push(a@[i as int]));
        assert(b@.take(i + 1) == b@.take(i as int).push(b@[i as int]));
        i = i + 1;
    }
    assert(a@ == a@.take(a.len() as int));
    assert(b@ == b@.take(b.len() as int));
    true
}

/// Whether `suffix` ends `s`.
pub open spec fn is_suffix(suffix: Seq<char>, s: Seq<char>) -> bool {
    suffix.len() <= s.len() && s.subrange(s.len() - suffix.len(), s.len() as int) == suffix
}

/// Whether `prefix` starts `s`.
pub open spec fn is_prefix(prefix: Seq<char>, s: Seq<char>) -> bool {
    prefix.len() <= s.len() && s.subrange(0, prefix.len() as int) == prefix
}

/// Whether the string slice `s` starts with `prefix`.
pub fn str_starts_with(s: &str, prefix: &str) -> (r: bool)
    ensures
        r == is_prefix(prefix@, s@),
{
    let sc = chars_of(s);
    let pc = chars_of(prefix);
    seq_starts_with(&sc, &pc)
}

/// Whether the string slice `s` ends with `suffix`.
pub fn str_ends_with(s: &str, suffix: &str) -> (r: bool)
    ensures
        r == is_suffix(suffix@, s@),
{
    let sc = chars_of(s);
    let pc = chars_of(suffix);
    if pc.len() > sc.len() {
        return false;
    }
    let off = sc.len() - pc.len();
    let mut i: usize = 0;
    while i < pc.len()
        invariant
            sc@ == s@,
            pc@ == suffix@,
            off + pc.len() == sc.len(),
            i <= pc.len(),
            forall|k: int| 0 <= k < i ==> sc@[off + k] == pc@[k],
        decreases pc.len() - i,
    {
        if sc[off + i] != pc[i] {
            assert(sc@.subrange(off as int, sc@.len() as int)[i as int] != pc@[i as int]);
            assert(sc@.subrange(off as int, sc@.len() as int) != pc@);
            assert(s@.len() - suffix@.len() == off);
            assert(!is_suffix(suffix@, s@));
            return false;
        }
        i = i + 1;
    }
    assert(sc@.subrange(off as int, sc@.len() as int) =~= pc@);
    true
}

/// Whether `cs` starts with `prefix`.
pub fn seq_starts_with(cs: &Vec<char>, prefix: &Vec<char>) -> (r: bool)
    ensures
        r == is_prefix(prefix@, cs@),
{
    if prefix.len() > cs.len() {
        return false;
    }
    let mut i: usize = 0;
    while i < prefix.len()
        invariant
            prefix.len() <= cs.len(),
            i <= prefix.len(),
            forall|k: int| 0 <= k < i ==> cs@[k] == prefix@[k],
        decreases prefix.len() - i,
    {
        if cs[i] != prefix[i] {
            assert(cs@.subrange(0, prefix.len() as int)[i as int] == cs@[i as int]);
            return false;
        }
        i = i + 1;
    }
    assert(cs@.subrange(0, prefix@.len() as int) =~= prefix@);
    true
}

/// Whether the character `c` occurs in `s`.
pub fn str_contains_char(s: &str, c: char) -> (r: bool)
    ensures
        r == s@.contains(c),
{
    let cs = chars_of(s);
    let mut i: usize = 0;
    while i < cs.len()
        invariant
            cs@ == s@,
            i <= cs.len(),
            forall|k: int| 0 <= k < i ==> cs@[k] != c,
        decreases cs.len() - i,
    {
        if cs[i] == c {
            return true;
        }
        i = i + 1;
    }
    false
}

/// Whether `sub` occurs in `s`.
pub open spec fn contains_seq(s: Seq<char>, sub: Seq<char>) -> bool {
    exists|i: int| 0 <= i && i + sub.len() <= s.len() && #[trigger] s.subrange(i, i + sub.len()) == sub
}

/// Whether `sub` occurs in `s` (`str::contains`).
pub fn str_contains(s: &str, sub: &str) -> (r: bool)
    ensures
        r == contains_seq(s@, sub@),
{
    let sc = chars_of(s);
    let pc = chars_of(sub);
    if pc.len() > sc.len() {
        assert(!contains_seq(s@, sub@));
        return false;
    }
    let mut i: usize = 0;
    while i <= sc.len() - pc.len()
        invariant
            sc@ == s@,
            pc@ == sub@,
            pc.len() <= sc.len(),
            i <= sc.len() - pc.len() + 1,
            forall|j: int| 0 <= j < i ==> #[trigger] s@.subrange(j, j + sub@.len()) != sub@,
        decreases sc.len() - i,
    {
        let mut k: usize = 0;
        let mut ok = true;
        while k < pc.len()
            invariant
                sc@ == s@,
                pc@ == sub@,
                i + pc.len() <= sc.len(),
                k <= pc.len(),
                ok == forall|q: int| 0 <= q < k ==> sc@[i + q] == pc@[q],
            decreases pc.len() - k,
        {
            if sc[i + k] != pc[k] {
                ok = false;
            }
            k = k + 1;
        }
        if ok {
            assert(s@.subrange(i as int, i + sub@.len()) =~= sub@);
            return true;
        }
        assert(s@.subrange(i as int, i + sub@.len()) != sub@) by {
            let q = choose|q: int| 0 <= q < pc.len() && sc@[i + q] != pc@[q];
            assert(s@.subrange(i as int, i + sub@.len())[q] != sub@[q]);
        };
        i = i + 1;
    }
    assert(!contains_seq(s@, sub@)) by {
        if contains_seq(s@, sub@) {
            let j = choose|j: int| 0 <= j && j + sub@.len() <= s@.len() && #[trigger] s@.subrange(j, j + sub@.len()) == sub@;
            assert(j < i);
        }
    };
    false
}

/// Equality of a string slice with a literal's characters.
pub fn str_is(s: &str, lit: &str) -> (r: bool)
    ensures
        r == (s@ == lit@),
{
    str_eq(s, lit)
}

} // verus!
