//! The mutation rules of the bug-injection tool: swapping an operator,
//! rewriting a constant, confusing a name with a similar one; and the
//! positions of a syntax tree where they apply.
use vstd::prelude::*;

use crate::parse::{hex_digit, hex_digit_exec, strip_plus, unsigned_digits};
use crate::similarity::{eligible, find_most_similar_name, is_most_similar, names_of};
use crate::text::{chars_of, is_prefix, is_uppercase, spec_is_uppercase, string_from_chars};

verus! {

/// The operator an operator is swapped with.
pub open spec fn swapped(op: Seq<char>) -> Option<Seq<char>> {
    if op == "+"@ {
        Some("-"@)
    } else if op == "-"@ {
        Some("+"@)
    } else if op == "*"@ {
        Some("/"@)
    } else if op == "/"@ {
        Some("*"@)
    } else if op == "&"@ {
        Some("|"@)
    } else if op == "|"@ {
        Some("&"@)
    } else if op == "&&"@ {
        Some("||"@)
    } else if op == "||"@ {
        Some("&&"@)
    } else if op == "=="@ {
        Some("!="@)
    } else if op == "!="@ {
        Some("=="@)
    } else if op == "<"@ {
        Some(">"@)
    } else if op == ">"@ {
        Some("<"@)
    } else if op == "<="@ {
        Some(">="@)
    } else if op == ">="@ {
        Some("<="@)
    } else {
        None
    }
}

/// The operator that replaces `op`, as `swapped` says.
pub fn swap_operator(op: &str) -> (r: Option<String>)
    ensures
        r matches Some(x) ==> swapped(op@) == Some(x@),
        r is None <==> swapped(op@) is None,
{
    let pairs: [(&str, &str); 14] = [
        ("+", "-"),
        ("-", "+"),
        ("*", "/"),
        ("/", "*"),
        ("&", "|"),
        ("|", "&"),
        ("&&", "||"),
        ("||", "&&"),
        ("==", "!="),
        ("!=", "=="),
        ("<", ">"),
        (">", "<"),
        ("<=", ">="),
        (">=", "<="),
    ];
    proof {
        reveal_strlit("+");
        reveal_strlit("-");
        reveal_strlit("*");
        reveal_strlit("/");
        reveal_strlit("&");
        reveal_strlit("|");
        reveal_strlit("&&");
        reveal_strlit("||");
        reveal_strlit("==");
        reveal_strlit("!=");
        reveal_strlit("<");
        reveal_strlit(">");
        reveal_strlit("<=");
        reveal_strlit(">=");
    }
    let mut i: usize = 0;
    while i < 14
        invariant
            i <= 14,
            pairs@.len() == 14,
            pairs@ == seq![
                ("+", "-"),
                ("-", "+"),
                ("*", "/"),
                ("/", "*"),
                ("&", "|"),
                ("|", "&"),
                ("&&", "||"),
                ("||", "&&"),
                ("==", "!="),
                ("!=", "=="),
                ("<", ">"),
                (">", "<"),
                ("<=", ">="),
                (">=", "<="),
            ],
            forall|j: int| 0 <= j < i ==> op@ != (#[trigger] pairs@[j]).0@,
        decreases 14 - i,
    {
        if crate::text::str_eq(op, pairs[i].0) {
            return Some(crate::text::string_of(pairs[i].1));
        }
        i = i + 1;
    }
    None
}

/// The value of a digit in base `radix` (up to 16).
pub open spec fn radix_digit(c: char, radix: nat) -> Option<int> {
    match hex_digit(c) {
        Some(d) => if d < radix {
            Some(d)
        } else {
            None
        },
        None => None,
    }
}

/// Every character is a digit in base `radix`.
pub open spec fn all_radix(s: Seq<char>, radix: nat) -> bool {
    forall|i: int| 0 <= i < s.len() ==> (#[trigger] radix_digit(s[i], radix)) is Some
}

/// The value of a string of digits in base `radix`.
pub open spec fn radix_value(s: Seq<char>, radix: nat) -> int
    decreases s.len(),
{
    if s.len() == 0 {
        0
    } else {
        radix_value(s.drop_last(), radix) * radix + radix_digit(s.last(), radix).unwrap()
    }
}

/// What `u64::from_str_radix(s, radix)` gives: an optional `+` and at least
/// one digit, with a value that fits in 64 bits.
pub open spec fn spec_parse_radix(s: Seq<char>, radix: nat) -> Option<nat> {
    let d = unsigned_digits(s);
    if d.len() > 0 && all_radix(d, radix) && radix_value(d, radix) < 0x1_0000_0000_0000_0000 {
        Some(radix_value(d, radix) as nat)
    } else {
        None
    }
}

proof fn lemma_radix_value_nonneg(s: Seq<char>, radix: nat)
    requires
        all_radix(s, radix),
    ensures
        radix_value(s, radix) >= 0,
    decreases s.len(),
{
    if s.len() > 0 {
        assert(all_radix(s.drop_last(), radix)) by {
            assert forall|i: int| 0 <= i < s.drop_last().len() implies (#[trigger] radix_digit(s.drop_last()[i], radix)) is Some by {
                assert(s.drop_last()[i] == s[i]);
            };
        };
        lemma_radix_value_nonneg(s.drop_last(), radix);
        assert(radix_digit(s[s.len() - 1], radix) is Some);
        let v = radix_value(s.drop_last(), radix);
        assert(v * radix >= 0) by (nonlinear_arith)
            requires
                v >= 0,
        ;
    }
}

proof fn lemma_radix_value_mono(s: Seq<char>, radix: nat, k: int)
    requires
        all_radix(s, radix),
        radix >= 1,
        0 <= k <= s.len(),
    ensures
        radix_value(s.take(k), radix) <= radix_value(s, radix),
    decreases s.len() - k,
{
    if k < s.len() {
        lemma_radix_value_mono(s, radix, k + 1);
        assert(s.take(k + 1).drop_last() =~= s.take(k));
        assert(all_radix(s.take(k), radix)) by {
            assert forall|i: int| 0 <= i < s.take(k).len() implies (#[trigger] radix_digit(s.take(k)[i], radix)) is Some by {
                assert(s.take(k)[i] == s[i]);
            };
        };
        lemma_radix_value_nonneg(s.take(k), radix);
        assert(radix_digit(s[k], radix) is Some);
        let v = radix_value(s.take(k), radix);
        assert(v * radix >= v) by (nonlinear_arith)
            requires
                v >= 0,
                radix >= 1,
        ;
    } else {
        assert(s.take(k) =~= s);
    }
}

/// Reads a number in base `radix` as `u64::from_str_radix` does.
pub fn parse_radix(text: &str, radix: u32) -> (r: Option<u64>)
    requires
        2 <= radix <= 16,
    ensures
        r matches Some(v) ==> spec_parse_radix(text@, radix as nat) == Some(v as nat),
        r is None ==> spec_parse_radix(text@, radix as nat) is None,
{
    let cs = chars_of(text);
    let d = strip_plus(&cs);
    if d.len() == 0 {
        return None;
    }
    let bound: u128 = 0x1_0000_0000_0000_0000;
    let mut acc: u128 = 0;
    let mut k: usize = 0;
    while k < d.len()
        invariant
            2 <= radix <= 16,
            bound == 0x1_0000_0000_0000_0000,
            d@ == unsigned_digits(text@),
            k <= d.len(),
            all_radix(d@.take(k as int), radix as nat),
            acc == radix_value(d@.take(k as int), radix as nat),
            acc < bound,
        decreases d.len() - k,
    {
        assert(d@.take(k + 1).drop_last() =~= d@.take(k as int));
        let v = match hex_digit_exec(d[k]) {
            Some(v) => v,
            None => {
                assert(!all_radix(d@, radix as nat)) by {
                    assert(radix_digit(d@[k as int], radix as nat) is None);
                };
                return None;
            },
        };
        if v >= radix {
            assert(!all_radix(d@, radix as nat)) by {
                assert(radix_digit(d@[k as int], radix as nat) is None);
            };
            return None;
        }
        assert(acc * (radix as u128) <= 0x1_0000_0000_0000_0000 * 16) by (nonlinear_arith)
            requires
                acc < 0x1_0000_0000_0000_0000,
                radix <= 16,
        ;
        let next: u128 = acc * (radix as u128) + (v as u128);
        proof {
            assert forall|i: int| 0 <= i < d@.take(k + 1).len() implies (#[trigger] radix_digit(d@.take(k + 1)[i], radix as nat)) is Some by {
                if i < k {
                    assert(d@.take(k + 1)[i] == d@.take(k as int)[i]);
                }
            };
        }
        if next >= bound {
            proof {
                if all_radix(d@, radix as nat) {
                    lemma_radix_value_mono(d@, radix as nat, k + 1);
                }
            }
            return None;
        }
        acc = next;
        k = k + 1;
    }
    assert(d@.take(d@.len() as int) =~= d@);
    Some(acc as u64)
}

/// The digit character of a value below 16, in upper case.
pub open spec fn digit_char(d: nat) -> char {
    "0123456789ABCDEF"@[d as int]
}

/// The digits of `v` in base `radix`, most significant first.
pub open spec fn to_digits(v: nat, radix: nat) -> Seq<char>
    decreases v,
{
    if radix < 2 || v < radix {
        seq![digit_char(v)]
    } else {
        proof {
            vstd::arithmetic::div_mod::lemma_div_decreases(v as int, radix as int);
        }
        to_digits(v / radix, radix).push(digit_char(v % radix))
    }
}

/// `s` preceded by zeros up to `w` characters.
pub open spec fn zero_pad(s: Seq<char>, w: nat) -> Seq<char> {
    if s.len() < w {
        Seq::new((w - s.len()) as nat, |i: int| '0') + s
    } else {
        s
    }
}

/// `r` to the power `n`.
pub open spec fn rpow(r: nat, n: nat) -> nat
    decreases n,
{
    if n == 0 {
        1
    } else {
        r * rpow(r, (n - 1) as nat)
    }
}

/// The new value of a constant: 1 for 0, else the drawn value.
pub open spec fn new_constant(old: nat, draw: nat) -> nat {
    if old == 0 {
        1
    } else {
        draw
    }
}

/// The text of a rewritten constant: the new value in the same base; a
/// decimal constant keeps its digits unless they grow beyond its width, when
/// the value is taken modulo `10^width` and written with leading zeros; other
/// constants are taken modulo `radix^width` and written with leading zeros
/// to their width. `None` when the text is not a number in that base.
pub open spec fn rewritten(text: Seq<char>, radix: nat, draw: nat) -> Option<Seq<char>> {
    match spec_parse_radix(text, radix) {
        None => None,
        Some(v) => {
            let n = new_constant(v, draw);
            let w = text.len();
            if radix == 10 && to_digits(n, 10).len() <= w {
                Some(to_digits(n, 10))
            } else {
                Some(zero_pad(to_digits(n % rpow(radix, w), radix), w))
            }
        },
    }
}

/// The digits of `v` in base `radix`.
fn digits_of(v: u64, radix: u64) -> (r: Vec<char>)
    requires
        2 <= radix <= 16,
    ensures
        r@ == to_digits(v as nat, radix as nat),
    decreases v,
{
    let table = chars_of("0123456789ABCDEF");
    proof {
        reveal_strlit("0123456789ABCDEF");
    }
    if v < radix {
        let mut r: Vec<char> = Vec::new();
        r.push(table[v as usize]);
        assert(r@ =~= seq![digit_char(v as nat)]);
        r
    } else {
        proof {
            vstd::arithmetic::div_mod::lemma_div_decreases(v as int, radix as int);
        }
        let mut r = digits_of(v / radix, radix);
        r.push(table[(v % radix) as usize]);
        r
    }
}

/// `radix` to the power `n`, when it fits in 64 bits.
fn checked_pow(radix: u64, n: usize) -> (r: Option<u64>)
    requires
        radix >= 2,
    ensures
        r matches Some(p) ==> p == rpow(radix as nat, n as nat),
        r is None ==> rpow(radix as nat, n as nat) > u64::MAX,
{
    let mut p: u64 = 1;
    let mut i: usize = 0;
    while i < n
        invariant
            radix >= 2,
            i <= n,
            p == rpow(radix as nat, i as nat),
        decreases n - i,
    {
        assert(rpow(radix as nat, (i + 1) as nat) == radix * rpow(radix as nat, i as nat));
        assert(p * radix == radix * p) by (nonlinear_arith);
        match p.checked_mul(radix) {
            Some(q) => {
                p = q;
                i = i + 1;
            },
            None => {
                proof {
                    lemma_rpow_grows(radix as nat, (i + 1) as nat, n as nat);
                }
                return None;
            },
        }
    }
    Some(p)
}

proof fn lemma_rpow_pos(r: nat, n: nat)
    requires
        r >= 1,
    ensures
        rpow(r, n) >= 1,
    decreases n,
{
    if n > 0 {
        lemma_rpow_pos(r, (n - 1) as nat);
        let p = rpow(r, (n - 1) as nat);
        assert(r * p >= 1) by (nonlinear_arith)
            requires
                r >= 1,
                p >= 1,
        ;
    }
}

proof fn lemma_rpow_grows(r: nat, a: nat, b: nat)
    requires
        r >= 1,
        a <= b,
    ensures
        rpow(r, a) <= rpow(r, b),
    decreases b - a,
{
    if a < b {
        lemma_rpow_grows(r, a, (b - 1) as nat);
        let p = rpow(r, (b - 1) as nat);
        assert(r * p >= p) by (nonlinear_arith)
            requires
                r >= 1,
        ;
    }
}

/// Rewrites a constant written in base `radix`, as `rewritten` says; `draw`
/// is the new value of a nonzero constant, drawn below it.
pub fn rewrite_constant(text: &str, radix: u32, draw: u64) -> (r: Option<String>)
    requires
        radix == 2 || radix == 8 || radix == 10 || radix == 16,
        radix == 2 ==> text@.len() < 64,
        radix == 8 ==> text@.len() * 3 < 64,
        radix == 16 ==> text@.len() * 4 < 64,
        spec_parse_radix(text@, radix as nat) is Some && spec_parse_radix(text@, radix as nat).unwrap() != 0 ==> draw
            < spec_parse_radix(text@, radix as nat).unwrap(),
    ensures
        r is Some <==> spec_parse_radix(text@, radix as nat) is Some,
        r matches Some(x) ==> rewritten(text@, radix as nat, draw as nat) == Some(x@),
{
    let v = match parse_radix(text, radix) {
        Some(v) => v,
        None => {
            return None;
        },
    };
    let n: u64 = if v == 0 { 1 } else { draw };
    let cs = chars_of(text);
    let w = cs.len();
    let r64 = radix as u64;
    if radix == 10 {
        let d = digits_of(n, 10);
        if d.len() <= w {
            return Some(string_from_chars(&d));
        }
    }
    let m: u64 = match checked_pow(r64, w) {
        Some(p) => {
            proof {
                lemma_rpow_pos(r64 as nat, w as nat);
            }
            n % p
        },
        None => {
            proof {
                vstd::arithmetic::div_mod::lemma_small_mod(n as nat, rpow(r64 as nat, w as nat));
            }
            n
        },
    };
    let d = digits_of(m, r64);
    let mut out: Vec<char> = Vec::new();
    let mut k: usize = d.len();
    assert(out@ =~= Seq::new(0, |i: int| '0'));
    while k < w
        invariant
            d.len() <= k,
            k <= w || k == d.len(),
            out@ == Seq::new((k - d.len()) as nat, |i: int| '0'),
        decreases w - k,
    {
        out.push('0');
        assert(out@ =~= Seq::new((k + 1 - d.len()) as nat, |i: int| '0'));
        k = k + 1;
    }
    let mut j: usize = 0;
    let ghost zeros = out@;
    while j < d.len()
        invariant
            j <= d@.len(),
            out@ == zeros + d@.take(j as int),
        decreases d@.len() - j,
    {
        out.push(d[j]);
        assert(zeros + d@.take(j + 1) =~= (zeros + d@.take(j as int)).push(d@[j as int]));
        j = j + 1;
    }
    assert(d@.take(d@.len() as int) =~= d@);
    proof {
        if d@.len() >= w {
            assert(zeros =~= Seq::<char>::empty());
        }
        assert(out@ =~= zero_pad(d@, w as nat));
    }
    Some(string_from_chars(&out))
}

/// `s` with every occurrence of `p`, from the left and not overlapping,
/// replaced by `rep`, as `str::replace` does for a nonempty pattern.
pub open spec fn replace_all(s: Seq<char>, p: Seq<char>, rep: Seq<char>) -> Seq<char>
    decreases s.len(),
{
    if s.len() == 0 || p.len() == 0 {
        s
    } else if is_prefix(p, s) {
        rep + replace_all(s.skip(p.len() as int), p, rep)
    } else {
        seq![s[0]] + replace_all(s.drop_first(), p, rep)
    }
}

/// Replaces every occurrence of `p` in `s` by `rep`, as `replace_all` says.
fn replace_str(s: &Vec<char>, p: &Vec<char>, rep: &Vec<char>) -> (r: Vec<char>)
    requires
        p@.len() > 0,
    ensures
        r@ == replace_all(s@, p@, rep@),
{
    let mut out: Vec<char> = Vec::new();
    let mut i: usize = 0;
    assert(s@.skip(0) =~= s@);
    while i < s.len()
        invariant
            i <= s@.len(),
            p@.len() > 0,
            out@ + replace_all(s@.skip(i as int), p@, rep@) == replace_all(s@, p@, rep@),
        decreases s@.len() - i,
    {
        let ghost rest = s@.skip(i as int);
        let mut matches = p.len() <= s.len() - i;
        let mut q: usize = 0;
        while matches && q < p.len()
            invariant
                q <= p@.len(),
                i < s@.len(),
                matches ==> i + p@.len() <= s@.len(),
                matches ==> forall|t: int| 0 <= t < q ==> s@[i + t] == p@[t],
                !matches ==> !is_prefix(p@, rest),
                rest == s@.skip(i as int),
            decreases p@.len() - q,
        {
            assert(i + q < s@.len());
            assert(s@.len() == s.len());
            let iq: usize = i + q;
            if s[iq] != p[q] {
                matches = false;
                assert(rest[q as int] != p@[q as int]);
            }
            q = q + 1;
        }
        if matches {
            assert(rest.subrange(0, p@.len() as int) =~= p@) by {
                assert forall|t: int| 0 <= t < p@.len() implies rest.subrange(0, p@.len() as int)[t] == p@[t] by {
                    assert(rest[t] == s@[i + t]);
                };
            };
            assert(is_prefix(p@, rest));
            let mut z: usize = 0;
            let ghost o0 = out@;
            while z < rep.len()
                invariant
                    z <= rep@.len(),
                    out@ == o0 + rep@.take(z as int),
                decreases rep@.len() - z,
            {
                out.push(rep[z]);
                assert(o0 + rep@.take(z + 1) =~= (o0 + rep@.take(z as int)).push(rep@[z as int]));
                z = z + 1;
            }
            assert(rep@.take(rep@.len() as int) =~= rep@);
            assert(rest.skip(p@.len() as int) =~= s@.skip(i + p@.len()));
            assert(o0 + (rep@ + replace_all(s@.skip(i + p@.len()), p@, rep@)) =~= out@ + replace_all(s@.skip(i + p@.len()), p@, rep@));
            i = i + p.len();
        } else {
            let ghost o0 = out@;
            out.push(s[i]);
            assert(rest.drop_first() =~= s@.skip(i + 1));
            assert(rest[0] == s@[i as int]);
            assert(o0 + (seq![rest[0]] + replace_all(rest.drop_first(), p@, rep@)) =~= out@ + replace_all(s@.skip(i + 1), p@, rep@));
            i = i + 1;
        }
    }
    assert(s@.skip(s@.len() as int) =~= Seq::<char>::empty());
    assert(out@ + Seq::<char>::empty() =~= out@);
    out
}

/// Whether a name holds an uppercase character.
pub open spec fn has_uppercase(s: Seq<char>) -> bool {
    exists|i: int| 0 <= i < s.len() && spec_is_uppercase(#[trigger] s[i])
}

/// Confuses `name` in an expression with the most similar of the
/// candidates: the expression with every occurrence of `name` replaced by
/// it. `None` when the name has an uppercase character (a constant) or no
/// candidate differs from it.
pub fn confuse_name(expr_text: &str, name: &str, candidates: &Vec<String>) -> (r: Option<String>)
    requires
        name@.len() > 0,
    ensures
        r is None <==> (has_uppercase(name@) || forall|k: int|
            0 <= k < candidates@.len() ==> !eligible(name@, names_of(candidates@), k)),
        r matches Some(x) ==> exists|k: int|
            is_most_similar(name@, names_of(candidates@), k) && x@ == replace_all(
                expr_text@,
                name@,
                #[trigger] names_of(candidates@)[k],
            ),
{
    let nc = chars_of(name);
    let mut i: usize = 0;
    while i < nc.len()
        invariant
            i <= nc@.len(),
            nc@ == name@,
            forall|j: int| 0 <= j < i ==> !spec_is_uppercase(#[trigger] nc@[j]),
        decreases nc@.len() - i,
    {
        if is_uppercase(nc[i]) {
            assert(has_uppercase(name@)) by {
                assert(spec_is_uppercase(name@[i as int]));
            };
            return None;
        }
        i = i + 1;
    }
    assert(!has_uppercase(name@));
    let best = match find_most_similar_name(name, candidates.as_slice()) {
        Some(b) => b,
        None => {
            return None;
        },
    };
    let ec = chars_of(expr_text);
    let bc = chars_of(best.as_str());
    let out = replace_str(&ec, &nc, &bc);
    let r = string_from_chars(&out);
    Some(r)
}

/// A node of a syntax tree where a rule may apply: an operator, a constant
/// (its digits, base and drawn new value), an expression (its text and the
/// name drawn from it), or another node.
pub enum MutationSite {
    Operator { text: String },
    Constant { text: String, radix: u32, draw: u64 },
    Expression { text: String, name: String },
    Other,
}

/// A node met in the walk of a syntax tree: the site, whether its line was
/// reached, and whether it lies in a port declaration.
pub struct SiteEvent {
    pub site: MutationSite,
    pub covered: bool,
    pub in_port: bool,
}

/// The constants of the sites can be rewritten as `rewrite_constant` asks.
pub open spec fn site_ok(s: MutationSite) -> bool {
    match s {
        MutationSite::Constant { text, radix, draw } => {
            &&& (radix == 2 || radix == 8 || radix == 10 || radix == 16)
            &&& (radix == 2 ==> text@.len() < 64)
            &&& (radix == 8 ==> text@.len() * 3 < 64)
            &&& (radix == 16 ==> text@.len() * 4 < 64)
            &&& (spec_parse_radix(text@, radix as nat) is Some && spec_parse_radix(text@, radix as nat).unwrap() != 0
                ==> draw < spec_parse_radix(text@, radix as nat).unwrap())
        },
        MutationSite::Expression { name, .. } => name@.len() > 0,
        _ => true,
    }
}

/// Which rule applies to a site and the replacement it gives: the operator
/// swap (rule 0), the constant rewrite (rule 1) or the name confusion (rule
/// 2, with `pick` the candidate chosen); `None` when none applies.
pub open spec fn site_replacement(s: MutationSite, names: Seq<Seq<char>>, pick: int) -> Option<(Seq<char>, usize)> {
    match s {
        MutationSite::Operator { text } => match swapped(text@) {
            Some(x) => Some((x, 0usize)),
            None => None,
        },
        MutationSite::Constant { text, radix, draw } => match rewritten(text@, radix as nat, draw as nat) {
            Some(x) => Some((x, 1usize)),
            None => None,
        },
        MutationSite::Expression { text, name } => if has_uppercase(name@) || !is_most_similar(name@, names, pick) {
            None
        } else {
            Some((replace_all(text@, name@, names[pick]), 2usize))
        },
        MutationSite::Other => None,
    }
}

/// The positions of the walk where a rule applies, outside port
/// declarations and on reached lines: (event index, replacement, rule).
pub fn mutation_positions(events: &Vec<SiteEvent>, candidates: &Vec<String>) -> (r: Vec<(usize, String, usize)>)
    requires
        forall|i: int| 0 <= i < events@.len() ==> site_ok(#[trigger] events@[i].site),
    ensures
        forall|j: int| 0 <= j < r@.len() ==> {
            let (e, x, rule) = #[trigger] r@[j];
            &&& e < events@.len()
            &&& events@[e as int].covered && !events@[e as int].in_port
            &&& exists|pick: int| site_replacement(events@[e as int].site, names_of(candidates@), pick) == Some((x@, rule))
        },
        forall|j: int, l: int| 0 <= j < l < r@.len() ==> (#[trigger] r@[j]).0 < (#[trigger] r@[l]).0,
        forall|e: int|
            0 <= e < events@.len() && events@[e].covered && !events@[e].in_port && (exists|pick: int|
                #[trigger] site_replacement(events@[e].site, names_of(candidates@), pick) is Some) ==> exists|j: int|
                0 <= j < r@.len() && (#[trigger] r@[j]).0 == e,
{
    let ghost names = names_of(candidates@);
    let mut r: Vec<(usize, String, usize)> = Vec::new();
    let mut i: usize = 0;
    while i < events.len()
        invariant
            i <= events@.len(),
            names == names_of(candidates@),
            forall|q: int| 0 <= q < events@.len() ==> site_ok(#[trigger] events@[q].site),
            forall|j: int| 0 <= j < r@.len() ==> {
                let (e, x, rule) = #[trigger] r@[j];
                &&& e < i
                &&& events@[e as int].covered && !events@[e as int].in_port
                &&& exists|pick: int| site_replacement(events@[e as int].site, names, pick) == Some((x@, rule))
            },
            forall|j: int, l: int| 0 <= j < l < r@.len() ==> (#[trigger] r@[j]).0 < (#[trigger] r@[l]).0,
            forall|e: int|
                0 <= e < i && events@[e].covered && !events@[e].in_port && (exists|pick: int|
                    #[trigger] site_replacement(events@[e].site, names, pick) is Some) ==> exists|j: int|
                    0 <= j < r@.len() && (#[trigger] r@[j]).0 == e,
        decreases events@.len() - i,
    {
        let ev = &events[i];
        let ghost old_r = r@;
        let mut found: Option<(String, usize)> = None;
        if ev.covered && !ev.in_port {
            assert(site_ok(events@[i as int].site));
            match &ev.site {
                MutationSite::Operator { text } => {
                    match swap_operator(text.as_str()) {
                        Some(x) => {
                            found = Some((x, 0));
                        },
                        None => {},
                    }
                },
                MutationSite::Constant { text, radix, draw } => {
                    match rewrite_constant(text.as_str(), *radix, *draw) {
                        Some(x) => {
                            found = Some((x, 1));
                        },
                        None => {},
                    }
                },
                MutationSite::Expression { text, name } => {
                    match confuse_name(text.as_str(), name.as_str(), candidates) {
                        Some(x) => {
                            found = Some((x, 2));
                        },
                        None => {
                            assert forall|pick: int| #[trigger] site_replacement(events@[i as int].site, names, pick) is None by {
                                if !has_uppercase(name@) && is_most_similar(name@, names, pick) {
                                    assert(eligible(name@, names, pick));
                                }
                            };
                        },
                    }
                },
                MutationSite::Other => {},
            }
        }
        match found {
            Some((x, rule)) => {
                r.push((i, x, rule));
                proof {
                    assert forall|j: int| 0 <= j < r@.len() implies {
                        let (e, x, rule) = #[trigger] r@[j];
                        &&& e < i + 1
                        &&& events@[e as int].covered && !events@[e as int].in_port
                        &&& exists|pick: int| site_replacement(events@[e as int].site, names, pick) == Some((x@, rule))
                    } by {
                        if j < old_r.len() {
                            assert(r@[j] == old_r[j]);
                        } else {
                            let e = i as int;
                            match events@[e].site {
                                MutationSite::Expression { text, name } => {
                                    let pick = choose|k: int| is_most_similar(name@, names, k) && r@[j].1@ == replace_all(text@, name@, #[trigger] names[k]);
                                    assert(site_replacement(events@[e].site, names, pick) == Some((r@[j].1@, r@[j].2)));
                                },
                                _ => {
                                    assert(site_replacement(events@[e].site, names, 0) == Some((r@[j].1@, r@[j].2)));
                                },
                            }
                        }
                    };
                    assert forall|e: int|
                        0 <= e < i + 1 && events@[e].covered && !events@[e].in_port && (exists|pick: int|
                            #[trigger] site_replacement(events@[e].site, names, pick) is Some) implies exists|j: int|
                            0 <= j < r@.len() && (#[trigger] r@[j]).0 == e by {
                        if e < i {
                            let j = choose|j: int| 0 <= j < old_r.len() && (#[trigger] old_r[j]).0 == e;
                            assert(r@[j] == old_r[j]);
                        } else {
                            assert(r@[old_r.len() as int].0 == e);
                        }
                    };
                }
            },
            None => {
                proof {
                    assert forall|e: int|
                        0 <= e < i + 1 && events@[e].covered && !events@[e].in_port && (exists|pick: int|
                            #[trigger] site_replacement(events@[e].site, names, pick) is Some) implies exists|j: int|
                            0 <= j < r@.len() && (#[trigger] r@[j]).0 == e by {
                        if e == i {
                            let pick = choose|pick: int| #[trigger] site_replacement(events@[e].site, names, pick) is Some;
                            assert(site_replacement(events@[e].site, names, pick) is Some);
                        }
                    };
                }
            },
        }
        i = i + 1;
    }
    r
}

/// The operator swap changes the operator, and swapping back restores it.
pub proof fn lemma_swap_involution(op: Seq<char>)
    ensures
        swapped(op) matches Some(x) ==> x != op && swapped(x) == Some(op),
{
    reveal_strlit("+");
    reveal_strlit("-");
    reveal_strlit("*");
    reveal_strlit("/");
    reveal_strlit("&");
    reveal_strlit("|");
    reveal_strlit("&&");
    reveal_strlit("||");
    reveal_strlit("==");
    reveal_strlit("!=");
    reveal_strlit("<");
    reveal_strlit(">");
    reveal_strlit("<=");
    reveal_strlit(">=");
    assert("+"@.len() == 1);
    assert("+"@[0] == '+');
    assert("-"@.len() == 1);
    assert("-"@[0] == '-');
    assert("*"@.len() == 1);
    assert("*"@[0] == '*');
    assert("/"@.len() == 1);
    assert("/"@[0] == '/');
    assert("&"@.len() == 1);
    assert("&"@[0] == '&');
    assert("|"@.len() == 1);
    assert("|"@[0] == '|');
    assert("&&"@.len() == 2);
    assert("&&"@[0] == '&');
    assert("&&"@[1] == '&');
    assert("||"@.len() == 2);
    assert("||"@[0] == '|');
    assert("||"@[1] == '|');
    assert("=="@.len() == 2);
    assert("=="@[0] == '=');
    assert("=="@[1] == '=');
    assert("!="@.len() == 2);
    assert("!="@[0] == '!');
    assert("!="@[1] == '=');
    assert("<"@.len() == 1);
    assert("<"@[0] == '<');
    assert(">"@.len() == 1);
    assert(">"@[0] == '>');
    assert("<="@.len() == 2);
    assert("<="@[0] == '<');
    assert("<="@[1] == '=');
    assert(">="@.len() == 2);
    assert(">="@[0] == '>');
    assert(">="@[1] == '=');
    if swapped(op) is Some {
        let x = swapped(op).unwrap();
        assert(x.len() == op.len());
        assert(x[0] != op[0] || x[x.len() - 1] != op[op.len() - 1]);
    }
}

} // verus!
