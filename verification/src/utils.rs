//! Helpers on hierarchical scope names and signal names, and frequency ranking.
use vstd::prelude::*;
use vstd::string::StrSliceExecFns;

use crate::text::{chars_of, string_from_chars};
use std::cmp::Ordering;
use vstd::laws_cmp::obeys_cmp;
use vstd::std_specs::cmp::{OrdSpec, PartialEqSpec, PartialOrdSpec};
use vstd::laws_eq::obeys_concrete_eq;

verus! {

/// The position of the last `c` among the first `n` characters of `s`.
pub open spec fn last_index_of(s: Seq<char>, c: char, n: int) -> Option<int>
    decreases n,
{
    if n <= 0 {
        None
    } else if s[n - 1] == c {
        Some(n - 1)
    } else {
        last_index_of(s, c, n - 1)
    }
}

proof fn lemma_last_index_of_bound(s: Seq<char>, c: char, n: int)
    ensures
        last_index_of(s, c, n) matches Some(p) ==> 0 <= p < n && s[p] == c,
    decreases n,
{
    if n > 0 {
        lemma_last_index_of_bound(s, c, n - 1);
    }
}

/// The position of the last `c` before position `n` of `cs`.
fn find_last(cs: &Vec<char>, c: char, n: usize) -> (r: Option<usize>)
    requires
        n <= cs.len(),
    ensures
        r matches Some(p) ==> last_index_of(cs@, c, n as int) == Some(p as int),
        r is None ==> last_index_of(cs@, c, n as int) is None,
{
    let mut i: usize = n;
    while i > 0
        invariant
            i <= n <= cs.len(),
            last_index_of(cs@, c, n as int) == last_index_of(cs@, c, i as int),
        decreases i,
    {
        if cs[i - 1] == c {
            return Some(i - 1);
        }
        i = i - 1;
    }
    None
}

/// The enclosing scope of a dotted scope name: all before the last `.`, if any.
pub open spec fn spec_last_scope(s: Seq<char>) -> Option<Seq<char>> {
    match last_index_of(s, '.', s.len() as int) {
        Some(p) => Some(s.subrange(0, p)),
        None => None,
    }
}

/// The enclosing scope is shorter than the scope and followed in it by a `.`.
pub proof fn lemma_last_scope(s: Seq<char>)
    ensures
        spec_last_scope(s) matches Some(l) ==> l.len() < s.len() && crate::text::is_prefix(l.push('.'), s),
{
    lemma_last_index_of_bound(s, '.', s.len() as int);
    if let Some(p) = last_index_of(s, '.', s.len() as int) {
        assert(s.subrange(0, p + 1) =~= s.subrange(0, p).push('.'));
    }
}

/// The enclosing scope of `scope_name` (`"TOP.ex.alu"` gives `"TOP.ex"`), or
/// `None` for a top-level scope.
pub fn get_last_scope(scope_name: &str) -> (r: Option<&str>)
    ensures
        r matches Some(x) ==> spec_last_scope(scope_name@) == Some(x@),
        r is None ==> spec_last_scope(scope_name@) is None,
{
    let cs = chars_of(scope_name);
    match find_last(&cs, '.', cs.len()) {
        Some(p) => {
            proof {
                lemma_last_index_of_bound(cs@, '.', cs@.len() as int);
            }
            Some(scope_name.substring_char(0, p))
        },
        None => None,
    }
}

/// The scope of the instance `dut_name` inside `scope_name`: the two joined by `.`.
pub fn get_next_scope(scope_name: &str, dut_name: &str) -> (r: Option<String>)
    ensures
        r matches Some(x) && x@ == scope_name@ + seq!['.'] + dut_name@,
{
    let mut cs = chars_of(scope_name);
    cs.push('.');
    let ds = chars_of(dut_name);
    let mut i: usize = 0;
    let ghost base = cs@;
    while i < ds.len()
        invariant
            i <= ds.len(),
            cs@ == base + ds@.take(i as int),
        decreases ds.len() - i,
    {
        cs.push(ds[i]);
        assert(ds@.take(i + 1) == ds@.take(i as int).push(ds@[i as int]));
        i = i + 1;
    }
    assert(ds@.take(ds@.len() as int) == ds@);
    Some(string_from_chars(&cs))
}

/// Where the meaningful suffix of a signal name starts: after the
/// second-to-last `_`, or at the start when there are fewer than two `_`.
pub open spec fn suffix_start(s: Seq<char>) -> int {
    match last_index_of(s, '_', s.len() as int) {
        Some(p) => match last_index_of(s, '_', p) {
            Some(q) => q + 1,
            None => 0,
        },
        None => 0,
    }
}

/// The last two `_`-separated segments of a signal name, which survive the
/// renaming of signals at module boundaries (`io_in_bits_func` gives
/// `bits_func`); the whole name when it has fewer than two `_`.
pub fn extract_signal_suffix(signal_name: &str) -> (r: &str)
    ensures
        r@ == signal_name@.subrange(suffix_start(signal_name@), signal_name@.len() as int),
{
    let cs = chars_of(signal_name);
    proof {
        lemma_last_index_of_bound(cs@, '_', cs@.len() as int);
    }
    let start = match find_last(&cs, '_', cs.len()) {
        Some(p) => {
            proof {
                lemma_last_index_of_bound(cs@, '_', p as int);
            }
            match find_last(&cs, '_', p) {
                Some(q) => q + 1,
                None => 0,
            }
        },
        None => 0,
    };
    signal_name.substring_char(start, cs.len())
}

/// How often `x` occurs in `s`.
pub open spec fn occ<T>(s: Seq<T>, x: T) -> nat
    decreases s.len(),
{
    if s.len() == 0 {
        0
    } else {
        (if s[0] == x { 1nat } else { 0nat }) + occ(s.drop_first(), x)
    }
}

proof fn lemma_occ_bound<T>(s: Seq<T>, x: T)
    ensures
        occ(s, x) <= s.len(),
        s.contains(x) ==> occ(s, x) >= 1,
        !s.contains(x) ==> occ(s, x) == 0,
    decreases s.len(),
{
    if s.len() > 0 {
        lemma_occ_bound(s.drop_first(), x);
        if s.contains(x) && s[0] != x {
            let j = choose|j: int| 0 <= j < s.len() && s[j] == x;
            assert(s.drop_first()[j - 1] == x);
        }
        if s.drop_first().contains(x) {
            let j = choose|j: int| 0 <= j < s.drop_first().len() && s.drop_first()[j] == x;
            assert(s[j + 1] == x);
        }
    }
}

/// `a` comes before `b` in the order of `Ord`.
pub open spec fn item_less<T: Ord>(a: T, b: T) -> bool {
    a.cmp_spec(&b) == Ordering::Less
}

/// The ranking order of (item, count) pairs: higher counts first, then
/// smaller items first.
pub open spec fn ranks_before<T: Ord>(a: (T, usize), b: (T, usize)) -> bool {
    a.1 > b.1 || (a.1 == b.1 && item_less(a.0, b.0))
}

/// The laws of a total order, as `Ord` promises them.
proof fn lemma_item_order<T: Ord>()
    requires
        obeys_cmp::<T>(),
        obeys_concrete_eq::<T>(),
    ensures
        forall|a: T| !item_less(a, a),
        forall|a: T, b: T| a != b ==> (#[trigger] item_less(a, b) <==> !item_less(b, a)),
        forall|a: T, b: T, c: T| #[trigger] item_less(a, b) && #[trigger] item_less(b, c) ==> item_less(a, c),
{
    reveal(vstd::laws_cmp::obeys_partial_cmp_spec_properties);
    reveal(vstd::laws_cmp::obeys_cmp_partial_ord);
    reveal(vstd::laws_cmp::obeys_cmp_ord);
    reveal(obeys_concrete_eq);
    assert forall|a: T| !item_less(a, a) by {
        assert(a.partial_cmp_spec(&a) == Some(a.cmp_spec(&a)));
        assert(a.eq_spec(&a));
    };
    assert forall|a: T, b: T| a != b implies (#[trigger] item_less(a, b) <==> !item_less(b, a)) by {
        assert(a.partial_cmp_spec(&b) == Some(a.cmp_spec(&b)));
        assert(b.partial_cmp_spec(&a) == Some(b.cmp_spec(&a)));
        assert(!a.eq_spec(&b));
    };
    assert forall|a: T, b: T, c: T| #[trigger] item_less(a, b) && #[trigger] item_less(b, c) implies item_less(a, c) by {
        assert(a.partial_cmp_spec(&b) == Some(a.cmp_spec(&b)));
        assert(b.partial_cmp_spec(&c) == Some(b.cmp_spec(&c)));
        assert(a.partial_cmp_spec(&c) == Some(a.cmp_spec(&c)));
    };
}

fn ranks_before_exec<T: Ord>(a: &(T, usize), b: &(T, usize)) -> (r: bool)
    requires
        obeys_cmp::<T>(),
    ensures
        r == ranks_before(*a, *b),
{
    if a.1 != b.1 {
        return a.1 > b.1;
    }
    reveal(vstd::laws_cmp::obeys_cmp_ord);
    match a.0.cmp(&b.0) {
        Ordering::Less => true,
        Ordering::Equal => false,
        Ordering::Greater => false,
    }
}

/// The items of a sequence of pairs are pairwise distinct.
pub open spec fn distinct_items<T>(s: Seq<(T, usize)>) -> bool {
    forall|i: int, j: int| 0 <= i < j < s.len() ==> s[i].0 != s[j].0
}

/// A sequence of pairs strictly ordered by rank.
pub open spec fn rank_sorted<T: Ord>(s: Seq<(T, usize)>) -> bool {
    forall|i: int, j: int| 0 <= i < j < s.len() ==> ranks_before(#[trigger] s[i], #[trigger] s[j])
}

/// Each distinct item of `items` with the number of its occurrences.
fn count_items<T: Eq>(items: Vec<T>) -> (r: Vec<(T, usize)>)
    requires
        obeys_concrete_eq::<T>(),
    ensures
        distinct_items(r@),
        forall|j: int| 0 <= j < r@.len() ==> #[trigger] r@[j].1 == occ(items@, r@[j].0) && items@.contains(r@[j].0),
        forall|x: T| items@.contains(x) ==> exists|j: int| 0 <= j < r@.len() && #[trigger] r@[j].0 == x,
{
    reveal(obeys_concrete_eq);
    let n0 = items.len();
    let ghost orig = items@;
    let mut items = items;
    let mut counts: Vec<(T, usize)> = Vec::new();
    let ghost mut done: Seq<T> = Seq::empty();
    assert(orig == items@ + done);
    while items.len() > 0
        invariant
            orig.len() <= usize::MAX,
            obeys_concrete_eq::<T>(),
            T::obeys_eq_spec(),
            forall|x: T, y: T| x.eq_spec(&y) <==> x == y,
            orig == items@ + done,
            distinct_items(counts@),
            forall|j: int| 0 <= j < counts@.len() ==> #[trigger] counts@[j].1 == occ(done, counts@[j].0) && done.contains(counts@[j].0),
            forall|x: T| done.contains(x) ==> exists|j: int| 0 <= j < counts@.len() && #[trigger] counts@[j].0 == x,
        decreases items.len(),
    {
        let ghost before_items = items@;
        let x = items.pop().unwrap();
        let ghost new_done = seq![x] + done;
        proof {
            assert(before_items == items@.push(x));
            assert(orig == items@ + new_done) by {
                assert(orig =~= items@ + new_done);
            };
            assert(new_done.drop_first() =~= done);
            assert(forall|y: T| #[trigger] occ(new_done, y) == (if x == y { 1nat } else { 0nat }) + occ(done, y));
            lemma_occ_bound(done, x);
            assert(done.len() + 1 <= orig.len());
            assert(new_done[0] == x);
            assert forall|y: T| done.contains(y) implies #[trigger] new_done.contains(y) by {
                let j = choose|j: int| 0 <= j < done.len() && done[j] == y;
                assert(new_done[j + 1] == y);
            };
        }
        let mut j: usize = 0;
        let mut found = false;
        while j < counts.len()
            invariant_except_break
                !found,
            invariant
                T::obeys_eq_spec(),
                forall|a: T, b: T| a.eq_spec(&b) <==> a == b,
                j <= counts.len(),
                forall|m: int| 0 <= m < j ==> counts@[m].0 != x,
            ensures
                j <= counts.len(),
                found ==> j < counts.len() && counts@[j as int].0 == x,
                !found ==> forall|m: int| 0 <= m < counts.len() ==> counts@[m].0 != x,
            decreases counts.len() - j,
        {
            if counts[j].0 == x {
                found = true;
                break;
            }
            j = j + 1;
        }
        let ghost old_counts = counts@;
        if found {
            let (k, c) = counts.remove(j);
            proof {
                assert(c == occ(done, x));
                lemma_occ_bound(done, x);
            }
            counts.insert(j, (k, c + 1));
            proof {
                assert(counts@ =~= old_counts.update(j as int, (k, (c + 1) as usize)));
            }
        } else {
            counts.push((x, 1));
            proof {
                lemma_occ_bound(done, x);
            }
        }
        proof {
            let old_done = done;
            done = new_done;
            assert forall|m: int| 0 <= m < counts@.len() implies #[trigger] counts@[m].1 == occ(done, counts@[m].0)
                && done.contains(counts@[m].0) by {
                if m < old_counts.len() && !(found && m == j) {
                    assert(counts@[m] == old_counts[m]);
                    assert(old_counts[m].0 != x);
                    assert(old_counts[m].1 == occ(old_done, old_counts[m].0));
                    assert(occ(new_done, old_counts[m].0) == occ(old_done, old_counts[m].0));
                    assert(old_done.contains(old_counts[m].0));
                    assert(new_done.contains(old_counts[m].0));
                } else {
                    assert(counts@[m].0 == x);
                    assert(occ(new_done, x) == 1 + occ(old_done, x));
                    assert(new_done.contains(x));
                }
            };
            assert forall|y: T| done.contains(y) implies exists|m: int| 0 <= m < counts@.len() && #[trigger] counts@[m].0 == y by {
                if y == x {
                    if found {
                        assert(counts@[j as int].0 == y);
                    } else {
                        assert(counts@[old_counts.len() as int].0 == y);
                    }
                } else {
                    let k = choose|k: int| 0 <= k < new_done.len() && new_done[k] == y;
                    assert(k > 0);
                    assert(done.drop_first()[k - 1] == y);
                    assert(done.drop_first().contains(y));
                    assert(new_done.drop_first() == done.drop_first()) by {
                        assert(new_done.drop_first() =~= done.drop_first());
                    };
                    let m2 = choose|m2: int| 0 <= m2 < old_counts.len() && #[trigger] old_counts[m2].0 == y;
                    assert(counts@[m2] == old_counts[m2] || m2 == j);
                }
            };
        }
    }
    assert(items@ =~= Seq::<T>::empty());
    assert(orig =~= done);
    assert forall|j: int| 0 <= j < counts@.len() implies #[trigger] counts@[j].1 == occ(orig, counts@[j].0)
        && orig.contains(counts@[j].0) by {};
    counts
}

/// The ranking order is a strict total order on pairs of distinct items.
proof fn lemma_rank_order<T: Ord>()
    requires
        obeys_cmp::<T>(),
        obeys_concrete_eq::<T>(),
    ensures
        forall|a: (T, usize), b: (T, usize)| a.0 != b.0 ==> (#[trigger] ranks_before(a, b) <==> !ranks_before(b, a)),
        forall|a: (T, usize)| !ranks_before(a, a),
        forall|a: (T, usize), b: (T, usize), c: (T, usize)|
            #[trigger] ranks_before(a, b) && #[trigger] ranks_before(b, c) ==> ranks_before(a, c),
{
    lemma_item_order::<T>();
}

/// The item of `x` with the number of its occurrences in `s`.
pub open spec fn counted<T>(s: Seq<T>, x: T) -> (T, usize) {
    (x, occ(s, x) as usize)
}

/// Inserting `x` where the ranking puts it keeps the invariant of the
/// ranking sort.
proof fn lemma_insert_ranked<T: Ord>(
    all: Seq<(T, usize)>,
    before_v: Seq<(T, usize)>,
    v: Seq<(T, usize)>,
    old_out: Seq<(T, usize)>,
    out: Seq<(T, usize)>,
    x: (T, usize),
    p: usize,
)
    requires
        before_v == v.push(x),
        p <= old_out.len(),
        out == old_out.insert(p as int, x),
        forall|q: int| 0 <= q < p ==> !ranks_before(x, #[trigger] old_out[q]),
        p < old_out.len() ==> ranks_before(x, old_out[p as int]),
        rank_sorted(old_out),
        distinct_items(old_out),
        distinct_items(before_v),
        forall|i: int, j: int| 0 <= i < before_v.len() && 0 <= j < old_out.len() ==> before_v[i].0 != old_out[j].0,
        forall|e: (T, usize)| all.contains(e) <==> (old_out.contains(e) || before_v.contains(e)),
        forall|a: (T, usize), b: (T, usize)| a.0 != b.0 ==> (#[trigger] ranks_before(a, b) <==> !ranks_before(b, a)),
        forall|a: (T, usize), b: (T, usize), c: (T, usize)|
            #[trigger] ranks_before(a, b) && #[trigger] ranks_before(b, c) ==> ranks_before(a, c),
    ensures
        rank_sorted(out),
        distinct_items(out),
        distinct_items(v),
        forall|i: int, j: int| 0 <= i < v.len() && 0 <= j < out.len() ==> v[i].0 != out[j].0,
        forall|e: (T, usize)| all.contains(e) <==> (out.contains(e) || v.contains(e)),
{
    let pi = p as int;
    assert(before_v[before_v.len() - 1] == x);
    assert forall|q: int| 0 <= q < old_out.len() implies old_out[q].0 != x.0 by {
        assert(before_v[before_v.len() - 1] == x);
    };
    assert forall|i: int, j: int| 0 <= i < j < out.len() implies ranks_before(#[trigger] out[i], #[trigger] out[j]) by {
        if j < pi {
            assert(out[i] == old_out[i] && out[j] == old_out[j]);
        } else if j == pi {
            assert(out[i] == old_out[i]);
            assert(!ranks_before(x, old_out[i]));
        } else if i == pi {
            assert(out[j] == old_out[j - 1]);
            assert(ranks_before(x, old_out[pi]));
            if j - 1 > pi {
                assert(ranks_before(old_out[pi], old_out[j - 1]));
            }
        } else if i < pi {
            assert(out[i] == old_out[i] && out[j] == old_out[j - 1]);
        } else {
            assert(out[i] == old_out[i - 1] && out[j] == old_out[j - 1]);
        }
    };
    assert forall|i: int, j: int| 0 <= i < j < out.len() implies out[i].0 != out[j].0 by {
        if j < pi {
            assert(out[i] == old_out[i] && out[j] == old_out[j]);
        } else if j == pi {
            assert(out[i] == old_out[i]);
        } else if i == pi {
            assert(out[j] == old_out[j - 1]);
        } else if i < pi {
            assert(out[i] == old_out[i] && out[j] == old_out[j - 1]);
        } else {
            assert(out[i] == old_out[i - 1] && out[j] == old_out[j - 1]);
        }
    };
    assert forall|i: int, j: int| 0 <= i < j < v.len() implies v[i].0 != v[j].0 by {
        assert(v[i] == before_v[i] && v[j] == before_v[j]);
    };
    assert forall|i: int, j: int| 0 <= i < v.len() && 0 <= j < out.len() implies v[i].0 != out[j].0 by {
        assert(v[i] == before_v[i]);
        if j < pi {
            assert(out[j] == old_out[j]);
        } else if j == pi {
        } else {
            assert(out[j] == old_out[j - 1]);
        }
    };
    assert forall|e: (T, usize)| all.contains(e) <==> (out.contains(e) || v.contains(e)) by {
        if old_out.contains(e) {
            let j = choose|j: int| 0 <= j < old_out.len() && old_out[j] == e;
            if j < pi {
                assert(out[j] == e);
            } else {
                assert(out[j + 1] == e);
            }
        }
        if e == x {
            assert(out[pi] == e);
        }
        if v.contains(e) {
            let j = choose|j: int| 0 <= j < v.len() && v[j] == e;
            assert(before_v[j] == e);
        }
        if before_v.contains(e) && e != x {
            let j = choose|j: int| 0 <= j < before_v.len() && before_v[j] == e;
            assert(j < v.len());
            assert(v[j] == e);
        }
        if out.contains(e) {
            let j = choose|j: int| 0 <= j < out.len() && out[j] == e;
            if j < pi {
                assert(old_out[j] == e);
            } else if j > pi {
                assert(old_out[j - 1] == e);
            }
        }
    };
}

/// Sorts pairs with distinct items by rank.
fn rank_sort<T: Ord>(v: Vec<(T, usize)>) -> (r: Vec<(T, usize)>)
    requires
        obeys_cmp::<T>(),
        obeys_concrete_eq::<T>(),
        distinct_items(v@),
    ensures
        rank_sorted(r@),
        distinct_items(r@),
        forall|e: (T, usize)| r@.contains(e) <==> v@.contains(e),
{
    proof {
        lemma_rank_order::<T>();
    }
    let ghost all = v@;
    let mut v = v;
    let mut out: Vec<(T, usize)> = Vec::new();
    while v.len() > 0
        invariant
            obeys_cmp::<T>(),
            rank_sorted(out@),
            distinct_items(out@),
            distinct_items(v@),
            forall|i: int, j: int| 0 <= i < v@.len() && 0 <= j < out@.len() ==> v@[i].0 != out@[j].0,
            forall|e: (T, usize)| all.contains(e) <==> (out@.contains(e) || v@.contains(e)),
            forall|a: (T, usize), b: (T, usize)| a.0 != b.0 ==> (#[trigger] ranks_before(a, b) <==> !ranks_before(b, a)),
            forall|a: (T, usize), b: (T, usize), c: (T, usize)|
                #[trigger] ranks_before(a, b) && #[trigger] ranks_before(b, c) ==> ranks_before(a, c),
        decreases v.len(),
    {
        let ghost before_v = v@;
        let x = v.pop().unwrap();
        proof {
            assert(before_v == v@.push(x));
        }
        let mut p: usize = 0;
        while p < out.len() && !ranks_before_exec(&x, &out[p])
            invariant
                obeys_cmp::<T>(),
                p <= out.len(),
                forall|q: int| 0 <= q < p ==> !ranks_before(x, #[trigger] out@[q]),
            decreases out.len() - p,
        {
            p = p + 1;
        }
        let ghost old_out = out@;
        out.insert(p, x);
        proof {
            lemma_insert_ranked(all, before_v, v@, old_out, out@, x, p);
        }
    }
    out
}

/// The `k` most frequent items with their counts, the most frequent first and
/// equally frequent items in ascending order; all of them when there are fewer
/// than `k` distinct items.
pub fn top_k_items<T>(items: Vec<T>, k: usize) -> (r: Vec<(T, usize)>)
    where
        T: Eq + std::hash::Hash + Clone + Ord,
    requires
        obeys_cmp::<T>(),
        obeys_concrete_eq::<T>(),
    ensures
        r@.len() <= k,
        rank_sorted(r@),
        forall|i: int| 0 <= i < r@.len() ==> #[trigger] r@[i] == counted(items@, r@[i].0) && items@.contains(r@[i].0),
        forall|x: T| items@.contains(x) ==> (exists|i: int| 0 <= i < r@.len() && #[trigger] r@[i].0 == x) || (r@.len()
            == k && forall|i: int| 0 <= i < r@.len() ==> ranks_before(#[trigger] r@[i], counted(items@, x))),
{
    let ghost orig = items@;
    let n = items.len();
    let counts = count_items(items);
    let mut sorted = rank_sort(counts);
    proof {
        lemma_rank_order::<T>();
        assert forall|j: int| 0 <= j < sorted@.len() implies #[trigger] sorted@[j] == counted(orig, sorted@[j].0)
            && orig.contains(sorted@[j].0) by {
            assert(counts@.contains(sorted@[j]));
            let m = choose|m: int| 0 <= m < counts@.len() && counts@[m] == sorted@[j];
            assert(counts@[m].1 == occ(orig, counts@[m].0));
        };
        assert forall|x: T| orig.contains(x) implies exists|j: int| 0 <= j < sorted@.len() && #[trigger] sorted@[j].0 == x by {
            let m = choose|m: int| 0 <= m < counts@.len() && #[trigger] counts@[m].0 == x;
            assert(counts@.contains(counts@[m]));
            assert(sorted@.contains(counts@[m]));
            let j = choose|j: int| 0 <= j < sorted@.len() && sorted@[j] == counts@[m];
            assert(sorted@[j].0 == x);
        };
    }
    let ghost full = sorted@;
    sorted.truncate(k);
    proof {
        assert forall|x: T| orig.contains(x) implies (exists|i: int| 0 <= i < sorted@.len() && #[trigger] sorted@[i].0 == x) || (
            sorted@.len() == k && forall|i: int| 0 <= i < sorted@.len() ==> ranks_before(#[trigger] sorted@[i], counted(orig, x))) by {
            let j = choose|j: int| 0 <= j < full.len() && #[trigger] full[j].0 == x;
            if j < sorted@.len() {
                assert(sorted@[j] == full[j]);
            } else {
                assert(full[j] == counted(orig, x));
                assert forall|i: int| 0 <= i < sorted@.len() implies ranks_before(#[trigger] sorted@[i], counted(orig, x)) by {
                    assert(sorted@[i] == full[i]);
                    assert(ranks_before(full[i], full[j]));
                };
            }
        };
    }
    sorted
}

} // verus!
