//! Majority votes over the answers of several checkers: which signals to
//! follow next, ranked by how many answers name them.
use vstd::prelude::*;

use crate::block::{node_text, BlockType, NodeID, NodeKey, NodeLocate, TimeAnnotation};
use crate::dfb::DataFlowBlock;
use crate::mgr::BlockManager;
use crate::tracer::EarlyStop;
use crate::utils::{get_last_scope, spec_last_scope};
use crate::text::{chars_of, str_eq, string_of};
use crate::utils::{counted, occ, ranks_before, rank_sorted, top_k_items};

verus! {

/// The order of texts: by characters, a proper prefix first (the order of
/// `String`, as UTF-8 keeps the order of code points).
pub open spec fn text_lt(a: Seq<char>, b: Seq<char>) -> bool
    decreases a.len(),
{
    if a.len() == 0 {
        b.len() > 0
    } else if b.len() == 0 {
        false
    } else if a[0] != b[0] {
        a[0] < b[0]
    } else {
        text_lt(a.drop_first(), b.drop_first())
    }
}

/// The order of positions: field by field, in the order the fields are declared.
pub open spec fn locate_lt(a: NodeLocate, b: NodeLocate) -> bool {
    ||| a.offset < b.offset
    ||| a.offset == b.offset && a.line < b.line
    ||| a.offset == b.offset && a.line == b.line && a.original_line < b.original_line
    ||| a.offset == b.offset && a.line == b.line && a.original_line == b.original_line && a.len < b.len
}

/// The order of nodes: identifiers before literals, then by position, then by text.
pub open spec fn node_lt(a: NodeKey, b: NodeKey) -> bool {
    if a.ident != b.ident {
        a.ident
    } else if a.locate != b.locate {
        locate_lt(a.locate, b.locate)
    } else {
        text_lt(a.text, b.text)
    }
}

/// The order of timed nodes: by node, then by time.
pub open spec fn vote_lt(a: (NodeKey, TimeAnnotation), b: (NodeKey, TimeAnnotation)) -> bool {
    if a.0 != b.0 {
        node_lt(a.0, b.0)
    } else {
        a.1 < b.1
    }
}

proof fn lemma_text_lt_irreflexive(a: Seq<char>)
    ensures
        !text_lt(a, a),
    decreases a.len(),
{
    if a.len() > 0 {
        lemma_text_lt_irreflexive(a.drop_first());
    }
}

proof fn lemma_text_lt_transitive(a: Seq<char>, b: Seq<char>, c: Seq<char>)
    requires
        text_lt(a, b),
        text_lt(b, c),
    ensures
        text_lt(a, c),
    decreases a.len(),
{
    if a.len() > 0 && b.len() > 0 && c.len() > 0 && a[0] == b[0] && b[0] == c[0] {
        lemma_text_lt_transitive(a.drop_first(), b.drop_first(), c.drop_first());
    }
}

proof fn lemma_text_lt_total(a: Seq<char>, b: Seq<char>)
    requires
        a != b,
    ensures
        text_lt(a, b) || text_lt(b, a),
    decreases a.len(),
{
    if a.len() > 0 && b.len() > 0 && a[0] == b[0] {
        if a.drop_first() == b.drop_first() {
            assert(a =~= seq![a[0]] + a.drop_first());
            assert(b =~= seq![b[0]] + b.drop_first());
        }
        lemma_text_lt_total(a.drop_first(), b.drop_first());
    } else if a.len() == 0 && b.len() == 0 {
        assert(a =~= b);
    }
}

/// The order of timed nodes is a strict total order.
pub proof fn lemma_vote_order()
    ensures
        forall|a: (NodeKey, TimeAnnotation)| !vote_lt(a, a),
        forall|a: (NodeKey, TimeAnnotation), b: (NodeKey, TimeAnnotation)|
            a != b ==> (#[trigger] vote_lt(a, b) || #[trigger] vote_lt(b, a)),
        forall|a: (NodeKey, TimeAnnotation), b: (NodeKey, TimeAnnotation), c: (NodeKey, TimeAnnotation)|
            #[trigger] vote_lt(a, b) && #[trigger] vote_lt(b, c) ==> vote_lt(a, c),
{
    assert forall|a: (NodeKey, TimeAnnotation)| !vote_lt(a, a) by {
        lemma_text_lt_irreflexive(a.0.text);
    };
    assert forall|a: (NodeKey, TimeAnnotation), b: (NodeKey, TimeAnnotation)|
        a != b implies (#[trigger] vote_lt(a, b) || #[trigger] vote_lt(b, a)) by {
        if a.0 != b.0 && a.0.ident == b.0.ident && a.0.locate == b.0.locate {
            lemma_text_lt_total(a.0.text, b.0.text);
        }
    };
    assert forall|a: (NodeKey, TimeAnnotation), b: (NodeKey, TimeAnnotation), c: (NodeKey, TimeAnnotation)|
        #[trigger] vote_lt(a, b) && #[trigger] vote_lt(b, c) implies vote_lt(a, c) by {
        lemma_text_lt_irreflexive(a.0.text);
        lemma_text_lt_irreflexive(b.0.text);
        if a.0.ident == b.0.ident && b.0.ident == c.0.ident && a.0.locate == b.0.locate && b.0.locate
            == c.0.locate {
            if text_lt(a.0.text, b.0.text) && text_lt(b.0.text, c.0.text) {
                lemma_text_lt_transitive(a.0.text, b.0.text, c.0.text);
            }
            if a.0 == c.0 && a.0 != b.0 {
                lemma_text_lt_transitive(a.0.text, b.0.text, c.0.text);
            }
        }
    };
}

/// Compares two texts in the order of `text_lt`.
fn text_lt_exec(a: &str, b: &str) -> (r: bool)
    ensures
        r == text_lt(a@, b@),
{
    let ac = chars_of(a);
    let bc = chars_of(b);
    let mut i: usize = 0;
    assert(ac@.skip(0) =~= ac@);
    assert(bc@.skip(0) =~= bc@);
    loop
        invariant
            ac@ == a@,
            bc@ == b@,
            i <= ac@.len(),
            i <= bc@.len(),
            text_lt(a@, b@) == text_lt(ac@.skip(i as int), bc@.skip(i as int)),
        decreases ac@.len() - i,
    {
        if i == ac.len() {
            return i < bc.len();
        }
        if i == bc.len() {
            return false;
        }
        let x = ac[i];
        let y = bc[i];
        assert(ac@.skip(i as int)[0] == x);
        assert(bc@.skip(i as int)[0] == y);
        if x != y {
            return x < y;
        }
        assert(ac@.skip(i as int).drop_first() =~= ac@.skip(i + 1));
        assert(bc@.skip(i as int).drop_first() =~= bc@.skip(i + 1));
        i = i + 1;
    }
}

/// Compares two nodes in the order of `node_lt`.
fn node_lt_exec(a: &NodeID, b: &NodeID) -> (r: bool)
    ensures
        r == node_lt(a@, b@),
{
    let ia = a.is_identifier();
    let ib = b.is_identifier();
    if ia != ib {
        return ia;
    }
    let la = *a.get_locate();
    let lb = *b.get_locate();
    if la != lb {
        return la.offset < lb.offset || (la.offset == lb.offset && la.line < lb.line) || (la.offset == lb.offset
            && la.line == lb.line && la.original_line < lb.original_line) || (la.offset == lb.offset && la.line
            == lb.line && la.original_line == lb.original_line && la.len < lb.len);
    }
    text_lt_exec(stored_text(a), stored_text(b))
}

/// The text a node holds, as it was stored.
fn stored_text(n: &NodeID) -> (r: &str)
    ensures
        r@ == n@.text,
{
    match n {
        NodeID::Identifier(_, t) => t.as_str(),
        NodeID::Literal(_, t) => t.as_str(),
    }
}

/// The view of a timed node.
pub open spec fn timed_key(v: (NodeID, TimeAnnotation)) -> (NodeKey, TimeAnnotation) {
    (v.0@, v.1)
}

/// The views of a list of timed nodes.
pub open spec fn timed_keys(s: Seq<(NodeID, TimeAnnotation)>) -> Seq<(NodeKey, TimeAnnotation)> {
    s.map_values(|v: (NodeID, TimeAnnotation)| timed_key(v))
}

/// Compares two timed nodes in the order of `vote_lt`.
fn vote_lt_exec(a: &(NodeID, TimeAnnotation), b: &(NodeID, TimeAnnotation)) -> (r: bool)
    ensures
        r == vote_lt(timed_key(*a), timed_key(*b)),
{
    if !a.0.same(&b.0) {
        node_lt_exec(&a.0, &b.0)
    } else {
        a.1 < b.1
    }
}

/// How many elements of `d` come before `x` in the order of timed nodes.
pub open spec fn count_before(d: Seq<(NodeKey, TimeAnnotation)>, x: (NodeKey, TimeAnnotation)) -> nat
    decreases d.len(),
{
    if d.len() == 0 {
        0
    } else {
        count_before(d.drop_last(), x) + if vote_lt(d.last(), x) {
            1nat
        } else {
            0nat
        }
    }
}

proof fn lemma_count_before_bound(d: Seq<(NodeKey, TimeAnnotation)>, x: (NodeKey, TimeAnnotation))
    ensures
        count_before(d, x) <= d.len(),
    decreases d.len(),
{
    if d.len() > 0 {
        lemma_count_before_bound(d.drop_last(), x);
    }
}

/// What comes before `x` comes before anything after `x`, and `x` itself too.
proof fn lemma_count_before_grows(d: Seq<(NodeKey, TimeAnnotation)>, x: (NodeKey, TimeAnnotation), y: (NodeKey, TimeAnnotation))
    requires
        vote_lt(x, y),
        d.contains(x),
    ensures
        count_before(d, y) > count_before(d, x),
    decreases d.len(),
{
    lemma_vote_order();
    lemma_count_before_weakly_grows(d.drop_last(), x, y);
    let z = d.last();
    if z != x {
        let j = choose|j: int| 0 <= j < d.len() && d[j] == x;
        assert(j < d.len() - 1);
        assert(d.drop_last()[j] == x);
        lemma_count_before_grows(d.drop_last(), x, y);
    }
}

proof fn lemma_count_before_weakly_grows(d: Seq<(NodeKey, TimeAnnotation)>, x: (NodeKey, TimeAnnotation), y: (NodeKey, TimeAnnotation))
    requires
        vote_lt(x, y),
    ensures
        count_before(d, y) >= count_before(d, x),
    decreases d.len(),
{
    lemma_vote_order();
    if d.len() > 0 {
        lemma_count_before_weakly_grows(d.drop_last(), x, y);
    }
}

/// Counting what comes before is one to one on the elements of `d`.
proof fn lemma_count_before_injective(d: Seq<(NodeKey, TimeAnnotation)>, x: (NodeKey, TimeAnnotation), y: (NodeKey, TimeAnnotation))
    requires
        d.contains(x),
        d.contains(y),
        x != y,
    ensures
        count_before(d, x) != count_before(d, y),
{
    lemma_vote_order();
    if vote_lt(x, y) {
        lemma_count_before_grows(d, x, y);
    } else {
        assert(vote_lt(y, x));
        lemma_count_before_grows(d, y, x);
    }
}

/// The position of `x` in the order of `d`, for a vector of timed nodes.
fn rank_in(d: &Vec<(NodeID, TimeAnnotation)>, x: &(NodeID, TimeAnnotation)) -> (r: usize)
    ensures
        r == count_before(timed_keys(d@), timed_key(*x)),
{
    let ghost dk = timed_keys(d@);
    let mut r: usize = 0;
    let mut j: usize = 0;
    assert(dk.take(0).len() == 0);
    while j < d.len()
        invariant
            dk == timed_keys(d@),
            j <= d@.len(),
            r == count_before(dk.take(j as int), timed_key(*x)),
            r <= j,
        decreases d@.len() - j,
    {
        assert(dk.take(j + 1).drop_last() =~= dk.take(j as int));
        assert(dk.take(j + 1).last() == timed_key(d@[j as int]));
        if vote_lt_exec(&d[j], x) {
            r = r + 1;
        }
        j = j + 1;
    }
    assert(dk.take(d@.len() as int) =~= dk);
    r
}

/// A copy of a timed node.
fn copy_timed(v: &(NodeID, TimeAnnotation)) -> (r: (NodeID, TimeAnnotation))
    ensures
        timed_key(r) == timed_key(*v),
{
    (v.0.duplicate(), v.1)
}

/// Whether `v` holds the timed node `x`.
fn holds_timed(v: &Vec<(NodeID, TimeAnnotation)>, x: &(NodeID, TimeAnnotation)) -> (r: bool)
    ensures
        r == timed_keys(v@).contains(timed_key(*x)),
{
    let ghost vk = timed_keys(v@);
    let mut j: usize = 0;
    while j < v.len()
        invariant
            vk == timed_keys(v@),
            j <= v@.len(),
            forall|m: int| 0 <= m < j ==> vk[m] != timed_key(*x),
        decreases v@.len() - j,
    {
        assert(vk[j as int] == timed_key(v@[j as int]));
        if v[j].0.same(&x.0) && v[j].1 == x.1 {
            assert(vk[j as int] == timed_key(*x));
            return true;
        }
        j = j + 1;
    }
    false
}

/// The distinct timed nodes of `v`, each once, in the order they first occur.
fn distinct_timed(v: &Vec<(NodeID, TimeAnnotation)>) -> (d: Vec<(NodeID, TimeAnnotation)>)
    ensures
        timed_keys(d@).no_duplicates(),
        forall|x: (NodeKey, TimeAnnotation)| timed_keys(v@).contains(x) <==> timed_keys(d@).contains(x),
{
    let ghost vk = timed_keys(v@);
    let mut d: Vec<(NodeID, TimeAnnotation)> = Vec::new();
    let mut i: usize = 0;
    while i < v.len()
        invariant
            vk == timed_keys(v@),
            i <= v@.len(),
            timed_keys(d@).no_duplicates(),
            forall|x: (NodeKey, TimeAnnotation)| vk.take(i as int).contains(x) <==> timed_keys(d@).contains(x),
        decreases v@.len() - i,
    {
        let ghost before = timed_keys(d@);
        assert(vk.take(i + 1) =~= vk.take(i as int).push(vk[i as int]));
        assert(vk[i as int] == timed_key(v@[i as int]));
        let fresh = !holds_timed(&d, &v[i]);
        if fresh {
            d.push(copy_timed(&v[i]));
            assert(timed_keys(d@) =~= before.push(vk[i as int]));
        }
        proof {
            let now = timed_keys(d@);
            assert forall|x: (NodeKey, TimeAnnotation)| vk.take(i + 1).contains(x) <==> now.contains(x) by {
                if vk.take(i + 1).contains(x) {
                    let j = choose|j: int| 0 <= j < vk.take(i + 1).len() && #[trigger] vk.take(i + 1)[j] == x;
                    if j < i {
                        assert(vk.take(i as int)[j] == x);
                        assert(before.contains(x));
                        let m = choose|m: int| 0 <= m < before.len() && before[m] == x;
                        if fresh {
                            assert(now[m] == x);
                        }
                    } else if fresh {
                        assert(now[before.len() as int] == x);
                    }
                }
                if now.contains(x) {
                    let m = choose|m: int| 0 <= m < now.len() && now[m] == x;
                    if m < before.len() {
                        assert(before[m] == x);
                        assert(before.contains(x));
                        let j = choose|j: int| 0 <= j < vk.take(i as int).len() && #[trigger] vk.take(i as int)[j] == x;
                        assert(vk.take(i + 1)[j] == x);
                    } else {
                        assert(vk.take(i + 1)[i as int] == x);
                    }
                }
            };
        }
        i = i + 1;
    }
    assert(vk.take(v@.len() as int) =~= vk);
    d
}

/// `a` ranks before `b` among the votes `items`: it is named more often, or
/// as often and comes first in the order of timed nodes.
pub open spec fn vote_ranks_before(items: Seq<(NodeKey, TimeAnnotation)>, a: (NodeKey, TimeAnnotation), b: (NodeKey, TimeAnnotation)) -> bool {
    occ(items, a) > occ(items, b) || (occ(items, a) == occ(items, b) && vote_lt(a, b))
}

/// `r` lists the (at most) `k` timed nodes named most often in `items`, the
/// most often named first and equally often named ones in their order; all of
/// them when fewer than `k` are named.
pub open spec fn is_top_votes(items: Seq<(NodeKey, TimeAnnotation)>, k: nat, r: Seq<(NodeKey, TimeAnnotation)>) -> bool {
    &&& r.len() <= k
    &&& forall|i: int| 0 <= i < r.len() ==> items.contains(#[trigger] r[i])
    &&& forall|i: int, j: int| 0 <= i < j < r.len() ==> vote_ranks_before(items, #[trigger] r[i], #[trigger] r[j])
    &&& forall|x: (NodeKey, TimeAnnotation)|
        #[trigger] items.contains(x) ==> r.contains(x) || (r.len() == k && forall|i: int|
            0 <= i < r.len() ==> vote_ranks_before(items, #[trigger] r[i], x))
}

proof fn lemma_usize_order()
    ensures
        vstd::laws_cmp::obeys_cmp::<usize>(),
        vstd::laws_eq::obeys_concrete_eq::<usize>(),
{
    broadcast use vstd::laws_cmp::group_laws_cmp, vstd::laws_eq::group_laws_eq;

}

/// Occurrences carry over through a map that is one to one on the elements.
proof fn lemma_occ_map(s: Seq<(NodeKey, TimeAnnotation)>, d: Seq<(NodeKey, TimeAnnotation)>, x: (NodeKey, TimeAnnotation))
    requires
        d.contains(x),
        d.len() <= usize::MAX,
        forall|i: int| 0 <= i < s.len() ==> d.contains(#[trigger] s[i]),
    ensures
        occ(s.map_values(|y: (NodeKey, TimeAnnotation)| count_before(d, y) as usize), count_before(d, x) as usize)
            == occ(s, x),
    decreases s.len(),
{
    let f = |y: (NodeKey, TimeAnnotation)| count_before(d, y) as usize;
    if s.len() > 0 {
        assert(s.map_values(f).drop_first() =~= s.drop_first().map_values(f));
        assert forall|i: int| 0 <= i < s.drop_first().len() implies d.contains(#[trigger] s.drop_first()[i]) by {
            assert(s.drop_first()[i] == s[i + 1]);
        };
        lemma_occ_map(s.drop_first(), d, x);
        lemma_count_before_bound(d, x);
        lemma_count_before_bound(d, s[0]);
        assert(d.contains(s[0]));
        assert(s.map_values(f)[0] == f(s[0]));
        if s[0] != x {
            lemma_count_before_injective(d, s[0], x);
        }
    }
}

/// The (at most) `k` timed nodes named most often in `votes`, ranked as
/// `is_top_votes` says.
fn top_votes(votes: &Vec<(NodeID, TimeAnnotation)>, k: usize) -> (r: Vec<(NodeID, TimeAnnotation)>)
    ensures
        is_top_votes(timed_keys(votes@), k as nat, timed_keys(r@)),
{
    let ghost vk = timed_keys(votes@);
    let d = distinct_timed(votes);
    let ghost dk = timed_keys(d@);
    let ghost f = |y: (NodeKey, TimeAnnotation)| count_before(dk, y) as usize;
    let mut ranks: Vec<usize> = Vec::new();
    let mut i: usize = 0;
    while i < votes.len()
        invariant
            vk == timed_keys(votes@),
            dk == timed_keys(d@),
            f == (|y: (NodeKey, TimeAnnotation)| count_before(dk, y) as usize),
            i <= votes@.len(),
            ranks@ == vk.take(i as int).map_values(f),
        decreases votes@.len() - i,
    {
        let rk = rank_in(&d, &votes[i]);
        proof {
            lemma_count_before_bound(dk, vk[i as int]);
            assert(vk[i as int] == timed_key(votes@[i as int]));
        }
        ranks.push(rk);
        assert(vk.take(i + 1).map_values(f) =~= vk.take(i as int).map_values(f).push(f(vk[i as int])));
        i = i + 1;
    }
    assert(vk.take(votes@.len() as int) =~= vk);
    let ghost rk_seq = ranks@;
    assert(rk_seq == vk.map_values(f));
    proof {
        lemma_usize_order();
    }
    let top = top_k_items(ranks, k);
    let mut drank: Vec<usize> = Vec::new();
    let mut m: usize = 0;
    while m < d.len()
        invariant
            dk == timed_keys(d@),
            f == (|y: (NodeKey, TimeAnnotation)| count_before(dk, y) as usize),
            m <= d@.len(),
            drank@.len() == m,
            forall|q: int| 0 <= q < m ==> drank@[q] == f(#[trigger] dk[q]),
        decreases d@.len() - m,
    {
        let rk = rank_in(&d, &d[m]);
        proof {
            lemma_count_before_bound(dk, dk[m as int]);
            assert(dk[m as int] == timed_key(d@[m as int]));
        }
        drank.push(rk);
        m = m + 1;
    }
    let mut r: Vec<(NodeID, TimeAnnotation)> = Vec::new();
    let mut t: usize = 0;
    while t < top.len()
        invariant
            vk == timed_keys(votes@),
            dk == timed_keys(d@),
            f == (|y: (NodeKey, TimeAnnotation)| count_before(dk, y) as usize),
            rk_seq == vk.map_values(f),
            drank@.len() == dk.len(),
            forall|q: int| 0 <= q < dk.len() ==> drank@[q] == f(#[trigger] dk[q]),
            forall|x: (NodeKey, TimeAnnotation)| vk.contains(x) <==> dk.contains(x),
            forall|j: int| 0 <= j < top@.len() ==> rk_seq.contains(#[trigger] top@[j].0),
            t <= top@.len(),
            r@.len() == t,
            forall|j: int| 0 <= j < t ==> f(#[trigger] timed_keys(r@)[j]) == top@[j].0 && dk.contains(
                timed_keys(r@)[j],
            ),
        decreases top@.len() - t,
    {
        let rk = top[t].0;
        let ghost w = choose|w: int| 0 <= w < rk_seq.len() && rk_seq[w] == rk;
        proof {
            assert(rk_seq.contains(top@[t as int].0));
            assert(vk.contains(vk[w]));
        }
        let ghost x = vk[w];
        let mut q: usize = 0;
        while q < d.len() && drank[q] != rk
            invariant
                dk == timed_keys(d@),
                drank@.len() == dk.len(),
                forall|q2: int| 0 <= q2 < dk.len() ==> drank@[q2] == f(#[trigger] dk[q2]),
                dk.contains(x),
                f(x) == rk,
                q <= d@.len(),
                forall|q2: int| 0 <= q2 < q ==> dk[q2] != x,
            decreases d@.len() - q,
        {
            assert(drank@[q as int] == f(dk[q as int]));
            q = q + 1;
        }
        proof {
            if q == d@.len() {
                let q2 = choose|q2: int| 0 <= q2 < dk.len() && dk[q2] == x;
                assert(dk[q2] != x);
            }
            assert(drank@[q as int] == f(dk[q as int]));
        }
        let ghost before = timed_keys(r@);
        r.push(copy_timed(&d[q]));
        proof {
            assert(timed_keys(r@) =~= before.push(dk[q as int]));
            assert(dk.contains(dk[q as int]));
        }
        t = t + 1;
    }
    let dlen = d.len();
    let vlen = votes.len();
    proof {
        lemma_vote_order();
        assert(dk.len() == dlen);
        assert(vk.len() == vlen);
        assert(rk_seq.len() == vlen);
        let rk_ = timed_keys(r@);
        assert forall|a: (NodeKey, TimeAnnotation), b: (NodeKey, TimeAnnotation)|
            dk.contains(a) && dk.contains(b) && #[trigger] f(a) == #[trigger] f(b) implies a == b by {
            lemma_count_before_bound(dk, a);
            lemma_count_before_bound(dk, b);
            if a != b {
                lemma_count_before_injective(dk, a, b);
            }
        };
        assert forall|a: (NodeKey, TimeAnnotation)| dk.contains(a) implies occ(rk_seq, f(a)) == occ(vk, a) by {
            assert forall|i: int| 0 <= i < vk.len() implies dk.contains(#[trigger] vk[i]) by {
                assert(vk.contains(vk[i]));
            };
            lemma_occ_map(vk, dk, a);
        };
        assert forall|i: int| 0 <= i < rk_.len() implies vk.contains(#[trigger] rk_[i]) by {};
        assert forall|i: int, j: int| 0 <= i < j < rk_.len() implies vote_ranks_before(vk, #[trigger] rk_[i], #[trigger] rk_[j]) by {
            assert(ranks_before(top@[i], top@[j]));
            assert(top@[i] == counted(rk_seq, top@[i].0));
            assert(top@[j] == counted(rk_seq, top@[j].0));
            assert(occ(rk_seq, f(rk_[i])) == occ(vk, rk_[i]));
            assert(occ(rk_seq, f(rk_[j])) == occ(vk, rk_[j]));
            lemma_occ_bound_votes(vk, rk_[i]);
            lemma_occ_bound_votes(vk, rk_[j]);
            if occ(vk, rk_[i]) == occ(vk, rk_[j]) {
                assert(f(rk_[i]) < f(rk_[j]));
                lemma_count_before_bound(dk, rk_[i]);
                lemma_count_before_bound(dk, rk_[j]);
                if rk_[i] == rk_[j] {
                } else if vote_lt(rk_[j], rk_[i]) {
                    lemma_count_before_grows(dk, rk_[j], rk_[i]);
                }
            }
        };
        assert forall|x: (NodeKey, TimeAnnotation)| #[trigger] vk.contains(x) implies rk_.contains(x) || (rk_.len() == k
            && forall|i: int| 0 <= i < rk_.len() ==> vote_ranks_before(vk, #[trigger] rk_[i], x)) by {
            let w = choose|w: int| 0 <= w < vk.len() && vk[w] == x;
            assert(rk_seq[w] == f(x));
            assert(rk_seq.contains(f(x)));
            if exists|i: int| 0 <= i < top@.len() && #[trigger] top@[i].0 == f(x) {
                let i = choose|i: int| 0 <= i < top@.len() && #[trigger] top@[i].0 == f(x);
                assert(f(rk_[i]) == f(x));
                assert(dk.contains(x));
                assert(rk_[i] == x);
                assert(rk_.contains(x));
            } else {
                assert forall|i: int| 0 <= i < rk_.len() implies vote_ranks_before(vk, #[trigger] rk_[i], x) by {
                    assert(ranks_before(top@[i], counted(rk_seq, f(x))));
                    assert(top@[i] == counted(rk_seq, top@[i].0));
                    assert(occ(rk_seq, f(rk_[i])) == occ(vk, rk_[i]));
                    assert(occ(rk_seq, f(x)) == occ(vk, x));
                    lemma_occ_bound_votes(vk, rk_[i]);
                    lemma_occ_bound_votes(vk, x);
                    if occ(vk, rk_[i]) == occ(vk, x) {
                        lemma_count_before_bound(dk, rk_[i]);
                        lemma_count_before_bound(dk, x);
                        if rk_[i] == x {
                        } else if vote_lt(x, rk_[i]) {
                            lemma_count_before_grows(dk, x, rk_[i]);
                        }
                    }
                };
            }
        };
    }
    r
}

proof fn lemma_occ_bound_votes(s: Seq<(NodeKey, TimeAnnotation)>, x: (NodeKey, TimeAnnotation))
    ensures
        occ(s, x) <= s.len(),
    decreases s.len(),
{
    if s.len() > 0 {
        lemma_occ_bound_votes(s.drop_first(), x);
    }
}

/// Whether `kept` already holds the node of `v` at a later time.
pub open spec fn superseded(kept: Seq<(NodeKey, TimeAnnotation)>, v: (NodeKey, TimeAnnotation)) -> bool {
    exists|j: int| 0 <= j < kept.len() && #[trigger] kept[j].0 == v.0 && v.1 < kept[j].1
}

/// The votes kept, in order: a vote is dropped when a vote kept before it
/// names the same node at a later time.
pub open spec fn unique_votes(s: Seq<(NodeKey, TimeAnnotation)>) -> Seq<(NodeKey, TimeAnnotation)>
    decreases s.len(),
{
    if s.len() == 0 {
        Seq::empty()
    } else {
        let kept = unique_votes(s.drop_last());
        if superseded(kept, s.last()) {
            kept
        } else {
            kept.push(s.last())
        }
    }
}

/// Keeps the votes as `unique_votes` says.
fn unique_votes_of(vars: &Vec<(NodeID, TimeAnnotation)>) -> (r: Vec<(NodeID, TimeAnnotation)>)
    ensures
        timed_keys(r@) == unique_votes(timed_keys(vars@)),
{
    let ghost vk = timed_keys(vars@);
    let mut r: Vec<(NodeID, TimeAnnotation)> = Vec::new();
    let mut i: usize = 0;
    assert(vk.take(0) =~= Seq::<(NodeKey, TimeAnnotation)>::empty());
    while i < vars.len()
        invariant
            vk == timed_keys(vars@),
            i <= vars@.len(),
            timed_keys(r@) == unique_votes(vk.take(i as int)),
        decreases vars@.len() - i,
    {
        let v = &vars[i];
        assert(vk.take(i + 1).drop_last() =~= vk.take(i as int));
        assert(vk.take(i + 1).last() == timed_key(*v));
        let ghost kept = timed_keys(r@);
        let mut j: usize = 0;
        let mut skip = false;
        while j < r.len()
            invariant
                kept == timed_keys(r@),
                j <= r@.len(),
                skip == exists|m: int| 0 <= m < j && #[trigger] kept[m].0 == v.0@ && v.1 < kept[m].1,
            decreases r@.len() - j,
        {
            assert(kept[j as int] == timed_key(r@[j as int]));
            let hit = r[j].0.same(&v.0) && v.1 < r[j].1;
            assert(hit == (kept[j as int].0 == v.0@ && v.1 < kept[j as int].1));
            if hit {
                skip = true;
            }
            j = j + 1;
        }
        if !skip {
            r.push(copy_timed(v));
            assert(timed_keys(r@) =~= kept.push(timed_key(*v)));
        }
        i = i + 1;
    }
    assert(vk.take(vars@.len() as int) =~= vk);
    r
}

/// The view of an answer that may name timed nodes.
pub open spec fn answer_view(a: Option<Vec<(NodeID, TimeAnnotation)>>) -> Option<Seq<(NodeKey, TimeAnnotation)>> {
    match a {
        Some(v) => Some(timed_keys(v@)),
        None => None,
    }
}

/// The timed nodes the answers name, answer after answer.
pub open spec fn named_votes(answers: Seq<Option<Seq<(NodeKey, TimeAnnotation)>>>) -> Seq<(NodeKey, TimeAnnotation)>
    decreases answers.len(),
{
    if answers.len() == 0 {
        Seq::empty()
    } else {
        named_votes(answers.drop_last()) + match answers.last() {
            Some(v) => v,
            None => Seq::empty(),
        }
    }
}

/// How many answers name timed nodes.
pub open spec fn naming_count(answers: Seq<Option<Seq<(NodeKey, TimeAnnotation)>>>) -> nat
    decreases answers.len(),
{
    if answers.len() == 0 {
        0
    } else {
        naming_count(answers.drop_last()) + if answers.last() is Some {
            1nat
        } else {
            0nat
        }
    }
}

/// More than half of `total` (and no majority of nothing).
pub open spec fn majority(count: nat, total: nat) -> bool {
    total > 0 && 2 * count > total
}

/// At least half of `total` (and no half of nothing).
pub open spec fn half_or_more(count: nat, total: nat) -> bool {
    total > 0 && 2 * count >= total
}

/// The nodes the most answers name, as ranked by `is_top_votes` over the kept
/// votes; `None` when that ranking is empty.
fn ranked_votes(answers: &Vec<Option<Vec<(NodeID, TimeAnnotation)>>>, top_k: usize) -> (r: Option<Vec<(NodeID, TimeAnnotation)>>)
    ensures
        ({
            let u = unique_votes(named_votes(answers@.map_values(|a: Option<Vec<(NodeID, TimeAnnotation)>>| answer_view(a))));
            &&& r is None <==> (top_k == 0 || u.len() == 0)
            &&& r matches Some(v) ==> is_top_votes(u, top_k as nat, timed_keys(v@))
        }),
{
    let ghost av = answers@.map_values(|a: Option<Vec<(NodeID, TimeAnnotation)>>| answer_view(a));
    let mut all: Vec<(NodeID, TimeAnnotation)> = Vec::new();
    let mut i: usize = 0;
    assert(av.take(0) =~= Seq::<Option<Seq<(NodeKey, TimeAnnotation)>>>::empty());
    while i < answers.len()
        invariant
            av == answers@.map_values(|a: Option<Vec<(NodeID, TimeAnnotation)>>| answer_view(a)),
            i <= answers@.len(),
            timed_keys(all@) == named_votes(av.take(i as int)),
        decreases answers@.len() - i,
    {
        assert(av.take(i + 1).drop_last() =~= av.take(i as int));
        assert(av.take(i + 1).last() == answer_view(answers@[i as int]));
        match &answers[i] {
            Some(v) => {
                let mut j: usize = 0;
                let ghost start = timed_keys(all@);
                while j < v.len()
                    invariant
                        j <= v@.len(),
                        timed_keys(all@) == start + timed_keys(v@).take(j as int),
                    decreases v@.len() - j,
                {
                    let ghost before = timed_keys(all@);
                    all.push(copy_timed(&v[j]));
                    assert(timed_keys(all@) =~= before.push(timed_key(v@[j as int])));
                    assert(timed_keys(v@).take(j + 1) =~= timed_keys(v@).take(j as int).push(timed_key(v@[j as int])));
                    j = j + 1;
                }
                assert(timed_keys(v@).take(v@.len() as int) =~= timed_keys(v@));
            },
            None => {
                assert(named_votes(av.take(i + 1)) =~= named_votes(av.take(i as int)));
            },
        }
        i = i + 1;
    }
    assert(av.take(answers@.len() as int) =~= av);
    let kept = unique_votes_of(&all);
    let top = top_votes(&kept, top_k);
    proof {
        let u = timed_keys(kept@);
        if top_k > 0 && u.len() > 0 {
            assert(u.contains(u[0]));
            assert(timed_keys(top@).len() > 0);
        }
        if timed_keys(top@).len() > 0 {
            assert(u.contains(timed_keys(top@)[0]));
        }
    }
    if top.len() == 0 {
        None
    } else {
        Some(top)
    }
}

/// How many of `answers` name timed nodes.
fn count_naming(answers: &Vec<Option<Vec<(NodeID, TimeAnnotation)>>>) -> (r: usize)
    ensures
        r == naming_count(answers@.map_values(|a: Option<Vec<(NodeID, TimeAnnotation)>>| answer_view(a))),
{
    let ghost av = answers@.map_values(|a: Option<Vec<(NodeID, TimeAnnotation)>>| answer_view(a));
    let mut n: usize = 0;
    let mut i: usize = 0;
    assert(av.take(0) =~= Seq::<Option<Seq<(NodeKey, TimeAnnotation)>>>::empty());
    while i < answers.len()
        invariant
            av == answers@.map_values(|a: Option<Vec<(NodeID, TimeAnnotation)>>| answer_view(a)),
            i <= answers@.len(),
            n == naming_count(av.take(i as int)),
            n <= i,
        decreases answers@.len() - i,
    {
        assert(av.take(i + 1).drop_last() =~= av.take(i as int));
        assert(av.take(i + 1).last() == answer_view(answers@[i as int]));
        if answers[i].is_some() {
            n = n + 1;
        }
        i = i + 1;
    }
    assert(av.take(answers@.len() as int) =~= av);
    n
}

/// Whether `count` is more than half of `total`.
fn is_majority(count: usize, total: usize) -> (r: bool)
    ensures
        r == majority(count as nat, total as nat),
{
    total > 0 && (count as u128) * 2 > (total as u128)
}

/// Whether `count` is at least half of `total`.
fn is_half_or_more(count: usize, total: usize) -> (r: bool)
    ensures
        r == half_or_more(count as nat, total as nat),
{
    total > 0 && (count as u128) * 2 >= (total as u128)
}

/// The views of the answers of module checkers.
pub open spec fn answers_view(answers: Seq<Option<Vec<(NodeID, TimeAnnotation)>>>) -> Seq<Option<Seq<(NodeKey, TimeAnnotation)>>> {
    answers.map_values(|a: Option<Vec<(NodeID, TimeAnnotation)>>| answer_view(a))
}

/// The vote of module checkers on the ports of a module: `total` checkers
/// were asked and `answers` holds the answers that came back. When more than
/// half of `total` name signals, the result is the (at most) `top_k` signals
/// named most often (a signal dropped when an earlier kept answer names it at
/// a later time); otherwise, or when no signal is left, there is none and the
/// tracer dives into the module. Counts are compared as exact fractions.
pub fn vote_for_ports(answers: &Vec<Option<Vec<(NodeID, TimeAnnotation)>>>, total: usize, top_k: usize) -> (r: Option<
    Vec<(NodeID, TimeAnnotation)>,
>)
    ensures
        ({
            let av = answers_view(answers@);
            let u = unique_votes(named_votes(av));
            &&& r is None <==> (!majority(naming_count(av), total as nat) || top_k == 0 || u.len() == 0)
            &&& r matches Some(v) ==> is_top_votes(u, top_k as nat, timed_keys(v@))
        }),
{
    let named = count_naming(answers);
    if !is_majority(named, total) {
        return None;
    }
    ranked_votes(answers, top_k)
}

/// The answer of one block checker: the signals it names to follow, whether
/// it finds the block suspicious, and whether it ends the trace there.
pub open spec fn block_answer_view(a: (Option<Vec<(NodeID, TimeAnnotation)>>, bool, bool)) -> (
    Option<Seq<(NodeKey, TimeAnnotation)>>,
    bool,
    bool,
) {
    (answer_view(a.0), a.1, a.2)
}

/// How many block checker answers have the flag `which` (1: suspicious, 2: ends the trace).
pub open spec fn flag_count(answers: Seq<(Option<Vec<(NodeID, TimeAnnotation)>>, bool, bool)>, which: int) -> nat
    decreases answers.len(),
{
    if answers.len() == 0 {
        0
    } else {
        flag_count(answers.drop_last(), which) + if (which == 1 && answers.last().1) || (which == 2
            && answers.last().2) {
            1nat
        } else {
            0nat
        }
    }
}

/// The outcome of a vote of block checkers: whether the block is suspicious,
/// and the signals to follow, if any.
pub struct BlockVote {
    pub suspicious: bool,
    pub next: Option<Vec<(NodeID, TimeAnnotation)>>,
}

/// The vote of block checkers on a block: `total` checkers were asked and
/// `answers` holds the answers that came back. The block is suspicious when
/// at least half of `total` say so. When more than half end the trace there
/// are no signals to follow; otherwise they are the (at most) `top_k` signals
/// named most often (a signal dropped when an earlier kept answer names it at
/// a later time), none when no signal is left. Counts are compared as exact
/// fractions.
pub fn vote_for_blocks(answers: &Vec<(Option<Vec<(NodeID, TimeAnnotation)>>, bool, bool)>, total: usize, top_k: usize) -> (r: BlockVote)
    ensures
        r.suspicious == half_or_more(flag_count(answers@, 1), total as nat),
        ({
            let av = answers_view(answers@.map_values(|a: (Option<Vec<(NodeID, TimeAnnotation)>>, bool, bool)| a.0));
            let u = unique_votes(named_votes(av));
            &&& r.next is None <==> (majority(flag_count(answers@, 2), total as nat) || top_k == 0 || u.len() == 0)
            &&& r.next matches Some(v) ==> is_top_votes(u, top_k as nat, timed_keys(v@))
        }),
{
    let mut suspicious: usize = 0;
    let mut terminate: usize = 0;
    let mut named: Vec<Option<Vec<(NodeID, TimeAnnotation)>>> = Vec::new();
    let ghost fa = answers@.map_values(|a: (Option<Vec<(NodeID, TimeAnnotation)>>, bool, bool)| a.0);
    let mut i: usize = 0;
    assert(answers@.take(0) =~= Seq::<(Option<Vec<(NodeID, TimeAnnotation)>>, bool, bool)>::empty());
    while i < answers.len()
        invariant
            fa == answers@.map_values(|a: (Option<Vec<(NodeID, TimeAnnotation)>>, bool, bool)| a.0),
            i <= answers@.len(),
            suspicious == flag_count(answers@.take(i as int), 1),
            terminate == flag_count(answers@.take(i as int), 2),
            suspicious <= i,
            terminate <= i,
            answers_view(named@) == answers_view(fa.take(i as int)),
        decreases answers@.len() - i,
    {
        assert(answers@.take(i + 1).drop_last() =~= answers@.take(i as int));
        assert(answers@.take(i + 1).last() == answers@[i as int]);
        if answers[i].1 {
            suspicious = suspicious + 1;
        }
        if answers[i].2 {
            terminate = terminate + 1;
        }
        let copied: Option<Vec<(NodeID, TimeAnnotation)>> = match &answers[i].0 {
            Some(v) => {
                let mut c: Vec<(NodeID, TimeAnnotation)> = Vec::new();
                let mut j: usize = 0;
                while j < v.len()
                    invariant
                        j <= v@.len(),
                        timed_keys(c@) == timed_keys(v@).take(j as int),
                    decreases v@.len() - j,
                {
                    let ghost before = timed_keys(c@);
                    c.push(copy_timed(&v[j]));
                    assert(timed_keys(c@) =~= before.push(timed_key(v@[j as int])));
                    assert(timed_keys(v@).take(j + 1) =~= timed_keys(v@).take(j as int).push(timed_key(v@[j as int])));
                    j = j + 1;
                }
                assert(timed_keys(v@).take(v@.len() as int) =~= timed_keys(v@));
                Some(c)
            },
            None => None,
        };
        let ghost before = named@;
        named.push(copied);
        assert(answers_view(named@) =~= answers_view(fa.take(i + 1))) by {
            assert(fa.take(i + 1) =~= fa.take(i as int).push(answers@[i as int].0));
            assert(answers_view(named@) =~= answers_view(before).push(answer_view(copied)));
            assert(answers_view(fa.take(i + 1)) =~= answers_view(fa.take(i as int)).push(answer_view(answers@[i as int].0)));
        };
        i = i + 1;
    }
    assert(answers@.take(answers@.len() as int) =~= answers@);
    assert(fa.take(answers@.len() as int) =~= fa);
    let is_suspicious = is_half_or_more(suspicious, total);
    if is_majority(terminate, total) {
        return BlockVote { suspicious: is_suspicious, next: None };
    }
    let next = ranked_votes(&named, top_k);
    BlockVote { suspicious: is_suspicious, next }
}

/// The view of a node with an optional time.
pub open spec fn opt_timed_key(v: (NodeID, Option<TimeAnnotation>)) -> (NodeKey, Option<TimeAnnotation>) {
    (v.0@, v.1)
}

/// The views of a list of nodes with optional times.
pub open spec fn opt_timed_keys(s: Seq<(NodeID, Option<TimeAnnotation>)>) -> Seq<(NodeKey, Option<TimeAnnotation>)> {
    s.map_values(|v: (NodeID, Option<TimeAnnotation>)| opt_timed_key(v))
}

/// The timed nodes with each time made optional.
pub open spec fn with_times(s: Seq<(NodeKey, TimeAnnotation)>) -> Seq<(NodeKey, Option<TimeAnnotation>)> {
    s.map_values(|v: (NodeKey, TimeAnnotation)| (v.0, Some(v.1)))
}

/// Makes the time of each timed node optional.
fn timed_to_optional(vars: &Vec<(NodeID, TimeAnnotation)>) -> (r: Vec<(NodeID, Option<TimeAnnotation>)>)
    ensures
        opt_timed_keys(r@) == with_times(timed_keys(vars@)),
{
    let mut r: Vec<(NodeID, Option<TimeAnnotation>)> = Vec::new();
    let mut i: usize = 0;
    assert(with_times(timed_keys(vars@)).take(0) =~= Seq::<(NodeKey, Option<TimeAnnotation>)>::empty());
    while i < vars.len()
        invariant
            i <= vars@.len(),
            opt_timed_keys(r@) == with_times(timed_keys(vars@)).take(i as int),
        decreases vars@.len() - i,
    {
        let ghost before = opt_timed_keys(r@);
        let d = vars[i].0.duplicate();
        r.push((d, Some(vars[i].1)));
        assert(opt_timed_keys(r@) =~= before.push((vars@[i as int].0@, Some(vars@[i as int].1))));
        assert(with_times(timed_keys(vars@))[i as int] == (vars@[i as int].0@, Some(vars@[i as int].1)));
        assert(opt_timed_keys(r@) =~= with_times(timed_keys(vars@)).take(i + 1));
        i = i + 1;
    }
    assert(with_times(timed_keys(vars@)).take(vars@.len() as int) =~= with_times(timed_keys(vars@)));
    r
}

/// Whether a block drives a node with the text `t`.
pub open spec fn outputs_text(b: DataFlowBlock, t: Seq<char>) -> bool {
    exists|m: int| 0 <= m < b@.outputs.len() && node_text(#[trigger] b@.outputs[m]) == t
}

/// Whether a block is a module input port.
pub open spec fn is_input_port(b: DataFlowBlock) -> bool {
    b@.block_type == BlockType::ModuleInput
}

/// The signals that the input ports among `bs` which drive the node of `v`
/// read, each at the time of `v`, port after port.
pub open spec fn parent_signals(bs: Seq<DataFlowBlock>, v: (NodeKey, Option<TimeAnnotation>)) -> Seq<
    (NodeKey, Option<TimeAnnotation>),
>
    decreases bs.len(),
{
    if bs.len() == 0 {
        Seq::empty()
    } else {
        let rest = parent_signals(bs.drop_last(), v);
        let b = bs.last();
        if is_input_port(b) && outputs_text(b, node_text(v.0)) {
            rest + b@.inputs.map_values(|pn: NodeKey| (pn, v.1))
        } else {
            rest
        }
    }
}

/// Each signal replaced by the signals its input ports read, or kept when no
/// input port maps it.
pub open spec fn mapped_signals(bs: Seq<DataFlowBlock>, vs: Seq<(NodeKey, Option<TimeAnnotation>)>) -> Seq<
    (NodeKey, Option<TimeAnnotation>),
>
    decreases vs.len(),
{
    if vs.len() == 0 {
        Seq::empty()
    } else {
        let p = parent_signals(bs, vs.last());
        mapped_signals(bs, vs.drop_last()) + if p.len() > 0 {
            p
        } else {
            seq![vs.last()]
        }
    }
}

/// The scope a mapped signal is followed into: the enclosing scope of
/// `next_scope`, or `next_scope` itself at the top.
pub open spec fn parent_scope(next_scope: Seq<char>) -> Seq<char> {
    match spec_last_scope(next_scope) {
        Some(p) => p,
        None => next_scope,
    }
}

/// Signals named in scope `cur_scope` that are driven by its input ports,
/// mapped to what those ports read in the enclosing scope; `None` when the
/// scope is unknown, has no input port, or no signal maps.
pub open spec fn spec_map_through_inputs(
    m: &BlockManager,
    cur_scope: Seq<char>,
    vs: Seq<(NodeKey, Option<TimeAnnotation>)>,
    next_scope: Seq<char>,
) -> Option<(Seq<char>, Seq<(NodeKey, Option<TimeAnnotation>)>)> {
    let bs = m.blocks_of(cur_scope);
    if !m.has_scope(cur_scope) {
        None
    } else if !(exists|i: int| 0 <= i < bs.len() && is_input_port(#[trigger] bs[i])) {
        None
    } else if !(exists|i: int| 0 <= i < vs.len() && parent_signals(bs, #[trigger] vs[i]).len() > 0) {
        None
    } else {
        Some((parent_scope(next_scope), mapped_signals(bs, vs)))
    }
}

/// Appends the signals that the input ports of `bs` driving `v` read.
fn push_parent_signals(bs: &Vec<DataFlowBlock>, v: &(NodeID, Option<TimeAnnotation>), out: &mut Vec<(NodeID, Option<TimeAnnotation>)>)
    ensures
        opt_timed_keys(final(out)@) == opt_timed_keys(old(out)@) + parent_signals(bs@, opt_timed_key(*v)),
{
    let ghost start = opt_timed_keys(out@);
    let text = v.0.get_text();
    let mut i: usize = 0;
    assert(bs@.take(0) =~= Seq::<DataFlowBlock>::empty());
    assert(start + parent_signals(bs@.take(0), opt_timed_key(*v)) =~= start);
    while i < bs.len()
        invariant
            i <= bs@.len(),
            text@ == node_text(v.0@),
            opt_timed_keys(out@) == start + parent_signals(bs@.take(i as int), opt_timed_key(*v)),
        decreases bs@.len() - i,
    {
        let b = &bs[i];
        assert(bs@.take(i + 1).drop_last() =~= bs@.take(i as int));
        assert(bs@.take(i + 1).last() == *b);
        if b.block_type == BlockType::ModuleInput {
            let mut hit = false;
            let mut k: usize = 0;
            while k < b.outputs.len()
                invariant
                    k <= b.outputs@.len(),
                    b@.outputs == crate::block::node_keys(b.outputs@),
                    hit == exists|m: int| 0 <= m < k && node_text(#[trigger] b@.outputs[m]) == text@,
                decreases b.outputs@.len() - k,
            {
                assert(b@.outputs[k as int] == b.outputs@[k as int]@);
                if str_eq(b.outputs[k].get_text(), text) {
                    hit = true;
                }
                k = k + 1;
            }
            if hit {
                let ghost mid = opt_timed_keys(out@);
                let mut k: usize = 0;
                while k < b.inputs.len()
                    invariant
                        k <= b.inputs@.len(),
                        b@.inputs == crate::block::node_keys(b.inputs@),
                        opt_timed_keys(out@) == mid + b@.inputs.take(k as int).map_values(
                            |pn: NodeKey| (pn, v.1),
                        ),
                    decreases b.inputs@.len() - k,
                {
                    let ghost before = opt_timed_keys(out@);
                    out.push((b.inputs[k].duplicate(), v.1));
                    assert(opt_timed_keys(out@) =~= before.push((b@.inputs[k as int], v.1)));
                    assert(b@.inputs.take(k + 1).map_values(|pn: NodeKey| (pn, v.1)) =~= b@.inputs.take(
                        k as int,
                    ).map_values(|pn: NodeKey| (pn, v.1)).push((b@.inputs[k as int], v.1)));
                    k = k + 1;
                }
                assert(b@.inputs.take(b.inputs@.len() as int) =~= b@.inputs);
                assert(opt_timed_keys(out@) =~= start + parent_signals(bs@.take(i + 1), opt_timed_key(*v)));
            }
        }
        i = i + 1;
    }
    assert(bs@.take(bs@.len() as int) =~= bs@);
}

/// Maps the signals of `vars`, named in scope `cur_scope`, through the input
/// ports of that scope, as `spec_map_through_inputs` says.
pub fn map_through_inputs(
    mgr: &BlockManager,
    cur_scope: &str,
    vars: &Vec<(NodeID, Option<TimeAnnotation>)>,
    next_scope: &str,
) -> (r: Option<(String, Vec<(NodeID, Option<TimeAnnotation>)>)>)
    requires
        mgr.wf(),
    ensures
        (match r {
            Some((s, v)) => Some((s@, opt_timed_keys(v@))),
            None => None,
        }) == spec_map_through_inputs(mgr, cur_scope@, opt_timed_keys(vars@), next_scope@),
{
    let bs = match mgr.get_scope_blocks(cur_scope) {
        Some(bs) => bs,
        None => {
            return None;
        },
    };
    let mut has_port = false;
    let mut i: usize = 0;
    while i < bs.len()
        invariant
            i <= bs@.len(),
            has_port == exists|j: int| 0 <= j < i && is_input_port(#[trigger] bs@[j]),
        decreases bs@.len() - i,
    {
        if bs[i].block_type == BlockType::ModuleInput {
            has_port = true;
        }
        i = i + 1;
    }
    if !has_port {
        return None;
    }
    let ghost vk = opt_timed_keys(vars@);
    let mut mapped: Vec<(NodeID, Option<TimeAnnotation>)> = Vec::new();
    let mut any = false;
    let mut i: usize = 0;
    assert(vk.take(0) =~= Seq::<(NodeKey, Option<TimeAnnotation>)>::empty());
    while i < vars.len()
        invariant
            vk == opt_timed_keys(vars@),
            i <= vars@.len(),
            opt_timed_keys(mapped@) == mapped_signals(bs@, vk.take(i as int)),
            any == exists|j: int| 0 <= j < i && parent_signals(bs@, #[trigger] vk[j]).len() > 0,
        decreases vars@.len() - i,
    {
        let ghost before = opt_timed_keys(mapped@);
        let before_len = mapped.len();
        push_parent_signals(bs, &vars[i], &mut mapped);
        assert(vk[i as int] == opt_timed_key(vars@[i as int]));
        assert(vk.take(i + 1).drop_last() =~= vk.take(i as int));
        assert(vk.take(i + 1).last() == vk[i as int]);
        if mapped.len() > before_len {
            any = true;
        } else {
            mapped.push((vars[i].0.duplicate(), vars[i].1));
        }
        assert(opt_timed_keys(mapped@) =~= mapped_signals(bs@, vk.take(i + 1)));
        i = i + 1;
    }
    assert(vk.take(vars@.len() as int) =~= vk);
    if !any {
        return None;
    }
    let scope = match get_last_scope(next_scope) {
        Some(p) => string_of(p),
        None => string_of(next_scope),
    };
    Some((scope, mapped))
}

/// What the tracer does after the vote of block checkers on a block named
/// signals to follow, from scope `cur_scope`: the signals mapped through the
/// scope's input ports into the enclosing scope of `next_scope` when any maps,
/// else the signals themselves in `next_scope`. `None` when the vote named no
/// signal; the tracer then goes on with plain dataflow tracing.
pub fn block_vote_outcome(
    mgr: &BlockManager,
    cur_scope: &str,
    next_scope: &str,
    voted: &Option<Vec<(NodeID, TimeAnnotation)>>,
) -> (r: Option<(String, Vec<(NodeID, Option<TimeAnnotation>)>)>)
    requires
        mgr.wf(),
    ensures
        voted is None ==> r is None,
        voted matches Some(v) ==> (match r {
            Some((s, w)) => Some((s@, opt_timed_keys(w@))),
            None => None,
        }) == Some(
            match spec_map_through_inputs(mgr, cur_scope@, with_times(timed_keys(v@)), next_scope@) {
                Some(p) => p,
                None => (next_scope@, with_times(timed_keys(v@))),
            },
        ),
{
    match voted {
        None => None,
        Some(v) => {
            let sv = timed_to_optional(v);
            match map_through_inputs(mgr, cur_scope, &sv, next_scope) {
                Some(p) => Some(p),
                None => Some((string_of(next_scope), sv)),
            }
        },
    }
}

/// The entries that tracing skips when it dives into a suspicious module:
/// for each port block, the scope, the first signal it drives and its time.
pub fn port_early_stop(cur_scope: &str, port_blocks: &Vec<(DataFlowBlock, TimeAnnotation)>) -> (r: EarlyStop)
    requires
        forall|i: int| 0 <= i < port_blocks@.len() ==> (#[trigger] port_blocks@[i]).0@.outputs.len() > 0,
    ensures
        r matches EarlyStop::Module(v) && v@.len() == port_blocks@.len() && forall|i: int|
            0 <= i < v@.len() ==> {
                &&& (#[trigger] v@[i]).0@ == cur_scope@
                &&& v@[i].1@ == port_blocks@[i].0@.outputs[0]
                &&& v@[i].2 == Some(port_blocks@[i].1)
            },
{
    let mut v: Vec<(String, NodeID, Option<TimeAnnotation>)> = Vec::new();
    let mut i: usize = 0;
    while i < port_blocks.len()
        invariant
            i <= port_blocks@.len(),
            forall|j: int| 0 <= j < port_blocks@.len() ==> (#[trigger] port_blocks@[j]).0@.outputs.len() > 0,
            v@.len() == i,
            forall|j: int|
                0 <= j < i ==> {
                    &&& (#[trigger] v@[j]).0@ == cur_scope@
                    &&& v@[j].1@ == port_blocks@[j].0@.outputs[0]
                    &&& v@[j].2 == Some(port_blocks@[j].1)
                },
        decreases port_blocks@.len() - i,
    {
        let b = &port_blocks[i].0;
        assert(b@.outputs.len() == b.outputs@.len());
        assert(b@.outputs[0] == b.outputs@[0]@);
        v.push((string_of(cur_scope), b.outputs[0].duplicate(), Some(port_blocks[i].1)));
        i = i + 1;
    }
    EarlyStop::Module(v)
}

/// What the tracer does after the vote of module checkers on the ports of a
/// module.
pub enum PortOutcome {
    /// No majority named a port signal: dive into the module, skipping the
    /// given entries when the early stop is on.
    Dive(EarlyStop),
    /// Follow the named signals in the same scope.
    Follow(String, Vec<(NodeID, Option<TimeAnnotation>)>),
}

/// Decides what follows the vote of module checkers on the ports of a module
/// in scope `cur_scope`: follow the voted signals there, or dive into the
/// module, with the port entries to skip when `early_stop` is on.
pub fn port_vote_outcome(
    cur_scope: &str,
    voted: &Option<Vec<(NodeID, TimeAnnotation)>>,
    early_stop: bool,
    port_blocks: &Vec<(DataFlowBlock, TimeAnnotation)>,
) -> (r: PortOutcome)
    requires
        voted is None && early_stop ==> forall|i: int|
            0 <= i < port_blocks@.len() ==> (#[trigger] port_blocks@[i]).0@.outputs.len() > 0,
    ensures
        voted matches Some(v) ==> (r matches PortOutcome::Follow(s, w) && s@ == cur_scope@ && opt_timed_keys(w@)
            == with_times(timed_keys(v@))),
        voted is None && !early_stop ==> (r matches PortOutcome::Dive(EarlyStop::NoStop)),
        voted is None && early_stop ==> (r matches PortOutcome::Dive(EarlyStop::Module(v)) && v@.len()
            == port_blocks@.len() && forall|i: int|
            0 <= i < v@.len() ==> {
                &&& (#[trigger] v@[i]).0@ == cur_scope@
                &&& v@[i].1@ == port_blocks@[i].0@.outputs[0]
                &&& v@[i].2 == Some(port_blocks@[i].1)
            }),
{
    match voted {
        Some(v) => PortOutcome::Follow(string_of(cur_scope), timed_to_optional(v)),
        None => {
            if early_stop {
                PortOutcome::Dive(port_early_stop(cur_scope, port_blocks))
            } else {
                PortOutcome::Dive(EarlyStop::NoStop)
            }
        },
    }
}

/// The timed node a text stands as when texts are ranked like votes.
pub open spec fn text_vote(t: Seq<char>) -> (NodeKey, TimeAnnotation) {
    (NodeKey { ident: true, locate: NodeLocate { offset: 0, line: 0, original_line: 0, len: 0 }, text: t }, 0)
}

/// `a` ranks before `b` among `items`: it occurs more often, or as often and
/// comes first in the order of texts.
pub open spec fn text_ranks_before(items: Seq<Seq<char>>, a: Seq<char>, b: Seq<char>) -> bool {
    occ(items, a) > occ(items, b) || (occ(items, a) == occ(items, b) && text_lt(a, b))
}

/// The views of a list of counted texts.
pub open spec fn counts_view(r: Seq<(String, usize)>) -> Seq<(Seq<char>, usize)> {
    r.map_values(|e: (String, usize)| (e.0@, e.1))
}

/// `r` lists the (at most) `k` texts that occur most often in `items`, each
/// with its count, the most frequent first and equally frequent ones in the
/// order of texts; all of them when fewer than `k` distinct texts occur.
pub open spec fn is_top_texts(items: Seq<Seq<char>>, k: nat, r: Seq<(Seq<char>, usize)>) -> bool {
    &&& r.len() <= k
    &&& forall|i: int| 0 <= i < r.len() ==> items.contains((#[trigger] r[i]).0) && r[i].1 == occ(items, r[i].0)
    &&& forall|i: int, j: int| 0 <= i < j < r.len() ==> text_ranks_before(items, (#[trigger] r[i]).0, (#[trigger] r[j]).0)
    &&& forall|x: Seq<char>|
        #[trigger] items.contains(x) ==> (exists|i: int| 0 <= i < r.len() && r[i].0 == x) || (r.len() == k && forall|i: int|
            0 <= i < r.len() ==> text_ranks_before(items, (#[trigger] r[i]).0, x))
}

/// Texts stand as distinct votes, and occur as often.
proof fn lemma_occ_text_vote(s: Seq<Seq<char>>, x: Seq<char>)
    ensures
        occ(s.map_values(|t: Seq<char>| text_vote(t)), text_vote(x)) == occ(s, x),
    decreases s.len(),
{
    let f = |t: Seq<char>| text_vote(t);
    if s.len() > 0 {
        assert(s.map_values(f).drop_first() =~= s.drop_first().map_values(f));
        lemma_occ_text_vote(s.drop_first(), x);
        if s[0] != x {
            assert(text_vote(s[0]).0.text != text_vote(x).0.text);
        }
    }
}

/// Counts the occurrences of `t` in `items`.
fn count_text(items: &Vec<String>, t: &str) -> (r: usize)
    ensures
        r == occ(crate::dfb::strings_view(items@), t@),
{
    let ghost sv = crate::dfb::strings_view(items@);
    let mut c: usize = 0;
    let n = items.len();
    let mut i: usize = n;
    assert(sv.skip(i as int) =~= Seq::<Seq<char>>::empty());
    while i > 0
        invariant
            i <= n,
            n == items@.len(),
            sv == crate::dfb::strings_view(items@),
            c == occ(sv.skip(i as int), t@),
            c <= n - i,
        decreases i,
    {
        i = i - 1;
        assert(sv.skip(i as int).drop_first() =~= sv.skip(i + 1));
        assert(sv.skip(i as int)[0] == items@[i as int]@);
        if str_eq(items[i].as_str(), t) {
            c = c + 1;
        }
    }
    assert(sv.skip(0) =~= sv);
    c
}

/// The (at most) `k` most frequent texts with their counts, ranked as
/// `is_top_texts` says.
pub fn top_k_strings(items: &Vec<String>, k: usize) -> (r: Vec<(String, usize)>)
    ensures
        is_top_texts(crate::dfb::strings_view(items@), k as nat, counts_view(r@)),
{
    let ghost sv = crate::dfb::strings_view(items@);
    let ghost f = |t: Seq<char>| text_vote(t);
    let mut votes: Vec<(NodeID, TimeAnnotation)> = Vec::new();
    let mut i: usize = 0;
    while i < items.len()
        invariant
            i <= items@.len(),
            sv == crate::dfb::strings_view(items@),
            f == (|t: Seq<char>| text_vote(t)),
            timed_keys(votes@) == sv.take(i as int).map_values(f),
        decreases items@.len() - i,
    {
        let n = NodeID::new_identifier(NodeLocate::new(0, 0, 0, 0), items[i].as_str());
        let ghost before = timed_keys(votes@);
        votes.push((n, 0));
        assert(timed_keys(votes@) =~= before.push(text_vote(sv[i as int])));
        assert(sv.take(i + 1).map_values(f) =~= sv.take(i as int).map_values(f).push(f(sv[i as int])));
        i = i + 1;
    }
    assert(sv.take(sv.len() as int) =~= sv);
    let ghost vk = timed_keys(votes@);
    assert(vk == sv.map_values(f));
    let top = top_votes(&votes, k);
    let ghost tk = timed_keys(top@);
    let mut r: Vec<(String, usize)> = Vec::new();
    let mut t: usize = 0;
    while t < top.len()
        invariant
            t <= top@.len(),
            tk == timed_keys(top@),
            vk == sv.map_values(f),
            f == (|t: Seq<char>| text_vote(t)),
            sv == crate::dfb::strings_view(items@),
            is_top_votes(vk, k as nat, tk),
            r@.len() == t,
            forall|q: int| 0 <= q < t ==> tk[q] == text_vote((#[trigger] counts_view(r@)[q]).0) && counts_view(r@)[q].1
                == occ(sv, counts_view(r@)[q].0),
        decreases top@.len() - t,
    {
        let text = match &top[t].0 {
            NodeID::Identifier(_, s) => s.clone(),
            NodeID::Literal(_, s) => s.clone(),
        };
        proof {
            assert(vk.contains(tk[t as int]));
            let w = choose|w: int| 0 <= w < vk.len() && vk[w] == tk[t as int];
            assert(vk[w] == text_vote(sv[w]));
            assert(tk[t as int].0.text == text@);
            assert(tk[t as int] == text_vote(text@));
        }
        let c = count_text(items, text.as_str());
        let ghost before = counts_view(r@);
        r.push((text, c));
        assert(counts_view(r@) =~= before.push((text@, c)));
        t = t + 1;
    }
    proof {
        let cv = counts_view(r@);
        assert forall|a: Seq<char>, b: Seq<char>| text_ranks_before(sv, a, b) == vote_ranks_before(vk, text_vote(a), text_vote(b)) by {
            lemma_occ_text_vote(sv, a);
            lemma_occ_text_vote(sv, b);
            if a == b {
                lemma_text_lt_irreflexive(a);
            } else {
                assert(text_vote(a).0 != text_vote(b).0);
            }
        };
        assert forall|x: Seq<char>| sv.contains(x) <==> vk.contains(text_vote(x)) by {
            if sv.contains(x) {
                let w = choose|w: int| 0 <= w < sv.len() && sv[w] == x;
                assert(vk[w] == text_vote(x));
            }
            if vk.contains(text_vote(x)) {
                let w = choose|w: int| 0 <= w < vk.len() && vk[w] == text_vote(x);
                assert(vk[w] == text_vote(sv[w]));
                assert(text_vote(sv[w]).0.text == sv[w]);
            }
        };
        assert forall|i: int| 0 <= i < cv.len() implies sv.contains((#[trigger] cv[i]).0) && cv[i].1 == occ(sv, cv[i].0) by {
            assert(tk[i] == text_vote(cv[i].0));
            assert(vk.contains(tk[i]));
        };
        assert forall|i: int, j: int| 0 <= i < j < cv.len() implies text_ranks_before(sv, (#[trigger] cv[i]).0, (#[trigger] cv[j]).0) by {
            assert(tk[i] == text_vote(cv[i].0));
            assert(tk[j] == text_vote(cv[j].0));
            assert(vote_ranks_before(vk, tk[i], tk[j]));
        };
        assert forall|x: Seq<char>| #[trigger] sv.contains(x) implies (exists|i: int| 0 <= i < cv.len() && cv[i].0 == x) || (cv.len()
            == k && forall|i: int| 0 <= i < cv.len() ==> text_ranks_before(sv, (#[trigger] cv[i]).0, x)) by {
            assert(vk.contains(text_vote(x)));
            if tk.contains(text_vote(x)) {
                let i = choose|i: int| 0 <= i < tk.len() && tk[i] == text_vote(x);
                assert(tk[i] == text_vote(cv[i].0));
                assert(text_vote(cv[i].0).0.text == cv[i].0);
                assert(cv[i].0 == x);
            } else {
                assert forall|i: int| 0 <= i < cv.len() implies text_ranks_before(sv, (#[trigger] cv[i]).0, x) by {
                    assert(tk[i] == text_vote(cv[i].0));
                    assert(vote_ranks_before(vk, tk[i], text_vote(x)));
                };
            }
        };
    }
    r
}

/// A majority is strictly more than half: exactly half of the checkers is
/// no majority, and of the checkers that agree and those that do not, at
/// most one side has a majority; among `total` checkers, `count` of them
/// are a majority exactly when they are more than half.
pub proof fn lemma_majority_strict(count: nat, total: nat)
    ensures
        !majority(count, 2 * count),
        count <= total ==> (majority(count, total) <==> count * 2 > total),
        count <= total && majority(count, total) ==> !majority((total - count) as nat, total),
        majority(count, total) ==> count > 0 && count * 2 > total,
{
}

} // verus!
