//! Joining the source positions of the pieces of one token into a single
//! position.
use vstd::prelude::*;

use crate::mgr::SrcLocate;

verus! {

/// Where `x` goes in `s` when inserted after every element, counted from the
/// end, whose offset is not above that of `x`.
pub open spec fn insert_pos(s: Seq<SrcLocate>, x: SrcLocate) -> int
    decreases s.len(),
{
    if s.len() == 0 {
        0
    } else if s.last().offset <= x.offset {
        s.len() as int
    } else {
        insert_pos(s.drop_last(), x)
    }
}

/// `s` sorted by offset, stably: elements of equal offset keep their order.
pub open spec fn sort_by_offset(s: Seq<SrcLocate>) -> Seq<SrcLocate>
    decreases s.len(),
{
    if s.len() == 0 {
        s
    } else {
        let t = sort_by_offset(s.drop_last());
        t.insert(insert_pos(t, s.last()), s.last())
    }
}

/// One step of the merge: a position that ends where the next begins grows by
/// it; one that does not ends the merge with nothing; nothing starts afresh
/// from the next position.
pub open spec fn merge_step(acc: Option<SrcLocate>, loc: SrcLocate) -> Option<SrcLocate> {
    match acc {
        Some(a) => if a.offset + a.len != loc.offset {
            None
        } else {
            Some(SrcLocate { offset: a.offset, line: a.line, len: (loc.len + a.len) as usize })
        },
        None => Some(loc),
    }
}

/// The merge of a sequence of positions, from first to last.
pub open spec fn merged(s: Seq<SrcLocate>) -> Option<SrcLocate>
    decreases s.len(),
{
    if s.len() == 0 {
        None
    } else {
        merge_step(merged(s.drop_last()), s.last())
    }
}

/// Every position ends within the range of `usize`.
pub open spec fn ends_fit(s: Seq<SrcLocate>) -> bool {
    forall|k: int| 0 <= k < s.len() ==> (#[trigger] s[k]).offset + s[k].len <= usize::MAX
}

proof fn lemma_insert_pos_bound(s: Seq<SrcLocate>, x: SrcLocate)
    ensures
        0 <= insert_pos(s, x) <= s.len(),
    decreases s.len(),
{
    if s.len() > 0 {
        lemma_insert_pos_bound(s.drop_last(), x);
    }
}

/// Sorting keeps the elements, so every position still ends within range.
proof fn lemma_sort_ends_fit(s: Seq<SrcLocate>)
    requires
        ends_fit(s),
    ensures
        ends_fit(sort_by_offset(s)),
        sort_by_offset(s).len() == s.len(),
    decreases s.len(),
{
    if s.len() > 0 {
        let t = sort_by_offset(s.drop_last());
        assert(ends_fit(s.drop_last())) by {
            assert forall|k: int| 0 <= k < s.drop_last().len() implies (#[trigger] s.drop_last()[k]).offset
                + s.drop_last()[k].len <= usize::MAX by {
                assert(s.drop_last()[k] == s[k]);
            };
        };
        lemma_sort_ends_fit(s.drop_last());
        lemma_insert_pos_bound(t, s.last());
        let r = t.insert(insert_pos(t, s.last()), s.last());
        assert(s.last() == s[s.len() - 1]);
        assert forall|k: int| 0 <= k < r.len() implies (#[trigger] r[k]).offset + r[k].len <= usize::MAX by {
            let p = insert_pos(t, s.last());
            if k < p {
                assert(r[k] == t[k]);
            } else if k == p {
                assert(r[k] == s.last());
            } else {
                assert(r[k] == t[k - 1]);
            }
        };
    }
}

/// Sorts the positions by offset, stably, in place.
fn sort_locates(locates: &mut Vec<SrcLocate>)
    ensures
        final(locates)@ == sort_by_offset(old(locates)@),
{
    let ghost orig = locates@;
    let mut sorted: Vec<SrcLocate> = Vec::new();
    let mut i: usize = 0;
    assert(orig.take(0).len() == 0);
    while i < locates.len()
        invariant
            locates@ == orig,
            i <= orig.len(),
            sorted@ == sort_by_offset(orig.take(i as int)),
        decreases orig.len() - i,
    {
        let x = locates[i];
        let mut j: usize = sorted.len();
        assert(sorted@.take(j as int) =~= sorted@);
        while j > 0 && sorted[j - 1].offset > x.offset
            invariant
                j <= sorted@.len(),
                insert_pos(sorted@, x) == insert_pos(sorted@.take(j as int), x),
            decreases j,
        {
            assert(sorted@.take(j as int).drop_last() =~= sorted@.take(j - 1));
            j = j - 1;
        }
        proof {
            if j > 0 {
                assert(sorted@.take(j as int).last() == sorted@[j - 1]);
            }
            assert(orig.take(i + 1).drop_last() =~= orig.take(i as int));
            assert(orig.take(i + 1).last() == x);
        }
        sorted.insert(j, x);
        i = i + 1;
    }
    assert(orig.take(orig.len() as int) =~= orig);
    *locates = sorted;
}

/// Sorts the positions by offset (stably, in place) and merges them from
/// first to last: a position that ends where the next begins grows to cover
/// it; a gap gives nothing, and the position after a gap starts afresh.
/// Returns what is left after the last position, `None` for no positions.
pub fn merge_locates(locates: &mut Vec<SrcLocate>) -> (r: Option<SrcLocate>)
    requires
        ends_fit(old(locates)@),
    ensures
        final(locates)@ == sort_by_offset(old(locates)@),
        r == merged(sort_by_offset(old(locates)@)),
{
    proof {
        lemma_sort_ends_fit(locates@);
    }
    sort_locates(locates);
    let mut acc: Option<SrcLocate> = None;
    let mut i: usize = 0;
    assert(locates@.take(0).len() == 0);
    while i < locates.len()
        invariant
            ends_fit(locates@),
            i <= locates@.len(),
            acc == merged(locates@.take(i as int)),
            acc matches Some(a) ==> a.offset + a.len <= usize::MAX,
        decreases locates@.len() - i,
    {
        let loc = locates[i];
        assert(locates@.take(i + 1).drop_last() =~= locates@.take(i as int));
        assert(locates@.take(i + 1).last() == loc);
        assert(loc.offset + loc.len <= usize::MAX);
        acc = match acc {
            Some(a) => {
                if a.offset + a.len != loc.offset {
                    None
                } else {
                    Some(SrcLocate { offset: a.offset, line: a.line, len: loc.len + a.len })
                }
            },
            None => Some(loc),
        };
        i = i + 1;
    }
    assert(locates@.take(locates@.len() as int) =~= locates@);
    acc
}

} // verus!
