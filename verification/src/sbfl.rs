//! Spectrum-based fault localization: the line ranges of the blocks, by
//! which a ranked line of the original source is mapped back to its block.
use vstd::prelude::*;

use crate::block::NodeKey;
use crate::dfb::{BlockView, DataFlowBlock};
use crate::mgr::{all_blocks, first_with, original_lineno, with_bid, BlockManager, SrcLocate};
use crate::sampler::CoverageSampler;
use crate::spectrum::SpectrumMetric;
use crate::text::str_eq;

verus! {

/// The original lines of the signals in `outs`, those the manager can map.
pub open spec fn lines_of(mgr: &BlockManager, scope: Seq<char>, module: Seq<char>, outs: Seq<NodeKey>) -> Seq<usize>
    decreases outs.len(),
{
    if outs.len() == 0 {
        Seq::empty()
    } else {
        let rest = lines_of(mgr, scope, module, outs.drop_last());
        match original_lineno(mgr, scope, module, outs.last().locate.offset) {
            Some(l) => rest.push(l),
            None => rest,
        }
    }
}

/// The smallest element, 0 for none.
pub open spec fn min_or_zero(s: Seq<usize>) -> usize
    decreases s.len(),
{
    if s.len() == 0 {
        0
    } else if s.len() == 1 {
        s[0]
    } else {
        let m = min_or_zero(s.drop_last());
        if s.last() < m {
            s.last()
        } else {
            m
        }
    }
}

/// The largest element, 0 for none.
pub open spec fn max_or_zero(s: Seq<usize>) -> usize
    decreases s.len(),
{
    if s.len() == 0 {
        0
    } else if s.len() == 1 {
        s[0]
    } else {
        let m = max_or_zero(s.drop_last());
        if s.last() > m {
            s.last()
        } else {
            m
        }
    }
}

/// The range of original lines a block drives signals on: from the first to
/// the last line of its driven signals, (0, 0) when none can be mapped.
pub open spec fn range_of(mgr: &BlockManager, b: BlockView) -> (usize, usize) {
    let ls = lines_of(mgr, b.scope, b.module_name, b.outputs);
    (min_or_zero(ls), max_or_zero(ls))
}

/// The entry of the range table for a block.
pub open spec fn range_entry(mgr: &BlockManager, b: BlockView) -> (u64, (Seq<char>, (usize, usize))) {
    (b.bid, (b.scope, range_of(mgr, b)))
}

/// The view of a range table.
pub open spec fn ranges_view(t: Seq<(u64, (String, (usize, usize)))>) -> Seq<(u64, (Seq<char>, (usize, usize)))> {
    t.map_values(|e: (u64, (String, (usize, usize)))| (e.0, (e.1.0@, e.1.1)))
}

/// The range table of all blocks of a manager, scope after scope.
pub open spec fn ranges_of(mgr: &BlockManager) -> Seq<(u64, (Seq<char>, (usize, usize)))> {
    all_blocks(mgr.scope_block_mapping@).map_values(|b: DataFlowBlock| range_entry(mgr, b@))
}

/// Whether an entry of the range table covers `line` of `scope`.
pub open spec fn covers_line(e: (u64, (Seq<char>, (usize, usize))), line: usize, scope: Seq<char>) -> bool {
    e.1.1.0 <= line <= e.1.1.1 && e.1.0 == scope
}

/// The position of the first entry that covers `line` of `scope`.
pub open spec fn first_cover(t: Seq<(u64, (Seq<char>, (usize, usize)))>, line: usize, scope: Seq<char>) -> Option<int>
    decreases t.len(),
{
    if t.len() == 0 {
        None
    } else if covers_line(t[0], line, scope) {
        Some(0)
    } else {
        match first_cover(t.drop_first(), line, scope) {
            Some(i) => Some(i + 1),
            None => None,
        }
    }
}

proof fn lemma_first_cover_bounds(t: Seq<(u64, (Seq<char>, (usize, usize)))>, line: usize, scope: Seq<char>)
    ensures
        first_cover(t, line, scope) matches Some(i) ==> 0 <= i < t.len() && covers_line(t[i], line, scope),
    decreases t.len(),
{
    if t.len() > 0 && !covers_line(t[0], line, scope) {
        lemma_first_cover_bounds(t.drop_first(), line, scope);
    }
}

proof fn lemma_first_with_some(bs: Seq<DataFlowBlock>, p: spec_fn(DataFlowBlock) -> bool, k: int)
    requires
        0 <= k < bs.len(),
        p(bs[k]),
    ensures
        first_with(bs, p) is Some,
    decreases bs.len(),
{
    if !p(bs[0]) {
        lemma_first_with_some(bs.drop_first(), p, k - 1);
    }
}

/// Finds lines by their block, for a sampler of coverage spectra.
pub struct SBFLocalizer<'b, CS: CoverageSampler> {
    pub bug_id: String,
    pub block_manager: &'b BlockManager,
    pub coverage_sampler: CS,
    pub spectrum_metric: SpectrumMetric,
    /// (block id, (scope, (first line, last line))) of each block; lines of the original source.
    pub bid_range: Vec<(u64, (String, (usize, usize)))>,
}

impl<'b, CS: CoverageSampler> SBFLocalizer<'b, CS> {
    /// The range table is that of the manager's blocks.
    pub open spec fn wf(&self) -> bool {
        &&& self.block_manager.wf()
        &&& ranges_view(self.bid_range@) == ranges_of(self.block_manager)
    }

    /// The line range of one block.
    fn block_range(mgr: &BlockManager, block: &DataFlowBlock) -> (r: (usize, usize))
        requires
            mgr.wf(),
        ensures
            r == range_of(mgr, block@),
    {
        let ghost b = block@;
        let mut lo: usize = 0;
        let mut hi: usize = 0;
        let mut found: usize = 0;
        let mut i: usize = 0;
        while i < block.outputs.len()
            invariant
                mgr.wf(),
                b == block@,
                i <= block.outputs@.len(),
                b.outputs.len() == block.outputs@.len(),
                found == lines_of(mgr, b.scope, b.module_name, b.outputs.take(i as int)).len(),
                lo == min_or_zero(lines_of(mgr, b.scope, b.module_name, b.outputs.take(i as int))),
                hi == max_or_zero(lines_of(mgr, b.scope, b.module_name, b.outputs.take(i as int))),
                found <= i,
            decreases block.outputs@.len() - i,
        {
            let ghost prev = lines_of(mgr, b.scope, b.module_name, b.outputs.take(i as int));
            assert(b.outputs.take(i + 1).drop_last() =~= b.outputs.take(i as int));
            let loc = block.outputs[i].get_locate();
            assert(b.outputs[i as int] == block.outputs@[i as int]@);
            let ast = SrcLocate { offset: loc.offset, line: loc.line, len: loc.len };
            let line = mgr.get_original_lineno_from_ast_locate(
                block.scope.as_str(),
                block.module_name.as_str(),
                ast,
            );
            match line {
                Some(l) => {
                    if found == 0 {
                        lo = l;
                        hi = l;
                    } else {
                        if l < lo {
                            lo = l;
                        }
                        if l > hi {
                            hi = l;
                        }
                    }
                    found = found + 1;
                    assert(prev.push(l).drop_last() =~= prev);
                },
                None => {},
            }
            i = i + 1;
        }
        assert(b.outputs.take(block.outputs@.len() as int) =~= b.outputs);
        (lo, hi)
    }

    /// A localizer for the blocks of `block_manager`, with their line ranges.
    pub fn new(
        bug_id: String,
        block_manager: &'b BlockManager,
        coverage_sampler: CS,
        spectrum_metric: SpectrumMetric,
    ) -> (r: Self)
        requires
            block_manager.wf(),
        ensures
            r.wf(),
            r.bug_id == bug_id,
            r.block_manager == block_manager,
            r.coverage_sampler == coverage_sampler,
            r.spectrum_metric == spectrum_metric,
    {
        let mgr = block_manager;
        let mut bid_range: Vec<(u64, (String, (usize, usize)))> = Vec::new();
        let mut s: usize = 0;
        proof {
            assert(all_blocks(mgr.scope_block_mapping@.take(0)) =~= Seq::<DataFlowBlock>::empty());
        }
        while s < mgr.scope_block_mapping.len()
            invariant
                mgr.wf(),
                s <= mgr.scope_block_mapping@.len(),
                ranges_view(bid_range@) == all_blocks(mgr.scope_block_mapping@.take(s as int)).map_values(
                    |b: DataFlowBlock| range_entry(mgr, b@),
                ),
            decreases mgr.scope_block_mapping@.len() - s,
        {
            let blocks = &mgr.scope_block_mapping[s].blocks;
            let ghost base = bid_range@;
            let ghost done = all_blocks(mgr.scope_block_mapping@.take(s as int));
            let mut j: usize = 0;
            while j < blocks.len()
                invariant
                    mgr.wf(),
                    blocks@ == mgr.scope_block_mapping@[s as int].blocks@,
                    j <= blocks@.len(),
                    ranges_view(bid_range@) == (done + blocks@.take(j as int)).map_values(
                        |b: DataFlowBlock| range_entry(mgr, b@),
                    ),
                decreases blocks@.len() - j,
            {
                let block = &blocks[j];
                let range = Self::block_range(mgr, block);
                let ghost before = bid_range@;
                bid_range.push((block.bid, (block.scope.clone(), range)));
                assert(ranges_view(bid_range@) =~= ranges_view(before).push(range_entry(mgr, block@)));
                assert((done + blocks@.take(j + 1)) =~= (done + blocks@.take(j as int)).push(blocks@[j as int]));
                j = j + 1;
            }
            assert(blocks@.take(blocks@.len() as int) =~= blocks@);
            assert(mgr.scope_block_mapping@.take(s + 1).drop_last() =~= mgr.scope_block_mapping@.take(s as int));
            s = s + 1;
        }
        assert(mgr.scope_block_mapping@.take(mgr.scope_block_mapping@.len() as int) =~= mgr.scope_block_mapping@);
        SBFLocalizer { bug_id, block_manager, coverage_sampler, spectrum_metric, bid_range }
    }

    /// The id of the bug being localized.
    pub fn get_bug_id(&self) -> (r: String)
        ensures
            r@ == self.bug_id@,
    {
        self.bug_id.clone()
    }

    /// The block whose line range covers `lineno` of scope `scope_name`: the
    /// first in the range table, looked up by its id.
    pub fn block_of_line(&self, lineno: usize, scope_name: &str) -> (r: Option<DataFlowBlock>)
        requires
            self.wf(),
        ensures
            r is Some <==> first_cover(ranges_of(self.block_manager), lineno, scope_name@) is Some,
            r matches Some(b) ==> b@ == all_blocks(self.block_manager.scope_block_mapping@)[first_with(
                all_blocks(self.block_manager.scope_block_mapping@),
                with_bid(ranges_of(self.block_manager)[first_cover(
                    ranges_of(self.block_manager),
                    lineno,
                    scope_name@,
                ).unwrap()].0),
            ).unwrap()]@,
    {
        let ghost t = ranges_view(self.bid_range@);
        let mut k: usize = 0;
        assert(t.skip(0) =~= t);
        while k < self.bid_range.len()
            invariant
                self.wf(),
                t == ranges_view(self.bid_range@),
                k <= self.bid_range@.len(),
                first_cover(t, lineno, scope_name@) == (match first_cover(t.skip(k as int), lineno, scope_name@) {
                    Some(i) => Some(i + k),
                    None => None,
                }),
            decreases self.bid_range@.len() - k,
        {
            assert(t.skip(k as int).drop_first() =~= t.skip(k + 1));
            let e = &self.bid_range[k];
            let ghost ev = t[k as int];
            assert(t.skip(k as int)[0] == ev);
            if e.1.1.0 <= lineno && lineno <= e.1.1.1 && str_eq(e.1.0.as_str(), scope_name) {
                let bid = e.0;
                let ghost all = all_blocks(self.block_manager.scope_block_mapping@);
                proof {
                    lemma_first_cover_bounds(t, lineno, scope_name@);
                    assert(all.len() == t.len());
                    assert(t[k as int] == range_entry(self.block_manager, all[k as int]@));
                    lemma_first_with_some(all, with_bid(bid), k as int);
                }
                let r = self.block_manager.get_block_by_bid(bid);
                return r;
            }
            k = k + 1;
        }
        assert(t.skip(k as int) =~= Seq::<(u64, (Seq<char>, (usize, usize)))>::empty());
        None
    }
}

} // verus!
