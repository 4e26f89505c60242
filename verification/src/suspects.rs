//! What the checker-aided tracer has found suspicious so far, and the port
//! blocks it hands to module checkers.
use vstd::prelude::*;

use crate::block::{BlockType, NodeID, NodeKey, TimeAnnotation};
use crate::dfb::{BlockView, DataFlowBlock};
use crate::mgr::{block_views, is_port, BlockManager};
use crate::text::{str_eq, string_of};

verus! {

/// The view of a signal observed at an optional time.
pub open spec fn sig_key(s: (NodeID, Option<TimeAnnotation>)) -> (NodeKey, Option<TimeAnnotation>) {
    (s.0@, s.1)
}

/// A copy of a signal observed at an optional time.
fn copy_sig(s: &(NodeID, Option<TimeAnnotation>)) -> (r: (NodeID, Option<TimeAnnotation>))
    ensures
        sig_key(r) == sig_key(*s),
{
    (s.0.duplicate(), s.1)
}

/// The suspicious modules and blocks found so far, each with the signal
/// that led to it, in the order they were found; no entry twice.
pub struct Suspects {
    pub modules: Vec<((NodeID, Option<TimeAnnotation>), String)>,
    pub blocks: Vec<((NodeID, Option<TimeAnnotation>), DataFlowBlock)>,
}

/// The view of the suspicious modules: signal and module name.
pub open spec fn modules_view(v: Seq<((NodeID, Option<TimeAnnotation>), String)>) -> Seq<((NodeKey, Option<TimeAnnotation>), Seq<char>)> {
    v.map_values(|e: ((NodeID, Option<TimeAnnotation>), String)| (sig_key(e.0), e.1@))
}

/// The view of the suspicious blocks: signal and block.
pub open spec fn suspect_blocks_view(v: Seq<((NodeID, Option<TimeAnnotation>), DataFlowBlock)>) -> Seq<((NodeKey, Option<TimeAnnotation>), BlockView)> {
    v.map_values(|e: ((NodeID, Option<TimeAnnotation>), DataFlowBlock)| (sig_key(e.0), e.1@))
}

/// Whether a block entry with the same signal and block id is listed.
pub open spec fn has_block_entry(v: Seq<((NodeKey, Option<TimeAnnotation>), BlockView)>, sig: (NodeKey, Option<TimeAnnotation>), bid: u64) -> bool {
    exists|i: int| 0 <= i < v.len() && (#[trigger] v[i]).0 == sig && v[i].1.bid == bid
}

impl Suspects {
    /// Nothing found yet.
    pub fn new() -> (r: Suspects)
        ensures
            r.modules@.len() == 0,
            r.blocks@.len() == 0,
    {
        Suspects { modules: Vec::new(), blocks: Vec::new() }
    }

    /// Records module `module_name` as suspicious for signal `sig`, unless
    /// that pair is already recorded.
    pub fn add_suspicious_module(&mut self, sig: (NodeID, Option<TimeAnnotation>), module_name: String)
        ensures
            final(self).blocks == old(self).blocks,
            modules_view(old(self).modules@).contains((sig_key(sig), module_name@)) ==> modules_view(
                final(self).modules@,
            ) == modules_view(old(self).modules@),
            !modules_view(old(self).modules@).contains((sig_key(sig), module_name@)) ==> modules_view(
                final(self).modules@,
            ) == modules_view(old(self).modules@).push((sig_key(sig), module_name@)),
    {
        let ghost mv = modules_view(self.modules@);
        let mut i: usize = 0;
        while i < self.modules.len()
            invariant
                mv == modules_view(self.modules@),
                i <= self.modules@.len(),
                forall|j: int| 0 <= j < i ==> mv[j] != (sig_key(sig), module_name@),
            decreases self.modules@.len() - i,
        {
            let e = &self.modules[i];
            assert(mv[i as int] == (sig_key(e.0), e.1@));
            if e.0.0.same(&sig.0) && e.0.1 == sig.1 && str_eq(e.1.as_str(), module_name.as_str()) {
                assert(mv[i as int] == (sig_key(sig), module_name@));
                return;
            }
            i = i + 1;
        }
        let ghost entry = (sig_key(sig), module_name@);
        self.modules.push((sig, module_name));
        assert(modules_view(self.modules@) =~= mv.push(entry));
    }

    /// Records `block` as suspicious for signal `sig`, unless a block with
    /// the same id is already recorded for that signal.
    pub fn add_suspicious_block(&mut self, sig: (NodeID, Option<TimeAnnotation>), block: DataFlowBlock)
        ensures
            final(self).modules == old(self).modules,
            has_block_entry(suspect_blocks_view(old(self).blocks@), sig_key(sig), block@.bid) ==> suspect_blocks_view(
                final(self).blocks@,
            ) == suspect_blocks_view(old(self).blocks@),
            !has_block_entry(suspect_blocks_view(old(self).blocks@), sig_key(sig), block@.bid) ==> suspect_blocks_view(
                final(self).blocks@,
            ) == suspect_blocks_view(old(self).blocks@).push((sig_key(sig), block@)),
    {
        let ghost bv = suspect_blocks_view(self.blocks@);
        let mut i: usize = 0;
        while i < self.blocks.len()
            invariant
                bv == suspect_blocks_view(self.blocks@),
                i <= self.blocks@.len(),
                forall|j: int| 0 <= j < i ==> !((#[trigger] bv[j]).0 == sig_key(sig) && bv[j].1.bid == block@.bid),
            decreases self.blocks@.len() - i,
        {
            let e = &self.blocks[i];
            assert(bv[i as int] == (sig_key(e.0), e.1@));
            if e.0.0.same(&sig.0) && e.0.1 == sig.1 && e.1.bid == block.bid {
                assert(bv[i as int].0 == sig_key(sig) && bv[i as int].1.bid == block@.bid);
                return;
            }
            i = i + 1;
        }
        let ghost entry = (sig_key(sig), block@);
        self.blocks.push((sig, block));
        assert(suspect_blocks_view(self.blocks@) =~= bv.push(entry));
    }

    /// The suspicious modules, each with the signal that led to it.
    pub fn get_localized_modules(&self) -> (r: Vec<(String, Option<(NodeID, Option<TimeAnnotation>)>)>)
        ensures
            r@.len() == self.modules@.len(),
            forall|i: int|
                0 <= i < r@.len() ==> (#[trigger] r@[i]).0@ == self.modules@[i].1@ && (r@[i].1 matches Some(s)
                    && sig_key(s) == sig_key(self.modules@[i].0)),
    {
        let mut r: Vec<(String, Option<(NodeID, Option<TimeAnnotation>)>)> = Vec::new();
        let mut i: usize = 0;
        while i < self.modules.len()
            invariant
                i <= self.modules@.len(),
                r@.len() == i,
                forall|j: int|
                    0 <= j < i ==> (#[trigger] r@[j]).0@ == self.modules@[j].1@ && (r@[j].1 matches Some(s)
                        && sig_key(s) == sig_key(self.modules@[j].0)),
            decreases self.modules@.len() - i,
        {
            let e = &self.modules[i];
            r.push((string_of(e.1.as_str()), Some(copy_sig(&e.0))));
            i = i + 1;
        }
        r
    }

    /// The suspicious blocks, each with the signal that led to it.
    pub fn get_localized_blocks(&self) -> (r: Vec<(DataFlowBlock, Option<(NodeID, Option<TimeAnnotation>)>)>)
        ensures
            r@.len() == self.blocks@.len(),
            forall|i: int|
                0 <= i < r@.len() ==> (#[trigger] r@[i]).0@ == self.blocks@[i].1@ && (r@[i].1 matches Some(s)
                    && sig_key(s) == sig_key(self.blocks@[i].0)),
    {
        let mut r: Vec<(DataFlowBlock, Option<(NodeID, Option<TimeAnnotation>)>)> = Vec::new();
        let mut i: usize = 0;
        while i < self.blocks.len()
            invariant
                i <= self.blocks@.len(),
                r@.len() == i,
                forall|j: int|
                    0 <= j < i ==> (#[trigger] r@[j]).0@ == self.blocks@[j].1@ && (r@[j].1 matches Some(s)
                        && sig_key(s) == sig_key(self.blocks@[j].0)),
            decreases self.blocks@.len() - i,
        {
            let e = &self.blocks[i];
            r.push((e.1.duplicate(), Some(copy_sig(&e.0))));
            i = i + 1;
        }
        r
    }
}

/// Whether a block is a module input port.
pub open spec fn is_input_block(b: BlockView) -> bool {
    b.block_type == BlockType::ModuleInput
}

/// The input port blocks of a scope, each paired with `time`, for a module
/// checker. `time` is needed only when the scope has an input port.
pub fn build_port_blocks_for_module_check(mgr: &BlockManager, scope: &str, time: Option<TimeAnnotation>) -> (r: Vec<
    (DataFlowBlock, TimeAnnotation),
>)
    requires
        mgr.wf(),
        time is None ==> !(exists|i: int|
            0 <= i < mgr.blocks_of(scope@).len() && is_input_block((#[trigger] mgr.blocks_of(scope@)[i])@)),
    ensures
        r@.map_values(|e: (DataFlowBlock, TimeAnnotation)| e.0@) == block_views(mgr.blocks_of(scope@)).filter(
            |b: BlockView| is_input_block(b),
        ),
        forall|i: int| 0 <= i < r@.len() ==> Some((#[trigger] r@[i]).1) == time,
{
    let ports = mgr.get_port_blocks(scope);
    let ghost all = mgr.blocks_of(scope@);
    proof {
        lemma_port_filter(all);
    }
    let mut r: Vec<(DataFlowBlock, TimeAnnotation)> = Vec::new();
    let mut i: usize = 0;
    let ghost pv = block_views(ports@);
    assert(pv.take(0).filter(|b: BlockView| is_input_block(b)) =~= Seq::<BlockView>::empty()) by {
        reveal(Seq::filter);
    };
    while i < ports.len()
        invariant
            pv == block_views(ports@),
            pv == block_views(all.filter(|b: DataFlowBlock| is_port(b.block_type))),
            block_views(all.filter(|b: DataFlowBlock| is_port(b.block_type))).filter(|b: BlockView| is_input_block(b))
                == block_views(all).filter(|b: BlockView| is_input_block(b)),
            time is None ==> !(exists|j: int| 0 <= j < all.len() && is_input_block((#[trigger] all[j])@)),
            i <= ports@.len(),
            r@.map_values(|e: (DataFlowBlock, TimeAnnotation)| e.0@) == pv.take(i as int).filter(
                |b: BlockView| is_input_block(b),
            ),
            forall|j: int| 0 <= j < r@.len() ==> Some((#[trigger] r@[j]).1) == time,
        decreases ports@.len() - i,
    {
        proof {
            assert(pv.take(i + 1).drop_last() =~= pv.take(i as int));
            reveal(Seq::filter);
        }
        if ports[i].block_type == BlockType::ModuleInput {
            proof {
                if time is None {
                    assert(pv[i as int] == ports@[i as int]@);
                    assert(pv.contains(pv[i as int]));
                    lemma_input_in_all(all, ports@[i as int]@);
                }
            }
            let t = time.unwrap();
            let ghost before = r@.map_values(|e: (DataFlowBlock, TimeAnnotation)| e.0@);
            r.push((ports[i].duplicate(), t));
            assert(r@.map_values(|e: (DataFlowBlock, TimeAnnotation)| e.0@) =~= before.push(ports@[i as int]@));
        }
        i = i + 1;
    }
    assert(pv.take(ports@.len() as int) =~= pv);
    r
}

/// Keeping the port blocks and then the input ports keeps the input ports.
proof fn lemma_port_filter(all: Seq<DataFlowBlock>)
    ensures
        block_views(all.filter(|b: DataFlowBlock| is_port(b.block_type))).filter(|b: BlockView| is_input_block(b))
            == block_views(all).filter(|b: BlockView| is_input_block(b)),
    decreases all.len(),
{
    reveal(Seq::filter);
    if all.len() > 0 {
        lemma_port_filter(all.drop_last());
        assert(all.drop_last().filter(|b: DataFlowBlock| is_port(b.block_type)) == all.filter(
            |b: DataFlowBlock| is_port(b.block_type),
        ).drop_last() || !is_port(all.last().block_type));
        let p = all.filter(|b: DataFlowBlock| is_port(b.block_type));
        let q = all.drop_last().filter(|b: DataFlowBlock| is_port(b.block_type));
        assert(block_views(all).drop_last() =~= block_views(all.drop_last()));
        if is_port(all.last().block_type) {
            assert(p =~= q.push(all.last()));
            assert(block_views(p) =~= block_views(q).push(all.last()@));
            assert(block_views(p).drop_last() =~= block_views(q));
        } else {
            assert(p =~= q);
        }
    } else {
        assert(all.filter(|b: DataFlowBlock| is_port(b.block_type)) =~= Seq::<DataFlowBlock>::empty());
        assert(block_views(all) =~= Seq::<BlockView>::empty());
    }
}

/// An input port among the port blocks is one of the scope's blocks.
proof fn lemma_input_in_all(all: Seq<DataFlowBlock>, b: BlockView)
    requires
        block_views(all.filter(|x: DataFlowBlock| is_port(x.block_type))).contains(b),
    ensures
        exists|j: int| 0 <= j < all.len() && (#[trigger] all[j])@ == b,
{
    let f = all.filter(|x: DataFlowBlock| is_port(x.block_type));
    let k = choose|k: int| 0 <= k < block_views(f).len() && block_views(f)[k] == b;
    assert(f.contains(f[k]));
    all.lemma_filter_contains_rev(|x: DataFlowBlock| is_port(x.block_type), f[k]);
    let j = choose|j: int| 0 <= j < all.len() && all[j] == f[k];
    assert(all[j]@ == b);
}

/// The view of a traced block with its time.
pub open spec fn traced_view(t: Seq<(DataFlowBlock, Option<TimeAnnotation>)>) -> Seq<(BlockView, Option<TimeAnnotation>)> {
    t.map_values(|e: (DataFlowBlock, Option<TimeAnnotation>)| (e.0@, e.1))
}

/// The input ports a trace visited, with their times, in trace order.
pub open spec fn visited_inputs(t: Seq<(BlockView, Option<TimeAnnotation>)>) -> Seq<(BlockView, TimeAnnotation)>
    decreases t.len(),
{
    if t.len() == 0 {
        Seq::empty()
    } else {
        let rest = visited_inputs(t.drop_last());
        if is_input_block(t.last().0) {
            rest.push((t.last().0, t.last().1.unwrap()))
        } else {
            rest
        }
    }
}

/// The entries of `v` for the block `bid`, in order.
pub open spec fn entries_of(v: Seq<(BlockView, TimeAnnotation)>, bid: u64) -> Seq<(BlockView, TimeAnnotation)>
    decreases v.len(),
{
    if v.len() == 0 {
        Seq::empty()
    } else {
        let rest = entries_of(v.drop_last(), bid);
        if v.last().0.bid == bid {
            rest.push(v.last())
        } else {
            rest
        }
    }
}

/// For each port block in turn, the visited entries of that block.
pub open spec fn ports_in_trace(ports: Seq<BlockView>, v: Seq<(BlockView, TimeAnnotation)>) -> Seq<(BlockView, TimeAnnotation)>
    decreases ports.len(),
{
    if ports.len() == 0 {
        Seq::empty()
    } else {
        ports_in_trace(ports.drop_last(), v) + entries_of(v, ports.last().bid)
    }
}

/// The view of blocks with times.
pub open spec fn timed_blocks_view(t: Seq<(DataFlowBlock, TimeAnnotation)>) -> Seq<(BlockView, TimeAnnotation)> {
    t.map_values(|e: (DataFlowBlock, TimeAnnotation)| (e.0@, e.1))
}

/// The input ports a trace visited, taken port by port in the order of the
/// port blocks of scope `cur_scope`, each with the time it was visited at.
pub fn filter_input_ports_from_trace(
    mgr: &BlockManager,
    cur_scope: &str,
    local_trace: &Vec<(DataFlowBlock, Option<TimeAnnotation>)>,
) -> (r: Vec<(DataFlowBlock, TimeAnnotation)>)
    requires
        mgr.wf(),
        forall|i: int|
            0 <= i < local_trace@.len() && is_input_block((#[trigger] local_trace@[i]).0@) ==> local_trace@[i].1 is Some,
    ensures
        timed_blocks_view(r@) == ports_in_trace(
            block_views(mgr.blocks_of(cur_scope@).filter(|b: DataFlowBlock| is_port(b.block_type))),
            visited_inputs(traced_view(local_trace@)),
        ),
{
    let ghost tv = traced_view(local_trace@);
    let mut visited: Vec<(DataFlowBlock, TimeAnnotation)> = Vec::new();
    let mut i: usize = 0;
    assert(tv.take(0) =~= Seq::<(BlockView, Option<TimeAnnotation>)>::empty());
    while i < local_trace.len()
        invariant
            tv == traced_view(local_trace@),
            i <= local_trace@.len(),
            forall|j: int|
                0 <= j < local_trace@.len() && is_input_block((#[trigger] local_trace@[j]).0@) ==> local_trace@[j].1 is Some,
            timed_blocks_view(visited@) == visited_inputs(tv.take(i as int)),
        decreases local_trace@.len() - i,
    {
        assert(tv.take(i + 1).drop_last() =~= tv.take(i as int));
        assert(tv.take(i + 1).last() == (local_trace@[i as int].0@, local_trace@[i as int].1));
        if local_trace[i].0.block_type == BlockType::ModuleInput {
            let t = local_trace[i].1.unwrap();
            let ghost before = timed_blocks_view(visited@);
            visited.push((local_trace[i].0.duplicate(), t));
            assert(timed_blocks_view(visited@) =~= before.push((local_trace@[i as int].0@, t)));
        }
        i = i + 1;
    }
    assert(tv.take(local_trace@.len() as int) =~= tv);
    let ghost vv = timed_blocks_view(visited@);
    let ports = mgr.get_port_blocks(cur_scope);
    let ghost pv = block_views(ports@);
    let mut r: Vec<(DataFlowBlock, TimeAnnotation)> = Vec::new();
    let mut p: usize = 0;
    assert(pv.take(0) =~= Seq::<BlockView>::empty());
    while p < ports.len()
        invariant
            vv == timed_blocks_view(visited@),
            pv == block_views(ports@),
            p <= ports@.len(),
            timed_blocks_view(r@) == ports_in_trace(pv.take(p as int), vv),
        decreases ports@.len() - p,
    {
        assert(pv.take(p + 1).drop_last() =~= pv.take(p as int));
        assert(pv.take(p + 1).last() == ports@[p as int]@);
        let bid = ports[p].bid;
        let ghost start = timed_blocks_view(r@);
        let mut q: usize = 0;
        assert(vv.take(0) =~= Seq::<(BlockView, TimeAnnotation)>::empty());
        while q < visited.len()
            invariant
                vv == timed_blocks_view(visited@),
                q <= visited@.len(),
                timed_blocks_view(r@) == start + entries_of(vv.take(q as int), bid),
            decreases visited@.len() - q,
        {
            assert(vv.take(q + 1).drop_last() =~= vv.take(q as int));
            assert(vv.take(q + 1).last() == (visited@[q as int].0@, visited@[q as int].1));
            if visited[q].0.bid == bid {
                let ghost before = timed_blocks_view(r@);
                r.push((visited[q].0.duplicate(), visited[q].1));
                assert(timed_blocks_view(r@) =~= before.push((visited@[q as int].0@, visited@[q as int].1)));
            }
            q = q + 1;
        }
        assert(vv.take(visited@.len() as int) =~= vv);
        p = p + 1;
    }
    assert(pv.take(ports@.len() as int) =~= pv);
    r
}

} // verus!
