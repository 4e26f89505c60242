//! Two tracers: dynamic slicing, which follows only the lines that simulation
//! reached, and static slicing, which follows all dataflow.
use vstd::prelude::*;

use crate::block::{key_texts, node_keys, node_text, BlockType, CircuitType, NodeID, NodeKey, TimeAnnotation};
use crate::coverage::CoverageTracker;
use crate::dfb::{df_lookup, table_view, BlockView, DataFlowBlock};
use crate::mgr::{original_lineno, BlockManager, SrcLocate};
use crate::text::{str_contains, str_ends_with, str_eq, str_is, str_starts_with};
use crate::tracer::{in_manager, next_time, value_keys, time_ok, Tracer};

verus! {

/// What a dataflow table records for a key is among its values.
pub proof fn lemma_lookup_in_values(s: Seq<(NodeID, Vec<NodeID>)>, k: NodeKey, x: NodeKey)
    requires
        df_lookup(s, k).contains(x),
    ensures
        value_keys(table_view(s)).contains(x),
    decreases s.len(),
{
    let tv = table_view(s);
    assert(tv.len() == s.len());
    if s[0].0@ == k {
        assert(tv[0].1 == node_keys(s[0].1@));
        let j = choose|j: int| 0 <= j < df_lookup(s, k).len() && #[trigger] df_lookup(s, k)[j] == x;
        lemma_value_keys_contains(tv, 0, j);
    } else {
        lemma_lookup_in_values(s.drop_first(), k, x);
        assert(table_view(s.drop_first()) =~= tv.drop_first());
        let vk = value_keys(tv.drop_first());
        let j = choose|j: int| 0 <= j < vk.len() && #[trigger] vk[j] == x;
        lemma_value_keys_drop_first(tv, x);
    }
}

/// An element of an entry's values is among all values.
proof fn lemma_value_keys_contains(d: Seq<(NodeKey, Seq<NodeKey>)>, e: int, j: int)
    requires
        0 <= e < d.len(),
        0 <= j < d[e].1.len(),
    ensures
        value_keys(d).contains(d[e].1[j]),
    decreases d.len(),
{
    let prev = value_keys(d.drop_last());
    if e == d.len() - 1 {
        assert((prev + d.last().1)[prev.len() + j] == d[e].1[j]);
    } else {
        assert(d.drop_last()[e] == d[e]);
        lemma_value_keys_contains(d.drop_last(), e, j);
        let k = choose|k: int| 0 <= k < prev.len() && prev[k] == d[e].1[j];
        assert((prev + d.last().1)[k] == d[e].1[j]);
    }
}

/// The values of all but the first entry are among all values.
proof fn lemma_value_keys_drop_first(d: Seq<(NodeKey, Seq<NodeKey>)>, x: NodeKey)
    requires
        d.len() > 0,
        value_keys(d.drop_first()).contains(x),
    ensures
        value_keys(d).contains(x),
{
    let vk = value_keys(d.drop_first());
    let t = choose|t: int| 0 <= t < vk.len() && vk[t] == x;
    let (e, j) = lemma_value_keys_index(d.drop_first(), t);
    assert(d[e + 1] == d.drop_first()[e]);
    lemma_value_keys_contains(d, e + 1, j);
}

/// Each value comes from some entry.
proof fn lemma_value_keys_index(d: Seq<(NodeKey, Seq<NodeKey>)>, t: int) -> (r: (int, int))
    requires
        0 <= t < value_keys(d).len(),
    ensures
        0 <= r.0 < d.len(),
        0 <= r.1 < d[r.0].1.len(),
        d[r.0].1[r.1] == value_keys(d)[t],
    decreases d.len(),
{
    let prev = value_keys(d.drop_last());
    if t < prev.len() {
        let (e, j) = lemma_value_keys_index(d.drop_last(), t);
        assert(d.drop_last()[e] == d[e]);
        (e, j)
    } else {
        (d.len() - 1, t - prev.len())
    }
}

/// The identifiers `node` depends on in the block's dataflow, each once.
pub fn identifier_deps(block: &DataFlowBlock, node: &NodeID) -> (r: Vec<NodeID>)
    ensures
        forall|i: int| 0 <= i < r@.len() ==> (#[trigger] r@[i]@).ident && value_keys(block@.dataflow).contains(r@[i]@),
        crate::dfb::no_dups(node_keys(r@)),
        forall|k: NodeKey| node_keys(r@).contains(k) <==> (k.ident && block.dataflow_of(node@).contains(k)),
{
    let deps = block.get_node_dataflow(node);
    let ghost dk = node_keys(deps@);
    let mut r: Vec<NodeID> = Vec::new();
    let mut i: usize = 0;
    while i < deps.len()
        invariant
            i <= deps.len(),
            dk == node_keys(deps@),
            crate::dfb::no_dups(dk),
            forall|k: NodeKey| dk.contains(k) <==> block.dataflow_of(node@).contains(k),
            forall|q: int| 0 <= q < r@.len() ==> (#[trigger] r@[q]@).ident && value_keys(block@.dataflow).contains(r@[q]@),
            crate::dfb::no_dups(node_keys(r@)),
            forall|k: NodeKey| node_keys(r@).contains(k) <==> (k.ident && dk.take(i as int).contains(k)),
        decreases deps.len() - i,
    {
        let ghost before = node_keys(r@);
        assert(dk.take(i + 1) =~= dk.take(i as int).push(dk[i as int]));
        assert(dk[i as int] == deps@[i as int]@);
        if deps[i].is_identifier() {
            proof {
                assert(dk.contains(deps@[i as int]@));
                assert(block.dataflow_of(node@).contains(deps@[i as int]@));
                lemma_lookup_in_values(block.nodes_dataflow@, node@, deps@[i as int]@);
            }
            r.push(deps[i].duplicate());
            proof {
                let x = dk[i as int];
                assert(dk.take(i + 1)[i as int] == x);
                assert(x.ident);
                assert(node_keys(r@) =~= before.push(x));
                assert(!before.contains(x)) by {
                    if before.contains(x) {
                        assert(dk.take(i as int).contains(x));
                        let j = choose|j: int| 0 <= j < dk.take(i as int).len() && #[trigger] dk.take(i as int)[j] == x;
                        assert(dk[j] == dk[i as int]);
                    }
                };
                assert forall|k: NodeKey| node_keys(r@).contains(k) <==> (k.ident && dk.take(i + 1).contains(k)) by {
                    if node_keys(r@).contains(k) && k != x {
                        let j = choose|j: int| 0 <= j < node_keys(r@).len() && #[trigger] node_keys(r@)[j] == k;
                        assert(before[j] == k);
                        assert(before.contains(k));
                        let j2 = choose|j2: int| 0 <= j2 < dk.take(i as int).len() && #[trigger] dk.take(i as int)[j2] == k;
                        assert(dk.take(i + 1)[j2] == k);
                    }
                    if k.ident && dk.take(i + 1).contains(k) {
                        if k == x {
                            assert(node_keys(r@)[before.len() as int] == k);
                        } else {
                            let j = choose|j: int| 0 <= j < dk.take(i + 1).len() && #[trigger] dk.take(i + 1)[j] == k;
                            assert(dk.take(i as int)[j] == k);
                            assert(before.contains(k));
                            let j2 = choose|j2: int| 0 <= j2 < before.len() && #[trigger] before[j2] == k;
                            assert(node_keys(r@)[j2] == k);
                        }
                    }
                };
            }
        } else {
            proof {
                assert forall|k: NodeKey| node_keys(r@).contains(k) <==> (k.ident && dk.take(i + 1).contains(k)) by {
                    if k.ident && dk.take(i + 1).contains(k) {
                        let j = choose|j: int| 0 <= j < dk.take(i + 1).len() && #[trigger] dk.take(i + 1)[j] == k;
                        if j < i {
                            assert(dk.take(i as int)[j] == k);
                        }
                    }
                    if node_keys(r@).contains(k) {
                        let j2 = choose|j2: int| 0 <= j2 < dk.take(i as int).len() && #[trigger] dk.take(i as int)[j2] == k;
                        assert(dk.take(i + 1)[j2] == k);
                    }
                };
            }
        }
        i = i + 1;
    }
    assert(dk.take(deps@.len() as int) =~= dk);
    r
}

/// The outputs of a block named like `sig`, in order.
fn outputs_named(block: &DataFlowBlock, sig: &NodeID) -> (r: Vec<NodeID>)
    ensures
        forall|i: int| 0 <= i < r@.len() ==> node_text(#[trigger] r@[i]@) == node_text(sig@),
        node_keys(r@) == block@.outputs.filter(|k: NodeKey| node_text(k) == node_text(sig@)),
{
    let ghost ov = block@.outputs;
    let ghost f = |k: NodeKey| node_text(k) == node_text(sig@);
    let mut r: Vec<NodeID> = Vec::new();
    let mut i: usize = 0;
    assert(ov.take(0).filter(f) =~= Seq::<NodeKey>::empty()) by {
        reveal(Seq::filter);
    };
    while i < block.outputs.len()
        invariant
            i <= block.outputs.len(),
            ov == block@.outputs,
            ov == node_keys(block.outputs@),
            f == (|k: NodeKey| node_text(k) == node_text(sig@)),
            forall|q: int| 0 <= q < r@.len() ==> node_text(#[trigger] r@[q]@) == node_text(sig@),
            node_keys(r@) == ov.take(i as int).filter(f),
        decreases block.outputs.len() - i,
    {
        proof {
            assert(ov.take(i + 1).drop_last() =~= ov.take(i as int));
            assert(ov.take(i + 1).last() == block.outputs@[i as int]@);
            reveal(Seq::filter);
        }
        let ghost before = node_keys(r@);
        if block.outputs[i].same_text(sig) {
            r.push(block.outputs[i].duplicate());
            assert(node_keys(r@) =~= before.push(block.outputs@[i as int]@));
        }
        i = i + 1;
    }
    assert(ov.take(ov.len() as int) =~= ov);
    r
}

/// Whether `k` is an identifier that one of `nodes` depends on in the block.
pub open spec fn dep_of_any(block: DataFlowBlock, nodes: Seq<NodeKey>, k: NodeKey) -> bool {
    exists|j: int| 0 <= j < nodes.len() && k.ident && #[trigger] block.dataflow_of(nodes[j]).contains(k)
}

/// Appends the identifiers each of `nodes` depends on in the block, node
/// after node, each once per node.
fn push_deps(block: &DataFlowBlock, nodes: &Vec<NodeID>, out: &mut Vec<NodeID>)
    requires
        forall|i: int| 0 <= i < old(out)@.len() ==> #[trigger] value_keys(block@.dataflow).contains(old(out)@[i]@),
    ensures
        forall|i: int| 0 <= i < final(out)@.len() ==> #[trigger] value_keys(block@.dataflow).contains(final(out)@[i]@),
        final(out)@.len() >= old(out)@.len(),
        final(out)@.take(old(out)@.len() as int) == old(out)@,
        forall|k: NodeKey|
            node_keys(final(out)@.skip(old(out)@.len() as int)).contains(k) <==> dep_of_any(*block, node_keys(nodes@), k),
{
    let ghost start = out@;
    let ghost nk = node_keys(nodes@);
    let mut k: usize = 0;
    assert(out@.skip(start.len() as int) =~= Seq::<NodeID>::empty());
    while k < nodes.len()
        invariant
            k <= nodes.len(),
            nk == node_keys(nodes@),
            forall|i: int| 0 <= i < out@.len() ==> #[trigger] value_keys(block@.dataflow).contains(out@[i]@),
            out@.len() >= start.len(),
            out@.take(start.len() as int) == start,
            forall|x: NodeKey| node_keys(out@.skip(start.len() as int)).contains(x) <==> dep_of_any(*block, nk.take(k as int), x),
        decreases nodes.len() - k,
    {
        let deps = identifier_deps(block, &nodes[k]);
        let ghost mid = out@;
        let mut z: usize = 0;
        while z < deps.len()
            invariant
                z <= deps.len(),
                forall|i: int| 0 <= i < deps@.len() ==> (#[trigger] deps@[i]@).ident && value_keys(block@.dataflow).contains(deps@[i]@),
                forall|i: int| 0 <= i < out@.len() ==> #[trigger] value_keys(block@.dataflow).contains(out@[i]@),
                out@.len() == mid.len() + z,
                out@.take(mid.len() as int) == mid,
                node_keys(out@.skip(mid.len() as int)) == node_keys(deps@.take(z as int)),
            decreases deps.len() - z,
        {
            assert(value_keys(block@.dataflow).contains(deps@[z as int]@));
            let ghost pre = out@;
            out.push(deps[z].duplicate());
            assert(out@.take(mid.len() as int) =~= pre.take(mid.len() as int));
            assert(node_keys(out@.skip(mid.len() as int)) =~= node_keys(pre.skip(mid.len() as int)).push(deps@[z as int]@));
            assert(node_keys(deps@.take(z + 1)) =~= node_keys(deps@.take(z as int)).push(deps@[z as int]@));
            z = z + 1;
        }
        proof {
            assert(deps@.take(deps@.len() as int) =~= deps@);
            assert(out@.take(start.len() as int) =~= start) by {
                assert(mid.take(start.len() as int) == start);
                assert(out@.take(mid.len() as int) == mid);
                assert forall|q: int| 0 <= q < start.len() implies out@[q] == start[q] by {
                    assert(out@.take(mid.len() as int)[q] == mid[q]);
                    assert(mid.take(start.len() as int)[q] == start[q]);
                };
            };
            assert(node_keys(out@.skip(start.len() as int)) =~= node_keys(mid.skip(start.len() as int)) + node_keys(deps@)) by {
                let a = node_keys(out@.skip(start.len() as int));
                let b = node_keys(mid.skip(start.len() as int)) + node_keys(deps@);
                assert(a.len() == b.len());
                assert forall|q: int| 0 <= q < a.len() implies a[q] == b[q] by {
                    let p = start.len() + q;
                    if p < mid.len() {
                        assert(out@.take(mid.len() as int)[p] == mid[p]);
                    } else {
                        assert(node_keys(out@.skip(mid.len() as int))[p - mid.len()] == node_keys(deps@)[p - mid.len()]);
                    }
                };
            };
            assert(nk.take(k + 1) =~= nk.take(k as int).push(nodes@[k as int]@));
            let old_part = node_keys(mid.skip(start.len() as int));
            let new_part = node_keys(deps@);
            assert forall|x: NodeKey| node_keys(out@.skip(start.len() as int)).contains(x) <==> dep_of_any(*block, nk.take(k + 1), x) by {
                let whole = node_keys(out@.skip(start.len() as int));
                if whole.contains(x) {
                    let j = choose|j: int| 0 <= j < whole.len() && #[trigger] whole[j] == x;
                    if j < old_part.len() {
                        assert(old_part[j] == x);
                        assert(dep_of_any(*block, nk.take(k as int), x));
                        let w = choose|w: int| 0 <= w < nk.take(k as int).len() && x.ident && #[trigger] block.dataflow_of(nk.take(k as int)[w]).contains(x);
                        assert(nk.take(k + 1)[w] == nk.take(k as int)[w]);
                    } else {
                        assert(new_part[j - old_part.len()] == x);
                        assert(new_part.contains(x));
                        assert(nk.take(k + 1)[k as int] == nodes@[k as int]@);
                        assert(block.dataflow_of(nk.take(k + 1)[k as int]).contains(x));
                    }
                }
                if dep_of_any(*block, nk.take(k + 1), x) {
                    let w = choose|w: int| 0 <= w < nk.take(k + 1).len() && x.ident && #[trigger] block.dataflow_of(nk.take(k + 1)[w]).contains(x);
                    if w < k {
                        assert(nk.take(k as int)[w] == nk.take(k + 1)[w]);
                        assert(dep_of_any(*block, nk.take(k as int), x));
                        assert(old_part.contains(x));
                        let j = choose|j: int| 0 <= j < old_part.len() && #[trigger] old_part[j] == x;
                        assert(whole[j] == x);
                    } else {
                        assert(nk.take(k + 1)[w] == nodes@[k as int]@);
                        assert(new_part.contains(x));
                        let j = choose|j: int| 0 <= j < new_part.len() && #[trigger] new_part[j] == x;
                        assert(whole[old_part.len() + j] == x);
                    }
                }
            };
        }
        k = k + 1;
    }
    assert(nk.take(nodes@.len() as int) =~= nk);
}

/// Whether (`bid`, `k`) has a visit count.
pub open spec fn seen_key(v: Seq<((u64, NodeID), usize)>, bid: u64, k: NodeKey) -> bool {
    exists|i: int| 0 <= i < v.len() && v[i].0.0 == bid && v[i].0.1@ == k
}

/// A line with a positive count.
pub open spec fn line_hit(c: Seq<(u32, usize)>, line: u32) -> bool {
    exists|k: int| 0 <= k < c.len() && c[k].0 == line && c[k].1 > 0
}

/// The `i`-th signal of `l` was not visited in block `bid` before, neither
/// earlier nor among the signals before it.
pub open spec fn fresh(v: Seq<((u64, NodeID), usize)>, bid: u64, l: Seq<NodeKey>, i: int) -> bool {
    !seen_key(v, bid, l[i]) && !l.take(i).contains(l[i])
}

/// Whether a signal name looks like data: not a handshake (`_valid`,
/// `_ready`), a performance counter (`perfCnt`), a generated temporary
/// (`_GEN`) or a bored-through wire (`__bore`).
pub open spec fn is_data_text(t: Seq<char>) -> bool {
    !crate::text::is_suffix("_valid"@, t) && !crate::text::is_suffix("_ready"@, t) && t != "valid"@
        && t != "ready"@ && !crate::text::contains_seq(t, "perfCnt"@) && !crate::text::contains_seq(t, "perfCntCond"@)
        && !crate::text::contains_seq(t, "perfCntCond_"@) && !crate::text::is_prefix("_GEN"@, t)
        && !crate::text::is_suffix("__bore"@, t)
}

/// The driven signals of a block named like `sig`.
pub open spec fn named_outputs(b: BlockView, sig: NodeKey) -> Seq<NodeKey> {
    b.outputs.filter(|o: NodeKey| node_text(o) == node_text(sig))
}

/// Every driven signal of a block other than a continuous assignment has a
/// line in the original source.
pub open spec fn origins_known(m: BlockManager, b: BlockView) -> bool {
    b.block_type != BlockType::Assign ==> forall|i: int|
        0 <= i < b.outputs.len() ==> #[trigger] original_lineno(&m, b.scope, b.module_name, b.outputs[i].locate.offset)
            is Some
}

/// Tracing that follows only the lines reached in simulation, at the time
/// they were reached.
pub struct DynamicSlicing<'b, CT: CoverageTracker> {
    pub time_step: TimeAnnotation,
    pub block_manager: &'b BlockManager,
    pub coverage_tracker: CT,
    /// How often each (block, driven node) was visited.
    pub pos_visited: Vec<((u64, NodeID), usize)>,
}

impl<'b, CT: CoverageTracker> DynamicSlicing<'b, CT> {
    pub fn new(time_step: TimeAnnotation, block_manager: &'b BlockManager, coverage_tracker: CT) -> (r: DynamicSlicing<'b, CT>)
        ensures
            r.time_step == time_step,
            *r.block_manager == *block_manager,
            r.coverage_tracker == coverage_tracker,
            r.pos_visited@.len() == 0,
    {
        DynamicSlicing { time_step, block_manager, coverage_tracker, pos_visited: Vec::new() }
    }

    /// Records a visit of (bid, node); whether it is the first.
    fn visit(&mut self, bid: u64, node: &NodeID) -> (first: bool)
        ensures
            final(self).time_step == old(self).time_step,
            final(self).block_manager == old(self).block_manager,
            final(self).coverage_tracker == old(self).coverage_tracker,
            first == !exists|i: int| 0 <= i < old(self).pos_visited@.len() && old(self).pos_visited@[i].0.0 == bid
                && old(self).pos_visited@[i].0.1@ == node@,
            first == !seen_key(old(self).pos_visited@, bid, node@),
            forall|b: u64, k: NodeKey|
                #[trigger] seen_key(final(self).pos_visited@, b, k) <==> (seen_key(old(self).pos_visited@, b, k) || (b == bid
                    && k == node@)),
    {
        let mut i: usize = 0;
        while i < self.pos_visited.len()
            invariant
                self.pos_visited@ == old(self).pos_visited@,
                self.time_step == old(self).time_step,
                self.block_manager == old(self).block_manager,
                self.coverage_tracker == old(self).coverage_tracker,
                i <= self.pos_visited.len(),
                forall|j: int| 0 <= j < i ==> !(self.pos_visited@[j].0.0 == bid && self.pos_visited@[j].0.1@ == node@),
            decreases self.pos_visited.len() - i,
        {
            if self.pos_visited[i].0.0 == bid && self.pos_visited[i].0.1.same(node) {
                let count = self.pos_visited[i].1;
                let key = (bid, node.duplicate());
                let ghost before = self.pos_visited@;
                self.pos_visited.set(i, (key, count.saturating_add(1)));
                proof {
                    assert forall|b: u64, k: NodeKey| #[trigger] seen_key(self.pos_visited@, b, k) <==> seen_key(before, b, k) by {
                        if seen_key(before, b, k) {
                            let j = choose|j: int| 0 <= j < before.len() && before[j].0.0 == b && before[j].0.1@ == k;
                            assert(self.pos_visited@[j].0.0 == b && self.pos_visited@[j].0.1@ == k);
                        }
                        if seen_key(self.pos_visited@, b, k) {
                            let j = choose|j: int| 0 <= j < self.pos_visited@.len() && self.pos_visited@[j].0.0 == b
                                && self.pos_visited@[j].0.1@ == k;
                            assert(before[j].0.0 == b && before[j].0.1@ == k);
                        }
                    };
                    assert(seen_key(before, bid, node@)) by {
                        assert(before[i as int].0.0 == bid && before[i as int].0.1@ == node@);
                    };
                }
                return false;
            }
            i = i + 1;
        }
        let ghost before = self.pos_visited@;
        self.pos_visited.push(((bid, node.duplicate()), 1));
        proof {
            assert forall|b: u64, k: NodeKey| #[trigger] seen_key(self.pos_visited@, b, k) <==> (seen_key(before, b, k) || (b
                == bid && k == node@)) by {
                if seen_key(before, b, k) {
                    let j = choose|j: int| 0 <= j < before.len() && before[j].0.0 == b && before[j].0.1@ == k;
                    assert(self.pos_visited@[j] == before[j]);
                }
                if seen_key(self.pos_visited@, b, k) {
                    let j = choose|j: int| 0 <= j < self.pos_visited@.len() && self.pos_visited@[j].0.0 == b
                        && self.pos_visited@[j].0.1@ == k;
                    if j < before.len() {
                        assert(self.pos_visited@[j] == before[j]);
                    }
                }
                if b == bid && k == node@ {
                    assert(self.pos_visited@[before.len() as int].0.1@ == node@);
                }
            };
        }
        true
    }

    /// The lines of a block reached at `time`: each driven signal's line in
    /// the preprocessed source, with the count of its original line; lines
    /// without an original line or without coverage are left out.
    pub fn get_block_covered_ast_lines(&self, block: &DataFlowBlock, time: TimeAnnotation) -> (r: Vec<(u32, usize)>)
        requires
            self.block_manager.wf(),
        ensures
            r@ == self.covered_lines(block@.outputs, block@, time),
    {
        let ghost outs = block@.outputs;
        let mut r: Vec<(u32, usize)> = Vec::new();
        let mut i: usize = 0;
        while i < block.outputs.len()
            invariant
                self.block_manager.wf(),
                i <= block.outputs.len(),
                outs == block@.outputs,
                outs.len() == block.outputs@.len(),
                r@ == self.covered_lines(outs.take(i as int), block@, time),
            decreases block.outputs.len() - i,
        {
            assert(outs.take(i + 1).drop_last() =~= outs.take(i as int));
            assert(outs.take(i + 1).last() == block.outputs@[i as int]@);
            let loc = *block.outputs[i].get_locate();
            let ast = SrcLocate { offset: loc.offset, line: loc.line, len: loc.len };
            match self.block_manager.get_original_lineno_from_ast_locate(block.scope.as_str(), block.module_name.as_str(), ast) {
                Some(lineno) => {
                    match self.coverage_tracker.check_line_covered(
                        Some(block.block_type),
                        Some(block.scope.as_str()),
                        Some(block.module_name.as_str()),
                        Some(time),
                        lineno as u32,
                    ) {
                        Some(count) => r.push((loc.line, count)),
                        None => {},
                    }
                },
                None => {},
            }
            i = i + 1;
        }
        assert(outs.take(outs.len() as int) =~= outs);
        r
    }

    /// For each of the driven signals `outs` of block `b`, in order: the
    /// signal's line, with the count coverage gives at `time` for its line in
    /// the original source, where both are known.
    pub open spec fn covered_lines(&self, outs: Seq<NodeKey>, b: BlockView, time: TimeAnnotation) -> Seq<(u32, usize)>
        decreases outs.len(),
    {
        if outs.len() == 0 {
            Seq::empty()
        } else {
            let prev = self.covered_lines(outs.drop_last(), b, time);
            let loc = outs.last().locate;
            match original_lineno(self.block_manager, b.scope, b.module_name, loc.offset) {
                Some(l) => match self.coverage_tracker.spec_line_covered(
                    Some(b.block_type),
                    Some(b.scope),
                    Some(b.module_name),
                    Some(time),
                    l as u32,
                ) {
                    Some(c) => prev.push((loc.line, c)),
                    None => prev,
                },
                None => prev,
            }
        }
    }
}

impl<'b, CT: CoverageTracker> DynamicSlicing<'b, CT> {
    /// Coverage answers `c` for the line in the original source that the
    /// manager maps driven signal `o` of block `b` to, asked at time `t`.
    pub open spec fn counted_at_original(&self, o: NodeKey, b: BlockView, t: Option<TimeAnnotation>, c: usize) -> bool {
        &&& original_lineno(self.block_manager, b.scope, b.module_name, o.locate.offset) is Some
        &&& self.coverage_tracker.spec_line_covered(
            Some(b.block_type),
            Some(b.scope),
            Some(b.module_name),
            t,
            original_lineno(self.block_manager, b.scope, b.module_name, o.locate.offset).unwrap() as u32,
        ) == Some(c)
    }

    /// Each entry of the covered lines is a driven signal's preprocessed line
    /// with the count coverage gives for the signal's line in the original
    /// source (not for its preprocessed line); every signal with such a count
    /// has its entry; there are no more entries than signals.
    pub proof fn lemma_covered_lines_original(&self, outs: Seq<NodeKey>, b: BlockView, time: TimeAnnotation)
        ensures
            self.covered_lines(outs, b, time).len() <= outs.len(),
            forall|j: int| #![trigger self.covered_lines(outs, b, time)[j]] 0 <= j < self.covered_lines(outs, b, time).len() ==> exists|i: int|
                0 <= i < outs.len() && (#[trigger] outs[i]).locate.line == self.covered_lines(outs, b, time)[j].0
                    && self.counted_at_original(outs[i], b, Some(time), self.covered_lines(outs, b, time)[j].1),
            forall|i: int, c: usize| 0 <= i < outs.len() && #[trigger] self.counted_at_original(outs[i], b, Some(time), c)
                ==> self.covered_lines(outs, b, time).contains((outs[i].locate.line, c)),
        decreases outs.len(),
    {
        if outs.len() > 0 {
            let pre = outs.drop_last();
            self.lemma_covered_lines_original(pre, b, time);
            let prev = self.covered_lines(pre, b, time);
            let cur = self.covered_lines(outs, b, time);
            let o = outs.last();
            assert forall|j: int| #![trigger cur[j]] 0 <= j < cur.len() implies exists|i: int|
                0 <= i < outs.len() && (#[trigger] outs[i]).locate.line == cur[j].0 && self.counted_at_original(outs[i], b, Some(time), cur[j].1) by {
                if j < prev.len() {
                    assert(cur[j] == prev[j]);
                    let i = choose|i: int| 0 <= i < pre.len() && (#[trigger] pre[i]).locate.line == prev[j].0
                        && self.counted_at_original(pre[i], b, Some(time), prev[j].1);
                    assert(outs[i] == pre[i]);
                } else {
                    assert(outs[outs.len() - 1] == o);
                }
            };
            assert forall|i: int, c: usize| 0 <= i < outs.len() && #[trigger] self.counted_at_original(outs[i], b, Some(time), c)
                implies cur.contains((outs[i].locate.line, c)) by {
                if i < pre.len() {
                    assert(outs[i] == pre[i]);
                    assert(prev.contains((outs[i].locate.line, c)));
                    let j = choose|j: int| 0 <= j < prev.len() && prev[j] == (outs[i].locate.line, c);
                    assert(cur[j] == prev[j]);
                } else {
                    assert(outs[i] == o);
                    assert(cur[prev.len() as int] == (o.locate.line, c));
                }
            };
        }
    }

    /// For a block other than a continuous assignment, each reached line is
    /// a driven signal's preprocessed line with the count coverage gives for
    /// the signal's line in the original source, and every signal with such
    /// a count has its entry; for a continuous assignment every driven signal
    /// counts once.
    pub proof fn lemma_reached_lines_original(&self, outs: Seq<NodeKey>, b: BlockView, t: Option<TimeAnnotation>)
        ensures
            self.reached_lines(outs, b, t).len() <= outs.len(),
            b.block_type != BlockType::Assign ==> forall|j: int| #![trigger self.reached_lines(outs, b, t)[j]] 0 <= j < self.reached_lines(outs, b, t).len() ==> exists|i: int|
                0 <= i < outs.len() && (#[trigger] outs[i]).locate.line == self.reached_lines(outs, b, t)[j].0
                    && self.counted_at_original(outs[i], b, t, self.reached_lines(outs, b, t)[j].1),
            b.block_type != BlockType::Assign ==> forall|i: int, c: usize| 0 <= i < outs.len() && #[trigger] self.counted_at_original(outs[i], b, t, c) ==> self.reached_lines(outs, b, t).contains((outs[i].locate.line, c)),
            b.block_type == BlockType::Assign ==> self.reached_lines(outs, b, t) == outs.map_values(|o: NodeKey| (o.locate.line, 1usize)),
        decreases outs.len(),
    {
        if outs.len() > 0 {
            let pre = outs.drop_last();
            self.lemma_reached_lines_original(pre, b, t);
            let prev = self.reached_lines(pre, b, t);
            let cur = self.reached_lines(outs, b, t);
            let o = outs.last();
            if b.block_type == BlockType::Assign {
                assert(cur =~= outs.map_values(|o: NodeKey| (o.locate.line, 1usize)));
            } else {
                assert forall|j: int| #![trigger cur[j]] 0 <= j < cur.len() implies exists|i: int|
                    0 <= i < outs.len() && (#[trigger] outs[i]).locate.line == cur[j].0 && self.counted_at_original(outs[i], b, t, cur[j].1) by {
                    if j < prev.len() {
                        assert(cur[j] == prev[j]);
                        let i = choose|i: int| 0 <= i < pre.len() && (#[trigger] pre[i]).locate.line == prev[j].0
                            && self.counted_at_original(pre[i], b, t, prev[j].1);
                        assert(outs[i] == pre[i]);
                    } else {
                        assert(outs[outs.len() - 1] == o);
                    }
                };
                assert forall|i: int, c: usize| 0 <= i < outs.len() && #[trigger] self.counted_at_original(outs[i], b, t, c)
                    implies cur.contains((outs[i].locate.line, c)) by {
                    if i < pre.len() {
                        assert(outs[i] == pre[i]);
                        assert(prev.contains((outs[i].locate.line, c)));
                        let j = choose|j: int| 0 <= j < prev.len() && prev[j] == (outs[i].locate.line, c);
                        assert(cur[j] == prev[j]);
                    } else {
                        assert(outs[i] == o);
                        assert(cur[prev.len() as int] == (o.locate.line, c));
                    }
                };
            }
        } else {
            assert(outs.map_values(|o: NodeKey| (o.locate.line, 1usize)) =~= Seq::<(u32, usize)>::empty());
        }
    }

    /// The lines of the driven signals `outs` of block `b` that simulation
    /// reached at `t`, in order, each with its count: every line of a
    /// continuous assignment counts once; for other blocks, the count coverage
    /// gives for the signal's line in the original source, where there is one.
    pub open spec fn reached_lines(&self, outs: Seq<NodeKey>, b: BlockView, t: Option<TimeAnnotation>) -> Seq<(u32, usize)>
        decreases outs.len(),
    {
        if outs.len() == 0 {
            Seq::empty()
        } else {
            let prev = self.reached_lines(outs.drop_last(), b, t);
            let loc = outs.last().locate;
            if b.block_type == BlockType::Assign {
                prev.push((loc.line, 1))
            } else {
                match original_lineno(self.block_manager, b.scope, b.module_name, loc.offset) {
                    Some(l) => match self.coverage_tracker.spec_line_covered(
                        Some(b.block_type),
                        Some(b.scope),
                        Some(b.module_name),
                        t,
                        l as u32,
                    ) {
                        Some(c) => prev.push((loc.line, c)),
                        None => prev,
                    },
                    None => prev,
                }
            }
        }
    }

    /// Which signals drive `sig` in `block` when it is looked at time `t`, as
    /// a set: for the driven signals named like `sig` on reached lines, the
    /// identifiers of those not visited before; when none is on a reached line
    /// but the block has reached lines, `sig` itself for a clocked block and
    /// nothing for another; otherwise, for a clocked block, the identifiers its
    /// signals named like `sig` depend on, only the data-like ones when there
    /// are such. `None` when none of these applies.
    pub open spec fn driven_selection(&self, block: DataFlowBlock, sig: NodeKey, t: Option<TimeAnnotation>) -> Option<Set<NodeKey>> {
        let c = self.reached_lines(block@.outputs, block@, t);
        let l = block@.outputs.filter(|o: NodeKey| node_text(o) == node_text(sig) && line_hit(c, o.locate.line));
        let seq_blk = block.block_type == BlockType::Always(CircuitType::SEQ);
        let named = named_outputs(block@, sig);
        if l.len() == 0 && c.len() > 0 {
            Some(if seq_blk { set![sig] } else { Set::empty() })
        } else if exists|i: int| 0 <= i < l.len() && fresh(self.pos_visited@, block.bid, l, i) {
            Some(Set::new(|k: NodeKey| k.ident && exists|i: int|
                0 <= i < l.len() && fresh(self.pos_visited@, block.bid, l, i) && #[trigger] block.dataflow_of(l[i]).contains(k)))
        } else if seq_blk && exists|k: NodeKey| dep_of_any(block, named, k) {
            if exists|k: NodeKey| dep_of_any(block, named, k) && is_data_text(node_text(k)) {
                Some(Set::new(|k: NodeKey| dep_of_any(block, named, k) && is_data_text(node_text(k))))
            } else {
                Some(Set::new(|k: NodeKey| dep_of_any(block, named, k)))
            }
        } else {
            None
        }
    }
}

impl<'b, CT: CoverageTracker> Tracer for DynamicSlicing<'b, CT> {
    open spec fn spec_manager(&self) -> BlockManager {
        *self.block_manager
    }

    open spec fn spec_step(&self) -> Option<TimeAnnotation> {
        Some(self.time_step)
    }

    open spec fn untimed_seq_ok(&self) -> bool {
        false
    }

    open spec fn tracer_ok(&self) -> bool {
        &&& self.block_manager.wf()
        &&& self.time_step >= 0
        &&& forall|i: int| 0 <= i < crate::mgr::all_blocks(self.block_manager.scope_block_mapping@).len()
            ==> #[trigger] origins_known(*self.block_manager, crate::mgr::all_blocks(self.block_manager.scope_block_mapping@)[i]@)
    }

    open spec fn answers_for(&self, b: DataFlowBlock) -> bool {
        origins_known(*self.block_manager, b@)
    }

    open spec fn answers_all(&self) -> bool {
        false
    }

    proof fn lemma_manager_blocks_ok(tracer: &Self, b: DataFlowBlock) {
        reveal(in_manager);
        let all = crate::mgr::all_blocks(tracer.block_manager.scope_block_mapping@);
        let i = choose|i: int| 0 <= i < all.len() && #[trigger] all[i]@ == b@;
        assert(origins_known(*tracer.block_manager, all[i]@));
        assert(tracer.answers_for(b));
    }

    fn manager(&self) -> (r: &BlockManager) {
        self.block_manager
    }

    fn reset_visit_tracking(&mut self) {
    }

    /// The signals that drive `sig` in `block` at `time`. A clocked block is
    /// looked at one step earlier. Among the block's driven signals named like
    /// `sig`, those on a reached line are followed, each (block, signal) once:
    /// their identifiers; when none is reached but the block has reached lines,
    /// a clocked block keeps `sig` (the register holds its value) and any other
    /// block gives nothing. A clocked block without an answer falls back on its
    /// dataflow, preferring data signals over handshake, counter and generated
    /// ones.
    #[verifier::rlimit(60)]
    fn get_driven_signals_in_block(
        &mut self,
        block: &DataFlowBlock,
        btype: &BlockType,
        sig: NodeID,
        time: Option<TimeAnnotation>,
    ) -> (r: (Option<TimeAnnotation>, Option<Vec<NodeID>>))
        ensures
            (match r.1 {
                Some(vs) => old(self).driven_selection(*block, sig@, r.0) matches Some(st) && forall|k: NodeKey|
                    node_keys(vs@).contains(k) <==> st.contains(k),
                None => old(self).driven_selection(*block, sig@, r.0) is None,
            }),
    {
        assert(self.answers_for(*block));
        let ghost pv0 = self.pos_visited@;
        let ghost outs = block@.outputs;
        let is_seq = *btype == BlockType::Always(CircuitType::SEQ);
        let next_time = if is_seq {
            Some(time.unwrap() - self.time_step)
        } else {
            time
        };
        let mut covered: Vec<(u32, usize)> = Vec::new();
        let mut i: usize = 0;
        while i < block.outputs.len()
            invariant
                self.block_manager.wf(),
                origins_known(*self.block_manager, block@),
                *btype == block.block_type,
                i <= block.outputs.len(),
                outs == block@.outputs,
                outs.len() == block.outputs@.len(),
                covered@ == self.reached_lines(outs.take(i as int), block@, next_time),
            decreases block.outputs.len() - i,
        {
            assert(outs.take(i + 1).drop_last() =~= outs.take(i as int));
            assert(outs.take(i + 1).last() == block.outputs@[i as int]@);
            let loc = *block.outputs[i].get_locate();
            if *btype == BlockType::Assign {
                covered.push((loc.line, 1));
            } else {
                let ast = SrcLocate { offset: loc.offset, line: loc.line, len: loc.len };
                proof {
                    assert(block@.outputs[i as int] == block.outputs@[i as int]@);
                    assert(original_lineno(&*self.block_manager, block@.scope, block@.module_name, block@.outputs[i as int].locate.offset) is Some);
                }
                let lineno = self.block_manager.get_original_lineno_from_ast_locate(
                    block.scope.as_str(),
                    block.module_name.as_str(),
                    ast,
                ).unwrap();
                match self.coverage_tracker.check_line_covered(
                    Some(*btype),
                    Some(block.scope.as_str()),
                    Some(block.module_name.as_str()),
                    next_time,
                    lineno as u32,
                ) {
                    Some(count) => covered.push((loc.line, count)),
                    None => {},
                }
            }
            i = i + 1;
        }
        assert(outs.take(outs.len() as int) =~= outs);
        let ghost c = covered@;
        let ghost pred = |o: NodeKey| node_text(o) == node_text(sig@) && line_hit(c, o.locate.line);
        let mut local: Vec<NodeID> = Vec::new();
        let mut i: usize = 0;
        assert(outs.take(0).filter(pred) =~= Seq::<NodeKey>::empty()) by {
            reveal(Seq::filter);
        };
        while i < block.outputs.len()
            invariant
                i <= block.outputs.len(),
                outs == block@.outputs,
                outs == node_keys(block.outputs@),
                c == covered@,
                pred == (|o: NodeKey| node_text(o) == node_text(sig@) && line_hit(c, o.locate.line)),
                node_keys(local@) == outs.take(i as int).filter(pred),
            decreases block.outputs.len() - i,
        {
            proof {
                assert(outs.take(i + 1).drop_last() =~= outs.take(i as int));
                assert(outs.take(i + 1).last() == block.outputs@[i as int]@);
                reveal(Seq::filter);
            }
            let ghost before = node_keys(local@);
            let o = &block.outputs[i];
            if o.same_text(&sig) {
                let line = o.get_locate().line;
                let mut hit = false;
                let mut k: usize = 0;
                while k < covered.len()
                    invariant
                        k <= covered.len(),
                        hit == exists|kk: int| 0 <= kk < k && covered@[kk].0 == line && covered@[kk].1 > 0,
                    decreases covered.len() - k,
                {
                    if covered[k].0 == line && covered[k].1 > 0 {
                        hit = true;
                    }
                    k = k + 1;
                }
                assert(hit == line_hit(c, o@.locate.line));
                if hit {
                    local.push(o.duplicate());
                    assert(node_keys(local@) =~= before.push(o@));
                }
            }
            i = i + 1;
        }
        assert(outs.take(outs.len() as int) =~= outs);
        let ghost l = node_keys(local@);
        let mut vars: Option<Vec<NodeID>> = None;
        if local.len() == 0 && covered.len() > 0 {
            let mut v: Vec<NodeID> = Vec::new();
            if is_seq {
                v.push(sig.duplicate());
                assert(node_keys(v@) =~= seq![sig@]);
            } else {
                assert(node_keys(v@) =~= Seq::<NodeKey>::empty());
            }
            vars = Some(v);
        } else {
            let mut any = false;
            let mut all: Vec<NodeID> = Vec::new();
            let mut i: usize = 0;
            while i < local.len()
                invariant
                    i <= local.len(),
                    l == node_keys(local@),
                    self.block_manager == old(self).block_manager,
                    self.time_step == old(self).time_step,
                    self.coverage_tracker == old(self).coverage_tracker,
                    pv0 == old(self).pos_visited@,
                    forall|q: int| 0 <= q < all@.len() ==> #[trigger] value_keys(block@.dataflow).contains(all@[q]@),
                    forall|b: u64, k: NodeKey| #[trigger] seen_key(self.pos_visited@, b, k) <==> (seen_key(pv0, b, k) || (b
                        == block.bid && l.take(i as int).contains(k))),
                    any == exists|j: int| 0 <= j < i && fresh(pv0, block.bid, l, j),
                    forall|k: NodeKey| node_keys(all@).contains(k) <==> (k.ident && exists|j: int|
                        0 <= j < i && fresh(pv0, block.bid, l, j) && #[trigger] block.dataflow_of(l[j]).contains(k)),
                decreases local.len() - i,
            {
                let ghost li = l[i as int];
                assert(local@[i as int]@ == li);
                proof {
                    assert(l.take(i + 1) =~= l.take(i as int).push(li));
                }
                let first = self.visit(block.bid, &local[i]);
                assert(first == fresh(pv0, block.bid, l, i as int));
                proof {
                    assert forall|b: u64, k: NodeKey| #[trigger] seen_key(self.pos_visited@, b, k) <==> (seen_key(pv0, b, k) || (b
                        == block.bid && l.take(i + 1).contains(k))) by {
                        let t0 = l.take(i as int);
                        let t1 = l.take(i + 1);
                        if k == li {
                            assert(t1[i as int] == li);
                        }
                        if t1.contains(k) && k != li {
                            let q = choose|q: int| 0 <= q < t1.len() && t1[q] == k;
                            assert(t0[q] == k);
                        }
                        if t0.contains(k) {
                            let q = choose|q: int| 0 <= q < t0.len() && t0[q] == k;
                            assert(t1[q] == k);
                        }
                    };
                }
                let ghost all0 = node_keys(all@);
                if first {
                    any = true;
                    let deps = identifier_deps(block, &local[i]);
                    let mut z: usize = 0;
                    while z < deps.len()
                        invariant
                            z <= deps.len(),
                            forall|q: int| 0 <= q < deps@.len() ==> (#[trigger] deps@[q]@).ident && value_keys(block@.dataflow).contains(deps@[q]@),
                            forall|q: int| 0 <= q < all@.len() ==> #[trigger] value_keys(block@.dataflow).contains(all@[q]@),
                            node_keys(all@) == all0 + node_keys(deps@.take(z as int)),
                        decreases deps.len() - z,
                    {
                        assert(value_keys(block@.dataflow).contains(deps@[z as int]@));
                        let ghost pre = node_keys(all@);
                        all.push(deps[z].duplicate());
                        assert(node_keys(all@) =~= pre.push(deps@[z as int]@));
                        assert(node_keys(deps@.take(z + 1)) =~= node_keys(deps@.take(z as int)).push(deps@[z as int]@));
                        assert(node_keys(all@) =~= all0 + node_keys(deps@.take(z + 1)));
                        z = z + 1;
                    }
                    assert(deps@.take(deps@.len() as int) =~= deps@);
                    proof {
                        let dk = node_keys(deps@);
                        assert forall|k: NodeKey| node_keys(all@).contains(k) <==> (k.ident && exists|j: int|
                            0 <= j < i + 1 && fresh(pv0, block.bid, l, j) && #[trigger] block.dataflow_of(l[j]).contains(k)) by {
                            if node_keys(all@).contains(k) {
                                let q = choose|q: int| 0 <= q < node_keys(all@).len() && node_keys(all@)[q] == k;
                                if q < all0.len() {
                                    assert(all0[q] == k);
                                    assert(all0.contains(k));
                                } else {
                                    assert(dk[q - all0.len()] == k);
                                    assert(dk.contains(k));
                                    assert(block.dataflow_of(l[i as int]).contains(k));
                                }
                            }
                            if k.ident && exists|j: int| 0 <= j < i + 1 && fresh(pv0, block.bid, l, j) && #[trigger] block.dataflow_of(l[j]).contains(k) {
                                let j = choose|j: int| 0 <= j < i + 1 && fresh(pv0, block.bid, l, j) && #[trigger] block.dataflow_of(l[j]).contains(k);
                                if j < i {
                                    assert(all0.contains(k));
                                    let q = choose|q: int| 0 <= q < all0.len() && all0[q] == k;
                                    assert(node_keys(all@)[q] == k);
                                } else {
                                    assert(dk.contains(k));
                                    let q = choose|q: int| 0 <= q < dk.len() && dk[q] == k;
                                    assert(node_keys(all@)[all0.len() + q] == k);
                                }
                            }
                        };
                    }
                } else {
                    proof {
                        assert forall|k: NodeKey| node_keys(all@).contains(k) <==> (k.ident && exists|j: int|
                            0 <= j < i + 1 && fresh(pv0, block.bid, l, j) && #[trigger] block.dataflow_of(l[j]).contains(k)) by {
                            if k.ident && exists|j: int| 0 <= j < i + 1 && fresh(pv0, block.bid, l, j) && #[trigger] block.dataflow_of(l[j]).contains(k) {
                                let j = choose|j: int| 0 <= j < i + 1 && fresh(pv0, block.bid, l, j) && #[trigger] block.dataflow_of(l[j]).contains(k);
                                assert(j < i);
                            }
                        };
                    }
                }
                i = i + 1;
            }
            if any {
                vars = Some(all);
            }
            assert(i == l.len());
        }
        let ghost fresh_any = exists|j: int| 0 <= j < l.len() && fresh(pv0, block.bid, l, j);
        assert((l.len() == 0 && c.len() > 0) ==> (vars matches Some(v) && node_keys(v@) == (if is_seq {
            seq![sig@]
        } else {
            Seq::<NodeKey>::empty()
        })));
        assert(!(l.len() == 0 && c.len() > 0) && fresh_any ==> (vars matches Some(v) && forall|k: NodeKey|
            node_keys(v@).contains(k) <==> (k.ident && exists|j: int|
                0 <= j < l.len() && fresh(pv0, block.bid, l, j) && #[trigger] block.dataflow_of(l[j]).contains(k))));
        assert(!(l.len() == 0 && c.len() > 0) && !fresh_any ==> vars is None);
        let ghost vars0 = vars;
        if vars.is_none() && is_seq {
            let named = outputs_named(block, &sig);
            let mut direct: Vec<NodeID> = Vec::new();
            push_deps(block, &named, &mut direct);
            assert(direct@.skip(0) =~= direct@);
            let ghost dk = node_keys(direct@);
            let ghost nk = node_keys(named@);
            assert(nk == named_outputs(block@, sig@));
            proof {
                assert((exists|k: NodeKey| dep_of_any(*block, nk, k)) <==> direct@.len() > 0) by {
                    if direct@.len() > 0 {
                        assert(dk.contains(dk[0]));
                        assert(dep_of_any(*block, nk, dk[0]));
                    }
                    if exists|k: NodeKey| dep_of_any(*block, nk, k) {
                        let k = choose|k: NodeKey| dep_of_any(*block, nk, k);
                        assert(dk.contains(k));
                    }
                };
            }
            if direct.len() > 0 {
                let mut filtered: Vec<NodeID> = Vec::new();
                let mut i: usize = 0;
                while i < direct.len()
                    invariant
                        i <= direct.len(),
                        dk == node_keys(direct@),
                        forall|q: int| 0 <= q < direct@.len() ==> #[trigger] value_keys(block@.dataflow).contains(direct@[q]@),
                        forall|q: int| 0 <= q < filtered@.len() ==> #[trigger] value_keys(block@.dataflow).contains(filtered@[q]@),
                        forall|k: NodeKey| node_keys(filtered@).contains(k) <==> (dk.take(i as int).contains(k) && is_data_text(node_text(k))),
                    decreases direct.len() - i,
                {
                    let ghost f0 = node_keys(filtered@);
                    assert(dk.take(i + 1) =~= dk.take(i as int).push(dk[i as int]));
                    assert(dk[i as int] == direct@[i as int]@);
                    if is_data_signal(direct[i].get_text()) {
                        assert(is_data_text(node_text(dk[i as int])));
                        assert(value_keys(block@.dataflow).contains(direct@[i as int]@));
                        filtered.push(direct[i].duplicate());
                        assert(node_keys(filtered@) =~= f0.push(dk[i as int]));
                        assert forall|k: NodeKey| node_keys(filtered@).contains(k) <==> (dk.take(i + 1).contains(k) && is_data_text(node_text(k))) by {
                            let t0 = dk.take(i as int);
                            let t1 = dk.take(i + 1);
                            if node_keys(filtered@).contains(k) && k != dk[i as int] {
                                let q = choose|q: int| 0 <= q < node_keys(filtered@).len() && node_keys(filtered@)[q] == k;
                                assert(f0[q] == k);
                                assert(f0.contains(k));
                                let q2 = choose|q2: int| 0 <= q2 < t0.len() && t0[q2] == k;
                                assert(t1[q2] == k);
                            }
                            if node_keys(filtered@).contains(k) && k == dk[i as int] {
                                assert(t1[i as int] == k);
                            }
                            if dk.take(i + 1).contains(k) && is_data_text(node_text(k)) {
                                if k == dk[i as int] {
                                    assert(node_keys(filtered@)[f0.len() as int] == k);
                                } else {
                                    let t1 = dk.take(i + 1);
                                    let q = choose|q: int| 0 <= q < t1.len() && t1[q] == k;
                                    assert(dk.take(i as int)[q] == k);
                                    assert(f0.contains(k));
                                    let q2 = choose|q2: int| 0 <= q2 < f0.len() && f0[q2] == k;
                                    assert(node_keys(filtered@)[q2] == k);
                                }
                            }
                        };
                    } else {
                        assert forall|k: NodeKey| node_keys(filtered@).contains(k) <==> (dk.take(i + 1).contains(k) && is_data_text(node_text(k))) by {
                            if dk.take(i + 1).contains(k) && is_data_text(node_text(k)) {
                                let t1 = dk.take(i + 1);
                                let q = choose|q: int| 0 <= q < t1.len() && t1[q] == k;
                                assert(dk.take(i as int)[q] == k);
                            }
                            if node_keys(filtered@).contains(k) {
                                let t0 = dk.take(i as int);
                                let q = choose|q: int| 0 <= q < t0.len() && t0[q] == k;
                                assert(dk.take(i + 1)[q] == k);
                            }
                        };
                    }
                    i = i + 1;
                }
                assert(dk.take(dk.len() as int) =~= dk);
                proof {
                    assert((exists|k: NodeKey| dep_of_any(*block, nk, k) && is_data_text(node_text(k))) <==> filtered@.len() > 0) by {
                        if filtered@.len() > 0 {
                            let f = node_keys(filtered@);
                            assert(f.contains(f[0]));
                            assert(dk.contains(f[0]));
                            assert(dep_of_any(*block, nk, f[0]));
                        }
                        if exists|k: NodeKey| dep_of_any(*block, nk, k) && is_data_text(node_text(k)) {
                            let k = choose|k: NodeKey| dep_of_any(*block, nk, k) && is_data_text(node_text(k));
                            assert(dk.contains(k));
                            assert(node_keys(filtered@).contains(k));
                        }
                    };
                }
                vars = Some(if filtered.len() == 0 { direct } else { filtered });
            }
        }
        assert forall|b: DataFlowBlock| old(self).answers_for(b) implies #[trigger] self.answers_for(b) by {
            assert(origins_known(*self.block_manager, b@));
        };
        proof {
            let cs = old(self).reached_lines(block@.outputs, block@, next_time);
            assert(c == cs);
            let sp = |o: NodeKey| node_text(o) == node_text(sig@) && line_hit(cs, o.locate.line);
            assert(pred =~= sp);
            assert(l == block@.outputs.filter(sp));
            let sel = old(self).driven_selection(*block, sig@, next_time);
            let nk = named_outputs(block@, sig@);
            if l.len() == 0 && c.len() > 0 {
                let v = vars.unwrap();
                if is_seq {
                    assert forall|k: NodeKey| node_keys(v@).contains(k) <==> set![sig@].contains(k) by {
                        if k == sig@ {
                            assert(node_keys(v@)[0] == k);
                        }
                    };
                }
            } else if fresh_any {
            } else if is_seq && exists|k: NodeKey| dep_of_any(*block, nk, k) {
            } else {
            }
        }
        (next_time, vars)
    }
}

/// Whether a signal name looks like data, as `is_data_text` says.
pub fn is_data_signal(t: &str) -> (r: bool)
    ensures
        r == is_data_text(t@),
{
    !str_ends_with(t, "_valid") && !str_ends_with(t, "_ready") && !str_is(t, "valid") && !str_is(t, "ready")
        && !str_contains(t, "perfCnt") && !str_contains(t, "perfCntCond") && !str_contains(t, "perfCntCond_")
        && !str_starts_with(t, "_GEN") && !str_ends_with(t, "__bore")
}

/// Tracing that follows all dataflow, with an optional time step.
pub struct StaticSlicing<'b> {
    pub block_manager: &'b BlockManager,
    pub time_step: Option<TimeAnnotation>,
}

impl<'b> StaticSlicing<'b> {
    pub fn new(block_manager: &'b BlockManager, time_step: Option<TimeAnnotation>) -> (r: StaticSlicing<'b>)
        ensures
            *r.block_manager == *block_manager,
            r.time_step == time_step,
    {
        StaticSlicing { block_manager, time_step }
    }
}

impl<'b> Tracer for StaticSlicing<'b> {
    open spec fn spec_manager(&self) -> BlockManager {
        *self.block_manager
    }

    open spec fn spec_step(&self) -> Option<TimeAnnotation> {
        self.time_step
    }

    open spec fn untimed_seq_ok(&self) -> bool {
        true
    }

    open spec fn tracer_ok(&self) -> bool {
        &&& self.block_manager.wf()
        &&& (self.time_step matches Some(s) ==> s >= 0)
    }

    open spec fn answers_for(&self, b: DataFlowBlock) -> bool {
        true
    }

    open spec fn answers_all(&self) -> bool {
        true
    }

    proof fn lemma_manager_blocks_ok(tracer: &Self, b: DataFlowBlock) {
        assert(tracer.tracer_ok() ==> tracer.block_manager.wf());
        assert(tracer.answers_for(b));
    }

    fn manager(&self) -> (r: &BlockManager) {
        self.block_manager
    }

    fn reset_visit_tracking(&mut self) {
    }

    /// All identifiers that the block's driven signals named like `sig`
    /// depend on; one step earlier for a clocked block when there is a step.
    fn get_driven_signals_in_block(
        &mut self,
        block: &DataFlowBlock,
        btype: &BlockType,
        sig: NodeID,
        time: Option<TimeAnnotation>,
    ) -> (r: (Option<TimeAnnotation>, Option<Vec<NodeID>>))
        ensures
            r.1 is Some,
            forall|k: NodeKey|
                node_keys(r.1.unwrap()@).contains(k) <==> dep_of_any(
                    *block,
                    block@.outputs.filter(|o: NodeKey| node_text(o) == node_text(sig@)),
                    k,
                ),
    {
        let next_time = match (self.time_step, time) {
            (Some(s), Some(t)) => if *btype == BlockType::Always(CircuitType::SEQ) {
                Some(t - s)
            } else {
                Some(t)
            },
            _ => None,
        };
        let named = outputs_named(block, &sig);
        let mut vars: Vec<NodeID> = Vec::new();
        push_deps(block, &named, &mut vars);
        assert(vars@.skip(0) =~= vars@);
        (next_time, Some(vars))
    }
}

} // verus!
