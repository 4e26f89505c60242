//! Tracing a signal back through the design: from the block that drives it,
//! to the signals that block reads, to the blocks that drive those, across
//! module boundaries and back in time through clocked blocks.
use vstd::prelude::*;

use crate::block::{
    contains_text, copy_nodes, insert_node, key_texts, node_keys, node_text, BlockType, CircuitType, NodeID, NodeKey,
    TimeAnnotation,
};
use crate::dfb::{strings_view, BlockView, DataFlowBlock};
use crate::mgr::{block_views, scope_names, BlockManager};
use crate::text::{is_prefix, str_eq, str_starts_with, string_of};
use vstd::string::StringSliceAdditionalSpecFns;

verus! {

/// Why tracing stops early at a block.
pub enum EarlyStop {
    /// The module is suspicious: the given (scope, signal, time) entries are
    /// not traced further, but its inputs are.
    Module(Vec<(String, NodeID, Option<TimeAnnotation>)>),
    /// The block ends the trace: its inputs are not traced.
    Block,
    /// Tracing goes on through the block's inputs.
    NoStop,
}

/// Why a query of the tracer failed.
#[derive(Clone, Debug)]
pub enum TraceError {
    /// The scope is not one of the manager's.
    ScopeNotFound(String),
}

/// The time at which a block's inputs are read when its output is observed at
/// `time`: one step earlier for a clocked block, the same time otherwise, and
/// no time when there is no time or no step.
pub open spec fn next_time(btype: BlockType, time: Option<TimeAnnotation>, step: Option<TimeAnnotation>) -> Option<TimeAnnotation> {
    match (time, step) {
        (Some(t), Some(s)) => if btype == BlockType::Always(CircuitType::SEQ) {
            Some((t - s) as i64)
        } else {
            Some(t)
        },
        _ => None,
    }
}

/// The keys of all nodes the dataflow of a block depends on.
pub open spec fn value_keys(d: Seq<(NodeKey, Seq<NodeKey>)>) -> Seq<NodeKey>
    decreases d.len(),
{
    if d.len() == 0 {
        Seq::empty()
    } else {
        value_keys(d.drop_last()) + d.last().1
    }
}

/// The texts of all nodes of a block: read, driven, and depended on.
pub open spec fn block_texts(b: BlockView) -> Seq<Seq<char>> {
    key_texts(b.inputs + b.outputs + value_keys(b.dataflow))
}

/// The texts of all nodes of all blocks.
pub open spec fn blocks_texts(bs: Seq<DataFlowBlock>) -> Seq<Seq<char>>
    decreases bs.len(),
{
    if bs.len() == 0 {
        Seq::empty()
    } else {
        blocks_texts(bs.drop_last()) + block_texts(bs.last()@)
    }
}

/// The bids of all blocks.
pub open spec fn blocks_bids(bs: Seq<DataFlowBlock>) -> Seq<u64> {
    bs.map_values(|b: DataFlowBlock| b.bid)
}

/// `anc` is `s` or an enclosing scope of `s`.
pub open spec fn scope_or_ancestor(anc: Seq<char>, s: Seq<char>) -> bool {
    anc == s || is_prefix(anc.push('.'), s)
}

/// The nodes of `v` with the text `t`.
pub open spec fn with_text(v: Seq<NodeKey>, t: Seq<char>) -> Seq<NodeKey> {
    v.filter(|k: NodeKey| node_text(k) == t)
}

/// The inputs with text `t` of the output port blocks.
pub open spec fn port_inputs_with_text(bs: Seq<DataFlowBlock>, t: Seq<char>) -> Seq<NodeKey>
    decreases bs.len(),
{
    if bs.len() == 0 {
        Seq::empty()
    } else {
        port_inputs_with_text(bs.drop_last(), t) + (if bs.last().block_type == BlockType::ModuleOutput {
            with_text(bs.last()@.inputs, t)
        } else {
            Seq::empty()
        })
    }
}

/// The outputs with text `t` of the blocks (all of them, or all but output ports).
pub open spec fn outputs_with_text(bs: Seq<DataFlowBlock>, t: Seq<char>, skip_ports: bool) -> Seq<NodeKey>
    decreases bs.len(),
{
    if bs.len() == 0 {
        Seq::empty()
    } else {
        outputs_with_text(bs.drop_last(), t, skip_ports) + (if skip_ports && bs.last().block_type
            == BlockType::ModuleOutput {
            Seq::empty()
        } else {
            with_text(bs.last()@.outputs, t)
        })
    }
}

/// Appends the nodes of `v` with text `t`.
fn push_with_text(out: &mut Vec<NodeID>, v: &Vec<NodeID>, t: &str)
    ensures
        node_keys(final(out)@) == node_keys(old(out)@) + with_text(node_keys(v@), t@),
{
    let mut i: usize = 0;
    while i < v.len()
        invariant
            i <= v.len(),
            node_keys(out@) == node_keys(old(out)@) + with_text(node_keys(v@.take(i as int)), t@),
        decreases v.len() - i,
    {
        proof {
            assert(node_keys(v@.take(i + 1)) =~= node_keys(v@.take(i as int)).push(v@[i as int]@));
            reveal(Seq::filter);
            assert(node_keys(v@.take(i + 1)).drop_last() =~= node_keys(v@.take(i as int)));
        }
        let ghost before = node_keys(out@);
        if str_eq(v[i].get_text(), t) {
            out.push(v[i].duplicate());
            assert(node_keys(out@) =~= before.push(v@[i as int]@));
        }
        i = i + 1;
    }
    assert(v@.take(v@.len() as int) == v@);
}

/// A tracer of signals over the blocks of a manager.
pub trait Tracer {
    /// The blocks traced over.
    spec fn spec_manager(&self) -> BlockManager;

    /// The time step of clocked blocks, if any.
    spec fn spec_step(&self) -> Option<TimeAnnotation>;

    /// Whether a clocked block may be asked about with no time.
    spec fn untimed_seq_ok(&self) -> bool;

    /// The tracer's invariant.
    spec fn tracer_ok(&self) -> bool;

    /// Whether the tracer can answer for the block `b`.
    spec fn answers_for(&self, b: DataFlowBlock) -> bool;

    /// Whether every question about a block's drivers gets an answer (the
    /// tracer keeps no record that could make it answer none).
    spec fn answers_all(&self) -> bool;

    /// The tracer can answer for every block of its manager.
    proof fn lemma_manager_blocks_ok(tracer: &Self, b: DataFlowBlock)
        requires
            tracer.tracer_ok(),
            in_manager(tracer.spec_manager(), b@),
        ensures
            tracer.answers_for(b),
    ;

    /// The blocks traced over.
    fn manager(&self) -> (r: &BlockManager)
        ensures
            *r == self.spec_manager(),
    ;

    /// Forgets which block positions were visited.
    fn reset_visit_tracking(&mut self)
        requires
            old(self).tracer_ok(),
        ensures
            final(self).tracer_ok(),
            final(self).spec_manager() == old(self).spec_manager(),
            final(self).spec_step() == old(self).spec_step(),
            final(self).untimed_seq_ok() == old(self).untimed_seq_ok(),
            final(self).answers_all() == old(self).answers_all(),
    ;

    /// The signals that drive `sig` in `block` and the time at which they are
    /// read; `None` in place of the signals when `sig` was reached in this
    /// block before.
    fn get_driven_signals_in_block(
        &mut self,
        block: &DataFlowBlock,
        btype: &BlockType,
        sig: NodeID,
        time: Option<TimeAnnotation>,
    ) -> (r: (Option<TimeAnnotation>, Option<Vec<NodeID>>))
        requires
            old(self).tracer_ok(),
            block.wf(),
            old(self).answers_for(*block),
            *btype == block.block_type,
            time_ok(old(self).spec_step(), old(self).untimed_seq_ok(), *btype, time),
        ensures
            final(self).tracer_ok(),
            final(self).spec_manager() == old(self).spec_manager(),
            final(self).spec_step() == old(self).spec_step(),
            final(self).untimed_seq_ok() == old(self).untimed_seq_ok(),
            forall|b: DataFlowBlock| old(self).answers_for(b) ==> #[trigger] final(self).answers_for(b),
            r.0 == next_time(*btype, time, old(self).spec_step()),
            final(self).answers_all() == old(self).answers_all(),
            old(self).answers_all() ==> r.1 is Some,
            r.1 matches Some(vs) ==> forall|i: int|
                0 <= i < vs@.len() ==> #[trigger] vs@[i]@ == sig@ || value_keys(block@.dataflow).contains(vs@[i]@),
    ;

    /// The blocks of a scope.
    fn get_scope_blocks(&self, scope_name: &str) -> (r: Result<&Vec<DataFlowBlock>, TraceError>)
        requires
            self.spec_manager().wf(),
        ensures
            r is Ok <==> self.spec_manager().has_scope(scope_name@),
            r matches Ok(v) ==> v@ == self.spec_manager().blocks_of(scope_name@),
    {
        match self.manager().get_scope_blocks(scope_name) {
            Some(v) => Ok(v),
            None => Err(TraceError::ScopeNotFound(string_of(scope_name))),
        }
    }

    /// The names of all scopes.
    fn get_scopes(&self) -> (r: Vec<String>)
        ensures
            strings_view(r@) == scope_names(self.spec_manager().scope_block_mapping@),
    {
        self.manager().get_scopes()
    }

    /// The scopes nested in `scope_name`: those it is a proper prefix of.
    fn get_next_scopes(&self, scope_name: &str) -> (r: Vec<String>)
        ensures
            strings_view(r@) == scope_names(self.spec_manager().scope_block_mapping@).filter(
                |s: Seq<char>| nested_in(scope_name@, s),
            ),
    {
        let scopes = self.get_scopes();
        let ghost all = scope_names(self.spec_manager().scope_block_mapping@);
        let mut r: Vec<String> = Vec::new();
        let mut i: usize = 0;
        while i < scopes.len()
            invariant
                i <= scopes.len(),
                strings_view(scopes@) == all,
                strings_view(r@) == all.take(i as int).filter(|s: Seq<char>| nested_in(scope_name@, s)),
            decreases scopes.len() - i,
        {
            proof {
                assert(all.take(i + 1).drop_last() =~= all.take(i as int));
                assert(all.take(i + 1).last() == scopes@[i as int]@);
                reveal(Seq::filter);
            }
            let ghost before = r@;
            let s = scopes[i].as_str();
            if str_starts_with(s, scope_name) && crate::text::chars_of(s).len() > crate::text::chars_of(scope_name).len() {
                r.push(string_of(s));
                assert(strings_view(r@) =~= strings_view(before).push(scopes@[i as int]@));
            }
            i = i + 1;
        }
        assert(all.take(all.len() as int) == all);
        r
    }

    /// The nodes named `sig` that output port blocks of a scope read.
    fn get_node_id_from_output_port(&self, scope_name: &str, sig: &str) -> (r: Result<Vec<NodeID>, TraceError>)
        requires
            self.spec_manager().wf(),
        ensures
            r is Ok <==> self.spec_manager().has_scope(scope_name@),
            r matches Ok(v) ==> node_keys(v@) == port_inputs_with_text(self.spec_manager().blocks_of(scope_name@), sig@),
    {
        let blocks = self.get_scope_blocks(scope_name)?;
        let mut r: Vec<NodeID> = Vec::new();
        let mut i: usize = 0;
        while i < blocks.len()
            invariant
                i <= blocks.len(),
                node_keys(r@) == port_inputs_with_text(blocks@.take(i as int), sig@),
            decreases blocks.len() - i,
        {
            assert(blocks@.take(i + 1).drop_last() =~= blocks@.take(i as int));
            if blocks[i].block_type == BlockType::ModuleOutput {
                push_with_text(&mut r, &blocks[i].inputs, sig);
            } else {
                assert(node_keys(r@) =~= node_keys(r@) + Seq::<NodeKey>::empty());
            }
            i = i + 1;
        }
        assert(blocks@.take(blocks@.len() as int) == blocks@);
        Ok(r)
    }

    /// The nodes named `sig` that blocks of a scope other than output ports
    /// drive, then those that blocks of its nested scopes drive.
    fn get_node_id_from_internal(&self, scope_name: &str, sig: &str) -> (r: Result<Vec<NodeID>, TraceError>)
        requires
            self.spec_manager().wf(),
        ensures
            r is Ok <==> self.spec_manager().has_scope(scope_name@),
            r matches Ok(v) ==> node_keys(v@) == outputs_with_text(self.spec_manager().blocks_of(scope_name@), sig@, true)
                + nested_outputs_with_text(
                self.spec_manager(),
                scope_names(self.spec_manager().scope_block_mapping@).filter(|s: Seq<char>| nested_in(scope_name@, s)),
                sig@,
            ),
    {
        let blocks = self.get_scope_blocks(scope_name)?;
        let mut r: Vec<NodeID> = Vec::new();
        let mut i: usize = 0;
        while i < blocks.len()
            invariant
                i <= blocks.len(),
                node_keys(r@) == outputs_with_text(blocks@.take(i as int), sig@, true),
            decreases blocks.len() - i,
        {
            assert(blocks@.take(i + 1).drop_last() =~= blocks@.take(i as int));
            if blocks[i].block_type != BlockType::ModuleOutput {
                push_with_text(&mut r, &blocks[i].outputs, sig);
            } else {
                assert(node_keys(r@) =~= node_keys(r@) + Seq::<NodeKey>::empty());
            }
            i = i + 1;
        }
        assert(blocks@.take(blocks@.len() as int) == blocks@);
        let ghost local = node_keys(r@);
        let next = self.get_next_scopes(scope_name);
        let mut j: usize = 0;
        while j < next.len()
            invariant
                self.spec_manager().wf(),
                j <= next.len(),
                node_keys(r@) == local + nested_outputs_with_text(self.spec_manager(), strings_view(next@).take(j as int), sig@),
            decreases next.len() - j,
        {
            assert(strings_view(next@).take(j + 1).drop_last() =~= strings_view(next@).take(j as int));
            match self.get_scope_blocks(next[j].as_str()) {
                Ok(sub) => {
                    let ghost before = node_keys(r@);
                    let mut k: usize = 0;
                    while k < sub.len()
                        invariant
                            k <= sub.len(),
                            node_keys(r@) == before + outputs_with_text(sub@.take(k as int), sig@, false),
                        decreases sub.len() - k,
                    {
                        assert(sub@.take(k + 1).drop_last() =~= sub@.take(k as int));
                        push_with_text(&mut r, &sub[k].outputs, sig);
                        k = k + 1;
                    }
                    assert(sub@.take(sub@.len() as int) == sub@);
                },
                Err(_) => {
                    assert(self.spec_manager().blocks_of(next@[j as int]@) == Seq::<DataFlowBlock>::empty());
                    assert(outputs_with_text(Seq::<DataFlowBlock>::empty(), sig@, false) == Seq::<NodeKey>::empty());
                    assert(node_keys(r@) =~= node_keys(r@) + Seq::<NodeKey>::empty());
                },
            }
            j = j + 1;
        }
        assert(strings_view(next@).take(next@.len() as int) == strings_view(next@));
        Ok(r)
    }

    /// The blocks that drive `sig` in a scope, except its output ports, under
    /// that scope; when there are none, for every nested scope, its output port
    /// blocks that read or drive `sig`.
    fn get_block(&self, scope_name: &str, sig: &NodeID) -> (r: Result<Vec<(String, Vec<DataFlowBlock>)>, TraceError>)
        requires
            self.spec_manager().wf(),
        ensures
            r is Ok <==> self.spec_manager().has_scope(scope_name@),
            r matches Ok(v) ==> found_view(v@) == get_block_spec(self.spec_manager(), scope_name@, node_text(sig@)),
            r matches Ok(v) ==> found_in_manager(self.spec_manager(), v@) && found_local_scoped(v@, scope_name@),
            r matches Ok(v) ==> found_wf(v@),
    {
        let blocks = self.get_scope_blocks(scope_name)?;
        let t = sig.get_text();
        proof {
            lemma_scope_blocks_in_manager(self.spec_manager(), scope_name@);
        }
        let local = select_blocks(blocks, t, false);
        assert(forall|i: int| 0 <= i < local@.len() ==> #[trigger] local@[i].wf());
        if local.len() > 0 {
            let mut r: Vec<(String, Vec<DataFlowBlock>)> = Vec::new();
            r.push((string_of(scope_name), local));
            proof {
                assert(found_view(r@) =~= seq![(scope_name@, block_views(local@))]);
                let m = self.spec_manager();
                assert forall|a: int, b: int| 0 <= a < r@.len() && 0 <= b < r@[a].1@.len() implies #[trigger] in_manager(
                    m,
                    r@[a].1@[b]@,
                ) by {
                    assert(block_views(local@)[b] == local@[b]@);
                    assert(block_views(blocks@.filter(drives_text(node_text(sig@))))[b] == blocks@.filter(drives_text(node_text(sig@)))[b]@);
                    assert(local@[b]@ == blocks@.filter(drives_text(node_text(sig@)))[b]@);
                    lemma_filter_in(blocks@, drives_text(node_text(sig@)), b);
                    let k = choose|k: int| 0 <= k < blocks@.len() && blocks@[k] == blocks@.filter(drives_text(node_text(sig@)))[b];
                    assert(in_manager(m, blocks@[k]@));
                };
                assert forall|a: int, b: int| 0 <= a < r@.len() && 0 <= b < r@[a].1@.len() implies !(#[trigger] r@[a].1@[b]).block_type.is_port_kind()
                    ==> scope_or_ancestor(r@[a].1@[b]@.scope, scope_name@) by {
                    lemma_filter_in(blocks@, drives_text(node_text(sig@)), b);
                    let k = choose|k: int| 0 <= k < blocks@.len() && blocks@[k] == blocks@.filter(drives_text(node_text(sig@)))[b];
                    assert(block_views(local@)[b] == local@[b]@);
                    assert(block_views(blocks@.filter(drives_text(node_text(sig@))))[b] == blocks@.filter(drives_text(node_text(sig@)))[b]@);
                    assert(local@[b]@ == blocks@[k]@);
                    assert(in_manager(self.spec_manager(), blocks@[k]@));
                    assert(blocks@[k]@.scope == scope_name@);
                };
            }
            proof {
                assert forall|a: int, b: int| 0 <= a < r@.len() && 0 <= b < r@[a].1@.len() implies #[trigger] r@[a].1@[b].wf() by {
                    assert(r@[a].1@ == local@);
                };
            }
            return Ok(r);
        }
        let next = self.get_next_scopes(scope_name);
        let ghost m = self.spec_manager();
        let mut r: Vec<(String, Vec<DataFlowBlock>)> = Vec::new();
        let mut j: usize = 0;
        while j < next.len()
            invariant
                self.spec_manager() == m,
                m.wf(),
                t@ == node_text(sig@),
                j <= next.len(),
                found_view(r@) == next_port_blocks(m, strings_view(next@).take(j as int), node_text(sig@)),
                found_in_manager(m, r@),
                found_local_scoped(r@, scope_name@),
                found_wf(r@),
            decreases next.len() - j,
        {
            assert(strings_view(next@).take(j + 1).drop_last() =~= strings_view(next@).take(j as int));
            let sub = match self.get_scope_blocks(next[j].as_str()) {
                Ok(sub) => sub,
                Err(_) => {
                    proof {
                        assert(strings_view(next@)[j as int] == next@[j as int]@);
                    }
                    j = j + 1;
                    continue;
                },
            };
            proof {
                lemma_scope_blocks_in_manager(m, next@[j as int]@);
            }
            let ports = select_blocks(sub, t, true);
            let ghost pv = ports@;
            assert(forall|i: int| 0 <= i < pv.len() ==> #[trigger] pv[i].wf());
            assert(pv.len() == sub@.filter(port_touching(node_text(sig@))).len());
            assert(block_views(pv) == block_views(sub@.filter(port_touching(node_text(sig@)))));
            let ghost before = r@;
            r.push((next[j].clone(), ports));
            proof {
                assert(found_view(r@) =~= found_view(before).push((next@[j as int]@, block_views(ports@))));
                assert forall|a: int, b: int| 0 <= a < r@.len() && 0 <= b < r@[a].1@.len() implies #[trigger] in_manager(
                    m,
                    r@[a].1@[b]@,
                ) by {
                    if a < before.len() {
                        assert(r@[a] == before[a]);
                    } else {
                        assert(r@[a].1@ == pv);
                        lemma_filter_in(sub@, port_touching(node_text(sig@)), b);
                        let k = choose|k: int| 0 <= k < sub@.len() && sub@[k] == sub@.filter(port_touching(node_text(sig@)))[b];
                        assert(block_views(pv)[b] == pv[b]@);
                        assert(block_views(sub@.filter(port_touching(node_text(sig@))))[b] == sub@.filter(port_touching(node_text(sig@)))[b]@);
                        assert(pv[b]@ == sub@.filter(port_touching(node_text(sig@)))[b]@);
                        assert(in_manager(m, sub@[k]@));
                    }
                };
                assert forall|a: int, b: int| 0 <= a < r@.len() && 0 <= b < r@[a].1@.len() implies !(#[trigger] r@[a].1@[b]).block_type.is_port_kind()
                    ==> scope_or_ancestor(r@[a].1@[b]@.scope, scope_name@) by {
                    if a < before.len() {
                        assert(r@[a] == before[a]);
                    } else {
                        assert(r@[a].1@ == pv);
                        lemma_filter_in(sub@, port_touching(node_text(sig@)), b);
                        let k = choose|k: int| 0 <= k < sub@.len() && sub@[k] == sub@.filter(port_touching(node_text(sig@)))[b];
                        assert(block_views(pv)[b] == pv[b]@);
                        assert(block_views(sub@.filter(port_touching(node_text(sig@))))[b] == sub@.filter(port_touching(node_text(sig@)))[b]@);
                        assert(pv[b]@ == sub@[k]@);
                        assert(pv[b].block_type == sub@[k].block_type);
                    }
                };
                assert forall|a: int, b: int| 0 <= a < r@.len() && 0 <= b < r@[a].1@.len() implies #[trigger] r@[a].1@[b].wf() by {
                    if a < before.len() {
                        assert(r@[a] == before[a]);
                    } else {
                        assert(r@[a].1@ == pv);
                    }
                };
            }
            j = j + 1;
        }
        assert(strings_view(next@).take(next@.len() as int) == strings_view(next@));
        Ok(r)
    }

    /// Adds to `cross` the identifiers read by the output port blocks of the
    /// scopes nested in the block's scope that drive a signal named like `v`.
    fn collect_cross_deps(&self, block: &DataFlowBlock, v: &NodeID, cross: &mut Vec<NodeID>, sig: Ghost<NodeKey>)
        requires
            self.spec_manager().wf(),
            forall|q: int| 0 <= q < old(cross)@.len() ==> #[trigger] traced_text_ok(self.spec_manager(), block@, sig@, node_text(old(cross)@[q]@)),
        ensures
            forall|q: int| 0 <= q < final(cross)@.len() ==> #[trigger] traced_text_ok(self.spec_manager(), block@, sig@, node_text(final(cross)@[q]@)),
            node_keys(final(cross)@) == node_keys(old(cross)@) + cross_idents(
                self.spec_manager(),
                scope_names(self.spec_manager().scope_block_mapping@).filter(|s: Seq<char>| nested_in(block@.scope, s)),
                node_text(v@),
            ),
    {
        let ghost m = self.spec_manager();
        let ghost c0 = node_keys(cross@);
        let ghost t = node_text(v@);
        let next = self.get_next_scopes(block.scope.as_str());
        let ghost names = strings_view(next@);
        let mut j: usize = 0;
        while j < next.len()
            invariant
                self.spec_manager() == m,
                m.wf(),
                j <= next.len(),
                names == strings_view(next@),
                t == node_text(v@),
                forall|q: int| 0 <= q < cross@.len() ==> #[trigger] traced_text_ok(m, block@, sig@, node_text(cross@[q]@)),
                node_keys(cross@) == c0 + cross_idents(m, names.take(j as int), t),
            decreases next.len() - j,
        {
            proof {
                assert(names.take(j + 1).drop_last() =~= names.take(j as int));
                assert(names.take(j + 1).last() == next@[j as int]@);
            }
            let ghost before_j = node_keys(cross@);
            match self.get_scope_blocks(next[j].as_str()) {
                Ok(sub) => {
                    proof {
                        lemma_scope_blocks_in_manager(m, next@[j as int]@);
                    }
                    let ghost subs = sub@;
                    let mut k: usize = 0;
                    assert(blocks_port_idents(subs.take(0), t) =~= Seq::<NodeKey>::empty());
                    assert(node_keys(cross@) =~= before_j + blocks_port_idents(subs.take(0), t));
                    while k < sub.len()
                        invariant
                            k <= sub.len(),
                            subs == sub@,
                            t == node_text(v@),
                            forall|a: int| 0 <= a < sub@.len() ==> #[trigger] in_manager(m, sub@[a]@),
                            forall|q: int| 0 <= q < cross@.len() ==> #[trigger] traced_text_ok(m, block@, sig@, node_text(cross@[q]@)),
                            node_keys(cross@) == before_j + blocks_port_idents(subs.take(k as int), t),
                        decreases sub.len() - k,
                    {
                        proof {
                            assert(subs.take(k + 1).drop_last() =~= subs.take(k as int));
                            assert(subs.take(k + 1).last() == subs[k as int]);
                        }
                        let ghost before_k = node_keys(cross@);
                        let b = &sub[k];
                        if b.block_type == BlockType::ModuleOutput && contains_text(&b.outputs, v.get_text()) {
                            let ghost ins = b@.inputs;
                            let ghost idf = |x: NodeKey| x.ident;
                            let mut n: usize = 0;
                            assert(ins.take(0).filter(idf) =~= Seq::<NodeKey>::empty()) by {
                                reveal(Seq::filter);
                            };
                            assert(node_keys(cross@) =~= before_k + ins.take(0).filter(idf));
                            while n < b.inputs.len()
                                invariant
                                    n <= b.inputs.len(),
                                    in_manager(m, b@),
                                    ins == b@.inputs,
                                    ins == node_keys(b.inputs@),
                                    idf == (|x: NodeKey| x.ident),
                                    forall|q: int| 0 <= q < cross@.len() ==> #[trigger] traced_text_ok(m, block@, sig@, node_text(cross@[q]@)),
                                    node_keys(cross@) == before_k + ins.take(n as int).filter(idf),
                                decreases b.inputs.len() - n,
                            {
                                proof {
                                    assert(ins.take(n + 1).drop_last() =~= ins.take(n as int));
                                    assert(ins.take(n + 1).last() == b.inputs@[n as int]@);
                                    reveal(Seq::filter);
                                }
                                let ghost pre = node_keys(cross@);
                                if b.inputs[n].is_identifier() {
                                    proof {
                                        lemma_manager_input_text(m, b@, b@.inputs[n as int]);
                                    }
                                    cross.push(b.inputs[n].duplicate());
                                    assert(node_keys(cross@) =~= pre.push(b.inputs@[n as int]@));
                                }
                                n = n + 1;
                            }
                            assert(ins.take(ins.len() as int) =~= ins);
                            assert(port_idents(subs[k as int], t) == ins.filter(idf));
                        } else {
                            assert(port_idents(subs[k as int], t) =~= Seq::<NodeKey>::empty());
                        }
                        assert(node_keys(cross@) =~= before_j + blocks_port_idents(subs.take(k + 1), t));
                        k = k + 1;
                    }
                    assert(subs.take(subs.len() as int) =~= subs);
                    assert(node_keys(cross@) =~= c0 + cross_idents(m, names.take(j + 1), t));
                },
                Err(_) => {
                    assert(m.blocks_of(names[j as int]) =~= Seq::<DataFlowBlock>::empty());
                    assert(blocks_port_idents(m.blocks_of(names[j as int]), t) =~= Seq::<NodeKey>::empty());
                    assert(node_keys(cross@) =~= c0 + cross_idents(m, names.take(j + 1), t));
                },
            }
            j = j + 1;
        }
        assert(names.take(names.len() as int) =~= names);
    }

    /// The signals that `sig` depends on through `block`, each with the time
    /// it is read at, and the scope to go on tracing in. For an `always` block
    /// or a continuous assignment this is the closure of the block's dataflow
    /// from `sig` (for a combinational block, the signals reached at the same
    /// time), without the signals the block drives itself; for a clocked block,
    /// signals that no dataflow reaches are looked up among the output ports of
    /// the nested scopes. For a port block it is the signals the port reads.
    fn get_driven_signals_fixpoint(
        &mut self,
        block: &DataFlowBlock,
        cur_scope: &str,
        time: Option<TimeAnnotation>,
        sig: &NodeID,
    ) -> (r: Option<(String, Option<Vec<(NodeID, Option<TimeAnnotation>)>>, EarlyStop)>)
        requires
            old(self).tracer_ok(),
            old(self).spec_manager().wf(),
            block.wf(),
            in_manager(old(self).spec_manager(), block@),
            time_ok(old(self).spec_step(), old(self).untimed_seq_ok(), block.block_type, time),
            !block.block_type.is_port_kind() ==> scope_or_ancestor(block@.scope, cur_scope@),
        ensures
            final(self).tracer_ok(),
            final(self).spec_manager() == old(self).spec_manager(),
            final(self).spec_step() == old(self).spec_step(),
            final(self).untimed_seq_ok() == old(self).untimed_seq_ok(),
            final(self).answers_all() == old(self).answers_all(),
            old(self).answers_all() ==> (r matches Some(res) && res.1 is Some),
            r matches Some(res) && res.2 is NoStop && res.0@ == next_scope_of(block@, cur_scope@),
            r matches Some(res) && res.1 matches Some(vs) ==> forall|i: int| 0 <= i < vs@.len() ==> {
                &&& (#[trigger] vs@[i]).1 == out_time(block.block_type, time, old(self).spec_step())
                &&& traced_text_ok(old(self).spec_manager(), block@, sig@, node_text(vs@[i].0@))
            },
            block.block_type.is_port_kind() ==> (r matches Some(res) && res.1 matches Some(vs) && crate::dfb::timed_keys(vs@)
                == block@.inputs.map_values(|k: NodeKey| (k, time))),
    {
        let btype = block.block_type;
        let ghost m = self.spec_manager();
        let ghost step = self.spec_step();
        let ghost untimed = self.untimed_seq_ok();
        let ghost aa = self.answers_all();
        proof {
            Self::lemma_manager_blocks_ok(self, *block);
        }
        let (next_time, vars): (Option<TimeAnnotation>, Option<Vec<NodeID>>) = match btype {
            BlockType::Always(_) | BlockType::Assign => {
                let (next_time, first) = self.get_driven_signals_in_block(block, &btype, sig.duplicate(), time);
                match first {
                    None => (next_time, None),
                    Some(first) => {
                        let ghost u = node_keys(first@) + value_keys(block@.dataflow);
                        let mut res: Vec<NodeID> = Vec::new();
                        let mut k: usize = 0;
                        while k < first.len()
                            invariant
                                k <= first.len(),
                                u == node_keys(first@) + value_keys(block@.dataflow),
                                crate::dfb::no_dups(node_keys(res@)),
                                forall|q: int| 0 <= q < res@.len() ==> #[trigger] u.contains(res@[q]@),
                                forall|q: int| 0 <= q < first@.len() ==> #[trigger] first@[q]@ == sig@ || value_keys(block@.dataflow).contains(first@[q]@),
                                forall|q: int| 0 <= q < res@.len() ==> node_text(#[trigger] res@[q]@) == node_text(sig@) || block_texts(block@).contains(node_text(res@[q]@)),
                            decreases first.len() - k,
                        {
                            let ghost before = node_keys(res@);
                            let ghost old_res = res@;
                            insert_node(&mut res, first[k].duplicate());
                            proof {
                                assert(u[k as int] == first@[k as int]@);
                                lemma_set_insert_keeps(before, node_keys(res@), first@[k as int]@);
                                if first@[k as int]@ != sig@ {
                                    lemma_value_text(block@, first@[k as int]@);
                                }
                                assert forall|q: int| 0 <= q < res@.len() implies #[trigger] u.contains(res@[q]@) by {
                                    assert(node_keys(res@)[q] == res@[q]@);
                                    if q < old_res.len() {
                                        assert(node_keys(old_res)[q] == old_res[q]@);
                                        assert(node_keys(res@)[q] == node_keys(old_res)[q]);
                                    } else {
                                        assert(res@[q]@ == first@[k as int]@);
                                    }
                                };
                                assert forall|q: int| 0 <= q < res@.len() implies node_text(#[trigger] res@[q]@) == node_text(sig@)
                                    || block_texts(block@).contains(node_text(res@[q]@)) by {
                                    assert(node_keys(res@)[q] == res@[q]@);
                                    if q < old_res.len() {
                                        assert(node_keys(old_res)[q] == old_res[q]@);
                                        assert(node_keys(res@)[q] == node_keys(old_res)[q]);
                                        assert(res@[q]@ == old_res[q]@);
                                    } else {
                                        assert(res@[q]@ == first@[k as int]@);
                                    }
                                };
                            }
                            k = k + 1;
                        }
                        let mut cross: Vec<NodeID> = Vec::new();
                        loop
                            invariant
                                self.tracer_ok(),
                                self.spec_manager() == m,
                                m.wf(),
                                self.spec_step() == step,
                                self.untimed_seq_ok() == untimed,
                self.answers_all() == aa,
                                block.wf(),
                                time_ok(step, untimed, btype, time),
                                btype == block.block_type,
                                in_manager(m, block@),
                                self.answers_for(*block),
                                u == node_keys(first@) + value_keys(block@.dataflow),
                                crate::dfb::no_dups(node_keys(res@)),
                                forall|q: int| 0 <= q < res@.len() ==> #[trigger] u.contains(res@[q]@),
                                forall|q: int| 0 <= q < first@.len() ==> #[trigger] first@[q]@ == sig@ || value_keys(block@.dataflow).contains(first@[q]@),
                                forall|q: int| 0 <= q < res@.len() ==> node_text(#[trigger] res@[q]@) == node_text(sig@) || block_texts(block@).contains(node_text(res@[q]@)),
                                forall|q: int| 0 <= q < cross@.len() ==> #[trigger] traced_text_ok(m, block@, sig@, node_text(cross@[q]@)),
                            decreases u.len() - res@.len(),
                        {
                            proof {
                                assert forall|i: int| 0 <= i < node_keys(res@).len() implies u.contains(node_keys(res@)[i]) by {
                                    assert(node_keys(res@)[i] == res@[i]@);
                                };
                                lemma_distinct_bound(node_keys(res@), u);
                            }
                            let len = res.len();
                            let mut tmp: Vec<NodeID> = Vec::new();
                            let mut q: usize = 0;
                            while q < res.len()
                                invariant
                                    self.tracer_ok(),
                                    self.spec_manager() == m,
                                    m.wf(),
                                    self.spec_step() == step,
                                    self.untimed_seq_ok() == untimed,
                self.answers_all() == aa,
                                    block.wf(),
                                    time_ok(step, untimed, btype, time),
                                    btype == block.block_type,
                                    in_manager(m, block@),
                                    self.answers_for(*block),
                                    u == node_keys(first@) + value_keys(block@.dataflow),
                                    q <= res.len(),
                                    forall|z: int| 0 <= z < res@.len() ==> #[trigger] u.contains(res@[z]@),
                                    forall|z: int| 0 <= z < res@.len() ==> node_text(#[trigger] res@[z]@) == node_text(sig@) || block_texts(block@).contains(node_text(res@[z]@)),
                                    forall|z: int| 0 <= z < tmp@.len() ==> #[trigger] u.contains(tmp@[z]@),
                                    forall|z: int| 0 <= z < tmp@.len() ==> node_text(#[trigger] tmp@[z]@) == node_text(sig@) || block_texts(block@).contains(node_text(tmp@[z]@)),
                                    forall|z: int| 0 <= z < cross@.len() ==> #[trigger] traced_text_ok(m, block@, sig@, node_text(cross@[z]@)),
                                decreases res.len() - q,
                            {
                                let v = res[q].duplicate();
                                let (vt, vs) = self.get_driven_signals_in_block(block, &btype, v.duplicate(), time);
                                match vs {
                                    Some(vs) => {
                                        if vt == time {
                                            let mut z: usize = 0;
                                            while z < vs.len()
                                                invariant
                                                    z <= vs.len(),
                                                    u.contains(v@),
                                                    node_text(v@) == node_text(sig@) || block_texts(block@).contains(node_text(v@)),
                                                    forall|w: int| 0 <= w < vs@.len() ==> #[trigger] vs@[w]@ == v@ || value_keys(block@.dataflow).contains(vs@[w]@),
                                                    u == node_keys(first@) + value_keys(block@.dataflow),
                                                    forall|w: int| 0 <= w < tmp@.len() ==> #[trigger] u.contains(tmp@[w]@),
                                                    forall|w: int| 0 <= w < tmp@.len() ==> node_text(#[trigger] tmp@[w]@) == node_text(sig@) || block_texts(block@).contains(node_text(tmp@[w]@)),
                                                decreases vs.len() - z,
                                            {
                                                proof {
                                                    let x = vs@[z as int]@;
                                                    if x != v@ {
                                                        lemma_value_in_universe(node_keys(first@), value_keys(block@.dataflow), x);
                                                        lemma_value_text(block@, x);
                                                    }
                                                }
                                                tmp.push(vs[z].duplicate());
                                                z = z + 1;
                                            }
                                        }
                                    },
                                    None => {
                                        if btype == BlockType::Always(CircuitType::SEQ) {
                                            self.collect_cross_deps(block, &v, &mut cross, Ghost(sig@));
                                        }
                                    },
                                }
                                q = q + 1;
                            }
                            let mut z: usize = 0;
                            while z < tmp.len()
                                invariant
                                    z <= tmp.len(),
                                    crate::dfb::no_dups(node_keys(res@)),
                                    forall|w: int| 0 <= w < res@.len() ==> #[trigger] u.contains(res@[w]@),
                                    forall|w: int| 0 <= w < tmp@.len() ==> #[trigger] u.contains(tmp@[w]@),
                                    forall|w: int| 0 <= w < res@.len() ==> node_text(#[trigger] res@[w]@) == node_text(sig@) || block_texts(block@).contains(node_text(res@[w]@)),
                                    forall|w: int| 0 <= w < tmp@.len() ==> node_text(#[trigger] tmp@[w]@) == node_text(sig@) || block_texts(block@).contains(node_text(tmp@[w]@)),
                                    res@.len() >= len,
                                decreases tmp.len() - z,
                            {
                                let ghost before = node_keys(res@);
                                let ghost old_res = res@;
                                insert_node(&mut res, tmp[z].duplicate());
                                proof {
                                    lemma_set_insert_keeps(before, node_keys(res@), tmp@[z as int]@);
                                    assert forall|w: int| 0 <= w < res@.len() implies #[trigger] u.contains(res@[w]@) by {
                                        assert(node_keys(res@)[w] == res@[w]@);
                                        if w < old_res.len() {
                                            assert(node_keys(old_res)[w] == old_res[w]@);
                                            assert(node_keys(res@)[w] == node_keys(old_res)[w]);
                                        } else {
                                            assert(res@[w]@ == tmp@[z as int]@);
                                        }
                                    };
                                    assert forall|w: int| 0 <= w < res@.len() implies node_text(#[trigger] res@[w]@) == node_text(sig@)
                                        || block_texts(block@).contains(node_text(res@[w]@)) by {
                                        assert(node_keys(res@)[w] == res@[w]@);
                                        if w < old_res.len() {
                                            assert(node_keys(old_res)[w] == old_res[w]@);
                                            assert(node_keys(res@)[w] == node_keys(old_res)[w]);
                                            assert(res@[w]@ == old_res[w]@);
                                        } else {
                                            assert(res@[w]@ == tmp@[z as int]@);
                                        }
                                    };
                                }
                                z = z + 1;
                            }
                            proof {
                                assert forall|i: int| 0 <= i < node_keys(res@).len() implies u.contains(node_keys(res@)[i]) by {
                                    assert(node_keys(res@)[i] == res@[i]@);
                                };
                                lemma_distinct_bound(node_keys(res@), u);
                            }
                            if res.len() == len {
                                break;
                            }
                        }
                        let mut vars: Vec<NodeID> = Vec::new();
                        let mut k: usize = 0;
                        while k < res.len()
                            invariant
                                k <= res.len(),
                                forall|w: int| 0 <= w < res@.len() ==> node_text(#[trigger] res@[w]@) == node_text(sig@) || block_texts(block@).contains(node_text(res@[w]@)),
                                forall|w: int| 0 <= w < vars@.len() ==> #[trigger] traced_text_ok(m, block@, sig@, node_text(vars@[w]@)),
                            decreases res.len() - k,
                        {
                            if !contains_text(&block.outputs, res[k].get_text()) {
                                vars.push(res[k].duplicate());
                            }
                            k = k + 1;
                        }
                        let mut k: usize = 0;
                        while k < cross.len()
                            invariant
                                k <= cross.len(),
                                forall|w: int| 0 <= w < cross@.len() ==> #[trigger] traced_text_ok(m, block@, sig@, node_text(cross@[w]@)),
                                forall|w: int| 0 <= w < vars@.len() ==> #[trigger] traced_text_ok(m, block@, sig@, node_text(vars@[w]@)),
                            decreases cross.len() - k,
                        {
                            vars.push(cross[k].duplicate());
                            k = k + 1;
                        }
                        (next_time, Some(vars))
                    },
                }
            },
            _ => {
                let c = copy_nodes(&block.inputs);
                proof {
                    assert forall|w: int| 0 <= w < c@.len() implies #[trigger] traced_text_ok(m, block@, sig@, node_text(c@[w]@)) by {
                        let all = block@.inputs + block@.outputs + value_keys(block@.dataflow);
                        assert(node_keys(c@)[w] == c@[w]@);
                        assert(all[w] == block@.inputs[w]);
                        assert(key_texts(all)[w] == node_text(block@.inputs[w]));
                    };
                }
                (time, Some(c))
            },
        };
        assert(vars matches Some(nodes) ==> forall|w: int| 0 <= w < nodes@.len() ==> #[trigger] traced_text_ok(m, block@, sig@, node_text(nodes@[w]@)));
        assert(next_time == out_time(block.block_type, time, step));
        let out = match vars {
            Some(nodes) => {
                let mut v: Vec<(NodeID, Option<TimeAnnotation>)> = Vec::new();
                let mut k: usize = 0;
                while k < nodes.len()
                    invariant
                        forall|w: int| 0 <= w < nodes@.len() ==> #[trigger] traced_text_ok(m, block@, sig@, node_text(nodes@[w]@)),
                        next_time == out_time(block.block_type, time, step),
                        k <= nodes.len(),
                        v@.len() == k,
                        forall|w: int| 0 <= w < k ==> (#[trigger] v@[w]).0@ == nodes@[w]@ && v@[w].1 == next_time,
                    decreases nodes.len() - k,
                {
                    v.push((nodes[k].duplicate(), next_time));
                    k = k + 1;
                }
                Some(v)
            },
            None => None,
        };
        let next_scope = match btype {
            BlockType::ModuleInput => match crate::utils::get_last_scope(block.scope.as_str()) {
                Some(l) => string_of(l),
                None => block.scope.clone(),
            },
            BlockType::ModuleOutput => block.scope.clone(),
            _ => string_of(cur_scope),
        };
        proof {
            if block.block_type.is_port_kind() {
                assert(crate::dfb::timed_keys(out.unwrap()@) =~= block@.inputs.map_values(|k: NodeKey| (k, time)));
            }
        }
        Some((next_scope, out, EarlyStop::NoStop))
    }

    /// The first output node named `sig` of a scope (an output port's, or else
    /// an internal one) and the first output port block that reads a signal
    /// named `sig`, with the scope and the time.
    fn map_str_output_sig_to_output_node(&self, scope_name: &str, sig: &str, time: TimeAnnotation) -> (r: Option<(String, TimeAnnotation, NodeID, DataFlowBlock)>)
        requires
            self.spec_manager().wf(),
            self.spec_manager().has_scope(scope_name@),
        ensures
            r is Some <==> sig_nodes_spec(self.spec_manager(), scope_name@, sig@).len() > 0
                && self.spec_manager().blocks_of(scope_name@).filter(reads_port_text(sig@)).len() > 0,
            r matches Some(x) ==> x.0@ == scope_name@ && x.1 == time && x.2@ == sig_nodes_spec(self.spec_manager(), scope_name@, sig@)[0]
                && x.3@ == self.spec_manager().blocks_of(scope_name@).filter(reads_port_text(sig@))[0]@,
    {
        let mut sig_nodes = match self.get_node_id_from_output_port(scope_name, sig) {
            Ok(v) => v,
            Err(_) => Vec::new(),
        };
        if sig_nodes.len() == 0 {
            match self.get_node_id_from_internal(scope_name, sig) {
                Ok(v) => {
                    sig_nodes = v;
                },
                Err(_) => {},
            }
        }
        assert(node_keys(sig_nodes@) == sig_nodes_spec(self.spec_manager(), scope_name@, sig@));
        if sig_nodes.len() == 0 {
            return None;
        }
        let blocks = match self.get_scope_blocks(scope_name) {
            Ok(b) => b,
            Err(_) => {
                return None;
            },
        };
        let ghost p = reads_port_text(sig@);
        let mut i: usize = 0;
        assert(blocks@.skip(0) == blocks@);
        while i < blocks.len()
            invariant
                p == reads_port_text(sig@),
                sig_nodes@.len() > 0,
                node_keys(sig_nodes@) == sig_nodes_spec(self.spec_manager(), scope_name@, sig@),
                blocks@ == self.spec_manager().blocks_of(scope_name@),
                i <= blocks.len(),
                forall|j: int| 0 <= j < i ==> !p(#[trigger] blocks@[j]),
            decreases blocks.len() - i,
        {
            let b = &blocks[i];
            if b.block_type == BlockType::ModuleOutput && contains_text(&b.inputs, sig) {
                proof {
                    assert(p(blocks@[i as int]));
                    lemma_filter_first(blocks@, p, i as int);
                    assert(node_keys(sig_nodes@)[0] == sig_nodes@[0]@);
                }
                return Some((string_of(scope_name), time, sig_nodes[0].duplicate(), b.duplicate()));
            }
            assert(!p(blocks@[i as int]));
            i = i + 1;
        }
        proof {
            lemma_filter_none(blocks@, p);
        }
        None
    }

    /// Looks for blocks by the meaningful suffix of the signal's name (its last
    /// two `_`-separated segments, when they take at least four bytes): the
    /// blocks of the first scope other than `original_scope` that drive a
    /// signal whose name ends with it.
    fn find_block_by_signal_suffix(&self, original_scope: &str, sig: &NodeID) -> (r: Vec<(String, Vec<DataFlowBlock>)>)
        requires
            self.spec_manager().wf(),
        ensures
            found_view(r@) == (if byte_len(suffix_of(node_text(sig@))) < 4 {
                Seq::empty()
            } else {
                suffix_search(self.spec_manager(), scope_names(self.spec_manager().scope_block_mapping@), original_scope@, suffix_of(node_text(sig@)))
            }),
            found_in_manager(self.spec_manager(), r@),
    {
        let t = sig.get_text();
        let suffix = crate::utils::extract_signal_suffix(t);
        assert(suffix@ == suffix_of(node_text(sig@)));
        assert(suffix.len() == byte_len(suffix@));
        let mut r: Vec<(String, Vec<DataFlowBlock>)> = Vec::new();
        if suffix.len() < 4 {
            assert(found_view(r@) =~= Seq::<(Seq<char>, Seq<BlockView>)>::empty());
            return r;
        }
        let ghost m = self.spec_manager();
        let scopes = self.get_scopes();
        let ghost names = scope_names(m.scope_block_mapping@);
        let mut i: usize = 0;
        assert(names.skip(0) == names);
        while i < scopes.len()
            invariant
                self.spec_manager() == m,
                m.wf(),
                strings_view(scopes@) == names,
                names == scope_names(m.scope_block_mapping@),
                suffix@ == suffix_of(node_text(sig@)),
                byte_len(suffix@) >= 4,
                i <= scopes.len(),
                r@.len() == 0,
                suffix_search(m, names, original_scope@, suffix@) == suffix_search(m, names.skip(i as int), original_scope@, suffix@),
            decreases scopes.len() - i,
        {
            assert(names.skip(i as int).drop_first() == names.skip(i + 1));
            assert(names.skip(i as int)[0] == scopes@[i as int]@);
            if !str_eq(scopes[i].as_str(), original_scope) {
                match self.get_scope_blocks(scopes[i].as_str()) {
                    Ok(blocks) => {
                        proof {
                            lemma_scope_blocks_in_manager(m, scopes@[i as int]@);
                        }
                        let matching = select_suffix(blocks, suffix);
                        if matching.len() > 0 {
                            let ghost mv = matching@;
                            r.push((scopes[i].clone(), matching));
                            proof {
                                assert(found_view(r@) =~= seq![(scopes@[i as int]@, block_views(mv))]);
                                assert forall|a: int, b: int| 0 <= a < r@.len() && 0 <= b < r@[a].1@.len() implies #[trigger] in_manager(
                                    m,
                                    r@[a].1@[b]@,
                                ) by {
                                    assert(r@[a].1@ == mv);
                                    let f = blocks@.filter(ends_with_suffix(suffix@));
                                    lemma_filter_in(blocks@, ends_with_suffix(suffix@), b);
                                    let k = choose|k: int| 0 <= k < blocks@.len() && blocks@[k] == f[b];
                                    assert(block_views(mv)[b] == mv[b]@);
                                    assert(block_views(f)[b] == f[b]@);
                                    assert(in_manager(m, blocks@[k]@));
                                };
                            }
                            return r;
                        }
                    },
                    Err(_) => {
                        assert(m.blocks_of(scopes@[i as int]@) == Seq::<DataFlowBlock>::empty());
                        assert(Seq::<DataFlowBlock>::empty().filter(ends_with_suffix(suffix@)) =~= Seq::<DataFlowBlock>::empty()) by {
                            reveal(Seq::filter);
                        };
                    },
                }
            }
            i = i + 1;
        }
        assert(names.skip(i as int) =~= Seq::<Seq<char>>::empty());
        assert(found_view(r@) =~= Seq::<(Seq<char>, Seq<BlockView>)>::empty());
        r
    }

    /// Traces the signal `sig` of the scope `scope_name` back from `time`:
    /// starting from the output ports (or, failing those, the internal signals)
    /// with that name, it visits, breadth first, each block that drives a
    /// traced signal at most once per (signal text, time), records the trace
    /// it was entered and left by, and goes on with the signals it reads.
    /// Signals at times before `time_bound` (before 0 when there is no bound)
    /// are not traced; blocks outside the scopes of `scope_prefix_filter` are
    /// skipped; tracing stops once more than `trace_limit` blocks are visited.
    /// The visited blocks are returned once per (block, time).
    #[verifier::spinoff_prover]
    #[verifier::rlimit(40)]
    fn trace(
        &mut self,
        scope_name: &str,
        sig: &str,
        time: Option<TimeAnnotation>,
        time_bound: Option<TimeAnnotation>,
        trace_limit: Option<usize>,
        scope_prefix_filter: Option<Vec<String>>,
    ) -> (r: Vec<(DataFlowBlock, Option<TimeAnnotation>)>)
        requires
            old(self).tracer_ok(),
            old(self).spec_manager().wf(),
            old(self).spec_manager().has_scope(scope_name@),
            old(self).spec_step() matches Some(s) ==> s >= 0,
            !old(self).untimed_seq_ok() ==> time is Some && old(self).spec_step() is Some,
            bound_step_ok(time_bound, old(self).spec_step()),
        ensures
            final(self).tracer_ok(),
            final(self).spec_manager() == old(self).spec_manager(),
            final(self).spec_step() == old(self).spec_step(),
            final(self).untimed_seq_ok() == old(self).untimed_seq_ok(),
            final(self).answers_all() == old(self).answers_all(),
            forall|i: int, j: int| 0 <= i < j < r@.len() ==> !(#[trigger] r@[i].0.bid == #[trigger] r@[j].0.bid && r@[i].1 == r@[j].1),
            forall|i: int| 0 <= i < r@.len() ==> #[trigger] traced_from_manager(old(self).spec_manager(), r@[i].0@),
            forall|i: int| 0 <= i < r@.len() ==> (#[trigger] r@[i].0@).suspicious_trace is Some,
            forall|i: int| 0 <= i < r@.len() ==> time_in(#[trigger] r@[i].1, time, bound_of(time_bound)),
            forall|i: int| 0 <= i < r@.len() ==> passes_filter((#[trigger] r@[i].0@).scope, scope_prefix_filter),
            start_nodes(old(self).spec_manager(), scope_name@, sig@).len() > 0 && within_bound(time, time_bound) ==> forall|a: int, b: int|
                0 <= a < start_blocks(old(self).spec_manager(), scope_name@, sig@).len()
                && 0 <= b < start_blocks(old(self).spec_manager(), scope_name@, sig@)[a].1.len()
                && block_passing(#[trigger] start_blocks(old(self).spec_manager(), scope_name@, sig@)[a].1[b], scope_prefix_filter, old(self).answers_all())
                ==> exists|i: int| 0 <= i < r@.len() && r@[i].0.bid == start_blocks(old(self).spec_manager(), scope_name@, sig@)[a].1[b].bid
                    && r@[i].1 == time,
            trace_limit is None ==> forall|i: int, y: int, a: int, b: int|
                0 <= i < r@.len() && 0 <= y < trace_of(r@[i].0@).len() && within_bound(trace_of(r@[i].0@)[y].1, time_bound)
                && 0 <= a < lookup_after(old(self).spec_manager(), r@[i].0@, trace_of(r@[i].0@)[y].0).len()
                && 0 <= b < lookup_after(old(self).spec_manager(), r@[i].0@, trace_of(r@[i].0@)[y].0)[a].1.len()
                && block_passing(
                    #[trigger] lookup_after(old(self).spec_manager(), r@[i].0@, trace_of(r@[i].0@)[y].0)[a].1[b],
                    scope_prefix_filter,
                    old(self).answers_all(),
                ) ==> exists|k: int| 0 <= k < r@.len() && r@[k].0.bid == lookup_after(
                    old(self).spec_manager(),
                    r@[i].0@,
                    trace_of(r@[i].0@)[y].0,
                )[a].1[b].bid && r@[k].1 == trace_of(r@[i].0@)[y].1,
    {
        let ghost m = self.spec_manager();
        let ghost step = self.spec_step();
        let ghost untimed = self.untimed_seq_ok();
        let ghost aa = self.answers_all();
        let ghost lo = bound_of(time_bound);
        let mut sig_nodes = match self.get_node_id_from_output_port(scope_name, sig) {
            Ok(v) => v,
            Err(_) => Vec::new(),
        };
        if sig_nodes.len() == 0 {
            match self.get_node_id_from_internal(scope_name, sig) {
                Ok(v) => {
                    sig_nodes = v;
                },
                Err(_) => {},
            }
        }
        assert(node_keys(sig_nodes@) == start_nodes(m, scope_name@, sig@));
        let ghost g = start_blocks(m, scope_name@, sig@);
        let ghost premise = sig_nodes@.len() > 0 && within_bound(time, time_bound);
        let ghost init_texts = key_texts(node_keys(sig_nodes@));
        let ghost texts_u = blocks_texts(crate::mgr::all_blocks(m.scope_block_mapping@)) + init_texts;
        let ghost bids_u = blocks_bids(crate::mgr::all_blocks(m.scope_block_mapping@));
        let ghost times_u = time_universe(time, lo);
        let ghost universe = prod3(bids_u, texts_u, times_u);
        let mut queue: Vec<(String, NodeID, Option<TimeAnnotation>)> = Vec::new();
        let mut k: usize = 0;
        while k < sig_nodes.len()
            invariant
                k <= sig_nodes.len(),
                texts_u == blocks_texts(crate::mgr::all_blocks(m.scope_block_mapping@)) + init_texts,
                init_texts == key_texts(node_keys(sig_nodes@)),
                !untimed ==> time is Some,
                queue_ok(queue@, texts_u, time, untimed),
                queue@.len() == k,
                forall|j: int| 0 <= j < k ==> (#[trigger] queue@[j]).0@ == scope_name@ && queue@[j].1@ == sig_nodes@[j]@
                    && queue@[j].2 == time,
            decreases sig_nodes.len() - k,
        {
            proof {
                assert(init_texts[k as int] == node_text(sig_nodes@[k as int]@));
                lemma_value_in_universe(blocks_texts(crate::mgr::all_blocks(m.scope_block_mapping@)), init_texts, init_texts[k as int]);
            }
            queue.push((string_of(scope_name), sig_nodes[k].duplicate(), time));
            k = k + 1;
        }
        let ghost q0 = queue@;
        let mut ignored: Vec<(String, NodeID, Option<TimeAnnotation>)> = Vec::new();
        let mut res: Vec<(NodeID, DataFlowBlock, Option<TimeAnnotation>)> = Vec::new();
        let mut qi: usize = 0;
        proof {
            assert(res_keys(res@) =~= Seq::<(u64, Seq<char>, Option<TimeAnnotation>)>::empty());
        }
        while qi < queue.len()
            invariant
                self.tracer_ok(),
                self.spec_manager() == m,
                m.wf(),
                self.spec_step() == step,
                self.untimed_seq_ok() == untimed,
                self.answers_all() == aa,
                step matches Some(s) ==> s >= 0,
                !untimed ==> time is Some && step is Some,
                bound_step_ok(time_bound, step),
                lo == bound_of(time_bound),
                texts_u == blocks_texts(crate::mgr::all_blocks(m.scope_block_mapping@)) + init_texts,
                bids_u == blocks_bids(crate::mgr::all_blocks(m.scope_block_mapping@)),
                times_u == time_universe(time, lo),
                universe == prod3(bids_u, texts_u, times_u),
                qi <= queue.len(),
                queue_ok(queue@, texts_u, time, untimed),
                res_ok(m, res@, texts_u, time, lo),
                forall|x: int| 0 <= x < res@.len() ==> passes_filter((#[trigger] res@[x]).1@.scope, scope_prefix_filter),
                q0.len() == sig_nodes@.len(),
                queue@.len() >= q0.len(),
                forall|j: int| 0 <= j < q0.len() ==> #[trigger] queue@[j] == q0[j],
                q0.len() > 0 ==> q0[0].0@ == scope_name@ && q0[0].1@ == sig_nodes@[0]@ && q0[0].2 == time,
                g == start_blocks(m, scope_name@, sig@),
                node_keys(sig_nodes@) == start_nodes(m, scope_name@, sig@),
                premise == (sig_nodes@.len() > 0 && within_bound(time, time_bound)),
                qi == 0 ==> res@.len() == 0,
                ignored@.len() == 0,
                forall|j: int| 0 <= j < qi ==> entry_done(m, scope_prefix_filter, aa, res@, #[trigger] queue@[j], time_bound),
                forall|x: int| 0 <= x < res@.len() ==> trace_queued(m, #[trigger] res@[x], queue@),
            ensures
                trace_limit is None ==> qi == queue@.len(),
                premise ==> qi > 0,
                qi == 0 ==> res@.len() == 0,
                forall|j: int| 0 <= j < qi ==> entry_done(m, scope_prefix_filter, aa, res@, #[trigger] queue@[j], time_bound),
                forall|x: int| 0 <= x < res@.len() ==> trace_queued(m, #[trigger] res@[x], queue@),
            decreases universe.len() - res@.len(), queue@.len() - qi,
        {
            proof {
                lemma_res_bound(m, res@, texts_u, time, lo, universe, bids_u, times_u);
            }
            match trace_limit {
                Some(limit) => {
                    if res.len() > limit {
                        break;
                    }
                },
                None => {},
            }
            let cur_scope = queue[qi].0.clone();
            let head = queue[qi].1.duplicate();
            let cur_time = queue[qi].2;
            let ghost qidx = qi as int;
            let ghost qstart = queue@;
            let ghost cur_ok = within_bound(cur_time, time_bound);
            let ghost gq = block_result_spec(m, cur_scope@, node_text(head@));
            proof {
                assert(queue@[qi as int].1@ == head@);
                assert(queue@[qi as int].0@ == cur_scope@);
            }
            qi = qi + 1;
            if contains_entry(&ignored, cur_scope.as_str(), &head, cur_time) {
                continue;
            }
            match cur_time {
                Some(t) => match time_bound {
                    None => {
                        if t < 0 {
                            continue;
                        }
                    },
                    Some(b) => {
                        if t < b {
                            continue;
                        }
                    },
                },
                None => {},
            }
            let found = self.get_block_result(cur_scope.as_str(), &head);
            let ghost res_len0 = res@.len();
            let ghost q_len0 = queue@.len();
            let mut a: usize = 0;
            while a < found.len()
                invariant
                    self.tracer_ok(),
                    self.spec_manager() == m,
                    m.wf(),
                    self.spec_step() == step,
                    self.untimed_seq_ok() == untimed,
                self.answers_all() == aa,
                    step matches Some(s) ==> s >= 0,
                    !untimed ==> time is Some && step is Some,
                    bound_step_ok(time_bound, step),
                    lo == bound_of(time_bound),
                    texts_u == blocks_texts(crate::mgr::all_blocks(m.scope_block_mapping@)) + init_texts,
                    found_in_manager(m, found@),
                    found_local_scoped(found@, cur_scope@),
                    found_wf(found@),
                    texts_u.contains(node_text(head@)),
                    time_in(cur_time, time, lo),
                    !untimed ==> cur_time is Some,
                    queue_ok(queue@, texts_u, time, untimed),
                    res_ok(m, res@, texts_u, time, lo),
                    forall|x: int| 0 <= x < res@.len() ==> passes_filter((#[trigger] res@[x]).1@.scope, scope_prefix_filter),
                    res@.len() >= res_len0,
                    res@.len() == res_len0 ==> queue@.len() == q_len0,
                    qi <= queue@.len(),
                    queue@.len() >= q_len0,
                    q_len0 == qstart.len(),
                    qidx < qstart.len(),
                    qi == qidx + 1,
                    forall|j: int| 0 <= j < qstart.len() ==> #[trigger] queue@[j] == qstart[j],
                    ignored@.len() == 0,
                    cur_ok == within_bound(cur_time, time_bound),
                    found_view(found@) == gq,
                    gq == block_result_spec(m, cur_scope@, node_text(head@)),
                    cur_ok ==> ports_recorded(gq, scope_prefix_filter, aa, res@, cur_time, a as int, 0),
                    forall|j: int| 0 <= j < qidx ==> entry_done(m, scope_prefix_filter, aa, res@, #[trigger] queue@[j], time_bound),
                    forall|x: int| 0 <= x < res@.len() ==> trace_queued(m, #[trigger] res@[x], queue@),
                decreases found.len() - a,
            {
                let blocks = &found[a].1;
                let mut bi: usize = 0;
                while bi < blocks.len()
                    invariant
                        self.tracer_ok(),
                        self.spec_manager() == m,
                        m.wf(),
                        self.spec_step() == step,
                        self.untimed_seq_ok() == untimed,
                self.answers_all() == aa,
                        step matches Some(s) ==> s >= 0,
                        !untimed ==> time is Some && step is Some,
                        bound_step_ok(time_bound, step),
                        lo == bound_of(time_bound),
                        texts_u == blocks_texts(crate::mgr::all_blocks(m.scope_block_mapping@)) + init_texts,
                        a < found@.len(),
                        *blocks == found@[a as int].1,
                        found_in_manager(m, found@),
                        found_local_scoped(found@, cur_scope@),
                        found_wf(found@),
                        texts_u.contains(node_text(head@)),
                        time_in(cur_time, time, lo),
                        !untimed ==> cur_time is Some,
                        queue_ok(queue@, texts_u, time, untimed),
                        res_ok(m, res@, texts_u, time, lo),
                        forall|x: int| 0 <= x < res@.len() ==> passes_filter((#[trigger] res@[x]).1@.scope, scope_prefix_filter),
                        res@.len() >= res_len0,
                        res@.len() == res_len0 ==> queue@.len() == q_len0,
                        qi <= queue@.len(),
                        queue@.len() >= q_len0,
                        q_len0 == qstart.len(),
                        qidx < qstart.len(),
                        qi == qidx + 1,
                        forall|j: int| 0 <= j < qstart.len() ==> #[trigger] queue@[j] == qstart[j],
                        ignored@.len() == 0,
                        cur_ok == within_bound(cur_time, time_bound),
                        found_view(found@) == gq,
                        gq == block_result_spec(m, cur_scope@, node_text(head@)),
                        cur_ok ==> ports_recorded(gq, scope_prefix_filter, aa, res@, cur_time, a as int, bi as int),
                        forall|j: int| 0 <= j < qidx ==> entry_done(m, scope_prefix_filter, aa, res@, #[trigger] queue@[j], time_bound),
                        forall|x: int| 0 <= x < res@.len() ==> trace_queued(m, #[trigger] res@[x], queue@),
                    decreases blocks.len() - bi,
                {
                    let block = &blocks[bi];
                    proof {
                        assert(found_view(found@)[a as int].1 == block_views(found@[a as int].1@));
                        assert(gq[a as int].1[bi as int] == block@);
                    }
                    proof {
                        assert(in_manager(m, found@[a as int].1@[bi as int]@));
                        assert(found@[a as int].1@[bi as int].wf());
                    }
                    let mut skip = false;
                    match &scope_prefix_filter {
                        Some(prefixes) => {
                            let mut all_miss = true;
                            let mut pi: usize = 0;
                            while pi < prefixes.len()
                                invariant
                                    pi <= prefixes.len(),
                                    all_miss == forall|p: int| 0 <= p < pi ==> !is_prefix(#[trigger] prefixes@[p]@, block@.scope),
                                decreases prefixes.len() - pi,
                            {
                                if str_starts_with(block.scope.as_str(), prefixes[pi].as_str()) {
                                    all_miss = false;
                                }
                                pi = pi + 1;
                            }
                            skip = all_miss;
                        },
                        None => {},
                    }
                    assert(skip == !passes_filter(block@.scope, scope_prefix_filter));
                    if !skip && !visited(&res, block.bid, cur_time, &head) {
                        let ghost old_res = res@;
                        proof {
                            assert(!block.block_type.is_port_kind() ==> scope_or_ancestor(block@.scope, cur_scope@));
                            if let Some(t) = cur_time {
                                if let Some(st) = step {
                                    assert(lo <= t);
                                    assert(t - st >= i64::MIN);
                                }
                            }
                            assert(block.block_type == BlockType::Always(CircuitType::SEQ) && cur_time is None ==> untimed);
                            assert(step matches Some(st) ==> st >= 0);
                            assert(bound_step_ok(cur_time, step));
                            assert(time_ok(step, untimed, block.block_type, cur_time));
                        }
                        match self.get_driven_signals_fixpoint(block, cur_scope.as_str(), cur_time, &head) {
                            Some((next_scope, Some(next_vars), early_stop)) => {
                                let ghost old_queue = queue@;
                                proof {
                                    reveal(in_manager);
                                    let all = crate::mgr::all_blocks(m.scope_block_mapping@);
                                    let bt = blocks_texts(all);
                                    let bk = choose|x: int| 0 <= x < all.len() && #[trigger] all[x]@ == block@;
                                    assert forall|i: int| 0 <= i < next_vars@.len() implies {
                                        &&& texts_u.contains(node_text((#[trigger] next_vars@[i]).0@))
                                        &&& (next_vars@[i].1 matches Some(t) ==> time matches Some(t0) && t <= t0)
                                        &&& (!untimed ==> next_vars@[i].1 is Some)
                                    } by {
                                        let tx = node_text(next_vars@[i].0@);
                                        assert(traced_text_ok(m, block@, head@, tx));
                                        if tx != node_text(head@) {
                                            if block_texts(block@).contains(tx) {
                                                lemma_blocks_texts_contains(all, bk, tx);
                                            }
                                            lemma_left_in(bt, init_texts, tx);
                                        }
                                    };
                                }
                                let mut push_all = true;
                                match early_stop {
                                    EarlyStop::Module(bound_nodes) => {
                                        let mut z: usize = 0;
                                        while z < bound_nodes.len()
                                            invariant
                                                z <= bound_nodes.len(),
                                            decreases bound_nodes.len() - z,
                                        {
                                            ignored.push((bound_nodes[z].0.clone(), bound_nodes[z].1.duplicate(), bound_nodes[z].2));
                                            z = z + 1;
                                        }
                                    },
                                    EarlyStop::Block => {
                                        push_all = false;
                                    },
                                    EarlyStop::NoStop => {},
                                }
                                if push_all {
                                    let mut z: usize = 0;
                                    while z < next_vars.len()
                                        invariant
                                            z <= next_vars.len(),
                                            queue@.len() == old_queue.len() + z,
                                            forall|j: int| 0 <= j < old_queue.len() ==> #[trigger] queue@[j] == old_queue[j],
                                            forall|zz: int| 0 <= zz < z ==> (#[trigger] queue@[old_queue.len() + zz]).0@ == next_scope@
                                                && queue@[old_queue.len() + zz].1@ == next_vars@[zz].0@
                                                && queue@[old_queue.len() + zz].2 == next_vars@[zz].1,
                                            queue_ok(queue@, texts_u, time, untimed),
                                            forall|i: int| 0 <= i < next_vars@.len() ==> {
                                                &&& texts_u.contains(node_text((#[trigger] next_vars@[i]).0@))
                                                &&& (next_vars@[i].1 matches Some(t) ==> time matches Some(t0) && t <= t0)
                                                &&& (!untimed ==> next_vars@[i].1 is Some)
                                            },
                                        decreases next_vars.len() - z,
                                    {
                                        queue.push((next_scope.clone(), next_vars[z].0.duplicate(), next_vars[z].1));
                                        z = z + 1;
                                    }
                                }
                                assert(push_all);
                                proof {
                                    lemma_queued_grow(m, old_res, old_queue, queue@);
                                }
                                let mut block_new = block.duplicate();
                                block_new.add_suspicious_trace(head.duplicate(), crate::dfb::copy_timed(&next_vars));
                                let entry = (head.duplicate(), block_new, cur_time);
                                proof {
                                    reveal(in_manager);
                                    let all = crate::mgr::all_blocks(m.scope_block_mapping@);
                                    let bk = choose|x: int| 0 <= x < all.len() && #[trigger] all[x]@ == block@;
                                    assert(same_but_trace(all[bk]@, entry.1@));
                                    reveal(traced_from_manager);
                                    assert(res_entry_ok(m, entry, texts_u, time, lo));
                                    assert(res_keys(old_res.push(entry)) =~= res_keys(old_res).push((block.bid, node_text(head@), cur_time)));
                                    crate::dfb::lemma_no_dups_push(res_keys(old_res), (block.bid, node_text(head@), cur_time));
                                }
                                res.push(entry);
                                proof {
                                    assert forall|i: int| 0 <= i < res@.len() implies #[trigger] res_entry_ok(m, res@[i], texts_u, time, lo) by {
                                        if i < old_res.len() {
                                            assert(res@[i] == old_res[i]);
                                        }
                                    };
                                    let e = res@[old_res.len() as int];
                                    assert(res@ == old_res.push(e));
                                    if cur_ok {
                                        lemma_ports_recorded_push(gq, scope_prefix_filter, aa, old_res, e, cur_time, a as int, bi as int);
                                    }
                                    lemma_entries_done_push(m, scope_prefix_filter, aa, old_res, e, queue@, qidx, time_bound);
                                    assert(e.1@ == entry.1@);
                                    assert(trace_queued(m, e, queue@)) by {
                                        let tk = crate::dfb::timed_keys(next_vars@);
                                        assert(trace_of(e.1@) == tk);
                                        assert(e.1@.scope == block@.scope);
                                        assert(e.1@.block_type == block@.block_type);
                                        assert(tk.len() == next_vars@.len());
                                        assert forall|y: int| 0 <= y < tk.len() implies #[trigger] queued_like(
                                            m,
                                            queue@,
                                            lookup_after(m, e.1@, tk[y].0),
                                            tk[y].0,
                                            tk[y].1,
                                        ) by {
                                            assert(tk[y] == (next_vars@[y].0@, next_vars@[y].1));
                                            let w = old_queue.len() + y;
                                            assert(queue@[w].0@ == next_scope@);
                                            let tx = node_text(tk[y].0);
                                            if !block.block_type.is_port_kind() {
                                                assert(found_view(found@)[a as int].1 == block_views(found@[a as int].1@));
                                                assert(gq.len() == found@.len());
                                                assert(gq[a as int].1.len() == found@[a as int].1@.len());
                                                assert(gq[a as int].1[bi as int] == block@);
                                                lemma_found_nonport_scope(m, cur_scope@, node_text(head@), a as int, bi as int, tx);
                                            }
                                            assert(block_result_spec(m, queue@[w].0@, tx) == lookup_after(m, e.1@, tk[y].0));
                                        };
                                    };
                                    assert forall|x: int| 0 <= x < res@.len() implies trace_queued(m, #[trigger] res@[x], queue@) by {
                                        if x < old_res.len() {
                                            assert(res@[x] == old_res[x]);
                                        }
                                    };
                                    assert(e.1.bid == block.bid && e.2 == cur_time);
                                    assert(e.1@.scope == block@.scope);
                                    assert forall|x: int| 0 <= x < res@.len() implies passes_filter((#[trigger] res@[x]).1@.scope, scope_prefix_filter) by {
                                        if x < old_res.len() {
                                            assert(res@[x] == old_res[x]);
                                        }
                                    };
                                    assert(res_has(res@, block.bid, cur_time));
                                }
                            },
                            _ => {},
                        }
                    } else {
                        proof {
                            if cur_ok && block_passing(block@, scope_prefix_filter, aa) {
                                let key = (block.bid, node_text(head@), cur_time);
                                assert(res_keys(res@).contains(key));
                                let i = choose|i: int| 0 <= i < res_keys(res@).len() && res_keys(res@)[i] == key;
                                assert(res@[i].1.bid == block.bid && res@[i].2 == cur_time);
                                assert(res_has(res@, block.bid, cur_time));
                            }
                        }
                    }
                    proof {
                        if cur_ok {
                            assert(block_passing(block@, scope_prefix_filter, aa) ==> res_has(res@, block.bid, cur_time));
                            assert forall|x: int, y: int|
                                0 <= x < gq.len() && 0 <= y < gq[x].1.len() && (x < a || (x == a && y < bi + 1)) && block_passing(
                                    gq[x].1[y],
                                    scope_prefix_filter,
                                    aa,
                                ) implies #[trigger] res_has(res@, gq[x].1[y].bid, cur_time) by {
                                if x == a && y == bi {
                                } else {
                                }
                            };
                        }
                    }
                    bi = bi + 1;
                }
                proof {
                    assert(gq[a as int].1.len() == blocks@.len());
                }
                a = a + 1;
            }
            proof {
                lemma_res_bound(m, res@, texts_u, time, lo, universe, bids_u, times_u);
                assert(queue@[qidx] == qstart[qidx]);
                assert(entry_done(m, scope_prefix_filter, aa, res@, queue@[qidx], time_bound));
            }
        }
        assert(lo == bound_of(time_bound));
        assert(m == old(self).spec_manager());
        let r = dedupe_visits(&res, Ghost(m), Ghost(texts_u), time, Ghost(lo));
        assert forall|i: int| 0 <= i < r@.len() implies passes_filter((#[trigger] r@[i].0@).scope, scope_prefix_filter) by {
            let k = choose|k: int| 0 <= k < res@.len() && #[trigger] r@[i].0@ == res@[k].1@ && r@[i].1 == res@[k].2;
            assert(passes_filter(res@[k].1@.scope, scope_prefix_filter));
        };
        proof {
            if premise {
                assert(queue@[0] == q0[0]);
                assert(node_keys(sig_nodes@)[0] == sig_nodes@[0]@);
                assert(entry_done(m, scope_prefix_filter, aa, res@, queue@[0], time_bound));
                assert(block_result_spec(m, queue@[0].0@, node_text(queue@[0].1@)) == g);
                assert forall|a: int, b: int|
                    0 <= a < g.len() && 0 <= b < g[a].1.len() && block_passing(#[trigger] g[a].1[b], scope_prefix_filter, aa)
                    implies exists|i: int| 0 <= i < r@.len() && r@[i].0.bid == g[a].1[b].bid && r@[i].1 == time by {
                    assert(res_has(res@, g[a].1[b].bid, time));
                    let k = choose|k: int| 0 <= k < res@.len() && res@[k].1.bid == g[a].1[b].bid && res@[k].2 == time;
                    lemma_first_visits_has(res@, k);
                    let fv = first_visits(res@);
                    let i = choose|i: int| 0 <= i < fv.len() && fv[i].0.bid == res@[k].1.bid && fv[i].1 == res@[k].2;
                    assert(visits_view(r@)[i] == (r@[i].0@, r@[i].1));
                };
            }
        }
        proof {
            if trace_limit is None {
                assert forall|i: int, y: int, a: int, b: int|
                    0 <= i < r@.len() && 0 <= y < trace_of(r@[i].0@).len() && within_bound(trace_of(r@[i].0@)[y].1, time_bound)
                    && 0 <= a < lookup_after(old(self).spec_manager(), r@[i].0@, trace_of(r@[i].0@)[y].0).len()
                    && 0 <= b < lookup_after(old(self).spec_manager(), r@[i].0@, trace_of(r@[i].0@)[y].0)[a].1.len()
                    && block_passing(
                        #[trigger] lookup_after(old(self).spec_manager(), r@[i].0@, trace_of(r@[i].0@)[y].0)[a].1[b],
                        scope_prefix_filter,
                        old(self).answers_all(),
                    ) implies exists|k: int| 0 <= k < r@.len() && r@[k].0.bid == lookup_after(
                        old(self).spec_manager(),
                        r@[i].0@,
                        trace_of(r@[i].0@)[y].0,
                    )[a].1[b].bid && r@[k].1 == trace_of(r@[i].0@)[y].1 by {
                    let b0 = r@[i].0@;
                    let tr = trace_of(b0);
                    let kk = choose|k: int| 0 <= k < res@.len() && #[trigger] r@[i].0@ == res@[k].1@ && r@[i].1 == res@[k].2;
                    assert(trace_queued(m, res@[kk], queue@));
                    assert(res@[kk].1@ == b0);
                    let gg = lookup_after(m, b0, tr[y].0);
                    assert(queued_like(m, queue@, gg, tr[y].0, tr[y].1));
                    let w = choose|w: int|
                        0 <= w < queue@.len() && (#[trigger] queue@[w]).1@ == tr[y].0 && queue@[w].2 == tr[y].1
                            && block_result_spec(m, queue@[w].0@, node_text(tr[y].0)) == gg;
                    assert(entry_done(m, scope_prefix_filter, aa, res@, queue@[w], time_bound));
                    assert(gg == block_result_spec(m, queue@[w].0@, node_text(queue@[w].1@)));
                    assert(res_has(res@, gg[a].1[b].bid, tr[y].1));
                    let k = choose|k: int| 0 <= k < res@.len() && res@[k].1.bid == gg[a].1[b].bid && res@[k].2 == tr[y].1;
                    lemma_first_visits_has(res@, k);
                    let fv = first_visits(res@);
                    let j = choose|j: int| 0 <= j < fv.len() && fv[j].0.bid == res@[k].1.bid && fv[j].1 == res@[k].2;
                    assert(visits_view(r@)[j] == (r@[j].0@, r@[j].1));
                };
            }
        }
        assert forall|i: int| 0 <= i < r@.len() implies #[trigger] traced_from_manager(old(self).spec_manager(), r@[i].0@) by {
            assert(traced_from_manager(m, r@[i].0@));
        };
        assert forall|i: int| 0 <= i < r@.len() implies (#[trigger] r@[i].0@).suspicious_trace is Some by {
            assert(traced_from_manager(m, r@[i].0@));
        };
        assert forall|i: int| 0 <= i < r@.len() implies time_in(#[trigger] r@[i].1, time, bound_of(time_bound)) by {
            assert(traced_from_manager(m, r@[i].0@));
        };
        r
    }

    /// `get_block` in the scope of `scope_name`, or, if the manager does not
    /// have that scope, in the closest enclosing scope it has.
    fn get_block_result(&self, scope_name: &str, sig: &NodeID) -> (r: Vec<(String, Vec<DataFlowBlock>)>)
        requires
            self.spec_manager().wf(),
        ensures
            found_view(r@) == block_result_spec(self.spec_manager(), scope_name@, node_text(sig@)),
            found_in_manager(self.spec_manager(), r@),
            found_local_scoped(r@, scope_name@),
            found_wf(r@),
    {
        let mut scope = string_of(scope_name);
        loop
            invariant
                self.spec_manager().wf(),
                scope_or_ancestor(scope@, scope_name@),
                block_result_spec(self.spec_manager(), scope_name@, node_text(sig@)) == block_result_spec(
                    self.spec_manager(),
                    scope@,
                    node_text(sig@),
                ),
            decreases scope@.len(),
        {
            match self.get_block(scope.as_str(), sig) {
                Ok(b) => {
                    proof {
                        lemma_found_local_scoped_weaken(b@, scope@, scope_name@);
                    }
                    return b;
                },
                Err(_) => {
                    match crate::utils::get_last_scope(scope.as_str()) {
                        Some(l) => {
                            proof {
                                crate::utils::lemma_last_scope(scope@);
                                lemma_ancestor_trans(l@, scope@, scope_name@);
                            }
                            scope = string_of(l);
                        },
                        None => {
                            let r: Vec<(String, Vec<DataFlowBlock>)> = Vec::new();
                            assert(found_view(r@) =~= Seq::<(Seq<char>, Seq<BlockView>)>::empty());
                            return r;
                        },
                    }
                },
            }
        }
    }
}

/// A block of kind `btype` may be asked about at `time`: a clocked block needs
/// a time unless the tracer allows none, and going back one step stays in range.
pub open spec fn time_ok(step: Option<TimeAnnotation>, untimed_ok: bool, btype: BlockType, time: Option<TimeAnnotation>) -> bool {
    &&& (btype == BlockType::Always(CircuitType::SEQ) && time is None ==> untimed_ok)
    &&& (step matches Some(s) ==> s >= 0)
    &&& bound_step_ok(time, step)
}

/// `s` is a scope nested in `scope`: `scope` is a proper prefix of it.
pub open spec fn nested_in(scope: Seq<char>, s: Seq<char>) -> bool {
    is_prefix(scope, s) && s.len() > scope.len()
}

/// The identifiers an output port block reads, when it drives a signal with
/// text `t`; none otherwise.
pub open spec fn port_idents(b: DataFlowBlock, t: Seq<char>) -> Seq<NodeKey> {
    if b.block_type == BlockType::ModuleOutput && key_texts(b@.outputs).contains(t) {
        b@.inputs.filter(|x: NodeKey| x.ident)
    } else {
        Seq::empty()
    }
}

/// `port_idents` of each block, block after block.
pub open spec fn blocks_port_idents(bs: Seq<DataFlowBlock>, t: Seq<char>) -> Seq<NodeKey>
    decreases bs.len(),
{
    if bs.len() == 0 {
        Seq::empty()
    } else {
        blocks_port_idents(bs.drop_last(), t) + port_idents(bs.last(), t)
    }
}

/// `port_idents` of the blocks of each of the scopes, scope after scope.
pub open spec fn cross_idents(m: BlockManager, scopes: Seq<Seq<char>>, t: Seq<char>) -> Seq<NodeKey>
    decreases scopes.len(),
{
    if scopes.len() == 0 {
        Seq::empty()
    } else {
        cross_idents(m, scopes.drop_last(), t) + blocks_port_idents(m.blocks_of(scopes.last()), t)
    }
}

/// The outputs with text `t` of all blocks of the given scopes, in order.
pub open spec fn nested_outputs_with_text(m: BlockManager, scopes: Seq<Seq<char>>, t: Seq<char>) -> Seq<NodeKey>
    decreases scopes.len(),
{
    if scopes.len() == 0 {
        Seq::empty()
    } else {
        nested_outputs_with_text(m, scopes.drop_last(), t) + outputs_with_text(m.blocks_of(scopes.last()), t, false)
    }
}

impl BlockType {
    /// A module input or output block.
    pub open spec fn is_port_kind(self) -> bool {
        self == BlockType::ModuleInput || self == BlockType::ModuleOutput
    }
}

/// Blocks, other than output ports, that drive a signal with text `t`.
pub open spec fn drives_text(t: Seq<char>) -> spec_fn(DataFlowBlock) -> bool {
    |b: DataFlowBlock| key_texts(b@.outputs).contains(t) && b.block_type != BlockType::ModuleOutput
}

/// Output port blocks that read or drive a signal with text `t`.
pub open spec fn port_touching(t: Seq<char>) -> spec_fn(DataFlowBlock) -> bool {
    |b: DataFlowBlock| b.block_type == BlockType::ModuleOutput && (key_texts(b@.outputs).contains(t) || key_texts(
        b@.inputs,
    ).contains(t))
}

/// Copies of the blocks that drive `t` (or, with `ports`, of the output port
/// blocks that touch `t`), in order.
fn select_blocks(bs: &Vec<DataFlowBlock>, t: &str, ports: bool) -> (r: Vec<DataFlowBlock>)
    ensures
        block_views(r@) == block_views(bs@.filter(if ports { port_touching(t@) } else { drives_text(t@) })),
        r@.len() == bs@.filter(if ports { port_touching(t@) } else { drives_text(t@) }).len(),
        (forall|i: int| 0 <= i < bs@.len() ==> #[trigger] bs@[i].wf()) ==> forall|i: int| 0 <= i < r@.len() ==> #[trigger] r@[i].wf(),
{
    let ghost p = if ports { port_touching(t@) } else { drives_text(t@) };
    let mut r: Vec<DataFlowBlock> = Vec::new();
    let mut i: usize = 0;
    while i < bs.len()
        invariant
            p == (if ports { port_touching(t@) } else { drives_text(t@) }),
            i <= bs.len(),
            block_views(r@) == block_views(bs@.take(i as int).filter(p)),
            r@.len() == bs@.take(i as int).filter(p).len(),
            (forall|j: int| 0 <= j < bs@.len() ==> #[trigger] bs@[j].wf()) ==> forall|j: int| 0 <= j < r@.len() ==> #[trigger] r@[j].wf(),
        decreases bs.len() - i,
    {
        proof {
            assert(bs@.take(i + 1).drop_last() =~= bs@.take(i as int));
            reveal(Seq::filter);
        }
        let b = &bs[i];
        let keep = if ports {
            b.block_type == BlockType::ModuleOutput && (contains_text(&b.outputs, t) || contains_text(&b.inputs, t))
        } else {
            contains_text(&b.outputs, t) && b.block_type != BlockType::ModuleOutput
        };
        assert(keep == p(bs@[i as int]));
        if keep {
            let ghost before = r@;
            r.push(b.duplicate());
            assert(block_views(r@) =~= block_views(before).push(bs@[i as int]@));
            assert(r@[before.len() as int].wf() == bs@[i as int].wf());
        }
        i = i + 1;
    }
    assert(bs@.take(bs@.len() as int) == bs@);
    r
}

/// The element at `i` of a filtered sequence is an element of the sequence.
pub proof fn lemma_filter_in<A>(s: Seq<A>, p: spec_fn(A) -> bool, i: int)
    requires
        0 <= i < s.filter(p).len(),
    ensures
        exists|k: int| 0 <= k < s.len() && s[k] == s.filter(p)[i],
{
    assert(s.filter(p).contains(s.filter(p)[i]));
    s.lemma_filter_contains_rev(p, s.filter(p)[i]);
}

/// The view of a search result.
pub open spec fn found_view(v: Seq<(String, Vec<DataFlowBlock>)>) -> Seq<(Seq<char>, Seq<BlockView>)> {
    v.map_values(|e: (String, Vec<DataFlowBlock>)| (e.0@, block_views(e.1@)))
}

/// A block with this view is one of the manager's.
#[verifier::opaque]
pub open spec fn in_manager(m: BlockManager, b: BlockView) -> bool {
    exists|i: int| 0 <= i < crate::mgr::all_blocks(m.scope_block_mapping@).len() && #[trigger] crate::mgr::all_blocks(
        m.scope_block_mapping@,
    )[i]@ == b
}

/// Every block found is one of the manager's.
pub open spec fn found_in_manager(m: BlockManager, v: Seq<(String, Vec<DataFlowBlock>)>) -> bool {
    forall|a: int, b: int| 0 <= a < v.len() && 0 <= b < v[a].1@.len() ==> #[trigger] in_manager(m, v[a].1@[b]@)
}

/// Every block found is well formed.
pub open spec fn found_wf(v: Seq<(String, Vec<DataFlowBlock>)>) -> bool {
    forall|a: int, b: int| 0 <= a < v.len() && 0 <= b < v[a].1@.len() ==> #[trigger] v[a].1@[b].wf()
}

/// Every block found other than a port belongs to `scope` or an enclosing scope.
pub open spec fn found_local_scoped(v: Seq<(String, Vec<DataFlowBlock>)>, scope: Seq<char>) -> bool {
    forall|a: int, b: int|
        0 <= a < v.len() && 0 <= b < v[a].1@.len() ==> !(#[trigger] v[a].1@[b]).block_type.is_port_kind()
            ==> scope_or_ancestor(v[a].1@[b]@.scope, scope)
}

proof fn lemma_ancestor_trans(a: Seq<char>, b: Seq<char>, c: Seq<char>)
    requires
        is_prefix(a.push('.'), b),
        scope_or_ancestor(b, c),
    ensures
        scope_or_ancestor(a, c),
{
    if b != c {
        assert(c.subrange(0, b.len() + 1 as int) == b.push('.'));
        assert(c.subrange(0, a.len() + 1 as int) =~= b.subrange(0, a.len() + 1 as int));
    }
}

proof fn lemma_found_local_scoped_weaken(v: Seq<(String, Vec<DataFlowBlock>)>, s: Seq<char>, s0: Seq<char>)
    requires
        found_local_scoped(v, s),
        scope_or_ancestor(s, s0),
    ensures
        found_local_scoped(v, s0),
{
    assert forall|a: int, b: int|
        0 <= a < v.len() && 0 <= b < v[a].1@.len() implies !(#[trigger] v[a].1@[b]).block_type.is_port_kind()
            ==> scope_or_ancestor(v[a].1@[b]@.scope, s0) by {
        if !v[a].1@[b].block_type.is_port_kind() {
            let x = v[a].1@[b]@.scope;
            if x != s {
                lemma_ancestor_trans(x, s, s0);
            }
        }
    };
}

/// What `get_block` finds in the scope `scope` for the text `t`.
pub open spec fn get_block_spec(m: BlockManager, scope: Seq<char>, t: Seq<char>) -> Seq<(Seq<char>, Seq<BlockView>)> {
    let local = m.blocks_of(scope).filter(drives_text(t));
    if local.len() > 0 {
        seq![(scope, block_views(local))]
    } else {
        next_port_blocks(m, scope_names(m.scope_block_mapping@).filter(|s: Seq<char>| nested_in(scope, s)), t)
    }
}

/// For every given scope that the manager has, its output port blocks that touch `t`.
pub open spec fn next_port_blocks(m: BlockManager, scopes: Seq<Seq<char>>, t: Seq<char>) -> Seq<(Seq<char>, Seq<BlockView>)>
    decreases scopes.len(),
{
    if scopes.len() == 0 {
        Seq::empty()
    } else {
        let rest = next_port_blocks(m, scopes.drop_last(), t);
        if m.has_scope(scopes.last()) {
            rest.push((scopes.last(), block_views(m.blocks_of(scopes.last()).filter(port_touching(t)))))
        } else {
            rest
        }
    }
}

/// What `get_block_result` finds: `get_block` in the scope, or in the closest
/// enclosing scope the manager has; nothing if there is none.
pub open spec fn block_result_spec(m: BlockManager, scope: Seq<char>, t: Seq<char>) -> Seq<(Seq<char>, Seq<BlockView>)>
    decreases scope.len(),
{
    if m.has_scope(scope) {
        get_block_spec(m, scope, t)
    } else {
        match crate::utils::spec_last_scope(scope) {
            Some(l) => {
                proof {
                    crate::utils::lemma_last_scope(scope);
                }
                block_result_spec(m, l, t)
            },
            None => Seq::empty(),
        }
    }
}

/// The blocks of a scope are in the sequence of all blocks.
pub proof fn lemma_all_blocks_contains(s: Seq<crate::mgr::ScopeBlocks>, p: int, i: int)
    requires
        0 <= p < s.len(),
        0 <= i < s[p].blocks@.len(),
    ensures
        exists|k: int| 0 <= k < crate::mgr::all_blocks(s).len() && crate::mgr::all_blocks(s)[k] == s[p].blocks@[i],
    decreases s.len(),
{
    let prev = crate::mgr::all_blocks(s.drop_last());
    assert(crate::mgr::all_blocks(s) == prev + s.last().blocks@);
    if p == s.len() - 1 {
        assert(crate::mgr::all_blocks(s)[prev.len() + i] == s[p].blocks@[i]);
    } else {
        assert(s.drop_last()[p] == s[p]);
        lemma_all_blocks_contains(s.drop_last(), p, i);
        let k = choose|k: int| 0 <= k < prev.len() && prev[k] == s[p].blocks@[i];
        assert(crate::mgr::all_blocks(s)[k] == s[p].blocks@[i]);
    }
}

/// The blocks of a scope are the manager's, well formed, and of that scope.
pub proof fn lemma_scope_blocks_in_manager(m: BlockManager, name: Seq<char>)
    requires
        m.wf(),
    ensures
        forall|i: int| 0 <= i < m.blocks_of(name).len() ==> #[trigger] in_manager(m, m.blocks_of(name)[i]@)
            && m.blocks_of(name)[i].wf() && m.blocks_of(name)[i]@.scope == name,
        forall|i: int| 0 <= i < m.blocks_of(name).len() ==> #[trigger] m.blocks_of(name)[i].wf(),
{
    reveal(in_manager);
    if m.has_scope(name) {
        let j = choose|j: int| 0 <= j < scope_names(m.scope_block_mapping@).len() && scope_names(m.scope_block_mapping@)[j] == name;
        assert(m.scope_block_mapping@[j].scope@ == name);
        m.lemma_scope_pos(j);
        let p = m.scope_pos(name);
        assert forall|i: int| 0 <= i < m.blocks_of(name).len() implies #[trigger] in_manager(m, m.blocks_of(name)[i]@)
            && m.blocks_of(name)[i].wf() && m.blocks_of(name)[i]@.scope == name by {
            lemma_all_blocks_contains(m.scope_block_mapping@, p, i);
            let k = choose|k: int| 0 <= k < crate::mgr::all_blocks(m.scope_block_mapping@).len() && crate::mgr::all_blocks(
                m.scope_block_mapping@,
            )[k] == m.scope_block_mapping@[p].blocks@[i];
            assert(crate::mgr::all_blocks(m.scope_block_mapping@)[k]@ == m.blocks_of(name)[i]@);
            assert(m.scope_block_mapping@[p].blocks@[i].wf());
        };
        assert forall|i: int| 0 <= i < m.blocks_of(name).len() implies #[trigger] m.blocks_of(name)[i].wf() by {
            assert(m.scope_block_mapping@[p].blocks@[i].wf());
        };
    }
}

/// A signal text the trace may reach from `sig` through block `b`: that of
/// `sig`, one of the block's, or one of any block of the manager.
pub open spec fn traced_text_ok(m: BlockManager, b: BlockView, sig: NodeKey, t: Seq<char>) -> bool {
    t == node_text(sig) || block_texts(b).contains(t) || blocks_texts(crate::mgr::all_blocks(m.scope_block_mapping@)).contains(t)
}

/// The scope tracing goes on in after a block: the enclosing scope of an input
/// port (or its own scope at the top), the scope of an output port, and the
/// current scope otherwise.
pub open spec fn next_scope_of(b: BlockView, cur: Seq<char>) -> Seq<char> {
    if b.block_type == BlockType::ModuleInput {
        match crate::utils::spec_last_scope(b.scope) {
            Some(l) => l,
            None => b.scope,
        }
    } else if b.block_type == BlockType::ModuleOutput {
        b.scope
    } else {
        cur
    }
}

/// The time the signals found through a block are read at.
pub open spec fn out_time(btype: BlockType, time: Option<TimeAnnotation>, step: Option<TimeAnnotation>) -> Option<TimeAnnotation> {
    if btype.is_port_kind() {
        time
    } else {
        next_time(btype, time, step)
    }
}

/// Inserting into a set keeps it without duplicates and keeps its elements in place.
pub proof fn lemma_set_insert_keeps(before: Seq<NodeKey>, after: Seq<NodeKey>, x: NodeKey)
    requires
        after == (if before.contains(x) { before } else { before.push(x) }),
        crate::dfb::no_dups(before),
    ensures
        crate::dfb::no_dups(after),
        after.len() >= before.len(),
        forall|i: int| 0 <= i < before.len() ==> after[i] == before[i],
        forall|i: int| before.len() <= i < after.len() ==> after[i] == x,
{
    if !before.contains(x) {
        crate::dfb::lemma_no_dups_push(before, x);
    }
}

/// A sequence without duplicates, all of whose elements are in `u`, is no longer than `u`.
pub proof fn lemma_distinct_bound<A>(s: Seq<A>, u: Seq<A>)
    requires
        crate::dfb::no_dups(s),
        forall|i: int| 0 <= i < s.len() ==> u.contains(s[i]),
    ensures
        s.len() <= u.len(),
{
    assert(s.no_duplicates()) by {
        assert forall|i: int, j: int| 0 <= i < s.len() && 0 <= j < s.len() && i != j implies s[i] != s[j] by {
            if i < j {
                assert(s[i] != s[j]);
            } else {
                assert(s[j] != s[i]);
            }
        };
    };
    s.unique_seq_to_set();
    assert(s.to_set().subset_of(u.to_set())) by {
        assert forall|x: A| s.to_set().contains(x) implies u.to_set().contains(x) by {
            let i = choose|i: int| 0 <= i < s.len() && s[i] == x;
            assert(u.contains(s[i]));
        };
    };
    vstd::seq_lib::seq_to_set_is_finite(u);
    vstd::set_lib::lemma_len_subset(s.to_set(), u.to_set());
    u.lemma_cardinality_of_set();
}

/// What the second part of a concatenation holds, the concatenation holds.
pub proof fn lemma_value_in_universe<A>(a: Seq<A>, b: Seq<A>, x: A)
    requires
        b.contains(x),
    ensures
        (a + b).contains(x),
{
    let i = choose|i: int| 0 <= i < b.len() && b[i] == x;
    assert((a + b)[a.len() + i] == x);
}

/// The texts of the nodes a block's dataflow depends on are texts of the block.
pub proof fn lemma_value_text(b: BlockView, x: NodeKey)
    requires
        value_keys(b.dataflow).contains(x),
    ensures
        block_texts(b).contains(node_text(x)),
{
    let all = b.inputs + b.outputs + value_keys(b.dataflow);
    lemma_value_in_universe(b.inputs + b.outputs, value_keys(b.dataflow), x);
    let i = choose|i: int| 0 <= i < all.len() && all[i] == x;
    assert(key_texts(all)[i] == node_text(x));
}

/// A text of a block is a text of the sequence of blocks it is in.
pub proof fn lemma_blocks_texts_contains(bs: Seq<DataFlowBlock>, i: int, t: Seq<char>)
    requires
        0 <= i < bs.len(),
        block_texts(bs[i]@).contains(t),
    ensures
        blocks_texts(bs).contains(t),
    decreases bs.len(),
{
    let prev = blocks_texts(bs.drop_last());
    if i == bs.len() - 1 {
        lemma_value_in_universe(prev, block_texts(bs.last()@), t);
    } else {
        assert(bs.drop_last()[i] == bs[i]);
        lemma_blocks_texts_contains(bs.drop_last(), i, t);
        let j = choose|j: int| 0 <= j < prev.len() && prev[j] == t;
        assert((prev + block_texts(bs.last()@))[j] == t);
    }
}

/// The text of a signal a block of the manager reads is a text of the manager.
pub proof fn lemma_manager_input_text(m: BlockManager, b: BlockView, x: NodeKey)
    requires
        in_manager(m, b),
        b.inputs.contains(x),
    ensures
        blocks_texts(crate::mgr::all_blocks(m.scope_block_mapping@)).contains(node_text(x)),
{
    reveal(in_manager);
    let all = crate::mgr::all_blocks(m.scope_block_mapping@);
    let i = choose|i: int| 0 <= i < all.len() && #[trigger] all[i]@ == b;
    let s = b.inputs + b.outputs + value_keys(b.dataflow);
    let j = choose|j: int| 0 <= j < b.inputs.len() && b.inputs[j] == x;
    assert(s[j] == x);
    assert(key_texts(s)[j] == node_text(x));
    lemma_blocks_texts_contains(all, i, node_text(x));
}

/// The signals tracing starts from: those with text `sig` that the output
/// ports of the scope read, or, when there are none, those with that text
/// that the scope's other blocks and its nested scopes drive.
pub open spec fn start_nodes(m: BlockManager, scope: Seq<char>, sig: Seq<char>) -> Seq<NodeKey> {
    let ports = port_inputs_with_text(m.blocks_of(scope), sig);
    if ports.len() > 0 {
        ports
    } else {
        outputs_with_text(m.blocks_of(scope), sig, true) + nested_outputs_with_text(
            m,
            scope_names(m.scope_block_mapping@).filter(|s: Seq<char>| nested_in(scope, s)),
            sig,
        )
    }
}

/// The blocks looked up for the first start signal, by scope.
pub open spec fn start_blocks(m: BlockManager, scope: Seq<char>, sig: Seq<char>) -> Seq<(Seq<char>, Seq<BlockView>)> {
    block_result_spec(m, scope, node_text(start_nodes(m, scope, sig)[0]))
}

/// A time that is not before the bound (0 when there is none).
pub open spec fn within_bound(t: Option<TimeAnnotation>, bound: Option<TimeAnnotation>) -> bool {
    t matches Some(x) ==> x >= bound_of(bound)
}

/// A scope that starts with one of the prefixes of the filter, if there is one.
pub open spec fn passes_filter(scope: Seq<char>, filter: Option<Vec<String>>) -> bool {
    filter matches Some(ps) ==> exists|i: int| 0 <= i < ps@.len() && is_prefix(ps@[i]@, scope)
}

/// A port block that the filter lets through.
pub open spec fn block_passing(b: BlockView, filter: Option<Vec<String>>, all: bool) -> bool {
    (all || b.block_type.is_port_kind()) && passes_filter(b.scope, filter)
}

/// Some recorded entry is for block `bid` at time `t`.
pub open spec fn res_has(res: Seq<(NodeID, DataFlowBlock, Option<TimeAnnotation>)>, bid: u64, t: Option<TimeAnnotation>) -> bool {
    exists|i: int| 0 <= i < res.len() && res[i].1.bid == bid && res[i].2 == t
}

/// Every block of `g` that `block_passing` lets through, before block `b0`
/// of group `a0`, has an entry at time `t`.
pub open spec fn ports_recorded(
    g: Seq<(Seq<char>, Seq<BlockView>)>,
    filter: Option<Vec<String>>,
    all: bool,
    res: Seq<(NodeID, DataFlowBlock, Option<TimeAnnotation>)>,
    t: Option<TimeAnnotation>,
    a0: int,
    b0: int,
) -> bool {
    forall|a: int, b: int|
        0 <= a < g.len() && 0 <= b < g[a].1.len() && (a < a0 || (a == a0 && b < b0)) && block_passing(g[a].1[b], filter, all)
            ==> #[trigger] res_has(res, g[a].1[b].bid, t)
}

/// A queued signal within the bound has every block looked up for it that
/// `block_passing` lets through recorded at its time.
pub open spec fn entry_done(
    m: BlockManager,
    filter: Option<Vec<String>>,
    all: bool,
    res: Seq<(NodeID, DataFlowBlock, Option<TimeAnnotation>)>,
    e: (String, NodeID, Option<TimeAnnotation>),
    bound: Option<TimeAnnotation>,
) -> bool {
    within_bound(e.2, bound) ==> ports_recorded(
        block_result_spec(m, e.0@, node_text(e.1@)),
        filter,
        all,
        res,
        e.2,
        block_result_spec(m, e.0@, node_text(e.1@)).len() as int,
        0,
    )
}

/// The signals a traced block was left by, with their times.
pub open spec fn trace_of(b: BlockView) -> Seq<(NodeKey, Option<TimeAnnotation>)> {
    match b.suspicious_trace {
        Some(p) => p.1,
        None => Seq::empty(),
    }
}

/// The blocks looked up for signal `k` in the scope tracing goes on in
/// after block `b`.
pub open spec fn lookup_after(m: BlockManager, b: BlockView, k: NodeKey) -> Seq<(Seq<char>, Seq<BlockView>)> {
    block_result_spec(m, next_scope_of(b, b.scope), node_text(k))
}

/// Signal `k` is queued at time `t` in a scope whose lookup for it gives `g`.
pub open spec fn queued_like(
    m: BlockManager,
    q: Seq<(String, NodeID, Option<TimeAnnotation>)>,
    g: Seq<(Seq<char>, Seq<BlockView>)>,
    k: NodeKey,
    t: Option<TimeAnnotation>,
) -> bool {
    exists|w: int|
        0 <= w < q.len() && (#[trigger] q[w]).1@ == k && q[w].2 == t && block_result_spec(m, q[w].0@, node_text(k)) == g
}

/// Each signal a recorded block was left by is queued, at its time, where
/// its lookup is the one after the block.
pub open spec fn trace_queued(
    m: BlockManager,
    e: (NodeID, DataFlowBlock, Option<TimeAnnotation>),
    q: Seq<(String, NodeID, Option<TimeAnnotation>)>,
) -> bool {
    forall|y: int|
        0 <= y < trace_of(e.1@).len() ==> #[trigger] queued_like(
            m,
            q,
            lookup_after(m, e.1@, trace_of(e.1@)[y].0),
            trace_of(e.1@)[y].0,
            trace_of(e.1@)[y].1,
        )
}

/// More queued entries keep what was queued.
proof fn lemma_queued_grow(
    m: BlockManager,
    res: Seq<(NodeID, DataFlowBlock, Option<TimeAnnotation>)>,
    q1: Seq<(String, NodeID, Option<TimeAnnotation>)>,
    q2: Seq<(String, NodeID, Option<TimeAnnotation>)>,
)
    requires
        q1.len() <= q2.len(),
        forall|j: int| 0 <= j < q1.len() ==> q2[j] == q1[j],
        forall|x: int| 0 <= x < res.len() ==> trace_queued(m, #[trigger] res[x], q1),
    ensures
        forall|x: int| 0 <= x < res.len() ==> trace_queued(m, #[trigger] res[x], q2),
{
    assert forall|x: int| 0 <= x < res.len() implies trace_queued(m, #[trigger] res[x], q2) by {
        let e = res[x];
        assert(trace_queued(m, e, q1));
        let tr = trace_of(e.1@);
        assert forall|y: int| 0 <= y < tr.len() implies #[trigger] queued_like(
            m,
            q2,
            lookup_after(m, e.1@, tr[y].0),
            tr[y].0,
            tr[y].1,
        ) by {
            let g = lookup_after(m, e.1@, tr[y].0);
            assert(queued_like(m, q1, g, tr[y].0, tr[y].1));
            let w = choose|w: int|
                0 <= w < q1.len() && (#[trigger] q1[w]).1@ == tr[y].0 && q1[w].2 == tr[y].1 && block_result_spec(
                    m,
                    q1[w].0@,
                    node_text(tr[y].0),
                ) == g;
            assert(q2[w] == q1[w]);
        };
    };
}

/// Every block of the next port blocks is an output port.
proof fn lemma_next_port_blocks_ports(m: BlockManager, scopes: Seq<Seq<char>>, t: Seq<char>, a: int, b: int)
    requires
        0 <= a < next_port_blocks(m, scopes, t).len(),
        0 <= b < next_port_blocks(m, scopes, t)[a].1.len(),
    ensures
        next_port_blocks(m, scopes, t)[a].1[b].block_type == BlockType::ModuleOutput,
    decreases scopes.len(),
{
    let rest = next_port_blocks(m, scopes.drop_last(), t);
    if m.has_scope(scopes.last()) && a == rest.len() {
        let src = m.blocks_of(scopes.last());
        let f = src.filter(port_touching(t));
        assert(next_port_blocks(m, scopes, t)[a] == (scopes.last(), block_views(f)));
        assert(block_views(f).len() == f.len());
        assert(block_views(f)[b] == f[b]@);
        src.lemma_filter_pred(port_touching(t), b);
    } else {
        if m.has_scope(scopes.last()) {
            assert(next_port_blocks(m, scopes, t)[a] == rest[a]);
        }
        lemma_next_port_blocks_ports(m, scopes.drop_last(), t, a, b);
    }
}

/// A block other than a port found for a signal lies in the scope the
/// lookup settles on: looking up from its scope finds what looking up from
/// the given scope finds, for any signal.
proof fn lemma_found_nonport_scope(m: BlockManager, cur: Seq<char>, t: Seq<char>, a: int, b: int, t2: Seq<char>)
    requires
        m.wf(),
        0 <= a < block_result_spec(m, cur, t).len(),
        0 <= b < block_result_spec(m, cur, t)[a].1.len(),
        !block_result_spec(m, cur, t)[a].1[b].block_type.is_port_kind(),
    ensures
        block_result_spec(m, cur, t2) == block_result_spec(m, block_result_spec(m, cur, t)[a].1[b].scope, t2),
    decreases cur.len(),
{
    if m.has_scope(cur) {
        let local = m.blocks_of(cur).filter(drives_text(t));
        if local.len() > 0 {
            assert(block_result_spec(m, cur, t) == seq![(cur, block_views(local))]);
            assert(block_views(local).len() == local.len());
            assert(block_views(local)[b] == local[b]@);
            assert(local.contains(local[b]));
            m.blocks_of(cur).lemma_filter_contains_rev(drives_text(t), local[b]);
            lemma_scope_blocks_in_manager(m, cur);
            let j = choose|j: int| 0 <= j < m.blocks_of(cur).len() && m.blocks_of(cur)[j] == local[b];
            assert(in_manager(m, m.blocks_of(cur)[j]@));
            assert(m.blocks_of(cur)[j]@.scope == cur);
        } else {
            lemma_next_port_blocks_ports(
                m,
                scope_names(m.scope_block_mapping@).filter(|s: Seq<char>| nested_in(cur, s)),
                t,
                a,
                b,
            );
        }
    } else {
        match crate::utils::spec_last_scope(cur) {
            Some(l) => {
                crate::utils::lemma_last_scope(cur);
                lemma_found_nonport_scope(m, l, t, a, b, t2);
            },
            None => {},
        }
    }
}

/// Recording one more entry keeps the processed queue entries done.
proof fn lemma_entries_done_push(
    m: BlockManager,
    filter: Option<Vec<String>>,
    all: bool,
    res: Seq<(NodeID, DataFlowBlock, Option<TimeAnnotation>)>,
    e: (NodeID, DataFlowBlock, Option<TimeAnnotation>),
    q: Seq<(String, NodeID, Option<TimeAnnotation>)>,
    n: int,
    bound: Option<TimeAnnotation>,
)
    requires
        n <= q.len(),
        forall|j: int| 0 <= j < n ==> entry_done(m, filter, all, res, #[trigger] q[j], bound),
    ensures
        forall|j: int| 0 <= j < n ==> entry_done(m, filter, all, res.push(e), #[trigger] q[j], bound),
{
    assert forall|j: int| 0 <= j < n implies entry_done(m, filter, all, res.push(e), #[trigger] q[j], bound) by {
        assert(entry_done(m, filter, all, res, q[j], bound));
        if within_bound(q[j].2, bound) {
            let g = block_result_spec(m, q[j].0@, node_text(q[j].1@));
            lemma_ports_recorded_push(g, filter, all, res, e, q[j].2, g.len() as int, 0);
        }
    };
}

/// Recording one more entry keeps what was recorded.
proof fn lemma_ports_recorded_push(
    g: Seq<(Seq<char>, Seq<BlockView>)>,
    filter: Option<Vec<String>>,
    all: bool,
    res: Seq<(NodeID, DataFlowBlock, Option<TimeAnnotation>)>,
    e: (NodeID, DataFlowBlock, Option<TimeAnnotation>),
    t: Option<TimeAnnotation>,
    a0: int,
    b0: int,
)
    requires
        ports_recorded(g, filter, all, res, t, a0, b0),
    ensures
        ports_recorded(g, filter, all, res.push(e), t, a0, b0),
{
    assert forall|a: int, b: int|
        0 <= a < g.len() && 0 <= b < g[a].1.len() && (a < a0 || (a == a0 && b < b0)) && block_passing(g[a].1[b], filter, all)
        implies #[trigger] res_has(res.push(e), g[a].1[b].bid, t) by {
        assert(res_has(res, g[a].1[b].bid, t));
        let i = choose|i: int| 0 <= i < res.len() && res[i].1.bid == g[a].1[b].bid && res[i].2 == t;
        assert(res.push(e)[i] == res[i]);
    };
}

/// An entry of `res` has a first visit with its block id and time.
proof fn lemma_first_visits_has(res: Seq<(NodeID, DataFlowBlock, Option<TimeAnnotation>)>, k: int)
    requires
        0 <= k < res.len(),
    ensures
        exists|i: int| 0 <= i < first_visits(res).len() && first_visits(res)[i].0.bid == res[k].1.bid
            && first_visits(res)[i].1 == res[k].2,
    decreases res.len(),
{
    let prev = first_visits(res.drop_last());
    let e = res.last();
    if k < res.len() - 1 {
        lemma_first_visits_has(res.drop_last(), k);
        assert(res.drop_last()[k] == res[k]);
        let i = choose|i: int| 0 <= i < prev.len() && prev[i].0.bid == res[k].1.bid && prev[i].1 == res[k].2;
        if exists|x: int| 0 <= x < prev.len() && prev[x].0.bid == e.1.bid && prev[x].1 == e.2 {
            assert(first_visits(res)[i] == prev[i]);
        } else {
            assert(first_visits(res)[i] == prev.push((e.1@, e.2))[i]);
        }
    } else {
        if exists|x: int| 0 <= x < prev.len() && prev[x].0.bid == e.1.bid && prev[x].1 == e.2 {
            let x = choose|x: int| 0 <= x < prev.len() && prev[x].0.bid == e.1.bid && prev[x].1 == e.2;
            assert(first_visits(res)[x] == prev[x]);
        } else {
            assert(first_visits(res)[prev.len() as int] == (e.1@, e.2));
        }
    }
}

/// The view of a list of (block, time) visits.
pub open spec fn visits_view(v: Seq<(DataFlowBlock, Option<TimeAnnotation>)>) -> Seq<(BlockView, Option<TimeAnnotation>)> {
    v.map_values(|e: (DataFlowBlock, Option<TimeAnnotation>)| (e.0@, e.1))
}

/// The (block, time) of each recorded entry, in order, where no earlier entry
/// has a block with the same id at the same time.
pub open spec fn first_visits(res: Seq<(NodeID, DataFlowBlock, Option<TimeAnnotation>)>) -> Seq<(BlockView, Option<TimeAnnotation>)>
    decreases res.len(),
{
    if res.len() == 0 {
        Seq::empty()
    } else {
        let prev = first_visits(res.drop_last());
        let e = res.last();
        if exists|x: int| 0 <= x < prev.len() && prev[x].0.bid == e.1.bid && prev[x].1 == e.2 {
            prev
        } else {
            prev.push((e.1@, e.2))
        }
    }
}

/// The blocks of the recorded entries, once per (block, time).
fn dedupe_visits(
    res: &Vec<(NodeID, DataFlowBlock, Option<TimeAnnotation>)>,
    m: Ghost<BlockManager>,
    texts_u: Ghost<Seq<Seq<char>>>,
    time: Option<TimeAnnotation>,
    lo: Ghost<int>,
) -> (r: Vec<(DataFlowBlock, Option<TimeAnnotation>)>)
    requires
        res_ok(m@, res@, texts_u@, time, lo@),
    ensures
        forall|i: int, j: int| 0 <= i < j < r@.len() ==> !(#[trigger] r@[i].0.bid == #[trigger] r@[j].0.bid && r@[i].1 == r@[j].1),
        forall|i: int| 0 <= i < r@.len() ==> #[trigger] traced_from_manager(m@, r@[i].0@)
            && r@[i].0@.suspicious_trace is Some && time_in(r@[i].1, time, lo@),
        visits_view(r@) == first_visits(res@),
        forall|x: int| 0 <= x < r@.len() ==> exists|k: int| 0 <= k < res@.len() && #[trigger] r@[x].0@ == res@[k].1@ && r@[x].1 == res@[k].2,
{
    let mut unique: Vec<(DataFlowBlock, Option<TimeAnnotation>)> = Vec::new();
    let mut i: usize = 0;
    while i < res.len()
        invariant
            i <= res.len(),
            res_ok(m@, res@, texts_u@, time, lo@),
            visits_view(unique@) == first_visits(res@.take(i as int)),
            forall|x: int, y: int| 0 <= x < y < unique@.len() ==> !(#[trigger] unique@[x].0.bid == #[trigger] unique@[y].0.bid
                && unique@[x].1 == unique@[y].1),
            forall|x: int| 0 <= x < unique@.len() ==> exists|k: int| 0 <= k < res@.len() && #[trigger] unique@[x].0@ == res@[k].1@ && unique@[x].1 == res@[k].2,
        decreases res.len() - i,
    {
        proof {
            assert(res@.take(i + 1).drop_last() =~= res@.take(i as int));
            assert(res@.take(i + 1).last() == res@[i as int]);
        }
        let seen = has_visit(&unique, res[i].1.bid, res[i].2);
        proof {
            let prev = first_visits(res@.take(i as int));
            let e = res@[i as int];
            let pe = exists|x: int| 0 <= x < prev.len() && prev[x].0.bid == e.1.bid && prev[x].1 == e.2;
            assert(seen == pe) by {
                if seen {
                    let x = choose|x: int| 0 <= x < unique@.len() && unique@[x].0.bid == e.1.bid && unique@[x].1 == e.2;
                    assert(visits_view(unique@)[x] == (unique@[x].0@, unique@[x].1));
                }
                if pe {
                    let x = choose|x: int| 0 <= x < prev.len() && prev[x].0.bid == e.1.bid && prev[x].1 == e.2;
                    assert(visits_view(unique@)[x] == (unique@[x].0@, unique@[x].1));
                }
            };
        }
        if !seen {
            let ghost old_unique = unique@;
            let d = res[i].1.duplicate();
            unique.push((d, res[i].2));
            proof {
                assert(visits_view(unique@) =~= visits_view(old_unique).push((res@[i as int].1@, res@[i as int].2)));
                assert forall|x: int| 0 <= x < unique@.len() implies exists|k: int| 0 <= k < res@.len() && #[trigger] unique@[x].0@ == res@[k].1@
                    && unique@[x].1 == res@[k].2 by {
                    if x < old_unique.len() {
                        assert(unique@[x] == old_unique[x]);
                    } else {
                        assert(unique@[x].0@ == res@[i as int].1@);
                    }
                };
                assert forall|x: int, y: int| 0 <= x < y < unique@.len() implies !(#[trigger] unique@[x].0.bid == #[trigger] unique@[y].0.bid
                    && unique@[x].1 == unique@[y].1) by {
                    if y < old_unique.len() {
                        assert(unique@[x] == old_unique[x] && unique@[y] == old_unique[y]);
                    } else {
                        assert(unique@[x] == old_unique[x]);
                    }
                };
            }
        }
        i = i + 1;
    }
    assert(res@.take(res@.len() as int) =~= res@);
    assert forall|x: int| 0 <= x < unique@.len() implies #[trigger] traced_from_manager(m@, unique@[x].0@)
        && unique@[x].0@.suspicious_trace is Some && time_in(unique@[x].1, time, lo@) by {
        let k = choose|k: int| 0 <= k < res@.len() && #[trigger] unique@[x].0@ == res@[k].1@ && unique@[x].1 == res@[k].2;
        assert(res_entry_ok(m@, res@[k], texts_u@, time, lo@));
    };
    unique
}

/// Whether a block with id `bid` at time `t` is in `v`.
fn has_visit(v: &Vec<(DataFlowBlock, Option<TimeAnnotation>)>, bid: u64, t: Option<TimeAnnotation>) -> (r: bool)
    ensures
        r == exists|x: int| 0 <= x < v@.len() && v@[x].0.bid == bid && v@[x].1 == t,
{
    let mut j: usize = 0;
    while j < v.len()
        invariant
            j <= v.len(),
            forall|x: int| 0 <= x < j ==> !(v@[x].0.bid == bid && v@[x].1 == t),
        decreases v.len() - j,
    {
        if v[j].0.bid == bid && v[j].1 == t {
            return true;
        }
        j = j + 1;
    }
    false
}

/// The least time traced: the bound, or 0 when there is none.
pub open spec fn bound_of(time_bound: Option<TimeAnnotation>) -> int {
    match time_bound {
        Some(b) => b as int,
        None => 0,
    }
}

/// A time that tracing from `t0` down to `lo` may visit.
pub open spec fn time_in(t: Option<TimeAnnotation>, t0: Option<TimeAnnotation>, lo: int) -> bool {
    t matches Some(x) ==> (t0 matches Some(y) && lo <= x <= y)
}

/// All times tracing from `t0` down to `lo` may visit.
pub open spec fn time_universe(t0: Option<TimeAnnotation>, lo: int) -> Seq<Option<TimeAnnotation>> {
    match t0 {
        None => seq![None],
        Some(t) => seq![None] + Seq::new(if t >= lo { (t - lo + 1) as nat } else { 0nat }, |i: int| Some((lo + i) as i64)),
    }
}

/// All triples of an element of each sequence.
pub open spec fn prod3<A, B, C>(xs: Seq<A>, ys: Seq<B>, zs: Seq<C>) -> Seq<(A, B, C)>
    decreases xs.len(),
{
    if xs.len() == 0 {
        Seq::empty()
    } else {
        prod3(xs.drop_last(), ys, zs) + prod2(xs.last(), ys, zs)
    }
}

/// All triples of `x`, an element of `ys` and an element of `zs`.
pub open spec fn prod2<A, B, C>(x: A, ys: Seq<B>, zs: Seq<C>) -> Seq<(A, B, C)>
    decreases ys.len(),
{
    if ys.len() == 0 {
        Seq::empty()
    } else {
        prod2(x, ys.drop_last(), zs) + zs.map_values(|z: C| (x, ys.last(), z))
    }
}

/// The visit key of each recorded entry: block id, signal text, time.
pub open spec fn res_keys(res: Seq<(NodeID, DataFlowBlock, Option<TimeAnnotation>)>) -> Seq<(u64, Seq<char>, Option<TimeAnnotation>)> {
    res.map_values(|e: (NodeID, DataFlowBlock, Option<TimeAnnotation>)| (e.1.bid, node_text(e.0@), e.2))
}

/// Two block views agree on everything but the trace.
pub open spec fn same_but_trace(a: BlockView, b: BlockView) -> bool {
    &&& a.bid == b.bid
    &&& a.module_name == b.module_name
    &&& a.scope == b.scope
    &&& a.block_type == b.block_type
    &&& a.dataflow == b.dataflow
    &&& a.sig_decls == b.sig_decls
    &&& a.inputs == b.inputs
    &&& a.outputs == b.outputs
    &&& a.suspicious_variables == b.suspicious_variables
    &&& a.ctx == b.ctx
    &&& a.ast_ranges == b.ast_ranges
}

/// A block of the manager, with a trace recorded on it.
#[verifier::opaque]
pub open spec fn traced_from_manager(m: BlockManager, b: BlockView) -> bool {
    exists|i: int| 0 <= i < crate::mgr::all_blocks(m.scope_block_mapping@).len() && same_but_trace(
        #[trigger] crate::mgr::all_blocks(m.scope_block_mapping@)[i]@,
        b,
    )
}

/// A queued signal has a known text and a time tracing may visit.
pub open spec fn queue_ok(q: Seq<(String, NodeID, Option<TimeAnnotation>)>, texts_u: Seq<Seq<char>>, t0: Option<TimeAnnotation>, untimed: bool) -> bool {
    forall|i: int| 0 <= i < q.len() ==> {
        &&& texts_u.contains(node_text((#[trigger] q[i]).1@))
        &&& (q[i].2 matches Some(t) ==> t0 matches Some(y) && t <= y)
        &&& (!untimed ==> q[i].2 is Some)
    }
}

/// A recorded entry: a traced block of the manager, a known signal text, a visited time.
pub open spec fn res_entry_ok(m: BlockManager, e: (NodeID, DataFlowBlock, Option<TimeAnnotation>), texts_u: Seq<Seq<char>>, t0: Option<TimeAnnotation>, lo: int) -> bool {
    &&& traced_from_manager(m, e.1@)
    &&& e.1@.suspicious_trace is Some
    &&& texts_u.contains(node_text(e.0@))
    &&& time_in(e.2, t0, lo)
}

/// The recorded entries are sound and visited once per key.
pub open spec fn res_ok(m: BlockManager, res: Seq<(NodeID, DataFlowBlock, Option<TimeAnnotation>)>, texts_u: Seq<Seq<char>>, t0: Option<TimeAnnotation>, lo: int) -> bool {
    &&& crate::dfb::no_dups(res_keys(res))
    &&& forall|i: int| 0 <= i < res.len() ==> #[trigger] res_entry_ok(m, res[i], texts_u, t0, lo)
}

/// What the first part of a concatenation holds, the concatenation holds.
pub proof fn lemma_left_in<A>(a: Seq<A>, b: Seq<A>, x: A)
    requires
        a.contains(x),
    ensures
        (a + b).contains(x),
{
    let i = choose|i: int| 0 <= i < a.len() && a[i] == x;
    assert((a + b)[i] == x);
}

proof fn lemma_prod2_contains<A, B, C>(x: A, ys: Seq<B>, zs: Seq<C>, y: B, z: C)
    requires
        ys.contains(y),
        zs.contains(z),
    ensures
        prod2(x, ys, zs).contains((x, y, z)),
    decreases ys.len(),
{
    let last = zs.map_values(|w: C| (x, ys.last(), w));
    if ys.last() == y {
        let k = choose|k: int| 0 <= k < zs.len() && zs[k] == z;
        assert(last[k] == (x, y, z));
        lemma_value_in_universe(prod2(x, ys.drop_last(), zs), last, (x, y, z));
    } else {
        let j = choose|j: int| 0 <= j < ys.len() && ys[j] == y;
        assert(ys.drop_last()[j] == y);
        lemma_prod2_contains(x, ys.drop_last(), zs, y, z);
        lemma_left_in(prod2(x, ys.drop_last(), zs), last, (x, y, z));
    }
}

/// A triple of elements of the three sequences is in their product.
pub proof fn lemma_prod3_contains<A, B, C>(xs: Seq<A>, ys: Seq<B>, zs: Seq<C>, x: A, y: B, z: C)
    requires
        xs.contains(x),
        ys.contains(y),
        zs.contains(z),
    ensures
        prod3(xs, ys, zs).contains((x, y, z)),
    decreases xs.len(),
{
    if xs.last() == x {
        lemma_prod2_contains(x, ys, zs, y, z);
        lemma_value_in_universe(prod3(xs.drop_last(), ys, zs), prod2(x, ys, zs), (x, y, z));
    } else {
        let j = choose|j: int| 0 <= j < xs.len() && xs[j] == x;
        assert(xs.drop_last()[j] == x);
        lemma_prod3_contains(xs.drop_last(), ys, zs, x, y, z);
        lemma_left_in(prod3(xs.drop_last(), ys, zs), prod2(xs.last(), ys, zs), (x, y, z));
    }
}

/// The recorded entries are no more than the possible visit keys.
pub proof fn lemma_res_bound(
    m: BlockManager,
    res: Seq<(NodeID, DataFlowBlock, Option<TimeAnnotation>)>,
    texts_u: Seq<Seq<char>>,
    t0: Option<TimeAnnotation>,
    lo: int,
    universe: Seq<(u64, Seq<char>, Option<TimeAnnotation>)>,
    bids_u: Seq<u64>,
    times_u: Seq<Option<TimeAnnotation>>,
)
    requires
        res_ok(m, res, texts_u, t0, lo),
        bids_u == blocks_bids(crate::mgr::all_blocks(m.scope_block_mapping@)),
        times_u == time_universe(t0, lo),
        universe == prod3(bids_u, texts_u, times_u),
    ensures
        res.len() <= universe.len(),
{
    let keys = res_keys(res);
    let all = crate::mgr::all_blocks(m.scope_block_mapping@);
    assert forall|i: int| 0 <= i < keys.len() implies universe.contains(keys[i]) by {
        let e = res[i];
        assert(res_entry_ok(m, e, texts_u, t0, lo));
        reveal(traced_from_manager);
        let k = choose|k: int| 0 <= k < all.len() && same_but_trace(#[trigger] all[k]@, e.1@);
        assert(bids_u[k] == e.1.bid);
        match e.2 {
            None => {
                assert(times_u[0] == e.2);
            },
            Some(t) => {
                let y = t0.unwrap();
                assert(times_u[1 + (t - lo)] == e.2);
            },
        }
        lemma_prod3_contains(bids_u, texts_u, times_u, e.1.bid, node_text(e.0@), e.2);
    };
    lemma_distinct_bound(keys, universe);
}

/// Whether an entry for (scope, node, time) is in `v`.
fn contains_entry(v: &Vec<(String, NodeID, Option<TimeAnnotation>)>, scope: &str, n: &NodeID, t: Option<TimeAnnotation>) -> (r: bool)
    ensures
        r == exists|i: int| 0 <= i < v@.len() && v@[i].0@ == scope@ && v@[i].1@ == n@ && v@[i].2 == t,
{
    let mut i: usize = 0;
    while i < v.len()
        invariant
            i <= v.len(),
            forall|j: int| 0 <= j < i ==> !(v@[j].0@ == scope@ && v@[j].1@ == n@ && v@[j].2 == t),
        decreases v.len() - i,
    {
        if str_eq(v[i].0.as_str(), scope) && v[i].1.same(n) && v[i].2 == t {
            return true;
        }
        i = i + 1;
    }
    false
}

/// Whether block `bid` was visited for the text of `n` at time `t`.
fn visited(res: &Vec<(NodeID, DataFlowBlock, Option<TimeAnnotation>)>, bid: u64, t: Option<TimeAnnotation>, n: &NodeID) -> (r: bool)
    ensures
        r == res_keys(res@).contains((bid, node_text(n@), t)),
{
    let mut i: usize = 0;
    while i < res.len()
        invariant
            i <= res.len(),
            forall|j: int| 0 <= j < i ==> res_keys(res@)[j] != (bid, node_text(n@), t),
        decreases res.len() - i,
    {
        if res[i].1.bid == bid && res[i].2 == t && str_eq(res[i].0.get_text(), n.get_text()) {
            assert(res_keys(res@)[i as int] == (bid, node_text(n@), t));
            return true;
        }
        i = i + 1;
    }
    false
}

/// Going one step back from `t` stays in the range of `i64`.
pub open spec fn bound_step_ok(t: Option<TimeAnnotation>, step: Option<TimeAnnotation>) -> bool {
    match (t, step) {
        (Some(x), Some(s)) => x - s >= i64::MIN,
        _ => true,
    }
}

/// The number of bytes of a text in UTF-8.
pub open spec fn byte_len(s: Seq<char>) -> usize {
    vstd::utf8::encode_utf8(s).len() as usize
}

/// The suffix of a signal name that survives renaming at module boundaries.
pub open spec fn suffix_of(t: Seq<char>) -> Seq<char> {
    t.subrange(crate::utils::suffix_start(t), t.len() as int)
}

/// Blocks that drive a signal whose name ends with `sfx`.
pub open spec fn ends_with_suffix(sfx: Seq<char>) -> spec_fn(DataFlowBlock) -> bool {
    |b: DataFlowBlock| exists|i: int| 0 <= i < b@.outputs.len() && crate::text::is_suffix(sfx, node_text(b@.outputs[i]))
}

/// The first of the scopes, other than `orig`, with blocks that drive a
/// signal whose name ends with `sfx`, with those blocks.
pub open spec fn suffix_search(m: BlockManager, names: Seq<Seq<char>>, orig: Seq<char>, sfx: Seq<char>) -> Seq<(Seq<char>, Seq<BlockView>)>
    decreases names.len(),
{
    if names.len() == 0 {
        Seq::empty()
    } else if names[0] != orig && m.blocks_of(names[0]).filter(ends_with_suffix(sfx)).len() > 0 {
        seq![(names[0], block_views(m.blocks_of(names[0]).filter(ends_with_suffix(sfx))))]
    } else {
        suffix_search(m, names.drop_first(), orig, sfx)
    }
}

/// Output port blocks that read a signal with text `t`.
pub open spec fn reads_port_text(t: Seq<char>) -> spec_fn(DataFlowBlock) -> bool {
    |b: DataFlowBlock| b.block_type == BlockType::ModuleOutput && key_texts(b@.inputs).contains(t)
}

/// The nodes a trace of `sig` in `scope` starts from: those output ports read,
/// or, when there are none, the internal ones.
pub open spec fn sig_nodes_spec(m: BlockManager, scope: Seq<char>, sig: Seq<char>) -> Seq<NodeKey> {
    let ports = port_inputs_with_text(m.blocks_of(scope), sig);
    if ports.len() > 0 {
        ports
    } else {
        outputs_with_text(m.blocks_of(scope), sig, true) + nested_outputs_with_text(
            m,
            scope_names(m.scope_block_mapping@).filter(|s: Seq<char>| nested_in(scope, s)),
            sig,
        )
    }
}

/// Copies of the blocks that drive a signal whose name ends with `sfx`.
fn select_suffix(bs: &Vec<DataFlowBlock>, sfx: &str) -> (r: Vec<DataFlowBlock>)
    ensures
        block_views(r@) == block_views(bs@.filter(ends_with_suffix(sfx@))),
        r@.len() == bs@.filter(ends_with_suffix(sfx@)).len(),
{
    let ghost p = ends_with_suffix(sfx@);
    let mut r: Vec<DataFlowBlock> = Vec::new();
    let mut i: usize = 0;
    while i < bs.len()
        invariant
            p == ends_with_suffix(sfx@),
            i <= bs.len(),
            block_views(r@) == block_views(bs@.take(i as int).filter(p)),
            r@.len() == bs@.take(i as int).filter(p).len(),
        decreases bs.len() - i,
    {
        proof {
            assert(bs@.take(i + 1).drop_last() =~= bs@.take(i as int));
            reveal(Seq::filter);
        }
        let b = &bs[i];
        let mut keep = false;
        let mut k: usize = 0;
        while k < b.outputs.len()
            invariant
                k <= b.outputs.len(),
                keep == exists|j: int| 0 <= j < k && crate::text::is_suffix(sfx@, node_text(b@.outputs[j])),
            decreases b.outputs.len() - k,
        {
            if crate::text::str_ends_with(b.outputs[k].get_text(), sfx) {
                assert(crate::text::is_suffix(sfx@, node_text(b@.outputs[k as int])));
                keep = true;
            }
            k = k + 1;
        }
        assert(keep == p(bs@[i as int]));
        if keep {
            let ghost before = r@;
            r.push(b.duplicate());
            assert(block_views(r@) =~= block_views(before).push(bs@[i as int]@));
        }
        i = i + 1;
    }
    assert(bs@.take(bs@.len() as int) == bs@);
    r
}

/// If the element at `i` is the first to satisfy `p`, it heads the filtered sequence.
pub proof fn lemma_filter_first<A>(s: Seq<A>, p: spec_fn(A) -> bool, i: int)
    requires
        0 <= i < s.len(),
        p(s[i]),
        forall|j: int| 0 <= j < i ==> !p(#[trigger] s[j]),
    ensures
        s.filter(p).len() > 0,
        s.filter(p)[0] == s[i],
    decreases s.len(),
{
    reveal(Seq::filter);
    if i < s.len() - 1 {
        lemma_filter_first(s.drop_last(), p, i);
        assert(s.drop_last()[i] == s[i]);
        assert(s.filter(p) == (if p(s.last()) { s.drop_last().filter(p).push(s.last()) } else { s.drop_last().filter(p) }));
    } else {
        assert(s.drop_last().filter(p) =~= Seq::<A>::empty()) by {
            lemma_filter_none(s.drop_last(), p);
        };
    }
}

/// If no element satisfies `p`, the filtered sequence is empty.
pub proof fn lemma_filter_none<A>(s: Seq<A>, p: spec_fn(A) -> bool)
    requires
        forall|j: int| 0 <= j < s.len() ==> !p(#[trigger] s[j]),
    ensures
        s.filter(p).len() == 0,
    decreases s.len(),
{
    reveal(Seq::filter);
    if s.len() > 0 {
        lemma_filter_none(s.drop_last(), p);
    }
}

} // verus!
