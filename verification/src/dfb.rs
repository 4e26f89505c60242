//! The dataflow block: what a block reads, what it drives, and which
//! driven signal depends on which read signals.
use vstd::prelude::*;

use crate::block::{
    copy_nodes, insert_node, key_texts, node_keys, AstRange, BlockType, NodeID, NodeKey, NodeLocate,
    TimeAnnotation,
};
use crate::text::{str_eq, string_of};

verus! {

/// The trace that led the analysis to a block: the signal it was entered by and
/// the signals (with their times) it was left by.
pub type SuspiciousTrace = (NodeID, Vec<(NodeID, Option<TimeAnnotation>)>);

/// A block of a module instance with its dataflow.
#[derive(Clone, Debug)]
pub struct DataFlowBlock {
    pub bid: u64,
    pub module_name: String,
    pub scope: String,
    pub block_type: BlockType,
    /// Each driven node with the nodes it depends on; no node is a key twice.
    pub nodes_dataflow: Vec<(NodeID, Vec<NodeID>)>,
    pub sig_decls: Vec<String>,
    pub inputs: Vec<NodeID>,
    pub outputs: Vec<NodeID>,
    pub suspicious_variables: Vec<NodeID>,
    pub suspicious_trace: Option<SuspiciousTrace>,
    pub ctx: Vec<String>,
    pub ast_ranges: Vec<AstRange>,
}

/// The keys of a dataflow table.
pub open spec fn df_keys(s: Seq<(NodeID, Vec<NodeID>)>) -> Seq<NodeKey> {
    s.map_values(|e: (NodeID, Vec<NodeID>)| e.0@)
}

/// The dependencies a dataflow table records for `k`: those of its first entry with key `k`.
pub open spec fn df_lookup(s: Seq<(NodeID, Vec<NodeID>)>, k: NodeKey) -> Seq<NodeKey>
    decreases s.len(),
{
    if s.len() == 0 {
        Seq::empty()
    } else if s[0].0@ == k {
        node_keys(s[0].1@)
    } else {
        df_lookup(s.drop_first(), k)
    }
}

/// The strings of a sequence of strings.
pub open spec fn strings_view(s: Seq<String>) -> Seq<Seq<char>> {
    s.map_values(|x: String| x@)
}

/// A sequence holds no element twice.
pub open spec fn no_dups<A>(s: Seq<A>) -> bool {
    forall|i: int, j: int| 0 <= i < j < s.len() ==> s[i] != s[j]
}

/// The mathematical value of a block.
pub ghost struct BlockView {
    pub bid: u64,
    pub module_name: Seq<char>,
    pub scope: Seq<char>,
    pub block_type: BlockType,
    pub dataflow: Seq<(NodeKey, Seq<NodeKey>)>,
    pub sig_decls: Seq<Seq<char>>,
    pub inputs: Seq<NodeKey>,
    pub outputs: Seq<NodeKey>,
    pub suspicious_variables: Seq<NodeKey>,
    pub suspicious_trace: Option<(NodeKey, Seq<(NodeKey, Option<TimeAnnotation>)>)>,
    pub ctx: Seq<Seq<char>>,
    pub ast_ranges: Seq<AstRange>,
}

/// The view of a dataflow table.
pub open spec fn table_view(s: Seq<(NodeID, Vec<NodeID>)>) -> Seq<(NodeKey, Seq<NodeKey>)> {
    s.map_values(|e: (NodeID, Vec<NodeID>)| (e.0@, node_keys(e.1@)))
}

/// The view of the signals a trace left a block by.
pub open spec fn timed_keys(s: Seq<(NodeID, Option<TimeAnnotation>)>) -> Seq<(NodeKey, Option<TimeAnnotation>)> {
    s.map_values(|e: (NodeID, Option<TimeAnnotation>)| (e.0@, e.1))
}

/// The view of a suspicious trace.
pub open spec fn trace_view(t: Option<SuspiciousTrace>) -> Option<(NodeKey, Seq<(NodeKey, Option<TimeAnnotation>)>)> {
    match t {
        Some(p) => Some((p.0@, timed_keys(p.1@))),
        None => None,
    }
}

impl View for DataFlowBlock {
    type V = BlockView;

    open spec fn view(&self) -> BlockView {
        BlockView {
            bid: self.bid,
            module_name: self.module_name@,
            scope: self.scope@,
            block_type: self.block_type,
            dataflow: table_view(self.nodes_dataflow@),
            sig_decls: strings_view(self.sig_decls@),
            inputs: node_keys(self.inputs@),
            outputs: node_keys(self.outputs@),
            suspicious_variables: node_keys(self.suspicious_variables@),
            suspicious_trace: trace_view(self.suspicious_trace),
            ctx: strings_view(self.ctx@),
            ast_ranges: self.ast_ranges@,
        }
    }
}

impl DataFlowBlock {
    pub open spec fn input_keys(&self) -> Seq<NodeKey> {
        node_keys(self.inputs@)
    }

    pub open spec fn output_keys(&self) -> Seq<NodeKey> {
        node_keys(self.outputs@)
    }

    pub open spec fn input_texts(&self) -> Seq<Seq<char>> {
        key_texts(self.input_keys())
    }

    pub open spec fn output_texts(&self) -> Seq<Seq<char>> {
        key_texts(self.output_keys())
    }

    /// The dependencies recorded for the driven node `k`.
    pub open spec fn dataflow_of(&self, k: NodeKey) -> Seq<NodeKey> {
        df_lookup(self.nodes_dataflow@, k)
    }

    /// Sets hold no element twice and the dataflow table no key twice.
    pub open spec fn wf(&self) -> bool {
        &&& no_dups(self.input_keys())
        &&& no_dups(self.output_keys())
        &&& no_dups(df_keys(self.nodes_dataflow@))
        &&& no_dups(strings_view(self.sig_decls@))
    }

    /// A new block with no signals, no context and no dataflow.
    pub fn new(bid: u64, module_name: &str, scope: &str, btype: BlockType) -> (r: DataFlowBlock)
        ensures
            r.bid == bid,
            r.module_name@ == module_name@,
            r.scope@ == scope@,
            r.block_type == btype,
            r.nodes_dataflow@.len() == 0,
            r.sig_decls@.len() == 0,
            r.inputs@.len() == 0,
            r.outputs@.len() == 0,
            r.suspicious_variables@.len() == 0,
            r.suspicious_trace.is_none(),
            r.ctx@.len() == 0,
            r.ast_ranges@.len() == 0,
            r.wf(),
    {
        DataFlowBlock {
            bid,
            module_name: string_of(module_name),
            scope: string_of(scope),
            block_type: btype,
            nodes_dataflow: Vec::new(),
            sig_decls: Vec::new(),
            inputs: Vec::new(),
            outputs: Vec::new(),
            suspicious_variables: Vec::new(),
            suspicious_trace: None,
            ctx: Vec::new(),
            ast_ranges: Vec::new(),
        }
    }

    /// The dependencies recorded for `node`, each once.
    pub fn get_node_dataflow(&self, node: &NodeID) -> (r: Vec<NodeID>)
        ensures
            no_dups(node_keys(r@)),
            forall|k: NodeKey| node_keys(r@).contains(k) <==> self.dataflow_of(node@).contains(k),
    {
        let mut i: usize = 0;
        assert(self.nodes_dataflow@.skip(0) == self.nodes_dataflow@);
        while i < self.nodes_dataflow.len()
            invariant
                i <= self.nodes_dataflow.len(),
                df_lookup(self.nodes_dataflow@, node@) == df_lookup(
                    self.nodes_dataflow@.skip(i as int),
                    node@,
                ),
            decreases self.nodes_dataflow.len() - i,
        {
            assert(self.nodes_dataflow@.skip(i as int).drop_first() == self.nodes_dataflow@.skip(
                i + 1,
            ));
            if self.nodes_dataflow[i].0.same(node) {
                return dedup_nodes(&self.nodes_dataflow[i].1);
            }
            i = i + 1;
        }
        Vec::new()
    }

    /// Adds `node` to the read signals (a set).
    pub fn add_input_node(&mut self, node: NodeID)
        ensures
            final(self).input_keys() == (if old(self).input_keys().contains(node@) {
                old(self).input_keys()
            } else {
                old(self).input_keys().push(node@)
            }),
            final(self).outputs == old(self).outputs,
            final(self).nodes_dataflow == old(self).nodes_dataflow,
            final(self).bid == old(self).bid,
            final(self).scope == old(self).scope,
            final(self).module_name == old(self).module_name,
            final(self).block_type == old(self).block_type,
            final(self).ctx == old(self).ctx,
            final(self).sig_decls == old(self).sig_decls,
            final(self).suspicious_trace == old(self).suspicious_trace,
            final(self).ast_ranges == old(self).ast_ranges,
            old(self).wf() ==> final(self).wf(),
    {
        insert_node(&mut self.inputs, node);
    }

    /// Adds `node` to the driven signals (a set).
    pub fn add_output_node(&mut self, node: NodeID)
        ensures
            final(self).output_keys() == (if old(self).output_keys().contains(node@) {
                old(self).output_keys()
            } else {
                old(self).output_keys().push(node@)
            }),
            final(self).inputs == old(self).inputs,
            final(self).nodes_dataflow == old(self).nodes_dataflow,
            final(self).bid == old(self).bid,
            final(self).scope == old(self).scope,
            final(self).module_name == old(self).module_name,
            final(self).block_type == old(self).block_type,
            final(self).ctx == old(self).ctx,
            final(self).sig_decls == old(self).sig_decls,
            final(self).suspicious_trace == old(self).suspicious_trace,
            final(self).ast_ranges == old(self).ast_ranges,
            old(self).wf() ==> final(self).wf(),
    {
        insert_node(&mut self.outputs, node);
    }

    /// Appends a piece of source code to the block's context.
    pub fn add_ctx(&mut self, ctx: &str)
        ensures
            strings_view(final(self).ctx@) == strings_view(old(self).ctx@).push(ctx@),
            final(self).inputs == old(self).inputs,
            final(self).outputs == old(self).outputs,
            final(self).nodes_dataflow == old(self).nodes_dataflow,
            final(self).bid == old(self).bid,
            final(self).scope == old(self).scope,
            final(self).module_name == old(self).module_name,
            final(self).block_type == old(self).block_type,
            final(self).sig_decls == old(self).sig_decls,
            final(self).suspicious_trace == old(self).suspicious_trace,
            final(self).ast_ranges == old(self).ast_ranges,
            old(self).wf() ==> final(self).wf(),
    {
        let ghost before = self.ctx@;
        let s = string_of(ctx);
        self.ctx.push(s);
        assert(strings_view(self.ctx@) =~= strings_view(before).push(ctx@));
    }

    /// Adds a signal declaration (a set).
    pub fn add_signal_decl(&mut self, signal_decl: &str)
        ensures
            strings_view(final(self).sig_decls@) == (if strings_view(
                old(self).sig_decls@,
            ).contains(signal_decl@) {
                strings_view(old(self).sig_decls@)
            } else {
                strings_view(old(self).sig_decls@).push(signal_decl@)
            }),
            final(self).inputs == old(self).inputs,
            final(self).outputs == old(self).outputs,
            final(self).nodes_dataflow == old(self).nodes_dataflow,
            final(self).bid == old(self).bid,
            final(self).scope == old(self).scope,
            final(self).module_name == old(self).module_name,
            final(self).block_type == old(self).block_type,
            final(self).ctx == old(self).ctx,
            final(self).suspicious_trace == old(self).suspicious_trace,
            final(self).ast_ranges == old(self).ast_ranges,
            old(self).wf() ==> final(self).wf(),
    {
        let mut i: usize = 0;
        while i < self.sig_decls.len()
            invariant
                i <= self.sig_decls.len(),
                forall|k: int| 0 <= k < i ==> self.sig_decls@[k]@ != signal_decl@,
            decreases self.sig_decls.len() - i,
        {
            if str_eq(self.sig_decls[i].as_str(), signal_decl) {
                assert(strings_view(self.sig_decls@)[i as int] == signal_decl@);
                return;
            }
            i = i + 1;
        }
        assert(!strings_view(self.sig_decls@).contains(signal_decl@)) by {
            if strings_view(self.sig_decls@).contains(signal_decl@) {
                let k = choose|k: int|
                    0 <= k < self.sig_decls@.len() && strings_view(self.sig_decls@)[k]
                        == signal_decl@;
                assert(self.sig_decls@[k]@ == signal_decl@);
            }
        };
        let ghost before = self.sig_decls@;
        self.sig_decls.push(string_of(signal_decl));
        assert(strings_view(self.sig_decls@) =~= strings_view(before).push(signal_decl@));
    }

    /// Records the trace the block was reached by (replacing an earlier one).
    pub fn add_suspicious_trace(&mut self, node: NodeID, vars: Vec<(NodeID, Option<TimeAnnotation>)>)
        ensures
            final(self).suspicious_trace == Some((node, vars)),
            final(self).suspicious_variables == old(self).suspicious_variables,
            final(self).inputs == old(self).inputs,
            final(self).outputs == old(self).outputs,
            final(self).nodes_dataflow == old(self).nodes_dataflow,
            final(self).bid == old(self).bid,
            final(self).scope == old(self).scope,
            final(self).module_name == old(self).module_name,
            final(self).block_type == old(self).block_type,
            final(self).ctx == old(self).ctx,
            final(self).sig_decls == old(self).sig_decls,
            final(self).ast_ranges == old(self).ast_ranges,
            old(self).wf() ==> final(self).wf(),
    {
        self.suspicious_trace = Some((node, vars));
    }

    /// Records `deps` as the dependencies of `node`, replacing those recorded before.
    pub fn set_dataflow(&mut self, node: NodeID, deps: Vec<NodeID>)
        ensures
            final(self).dataflow_of(node@) == node_keys(deps@),
            forall|k: NodeKey| k != node@ ==> final(self).dataflow_of(k) == old(self).dataflow_of(k),
            final(self).inputs == old(self).inputs,
            final(self).outputs == old(self).outputs,
            final(self).bid == old(self).bid,
            final(self).scope == old(self).scope,
            final(self).module_name == old(self).module_name,
            final(self).block_type == old(self).block_type,
            final(self).ctx == old(self).ctx,
            final(self).sig_decls == old(self).sig_decls,
            final(self).suspicious_trace == old(self).suspicious_trace,
            final(self).ast_ranges == old(self).ast_ranges,
            old(self).wf() ==> final(self).wf(),
    {
        df_set(&mut self.nodes_dataflow, node, deps);
    }

    /// Appends `dep` to the dependencies of `node`.
    pub fn push_dataflow(&mut self, node: &NodeID, dep: NodeID)
        ensures
            final(self).dataflow_of(node@) == old(self).dataflow_of(node@).push(dep@),
            forall|k: NodeKey| k != node@ ==> final(self).dataflow_of(k) == old(self).dataflow_of(k),
            final(self).inputs == old(self).inputs,
            final(self).outputs == old(self).outputs,
            final(self).bid == old(self).bid,
            final(self).scope == old(self).scope,
            final(self).module_name == old(self).module_name,
            final(self).block_type == old(self).block_type,
            final(self).ctx == old(self).ctx,
            final(self).sig_decls == old(self).sig_decls,
            final(self).suspicious_trace == old(self).suspicious_trace,
            final(self).ast_ranges == old(self).ast_ranges,
            old(self).wf() ==> final(self).wf(),
    {
        let mut deps = df_get(&self.nodes_dataflow, node);
        let ghost before = deps@;
        let ghost dk = dep@;
        deps.push(dep);
        assert(node_keys(deps@) =~= node_keys(before).push(dk));
        df_set(&mut self.nodes_dataflow, node.duplicate(), deps);
    }

    pub fn get_ast_covered_ranges(&self) -> (r: Vec<AstRange>)
        ensures
            r@ == self.ast_ranges@,
    {
        self.ast_ranges.clone()
    }

    pub fn add_ast_range(&mut self, range: AstRange)
        ensures
            final(self).ast_ranges@ == old(self).ast_ranges@.push(range),
            final(self).inputs == old(self).inputs,
            final(self).outputs == old(self).outputs,
            final(self).nodes_dataflow == old(self).nodes_dataflow,
            final(self).bid == old(self).bid,
            final(self).scope == old(self).scope,
            final(self).module_name == old(self).module_name,
            final(self).block_type == old(self).block_type,
            final(self).ctx == old(self).ctx,
            final(self).sig_decls == old(self).sig_decls,
            final(self).suspicious_trace == old(self).suspicious_trace,
            old(self).wf() ==> final(self).wf(),
    {
        self.ast_ranges.push(range);
    }
}

impl DataFlowBlock {
    /// A copy of the block.
    pub fn duplicate(&self) -> (r: DataFlowBlock)
        ensures
            r@ == self@,
            forall|k: NodeKey| r.dataflow_of(k) == self.dataflow_of(k),
            r.wf() == self.wf(),
    {
        let table = copy_table(&self.nodes_dataflow);
        proof {
            lemma_df_lookup_view(table@, self.nodes_dataflow@);
        }
        let trace = match &self.suspicious_trace {
            Some(t) => Some((t.0.duplicate(), copy_timed(&t.1))),
            None => None,
        };
        let r = DataFlowBlock {
            bid: self.bid,
            module_name: self.module_name.clone(),
            scope: self.scope.clone(),
            block_type: self.block_type,
            nodes_dataflow: table,
            sig_decls: copy_strings(&self.sig_decls),
            inputs: copy_nodes(&self.inputs),
            outputs: copy_nodes(&self.outputs),
            suspicious_variables: copy_nodes(&self.suspicious_variables),
            suspicious_trace: trace,
            ctx: copy_strings(&self.ctx),
            ast_ranges: self.ast_ranges.clone(),
        };
        assert(r.ast_ranges@ =~= self.ast_ranges@);
        assert(df_keys(r.nodes_dataflow@) =~= df_keys(self.nodes_dataflow@)) by {
            assert(r.nodes_dataflow@.len() == table_view(r.nodes_dataflow@).len());
            assert(self.nodes_dataflow@.len() == table_view(self.nodes_dataflow@).len());
            assert forall|i: int| 0 <= i < r.nodes_dataflow@.len() implies df_keys(r.nodes_dataflow@)[i]
                == df_keys(self.nodes_dataflow@)[i] by {
                assert(table_view(r.nodes_dataflow@)[i] == table_view(self.nodes_dataflow@)[i]);
            };
        };
        r
    }
}

/// Whether no two nodes of `v` have the same view.
pub fn nodes_distinct(v: &Vec<NodeID>) -> (r: bool)
    ensures
        r == no_dups(node_keys(v@)),
{
    let mut i: usize = 0;
    while i < v.len()
        invariant
            i <= v.len(),
            forall|a: int, b: int| 0 <= a < b < v@.len() && a < i ==> v@[a]@ != v@[b]@,
        decreases v.len() - i,
    {
        let mut j: usize = i + 1;
        while j < v.len()
            invariant
                i < j <= v.len(),
                forall|b: int| i < b < j ==> v@[i as int]@ != v@[b]@,
            decreases v.len() - j,
        {
            if v[i].same(&v[j]) {
                assert(node_keys(v@)[i as int] == node_keys(v@)[j as int]);
                return false;
            }
            j = j + 1;
        }
        i = i + 1;
    }
    true
}

/// Whether no two strings of `v` are equal.
pub fn strings_distinct(v: &Vec<String>) -> (r: bool)
    ensures
        r == no_dups(strings_view(v@)),
{
    let mut i: usize = 0;
    while i < v.len()
        invariant
            i <= v.len(),
            forall|a: int, b: int| 0 <= a < b < v@.len() && a < i ==> v@[a]@ != v@[b]@,
        decreases v.len() - i,
    {
        let mut j: usize = i + 1;
        while j < v.len()
            invariant
                i < j <= v.len(),
                forall|b: int| i < b < j ==> v@[i as int]@ != v@[b]@,
            decreases v.len() - j,
        {
            if str_eq(v[i].as_str(), v[j].as_str()) {
                assert(strings_view(v@)[i as int] == strings_view(v@)[j as int]);
                return false;
            }
            j = j + 1;
        }
        i = i + 1;
    }
    true
}

/// Whether no key of a dataflow table occurs twice.
pub fn table_keys_distinct(v: &Vec<(NodeID, Vec<NodeID>)>) -> (r: bool)
    ensures
        r == no_dups(df_keys(v@)),
{
    let mut i: usize = 0;
    while i < v.len()
        invariant
            i <= v.len(),
            forall|a: int, b: int| 0 <= a < b < v@.len() && a < i ==> v@[a].0@ != v@[b].0@,
        decreases v.len() - i,
    {
        let mut j: usize = i + 1;
        while j < v.len()
            invariant
                i < j <= v.len(),
                forall|b: int| i < b < j ==> v@[i as int].0@ != v@[b].0@,
            decreases v.len() - j,
        {
            if v[i].0.same(&v[j].0) {
                assert(df_keys(v@)[i as int] == df_keys(v@)[j as int]);
                return false;
            }
            j = j + 1;
        }
        i = i + 1;
    }
    true
}

impl DataFlowBlock {
    /// Whether the block is well formed.
    pub fn check_wf(&self) -> (r: bool)
        ensures
            r == self.wf(),
    {
        nodes_distinct(&self.inputs) && nodes_distinct(&self.outputs) && table_keys_distinct(&self.nodes_dataflow)
            && strings_distinct(&self.sig_decls)
    }
}

/// Copies a vector of strings.
pub fn copy_strings(v: &Vec<String>) -> (r: Vec<String>)
    ensures
        strings_view(r@) == strings_view(v@),
{
    let mut r: Vec<String> = Vec::new();
    let mut i: usize = 0;
    while i < v.len()
        invariant
            i <= v.len(),
            strings_view(r@) == strings_view(v@.take(i as int)),
        decreases v.len() - i,
    {
        let ghost before = r@;
        r.push(v[i].clone());
        assert(strings_view(r@) =~= strings_view(before).push(v@[i as int]@));
        assert(strings_view(v@.take(i + 1)) =~= strings_view(v@.take(i as int)).push(v@[i as int]@));
        i = i + 1;
    }
    assert(v@.take(v.len() as int) == v@);
    r
}

/// Copies a dataflow table.
pub fn copy_table(v: &Vec<(NodeID, Vec<NodeID>)>) -> (r: Vec<(NodeID, Vec<NodeID>)>)
    ensures
        table_view(r@) == table_view(v@),
{
    let mut r: Vec<(NodeID, Vec<NodeID>)> = Vec::new();
    let mut i: usize = 0;
    while i < v.len()
        invariant
            i <= v.len(),
            table_view(r@) == table_view(v@.take(i as int)),
        decreases v.len() - i,
    {
        let ghost before = r@;
        let e = (v[i].0.duplicate(), copy_nodes(&v[i].1));
        r.push(e);
        assert(table_view(r@) =~= table_view(before).push((v@[i as int].0@, node_keys(v@[i as int].1@))));
        assert(table_view(v@.take(i + 1)) =~= table_view(v@.take(i as int)).push(
            (v@[i as int].0@, node_keys(v@[i as int].1@)),
        ));
        i = i + 1;
    }
    assert(v@.take(v.len() as int) == v@);
    r
}

/// Copies the signals of a trace.
pub fn copy_timed(v: &Vec<(NodeID, Option<TimeAnnotation>)>) -> (r: Vec<(NodeID, Option<TimeAnnotation>)>)
    ensures
        timed_keys(r@) == timed_keys(v@),
{
    let mut r: Vec<(NodeID, Option<TimeAnnotation>)> = Vec::new();
    let mut i: usize = 0;
    while i < v.len()
        invariant
            i <= v.len(),
            timed_keys(r@) == timed_keys(v@.take(i as int)),
        decreases v.len() - i,
    {
        let ghost before = r@;
        r.push((v[i].0.duplicate(), v[i].1));
        assert(timed_keys(r@) =~= timed_keys(before).push((v@[i as int].0@, v@[i as int].1)));
        assert(timed_keys(v@.take(i + 1)) =~= timed_keys(v@.take(i as int)).push(
            (v@[i as int].0@, v@[i as int].1),
        ));
        i = i + 1;
    }
    assert(v@.take(v.len() as int) == v@);
    r
}

/// Tables with the same view record the same dependencies.
pub proof fn lemma_df_lookup_view(s1: Seq<(NodeID, Vec<NodeID>)>, s2: Seq<(NodeID, Vec<NodeID>)>)
    requires
        table_view(s1) == table_view(s2),
    ensures
        forall|k: NodeKey| df_lookup(s1, k) == df_lookup(s2, k),
    decreases s1.len(),
{
    assert(s1.len() == table_view(s1).len());
    assert(s2.len() == table_view(s2).len());
    if s1.len() > 0 {
        assert(table_view(s1)[0] == table_view(s2)[0]);
        assert(table_view(s1.drop_first()) =~= table_view(s1).drop_first());
        assert(table_view(s2.drop_first()) =~= table_view(s2).drop_first());
        lemma_df_lookup_view(s1.drop_first(), s2.drop_first());
        assert(s1[0].0@ == s2[0].0@);
        assert(node_keys(s1[0].1@) == node_keys(s2[0].1@));
        assert forall|k: NodeKey| df_lookup(s1, k) == df_lookup(s2, k) by {
            if s1[0].0@ != k {
                assert(df_lookup(s1, k) == df_lookup(s1.drop_first(), k));
                assert(df_lookup(s2, k) == df_lookup(s2.drop_first(), k));
            }
        };
    }
}

/// The nodes of `v`, each view once, in the order of first occurrence.
pub fn dedup_nodes(v: &Vec<NodeID>) -> (r: Vec<NodeID>)
    ensures
        no_dups(node_keys(r@)),
        forall|k: NodeKey| node_keys(r@).contains(k) <==> node_keys(v@).contains(k),
{
    let mut r: Vec<NodeID> = Vec::new();
    let mut i: usize = 0;
    while i < v.len()
        invariant
            i <= v.len(),
            no_dups(node_keys(r@)),
            forall|k: NodeKey| node_keys(r@).contains(k) <==> node_keys(v@.take(i as int)).contains(k),
        decreases v.len() - i,
    {
        let ghost before = node_keys(r@);
        insert_node(&mut r, v[i].duplicate());
        assert(node_keys(v@.take(i + 1)) =~= node_keys(v@.take(i as int)).push(v@[i as int]@));
        let ghost t0 = node_keys(v@.take(i as int));
        let ghost t1 = node_keys(v@.take(i + 1));
        let ghost now = node_keys(r@);
        assert(t1 == t0.push(v@[i as int]@));
        assert(t1[t0.len() as int] == v@[i as int]@);
        assert(now.contains(v@[i as int]@)) by {
            if !before.contains(v@[i as int]@) {
                assert(now[before.len() as int] == v@[i as int]@);
            }
        };
        assert forall|k: NodeKey| now.contains(k) <==> t1.contains(k) by {
            if k != v@[i as int]@ {
                if t1.contains(k) {
                    let j = choose|j: int| 0 <= j < t1.len() && t1[j] == k;
                    assert(t0[j] == k);
                    assert(t0.contains(k));
                    assert(before.contains(k));
                    let j2 = choose|j2: int| 0 <= j2 < before.len() && before[j2] == k;
                    assert(now[j2] == k);
                }
                if now.contains(k) {
                    let j = choose|j: int| 0 <= j < now.len() && now[j] == k;
                    assert(before[j] == k);
                    assert(before.contains(k));
                    assert(t0.contains(k));
                    let j2 = choose|j2: int| 0 <= j2 < t0.len() && t0[j2] == k;
                    assert(t1[j2] == k);
                }
            }
        };
        assert(no_dups(node_keys(r@))) by {
            if !before.contains(v@[i as int]@) {
                assert(node_keys(r@) == before.push(v@[i as int]@));
            }
        };
        i = i + 1;
    }
    assert(v@.take(v.len() as int) == v@);
    r
}

/// The dependencies a dataflow table records for `node`.
pub fn df_get(table: &Vec<(NodeID, Vec<NodeID>)>, node: &NodeID) -> (r: Vec<NodeID>)
    ensures
        node_keys(r@) == df_lookup(table@, node@),
{
    let mut i: usize = 0;
    assert(table@.skip(0) == table@);
    while i < table.len()
        invariant
            i <= table.len(),
            df_lookup(table@, node@) == df_lookup(table@.skip(i as int), node@),
        decreases table.len() - i,
    {
        assert(table@.skip(i as int).drop_first() == table@.skip(i + 1));
        if table[i].0.same(node) {
            return copy_nodes(&table[i].1);
        }
        i = i + 1;
    }
    let r: Vec<NodeID> = Vec::new();
    assert(node_keys(r@) =~= Seq::<NodeKey>::empty());
    r
}

/// Sets the dependencies of `node` in a dataflow table.
pub fn df_set(table: &mut Vec<(NodeID, Vec<NodeID>)>, node: NodeID, deps: Vec<NodeID>)
    ensures
        df_lookup(final(table)@, node@) == node_keys(deps@),
        forall|k: NodeKey| k != node@ ==> df_lookup(final(table)@, k) == df_lookup(old(table)@, k),
        no_dups(df_keys(old(table)@)) ==> no_dups(df_keys(final(table)@)),
{
    let mut i: usize = 0;
    while i < table.len()
        invariant
            table@ == old(table)@,
            i <= table.len(),
            forall|j: int| 0 <= j < i ==> table@[j].0@ != node@,
        decreases table.len() - i,
    {
        if table[i].0.same(&node) {
            let ghost nk = node@;
            let ghost dk = node_keys(deps@);
            let ghost old_t = table@;
            table.set(i, (node, deps));
            proof {
                assert(table@ == old_t.update(i as int, table@[i as int]));
                lemma_df_lookup_update(old_t, i as int, table@[i as int], nk);
                assert(df_keys(table@) =~= df_keys(old_t));
            }
            return;
        }
        i = i + 1;
    }
    let ghost nk = node@;
    let ghost old_t = table@;
    table.push((node, deps));
    proof {
        lemma_df_lookup_push(old_t, table@[old_t.len() as int]);
        assert(df_keys(table@) =~= df_keys(old_t).push(nk));
        assert(!df_keys(old_t).contains(nk)) by {
            if df_keys(old_t).contains(nk) {
                let j = choose|j: int| 0 <= j < df_keys(old_t).len() && df_keys(old_t)[j] == nk;
                assert(old_t[j].0@ == nk);
            }
        };
        if no_dups(df_keys(old_t)) {
            lemma_no_dups_push(df_keys(old_t), nk);
        }
    }
}

/// Replacing the entry at `i` by one with the same key changes only that key's lookup,
/// provided no earlier entry has that key.
pub proof fn lemma_df_lookup_update(
    s: Seq<(NodeID, Vec<NodeID>)>,
    i: int,
    e: (NodeID, Vec<NodeID>),
    k0: NodeKey,
)
    requires
        0 <= i < s.len(),
        s[i].0@ == k0,
        e.0@ == k0,
        forall|j: int| 0 <= j < i ==> s[j].0@ != k0,
    ensures
        df_lookup(s.update(i, e), k0) == node_keys(e.1@),
        forall|k: NodeKey| k != k0 ==> df_lookup(s.update(i, e), k) == df_lookup(s, k),
    decreases s.len(),
{
    if i == 0 {
        assert(s.update(i, e).drop_first() == s.drop_first());
        assert(s.update(i, e)[0] == e);
        assert forall|k: NodeKey| k != k0 implies df_lookup(s.update(i, e), k) == df_lookup(s, k) by {
            assert(df_lookup(s.update(i, e), k) == df_lookup(s.update(i, e).drop_first(), k));
            assert(df_lookup(s, k) == df_lookup(s.drop_first(), k));
        };
    } else {
        lemma_df_lookup_update(s.drop_first(), i - 1, e, k0);
        assert(s.update(i, e).drop_first() == s.drop_first().update(i - 1, e));
        assert(s.update(i, e)[0] == s[0]);
        assert forall|k: NodeKey| k != k0 implies df_lookup(s.update(i, e), k) == df_lookup(s, k) by {
            if s[0].0@ != k {
                assert(df_lookup(s.update(i, e), k) == df_lookup(s.update(i, e).drop_first(), k));
                assert(df_lookup(s, k) == df_lookup(s.drop_first(), k));
            }
        };
        assert(s[0].0@ != k0);
        assert(df_lookup(s.update(i, e), k0) == df_lookup(s.update(i, e).drop_first(), k0));
    }
}

/// Appending an entry for a key not in the table makes that key look up the entry.
pub proof fn lemma_df_lookup_push(s: Seq<(NodeID, Vec<NodeID>)>, e: (NodeID, Vec<NodeID>))
    requires
        forall|j: int| 0 <= j < s.len() ==> s[j].0@ != e.0@,
    ensures
        df_lookup(s.push(e), e.0@) == node_keys(e.1@),
        forall|k: NodeKey| k != e.0@ ==> df_lookup(s.push(e), k) == df_lookup(s, k),
    decreases s.len(),
{
    if s.len() == 0 {
        assert(s.push(e).drop_first() == Seq::<(NodeID, Vec<NodeID>)>::empty());
        assert(s.push(e)[0] == e);
        assert forall|k: NodeKey| k != e.0@ implies df_lookup(s.push(e), k) == df_lookup(s, k) by {
            assert(df_lookup(s.push(e), k) == df_lookup(s.push(e).drop_first(), k));
        };
    } else {
        lemma_df_lookup_push(s.drop_first(), e);
        assert(s.push(e).drop_first() == s.drop_first().push(e));
        assert(s.push(e)[0] == s[0]);
        assert(s[0].0@ != e.0@);
        assert(df_lookup(s.push(e), e.0@) == df_lookup(s.push(e).drop_first(), e.0@));
        assert forall|k: NodeKey| k != e.0@ implies df_lookup(s.push(e), k) == df_lookup(s, k) by {
            if s[0].0@ != k {
                assert(df_lookup(s.push(e), k) == df_lookup(s.push(e).drop_first(), k));
                assert(df_lookup(s, k) == df_lookup(s.drop_first(), k));
            }
        };
    }
}

/// Appending an element that is not in a sequence without duplicates keeps it without duplicates.
pub proof fn lemma_no_dups_push<A>(s: Seq<A>, a: A)
    requires
        no_dups(s),
        !s.contains(a),
    ensures
        no_dups(s.push(a)),
{
    assert forall|i: int, j: int| 0 <= i < j < s.push(a).len() implies s.push(a)[i] != s.push(a)[j] by {
        if j == s.len() {
            assert(s.push(a)[i] == s[i]);
        }
    };
}


/// A block of a design: its identity and kind, its module and scope, the
/// signals it reads and drives, and its code.
pub trait Block {
    /// The mathematical value of the block.
    spec fn block_view(&self) -> BlockView;

    fn get_block_type(&self) -> (r: BlockType)
        ensures
            r == self.block_view().block_type,
    ;

    fn get_bid(&self) -> (r: u64)
        ensures
            r == self.block_view().bid,
    ;

    fn get_module_name(&self) -> (r: &str)
        ensures
            r@ == self.block_view().module_name,
    ;

    fn get_scope(&self) -> (r: &str)
        ensures
            r@ == self.block_view().scope,
    ;

    /// The signals the block reads, in the order they were added.
    fn get_input_nodes(&self) -> (r: Vec<NodeID>)
        ensures
            node_keys(r@) == self.block_view().inputs,
    ;

    /// The signals the block drives, in the order they were added.
    fn get_output_nodes(&self) -> (r: Vec<NodeID>)
        ensures
            node_keys(r@) == self.block_view().outputs,
    ;

    /// The code of the block, piece by piece.
    fn get_ctx(&self) -> (r: Vec<String>)
        ensures
            strings_view(r@) == self.block_view().ctx,
    ;

    /// The signal declarations of the block.
    fn get_signal_decls(&self) -> (r: Vec<String>)
        ensures
            strings_view(r@) == self.block_view().sig_decls,
    ;

    /// The lines of the driven signals in the preprocessed source.
    fn get_covered_ast_lines(&self) -> (r: Vec<u32>)
        ensures
            r@ == self.block_view().outputs.map_values(|k: NodeKey| k.locate.line),
    ;

    /// The lines of the driven signals in the original source.
    fn get_covered_original_lines(&self) -> (r: Vec<u32>)
        ensures
            r@ == self.block_view().outputs.map_values(|k: NodeKey| k.locate.original_line),
    ;

    /// The locations of the driven signals.
    fn get_covered_line_locates(&self) -> (r: Vec<NodeLocate>)
        ensures
            r@ == self.block_view().outputs.map_values(|k: NodeKey| k.locate),
    ;
}

impl Block for DataFlowBlock {
    open spec fn block_view(&self) -> BlockView {
        self@
    }

    fn get_block_type(&self) -> (r: BlockType) {
        self.block_type
    }

    fn get_bid(&self) -> (r: u64) {
        self.bid
    }

    fn get_module_name(&self) -> (r: &str) {
        self.module_name.as_str()
    }

    fn get_scope(&self) -> (r: &str) {
        self.scope.as_str()
    }

    fn get_input_nodes(&self) -> (r: Vec<NodeID>) {
        copy_nodes(&self.inputs)
    }

    fn get_output_nodes(&self) -> (r: Vec<NodeID>) {
        copy_nodes(&self.outputs)
    }

    fn get_ctx(&self) -> (r: Vec<String>) {
        copy_strings(&self.ctx)
    }

    fn get_signal_decls(&self) -> (r: Vec<String>) {
        copy_strings(&self.sig_decls)
    }

    fn get_covered_ast_lines(&self) -> (r: Vec<u32>) {
        let mut r: Vec<u32> = Vec::new();
        let mut i: usize = 0;
        while i < self.outputs.len()
            invariant
                i <= self.outputs@.len(),
                r@ == self@.outputs.take(i as int).map_values(|k: NodeKey| k.locate.line),
            decreases self.outputs@.len() - i,
        {
            r.push(self.outputs[i].get_locate().line);
            assert(self@.outputs.take(i + 1).map_values(|k: NodeKey| k.locate.line) =~= self@.outputs.take(
                i as int,
            ).map_values(|k: NodeKey| k.locate.line).push(self@.outputs[i as int].locate.line));
            i = i + 1;
        }
        assert(self@.outputs.take(self.outputs@.len() as int) =~= self@.outputs);
        r
    }

    fn get_covered_original_lines(&self) -> (r: Vec<u32>) {
        let mut r: Vec<u32> = Vec::new();
        let mut i: usize = 0;
        while i < self.outputs.len()
            invariant
                i <= self.outputs@.len(),
                r@ == self@.outputs.take(i as int).map_values(|k: NodeKey| k.locate.original_line),
            decreases self.outputs@.len() - i,
        {
            r.push(self.outputs[i].get_locate().original_line);
            assert(self@.outputs.take(i + 1).map_values(|k: NodeKey| k.locate.original_line) =~= self@.outputs.take(
                i as int,
            ).map_values(|k: NodeKey| k.locate.original_line).push(self@.outputs[i as int].locate.original_line));
            i = i + 1;
        }
        assert(self@.outputs.take(self.outputs@.len() as int) =~= self@.outputs);
        r
    }

    fn get_covered_line_locates(&self) -> (r: Vec<NodeLocate>) {
        let mut r: Vec<NodeLocate> = Vec::new();
        let mut i: usize = 0;
        while i < self.outputs.len()
            invariant
                i <= self.outputs@.len(),
                r@ == self@.outputs.take(i as int).map_values(|k: NodeKey| k.locate),
            decreases self.outputs@.len() - i,
        {
            r.push(*self.outputs[i].get_locate());
            assert(self@.outputs.take(i + 1).map_values(|k: NodeKey| k.locate) =~= self@.outputs.take(
                i as int,
            ).map_values(|k: NodeKey| k.locate).push(self@.outputs[i as int].locate));
            i = i + 1;
        }
        assert(self@.outputs.take(self.outputs@.len() as int) =~= self@.outputs);
        r
    }
}

} // verus!
