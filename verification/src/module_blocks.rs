//! Finishing the blocks of one module instance: which blocks were reached,
//! the declarations of their signals, the signals their ports connect to in
//! the enclosing scope, and the merge of blocks that feed one another.
use vstd::prelude::*;

use crate::block::{node_keys, node_text, BlockType, CoverState, NodeID, NodeKey};
use crate::coverage::{param_covered, table_first, ParameterCoverageReport};
use crate::dfb::{strings_view, DataFlowBlock};
use crate::merge::{all_wf, scope_consistent};
use crate::text::{str_eq, string_of};

verus! {

/// The declaration recorded for the signal named `t`: that of the first entry.
pub open spec fn decl_of(table: Seq<(Seq<char>, Seq<char>)>, t: Seq<char>) -> Option<Seq<char>>
    decreases table.len(),
{
    if table.len() == 0 {
        None
    } else if table[0].0 == t {
        Some(table[0].1)
    } else {
        decl_of(table.drop_first(), t)
    }
}

/// The view of a table of declarations: (signal name, declaration).
pub open spec fn decls_view(t: Seq<(String, String)>) -> Seq<(Seq<char>, Seq<char>)> {
    t.map_values(|e: (String, String)| (e.0@, e.1@))
}

/// `x` added to a set kept as a sequence.
pub open spec fn set_insert<A>(s: Seq<A>, x: A) -> Seq<A> {
    if s.contains(x) {
        s
    } else {
        s.push(x)
    }
}

/// The declarations after adding those of the signals `nodes`, in order.
pub open spec fn with_decls(s: Seq<Seq<char>>, nodes: Seq<NodeKey>, table: Seq<(Seq<char>, Seq<char>)>) -> Seq<Seq<char>>
    decreases nodes.len(),
{
    if nodes.len() == 0 {
        s
    } else {
        let r = with_decls(s, nodes.drop_last(), table);
        match decl_of(table, node_text(nodes.last())) {
            Some(d) => set_insert(r, d),
            None => r,
        }
    }
}

/// The declaration of the signal named `t`, if the table has one.
fn find_decl(table: &Vec<(String, String)>, t: &str) -> (r: Option<String>)
    ensures
        (match r {
            Some(d) => Some(d@),
            None => None,
        }) == decl_of(decls_view(table@), t@),
{
    let ghost tv = decls_view(table@);
    let mut i: usize = 0;
    assert(tv.skip(0) =~= tv);
    while i < table.len()
        invariant
            tv == decls_view(table@),
            i <= table@.len(),
            decl_of(tv, t@) == decl_of(tv.skip(i as int), t@),
        decreases table@.len() - i,
    {
        assert(tv.skip(i as int)[0] == (table@[i as int].0@, table@[i as int].1@));
        assert(tv.skip(i as int).drop_first() =~= tv.skip(i + 1));
        if str_eq(table[i].0.as_str(), t) {
            return Some(string_of(table[i].1.as_str()));
        }
        i = i + 1;
    }
    assert(tv.skip(i as int).len() == 0);
    None
}

/// Adds to a block the declarations of the signals it reads and drives: for
/// each of its signals with a declaration in `sig_decls` (by name), that
/// declaration, once.
pub fn attach_signal_decls(block: &mut DataFlowBlock, sig_decls: &Vec<(String, String)>)
    ensures
        strings_view(final(block).sig_decls@) == with_decls(
            strings_view(old(block).sig_decls@),
            old(block)@.inputs + old(block)@.outputs,
            decls_view(sig_decls@),
        ),
        final(block).inputs == old(block).inputs,
        final(block).outputs == old(block).outputs,
        final(block).nodes_dataflow == old(block).nodes_dataflow,
        final(block).bid == old(block).bid,
        final(block).scope == old(block).scope,
        final(block).module_name == old(block).module_name,
        final(block).block_type == old(block).block_type,
        final(block).ctx == old(block).ctx,
        final(block).suspicious_trace == old(block).suspicious_trace,
        final(block).ast_ranges == old(block).ast_ranges,
        old(block).wf() ==> final(block).wf(),
{
    let ghost start = strings_view(block.sig_decls@);
    let ghost nodes = block@.inputs + block@.outputs;
    let ghost table = decls_view(sig_decls@);
    let ghost ob = *block;
    let mut names: Vec<NodeID> = crate::block::copy_nodes(&block.inputs);
    let outs = crate::block::copy_nodes(&block.outputs);
    let mut k: usize = 0;
    while k < outs.len()
        invariant
            k <= outs@.len(),
            node_keys(names@) == ob@.inputs + node_keys(outs@).take(k as int),
        decreases outs@.len() - k,
    {
        let ghost before = node_keys(names@);
        names.push(outs[k].duplicate());
        assert(node_keys(names@) =~= before.push(node_keys(outs@)[k as int]));
        assert(node_keys(outs@).take(k + 1) =~= node_keys(outs@).take(k as int).push(node_keys(outs@)[k as int]));
        k = k + 1;
    }
    assert(node_keys(outs@).take(outs@.len() as int) =~= node_keys(outs@));
    assert(node_keys(names@) == nodes);
    let mut i: usize = 0;
    assert(nodes.take(0) =~= Seq::<NodeKey>::empty());
    while i < names.len()
        invariant
            i <= names@.len(),
            node_keys(names@) == nodes,
            table == decls_view(sig_decls@),
            strings_view(block.sig_decls@) == with_decls(start, nodes.take(i as int), table),
            block.inputs == ob.inputs,
            block.outputs == ob.outputs,
            block.nodes_dataflow == ob.nodes_dataflow,
            block.bid == ob.bid,
            block.scope == ob.scope,
            block.module_name == ob.module_name,
            block.block_type == ob.block_type,
            block.ctx == ob.ctx,
            block.suspicious_trace == ob.suspicious_trace,
            block.ast_ranges == ob.ast_ranges,
            ob.wf() ==> block.wf(),
        decreases names@.len() - i,
    {
        assert(nodes.take(i + 1).drop_last() =~= nodes.take(i as int));
        assert(nodes.take(i + 1).last() == names@[i as int]@);
        match find_decl(sig_decls, names[i].get_text()) {
            Some(d) => {
                block.add_signal_decl(d.as_str());
            },
            None => {},
        }
        i = i + 1;
    }
    assert(nodes.take(nodes.len() as int) =~= nodes);
}

/// The view of a table of port connections: each port with the signals it
/// connects to.
pub open spec fn conns_view(t: Seq<(NodeID, Vec<NodeID>)>) -> Seq<(NodeKey, Seq<NodeKey>)> {
    t.map_values(|e: (NodeID, Vec<NodeID>)| (e.0@, node_keys(e.1@)))
}

/// Whether a node among `sides` has the text of `port`.
pub open spec fn names_port(sides: Seq<NodeKey>, port: NodeKey) -> bool {
    exists|m: int| 0 <= m < sides.len() && node_text(#[trigger] sides[m]) == node_text(port)
}

/// The first connection whose port has the text of a node among `sides`.
pub open spec fn first_port(conns: Seq<(NodeKey, Seq<NodeKey>)>, sides: Seq<NodeKey>) -> Option<int>
    decreases conns.len(),
{
    if conns.len() == 0 {
        None
    } else if names_port(sides, conns[0].0) {
        Some(0)
    } else {
        match first_port(conns.drop_first(), sides) {
            Some(i) => Some(i + 1),
            None => None,
        }
    }
}

/// A set of nodes after adding `xs`, in order.
pub open spec fn insert_all(s: Seq<NodeKey>, xs: Seq<NodeKey>) -> Seq<NodeKey>
    decreases xs.len(),
{
    if xs.len() == 0 {
        s
    } else {
        set_insert(insert_all(s, xs.drop_last()), xs.last())
    }
}

/// `port` once for each occurrence of `k` among `xs`.
pub open spec fn port_pushes(xs: Seq<NodeKey>, k: NodeKey, port: NodeKey) -> Seq<NodeKey>
    decreases xs.len(),
{
    if xs.len() == 0 {
        Seq::empty()
    } else {
        port_pushes(xs.drop_last(), k, port) + if xs.last() == k {
            seq![port]
        } else {
            Seq::empty()
        }
    }
}

/// Whether the first connection whose port a node among `sides` names.
fn find_port(conns: &Vec<(NodeID, Vec<NodeID>)>, sides: &Vec<NodeID>) -> (r: Option<usize>)
    ensures
        (match r {
            Some(i) => Some(i as int),
            None => None,
        }) == first_port(conns_view(conns@), node_keys(sides@)),
        r matches Some(i) ==> i < conns@.len(),
{
    let ghost cv = conns_view(conns@);
    let ghost sv = node_keys(sides@);
    let mut i: usize = 0;
    assert(cv.skip(0) =~= cv);
    while i < conns.len()
        invariant
            cv == conns_view(conns@),
            sv == node_keys(sides@),
            i <= conns@.len(),
            first_port(cv, sv) == (match first_port(cv.skip(i as int), sv) {
                Some(k) => Some(k + i),
                None => None,
            }),
        decreases conns@.len() - i,
    {
        assert(cv.skip(i as int)[0] == cv[i as int]);
        assert(cv.skip(i as int).drop_first() =~= cv.skip(i + 1));
        let t = conns[i].0.get_text();
        let mut hit = false;
        let mut m: usize = 0;
        while m < sides.len()
            invariant
                sv == node_keys(sides@),
                t@ == node_text(cv[i as int].0),
                m <= sides@.len(),
                hit == exists|q: int| 0 <= q < m && node_text(#[trigger] sv[q]) == node_text(cv[i as int].0),
            decreases sides@.len() - m,
        {
            assert(sv[m as int] == sides@[m as int]@);
            if str_eq(sides[m].get_text(), t) {
                hit = true;
            }
            m = m + 1;
        }
        if hit {
            assert(names_port(sv, cv[i as int].0));
            return Some(i);
        }
        i = i + 1;
    }
    assert(cv.skip(i as int).len() == 0);
    None
}

/// Connects the port block of a module instance to the signals its port is
/// connected to in the enclosing scope: an input port block reads them and
/// its port depends on them; an output port block drives them and each
/// depends on its port. The connection taken is the first whose port is
/// named by the block's port signal; other blocks are left as they are.
pub fn attach_port_connections(block: &mut DataFlowBlock, conns: &Vec<(NodeID, Vec<NodeID>)>)
    ensures
        final(block).bid == old(block).bid,
        final(block).scope == old(block).scope,
        final(block).module_name == old(block).module_name,
        final(block).block_type == old(block).block_type,
        final(block).ctx == old(block).ctx,
        final(block).sig_decls == old(block).sig_decls,
        final(block).ast_ranges == old(block).ast_ranges,
        old(block).wf() ==> final(block).wf(),
        ({
            let cv = conns_view(conns@);
            let ob = *old(block);
            let fb = *final(block);
            if ob.block_type == BlockType::ModuleInput && first_port(cv, ob@.outputs) is Some {
                let (port, vars) = cv[first_port(cv, ob@.outputs).unwrap()];
                &&& fb.input_keys() == insert_all(ob.input_keys(), vars)
                &&& fb.outputs == ob.outputs
                &&& fb.dataflow_of(port) == ob.dataflow_of(port) + vars
                &&& forall|k: NodeKey| k != port ==> fb.dataflow_of(k) == ob.dataflow_of(k)
            } else if ob.block_type == BlockType::ModuleOutput && first_port(cv, ob@.inputs) is Some {
                let (port, vars) = cv[first_port(cv, ob@.inputs).unwrap()];
                &&& fb.output_keys() == insert_all(ob.output_keys(), vars)
                &&& fb.inputs == ob.inputs
                &&& forall|k: NodeKey| fb.dataflow_of(k) == ob.dataflow_of(k) + port_pushes(vars, k, port)
            } else {
                fb == ob
            }
        }),
{
    let ghost cv = conns_view(conns@);
    let ghost ob = *block;
    if block.block_type == BlockType::ModuleInput {
        match find_port(conns, &block.outputs) {
            Some(p) => {
                let port = &conns[p].0;
                let vars = &conns[p].1;
                assert(cv[p as int] == (port@, node_keys(vars@)));
                let mut j: usize = 0;
                assert(node_keys(vars@).take(0) =~= Seq::<NodeKey>::empty());
                while j < vars.len()
                    invariant
                        j <= vars@.len(),
                        block.input_keys() == insert_all(ob.input_keys(), node_keys(vars@).take(j as int)),
                        block.outputs == ob.outputs,
                        block.dataflow_of(port@) == ob.dataflow_of(port@) + node_keys(vars@).take(j as int),
                        forall|k: NodeKey| k != port@ ==> block.dataflow_of(k) == ob.dataflow_of(k),
                        block.bid == ob.bid,
                        block.scope == ob.scope,
                        block.module_name == ob.module_name,
                        block.block_type == ob.block_type,
                        block.ctx == ob.ctx,
                        block.sig_decls == ob.sig_decls,
                        block.ast_ranges == ob.ast_ranges,
                        ob.wf() ==> block.wf(),
                    decreases vars@.len() - j,
                {
                    let ghost xs = node_keys(vars@);
                    assert(xs.take(j + 1).drop_last() =~= xs.take(j as int));
                    assert(xs.take(j + 1).last() == vars@[j as int]@);
                    assert(ob.dataflow_of(port@) + xs.take(j + 1) =~= (ob.dataflow_of(port@) + xs.take(j as int)).push(
                        vars@[j as int]@,
                    ));
                    block.add_input_node(vars[j].duplicate());
                    block.push_dataflow(port, vars[j].duplicate());
                    j = j + 1;
                }
                assert(node_keys(vars@).take(vars@.len() as int) =~= node_keys(vars@));
            },
            None => {},
        }
    } else if block.block_type == BlockType::ModuleOutput {
        match find_port(conns, &block.inputs) {
            Some(p) => {
                let port = &conns[p].0;
                let vars = &conns[p].1;
                assert(cv[p as int] == (port@, node_keys(vars@)));
                let mut j: usize = 0;
                assert(node_keys(vars@).take(0) =~= Seq::<NodeKey>::empty());
                assert forall|k: NodeKey| block.dataflow_of(k) == ob.dataflow_of(k) + port_pushes(
                    node_keys(vars@).take(0),
                    k,
                    port@,
                ) by {
                    assert(ob.dataflow_of(k) + Seq::<NodeKey>::empty() =~= ob.dataflow_of(k));
                };
                while j < vars.len()
                    invariant
                        j <= vars@.len(),
                        block.output_keys() == insert_all(ob.output_keys(), node_keys(vars@).take(j as int)),
                        block.inputs == ob.inputs,
                        forall|k: NodeKey|
                            block.dataflow_of(k) == ob.dataflow_of(k) + port_pushes(
                                node_keys(vars@).take(j as int),
                                k,
                                port@,
                            ),
                        block.bid == ob.bid,
                        block.scope == ob.scope,
                        block.module_name == ob.module_name,
                        block.block_type == ob.block_type,
                        block.ctx == ob.ctx,
                        block.sig_decls == ob.sig_decls,
                        block.ast_ranges == ob.ast_ranges,
                        ob.wf() ==> block.wf(),
                    decreases vars@.len() - j,
                {
                    let ghost xs = node_keys(vars@);
                    let ghost x = vars@[j as int]@;
                    assert(xs.take(j + 1).drop_last() =~= xs.take(j as int));
                    assert(xs.take(j + 1).last() == x);
                    let ghost pre = *block;
                    block.add_output_node(vars[j].duplicate());
                    let ghost mid = *block;
                    assert forall|k: NodeKey| mid.dataflow_of(k) == ob.dataflow_of(k) + port_pushes(xs.take(j as int), k, port@) by {
                        assert(pre.dataflow_of(k) == ob.dataflow_of(k) + port_pushes(xs.take(j as int), k, port@));
                    };
                    block.push_dataflow(&vars[j], port.duplicate());
                    assert forall|k: NodeKey| block.dataflow_of(k) == ob.dataflow_of(k) + port_pushes(
                        xs.take(j + 1),
                        k,
                        port@,
                    ) by {
                        if k == x {
                            assert(ob.dataflow_of(k) + port_pushes(xs.take(j + 1), k, port@) =~= (ob.dataflow_of(k)
                                + port_pushes(xs.take(j as int), k, port@)).push(port@));
                        } else {
                            assert(port_pushes(xs.take(j + 1), k, port@) =~= port_pushes(xs.take(j as int), k, port@));
                        }
                    };
                    j = j + 1;
                }
                assert(node_keys(vars@).take(vars@.len() as int) =~= node_keys(vars@));
            },
            None => {},
        }
    }
}

/// Whether a block was reached: port and `always` blocks always count as
/// reached; an assignment does when there is no report, when the report has
/// no lines of its module, or when the report counts one of the original
/// lines of its driven signals (`lines`, `None` where it is not known).
pub open spec fn cover_state(
    btype: BlockType,
    report: Option<Seq<(String, Vec<crate::coverage::LineCoverage>)>>,
    module_name: Seq<char>,
    lines: Seq<Option<u32>>,
) -> CoverState {
    match (btype, report) {
        (BlockType::Assign, Some(t)) => if table_first(t, module_name) is None {
            CoverState::Covered
        } else if exists|i: int|
            0 <= i < lines.len() && (#[trigger] lines[i]) is Some && param_covered(
                t,
                Some(module_name),
                lines[i].unwrap(),
            ) is Some {
            CoverState::Covered
        } else {
            CoverState::Uncovered
        },
        _ => CoverState::Covered,
    }
}

/// Decides whether a block was reached, as `cover_state` says, from the
/// original lines of its driven signals.
pub fn check_block_cover_state(
    block: &DataFlowBlock,
    report: &Option<ParameterCoverageReport>,
    module_name: &str,
    lines: &Vec<Option<u32>>,
) -> (r: CoverState)
    ensures
        r == cover_state(
            block.block_type,
            match report {
                Some(t) => Some(t.lines_coverage@),
                None => None,
            },
            module_name@,
            lines@,
        ),
{
    if block.block_type != BlockType::Assign {
        return CoverState::Covered;
    }
    let t = match report {
        Some(t) => t,
        None => {
            return CoverState::Covered;
        },
    };
    if !t.has_module_data(module_name) {
        return CoverState::Covered;
    }
    let mut i: usize = 0;
    while i < lines.len()
        invariant
            i <= lines@.len(),
            block.block_type == BlockType::Assign,
            (match report {
                Some(x) => x.lines_coverage@ == t.lines_coverage@,
                None => false,
            }),
            table_first(t.lines_coverage@, module_name@) is Some,
            forall|k: int|
                0 <= k < i ==> !((#[trigger] lines@[k]) is Some && param_covered(
                    t.lines_coverage@,
                    Some(module_name@),
                    lines@[k].unwrap(),
                ) is Some),
        decreases lines@.len() - i,
    {
        match lines[i] {
            Some(l) => {
                if t.check_covered(Some(module_name), l).is_some() {
                    assert(lines@[i as int] is Some && param_covered(
                        t.lines_coverage@,
                        Some(module_name@),
                        lines@[i as int].unwrap(),
                    ) is Some);
                    return CoverState::Covered;
                }
            },
            None => {},
        }
        i = i + 1;
    }
    CoverState::Uncovered
}

/// The name of the scope of an instance `dut` met in scope `cur` under the
/// generate blocks `prefix`: `cur.dut`, or `cur.p1.p2.dut`.
pub open spec fn child_scope_spec(cur: Seq<char>, prefix: Seq<Seq<char>>, dut: Seq<char>) -> Seq<char> {
    if prefix.len() == 0 {
        cur + seq!['.'] + dut
    } else {
        cur + seq!['.'] + join_dots(prefix) + seq!['.'] + dut
    }
}

/// Names joined by dots.
pub open spec fn join_dots(s: Seq<Seq<char>>) -> Seq<char>
    decreases s.len(),
{
    if s.len() == 0 {
        Seq::empty()
    } else if s.len() == 1 {
        s[0]
    } else {
        join_dots(s.drop_last()) + seq!['.'] + s.last()
    }
}

/// Appends the characters of `s`.
fn push_str_chars(out: &mut Vec<char>, s: &str)
    ensures
        final(out)@ == old(out)@ + s@,
{
    let cs = crate::text::chars_of(s);
    let mut i: usize = 0;
    while i < cs.len()
        invariant
            i <= cs@.len(),
            out@ == old(out)@ + cs@.take(i as int),
        decreases cs@.len() - i,
    {
        out.push(cs[i]);
        assert(old(out)@ + cs@.take(i + 1) =~= (old(out)@ + cs@.take(i as int)).push(cs@[i as int]));
        i = i + 1;
    }
    assert(cs@.take(cs@.len() as int) =~= cs@);
}

/// The scope of an instance, as `child_scope_spec` says.
pub fn child_scope(cur: &str, prefix: &Vec<String>, dut: &str) -> (r: String)
    ensures
        r@ == child_scope_spec(cur@, strings_view(prefix@), dut@),
{
    let ghost pv = strings_view(prefix@);
    let mut out: Vec<char> = Vec::new();
    push_str_chars(&mut out, cur);
    out.push('.');
    if prefix.len() > 0 {
        let ghost mark = out@;
        push_str_chars(&mut out, prefix[0].as_str());
        assert(pv.take(1) =~= seq![pv[0]]);
        let mut i: usize = 1;
        while i < prefix.len()
            invariant
                1 <= i <= prefix@.len(),
                pv == strings_view(prefix@),
                out@ == mark + join_dots(pv.take(i as int)),
            decreases prefix@.len() - i,
        {
            out.push('.');
            push_str_chars(&mut out, prefix[i].as_str());
            assert(pv.take(i + 1).drop_last() =~= pv.take(i as int));
            assert(pv.take(i + 1).last() == pv[i as int]);
            assert(mark + join_dots(pv.take(i + 1)) =~= mark + join_dots(pv.take(i as int)) + seq!['.'] + pv[i as int]);
            i = i + 1;
        }
        assert(pv.take(prefix@.len() as int) =~= pv);
        out.push('.');
    }
    push_str_chars(&mut out, dut);
    let r = crate::text::string_from_chars(&out);
    assert(r@ =~= child_scope_spec(cur@, pv, dut@));
    r
}

/// Whether the given blocks all read and drive each signal once, record
/// each driven signal once, and share their scope when they share their module.
pub fn blocks_ready(blocks: &Vec<DataFlowBlock>) -> (r: bool)
    ensures
        r == (all_wf(blocks@) && scope_consistent(blocks@)),
{
    let mut i: usize = 0;
    while i < blocks.len()
        invariant
            i <= blocks@.len(),
            forall|k: int| 0 <= k < i ==> #[trigger] blocks@[k].wf(),
        decreases blocks@.len() - i,
    {
        if !blocks[i].check_wf() {
            assert(!blocks@[i as int].wf());
            return false;
        }
        i = i + 1;
    }
    let mut a: usize = 0;
    while a < blocks.len()
        invariant
            all_wf(blocks@),
            a <= blocks@.len(),
            forall|x: int, y: int|
                0 <= x < a && 0 <= y < blocks@.len() && #[trigger] blocks@[x]@.module_name
                    == #[trigger] blocks@[y]@.module_name ==> blocks@[x]@.scope == blocks@[y]@.scope,
        decreases blocks@.len() - a,
    {
        let mut b: usize = 0;
        while b < blocks.len()
            invariant
                all_wf(blocks@),
                a < blocks@.len(),
                b <= blocks@.len(),
                forall|x: int, y: int|
                    0 <= x < a && 0 <= y < blocks@.len() && #[trigger] blocks@[x]@.module_name
                        == #[trigger] blocks@[y]@.module_name ==> blocks@[x]@.scope == blocks@[y]@.scope,
                forall|y: int|
                    0 <= y < b && blocks@[a as int]@.module_name == #[trigger] blocks@[y]@.module_name
                        ==> blocks@[a as int]@.scope == blocks@[y]@.scope,
            decreases blocks@.len() - b,
        {
            if str_eq(blocks[a].module_name.as_str(), blocks[b].module_name.as_str()) && !str_eq(
                blocks[a].scope.as_str(),
                blocks[b].scope.as_str(),
            ) {
                assert(blocks@[a as int]@.module_name == blocks@[b as int]@.module_name);
                assert(!scope_consistent(blocks@));
                return false;
            }
            b = b + 1;
        }
        a = a + 1;
    }
    true
}

/// The text a declaration is recorded with: without surrounding white space,
/// ending with a line end.
pub open spec fn decl_text(code: Seq<char>) -> Seq<char> {
    let t = crate::text::spec_trim(code);
    if t.len() > 0 && t.last() == '\n' {
        t
    } else {
        t.push('\n')
    }
}

/// The declaration recorded for signal `n` from the (name, code) pairs: the
/// text of the last pair of that name.
pub open spec fn last_decl(entries: Seq<(Seq<char>, Seq<char>)>, n: Seq<char>) -> Option<Seq<char>>
    decreases entries.len(),
{
    if entries.len() == 0 {
        None
    } else if entries.last().0 == n {
        Some(decl_text(entries.last().1))
    } else {
        last_decl(entries.drop_last(), n)
    }
}

/// Signal names occur once in a table of declarations.
pub open spec fn decl_names_unique(t: Seq<(Seq<char>, Seq<char>)>) -> bool {
    forall|i: int, j: int| 0 <= i < j < t.len() ==> t[i].0 != t[j].0
}

/// A name a table does not have gives nothing.
proof fn lemma_decl_of_absent(t: Seq<(Seq<char>, Seq<char>)>, n: Seq<char>)
    requires
        forall|i: int| 0 <= i < t.len() ==> t[i].0 != n,
    ensures
        decl_of(t, n) is None,
    decreases t.len(),
{
    if t.len() > 0 {
        lemma_decl_of_absent(t.drop_first(), n);
    }
}

/// The entry at `k` answers for its name; other names keep their answers
/// when it changes, and an entry added at the end answers for a new name.
proof fn lemma_decl_of_at(t: Seq<(Seq<char>, Seq<char>)>, k: int, n: Seq<char>)
    requires
        decl_names_unique(t),
        0 <= k < t.len(),
    ensures
        t[k].0 == n ==> decl_of(t, n) == Some(t[k].1),
        t[k].0 != n ==> decl_of(t, n) == decl_of(t.remove(k), n),
    decreases t.len(),
{
    if k > 0 {
        if t[0].0 != n {
            assert(t.drop_first().remove(k - 1) =~= t.remove(k).drop_first());
            assert forall|i: int, j: int| 0 <= i < j < t.drop_first().len() implies t.drop_first()[i].0 != t.drop_first()[j].0 by {
                assert(t.drop_first()[i] == t[i + 1]);
                assert(t.drop_first()[j] == t[j + 1]);
            };
            lemma_decl_of_at(t.drop_first(), k - 1, n);
        } else {
            assert(t[0].0 != t[k].0);
            assert(t.remove(k)[0] == t[0]);
        }
    } else {
        assert(t.remove(0) =~= t.drop_first());
    }
}

/// The declarations of the signals of a syntax tree, from its (signal name,
/// declaration code) pairs in order: each declaration trimmed and ending
/// with a line end; for a name declared twice, the later declaration.
pub fn collect_sig_decls(entries: &Vec<(String, String)>) -> (r: Vec<(String, String)>)
    ensures
        decl_names_unique(decls_view(r@)),
        forall|n: Seq<char>| #[trigger] decl_of(decls_view(r@), n) == last_decl(decls_view(entries@), n),
{
    let ghost ev = decls_view(entries@);
    let mut t: Vec<(String, String)> = Vec::new();
    let mut i: usize = 0;
    while i < entries.len()
        invariant
            i <= entries@.len(),
            ev == decls_view(entries@),
            decl_names_unique(decls_view(t@)),
            forall|n: Seq<char>| #[trigger] decl_of(decls_view(t@), n) == last_decl(ev.take(i as int), n),
        decreases entries@.len() - i,
    {
        let ghost tv = decls_view(t@);
        let name = &entries[i].0;
        let trimmed = crate::text::trim_str(entries[i].1.as_str());
        let mut text = string_of(trimmed);
        let tc = crate::text::chars_of(trimmed);
        let ends_nl = tc.len() > 0 && tc[tc.len() - 1] == '\n';
        if !ends_nl {
            let mut cs = tc;
            cs.push('\n');
            text = crate::text::string_from_chars(&cs);
        }
        assert(text@ == decl_text(ev[i as int].1));
        let ghost e = (name@, text@);
        proof {
            assert(ev.take(i + 1).drop_last() =~= ev.take(i as int));
            assert(ev.take(i + 1).last() == ev[i as int]);
            assert(ev[i as int].0 == name@);
        }
        let mut k: usize = 0;
        while k < t.len()
            invariant
                k <= t@.len(),
                tv == decls_view(t@),
                forall|q: int| 0 <= q < k ==> tv[q].0 != name@,
            ensures
                k <= t@.len(),
                forall|q: int| 0 <= q < k ==> tv[q].0 != name@,
                k < t@.len() ==> tv[k as int].0 == name@,
            decreases t@.len() - k,
        {
            if str_eq(t[k].0.as_str(), name.as_str()) {
                break;
            }
            k = k + 1;
        }
        if k < t.len() {
            proof {
                assert(tv[k as int].0 == name@);
            }
            t.set(k, (string_of(name.as_str()), text));
            proof {
                let nv = decls_view(t@);
                assert(nv =~= tv.update(k as int, e));
                assert(decl_names_unique(nv)) by {
                    assert forall|a: int, b: int| 0 <= a < b < nv.len() implies nv[a].0 != nv[b].0 by {
                        assert(nv[a].0 == tv[a].0 && nv[b].0 == tv[b].0);
                    };
                };
                assert forall|n: Seq<char>| #[trigger] decl_of(decls_view(t@), n) == last_decl(ev.take(i + 1), n) by {
                    lemma_decl_of_at(nv, k as int, n);
                    lemma_decl_of_at(tv, k as int, n);
                    assert(nv.remove(k as int) =~= tv.remove(k as int));
                };
            }
        } else {
            t.push((string_of(name.as_str()), text));
            proof {
                let nv = decls_view(t@);
                assert(nv =~= tv.push(e));
                assert(decl_names_unique(nv)) by {
                    assert forall|a: int, b: int| 0 <= a < b < nv.len() implies nv[a].0 != nv[b].0 by {
                        if b == tv.len() {
                            assert(tv[a].0 != name@);
                        }
                    };
                };
                assert forall|n: Seq<char>| #[trigger] decl_of(decls_view(t@), n) == last_decl(ev.take(i + 1), n) by {
                    let last = tv.len() as int;
                    lemma_decl_of_at(nv, last, n);
                    assert(nv.remove(last) =~= tv);
                    if n == name@ {
                    } else {
                    }
                };
            }
        }
        i = i + 1;
    }
    assert(ev.take(ev.len() as int) =~= ev);
    t
}

} // verus!
