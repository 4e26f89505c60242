//! Merging of blocks: continuous assignments of one module that feed each
//! other are joined into one block, until no two blocks can be joined.
use vstd::prelude::*;
use vstd::multiset::Multiset;

use crate::block::{copy_nodes, insert_node, key_texts, node_keys, node_text, BlockType, NodeID, NodeKey};
use crate::dfb::{
    BlockView,
    copy_strings, df_keys, df_lookup, df_set, lemma_no_dups_push, no_dups, strings_view,
    DataFlowBlock,
};
use crate::text::{str_eq, string_of};

verus! {

/// `s.push(x)` holds exactly what `s` holds and `x`.
pub proof fn lemma_contains_push<A>(s: Seq<A>, x: A)
    ensures
        forall|k: A| s.push(x).contains(k) <==> (s.contains(k) || k == x),
{
    assert forall|k: A| s.push(x).contains(k) <==> (s.contains(k) || k == x) by {
        if s.contains(k) {
            let j = choose|j: int| 0 <= j < s.len() && s[j] == k;
            assert(s.push(x)[j] == k);
        }
        if k == x {
            assert(s.push(x)[s.len() as int] == k);
        }
        if s.push(x).contains(k) {
            let j = choose|j: int| 0 <= j < s.push(x).len() && s.push(x)[j] == k;
            if j < s.len() {
                assert(s[j] == k);
            }
        }
    };
}

/// The union of two node sets, without duplicates when the first has none.
pub fn union_nodes(a: &Vec<NodeID>, b: &Vec<NodeID>) -> (r: Vec<NodeID>)
    ensures
        forall|k: NodeKey| node_keys(r@).contains(k) <==> (node_keys(a@).contains(k) || node_keys(b@).contains(k)),
        no_dups(node_keys(a@)) ==> no_dups(node_keys(r@)),
{
    let mut r = copy_nodes(a);
    let mut i: usize = 0;
    while i < b.len()
        invariant
            i <= b.len(),
            forall|k: NodeKey| node_keys(r@).contains(k) <==> (node_keys(a@).contains(k) || node_keys(b@.take(i as int)).contains(k)),
            no_dups(node_keys(a@)) ==> no_dups(node_keys(r@)),
        decreases b.len() - i,
    {
        let ghost before = node_keys(r@);
        let n = b[i].duplicate();
        let ghost nk = n@;
        insert_node(&mut r, n);
        proof {
            assert(nk == b@[i as int]@);
            assert(node_keys(b@.take(i + 1)) =~= node_keys(b@.take(i as int)).push(nk));
            lemma_contains_push(node_keys(b@.take(i as int)), nk);
            lemma_contains_push(before, nk);
            if !before.contains(nk) && no_dups(node_keys(a@)) {
                lemma_no_dups_push(before, nk);
            }
            assert forall|k: NodeKey| node_keys(r@).contains(k) <==> (node_keys(a@).contains(k)
                || node_keys(b@.take(i + 1)).contains(k)) by {
                let t0 = node_keys(b@.take(i as int));
                assert(node_keys(b@.take(i + 1)) == t0.push(nk));
                assert(t0.push(nk).contains(k) <==> (t0.contains(k) || k == nk));
                assert(node_keys(b@.take(i + 1)).contains(k) <==> (node_keys(b@.take(i as int)).contains(k) || k == nk));
                assert(before.contains(k) <==> (node_keys(a@).contains(k) || node_keys(b@.take(i as int)).contains(k)));
                if before.contains(nk) {
                    assert(node_keys(r@) == before);
                } else {
                    assert(node_keys(r@) == before.push(nk));
                }
            };
        }
        i = i + 1;
    }
    assert(b@.take(b.len() as int) == b@);
    r
}

/// The union of two string sets, without duplicates when the first has none.
pub fn union_strings(a: &Vec<String>, b: &Vec<String>) -> (r: Vec<String>)
    ensures
        forall|s: Seq<char>| strings_view(r@).contains(s) <==> (strings_view(a@).contains(s) || strings_view(b@).contains(s)),
        no_dups(strings_view(a@)) ==> no_dups(strings_view(r@)),
{
    let mut r = copy_strings(a);
    let mut i: usize = 0;
    while i < b.len()
        invariant
            i <= b.len(),
            forall|s: Seq<char>| strings_view(r@).contains(s) <==> (strings_view(a@).contains(s) || strings_view(b@.take(i as int)).contains(s)),
            no_dups(strings_view(a@)) ==> no_dups(strings_view(r@)),
        decreases b.len() - i,
    {
        let ghost before = strings_view(r@);
        let ghost x = b@[i as int]@;
        assert(strings_view(b@.take(i + 1)) =~= strings_view(b@.take(i as int)).push(x));
        proof {
            lemma_contains_push(strings_view(b@.take(i as int)), x);
        }
        let mut found = false;
        let mut j: usize = 0;
        while j < r.len()
            invariant
                j <= r.len(),
                strings_view(r@) == before,
                x == b@[i as int]@,
                i < b.len(),
                found ==> before.contains(x),
                !found ==> forall|m: int| 0 <= m < j ==> before[m] != x,
            decreases r.len() - j,
        {
            if !found && str_eq(r[j].as_str(), b[i].as_str()) {
                assert(before[j as int] == x);
                found = true;
            }
            j = j + 1;
        }
        if !found {
            assert(!before.contains(x));
            r.push(b[i].clone());
            proof {
                assert(strings_view(r@) =~= before.push(x));
                lemma_contains_push(before, x);
                if no_dups(strings_view(a@)) {
                    lemma_no_dups_push(before, x);
                }
            }
        }
        proof {
            assert forall|s: Seq<char>| strings_view(r@).contains(s) <==> (strings_view(a@).contains(s)
                || strings_view(b@.take(i + 1)).contains(s)) by {
                assert(before.contains(s) <==> (strings_view(a@).contains(s) || strings_view(b@.take(i as int)).contains(s)));
                assert(strings_view(b@.take(i + 1)).contains(s) <==> (strings_view(b@.take(i as int)).contains(s) || s == x));
                if found {
                    assert(strings_view(r@) == before);
                }
            };
        }
        i = i + 1;
    }
    assert(b@.take(b.len() as int) == b@);
    r
}

/// The concatenation of two string sequences.
pub fn concat_strings(a: &Vec<String>, b: &Vec<String>) -> (r: Vec<String>)
    ensures
        strings_view(r@) == strings_view(a@) + strings_view(b@),
{
    let mut r = copy_strings(a);
    let mut i: usize = 0;
    while i < b.len()
        invariant
            i <= b.len(),
            strings_view(r@) == strings_view(a@) + strings_view(b@.take(i as int)),
        decreases b.len() - i,
    {
        let ghost before = r@;
        r.push(b[i].clone());
        assert(strings_view(r@) =~= strings_view(before).push(b@[i as int]@));
        assert(strings_view(b@.take(i + 1)) =~= strings_view(b@.take(i as int)).push(b@[i as int]@));
        i = i + 1;
    }
    assert(b@.take(b.len() as int) == b@);
    r
}

/// In a table with no key twice, the entry at `i` is what its key looks up.
pub proof fn lemma_df_lookup_at(t: Seq<(NodeID, Vec<NodeID>)>, i: int)
    requires
        no_dups(df_keys(t)),
        0 <= i < t.len(),
    ensures
        df_lookup(t, t[i].0@) == node_keys(t[i].1@),
    decreases t.len(),
{
    if i > 0 {
        assert(df_keys(t)[0] != df_keys(t)[i]);
        assert(df_keys(t.drop_first()) =~= df_keys(t).drop_first());
        lemma_df_lookup_at(t.drop_first(), i - 1);
    }
}

/// The table of `t1` overridden by the entries of `t2`.
pub fn override_table(t1: &Vec<(NodeID, Vec<NodeID>)>, t2: &Vec<(NodeID, Vec<NodeID>)>) -> (r: Vec<(NodeID, Vec<NodeID>)>)
    requires
        no_dups(df_keys(t2@)),
    ensures
        forall|k: NodeKey| df_lookup(r@, k) == (if df_keys(t2@).contains(k) {
            df_lookup(t2@, k)
        } else {
            df_lookup(t1@, k)
        }),
        no_dups(df_keys(t1@)) ==> no_dups(df_keys(r@)),
{
    let mut r = crate::dfb::copy_table(t1);
    proof {
        crate::dfb::lemma_df_lookup_view(r@, t1@);
        assert(df_keys(r@) =~= df_keys(t1@)) by {
            assert(r@.len() == crate::dfb::table_view(r@).len());
            assert(t1@.len() == crate::dfb::table_view(t1@).len());
            assert forall|j: int| 0 <= j < r@.len() implies df_keys(r@)[j] == df_keys(t1@)[j] by {
                assert(crate::dfb::table_view(r@)[j] == crate::dfb::table_view(t1@)[j]);
            };
        };
    }
    let mut i: usize = 0;
    while i < t2.len()
        invariant
            i <= t2.len(),
            no_dups(df_keys(t2@)),
            forall|k: NodeKey| df_lookup(r@, k) == (if df_keys(t2@.take(i as int)).contains(k) {
                df_lookup(t2@, k)
            } else {
                df_lookup(t1@, k)
            }),
            no_dups(df_keys(t1@)) ==> no_dups(df_keys(r@)),
        decreases t2.len() - i,
    {
        let ghost ki = t2@[i as int].0@;
        proof {
            assert(df_keys(t2@.take(i + 1)) =~= df_keys(t2@.take(i as int)).push(ki));
            lemma_contains_push(df_keys(t2@.take(i as int)), ki);
            lemma_df_lookup_at(t2@, i as int);
        }
        let ghost before = r@;
        df_set(&mut r, t2[i].0.duplicate(), copy_nodes(&t2[i].1));
        proof {
            assert forall|k: NodeKey| df_lookup(r@, k) == (if df_keys(t2@.take(i + 1)).contains(k) {
                df_lookup(t2@, k)
            } else {
                df_lookup(t1@, k)
            }) by {
                assert(df_keys(t2@.take(i + 1)).contains(k) <==> (df_keys(t2@.take(i as int)).contains(k) || k == ki));
                if k != ki {
                    assert(df_lookup(r@, k) == df_lookup(before, k));
                }
            };
        }
        i = i + 1;
    }
    assert(t2@.take(t2.len() as int) == t2@);
    r
}

/// Some signal that `reader` reads is, by its text, driven in `driver`.
pub open spec fn reads_from(reader: BlockView, driver: BlockView) -> bool {
    exists|i: int|
        0 <= i < reader.inputs.len() && #[trigger] key_texts(driver.outputs).contains(
            node_text(reader.inputs[i]),
        )
}

/// Two continuous assignments of one module where one reads what the other drives.
pub open spec fn mergeable(b1: BlockView, b2: BlockView) -> bool {
    &&& b1.block_type == BlockType::Assign
    &&& b2.block_type == BlockType::Assign
    &&& b1.module_name == b2.module_name
    &&& (reads_from(b1, b2) || reads_from(b2, b1))
}

/// `m` joins `b1` and `b2`: the scope and kind of `b1`, the signals, declarations,
/// source ranges and context of both, the dataflow of `b1` overridden by that of
/// `b2`, and no trace.
pub open spec fn is_merge_of(m: DataFlowBlock, b1: DataFlowBlock, b2: DataFlowBlock) -> bool {
    &&& m@.scope == b1@.scope
    &&& m@.block_type == b1@.block_type
    &&& forall|k: NodeKey| #[trigger] m@.inputs.contains(k) <==> (b1@.inputs.contains(k) || b2@.inputs.contains(k))
    &&& forall|k: NodeKey| #[trigger] m@.outputs.contains(k) <==> (b1@.outputs.contains(k) || b2@.outputs.contains(k))
    &&& forall|d: Seq<char>| #[trigger] m@.sig_decls.contains(d) <==> (b1@.sig_decls.contains(d) || b2@.sig_decls.contains(d))
    &&& m@.ctx == b1@.ctx + b2@.ctx
    &&& m@.ast_ranges == b1@.ast_ranges + b2@.ast_ranges
    &&& m@.suspicious_variables.len() == 0
    &&& m@.suspicious_trace is None
    &&& forall|k: NodeKey| #[trigger] m.dataflow_of(k) == (if df_keys(b2.nodes_dataflow@).contains(k) {
        b2.dataflow_of(k)
    } else {
        b1.dataflow_of(k)
    })
}

/// Joins two blocks of one module, scope and kind into a new block `bid`.
pub fn merge_two(
    bid: u64,
    module_name: &str,
    t: BlockType,
    b1: &DataFlowBlock,
    b2: &DataFlowBlock,
) -> (m: DataFlowBlock)
    requires
        b1.module_name@ == b2.module_name@,
        b1.scope@ == b2.scope@,
        b1.block_type == b2.block_type,
        b1.block_type == t,
        b1.wf(),
        b2.wf(),
    ensures
        m@.bid == bid,
        m@.module_name == module_name@,
        is_merge_of(m, *b1, *b2),
        m.wf(),
{
    let mut ranges = b1.ast_ranges.clone();
    let mut i: usize = 0;
    assert(ranges@ =~= b1.ast_ranges@);
    while i < b2.ast_ranges.len()
        invariant
            i <= b2.ast_ranges.len(),
            ranges@ == b1.ast_ranges@ + b2.ast_ranges@.take(i as int),
        decreases b2.ast_ranges.len() - i,
    {
        ranges.push(b2.ast_ranges[i]);
        assert(b2.ast_ranges@.take(i + 1) == b2.ast_ranges@.take(i as int).push(b2.ast_ranges@[i as int]));
        i = i + 1;
    }
    assert(b2.ast_ranges@.take(b2.ast_ranges@.len() as int) == b2.ast_ranges@);
    let m = DataFlowBlock {
        bid,
        module_name: string_of(module_name),
        scope: b1.scope.clone(),
        block_type: t,
        nodes_dataflow: override_table(&b1.nodes_dataflow, &b2.nodes_dataflow),
        sig_decls: union_strings(&b1.sig_decls, &b2.sig_decls),
        inputs: union_nodes(&b1.inputs, &b2.inputs),
        outputs: union_nodes(&b1.outputs, &b2.outputs),
        suspicious_variables: Vec::new(),
        suspicious_trace: None,
        ctx: concat_strings(&b1.ctx, &b2.ctx),
        ast_ranges: ranges,
    };
    assert(m@.suspicious_variables =~= Seq::<NodeKey>::empty());
    m
}

/// Whether a signal that `reader` reads is, by its text, driven in `driver`.
pub fn check_reads_from(reader: &DataFlowBlock, driver: &DataFlowBlock) -> (r: bool)
    ensures
        r == reads_from(reader@, driver@),
{
    let mut i: usize = 0;
    while i < reader.inputs.len()
        invariant
            i <= reader.inputs.len(),
            forall|j: int| 0 <= j < i ==> !key_texts(driver@.outputs).contains(node_text(reader@.inputs[j])),
        decreases reader.inputs.len() - i,
    {
        if crate::block::contains_text(&driver.outputs, reader.inputs[i].get_text()) {
            assert(key_texts(driver@.outputs).contains(node_text(reader@.inputs[i as int])));
            return true;
        }
        i = i + 1;
    }
    false
}

/// The block that joins `b1` and `b2` (under the id of `b1`) when they are
/// continuous assignments of one module where one reads what the other drives.
pub fn merge_block(b1: &DataFlowBlock, b2: &DataFlowBlock) -> (r: Option<DataFlowBlock>)
    requires
        b1.wf(),
        b2.wf(),
        mergeable(b1@, b2@) ==> b1.scope@ == b2.scope@,
    ensures
        r is Some <==> mergeable(b1@, b2@),
        r matches Some(m) ==> m@.bid == b1@.bid && m@.module_name == b1@.module_name && is_merge_of(m, *b1, *b2)
            && m.wf(),
{
    if b1.block_type == b2.block_type && str_eq(b1.module_name.as_str(), b2.module_name.as_str()) {
        match b1.block_type {
            BlockType::Assign => {
                if check_reads_from(b1, b2) || check_reads_from(b2, b1) {
                    return Some(merge_two(b1.bid, b1.module_name.as_str(), BlockType::Assign, b1, b2));
                }
                None
            },
            _ => None,
        }
    } else {
        None
    }
}

/// Every signal that `b` reads or drives is read, or driven, by some block of `s`.
pub open spec fn block_covered(b: DataFlowBlock, s: Seq<DataFlowBlock>) -> bool {
    &&& forall|k: NodeKey| #[trigger] b@.inputs.contains(k) ==> exists|m: int| 0 <= m < s.len() && #[trigger] s[m]@.inputs.contains(k)
    &&& forall|k: NodeKey| #[trigger] b@.outputs.contains(k) ==> exists|m: int| 0 <= m < s.len() && #[trigger] s[m]@.outputs.contains(k)
}

/// Every block of `a` is covered by `b`.
pub open spec fn all_covered(a: Seq<DataFlowBlock>, b: Seq<DataFlowBlock>) -> bool {
    forall|i: int| 0 <= i < a.len() ==> #[trigger] block_covered(a[i], b)
}

/// Every block is well formed.
pub open spec fn all_wf(s: Seq<DataFlowBlock>) -> bool {
    forall|i: int| 0 <= i < s.len() ==> #[trigger] s[i].wf()
}

/// Blocks of one module share their scope.
pub open spec fn scope_consistent(s: Seq<DataFlowBlock>) -> bool {
    forall|i: int, j: int|
        0 <= i < s.len() && 0 <= j < s.len() && #[trigger] s[i]@.module_name == #[trigger] s[j]@.module_name
            ==> s[i]@.scope == s[j]@.scope
}

/// No two blocks can be merged.
pub open spec fn no_mergeable_pair(s: Seq<DataFlowBlock>) -> bool {
    forall|i: int, j: int| 0 <= i < j < s.len() ==> !mergeable(#[trigger] s[i]@, #[trigger] s[j]@)
}

/// The number of `true` in `s`.
pub open spec fn count_true(s: Seq<bool>) -> nat
    decreases s.len(),
{
    if s.len() == 0 {
        0
    } else {
        (if s[0] { 1nat } else { 0nat }) + count_true(s.drop_first())
    }
}

proof fn lemma_count_true_step(s: Seq<bool>, i: int)
    requires
        0 <= i < s.len(),
    ensures
        count_true(s.skip(i)) == (if s[i] { 1nat } else { 0nat }) + count_true(s.skip(i + 1)),
{
    assert(s.skip(i).drop_first() =~= s.skip(i + 1));
    assert(s.skip(i)[0] == s[i]);
}

proof fn lemma_count_true_set(s: Seq<bool>, i: int, j: int)
    requires
        0 <= i <= j < s.len(),
        !s[j],
    ensures
        count_true(s.update(j, true).skip(i)) == count_true(s.skip(i)) + 1,
    decreases j - i,
{
    let t = s.update(j, true);
    lemma_count_true_step(s, i);
    lemma_count_true_step(t, i);
    if i == j {
        assert(t.skip(i + 1) =~= s.skip(i + 1));
    } else {
        lemma_count_true_set(s, i + 1, j);
    }
}

proof fn lemma_covered_push(b: DataFlowBlock, s: Seq<DataFlowBlock>, x: DataFlowBlock)
    requires
        block_covered(b, s),
    ensures
        block_covered(b, s.push(x)),
{
    assert forall|k: NodeKey| #[trigger] b@.inputs.contains(k) implies exists|m: int|
        0 <= m < s.push(x).len() && #[trigger] s.push(x)[m]@.inputs.contains(k) by {
        let m = choose|m: int| 0 <= m < s.len() && #[trigger] s[m]@.inputs.contains(k);
        assert(s.push(x)[m] == s[m]);
    };
    assert forall|k: NodeKey| #[trigger] b@.outputs.contains(k) implies exists|m: int|
        0 <= m < s.push(x).len() && #[trigger] s.push(x)[m]@.outputs.contains(k) by {
        let m = choose|m: int| 0 <= m < s.len() && #[trigger] s[m]@.outputs.contains(k);
        assert(s.push(x)[m] == s[m]);
    };
}

proof fn lemma_all_covered_push(a: Seq<DataFlowBlock>, s: Seq<DataFlowBlock>, x: DataFlowBlock)
    requires
        all_covered(a, s),
    ensures
        all_covered(a, s.push(x)),
{
    assert forall|i: int| 0 <= i < a.len() implies #[trigger] block_covered(a[i], s.push(x)) by {
        lemma_covered_push(a[i], s, x);
    };
}

proof fn lemma_covered_trans(b: DataFlowBlock, s: Seq<DataFlowBlock>, t: Seq<DataFlowBlock>)
    requires
        block_covered(b, s),
        all_covered(s, t),
    ensures
        block_covered(b, t),
{
    assert forall|k: NodeKey| #[trigger] b@.inputs.contains(k) implies exists|m: int|
        0 <= m < t.len() && #[trigger] t[m]@.inputs.contains(k) by {
        let m = choose|m: int| 0 <= m < s.len() && #[trigger] s[m]@.inputs.contains(k);
        assert(block_covered(s[m], t));
    };
    assert forall|k: NodeKey| #[trigger] b@.outputs.contains(k) implies exists|m: int|
        0 <= m < t.len() && #[trigger] t[m]@.outputs.contains(k) by {
        let m = choose|m: int| 0 <= m < s.len() && #[trigger] s[m]@.outputs.contains(k);
        assert(block_covered(s[m], t));
    };
}

proof fn lemma_all_covered_trans(a: Seq<DataFlowBlock>, s: Seq<DataFlowBlock>, t: Seq<DataFlowBlock>)
    requires
        all_covered(a, s),
        all_covered(s, t),
    ensures
        all_covered(a, t),
{
    assert forall|i: int| 0 <= i < a.len() implies #[trigger] block_covered(a[i], t) by {
        lemma_covered_trans(a[i], s, t);
    };
}

proof fn lemma_all_covered_refl(a: Seq<DataFlowBlock>)
    ensures
        all_covered(a, a),
{
    assert forall|i: int| 0 <= i < a.len() implies #[trigger] block_covered(a[i], a) by {
        assert forall|k: NodeKey| #[trigger] a[i]@.inputs.contains(k) implies exists|m: int|
            0 <= m < a.len() && #[trigger] a[m]@.inputs.contains(k) by {};
        assert forall|k: NodeKey| #[trigger] a[i]@.outputs.contains(k) implies exists|m: int|
            0 <= m < a.len() && #[trigger] a[m]@.outputs.contains(k) by {};
    };
}

/// The contexts of the blocks at `i..hi` not yet merged in a round.
spec fn pending_ctx(s: Seq<DataFlowBlock>, used: Seq<bool>, i: int, hi: int) -> Multiset<Seq<char>>
    decreases hi - i,
{
    if hi <= i {
        Multiset::empty()
    } else {
        pending_ctx(s, used, i, hi - 1).add(if used[hi - 1] {
            Multiset::empty()
        } else {
            s[hi - 1]@.ctx.to_multiset()
        })
    }
}

/// With nothing merged yet, the pending contexts are all contexts.
proof fn lemma_pending_all(s: Seq<DataFlowBlock>, used: Seq<bool>, hi: int)
    requires
        0 <= hi <= s.len(),
        used.len() == s.len(),
        forall|q: int| 0 <= q < used.len() ==> !used[q],
    ensures
        pending_ctx(s, used, 0, hi) == all_ctx(s.take(hi)).to_multiset(),
    decreases hi,
{
    broadcast use vstd::seq_lib::lemma_multiset_commutative;
    if hi == 0 {
        assert(all_ctx(s.take(0)) =~= Seq::<Seq<char>>::empty());
        assert(Seq::<Seq<char>>::empty().to_multiset() =~= Multiset::<Seq<char>>::empty()) by {
            broadcast use vstd::seq_lib::group_to_multiset_ensures;
        };
    } else {
        lemma_pending_all(s, used, hi - 1);
        assert(s.take(hi).drop_last() =~= s.take(hi - 1));
        assert(s.take(hi).last() == s[hi - 1]);
    }
}

/// The first block of the range splits off.
proof fn lemma_pending_first(s: Seq<DataFlowBlock>, used: Seq<bool>, i: int, hi: int)
    requires
        0 <= i < hi <= used.len(),
    ensures
        pending_ctx(s, used, i, hi) == (if used[i] {
            Multiset::empty()
        } else {
            s[i]@.ctx.to_multiset()
        }).add(pending_ctx(s, used, i + 1, hi)),
    decreases hi - i,
{
    if hi == i + 1 {
        assert(pending_ctx(s, used, i + 1, hi) == Multiset::<Seq<char>>::empty());
        assert(pending_ctx(s, used, i, i) == Multiset::<Seq<char>>::empty());
        let a: Multiset<Seq<char>> = if used[i] { Multiset::empty() } else { s[i]@.ctx.to_multiset() };
        assert(Multiset::<Seq<char>>::empty().add(a) =~= a.add(Multiset::<Seq<char>>::empty()));
    } else {
        lemma_pending_first(s, used, i, hi - 1);
        let a: Multiset<Seq<char>> = if used[i] { Multiset::empty() } else { s[i]@.ctx.to_multiset() };
        let b: Multiset<Seq<char>> = if used[hi - 1] { Multiset::empty() } else { s[hi - 1]@.ctx.to_multiset() };
        assert(a.add(pending_ctx(s, used, i + 1, hi - 1)).add(b) =~= a.add(pending_ctx(s, used, i + 1, hi - 1).add(b)));
    }
}

/// Marking a block outside the range changes nothing; marking a pending block
/// in the range takes its context out.
proof fn lemma_pending_mark(s: Seq<DataFlowBlock>, used: Seq<bool>, j: int, i: int, hi: int)
    requires
        0 <= i <= hi <= used.len(),
        0 <= j < used.len(),
    ensures
        !(i <= j < hi) ==> pending_ctx(s, used.update(j, true), i, hi) == pending_ctx(s, used, i, hi),
        i <= j < hi && !used[j] ==> pending_ctx(s, used, i, hi) == pending_ctx(s, used.update(j, true), i, hi).add(
            s[j]@.ctx.to_multiset(),
        ),
    decreases hi - i,
{
    if hi > i {
        lemma_pending_mark(s, used, j, i, hi - 1);
        let u2 = used.update(j, true);
        let p1 = pending_ctx(s, used, i, hi - 1);
        let p2 = pending_ctx(s, u2, i, hi - 1);
        let c = s[j]@.ctx.to_multiset();
        if i <= j < hi && !used[j] {
            if j == hi - 1 {
                assert(p1 == p2);
                assert(p1.add(c) =~= p2.add(Multiset::<Seq<char>>::empty()).add(c));
            } else {
                let b: Multiset<Seq<char>> = if used[hi - 1] { Multiset::empty() } else { s[hi - 1]@.ctx.to_multiset() };
                assert(u2[hi - 1] == used[hi - 1]);
                assert(p2.add(c).add(b) =~= p2.add(b).add(c));
            }
        } else if !(i <= j < hi) {
            assert(u2[hi - 1] == used[hi - 1]);
        }
    }
}

/// Merges blocks pairwise, round after round, until no two blocks can be
/// merged. In a round each block is merged with the first later block not yet
/// merged in that round, if any; a block that merges with none is kept.
/// The signals read and driven by the blocks stay those of the given blocks.
pub fn merge_all(res: Vec<DataFlowBlock>) -> (r: Vec<DataFlowBlock>)
    requires
        all_wf(res@),
        scope_consistent(res@),
    ensures
        all_wf(r@),
        scope_consistent(r@),
        no_mergeable_pair(r@),
        r.len() <= res.len(),
        all_covered(res@, r@),
        all_covered(r@, res@),
        no_mergeable_pair(res@) ==> r@ == res@,
        all_ctx(r@).to_multiset() == all_ctx(res@).to_multiset(),
{
    let ghost orig = res@;
    let mut res = res;
    proof {
        lemma_all_covered_refl(orig);
    }
    loop
        invariant
            all_wf(res@),
            scope_consistent(res@),
            res.len() <= orig.len(),
            all_covered(orig, res@),
            all_covered(res@, orig),
            no_mergeable_pair(orig) ==> res@ == orig,
            all_ctx(res@).to_multiset() == all_ctx(orig).to_multiset(),
        ensures
            no_mergeable_pair(res@),
            no_mergeable_pair(orig) ==> res@ == orig,
        decreases res.len(),
    {
        let n = res.len();
        let mut merged: Vec<DataFlowBlock> = Vec::new();
        let mut used: Vec<bool> = Vec::new();
        let mut z: usize = 0;
        while z < n
            invariant
                z <= n,
                used@.len() == z,
                forall|q: int| 0 <= q < z ==> !used@[q],
            decreases n - z,
        {
            used.push(false);
            z = z + 1;
        }
        let mut changed = false;
        let ghost mut pairs: nat = 0;
        proof {
            lemma_pending_all(res@, used@, n as int);
            assert(res@.take(n as int) =~= res@);
            assert(all_ctx(merged@) =~= Seq::<Seq<char>>::empty());
            assert(Seq::<Seq<char>>::empty().to_multiset() =~= Multiset::<Seq<char>>::empty()) by {
                broadcast use vstd::seq_lib::group_to_multiset_ensures;
            };
            assert(Multiset::<Seq<char>>::empty().add(pending_ctx(res@, used@, 0, n as int)) =~= pending_ctx(res@, used@, 0, n as int));
            assert(count_true(used@.skip(0)) == 0) by {
                assert(used@.skip(0) =~= used@);
                lemma_count_zero(used@);
            };
        }
        let mut i: usize = 0;
        while i < n
            invariant
                n == res.len(),
                used@.len() == n,
                i <= n,
                all_wf(res@),
                scope_consistent(res@),
                all_wf(merged@),
                forall|m: int| #![trigger merged@[m]] 0 <= m < merged@.len() ==> exists|j: int| 0 <= j < n
                    && #[trigger] res@[j]@.module_name == merged@[m]@.module_name && res@[j]@.scope
                    == merged@[m]@.scope,
                all_covered(merged@, res@),
                forall|j: int| 0 <= j < n && (j < i || used@[j]) ==> #[trigger] block_covered(res@[j], merged@),
                merged@.len() + pairs == i + count_true(used@.skip(i as int)),
                changed <==> pairs > 0,
                !changed ==> forall|q: int| 0 <= q < n ==> !used@[q],
                !changed ==> forall|p: int, q: int| 0 <= p < i && p < q < n ==> !mergeable(
                    #[trigger] res@[p]@,
                    #[trigger] res@[q]@,
                ),
                no_mergeable_pair(res@) ==> !changed,
                all_ctx(merged@).to_multiset().add(pending_ctx(res@, used@, i as int, n as int)) == all_ctx(res@).to_multiset(),
            decreases n - i,
        {
            proof {
                lemma_count_true_step(used@, i as int);
                lemma_pending_first(res@, used@, i as int, n as int);
            }
            if used[i] {
                proof {
                    let p = pending_ctx(res@, used@, i + 1, n as int);
                    assert(Multiset::<Seq<char>>::empty().add(p) =~= p);
                }
                i = i + 1;
                continue;
            }
            let mut found: Option<(usize, DataFlowBlock)> = None;
            let mut j: usize = i + 1;
            while j < n
                invariant
                    n == res.len(),
                    used@.len() == n,
                    i < n,
                    i < j <= n,
                    !used@[i as int],
                    all_wf(res@),
                    scope_consistent(res@),
                    forall|q: int| i < q < j && !used@[q] ==> !mergeable(res@[i as int]@, #[trigger] res@[q]@),
                    found matches Some(f) ==> mergeable(res@[i as int]@, res@[f.0 as int]@),
                    found matches Some(f) ==> i < f.0 < n && !used@[f.0 as int] && f.1@.bid == res@[i as int]@.bid
                        && f.1@.module_name == res@[i as int]@.module_name && is_merge_of(
                        f.1,
                        res@[i as int],
                        res@[f.0 as int],
                    ) && f.1.wf(),
                ensures
                    found is None ==> j == n,
                decreases n - j,
            {
                if used[j] {
                    j = j + 1;
                    continue;
                }
                assert(res@[i as int]@.module_name == res@[j as int]@.module_name ==> res@[i as int]@.scope
                    == res@[j as int]@.scope);
                match merge_block(&res[i], &res[j]) {
                    Some(blk) => {
                        found = Some((j, blk));
                        break;
                    },
                    None => {},
                }
                j = j + 1;
            }
            let merged_once = found.is_some();
            if let Some((j, blk)) = found {
                let ghost old_used = used@;
                let ghost old_merged = merged@;
                proof {
                    lemma_count_true_set(old_used, i as int, j as int);
                    lemma_count_true_set(old_used.update(j as int, true), i as int, i as int);
                    lemma_count_true_step(old_used.update(j as int, true).update(i as int, true), i as int);
                }
                let ghost bctx = blk@.ctx;
                merged.push(blk);
                used.set(i, true);
                used.set(j, true);
                proof {
                    broadcast use vstd::seq_lib::lemma_multiset_commutative;
                    assert(merged@.drop_last() =~= old_merged);
                    assert(all_ctx(merged@) == all_ctx(old_merged) + bctx);
                    assert(bctx == res@[i as int]@.ctx + res@[j as int]@.ctx);
                    let ci = res@[i as int]@.ctx.to_multiset();
                    let cj = res@[j as int]@.ctx.to_multiset();
                    let u1 = old_used.update(j as int, true);
                    lemma_pending_mark(res@, old_used, j as int, i + 1, n as int);
                    lemma_pending_mark(res@, u1, i as int, i + 1, n as int);
                    assert(used@ =~= u1.update(i as int, true));
                    let p_old = pending_ctx(res@, old_used, i + 1, n as int);
                    let p_new = pending_ctx(res@, used@, i + 1, n as int);
                    assert(p_old == p_new.add(cj));
                    let am = all_ctx(old_merged).to_multiset();
                    assert(all_ctx(merged@).to_multiset() =~= am.add(ci).add(cj));
                    assert(am.add(ci.add(p_old)) =~= am.add(ci).add(cj).add(p_new));
                    assert(used@ == old_used.update(j as int, true).update(i as int, true)) by {
                        assert(used@ =~= old_used.update(i as int, true).update(j as int, true));
                        assert(old_used.update(i as int, true).update(j as int, true) =~= old_used.update(j as int, true).update(i as int, true));
                    };
                    pairs = pairs + 1;
                    let b = merged@[merged@.len() - 1];
                    assert(block_covered(b, res@)) by {
                        assert forall|k: NodeKey| #[trigger] b@.inputs.contains(k) implies exists|m: int|
                            0 <= m < res@.len() && #[trigger] res@[m]@.inputs.contains(k) by {
                            if res@[i as int]@.inputs.contains(k) {} else {}
                        };
                        assert forall|k: NodeKey| #[trigger] b@.outputs.contains(k) implies exists|m: int|
                            0 <= m < res@.len() && #[trigger] res@[m]@.outputs.contains(k) by {
                            if res@[i as int]@.outputs.contains(k) {} else {}
                        };
                    };
                    assert forall|q: int| 0 <= q < n && (q < i + 1 || used@[q]) implies #[trigger] block_covered(res@[q], merged@) by {
                        if q == i || q == j {
                            let last = merged@.len() - 1;
                            assert forall|k: NodeKey| #[trigger] res@[q]@.inputs.contains(k) implies exists|m: int|
                                0 <= m < merged@.len() && #[trigger] merged@[m]@.inputs.contains(k) by {
                                assert(merged@[last]@.inputs.contains(k));
                            };
                            assert forall|k: NodeKey| #[trigger] res@[q]@.outputs.contains(k) implies exists|m: int|
                                0 <= m < merged@.len() && #[trigger] merged@[m]@.outputs.contains(k) by {
                                assert(merged@[last]@.outputs.contains(k));
                            };
                        } else {
                            assert(q < i || old_used[q]);
                            lemma_covered_push(res@[q], old_merged, b);
                        }
                    };
                    assert(all_covered(merged@, res@)) by {
                        assert forall|m: int| 0 <= m < merged@.len() implies #[trigger] block_covered(merged@[m], res@) by {
                            if m < old_merged.len() {
                                assert(merged@[m] == old_merged[m]);
                            }
                        };
                    };
                    assert(all_wf(merged@)) by {
                        assert forall|m: int| 0 <= m < merged@.len() implies #[trigger] merged@[m].wf() by {
                            if m < old_merged.len() {
                                assert(merged@[m] == old_merged[m]);
                            }
                        };
                    };
                    assert forall|m: int| #![trigger merged@[m]] 0 <= m < merged@.len() implies exists|j2: int| 0 <= j2 < n
                        && #[trigger] res@[j2]@.module_name == merged@[m]@.module_name && res@[j2]@.scope
                        == merged@[m]@.scope by {
                        if m < old_merged.len() {
                            assert(merged@[m] == old_merged[m]);
                        } else {
                            assert(res@[i as int]@.module_name == merged@[m]@.module_name);
                        }
                    };
                }
                changed = true;
            }

            if !merged_once {
                let ghost old_merged = merged@;
                let d = res[i].duplicate();
                merged.push(d);
                proof {
                    broadcast use vstd::seq_lib::lemma_multiset_commutative;
                    assert(merged@.drop_last() =~= old_merged);
                    assert(all_ctx(merged@) == all_ctx(old_merged) + res@[i as int]@.ctx);
                    let am = all_ctx(old_merged).to_multiset();
                    let ci = res@[i as int]@.ctx.to_multiset();
                    let p = pending_ctx(res@, used@, i + 1, n as int);
                    assert(am.add(ci.add(p)) =~= am.add(ci).add(p));
                    if !changed {
                        assert forall|p: int, q: int| 0 <= p < i + 1 && p < q < n implies !mergeable(
                            #[trigger] res@[p]@,
                            #[trigger] res@[q]@,
                        ) by {
                            if p == i {
                                assert(!used@[q]);
                            }
                        };
                    }
                    let last = merged@.len() - 1;
                    assert(merged@[last]@ == res@[i as int]@);
                    assert forall|q: int| 0 <= q < n && (q < i + 1 || used@[q]) implies #[trigger] block_covered(res@[q], merged@) by {
                        if q == i {
                            assert forall|k: NodeKey| #[trigger] res@[q]@.inputs.contains(k) implies exists|m: int|
                                0 <= m < merged@.len() && #[trigger] merged@[m]@.inputs.contains(k) by {
                                assert(merged@[last]@.inputs.contains(k));
                            };
                            assert forall|k: NodeKey| #[trigger] res@[q]@.outputs.contains(k) implies exists|m: int|
                                0 <= m < merged@.len() && #[trigger] merged@[m]@.outputs.contains(k) by {
                                assert(merged@[last]@.outputs.contains(k));
                            };
                        } else {
                            lemma_covered_push(res@[q], old_merged, d);
                        }
                    };
                    assert(block_covered(merged@[last], res@)) by {
                        assert forall|k: NodeKey| #[trigger] merged@[last]@.inputs.contains(k) implies exists|m: int|
                            0 <= m < res@.len() && #[trigger] res@[m]@.inputs.contains(k) by {
                            assert(res@[i as int]@.inputs.contains(k));
                        };
                        assert forall|k: NodeKey| #[trigger] merged@[last]@.outputs.contains(k) implies exists|m: int|
                            0 <= m < res@.len() && #[trigger] res@[m]@.outputs.contains(k) by {
                            assert(res@[i as int]@.outputs.contains(k));
                        };
                    };
                    assert(all_covered(merged@, res@)) by {
                        assert forall|m: int| 0 <= m < merged@.len() implies #[trigger] block_covered(merged@[m], res@) by {
                            if m < old_merged.len() {
                                assert(merged@[m] == old_merged[m]);
                            }
                        };
                    };
                    assert(all_wf(merged@)) by {
                        assert forall|m: int| 0 <= m < merged@.len() implies #[trigger] merged@[m].wf() by {
                            if m < old_merged.len() {
                                assert(merged@[m] == old_merged[m]);
                            }
                        };
                    };
                    assert forall|m: int| #![trigger merged@[m]] 0 <= m < merged@.len() implies exists|j2: int| 0 <= j2 < n
                        && #[trigger] res@[j2]@.module_name == merged@[m]@.module_name && res@[j2]@.scope
                        == merged@[m]@.scope by {
                        if m < old_merged.len() {
                            assert(merged@[m] == old_merged[m]);
                        } else {
                            assert(res@[i as int]@.module_name == merged@[m]@.module_name);
                        }
                    };
                }
            }
            i = i + 1;
        }
        proof {
            assert(used@.skip(n as int) =~= Seq::<bool>::empty());
            assert(all_ctx(merged@).to_multiset().add(Multiset::<Seq<char>>::empty()) =~= all_ctx(merged@).to_multiset());
        }
        if !changed {
            break;
        }
        proof {
            lemma_all_covered_trans(orig, res@, merged@);
            lemma_all_covered_trans(merged@, res@, orig);
            assert forall|p: int, q: int|
                0 <= p < merged@.len() && 0 <= q < merged@.len() && #[trigger] merged@[p]@.module_name
                    == #[trigger] merged@[q]@.module_name implies merged@[p]@.scope == merged@[q]@.scope by {
                let jp = choose|j: int| 0 <= j < n && #[trigger] res@[j]@.module_name == merged@[p]@.module_name
                    && res@[j]@.scope == merged@[p]@.scope;
                let jq = choose|j: int| 0 <= j < n && #[trigger] res@[j]@.module_name == merged@[q]@.module_name
                    && res@[j]@.scope == merged@[q]@.scope;
                assert(res@[jp]@.module_name == res@[jq]@.module_name);
            };
        }
        res = merged;
    }
    res
}

proof fn lemma_count_zero(s: Seq<bool>)
    requires
        forall|q: int| 0 <= q < s.len() ==> !s[q],
    ensures
        count_true(s) == 0,
    decreases s.len(),
{
    if s.len() > 0 {
        lemma_count_zero(s.drop_first());
    }
}

/// Why a set of blocks could not be merged into one.
#[derive(Clone, Copy, Debug, PartialEq, Eq, Structural)]
pub enum MergeError {
    /// There was no block to merge.
    EmptyBlocks,
}

/// The contexts of the blocks, one after the other.
pub open spec fn all_ctx(s: Seq<DataFlowBlock>) -> Seq<Seq<char>>
    decreases s.len(),
{
    if s.len() == 0 {
        Seq::empty()
    } else {
        all_ctx(s.drop_last()) + s.last()@.ctx
    }
}

/// Merges all blocks into the first: it keeps the identity, kind, dataflow and
/// source ranges of the first block and gathers the signals read and driven,
/// the context and the signal declarations of all of them.
pub fn merge_all2one(blocks: &[DataFlowBlock]) -> (r: Result<DataFlowBlock, MergeError>)
    requires
        all_wf(blocks@),
    ensures
        r is Err <==> blocks@.len() == 0,
        r matches Err(e) ==> e == MergeError::EmptyBlocks,
        r matches Ok(m) ==> {
            &&& m@.bid == blocks@[0]@.bid
            &&& m@.module_name == blocks@[0]@.module_name
            &&& m@.scope == blocks@[0]@.scope
            &&& m@.block_type == blocks@[0]@.block_type
            &&& m@.dataflow == blocks@[0]@.dataflow
            &&& m@.suspicious_variables == blocks@[0]@.suspicious_variables
            &&& m@.suspicious_trace == blocks@[0]@.suspicious_trace
            &&& m@.ast_ranges == blocks@[0]@.ast_ranges
            &&& forall|k: NodeKey| #[trigger] m@.inputs.contains(k) <==> exists|j: int|
                0 <= j < blocks@.len() && #[trigger] blocks@[j]@.inputs.contains(k)
            &&& forall|k: NodeKey| #[trigger] m@.outputs.contains(k) <==> exists|j: int|
                0 <= j < blocks@.len() && #[trigger] blocks@[j]@.outputs.contains(k)
            &&& forall|d: Seq<char>| #[trigger] m@.sig_decls.contains(d) <==> exists|j: int|
                0 <= j < blocks@.len() && #[trigger] blocks@[j]@.sig_decls.contains(d)
            &&& m@.ctx == all_ctx(blocks@)
            &&& m.wf()
        },
{
    if blocks.len() == 0 {
        return Err(MergeError::EmptyBlocks);
    }
    let mut m = blocks[0].duplicate();
    let mut i: usize = 1;
    proof {
        assert(blocks@.take(1).drop_last() =~= Seq::<DataFlowBlock>::empty());
        assert(all_ctx(blocks@.take(1).drop_last()) == Seq::<Seq<char>>::empty());
        assert(blocks@.take(1).last() == blocks@[0]);
        assert(Seq::<Seq<char>>::empty() + blocks@[0]@.ctx =~= blocks@[0]@.ctx);
        assert(all_ctx(blocks@.take(1)) == blocks@[0]@.ctx);
    }
    while i < blocks.len()
        invariant
            1 <= i <= blocks@.len(),
            all_wf(blocks@),
            m.wf(),
            m@.bid == blocks@[0]@.bid,
            m@.module_name == blocks@[0]@.module_name,
            m@.scope == blocks@[0]@.scope,
            m@.block_type == blocks@[0]@.block_type,
            m@.dataflow == blocks@[0]@.dataflow,
            m@.suspicious_variables == blocks@[0]@.suspicious_variables,
            m@.suspicious_trace == blocks@[0]@.suspicious_trace,
            m@.ast_ranges == blocks@[0]@.ast_ranges,
            forall|k: NodeKey| #[trigger] m@.inputs.contains(k) <==> exists|j: int|
                0 <= j < i && #[trigger] blocks@[j]@.inputs.contains(k),
            forall|k: NodeKey| #[trigger] m@.outputs.contains(k) <==> exists|j: int|
                0 <= j < i && #[trigger] blocks@[j]@.outputs.contains(k),
            forall|d: Seq<char>| #[trigger] m@.sig_decls.contains(d) <==> exists|j: int|
                0 <= j < i && #[trigger] blocks@[j]@.sig_decls.contains(d),
            m@.ctx == all_ctx(blocks@.take(i as int)),
        decreases blocks.len() - i,
    {
        let b = &blocks[i];
        let ghost before = m@;
        let inputs = union_nodes(&m.inputs, &b.inputs);
        let outputs = union_nodes(&m.outputs, &b.outputs);
        let sig_decls = union_strings(&m.sig_decls, &b.sig_decls);
        let ctx = concat_strings(&m.ctx, &b.ctx);
        m.inputs = inputs;
        m.outputs = outputs;
        m.sig_decls = sig_decls;
        m.ctx = ctx;
        proof {
            assert(blocks@.take(i + 1).drop_last() =~= blocks@.take(i as int));
            assert(blocks@[i as int].wf());
            assert forall|k: NodeKey| #[trigger] m@.inputs.contains(k) <==> exists|j: int|
                0 <= j < i + 1 && #[trigger] blocks@[j]@.inputs.contains(k) by {
                if blocks@[i as int]@.inputs.contains(k) {}
                if before.inputs.contains(k) {}
            };
            assert forall|k: NodeKey| #[trigger] m@.outputs.contains(k) <==> exists|j: int|
                0 <= j < i + 1 && #[trigger] blocks@[j]@.outputs.contains(k) by {
                if blocks@[i as int]@.outputs.contains(k) {}
                if before.outputs.contains(k) {}
            };
            assert forall|d: Seq<char>| #[trigger] m@.sig_decls.contains(d) <==> exists|j: int|
                0 <= j < i + 1 && #[trigger] blocks@[j]@.sig_decls.contains(d) by {
                if blocks@[i as int]@.sig_decls.contains(d) {}
                if before.sig_decls.contains(d) {}
            };
        }
        i = i + 1;
    }
    assert(blocks@.take(blocks@.len() as int) == blocks@);
    Ok(m)
}

} // verus!
