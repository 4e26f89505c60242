//! The block manager: the blocks of every scope of the design, with what is
//! needed to map their positions back to the original source.
use vstd::prelude::*;
use vstd::string::StringSliceAdditionalSpecFns;

use crate::block::{contains_text, key_texts, BlockType, NodeKey};
use crate::dfb::{strings_view, BlockView, DataFlowBlock};
use crate::position::{get_pos_from_offset, pos_from_offset};
use crate::text::{chars_of, str_eq, string_from_chars, string_of};

verus! {

/// A position in the preprocessed source, as the parser reports it.
#[derive(Clone, Copy, Debug, PartialEq, Eq, Structural)]
pub struct SrcLocate {
    pub offset: usize,
    pub line: u32,
    pub len: usize,
}

/// The blocks of one scope (a module instance), with the origin of positions
/// of the preprocessed source: each pair maps a preprocessed offset to the
/// offset in the original file, as the preprocessor records it.
pub struct ScopeBlocks {
    pub scope: String,
    pub blocks: Vec<DataFlowBlock>,
    pub origins: Vec<(usize, usize)>,
    /// The preprocessed offset of the last token of the scope's module.
    pub last_offset: usize,
}

/// The blocks of all scopes and the source of all modules.
pub struct BlockManager {
    pub scope_block_mapping: Vec<ScopeBlocks>,
    /// (module name, source text)
    pub module_code_mapping: Vec<(String, String)>,
    /// (scope name, number of the last line of its module in the original source)
    pub scope_max_line: Vec<(String, usize)>,
    /// (scope name, name of its module)
    pub scope_module_name: Vec<(String, String)>,
}

/// The keys of a table occur once each.
pub open spec fn keys_unique<V>(t: Seq<(String, V)>) -> bool {
    forall|i: int, j: int| 0 <= i < j < t.len() ==> t[i].0@ != t[j].0@
}

/// The table has the key `k`.
pub open spec fn has_key<V>(t: Seq<(String, V)>, k: Seq<char>) -> bool {
    exists|i: int| 0 <= i < t.len() && t[i].0@ == k
}

/// The value of the key `k`, if the table has it.
pub open spec fn table_get<V>(t: Seq<(String, V)>, k: Seq<char>) -> Option<V> {
    if has_key(t, k) {
        Some(t[choose|i: int| 0 <= i < t.len() && t[i].0@ == k].1)
    } else {
        None
    }
}

/// The value recorded for a key of a table without duplicate keys.
pub proof fn lemma_table_get<V>(t: Seq<(String, V)>, i: int)
    requires
        keys_unique(t),
        0 <= i < t.len(),
    ensures
        table_get(t, t[i].0@) == Some(t[i].1),
{
    let j = choose|j: int| 0 <= j < t.len() && t[j].0@ == t[i].0@;
    if j != i {
        if j < i {
            assert(t[j].0@ != t[i].0@);
        } else {
            assert(t[i].0@ != t[j].0@);
        }
    }
}

/// Finds the key `k` in a table.
pub fn find_key<V>(t: &Vec<(String, V)>, k: &str) -> (r: Option<usize>)
    ensures
        r matches Some(i) ==> i < t@.len() && t@[i as int].0@ == k@,
        r is None ==> !has_key(t@, k@),
{
    let mut i: usize = 0;
    while i < t.len()
        invariant
            i <= t.len(),
            forall|j: int| 0 <= j < i ==> t@[j].0@ != k@,
        decreases t.len() - i,
    {
        if str_eq(t[i].0.as_str(), k) {
            return Some(i);
        }
        i = i + 1;
    }
    None
}

/// The scope names of a sequence of scopes.
pub open spec fn scope_names(s: Seq<ScopeBlocks>) -> Seq<Seq<char>> {
    s.map_values(|e: ScopeBlocks| e.scope@)
}

/// The original offset recorded for the preprocessed offset `off`: that of the
/// first entry for it.
pub open spec fn origin_of(t: Seq<(usize, usize)>, off: usize) -> Option<usize>
    decreases t.len(),
{
    if t.len() == 0 {
        None
    } else if t[0].0 == off {
        Some(t[0].1)
    } else {
        origin_of(t.drop_first(), off)
    }
}

/// Looks up the original offset of a preprocessed offset.
pub fn find_origin(t: &Vec<(usize, usize)>, off: usize) -> (r: Option<usize>)
    ensures
        r == origin_of(t@, off),
{
    let mut i: usize = 0;
    assert(t@.skip(0) == t@);
    while i < t.len()
        invariant
            i <= t.len(),
            origin_of(t@, off) == origin_of(t@.skip(i as int), off),
        decreases t.len() - i,
    {
        assert(t@.skip(i as int).drop_first() == t@.skip(i + 1));
        if t[i].0 == off {
            return Some(t[i].1);
        }
        i = i + 1;
    }
    None
}

/// The row that `get_pos_from_offset` gives for `off` in `code`.
pub open spec fn row_of(code: Seq<u8>, off: usize) -> Option<int> {
    match pos_from_offset(code, off as int) {
        Some(p) => Some(p.1),
        None => None,
    }
}

/// The texts a block drives.
pub open spec fn driven_texts(b: BlockView) -> Seq<Seq<char>> {
    key_texts(b.outputs)
}

/// The position of the first block that drives `sig`.
pub open spec fn first_driver(bs: Seq<DataFlowBlock>, sig: Seq<char>) -> Option<int>
    decreases bs.len(),
{
    if bs.len() == 0 {
        None
    } else if driven_texts(bs[0]@).contains(sig) {
        Some(0)
    } else {
        match first_driver(bs.drop_first(), sig) {
            Some(i) => Some(i + 1),
            None => None,
        }
    }
}

/// The position of the first block that has `p`.
pub open spec fn first_with(bs: Seq<DataFlowBlock>, p: spec_fn(DataFlowBlock) -> bool) -> Option<int>
    decreases bs.len(),
{
    if bs.len() == 0 {
        None
    } else if p(bs[0]) {
        Some(0)
    } else {
        match first_with(bs.drop_first(), p) {
            Some(i) => Some(i + 1),
            None => None,
        }
    }
}

/// Blocks with the id `bid`.
pub open spec fn with_bid(bid: u64) -> spec_fn(DataFlowBlock) -> bool {
    |b: DataFlowBlock| b.bid == bid
}

/// The blocks of all scopes, one scope after the other.
pub open spec fn all_blocks(s: Seq<ScopeBlocks>) -> Seq<DataFlowBlock>
    decreases s.len(),
{
    if s.len() == 0 {
        Seq::empty()
    } else {
        all_blocks(s.drop_last()) + s.last().blocks@
    }
}

impl BlockManager {
    /// Scope names occur once, the tables follow the scopes, every block is
    /// well formed and belongs to the scope it is filed under.
    pub open spec fn wf(&self) -> bool {
        &&& forall|i: int, j: int| 0 <= i < j < self.scope_block_mapping@.len()
            ==> self.scope_block_mapping@[i].scope@ != self.scope_block_mapping@[j].scope@
        &&& keys_unique(self.module_code_mapping@)
        &&& forall|i: int| 0 <= i < self.module_code_mapping@.len() ==> (#[trigger] self.module_code_mapping@[i]).1@.len() < usize::MAX
            && vstd::utf8::encode_utf8(self.module_code_mapping@[i].1@).len() < usize::MAX
        &&& self.scope_max_line@.len() == self.scope_block_mapping@.len()
        &&& self.scope_module_name@.len() == self.scope_block_mapping@.len()
        &&& forall|i: int| 0 <= i < self.scope_block_mapping@.len() ==> {
            &&& #[trigger] self.scope_max_line@[i].0@ == self.scope_block_mapping@[i].scope@
            &&& self.scope_module_name@[i].0@ == self.scope_block_mapping@[i].scope@
        }
        &&& forall|i: int, j: int|
            0 <= i < self.scope_block_mapping@.len() && 0 <= j < self.scope_block_mapping@[i].blocks@.len()
                ==> #[trigger] self.scope_block_mapping@[i].blocks@[j].wf()
                && self.scope_block_mapping@[i].blocks@[j]@.scope == self.scope_block_mapping@[i].scope@
    }

    /// The manager has the scope `name`.
    pub open spec fn has_scope(&self, name: Seq<char>) -> bool {
        scope_names(self.scope_block_mapping@).contains(name)
    }

    /// The position of the scope `name`.
    pub open spec fn scope_pos(&self, name: Seq<char>) -> int {
        choose|i: int| 0 <= i < self.scope_block_mapping@.len() && self.scope_block_mapping@[i].scope@ == name
    }

    /// The blocks of the scope `name` (none for an unknown scope).
    pub open spec fn blocks_of(&self, name: Seq<char>) -> Seq<DataFlowBlock> {
        if self.has_scope(name) {
            self.scope_block_mapping@[self.scope_pos(name)].blocks@
        } else {
            Seq::empty()
        }
    }

    /// The scope at `i` is the scope of its name.
    pub proof fn lemma_scope_pos(&self, i: int)
        requires
            self.wf(),
            0 <= i < self.scope_block_mapping@.len(),
        ensures
            self.has_scope(self.scope_block_mapping@[i].scope@),
            self.scope_pos(self.scope_block_mapping@[i].scope@) == i,
            self.blocks_of(self.scope_block_mapping@[i].scope@) == self.scope_block_mapping@[i].blocks@,
    {
        let name = self.scope_block_mapping@[i].scope@;
        assert(scope_names(self.scope_block_mapping@)[i] == name);
        let j = self.scope_pos(name);
        if j != i {
            if j < i {
                assert(self.scope_block_mapping@[j].scope@ != self.scope_block_mapping@[i].scope@);
            } else {
                assert(self.scope_block_mapping@[i].scope@ != self.scope_block_mapping@[j].scope@);
            }
        }
    }

    /// Finds the scope `name`.
    pub fn find_scope(&self, name: &str) -> (r: Option<usize>)
        requires
            self.wf(),
        ensures
            r is Some <==> self.has_scope(name@),
            r matches Some(i) ==> i < self.scope_block_mapping@.len() && self.scope_block_mapping@[i as int].scope@
                == name@ && self.scope_pos(name@) == i,
    {
        let mut i: usize = 0;
        while i < self.scope_block_mapping.len()
            invariant
                self.wf(),
                i <= self.scope_block_mapping.len(),
                forall|j: int| 0 <= j < i ==> self.scope_block_mapping@[j].scope@ != name@,
            decreases self.scope_block_mapping.len() - i,
        {
            if str_eq(self.scope_block_mapping[i].scope.as_str(), name) {
                proof {
                    self.lemma_scope_pos(i as int);
                }
                return Some(i);
            }
            i = i + 1;
        }
        assert(!self.has_scope(name@)) by {
            if self.has_scope(name@) {
                let j = choose|j: int| 0 <= j < scope_names(self.scope_block_mapping@).len() && scope_names(
                    self.scope_block_mapping@,
                )[j] == name@;
                assert(self.scope_block_mapping@[j].scope@ == name@);
            }
        };
        None
    }

    /// The names of all scopes.
    pub fn get_scopes(&self) -> (r: Vec<String>)
        ensures
            strings_view(r@) == scope_names(self.scope_block_mapping@),
    {
        let mut r: Vec<String> = Vec::new();
        let mut i: usize = 0;
        while i < self.scope_block_mapping.len()
            invariant
                i <= self.scope_block_mapping.len(),
                strings_view(r@) == scope_names(self.scope_block_mapping@.take(i as int)),
            decreases self.scope_block_mapping.len() - i,
        {
            let ghost before = r@;
            r.push(self.scope_block_mapping[i].scope.clone());
            assert(strings_view(r@) =~= strings_view(before).push(self.scope_block_mapping@[i as int].scope@));
            assert(scope_names(self.scope_block_mapping@.take(i + 1)) =~= scope_names(
                self.scope_block_mapping@.take(i as int),
            ).push(self.scope_block_mapping@[i as int].scope@));
            i = i + 1;
        }
        assert(self.scope_block_mapping@.take(self.scope_block_mapping@.len() as int) == self.scope_block_mapping@);
        r
    }

    /// The blocks of the scope `scope_name`, if the manager has it.
    pub fn get_scope_blocks(&self, scope_name: &str) -> (r: Option<&Vec<DataFlowBlock>>)
        requires
            self.wf(),
        ensures
            r is Some <==> self.has_scope(scope_name@),
            r matches Some(v) ==> v@ == self.blocks_of(scope_name@),
    {
        match self.find_scope(scope_name) {
            Some(i) => Some(&self.scope_block_mapping[i].blocks),
            None => None,
        }
    }

    /// The last line of the module of a scope in its original source.
    pub fn get_scope_max_lineno(&self, scope_name: &str) -> (r: Option<usize>)
        requires
            self.wf(),
        ensures
            r == (if self.has_scope(scope_name@) {
                Some(self.scope_max_line@[self.scope_pos(scope_name@)].1)
            } else {
                None
            }),
    {
        match self.find_scope(scope_name) {
            Some(i) => Some(self.scope_max_line[i].1),
            None => None,
        }
    }

    /// The name of the module of a scope.
    pub fn get_scope_module_name(&self, scope_name: &str) -> (r: Option<String>)
        requires
            self.wf(),
        ensures
            r is Some <==> self.has_scope(scope_name@),
            r matches Some(m) ==> m@ == self.scope_module_name@[self.scope_pos(scope_name@)].1@,
    {
        match self.find_scope(scope_name) {
            Some(i) => Some(self.scope_module_name[i].1.clone()),
            None => None,
        }
    }

    /// A copy of the first block of a scope that drives `signal`.
    pub fn get_driven_block(&self, scope_name: &str, signal: &str) -> (r: Option<DataFlowBlock>)
        requires
            self.wf(),
        ensures
            r is Some <==> first_driver(self.blocks_of(scope_name@), signal@) is Some,
            r matches Some(b) ==> b@ == self.blocks_of(scope_name@)[first_driver(
                self.blocks_of(scope_name@),
                signal@,
            ).unwrap()]@ && b.wf(),
    {
        let i = match self.find_scope(scope_name) {
            Some(i) => i,
            None => {
                return None;
            },
        };
        let blocks = &self.scope_block_mapping[i].blocks;
        let mut j: usize = 0;
        assert(blocks@.skip(0) == blocks@);
        while j < blocks.len()
            invariant
                i < self.scope_block_mapping@.len(),
                blocks@ == self.blocks_of(scope_name@),
                self.wf(),
                self.scope_pos(scope_name@) == i,
                j <= blocks.len(),
                first_driver(blocks@, signal@) == (match first_driver(blocks@.skip(j as int), signal@) {
                    Some(k) => Some(k + j),
                    None => None,
                }),
            decreases blocks.len() - j,
        {
            assert(blocks@.skip(j as int).drop_first() == blocks@.skip(j + 1));
            assert(blocks@.skip(j as int)[0] == blocks@[j as int]);
            if contains_text(&blocks[j].outputs, signal) {
                assert(self.scope_block_mapping@[i as int].blocks@[j as int].wf());
                return Some(blocks[j].duplicate());
            }
            j = j + 1;
        }
        None
    }

    /// A copy of the first block, over all scopes in order, with the id `bid`.
    pub fn get_block_by_bid(&self, bid: u64) -> (r: Option<DataFlowBlock>)
        ensures
            r is Some <==> first_with(all_blocks(self.scope_block_mapping@), with_bid(bid))
                is Some,
            r matches Some(b) ==> b@ == all_blocks(self.scope_block_mapping@)[first_with(
                all_blocks(self.scope_block_mapping@),
                with_bid(bid),
            ).unwrap()]@,
    {
        let ghost p = with_bid(bid);
        let mut flat: Vec<bool> = Vec::new();
        let mut refs: Vec<(usize, usize)> = Vec::new();
        let mut i: usize = 0;
        proof {
            assert(self.scope_block_mapping@.take(0).len() == 0);
            assert(all_blocks(self.scope_block_mapping@.take(0)) =~= Seq::<DataFlowBlock>::empty());
        }
        while i < self.scope_block_mapping.len()
            invariant
                i <= self.scope_block_mapping.len(),
                flat@.len() == refs@.len(),
                refs@.len() == all_blocks(self.scope_block_mapping@.take(i as int)).len(),
                forall|q: int| 0 <= q < refs@.len() ==> {
                    &&& (#[trigger] refs@[q]).0 < i
                    &&& refs@[q].1 < self.scope_block_mapping@[refs@[q].0 as int].blocks@.len()
                    &&& self.scope_block_mapping@[refs@[q].0 as int].blocks@[refs@[q].1 as int]
                        == all_blocks(self.scope_block_mapping@.take(i as int))[q]
                    &&& flat@[q] == (all_blocks(self.scope_block_mapping@.take(i as int))[q].bid == bid)
                },
            decreases self.scope_block_mapping.len() - i,
        {
            let blocks = &self.scope_block_mapping[i].blocks;
            let ghost prev = all_blocks(self.scope_block_mapping@.take(i as int));
            proof {
                assert(self.scope_block_mapping@.take(i + 1).drop_last() =~= self.scope_block_mapping@.take(i as int));
                assert(all_blocks(self.scope_block_mapping@.take(i + 1)) == prev + blocks@);
            }
            let mut j: usize = 0;
            while j < blocks.len()
                invariant
                    i < self.scope_block_mapping.len(),
                    blocks@ == self.scope_block_mapping@[i as int].blocks@,
                    j <= blocks.len(),
                    flat@.len() == refs@.len(),
                    refs@.len() == prev.len() + j,
                    forall|q: int| 0 <= q < refs@.len() ==> {
                        &&& (#[trigger] refs@[q]).0 <= i
                        &&& refs@[q].1 < self.scope_block_mapping@[refs@[q].0 as int].blocks@.len()
                        &&& self.scope_block_mapping@[refs@[q].0 as int].blocks@[refs@[q].1 as int] == (prev
                            + blocks@)[q]
                        &&& flat@[q] == ((prev + blocks@)[q].bid == bid)
                    },
                decreases blocks.len() - j,
            {
                let ghost old_refs = refs@;
                let ghost old_flat = flat@;
                flat.push(blocks[j].bid == bid);
                refs.push((i, j));
                proof {
                    assert((prev + blocks@)[prev.len() + j] == blocks@[j as int]);
                    assert forall|q: int| 0 <= q < refs@.len() implies {
                        &&& (#[trigger] refs@[q]).0 <= i
                        &&& refs@[q].1 < self.scope_block_mapping@[refs@[q].0 as int].blocks@.len()
                        &&& self.scope_block_mapping@[refs@[q].0 as int].blocks@[refs@[q].1 as int] == (prev
                            + blocks@)[q]
                        &&& flat@[q] == ((prev + blocks@)[q].bid == bid)
                    } by {
                        if q < old_refs.len() {
                            assert(refs@[q] == old_refs[q]);
                            assert(flat@[q] == old_flat[q]);
                        }
                    };
                }
                j = j + 1;
            }
            i = i + 1;
        }
        let ghost all = all_blocks(self.scope_block_mapping@);
        assert(self.scope_block_mapping@.take(self.scope_block_mapping@.len() as int) == self.scope_block_mapping@);
        let mut q: usize = 0;
        assert(all.skip(0) == all);
        while q < flat.len()
            invariant
                flat@.len() == refs@.len(),
                refs@.len() == all.len(),
                forall|q2: int| 0 <= q2 < refs@.len() ==> {
                    &&& (#[trigger] refs@[q2]).0 < self.scope_block_mapping@.len()
                    &&& refs@[q2].1 < self.scope_block_mapping@[refs@[q2].0 as int].blocks@.len()
                    &&& self.scope_block_mapping@[refs@[q2].0 as int].blocks@[refs@[q2].1 as int] == all[q2]
                    &&& flat@[q2] == (all[q2].bid == bid)
                },
                q <= flat.len(),
                p == with_bid(bid),
                all == all_blocks(self.scope_block_mapping@),
                first_with(all, p) == (match first_with(all.skip(q as int), p) {
                    Some(k) => Some(k + q),
                    None => None,
                }),
            decreases flat.len() - q,
        {
            assert(all.skip(q as int).drop_first() == all.skip(q + 1));
            assert(all.skip(q as int)[0] == all[q as int]);
            assert(flat@[q as int] == (all[q as int].bid == bid)) by {
                assert(refs@[q as int].0 < self.scope_block_mapping@.len());
            };
            if flat[q] {
                assert(p(all[q as int]));
                assert(first_with(all.skip(q as int), p) == Some(0int));
                let (a, b) = refs[q];
                return Some(self.scope_block_mapping[a].blocks[b].duplicate());
            }
            assert(!p(all[q as int]));
            q = q + 1;
        }
        assert(all.skip(q as int) =~= Seq::<DataFlowBlock>::empty());
        None
    }

    /// A manager over the given scopes and module sources. The last line of
    /// each scope's module is found through the origin of the scope's last
    /// token and the source of the module of its first block.
    pub fn new(scopes: Vec<ScopeBlocks>, module_code_mapping: Vec<(String, String)>) -> (r: BlockManager)
        requires
            new_inputs_ok(scopes@, module_code_mapping@),
        ensures
            r.wf(),
            r.scope_block_mapping@ == scopes@,
            r.module_code_mapping@ == module_code_mapping@,
            forall|i: int| 0 <= i < scopes@.len() ==> {
                &&& #[trigger] r.scope_max_line@[i].1 == max_line_of(scopes@[i], module_code_mapping@)
                &&& r.scope_module_name@[i].1@ == scopes@[i].blocks@[0]@.module_name
            },
    {
        let mut max_lines: Vec<(String, usize)> = Vec::new();
        let mut names: Vec<(String, String)> = Vec::new();
        let mut i: usize = 0;
        while i < scopes.len()
            invariant
                new_inputs_ok(scopes@, module_code_mapping@),
                i <= scopes.len(),
                max_lines@.len() == i,
                names@.len() == i,
                forall|j: int| 0 <= j < i ==> {
                    &&& (#[trigger] max_lines@[j]).0@ == scopes@[j].scope@
                    &&& max_lines@[j].1 == max_line_of(scopes@[j], module_code_mapping@)
                    &&& names@[j].0@ == scopes@[j].scope@
                    &&& names@[j].1@ == scopes@[j].blocks@[0]@.module_name
                },
            decreases scopes.len() - i,
        {
            let sb = &scopes[i];
            assert(scope_line_ok(scopes@[i as int], module_code_mapping@));
            assert(sb.blocks@.len() > 0);
            let module_name = sb.blocks[0].module_name.as_str();
            let off = find_origin(&sb.origins, sb.last_offset).unwrap();
            let k = find_key(&module_code_mapping, module_name).unwrap();
            proof {
                lemma_table_get(module_code_mapping@, k as int);
            }
            let code = module_code_mapping[k].1.as_str();
            let row = get_pos_from_offset(code, off).unwrap().1;
            max_lines.push((sb.scope.clone(), row));
            names.push((sb.scope.clone(), sb.blocks[0].module_name.clone()));
            i = i + 1;
        }
        let r = BlockManager {
            scope_block_mapping: scopes,
            module_code_mapping,
            scope_max_line: max_lines,
            scope_module_name: names,
        };
        assert forall|i: int, j: int|
            0 <= i < r.scope_block_mapping@.len() && 0 <= j < r.scope_block_mapping@[i].blocks@.len() implies
            #[trigger] r.scope_block_mapping@[i].blocks@[j].wf() && r.scope_block_mapping@[i].blocks@[j]@.scope
                == r.scope_block_mapping@[i].scope@ by {
            assert(r.scope_block_mapping@[i] == scopes@[i]);
            assert(scope_blocks_ok(scopes@[i]));
            assert(scopes@[i].blocks@[j].wf());
        };
        assert forall|i: int| 0 <= i < r.scope_block_mapping@.len() implies {
            &&& #[trigger] r.scope_max_line@[i].0@ == r.scope_block_mapping@[i].scope@
            &&& r.scope_module_name@[i].0@ == r.scope_block_mapping@[i].scope@
        } by {
            assert(max_lines@[i].0@ == scopes@[i].scope@);
        };
        r
    }

    /// For every block of every scope: its id, scope, kind and number of
    /// source lines (the line feeds of its joined context, plus one).
    pub fn blocks_distribution(&self) -> (r: Vec<(u64, String, BlockType, usize)>)
        ensures
            distribution_view(r@) == distribution(self.scope_block_mapping@),
    {
        let mut r: Vec<(u64, String, BlockType, usize)> = Vec::new();
        let mut i: usize = 0;
        assert(distribution(self.scope_block_mapping@.take(0)) =~= Seq::<(u64, Seq<char>, BlockType, usize)>::empty());
        while i < self.scope_block_mapping.len()
            invariant
                i <= self.scope_block_mapping.len(),
                distribution_view(r@) == distribution(self.scope_block_mapping@.take(i as int)),
            decreases self.scope_block_mapping.len() - i,
        {
            let sb = &self.scope_block_mapping[i];
            let ghost base = distribution_view(r@);
            assert(self.scope_block_mapping@.take(i + 1).drop_last() =~= self.scope_block_mapping@.take(i as int));
            let mut j: usize = 0;
            while j < sb.blocks.len()
                invariant
                    j <= sb.blocks.len(),
                    distribution_view(r@) == base + scope_distribution(sb.scope@, sb.blocks@.take(j as int)),
                decreases sb.blocks.len() - j,
            {
                let b = &sb.blocks[j];
                let text = join_lines(&b.ctx);
                let cs = chars_of(text.as_str());
                let mut n: usize = 0;
                let mut k: usize = 0;
                while k < cs.len()
                    invariant
                        k <= cs.len(),
                        n <= k,
                        n == count_lf_chars(cs@.take(k as int)),
                    decreases cs.len() - k,
                {
                    assert(cs@.take(k + 1).drop_last() =~= cs@.take(k as int));
                    if cs[k] == '\n' {
                        n = n + 1;
                    }
                    k = k + 1;
                }
                assert(cs@.take(cs@.len() as int) == cs@);
                let ghost before = r@;
                r.push((b.bid, sb.scope.clone(), b.block_type, n.saturating_add(1)));
                assert(sb.blocks@.take(j + 1).drop_last() =~= sb.blocks@.take(j as int));
                assert(distribution_view(r@) =~= distribution_view(before).push(
                    (b.bid, sb.scope@, b.block_type, block_size(b@.ctx)),
                ));
                j = j + 1;
            }
            assert(sb.blocks@.take(sb.blocks@.len() as int) == sb.blocks@);
            i = i + 1;
        }
        assert(self.scope_block_mapping@.take(self.scope_block_mapping@.len() as int) == self.scope_block_mapping@);
        r
    }

    /// A snippet of each signal's driving block in a scope: the signal, the
    /// block's id and its context lines joined by line feeds. Signals that no
    /// block of the scope drives are left out.
    pub fn get_block_snippet(&self, scope_name: &str, signals: &Vec<String>) -> (r: Vec<(String, u64, String)>)
        requires
            self.wf(),
        ensures
            snippet_view(r@) == snippets(self.blocks_of(scope_name@), strings_view(signals@)),
    {
        let mut r: Vec<(String, u64, String)> = Vec::new();
        let mut i: usize = 0;
        while i < signals.len()
            invariant
                self.wf(),
                i <= signals.len(),
                snippet_view(r@) == snippets(self.blocks_of(scope_name@), strings_view(signals@.take(i as int))),
            decreases signals.len() - i,
        {
            let ghost before = r@;
            proof {
                assert(signals@.take(i + 1).drop_last() =~= signals@.take(i as int));
                assert(strings_view(signals@.take(i + 1)) =~= strings_view(signals@.take(i as int)).push(signals@[i as int]@));
                assert(strings_view(signals@.take(i + 1)).drop_last() =~= strings_view(signals@.take(i as int)));
            }
            match self.get_driven_block(scope_name, signals[i].as_str()) {
                Some(blk) => {
                    let text = join_lines(&blk.ctx);
                    r.push((signals[i].clone(), blk.bid, text));
                    assert(snippet_view(r@) =~= snippet_view(before).push((signals@[i as int]@, blk.bid, join_spec(blk@.ctx))));
                },
                None => {},
            }
            i = i + 1;
        }
        assert(signals@.take(signals@.len() as int) == signals@);
        r
    }

    /// The covered modules the tools report, rendered as a list: the scope
    /// named `ibex_alu`, if there is one.
    pub fn get_modules_covered(&self) -> (r: String)
        ensures
            r@ == spec_debug_strings(scope_names(self.scope_block_mapping@).filter(|n: Seq<char>| n == alu_scope())),
    {
        let names = self.get_scopes();
        let mut kept: Vec<String> = Vec::new();
        let mut i: usize = 0;
        let ghost all = scope_names(self.scope_block_mapping@);
        while i < names.len()
            invariant
                i <= names.len(),
                strings_view(names@) == all,
                strings_view(kept@) == all.take(i as int).filter(|n: Seq<char>| n == alu_scope()),
            decreases names.len() - i,
        {
            let ghost before = kept@;
            proof {
                assert(all.take(i + 1).drop_last() =~= all.take(i as int));
                reveal(Seq::filter);
            }
            if str_eq(names[i].as_str(), alu_scope_str()) {
                kept.push(names[i].clone());
                assert(strings_view(kept@) =~= strings_view(before).push(names@[i as int]@));
            }
            i = i + 1;
        }
        assert(all.take(all.len() as int) == all);
        debug_strings(&kept)
    }

    /// The signals a scope's output port block was left by, rendered as a
    /// list; empty text for an unknown scope.
    pub fn get_suspicious_ports(&self, scope_name: &str) -> (r: String)
        requires
            self.wf(),
        ensures
            r@ == (if self.has_scope(scope_name@) {
                spec_debug_strings(port_trace_texts(self.blocks_of(scope_name@)))
            } else {
                Seq::empty()
            }),
    {
        let i = match self.find_scope(scope_name) {
            Some(i) => i,
            None => {
                let e = string_from_chars(&Vec::new());
                assert(e@ =~= Seq::<char>::empty());
                return e;
            },
        };
        let blocks = &self.scope_block_mapping[i].blocks;
        let mut j: usize = 0;
        assert(blocks@.skip(0) == blocks@);
        while j < blocks.len()
            invariant
                blocks@ == self.blocks_of(scope_name@),
                j <= blocks.len(),
                port_trace_texts(blocks@) == port_trace_texts(blocks@.skip(j as int)),
            decreases blocks.len() - j,
        {
            assert(blocks@.skip(j as int).drop_first() == blocks@.skip(j + 1));
            assert(blocks@.skip(j as int)[0] == blocks@[j as int]);
            if blocks[j].block_type == BlockType::ModuleOutput {
                let mut texts: Vec<String> = Vec::new();
                match &blocks[j].suspicious_trace {
                    Some(t) => {
                        let mut k: usize = 0;
                        while k < t.1.len()
                            invariant
                                k <= t.1.len(),
                                strings_view(texts@) == trace_texts(crate::dfb::timed_keys(t.1@).take(k as int)),
                            decreases t.1.len() - k,
                        {
                            let ghost before = texts@;
                            texts.push(string_of(t.1[k].0.get_text()));
                            assert(strings_view(texts@) =~= strings_view(before).push(crate::block::node_text(t.1@[k as int].0@)));
                            assert(crate::dfb::timed_keys(t.1@).take(k + 1) =~= crate::dfb::timed_keys(t.1@).take(k as int).push(
                                (t.1@[k as int].0@, t.1@[k as int].1),
                            ));
                            assert(trace_texts(crate::dfb::timed_keys(t.1@).take(k + 1)) =~= trace_texts(
                                crate::dfb::timed_keys(t.1@).take(k as int),
                            ).push(crate::block::node_text(t.1@[k as int].0@)));
                            k = k + 1;
                        }
                        assert(crate::dfb::timed_keys(t.1@).take(t.1@.len() as int) =~= crate::dfb::timed_keys(t.1@));
                    },
                    None => {},
                }
                assert(strings_view(texts@) == port_trace_texts(blocks@.skip(j as int)));
                return debug_strings(&texts);
            }
            j = j + 1;
        }
        assert(blocks@.skip(j as int) =~= Seq::<DataFlowBlock>::empty());
        let none: Vec<String> = Vec::new();
        assert(strings_view(none@) =~= Seq::<Seq<char>>::empty());
        debug_strings(&none)
    }

    /// Copies of the port blocks (module inputs and outputs) of a scope, in order.
    pub fn get_port_blocks(&self, scope_name: &str) -> (r: Vec<DataFlowBlock>)
        requires
            self.wf(),
        ensures
            block_views(r@) == block_views(self.blocks_of(scope_name@).filter(|b: DataFlowBlock| is_port(b.block_type))),
    {
        let mut r: Vec<DataFlowBlock> = Vec::new();
        let i = match self.find_scope(scope_name) {
            Some(i) => i,
            None => {
                assert(self.blocks_of(scope_name@) =~= Seq::<DataFlowBlock>::empty());
                assert(self.blocks_of(scope_name@).filter(|b: DataFlowBlock| is_port(b.block_type)) =~= Seq::<DataFlowBlock>::empty()) by {
                    reveal(Seq::filter);
                };
                assert(block_views(r@) =~= Seq::<BlockView>::empty());
                return r;
            },
        };
        let blocks = &self.scope_block_mapping[i].blocks;
        let mut j: usize = 0;
        while j < blocks.len()
            invariant
                blocks@ == self.blocks_of(scope_name@),
                j <= blocks.len(),
                block_views(r@) == block_views(blocks@.take(j as int).filter(|b: DataFlowBlock| is_port(b.block_type))),
            decreases blocks.len() - j,
        {
            let ghost before = r@;
            proof {
                assert(blocks@.take(j + 1).drop_last() =~= blocks@.take(j as int));
                reveal(Seq::filter);
            }
            if matches!(blocks[j].block_type, BlockType::ModuleOutput | BlockType::ModuleInput) {
                r.push(blocks[j].duplicate());
                assert(block_views(r@) =~= block_views(before).push(blocks@[j as int]@));
                assert(block_views(blocks@.take(j + 1).filter(|b: DataFlowBlock| is_port(b.block_type))) =~= block_views(
                    blocks@.take(j as int).filter(|b: DataFlowBlock| is_port(b.block_type)),
                ).push(blocks@[j as int]@));
            }
            j = j + 1;
        }
        assert(blocks@.take(blocks@.len() as int) == blocks@);
        r
    }

    /// The line in the original source of a position of a scope's preprocessed
    /// source, found through the origin the preprocessor recorded for it and the
    /// source of `module_name`.
    pub fn get_original_lineno_from_ast_locate(
        &self,
        scope_name: &str,
        module_name: &str,
        ast_locate: SrcLocate,
    ) -> (r: Option<usize>)
        requires
            self.wf(),
        ensures
            r == original_lineno(self, scope_name@, module_name@, ast_locate.offset),
    {
        let i = match self.find_scope(scope_name) {
            Some(i) => i,
            None => {
                return None;
            },
        };
        let offset = match find_origin(&self.scope_block_mapping[i].origins, ast_locate.offset) {
            Some(o) => o,
            None => {
                return None;
            },
        };
        let k = match find_key(&self.module_code_mapping, module_name) {
            Some(k) => k,
            None => {
                return None;
            },
        };
        proof {
            lemma_table_get(self.module_code_mapping@, k as int);
        }
        let code = self.module_code_mapping[k].1.as_str();
        match get_pos_from_offset(code, offset) {
            Some(p) => Some(p.1),
            None => None,
        }
    }

    /// A copy of the first block of a scope that has exactly one source range
    /// covering `ast_locate`.
    pub fn get_belong_block_from_ast_locate(&self, scope_name: &str, ast_locate: &SrcLocate) -> (r: Option<DataFlowBlock>)
        requires
            self.wf(),
        ensures
            r is Some <==> first_with(self.blocks_of(scope_name@), covers_once(ast_locate.offset, ast_locate.len)) is Some,
            r matches Some(b) ==> b@ == self.blocks_of(scope_name@)[first_with(
                self.blocks_of(scope_name@),
                covers_once(ast_locate.offset, ast_locate.len),
            ).unwrap()]@,
    {
        let target = crate::block::AstRange::new(ast_locate.offset, ast_locate.len);
        let i = match self.find_scope(scope_name) {
            Some(i) => i,
            None => {
                return None;
            },
        };
        let blocks = &self.scope_block_mapping[i].blocks;
        let ghost p = covers_once(ast_locate.offset, ast_locate.len);
        let mut j: usize = 0;
        assert(blocks@.skip(0) == blocks@);
        while j < blocks.len()
            invariant
                blocks@ == self.blocks_of(scope_name@),
                p == covers_once(ast_locate.offset, ast_locate.len),
                target == (crate::block::AstRange { offset: ast_locate.offset, len: ast_locate.len }),
                j <= blocks.len(),
                first_with(blocks@, p) == (match first_with(blocks@.skip(j as int), p) {
                    Some(k) => Some(k + j),
                    None => None,
                }),
            decreases blocks.len() - j,
        {
            assert(blocks@.skip(j as int).drop_first() == blocks@.skip(j + 1));
            assert(blocks@.skip(j as int)[0] == blocks@[j as int]);
            let ranges = &blocks[j].ast_ranges;
            let mut cnt: usize = 0;
            let mut k: usize = 0;
            while k < ranges.len()
                invariant
                    k <= ranges.len(),
                    cnt <= k,
                    cnt == count_covering(ranges@.take(k as int), target),
                decreases ranges.len() - k,
            {
                assert(ranges@.take(k + 1).drop_last() =~= ranges@.take(k as int));
                if ranges[k].check_cover(&target) {
                    cnt = cnt + 1;
                }
                k = k + 1;
            }
            assert(ranges@.take(ranges@.len() as int) == ranges@);
            if cnt == 1 {
                assert(p(blocks@[j as int]));
                return Some(blocks[j].duplicate());
            }
            assert(!p(blocks@[j as int]));
            j = j + 1;
        }
        assert(blocks@.skip(j as int) =~= Seq::<DataFlowBlock>::empty());
        None
    }

    /// A copy of the first block of a scope that drives a signal on line
    /// `ast_lineno` of the preprocessed source.
    pub fn get_belong_block_from_ast_lineno(&self, scope_name: &str, ast_lineno: u32) -> (r: Option<DataFlowBlock>)
        requires
            self.wf(),
        ensures
            r is Some <==> first_with(self.blocks_of(scope_name@), drives_on_line(ast_lineno, false)) is Some,
            r matches Some(b) ==> b@ == self.blocks_of(scope_name@)[first_with(
                self.blocks_of(scope_name@),
                drives_on_line(ast_lineno, false),
            ).unwrap()]@,
    {
        self.belong_block_by_line(scope_name, ast_lineno, false)
    }

    /// A copy of the first block of a scope that drives a signal on line
    /// `original_lineno` of the original source.
    pub fn get_belong_block_from_original_lineno(&self, scope_name: &str, original_lineno: u32) -> (r: Option<DataFlowBlock>)
        requires
            self.wf(),
        ensures
            r is Some <==> first_with(self.blocks_of(scope_name@), drives_on_line(original_lineno, true)) is Some,
            r matches Some(b) ==> b@ == self.blocks_of(scope_name@)[first_with(
                self.blocks_of(scope_name@),
                drives_on_line(original_lineno, true),
            ).unwrap()]@,
    {
        self.belong_block_by_line(scope_name, original_lineno, true)
    }

    fn belong_block_by_line(&self, scope_name: &str, line: u32, original: bool) -> (r: Option<DataFlowBlock>)
        requires
            self.wf(),
        ensures
            r is Some <==> first_with(self.blocks_of(scope_name@), drives_on_line(line, original)) is Some,
            r matches Some(b) ==> b@ == self.blocks_of(scope_name@)[first_with(
                self.blocks_of(scope_name@),
                drives_on_line(line, original),
            ).unwrap()]@,
    {
        let i = match self.find_scope(scope_name) {
            Some(i) => i,
            None => {
                return None;
            },
        };
        let blocks = &self.scope_block_mapping[i].blocks;
        let ghost p = drives_on_line(line, original);
        let mut j: usize = 0;
        assert(blocks@.skip(0) == blocks@);
        while j < blocks.len()
            invariant
                blocks@ == self.blocks_of(scope_name@),
                p == drives_on_line(line, original),
                j <= blocks.len(),
                first_with(blocks@, p) == (match first_with(blocks@.skip(j as int), p) {
                    Some(k) => Some(k + j),
                    None => None,
                }),
            decreases blocks.len() - j,
        {
            assert(blocks@.skip(j as int).drop_first() == blocks@.skip(j + 1));
            assert(blocks@.skip(j as int)[0] == blocks@[j as int]);
            let outs = &blocks[j].outputs;
            let mut found = false;
            let mut k: usize = 0;
            while k < outs.len()
                invariant
                    k <= outs.len(),
                    found == exists|m: int| 0 <= m < k && line_of(outs@[m]@.locate, original) == line,
                decreases outs.len() - k,
            {
                let l = if original {
                    outs[k].get_locate().original_line
                } else {
                    outs[k].get_locate().line
                };
                if l == line {
                    found = true;
                }
                k = k + 1;
            }
            if found {
                assert(p(blocks@[j as int])) by {
                    let m = choose|m: int| 0 <= m < outs@.len() && line_of(outs@[m]@.locate, original) == line;
                    assert(blocks@[j as int]@.outputs[m] == outs@[m]@);
                };
                return Some(blocks[j].duplicate());
            }
            assert(!p(blocks@[j as int])) by {
                if p(blocks@[j as int]) {
                    let m = choose|m: int| 0 <= m < blocks@[j as int]@.outputs.len() && line_of(
                        blocks@[j as int]@.outputs[m].locate,
                        original,
                    ) == line;
                    assert(outs@[m]@ == blocks@[j as int]@.outputs[m]);
                }
            };
            j = j + 1;
        }
        assert(blocks@.skip(j as int) =~= Seq::<DataFlowBlock>::empty());
        None
    }
}

/// The scope named in the report of covered modules.
pub open spec fn alu_scope() -> Seq<char> {
    seq!['i', 'b', 'e', 'x', '_', 'a', 'l', 'u']
}

fn alu_scope_str() -> (r: &'static str)
    ensures
        r@ == alu_scope(),
{
    let s = "ibex_alu";
    proof {
        reveal_strlit("ibex_alu");
    }
    assert(s@ =~= alu_scope());
    s
}

/// Debug rendering of a list of strings, as `format!("{:?}", ..)` writes it.
pub uninterp spec fn spec_debug_strings(s: Seq<Seq<char>>) -> Seq<char>;

/// Renders a list of strings with `Debug` (`format!("{:?}", v)`); the result
/// is named by `spec_debug_strings`.
#[verifier::external_body]
fn debug_strings(v: &Vec<String>) -> (r: String)
    ensures
        r@ == spec_debug_strings(strings_view(v@)),
{
    format!("{:?}", v)
}

/// The lines joined by line feeds.
pub open spec fn join_spec(s: Seq<Seq<char>>) -> Seq<char>
    decreases s.len(),
{
    if s.len() == 0 {
        Seq::empty()
    } else if s.len() == 1 {
        s[0]
    } else {
        join_spec(s.drop_last()) + seq!['\n'] + s.last()
    }
}

/// Joins lines with line feeds (`join("\n")`).
pub fn join_lines(v: &Vec<String>) -> (r: String)
    ensures
        r@ == join_spec(strings_view(v@)),
{
    let mut cs: Vec<char> = Vec::new();
    let mut i: usize = 0;
    while i < v.len()
        invariant
            i <= v.len(),
            cs@ == join_spec(strings_view(v@.take(i as int))),
        decreases v.len() - i,
    {
        assert(strings_view(v@.take(i + 1)).drop_last() =~= strings_view(v@.take(i as int)));
        assert(strings_view(v@.take(i + 1)).last() == v@[i as int]@);
        if i > 0 {
            cs.push('\n');
        }
        let part = chars_of(v[i].as_str());
        let ghost base = cs@;
        let mut k: usize = 0;
        while k < part.len()
            invariant
                k <= part.len(),
                cs@ == base + part@.take(k as int),
            decreases part.len() - k,
        {
            cs.push(part[k]);
            assert(part@.take(k + 1) == part@.take(k as int).push(part@[k as int]));
            k = k + 1;
        }
        assert(part@.take(part@.len() as int) == part@);
        if i == 0 {
            assert(strings_view(v@.take(1)).len() == 1);
            assert(cs@ =~= join_spec(strings_view(v@.take(1))));
        }
        i = i + 1;
    }
    assert(v@.take(v@.len() as int) == v@);
    string_from_chars(&cs)
}

/// The (signal, block id, joined context) of each signal that a block of `bs` drives.
pub open spec fn snippets(bs: Seq<DataFlowBlock>, signals: Seq<Seq<char>>) -> Seq<(Seq<char>, u64, Seq<char>)>
    decreases signals.len(),
{
    if signals.len() == 0 {
        Seq::empty()
    } else {
        let rest = snippets(bs, signals.drop_last());
        match first_driver(bs, signals.last()) {
            Some(i) => rest.push((signals.last(), bs[i]@.bid, join_spec(bs[i]@.ctx))),
            None => rest,
        }
    }
}

/// The view of a list of snippets.
pub open spec fn snippet_view(s: Seq<(String, u64, String)>) -> Seq<(Seq<char>, u64, Seq<char>)> {
    s.map_values(|e: (String, u64, String)| (e.0@, e.1, e.2@))
}

/// The views of a sequence of blocks.
pub open spec fn block_views(s: Seq<DataFlowBlock>) -> Seq<BlockView> {
    s.map_values(|b: DataFlowBlock| b@)
}

/// A module input or output block.
pub open spec fn is_port(t: BlockType) -> bool {
    t == BlockType::ModuleInput || t == BlockType::ModuleOutput
}

/// The texts of the signals a trace left a block by.
pub open spec fn trace_texts(s: Seq<(NodeKey, Option<i64>)>) -> Seq<Seq<char>> {
    s.map_values(|e: (NodeKey, Option<i64>)| crate::block::node_text(e.0))
}

/// The texts of the signals the trace of the first output port block was left by.
pub open spec fn port_trace_texts(bs: Seq<DataFlowBlock>) -> Seq<Seq<char>>
    decreases bs.len(),
{
    if bs.len() == 0 {
        Seq::empty()
    } else if bs[0].block_type == BlockType::ModuleOutput {
        match bs[0]@.suspicious_trace {
            Some(t) => trace_texts(t.1),
            None => Seq::empty(),
        }
    } else {
        port_trace_texts(bs.drop_first())
    }
}

/// How many of the ranges cover `target`.
pub open spec fn count_covering(rs: Seq<crate::block::AstRange>, target: crate::block::AstRange) -> nat
    decreases rs.len(),
{
    if rs.len() == 0 {
        0
    } else {
        count_covering(rs.drop_last(), target) + (if target.offset >= rs.last().offset && target.offset + target.len
            <= rs.last().offset + rs.last().len {
            1nat
        } else {
            0nat
        })
    }
}

/// Blocks with exactly one source range covering (offset, len).
pub open spec fn covers_once(offset: usize, len: usize) -> spec_fn(DataFlowBlock) -> bool {
    |b: DataFlowBlock| count_covering(b.ast_ranges@, crate::block::AstRange { offset, len }) == 1
}

/// The line of a locate: in the original source, or in the preprocessed source.
pub open spec fn line_of(l: crate::block::NodeLocate, original: bool) -> u32 {
    if original {
        l.original_line
    } else {
        l.line
    }
}

/// Blocks that drive a signal on the given line.
pub open spec fn drives_on_line(line: u32, original: bool) -> spec_fn(DataFlowBlock) -> bool {
    |b: DataFlowBlock| exists|m: int| 0 <= m < b@.outputs.len() && line_of(b@.outputs[m].locate, original) == line
}

/// The original line of a preprocessed offset of a scope, in the source of `module`.
pub open spec fn original_lineno(m: &BlockManager, scope: Seq<char>, module: Seq<char>, offset: usize) -> Option<usize> {
    if !m.has_scope(scope) {
        None
    } else {
        match origin_of(m.scope_block_mapping@[m.scope_pos(scope)].origins@, offset) {
            None => None,
            Some(o) => match table_get(m.module_code_mapping@, module) {
                None => None,
                Some(code) => match row_of(vstd::utf8::encode_utf8(code@), o) {
                    Some(row) => Some(row as usize),
                    None => None,
                },
            },
        }
    }
}

/// What the manager's constructor needs: distinct scope and module names,
/// sources whose length fits a machine word, and for every scope blocks that
/// belong to it, an origin for its last token, the source of the module of its
/// first block, and a line for that origin in it.
pub open spec fn new_inputs_ok(scopes: Seq<ScopeBlocks>, codes: Seq<(String, String)>) -> bool {
    &&& forall|i: int, j: int| 0 <= i < j < scopes.len() ==> scopes[i].scope@ != scopes[j].scope@
    &&& keys_unique(codes)
    &&& forall|i: int| 0 <= i < codes.len() ==> (#[trigger] codes[i]).1@.len() < usize::MAX
        && vstd::utf8::encode_utf8(codes[i].1@).len() < usize::MAX
    &&& forall|i: int| 0 <= i < scopes.len() ==> #[trigger] scope_blocks_ok(scopes[i])
    &&& forall|i: int| 0 <= i < scopes.len() ==> #[trigger] scope_line_ok(scopes[i], codes)
}

/// The blocks of a scope are well formed and belong to it.
pub open spec fn scope_blocks_ok(sb: ScopeBlocks) -> bool {
    forall|j: int| 0 <= j < sb.blocks@.len() ==> #[trigger] sb.blocks@[j].wf() && sb.blocks@[j]@.scope == sb.scope@
}

/// A scope has a first block, an origin for its last token, the source of its
/// module and a line there.
pub open spec fn scope_line_ok(sb: ScopeBlocks, codes: Seq<(String, String)>) -> bool {
    &&& sb.blocks@.len() > 0
    &&& origin_of(sb.origins@, sb.last_offset) is Some
    &&& table_get(codes, sb.blocks@[0]@.module_name) is Some
    &&& row_of(
        vstd::utf8::encode_utf8(table_get(codes, sb.blocks@[0]@.module_name).unwrap()@),
        origin_of(sb.origins@, sb.last_offset).unwrap(),
    ) is Some
}

/// The last line of a scope's module in its original source.
pub open spec fn max_line_of(sb: ScopeBlocks, codes: Seq<(String, String)>) -> usize {
    row_of(
        vstd::utf8::encode_utf8(table_get(codes, sb.blocks@[0]@.module_name).unwrap()@),
        origin_of(sb.origins@, sb.last_offset).unwrap(),
    ).unwrap() as usize
}

/// Checks what the manager's constructor needs.
pub fn check_new_inputs(scopes: &Vec<ScopeBlocks>, codes: &Vec<(String, String)>) -> (r: bool)
    ensures
        r == new_inputs_ok(scopes@, codes@),
{
    let mut i: usize = 0;
    while i < scopes.len()
        invariant
            i <= scopes.len(),
            forall|a: int, b: int| 0 <= a < b < scopes@.len() && a < i ==> scopes@[a].scope@ != scopes@[b].scope@,
        decreases scopes.len() - i,
    {
        let mut j: usize = i + 1;
        while j < scopes.len()
            invariant
                i < j <= scopes.len(),
                forall|b: int| i < b < j ==> scopes@[i as int].scope@ != scopes@[b].scope@,
            decreases scopes.len() - j,
        {
            if str_eq(scopes[i].scope.as_str(), scopes[j].scope.as_str()) {
                assert(scopes@[i as int].scope@ == scopes@[j as int].scope@);
                assert(!new_inputs_ok(scopes@, codes@));
                return false;
            }
            j = j + 1;
        }
        i = i + 1;
    }
    let mut i: usize = 0;
    while i < codes.len()
        invariant
            forall|a: int, b: int| 0 <= a < b < scopes@.len() ==> scopes@[a].scope@ != scopes@[b].scope@,
            i <= codes.len(),
            forall|a: int, b: int| 0 <= a < b < codes@.len() && a < i ==> codes@[a].0@ != codes@[b].0@,
            forall|a: int| 0 <= a < i ==> (#[trigger] codes@[a]).1@.len() < usize::MAX
                && vstd::utf8::encode_utf8(codes@[a].1@).len() < usize::MAX,
        decreases codes.len() - i,
    {
        let mut j: usize = i + 1;
        while j < codes.len()
            invariant
                i < j <= codes.len(),
                forall|b: int| i < b < j ==> codes@[i as int].0@ != codes@[b].0@,
            decreases codes.len() - j,
        {
            if str_eq(codes[i].0.as_str(), codes[j].0.as_str()) {
                assert(codes@[i as int].0@ == codes@[j as int].0@);
                assert(!keys_unique(codes@));
                return false;
            }
            j = j + 1;
        }
        let c = codes[i].1.as_str();
        let n = c.as_bytes().len();
        let m = crate::text::chars_of(c).len();
        if n == usize::MAX || m == usize::MAX {
            assert(!((codes@[i as int]).1@.len() < usize::MAX && vstd::utf8::encode_utf8(codes@[i as int].1@).len() < usize::MAX));
            return false;
        }
        i = i + 1;
    }
    let mut i: usize = 0;
    while i < scopes.len()
        invariant
            forall|a: int, b: int| 0 <= a < b < scopes@.len() ==> scopes@[a].scope@ != scopes@[b].scope@,
            i <= scopes.len(),
            keys_unique(codes@),
            forall|a: int| 0 <= a < codes@.len() ==> (#[trigger] codes@[a]).1@.len() < usize::MAX
                && vstd::utf8::encode_utf8(codes@[a].1@).len() < usize::MAX,
            forall|a: int| 0 <= a < i ==> #[trigger] scope_blocks_ok(scopes@[a]),
            forall|a: int| 0 <= a < i ==> #[trigger] scope_line_ok(scopes@[a], codes@),
        decreases scopes.len() - i,
    {
        let sb = &scopes[i];
        let mut j: usize = 0;
        while j < sb.blocks.len()
            invariant
                i < scopes@.len(),
                *sb == scopes@[i as int],
                j <= sb.blocks.len(),
                forall|b: int| 0 <= b < j ==> #[trigger] sb.blocks@[b].wf() && sb.blocks@[b]@.scope == sb.scope@,
            decreases sb.blocks.len() - j,
        {
            if !sb.blocks[j].check_wf() || !str_eq(sb.blocks[j].scope.as_str(), sb.scope.as_str()) {
                assert(!scope_blocks_ok(scopes@[i as int]));
                return false;
            }
            proof {
                let jj = j as int;
                assert(sb.blocks@[jj].wf() && sb.blocks@[jj]@.scope == sb.scope@);
                assert forall|b: int| 0 <= b < jj + 1 implies #[trigger] sb.blocks@[b].wf() && sb.blocks@[b]@.scope == sb.scope@ by {
                    if b == jj {
                        assert(sb.blocks@[jj].wf());
                    }
                };
            }
            j = j + 1;
        }
        if sb.blocks.len() == 0 {
            assert(!scope_line_ok(scopes@[i as int], codes@));
            return false;
        }
        let off = match find_origin(&sb.origins, sb.last_offset) {
            Some(o) => o,
            None => {
                assert(!scope_line_ok(scopes@[i as int], codes@));
                return false;
            },
        };
        let k = match find_key(codes, sb.blocks[0].module_name.as_str()) {
            Some(k) => k,
            None => {
                assert(table_get(codes@, sb.blocks@[0]@.module_name) is None);
                assert(!scope_line_ok(scopes@[i as int], codes@));
                return false;
            },
        };
        proof {
            lemma_table_get(codes@, k as int);
        }
        if get_pos_from_offset(codes[k].1.as_str(), off).is_none() {
            assert(!scope_line_ok(scopes@[i as int], codes@));
            return false;
        }
        assert(scope_line_ok(scopes@[i as int], codes@));
        assert(scope_blocks_ok(scopes@[i as int]));
        i = i + 1;
    }
    true
}

/// The number of line feeds in `s`.
pub open spec fn count_lf_chars(s: Seq<char>) -> nat
    decreases s.len(),
{
    if s.len() == 0 {
        0
    } else {
        count_lf_chars(s.drop_last()) + (if s.last() == '\n' { 1nat } else { 0nat })
    }
}

/// The number of source lines of a block's context (capped at the largest `usize`).
pub open spec fn block_size(ctx: Seq<Seq<char>>) -> usize {
    if count_lf_chars(join_spec(ctx)) + 1 > usize::MAX {
        usize::MAX
    } else {
        (count_lf_chars(join_spec(ctx)) + 1) as usize
    }
}

/// (id, scope, kind, number of lines) for the blocks of one scope.
pub open spec fn scope_distribution(scope: Seq<char>, bs: Seq<DataFlowBlock>) -> Seq<(u64, Seq<char>, BlockType, usize)>
    decreases bs.len(),
{
    if bs.len() == 0 {
        Seq::empty()
    } else {
        scope_distribution(scope, bs.drop_last()).push(
            (bs.last()@.bid, scope, bs.last()@.block_type, block_size(bs.last()@.ctx)),
        )
    }
}

/// (id, scope, kind, number of lines) for the blocks of all scopes.
pub open spec fn distribution(s: Seq<ScopeBlocks>) -> Seq<(u64, Seq<char>, BlockType, usize)>
    decreases s.len(),
{
    if s.len() == 0 {
        Seq::empty()
    } else {
        distribution(s.drop_last()) + scope_distribution(s.last().scope@, s.last().blocks@)
    }
}

/// The view of a block distribution.
pub open spec fn distribution_view(s: Seq<(u64, String, BlockType, usize)>) -> Seq<(u64, Seq<char>, BlockType, usize)> {
    s.map_values(|e: (u64, String, BlockType, usize)| (e.0, e.1@, e.2, e.3))
}

} // verus!
