//! From a line of a module's original source to the blocks that drive a
//! signal on it, one per scope.
use vstd::prelude::*;

use crate::dfb::{BlockView, DataFlowBlock};
use crate::mgr::{drives_on_line, first_with, scope_names, BlockManager};
use crate::text::{str_eq, string_of};

verus! {

/// The block of scope `scope` that holds original line `line`, if that block
/// belongs to module `module`.
pub open spec fn block_at_line(mgr: &BlockManager, scope: Seq<char>, module: Seq<char>, line: u32) -> Option<BlockView> {
    match first_with(mgr.blocks_of(scope), drives_on_line(line, true)) {
        Some(k) => if mgr.blocks_of(scope)[k]@.module_name == module {
            Some(mgr.blocks_of(scope)[k]@)
        } else {
            None
        },
        None => None,
    }
}

/// The blocks at line `line` of module `module`, one for each of the scopes
/// `names` that has one, in the order of the scopes.
pub open spec fn blocks_at_line(mgr: &BlockManager, names: Seq<Seq<char>>, module: Seq<char>, line: u32) -> Seq<
    BlockView,
>
    decreases names.len(),
{
    if names.len() == 0 {
        Seq::empty()
    } else {
        let rest = blocks_at_line(mgr, names.drop_last(), module, line);
        match block_at_line(mgr, names.last(), module, line) {
            Some(b) => rest.push(b),
            None => rest,
        }
    }
}

/// The views of a list of blocks.
pub open spec fn block_views(v: Seq<DataFlowBlock>) -> Seq<BlockView> {
    v.map_values(|b: DataFlowBlock| b@)
}

/// The block of one scope at a line of a module, as found by the manager.
fn block_at(mgr: &BlockManager, scope: &str, module_name: &str, line_number: u32) -> (r: Option<DataFlowBlock>)
    requires
        mgr.wf(),
    ensures
        r matches Some(b) ==> block_at_line(mgr, scope@, module_name@, line_number) == Some(b@),
        r is None ==> block_at_line(mgr, scope@, module_name@, line_number) is None,
{
    match mgr.get_belong_block_from_original_lineno(scope, line_number) {
        Some(block) => {
            if str_eq(block.module_name.as_str(), module_name) {
                Some(block)
            } else {
                None
            }
        },
        None => None,
    }
}

/// The blocks, one per scope and in the order of the scopes, that drive a
/// signal on original line `line_number` of module `module_name`.
pub fn get_belong_blocks(mgr: &BlockManager, module_name: &str, line_number: u32) -> (r: Vec<DataFlowBlock>)
    requires
        mgr.wf(),
    ensures
        block_views(r@) == blocks_at_line(mgr, scope_names(mgr.scope_block_mapping@), module_name@, line_number),
{
    let scopes = mgr.get_scopes();
    let ghost names = scope_names(mgr.scope_block_mapping@);
    let mut r: Vec<DataFlowBlock> = Vec::new();
    let mut i: usize = 0;
    while i < scopes.len()
        invariant
            mgr.wf(),
            i <= scopes@.len(),
            scopes@.len() == names.len(),
            forall|k: int| 0 <= k < names.len() ==> (#[trigger] scopes@[k])@ == names[k],
            block_views(r@) == blocks_at_line(mgr, names.take(i as int), module_name@, line_number),
        decreases scopes@.len() - i,
    {
        assert(names.take(i + 1).drop_last() =~= names.take(i as int));
        assert(names.take(i + 1).last() == scopes@[i as int]@);
        let ghost before = r@;
        match block_at(mgr, scopes[i].as_str(), module_name, line_number) {
            Some(b) => {
                r.push(b);
                assert(block_views(r@) =~= block_views(before).push(r@.last()@));
            },
            None => {},
        }
        i = i + 1;
    }
    assert(names.take(names.len() as int) =~= names);
    r
}

/// A block that holds a line of a module, in one scope.
#[derive(Debug)]
pub struct BlockInfo {
    pub block_id: u64,
    pub module_name: String,
    pub line_number: u32,
    pub scope: String,
}

/// The description of a block found at a line: its id and module, the line,
/// and the scope it was found in.
pub open spec fn info_of(b: BlockView, line: u32, scope: Seq<char>) -> (u64, Seq<char>, u32, Seq<char>) {
    (b.bid, b.module_name, line, scope)
}

/// The descriptions of the blocks at a line, for the scopes `names`.
pub open spec fn infos_at_line(mgr: &BlockManager, names: Seq<Seq<char>>, module: Seq<char>, line: u32) -> Seq<
    (u64, Seq<char>, u32, Seq<char>),
>
    decreases names.len(),
{
    if names.len() == 0 {
        Seq::empty()
    } else {
        let rest = infos_at_line(mgr, names.drop_last(), module, line);
        match block_at_line(mgr, names.last(), module, line) {
            Some(b) => rest.push(info_of(b, line, names.last())),
            None => rest,
        }
    }
}

/// The view of a block description.
pub open spec fn info_view(i: BlockInfo) -> (u64, Seq<char>, u32, Seq<char>) {
    (i.block_id, i.module_name@, i.line_number, i.scope@)
}

/// The descriptions of the blocks, one per scope, that drive a signal on
/// original line `line_number` of module `module_name`, the line number taken
/// as a `u32` (its low 32 bits). It always succeeds.
pub fn process_module_line(mgr: &BlockManager, module_name: &str, line_number: usize) -> (r: Result<
    Vec<BlockInfo>,
    String,
>)
    requires
        mgr.wf(),
    ensures
        r is Ok,
        r matches Ok(v) ==> v@.map_values(|i: BlockInfo| info_view(i)) == infos_at_line(
            mgr,
            scope_names(mgr.scope_block_mapping@),
            module_name@,
            line_number as u32,
        ),
{
    #[verifier::truncate]
    let line: u32 = line_number as u32;
    let scopes = mgr.get_scopes();
    let ghost names = scope_names(mgr.scope_block_mapping@);
    let mut r: Vec<BlockInfo> = Vec::new();
    let mut i: usize = 0;
    while i < scopes.len()
        invariant
            mgr.wf(),
            i <= scopes@.len(),
            scopes@.len() == names.len(),
            forall|k: int| 0 <= k < names.len() ==> (#[trigger] scopes@[k])@ == names[k],
            r@.map_values(|i: BlockInfo| info_view(i)) == infos_at_line(mgr, names.take(i as int), module_name@, line),
        decreases scopes@.len() - i,
    {
        assert(names.take(i + 1).drop_last() =~= names.take(i as int));
        assert(names.take(i + 1).last() == scopes@[i as int]@);
        let ghost before = r@;
        match block_at(mgr, scopes[i].as_str(), module_name, line) {
            Some(b) => {
                r.push(
                    BlockInfo {
                        block_id: b.bid,
                        module_name: string_of(b.module_name.as_str()),
                        line_number: line,
                        scope: string_of(scopes[i].as_str()),
                    },
                );
                assert(r@.map_values(|i: BlockInfo| info_view(i)) =~= before.map_values(
                    |i: BlockInfo| info_view(i),
                ).push(info_view(r@.last())));
            },
            None => {},
        }
        i = i + 1;
    }
    assert(names.take(names.len() as int) =~= names);
    Ok(r)
}

} // verus!
