use sv_analysis::block::{BlockType, CircuitType, NodeID, NodeLocate};
use sv_analysis::coverage::PlainCoverageReport;
use sv_analysis::dfb::DataFlowBlock;
use sv_analysis::merge::{merge_all, merge_all2one, merge_block, MergeError};
use sv_analysis::mgr::{check_new_inputs, BlockManager, ScopeBlocks};
use sv_analysis::position::get_pos_from_offset;
use sv_analysis::sampler::{CoverageSampler, IntervalCoverageSampler};
use sv_analysis::sbfl::SBFLocalizer;
use sv_analysis::spectrum::SpectrumMetric;
use sv_analysis::AstRange;

fn node(text: &str, line: u32) -> NodeID {
    NodeID::new_identifier(NodeLocate::new(0, line, line, text.len()), text)
}

fn assign_block(bid: u64, inputs: &[&str], outputs: &[(&str, u32)]) -> DataFlowBlock {
    let mut b = DataFlowBlock::new(bid, "m", "TOP", BlockType::Assign);
    for i in inputs {
        b.add_input_node(node(i, 1));
    }
    for (o, l) in outputs {
        b.add_output_node(node(o, *l));
    }
    b.add_ctx(&format!("assign block {}", bid));
    b
}

fn manager() -> BlockManager {
    let b = assign_block(1, &["x"], &[("y", 2)]);
    let scopes = vec![ScopeBlocks {
        scope: "TOP".to_string(),
        blocks: vec![b],
        origins: vec![(0, 4)],
        last_offset: 0,
    }];
    let codes = vec![("m".to_string(), "a\nb\nc".to_string())];
    assert!(check_new_inputs(&scopes, &codes));
    BlockManager::new(scopes, codes)
}

#[test]
fn block_type_seq() {
    assert!(BlockType::Always(CircuitType::SEQ).is_seq());
    assert!(!BlockType::Always(CircuitType::COMB).is_seq());
    assert!(!BlockType::Assign.is_seq());
}

#[test]
fn ast_range_cover() {
    let outer = AstRange::new(10, 20);
    assert!(outer.check_cover(&AstRange::new(12, 5)));
    assert!(!outer.check_cover(&AstRange::new(25, 10)));
}

#[test]
fn node_text_is_trimmed() {
    let n = NodeID::new_identifier(NodeLocate::new(3, 1, 1, 4), " sig ");
    assert_eq!(n.get_text(), "sig");
    assert_eq!(n.get_locate().offset, 3);
}

#[test]
fn position_of_offsets() {
    let src = "ab\ncd\n";
    assert_eq!(get_pos_from_offset(src, 0), Some((1, 1)));
    assert_eq!(get_pos_from_offset(src, 1), Some((2, 1)));
    assert_eq!(get_pos_from_offset(src, 3), Some((1, 2)));
    assert_eq!(get_pos_from_offset(src, 6), None);
}

#[test]
fn merge_reading_blocks() {
    let b1 = assign_block(1, &["x"], &[("y", 2)]);
    let b2 = assign_block(2, &["z"], &[("x", 3)]);
    let m = merge_block(&b1, &b2).expect("the blocks are mergeable");
    assert_eq!(m.bid, 1);
    assert_eq!(m.inputs.len(), 2);
    assert_eq!(m.outputs.len(), 2);
    assert_eq!(m.ctx, vec!["assign block 1".to_string(), "assign block 2".to_string()]);
}

#[test]
fn unrelated_blocks_do_not_merge() {
    let b1 = assign_block(1, &["a"], &[("b", 2)]);
    let b2 = assign_block(2, &["c"], &[("d", 3)]);
    assert!(merge_block(&b1, &b2).is_none());
    let all = merge_all(vec![b1, b2]);
    assert_eq!(all.len(), 2);
}

#[test]
fn merge_all_joins_chain() {
    let b1 = assign_block(1, &["x"], &[("y", 2)]);
    let b2 = assign_block(2, &["z"], &[("x", 3)]);
    let b3 = assign_block(3, &["q"], &[("z", 4)]);
    let all = merge_all(vec![b1, b2, b3]);
    assert_eq!(all.len(), 1);
    assert_eq!(all[0].outputs.len(), 3);
}

#[test]
fn merge_all2one_gathers_everything() {
    let b1 = assign_block(1, &["x"], &[("y", 2)]);
    let b2 = assign_block(2, &["z"], &[("w", 3)]);
    let m = merge_all2one(&[b1, b2]).unwrap();
    assert_eq!(m.bid, 1);
    assert_eq!(m.ctx.len(), 2);
    assert!(matches!(merge_all2one(&[]), Err(MergeError::EmptyBlocks)));
}

#[test]
fn manager_lookups() {
    let mgr = manager();
    assert_eq!(mgr.get_scopes(), vec!["TOP".to_string()]);
    assert_eq!(mgr.get_scope_max_lineno("TOP"), Some(3));
    assert_eq!(mgr.get_scope_module_name("TOP"), Some("m".to_string()));
    assert!(mgr.get_driven_block("TOP", "y").is_some());
    assert!(mgr.get_driven_block("TOP", "x").is_none());
    assert_eq!(mgr.get_block_by_bid(1).map(|b| b.bid), Some(1));
    assert!(mgr.get_block_by_bid(7).is_none());
    assert_eq!(mgr.get_belong_block_from_original_lineno("TOP", 2).map(|b| b.bid), Some(1));
    assert!(mgr.get_belong_block_from_original_lineno("TOP", 1).is_none());
}

#[test]
fn interval_sampler_matrix() {
    let mgr = manager();
    let tracker = PlainCoverageReport::new(&vec![]);
    let sampler = IntervalCoverageSampler::new(1, 1, 2, tracker, &mgr);
    let mats = sampler.sample();
    assert_eq!(mats.len(), 1);
    assert_eq!(mats[0].0, "TOP");
    assert_eq!(mats[0].1.test_results, vec![false, false, true]);
    assert_eq!(mats[0].1.matrix, vec![vec![0, 0, 1, 0]; 3]);
}

#[test]
fn localizer_maps_lines_to_blocks() {
    let mgr = manager();
    let tracker = PlainCoverageReport::new(&vec![]);
    let sampler = IntervalCoverageSampler::new(1, 1, 2, tracker, &mgr);
    let loc = SBFLocalizer::new("bug-1".to_string(), &mgr, sampler, SpectrumMetric::Ochiai);
    assert_eq!(loc.get_bug_id(), "bug-1");
    assert_eq!(loc.bid_range.len(), 1);
    assert_eq!(loc.bid_range[0].1 .1, (3, 3));
    assert_eq!(loc.block_of_line(3, "TOP").map(|b| b.bid), Some(1));
    assert_eq!(loc.block_of_line(2, "TOP").map(|b| b.bid), None);
    assert_eq!(loc.block_of_line(3, "OTHER").map(|b| b.bid), None);
}
