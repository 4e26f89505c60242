use sv_analysis::block::{BlockType, NodeID, NodeLocate};
use sv_analysis::dfb::DataFlowBlock;
use sv_analysis::mgr::{BlockManager, ScopeBlocks};
use sv_analysis::oracle::{ranked_hits, tally_hits, validate_oracle, ValidationStatus};

fn block(bid: u64, code: &str) -> DataFlowBlock {
    let mut b = DataFlowBlock::new(bid, "m", "TOP", BlockType::Assign);
    b.add_output_node(NodeID::new_identifier(NodeLocate::new(0, 1, 1, 1), "y"));
    b.add_ctx(code);
    b
}

fn manager() -> BlockManager {
    let scopes = vec![ScopeBlocks {
        scope: "TOP".to_string(),
        blocks: vec![block(3, "assign a = b;"), block(4, "assign y = x & z;")],
        origins: vec![(0, 0)],
        last_offset: 0,
    }];
    BlockManager::new(scopes, vec![("m".to_string(), "x".to_string())])
}

const DIFF: &str = "--- a.sv\n+++ b.sv\n@@ -1 +1 @@\n-  assign y = x | z;\n+  assign y = x & z; // mutated\n";

#[test]
fn validation_finds_block_of_change() {
    let m = manager();
    match validate_oracle(4, DIFF, &m) {
        ValidationStatus::Consistent { bid } => assert_eq!(bid, 4),
        _ => panic!("expected a consistent record"),
    }
    match validate_oracle(3, DIFF, &m) {
        ValidationStatus::Success { original_bid, correct_bid } => {
            assert_eq!((original_bid, correct_bid), (3, 4))
        }
        _ => panic!("expected a corrected record"),
    }
}

#[test]
fn validation_errors() {
    let m = manager();
    match validate_oracle(1, "--- a\n+++ b\n+\n", &m) {
        ValidationStatus::Error(e) => assert_eq!(e, "No added line found in diff"),
        _ => panic!("expected an error"),
    }
    match validate_oracle(1, "+ assign q = r;\n", &m) {
        ValidationStatus::Error(e) => assert_eq!(e, "No block contains diff line"),
        _ => panic!("expected an error"),
    }
}

#[test]
fn ranked_choice_hits() {
    let choices: Vec<(Option<String>, Option<u64>)> = vec![
        (Some("a".to_string()), Some(1)),
        (None, Some(2)),
        (Some("m".to_string()), Some(2)),
        (Some("m".to_string()), Some(3)),
        (Some("m".to_string()), Some(4)),
        (Some("m".to_string()), Some(5)),
        (Some("m".to_string()), Some(6)),
    ];
    assert_eq!(ranked_hits(&choices, "m", 2), (false, true, true, true));
    assert_eq!(ranked_hits(&choices, "a", 1), (true, true, true, true));
    assert_eq!(ranked_hits(&choices, "m", 6), (false, false, true, true));
    assert_eq!(ranked_hits(&choices, "m", 9), (false, false, false, false));
}

#[test]
fn hits_are_tallied_per_depth() {
    let hits = vec![
        ("b1".to_string(), true, true, true, true),
        ("b2".to_string(), false, true, true, true),
        ("b3".to_string(), false, false, false, true),
        ("b4".to_string(), false, false, false, false),
    ];
    let t = tally_hits(&hits);
    assert_eq!((t.top_1, t.top_5, t.top_10, t.top_any), (1, 2, 2, 3));
    assert_eq!(t.top_1_bids, vec!["b1".to_string()]);
    assert_eq!(t.top_10_bids, vec!["b1".to_string(), "b2".to_string()]);
}
