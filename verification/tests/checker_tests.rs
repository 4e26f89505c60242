use sv_analysis::block::{BlockType, NodeID, NodeLocate};
use sv_analysis::dataflow::{events_well_nested, AlwaysEvent};
use sv_analysis::dfb::{Block, DataFlowBlock};
use sv_analysis::oracle::extract_diff_line;
use sv_analysis::param::{tree_well_formed, JsonValue};
use sv_analysis::vlc::{lines_well_formed, numbers_well_formed, report_well_formed, VlcReport};
use sv_analysis::module_blocks::collect_sig_decls;

fn n(text: &str) -> NodeID {
    NodeID::new_identifier(NodeLocate::new(1, 2, 3, text.len()), text)
}

#[test]
fn nesting_of_events() {
    let ok = vec![
        AlwaysEvent::CondPredicate(Some(vec![n("c")])),
        AlwaysEvent::Assignment(vec![n("y")], vec![n("x")]),
        AlwaysEvent::LeaveConditional,
    ];
    assert!(events_well_nested(&ok));
    let unbalanced = vec![AlwaysEvent::LeaveConditional];
    assert!(!events_well_nested(&unbalanced));
    let case_on_top = vec![AlwaysEvent::CaseExpression(vec![n("s")]), AlwaysEvent::LeaveConditional];
    assert!(!events_well_nested(&case_on_top));
    let case_left = vec![
        AlwaysEvent::CondPredicate(Some(vec![n("c")])),
        AlwaysEvent::CaseExpression(vec![n("s")]),
        AlwaysEvent::CaseItemExpression(vec![n("k")]),
        AlwaysEvent::LeaveCase,
        AlwaysEvent::LeaveConditional,
    ];
    assert!(events_well_nested(&case_left));
}

#[test]
fn coverage_lines_checked() {
    let good = vec!["# SystemC::Coverage-3".to_string(), "C 'name' 3".to_string()];
    assert!(lines_well_formed(&good));
    let lone_quote = vec!["C ' 3".to_string()];
    assert!(!lines_well_formed(&lone_quote));
    assert!(numbers_well_formed("1,3-5"));
    assert!(numbers_well_formed(""));
    assert!(!numbers_well_formed("1,x"));
    let r = VlcReport::parse_lines(&good);
    assert!(report_well_formed(&r));
}

#[test]
fn syntax_tree_locations_checked() {
    let bad_loc = JsonValue::Object(vec![(
        "modulesp".to_string(),
        JsonValue::Array(vec![JsonValue::Object(vec![
            ("type".to_string(), JsonValue::Str("MODULE".to_string())),
            (
                "stmtsp".to_string(),
                JsonValue::Array(vec![JsonValue::Object(vec![
                    ("type".to_string(), JsonValue::Str("ASSIGN".to_string())),
                    (
                        "lhsp".to_string(),
                        JsonValue::Array(vec![JsonValue::Object(vec![(
                            "loc".to_string(),
                            JsonValue::Str("only,two".to_string()),
                        )])]),
                    ),
                ])]),
            ),
        ])]),
    )]);
    assert!(!tree_well_formed(&bad_loc));
    assert!(tree_well_formed(&JsonValue::Null));
}

#[test]
fn added_line_of_a_diff() {
    let diff = "--- a/x.sv\n+++ b/x.sv\n@@ -1 +1 @@\n-  assign a = b;\n+  assign a = c;\n";
    assert_eq!(extract_diff_line(diff).map(|v| v.into_iter().collect::<String>()), Some("assign a = c;".to_string()));
    assert_eq!(extract_diff_line("+++ only header\n"), None);
}

#[test]
fn block_trait_accessors() {
    let mut b = DataFlowBlock::new(9, "alu", "TOP.alu", BlockType::Assign);
    b.add_input_node(n("x"));
    b.add_output_node(NodeID::new_identifier(NodeLocate::new(40, 4, 7, 1), "y"));
    b.add_ctx("assign y = x;");
    assert_eq!(b.get_bid(), 9);
    assert_eq!(b.get_module_name(), "alu");
    assert_eq!(b.get_scope(), "TOP.alu");
    assert_eq!(b.get_block_type(), BlockType::Assign);
    assert_eq!(b.get_input_nodes().len(), 1);
    assert_eq!(b.get_output_nodes()[0].get_text(), "y");
    assert_eq!(b.get_ctx(), vec!["assign y = x;".to_string()]);
    assert_eq!(b.get_covered_ast_lines(), vec![4]);
    assert_eq!(b.get_covered_original_lines(), vec![7]);
    assert_eq!(b.get_covered_line_locates()[0].offset, 40);
}

#[test]
fn signal_declarations_are_trimmed_and_last_wins() {
    let entries = vec![
        ("a".to_string(), "  logic a;  ".to_string()),
        ("b".to_string(), "wire b;\n".to_string()),
        ("a".to_string(), "logic [3:0] a;".to_string()),
    ];
    let t = collect_sig_decls(&entries);
    assert_eq!(t, vec![("a".to_string(), "logic [3:0] a;\n".to_string()), ("b".to_string(), "wire b;\n".to_string())]);
}
