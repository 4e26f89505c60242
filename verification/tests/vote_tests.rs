use sv_analysis::block::{BlockType, NodeID, NodeLocate};
use sv_analysis::dfb::DataFlowBlock;
use sv_analysis::lines::{get_belong_blocks, process_module_line};
use sv_analysis::locate::merge_locates;
use sv_analysis::mgr::{check_new_inputs, BlockManager, ScopeBlocks, SrcLocate};
use sv_analysis::pattern::{get_module_name_with_line_from_text, json_md_text};
use sv_analysis::similarity::{edit_distance, find_most_similar_name, levenshtein_distance};
use sv_analysis::suspects::{build_port_blocks_for_module_check, filter_input_ports_from_trace, Suspects};
use sv_analysis::tracer::EarlyStop;
use sv_analysis::vote::{block_vote_outcome, port_vote_outcome, vote_for_blocks, vote_for_ports, PortOutcome};

fn node(text: &str, offset: usize) -> NodeID {
    NodeID::new_identifier(NodeLocate::new(offset, 1, 1, text.len()), text)
}

fn block(bid: u64, btype: BlockType, inputs: &[&str], outputs: &[(&str, u32)], module: &str) -> DataFlowBlock {
    let scope = if module == "dec" { "TOP.v" } else { "TOP.u" };
    let mut b = DataFlowBlock::new(bid, module, scope, btype);
    for i in inputs {
        b.add_input_node(node(i, 0));
    }
    for (o, l) in outputs {
        b.add_output_node(NodeID::new_identifier(NodeLocate::new(0, *l, *l, o.len()), o));
    }
    b
}

fn manager() -> BlockManager {
    let scopes = vec![
        ScopeBlocks {
            scope: "TOP.u".to_string(),
            blocks: vec![
                block(1, BlockType::ModuleInput, &["top_a"], &[("a", 3)], "alu"),
                block(2, BlockType::Assign, &["a"], &[("y", 7)], "alu"),
                block(3, BlockType::ModuleOutput, &["y"], &[("out", 9)], "alu"),
            ],
            origins: vec![(0, 0)],
            last_offset: 0,
        },
        ScopeBlocks {
            scope: "TOP.v".to_string(),
            blocks: vec![block(4, BlockType::Assign, &["b"], &[("z", 7)], "dec")],
            origins: vec![(0, 0)],
            last_offset: 0,
        },
    ];
    let codes = vec![("alu".to_string(), "x".to_string()), ("dec".to_string(), "y".to_string())];
    assert!(check_new_inputs(&scopes, &codes));
    BlockManager::new(scopes, codes)
}

#[test]
fn levenshtein_classic_pair() {
    assert_eq!(levenshtein_distance("kitten", "sitting"), 3);
    assert_eq!(levenshtein_distance("", "abc"), 3);
    assert_eq!(levenshtein_distance("abc", ""), 3);
    assert_eq!(levenshtein_distance("same", "same"), 0);
}

#[test]
fn levenshtein_upper_cases_names_with_capitals() {
    // "Abc" holds a capital, so it is compared as "ABC"; "abc" is kept as is.
    assert_eq!(levenshtein_distance("Abc", "abc"), 3);
    assert_eq!(levenshtein_distance("Abc", "ABC"), 0);
    assert_eq!(levenshtein_distance("abc", "abd"), 1);
}

#[test]
fn edit_distance_on_chars() {
    let a: Vec<char> = "flaw".chars().collect();
    let b: Vec<char> = "lawn".chars().collect();
    assert_eq!(edit_distance(&a, &b), 2);
    assert_eq!(edit_distance(&b, &a), 2);
}

#[test]
fn most_similar_name_skips_the_original() {
    let cands = vec!["data_q".to_string(), "data_d".to_string(), "addr".to_string()];
    assert_eq!(find_most_similar_name("data_q", &cands), Some("data_d".to_string()));
    assert_eq!(find_most_similar_name("x", &[]), None);
    assert_eq!(find_most_similar_name("x", &["x".to_string()]), None);
    // Ties go to the first candidate.
    let tied = vec!["ab".to_string(), "ba".to_string()];
    assert_eq!(find_most_similar_name("aa", &tied), Some("ab".to_string()));
}

#[test]
fn merge_contiguous_locates() {
    let mut v = vec![
        SrcLocate { offset: 13, line: 2, len: 2 },
        SrcLocate { offset: 10, line: 2, len: 3 },
    ];
    let m = merge_locates(&mut v);
    assert_eq!(v[0].offset, 10);
    assert_eq!(m, Some(SrcLocate { offset: 10, line: 2, len: 5 }));
}

#[test]
fn merge_locates_with_gap() {
    let mut gap = vec![SrcLocate { offset: 0, line: 1, len: 2 }, SrcLocate { offset: 5, line: 1, len: 1 }];
    assert_eq!(merge_locates(&mut gap), None);
    // After a gap the next position starts afresh.
    let mut restart = vec![
        SrcLocate { offset: 0, line: 1, len: 2 },
        SrcLocate { offset: 5, line: 1, len: 1 },
        SrcLocate { offset: 9, line: 3, len: 4 },
    ];
    assert_eq!(merge_locates(&mut restart), Some(SrcLocate { offset: 9, line: 3, len: 4 }));
    let mut empty: Vec<SrcLocate> = vec![];
    assert_eq!(merge_locates(&mut empty), None);
}

#[test]
fn belong_blocks_per_scope() {
    let mgr = manager();
    let found = get_belong_blocks(&mgr, "alu", 7);
    assert_eq!(found.len(), 1);
    assert_eq!(found[0].bid, 2);
    assert!(get_belong_blocks(&mgr, "dec", 3).is_empty());
    let dec = get_belong_blocks(&mgr, "dec", 7);
    assert_eq!(dec.len(), 1);
    assert_eq!(dec[0].bid, 4);
}

#[test]
fn module_line_infos() {
    let mgr = manager();
    let infos = process_module_line(&mgr, "alu", 9).unwrap();
    assert_eq!(infos.len(), 1);
    assert_eq!(infos[0].block_id, 3);
    assert_eq!(infos[0].scope, "TOP.u");
    assert_eq!(infos[0].line_number, 9);
    assert!(process_module_line(&mgr, "alu", 100).unwrap().is_empty());
}

#[test]
fn module_name_line_in_text() {
    let text = "// header\n  module alu_core (\n  input a\n";
    let r = get_module_name_with_line_from_text(text, r"^(\s*module\s+\w+)");
    assert_eq!(r, Some(("  module alu_core".to_string(), 1)));
    assert_eq!(get_module_name_with_line_from_text("no modules", r"^(\s*module\s+\w+)"), None);
}

#[test]
fn json_text_in_replies() {
    let fenced = "Here it is:\n```json\n{\"a\": 1}\n```\nbye";
    assert_eq!(json_md_text(fenced), Some("{\"a\": 1}".to_string()));
    let bare = "answer {\"b\": [2]} done";
    assert_eq!(json_md_text(bare), Some("{\"b\": [2]}".to_string()));
    assert_eq!(json_md_text("nothing here"), None);
}

fn timed(text: &str, offset: usize, t: i64) -> (NodeID, i64) {
    (node(text, offset), t)
}

#[test]
fn port_vote_needs_a_majority() {
    let answers = vec![Some(vec![timed("a", 0, 5)]), None, None];
    assert_eq!(vote_for_ports(&answers, 3, 2), None);
    let answers = vec![Some(vec![timed("a", 0, 5), timed("b", 1, 5)]), Some(vec![timed("b", 1, 5)]), None];
    let r = vote_for_ports(&answers, 3, 1).unwrap();
    assert_eq!(r.len(), 1);
    assert_eq!(r[0].0.get_text(), "b");
    // Nothing was asked: no majority.
    assert_eq!(vote_for_ports(&vec![], 0, 3), None);
}

#[test]
fn block_vote_ranks_and_flags() {
    let answers = vec![
        (Some(vec![timed("a", 0, 4), timed("c", 2, 4)]), true, false),
        (Some(vec![timed("c", 2, 4)]), true, false),
        (None, false, true),
        (Some(vec![timed("a", 0, 4)]), false, false),
    ];
    let v = vote_for_blocks(&answers, 4, 5);
    assert!(v.suspicious);
    let next = v.next.unwrap();
    // Both are named twice; equal counts come in node order.
    assert_eq!(next.len(), 2);
    assert_eq!(next[0].0.get_text(), "a");
    assert_eq!(next[1].0.get_text(), "c");
}

#[test]
fn block_vote_terminates_on_majority() {
    let answers = vec![
        (Some(vec![timed("a", 0, 4)]), false, true),
        (None, false, true),
        (None, true, false),
    ];
    let v = vote_for_blocks(&answers, 3, 5);
    assert!(!v.suspicious);
    assert!(v.next.is_none());
}

#[test]
fn earlier_times_of_kept_votes_are_dropped() {
    let answers = vec![Some(vec![timed("a", 0, 9), timed("a", 0, 3)]), Some(vec![timed("a", 0, 3)])];
    let r = vote_for_ports(&answers, 2, 5).unwrap();
    assert_eq!(r.len(), 1);
    assert_eq!(r[0].1, 9);
}

#[test]
fn block_vote_maps_through_input_ports() {
    let mgr = manager();
    let voted = Some(vec![timed("a", 0, 4), timed("y", 0, 4)]);
    let (scope, vars) = block_vote_outcome(&mgr, "TOP.u", "TOP.u", &voted).unwrap();
    assert_eq!(scope, "TOP");
    assert_eq!(vars.len(), 2);
    assert_eq!(vars[0].0.get_text(), "top_a");
    assert_eq!(vars[0].1, Some(4));
    assert_eq!(vars[1].0.get_text(), "y");
    let none = block_vote_outcome(&mgr, "TOP.v", "TOP.v", &Some(vec![timed("b", 0, 1)])).unwrap();
    assert_eq!(none.0, "TOP.v");
    assert!(block_vote_outcome(&mgr, "TOP.u", "TOP.u", &None).is_none());
}

#[test]
fn port_vote_outcomes() {
    let mgr = manager();
    let ports = build_port_blocks_for_module_check(&mgr, "TOP.u", Some(6));
    assert_eq!(ports.len(), 1);
    assert_eq!(ports[0].0.bid, 1);
    assert_eq!(ports[0].1, 6);
    match port_vote_outcome("TOP.u", &None, true, &ports) {
        PortOutcome::Dive(EarlyStop::Module(v)) => {
            assert_eq!(v.len(), 1);
            assert_eq!(v[0].0, "TOP.u");
            assert_eq!(v[0].1.get_text(), "a");
            assert_eq!(v[0].2, Some(6));
        },
        _ => panic!("expected a dive with an early stop"),
    }
    assert!(matches!(port_vote_outcome("TOP.u", &None, false, &ports), PortOutcome::Dive(EarlyStop::NoStop)));
    match port_vote_outcome("TOP.u", &Some(vec![timed("a", 0, 2)]), true, &ports) {
        PortOutcome::Follow(s, v) => {
            assert_eq!(s, "TOP.u");
            assert_eq!(v[0].1, Some(2));
        },
        _ => panic!("expected to follow the voted signals"),
    }
}

#[test]
fn suspects_are_recorded_once() {
    let mut s = Suspects::new();
    s.add_suspicious_module((node("a", 0), Some(1)), "alu".to_string());
    s.add_suspicious_module((node("a", 0), Some(1)), "alu".to_string());
    s.add_suspicious_module((node("a", 0), Some(2)), "alu".to_string());
    assert_eq!(s.modules.len(), 2);
    let b = block(7, BlockType::Assign, &["a"], &[("y", 1)], "alu");
    s.add_suspicious_block((node("y", 0), None), b.duplicate());
    s.add_suspicious_block((node("y", 0), None), b.duplicate());
    assert_eq!(s.blocks.len(), 1);
    let mods = s.get_localized_modules();
    assert_eq!(mods[0].0, "alu");
    assert_eq!(mods[1].1.as_ref().unwrap().1, Some(2));
    let blocks = s.get_localized_blocks();
    assert_eq!(blocks[0].0.bid, 7);
}

#[test]
fn visited_input_ports_in_port_order() {
    let mgr = manager();
    let trace = vec![
        (block(2, BlockType::Assign, &["a"], &[("y", 7)], "alu"), None),
        (block(1, BlockType::ModuleInput, &["top_a"], &[("a", 3)], "alu"), Some(5)),
        (block(1, BlockType::ModuleInput, &["top_a"], &[("a", 3)], "alu"), Some(4)),
    ];
    let ports = filter_input_ports_from_trace(&mgr, "TOP.u", &trace);
    assert_eq!(ports.len(), 2);
    assert_eq!(ports[0].0.bid, 1);
    assert_eq!(ports[0].1, 5);
    assert_eq!(ports[1].1, 4);
}
