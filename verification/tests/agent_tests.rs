use sv_analysis::agent::{
    block_checker_decision, clean_signal_name, match_checked_signals, module_checker_decision,
    module_input_nodes, toolcall_decision,
};
use sv_analysis::block::{BlockType, NodeID, NodeLocate};
use sv_analysis::dfb::DataFlowBlock;

fn n(text: &str, off: usize) -> NodeID {
    NodeID::new_identifier(NodeLocate::new(off, 1, 1, text.len()), text)
}

fn names(v: &Vec<(NodeID, i64)>) -> Vec<(String, i64)> {
    v.iter().map(|(k, t)| (k.get_text().to_string(), *t)).collect()
}

fn inputs() -> Vec<(NodeID, i64)> {
    vec![(n("a", 0), 5), (n("b", 1), 5), (n("a", 2), 7), (n("c", 3), 9)]
}

#[test]
fn clean_names() {
    assert_eq!(clean_signal_name("var_1[0]").into_iter().collect::<String>(), "var_1");
    assert_eq!(clean_signal_name("plain").into_iter().collect::<String>(), "plain");
}

#[test]
fn exact_then_by_name() {
    let ins = inputs();
    let picked = vec![("a".to_string(), 7), ("b[3]".to_string(), 1)];
    let r = match_checked_signals(&ins, &picked);
    assert_eq!(names(&r), vec![("a".to_string(), 7), ("b".to_string(), 5)]);
}

#[test]
fn checker_stops_when_told() {
    let ins = inputs();
    let r = block_checker_decision(&ins, true, Some(true), None).unwrap();
    assert!(r.0.is_none());
    assert!(r.1 && r.2);
    assert!(block_checker_decision(&ins, true, None, None).is_none());
}

#[test]
fn checker_falls_back_to_all_inputs() {
    let ins = inputs();
    let r = block_checker_decision(&ins, false, Some(false), Some(vec![("zz".to_string(), 1)])).unwrap();
    assert_eq!(names(&r.0.unwrap()).len(), 4);
    let r = block_checker_decision(&vec![], false, Some(false), None).unwrap();
    assert!(r.0.is_none());
}

#[test]
fn checker_dedups_picked() {
    let ins = inputs();
    let picked = vec![("a".to_string(), 1), ("a".to_string(), 5)];
    let r = block_checker_decision(&ins, false, Some(false), Some(picked)).unwrap();
    assert_eq!(names(&r.0.unwrap()), vec![("a".to_string(), 5), ("a".to_string(), 7)]);
}

#[test]
fn toolcall_verdicts() {
    let ins = inputs();
    let r = toolcall_decision(&ins, true, true, &vec![]);
    assert!(r.0.is_none() && r.1 && r.2);
    let r = toolcall_decision(&ins, false, true, &vec![("c".to_string(), 9)]);
    assert_eq!(names(&r.0.unwrap()), vec![("c".to_string(), 9)]);
    assert!(!r.2);
    let r = toolcall_decision(&ins, false, true, &vec![("nope".to_string(), 9)]);
    assert!(r.0.is_none() && r.2);
}

#[test]
fn module_checker_verdicts() {
    let ins = inputs();
    assert!(module_checker_decision(&ins, None, None).is_none());
    assert!(module_checker_decision(&ins, Some(true), None).unwrap().is_none());
    assert!(module_checker_decision(&ins, Some(false), None).is_none());
    let r = module_checker_decision(&ins, Some(false), Some(vec![("a[1]".to_string(), 5)])).unwrap().unwrap();
    assert_eq!(names(&r), vec![("a".to_string(), 5)]);
    let r = module_checker_decision(&ins, Some(false), Some(vec![("a".to_string(), 6)])).unwrap();
    assert!(r.is_none());
}

#[test]
fn module_inputs_from_port_blocks() {
    let mut p = DataFlowBlock::new(1, "m", "TOP", BlockType::ModuleInput);
    p.add_output_node(n("in_a", 0));
    let mut q = DataFlowBlock::new(2, "m", "TOP", BlockType::ModuleOutput);
    q.add_output_node(n("out_b", 1));
    let v = module_input_nodes(&vec![(p, 3), (q, 4)]);
    assert_eq!(names(&v), vec![("in_a".to_string(), 3)]);
}
