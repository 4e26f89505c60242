use sv_analysis::block::{NodeID, NodeLocate};
use sv_analysis::dataflow::{get_all_from_always, AlwaysEvent};

fn n(text: &str, off: usize) -> NodeID {
    NodeID::new_identifier(NodeLocate::new(off, 1, 1, text.len()), text)
}

fn texts(v: &Vec<NodeID>) -> Vec<String> {
    v.iter().map(|x| x.get_text().to_string()).collect()
}

#[test]
fn assignments_under_conditions() {
    let events = vec![
        AlwaysEvent::CondPredicate(Some(vec![n("en", 0)])),
        AlwaysEvent::Assignment(vec![n("q", 1)], vec![n("d", 2)]),
        AlwaysEvent::LeaveConditional,
        AlwaysEvent::Assignment(vec![n("r", 3)], vec![n("s", 4)]),
    ];
    let flow = get_all_from_always(&events);
    assert_eq!(flow.len(), 2);
    assert_eq!(flow[0].0.get_text(), "q");
    assert_eq!(texts(&flow[0].1), vec!["d", "en"]);
    assert_eq!(texts(&flow[1].1), vec!["s"]);
}

#[test]
fn case_default_covers_declarations() {
    let events = vec![
        AlwaysEvent::CaseExpression(vec![n("sel", 0)]),
        AlwaysEvent::VariableDeclAssignment(vec![n("t", 1)], vec![n("u", 2)]),
        AlwaysEvent::VariableDeclAssignment(vec![n("v", 3)], vec![]),
        AlwaysEvent::CaseItemDefault(vec![n("v", 9)]),
        AlwaysEvent::LeaveCase,
        AlwaysEvent::Assignment(vec![n("w", 4)], vec![]),
    ];
    let flow = get_all_from_always(&events);
    assert_eq!(flow.len(), 3);
    assert_eq!(texts(&flow[0].1), vec!["u", "sel", "sel"]);
    assert_eq!(texts(&flow[1].1), vec!["sel"]);
    assert!(flow[2].1.is_empty());
}

#[test]
fn predicate_without_expression() {
    let events = vec![
        AlwaysEvent::CondPredicate(None),
        AlwaysEvent::CondPredicate(Some(vec![n("c", 0)])),
        AlwaysEvent::Assignment(vec![n("q", 1), n("p", 2)], vec![]),
        AlwaysEvent::LeaveConditional,
    ];
    let flow = get_all_from_always(&events);
    assert_eq!(flow.len(), 2);
    assert_eq!(texts(&flow[1].1), vec!["c"]);
}
