use sv_analysis::mutation::{mutation_step, splice, MutationAction, MutationEvent, MutationState, RETRY_LIMIT};
use sv_analysis::mutation_rules::{confuse_name, mutation_positions, parse_radix, rewrite_constant, swap_operator, MutationSite, SiteEvent};

fn key(m: &str, off: usize, rep: &str) -> (String, usize, String) {
    (m.to_string(), off, rep.to_string())
}

#[test]
fn splice_replaces_and_ends_line() {
    assert_eq!(splice("assign a = b & c;", 11, 5, "b | c"), "assign a = b | c;\n");
    assert_eq!(splice("xyz", 0, 0, "w"), "wxyz\n");
    assert_eq!(splice("xyz", 3, 0, ""), "xyz\n");
}

#[test]
fn new_candidate_is_written_and_recorded() {
    let s = MutationState::start(Vec::new());
    let (s, a) = mutation_step(
        s,
        MutationEvent::Candidate { scope: "TOP.u".to_string(), key: key("m", 4, "~a"), has_oracle: true },
        false,
    );
    assert!(a == MutationAction::Write);
    assert_eq!(s.retries, 0);
    assert_eq!(s.visited, vec![key("m", 4, "~a")]);
}

#[test]
fn visited_candidate_counts_a_retry() {
    let s = MutationState::start(vec![key("m", 4, "~a")]);
    let (s, a) = mutation_step(
        s,
        MutationEvent::Candidate { scope: "TOP.u".to_string(), key: key("m", 4, "~a"), has_oracle: true },
        false,
    );
    assert!(a == MutationAction::PickScope);
    assert_eq!(s.retries, 1);
    assert_eq!(s.feedback, Some("TOP.u".to_string()));
    assert_eq!(s.visited.len(), 1);
}

#[test]
fn forced_oracle_skips_positions_outside_blocks() {
    let s = MutationState::start(Vec::new());
    let (s, a) = mutation_step(
        s,
        MutationEvent::Candidate { scope: "TOP.u".to_string(), key: key("m", 4, "~a"), has_oracle: false },
        true,
    );
    assert!(a == MutationAction::PickScope);
    assert_eq!(s.retries, 0);
    assert!(s.visited.is_empty());
}

#[test]
fn passed_check_is_saved() {
    let s = MutationState::start(Vec::new());
    let (s, a) = mutation_step(s, MutationEvent::Checked { scope: "TOP.u".to_string(), passed: true }, false);
    assert!(a == MutationAction::Save);
    assert!(s.success);
}

#[test]
fn failures_reach_the_limit() {
    let mut s = MutationState::start(Vec::new());
    let mut last = MutationAction::PickScope;
    for _ in 0..RETRY_LIMIT {
        let (n, a) = mutation_step(s, MutationEvent::Checked { scope: "TOP.u".to_string(), passed: false }, false);
        s = n;
        last = a;
    }
    assert_eq!(s.retries, RETRY_LIMIT);
    assert!(last == MutationAction::GiveUp);
    let s2 = MutationState::start(Vec::new());
    let (s2, a) = mutation_step(s2, MutationEvent::NoPositions, false);
    assert!(a == MutationAction::PickScope);
    assert_eq!(s2.retries, 0);
}

#[test]
fn operators_swap_in_pairs() {
    assert_eq!(swap_operator("+"), Some("-".to_string()));
    assert_eq!(swap_operator("&&"), Some("||".to_string()));
    assert_eq!(swap_operator(">="), Some("<=".to_string()));
    assert_eq!(swap_operator("!="), Some("==".to_string()));
    assert_eq!(swap_operator("^"), None);
}

#[test]
fn constants_are_rewritten_in_their_base() {
    assert_eq!(parse_radix("ff", 16), Some(255));
    assert_eq!(parse_radix("+101", 2), Some(5));
    assert_eq!(parse_radix("19", 8), None);
    assert_eq!(rewrite_constant("0", 10, 0), Some("1".to_string()));
    assert_eq!(rewrite_constant("42", 10, 7), Some("7".to_string()));
    assert_eq!(rewrite_constant("0000", 2, 0), Some("0001".to_string()));
    assert_eq!(rewrite_constant("1010", 2, 3), Some("0011".to_string()));
    assert_eq!(rewrite_constant("77", 8, 9), Some("11".to_string()));
    assert_eq!(rewrite_constant("FF", 16, 171), Some("AB".to_string()));
    assert_eq!(rewrite_constant("x1", 16, 0), None);
}

#[test]
fn names_are_confused_with_similar_ones() {
    let cands = vec!["data_in".to_string(), "data_out".to_string(), "clk".to_string()];
    assert_eq!(
        confuse_name("data_in & data_in_q", "data_in", &cands),
        Some("data_out & data_out_q".to_string())
    );
    assert_eq!(confuse_name("WIDTH + 1", "WIDTH", &cands), None);
    assert_eq!(confuse_name("a", "a", &vec!["a".to_string()]), None);
}

#[test]
fn positions_skip_ports_and_unreached_lines() {
    let cands = vec!["b".to_string(), "bb".to_string()];
    let events = vec![
        SiteEvent { site: MutationSite::Operator { text: "+".to_string() }, covered: true, in_port: false },
        SiteEvent { site: MutationSite::Operator { text: "-".to_string() }, covered: false, in_port: false },
        SiteEvent { site: MutationSite::Constant { text: "3".to_string(), radix: 10, draw: 2 }, covered: true, in_port: true },
        SiteEvent { site: MutationSite::Constant { text: "3".to_string(), radix: 10, draw: 2 }, covered: true, in_port: false },
        SiteEvent { site: MutationSite::Expression { text: "b + c".to_string(), name: "b".to_string() }, covered: true, in_port: false },
        SiteEvent { site: MutationSite::Other, covered: true, in_port: false },
    ];
    let r = mutation_positions(&events, &cands);
    assert_eq!(
        r,
        vec![(0, "-".to_string(), 0), (3, "2".to_string(), 1), (4, "bb + c".to_string(), 2)]
    );
}
