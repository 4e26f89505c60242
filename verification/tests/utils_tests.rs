use sv_analysis::utils::{extract_signal_suffix, get_last_scope, get_next_scope, top_k_items};
use sv_analysis::vote::top_k_strings;

#[test]
fn test_extract_suffix() {
    assert_eq!(
        extract_signal_suffix("io_in_bits_decode_cf_redirect_target"),
        "redirect_target"
    );
    assert_eq!(
        extract_signal_suffix("_exu_io_out_bits_decode_cf_redirect_target"),
        "redirect_target"
    );
    assert_eq!(extract_signal_suffix("io_redirect_target"), "redirect_target");
    assert_eq!(extract_signal_suffix("io_out_bits"), "out_bits");
    assert_eq!(extract_signal_suffix("io_in_bits_func"), "bits_func");
}

#[test]
fn test_top_k_items() {
    let items: Vec<String> = vec![
        "apple", "banana", "cherry", "banana", "cherry", "apple", "cherry", "durian",
    ]
    .into_iter()
    .map(String::from)
    .collect();

    let top_3 = top_k_strings(&items, 3);
    assert_eq!(top_3, vec![("cherry".to_string(), 3), ("apple".to_string(), 2), ("banana".to_string(), 2)]);
}

#[test]
fn test_empty_list() {
    let items: Vec<String> = vec![];
    let top = top_k_strings(&items, 5);
    assert!(top.is_empty());
}

#[test]
fn test_k_larger_than_unique_items() {
    let items = vec![1, 2, 2, 3, 3, 3];
    let top = top_k_items(items, 10);
    assert_eq!(top, vec![(3, 3), (2, 2), (1, 1)]);
}

#[test]
fn test_get_last_scope() {
    let name = "TOP.ex.alu";
    assert_eq!(Some("TOP.ex"), get_last_scope(name));

    let name = "TOP";
    assert_eq!(None, get_last_scope(name));
}

#[test]
fn top_k_doc_example_two_items() {
    let items: Vec<String> = vec!["apple", "banana", "cherry", "banana", "cherry", "apple", "cherry", "durian"]
        .into_iter()
        .map(String::from)
        .collect();
    let top_2 = top_k_strings(&items, 2);
    assert_eq!(top_2, vec![("cherry".to_string(), 3), ("apple".to_string(), 2)]);
}

#[test]
fn top_k_zero_gives_nothing() {
    let top = top_k_items(vec![1, 1, 2], 0);
    assert!(top.is_empty());
}

#[test]
fn next_scope_joins_with_dot() {
    assert_eq!(get_next_scope("TOP.ex", "alu_i"), Some("TOP.ex.alu_i".to_string()));
}

#[test]
fn last_scope_of_deep_name() {
    assert_eq!(get_last_scope("a.b.c.d"), Some("a.b.c"));
}

#[test]
fn suffix_without_markers_is_whole_name() {
    assert_eq!(extract_signal_suffix("clk"), "clk");
}

fn owned(items: &[&str]) -> Vec<String> {
    items.iter().map(|s| s.to_string()).collect()
}

#[test]
fn top_k_strings_ranks_texts() {
    let items = owned(&["apple", "banana", "cherry", "banana", "cherry", "apple", "cherry", "durian"]);
    let top_3 = top_k_strings(&items, 3);
    assert_eq!(top_3, vec![("cherry".to_string(), 3), ("apple".to_string(), 2), ("banana".to_string(), 2)]);
    let top_2 = top_k_strings(&items, 2);
    assert_eq!(top_2, vec![("cherry".to_string(), 3), ("apple".to_string(), 2)]);
    assert!(top_k_strings(&Vec::new(), 5).is_empty());
    assert!(top_k_strings(&items, 0).is_empty());
}
