use sv_analysis::wave::{decimal_string, map_scope_candidates, WaveformManager, WaveformTable};

fn s(v: &[&str]) -> Vec<String> {
    v.iter().map(|x| x.to_string()).collect()
}

#[test]
fn decimal_rendering() {
    assert_eq!(decimal_string(0), "0");
    assert_eq!(decimal_string(7), "7");
    assert_eq!(decimal_string(1234567890), "1234567890");
    assert_eq!(decimal_string(u64::MAX), u64::MAX.to_string());
}

#[test]
fn bit_width_and_value() {
    assert_eq!(
        WaveformManager::extract_bit_width_and_value(Some(32), "0x01"),
        ("32".to_string(), "0x01".to_string())
    );
    assert_eq!(
        WaveformManager::extract_bit_width_and_value(None, "Unknown"),
        ("Unknown bit-width".to_string(), "Unknown".to_string())
    );
}

#[test]
fn signal_values_report() {
    let mut mgr = WaveformManager::new("sim.fst");
    let read = vec![("a".to_string(), Some(1), "0x1".to_string()), ("b".to_string(), None, "IDLE".to_string())];
    let r = mgr.get_signal_value_at_time(&s(&["TOP", "core"]), &read, 15);
    assert_eq!(
        r,
        vec![
            ("a".to_string(), ("0x1".to_string(), "1".to_string(), 15)),
            ("b".to_string(), ("IDLE".to_string(), "Unknown bit-width".to_string(), 15)),
        ]
    );
    assert_eq!(mgr.waveform_path, "sim.fst");
}

#[test]
fn scope_paths_without_dots() {
    assert!(WaveformManager::check_scope_path(&s(&["TOP", "core"])));
    assert!(!WaveformManager::check_scope_path(&s(&["TOP.core"])));
}

#[test]
fn table_rows_by_time() {
    let mut t = WaveformTable::new(false);
    t.add_row(5, &vec![("a".to_string(), "1".to_string())]);
    t.add_row(5, &vec![("a".to_string(), "2".to_string()), ("b".to_string(), "3".to_string())]);
    t.add_row(7, &vec![("c".to_string(), "4".to_string())]);
    assert_eq!(t.rows.len(), 2);
    assert_eq!(t.rows[0].1, vec![("a".to_string(), "2".to_string()), ("b".to_string(), "3".to_string())]);
    let text = t.make_table_string_at_time(5);
    assert!(text.contains("signals"));
    assert!(text.contains("| a "));
    assert!(text.contains("time"));
    let whole = t.to_string();
    assert!(whole.contains("\n\n"));
}

#[test]
fn table_without_time_row() {
    let mut t = WaveformTable::new(true);
    t.add_row(5, &vec![("a".to_string(), "1".to_string())]);
    assert!(!t.make_table_string_at_time(5).contains("time"));
}

#[test]
fn display_one_time() {
    let mut mgr = WaveformManager::new("w.fst");
    let text = mgr.display_signal_values_at_time(&s(&["TOP"]), &vec![("x".to_string(), "5".to_string())], 3);
    assert!(text.contains("| x "));
    assert!(text.contains("| 3 "));
}

#[test]
fn display_batch_groups_times() {
    let mut mgr = WaveformManager::new("w.fst");
    let read = vec![
        ((1usize, "x".to_string()), "5".to_string()),
        ((2usize, "y".to_string()), "6".to_string()),
        ((1usize, "z".to_string()), "7".to_string()),
    ];
    let text = mgr.display_signal_values_with_batch(&s(&["TOP"]), &read, true);
    assert_eq!(text.matches("signals").count(), 2);
}

#[test]
fn scope_candidates_best_first() {
    let index = vec![
        (s(&["alu", "core", "top"]), s(&["top", "core", "alu"])),
        (s(&["alu", "other"]), s(&["other", "alu"])),
        (s(&["mul", "core", "top"]), s(&["top", "core", "mul"])),
    ];
    let r = map_scope_candidates(&s(&["TOP", "core", "alu"]), &index);
    assert_eq!(r, vec![(2, s(&["top", "core", "alu"])), (1, s(&["other", "alu"]))]);
    let none = map_scope_candidates(&s(&["x"]), &index);
    assert!(none.is_empty());
}
