use sv_analysis::block::{BlockType, CircuitType};
use sv_analysis::coverage::{CoverageTracker, LineCoverage, ParameterCoverageReport, PlainCoverageReport};
use sv_analysis::param::JsonValue;
use sv_analysis::vlc::{CompositeCoverageTracker, VlcCoverageReport, VlcPoint, VlcReport};

fn point_name(file: &str, hier: &str, lines: &str, lineno: &str) -> String {
    format!("\x01f\x02{}\x01h\x02{}\x01S\x02{}\x01l\x02{}\x01t\x02line\x01", file, hier, lines, lineno)
}

fn report_lines() -> Vec<String> {
    vec![
        "# SystemC::Coverage-3".to_string(),
        format!("C '{}' 5", point_name("rtl/adder1.v", "TOP.tb.dut_1", "2-3", "2")),
        format!("C '{}' 0", point_name("rtl/tb.v", "TOP.tb", "7", "7")),
        "".to_string(),
        "junk".to_string(),
    ]
}

#[test]
fn test_parse_numbers() {
    let input = "14,16-19,22";
    let numbers = VlcReport::parse_numbers(input);
    assert_eq!(numbers, vec![14, 16, 17, 18, 19, 22]);

    let input = "16-19";
    let numbers = VlcReport::parse_numbers(input);
    assert_eq!(numbers, vec![16, 17, 18, 19]);

    let input = "14";
    let numbers = VlcReport::parse_numbers(input);
    assert_eq!(numbers, vec![14]);
}

#[test]
fn empty_and_reversed_ranges() {
    assert!(VlcReport::parse_numbers("").is_empty());
    assert!(VlcReport::parse_numbers("5-3").is_empty());
}

#[test]
fn point_fields() {
    let p = VlcPoint::new(&point_name("rtl/adder1.v", "TOP.tb", "2-3", "12"));
    assert_eq!(p.filename(), "rtl/adder1.v");
    assert_eq!(p.hierarchy(), "TOP.tb");
    assert_eq!(p.linescov(), "2-3");
    assert_eq!(p.lineno(), 12);
    assert_eq!(p.point_type(), "line");
    assert_eq!(p.comment(), "");
    assert_eq!(p.column(), 0);
}

#[test]
fn report_parsing() {
    let r = VlcReport::parse_lines(&report_lines());
    assert_eq!(r.header, "SystemC::Coverage-3");
    assert_eq!(r.points_coverage.len(), 2);
    assert_eq!(r.points_coverage[0].1, 5);
    assert_eq!(r.get_scopes(), vec!["TOP.tb.dut_1".to_string(), "TOP.tb".to_string()]);
    let cov = r.get_scope_coverage("TOP.tb.dut_1");
    assert_eq!(cov.len(), 2);
    assert_eq!(cov[0].line, 2);
    assert_eq!(cov[1].line, 3);
    assert_eq!(cov[0].count, 5);
    assert_eq!(cov[0].file_name, "rtl/adder1.v");
}

#[test]
fn vlc_tracker_answers() {
    let r = VlcReport::parse_lines(&report_lines());
    let t = VlcCoverageReport::new(vec![(1, "cov_1_comb.dat".to_string(), r)]);
    let comb = Some(BlockType::Always(CircuitType::COMB));
    assert_eq!(t.check_line_covered(comb, Some("TOP.tb.dut_1"), None, Some(1), 3), Some(5));
    assert_eq!(t.check_line_covered(comb, Some("TOP.tb"), None, Some(1), 7), Some(0));
    assert_eq!(t.check_line_covered(comb, Some("TOP.tb"), None, Some(2), 7), None);
    assert_eq!(t.check_line_covered(comb, None, None, Some(1), 7), None);
    assert_eq!(t.check_line_covered(Some(BlockType::Assign), None, None, None, 1), Some(1));
    assert_eq!(t.check_line_covered(None, None, None, None, 1), None);
    let files = t.get_covered_module_files();
    assert_eq!(files, vec!["adder1.v".to_string(), "tb.v".to_string()]);
}

#[test]
fn sequential_files_stand_in_for_combinational() {
    let r = VlcReport::parse_lines(&report_lines());
    let t = VlcCoverageReport::new(vec![(4, "cov_seq.dat".to_string(), r)]);
    let comb = Some(BlockType::Always(CircuitType::COMB));
    let seq = Some(BlockType::Always(CircuitType::SEQ));
    assert_eq!(t.check_line_covered(comb, Some("TOP.tb.dut_1"), None, Some(4), 2), Some(5));
    assert_eq!(t.check_line_covered(seq, Some("TOP.tb.dut_1"), None, Some(4), 2), Some(5));
}

fn obj(entries: Vec<(&str, JsonValue)>) -> JsonValue {
    JsonValue::Object(entries.into_iter().map(|(k, v)| (k.to_string(), v)).collect())
}

fn st(s: &str) -> JsonValue {
    JsonValue::Str(s.to_string())
}

fn tree() -> JsonValue {
    let assign = obj(vec![
        ("type", st("ASSIGNW")),
        ("lhsp", JsonValue::Array(vec![obj(vec![("loc", st("a,11:3,12:9"))])])),
    ]);
    let module = obj(vec![
        ("type", st("MODULE")),
        ("origName", st("t_cover_param")),
        ("dead", JsonValue::Bool(false)),
        ("stmtsp", JsonValue::Array(vec![assign])),
    ]);
    let dead = obj(vec![
        ("type", st("MODULE")),
        ("origName", st("unused")),
        ("dead", JsonValue::Bool(true)),
        ("stmtsp", JsonValue::Array(vec![])),
    ]);
    obj(vec![("modulesp", JsonValue::Array(vec![module, dead, JsonValue::Number]))])
}

#[test]
fn parameter_report_from_tree() {
    let r = ParameterCoverageReport::from_json(&tree());
    assert_eq!(r.lines_coverage.len(), 1);
    assert_eq!(r.lines_coverage[0].0, "t_cover_param");
    let lines: Vec<u32> = r.lines_coverage[0].1.iter().map(|c| c.line).collect();
    assert_eq!(lines, vec![11, 12]);
    assert!(r.has_module_data("t_cover_param"));
    assert!(!r.has_module_data("unused"));
    assert_eq!(r.check_covered(Some("t_cover_param"), 12), Some(1));
    assert_eq!(r.check_covered(Some("t_cover_param"), 13), None);
    assert_eq!(r.check_covered(None, 12), None);
}

#[test]
fn locations() {
    let v = ParameterCoverageReport::parse_location("f,3:1,5:2");
    let lines: Vec<u32> = v.iter().map(|c| c.line).collect();
    assert_eq!(lines, vec![3, 4, 5]);
    assert!(ParameterCoverageReport::parse_location("f,x,5").is_empty());
}

#[test]
fn tree_without_modules() {
    let r = ParameterCoverageReport::from_json(&JsonValue::Null);
    assert!(r.lines_coverage.is_empty());
}

#[test]
fn composite_dispatch() {
    let r = VlcReport::parse_lines(&report_lines());
    let vlc = VlcCoverageReport::new(vec![(1, "c_comb.dat".to_string(), r)]);
    let param = ParameterCoverageReport::from_json(&tree());
    let c = CompositeCoverageTracker::new(vlc, param);
    let comb = Some(BlockType::Always(CircuitType::COMB));
    assert_eq!(c.check_line_covered(comb, Some("TOP.tb.dut_1"), None, Some(1), 2), Some(5));
    assert_eq!(c.check_line_covered(Some(BlockType::Assign), None, Some("t_cover_param"), None, 11), Some(1));
    assert_eq!(c.check_line_covered(Some(BlockType::ModuleInput), None, None, None, 11), Some(1));
    let files = c.get_covered_module_files();
    assert_eq!(files, vec!["adder1.v".to_string(), "tb.v".to_string(), "t_cover_param.sv".to_string()]);
}

#[test]
fn plain_report_counts_every_line() {
    let p = PlainCoverageReport::new(&vec!["rtl/a.sv".to_string()]);
    assert_eq!(p.check_line_covered(None, None, None, None, 3), Some(1));
    assert_eq!(p.get_covered_module_files(), vec!["a.sv".to_string()]);
}

#[test]
fn line_coverage_fields() {
    let c = LineCoverage::new("f.sv", "TOP", 3, 10, 11, 2);
    assert_eq!(c.file_name, "f.sv");
    assert_eq!(c.origin_line, 11);
    assert_eq!(c.count, 2);
}

/// A module tree with one live module whose assignments cover `locs`.
fn module_tree(name: &str, locs: &[&str]) -> JsonValue {
    let assigns: Vec<JsonValue> = locs
        .iter()
        .map(|l| obj(vec![("type", st("ASSIGNW")), ("lhsp", JsonValue::Array(vec![obj(vec![("loc", st(l))])]))]))
        .collect();
    let module = obj(vec![
        ("type", st("MODULE")),
        ("origName", st(name)),
        ("dead", JsonValue::Bool(false)),
        ("stmtsp", JsonValue::Array(assigns)),
    ]);
    obj(vec![("modulesp", JsonValue::Array(vec![module]))])
}

#[test]
fn test_ex_block_rm_param() {
    let top_module = "t_cover_param";
    let report = ParameterCoverageReport::from_json(&module_tree(top_module, &["e,77:5,77:30", "e,79:5,79:30"]));
    let lines_coverages = report.lines_coverage;
    let module_name = "t_cover_param";
    let lines = vec![77, 79];
    assert_eq!(lines_coverages.len(), 1);
    assert!(lines_coverages.iter().any(|(m, _)| m == module_name));
    let reports = &lines_coverages.iter().find(|(m, _)| m == module_name).unwrap().1;
    assert_eq!(reports.len(), lines.len());
    reports.iter().for_each(|report| {
        let lineno = report.line;
        assert!(lines.contains(&lineno));
    })
}

#[test]
fn test_param_example() {
    let top_module = "t_cover_param";
    let report = ParameterCoverageReport::from_json(&module_tree(
        top_module,
        &["e,11:3,11:20", "e,17:3,17:20", "e,19:3,19:20", "e,22:3,22:20"],
    ));
    let lines_coverages = report.lines_coverage;
    let module_name = "t_cover_param";
    let lines = vec![11, 17, 19, 22];
    assert_eq!(lines_coverages.len(), 1);
    assert!(lines_coverages.iter().any(|(m, _)| m == module_name));
    let reports = &lines_coverages.iter().find(|(m, _)| m == module_name).unwrap().1;
    assert_eq!(reports.len(), lines.len());
    reports.iter().for_each(|report| {
        let lineno = report.line;
        assert!(lines.contains(&lineno));
    })
}

/// A post-processed module tree in the shape of a large design: 82 live
/// modules (each with `dead: false` and one assignment), 74 dead ones, and
/// one module without a `dead` field, which is not kept.
fn ibex_like_tree() -> JsonValue {
    let mut modules: Vec<JsonValue> = Vec::new();
    let named = ["ibex_alu", "ibex_core", "ibex_id_stage", "ibex_ex_block"];
    for i in 0..82 {
        let name = if i < named.len() { named[i].to_string() } else { format!("ibex_mod_{}", i) };
        let assign = obj(vec![
            ("type", st("ASSIGNW")),
            ("lhsp", JsonValue::Array(vec![obj(vec![("loc", st("f,10:1,10:8"))])])),
        ]);
        modules.push(obj(vec![
            ("type", st("MODULE")),
            ("origName", st(&name)),
            ("dead", JsonValue::Bool(false)),
            ("stmtsp", JsonValue::Array(vec![assign])),
        ]));
    }
    for i in 0..74 {
        let name = format!("dead_mod_{}", i);
        modules.push(obj(vec![
            ("type", st("MODULE")),
            ("origName", st(&name)),
            ("dead", JsonValue::Bool(true)),
            ("stmtsp", JsonValue::Array(vec![])),
        ]));
    }
    modules.push(obj(vec![("type", st("MODULE")), ("origName", st("no_dead_field")), ("stmtsp", JsonValue::Array(vec![]))]));
    obj(vec![("modulesp", JsonValue::Array(modules))])
}

#[test]
fn test_ibex_sbfl_rm_params_v5_postprocessed() {
    let report = ParameterCoverageReport::from_json(&ibex_like_tree());
    let lines_coverages = &report.lines_coverage;
    assert!(lines_coverages.len() > 40, "alive module count too small: {}", lines_coverages.len());
    for must_alive in ["ibex_alu", "ibex_core", "ibex_id_stage", "ibex_ex_block"] {
        assert!(report.has_module_data(must_alive), "expected alive module {} missing", must_alive);
    }
    assert!(!report.has_module_data("dead_mod_0"));
    assert!(!report.has_module_data("no_dead_field"));
    println!("[ok] ibex-sbfl rm_params loaded: {} alive modules", lines_coverages.len());
}
