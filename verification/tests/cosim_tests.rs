use sv_analysis::cosim::{
    test_meta_data, CoSimError, CoSimResult, DutInfo, InstructionTrace, MismatchType,
    TemplateTestInfoGenerator,
};
use sv_analysis::parse::parse_hex_value;

#[test]
fn hex_values() {
    assert_eq!(parse_hex_value("ff"), Some(255));
    assert_eq!(parse_hex_value("FF"), Some(255));
    assert_eq!(parse_hex_value("+10"), Some(16));
    assert_eq!(parse_hex_value("0x10"), None);
    assert_eq!(parse_hex_value(""), None);
    assert_eq!(parse_hex_value("ffffffff"), Some(u32::MAX));
    assert_eq!(parse_hex_value("100000000"), None);
    assert_eq!(parse_hex_value(" 1"), None);
}

#[test]
fn parse_underscore_report() {
    let log = "PC_MISMATCH ORACLE=109fb8\nDUT PC:f6148\nFAILURE: Co-simulation mismatch at time 123 ns\n";
    let r = CoSimResult::parse(log, 2).unwrap();
    assert_eq!(r.mismatch, Some(MismatchType::PcMismatch(0x109fb8)));
    assert_eq!(r.dut.pc, 0xf6148);
    assert_eq!(r.failure_time, Some(123));
    assert_eq!(r.time_step, 2);
}

#[test]
fn parse_natural_pc_report() {
    let log = "  PC mismatch, DUT retired : f6148 ISS retired: 109fb8  \n";
    let r = CoSimResult::parse(log, 1).unwrap();
    assert_eq!(r.dut.pc, 0xf6148);
    assert_eq!(r.mismatch, Some(MismatchType::PcMismatch(0x109fb8)));
}

#[test]
fn natural_report_with_comma() {
    let log = "PC mismatch, DUT retired : f6148, ISS retired: 109fb8\nFAILURE: Co-simulation mismatch at time 1234";
    let r = CoSimResult::parse(log, 2).unwrap();
    assert_eq!(r.dut.pc, 0xf6148);
    assert_eq!(r.mismatch, Some(MismatchType::PcMismatch(0x109fb8)));
    assert_eq!(r.failure_time, Some(1234));
    assert_eq!(r.time_step, 2);
}

#[test]
fn parse_register_mismatches() {
    let r = CoSimResult::parse("WE_MISMATCH ORACLE=1\nDUT WE:0\n", 1).unwrap();
    assert_eq!(r.mismatch, Some(MismatchType::WeMismatch(true)));
    assert!(!r.dut.wen);
    let r = CoSimResult::parse("WADDR_MISMATCH ORACLE=5\nDUT WADDR:6\n", 1).unwrap();
    assert_eq!(r.mismatch, Some(MismatchType::WaddrMismatch(5)));
    assert_eq!(r.dut.w_addr, 6);
    let r = CoSimResult::parse("WDATA_MISMATCH\nDUT WDATA:beef\n", 1).unwrap();
    assert_eq!(r.mismatch, Some(MismatchType::WdataMismatch(0)));
    assert_eq!(r.dut.w_data, 0xbeef);
}

#[test]
fn bad_dut_value_is_refused() {
    assert_eq!(CoSimResult::parse("DUT PC: 12", 1), Err(CoSimError::InvalidHex));
}

#[test]
fn empty_report() {
    let r = CoSimResult::parse("", 4).unwrap();
    assert_eq!(r.mismatch, None);
    assert_eq!(r.failure_time, None);
    assert_eq!(r.dut, DutInfo { pc: 0, wen: false, w_addr: 0, w_data: 0 });
}

#[test]
fn trace_lines() {
    let t = InstructionTrace::parse_line("core 0: 0x00100080 (0x7390906f) j pc + 0x9f38").unwrap();
    assert_eq!(t, InstructionTrace::new(0, 0x00100080, 0x7390906f, "j pc + 0x9f38".to_string()));
    let t = InstructionTrace::parse_line("  20  6  00100080  7390906f  jal x0,f6148  x0=0").unwrap();
    assert_eq!(t, InstructionTrace::new(0, 0x00100080, 0x7390906f, "jal x0,f6148".to_string()));
    let t = InstructionTrace::parse_line("20 6 00100080 7390906f addi").unwrap();
    assert_eq!(t.instruction, "addi");
    assert!(InstructionTrace::parse_line("not a trace line").is_none());
}

#[test]
fn trace_text() {
    let text = "core 0: 0x10 (0x1) a\nnoise\ncore 1: 0x14 (0x2) b\n";
    let v = InstructionTrace::parse_string(text);
    assert_eq!(v.len(), 2);
    assert_eq!(v[1].core, 1);
    assert_eq!(v[1].pc, 0x14);
}

fn report(m: MismatchType) -> CoSimResult {
    CoSimResult {
        dut: DutInfo { pc: 0x20, wen: true, w_addr: 3, w_data: 0xab },
        mismatch: Some(m),
        failure_time: Some(101),
        time_step: 2,
    }
}

#[test]
fn context_and_relevant_instruction() {
    let g = TemplateTestInfoGenerator;
    let trace = vec![
        InstructionTrace::new(0, 0x10, 1, "a".to_string()),
        InstructionTrace::new(0, 0x14, 2, "b".to_string()),
        InstructionTrace::new(0, 0x18, 3, "c".to_string()),
        InstructionTrace::new(0, 0x1c, 4, "d".to_string()),
    ];
    let r = report(MismatchType::PcMismatch(0x30));
    assert_eq!(g.find_relevant_instruction(&trace, &r).unwrap().instruction, "d");
    let ctx = g.get_instruction_context(&trace, 3);
    assert_eq!(ctx.len(), 3);
    assert_eq!(ctx[0].instruction, "b");
    assert_eq!(g.get_instruction_context(&trace, 10).len(), 4);
    assert!(g.find_relevant_instruction(&vec![], &r).is_none());
}

#[test]
fn generated_pc_message() {
    let g = TemplateTestInfoGenerator;
    let trace = vec![
        InstructionTrace::new(0, 0x10, 1, "a".to_string()),
        InstructionTrace::new(0, 0x14, 2, "b".to_string()),
    ];
    let text = g.generate(&report(MismatchType::PcMismatch(0x30)), &trace);
    let expected = "Now this core design is buggy when executing the instruction:\n a \nAfter executing this instruction, this core jumps to a wrong address 0x00000020 which should jump to address 0x00000030\n\n\nINSTRUCTION TRACE CONTEXT:\n    [ 0] Core 0: PC=0x00000010 (0x00000001) a\n>>> [ 1] Core 0: PC=0x00000014 (0x00000002) b\n\n";
    assert_eq!(text, expected);
}

#[test]
fn generated_messages_without_trace() {
    let g = TemplateTestInfoGenerator;
    let text = g.generate(&report(MismatchType::WeMismatch(false)), &vec![]);
    assert_eq!(
        text,
        "Write enable mismatch detected: Expected WE false, but got true\n\n\nINSTRUCTION TRACE CONTEXT:\n  No instruction trace available\n\n"
    );
    let text = g.generate(&report(MismatchType::WdataMismatch(0x1)), &vec![]);
    assert!(text.starts_with("Write data mismatch detected: Expected WDATA 0x00000001, but got 0x000000ab\n\n"));
}

#[test]
fn meta_data_of_report() {
    let m = test_meta_data(&report(MismatchType::WdataMismatch(1)), "info");
    assert_eq!(m.start_sig, "rvfi_rd_wdata_d");
    assert_eq!(m.start_scope, "TOP.ibex_simple_system.u_top.u_ibex_top.u_ibex_core");
    assert_eq!(m.start_time, 101 - 1 - 2);
    assert_eq!(m.time_bound, 98 - 8);
    assert_eq!(m.test_info, "info");
}
