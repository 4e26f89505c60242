use std::sync::{Arc, Mutex};
use sv_analysis::tools::{
    AppendBlockArgs, AppendBlockTool, CheckSignalsArgs, CheckSignalsTool, ExitArgs, ExitTool,
    NavAppendBlock, NavBlockInfo, NavCheckSignals, NavExit, NavReadValues, NavState, ReadValuesTool,
    SignalRef, ToolCallState,
};
use sv_analysis::wave::WaveformManager;

fn info(module: &str, bid: u64) -> NavBlockInfo {
    NavBlockInfo {
        module: module.to_string(),
        scope: vec!["TOP".to_string()],
        code: "assign y = x;".to_string(),
        signals: vec![("y".to_string(), 3)],
        bid,
    }
}

fn nav_state() -> NavState {
    NavState {
        nav_map: vec![("x".to_string(), info("alu", 7)), ("z".to_string(), info("lsu", 9))],
        current: info("core", 1),
        waveform_mgr: WaveformManager::new("w.fst"),
        suspicious: vec![],
        done: false,
    }
}

#[test]
fn tool_state_transitions() {
    let mut s = ToolCallState::new();
    let out = s.check_signals(CheckSignalsArgs {
        signals: vec![SignalRef { name: "a".to_string(), time: 3 }, SignalRef { name: "b".to_string(), time: 4 }],
    });
    assert_eq!(out.status, "ok");
    assert_eq!(out.signals_count, 2);
    assert_eq!(s.checked_signals, vec![("a".to_string(), 3), ("b".to_string(), 4)]);
    assert!(!s.suspicious);
    s.append_block(&AppendBlockArgs { reason: "bug".to_string() });
    assert!(s.suspicious && !s.terminate);
    s.exit(&ExitArgs { reason: "done".to_string() });
    assert!(s.terminate);
    assert_eq!(s.checked_signals.len(), 2);
}

#[test]
fn tools_share_state() {
    let state = Arc::new(Mutex::new(ToolCallState::new()));
    let c = CheckSignalsTool::new(state.clone());
    let a = AppendBlockTool::new(state.clone());
    let e = ExitTool::new(state.clone());
    assert!(Arc::ptr_eq(&c.state, &a.state) && Arc::ptr_eq(&a.state, &e.state));
    let w = Arc::new(Mutex::new(WaveformManager::new("w.fst")));
    let r = ReadValuesTool::new(w, &vec!["TOP", "core"]);
    assert_eq!(r.scope, vec!["TOP".to_string(), "core".to_string()]);
}

#[test]
fn navigation_moves_to_known_signal() {
    let mut s = nav_state();
    let r = s.navigate(&vec!["q".to_string(), "z".to_string(), "x".to_string()]).unwrap();
    assert_eq!(r.bid, 9);
    assert_eq!(s.current.bid, 9);
    assert!(s.navigate(&vec!["nothing".to_string()]).is_none());
    assert_eq!(s.current.module, "lsu");
    assert_eq!(s.known_signals(1), vec!["x".to_string()]);
    assert_eq!(s.known_signals(20), vec!["x".to_string(), "z".to_string()]);
}

#[test]
fn navigation_marks_and_exits() {
    let mut s = nav_state();
    let (m, b) = s.append_block();
    assert_eq!((m.as_str(), b), ("core", 1));
    assert_eq!(s.suspicious, vec![("core".to_string(), 1)]);
    s.exit();
    assert!(s.done);
    let shared = Arc::new(Mutex::new(nav_state()));
    let _ = NavReadValues::new(shared.clone());
    let _ = NavCheckSignals::new(shared.clone());
    let _ = NavAppendBlock::new(shared.clone());
    let n = NavExit::new(shared.clone());
    assert!(Arc::ptr_eq(&n.state, &shared));
    assert_eq!(info("m", 2).duplicate().code, "assign y = x;");
}
