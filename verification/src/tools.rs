//! The state the tools of the checking agents share, and what each tool does
//! to it. The tools are offered to a language model, which calls them by name
//! with arguments; the caller runs that exchange and applies the calls here.
use vstd::prelude::*;

use crate::block::TimeAnnotation;
use crate::dfb::strings_view;
use crate::mgr::{keys_unique, table_get};
use crate::text::{str_eq, string_of};
use crate::wave::WaveformManager;

verus! {

#[verifier::external_type_specification]
#[verifier::external_body]
#[verifier::reject_recursive_types(T)]
pub struct ExMutex<T: ?Sized>(std::sync::Mutex<T>);

/// What the tools of a block check have recorded: whether the block was
/// marked suspicious, whether the check was ended, and the signals chosen for
/// tracing further.
pub struct ToolCallState {
    pub suspicious: bool,
    pub terminate: bool,
    pub checked_signals: Vec<(String, TimeAnnotation)>,
}

/// A signal at a time, as the model names it.
pub struct SignalRef {
    pub name: String,
    pub time: TimeAnnotation,
}

/// A value read for the model.
pub struct SignalValue {
    pub signal_name: String,
    pub time: TimeAnnotation,
    pub bit_width: String,
    pub value: String,
}

pub struct ReadValuesArgs {
    pub signals: Vec<SignalRef>,
}

pub struct CheckSignalsArgs {
    pub signals: Vec<SignalRef>,
}

pub struct CheckSignalsOutput {
    pub status: String,
    pub signals_count: usize,
}

pub struct AppendBlockArgs {
    pub reason: String,
}

pub struct AppendBlockOutput {
    pub status: String,
}

pub struct ExitArgs {
    pub reason: String,
}

pub struct ExitOutput {
    pub status: String,
}

/// The view of the chosen signals.
pub open spec fn signal_refs_view(v: Seq<SignalRef>) -> Seq<(Seq<char>, TimeAnnotation)> {
    v.map_values(|s: SignalRef| (s.name@, s.time))
}

/// The view of recorded signals.
pub open spec fn checked_view(v: Seq<(String, TimeAnnotation)>) -> Seq<(Seq<char>, TimeAnnotation)> {
    v.map_values(|e: (String, TimeAnnotation)| (e.0@, e.1))
}

impl ToolCallState {
    /// Nothing recorded yet.
    pub fn new() -> (r: ToolCallState)
        ensures
            !r.suspicious,
            !r.terminate,
            r.checked_signals@.len() == 0,
    {
        ToolCallState { suspicious: false, terminate: false, checked_signals: Vec::new() }
    }

    /// The `check_signals` tool: records the chosen signals, in order, after
    /// those recorded before, and reports how many were chosen.
    pub fn check_signals(&mut self, args: CheckSignalsArgs) -> (r: CheckSignalsOutput)
        ensures
            checked_view(final(self).checked_signals@) == checked_view(old(self).checked_signals@) + signal_refs_view(
                args.signals@,
            ),
            final(self).suspicious == old(self).suspicious,
            final(self).terminate == old(self).terminate,
            r.status@ == "ok"@,
            r.signals_count == args.signals@.len(),
    {
        let count = args.signals.len();
        let ghost base = checked_view(self.checked_signals@);
        let mut i: usize = 0;
        while i < args.signals.len()
            invariant
                i <= args.signals@.len(),
                checked_view(self.checked_signals@) == base + signal_refs_view(args.signals@).take(i as int),
                base == checked_view(old(self).checked_signals@),
                self.suspicious == old(self).suspicious,
                self.terminate == old(self).terminate,
            decreases args.signals@.len() - i,
        {
            let ghost before = checked_view(self.checked_signals@);
            self.checked_signals.push((args.signals[i].name.clone(), args.signals[i].time));
            assert(checked_view(self.checked_signals@) =~= before.push(signal_refs_view(args.signals@)[i as int]));
            assert(signal_refs_view(args.signals@).take(i + 1) =~= signal_refs_view(args.signals@).take(i as int).push(
                signal_refs_view(args.signals@)[i as int],
            ));
            i = i + 1;
        }
        assert(signal_refs_view(args.signals@).take(args.signals@.len() as int) =~= signal_refs_view(args.signals@));
        CheckSignalsOutput { status: string_of("ok"), signals_count: count }
    }

    /// The `append_block` tool: marks the block suspicious.
    pub fn append_block(&mut self, args: &AppendBlockArgs) -> (r: AppendBlockOutput)
        ensures
            final(self).suspicious,
            final(self).terminate == old(self).terminate,
            checked_view(final(self).checked_signals@) == checked_view(old(self).checked_signals@),
            r.status@ == "ok"@,
    {
        self.suspicious = true;
        AppendBlockOutput { status: string_of("ok") }
    }

    /// The `exit` tool: ends the check of the block.
    pub fn exit(&mut self, args: &ExitArgs) -> (r: ExitOutput)
        ensures
            final(self).terminate,
            final(self).suspicious == old(self).suspicious,
            checked_view(final(self).checked_signals@) == checked_view(old(self).checked_signals@),
            r.status@ == "ok"@,
    {
        self.terminate = true;
        ExitOutput { status: string_of("ok") }
    }
}

/// Reads values for the model in one scope of the design.
pub struct ReadValuesTool {
    pub waveform_mgr: std::sync::Arc<std::sync::Mutex<WaveformManager>>,
    pub scope: Vec<String>,
}

impl ReadValuesTool {
    pub fn new(waveform_mgr: std::sync::Arc<std::sync::Mutex<WaveformManager>>, scope: &Vec<&str>) -> (r: Self)
        ensures
            r.waveform_mgr == waveform_mgr,
            strings_view(r.scope@) == scope@.map_values(|s: &str| s@),
    {
        let mut names: Vec<String> = Vec::new();
        let mut i: usize = 0;
        while i < scope.len()
            invariant
                i <= scope@.len(),
                strings_view(names@) == scope@.map_values(|s: &str| s@).take(i as int),
            decreases scope@.len() - i,
        {
            let ghost before = names@;
            names.push(string_of(scope[i]));
            assert(strings_view(names@) =~= strings_view(before).push(scope@[i as int]@));
            assert(scope@.map_values(|s: &str| s@).take(i + 1) =~= scope@.map_values(|s: &str| s@).take(i as int).push(
                scope@[i as int]@,
            ));
            i = i + 1;
        }
        assert(scope@.map_values(|s: &str| s@).take(scope@.len() as int) =~= scope@.map_values(|s: &str| s@));
        ReadValuesTool { waveform_mgr, scope: names }
    }
}

/// Records the signals the model chooses for tracing further.
pub struct CheckSignalsTool {
    pub state: std::sync::Arc<std::sync::Mutex<ToolCallState>>,
}

impl CheckSignalsTool {
    pub fn new(state: std::sync::Arc<std::sync::Mutex<ToolCallState>>) -> (r: Self)
        ensures
            r.state == state,
    {
        CheckSignalsTool { state }
    }
}

/// Marks the block being checked as suspicious.
pub struct AppendBlockTool {
    pub state: std::sync::Arc<std::sync::Mutex<ToolCallState>>,
}

impl AppendBlockTool {
    pub fn new(state: std::sync::Arc<std::sync::Mutex<ToolCallState>>) -> (r: Self)
        ensures
            r.state == state,
    {
        AppendBlockTool { state }
    }
}

/// Ends the check of the block.
pub struct ExitTool {
    pub state: std::sync::Arc<std::sync::Mutex<ToolCallState>>,
}

impl ExitTool {
    pub fn new(state: std::sync::Arc<std::sync::Mutex<ToolCallState>>) -> (r: Self)
        ensures
            r.state == state,
    {
        ExitTool { state }
    }
}

/// A block on the trace path, as navigation shows it.
pub struct NavBlockInfo {
    pub module: String,
    pub scope: Vec<String>,
    pub code: String,
    pub signals: Vec<(String, i64)>,
    pub bid: u64,
}

/// The mathematical value of a block on the trace path.
pub ghost struct NavBlockView {
    pub module: Seq<char>,
    pub scope: Seq<Seq<char>>,
    pub code: Seq<char>,
    pub signals: Seq<(Seq<char>, i64)>,
    pub bid: u64,
}

impl View for NavBlockInfo {
    type V = NavBlockView;

    open spec fn view(&self) -> NavBlockView {
        NavBlockView {
            module: self.module@,
            scope: strings_view(self.scope@),
            code: self.code@,
            signals: checked_view(self.signals@),
            bid: self.bid,
        }
    }
}

impl NavBlockInfo {
    /// A copy of the block.
    pub fn duplicate(&self) -> (r: NavBlockInfo)
        ensures
            r@ == self@,
    {
        let mut scope: Vec<String> = Vec::new();
        let mut i: usize = 0;
        while i < self.scope.len()
            invariant
                i <= self.scope@.len(),
                strings_view(scope@) == strings_view(self.scope@).take(i as int),
            decreases self.scope@.len() - i,
        {
            let ghost before = scope@;
            scope.push(self.scope[i].clone());
            assert(strings_view(scope@) =~= strings_view(before).push(strings_view(self.scope@)[i as int]));
            assert(strings_view(self.scope@).take(i + 1) =~= strings_view(self.scope@).take(i as int).push(
                strings_view(self.scope@)[i as int],
            ));
            i = i + 1;
        }
        assert(strings_view(self.scope@).take(self.scope@.len() as int) =~= strings_view(self.scope@));
        let mut signals: Vec<(String, i64)> = Vec::new();
        let mut j: usize = 0;
        while j < self.signals.len()
            invariant
                j <= self.signals@.len(),
                checked_view(signals@) == checked_view(self.signals@).take(j as int),
            decreases self.signals@.len() - j,
        {
            let ghost before = signals@;
            signals.push((self.signals[j].0.clone(), self.signals[j].1));
            assert(checked_view(signals@) =~= checked_view(before).push(checked_view(self.signals@)[j as int]));
            assert(checked_view(self.signals@).take(j + 1) =~= checked_view(self.signals@).take(j as int).push(
                checked_view(self.signals@)[j as int],
            ));
            j = j + 1;
        }
        assert(checked_view(self.signals@).take(self.signals@.len() as int) =~= checked_view(self.signals@));
        NavBlockInfo { module: self.module.clone(), scope, code: self.code.clone(), signals, bid: self.bid }
    }
}

/// The state of a navigation along a trace path: the blocks by the signal
/// that leads to them, the block shown, the blocks marked suspicious, and
/// whether navigation has ended.
pub struct NavState {
    /// (signal, block driving it); a signal occurs once.
    pub nav_map: Vec<(String, NavBlockInfo)>,
    pub current: NavBlockInfo,
    pub waveform_mgr: WaveformManager,
    pub suspicious: Vec<(String, u64)>,
    pub done: bool,
}

/// The view of a navigation map.
pub open spec fn nav_map_view(m: Seq<(String, NavBlockInfo)>) -> Seq<(Seq<char>, NavBlockView)> {
    m.map_values(|e: (String, NavBlockInfo)| (e.0@, e.1@))
}

/// The block the first of `signals` that the map knows leads to.
pub open spec fn first_known(m: Seq<(String, NavBlockInfo)>, signals: Seq<Seq<char>>) -> Option<NavBlockView>
    decreases signals.len(),
{
    if signals.len() == 0 {
        None
    } else {
        match table_get(m, signals[0]) {
            Some(b) => Some(b@),
            None => first_known(m, signals.drop_first()),
        }
    }
}

/// The view of the marked blocks.
pub open spec fn marked_view(v: Seq<(String, u64)>) -> Seq<(Seq<char>, u64)> {
    v.map_values(|e: (String, u64)| (e.0@, e.1))
}

impl NavState {
    /// Signals lead to one block each.
    pub open spec fn wf(&self) -> bool {
        keys_unique(self.nav_map@)
    }

    /// The `check_signals` navigation: moves to the block of the first given
    /// signal the map knows, and gives that block; stays and gives `None`
    /// when it knows none.
    pub fn navigate(&mut self, signals: &Vec<String>) -> (r: Option<NavBlockInfo>)
        requires
            old(self).wf(),
        ensures
            final(self).wf(),
            (match r {
                Some(b) => Some(b@),
                None => None,
            }) == first_known(old(self).nav_map@, strings_view(signals@)),
            r matches Some(b) ==> final(self).current@ == b@,
            r is None ==> final(self).current@ == old(self).current@,
            final(self).nav_map@ == old(self).nav_map@,
            final(self).suspicious@ == old(self).suspicious@,
            final(self).done == old(self).done,
    {
        let ghost sv = strings_view(signals@);
        let mut i: usize = 0;
        assert(sv.skip(0) =~= sv);
        while i < signals.len()
            invariant
                self.wf(),
                self.nav_map@ == old(self).nav_map@,
                self.current@ == old(self).current@,
                self.suspicious@ == old(self).suspicious@,
                self.done == old(self).done,
                sv == strings_view(signals@),
                i <= signals@.len(),
                first_known(self.nav_map@, sv) == first_known(self.nav_map@, sv.skip(i as int)),
            decreases signals@.len() - i,
        {
            assert(sv.skip(i as int)[0] == sv[i as int]);
            assert(sv.skip(i as int).drop_first() =~= sv.skip(i + 1));
            let mut k: usize = 0;
            while k < self.nav_map.len() && !str_eq(self.nav_map[k].0.as_str(), signals[i].as_str())
                invariant
                    k <= self.nav_map@.len(),
                    forall|q: int| 0 <= q < k ==> self.nav_map@[q].0@ != sv[i as int],
                    sv == strings_view(signals@),
                    i < signals@.len(),
                decreases self.nav_map@.len() - k,
            {
                k = k + 1;
            }
            if k < self.nav_map.len() {
                proof {
                    crate::mgr::lemma_table_get(self.nav_map@, k as int);
                }
                let next = self.nav_map[k].1.duplicate();
                self.current = self.nav_map[k].1.duplicate();
                return Some(next);
            }
            assert(table_get(self.nav_map@, sv[i as int]) is None) by {
                if exists|q: int| 0 <= q < self.nav_map@.len() && self.nav_map@[q].0@ == sv[i as int] {
                    let q = choose|q: int| 0 <= q < self.nav_map@.len() && self.nav_map@[q].0@ == sv[i as int];
                    assert(self.nav_map@[q].0@ != sv[i as int]);
                }
            }
            i = i + 1;
        }
        assert(sv.skip(i as int).len() == 0);
        None
    }

    /// Up to `k` signals the map knows, in the map's order.
    pub fn known_signals(&self, k: usize) -> (r: Vec<String>)
        ensures
            strings_view(r@) == nav_map_view(self.nav_map@).map_values(|e: (Seq<char>, NavBlockView)| e.0).take(
                if k < self.nav_map@.len() {
                    k as int
                } else {
                    self.nav_map@.len() as int
                },
            ),
    {
        let ghost keys = nav_map_view(self.nav_map@).map_values(|e: (Seq<char>, NavBlockView)| e.0);
        let mut r: Vec<String> = Vec::new();
        let mut i: usize = 0;
        while i < self.nav_map.len() && i < k
            invariant
                keys == nav_map_view(self.nav_map@).map_values(|e: (Seq<char>, NavBlockView)| e.0),
                i <= self.nav_map@.len(),
                i <= k,
                strings_view(r@) == keys.take(i as int),
            decreases self.nav_map@.len() - i,
        {
            let ghost before = r@;
            r.push(self.nav_map[i].0.clone());
            assert(strings_view(r@) =~= strings_view(before).push(keys[i as int]));
            assert(keys.take(i + 1) =~= keys.take(i as int).push(keys[i as int]));
            i = i + 1;
        }
        r
    }

    /// The `append_block` navigation: marks the current block suspicious and
    /// gives its (module, block id).
    pub fn append_block(&mut self) -> (r: (String, u64))
        ensures
            r.0@ == old(self).current.module@,
            r.1 == old(self).current.bid,
            marked_view(final(self).suspicious@) == marked_view(old(self).suspicious@).push((r.0@, r.1)),
            final(self).current@ == old(self).current@,
            final(self).nav_map@ == old(self).nav_map@,
            final(self).done == old(self).done,
    {
        let module = self.current.module.clone();
        let bid = self.current.bid;
        let ghost before = self.suspicious@;
        self.suspicious.push((module.clone(), bid));
        assert(marked_view(self.suspicious@) =~= marked_view(before).push((module@, bid)));
        (module, bid)
    }

    /// The `exit` navigation: ends it.
    pub fn exit(&mut self)
        ensures
            final(self).done,
            final(self).current@ == old(self).current@,
            final(self).nav_map@ == old(self).nav_map@,
            final(self).suspicious@ == old(self).suspicious@,
    {
        self.done = true;
    }
}

pub struct NavReadArgs {
    pub signals: Vec<SignalRef>,
}

pub struct NavCheckArgs {
    pub signals: Vec<String>,
}

pub struct NavEmptyArgs {}

/// Reads values at the current block of a navigation.
pub struct NavReadValues {
    pub state: std::sync::Arc<std::sync::Mutex<NavState>>,
}

impl NavReadValues {
    pub fn new(state: std::sync::Arc<std::sync::Mutex<NavState>>) -> (r: Self)
        ensures
            r.state == state,
    {
        NavReadValues { state }
    }
}

/// Moves a navigation to the block driving a signal.
pub struct NavCheckSignals {
    pub state: std::sync::Arc<std::sync::Mutex<NavState>>,
}

impl NavCheckSignals {
    pub fn new(state: std::sync::Arc<std::sync::Mutex<NavState>>) -> (r: Self)
        ensures
            r.state == state,
    {
        NavCheckSignals { state }
    }
}

/// Marks the current block of a navigation suspicious.
pub struct NavAppendBlock {
    pub state: std::sync::Arc<std::sync::Mutex<NavState>>,
}

impl NavAppendBlock {
    pub fn new(state: std::sync::Arc<std::sync::Mutex<NavState>>) -> (r: Self)
        ensures
            r.state == state,
    {
        NavAppendBlock { state }
    }
}

/// Ends a navigation.
pub struct NavExit {
    pub state: std::sync::Arc<std::sync::Mutex<NavState>>,
}

impl NavExit {
    pub fn new(state: std::sync::Arc<std::sync::Mutex<NavState>>) -> (r: Self)
        ensures
            r.state == state,
    {
        NavExit { state }
    }
}


/// Why a tool call failed.
pub enum ToolCallError {
    /// The waveform could not be read.
    Waveform(String),
    /// The arguments could not be used.
    InvalidArgs(String),
}

/// Why a navigation tool call failed.
pub enum NavError {
    Msg(String),
}

/// The arguments of the tool that gives the code driving signals of a module.
pub struct DrivenBlockCommandWrapper {
    pub module_name: String,
    pub signals: Vec<String>,
}

/// The arguments of the tool that lists the covered modules.
pub struct ModuleCoveredCommandWrapper {
    pub module_name: String,
    pub signals: Vec<String>,
}

/// The arguments of the tool that reads the values of a block's signals.
pub struct SignalValuesCommandWrapper {
    pub bid: u64,
    pub time: u64,
}

/// The arguments of the tool that lists the suspicious ports of a module.
pub struct SuspiciousPortsCommandWrapper {
    pub module_name: String,
}

/// The service a checking agent's model runs on.
#[derive(Debug, Clone, Copy, PartialEq, Eq, Structural)]
pub enum AgentType {
    OpenAI,
    Claude,
    Ollama,
}

/// How a block checker asks its model: by voting over several answers, or
/// through tool calls.
#[derive(Debug, Clone, Copy, PartialEq, Eq, Structural)]
pub enum AgentMode {
    Voting,
    ToolCall,
}

} // verus!
