//! The decisions the checking agents take once a language model has answered:
//! which signals to trace further, whether the block is suspicious and whether
//! to stop. The model is asked, and its answer read, by the caller.
use vstd::prelude::*;

use crate::block::{node_text, BlockType, NodeID, NodeKey, TimeAnnotation};
use crate::dfb::DataFlowBlock;
use crate::text::{chars_eq, chars_of};

verus! {

/// The position of the first `c` in `s`.
pub open spec fn first_index_of(s: Seq<char>, c: char) -> Option<int>
    decreases s.len(),
{
    if s.len() == 0 {
        None
    } else if s[0] == c {
        Some(0)
    } else {
        match first_index_of(s.drop_first(), c) {
            Some(i) => Some(i + 1),
            None => None,
        }
    }
}

pub proof fn lemma_first_index_of(s: Seq<char>, c: char)
    ensures
        first_index_of(s, c) matches Some(i) ==> 0 <= i < s.len() && s[i] == c && forall|k: int|
            0 <= k < i ==> s[k] != c,
        first_index_of(s, c) is None ==> forall|k: int| 0 <= k < s.len() ==> s[k] != c,
    decreases s.len(),
{
    if s.len() > 0 {
        lemma_first_index_of(s.drop_first(), c);
        if s[0] != c {
            assert forall|k: int| 1 <= k < s.len() implies s[k] == s.drop_first()[k - 1] by {}
        }
    }
}

/// A signal name without its array index: what comes before the first `[`.
pub open spec fn clean_name(s: Seq<char>) -> Seq<char> {
    match first_index_of(s, '[') {
        Some(p) => s.take(p),
        None => s,
    }
}

/// The name of a signal without an array index (`var_1[0]` becomes `var_1`).
pub fn clean_signal_name(name: &str) -> (r: Vec<char>)
    ensures
        r@ == clean_name(name@),
{
    let cs = chars_of(name);
    let mut r: Vec<char> = Vec::new();
    let mut i: usize = 0;
    proof {
        lemma_first_index_of(cs@, '[');
    }
    while i < cs.len()
        invariant
            cs@ == name@,
            i <= cs@.len(),
            r@ == cs@.take(i as int),
            forall|k: int| 0 <= k < i ==> cs@[k] != '[',
            first_index_of(cs@, '[') matches Some(p) ==> 0 <= p < cs@.len() && cs@[p] == '[' && forall|k: int|
                0 <= k < p ==> cs@[k] != '[',
            first_index_of(cs@, '[') is None ==> forall|k: int| 0 <= k < cs@.len() ==> cs@[k] != '[',
        decreases cs@.len() - i,
    {
        if cs[i] == '[' {
            return r;
        }
        r.push(cs[i]);
        assert(cs@.take(i + 1) =~= cs@.take(i as int).push(cs@[i as int]));
        i = i + 1;
    }
    assert(cs@.take(i as int) =~= cs@);
    r
}

/// The view of a list of nodes with times.
pub open spec fn timed_view(v: Seq<(NodeID, TimeAnnotation)>) -> Seq<(NodeKey, TimeAnnotation)> {
    v.map_values(|e: (NodeID, TimeAnnotation)| (e.0@, e.1))
}

/// The view of a list of signal names with times.
pub open spec fn named_view(v: Seq<(String, TimeAnnotation)>) -> Seq<(Seq<char>, TimeAnnotation)> {
    v.map_values(|e: (String, TimeAnnotation)| (e.0@, e.1))
}

/// The nodes with the text `name` (and, when `by_time`, the time `t`), in order.
pub open spec fn select_nodes(ins: Seq<(NodeKey, TimeAnnotation)>, name: Seq<char>, t: TimeAnnotation, by_time: bool) -> Seq<
    (NodeKey, TimeAnnotation),
>
    decreases ins.len(),
{
    if ins.len() == 0 {
        Seq::empty()
    } else {
        let rest = select_nodes(ins.drop_last(), name, t, by_time);
        let e = ins.last();
        if node_text(e.0) == name && (!by_time || e.1 == t) {
            rest.push(e)
        } else {
            rest
        }
    }
}

/// The nodes a signal picked by the model stands for: those with its name and
/// time, or, when there is none, those with its name at any time (the model
/// may name the time before a sequential block's time step).
pub open spec fn matches_for(ins: Seq<(NodeKey, TimeAnnotation)>, name: Seq<char>, t: TimeAnnotation) -> Seq<(NodeKey, TimeAnnotation)> {
    let exact = select_nodes(ins, clean_name(name), t, true);
    if exact.len() > 0 {
        exact
    } else {
        select_nodes(ins, clean_name(name), t, false)
    }
}

/// The nodes of all picked signals, one signal after the other.
pub open spec fn all_matches(ins: Seq<(NodeKey, TimeAnnotation)>, picked: Seq<(Seq<char>, TimeAnnotation)>) -> Seq<
    (NodeKey, TimeAnnotation),
>
    decreases picked.len(),
{
    if picked.len() == 0 {
        Seq::empty()
    } else {
        all_matches(ins, picked.drop_last()) + matches_for(ins, picked.last().0, picked.last().1)
    }
}

/// The nodes of all picked signals with their exact times only.
pub open spec fn exact_matches(ins: Seq<(NodeKey, TimeAnnotation)>, picked: Seq<(Seq<char>, TimeAnnotation)>) -> Seq<
    (NodeKey, TimeAnnotation),
>
    decreases picked.len(),
{
    if picked.len() == 0 {
        Seq::empty()
    } else {
        exact_matches(ins, picked.drop_last()) + select_nodes(
            ins,
            clean_name(picked.last().0),
            picked.last().1,
            true,
        )
    }
}

/// Whether a node with the text and time of `e` occurs in `s`.
pub open spec fn seen_in(s: Seq<(NodeKey, TimeAnnotation)>, e: (NodeKey, TimeAnnotation)) -> bool {
    exists|i: int| 0 <= i < s.len() && node_text(s[i].0) == node_text(e.0) && s[i].1 == e.1
}

/// The first node of each (text, time).
pub open spec fn dedup_timed(s: Seq<(NodeKey, TimeAnnotation)>) -> Seq<(NodeKey, TimeAnnotation)>
    decreases s.len(),
{
    if s.len() == 0 {
        Seq::empty()
    } else {
        let rest = dedup_timed(s.drop_last());
        if seen_in(s.drop_last(), s.last()) {
            rest
        } else {
            rest.push(s.last())
        }
    }
}

proof fn lemma_dedup_seen(s: Seq<(NodeKey, TimeAnnotation)>, e: (NodeKey, TimeAnnotation))
    ensures
        seen_in(dedup_timed(s), e) == seen_in(s, e),
    decreases s.len(),
{
    if s.len() > 0 {
        let p = s.drop_last();
        lemma_dedup_seen(p, e);
        lemma_dedup_seen(p, s.last());
        let d = dedup_timed(p);
        if seen_in(s, e) {
            let i = choose|i: int| 0 <= i < s.len() && node_text(s[i].0) == node_text(e.0) && s[i].1 == e.1;
            if i < p.len() {
                assert(p[i] == s[i]);
                assert(seen_in(p, e));
                if !seen_in(p, s.last()) {
                    let j = choose|j: int| 0 <= j < d.len() && node_text(d[j].0) == node_text(e.0) && d[j].1 == e.1;
                    assert(d.push(s.last())[j] == d[j]);
                }
            } else {
                if seen_in(p, s.last()) {
                    let j = choose|j: int|
                        0 <= j < d.len() && node_text(d[j].0) == node_text(s.last().0) && d[j].1 == s.last().1;
                    assert(node_text(d[j].0) == node_text(e.0) && d[j].1 == e.1);
                } else {
                    assert(d.push(s.last())[d.len() as int] == s.last());
                }
            }
        } else {
            if seen_in(dedup_timed(s), e) {
                if !seen_in(p, s.last()) {
                    let j = choose|j: int|
                        0 <= j < d.len() + 1 && node_text(d.push(s.last())[j].0) == node_text(e.0) && d.push(
                            s.last(),
                        )[j].1 == e.1;
                    if j < d.len() {
                        assert(d.push(s.last())[j] == d[j]);
                    } else {
                        assert(node_text(s[s.len() - 1].0) == node_text(e.0));
                    }
                }
            }
        }
    }
}

/// Deduplication keeps a node of every (text, time) it is given, and no
/// other: a (text, time) occurs in the result exactly when it occurs in the input.
pub proof fn lemma_dedup_keeps_seen(s: Seq<(NodeKey, TimeAnnotation)>, e: (NodeKey, TimeAnnotation))
    ensures
        seen_in(dedup_timed(s), e) == seen_in(s, e),
{
    lemma_dedup_seen(s, e);
}

/// Deduplication leaves no two nodes with the same text and time.
pub proof fn lemma_dedup_unique(s: Seq<(NodeKey, TimeAnnotation)>)
    ensures
        forall|i: int, j: int|
            0 <= i < j < dedup_timed(s).len() ==> !(node_text(dedup_timed(s)[i].0) == node_text(dedup_timed(s)[j].0)
                && dedup_timed(s)[i].1 == dedup_timed(s)[j].1),
    decreases s.len(),
{
    if s.len() > 0 {
        let p = s.drop_last();
        lemma_dedup_unique(p);
        lemma_dedup_seen(p, s.last());
        let d = dedup_timed(p);
        if !seen_in(p, s.last()) {
            let r = d.push(s.last());
            assert forall|i: int, j: int|
                0 <= i < j < r.len() implies !(node_text(r[i].0) == node_text(r[j].0) && r[i].1 == r[j].1) by {
                if j == d.len() {
                    assert(r[i] == d[i]);
                    if node_text(r[i].0) == node_text(r[j].0) && r[i].1 == r[j].1 {
                        assert(seen_in(d, s.last()));
                    }
                } else {
                    assert(r[i] == d[i]);
                    assert(r[j] == d[j]);
                }
            }
        }
    }
}

/// Whether the text and time of `e` equal those of `f`.
fn same_timed(e: &(NodeID, TimeAnnotation), f: &(NodeID, TimeAnnotation)) -> (r: bool)
    ensures
        r == (node_text(e.0@) == node_text(f.0@) && e.1 == f.1),
{
    e.1 == f.1 && e.0.same_text(&f.0)
}

/// Keeps the first node of each (text, time), in order.
pub fn dedup_nodes_by_text_time(s: Vec<(NodeID, TimeAnnotation)>) -> (r: Vec<(NodeID, TimeAnnotation)>)
    ensures
        timed_view(r@) == dedup_timed(timed_view(s@)),
{
    let ghost sv = timed_view(s@);
    let mut r: Vec<(NodeID, TimeAnnotation)> = Vec::new();
    let mut i: usize = 0;
    while i < s.len()
        invariant
            sv == timed_view(s@),
            i <= s@.len(),
            timed_view(r@) == dedup_timed(sv.take(i as int)),
        decreases s@.len() - i,
    {
        let ghost p = sv.take(i as int);
        assert(sv.take(i + 1).drop_last() =~= p);
        assert(sv.take(i + 1).last() == sv[i as int]);
        let mut seen = false;
        let mut k: usize = 0;
        proof {
            lemma_dedup_seen(p, sv[i as int]);
        }
        while k < r.len()
            invariant
                k <= r@.len(),
                i < s@.len(),
                seen == (exists|q: int|
                    0 <= q < k && node_text(r@[q].0@) == node_text(s@[i as int].0@) && r@[q].1 == s@[i as int].1),
            decreases r@.len() - k,
        {
            if same_timed(&r[k], &s[i]) {
                seen = true;
            }
            k = k + 1;
        }
        assert(seen == seen_in(timed_view(r@), sv[i as int])) by {
            if seen {
                let q = choose|q: int|
                    0 <= q < r@.len() && node_text(r@[q].0@) == node_text(s@[i as int].0@) && r@[q].1 == s@[i as int].1;
                assert(timed_view(r@)[q] == (r@[q].0@, r@[q].1));
            }
            if seen_in(timed_view(r@), sv[i as int]) {
                let q = choose|q: int|
                    0 <= q < timed_view(r@).len() && node_text(timed_view(r@)[q].0) == node_text(sv[i as int].0)
                        && timed_view(r@)[q].1 == sv[i as int].1;
                assert(timed_view(r@)[q] == (r@[q].0@, r@[q].1));
            }
        }
        if !seen {
            let e = (s[i].0.duplicate(), s[i].1);
            let ghost before = r@;
            r.push(e);
            assert(timed_view(r@) =~= timed_view(before).push(sv[i as int]));
        }
        i = i + 1;
    }
    assert(sv.take(s@.len() as int) =~= sv);
    r
}

/// The nodes of `ins` with the text `name` (and the time `t` when `by_time`).
fn select_by(ins: &Vec<(NodeID, TimeAnnotation)>, name: &Vec<char>, t: TimeAnnotation, by_time: bool) -> (r: Vec<
    (NodeID, TimeAnnotation),
>)
    ensures
        timed_view(r@) == select_nodes(timed_view(ins@), name@, t, by_time),
{
    let ghost iv = timed_view(ins@);
    let mut r: Vec<(NodeID, TimeAnnotation)> = Vec::new();
    let mut i: usize = 0;
    while i < ins.len()
        invariant
            iv == timed_view(ins@),
            i <= ins@.len(),
            timed_view(r@) == select_nodes(iv.take(i as int), name@, t, by_time),
        decreases ins@.len() - i,
    {
        assert(iv.take(i + 1).drop_last() =~= iv.take(i as int));
        assert(iv.take(i + 1).last() == iv[i as int]);
        let text = chars_of(ins[i].0.get_text());
        if chars_eq(&text, name) && (!by_time || ins[i].1 == t) {
            let ghost before = r@;
            r.push((ins[i].0.duplicate(), ins[i].1));
            assert(timed_view(r@) =~= timed_view(before).push(iv[i as int]));
        }
        i = i + 1;
    }
    assert(iv.take(ins@.len() as int) =~= iv);
    r
}

/// Appends the elements of `b` to `a`.
fn append_timed(a: &mut Vec<(NodeID, TimeAnnotation)>, b: Vec<(NodeID, TimeAnnotation)>)
    ensures
        timed_view(final(a)@) == timed_view(old(a)@) + timed_view(b@),
{
    let ghost a0 = timed_view(a@);
    let mut i: usize = 0;
    while i < b.len()
        invariant
            i <= b@.len(),
            timed_view(a@) == a0 + timed_view(b@).take(i as int),
        decreases b@.len() - i,
    {
        let ghost before = a@;
        a.push((b[i].0.duplicate(), b[i].1));
        assert(timed_view(a@) =~= timed_view(before).push(timed_view(b@)[i as int]));
        assert(timed_view(b@).take(i + 1) =~= timed_view(b@).take(i as int).push(timed_view(b@)[i as int]));
        i = i + 1;
    }
    assert(timed_view(b@).take(b@.len() as int) =~= timed_view(b@));
}

/// The nodes the picked signals stand for: for each signal, its exact
/// matches, or else those with its name; in order, duplicates kept.
pub fn match_checked_signals(ins: &Vec<(NodeID, TimeAnnotation)>, picked: &Vec<(String, TimeAnnotation)>) -> (r: Vec<
    (NodeID, TimeAnnotation),
>)
    ensures
        timed_view(r@) == all_matches(timed_view(ins@), named_view(picked@)),
{
    let ghost pv = named_view(picked@);
    let mut r: Vec<(NodeID, TimeAnnotation)> = Vec::new();
    let mut i: usize = 0;
    while i < picked.len()
        invariant
            pv == named_view(picked@),
            i <= picked@.len(),
            timed_view(r@) == all_matches(timed_view(ins@), pv.take(i as int)),
        decreases picked@.len() - i,
    {
        assert(pv.take(i + 1).drop_last() =~= pv.take(i as int));
        assert(pv.take(i + 1).last() == pv[i as int]);
        let name = clean_signal_name(picked[i].0.as_str());
        let t = picked[i].1;
        let exact = select_by(ins, &name, t, true);
        if exact.len() > 0 {
            append_timed(&mut r, exact);
        } else {
            let loose = select_by(ins, &name, t, false);
            append_timed(&mut r, loose);
        }
        i = i + 1;
    }
    assert(pv.take(picked@.len() as int) =~= pv);
    r
}

/// The nodes the picked signals stand for with their exact times, in order.
pub fn match_exact_signals(ins: &Vec<(NodeID, TimeAnnotation)>, picked: &Vec<(String, TimeAnnotation)>) -> (r: Vec<
    (NodeID, TimeAnnotation),
>)
    ensures
        timed_view(r@) == exact_matches(timed_view(ins@), named_view(picked@)),
{
    let ghost pv = named_view(picked@);
    let mut r: Vec<(NodeID, TimeAnnotation)> = Vec::new();
    let mut i: usize = 0;
    while i < picked.len()
        invariant
            pv == named_view(picked@),
            i <= picked@.len(),
            timed_view(r@) == exact_matches(timed_view(ins@), pv.take(i as int)),
        decreases picked@.len() - i,
    {
        assert(pv.take(i + 1).drop_last() =~= pv.take(i as int));
        assert(pv.take(i + 1).last() == pv[i as int]);
        let name = clean_signal_name(picked[i].0.as_str());
        let exact = select_by(ins, &name, picked[i].1, true);
        append_timed(&mut r, exact);
        i = i + 1;
    }
    assert(pv.take(picked@.len() as int) =~= pv);
    r
}

/// A copy of a list of nodes with times.
pub fn copy_timed_nodes(v: &Vec<(NodeID, TimeAnnotation)>) -> (r: Vec<(NodeID, TimeAnnotation)>)
    ensures
        timed_view(r@) == timed_view(v@),
{
    let mut r: Vec<(NodeID, TimeAnnotation)> = Vec::new();
    append_timed(&mut r, Vec::new());
    let mut i: usize = 0;
    while i < v.len()
        invariant
            i <= v@.len(),
            timed_view(r@) == timed_view(v@).take(i as int),
        decreases v@.len() - i,
    {
        let ghost before = r@;
        r.push((v[i].0.duplicate(), v[i].1));
        assert(timed_view(r@) =~= timed_view(before).push(timed_view(v@)[i as int]));
        assert(timed_view(v@).take(i + 1) =~= timed_view(v@).take(i as int).push(timed_view(v@)[i as int]));
        i = i + 1;
    }
    assert(timed_view(v@).take(v@.len() as int) =~= timed_view(v@));
    r
}

/// What a block checker concludes: the nodes to trace further (none to stop
/// this branch), whether the block is suspicious, whether to stop.
pub type CheckerVerdict = (Option<Vec<(NodeID, TimeAnnotation)>>, bool, bool);

/// The view of a verdict.
pub open spec fn verdict_view(v: CheckerVerdict) -> (Option<Seq<(NodeKey, TimeAnnotation)>>, bool, bool) {
    (
        match v.0 {
            Some(ns) => Some(timed_view(ns@)),
            None => None,
        },
        v.1,
        v.2,
    )
}

/// The verdict of a block checker from the model's answer: `None` when the
/// answer says nothing on stopping. When it says to stop, nothing is traced
/// further. Otherwise the picked signals are traced (each (text, time) once),
/// or every input when none of them matches, or nothing without inputs.
pub open spec fn block_verdict(
    ins: Seq<(NodeKey, TimeAnnotation)>,
    suspicious: bool,
    terminate: Option<bool>,
    picked: Option<Seq<(Seq<char>, TimeAnnotation)>>,
) -> Option<(Option<Seq<(NodeKey, TimeAnnotation)>>, bool, bool)> {
    match terminate {
        None => None,
        Some(true) => Some((None, suspicious, true)),
        Some(false) => {
            let sel = match picked {
                Some(p) => all_matches(ins, p),
                None => Seq::empty(),
            };
            if sel.len() == 0 {
                if ins.len() == 0 {
                    Some((None, suspicious, false))
                } else {
                    Some((Some(ins), suspicious, false))
                }
            } else {
                Some((Some(dedup_timed(sel)), suspicious, false))
            }
        },
    }
}

/// Decides for a block checker once the model has answered.
pub fn block_checker_decision(
    input_nodes: &Vec<(NodeID, TimeAnnotation)>,
    suspicious: bool,
    terminate: Option<bool>,
    check_signals: Option<Vec<(String, TimeAnnotation)>>,
) -> (r: Option<CheckerVerdict>)
    ensures
        (match r {
            Some(v) => Some(verdict_view(v)),
            None => None,
        }) == block_verdict(
            timed_view(input_nodes@),
            suspicious,
            terminate,
            match check_signals {
                Some(p) => Some(named_view(p@)),
                None => None,
            },
        ),
{
    match terminate {
        None => None,
        Some(true) => Some((None, suspicious, true)),
        Some(false) => {
            let sel = match &check_signals {
                Some(p) => match_checked_signals(input_nodes, p),
                None => {
                    let e: Vec<(NodeID, TimeAnnotation)> = Vec::new();
                    assert(timed_view(e@) =~= Seq::<(NodeKey, TimeAnnotation)>::empty());
                    e
                },
            };
            if sel.len() == 0 {
                if input_nodes.len() == 0 {
                    Some((None, suspicious, false))
                } else {
                    Some((Some(copy_timed_nodes(input_nodes)), suspicious, false))
                }
            } else {
                Some((Some(dedup_nodes_by_text_time(sel)), suspicious, false))
            }
        },
    }
}

/// The verdict of a tool-calling block checker from the signals it checked:
/// with a stop and no checked signal nothing is traced; otherwise the checked
/// signals' nodes are traced (each (text, time) once), and the stop holds only
/// when none of them matched.
pub open spec fn toolcall_verdict(
    ins: Seq<(NodeKey, TimeAnnotation)>,
    suspicious: bool,
    terminate: bool,
    checked: Seq<(Seq<char>, TimeAnnotation)>,
) -> (Option<Seq<(NodeKey, TimeAnnotation)>>, bool, bool) {
    if terminate && checked.len() == 0 {
        (None, suspicious, terminate)
    } else {
        let sel = dedup_timed(all_matches(ins, checked));
        let stop = terminate && sel.len() == 0;
        if sel.len() == 0 {
            (None, suspicious, stop)
        } else {
            (Some(sel), suspicious, stop)
        }
    }
}

/// Decides for a tool-calling block checker from the state its tools left.
pub fn toolcall_decision(
    input_nodes: &Vec<(NodeID, TimeAnnotation)>,
    suspicious: bool,
    terminate: bool,
    checked_signals: &Vec<(String, TimeAnnotation)>,
) -> (r: CheckerVerdict)
    ensures
        verdict_view(r) == toolcall_verdict(timed_view(input_nodes@), suspicious, terminate, named_view(checked_signals@)),
{
    if terminate && checked_signals.len() == 0 {
        return (None, suspicious, terminate);
    }
    let all = match_checked_signals(input_nodes, checked_signals);
    let sel = dedup_nodes_by_text_time(all);
    let stop = terminate && sel.len() == 0;
    if sel.len() == 0 {
        (None, suspicious, stop)
    } else {
        (Some(sel), suspicious, stop)
    }
}

/// The driven signals of the module-input blocks among `port_blocks`, each
/// with its block's time, in order.
pub open spec fn module_inputs(port_blocks: Seq<(DataFlowBlock, TimeAnnotation)>) -> Seq<(NodeKey, TimeAnnotation)>
    decreases port_blocks.len(),
{
    if port_blocks.len() == 0 {
        Seq::empty()
    } else {
        let rest = module_inputs(port_blocks.drop_last());
        let (b, t) = port_blocks.last();
        if b.block_type == BlockType::ModuleInput {
            rest + b@.outputs.map_values(|k: NodeKey| (k, t))
        } else {
            rest
        }
    }
}

/// The inputs a module checker offers the model: the driven signals of the
/// module-input blocks, with their times.
pub fn module_input_nodes(port_blocks: &Vec<(DataFlowBlock, TimeAnnotation)>) -> (r: Vec<(NodeID, TimeAnnotation)>)
    ensures
        timed_view(r@) == module_inputs(port_blocks@),
{
    let mut r: Vec<(NodeID, TimeAnnotation)> = Vec::new();
    let mut i: usize = 0;
    while i < port_blocks.len()
        invariant
            i <= port_blocks@.len(),
            timed_view(r@) == module_inputs(port_blocks@.take(i as int)),
        decreases port_blocks@.len() - i,
    {
        assert(port_blocks@.take(i + 1).drop_last() =~= port_blocks@.take(i as int));
        assert(port_blocks@.take(i + 1).last() == port_blocks@[i as int]);
        let b = &port_blocks[i].0;
        let t = port_blocks[i].1;
        if b.block_type == BlockType::ModuleInput {
            let ghost base = timed_view(r@);
            let mut j: usize = 0;
            while j < b.outputs.len()
                invariant
                    j <= b.outputs@.len(),
                    timed_view(r@) == base + b@.outputs.take(j as int).map_values(|k: NodeKey| (k, t)),
                decreases b.outputs@.len() - j,
            {
                let ghost before = r@;
                r.push((b.outputs[j].duplicate(), t));
                assert(timed_view(r@) =~= timed_view(before).push((b@.outputs[j as int], t)));
                assert(b@.outputs.take(j + 1).map_values(|k: NodeKey| (k, t)) =~= b@.outputs.take(j as int).map_values(
                    |k: NodeKey| (k, t),
                ).push((b@.outputs[j as int], t)));
                j = j + 1;
            }
            assert(b@.outputs.take(b.outputs@.len() as int) =~= b@.outputs);
        }
        i = i + 1;
    }
    assert(port_blocks@.take(port_blocks@.len() as int) =~= port_blocks@);
    r
}

/// The verdict of a module checker from the model's answer: `None` when the
/// answer says nothing on diving, or says not to dive without picking
/// signals. Diving traces nothing further at the ports; otherwise the picked
/// signals with their exact times are traced, nothing when none matched.
pub open spec fn module_verdict(
    ins: Seq<(NodeKey, TimeAnnotation)>,
    dive: Option<bool>,
    picked: Option<Seq<(Seq<char>, TimeAnnotation)>>,
) -> Option<Option<Seq<(NodeKey, TimeAnnotation)>>> {
    match dive {
        None => None,
        Some(true) => Some(None),
        Some(false) => match picked {
            None => None,
            Some(p) => {
                let nodes = exact_matches(ins, p);
                if nodes.len() == 0 {
                    Some(None)
                } else {
                    Some(Some(nodes))
                }
            },
        },
    }
}

/// Decides for a module checker once the model has answered.
pub fn module_checker_decision(
    input_nodes: &Vec<(NodeID, TimeAnnotation)>,
    dive: Option<bool>,
    check_signals: Option<Vec<(String, TimeAnnotation)>>,
) -> (r: Option<Option<Vec<(NodeID, TimeAnnotation)>>>)
    ensures
        (match r {
            None => None,
            Some(None) => Some(None),
            Some(Some(ns)) => Some(Some(timed_view(ns@))),
        }) == module_verdict(
            timed_view(input_nodes@),
            dive,
            match check_signals {
                Some(p) => Some(named_view(p@)),
                None => None,
            },
        ),
{
    match dive {
        None => None,
        Some(true) => Some(None),
        Some(false) => match &check_signals {
            None => None,
            Some(p) => {
                let nodes = match_exact_signals(input_nodes, p);
                if nodes.len() == 0 {
                    Some(None)
                } else {
                    Some(Some(nodes))
                }
            },
        },
    }
}

} // verus!
