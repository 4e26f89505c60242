//! The dataflow of an `always` block: each assigned signal with the signals it
//! depends on, its right-hand side and the conditions it is assigned under.
//! The block is read as the sequence of syntax events a walk of its tree
//! meets; the walk itself is the caller's.
use vstd::prelude::*;

use crate::block::{node_keys, node_text, NodeID, NodeKey};

verus! {

/// What a walk of an `always` block meets, in order.
pub enum AlwaysEvent {
    /// Entering the condition of an `if`: the signals of its expression, when it has one.
    CondPredicate(Option<Vec<NodeID>>),
    /// Entering the expression a `case` selects on: its signals.
    CaseExpression(Vec<NodeID>),
    /// Entering the expression of a `case` item: its signals.
    CaseItemExpression(Vec<NodeID>),
    /// Entering a `default` item: the signals its assignments assign.
    CaseItemDefault(Vec<NodeID>),
    /// Entering a blocking or non-blocking assignment: its assigned signals
    /// and the signals of its right-hand side.
    Assignment(Vec<NodeID>, Vec<NodeID>),
    /// Entering a variable declaration with an initial value: the declared
    /// signals and the signals of the value.
    VariableDeclAssignment(Vec<NodeID>, Vec<NodeID>),
    /// Leaving a `case` statement.
    LeaveCase,
    /// Leaving an `if` statement.
    LeaveConditional,
}

/// The mathematical value of an event.
pub enum EventView {
    CondPredicate(Option<Seq<NodeKey>>),
    CaseExpression(Seq<NodeKey>),
    CaseItemExpression(Seq<NodeKey>),
    CaseItemDefault(Seq<NodeKey>),
    Assignment(Seq<NodeKey>, Seq<NodeKey>),
    VariableDeclAssignment(Seq<NodeKey>, Seq<NodeKey>),
    LeaveCase,
    LeaveConditional,
}

impl View for AlwaysEvent {
    type V = EventView;

    open spec fn view(&self) -> EventView {
        match self {
            AlwaysEvent::CondPredicate(o) => EventView::CondPredicate(
                match o {
                    Some(v) => Some(node_keys(v@)),
                    None => None,
                },
            ),
            AlwaysEvent::CaseExpression(v) => EventView::CaseExpression(node_keys(v@)),
            AlwaysEvent::CaseItemExpression(v) => EventView::CaseItemExpression(node_keys(v@)),
            AlwaysEvent::CaseItemDefault(v) => EventView::CaseItemDefault(node_keys(v@)),
            AlwaysEvent::Assignment(l, r) => EventView::Assignment(node_keys(l@), node_keys(r@)),
            AlwaysEvent::VariableDeclAssignment(l, r) => EventView::VariableDeclAssignment(node_keys(l@), node_keys(r@)),
            AlwaysEvent::LeaveCase => EventView::LeaveCase,
            AlwaysEvent::LeaveConditional => EventView::LeaveConditional,
        }
    }
}

/// Where the walk is: the conditions it is under (innermost last; `true` for
/// an `if` condition, `false` for a `case` one), the declarations met in the
/// current `case` statements, and the dataflow found so far.
pub ghost struct WalkState {
    pub predicate: Seq<(bool, Seq<NodeKey>)>,
    pub case_declarations: Seq<Seq<NodeKey>>,
    pub ret: Seq<(NodeKey, Seq<NodeKey>)>,
}

/// The signals of all conditions, outermost first.
pub open spec fn collect_preds(p: Seq<(bool, Seq<NodeKey>)>) -> Seq<NodeKey>
    decreases p.len(),
{
    if p.len() == 0 {
        Seq::empty()
    } else {
        collect_preds(p.drop_last()) + p.last().1
    }
}

/// Whether a signal with the text of `d` is among `ignored`.
pub open spec fn ignored_text(ignored: Seq<NodeKey>, d: NodeKey) -> bool {
    exists|i: int| 0 <= i < ignored.len() && node_text(ignored[i]) == node_text(d)
}

/// The dataflow after adding the conditions `preds` to the dependencies of
/// every entry for `d`.
pub open spec fn extend_entries(ret: Seq<(NodeKey, Seq<NodeKey>)>, d: NodeKey, preds: Seq<NodeKey>) -> Seq<(NodeKey, Seq<NodeKey>)> {
    ret.map_values(|e: (NodeKey, Seq<NodeKey>)| if e.0 == d {
        (e.0, e.1 + preds)
    } else {
        e
    })
}

/// The dataflow after a group of declarations is covered by a `default`: each
/// declaration, in order, not assigned in the `default` gets the conditions.
pub open spec fn cover_group(ret: Seq<(NodeKey, Seq<NodeKey>)>, g: Seq<NodeKey>, ignored: Seq<NodeKey>, preds: Seq<NodeKey>) -> Seq<(NodeKey, Seq<NodeKey>)>
    decreases g.len(),
{
    if g.len() == 0 {
        ret
    } else {
        let r = cover_group(ret, g.drop_last(), ignored, preds);
        if ignored_text(ignored, g.last()) {
            r
        } else {
            extend_entries(r, g.last(), preds)
        }
    }
}

/// The dataflow after all groups of declarations, the last group first.
pub open spec fn cover_groups(ret: Seq<(NodeKey, Seq<NodeKey>)>, gs: Seq<Seq<NodeKey>>, ignored: Seq<NodeKey>, preds: Seq<NodeKey>) -> Seq<(NodeKey, Seq<NodeKey>)>
    decreases gs.len(),
{
    if gs.len() == 0 {
        ret
    } else {
        cover_groups(cover_group(ret, gs.last(), ignored, preds), gs.drop_last(), ignored, preds)
    }
}

/// The dataflow after an assignment: each assigned signal depends on the
/// right-hand side and the conditions.
pub open spec fn assign_all(ret: Seq<(NodeKey, Seq<NodeKey>)>, lefts: Seq<NodeKey>, deps: Seq<NodeKey>) -> Seq<(NodeKey, Seq<NodeKey>)> {
    ret + lefts.map_values(|l: NodeKey| (l, deps))
}

/// The `case` conditions at the top of the stack, removed.
pub open spec fn pop_cases(p: Seq<(bool, Seq<NodeKey>)>) -> Seq<(bool, Seq<NodeKey>)>
    decreases p.len(),
{
    if p.len() > 0 && !p.last().0 {
        pop_cases(p.drop_last())
    } else {
        p
    }
}

/// The walk after one event; `None` when leaving an `if` finds no `if`
/// condition on top of the stack.
pub open spec fn walk_step(s: WalkState, e: EventView) -> Option<WalkState> {
    match e {
        EventView::CondPredicate(o) => match o {
            Some(ids) => Some(WalkState { predicate: s.predicate.push((true, ids)), ..s }),
            None => Some(s),
        },
        EventView::CaseExpression(ids) => Some(WalkState { predicate: s.predicate.push((false, ids)), ..s }),
        EventView::CaseItemExpression(ids) => Some(WalkState { predicate: s.predicate.push((false, ids)), ..s }),
        EventView::CaseItemDefault(ignored) => Some(
            WalkState {
                ret: cover_groups(s.ret, s.case_declarations, ignored, collect_preds(s.predicate)),
                case_declarations: Seq::empty(),
                ..s
            },
        ),
        EventView::Assignment(l, r) => Some(
            WalkState { ret: assign_all(s.ret, l, r + collect_preds(s.predicate)), ..s },
        ),
        EventView::VariableDeclAssignment(l, r) => Some(
            WalkState {
                ret: assign_all(s.ret, l, r + collect_preds(s.predicate)),
                case_declarations: s.case_declarations.push(l),
                ..s
            },
        ),
        EventView::LeaveCase => Some(WalkState { predicate: pop_cases(s.predicate), ..s }),
        EventView::LeaveConditional => if s.predicate.len() > 0 && s.predicate.last().0 {
            Some(WalkState { predicate: s.predicate.drop_last(), ..s })
        } else {
            None
        },
    }
}

/// The walk after all events, from an empty state.
pub open spec fn walk(es: Seq<EventView>) -> Option<WalkState>
    decreases es.len(),
{
    if es.len() == 0 {
        Some(WalkState { predicate: Seq::empty(), case_declarations: Seq::empty(), ret: Seq::empty() })
    } else {
        match walk(es.drop_last()) {
            Some(s) => walk_step(s, es.last()),
            None => None,
        }
    }
}

/// The view of a list of events.
pub open spec fn events_view(es: Seq<AlwaysEvent>) -> Seq<EventView> {
    es.map_values(|e: AlwaysEvent| e@)
}

/// The view of a dataflow table.
pub open spec fn flow_view(t: Seq<(NodeID, Vec<NodeID>)>) -> Seq<(NodeKey, Seq<NodeKey>)> {
    t.map_values(|e: (NodeID, Vec<NodeID>)| (e.0@, node_keys(e.1@)))
}

/// The view of a condition stack.
pub open spec fn preds_view(p: Seq<(bool, Vec<NodeID>)>) -> Seq<(bool, Seq<NodeKey>)> {
    p.map_values(|e: (bool, Vec<NodeID>)| (e.0, node_keys(e.1@)))
}

/// The view of groups of declarations.
pub open spec fn groups_view(g: Seq<Vec<NodeID>>) -> Seq<Seq<NodeKey>> {
    g.map_values(|v: Vec<NodeID>| node_keys(v@))
}

fn copy_ids(v: &Vec<NodeID>) -> (r: Vec<NodeID>)
    ensures
        node_keys(r@) == node_keys(v@),
{
    crate::block::copy_nodes(v)
}

/// Appends copies of the nodes of `b` to `a`.
fn extend_ids(a: &mut Vec<NodeID>, b: &Vec<NodeID>)
    ensures
        node_keys(final(a)@) == node_keys(old(a)@) + node_keys(b@),
{
    let ghost a0 = node_keys(a@);
    let mut i: usize = 0;
    while i < b.len()
        invariant
            i <= b@.len(),
            node_keys(a@) == a0 + node_keys(b@).take(i as int),
        decreases b@.len() - i,
    {
        let ghost before = node_keys(a@);
        a.push(b[i].duplicate());
        assert(node_keys(a@) =~= before.push(node_keys(b@)[i as int]));
        assert(node_keys(b@).take(i + 1) =~= node_keys(b@).take(i as int).push(node_keys(b@)[i as int]));
        i = i + 1;
    }
    assert(node_keys(b@).take(b@.len() as int) =~= node_keys(b@));
}

/// The signals of all conditions, outermost first.
fn collect_predicates(p: &Vec<(bool, Vec<NodeID>)>) -> (r: Vec<NodeID>)
    ensures
        node_keys(r@) == collect_preds(preds_view(p@)),
{
    let ghost pv = preds_view(p@);
    let mut r: Vec<NodeID> = Vec::new();
    let mut i: usize = 0;
    assert(node_keys(r@) =~= Seq::<NodeKey>::empty());
    while i < p.len()
        invariant
            pv == preds_view(p@),
            i <= p@.len(),
            node_keys(r@) == collect_preds(pv.take(i as int)),
        decreases p@.len() - i,
    {
        assert(pv.take(i + 1).drop_last() =~= pv.take(i as int));
        assert(pv.take(i + 1).last() == pv[i as int]);
        extend_ids(&mut r, &p[i].1);
        i = i + 1;
    }
    assert(pv.take(p@.len() as int) =~= pv);
    r
}

/// Whether a node with the text of `d` is among `ignored`.
fn is_ignored(ignored: &Vec<NodeID>, d: &NodeID) -> (r: bool)
    ensures
        r == ignored_text(node_keys(ignored@), d@),
{
    let mut i: usize = 0;
    while i < ignored.len()
        invariant
            i <= ignored@.len(),
            forall|k: int| 0 <= k < i ==> node_text(node_keys(ignored@)[k]) != node_text(d@),
        decreases ignored@.len() - i,
    {
        if ignored[i].same_text(d) {
            assert(node_keys(ignored@)[i as int] == ignored@[i as int]@);
            return true;
        }
        i = i + 1;
    }
    false
}

/// Adds `preds` to the dependencies of every entry for `d`.
fn extend_matching(ret: &mut Vec<(NodeID, Vec<NodeID>)>, d: &NodeID, preds: &Vec<NodeID>)
    ensures
        flow_view(final(ret)@) == extend_entries(flow_view(old(ret)@), d@, node_keys(preds@)),
{
    let ghost r0 = flow_view(ret@);
    let mut i: usize = 0;
    while i < ret.len()
        invariant
            i <= ret@.len(),
            r0.len() == ret@.len(),
            r0 == flow_view(old(ret)@),
            forall|k: int| 0 <= k < i ==> flow_view(ret@)[k] == extend_entries(r0, d@, node_keys(preds@))[k],
            forall|k: int| i <= k < ret@.len() ==> flow_view(ret@)[k] == r0[k],
        decreases ret@.len() - i,
    {
        assert(flow_view(ret@)[i as int] == r0[i as int]);
        let ghost ret0 = ret@;
        if ret[i].0.same(d) {
            let mut deps = copy_ids(&ret[i].1);
            extend_ids(&mut deps, preds);
            let key = ret[i].0.duplicate();
            let ghost before = ret@;
            ret.set(i, (key, deps));
            assert forall|k: int| 0 <= k < ret@.len() && k != i implies flow_view(ret@)[k] == flow_view(before)[k] by {
                assert(ret@[k] == before[k]);
            }
            assert(flow_view(ret@)[i as int] == (r0[i as int].0, r0[i as int].1 + node_keys(preds@)));
        }
        assert(flow_view(ret@)[i as int] == extend_entries(r0, d@, node_keys(preds@))[i as int]);
        assert forall|k: int| 0 <= k < i + 1 implies flow_view(ret@)[k] == extend_entries(r0, d@, node_keys(preds@))[k] by {
            if k < i {
                assert(flow_view(ret@)[k] == flow_view(ret0)[k]);
            }
        }
        i = i + 1;
    }
    assert(flow_view(ret@) =~= extend_entries(r0, d@, node_keys(preds@)));
}

/// Appends an entry for each assigned signal, with the dependencies `deps`.
fn assign_each(ret: &mut Vec<(NodeID, Vec<NodeID>)>, lefts: &Vec<NodeID>, deps: &Vec<NodeID>)
    ensures
        flow_view(final(ret)@) == assign_all(flow_view(old(ret)@), node_keys(lefts@), node_keys(deps@)),
{
    let ghost r0 = flow_view(ret@);
    let ghost add = node_keys(lefts@).map_values(|l: NodeKey| (l, node_keys(deps@)));
    let mut i: usize = 0;
    while i < lefts.len()
        invariant
            i <= lefts@.len(),
            add == node_keys(lefts@).map_values(|l: NodeKey| (l, node_keys(deps@))),
            flow_view(ret@) == r0 + add.take(i as int),
        decreases lefts@.len() - i,
    {
        let ghost before = flow_view(ret@);
        ret.push((lefts[i].duplicate(), copy_ids(deps)));
        assert(flow_view(ret@) =~= before.push(add[i as int]));
        assert(add.take(i + 1) =~= add.take(i as int).push(add[i as int]));
        i = i + 1;
    }
    assert(add.take(lefts@.len() as int) =~= add);
}

/// The dataflow of an `always` block from the events of a walk of it: each
/// assigned (or declared and initialized) signal with the signals of its
/// right-hand side and of the conditions it is under. A `default` item adds
/// the conditions of its `case` to the signals declared in the `case`
/// statements so far (the last declared first) that it does not assign.
/// The walk must leave each `if` right after its condition's scope.
pub fn get_all_from_always(events: &Vec<AlwaysEvent>) -> (r: Vec<(NodeID, Vec<NodeID>)>)
    requires
        walk(events_view(events@)) is Some,
    ensures
        flow_view(r@) == walk(events_view(events@)).unwrap().ret,
{
    let ghost ev = events_view(events@);
    let mut predicate: Vec<(bool, Vec<NodeID>)> = Vec::new();
    let mut case_declarations: Vec<Vec<NodeID>> = Vec::new();
    let mut ret: Vec<(NodeID, Vec<NodeID>)> = Vec::new();
    let mut i: usize = 0;
    proof {
        assert(ev.take(0) =~= Seq::<EventView>::empty());
        assert(preds_view(predicate@) =~= Seq::<(bool, Seq<NodeKey>)>::empty());
        assert(groups_view(case_declarations@) =~= Seq::<Seq<NodeKey>>::empty());
        assert(flow_view(ret@) =~= Seq::<(NodeKey, Seq<NodeKey>)>::empty());
    }
    while i < events.len()
        invariant
            ev == events_view(events@),
            walk(ev) is Some,
            i <= events@.len(),
            walk(ev.take(i as int)) == Some(
                WalkState {
                    predicate: preds_view(predicate@),
                    case_declarations: groups_view(case_declarations@),
                    ret: flow_view(ret@),
                },
            ),
        decreases events@.len() - i,
    {
        assert(ev.take(i + 1).drop_last() =~= ev.take(i as int));
        assert(ev.take(i + 1).last() == events@[i as int]@);
        proof {
            lemma_walk_prefix(ev, i + 1);
        }
        let ghost s0 = WalkState {
            predicate: preds_view(predicate@),
            case_declarations: groups_view(case_declarations@),
            ret: flow_view(ret@),
        };
        match &events[i] {
            AlwaysEvent::CondPredicate(o) => match o {
                Some(ids) => {
                    let ghost before = predicate@;
                    predicate.push((true, copy_ids(ids)));
                    assert(preds_view(predicate@) =~= preds_view(before).push((true, node_keys(ids@))));
                },
                None => {},
            },
            AlwaysEvent::CaseExpression(ids) => {
                let ghost before = predicate@;
                predicate.push((false, copy_ids(ids)));
                assert(preds_view(predicate@) =~= preds_view(before).push((false, node_keys(ids@))));
            },
            AlwaysEvent::CaseItemExpression(ids) => {
                let ghost before = predicate@;
                predicate.push((false, copy_ids(ids)));
                assert(preds_view(predicate@) =~= preds_view(before).push((false, node_keys(ids@))));
            },
            AlwaysEvent::CaseItemDefault(ignored) => {
                let preds = collect_predicates(&predicate);
                while case_declarations.len() > 0
                    invariant
                        cover_groups(s0.ret, s0.case_declarations, node_keys(ignored@), node_keys(preds@)) == cover_groups(
                            flow_view(ret@),
                            groups_view(case_declarations@),
                            node_keys(ignored@),
                            node_keys(preds@),
                        ),
                    decreases case_declarations@.len(),
                {
                    let ghost g0 = groups_view(case_declarations@);
                    let decls = case_declarations.pop().unwrap();
                    assert(groups_view(case_declarations@) =~= g0.drop_last());
                    assert(node_keys(decls@) == g0.last());
                    let ghost r_in = flow_view(ret@);
                    let mut k: usize = 0;
                    while k < decls.len()
                        invariant
                            k <= decls@.len(),
                            flow_view(ret@) == cover_group(r_in, node_keys(decls@).take(k as int), node_keys(ignored@), node_keys(preds@)),
                        decreases decls@.len() - k,
                    {
                        assert(node_keys(decls@).take(k + 1).drop_last() =~= node_keys(decls@).take(k as int));
                        assert(node_keys(decls@).take(k + 1).last() == decls@[k as int]@);
                        if !is_ignored(ignored, &decls[k]) {
                            extend_matching(&mut ret, &decls[k], &preds);
                        }
                        k = k + 1;
                    }
                    assert(node_keys(decls@).take(decls@.len() as int) =~= node_keys(decls@));
                }
                assert(groups_view(case_declarations@) =~= Seq::<Seq<NodeKey>>::empty());
            },
            AlwaysEvent::Assignment(l, r) => {
                let mut deps = copy_ids(r);
                let preds = collect_predicates(&predicate);
                extend_ids(&mut deps, &preds);
                assign_each(&mut ret, l, &deps);
            },
            AlwaysEvent::VariableDeclAssignment(l, r) => {
                let mut deps = copy_ids(r);
                let preds = collect_predicates(&predicate);
                extend_ids(&mut deps, &preds);
                assign_each(&mut ret, l, &deps);
                let ghost before = case_declarations@;
                case_declarations.push(copy_ids(l));
                assert(groups_view(case_declarations@) =~= groups_view(before).push(node_keys(l@)));
            },
            AlwaysEvent::LeaveCase => {
                let ghost p0 = preds_view(predicate@);
                while predicate.len() > 0 && !predicate[predicate.len() - 1].0
                    invariant
                        pop_cases(p0) == pop_cases(preds_view(predicate@)),
                    decreases predicate@.len(),
                {
                    let ghost before = preds_view(predicate@);
                    predicate.pop();
                    assert(preds_view(predicate@) =~= before.drop_last());
                }
                assert(pop_cases(preds_view(predicate@)) == preds_view(predicate@));
            },
            AlwaysEvent::LeaveConditional => {
                let ghost before = preds_view(predicate@);
                predicate.pop();
                assert(preds_view(predicate@) =~= before.drop_last());
            },
        }
        i = i + 1;
    }
    assert(ev.take(events@.len() as int) =~= ev);
    ret
}

/// A walk that goes through goes through each of its prefixes.
proof fn lemma_walk_prefix(es: Seq<EventView>, k: int)
    requires
        walk(es) is Some,
        0 <= k <= es.len(),
    ensures
        walk(es.take(k)) is Some,
    decreases es.len() - k,
{
    if k < es.len() {
        lemma_walk_prefix(es, k + 1);
        assert(es.take(k + 1).drop_last() =~= es.take(k));
    } else {
        assert(es.take(k) =~= es);
    }
}

/// The kinds of the conditions on a stack (`true` for an `if`).
pub open spec fn labels(p: Seq<(bool, Seq<NodeKey>)>) -> Seq<bool> {
    p.map_values(|e: (bool, Seq<NodeKey>)| e.0)
}

/// The `case` labels at the top of a stack of labels, removed.
pub open spec fn pop_case_labels(p: Seq<bool>) -> Seq<bool>
    decreases p.len(),
{
    if p.len() > 0 && !p.last() {
        pop_case_labels(p.drop_last())
    } else {
        p
    }
}

proof fn lemma_pop_labels(p: Seq<(bool, Seq<NodeKey>)>)
    ensures
        labels(pop_cases(p)) == pop_case_labels(labels(p)),
    decreases p.len(),
{
    if p.len() > 0 && !p.last().0 {
        assert(labels(p.drop_last()) =~= labels(p).drop_last());
        lemma_pop_labels(p.drop_last());
    }
}

/// Whether a walk of the events goes through: each `if` left has its
/// condition on top of the stack of conditions, as `get_all_from_always`
/// needs.
pub fn events_well_nested(events: &Vec<AlwaysEvent>) -> (r: bool)
    ensures
        r == (walk(events_view(events@)) is Some),
{
    let ghost ev = events_view(events@);
    let mut stack: Vec<bool> = Vec::new();
    let mut i: usize = 0;
    assert(ev.take(0) =~= Seq::<EventView>::empty());
    assert(labels(Seq::<(bool, Seq<NodeKey>)>::empty()) =~= Seq::<bool>::empty());
    while i < events.len()
        invariant
            ev == events_view(events@),
            i <= events@.len(),
            walk(ev.take(i as int)) is Some,
            stack@ == labels(walk(ev.take(i as int)).unwrap().predicate),
        decreases events@.len() - i,
    {
        let ghost s = walk(ev.take(i as int)).unwrap();
        assert(ev.take(i + 1).drop_last() =~= ev.take(i as int));
        assert(ev.take(i + 1).last() == events@[i as int]@);
        match &events[i] {
            AlwaysEvent::CondPredicate(o) => {
                if o.is_some() {
                    stack.push(true);
                    assert(labels(s.predicate.push((true, node_keys(o.unwrap()@)))) =~= labels(s.predicate).push(true));
                }
            },
            AlwaysEvent::CaseExpression(v) => {
                stack.push(false);
                assert(labels(s.predicate.push((false, node_keys(v@)))) =~= labels(s.predicate).push(false));
            },
            AlwaysEvent::CaseItemExpression(v) => {
                stack.push(false);
                assert(labels(s.predicate.push((false, node_keys(v@)))) =~= labels(s.predicate).push(false));
            },
            AlwaysEvent::LeaveCase => {
                proof {
                    lemma_pop_labels(s.predicate);
                }
                let ghost st = stack@;
                while stack.len() > 0 && !stack[stack.len() - 1]
                    invariant
                        pop_case_labels(stack@) == pop_case_labels(st),
                    decreases stack.len(),
                {
                    let ghost b = stack@;
                    stack.pop();
                    assert(stack@ =~= b.drop_last());
                }
            },
            AlwaysEvent::LeaveConditional => {
                if stack.len() == 0 || !stack[stack.len() - 1] {
                    proof {
                        lemma_walk_none_stays(ev, i as int);
                    }
                    return false;
                }
                let ghost b = stack@;
                stack.pop();
                assert(labels(s.predicate.drop_last()) =~= b.drop_last());
            },
            _ => {},
        }
        i = i + 1;
    }
    assert(ev.take(events@.len() as int) =~= ev);
    true
}

/// A walk that fails on a prefix fails on the whole.
proof fn lemma_walk_none_stays(es: Seq<EventView>, k: int)
    requires
        0 <= k < es.len(),
        walk(es.take(k + 1)) is None,
    ensures
        walk(es) is None,
{
    if walk(es) is Some {
        lemma_walk_prefix(es, k + 1);
    }
}

} // verus!
