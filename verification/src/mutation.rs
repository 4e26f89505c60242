//! The decisions of the bug-injection loop: which proposed mutation is
//! written and checked, when a check counts as a failure, when a mutation is
//! kept and when the loop gives up; and the text of a mutated source file.
use vstd::prelude::*;

use crate::text::{chars_of, str_eq, string_from_chars};

verus! {

/// How many failed attempts one mutation may take.
pub const RETRY_LIMIT: u32 = 50;

/// A mutation: the module, the offset of the replaced node and the
/// replacement text.
pub type MutationKey = (String, usize, String);

/// The mathematical value of a mutation key.
pub open spec fn key_view(k: MutationKey) -> (Seq<char>, usize, Seq<char>) {
    (k.0@, k.1, k.2@)
}

/// The views of a list of mutation keys.
pub open spec fn keys_view(v: Seq<MutationKey>) -> Seq<(Seq<char>, usize, Seq<char>)> {
    v.map_values(|k: MutationKey| key_view(k))
}

/// The state of the search for one mutation.
pub struct MutationState {
    /// Failed attempts so far.
    pub retries: u32,
    /// Whether a mutation was kept.
    pub success: bool,
    /// The scope of the last failed attempt, which the next choice of scope
    /// weighs down.
    pub feedback: Option<String>,
    /// The mutations already written, by any search.
    pub visited: Vec<MutationKey>,
}

/// What the outside world reports for one attempt.
pub enum MutationEvent {
    /// The chosen scope has no table of mutation positions.
    NoPositions,
    /// No mutation could be made in the chosen scope.
    NoMutation { scope: String },
    /// A mutation was proposed in `scope`; `has_oracle` tells whether its
    /// position belongs to a block.
    Candidate { scope: String, key: MutationKey, has_oracle: bool },
    /// The written mutation of `scope` was checked.
    Checked { scope: String, passed: bool },
}

/// What the outside world does next.
#[derive(PartialEq, Eq, Structural)]
pub enum MutationAction {
    /// Choose a scope (with the feedback) and propose a mutation.
    PickScope,
    /// Write the proposed mutation and check it.
    Write,
    /// Keep the checked mutation; this search is over.
    Save,
    /// Too many failures; this search is over.
    GiveUp,
}

/// The view of an optional scope name.
pub open spec fn opt_str_view(o: Option<String>) -> Option<Seq<char>> {
    match o {
        Some(s) => Some(s@),
        None => None,
    }
}

/// After an attempt that did not write or keep anything: go on, or give up
/// once the failures reach the limit.
pub open spec fn continue_or_give_up(retries: u32) -> MutationAction {
    if retries >= RETRY_LIMIT {
        MutationAction::GiveUp
    } else {
        MutationAction::PickScope
    }
}

impl MutationState {
    /// A new search that knows the mutations already written.
    pub fn start(visited: Vec<MutationKey>) -> (r: MutationState)
        ensures
            r.retries == 0,
            !r.success,
            r.feedback is None,
            r.visited == visited,
    {
        MutationState { retries: 0, success: false, feedback: None, visited }
    }

    /// Whether the key is among the written mutations.
    pub fn has_visited(&self, key: &MutationKey) -> (r: bool)
        ensures
            r == keys_view(self.visited@).contains(key_view(*key)),
    {
        let mut i: usize = 0;
        while i < self.visited.len()
            invariant
                i <= self.visited@.len(),
                forall|j: int| 0 <= j < i ==> key_view(#[trigger] self.visited@[j]) != key_view(*key),
            decreases self.visited@.len() - i,
        {
            let k = &self.visited[i];
            if str_eq(k.0.as_str(), key.0.as_str()) && k.1 == key.1 && str_eq(k.2.as_str(), key.2.as_str()) {
                assert(keys_view(self.visited@)[i as int] == key_view(*key));
                return true;
            }
            i = i + 1;
        }
        proof {
            if keys_view(self.visited@).contains(key_view(*key)) {
                let j = choose|j: int| 0 <= j < keys_view(self.visited@).len() && keys_view(self.visited@)[j] == key_view(*key);
                assert(key_view(self.visited@[j]) == key_view(*key));
            }
        }
        false
    }
}

/// One step of the search for a mutation. A failure (no mutation made, a
/// mutation written before, or a failed check) counts one retry and
/// remembers its scope as feedback. A proposed mutation that was not written
/// before is recorded and written, except that with `force_oracle` one whose
/// position belongs to no block is passed over. A passed check keeps the
/// mutation. The search gives up once the failures reach `RETRY_LIMIT`.
pub fn mutation_step(s: MutationState, ev: MutationEvent, force_oracle: bool) -> (r: (MutationState, MutationAction))
    requires
        s.retries < RETRY_LIMIT,
        !s.success,
    ensures
        r.0.retries == s.retries || r.0.retries == s.retries + 1,
        r.0.retries == s.retries + 1 <==> (match ev {
            MutationEvent::NoPositions => false,
            MutationEvent::NoMutation { .. } => true,
            MutationEvent::Candidate { key, has_oracle, .. } => !(force_oracle && !has_oracle)
                && keys_view(s.visited@).contains(key_view(key)),
            MutationEvent::Checked { passed, .. } => !passed,
        }),
        r.0.retries == s.retries + 1 ==> (match ev {
            MutationEvent::NoMutation { scope } => opt_str_view(r.0.feedback) == Some(scope@),
            MutationEvent::Candidate { scope, .. } => opt_str_view(r.0.feedback) == Some(scope@),
            MutationEvent::Checked { scope, .. } => opt_str_view(r.0.feedback) == Some(scope@),
            _ => false,
        }),
        r.0.retries == s.retries ==> opt_str_view(r.0.feedback) == opt_str_view(s.feedback),
        r.1 == MutationAction::Write <==> (ev matches MutationEvent::Candidate { key, has_oracle, .. } && !(force_oracle
            && !has_oracle) && !keys_view(s.visited@).contains(key_view(key))),
        r.1 == MutationAction::Write ==> (ev matches MutationEvent::Candidate { key, .. } && keys_view(r.0.visited@) == keys_view(
            s.visited@,
        ).push(key_view(key))),
        r.1 != MutationAction::Write ==> keys_view(r.0.visited@) == keys_view(s.visited@),
        r.0.success <==> (ev matches MutationEvent::Checked { passed, .. } && passed),
        r.0.success ==> r.1 == MutationAction::Save,
        !r.0.success && r.1 != MutationAction::Write ==> r.1 == continue_or_give_up(r.0.retries),
{
    let MutationState { retries, success, feedback, visited } = s;
    let st = MutationState { retries, success, feedback, visited };
    match ev {
        MutationEvent::NoPositions => {
            let a = if st.retries >= RETRY_LIMIT { MutationAction::GiveUp } else { MutationAction::PickScope };
            (st, a)
        },
        MutationEvent::NoMutation { scope } => {
            let n = st.retries + 1;
            let a = if n >= RETRY_LIMIT { MutationAction::GiveUp } else { MutationAction::PickScope };
            (MutationState { retries: n, success: false, feedback: Some(scope), visited: st.visited }, a)
        },
        MutationEvent::Candidate { scope, key, has_oracle } => {
            if force_oracle && !has_oracle {
                let a = if st.retries >= RETRY_LIMIT { MutationAction::GiveUp } else { MutationAction::PickScope };
                (st, a)
            } else if st.has_visited(&key) {
                let n = st.retries + 1;
                let a = if n >= RETRY_LIMIT { MutationAction::GiveUp } else { MutationAction::PickScope };
                (MutationState { retries: n, success: false, feedback: Some(scope), visited: st.visited }, a)
            } else {
                let mut visited = st.visited;
                let ghost before = visited@;
                visited.push(key);
                assert(keys_view(visited@) =~= keys_view(before).push(key_view(key)));
                (MutationState { retries: st.retries, success: false, feedback: st.feedback, visited }, MutationAction::Write)
            }
        },
        MutationEvent::Checked { scope, passed } => {
            if passed {
                (MutationState { retries: st.retries, success: true, feedback: st.feedback, visited: st.visited }, MutationAction::Save)
            } else {
                let n = st.retries + 1;
                let a = if n >= RETRY_LIMIT { MutationAction::GiveUp } else { MutationAction::PickScope };
                (MutationState { retries: n, success: false, feedback: Some(scope), visited: st.visited }, a)
            }
        },
    }
}

/// The source with the `len` characters at `offset` replaced by `rep`, and a
/// line end added.
pub fn splice(code: &str, offset: usize, len: usize, rep: &str) -> (r: String)
    requires
        offset + len <= code@.len(),
    ensures
        r@ == code@.take(offset as int) + rep@ + code@.skip(offset + len) + seq!['\n'],
{
    let cs = chars_of(code);
    let rs = chars_of(rep);
    let mut out: Vec<char> = Vec::new();
    let mut i: usize = 0;
    while i < offset
        invariant
            i <= offset,
            offset + len <= cs@.len(),
            out@ == cs@.take(i as int),
        decreases offset - i,
    {
        out.push(cs[i]);
        assert(cs@.take(i + 1) =~= cs@.take(i as int).push(cs@[i as int]));
        i = i + 1;
    }
    let ghost pre = out@;
    let mut j: usize = 0;
    while j < rs.len()
        invariant
            j <= rs@.len(),
            offset + len <= cs@.len(),
            out@ == pre + rs@.take(j as int),
        decreases rs@.len() - j,
    {
        out.push(rs[j]);
        assert(rs@.take(j + 1) =~= rs@.take(j as int).push(rs@[j as int]));
        assert(pre + rs@.take(j + 1) =~= (pre + rs@.take(j as int)).push(rs@[j as int]));
        j = j + 1;
    }
    assert(rs@.take(rs@.len() as int) =~= rs@);
    let ghost mid = out@;
    let n = cs.len();
    assert(offset + len <= n);
    let mut k: usize = offset + len;
    while k < cs.len()
        invariant
            offset + len <= k <= cs@.len(),
            out@ == mid + cs@.subrange(offset + len, k as int),
        decreases cs@.len() - k,
    {
        out.push(cs[k]);
        assert(cs@.subrange(offset + len, k + 1) =~= cs@.subrange(offset + len, k as int).push(cs@[k as int]));
        assert(mid + cs@.subrange(offset + len, k + 1) =~= (mid + cs@.subrange(offset + len, k as int)).push(cs@[k as int]));
        k = k + 1;
    }
    out.push('\n');
    let r = string_from_chars(&out);
    assert(cs@.subrange(offset + len, cs@.len() as int) =~= cs@.skip(offset + len));
    assert(r@ =~= code@.take(offset as int) + rep@ + code@.skip(offset + len) + seq!['\n']);
    r
}

} // verus!
