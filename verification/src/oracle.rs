//! Ground truth of injected bugs: checking that the block recorded for a bug
//! is the one its change is in, and scoring ranked localization choices.
use vstd::prelude::*;
use vstd::string::StrSliceExecFns;

use crate::cosim::{find_seq, starts_with};
use crate::dfb::{strings_view, DataFlowBlock};
use crate::mgr::{all_blocks, join_lines, join_spec, BlockManager};
use crate::parse::{lines_chars, spec_lines};
use crate::text::{chars_of, spec_trim, str_eq, string_from_chars, string_of};

verus! {

/// The block an injected bug is in, as recorded.
pub struct GroundTruth {
    pub bug_id: String,
    pub module_name: String,
    pub block_id: u64,
}

/// The outcome of checking the recorded block of a bug.
pub enum ValidationStatus {
    /// The change is in another block than the recorded one.
    Success { original_bid: u64, correct_bid: u64 },
    /// The change is in the recorded block.
    Consistent { bid: u64 },
    Error(String),
}

/// The text of the first added line of a diff: a line starting with `+`
/// (not `+++`) with more after it, without the `+` and surrounding white
/// space, and not empty.
pub open spec fn added_line_from(ls: Seq<Seq<char>>) -> Option<Seq<char>>
    decreases ls.len(),
{
    if ls.len() == 0 {
        None
    } else {
        let l = ls[0];
        if starts_with(l, "+"@) && !starts_with(l, "+++"@) && l.len() > 1 && spec_trim(l.skip(1)).len() > 0 {
            Some(spec_trim(l.skip(1)))
        } else {
            added_line_from(ls.drop_first())
        }
    }
}

/// The first added line of a diff.
pub open spec fn added_line(diff: Seq<char>) -> Option<Seq<char>> {
    added_line_from(spec_lines(diff))
}

/// A line without its `//` comment (and then without surrounding white space).
pub open spec fn strip_comment(line: Seq<char>) -> Seq<char> {
    match find_seq(line, "//"@) {
        Some(p) => spec_trim(line.take(p)),
        None => line,
    }
}

/// Whether the code of a block holds `text`.
pub open spec fn block_holds(b: DataFlowBlock, text: Seq<char>) -> bool {
    find_seq(join_spec(b@.ctx), text) is Some
}

/// The position of the first block whose code holds `text`.
pub open spec fn first_holding(bs: Seq<DataFlowBlock>, text: Seq<char>) -> Option<int>
    decreases bs.len(),
{
    if bs.len() == 0 {
        None
    } else if block_holds(bs[0], text) {
        Some(0)
    } else {
        match first_holding(bs.drop_first(), text) {
            Some(i) => Some(i + 1),
            None => None,
        }
    }
}

proof fn lemma_first_holding(bs: Seq<DataFlowBlock>, text: Seq<char>)
    ensures
        first_holding(bs, text) matches Some(i) ==> 0 <= i < bs.len(),
    decreases bs.len(),
{
    if bs.len() > 0 && !block_holds(bs[0], text) {
        lemma_first_holding(bs.drop_first(), text);
    }
}

/// The first added line of a diff, as `added_line` says.
pub fn extract_diff_line(diff_content: &str) -> (r: Option<Vec<char>>)
    ensures
        (match r {
            Some(l) => Some(l@),
            None => None,
        }) == added_line(diff_content@),
{
    let lines = lines_chars(diff_content);
    let ghost ls = lines@.map_values(|l: Vec<char>| l@);
    let plus = chars_of("+");
    let plus3 = chars_of("+++");
    let mut i: usize = 0;
    assert(ls.skip(0) =~= ls);
    while i < lines.len()
        invariant
            ls == lines@.map_values(|l: Vec<char>| l@),
            ls == spec_lines(diff_content@),
            plus@ == "+"@,
            plus3@ == "+++"@,
            i <= lines@.len(),
            added_line(diff_content@) == added_line_from(ls.skip(i as int)),
        decreases lines@.len() - i,
    {
        assert(ls.skip(i as int)[0] == lines@[i as int]@);
        assert(ls.skip(i as int).drop_first() =~= ls.skip(i + 1));
        let l = &lines[i];
        if starts_with_chars(l, &plus) && !starts_with_chars(l, &plus3) && l.len() > 1 {
            let s = string_from_chars(l);
            let rest = s.as_str().substring_char(1, l.len());
            let t = crate::text::trim_str(rest);
            let tc = chars_of(t);
            assert(rest@ =~= l@.skip(1));
            if tc.len() > 0 {
                return Some(tc);
            }
        }
        i = i + 1;
    }
    None
}

fn starts_with_chars(line: &Vec<char>, prefix: &Vec<char>) -> (r: bool)
    ensures
        r == starts_with(line@, prefix@),
{
    if prefix.len() > line.len() {
        return false;
    }
    let mut k: usize = 0;
    while k < prefix.len() && line[k] == prefix[k]
        invariant
            prefix@.len() <= line@.len(),
            k <= prefix@.len(),
            forall|q: int| 0 <= q < k ==> line@[q] == prefix@[q],
        decreases prefix@.len() - k,
    {
        k = k + 1;
    }
    if k == prefix.len() {
        assert(line@.take(prefix@.len() as int) =~= prefix@);
        true
    } else {
        assert(line@.take(prefix@.len() as int)[k as int] != prefix@[k as int]);
        false
    }
}

/// The first occurrence of `pat` in `s`.
fn find_in(s: &Vec<char>, pat: &Vec<char>) -> (r: Option<usize>)
    ensures
        (match r {
            Some(i) => Some(i as int),
            None => None,
        }) == find_seq(s@, pat@),
{
    let mut i: usize = 0;
    assert(s@.skip(0) =~= s@);
    loop
        invariant
            i <= s@.len(),
            find_seq(s@, pat@) == (match find_seq(s@.skip(i as int), pat@) {
                Some(k) => Some(k + i),
                None => None,
            }),
        decreases s@.len() - i,
    {
        let ghost t = s@.skip(i as int);
        if s.len() - i < pat.len() {
            return None;
        }
        let mut k: usize = 0;
        assert(i + pat.len() <= s.len());
        while k < pat.len() && s[i + k] == pat[k]
            invariant
                i + pat.len() <= s.len(),
                i + pat@.len() <= s@.len(),
                k <= pat@.len(),
                forall|q: int| 0 <= q < k ==> s@[i + q] == pat@[q],
            decreases pat@.len() - k,
        {
            k = k + 1;
        }
        if k == pat.len() {
            assert(t.take(pat@.len() as int) =~= pat@);
            return Some(i);
        }
        assert(t.take(pat@.len() as int)[k as int] != pat@[k as int]);
        if i == s.len() {
            return None;
        }
        assert(t.drop_first() =~= s@.skip(i + 1));
        i = i + 1;
    }
}

/// The outcome for a bug with recorded block `oracle_bid` and change
/// `diff_content`: the first block over all scopes whose code holds the added
/// line (without its comment) is the block of the change.
pub open spec fn validation(oracle_bid: u64, diff: Seq<char>, mgr: &BlockManager) -> Result<(u64, u64), Seq<char>> {
    match added_line(diff) {
        None => Err("No added line found in diff"@),
        Some(l) => {
            let line = strip_comment(l);
            let bs = all_blocks(mgr.scope_block_mapping@);
            match first_holding(bs, line) {
                None => Err("No block contains diff line"@),
                Some(i) => Ok((oracle_bid, bs[i].bid)),
            }
        },
    }
}

/// Checks the recorded block of a bug against its change.
pub fn validate_oracle(oracle_bid: u64, diff_content: &str, mgr: &BlockManager) -> (r: ValidationStatus)
    requires
        mgr.wf(),
    ensures
        match validation(oracle_bid, diff_content@, mgr) {
            Err(e) => r matches ValidationStatus::Error(m) && m@ == e,
            Ok((o, c)) => if o != c {
                r matches ValidationStatus::Success { original_bid, correct_bid } && original_bid == o && correct_bid == c
            } else {
                r matches ValidationStatus::Consistent { bid } && bid == c
            },
        },
{
    let l = match extract_diff_line(diff_content) {
        Some(l) => l,
        None => {
            return ValidationStatus::Error(string_of("No added line found in diff"));
        },
    };
    let ghost lv = l@;
    let line: Vec<char> = match find_in(&l, &chars_of("//")) {
        Some(p) => {
            proof {
                crate::cosim::lemma_find_seq_bound_pub(l@, "//"@);
            }
            let s = string_from_chars(&l);
            let head = s.as_str().substring_char(0, p);
            assert(head@ =~= l@.take(p as int));
            chars_of(crate::text::trim_str(head))
        },
        None => l,
    };
    let ghost bs = all_blocks(mgr.scope_block_mapping@);
    let mut s: usize = 0;
    let ghost done: Seq<DataFlowBlock> = Seq::empty();
    proof {
        assert(all_blocks(mgr.scope_block_mapping@.take(0)) =~= Seq::<DataFlowBlock>::empty());
    }
    while s < mgr.scope_block_mapping.len()
        invariant
            added_line(diff_content@) == Some(lv),
            line@ == strip_comment(lv),
            s <= mgr.scope_block_mapping@.len(),
            first_holding(all_blocks(mgr.scope_block_mapping@.take(s as int)), line@) is None,
        decreases mgr.scope_block_mapping@.len() - s,
    {
        let blocks = &mgr.scope_block_mapping[s].blocks;
        let ghost prev = all_blocks(mgr.scope_block_mapping@.take(s as int));
        let mut j: usize = 0;
        while j < blocks.len()
            invariant
                added_line(diff_content@) == Some(lv),
                line@ == strip_comment(lv),
                j <= blocks@.len(),
                s < mgr.scope_block_mapping@.len(),
                blocks@ == mgr.scope_block_mapping@[s as int].blocks@,
                prev == all_blocks(mgr.scope_block_mapping@.take(s as int)),
                first_holding(prev + blocks@.take(j as int), line@) is None,
            decreases blocks@.len() - j,
        {
            let code = join_lines(&blocks[j].ctx);
            let cc = chars_of(code.as_str());
            let ghost cur = prev + blocks@.take(j as int);
            proof {
                lemma_first_holding_push(cur, blocks@[j as int], line@);
                assert(prev + blocks@.take(j + 1) =~= cur.push(blocks@[j as int]));
            }
            if find_in(&cc, &line).is_some() {
                proof {
                    assert(block_holds(blocks@[j as int], line@));
                    lemma_first_holding_prefix(
                        all_blocks(mgr.scope_block_mapping@),
                        prev + blocks@.take(j + 1),
                        line@,
                        s as int,
                        j as int,
                        mgr,
                    );
                }
                let bid = blocks[j].bid;
                if bid != oracle_bid {
                    return ValidationStatus::Success { original_bid: oracle_bid, correct_bid: bid };
                } else {
                    return ValidationStatus::Consistent { bid };
                }
            }
            j = j + 1;
        }
        assert(blocks@.take(blocks@.len() as int) =~= blocks@);
        assert(mgr.scope_block_mapping@.take(s + 1).drop_last() =~= mgr.scope_block_mapping@.take(s as int));
        s = s + 1;
    }
    assert(mgr.scope_block_mapping@.take(mgr.scope_block_mapping@.len() as int) =~= mgr.scope_block_mapping@);
    ValidationStatus::Error(string_of("No block contains diff line"))
}

/// Adding a block after a prefix that has none: the first holding one is the
/// new one, if it holds.
proof fn lemma_first_holding_push(s: Seq<DataFlowBlock>, b: DataFlowBlock, text: Seq<char>)
    requires
        first_holding(s, text) is None,
    ensures
        first_holding(s.push(b), text) == (if block_holds(b, text) {
            Some(s.len() as int)
        } else {
            None
        }),
    decreases s.len(),
{
    if s.len() == 0 {
        assert(s.push(b)[0] == b);
        assert(s.push(b).drop_first() =~= Seq::<DataFlowBlock>::empty());
        assert(first_holding(Seq::<DataFlowBlock>::empty(), text) is None);
    } else {
        assert(!block_holds(s[0], text));
        assert(first_holding(s.drop_first(), text) is None);
        assert(s.push(b)[0] == s[0]);
        assert(s.push(b).drop_first() =~= s.drop_first().push(b));
        lemma_first_holding_push(s.drop_first(), b, text);
    }
}

/// Whether `p` starts `s`.
pub open spec fn is_prefix_of<A>(p: Seq<A>, s: Seq<A>) -> bool {
    p.len() <= s.len() && s.take(p.len() as int) == p
}

/// The blocks of the first scopes come first among all blocks.
proof fn lemma_all_blocks_prefix(m: Seq<crate::mgr::ScopeBlocks>, k: int)
    requires
        0 <= k <= m.len(),
    ensures
        is_prefix_of(all_blocks(m.take(k)), all_blocks(m)),
    decreases m.len(),
{
    if k < m.len() {
        let d = m.drop_last();
        assert(m.take(k) =~= d.take(k));
        lemma_all_blocks_prefix(d, k);
        let p = all_blocks(m.take(k));
        let ad = all_blocks(d);
        let am = all_blocks(m);
        assert(am == ad + m.last().blocks@);
        assert(am.take(ad.len() as int) =~= ad);
        assert(am.take(p.len() as int) =~= ad.take(p.len() as int));
    } else {
        assert(m.take(k) =~= m);
        assert(all_blocks(m).take(all_blocks(m).len() as int) =~= all_blocks(m));
    }
}

/// The first holding block of a prefix, if there is one, is the first of the whole.
proof fn lemma_first_holding_take(s: Seq<DataFlowBlock>, n: int, text: Seq<char>)
    requires
        0 <= n <= s.len(),
        first_holding(s.take(n), text) is Some,
    ensures
        first_holding(s, text) == first_holding(s.take(n), text),
    decreases n,
{
    if n > 0 && !block_holds(s[0], text) {
        assert(s.take(n)[0] == s[0]);
        assert(s.take(n).drop_first() =~= s.drop_first().take(n - 1));
        lemma_first_holding_take(s.drop_first(), n - 1, text);
    } else if n > 0 {
        assert(s.take(n)[0] == s[0]);
    }
}

/// A prefix of the blocks decides the first holding block when it has one.
proof fn lemma_first_holding_prefix(
    all: Seq<DataFlowBlock>,
    pre: Seq<DataFlowBlock>,
    text: Seq<char>,
    s: int,
    j: int,
    mgr: &BlockManager,
)
    requires
        all == all_blocks(mgr.scope_block_mapping@),
        0 <= s < mgr.scope_block_mapping@.len(),
        0 <= j < mgr.scope_block_mapping@[s].blocks@.len(),
        pre == all_blocks(mgr.scope_block_mapping@.take(s)) + mgr.scope_block_mapping@[s].blocks@.take(j + 1),
        first_holding(pre, text) is Some,
    ensures
        first_holding(all, text) == first_holding(pre, text),
        pre.len() <= all.len(),
        all[pre.len() - 1] == mgr.scope_block_mapping@[s].blocks@[j],
{
    let m = mgr.scope_block_mapping@;
    lemma_all_blocks_prefix(m, s + 1);
    let whole = all_blocks(m.take(s + 1));
    assert(m.take(s + 1).drop_last() =~= m.take(s));
    assert(whole == all_blocks(m.take(s)) + m[s].blocks@);
    assert(pre =~= whole.take(pre.len() as int));
    assert(all.take(pre.len() as int) =~= whole.take(pre.len() as int));
    lemma_first_holding_take(all, pre.len() as int, text);
    assert(pre[pre.len() - 1] == m[s].blocks@[j]);
    assert(all.take(pre.len() as int)[pre.len() - 1] == all[pre.len() - 1]);
}

/// Whether a ranked choice names the block of the bug.
pub open spec fn choice_hits(c: (Option<Seq<char>>, Option<u64>), module: Seq<char>, block: u64) -> bool {
    c.0 == Some(module) && c.1 == Some(block)
}

/// Whether one of the first `n` choices names the block of the bug.
pub open spec fn hit_within(cs: Seq<(Option<Seq<char>>, Option<u64>)>, n: int, module: Seq<char>, block: u64) -> bool {
    exists|i: int| 0 <= i < n && i < cs.len() && choice_hits(cs[i], module, block)
}

/// The view of ranked choices: (module, block id).
pub open spec fn choices_view(v: Seq<(Option<String>, Option<u64>)>) -> Seq<(Option<Seq<char>>, Option<u64>)> {
    v.map_values(|c: (Option<String>, Option<u64>)| (
        match c.0 {
            Some(m) => Some(m@),
            None => None,
        },
        c.1,
    ))
}

/// Whether the choices, best first, name the block of a bug among the first
/// one, five, ten, or at all.
pub fn ranked_hits(choices: &Vec<(Option<String>, Option<u64>)>, oracle_module: &str, oracle_block: u64) -> (r: (
    bool,
    bool,
    bool,
    bool,
))
    ensures
        r.0 == hit_within(choices_view(choices@), 1, oracle_module@, oracle_block),
        r.1 == hit_within(choices_view(choices@), 5, oracle_module@, oracle_block),
        r.2 == hit_within(choices_view(choices@), 10, oracle_module@, oracle_block),
        r.3 == hit_within(choices_view(choices@), choices@.len() as int, oracle_module@, oracle_block),
{
    let ghost cv = choices_view(choices@);
    let mut first: Option<usize> = None;
    let mut i: usize = 0;
    while i < choices.len() && first.is_none()
        invariant
            cv == choices_view(choices@),
            i <= choices@.len(),
            first is None ==> forall|k: int| 0 <= k < i ==> !choice_hits(cv[k], oracle_module@, oracle_block),
            first matches Some(f) ==> f < i && choice_hits(cv[f as int], oracle_module@, oracle_block) && forall|k: int|
                0 <= k < f ==> !choice_hits(cv[k], oracle_module@, oracle_block),
        decreases choices@.len() - i,
    {
        let hit = match &choices[i].0 {
            Some(m) => str_eq(m.as_str(), oracle_module) && choices[i].1 == Some(oracle_block),
            None => false,
        };
        assert(hit == choice_hits(cv[i as int], oracle_module@, oracle_block));
        if hit {
            first = Some(i);
        }
        i = i + 1;
    }
    match first {
        Some(f) => (f < 1, f < 5, f < 10, true),
        None => (false, false, false, false),
    }
}

/// A bug with whether its block was named among the first one, five, ten
/// choices, or at all.
pub type BugHits = (String, bool, bool, bool, bool);

/// How many bugs were located at each depth, and which.
pub struct HitTally {
    pub top_1: usize,
    pub top_5: usize,
    pub top_10: usize,
    pub top_any: usize,
    pub top_1_bids: Vec<String>,
    pub top_10_bids: Vec<String>,
}

/// The ids of the bugs that meet `c`, in order.
pub open spec fn ids_where(h: Seq<BugHits>, c: spec_fn(BugHits) -> bool) -> Seq<Seq<char>> {
    h.filter(c).map_values(|e: BugHits| e.0@)
}

/// Counts the bugs located at each depth, keeping the ids of those found
/// first and among the first ten.
pub fn tally_hits(hits: &Vec<BugHits>) -> (r: HitTally)
    ensures
        r.top_1 == hits@.filter(|e: BugHits| e.1).len(),
        r.top_5 == hits@.filter(|e: BugHits| e.2).len(),
        r.top_10 == hits@.filter(|e: BugHits| e.3).len(),
        r.top_any == hits@.filter(|e: BugHits| e.4).len(),
        strings_view(r.top_1_bids@) == ids_where(hits@, |e: BugHits| e.1),
        strings_view(r.top_10_bids@) == ids_where(hits@, |e: BugHits| e.3),
{
    let ghost h = hits@;
    let ghost c1 = |e: BugHits| e.1;
    let ghost c5 = |e: BugHits| e.2;
    let ghost c10 = |e: BugHits| e.3;
    let ghost ca = |e: BugHits| e.4;
    let mut r = HitTally { top_1: 0, top_5: 0, top_10: 0, top_any: 0, top_1_bids: Vec::new(), top_10_bids: Vec::new() };
    let mut i: usize = 0;
    proof {
        reveal(Seq::filter);
        assert(h.take(0).filter(c1) =~= Seq::<BugHits>::empty());
        assert(h.take(0).filter(c5) =~= Seq::<BugHits>::empty());
        assert(h.take(0).filter(c10) =~= Seq::<BugHits>::empty());
        assert(h.take(0).filter(ca) =~= Seq::<BugHits>::empty());
        assert(strings_view(r.top_1_bids@) =~= Seq::<Seq<char>>::empty());
        assert(strings_view(r.top_10_bids@) =~= Seq::<Seq<char>>::empty());
    }
    while i < hits.len()
        invariant
            i <= h.len(),
            h == hits@,
            c1 == (|e: BugHits| e.1),
            c5 == (|e: BugHits| e.2),
            c10 == (|e: BugHits| e.3),
            ca == (|e: BugHits| e.4),
            r.top_1 == h.take(i as int).filter(c1).len(),
            r.top_5 == h.take(i as int).filter(c5).len(),
            r.top_10 == h.take(i as int).filter(c10).len(),
            r.top_any == h.take(i as int).filter(ca).len(),
            strings_view(r.top_1_bids@) == ids_where(h.take(i as int), c1),
            strings_view(r.top_10_bids@) == ids_where(h.take(i as int), c10),
        decreases h.len() - i,
    {
        proof {
            reveal(Seq::filter);
            assert(h.take(i + 1).drop_last() =~= h.take(i as int));
            assert(h.take(i + 1).last() == h[i as int]);
            lemma_filter_len_le(h.take(i as int), c1);
            lemma_filter_len_le(h.take(i as int), c5);
            lemma_filter_len_le(h.take(i as int), c10);
            lemma_filter_len_le(h.take(i as int), ca);
        }
        let e = &hits[i];
        if e.1 {
            r.top_1 = r.top_1 + 1;
            let ghost before = strings_view(r.top_1_bids@);
            r.top_1_bids.push(string_of(e.0.as_str()));
            assert(strings_view(r.top_1_bids@) =~= before.push(e.0@));
            assert(ids_where(h.take(i + 1), c1) =~= ids_where(h.take(i as int), c1).push(e.0@));
        } else {
            assert(ids_where(h.take(i + 1), c1) =~= ids_where(h.take(i as int), c1));
        }
        if e.2 {
            r.top_5 = r.top_5 + 1;
        }
        if e.3 {
            r.top_10 = r.top_10 + 1;
            let ghost before = strings_view(r.top_10_bids@);
            r.top_10_bids.push(string_of(e.0.as_str()));
            assert(strings_view(r.top_10_bids@) =~= before.push(e.0@));
            assert(ids_where(h.take(i + 1), c10) =~= ids_where(h.take(i as int), c10).push(e.0@));
        } else {
            assert(ids_where(h.take(i + 1), c10) =~= ids_where(h.take(i as int), c10));
        }
        if e.4 {
            r.top_any = r.top_any + 1;
        }
        i = i + 1;
    }
    assert(h.take(h.len() as int) =~= h);
    r
}

/// A filter keeps no more than it is given.
proof fn lemma_filter_len_le(s: Seq<BugHits>, c: spec_fn(BugHits) -> bool)
    ensures
        s.filter(c).len() <= s.len(),
    decreases s.len(),
{
    reveal(Seq::filter);
    if s.len() > 0 {
        lemma_filter_len_le(s.drop_last(), c);
    }
}

} // verus!
