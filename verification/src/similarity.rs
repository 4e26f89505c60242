//! Edit distance between names, used to pick a replacement identifier that
//! looks like the one it replaces.
use vstd::prelude::*;

use crate::text::{
    chars_of, is_uppercase, spec_is_uppercase, spec_to_uppercase, str_eq, string_of, to_uppercase,
};

verus! {

/// The smallest of three numbers.
pub open spec fn min3(x: nat, y: nat, z: nat) -> nat {
    if x <= y && x <= z {
        x
    } else if y <= z {
        y
    } else {
        z
    }
}

/// The Levenshtein distance of two character sequences: the least number of
/// single-character deletions, insertions and substitutions that turn `a`
/// into `b`.
pub open spec fn lev(a: Seq<char>, b: Seq<char>) -> nat
    decreases a.len() + b.len(),
{
    if a.len() == 0 {
        b.len()
    } else if b.len() == 0 {
        a.len()
    } else {
        let cost: nat = if a.last() == b.last() {
            0
        } else {
            1
        };
        min3(
            lev(a.drop_last(), b) + 1,
            lev(a, b.drop_last()) + 1,
            lev(a.drop_last(), b.drop_last()) + cost,
        )
    }
}

/// A name as the distance compares it: upper-cased when it holds an upper-case
/// character, else unchanged.
pub open spec fn normalized(s: Seq<char>) -> Seq<char> {
    if exists|i: int| 0 <= i < s.len() && spec_is_uppercase(#[trigger] s[i]) {
        spec_to_uppercase(s)
    } else {
        s
    }
}

/// The distance between two names.
pub open spec fn name_distance(a: Seq<char>, b: Seq<char>) -> nat {
    lev(normalized(a), normalized(b))
}

/// The distance never exceeds the longer of the two lengths.
pub proof fn lemma_lev_bound(a: Seq<char>, b: Seq<char>)
    ensures
        lev(a, b) <= a.len() || lev(a, b) <= b.len(),
        lev(a, b) <= if a.len() >= b.len() {
            a.len()
        } else {
            b.len()
        },
    decreases a.len() + b.len(),
{
    if a.len() > 0 && b.len() > 0 {
        lemma_lev_bound(a.drop_last(), b.drop_last());
    }
}

/// The distance of two sequences is zero exactly when they are equal.
pub proof fn lemma_lev_zero(a: Seq<char>, b: Seq<char>)
    ensures
        (lev(a, b) == 0) <==> (a == b),
    decreases a.len() + b.len(),
{
    if a.len() > 0 && b.len() > 0 {
        lemma_lev_zero(a.drop_last(), b.drop_last());
        lemma_lev_bound(a.drop_last(), b);
        lemma_lev_bound(a, b.drop_last());
        if a == b {
            assert(a.drop_last() == b.drop_last());
        } else if lev(a, b) == 0 {
            assert(a.drop_last() == b.drop_last());
            assert(a.last() == b.last());
            assert(a =~= a.drop_last().push(a.last()));
            assert(b =~= b.drop_last().push(b.last()));
        }
    } else if a.len() == 0 && b.len() == 0 {
        assert(a =~= b);
    }
}

/// The distance is symmetric.
pub proof fn lemma_lev_symmetric(a: Seq<char>, b: Seq<char>)
    ensures
        lev(a, b) == lev(b, a),
    decreases a.len() + b.len(),
{
    if a.len() > 0 && b.len() > 0 {
        lemma_lev_symmetric(a.drop_last(), b);
        lemma_lev_symmetric(a, b.drop_last());
        lemma_lev_symmetric(a.drop_last(), b.drop_last());
    }
}

/// The Levenshtein distance of two character vectors, by dynamic programming
/// over rows of the distance table.
pub fn edit_distance(a: &Vec<char>, b: &Vec<char>) -> (r: usize)
    ensures
        r == lev(a@, b@),
{
    let la = a.len();
    let lb = b.len();
    if la == 0 {
        return lb;
    }
    if lb == 0 {
        assert(a@.len() > 0 && b@.len() == 0);
        return la;
    }
    let mut prev: Vec<usize> = Vec::new();
    let mut j: usize = 0;
    while j < lb
        invariant
            j <= lb,
            lb == b@.len(),
            prev@.len() == j,
            forall|k: int| 0 <= k < j ==> prev@[k] == k,
        decreases lb - j,
    {
        prev.push(j);
        j = j + 1;
    }
    prev.push(lb);
    assert forall|k: int| 0 <= k <= lb implies prev@[k] == lev(a@.take(0), b@.take(k)) by {
        assert(a@.take(0).len() == 0);
    };
    let mut i: usize = 0;
    while i < la
        invariant
            i <= la,
            la == a@.len(),
            lb == b@.len(),
            lb > 0,
            prev@.len() == lb + 1,
            forall|k: int| 0 <= k <= lb ==> prev@[k] == lev(a@.take(i as int), b@.take(k)),
        decreases la - i,
    {
        let mut cur: Vec<usize> = Vec::new();
        cur.push(i + 1);
        assert(b@.take(0).len() == 0);
        assert(a@.take(i + 1).len() == i + 1);
        let mut j: usize = 0;
        while j < lb
            invariant
                i < la,
                j <= lb,
                la == a@.len(),
                lb == b@.len(),
                prev@.len() == lb + 1,
                forall|k: int| 0 <= k <= lb ==> prev@[k] == lev(a@.take(i as int), b@.take(k)),
                cur@.len() == j + 1,
                forall|k: int| 0 <= k <= j ==> cur@[k] == lev(a@.take(i + 1), b@.take(k)),
            decreases lb - j,
        {
            let ghost x = a@.take(i + 1);
            let ghost y = b@.take(j + 1);
            assert(x.drop_last() =~= a@.take(i as int));
            assert(y.drop_last() =~= b@.take(j as int));
            assert(x.last() == a@[i as int]);
            assert(y.last() == b@[j as int]);
            proof {
                lemma_lev_bound(a@.take(i as int), b@.take(j as int));
            }
            let cost: usize = if a[i] == b[j] {
                0
            } else {
                1
            };
            let del = prev[j + 1];
            let ins = cur[j];
            let m = if del <= ins {
                del
            } else {
                ins
            };
            let sub = prev[j] + cost;
            let v = if m < sub {
                m + 1
            } else {
                sub
            };
            assert(v == lev(x, y));
            cur.push(v);
            j = j + 1;
        }
        prev = cur;
        i = i + 1;
    }
    assert(a@.take(la as int) =~= a@);
    assert(b@.take(lb as int) =~= b@);
    prev[lb]
}

/// A name upper-cased when it holds an upper-case character, else copied.
fn normalize_name(s: &str) -> (r: String)
    ensures
        r@ == normalized(s@),
{
    let cs = chars_of(s);
    let mut any = false;
    let mut i: usize = 0;
    while i < cs.len()
        invariant
            cs@ == s@,
            i <= cs@.len(),
            any == exists|k: int| 0 <= k < i && spec_is_uppercase(#[trigger] s@[k]),
        decreases cs@.len() - i,
    {
        if is_uppercase(cs[i]) {
            any = true;
        }
        i = i + 1;
    }
    if any {
        to_uppercase(s)
    } else {
        string_of(s)
    }
}

/// The Levenshtein distance of two names, each upper-cased first when it holds
/// an upper-case character.
pub fn levenshtein_distance(s1: &str, s2: &str) -> (r: usize)
    ensures
        r == name_distance(s1@, s2@),
{
    let n1 = normalize_name(s1);
    let n2 = normalize_name(s2);
    let c1 = chars_of(n1.as_str());
    let c2 = chars_of(n2.as_str());
    edit_distance(&c1, &c2)
}

/// The character sequences of a list of names.
pub open spec fn names_of(v: Seq<String>) -> Seq<Seq<char>> {
    v.map_values(|c: String| c@)
}

/// Whether `k` may be picked as the most similar candidate: it differs from
/// the original and its distance is below the largest `usize`.
pub open spec fn eligible(original: Seq<char>, cands: Seq<Seq<char>>, k: int) -> bool {
    &&& cands[k] != original
    &&& name_distance(original, cands[k]) < usize::MAX
}

/// Whether candidate `k` is the first eligible candidate at least distance
/// from `original`.
pub open spec fn is_most_similar(original: Seq<char>, cands: Seq<Seq<char>>, k: int) -> bool {
    &&& 0 <= k < cands.len()
    &&& eligible(original, cands, k)
    &&& forall|k2: int|
        0 <= k2 < cands.len() && eligible(original, cands, k2) ==> name_distance(original, cands[k])
            <= name_distance(original, cands[k2])
    &&& forall|k2: int|
        0 <= k2 < k && eligible(original, cands, k2) ==> name_distance(original, cands[k])
            < name_distance(original, cands[k2])
}

/// The candidate most similar to `original`: the first of those at least
/// distance among the candidates that differ from it.
pub fn find_most_similar_name(original: &str, candidates: &[String]) -> (r: Option<String>)
    ensures
        r is None <==> forall|k: int|
            0 <= k < candidates@.len() ==> !eligible(original@, names_of(candidates@), k),
        r matches Some(s) ==> exists|k: int|
            is_most_similar(original@, names_of(candidates@), k) && s@ == #[trigger] names_of(
                candidates@,
            )[k],
{
    let ghost cs = names_of(candidates@);
    let mut best: Option<String> = None;
    let mut best_distance: usize = usize::MAX;
    let ghost mut best_k: int = -1;
    let mut i: usize = 0;
    while i < candidates.len()
        invariant
            i <= candidates@.len(),
            cs == names_of(candidates@),
            best is None <==> forall|k: int| 0 <= k < i ==> !eligible(original@, cs, k),
            best is None ==> best_distance == usize::MAX,
            best matches Some(s) ==> {
                &&& 0 <= best_k < i
                &&& eligible(original@, cs, best_k)
                &&& s@ == cs[best_k]
                &&& best_distance == name_distance(original@, cs[best_k])
                &&& forall|k2: int|
                    0 <= k2 < i && eligible(original@, cs, k2) ==> best_distance <= name_distance(
                        original@,
                        cs[k2],
                    )
                &&& forall|k2: int|
                    0 <= k2 < best_k && eligible(original@, cs, k2) ==> best_distance < name_distance(
                        original@,
                        cs[k2],
                    )
            },
        decreases candidates@.len() - i,
    {
        let candidate = &candidates[i];
        assert(cs[i as int] == candidate@);
        if !str_eq(candidate.as_str(), original) {
            let distance = levenshtein_distance(original, candidate.as_str());
            if distance < best_distance {
                best_distance = distance;
                best = Some(string_of(candidate.as_str()));
                proof {
                    best_k = i as int;
                }
            }
        }
        assert(best is None ==> !eligible(original@, cs, i as int));
        assert(best is Some ==> eligible(original@, cs, best_k) && best_k <= i);
        i = i + 1;
    }
    proof {
        if best is Some {
            assert(is_most_similar(original@, cs, best_k));
        }
    }
    best
}

} // verus!
