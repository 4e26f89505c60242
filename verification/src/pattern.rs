//! Regular expression matching, through the `regex` crate.
use vstd::prelude::*;

use crate::parse::{lines_chars, spec_lines};
use crate::text::{string_from_chars, string_of};

verus! {

/// What matching `pattern` against `text` with the `regex` crate gives: `None`
/// when the pattern is not a valid expression, `Some(None)` when it does not
/// match, else the text of each capture group (`None` for a group that did not
/// take part in the match).
pub uninterp spec fn spec_regex_captures(pattern: Seq<char>, text: Seq<char>) -> Option<Option<Seq<Option<Seq<char>>>>>;

/// Compiles `pattern` with `regex::Regex::new` and, if it compiles, takes the
/// capture groups of its first match in `text` (`Regex::captures`), each as
/// its text. The result is named by `spec_regex_captures`.
#[verifier::external_body]
pub(crate) fn regex_captures(pattern: &str, text: &str) -> (r: Option<Option<Vec<Option<String>>>>)
    ensures
        (match r {
            None => None,
            Some(None) => Some(None),
            Some(Some(g)) => Some(Some(g@.map_values(|x: Option<String>| match x {
                Some(s) => Some(s@),
                None => None,
            }))),
        }) == spec_regex_captures(pattern@, text@),
{
    match regex::Regex::new(pattern) {
        Err(_) => None,
        Ok(re) => Some(re.captures(text).map(|caps| caps.iter().skip(1).map(|m| m.map(|m| m.as_str().to_string())).collect())),
    }
}

/// The first capture group of a match, when the pattern matched and the group
/// took part; `None` otherwise, an invalid pattern included.
pub open spec fn first_group(c: Option<Option<Seq<Option<Seq<char>>>>>) -> Option<Seq<char>> {
    match c {
        Some(Some(g)) => if g.len() > 0 {
            g[0]
        } else {
            None
        },
        _ => None,
    }
}

/// The text of the first capture group of the first match of `pattern` in `text`.
fn first_group_of(pattern: &str, text: &str) -> (r: Option<String>)
    ensures
        (match r {
            Some(s) => Some(s@),
            None => None,
        }) == first_group(spec_regex_captures(pattern@, text@)),
{
    match regex_captures(pattern, text) {
        Some(Some(g)) => {
            if g.len() > 0 {
                match &g[0] {
                    Some(s) => Some(string_of(s.as_str())),
                    None => None,
                }
            } else {
                None
            }
        },
        _ => None,
    }
}

/// The first line of `contents` on which `pattern` matches with its first
/// capture group taking part: that group's text and the line's index (from 0,
/// taken as a `u32`). A match without the group counts as no match.
pub fn get_module_name_with_line_from_text(contents: &str, pattern: &str) -> (r: Option<(String, u32)>)
    ensures
        r is None <==> forall|i: int|
            0 <= i < spec_lines(contents@).len() ==> first_group(
                spec_regex_captures(pattern@, #[trigger] spec_lines(contents@)[i]),
            ) is None,
        r matches Some((name, n)) ==> exists|i: int|
            {
                &&& 0 <= i < spec_lines(contents@).len()
                &&& first_group(spec_regex_captures(pattern@, #[trigger] spec_lines(contents@)[i]))
                    == Some(name@)
                &&& n == i as u32
                &&& forall|j: int|
                    0 <= j < i ==> first_group(
                        spec_regex_captures(pattern@, #[trigger] spec_lines(contents@)[j]),
                    ) is None
            },
{
    let lines = lines_chars(contents);
    let ghost ls = spec_lines(contents@);
    assert(lines@.len() == ls.len());
    let mut i: usize = 0;
    while i < lines.len()
        invariant
            i <= lines@.len(),
            ls == spec_lines(contents@),
            lines@.map_values(|l: Vec<char>| l@) == ls,
            forall|j: int| 0 <= j < i ==> first_group(spec_regex_captures(pattern@, #[trigger] ls[j])) is None,
        decreases lines@.len() - i,
    {
        let line = string_from_chars(&lines[i]);
        assert(line@ == ls[i as int]);
        match first_group_of(pattern, line.as_str()) {
            Some(name) => {
                #[verifier::truncate]
                let n: u32 = i as u32;
                return Some((name, n));
            },
            None => {},
        }
        i = i + 1;
    }
    None
}

/// The pattern of a fenced JSON block in a reply.
pub open spec fn json_fence_pattern() -> Seq<char> {
    "```json\\s*(.*[\\s\\S]*?)\\s*```"@
}

/// The pattern of a bare JSON object in a reply.
pub open spec fn json_object_pattern() -> Seq<char> {
    "\\s*(\\{.*[\\s\\S]*\\})\\s*"@
}

/// The JSON text of a reply: the body of its first fenced JSON block if it
/// has one, else its outermost braces and what lies between them.
pub open spec fn spec_json_md_text(ctx: Seq<char>) -> Option<Seq<char>> {
    match spec_regex_captures(json_fence_pattern(), ctx) {
        Some(Some(_)) => first_group(spec_regex_captures(json_fence_pattern(), ctx)),
        _ => first_group(spec_regex_captures(json_object_pattern(), ctx)),
    }
}

/// Finds the JSON text in a reply, as `spec_json_md_text` says; `None` when
/// there is none.
pub fn json_md_text(ctx: &str) -> (r: Option<String>)
    ensures
        (match r {
            Some(s) => Some(s@),
            None => None,
        }) == spec_json_md_text(ctx@),
{
    let fence = "```json\\s*(.*[\\s\\S]*?)\\s*```";
    let object = "\\s*(\\{.*[\\s\\S]*\\})\\s*";
    proof {
        reveal_strlit("```json\\s*(.*[\\s\\S]*?)\\s*```");
        reveal_strlit("\\s*(\\{.*[\\s\\S]*\\})\\s*");
    }
    assert(fence@ == json_fence_pattern());
    assert(object@ == json_object_pattern());
    match regex_captures(fence, ctx) {
        Some(Some(_)) => first_group_of(fence, ctx),
        _ => first_group_of(object, ctx),
    }
}

} // verus!
