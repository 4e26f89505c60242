//! Positions in source text: from a byte offset to a (column, row) pair, and
//! merging of adjacent source ranges.
use vstd::prelude::*;
use vstd::string::StringSliceAdditionalSpecFns;

verus! {

/// Line feed.
pub const CHAR_LF: u8 = 0x0a;

/// Carriage return.
pub const CHAR_CR: u8 = 0x0d;

/// The number of line feeds among the first `n` bytes.
pub open spec fn count_lf(b: Seq<u8>, n: int) -> int
    decreases n,
{
    if n <= 0 {
        0
    } else {
        count_lf(b, n - 1) + if b[n - 1] == CHAR_LF { 1int } else { 0int }
    }
}

/// The position of the last line feed among the first `n` bytes, if any.
pub open spec fn last_lf(b: Seq<u8>, n: int) -> Option<int>
    decreases n,
{
    if n <= 0 {
        None
    } else if b[n - 1] == CHAR_LF {
        Some(n - 1)
    } else {
        last_lf(b, n - 1)
    }
}

/// The (column, row) of the byte at `pos`: rows count from 1 and a line feed
/// belongs to the row it ends; the column is the distance from the last line
/// feed at or before `pos`, or `pos + 1` on the first row. `None` past the end.
pub open spec fn pos_from_offset(b: Seq<u8>, pos: int) -> Option<(int, int)> {
    if 0 <= pos < b.len() {
        let row = 1 + count_lf(b, pos + 1);
        let column = match last_lf(b, pos + 1) {
            Some(l) => pos - l,
            None => pos + 1,
        };
        Some((column, row))
    } else {
        None
    }
}

proof fn lemma_count_lf_bound(b: Seq<u8>, n: int)
    requires
        0 <= n,
    ensures
        0 <= count_lf(b, n) <= n,
    decreases n,
{
    if n > 0 {
        lemma_count_lf_bound(b, n - 1);
    }
}

proof fn lemma_last_lf_bound(b: Seq<u8>, n: int)
    ensures
        last_lf(b, n) matches Some(l) ==> 0 <= l < n && b[l] == CHAR_LF,
    decreases n,
{
    if n > 0 {
        lemma_last_lf_bound(b, n - 1);
    }
}

/// The (column, row) of the byte at offset `print_pos` of `src`; `None` when
/// the offset is past the end.
pub fn get_pos_from_offset(src: &str, print_pos: usize) -> (r: Option<(usize, usize)>)
    requires
        src.spec_bytes().len() < usize::MAX,
    ensures
        r is Some <==> pos_from_offset(src.spec_bytes(), print_pos as int) is Some,
        r matches Some(p) ==> pos_from_offset(src.spec_bytes(), print_pos as int) == Some(
            (p.0 as int, p.1 as int),
        ),
{
    let bytes = src.as_bytes();
    let n = bytes.len();
    if print_pos >= n {
        return None;
    }
    let mut pos: usize = 0;
    let mut row: usize = 1;
    let mut last: Option<usize> = None;
    while pos < print_pos
        invariant
            bytes@ == src.spec_bytes(),
            n == bytes@.len(),
            print_pos < n,
            n < usize::MAX,
            pos <= print_pos,
            row == 1 + count_lf(bytes@, pos as int),
            last matches Some(l) ==> last_lf(bytes@, pos as int) == Some(l as int),
            last is None ==> last_lf(bytes@, pos as int) is None,
        decreases print_pos - pos,
    {
        proof {
            lemma_count_lf_bound(bytes@, pos as int);
        }
        if bytes[pos] == CHAR_LF {
            row = row + 1;
            last = Some(pos);
        }
        pos = pos + 1;
    }
    proof {
        lemma_count_lf_bound(bytes@, pos as int);
    }
    if bytes[pos] == CHAR_LF {
        row = row + 1;
        last = Some(pos);
    }
    proof {
        lemma_last_lf_bound(bytes@, pos + 1);
    }
    let column = match last {
        Some(l) => pos - l,
        None => pos + 1,
    };
    Some((column, row))
}

} // verus!
