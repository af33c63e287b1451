//! The search engine: a linear forward scan over the compiled lines for a
//! case-sensitive substring, and a cursor advanced strictly past the
//! previous match.  Only text lines are searched, never buttons, and the
//! scan never wraps back to the start.

use vstd::prelude::*;
use vstd::string::StrSliceExecFns;
use vstd::string::StringExecFns;
use crate::parser::PrintableLine;
use crate::parser::match_at;

verus! {

/// `needle` stands in `hay` starting at position `i`.
pub open spec fn occurs_at(hay: Seq<char>, needle: Seq<char>, i: int) -> bool {
    &&& 0 <= i
    &&& i + needle.len() <= hay.len()
    &&& hay.subrange(i, i + needle.len() as int) == needle
}

/// `needle` stands somewhere in `hay`.
pub open spec fn contains_seq(hay: Seq<char>, needle: Seq<char>) -> bool {
    exists|i: int| occurs_at(hay, needle, i)
}

/// The line is a text line and holds the needle.
pub open spec fn line_matches(l: PrintableLine, needle: Seq<char>) -> bool {
    l matches PrintableLine::Text(t) && contains_seq(t@, needle)
}

/// The search cursor: the index of the current match when one stands, and
/// the needle it was searched with.  An absent index is the ordinary
/// no-match outcome, not a failure.
pub struct SearchState {
    pub match_index: Option<usize>,
    pub needle: String,
}

/// Whether `needle` stands in `hay` as a substring.
fn contains_str(hay: &str, needle: &str) -> (r: bool)
    ensures
        r == contains_seq(hay@, needle@),
{
    let n = hay.unicode_len();
    let m = needle.unicode_len();
    if m > n {
        proof {
            if contains_seq(hay@, needle@) {
                let i = choose|i: int| occurs_at(hay@, needle@, i);
                assert(false);
            }
        }
        return false;
    }
    if m == 0 {
        proof {
            assert(hay@.subrange(0, 0) =~= needle@);
            assert(occurs_at(hay@, needle@, 0));
        }
        return true;
    }
    let mut i: usize = 0;
    while i <= n - m
        invariant
            0 < m <= n,
            n == hay@.len(),
            m == needle@.len(),
            0 <= i <= n - m + 1,
            forall|x: int| 0 <= x < i ==> !occurs_at(hay@, needle@, x),
        decreases n - i,
    {
        if match_at(hay, i, needle) {
            proof {
                assert(occurs_at(hay@, needle@, i as int));
            }
            return true;
        }
        i = i + 1;
    }
    proof {
        if contains_seq(hay@, needle@) {
            let x = choose|x: int| occurs_at(hay@, needle@, x);
            assert(x <= n - m);
            assert(false);
        }
    }
    false
}

/// Scan the whole document from the top for the first text line holding
/// the needle.  The cursor returned carries the first such index, and no
/// index at all exactly when no text line holds the needle.
pub fn get_search_state(lines: &Vec<PrintableLine>, search: &str) -> (r: SearchState)
    ensures
        r.needle@ == search@,
        r.match_index matches Some(i) ==> i < lines@.len() && line_matches(
            lines@[i as int],
            search@,
        ) && forall|j: int| 0 <= j < i ==> !line_matches(#[trigger] lines@[j], search@),
        r.match_index is None ==> forall|j: int|
            0 <= j < lines@.len() ==> !line_matches(#[trigger] lines@[j], search@),
{
    let n = lines.len();
    let mut i: usize = 0;
    while i < n
        invariant
            n == lines@.len(),
            0 <= i <= n,
            forall|j: int| 0 <= j < i ==> !line_matches(#[trigger] lines@[j], search@),
        decreases n - i,
    {
        match &lines[i] {
            PrintableLine::Text(t) => {
                if contains_str(t.as_str(), search) {
                    return SearchState { match_index: Some(i), needle: String::from_str(search) };
                }
            },
            PrintableLine::Button(_, _) => {},
        }
        i = i + 1;
    }
    SearchState { match_index: None, needle: String::from_str(search) }
}

/// Advance the cursor to the next text line holding its needle, scanning
/// strictly past the previous match and never wrapping.  The caller owes
/// a cursor that holds a match; the result holds the nearest later match,
/// and no index at all exactly when none follows.
pub fn get_next_search_state(lines: &Vec<PrintableLine>, state: SearchState) -> (r: SearchState)
    requires
        state.match_index is Some,
    ensures
        r.needle@ == state.needle@,
        r.match_index matches Some(i) ==> (state.match_index matches Some(p) && p < i && i
            < lines@.len() && line_matches(lines@[i as int], state.needle@) && (forall|j: int|
            p < j < i ==> !line_matches(#[trigger] lines@[j], state.needle@))),
        r.match_index is None ==> (state.match_index matches Some(p) && forall|j: int|
            p < j < lines@.len() ==> !line_matches(#[trigger] lines@[j], state.needle@)),
{
    let p = match state.match_index {
        Some(p) => p,
        None => vstd::pervasive::unreached(),
    };
    let needle = state.needle;
    let n = lines.len();
    let mut i: usize = 0;
    while i < n
        invariant
            n == lines@.len(),
            0 <= i <= n,
            needle@ == state.needle@,
            state.match_index == Some(p),
            forall|j: int| p < j < i ==> !line_matches(#[trigger] lines@[j], needle@),
        decreases n - i,
    {
        if i > p {
            match &lines[i] {
                PrintableLine::Text(t) => {
                    if contains_str(t.as_str(), needle.as_str()) {
                        return SearchState { match_index: Some(i), needle };
                    }
                },
                PrintableLine::Button(_, _) => {},
            }
        }
        i = i + 1;
    }
    SearchState { match_index: None, needle }
}

} // verus!
