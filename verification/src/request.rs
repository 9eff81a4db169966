//! Checks that the front ends make of a conversion request before any file
//! is touched.

use vstd::prelude::*;
use crate::script_line::{is_whitespace, is_ws};
use crate::text::chars_of;

verus! {

/// What is wrong with a request, before its paths are looked at.
#[derive(Debug, Clone, Copy, PartialEq, Eq, Structural)]
pub enum RequestProblem {
    /// No input path was chosen (it is empty or only whitespace).
    MissingInput,
    /// No output path was chosen (it is empty or only whitespace).
    MissingOutput,
}

/// `s` is empty once trimmed: it holds whitespace only.
pub open spec fn blank(s: Seq<char>) -> bool {
    forall|i: int| 0 <= i < s.len() ==> is_ws(#[trigger] s[i])
}

/// Does `s` hold whitespace only?
pub fn is_blank(s: &str) -> (r: bool)
    ensures
        r == blank(s@),
{
    let cs = chars_of(s);
    let mut i: usize = 0;
    while i < cs.len()
        invariant
            cs@ == s@,
            i <= cs@.len(),
            forall|m: int| 0 <= m < i ==> is_ws(#[trigger] s@[m]),
        decreases cs.len() - i,
    {
        if !is_whitespace(cs[i]) {
            return false;
        }
        i += 1;
    }
    true
}

/// The first problem of a request with the given input and output paths:
/// a blank input first, then a blank output; `None` when both are given.
pub fn request_problem(input: &str, output: &str) -> (r: Option<RequestProblem>)
    ensures
        r == (if blank(input@) {
            Some(RequestProblem::MissingInput)
        } else if blank(output@) {
            Some(RequestProblem::MissingOutput)
        } else {
            None
        }),
{
    if is_blank(input) {
        Some(RequestProblem::MissingInput)
    } else if is_blank(output) {
        Some(RequestProblem::MissingOutput)
    } else {
        None
    }
}

/// How many leading bytes of a file of `len` bytes a preview converts:
/// the first `max_bytes`, or the whole file when it is shorter.
pub fn preview_len(len: usize, max_bytes: usize) -> (n: usize)
    ensures
        n == (if len < max_bytes {
            len
        } else {
            max_bytes
        }),
{
    if len < max_bytes {
        len
    } else {
        max_bytes
    }
}

} // verus!
