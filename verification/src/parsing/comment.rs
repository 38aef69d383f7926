//! Scanners for the two comment forms: `// ...` to end of line and the
//! non-nesting `/* ... */`.

use vstd::prelude::*;

use crate::grammar;

verus! {

/// The first position at or after `from` holding character `c`.
pub fn find_char(text: &Vec<char>, from: usize, c: char) -> (r: Option<usize>)
    requires
        from <= text@.len(),
    ensures
        match r {
            Some(j) => grammar::find_char(text@, from as int, c) == Some(j as int) && from <= j
                < text@.len(),
            None => grammar::find_char(text@, from as int, c) is None,
        },
{
    let mut p: usize = from;
    while p < text.len() && text[p] != c
        invariant
            from <= p <= text@.len(),
            grammar::find_char(text@, from as int, c) == grammar::find_char(text@, p as int, c),
        decreases text@.len() - p,
    {
        p = p + 1;
    }
    if p < text.len() {
        Some(p)
    } else {
        None
    }
}

/// The first position at or after `from` where the two-character sequence
/// `c0 c1` begins.
pub fn find_pair(text: &Vec<char>, from: usize, c0: char, c1: char) -> (r: Option<usize>)
    requires
        from <= text@.len(),
    ensures
        match r {
            Some(j) => grammar::find_pair(text@, from as int, c0, c1) == Some(j as int) && from
                <= j && j + 1 < text@.len(),
            None => grammar::find_pair(text@, from as int, c0, c1) is None,
        },
{
    let mut p: usize = from;
    while text.len() - p >= 2 && !(text[p] == c0 && text[p + 1] == c1)
        invariant
            from <= p <= text@.len(),
            grammar::find_pair(text@, from as int, c0, c1) == grammar::find_pair(
                text@,
                p as int,
                c0,
                c1,
            ),
        decreases text@.len() - p,
    {
        p = p + 1;
    }
    if text.len() - p >= 2 {
        Some(p)
    } else {
        None
    }
}

/// A block comment `/* ... */` starting at `i`: returns the position just
/// past the closing `*/`, or `None` when no well-formed block comment starts
/// here (including an unterminated one, which is not consumed).
pub fn multiline_comment(text: &Vec<char>, i: usize) -> (r: Option<usize>)
    requires
        i <= text@.len(),
    ensures
        match r {
            Some(e) => grammar::block_comment_end(text@, i as int) == Some(e as int) && i < e
                <= text@.len(),
            None => grammar::block_comment_end(text@, i as int) is None,
        },
{
    if text.len() - i >= 2 && text[i] == '/' && text[i + 1] == '*' {
        match find_pair(text, i + 2, '*', '/') {
            Some(j) => Some(j + 2),
            None => None,
        }
    } else {
        None
    }
}

/// A line comment `// ...` starting at `i`: returns the position just past
/// the terminating newline, or `None` when no newline-terminated line comment
/// starts here.
pub fn eol_comment(text: &Vec<char>, i: usize) -> (r: Option<usize>)
    requires
        i <= text@.len(),
    ensures
        match r {
            Some(e) => grammar::line_comment_end(text@, i as int) == Some(e as int) && i < e
                <= text@.len(),
            None => grammar::line_comment_end(text@, i as int) is None,
        },
{
    if text.len() - i >= 2 && text[i] == '/' && text[i + 1] == '/' {
        match find_char(text, i + 2, '\n') {
            Some(j) => Some(j + 1),
            None => None,
        }
    } else {
        None
    }
}

} // verus!
