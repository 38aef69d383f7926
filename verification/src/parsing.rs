//! Executable scanners for the format's tokens, verified against the
//! specification functions in [`crate::grammar`].

use vstd::prelude::*;

use crate::grammar;

pub mod comment;
pub mod literal;
pub mod string;

verus! {

/// Recognizes one delimiter character from the fixed set `: ( ) { } [ ]` at
/// position `i`.
pub fn delimiter(text: &Vec<char>, i: usize) -> (r: Option<char>)
    requires
        i <= text@.len(),
    ensures
        match r {
            Some(c) => i < text@.len() && c == text@[i as int] && grammar::is_delim_char(c),
            None => i == text@.len() || !grammar::is_delim_char(text@[i as int]),
        },
{
    if i < text.len() {
        let c = text[i];
        if c == ':' || c == '(' || c == ')' || c == '{' || c == '}' || c == '[' || c == ']' {
            return Some(c);
        }
    }
    None
}

/// Recognizes an identifier at position `i`: one letter or underscore, then
/// any run of letters, digits and underscores. Returns the position just
/// past the identifier.
pub fn identifier(text: &Vec<char>, i: usize) -> (r: Option<usize>)
    requires
        i <= text@.len(),
    ensures
        match r {
            Some(e) => grammar::ident_end(text@, i as int) == Some(e as int) && i < e
                <= text@.len(),
            None => grammar::ident_end(text@, i as int) is None,
        },
{
    if i < text.len() && is_ident_start_char(text[i]) {
        let mut p: usize = i + 1;
        while p < text.len() && is_ident_inner_char(text[p])
            invariant
                i + 1 <= p <= text@.len(),
                grammar::ident_run_end(text@, i + 1) == grammar::ident_run_end(text@, p as int),
            decreases text@.len() - p,
        {
            p = p + 1;
        }
        Some(p)
    } else {
        None
    }
}

/// One character that may begin an identifier: a letter or an underscore.
pub fn is_ident_start_char(c: char) -> (r: bool)
    ensures
        r == grammar::is_ident_start(c),
{
    ('a' <= c && c <= 'z') || ('A' <= c && c <= 'Z') || c == '_'
}

/// One character that may continue an identifier.
pub fn is_ident_inner_char(c: char) -> (r: bool)
    ensures
        r == grammar::is_ident_char(c),
{
    is_ident_start_char(c) || ('0' <= c && c <= '9')
}

/// The characters that count as separators between tokens: comma is
/// whitespace in this format.
pub fn is_separator_char(c: char) -> (r: bool)
    ensures
        r == grammar::is_sep_char(c),
{
    c == ' ' || c == ',' || c == '\r' || c == '\n' || c == '\t'
}

/// Recognizes a non-empty run of separator characters starting at `i` and
/// returns the position just past the run.
pub fn whitespace(text: &Vec<char>, i: usize) -> (r: Option<usize>)
    requires
        i <= text@.len(),
    ensures
        match r {
            Some(e) => i < e <= text@.len() && (forall|k: int|
                i <= k < e ==> grammar::is_sep_char(#[trigger] text@[k])) && (e == text@.len()
                || !grammar::is_sep_char(text@[e as int])),
            None => i == text@.len() || !grammar::is_sep_char(text@[i as int]),
        },
{
    if i < text.len() && is_separator_char(text[i]) {
        let mut p: usize = i + 1;
        while p < text.len() && is_separator_char(text[p])
            invariant
                i < p <= text@.len(),
                forall|k: int| i <= k < p ==> grammar::is_sep_char(#[trigger] text@[k]),
            decreases text@.len() - p,
        {
            p = p + 1;
        }
        Some(p)
    } else {
        None
    }
}

/// A copy of the characters `text[from..to]`.
pub(crate) fn copy_range(text: &Vec<char>, from: usize, to: usize) -> (r: Vec<char>)
    requires
        from <= to <= text@.len(),
    ensures
        r@ == text@.subrange(from as int, to as int),
{
    let mut buf: Vec<char> = Vec::new();
    let mut p: usize = from;
    while p < to
        invariant
            from <= p <= to <= text@.len(),
            buf@ == text@.subrange(from as int, p as int),
        decreases to - p,
    {
        buf.push(text[p]);
        proof {
            assert(buf@ =~= text@.subrange(from as int, p + 1));
        }
        p = p + 1;
    }
    buf
}

/// Consumes every separator character and well-formed comment starting at
/// `i`, returning the first position where neither continues.
pub fn skip_trivia(text: &Vec<char>, i: usize) -> (r: usize)
    requires
        i <= text@.len(),
    ensures
        r == grammar::trivia_end(text@, i as int),
        i <= r <= text@.len(),
        grammar::trivia_end(text@, r as int) == r,
{
    proof {
        grammar::lemma_trivia_end_bounds(text@, i as int);
        grammar::lemma_trivia_end_idempotent(text@, i as int);
    }
    let mut p: usize = i;
    loop
        invariant
            i <= p <= text@.len(),
            grammar::trivia_end(text@, i as int) == grammar::trivia_end(text@, p as int),
        decreases text@.len() - p,
    {
        if p < text.len() && is_separator_char(text[p]) {
            p = p + 1;
        } else {
            match comment::multiline_comment(text, p) {
                Some(e) => {
                    p = e;
                },
                None => {
                    match comment::eol_comment(text, p) {
                        Some(e) => {
                            p = e;
                        },
                        None => {
                            return p;
                        },
                    }
                },
            }
        }
    }
}

} // verus!
