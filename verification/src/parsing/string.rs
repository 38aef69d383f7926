//! The string-literal scanner and the RFC 8259 unescaper behind it.

use vstd::prelude::*;

use crate::grammar;

verus! {

/// Prefixing the content of a successful scan.
pub open spec fn prepend_scan(pre: Seq<char>, o: Option<(Seq<char>, int)>) -> Option<
    (Seq<char>, int),
> {
    match o {
        Some((s, e)) => Some((pre + s, e)),
        None => None,
    }
}

/// Scans a string literal at `i`: from the opening quote to the first
/// unescaped closing quote, tracking an escape flag toggled by backslash.
/// Raw line breaks inside the quotes are rewritten to their two-character
/// escape forms, so a string literal may span several source lines. Yields
/// the collected, still-escaped content and the position just past the
/// closing quote; `None` when no quote opens here or the string never
/// closes.
pub fn scan(text: &Vec<char>, i: usize) -> (r: Option<(Vec<char>, usize)>)
    requires
        i <= text@.len(),
    ensures
        match r {
            Some((raw, e)) => grammar::string_scan(text@, i as int) == Some((raw@, e as int)) && i
                + 1 < e <= text@.len(),
            None => grammar::string_scan(text@, i as int) is None,
        },
{
    if !(i < text.len() && text[i] == '"') {
        return None;
    }
    let mut p: usize = i + 1;
    let mut escp: bool = false;
    let mut acc: Vec<char> = Vec::new();
    loop
        invariant
            i + 1 <= p <= text@.len(),
            i < text@.len() && text@[i as int] == '"',
            grammar::str_body(text@, i + 1, false) == prepend_scan(
                acc@,
                grammar::str_body(text@, p as int, escp),
            ),
        decreases text@.len() - p,
    {
        if p == text.len() {
            return None;
        }
        let ghost pre_acc = acc@;
        let c = text[p];
        if c == '\\' && !escp {
            escp = true;
            acc.push('\\');
            proof {
                lemma_prepend_shift(pre_acc, seq!['\\'], grammar::str_body(text@, p + 1, true));
                assert(acc@ =~= pre_acc + seq!['\\']);
            }
            p = p + 1;
        } else if c == '"' && !escp {
            proof {
                assert(acc@ + Seq::<char>::empty() =~= acc@);
            }
            return Some((acc, p + 1));
        } else {
            let ghost escp2 = if grammar::is_rust_whitespace(c) {
                escp
            } else {
                false
            };
            if !is_rust_whitespace(c) {
                escp = false;
            }
            if c == '\n' {
                acc.push('\\');
                acc.push('n');
            } else if c == '\r' {
                acc.push('\\');
                acc.push('r');
            } else {
                acc.push(c);
            }
            proof {
                lemma_prepend_shift(
                    pre_acc,
                    grammar::rewrite_char(c),
                    grammar::str_body(text@, p + 1, escp2),
                );
                assert(acc@ =~= pre_acc + grammar::rewrite_char(c));
            }
            p = p + 1;
        }
    }
}

/// Prefixing in two steps is prefixing in one.
proof fn lemma_prepend_shift(pre: Seq<char>, mid: Seq<char>, o: Option<(Seq<char>, int)>)
    ensures
        prepend_scan(pre, prepend_scan(mid, o)) == prepend_scan(pre + mid, o),
{
    match o {
        Some((s, e)) => {
            assert(pre + (mid + s) =~= (pre + mid) + s);
        },
        None => {},
    }
}

/// The characters Rust's standard library counts as whitespace.
pub fn is_rust_whitespace(c: char) -> (r: bool)
    ensures
        r == grammar::is_rust_whitespace(c),
{
    c == '\u{09}' || c == '\u{0A}' || c == '\u{0B}' || c == '\u{0C}' || c == '\u{0D}' || c == ' '
        || c == '\u{85}' || c == '\u{A0}' || c == '\u{1680}' || c == '\u{2000}' || c == '\u{2001}'
        || c == '\u{2002}' || c == '\u{2003}' || c == '\u{2004}' || c == '\u{2005}' || c
        == '\u{2006}' || c == '\u{2007}' || c == '\u{2008}' || c == '\u{2009}' || c == '\u{200A}'
        || c == '\u{2028}' || c == '\u{2029}' || c == '\u{202F}' || c == '\u{205F}' || c
        == '\u{3000}'
}

/// Relies on escape8259::unescape: RFC 8259 unescaping, a function of the
/// input characters alone. On a body of safe characters and single-character
/// escapes it returns exactly the direct unescaping, as its documentation
/// states; only UTF-16 escapes lie beyond that statement.
#[verifier::external_body]
pub fn unescape_content(raw: &Vec<char>) -> (r: Option<String>)
    ensures
        r is Some <==> grammar::unescape_of(raw@) is Some,
        r is Some ==> r->0@ == grammar::unescape_of(raw@)->0,
        grammar::simple_unescape(raw@) is Some ==> (r is Some && r->0@ == grammar::simple_unescape(
            raw@,
        )->0),
{
    let s: String = raw.iter().collect();
    match escape8259::unescape(&s) {
        Ok(out) => Some(out),
        Err(_) => None,
    }
}

/// Relies on String's FromIterator instance: collecting characters into a
/// string keeps exactly those characters.
#[verifier::external_body]
pub fn string_from_chars(v: Vec<char>) -> (r: String)
    ensures
        r@ == v@,
{
    String::from_iter(v)
}

/// A complete string token at `i`: the scan must close and the collected
/// content must unescape. Yields the decoded string and the position just
/// past the closing quote. A body made only of safe characters and raw line
/// breaks comes back verbatim, line breaks included: the string multi-line
/// round trip.
pub fn string(text: &Vec<char>, i: usize) -> (r: Option<(String, usize)>)
    requires
        i <= text@.len(),
    ensures
        match r {
            Some((s, e)) => grammar::string_token(text@, i as int) == Some((s@, e as int)) && i < e
                <= text@.len() && ((forall|k: int|
                i + 1 <= k < e - 1 ==> grammar::is_safe_char(#[trigger] text@[k]) || text@[k]
                    == '\n' || text@[k] == '\r') ==> s@ == text@.subrange(i + 1, e - 1)),
            None => grammar::string_token(text@, i as int) is None,
        },
{
    match scan(text, i) {
        Some((raw, e)) => {
            match unescape_content(&raw) {
                Some(s) => {
                    proof {
                        if forall|k: int|
                            i + 1 <= k < e - 1 ==> grammar::is_safe_char(#[trigger] text@[k])
                                || text@[k] == '\n' || text@[k] == '\r' {
                            grammar::lemma_plain_body_verbatim(text@, i + 1, e as int, raw@);
                        }
                    }
                    Some((s, e))
                },
                None => None,
            }
        },
        None => None,
    }
}

} // verus!
