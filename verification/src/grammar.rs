//! The mathematical model of the format's grammar.
//!
//! Everything here is specification-level: the scanners and the decode engine
//! are verified against these functions.

use vstd::prelude::*;

verus! {

/// Separator characters: comma counts as whitespace in this format.
pub open spec fn is_sep_char(c: char) -> bool {
    c == ' ' || c == ',' || c == '\r' || c == '\n' || c == '\t'
}

/// The first position `j >= from` with `text[j] == c`, if any.
pub open spec fn find_char(text: Seq<char>, from: int, c: char) -> Option<int>
    decreases text.len() - from,
{
    if from < 0 || from >= text.len() {
        None
    } else if text[from] == c {
        Some(from)
    } else {
        find_char(text, from + 1, c)
    }
}

/// The first position `j >= from` where the two-character sequence `c0 c1`
/// begins, if any.
pub open spec fn find_pair(text: Seq<char>, from: int, c0: char, c1: char) -> Option<int>
    decreases text.len() - from,
{
    if from < 0 || from + 1 >= text.len() {
        None
    } else if text[from] == c0 && text[from + 1] == c1 {
        Some(from)
    } else {
        find_pair(text, from + 1, c0, c1)
    }
}

/// A line comment `// ...` starts at `i` and runs through its terminating
/// newline; the result is the position just past that newline. A line comment
/// that never reaches a newline is not recognized.
pub open spec fn line_comment_end(text: Seq<char>, i: int) -> Option<int> {
    if 0 <= i && i + 1 < text.len() && text[i] == '/' && text[i + 1] == '/' {
        match find_char(text, i + 2, '\n') {
            Some(j) => Some(j + 1),
            None => None,
        }
    } else {
        None
    }
}

/// A block comment `/* ... */` (non-nesting) starts at `i` and runs through
/// the first `*/`; the result is the position just past it. An unterminated
/// block comment is not recognized.
pub open spec fn block_comment_end(text: Seq<char>, i: int) -> Option<int> {
    if 0 <= i && i + 1 < text.len() && text[i] == '/' && text[i + 1] == '*' {
        match find_pair(text, i + 2, '*', '/') {
            Some(j) => Some(j + 2),
            None => None,
        }
    } else {
        None
    }
}

/// The position reached from `i` after consuming every separator character
/// and every well-formed comment. This is what the separator/comment skipper
/// computes.
pub open spec fn trivia_end(text: Seq<char>, i: int) -> int
    decreases text.len() - i,
{
    if 0 <= i < text.len() && is_sep_char(text[i]) {
        trivia_end(text, i + 1)
    } else {
        match block_comment_end(text, i) {
            Some(j) => if i < j <= text.len() {
                trivia_end(text, j)
            } else {
                i
            },
            None => match line_comment_end(text, i) {
                Some(j) => if i < j <= text.len() {
                    trivia_end(text, j)
                } else {
                    i
                },
                None => i,
            },
        }
    }
}

/// One delimiter character.
pub open spec fn is_delim_char(c: char) -> bool {
    c == ':' || c == '(' || c == ')' || c == '{' || c == '}' || c == '[' || c == ']'
}

/// A character that may begin an identifier: a letter or an underscore.
pub open spec fn is_ident_start(c: char) -> bool {
    ('a' <= c && c <= 'z') || ('A' <= c && c <= 'Z') || c == '_'
}

/// A character that may continue an identifier.
pub open spec fn is_ident_char(c: char) -> bool {
    is_ident_start(c) || is_digit(c)
}

/// The end of the run of identifier characters beginning at `i`.
pub open spec fn ident_run_end(text: Seq<char>, i: int) -> int
    decreases text.len() - i,
{
    if 0 <= i < text.len() && is_ident_char(text[i]) {
        ident_run_end(text, i + 1)
    } else {
        i
    }
}

/// An identifier starting at `i`: one starting character, then any run of
/// identifier characters. The result is the position just past it.
pub open spec fn ident_end(text: Seq<char>, i: int) -> Option<int> {
    if 0 <= i < text.len() && is_ident_start(text[i]) {
        Some(ident_run_end(text, i + 1))
    } else {
        None
    }
}

/// A decimal digit.
pub open spec fn is_digit(c: char) -> bool {
    '0' <= c && c <= '9'
}

/// The numeric value of a digit character.
pub open spec fn digit_val(c: char) -> int {
    c as u32 - '0' as u32
}

/// A character that may appear in an integer literal's digit run.
pub open spec fn is_num_char(c: char) -> bool {
    is_digit(c) || c == '_'
}

/// The end of the run of digits and underscores beginning at `i`.
pub open spec fn num_run_end(text: Seq<char>, i: int) -> int
    decreases text.len() - i,
{
    if 0 <= i < text.len() && is_num_char(text[i]) {
        num_run_end(text, i + 1)
    } else {
        i
    }
}

/// An integer literal's extent: an optional leading minus sign, then a digit,
/// then any run of digits and underscores (underscores are stripped before
/// conversion and may trail).
pub open spec fn int_end(text: Seq<char>, i: int) -> Option<int> {
    let s = if 0 <= i < text.len() && text[i] == '-' {
        i + 1
    } else {
        i
    };
    if 0 <= s < text.len() && is_digit(text[s]) {
        Some(num_run_end(text, s))
    } else {
        None
    }
}

/// The value of the digit run `text[i..j]`, underscores ignored.
pub open spec fn digits_val(text: Seq<char>, i: int, j: int) -> int
    decreases j - i,
{
    if i >= j {
        0
    } else if text[j - 1] == '_' {
        digits_val(text, i, j - 1)
    } else {
        digits_val(text, i, j - 1) * 10 + digit_val(text[j - 1])
    }
}

/// The signed value of the integer literal `text[i..j]`.
pub open spec fn int_val(text: Seq<char>, i: int, j: int) -> int {
    if 0 <= i < text.len() && text[i] == '-' {
        -digits_val(text, i + 1, j)
    } else {
        digits_val(text, i, j)
    }
}

/// Whether the integer literal `text[i..j]` fits a 64-bit signed integer;
/// a literal that does not is rejected by every numeric scanner.
pub open spec fn int_fits(text: Seq<char>, i: int, j: int) -> bool {
    i64::MIN <= int_val(text, i, j) <= i64::MAX
}

/// A complete integer token at `i`: its value and its end, provided the
/// value fits 64 signed bits.
pub open spec fn int_token(text: Seq<char>, i: int) -> Option<(int, int)> {
    match int_end(text, i) {
        Some(j) => if int_fits(text, i, j) {
            Some((int_val(text, i, j), j))
        } else {
            None
        },
        None => None,
    }
}

/// An integer component inside a float literal: the scanners require each
/// such component to fit 64 signed bits.
pub open spec fn comp_end(text: Seq<char>, i: int) -> Option<int> {
    match int_end(text, i) {
        Some(j) => if int_fits(text, i, j) {
            Some(j)
        } else {
            None
        },
        None => None,
    }
}

/// An exponent part: `e` or `E`, an optional sign, then an integer component.
pub open spec fn exp_end(text: Seq<char>, i: int) -> Option<int> {
    if 0 <= i < text.len() && (text[i] == 'e' || text[i] == 'E') {
        let s = if i + 1 < text.len() && (text[i + 1] == '+' || text[i + 1] == '-') {
            i + 2
        } else {
            i + 1
        };
        comp_end(text, s)
    } else {
        None
    }
}

/// Float shape one: a leading dot, digits, and an optional exponent
/// (`.42`, `.42e-3`).
pub open spec fn float_case_dot(text: Seq<char>, i: int) -> Option<int> {
    if 0 <= i < text.len() && text[i] == '.' {
        match comp_end(text, i + 1) {
            Some(j) => match exp_end(text, j) {
                Some(k) => Some(k),
                None => Some(j),
            },
            None => None,
        }
    } else {
        None
    }
}

/// Float shape two: an integer, an optional fraction, and a mandatory
/// exponent (`42e7`, `42.5e-3`).
pub open spec fn float_case_exp(text: Seq<char>, i: int) -> Option<int> {
    match comp_end(text, i) {
        Some(j) => {
            let j2 = if j < text.len() && text[j] == '.' && comp_end(text, j + 1) is Some {
                comp_end(text, j + 1)->0
            } else {
                j
            };
            exp_end(text, j2)
        },
        None => None,
    }
}

/// Float shape three: an integer, a dot, and an optional fraction
/// (`42.`, `42.5`).
pub open spec fn float_case_frac(text: Seq<char>, i: int) -> Option<int> {
    match comp_end(text, i) {
        Some(j) => if j < text.len() && text[j] == '.' {
            match comp_end(text, j + 1) {
                Some(k) => Some(k),
                None => Some(j + 1),
            }
        } else {
            None
        },
        None => None,
    }
}

/// The extent of a float literal at `i`: the four lexical shapes are tried in
/// order and the first match wins (the last shape is a bare integer).
pub open spec fn float_end(text: Seq<char>, i: int) -> Option<int> {
    if float_case_dot(text, i) is Some {
        float_case_dot(text, i)
    } else if float_case_exp(text, i) is Some {
        float_case_exp(text, i)
    } else if float_case_frac(text, i) is Some {
        float_case_frac(text, i)
    } else {
        comp_end(text, i)
    }
}

/// Whether the scanned float lexeme is a well-formed float literal: no
/// underscores, and a minus sign only at the front or right after an
/// exponent marker. A lexeme that fails this is rejected.
pub open spec fn float_valid(text: Seq<char>, i: int, j: int) -> bool {
    forall|k: int|
        i <= k < j ==> #[trigger] text[k] != '_' && (text[k] == '-' ==> k == i || text[k - 1] == 'e'
            || text[k - 1] == 'E')
}

/// A complete float token at `i`: the end of a well-formed float lexeme.
pub open spec fn float_token(text: Seq<char>, i: int) -> Option<int> {
    match float_end(text, i) {
        Some(j) => if float_valid(text, i, j) {
            Some(j)
        } else {
            None
        },
        None => None,
    }
}

/// A boolean literal at `i`: the value and the position just past it.
pub open spec fn bool_end(text: Seq<char>, i: int) -> Option<(bool, int)> {
    if 0 <= i && i + 5 <= text.len() && text[i] == 'f' && text[i + 1] == 'a' && text[i + 2] == 'l'
        && text[i + 3] == 's' && text[i + 4] == 'e' {
        Some((false, i + 5))
    } else if 0 <= i && i + 4 <= text.len() && text[i] == 't' && text[i + 1] == 'r' && text[i + 2]
        == 'u' && text[i + 3] == 'e' {
        Some((true, i + 4))
    } else {
        None
    }
}

/// A null literal at `i`: the position just past it.
pub open spec fn null_end(text: Seq<char>, i: int) -> Option<int> {
    if 0 <= i && i + 4 <= text.len() && text[i] == 'n' && text[i + 1] == 'u' && text[i + 2] == 'l'
        && text[i + 3] == 'l' {
        Some(i + 4)
    } else {
        None
    }
}

/// A character that may stand unescaped in a string under RFC 8259:
/// anything but a control character, the quote, and the backslash.
pub open spec fn is_safe_char(c: char) -> bool {
    (0x20 <= c as u32 && c as u32 <= 0x21) || (0x23 <= c as u32 && c as u32 <= 0x5B) || 0x5D
        <= c as u32
}

/// The characters Rust's standard library counts as whitespace (the Unicode
/// White_Space property). Inside a string literal, whitespace does not clear
/// a pending escape flag.
pub open spec fn is_rust_whitespace(c: char) -> bool {
    c == '\u{09}' || c == '\u{0A}' || c == '\u{0B}' || c == '\u{0C}' || c == '\u{0D}' || c == ' '
        || c == '\u{85}' || c == '\u{A0}' || c == '\u{1680}' || c == '\u{2000}' || c == '\u{2001}'
        || c == '\u{2002}' || c == '\u{2003}' || c == '\u{2004}' || c == '\u{2005}' || c
        == '\u{2006}' || c == '\u{2007}' || c == '\u{2008}' || c == '\u{2009}' || c == '\u{200A}'
        || c == '\u{2028}' || c == '\u{2029}' || c == '\u{202F}' || c == '\u{205F}' || c
        == '\u{3000}'
}

/// The escaped form a raw character takes inside the collected string body:
/// raw line breaks are rewritten to their two-character escapes so that a
/// string literal may span several source lines.
pub open spec fn rewrite_char(c: char) -> Seq<char> {
    if c == '\n' {
        seq!['\\', 'n']
    } else if c == '\r' {
        seq!['\\', 'r']
    } else {
        seq![c]
    }
}

/// The body of a string literal from position `i` (just past the opening
/// quote) with escape flag `escp`: the collected, still-escaped content and
/// the position just past the closing quote. `None` means the string never
/// closes. A backslash sets the escape flag; any non-whitespace character
/// clears it; whitespace leaves it as it stands.
pub open spec fn str_body(text: Seq<char>, i: int, escp: bool) -> Option<(Seq<char>, int)>
    decreases text.len() - i,
{
    if i < 0 || i >= text.len() {
        None
    } else {
        let c = text[i];
        if c == '\\' && !escp {
            match str_body(text, i + 1, true) {
                Some((s, e)) => Some((seq!['\\'] + s, e)),
                None => None,
            }
        } else if c == '"' && !escp {
            Some((Seq::empty(), i + 1))
        } else {
            let escp2 = if is_rust_whitespace(c) {
                escp
            } else {
                false
            };
            match str_body(text, i + 1, escp2) {
                Some((s, e)) => Some((rewrite_char(c) + s, e)),
                None => None,
            }
        }
    }
}

/// A string literal at `i`: the collected, still-escaped content and the
/// position just past the closing quote.
pub open spec fn string_scan(text: Seq<char>, i: int) -> Option<(Seq<char>, int)> {
    if 0 <= i < text.len() && text[i] == '"' {
        str_body(text, i + 1, false)
    } else {
        None
    }
}

/// What unescaping a collected string body returns, when it succeeds. This
/// names the result of the RFC 8259 unescaper that the string scanner calls;
/// the value depends on the input characters alone.
pub uninterp spec fn unescape_of(s: Seq<char>) -> Option<Seq<char>>;

/// The character a single-character escape stands for: `\"`, `\\` and `\/`
/// stand for themselves, `\b`, `\f`, `\n`, `\r`, `\t` for their control
/// characters. A UTF-16 escape or an unknown escape is not simple.
pub open spec fn simple_escape_of(d: char) -> Option<char> {
    if d == '"' || d == '\\' || d == '/' {
        Some(d)
    } else if d == 'b' {
        Some('\u{08}')
    } else if d == 'f' {
        Some('\u{0C}')
    } else if d == 'n' {
        Some('\n')
    } else if d == 'r' {
        Some('\r')
    } else if d == 't' {
        Some('\t')
    } else {
        None
    }
}

/// Unescaping restricted to safe characters and single-character escapes.
/// On this domain the RFC 8259 unescaper returns exactly this; a body that
/// needs a UTF-16 escape lies outside it.
pub open spec fn simple_unescape(s: Seq<char>) -> Option<Seq<char>>
    decreases s.len(),
{
    if s.len() == 0 {
        Some(Seq::empty())
    } else if s[0] == '\\' {
        if s.len() >= 2 {
            match simple_escape_of(s[1]) {
                Some(c) => match simple_unescape(s.skip(2)) {
                    Some(rest) => Some(seq![c] + rest),
                    None => None,
                },
                None => None,
            }
        } else {
            None
        }
    } else if is_safe_char(s[0]) {
        match simple_unescape(s.skip(1)) {
            Some(rest) => Some(seq![s[0]] + rest),
            None => None,
        }
    } else {
        None
    }
}

/// String multi-line round-trip: a scanned string body made only of safe
/// characters and raw line breaks unescapes to the source segment verbatim —
/// the rewriting of a raw line break to its two-character escape and the
/// unescaping of that escape cancel out.
pub proof fn lemma_plain_body_verbatim(text: Seq<char>, p: int, e: int, raw: Seq<char>)
    requires
        str_body(text, p, false) == Some((raw, e)),
        forall|k: int|
            p <= k < e - 1 ==> is_safe_char(#[trigger] text[k]) || text[k] == '\n' || text[k]
                == '\r',
    ensures
        simple_unescape(raw) == Some(text.subrange(p, e - 1)),
    decreases text.len() - p,
{
    lemma_str_body_bounds(text, p, false);
    let c = text[p];
    if c == '\\' {
        lemma_str_body_bounds(text, p + 1, true);
        assert(p < e - 1);
        assert(is_safe_char(text[p]) || text[p] == '\n' || text[p] == '\r');
        assert(false);
    } else if c == '"' {
        assert(text.subrange(p, e - 1) =~= Seq::<char>::empty());
    } else {
        lemma_str_body_bounds(text, p + 1, false);
        let inner = str_body(text, p + 1, false)->0;
        let rest_raw = inner.0;
        lemma_plain_body_verbatim(text, p + 1, e, rest_raw);
        assert(raw == rewrite_char(c) + rest_raw);
        assert(text.subrange(p, e - 1) =~= seq![c] + text.subrange(p + 1, e - 1));
        if c == '\n' || c == '\r' {
            let d = if c == '\n' {
                'n'
            } else {
                'r'
            };
            assert(raw[0] == '\\' && raw[1] == d);
            assert(raw.skip(2) =~= rest_raw);
            assert(simple_unescape(raw) == Some(seq![c] + text.subrange(p + 1, e - 1)));
        } else {
            assert(raw[0] == c);
            assert(raw.skip(1) =~= rest_raw);
            assert(simple_unescape(raw) == Some(seq![c] + text.subrange(p + 1, e - 1)));
        }
    }
}

/// A complete string token at `i`: the scan must close and the collected
/// body must unescape.
pub open spec fn string_token(text: Seq<char>, i: int) -> Option<(Seq<char>, int)> {
    match string_scan(text, i) {
        Some((raw, e)) => match unescape_of(raw) {
            Some(s) => Some((s, e)),
            None => None,
        },
        None => None,
    }
}

/// The extent of one literal at `i`, tried in the fixed order boolean,
/// float, integer, string, null; the first scanner that accepts wins.
pub open spec fn literal_end(text: Seq<char>, i: int) -> Option<int> {
    match bool_end(text, i) {
        Some((_, e)) => Some(e),
        None => match float_token(text, i) {
            Some(e) => Some(e),
            None => match int_token(text, i) {
                Some((_, e)) => Some(e),
                None => match string_token(text, i) {
                    Some((_, e)) => Some(e),
                    None => null_end(text, i),
                },
            },
        },
    }
}



/// The one-based line number of position `pos`: one more than the number of
/// newlines before it.
pub open spec fn line_of(text: Seq<char>, pos: int) -> int
    decreases pos,
{
    if pos <= 0 {
        1
    } else {
        line_of(text, pos - 1) + if text[pos - 1] == '\n' {
            1int
        } else {
            0int
        }
    }
}

/// The position where the line holding `pos` begins: just past the last
/// newline before `pos`, or the start of the text.
pub open spec fn line_start(text: Seq<char>, pos: int) -> int
    decreases pos,
{
    if pos <= 0 {
        0
    } else if text[pos - 1] == '\n' {
        pos
    } else {
        line_start(text, pos - 1)
    }
}

/// The zero-based column of position `pos`: characters since the start of
/// its line.
pub open spec fn col_of(text: Seq<char>, pos: int) -> int {
    pos - line_start(text, pos)
}

/// The full source line holding `pos`, through its newline when one follows.
pub open spec fn line_text(text: Seq<char>, pos: int) -> Seq<char> {
    let ls = line_start(text, pos);
    let le = match find_char(text, ls, '\n') {
        Some(j) => j + 1,
        None => text.len() as int,
    };
    text.subrange(ls, le)
}

/// A match found inside a text is still found, in the same place, when more
/// text follows.
proof fn lemma_find_char_prefix(t: Seq<char>, s: Seq<char>, from: int, c: char)
    requires
        0 <= from,
    ensures
        find_char(t, from, c) is Some ==> find_char(t + s, from, c) == find_char(t, from, c),
    decreases t.len() - from,
{
    if from < t.len() {
        assert((t + s)[from] == t[from]);
        if t[from] != c {
            lemma_find_char_prefix(t, s, from + 1, c);
        }
    }
}

/// A pair found inside a text is still found, in the same place, when more
/// text follows.
proof fn lemma_find_pair_prefix(t: Seq<char>, s: Seq<char>, from: int, c0: char, c1: char)
    requires
        0 <= from,
    ensures
        find_pair(t, from, c0, c1) is Some ==> find_pair(t + s, from, c0, c1) == find_pair(
            t,
            from,
            c0,
            c1,
        ),
    decreases t.len() - from,
{
    if from + 1 < t.len() {
        assert((t + s)[from] == t[from]);
        assert((t + s)[from + 1] == t[from + 1]);
        if !(t[from] == c0 && t[from + 1] == c1) {
            lemma_find_pair_prefix(t, s, from + 1, c0, c1);
        }
    }
}

/// Searching after a fixed prefix finds what searching the suffix finds,
/// shifted by the prefix length.
proof fn lemma_find_char_shift(a: Seq<char>, t: Seq<char>, k: int, c: char)
    requires
        0 <= k,
    ensures
        find_char(a + t, a.len() + k, c) == match find_char(t, k, c) {
            Some(m) => Some(a.len() + m),
            None => None,
        },
    decreases t.len() - k,
{
    if k < t.len() {
        assert((a + t)[a.len() + k] == t[k]);
        if t[k] != c {
            lemma_find_char_shift(a, t, k + 1, c);
        }
    }
}

/// Searching for a pair after a fixed prefix finds what searching the suffix
/// finds, shifted by the prefix length.
proof fn lemma_find_pair_shift(a: Seq<char>, t: Seq<char>, k: int, c0: char, c1: char)
    requires
        0 <= k,
    ensures
        find_pair(a + t, a.len() + k, c0, c1) == match find_pair(t, k, c0, c1) {
            Some(m) => Some(a.len() + m),
            None => None,
        },
    decreases t.len() - k,
{
    if k + 1 < t.len() {
        assert((a + t)[a.len() + k] == t[k]);
        assert((a + t)[a.len() + k + 1] == t[k + 1]);
        if !(t[k] == c0 && t[k + 1] == c1) {
            lemma_find_pair_shift(a, t, k + 1, c0, c1);
        }
    }
}

/// The separator/comment skipper behaves the same after any fixed prefix:
/// what it skips depends only on the text from its starting position on.
pub proof fn lemma_trivia_end_shift(a: Seq<char>, t: Seq<char>, k: int)
    requires
        0 <= k <= t.len(),
    ensures
        trivia_end(a + t, a.len() + k) == a.len() + trivia_end(t, k),
    decreases t.len() - k,
{
    lemma_find_pair_shift(a, t, k + 2, '*', '/');
    lemma_find_char_shift(a, t, k + 2, '\n');
    if k < t.len() {
        assert((a + t)[a.len() + k] == t[k]);
        if k + 1 < t.len() {
            assert((a + t)[a.len() + k + 1] == t[k + 1]);
        }
    }
    if k < t.len() && is_sep_char(t[k]) {
        lemma_trivia_end_shift(a, t, k + 1);
    } else {
        match block_comment_end(t, k) {
            Some(j) => {
                if k < j <= t.len() {
                    lemma_trivia_end_shift(a, t, j);
                }
            },
            None => {
                match line_comment_end(t, k) {
                    Some(j) => {
                        if k < j <= t.len() {
                            lemma_trivia_end_shift(a, t, j);
                        }
                    },
                    None => {},
                }
            },
        }
    }
}

/// A run of separators and well-formed comments, each complete in itself.
pub open spec fn is_trivia_run(w: Seq<char>) -> bool
    decreases w.len(),
{
    if w.len() == 0 {
        true
    } else if is_sep_char(w[0]) {
        is_trivia_run(w.skip(1))
    } else {
        match block_comment_end(w, 0) {
            Some(j) => 1 <= j <= w.len() && is_trivia_run(w.skip(j)),
            None => match line_comment_end(w, 0) {
                Some(j) => 1 <= j <= w.len() && is_trivia_run(w.skip(j)),
                None => false,
            },
        }
    }
}

/// The skipper consumes a whole trivia run and then continues in whatever
/// follows it.
proof fn lemma_trivia_run_consumed(w: Seq<char>, t: Seq<char>, k: int)
    requires
        0 <= k <= w.len(),
        is_trivia_run(w.skip(k)),
    ensures
        trivia_end(w + t, k) == w.len() + trivia_end(t, 0),
    decreases w.len() - k,
{
    let wk = w.skip(k);
    if k == w.len() {
        lemma_trivia_end_shift(w, t, 0);
        assert(trivia_end(w + t, w.len() + 0int) == w.len() + trivia_end(t, 0));
    } else if is_sep_char(wk[0]) {
        assert((w + t)[k] == w[k] && w[k] == wk[0]);
        assert(wk.skip(1) =~= w.skip(k + 1));
        lemma_trivia_run_consumed(w, t, k + 1);
    } else {
        match block_comment_end(wk, 0) {
            Some(j) => {
                lemma_find_pair_prefix(wk, t, 2, '*', '/');
                assert((wk + t)[0] == wk[0] && (wk + t)[1] == wk[1]);
                assert(block_comment_end(wk + t, 0) == Some(j));
                assert(w + t =~= w.take(k) + (wk + t));
                lemma_find_pair_shift(w.take(k), wk + t, 2, '*', '/');
                assert((w + t)[k] == wk[0] && (w + t)[k + 1] == wk[1]);
                assert(block_comment_end(w + t, k) == Some(k + j));
                assert(wk.skip(j) =~= w.skip(k + j));
                lemma_trivia_run_consumed(w, t, k + j);
            },
            None => {
                match line_comment_end(wk, 0) {
                    Some(j) => {
                        lemma_find_char_prefix(wk, t, 2, '\n');
                        assert((wk + t)[0] == wk[0] && (wk + t)[1] == wk[1]);
                        assert(line_comment_end(wk + t, 0) == Some(j));
                        assert(w + t =~= w.take(k) + (wk + t));
                        lemma_find_char_shift(w.take(k), wk + t, 2, '\n');
                        lemma_find_pair_shift(w.take(k), wk + t, 2, '*', '/');
                        assert((w + t)[k] == wk[0] && (w + t)[k + 1] == wk[1]);
                        assert(block_comment_end(w + t, k) is None);
                        assert(line_comment_end(w + t, k) == Some(k + j));
                        assert(wk.skip(j) =~= w.skip(k + j));
                        lemma_trivia_run_consumed(w, t, k + j);
                    },
                    None => {},
                }
            },
        }
    }
}

/// Separator and comment transparency: inserting a trivia run — extra runs
/// of spaces, tabs, carriage returns, newlines and commas, and well-formed
/// line or block comments — at any position moves the point where scanning
/// resumes by exactly the inserted length. The surrounding text is scanned
/// as before, so tokenization around the insertion is unchanged.
pub proof fn lemma_trivia_insertion(t: Seq<char>, i: int, w: Seq<char>)
    requires
        0 <= i <= t.len(),
        is_trivia_run(w),
    ensures
        trivia_end(t.take(i) + w + t.skip(i), i) == trivia_end(t, i) + w.len(),
{
    let a = t.take(i);
    let t2 = t.skip(i);
    assert(w.skip(0) =~= w);
    lemma_trivia_run_consumed(w, t2, 0);
    lemma_trivia_end_shift(a, w + t2, 0);
    assert(t.take(i) + w + t.skip(i) =~= a + (w + t2));
    assert(a + t2 =~= t);
    lemma_trivia_end_shift(a, t2, 0);
}

/// Separator idempotence: a run made only of separator characters is a
/// trivia run, so inserting it anywhere the skipper runs leaves the
/// surrounding scan unchanged.
pub proof fn lemma_separator_run_is_trivia(w: Seq<char>)
    requires
        forall|m: int| 0 <= m < w.len() ==> is_sep_char(#[trigger] w[m]),
    ensures
        is_trivia_run(w),
    decreases w.len(),
{
    if w.len() > 0 {
        assert forall|m: int| 0 <= m < w.skip(1).len() implies is_sep_char(
            #[trigger] w.skip(1)[m],
        ) by {
            assert(w.skip(1)[m] == w[m + 1]);
        }
        lemma_separator_run_is_trivia(w.skip(1));
    }
}

/// Comment transparency: one well-formed line or block comment is a trivia
/// run, so inserting it anywhere the skipper runs leaves the surrounding
/// scan unchanged.
pub proof fn lemma_comment_is_trivia(w: Seq<char>)
    requires
        block_comment_end(w, 0) == Some(w.len() as int) || line_comment_end(w, 0) == Some(
            w.len() as int,
        ),
    ensures
        is_trivia_run(w),
{
    assert(is_trivia_run(Seq::<char>::empty()));
    assert(w.skip(w.len() as int) =~= Seq::<char>::empty());
    if block_comment_end(w, 0) == Some(w.len() as int) {
        assert(w[0] == '/' && w[1] == '*');
    } else {
        assert(w[0] == '/' && w[1] == '/');
        assert(block_comment_end(w, 0) is None);
    }
}

/// Separator idempotence: inserting an extra run of spaces, tabs, carriage
/// returns, newlines or commas at any position where the skipper runs moves
/// the point where scanning resumes by exactly the inserted length, so the
/// tokens around the insertion are scanned as before.
pub proof fn lemma_separator_insertion(t: Seq<char>, i: int, w: Seq<char>)
    requires
        0 <= i <= t.len(),
        forall|m: int| 0 <= m < w.len() ==> is_sep_char(#[trigger] w[m]),
    ensures
        trivia_end(t.take(i) + w + t.skip(i), i) == trivia_end(t, i) + w.len(),
{
    lemma_separator_run_is_trivia(w);
    lemma_trivia_insertion(t, i, w);
}

/// Comment transparency: inserting one well-formed line or block comment at
/// any position where the skipper runs moves the point where scanning
/// resumes by exactly the inserted length, so the tokens around the
/// insertion are scanned as before.
pub proof fn lemma_comment_insertion(t: Seq<char>, i: int, w: Seq<char>)
    requires
        0 <= i <= t.len(),
        block_comment_end(w, 0) == Some(w.len() as int) || line_comment_end(w, 0) == Some(
            w.len() as int,
        ),
    ensures
        trivia_end(t.take(i) + w + t.skip(i), i) == trivia_end(t, i) + w.len(),
{
    lemma_comment_is_trivia(w);
    lemma_trivia_insertion(t, i, w);
}

/// A digit-and-underscore run stays within the text, and every character in
/// it is a digit or an underscore.
pub proof fn lemma_num_run_end_bounds(text: Seq<char>, i: int)
    requires
        0 <= i <= text.len(),
    ensures
        i <= num_run_end(text, i) <= text.len(),
        forall|k: int| i <= k < num_run_end(text, i) ==> is_num_char(#[trigger] text[k]),
    decreases text.len() - i,
{
    if i < text.len() && is_num_char(text[i]) {
        lemma_num_run_end_bounds(text, i + 1);
    }
}


/// An integer literal consumes at least one character and stays within the
/// text.
pub proof fn lemma_int_end_bounds(text: Seq<char>, i: int)
    requires
        0 <= i <= text.len(),
    ensures
        match int_end(text, i) {
            Some(e) => i < e <= text.len(),
            None => true,
        },
{
    let s = if 0 <= i < text.len() && text[i] == '-' {
        i + 1
    } else {
        i
    };
    if 0 <= s < text.len() && is_digit(text[s]) {
        lemma_num_run_end_bounds(text, s + 1);
    }
}

/// An exponent part consumes at least one character and stays within the
/// text.
pub proof fn lemma_exp_end_bounds(text: Seq<char>, i: int)
    requires
        0 <= i <= text.len(),
    ensures
        match exp_end(text, i) {
            Some(e) => i < e <= text.len(),
            None => true,
        },
{
    if 0 <= i < text.len() && (text[i] == 'e' || text[i] == 'E') {
        let s = if i + 1 < text.len() && (text[i + 1] == '+' || text[i + 1] == '-') {
            i + 2
        } else {
            i + 1
        };
        lemma_int_end_bounds(text, s);
    }
}

/// A float literal consumes at least one character and stays within the
/// text.
pub proof fn lemma_float_end_bounds(text: Seq<char>, i: int)
    requires
        0 <= i <= text.len(),
    ensures
        match float_end(text, i) {
            Some(e) => i < e <= text.len(),
            None => true,
        },
{
    lemma_int_end_bounds(text, i);
    if 0 <= i < text.len() && text[i] == '.' {
        lemma_int_end_bounds(text, i + 1);
        match comp_end(text, i + 1) {
            Some(j) => {
                lemma_exp_end_bounds(text, j);
            },
            None => {},
        }
    } else {
        match comp_end(text, i) {
            Some(j) => {
                if j < text.len() {
                    lemma_int_end_bounds(text, j + 1);
                }
                let j2 = if j < text.len() && text[j] == '.' && comp_end(text, j + 1) is Some {
                    comp_end(text, j + 1)->0
                } else {
                    j
                };
                lemma_exp_end_bounds(text, j2);
            },
            None => {},
        }
    }
}

/// A string body runs forward and stays within the text.
pub proof fn lemma_str_body_bounds(text: Seq<char>, i: int, escp: bool)
    ensures
        match str_body(text, i, escp) {
            Some((s, e)) => i < e <= text.len(),
            None => true,
        },
    decreases text.len() - i,
{
    if 0 <= i < text.len() {
        let c = text[i];
        if c == '\\' && !escp {
            lemma_str_body_bounds(text, i + 1, true);
        } else if c == '"' && !escp {
        } else {
            let escp2 = if is_rust_whitespace(c) {
                escp
            } else {
                false
            };
            lemma_str_body_bounds(text, i + 1, escp2);
        }
    }
}


/// Skipping trivia never moves backwards and never leaves the text.
pub proof fn lemma_trivia_end_bounds(text: Seq<char>, i: int)
    requires
        0 <= i <= text.len(),
    ensures
        i <= trivia_end(text, i) <= text.len(),
    decreases text.len() - i,
{
    if i < text.len() && is_sep_char(text[i]) {
        lemma_trivia_end_bounds(text, i + 1);
    } else {
        match block_comment_end(text, i) {
            Some(j) => {
                if i < j <= text.len() {
                    lemma_trivia_end_bounds(text, j);
                }
            },
            None => {
                match line_comment_end(text, i) {
                    Some(j) => {
                        if i < j <= text.len() {
                            lemma_trivia_end_bounds(text, j);
                        }
                    },
                    None => {},
                }
            },
        }
    }
}

/// Skipping trivia is idempotent: after the skipper has run, no separator and
/// no well-formed comment starts at the position it left.
pub proof fn lemma_trivia_end_idempotent(text: Seq<char>, i: int)
    requires
        0 <= i <= text.len(),
    ensures
        trivia_end(text, trivia_end(text, i)) == trivia_end(text, i),
    decreases text.len() - i,
{
    lemma_trivia_end_bounds(text, i);
    if i < text.len() && is_sep_char(text[i]) {
        lemma_trivia_end_idempotent(text, i + 1);
    } else {
        match block_comment_end(text, i) {
            Some(j) => {
                if i < j <= text.len() {
                    lemma_trivia_end_idempotent(text, j);
                }
            },
            None => {
                match line_comment_end(text, i) {
                    Some(j) => {
                        if i < j <= text.len() {
                            lemma_trivia_end_idempotent(text, j);
                        }
                    },
                    None => {},
                }
            },
        }
    }
}

} // verus!
