//! The decode engine: the cursor, the token-level parse operations, the
//! root-shape prober, the shape dispatcher, and the positional error
//! reporter.

use vstd::prelude::*;

use crate::grammar;
use crate::parsing;
use crate::structs::LiteralModel;
use crate::structs::NumberModel;
use crate::structs::Value;
use crate::structs::ValueModel;
use crate::structs::upsert;

verus! {

broadcast use vstd::std_specs::vec::group_vec_axioms;

/// The abstract state of a cursor: its position in the source, and the
/// virtual open and close delimiters that the root-shape prober may install.
pub struct St {
    pub pos: int,
    pub pre: Option<char>,
    pub post: Option<char>,
}

/// A parse error, carrying the position of the failure as a line, a column,
/// and the text of the offending source line.
#[derive(Debug)]
pub struct JaclDeError {
    col: usize,
    line: usize,
    line_str: String,
}

/// What a well-formed error says of the failure position `pos` in `text`.
pub open spec fn err_matches(e: JaclDeError, text: Seq<char>, pos: int) -> bool {
    &&& e.line_spec() == grammar::line_of(text, pos)
    &&& e.col_spec() == grammar::col_of(text, pos)
    &&& e.line_str_spec() == grammar::line_text(text, pos)
}

/// A cursor over one document: the full source text, the current position,
/// and the optional virtual delimiters around an un-bracketed top-level
/// document. The position only ever moves forward; a virtual delimiter, once
/// consumed, never reappears.
pub struct Deserializer {
    text: Vec<char>,
    pos: usize,
    pre: Option<char>,
    post: Option<char>,
}

/// Relies on str::chars: the characters of a string, in order. A string's
/// byte length is at most isize::MAX, and it has no more characters than
/// bytes.
#[verifier::external_body]
fn str_chars(s: &str) -> (v: Vec<char>)
    ensures
        v@ == s@,
        v@.len() <= usize::MAX / 2,
{
    s.chars().collect()
}

impl Deserializer {
    /// The source text under the cursor.
    pub closed spec fn src(&self) -> Seq<char> {
        self.text@
    }

    /// The cursor's abstract state.
    pub closed spec fn st(&self) -> St {
        St { pos: self.pos as int, pre: self.pre, post: self.post }
    }

    /// The cursor stays within its text.
    pub closed spec fn inv(&self) -> bool {
        self.pos <= self.text@.len() && self.text@.len() <= usize::MAX / 2
    }

    /// A well-formed cursor sits inside its text.
    pub proof fn lemma_in_bounds(&self)
        requires
            self.inv(),
        ensures
            0 <= self.st().pos <= self.src().len(),
    {
    }

    /// A cursor over `data` with the given virtual delimiters.
    pub fn new(pre: Option<char>, data: &str, post: Option<char>) -> (d: Self)
        ensures
            d.inv(),
            d.src() == data@,
            d.st() == (St { pos: 0, pre, post }),
    {
        Deserializer { text: str_chars(data), pos: 0, pre, post }
    }
}

impl JaclDeError {
    /// The one-based line of the failure.
    pub closed spec fn line_spec(&self) -> int {
        self.line as int
    }

    /// The zero-based column of the failure.
    pub closed spec fn col_spec(&self) -> int {
        self.col as int
    }

    /// The text of the line holding the failure.
    pub closed spec fn line_str_spec(&self) -> Seq<char> {
        self.line_str@
    }

    /// Reports the cursor's current position: the error's line counts the
    /// newlines before the position, its column the characters since the
    /// last newline, and its text is the full source line around it.
    pub fn new(d: &Deserializer) -> (e: Self)
        requires
            d.inv(),
        ensures
            err_matches(e, d.src(), d.st().pos),
    {
        let text = &d.text;
        let pos = d.pos;
        let mut curr: usize = 0;
        let mut col: usize = 0;
        let mut line: usize = 1;
        while curr < pos
            invariant
                curr <= pos <= text@.len() <= usize::MAX / 2,
                line == grammar::line_of(text@, curr as int),
                col == grammar::col_of(text@, curr as int),
                line <= curr + 1,
                col <= curr,
            decreases pos - curr,
        {
            proof {
                lemma_line_start_bounds(text@, curr + 1);
            }
            if text[curr] == '\n' {
                line = line + 1;
                col = 0;
            } else {
                col = col + 1;
            }
            curr = curr + 1;
        }
        proof {
            lemma_line_start_bounds(text@, pos as int);
        }
        let ls: usize = pos - col;
        let le: usize = match parsing::comment::find_char(text, ls, '\n') {
            Some(j) => j + 1,
            None => text.len(),
        };
        let mut buf: Vec<char> = Vec::new();
        let mut p: usize = ls;
        while p < le
            invariant
                ls <= p <= le <= text@.len(),
                buf@ == text@.subrange(ls as int, p as int),
            decreases le - p,
        {
            buf.push(text[p]);
            proof {
                assert(buf@ =~= text@.subrange(ls as int, p + 1));
            }
            p = p + 1;
        }
        let line_str = parsing::string::string_from_chars(buf);
        JaclDeError { col, line, line_str }
    }

    /// The one-based line of the failure.
    pub fn line(&self) -> (r: usize)
        ensures
            r == self.line_spec(),
    {
        self.line
    }

    /// The zero-based column of the failure.
    pub fn col(&self) -> (r: usize)
        ensures
            r == self.col_spec(),
    {
        self.col
    }

    /// The text of the line holding the failure.
    pub fn line_str(&self) -> (r: &String)
        ensures
            r@ == self.line_str_spec(),
    {
        &self.line_str
    }

    /// The caret marker under the offending line: one dash per column, then
    /// a caret.
    pub fn marker(&self) -> (r: String)
        ensures
            r@.len() == self.col_spec() + 1,
            forall|k: int| 0 <= k < self.col_spec() ==> r@[k] == '-',
            r@[self.col_spec()] == '^',
    {
        let mut buf: Vec<char> = Vec::new();
        let mut k: usize = 0;
        while k < self.col
            invariant
                k <= self.col,
                buf@.len() == k,
                forall|j: int| 0 <= j < k ==> buf@[j] == '-',
            decreases self.col - k,
        {
            buf.push('-');
            k = k + 1;
        }
        buf.push('^');
        parsing::string::string_from_chars(buf)
    }
}

/// The next significant character: the virtual open delimiter when it is
/// still pending, else the character under the cursor, else the virtual
/// close delimiter.
pub open spec fn peek(src: Seq<char>, st: St) -> Option<char> {
    match st.pre {
        Some(c) => Some(c),
        None => if st.pos < src.len() {
            Some(src[st.pos])
        } else {
            st.post
        },
    }
}

/// One delimiter parse step: a pending virtual open delimiter is consumed
/// first and without skipping; otherwise separators and comments are
/// skipped, and at end of input the virtual close delimiter is consumed if
/// one is pending. The error case carries the failure position.
pub open spec fn delim_step(src: Seq<char>, st: St) -> Result<(char, St), int> {
    match st.pre {
        Some(c) => Ok((c, St { pre: None, ..st })),
        None => {
            let q = grammar::trivia_end(src, st.pos);
            if q == src.len() {
                match st.post {
                    Some(c) => Ok((c, St { pos: q, pre: None, post: None })),
                    None => Err(q),
                }
            } else if grammar::is_delim_char(src[q]) {
                Ok(
                    (
                        src[q],
                        St { pos: grammar::trivia_end(src, q + 1), pre: None, post: st.post },
                    ),
                )
            } else {
                Err(q)
            }
        },
    }
}

impl Deserializer {
    /// Consumes the run of separators and comments at the cursor.
    fn skip_non_tokens(&mut self)
        requires
            old(self).inv(),
            old(self).st().pre is None,
        ensures
            final(self).inv(),
            final(self).src() == old(self).src(),
            final(self).st() == (St {
                pos: grammar::trivia_end(old(self).src(), old(self).st().pos),
                ..old(self).st()
            }),
            final(self).st().pos >= old(self).st().pos,
    {
        self.pos = parsing::skip_trivia(&self.text, self.pos);
    }

    /// Parses the literal `null`, with separators and comments skipped on
    /// both sides.
    pub fn parse_null(&mut self) -> (r: Result<(), JaclDeError>)
        requires
            old(self).inv(),
            old(self).st().pre is None,
        ensures
            final(self).inv(),
            final(self).src() == old(self).src(),
            final(self).st().pre == old(self).st().pre,
            final(self).st().post == old(self).st().post,
            final(self).st().pos >= old(self).st().pos,
            r is Ok ==> final(self).st().pos > old(self).st().pos,
            ({
                let q = grammar::trivia_end(old(self).src(), old(self).st().pos);
                match r {
                    Ok(_) => grammar::null_end(final(self).src(), q) is Some && final(self).st().pos
                        == grammar::trivia_end(final(self).src(), grammar::null_end(final(self).src(), q).unwrap()),
                    Err(e) => grammar::null_end(final(self).src(), q) is None && final(self).st().pos == q
                        && err_matches(e, final(self).src(), q),
                }
            }),
    {
        self.skip_non_tokens();
        match parsing::literal::null(&self.text, self.pos) {
            Some(e) => {
                self.pos = e;
                self.skip_non_tokens();
                Ok(())
            },
            None => Err(JaclDeError::new(self)),
        }
    }

    /// Parses a boolean literal, with separators and comments skipped on
    /// both sides.
    pub fn parse_bool(&mut self) -> (r: Result<bool, JaclDeError>)
        requires
            old(self).inv(),
            old(self).st().pre is None,
        ensures
            final(self).inv(),
            final(self).src() == old(self).src(),
            final(self).st().pre == old(self).st().pre,
            final(self).st().post == old(self).st().post,
            final(self).st().pos >= old(self).st().pos,
            r is Ok ==> final(self).st().pos > old(self).st().pos,
            ({
                let q = grammar::trivia_end(old(self).src(), old(self).st().pos);
                match r {
                    Ok(b) => grammar::bool_end(final(self).src(), q) == Some(
                        (b, grammar::bool_end(final(self).src(), q).unwrap().1),
                    ) && final(self).st().pos == grammar::trivia_end(
                        final(self).src(),
                        grammar::bool_end(final(self).src(), q).unwrap().1,
                    ),
                    Err(e) => grammar::bool_end(final(self).src(), q) is None && final(self).st().pos == q
                        && err_matches(e, final(self).src(), q),
                }
            }),
    {
        self.skip_non_tokens();
        match parsing::literal::boolean(&self.text, self.pos) {
            Some((b, e)) => {
                self.pos = e;
                self.skip_non_tokens();
                Ok(b)
            },
            None => Err(JaclDeError::new(self)),
        }
    }

    /// Parses an integer literal, with separators and comments skipped on
    /// both sides. A literal whose value does not fit 64 signed bits is a
    /// parse error.
    pub fn parse_int(&mut self) -> (r: Result<i64, JaclDeError>)
        requires
            old(self).inv(),
            old(self).st().pre is None,
        ensures
            final(self).inv(),
            final(self).src() == old(self).src(),
            final(self).st().pre == old(self).st().pre,
            final(self).st().post == old(self).st().post,
            final(self).st().pos >= old(self).st().pos,
            r is Ok ==> final(self).st().pos > old(self).st().pos,
            ({
                let q = grammar::trivia_end(old(self).src(), old(self).st().pos);
                match r {
                    Ok(v) => grammar::int_token(final(self).src(), q) is Some && grammar::int_token(
                        final(self).src(),
                        q,
                    ).unwrap().0 == v as int && final(self).st().pos == grammar::trivia_end(
                        final(self).src(),
                        grammar::int_token(final(self).src(), q).unwrap().1,
                    ),
                    Err(e) => grammar::int_token(final(self).src(), q) is None && final(self).st().pos == q
                        && err_matches(e, final(self).src(), q),
                }
            }),
    {
        self.skip_non_tokens();
        match parsing::literal::integer(&self.text, self.pos) {
            Some((v, e)) => {
                self.pos = e;
                self.skip_non_tokens();
                Ok(v)
            },
            None => Err(JaclDeError::new(self)),
        }
    }

    /// Parses a float literal and yields its source text, with separators
    /// and comments skipped on both sides. The engine never interprets the
    /// lexeme numerically.
    pub fn parse_float(&mut self) -> (r: Result<String, JaclDeError>)
        requires
            old(self).inv(),
            old(self).st().pre is None,
        ensures
            final(self).inv(),
            final(self).src() == old(self).src(),
            final(self).st().pre == old(self).st().pre,
            final(self).st().post == old(self).st().post,
            final(self).st().pos >= old(self).st().pos,
            r is Ok ==> final(self).st().pos > old(self).st().pos,
            ({
                let q = grammar::trivia_end(old(self).src(), old(self).st().pos);
                match r {
                    Ok(s) => grammar::float_token(final(self).src(), q) is Some && s@ == final(self).src()
                        .subrange(q, grammar::float_token(final(self).src(), q).unwrap()) && final(self).st().pos
                        == grammar::trivia_end(
                        final(self).src(),
                        grammar::float_token(final(self).src(), q).unwrap(),
                    ),
                    Err(e) => grammar::float_token(final(self).src(), q) is None && final(self).st().pos == q
                        && err_matches(e, final(self).src(), q),
                }
            }),
    {
        self.skip_non_tokens();
        match parsing::literal::float(&self.text, self.pos) {
            Some(e) => {
                let lexeme = parsing::copy_range(&self.text, self.pos, e);
                self.pos = e;
                self.skip_non_tokens();
                Ok(parsing::string::string_from_chars(lexeme))
            },
            None => Err(JaclDeError::new(self)),
        }
    }

    /// Parses a string literal, with separators and comments skipped on both
    /// sides. The scan runs to the first unescaped closing quote; the
    /// collected content is then unescaped. Either failure — no string here,
    /// or content that does not unescape — is a parse error at the string's
    /// start. A literal whose body holds only safe characters and raw line
    /// breaks decodes to that body verbatim, line breaks included: the
    /// string multi-line round trip.
    pub fn parse_string(&mut self) -> (r: Result<String, JaclDeError>)
        requires
            old(self).inv(),
            old(self).st().pre is None,
        ensures
            final(self).inv(),
            final(self).src() == old(self).src(),
            final(self).st().pre == old(self).st().pre,
            final(self).st().post == old(self).st().post,
            final(self).st().pos >= old(self).st().pos,
            r is Ok ==> final(self).st().pos > old(self).st().pos,
            ({
                let q = grammar::trivia_end(old(self).src(), old(self).st().pos);
                match r {
                    Ok(s) => {
                        let tok_end = grammar::string_token(final(self).src(), q).unwrap().1;
                        &&& grammar::string_token(final(self).src(), q) is Some
                        &&& s@ == grammar::string_token(final(self).src(), q).unwrap().0
                        &&& final(self).st().pos == grammar::trivia_end(final(self).src(), tok_end)
                        &&& (forall|k: int|
                            q + 1 <= k < tok_end - 1 ==> grammar::is_safe_char(
                                #[trigger] final(self).src()[k],
                            ) || final(self).src()[k] == '\n' || final(self).src()[k] == '\r')
                            ==> s@ == final(self).src().subrange(q + 1, tok_end - 1)
                    },
                    Err(e) => grammar::string_token(final(self).src(), q) is None && final(self).st().pos == q
                        && err_matches(e, final(self).src(), q),
                }
            }),
    {
        self.skip_non_tokens();
        match parsing::string::string(&self.text, self.pos) {
            Some((s, e)) => {
                self.pos = e;
                self.skip_non_tokens();
                Ok(s)
            },
            None => Err(JaclDeError::new(self)),
        }
    }

    /// Parses an identifier, with separators and comments skipped on both
    /// sides.
    pub fn parse_identifier(&mut self) -> (r: Result<String, JaclDeError>)
        requires
            old(self).inv(),
            old(self).st().pre is None,
        ensures
            final(self).inv(),
            final(self).src() == old(self).src(),
            final(self).st().pre == old(self).st().pre,
            final(self).st().post == old(self).st().post,
            final(self).st().pos >= old(self).st().pos,
            r is Ok ==> final(self).st().pos > old(self).st().pos,
            ({
                let q = grammar::trivia_end(old(self).src(), old(self).st().pos);
                match r {
                    Ok(s) => grammar::ident_end(final(self).src(), q) is Some && s@ == final(self).src()
                        .subrange(q, grammar::ident_end(final(self).src(), q).unwrap()) && final(self).st().pos
                        == grammar::trivia_end(
                        final(self).src(),
                        grammar::ident_end(final(self).src(), q).unwrap(),
                    ),
                    Err(e) => grammar::ident_end(final(self).src(), q) is None && final(self).st().pos == q
                        && err_matches(e, final(self).src(), q),
                }
            }),
    {
        self.skip_non_tokens();
        match parsing::identifier(&self.text, self.pos) {
            Some(e) => {
                let name = parsing::copy_range(&self.text, self.pos, e);
                self.pos = e;
                self.skip_non_tokens();
                Ok(parsing::string::string_from_chars(name))
            },
            None => Err(JaclDeError::new(self)),
        }
    }

    /// Parses one delimiter. A pending virtual open delimiter is consumed
    /// first; at end of input the virtual close delimiter is consumed if one
    /// is pending.
    pub fn parse_delim(&mut self) -> (r: Result<char, JaclDeError>)
        requires
            old(self).inv(),
        ensures
            final(self).inv(),
            final(self).src() == old(self).src(),
            final(self).st().pos >= old(self).st().pos,
            match r {
                Ok(c) => delim_step(old(self).src(), old(self).st()) == Ok::<(char, St), int>(
                    (c, final(self).st()),
                ),
                Err(e) => {
                    &&& delim_step(old(self).src(), old(self).st()) == Err::<(char, St), int>(
                        final(self).st().pos,
                    )
                    &&& final(self).st().pre == old(self).st().pre
                    &&& final(self).st().post == old(self).st().post
                    &&& err_matches(e, final(self).src(), final(self).st().pos)
                },
            },
    {
        if let Some(c) = self.pre {
            self.pre = None;
            return Ok(c);
        }
        self.skip_non_tokens();
        if self.pos == self.text.len() {
            match self.post {
                Some(c) => {
                    self.post = None;
                    Ok(c)
                },
                None => Err(JaclDeError::new(self)),
            }
        } else {
            match parsing::delimiter(&self.text, self.pos) {
                Some(c) => {
                    self.pos = self.pos + 1;
                    self.skip_non_tokens();
                    Ok(c)
                },
                None => Err(JaclDeError::new(self)),
            }
        }
    }

    /// The next significant character, without consuming anything: the
    /// pending virtual open delimiter, the character under the cursor, or
    /// the pending virtual close delimiter.
    pub fn next_char(&self) -> (r: Result<char, JaclDeError>)
        requires
            self.inv(),
        ensures
            match r {
                Ok(c) => peek(self.src(), self.st()) == Some(c),
                Err(e) => peek(self.src(), self.st()) is None && err_matches(
                    e,
                    self.src(),
                    self.st().pos,
                ),
            },
    {
        if let Some(c) = self.pre {
            return Ok(c);
        }
        if self.pos < self.text.len() {
            return Ok(self.text[self.pos]);
        }
        if let Some(c) = self.post {
            return Ok(c);
        }
        Err(JaclDeError::new(self))
    }

    /// Tries to parse one literal, in the fixed order boolean, float,
    /// integer, string, null. On success the cursor stands just past the
    /// literal and its trailing separators; on failure it stands at the
    /// first significant character.
    pub fn try_parse_literal(&mut self) -> (r: bool)
        requires
            old(self).inv(),
            old(self).st().pre is None,
        ensures
            final(self).inv(),
            final(self).src() == old(self).src(),
            final(self).st().pre == old(self).st().pre,
            final(self).st().post == old(self).st().post,
            final(self).st().pos >= old(self).st().pos,
            ({
                let q = grammar::trivia_end(old(self).src(), old(self).st().pos);
                &&& r == (grammar::literal_end(final(self).src(), q) is Some)
                &&& r ==> final(self).st().pos == grammar::trivia_end(
                    final(self).src(),
                    grammar::literal_end(final(self).src(), q).unwrap(),
                )
                &&& !r ==> final(self).st().pos == q
            }),
    {
        if let Ok(_) = self.parse_bool() {
            return true;
        }
        proof {
            grammar::lemma_trivia_end_bounds(self.src(), old(self).st().pos);
            grammar::lemma_trivia_end_idempotent(self.src(), old(self).st().pos);
        }
        if let Ok(_) = self.parse_float() {
            return true;
        }
        if let Ok(_) = self.parse_int() {
            return true;
        }
        if let Ok(_) = self.parse_string() {
            return true;
        }
        if let Ok(_) = self.parse_null() {
            return true;
        }
        false
    }
}

/// The kind of a keyed container frame: it governs how keys are parsed and
/// which delimiter closes the body. A record (struct) frame uses parentheses
/// and identifier keys; a mapping frame uses braces and string keys. A
/// decoded value carries the record frame's struct flavor only when the
/// frame's parenthesis is written in the source; a virtual one, installed by
/// the root-shape prober, materializes as the map flavor.
#[derive(Clone, Copy, PartialEq, Eq, Structural)]
pub enum FrameKind {
    Record,
    Mapping,
}

impl FrameKind {
    /// The character that terminates this kind of frame.
    pub open spec fn closer_spec(self) -> char {
        match self {
            FrameKind::Record => ')',
            FrameKind::Mapping => '}',
        }
    }

    /// The character that terminates this kind of frame.
    pub fn closer(self) -> (c: char)
        ensures
            c == self.closer_spec(),
    {
        match self {
            FrameKind::Record => ')',
            FrameKind::Mapping => '}',
        }
    }

    /// A record frame reports a fixed known arity of zero; a mapping frame
    /// reports none. This is the signal a schema-less consumer reads to tell
    /// the two flavors apart.
    pub fn known_arity(self) -> (r: Option<usize>)
        ensures
            r == (match self {
                FrameKind::Record => Some(0usize),
                FrameKind::Mapping => None::<usize>,
            }),
    {
        match self {
            FrameKind::Record => Some(0),
            FrameKind::Mapping => None,
        }
    }
}

/// One decode outcome: a value model and the state after it, or the failure
/// position.
pub type AnyOut = Result<(ValueModel, St), int>;

/// One sequence-body outcome.
pub type ItemsOut = Result<(Seq<ValueModel>, St), int>;

/// One keyed-body outcome.
pub type EntriesOut = Result<(Seq<(Seq<char>, ValueModel)>, St), int>;

/// The state a decode step starts from: separators and comments are skipped
/// unless a virtual open delimiter is still pending.
pub open spec fn norm(src: Seq<char>, st: St) -> St {
    if st.pre is None {
        St { pos: grammar::trivia_end(src, st.pos), ..st }
    } else {
        st
    }
}

/// One key parse at position `q`: a string token for a mapping frame, an
/// identifier for a record frame. Yields the key and the position just past
/// it.
pub open spec fn key_token(src: Seq<char>, kind: FrameKind, q: int) -> Option<(Seq<char>, int)> {
    match kind {
        FrameKind::Mapping => grammar::string_token(src, q),
        FrameKind::Record => match grammar::ident_end(src, q) {
            Some(e) => Some((src.subrange(q, e), e)),
            None => None,
        },
    }
}

/// The shape-free decode relation, as a function of a fuel bound: `None`
/// means the fuel ran out before the decode was decided. Dispatch reads one
/// significant character: `n` demands the null literal, `t`/`f` a boolean,
/// `"` a string, a digit or minus sign a number (a following dot after the
/// integer part selects a float), and an opening bracket one of the three
/// container forms; anything else is an error at that position. A
/// parenthesis frame always parses identifier keys, but it carries the
/// struct flavor only when its parenthesis is written in the source: a bare
/// field list, whose parenthesis the root-shape prober installed virtually,
/// materializes as the map flavor.
pub open spec fn sp_any(src: Seq<char>, st: St, fuel: nat) -> Option<AnyOut>
    decreases fuel,
{
    if fuel == 0 {
        None
    } else {
        let st1 = norm(src, st);
        match peek(src, st1) {
            None => Some(Err(st1.pos)),
            Some(c) => if c == 'n' {
                match grammar::null_end(src, st1.pos) {
                    Some(e) => Some(
                        Ok(
                            (
                                ValueModel::Literal(LiteralModel::Null),
                                St { pos: grammar::trivia_end(src, e), ..st1 },
                            ),
                        ),
                    ),
                    None => Some(Err(st1.pos)),
                }
            } else if c == 't' || c == 'f' {
                match grammar::bool_end(src, st1.pos) {
                    Some((b, e)) => Some(
                        Ok(
                            (
                                ValueModel::Literal(LiteralModel::Bool(b)),
                                St { pos: grammar::trivia_end(src, e), ..st1 },
                            ),
                        ),
                    ),
                    None => Some(Err(st1.pos)),
                }
            } else if c == '"' {
                match grammar::string_token(src, st1.pos) {
                    Some((s, e)) => Some(
                        Ok(
                            (
                                ValueModel::Literal(LiteralModel::Str(s)),
                                St { pos: grammar::trivia_end(src, e), ..st1 },
                            ),
                        ),
                    ),
                    None => Some(Err(st1.pos)),
                }
            } else if c == '-' || grammar::is_digit(c) {
                match grammar::int_token(src, st1.pos) {
                    None => Some(Err(st1.pos)),
                    Some((v, e)) => if e < src.len() && src[e] == '.' {
                        match grammar::float_token(src, st1.pos) {
                            Some(fe) => Some(
                                Ok(
                                    (
                                        ValueModel::Literal(
                                            LiteralModel::Number(
                                                NumberModel::Flt(src.subrange(st1.pos, fe)),
                                            ),
                                        ),
                                        St { pos: grammar::trivia_end(src, fe), ..st1 },
                                    ),
                                ),
                            ),
                            None => Some(Err(st1.pos)),
                        }
                    } else {
                        Some(
                            Ok(
                                (
                                    ValueModel::Literal(
                                        LiteralModel::Number(NumberModel::Int(v as i64)),
                                    ),
                                    St { pos: grammar::trivia_end(src, e), ..st1 },
                                ),
                            ),
                        )
                    },
                }
            } else if c == '[' {
                match delim_step(src, st1) {
                    Ok((c2, st2)) => if c2 == '[' {
                        match sp_items(src, st2, Seq::empty(), (fuel - 1) as nat) {
                            None => None,
                            Some(Ok((items, st3))) => Some(
                                Ok((ValueModel::Sequence(items), st3)),
                            ),
                            Some(Err(p)) => Some(Err(p)),
                        }
                    } else {
                        Some(Err(st2.pos))
                    },
                    Err(p) => Some(Err(p)),
                }
            } else if c == '{' {
                match delim_step(src, st1) {
                    Ok((c2, st2)) => if c2 == '{' {
                        match sp_entries(src, FrameKind::Mapping, st2, Seq::empty(), (fuel - 1) as nat) {
                            None => None,
                            Some(Ok((entries, st3))) => Some(
                                Ok((ValueModel::Mapping(entries), st3)),
                            ),
                            Some(Err(p)) => Some(Err(p)),
                        }
                    } else {
                        Some(Err(st2.pos))
                    },
                    Err(p) => Some(Err(p)),
                }
            } else if c == '(' {
                match delim_step(src, st1) {
                    Ok((c2, st2)) => if c2 == '(' {
                        match sp_entries(src, FrameKind::Record, st2, Seq::empty(), (fuel - 1) as nat) {
                            None => None,
                            Some(Ok((entries, st3))) => Some(
                                Ok(
                                    (
                                        if st1.pre is Some {
                                            ValueModel::Mapping(entries)
                                        } else {
                                            ValueModel::Record(entries)
                                        },
                                        st3,
                                    ),
                                ),
                            ),
                            Some(Err(p)) => Some(Err(p)),
                        }
                    } else {
                        Some(Err(st2.pos))
                    },
                    Err(p) => Some(Err(p)),
                }
            } else {
                Some(Err(st1.pos))
            },
        }
    }
}

/// The sequence-body decode relation: before each element the next
/// significant character is peeked; a closing bracket ends the body, and
/// anything else must decode as one element. `acc` carries the elements
/// already decoded.
pub open spec fn sp_items(src: Seq<char>, st: St, acc: Seq<ValueModel>, fuel: nat) -> Option<
    ItemsOut,
>
    decreases fuel,
{
    if fuel == 0 {
        None
    } else {
        match peek(src, st) {
            None => Some(Err(st.pos)),
            Some(c) => if c == ']' {
                match delim_step(src, st) {
                    Ok((c2, st2)) => Some(Ok((acc, st2))),
                    Err(p) => Some(Err(p)),
                }
            } else {
                match sp_any(src, st, (fuel - 1) as nat) {
                    None => None,
                    Some(Ok((v, st2))) => sp_items(src, st2, acc.push(v), (fuel - 1) as nat),
                    Some(Err(p)) => Some(Err(p)),
                }
            },
        }
    }
}

/// The keyed-body decode relation, shared by mappings and records: before
/// each entry one delimiter is attempted — the frame's closer ends the body,
/// any other delimiter is an error — else one key (a string for a mapping,
/// an identifier for a record), a colon, and one value are decoded. `acc`
/// carries the entries already decoded; a repeated key replaces the stored
/// value.
pub open spec fn sp_entries(
    src: Seq<char>,
    kind: FrameKind,
    st: St,
    acc: Seq<(Seq<char>, ValueModel)>,
    fuel: nat,
) -> Option<EntriesOut>
    decreases fuel,
{
    if fuel == 0 {
        None
    } else {
        match delim_step(src, st) {
            Ok((c, st2)) => if c == kind.closer_spec() {
                Some(Ok((acc, st2)))
            } else {
                Some(Err(st2.pos))
            },
            Err(_) => {
                let q = grammar::trivia_end(src, st.pos);
                match key_token(src, kind, q) {
                    None => Some(Err(q)),
                    Some((k, e)) => {
                        let st3 = St { pos: grammar::trivia_end(src, e), ..st };
                        match delim_step(src, st3) {
                            Ok((c2, st4)) => if c2 == ':' {
                                match sp_any(src, st4, (fuel - 1) as nat) {
                                    None => None,
                                    Some(Ok((v, st5))) => sp_entries(
                                        src,
                                        kind,
                                        st5,
                                        upsert(acc, k, v),
                                        (fuel - 1) as nat,
                                    ),
                                    Some(Err(p)) => Some(Err(p)),
                                }
                            } else {
                                Some(Err(st4.pos))
                            },
                            Err(p) => Some(Err(p)),
                        }
                    },
                }
            },
        }
    }
}

/// The decode relation with the fuel abstracted away: what the engine
/// returns from this state.
pub open spec fn any_decodes(src: Seq<char>, st: St, out: AnyOut) -> bool {
    exists|fuel: nat| sp_any(src, st, fuel) == Some(out)
}

/// The sequence-body relation with the fuel abstracted away.
pub open spec fn items_decode(src: Seq<char>, st: St, acc: Seq<ValueModel>, out: ItemsOut) -> bool {
    exists|fuel: nat| sp_items(src, st, acc, fuel) == Some(out)
}

/// The keyed-body relation with the fuel abstracted away.
pub open spec fn entries_decode(
    src: Seq<char>,
    kind: FrameKind,
    st: St,
    acc: Seq<(Seq<char>, ValueModel)>,
    out: EntriesOut,
) -> bool {
    exists|fuel: nat| sp_entries(src, kind, st, acc, fuel) == Some(out)
}

/// Raising the fuel never changes a decided decode.
pub proof fn lemma_any_mono(src: Seq<char>, st: St, f1: nat, f2: nat)
    requires
        f1 <= f2,
        sp_any(src, st, f1) is Some,
    ensures
        sp_any(src, st, f2) == sp_any(src, st, f1),
    decreases f1,
{
    let st1 = norm(src, st);
    match peek(src, st1) {
        None => {},
        Some(c) => {
            if c == '[' {
                match delim_step(src, st1) {
                    Ok((c2, st2)) => {
                        if c2 == '[' {
                            lemma_items_mono(src, st2, Seq::empty(), (f1 - 1) as nat, (f2 - 1) as nat);
                        }
                    },
                    Err(_) => {},
                }
            } else if c == '{' {
                match delim_step(src, st1) {
                    Ok((c2, st2)) => {
                        if c2 == '{' {
                            lemma_entries_mono(
                                src,
                                FrameKind::Mapping,
                                st2,
                                Seq::empty(),
                                (f1 - 1) as nat,
                                (f2 - 1) as nat,
                            );
                        }
                    },
                    Err(_) => {},
                }
            } else if c == '(' {
                match delim_step(src, st1) {
                    Ok((c2, st2)) => {
                        if c2 == '(' {
                            lemma_entries_mono(
                                src,
                                FrameKind::Record,
                                st2,
                                Seq::empty(),
                                (f1 - 1) as nat,
                                (f2 - 1) as nat,
                            );
                        }
                    },
                    Err(_) => {},
                }
            }
        },
    }
}

/// Raising the fuel never changes a decided sequence body.
pub proof fn lemma_items_mono(src: Seq<char>, st: St, acc: Seq<ValueModel>, f1: nat, f2: nat)
    requires
        f1 <= f2,
        sp_items(src, st, acc, f1) is Some,
    ensures
        sp_items(src, st, acc, f2) == sp_items(src, st, acc, f1),
    decreases f1,
{
    match peek(src, st) {
        None => {},
        Some(c) => {
            if c != ']' {
                lemma_any_mono(src, st, (f1 - 1) as nat, (f2 - 1) as nat);
                match sp_any(src, st, (f1 - 1) as nat) {
                    Some(Ok((v, st2))) => {
                        lemma_items_mono(src, st2, acc.push(v), (f1 - 1) as nat, (f2 - 1) as nat);
                    },
                    _ => {},
                }
            }
        },
    }
}

/// Raising the fuel never changes a decided keyed body.
pub proof fn lemma_entries_mono(
    src: Seq<char>,
    kind: FrameKind,
    st: St,
    acc: Seq<(Seq<char>, ValueModel)>,
    f1: nat,
    f2: nat,
)
    requires
        f1 <= f2,
        sp_entries(src, kind, st, acc, f1) is Some,
    ensures
        sp_entries(src, kind, st, acc, f2) == sp_entries(src, kind, st, acc, f1),
    decreases f1,
{
    match delim_step(src, st) {
        Ok(_) => {},
        Err(_) => {
            let q = grammar::trivia_end(src, st.pos);
            match key_token(src, kind, q) {
                None => {},
                Some((k, e)) => {
                    let st3 = St { pos: grammar::trivia_end(src, e), ..st };
                    match delim_step(src, st3) {
                        Ok((c2, st4)) => {
                            if c2 == ':' {
                                lemma_any_mono(src, st4, (f1 - 1) as nat, (f2 - 1) as nat);
                                match sp_any(src, st4, (f1 - 1) as nat) {
                                    Some(Ok((v, st5))) => {
                                        lemma_entries_mono(
                                            src,
                                            kind,
                                            st5,
                                            upsert(acc, k, v),
                                            (f1 - 1) as nat,
                                            (f2 - 1) as nat,
                                        );
                                    },
                                    _ => {},
                                }
                            }
                        },
                        Err(_) => {},
                    }
                },
            }
        },
    }
}

/// The decode relation never relates one state to two outcomes.
pub proof fn lemma_any_deterministic(src: Seq<char>, st: St, o1: AnyOut, o2: AnyOut)
    requires
        any_decodes(src, st, o1),
        any_decodes(src, st, o2),
    ensures
        o1 == o2,
{
    let f1 = choose|f: nat| sp_any(src, st, f) == Some(o1);
    let f2 = choose|f: nat| sp_any(src, st, f) == Some(o2);
    if f1 <= f2 {
        lemma_any_mono(src, st, f1, f2);
    } else {
        lemma_any_mono(src, st, f2, f1);
    }
}

/// A sequence body ends where its closing bracket is the next significant
/// character; the delimiter parse step decides the final state or fails.
pub proof fn lemma_items_close(src: Seq<char>, st: St, acc: Seq<ValueModel>)
    requires
        peek(src, st) == Some(']'),
    ensures
        items_decode(
            src,
            st,
            acc,
            match delim_step(src, st) {
                Ok((c2, st2)) => Ok((acc, st2)),
                Err(p) => Err(p),
            },
        ),
{
    let out: ItemsOut = match delim_step(src, st) {
        Ok((c2, st2)) => Ok((acc, st2)),
        Err(p) => Err(p),
    };
    assert(sp_items(src, st, acc, 1nat) == Some(out));
}

/// A sequence body fails where nothing significant remains and no closing
/// bracket is pending.
pub proof fn lemma_items_exhausted(src: Seq<char>, st: St, acc: Seq<ValueModel>)
    requires
        peek(src, st) is None,
    ensures
        items_decode(src, st, acc, Err(st.pos)),
{
    assert(sp_items(src, st, acc, 1nat) == Some(Err::<(Seq<ValueModel>, St), int>(st.pos)));
}

/// A failing element decode fails the whole sequence body.
pub proof fn lemma_items_elem_err(src: Seq<char>, st: St, acc: Seq<ValueModel>, p: int)
    requires
        peek(src, st) is Some,
        peek(src, st) != Some(']'),
        any_decodes(src, st, Err(p)),
    ensures
        items_decode(src, st, acc, Err(p)),
{
    let f = choose|f: nat| sp_any(src, st, f) == Some(Err::<(ValueModel, St), int>(p));
    assert(sp_items(src, st, acc, f + 1) == Some(Err::<(Seq<ValueModel>, St), int>(p)));
}

/// Decoding one element and then the rest of the body decodes the whole
/// body.
pub proof fn lemma_items_step(
    src: Seq<char>,
    st: St,
    acc: Seq<ValueModel>,
    v: ValueModel,
    st2: St,
    out: ItemsOut,
)
    requires
        peek(src, st) is Some,
        peek(src, st) != Some(']'),
        any_decodes(src, st, Ok((v, st2))),
        items_decode(src, st2, acc.push(v), out),
    ensures
        items_decode(src, st, acc, out),
{
    let f1 = choose|f: nat| sp_any(src, st, f) == Some(Ok::<(ValueModel, St), int>((v, st2)));
    let f2 = choose|f: nat| sp_items(src, st2, acc.push(v), f) == Some(out);
    let fm = if f1 <= f2 {
        f2
    } else {
        f1
    };
    lemma_any_mono(src, st, f1, fm);
    lemma_items_mono(src, st2, acc.push(v), f2, fm);
    assert(sp_items(src, st, acc, fm + 1) == Some(out));
}

/// A keyed body ends, or fails, at a delimiter: the frame's closer ends it,
/// any other delimiter is an error just past it.
pub proof fn lemma_entries_delim(
    src: Seq<char>,
    kind: FrameKind,
    st: St,
    acc: Seq<(Seq<char>, ValueModel)>,
)
    requires
        delim_step(src, st) is Ok,
    ensures
        entries_decode(
            src,
            kind,
            st,
            acc,
            ({
                let cs = delim_step(src, st)->Ok_0;
                if cs.0 == kind.closer_spec() {
                    Ok((acc, cs.1))
                } else {
                    Err(cs.1.pos)
                }
            }),
        ),
{
    let out: EntriesOut = ({
        let cs = delim_step(src, st)->Ok_0;
        if cs.0 == kind.closer_spec() {
            Ok((acc, cs.1))
        } else {
            Err(cs.1.pos)
        }
    });
    assert(sp_entries(src, kind, st, acc, 1nat) == Some(out));
}

/// A keyed body fails where no delimiter and no key parses.
pub proof fn lemma_entries_key_err(
    src: Seq<char>,
    kind: FrameKind,
    st: St,
    acc: Seq<(Seq<char>, ValueModel)>,
)
    requires
        delim_step(src, st) is Err,
        key_token(src, kind, grammar::trivia_end(src, st.pos)) is None,
    ensures
        entries_decode(src, kind, st, acc, Err(grammar::trivia_end(src, st.pos))),
{
    let q = grammar::trivia_end(src, st.pos);
    assert(sp_entries(src, kind, st, acc, 1nat) == Some(
        Err::<(Seq<(Seq<char>, ValueModel)>, St), int>(q),
    ));
}

/// After a key, the separating colon must parse: a missing delimiter fails
/// at its own position, and any delimiter but the colon fails just past it.
pub proof fn lemma_entries_colon_err(
    src: Seq<char>,
    kind: FrameKind,
    st: St,
    acc: Seq<(Seq<char>, ValueModel)>,
)
    requires
        delim_step(src, st) is Err,
        key_token(src, kind, grammar::trivia_end(src, st.pos)) is Some,
        ({
            let (k, e) = key_token(src, kind, grammar::trivia_end(src, st.pos)).unwrap();
            let st3 = St { pos: grammar::trivia_end(src, e), ..st };
            match delim_step(src, st3) {
                Ok((c2, st4)) => c2 != ':',
                Err(_) => true,
            }
        }),
    ensures
        entries_decode(
            src,
            kind,
            st,
            acc,
            ({
                let (k, e) = key_token(src, kind, grammar::trivia_end(src, st.pos)).unwrap();
                let st3 = St { pos: grammar::trivia_end(src, e), ..st };
                match delim_step(src, st3) {
                    Ok((c2, st4)) => Err(st4.pos),
                    Err(p) => Err(p),
                }
            }),
        ),
{
    let (k, e) = key_token(src, kind, grammar::trivia_end(src, st.pos)).unwrap();
    let st3 = St { pos: grammar::trivia_end(src, e), ..st };
    let out: EntriesOut = match delim_step(src, st3) {
        Ok((c2, st4)) => Err(st4.pos),
        Err(p) => Err(p),
    };
    assert(sp_entries(src, kind, st, acc, 1nat) == Some(out));
}

/// A failing value decode fails the whole keyed body.
pub proof fn lemma_entries_value_err(
    src: Seq<char>,
    kind: FrameKind,
    st: St,
    acc: Seq<(Seq<char>, ValueModel)>,
    st4: St,
    p: int,
)
    requires
        delim_step(src, st) is Err,
        key_token(src, kind, grammar::trivia_end(src, st.pos)) is Some,
        ({
            let (k, e) = key_token(src, kind, grammar::trivia_end(src, st.pos)).unwrap();
            let st3 = St { pos: grammar::trivia_end(src, e), ..st };
            delim_step(src, st3) == Ok::<(char, St), int>((':', st4))
        }),
        any_decodes(src, st4, Err(p)),
    ensures
        entries_decode(src, kind, st, acc, Err(p)),
{
    let f = choose|f: nat| sp_any(src, st4, f) == Some(Err::<(ValueModel, St), int>(p));
    assert(sp_entries(src, kind, st, acc, f + 1) == Some(
        Err::<(Seq<(Seq<char>, ValueModel)>, St), int>(p),
    ));
}

/// Decoding one `key : value` entry and then the rest of the body decodes
/// the whole body; the entry is stored with replace-on-repeat semantics.
pub proof fn lemma_entries_step(
    src: Seq<char>,
    kind: FrameKind,
    st: St,
    acc: Seq<(Seq<char>, ValueModel)>,
    st4: St,
    v: ValueModel,
    st5: St,
    out: EntriesOut,
)
    requires
        delim_step(src, st) is Err,
        key_token(src, kind, grammar::trivia_end(src, st.pos)) is Some,
        ({
            let (k, e) = key_token(src, kind, grammar::trivia_end(src, st.pos)).unwrap();
            let st3 = St { pos: grammar::trivia_end(src, e), ..st };
            delim_step(src, st3) == Ok::<(char, St), int>((':', st4))
        }),
        any_decodes(src, st4, Ok((v, st5))),
        entries_decode(
            src,
            kind,
            st5,
            upsert(acc, key_token(src, kind, grammar::trivia_end(src, st.pos)).unwrap().0, v),
            out,
        ),
    ensures
        entries_decode(src, kind, st, acc, out),
{
    let k = key_token(src, kind, grammar::trivia_end(src, st.pos)).unwrap().0;
    let f1 = choose|f: nat| sp_any(src, st4, f) == Some(Ok::<(ValueModel, St), int>((v, st5)));
    let f2 = choose|f: nat| sp_entries(src, kind, st5, upsert(acc, k, v), f) == Some(out);
    let fm = if f1 <= f2 {
        f2
    } else {
        f1
    };
    lemma_any_mono(src, st4, f1, fm);
    lemma_entries_mono(src, kind, st5, upsert(acc, k, v), f2, fm);
    assert(sp_entries(src, kind, st, acc, fm + 1) == Some(out));
}

/// The virtual open delimiters the dispatcher accepts: none, or one of the
/// three opening brackets that the root-shape prober installs.
pub open spec fn pre_ok(pre: Option<char>) -> bool {
    match pre {
        None => true,
        Some(c) => c == '[' || c == '{' || c == '(',
    }
}

impl Deserializer {
    /// Decodes the body of a sequence, after its opening bracket: before
    /// each element the next significant character is peeked; a closing
    /// bracket ends the body, anything else must decode as one element.
    /// Separators between and around elements are optional and may repeat,
    /// including before the terminator.
    fn decode_items(&mut self) -> (r: Result<Vec<Value>, JaclDeError>)
        requires
            old(self).inv(),
            old(self).st().pre is None,
        ensures
            final(self).inv(),
            final(self).src() == old(self).src(),
            final(self).st().pos >= old(self).st().pos,
            final(self).st().post == old(self).st().post || final(self).st().post is None,
            final(self).st().pre is None,
            match r {
                Ok(vs) => items_decode(
                    old(self).src(),
                    old(self).st(),
                    Seq::empty(),
                    Ok((crate::structs::items_model(vs@), final(self).st())),
                ),
                Err(e) => items_decode(
                    old(self).src(),
                    old(self).st(),
                    Seq::empty(),
                    Err(final(self).st().pos),
                ) && err_matches(e, old(self).src(), final(self).st().pos),
            },
        decreases self.src().len() - self.st().pos, (if self.st().pre is Some {
            1int
        } else {
            0int
        }) + (if self.st().post is Some {
            1int
        } else {
            0int
        }), 1int,
    {
        let ghost src = self.src();
        let ghost st_start = self.st();
        let mut items: Vec<Value> = Vec::new();
        loop
            invariant
                self.inv(),
                self.src() == src,
                src == old(self).src(),
                st_start == old(self).st(),
                self.st().pre is None,
                self.st().pos >= st_start.pos,
                self.st().post == st_start.post || self.st().post is None,
                forall|out: ItemsOut|
                    items_decode(src, self.st(), crate::structs::items_model(items@), out)
                        ==> items_decode(src, st_start, Seq::empty(), out),
            decreases src.len() - self.st().pos,
        {
            let ghost st_cur = self.st();
            let ghost acc_cur = crate::structs::items_model(items@);
            let c = match self.next_char() {
                Ok(c) => c,
                Err(e) => {
                    proof {
                        lemma_items_exhausted(src, st_cur, acc_cur);
                    }
                    return Err(e);
                },
            };
            if c == ']' {
                match self.parse_delim() {
                    Ok(_) => {
                        proof {
                            lemma_items_close(src, st_cur, acc_cur);
                        }
                        return Ok(items);
                    },
                    Err(e) => {
                        proof {
                            lemma_items_close(src, st_cur, acc_cur);
                        }
                        return Err(e);
                    },
                }
            }
            let v = match self.deserialize_any() {
                Ok(v) => v,
                Err(e) => {
                    proof {
                        lemma_items_elem_err(src, st_cur, acc_cur, self.st().pos);
                    }
                    return Err(e);
                },
            };
            let ghost st_next = self.st();
            let ghost items_pre = items@;
            items.push(v);
            proof {
                crate::structs::lemma_items_model_push(items_pre, v);
                assert forall|out: ItemsOut|
                    items_decode(
                        src,
                        self.st(),
                        crate::structs::items_model(items@),
                        out,
                    ) implies items_decode(src, st_start, Seq::empty(), out) by {
                    lemma_items_step(src, st_cur, acc_cur, v@, st_next, out);
                }
            }
        }
    }

    /// Decodes the body of a mapping or record, after its opening
    /// delimiter: before each entry one delimiter is attempted — the frame's
    /// closer ends the body, any other delimiter is an error — else one key,
    /// a colon, and one value are decoded. A repeated key replaces the
    /// stored value.
    fn decode_entries(&mut self, kind: FrameKind) -> (r: Result<
        Vec<(String, Value)>,
        JaclDeError,
    >)
        requires
            old(self).inv(),
            old(self).st().pre is None,
        ensures
            final(self).inv(),
            final(self).src() == old(self).src(),
            final(self).st().pos >= old(self).st().pos,
            final(self).st().post == old(self).st().post || final(self).st().post is None,
            final(self).st().pre is None,
            match r {
                Ok(es) => entries_decode(
                    old(self).src(),
                    kind,
                    old(self).st(),
                    Seq::empty(),
                    Ok((crate::structs::entries_model(es@), final(self).st())),
                ),
                Err(e) => entries_decode(
                    old(self).src(),
                    kind,
                    old(self).st(),
                    Seq::empty(),
                    Err(final(self).st().pos),
                ) && err_matches(e, old(self).src(), final(self).st().pos),
            },
        decreases self.src().len() - self.st().pos, (if self.st().pre is Some {
            1int
        } else {
            0int
        }) + (if self.st().post is Some {
            1int
        } else {
            0int
        }), 1int,
    {
        let ghost src = self.src();
        let ghost st_start = self.st();
        let mut entries: Vec<(String, Value)> = Vec::new();
        loop
            invariant
                self.inv(),
                self.src() == src,
                src == old(self).src(),
                st_start == old(self).st(),
                self.st().pre is None,
                self.st().pos >= st_start.pos,
                self.st().post == st_start.post || self.st().post is None,
                forall|out: EntriesOut|
                    entries_decode(
                        src,
                        kind,
                        self.st(),
                        crate::structs::entries_model(entries@),
                        out,
                    ) ==> entries_decode(src, kind, st_start, Seq::empty(), out),
            decreases src.len() - self.st().pos,
        {
            let ghost st_cur = self.st();
            let ghost acc_cur = crate::structs::entries_model(entries@);
            let d_opt = match self.parse_delim() {
                Ok(d) => Some(d),
                Err(_) => None,
            };
            if let Some(d) = d_opt {
                proof {
                    lemma_entries_delim(src, kind, st_cur, acc_cur);
                }
                if d == kind.closer() {
                    return Ok(entries);
                } else {
                    let err = JaclDeError::new(self);
                    return Err(err);
                }
            }
            proof {
                grammar::lemma_trivia_end_idempotent(src, st_cur.pos);
            }
            let key = match kind {
                FrameKind::Mapping => match self.parse_string() {
                    Ok(s) => s,
                    Err(e) => {
                        proof {
                            lemma_entries_key_err(src, kind, st_cur, acc_cur);
                        }
                        return Err(e);
                    },
                },
                FrameKind::Record => match self.parse_identifier() {
                    Ok(s) => s,
                    Err(e) => {
                        proof {
                            lemma_entries_key_err(src, kind, st_cur, acc_cur);
                        }
                        return Err(e);
                    },
                },
            };
            match self.parse_delim() {
                Ok(d2) => {
                    if d2 != ':' {
                        proof {
                            lemma_entries_colon_err(src, kind, st_cur, acc_cur);
                        }
                        let err = JaclDeError::new(self);
                        return Err(err);
                    }
                },
                Err(e) => {
                    proof {
                        lemma_entries_colon_err(src, kind, st_cur, acc_cur);
                    }
                    return Err(e);
                },
            }
            let ghost st4 = self.st();
            let v = match self.deserialize_any() {
                Ok(v) => v,
                Err(e) => {
                    proof {
                        lemma_entries_value_err(src, kind, st_cur, acc_cur, st4, self.st().pos);
                    }
                    return Err(e);
                },
            };
            let ghost st5 = self.st();
            crate::structs::entries_insert(&mut entries, key, v);
            proof {
                assert forall|out: EntriesOut|
                    entries_decode(
                        src,
                        kind,
                        self.st(),
                        crate::structs::entries_model(entries@),
                        out,
                    ) implies entries_decode(src, kind, st_start, Seq::empty(), out) by {
                    lemma_entries_step(src, kind, st_cur, acc_cur, st4, v@, st5, out);
                }
            }
        }
    }

    /// Shape-free decoding: inspects the next significant character and
    /// decodes the literal or container it announces. Everything the decoded
    /// value holds, and the exact position of any failure, is given by the
    /// decode relation.
    #[verifier::rlimit(80)]
    pub fn deserialize_any(&mut self) -> (r: Result<Value, JaclDeError>)
        requires
            old(self).inv(),
            pre_ok(old(self).st().pre),
        ensures
            final(self).inv(),
            final(self).src() == old(self).src(),
            final(self).st().pos >= old(self).st().pos,
            final(self).st().post == old(self).st().post || final(self).st().post is None,
            final(self).st().pre is None,
            match r {
                Ok(v) => {
                    &&& any_decodes(old(self).src(), old(self).st(), Ok((v@, final(self).st())))
                    &&& final(self).st().pre is None
                    &&& old(self).st().pre is None ==> final(self).st().pos > old(self).st().pos
                },
                Err(e) => {
                    &&& any_decodes(old(self).src(), old(self).st(), Err(final(self).st().pos))
                    &&& err_matches(e, old(self).src(), final(self).st().pos)
                },
            },
        decreases self.src().len() - self.st().pos, (if self.st().pre is Some {
            1int
        } else {
            0int
        }) + (if self.st().post is Some {
            1int
        } else {
            0int
        }), 0int,
    {
        let ghost src = self.src();
        let ghost st0 = self.st();
        if self.pre.is_none() {
            self.skip_non_tokens();
        }
        let ghost st1 = self.st();
        proof {
            assert(st1 == norm(src, st0));
            grammar::lemma_trivia_end_bounds(src, st0.pos);
            grammar::lemma_trivia_end_idempotent(src, st0.pos);
        }
        let c = match self.next_char() {
            Ok(c) => c,
            Err(e) => {
                proof {
                    assert(sp_any(src, st0, 1nat) == Some(Err::<(ValueModel, St), int>(st1.pos)));
                }
                return Err(e);
            },
        };
        if c == 'n' {
            match parsing::literal::null(&self.text, self.pos) {
                Some(e) => {
                    self.pos = e;
                    self.skip_non_tokens();
                    proof {
                        assert(sp_any(src, st0, 1nat) == Some(
                            Ok::<(ValueModel, St), int>(
                                (ValueModel::Literal(LiteralModel::Null), self.st()),
                            ),
                        ));
                    }
                    Ok(Value::Literal(crate::structs::Literal::Null))
                },
                None => {
                    let err = JaclDeError::new(self);
                    proof {
                        assert(sp_any(src, st0, 1nat) == Some(
                            Err::<(ValueModel, St), int>(st1.pos),
                        ));
                    }
                    Err(err)
                },
            }
        } else if c == 't' || c == 'f' {
            match self.parse_bool() {
                Ok(b) => {
                    proof {
                        assert(sp_any(src, st0, 1nat) == Some(
                            Ok::<(ValueModel, St), int>(
                                (ValueModel::Literal(LiteralModel::Bool(b)), self.st()),
                            ),
                        ));
                    }
                    Ok(Value::Literal(crate::structs::Literal::Bool(b)))
                },
                Err(e) => {
                    proof {
                        assert(sp_any(src, st0, 1nat) == Some(
                            Err::<(ValueModel, St), int>(st1.pos),
                        ));
                    }
                    Err(e)
                },
            }
        } else if c == '"' {
            match self.parse_string() {
                Ok(s) => {
                    proof {
                        assert(sp_any(src, st0, 1nat) == Some(
                            Ok::<(ValueModel, St), int>(
                                (ValueModel::Literal(LiteralModel::Str(s@)), self.st()),
                            ),
                        ));
                    }
                    Ok(Value::Literal(crate::structs::Literal::Str(s)))
                },
                Err(e) => {
                    proof {
                        assert(sp_any(src, st0, 1nat) == Some(
                            Err::<(ValueModel, St), int>(st1.pos),
                        ));
                    }
                    Err(e)
                },
            }
        } else if c == '-' || ('0' <= c && c <= '9') {
            match parsing::literal::integer(&self.text, self.pos) {
                None => {
                    let err = JaclDeError::new(self);
                    proof {
                        assert(sp_any(src, st0, 1nat) == Some(
                            Err::<(ValueModel, St), int>(st1.pos),
                        ));
                    }
                    Err(err)
                },
                Some((v, e)) => {
                    if e < self.text.len() && self.text[e] == '.' {
                        match self.parse_float() {
                            Ok(lexeme) => {
                                proof {
                                    assert(sp_any(src, st0, 1nat) == Some(
                                        Ok::<(ValueModel, St), int>(
                                            (
                                                ValueModel::Literal(
                                                    LiteralModel::Number(NumberModel::Flt(lexeme@)),
                                                ),
                                                self.st(),
                                            ),
                                        ),
                                    ));
                                }
                                Ok(
                                    Value::Literal(
                                        crate::structs::Literal::Number(
                                            crate::structs::Number::Flt(lexeme),
                                        ),
                                    ),
                                )
                            },
                            Err(e2) => {
                                proof {
                                    assert(sp_any(src, st0, 1nat) == Some(
                                        Err::<(ValueModel, St), int>(st1.pos),
                                    ));
                                }
                                Err(e2)
                            },
                        }
                    } else {
                        match self.parse_int() {
                            Ok(v2) => {
                                proof {
                                    assert(v2 == v);
                                    assert(sp_any(src, st0, 1nat) == Some(
                                        Ok::<(ValueModel, St), int>(
                                            (
                                                ValueModel::Literal(
                                                    LiteralModel::Number(NumberModel::Int(v2)),
                                                ),
                                                self.st(),
                                            ),
                                        ),
                                    ));
                                }
                                Ok(
                                    Value::Literal(
                                        crate::structs::Literal::Number(
                                            crate::structs::Number::Int(v2),
                                        ),
                                    ),
                                )
                            },
                            Err(e2) => {
                                proof {
                                    assert(false);
                                }
                                Err(e2)
                            },
                        }
                    }
                },
            }
        } else if c == '[' {
            match self.parse_delim() {
                Err(e) => {
                    proof {
                        assert(sp_any(src, st0, 1nat) == Some(
                            Err::<(ValueModel, St), int>(self.st().pos),
                        ));
                    }
                    Err(e)
                },
                Ok(c2) => {
                    let ghost st2 = self.st();
                    proof {
                        let q = grammar::trivia_end(src, st1.pos);
                        if q < src.len() {
                            grammar::lemma_trivia_end_bounds(src, q + 1);
                        }
                    }
                    if c2 == '[' {
                        match self.decode_items() {
                            Ok(items) => {
                                proof {
                                    let out: ItemsOut = Ok(
                                        (crate::structs::items_model(items@), self.st()),
                                    );
                                    let f = choose|f: nat|
                                        sp_items(src, st2, Seq::empty(), f) == Some(out);
                                    assert(sp_any(src, st0, f + 1) == Some(
                                        Ok::<(ValueModel, St), int>(
                                            (
                                                ValueModel::Sequence(
                                                    crate::structs::items_model(items@),
                                                ),
                                                self.st(),
                                            ),
                                        ),
                                    ));
                                    if st0.pre is None && st2.pos == st0.pos {
                                        let q = grammar::trivia_end(src, st1.pos);
                                        if q < src.len() {
                                            grammar::lemma_trivia_end_bounds(src, q + 1);
                                        }
                                        assert(st2.pos == src.len() && st2.post is None);
                                        assert(peek(src, st2) is None);
                                        assert(f > 0);
                                        assert(sp_items(src, st2, Seq::empty(), f) == Some(
                                            Err::<(Seq<ValueModel>, St), int>(st2.pos),
                                        ));
                                    }
                                }
                                Ok(Value::Sequence(items))
                            },
                            Err(e) => {
                                proof {
                                    let f = choose|f: nat|
                                        sp_items(src, st2, Seq::empty(), f) == Some(
                                            Err::<(Seq<ValueModel>, St), int>(self.st().pos),
                                        );
                                    assert(sp_any(src, st0, f + 1) == Some(
                                        Err::<(ValueModel, St), int>(self.st().pos),
                                    ));
                                }
                                Err(e)
                            },
                        }
                    } else {
                        let err = JaclDeError::new(self);
                        proof {
                            assert(sp_any(src, st0, 1nat) == Some(
                                Err::<(ValueModel, St), int>(st2.pos),
                            ));
                        }
                        Err(err)
                    }
                },
            }
        } else if c == '{' {
            match self.parse_delim() {
                Err(e) => {
                    proof {
                        assert(sp_any(src, st0, 1nat) == Some(
                            Err::<(ValueModel, St), int>(self.st().pos),
                        ));
                    }
                    Err(e)
                },
                Ok(c2) => {
                    let ghost st2 = self.st();
                    proof {
                        let q = grammar::trivia_end(src, st1.pos);
                        if q < src.len() {
                            grammar::lemma_trivia_end_bounds(src, q + 1);
                        }
                    }
                    if c2 == '{' {
                        match self.decode_entries(FrameKind::Mapping) {
                            Ok(entries) => {
                                proof {
                                    let out: EntriesOut = Ok(
                                        (crate::structs::entries_model(entries@), self.st()),
                                    );
                                    let f = choose|f: nat|
                                        sp_entries(src, FrameKind::Mapping, st2, Seq::empty(), f)
                                            == Some(out);
                                    assert(sp_any(src, st0, f + 1) == Some(
                                        Ok::<(ValueModel, St), int>(
                                            (
                                                ValueModel::Mapping(
                                                    crate::structs::entries_model(entries@),
                                                ),
                                                self.st(),
                                            ),
                                        ),
                                    ));
                                    if st0.pre is None && st2.pos == st0.pos {
                                        let q = grammar::trivia_end(src, st1.pos);
                                        if q < src.len() {
                                            grammar::lemma_trivia_end_bounds(src, q + 1);
                                        }
                                        assert(st2.pos == src.len() && st2.post is None);
                                        assert(delim_step(src, st2) == Err::<(char, St), int>(
                                            src.len() as int,
                                        ));
                                        assert(key_token(src, FrameKind::Mapping, src.len() as int)
                                            is None);
                                        assert(f > 0);
                                        assert(sp_entries(
                                            src,
                                            FrameKind::Mapping,
                                            st2,
                                            Seq::empty(),
                                            f,
                                        ) == Some(
                                            Err::<(Seq<(Seq<char>, ValueModel)>, St), int>(st2.pos),
                                        ));
                                    }
                                }
                                Ok(Value::Mapping(entries))
                            },
                            Err(e) => {
                                proof {
                                    let f = choose|f: nat|
                                        sp_entries(src, FrameKind::Mapping, st2, Seq::empty(), f)
                                            == Some(
                                            Err::<(Seq<(Seq<char>, ValueModel)>, St), int>(
                                                self.st().pos,
                                            ),
                                        );
                                    assert(sp_any(src, st0, f + 1) == Some(
                                        Err::<(ValueModel, St), int>(self.st().pos),
                                    ));
                                }
                                Err(e)
                            },
                        }
                    } else {
                        let err = JaclDeError::new(self);
                        proof {
                            assert(sp_any(src, st0, 1nat) == Some(
                                Err::<(ValueModel, St), int>(st2.pos),
                            ));
                        }
                        Err(err)
                    }
                },
            }
        } else if c == '(' {
            let virtual_frame = self.pre.is_some();
            match self.parse_delim() {
                Err(e) => {
                    proof {
                        assert(sp_any(src, st0, 1nat) == Some(
                            Err::<(ValueModel, St), int>(self.st().pos),
                        ));
                    }
                    Err(e)
                },
                Ok(c2) => {
                    let ghost st2 = self.st();
                    proof {
                        let q = grammar::trivia_end(src, st1.pos);
                        if q < src.len() {
                            grammar::lemma_trivia_end_bounds(src, q + 1);
                        }
                    }
                    if c2 == '(' {
                        match self.decode_entries(FrameKind::Record) {
                            Ok(entries) => {
                                proof {
                                    let out: EntriesOut = Ok(
                                        (crate::structs::entries_model(entries@), self.st()),
                                    );
                                    let f = choose|f: nat|
                                        sp_entries(src, FrameKind::Record, st2, Seq::empty(), f)
                                            == Some(out);
                                    assert(sp_any(src, st0, f + 1) == Some(
                                        Ok::<(ValueModel, St), int>(
                                            (
                                                if virtual_frame {
                                                    ValueModel::Mapping(
                                                        crate::structs::entries_model(entries@),
                                                    )
                                                } else {
                                                    ValueModel::Record(
                                                        crate::structs::entries_model(entries@),
                                                    )
                                                },
                                                self.st(),
                                            ),
                                        ),
                                    ));
                                    if st0.pre is None && st2.pos == st0.pos {
                                        let q = grammar::trivia_end(src, st1.pos);
                                        if q < src.len() {
                                            grammar::lemma_trivia_end_bounds(src, q + 1);
                                        }
                                        assert(st2.pos == src.len() && st2.post is None);
                                        assert(delim_step(src, st2) == Err::<(char, St), int>(
                                            src.len() as int,
                                        ));
                                        assert(key_token(src, FrameKind::Record, src.len() as int)
                                            is None);
                                        assert(f > 0);
                                        assert(sp_entries(
                                            src,
                                            FrameKind::Record,
                                            st2,
                                            Seq::empty(),
                                            f,
                                        ) == Some(
                                            Err::<(Seq<(Seq<char>, ValueModel)>, St), int>(st2.pos),
                                        ));
                                    }
                                }
                                if virtual_frame {
                                    Ok(Value::Mapping(entries))
                                } else {
                                    Ok(Value::Record(entries))
                                }
                            },
                            Err(e) => {
                                proof {
                                    let f = choose|f: nat|
                                        sp_entries(src, FrameKind::Record, st2, Seq::empty(), f)
                                            == Some(
                                            Err::<(Seq<(Seq<char>, ValueModel)>, St), int>(
                                                self.st().pos,
                                            ),
                                        );
                                    assert(sp_any(src, st0, f + 1) == Some(
                                        Err::<(ValueModel, St), int>(self.st().pos),
                                    ));
                                }
                                Err(e)
                            },
                        }
                    } else {
                        let err = JaclDeError::new(self);
                        proof {
                            assert(sp_any(src, st0, 1nat) == Some(
                                Err::<(ValueModel, St), int>(st2.pos),
                            ));
                        }
                        Err(err)
                    }
                },
            }
        } else {
            let err = JaclDeError::new(self);
            proof {
                assert(sp_any(src, st0, 1nat) == Some(Err::<(ValueModel, St), int>(st1.pos)));
            }
            Err(err)
        }
    }
}

/// The virtual delimiter pair the root-shape prober installs around an
/// un-bracketed top-level document. One literal followed by another makes an
/// implicit sequence; one literal followed by a colon makes an implicit
/// mapping; a bare identifier makes an implicit bare field list, parsed
/// between virtual parentheses with identifier keys; anything else — a
/// single bare literal, or a document that already starts with an explicit
/// bracket — is left unwrapped. Only a parenthesis written in the source
/// carries the struct flavor, so a bare field list materializes as the map
/// flavor.
pub open spec fn probe_wrap(text: Seq<char>) -> (Option<char>, Option<char>) {
    let q0 = grammar::trivia_end(text, 0);
    match grammar::literal_end(text, q0) {
        Some(e1) => {
            let q1 = grammar::trivia_end(text, e1);
            if grammar::literal_end(text, q1) is Some {
                (Some('['), Some(']'))
            } else if q1 < text.len() && text[q1] == ':' {
                (Some('{'), Some('}'))
            } else {
                (None, None)
            }
        },
        None => if grammar::ident_end(text, q0) is Some {
            (Some('('), Some(')'))
        } else {
            (None, None)
        },
    }
}

/// The state a top-level decode of `text` starts from.
pub open spec fn probe_st(text: Seq<char>) -> St {
    St { pos: 0, pre: probe_wrap(text).0, post: probe_wrap(text).1 }
}

impl Deserializer {
    /// A cursor over a whole document, with the root shape resolved: the
    /// prober speculatively scans a disposable cursor and installs the
    /// virtual bracket pair that an un-bracketed top level calls for. The
    /// returned cursor always starts at the beginning of the text.
    pub fn from_str(input: &str) -> (d: Self)
        ensures
            d.inv(),
            d.src() == input@,
            d.st() == probe_st(input@),
    {
        let mut probe = Deserializer::new(None, input, None);
        let ghost text = probe.src();
        proof {
            grammar::lemma_trivia_end_bounds(text, 0);
            grammar::lemma_trivia_end_idempotent(text, 0);
        }
        if probe.try_parse_literal() {
            proof {
                let e1 = grammar::literal_end(text, grammar::trivia_end(text, 0)).unwrap();
                grammar::lemma_trivia_end_idempotent(text, e1);
            }
            if probe.try_parse_literal() {
                return Deserializer::new(Some('['), input, Some(']'));
            } else {
                match probe.parse_delim() {
                    Ok(delim) => {
                        if delim == ':' {
                            return Deserializer::new(Some('{'), input, Some('}'));
                        }
                    },
                    Err(_) => {},
                }
            }
        } else {
            match probe.parse_identifier() {
                Ok(_) => {
                    return Deserializer::new(Some('('), input, Some(')'));
                },
                Err(_) => {},
            }
        }
        Deserializer::new(None, input, None)
    }
}

/// What a whole-document decode returns: the prober picks the virtual
/// delimiters, the engine decodes one value, and input may remain only as
/// trailing separators and comments already consumed by the engine — a
/// document with anything significant left over fails at the leftover's
/// position.
pub open spec fn doc_decodes(text: Seq<char>, out: Result<ValueModel, int>) -> bool {
    match out {
        Ok(v) => exists|st: St|
            #![trigger any_decodes(text, probe_st(text), Ok((v, st)))]
            any_decodes(text, probe_st(text), Ok((v, st))) && st.pos == text.len(),
        Err(p) => any_decodes(text, probe_st(text), Err(p)) || exists|v: ValueModel, st: St|
            #![trigger any_decodes(text, probe_st(text), Ok((v, st)))]
            any_decodes(text, probe_st(text), Ok((v, st))) && st.pos == p && p != text.len(),
    }
}

/// Decodes one whole document into the dynamic value model. The decoded
/// value, and the exact position of any failure, are given by the
/// whole-document decode relation; the decode relation never relates one
/// document to two outcomes.
#[verifier::rlimit(50)]
pub fn from_str(s: &str) -> (r: Result<Value, JaclDeError>)
    ensures
        r is Ok ==> doc_decodes(s@, Ok(r->Ok_0@)),
        r is Err ==> exists|p: int|
            #![trigger doc_decodes(s@, Err(p))]
            doc_decodes(s@, Err(p)) && err_matches(r->Err_0, s@, p),
{
    let mut d = Deserializer::from_str(s);
    let v = match d.deserialize_any() {
        Ok(v) => v,
        Err(e) => {
            proof {
                let p = d.st().pos;
                assert(doc_decodes(s@, Err(p)));
            }
            return Err(e);
        },
    };
    if d.pos == d.text.len() {
        proof {
            assert(any_decodes(s@, probe_st(s@), Ok((v@, d.st()))) && d.st().pos == s@.len());
            assert(doc_decodes(s@, Ok(v@)));
        }
        Ok(v)
    } else {
        let err = JaclDeError::new(&d);
        proof {
            let p = d.st().pos;
            assert(any_decodes(s@, probe_st(s@), Ok((v@, d.st()))) && d.st().pos == p && p
                != s@.len());
            assert(doc_decodes(s@, Err(p)));
        }
        Err(err)
    }
}

/// The whole-document decode relation never relates one document to two
/// outcomes: what `from_str` returns — the value on success, the failure
/// position on error — is uniquely determined by the source text.
pub proof fn lemma_doc_deterministic(
    text: Seq<char>,
    o1: Result<ValueModel, int>,
    o2: Result<ValueModel, int>,
)
    requires
        doc_decodes(text, o1),
        doc_decodes(text, o2),
    ensures
        o1 == o2,
{
    let w1 = lemma_doc_witness(text, o1);
    let w2 = lemma_doc_witness(text, o2);
    lemma_any_deterministic(text, probe_st(text), w1, w2);
}

/// One engine-level outcome behind a whole-document outcome.
proof fn lemma_doc_witness(text: Seq<char>, o: Result<ValueModel, int>) -> (w: AnyOut)
    requires
        doc_decodes(text, o),
    ensures
        any_decodes(text, probe_st(text), w),
        match o {
            Ok(v) => w is Ok && w->Ok_0.0 == v && w->Ok_0.1.pos == text.len(),
            Err(p) => w == Err::<(ValueModel, St), int>(p) || (w is Ok && w->Ok_0.1.pos == p && p
                != text.len()),
        },
{
    let st0 = probe_st(text);
    match o {
        Ok(v) => {
            let st = choose|st: St|
                #![trigger any_decodes(text, probe_st(text), Ok((v, st)))]
                any_decodes(text, st0, Ok((v, st))) && st.pos == text.len();
            Ok((v, st))
        },
        Err(p) => {
            if any_decodes(text, st0, Err(p)) {
                Err(p)
            } else {
                let (v, st) = choose|v: ValueModel, st: St|
                    #![trigger any_decodes(text, probe_st(text), Ok((v, st)))]
                    any_decodes(text, st0, Ok((v, st))) && st.pos == p && p != text.len();
                Ok((v, st))
            }
        },
    }
}

/// The start of a line never lies beyond the position that names it.
pub proof fn lemma_line_start_bounds(text: Seq<char>, pos: int)
    requires
        pos >= 0,
    ensures
        0 <= grammar::line_start(text, pos) <= pos,
    decreases pos,
{
    if pos > 0 && text[pos - 1] != '\n' {
        lemma_line_start_bounds(text, pos - 1);
    }
}

} // verus!
