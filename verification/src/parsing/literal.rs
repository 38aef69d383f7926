//! Scanners for the literal tokens: booleans, null, integers and floats.

use vstd::prelude::*;

use crate::grammar;

verus! {

/// A boolean literal at `i`: exact match on `true` or `false`.
pub fn boolean(text: &Vec<char>, i: usize) -> (r: Option<(bool, usize)>)
    requires
        i <= text@.len(),
    ensures
        match r {
            Some((b, e)) => grammar::bool_end(text@, i as int) == Some((b, e as int)) && i < e
                <= text@.len(),
            None => grammar::bool_end(text@, i as int) is None,
        },
{
    if text.len() - i >= 5 && text[i] == 'f' && text[i + 1] == 'a' && text[i + 2] == 'l' && text[i
        + 3] == 's' && text[i + 4] == 'e' {
        Some((false, i + 5))
    } else if text.len() - i >= 4 && text[i] == 't' && text[i + 1] == 'r' && text[i + 2] == 'u'
        && text[i + 3] == 'e' {
        Some((true, i + 4))
    } else {
        None
    }
}

/// A null literal at `i`: exact match on `null`.
pub fn null(text: &Vec<char>, i: usize) -> (r: Option<usize>)
    requires
        i <= text@.len(),
    ensures
        match r {
            Some(e) => grammar::null_end(text@, i as int) == Some(e as int) && i < e
                <= text@.len(),
            None => grammar::null_end(text@, i as int) is None,
        },
{
    if text.len() - i >= 4 && text[i] == 'n' && text[i + 1] == 'u' && text[i + 2] == 'l' && text[i
        + 3] == 'l' {
        Some(i + 4)
    } else {
        None
    }
}

/// The value of a digit-and-underscore run never goes negative.
proof fn lemma_digits_val_nonneg(text: Seq<char>, i: int, j: int)
    requires
        forall|k: int| i <= k < j ==> grammar::is_num_char(#[trigger] text[k]),
    ensures
        grammar::digits_val(text, i, j) >= 0,
    decreases j - i,
{
    if i < j {
        lemma_digits_val_nonneg(text, i, j - 1);
    }
}

/// Extending a digit-and-underscore run never shrinks its value.
proof fn lemma_digits_val_mono(text: Seq<char>, i: int, j1: int, j2: int)
    requires
        j1 <= j2,
        forall|k: int| i <= k < j2 ==> grammar::is_num_char(#[trigger] text[k]),
    ensures
        grammar::digits_val(text, i, j1) <= grammar::digits_val(text, i, j2),
    decreases j2 - j1,
{
    if j1 < j2 {
        lemma_digits_val_mono(text, i, j1, j2 - 1);
        lemma_digits_val_nonneg(text, i, j2 - 1);
    }
}

/// An integer literal at `i`: an optional minus sign, then digits optionally
/// interspersed with underscores. Yields the value and the position just past
/// the literal; a literal whose value does not fit 64 signed bits is
/// rejected.
pub fn integer(text: &Vec<char>, i: usize) -> (r: Option<(i64, usize)>)
    requires
        i <= text@.len(),
    ensures
        match r {
            Some((v, e)) => grammar::int_token(text@, i as int) == Some((v as int, e as int)) && i
                < e <= text@.len(),
            None => grammar::int_token(text@, i as int) is None,
        },
{
    let neg = i < text.len() && text[i] == '-';
    let s: usize = if neg {
        i + 1
    } else {
        i
    };
    if !(s < text.len() && '0' <= text[s] && text[s] <= '9') {
        return None;
    }
    let bound: u64 = if neg {
        9223372036854775808
    } else {
        9223372036854775807
    };
    let mut p: usize = s;
    let mut acc: u64 = 0;
    loop
        invariant
            i <= s <= p <= text@.len(),
            s < text@.len(),
            neg == (i < text@.len() && text@[i as int] == '-'),
            neg ==> s == i + 1,
            !neg ==> s == i,
            bound == if neg {
                9223372036854775808u64
            } else {
                9223372036854775807u64
            },
            grammar::is_digit(text@[s as int]),
            acc == grammar::digits_val(text@, s as int, p as int),
            acc <= bound,
            grammar::num_run_end(text@, s as int) == grammar::num_run_end(text@, p as int),
            forall|k: int| s <= k < p ==> grammar::is_num_char(#[trigger] text@[k]),
        ensures
            i <= s <= p <= text@.len(),
            acc == grammar::digits_val(text@, s as int, p as int),
            acc <= bound,
            p == grammar::num_run_end(text@, s as int),
            forall|k: int| s <= k < p ==> grammar::is_num_char(#[trigger] text@[k]),
        decreases text@.len() - p,
    {
        if p == text.len() {
            break ;
        }
        let c = text[p];
        if c == '_' {
            p = p + 1;
        } else if '0' <= c && c <= '9' {
            let d: u64 = (c as u32 as u64) - ('0' as u32 as u64);
            if acc > (bound - d) / 10 {
                proof {
                    grammar::lemma_num_run_end_bounds(text@, p as int + 1);
                    assert(grammar::digits_val(text@, s as int, p as int + 1) == acc * 10 + d);
                    assert(acc * 10 + d > bound);
                    lemma_digits_val_mono(text@, s as int, p as int + 1, grammar::num_run_end(
                        text@,
                        s as int,
                    ));
                    assert(!grammar::int_fits(text@, i as int, grammar::num_run_end(
                        text@,
                        s as int,
                    )));
                }
                return None;
            }
            acc = acc * 10 + d;
            p = p + 1;
        } else {
            break ;
        }
    }
    proof {
        grammar::lemma_num_run_end_bounds(text@, s as int + 1);
        lemma_digits_val_nonneg(text@, s as int, p as int);
        assert(grammar::int_end(text@, i as int) == Some(p as int));
        assert(grammar::int_val(text@, i as int, p as int) == if neg {
            -(acc as int)
        } else {
            acc as int
        });
        assert(grammar::int_fits(text@, i as int, p as int));
    }
    if neg {
        if acc == 9223372036854775808 {
            Some((-9223372036854775807i64 - 1, p))
        } else {
            Some((-(acc as i64), p))
        }
    } else {
        Some((acc as i64, p))
    }
}

/// An integer component inside a float literal: the extent alone.
fn component(text: &Vec<char>, i: usize) -> (r: Option<usize>)
    requires
        i <= text@.len(),
    ensures
        match r {
            Some(e) => grammar::comp_end(text@, i as int) == Some(e as int) && i < e
                <= text@.len(),
            None => grammar::comp_end(text@, i as int) is None,
        },
{
    match integer(text, i) {
        Some((_, e)) => Some(e),
        None => None,
    }
}

/// An exponent part at `i`: `e` or `E`, an optional sign, then an integer
/// component.
fn exponent(text: &Vec<char>, i: usize) -> (r: Option<usize>)
    requires
        i <= text@.len(),
    ensures
        match r {
            Some(e) => grammar::exp_end(text@, i as int) == Some(e as int) && i < e
                <= text@.len(),
            None => grammar::exp_end(text@, i as int) is None,
        },
{
    if i < text.len() && (text[i] == 'e' || text[i] == 'E') {
        let s: usize = if i + 1 < text.len() && (text[i + 1] == '+' || text[i + 1] == '-') {
            i + 2
        } else {
            i + 1
        };
        component(text, s)
    } else {
        None
    }
}

/// A float literal at `i`: four lexical shapes tried in order — leading dot
/// with optional exponent, integer with mandatory exponent, integer with a
/// dot and optional fraction, and a bare integer. The first match wins; a
/// lexeme holding an underscore or a misplaced sign is rejected. Yields the
/// position just past the lexeme.
pub fn float(text: &Vec<char>, i: usize) -> (r: Option<usize>)
    requires
        i <= text@.len(),
    ensures
        match r {
            Some(e) => grammar::float_token(text@, i as int) == Some(e as int) && i < e
                <= text@.len(),
            None => grammar::float_token(text@, i as int) is None,
        },
{
    let end: Option<usize> = float_extent(text, i);
    match end {
        Some(j) => {
            let mut p: usize = i;
            while p < j
                invariant
                    i <= p <= j <= text@.len(),
                    grammar::float_end(text@, i as int) == Some(j as int),
                    forall|k: int|
                        i <= k < p ==> #[trigger] text@[k] != '_' && (text@[k] == '-' ==> k == i
                            || text@[k - 1] == 'e' || text@[k - 1] == 'E'),
                decreases j - p,
            {
                let c = text[p];
                if c == '_' {
                    proof {
                        assert(i <= p < j && text@[p as int] == '_');
                        assert(!grammar::float_valid(text@, i as int, j as int));
                    }
                    return None;
                }
                if c == '-' && p > i && !(text[p - 1] == 'e' || text[p - 1] == 'E') {
                    proof {
                        assert(i <= p < j && text@[p as int] == '-');
                        assert(!grammar::float_valid(text@, i as int, j as int));
                    }
                    return None;
                }
                p = p + 1;
            }
            Some(j)
        },
        None => None,
    }
}

/// The extent of a float lexeme at `i`, before the well-formedness check.
fn float_extent(text: &Vec<char>, i: usize) -> (r: Option<usize>)
    requires
        i <= text@.len(),
    ensures
        match r {
            Some(e) => grammar::float_end(text@, i as int) == Some(e as int) && i < e
                <= text@.len(),
            None => grammar::float_end(text@, i as int) is None,
        },
{
    if i < text.len() && text[i] == '.' {
        // Shape one: .42 and .42e-3
        match component(text, i + 1) {
            Some(j) => {
                match exponent(text, j) {
                    Some(k) => Some(k),
                    None => Some(j),
                }
            },
            None => None,
        }
    } else {
        match component(text, i) {
            Some(j) => {
                // Shape two: 42e42 and 42.42e42
                let j2: usize = if j < text.len() && text[j] == '.' {
                    match component(text, j + 1) {
                        Some(k) => k,
                        None => j,
                    }
                } else {
                    j
                };
                match exponent(text, j2) {
                    Some(k) => Some(k),
                    None => {
                        // Shape three: 42. and 42.42
                        if j < text.len() && text[j] == '.' {
                            match component(text, j + 1) {
                                Some(k) => Some(k),
                                None => Some(j + 1),
                            }
                        } else {
                            // Shape four: a bare integer
                            Some(j)
                        }
                    },
                }
            },
            None => None,
        }
    }
}

} // verus!
