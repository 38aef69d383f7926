//! The dynamic value model: a schema-less union type representing any
//! decoded document, built atop the decode engine.

use vstd::prelude::*;

verus! {

broadcast use vstd::std_specs::vec::group_vec_axioms;

/// A decoded number: an integer, or a float carried as its source text (the
/// engine never interprets float lexemes numerically; a consumer converts the
/// text when it needs the value).
#[derive(Debug, PartialEq, Eq, Clone)]
pub enum Number {
    Int(i64),
    Flt(String),
}

/// The mathematical model of a [`Number`].
pub enum NumberModel {
    Int(i64),
    Flt(Seq<char>),
}

impl View for Number {
    type V = NumberModel;

    open spec fn view(&self) -> NumberModel {
        match self {
            Number::Int(v) => NumberModel::Int(*v),
            Number::Flt(s) => NumberModel::Flt(s@),
        }
    }
}

/// A decoded literal: a number, a string, a boolean, or null.
#[derive(Debug, PartialEq, Eq, Clone)]
pub enum Literal {
    Number(Number),
    Str(String),
    Bool(bool),
    Null,
}

/// The mathematical model of a [`Literal`].
pub enum LiteralModel {
    Number(NumberModel),
    Str(Seq<char>),
    Bool(bool),
    Null,
}

impl View for Literal {
    type V = LiteralModel;

    open spec fn view(&self) -> LiteralModel {
        match self {
            Literal::Number(n) => LiteralModel::Number(n@),
            Literal::Str(s) => LiteralModel::Str(s@),
            Literal::Bool(b) => LiteralModel::Bool(*b),
            Literal::Null => LiteralModel::Null,
        }
    }
}

/// A decoded document: a literal, a sequence, or keyed entries in either the
/// map flavor or the struct flavor. The two flavors hold the same data; the
/// tag is the sole signal a schema-less consumer has for how the source
/// framed the entries: the struct flavor means the source wrote the `( )`
/// parentheses itself, while `{ }` braces and both un-bracketed top-level
/// forms carry the map flavor. Entry keys are unique and keep
/// first-appearance order; a repeated key replaces the stored value.
#[derive(Debug, PartialEq, Eq)]
pub enum Value {
    Literal(Literal),
    Mapping(Vec<(String, Value)>),
    Record(Vec<(String, Value)>),
    Sequence(Vec<Value>),
}

/// The mathematical model of a [`Value`].
#[verifier::ext_equal]
pub enum ValueModel {
    Literal(LiteralModel),
    Mapping(Seq<(Seq<char>, ValueModel)>),
    Record(Seq<(Seq<char>, ValueModel)>),
    Sequence(Seq<ValueModel>),
}

/// The model of an entry list: each key viewed as its characters, each value
/// as its model.
pub open spec fn entries_model(es: Seq<(String, Value)>) -> Seq<(Seq<char>, ValueModel)>
    decreases es,
{
    if es.len() == 0 {
        Seq::empty()
    } else {
        seq![(es[0].0@, value_model(es[0].1))] + entries_model(es.drop_first())
    }
}

/// The model of an item list.
pub open spec fn items_model(items: Seq<Value>) -> Seq<ValueModel>
    decreases items,
{
    if items.len() == 0 {
        Seq::empty()
    } else {
        seq![value_model(items[0])] + items_model(items.drop_first())
    }
}

/// The model of a value.
pub open spec fn value_model(v: Value) -> ValueModel
    decreases v,
{
    match v {
        Value::Literal(l) => ValueModel::Literal(l@),
        Value::Mapping(entries) => {
            proof {
                assert(decreases_to!(v => entries));
                assert(decreases_to!(entries => entries@));
            }
            ValueModel::Mapping(entries_model(entries@))
        },
        Value::Record(entries) => {
            proof {
                assert(decreases_to!(v => entries));
                assert(decreases_to!(entries => entries@));
            }
            ValueModel::Record(entries_model(entries@))
        },
        Value::Sequence(items) => {
            proof {
                assert(decreases_to!(v => items));
                assert(decreases_to!(items => items@));
            }
            ValueModel::Sequence(items_model(items@))
        },
    }
}

/// The entry-list model is the elementwise model.
pub proof fn lemma_entries_model(es: Seq<(String, Value)>)
    ensures
        entries_model(es).len() == es.len(),
        forall|k: int|
            0 <= k < es.len() ==> #[trigger] entries_model(es)[k] == (
            es[k].0@,
            value_model(es[k].1),
            ),
    decreases es,
{
    if es.len() > 0 {
        lemma_entries_model(es.drop_first());
        assert forall|k: int|
            0 <= k < es.len() implies #[trigger] entries_model(es)[k] == (
        es[k].0@,
        value_model(es[k].1),
        ) by {
            if k > 0 {
                assert(es.drop_first()[k - 1] == es[k]);
            }
        }
    }
}

/// The item-list model is the elementwise model.
pub proof fn lemma_items_model(items: Seq<Value>)
    ensures
        items_model(items).len() == items.len(),
        forall|k: int|
            0 <= k < items.len() ==> #[trigger] items_model(items)[k] == value_model(items[k]),
    decreases items,
{
    if items.len() > 0 {
        lemma_items_model(items.drop_first());
        assert forall|k: int|
            0 <= k < items.len() implies #[trigger] items_model(items)[k] == value_model(
            items[k],
        ) by {
            if k > 0 {
                assert(items.drop_first()[k - 1] == items[k]);
            }
        }
    }
}

impl View for Value {
    type V = ValueModel;

    open spec fn view(&self) -> ValueModel {
        value_model(*self)
    }
}

/// The first entry holding key `k`, if any.
pub open spec fn find_key(es: Seq<(Seq<char>, ValueModel)>, k: Seq<char>) -> Option<int>
    decreases es.len(),
{
    if es.len() == 0 {
        None
    } else if es[0].0 == k {
        Some(0)
    } else {
        match find_key(es.drop_first(), k) {
            Some(m) => Some(m + 1),
            None => None,
        }
    }
}

/// Storing one decoded entry: a repeated key replaces the stored value in
/// place, a new key goes to the end.
pub open spec fn upsert(
    es: Seq<(Seq<char>, ValueModel)>,
    k: Seq<char>,
    v: ValueModel,
) -> Seq<(Seq<char>, ValueModel)> {
    match find_key(es, k) {
        Some(m) => es.update(m, (k, v)),
        None => es.push((k, v)),
    }
}

/// `find_key` returns the first entry holding the key, or reports that none
/// does.
pub proof fn lemma_find_key(es: Seq<(Seq<char>, ValueModel)>, k: Seq<char>)
    ensures
        match find_key(es, k) {
            Some(m) => 0 <= m < es.len() && es[m].0 == k && forall|j: int|
                0 <= j < m ==> (#[trigger] es[j]).0 != k,
            None => forall|j: int| 0 <= j < es.len() ==> (#[trigger] es[j]).0 != k,
        },
    decreases es.len(),
{
    if es.len() > 0 && es[0].0 != k {
        lemma_find_key(es.drop_first(), k);
        match find_key(es.drop_first(), k) {
            Some(m) => {
                assert(es.drop_first()[m] == es[m + 1]);
                assert forall|j: int| 0 <= j < m + 1 implies (#[trigger] es[j]).0 != k by {
                    if j > 0 {
                        assert(es.drop_first()[j - 1] == es[j]);
                    }
                }
            },
            None => {
                assert forall|j: int| 0 <= j < es.len() implies (#[trigger] es[j]).0 != k by {
                    if j > 0 {
                        assert(es.drop_first()[j - 1] == es[j]);
                    }
                }
            },
        }
    }
}

/// Appending an item appends its model.
pub proof fn lemma_items_model_push(items: Seq<Value>, v: Value)
    ensures
        items_model(items.push(v)) == items_model(items).push(value_model(v)),
{
    lemma_items_model(items);
    lemma_items_model(items.push(v));
    assert(items_model(items.push(v)) =~= items_model(items).push(value_model(v)));
}

/// Stores one decoded entry: a repeated key replaces the stored value in
/// place, a new key goes to the end, so keys stay unique and keep
/// first-appearance order.
pub fn entries_insert(entries: &mut Vec<(String, Value)>, k: String, v: Value)
    ensures
        entries_model(final(entries)@) == upsert(entries_model(old(entries)@), k@, value_model(v)),
{
    let ghost es0 = entries@;
    proof {
        lemma_entries_model(es0);
        lemma_find_key(entries_model(es0), k@);
    }
    let mut idx: usize = 0;
    while idx < entries.len()
        invariant
            idx <= entries@.len(),
            entries@ == es0,
            es0 == old(entries)@,
            forall|j: int| 0 <= j < idx ==> (#[trigger] entries_model(es0)[j]).0 != k@,
        decreases entries@.len() - idx,
    {
        if entries[idx].0 == k {
            proof {
                lemma_entries_model(es0);
                lemma_find_key(entries_model(es0), k@);
                assert(entries_model(es0)[idx as int].0 == k@);
                assert(find_key(entries_model(es0), k@) == Some(idx as int));
            }
            entries.set(idx, (k, v));
            proof {
                lemma_entries_model(es0);
                lemma_entries_model(entries@);
                assert(entries_model(entries@) =~= entries_model(es0).update(
                    idx as int,
                    (k@, value_model(v)),
                ));
            }
            return ;
        }
        proof {
            lemma_entries_model(es0);
        }
        idx = idx + 1;
    }
    proof {
        lemma_entries_model(es0);
        assert(find_key(entries_model(es0), k@) is None);
    }
    entries.push((k, v));
    proof {
        lemma_entries_model(es0);
        lemma_entries_model(entries@);
        assert(entries_model(entries@) =~= entries_model(es0).push((k@, value_model(v))));
    }
}

/// The error a typed extraction returns when the stored value does not match
/// the requested type or range.
#[derive(Debug, PartialEq, Eq)]
pub struct NumCastErr;

impl Value {
    /// A string value.
    pub fn string(s: &str) -> (r: Self)
        ensures
            r@ == ValueModel::Literal(LiteralModel::Str(s@)),
    {
        Value::Literal(Literal::Str(s.to_owned()))
    }

    /// A boolean value.
    pub fn bool(b: bool) -> (r: Self)
        ensures
            r@ == ValueModel::Literal(LiteralModel::Bool(b)),
    {
        Value::Literal(Literal::Bool(b))
    }

    /// An integer value.
    pub fn integer(i: i64) -> (r: Self)
        ensures
            r@ == ValueModel::Literal(LiteralModel::Number(NumberModel::Int(i))),
    {
        Value::Literal(Literal::Number(Number::Int(i)))
    }

    /// A float value, carried as its source text.
    pub fn flt(text: &str) -> (r: Self)
        ensures
            r@ == ValueModel::Literal(LiteralModel::Number(NumberModel::Flt(text@))),
    {
        Value::Literal(Literal::Number(Number::Flt(text.to_owned())))
    }

    /// The null value.
    pub fn null() -> (r: Self)
        ensures
            r@ == ValueModel::Literal(LiteralModel::Null),
    {
        Value::Literal(Literal::Null)
    }

    /// Extracts a boolean; fails on any other stored value.
    pub fn as_bool(&self) -> (r: Result<bool, NumCastErr>)
        ensures
            match r {
                Ok(b) => self@ == ValueModel::Literal(LiteralModel::Bool(b)),
                Err(_) => forall|b: bool|
                    self@ != ValueModel::Literal(LiteralModel::Bool(b)),
            },
    {
        match self {
            Value::Literal(Literal::Bool(b)) => Ok(*b),
            _ => Err(NumCastErr),
        }
    }

    /// Extracts an integer; fails on any other stored value.
    pub fn as_int(&self) -> (r: Result<i64, NumCastErr>)
        ensures
            match r {
                Ok(v) => self@ == ValueModel::Literal(
                    LiteralModel::Number(NumberModel::Int(v)),
                ),
                Err(_) => forall|v: i64|
                    self@ != ValueModel::Literal(LiteralModel::Number(NumberModel::Int(v))),
            },
    {
        match self {
            Value::Literal(Literal::Number(Number::Int(v))) => Ok(*v),
            _ => Err(NumCastErr),
        }
    }

    /// Extracts an integer that must fit 8 unsigned bits; fails on a range
    /// overflow or any other stored value.
    pub fn as_u8(&self) -> (r: Result<u8, NumCastErr>)
        ensures
            match r {
                Ok(v) => self@ == ValueModel::Literal(
                    LiteralModel::Number(NumberModel::Int(v as i64)),
                ),
                Err(_) => forall|v: i64|
                    self@ == ValueModel::Literal(LiteralModel::Number(NumberModel::Int(v)))
                        ==> !(0 <= v <= u8::MAX),
            },
    {
        match self.as_int() {
            Ok(v) => if 0 <= v && v <= 255 {
                Ok(v as u8)
            } else {
                Err(NumCastErr)
            },
            Err(e) => Err(e),
        }
    }

    /// Extracts an integer that must fit 32 unsigned bits; fails on a range
    /// overflow or any other stored value.
    pub fn as_u32(&self) -> (r: Result<u32, NumCastErr>)
        ensures
            match r {
                Ok(v) => self@ == ValueModel::Literal(
                    LiteralModel::Number(NumberModel::Int(v as i64)),
                ),
                Err(_) => forall|v: i64|
                    self@ == ValueModel::Literal(LiteralModel::Number(NumberModel::Int(v)))
                        ==> !(0 <= v <= u32::MAX),
            },
    {
        match self.as_int() {
            Ok(v) => if 0 <= v && v <= 4294967295 {
                Ok(v as u32)
            } else {
                Err(NumCastErr)
            },
            Err(e) => Err(e),
        }
    }

    /// Extracts a string; fails on any other stored value.
    pub fn as_string(&self) -> (r: Result<String, NumCastErr>)
        ensures
            match r {
                Ok(s) => self@ == ValueModel::Literal(LiteralModel::Str(s@)),
                Err(_) => forall|s: Seq<char>|
                    self@ != ValueModel::Literal(LiteralModel::Str(s)),
            },
    {
        match self {
            Value::Literal(Literal::Str(s)) => Ok(s.clone()),
            _ => Err(NumCastErr),
        }
    }

    /// Whether this is the null value.
    pub fn is_null(&self) -> (r: bool)
        ensures
            r == (self@ == ValueModel::Literal(LiteralModel::Null)),
    {
        match self {
            Value::Literal(Literal::Null) => true,
            _ => false,
        }
    }
}

impl Literal {
    /// A string literal.
    pub fn from_string(s: &str) -> (r: Self)
        ensures
            r@ == LiteralModel::Str(s@),
    {
        Literal::Str(s.to_owned())
    }

    /// A boolean literal.
    pub fn from_bool(b: bool) -> (r: Self)
        ensures
            r@ == LiteralModel::Bool(b),
    {
        Literal::Bool(b)
    }

    /// An integer literal.
    pub fn from_int(i: i64) -> (r: Self)
        ensures
            r@ == LiteralModel::Number(NumberModel::Int(i)),
    {
        Literal::Number(Number::Int(i))
    }

    /// A float literal, carried as its source text.
    pub fn from_flt(text: &str) -> (r: Self)
        ensures
            r@ == LiteralModel::Number(NumberModel::Flt(text@)),
    {
        Literal::Number(Number::Flt(text.to_owned()))
    }
}

} // verus!
