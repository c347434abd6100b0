//! SQL values, the readings that a table takes of them, and result codes.

use vstd::prelude::*;
use crate::bytes;
use crate::coord::Coord;

verus! {

/// How a call on a table or a cursor ends.
#[derive(Clone, Copy, Debug, PartialEq, Eq, Structural)]
pub enum ResultCode {
    OK,
    Error,
    InvalidArgs,
    NotFound,
    Corrupt,
    ConstraintViolation,
    EOF,
}

/// An SQL value. A floating point number is held by its bits.
#[derive(Clone, Debug)]
pub enum Value {
    Null,
    Integer(i64),
    Float(u64),
    Text(String),
    Blob(Vec<u8>),
    Error,
}

/// The model of a value.
#[verifier::ext_equal]
pub enum ValueView {
    Null,
    Integer(i64),
    Float(u64),
    Text(Seq<char>),
    Blob(Seq<u8>),
    Error,
}

impl View for Value {
    type V = ValueView;

    open spec fn view(&self) -> ValueView {
        match self {
            Value::Null => ValueView::Null,
            Value::Integer(i) => ValueView::Integer(*i),
            Value::Float(bits) => ValueView::Float(*bits),
            Value::Text(text) => ValueView::Text(text@),
            Value::Blob(blob) => ValueView::Blob(blob@),
            Value::Error => ValueView::Error,
        }
    }
}

/// The models of the values of a list.
pub open spec fn value_views(values: Seq<Value>) -> Seq<ValueView> {
    Seq::new(values.len(), |i: int| values[i]@)
}

impl ValueView {
    /// The value as it is kept: an error is kept as NULL.
    pub open spec fn owned(self) -> ValueView {
        match self {
            ValueView::Error => ValueView::Null,
            v => v,
        }
    }
}

/// The values of a list as they are kept.
pub open spec fn owned_all(values: Seq<ValueView>) -> Seq<ValueView> {
    Seq::new(values.len(), |i: int| values[i].owned())
}

/// A copy of `v` to keep; an error is kept as NULL.
pub fn value_to_owned(v: &Value) -> (r: Value)
    ensures
        r@ == v@.owned(),
{
    match v {
        Value::Null => Value::Null,
        Value::Integer(i) => Value::Integer(*i),
        Value::Float(bits) => Value::Float(*bits),
        Value::Text(text) => Value::Text(text.clone()),
        Value::Blob(blob) => Value::Blob(bytes::copy_bytes(blob)),
        Value::Error => Value::Null,
    }
}

/// A copy of `v`.
pub fn copy_value(v: &Value) -> (r: Value)
    ensures
        r@ == v@,
{
    match v {
        Value::Error => Value::Error,
        other => value_to_owned(other),
    }
}

/// A copy of `values`.
pub fn copy_values(values: &Vec<Value>) -> (r: Vec<Value>)
    ensures
        value_views(r@) == value_views(values@),
{
    let mut out: Vec<Value> = Vec::new();
    let mut i: usize = 0;
    while i < values.len()
        invariant
            i <= values.len(),
            out.len() == i,
            forall|j: int| 0 <= j < i ==> #[trigger] out@[j]@ == values@[j]@,
        decreases values.len() - i,
    {
        out.push(copy_value(&values[i]));
        i = i + 1;
    }
    assert(value_views(out@) =~= value_views(values@));
    out
}

/// Copies of `values` to keep.
pub fn values_to_owned(values: &Vec<Value>) -> (r: Vec<Value>)
    ensures
        value_views(r@) == owned_all(value_views(values@)),
{
    let mut out: Vec<Value> = Vec::new();
    let mut i: usize = 0;
    while i < values.len()
        invariant
            i <= values.len(),
            out.len() == i,
            forall|j: int| 0 <= j < i ==> #[trigger] out@[j]@ == values@[j]@.owned(),
        decreases values.len() - i,
    {
        out.push(value_to_owned(&values[i]));
        i = i + 1;
    }
    assert(value_views(out@) =~= owned_all(value_views(values@)));
    out
}

/// An argument with the readings that a table takes of it.
#[derive(Clone, Debug)]
pub struct Arg {
    /// The value read as an integer, where it can be.
    pub integer: Option<i64>,
    /// The value read as a number and narrowed to a coordinate, where it can be.
    pub real: Option<Coord>,
    pub value: Value,
}

/// The model of an argument.
#[verifier::ext_equal]
pub struct ArgView {
    pub integer: Option<i64>,
    pub real: Option<Coord>,
    pub value: ValueView,
}

impl View for Arg {
    type V = ArgView;

    open spec fn view(&self) -> ArgView {
        ArgView { integer: self.integer, real: self.real, value: self.value@ }
    }
}

/// The models of the arguments of a list.
pub open spec fn arg_views(args: Seq<Arg>) -> Seq<ArgView> {
    Seq::new(args.len(), |i: int| args[i]@)
}

} // verus!
