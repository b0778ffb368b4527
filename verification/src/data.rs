//! Scalar values, rows and identifiers.
use vstd::prelude::*;

verus! {

/// One scalar of a row.
///
/// A floating-point number is held as its IEEE 754 bit pattern, so that two
/// values are equal exactly when their bits are.
#[derive(Debug, PartialEq)]
pub enum Value {
    Bool(bool),
    I64(i64),
    F64(u64),
    Str(String),
    Null,
}

impl Clone for Value {
    fn clone(&self) -> (copy: Self)
        ensures
            copy == *self,
    {
        match self {
            Value::Bool(b) => Value::Bool(*b),
            Value::I64(n) => Value::I64(*n),
            Value::F64(bits) => Value::F64(*bits),
            Value::Str(text) => Value::Str(text.clone()),
            Value::Null => Value::Null,
        }
    }
}

/// An output row: its values, in the order of the SELECT list.
#[derive(Debug, PartialEq)]
pub struct Row(pub Vec<Value>);

impl View for Row {
    type V = Seq<Value>;

    open spec fn view(&self) -> Seq<Value> {
        self.0@
    }
}

impl Clone for Row {
    fn clone(&self) -> (copy: Self)
        ensures
            copy@ == self@,
    {
        Row(clone_values(&self.0))
    }
}

/// A copy of `values`, value by value.
pub fn clone_values(values: &Vec<Value>) -> (copy: Vec<Value>)
    ensures
        copy@ == values@,
{
    let mut copy: Vec<Value> = Vec::new();
    let mut i: usize = 0;
    while i < values.len()
        invariant
            i <= values.len(),
            copy@ == values@.take(i as int),
        decreases values.len() - i,
    {
        copy.push(values[i].clone());
        i += 1;
        assert(copy@ =~= values@.take(i as int));
    }
    assert(values@.take(values.len() as int) =~= values@);
    copy
}

/// An identifier: its text without quotes, and the quote it was written in.
#[derive(Debug, PartialEq)]
pub struct Ident {
    pub value: String,
    pub quote_style: Option<char>,
}

impl Clone for Ident {
    fn clone(&self) -> (copy: Self)
        ensures
            copy == *self,
    {
        let quote_style = match self.quote_style {
            Some(quote) => Some(quote),
            None => None,
        };
        Ident { value: self.value.clone(), quote_style }
    }
}

} // verus!
