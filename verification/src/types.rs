use vstd::prelude::*;

verus! {

/// The type of a table column.
#[derive(Debug, Clone, Copy, PartialEq, Eq, Structural)]
pub enum ColumnType {
    Int,
    Text,
}

/// A value stored in a row.
#[derive(Debug, Clone, PartialEq)]
pub enum Value {
    Int(i64),
    Text(String),
    Null,
}

/// The mathematical model of a [`Value`]: text is a sequence of characters.
pub ghost enum ValueV {
    Int(i64),
    Text(Seq<char>),
    Null,
}

impl View for Value {
    type V = ValueV;

    open spec fn view(&self) -> ValueV {
        match self {
            Value::Int(n) => ValueV::Int(*n),
            Value::Text(s) => ValueV::Text(s@),
            Value::Null => ValueV::Null,
        }
    }
}

/// The column type a value belongs to; NULL belongs to none.
pub open spec fn spec_type_of(v: ValueV) -> Option<ColumnType> {
    match v {
        ValueV::Int(_) => Some(ColumnType::Int),
        ValueV::Text(_) => Some(ColumnType::Text),
        ValueV::Null => None,
    }
}

impl Value {
    /// The type of this value, `None` for NULL.
    pub fn type_of(&self) -> (r: Option<ColumnType>)
        ensures
            r == spec_type_of(self@),
    {
        match self {
            Value::Int(_) => Some(ColumnType::Int),
            Value::Text(_) => Some(ColumnType::Text),
            Value::Null => None,
        }
    }

    /// A copy of this value with the same model.
    pub fn duplicate(&self) -> (r: Value)
        ensures
            r@ == self@,
    {
        match self {
            Value::Int(n) => Value::Int(*n),
            Value::Text(s) => Value::Text(s.clone()),
            Value::Null => Value::Null,
        }
    }
}

} // verus!
