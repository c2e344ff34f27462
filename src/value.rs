use vstd::prelude::*;

verus! {

/// A typed extxyz value. Text is kept as bytes; a real number is kept as the
/// literal that was read (a decimal or scientific-notation number), so that
/// no precision is lost and it can be written back exactly.
#[derive(Debug)]
pub enum Value {
    Int(i32),
    Float(Vec<u8>),
    Bool(bool),
    Str(Vec<u8>),
    IntArray(Vec<i32>),
    FloatArray(Vec<Vec<u8>>),
    BoolArray(Vec<bool>),
    StrArray(Vec<Vec<u8>>),
    MatrixInt(Vec<Vec<i32>>),
    MatrixFloat(Vec<Vec<Vec<u8>>>),
    MatrixBool(Vec<Vec<bool>>),
    MatrixStr(Vec<Vec<Vec<u8>>>),
    Dict(Vec<(Vec<u8>, Value)>),
    Unsupported,
}

/// The mathematical model of a `Value`.
pub enum SValue {
    Int(int),
    Float(Seq<u8>),
    Bool(bool),
    Str(Seq<u8>),
    IntArray(Seq<int>),
    FloatArray(Seq<Seq<u8>>),
    BoolArray(Seq<bool>),
    StrArray(Seq<Seq<u8>>),
    MatrixInt(Seq<Seq<int>>),
    MatrixFloat(Seq<Seq<Seq<u8>>>),
    MatrixBool(Seq<Seq<bool>>),
    MatrixStr(Seq<Seq<Seq<u8>>>),
    Dict,
    Unsupported,
}

/// The model of a list of integers.
pub open spec fn ints_view(v: Vec<i32>) -> Seq<int> {
    v@.map_values(|x: i32| x as int)
}

/// The model of a list of byte strings.
pub open spec fn texts_view(v: Vec<Vec<u8>>) -> Seq<Seq<u8>> {
    v@.map_values(|w: Vec<u8>| w@)
}

/// The model of a matrix of integers.
pub open spec fn int_rows_view(m: Vec<Vec<i32>>) -> Seq<Seq<int>> {
    m@.map_values(|r: Vec<i32>| ints_view(r))
}

/// The model of a matrix of booleans.
pub open spec fn bool_rows_view(m: Vec<Vec<bool>>) -> Seq<Seq<bool>> {
    m@.map_values(|r: Vec<bool>| r@)
}

/// The model of a matrix of byte strings.
pub open spec fn text_rows_view(m: Vec<Vec<Vec<u8>>>) -> Seq<Seq<Seq<u8>>> {
    m@.map_values(|r: Vec<Vec<u8>>| texts_view(r))
}

impl View for Value {
    type V = SValue;

    open spec fn view(&self) -> SValue {
        match self {
            Value::Int(x) => SValue::Int(*x as int),
            Value::Float(t) => SValue::Float(t@),
            Value::Bool(b) => SValue::Bool(*b),
            Value::Str(t) => SValue::Str(t@),
            Value::IntArray(v) => SValue::IntArray(ints_view(*v)),
            Value::FloatArray(v) => SValue::FloatArray(texts_view(*v)),
            Value::BoolArray(v) => SValue::BoolArray(v@),
            Value::StrArray(v) => SValue::StrArray(texts_view(*v)),
            Value::MatrixInt(m) => SValue::MatrixInt(int_rows_view(*m)),
            Value::MatrixFloat(m) => SValue::MatrixFloat(text_rows_view(*m)),
            Value::MatrixBool(m) => SValue::MatrixBool(bool_rows_view(*m)),
            Value::MatrixStr(m) => SValue::MatrixStr(text_rows_view(*m)),
            Value::Dict(_) => SValue::Dict,
            Value::Unsupported => SValue::Unsupported,
        }
    }
}

} // verus!
