//! Cell identifiers, cell values and the arguments handed to an expression,
//! each with its mathematical view.

use vstd::prelude::*;

verus! {

/// The position of a cell: zero-based column and row.
#[derive(Clone, Copy, PartialEq, Eq, PartialOrd, Ord, Hash, Debug, Structural)]
pub struct CellIdentifier {
    pub col: u32,
    pub row: u32,
}

impl CellIdentifier {
    /// The cell's position as one integer: the column in the upper half, the
    /// row in the lower half.
    pub open spec fn key(self) -> u64 {
        (self.col as u64 * 0x1_0000_0000 + self.row as u64) as u64
    }

    /// The cell whose key is `key`.
    pub open spec fn spec_from_key(key: u64) -> CellIdentifier {
        CellIdentifier { col: (key / 0x1_0000_0000) as u32, row: (key % 0x1_0000_0000) as u32 }
    }

    /// Computes the integer under which the cell is stored.
    pub fn to_key(&self) -> (key: u64)
        ensures
            key == self.key(),
    {
        self.col as u64 * 0x1_0000_0000 + self.row as u64
    }

    /// The cell that is stored under `key`. Every integer is the key of
    /// exactly one cell.
    pub fn from_key(key: u64) -> (id: CellIdentifier)
        ensures
            id == Self::spec_from_key(key),
            id.key() == key,
    {
        CellIdentifier { col: (key / 0x1_0000_0000) as u32, row: (key % 0x1_0000_0000) as u32 }
    }

    /// Two cells with the same key are the same cell.
    pub proof fn lemma_key_injective(a: CellIdentifier, b: CellIdentifier)
        ensures
            a.key() == b.key() <==> a == b,
            Self::spec_from_key(a.key()) == a,
    {
    }
}

/// The mathematical value of a cell.
pub enum Value {
    Int(i64),
    String(Seq<char>),
    Error(Seq<char>),
    Absent,
}

/// What a cell holds: an integer, a string, an error with its message, or
/// nothing.
#[derive(PartialEq, Eq, Hash, Debug)]
pub enum CellValue {
    Int(i64),
    String(String),
    Error(String),
    Absent,
}

impl View for CellValue {
    type V = Value;

    open spec fn view(&self) -> Value {
        match self {
            CellValue::Int(i) => Value::Int(*i),
            CellValue::String(s) => Value::String(s@),
            CellValue::Error(s) => Value::Error(s@),
            CellValue::Absent => Value::Absent,
        }
    }
}

impl Clone for CellValue {
    fn clone(&self) -> (copy: CellValue)
        ensures
            copy@ == self@,
    {
        match self {
            CellValue::Int(i) => CellValue::Int(*i),
            CellValue::String(s) => CellValue::String(s.clone()),
            CellValue::Error(s) => CellValue::Error(s.clone()),
            CellValue::Absent => CellValue::Absent,
        }
    }
}

/// The message of the error that marks a cell whose inputs hold an error.
pub open spec fn depends_on_error_message() -> Seq<char> {
    "VariableDependsOnError"@
}

/// The value of a cell whose inputs hold an error.
pub open spec fn depends_on_error() -> Value {
    Value::Error(depends_on_error_message())
}

impl CellValue {
    /// Whether the value is an error, whatever its message.
    pub fn is_error(&self) -> (res: bool)
        ensures
            res == (self@ is Error),
    {
        match self {
            CellValue::Error(_) => true,
            _ => false,
        }
    }

    /// The error that marks a cell whose inputs hold an error.
    pub fn depends_on_error() -> (value: CellValue)
        ensures
            value@ == depends_on_error(),
    {
        CellValue::Error("VariableDependsOnError".to_string())
    }
}

/// The mathematical value of an argument.
pub enum Argument {
    Matrix(Seq<Seq<Value>>),
    Vector(Seq<Value>),
    Value(Value),
}

/// The views of a sequence of values.
pub open spec fn values_view(values: Seq<CellValue>) -> Seq<Value> {
    Seq::new(values.len(), |i: int| values[i]@)
}

/// The views of the rows of a matrix.
pub open spec fn rows_view(rows: Seq<Vec<CellValue>>) -> Seq<Seq<Value>> {
    Seq::new(rows.len(), |i: int| values_view(rows[i]@))
}

/// What a variable of an expression is bound to: one value, a vector of
/// values, or a matrix in row-major order.
#[derive(PartialEq, Eq, Debug)]
pub enum BoundValue {
    Matrix(Vec<Vec<CellValue>>),
    Vector(Vec<CellValue>),
    Value(CellValue),
}

impl View for BoundValue {
    type V = Argument;

    open spec fn view(&self) -> Argument {
        match self {
            BoundValue::Matrix(rows) => Argument::Matrix(rows_view(rows@)),
            BoundValue::Vector(values) => Argument::Vector(values_view(values@)),
            BoundValue::Value(value) => Argument::Value(value@),
        }
    }
}

/// Why the evaluation of an expression failed.
#[derive(Clone, Copy, PartialEq, Eq, Debug, Structural)]
pub enum CellExprEvalError {
    /// A variable of the expression holds an error.
    VariableDependsOnError,
}

} // verus!
