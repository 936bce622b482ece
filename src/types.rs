use vstd::prelude::*;

verus! {

/// The column types a store understands.
#[derive(Clone, Copy, Debug, PartialEq, Eq, Structural, Hash)]
pub enum SqlType {
    Bool,
    Int,
    BigInt,
    Real,
    Text,
    Date,
    Timestamp,
    Blob,
}

/// A literal value, as used for column defaults.
///
/// A timestamp is held as seconds since the Unix epoch.
#[derive(Clone, Debug, PartialEq, Eq, Hash)]
pub enum SqlVal {
    Null,
    Bool(bool),
    Int(i32),
    BigInt(i64),
    Text(String),
    Blob(Vec<u8>),
    Timestamp(i64),
}

/// The mathematical value of a `SqlVal`.
pub enum SqlValV {
    Null,
    Bool(bool),
    Int(i32),
    BigInt(i64),
    Text(Seq<char>),
    Blob(Seq<u8>),
    Timestamp(i64),
}

impl View for SqlVal {
    type V = SqlValV;

    open spec fn view(&self) -> SqlValV {
        match self {
            SqlVal::Null => SqlValV::Null,
            SqlVal::Bool(b) => SqlValV::Bool(*b),
            SqlVal::Int(i) => SqlValV::Int(*i),
            SqlVal::BigInt(i) => SqlValV::BigInt(*i),
            SqlVal::Text(s) => SqlValV::Text(s@),
            SqlVal::Blob(b) => SqlValV::Blob(b@),
            SqlVal::Timestamp(t) => SqlValV::Timestamp(*t),
        }
    }
}

fn copy_bytes(b: &Vec<u8>) -> (r: Vec<u8>)
    ensures
        r@ == b@,
{
    let mut r: Vec<u8> = Vec::new();
    let mut i: usize = 0;
    while i < b.len()
        invariant
            i <= b.len(),
            r@ == b@.subrange(0, i as int),
        decreases b.len() - i,
    {
        r.push(b[i]);
        i += 1;
        assert(r@ =~= b@.subrange(0, i as int));
    }
    assert(r@ =~= b@);
    r
}

fn same_bytes(a: &Vec<u8>, b: &Vec<u8>) -> (r: bool)
    ensures
        r == (a@ == b@),
{
    if a.len() != b.len() {
        return false;
    }
    let mut i: usize = 0;
    while i < a.len()
        invariant
            i <= a.len(),
            a.len() == b.len(),
            forall|j: int| 0 <= j < i ==> a@[j] == b@[j],
        decreases a.len() - i,
    {
        if a[i] != b[i] {
            return false;
        }
        i += 1;
    }
    assert(a@ =~= b@);
    true
}

impl SqlVal {
    /// A copy of this value.
    pub fn duplicate(&self) -> (r: SqlVal)
        ensures
            r@ == self@,
    {
        match self {
            SqlVal::Null => SqlVal::Null,
            SqlVal::Bool(b) => SqlVal::Bool(*b),
            SqlVal::Int(i) => SqlVal::Int(*i),
            SqlVal::BigInt(i) => SqlVal::BigInt(*i),
            SqlVal::Text(s) => SqlVal::Text(s.clone()),
            SqlVal::Blob(b) => SqlVal::Blob(copy_bytes(b)),
            SqlVal::Timestamp(t) => SqlVal::Timestamp(*t),
        }
    }

    /// Whether two values are the same literal.
    pub fn same_value(&self, other: &SqlVal) -> (r: bool)
        ensures
            r == (self@ == other@),
    {
        match self {
            SqlVal::Null => match other {
                SqlVal::Null => true,
                _ => false,
            },
            SqlVal::Bool(a) => match other {
                SqlVal::Bool(b) => *a == *b,
                _ => false,
            },
            SqlVal::Int(a) => match other {
                SqlVal::Int(b) => *a == *b,
                _ => false,
            },
            SqlVal::BigInt(a) => match other {
                SqlVal::BigInt(b) => *a == *b,
                _ => false,
            },
            SqlVal::Text(a) => match other {
                SqlVal::Text(b) => *a == *b,
                _ => false,
            },
            SqlVal::Blob(a) => match other {
                SqlVal::Blob(b) => same_bytes(a, b),
                _ => false,
            },
            SqlVal::Timestamp(a) => match other {
                SqlVal::Timestamp(b) => *a == *b,
                _ => false,
            },
        }
    }
}

/// The errors of schema handling.
#[derive(Clone, Debug, PartialEq, Eq)]
pub enum Error {
    /// The named table has no primary-key column.
    NoPK { table: String },
    /// A column's type is still deferred; `ty` describes the deferred key.
    UnknownSqlType { ty: String },
}

} // verus!
