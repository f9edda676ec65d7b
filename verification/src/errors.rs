use vstd::prelude::*;

verus! {

/// The error taxonomy of the storage core.
///
/// - `NotFound`: an unresolved table key, root, schema, or column block.
/// - `MissingField`: a record lacks a schema-declared field on insert, or a
///   select requests an undeclared field.
/// - `TypeMismatch`: a value is not representable in the declared type
///   during encode.
/// - `Truncated`: a column buffer ends mid-value during decode.
/// - `Timeout`: the naming-service publish exceeded its deadline.
/// - `StoreUnavailable`: a backend failure on a content-store or
///   naming-service call.
#[derive(Clone, Copy, PartialEq, Eq, Structural, Debug)]
pub enum DbError {
    NotFound,
    MissingField,
    TypeMismatch,
    Truncated,
    Timeout,
    StoreUnavailable,
}

pub open spec fn spec_describe(e: DbError) -> Seq<char> {
    match e {
        DbError::NotFound => "not found"@,
        DbError::MissingField => "missing field"@,
        DbError::TypeMismatch => "type mismatch"@,
        DbError::Truncated => "truncated column"@,
        DbError::Timeout => "publish timeout"@,
        DbError::StoreUnavailable => "store unavailable"@,
    }
}

impl DbError {
    /// A short description, for callers that print errors.
    pub fn describe(&self) -> (s: &'static str)
        ensures
            s@ == spec_describe(*self),
    {
        match self {
            DbError::NotFound => "not found",
            DbError::MissingField => "missing field",
            DbError::TypeMismatch => "type mismatch",
            DbError::Truncated => "truncated column",
            DbError::Timeout => "publish timeout",
            DbError::StoreUnavailable => "store unavailable",
        }
    }
}

} // verus!
