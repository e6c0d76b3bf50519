//! The ways in which an operation on a database fails.

use vstd::prelude::*;

verus! {

/// Why an operation did not take place. A failed operation leaves the
/// database as it was.
#[derive(Clone, Copy, Debug, PartialEq, Eq, Structural)]
pub enum DbError {
    /// The stored bytes are not a database, or the dimension asked for is not
    /// the stored one.
    OpenError,
    /// A vector's length is not the dimension of the database.
    DimensionMismatch,
    /// The bytes are cut short or malformed.
    CorruptData,
}

impl DbError {
    /// A short description of the failure.
    pub fn message(&self) -> (s: &'static str)
        ensures
            s@ == match *self {
                DbError::OpenError => "cannot open database"@,
                DbError::DimensionMismatch => "vector length differs from the database dimension"@,
                DbError::CorruptData => "stored database is corrupt"@,
            },
    {
        match self {
            DbError::OpenError => "cannot open database",
            DbError::DimensionMismatch => "vector length differs from the database dimension",
            DbError::CorruptData => "stored database is corrupt",
        }
    }
}

} // verus!
