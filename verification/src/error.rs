//! The ways an operation can fail.

use vstd::prelude::*;
use vstd::string::*;
use crate::storage::text::{decimal, push_decimal};

verus! {

/// The mathematical content of a [`DbError`].
pub enum DbErrorView {
    TableNotFound(Seq<char>),
    TableAlreadyExists(Seq<char>),
    ColumnNotFound(Seq<char>),
    ArityMismatch { expected: usize, found: usize },
    ConstraintViolation,
    IndexAlreadyExists(Seq<char>),
    MissingRequiredFilter(Seq<char>),
    UnsupportedComparison,
    TranslationError(Seq<char>),
    CapacityExhausted,
}

/// Why an operation was refused. A refused operation changes nothing.
#[derive(Debug)]
pub enum DbError {
    /// No table of this name exists.
    TableNotFound(String),
    /// A table of this name exists already.
    TableAlreadyExists(String),
    /// The table has no column of this name.
    ColumnNotFound(String),
    /// A row was given with the wrong number of values.
    ArityMismatch { expected: usize, found: usize },
    /// A row with the same primary key is stored already.
    ConstraintViolation,
    /// The column of this name is indexed already.
    IndexAlreadyExists(String),
    /// A statement of this kind, an update or a delete, was given without a
    /// filter.
    MissingRequiredFilter(String),
    /// Values that cannot be ordered were to be ordered.
    UnsupportedComparison,
    /// The statement could not be turned into a query.
    TranslationError(String),
    /// The table cannot address another row.
    CapacityExhausted,
}

impl View for DbError {
    type V = DbErrorView;

    open spec fn view(&self) -> DbErrorView {
        match self {
            DbError::TableNotFound(s) => DbErrorView::TableNotFound(s@),
            DbError::TableAlreadyExists(s) => DbErrorView::TableAlreadyExists(s@),
            DbError::ColumnNotFound(s) => DbErrorView::ColumnNotFound(s@),
            DbError::ArityMismatch { expected, found } => DbErrorView::ArityMismatch {
                expected: *expected,
                found: *found,
            },
            DbError::ConstraintViolation => DbErrorView::ConstraintViolation,
            DbError::IndexAlreadyExists(s) => DbErrorView::IndexAlreadyExists(s@),
            DbError::MissingRequiredFilter(s) => DbErrorView::MissingRequiredFilter(s@),
            DbError::UnsupportedComparison => DbErrorView::UnsupportedComparison,
            DbError::TranslationError(s) => DbErrorView::TranslationError(s@),
            DbError::CapacityExhausted => DbErrorView::CapacityExhausted,
        }
    }
}

/// What an error says.
pub open spec fn message_of(e: DbErrorView) -> Seq<char> {
    match e {
        DbErrorView::TableNotFound(n) => "Table '"@ + n + "' not found"@,
        DbErrorView::TableAlreadyExists(n) => "Table '"@ + n + "' already exists"@,
        DbErrorView::ColumnNotFound(n) => "Column not found: "@ + n,
        DbErrorView::ArityMismatch { expected, found } => "Expected "@ + decimal(expected as nat)
            + " values, got "@ + decimal(found as nat),
        DbErrorView::ConstraintViolation => "Primary key violation: duplicate value"@,
        DbErrorView::IndexAlreadyExists(n) => "Index already exists on column: "@ + n,
        DbErrorView::MissingRequiredFilter(kind) => kind + " requires WHERE clause"@,
        DbErrorView::UnsupportedComparison =>
            "Unsupported comparison: values of different kinds have no order"@,
        DbErrorView::TranslationError(text) => text,
        DbErrorView::CapacityExhausted => "Table is full: no further row can be addressed"@,
    }
}

impl DbError {
    /// The error in words.
    pub fn message(&self) -> (res: String)
        ensures
            res@ == message_of(self@),
    {
        match self {
            DbError::TableNotFound(n) => {
                let mut out = String::from_str("Table '");
                out.append(n.as_str());
                out.append("' not found");
                out
            },
            DbError::TableAlreadyExists(n) => {
                let mut out = String::from_str("Table '");
                out.append(n.as_str());
                out.append("' already exists");
                out
            },
            DbError::ColumnNotFound(n) => {
                let mut out = String::from_str("Column not found: ");
                out.append(n.as_str());
                out
            },
            DbError::ArityMismatch { expected, found } => {
                let mut out = String::from_str("Expected ");
                push_decimal(&mut out, *expected as u64);
                out.append(" values, got ");
                push_decimal(&mut out, *found as u64);
                out
            },
            DbError::ConstraintViolation => String::from_str(
                "Primary key violation: duplicate value",
            ),
            DbError::IndexAlreadyExists(n) => {
                let mut out = String::from_str("Index already exists on column: ");
                out.append(n.as_str());
                out
            },
            DbError::MissingRequiredFilter(kind) => {
                let mut out = kind.clone();
                out.append(" requires WHERE clause");
                out
            },
            DbError::UnsupportedComparison => String::from_str(
                "Unsupported comparison: values of different kinds have no order",
            ),
            DbError::TranslationError(text) => text.clone(),
            DbError::CapacityExhausted => String::from_str(
                "Table is full: no further row can be addressed",
            ),
        }
    }
}

} // verus!
