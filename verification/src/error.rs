//! Errors of the content and datastore operations.

use vstd::prelude::*;
use crate::data::Data;

verus! {

/// What went wrong in an operation on content or on the datastore.
#[derive(Debug, Clone, Copy, PartialEq, Eq, Structural)]
pub enum AppError {
    Smthg,
    IndexingError,
    HashMismatch,
    ContentEmpty,
    ContentFull,
    LinkNonTransformative,
    DatatypeMismatch,
    DatastoreFull,
    DatastoreInsertCalledOnFilled,
    AppDataNotSynced,
}

impl AppError {
    /// The variant's name, as the error is displayed.
    pub fn name(&self) -> (r: &'static str)
        ensures
            r@ == match *self {
                AppError::Smthg => "Smthg"@,
                AppError::IndexingError => "IndexingError"@,
                AppError::HashMismatch => "HashMismatch"@,
                AppError::ContentEmpty => "ContentEmpty"@,
                AppError::ContentFull => "ContentFull"@,
                AppError::LinkNonTransformative => "LinkNonTransformative"@,
                AppError::DatatypeMismatch => "DatatypeMismatch"@,
                AppError::DatastoreFull => "DatastoreFull"@,
                AppError::DatastoreInsertCalledOnFilled => "DatastoreInsertCalledOnFilled"@,
                AppError::AppDataNotSynced => "AppDataNotSynced"@,
            },
    {
        match self {
            AppError::Smthg => "Smthg",
            AppError::IndexingError => "IndexingError",
            AppError::HashMismatch => "HashMismatch",
            AppError::ContentEmpty => "ContentEmpty",
            AppError::ContentFull => "ContentFull",
            AppError::LinkNonTransformative => "LinkNonTransformative",
            AppError::DatatypeMismatch => "DatatypeMismatch",
            AppError::DatastoreFull => "DatastoreFull",
            AppError::DatastoreInsertCalledOnFilled => "DatastoreInsertCalledOnFilled",
            AppError::AppDataNotSynced => "AppDataNotSynced",
        }
    }
}

/// Outcome of removing the last page of a subtree when that subtree cannot
/// stay as it is.
#[derive(Debug)]
pub enum SubtreeError {
    Empty,
    DatatypeMismatch,
    RightLeafEmpty(Data),
    BothLeavesEmpty(Data),
}

impl SubtreeError {
    /// The variant's name, as the error is displayed.
    pub fn name(&self) -> (r: &'static str)
        ensures
            r@ == match *self {
                SubtreeError::Empty => "Empty"@,
                SubtreeError::DatatypeMismatch => "DataTypeMismatch"@,
                SubtreeError::RightLeafEmpty(_) => "RightLeafEmpty"@,
                SubtreeError::BothLeavesEmpty(_) => "BothLeavesEmpty"@,
            },
    {
        match self {
            SubtreeError::Empty => "Empty",
            SubtreeError::DatatypeMismatch => "DataTypeMismatch",
            SubtreeError::RightLeafEmpty(_) => "RightLeafEmpty",
            SubtreeError::BothLeavesEmpty(_) => "BothLeavesEmpty",
        }
    }
}

} // verus!
