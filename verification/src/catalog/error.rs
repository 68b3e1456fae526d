//! What can go wrong in a catalog operation.

use vstd::prelude::*;
use crate::text::{decimal, push_decimal};

verus! {

/// The errors of the catalog.
#[derive(Debug, Clone, PartialEq, Eq)]
pub enum CatalogError {
    /// A file operation failed; the text is the system's message.
    Io(String),
    /// A record could not be encoded or decoded; the text says why.
    Json(String),
    /// The catalog has no such table.
    TableNotFound(String),
    /// The table has no such version.
    VersionNotFound(String, u64),
    /// The version offered is not the one that comes next.
    InvalidVersion { expected: u64, got: u64 },
    /// The latest pointer of the table cannot be read or advanced.
    LatestPointerCorrupted(String),
    /// The lock of the table could not be taken.
    LockError(String),
    /// The latest version cannot be deleted.
    CannotDeleteLatest(String, u64),
}

/// What a catalog error is, over plain values.
pub enum CatalogErrorModel {
    Io(Seq<char>),
    Json(Seq<char>),
    TableNotFound(Seq<char>),
    VersionNotFound(Seq<char>, u64),
    InvalidVersion { expected: u64, got: u64 },
    LatestPointerCorrupted(Seq<char>),
    LockError(Seq<char>),
    CannotDeleteLatest(Seq<char>, u64),
}

impl View for CatalogError {
    type V = CatalogErrorModel;

    open spec fn view(&self) -> CatalogErrorModel {
        match self {
            CatalogError::Io(m) => CatalogErrorModel::Io(m@),
            CatalogError::Json(m) => CatalogErrorModel::Json(m@),
            CatalogError::TableNotFound(t) => CatalogErrorModel::TableNotFound(t@),
            CatalogError::VersionNotFound(t, v) => CatalogErrorModel::VersionNotFound(t@, *v),
            CatalogError::InvalidVersion { expected, got } => CatalogErrorModel::InvalidVersion {
                expected: *expected,
                got: *got,
            },
            CatalogError::LatestPointerCorrupted(t) => CatalogErrorModel::LatestPointerCorrupted(t@),
            CatalogError::LockError(t) => CatalogErrorModel::LockError(t@),
            CatalogError::CannotDeleteLatest(t, v) => CatalogErrorModel::CannotDeleteLatest(t@, *v),
        }
    }
}

impl CatalogErrorModel {
    /// The message of the error.
    pub open spec fn text(self) -> Seq<char> {
        match self {
            CatalogErrorModel::Io(m) => "IO error: "@ + m,
            CatalogErrorModel::Json(m) => "JSON error: "@ + m,
            CatalogErrorModel::TableNotFound(t) => "Table not found: "@ + t,
            CatalogErrorModel::VersionNotFound(t, v) => "Version not found: "@ + t + " v"@ + decimal(
                v as nat,
            ),
            CatalogErrorModel::InvalidVersion { expected, got } => "Invalid version: expected "@
                + decimal(expected as nat) + ", got "@ + decimal(got as nat),
            CatalogErrorModel::LatestPointerCorrupted(t) => "Latest pointer corrupted for table: "@ + t,
            CatalogErrorModel::LockError(t) => "Failed to acquire file lock for table: "@ + t,
            CatalogErrorModel::CannotDeleteLatest(t, v) => "Cannot delete latest version: "@ + t
                + " v"@ + decimal(v as nat),
        }
    }
}

impl CatalogError {
    /// The message of the error.
    pub fn to_string(&self) -> (s: String)
        ensures
            s@ == self@.text(),
    {
        match self {
            CatalogError::Io(m) => {
                let mut s = "IO error: ".to_owned();
                s.append(m.as_str());
                s
            },
            CatalogError::Json(m) => {
                let mut s = "JSON error: ".to_owned();
                s.append(m.as_str());
                s
            },
            CatalogError::TableNotFound(t) => {
                let mut s = "Table not found: ".to_owned();
                s.append(t.as_str());
                s
            },
            CatalogError::VersionNotFound(t, v) => {
                let mut s = "Version not found: ".to_owned();
                s.append(t.as_str());
                s.append(" v");
                push_decimal(&mut s, *v);
                s
            },
            CatalogError::InvalidVersion { expected, got } => {
                let mut s = "Invalid version: expected ".to_owned();
                push_decimal(&mut s, *expected);
                s.append(", got ");
                push_decimal(&mut s, *got);
                s
            },
            CatalogError::LatestPointerCorrupted(t) => {
                let mut s = "Latest pointer corrupted for table: ".to_owned();
                s.append(t.as_str());
                s
            },
            CatalogError::LockError(t) => {
                let mut s = "Failed to acquire file lock for table: ".to_owned();
                s.append(t.as_str());
                s
            },
            CatalogError::CannotDeleteLatest(t, v) => {
                let mut s = "Cannot delete latest version: ".to_owned();
                s.append(t.as_str());
                s.append(" v");
                push_decimal(&mut s, *v);
                s
            },
        }
    }
}

} // verus!
