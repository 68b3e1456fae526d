//! What can go wrong in the chunk store.

use vstd::prelude::*;

verus! {

/// The errors of the chunk store.
#[derive(Debug, Clone, PartialEq, Eq)]
pub enum ChunkStoreError {
    /// A file operation failed; the text is the system's message.
    Io(String),
    /// No chunk has this hash.
    NotFound(String),
    /// The text is not a hash; the message says why.
    InvalidHash(String),
    /// The bytes stored under a hash do not hash to it.
    HashMismatch { expected: String, actual: String },
}

/// What a chunk store error is, over plain values.
pub enum ChunkErrorModel {
    Io(Seq<char>),
    NotFound(Seq<char>),
    InvalidHash(Seq<char>),
    HashMismatch { expected: Seq<char>, actual: Seq<char> },
}

impl View for ChunkStoreError {
    type V = ChunkErrorModel;

    open spec fn view(&self) -> ChunkErrorModel {
        match self {
            ChunkStoreError::Io(m) => ChunkErrorModel::Io(m@),
            ChunkStoreError::NotFound(h) => ChunkErrorModel::NotFound(h@),
            ChunkStoreError::InvalidHash(m) => ChunkErrorModel::InvalidHash(m@),
            ChunkStoreError::HashMismatch { expected, actual } => ChunkErrorModel::HashMismatch {
                expected: expected@,
                actual: actual@,
            },
        }
    }
}

impl ChunkErrorModel {
    /// The message of the error.
    pub open spec fn text(self) -> Seq<char> {
        match self {
            ChunkErrorModel::Io(m) => "IO error: "@ + m,
            ChunkErrorModel::NotFound(h) => "Chunk not found: "@ + h,
            ChunkErrorModel::InvalidHash(m) => "Invalid hash: "@ + m,
            ChunkErrorModel::HashMismatch { expected, actual } => "Hash mismatch: expected "@ + expected
                + ", got "@ + actual,
        }
    }
}

impl ChunkStoreError {
    /// The message of the error.
    pub fn to_string(&self) -> (s: String)
        ensures
            s@ == self@.text(),
    {
        match self {
            ChunkStoreError::Io(m) => {
                let mut s = "IO error: ".to_owned();
                s.append(m.as_str());
                s
            },
            ChunkStoreError::NotFound(h) => {
                let mut s = "Chunk not found: ".to_owned();
                s.append(h.as_str());
                s
            },
            ChunkStoreError::InvalidHash(m) => {
                let mut s = "Invalid hash: ".to_owned();
                s.append(m.as_str());
                s
            },
            ChunkStoreError::HashMismatch { expected, actual } => {
                let mut s = "Hash mismatch: expected ".to_owned();
                s.append(expected.as_str());
                s.append(", got ");
                s.append(actual.as_str());
                s
            },
        }
    }
}

} // verus!
