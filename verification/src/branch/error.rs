//! What can go wrong in a branch operation.

use vstd::prelude::*;
use crate::text::{debug_list, debug_list_text};

verus! {

/// The errors of the branch manager.
#[derive(Debug, Clone, PartialEq, Eq)]
pub enum BranchError {
    /// No branch has this name.
    BranchNotFound(String),
    /// A branch with this name exists already.
    BranchAlreadyExists(String),
    /// The default branch cannot be deleted.
    CannotDeleteDefault(String),
    /// The name breaks a naming rule; the text says which.
    InvalidBranchName(String),
    /// Both branches changed these tables.
    MergeConflict(Vec<String>),
    /// The source branch is not ahead of the target branch.
    CannotFastForward { source_branch: String, target_branch: String },
    /// A file operation failed; the text is the system's message.
    Io(String),
    /// A record could not be encoded or decoded; the text says why.
    Json(String),
}

/// What a branch error is, over plain values.
pub enum BranchErrorModel {
    BranchNotFound(Seq<char>),
    BranchAlreadyExists(Seq<char>),
    CannotDeleteDefault(Seq<char>),
    InvalidBranchName(Seq<char>),
    MergeConflict(Seq<Seq<char>>),
    CannotFastForward { source_branch: Seq<char>, target_branch: Seq<char> },
    Io(Seq<char>),
    Json(Seq<char>),
}

impl View for BranchError {
    type V = BranchErrorModel;

    open spec fn view(&self) -> BranchErrorModel {
        match self {
            BranchError::BranchNotFound(n) => BranchErrorModel::BranchNotFound(n@),
            BranchError::BranchAlreadyExists(n) => BranchErrorModel::BranchAlreadyExists(n@),
            BranchError::CannotDeleteDefault(n) => BranchErrorModel::CannotDeleteDefault(n@),
            BranchError::InvalidBranchName(m) => BranchErrorModel::InvalidBranchName(m@),
            BranchError::MergeConflict(t) => BranchErrorModel::MergeConflict(t.deep_view()),
            BranchError::CannotFastForward { source_branch, target_branch } => BranchErrorModel::CannotFastForward {
                source_branch: source_branch@,
                target_branch: target_branch@,
            },
            BranchError::Io(m) => BranchErrorModel::Io(m@),
            BranchError::Json(m) => BranchErrorModel::Json(m@),
        }
    }
}

impl BranchErrorModel {
    /// The message of the error.
    pub open spec fn text(self) -> Seq<char> {
        match self {
            BranchErrorModel::BranchNotFound(n) => "Branch not found: "@ + n,
            BranchErrorModel::BranchAlreadyExists(n) => "Branch already exists: "@ + n,
            BranchErrorModel::CannotDeleteDefault(n) => "Cannot delete default branch: "@ + n,
            BranchErrorModel::InvalidBranchName(m) => "Invalid branch name: "@ + m,
            BranchErrorModel::MergeConflict(t) => "Merge conflict on tables: "@ + debug_list_text(t),
            BranchErrorModel::CannotFastForward { source_branch, target_branch } => "Cannot fast-forward: "@
                + source_branch + " is not ahead of "@ + target_branch,
            BranchErrorModel::Io(m) => "IO error: "@ + m,
            BranchErrorModel::Json(m) => "JSON error: "@ + m,
        }
    }
}

impl BranchError {
    /// The message of the error.
    pub fn to_string(&self) -> (s: String)
        ensures
            s@ == self@.text(),
    {
        match self {
            BranchError::BranchNotFound(n) => {
                let mut s = "Branch not found: ".to_owned();
                s.append(n.as_str());
                s
            },
            BranchError::BranchAlreadyExists(n) => {
                let mut s = "Branch already exists: ".to_owned();
                s.append(n.as_str());
                s
            },
            BranchError::CannotDeleteDefault(n) => {
                let mut s = "Cannot delete default branch: ".to_owned();
                s.append(n.as_str());
                s
            },
            BranchError::InvalidBranchName(m) => {
                let mut s = "Invalid branch name: ".to_owned();
                s.append(m.as_str());
                s
            },
            BranchError::MergeConflict(t) => {
                let mut s = "Merge conflict on tables: ".to_owned();
                s.append(debug_list(t).as_str());
                s
            },
            BranchError::CannotFastForward { source_branch, target_branch } => {
                let mut s = "Cannot fast-forward: ".to_owned();
                s.append(source_branch.as_str());
                s.append(" is not ahead of ");
                s.append(target_branch.as_str());
                s
            },
            BranchError::Io(m) => {
                let mut s = "IO error: ".to_owned();
                s.append(m.as_str());
                s
            },
            BranchError::Json(m) => {
                let mut s = "JSON error: ".to_owned();
                s.append(m.as_str());
                s
            },
        }
    }
}

} // verus!
