//! Filters for reading the changelog.

use vstd::prelude::*;
use crate::changelog::entry::{changes_table, ChangelogEntry, EntryModel};
use crate::text::{clone_opt_string, clone_strings, list_contains, opt_text, str_eq};

verus! {

/// What a changelog query is, over plain values.
pub struct QueryModel {
    pub since_tx_id: Option<u64>,
    pub since_timestamp: Option<i64>,
    pub tables: Option<Seq<Seq<char>>>,
    pub branch: Option<Seq<char>>,
    pub limit: Option<usize>,
}

/// A filter on the changelog; an empty query matches every entry.
#[derive(Debug)]
pub struct ChangelogQuery {
    /// Only transactions after this id.
    pub since_tx_id: Option<u64>,
    /// Only transactions committed at or after this time.
    pub since_timestamp: Option<i64>,
    /// Only transactions that changed one of these tables.
    pub tables: Option<Vec<String>>,
    /// Only transactions on this branch.
    pub branch: Option<String>,
    /// At most this many entries.
    pub limit: Option<usize>,
}

impl View for ChangelogQuery {
    type V = QueryModel;

    open spec fn view(&self) -> QueryModel {
        QueryModel {
            since_tx_id: self.since_tx_id,
            since_timestamp: self.since_timestamp,
            tables: match self.tables {
                Some(t) => Some(t.deep_view()),
                None => None,
            },
            branch: opt_text(self.branch),
            limit: self.limit,
        }
    }
}

impl Clone for ChangelogQuery {
    fn clone(&self) -> (r: Self)
        ensures
            r@ == self@,
    {
        ChangelogQuery {
            since_tx_id: self.since_tx_id,
            since_timestamp: self.since_timestamp,
            tables: match &self.tables {
                Some(t) => Some(clone_strings(t)),
                None => None,
            },
            branch: clone_opt_string(&self.branch),
            limit: self.limit,
        }
    }
}

/// The query without any filter.
pub open spec fn empty_query() -> QueryModel {
    QueryModel { since_tx_id: None, since_timestamp: None, tables: None, branch: None, limit: None }
}

impl QueryModel {
    /// Whether the entry passes the branch and the table filter.
    pub open spec fn matches(self, entry: EntryModel) -> bool {
        &&& (self.branch matches Some(b) ==> entry.branch == b)
        &&& (self.tables matches Some(ts) ==> exists|i: int| 0 <= i < entry.changes.len() && ts.contains((#[trigger] entry.changes[i]).table_name))
    }
}

impl Default for ChangelogQuery {
    fn default() -> (r: Self)
        ensures
            r@ == empty_query(),
    {
        ChangelogQuery { since_tx_id: None, since_timestamp: None, tables: None, branch: None, limit: None }
    }
}

impl ChangelogQuery {
    /// The query without any filter.
    pub fn new() -> (r: Self)
        ensures
            r@ == empty_query(),
    {
        ChangelogQuery { since_tx_id: None, since_timestamp: None, tables: None, branch: None, limit: None }
    }

    /// Only transactions with an id greater than `tx_id`.
    pub fn since_tx(self, tx_id: u64) -> (r: Self)
        ensures
            r@ == (QueryModel { since_tx_id: Some(tx_id), ..self@ }),
    {
        let mut r = self;
        r.since_tx_id = Some(tx_id);
        r
    }

    /// Only transactions committed at or after `timestamp`.
    pub fn since_time(self, timestamp: i64) -> (r: Self)
        ensures
            r@ == (QueryModel { since_timestamp: Some(timestamp), ..self@ }),
    {
        let mut r = self;
        r.since_timestamp = Some(timestamp);
        r
    }

    /// Only transactions that changed at least one of `tables`.
    pub fn for_tables(self, tables: Vec<String>) -> (r: Self)
        ensures
            r@ == (QueryModel { tables: Some(tables.deep_view()), ..self@ }),
    {
        let mut r = self;
        r.tables = Some(tables);
        r
    }

    /// Only transactions on `branch`.
    pub fn on_branch(self, branch: &str) -> (r: Self)
        ensures
            r@ == (QueryModel { branch: Some(branch@), ..self@ }),
    {
        let mut r = self;
        r.branch = Some(branch.to_owned());
        r
    }

    /// At most `limit` entries.
    pub fn with_limit(self, limit: usize) -> (r: Self)
        ensures
            r@ == (QueryModel { limit: Some(limit), ..self@ }),
    {
        let mut r = self;
        r.limit = Some(limit);
        r
    }

    /// Whether `entry` passes the branch and the table filter. The id and
    /// time filters are the reader's business.
    pub fn matches_entry(&self, entry: &ChangelogEntry) -> (r: bool)
        ensures
            r == self@.matches(entry@),
    {
        match &self.branch {
            Some(b) => {
                if !str_eq(entry.branch.as_str(), b.as_str()) {
                    return false;
                }
            },
            None => {},
        }
        match &self.tables {
            Some(tables) => {
                let mut i: usize = 0;
                while i < entry.changes.len()
                    invariant
                        i <= entry.changes.len(),
                        self@.tables == Some(tables.deep_view()),
                        self@.branch matches Some(b) ==> entry@.branch == b,
                        forall|j: int| 0 <= j < i ==> !tables.deep_view().contains((#[trigger] entry@.changes[j]).table_name),
                    decreases entry.changes.len() - i,
                {
                    assert(entry@.changes[i as int] == entry.changes[i as int]@);
                    if list_contains(tables, entry.changes[i].table_name.as_str()) {
                        return true;
                    }
                    i += 1;
                }
                false
            },
            None => true,
        }
    }
}

} // verus!
