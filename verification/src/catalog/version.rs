//! One version of one table.

use vstd::prelude::*;
use crate::clock::unix_now;
use crate::strmap::StrMap;
use crate::text::{clone_opt_string, clone_strings, opt_text};

verus! {

/// A string-to-string map, over plain values.
pub open spec fn text_map(m: Map<Seq<char>, String>) -> Map<Seq<char>, Seq<char>> {
    Map::new(|k: Seq<char>| m.contains_key(k), |k: Seq<char>| m[k]@)
}

/// A copy of a string-to-string map.
pub fn clone_text_map(m: &StrMap<String>) -> (r: StrMap<String>)
    ensures
        text_map(r@) == text_map(m@),
{
    let r = m.clone();
    proof {
        use_type_invariant(m);
        use_type_invariant(&r);
        m.lemma_dom();
        r.lemma_dom();
        assert forall|k: Seq<char>| r@.contains_key(k) implies r@[k]@ == m@[k]@ by {
            assert(r@.dom().contains(k));
            assert(r.keys_seq().to_set().contains(k));
            let i = r.keys_seq().index_of(k);
            assert(r.keys_seq()[i] == k);
            assert(cloned::<String>(m.vals_seq()[i], r.vals_seq()[i]));
        }
        assert(text_map(r@) =~= text_map(m@));
    }
    r
}

/// What a table version is, over plain values.
pub struct VersionModel {
    pub table_name: Seq<char>,
    pub version: u64,
    pub chunk_hashes: Seq<Seq<char>>,
    pub schema_hash: Option<Seq<char>>,
    pub created_at: i64,
    pub parent_version: Option<u64>,
    pub metadata: Map<Seq<char>, Seq<char>>,
}

/// One immutable version of a table: the ordered hashes of its chunks.
#[derive(Debug)]
pub struct TableVersion {
    pub table_name: String,
    pub version: u64,
    pub chunk_hashes: Vec<String>,
    pub schema_hash: Option<String>,
    pub created_at: i64,
    pub parent_version: Option<u64>,
    pub metadata: StrMap<String>,
}

impl View for TableVersion {
    type V = VersionModel;

    open spec fn view(&self) -> VersionModel {
        VersionModel {
            table_name: self.table_name@,
            version: self.version,
            chunk_hashes: self.chunk_hashes.deep_view(),
            schema_hash: opt_text(self.schema_hash),
            created_at: self.created_at,
            parent_version: self.parent_version,
            metadata: text_map(self.metadata@),
        }
    }
}

impl Clone for TableVersion {
    fn clone(&self) -> (r: Self)
        ensures
            r@ == self@,
    {
        TableVersion {
            table_name: self.table_name.clone(),
            version: self.version,
            chunk_hashes: clone_strings(&self.chunk_hashes),
            schema_hash: clone_opt_string(&self.schema_hash),
            created_at: self.created_at,
            parent_version: self.parent_version,
            metadata: clone_text_map(&self.metadata),
        }
    }
}

/// The version that comes before `version`, if there is one.
pub open spec fn parent_of(version: u64) -> Option<u64> {
    if version > 1 {
        Some((version - 1) as u64)
    } else {
        None
    }
}

impl TableVersion {
    /// The version `version` of `table_name` with the given chunks, created
    /// now, without schema hash or metadata. Its parent is the version
    /// before it; version 1 has none.
    pub fn new(table_name: &str, version: u64, chunk_hashes: Vec<String>) -> (r: Self)
        ensures
            r@.table_name == table_name@,
            r@.version == version,
            r.chunk_hashes == chunk_hashes,
            r@.schema_hash is None,
            r@.parent_version == parent_of(version),
            r@.metadata == Map::<Seq<char>, Seq<char>>::empty(),
    {
        let r = TableVersion {
            table_name: table_name.to_owned(),
            version,
            chunk_hashes,
            schema_hash: None,
            created_at: unix_now(),
            parent_version: if version > 1 {
                Some(version - 1)
            } else {
                None
            },
            metadata: StrMap::new(),
        };
        assert(r@.metadata =~= Map::<Seq<char>, Seq<char>>::empty());
        r
    }

    /// The same version with the metadata entry `key` set to `value`.
    pub fn with_metadata(self, key: &str, value: &str) -> (r: Self)
        ensures
            r@ == (VersionModel { metadata: self@.metadata.insert(key@, value@), ..self@ }),
    {
        let mut r = self;
        r.metadata.insert(key.to_owned(), value.to_owned());
        assert(r@.metadata =~= self@.metadata.insert(key@, value@));
        r
    }

    /// The same version with the schema hash `hash`.
    pub fn with_schema_hash(self, hash: &str) -> (r: Self)
        ensures
            r@ == (VersionModel { schema_hash: Some(hash@), ..self@ }),
    {
        let mut r = self;
        r.schema_hash = Some(hash.to_owned());
        r
    }
}

} // verus!
