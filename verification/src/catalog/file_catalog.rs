//! The catalog proper: per-table version logs with crash-safe commit.
//!
//! The catalog holds, for each table, its versions in order and, apart from
//! them, the write-ahead intents of commits that have begun. What it decides
//! is what the catalog directory has to hold afterwards.

use vstd::prelude::*;
use crate::catalog::error::{CatalogError, CatalogErrorModel};
use crate::catalog::version::{parent_of, TableVersion, VersionModel};
use crate::clock::unix_now;
use crate::select::{lemma_selected_names, select};
use crate::strmap::{sorted_strict, StrMap};
use crate::text::{clone_strings, str_chars, str_eq, strings_eq};

verus! {

/// What a pending commit is, over plain values.
pub struct PendingModel {
    pub intent_id: Seq<char>,
    pub table_name: Seq<char>,
    pub chunk_hashes: Seq<Seq<char>>,
    pub created_at: i64,
}

/// The intent of a commit, written before the commit itself. An intent that
/// outlives a crash names the chunks of a commit that may not have happened.
#[derive(Debug)]
pub struct PendingCommit {
    /// Unique id of the intent.
    pub intent_id: String,
    /// Table that the commit goes to.
    pub table_name: String,
    /// Chunk hashes of the version to be committed.
    pub chunk_hashes: Vec<String>,
    /// Unix time at which the intent was written.
    pub created_at: i64,
}

impl View for PendingCommit {
    type V = PendingModel;

    open spec fn view(&self) -> PendingModel {
        PendingModel {
            intent_id: self.intent_id@,
            table_name: self.table_name@,
            chunk_hashes: self.chunk_hashes.deep_view(),
            created_at: self.created_at,
        }
    }
}

impl Clone for PendingCommit {
    fn clone(&self) -> (r: Self)
        ensures
            r@ == self@,
    {
        PendingCommit {
            intent_id: self.intent_id.clone(),
            table_name: self.table_name.clone(),
            chunk_hashes: clone_strings(&self.chunk_hashes),
            created_at: self.created_at,
        }
    }
}

/// Calls `uuid::Uuid::new_v4` and writes the id in its hyphenated form. The
/// id is random: nothing is promised of it, and two calls differ.
#[verifier::external_body]
fn fresh_intent_id() -> (id: String) {
    uuid::Uuid::new_v4().to_string()
}

/// The views of a list of versions.
pub open spec fn versions_view(vs: Seq<TableVersion>) -> Seq<VersionModel> {
    Seq::new(vs.len(), |i: int| vs[i]@)
}

/// The views of a list of pending commits.
pub open spec fn pending_view(ps: Seq<PendingCommit>) -> Seq<PendingModel> {
    Seq::new(ps.len(), |i: int| ps[i]@)
}

/// What a catalog is, over plain values: the versions of each table, in
/// order, and the pending intents.
pub struct CatalogModel {
    pub tables: Map<Seq<char>, Seq<VersionModel>>,
    pub pending: Seq<PendingModel>,
}

impl CatalogModel {
    /// The number of the latest version of `table`; 0 for a table without
    /// versions or an unknown table.
    pub open spec fn latest(self, table: Seq<char>) -> nat {
        if self.tables.contains_key(table) {
            self.tables[table].len()
        } else {
            0
        }
    }

    /// The versions of every table are numbered 1, 2, 3, … without gaps.
    pub open spec fn gapless(self) -> bool {
        forall|t: Seq<char>, i: int| self.tables.contains_key(t) && 0 <= i < self.tables[t].len() ==> (#[trigger] self.tables[t][i]).version == i + 1
    }

    /// Whether the latest version of `table` holds exactly the chunks
    /// `hashes`.
    pub open spec fn is_committed(self, table: Seq<char>, hashes: Seq<Seq<char>>) -> bool {
        self.latest(table) > 0 && self.tables[table].last().chunk_hashes == hashes
    }

    /// The catalog after `v` was appended to the versions of its table.
    pub open spec fn with_version(self, v: VersionModel) -> CatalogModel {
        CatalogModel {
            tables: self.tables.insert(
                v.table_name,
                if self.tables.contains_key(v.table_name) {
                    self.tables[v.table_name].push(v)
                } else {
                    seq![v]
                },
            ),
            ..self
        }
    }

    /// The pending intents whose commit did not complete, in order.
    pub open spec fn orphans(self, pending: Seq<PendingModel>) -> Seq<PendingModel>
        decreases pending.len(),
    {
        if pending.len() == 0 {
            Seq::empty()
        } else {
            let rest = self.orphans(pending.drop_last());
            if self.is_committed(pending.last().table_name, pending.last().chunk_hashes) {
                rest
            } else {
                rest.push(pending.last())
            }
        }
    }
}

/// The intents of `pending` whose id is not `id`, in order.
pub open spec fn without_intent(pending: Seq<PendingModel>, id: Seq<char>) -> Seq<PendingModel>
    decreases pending.len(),
{
    if pending.len() == 0 {
        Seq::empty()
    } else {
        let rest = without_intent(pending.drop_last(), id);
        if pending.last().intent_id == id {
            rest
        } else {
            rest.push(pending.last())
        }
    }
}

/// The version number that follows `latest`; the top of the range has no
/// successor and stands for itself.
pub open spec fn number_after(latest: nat) -> u64 {
    if latest < u64::MAX {
        (latest + 1) as u64
    } else {
        u64::MAX
    }
}

/// The numbers 1 to `n`.
pub open spec fn one_to(n: nat) -> Seq<u64> {
    Seq::new(n, |i: int| (i + 1) as u64)
}

/// The versioned catalog.
#[derive(Debug)]
pub struct FileCatalog {
    tables: StrMap<Vec<TableVersion>>,
    pending: Vec<PendingCommit>,
}

impl View for FileCatalog {
    type V = CatalogModel;

    closed spec fn view(&self) -> CatalogModel {
        CatalogModel {
            tables: Map::new(|t: Seq<char>| self.tables@.contains_key(t), |t: Seq<char>| versions_view(self.tables@[t]@)),
            pending: pending_view(self.pending@),
        }
    }
}

impl FileCatalog {
    /// The versions of every table are numbered without gaps, and no table
    /// has more versions than can be counted.
    pub open spec fn wf(&self) -> bool {
        self@.gapless()
    }

    /// The empty catalog.
    pub fn new() -> (c: Self)
        ensures
            c.wf(),
            c@.tables == Map::<Seq<char>, Seq<VersionModel>>::empty(),
            c@.pending == Seq::<PendingModel>::empty(),
    {
        let c = FileCatalog { tables: StrMap::new(), pending: Vec::new() };
        assert(c@.tables =~= Map::<Seq<char>, Seq<VersionModel>>::empty());
        assert(c@.pending =~= Seq::<PendingModel>::empty());
        c
    }

    /// The number of the latest version of `table_name`, 0 if it has none.
    pub fn get_latest_version_num(&self, table_name: &str) -> (n: u64)
        ensures
            n == self@.latest(table_name@),
    {
        match self.tables.get(table_name) {
            Some(vs) => vs.len() as u64,
            None => 0,
        }
    }

    /// Records the intent to commit `chunk_hashes` to `table_name`, under a
    /// fresh id and the current time, and returns the id.
    pub fn write_pending_intent(&mut self, table_name: &str, chunk_hashes: &Vec<String>) -> (id: String)
        ensures
            final(self)@.tables == old(self)@.tables,
            final(self)@.pending.len() == old(self)@.pending.len() + 1,
            final(self)@.pending.drop_last() == old(self)@.pending,
            final(self)@.pending.last().intent_id == id@,
            final(self)@.pending.last().table_name == table_name@,
            final(self)@.pending.last().chunk_hashes == chunk_hashes.deep_view(),
    {
        let id = fresh_intent_id();
        let pending = PendingCommit {
            intent_id: id.clone(),
            table_name: table_name.to_owned(),
            chunk_hashes: clone_strings(chunk_hashes),
            created_at: unix_now(),
        };
        let ghost before = pending_view(self.pending@);
        let ghost pm = pending@;
        self.pending.push(pending);
        proof {
            assert(pending_view(self.pending@) =~= before.push(pm));
            assert(before.push(pm).drop_last() =~= before);
            assert(self@.tables =~= old(self)@.tables);
        }
        id
    }

    /// Adds an intent as it was found on disk.
    pub fn restore_pending_intent(&mut self, intent: PendingCommit)
        ensures
            final(self)@.tables == old(self)@.tables,
            final(self)@.pending == old(self)@.pending.push(intent@),
    {
        let ghost before = pending_view(self.pending@);
        self.pending.push(intent);
        proof {
            assert(pending_view(self.pending@) =~= before.push(intent@));
            assert(self@.tables =~= old(self)@.tables);
        }
    }

    /// Removes the intents with id `intent_id`.
    pub fn remove_pending_intent(&mut self, intent_id: &str)
        ensures
            final(self)@.tables == old(self)@.tables,
            final(self)@.pending == without_intent(old(self)@.pending, intent_id@),
    {
        let mut kept: Vec<PendingCommit> = Vec::new();
        let ghost all = pending_view(self.pending@);
        let mut i: usize = 0;
        assert(all.subrange(0, 0) =~= Seq::<PendingModel>::empty());
        assert(pending_view(kept@) =~= Seq::<PendingModel>::empty());
        while i < self.pending.len()
            invariant
                i <= self.pending.len(),
                all == pending_view(self.pending@),
                self.pending == old(self).pending,
                self.tables == old(self).tables,
                pending_view(kept@) == without_intent(all.subrange(0, i as int), intent_id@),
            decreases self.pending.len() - i,
        {
            let ghost k0 = pending_view(kept@);
            proof {
                let next = all.subrange(0, i + 1);
                assert(next.drop_last() =~= all.subrange(0, i as int));
                assert(next.last() == self.pending[i as int]@);
            }
            if !str_eq(self.pending[i].intent_id.as_str(), intent_id) {
                let p = self.pending[i].clone();
                kept.push(p);
                assert(pending_view(kept@) =~= k0.push(self.pending[i as int]@));
            }
            i += 1;
        }
        assert(all.subrange(0, all.len() as int) =~= all);
        self.pending = kept;
        assert(self@.tables =~= old(self)@.tables);
    }

    /// Appends `version` to its table if it carries the number that comes
    /// next, and refuses it otherwise.
    pub fn commit(&mut self, version: TableVersion) -> (r: Result<u64, CatalogError>)
        requires
            old(self).wf(),
        ensures
            final(self).wf(),
            r is Ok <==> version.version == old(self)@.latest(version@.table_name) + 1,
            r matches Ok(v) ==> v == version.version && final(self)@ == old(self)@.with_version(version@),
            r matches Err(e) ==> final(self)@ == old(self)@ && e@ == (CatalogErrorModel::InvalidVersion {
                expected: number_after(old(self)@.latest(version@.table_name)),
                got: version.version,
            }),
    {
        self.commit_inner(version)
    }

    /// Appends `version` to its table if it carries the number that comes
    /// next, and refuses it otherwise. On disk the caller holds the table's
    /// lock.
    pub fn commit_inner(&mut self, version: TableVersion) -> (r: Result<u64, CatalogError>)
        requires
            old(self).wf(),
        ensures
            final(self).wf(),
            r is Ok <==> version.version == old(self)@.latest(version@.table_name) + 1,
            r matches Ok(v) ==> v == version.version && final(self)@ == old(self)@.with_version(version@),
            r matches Err(e) ==> final(self)@ == old(self)@ && e@ == (CatalogErrorModel::InvalidVersion {
                expected: number_after(old(self)@.latest(version@.table_name)),
                got: version.version,
            }),
    {
        let latest = self.get_latest_version_num(version.table_name.as_str());
        if latest == u64::MAX || version.version != latest + 1 {
            let expected: u64 = if latest == u64::MAX {
                u64::MAX
            } else {
                latest + 1
            };
            return Err(CatalogError::InvalidVersion { expected, got: version.version });
        }
        let number = version.version;
        let ghost vm = version@;
        let ghost before = self@;
        let name = version.table_name.clone();
        let mut versions: Vec<TableVersion> = match self.tables.remove(name.as_str()) {
            Some(vs) => vs,
            None => Vec::new(),
        };
        let ghost v0 = versions_view(versions@);
        versions.push(version);
        assert(versions_view(versions@) =~= v0.push(vm));
        self.tables.insert(name, versions);
        proof {
            let want = before.with_version(vm).tables;
            if before.tables.contains_key(vm.table_name) {
                assert(v0 == before.tables[vm.table_name]);
            } else {
                assert(v0 =~= Seq::<VersionModel>::empty());
                assert(v0.push(vm) =~= seq![vm]);
            }
            assert forall|t: Seq<char>| self@.tables.contains_key(t) == want.contains_key(t) by {}
            assert forall|t: Seq<char>| self@.tables.contains_key(t) implies self@.tables[t] == want[t] by {
                if t != vm.table_name {
                    assert(self.tables@[t] == old(self).tables@[t]);
                }
            }
            assert(self@.tables =~= before.with_version(vm).tables);
            assert(self@.pending =~= before.pending);
            assert forall|t: Seq<char>, i: int| self@.tables.contains_key(t) && 0 <= i < self@.tables[t].len() implies (#[trigger] self@.tables[t][i]).version == i + 1 by {
                if t == vm.table_name {
                    if i < v0.len() {
                        assert(before.tables.contains_key(t));
                        assert(self@.tables[t][i] == before.tables[t][i]);
                    }
                } else {
                    assert(self@.tables[t][i] == before.tables[t][i]);
                }
            }
        }
        Ok(number)
    }

    /// Commits the next version of `table_name` with the given chunks: the
    /// intent is recorded, the version with the next number is appended, and
    /// the intent is removed again.
    pub fn commit_next_version(&mut self, table_name: &str, chunk_hashes: Vec<String>) -> (r: Result<u64, CatalogError>)
        requires
            old(self).wf(),
        ensures
            final(self).wf(),
            r is Ok <==> old(self)@.latest(table_name@) < u64::MAX,
            r matches Ok(v) ==> {
                &&& v == old(self)@.latest(table_name@) + 1
                &&& final(self)@.latest(table_name@) == v
                &&& final(self)@.tables.dom() == old(self)@.tables.dom().insert(table_name@)
                &&& final(self)@.tables[table_name@].drop_last() == (if old(self)@.tables.contains_key(table_name@) {
                    old(self)@.tables[table_name@]
                } else {
                    Seq::empty()
                })
                &&& final(self)@.tables[table_name@].last().table_name == table_name@
                &&& final(self)@.tables[table_name@].last().version == v
                &&& final(self)@.tables[table_name@].last().chunk_hashes == chunk_hashes.deep_view()
                &&& final(self)@.tables[table_name@].last().parent_version == parent_of(v)
                &&& final(self)@.tables[table_name@].last().schema_hash is None
                &&& final(self)@.tables[table_name@].last().metadata == Map::<Seq<char>, Seq<char>>::empty()
                &&& forall|t: Seq<char>| t != table_name@ && old(self)@.tables.contains_key(t) ==> final(self)@.tables[t] == old(self)@.tables[t]
            },
            r matches Err(e) ==> final(self)@.tables == old(self)@.tables && e@ == CatalogErrorModel::LatestPointerCorrupted(table_name@),
            r is Ok ==> exists|id: Seq<char>| #[trigger] without_intent(old(self)@.pending, id) == final(self)@.pending,
            r is Err ==> exists|p: PendingModel| #[trigger]
                old(self)@.pending.push(p) == final(self)@.pending && p.table_name == table_name@ && p.chunk_hashes
                    == chunk_hashes.deep_view(),
    {
        let id = self.write_pending_intent(table_name, &chunk_hashes);
        let ghost mid = self@;
        proof {
            assert(mid.pending =~= old(self)@.pending.push(mid.pending.last()));
        }
        let latest = self.get_latest_version_num(table_name);
        if latest == u64::MAX {
            return Err(CatalogError::LatestPointerCorrupted(table_name.to_owned()));
        }
        let next = latest + 1;
        let version = TableVersion::new(table_name, next, chunk_hashes);
        let ghost vm = version@;
        let result = self.commit_inner(version);
        let ghost after = self@;
        proof {
            assert(after.tables[table_name@] =~= (if mid.tables.contains_key(table_name@) {
                mid.tables[table_name@]
            } else {
                Seq::empty()
            }).push(vm));
            assert(after.tables[table_name@].drop_last() =~= (if mid.tables.contains_key(table_name@) {
                mid.tables[table_name@]
            } else {
                Seq::empty()
            }));
            assert(after.tables.dom() =~= mid.tables.dom().insert(table_name@));
        }
        self.remove_pending_intent(id.as_str());
        proof {
            assert(after.pending == mid.pending);
            assert(mid.pending.drop_last() =~= old(self)@.pending);
            assert(without_intent(mid.pending, id@) == without_intent(old(self)@.pending, id@));
        }
        result
    }

    /// Whether the latest version of `table_name` holds exactly the chunks
    /// `chunk_hashes`.
    pub fn is_committed(&self, table_name: &str, chunk_hashes: &Vec<String>) -> (r: bool)
        ensures
            r == self@.is_committed(table_name@, chunk_hashes.deep_view()),
    {
        match self.tables.get(table_name) {
            None => false,
            Some(vs) => {
                if vs.len() == 0 {
                    false
                } else {
                    let last = &vs[vs.len() - 1];
                    assert(versions_view(vs@).last() == last@);
                    strings_eq(&last.chunk_hashes, chunk_hashes)
                }
            },
        }
    }

    /// Goes through the pending intents after a crash. An intent whose
    /// chunks are those of the latest version of its table belongs to a
    /// commit that completed; the others are orphans and are returned, in
    /// order. Every intent is removed.
    pub fn recover_pending_commits(&mut self) -> (r: Result<Vec<PendingCommit>, CatalogError>)
        ensures
            r is Ok,
            pending_view(r->Ok_0@) == old(self)@.orphans(old(self)@.pending),
            final(self)@.tables == old(self)@.tables,
            final(self)@.pending == Seq::<PendingModel>::empty(),
    {
        let mut orphaned: Vec<PendingCommit> = Vec::new();
        let ghost all = pending_view(self.pending@);
        let ghost model = self@;
        let mut i: usize = 0;
        assert(all.subrange(0, 0) =~= Seq::<PendingModel>::empty());
        assert(pending_view(orphaned@) =~= Seq::<PendingModel>::empty());
        while i < self.pending.len()
            invariant
                i <= self.pending.len(),
                all == pending_view(self.pending@),
                model == self@,
                self.pending == old(self).pending,
                self.tables == old(self).tables,
                pending_view(orphaned@) == model.orphans(all.subrange(0, i as int)),
            decreases self.pending.len() - i,
        {
            let ghost o0 = pending_view(orphaned@);
            proof {
                let next = all.subrange(0, i + 1);
                assert(next.drop_last() =~= all.subrange(0, i as int));
                assert(next.last() == self.pending[i as int]@);
            }
            let intent = &self.pending[i];
            if !self.is_committed(intent.table_name.as_str(), &intent.chunk_hashes) {
                orphaned.push(intent.clone());
                assert(pending_view(orphaned@) =~= o0.push(self.pending[i as int]@));
            }
            i += 1;
        }
        assert(all.subrange(0, all.len() as int) =~= all);
        self.pending = Vec::new();
        proof {
            assert(self@.tables =~= old(self)@.tables);
            assert(self@.pending =~= Seq::<PendingModel>::empty());
        }
        Ok(orphaned)
    }

    /// The version `version` of `table_name`, or its latest version.
    pub fn get_version(&self, table_name: &str, version: Option<u64>) -> (r: Result<TableVersion, CatalogError>)
        ensures
            r is Ok <==> self@.tables.contains_key(table_name@) && 1 <= wanted_version(self@, table_name@, version) <= self@.latest(table_name@),
            r matches Ok(v) ==> v@ == self@.tables[table_name@][wanted_version(self@, table_name@, version) - 1],
            r matches Err(e) ==> e@ == (if self@.tables.contains_key(table_name@) {
                CatalogErrorModel::VersionNotFound(table_name@, wanted_version(self@, table_name@, version))
            } else {
                CatalogErrorModel::TableNotFound(table_name@)
            }),
    {
        let versions = match self.tables.get(table_name) {
            Some(vs) => vs,
            None => {
                return Err(CatalogError::TableNotFound(table_name.to_owned()));
            },
        };
        let number: u64 = match version {
            Some(v) => v,
            None => versions.len() as u64,
        };
        if number == 0 || number > versions.len() as u64 {
            return Err(CatalogError::VersionNotFound(table_name.to_owned(), number));
        }
        let v = &versions[(number - 1) as usize];
        assert(versions_view(versions@)[number - 1] == v@);
        Ok(v.clone())
    }

    /// The version numbers of `table_name`, in order.
    pub fn list_versions(&self, table_name: &str) -> (r: Result<Vec<u64>, CatalogError>)
        ensures
            r is Ok <==> self@.tables.contains_key(table_name@),
            r matches Ok(vs) ==> vs@ == one_to(self@.latest(table_name@)),
            r matches Err(e) ==> e@ == CatalogErrorModel::TableNotFound(table_name@),
    {
        let versions = match self.tables.get(table_name) {
            Some(vs) => vs,
            None => {
                return Err(CatalogError::TableNotFound(table_name.to_owned()));
            },
        };
        let mut r: Vec<u64> = Vec::new();
        let mut i: usize = 0;
        while i < versions.len()
            invariant
                i <= versions.len(),
                r.len() == i,
                forall|j: int| 0 <= j < i ==> r[j] == j + 1,
            decreases versions.len() - i,
        {
            r.push(i as u64 + 1);
            i += 1;
        }
        assert(r@ =~= one_to(self@.latest(table_name@)));
        Ok(r)
    }

    /// The names of the tables, sorted. Names that start with a dot are the
    /// catalog's own and are left out.
    pub fn list_tables(&self) -> (r: Result<Vec<String>, CatalogError>)
        ensures
            r is Ok,
            sorted_strict(r->Ok_0.deep_view()),
            forall|t: Seq<char>| #[trigger] r->Ok_0.deep_view().contains(t) <==> (self@.tables.contains_key(t) && !(t.len() > 0 && t[0] == '.')),
    {
        Ok(self.table_names())
    }

    /// The names that `list_tables` returns.
    pub(crate) fn table_names(&self) -> (r: Vec<String>)
        ensures
            sorted_strict(r.deep_view()),
            forall|t: Seq<char>| #[trigger] r.deep_view().contains(t) <==> (self@.tables.contains_key(t) && !(t.len() > 0 && t[0] == '.')),
    {
        let n = self.tables.len();
        let mut flags: Vec<bool> = Vec::new();
        let mut i: usize = 0;
        while i < n
            invariant
                i <= n,
                n == self.tables.keys_seq().len(),
                flags.len() == i,
                forall|j: int| 0 <= j < i ==> #[trigger] flags[j] == !(self.tables.keys_seq()[j].len() > 0 && self.tables.keys_seq()[j][0] == '.'),
            decreases n - i,
        {
            let chars = str_chars(self.tables.key_at(i).as_str());
            flags.push(!(chars.len() > 0 && chars[0] == '.'));
            i += 1;
        }
        let idx = select(&flags);
        let mut r: Vec<String> = Vec::new();
        let mut j: usize = 0;
        while j < idx.len()
            invariant
                j <= idx.len(),
                r.len() == j,
                n == self.tables.keys_seq().len(),
                flags.len() == n,
                forall|t: int| 0 <= t < idx.len() ==> (#[trigger] idx[t]) < flags.len(),
                forall|t: int| 0 <= t < j ==> r[t]@ == self.tables.keys_seq()[idx[t] as int],
            decreases idx.len() - j,
        {
            r.push(self.tables.key_at(idx[j]).clone());
            j += 1;
        }
        proof {
            let keys = self.tables.keys_seq();
            self.tables.lemma_dom();
            lemma_selected_names(keys, flags@, idx@, r.deep_view());
            assert forall|t: Seq<char>| #[trigger] r.deep_view().contains(t) <==> (self@.tables.contains_key(t) && !(t.len() > 0 && t[0] == '.')) by {
                assert(self.tables@.dom().contains(t) == keys.to_set().contains(t));
                if r.deep_view().contains(t) {
                    let k = choose|k: int| 0 <= k < keys.len() && keys[k] == t && flags@[k];
                    assert(keys.contains(t));
                }
                if self@.tables.contains_key(t) && !(t.len() > 0 && t[0] == '.') {
                    let k = keys.index_of(t);
                    assert(0 <= k < keys.len() && keys[k] == t && flags@[k]);
                }
            }
        }
        r
    }

    /// Adds a table as it was found on disk. The versions must be numbered
    /// from 1 without gaps; otherwise nothing is added and the first number
    /// out of line is reported.
    pub fn restore_table(&mut self, table_name: &str, versions: Vec<TableVersion>) -> (r: Result<(), CatalogError>)
        requires
            old(self).wf(),
        ensures
            final(self).wf(),
            final(self)@.pending == old(self)@.pending,
            r is Ok <==> (forall|i: int| 0 <= i < versions.len() ==> (#[trigger] versions[i]).version == i + 1),
            r is Ok ==> final(self)@.tables == old(self)@.tables.insert(table_name@, versions_view(versions@)),
            r matches Err(e) ==> {
                &&& final(self)@ == old(self)@
                &&& exists|i: int| 0 <= i < versions.len() && (#[trigger] versions[i]).version != i + 1 && (forall|j: int| 0 <= j < i ==> (#[trigger] versions[j]).version == j + 1) && e@ == (CatalogErrorModel::InvalidVersion {
                    expected: (i + 1) as u64,
                    got: versions[i].version,
                })
            },
    {
        let mut i: usize = 0;
        while i < versions.len()
            invariant
                i <= versions.len(),
                self.pending == old(self).pending,
                self.tables == old(self).tables,
                self.wf(),
                forall|j: int| 0 <= j < i ==> (#[trigger] versions[j]).version == j + 1,
            decreases versions.len() - i,
        {
            if versions[i].version != i as u64 + 1 {
                return Err(
                    CatalogError::InvalidVersion { expected: i as u64 + 1, got: versions[i].version },
                );
            }
            i += 1;
        }
        let ghost vm = versions_view(versions@);
        let ghost before = self@;
        self.tables.insert(table_name.to_owned(), versions);
        proof {
            assert(self@.tables =~= before.tables.insert(table_name@, vm));
            assert(self@.pending =~= before.pending);
            assert forall|t: Seq<char>, i: int| self@.tables.contains_key(t) && 0 <= i < self@.tables[t].len() implies (#[trigger] self@.tables[t][i]).version == i + 1 by {
                if t != table_name@ {
                    assert(self@.tables[t][i] == before.tables[t][i]);
                }
            }
        }
        Ok(())
    }
}

/// The version number that a lookup asks for: the given one, or the latest.
pub open spec fn wanted_version(c: CatalogModel, table: Seq<char>, version: Option<u64>) -> u64 {
    match version {
        Some(v) => v,
        None => c.latest(table) as u64,
    }
}

/// Gapless versions. In a well-formed catalog every table lists the
/// versions 1 to N, and the latest pointer names the last of them.
pub proof fn law_versions_gapless(c: CatalogModel, table: Seq<char>, i: int)
    requires
        c.gapless(),
        c.tables.contains_key(table),
        0 <= i < c.latest(table),
    ensures
        c.tables[table][i].version == one_to(c.latest(table))[i],
        c.tables[table].last().version == c.latest(table),
{
}

/// Latest points at an existing version. For a table that has a version, a
/// lookup without a version number asks for a number that the table holds,
/// which is the condition on which `get_version` succeeds.
pub proof fn law_latest_resolves(c: CatalogModel, table: Seq<char>)
    requires
        c.tables.contains_key(table),
        c.tables[table].len() > 0,
        c.latest(table) <= u64::MAX,
    ensures
        1 <= wanted_version(c, table, None) <= c.latest(table),
{
}

/// Two commits to one table get consecutive version numbers.
pub proof fn law_commits_are_sequential(c: CatalogModel, v1: VersionModel, v2: VersionModel)
    requires
        v1.table_name == v2.table_name,
        v1.version == c.latest(v1.table_name) + 1,
        v2.version == c.with_version(v1).latest(v2.table_name) + 1,
    ensures
        v2.version == v1.version + 1,
        c.gapless() ==> c.with_version(v1).with_version(v2).gapless(),
{
    let c1 = c.with_version(v1);
    let c2 = c1.with_version(v2);
    if c.gapless() {
        assert forall|t: Seq<char>, i: int| c2.tables.contains_key(t) && 0 <= i < c2.tables[t].len() implies (#[trigger] c2.tables[t][i]).version == i + 1 by {
            if t == v1.table_name {
                if c.tables.contains_key(t) && i < c.tables[t].len() {
                    assert(c2.tables[t][i] == c.tables[t][i]);
                }
            } else {
                assert(c2.tables[t][i] == c.tables[t][i]);
            }
        }
    }
}

} // verus!
