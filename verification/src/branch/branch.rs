//! A branch and the comparison of two branches.

use vstd::prelude::*;
use crate::clock::unix_now;
use crate::select::{lemma_selected_names, select, selects};
use crate::strmap::{sorted_strict, StrMap};
use crate::text::{clone_opt_string, opt_text};

verus! {

/// The view of an optional version map.
pub open spec fn opt_versions(m: Option<StrMap<u64>>) -> Option<Map<Seq<char>, u64>> {
    match m {
        Some(x) => Some(x@),
        None => None,
    }
}

/// What a branch is, over plain values.
pub struct BranchModel {
    pub name: Seq<char>,
    pub head: Map<Seq<char>, u64>,
    pub created_at: i64,
    pub parent_branch: Option<Seq<char>>,
    pub description: Option<Seq<char>>,
    pub fork_point: Option<Map<Seq<char>, u64>>,
}

/// A named pointer from each table to its version on the branch.
#[derive(Debug)]
pub struct Branch {
    /// Name of the branch.
    pub name: String,
    /// Head pointers: table name to version.
    pub head: StrMap<u64>,
    /// Unix time of creation, in seconds.
    pub created_at: i64,
    /// Name of the branch this one was created from; `None` for a root.
    pub parent_branch: Option<String>,
    /// Free-text description.
    pub description: Option<String>,
    /// The parent's head at creation: the common ancestor for three-way
    /// merge. `None` for a root branch.
    pub fork_point: Option<StrMap<u64>>,
}

impl View for Branch {
    type V = BranchModel;

    open spec fn view(&self) -> BranchModel {
        BranchModel {
            name: self.name@,
            head: self.head@,
            created_at: self.created_at,
            parent_branch: opt_text(self.parent_branch),
            description: opt_text(self.description),
            fork_point: opt_versions(self.fork_point),
        }
    }
}

impl Clone for Branch {
    fn clone(&self) -> (r: Self)
        ensures
            r@ == self@,
    {
        Branch {
            name: self.name.clone(),
            head: self.head.copied(),
            created_at: self.created_at,
            parent_branch: clone_opt_string(&self.parent_branch),
            description: clone_opt_string(&self.description),
            fork_point: match &self.fork_point {
                Some(f) => Some(f.copied()),
                None => None,
            },
        }
    }
}

impl Branch {
    /// A root branch with the given head: no parent, no fork point.
    pub fn new(name: &str, head: StrMap<u64>) -> (r: Self)
        ensures
            r.name@ == name@,
            r.head == head,
            r.parent_branch is None,
            r.description is None,
            r.fork_point is None,
    {
        Branch {
            name: name.to_owned(),
            head,
            created_at: unix_now(),
            parent_branch: None,
            description: None,
            fork_point: None,
        }
    }

    /// A branch created from `parent`: it starts at the parent's head and
    /// keeps that head as its fork point.
    pub fn from_branch(name: &str, parent: &Branch) -> (r: Self)
        ensures
            r.name@ == name@,
            r.head@ == parent.head@,
            opt_text(r.parent_branch) == Some(parent.name@),
            r.description is None,
            opt_versions(r.fork_point) == Some(parent.head@),
    {
        Branch {
            name: name.to_owned(),
            head: parent.head.copied(),
            created_at: unix_now(),
            parent_branch: Some(parent.name.clone()),
            description: None,
            fork_point: Some(parent.head.copied()),
        }
    }

    /// The same branch with the given description.
    pub fn with_description(self, description: &str) -> (r: Self)
        ensures
            r@ == (BranchModel { description: Some(description@), ..self@ }),
            r.head == self.head,
            r.fork_point == self.fork_point,
    {
        let mut r = self;
        r.description = Some(description.to_owned());
        r
    }

    /// The version of `table_name` on this branch, if the table is on it.
    pub fn get_table_version(&self, table_name: &str) -> (r: Option<u64>)
        ensures
            r == (if self.head@.contains_key(table_name@) {
                Some(self.head@[table_name@])
            } else {
                None
            }),
    {
        match self.head.get(table_name) {
            Some(v) => Some(*v),
            None => None,
        }
    }

    /// Points `table_name` at `version`.
    pub fn set_table_version(&mut self, table_name: &str, version: u64)
        ensures
            final(self)@ == (BranchModel { head: old(self)@.head.insert(table_name@, version), ..old(self)@ }),
    {
        self.head.insert(table_name.to_owned(), version);
    }
}

/// How one table differs between a source and a target branch.
#[derive(Debug, Clone, Copy, PartialEq, Eq, Structural)]
pub enum TableDiff {
    /// Same version on both branches.
    Unchanged,
    /// Only the source moved away from the fork point.
    SourceOnly,
    /// Only the target moved away from the fork point.
    TargetOnly,
    /// Both moved, or no fork point tells them apart.
    Conflict,
    /// The table is on the source branch only.
    AddedInSource,
    /// The table is on the target branch only.
    AddedInTarget,
    /// The table is on neither branch.
    Absent,
}

/// The class of table `t` when comparing heads `src` and `tgt` against the
/// fork point `base`.
pub open spec fn classify(
    src: Map<Seq<char>, u64>,
    tgt: Map<Seq<char>, u64>,
    base: Option<Map<Seq<char>, u64>>,
    t: Seq<char>,
) -> TableDiff {
    if src.contains_key(t) {
        if tgt.contains_key(t) {
            if src[t] == tgt[t] {
                TableDiff::Unchanged
            } else if base is Some && base->0.contains_key(t) && src[t] != base->0[t] && tgt[t]
                == base->0[t] {
                TableDiff::SourceOnly
            } else if base is Some && base->0.contains_key(t) && tgt[t] != base->0[t] && src[t]
                == base->0[t] {
                TableDiff::TargetOnly
            } else {
                TableDiff::Conflict
            }
        } else {
            TableDiff::AddedInSource
        }
    } else if tgt.contains_key(t) {
        TableDiff::AddedInTarget
    } else {
        TableDiff::Absent
    }
}

/// The table names of a list of `(table, source version, target version)`.
pub open spec fn names3(list: Seq<(String, u64, u64)>) -> Seq<Seq<char>> {
    Seq::new(list.len(), |i: int| list[i].0@)
}

/// The table names of a list of `(table, version)`.
pub open spec fn names2(list: Seq<(String, u64)>) -> Seq<Seq<char>> {
    Seq::new(list.len(), |i: int| list[i].0@)
}

/// `list` holds, sorted by name, exactly the tables of class `class`, each
/// with its source and its target version.
pub open spec fn triples_are(
    list: Seq<(String, u64, u64)>,
    src: Map<Seq<char>, u64>,
    tgt: Map<Seq<char>, u64>,
    base: Option<Map<Seq<char>, u64>>,
    class: TableDiff,
) -> bool {
    &&& sorted_strict(names3(list))
    &&& forall|i: int| 0 <= i < list.len() ==> (#[trigger] list[i]).1 == src[list[i].0@] && list[i].2 == tgt[list[i].0@]
    &&& forall|t: Seq<char>| names3(list).contains(t) <==> classify(src, tgt, base, t) == class
}

/// `list` holds, sorted by name, exactly the tables of class `class`, each
/// with its version in `versions`.
pub open spec fn pairs_are(
    list: Seq<(String, u64)>,
    versions: Map<Seq<char>, u64>,
    src: Map<Seq<char>, u64>,
    tgt: Map<Seq<char>, u64>,
    base: Option<Map<Seq<char>, u64>>,
    class: TableDiff,
) -> bool {
    &&& sorted_strict(names2(list))
    &&& forall|i: int| 0 <= i < list.len() ==> (#[trigger] list[i]).1 == versions[list[i].0@]
    &&& forall|t: Seq<char>| names2(list).contains(t) <==> classify(src, tgt, base, t) == class
}

/// The result of comparing a source branch with a target branch.
#[derive(Debug, Clone)]
pub struct BranchDiff {
    /// Name of the source branch.
    pub source_branch: String,
    /// Name of the target branch.
    pub target_branch: String,
    /// Tables with the same version on both branches.
    pub unchanged: Vec<String>,
    /// True conflicts: `(table, source version, target version)`.
    pub modified: Vec<(String, u64, u64)>,
    /// Tables on the source only: `(table, version)`.
    pub added_in_source: Vec<(String, u64)>,
    /// Tables on the target only: `(table, version)`.
    pub added_in_target: Vec<(String, u64)>,
    /// Whether there is a true conflict.
    pub has_conflicts: bool,
    /// Tables that only the source changed.
    pub source_only_changes: Vec<(String, u64, u64)>,
    /// Tables that only the target changed.
    pub target_only_changes: Vec<(String, u64, u64)>,
}

impl BranchDiff {
    /// The diff partitions the tables of `src` and `tgt` by class, each list
    /// sorted by table name.
    pub open spec fn describes(
        &self,
        src: Map<Seq<char>, u64>,
        tgt: Map<Seq<char>, u64>,
        base: Option<Map<Seq<char>, u64>>,
    ) -> bool {
        &&& sorted_strict(self.unchanged.deep_view())
        &&& forall|t: Seq<char>| self.unchanged.deep_view().contains(t) <==> classify(src, tgt, base, t) == TableDiff::Unchanged
        &&& triples_are(self.modified@, src, tgt, base, TableDiff::Conflict)
        &&& triples_are(self.source_only_changes@, src, tgt, base, TableDiff::SourceOnly)
        &&& triples_are(self.target_only_changes@, src, tgt, base, TableDiff::TargetOnly)
        &&& pairs_are(self.added_in_source@, src, src, tgt, base, TableDiff::AddedInSource)
        &&& pairs_are(self.added_in_target@, tgt, src, tgt, base, TableDiff::AddedInTarget)
        &&& self.has_conflicts == (self.modified@.len() > 0)
    }

    /// Compares `source` with `target`, three-way where the source has a
    /// fork point.
    pub fn compute(source: &Branch, target: &Branch) -> (d: Self)
        ensures
            d.source_branch@ == source.name@,
            d.target_branch@ == target.name@,
            d.describes(source.head@, target.head@, opt_versions(source.fork_point)),
    {
        match &source.fork_point {
            Some(f) => Self::compute_with_base(source, target, Some(f)),
            None => Self::compute_with_base(source, target, None),
        }
    }

    /// Compares `source` with `target` against the fork point `base`.
    ///
    /// A table with the same version on both sides is unchanged. Where the
    /// versions differ, the fork point decides: only the source moved, only
    /// the target moved, or (both moved, or no fork point) a true conflict.
    /// A table on one side only is added on that side.
    pub fn compute_with_base(source: &Branch, target: &Branch, base: Option<&StrMap<u64>>) -> (d: Self)
        ensures
            d.source_branch@ == source.name@,
            d.target_branch@ == target.name@,
            d.describes(
                source.head@,
                target.head@,
                match base {
                    Some(b) => Some(b@),
                    None => None,
                },
            ),
    {
        let ghost src = source.head@;
        let ghost tgt = target.head@;
        let ghost bas: Option<Map<Seq<char>, u64>> = match base {
            Some(b) => Some(b@),
            None => None,
        };
        let classes = classify_keys(&source.head, &source.head, &target.head, base);
        let target_classes = classify_keys(&target.head, &source.head, &target.head, base);
        let unchanged = names_of_class(&source.head, &classes, TableDiff::Unchanged, Ghost(src), Ghost(tgt), Ghost(bas));
        let modified = triples_of_class(&source.head, &target.head, &classes, TableDiff::Conflict, Ghost(bas));
        let source_only_changes = triples_of_class(&source.head, &target.head, &classes, TableDiff::SourceOnly, Ghost(bas));
        let target_only_changes = triples_of_class(&source.head, &target.head, &classes, TableDiff::TargetOnly, Ghost(bas));
        let added_in_source = pairs_of_class(&source.head, &classes, TableDiff::AddedInSource, Ghost(src), Ghost(tgt), Ghost(bas));
        let added_in_target = pairs_of_class(&target.head, &target_classes, TableDiff::AddedInTarget, Ghost(src), Ghost(tgt), Ghost(bas));
        let has_conflicts = modified.len() > 0;
        BranchDiff {
            source_branch: source.name.clone(),
            target_branch: target.name.clone(),
            unchanged,
            modified,
            added_in_source,
            added_in_target,
            has_conflicts,
            source_only_changes,
            target_only_changes,
        }
    }

    /// The names of the tables in true conflict, sorted.
    pub fn conflicting_tables(&self) -> (r: Vec<String>)
        ensures
            r.deep_view() == names3(self.modified@),
    {
        let mut r: Vec<String> = Vec::new();
        let mut i: usize = 0;
        while i < self.modified.len()
            invariant
                i <= self.modified.len(),
                r.len() == i,
                forall|j: int| 0 <= j < i ==> r[j]@ == self.modified[j].0@,
            decreases self.modified.len() - i,
        {
            r.push(self.modified[i].0.clone());
            i += 1;
        }
        assert(r.deep_view() =~= names3(self.modified@));
        r
    }

    /// Whether the diff has no true conflict.
    pub fn can_auto_merge(&self) -> (r: bool)
        ensures
            r == !self.has_conflicts,
    {
        !self.has_conflicts
    }
}

/// The class of the table `key`, whose version on `of` is known to the
/// caller, between `source` and `target`.
fn classify_key(key: &str, source: &StrMap<u64>, target: &StrMap<u64>, base: Option<&StrMap<u64>>) -> (c: TableDiff)
    ensures
        c == classify(
            source@,
            target@,
            match base {
                Some(b) => Some(b@),
                None => None,
            },
            key@,
        ),
{
    match source.get(key) {
        Some(sv) => match target.get(key) {
            Some(tv) => {
                if *sv == *tv {
                    TableDiff::Unchanged
                } else {
                    match base {
                        Some(b) => match b.get(key) {
                            Some(bv) => {
                                if *sv != *bv && *tv == *bv {
                                    TableDiff::SourceOnly
                                } else if *tv != *bv && *sv == *bv {
                                    TableDiff::TargetOnly
                                } else {
                                    TableDiff::Conflict
                                }
                            },
                            None => TableDiff::Conflict,
                        },
                        None => TableDiff::Conflict,
                    }
                }
            },
            None => TableDiff::AddedInSource,
        },
        None => match target.get(key) {
            Some(_) => TableDiff::AddedInTarget,
            None => TableDiff::Absent,
        },
    }
}

/// The class of each key of `of`, in key order.
fn classify_keys(of: &StrMap<u64>, source: &StrMap<u64>, target: &StrMap<u64>, base: Option<&StrMap<u64>>) -> (classes: Vec<TableDiff>)
    ensures
        classes.len() == of.keys_seq().len(),
        forall|j: int| 0 <= j < classes.len() ==> #[trigger] classes[j] == classify(
            source@,
            target@,
            match base {
                Some(b) => Some(b@),
                None => None,
            },
            of.keys_seq()[j],
        ),
{
    let n = of.len();
    let mut classes: Vec<TableDiff> = Vec::new();
    let mut i: usize = 0;
    while i < n
        invariant
            i <= n,
            n == of.keys_seq().len(),
            classes.len() == i,
            forall|j: int| 0 <= j < i ==> #[trigger] classes[j] == classify(
                source@,
                target@,
                match base {
                    Some(b) => Some(b@),
                    None => None,
                },
                of.keys_seq()[j],
            ),
        decreases n - i,
    {
        let c = classify_key(of.key_at(i).as_str(), source, target, base);
        classes.push(c);
        i += 1;
    }
    classes
}

/// The positions of `classes` that hold `wanted`.
fn positions_of(classes: &Vec<TableDiff>, wanted: TableDiff) -> (idx: Vec<usize>)
    ensures
        forall|t: int| 0 <= t < idx.len() ==> (#[trigger] idx[t]) < classes.len() && classes[idx[t] as int] == wanted,
        forall|s: int, t: int| 0 <= s < t < idx.len() ==> (#[trigger] idx[s]) < (#[trigger] idx[t]),
        forall|j: int| 0 <= j < classes.len() && #[trigger] classes[j] == wanted ==> idx@.contains(j as usize),
        selects(idx@, Seq::new(classes.len() as nat, |j: int| classes[j] == wanted)),
{
    let mut flags: Vec<bool> = Vec::new();
    let mut i: usize = 0;
    while i < classes.len()
        invariant
            i <= classes.len(),
            flags.len() == i,
            forall|j: int| 0 <= j < i ==> #[trigger] flags[j] == (classes[j] == wanted),
        decreases classes.len() - i,
    {
        flags.push(classes[i] == wanted);
        i += 1;
    }
    assert(flags@ =~= Seq::new(classes.len() as nat, |j: int| classes[j] == wanted));
    let idx = select(&flags);
    proof {
        assert forall|j: int| 0 <= j < classes.len() && #[trigger] classes[j] == wanted implies idx@.contains(j as usize) by {
            assert(flags@[j]);
        }
    }
    idx
}

/// The classes of the keys of a map say, for every table, whether it is of
/// class `wanted`: a table of that class is a key of the map.
proof fn lemma_class_names(
    keys: Seq<Seq<char>>,
    classes: Seq<TableDiff>,
    wanted: TableDiff,
    idx: Seq<usize>,
    names: Seq<Seq<char>>,
    src: Map<Seq<char>, u64>,
    tgt: Map<Seq<char>, u64>,
    bas: Option<Map<Seq<char>, u64>>,
    own: Map<Seq<char>, u64>,
)
    requires
        sorted_strict(keys),
        keys.len() == classes.len(),
        keys.len() <= usize::MAX,
        forall|k: Seq<char>| own.contains_key(k) <==> keys.contains(k),
        forall|j: int| 0 <= j < classes.len() ==> #[trigger] classes[j] == classify(src, tgt, bas, keys[j]),
        selects(idx, Seq::new(classes.len(), |j: int| classes[j] == wanted)),
        names.len() == idx.len(),
        forall|t: int| 0 <= t < idx.len() ==> #[trigger] names[t] == keys[idx[t] as int],
        forall|t: Seq<char>| classify(src, tgt, bas, t) == wanted ==> own.contains_key(t),
    ensures
        sorted_strict(names),
        forall|t: Seq<char>| names.contains(t) <==> classify(src, tgt, bas, t) == wanted,
{
    let flags = Seq::new(classes.len(), |j: int| classes[j] == wanted);
    lemma_selected_names(keys, flags, idx, names);
    assert forall|t: Seq<char>| names.contains(t) <==> classify(src, tgt, bas, t) == wanted by {
        if names.contains(t) {
            let j = choose|j: int| 0 <= j < keys.len() && keys[j] == t && flags[j];
            assert(classes[j] == wanted);
        }
        if classify(src, tgt, bas, t) == wanted {
            assert(own.contains_key(t));
            assert(keys.contains(t));
            let j = keys.index_of(t);
            assert(keys[j] == t);
            assert(classes[j] == wanted);
            assert(flags[j]);
        }
    }
}

/// The tables of the given class, sorted.
fn names_of_class(
    of: &StrMap<u64>,
    classes: &Vec<TableDiff>,
    wanted: TableDiff,
    Ghost(src): Ghost<Map<Seq<char>, u64>>,
    Ghost(tgt): Ghost<Map<Seq<char>, u64>>,
    Ghost(bas): Ghost<Option<Map<Seq<char>, u64>>>,
) -> (r: Vec<String>)
    requires
        classes.len() == of.keys_seq().len(),
        forall|j: int| 0 <= j < classes.len() ==> #[trigger] classes[j] == classify(src, tgt, bas, of.keys_seq()[j]),
        forall|t: Seq<char>| classify(src, tgt, bas, t) == wanted ==> of@.contains_key(t),
    ensures
        sorted_strict(r.deep_view()),
        forall|t: Seq<char>| r.deep_view().contains(t) <==> classify(src, tgt, bas, t) == wanted,
{
    let idx = positions_of(classes, wanted);
    let n = of.len();
    let mut r: Vec<String> = Vec::new();
    let mut i: usize = 0;
    while i < idx.len()
        invariant
            i <= idx.len(),
            r.len() == i,
            n == of.keys_seq().len(),
            classes.len() == n,
            forall|t: int| 0 <= t < idx.len() ==> (#[trigger] idx[t]) < classes.len(),
            forall|t: int| 0 <= t < i ==> r[t]@ == of.keys_seq()[idx[t] as int],
        decreases idx.len() - i,
    {
        r.push(of.key_at(idx[i]).clone());
        i += 1;
    }
    proof {
        of.lemma_dom();
        assert forall|k: Seq<char>| of@.contains_key(k) <==> of.keys_seq().contains(k) by {
            assert(of@.dom() == of.keys_seq().to_set());
            assert(of@.dom().contains(k) == of.keys_seq().to_set().contains(k));
        }
        lemma_class_names(of.keys_seq(), classes@, wanted, idx@, r.deep_view(), src, tgt, bas, of@);
    }
    r
}

/// The tables of the given class with the version of one side, sorted by table.
fn pairs_of_class(
    of: &StrMap<u64>,
    classes: &Vec<TableDiff>,
    wanted: TableDiff,
    Ghost(src): Ghost<Map<Seq<char>, u64>>,
    Ghost(tgt): Ghost<Map<Seq<char>, u64>>,
    Ghost(bas): Ghost<Option<Map<Seq<char>, u64>>>,
) -> (r: Vec<(String, u64)>)
    requires
        classes.len() == of.keys_seq().len(),
        forall|j: int| 0 <= j < classes.len() ==> #[trigger] classes[j] == classify(src, tgt, bas, of.keys_seq()[j]),
        forall|t: Seq<char>| classify(src, tgt, bas, t) == wanted ==> of@.contains_key(t),
    ensures
        pairs_are(r@, of@, src, tgt, bas, wanted),
{
    let idx = positions_of(classes, wanted);
    let n = of.len();
    let mut r: Vec<(String, u64)> = Vec::new();
    let mut i: usize = 0;
    while i < idx.len()
        invariant
            i <= idx.len(),
            r.len() == i,
            n == of.keys_seq().len(),
            classes.len() == n,
            forall|t: int| 0 <= t < idx.len() ==> (#[trigger] idx[t]) < classes.len(),
            forall|t: int| 0 <= t < i ==> (#[trigger] r[t]).0@ == of.keys_seq()[idx[t] as int] && r[t].1 == of@[r[t].0@],
        decreases idx.len() - i,
    {
        let k = of.key_at(idx[i]).clone();
        let v = *of.value_at(idx[i]);
        r.push((k, v));
        i += 1;
    }
    proof {
        of.lemma_dom();
        assert forall|k: Seq<char>| of@.contains_key(k) <==> of.keys_seq().contains(k) by {
            assert(of@.dom().contains(k) == of.keys_seq().to_set().contains(k));
        }
        lemma_class_names(of.keys_seq(), classes@, wanted, idx@, names2(r@), src, tgt, bas, of@);
    }
    r
}

/// The tables of the given class with the versions of both sides, sorted by table.
fn triples_of_class(
    source: &StrMap<u64>,
    target: &StrMap<u64>,
    classes: &Vec<TableDiff>,
    wanted: TableDiff,
    Ghost(bas): Ghost<Option<Map<Seq<char>, u64>>>,
) -> (r: Vec<(String, u64, u64)>)
    requires
        wanted == TableDiff::Conflict || wanted == TableDiff::SourceOnly || wanted == TableDiff::TargetOnly,
        classes.len() == source.keys_seq().len(),
        forall|j: int| 0 <= j < classes.len() ==> #[trigger] classes[j] == classify(source@, target@, bas, source.keys_seq()[j]),
    ensures
        triples_are(r@, source@, target@, bas, wanted),
{
    let idx = positions_of(classes, wanted);
    let n = source.len();
    let mut r: Vec<(String, u64, u64)> = Vec::new();
    let mut i: usize = 0;
    while i < idx.len()
        invariant
            i <= idx.len(),
            r.len() == i,
            n == source.keys_seq().len(),
            classes.len() == n,
            wanted == TableDiff::Conflict || wanted == TableDiff::SourceOnly || wanted == TableDiff::TargetOnly,
            forall|j: int| 0 <= j < classes.len() ==> #[trigger] classes[j] == classify(source@, target@, bas, source.keys_seq()[j]),
            forall|t: int| 0 <= t < idx.len() ==> (#[trigger] idx[t]) < classes.len() && classes[idx[t] as int] == wanted,
            forall|t: int| 0 <= t < i ==> (#[trigger] r[t]).0@ == source.keys_seq()[idx[t] as int] && r[t].1 == source@[r[t].0@] && r[t].2 == target@[r[t].0@],
        decreases idx.len() - i,
    {
        let k = source.key_at(idx[i]);
        let sv = *source.value_at(idx[i]);
        assert(classes[idx[i as int] as int] == wanted);
        let tv = match target.get(k.as_str()) {
            Some(v) => *v,
            None => 0,
        };
        r.push((k.clone(), sv, tv));
        i += 1;
    }
    proof {
        source.lemma_dom();
        assert forall|k: Seq<char>| source@.contains_key(k) <==> source.keys_seq().contains(k) by {
            assert(source@.dom().contains(k) == source.keys_seq().to_set().contains(k));
        }
        lemma_class_names(source.keys_seq(), classes@, wanted, idx@, names3(r@), source@, target@, bas, source@);
    }
    r
}

/// Fork-point triangle. A branch whose head and fork point are both the
/// head of its parent, as a freshly created branch has them, differs from
/// the parent in nothing: every list of the diff but `unchanged` is empty.
pub proof fn law_fresh_branch_diff_is_empty(d: BranchDiff, parent_head: Map<Seq<char>, u64>)
    requires
        d.describes(parent_head, parent_head, Some(parent_head)),
    ensures
        d.modified@.len() == 0,
        !d.has_conflicts,
        d.source_only_changes@.len() == 0,
        d.target_only_changes@.len() == 0,
        d.added_in_source@.len() == 0,
        d.added_in_target@.len() == 0,
        forall|t: Seq<char>| d.unchanged.deep_view().contains(t) <==> parent_head.contains_key(t),
{
    let h = parent_head;
    assert forall|t: Seq<char>| classify(h, h, Some(h), t) == TableDiff::Unchanged || classify(h, h, Some(h), t) == TableDiff::Absent by {}
    if d.modified@.len() > 0 {
        assert(names3(d.modified@).contains(names3(d.modified@)[0]));
    }
    if d.source_only_changes@.len() > 0 {
        assert(names3(d.source_only_changes@).contains(names3(d.source_only_changes@)[0]));
    }
    if d.target_only_changes@.len() > 0 {
        assert(names3(d.target_only_changes@).contains(names3(d.target_only_changes@)[0]));
    }
    if d.added_in_source@.len() > 0 {
        assert(names2(d.added_in_source@).contains(names2(d.added_in_source@)[0]));
    }
    if d.added_in_target@.len() > 0 {
        assert(names2(d.added_in_target@).contains(names2(d.added_in_target@)[0]));
    }
}

} // verus!
