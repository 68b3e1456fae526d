//! Which diverged tables the algebraic schemas allow to merge.

use vstd::prelude::*;
use crate::algebraic::schema::AlgebraicSchemaRegistry;
use crate::branch::branch::{names2, names3, BranchDiff};
use crate::strmap::{sorted_strict, StrMap};
use crate::text::{clone_strings, opt_text};

verus! {

/// The names of `names`, in order, that `keep` accepts.
pub open spec fn select_names(names: Seq<Seq<char>>, keep: spec_fn(Seq<char>) -> bool) -> Seq<Seq<char>>
    decreases names.len(),
{
    if names.len() == 0 {
        Seq::empty()
    } else {
        let rest = select_names(names.drop_last(), keep);
        if keep(names.last()) {
            rest.push(names.last())
        } else {
            rest
        }
    }
}

/// Which tables of a diff can be merged.
#[derive(Debug, Clone)]
pub struct MergeAnalysis {
    /// Conflicting tables whose schema is fully conflict-free.
    pub auto_mergeable: Vec<String>,
    /// Conflicting tables that cannot be merged automatically.
    pub conflicting: Vec<String>,
    /// Tables on the source only.
    pub source_only: Vec<String>,
    /// Tables on the target only.
    pub target_only: Vec<String>,
    /// Tables with the same version on both branches.
    pub unchanged: Vec<String>,
}

impl MergeAnalysis {
    /// Whether no table stands in the way of the merge.
    pub fn can_merge(&self) -> (r: bool)
        ensures
            r == (self.conflicting@.len() == 0),
    {
        self.conflicting.len() == 0
    }

    /// The tables that the merge touches: the auto-mergeable ones, then the
    /// source-only ones, then the target-only ones.
    pub fn tables_to_merge(&self) -> (r: Vec<String>)
        ensures
            r.deep_view() == self.auto_mergeable.deep_view() + self.source_only.deep_view() + self.target_only.deep_view(),
    {
        let mut r = clone_strings(&self.auto_mergeable);
        let mut b = clone_strings(&self.source_only);
        let mut c = clone_strings(&self.target_only);
        let ghost a0 = r.deep_view();
        let ghost b0 = b.deep_view();
        let ghost c0 = c.deep_view();
        r.append(&mut b);
        assert(r.deep_view() =~= a0 + b0);
        r.append(&mut c);
        assert(r.deep_view() =~= a0 + b0 + c0);
        r
    }
}

/// What a merge did.
#[derive(Debug, Clone)]
pub struct MergeOutcome {
    /// Name of the source branch.
    pub source_branch: String,
    /// Name of the target branch.
    pub target_branch: String,
    /// Tables whose head moved without a merge of values.
    pub fast_forwarded: Vec<String>,
    /// Tables whose values were merged algebraically.
    pub algebraically_merged: Vec<String>,
    /// Tables that conflicted.
    pub conflicts: Vec<String>,
    /// Whether the merge went through.
    pub success: bool,
    /// What happened, in words.
    pub description: Option<String>,
}

impl MergeOutcome {
    /// The outcome of a merge that went through.
    pub fn success(source: &str, target: &str, fast_forwarded: Vec<String>, algebraically_merged: Vec<String>) -> (r: Self)
        ensures
            r.source_branch@ == source@,
            r.target_branch@ == target@,
            r.fast_forwarded == fast_forwarded,
            r.algebraically_merged == algebraically_merged,
            r.conflicts@.len() == 0,
            r.success,
            r.description is None,
    {
        MergeOutcome {
            source_branch: source.to_owned(),
            target_branch: target.to_owned(),
            fast_forwarded,
            algebraically_merged,
            conflicts: Vec::new(),
            success: true,
            description: None,
        }
    }

    /// The outcome of a merge that the given conflicts stopped.
    pub fn conflict(source: &str, target: &str, conflicts: Vec<String>) -> (r: Self)
        ensures
            r.source_branch@ == source@,
            r.target_branch@ == target@,
            r.fast_forwarded@.len() == 0,
            r.algebraically_merged@.len() == 0,
            r.conflicts == conflicts,
            !r.success,
            opt_text(r.description) == Some("Merge failed due to conflicts"@),
    {
        MergeOutcome {
            source_branch: source.to_owned(),
            target_branch: target.to_owned(),
            fast_forwarded: Vec::new(),
            algebraically_merged: Vec::new(),
            conflicts,
            success: false,
            description: Some("Merge failed due to conflicts".to_owned()),
        }
    }

    /// The same outcome with the given description.
    pub fn with_description(self, desc: &str) -> (r: Self)
        ensures
            r.source_branch == self.source_branch,
            r.target_branch == self.target_branch,
            r.fast_forwarded == self.fast_forwarded,
            r.algebraically_merged == self.algebraically_merged,
            r.conflicts == self.conflicts,
            r.success == self.success,
            opt_text(r.description) == Some(desc@),
    {
        let mut r = self;
        r.description = Some(desc.to_owned());
        r
    }
}

/// Decides from the schema registry which diverged tables can merge.
pub struct MergeAnalyzer<'a> {
    registry: &'a AlgebraicSchemaRegistry,
}

impl<'a> MergeAnalyzer<'a> {
    /// The registry that the analyzer consults.
    pub closed spec fn registry(&self) -> AlgebraicSchemaRegistry {
        *self.registry
    }

    /// A table can merge automatically when it has a registered schema that
    /// is fully conflict-free.
    pub open spec fn auto_mergeable(&self, table: Seq<char>) -> bool {
        self.registry()@.contains_key(table) && self.registry()@[table].fully_conflict_free()
    }

    /// `auto` and `conflicting` list, each sorted, the conflict-free and the
    /// conflicting columns of `table`; both are empty for a table without a
    /// schema.
    pub open spec fn splits_columns(&self, table: Seq<char>, auto: Seq<Seq<char>>, conflicting: Seq<Seq<char>>) -> bool {
        if self.registry()@.contains_key(table) {
            let schema = self.registry()@[table];
            &&& sorted_strict(auto)
            &&& sorted_strict(conflicting)
            &&& forall|c: Seq<char>| #[trigger] auto.contains(c) <==> (schema.columns@.contains_key(c) && schema.columns@[c].op_type.conflict_free())
            &&& forall|c: Seq<char>| #[trigger] conflicting.contains(c) <==> (schema.columns@.contains_key(c) && !schema.columns@[c].op_type.conflict_free())
        } else {
            auto.len() == 0 && conflicting.len() == 0
        }
    }

    /// An analyzer over `registry`.
    pub fn new(registry: &'a AlgebraicSchemaRegistry) -> (r: Self)
        ensures
            r.registry() == *registry,
    {
        MergeAnalyzer { registry }
    }

    /// Splits the conflicting tables of `diff` into those that can merge
    /// automatically and those that cannot, and lists the added and the
    /// unchanged tables.
    pub fn analyze(&self, diff: &BranchDiff) -> (r: MergeAnalysis)
        ensures
            r.auto_mergeable.deep_view() == select_names(names3(diff.modified@), |t: Seq<char>| self.auto_mergeable(t)),
            r.conflicting.deep_view() == select_names(names3(diff.modified@), |t: Seq<char>| !self.auto_mergeable(t)),
            r.source_only.deep_view() == names2(diff.added_in_source@),
            r.target_only.deep_view() == names2(diff.added_in_target@),
            r.unchanged.deep_view() == diff.unchanged.deep_view(),
    {
        let ghost names = names3(diff.modified@);
        let ghost yes = |t: Seq<char>| self.auto_mergeable(t);
        let ghost no = |t: Seq<char>| !self.auto_mergeable(t);
        let mut auto_mergeable: Vec<String> = Vec::new();
        let mut conflicting: Vec<String> = Vec::new();
        let mut i: usize = 0;
        while i < diff.modified.len()
            invariant
                i <= diff.modified.len(),
                names == names3(diff.modified@),
                yes == (|t: Seq<char>| self.auto_mergeable(t)),
                no == (|t: Seq<char>| !self.auto_mergeable(t)),
                auto_mergeable.deep_view() == select_names(names.subrange(0, i as int), yes),
                conflicting.deep_view() == select_names(names.subrange(0, i as int), no),
            decreases diff.modified.len() - i,
        {
            let table = &diff.modified[i].0;
            let ghost a0 = auto_mergeable.deep_view();
            let ghost c0 = conflicting.deep_view();
            proof {
                let next = names.subrange(0, i + 1);
                assert(next.drop_last() =~= names.subrange(0, i as int));
                assert(next.last() == table@);
            }
            if self.can_auto_merge_table(table.as_str()) {
                auto_mergeable.push(table.clone());
                assert(auto_mergeable.deep_view() =~= a0.push(table@));
            } else {
                conflicting.push(table.clone());
                assert(conflicting.deep_view() =~= c0.push(table@));
            }
            i += 1;
        }
        assert(names.subrange(0, names.len() as int) =~= names);
        let mut source_only: Vec<String> = Vec::new();
        let mut j: usize = 0;
        while j < diff.added_in_source.len()
            invariant
                j <= diff.added_in_source.len(),
                source_only.len() == j,
                forall|k: int| 0 <= k < j ==> source_only[k]@ == diff.added_in_source[k].0@,
            decreases diff.added_in_source.len() - j,
        {
            source_only.push(diff.added_in_source[j].0.clone());
            j += 1;
        }
        let mut target_only: Vec<String> = Vec::new();
        let mut j: usize = 0;
        while j < diff.added_in_target.len()
            invariant
                j <= diff.added_in_target.len(),
                target_only.len() == j,
                forall|k: int| 0 <= k < j ==> target_only[k]@ == diff.added_in_target[k].0@,
            decreases diff.added_in_target.len() - j,
        {
            target_only.push(diff.added_in_target[j].0.clone());
            j += 1;
        }
        assert(source_only.deep_view() =~= names2(diff.added_in_source@));
        assert(target_only.deep_view() =~= names2(diff.added_in_target@));
        MergeAnalysis {
            auto_mergeable,
            conflicting,
            source_only,
            target_only,
            unchanged: clone_strings(&diff.unchanged),
        }
    }

    /// Whether `table` has a registered schema that is fully conflict-free.
    pub fn can_auto_merge_table(&self, table: &str) -> (r: bool)
        ensures
            r == self.auto_mergeable(table@),
    {
        match self.registry.get(table) {
            Some(schema) => schema.is_fully_conflict_free(),
            None => false,
        }
    }

    /// The conflict-free and the conflicting columns of `table`, each list
    /// sorted; two empty lists for a table without a schema.
    pub fn analyze_table_columns(&self, table: &str) -> (r: (Vec<String>, Vec<String>))
        ensures
            self.splits_columns(table@, r.0.deep_view(), r.1.deep_view()),
    {
        match self.registry.get(table) {
            Some(schema) => (schema.conflict_free_columns(), schema.conflicting_columns()),
            None => (Vec::new(), Vec::new()),
        }
    }

    /// For each conflicting table of `diff`, its conflict-free and its
    /// conflicting columns.
    pub fn analyze_columns(&self, diff: &BranchDiff) -> (r: StrMap<(Vec<String>, Vec<String>)>)
        ensures
            forall|t: Seq<char>| r@.contains_key(t) <==> names3(diff.modified@).contains(t),
            forall|t: Seq<char>| #[trigger] r@.contains_key(t) ==> self.splits_columns(t, r@[t].0.deep_view(), r@[t].1.deep_view()),
    {
        let mut r: StrMap<(Vec<String>, Vec<String>)> = StrMap::new();
        let ghost names = names3(diff.modified@);
        let mut i: usize = 0;
        while i < diff.modified.len()
            invariant
                i <= diff.modified.len(),
                names == names3(diff.modified@),
                forall|t: Seq<char>| #[trigger] r@.contains_key(t) <==> crate::select::in_prefix(names, i as int, t),
                forall|t: Seq<char>| #[trigger] r@.contains_key(t) ==> self.splits_columns(t, r@[t].0.deep_view(), r@[t].1.deep_view()),
            decreases diff.modified.len() - i,
        {
            let table = &diff.modified[i].0;
            let cols = self.analyze_table_columns(table.as_str());
            r.insert(table.clone(), cols);
            proof {
                assert(names[i as int] == table@);
                assert forall|t: Seq<char>| crate::select::in_prefix(names, i + 1, t) <==> (t == names[i as int] || crate::select::in_prefix(names, i as int, t)) by {
                    crate::select::lemma_prefix_step(names, i as int, t);
                }
            }
            i += 1;
        }
        proof {
            assert forall|t: Seq<char>| crate::select::in_prefix(names, names.len() as int, t) <==> names.contains(t) by {
                crate::select::lemma_prefix_all(names, t);
            }
        }
        r
    }
}

} // verus!
