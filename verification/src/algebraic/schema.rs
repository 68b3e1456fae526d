//! Per-table, per-column annotations that say under which operation type a
//! column's values merge.

use vstd::prelude::*;
use crate::select::{in_prefix, lemma_prefix_all, lemma_prefix_step};
use crate::algebraic::types::{AlgebraicValue, OpType, ValueModel};
use crate::sets::StrSet;
use crate::strmap::{sorted_strict, StrMap};
use crate::text::opt_text;

verus! {

/// The identity element that a column of the given type starts with.
pub open spec fn default_identity_spec(op: OpType) -> Option<ValueModel> {
    match op {
        OpType::AbelianAdd => Some(ValueModel::Integer(0)),
        OpType::AbelianMultiply => Some(ValueModel::Integer(1)),
        OpType::SemilatticeUnion => Some(ValueModel::StringSet(Set::empty())),
        _ => None,
    }
}

/// The view of an optional value.
pub open spec fn opt_value_view(v: Option<AlgebraicValue>) -> Option<ValueModel> {
    match v {
        Some(x) => Some(x@),
        None => None,
    }
}

/// The annotation of one column.
#[derive(Debug, PartialEq, Eq)]
pub struct ColumnAlgebraic {
    /// Column name.
    pub column: String,
    /// Operation type under which the column's values merge.
    pub op_type: OpType,
    /// Identity element, where one can be written down.
    pub identity: Option<AlgebraicValue>,
    /// Free-text description.
    pub description: Option<String>,
}

impl Clone for ColumnAlgebraic {
    fn clone(&self) -> (r: Self)
        ensures
            r.column@ == self.column@,
            r.op_type == self.op_type,
            opt_value_view(r.identity) == opt_value_view(self.identity),
            opt_text(r.description) == opt_text(self.description),
    {
        ColumnAlgebraic {
            column: self.column.clone(),
            op_type: self.op_type,
            identity: match &self.identity {
                Some(v) => Some(v.clone()),
                None => None,
            },
            description: match &self.description {
                Some(d) => Some(d.clone()),
                None => None,
            },
        }
    }
}

impl ColumnAlgebraic {
    /// An annotation with the default identity of the operation type and no
    /// description.
    pub fn new(column: &str, op_type: OpType) -> (r: Self)
        ensures
            r.column@ == column@,
            r.op_type == op_type,
            opt_value_view(r.identity) == default_identity_spec(op_type),
            r.description is None,
    {
        ColumnAlgebraic {
            column: column.to_owned(),
            op_type,
            identity: Self::default_identity(op_type),
            description: None,
        }
    }

    /// The same annotation with the given description.
    pub fn with_description(self, desc: &str) -> (r: Self)
        ensures
            r.column == self.column,
            r.op_type == self.op_type,
            r.identity == self.identity,
            opt_text(r.description) == Some(desc@),
    {
        let mut r = self;
        r.description = Some(desc.to_owned());
        r
    }

    /// The same annotation with the given identity element.
    pub fn with_identity(self, identity: AlgebraicValue) -> (r: Self)
        ensures
            r.column == self.column,
            r.op_type == self.op_type,
            r.identity == Some(identity),
            r.description == self.description,
    {
        let mut r = self;
        r.identity = Some(identity);
        r
    }

    /// The identity that a column of the given operation type starts with.
    fn default_identity(op_type: OpType) -> (r: Option<AlgebraicValue>)
        ensures
            opt_value_view(r) == default_identity_spec(op_type),
    {
        match op_type {
            OpType::AbelianAdd => Some(AlgebraicValue::Integer(0)),
            OpType::AbelianMultiply => Some(AlgebraicValue::Integer(1)),
            OpType::SemilatticeUnion => Some(AlgebraicValue::StringSet(StrSet::new())),
            _ => None,
        }
    }

    /// Whether the column merges without conflict.
    pub fn is_conflict_free(&self) -> (r: bool)
        ensures
            r == self.op_type.conflict_free(),
    {
        self.op_type.is_conflict_free()
    }
}

/// The annotations of one table: explicit columns and a default for the rest.
#[derive(Debug, PartialEq, Eq)]
pub struct TableAlgebraicSchema {
    /// Table name.
    pub table: String,
    /// Explicit column annotations, by column name.
    pub columns: StrMap<ColumnAlgebraic>,
    /// Operation type of the columns that have no annotation.
    pub default_op_type: OpType,
    /// Free-text description.
    pub description: Option<String>,
}

/// The two annotations say the same: column, operation type, identity and
/// description.
pub open spec fn same_column(a: ColumnAlgebraic, b: ColumnAlgebraic) -> bool {
    &&& a.column@ == b.column@
    &&& a.op_type == b.op_type
    &&& opt_value_view(a.identity) == opt_value_view(b.identity)
    &&& opt_text(a.description) == opt_text(b.description)
}

impl Clone for TableAlgebraicSchema {
    fn clone(&self) -> (r: Self)
        ensures
            r.table@ == self.table@,
            r.default_op_type == self.default_op_type,
            opt_text(r.description) == opt_text(self.description),
            r.columns@.dom() == self.columns@.dom(),
            forall|c: Seq<char>| #[trigger] self.columns@.contains_key(c) ==> same_column(self.columns@[c], r.columns@[c]),
    {
        let mut columns: StrMap<ColumnAlgebraic> = StrMap::new();
        let n = self.columns.len();
        let ghost keys = self.columns.keys_seq();
        let mut i: usize = 0;
        while i < n
            invariant
                i <= n,
                n == keys.len(),
                keys == self.columns.keys_seq(),
                self.columns.wf(),
                forall|c: Seq<char>| #[trigger] columns@.contains_key(c) <==> in_prefix(keys, i as int, c),
                forall|c: Seq<char>| #[trigger] columns@.contains_key(c) ==> self.columns@.contains_key(c) && same_column(
                    self.columns@[c],
                    columns@[c],
                ),
            decreases n - i,
        {
            let key = self.columns.key_at(i).clone();
            let column = self.columns.value_at(i).clone();
            proof {
                assert forall|c: Seq<char>| in_prefix(keys, i + 1, c) <==> (c == keys[i as int] || in_prefix(keys, i as int, c)) by {
                    lemma_prefix_step(keys, i as int, c);
                }
            }
            columns.insert(key, column);
            i += 1;
        }
        proof {
            self.columns.lemma_dom();
            assert forall|c: Seq<char>| in_prefix(keys, keys.len() as int, c) <==> keys.contains(c) by {
                lemma_prefix_all(keys, c);
            }
            assert(columns@.dom() =~= self.columns@.dom());
        }
        TableAlgebraicSchema {
            table: self.table.clone(),
            columns,
            default_op_type: self.default_op_type,
            description: match &self.description {
                Some(d) => Some(d.clone()),
                None => None,
            },
        }
    }
}

impl TableAlgebraicSchema {
    /// The operation type that applies to `column`: its own if annotated,
    /// the table's default otherwise.
    pub open spec fn op_type_of(&self, column: Seq<char>) -> OpType {
        if self.columns@.contains_key(column) {
            self.columns@[column].op_type
        } else {
            self.default_op_type
        }
    }

    /// The default and every explicit column are conflict-free.
    pub open spec fn fully_conflict_free(&self) -> bool {
        &&& self.default_op_type.conflict_free()
        &&& forall|c: Seq<char>| self.columns@.contains_key(c) ==> (#[trigger] self.columns@[c]).op_type.conflict_free()
    }

    /// A schema without columns whose default is `Unknown`.
    pub fn new(table: &str) -> (r: Self)
        ensures
            r.table@ == table@,
            r.columns@ == Map::<Seq<char>, ColumnAlgebraic>::empty(),
            r.default_op_type == OpType::Unknown,
            r.description is None,
    {
        TableAlgebraicSchema {
            table: table.to_owned(),
            columns: StrMap::new(),
            default_op_type: OpType::Unknown,
            description: None,
        }
    }

    /// A schema without columns whose default is addition.
    pub fn all_additive(table: &str) -> (r: Self)
        ensures
            r.table@ == table@,
            r.columns@ == Map::<Seq<char>, ColumnAlgebraic>::empty(),
            r.default_op_type == OpType::AbelianAdd,
            opt_text(r.description) == Some("All columns use additive merge"@),
    {
        TableAlgebraicSchema {
            table: table.to_owned(),
            columns: StrMap::new(),
            default_op_type: OpType::AbelianAdd,
            description: Some("All columns use additive merge".to_owned()),
        }
    }

    /// A schema without columns whose default is maximum.
    pub fn all_max(table: &str) -> (r: Self)
        ensures
            r.table@ == table@,
            r.columns@ == Map::<Seq<char>, ColumnAlgebraic>::empty(),
            r.default_op_type == OpType::SemilatticeMax,
            opt_text(r.description) == Some("All columns use max merge"@),
    {
        TableAlgebraicSchema {
            table: table.to_owned(),
            columns: StrMap::new(),
            default_op_type: OpType::SemilatticeMax,
            description: Some("All columns use max merge".to_owned()),
        }
    }

    /// Sets the operation type of the columns without annotation.
    pub fn set_default(&mut self, op_type: OpType)
        ensures
            final(self).default_op_type == op_type,
            final(self).table == old(self).table,
            final(self).columns == old(self).columns,
            final(self).description == old(self).description,
    {
        self.default_op_type = op_type;
    }

    /// The same schema with the given description.
    pub fn with_description(self, desc: &str) -> (r: Self)
        ensures
            r.table == self.table,
            r.columns == self.columns,
            r.default_op_type == self.default_op_type,
            opt_text(r.description) == Some(desc@),
    {
        let mut r = self;
        r.description = Some(desc.to_owned());
        r
    }

    /// Annotates `column` with `op_type`, replacing an earlier annotation.
    pub fn add_column(&mut self, column: &str, op_type: OpType)
        ensures
            final(self).table == old(self).table,
            final(self).default_op_type == old(self).default_op_type,
            final(self).description == old(self).description,
            final(self).columns@.dom() == old(self).columns@.dom().insert(column@),
            final(self).columns@[column@].op_type == op_type,
            final(self).columns@[column@].column@ == column@,
            opt_value_view(final(self).columns@[column@].identity) == default_identity_spec(op_type),
            final(self).columns@[column@].description is None,
            forall|c: Seq<char>| c != column@ && old(self).columns@.contains_key(c) ==> final(self).columns@[c] == old(self).columns@[c],
    {
        let annotation = ColumnAlgebraic::new(column, op_type);
        self.columns.insert(column.to_owned(), annotation);
    }

    /// Stores `annotation` under its column name, replacing an earlier one.
    pub fn add_column_annotation(&mut self, annotation: ColumnAlgebraic)
        ensures
            final(self).table == old(self).table,
            final(self).default_op_type == old(self).default_op_type,
            final(self).description == old(self).description,
            final(self).columns@ == old(self).columns@.insert(annotation.column@, annotation),
    {
        let name = annotation.column.clone();
        self.columns.insert(name, annotation);
    }

    /// The operation type that applies to `column`.
    pub fn get_op_type(&self, column: &str) -> (r: OpType)
        ensures
            r == self.op_type_of(column@),
    {
        match self.columns.get(column) {
            Some(c) => c.op_type,
            None => self.default_op_type,
        }
    }

    /// The annotation of `column`, if it has one.
    pub fn get_column(&self, column: &str) -> (r: Option<&ColumnAlgebraic>)
        ensures
            r is Some == self.columns@.contains_key(column@),
            r is Some ==> *r->0 == self.columns@[column@],
    {
        self.columns.get(column)
    }

    /// Whether the default and every explicit column are conflict-free.
    pub fn is_fully_conflict_free(&self) -> (r: bool)
        ensures
            r == self.fully_conflict_free(),
    {
        if !self.default_op_type.is_conflict_free() {
            return false;
        }
        let n = self.columns.len();
        let mut i: usize = 0;
        while i < n
            invariant
                i <= n,
                n == self.columns.keys_seq().len(),
                self.columns.wf(),
                forall|j: int| 0 <= j < i ==> self.columns@[#[trigger] self.columns.keys_seq()[j]].op_type.conflict_free(),
            decreases n - i,
        {
            if !self.columns.value_at(i).op_type.is_conflict_free() {
                proof {
                    self.columns.lemma_dom();
                }
                return false;
            }
            i += 1;
        }
        proof {
            self.columns.lemma_dom();
            assert forall|c: Seq<char>| self.columns@.contains_key(c) implies (#[trigger] self.columns@[c]).op_type.conflict_free() by {
                let j = self.columns.keys_seq().index_of(c);
                assert(self.columns.keys_seq()[j] == c);
            }
        }
        true
    }

    /// The annotated columns, in sorted order.
    pub fn annotated_columns(&self) -> (r: Vec<String>)
        ensures
            sorted_strict(r.deep_view()),
            forall|c: Seq<char>| r.deep_view().contains(c) == self.columns@.contains_key(c),
    {
        self.columns.keys()
    }

    /// The annotated columns whose conflict-freedom is `wanted`, in sorted
    /// order.
    fn columns_where(&self, wanted: bool) -> (r: Vec<String>)
        ensures
            sorted_strict(r.deep_view()),
            forall|c: Seq<char>| r.deep_view().contains(c) == (self.columns@.contains_key(c)
                && self.columns@[c].op_type.conflict_free() == wanted),
    {
        let n = self.columns.len();
        let mut r: Vec<String> = Vec::new();
        let ghost mut picked: Seq<int> = Seq::empty();
        let mut i: usize = 0;
        while i < n
            invariant
                i <= n,
                n == self.columns.keys_seq().len(),
                self.columns.wf(),
                picked.len() == r.len(),
                forall|t: int| 0 <= t < picked.len() ==> 0 <= #[trigger] picked[t] < i && r[t]@ == self.columns.keys_seq()[picked[t]],
                forall|s: int, t: int| 0 <= s < t < picked.len() ==> picked[s] < picked[t],
                forall|t: int| 0 <= t < picked.len() ==> self.columns@[self.columns.keys_seq()[#[trigger] picked[t]]].op_type.conflict_free() == wanted,
                forall|j: int| 0 <= j < i && self.columns@[#[trigger] self.columns.keys_seq()[j]].op_type.conflict_free() == wanted ==> picked.contains(j),
            decreases n - i,
        {
            if self.columns.value_at(i).op_type.is_conflict_free() == wanted {
                r.push(self.columns.key_at(i).clone());
                proof {
                    let before = picked;
                    picked = picked.push(i as int);
                    assert forall|j: int| 0 <= j < i + 1 && self.columns@[#[trigger] self.columns.keys_seq()[j]].op_type.conflict_free() == wanted implies picked.contains(j) by {
                        if j < i {
                            let t = before.index_of(j);
                            assert(picked[t] == j);
                        } else {
                            assert(picked[picked.len() - 1] == j);
                        }
                    }
                }
            }
            i += 1;
        }
        proof {
            self.columns.lemma_dom();
            let keys = self.columns.keys_seq();
            let names = r.deep_view();
            assert forall|s: int, t: int| 0 <= s < t < names.len() implies crate::text::lex_lt(#[trigger] names[s], #[trigger] names[t]) by {
                assert(names[s] == r[s]@ && names[t] == r[t]@);
                assert(picked[s] < picked[t]);
            }
            assert forall|c: Seq<char>| names.contains(c) == (self.columns@.contains_key(c)
                && self.columns@[c].op_type.conflict_free() == wanted) by {
                if names.contains(c) {
                    let t = names.index_of(c);
                    assert(names[t] == r[t]@);
                    assert(keys[picked[t]] == c);
                }
                if self.columns@.contains_key(c) && self.columns@[c].op_type.conflict_free() == wanted {
                    let j = keys.index_of(c);
                    assert(keys[j] == c);
                    assert(picked.contains(j));
                    let t = picked.index_of(j);
                    assert(names[t] == r[t]@);
                }
            }
        }
        r
    }

    /// The annotated columns that merge without conflict, in sorted order.
    pub fn conflict_free_columns(&self) -> (r: Vec<String>)
        ensures
            sorted_strict(r.deep_view()),
            forall|c: Seq<char>| r.deep_view().contains(c) == (self.columns@.contains_key(c)
                && self.columns@[c].op_type.conflict_free()),
    {
        self.columns_where(true)
    }

    /// The annotated columns that may conflict, in sorted order.
    pub fn conflicting_columns(&self) -> (r: Vec<String>)
        ensures
            sorted_strict(r.deep_view()),
            forall|c: Seq<char>| r.deep_view().contains(c) == (self.columns@.contains_key(c)
                && !self.columns@[c].op_type.conflict_free()),
    {
        self.columns_where(false)
    }

    /// Whether every listed column resolves to a conflict-free operation.
    pub fn can_auto_merge(&self, columns: &[&str]) -> (r: bool)
        ensures
            r == (forall|i: int| 0 <= i < columns@.len() ==> self.op_type_of(#[trigger] columns@[i]@).conflict_free()),
    {
        let mut i: usize = 0;
        while i < columns.len()
            invariant
                i <= columns.len(),
                forall|j: int| 0 <= j < i ==> self.op_type_of(#[trigger] columns@[j]@).conflict_free(),
            decreases columns.len() - i,
        {
            if !self.get_op_type(columns[i]).is_conflict_free() {
                return false;
            }
            i += 1;
        }
        true
    }
}

/// The schemas of all tables, by table name.
#[derive(Debug)]
pub struct AlgebraicSchemaRegistry {
    schemas: StrMap<TableAlgebraicSchema>,
}

impl View for AlgebraicSchemaRegistry {
    type V = Map<Seq<char>, TableAlgebraicSchema>;

    closed spec fn view(&self) -> Map<Seq<char>, TableAlgebraicSchema> {
        self.schemas@
    }
}

impl AlgebraicSchemaRegistry {
    /// The operation type of a column: the table's answer, `Unknown` for a
    /// table that is not registered.
    pub open spec fn op_type_of(&self, table: Seq<char>, column: Seq<char>) -> OpType {
        if self@.contains_key(table) {
            self@[table].op_type_of(column)
        } else {
            OpType::Unknown
        }
    }

    /// The empty registry.
    pub fn new() -> (r: Self)
        ensures
            r@ == Map::<Seq<char>, TableAlgebraicSchema>::empty(),
    {
        AlgebraicSchemaRegistry { schemas: StrMap::new() }
    }

    /// Stores `schema` under its table name, replacing an earlier one.
    pub fn register(&mut self, schema: TableAlgebraicSchema)
        ensures
            final(self)@ == old(self)@.insert(schema.table@, schema),
    {
        let name = schema.table.clone();
        self.schemas.insert(name, schema);
    }

    /// The schema of `table`, if it is registered.
    pub fn get(&self, table: &str) -> (r: Option<&TableAlgebraicSchema>)
        ensures
            r is Some == self@.contains_key(table@),
            r is Some ==> *r->0 == self@[table@],
    {
        self.schemas.get(table)
    }

    /// The operation type of a column of a table.
    pub fn get_op_type(&self, table: &str, column: &str) -> (r: OpType)
        ensures
            r == self.op_type_of(table@, column@),
    {
        match self.schemas.get(table) {
            Some(s) => s.get_op_type(column),
            None => OpType::Unknown,
        }
    }

    /// Whether `table` is registered.
    pub fn has_table(&self, table: &str) -> (r: bool)
        ensures
            r == self@.contains_key(table@),
    {
        self.schemas.contains_key(table)
    }

    /// The registered table names, in sorted order.
    pub fn tables(&self) -> (r: Vec<String>)
        ensures
            sorted_strict(r.deep_view()),
            forall|t: Seq<char>| r.deep_view().contains(t) == self@.contains_key(t),
    {
        self.schemas.keys()
    }

    /// Takes the schema of `table` out of the registry.
    pub fn unregister(&mut self, table: &str) -> (r: Option<TableAlgebraicSchema>)
        ensures
            final(self)@ == old(self)@.remove(table@),
            r is Some == old(self)@.contains_key(table@),
            r is Some ==> r->0 == old(self)@[table@],
    {
        self.schemas.remove(table)
    }

    /// Empties the registry.
    pub fn clear(&mut self)
        ensures
            final(self)@ == Map::<Seq<char>, TableAlgebraicSchema>::empty(),
    {
        self.schemas.clear();
    }
}

impl Default for AlgebraicSchemaRegistry {
    fn default() -> (r: Self)
        ensures
            r@ == Map::<Seq<char>, TableAlgebraicSchema>::empty(),
    {
        AlgebraicSchemaRegistry::new()
    }
}

} // verus!
