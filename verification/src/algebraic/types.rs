//! Operation types and the values they merge.

use vstd::prelude::*;
use vstd::std_specs::convert::FromSpecImpl;
use crate::sets::{IntSet, StrSet};
use crate::text::{debug_list, debug_list_text, decimal, join, joined, push_decimal, push_signed_decimal, signed_decimal};

verus! {

/// How an operation combines two values.
///
/// The semilattice and Abelian families merge without conflict; the generic
/// ones and `Unknown` may conflict.
#[derive(Debug, Clone, Copy, PartialEq, Eq, Hash, Structural)]
pub enum OpType {
    /// The larger value wins.
    SemilatticeMax,
    /// The smaller value wins.
    SemilatticeMin,
    /// Set union.
    SemilatticeUnion,
    /// Set intersection.
    SemilatticeIntersect,
    /// Sum of the two deltas.
    AbelianAdd,
    /// Product of the two factors.
    AbelianMultiply,
    /// Direct overwrite: the last write wins.
    GenericOverwrite,
    /// Compare-and-swap style update.
    GenericConditional,
    /// Semantics not known: treated as conflicting.
    Unknown,
}

impl OpType {
    /// Semilattice and Abelian operations are conflict-free.
    pub open spec fn conflict_free(self) -> bool {
        self.semilattice() || self.abelian()
    }

    /// The idempotent conflict-free operations.
    pub open spec fn semilattice(self) -> bool {
        self is SemilatticeMax || self is SemilatticeMin || self is SemilatticeUnion
            || self is SemilatticeIntersect
    }

    /// The group operations.
    pub open spec fn abelian(self) -> bool {
        self is AbelianAdd || self is AbelianMultiply
    }

    /// The short upper-case name of the operation type.
    pub open spec fn label(self) -> Seq<char> {
        match self {
            OpType::SemilatticeMax => "MAX"@,
            OpType::SemilatticeMin => "MIN"@,
            OpType::SemilatticeUnion => "UNION"@,
            OpType::SemilatticeIntersect => "INTERSECT"@,
            OpType::AbelianAdd => "ADD"@,
            OpType::AbelianMultiply => "MULTIPLY"@,
            OpType::GenericOverwrite => "OVERWRITE"@,
            OpType::GenericConditional => "CONDITIONAL"@,
            OpType::Unknown => "UNKNOWN"@,
        }
    }

    /// The sentence that describes the operation type.
    pub open spec fn description_text(self) -> Seq<char> {
        match self {
            OpType::SemilatticeMax => "Maximum value wins (last-writer-wins for timestamps)"@,
            OpType::SemilatticeMin => "Minimum value wins (first-writer-wins)"@,
            OpType::SemilatticeUnion => "Set union (add-only collection)"@,
            OpType::SemilatticeIntersect => "Set intersection (common elements only)"@,
            OpType::AbelianAdd => "Additive delta (counters, accumulators)"@,
            OpType::AbelianMultiply => "Multiplicative scaling"@,
            OpType::GenericOverwrite => "Direct overwrite (may conflict)"@,
            OpType::GenericConditional => "Conditional update (requires version match)"@,
            OpType::Unknown => "Unknown operation type (conservative)"@,
        }
    }

    /// The name of the identity element, where the type has one that can be
    /// written down.
    pub open spec fn identity_text(self) -> Option<Seq<char>> {
        match self {
            OpType::AbelianAdd => Some("0"@),
            OpType::AbelianMultiply => Some("1"@),
            OpType::SemilatticeUnion => Some("empty_set"@),
            _ => None,
        }
    }

    /// Whether concurrent operations of this type always merge.
    pub fn is_conflict_free(&self) -> (r: bool)
        ensures
            r == self.conflict_free(),
    {
        match self {
            OpType::SemilatticeMax
            | OpType::SemilatticeMin
            | OpType::SemilatticeUnion
            | OpType::SemilatticeIntersect
            | OpType::AbelianAdd
            | OpType::AbelianMultiply => true,
            _ => false,
        }
    }

    /// Whether this is a semilattice operation.
    pub fn is_semilattice(&self) -> (r: bool)
        ensures
            r == self.semilattice(),
    {
        match self {
            OpType::SemilatticeMax
            | OpType::SemilatticeMin
            | OpType::SemilatticeUnion
            | OpType::SemilatticeIntersect => true,
            _ => false,
        }
    }

    /// Whether this is an Abelian operation.
    pub fn is_abelian(&self) -> (r: bool)
        ensures
            r == self.abelian(),
    {
        match self {
            OpType::AbelianAdd | OpType::AbelianMultiply => true,
            _ => false,
        }
    }

    /// Two operation types merge when they are the same conflict-free type.
    pub fn can_merge_with(&self, other: &Self) -> (r: bool)
        ensures
            r == (*self == *other && self.conflict_free()),
    {
        *self == *other && self.is_conflict_free()
    }

    /// The name of the identity element, if it can be written down.
    pub fn identity_hint(&self) -> (r: Option<&'static str>)
        ensures
            r is Some == self.identity_text() is Some,
            r is Some ==> r->0@ == self.identity_text()->0,
    {
        match self {
            OpType::AbelianAdd => Some("0"),
            OpType::AbelianMultiply => Some("1"),
            OpType::SemilatticeUnion => Some("empty_set"),
            _ => None,
        }
    }

    /// A sentence that describes the operation type.
    pub fn description(&self) -> (r: &'static str)
        ensures
            r@ == self.description_text(),
    {
        match self {
            OpType::SemilatticeMax => "Maximum value wins (last-writer-wins for timestamps)",
            OpType::SemilatticeMin => "Minimum value wins (first-writer-wins)",
            OpType::SemilatticeUnion => "Set union (add-only collection)",
            OpType::SemilatticeIntersect => "Set intersection (common elements only)",
            OpType::AbelianAdd => "Additive delta (counters, accumulators)",
            OpType::AbelianMultiply => "Multiplicative scaling",
            OpType::GenericOverwrite => "Direct overwrite (may conflict)",
            OpType::GenericConditional => "Conditional update (requires version match)",
            OpType::Unknown => "Unknown operation type (conservative)",
        }
    }

    /// The short upper-case name of the operation type.
    pub fn as_str(&self) -> (r: &'static str)
        ensures
            r@ == self.label(),
    {
        match self {
            OpType::SemilatticeMax => "MAX",
            OpType::SemilatticeMin => "MIN",
            OpType::SemilatticeUnion => "UNION",
            OpType::SemilatticeIntersect => "INTERSECT",
            OpType::AbelianAdd => "ADD",
            OpType::AbelianMultiply => "MULTIPLY",
            OpType::GenericOverwrite => "OVERWRITE",
            OpType::GenericConditional => "CONDITIONAL",
            OpType::Unknown => "UNKNOWN",
        }
    }

    /// The short upper-case name, as an owned string.
    pub fn to_string(&self) -> (r: String)
        ensures
            r@ == self.label(),
    {
        self.as_str().to_owned()
    }
}

impl Default for OpType {
    /// `Unknown`, the conservative choice.
    fn default() -> (r: Self)
        ensures
            r == OpType::Unknown,
    {
        OpType::Unknown
    }
}

/// What a value is: the contents without the representation.
pub enum ValueModel {
    Integer(i64),
    StringSet(Set<Seq<char>>),
    IntSet(Set<i64>),
    Boolean(bool),
    Null,
}

impl ValueModel {
    /// The name of the value's type.
    pub open spec fn kind_name(self) -> Seq<char> {
        match self {
            ValueModel::Integer(_) => "Integer"@,
            ValueModel::StringSet(_) => "StringSet"@,
            ValueModel::IntSet(_) => "IntSet"@,
            ValueModel::Boolean(_) => "Boolean"@,
            ValueModel::Null => "Null"@,
        }
    }
}

/// A value that can be merged algebraically.
#[derive(Debug, PartialEq, Eq)]
pub enum AlgebraicValue {
    /// Signed 64-bit integer.
    Integer(i64),
    /// Set of strings.
    StringSet(StrSet),
    /// Set of integers.
    IntSet(IntSet),
    /// Boolean flag.
    Boolean(bool),
    /// Absence of a value; the identity of every operation.
    Null,
}

impl View for AlgebraicValue {
    type V = ValueModel;

    open spec fn view(&self) -> ValueModel {
        match self {
            AlgebraicValue::Integer(v) => ValueModel::Integer(*v),
            AlgebraicValue::StringSet(s) => ValueModel::StringSet(s@),
            AlgebraicValue::IntSet(s) => ValueModel::IntSet(s@),
            AlgebraicValue::Boolean(b) => ValueModel::Boolean(*b),
            AlgebraicValue::Null => ValueModel::Null,
        }
    }
}

impl Clone for AlgebraicValue {
    fn clone(&self) -> (r: Self)
        ensures
            r@ == self@,
    {
        match self {
            AlgebraicValue::Integer(v) => AlgebraicValue::Integer(*v),
            AlgebraicValue::StringSet(s) => AlgebraicValue::StringSet(s.duplicate()),
            AlgebraicValue::IntSet(s) => AlgebraicValue::IntSet(s.duplicate()),
            AlgebraicValue::Boolean(b) => AlgebraicValue::Boolean(*b),
            AlgebraicValue::Null => AlgebraicValue::Null,
        }
    }
}

impl Default for AlgebraicValue {
    fn default() -> (r: Self)
        ensures
            r@ == ValueModel::Null,
    {
        AlgebraicValue::Null
    }
}

/// The set of the first `n` strings of `items`.
pub open spec fn str_items_set(items: Seq<&str>, n: int) -> Set<Seq<char>> {
    Set::new(|k: Seq<char>| exists|j: int| 0 <= j < n && items[j]@ == k)
}

/// The set of the first `n` integers of `items`.
pub open spec fn int_items_set(items: Seq<i64>, n: int) -> Set<i64> {
    Set::new(|k: i64| exists|j: int| 0 <= j < n && items[j] == k)
}

impl AlgebraicValue {
    /// An integer value.
    pub fn integer(v: i64) -> (r: Self)
        ensures
            r@ == ValueModel::Integer(v),
    {
        AlgebraicValue::Integer(v)
    }

    /// The set of the given strings.
    pub fn string_set<const N: usize>(items: [&str; N]) -> (r: Self)
        ensures
            r@ == ValueModel::StringSet(str_items_set(items@, N as int)),
    {
        let mut s = StrSet::new();
        let mut i: usize = 0;
        while i < N
            invariant
                i <= N,
                items@.len() == N,
                s@ == str_items_set(items@, i as int),
            decreases N - i,
        {
            let ghost before = s@;
            s.insert(items[i].to_owned());
            proof {
                assert forall|k: Seq<char>| s@.contains(k) == str_items_set(items@, i + 1).contains(k) by {
                    if k == items@[i as int]@ {
                        assert(0 <= i < i + 1 && items@[i as int]@ == k);
                    }
                    if before.contains(k) {
                        let j = choose|j: int| 0 <= j < i && items@[j]@ == k;
                        assert(0 <= j < i + 1 && items@[j]@ == k);
                    }
                }
                assert(s@ =~= str_items_set(items@, i + 1));
            }
            i += 1;
        }
        AlgebraicValue::StringSet(s)
    }

    /// The set of the given integers.
    pub fn int_set<const N: usize>(items: [i64; N]) -> (r: Self)
        ensures
            r@ == ValueModel::IntSet(int_items_set(items@, N as int)),
    {
        let mut s = IntSet::new();
        let mut i: usize = 0;
        while i < N
            invariant
                i <= N,
                items@.len() == N,
                s@ == int_items_set(items@, i as int),
            decreases N - i,
        {
            let ghost before = s@;
            s.insert(items[i]);
            proof {
                assert forall|k: i64| s@.contains(k) == int_items_set(items@, i + 1).contains(k) by {
                    if k == items@[i as int] {
                        assert(0 <= i < i + 1 && items@[i as int] == k);
                    }
                    if before.contains(k) {
                        let j = choose|j: int| 0 <= j < i && items@[j] == k;
                        assert(0 <= j < i + 1 && items@[j] == k);
                    }
                }
                assert(s@ =~= int_items_set(items@, i + 1));
            }
            i += 1;
        }
        AlgebraicValue::IntSet(s)
    }

    /// A boolean value.
    pub fn boolean(v: bool) -> (r: Self)
        ensures
            r@ == ValueModel::Boolean(v),
    {
        AlgebraicValue::Boolean(v)
    }

    /// The null value.
    pub fn null() -> (r: Self)
        ensures
            r@ == ValueModel::Null,
    {
        AlgebraicValue::Null
    }

    /// The name of the value's type, for messages.
    pub fn kind_name(&self) -> (r: &'static str)
        ensures
            r@ == self@.kind_name(),
    {
        match self {
            AlgebraicValue::Integer(_) => "Integer",
            AlgebraicValue::StringSet(_) => "StringSet",
            AlgebraicValue::IntSet(_) => "IntSet",
            AlgebraicValue::Boolean(_) => "Boolean",
            AlgebraicValue::Null => "Null",
        }
    }

    /// Whether the value is a number.
    pub fn is_numeric(&self) -> (r: bool)
        ensures
            r == (self@ is Integer),
    {
        match self {
            AlgebraicValue::Integer(_) => true,
            _ => false,
        }
    }

    /// Whether the value is a set.
    pub fn is_set(&self) -> (r: bool)
        ensures
            r == (self@ is StringSet || self@ is IntSet),
    {
        match self {
            AlgebraicValue::StringSet(_) | AlgebraicValue::IntSet(_) => true,
            _ => false,
        }
    }

    /// Whether the value is null.
    pub fn is_null(&self) -> (r: bool)
        ensures
            r == (self@ is Null),
    {
        match self {
            AlgebraicValue::Null => true,
            _ => false,
        }
    }

    /// The integer, if the value is one.
    pub fn as_integer(&self) -> (r: Option<i64>)
        ensures
            r == (match self@ {
                ValueModel::Integer(v) => Some(v),
                _ => None,
            }),
    {
        match self {
            AlgebraicValue::Integer(v) => Some(*v),
            _ => None,
        }
    }
}

/// The first five items of `items`, or all of them if there are fewer.
pub open spec fn first_five<T>(items: Seq<T>) -> Seq<T> {
    if items.len() > 5 {
        items.subrange(0, 5)
    } else {
        items
    }
}

/// The numerals of `items`, between square brackets and separated by a
/// comma and a space.
pub open spec fn int_list_text(items: Seq<i64>) -> Seq<char> {
    "["@ + joined(Seq::new(items.len(), |i: int| signed_decimal(items[i] as int)), ", "@) + "]"@
}

/// The text of a set with `total` members whose first five are written as
/// `list`: the list alone, or, beyond five members, the list with the
/// total.
pub open spec fn set_text(list: Seq<char>, total: nat) -> Seq<char> {
    if total > 5 {
        "{"@ + list + "... ("@ + decimal(total) + " total)}"@
    } else {
        list
    }
}

/// The text of a set whose first five members are written as `list`.
fn wrap_set_text(list: String, total: usize) -> (s: String)
    ensures
        s@ == set_text(list@, total as nat),
{
    if total > 5 {
        let mut s = "{".to_owned();
        s.append(list.as_str());
        s.append("... (");
        push_decimal(&mut s, total as u64);
        s.append(" total)}");
        assert(s@ =~= set_text(list@, total as nat));
        s
    } else {
        list
    }
}

impl AlgebraicValue {
    /// The text of the value: the numeral of an integer, `true` or `false`,
    /// `null`, and for a set its first five members in increasing order.
    pub open spec fn text(&self) -> Seq<char> {
        match self {
            AlgebraicValue::Integer(v) => signed_decimal(*v as int),
            AlgebraicValue::StringSet(s) => set_text(
                debug_list_text(first_five(s.members())),
                s.members().len(),
            ),
            AlgebraicValue::IntSet(s) => set_text(
                int_list_text(first_five(s.members())),
                s.members().len(),
            ),
            AlgebraicValue::Boolean(b) => if *b {
                "true"@
            } else {
                "false"@
            },
            AlgebraicValue::Null => "null"@,
        }
    }

    /// The text of the value.
    pub fn to_string(&self) -> (s: String)
        ensures
            s@ == self.text(),
    {
        match self {
            AlgebraicValue::Integer(v) => {
                let mut s = String::new();
                push_signed_decimal(&mut s, *v);
                assert(s@ =~= signed_decimal(*v as int));
                s
            },
            AlgebraicValue::StringSet(set) => {
                let all = set.to_vec();
                let mut shown: Vec<String> = Vec::new();
                let mut i: usize = 0;
                while i < all.len() && i < 5
                    invariant
                        i <= all.len(),
                        i <= 5,
                        shown.len() == i,
                        forall|j: int| 0 <= j < i ==> (#[trigger] shown[j])@ == all[j]@,
                    decreases all.len() - i,
                {
                    shown.push(all[i].clone());
                    i += 1;
                }
                assert(all.deep_view() == set.members());
                assert(all.deep_view().len() == all.len());
                assert forall|j: int| 0 <= j < shown.len() implies shown.deep_view()[j] == first_five(
                    all.deep_view(),
                )[j] by {
                    assert(shown.deep_view()[j] == shown[j]@);
                    assert(all.deep_view()[j] == all[j]@);
                }
                assert(shown.deep_view() =~= first_five(set.members()));
                wrap_set_text(debug_list(&shown), all.len())
            },
            AlgebraicValue::IntSet(set) => {
                let all = set.to_vec();
                let mut shown: Vec<String> = Vec::new();
                let ghost five = first_five(set.members());
                let mut i: usize = 0;
                while i < all.len() && i < 5
                    invariant
                        i <= all.len(),
                        i <= 5,
                        all@ == set.members(),
                        five == first_five(all@),
                        shown.len() == i,
                        forall|j: int| 0 <= j < i ==> (#[trigger] shown[j])@ == signed_decimal(all[j] as int),
                    decreases all.len() - i,
                {
                    let mut t = String::new();
                    push_signed_decimal(&mut t, all[i]);
                    assert(t@ =~= signed_decimal(all[i as int] as int));
                    shown.push(t);
                    i += 1;
                }
                assert forall|j: int| 0 <= j < shown.len() implies shown.deep_view()[j] == signed_decimal(
                    five[j] as int,
                ) by {
                    assert(shown.deep_view()[j] == shown[j]@);
                }
                assert(shown.deep_view() =~= Seq::new(five.len(), |j: int| signed_decimal(five[j] as int)));
                let mut list = "[".to_owned();
                list.append(join(&shown, ", ").as_str());
                list.append("]");
                assert(i == five.len());
                assert(list@ =~= int_list_text(five));
                wrap_set_text(list, all.len())
            },
            AlgebraicValue::Boolean(b) => {
                if *b {
                    "true".to_owned()
                } else {
                    "false".to_owned()
                }
            },
            AlgebraicValue::Null => "null".to_owned(),
        }
    }
}

impl From<i64> for AlgebraicValue {
    fn from(v: i64) -> (r: Self) {
        AlgebraicValue::Integer(v)
    }
}

impl FromSpecImpl<i64> for AlgebraicValue {
    open spec fn obeys_from_spec() -> bool {
        true
    }

    open spec fn from_spec(v: i64) -> Self {
        AlgebraicValue::Integer(v)
    }
}

impl From<i32> for AlgebraicValue {
    fn from(v: i32) -> (r: Self) {
        let wide: i64 = v as i64;
        AlgebraicValue::Integer(wide)
    }
}

impl FromSpecImpl<i32> for AlgebraicValue {
    open spec fn obeys_from_spec() -> bool {
        true
    }

    open spec fn from_spec(v: i32) -> Self {
        AlgebraicValue::Integer(v as i64)
    }
}

impl From<bool> for AlgebraicValue {
    fn from(v: bool) -> (r: Self) {
        AlgebraicValue::Boolean(v)
    }
}

impl FromSpecImpl<bool> for AlgebraicValue {
    open spec fn obeys_from_spec() -> bool {
        true
    }

    open spec fn from_spec(v: bool) -> Self {
        AlgebraicValue::Boolean(v)
    }
}

impl From<StrSet> for AlgebraicValue {
    fn from(v: StrSet) -> (r: Self) {
        AlgebraicValue::StringSet(v)
    }
}

impl FromSpecImpl<StrSet> for AlgebraicValue {
    open spec fn obeys_from_spec() -> bool {
        true
    }

    open spec fn from_spec(v: StrSet) -> Self {
        AlgebraicValue::StringSet(v)
    }
}

impl From<IntSet> for AlgebraicValue {
    fn from(v: IntSet) -> (r: Self) {
        AlgebraicValue::IntSet(v)
    }
}

impl FromSpecImpl<IntSet> for AlgebraicValue {
    open spec fn obeys_from_spec() -> bool {
        true
    }

    open spec fn from_spec(v: IntSet) -> Self {
        AlgebraicValue::IntSet(v)
    }
}

impl<const N: usize> From<[&str; N]> for AlgebraicValue {
    fn from(items: [&str; N]) -> (r: Self)
        ensures
            r@ == ValueModel::StringSet(str_items_set(items@, N as int)),
    {
        AlgebraicValue::string_set(items)
    }
}

impl<const N: usize> FromSpecImpl<[&str; N]> for AlgebraicValue {
    open spec fn obeys_from_spec() -> bool {
        false
    }

    open spec fn from_spec(items: [&str; N]) -> Self {
        AlgebraicValue::Null
    }
}

} // verus!
