//! Finite sets of strings and of integers, kept as sorted lists.

use vstd::prelude::*;
use crate::strmap::{StrMap, sorted_strict};

verus! {

/// A finite set of strings.
#[derive(Debug, PartialEq, Eq)]
pub struct StrSet {
    map: StrMap<()>,
}

impl View for StrSet {
    type V = Set<Seq<char>>;

    closed spec fn view(&self) -> Set<Seq<char>> {
        self.map@.dom()
    }
}

impl StrSet {
    /// The members, in increasing order.
    pub closed spec fn members(&self) -> Seq<Seq<char>> {
        self.map.keys_seq()
    }

    /// The empty set.
    pub fn new() -> (s: Self)
        ensures
            s@ == Set::<Seq<char>>::empty(),
            s.members() == Seq::<Seq<char>>::empty(),
    {
        let s = StrSet { map: StrMap::new() };
        assert(s@ =~= Set::<Seq<char>>::empty());
        s
    }

    /// The number of members.
    pub fn len(&self) -> (n: usize)
        ensures
            self@.finite(),
            n == self@.len(),
            n == self.members().len(),
    {
        self.map.len()
    }

    /// Whether the set has no member.
    pub fn is_empty(&self) -> (r: bool)
        ensures
            r == (self@ == Set::<Seq<char>>::empty()),
    {
        let r = self.map.is_empty();
        proof {
            if r {
                assert(self@ =~= Set::<Seq<char>>::empty());
            } else {
                assert(self.map@.dom() != Set::<Seq<char>>::empty()) by {
                    if self.map@.dom() == Set::<Seq<char>>::empty() {
                        assert(self.map@ =~= Map::<Seq<char>, ()>::empty());
                    }
                }
            }
        }
        r
    }

    /// Whether `item` is a member.
    pub fn contains(&self, item: &str) -> (r: bool)
        ensures
            r == self@.contains(item@),
    {
        self.map.contains_key(item)
    }

    /// Adds `item` to the set.
    pub fn insert(&mut self, item: String)
        ensures
            final(self)@ == old(self)@.insert(item@),
    {
        let ghost it = item@;
        self.map.insert(item, ());
        assert(self@ =~= old(self)@.insert(it));
    }

    /// The member at index `i` of the sorted order.
    pub fn member_at(&self, i: usize) -> (k: &String)
        requires
            i < self.members().len(),
        ensures
            k@ == self.members()[i as int],
            self@.contains(k@),
    {
        self.map.key_at(i)
    }

    /// The members, in increasing order.
    pub fn to_vec(&self) -> (r: Vec<String>)
        ensures
            r.deep_view() == self.members(),
            sorted_strict(r.deep_view()),
            forall|k: Seq<char>| r.deep_view().contains(k) == self@.contains(k),
    {
        self.map.keys()
    }

    /// A copy of the set.
    pub fn duplicate(&self) -> (r: Self)
        ensures
            r@ == self@,
    {
        StrSet { map: self.map.copied() }
    }

    /// The set of the strings that are in `self` or in `other`.
    pub fn union(&self, other: &StrSet) -> (r: Self)
        ensures
            r@ == self@.union(other@),
    {
        let mut r = self.duplicate();
        let n = other.len();
        let mut i: usize = 0;
        while i < n
            invariant
                i <= n,
                n == other.members().len(),
                forall|k: Seq<char>| r@.contains(k) <==> (self@.contains(k) || exists|j: int| 0 <= j < i && other.members()[j] == k),
                forall|j: int| 0 <= j < n ==> other@.contains(#[trigger] other.members()[j]),
            decreases n - i,
        {
            let k = other.member_at(i).clone();
            let ghost before = r@;
            r.insert(k);
            proof {
                assert forall|q: Seq<char>| r@.contains(q) <==> (self@.contains(q) || exists|j: int| 0 <= j < i + 1 && other.members()[j] == q) by {
                    if q == k@ {
                        assert(other.members()[i as int] == q);
                    }
                    if before.contains(q) && !self@.contains(q) {
                        let j = choose|j: int| 0 <= j < i && other.members()[j] == q;
                        assert(0 <= j < i + 1 && other.members()[j] == q);
                    }
                }
            }
            i += 1;
        }
        proof {
            use_type_invariant(&other.map);
            other.lemma_members();
            assert(r@ =~= self@.union(other@));
        }
        r
    }

    /// The set of the strings that are in both `self` and `other`.
    pub fn intersection(&self, other: &StrSet) -> (r: Self)
        ensures
            r@ == self@.intersect(other@),
    {
        let mut r = StrSet::new();
        let n = self.len();
        let mut i: usize = 0;
        while i < n
            invariant
                i <= n,
                n == self.members().len(),
                forall|k: Seq<char>| r@.contains(k) <==> (other@.contains(k) && exists|j: int| 0 <= j < i && self.members()[j] == k),
            decreases n - i,
        {
            let k = self.member_at(i);
            let ghost before = r@;
            if other.contains(k.as_str()) {
                r.insert(k.clone());
            }
            proof {
                assert forall|q: Seq<char>| r@.contains(q) <==> (other@.contains(q) && exists|j: int| 0 <= j < i + 1 && self.members()[j] == q) by {
                    if q == k@ {
                        assert(self.members()[i as int] == q);
                    }
                    if before.contains(q) {
                        let j = choose|j: int| 0 <= j < i && self.members()[j] == q;
                        assert(0 <= j < i + 1 && self.members()[j] == q);
                    }
                }
            }
            i += 1;
        }
        proof {
            use_type_invariant(&self.map);
            self.lemma_members();
            assert(r@ =~= self@.intersect(other@));
        }
        r
    }

    /// Whether the two sets have the same members.
    pub fn same_members(&self, other: &StrSet) -> (r: bool)
        ensures
            r == (self@ == other@),
    {
        let n = self.len();
        if n != other.len() {
            return false;
        }
        let mut i: usize = 0;
        while i < n
            invariant
                i <= n,
                n == self.members().len(),
                forall|j: int| 0 <= j < i ==> other@.contains(#[trigger] self.members()[j]),
            decreases n - i,
        {
            let k = self.member_at(i);
            if !other.contains(k.as_str()) {
                return false;
            }
            i += 1;
        }
        proof {
            use_type_invariant(&self.map);
            self.lemma_members();
            assert(self@.subset_of(other@)) by {
                assert forall|k: Seq<char>| self@.contains(k) implies other@.contains(k) by {
                    let j = self.members().index_of(k);
                    assert(self.members()[j] == k);
                }
            }
            vstd::set_lib::lemma_subset_equality(self@, other@);
        }
        true
    }

    /// The set is the set of its listed members.
    proof fn lemma_members(&self)
        requires
            self.map.wf(),
        ensures
            forall|k: Seq<char>| self@.contains(k) <==> self.members().contains(k),
            forall|j: int| 0 <= j < self.members().len() ==> self@.contains(#[trigger] self.members()[j]),
    {
        self.map.lemma_dom();
    }
}

impl Clone for StrSet {
    fn clone(&self) -> (r: Self)
        ensures
            r@ == self@,
    {
        self.duplicate()
    }
}

impl Clone for IntSet {
    fn clone(&self) -> (r: Self)
        ensures
            r@ == self@,
    {
        self.duplicate()
    }
}

/// Each element is strictly less than all later ones.
pub open spec fn increasing(items: Seq<i64>) -> bool {
    forall|i: int, j: int| 0 <= i < j < items.len() ==> #[trigger] items[i] < #[trigger] items[j]
}

/// A finite set of 64-bit integers.
#[derive(Debug, PartialEq, Eq)]
pub struct IntSet {
    items: Vec<i64>,
}

impl View for IntSet {
    type V = Set<i64>;

    closed spec fn view(&self) -> Set<i64> {
        self.items@.to_set()
    }
}

impl IntSet {
    /// The members, in increasing order.
    pub closed spec fn members(&self) -> Seq<i64> {
        self.items@
    }

    /// The members are listed in increasing order.
    #[verifier::type_invariant]
    closed spec fn wf(&self) -> bool {
        increasing(self.items@)
    }

    /// The empty set.
    pub fn new() -> (s: Self)
        ensures
            s@ == Set::<i64>::empty(),
            s.members() == Seq::<i64>::empty(),
    {
        let s = IntSet { items: Vec::new() };
        assert(s@ =~= Set::<i64>::empty());
        assert(s.members() =~= Seq::<i64>::empty());
        s
    }

    /// The number of members.
    pub fn len(&self) -> (n: usize)
        ensures
            self@.finite(),
            n == self@.len(),
            n == self.members().len(),
            increasing(self.members()),
            forall|k: i64| self@.contains(k) <==> self.members().contains(k),
    {
        proof {
            use_type_invariant(self);
            vstd::seq_lib::seq_to_set_is_finite(self.items@);
            self.items@.unique_seq_to_set();
        }
        self.items.len()
    }

    /// Whether the set has no member.
    pub fn is_empty(&self) -> (r: bool)
        ensures
            r == (self@ == Set::<i64>::empty()),
    {
        proof {
            if self.items@.len() == 0 {
                assert(self@ =~= Set::<i64>::empty());
            } else {
                assert(self@.contains(self.items@[0]));
            }
        }
        self.items.len() == 0
    }

    /// The index at which `item` stands or would have to be inserted, and whether it stands there.
    fn position(&self, item: i64) -> (r: (usize, bool))
        ensures
            r.0 <= self.items@.len(),
            increasing(self.items@),
            forall|j: int| 0 <= j < r.0 ==> #[trigger] self.items@[j] < item,
            r.1 ==> r.0 < self.items@.len() && self.items@[r.0 as int] == item,
            !r.1 ==> (r.0 < self.items@.len() ==> item < self.items@[r.0 as int]),
            r.1 == self@.contains(item),
    {
        proof {
            use_type_invariant(self);
        }
        let mut i: usize = 0;
        while i < self.items.len()
            invariant
                i <= self.items.len(),
                increasing(self.items@),
                forall|j: int| 0 <= j < i ==> #[trigger] self.items@[j] < item,
            decreases self.items.len() - i,
        {
            if self.items[i] == item {
                return (i, true);
            }
            if self.items[i] > item {
                return (i, false);
            }
            i += 1;
        }
        (i, false)
    }

    /// Whether `item` is a member.
    pub fn contains(&self, item: i64) -> (r: bool)
        ensures
            r == self@.contains(item),
    {
        self.position(item).1
    }

    /// Adds `item` to the set.
    pub fn insert(&mut self, item: i64)
        ensures
            final(self)@ == old(self)@.insert(item),
    {
        let (p, found) = self.position(item);
        let ghost before = self.items@;
        if found {
            assert(self@ =~= self@.insert(item));
        } else {
            let mut items: Vec<i64> = Vec::new();
            core::mem::swap(&mut self.items, &mut items);
            items.insert(p, item);
            proof {
                let after = items@;
                assert forall|i: int, j: int| 0 <= i < j < after.len() implies #[trigger] after[i] < #[trigger] after[j] by {
                    let i0 = if i < p { i } else { i - 1 };
                    let j0 = if j < p { j } else { j - 1 };
                    if i != p {
                        assert(after[i] == before[i0]);
                    }
                    if j != p {
                        assert(after[j] == before[j0]);
                    }
                }
                assert forall|q: i64| after.contains(q) <==> (before.contains(q) || q == item) by {
                    if after.contains(q) {
                        let i = after.index_of(q);
                        if i < p {
                            assert(before[i] == q);
                        } else if i > p {
                            assert(before[i - 1] == q);
                        }
                    }
                    if before.contains(q) {
                        let i = before.index_of(q);
                        if i < p {
                            assert(after[i] == q);
                        } else {
                            assert(after[i + 1] == q);
                        }
                    }
                    if q == item {
                        assert(after[p as int] == q);
                    }
                }
                assert(after.to_set() =~= before.to_set().insert(item));
            }
            core::mem::swap(&mut self.items, &mut items);
        }
    }

    /// The member at index `i` of the sorted order.
    pub fn member_at(&self, i: usize) -> (k: i64)
        requires
            i < self.members().len(),
        ensures
            k == self.members()[i as int],
            self@.contains(k),
    {
        self.items[i]
    }

    /// The members, in increasing order.
    pub fn to_vec(&self) -> (r: Vec<i64>)
        ensures
            r@ == self.members(),
            increasing(r@),
            forall|k: i64| r@.contains(k) == self@.contains(k),
    {
        proof {
            use_type_invariant(self);
        }
        let mut r: Vec<i64> = Vec::new();
        let mut i: usize = 0;
        while i < self.items.len()
            invariant
                i <= self.items.len(),
                r@ == self.items@.subrange(0, i as int),
            decreases self.items.len() - i,
        {
            r.push(self.items[i]);
            i += 1;
            assert(r@ =~= self.items@.subrange(0, i as int));
        }
        assert(self.items@.subrange(0, self.items.len() as int) =~= self.items@);
        r
    }

    /// A copy of the set.
    pub fn duplicate(&self) -> (r: Self)
        ensures
            r@ == self@,
    {
        let items = self.to_vec();
        IntSet { items }
    }

    /// Whether the two sets have the same members.
    pub fn same_members(&self, other: &IntSet) -> (r: bool)
        ensures
            r == (self@ == other@),
    {
        let n = self.len();
        if n != other.len() {
            return false;
        }
        let mut i: usize = 0;
        while i < n
            invariant
                i <= n,
                n == self.members().len(),
                forall|j: int| 0 <= j < i ==> other@.contains(#[trigger] self.members()[j]),
            decreases n - i,
        {
            let k = self.member_at(i);
            if !other.contains(k) {
                return false;
            }
            i += 1;
        }
        proof {
            assert(self@.subset_of(other@)) by {
                assert forall|k: i64| self@.contains(k) implies other@.contains(k) by {
                    let j = self.members().index_of(k);
                    assert(self.members()[j] == k);
                }
            }
            vstd::set_lib::lemma_subset_equality(self@, other@);
        }
        true
    }

    /// The set of the integers that are in `self` or in `other`.
    pub fn union(&self, other: &IntSet) -> (r: Self)
        ensures
            r@ == self@.union(other@),
    {
        let mut r = self.duplicate();
        let n = other.len();
        let mut i: usize = 0;
        while i < n
            invariant
                i <= n,
                n == other.members().len(),
                forall|k: i64| r@.contains(k) <==> (self@.contains(k) || exists|j: int| 0 <= j < i && other.members()[j] == k),
            decreases n - i,
        {
            let k = other.member_at(i);
            let ghost before = r@;
            r.insert(k);
            proof {
                assert forall|q: i64| r@.contains(q) <==> (self@.contains(q) || exists|j: int| 0 <= j < i + 1 && other.members()[j] == q) by {
                    if q == k {
                        assert(other.members()[i as int] == q);
                    }
                    if before.contains(q) && !self@.contains(q) {
                        let j = choose|j: int| 0 <= j < i && other.members()[j] == q;
                        assert(0 <= j < i + 1 && other.members()[j] == q);
                    }
                }
            }
            i += 1;
        }
        assert(r@ =~= self@.union(other@));
        r
    }

    /// The set of the integers that are in both `self` and `other`.
    pub fn intersection(&self, other: &IntSet) -> (r: Self)
        ensures
            r@ == self@.intersect(other@),
    {
        let mut r = IntSet::new();
        let n = self.len();
        let mut i: usize = 0;
        while i < n
            invariant
                i <= n,
                n == self.members().len(),
                forall|k: i64| r@.contains(k) <==> (other@.contains(k) && exists|j: int| 0 <= j < i && self.members()[j] == k),
            decreases n - i,
        {
            let k = self.member_at(i);
            let ghost before = r@;
            if other.contains(k) {
                r.insert(k);
            }
            proof {
                assert forall|q: i64| r@.contains(q) <==> (other@.contains(q) && exists|j: int| 0 <= j < i + 1 && self.members()[j] == q) by {
                    if q == k {
                        assert(self.members()[i as int] == q);
                    }
                    if before.contains(q) {
                        let j = choose|j: int| 0 <= j < i && self.members()[j] == q;
                        assert(0 <= j < i + 1 && self.members()[j] == q);
                    }
                }
            }
            i += 1;
        }
        assert(r@ =~= self@.intersect(other@));
        r
    }
}

} // verus!
