//! A map from strings to values, kept as a list sorted by key.
//!
//! The list holds each key once and in increasing order, so two maps with the
//! same contents hold the same list, and walking a map visits its keys in
//! sorted order.

use vstd::prelude::*;
use crate::text::{lex_lt, lemma_lex_irreflexive, lemma_lex_transitive, lemma_lex_total, lemma_lex_asymmetric, str_eq, str_lt};

verus! {

/// Each element sorts strictly before all later ones.
pub open spec fn sorted_strict(keys: Seq<Seq<char>>) -> bool {
    forall|i: int, j: int| 0 <= i < j < keys.len() ==> lex_lt(#[trigger] keys[i], #[trigger] keys[j])
}

/// The map that sends `keys[i]` to `vals[i]`.
pub open spec fn assoc_map<V>(keys: Seq<Seq<char>>, vals: Seq<V>) -> Map<Seq<char>, V> {
    Map::new(|k: Seq<char>| keys.contains(k), |k: Seq<char>| vals[keys.index_of(k)])
}

/// A sorted list holds no key twice.
pub proof fn lemma_sorted_distinct(keys: Seq<Seq<char>>, i: int, j: int)
    requires
        sorted_strict(keys),
        0 <= i < keys.len(),
        0 <= j < keys.len(),
        keys[i] == keys[j],
    ensures
        i == j,
{
    lemma_lex_irreflexive(keys[i]);
    if i < j {
        assert(lex_lt(keys[i], keys[j]));
    } else if j < i {
        assert(lex_lt(keys[j], keys[i]));
    }
}

/// Two sorted lists with the same members are the same list.
pub proof fn lemma_sorted_unique(a: Seq<Seq<char>>, b: Seq<Seq<char>>)
    requires
        sorted_strict(a),
        sorted_strict(b),
        forall|k: Seq<char>| a.contains(k) <==> b.contains(k),
    ensures
        a == b,
    decreases a.len(),
{
    if a.len() == 0 {
        if b.len() > 0 {
            assert(b.contains(b[0]));
        }
        assert(a =~= b);
    } else {
        assert(a.contains(a[0]));
        let j = b.index_of(a[0]);
        assert(b.contains(b[0]));
        let i = a.index_of(b[0]);
        if i > 0 {
            assert(lex_lt(a[0], a[i]));
            if j > 0 {
                assert(lex_lt(b[0], b[j]));
                crate::text::lemma_lex_asymmetric(a[0], b[0]);
            } else {
                lemma_lex_irreflexive(a[0]);
            }
        }
        assert(a[0] == b[0]);
        let a2 = a.skip(1);
        let b2 = b.skip(1);
        assert forall|k: Seq<char>| a2.contains(k) <==> b2.contains(k) by {
            if a2.contains(k) {
                let x = a2.index_of(k);
                assert(a[x + 1] == k);
                assert(a.contains(k));
                lemma_lex_irreflexive(k);
                assert(lex_lt(a[0], a[x + 1]));
                let y = b.index_of(k);
                assert(y > 0);
                assert(b2[y - 1] == k);
            }
            if b2.contains(k) {
                let y = b2.index_of(k);
                assert(b[y + 1] == k);
                assert(b.contains(k));
                lemma_lex_irreflexive(k);
                assert(lex_lt(b[0], b[y + 1]));
                let x = a.index_of(k);
                assert(x > 0);
                assert(a2[x - 1] == k);
            }
        }
        assert(sorted_strict(a2)) by {
            assert forall|x: int, y: int| 0 <= x < y < a2.len() implies lex_lt(#[trigger] a2[x], #[trigger] a2[y]) by {
                assert(lex_lt(a[x + 1], a[y + 1]));
            }
        }
        assert(sorted_strict(b2)) by {
            assert forall|x: int, y: int| 0 <= x < y < b2.len() implies lex_lt(#[trigger] b2[x], #[trigger] b2[y]) by {
                assert(lex_lt(b[x + 1], b[y + 1]));
            }
        }
        lemma_sorted_unique(a2, b2);
        assert(a =~= seq![a[0]] + a2);
        assert(b =~= seq![b[0]] + b2);
    }
}

/// The map sends the key at index `i` to the value at index `i`.
pub proof fn lemma_assoc_lookup<V>(keys: Seq<Seq<char>>, vals: Seq<V>, i: int)
    requires
        sorted_strict(keys),
        0 <= i < keys.len(),
    ensures
        assoc_map(keys, vals).contains_key(keys[i]),
        assoc_map(keys, vals)[keys[i]] == vals[i],
        keys.index_of(keys[i]) == i,
{
    assert(keys.contains(keys[i]));
    let idx = keys.index_of(keys[i]);
    lemma_sorted_distinct(keys, idx, i);
}

/// A key below which all of a sorted prefix lies, and which lies below the
/// rest, is not in the list.
pub proof fn lemma_gap_absent(keys: Seq<Seq<char>>, k: Seq<char>, p: int)
    requires
        sorted_strict(keys),
        0 <= p <= keys.len(),
        forall|j: int| 0 <= j < p ==> lex_lt(#[trigger] keys[j], k),
        p < keys.len() ==> lex_lt(k, keys[p]),
    ensures
        !keys.contains(k),
{
    if keys.contains(k) {
        let i = keys.index_of(k);
        lemma_lex_irreflexive(k);
        if i < p {
            assert(lex_lt(keys[i], k));
        } else {
            if i > p {
                assert(lex_lt(keys[p], keys[i]));
                lemma_lex_transitive(k, keys[p], keys[i]);
            }
        }
    }
}

/// Inserting a key at its place keeps the list sorted.
pub proof fn lemma_insert_sorted(keys: Seq<Seq<char>>, k: Seq<char>, p: int)
    requires
        sorted_strict(keys),
        0 <= p <= keys.len(),
        forall|j: int| 0 <= j < p ==> lex_lt(#[trigger] keys[j], k),
        p < keys.len() ==> lex_lt(k, keys[p]),
    ensures
        sorted_strict(keys.insert(p, k)),
{
    let n = keys.insert(p, k);
    assert forall|i: int, j: int| 0 <= i < j < n.len() implies lex_lt(#[trigger] n[i], #[trigger] n[j]) by {
        if j < p {
            assert(n[i] == keys[i] && n[j] == keys[j]);
        } else if j == p {
            assert(n[i] == keys[i]);
        } else if i < p {
            assert(n[i] == keys[i] && n[j] == keys[j - 1]);
            if j - 1 == p {
            } else {
                assert(lex_lt(keys[p], keys[j - 1]));
            }
            lemma_lex_transitive(keys[i], k, keys[p]);
            if j - 1 > p {
                lemma_lex_transitive(keys[i], keys[p], keys[j - 1]);
            }
        } else if i == p {
            assert(n[j] == keys[j - 1]);
            if j - 1 > p {
                assert(lex_lt(keys[p], keys[j - 1]));
                lemma_lex_transitive(k, keys[p], keys[j - 1]);
            }
        } else {
            assert(n[i] == keys[i - 1] && n[j] == keys[j - 1]);
        }
    }
}

/// Inserting a key at its place in the list inserts it into the map.
pub proof fn lemma_assoc_insert<V>(keys: Seq<Seq<char>>, vals: Seq<V>, k: Seq<char>, v: V, p: int)
    requires
        sorted_strict(keys),
        keys.len() == vals.len(),
        0 <= p <= keys.len(),
        forall|j: int| 0 <= j < p ==> lex_lt(#[trigger] keys[j], k),
        p < keys.len() ==> lex_lt(k, keys[p]),
    ensures
        sorted_strict(keys.insert(p, k)),
        assoc_map(keys.insert(p, k), vals.insert(p, v)) == assoc_map(keys, vals).insert(k, v),
{
    lemma_insert_sorted(keys, k, p);
    let nk = keys.insert(p, k);
    let nv = vals.insert(p, v);
    let a = assoc_map(nk, nv);
    let b = assoc_map(keys, vals).insert(k, v);
    assert forall|q: Seq<char>| a.contains_key(q) == b.contains_key(q) by {
        if nk.contains(q) {
            let i = nk.index_of(q);
            if i < p {
                assert(keys[i] == q);
            } else if i > p {
                assert(keys[i - 1] == q);
            }
        }
        if keys.contains(q) {
            let i = keys.index_of(q);
            if i < p {
                assert(nk[i] == q);
            } else {
                assert(nk[i + 1] == q);
            }
        }
        if q == k {
            assert(nk[p] == q);
        }
    }
    assert forall|q: Seq<char>| a.contains_key(q) implies a[q] == b[q] by {
        let i = nk.index_of(q);
        lemma_assoc_lookup(nk, nv, i);
        if i < p {
            assert(keys[i] == q);
            lemma_assoc_lookup(keys, vals, i);
            lemma_lex_irreflexive(k);
        } else if i > p {
            assert(keys[i - 1] == q);
            lemma_assoc_lookup(keys, vals, i - 1);
            lemma_gap_absent(keys, k, p);
        }
    }
    assert(a =~= b);
}

/// Replacing the value at an index replaces it in the map.
pub proof fn lemma_assoc_update<V>(keys: Seq<Seq<char>>, vals: Seq<V>, v: V, p: int)
    requires
        sorted_strict(keys),
        keys.len() == vals.len(),
        0 <= p < keys.len(),
    ensures
        assoc_map(keys, vals.update(p, v)) == assoc_map(keys, vals).insert(keys[p], v),
{
    let nv = vals.update(p, v);
    let a = assoc_map(keys, nv);
    let b = assoc_map(keys, vals).insert(keys[p], v);
    assert forall|q: Seq<char>| a.contains_key(q) == b.contains_key(q) by {
        if q == keys[p] {
            assert(keys.contains(q));
        }
    }
    assert forall|q: Seq<char>| a.contains_key(q) implies a[q] == b[q] by {
        let i = keys.index_of(q);
        lemma_assoc_lookup(keys, nv, i);
        lemma_assoc_lookup(keys, vals, i);
        if i != p && keys[i] == keys[p] {
            lemma_sorted_distinct(keys, i, p);
        }
    }
    assert(a =~= b);
}

/// Removing the entry at an index removes its key from the map.
pub proof fn lemma_assoc_remove<V>(keys: Seq<Seq<char>>, vals: Seq<V>, p: int)
    requires
        sorted_strict(keys),
        keys.len() == vals.len(),
        0 <= p < keys.len(),
    ensures
        sorted_strict(keys.remove(p)),
        assoc_map(keys.remove(p), vals.remove(p)) == assoc_map(keys, vals).remove(keys[p]),
{
    let nk = keys.remove(p);
    let nv = vals.remove(p);
    assert forall|i: int, j: int| 0 <= i < j < nk.len() implies lex_lt(#[trigger] nk[i], #[trigger] nk[j]) by {
        let i0 = if i < p { i } else { i + 1 };
        let j0 = if j < p { j } else { j + 1 };
        assert(nk[i] == keys[i0] && nk[j] == keys[j0]);
    }
    let a = assoc_map(nk, nv);
    let b = assoc_map(keys, vals).remove(keys[p]);
    assert forall|q: Seq<char>| a.contains_key(q) == b.contains_key(q) by {
        if nk.contains(q) {
            let i = nk.index_of(q);
            let i0 = if i < p { i } else { i + 1 };
            assert(keys[i0] == q);
            if q == keys[p] {
                lemma_sorted_distinct(keys, i0, p);
            }
        }
        if keys.contains(q) && q != keys[p] {
            let i = keys.index_of(q);
            if i < p {
                assert(nk[i] == q);
            } else {
                assert(nk[i - 1] == q);
            }
        }
    }
    assert forall|q: Seq<char>| a.contains_key(q) implies a[q] == b[q] by {
        assert(nk.contains(q));
        let i = nk.index_of(q);
        assert(0 <= i < nk.len() && nk[i] == q);
        lemma_assoc_lookup(nk, nv, i);
        let i0 = if i < p { i } else { i + 1 };
        assert(keys[i0] == q);
        lemma_assoc_lookup(keys, vals, i0);
    }
    assert(a =~= b);
}

/// The keys of a list of entries, in order.
pub open spec fn keys_of<V>(entries: Seq<(String, V)>) -> Seq<Seq<char>> {
    Seq::new(entries.len(), |i: int| entries[i].0@)
}

/// The values of a list of entries, in order.
pub open spec fn vals_of<V>(entries: Seq<(String, V)>) -> Seq<V> {
    Seq::new(entries.len(), |i: int| entries[i].1)
}

/// A map from strings to values of type `V`.
#[derive(Debug, PartialEq, Eq)]
pub struct StrMap<V> {
    entries: Vec<(String, V)>,
}

impl<V> View for StrMap<V> {
    type V = Map<Seq<char>, V>;

    open spec fn view(&self) -> Map<Seq<char>, V> {
        assoc_map(self.keys_seq(), self.vals_seq())
    }
}

impl<V> StrMap<V> {
    /// The keys, in increasing order.
    pub closed spec fn keys_seq(&self) -> Seq<Seq<char>> {
        keys_of(self.entries@)
    }

    /// The values, each at the index of its key.
    pub closed spec fn vals_seq(&self) -> Seq<V> {
        vals_of(self.entries@)
    }

    /// The keys are strictly increasing and each has one value.
    #[verifier::type_invariant]
    pub open spec fn wf(&self) -> bool {
        &&& sorted_strict(self.keys_seq())
        &&& self.keys_seq().len() == self.vals_seq().len()
    }

    /// The empty map.
    pub fn new() -> (m: Self)
        ensures
            m@ == Map::<Seq<char>, V>::empty(),
            m.keys_seq() == Seq::<Seq<char>>::empty(),
            m.vals_seq() == Seq::<V>::empty(),
    {
        let m = StrMap { entries: Vec::new() };
        assert(m.keys_seq() =~= Seq::<Seq<char>>::empty());
        assert(m.vals_seq() =~= Seq::<V>::empty());
        assert(m@ =~= Map::<Seq<char>, V>::empty());
        m
    }

    /// The number of keys.
    pub fn len(&self) -> (n: usize)
        ensures
            n == self.keys_seq().len(),
            n == self.vals_seq().len(),
            n == self@.dom().len(),
            self@.dom().finite(),
            self.wf(),
    {
        proof {
            use_type_invariant(self);
            self.lemma_dom();
        }
        self.entries.len()
    }

    /// The domain of the view is the set of the listed keys.
    pub proof fn lemma_dom(&self)
        requires
            self.wf(),
        ensures
            self@.dom() == self.keys_seq().to_set(),
            self@.dom().finite(),
            self@.dom().len() == self.keys_seq().len(),
            forall|i: int| 0 <= i < self.keys_seq().len() ==> self@.contains_key(#[trigger] self.keys_seq()[i])
                && self@[self.keys_seq()[i]] == self.vals_seq()[i],
    {
        let keys = self.keys_seq();
        assert(self@.dom() =~= keys.to_set());
        vstd::seq_lib::seq_to_set_is_finite(keys);
        assert(keys.no_duplicates()) by {
            assert forall|i: int, j: int| 0 <= i < keys.len() && 0 <= j < keys.len() && i != j implies keys[i] != keys[j] by {
                if keys[i] == keys[j] {
                    lemma_sorted_distinct(keys, i, j);
                }
            }
        }
        keys.unique_seq_to_set();
        assert forall|i: int| 0 <= i < keys.len() implies self@.contains_key(#[trigger] keys[i])
            && self@[keys[i]] == self.vals_seq()[i] by {
            lemma_assoc_lookup(keys, self.vals_seq(), i);
        }
    }

    /// Whether the map holds no key.
    pub fn is_empty(&self) -> (r: bool)
        ensures
            r == (self.keys_seq().len() == 0),
            r == (self@ == Map::<Seq<char>, V>::empty()),
    {
        proof {
            use_type_invariant(self);
            self.lemma_dom();
            if self.keys_seq().len() == 0 {
                assert(self@ =~= Map::<Seq<char>, V>::empty());
            } else {
                assert(self@.contains_key(self.keys_seq()[0]));
            }
        }
        self.entries.len() == 0
    }

    /// The index at which `key` stands or would be inserted, and whether it
    /// stands there.
    pub fn position(&self, key: &str) -> (r: (usize, bool))
        ensures
            self.wf(),
            r.0 <= self.keys_seq().len(),
            forall|j: int| 0 <= j < r.0 ==> lex_lt(#[trigger] self.keys_seq()[j], key@),
            r.1 ==> r.0 < self.keys_seq().len() && self.keys_seq()[r.0 as int] == key@,
            !r.1 ==> (r.0 < self.keys_seq().len() ==> lex_lt(key@, self.keys_seq()[r.0 as int])),
            r.1 == self@.contains_key(key@),
    {
        proof {
            use_type_invariant(self);
        }
        let mut i: usize = 0;
        while i < self.entries.len()
            invariant
                i <= self.entries.len(),
                self.wf(),
                forall|j: int| 0 <= j < i ==> lex_lt(#[trigger] self.keys_seq()[j], key@),
            decreases self.entries.len() - i,
        {
            let k = self.entries[i].0.as_str();
            assert(k@ == self.keys_seq()[i as int]);
            if str_eq(k, key) {
                proof {
                    lemma_assoc_lookup(self.keys_seq(), self.vals_seq(), i as int);
                }
                return (i, true);
            }
            if !str_lt(k, key) {
                proof {
                    lemma_lex_total(k@, key@);
                    lemma_gap_absent(self.keys_seq(), key@, i as int);
                }
                return (i, false);
            }
            i += 1;
        }
        proof {
            lemma_gap_absent(self.keys_seq(), key@, i as int);
        }
        (i, false)
    }

    /// Whether `key` is in the map.
    pub fn contains_key(&self, key: &str) -> (r: bool)
        ensures
            r == self@.contains_key(key@),
    {
        self.position(key).1
    }

    /// The value under `key`, if there is one.
    pub fn get(&self, key: &str) -> (r: Option<&V>)
        ensures
            r is Some == self@.contains_key(key@),
            r is Some ==> *r->0 == self@[key@],
    {
        let (i, found) = self.position(key);
        if found {
            proof {
                lemma_assoc_lookup(self.keys_seq(), self.vals_seq(), i as int);
            }
            Some(&self.entries[i].1)
        } else {
            None
        }
    }

    /// The key at index `i` of the sorted order.
    pub fn key_at(&self, i: usize) -> (k: &String)
        requires
            i < self.keys_seq().len(),
        ensures
            k@ == self.keys_seq()[i as int],
            self@.contains_key(k@),
    {
        proof {
            use_type_invariant(self);
            lemma_assoc_lookup(self.keys_seq(), self.vals_seq(), i as int);
        }
        &self.entries[i].0
    }

    /// The value at index `i` of the sorted order.
    pub fn value_at(&self, i: usize) -> (v: &V)
        requires
            i < self.keys_seq().len(),
        ensures
            *v == self.vals_seq()[i as int],
            *v == self@[self.keys_seq()[i as int]],
    {
        proof {
            use_type_invariant(self);
            lemma_assoc_lookup(self.keys_seq(), self.vals_seq(), i as int);
        }
        &self.entries[i].1
    }

    /// Sets the value under `key`, adding the key if it is new.
    pub fn insert(&mut self, key: String, val: V)
        ensures
            final(self)@ == old(self)@.insert(key@, val),
    {
        let (i, found) = self.position(key.as_str());
        let ghost keys = self.keys_seq();
        let ghost vals = self.vals_seq();
        let ghost old_entries = self.entries@;
        if found {
            let mut entries: Vec<(String, V)> = Vec::new();
            proof {
                assert(keys_of(entries@) =~= Seq::<Seq<char>>::empty());
                assert(vals_of(entries@) =~= Seq::<V>::empty());
            }
            core::mem::swap(&mut self.entries, &mut entries);
            proof {
                lemma_assoc_update(keys, vals, val, i as int);
                let ne = old_entries.update(i as int, (key, val));
                assert(keys_of(ne) =~= keys);
                assert(vals_of(ne) =~= vals.update(i as int, val));
            }
            entries[i] = (key, val);
            core::mem::swap(&mut self.entries, &mut entries);
        } else {
            let mut entries: Vec<(String, V)> = Vec::new();
            proof {
                assert(keys_of(entries@) =~= Seq::<Seq<char>>::empty());
                assert(vals_of(entries@) =~= Seq::<V>::empty());
            }
            core::mem::swap(&mut self.entries, &mut entries);
            proof {
                lemma_assoc_insert(keys, vals, key@, val, i as int);
                let ne = old_entries.insert(i as int, (key, val));
                assert(keys_of(ne) =~= keys.insert(i as int, key@));
                assert(vals_of(ne) =~= vals.insert(i as int, val));
            }
            entries.insert(i, (key, val));
            core::mem::swap(&mut self.entries, &mut entries);
        }
    }

    /// The keys, in increasing order.
    pub fn keys(&self) -> (r: Vec<String>)
        ensures
            r.deep_view() == self.keys_seq(),
            sorted_strict(r.deep_view()),
            forall|k: Seq<char>| r.deep_view().contains(k) == self@.contains_key(k),
    {
        proof {
            use_type_invariant(self);
        }
        let mut r: Vec<String> = Vec::new();
        let mut i: usize = 0;
        while i < self.entries.len()
            invariant
                i <= self.entries.len(),
                r.len() == i,
                forall|j: int| 0 <= j < i ==> r[j]@ == self.keys_seq()[j],
            decreases self.entries.len() - i,
        {
            r.push(self.entries[i].0.clone());
            i += 1;
        }
        assert(r.deep_view() =~= self.keys_seq());
        r
    }

    /// Takes `key` out of the map and hands back its value, if it was there.
    pub fn remove(&mut self, key: &str) -> (r: Option<V>)
        ensures
            final(self)@ == old(self)@.remove(key@),
            r is Some == old(self)@.contains_key(key@),
            r is Some ==> r->0 == old(self)@[key@],
    {
        let (i, found) = self.position(key);
        let ghost keys = self.keys_seq();
        let ghost vals = self.vals_seq();
        let ghost old_entries = self.entries@;
        if found {
            let mut entries: Vec<(String, V)> = Vec::new();
            proof {
                assert(keys_of(entries@) =~= Seq::<Seq<char>>::empty());
                assert(vals_of(entries@) =~= Seq::<V>::empty());
            }
            core::mem::swap(&mut self.entries, &mut entries);
            proof {
                lemma_assoc_remove(keys, vals, i as int);
                lemma_assoc_lookup(keys, vals, i as int);
                let ne = old_entries.remove(i as int);
                assert(keys_of(ne) =~= keys.remove(i as int));
                assert(vals_of(ne) =~= vals.remove(i as int));
            }
            let gone = entries.remove(i);
            core::mem::swap(&mut self.entries, &mut entries);
            Some(gone.1)
        } else {
            assert(self@ =~= self@.remove(key@));
            None
        }
    }

    /// Empties the map.
    pub fn clear(&mut self)
        ensures
            final(self)@ == Map::<Seq<char>, V>::empty(),
    {
        let mut entries: Vec<(String, V)> = Vec::new();
        proof {
            assert(keys_of(entries@) =~= Seq::<Seq<char>>::empty());
            assert(vals_of(entries@) =~= Seq::<V>::empty());
        }
        core::mem::swap(&mut self.entries, &mut entries);
        assert(self@ =~= Map::<Seq<char>, V>::empty());
    }
}

impl<V: Clone> Clone for StrMap<V> {
    fn clone(&self) -> (r: Self)
        ensures
            r.keys_seq() == self.keys_seq(),
            r.vals_seq().len() == self.vals_seq().len(),
            forall|i: int| 0 <= i < self.vals_seq().len() ==> cloned::<V>(#[trigger] self.vals_seq()[i], r.vals_seq()[i]),
            r@.dom() == self@.dom(),
    {
        proof {
            use_type_invariant(self);
        }
        let mut entries: Vec<(String, V)> = Vec::new();
        let mut i: usize = 0;
        while i < self.entries.len()
            invariant
                i <= self.entries.len(),
                entries.len() == i,
                forall|j: int| 0 <= j < i ==> (#[trigger] entries[j]).0@ == self.entries[j].0@ && cloned::<V>(self.entries[j].1, entries[j].1),
            decreases self.entries.len() - i,
        {
            let k = self.entries[i].0.clone();
            let v = self.entries[i].1.clone();
            assert(cloned::<V>(self.entries[i as int].1, v));
            entries.push((k, v));
            i += 1;
        }
        proof {
            assert(keys_of(entries@) =~= self.keys_seq());
            assert(vals_of(entries@).len() == self.vals_seq().len());
            assert forall|i: int| 0 <= i < self.vals_seq().len() implies cloned::<V>(#[trigger] self.vals_seq()[i], vals_of(entries@)[i]) by {
                assert(cloned::<V>(self.entries[i].1, entries[i].1));
            }
        }
        let r = StrMap { entries };
        assert(r@.dom() =~= self@.dom());
        r
    }
}

impl<V: Copy> StrMap<V> {
    /// A copy of the map.
    pub fn copied(&self) -> (r: Self)
        ensures
            r@ == self@,
            r.keys_seq() == self.keys_seq(),
            r.vals_seq() == self.vals_seq(),
    {
        proof {
            use_type_invariant(self);
        }
        let mut entries: Vec<(String, V)> = Vec::new();
        let mut i: usize = 0;
        while i < self.entries.len()
            invariant
                i <= self.entries.len(),
                entries.len() == i,
                forall|j: int| 0 <= j < i ==> entries[j].0@ == self.entries[j].0@ && entries[j].1 == self.entries[j].1,
            decreases self.entries.len() - i,
        {
            entries.push((self.entries[i].0.clone(), self.entries[i].1));
            i += 1;
        }
        proof {
            assert(keys_of(entries@) =~= self.keys_seq());
            assert(vals_of(entries@) =~= self.vals_seq());
        }
        StrMap { entries }
    }
}

} // verus!
