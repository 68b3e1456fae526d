//! A map from 64-bit ids to values, kept as a list sorted by id.

use vstd::prelude::*;

verus! {

/// Each id is strictly less than all later ones.
pub open spec fn ids_increasing(ids: Seq<u64>) -> bool {
    forall|i: int, j: int| 0 <= i < j < ids.len() ==> #[trigger] ids[i] < #[trigger] ids[j]
}

/// The map that sends `ids[i]` to `vals[i]`.
pub open spec fn id_assoc<V>(ids: Seq<u64>, vals: Seq<V>) -> Map<u64, V> {
    Map::new(|k: u64| ids.contains(k), |k: u64| vals[ids.index_of(k)])
}

/// The map sends the id at index `i` to the value at index `i`.
pub proof fn lemma_id_lookup<V>(ids: Seq<u64>, vals: Seq<V>, i: int)
    requires
        ids_increasing(ids),
        0 <= i < ids.len(),
    ensures
        id_assoc(ids, vals).contains_key(ids[i]),
        id_assoc(ids, vals)[ids[i]] == vals[i],
        ids.index_of(ids[i]) == i,
{
    assert(ids.contains(ids[i]));
    let j = ids.index_of(ids[i]);
    if j < i {
        assert(ids[j] < ids[i]);
    } else if i < j {
        assert(ids[i] < ids[j]);
    }
}

/// Inserting an id at its place in the list inserts it into the map.
pub proof fn lemma_id_insert<V>(ids: Seq<u64>, vals: Seq<V>, k: u64, v: V, p: int)
    requires
        ids_increasing(ids),
        ids.len() == vals.len(),
        0 <= p <= ids.len(),
        forall|j: int| 0 <= j < p ==> #[trigger] ids[j] < k,
        p < ids.len() ==> k < ids[p],
    ensures
        ids_increasing(ids.insert(p, k)),
        id_assoc(ids.insert(p, k), vals.insert(p, v)) == id_assoc(ids, vals).insert(k, v),
{
    let ni = ids.insert(p, k);
    let nv = vals.insert(p, v);
    assert forall|i: int, j: int| 0 <= i < j < ni.len() implies #[trigger] ni[i] < #[trigger] ni[j] by {
        let i0 = if i < p { i } else { i - 1 };
        let j0 = if j < p { j } else { j - 1 };
        if i != p {
            assert(ni[i] == ids[i0]);
        }
        if j != p {
            assert(ni[j] == ids[j0]);
        }
        if i == p && j0 > p {
            assert(ids[p] < ids[j0]);
        }
    }
    let a = id_assoc(ni, nv);
    let b = id_assoc(ids, vals).insert(k, v);
    assert forall|q: u64| a.contains_key(q) == b.contains_key(q) by {
        if ni.contains(q) {
            let i = ni.index_of(q);
            if i < p {
                assert(ids[i] == q);
            } else if i > p {
                assert(ids[i - 1] == q);
            }
        }
        if ids.contains(q) {
            let i = ids.index_of(q);
            if i < p {
                assert(ni[i] == q);
            } else {
                assert(ni[i + 1] == q);
            }
        }
        if q == k {
            assert(ni[p] == q);
        }
    }
    assert forall|q: u64| a.contains_key(q) implies a[q] == b[q] by {
        let i = ni.index_of(q);
        lemma_id_lookup(ni, nv, i);
        if i < p {
            assert(ids[i] == q);
            lemma_id_lookup(ids, vals, i);
        } else if i > p {
            assert(ids[i - 1] == q);
            lemma_id_lookup(ids, vals, i - 1);
            if i - 1 > p {
                assert(ids[p] < ids[i - 1]);
            }
        }
    }
    assert(a =~= b);
}

/// Replacing the value at an index replaces it in the map.
pub proof fn lemma_id_update<V>(ids: Seq<u64>, vals: Seq<V>, v: V, p: int)
    requires
        ids_increasing(ids),
        ids.len() == vals.len(),
        0 <= p < ids.len(),
    ensures
        id_assoc(ids, vals.update(p, v)) == id_assoc(ids, vals).insert(ids[p], v),
{
    let nv = vals.update(p, v);
    let a = id_assoc(ids, nv);
    let b = id_assoc(ids, vals).insert(ids[p], v);
    assert forall|q: u64| a.contains_key(q) == b.contains_key(q) by {
        if q == ids[p] {
            assert(ids.contains(q));
        }
    }
    assert forall|q: u64| a.contains_key(q) implies a[q] == b[q] by {
        let i = ids.index_of(q);
        lemma_id_lookup(ids, nv, i);
        lemma_id_lookup(ids, vals, i);
        lemma_id_lookup(ids, vals, p);
    }
    assert(a =~= b);
}

/// Removing the entry at an index removes its id from the map.
pub proof fn lemma_id_remove<V>(ids: Seq<u64>, vals: Seq<V>, p: int)
    requires
        ids_increasing(ids),
        ids.len() == vals.len(),
        0 <= p < ids.len(),
    ensures
        ids_increasing(ids.remove(p)),
        id_assoc(ids.remove(p), vals.remove(p)) == id_assoc(ids, vals).remove(ids[p]),
{
    let ni = ids.remove(p);
    let nv = vals.remove(p);
    assert forall|i: int, j: int| 0 <= i < j < ni.len() implies #[trigger] ni[i] < #[trigger] ni[j] by {
        let i0 = if i < p { i } else { i + 1 };
        let j0 = if j < p { j } else { j + 1 };
        assert(ni[i] == ids[i0] && ni[j] == ids[j0]);
    }
    let a = id_assoc(ni, nv);
    let b = id_assoc(ids, vals).remove(ids[p]);
    assert forall|q: u64| a.contains_key(q) == b.contains_key(q) by {
        if ni.contains(q) {
            let i = ni.index_of(q);
            let i0 = if i < p { i } else { i + 1 };
            assert(ids[i0] == q);
            lemma_id_lookup(ids, vals, i0);
            lemma_id_lookup(ids, vals, p);
        }
        if ids.contains(q) && q != ids[p] {
            let i = ids.index_of(q);
            if i < p {
                assert(ni[i] == q);
            } else {
                assert(ni[i - 1] == q);
            }
        }
    }
    assert forall|q: u64| a.contains_key(q) implies a[q] == b[q] by {
        assert(ni.contains(q));
        let i = ni.index_of(q);
        assert(0 <= i < ni.len() && ni[i] == q);
        lemma_id_lookup(ni, nv, i);
        let i0 = if i < p { i } else { i + 1 };
        assert(ids[i0] == q);
        lemma_id_lookup(ids, vals, i0);
    }
    assert(a =~= b);
}

/// The ids of a list of entries, in order.
pub open spec fn ids_of<V>(entries: Seq<(u64, V)>) -> Seq<u64> {
    Seq::new(entries.len(), |i: int| entries[i].0)
}

/// The values of a list of entries, in order.
pub open spec fn id_vals_of<V>(entries: Seq<(u64, V)>) -> Seq<V> {
    Seq::new(entries.len(), |i: int| entries[i].1)
}

/// A map from ids to values of type `V`.
#[derive(Debug)]
pub struct IdMap<V> {
    entries: Vec<(u64, V)>,
}

impl<V> View for IdMap<V> {
    type V = Map<u64, V>;

    open spec fn view(&self) -> Map<u64, V> {
        id_assoc(self.ids_seq(), self.vals_seq())
    }
}

impl<V> IdMap<V> {
    /// The ids, in increasing order.
    pub closed spec fn ids_seq(&self) -> Seq<u64> {
        ids_of(self.entries@)
    }

    /// The values, each at the index of its id.
    pub closed spec fn vals_seq(&self) -> Seq<V> {
        id_vals_of(self.entries@)
    }

    /// The ids are strictly increasing and each has one value.
    #[verifier::type_invariant]
    pub open spec fn wf(&self) -> bool {
        &&& ids_increasing(self.ids_seq())
        &&& self.ids_seq().len() == self.vals_seq().len()
    }

    /// The empty map.
    pub fn new() -> (m: Self)
        ensures
            m@ == Map::<u64, V>::empty(),
            m.ids_seq() == Seq::<u64>::empty(),
    {
        let m = IdMap { entries: Vec::new() };
        assert(m.ids_seq() =~= Seq::<u64>::empty());
        assert(m@ =~= Map::<u64, V>::empty());
        m
    }

    /// The view maps exactly the listed ids, each to the value at its index.
    pub proof fn lemma_dom(&self)
        requires
            self.wf(),
        ensures
            forall|k: u64| self@.contains_key(k) <==> self.ids_seq().contains(k),
            forall|i: int| 0 <= i < self.ids_seq().len() ==> self@.contains_key(#[trigger] self.ids_seq()[i])
                && self@[self.ids_seq()[i]] == self.vals_seq()[i],
    {
        assert forall|i: int| 0 <= i < self.ids_seq().len() implies self@.contains_key(#[trigger] self.ids_seq()[i])
            && self@[self.ids_seq()[i]] == self.vals_seq()[i] by {
            lemma_id_lookup(self.ids_seq(), self.vals_seq(), i);
        }
    }

    /// The number of ids.
    pub fn len(&self) -> (n: usize)
        ensures
            n == self.ids_seq().len(),
            n == self.vals_seq().len(),
            self.wf(),
    {
        proof {
            use_type_invariant(self);
        }
        self.entries.len()
    }

    /// The index at which `id` stands or would be inserted, and whether it
    /// stands there.
    pub fn position(&self, id: u64) -> (r: (usize, bool))
        ensures
            self.wf(),
            r.0 <= self.ids_seq().len(),
            forall|j: int| 0 <= j < r.0 ==> #[trigger] self.ids_seq()[j] < id,
            r.1 ==> r.0 < self.ids_seq().len() && self.ids_seq()[r.0 as int] == id,
            !r.1 ==> (r.0 < self.ids_seq().len() ==> id < self.ids_seq()[r.0 as int]),
            r.1 == self@.contains_key(id),
    {
        proof {
            use_type_invariant(self);
        }
        let mut i: usize = 0;
        while i < self.entries.len()
            invariant
                i <= self.entries.len(),
                self.wf(),
                forall|j: int| 0 <= j < i ==> #[trigger] self.ids_seq()[j] < id,
            decreases self.entries.len() - i,
        {
            let k = self.entries[i].0;
            assert(k == self.ids_seq()[i as int]);
            if k == id {
                proof {
                    lemma_id_lookup(self.ids_seq(), self.vals_seq(), i as int);
                }
                return (i, true);
            }
            if k > id {
                proof {
                    if self.ids_seq().contains(id) {
                        let j = self.ids_seq().index_of(id);
                        if j > i {
                            assert(self.ids_seq()[i as int] < self.ids_seq()[j]);
                        }
                    }
                }
                return (i, false);
            }
            i += 1;
        }
        proof {
            if self.ids_seq().contains(id) {
                let j = self.ids_seq().index_of(id);
                assert(self.ids_seq()[j] < id);
            }
        }
        (i, false)
    }

    /// Whether `id` is in the map.
    pub fn contains_key(&self, id: u64) -> (r: bool)
        ensures
            r == self@.contains_key(id),
    {
        self.position(id).1
    }

    /// The value under `id`, if there is one.
    pub fn get(&self, id: u64) -> (r: Option<&V>)
        ensures
            r is Some == self@.contains_key(id),
            r is Some ==> *r->0 == self@[id],
    {
        let (i, found) = self.position(id);
        if found {
            proof {
                lemma_id_lookup(self.ids_seq(), self.vals_seq(), i as int);
            }
            Some(&self.entries[i].1)
        } else {
            None
        }
    }

    /// The id at index `i` of the sorted order.
    pub fn id_at(&self, i: usize) -> (k: u64)
        requires
            i < self.ids_seq().len(),
        ensures
            k == self.ids_seq()[i as int],
            self@.contains_key(k),
    {
        proof {
            use_type_invariant(self);
            lemma_id_lookup(self.ids_seq(), self.vals_seq(), i as int);
        }
        self.entries[i].0
    }

    /// The value at index `i` of the sorted order.
    pub fn value_at(&self, i: usize) -> (v: &V)
        requires
            i < self.ids_seq().len(),
        ensures
            *v == self.vals_seq()[i as int],
            *v == self@[self.ids_seq()[i as int]],
    {
        proof {
            use_type_invariant(self);
            lemma_id_lookup(self.ids_seq(), self.vals_seq(), i as int);
        }
        &self.entries[i].1
    }

    /// Sets the value under `id`, adding the id if it is new.
    pub fn insert(&mut self, id: u64, val: V)
        ensures
            final(self)@ == old(self)@.insert(id, val),
    {
        let (i, found) = self.position(id);
        let ghost ids = self.ids_seq();
        let ghost vals = self.vals_seq();
        let ghost old_entries = self.entries@;
        let mut entries: Vec<(u64, V)> = Vec::new();
        proof {
            assert(ids_of(entries@) =~= Seq::<u64>::empty());
            assert(id_vals_of(entries@) =~= Seq::<V>::empty());
        }
        core::mem::swap(&mut self.entries, &mut entries);
        if found {
            proof {
                lemma_id_update(ids, vals, val, i as int);
                let ne = old_entries.update(i as int, (id, val));
                assert(ids_of(ne) =~= ids);
                assert(id_vals_of(ne) =~= vals.update(i as int, val));
            }
            entries[i] = (id, val);
        } else {
            proof {
                lemma_id_insert(ids, vals, id, val, i as int);
                let ne = old_entries.insert(i as int, (id, val));
                assert(ids_of(ne) =~= ids.insert(i as int, id));
                assert(id_vals_of(ne) =~= vals.insert(i as int, val));
            }
            entries.insert(i, (id, val));
        }
        core::mem::swap(&mut self.entries, &mut entries);
    }

    /// Takes `id` out of the map and hands back its value, if it was there.
    pub fn remove(&mut self, id: u64) -> (r: Option<V>)
        ensures
            final(self)@ == old(self)@.remove(id),
            r is Some == old(self)@.contains_key(id),
            r is Some ==> r->0 == old(self)@[id],
    {
        let (i, found) = self.position(id);
        let ghost ids = self.ids_seq();
        let ghost vals = self.vals_seq();
        let ghost old_entries = self.entries@;
        if found {
            let mut entries: Vec<(u64, V)> = Vec::new();
            proof {
                assert(ids_of(entries@) =~= Seq::<u64>::empty());
                assert(id_vals_of(entries@) =~= Seq::<V>::empty());
            }
            core::mem::swap(&mut self.entries, &mut entries);
            proof {
                lemma_id_remove(ids, vals, i as int);
                lemma_id_lookup(ids, vals, i as int);
                let ne = old_entries.remove(i as int);
                assert(ids_of(ne) =~= ids.remove(i as int));
                assert(id_vals_of(ne) =~= vals.remove(i as int));
            }
            let gone = entries.remove(i);
            core::mem::swap(&mut self.entries, &mut entries);
            Some(gone.1)
        } else {
            assert(self@ =~= self@.remove(id));
            None
        }
    }

    /// The ids, in increasing order.
    pub fn ids(&self) -> (r: Vec<u64>)
        ensures
            r@ == self.ids_seq(),
            ids_increasing(r@),
            forall|k: u64| r@.contains(k) <==> self@.contains_key(k),
    {
        proof {
            use_type_invariant(self);
            self.lemma_dom();
        }
        let mut r: Vec<u64> = Vec::new();
        let mut i: usize = 0;
        while i < self.entries.len()
            invariant
                i <= self.entries.len(),
                r.len() == i,
                forall|j: int| 0 <= j < i ==> r[j] == self.ids_seq()[j],
            decreases self.entries.len() - i,
        {
            r.push(self.entries[i].0);
            i += 1;
        }
        assert(r@ =~= self.ids_seq());
        r
    }
}

} // verus!
