//! Vector clocks: one logical time per node, compared pointwise.

use vstd::prelude::*;
use crate::select::{in_prefix, lemma_prefix_all, lemma_prefix_step};
use crate::strmap::{lemma_sorted_unique, lemma_sorted_distinct, sorted_strict, StrMap};

verus! {

/// The name of a node.
#[derive(Debug, PartialEq, Eq)]
pub struct NodeId {
    id: String,
}

impl View for NodeId {
    type V = Seq<char>;

    closed spec fn view(&self) -> Seq<char> {
        self.id@
    }
}

impl Clone for NodeId {
    fn clone(&self) -> (r: Self)
        ensures
            r@ == self@,
    {
        NodeId { id: self.id.clone() }
    }
}

impl NodeId {
    /// The node named `id`.
    pub fn new(id: &str) -> (r: Self)
        ensures
            r@ == id@,
    {
        NodeId { id: id.to_owned() }
    }

    /// The name.
    pub fn as_str(&self) -> (r: &str)
        ensures
            r@ == self@,
    {
        self.id.as_str()
    }

    /// The name, as an owned string.
    pub fn to_string(&self) -> (r: String)
        ensures
            r@ == self@,
    {
        self.id.clone()
    }
}

/// How two clocks relate.
#[derive(Debug, Clone, Copy, PartialEq, Eq, Structural)]
pub enum CausalOrder {
    /// The first clock happened before the second.
    Before,
    /// The first clock happened after the second.
    After,
    /// The clocks are the same.
    Equal,
    /// Neither happened before the other.
    Concurrent,
}

/// The time that the clock `m` shows for `node`: 0 where it has no entry.
pub open spec fn time_at(m: Map<Seq<char>, u64>, node: Seq<char>) -> u64 {
    if m.contains_key(node) {
        m[node]
    } else {
        0
    }
}

/// Every node's time in `a` is at most its time in `b`.
pub open spec fn clock_le(a: Map<Seq<char>, u64>, b: Map<Seq<char>, u64>) -> bool {
    forall|n: Seq<char>| #[trigger] time_at(a, n) <= time_at(b, n)
}

/// The order of two clocks: equal, before (less or equal everywhere and not
/// equal), after, or concurrent.
pub open spec fn causal_order(a: Map<Seq<char>, u64>, b: Map<Seq<char>, u64>) -> CausalOrder {
    if clock_le(a, b) && clock_le(b, a) {
        CausalOrder::Equal
    } else if clock_le(a, b) {
        CausalOrder::Before
    } else if clock_le(b, a) {
        CausalOrder::After
    } else {
        CausalOrder::Concurrent
    }
}

/// The larger of two times.
pub open spec fn max_time(x: u64, y: u64) -> u64 {
    if x >= y {
        x
    } else {
        y
    }
}

/// `c` is the pointwise maximum of `a` and `b`.
pub open spec fn is_clock_max(c: Map<Seq<char>, u64>, a: Map<Seq<char>, u64>, b: Map<Seq<char>, u64>) -> bool {
    &&& c.dom() == a.dom().union(b.dom())
    &&& forall|n: Seq<char>| #[trigger] time_at(c, n) == max_time(time_at(a, n), time_at(b, n))
}

/// The clock while a merge is under way: the first `n` entries of the other
/// clock have been taken in.
pub open spec fn merge_partial(
    keys: Seq<Seq<char>>,
    n: int,
    mine: Map<Seq<char>, u64>,
    theirs: Map<Seq<char>, u64>,
) -> Map<Seq<char>, u64> {
    Map::new(
        |t: Seq<char>| mine.contains_key(t) || in_prefix(keys, n, t),
        |t: Seq<char>|
            if in_prefix(keys, n, t) {
                max_time(time_at(mine, t), theirs[t])
            } else {
                mine[t]
            },
    )
}

/// The clock after `node` advanced by one; at the largest time it stays.
pub open spec fn ticked(clock: Map<Seq<char>, u64>, node: Seq<char>) -> Map<Seq<char>, u64> {
    clock.insert(
        node,
        if time_at(clock, node) < u64::MAX {
            (time_at(clock, node) + 1) as u64
        } else {
            u64::MAX
        },
    )
}

/// `names` lists, sorted, the nodes that have an entry in `clock`.
pub open spec fn is_sorted_nodes(clock: Map<Seq<char>, u64>, names: Seq<Seq<char>>) -> bool {
    sorted_strict(names) && forall|n: Seq<char>| clock.contains_key(n) <==> names.contains(n)
}

/// The nodes that have an entry in `clock`, sorted by name.
pub open spec fn sorted_nodes(clock: Map<Seq<char>, u64>) -> Seq<Seq<char>> {
    choose|names: Seq<Seq<char>>| is_sorted_nodes(clock, names)
}

/// A logical time for each node; a node without an entry stands at 0.
#[derive(Debug, PartialEq, Eq)]
pub struct VectorClock {
    clocks: StrMap<u64>,
}

impl View for VectorClock {
    type V = Map<Seq<char>, u64>;

    closed spec fn view(&self) -> Map<Seq<char>, u64> {
        self.clocks@
    }
}

impl Clone for VectorClock {
    fn clone(&self) -> (r: Self)
        ensures
            r@ == self@,
    {
        VectorClock { clocks: self.clocks.copied() }
    }
}

impl VectorClock {
    /// The time shown for `node`.
    pub open spec fn at(&self, node: Seq<char>) -> u64 {
        time_at(self@, node)
    }

    /// The clock without entries: every node stands at 0.
    pub fn new() -> (r: Self)
        ensures
            r@ == Map::<Seq<char>, u64>::empty(),
    {
        VectorClock { clocks: StrMap::new() }
    }

    /// The time shown for `node`.
    pub fn get(&self, node: &NodeId) -> (t: u64)
        ensures
            t == self.at(node@),
    {
        match self.clocks.get(node.as_str()) {
            Some(v) => *v,
            None => 0,
        }
    }

    /// Sets the time of `node`.
    pub fn set(&mut self, node: &NodeId, time: u64)
        ensures
            final(self)@ == old(self)@.insert(node@, time),
    {
        self.clocks.insert(node.to_string(), time);
    }

    /// Advances the time of `node` by one; a time at the top of the range
    /// stays there.
    pub fn tick(&mut self, node: &NodeId)
        ensures
            final(self)@ == old(self)@.insert(
                node@,
                if old(self).at(node@) < u64::MAX {
                    (old(self).at(node@) + 1) as u64
                } else {
                    u64::MAX
                },
            ),
    {
        let t = self.get(node);
        let next: u64 = if t < u64::MAX {
            t + 1
        } else {
            u64::MAX
        };
        self.clocks.insert(node.to_string(), next);
    }

    /// Raises every time to that of `other` where `other` is ahead.
    pub fn merge(&mut self, other: &VectorClock)
        ensures
            is_clock_max(final(self)@, old(self)@, other@),
    {
        let n = other.clocks.len();
        let ghost keys = other.clocks.keys_seq();
        let ghost mine = self@;
        let ghost theirs = other@;
        proof {
            other.clocks.lemma_dom();
            assert(self@ =~= merge_partial(keys, 0, mine, theirs));
        }
        let mut i: usize = 0;
        while i < n
            invariant
                i <= n,
                n == keys.len(),
                keys == other.clocks.keys_seq(),
                theirs == other@,
                other.clocks.wf(),
                self@ == merge_partial(keys, i as int, mine, theirs),
            decreases n - i,
        {
            let k = other.clocks.key_at(i);
            let theirs_t = *other.clocks.value_at(i);
            proof {
                if in_prefix(keys, i as int, k@) {
                    let j = choose|j: int| 0 <= j < i && j < keys.len() && #[trigger] keys[j] == k@;
                    lemma_sorted_distinct(keys, j, i as int);
                }
            }
            let mine_t = match self.clocks.get(k.as_str()) {
                Some(v) => *v,
                None => 0,
            };
            let m: u64 = if mine_t >= theirs_t {
                mine_t
            } else {
                theirs_t
            };
            self.clocks.insert(k.clone(), m);
            proof {
                assert forall|t: Seq<char>| in_prefix(keys, i + 1, t) <==> (t == keys[i as int] || in_prefix(keys, i as int, t)) by {
                    lemma_prefix_step(keys, i as int, t);
                }
                assert(self@ =~= merge_partial(keys, i + 1, mine, theirs));
            }
            i += 1;
        }
        proof {
            assert forall|t: Seq<char>| in_prefix(keys, n as int, t) <==> theirs.contains_key(t) by {
                lemma_prefix_all(keys, t);
                assert(other.clocks@.dom().contains(t) == keys.to_set().contains(t));
            }
            assert(self@.dom() =~= mine.dom().union(theirs.dom()));
            assert forall|t: Seq<char>| #[trigger] time_at(self@, t) == max_time(time_at(mine, t), time_at(theirs, t)) by {
                assert(in_prefix(keys, n as int, t) <==> theirs.contains_key(t));
            }
        }
    }

    /// The pointwise maximum of two clocks.
    pub fn max(a: &VectorClock, b: &VectorClock) -> (r: VectorClock)
        ensures
            is_clock_max(r@, a@, b@),
    {
        let mut r = a.clone();
        r.merge(b);
        r
    }

    /// Whether every time of `self` is at most that of `other`.
    fn le(&self, other: &VectorClock) -> (r: bool)
        ensures
            r == clock_le(self@, other@),
    {
        let n = self.clocks.len();
        let ghost keys = self.clocks.keys_seq();
        proof {
            self.clocks.lemma_dom();
        }
        let mut i: usize = 0;
        while i < n
            invariant
                i <= n,
                n == keys.len(),
                keys == self.clocks.keys_seq(),
                self.clocks.wf(),
                forall|j: int| 0 <= j < i ==> time_at(self@, #[trigger] keys[j]) <= time_at(other@, keys[j]),
            decreases n - i,
        {
            let k = self.clocks.key_at(i);
            let mine = *self.clocks.value_at(i);
            let theirs = match other.clocks.get(k.as_str()) {
                Some(v) => *v,
                None => 0,
            };
            if mine > theirs {
                assert(!(time_at(self@, k@) <= time_at(other@, k@)));
                return false;
            }
            i += 1;
        }
        proof {
            assert forall|t: Seq<char>| #[trigger] time_at(self@, t) <= time_at(other@, t) by {
                if self@.contains_key(t) {
                    assert(self.clocks@.dom().contains(t) == keys.to_set().contains(t));
                    let j = keys.index_of(t);
                    assert(keys[j] == t);
                }
            }
        }
        true
    }

    /// How this clock relates to `other`.
    pub fn compare(&self, other: &VectorClock) -> (r: CausalOrder)
        ensures
            r == causal_order(self@, other@),
    {
        let a = self.le(other);
        let b = other.le(self);
        if a && b {
            CausalOrder::Equal
        } else if a {
            CausalOrder::Before
        } else if b {
            CausalOrder::After
        } else {
            CausalOrder::Concurrent
        }
    }

    /// Whether neither clock happened before the other and they differ.
    pub fn concurrent_with(&self, other: &VectorClock) -> (r: bool)
        ensures
            r == (causal_order(self@, other@) == CausalOrder::Concurrent),
    {
        self.compare(other) == CausalOrder::Concurrent
    }

    /// Whether this clock happened before `other`.
    pub fn happened_before(&self, other: &VectorClock) -> (r: bool)
        ensures
            r == (causal_order(self@, other@) == CausalOrder::Before),
    {
        self.compare(other) == CausalOrder::Before
    }

    /// Whether the clock has no entry.
    pub fn is_empty(&self) -> (r: bool)
        ensures
            r == (self@ == Map::<Seq<char>, u64>::empty()),
    {
        self.clocks.is_empty()
    }

    /// The number of entries.
    pub fn len(&self) -> (n: usize)
        ensures
            n == self@.dom().len(),
    {
        self.clocks.len()
    }

    /// The sorted names of the nodes with an entry.
    closed spec fn nodes(&self) -> Seq<Seq<char>> {
        self.clocks.keys_seq()
    }

    /// The entries, sorted by node name.
    pub fn entries(&self) -> (r: Vec<(NodeId, u64)>)
        ensures
            is_sorted_nodes(self@, sorted_nodes(self@)),
            r.len() == sorted_nodes(self@).len(),
            forall|i: int| 0 <= i < r.len() ==> (#[trigger] r[i]).0@ == sorted_nodes(self@)[i] && r[i].1 == self@[r[i].0@],
    {
        let n = self.clocks.len();
        proof {
            self.clocks.lemma_dom();
            assert forall|t: Seq<char>| self@.contains_key(t) <==> self.nodes().contains(t) by {
                assert(self.clocks@.dom().contains(t) == self.clocks.keys_seq().to_set().contains(t));
            }
            assert(is_sorted_nodes(self@, self.nodes()));
            let chosen = sorted_nodes(self@);
            assert(is_sorted_nodes(self@, chosen));
            lemma_sorted_unique(self.nodes(), chosen);
        }
        let mut r: Vec<(NodeId, u64)> = Vec::new();
        let mut i: usize = 0;
        while i < n
            invariant
                i <= n,
                n == self.clocks.keys_seq().len(),
                r.len() == i,
                self.clocks.wf(),
                forall|j: int| 0 <= j < i ==> (#[trigger] r[j]).0@ == self.nodes()[j] && self@.contains_key(r[j].0@) && r[j].1 == self@[r[j].0@],
            decreases n - i,
        {
            let k = self.clocks.key_at(i);
            let v = *self.clocks.value_at(i);
            r.push((NodeId::new(k.as_str()), v));
            i += 1;
        }
        r
    }
}

impl Default for VectorClock {
    fn default() -> (r: Self)
        ensures
            r@ == Map::<Seq<char>, u64>::empty(),
    {
        VectorClock::new()
    }
}

/// The order of clocks is antisymmetric in its answers: swapping the clocks
/// swaps `Before` and `After` and keeps `Equal` and `Concurrent`.
pub proof fn law_causal_order_flips(a: Map<Seq<char>, u64>, b: Map<Seq<char>, u64>)
    ensures
        causal_order(a, b) == CausalOrder::Before <==> causal_order(b, a) == CausalOrder::After,
        causal_order(a, b) == CausalOrder::Equal <==> causal_order(b, a) == CausalOrder::Equal,
        causal_order(a, b) == CausalOrder::Concurrent <==> causal_order(b, a) == CausalOrder::Concurrent,
{
}

/// The pointwise maximum dominates both clocks.
pub proof fn law_clock_max_dominates(c: Map<Seq<char>, u64>, a: Map<Seq<char>, u64>, b: Map<Seq<char>, u64>)
    requires
        is_clock_max(c, a, b),
    ensures
        clock_le(a, c),
        clock_le(b, c),
        is_clock_max(c, b, a),
{
    assert forall|n: Seq<char>| #[trigger] time_at(a, n) <= time_at(c, n) by {
        assert(time_at(c, n) == max_time(time_at(a, n), time_at(b, n)));
    }
    assert forall|n: Seq<char>| #[trigger] time_at(b, n) <= time_at(c, n) by {
        assert(time_at(c, n) == max_time(time_at(a, n), time_at(b, n)));
    }
    assert(a.dom().union(b.dom()) =~= b.dom().union(a.dom()));
}

} // verus!
