//! Picking the marked positions of a list, and the names in a prefix of a list.

use vstd::prelude::*;
use crate::strmap::{lemma_sorted_distinct, sorted_strict};
use crate::text::lex_lt;

verus! {

/// `idx` lists, in increasing order, exactly the positions at which `flags`
/// is true.
pub open spec fn selects(idx: Seq<usize>, flags: Seq<bool>) -> bool {
    &&& forall|t: int| 0 <= t < idx.len() ==> (#[trigger] idx[t]) < flags.len() && flags[idx[t] as int]
    &&& forall|s: int, t: int| 0 <= s < t < idx.len() ==> (#[trigger] idx[s]) < (#[trigger] idx[t])
    &&& forall|j: int| 0 <= j < flags.len() && #[trigger] flags[j] ==> idx.contains(j as usize)
}

/// The positions at which `flags` is true, in increasing order.
pub fn select(flags: &Vec<bool>) -> (idx: Vec<usize>)
    ensures
        selects(idx@, flags@),
{
    let mut idx: Vec<usize> = Vec::new();
    let mut i: usize = 0;
    while i < flags.len()
        invariant
            i <= flags.len(),
            forall|t: int| 0 <= t < idx.len() ==> (#[trigger] idx[t]) < i && flags[idx[t] as int],
            forall|s: int, t: int| 0 <= s < t < idx.len() ==> (#[trigger] idx[s]) < (#[trigger] idx[t]),
            forall|j: int| 0 <= j < i && #[trigger] flags[j] ==> idx@.contains(j as usize),
        decreases flags.len() - i,
    {
        if flags[i] {
            let ghost before = idx@;
            idx.push(i);
            proof {
                assert forall|j: int| 0 <= j < i + 1 && #[trigger] flags[j] implies idx@.contains(j as usize) by {
                    if j < i {
                        let t = before.index_of(j as usize);
                        assert(idx@[t] == j as usize);
                    } else {
                        assert(idx@[idx.len() - 1] == j as usize);
                    }
                }
            }
        }
        i += 1;
    }
    idx
}

/// The keys at selected positions of a sorted list are sorted, and they are
/// the keys whose flag is set.
pub proof fn lemma_selected_names(
    keys: Seq<Seq<char>>,
    flags: Seq<bool>,
    idx: Seq<usize>,
    names: Seq<Seq<char>>,
)
    requires
        sorted_strict(keys),
        keys.len() == flags.len(),
        keys.len() <= usize::MAX,
        selects(idx, flags),
        names.len() == idx.len(),
        forall|t: int| 0 <= t < idx.len() ==> #[trigger] names[t] == keys[idx[t] as int],
    ensures
        sorted_strict(names),
        forall|k: Seq<char>| names.contains(k) <==> (exists|j: int| 0 <= j < keys.len() && keys[j] == k && flags[j]),
{
    assert forall|s: int, t: int| 0 <= s < t < names.len() implies lex_lt(#[trigger] names[s], #[trigger] names[t]) by {
        assert(idx[s] < idx[t]);
        assert(lex_lt(keys[idx[s] as int], keys[idx[t] as int]));
    }
    assert forall|k: Seq<char>| names.contains(k) <==> (exists|j: int| 0 <= j < keys.len() && keys[j] == k && flags[j]) by {
        if names.contains(k) {
            let t = names.index_of(k);
            assert(names[t] == keys[idx[t] as int]);
            let j = idx[t] as int;
            assert(0 <= j < keys.len() && keys[j] == k && flags[j]);
        }
        if exists|j: int| 0 <= j < keys.len() && keys[j] == k && flags[j] {
            let j = choose|j: int| 0 <= j < keys.len() && keys[j] == k && flags[j];
            assert(idx.contains(j as usize));
            let t = idx.index_of(j as usize);
            assert(names[t] == k);
        }
    }
}

/// `t` is one of the first `n` names.
pub open spec fn in_prefix(names: Seq<Seq<char>>, n: int, t: Seq<char>) -> bool {
    exists|j: int| 0 <= j < n && j < names.len() && #[trigger] names[j] == t
}

/// Taking one more name into the prefix adds that name.
pub proof fn lemma_prefix_step(names: Seq<Seq<char>>, n: int, t: Seq<char>)
    requires
        0 <= n < names.len(),
    ensures
        in_prefix(names, n + 1, t) <==> (t == names[n] || in_prefix(names, n, t)),
{
    if in_prefix(names, n, t) {
        let j = choose|j: int| 0 <= j < n && j < names.len() && #[trigger] names[j] == t;
        assert(0 <= j < n + 1 && names[j] == t);
    }
    if t == names[n] {
        assert(0 <= n < n + 1 && names[n] == t);
    }
}

/// The whole list as a prefix holds exactly the names of the list.
pub proof fn lemma_prefix_all(names: Seq<Seq<char>>, t: Seq<char>)
    ensures
        in_prefix(names, names.len() as int, t) <==> names.contains(t),
{
    if names.contains(t) {
        let j = names.index_of(t);
        assert(0 <= j < names.len() && names[j] == t);
    }
}

} // verus!
