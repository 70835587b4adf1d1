//! Exchanging two entries of a vector, and what that keeps.
use vstd::prelude::*;

verus! {

broadcast use vstd::seq_lib::group_to_multiset_ensures;

/// `s` with the entries at `i` and `j` exchanged.
pub open spec fn swapped<T>(s: Seq<T>, i: int, j: int) -> Seq<T> {
    s.update(i, s[j]).update(j, s[i])
}

/// Exchanging two entries keeps the multiset of entries.
pub proof fn lemma_swap_keeps_multiset<T>(s: Seq<T>, i: int, j: int)
    requires
        0 <= i < s.len(),
        0 <= j < s.len(),
    ensures
        swapped(s, i, j).to_multiset() == s.to_multiset(),
{
    broadcast use vstd::seq_lib::to_multiset_update;
    broadcast use vstd::multiset::group_multiset_axioms;

    let t = s.update(i, s[j]);
    assert(t[j] == s[j]);
    assert(t.to_multiset() == s.to_multiset().insert(s[j]).remove(s[i]));
    assert(swapped(s, i, j).to_multiset() == t.to_multiset().insert(s[i]).remove(t[j]));
    assert(swapped(s, i, j).to_multiset() =~= s.to_multiset());
}

/// Exchanges the entries at `i` and `j`.
pub fn swap_entries<T: Copy>(p: &mut Vec<T>, i: usize, j: usize)
    requires
        i < old(p).len(),
        j < old(p).len(),
    ensures
        final(p)@ == swapped(old(p)@, i as int, j as int),
        final(p)@.to_multiset() == old(p)@.to_multiset(),
{
    proof {
        lemma_swap_keeps_multiset(p@, i as int, j as int);
    }
    let a = p[i];
    let b = p[j];
    p.set(i, b);
    p.set(j, a);
}

} // verus!
