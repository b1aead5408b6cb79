//! General laws of the set algebra, stated over the views that the set
//! operations' contracts speak of. Both variants return the same views
//! from their operations, so each law applies to either.

use vstd::prelude::*;

verus! {

broadcast use vstd::set::group_set_axioms;

/// A set constructed from a finite sequence holds exactly the
/// sequence's elements: membership in the view of `new` is membership
/// in the input, whatever duplicates it held, and the view's
/// cardinality is therefore the number of distinct elements.
pub proof fn lemma_construct_membership<T>(s: Seq<T>, e: T)
    ensures
        s.to_set().contains(e) == s.contains(e),
{
}

/// Adding an element twice changes neither membership nor cardinality
/// beyond adding it once.
pub proof fn lemma_add_idempotent<T>(s: Set<T>, e: T)
    ensures
        s.insert(e).insert(e) == s.insert(e),
        s.finite() ==> s.insert(e).insert(e).len() == s.insert(e).len(),
{
    assert(s.insert(e).insert(e) =~= s.insert(e));
}

/// Every set is a subset of itself; in particular any union is a subset
/// of itself.
pub proof fn lemma_subset_reflexive<T>(s: Set<T>)
    ensures
        s.subset_of(s),
{
}

/// Mutual subsets are equal.
pub proof fn lemma_subset_antisymmetric<T>(a: Set<T>, b: Set<T>)
    requires
        a.subset_of(b),
        b.subset_of(a),
    ensures
        a == b,
{
    assert(a =~= b);
}

/// Two non-empty disjoint sets differ.
pub proof fn lemma_disjoint_nonempty_unequal<T>(a: Set<T>, b: Set<T>)
    requires
        a.disjoint(b),
        a.finite(),
        b.finite(),
        a.len() > 0,
        b.len() > 0,
    ensures
        a != b,
{
    if a == b {
        assert(exists|x: T| a.contains(x)) by {
            if forall|x: T| !a.contains(x) {
                assert(a =~= Set::<T>::empty());
            }
        }
        let x = choose|x: T| a.contains(x);
        assert(!b.contains(x));
    }
}

/// The intersection of two sets is a subset of each of them.
pub proof fn lemma_intersection_subset_both<T>(a: Set<T>, b: Set<T>)
    ensures
        a.intersect(b).subset_of(a),
        a.intersect(b).subset_of(b),
{
}

/// The difference of two sets is disjoint from the subtracted one.
pub proof fn lemma_difference_disjoint<T>(a: Set<T>, b: Set<T>)
    ensures
        a.difference(b).disjoint(b),
{
}

} // verus!
