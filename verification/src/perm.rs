use vstd::prelude::*;
use vstd::seq_lib::{group_to_multiset_ensures, to_multiset_len};
use crate::axis::{axes, bulk, lemma_bulk_remove, Axis, Dim};

verus! {

/// Two sequences that hold the same items equally often are equally long,
/// and the last item of the first stands somewhere in the second; with that
/// one item taken out of each, they still hold the same items.
pub proof fn lemma_permuted_last<T>(a: Seq<T>, b: Seq<T>) -> (k: int)
    requires
        a.to_multiset() == b.to_multiset(),
        a.len() > 0,
    ensures
        a.len() == b.len(),
        0 <= k < b.len(),
        b[k] == a.last(),
        a.drop_last().to_multiset() == b.remove(k).to_multiset(),
{
    broadcast use group_to_multiset_ensures;

    let x = a.last();
    lemma_permuted_len(a, b);
    assert(a[a.len() - 1] == x);
    assert(a.contains(x));
    assert(b.to_multiset().count(x) > 0);
    assert(b.contains(x));
    let k = choose|k: int| 0 <= k < b.len() && b[k] == x;
    assert(a.drop_last() =~= a.remove(a.len() - 1));
    k
}

/// Sequences that hold the same items equally often are equally long.
pub proof fn lemma_permuted_len<T>(a: Seq<T>, b: Seq<T>)
    requires
        a.to_multiset() == b.to_multiset(),
    ensures
        a.len() == b.len(),
{
    to_multiset_len(a);
    to_multiset_len(b);
}

/// Dims that are rearranged stand for axes that are rearranged.
pub proof fn lemma_axes_permuted(a: Seq<Dim>, b: Seq<Dim>)
    requires
        a.to_multiset() == b.to_multiset(),
    ensures
        axes(a).to_multiset() == axes(b).to_multiset(),
    decreases a.len(),
{
    broadcast use group_to_multiset_ensures;

    lemma_permuted_len(a, b);
    if a.len() == 0 {
        assert(axes(a) =~= axes(b));
    } else {
        let k = lemma_permuted_last(a, b);
        lemma_axes_permuted(a.drop_last(), b.remove(k));
        let front = axes(a.drop_last());
        let rest = axes(b.remove(k));
        assert(axes(a) =~= front.push(a.last()@));
        assert(axes(b) =~= rest.insert(k, b[k]@));
    }
}

/// Rearranging the axes leaves their bulk as it is.
pub proof fn lemma_bulk_permuted(a: Seq<Axis>, b: Seq<Axis>)
    requires
        a.to_multiset() == b.to_multiset(),
    ensures
        bulk(a) == bulk(b),
    decreases a.len(),
{
    lemma_permuted_len(a, b);
    if a.len() > 0 {
        let k = lemma_permuted_last(a, b);
        lemma_bulk_permuted(a.drop_last(), b.remove(k));
        lemma_bulk_remove(b, k);
    }
}

} // verus!
