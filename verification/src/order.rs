use std::cmp::Ordering;
use vstd::prelude::*;
use crate::axis::{abs_of, axes, magnitude, Axis, Dim};

verus! {

/// The canonical order of axes: `a` may stand before `b` when its
/// destination stride is larger in absolute value; on equal ones, when its
/// source stride is larger in absolute value; on equal ones again, when it
/// is no longer than `b`.
pub open spec fn precedes(a: Axis, b: Axis) -> bool {
    ||| magnitude(a.dst) > magnitude(b.dst)
    ||| magnitude(a.dst) == magnitude(b.dst) && magnitude(a.src) > magnitude(b.src)
    ||| magnitude(a.dst) == magnitude(b.dst) && magnitude(a.src) == magnitude(b.src) && a.len
        <= b.len
}

/// Every axis may stand before all that follow it.
pub open spec fn ordered(s: Seq<Axis>) -> bool {
    forall|i: int, j: int| 0 <= i < j < s.len() ==> precedes(#[trigger] s[i], #[trigger] s[j])
}

/// `order` holds the axes of `of`, each as often as `of` does, in canonical
/// order.
pub open spec fn arranged(order: Seq<Axis>, of: Seq<Axis>) -> bool {
    order.to_multiset() == of.to_multiset() && ordered(order)
}

/// The canonical order compares any two axes, and does so transitively.
pub proof fn lemma_precedes_is_total_preorder(a: Axis, b: Axis, c: Axis)
    ensures
        precedes(a, b) || precedes(b, a),
        precedes(a, b) && precedes(b, c) ==> precedes(a, c),
{
}

/// Where `a` stands relative to `b` in the canonical order.
pub(crate) fn rank(a: &Dim, b: &Dim) -> (o: Ordering)
    ensures
        o == Ordering::Less <==> !precedes(b@, a@),
        o == Ordering::Greater <==> !precedes(a@, b@),
        o == Ordering::Equal <==> precedes(a@, b@) && precedes(b@, a@),
{
    let a_dst: usize = abs_of(a.dst);
    let b_dst: usize = abs_of(b.dst);
    let a_src: usize = abs_of(a.src);
    let b_src: usize = abs_of(b.src);
    if a_dst > b_dst {
        Ordering::Less
    } else if a_dst < b_dst {
        Ordering::Greater
    } else if a_src > b_src {
        Ordering::Less
    } else if a_src < b_src {
        Ordering::Greater
    } else if a.len < b.len {
        Ordering::Less
    } else if a.len > b.len {
        Ordering::Greater
    } else {
        Ordering::Equal
    }
}

/// `<[T]>::sort_unstable_by` of std, handed [`rank`]. Taken on trust from its
/// documentation: the slice holds the same dims afterwards, each as often as
/// before, and in ascending order of the comparison, which [`rank`] makes the
/// canonical order. Dims that compare equal may come out in either order.
#[verifier::external_body]
pub(crate) fn sort_dims(dims: &mut Vec<Dim>)
    ensures
        final(dims)@.to_multiset() == old(dims)@.to_multiset(),
        ordered(axes(final(dims)@)),
{
    dims.sort_unstable_by(rank);
}

} // verus!
