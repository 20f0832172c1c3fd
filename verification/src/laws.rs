use vstd::prelude::*;
use vstd::seq_lib::group_to_multiset_ensures;
use crate::axis::{contiguous, magnitude, Axis};
use crate::layout::LayoutView;
use crate::order::{arranged, ordered, precedes};
use crate::perm::{lemma_permuted_last, lemma_permuted_len};
use crate::planner::{
    absorbs, coalesce, faulty, kept, kept_axes, mismatched, planned, reducing, refusal,
    settled_axes, settled_unit, sound_before,
};
use crate::scheme::{lemma_of_well_formed, volume_from, Scheme};

verus! {

/// Axis `i` and the next one inwards could be walked as one.
pub open spec fn fusible_at(axes: Seq<Axis>, i: int) -> bool {
    contiguous(axes[i], axes[i + 1])
}

/// No axis is contiguous with its inner neighbour.
pub open spec fn irreducible(axes: Seq<Axis>) -> bool {
    forall|i: int| 0 <= i < axes.len() - 1 ==> !#[trigger] fusible_at(axes, i)
}

impl Scheme {
    /// The contiguity relation between axis `i` and the next one inwards,
    /// with the length recovered from the index strides.
    pub open spec fn fusible(self, i: int) -> bool {
        &&& self.dst_strides[i + 1] * self.len_at(i + 1) == self.dst_strides[i]
        &&& self.src_strides[i + 1] * self.len_at(i + 1) == self.src_strides[i]
    }
}

/// Fusing leaves the innermost axis its strides.
pub proof fn lemma_coalesce_keeps_last(axes: Seq<Axis>)
    requires
        axes.len() > 0,
    ensures
        coalesce(axes).len() > 0,
        coalesce(axes).last().dst == axes.last().dst,
        coalesce(axes).last().src == axes.last().src,
    decreases axes.len(),
{
    if axes.len() > 1 {
        let back = axes.last();
        let front = axes[axes.len() - 2];
        if contiguous(front, back) {
            lemma_coalesce_keeps_last(
                axes.drop_last().drop_last().push(crate::axis::fuse(front, back)),
            );
        }
    }
}

/// After fusing, no two neighbours are contiguous: nothing is left to fuse.
pub proof fn lemma_coalesce_irreducible(axes: Seq<Axis>)
    ensures
        irreducible(coalesce(axes)),
    decreases axes.len(),
{
    if axes.len() > 1 {
        let back = axes.last();
        let front = axes[axes.len() - 2];
        if contiguous(front, back) {
            lemma_coalesce_irreducible(
                axes.drop_last().drop_last().push(crate::axis::fuse(front, back)),
            );
        } else {
            let ahead = coalesce(axes.drop_last());
            let all = ahead.push(back);
            lemma_coalesce_irreducible(axes.drop_last());
            lemma_coalesce_keeps_last(axes.drop_last());
            assert forall|i: int| 0 <= i < all.len() - 1 implies !#[trigger] fusible_at(
                all,
                i,
            ) by {
                if i < ahead.len() - 1 {
                    assert(!fusible_at(ahead, i));
                }
            }
        }
    }
}

/// After absorbing, the innermost axis that is left is not dense.
pub proof fn lemma_settled_is_done(unit: nat, axes: Seq<Axis>)
    ensures
        settled_axes(unit, axes).len() > 0 ==> !absorbs(
            settled_unit(unit, axes),
            settled_axes(unit, axes).last(),
        ),
    decreases axes.len(),
{
    if axes.len() > 0 && absorbs(unit, axes.last()) {
        lemma_settled_is_done(unit * axes.last().len, axes.drop_last());
    }
}

/// A planned scheme cannot be reduced further: no axis is contiguous with
/// its inner neighbour, and the innermost axis cannot be absorbed into the
/// unit.
pub proof fn lemma_planned_is_irreducible(unit: nat, order: Seq<Axis>)
    ensures
        irreducible(coalesce(settled_axes(unit, order))),
        coalesce(settled_axes(unit, order)).len() > 0 ==> !absorbs(
            settled_unit(unit, order),
            coalesce(settled_axes(unit, order)).last(),
        ),
{
    let left = settled_axes(unit, order);
    lemma_coalesce_irreducible(left);
    lemma_settled_is_done(unit, order);
    if left.len() > 0 {
        lemma_coalesce_keeps_last(left);
    }
}

/// The product of lengths that are all positive is positive.
pub proof fn lemma_volume_positive(axes: Seq<Axis>, from: int)
    requires
        forall|i: int| 0 <= i < axes.len() ==> (#[trigger] axes[i]).len > 0,
    ensures
        volume_from(axes, from) > 0,
    decreases axes.len() - from,
{
    if 0 <= from < axes.len() {
        lemma_volume_positive(axes, from + 1);
        let l = axes[from].len;
        let v = volume_from(axes, from + 1);
        assert(l * v > 0) by (nonlinear_arith)
            requires
                l > 0,
                v > 0,
        ;
    }
}

/// Where no axis is empty, a scheme made of irreducible axes shows it in
/// its own words: no two neighbouring axes of it are contiguous.
pub proof fn lemma_scheme_is_irreducible(
    unit: nat,
    dst_offset: int,
    src_offset: int,
    axes: Seq<Axis>,
)
    requires
        irreducible(axes),
        forall|i: int| 0 <= i < axes.len() ==> (#[trigger] axes[i]).len > 0,
    ensures
        forall|i: int|
            0 <= i < axes.len() - 1 ==> !#[trigger] Scheme::of(
                unit,
                dst_offset,
                src_offset,
                axes,
            ).fusible(i),
{
    let s = Scheme::of(unit, dst_offset, src_offset, axes);
    lemma_of_well_formed(unit, dst_offset, src_offset, axes);
    assert forall|i: int| 0 <= i < axes.len() - 1 implies !#[trigger] s.fusible(i) by {
        lemma_volume_positive(axes, i + 2);
        assert(s.idx_strides[i + 1] == volume_from(axes, i + 2));
        assert(s.len_at(i + 1) == axes[i + 1].len);
        assert(!fusible_at(axes, i));
    }
}

/// The product of the lengths from position `from` inwards.
pub open spec fn extent_from(shape: Seq<usize>, from: int) -> nat
    decreases shape.len() - from,
{
    if 0 <= from < shape.len() {
        shape[from] as nat * extent_from(shape, from + 1)
    } else {
        1
    }
}

/// The layout of a dense array in row-major order: one step along an axis
/// moves over all the elements of `unit` bytes that the axes inwards of it
/// hold.
pub open spec fn dense(layout: LayoutView, unit: nat) -> bool {
    &&& layout.wf()
    &&& forall|i: int|
        0 <= i < layout.ndim() ==> (#[trigger] layout.strides[i]) as int == unit * extent_from(
            layout.shape,
            i + 1,
        )
}

/// Every axis stands strictly before all that follow it.
pub open spec fn strictly_ordered(s: Seq<Axis>) -> bool {
    forall|i: int, j: int| 0 <= i < j < s.len() ==> !precedes(#[trigger] s[j], #[trigger] s[i])
}

/// Axes that stand strictly in canonical order have one canonical order
/// only.
pub proof fn lemma_strict_order_is_unique(order: Seq<Axis>, of: Seq<Axis>)
    requires
        arranged(order, of),
        strictly_ordered(of),
    ensures
        order == of,
    decreases order.len(),
{
    broadcast use group_to_multiset_ensures;

    lemma_permuted_len(order, of);
    if order.len() == 0 {
        assert(order =~= of);
    } else {
        let n = order.len() as int;
        let k = lemma_permuted_last(order, of);
        if k < n - 1 {
            let x = of.last();
            assert(of.remove(k)[n - 2] == x);
            assert(of.remove(k).contains(x));
            assert(order.drop_last().to_multiset().count(x) > 0);
            assert(order.drop_last().contains(x));
            let p = choose|p: int| 0 <= p < n - 1 && order.drop_last()[p] == x;
            assert(order[p] == x);
            assert(precedes(order[p], order[n - 1]));
            assert(!precedes(of[n - 1], of[k]));
            assert(false);
        }
        assert(of.remove(k) =~= of.drop_last());
        let a = order.drop_last();
        let b = of.drop_last();
        assert(ordered(a)) by {
            assert forall|i: int, j: int| 0 <= i < j < a.len() implies precedes(
                #[trigger] a[i],
                #[trigger] a[j],
            ) by {
                assert(precedes(order[i], order[j]));
            }
        }
        assert(strictly_ordered(b)) by {
            assert forall|i: int, j: int| 0 <= i < j < b.len() implies !precedes(
                #[trigger] b[j],
                #[trigger] b[i],
            ) by {
                assert(!precedes(of[j], of[i]));
            }
        }
        lemma_strict_order_is_unique(a, b);
        assert(order =~= a.push(order.last()));
        assert(of =~= b.push(of.last()));
    }
}

/// Planning ends in no error exactly where the layouts have as many axes
/// as each other and none of them is faulty.
pub proof fn lemma_refusal_none(dst: LayoutView, src: LayoutView)
    ensures
        refusal(dst, src) is None <==> dst.ndim() == src.ndim() && sound_before(
            dst,
            src,
            dst.ndim() as int,
        ),
{
    if dst.ndim() == src.ndim() {
        if refusal(dst, src) is None {
            lemma_sound_upto(dst, src, dst.ndim());
        } else {
            if sound_before(dst, src, dst.ndim() as int) {
                if exists|i: int|
                    0 <= i < dst.ndim() && sound_before(dst, src, i) && #[trigger] mismatched(
                        dst,
                        src,
                        i,
                    ) {
                    let i = choose|i: int|
                        0 <= i < dst.ndim() && sound_before(dst, src, i) && #[trigger] mismatched(
                            dst,
                            src,
                            i,
                        );
                    assert(!faulty(dst, src, i));
                } else {
                    let i = choose|i: int|
                        0 <= i < dst.ndim() && sound_before(dst, src, i) && #[trigger] reducing(
                            dst,
                            src,
                            i,
                        );
                    assert(!faulty(dst, src, i));
                }
            }
        }
    }
}

/// Where no first faulty axis exists, no axis is faulty.
proof fn lemma_sound_upto(dst: LayoutView, src: LayoutView, n: nat)
    requires
        n <= dst.ndim(),
        dst.ndim() == src.ndim(),
        refusal(dst, src) is None,
    ensures
        sound_before(dst, src, n as int),
    decreases n,
{
    if n > 0 {
        lemma_sound_upto(dst, src, (n - 1) as nat);
        let i = n - 1;
        if mismatched(dst, src, i) {
            assert(0 <= i < dst.ndim() && sound_before(dst, src, i) && mismatched(dst, src, i));
        }
        if reducing(dst, src, i) {
            assert(0 <= i < dst.ndim() && sound_before(dst, src, i) && reducing(dst, src, i));
        }
        assert(!faulty(dst, src, i));
    }
}

/// The kept axes of dense layouts stand strictly in canonical order, and
/// from the innermost outwards each is absorbed into the unit.
proof fn lemma_dense_prefix(dst: LayoutView, src: LayoutView, unit: nat, n: nat)
    requires
        dense(dst, unit),
        dense(src, unit),
        dst.shape == src.shape,
        n <= dst.ndim(),
        sound_before(dst, src, dst.ndim() as int),
    ensures
        settled_unit(unit * extent_from(dst.shape, n as int), kept(dst, src, n)) == unit
            * extent_from(dst.shape, 0),
        settled_axes(unit * extent_from(dst.shape, n as int), kept(dst, src, n))
            == Seq::<Axis>::empty(),
        kept(dst, src, n).len() > 0 ==> unit * extent_from(dst.shape, n as int) > 0,
        forall|i: int|
            0 <= i < kept(dst, src, n).len() ==> (#[trigger] kept(dst, src, n)[i]).dst >= unit
                * extent_from(dst.shape, n as int),
        forall|i: int, j: int|
            0 <= i < j < kept(dst, src, n).len() ==> (#[trigger] kept(dst, src, n)[i]).dst > (
            #[trigger] kept(dst, src, n)[j]).dst > 0,
    decreases n,
{
    let here = unit * extent_from(dst.shape, n as int);
    if n > 0 {
        let i = n - 1;
        let before = kept(dst, src, (n - 1) as nat);
        let outer = unit * extent_from(dst.shape, i);
        let len = dst.shape[i] as nat;
        lemma_dense_prefix(dst, src, unit, (n - 1) as nat);
        assert(extent_from(dst.shape, i) == len * extent_from(dst.shape, i + 1));
        assert(outer == here * len) by (nonlinear_arith)
            requires
                outer == unit * (len * extent_from(dst.shape, i + 1)),
                here == unit * extent_from(dst.shape, i + 1),
        ;
        if dst.shape[i] == 1 {
            assert(outer == here);
        } else {
            let a = crate::planner::axis_of(dst, src, i);
            let all = before.push(a);
            assert(kept(dst, src, n) == all);
            assert(!faulty(dst, src, i));
            assert(dst.strides[i] as int == here);
            assert(src.strides[i] as int == here);
            assert(a.dst == here && a.src == here && a.len == len);
            assert(here > 0);
            assert(all.last() == a);
            assert(all.drop_last() =~= before);
            assert(absorbs(here, all.last()));
            if before.len() > 0 {
                assert(outer > here) by (nonlinear_arith)
                    requires
                        outer == here * len,
                        outer > 0,
                        here > 0,
                        len != 1,
                ;
            }
            assert forall|p: int, q: int| 0 <= p < q < all.len() implies (#[trigger] all[p]).dst > (
            #[trigger] all[q]).dst > 0 by {
                if q < before.len() {
                    assert(before[p].dst > before[q].dst > 0);
                } else {
                    assert(before[p].dst >= outer);
                }
            }
            assert forall|p: int| 0 <= p < all.len() implies (#[trigger] all[p]).dst >= here by {
                if p < before.len() {
                    assert(before[p].dst >= outer);
                }
            }
        }
    } else {
        assert(here == unit * extent_from(dst.shape, 0));
    }
}

/// Dense layouts of one shape become a single copy of all their bytes:
/// the scheme has no axis, and its unit is the size of the whole array.
pub proof fn lemma_dense_is_one_copy(
    dst: LayoutView,
    src: LayoutView,
    unit: nat,
    order: Seq<Axis>,
)
    requires
        dense(dst, unit),
        dense(src, unit),
        dst.shape == src.shape,
        refusal(dst, src) is None,
        arranged(order, kept_axes(dst, src)),
    ensures
        planned(unit, dst.offset as int, src.offset as int, order) == Scheme::of(
            unit * extent_from(dst.shape, 0),
            dst.offset as int,
            src.offset as int,
            Seq::<Axis>::empty(),
        ),
        planned(unit, dst.offset as int, src.offset as int, order).ndim() == 0,
        planned(unit, dst.offset as int, src.offset as int, order).count == 1,
{
    let all = kept_axes(dst, src);
    lemma_refusal_none(dst, src);
    lemma_dense_prefix(dst, src, unit, dst.ndim());
    assert(strictly_ordered(all)) by {
        assert forall|i: int, j: int| 0 <= i < j < all.len() implies !precedes(
            #[trigger] all[j],
            #[trigger] all[i],
        ) by {
            assert(all[i].dst > all[j].dst > 0);
        }
    }
    lemma_strict_order_is_unique(order, all);
    assert(extent_from(dst.shape, dst.ndim() as int) == 1);
    assert(unit * 1 == unit) by (nonlinear_arith);
    assert(coalesce(Seq::<Axis>::empty()) == Seq::<Axis>::empty());
    lemma_of_well_formed(
        unit * extent_from(dst.shape, 0),
        dst.offset as int,
        src.offset as int,
        Seq::<Axis>::empty(),
    );
}

/// Split by its own unit, a scheme stays as it is.
pub proof fn lemma_distribute_own_unit(s: Scheme)
    requires
        0 < s.unit <= usize::MAX,
    ensures
        s.distributed(seq![s.unit as usize]) == Some(s),
{
    let u = s.unit;
    assert(u % u == 0) by (nonlinear_arith)
        requires
            u > 0,
    ;
    assert(seq![s.unit as usize][0] == s.unit as usize);
}

} // verus!

verus! {

/// Two axes move by the same strides.
pub open spec fn same_strides(a: Axis, b: Axis) -> bool {
    a.dst == b.dst && a.src == b.src
}

/// Some axis among `axes` moves by the strides of `x`.
pub open spec fn strides_among(x: Axis, axes: Seq<Axis>) -> bool {
    exists|j: int| 0 <= j < axes.len() && same_strides(x, #[trigger] axes[j])
}

/// The order of the strides alone: `a` moves further than `b` in the
/// destination, or as far there and no less far in the source.
pub open spec fn dominates(a: Axis, b: Axis) -> bool {
    ||| magnitude(a.dst) > magnitude(b.dst)
    ||| magnitude(a.dst) == magnitude(b.dst) && magnitude(a.src) >= magnitude(b.src)
}

/// Every axis dominates all that follow it.
pub open spec fn descending(s: Seq<Axis>) -> bool {
    forall|i: int, j: int| 0 <= i < j < s.len() ==> dominates(#[trigger] s[i], #[trigger] s[j])
}

/// Fusing invents no strides: every axis that is left moves by the strides
/// of an axis that was there.
pub proof fn lemma_coalesce_strides(axes: Seq<Axis>)
    ensures
        forall|i: int|
            0 <= i < coalesce(axes).len() ==> strides_among(#[trigger] coalesce(axes)[i], axes),
    decreases axes.len(),
{
    let out = coalesce(axes);
    if axes.len() <= 1 {
        assert forall|i: int| 0 <= i < out.len() implies strides_among(#[trigger] out[i], axes) by {
            assert(same_strides(out[i], axes[i]));
        }
    } else {
        let n = axes.len() as int;
        let back = axes.last();
        let front = axes[n - 2];
        if contiguous(front, back) {
            let next = axes.drop_last().drop_last().push(crate::axis::fuse(front, back));
            lemma_coalesce_strides(next);
            assert forall|i: int| 0 <= i < out.len() implies strides_among(
                #[trigger] out[i],
                axes,
            ) by {
                assert(strides_among(coalesce(next)[i], next));
                let j = choose|j: int|
                    0 <= j < next.len() && same_strides(out[i], #[trigger] next[j]);
                if j < n - 2 {
                    assert(same_strides(out[i], axes[j]));
                } else {
                    assert(same_strides(out[i], axes[n - 1]));
                }
            }
        } else {
            let ahead = coalesce(axes.drop_last());
            lemma_coalesce_strides(axes.drop_last());
            assert forall|i: int| 0 <= i < out.len() implies strides_among(
                #[trigger] out[i],
                axes,
            ) by {
                if i < ahead.len() {
                    assert(strides_among(ahead[i], axes.drop_last()));
                    let j = choose|j: int|
                        0 <= j < n - 1 && same_strides(out[i], #[trigger] axes.drop_last()[j]);
                    assert(same_strides(out[i], axes[j]));
                } else {
                    assert(same_strides(out[i], axes[n - 1]));
                }
            }
        }
    }
}

/// Fusing keeps the order of the strides.
pub proof fn lemma_coalesce_descending(axes: Seq<Axis>)
    requires
        descending(axes),
    ensures
        descending(coalesce(axes)),
    decreases axes.len(),
{
    let out = coalesce(axes);
    if axes.len() > 1 {
        let n = axes.len() as int;
        let back = axes.last();
        let front = axes[n - 2];
        if contiguous(front, back) {
            let next = axes.drop_last().drop_last().push(crate::axis::fuse(front, back));
            assert forall|i: int, j: int| 0 <= i < j < next.len() implies dominates(
                #[trigger] next[i],
                #[trigger] next[j],
            ) by {
                if j < n - 2 {
                    assert(dominates(axes[i], axes[j]));
                } else {
                    assert(dominates(axes[i], axes[n - 1]));
                }
            }
            lemma_coalesce_descending(next);
        } else {
            let rest = axes.drop_last();
            let ahead = coalesce(rest);
            assert forall|i: int, j: int| 0 <= i < j < rest.len() implies dominates(
                #[trigger] rest[i],
                #[trigger] rest[j],
            ) by {
                assert(dominates(axes[i], axes[j]));
            }
            lemma_coalesce_descending(rest);
            lemma_coalesce_strides(rest);
            assert forall|i: int, j: int| 0 <= i < j < out.len() implies dominates(
                #[trigger] out[i],
                #[trigger] out[j],
            ) by {
                if j < ahead.len() {
                    assert(dominates(ahead[i], ahead[j]));
                } else {
                    assert(strides_among(ahead[i], rest));
                    let k = choose|k: int|
                        0 <= k < rest.len() && same_strides(ahead[i], #[trigger] rest[k]);
                    assert(dominates(axes[k], axes[n - 1]));
                }
            }
        }
    }
}

/// The axes that are left after absorbing are the outer ones, unchanged.
pub proof fn lemma_settled_is_prefix(unit: nat, axes: Seq<Axis>)
    ensures
        settled_axes(unit, axes).len() <= axes.len(),
        settled_axes(unit, axes) == axes.subrange(0, settled_axes(unit, axes).len() as int),
    decreases axes.len(),
{
    if axes.len() > 0 && absorbs(unit, axes.last()) {
        lemma_settled_is_prefix(unit * axes.last().len, axes.drop_last());
        let k = settled_axes(unit, axes).len() as int;
        assert(axes.drop_last().subrange(0, k) =~= axes.subrange(0, k));
    } else {
        assert(axes.subrange(0, axes.len() as int) =~= axes);
    }
}

/// The axes of a planned scheme move by strides of the axes it was planned
/// from, and stand in the order of their strides: by the absolute value of
/// the destination stride, the largest first, and among equal ones by that
/// of the source stride.
pub proof fn lemma_planned_keeps_order(unit: nat, order: Seq<Axis>)
    requires
        ordered(order),
    ensures
        descending(coalesce(settled_axes(unit, order))),
        forall|i: int|
            0 <= i < coalesce(settled_axes(unit, order)).len() ==> strides_among(
                #[trigger] coalesce(settled_axes(unit, order))[i],
                order,
            ),
{
    let left = settled_axes(unit, order);
    let out = coalesce(left);
    lemma_settled_is_prefix(unit, order);
    assert forall|i: int, j: int| 0 <= i < j < left.len() implies dominates(
        #[trigger] left[i],
        #[trigger] left[j],
    ) by {
        assert(precedes(order[i], order[j]));
    }
    lemma_coalesce_descending(left);
    lemma_coalesce_strides(left);
    assert forall|i: int| 0 <= i < out.len() implies strides_among(#[trigger] out[i], order) by {
        assert(strides_among(out[i], left));
        let j = choose|j: int| 0 <= j < left.len() && same_strides(out[i], #[trigger] left[j]);
        assert(same_strides(out[i], order[j]));
    }
}

/// Every axis has a step to take.
pub open spec fn all_positive(axes: Seq<Axis>) -> bool {
    forall|i: int| 0 <= i < axes.len() ==> (#[trigger] axes[i]).len > 0
}

/// Fusing axes that all have a step to take leaves axes that do.
pub proof fn lemma_coalesce_positive(axes: Seq<Axis>)
    requires
        all_positive(axes),
    ensures
        all_positive(coalesce(axes)),
    decreases axes.len(),
{
    if axes.len() > 1 {
        let n = axes.len() as int;
        let back = axes.last();
        let front = axes[n - 2];
        if contiguous(front, back) {
            let both = crate::axis::fuse(front, back);
            let next = axes.drop_last().drop_last().push(both);
            assert(both.len > 0) by (nonlinear_arith)
                requires
                    both.len == front.len * back.len,
                    front.len > 0,
                    back.len > 0,
            ;
            assert forall|i: int| 0 <= i < next.len() implies (#[trigger] next[i]).len > 0 by {
                if i < n - 2 {
                    assert(axes[i].len > 0);
                }
            }
            lemma_coalesce_positive(next);
        } else {
            let rest = axes.drop_last();
            assert forall|i: int| 0 <= i < rest.len() implies (#[trigger] rest[i]).len > 0 by {
                assert(axes[i].len > 0);
            }
            lemma_coalesce_positive(rest);
            let out = coalesce(axes);
            assert forall|i: int| 0 <= i < out.len() implies (#[trigger] out[i]).len > 0 by {
                if i < coalesce(rest).len() {
                    assert(coalesce(rest)[i].len > 0);
                }
            }
        }
    }
}

/// Absorbing axes that all have a step to take keeps a positive unit
/// positive.
pub proof fn lemma_settled_unit_positive(unit: nat, axes: Seq<Axis>)
    requires
        unit > 0,
        all_positive(axes),
    ensures
        settled_unit(unit, axes) > 0,
    decreases axes.len(),
{
    if axes.len() > 0 && absorbs(unit, axes.last()) {
        let l = axes.last().len;
        let rest = axes.drop_last();
        assert(unit * l > 0) by (nonlinear_arith)
            requires
                unit > 0,
                l > 0,
        ;
        assert forall|i: int| 0 <= i < rest.len() implies (#[trigger] rest[i]).len > 0 by {
            assert(axes[i].len > 0);
        }
        lemma_settled_unit_positive(unit * l, rest);
    }
}

/// Planned for a positive unit from axes that all have a step to take, a
/// scheme copies a positive number of bytes a positive number of times, and
/// the lengths of its axes can be recovered from its index strides.
pub proof fn lemma_planned_is_positive(unit: nat, dst_offset: int, src_offset: int, order: Seq<Axis>)
    requires
        unit > 0,
        all_positive(order),
    ensures
        planned(unit, dst_offset, src_offset, order).unit > 0,
        planned(unit, dst_offset, src_offset, order).count > 0,
        forall|i: int|
            0 <= i < planned(unit, dst_offset, src_offset, order).ndim() ==> #[trigger] planned(
                unit,
                dst_offset,
                src_offset,
                order,
            ).idx_strides[i] > 0,
{
    let left = settled_axes(unit, order);
    let out = coalesce(left);
    let plan = planned(unit, dst_offset, src_offset, order);
    lemma_settled_unit_positive(unit, order);
    lemma_settled_is_prefix(unit, order);
    assert forall|i: int| 0 <= i < left.len() implies (#[trigger] left[i]).len > 0 by {
        assert(order[i].len > 0);
    }
    lemma_coalesce_positive(left);
    lemma_volume_positive(out, 0);
    assert forall|i: int| 0 <= i < plan.ndim() implies #[trigger] plan.idx_strides[i] > 0 by {
        lemma_volume_positive(out, i + 1);
    }
}

/// Absorbing into an empty unit leaves it empty.
pub proof fn lemma_settled_unit_of_nothing(axes: Seq<Axis>)
    ensures
        settled_unit(0, axes) == 0,
    decreases axes.len(),
{
    if axes.len() > 0 && absorbs(0, axes.last()) {
        assert(0 * axes.last().len == 0);
        lemma_settled_unit_of_nothing(axes.drop_last());
    }
}

/// The unit of a planned scheme is a multiple of the unit it was planned
/// for.
pub proof fn lemma_settled_unit_is_multiple(unit: nat, axes: Seq<Axis>)
    requires
        unit > 0,
    ensures
        settled_unit(unit, axes) % unit == 0,
    decreases axes.len(),
{
    if axes.len() > 0 && absorbs(unit, axes.last()) {
        let len = axes.last().len;
        let grown = unit * len;
        let end = settled_unit(grown, axes.drop_last());
        if len == 0 {
            assert(grown == 0) by (nonlinear_arith)
                requires
                    grown == unit * len,
                    len == 0,
            ;
            lemma_settled_unit_of_nothing(axes.drop_last());
            assert(end == 0);
            assert(0int % (unit as int) == 0) by (nonlinear_arith)
                requires
                    unit > 0,
            ;
        } else {
            assert(grown > 0) by (nonlinear_arith)
                requires
                    grown == unit * len,
                    unit > 0,
                    len > 0,
            ;
            lemma_settled_unit_is_multiple(grown, axes.drop_last());
            vstd::arithmetic::div_mod::lemma_mod_breakdown(end as int, unit as int, len as int);
            let high = unit * ((end as int / unit as int) % (len as int));
            let low = end as int % unit as int;
            assert(high >= 0 && low >= 0) by (nonlinear_arith)
                requires
                    unit > 0,
                    len > 0,
                    end >= 0,
                    high == unit * ((end as int / unit as int) % (len as int)),
                    low == end as int % unit as int,
            ;
            assert(end as int % (unit as int * len as int) == 0);
            assert(high + low == 0);
            assert(low == 0);
        }
    } else {
        assert(unit % unit == 0) by (nonlinear_arith)
            requires
                unit > 0,
        ;
    }
}

/// Split by the unit it was planned for, a planned scheme has that unit
/// again and copies what it copied before.
pub proof fn lemma_distribute_planning_unit(
    unit: usize,
    dst_offset: int,
    src_offset: int,
    order: Seq<Axis>,
    to: int,
    from: int,
)
    requires
        unit > 0,
    ensures
        ({
            let plan = planned(unit as nat, dst_offset, src_offset, order);
            &&& plan.distributed(seq![unit]) == Some(plan.divided(unit as int))
            &&& plan.divided(unit as int).unit == unit
            &&& plan.divided(unit as int).copies(to, from) <==> plan.copies(to, from)
        }),
{
    let plan = planned(unit as nat, dst_offset, src_offset, order);
    lemma_settled_unit_is_multiple(unit as nat, order);
    lemma_of_well_formed(
        settled_unit(unit as nat, order),
        dst_offset,
        src_offset,
        coalesce(settled_axes(unit as nat, order)),
    );
    assert(seq![unit][0] == unit);
    crate::redistribute::lemma_divided_copies_the_same(plan, unit as int, to, from);
}

} // verus!
