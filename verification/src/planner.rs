use vstd::prelude::*;
use crate::axis::{
    axes, bulk, contiguous, fuse, girth, lemma_axes_push, lemma_bulk_positive, lemma_bulk_push,
    lemma_bulk_remove, Axis, Dim,
};
use crate::elements::{lemma_plan_rearranges, rearranges};
use crate::error::SchemeError;
use crate::layout::{Layout, LayoutView};
use crate::order::{arranged, sort_dims};
use crate::perm::{lemma_axes_permuted, lemma_bulk_permuted};
use crate::laws::{
    dense, extent_from, lemma_dense_is_one_copy, lemma_planned_is_irreducible, lemma_refusal_none,
    lemma_scheme_is_irreducible,
};
use crate::radix::lemma_lengths_positive;
use crate::scheme::{
    lemma_chain, lemma_of_bounded, lemma_of_well_formed, volume, Rearranging, Scheme,
};
use crate::seqs::reversed;

verus! {

/// Axis `i` of the two layouts taken together.
pub open spec fn axis_of(dst: LayoutView, src: LayoutView, i: int) -> Axis {
    Axis { len: dst.shape[i] as nat, dst: dst.strides[i] as int, src: src.strides[i] as int }
}

/// The layouts disagree on the length of axis `i`.
pub open spec fn mismatched(dst: LayoutView, src: LayoutView, i: int) -> bool {
    dst.shape[i] != src.shape[i]
}

/// Axis `i` is kept and does not move in the destination.
pub open spec fn reducing(dst: LayoutView, src: LayoutView, i: int) -> bool {
    dst.shape[i] == src.shape[i] && dst.shape[i] != 1 && dst.strides[i] == 0
}

/// Axis `i` cannot be planned.
pub open spec fn faulty(dst: LayoutView, src: LayoutView, i: int) -> bool {
    mismatched(dst, src, i) || reducing(dst, src, i)
}

/// None of the first `n` axes is faulty.
pub open spec fn sound_before(dst: LayoutView, src: LayoutView, n: int) -> bool {
    forall|j: int| 0 <= j < n ==> !#[trigger] faulty(dst, src, j)
}

/// The error that planning ends in, if it ends in one: a different number of
/// axes is a mismatch, and otherwise the first faulty axis decides.
pub open spec fn refusal(dst: LayoutView, src: LayoutView) -> Option<SchemeError> {
    if dst.ndim() != src.ndim() {
        Some(SchemeError::ShapeMismatch)
    } else if exists|i: int|
        0 <= i < dst.ndim() && sound_before(dst, src, i) && #[trigger] mismatched(dst, src, i) {
        Some(SchemeError::ShapeMismatch)
    } else if exists|i: int|
        0 <= i < dst.ndim() && sound_before(dst, src, i) && #[trigger] reducing(dst, src, i) {
        Some(SchemeError::DimReduce)
    } else {
        None
    }
}

/// Those of the first `n` axes whose length is not one, in their order.
pub open spec fn kept(dst: LayoutView, src: LayoutView, n: nat) -> Seq<Axis>
    decreases n,
{
    if n == 0 {
        Seq::empty()
    } else {
        let before = kept(dst, src, (n - 1) as nat);
        if dst.shape[n - 1] == 1 {
            before
        } else {
            before.push(axis_of(dst, src, n - 1))
        }
    }
}

/// The axes whose length is not one, in their order.
pub open spec fn kept_axes(dst: LayoutView, src: LayoutView) -> Seq<Axis> {
    kept(dst, src, dst.ndim())
}

/// The product of the first `n` lengths, an empty axis counted as one step.
pub open spec fn span(shape: Seq<usize>, n: nat) -> nat
    decreases n,
{
    if n == 0 {
        1
    } else {
        span(shape, (n - 1) as nat) * girth(shape[n - 1] as nat)
    }
}

/// The bytes of a dense array of this shape can be counted in a machine
/// word, an empty axis and an empty unit each counted as one.
pub open spec fn roomy(shape: Seq<usize>, unit: usize) -> bool {
    girth(unit as nat) * span(shape, shape.len()) <= isize::MAX
}

/// Walking `axis` is the same as copying one longer unit.
pub open spec fn absorbs(unit: nat, axis: Axis) -> bool {
    axis.dst == unit && axis.src == unit
}

/// The unit after the innermost axes were absorbed into it, one by one from
/// the last, for as long as the last one is dense in both buffers.
pub open spec fn settled_unit(unit: nat, axes: Seq<Axis>) -> nat
    decreases axes.len(),
{
    if axes.len() > 0 && absorbs(unit, axes.last()) {
        settled_unit(unit * axes.last().len, axes.drop_last())
    } else {
        unit
    }
}

/// The axes that are left when the innermost ones were absorbed into the
/// unit.
pub open spec fn settled_axes(unit: nat, axes: Seq<Axis>) -> Seq<Axis>
    decreases axes.len(),
{
    if axes.len() > 0 && absorbs(unit, axes.last()) {
        settled_axes(unit * axes.last().len, axes.drop_last())
    } else {
        axes
    }
}

/// The axes with every contiguous neighbour fused, from the innermost
/// outwards: a fused pair stands as one axis for the next comparison.
pub open spec fn coalesce(axes: Seq<Axis>) -> Seq<Axis>
    decreases axes.len(),
{
    if axes.len() <= 1 {
        axes
    } else {
        let back = axes.last();
        let front = axes[axes.len() - 2];
        if contiguous(front, back) {
            coalesce(axes.drop_last().drop_last().push(fuse(front, back)))
        } else {
            coalesce(axes.drop_last()).push(back)
        }
    }
}

/// The scheme for axes that stand in canonical order.
pub open spec fn planned(unit: nat, dst_offset: int, src_offset: int, order: Seq<Axis>) -> Scheme {
    Scheme::of(
        settled_unit(unit, order),
        dst_offset,
        src_offset,
        coalesce(settled_axes(unit, order)),
    )
}

/// A longer front part of a shape spans no less.
pub proof fn lemma_span_grows(shape: Seq<usize>, n: nat, m: nat)
    requires
        n <= m,
    ensures
        1 <= span(shape, n) <= span(shape, m),
    decreases m,
{
    if m == 0 {
    } else if n == m {
        lemma_span_grows(shape, (m - 1) as nat, (m - 1) as nat);
        let s = span(shape, (m - 1) as nat);
        let g = girth(shape[m - 1] as nat);
        assert(1 <= s * g) by (nonlinear_arith)
            requires
                s >= 1,
                g >= 1,
        ;
    } else {
        lemma_span_grows(shape, n, (m - 1) as nat);
        let s = span(shape, (m - 1) as nat);
        let g = girth(shape[m - 1] as nat);
        assert(s <= s * g) by (nonlinear_arith)
            requires
                s >= 1,
                g >= 1,
        ;
    }
}

impl Layout {
    /// Whether a rearrangement of this shape in copies of `unit` bytes can
    /// be planned: whether the bytes of a dense array of this shape can be
    /// counted in a machine word.
    pub fn fits(&self, unit: usize) -> (ok: bool)
        ensures
            ok == roomy(self@.shape, unit),
    {
        let n: usize = self.ndim();
        let shape = self.shape();
        let most: usize = isize::MAX as usize;
        let mut bytes: usize = if unit == 0 {
            1
        } else {
            unit
        };
        proof {
            lemma_span_grows(shape@, 0, n as nat);
        }
        if bytes > most {
            proof {
                let g = girth(unit as nat);
                let s = span(shape@, n as nat);
                assert(g <= g * s) by (nonlinear_arith)
                    requires
                        g >= 1,
                        s >= 1,
                ;
            }
            return false;
        }
        let mut i: usize = 0;
        while i < n
            invariant
                i <= n,
                n == self@.ndim(),
                shape@ == self@.shape,
                most == isize::MAX,
                bytes == girth(unit as nat) * span(shape@, i as nat),
                bytes <= most,
            decreases n - i,
        {
            let len: usize = shape[i];
            let steps: usize = if len == 0 {
                1
            } else {
                len
            };
            proof {
                lemma_span_grows(shape@, (i + 1) as nat, n as nat);
                let g = girth(unit as nat);
                let here = span(shape@, i as nat);
                let next = span(shape@, (i + 1) as nat);
                let all = span(shape@, n as nat);
                assert(next == here * steps);
                assert(g * next == (g * here) * steps && g * next <= g * all) by (nonlinear_arith)
                    requires
                        next == here * steps,
                        next <= all,
                        g >= 1,
                ;
            }
            match bytes.checked_mul(steps) {
                Some(more) => {
                    if more > most {
                        return false;
                    }
                    bytes = more;
                },
                None => {
                    return false;
                },
            }
            i = i + 1;
        }
        true
    }
}

/// The kept axes of two layouts, or the error of the first faulty axis.
fn collect(dst: &Layout, src: &Layout) -> (r: Result<Vec<Dim>, SchemeError>)
    ensures
        match r {
            Ok(dims) => {
                &&& refusal(dst@, src@) is None
                &&& axes(dims@) == kept_axes(dst@, src@)
                &&& bulk(axes(dims@)) == span(dst@.shape, dst@.shape.len())
            },
            Err(e) => refusal(dst@, src@) == Some(e),
        },
{
    let n: usize = dst.ndim();
    if src.ndim() != n {
        return Err(SchemeError::ShapeMismatch);
    }
    let dst_shape = dst.shape();
    let src_shape = src.shape();
    let dst_strides = dst.strides();
    let src_strides = src.strides();
    let mut dims: Vec<Dim> = Vec::with_capacity(n);
    let mut i: usize = 0;
    while i < n
        invariant
            i <= n,
            n == dst@.ndim(),
            n == src@.ndim(),
            dst@.wf(),
            src@.wf(),
            dst_shape@ == dst@.shape,
            src_shape@ == src@.shape,
            dst_strides@ == dst@.strides,
            src_strides@ == src@.strides,
            sound_before(dst@, src@, i as int),
            axes(dims@) == kept(dst@, src@, i as nat),
            bulk(axes(dims@)) == span(dst@.shape, i as nat),
        decreases n - i,
    {
        let len: usize = dst_shape[i];
        let dst_stride: isize = dst_strides[i];
        let src_stride: isize = src_strides[i];
        if len != src_shape[i] {
            assert(mismatched(dst@, src@, i as int));
            return Err(SchemeError::ShapeMismatch);
        }
        if len != 1 {
            if dst_stride == 0 {
                proof {
                    assert(reducing(dst@, src@, i as int));
                    assert(faulty(dst@, src@, i as int));
                    assert forall|k: int|
                        0 <= k < dst@.ndim() && sound_before(dst@, src@, k) implies !mismatched(
                        dst@,
                        src@,
                        k,
                    ) by {
                        if k < i {
                            assert(!faulty(dst@, src@, k));
                        }
                    }
                }
                return Err(SchemeError::DimReduce);
            }
            let d = Dim { len, dst: dst_stride, src: src_stride };
            proof {
                lemma_axes_push(dims@, d);
                lemma_bulk_push(axes(dims@), d@);
                assert(d@ == axis_of(dst@, src@, i as int));
            }
            dims.push(d);
        }
        proof {
            assert(!faulty(dst@, src@, i as int));
            assert(girth(1) == 1);
        }
        i = i + 1;
    }
    proof {
        assert forall|k: int| 0 <= k < dst@.ndim() implies !mismatched(dst@, src@, k)
            && !reducing(dst@, src@, k) by {
            assert(!faulty(dst@, src@, k));
        }
    }
    Ok(dims)
}

/// Whether `back`, walked through, moves one step of `front`.
fn touching(front: &Dim, back: &Dim) -> (b: bool)
    requires
        back.len <= isize::MAX,
    ensures
        b == contiguous(front@, back@),
{
    let len: isize = back.len as isize;
    match back.dst.checked_mul(len) {
        Some(reach) => {
            if reach == front.dst {
                match back.src.checked_mul(len) {
                    Some(reach) => reach == front.src,
                    None => false,
                }
            } else {
                false
            }
        },
        None => false,
    }
}

/// The first `n` dims with every contiguous neighbour fused.
fn coalesced(dims: &Vec<Dim>, n: usize) -> (out: Vec<Dim>)
    requires
        n <= dims@.len(),
        bulk(axes(dims@).subrange(0, n as int)) <= isize::MAX,
    ensures
        axes(out@) == coalesce(axes(dims@).subrange(0, n as int)),
        bulk(axes(out@)) <= bulk(axes(dims@).subrange(0, n as int)),
{
    let ghost a = axes(dims@).subrange(0, n as int);
    let mut back: Vec<Dim> = Vec::new();
    if n == 0 {
        assert(axes(back@) =~= coalesce(a));
        return back;
    }
    let mut cur: Dim = dims[n - 1];
    let mut i: usize = n - 1;
    proof {
        assert(a.subrange(0, i as int).push(cur@) =~= a);
        assert(axes(back@).reverse() =~= Seq::<Axis>::empty());
        assert(coalesce(a) + Seq::<Axis>::empty() =~= coalesce(a));
        assert(a.subrange(0, i as int) =~= a.drop_last());
        assert(bulk(Seq::<Axis>::empty()) == 1);
        let gc = girth(cur@.len);
        let bd = bulk(a.drop_last());
        assert(gc * bd * 1 == bd * gc) by (nonlinear_arith);
    }
    while i > 0
        invariant
            i < n,
            n <= dims@.len(),
            a == axes(dims@).subrange(0, n as int),
            coalesce(a) == coalesce(a.subrange(0, i as int).push(cur@)) + axes(back@).reverse(),
            girth(cur@.len) * bulk(a.subrange(0, i as int)) * bulk(axes(back@).reverse()) <= bulk(
                a,
            ),
            bulk(a) <= isize::MAX,
        decreases i,
    {
        let front: Dim = dims[i - 1];
        let ghost before = a.subrange(0, i as int);
        let ghost ahead = a.subrange(0, i - 1);
        let ghost behind = axes(back@).reverse();
        let ghost gc = girth(cur@.len);
        let ghost gf = girth(front@.len);
        let ghost ba = bulk(ahead);
        let ghost bb = bulk(behind);
        proof {
            assert(before =~= ahead.push(front@));
            lemma_bulk_push(ahead, front@);
            lemma_bulk_positive(ahead);
            lemma_bulk_positive(behind);
            assert(bulk(before) == ba * gf);
            assert(gc * gf <= gc * (ba * gf) * bb && gc <= gc * (ba * gf) * bb && gf * ba * (bb * gc)
                == gc * (ba * gf) * bb) by (nonlinear_arith)
                requires
                    gc >= 1,
                    gf >= 1,
                    ba >= 1,
                    bb >= 1,
            ;
            let whole = before.push(cur@);
            assert(whole.last() == cur@);
            assert(whole[whole.len() - 2] == front@);
            assert(whole.drop_last() =~= before);
            assert(whole.drop_last().drop_last() =~= ahead);
        }
        if touching(&front, &cur) {
            proof {
                let fl = front@.len;
                let cl = cur@.len;
                assert(fl * cl <= gf * gc && girth(fl * cl) <= gf * gc) by (nonlinear_arith)
                    requires
                        fl <= gf,
                        cl <= gc,
                        gf >= 1,
                        gc >= 1,
                        girth(fl * cl) == if fl * cl == 0 {
                            1
                        } else {
                            fl * cl
                        },
                ;
                let g2 = girth(fl * cl);
                assert(g2 * ba * bb <= gc * (ba * gf) * bb) by (nonlinear_arith)
                    requires
                        g2 <= gf * gc,
                        ba >= 1,
                        bb >= 1,
                        g2 >= 0,
                ;
                assert(gf * gc == gc * gf) by (nonlinear_arith);
            }
            cur = Dim { len: front.len * cur.len, dst: cur.dst, src: cur.src };
        } else {
            proof {
                let grown = axes(back@.push(cur)).reverse();
                assert(grown =~= seq![cur@] + behind);
                assert(grown.remove(0) =~= behind);
                lemma_bulk_remove(grown, 0);
                assert(coalesce(before).push(cur@) + behind =~= coalesce(before) + grown);
            }
            back.push(cur);
            cur = front;
        }
        i = i - 1;
    }
    proof {
        let behind = axes(back@).reverse();
        let grown = axes(back@.push(cur)).reverse();
        assert(a.subrange(0, 0).push(cur@) =~= seq![cur@]);
        assert(grown =~= seq![cur@] + behind);
        assert(grown.remove(0) =~= behind);
        lemma_bulk_remove(grown, 0);
        assert(bulk(a.subrange(0, 0)) == 1);
        let gc = girth(cur@.len);
        let bb = bulk(behind);
        assert(bb * gc == gc * 1 * bb) by (nonlinear_arith);
    }
    back.push(cur);
    let out = reversed(&back);
    assert(axes(out@) =~= axes(back@).reverse());
    out
}

impl Rearranging {
    /// Plans the rearrangement from `src` into `dst` in copies of `unit`
    /// bytes or more.
    ///
    /// Layouts that differ in their number of axes or in a length are a
    /// `ShapeMismatch`; an axis of a length other than one that does not
    /// move in the destination is a `DimReduce`; of several faults the first
    /// axis decides. Otherwise the axes of a length other than one are put
    /// in canonical order, the innermost dense ones are absorbed into the
    /// unit, and contiguous neighbours are fused. Axes that the canonical
    /// order does not tell apart may be taken in either order.
    ///
    /// The scheme copies every byte of every element from its place in the
    /// source to its place in the destination, and nothing else. Its count
    /// is the product of the lengths of its axes. Where it copies anything,
    /// none of its axes is contiguous with its inner neighbour. Dense
    /// layouts become a single copy of all their bytes.
    pub fn new(dst: &Layout, src: &Layout, unit: usize) -> (r: Result<Rearranging, SchemeError>)
        requires
            roomy(dst@.shape, unit),
        ensures
            match refusal(dst@, src@) {
                Some(e) => r == Err::<Rearranging, SchemeError>(e),
                None => r is Ok && exists|order: Seq<Axis>|
                    #[trigger] arranged(order, kept_axes(dst@, src@)) && r->Ok_0@ == planned(
                        unit as nat,
                        dst@.offset as int,
                        src@.offset as int,
                        order,
                    ),
            },
            r matches Ok(plan) ==> {
                &&& plan@.well_formed()
                &&& plan@.bounded()
                &&& plan@.count == volume(plan@.axes())
                &&& plan@.count > 0 ==> forall|i: int|
                    0 <= i < plan@.ndim() - 1 ==> !#[trigger] plan@.fusible(i)
                &&& dense(dst@, unit as nat) && dense(src@, unit as nat) ==> plan@.ndim() == 0
                    && plan@.unit == unit * extent_from(dst@.shape, 0)
                &&& forall|to: int, from: int|
                    #[trigger] plan@.copies(to, from) == rearranges(
                        dst@,
                        src@,
                        unit as nat,
                        to,
                        from,
                    )
            },
    {
        let mut dims = match collect(dst, src) {
            Ok(dims) => dims,
            Err(e) => {
                return Err(e);
            },
        };
        let ghost found = dims@;
        sort_dims(&mut dims);
        proof {
            lemma_axes_permuted(dims@, found);
            lemma_bulk_permuted(axes(dims@), axes(found));
        }
        let plan = Rearranging::from_dims(unit, dst.offset(), src.offset(), &dims);
        proof {
            let order = axes(dims@);
            let left = coalesce(settled_axes(unit as nat, order));
            let grown = settled_unit(unit as nat, order);
            assert(arranged(order, kept_axes(dst@, src@)));
            lemma_chain(plan@, 0);
            lemma_planned_is_irreducible(unit as nat, order);
            lemma_refusal_none(dst@, src@);
            assert forall|to: int, from: int| #[trigger]
                plan@.copies(to, from) == rearranges(dst@, src@, unit as nat, to, from) by {
                lemma_plan_rearranges(dst@, src@, unit as nat, order, to, from);
            }
            if plan@.count > 0 {
                lemma_of_well_formed(grown, dst@.offset as int, src@.offset as int, left);
                assert forall|i: int| 0 <= i < left.len() implies (#[trigger] left[i]).len > 0 by {
                    lemma_lengths_positive(left, 0, i);
                }
                lemma_scheme_is_irreducible(
                    grown,
                    dst@.offset as int,
                    src@.offset as int,
                    left,
                );
            }
            if dense(dst@, unit as nat) && dense(src@, unit as nat) {
                lemma_refusal_none(dst@, src@);
                assert(dst@.shape =~= src@.shape) by {
                    assert forall|i: int| 0 <= i < dst@.ndim() implies dst@.shape[i]
                        == src@.shape[i] by {
                        assert(!faulty(dst@, src@, i));
                    }
                }
                lemma_dense_is_one_copy(dst@, src@, unit as nat, order);
            }
        }
        Ok(plan)
    }

    /// The scheme for dims that stand in canonical order: the innermost dense
    /// ones are absorbed into the unit, and contiguous neighbours are fused.
    pub fn from_dims(unit: usize, dst_offset: isize, src_offset: isize, dims: &Vec<Dim>) -> (r:
        Rearranging)
        requires
            girth(unit as nat) * bulk(axes(dims@)) <= isize::MAX,
        ensures
            r@ == planned(unit as nat, dst_offset as int, src_offset as int, axes(dims@)),
            r@.well_formed(),
            r@.bounded(),
    {
        let ghost all = axes(dims@);
        proof {
            lemma_bulk_positive(all);
            let g = girth(unit as nat);
            let b = bulk(all);
            assert(g <= g * b) by (nonlinear_arith)
                requires
                    g >= 1,
                    b >= 1,
            ;
            assert(all.subrange(0, dims@.len() as int) =~= all);
        }
        let mut grown: isize = unit as isize;
        let mut n: usize = dims.len();
        let mut dense: bool = true;
        while dense && n > 0
            invariant
                n <= dims@.len(),
                all == axes(dims@),
                grown >= 0,
                settled_unit(unit as nat, all) == settled_unit(
                    grown as nat,
                    all.subrange(0, n as int),
                ),
                settled_axes(unit as nat, all) == settled_axes(
                    grown as nat,
                    all.subrange(0, n as int),
                ),
                girth(grown as nat) * bulk(all.subrange(0, n as int)) <= isize::MAX,
                !dense ==> n > 0 && !absorbs(grown as nat, all[n - 1]),
            decreases
                    (if dense {
                        n + 1
                    } else {
                        n as int
                    }),
        {
            let d: Dim = dims[n - 1];
            let ghost held = all.subrange(0, n as int);
            let ghost ahead = all.subrange(0, n - 1);
            proof {
                assert(held.last() == d@);
                assert(held.drop_last() =~= ahead);
                assert(held =~= ahead.push(d@));
                lemma_bulk_push(ahead, d@);
                lemma_bulk_positive(ahead);
                let g = girth(grown as nat);
                let gl = girth(d@.len);
                let ba = bulk(ahead);
                let u = grown as nat;
                let l = d@.len;
                assert(l <= g * (ba * gl) && u * l <= g * (ba * gl) && g * gl * ba == g * (ba * gl)
                    && u * l <= g * gl && g * gl >= 1) by (nonlinear_arith)
                    requires
                        g >= 1,
                        gl >= 1,
                        ba >= 1,
                        0 <= u <= g,
                        0 <= l <= gl,
                ;
                let g2 = girth(u * l);
                assert(g2 * ba <= g * gl * ba) by (nonlinear_arith)
                    requires
                        0 <= g2 <= g * gl,
                        ba >= 1,
                ;
            }
            if d.dst == grown && d.src == grown {
                grown = grown * (d.len as isize);
                n = n - 1;
            } else {
                dense = false;
            }
        }
        proof {
            let g = girth(grown as nat);
            let bh = bulk(all.subrange(0, n as int));
            assert(g * bh >= bh) by (nonlinear_arith)
                requires
                    g >= 1,
                    bh >= 0,
            ;
        }
        let merged = coalesced(dims, n);
        proof {
            let g = girth(grown as nat);
            let bm = bulk(axes(merged@));
            let bh = bulk(all.subrange(0, n as int));
            assert(g * bm <= g * bh) by (nonlinear_arith)
                requires
                    g >= 1,
                    0 <= bm <= bh,
            ;
        }
        let plan = Rearranging::assemble(grown, dst_offset, src_offset, &merged);
        proof {
            lemma_of_well_formed(
                grown as nat,
                dst_offset as int,
                src_offset as int,
                axes(merged@),
            );
            lemma_of_bounded(grown as nat, dst_offset as int, src_offset as int, axes(merged@));
        }
        plan
    }
}

} // verus!
