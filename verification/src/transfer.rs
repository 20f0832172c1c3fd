use vstd::prelude::*;
use crate::axis::{contiguous, fuse, Axis};
use crate::layout::LayoutView;
use crate::order::arranged;
use crate::perm::{lemma_permuted_last, lemma_permuted_len};
use crate::planner::{
    absorbs, axis_of, coalesce, kept, kept_axes, planned, settled_axes, settled_unit,
};
use crate::radix::{lands, lemma_reaches_is_landing, lemma_upto_is_landing};
use crate::scheme::{volume_from, Scheme};

verus! {

/// The bytes of one copy, seen as an innermost axis of single bytes.
pub open spec fn unit_axis(unit: nat) -> Axis {
    Axis { len: unit, dst: 1, src: 1 }
}

/// `c` is one of the steps of an axis of length `len`.
pub open spec fn in_steps(c: int, len: nat) -> bool {
    0 <= c < len
}

/// Walking the axes reaches the place `dst` bytes on in the destination
/// together with the place `src` bytes on in the source: some choice of
/// one step for every axis moves by these two distances.
pub open spec fn reaches(axes: Seq<Axis>, dst: int, src: int) -> bool
    decreases axes.len(),
{
    if axes.len() == 0 {
        dst == 0 && src == 0
    } else {
        exists|c: int|
            #[trigger] in_steps(c, axes.last().len) && reaches(
                axes.drop_last(),
                dst - c * axes.last().dst,
                src - c * axes.last().src,
            )
    }
}

/// Step `c` of the axis `last` is a step that exists, and the axes `rest`
/// make up for what is left of the two distances.
pub open spec fn by_step(rest: Seq<Axis>, last: Axis, dst: int, src: int, c: int) -> bool {
    in_steps(c, last.len) && reaches(rest, dst - c * last.dst, src - c * last.src)
}

/// Two sequences of axes reach the same pairs of places.
pub open spec fn equivalent(a: Seq<Axis>, b: Seq<Axis>) -> bool {
    forall|dst: int, src: int|
        #![trigger reaches(a, dst, src)]
        #![trigger reaches(b, dst, src)]
        reaches(a, dst, src) == reaches(b, dst, src)
}

/// What axes with one more axis behind them reach.
pub proof fn lemma_reaches_push(rest: Seq<Axis>, last: Axis, dst: int, src: int)
    ensures
        reaches(rest.push(last), dst, src) <==> exists|c: int|
            #[trigger] by_step(rest, last, dst, src, c),
{
    let all = rest.push(last);
    assert(all.drop_last() =~= rest);
    assert(all.last() == last);
    if reaches(all, dst, src) {
        let c = choose|c: int|
            #[trigger] in_steps(c, last.len) && reaches(
                rest,
                dst - c * last.dst,
                src - c * last.src,
            );
        assert(by_step(rest, last, dst, src, c));
    }
    if exists|c: int| #[trigger] by_step(rest, last, dst, src, c) {
        let c = choose|c: int| #[trigger] by_step(rest, last, dst, src, c);
        assert(in_steps(c, last.len));
        assert(reaches(all, dst, src));
    }
}

/// Axes that reach the same places still do with one more axis behind
/// each.
pub proof fn lemma_push_equivalent(a: Seq<Axis>, b: Seq<Axis>, t: Axis)
    requires
        equivalent(a, b),
    ensures
        equivalent(a.push(t), b.push(t)),
{
    assert forall|dst: int, src: int| reaches(a.push(t), dst, src) == reaches(
        b.push(t),
        dst,
        src,
    ) by {
        lemma_reaches_push(a, t, dst, src);
        lemma_reaches_push(b, t, dst, src);
        if reaches(a.push(t), dst, src) {
            let c = choose|c: int| #[trigger] by_step(a, t, dst, src, c);
            assert(reaches(a, dst - c * t.dst, src - c * t.src));
            assert(by_step(b, t, dst, src, c));
        }
        if reaches(b.push(t), dst, src) {
            let c = choose|c: int| #[trigger] by_step(b, t, dst, src, c);
            assert(reaches(b, dst - c * t.dst, src - c * t.src));
            assert(by_step(a, t, dst, src, c));
        }
    }
}

/// The two innermost axes may change places.
pub proof fn lemma_swap_last(rest: Seq<Axis>, a: Axis, b: Axis)
    ensures
        equivalent(rest.push(a).push(b), rest.push(b).push(a)),
{
    assert forall|dst: int, src: int| reaches(rest.push(a).push(b), dst, src) == reaches(
        rest.push(b).push(a),
        dst,
        src,
    ) by {
        if reaches(rest.push(a).push(b), dst, src) {
            lemma_swap_one_way(rest, a, b, dst, src);
        }
        if reaches(rest.push(b).push(a), dst, src) {
            lemma_swap_one_way(rest, b, a, dst, src);
        }
    }
}

proof fn lemma_swap_one_way(rest: Seq<Axis>, a: Axis, b: Axis, dst: int, src: int)
    requires
        reaches(rest.push(a).push(b), dst, src),
    ensures
        reaches(rest.push(b).push(a), dst, src),
{
    lemma_reaches_push(rest.push(a), b, dst, src);
    let cb = choose|c: int| #[trigger] by_step(rest.push(a), b, dst, src, c);
    let d1 = dst - cb * b.dst;
    let s1 = src - cb * b.src;
    lemma_reaches_push(rest, a, d1, s1);
    let ca = choose|c: int| #[trigger] by_step(rest, a, d1, s1, c);
    let d2 = dst - ca * a.dst;
    let s2 = src - ca * a.src;
    assert(by_step(rest, b, d2, s2, cb));
    lemma_reaches_push(rest, b, d2, s2);
    assert(by_step(rest.push(b), a, dst, src, ca));
    lemma_reaches_push(rest.push(b), a, dst, src);
}

/// An axis may be moved to the innermost place.
pub proof fn lemma_move_last(axes: Seq<Axis>, k: int)
    requires
        0 <= k < axes.len(),
    ensures
        equivalent(axes, axes.remove(k).push(axes[k])),
    decreases axes.len(),
{
    let moved = axes.remove(k).push(axes[k]);
    if k == axes.len() - 1 {
        assert(moved =~= axes);
    } else {
        let front = axes.drop_last();
        let last = axes.last();
        lemma_move_last(front, k);
        lemma_push_equivalent(front, front.remove(k).push(front[k]), last);
        lemma_swap_last(front.remove(k), front[k], last);
        assert(front.push(last) =~= axes);
        assert(front.remove(k).push(last).push(front[k]) =~= moved);
    }
}

/// Axes reach the same places in whatever order they stand.
pub proof fn lemma_permuted_equivalent(a: Seq<Axis>, b: Seq<Axis>)
    requires
        a.to_multiset() == b.to_multiset(),
    ensures
        equivalent(a, b),
    decreases a.len(),
{
    lemma_permuted_len(a, b);
    if a.len() == 0 {
        assert(a =~= b);
    } else {
        let k = lemma_permuted_last(a, b);
        lemma_permuted_equivalent(a.drop_last(), b.remove(k));
        lemma_push_equivalent(a.drop_last(), b.remove(k), a.last());
        lemma_move_last(b, k);
        assert(a.drop_last().push(a.last()) =~= a);
    }
}

/// Two contiguous neighbours reach what their fusion reaches.
pub proof fn lemma_fuse_equivalent(rest: Seq<Axis>, front: Axis, back: Axis)
    requires
        contiguous(front, back),
    ensures
        equivalent(rest.push(front).push(back), rest.push(fuse(front, back))),
{
    let both = fuse(front, back);
    let lf = front.len as int;
    let lb = back.len as int;
    assert forall|dst: int, src: int| reaches(rest.push(front).push(back), dst, src) == reaches(
        rest.push(both),
        dst,
        src,
    ) by {
        lemma_reaches_push(rest.push(front), back, dst, src);
        lemma_reaches_push(rest, both, dst, src);
        if reaches(rest.push(front).push(back), dst, src) {
            let cb = choose|c: int| #[trigger] by_step(rest.push(front), back, dst, src, c);
            let d1 = dst - cb * back.dst;
            let s1 = src - cb * back.src;
            lemma_reaches_push(rest, front, d1, s1);
            let cf = choose|c: int| #[trigger] by_step(rest, front, d1, s1, c);
            let c = cf * lb + cb;
            assert(0 <= c < lf * lb && c * back.dst == cb * back.dst + cf * (back.dst * lb) && c
                * back.src == cb * back.src + cf * (back.src * lb)) by (nonlinear_arith)
                requires
                    0 <= cb < lb,
                    0 <= cf < lf,
                    c == cf * lb + cb,
            ;
            assert(by_step(rest, both, dst, src, c));
        }
        if reaches(rest.push(both), dst, src) {
            let c = choose|c: int| #[trigger] by_step(rest, both, dst, src, c);
            assert(lb > 0) by (nonlinear_arith)
                requires
                    0 <= c < lf * lb,
                    lf >= 0,
                    lb >= 0,
            ;
            let cf = c / lb;
            let cb = c % lb;
            assert(0 <= cb < lb && 0 <= cf < lf && c == cf * lb + cb) by (nonlinear_arith)
                requires
                    0 <= c < lf * lb,
                    lb > 0,
                    cf == c / lb,
                    cb == c % lb,
            ;
            assert(c * back.dst == cb * back.dst + cf * (back.dst * lb) && c * back.src == cb
                * back.src + cf * (back.src * lb)) by (nonlinear_arith)
                requires
                    c == cf * lb + cb,
            ;
            let d1 = dst - cb * back.dst;
            let s1 = src - cb * back.src;
            assert(by_step(rest, front, d1, s1, cf));
            lemma_reaches_push(rest, front, d1, s1);
            assert(by_step(rest.push(front), back, dst, src, cb));
        }
    }
}

/// Reaching the same places goes through a third sequence of axes.
pub proof fn lemma_equivalent_trans(a: Seq<Axis>, b: Seq<Axis>, c: Seq<Axis>)
    requires
        equivalent(a, b),
        equivalent(b, c),
    ensures
        equivalent(a, c),
{
    assert forall|dst: int, src: int| reaches(a, dst, src) == reaches(c, dst, src) by {
        assert(reaches(a, dst, src) == reaches(b, dst, src));
    }
}

/// Fusing contiguous neighbours changes nothing of what the axes reach.
pub proof fn lemma_coalesce_equivalent(axes: Seq<Axis>)
    ensures
        equivalent(coalesce(axes), axes),
    decreases axes.len(),
{
    if axes.len() > 1 {
        let back = axes.last();
        let front = axes[axes.len() - 2];
        let rest = axes.drop_last().drop_last();
        assert(rest.push(front).push(back) =~= axes);
        if contiguous(front, back) {
            lemma_coalesce_equivalent(rest.push(fuse(front, back)));
            lemma_fuse_equivalent(rest, front, back);
            assert forall|dst: int, src: int| reaches(coalesce(axes), dst, src) == reaches(
                axes,
                dst,
                src,
            ) by {
                assert(reaches(coalesce(axes), dst, src) == reaches(
                    rest.push(fuse(front, back)),
                    dst,
                    src,
                ));
            }
        } else {
            lemma_coalesce_equivalent(axes.drop_last());
            lemma_push_equivalent(coalesce(axes.drop_last()), axes.drop_last(), back);
            assert(axes.drop_last().push(back) =~= axes);
        }
    }
}

/// Absorbing dense innermost axes into the unit changes nothing of the
/// bytes that are reached.
pub proof fn lemma_settled_equivalent(unit: nat, axes: Seq<Axis>)
    ensures
        equivalent(
            settled_axes(unit, axes).push(unit_axis(settled_unit(unit, axes))),
            axes.push(unit_axis(unit)),
        ),
    decreases axes.len(),
{
    if axes.len() > 0 && absorbs(unit, axes.last()) {
        let last = axes.last();
        let rest = axes.drop_last();
        let grown = unit * last.len;
        lemma_settled_equivalent(grown, rest);
        assert(contiguous(last, unit_axis(unit))) by {
            assert(1 * unit == unit);
        }
        lemma_fuse_equivalent(rest, last, unit_axis(unit));
        assert(last.len * unit == unit * last.len) by (nonlinear_arith);
        assert(fuse(last, unit_axis(unit)) == unit_axis(grown));
        assert(rest.push(last) =~= axes);
        assert forall|dst: int, src: int|
            reaches(
                settled_axes(unit, axes).push(unit_axis(settled_unit(unit, axes))),
                dst,
                src,
            ) == reaches(axes.push(unit_axis(unit)), dst, src) by {
            assert(reaches(rest.push(unit_axis(grown)), dst, src) == reaches(
                rest.push(last).push(unit_axis(unit)),
                dst,
                src,
            ));
        }
    }
}

/// The first `n` axes of two layouts, whatever their length.
pub open spec fn whole(dst: LayoutView, src: LayoutView, n: nat) -> Seq<Axis> {
    Seq::new(n, |i: int| axis_of(dst, src, i))
}

/// Dropping the axes of length one changes nothing of what is reached.
pub proof fn lemma_kept_equivalent(dst: LayoutView, src: LayoutView, n: nat)
    ensures
        equivalent(kept(dst, src, n), whole(dst, src, n)),
    decreases n,
{
    if n == 0 {
        assert(kept(dst, src, n) =~= whole(dst, src, n));
    } else {
        let m = (n - 1) as nat;
        let a = axis_of(dst, src, n - 1);
        lemma_kept_equivalent(dst, src, m);
        assert(whole(dst, src, n) =~= whole(dst, src, m).push(a));
        if dst.shape[n - 1] == 1 {
            assert forall|x: int, y: int| reaches(kept(dst, src, n), x, y) == reaches(
                whole(dst, src, n),
                x,
                y,
            ) by {
                lemma_reaches_push(whole(dst, src, m), a, x, y);
                assert(reaches(kept(dst, src, m), x, y) == reaches(whole(dst, src, m), x, y));
                if reaches(whole(dst, src, m), x, y) {
                    assert(a.len == 1);
                    assert(x - 0 * a.dst == x && y - 0 * a.src == y);
                    assert(by_step(whole(dst, src, m), a, x, y, 0));
                }
                if reaches(whole(dst, src, n), x, y) {
                    let c = choose|c: int| #[trigger] by_step(whole(dst, src, m), a, x, y, c);
                    assert(c == 0);
                }
            }
        } else {
            lemma_push_equivalent(kept(dst, src, m), whole(dst, src, m), a);
        }
    }
}

/// The planner is faithful: the axes and the unit of a planned scheme reach
/// exactly the bytes that the axes of the two layouts reach in elements of
/// the unit given.
pub proof fn lemma_plan_is_faithful(dst: LayoutView, src: LayoutView, unit: nat, order: Seq<Axis>)
    requires
        arranged(order, kept_axes(dst, src)),
    ensures
        equivalent(
            coalesce(settled_axes(unit, order)).push(unit_axis(settled_unit(unit, order))),
            whole(dst, src, dst.ndim()).push(unit_axis(unit)),
        ),
{
    let left = settled_axes(unit, order);
    let grown = unit_axis(settled_unit(unit, order));
    let bytes = unit_axis(unit);
    let all = whole(dst, src, dst.ndim());
    lemma_coalesce_equivalent(left);
    lemma_push_equivalent(coalesce(left), left, grown);
    lemma_settled_equivalent(unit, order);
    lemma_equivalent_trans(coalesce(left).push(grown), left.push(grown), order.push(bytes));
    lemma_permuted_equivalent(order, kept_axes(dst, src));
    lemma_push_equivalent(order, kept_axes(dst, src), bytes);
    lemma_kept_equivalent(dst, src, dst.ndim());
    lemma_push_equivalent(kept_axes(dst, src), all, bytes);
    lemma_equivalent_trans(order.push(bytes), kept_axes(dst, src).push(bytes), all.push(bytes));
    lemma_equivalent_trans(coalesce(left).push(grown), order.push(bytes), all.push(bytes));
}

} // verus!

verus! {

impl Scheme {
    /// The copy with the linear index `index` takes its byte number `byte`
    /// from `src` bytes behind the source base to `dst` bytes behind the
    /// destination base.
    pub open spec fn moves(self, index: int, byte: int, dst: int, src: int) -> bool {
        &&& 0 <= index < self.count
        &&& 0 <= byte < self.unit
        &&& dst == self.dst_at(index) + byte
        &&& src == self.src_at(index) + byte
    }

    /// Carrying out the scheme takes the byte `src` bytes behind the source
    /// base to `dst` bytes behind the destination base.
    pub open spec fn copies(self, dst: int, src: int) -> bool {
        exists|index: int, byte: int| #[trigger] self.moves(index, byte, dst, src)
    }
}

/// What a scheme made of axes copies is what its axes reach, byte by byte,
/// from the two offsets.
pub proof fn lemma_scheme_copies(
    unit: nat,
    dst_offset: int,
    src_offset: int,
    axes: Seq<Axis>,
    dst: int,
    src: int,
)
    ensures
        Scheme::of(unit, dst_offset, src_offset, axes).copies(dst, src) <==> reaches(
            axes.push(unit_axis(unit)),
            dst - dst_offset,
            src - src_offset,
        ),
{
    let s = Scheme::of(unit, dst_offset, src_offset, axes);
    let bytes = unit_axis(unit);
    let x = dst - dst_offset;
    let y = src - src_offset;
    let n = axes.len() as int;
    lemma_reaches_push(axes, bytes, x, y);
    assert(axes.subrange(0, n) =~= axes);
    assert(volume_from(axes, n) == 1);
    if s.copies(dst, src) {
        let (index, byte) = choose|index: int, byte: int| #[trigger]
            s.moves(index, byte, dst, src);
        lemma_upto_is_landing(unit, dst_offset, src_offset, axes, index, n);
        assert(index / 1 == index);
        assert(lands(axes, index, x - byte, y - byte));
        lemma_reaches_is_landing(axes, x - byte, y - byte);
        assert(byte * 1 == byte);
        assert(in_steps(byte, bytes.len));
        assert(by_step(axes, bytes, x, y, byte));
    }
    if reaches(axes.push(bytes), x, y) {
        let byte = choose|c: int| #[trigger] by_step(axes, bytes, x, y, c);
        assert(byte * 1 == byte);
        lemma_reaches_is_landing(axes, x - byte, y - byte);
        let index = choose|index: int| #[trigger] lands(axes, index, x - byte, y - byte);
        lemma_upto_is_landing(unit, dst_offset, src_offset, axes, index, n);
        assert(index / 1 == index);
        assert(s.moves(index, byte, dst, src));
    }
}

/// A planned scheme copies exactly the bytes of the elements that the two
/// layouts hold in common: whatever the order in which it walks them, and
/// however it has fused them, every byte of every element is taken from
/// its place in the source to its place in the destination, and nothing
/// else is copied.
pub proof fn lemma_planned_copies(
    dst: LayoutView,
    src: LayoutView,
    unit: nat,
    order: Seq<Axis>,
    to: int,
    from: int,
)
    requires
        arranged(order, kept_axes(dst, src)),
    ensures
        planned(unit, dst.offset as int, src.offset as int, order).copies(to, from) <==> reaches(
            whole(dst, src, dst.ndim()).push(unit_axis(unit)),
            to - dst.offset,
            from - src.offset,
        ),
{
    let axes = coalesce(settled_axes(unit, order));
    let grown = settled_unit(unit, order);
    lemma_scheme_copies(grown, dst.offset as int, src.offset as int, axes, to, from);
    lemma_plan_is_faithful(dst, src, unit, order);
    assert(reaches(axes.push(unit_axis(grown)), to - dst.offset, from - src.offset) == reaches(
        whole(dst, src, dst.ndim()).push(unit_axis(unit)),
        to - dst.offset,
        from - src.offset,
    ));
}

} // verus!
