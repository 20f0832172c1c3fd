use vstd::prelude::*;
use crate::axis::Axis;
use crate::layout::LayoutView;
use crate::order::arranged;
use crate::planner::{axis_of, kept_axes, planned};
use crate::scheme::Scheme;
use crate::transfer::{
    by_step, in_steps, lemma_planned_copies, lemma_reaches_push, reaches, unit_axis, whole,
};

verus! {

/// The bytes that the first `n` coordinates move along axes of these
/// strides.
pub open spec fn dot(coords: Seq<int>, strides: Seq<isize>, n: int) -> int
    decreases n,
{
    if n <= 0 {
        0
    } else {
        dot(coords, strides, n - 1) + coords[n - 1] * strides[n - 1]
    }
}

impl LayoutView {
    /// `coords` names an element: one coordinate for every axis, each
    /// within the length of its axis.
    pub open spec fn holds(self, coords: Seq<int>) -> bool {
        self.holds_upto(coords, self.ndim() as int)
    }

    /// `coords` has one coordinate for every axis, and the first `n` are
    /// within the lengths of their axes.
    pub open spec fn holds_upto(self, coords: Seq<int>, n: int) -> bool {
        &&& coords.len() == self.ndim()
        &&& forall|i: int| 0 <= i < n ==> 0 <= #[trigger] coords[i] < self.shape[i]
    }

    /// The byte offset from the base of the element that `coords` names.
    pub open spec fn address(self, coords: Seq<int>) -> int {
        self.offset + dot(coords, self.strides, self.ndim() as int)
    }
}

/// Byte number `byte` of the element at `coords` lies `from` bytes behind
/// the source base and belongs `to` bytes behind the destination base.
pub open spec fn carries(
    dst: LayoutView,
    src: LayoutView,
    unit: nat,
    coords: Seq<int>,
    byte: int,
    to: int,
    from: int,
) -> bool {
    &&& dst.holds(coords)
    &&& 0 <= byte < unit
    &&& to == dst.address(coords) + byte
    &&& from == src.address(coords) + byte
}

/// Rearranging from `src` into `dst` takes the byte `from` bytes behind the
/// source base to `to` bytes behind the destination base: it is a byte of
/// some element, in its two places.
pub open spec fn rearranges(dst: LayoutView, src: LayoutView, unit: nat, to: int, from: int) -> bool {
    exists|coords: Seq<int>, byte: int| #[trigger] carries(dst, src, unit, coords, byte, to, from)
}

/// The first `n` coordinates of `coords` move by `x` bytes in the
/// destination and by `y` bytes in the source.
pub open spec fn spots(
    dst: LayoutView,
    src: LayoutView,
    coords: Seq<int>,
    n: int,
    x: int,
    y: int,
) -> bool {
    &&& dst.holds_upto(coords, n)
    &&& x == dot(coords, dst.strides, n)
    &&& y == dot(coords, src.strides, n)
}

/// A coordinate of an axis that is not counted changes nothing.
pub proof fn lemma_dot_ignores(coords: Seq<int>, strides: Seq<isize>, n: int, k: int, c: int)
    requires
        n <= k < coords.len(),
    ensures
        dot(coords.update(k, c), strides, n) == dot(coords, strides, n),
    decreases n,
{
    if n > 0 {
        lemma_dot_ignores(coords, strides, n - 1, k, c);
    }
}

/// A coordinate along an axis that does not move changes nothing.
pub proof fn lemma_dot_motionless(coords: Seq<int>, strides: Seq<isize>, n: int, k: int, c: int)
    requires
        0 <= k < coords.len(),
        n <= coords.len(),
        k < strides.len(),
        strides[k] == 0,
    ensures
        dot(coords.update(k, c), strides, n) == dot(coords, strides, n),
    decreases n,
{
    if n > 0 {
        lemma_dot_motionless(coords, strides, n - 1, k, c);
        if k == n - 1 {
            assert(c * strides[k] == 0 && coords[k] * strides[k] == 0) by (nonlinear_arith)
                requires
                    strides[k] == 0,
            ;
        }
    }
}

/// What the first `n` axes of two layouts reach are the places of their
/// elements.
pub proof fn lemma_whole_reaches(dst: LayoutView, src: LayoutView, n: int, x: int, y: int)
    requires
        0 <= n <= dst.ndim(),
    ensures
        reaches(whole(dst, src, n as nat), x, y) <==> exists|coords: Seq<int>| #[trigger]
            spots(dst, src, coords, n, x, y),
    decreases n,
{
    let axes = whole(dst, src, n as nat);
    if n == 0 {
        assert(axes =~= Seq::<Axis>::empty());
        if reaches(axes, x, y) {
            let origin = Seq::new(dst.ndim(), |i: int| 0int);
            assert(spots(dst, src, origin, n, x, y));
        }
    } else {
        let m = n - 1;
        let rest = whole(dst, src, m as nat);
        let a = axis_of(dst, src, m);
        assert(axes =~= rest.push(a));
        lemma_reaches_push(rest, a, x, y);
        if reaches(axes, x, y) {
            let c = choose|c: int| #[trigger] by_step(rest, a, x, y, c);
            let x1 = x - c * a.dst;
            let y1 = y - c * a.src;
            lemma_whole_reaches(dst, src, m, x1, y1);
            let before = choose|coords: Seq<int>| #[trigger] spots(dst, src, coords, m, x1, y1);
            let coords = before.update(m, c);
            lemma_dot_ignores(before, dst.strides, m, m, c);
            lemma_dot_ignores(before, src.strides, m, m, c);
            assert forall|i: int| 0 <= i < n implies 0 <= #[trigger] coords[i] < dst.shape[i] by {
                if i < m {
                    assert(0 <= before[i] < dst.shape[i]);
                }
            }
            assert(spots(dst, src, coords, n, x, y));
        }
        if exists|coords: Seq<int>| #[trigger] spots(dst, src, coords, n, x, y) {
            let coords = choose|coords: Seq<int>| #[trigger] spots(dst, src, coords, n, x, y);
            let c = coords[m];
            let x1 = x - c * a.dst;
            let y1 = y - c * a.src;
            assert(spots(dst, src, coords, m, x1, y1));
            lemma_whole_reaches(dst, src, m, x1, y1);
            assert(in_steps(c, a.len));
            assert(by_step(rest, a, x, y, c));
        }
    }
}

/// The axes of two layouts, walked in elements of `unit` bytes, reach the
/// bytes of the elements in their two places.
pub proof fn lemma_layouts_reach(dst: LayoutView, src: LayoutView, unit: nat, to: int, from: int)
    requires
        dst.ndim() == src.ndim(),
    ensures
        reaches(
            whole(dst, src, dst.ndim()).push(unit_axis(unit)),
            to - dst.offset,
            from - src.offset,
        ) <==> rearranges(dst, src, unit, to, from),
{
    let n = dst.ndim() as int;
    let axes = whole(dst, src, dst.ndim());
    let bytes = unit_axis(unit);
    let x = to - dst.offset;
    let y = from - src.offset;
    lemma_reaches_push(axes, bytes, x, y);
    if reaches(axes.push(bytes), x, y) {
        let byte = choose|c: int| #[trigger] by_step(axes, bytes, x, y, c);
        assert(byte * 1 == byte);
        lemma_whole_reaches(dst, src, n, x - byte, y - byte);
        let coords = choose|coords: Seq<int>| #[trigger]
            spots(dst, src, coords, n, x - byte, y - byte);
        assert(carries(dst, src, unit, coords, byte, to, from));
    }
    if rearranges(dst, src, unit, to, from) {
        let (coords, byte) = choose|coords: Seq<int>, byte: int| #[trigger]
            carries(dst, src, unit, coords, byte, to, from);
        assert(byte * 1 == byte);
        assert(spots(dst, src, coords, n, x - byte, y - byte));
        lemma_whole_reaches(dst, src, n, x - byte, y - byte);
        assert(in_steps(byte, bytes.len));
        assert(by_step(axes, bytes, x, y, byte));
    }
}

/// The planner is faithful. A planned scheme copies a byte from one place
/// to another exactly where that byte belongs to an element that the two
/// layouts hold, and the two places are its places in the source and in
/// the destination.
pub proof fn lemma_plan_rearranges(
    dst: LayoutView,
    src: LayoutView,
    unit: nat,
    order: Seq<Axis>,
    to: int,
    from: int,
)
    requires
        dst.ndim() == src.ndim(),
        arranged(order, kept_axes(dst, src)),
    ensures
        planned(unit, dst.offset as int, src.offset as int, order).copies(to, from) <==> rearranges(
            dst,
            src,
            unit,
            to,
            from,
        ),
{
    lemma_planned_copies(dst, src, unit, order, to, from);
    lemma_layouts_reach(dst, src, unit, to, from);
}

/// The way back. The scheme planned from `dst` into `src` copies a byte
/// from one place to another exactly where the scheme planned from `src`
/// into `dst` copies it the other way.
pub proof fn lemma_reverse_plan_copies_back(
    dst: LayoutView,
    src: LayoutView,
    unit: nat,
    there: Seq<Axis>,
    back: Seq<Axis>,
    to: int,
    from: int,
)
    requires
        dst.shape == src.shape,
        arranged(there, kept_axes(dst, src)),
        arranged(back, kept_axes(src, dst)),
    ensures
        planned(unit, dst.offset as int, src.offset as int, there).copies(to, from) <==> planned(
            unit,
            src.offset as int,
            dst.offset as int,
            back,
        ).copies(from, to),
{
    lemma_plan_rearranges(dst, src, unit, there, to, from);
    lemma_plan_rearranges(src, dst, unit, back, from, to);
    if rearranges(dst, src, unit, to, from) {
        let (coords, byte) = choose|coords: Seq<int>, byte: int| #[trigger]
            carries(dst, src, unit, coords, byte, to, from);
        assert(carries(src, dst, unit, coords, byte, from, to));
    }
    if rearranges(src, dst, unit, from, to) {
        let (coords, byte) = choose|coords: Seq<int>, byte: int| #[trigger]
            carries(src, dst, unit, coords, byte, from, to);
        assert(carries(dst, src, unit, coords, byte, to, from));
    }
}

} // verus!

verus! {

/// `byte` is a byte of the element at `coords` of an array of this layout.
pub open spec fn has_byte(layout: LayoutView, unit: nat, coords: Seq<int>, byte: int) -> bool {
    layout.holds(coords) && 0 <= byte < unit
}

/// The destination holds what carrying out the scheme leaves there: every
/// byte that the scheme copies stands in `result` as it stood in `source`.
/// Both buffers are read by the offset from their base.
pub open spec fn carried_out(
    scheme: Scheme,
    source: spec_fn(int) -> u8,
    result: spec_fn(int) -> u8,
) -> bool {
    forall|to: int, from: int| #[trigger] scheme.copies(to, from) ==> result(to) == source(from)
}

/// There and back. Where one scheme is carried out from a source into a
/// buffer, and the scheme planned the other way is carried out from that
/// buffer, every byte of every element stands in the end where it stood in
/// the source, and holds what it held there.
pub proof fn lemma_round_trip(
    dst: LayoutView,
    src: LayoutView,
    unit: nat,
    there: Seq<Axis>,
    back: Seq<Axis>,
    source: spec_fn(int) -> u8,
    middle: spec_fn(int) -> u8,
    result: spec_fn(int) -> u8,
)
    requires
        dst.shape == src.shape,
        arranged(there, kept_axes(dst, src)),
        arranged(back, kept_axes(src, dst)),
        carried_out(planned(unit, dst.offset as int, src.offset as int, there), source, middle),
        carried_out(planned(unit, src.offset as int, dst.offset as int, back), middle, result),
    ensures
        forall|coords: Seq<int>, byte: int| #[trigger]
            has_byte(src, unit, coords, byte) ==> result(src.address(coords) + byte) == source(
                src.address(coords) + byte,
            ),
{
    assert forall|coords: Seq<int>, byte: int| #[trigger]
        has_byte(src, unit, coords, byte) implies result(src.address(coords) + byte) == source(
        src.address(coords) + byte,
    ) by {
        let from = src.address(coords) + byte;
        let to = dst.address(coords) + byte;
        assert(carries(dst, src, unit, coords, byte, to, from));
        assert(carries(src, dst, unit, coords, byte, from, to));
        lemma_plan_rearranges(dst, src, unit, there, to, from);
        lemma_plan_rearranges(src, dst, unit, back, from, to);
        assert(planned(unit, dst.offset as int, src.offset as int, there).copies(to, from));
        assert(planned(unit, src.offset as int, dst.offset as int, back).copies(from, to));
    }
}

/// Fan-out. Where the source does not move along an axis, every element of
/// the destination holds, once the scheme is carried out, what the source
/// holds for the element with coordinate zero along that axis.
pub proof fn lemma_fan_out(
    dst: LayoutView,
    src: LayoutView,
    unit: nat,
    order: Seq<Axis>,
    axis: int,
    source: spec_fn(int) -> u8,
    result: spec_fn(int) -> u8,
)
    requires
        src.wf(),
        dst.ndim() == src.ndim(),
        arranged(order, kept_axes(dst, src)),
        0 <= axis < src.ndim(),
        src.strides[axis] == 0,
        carried_out(planned(unit, dst.offset as int, src.offset as int, order), source, result),
    ensures
        forall|coords: Seq<int>, byte: int| #[trigger]
            has_byte(dst, unit, coords, byte) ==> result(dst.address(coords) + byte) == source(
                src.address(coords.update(axis, 0)) + byte,
            ),
{
    assert forall|coords: Seq<int>, byte: int| #[trigger]
        has_byte(dst, unit, coords, byte) implies result(dst.address(coords) + byte) == source(
        src.address(coords.update(axis, 0)) + byte,
    ) by {
        let from = src.address(coords) + byte;
        let to = dst.address(coords) + byte;
        assert(carries(dst, src, unit, coords, byte, to, from));
        lemma_plan_rearranges(dst, src, unit, order, to, from);
        assert(planned(unit, dst.offset as int, src.offset as int, order).copies(to, from));
        lemma_dot_motionless(coords, src.strides, src.ndim() as int, axis, 0);
    }
}

} // verus!
