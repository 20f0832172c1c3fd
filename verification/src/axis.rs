use vstd::prelude::*;

verus! {

/// One axis of a rearrangement: how many steps it has and how far one step
/// moves in the destination and in the source, in bytes.
pub struct Axis {
    pub len: nat,
    pub dst: int,
    pub src: int,
}

/// An axis as the planner holds it at run time.
#[derive(Clone, Copy, Debug)]
pub struct Dim {
    pub len: usize,
    pub dst: isize,
    pub src: isize,
}

impl View for Dim {
    type V = Axis;

    open spec fn view(&self) -> Axis {
        Axis { len: self.len as nat, dst: self.dst as int, src: self.src as int }
    }
}

/// The axes that a sequence of dims stands for.
pub open spec fn axes(dims: Seq<Dim>) -> Seq<Axis> {
    dims.map_values(|d: Dim| d@)
}

/// The absolute value of a stride.
pub open spec fn magnitude(x: int) -> nat {
    if x < 0 {
        (-x) as nat
    } else {
        x as nat
    }
}

/// The contiguity relation: stepping `back` through all its length moves
/// exactly one step of `front`, in the destination and in the source.
pub open spec fn contiguous(front: Axis, back: Axis) -> bool {
    back.dst * back.len == front.dst && back.src * back.len == front.src
}

/// The axis that stands for `front` and `back` walked together.
pub open spec fn fuse(front: Axis, back: Axis) -> Axis {
    Axis { len: front.len * back.len, dst: back.dst, src: back.src }
}

/// The length of an axis, an empty axis counted as one step.
pub open spec fn girth(len: nat) -> nat {
    if len == 0 {
        1
    } else {
        len
    }
}

/// The product of the lengths of the axes, an empty axis counted as one step.
/// No product of lengths that the planner forms exceeds it.
pub open spec fn bulk(axes: Seq<Axis>) -> nat
    decreases axes.len(),
{
    if axes.len() == 0 {
        1
    } else {
        bulk(axes.drop_last()) * girth(axes.last().len)
    }
}

} // verus!

verus! {

/// The absolute value of a stride, which always fits the unsigned word.
pub(crate) fn abs_of(x: isize) -> (m: usize)
    ensures
        m == magnitude(x as int),
{
    if x >= 0 {
        x as usize
    } else {
        let below: isize = -(x + 1);
        (below as usize) + 1
    }
}

/// Putting an axis at the end multiplies the bulk by its girth.
pub proof fn lemma_bulk_push(s: Seq<Axis>, a: Axis)
    ensures
        bulk(s.push(a)) == bulk(s) * girth(a.len),
{
    assert(s.push(a).drop_last() =~= s);
}

/// The bulk is at least one.
pub proof fn lemma_bulk_positive(s: Seq<Axis>)
    ensures
        bulk(s) >= 1,
    decreases s.len(),
{
    if s.len() > 0 {
        lemma_bulk_positive(s.drop_last());
        let b = bulk(s.drop_last());
        let g = girth(s.last().len);
        assert(b * g >= 1) by (nonlinear_arith)
            requires
                b >= 1,
                g >= 1,
        ;
    }
}

/// Taking one axis out divides the bulk by its girth.
pub proof fn lemma_bulk_remove(s: Seq<Axis>, k: int)
    requires
        0 <= k < s.len(),
    ensures
        bulk(s) == bulk(s.remove(k)) * girth(s[k].len),
    decreases s.len(),
{
    if k == s.len() - 1 {
        assert(s.remove(k) =~= s.drop_last());
    } else {
        lemma_bulk_remove(s.drop_last(), k);
        assert(s.remove(k).drop_last() =~= s.drop_last().remove(k));
        assert(s.remove(k).last() == s.last());
        let r = bulk(s.drop_last().remove(k));
        let g = girth(s[k].len);
        let l = girth(s.last().len);
        assert((r * g) * l == (r * l) * g) by (nonlinear_arith);
    }
}

/// No axis is longer than the bulk.
pub proof fn lemma_len_within_bulk(s: Seq<Axis>, k: int)
    requires
        0 <= k < s.len(),
    ensures
        s[k].len <= girth(s[k].len) <= bulk(s),
{
    lemma_bulk_remove(s, k);
    lemma_bulk_positive(s.remove(k));
    let r = bulk(s.remove(k));
    let g = girth(s[k].len);
    assert(g <= r * g) by (nonlinear_arith)
        requires
            r >= 1,
            g >= 0,
    ;
}

/// The axes that dims stand for, when the last dim is set apart.
pub proof fn lemma_axes_push(dims: Seq<Dim>, d: Dim)
    ensures
        axes(dims.push(d)) == axes(dims).push(d@),
{
    assert(axes(dims.push(d)) =~= axes(dims).push(d@));
}

} // verus!
