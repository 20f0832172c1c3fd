use vstd::arithmetic::div_mod::{
    lemma_div_denominator, lemma_fundamental_div_mod, lemma_fundamental_div_mod_converse,
    lemma_mod_breakdown,
};
use vstd::prelude::*;
use crate::axis::Axis;
use crate::scheme::{lemma_volume_from_drop_last, volume, volume_from, Scheme};
use crate::transfer::{in_steps, lemma_reaches_push, reaches, by_step};

verus! {

/// How far the copy with the linear index `index` is moved in the
/// destination and in the source: the index is read as a number whose
/// digits are the steps along the axes, the innermost axis being the last
/// digit.
pub open spec fn landing(axes: Seq<Axis>, index: int) -> (int, int)
    decreases axes.len(),
{
    if axes.len() == 0 {
        (0, 0)
    } else {
        let last = axes.last();
        let outer = landing(axes.drop_last(), index / (last.len as int));
        let step = index % (last.len as int);
        (outer.0 + step * last.dst, outer.1 + step * last.src)
    }
}

/// The copy with the linear index `index` is one of the copies, and is
/// moved by these two distances.
pub open spec fn lands(axes: Seq<Axis>, index: int, dst: int, src: int) -> bool {
    0 <= index < volume(axes) && landing(axes, index).0 == dst && landing(axes, index).1 == src
}

/// Where the product of some lengths is positive, so is every one of them.
pub proof fn lemma_lengths_positive(axes: Seq<Axis>, from: int, i: int)
    requires
        0 <= from <= i < axes.len(),
        volume_from(axes, from) > 0,
    ensures
        axes[i].len > 0,
        volume_from(axes, i) > 0,
        volume_from(axes, i + 1) > 0,
    decreases i - from,
{
    let l = axes[from].len;
    let v = volume_from(axes, from + 1);
    assert(l > 0 && v > 0) by (nonlinear_arith)
        requires
            l * v > 0,
            l >= 0,
            v >= 0,
    ;
    if from < i {
        lemma_lengths_positive(axes, from + 1, i);
    }
}

/// A digit of a number: what is left of it within one axis and all inside,
/// divided by all inside, is the number divided by all inside, taken within
/// the axis.
pub proof fn lemma_digit(r: int, len: int, inner: int)
    requires
        0 <= r,
        len > 0,
        inner > 0,
    ensures
        (r % (len * inner)) / inner == (r / inner) % len,
        0 <= (r / inner) % len < len,
{
    lemma_mod_breakdown(r, inner, len);
    let t = (r / inner) % len;
    let u = r % inner;
    let x = r % (inner * len);
    assert(inner * len == len * inner) by (nonlinear_arith);
    assert(x == t * inner + u) by (nonlinear_arith)
        requires
            x == inner * t + u,
    ;
    lemma_fundamental_div_mod(r, inner);
    assert(0 <= u < inner) by (nonlinear_arith)
        requires
            u == r % inner,
            inner > 0,
    ;
    assert(0 <= t < len) by (nonlinear_arith)
        requires
            t == (r / inner) % len,
            len > 0,
    ;
    lemma_fundamental_div_mod_converse(x, inner, t, u);
}

/// The offsets that a scheme made of axes resolves for a linear index,
/// counting the first `k` axes, are the landing of the outer digits of the
/// index on those axes.
pub proof fn lemma_upto_is_landing(
    unit: nat,
    dst_offset: int,
    src_offset: int,
    axes: Seq<Axis>,
    index: int,
    k: int,
)
    requires
        0 <= index < volume(axes),
        0 <= k <= axes.len(),
    ensures
        ({
            let s = Scheme::of(unit, dst_offset, src_offset, axes);
            let outer = index / (volume_from(axes, k) as int);
            &&& s.dst_upto(index, k) == dst_offset + landing(axes.subrange(0, k), outer).0
            &&& s.src_upto(index, k) == src_offset + landing(axes.subrange(0, k), outer).1
        }),
    decreases k,
{
    let s = Scheme::of(unit, dst_offset, src_offset, axes);
    if k > 0 {
        let i = k - 1;
        lemma_upto_is_landing(unit, dst_offset, src_offset, axes, index, i);
        lemma_lengths_positive(axes, 0, i);
        let len = axes[i].len as int;
        let inner = volume_from(axes, k) as int;
        let whole = volume_from(axes, i) as int;
        let front = axes.subrange(0, k);
        let q = index / inner;
        assert(whole == len * inner);
        assert(front.last() == axes[i]);
        assert(front.drop_last() =~= axes.subrange(0, i));
        lemma_div_denominator(index, inner, len);
        assert(inner * len == len * inner) by (nonlinear_arith);
        assert(q / len == index / whole);
        lemma_digit(index, len, inner);
        assert(s.outer(i) == whole);
        assert(s.idx_strides[i] == inner);
        assert(s.coordinate(index, i) == q % len);
        assert(s.dst_strides[i] == axes[i].dst);
        assert(s.src_strides[i] == axes[i].src);
    } else {
        assert(axes.subrange(0, 0) =~= Seq::<Axis>::empty());
    }
}

/// The places that axes reach are the landings of their copies.
pub proof fn lemma_reaches_is_landing(axes: Seq<Axis>, dst: int, src: int)
    ensures
        reaches(axes, dst, src) <==> exists|index: int| #[trigger] lands(axes, index, dst, src),
    decreases axes.len(),
{
    if axes.len() == 0 {
        if reaches(axes, dst, src) {
            assert(lands(axes, 0, dst, src));
        }
    } else {
        let rest = axes.drop_last();
        let last = axes.last();
        let len = last.len as int;
        let outer = volume(rest) as int;
        assert(rest.push(last) =~= axes);
        lemma_reaches_push(rest, last, dst, src);
        lemma_volume_from_drop_last(axes, 0);
        assert(volume(axes) == outer * len);
        if reaches(axes, dst, src) {
            let c = choose|c: int| #[trigger] by_step(rest, last, dst, src, c);
            let d1 = dst - c * last.dst;
            let s1 = src - c * last.src;
            lemma_reaches_is_landing(rest, d1, s1);
            let r0 = choose|r0: int| #[trigger] lands(rest, r0, d1, s1);
            let r = r0 * len + c;
            lemma_fundamental_div_mod_converse(r, len, r0, c);
            assert(0 <= r < outer * len) by (nonlinear_arith)
                requires
                    0 <= r0 < outer,
                    0 <= c < len,
                    r == r0 * len + c,
            ;
            assert(lands(axes, r, dst, src));
        }
        if exists|index: int| #[trigger] lands(axes, index, dst, src) {
            let r = choose|index: int| #[trigger] lands(axes, index, dst, src);
            assert(len > 0 && outer > 0) by (nonlinear_arith)
                requires
                    0 <= r < outer * len,
                    len >= 0,
                    outer >= 0,
            ;
            let c = r % len;
            let r0 = r / len;
            lemma_fundamental_div_mod(r, len);
            assert(0 <= c < len && 0 <= r0 < outer) by (nonlinear_arith)
                requires
                    0 <= r < outer * len,
                    len > 0,
                    r == len * r0 + c,
                    c == r % len,
            ;
            let d1 = landing(rest, r0).0;
            let s1 = landing(rest, r0).1;
            assert(lands(rest, r0, d1, s1));
            lemma_reaches_is_landing(rest, d1, s1);
            assert(in_steps(c, last.len));
            assert(by_step(rest, last, dst, src, c));
        }
    }
}

} // verus!
