use vstd::prelude::*;
use crate::axis::Axis;
use crate::scheme::{
    ints, lemma_scheme_has_axes, lemma_volume_from_drop_last, parts, volume_from, Rearranging,
    Scheme,
};
use crate::transfer::{lemma_fuse_equivalent, lemma_scheme_copies, reaches, unit_axis};

verus! {

/// The first of the candidates that divides `unit`, if one does.
pub open spec fn first_divisor(unit: int, candidates: Seq<usize>) -> Option<usize>
    decreases candidates.len(),
{
    if candidates.len() == 0 {
        None
    } else if unit % (candidates[0] as int) == 0 {
        Some(candidates[0])
    } else {
        first_divisor(unit, candidates.drop_first())
    }
}

impl Scheme {
    /// The same rearrangement in copies of `unit` bytes, where `unit` divides
    /// the unit of this scheme: every copy is split by one new innermost
    /// axis that is dense in both buffers. Split by its own unit, the scheme
    /// stays as it is.
    pub open spec fn divided(self, unit: int) -> Scheme {
        if unit == self.unit {
            self
        } else {
            let extra = self.unit / unit;
            Scheme {
                unit,
                dst_offset: self.dst_offset,
                src_offset: self.src_offset,
                count: self.count * extra,
                idx_strides: self.idx_strides.map_values(|s: int| s * extra).push(1),
                dst_strides: self.dst_strides.push(unit),
                src_strides: self.src_strides.push(unit),
            }
        }
    }

    /// The scheme split by the first candidate that divides its unit.
    pub open spec fn distributed(self, candidates: Seq<usize>) -> Option<Scheme> {
        match first_divisor(self.unit, candidates) {
            Some(unit) => Some(self.divided(unit as int)),
            None => None,
        }
    }
}

/// A span that is a multiple of its index stride is that stride times the
/// length recovered by division.
pub proof fn lemma_linked(outer: int, inner: int, len: int)
    requires
        inner >= 0,
        outer == inner * len,
    ensures
        outer == inner * (outer / inner),
{
    if inner > 0 {
        assert(outer / inner == len) by (nonlinear_arith)
            requires
                inner > 0,
                outer == inner * len,
        ;
    } else {
        let q = outer / inner;
        assert(outer == 0 && inner * q == 0) by (nonlinear_arith)
            requires
                inner == 0,
                outer == inner * len,
        ;
    }
}

/// Splitting a well-formed scheme by a divisor of its unit gives a
/// well-formed scheme that counts the same bytes.
pub proof fn lemma_divided_well_formed(s: Scheme, unit: int)
    requires
        s.well_formed(),
        s.bounded(),
        0 < unit <= isize::MAX,
        s.unit % unit == 0,
    ensures
        s.divided(unit).well_formed(),
        s.divided(unit).bounded(),
        s.divided(unit).unit * s.divided(unit).count == s.unit * s.count,
{
    let t = s.divided(unit);
    if unit != s.unit {
        let e = s.unit / unit;
        let n = s.ndim() as int;
        assert(s.unit == unit * e && e >= 0) by (nonlinear_arith)
            requires
                unit > 0,
                s.unit >= 0,
                s.unit % unit == 0,
                e == s.unit / unit,
        ;
        assert(t.ndim() == n + 1);
        assert(t.count >= 0 && unit * (s.count * e) == (unit * e) * s.count) by (nonlinear_arith)
            requires
                t.count == s.count * e,
                s.count >= 0,
                e >= 0,
        ;
        if n > 0 {
            assert(s.linked(n - 1));
        }
        assert forall|i: int| 0 <= i < t.ndim() implies #[trigger] t.linked(i) by {
            if i < n {
                assert(s.linked(i));
                let inner = s.idx_strides[i];
                let outer = s.outer(i);
                let q = s.len_at(i);
                assert(t.idx_strides[i] == inner * e);
                assert(t.outer(i) == outer * e);
                assert(inner * e >= 0 && outer * e == (inner * e) * q) by (nonlinear_arith)
                    requires
                        inner >= 0,
                        e >= 0,
                        outer == inner * q,
                ;
                lemma_linked(outer * e, inner * e, q);
            } else {
                let outer = t.outer(i);
                assert(outer == 1 * outer);
                lemma_linked(outer, 1, outer);
            }
        }
        assert(t.count <= unit * t.count) by (nonlinear_arith)
            requires
                unit >= 1,
                t.count >= 0,
        ;
        assert forall|i: int| 0 <= i < t.ndim() implies t.unit * #[trigger] t.idx_strides[i]
            <= isize::MAX && t.idx_strides[i] <= isize::MAX by {
            if i < n {
                let inner = s.idx_strides[i];
                let w = inner * e;
                assert(s.linked(i));
                assert(t.idx_strides[i] == w);
                assert(s.unit == unit * e);
                assert(s.unit * inner <= isize::MAX);
                assert(unit * w == (unit * e) * inner && w <= unit * w) by (nonlinear_arith)
                    requires
                        w == inner * e,
                        unit >= 1,
                        inner >= 0,
                        e >= 0,
                ;
            } else {
                assert(t.idx_strides[i] == 1);
            }
        }
    }
}

/// The first of the candidates that divides `unit`.
fn pick(unit: usize, candidates: &Vec<usize>) -> (r: Option<usize>)
    requires
        forall|i: int| 0 <= i < candidates@.len() ==> #[trigger] candidates@[i] > 0,
    ensures
        r == first_divisor(unit as int, candidates@),
{
    let mut i: usize = 0;
    assert(candidates@.subrange(0, candidates@.len() as int) =~= candidates@);
    while i < candidates.len()
        invariant
            i <= candidates@.len(),
            forall|i: int| 0 <= i < candidates@.len() ==> #[trigger] candidates@[i] > 0,
            first_divisor(unit as int, candidates@) == first_divisor(
                unit as int,
                candidates@.subrange(i as int, candidates@.len() as int),
            ),
        decreases candidates@.len() - i,
    {
        let c: usize = candidates[i];
        let ghost rest = candidates@.subrange(i as int, candidates@.len() as int);
        assert(rest[0] == c);
        assert(rest.drop_first() =~= candidates@.subrange(i + 1, candidates@.len() as int));
        if unit % c == 0 {
            return Some(c);
        }
        i = i + 1;
    }
    None
}

impl Rearranging {
    /// The same rearrangement in copies of the first candidate that divides
    /// the unit, or nothing where no candidate divides it. The candidates
    /// are taken in the order given, not by size. The scheme that comes back
    /// copies every byte that this one copies, and no other.
    pub fn distribute_unit(&self, candidates: Vec<usize>) -> (r: Option<Rearranging>)
        requires
            forall|i: int|
                0 <= i < candidates@.len() ==> 0 < #[trigger] candidates@[i] <= isize::MAX,
        ensures
            match r {
                Some(split) => {
                    &&& self@.distributed(candidates@) == Some(split@)
                    &&& split@.well_formed()
                    &&& split@.bounded()
                    &&& forall|to: int, from: int|
                        #[trigger] split@.copies(to, from) == self@.copies(to, from)
                },
                None => self@.distributed(candidates@) is None,
            },
    {
        let n: usize = self.ndim();
        let whole: usize = self.unit();
        let unit: usize = match pick(whole, &candidates) {
            Some(unit) => unit,
            None => {
                return None;
            },
        };
        if unit == whole {
            return Some(self.clone());
        }
        proof {
            lemma_first_divisor_is_candidate(whole as int, candidates@);
            assert(candidates@.contains(unit));
            lemma_divided_well_formed(self@, unit as int);
            assert forall|to: int, from: int| #[trigger]
                self@.divided(unit as int).copies(to, from) == self@.copies(to, from) by {
                lemma_divided_copies_the_same(self@, unit as int, to, from);
            }
        }
        let ghost target = self@.divided(unit as int);
        let extra: isize = (whole / unit) as isize;
        let idx = self.idx_strides();
        let old_dst = self.dst_strides();
        let old_src = self.src_strides();
        let count: isize = self.count() as isize;
        let dst_offset: isize = self.dst_offset();
        let src_offset: isize = self.src_offset();
        proof {
            let u = unit as int;
            let c = self@.count;
            let e = extra as int;
            assert(0 <= c * e <= u * (c * e)) by (nonlinear_arith)
                requires
                    u >= 1,
                    c >= 0,
                    e >= 0,
            ;
            assert(target.count == c * e);
        }
        let mut chain: Vec<isize> = Vec::new();
        let mut dst: Vec<isize> = Vec::new();
        let mut src: Vec<isize> = Vec::new();
        chain.push(count * extra);
        let mut i: usize = 0;
        while i < n
            invariant
                i <= n,
                n == self@.ndim(),
                ints(idx@) == self@.idx_strides,
                ints(old_dst@) == self@.dst_strides,
                ints(old_src@) == self@.src_strides,
                self@.well_formed(),
                target == self@.divided(unit as int),
                unit as int != self@.unit,
                extra as int == self@.unit / (unit as int),
                unit >= 1,
                target.well_formed(),
                target.bounded(),
                chain@.len() == i + 1,
                dst@.len() == i,
                src@.len() == i,
                chain@[0] as int == target.count,
                forall|j: int| 0 <= j < i ==> chain@[j + 1] as int == target.idx_strides[j],
                forall|j: int| 0 <= j < i ==> dst@[j] as int == target.dst_strides[j],
                forall|j: int| 0 <= j < i ==> src@[j] as int == target.src_strides[j],
            decreases n - i,
        {
            let stride: isize = idx[i];
            proof {
                let u = unit as int;
                let w = target.idx_strides[i as int];
                assert(ints(idx@)[i as int] == stride);
                assert(ints(old_dst@)[i as int] == old_dst@[i as int]);
                assert(ints(old_src@)[i as int] == old_src@[i as int]);
                assert(w == stride * extra);
                assert(target.linked(i as int));
                assert(u * w <= isize::MAX);
                assert(w <= u * w) by (nonlinear_arith)
                    requires
                        u >= 1,
                        w >= 0,
                ;
            }
            chain.push(stride * extra);
            dst.push(old_dst[i]);
            src.push(old_src[i]);
            i = i + 1;
        }
        chain.push(1);
        dst.push(unit as isize);
        src.push(unit as isize);
        proof {
            let given = parts(unit as isize, dst_offset, src_offset, chain@, dst@, src@);
            assert(given.idx_strides =~= target.idx_strides);
            assert(given.dst_strides =~= target.dst_strides);
            assert(given.src_strides =~= target.src_strides);
            assert(given == target);
        }
        Some(Rearranging::from_parts(unit as isize, dst_offset, src_offset, &chain, &dst, &src))
    }
}

/// The first divisor among the candidates is one of them and divides the
/// unit.
pub proof fn lemma_first_divisor_is_candidate(unit: int, candidates: Seq<usize>)
    ensures
        first_divisor(unit, candidates) matches Some(u) ==> candidates.contains(u) && unit % (
        u as int) == 0,
    decreases candidates.len(),
{
    if candidates.len() > 0 {
        if unit % (candidates[0] as int) == 0 {
            assert(candidates[0] == candidates[0]);
        } else {
            lemma_first_divisor_is_candidate(unit, candidates.drop_first());
            if first_divisor(unit, candidates) is Some {
                let u = first_divisor(unit, candidates)->Some_0;
                let k = choose|k: int|
                    0 <= k < candidates.drop_first().len() && candidates.drop_first()[k] == u;
                assert(candidates[k + 1] == u);
            }
        }
    }
}

/// Splitting a scheme made of axes puts one dense axis behind them.
pub proof fn lemma_divided_has_axes(
    unit: nat,
    dst_offset: int,
    src_offset: int,
    axes: Seq<Axis>,
    part: int,
)
    requires
        0 < part,
        part != unit,
        unit % (part as nat) == 0,
    ensures
        Scheme::of(unit, dst_offset, src_offset, axes).divided(part) == Scheme::of(
            part as nat,
            dst_offset,
            src_offset,
            axes.push(Axis { len: (unit / (part as nat)) as nat, dst: part, src: part }),
        ),
{
    let s = Scheme::of(unit, dst_offset, src_offset, axes);
    let extra = unit as int / part;
    assert(extra >= 0) by (nonlinear_arith)
        requires
            unit >= 0,
            part > 0,
            extra == unit as int / part,
    ;
    let more = axes.push(Axis { len: extra as nat, dst: part, src: part });
    let t = Scheme::of(part as nat, dst_offset, src_offset, more);
    let n = axes.len() as int;
    assert(more.drop_last() =~= axes);
    assert(volume_from(more, n + 1) == 1);
    assert forall|k: int| 0 <= k <= n implies volume_from(more, k) == volume_from(axes, k)
        * extra by {
        lemma_volume_from_drop_last(more, k);
    }
    assert(s.divided(part).idx_strides =~= t.idx_strides) by {
        assert forall|i: int| 0 <= i < n + 1 implies s.divided(part).idx_strides[i]
            == t.idx_strides[i] by {
            if i < n {
                assert(volume_from(more, i + 1) == volume_from(axes, i + 1) * extra);
            }
        }
    }
    assert(s.divided(part).dst_strides =~= t.dst_strides);
    assert(s.divided(part).src_strides =~= t.src_strides);
    assert(volume_from(more, 0) == volume_from(axes, 0) * extra);
}

/// Splitting the unit changes nothing of what is copied: the split scheme
/// takes every byte from where the scheme takes it to where the scheme
/// takes it, and no other.
pub proof fn lemma_divided_copies_the_same(s: Scheme, part: int, to: int, from: int)
    requires
        s.well_formed(),
        0 < part,
        s.unit % part == 0,
    ensures
        s.divided(part).copies(to, from) <==> s.copies(to, from),
{
    if part != s.unit {
        let unit = s.unit as nat;
        let axes = s.axes();
        let extra = s.unit / part;
        assert(extra >= 0 && s.unit == extra * part) by (nonlinear_arith)
            requires
                s.unit >= 0,
                part > 0,
                s.unit % part == 0,
                extra == s.unit / part,
        ;
        let inner = Axis { len: extra as nat, dst: part, src: part };
        lemma_scheme_has_axes(s);
        lemma_divided_has_axes(unit, s.dst_offset, s.src_offset, axes, part);
        lemma_scheme_copies(unit, s.dst_offset, s.src_offset, axes, to, from);
        lemma_scheme_copies(
            part as nat,
            s.dst_offset,
            s.src_offset,
            axes.push(inner),
            to,
            from,
        );
        assert(1 * part == part);
        lemma_fuse_equivalent(axes, inner, unit_axis(part as nat));
        assert(crate::axis::fuse(inner, unit_axis(part as nat)) == unit_axis(unit));
        assert(reaches(
            axes.push(inner).push(unit_axis(part as nat)),
            to - s.dst_offset,
            from - s.src_offset,
        ) == reaches(axes.push(unit_axis(unit)), to - s.dst_offset, from - s.src_offset));
    }
}

} // verus!
