use vstd::prelude::*;
use crate::axis::{
    axes, bulk, girth, lemma_bulk_positive, lemma_len_within_bulk, Axis, Dim,
};
use crate::seqs::{append, reversed};

verus! {

/// The product of the lengths of the axes from position `from` inwards.
pub open spec fn volume_from(axes: Seq<Axis>, from: int) -> nat
    decreases axes.len() - from,
{
    if 0 <= from < axes.len() {
        axes[from].len * volume_from(axes, from + 1)
    } else {
        1
    }
}

/// The product of the lengths of all the axes.
pub open spec fn volume(axes: Seq<Axis>) -> nat {
    volume_from(axes, 0)
}

/// The words of a buffer as integers.
pub open spec fn ints(words: Seq<isize>) -> Seq<int> {
    words.map_values(|w: isize| w as int)
}

/// The lengths of a shape as integers.
pub open spec fn lengths(shape: Seq<usize>) -> Seq<int> {
    shape.map_values(|l: usize| l as int)
}

/// What a rearrangement scheme says.
///
/// An executor makes `count` elementary copies of `unit` bytes. It splits
/// the linear index of a copy into one coordinate per axis by dividing by the
/// index strides in turn, and adds to each base offset the coordinates times
/// the byte strides of that side.
pub struct Scheme {
    /// Bytes per elementary copy.
    pub unit: int,
    /// Bytes added to the destination base.
    pub dst_offset: int,
    /// Bytes added to the source base.
    pub src_offset: int,
    /// The number of elementary copies.
    pub count: int,
    /// For each axis, the number of copies that one step along it spans.
    pub idx_strides: Seq<int>,
    /// For each axis, the bytes that one step moves in the destination.
    pub dst_strides: Seq<int>,
    /// For each axis, the bytes that one step moves in the source.
    pub src_strides: Seq<int>,
}

impl Scheme {
    /// The number of axes.
    pub open spec fn ndim(self) -> nat {
        self.idx_strides.len()
    }

    /// The number of copies that the axes from `i` inwards span together:
    /// the index stride of the axis before `i`, and `count` for the first.
    pub open spec fn outer(self, i: int) -> int {
        if i == 0 {
            self.count
        } else {
            self.idx_strides[i - 1]
        }
    }

    /// The length of axis `i`, recovered from the index strides.
    pub open spec fn len_at(self, i: int) -> int {
        self.outer(i) / self.idx_strides[i]
    }

    /// The lengths of all the axes, recovered from the index strides.
    pub open spec fn shape(self) -> Seq<int> {
        Seq::new(self.ndim(), |i: int| self.len_at(i))
    }

    /// Axis `i` spans its own index stride times its length.
    pub open spec fn linked(self, i: int) -> bool {
        self.idx_strides[i] >= 0 && self.outer(i) == self.idx_strides[i] * self.len_at(i)
    }

    /// The index strides are products of lengths: the innermost is one, each
    /// is the next one inwards times that axis's length, and `count` closes
    /// the chain.
    pub open spec fn well_formed(self) -> bool {
        &&& self.dst_strides.len() == self.ndim()
        &&& self.src_strides.len() == self.ndim()
        &&& self.unit >= 0
        &&& self.count >= 0
        &&& self.ndim() == 0 ==> self.count == 1
        &&& self.ndim() > 0 ==> self.idx_strides[self.ndim() - 1] == 1
        &&& forall|i: int| 0 <= i < self.ndim() ==> #[trigger] self.linked(i)
    }

    /// The unit, the count, and the bytes spanned by all the copies and by
    /// one step of every axis can each be counted in a machine word.
    pub open spec fn bounded(self) -> bool {
        &&& self.unit <= isize::MAX
        &&& self.count <= isize::MAX
        &&& forall|i: int| 0 <= i < self.ndim() ==> #[trigger] self.idx_strides[i] <= isize::MAX
        &&& self.unit * self.count <= isize::MAX
        &&& forall|i: int|
            0 <= i < self.ndim() ==> self.unit * #[trigger] self.idx_strides[i] <= isize::MAX
    }

    /// The scheme that walks `axes`, outermost first, in copies of `unit`
    /// bytes.
    pub open spec fn of(unit: nat, dst_offset: int, src_offset: int, axes: Seq<Axis>) -> Scheme {
        Scheme {
            unit: unit as int,
            dst_offset,
            src_offset,
            count: volume(axes) as int,
            idx_strides: Seq::new(axes.len(), |i: int| volume_from(axes, i + 1) as int),
            dst_strides: Seq::new(axes.len(), |i: int| axes[i].dst),
            src_strides: Seq::new(axes.len(), |i: int| axes[i].src),
        }
    }
}

/// Setting the last axis apart divides the volume by its length.
pub proof fn lemma_volume_from_drop_last(s: Seq<Axis>, k: int)
    requires
        0 <= k < s.len(),
    ensures
        volume_from(s, k) == volume_from(s.drop_last(), k) * s.last().len,
    decreases s.len() - k,
{
    let front = s.drop_last();
    let t = s.last().len;
    if k == s.len() - 1 {
        assert(volume_from(s, k + 1) == 1);
        assert(volume_from(front, k) == 1);
        assert(volume_from(s, k) == t * 1);
        assert(t * 1 == 1 * t) by (nonlinear_arith);
    } else {
        lemma_volume_from_drop_last(s, k + 1);
        let l = s[k].len;
        let v = volume_from(front, k + 1);
        assert(front[k] == s[k]);
        assert(volume_from(s, k) == l * volume_from(s, k + 1));
        assert(volume_from(s, k + 1) == v * t);
        assert(volume_from(front, k) == l * v);
        assert(l * (v * t) == (l * v) * t) by (nonlinear_arith);
    }
}

/// No product of the lengths of inner axes exceeds the bulk.
pub proof fn lemma_volume_within_bulk(s: Seq<Axis>, k: int)
    requires
        0 <= k <= s.len(),
    ensures
        volume_from(s, k) <= bulk(s),
    decreases s.len(),
{
    lemma_bulk_positive(s);
    if k < s.len() {
        lemma_volume_from_drop_last(s, k);
        lemma_volume_within_bulk(s.drop_last(), k);
        let v = volume_from(s.drop_last(), k);
        let b = bulk(s.drop_last());
        let l = s.last().len;
        let g = girth(l);
        assert(v * l <= b * g) by (nonlinear_arith)
            requires
                0 <= v <= b,
                0 <= l <= g,
        ;
    }
}

/// The index strides of a scheme made of axes are products of their lengths:
/// the count is the product of all of them, the innermost index stride is
/// one, and every axis spans its index stride times its own length.
pub proof fn lemma_of_well_formed(unit: nat, dst_offset: int, src_offset: int, axes: Seq<Axis>)
    ensures
        Scheme::of(unit, dst_offset, src_offset, axes).well_formed(),
        Scheme::of(unit, dst_offset, src_offset, axes).ndim() == axes.len(),
        Scheme::of(unit, dst_offset, src_offset, axes).count == volume(axes),
        forall|i: int|
            #![trigger axes[i]]
            0 <= i < axes.len() ==> {
                let s = Scheme::of(unit, dst_offset, src_offset, axes);
                &&& s.outer(i) == s.idx_strides[i] * axes[i].len
                &&& s.idx_strides[i] != 0 ==> s.len_at(i) == axes[i].len
            },
{
    let s = Scheme::of(unit, dst_offset, src_offset, axes);
    assert forall|i: int| 0 <= i < axes.len() implies s.linked(i) && s.outer(i)
        == s.idx_strides[i] * axes[i].len && (s.idx_strides[i] != 0 ==> s.len_at(i)
        == axes[i].len) by {
        let inner = s.idx_strides[i];
        let outer = s.outer(i);
        let l = axes[i].len as int;
        let q = s.len_at(i);
        assert(inner == volume_from(axes, i + 1));
        assert(outer == volume_from(axes, i));
        assert(volume_from(axes, i) == axes[i].len * volume_from(axes, i + 1));
        assert(outer == l * inner);
        assert(l * inner == inner * l) by (nonlinear_arith);
        assert(q == outer / inner);
        if inner != 0 {
            assert(outer / inner == l) by (nonlinear_arith)
                requires
                    inner > 0,
                    outer == inner * l,
            ;
        } else {
            assert(outer == 0 && inner * q == 0) by (nonlinear_arith)
                requires
                    inner == 0,
                    outer == inner * l,
            ;
        }
        assert(outer == inner * q);
    }
}

/// A scheme made of axes counts its bytes within the bound on the axes.
pub proof fn lemma_of_bounded(unit: nat, dst_offset: int, src_offset: int, axes: Seq<Axis>)
    requires
        girth(unit) * bulk(axes) <= isize::MAX,
    ensures
        Scheme::of(unit, dst_offset, src_offset, axes).bounded(),
{
    let s = Scheme::of(unit, dst_offset, src_offset, axes);
    let b = bulk(axes);
    let g = girth(unit);
    lemma_bulk_positive(axes);
    assert(unit <= g * b && b <= g * b) by (nonlinear_arith)
        requires
            0 <= unit <= g,
            g >= 1,
            b >= 1,
    ;
    assert forall|k: int| 0 <= k <= axes.len() implies unit * volume_from(axes, k)
        <= isize::MAX && volume_from(axes, k) <= isize::MAX by {
        lemma_volume_within_bulk(axes, k);
        let v = volume_from(axes, k);
        assert(unit * v <= g * b) by (nonlinear_arith)
            requires
                0 <= unit <= g,
                0 <= v <= b,
        ;
    }
    assert(unit * volume_from(axes, 0) <= isize::MAX);
    assert forall|i: int| 0 <= i < s.ndim() implies #[trigger] s.idx_strides[i]
        <= isize::MAX by {
        assert(volume_from(axes, i + 1) <= isize::MAX);
    }
    assert forall|i: int| 0 <= i < s.ndim() implies s.unit * #[trigger] s.idx_strides[i]
        <= isize::MAX by {
        assert(unit * volume_from(axes, i + 1) <= isize::MAX);
    }
}

impl Scheme {
    /// The axes of the scheme, outermost first, their lengths recovered
    /// from the index strides.
    pub open spec fn axes(self) -> Seq<Axis> {
        Seq::new(
            self.ndim(),
            |i: int|
                Axis {
                    len: if self.len_at(i) >= 0 {
                        self.len_at(i) as nat
                    } else {
                        0
                    },
                    dst: self.dst_strides[i],
                    src: self.src_strides[i],
                },
        )
    }
}

/// In a well-formed scheme, the axes from `k` inwards span the product of
/// their lengths.
pub proof fn lemma_chain(s: Scheme, k: int)
    requires
        s.well_formed(),
        0 <= k <= s.ndim(),
    ensures
        k < s.ndim() ==> volume_from(s.axes(), k) == s.outer(k),
        k == s.ndim() ==> volume_from(s.axes(), k) == 1,
    decreases s.ndim() - k,
{
    if k < s.ndim() {
        lemma_chain(s, k + 1);
        let inner = s.idx_strides[k];
        let outer = s.outer(k);
        let q = s.len_at(k);
        let len = s.axes()[k].len as int;
        assert(s.linked(k));
        if k > 0 {
            assert(s.linked(k - 1));
        }
        assert(volume_from(s.axes(), k + 1) == inner);
        assert(len * inner == outer) by (nonlinear_arith)
            requires
                outer == inner * q,
                inner >= 0,
                outer >= 0,
                len == if q >= 0 {
                    q
                } else {
                    0
                },
        ;
    }
}

/// Every well-formed scheme is the scheme of its axes.
pub proof fn lemma_scheme_has_axes(s: Scheme)
    requires
        s.well_formed(),
    ensures
        s == Scheme::of(s.unit as nat, s.dst_offset, s.src_offset, s.axes()),
{
    let t = Scheme::of(s.unit as nat, s.dst_offset, s.src_offset, s.axes());
    lemma_chain(s, 0);
    assert forall|i: int| 0 <= i < s.ndim() implies s.idx_strides[i] == t.idx_strides[i] by {
        lemma_chain(s, i + 1);
    }
    assert(s.idx_strides =~= t.idx_strides);
    assert(s.dst_strides =~= t.dst_strides);
    assert(s.src_strides =~= t.src_strides);
}

/// The scheme whose words are given part by part: `chain` holds the count
/// and then the index strides.
pub open spec fn parts(
    unit: isize,
    dst_offset: isize,
    src_offset: isize,
    chain: Seq<isize>,
    dst: Seq<isize>,
    src: Seq<isize>,
) -> Scheme {
    Scheme {
        unit: unit as int,
        dst_offset: dst_offset as int,
        src_offset: src_offset as int,
        count: chain[0] as int,
        idx_strides: ints(chain.subrange(1, chain.len() as int)),
        dst_strides: ints(dst),
        src_strides: ints(src),
    }
}

/// A rearrangement scheme, packed into one buffer of `4 + 3 * ndim` words:
/// the unit, the destination offset, the source offset, the count, then the
/// index strides, the destination strides and the source strides.
#[derive(Debug)]
pub struct Rearranging(Vec<isize>);

/// The scheme that a buffer of words holds.
pub closed spec fn unpacked(words: Seq<isize>) -> Scheme {
    let n = (words.len() - 4) / 3;
    Scheme {
        unit: words[0] as int,
        dst_offset: words[1] as int,
        src_offset: words[2] as int,
        count: words[3] as int,
        idx_strides: Seq::new(n as nat, |i: int| words[4 + i] as int),
        dst_strides: Seq::new(n as nat, |i: int| words[4 + n + i] as int),
        src_strides: Seq::new(n as nat, |i: int| words[4 + 2 * n + i] as int),
    }
}

impl View for Rearranging {
    type V = Scheme;

    closed spec fn view(&self) -> Scheme {
        unpacked(self.0@)
    }
}

impl Clone for Rearranging {
    fn clone(&self) -> (r: Self)
        ensures
            r@ == self@,
    {
        proof {
            use_type_invariant(self);
        }
        let words = self.0.clone();
        assert(words@ =~= self.0@);
        Rearranging(words)
    }
}

impl Rearranging {
    #[verifier::type_invariant]
    spec fn inv(self) -> bool {
        &&& self.0@.len() >= 4
        &&& (self.0@.len() - 4) % 3 == 0
        &&& self@.well_formed()
        &&& self@.bounded()
    }

    /// Packs the parts of a scheme into its buffer.
    pub(crate) fn from_parts(
        unit: isize,
        dst_offset: isize,
        src_offset: isize,
        chain: &Vec<isize>,
        dst: &Vec<isize>,
        src: &Vec<isize>,
    ) -> (r: Rearranging)
        requires
            chain@.len() == dst@.len() + 1,
            src@.len() == dst@.len(),
            parts(unit, dst_offset, src_offset, chain@, dst@, src@).well_formed(),
            parts(unit, dst_offset, src_offset, chain@, dst@, src@).bounded(),
        ensures
            r@ == parts(unit, dst_offset, src_offset, chain@, dst@, src@),
    {
        let mut words: Vec<isize> = Vec::new();
        words.push(unit);
        words.push(dst_offset);
        words.push(src_offset);
        append(&mut words, chain);
        append(&mut words, dst);
        append(&mut words, src);
        proof {
            let n = dst@.len() as int;
            let target = parts(unit, dst_offset, src_offset, chain@, dst@, src@);
            let held = unpacked(words@);
            assert(words@.len() == 4 + 3 * n);
            assert(held.idx_strides =~= target.idx_strides);
            assert(held.dst_strides =~= target.dst_strides);
            assert(held.src_strides =~= target.src_strides);
            assert(held == target);
        }
        Rearranging(words)
    }

    /// The scheme that walks `dims`, outermost first, in copies of `unit`
    /// bytes.
    pub(crate) fn assemble(unit: isize, dst_offset: isize, src_offset: isize, dims: &Vec<Dim>) -> (r:
        Rearranging)
        requires
            unit >= 0,
            girth(unit as nat) * bulk(axes(dims@)) <= isize::MAX,
        ensures
            r@ == Scheme::of(unit as nat, dst_offset as int, src_offset as int, axes(dims@)),
    {
        let ghost ax = axes(dims@);
        let n: usize = dims.len();
        proof {
            lemma_bulk_positive(ax);
            let g = girth(unit as nat);
            let b = bulk(ax);
            assert(b <= g * b) by (nonlinear_arith)
                requires
                    g >= 1,
                    b >= 0,
            ;
        }
        let mut spans: Vec<isize> = Vec::new();
        spans.push(1);
        let mut k: usize = n;
        while k > 0
            invariant
                k <= n,
                n == dims@.len(),
                ax == axes(dims@),
                bulk(ax) <= isize::MAX,
                spans@.len() == n - k + 1,
                forall|j: int| 0 <= j <= n - k ==> spans@[j] as int == volume_from(ax, n - j),
            decreases k,
        {
            k = k - 1;
            let inner: isize = spans[n - k - 1];
            let d: Dim = dims[k];
            proof {
                lemma_volume_within_bulk(ax, k as int);
                lemma_len_within_bulk(ax, k as int);
                assert(ax[k as int] == d@);
                assert(inner as int == volume_from(ax, k + 1));
            }
            let span: isize = (d.len as isize) * inner;
            spans.push(span);
        }
        let chain = reversed(&spans);
        let mut dst: Vec<isize> = Vec::new();
        let mut src: Vec<isize> = Vec::new();
        let mut i: usize = 0;
        while i < n
            invariant
                i <= n,
                n == dims@.len(),
                dst@.len() == i,
                src@.len() == i,
                forall|j: int| 0 <= j < i ==> dst@[j] == dims@[j].dst && src@[j] == dims@[j].src,
            decreases n - i,
        {
            dst.push(dims[i].dst);
            src.push(dims[i].src);
            i = i + 1;
        }
        proof {
            let target = Scheme::of(unit as nat, dst_offset as int, src_offset as int, ax);
            let given = parts(unit, dst_offset, src_offset, chain@, dst@, src@);
            lemma_of_well_formed(unit as nat, dst_offset as int, src_offset as int, ax);
            lemma_of_bounded(unit as nat, dst_offset as int, src_offset as int, ax);
            assert(given.idx_strides =~= target.idx_strides);
            assert(given.dst_strides =~= target.dst_strides);
            assert(given.src_strides =~= target.src_strides);
            assert(given == target);
        }
        Rearranging::from_parts(unit, dst_offset, src_offset, &chain, &dst, &src)
    }

    /// The number of axes.
    pub fn ndim(&self) -> (n: usize)
        ensures
            n == self@.ndim(),
            self@.well_formed(),
            self@.bounded(),
    {
        proof {
            use_type_invariant(self);
        }
        (self.0.len() - 4) / 3
    }

    /// Bytes per elementary copy.
    pub fn unit(&self) -> (u: usize)
        ensures
            u == self@.unit,
    {
        proof {
            use_type_invariant(self);
        }
        self.0[0] as usize
    }

    /// Bytes added to the destination base.
    pub fn dst_offset(&self) -> (o: isize)
        ensures
            o == self@.dst_offset,
    {
        proof {
            use_type_invariant(self);
        }
        self.0[1]
    }

    /// Bytes added to the source base.
    pub fn src_offset(&self) -> (o: isize)
        ensures
            o == self@.src_offset,
    {
        proof {
            use_type_invariant(self);
        }
        self.0[2]
    }

    /// The number of elementary copies.
    pub fn count(&self) -> (c: usize)
        ensures
            c == self@.count,
    {
        proof {
            use_type_invariant(self);
        }
        self.0[3] as usize
    }

    /// The index strides, outermost axis first.
    pub fn idx_strides(&self) -> (s: &[isize])
        ensures
            ints(s@) == self@.idx_strides,
    {
        proof {
            use_type_invariant(self);
        }
        let n = (self.0.len() - 4) / 3;
        let s = vstd::slice::slice_subrange(self.0.as_slice(), 4, 4 + n);
        assert(ints(s@) =~= self@.idx_strides);
        s
    }

    /// The destination strides in bytes, outermost axis first.
    pub fn dst_strides(&self) -> (s: &[isize])
        ensures
            ints(s@) == self@.dst_strides,
    {
        proof {
            use_type_invariant(self);
        }
        let n = (self.0.len() - 4) / 3;
        let s = vstd::slice::slice_subrange(self.0.as_slice(), 4 + n, 4 + 2 * n);
        assert(ints(s@) =~= self@.dst_strides);
        s
    }

    /// The source strides in bytes, outermost axis first.
    pub fn src_strides(&self) -> (s: &[isize])
        ensures
            ints(s@) == self@.src_strides,
    {
        proof {
            use_type_invariant(self);
        }
        let n = (self.0.len() - 4) / 3;
        let s = vstd::slice::slice_subrange(self.0.as_slice(), 4 + 2 * n, 4 + 3 * n);
        assert(ints(s@) =~= self@.src_strides);
        s
    }

    /// The length of every axis, outermost first: each index stride divides
    /// the one before it, and the first divides the count.
    pub fn shape(&self) -> (lens: Vec<usize>)
        requires
            forall|i: int| 0 <= i < self@.ndim() ==> self@.idx_strides[i] != 0,
        ensures
            lengths(lens@) == self@.shape(),
    {
        proof {
            use_type_invariant(self);
        }
        let total = self.0.len();
        let n = (total - 4) / 3;
        let mut lens: Vec<usize> = Vec::new();
        let mut i: usize = 0;
        while i < n
            invariant
                i <= n,
                n == self@.ndim(),
                total == 4 + 3 * n,
                self.0@.len() == total,
                self@.well_formed(),
                forall|j: int| 0 <= j < self@.ndim() ==> self@.idx_strides[j] != 0,
                lens@.len() == i,
                forall|j: int| 0 <= j < i ==> lens@[j] as int == self@.len_at(j),
            decreases n - i,
        {
            let outer = self.0[3 + i];
            let inner = self.0[4 + i];
            proof {
                assert(self@.linked(i as int));
                assert(inner as int == self@.idx_strides[i as int]);
                assert(outer as int == self@.outer(i as int));
                if i > 0 {
                    assert(self@.linked(i - 1));
                }
                assert(outer >= 0);
                assert(inner > 0);
                vstd::arithmetic::div_mod::lemma_div_pos_is_pos(outer as int, inner as int);
            }
            lens.push((outer / inner) as usize);
            i += 1;
        }
        assert(lengths(lens@) =~= self@.shape());
        lens
    }
}

} // verus!
