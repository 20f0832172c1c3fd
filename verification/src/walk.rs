use vstd::arithmetic::div_mod::{lemma_fundamental_div_mod, lemma_mod_mod, lemma_small_mod};
use vstd::prelude::*;
use crate::scheme::{ints, Rearranging, Scheme};

verus! {

/// An offset that a machine word can hold.
pub open spec fn in_word(x: int) -> bool {
    isize::MIN <= x <= isize::MAX
}

impl Scheme {
    /// The coordinate along axis `i` of the copy with the linear index
    /// `index`: what is left of the index within the axes from `i` inwards,
    /// divided by the index stride of `i`.
    pub open spec fn coordinate(self, index: int, i: int) -> int {
        (index % self.outer(i)) / self.idx_strides[i]
    }

    /// The destination offset of a copy, counting the first `n` axes only.
    pub open spec fn dst_upto(self, index: int, n: int) -> int
        decreases n,
    {
        if n <= 0 {
            self.dst_offset
        } else {
            self.dst_upto(index, n - 1) + self.coordinate(index, n - 1) * self.dst_strides[n - 1]
        }
    }

    /// The source offset of a copy, counting the first `n` axes only.
    pub open spec fn src_upto(self, index: int, n: int) -> int
        decreases n,
    {
        if n <= 0 {
            self.src_offset
        } else {
            self.src_upto(index, n - 1) + self.coordinate(index, n - 1) * self.src_strides[n - 1]
        }
    }

    /// The byte offset from the destination base at which the copy with the
    /// linear index `index` writes.
    pub open spec fn dst_at(self, index: int) -> int {
        self.dst_upto(index, self.ndim() as int)
    }

    /// The byte offset from the source base at which the copy with the
    /// linear index `index` reads.
    pub open spec fn src_at(self, index: int) -> int {
        self.src_upto(index, self.ndim() as int)
    }
}

/// The largest number of steps, plus one, that a stride can be long.
spec fn word() -> int {
    isize::MAX + 1
}

/// One more coordinate moves an offset by at most a word for every step.
proof fn lemma_step_within(acc: int, base: int, steps: int, k: int, stride: int)
    requires
        base - steps * word() <= acc <= base + steps * word(),
        0 <= k,
        0 <= steps,
        isize::MIN <= stride <= isize::MAX,
    ensures
        base - (steps + k) * word() <= acc + k * stride <= base + (steps + k) * word(),
        -(k * word()) <= k * stride <= k * word(),
{
    let w = word();
    assert(-(k * w) <= k * stride <= k * w && (steps + k) * w == steps * w + k * w)
        by (nonlinear_arith)
        requires
            0 <= k,
            -w <= stride <= w,
    ;
}

impl Rearranging {
    /// Where the copy with the linear index `index` writes and reads: the
    /// byte offsets from the destination base and from the source base. It
    /// is nothing where one of the two does not fit a machine word.
    pub fn locate(&self, index: usize) -> (r: Option<(isize, isize)>)
        requires
            index < self@.count,
        ensures
            match r {
                Some((dst, src)) => dst == self@.dst_at(index as int) && src == self@.src_at(
                    index as int,
                ),
                None => !in_word(self@.dst_at(index as int)) || !in_word(
                    self@.src_at(index as int),
                ),
            },
    {
        let n: usize = self.ndim();
        let idx = self.idx_strides();
        let dsts = self.dst_strides();
        let srcs = self.src_strides();
        let mut rem: isize = index as isize;
        let mut dst: i128 = self.dst_offset() as i128;
        let mut src: i128 = self.src_offset() as i128;
        let ghost mut steps: int = 0;
        let mut i: usize = 0;
        proof {
            lemma_small_mod(index as nat, self@.count as nat);
            assert(isize::MAX <= 0x7fff_ffff_ffff_ffff);
        }
        while i < n
            invariant
                i <= n,
                n == self@.ndim(),
                self@.well_formed(),
                self@.bounded(),
                ints(idx@) == self@.idx_strides,
                ints(dsts@) == self@.dst_strides,
                ints(srcs@) == self@.src_strides,
                index <= isize::MAX,
                isize::MAX <= 0x7fff_ffff_ffff_ffff,
                0 <= rem,
                i < n ==> rem == (index as int) % self@.outer(i as int) && self@.outer(i as int) > 0,
                dst == self@.dst_upto(index as int, i as int),
                src == self@.src_upto(index as int, i as int),
                0 <= steps,
                steps + rem <= index,
                in_word(self@.dst_offset),
                in_word(self@.src_offset),
                self@.dst_offset - steps * word() <= dst <= self@.dst_offset + steps * word(),
                self@.src_offset - steps * word() <= src <= self@.src_offset + steps * word(),
            decreases n - i,
        {
            let stride: isize = idx[i];
            let dst_stride: isize = dsts[i];
            let src_stride: isize = srcs[i];
            proof {
                let outer = self@.outer(i as int);
                let len = self@.len_at(i as int);
                assert(self@.linked(i as int));
                assert(ints(idx@)[i as int] == stride);
                assert(ints(dsts@)[i as int] == dst_stride);
                assert(ints(srcs@)[i as int] == src_stride);
                assert(stride > 0 && len > 0) by (nonlinear_arith)
                    requires
                        outer > 0,
                        stride >= 0,
                        outer == stride * len,
                ;
                lemma_mod_mod(index as int, stride as int, len);
                lemma_fundamental_div_mod(rem as int, stride as int);
                let k = (rem as int) / (stride as int);
                let left = (rem as int) % (stride as int);
                assert(0 <= k && k <= stride * k && 0 <= left) by (nonlinear_arith)
                    requires
                        rem >= 0,
                        stride >= 1,
                        rem == stride * k + left,
                        0 <= left < stride,
                ;
                assert(k == self@.coordinate(index as int, i as int));
                lemma_step_within(dst as int, self@.dst_offset, steps, k, dst_stride as int);
                lemma_step_within(src as int, self@.src_offset, steps, k, src_stride as int);
                let w = word();
                assert((steps + k) * w <= w * w && k * w <= w * w) by (nonlinear_arith)
                    requires
                        0 <= k,
                        0 <= steps,
                        steps + k <= w,
                        w >= 0,
                ;
                assert(w * w <= 0x4000_0000_0000_0000_0000_0000_0000_0000) by (nonlinear_arith)
                    requires
                        0 <= w <= 0x8000_0000_0000_0000,
                ;
                steps = steps + k;
            }
            let k: isize = rem / stride;
            dst = dst + (k as i128) * (dst_stride as i128);
            src = src + (k as i128) * (src_stride as i128);
            rem = rem % stride;
            i = i + 1;
        }
        if dst < isize::MIN as i128 || dst > isize::MAX as i128 || src < isize::MIN as i128 || src
            > isize::MAX as i128 {
            None
        } else {
            Some((dst as isize, src as isize))
        }
    }
}

} // verus!
