use vstd::prelude::*;
use vstd::slice::slice_to_vec;

verus! {

/// What a layout says: the length of every axis, the signed byte stride of
/// every axis, and the signed byte offset of the element at the origin.
pub struct LayoutView {
    pub shape: Seq<usize>,
    pub strides: Seq<isize>,
    pub offset: isize,
}

impl LayoutView {
    /// The number of axes.
    pub open spec fn ndim(self) -> nat {
        self.shape.len()
    }

    /// Every axis has a length and a stride.
    pub open spec fn wf(self) -> bool {
        self.strides.len() == self.shape.len()
    }
}

/// A layout descriptor held as plain values.
#[derive(Debug)]
pub struct Layout {
    shape: Vec<usize>,
    strides: Vec<isize>,
    offset: isize,
}

impl View for Layout {
    type V = LayoutView;

    closed spec fn view(&self) -> LayoutView {
        LayoutView { shape: self.shape@, strides: self.strides@, offset: self.offset }
    }
}

impl Clone for Layout {
    fn clone(&self) -> (r: Self)
        ensures
            r@ == self@,
    {
        proof {
            use_type_invariant(self);
        }
        let shape = self.shape.clone();
        let strides = self.strides.clone();
        assert(shape@ =~= self.shape@);
        assert(strides@ =~= self.strides@);
        Layout { shape, strides, offset: self.offset }
    }
}

impl Layout {
    #[verifier::type_invariant]
    spec fn inv(self) -> bool {
        self.shape@.len() == self.strides@.len()
    }

    /// A layout of the given shape, strides and offset.
    pub fn new(shape: &[usize], strides: &[isize], offset: isize) -> (r: Layout)
        requires
            shape@.len() == strides@.len(),
        ensures
            r@.shape == shape@,
            r@.strides == strides@,
            r@.offset == offset,
    {
        Layout { shape: slice_to_vec(shape), strides: slice_to_vec(strides), offset }
    }

    /// The number of axes.
    pub fn ndim(&self) -> (n: usize)
        ensures
            n == self@.ndim(),
            self@.wf(),
    {
        proof {
            use_type_invariant(self);
        }
        self.shape.len()
    }

    /// The length of every axis.
    pub fn shape(&self) -> (s: &[usize])
        ensures
            s@ == self@.shape,
    {
        self.shape.as_slice()
    }

    /// The byte stride of every axis.
    pub fn strides(&self) -> (s: &[isize])
        ensures
            s@ == self@.strides,
    {
        self.strides.as_slice()
    }

    /// The byte offset of the element at the origin.
    pub fn offset(&self) -> (o: isize)
        ensures
            o == self@.offset,
    {
        self.offset
    }
}

} // verus!
