use vstd::prelude::*;

verus! {

/// Why two layouts cannot be turned into a scheme.
#[derive(Clone, Copy, PartialEq, Eq, Hash, Debug, Structural)]
pub enum SchemeError {
    /// The layouts differ in the number of axes or in the length of an axis.
    ShapeMismatch,
    /// An axis that is kept has a destination stride of zero, so several
    /// source elements would be written to one place.
    DimReduce,
}

} // verus!
