//! Why an operation on a tensor is refused.

use vstd::prelude::*;

verus! {

/// Why an operation on a tensor is refused.
#[derive(Clone, Copy, Debug, PartialEq, Eq, Structural)]
pub enum TensorError {
    /// The element count of a shape is not that of the data or of the tensor.
    SizeMismatch,
    /// Two tensors that have to have the same shape do not.
    ShapeMismatch,
    /// There is not one entry for each dimension.
    RankMismatch,
    /// An axis is not a dimension of the tensor.
    AxisOutOfRange,
    /// A dimension is missing from, or occurs twice in, a permutation.
    NotAPermutation,
    /// A dimension that is not of size one would change.
    CannotExpand,
    /// Limits are out of order or beyond their dimension.
    LimitsOutOfRange,
    /// A reduction would leave no element.
    NothingLeft,
    /// No layout of the new shape lists the elements where they stand.
    NeedsCopy,
    /// A size, an offset or a stride is beyond what the host or the device can hold.
    TooLarge,
}

} // verus!
