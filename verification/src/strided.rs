//! Strided layouts: where in a buffer the elements of a tensor stand.

use vstd::arithmetic::div_mod::*;
use vstd::arithmetic::mul::*;
use vstd::prelude::*;

use crate::shape;

verus! {

/// A layout. The element with multi-index `index` stands at `offset + shape::dot(index, strides)`.
#[verifier::ext_equal]
pub struct Strided {
    pub shape: Seq<usize>,
    pub strides: Seq<usize>,
    pub offset: usize,
}

/// The strides of a row-major tensor without gaps: each is the element count of the
/// dimensions inside it.
pub open spec fn contiguous_strides(shape: Seq<usize>) -> Seq<usize> {
    Seq::new(shape.len(), |i: int| shape::numel(shape.skip(i + 1)) as usize)
}

/// The multi-index of the last element.
pub open spec fn last_index(shape: Seq<usize>) -> Seq<int> {
    Seq::new(shape.len(), |i: int| shape[i] - 1)
}

/// The dimensions that limits leave.
pub open spec fn cropped_shape(limits: Seq<(usize, usize)>) -> Seq<usize> {
    Seq::new(limits.len(), |i: int| (limits[i].1 - limits[i].0) as usize)
}

/// The lower ends of a sequence of pairs.
pub open spec fn starts(limits: Seq<(usize, usize)>) -> Seq<int> {
    Seq::new(limits.len(), |i: int| limits[i].0 as int)
}

/// The dimensions with what is added before and after each.
pub open spec fn padded_shape(shape: Seq<usize>, padding: Seq<(usize, usize)>) -> Seq<usize> {
    Seq::new(shape.len(), |i: int| (padding[i].0 + shape[i] + padding[i].1) as usize)
}

/// Whether the padded dimensions, and a contiguous tensor of them, can be held.
pub open spec fn pad_fits(shape: Seq<usize>, padding: Seq<(usize, usize)>) -> bool {
    &&& forall|i: int|
        0 <= i < shape.len() ==> #[trigger] padding[i].0 + shape[i] + padding[i].1 <= usize::MAX
    &&& shape::fits(padded_shape(shape, padding))
}

/// The shape with size one along `axes`: what a reduction over them leaves.
pub open spec fn kept_shape(shape: Seq<usize>, axes: Seq<usize>) -> Seq<usize> {
    Seq::new(
        shape.len(),
        |i: int|
            if axes.contains(i as usize) {
                1
            } else {
                shape[i]
            },
    )
}

/// The shape with size one except along `axes`: what a reduction over them goes through.
pub open spec fn reduced_shape(shape: Seq<usize>, axes: Seq<usize>) -> Seq<usize> {
    Seq::new(
        shape.len(),
        |i: int|
            if axes.contains(i as usize) {
                shape[i]
            } else {
                1
            },
    )
}

/// How far from the first element the one with row-major number `k` stands.
pub open spec fn walk(shape: Seq<usize>, strides: Seq<usize>, k: int) -> int {
    shape::dot(shape::unravel(shape, k), strides)
}

impl Strided {
    /// The row-major layout without gaps.
    pub open spec fn contiguous(shape: Seq<usize>) -> Strided {
        Strided { shape, strides: contiguous_strides(shape), offset: 0 }
    }

    /// The number of elements.
    pub open spec fn numel(self) -> nat {
        shape::numel(self.shape)
    }

    /// Where the element with the given multi-index stands.
    pub open spec fn index_of(self, index: Seq<int>) -> int {
        self.offset + shape::dot(index, self.strides)
    }

    /// Where the element with row-major number `k` stands.
    pub open spec fn position(self, k: int) -> int {
        self.index_of(shape::unravel(self.shape, k))
    }

    /// Where the last element stands.
    pub open spec fn last_position(self) -> int {
        self.index_of(last_index(self.shape))
    }

    /// A stride for each dimension, an element count that can be held in a `usize`, and no
    /// element beyond what a `usize` can address.
    pub open spec fn wf(self) -> bool {
        &&& self.shape.len() == self.strides.len()
        &&& self.numel() <= usize::MAX
        &&& self.numel() > 0 ==> self.last_position() <= usize::MAX
    }

    /// The elements stand one after the other, from the offset on.
    pub open spec fn is_contiguous(self) -> bool {
        forall|k: int| 0 <= k < self.numel() ==> #[trigger] self.position(k) == self.offset + k
    }

    /// Every element stands inside a buffer of `len` elements.
    pub open spec fn within(self, len: nat) -> bool {
        forall|index: Seq<int>|
            shape::in_bounds(index, self.shape) ==> 0 <= #[trigger] self.index_of(index) < len
    }

    /// The layout with its dimensions moved: dimension `i` of it is dimension `permutation[i]`.
    pub open spec fn permute(self, permutation: Seq<usize>) -> Strided {
        Strided {
            shape: shape::permuted(self.shape, permutation),
            strides: shape::permuted(self.strides, permutation),
            offset: self.offset,
        }
    }

    /// The layout that repeats the element of each dimension of size one that grows.
    pub open spec fn expand(self, shape: Seq<usize>) -> Strided {
        Strided {
            shape,
            strides: Seq::new(
                shape.len(),
                |i: int|
                    if self.shape[i] == shape[i] {
                        self.strides[i]
                    } else {
                        0
                    },
            ),
            offset: self.offset,
        }
    }

    /// The part of the layout between the given limits, the upper ones excluded. A part without
    /// elements keeps the offset.
    pub open spec fn crop(self, limits: Seq<(usize, usize)>) -> Strided {
        Strided {
            shape: cropped_shape(limits),
            strides: self.strides,
            offset: if shape::numel(cropped_shape(limits)) == 0 {
                self.offset
            } else {
                self.index_of(starts(limits)) as usize
            },
        }
    }

    /// The strides of the one layout of the given shape that can list the same elements: where a
    /// dimension has a second element, the step to it is fixed by where that element stands. A
    /// dimension of size one has its contiguous stride.
    pub open spec fn view_strides(self, shape: Seq<usize>) -> Seq<usize> {
        Seq::new(
            shape.len(),
            |j: int|
                if shape[j] == 1 {
                    shape::numel(shape.skip(j + 1)) as usize
                } else {
                    (self.position(shape::numel(shape.skip(j + 1)) as int) - self.offset) as usize
                },
        )
    }

    /// The strides that a reshape gives. A tensor without elements gets contiguous strides, or
    /// none but zeros where those cannot be held.
    pub open spec fn reshape_strides(self, shape: Seq<usize>) -> Seq<usize> {
        if self.numel() > 0 {
            self.view_strides(shape)
        } else if shape::fits(shape) {
            contiguous_strides(shape)
        } else {
            Seq::new(shape.len(), |i: int| 0)
        }
    }

    /// Whether some layout of the given shape lists the elements of this one, in their order.
    pub open spec fn has_view(self, shape: Seq<usize>) -> bool {
        exists|view: Strided|
            view.shape == shape && view.strides.len() == shape.len()
                && #[trigger] view.same_elements(self)
    }

    /// Whether the element counts agree.
    pub open spec fn can_reshape(self, shape: Seq<usize>) -> bool {
        shape::numel(shape) == self.numel()
    }

    /// Whether there are as many dimensions, and each is kept or of size one.
    pub open spec fn can_expand(self, shape: Seq<usize>) -> bool {
        &&& shape.len() == self.shape.len()
        &&& forall|i: int|
            0 <= i < shape.len() ==> #[trigger] self.shape[i] == shape[i] || self.shape[i] == 1
    }

    /// Whether there is one pair of limits for each dimension, in order and within it.
    pub open spec fn can_crop(self, limits: Seq<(usize, usize)>) -> bool {
        &&& limits.len() == self.shape.len()
        &&& forall|i: int|
            0 <= i < limits.len() ==> (#[trigger] limits[i]).0 <= limits[i].1 <= self.shape[i]
    }

    /// Whether every axis is a dimension.
    pub open spec fn can_reduce(self, axes: Seq<usize>) -> bool {
        forall|i: int| 0 <= i < axes.len() ==> #[trigger] axes[i] < self.shape.len()
    }

    /// Both layouts list the same buffer positions in the same row-major order.
    pub open spec fn same_elements(self, other: Strided) -> bool {
        &&& self.numel() == other.numel()
        &&& forall|k: int|
            0 <= k < self.numel() ==> #[trigger] self.position(k) == other.position(k)
    }
}

/// The offset of an element is built up from the innermost dimension and the ones outside it.
pub proof fn lemma_walk_step(shape: Seq<usize>, strides: Seq<usize>, k: int)
    requires
        shape.len() == strides.len(),
        shape.len() > 0,
    ensures
        walk(shape, strides, k) == walk(
            shape.drop_last(),
            strides.drop_last(),
            k / (shape.last() as int),
        ) + (k % (shape.last() as int)) * strides.last(),
{
    let u = shape::unravel(shape.drop_last(), k / (shape.last() as int));
    assert(shape::unravel(shape, k).drop_last() =~= u);
}

/// The first element stands at the offset.
pub proof fn lemma_walk_zero(shape: Seq<usize>, strides: Seq<usize>)
    requires
        shape.len() == strides.len(),
        shape::numel(shape) > 0,
    ensures
        walk(shape, strides, 0) == 0,
    decreases shape.len(),
{
    if shape.len() > 0 {
        shape::lemma_step_in_bounds(shape, 0);
        lemma_walk_step(shape, strides, 0);
        lemma_walk_zero(shape.drop_last(), strides.drop_last());
        let n = shape.last() as int;
        assert(0int / n == 0 && 0int % n == 0) by (nonlinear_arith)
            requires
                n > 0,
        ;
        lemma_mul_by_zero_is_zero(strides.last() as int);
    }
}

proof fn lemma_unravel_last(shape: Seq<usize>)
    requires
        shape::numel(shape) > 0,
    ensures
        shape::unravel(shape, shape::numel(shape) - 1) == last_index(shape),
    decreases shape.len(),
{
    if shape.len() > 0 {
        let n = shape.last() as int;
        let m = shape::numel(shape.drop_last()) as int;
        shape::lemma_step_in_bounds(shape, 0);
        assert(m * n - 1 == (m - 1) * n + (n - 1)) by (nonlinear_arith);
        lemma_fundamental_div_mod_converse(m * n - 1, n, m - 1, n - 1);
        lemma_unravel_last(shape.drop_last());
        assert(last_index(shape).drop_last() =~= last_index(shape.drop_last()));
        assert(last_index(shape.drop_last()).push(n - 1) =~= last_index(shape));
    } else {
        assert(last_index(shape) =~= Seq::empty());
    }
}

/// No element stands before the first or after the last one.
pub proof fn lemma_index_bound(layout: Strided, index: Seq<int>)
    requires
        layout.shape.len() == layout.strides.len(),
        shape::in_bounds(index, layout.shape),
    ensures
        layout.offset <= layout.index_of(index) <= layout.last_position(),
{
    assert forall|i: int| 0 <= i < index.len() implies 0 <= #[trigger] index[i] <= last_index(
        layout.shape,
    )[i] by {
        assert(0 <= index[i] < layout.shape[i]);
    }
    shape::lemma_dot_monotone(index, last_index(layout.shape), layout.strides);
}

pub proof fn lemma_position_bound(layout: Strided, k: int)
    requires
        layout.shape.len() == layout.strides.len(),
        0 <= k < layout.numel(),
    ensures
        layout.offset <= layout.position(k) <= layout.last_position(),
{
    shape::lemma_unravel_in_bounds(layout.shape, k);
    lemma_index_bound(layout, shape::unravel(layout.shape, k));
}

/// The first and the last element are the ones with the least and the greatest number.
pub proof fn lemma_ends(layout: Strided)
    requires
        layout.shape.len() == layout.strides.len(),
        layout.numel() > 0,
    ensures
        layout.position(0) == layout.offset,
        layout.position(layout.numel() - 1) == layout.last_position(),
        shape::in_bounds(last_index(layout.shape), layout.shape),
{
    lemma_walk_zero(layout.shape, layout.strides);
    lemma_unravel_last(layout.shape);
    shape::lemma_unravel_in_bounds(layout.shape, layout.numel() - 1);
}

/// A layout that has elements lies within a buffer when its last element does.
pub proof fn lemma_within(layout: Strided, len: nat)
    requires
        layout.shape.len() == layout.strides.len(),
    ensures
        layout.within(len) <==> (layout.numel() > 0 ==> layout.last_position() < len),
{
    if layout.numel() > 0 {
        lemma_ends(layout);
        if layout.last_position() < len {
            assert forall|index: Seq<int>| shape::in_bounds(index, layout.shape) implies 0
                <= #[trigger] layout.index_of(index) < len by {
                lemma_index_bound(layout, index);
            }
        }
    } else {
        assert forall|index: Seq<int>| shape::in_bounds(index, layout.shape) implies 0
            <= #[trigger] layout.index_of(index) < len by {
            shape::lemma_unravel_flat(layout.shape, index);
        }
    }
}

/// Strides that are `unit` times the contiguous ones space the elements `unit` apart.
pub proof fn lemma_walk_contiguous(shape: Seq<usize>, strides: Seq<usize>, unit: int, k: int)
    requires
        shape.len() == strides.len(),
        0 <= k < shape::numel(shape),
        forall|i: int|
            0 <= i < shape.len() ==> #[trigger] strides[i] == unit * shape::numel(
                shape.skip(i + 1),
            ),
    ensures
        walk(shape, strides, k) == unit * k,
    decreases shape.len(),
{
    if shape.len() > 0 {
        let n = shape.last() as int;
        let rest = shape.drop_last();
        shape::lemma_step_in_bounds(shape, k);
        lemma_walk_step(shape, strides, k);
        assert forall|i: int| 0 <= i < rest.len() implies #[trigger] strides.drop_last()[i] == (
        unit * n) * shape::numel(rest.skip(i + 1)) by {
            assert(strides[i] == unit * shape::numel(shape.skip(i + 1)));
            assert(shape.skip(i + 1).drop_last() =~= rest.skip(i + 1));
            let m = shape::numel(rest.skip(i + 1)) as int;
            assert(unit * (m * n) == (unit * n) * m) by (nonlinear_arith);
        }
        lemma_walk_contiguous(rest, strides.drop_last(), unit * n, k / n);
        let i = shape.len() - 1;
        assert(strides[i] == unit * shape::numel(shape.skip(i + 1)));
        assert(shape.skip(i + 1) =~= Seq::empty());
        lemma_fundamental_div_mod(k, n);
        let q = k / n;
        let r = k % n;
        assert((unit * n) * q + r * (unit * 1) == unit * (n * q + r)) by (nonlinear_arith);
    } else {
        assert(k == 0);
    }
}

/// A tensor with the contiguous strides of its shape is contiguous.
pub proof fn lemma_contiguous(layout: Strided)
    requires
        shape::fits(layout.shape),
        layout.strides == contiguous_strides(layout.shape),
    ensures
        layout.is_contiguous(),
        layout.shape.len() == layout.strides.len(),
        layout.numel() > 0 ==> layout.last_position() == layout.offset + layout.numel() - 1,
{
    assert forall|k: int| 0 <= k < layout.numel() implies #[trigger] layout.position(k)
        == layout.offset + k by {
        assert forall|i: int| 0 <= i < layout.shape.len() implies #[trigger] layout.strides[i] == 1
            * shape::numel(layout.shape.skip(i + 1)) by {
            assert(shape::numel(layout.shape.skip(i + 1)) <= usize::MAX);
        }
        lemma_walk_contiguous(layout.shape, layout.strides, 1, k);
    }
    if layout.numel() > 0 {
        lemma_ends(layout);
    }
}

/// One step along dimension `j` is the stride of that dimension.
pub proof fn lemma_walk_stride(shape: Seq<usize>, strides: Seq<usize>, j: int)
    requires
        shape.len() == strides.len(),
        0 <= j < shape.len(),
        shape::numel(shape) > 0,
        shape[j] >= 2,
    ensures
        0 < shape::numel(shape.skip(j + 1)) < shape::numel(shape),
        walk(shape, strides, shape::numel(shape.skip(j + 1)) as int) == strides[j],
    decreases shape.len(),
{
    let n = shape.last() as int;
    let rest = shape.drop_last();
    let p = shape::numel(shape.skip(j + 1)) as int;
    shape::lemma_step_in_bounds(shape, 0);
    lemma_walk_step(shape, strides, p);
    shape::lemma_numel_part(shape, j + 1);
    shape::lemma_numel_part(shape, j);
    assert(shape.take(j + 1) =~= shape.take(j).push(shape[j]));
    shape::lemma_numel_push(shape.take(j), shape[j]);
    let a = shape::numel(shape.take(j)) as int;
    let d = shape[j] as int;
    assert(p < (a * d) * p) by (nonlinear_arith)
        requires
            p > 0,
            a > 0,
            d >= 2,
    ;
    if j == shape.len() - 1 {
        assert(shape.skip(j + 1) =~= Seq::empty());
        assert(1int % n == 1 && 1int / n == 0) by (nonlinear_arith)
            requires
                n >= 2,
        ;
        lemma_walk_zero(rest, strides.drop_last());
        assert(p == 1);
        lemma_mul_basics_4(strides.last() as int);
    } else {
        assert(shape.skip(j + 1).drop_last() =~= rest.skip(j + 1));
        let q = shape::numel(rest.skip(j + 1)) as int;
        assert(p == q * n);
        lemma_walk_stride(rest, strides.drop_last(), j);
        lemma_fundamental_div_mod_converse(q * n, n, q, 0);
        lemma_mul_by_zero_is_zero(strides.last() as int);
        assert(strides.drop_last()[j] == strides[j]);
    }
}

/// The stride of a dimension of size one does not matter.
pub proof fn lemma_walk_units(shape: Seq<usize>, s: Seq<usize>, t: Seq<usize>, k: int)
    requires
        shape.len() == s.len() == t.len(),
        0 <= k < shape::numel(shape),
        forall|i: int| 0 <= i < shape.len() && shape[i] != 1 ==> #[trigger] s[i] == t[i],
    ensures
        walk(shape, s, k) == walk(shape, t, k),
{
    let u = shape::unravel(shape, k);
    shape::lemma_unravel_in_bounds(shape, k);
    assert forall|i: int| 0 <= i < u.len() implies #[trigger] u[i] * s[i] == u[i] * t[i] by {
        if shape[i] == 1 {
            assert(u[i] == 0);
        } else {
            assert(s[i] == t[i]);
        }
    }
    shape::lemma_dot_congruent(u, s, u, t);
}

/// A layout in lowest terms: no dimension of size one, and no two neighbours that could be
/// taken as a single dimension.
pub open spec fn lowest(shape: Seq<usize>, strides: Seq<usize>) -> bool {
    &&& shape.len() == strides.len()
    &&& forall|i: int| 0 <= i < shape.len() ==> #[trigger] shape[i] >= 2
    &&& forall|i: int|
        0 <= i < shape.len() - 1 ==> #[trigger] strides[i] != shape[i + 1] * strides[i + 1]
}

proof fn lemma_lowest_outer(shape: Seq<usize>, strides: Seq<usize>)
    requires
        lowest(shape, strides),
        shape.len() > 0,
    ensures
        lowest(shape.drop_last(), strides.drop_last()),
        shape::numel(shape) > 0,
        shape::numel(shape.drop_last()) > 0,
        shape.last() >= 2,
{
    let rest = shape.drop_last();
    let outer = strides.drop_last();
    assert forall|i: int| 0 <= i < rest.len() - 1 implies #[trigger] outer[i] != rest[i + 1]
        * outer[i + 1] by {
        assert(strides[i] != shape[i + 1] * strides[i + 1]);
    }
    assert forall|i: int| 0 <= i < rest.len() implies #[trigger] rest[i] >= 2 by {
        assert(shape[i] >= 2);
    }
    assert(shape[shape.len() - 1] >= 2);
    shape::lemma_numel_positive(shape);
    shape::lemma_numel_positive(rest);
}

/// Where the innermost dimension of a layout in lowest terms ends can be read off from the
/// positions of its elements.
proof fn lemma_lowest_innermost(
    shape: Seq<usize>,
    strides: Seq<usize>,
    other_shape: Seq<usize>,
    other_strides: Seq<usize>,
)
    requires
        lowest(shape, strides),
        lowest(other_shape, other_strides),
        shape.len() > 0,
        other_shape.len() > 0,
        shape::numel(shape) == shape::numel(other_shape),
        forall|k: int|
            0 <= k < shape::numel(shape) ==> #[trigger] walk(shape, strides, k) == walk(
                other_shape,
                other_strides,
                k,
            ),
    ensures
        strides.last() == other_strides.last(),
        shape.last() >= other_shape.last(),
{
    let n = shape.last() as int;
    let m = other_shape.last() as int;
    let rest = shape.drop_last();
    lemma_lowest_outer(shape, strides);
    lemma_lowest_outer(other_shape, other_strides);
    lemma_walk_stride(shape, strides, shape.len() - 1);
    lemma_walk_stride(other_shape, other_strides, other_shape.len() - 1);
    assert(shape.skip(shape.len() as int) =~= Seq::empty());
    assert(other_shape.skip(other_shape.len() as int) =~= Seq::empty());
    assert(walk(shape, strides, 1) == walk(other_shape, other_strides, 1));
    if n < m {
        let s = strides.last() as int;
        let a = shape::numel(rest) as int;
        let b = shape::numel(other_shape.drop_last()) as int;
        assert(n < a * n && a > 1) by (nonlinear_arith)
            requires
                a * n == b * m,
                b > 0,
                0 < n < m,
                a > 0,
        ;
        lemma_walk_step(shape, strides, n);
        lemma_walk_step(other_shape, other_strides, n);
        assert(n / n == 1 && n % n == 0) by (nonlinear_arith)
            requires
                n > 0,
        ;
        assert(n / m == 0 && n % m == n) by (nonlinear_arith)
            requires
                0 < n < m,
        ;
        lemma_walk_zero(other_shape.drop_last(), other_strides.drop_last());
        assert(walk(shape, strides, n) == walk(other_shape, other_strides, n));
        assert(rest.len() > 0);
        let i = rest.len() - 1;
        assert(rest[i] >= 2) by {
            assert(shape[i] >= 2);
        }
        lemma_walk_stride(rest, strides.drop_last(), i);
        assert(rest.skip(i + 1) =~= Seq::empty());
        assert(strides[i] == n * s);
        assert(strides[i] != shape[i + 1] * strides[i + 1]);
        assert(false);
    }
}

/// Two layouts in lowest terms that list the same positions are the same layout.
pub proof fn lemma_lowest_unique(
    shape: Seq<usize>,
    strides: Seq<usize>,
    other_shape: Seq<usize>,
    other_strides: Seq<usize>,
)
    requires
        lowest(shape, strides),
        lowest(other_shape, other_strides),
        shape::numel(shape) == shape::numel(other_shape),
        forall|k: int|
            0 <= k < shape::numel(shape) ==> #[trigger] walk(shape, strides, k) == walk(
                other_shape,
                other_strides,
                k,
            ),
    ensures
        shape == other_shape,
        strides == other_strides,
    decreases shape.len(),
{
    if shape.len() == 0 || other_shape.len() == 0 {
        lemma_lowest_count(shape, strides);
        lemma_lowest_count(other_shape, other_strides);
        assert(shape =~= other_shape);
        assert(strides =~= other_strides);
    } else {
        lemma_lowest_innermost(shape, strides, other_shape, other_strides);
        assert forall|k: int| 0 <= k < shape::numel(other_shape) implies #[trigger] walk(
            other_shape,
            other_strides,
            k,
        ) == walk(shape, strides, k) by {
            assert(walk(shape, strides, k) == walk(other_shape, other_strides, k));
        }
        lemma_lowest_innermost(other_shape, other_strides, shape, strides);
        lemma_lowest_outer(shape, strides);
        lemma_lowest_outer(other_shape, other_strides);
        let n = shape.last() as int;
        let rest = shape.drop_last();
        let other_rest = other_shape.drop_last();
        assert(shape::numel(rest) == shape::numel(other_rest)) by {
            lemma_mul_is_commutative(n, shape::numel(rest) as int);
            lemma_mul_is_commutative(n, shape::numel(other_rest) as int);
            lemma_mul_equality_converse(
                n,
                shape::numel(rest) as int,
                shape::numel(other_rest) as int,
            );
        }
        assert forall|q: int| 0 <= q < shape::numel(rest) implies #[trigger] walk(
            rest,
            strides.drop_last(),
            q,
        ) == walk(other_rest, other_strides.drop_last(), q) by {
            let a = shape::numel(rest) as int;
            assert(0 <= q * n < a * n) by (nonlinear_arith)
                requires
                    0 <= q < a,
                    n > 0,
            ;
            lemma_fundamental_div_mod_converse(q * n, n, q, 0);
            lemma_walk_step(shape, strides, q * n);
            lemma_walk_step(other_shape, other_strides, q * n);
            assert(walk(shape, strides, q * n) == walk(other_shape, other_strides, q * n));
        }
        lemma_lowest_unique(
            rest,
            strides.drop_last(),
            other_rest,
            other_strides.drop_last(),
        );
        assert(shape =~= rest.push(shape.last()));
        assert(other_shape =~= other_rest.push(other_shape.last()));
        assert(strides =~= strides.drop_last().push(strides.last()));
        assert(other_strides =~= other_strides.drop_last().push(other_strides.last()));
    }
}

/// A layout in lowest terms has a single element only if it has no dimension.
pub proof fn lemma_lowest_count(shape: Seq<usize>, strides: Seq<usize>)
    requires
        lowest(shape, strides),
    ensures
        shape::numel(shape) >= 1,
        shape::numel(shape) == 1 <==> shape.len() == 0,
{
    if shape.len() > 0 {
        lemma_lowest_outer(shape, strides);
        let a = shape::numel(shape.drop_last()) as int;
        let n = shape.last() as int;
        assert(a * n >= 2) by (nonlinear_arith)
            requires
                a > 0,
                n >= 2,
        ;
    }
}

/// Taking the two innermost dimensions as one keeps every position, where the outer stride is
/// what the inner dimension spans.
pub proof fn lemma_walk_merge(
    shape: Seq<usize>,
    strides: Seq<usize>,
    outer: usize,
    outer_stride: usize,
    inner: usize,
    inner_stride: usize,
    merged: usize,
    k: int,
)
    requires
        shape.len() == strides.len(),
        outer > 0,
        inner > 0,
        outer_stride == inner * inner_stride,
        merged == outer * inner,
        k >= 0,
    ensures
        walk(shape.push(merged), strides.push(inner_stride), k) == walk(
            shape.push(outer).push(inner),
            strides.push(outer_stride).push(inner_stride),
            k,
        ),
{
    let a = outer as int;
    let n = inner as int;
    let s = inner_stride as int;
    let one = shape.push(merged);
    let two = shape.push(outer);
    let three = two.push(inner);
    lemma_walk_step(one, strides.push(inner_stride), k);
    assert(one.drop_last() =~= shape);
    assert(strides.push(inner_stride).drop_last() =~= strides);
    lemma_walk_step(three, strides.push(outer_stride).push(inner_stride), k);
    assert(three.drop_last() =~= two);
    assert(strides.push(outer_stride).push(inner_stride).drop_last() =~= strides.push(
        outer_stride,
    ));
    lemma_walk_step(two, strides.push(outer_stride), k / n);
    assert(two.drop_last() =~= shape);
    assert(strides.push(outer_stride).drop_last() =~= strides);
    assert(n * a == merged) by (nonlinear_arith)
        requires
            merged == a * n,
    ;
    lemma_mod_breakdown(k, n, a);
    lemma_div_denominator(k, n, a);
    let q = (k / n) % a;
    let r = k % n;
    assert((n * q + r) * s == r * s + q * (n * s)) by (nonlinear_arith);
}

/// A dimension of size one adds nothing.
pub proof fn lemma_walk_skip_unit(shape: Seq<usize>, strides: Seq<usize>, s: usize, k: int)
    requires
        shape.len() == strides.len(),
    ensures
        walk(shape.push(1), strides.push(s), k) == walk(shape, strides, k),
{
    lemma_walk_step(shape.push(1), strides.push(s), k);
    assert(shape.push(1).drop_last() =~= shape);
    assert(strides.push(s).drop_last() =~= strides);
    lemma_div_basics(k);
    assert(k % 1 == 0);
    lemma_mul_basics(s as int);
}

/// Moving dimensions needs the same part of the buffer.
pub proof fn lemma_permute(layout: Strided, permutation: Seq<usize>)
    requires
        layout.wf(),
        shape::is_permutation(permutation, layout.shape.len()),
    ensures
        layout.permute(permutation).numel() == layout.numel(),
        layout.permute(permutation).last_position() == layout.last_position(),
{
    let last = last_index(layout.shape);
    assert forall|i: int| 0 <= i < permutation.len() implies #[trigger] last_index(
        layout.permute(permutation).shape,
    )[i] == last[permutation[i] as int] by {
        assert(permutation[i] < layout.shape.len());
    }
    assert(last_index(layout.permute(permutation).shape) =~= shape::permuted(last, permutation));
    shape::lemma_numel_permuted(layout.shape, permutation);
    shape::lemma_dot_permuted(last, layout.strides, permutation);
}

/// Repeating elements needs no more of the buffer.
pub proof fn lemma_expand(layout: Strided, shape: Seq<usize>)
    requires
        layout.wf(),
        layout.can_expand(shape),
    ensures
        shape::numel(shape) > 0 ==> layout.numel() > 0 && layout.expand(shape).last_position()
            == layout.last_position(),
{
    if shape::numel(shape) > 0 {
        let expanded = layout.expand(shape);
        shape::lemma_numel_positive(shape);
        shape::lemma_numel_positive(layout.shape);
        assert forall|i: int| 0 <= i < layout.shape.len() implies #[trigger] layout.shape[i]
            > 0 by {
            assert(shape[i] > 0);
        }
        let a = last_index(layout.shape);
        let b = last_index(shape);
        assert forall|i: int| 0 <= i < a.len() implies #[trigger] a[i] * layout.strides[i] == b[i]
            * expanded.strides[i] by {
            assert(layout.shape[i] == shape[i] || layout.shape[i] == 1);
            if layout.shape[i] != shape[i] {
                lemma_mul_by_zero_is_zero(layout.strides[i] as int);
                lemma_mul_by_zero_is_zero(b[i]);
            }
        }
        shape::lemma_dot_congruent(a, layout.strides, b, expanded.strides);
    }
}

/// A part of a tensor stands within the whole.
pub proof fn lemma_crop(layout: Strided, limits: Seq<(usize, usize)>)
    requires
        layout.wf(),
        layout.can_crop(limits),
    ensures
        shape::numel(cropped_shape(limits)) <= layout.numel(),
        shape::numel(cropped_shape(limits)) > 0 ==> {
            &&& layout.numel() > 0
            &&& shape::in_bounds(starts(limits), layout.shape)
            &&& layout.crop(limits).offset == layout.index_of(starts(limits))
            &&& layout.crop(limits).last_position() <= layout.last_position()
        },
{
    let shape = cropped_shape(limits);
    let start = starts(limits);
    assert forall|i: int| 0 <= i < shape.len() implies #[trigger] shape[i]
        <= layout.shape[i] by {
        assert(limits[i].0 <= limits[i].1 <= layout.shape[i]);
    }
    shape::lemma_numel_monotone(shape, layout.shape);
    if shape::numel(shape) > 0 {
        shape::lemma_numel_positive(shape);
        assert forall|i: int| 0 <= i < layout.shape.len() implies 0 <= #[trigger] start[i]
            < layout.shape[i] by {
            assert(shape[i] > 0);
            assert(limits[i].0 <= limits[i].1 <= layout.shape[i]);
        }
        lemma_index_bound(layout, start);
        let inner = last_index(shape);
        let end = Seq::new(shape.len(), |i: int| start[i] + inner[i]);
        shape::lemma_dot_sum(start, inner, end, layout.strides);
        assert forall|i: int| 0 <= i < end.len() implies 0 <= #[trigger] end[i]
            < layout.shape[i] by {
            assert(shape[i] > 0);
            assert(limits[i].0 <= limits[i].1 <= layout.shape[i]);
        }
        lemma_index_bound(layout, end);
    }
}

} // verus!
