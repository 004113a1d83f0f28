//! What holds of the library as a whole.

use std::sync::Arc;

use vstd::arithmetic::div_mod::*;
use vstd::arithmetic::mul::*;
use vstd::bytes::*;
use vstd::prelude::*;

use crate::device;
use crate::dispatch;
use crate::dispatch::Dispatch;
use crate::dispatch::Tensors;
use crate::operation::BinaryOp;
use crate::operation::Operation;
use crate::operation::ReduceOp;
use crate::operation::UnaryOp;
use crate::raw_tensor;
use crate::raw_tensor::WgpuRawTensor;
use crate::shader::Templates;
use crate::shape;
use crate::strided;
use crate::strided::Strided;
use crate::text;
use crate::workgroups;
use crate::workgroups::WorkgroupSize;

verus! {

/// A shape without dimensions has one element, and each further dimension multiplies the count.
pub proof fn law_element_count(shape: Seq<usize>, n: usize)
    ensures
        shape::numel(Seq::empty()) == 1,
        shape::numel(shape.push(n)) == shape::numel(shape) * n,
{
    shape::lemma_numel_push(shape, n);
}

/// A multi-index names an element exactly where it has an entry for each dimension, and each lies
/// within it. Numbers count the innermost index fastest: the number of an element is that of its
/// outer part times the innermost dimension, and its innermost index more.
pub proof fn law_row_major_order(shape: Seq<usize>, index: Seq<int>, n: usize, i: int)
    requires
        shape::in_bounds(index, shape),
        0 <= i < n,
    ensures
        index.len() == shape.len(),
        forall|j: int| 0 <= j < shape.len() ==> 0 <= #[trigger] index[j] < shape[j],
        shape::in_bounds(index.push(i), shape.push(n)),
        shape::flat(Seq::empty(), Seq::empty()) == 0,
        shape::flat(shape.push(n), index.push(i)) == shape::flat(shape, index) * n + i,
{
    assert(shape.push(n).drop_last() =~= shape);
    assert(index.push(i).drop_last() =~= index);
}

/// An element stands further from the first by each of its indices times the stride of that
/// dimension.
pub proof fn law_strides_add_up(index: Seq<int>, strides: Seq<usize>, i: int, stride: usize)
    ensures
        shape::dot(Seq::empty(), Seq::empty()) == 0,
        shape::dot(index.push(i), strides.push(stride)) == shape::dot(index, strides) + i * stride,
{
    shape::lemma_dot_push(index, strides, i, stride);
}

/// A layout puts the element with a given multi-index as far behind its offset as its indices times
/// its strides, and numbers its elements in row-major order.
pub proof fn law_layout_of_elements(layout: Strided, index: Seq<int>, k: int)
    ensures
        layout.numel() == shape::numel(layout.shape),
        layout.index_of(index) == layout.offset + shape::dot(index, layout.strides),
        layout.position(k) == layout.offset + shape::dot(
            shape::unravel(layout.shape, k),
            layout.strides,
        ),
{
}

/// The contiguous layout of a shape starts at the beginning of the buffer; its innermost stride is
/// one, and each other stride is the next one times the next dimension.
pub proof fn law_contiguous_strides(shape: Seq<usize>, i: int)
    requires
        shape::fits(shape),
        0 <= i < shape.len(),
    ensures
        ({
            let layout = Strided::contiguous(shape);
            &&& layout.shape == shape
            &&& layout.offset == 0
            &&& layout.strides.len() == shape.len()
            &&& layout.strides[shape.len() - 1] == 1
            &&& i + 1 < shape.len() ==> layout.strides[i] == layout.strides[i + 1] * shape[i + 1]
        }),
{
    let layout = Strided::contiguous(shape);
    assert(shape.skip(shape.len() as int) =~= Seq::empty());
    assert(shape::numel(shape.skip(i + 1)) <= usize::MAX);
    if i + 1 < shape.len() {
        shape::lemma_numel_skip(shape, i + 1);
        assert(shape::numel(shape.skip(i + 2)) <= usize::MAX);
        lemma_mul_is_commutative(
            shape[i + 1] as int,
            shape::numel(shape.skip(i + 2)) as int,
        );
    }
}

/// Row-major numbers and multi-indices name the same elements: going from one to the other and
/// back changes nothing.
pub proof fn law_numbering_round_trip(shape: Seq<usize>, k: int, index: Seq<int>)
    requires
        0 <= k < shape::numel(shape),
        shape::in_bounds(index, shape),
    ensures
        shape::in_bounds(shape::unravel(shape, k), shape),
        shape::flat(shape, shape::unravel(shape, k)) == k,
        0 <= shape::flat(shape, index) < shape::numel(shape),
        shape::unravel(shape, shape::flat(shape, index)) == index,
{
    shape::lemma_unravel_in_bounds(shape, k);
    shape::lemma_flat_unravel(shape, k);
    shape::lemma_unravel_flat(shape, index);
}

/// In a contiguous tensor the element with row-major number `k` is the `k`-th of the buffer.
pub proof fn law_contiguous_is_row_major(shape: Seq<usize>, index: Seq<int>)
    requires
        shape::fits(shape),
        shape::in_bounds(index, shape),
    ensures
        Strided::contiguous(shape).index_of(index) == shape::flat(shape, index),
{
    let layout = Strided::contiguous(shape);
    strided::lemma_contiguous(layout);
    shape::lemma_unravel_flat(shape, index);
    assert(layout.position(shape::flat(shape, index)) == shape::flat(shape, index));
}

/// The elements of a contiguous tensor are one stretch of its buffer, and it ends inside it.
pub proof fn law_contiguous_read_stays_inside<T, B>(tensor: WgpuRawTensor<T, B>)
    requires
        tensor.wf(),
        tensor.layout().is_contiguous(),
    ensures
        tensor.layout().offset + tensor.layout().numel() <= tensor.buffer_len(),
{
    let layout = tensor.layout();
    if layout.numel() > 0 {
        strided::lemma_within(layout, tensor.buffer_len());
        strided::lemma_ends(layout);
        assert(layout.position(layout.numel() - 1) == layout.offset + (layout.numel() - 1));
    }
}

/// Moving dimensions moves the entries of each multi-index: the element that it names stays
/// where it is.
pub proof fn law_permute_keeps_elements(
    layout: Strided,
    permutation: Seq<usize>,
    index: Seq<int>,
)
    requires
        layout.wf(),
        shape::is_permutation(permutation, layout.shape.len()),
        shape::in_bounds(index, layout.shape),
    ensures
        shape::in_bounds(
            shape::permuted(index, permutation),
            layout.permute(permutation).shape,
        ),
        layout.permute(permutation).index_of(shape::permuted(index, permutation))
            == layout.index_of(index),
        layout.permute(permutation).numel() == layout.numel(),
{
    let moved = shape::permuted(index, permutation);
    assert forall|i: int| 0 <= i < permutation.len() implies 0 <= #[trigger] moved[i]
        < layout.permute(permutation).shape[i] by {
        assert(permutation[i] < layout.shape.len());
        assert(0 <= index[permutation[i] as int] < layout.shape[permutation[i] as int]);
    }
    shape::lemma_dot_permuted(index, layout.strides, permutation);
    shape::lemma_numel_permuted(layout.shape, permutation);
}

/// Moving dimensions and then moving each back to its place gives the tensor again, shape and
/// strides.
pub proof fn law_permute_undone(layout: Strided, permutation: Seq<usize>, inverse: Seq<usize>)
    requires
        layout.wf(),
        shape::is_permutation(permutation, layout.shape.len()),
        inverse.len() == permutation.len(),
        forall|i: int|
            0 <= i < inverse.len() ==> (#[trigger] inverse[i]) < permutation.len()
                && permutation[inverse[i] as int] == i,
    ensures
        shape::is_permutation(inverse, layout.permute(permutation).shape.len()),
        layout.permute(permutation).permute(inverse) == layout,
{
    assert forall|i: int, j: int|
        0 <= i < inverse.len() && 0 <= j < inverse.len() && i != j implies inverse[i]
        != inverse[j] by {
        assert(permutation[inverse[i] as int] == i);
        assert(permutation[inverse[j] as int] == j);
    }
    let back = layout.permute(permutation).permute(inverse);
    assert forall|i: int| 0 <= i < layout.shape.len() implies #[trigger] back.shape[i]
        == layout.shape[i] && back.strides[i] == layout.strides[i] by {
        assert(permutation[inverse[i] as int] == i);
    }
    assert(back.shape =~= layout.shape);
    assert(back.strides =~= layout.strides);
}

/// An element of an expanded tensor is the element of the tensor with index zero along each
/// dimension that grew.
pub proof fn law_expand_repeats_elements(layout: Strided, shape: Seq<usize>, index: Seq<int>)
    requires
        layout.wf(),
        layout.can_expand(shape),
        shape::in_bounds(index, shape),
    ensures
        ({
            let source = Seq::new(
                index.len(),
                |i: int|
                    if layout.shape[i] == shape[i] {
                        index[i]
                    } else {
                        0
                    },
            );
            &&& shape::in_bounds(source, layout.shape)
            &&& layout.expand(shape).index_of(index) == layout.index_of(source)
        }),
{
    let source = Seq::new(
        index.len(),
        |i: int|
            if layout.shape[i] == shape[i] {
                index[i]
            } else {
                0
            },
    );
    let expanded = layout.expand(shape);
    assert forall|i: int| 0 <= i < layout.shape.len() implies 0 <= #[trigger] source[i]
        < layout.shape[i] by {
        assert(0 <= index[i] < shape[i]);
        assert(layout.shape[i] == shape[i] || layout.shape[i] == 1);
    }
    assert forall|i: int| 0 <= i < index.len() implies #[trigger] index[i] * expanded.strides[i]
        == source[i] * layout.strides[i] by {
        if layout.shape[i] != shape[i] {
            lemma_mul_by_zero_is_zero(index[i]);
            lemma_mul_by_zero_is_zero(layout.strides[i] as int);
        }
    }
    shape::lemma_dot_congruent(index, expanded.strides, source, layout.strides);
}

/// An element of a part of a tensor is the element of the tensor that stands as much further
/// along each dimension as the part begins there.
pub proof fn law_crop_shifts_elements(
    layout: Strided,
    limits: Seq<(usize, usize)>,
    index: Seq<int>,
)
    requires
        layout.wf(),
        layout.can_crop(limits),
        shape::in_bounds(index, layout.crop(limits).shape),
    ensures
        ({
            let source = Seq::new(index.len(), |i: int| limits[i].0 + index[i]);
            &&& shape::in_bounds(source, layout.shape)
            &&& layout.crop(limits).index_of(index) == layout.index_of(source)
        }),
{
    let source = Seq::new(index.len(), |i: int| limits[i].0 + index[i]);
    strided::lemma_crop(layout, limits);
    shape::lemma_unravel_flat(layout.crop(limits).shape, index);
    assert forall|i: int| 0 <= i < layout.shape.len() implies 0 <= #[trigger] source[i]
        < layout.shape[i] by {
        assert(limits[i].0 <= limits[i].1 <= layout.shape[i]);
        assert(0 <= index[i] < layout.crop(limits).shape[i]);
    }
    shape::lemma_dot_sum(strided::starts(limits), index, source, layout.strides);
}

/// Cutting a tensor to all of itself changes nothing.
pub proof fn law_crop_to_everything(layout: Strided)
    requires
        layout.wf(),
    ensures
        ({
            let limits = Seq::new(layout.shape.len(), |i: int| (0usize, layout.shape[i]));
            &&& layout.can_crop(limits)
            &&& layout.crop(limits) == layout
        }),
{
    let limits = Seq::new(layout.shape.len(), |i: int| (0usize, layout.shape[i]));
    assert(layout.can_crop(limits));
    let part = layout.crop(limits);
    assert(part.shape =~= layout.shape);
    let start = strided::starts(limits);
    // A dot product that is twice itself is zero.
    shape::lemma_dot_sum(start, start, start, layout.strides);
}

/// Cutting a part of a tensor once more is cutting the tensor to the part of the part. Where no
/// element is left, the offset may differ.
pub proof fn law_crop_twice(
    layout: Strided,
    first: Seq<(usize, usize)>,
    second: Seq<(usize, usize)>,
)
    requires
        layout.wf(),
        layout.can_crop(first),
        layout.crop(first).can_crop(second),
    ensures
        ({
            let both = Seq::new(
                first.len(),
                |i: int|
                    (
                        (first[i].0 + second[i].0) as usize,
                        (first[i].0 + second[i].1) as usize,
                    ),
            );
            &&& layout.can_crop(both)
            &&& layout.crop(first).crop(second).shape == layout.crop(both).shape
            &&& layout.crop(first).crop(second).strides == layout.crop(both).strides
            &&& layout.crop(both).numel() > 0 ==> layout.crop(first).crop(second)
                == layout.crop(both)
        }),
{
    let both = Seq::new(
        first.len(),
        |i: int| ((first[i].0 + second[i].0) as usize, (first[i].0 + second[i].1) as usize),
    );
    let part = layout.crop(first);
    assert forall|i: int| 0 <= i < both.len() implies {
        &&& (#[trigger] both[i]).0 <= both[i].1 <= layout.shape[i]
        &&& both[i].0 == first[i].0 + second[i].0
        &&& both[i].1 == first[i].0 + second[i].1
    } by {
        assert(first[i].0 <= first[i].1 <= layout.shape[i]);
        assert(second[i].0 <= second[i].1 <= part.shape[i]);
    }
    assert(strided::cropped_shape(both) =~= strided::cropped_shape(second));
    if shape::numel(strided::cropped_shape(second)) > 0 {
        strided::lemma_crop(layout, first);
        shape::lemma_numel_monotone(strided::cropped_shape(second), part.shape);
        strided::lemma_crop(part, second);
        strided::lemma_crop(layout, both);
        shape::lemma_dot_sum(
            strided::starts(first),
            strided::starts(second),
            strided::starts(both),
            layout.strides,
        );
    }
}

/// A padded tensor cut back to where its elements are has the shape of the tensor, and the
/// element with a given multi-index stands as much further along each dimension as was added
/// before it.
pub proof fn law_pad_then_crop(
    shape: Seq<usize>,
    padding: Seq<(usize, usize)>,
    index: Seq<int>,
)
    requires
        padding.len() == shape.len(),
        strided::pad_fits(shape, padding),
        shape::in_bounds(index, shape),
    ensures
        ({
            let padded = Strided::contiguous(strided::padded_shape(shape, padding));
            let limits = Seq::new(
                shape.len(),
                |i: int| (padding[i].0, (padding[i].0 + shape[i]) as usize),
            );
            let inside = Seq::new(index.len(), |i: int| padding[i].0 + index[i]);
            &&& padded.can_crop(limits)
            &&& padded.crop(limits).shape == shape
            &&& shape::in_bounds(inside, padded.shape)
            &&& padded.crop(limits).index_of(index) == shape::flat(padded.shape, inside)
        }),
{
    let padded = Strided::contiguous(strided::padded_shape(shape, padding));
    let limits = Seq::new(
        shape.len(),
        |i: int| (padding[i].0, (padding[i].0 + shape[i]) as usize),
    );
    let inside = Seq::new(index.len(), |i: int| padding[i].0 + index[i]);
    assert forall|i: int| 0 <= i < limits.len() implies {
        &&& (#[trigger] limits[i]).0 <= limits[i].1 <= padded.shape[i]
        &&& limits[i].1 == padding[i].0 + shape[i]
    } by {
        assert(padding[i].0 + shape[i] + padding[i].1 <= usize::MAX);
    }
    assert(padded.crop(limits).shape =~= shape);
    assert(padded.shape.skip(0) =~= padded.shape);
    strided::lemma_contiguous(padded);
    law_crop_shifts_elements(padded, limits, index);
    assert(inside =~= Seq::new(index.len(), |i: int| limits[i].0 + index[i]));
    law_contiguous_is_row_major(padded.shape, inside);
}

/// Any layout that lists the elements of a tensor in their order lists those of every other
/// such layout: reshaping on keeps them, and the way back to the first shape needs no copy.
pub proof fn law_reshape_chain(first: Strided, second: Strided, third: Strided)
    requires
        first.wf(),
        second.same_elements(first),
        third.same_elements(second),
    ensures
        third.same_elements(first),
        first.same_elements(third),
        third.has_view(first.shape),
{
    assert forall|k: int| 0 <= k < third.numel() implies #[trigger] third.position(k)
        == first.position(k) by {
        assert(third.position(k) == second.position(k));
        assert(second.position(k) == first.position(k));
    }
    assert forall|k: int| 0 <= k < first.numel() implies #[trigger] first.position(k)
        == third.position(k) by {
        assert(third.position(k) == first.position(k));
    }
}

/// A contiguous tensor is never copied by a reshape, and has contiguous strides in its new shape
/// wherever they can be held.
pub proof fn law_contiguous_reshape_is_free(layout: Strided, shape: Seq<usize>)
    requires
        layout.wf(),
        layout.is_contiguous(),
        layout.can_reshape(shape),
    ensures
        layout.has_view(shape),
        shape::fits(shape) ==> layout.reshape_strides(shape) == strided::contiguous_strides(
            shape,
        ),
        layout.numel() > 0 ==> shape::fits(shape),
{
    if layout.numel() > 0 {
        raw_tensor::lemma_contiguous_reshape(layout, shape);
        shape::lemma_fits(shape);
    } else if !layout.has_view(shape) {
        raw_tensor::lemma_needs_copy(layout, shape);
    }
}

/// A reduction goes through equally many elements for each one that it leaves, and through all of
/// them in the end.
pub proof fn law_reduce_divides_elements(layout: Strided, axes: Seq<usize>)
    requires
        layout.wf(),
        layout.can_reduce(axes),
    ensures
        shape::numel(strided::kept_shape(layout.shape, axes)) * shape::numel(
            strided::reduced_shape(layout.shape, axes),
        ) == layout.numel(),
        shape::numel(strided::kept_shape(layout.shape, axes)) > 0 ==> layout.numel() as int
            / shape::numel(strided::kept_shape(layout.shape, axes)) as int == shape::numel(
            strided::reduced_shape(layout.shape, axes),
        ),
{
    let kept = strided::kept_shape(layout.shape, axes);
    let reduced = strided::reduced_shape(layout.shape, axes);
    assert forall|i: int| 0 <= i < layout.shape.len() implies #[trigger] layout.shape[i]
        == kept[i] * reduced[i] by {
        lemma_mul_basics(layout.shape[i] as int);
    }
    shape::lemma_numel_product(kept, reduced, layout.shape);
    let a = shape::numel(kept) as int;
    let b = shape::numel(reduced) as int;
    if a > 0 {
        lemma_mul_is_commutative(a, b);
        lemma_div_by_multiple(b, a);
    }
}

/// The element that a reduction reads for a pair of multi-indices, one of what it leaves and one
/// of what it goes through, is the one with their sum as multi-index; and every multi-index is
/// such a sum in exactly one way. So a reduction takes each element to exactly one that it leaves.
pub proof fn law_reduce_reads_pairs(
    layout: Strided,
    axes: Seq<usize>,
    left: Seq<int>,
    through: Seq<int>,
    index: Seq<int>,
)
    requires
        layout.wf(),
        layout.can_reduce(axes),
        shape::in_bounds(left, strided::kept_shape(layout.shape, axes)),
        shape::in_bounds(through, strided::reduced_shape(layout.shape, axes)),
        shape::in_bounds(index, layout.shape),
    ensures
        ({
            let sum = Seq::new(left.len(), |i: int| left[i] + through[i]);
            &&& shape::in_bounds(sum, layout.shape)
            &&& layout.index_of(sum) == layout.index_of(left) + shape::dot(
                through,
                layout.strides,
            )
        }),
        ({
            let outer = Seq::new(
                index.len(),
                |i: int|
                    if axes.contains(i as usize) {
                        0
                    } else {
                        index[i]
                    },
            );
            let inner = Seq::new(
                index.len(),
                |i: int|
                    if axes.contains(i as usize) {
                        index[i]
                    } else {
                        0
                    },
            );
            &&& shape::in_bounds(outer, strided::kept_shape(layout.shape, axes))
            &&& shape::in_bounds(inner, strided::reduced_shape(layout.shape, axes))
            &&& index == Seq::new(index.len(), |i: int| outer[i] + inner[i])
            &&& index == Seq::new(left.len(), |i: int| left[i] + through[i]) ==> left == outer
                && through == inner
            &&& layout.index_of(index) == layout.index_of(outer) + shape::dot(
                inner,
                layout.strides,
            )
        }),
{
    let kept = strided::kept_shape(layout.shape, axes);
    let reduced = strided::reduced_shape(layout.shape, axes);
    let sum = Seq::new(left.len(), |i: int| left[i] + through[i]);
    assert forall|i: int| 0 <= i < layout.shape.len() implies 0 <= #[trigger] sum[i]
        < layout.shape[i] by {
        assert(0 <= left[i] < kept[i]);
        assert(0 <= through[i] < reduced[i]);
    }
    shape::lemma_dot_sum(left, through, sum, layout.strides);
    let outer = Seq::new(
        index.len(),
        |i: int|
            if axes.contains(i as usize) {
                0
            } else {
                index[i]
            },
    );
    let inner = Seq::new(
        index.len(),
        |i: int|
            if axes.contains(i as usize) {
                index[i]
            } else {
                0
            },
    );
    assert forall|i: int| 0 <= i < layout.shape.len() implies 0 <= #[trigger] outer[i]
        < kept[i] by {
        assert(0 <= index[i] < layout.shape[i]);
    }
    assert forall|i: int| 0 <= i < layout.shape.len() implies 0 <= #[trigger] inner[i]
        < reduced[i] by {
        assert(0 <= index[i] < layout.shape[i]);
    }
    shape::lemma_dot_sum(outer, inner, index, layout.strides);
    if index == sum {
        assert forall|i: int| 0 <= i < index.len() implies #[trigger] left[i] == outer[i]
            && through[i] == inner[i] by {
            assert(0 <= left[i] < kept[i]);
            assert(0 <= through[i] < reduced[i]);
            assert(index[i] == sum[i]);
        }
        assert(left =~= outer);
        assert(through =~= inner);
    }
}

/// Multiplying and summing in one go leaves a tensor of the same layout as multiplying, and then
/// summing over the same axes.
pub proof fn law_fused_leaves_what_two_steps_leave(
    first: Strided,
    second: Strided,
    axes: Seq<usize>,
)
    requires
        first.wf(),
        second.wf(),
        first.shape == second.shape,
        first.can_reduce(axes),
    ensures
        dispatch::fused_tensors(first, second, axes).output == dispatch::reduce_tensors(
            dispatch::zip_tensors(first, second).output,
            axes,
        ).output,
        dispatch::fused_tensors(first, second, axes).reduced == dispatch::reduce_tensors(
            dispatch::zip_tensors(first, second).output,
            axes,
        ).reduced,
{
}

/// The threads of a run together take on every element of its result, and the run keeps the
/// limits of WebGPU on its workgroups.
pub proof fn law_run_covers_its_result<T>(
    run: Dispatch,
    operation: Operation,
    counts: ((int, int), int, int),
    tensors: Tensors,
)
    requires
        run.runs::<T>(operation, counts, tensors),
        counts == workgroups::counts(tensors.output.numel() as int) || (tensors.output.numel() > 0
            && counts == workgroups::reduce_counts(
            tensors.input.numel() as int,
            tensors.output.numel() as int,
        )),
    ensures
        run.workgroup_size.0 * run.workgroup_count * counts.2 >= run.output@.numel(),
        run.workgroup_size.0 * run.workgroup_size.1 <= workgroups::MAX_WORKGROUP_SIZE,
        1 <= run.workgroup_count <= workgroups::MAX_WORKGROUP_COUNT,
{
    let size = tensors.output.numel() as int;
    if counts == workgroups::counts(size) {
        workgroups::law_counts_cover_and_keep_limits(size);
        lemma_mul_basics(run.workgroup_size.0 as int);
    } else {
        workgroups::law_reduce_counts_cover_and_keep_limits(tensors.input.numel() as int, size);
    }
}

/// How many words a program reads: a header, and a fixed number of words for each dimension.
pub proof fn law_parameter_count(tensors: Tensors, chunk_size: int)
    requires
        one_rank(tensors),
    ensures
        ({
            let n = tensors.input.shape.len();
            let header: int = if tensors.other is Some { 4 } else { 3 };
            let inputs: int = if tensors.other is Some { 4 } else { 3 };
            let reduced: int = if tensors.reduced is Some { 3 } else { 0 };
            let padding: int = if tensors.padding is Some { 2 } else { 0 };
            tensors.words(chunk_size).len() == header + (inputs + reduced + padding) * n
        }),
{
    let n = tensors.input.shape.len() as int;
    assert(forall|a: int, b: int, c: int|
        #![trigger (a + b + c) * n]
        (a + b + c) * n == a * n + b * n + c * n) by (nonlinear_arith);
}

proof fn lemma_split(a: Seq<usize>, b: Seq<usize>, c: Seq<usize>, d: Seq<usize>)
    requires
        a + b == c + d,
        b.len() == d.len(),
    ensures
        a == c,
        b == d,
{
    assert(a.len() + b.len() == (a + b).len());
    assert(c.len() + d.len() == (c + d).len());
    assert(a.len() == c.len());
    let n = a.len() as int;
    assert((a + b).take(n) =~= a);
    assert((c + d).take(n) =~= c);
    assert((a + b).skip(n) =~= b);
    assert((c + d).skip(n) =~= d);
}

/// What a program reads fixes the elements per thread, the layouts of its inputs, the strides of
/// its result, what is reduced, and what is padded: where two runs of the same kind on tensors of
/// as many dimensions read the same words, they agree in all of these.
pub proof fn law_parameters_fix_the_run(
    first: Tensors,
    second: Tensors,
    first_chunk: usize,
    second_chunk: usize,
)
    requires
        same_kind(first, second),
        first.words(first_chunk as int) == second.words(second_chunk as int),
    ensures
        first_chunk == second_chunk,
        first.input == second.input,
        first.output.strides == second.output.strides,
        first.other matches Some(other) ==> {
            &&& other.offset == second.other->0.offset
            &&& other.strides == second.other->0.strides
        },
        first.reduced matches Some(reduced) ==> {
            &&& reduced.strides == second.reduced->0.strides
            &&& reduced.shape == second.reduced->0.shape
            &&& first.output.shape == second.output.shape
        },
        first.padding == second.padding,
{
    let empty = Seq::<usize>::empty();
    let head = seq![first.input.shape.len() as usize, first.input.offset];
    let head2 = seq![second.input.shape.len() as usize, second.input.offset];
    let (offset, other) = match first.other {
        Some(other) => (seq![other.offset], other.strides),
        None => (empty, empty),
    };
    let (offset2, other2) = match second.other {
        Some(other) => (seq![other.offset], other.strides),
        None => (empty, empty),
    };
    let reduced = match first.reduced {
        Some(reduced) => reduced.strides + reduced.shape + first.output.shape,
        None => empty,
    };
    let reduced2 = match second.reduced {
        Some(reduced) => reduced.strides + reduced.shape + second.output.shape,
        None => empty,
    };
    let padding = match first.padding {
        Some(pairs) => dispatch::lows(pairs) + dispatch::highs(pairs),
        None => empty,
    };
    let padding2 = match second.padding {
        Some(pairs) => dispatch::lows(pairs) + dispatch::highs(pairs),
        None => empty,
    };
    let a1 = head + offset;
    let b1 = head2 + offset2;
    let a2 = a1 + seq![first_chunk];
    let b2 = b1 + seq![second_chunk];
    let a3 = a2 + first.input.strides;
    let b3 = b2 + second.input.strides;
    let a4 = a3 + other;
    let b4 = b3 + other2;
    let a5 = a4 + first.output.strides;
    let b5 = b4 + second.output.strides;
    let a6 = a5 + first.input.shape;
    let b6 = b5 + second.input.shape;
    let a7 = a6 + reduced;
    let b7 = b6 + reduced2;
    assert(first.words(first_chunk as int) == a7 + padding);
    assert(second.words(second_chunk as int) == b7 + padding2);
    lemma_split(a7, padding, b7, padding2);
    lemma_split(a6, reduced, b6, reduced2);
    lemma_split(a5, first.input.shape, b5, second.input.shape);
    lemma_split(a4, first.output.strides, b4, second.output.strides);
    lemma_split(a3, other, b3, other2);
    lemma_split(a2, first.input.strides, b2, second.input.strides);
    lemma_split(a1, seq![first_chunk], b1, seq![second_chunk]);
    lemma_split(head, offset, head2, offset2);
    assert(seq![first_chunk][0] == seq![second_chunk][0]);
    assert(head[1] == head2[1]);
    if first.other is Some {
        assert(offset[0] == offset2[0]);
    }
    if first.reduced is Some {
        let x = first.reduced->0;
        let y = second.reduced->0;
        lemma_split(
            x.strides + x.shape,
            first.output.shape,
            y.strides + y.shape,
            second.output.shape,
        );
        lemma_split(x.strides, x.shape, y.strides, y.shape);
    }
    if first.padding is Some {
        let x = first.padding->0;
        let y = second.padding->0;
        lemma_split(dispatch::lows(x), dispatch::highs(x), dispatch::lows(y), dispatch::highs(y));
        assert forall|i: int| 0 <= i < x.len() implies #[trigger] x[i] == y[i] by {
            assert(dispatch::lows(x)[i] == dispatch::lows(y)[i]);
            assert(dispatch::highs(x)[i] == dispatch::highs(y)[i]);
        }
        assert(x =~= y);
    }
}

/// Whether the tensors of an operation have one number of dimensions.
pub open spec fn one_rank(tensors: Tensors) -> bool {
    let n = tensors.input.shape.len();
    &&& tensors.input.wf()
    &&& tensors.output.wf()
    &&& tensors.output.shape.len() == n
    &&& tensors.other matches Some(other) ==> other.wf() && other.shape.len() == n
    &&& tensors.reduced matches Some(reduced) ==> reduced.wf() && reduced.shape.len() == n
    &&& tensors.padding matches Some(padding) ==> padding.len() == n
}

/// Whether two sets of tensors belong to operations of one kind, on as many dimensions.
pub open spec fn same_kind(first: Tensors, second: Tensors) -> bool {
    &&& one_rank(first)
    &&& one_rank(second)
    &&& first.input.shape.len() == second.input.shape.len()
    &&& first.other is Some <==> second.other is Some
    &&& first.reduced is Some <==> second.reduced is Some
    &&& first.padding is Some <==> second.padding is Some
}

/// The bytes that the device gets fix the words that it reads, in either byte order.
pub proof fn law_bytes_fix_the_words(first: Seq<u32>, second: Seq<u32>)
    requires
        dispatch::bytes_low_first(first) == dispatch::bytes_low_first(second)
            || dispatch::bytes_high_first(first) == dispatch::bytes_high_first(second),
    ensures
        first == second,
{
    lemma_auto_spec_u32_to_from_le_bytes();
    let low = dispatch::bytes_low_first(first) == dispatch::bytes_low_first(second);
    let a = if low {
        dispatch::bytes_low_first(first)
    } else {
        dispatch::bytes_high_first(first)
    };
    let b = if low {
        dispatch::bytes_low_first(second)
    } else {
        dispatch::bytes_high_first(second)
    };
    assert(a == b);
    assert(a.len() == 4 * first.len() && b.len() == 4 * second.len());
    assert forall|i: int| 0 <= i < first.len() implies #[trigger] first[i] == second[i] by {
        let x = spec_u32_to_le_bytes(first[i]);
        let y = spec_u32_to_le_bytes(second[i]);
        assert forall|j: int| 0 <= j < 4 implies #[trigger] x[j] == y[j] by {
            let at = if low {
                4 * i + j
            } else {
                4 * i + (3 - j)
            };
            assert(at / 4 == i);
            assert(a[at] == b[at]);
        }
        assert(x =~= y);
        assert(spec_u32_from_le_bytes(x) == first[i]);
        assert(spec_u32_from_le_bytes(y) == second[i]);
    }
    assert(first =~= second);
}

/// The bytes that the device gets spell the words, four for each in turn, in one byte order or the
/// other.
pub proof fn law_bytes_spell_the_words(words: Seq<u32>, i: int)
    requires
        0 <= i < words.len(),
    ensures
        ({
            let low = dispatch::bytes_low_first(words);
            let high = dispatch::bytes_high_first(words);
            &&& low.len() == 4 * words.len()
            &&& high.len() == 4 * words.len()
            &&& spec_u32_from_le_bytes(low.subrange(4 * i, 4 * i + 4)) == words[i]
            &&& spec_u32_from_le_bytes(high.subrange(4 * i, 4 * i + 4).reverse()) == words[i]
        }),
{
    lemma_auto_spec_u32_to_from_le_bytes();
    let low = dispatch::bytes_low_first(words);
    let high = dispatch::bytes_high_first(words);
    let bytes = spec_u32_to_le_bytes(words[i]);
    assert forall|j: int| 0 <= j < 4 implies {
        &&& #[trigger] bytes[j] == low[4 * i + j]
        &&& bytes[j] == high[4 * i + (3 - j)]
    } by {
        assert((4 * i + j) / 4 == i && (4 * i + j) % 4 == j);
        assert((4 * i + (3 - j)) / 4 == i && (4 * i + (3 - j)) % 4 == 3 - j);
    }
    assert(low.subrange(4 * i, 4 * i + 4) =~= bytes);
    assert(high.subrange(4 * i, 4 * i + 4).reverse() =~= bytes) by {
        let back = high.subrange(4 * i, 4 * i + 4).reverse();
        assert forall|j: int| 0 <= j < 4 implies #[trigger] back[j] == bytes[j] by {
            assert(bytes[j] == high[4 * i + (3 - j)]);
        }
    }
}

/// The number of bytes of some elements is their number times the size of one.
pub proof fn law_byte_count<T>(size: nat)
    ensures
        dispatch::bytes_of::<T>(size) == size * vstd::layout::size_of::<T>(),
{
}

/// The first occurrence of the pattern is replaced, what stands before it is kept, and what stands
/// after it is treated likewise.
pub proof fn law_replacing_the_first(text: Seq<char>, from: Seq<char>, to: Seq<char>, i: int)
    requires
        from.len() > 0,
        0 <= i,
        i + from.len() <= text.len(),
        text.subrange(i, i + from.len()) == from,
        forall|j: int| 0 <= j < i ==> #[trigger] text.subrange(j, j + from.len()) != from,
    ensures
        text::replaced(text, from, to) == text.take(i) + to + text::replaced(
            text.skip(i + from.len()),
            from,
            to,
        ),
    decreases i,
{
    if i == 0 {
        assert(text.take(0) + to =~= to);
    } else {
        assert(text.subrange(0, from.len() as int) != from) by {
            let j: int = 0;
            assert(text.subrange(j, j + from.len()) != from);
        }
        let rest = text.skip(1);
        assert(rest.subrange(i - 1, i - 1 + from.len()) =~= text.subrange(i, i + from.len()));
        assert forall|j: int| 0 <= j < i - 1 implies #[trigger] rest.subrange(j, j + from.len())
            != from by {
            assert(rest.subrange(j, j + from.len()) =~= text.subrange(j + 1, j + 1 + from.len()));
        }
        law_replacing_the_first(rest, from, to, i - 1);
        assert(rest.skip(i - 1 + from.len()) =~= text.skip(i + from.len()));
        let after = text::replaced(text.skip(i + from.len()), from, to);
        assert(seq![text[0]] + (rest.take(i - 1) + to + after) =~= text.take(i) + to + after);
    }
}

/// A pattern occurs exactly where the text spells it out.
pub proof fn law_occurrence(text: Seq<char>, pattern: Seq<char>, i: int)
    ensures
        text::occurs_at(text, pattern, i) <==> 0 <= i && i + pattern.len() <= text.len()
            && text.subrange(i, i + pattern.len()) == pattern,
{
}

/// The number that decimal digits stand for.
pub open spec fn value_of(digits: Seq<char>) -> int
    decreases digits.len(),
{
    if digits.len() == 0 {
        0
    } else {
        10 * value_of(digits.drop_last()) + (digits.last() as int - '0' as int)
    }
}

/// Decimal notation stands for the number, in decimal digits without a zero in front.
pub proof fn law_decimal_reads_back(n: nat)
    ensures
        ({
            let digits = text::decimal(n);
            &&& value_of(digits) == n
            &&& digits.len() > 0
            &&& forall|i: int|
                0 <= i < digits.len() ==> '0' <= #[trigger] digits[i] && digits[i] <= '9'
            &&& digits[0] == '0' ==> digits.len() == 1
        }),
    decreases n,
{
    let all = text::decimal(n);
    if n < 10 {
        assert(all.drop_last() =~= Seq::empty());
        assert(value_of(Seq::empty()) == 0);
    } else {
        law_decimal_reads_back(n / 10);
        let front = text::decimal(n / 10);
        assert(all.drop_last() =~= front);
        assert forall|i: int| 0 <= i < all.len() implies '0' <= #[trigger] all[i] && all[i]
            <= '9' by {
            if i < front.len() {
                assert('0' <= front[i] && front[i] <= '9');
            }
        }
        assert(n / 10 > 0);
        if front[0] == '0' {
            assert(front.len() == 1);
            assert(front.drop_last() =~= Seq::empty());
            assert(value_of(Seq::empty()) == 0);
            assert(false);
        }
    }
}

/// A program declares the workgroup size that it is made for: where the template declares a size
/// once, that one declaration is changed, and nothing else.
pub proof fn law_source_declares_the_size(
    templates: Templates,
    operation: Operation,
    size: WorkgroupSize,
    template: Seq<char>,
    at: int,
)
    requires
        operation == Operation::Pad && template == templates.pad@ || operation
            == Operation::FusedMulAdd && template == templates.fused_mul_add@,
        0 <= at,
        at + "@workgroup_size(64)"@.len() <= template.len(),
        template.subrange(at, at + "@workgroup_size(64)"@.len()) == "@workgroup_size(64)"@,
        forall|j: int|
            0 <= j < at ==> #[trigger] template.subrange(j, j + "@workgroup_size(64)"@.len())
                != "@workgroup_size(64)"@,
        ({
            let rest = template.skip(at + "@workgroup_size(64)"@.len());
            forall|j: int|
                0 <= j && j + "@workgroup_size(64)"@.len() <= rest.len()
                    ==> #[trigger] rest.subrange(j, j + "@workgroup_size(64)"@.len())
                    != "@workgroup_size(64)"@
        }),
    ensures
        templates.spec_source(operation, size) == template.take(at) + ("@workgroup_size("@
            + text::decimal(size.0 as nat) + ", "@ + text::decimal(size.1 as nat) + ")"@)
            + template.skip(at + "@workgroup_size(64)"@.len()),
{
    reveal_strlit("@workgroup_size(64)");
    let mark = "@workgroup_size(64)"@;
    let rest = template.skip(at + mark.len());
    let size_text = "@workgroup_size("@ + text::decimal(size.0 as nat) + ", "@ + text::decimal(
        size.1 as nat,
    ) + ")"@;
    law_replacing_the_first(template, mark, size_text, at);
    assert forall|j: int| 0 <= j <= rest.len() implies !#[trigger] text::occurs_at(
        rest,
        mark,
        j,
    ) by {
        if text::occurs_at(rest, mark, j) {
            assert(rest.subrange(j, j + mark.len()) == mark);
        }
    }
    law_replacing_what_is_not_there(rest, mark, size_text);
}

/// How each program is made from its template: its workgroup size declared; the stand-in for its
/// operation gone and the operation's name in its place; for a reduction also the stand-in for what
/// it starts from, and the numbers of its threads.
pub proof fn law_source_of_each_program(
    templates: Templates,
    operation: Operation,
    size: WorkgroupSize,
)
    ensures
        ({
            let size_text = "@workgroup_size("@ + text::decimal(size.0 as nat) + ", "@
                + text::decimal(size.1 as nat) + ")"@;
            let name = "replace_me_with_actual_operation"@;
            let unary = "fn replace_me_with_actual_operation(in: f32) -> f32 { discard; }"@;
            let binary =
                "fn replace_me_with_actual_operation(in_1: f32, in_2: f32) -> f32 { discard; }"@;
            let start = "replace_me_with_actual_default()"@;
            let start_definition = "fn replace_me_with_actual_default() -> f32 { discard; }"@;
            let template = match operation {
                Operation::Unary(_) => templates.map@,
                Operation::Binary(_) => templates.zip@,
                Operation::Reduce(_) => templates.reduce@,
                Operation::Pad => templates.pad@,
                Operation::FusedMulAdd => templates.fused_mul_add@,
            };
            let declared = text::replaced(template, "@workgroup_size(64)"@, size_text);
            let source = templates.spec_source(operation, size);
            match operation {
                Operation::Unary(_) => source == text::replaced(
                    text::replaced(declared, unary, ""@),
                    name,
                    operation.spec_name(),
                ),
                Operation::Binary(_) => source == text::replaced(
                    text::replaced(declared, binary, ""@),
                    name,
                    operation.spec_name(),
                ),
                Operation::Reduce(reduce) => source == text::replaced(
                    text::replaced(
                        text::replaced(
                            text::replaced(
                                text::replaced(
                                    text::replaced(declared, binary, ""@),
                                    name,
                                    operation.spec_name(),
                                ),
                                start_definition,
                                ""@,
                            ),
                            start,
                            reduce.spec_default_name(),
                        ),
                        "const REDUCE_THREADS: u32 = 64u;"@,
                        "const REDUCE_THREADS: u32 = "@ + text::decimal(size.1 as nat) + "u;"@,
                    ),
                    "const INTERMEDIATE_SIZE: u32 = 64u;"@,
                    "const INTERMEDIATE_SIZE: u32 = "@ + text::decimal((size.0 * size.1) as nat)
                        + "u;"@,
                ),
                _ => source == declared,
            }
        }),
{
}

/// What each operation is called in its program, and what each reduction starts from.
pub proof fn law_names(operation: Operation, reduce: ReduceOp)
    ensures
        operation.spec_name() == match operation {
            Operation::Unary(UnaryOp::Exp) => "exp"@,
            Operation::Unary(UnaryOp::Log) => "log"@,
            Operation::Unary(UnaryOp::Id) => "id"@,
            Operation::Binary(BinaryOp::Add) => "add"@,
            Operation::Binary(BinaryOp::Sub) => "sub"@,
            Operation::Binary(BinaryOp::Mul) => "mul"@,
            Operation::Binary(BinaryOp::Div) => "div"@,
            Operation::Binary(BinaryOp::Pow) => "pow"@,
            Operation::Binary(BinaryOp::Eq) => "eq"@,
            Operation::Reduce(ReduceOp::Sum) => "sum"@,
            Operation::Reduce(ReduceOp::Max) => "max"@,
            Operation::Pad => "pad"@,
            Operation::FusedMulAdd => "fused_mul_add"@,
        },
        reduce.spec_default_name() == if reduce is Sum {
            "SUM"@
        } else {
            "MAX"@
        },
{
}

/// What is compiled is the program of the operation, in workgroups of the given size, under the
/// operation's name; and the reductions are compiled together, every other operation by itself.
pub proof fn law_what_is_compiled<P, F: Fn(&str, &str) -> P>(
    build: F,
    templates: Templates,
    operation: Operation,
    other: Operation,
    size: WorkgroupSize,
    pipeline: Arc<P>,
)
    requires
        device::built_by(build, templates, operation, size, pipeline),
    ensures
        exists|label: &str, source: &str|
            label@ == operation.spec_name() && source@ == templates.spec_source(operation, size)
                && #[trigger] call_ensures(build, (label, source), *pipeline),
        device::compiled_with(other, operation) <==> other == operation || (other is Reduce
            && operation is Reduce),
{
}

/// A text in which the pattern does not occur is not changed by a replacement.
pub proof fn law_replacing_what_is_not_there(text: Seq<char>, from: Seq<char>, to: Seq<char>)
    requires
        from.len() > 0,
        forall|i: int| 0 <= i <= text.len() ==> !#[trigger] text::occurs_at(text, from, i),
    ensures
        text::replaced(text, from, to) == text,
    decreases text.len(),
{
    if text.len() > 0 {
        assert(!text::occurs_at(text, from, 0));
        let rest = text.skip(1);
        assert forall|i: int| 0 <= i <= rest.len() implies !#[trigger] text::occurs_at(
            rest,
            from,
            i,
        ) by {
            if text::occurs_at(rest, from, i) {
                assert(text.subrange(i + 1, i + 1 + from.len()) =~= rest.subrange(
                    i,
                    i + from.len(),
                ));
                assert(text::occurs_at(text, from, i + 1));
            }
        }
        law_replacing_what_is_not_there(rest, from, to);
        assert(seq![text[0]] + rest =~= text);
    }
}

} // verus!
