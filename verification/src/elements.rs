//! What the elements of a tensor are, on a device that does what it is told.
//!
//! The library does not compute elements: it tells the device what to do, and keeps track of
//! where the elements stand. Here `held` gives the elements that a buffer holds, and the laws say
//! what the operations do to the elements of a tensor wherever the functions that talk to the
//! device keep to what they are told. They ask it of the calls that the operation makes, and of no
//! others: a sum of floating point numbers may depend on how a run is spread over threads.

use vstd::prelude::*;

use crate::dispatch;
use crate::dispatch::Dispatch;
use crate::laws;
use crate::operation::BinaryOp;
use crate::operation::Operation;
use crate::operation::ReduceOp;
use crate::operation::UnaryOp;
use crate::raw_tensor;
use crate::raw_tensor::WgpuRawTensor;
use crate::shape;
use crate::strided;
use crate::strided::Strided;
use crate::workgroups;

verus! {

/// The elements of a tensor in row-major order.
pub open spec fn elements<T, B>(tensor: WgpuRawTensor<T, B>, held: spec_fn(B) -> Seq<T>) -> Seq<T> {
    listed(tensor.layout(), held(tensor.buffer()))
}

/// What a layout lists of the given contents of a buffer, in row-major order.
pub open spec fn listed<T>(layout: Strided, contents: Seq<T>) -> Seq<T> {
    Seq::new(layout.numel(), |k: int| contents[layout.position(k)])
}

/// Whether `held` gives as many elements as the tensor's buffer holds.
pub open spec fn backed<T, B>(
    tensor: WgpuRawTensor<T, B>,
    held: spec_fn(B) -> Seq<T>,
) -> bool {
    &&& tensor.wf()
    &&& held(tensor.buffer()).len() == tensor.buffer_len()
}

/// Whether `read` gives the elements of a contiguous tensor when it is asked for them.
pub open spec fn reads_elements<T, B, R: FnOnce(&B, u64, u64) -> Vec<T>>(
    tensor: WgpuRawTensor<T, B>,
    read: R,
    held: spec_fn(B) -> Seq<T>,
) -> bool {
    forall|data: Vec<T>| #[trigger]
        tensor.reads(read, data) ==> data@ == held(tensor.buffer()).subrange(
            tensor.layout().offset as int,
            tensor.layout().offset + tensor.layout().numel(),
        )
}

/// Whether `run` and `read` bring the elements of a tensor to the host: `read` reads them where
/// they stand one after the other; else `run` copies them, and `read` reads the copy.
pub open spec fn brings_elements<
    T,
    B,
    F: FnOnce(&Dispatch, &B) -> B,
    R: FnOnce(&B, u64, u64) -> Vec<T>,
>(tensor: WgpuRawTensor<T, B>, run: F, read: R, held: spec_fn(B) -> Seq<T>) -> bool {
    if tensor.layout().is_contiguous() {
        reads_elements(tensor, read, held)
    } else {
        &&& copies(tensor, run, held)
        &&& forall|copy: WgpuRawTensor<T, B>| #[trigger]
            tensor.maps_to(UnaryOp::Id, run, Ok(copy)) ==> reads_elements(copy, read, held)
    }
}

/// Whether `run` fills a new buffer with `f` of each element of a tensor, where it is told to run
/// the given unary operation on it.
pub open spec fn computes_unary<T, B, F: FnOnce(&Dispatch, &B) -> B>(
    tensor: WgpuRawTensor<T, B>,
    operation: UnaryOp,
    run: F,
    held: spec_fn(B) -> Seq<T>,
    f: spec_fn(T) -> T,
) -> bool {
    forall|dispatch: &Dispatch, output: B| #[trigger]
        dispatch.runs::<T>(
            Operation::Unary(operation),
            workgroups::counts(tensor.layout().numel() as int),
            dispatch::map_tensors(tensor.layout()),
        ) && #[trigger] call_ensures(run, (dispatch, &tensor.buffer()), output) ==> held(output)
            == elements(tensor, held).map_values(f)
}

/// Whether `run` copies the elements of a tensor, where it is told to.
pub open spec fn copies<T, B, F: FnOnce(&Dispatch, &B) -> B>(
    tensor: WgpuRawTensor<T, B>,
    run: F,
    held: spec_fn(B) -> Seq<T>,
) -> bool {
    computes_unary(tensor, UnaryOp::Id, run, held, |element: T| element)
}

/// Whether `run` fills a new buffer with `f` of each pair of elements of two tensors, where it is
/// told to run the given binary operation on them.
pub open spec fn computes_binary<T, B, F: FnOnce(&Dispatch, &B, &B) -> B>(
    tensor: WgpuRawTensor<T, B>,
    other: WgpuRawTensor<T, B>,
    operation: BinaryOp,
    run: F,
    held: spec_fn(B) -> Seq<T>,
    f: spec_fn(T, T) -> T,
) -> bool {
    forall|dispatch: &Dispatch, output: B| #[trigger]
        dispatch.runs::<T>(
            Operation::Binary(operation),
            workgroups::counts(tensor.layout().numel() as int),
            dispatch::zip_tensors(tensor.layout(), other.layout()),
        ) && #[trigger] call_ensures(
            run,
            (dispatch, &tensor.buffer(), &other.buffer()),
            output,
        ) ==> held(output) == pairwise(elements(tensor, held), elements(other, held), f)
}

/// `f` of each pair of items.
pub open spec fn pairwise<T>(first: Seq<T>, second: Seq<T>, f: spec_fn(T, T) -> T) -> Seq<T> {
    Seq::new(first.len(), |k: int| f(first[k], second[k]))
}

/// A tensor in a buffer of its own lists the buffer as it is.
pub proof fn lemma_fills<T, B>(
    tensor: WgpuRawTensor<T, B>,
    shape: Seq<usize>,
    held: spec_fn(B) -> Seq<T>,
)
    requires
        tensor.fills(shape),
        shape::fits(shape),
        held(tensor.buffer()).len() == shape::numel(shape),
    ensures
        elements(tensor, held) == held(tensor.buffer()),
        backed(tensor, held),
{
    strided::lemma_contiguous(tensor.layout());
    strided::lemma_within(tensor.layout(), tensor.buffer_len());
    assert(shape.skip(0) =~= shape);
    assert forall|k: int| 0 <= k < tensor.layout().numel() implies #[trigger] elements(
        tensor,
        held,
    )[k] == held(tensor.buffer())[k] by {
        assert(tensor.layout().position(k) == tensor.layout().offset + k);
    }
    assert(elements(tensor, held) =~= held(tensor.buffer()));
}

/// Whether `upload` makes a buffer that holds the given data.
pub open spec fn keeps_data<T, B, F: FnOnce(&[T]) -> B>(
    cpu_data: &[T],
    upload: F,
    held: spec_fn(B) -> Seq<T>,
) -> bool {
    forall|buffer: B| #[trigger]
        call_ensures(upload, (cpu_data,), buffer) ==> held(buffer) == cpu_data@
}

/// A new tensor has the shape and the elements that it was made of, in their order, and is
/// contiguous, on a device that keeps what it is given.
pub proof fn law_new_has_the_given_elements<T, B, F: FnOnce(&[T]) -> B>(
    shape: Seq<usize>,
    cpu_data: &[T],
    upload: F,
    tensor: WgpuRawTensor<T, B>,
    held: spec_fn(B) -> Seq<T>,
)
    requires
        WgpuRawTensor::uploads_to(shape, cpu_data, upload, Ok(tensor)),
        keeps_data(cpu_data, upload, held),
    ensures
        tensor.layout() == Strided::contiguous(shape),
        tensor.layout().is_contiguous(),
        elements(tensor, held) == cpu_data@,
        backed(tensor, held),
{
    strided::lemma_contiguous(tensor.layout());
    lemma_fills(tensor, shape, held);
}

/// Applying an operation to a tensor gives a tensor of the same shape with `f` of each element,
/// on a device on which the operation computes `f`.
pub proof fn law_map_applies_to_each_element<T, B, F: FnOnce(&Dispatch, &B) -> B>(
    tensor: WgpuRawTensor<T, B>,
    operation: UnaryOp,
    run: F,
    result: WgpuRawTensor<T, B>,
    held: spec_fn(B) -> Seq<T>,
    f: spec_fn(T) -> T,
)
    requires
        backed(tensor, held),
        tensor.maps_to(operation, run, Ok(result)),
        computes_unary(tensor, operation, run, held, f),
    ensures
        result.layout().shape == tensor.layout().shape,
        elements(result, held) == elements(tensor, held).map_values(f),
        backed(result, held),
{
    let layout = tensor.layout();
    let run_of = choose|d: &Dispatch|
        d.runs::<T>(
            Operation::Unary(operation),
            workgroups::counts(layout.numel() as int),
            dispatch::map_tensors(layout),
        ) && #[trigger] call_ensures(run, (d, &tensor.buffer()), result.buffer());
    assert(held(result.buffer()) == elements(tensor, held).map_values(f));
    lemma_fills(result, layout.shape, held);
}

/// Applying an operation to two tensors gives a tensor of their shape with `f` of each pair of
/// elements, on a device on which the operation computes `f`.
pub proof fn law_zip_applies_to_each_pair<T, B, F: FnOnce(&Dispatch, &B, &B) -> B>(
    tensor: WgpuRawTensor<T, B>,
    other: WgpuRawTensor<T, B>,
    operation: BinaryOp,
    run: F,
    result: WgpuRawTensor<T, B>,
    held: spec_fn(B) -> Seq<T>,
    f: spec_fn(T, T) -> T,
)
    requires
        backed(tensor, held),
        backed(other, held),
        tensor.zips_to(other, operation, run, Ok(result)),
        computes_binary(tensor, other, operation, run, held, f),
    ensures
        result.layout().shape == tensor.layout().shape,
        result.layout().shape == other.layout().shape,
        elements(result, held) == pairwise(elements(tensor, held), elements(other, held), f),
        backed(result, held),
{
    let layout = tensor.layout();
    let run_of = choose|d: &Dispatch|
        d.runs::<T>(
            Operation::Binary(operation),
            workgroups::counts(layout.numel() as int),
            dispatch::zip_tensors(layout, other.layout()),
        ) && #[trigger] call_ensures(
            run,
            (d, &tensor.buffer(), &other.buffer()),
            result.buffer(),
        );
    assert(held(result.buffer()) == pairwise(elements(tensor, held), elements(other, held), f));
    lemma_fills(result, layout.shape, held);
}

/// Reading a tensor back gives as many elements as its shape has, in row-major order, whether or
/// not they stand one after the other, on a device that copies and reads as it is told.
pub proof fn law_ravel_gives_the_elements<
    T,
    B,
    F: FnOnce(&Dispatch, &B) -> B,
    R: FnOnce(&B, u64, u64) -> Vec<T>,
>(tensor: WgpuRawTensor<T, B>, run: F, read: R, data: Vec<T>, held: spec_fn(B) -> Seq<T>)
    requires
        backed(tensor, held),
        tensor.ravels_to(run, read, Ok(data)),
        brings_elements(tensor, run, read, held),
    ensures
        data@ == elements(tensor, held),
        data@.len() == shape::numel(tensor.layout().shape),
{
    if tensor.layout().is_contiguous() {
        lemma_read(tensor, read, data, held);
    } else {
        let copy = choose|copy: WgpuRawTensor<T, B>|
            #[trigger] tensor.maps_to(UnaryOp::Id, run, Ok(copy)) && copy.reads(read, data);
        law_contiguous_keeps_the_elements(tensor, run, copy, held);
        lemma_read(copy, read, data, held);
    }
}

/// A contiguous copy has the shape and the elements of the tensor, on a device that copies as it
/// is told.
pub proof fn law_contiguous_keeps_the_elements<T, B, F: FnOnce(&Dispatch, &B) -> B>(
    tensor: WgpuRawTensor<T, B>,
    run: F,
    copy: WgpuRawTensor<T, B>,
    held: spec_fn(B) -> Seq<T>,
)
    requires
        backed(tensor, held),
        tensor.maps_to(UnaryOp::Id, run, Ok(copy)),
        copies(tensor, run, held),
    ensures
        copy.layout().shape == tensor.layout().shape,
        copy.layout().is_contiguous(),
        elements(copy, held) == elements(tensor, held),
        backed(copy, held),
{
    law_map_applies_to_each_element(tensor, UnaryOp::Id, run, copy, held, |element: T| element);
    strided::lemma_contiguous(copy.layout());
    assert(elements(tensor, held).map_values(|element: T| element) =~= elements(tensor, held));
}

/// Two tensors with the same elements read back alike, wherever their elements stand. So do a
/// tensor and its contiguous copy, or a tensor before and after a reshape.
pub proof fn law_same_elements_read_alike<
    T,
    B,
    F: FnOnce(&Dispatch, &B) -> B,
    G: FnOnce(&Dispatch, &B) -> B,
    R: FnOnce(&B, u64, u64) -> Vec<T>,
    S: FnOnce(&B, u64, u64) -> Vec<T>,
>(
    tensor: WgpuRawTensor<T, B>,
    run: F,
    read: R,
    data: Vec<T>,
    other: WgpuRawTensor<T, B>,
    other_run: G,
    other_read: S,
    other_data: Vec<T>,
    held: spec_fn(B) -> Seq<T>,
)
    requires
        backed(tensor, held),
        backed(other, held),
        elements(tensor, held) == elements(other, held),
        tensor.ravels_to(run, read, Ok(data)),
        brings_elements(tensor, run, read, held),
        other.ravels_to(other_run, other_read, Ok(other_data)),
        brings_elements(other, other_run, other_read, held),
    ensures
        data@ == other_data@,
{
    law_ravel_gives_the_elements(tensor, run, read, data, held);
    law_ravel_gives_the_elements(other, other_run, other_read, other_data, held);
}

/// A tensor and its contiguous copy read back alike, on a device that copies and reads as it is
/// told.
pub proof fn law_ravel_of_a_contiguous_copy<
    T,
    B,
    C: FnOnce(&Dispatch, &B) -> B,
    F: FnOnce(&Dispatch, &B) -> B,
    G: FnOnce(&Dispatch, &B) -> B,
    R: FnOnce(&B, u64, u64) -> Vec<T>,
    S: FnOnce(&B, u64, u64) -> Vec<T>,
>(
    tensor: WgpuRawTensor<T, B>,
    run: F,
    read: R,
    data: Vec<T>,
    copy_run: C,
    copy: WgpuRawTensor<T, B>,
    other_run: G,
    other_read: S,
    other_data: Vec<T>,
    held: spec_fn(B) -> Seq<T>,
)
    requires
        backed(tensor, held),
        tensor.maps_to(UnaryOp::Id, copy_run, Ok(copy)),
        copies(tensor, copy_run, held),
        tensor.ravels_to(run, read, Ok(data)),
        brings_elements(tensor, run, read, held),
        copy.ravels_to(other_run, other_read, Ok(other_data)),
        brings_elements(copy, other_run, other_read, held),
    ensures
        data@ == other_data@,
{
    law_contiguous_keeps_the_elements(tensor, copy_run, copy, held);
    law_same_elements_read_alike(
        tensor,
        run,
        read,
        data,
        copy,
        other_run,
        other_read,
        other_data,
        held,
    );
}

proof fn lemma_read<T, B, R: FnOnce(&B, u64, u64) -> Vec<T>>(
    tensor: WgpuRawTensor<T, B>,
    read: R,
    data: Vec<T>,
    held: spec_fn(B) -> Seq<T>,
)
    requires
        backed(tensor, held),
        tensor.layout().is_contiguous(),
        tensor.reads(read, data),
        reads_elements(tensor, read, held),
    ensures
        data@ == elements(tensor, held),
{
    let layout = tensor.layout();
    let start = layout.offset as nat;
    let count = layout.numel();
    laws::law_contiguous_read_stays_inside(tensor);
    assert(data@ == held(tensor.buffer()).subrange(start as int, (start + count) as int));
    assert forall|k: int| 0 <= k < count implies #[trigger] data@[k] == elements(
        tensor,
        held,
    )[k] by {
        assert(layout.position(k) == layout.offset + k);
    }
    assert(data@ =~= elements(tensor, held));
}

/// Reading back a new tensor gives the data that it was made of, on a device that keeps what it is
/// given and reads as it is told. Nothing is copied on the way: whatever `copy` is, the tensor can
/// be read back with it.
pub proof fn law_new_reads_back<
    T,
    B,
    U: FnOnce(&[T]) -> B,
    F: FnOnce(&Dispatch, &B) -> B,
    R: FnOnce(&B, u64, u64) -> Vec<T>,
>(
    shape: Seq<usize>,
    cpu_data: &[T],
    upload: U,
    tensor: WgpuRawTensor<T, B>,
    copy: F,
    read: R,
    data: Vec<T>,
    held: spec_fn(B) -> Seq<T>,
)
    requires
        WgpuRawTensor::uploads_to(shape, cpu_data, upload, Ok(tensor)),
        keeps_data(cpu_data, upload, held),
        tensor.ravels_to(copy, read, Ok(data)),
        reads_elements(tensor, read, held),
    ensures
        data@ == cpu_data@,
        tensor.read_ready(read) ==> tensor.ravel_ready(copy, read),
{
    law_new_has_the_given_elements(shape, cpu_data, upload, tensor, held);
    law_ravel_gives_the_elements(tensor, copy, read, data, held);
}

/// Reshaping a tensor keeps its elements and their order, whether or not they are copied, on a
/// device that copies as it is told. It shares the buffer whenever there is a layout for it, and
/// then asks nothing of the device: whatever `run` is, the tensor can be reshaped with it.
pub proof fn law_reshape_keeps_the_elements<T, B, F: FnOnce(&Dispatch, &B) -> B>(
    tensor: WgpuRawTensor<T, B>,
    shape: Seq<usize>,
    run: F,
    result: WgpuRawTensor<T, B>,
    held: spec_fn(B) -> Seq<T>,
)
    requires
        backed(tensor, held),
        tensor.reshapes_to(shape, run, Ok(result)),
        !tensor.layout().has_view(shape) ==> copies(tensor, run, held),
    ensures
        result.layout().shape == shape,
        elements(result, held) == elements(tensor, held),
        backed(result, held),
        tensor.layout().has_view(shape) ==> {
            &&& result.buffer() == tensor.buffer()
            &&& tensor.reshape_ready(shape, run)
        },
{
    let layout = tensor.layout();
    if layout.has_view(shape) {
        assert forall|k: int| 0 <= k < layout.numel() implies #[trigger] elements(result, held)[k]
            == elements(tensor, held)[k] by {
            assert(result.layout().position(k) == layout.position(k));
        }
        assert(elements(result, held) =~= elements(tensor, held));
        raw_tensor::lemma_same_elements_within(result.layout(), layout, tensor.buffer_len());
        if layout.numel() > 0 {
            strided::lemma_ends(result.layout());
            strided::lemma_ends(layout);
            assert(result.layout().position(layout.numel() - 1) == layout.position(
                layout.numel() - 1,
            ));
        }
    } else {
        let copy = choose|copy: WgpuRawTensor<T, B>|
            #[trigger] tensor.maps_to(UnaryOp::Id, run, Ok(copy)) && result.buffer()
                == copy.buffer();
        law_contiguous_keeps_the_elements(tensor, run, copy, held);
        raw_tensor::lemma_needs_copy(layout, shape);
        shape::lemma_fits(shape);
        lemma_fills(copy, layout.shape, held);
        lemma_fills(result, shape, held);
    }
}

/// Reshaping a tensor and then reshaping the result back to the first shape gives the elements
/// again. The way back never copies, and so asks nothing of the device.
pub proof fn law_reshape_undone<
    T,
    B,
    F: FnOnce(&Dispatch, &B) -> B,
    G: FnOnce(&Dispatch, &B) -> B,
>(
    tensor: WgpuRawTensor<T, B>,
    shape: Seq<usize>,
    run: F,
    result: WgpuRawTensor<T, B>,
    back_run: G,
    back: WgpuRawTensor<T, B>,
    held: spec_fn(B) -> Seq<T>,
)
    requires
        backed(tensor, held),
        tensor.reshapes_to(shape, run, Ok(result)),
        !tensor.layout().has_view(shape) ==> copies(tensor, run, held),
        result.reshapes_to(tensor.layout().shape, back_run, Ok(back)),
    ensures
        back.layout().shape == tensor.layout().shape,
        back.buffer() == result.buffer(),
        result.reshape_ready(tensor.layout().shape, back_run),
        elements(back, held) == elements(tensor, held),
        backed(back, held),
{
    law_reshape_keeps_the_elements(tensor, shape, run, result, held);
    if tensor.layout().has_view(shape) {
        laws::law_reshape_chain(tensor.layout(), result.layout(), result.layout());
    } else {
        raw_tensor::lemma_needs_copy(tensor.layout(), shape);
        shape::lemma_fits(shape);
        strided::lemma_contiguous(result.layout());
        laws::law_contiguous_reshape_is_free(result.layout(), tensor.layout().shape);
    }
    law_reshape_keeps_the_elements(result, tensor.layout().shape, back_run, back, held);
}

/// A tensor reads back alike before and after a reshape, on a device that copies and reads as it is
/// told.
pub proof fn law_ravel_after_reshape<
    T,
    B,
    F: FnOnce(&Dispatch, &B) -> B,
    G: FnOnce(&Dispatch, &B) -> B,
    H: FnOnce(&Dispatch, &B) -> B,
    R: FnOnce(&B, u64, u64) -> Vec<T>,
    S: FnOnce(&B, u64, u64) -> Vec<T>,
>(
    tensor: WgpuRawTensor<T, B>,
    shape: Seq<usize>,
    reshape_run: F,
    result: WgpuRawTensor<T, B>,
    run: G,
    read: R,
    data: Vec<T>,
    result_run: H,
    result_read: S,
    result_data: Vec<T>,
    held: spec_fn(B) -> Seq<T>,
)
    requires
        backed(tensor, held),
        tensor.reshapes_to(shape, reshape_run, Ok(result)),
        !tensor.layout().has_view(shape) ==> copies(tensor, reshape_run, held),
        tensor.ravels_to(run, read, Ok(data)),
        brings_elements(tensor, run, read, held),
        result.ravels_to(result_run, result_read, Ok(result_data)),
        brings_elements(result, result_run, result_read, held),
    ensures
        result_data@ == data@,
{
    law_reshape_keeps_the_elements(tensor, shape, reshape_run, result, held);
    law_same_elements_read_alike(
        tensor,
        run,
        read,
        data,
        result,
        result_run,
        result_read,
        result_data,
        held,
    );
}

/// Moving dimensions moves the elements with them: the element with a moved multi-index is the
/// one that the multi-index named before.
pub proof fn law_permute_moves_the_elements<T, B>(
    tensor: WgpuRawTensor<T, B>,
    permutation: Seq<usize>,
    result: WgpuRawTensor<T, B>,
    held: spec_fn(B) -> Seq<T>,
)
    requires
        backed(tensor, held),
        shape::is_permutation(permutation, tensor.layout().shape.len()),
        result.views(tensor, tensor.layout().permute(permutation)),
    ensures
        forall|index: Seq<int>| #[trigger]
            shape::in_bounds(index, tensor.layout().shape) ==> elements(result, held)[shape::flat(
                result.layout().shape,
                shape::permuted(index, permutation),
            )] == elements(tensor, held)[shape::flat(tensor.layout().shape, index)],
        elements(result, held).len() == elements(tensor, held).len(),
        backed(result, held),
{
    let layout = tensor.layout();
    assert forall|index: Seq<int>| #[trigger]
        shape::in_bounds(index, layout.shape) implies elements(result, held)[shape::flat(
        result.layout().shape,
        shape::permuted(index, permutation),
    )] == elements(tensor, held)[shape::flat(layout.shape, index)] by {
        laws::law_permute_keeps_elements(layout, permutation, index);
        shape::lemma_unravel_flat(layout.shape, index);
        shape::lemma_unravel_flat(result.layout().shape, shape::permuted(index, permutation));
    }
    strided::lemma_permute(layout, permutation);
    strided::lemma_within(layout, tensor.buffer_len());
    strided::lemma_within(result.layout(), tensor.buffer_len());
}

/// The elements of a part of a tensor are the elements between the limits.
pub proof fn law_crop_takes_the_elements_between<T, B>(
    tensor: WgpuRawTensor<T, B>,
    limits: Seq<(usize, usize)>,
    result: WgpuRawTensor<T, B>,
    held: spec_fn(B) -> Seq<T>,
)
    requires
        backed(tensor, held),
        tensor.layout().can_crop(limits),
        result.views(tensor, tensor.layout().crop(limits)),
    ensures
        forall|index: Seq<int>| #[trigger]
            shape::in_bounds(index, result.layout().shape) ==> elements(result, held)[shape::flat(
                result.layout().shape,
                index,
            )] == elements(tensor, held)[shape::flat(
                tensor.layout().shape,
                Seq::new(index.len(), |i: int| limits[i].0 + index[i]),
            )],
        backed(result, held),
{
    let layout = tensor.layout();
    assert forall|index: Seq<int>| #[trigger]
        shape::in_bounds(index, result.layout().shape) implies elements(result, held)[shape::flat(
        result.layout().shape,
        index,
    )] == elements(tensor, held)[shape::flat(
        layout.shape,
        Seq::new(index.len(), |i: int| limits[i].0 + index[i]),
    )] by {
        laws::law_crop_shifts_elements(layout, limits, index);
        shape::lemma_unravel_flat(
            layout.shape,
            Seq::new(index.len(), |i: int| limits[i].0 + index[i]),
        );
        shape::lemma_unravel_flat(result.layout().shape, index);
    }
    strided::lemma_crop(layout, limits);
    strided::lemma_within(layout, tensor.buffer_len());
    strided::lemma_within(result.layout(), tensor.buffer_len());
    if result.layout().numel() > 0 {
        strided::lemma_index_bound(layout, strided::starts(limits));
    }
}

/// The elements of an expanded tensor are those of the tensor, repeated along each dimension
/// that grew.
pub proof fn law_expand_repeats_the_elements<T, B>(
    tensor: WgpuRawTensor<T, B>,
    shape: Seq<usize>,
    result: WgpuRawTensor<T, B>,
    held: spec_fn(B) -> Seq<T>,
)
    requires
        backed(tensor, held),
        tensor.layout().can_expand(shape),
        shape::numel(shape) <= usize::MAX,
        result.views(tensor, tensor.layout().expand(shape)),
    ensures
        forall|index: Seq<int>| #[trigger]
            shape::in_bounds(index, shape) ==> elements(result, held)[shape::flat(shape, index)]
                == elements(tensor, held)[shape::flat(
                tensor.layout().shape,
                unexpanded(index, tensor.layout().shape, shape),
            )],
        backed(result, held),
{
    let layout = tensor.layout();
    assert forall|index: Seq<int>| #[trigger] shape::in_bounds(index, shape) implies elements(
        result,
        held,
    )[shape::flat(shape, index)] == elements(tensor, held)[shape::flat(
        layout.shape,
        unexpanded(index, layout.shape, shape),
    )] by {
        laws::law_expand_repeats_elements(layout, shape, index);
        let source = unexpanded(index, layout.shape, shape);
        assert(source =~= Seq::new(
            index.len(),
            |i: int|
                if layout.shape[i] == shape[i] {
                    index[i]
                } else {
                    0
                },
        ));
        shape::lemma_unravel_flat(layout.shape, source);
        shape::lemma_unravel_flat(shape, index);
    }
    strided::lemma_expand(layout, shape);
    strided::lemma_within(layout, tensor.buffer_len());
    strided::lemma_within(result.layout(), tensor.buffer_len());
}

/// The multi-index with zero along each dimension that grew from `shape` to `grown`.
pub open spec fn unexpanded(index: Seq<int>, shape: Seq<usize>, grown: Seq<usize>) -> Seq<int> {
    Seq::new(
        index.len(),
        |i: int|
            if shape[i] == grown[i] {
                index[i]
            } else {
                0
            },
    )
}

/// The multi-index that is the sum of two.
pub open spec fn sum_of(left: Seq<int>, through: Seq<int>) -> Seq<int> {
    Seq::new(left.len(), |i: int| left[i] + through[i])
}

/// What a layout lists of the given contents for the `i`-th element that a reduction over `axes`
/// leaves, in the row-major order of what it goes through.
pub open spec fn gone_through<T>(
    layout: Strided,
    contents: Seq<T>,
    axes: Seq<usize>,
    i: int,
) -> Seq<T> {
    let kept = strided::kept_shape(layout.shape, axes);
    let reduced = strided::reduced_shape(layout.shape, axes);
    Seq::new(
        shape::numel(reduced),
        |r: int|
            contents[layout.index_of(shape::unravel(kept, i)) + shape::dot(
                shape::unravel(reduced, r),
                layout.strides,
            )],
    )
}

/// The elements of a tensor that a reduction over `axes` takes together to the `i`-th of those
/// that it leaves: those whose multi-index differs from it along `axes` alone.
pub open spec fn group<T, B>(
    tensor: WgpuRawTensor<T, B>,
    held: spec_fn(B) -> Seq<T>,
    axes: Seq<usize>,
    i: int,
) -> Seq<T> {
    let shape = tensor.layout().shape;
    let kept = strided::kept_shape(shape, axes);
    let reduced = strided::reduced_shape(shape, axes);
    Seq::new(
        shape::numel(reduced),
        |r: int|
            elements(tensor, held)[shape::flat(
                shape,
                sum_of(shape::unravel(kept, i), shape::unravel(reduced, r)),
            )],
    )
}

/// Whether `run` fills a new buffer with the `total` of what is gone through for each element of a
/// tensor that is left, where it is told to run the given reduction on it.
pub open spec fn computes_reduction<T, B, F: FnOnce(&Dispatch, &B) -> B>(
    tensor: WgpuRawTensor<T, B>,
    axes: Seq<usize>,
    operation: ReduceOp,
    run: F,
    held: spec_fn(B) -> Seq<T>,
    total: spec_fn(Seq<T>) -> T,
) -> bool {
    forall|dispatch: &Dispatch, output: B| #[trigger]
        dispatch.runs::<T>(
            Operation::Reduce(operation),
            dispatch::reduce_spread(tensor.layout(), axes),
            dispatch::reduce_tensors(tensor.layout(), axes),
        ) && #[trigger] call_ensures(run, (dispatch, &tensor.buffer()), output) ==> held(output)
            == Seq::new(
            shape::numel(strided::kept_shape(tensor.layout().shape, axes)),
            |i: int| total(gone_through(tensor.layout(), held(tensor.buffer()), axes, i)),
        )
}

/// Whether `run` fills a new buffer with the `total` of `f` of each pair that is gone through
/// for each element of two tensors that is left, where it is told to multiply and sum them.
pub open spec fn computes_fused<T, B, F: FnOnce(&Dispatch, &B, &B) -> B>(
    tensor: WgpuRawTensor<T, B>,
    other: WgpuRawTensor<T, B>,
    axes: Seq<usize>,
    run: F,
    held: spec_fn(B) -> Seq<T>,
    f: spec_fn(T, T) -> T,
    total: spec_fn(Seq<T>) -> T,
) -> bool {
    forall|dispatch: &Dispatch, output: B| #[trigger]
        dispatch.runs::<T>(
            Operation::FusedMulAdd,
            workgroups::counts(
                shape::numel(strided::kept_shape(tensor.layout().shape, axes)) as int,
            ),
            dispatch::fused_tensors(tensor.layout(), other.layout(), axes),
        ) && #[trigger] call_ensures(
            run,
            (dispatch, &tensor.buffer(), &other.buffer()),
            output,
        ) ==> held(output) == Seq::new(
            shape::numel(strided::kept_shape(tensor.layout().shape, axes)),
            |i: int|
                total(
                    pairwise(
                        gone_through(tensor.layout(), held(tensor.buffer()), axes, i),
                        gone_through(other.layout(), held(other.buffer()), axes, i),
                        f,
                    ),
                ),
        )
}

/// What is gone through in the buffer are the elements that a reduction takes together.
proof fn lemma_group<T, B>(
    tensor: WgpuRawTensor<T, B>,
    held: spec_fn(B) -> Seq<T>,
    axes: Seq<usize>,
    i: int,
)
    requires
        tensor.wf(),
        tensor.layout().can_reduce(axes),
        0 <= i < shape::numel(strided::kept_shape(tensor.layout().shape, axes)),
    ensures
        gone_through(tensor.layout(), held(tensor.buffer()), axes, i) == group(
            tensor,
            held,
            axes,
            i,
        ),
{
    let layout = tensor.layout();
    let kept = strided::kept_shape(layout.shape, axes);
    let reduced = strided::reduced_shape(layout.shape, axes);
    let left = shape::unravel(kept, i);
    shape::lemma_unravel_in_bounds(kept, i);
    assert forall|r: int| 0 <= r < shape::numel(reduced) implies #[trigger] gone_through(
        layout,
        held(tensor.buffer()),
        axes,
        i,
    )[r] == group(tensor, held, axes, i)[r] by {
        let through = shape::unravel(reduced, r);
        shape::lemma_unravel_in_bounds(reduced, r);
        let index = sum_of(left, through);
        assert forall|j: int| 0 <= j < layout.shape.len() implies 0 <= #[trigger] index[j]
            < layout.shape[j] by {
            assert(0 <= left[j] < kept[j]);
            assert(0 <= through[j] < reduced[j]);
        }
        shape::lemma_dot_sum(left, through, index, layout.strides);
        shape::lemma_unravel_flat(layout.shape, index);
    }
    assert(gone_through(layout, held(tensor.buffer()), axes, i) =~= group(tensor, held, axes, i));
}

/// Reducing a tensor gives a tensor with size one along `axes`, in which each element is the
/// `total` of the elements that differ from it along `axes` alone, where this run of the reduction
/// computes `total`.
pub proof fn law_reduce_totals_the_groups<T, B, F: FnOnce(&Dispatch, &B) -> B>(
    tensor: WgpuRawTensor<T, B>,
    axes: Seq<usize>,
    operation: ReduceOp,
    run: F,
    result: WgpuRawTensor<T, B>,
    held: spec_fn(B) -> Seq<T>,
    total: spec_fn(Seq<T>) -> T,
)
    requires
        backed(tensor, held),
        tensor.reduces_to(axes, operation, run, Ok(result)),
        computes_reduction(tensor, axes, operation, run, held, total),
    ensures
        result.layout().shape == strided::kept_shape(tensor.layout().shape, axes),
        elements(result, held) == Seq::new(
            result.layout().numel(),
            |i: int| total(group(tensor, held, axes, i)),
        ),
        backed(result, held),
{
    let layout = tensor.layout();
    let kept = strided::kept_shape(layout.shape, axes);
    let run_of = choose|d: &Dispatch|
        d.runs::<T>(
            Operation::Reduce(operation),
            dispatch::reduce_spread(layout, axes),
            dispatch::reduce_tensors(layout, axes),
        ) && #[trigger] call_ensures(run, (d, &tensor.buffer()), result.buffer());
    assert(held(result.buffer()) == Seq::new(
        shape::numel(kept),
        |i: int| total(gone_through(layout, held(tensor.buffer()), axes, i)),
    ));
    lemma_fills(result, kept, held);
    assert forall|i: int| 0 <= i < result.layout().numel() implies #[trigger] elements(
        result,
        held,
    )[i] == total(group(tensor, held, axes, i)) by {
        lemma_group(tensor, held, axes, i);
    }
    assert(elements(result, held) =~= Seq::new(
        result.layout().numel(),
        |i: int| total(group(tensor, held, axes, i)),
    ));
}

/// Multiplying and summing gives a tensor with size one along `axes`, in which each element is the
/// `total` of `f` of the pairs of elements that differ from it along `axes` alone, where this run
/// computes `f` and `total`.
pub proof fn law_fused_totals_the_products<T, B, F: FnOnce(&Dispatch, &B, &B) -> B>(
    tensor: WgpuRawTensor<T, B>,
    other: WgpuRawTensor<T, B>,
    axes: Seq<usize>,
    run: F,
    result: WgpuRawTensor<T, B>,
    held: spec_fn(B) -> Seq<T>,
    f: spec_fn(T, T) -> T,
    total: spec_fn(Seq<T>) -> T,
)
    requires
        backed(tensor, held),
        backed(other, held),
        tensor.fuses_to(other, axes, run, Ok(result)),
        computes_fused(tensor, other, axes, run, held, f, total),
    ensures
        result.layout() == Strided::contiguous(
            strided::kept_shape(tensor.layout().shape, axes),
        ),
        elements(result, held) == Seq::new(
            result.layout().numel(),
            |i: int|
                total(pairwise(group(tensor, held, axes, i), group(other, held, axes, i), f)),
        ),
        backed(result, held),
{
    let layout = tensor.layout();
    let kept = strided::kept_shape(layout.shape, axes);
    let run_of = choose|d: &Dispatch|
        d.runs::<T>(
            Operation::FusedMulAdd,
            workgroups::counts(shape::numel(kept) as int),
            dispatch::fused_tensors(layout, other.layout(), axes),
        ) && #[trigger] call_ensures(
            run,
            (d, &tensor.buffer(), &other.buffer()),
            result.buffer(),
        );
    assert(held(result.buffer()) == Seq::new(
        shape::numel(kept),
        |i: int|
            total(
                pairwise(
                    gone_through(layout, held(tensor.buffer()), axes, i),
                    gone_through(other.layout(), held(other.buffer()), axes, i),
                    f,
                ),
            ),
    ));
    lemma_fills(result, kept, held);
    assert forall|i: int| 0 <= i < result.layout().numel() implies #[trigger] elements(
        result,
        held,
    )[i] == total(pairwise(group(tensor, held, axes, i), group(other, held, axes, i), f)) by {
        lemma_group(tensor, held, axes, i);
        lemma_group(other, held, axes, i);
    }
    assert(elements(result, held) =~= Seq::new(
        result.layout().numel(),
        |i: int| total(pairwise(group(tensor, held, axes, i), group(other, held, axes, i), f)),
    ));
}

/// Multiplying and summing in one go gives what multiplying first, and summing the products
/// then, gives: a tensor of the same layout with the same elements, where the three runs at hand
/// compute the same `f` and `total`. Runs that round do not; with exact products and partial sums
/// all do.
pub proof fn law_fused_multiply_add_is_both_steps<
    T,
    B,
    F: FnOnce(&Dispatch, &B, &B) -> B,
    G: FnOnce(&Dispatch, &B, &B) -> B,
    H: FnOnce(&Dispatch, &B) -> B,
>(
    tensor: WgpuRawTensor<T, B>,
    other: WgpuRawTensor<T, B>,
    axes: Seq<usize>,
    fuse: F,
    fused: WgpuRawTensor<T, B>,
    multiply: G,
    products: WgpuRawTensor<T, B>,
    add_up: H,
    sums: WgpuRawTensor<T, B>,
    held: spec_fn(B) -> Seq<T>,
    f: spec_fn(T, T) -> T,
    total: spec_fn(Seq<T>) -> T,
)
    requires
        backed(tensor, held),
        backed(other, held),
        tensor.fuses_to(other, axes, fuse, Ok(fused)),
        tensor.zips_to(other, BinaryOp::Mul, multiply, Ok(products)),
        products.reduces_to(axes, ReduceOp::Sum, add_up, Ok(sums)),
        computes_fused(tensor, other, axes, fuse, held, f, total),
        computes_binary(tensor, other, BinaryOp::Mul, multiply, held, f),
        computes_reduction(products, axes, ReduceOp::Sum, add_up, held, total),
    ensures
        fused.layout() == sums.layout(),
        elements(fused, held) == elements(sums, held),
        backed(fused, held),
        backed(sums, held),
{
    let layout = tensor.layout();
    let kept = strided::kept_shape(layout.shape, axes);
    let reduced = strided::reduced_shape(layout.shape, axes);
    law_fused_totals_the_products(tensor, other, axes, fuse, fused, held, f, total);
    law_zip_applies_to_each_pair(tensor, other, BinaryOp::Mul, multiply, products, held, f);
    law_reduce_totals_the_groups(products, axes, ReduceOp::Sum, add_up, sums, held, total);
    assert forall|i: int| 0 <= i < shape::numel(kept) implies #[trigger] elements(fused, held)[i]
        == elements(sums, held)[i] by {
        let pairs = pairwise(
            group(tensor, held, axes, i),
            group(other, held, axes, i),
            f,
        );
        let both = group(products, held, axes, i);
        shape::lemma_unravel_in_bounds(kept, i);
        let left = shape::unravel(kept, i);
        assert forall|r: int| 0 <= r < shape::numel(reduced) implies #[trigger] pairs[r]
            == both[r] by {
            let through = shape::unravel(reduced, r);
            shape::lemma_unravel_in_bounds(reduced, r);
            let index = sum_of(left, through);
            assert forall|j: int| 0 <= j < layout.shape.len() implies 0 <= #[trigger] index[j]
                < layout.shape[j] by {
                assert(0 <= left[j] < kept[j]);
                assert(0 <= through[j] < reduced[j]);
            }
            shape::lemma_unravel_flat(layout.shape, index);
            let k = shape::flat(layout.shape, index);
            assert(elements(products, held)[k] == f(
                elements(tensor, held)[k],
                elements(other, held)[k],
            ));
        }
        assert(pairs =~= both);
    }
    assert(elements(fused, held) =~= elements(sums, held));
}

/// Multiplying and summing in one go reads back as multiplying first and summing then does, where
/// the three runs at hand compute the same `f` and `total`, on a device that reads as it is told.
pub proof fn law_fused_multiply_add_reads_as_both_steps<
    T,
    B,
    F: FnOnce(&Dispatch, &B, &B) -> B,
    G: FnOnce(&Dispatch, &B, &B) -> B,
    H: FnOnce(&Dispatch, &B) -> B,
    C: FnOnce(&Dispatch, &B) -> B,
    D: FnOnce(&Dispatch, &B) -> B,
    R: FnOnce(&B, u64, u64) -> Vec<T>,
    S: FnOnce(&B, u64, u64) -> Vec<T>,
>(
    tensor: WgpuRawTensor<T, B>,
    other: WgpuRawTensor<T, B>,
    axes: Seq<usize>,
    fuse: F,
    fused: WgpuRawTensor<T, B>,
    multiply: G,
    products: WgpuRawTensor<T, B>,
    add_up: H,
    sums: WgpuRawTensor<T, B>,
    fused_run: C,
    fused_read: R,
    fused_data: Vec<T>,
    sums_run: D,
    sums_read: S,
    sums_data: Vec<T>,
    held: spec_fn(B) -> Seq<T>,
    f: spec_fn(T, T) -> T,
    total: spec_fn(Seq<T>) -> T,
)
    requires
        backed(tensor, held),
        backed(other, held),
        tensor.fuses_to(other, axes, fuse, Ok(fused)),
        tensor.zips_to(other, BinaryOp::Mul, multiply, Ok(products)),
        products.reduces_to(axes, ReduceOp::Sum, add_up, Ok(sums)),
        computes_fused(tensor, other, axes, fuse, held, f, total),
        computes_binary(tensor, other, BinaryOp::Mul, multiply, held, f),
        computes_reduction(products, axes, ReduceOp::Sum, add_up, held, total),
        fused.ravels_to(fused_run, fused_read, Ok(fused_data)),
        brings_elements(fused, fused_run, fused_read, held),
        sums.ravels_to(sums_run, sums_read, Ok(sums_data)),
        brings_elements(sums, sums_run, sums_read, held),
    ensures
        fused_data@ == sums_data@,
{
    law_fused_multiply_add_is_both_steps(
        tensor,
        other,
        axes,
        fuse,
        fused,
        multiply,
        products,
        add_up,
        sums,
        held,
        f,
        total,
    );
    law_same_elements_read_alike(
        fused,
        fused_run,
        fused_read,
        fused_data,
        sums,
        sums_run,
        sums_read,
        sums_data,
        held,
    );
}

/// Multiplying and summing gives the same with the two tensors exchanged, where the two runs at
/// hand compute the same `total` and an `f` that does not depend on the order of its arguments.
pub proof fn law_fused_multiply_add_commutes<
    T,
    B,
    F: FnOnce(&Dispatch, &B, &B) -> B,
    G: FnOnce(&Dispatch, &B, &B) -> B,
>(
    tensor: WgpuRawTensor<T, B>,
    other: WgpuRawTensor<T, B>,
    axes: Seq<usize>,
    fuse: F,
    fused: WgpuRawTensor<T, B>,
    exchanged_fuse: G,
    exchanged: WgpuRawTensor<T, B>,
    held: spec_fn(B) -> Seq<T>,
    f: spec_fn(T, T) -> T,
    total: spec_fn(Seq<T>) -> T,
)
    requires
        backed(tensor, held),
        backed(other, held),
        tensor.fuses_to(other, axes, fuse, Ok(fused)),
        other.fuses_to(tensor, axes, exchanged_fuse, Ok(exchanged)),
        computes_fused(tensor, other, axes, fuse, held, f, total),
        computes_fused(other, tensor, axes, exchanged_fuse, held, f, total),
        forall|x: T, y: T| #[trigger] f(x, y) == f(y, x),
    ensures
        exchanged.layout() == fused.layout(),
        elements(exchanged, held) == elements(fused, held),
{
    law_fused_totals_the_products(tensor, other, axes, fuse, fused, held, f, total);
    law_fused_totals_the_products(other, tensor, axes, exchanged_fuse, exchanged, held, f, total);
    assert forall|i: int| 0 <= i < fused.layout().numel() implies #[trigger] elements(
        exchanged,
        held,
    )[i] == elements(fused, held)[i] by {
        let first = group(tensor, held, axes, i);
        let second = group(other, held, axes, i);
        assert(pairwise(second, first, f) =~= pairwise(first, second, f));
    }
    assert(elements(exchanged, held) =~= elements(fused, held));
}

/// Whether a multi-index of a padded tensor names one of the elements that were padded.
pub open spec fn inside(
    index: Seq<int>,
    shape: Seq<usize>,
    padding: Seq<(usize, usize)>,
) -> bool {
    forall|j: int|
        0 <= j < shape.len() ==> padding[j].0 <= #[trigger] index[j] < padding[j].0 + shape[j]
}

/// The multi-index with what was added before the elements taken off.
pub open spec fn unpadded(index: Seq<int>, padding: Seq<(usize, usize)>) -> Seq<int> {
    Seq::new(index.len(), |j: int| index[j] - padding[j].0)
}

/// Whether `run` fills a new buffer with the elements of a tensor where they belong and `zero`
/// around them, where it is told to pad it.
pub open spec fn computes_padding<T, B, F: FnOnce(&Dispatch, &B) -> B>(
    tensor: WgpuRawTensor<T, B>,
    padding: Seq<(usize, usize)>,
    run: F,
    held: spec_fn(B) -> Seq<T>,
    zero: T,
) -> bool {
    forall|dispatch: &Dispatch, output: B| #[trigger]
        dispatch.runs::<T>(
            Operation::Pad,
            workgroups::counts(
                shape::numel(strided::padded_shape(tensor.layout().shape, padding)) as int,
            ),
            dispatch::pad_tensors(tensor.layout(), padding),
        ) && #[trigger] call_ensures(run, (dispatch, &tensor.buffer()), output) ==> held(output)
            == Seq::new(
            shape::numel(strided::padded_shape(tensor.layout().shape, padding)),
            |i: int|
                {
                    let index = shape::unravel(
                        strided::padded_shape(tensor.layout().shape, padding),
                        i,
                    );
                    if inside(index, tensor.layout().shape, padding) {
                        held(tensor.buffer())[tensor.layout().index_of(unpadded(index, padding))]
                    } else {
                        zero
                    }
                },
        )
}

/// Padding a tensor gives a tensor in which each element has moved by what was added before it,
/// and everything around the elements is zero, on a device that pads as it is told.
pub proof fn law_pad_surrounds_the_elements<T, B, F: FnOnce(&Dispatch, &B) -> B>(
    tensor: WgpuRawTensor<T, B>,
    padding: Seq<(usize, usize)>,
    run: F,
    result: WgpuRawTensor<T, B>,
    held: spec_fn(B) -> Seq<T>,
    zero: T,
)
    requires
        backed(tensor, held),
        tensor.pads_to(padding, run, Ok(result)),
        computes_padding(tensor, padding, run, held, zero),
    ensures
        result.layout().shape == strided::padded_shape(tensor.layout().shape, padding),
        forall|index: Seq<int>| #[trigger]
            shape::in_bounds(index, result.layout().shape) ==> elements(result, held)[shape::flat(
                result.layout().shape,
                index,
            )] == if inside(index, tensor.layout().shape, padding) {
                elements(tensor, held)[shape::flat(
                    tensor.layout().shape,
                    unpadded(index, padding),
                )]
            } else {
                zero
            },
        backed(result, held),
{
    let layout = tensor.layout();
    let padded = strided::padded_shape(layout.shape, padding);
    let run_of = choose|d: &Dispatch|
        d.runs::<T>(
            Operation::Pad,
            workgroups::counts(shape::numel(padded) as int),
            dispatch::pad_tensors(layout, padding),
        ) && #[trigger] call_ensures(run, (d, &tensor.buffer()), result.buffer());
    assert(held(result.buffer()).len() == shape::numel(padded));
    lemma_fills(result, padded, held);
    assert forall|index: Seq<int>| #[trigger] shape::in_bounds(index, padded) implies elements(
        result,
        held,
    )[shape::flat(padded, index)] == if inside(index, layout.shape, padding) {
        elements(tensor, held)[shape::flat(layout.shape, unpadded(index, padding))]
    } else {
        zero
    } by {
        shape::lemma_unravel_flat(padded, index);
        if inside(index, layout.shape, padding) {
            let source = unpadded(index, padding);
            assert forall|j: int| 0 <= j < layout.shape.len() implies 0 <= #[trigger] source[j]
                < layout.shape[j] by {
                assert(padding[j].0 <= index[j] < padding[j].0 + layout.shape[j]);
            }
            shape::lemma_unravel_flat(layout.shape, source);
        }
    }
}

/// Cutting a padded tensor back to where its elements are undoes the padding: the part has the
/// shape and the elements of the tensor, in the buffer and with the strides of the padded one.
pub proof fn law_crop_undoes_padding<T, B, F: FnOnce(&Dispatch, &B) -> B>(
    tensor: WgpuRawTensor<T, B>,
    padding: Seq<(usize, usize)>,
    run: F,
    padded: WgpuRawTensor<T, B>,
    limits: Seq<(usize, usize)>,
    part: WgpuRawTensor<T, B>,
    held: spec_fn(B) -> Seq<T>,
    zero: T,
)
    requires
        backed(tensor, held),
        tensor.pads_to(padding, run, Ok(padded)),
        computes_padding(tensor, padding, run, held, zero),
        limits.len() == padding.len(),
        forall|i: int|
            0 <= i < limits.len() ==> (#[trigger] limits[i]).0 == padding[i].0 && limits[i].1
                == padding[i].0 + tensor.layout().shape[i],
        part.views(padded, padded.layout().crop(limits)),
    ensures
        padded.layout().can_crop(limits),
        part.layout().shape == tensor.layout().shape,
        part.layout().strides == padded.layout().strides,
        part.buffer() == padded.buffer(),
        elements(part, held) == elements(tensor, held),
        backed(part, held),
{
    let shape = tensor.layout().shape;
    law_pad_surrounds_the_elements(tensor, padding, run, padded, held, zero);
    assert forall|i: int| 0 <= i < limits.len() implies (#[trigger] limits[i]).0 <= limits[i].1
        <= padded.layout().shape[i] by {
        assert(padding[i].0 + shape[i] + padding[i].1 <= usize::MAX);
    }
    assert(part.layout().shape =~= shape);
    law_crop_takes_the_elements_between(padded, limits, part, held);
    assert forall|k: int| 0 <= k < shape::numel(shape) implies #[trigger] elements(part, held)[k]
        == elements(tensor, held)[k] by {
        let index = shape::unravel(shape, k);
        shape::lemma_unravel_in_bounds(shape, k);
        shape::lemma_flat_unravel(shape, k);
        let moved = Seq::new(index.len(), |i: int| limits[i].0 + index[i]);
        assert forall|i: int| 0 <= i < padded.layout().shape.len() implies 0 <= #[trigger] moved[i]
            < padded.layout().shape[i] by {
            assert(0 <= index[i] < shape[i]);
            assert(limits[i].0 == padding[i].0);
        }
        assert(shape::in_bounds(moved, padded.layout().shape));
        assert forall|i: int| 0 <= i < shape.len() implies padding[i].0 <= #[trigger] moved[i]
            < padding[i].0 + shape[i] by {
            assert(0 <= index[i] < shape[i]);
            assert(limits[i].0 == padding[i].0);
        }
        assert(inside(moved, shape, padding));
        assert forall|i: int| 0 <= i < index.len() implies #[trigger] unpadded(moved, padding)[i]
            == index[i] by {
            assert(limits[i].0 == padding[i].0);
        }
        assert(unpadded(moved, padding) =~= index);
        assert(shape::in_bounds(index, part.layout().shape));
    }
    assert(elements(part, held) =~= elements(tensor, held));
}

/// A tensor reads back alike before it is padded, and after it is padded and cut back, on a device
/// that pads, copies and reads as it is told.
pub proof fn law_ravel_after_pad_and_crop<
    T,
    B,
    F: FnOnce(&Dispatch, &B) -> B,
    G: FnOnce(&Dispatch, &B) -> B,
    H: FnOnce(&Dispatch, &B) -> B,
    R: FnOnce(&B, u64, u64) -> Vec<T>,
    S: FnOnce(&B, u64, u64) -> Vec<T>,
>(
    tensor: WgpuRawTensor<T, B>,
    padding: Seq<(usize, usize)>,
    pad_run: F,
    padded: WgpuRawTensor<T, B>,
    limits: Seq<(usize, usize)>,
    part: WgpuRawTensor<T, B>,
    run: G,
    read: R,
    data: Vec<T>,
    part_run: H,
    part_read: S,
    part_data: Vec<T>,
    held: spec_fn(B) -> Seq<T>,
    zero: T,
)
    requires
        backed(tensor, held),
        tensor.pads_to(padding, pad_run, Ok(padded)),
        computes_padding(tensor, padding, pad_run, held, zero),
        limits.len() == padding.len(),
        forall|i: int|
            0 <= i < limits.len() ==> (#[trigger] limits[i]).0 == padding[i].0 && limits[i].1
                == padding[i].0 + tensor.layout().shape[i],
        part.views(padded, padded.layout().crop(limits)),
        tensor.ravels_to(run, read, Ok(data)),
        brings_elements(tensor, run, read, held),
        part.ravels_to(part_run, part_read, Ok(part_data)),
        brings_elements(part, part_run, part_read, held),
    ensures
        part_data@ == data@,
{
    law_crop_undoes_padding(tensor, padding, pad_run, padded, limits, part, held, zero);
    law_same_elements_read_alike(
        tensor,
        run,
        read,
        data,
        part,
        part_run,
        part_read,
        part_data,
        held,
    );
}

} // verus!
