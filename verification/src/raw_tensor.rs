//! Tensors in the memory of a device.

use std::marker::PhantomData;
use std::sync::Arc;

use vstd::prelude::*;

use crate::dispatch;
use crate::dispatch::byte_size;
use crate::dispatch::fused_multiply_add_dispatch;
use crate::dispatch::map_dispatch;
use crate::dispatch::pad_dispatch;
use crate::dispatch::reduce_dispatch;
use crate::dispatch::zip_dispatch;
use crate::dispatch::Dispatch;
use crate::dispatch::Tensors;
use crate::error::TensorError;
use crate::operation::BinaryOp;
use crate::operation::Operation;
use crate::operation::ReduceOp;
use crate::operation::UnaryOp;
use crate::shape;
use crate::shape_strider::checked_size;
use crate::shape_strider::ShapeStrider;
use crate::shared::share;
use crate::strided;
use crate::strided::Strided;
use crate::workgroups;

verus! {

/// A tensor with elements of type `T` in a buffer of the device; `B` is the device's own type of
/// a buffer.
///
/// Operations avoid copying the buffer if possible, but buffers are read-only, and can be shared
/// between multiple tensors (e.g. with different shapes). As a result, buffers are reference
/// counted. Cloning a tensor is cheap.
pub struct WgpuRawTensor<T, B> {
    buffer: Arc<B>,
    strider: ShapeStrider,
    len: Ghost<nat>,
    phantom: PhantomData<T>,
}

impl<T, B> Clone for WgpuRawTensor<T, B> {
    fn clone(&self) -> (copy: Self)
        ensures
            copy.views(*self, self.layout()),
    {
        proof {
            use_type_invariant(self);
        }
        self.with_strider(self.strider.clone())
    }
}

impl<T, B> WgpuRawTensor<T, B> {
    /// The buffer that holds the elements.
    pub closed spec fn buffer(self) -> B {
        *self.buffer
    }

    /// Where in the buffer the elements stand.
    pub closed spec fn layout(self) -> Strided {
        self.strider@
    }

    /// The number of elements that the buffer holds.
    pub closed spec fn buffer_len(self) -> nat {
        self.len@
    }

    /// No element stands outside the buffer, and the offset does not lie beyond its end.
    #[verifier::type_invariant]
    pub open spec fn wf(self) -> bool {
        &&& self.layout().wf()
        &&& self.layout().within(self.buffer_len())
        &&& self.layout().offset <= self.buffer_len()
    }

    /// Whether this is a contiguous tensor of the given shape in a buffer of its own.
    pub open spec fn fills(self, shape: Seq<usize>) -> bool {
        &&& self.layout() == Strided::contiguous(shape)
        &&& self.buffer_len() == shape::numel(shape)
    }

    /// Whether this is another layout of the buffer of `other`.
    pub open spec fn views(self, other: Self, layout: Strided) -> bool {
        &&& self.buffer() == other.buffer()
        &&& self.buffer_len() == other.buffer_len()
        &&& self.layout() == layout
    }

    /// Whether this tensor holds what `run` made of one buffer, told to run `operation` on the
    /// given tensors.
    pub open spec fn made_by<F: FnOnce(&Dispatch, &B) -> B>(
        self,
        run: F,
        operation: Operation,
        counts: ((int, int), int, int),
        tensors: Tensors,
        input: B,
    ) -> bool {
        &&& self.fills(tensors.output.shape)
        &&& exists|dispatch: &Dispatch|
            dispatch.runs::<T>(operation, counts, tensors) && #[trigger] call_ensures(
                run,
                (dispatch, &input),
                self.buffer(),
            )
    }

    /// Whether this tensor holds what `run` made of two buffers, told to run `operation` on the
    /// given tensors.
    pub open spec fn made_of_two<F: FnOnce(&Dispatch, &B, &B) -> B>(
        self,
        run: F,
        operation: Operation,
        counts: ((int, int), int, int),
        tensors: Tensors,
        input: B,
        other: B,
    ) -> bool {
        &&& self.fills(tensors.output.shape)
        &&& exists|dispatch: &Dispatch|
            dispatch.runs::<T>(operation, counts, tensors) && #[trigger] call_ensures(
                run,
                (dispatch, &input, &other),
                self.buffer(),
            )
    }

    /// What `new` gives for data that `upload` copies to a buffer of the device.
    pub open spec fn uploads_to<F: FnOnce(&[T]) -> B>(
        shape: Seq<usize>,
        cpu_data: &[T],
        upload: F,
        result: Result<Self, TensorError>,
    ) -> bool {
        match result {
            Ok(tensor) => {
                &&& shape::numel(shape) == cpu_data@.len()
                &&& shape::fits(shape)
                &&& tensor.fills(shape)
                &&& call_ensures(upload, (cpu_data,), tensor.buffer())
            },
            Err(error) => if shape::numel(shape) != cpu_data@.len() {
                error == TensorError::SizeMismatch
            } else {
                !shape::fits(shape) && error == TensorError::TooLarge
            },
        }
    }

    /// Creates a new tensor from a shape and data of the host, which `upload` copies to a buffer
    /// of the device. Data that is refused is not uploaded.
    pub fn new<F: FnOnce(&[T]) -> B>(shape: &[usize], cpu_data: &[T], upload: F) -> (result: Result<
        Self,
        TensorError,
    >)
        requires
            shape::numel(shape@) == cpu_data@.len() && shape::fits(shape@) ==> call_requires(
                upload,
                (cpu_data,),
            ),
        ensures
            Self::uploads_to(shape@, cpu_data, upload, result),
    {
        let len: usize = cpu_data.len();
        match checked_size(shape) {
            Some(size) => if size != len {
                return Err(TensorError::SizeMismatch);
            },
            None => {
                return Err(TensorError::SizeMismatch);
            },
        }
        let strider: ShapeStrider = match ShapeStrider::contiguous(shape) {
            Ok(strider) => strider,
            Err(error) => {
                return Err(error);
            },
        };
        Ok(Self::with_buffer_strider(upload(cpu_data), strider))
    }

    /// A tensor with a buffer of its own, which holds its elements one after the other.
    fn with_buffer_strider(buffer: B, strider: ShapeStrider) -> (tensor: Self)
        requires
            shape::fits(strider@.shape),
            strider@ == Strided::contiguous(strider@.shape),
        ensures
            tensor.fills(strider@.shape),
            tensor.buffer() == buffer,
    {
        proof {
            use_type_invariant(&strider);
            strided::lemma_contiguous(strider@);
            strided::lemma_within(strider@, strider@.numel());
        }
        let len: Ghost<nat> = Ghost(strider@.numel());
        WgpuRawTensor { buffer: Arc::new(buffer), strider, len, phantom: PhantomData }
    }

    /// A tensor in the same buffer as this one, but with another layout.
    fn with_strider(&self, strider: ShapeStrider) -> (tensor: Self)
        requires
            strider@.within(self.buffer_len()),
            strider@.offset <= self.buffer_len(),
        ensures
            tensor.views(*self, strider@),
    {
        proof {
            use_type_invariant(&strider);
        }
        WgpuRawTensor {
            buffer: share(&self.buffer),
            strider,
            len: self.len,
            phantom: PhantomData,
        }
    }

    /// The dimensions, outermost first.
    pub fn shape(&self) -> (shape: &[usize])
        ensures
            shape@ == self.layout().shape,
    {
        self.strider.shape()
    }

    /// The stride of each dimension.
    pub fn strides(&self) -> (strides: &[usize])
        ensures
            strides@ == self.layout().strides,
    {
        self.strider.strides()
    }

    /// The layout of the elements.
    pub fn strider(&self) -> (strider: &ShapeStrider)
        ensures
            strider@ == self.layout(),
    {
        &self.strider
    }

    /// The buffer that holds the elements.
    pub fn device_buffer(&self) -> (buffer: &B)
        ensures
            *buffer == self.buffer(),
    {
        &*self.buffer
    }

    /// Whether `run` can be called as `map` calls it: with the run of the operation on this tensor,
    /// and only where there is one.
    pub open spec fn map_ready<F: FnOnce(&Dispatch, &B) -> B>(
        self,
        operation: UnaryOp,
        run: F,
    ) -> bool {
        dispatch::map_fits::<T>(self.layout()) ==> forall|dispatch: &Dispatch|
            dispatch.runs::<T>(
                Operation::Unary(operation),
                workgroups::counts(self.layout().numel() as int),
                dispatch::map_tensors(self.layout()),
            ) ==> #[trigger] call_requires(run, (dispatch, &self.buffer()))
    }

    /// What `map` gives for a unary operation that `run` has the device compute.
    pub open spec fn maps_to<F: FnOnce(&Dispatch, &B) -> B>(
        self,
        operation: UnaryOp,
        run: F,
        result: Result<Self, TensorError>,
    ) -> bool {
        match result {
            Ok(tensor) => {
                &&& dispatch::map_fits::<T>(self.layout())
                &&& tensor.made_by(
                    run,
                    Operation::Unary(operation),
                    workgroups::counts(self.layout().numel() as int),
                    dispatch::map_tensors(self.layout()),
                    self.buffer(),
                )
            },
            Err(error) => !dispatch::map_fits::<T>(self.layout()) && error
                == TensorError::TooLarge,
        }
    }

    /// Returns a new tensor with the same shape, after applying the operation to each element.
    /// Has `run` fill a new buffer; the resulting tensor is contiguous.
    pub fn map<F: FnOnce(&Dispatch, &B) -> B>(&self, operation: UnaryOp, run: F) -> (result: Result<
        Self,
        TensorError,
    >)
        requires
            self.map_ready(operation, run),
        ensures
            self.maps_to(operation, run, result),
    {
        match map_dispatch::<T>(&self.strider, operation) {
            Ok(dispatch) => {
                proof {
                    assert(call_requires(run, (&dispatch, &self.buffer())));
                }
                let buffer: B = run(&dispatch, &*self.buffer);
                Ok(Self::with_buffer_strider(buffer, dispatch.output))
            },
            Err(error) => Err(error),
        }
    }
}

impl<T, B> WgpuRawTensor<T, B> {
    /// Whether `run` can be called as `zip` calls it: with the run of the operation on the two
    /// tensors, and only where they have one shape and there is such a run.
    pub open spec fn zip_ready<F: FnOnce(&Dispatch, &B, &B) -> B>(
        self,
        other: Self,
        operation: BinaryOp,
        run: F,
    ) -> bool {
        self.layout().shape == other.layout().shape && dispatch::zip_fits::<T>(
            self.layout(),
            other.layout(),
        ) ==> forall|dispatch: &Dispatch|
            dispatch.runs::<T>(
                Operation::Binary(operation),
                workgroups::counts(self.layout().numel() as int),
                dispatch::zip_tensors(self.layout(), other.layout()),
            ) ==> #[trigger] call_requires(run, (dispatch, &self.buffer(), &other.buffer()))
    }

    /// What `zip` gives for a binary operation that `run` has the device compute.
    pub open spec fn zips_to<F: FnOnce(&Dispatch, &B, &B) -> B>(
        self,
        other: Self,
        operation: BinaryOp,
        run: F,
        result: Result<Self, TensorError>,
    ) -> bool {
        match result {
            Ok(tensor) => {
                &&& self.layout().shape == other.layout().shape
                &&& dispatch::zip_fits::<T>(self.layout(), other.layout())
                &&& tensor.made_of_two(
                    run,
                    Operation::Binary(operation),
                    workgroups::counts(self.layout().numel() as int),
                    dispatch::zip_tensors(self.layout(), other.layout()),
                    self.buffer(),
                    other.buffer(),
                )
            },
            Err(error) => if self.layout().shape != other.layout().shape {
                error == TensorError::ShapeMismatch
            } else {
                !dispatch::zip_fits::<T>(self.layout(), other.layout()) && error
                    == TensorError::TooLarge
            },
        }
    }

    /// Returns a new tensor with the same shape as this and the other one, after applying the
    /// operation to each pair of elements. Has `run` fill a new buffer; the resulting tensor is
    /// contiguous.
    pub fn zip<F: FnOnce(&Dispatch, &B, &B) -> B>(
        &self,
        other: &Self,
        operation: BinaryOp,
        run: F,
    ) -> (result: Result<Self, TensorError>)
        requires
            self.zip_ready(*other, operation, run),
        ensures
            self.zips_to(*other, operation, run, result),
    {
        match zip_dispatch::<T>(&self.strider, &other.strider, operation) {
            Ok(dispatch) => {
                proof {
                    assert(call_requires(run, (&dispatch, &self.buffer(), &other.buffer())));
                }
                let buffer: B = run(&dispatch, &*self.buffer, &*other.buffer);
                Ok(Self::with_buffer_strider(buffer, dispatch.output))
            },
            Err(error) => Err(error),
        }
    }

    /// Whether `run` can be called as `reduce` calls it: with the run of the reduction over `axes`,
    /// and only where they are dimensions, something is left, and there is such a run.
    pub open spec fn reduce_ready<F: FnOnce(&Dispatch, &B) -> B>(
        self,
        axes: Seq<usize>,
        operation: ReduceOp,
        run: F,
    ) -> bool {
        self.layout().can_reduce(axes) && shape::numel(
            strided::kept_shape(self.layout().shape, axes),
        ) > 0 && dispatch::reduce_fits::<T>(self.layout(), axes) ==> forall|dispatch: &Dispatch|
            dispatch.runs::<T>(
                Operation::Reduce(operation),
                dispatch::reduce_spread(self.layout(), axes),
                dispatch::reduce_tensors(self.layout(), axes),
            ) ==> #[trigger] call_requires(run, (dispatch, &self.buffer()))
    }

    /// What `reduce` gives for a reduction that `run` has the device compute.
    pub open spec fn reduces_to<F: FnOnce(&Dispatch, &B) -> B>(
        self,
        axes: Seq<usize>,
        operation: ReduceOp,
        run: F,
        result: Result<Self, TensorError>,
    ) -> bool {
        let left = shape::numel(strided::kept_shape(self.layout().shape, axes));
        match result {
            Ok(tensor) => {
                &&& self.layout().can_reduce(axes)
                &&& left > 0
                &&& dispatch::reduce_fits::<T>(self.layout(), axes)
                &&& tensor.made_by(
                    run,
                    Operation::Reduce(operation),
                    dispatch::reduce_spread(self.layout(), axes),
                    dispatch::reduce_tensors(self.layout(), axes),
                    self.buffer(),
                )
            },
            Err(error) => if !self.layout().can_reduce(axes) {
                error == TensorError::AxisOutOfRange
            } else if dispatch::reduce_layouts_fit(self.layout(), axes) && left == 0 {
                error == TensorError::NothingLeft
            } else {
                !dispatch::reduce_fits::<T>(self.layout(), axes) && error
                    == TensorError::TooLarge
            },
        }
    }

    /// Returns a new tensor with size one along `axes`, after taking the elements along them
    /// together with the operation. Has `run` fill a new buffer; the resulting tensor is
    /// contiguous.
    pub fn reduce<F: FnOnce(&Dispatch, &B) -> B>(
        &self,
        axes: &[usize],
        operation: ReduceOp,
        run: F,
    ) -> (result: Result<Self, TensorError>)
        requires
            self.reduce_ready(axes@, operation, run),
        ensures
            self.reduces_to(axes@, operation, run, result),
    {
        match reduce_dispatch::<T>(&self.strider, axes, operation) {
            Ok(dispatch) => {
                proof {
                    assert(call_requires(run, (&dispatch, &self.buffer())));
                }
                let buffer: B = run(&dispatch, &*self.buffer);
                Ok(Self::with_buffer_strider(buffer, dispatch.output))
            },
            Err(error) => Err(error),
        }
    }

    /// Whether `run` can be called as `pad` calls it: with the run of the padding, and only where
    /// there is one pair for each dimension and there is such a run.
    pub open spec fn pad_ready<F: FnOnce(&Dispatch, &B) -> B>(
        self,
        padding: Seq<(usize, usize)>,
        run: F,
    ) -> bool {
        padding.len() == self.layout().shape.len() && dispatch::pad_dispatch_fits::<T>(
            self.layout(),
            padding,
        ) ==> forall|dispatch: &Dispatch|
            dispatch.runs::<T>(
                Operation::Pad,
                workgroups::counts(
                    shape::numel(strided::padded_shape(self.layout().shape, padding)) as int,
                ),
                dispatch::pad_tensors(self.layout(), padding),
            ) ==> #[trigger] call_requires(run, (dispatch, &self.buffer()))
    }

    /// What `pad` gives for a padding that `run` has the device compute.
    pub open spec fn pads_to<F: FnOnce(&Dispatch, &B) -> B>(
        self,
        padding: Seq<(usize, usize)>,
        run: F,
        result: Result<Self, TensorError>,
    ) -> bool {
        match result {
            Ok(tensor) => {
                &&& padding.len() == self.layout().shape.len()
                &&& dispatch::pad_dispatch_fits::<T>(self.layout(), padding)
                &&& tensor.made_by(
                    run,
                    Operation::Pad,
                    workgroups::counts(
                        shape::numel(strided::padded_shape(self.layout().shape, padding)) as int,
                    ),
                    dispatch::pad_tensors(self.layout(), padding),
                    self.buffer(),
                )
            },
            Err(error) => if padding.len() != self.layout().shape.len() {
                error == TensorError::RankMismatch
            } else {
                !dispatch::pad_dispatch_fits::<T>(self.layout(), padding) && error
                    == TensorError::TooLarge
            },
        }
    }

    /// Returns a new tensor with zeros added around the elements: `padding[i].0` before and
    /// `padding[i].1` after them along dimension `i`. Has `run` fill a new buffer; the resulting
    /// tensor is contiguous.
    pub fn pad<F: FnOnce(&Dispatch, &B) -> B>(
        &self,
        padding: &[(usize, usize)],
        run: F,
    ) -> (result: Result<Self, TensorError>)
        requires
            self.pad_ready(padding@, run),
        ensures
            self.pads_to(padding@, run, result),
    {
        match pad_dispatch::<T>(&self.strider, padding) {
            Ok(dispatch) => {
                proof {
                    assert(call_requires(run, (&dispatch, &self.buffer())));
                }
                let buffer: B = run(&dispatch, &*self.buffer);
                Ok(Self::with_buffer_strider(buffer, dispatch.output))
            },
            Err(error) => Err(error),
        }
    }

    /// Whether `run` can be called as `fused_multiply_add` calls it: with the run on the two
    /// tensors, and only where they have one shape, the axes are dimensions, and there is such a
    /// run.
    pub open spec fn fused_ready<F: FnOnce(&Dispatch, &B, &B) -> B>(
        self,
        other: Self,
        axes: Seq<usize>,
        run: F,
    ) -> bool {
        self.layout().shape == other.layout().shape && self.layout().can_reduce(axes)
            && dispatch::fused_fits::<T>(self.layout(), other.layout(), axes) ==> forall|
            dispatch: &Dispatch,
        |
            dispatch.runs::<T>(
                Operation::FusedMulAdd,
                workgroups::counts(
                    shape::numel(strided::kept_shape(self.layout().shape, axes)) as int,
                ),
                dispatch::fused_tensors(self.layout(), other.layout(), axes),
            ) ==> #[trigger] call_requires(run, (dispatch, &self.buffer(), &other.buffer()))
    }

    /// What `fused_multiply_add` gives, with `run` to have the device compute it.
    pub open spec fn fuses_to<F: FnOnce(&Dispatch, &B, &B) -> B>(
        self,
        other: Self,
        axes: Seq<usize>,
        run: F,
        result: Result<Self, TensorError>,
    ) -> bool {
        match result {
            Ok(tensor) => {
                &&& self.layout().shape == other.layout().shape
                &&& self.layout().can_reduce(axes)
                &&& dispatch::fused_fits::<T>(self.layout(), other.layout(), axes)
                &&& tensor.made_of_two(
                    run,
                    Operation::FusedMulAdd,
                    workgroups::counts(
                        shape::numel(strided::kept_shape(self.layout().shape, axes)) as int,
                    ),
                    dispatch::fused_tensors(self.layout(), other.layout(), axes),
                    self.buffer(),
                    other.buffer(),
                )
            },
            Err(error) => if self.layout().shape != other.layout().shape {
                error == TensorError::ShapeMismatch
            } else if !self.layout().can_reduce(axes) {
                error == TensorError::AxisOutOfRange
            } else {
                !dispatch::fused_fits::<T>(self.layout(), other.layout(), axes) && error
                    == TensorError::TooLarge
            },
        }
    }

    /// Returns a new tensor with size one along `axes`, after multiplying each pair of elements
    /// of this and the other tensor and summing the products along `axes`. Has `run` fill a new
    /// buffer; the resulting tensor is contiguous.
    pub fn fused_multiply_add<F: FnOnce(&Dispatch, &B, &B) -> B>(
        &self,
        other: &Self,
        axes: &[usize],
        run: F,
    ) -> (result: Result<Self, TensorError>)
        requires
            self.fused_ready(*other, axes@, run),
        ensures
            self.fuses_to(*other, axes@, run, result),
    {
        match fused_multiply_add_dispatch::<T>(&self.strider, &other.strider, axes) {
            Ok(dispatch) => {
                proof {
                    assert(call_requires(run, (&dispatch, &self.buffer(), &other.buffer())));
                }
                let buffer: B = run(&dispatch, &*self.buffer, &*other.buffer);
                Ok(Self::with_buffer_strider(buffer, dispatch.output))
            },
            Err(error) => Err(error),
        }
    }

    /// Returns a contiguous copy.
    pub fn contiguous<F: FnOnce(&Dispatch, &B) -> B>(&self, run: F) -> (result: Result<
        Self,
        TensorError,
    >)
        requires
            self.map_ready(UnaryOp::Id, run),
        ensures
            self.maps_to(UnaryOp::Id, run, result),
    {
        self.map(UnaryOp::Id, run)
    }

    /// Whether `run` can be called as `reshape` calls it: to copy this tensor, and only where it
    /// can take the shape but no layout of that shape lists its elements where they stand.
    pub open spec fn reshape_ready<F: FnOnce(&Dispatch, &B) -> B>(
        self,
        shape: Seq<usize>,
        run: F,
    ) -> bool {
        self.layout().can_reshape(shape) && !self.layout().has_view(shape) ==> self.map_ready(
            UnaryOp::Id,
            run,
        )
    }

    /// What `reshape` gives, with `run` to copy the elements where they have to move.
    pub open spec fn reshapes_to<F: FnOnce(&Dispatch, &B) -> B>(
        self,
        shape: Seq<usize>,
        run: F,
        result: Result<Self, TensorError>,
    ) -> bool {
        match result {
            Ok(tensor) => {
                &&& self.layout().can_reshape(shape)
                &&& self.layout().has_view(shape) ==> tensor.views(
                    self,
                    (Strided {
                        shape,
                        strides: self.layout().reshape_strides(shape),
                        offset: self.layout().offset,
                    }),
                ) && tensor.layout().same_elements(self.layout())
                &&& !self.layout().has_view(shape) ==> tensor.fills(shape) && exists|copy: Self|
                    #[trigger] self.maps_to(UnaryOp::Id, run, Ok(copy)) && tensor.buffer()
                        == copy.buffer()
            },
            Err(error) => if !self.layout().can_reshape(shape) {
                error == TensorError::SizeMismatch
            } else {
                &&& !self.layout().has_view(shape)
                &&& !dispatch::map_fits::<T>(self.layout())
                &&& error == TensorError::TooLarge
            },
        }
    }

    /// Returns a tensor of the given shape with the same elements in the same order. It shares
    /// the buffer of this one whenever some layout of that shape lists the elements where they
    /// stand; else `run` copies them.
    pub fn reshape<F: FnOnce(&Dispatch, &B) -> B>(&self, shape: &[usize], run: F) -> (result:
        Result<Self, TensorError>)
        requires
            self.reshape_ready(shape@, run),
        ensures
            self.reshapes_to(shape@, run, result),
    {
        proof {
            use_type_invariant(self);
        }
        match self.strider.validate_can_reshape(shape) {
            Ok(()) => {},
            Err(error) => {
                return Err(error);
            },
        }
        match self.strider.reshape(shape) {
            Ok(strider) => {
                proof {
                    use_type_invariant(&strider);
                    lemma_same_elements_within(strider@, self.layout(), self.buffer_len());
                    assert(self.layout().has_view(shape@));
                }
                return Ok(self.with_strider(strider));
            },
            Err(_) => {},
        }
        let copy: Self = match self.contiguous(run) {
            Ok(copy) => copy,
            Err(error) => {
                return Err(error);
            },
        };
        proof {
            use_type_invariant(&copy);
            lemma_needs_copy(self.layout(), shape@);
            strided::lemma_contiguous(copy.layout());
            lemma_contiguous_reshape(copy.layout(), shape@);
        }
        match copy.strider.reshape(shape) {
            Ok(strider) => {
                proof {
                    use_type_invariant(&strider);
                    lemma_same_elements_within(strider@, copy.layout(), copy.buffer_len());
                    assert(self.maps_to(UnaryOp::Id, run, Ok(copy)));
                    assert(copy.buffer_len() == self.layout().numel());
                }
                Ok(copy.with_strider(strider))
            },
            Err(error) => Err(error),
        }
    }

    /// Returns a tensor in the same buffer with its dimensions moved.
    pub fn permute(&self, permutation: &[usize]) -> (result: Result<Self, TensorError>)
        ensures
            match result {
                Ok(tensor) => {
                    &&& shape::is_permutation(permutation@, self.layout().shape.len())
                    &&& tensor.views(*self, self.layout().permute(permutation@))
                },
                Err(error) => {
                    &&& !shape::is_permutation(permutation@, self.layout().shape.len())
                    &&& error == if permutation@.len() != self.layout().shape.len() {
                        TensorError::RankMismatch
                    } else {
                        TensorError::NotAPermutation
                    }
                },
            },
    {
        proof {
            use_type_invariant(self);
        }
        match self.strider.validate_can_permute(permutation) {
            Ok(()) => {},
            Err(error) => {
                return Err(error);
            },
        }
        let strider: ShapeStrider = self.strider.permute(permutation);
        proof {
            strided::lemma_permute(self.layout(), permutation@);
            strided::lemma_within(self.layout(), self.buffer_len());
            strided::lemma_within(strider@, self.buffer_len());
        }
        Ok(self.with_strider(strider))
    }

    /// Returns a tensor in the same buffer that repeats the element of each dimension of size
    /// one that grows.
    pub fn expand(&self, shape: &[usize]) -> (result: Result<Self, TensorError>)
        ensures
            match result {
                Ok(tensor) => {
                    &&& self.layout().can_expand(shape@)
                    &&& shape::numel(shape@) <= usize::MAX
                    &&& tensor.views(*self, self.layout().expand(shape@))
                },
                Err(error) => if shape@.len() != self.layout().shape.len() {
                    error == TensorError::RankMismatch
                } else if !self.layout().can_expand(shape@) {
                    error == TensorError::CannotExpand
                } else {
                    shape::numel(shape@) > usize::MAX && error == TensorError::TooLarge
                },
            },
    {
        proof {
            use_type_invariant(self);
        }
        match self.strider.validate_can_expand(shape) {
            Ok(()) => {},
            Err(error) => {
                return Err(error);
            },
        }
        match self.strider.expand(shape) {
            Ok(strider) => {
                proof {
                    strided::lemma_expand(self.layout(), shape@);
                    strided::lemma_within(self.layout(), self.buffer_len());
                    strided::lemma_within(strider@, self.buffer_len());
                }
                Ok(self.with_strider(strider))
            },
            Err(error) => Err(error),
        }
    }

    /// Returns a tensor in the same buffer with the elements between the given limits.
    pub fn crop(&self, limits: &[(usize, usize)]) -> (result: Result<Self, TensorError>)
        ensures
            match result {
                Ok(tensor) => {
                    &&& self.layout().can_crop(limits@)
                    &&& tensor.views(*self, self.layout().crop(limits@))
                },
                Err(error) => {
                    &&& !self.layout().can_crop(limits@)
                    &&& error == if limits@.len() != self.layout().shape.len() {
                        TensorError::RankMismatch
                    } else {
                        TensorError::LimitsOutOfRange
                    }
                },
            },
    {
        proof {
            use_type_invariant(self);
        }
        match self.strider.validate_can_crop(limits) {
            Ok(()) => {},
            Err(error) => {
                return Err(error);
            },
        }
        let strider: ShapeStrider = self.strider.crop(limits);
        proof {
            strided::lemma_crop(self.layout(), limits@);
            strided::lemma_within(self.layout(), self.buffer_len());
            strided::lemma_within(strider@, self.buffer_len());
        }
        Ok(self.with_strider(strider))
    }

    /// Whether the elements of a contiguous tensor, and where they begin, can be addressed in
    /// bytes.
    pub open spec fn read_fits(self) -> bool {
        &&& dispatch::bytes_of::<T>(self.layout().numel()) <= usize::MAX
        &&& dispatch::bytes_of::<T>(self.layout().offset as nat) <= usize::MAX
    }

    /// Whether `read` gave `data` for the elements of a contiguous tensor: told the buffer, the
    /// byte at which they begin, and how many bytes they take.
    pub open spec fn reads<R: FnOnce(&B, u64, u64) -> Vec<T>>(self, read: R, data: Vec<T>) -> bool {
        call_ensures(
            read,
            (
                &self.buffer(),
                dispatch::bytes_of::<T>(self.layout().offset as nat) as u64,
                dispatch::bytes_of::<T>(self.layout().numel()) as u64,
            ),
            data,
        )
    }

    /// Whether `read` can be called on the buffer, the offset and the size of a contiguous tensor.
    pub open spec fn read_ready<R: FnOnce(&B, u64, u64) -> Vec<T>>(self, read: R) -> bool {
        self.read_fits() ==> call_requires(
            read,
            (
                &self.buffer(),
                dispatch::bytes_of::<T>(self.layout().offset as nat) as u64,
                dispatch::bytes_of::<T>(self.layout().numel()) as u64,
            ),
        )
    }

    /// Whether `run` and `read` can be called as `ravel` calls them: `read` on the elements where
    /// they stand, if that is one after the other; else `run` to copy them, and `read` on the copy.
    pub open spec fn ravel_ready<F: FnOnce(&Dispatch, &B) -> B, R: FnOnce(&B, u64, u64) -> Vec<T>>(
        self,
        run: F,
        read: R,
    ) -> bool {
        if self.layout().is_contiguous() {
            self.read_ready(read)
        } else {
            &&& self.map_ready(UnaryOp::Id, run)
            &&& forall|copy: Self| #[trigger]
                self.maps_to(UnaryOp::Id, run, Ok(copy)) ==> copy.read_ready(read)
        }
    }

    /// What `ravel` gives, with `run` to copy the elements where they do not stand one after the
    /// other, and `read` to bring them to the host.
    pub open spec fn ravels_to<F: FnOnce(&Dispatch, &B) -> B, R: FnOnce(&B, u64, u64) -> Vec<T>>(
        self,
        run: F,
        read: R,
        result: Result<Vec<T>, TensorError>,
    ) -> bool {
        if self.layout().is_contiguous() {
            match result {
                Ok(data) => self.read_fits() && self.reads(read, data),
                Err(error) => !self.read_fits() && error == TensorError::TooLarge,
            }
        } else {
            match result {
                Ok(data) => exists|copy: Self|
                    #[trigger] self.maps_to(UnaryOp::Id, run, Ok(copy)) && copy.reads(read, data),
                Err(error) => !dispatch::map_fits::<T>(self.layout()) && error
                    == TensorError::TooLarge,
            }
        }
    }

    /// Returns the elements in row-major order, which `read` copies to the host. Where they do
    /// not stand one after the other, `run` makes a contiguous copy first.
    pub fn ravel<F: FnOnce(&Dispatch, &B) -> B, R: FnOnce(&B, u64, u64) -> Vec<T>>(
        &self,
        run: F,
        read: R,
    ) -> (result: Result<Vec<T>, TensorError>)
        requires
            self.ravel_ready(run, read),
        ensures
            self.ravels_to(run, read, result),
    {
        if self.strider.is_contiguous() {
            return self.read_contiguous(read);
        }
        match self.contiguous(run) {
            Ok(copy) => {
                proof {
                    assert(self.maps_to(UnaryOp::Id, run, Ok(copy)));
                    assert(dispatch::bytes_of::<T>(0) == 0) by (nonlinear_arith);
                }
                copy.read_contiguous(read)
            },
            Err(error) => Err(error),
        }
    }

    /// Has `read` copy the elements of a contiguous tensor to the host.
    fn read_contiguous<R: FnOnce(&B, u64, u64) -> Vec<T>>(&self, read: R) -> (result: Result<
        Vec<T>,
        TensorError,
    >)
        requires
            self.read_ready(read),
        ensures
            match result {
                Ok(data) => self.read_fits() && self.reads(read, data),
                Err(error) => !self.read_fits() && error == TensorError::TooLarge,
            },
    {
        let size: u64 = match byte_size::<T>(self.strider.size()) {
            Some(bytes) => bytes,
            None => {
                return Err(TensorError::TooLarge);
            },
        };
        let offset: u64 = match byte_size::<T>(self.strider.offset()) {
            Some(bytes) => bytes,
            None => {
                return Err(TensorError::TooLarge);
            },
        };
        Ok(read(&*self.buffer, offset, size))
    }
}

impl<T, B> WgpuRawTensor<T, B> {
    /// Has `run` compute the exponential of each element.
    pub fn exp<F: FnOnce(&Dispatch, &B) -> B>(&self, run: F) -> (result: Result<Self, TensorError>)
        requires
            self.map_ready(UnaryOp::Exp, run),
        ensures
            self.maps_to(UnaryOp::Exp, run, result),
    {
        self.map(UnaryOp::Exp, run)
    }

    /// Has `run` compute the natural logarithm of each element.
    pub fn log<F: FnOnce(&Dispatch, &B) -> B>(&self, run: F) -> (result: Result<Self, TensorError>)
        requires
            self.map_ready(UnaryOp::Log, run),
        ensures
            self.maps_to(UnaryOp::Log, run, result),
    {
        self.map(UnaryOp::Log, run)
    }

    /// Has `run` compute the sums of the elements.
    pub fn add<F: FnOnce(&Dispatch, &B, &B) -> B>(&self, other: &Self, run: F) -> (result: Result<
        Self,
        TensorError,
    >)
        requires
            self.zip_ready(*other, BinaryOp::Add, run),
        ensures
            self.zips_to(*other, BinaryOp::Add, run, result),
    {
        self.zip(other, BinaryOp::Add, run)
    }

    /// Has `run` compute the differences of the elements.
    pub fn sub<F: FnOnce(&Dispatch, &B, &B) -> B>(&self, other: &Self, run: F) -> (result: Result<
        Self,
        TensorError,
    >)
        requires
            self.zip_ready(*other, BinaryOp::Sub, run),
        ensures
            self.zips_to(*other, BinaryOp::Sub, run, result),
    {
        self.zip(other, BinaryOp::Sub, run)
    }

    /// Has `run` compute the products of the elements.
    pub fn mul<F: FnOnce(&Dispatch, &B, &B) -> B>(&self, other: &Self, run: F) -> (result: Result<
        Self,
        TensorError,
    >)
        requires
            self.zip_ready(*other, BinaryOp::Mul, run),
        ensures
            self.zips_to(*other, BinaryOp::Mul, run, result),
    {
        self.zip(other, BinaryOp::Mul, run)
    }

    /// Has `run` compute the quotients of the elements.
    pub fn div<F: FnOnce(&Dispatch, &B, &B) -> B>(&self, other: &Self, run: F) -> (result: Result<
        Self,
        TensorError,
    >)
        requires
            self.zip_ready(*other, BinaryOp::Div, run),
        ensures
            self.zips_to(*other, BinaryOp::Div, run, result),
    {
        self.zip(other, BinaryOp::Div, run)
    }

    /// Has `run` compute the elements raised to the power of the other's.
    pub fn pow<F: FnOnce(&Dispatch, &B, &B) -> B>(&self, other: &Self, run: F) -> (result: Result<
        Self,
        TensorError,
    >)
        requires
            self.zip_ready(*other, BinaryOp::Pow, run),
        ensures
            self.zips_to(*other, BinaryOp::Pow, run, result),
    {
        self.zip(other, BinaryOp::Pow, run)
    }

    /// Has `run` compute one where the elements are equal, and zero elsewhere.
    pub fn eq<F: FnOnce(&Dispatch, &B, &B) -> B>(&self, other: &Self, run: F) -> (result: Result<
        Self,
        TensorError,
    >)
        requires
            self.zip_ready(*other, BinaryOp::Eq, run),
        ensures
            self.zips_to(*other, BinaryOp::Eq, run, result),
    {
        self.zip(other, BinaryOp::Eq, run)
    }

    /// Has `run` compute the sums of the elements along `axes`.
    pub fn sum<F: FnOnce(&Dispatch, &B) -> B>(&self, axes: &[usize], run: F) -> (result: Result<
        Self,
        TensorError,
    >)
        requires
            self.reduce_ready(axes@, ReduceOp::Sum, run),
        ensures
            self.reduces_to(axes@, ReduceOp::Sum, run, result),
    {
        self.reduce(axes, ReduceOp::Sum, run)
    }

    /// Has `run` compute the greatest of the elements along `axes`.
    pub fn max<F: FnOnce(&Dispatch, &B) -> B>(&self, axes: &[usize], run: F) -> (result: Result<
        Self,
        TensorError,
    >)
        requires
            self.reduce_ready(axes@, ReduceOp::Max, run),
        ensures
            self.reduces_to(axes@, ReduceOp::Max, run, result),
    {
        self.reduce(axes, ReduceOp::Max, run)
    }
}

/// A layout that lists the same elements lies within the same buffer.
pub proof fn lemma_same_elements_within(view: Strided, layout: Strided, len: nat)
    requires
        view.shape.len() == view.strides.len(),
        layout.shape.len() == layout.strides.len(),
        view.same_elements(layout),
        layout.within(len),
    ensures
        view.within(len),
{
    strided::lemma_within(view, len);
    strided::lemma_within(layout, len);
    if view.numel() > 0 {
        strided::lemma_ends(view);
        strided::lemma_ends(layout);
        assert(view.position(view.numel() - 1) == layout.position(layout.numel() - 1));
    }
}

/// A tensor without elements never has to be copied to be reshaped.
pub proof fn lemma_needs_copy(layout: Strided, shape: Seq<usize>)
    requires
        layout.can_reshape(shape),
        !layout.has_view(shape),
    ensures
        layout.numel() > 0,
{
    if layout.numel() == 0 {
        let view = Strided { shape, strides: shape, offset: 0 };
        assert(view.same_elements(layout));
    }
}

/// A contiguous tensor has a contiguous view of every shape of its size.
pub proof fn lemma_contiguous_reshape(layout: Strided, shape: Seq<usize>)
    requires
        layout.wf(),
        layout.is_contiguous(),
        layout.can_reshape(shape),
        layout.numel() > 0,
    ensures
        layout.has_view(shape),
        layout.view_strides(shape) == strided::contiguous_strides(shape),
{
    shape::lemma_fits(shape);
    let view = Strided {
        shape,
        strides: strided::contiguous_strides(shape),
        offset: layout.offset,
    };
    strided::lemma_contiguous(view);
    assert(view.same_elements(layout)) by {
        assert forall|k: int| 0 <= k < view.numel() implies #[trigger] view.position(k)
            == layout.position(k) by {
            assert(layout.position(k) == layout.offset + k);
        }
    }
    assert forall|j: int| 0 <= j < shape.len() implies #[trigger] layout.view_strides(shape)[j]
        == view.strides[j] by {
        let p = shape::numel(shape.skip(j + 1)) as int;
        assert(p <= usize::MAX);
        if shape[j] != 1 {
            shape::lemma_numel_positive(shape);
            assert(shape[j] > 0);
            strided::lemma_walk_stride(shape, view.strides, j);
            assert(layout.position(p) == layout.offset + p);
        }
    }
    assert(layout.view_strides(shape) =~= view.strides);
}

} // verus!
