//! What the device is told to do for one operation.

use vstd::bytes::*;
use vstd::prelude::*;

use crate::error::TensorError;
use crate::operation::BinaryOp;
use crate::operation::Operation;
use crate::operation::ReduceOp;
use crate::operation::UnaryOp;
use crate::shape;
use crate::shape_strider::ShapeStrider;
use crate::strided;
use crate::strided::Strided;
use crate::workgroups;
use crate::workgroups::WorkgroupSize;

verus! {

/// One run of a program of the device.
#[derive(Debug)]
pub struct Dispatch {
    /// The operation whose program is run.
    pub operation: Operation,
    /// The number of threads of each workgroup.
    pub workgroup_size: WorkgroupSize,
    /// The number of workgroups.
    pub workgroup_count: u32,
    /// Strides, shapes and what else the program reads about its tensors.
    pub parameters: Vec<u32>,
    /// The layout of the result.
    pub output: ShapeStrider,
    /// The number of bytes of the result.
    pub output_bytes: u64,
}

/// The lower ends of a sequence of pairs.
pub open spec fn lows(pairs: Seq<(usize, usize)>) -> Seq<usize> {
    Seq::new(pairs.len(), |i: int| pairs[i].0)
}

/// The upper ends of a sequence of pairs.
pub open spec fn highs(pairs: Seq<(usize, usize)>) -> Seq<usize> {
    Seq::new(pairs.len(), |i: int| pairs[i].1)
}

/// What a program reads about its tensors, in the order in which it reads it: the number of
/// dimensions, the offset of each input, and the elements per thread; then the strides of each
/// input and of the output, and the shape of the inputs; for a reduction the strides and the
/// shape of what is reduced, and the shape of the output; for a padding what is added before the
/// elements along each dimension, then what is added after them.
pub open spec fn strides_and_shapes(
    input: Strided,
    chunk_size: usize,
    other: Option<Strided>,
    output: Strided,
    reduced: Option<Strided>,
    padding: Option<Seq<(usize, usize)>>,
) -> Seq<usize> {
    seq![input.shape.len() as usize, input.offset] + (match other {
        Some(second) => seq![second.offset],
        None => Seq::empty(),
    }) + seq![chunk_size] + input.strides + (match other {
        Some(second) => second.strides,
        None => Seq::empty(),
    }) + output.strides + input.shape + (match reduced {
        Some(through) => through.strides + through.shape + output.shape,
        None => Seq::empty(),
    }) + (match padding {
        Some(pairs) => lows(pairs) + highs(pairs),
        None => Seq::empty(),
    })
}

/// Device words as machine integers of the host.
pub open spec fn widened(words: Seq<u32>) -> Seq<usize> {
    Seq::new(words.len(), |i: int| words[i] as usize)
}

/// Whether every one of `words` can be held in a word of the device.
pub open spec fn narrow(words: Seq<usize>) -> bool {
    forall|i: int| 0 <= i < words.len() ==> #[trigger] words[i] <= u32::MAX
}

/// The number of bytes of a tensor with elements of type `T`.
pub open spec fn bytes_of<T>(size: nat) -> nat {
    size * vstd::layout::size_of::<T>()
}

/// The tensors of an operation, and what is known of each.
pub struct Tensors {
    pub input: Strided,
    pub other: Option<Strided>,
    pub output: Strided,
    pub reduced: Option<Strided>,
    pub padding: Option<Seq<(usize, usize)>>,
}

impl Tensors {
    /// What the program reads about the tensors.
    pub open spec fn words(self, chunk_size: int) -> Seq<usize> {
        strides_and_shapes(
            self.input,
            chunk_size as usize,
            self.other,
            self.output,
            self.reduced,
            self.padding,
        )
    }

    /// Whether the result, with elements of type `T`, can be addressed in bytes, and everything
    /// that the program reads can be held by the device.
    pub open spec fn fits<T>(self, chunk_size: int) -> bool {
        &&& bytes_of::<T>(self.output.numel()) <= usize::MAX
        &&& narrow(self.words(chunk_size))
    }
}

impl Dispatch {
    /// Whether this is the run of `operation` on the given tensors, with elements of type `T`,
    /// spread as `counts` says: workgroup size, workgroup count and elements per thread.
    pub open spec fn runs<T>(
        self,
        operation: Operation,
        counts: ((int, int), int, int),
        tensors: Tensors,
    ) -> bool {
        &&& self.operation == operation
        &&& self.workgroup_size.0 == counts.0.0
        &&& self.workgroup_size.1 == counts.0.1
        &&& self.workgroup_count == counts.1
        &&& widened(self.parameters@) == tensors.words(counts.2)
        &&& self.output@ == tensors.output
        &&& self.output_bytes == bytes_of::<T>(tensors.output.numel())
    }

    /// The parameters as the bytes that the device gets: each word in the byte order of the
    /// machine, least significant byte first or last.
    pub fn parameter_bytes(&self) -> (bytes: &[u8])
        ensures
            bytes@ == bytes_low_first(self.parameters@) || bytes@ == bytes_high_first(
                self.parameters@,
            ),
    {
        words_as_bytes(self.parameters.as_slice())
    }
}

/// The bytes of a sequence of words, the least significant byte of each first.
pub open spec fn bytes_low_first(words: Seq<u32>) -> Seq<u8> {
    Seq::new(4 * words.len(), |i: int| spec_u32_to_le_bytes(words[i / 4])[i % 4])
}

/// The bytes of a sequence of words, the most significant byte of each first.
pub open spec fn bytes_high_first(words: Seq<u32>) -> Seq<u8> {
    Seq::new(4 * words.len(), |i: int| spec_u32_to_le_bytes(words[i / 4])[3 - i % 4])
}

/// The bytes in which the machine holds `words`. Calls `bytemuck::cast_slice` from words to
/// bytes, and claims that it gives the four bytes of each word in turn, in the byte order of the
/// machine. The cast cannot fail: a byte has no alignment and divides every length.
#[verifier::external_body]
fn words_as_bytes(words: &[u32]) -> (bytes: &[u8])
    ensures
        bytes@ == bytes_low_first(words@) || bytes@ == bytes_high_first(words@),
{
    bytemuck::cast_slice(words)
}

/// Appends `words` to `list`.
fn extend(list: &mut Vec<usize>, words: &[usize])
    ensures
        final(list)@ == old(list)@ + words@,
{
    let len: usize = words.len();
    let mut i: usize = 0;
    proof {
        assert(list@ =~= old(list)@ + words@.take(0));
    }
    while i < len
        invariant
            i <= len == words@.len(),
            list@ =~= old(list)@ + words@.take(i as int),
        decreases len - i,
    {
        list.push(words[i]);
        i += 1;
    }
    proof {
        assert(words@.take(len as int) =~= words@);
    }
}

/// The views of an optional layout.
pub open spec fn layout_of(strider: Option<&ShapeStrider>) -> Option<Strided> {
    match strider {
        Some(strider) => Some(strider@),
        None => None,
    }
}

/// The views of optional pairs.
pub open spec fn pairs_of(padding: Option<&[(usize, usize)]>) -> Option<Seq<(usize, usize)>> {
    match padding {
        Some(pairs) => Some(pairs@),
        None => None,
    }
}

/// What a program reads about its tensors.
pub fn get_strides_and_shapes(
    input: &ShapeStrider,
    chunk_size: usize,
    other: Option<&ShapeStrider>,
    output: &ShapeStrider,
    reduced: Option<&ShapeStrider>,
    padding: Option<&[(usize, usize)]>,
) -> (contents: Vec<usize>)
    ensures
        contents@ == strides_and_shapes(
            input@,
            chunk_size,
            layout_of(other),
            output@,
            layout_of(reduced),
            pairs_of(padding),
        ),
{
    let mut contents: Vec<usize> = Vec::new();
    contents.push(input.ndims());
    contents.push(input.offset());
    match other {
        Some(second) => {
            contents.push(second.offset());
        },
        None => {},
    }
    contents.push(chunk_size);
    extend(&mut contents, input.strides());
    match other {
        Some(second) => {
            extend(&mut contents, second.strides());
        },
        None => {},
    }
    extend(&mut contents, output.strides());
    extend(&mut contents, input.shape());
    match reduced {
        Some(through) => {
            extend(&mut contents, through.strides());
            extend(&mut contents, through.shape());
            extend(&mut contents, output.shape());
        },
        None => {},
    }
    let ghost unpadded = contents@;
    match padding {
        Some(pairs) => {
            let len: usize = pairs.len();
            let mut i: usize = 0;
            proof {
                assert(contents@ =~= unpadded + lows(pairs@).take(0));
            }
            while i < len
                invariant
                    i <= len == pairs@.len(),
                    contents@ =~= unpadded + lows(pairs@).take(i as int),
                decreases len - i,
            {
                contents.push(pairs[i].0);
                i += 1;
            }
            proof {
                assert(lows(pairs@).take(len as int) =~= lows(pairs@));
                assert(contents@ =~= unpadded + lows(pairs@) + highs(pairs@).take(0));
            }
            i = 0;
            while i < len
                invariant
                    i <= len == pairs@.len(),
                    contents@ =~= unpadded + lows(pairs@) + highs(pairs@).take(i as int),
                decreases len - i,
            {
                contents.push(pairs[i].1);
                i += 1;
            }
            proof {
                assert(highs(pairs@).take(len as int) =~= highs(pairs@));
            }
        },
        None => {},
    }
    proof {
        assert(contents@ =~= strides_and_shapes(
            input@,
            chunk_size,
            layout_of(other),
            output@,
            layout_of(reduced),
            pairs_of(padding),
        ));
    }
    contents
}

/// The words as the device holds them, if it can.
pub fn device_words(contents: &[usize]) -> (words: Option<Vec<u32>>)
    ensures
        words is Some <==> narrow(contents@),
        words matches Some(list) ==> widened(list@) == contents@,
        words is Some <==> forall|i: int|
            0 <= i < contents@.len() ==> #[trigger] contents@[i] <= u32::MAX,
        words matches Some(list) ==> list@.len() == contents@.len() && forall|i: int|
            0 <= i < contents@.len() ==> #[trigger] list@[i] == contents@[i],
{
    let mut words: Vec<u32> = Vec::new();
    let len: usize = contents.len();
    let mut i: usize = 0;
    while i < len
        invariant
            i <= len == contents@.len(),
            words@.len() == i,
            forall|j: int|
                0 <= j < i ==> #[trigger] contents@[j] <= u32::MAX && words@[j] == contents@[j],
        decreases len - i,
    {
        if contents[i] > u32::MAX as usize {
            proof {
                assert(contents@[i as int] > u32::MAX);
            }
            return None;
        }
        words.push(contents[i] as u32);
        i += 1;
    }
    proof {
        assert(widened(words@) =~= contents@);
    }
    Some(words)
}

/// The number of bytes of `size` elements of type `T`, if it can be held.
pub fn byte_size<T>(size: usize) -> (bytes: Option<u64>)
    ensures
        bytes is Some <==> bytes_of::<T>(size as nat) <= usize::MAX,
        bytes matches Some(n) ==> n == bytes_of::<T>(size as nat),
        bytes is Some <==> size * vstd::layout::size_of::<T>() <= usize::MAX,
        bytes matches Some(n) ==> n == size * vstd::layout::size_of::<T>(),
{
    let element: usize = core::mem::size_of::<T>();
    match size.checked_mul(element) {
        Some(bytes) => Some(bytes as u64),
        None => None,
    }
}

/// The run of an operation on given tensors, spread as given.
fn run_of<T>(
    operation: Operation,
    counts: (WorkgroupSize, usize, usize),
    input: &ShapeStrider,
    other: Option<&ShapeStrider>,
    output: ShapeStrider,
    reduced: Option<&ShapeStrider>,
    padding: Option<&[(usize, usize)]>,
) -> (result: Result<Dispatch, TensorError>)
    requires
        counts.1 <= workgroups::MAX_WORKGROUP_COUNT,
    ensures
        ({
            let tensors = Tensors {
                input: input@,
                other: layout_of(other),
                output: output@,
                reduced: layout_of(reduced),
                padding: pairs_of(padding),
            };
            match result {
                Ok(dispatch) => tensors.fits::<T>(counts.2 as int) && dispatch.runs::<T>(
                    operation,
                    workgroups::as_counts(counts),
                    tensors,
                ),
                Err(error) => !tensors.fits::<T>(counts.2 as int) && error
                    == TensorError::TooLarge,
            }
        }),
{
    let output_bytes: u64 = match byte_size::<T>(output.size()) {
        Some(bytes) => bytes,
        None => {
            return Err(TensorError::TooLarge);
        },
    };
    let contents: Vec<usize> = get_strides_and_shapes(
        input,
        counts.2,
        other,
        &output,
        reduced,
        padding,
    );
    match device_words(contents.as_slice()) {
        Some(parameters) => Ok(
            Dispatch {
                operation,
                workgroup_size: counts.0,
                workgroup_count: counts.1 as u32,
                parameters,
                output,
                output_bytes,
            },
        ),
        None => Err(TensorError::TooLarge),
    }
}

/// Workgroup counts for a number of elements, if they can be computed.
fn counts_for(size: usize) -> (counts: Option<(WorkgroupSize, usize, usize)>)
    ensures
        counts is Some <==> workgroups::countable(size as int),
        counts matches Some(all) ==> workgroups::as_counts(all) == workgroups::counts(size as int)
            && all.1 <= workgroups::MAX_WORKGROUP_COUNT,
{
    if size > usize::MAX - workgroups::MAX_WORKGROUP_COUNT {
        return None;
    }
    proof {
        workgroups::law_counts_cover_and_keep_limits(size as int);
    }
    Some(workgroups::counts_n_sizes(size))
}

/// The tensors of a unary operation: the result is contiguous.
pub open spec fn map_tensors(input: Strided) -> Tensors {
    Tensors {
        input,
        other: None,
        output: Strided::contiguous(input.shape),
        reduced: None,
        padding: None,
    }
}

/// Whether the host and the device can hold what a unary operation takes.
pub open spec fn map_fits<T>(input: Strided) -> bool {
    &&& shape::fits(input.shape)
    &&& workgroups::countable(input.numel() as int)
    &&& map_tensors(input).fits::<T>(workgroups::counts(input.numel() as int).2)
}

/// The run of a unary operation: the result is a contiguous tensor of the same shape.
pub fn map_dispatch<T>(input: &ShapeStrider, operation: UnaryOp) -> (result: Result<
    Dispatch,
    TensorError,
>)
    ensures
        match result {
            Ok(dispatch) => map_fits::<T>(input@) && dispatch.runs::<T>(
                Operation::Unary(operation),
                workgroups::counts(input@.numel() as int),
                map_tensors(input@),
            ),
            Err(error) => !map_fits::<T>(input@) && error == TensorError::TooLarge,
        },
{
    let output: ShapeStrider = match ShapeStrider::contiguous(input.shape()) {
        Ok(strider) => strider,
        Err(error) => {
            return Err(error);
        },
    };
    match counts_for(output.size()) {
        Some(counts) => run_of::<T>(
            Operation::Unary(operation),
            counts,
            input,
            None,
            output,
            None,
            None,
        ),
        None => Err(TensorError::TooLarge),
    }
}

/// The tensors of a binary operation: the result is contiguous.
pub open spec fn zip_tensors(input: Strided, other: Strided) -> Tensors {
    Tensors {
        input,
        other: Some(other),
        output: Strided::contiguous(input.shape),
        reduced: None,
        padding: None,
    }
}

/// Whether the host and the device can hold what a binary operation takes.
pub open spec fn zip_fits<T>(input: Strided, other: Strided) -> bool {
    &&& shape::fits(input.shape)
    &&& workgroups::countable(input.numel() as int)
    &&& zip_tensors(input, other).fits::<T>(workgroups::counts(input.numel() as int).2)
}

/// The run of a binary operation on two tensors of one shape: the result is a contiguous tensor
/// of that shape.
pub fn zip_dispatch<T>(
    input: &ShapeStrider,
    other: &ShapeStrider,
    operation: BinaryOp,
) -> (result: Result<Dispatch, TensorError>)
    ensures
        match result {
            Ok(dispatch) => {
                &&& input@.shape == other@.shape
                &&& zip_fits::<T>(input@, other@)
                &&& dispatch.runs::<T>(
                    Operation::Binary(operation),
                    workgroups::counts(input@.numel() as int),
                    zip_tensors(input@, other@),
                )
            },
            Err(error) => if input@.shape != other@.shape {
                error == TensorError::ShapeMismatch
            } else {
                !zip_fits::<T>(input@, other@) && error == TensorError::TooLarge
            },
        },
{
    match input.validate_can_zip(other) {
        Ok(()) => {},
        Err(error) => {
            return Err(error);
        },
    }
    let output: ShapeStrider = match ShapeStrider::contiguous(input.shape()) {
        Ok(strider) => strider,
        Err(error) => {
            return Err(error);
        },
    };
    match counts_for(output.size()) {
        Some(counts) => run_of::<T>(
            Operation::Binary(operation),
            counts,
            input,
            Some(other),
            output,
            None,
            None,
        ),
        None => Err(TensorError::TooLarge),
    }
}

/// The tensors of a reduction.
pub open spec fn reduce_tensors(input: Strided, axes: Seq<usize>) -> Tensors {
    Tensors {
        input,
        other: None,
        output: Strided::contiguous(strided::kept_shape(input.shape, axes)),
        reduced: Some(Strided::contiguous(strided::reduced_shape(input.shape, axes))),
        padding: None,
    }
}

/// How a reduction is spread.
pub open spec fn reduce_spread(input: Strided, axes: Seq<usize>) -> ((int, int), int, int) {
    workgroups::reduce_counts(
        input.numel() as int,
        shape::numel(strided::kept_shape(input.shape, axes)) as int,
    )
}

/// Whether the layouts of what a reduction leaves and goes through can be held.
pub open spec fn reduce_layouts_fit(input: Strided, axes: Seq<usize>) -> bool {
    &&& shape::fits(strided::kept_shape(input.shape, axes))
    &&& shape::fits(strided::reduced_shape(input.shape, axes))
}

/// Whether the host and the device can hold what a reduction takes.
pub open spec fn reduce_fits<T>(input: Strided, axes: Seq<usize>) -> bool {
    &&& reduce_layouts_fit(input, axes)
    &&& workgroups::countable(shape::numel(strided::kept_shape(input.shape, axes)) as int)
    &&& reduce_tensors(input, axes).fits::<T>(reduce_spread(input, axes).2)
}

/// The run of a reduction over `axes`: the result is a contiguous tensor with size one along
/// each of them.
pub fn reduce_dispatch<T>(input: &ShapeStrider, axes: &[usize], operation: ReduceOp) -> (result:
    Result<Dispatch, TensorError>)
    ensures
        match result {
            Ok(dispatch) => {
                &&& input@.can_reduce(axes@)
                &&& shape::numel(strided::kept_shape(input@.shape, axes@)) > 0
                &&& reduce_fits::<T>(input@, axes@)
                &&& dispatch.runs::<T>(
                    Operation::Reduce(operation),
                    reduce_spread(input@, axes@),
                    reduce_tensors(input@, axes@),
                )
            },
            Err(error) => if !input@.can_reduce(axes@) {
                error == TensorError::AxisOutOfRange
            } else if reduce_layouts_fit(input@, axes@) && shape::numel(
                strided::kept_shape(input@.shape, axes@),
            ) == 0 {
                error == TensorError::NothingLeft
            } else {
                !reduce_fits::<T>(input@, axes@) && error == TensorError::TooLarge
            },
        },
{
    match input.validate_can_reduce(axes) {
        Ok(()) => {},
        Err(error) => {
            return Err(error);
        },
    }
    let output: ShapeStrider = match input.reduce(axes) {
        Ok(strider) => strider,
        Err(error) => {
            return Err(error);
        },
    };
    let reduced: ShapeStrider = match input.reduced(axes) {
        Ok(strider) => strider,
        Err(error) => {
            return Err(error);
        },
    };
    let size: usize = output.size();
    if size == 0 {
        return Err(TensorError::NothingLeft);
    }
    if size > usize::MAX - workgroups::MAX_WORKGROUP_COUNT {
        return Err(TensorError::TooLarge);
    }
    proof {
        workgroups::law_reduce_counts_cover_and_keep_limits(
            input@.numel() as int,
            size as int,
        );
    }
    let counts: (WorkgroupSize, usize, usize) = workgroups::counts_n_sizes_reduce(
        input.size(),
        size,
    );
    run_of::<T>(
        Operation::Reduce(operation),
        counts,
        input,
        None,
        output,
        Some(&reduced),
        None,
    )
}

/// The tensors of a padding.
pub open spec fn pad_tensors(input: Strided, padding: Seq<(usize, usize)>) -> Tensors {
    Tensors {
        input,
        other: None,
        output: Strided::contiguous(strided::padded_shape(input.shape, padding)),
        reduced: None,
        padding: Some(padding),
    }
}

/// Whether the host and the device can hold what a padding takes.
pub open spec fn pad_dispatch_fits<T>(input: Strided, padding: Seq<(usize, usize)>) -> bool {
    let size = shape::numel(strided::padded_shape(input.shape, padding)) as int;
    &&& strided::pad_fits(input.shape, padding)
    &&& workgroups::countable(size)
    &&& pad_tensors(input, padding).fits::<T>(workgroups::counts(size).2)
}

/// The run of a padding: the result is a contiguous tensor with its dimensions grown by what is
/// added before and after each.
pub fn pad_dispatch<T>(input: &ShapeStrider, padding: &[(usize, usize)]) -> (result: Result<
    Dispatch,
    TensorError,
>)
    ensures
        match result {
            Ok(dispatch) => {
                &&& padding@.len() == input@.shape.len()
                &&& pad_dispatch_fits::<T>(input@, padding@)
                &&& dispatch.runs::<T>(
                    Operation::Pad,
                    workgroups::counts(
                        shape::numel(strided::padded_shape(input@.shape, padding@)) as int,
                    ),
                    pad_tensors(input@, padding@),
                )
            },
            Err(error) => if padding@.len() != input@.shape.len() {
                error == TensorError::RankMismatch
            } else {
                !pad_dispatch_fits::<T>(input@, padding@) && error == TensorError::TooLarge
            },
        },
{
    match input.validate_can_pad(padding) {
        Ok(()) => {},
        Err(error) => {
            return Err(error);
        },
    }
    let output: ShapeStrider = match input.pad(padding) {
        Ok(strider) => strider,
        Err(error) => {
            return Err(error);
        },
    };
    match counts_for(output.size()) {
        Some(counts) => run_of::<T>(
            Operation::Pad,
            counts,
            input,
            None,
            output,
            None,
            Some(padding),
        ),
        None => Err(TensorError::TooLarge),
    }
}

/// The tensors of a multiplication followed by a sum.
pub open spec fn fused_tensors(input: Strided, other: Strided, axes: Seq<usize>) -> Tensors {
    Tensors {
        input,
        other: Some(other),
        output: Strided::contiguous(strided::kept_shape(input.shape, axes)),
        reduced: Some(Strided::contiguous(strided::reduced_shape(input.shape, axes))),
        padding: None,
    }
}

/// Whether the host and the device can hold what a multiplication followed by a sum takes.
pub open spec fn fused_fits<T>(input: Strided, other: Strided, axes: Seq<usize>) -> bool {
    let size = shape::numel(strided::kept_shape(input.shape, axes)) as int;
    &&& reduce_layouts_fit(input, axes)
    &&& workgroups::countable(size)
    &&& fused_tensors(input, other, axes).fits::<T>(workgroups::counts(size).2)
}

/// The run of a multiplication of two tensors of one shape, followed by a sum over `axes`: the
/// result is a contiguous tensor with size one along each of them.
pub fn fused_multiply_add_dispatch<T>(
    input: &ShapeStrider,
    other: &ShapeStrider,
    axes: &[usize],
) -> (result: Result<Dispatch, TensorError>)
    ensures
        match result {
            Ok(dispatch) => {
                &&& input@.shape == other@.shape
                &&& input@.can_reduce(axes@)
                &&& fused_fits::<T>(input@, other@, axes@)
                &&& dispatch.runs::<T>(
                    Operation::FusedMulAdd,
                    workgroups::counts(
                        shape::numel(strided::kept_shape(input@.shape, axes@)) as int,
                    ),
                    fused_tensors(input@, other@, axes@),
                )
            },
            Err(error) => if input@.shape != other@.shape {
                error == TensorError::ShapeMismatch
            } else if !input@.can_reduce(axes@) {
                error == TensorError::AxisOutOfRange
            } else {
                !fused_fits::<T>(input@, other@, axes@) && error == TensorError::TooLarge
            },
        },
{
    match input.validate_can_zip(other) {
        Ok(()) => {},
        Err(error) => {
            return Err(error);
        },
    }
    match input.validate_can_reduce(axes) {
        Ok(()) => {},
        Err(error) => {
            return Err(error);
        },
    }
    let output: ShapeStrider = match input.reduce(axes) {
        Ok(strider) => strider,
        Err(error) => {
            return Err(error);
        },
    };
    let reduced: ShapeStrider = match input.reduced(axes) {
        Ok(strider) => strider,
        Err(error) => {
            return Err(error);
        },
    };
    match counts_for(output.size()) {
        Some(counts) => run_of::<T>(
            Operation::FusedMulAdd,
            counts,
            input,
            Some(other),
            output,
            Some(&reduced),
            None,
        ),
        None => Err(TensorError::TooLarge),
    }
}

} // verus!
