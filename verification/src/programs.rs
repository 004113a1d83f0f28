//! What the device's programs compute, told nothing but the words that they are given.
//!
//! A program knows its tensors only from the words of its run. Here each program is described as a
//! function of those words and of the buffers alone, and the laws say what the operations of a
//! tensor then do to its entries: the words are the right ones, for every shape, stride and offset.

use vstd::arithmetic::div_mod::*;
use vstd::arithmetic::mul::*;
use vstd::prelude::*;

use crate::dispatch;
use crate::dispatch::Dispatch;
use crate::dispatch::Tensors;
use crate::elements;
use crate::error::TensorError;
use crate::laws;
use crate::operation::BinaryOp;
use crate::operation::Operation;
use crate::operation::ReduceOp;
use crate::operation::UnaryOp;
use crate::raw_tensor;
use crate::raw_tensor::WgpuRawTensor;
use crate::shape;
use crate::strided;
use crate::strided::Strided;
use crate::workgroups;
use crate::workgroups::WorkgroupSize;

verus! {

/// The entry of a tensor with the given multi-index, where `held` gives what a buffer holds.
pub open spec fn entry<T, B>(
    tensor: WgpuRawTensor<T, B>,
    held: spec_fn(B) -> Seq<T>,
    index: Seq<int>,
) -> T {
    held(tensor.buffer())[tensor.layout().offset + shape::dot(index, tensor.layout().strides)]
}

/// The word for dimension `d` among those from number `at` on.
pub open spec fn word(words: Seq<u32>, at: int, d: int) -> int {
    words[at + d] as int
}

/// As many words as there are dimensions, from number `at` on.
pub open spec fn part(words: Seq<u32>, at: int) -> Seq<usize> {
    Seq::new(words[0] as nat, |d: int| words[at + d] as usize)
}

/// The multi-index that a program works out for number `i`, from the strides at `strides_at` and
/// the sizes at `sizes_at`.
pub open spec fn coordinates(words: Seq<u32>, i: int, strides_at: int, sizes_at: int) -> Seq<int> {
    Seq::new(
        words[0] as nat,
        |d: int| (i / word(words, strides_at, d)) % word(words, sizes_at, d),
    )
}

/// Whether a program can work out multi-indices from those words: none of them is zero.
pub open spec fn divides(words: Seq<u32>, strides_at: int, sizes_at: int) -> bool {
    forall|d: int|
        0 <= d < words[0] ==> #[trigger] word(words, strides_at, d) > 0 && word(words, sizes_at, d)
            > 0
}

/// What WebGPU accepts of the workgroups of a run.
pub open spec fn accepted(run: Dispatch) -> bool {
    &&& 1 <= run.workgroup_size.0 * run.workgroup_size.1 <= 256
    &&& run.workgroup_count <= 65535
}

/// Whether a thread of a run takes on element `i` of the result, with `chunk_size` elements for
/// each thread.
pub open spec fn reached<T>(run: Dispatch, chunk_size: int, i: int) -> bool {
    &&& 0 <= i < run.workgroup_size.0 * run.workgroup_count * chunk_size
    &&& (i + 1) * vstd::layout::size_of::<T>() <= run.output_bytes
}

/// Whether the buffer that comes out of a run has the size that the run asks for, where that is
/// the size of a number of elements.
pub open spec fn sized<T, B>(run: Dispatch, output: B, held: spec_fn(B) -> Seq<T>) -> bool {
    let bytes = vstd::layout::size_of::<T>() as int;
    bytes > 0 && run.output_bytes as int % bytes == 0 ==> held(output).len() * bytes
        == run.output_bytes
}

/// Where the program of a unary operation reads for element `i`.
pub open spec fn map_position(words: Seq<u32>, i: int) -> int {
    let n = words[0] as int;
    words[1] + shape::dot(coordinates(words, i, 3 + n, 3 + 2 * n), part(words, 3))
}

/// Whether `run` runs the program of a unary operation that computes `f`.
pub open spec fn runs_map<T, B, F: FnOnce(&Dispatch, &B) -> B>(
    run: F,
    held: spec_fn(B) -> Seq<T>,
    operation: UnaryOp,
    f: spec_fn(T) -> T,
) -> bool {
    forall|d: &Dispatch, input: B, output: B| #[trigger]
        call_ensures(run, (d, &input), output) && d.operation == Operation::Unary(operation) ==> {
            &&& sized(*d, output, held)
            &&& forall|i: int|
                accepted(*d) && reached::<T>(*d, d.parameters@[2] as int, i) && divides(
                    d.parameters@,
                    3 + d.parameters@[0],
                    3 + 2 * d.parameters@[0],
                ) && 0 <= map_position(d.parameters@, i) < held(input).len()
                    ==> #[trigger] held(output)[i] == f(
                    held(input)[map_position(d.parameters@, i)],
                )
        }
}

/// The digits of a row-major number.
proof fn lemma_digits(shape: Seq<usize>, k: int)
    requires
        0 <= k < shape::numel(shape),
    ensures
        shape::unravel(shape, k).len() == shape.len(),
        forall|d: int|
            0 <= d < shape.len() ==> #[trigger] shape::unravel(shape, k)[d] == (k / (shape::numel(
                shape.skip(d + 1),
            ) as int)) % (shape[d] as int),
    decreases shape.len(),
{
    if shape.len() > 0 {
        let n = shape.last() as int;
        let rest = shape.drop_last();
        shape::lemma_step_in_bounds(shape, k);
        lemma_digits(rest, k / n);
        assert forall|d: int| 0 <= d < shape.len() implies #[trigger] shape::unravel(shape, k)[d]
            == (k / (shape::numel(shape.skip(d + 1)) as int)) % (shape[d] as int) by {
            if d == shape.len() - 1 {
                assert(shape.skip(d + 1) =~= Seq::empty());
                lemma_div_basics(k);
            } else {
                assert(shape.skip(d + 1).drop_last() =~= rest.skip(d + 1));
                let m = shape::numel(rest.skip(d + 1)) as int;
                shape::lemma_numel_part(rest, d + 1);
                lemma_mul_is_commutative(m, n);
                lemma_div_denominator(k, n, m);
                assert(shape::unravel(rest, k / n)[d] == ((k / n) / m) % (rest[d] as int));
            }
        }
    }
}

/// Where the words give a shape and its contiguous strides, a program works out the multi-index.
proof fn lemma_coordinates(
    words: Seq<u32>,
    i: int,
    strides_at: int,
    sizes_at: int,
    shape: Seq<usize>,
)
    requires
        0 <= i < shape::numel(shape),
        shape::fits(shape),
        part(words, strides_at) == strided::contiguous_strides(shape),
        part(words, sizes_at) == shape,
        words.len() > 0,
        words[0] == shape.len(),
        0 <= strides_at,
        0 <= sizes_at,
        strides_at + shape.len() <= words.len(),
        sizes_at + shape.len() <= words.len(),
    ensures
        coordinates(words, i, strides_at, sizes_at) == shape::unravel(shape, i),
        divides(words, strides_at, sizes_at),
{
    lemma_digits(shape, i);
    shape::lemma_numel_positive(shape);
    assert forall|d: int| 0 <= d < words[0] implies #[trigger] word(words, strides_at, d) > 0
        && word(words, sizes_at, d) > 0 by {
        assert(part(words, strides_at)[d] == strided::contiguous_strides(shape)[d]);
        assert(part(words, sizes_at)[d] == shape[d]);
        assert(shape[d] > 0);
        shape::lemma_numel_part(shape, d + 1);
        assert(shape::numel(shape.skip(d + 1)) <= usize::MAX);
        let step = words[strides_at + d];
        assert(part(words, strides_at)[d] == step as usize);
    }
    assert forall|d: int| 0 <= d < shape.len() implies #[trigger] coordinates(
        words,
        i,
        strides_at,
        sizes_at,
    )[d] == shape::unravel(shape, i)[d] by {
        assert(part(words, strides_at)[d] == strided::contiguous_strides(shape)[d]);
        assert(part(words, sizes_at)[d] == shape[d]);
        assert(shape::numel(shape.skip(d + 1)) <= usize::MAX);
        let step = words[strides_at + d];
        assert(part(words, strides_at)[d] == step as usize);
        assert(strided::contiguous_strides(shape)[d] == shape::numel(shape.skip(d + 1)));
        assert(step == shape::numel(shape.skip(d + 1)));
        assert(words[sizes_at + d] == shape[d]);
        assert(shape::unravel(shape, i)[d] == (i / (shape::numel(shape.skip(d + 1)) as int)) % (
        shape[d] as int));
    }
    assert(coordinates(words, i, strides_at, sizes_at) =~= shape::unravel(shape, i));
}

/// Every word of a run stands where its program reads it: the number of dimensions, the offset of
/// each input, and the elements per thread; the strides of each input, and of the result; the
/// shape of the inputs; the strides and the shape of what is reduced, and the shape of the result;
/// what is added before, and what is added after.
pub proof fn law_words_stand_where_they_are_read<T>(
    run: Dispatch,
    operation: Operation,
    counts: ((int, int), int, int),
    tensors: Tensors,
)
    requires
        run.runs::<T>(operation, counts, tensors),
        laws::one_rank(tensors),
        0 <= counts.2 <= usize::MAX,
    ensures
        ({
            let words = run.parameters@;
            let n = tensors.input.shape.len() as int;
            &&& words[0] == n
            &&& words[1] == tensors.input.offset
            &&& words.len() == tensors.words(counts.2).len()
            &&& tensors.other is None ==> {
                &&& words[2] == counts.2
                &&& part(words, 3) == tensors.input.strides
                &&& part(words, 3 + n) == tensors.output.strides
                &&& part(words, 3 + 2 * n) == tensors.input.shape
                &&& tensors.reduced matches Some(reduced) ==> {
                    &&& part(words, 3 + 3 * n) == reduced.strides
                    &&& part(words, 3 + 4 * n) == reduced.shape
                    &&& part(words, 3 + 5 * n) == tensors.output.shape
                }
                &&& tensors.padding matches Some(pairs) ==> forall|d: int|
                    0 <= d < n ==> {
                        let at = if tensors.reduced is Some {
                            3 + 6 * n
                        } else {
                            3 + 3 * n
                        };
                        &&& part(words, at)[d] == (#[trigger] pairs[d]).0
                        &&& part(words, at + n)[d] == pairs[d].1
                    }
            }
            &&& tensors.other matches Some(other) ==> {
                &&& words[2] == other.offset
                &&& words[3] == counts.2
                &&& part(words, 4) == tensors.input.strides
                &&& part(words, 4 + n) == other.strides
                &&& part(words, 4 + 2 * n) == tensors.output.strides
                &&& part(words, 4 + 3 * n) == tensors.input.shape
                &&& tensors.reduced matches Some(reduced) ==> {
                    &&& part(words, 4 + 4 * n) == reduced.strides
                    &&& part(words, 4 + 5 * n) == reduced.shape
                    &&& part(words, 4 + 6 * n) == tensors.output.shape
                }
                &&& tensors.padding matches Some(pairs) ==> forall|d: int|
                    0 <= d < n ==> {
                        let at = if tensors.reduced is Some {
                            4 + 7 * n
                        } else {
                            4 + 4 * n
                        };
                        &&& part(words, at)[d] == (#[trigger] pairs[d]).0
                        &&& part(words, at + n)[d] == pairs[d].1
                    }
            }
        }),
{
    let words = run.parameters@;
    let n = tensors.input.shape.len() as int;
    let all = tensors.words(counts.2);
    assert(dispatch::widened(words) == all);
    assert(run.parameters.len() == words.len());
    let empty = Seq::<usize>::empty();
    let head = seq![tensors.input.shape.len() as usize, tensors.input.offset];
    let (offset, other) = match tensors.other {
        Some(other) => (seq![other.offset], other.strides),
        None => (empty, empty),
    };
    let chunk = seq![counts.2 as usize];
    let reduced = match tensors.reduced {
        Some(reduced) => reduced.strides + reduced.shape + tensors.output.shape,
        None => empty,
    };
    let padding = match tensors.padding {
        Some(pairs) => dispatch::lows(pairs) + dispatch::highs(pairs),
        None => empty,
    };
    let p1 = head + offset;
    let p2 = p1 + chunk;
    let p3 = p2 + tensors.input.strides;
    let p4 = p3 + other;
    let p5 = p4 + tensors.output.strides;
    let p6 = p5 + tensors.input.shape;
    let p7 = p6 + reduced;
    assert(all == p7 + padding);
    assert(begins(all, all)) by {
        reveal(begins);
    }
    lemma_stands(all, p7, padding);
    lemma_stands(all, p6, reduced);
    lemma_stands(all, p5, tensors.input.shape);
    lemma_stands(all, p4, tensors.output.strides);
    lemma_stands(all, p3, other);
    lemma_stands(all, p2, tensors.input.strides);
    lemma_stands(all, p1, chunk);
    lemma_stands(all, head, offset);
    assert(given(words, all)) by {
        reveal(given);
        assert forall|j: int| 0 <= j < all.len() implies #[trigger] words[j] == all[j] by {
            assert(dispatch::widened(words)[j] == all[j]);
        }
    }
    assert(words[0] == head[0] && words[1] == head[1]) by {
        reveal(begins);
        reveal(given);
        assert(all[0] == head[0] && all[1] == head[1]);
    }
    lemma_word(words, all, p1.len() as int, chunk);
    if tensors.other is Some {
        lemma_word(words, all, head.len() as int, offset);
        lemma_part(words, all, p3.len() as int, other);
    }
    lemma_part(words, all, p2.len() as int, tensors.input.strides);
    lemma_part(words, all, p4.len() as int, tensors.output.strides);
    lemma_part(words, all, p5.len() as int, tensors.input.shape);
    let at = p6.len() as int;
    if tensors.reduced is Some {
        let through = tensors.reduced->0;
        lemma_stands_split(all, at, through.strides + through.shape, tensors.output.shape);
        lemma_stands_split(all, at, through.strides, through.shape);
        lemma_part(words, all, at, through.strides);
        lemma_part(words, all, at + n, through.shape);
        lemma_part(words, all, at + 2 * n, tensors.output.shape);
    }
    if tensors.padding is Some {
        let pairs = tensors.padding->0;
        let after = p7.len() as int;
        lemma_stands_split(all, after, dispatch::lows(pairs), dispatch::highs(pairs));
        lemma_part(words, all, after, dispatch::lows(pairs));
        lemma_part(words, all, after + n, dispatch::highs(pairs));
    }
}

/// Whether a sequence begins with the given one.
#[verifier::opaque]
spec fn begins(all: Seq<usize>, start: Seq<usize>) -> bool {
    &&& start.len() <= all.len()
    &&& forall|j: int| 0 <= j < start.len() ==> #[trigger] all[j] == start[j]
}

/// Whether a piece stands in a sequence at the given place.
#[verifier::opaque]
spec fn stands(all: Seq<usize>, at: int, piece: Seq<usize>) -> bool {
    &&& 0 <= at
    &&& at + piece.len() <= all.len()
    &&& forall|k: int| 0 <= k < piece.len() ==> #[trigger] piece[k] == all[at + k]
}

/// Whether words of the device are the given numbers.
#[verifier::opaque]
spec fn given(words: Seq<u32>, all: Seq<usize>) -> bool {
    &&& words.len() == all.len()
    &&& forall|j: int| 0 <= j < all.len() ==> #[trigger] words[j] == all[j]
}

/// The last piece of a start stands where it ends, and what comes before it is a start too.
proof fn lemma_stands(all: Seq<usize>, before: Seq<usize>, piece: Seq<usize>)
    requires
        begins(all, before + piece),
    ensures
        begins(all, before),
        stands(all, before.len() as int, piece),
{
    reveal(begins);
    reveal(stands);
    assert forall|j: int| 0 <= j < before.len() implies #[trigger] all[j] == before[j] by {
        assert((before + piece)[j] == before[j]);
    }
    assert forall|k: int| 0 <= k < piece.len() implies #[trigger] piece[k] == all[before.len()
        + k] by {
        assert((before + piece)[before.len() + k] == piece[k]);
    }
}

/// Two pieces that stand together stand one after the other.
proof fn lemma_stands_split(all: Seq<usize>, at: int, first: Seq<usize>, second: Seq<usize>)
    requires
        stands(all, at, first + second),
    ensures
        stands(all, at, first),
        stands(all, at + first.len(), second),
{
    reveal(stands);
    assert forall|k: int| 0 <= k < first.len() implies #[trigger] first[k] == all[at + k] by {
        assert((first + second)[k] == first[k]);
    }
    assert forall|k: int| 0 <= k < second.len() implies #[trigger] second[k] == all[at
        + first.len() + k] by {
        assert((first + second)[first.len() + k] == second[k]);
    }
}

/// A single word, as a program reads it.
proof fn lemma_word(words: Seq<u32>, all: Seq<usize>, at: int, piece: Seq<usize>)
    requires
        given(words, all),
        stands(all, at, piece),
        piece.len() == 1,
    ensures
        words[at] == piece[0],
{
    reveal(given);
    reveal(stands);
    assert(piece[0] == all[at + 0]);
    assert(words[at] == all[at]);
}

/// A piece of the words, as a program reads it.
proof fn lemma_part(words: Seq<u32>, all: Seq<usize>, at: int, piece: Seq<usize>)
    requires
        given(words, all),
        stands(all, at, piece),
        words[0] == piece.len(),
    ensures
        part(words, at) == piece,
        at + piece.len() <= words.len(),
{
    reveal(given);
    reveal(stands);
    assert forall|k: int| 0 <= k < piece.len() implies #[trigger] part(words, at)[k]
        == piece[k] by {
        assert(piece[k] == all[at + k]);
        assert(words[at + k] == all[at + k]);
    }
    assert(part(words, at) =~= piece);
}

/// A contiguous layout of a shape that fits is well formed, and names each entry by its number.
proof fn lemma_contiguous_result<T, B>(
    result: WgpuRawTensor<T, B>,
    shape: Seq<usize>,
    index: Seq<int>,
    held: spec_fn(B) -> Seq<T>,
)
    requires
        result.fills(shape),
        shape::fits(shape),
        shape::in_bounds(index, shape),
    ensures
        result.layout().shape == shape,
        0 <= shape::flat(shape, index) < shape::numel(shape),
        shape::unravel(shape, shape::flat(shape, index)) == index,
        entry(result, held, index) == held(result.buffer())[shape::flat(shape, index)],
{
    laws::law_contiguous_is_row_major(shape, index);
    shape::lemma_unravel_flat(shape, index);
}

/// A result of the size that was asked for is backed.
proof fn lemma_result_backed<T, B>(
    run: Dispatch,
    result: WgpuRawTensor<T, B>,
    shape: Seq<usize>,
    held: spec_fn(B) -> Seq<T>,
)
    requires
        result.fills(shape),
        shape::fits(shape),
        sized(run, result.buffer(), held),
        run.output_bytes == shape::numel(shape) * vstd::layout::size_of::<T>(),
    ensures
        vstd::layout::size_of::<T>() > 0 ==> elements::backed(result, held),
        result.wf(),
{
    strided::lemma_contiguous(result.layout());
    strided::lemma_within(result.layout(), result.buffer_len());
    assert(shape.skip(0) =~= shape);
    let size = vstd::layout::size_of::<T>() as int;
    if size > 0 {
        lemma_mod_multiples_basic(shape::numel(shape) as int, size);
        lemma_mul_is_commutative(size, held(result.buffer()).len() as int);
        lemma_mul_is_commutative(size, shape::numel(shape) as int);
        lemma_mul_equality_converse(
            size,
            held(result.buffer()).len() as int,
            shape::numel(shape) as int,
        );
    }
}

/// Element `i` of the result of a run on all of it is taken on by a thread.
proof fn lemma_reached<T>(run: Dispatch, size: nat, chunk_size: int, i: int)
    requires
        0 <= i < size,
        run.workgroup_size.0 == workgroups::counts(size as int).0.0,
        run.workgroup_size.1 == workgroups::counts(size as int).0.1,
        run.workgroup_count == workgroups::counts(size as int).1,
        chunk_size == workgroups::counts(size as int).2,
        run.output_bytes == size * vstd::layout::size_of::<T>(),
    ensures
        accepted(run),
        reached::<T>(run, chunk_size, i),
{
    workgroups::law_counts_cover_and_keep_limits(size as int);
    lemma_mul_basics(run.workgroup_size.0 as int);
    lemma_mul_inequality(i + 1, size as int, vstd::layout::size_of::<T>() as int);
}

/// Applying a unary operation gives a tensor of the same shape whose entries are `f` of the
/// entries of the tensor, one by one, whatever its strides and its offset, on a device that runs
/// the operation's program on the words that it is given.
pub proof fn law_map_of_each_entry<T, B, F: FnOnce(&Dispatch, &B) -> B>(
    tensor: WgpuRawTensor<T, B>,
    operation: UnaryOp,
    run: F,
    result: WgpuRawTensor<T, B>,
    held: spec_fn(B) -> Seq<T>,
    f: spec_fn(T) -> T,
)
    requires
        elements::backed(tensor, held),
        tensor.maps_to(operation, run, Ok(result)),
        runs_map(run, held, operation, f),
    ensures
        result.layout().shape == tensor.layout().shape,
        forall|index: Seq<int>| #[trigger]
            shape::in_bounds(index, tensor.layout().shape) ==> entry(result, held, index) == f(
                entry(tensor, held, index),
            ),
        result.layout().is_contiguous(),
        result.wf(),
        vstd::layout::size_of::<T>() > 0 ==> elements::backed(result, held),
{
    let layout = tensor.layout();
    let shape = layout.shape;
    let counts = workgroups::counts(layout.numel() as int);
    let d = choose|d: &Dispatch|
        d.runs::<T>(
            Operation::Unary(operation),
            counts,
            dispatch::map_tensors(layout),
        ) && #[trigger] call_ensures(run, (d, &tensor.buffer()), result.buffer());
    strided::lemma_contiguous(result.layout());
    lemma_result_backed(*d, result, shape, held);
    workgroups::law_counts_cover_and_keep_limits(layout.numel() as int);
    lemma_chunk(layout.numel());
    law_words_stand_where_they_are_read::<T>(
        *d,
        Operation::Unary(operation),
        counts,
        dispatch::map_tensors(layout),
    );
    assert forall|index: Seq<int>| #[trigger] shape::in_bounds(index, shape) implies entry(
        result,
        held,
        index,
    ) == f(entry(tensor, held, index)) by {
        lemma_contiguous_result(result, shape, index, held);
        let i = shape::flat(shape, index);
        let words = d.parameters@;
        let n = shape.len() as int;
        lemma_coordinates(words, i, 3 + n, 3 + 2 * n, shape);
        lemma_reached::<T>(*d, layout.numel(), words[2] as int, i);
        assert(map_position(words, i) == layout.index_of(index));
        assert(held(result.buffer())[i] == f(held(tensor.buffer())[map_position(words, i)]));
    }
}

/// Where the program of a binary operation reads for element `i` in its first buffer.
pub open spec fn zip_first_position(words: Seq<u32>, i: int) -> int {
    let n = words[0] as int;
    words[1] + shape::dot(coordinates(words, i, 4 + 2 * n, 4 + 3 * n), part(words, 4))
}

/// Where the program of a binary operation reads for element `i` in its second buffer.
pub open spec fn zip_second_position(words: Seq<u32>, i: int) -> int {
    let n = words[0] as int;
    words[2] + shape::dot(coordinates(words, i, 4 + 2 * n, 4 + 3 * n), part(words, 4 + n))
}

/// Whether `run` runs the program of a binary operation that computes `f`.
pub open spec fn runs_zip<T, B, F: FnOnce(&Dispatch, &B, &B) -> B>(
    run: F,
    held: spec_fn(B) -> Seq<T>,
    operation: BinaryOp,
    f: spec_fn(T, T) -> T,
) -> bool {
    forall|d: &Dispatch, first: B, second: B, output: B| #[trigger]
        call_ensures(run, (d, &first, &second), output) && d.operation == Operation::Binary(
            operation,
        ) ==> {
            &&& sized(*d, output, held)
            &&& forall|i: int|
                accepted(*d) && reached::<T>(*d, d.parameters@[3] as int, i) && divides(
                    d.parameters@,
                    4 + 2 * d.parameters@[0],
                    4 + 3 * d.parameters@[0],
                ) && 0 <= zip_first_position(d.parameters@, i) < held(first).len() && 0
                    <= zip_second_position(d.parameters@, i) < held(second).len()
                    ==> #[trigger] held(output)[i] == f(
                    held(first)[zip_first_position(d.parameters@, i)],
                    held(second)[zip_second_position(d.parameters@, i)],
                )
        }
}

/// Applying a binary operation to two tensors gives a tensor of their shape whose entries are `f`
/// of their entries, one pair by one, each taken by its own tensor's strides and offset, on a
/// device that runs the operation's program on the words that it is given.
pub proof fn law_zip_of_each_pair<T, B, F: FnOnce(&Dispatch, &B, &B) -> B>(
    tensor: WgpuRawTensor<T, B>,
    other: WgpuRawTensor<T, B>,
    operation: BinaryOp,
    run: F,
    result: WgpuRawTensor<T, B>,
    held: spec_fn(B) -> Seq<T>,
    f: spec_fn(T, T) -> T,
)
    requires
        elements::backed(tensor, held),
        elements::backed(other, held),
        tensor.zips_to(other, operation, run, Ok(result)),
        runs_zip(run, held, operation, f),
    ensures
        tensor.layout().shape == other.layout().shape,
        result.layout().shape == tensor.layout().shape,
        forall|index: Seq<int>| #[trigger]
            shape::in_bounds(index, tensor.layout().shape) ==> entry(result, held, index) == f(
                entry(tensor, held, index),
                entry(other, held, index),
            ),
        result.layout().is_contiguous(),
        result.wf(),
        vstd::layout::size_of::<T>() > 0 ==> elements::backed(result, held),
{
    let layout = tensor.layout();
    let shape = layout.shape;
    let counts = workgroups::counts(layout.numel() as int);
    let tensors = dispatch::zip_tensors(layout, other.layout());
    let d = choose|d: &Dispatch|
        d.runs::<T>(Operation::Binary(operation), counts, tensors) && #[trigger] call_ensures(
            run,
            (d, &tensor.buffer(), &other.buffer()),
            result.buffer(),
        );
    strided::lemma_contiguous(result.layout());
    lemma_result_backed(*d, result, shape, held);
    lemma_chunk(layout.numel());
    law_words_stand_where_they_are_read::<T>(*d, Operation::Binary(operation), counts, tensors);
    assert forall|index: Seq<int>| #[trigger] shape::in_bounds(index, shape) implies entry(
        result,
        held,
        index,
    ) == f(entry(tensor, held, index), entry(other, held, index)) by {
        lemma_contiguous_result(result, shape, index, held);
        let i = shape::flat(shape, index);
        let words = d.parameters@;
        let n = shape.len() as int;
        lemma_coordinates(words, i, 4 + 2 * n, 4 + 3 * n, shape);
        lemma_reached::<T>(*d, layout.numel(), words[3] as int, i);
        assert(zip_first_position(words, i) == layout.index_of(index));
        assert(zip_second_position(words, i) == other.layout().index_of(index));
        assert(held(result.buffer())[i] == f(
            held(tensor.buffer())[zip_first_position(words, i)],
            held(other.buffer())[zip_second_position(words, i)],
        ));
    }
}

/// Whether a thread of a reduction takes on element `i` of the result. Where several threads share
/// the reduction to one element, all are in one workgroup.
pub open spec fn reduction_reached<T>(run: Dispatch, chunk_size: int, i: int) -> bool {
    if run.workgroup_size.1 == 1 {
        reached::<T>(run, chunk_size, i)
    } else {
        &&& 0 <= i < run.workgroup_size.0
        &&& run.workgroup_count == 1
        &&& (i + 1) * vstd::layout::size_of::<T>() <= run.output_bytes
    }
}

/// Where the program of a reduction reads for element `i`, as number `r` of what it goes through.
pub open spec fn reduce_position(words: Seq<u32>, i: int, r: int) -> int {
    let n = words[0] as int;
    words[1] + shape::dot(coordinates(words, i, 3 + n, 3 + 5 * n), part(words, 3)) + shape::dot(
        coordinates(words, r, 3 + 3 * n, 3 + 4 * n),
        part(words, 3),
    )
}

/// How much the program of a reduction goes through for each element.
pub open spec fn reduce_count(words: Seq<u32>) -> nat {
    shape::numel(part(words, 3 + 4 * words[0]))
}

/// Whether `run` runs the program of a reduction that computes `total`, which may depend on the
/// workgroups that share the work.
pub open spec fn runs_reduce<T, B, F: FnOnce(&Dispatch, &B) -> B>(
    run: F,
    held: spec_fn(B) -> Seq<T>,
    operation: ReduceOp,
    total: spec_fn(WorkgroupSize, Seq<T>) -> T,
) -> bool {
    forall|d: &Dispatch, input: B, output: B| #[trigger]
        call_ensures(run, (d, &input), output) && d.operation == Operation::Reduce(operation)
            ==> {
            &&& sized(*d, output, held)
            &&& forall|i: int|
                accepted(*d) && reduction_reached::<T>(*d, d.parameters@[2] as int, i) && divides(
                    d.parameters@,
                    3 + d.parameters@[0],
                    3 + 5 * d.parameters@[0],
                ) && (reduce_count(d.parameters@) > 0 ==> divides(
                    d.parameters@,
                    3 + 3 * d.parameters@[0],
                    3 + 4 * d.parameters@[0],
                )) && (forall|r: int|
                    0 <= r < reduce_count(d.parameters@) ==> 0 <= #[trigger] reduce_position(
                        d.parameters@,
                        i,
                        r,
                    ) < held(input).len()) ==> #[trigger] held(output)[i] == total(
                    d.workgroup_size,
                    Seq::new(
                        reduce_count(d.parameters@),
                        |r: int| held(input)[reduce_position(d.parameters@, i, r)],
                    ),
                )
        }
}

/// The dimensions along `axes`, and size one along the others.
pub open spec fn along(shape: Seq<usize>, axes: Seq<usize>) -> Seq<usize> {
    Seq::new(
        shape.len(),
        |j: int|
            if axes.contains(j as usize) {
                shape[j]
            } else {
                1
            },
    )
}

/// The multi-index that is `through` along `axes`, and `left` along the other dimensions.
pub open spec fn merged(left: Seq<int>, through: Seq<int>, axes: Seq<usize>) -> Seq<int> {
    Seq::new(
        left.len(),
        |j: int|
            if axes.contains(j as usize) {
                through[j]
            } else {
                left[j]
            },
    )
}

/// All entries of a tensor whose multi-index is `left` but for `axes`, in row-major order.
pub open spec fn line<T, B>(
    tensor: WgpuRawTensor<T, B>,
    held: spec_fn(B) -> Seq<T>,
    axes: Seq<usize>,
    left: Seq<int>,
) -> Seq<T> {
    let through = along(tensor.layout().shape, axes);
    Seq::new(
        shape::numel(through),
        |r: int| entry(tensor, held, merged(left, shape::unravel(through, r), axes)),
    )
}

/// Whether each entry of `result` is the `total`, in workgroups of one size, of all entries of
/// `tensor` with its multi-index but for `axes`.
pub open spec fn holds_totals<T, B>(
    result: WgpuRawTensor<T, B>,
    tensor: WgpuRawTensor<T, B>,
    held: spec_fn(B) -> Seq<T>,
    axes: Seq<usize>,
    total: spec_fn(WorkgroupSize, Seq<T>) -> T,
    size: WorkgroupSize,
) -> bool {
    forall|left: Seq<int>| #[trigger]
        shape::in_bounds(left, result.layout().shape) ==> entry(result, held, left) == total(
            size,
            line(tensor, held, axes, left),
        )
}

/// Where a reduction reads is where the merged multi-index stands.
proof fn lemma_merged(layout: Strided, axes: Seq<usize>, left: Seq<int>, r: int)
    requires
        layout.wf(),
        shape::in_bounds(left, strided::kept_shape(layout.shape, axes)),
        0 <= r < shape::numel(strided::reduced_shape(layout.shape, axes)),
    ensures
        along(layout.shape, axes) == strided::reduced_shape(layout.shape, axes),
        ({
            let through = shape::unravel(along(layout.shape, axes), r);
            &&& shape::in_bounds(merged(left, through, axes), layout.shape)
            &&& shape::dot(left, layout.strides) + shape::dot(through, layout.strides)
                == shape::dot(merged(left, through, axes), layout.strides)
        }),
{
    let kept = strided::kept_shape(layout.shape, axes);
    let reduced = strided::reduced_shape(layout.shape, axes);
    assert(along(layout.shape, axes) =~= reduced);
    let through = shape::unravel(reduced, r);
    shape::lemma_unravel_in_bounds(reduced, r);
    let both = merged(left, through, axes);
    assert forall|j: int| 0 <= j < layout.shape.len() implies {
        &&& #[trigger] both[j] == left[j] + through[j]
        &&& 0 <= both[j] < layout.shape[j]
    } by {
        assert(0 <= left[j] < kept[j]);
        assert(0 <= through[j] < reduced[j]);
    }
    shape::lemma_dot_sum(left, through, both, layout.strides);
}

/// Reducing a tensor gives a tensor with size one along `axes` and the other dimensions unchanged,
/// in which each entry is the `total` of all entries of the tensor with its multi-index but for
/// `axes`, whatever the strides and the offset, on a device that runs the reduction's program on
/// the words that it is given.
pub proof fn law_reduce_of_each_line<T, B, F: FnOnce(&Dispatch, &B) -> B>(
    tensor: WgpuRawTensor<T, B>,
    axes: Seq<usize>,
    operation: ReduceOp,
    run: F,
    result: WgpuRawTensor<T, B>,
    held: spec_fn(B) -> Seq<T>,
    total: spec_fn(WorkgroupSize, Seq<T>) -> T,
)
    requires
        elements::backed(tensor, held),
        tensor.reduces_to(axes, operation, run, Ok(result)),
        runs_reduce(run, held, operation, total),
    ensures
        result.layout().shape.len() == tensor.layout().shape.len(),
        forall|j: int|
            0 <= j < tensor.layout().shape.len() ==> #[trigger] result.layout().shape[j]
                == if axes.contains(j as usize) {
                1
            } else {
                tensor.layout().shape[j]
            },
        exists|size: WorkgroupSize| #[trigger]
            holds_totals(result, tensor, held, axes, total, size),
        result.layout().is_contiguous(),
        result.wf(),
        vstd::layout::size_of::<T>() > 0 ==> elements::backed(result, held),
{
    let layout = tensor.layout();
    let kept = strided::kept_shape(layout.shape, axes);
    let reduced = strided::reduced_shape(layout.shape, axes);
    let counts = dispatch::reduce_spread(layout, axes);
    let tensors = dispatch::reduce_tensors(layout, axes);
    let d = choose|d: &Dispatch|
        d.runs::<T>(Operation::Reduce(operation), counts, tensors) && #[trigger] call_ensures(
            run,
            (d, &tensor.buffer()),
            result.buffer(),
        );
    strided::lemma_contiguous(result.layout());
    lemma_result_backed(*d, result, kept, held);
    let size = shape::numel(kept);
    assert(kept.skip(0) =~= kept);
    assert(reduced.skip(0) =~= reduced);
    lemma_contiguous_wf(reduced);
    lemma_chunk(size);
    workgroups::law_reduce_counts_cover_and_keep_limits(layout.numel() as int, size as int);
    law_words_stand_where_they_are_read::<T>(*d, Operation::Reduce(operation), counts, tensors);
    let words = d.parameters@;
    let n = layout.shape.len() as int;
    assert forall|left: Seq<int>| #[trigger] shape::in_bounds(left, kept) implies entry(
        result,
        held,
        left,
    ) == total(d.workgroup_size, line(tensor, held, axes, left)) by {
        lemma_contiguous_result(result, kept, left, held);
        let i = shape::flat(kept, left);
        lemma_coordinates(words, i, 3 + n, 3 + 5 * n, kept);
        assert(reduce_count(words) == shape::numel(reduced));
        lemma_mul_inequality(i + 1, size as int, vstd::layout::size_of::<T>() as int);
        lemma_mul_basics(d.workgroup_size.0 as int);
        assert(accepted(*d)) by (nonlinear_arith)
            requires
                d.workgroup_size.0 >= 1,
                d.workgroup_size.1 >= 1,
                d.workgroup_size.0 * d.workgroup_size.1 <= 256,
                d.workgroup_count <= 65535,
        ;
        assert(reduction_reached::<T>(*d, words[2] as int, i));
        assert(along(layout.shape, axes) =~= reduced);
        if reduce_count(words) > 0 {
            lemma_coordinates(words, 0, 3 + 3 * n, 3 + 4 * n, reduced);
        }
        assert forall|r: int| 0 <= r < reduce_count(words) implies {
            &&& 0 <= #[trigger] reduce_position(words, i, r) < held(tensor.buffer()).len()
            &&& held(tensor.buffer())[reduce_position(words, i, r)] == line(
                tensor,
                held,
                axes,
                left,
            )[r]
        } by {
            lemma_coordinates(words, r, 3 + 3 * n, 3 + 4 * n, reduced);
            lemma_merged(layout, axes, left, r);
            let both = merged(left, shape::unravel(reduced, r), axes);
            assert(reduce_position(words, i, r) == layout.index_of(both));
        }
        assert(Seq::new(
            reduce_count(words),
            |r: int| held(tensor.buffer())[reduce_position(words, i, r)],
        ) =~= line(tensor, held, axes, left));
        assert(held(result.buffer())[i] == total(
            d.workgroup_size,
            Seq::new(
                reduce_count(words),
                |r: int| held(tensor.buffer())[reduce_position(words, i, r)],
            ),
        ));
    }
    let size = d.workgroup_size;
    assert(holds_totals(result, tensor, held, axes, total, size));
}

/// The contiguous layout of a shape that fits is well formed.
proof fn lemma_contiguous_wf(shape: Seq<usize>)
    requires
        shape::fits(shape),
    ensures
        Strided::contiguous(shape).wf(),
{
    strided::lemma_contiguous(Strided::contiguous(shape));
    assert(shape.skip(0) =~= shape);
}

/// Where the program that multiplies and sums reads in its first buffer for element `i`, as number
/// `r` of what it goes through.
pub open spec fn fused_first_position(words: Seq<u32>, i: int, r: int) -> int {
    let n = words[0] as int;
    words[1] + shape::dot(coordinates(words, i, 4 + 2 * n, 4 + 6 * n), part(words, 4))
        + shape::dot(coordinates(words, r, 4 + 4 * n, 4 + 5 * n), part(words, 4))
}

/// Where the program that multiplies and sums reads in its second buffer for element `i`, as number
/// `r` of what it goes through.
pub open spec fn fused_second_position(words: Seq<u32>, i: int, r: int) -> int {
    let n = words[0] as int;
    words[2] + shape::dot(coordinates(words, i, 4 + 2 * n, 4 + 6 * n), part(words, 4 + n))
        + shape::dot(coordinates(words, r, 4 + 4 * n, 4 + 5 * n), part(words, 4 + n))
}

/// How much the program that multiplies and sums goes through for each element.
pub open spec fn fused_count(words: Seq<u32>) -> nat {
    shape::numel(part(words, 4 + 5 * words[0]))
}

/// Whether `run` runs the program that multiplies and sums, with `f` for the product and `total`
/// for the sum.
pub open spec fn runs_fused<T, B, F: FnOnce(&Dispatch, &B, &B) -> B>(
    run: F,
    held: spec_fn(B) -> Seq<T>,
    f: spec_fn(T, T) -> T,
    total: spec_fn(Seq<T>) -> T,
) -> bool {
    forall|d: &Dispatch, first: B, second: B, output: B| #[trigger]
        call_ensures(run, (d, &first, &second), output) && d.operation == Operation::FusedMulAdd
            ==> {
            &&& sized(*d, output, held)
            &&& forall|i: int|
                accepted(*d) && reached::<T>(*d, d.parameters@[3] as int, i) && divides(
                    d.parameters@,
                    4 + 2 * d.parameters@[0],
                    4 + 6 * d.parameters@[0],
                ) && (fused_count(d.parameters@) > 0 ==> divides(
                    d.parameters@,
                    4 + 4 * d.parameters@[0],
                    4 + 5 * d.parameters@[0],
                )) && (forall|r: int|
                    0 <= r < fused_count(d.parameters@) ==> 0 <= #[trigger] fused_first_position(
                        d.parameters@,
                        i,
                        r,
                    ) < held(first).len() && 0 <= fused_second_position(d.parameters@, i, r)
                        < held(second).len()) ==> #[trigger] held(output)[i] == total(
                    Seq::new(
                        fused_count(d.parameters@),
                        |r: int|
                            f(
                                held(first)[fused_first_position(d.parameters@, i, r)],
                                held(second)[fused_second_position(d.parameters@, i, r)],
                            ),
                    ),
                )
        }
}

/// Multiplying two tensors and summing along `axes` gives a tensor with size one along `axes` and
/// the other dimensions unchanged, in which each entry is the `total` of `f` of all pairs of
/// entries with its multi-index but for `axes`, each taken by its own tensor's strides and offset,
/// on a device that runs the program on the words that it is given.
pub proof fn law_fused_of_each_line<T, B, F: FnOnce(&Dispatch, &B, &B) -> B>(
    tensor: WgpuRawTensor<T, B>,
    other: WgpuRawTensor<T, B>,
    axes: Seq<usize>,
    run: F,
    result: WgpuRawTensor<T, B>,
    held: spec_fn(B) -> Seq<T>,
    f: spec_fn(T, T) -> T,
    total: spec_fn(Seq<T>) -> T,
)
    requires
        elements::backed(tensor, held),
        elements::backed(other, held),
        tensor.fuses_to(other, axes, run, Ok(result)),
        runs_fused(run, held, f, total),
    ensures
        tensor.layout().shape == other.layout().shape,
        result.layout().shape.len() == tensor.layout().shape.len(),
        forall|j: int|
            0 <= j < tensor.layout().shape.len() ==> #[trigger] result.layout().shape[j]
                == if axes.contains(j as usize) {
                1
            } else {
                tensor.layout().shape[j]
            },
        forall|left: Seq<int>| #[trigger]
            shape::in_bounds(left, result.layout().shape) ==> entry(result, held, left) == total(
                Seq::new(
                    shape::numel(along(tensor.layout().shape, axes)),
                    |r: int| f(line(tensor, held, axes, left)[r], line(other, held, axes, left)[r]),
                ),
            ),
        result.layout().is_contiguous(),
        result.wf(),
        vstd::layout::size_of::<T>() > 0 ==> elements::backed(result, held),
{
    let layout = tensor.layout();
    let second = other.layout();
    let kept = strided::kept_shape(layout.shape, axes);
    let reduced = strided::reduced_shape(layout.shape, axes);
    let size = shape::numel(kept);
    let counts = workgroups::counts(size as int);
    let tensors = dispatch::fused_tensors(layout, second, axes);
    let d = choose|d: &Dispatch|
        d.runs::<T>(Operation::FusedMulAdd, counts, tensors) && #[trigger] call_ensures(
            run,
            (d, &tensor.buffer(), &other.buffer()),
            result.buffer(),
        );
    strided::lemma_contiguous(result.layout());
    lemma_result_backed(*d, result, kept, held);
    assert(kept.skip(0) =~= kept);
    assert(reduced.skip(0) =~= reduced);
    lemma_contiguous_wf(reduced);
    lemma_chunk(size);
    law_words_stand_where_they_are_read::<T>(*d, Operation::FusedMulAdd, counts, tensors);
    let words = d.parameters@;
    let n = layout.shape.len() as int;
    assert forall|left: Seq<int>| #[trigger] shape::in_bounds(left, kept) implies entry(
        result,
        held,
        left,
    ) == total(
        Seq::new(
            shape::numel(along(layout.shape, axes)),
            |r: int| f(line(tensor, held, axes, left)[r], line(other, held, axes, left)[r]),
        ),
    ) by {
        lemma_contiguous_result(result, kept, left, held);
        let i = shape::flat(kept, left);
        lemma_coordinates(words, i, 4 + 2 * n, 4 + 6 * n, kept);
        lemma_reached::<T>(*d, size, words[3] as int, i);
        assert(fused_count(words) == shape::numel(reduced));
        assert(along(layout.shape, axes) =~= reduced);
        if fused_count(words) > 0 {
            lemma_coordinates(words, 0, 4 + 4 * n, 4 + 5 * n, reduced);
        }
        let first_line = line(tensor, held, axes, left);
        let second_line = line(other, held, axes, left);
        assert forall|r: int| 0 <= r < fused_count(words) implies {
            &&& 0 <= #[trigger] fused_first_position(words, i, r) < held(tensor.buffer()).len()
            &&& 0 <= fused_second_position(words, i, r) < held(other.buffer()).len()
            &&& held(tensor.buffer())[fused_first_position(words, i, r)] == first_line[r]
            &&& held(other.buffer())[fused_second_position(words, i, r)] == second_line[r]
        } by {
            lemma_coordinates(words, r, 4 + 4 * n, 4 + 5 * n, reduced);
            lemma_merged(layout, axes, left, r);
            lemma_merged(second, axes, left, r);
            let both = merged(left, shape::unravel(reduced, r), axes);
            assert(fused_first_position(words, i, r) == layout.index_of(both));
            assert(fused_second_position(words, i, r) == second.index_of(both));
        }
        let pairs = Seq::new(
            fused_count(words),
            |r: int|
                f(
                    held(tensor.buffer())[fused_first_position(words, i, r)],
                    held(other.buffer())[fused_second_position(words, i, r)],
                ),
        );
        assert forall|r: int| 0 <= r < pairs.len() implies #[trigger] pairs[r] == f(
            first_line[r],
            second_line[r],
        ) by {
            assert(0 <= fused_first_position(words, i, r));
        }
        assert(pairs =~= Seq::new(
            shape::numel(along(layout.shape, axes)),
            |r: int| f(line(tensor, held, axes, left)[r], line(other, held, axes, left)[r]),
        ));
        assert(held(result.buffer())[i] == total(pairs));
    }
}

/// The multi-index that the program of a padding works out for element `i`.
pub open spec fn pad_coordinates(words: Seq<u32>, i: int) -> Seq<int> {
    let n = words[0] as int;
    Seq::new(
        words[0] as nat,
        |d: int|
            (i / word(words, 3 + n, d)) % (word(words, 3 + 3 * n, d) + word(words, 3 + 2 * n, d)
                + word(words, 3 + 4 * n, d)),
    )
}

/// Whether the program of a padding can work out multi-indices: no divisor is zero.
pub open spec fn pad_divides(words: Seq<u32>) -> bool {
    let n = words[0] as int;
    forall|d: int|
        0 <= d < n ==> #[trigger] word(words, 3 + n, d) > 0 && word(words, 3 + 3 * n, d) + word(
            words,
            3 + 2 * n,
            d,
        ) + word(words, 3 + 4 * n, d) > 0
}

/// Whether the program of a padding finds an element to copy to element `i`.
pub open spec fn pad_copies(words: Seq<u32>, i: int) -> bool {
    let n = words[0] as int;
    forall|d: int|
        0 <= d < n ==> word(words, 3 + 3 * n, d) <= #[trigger] pad_coordinates(words, i)[d] < word(
            words,
            3 + 3 * n,
            d,
        ) + word(words, 3 + 2 * n, d)
}

/// Where the program of a padding reads for element `i`.
pub open spec fn pad_position(words: Seq<u32>, i: int) -> int {
    let n = words[0] as int;
    words[1] + shape::dot(
        Seq::new(
            words[0] as nat,
            |d: int| pad_coordinates(words, i)[d] - word(words, 3 + 3 * n, d),
        ),
        part(words, 3),
    )
}

/// Whether `run` runs the program of a padding with `zero`.
pub open spec fn runs_pad<T, B, F: FnOnce(&Dispatch, &B) -> B>(
    run: F,
    held: spec_fn(B) -> Seq<T>,
    zero: T,
) -> bool {
    forall|d: &Dispatch, input: B, output: B| #[trigger]
        call_ensures(run, (d, &input), output) && d.operation == Operation::Pad ==> {
            &&& sized(*d, output, held)
            &&& forall|i: int|
                accepted(*d) && reached::<T>(*d, d.parameters@[2] as int, i) && pad_divides(
                    d.parameters@,
                ) && (pad_copies(d.parameters@, i) ==> 0 <= pad_position(d.parameters@, i)
                    < held(input).len())
                    ==> #[trigger] held(output)[i] == if pad_copies(d.parameters@, i) {
                    held(input)[pad_position(d.parameters@, i)]
                } else {
                    zero
                }
        }
}

/// What the words of a padding say, dimension by dimension.
spec fn pad_told(
    words: Seq<u32>,
    shape: Seq<usize>,
    padding: Seq<(usize, usize)>,
    padded: Seq<usize>,
) -> bool {
    let n = shape.len() as int;
    &&& words[0] == n
    &&& padding.len() == n
    &&& padded.len() == n
    &&& forall|j: int|
        0 <= j < n ==> {
            &&& #[trigger] word(words, 3 + n, j) == shape::numel(padded.skip(j + 1))
            &&& word(words, 3 + 2 * n, j) == shape[j]
            &&& word(words, 3 + 3 * n, j) == padding[j].0
            &&& word(words, 3 + 4 * n, j) == padding[j].1
            &&& padded[j] == padding[j].0 + shape[j] + padding[j].1
        }
}

/// What the program of a padding works out from those words.
proof fn lemma_pad_told(
    words: Seq<u32>,
    shape: Seq<usize>,
    padding: Seq<(usize, usize)>,
    padded: Seq<usize>,
    index: Seq<int>,
)
    requires
        pad_told(words, shape, padding, padded),
        shape::in_bounds(index, padded),
    ensures
        ({
            let n = shape.len() as int;
            let i = shape::flat(padded, index);
            let source = Seq::new(index.len(), |j: int| index[j] - padding[j].0);
            &&& pad_divides(words)
            &&& pad_coordinates(words, i) == index
            &&& pad_copies(words, i) <==> forall|j: int|
                0 <= j < index.len() ==> padding[j].0 <= #[trigger] index[j] < padding[j].0
                    + shape[j]
            &&& pad_copies(words, i) ==> shape::in_bounds(source, shape)
            &&& Seq::new(
                words[0] as nat,
                |d: int| pad_coordinates(words, i)[d] - word(words, 3 + 3 * n, d),
            ) == source
        }),
{
    let n = shape.len() as int;
    let i = shape::flat(padded, index);
    shape::lemma_unravel_flat(padded, index);
    lemma_digits(padded, i);
    shape::lemma_numel_positive(padded);
    assert forall|j: int| 0 <= j < n implies {
        &&& #[trigger] word(words, 3 + n, j) > 0
        &&& word(words, 3 + 3 * n, j) + word(words, 3 + 2 * n, j) + word(words, 3 + 4 * n, j) > 0
    } by {
        shape::lemma_numel_part(padded, j + 1);
        assert(padded[j] > 0);
    }
    assert forall|j: int| 0 <= j < n implies #[trigger] pad_coordinates(words, i)[j]
        == index[j] by {
        assert(word(words, 3 + n, j) == shape::numel(padded.skip(j + 1)));
        assert(shape::unravel(padded, i)[j] == index[j]);
    }
    assert(pad_coordinates(words, i) =~= index);
    let source = Seq::new(index.len(), |j: int| index[j] - padding[j].0);
    let read = Seq::new(
        words[0] as nat,
        |d: int| pad_coordinates(words, i)[d] - word(words, 3 + 3 * n, d),
    );
    assert forall|j: int| 0 <= j < n implies #[trigger] read[j] == source[j] by {
        assert(word(words, 3 + n, j) > 0);
        assert(pad_coordinates(words, i)[j] == index[j]);
    }
    assert(read =~= source);
    if pad_copies(words, i) {
        assert forall|j: int| 0 <= j < index.len() implies padding[j].0 <= #[trigger] index[j]
            < padding[j].0 + shape[j] by {
            assert(word(words, 3 + n, j) > 0);
            assert(pad_coordinates(words, i)[j] == index[j]);
        }
        assert forall|j: int| 0 <= j < shape.len() implies 0 <= #[trigger] source[j]
            < shape[j] by {
            assert(padding[j].0 <= index[j] < padding[j].0 + shape[j]);
        }
    }
    if forall|j: int|
        0 <= j < index.len() ==> padding[j].0 <= #[trigger] index[j] < padding[j].0 + shape[j] {
        assert forall|j: int| 0 <= j < n implies word(words, 3 + 3 * n, j)
            <= #[trigger] pad_coordinates(words, i)[j] < word(words, 3 + 3 * n, j) + word(
            words,
            3 + 2 * n,
            j,
        ) by {
            assert(word(words, 3 + n, j) > 0);
            assert(pad_coordinates(words, i)[j] == index[j]);
            assert(padding[j].0 <= index[j] < padding[j].0 + shape[j]);
        }
    }
}

/// Padding a tensor gives a tensor with each dimension grown by what is added before and after,
/// in which an entry is that of the tensor, as much further back along each dimension as was added
/// before, where there is one, and zero elsewhere, on a device that runs the program of the padding
/// on the words that it is given.
pub proof fn law_pad_of_each_entry<T, B, F: FnOnce(&Dispatch, &B) -> B>(
    tensor: WgpuRawTensor<T, B>,
    padding: Seq<(usize, usize)>,
    run: F,
    result: WgpuRawTensor<T, B>,
    held: spec_fn(B) -> Seq<T>,
    zero: T,
)
    requires
        elements::backed(tensor, held),
        tensor.pads_to(padding, run, Ok(result)),
        runs_pad(run, held, zero),
    ensures
        padding.len() == tensor.layout().shape.len(),
        result.layout().shape.len() == tensor.layout().shape.len(),
        forall|j: int|
            0 <= j < tensor.layout().shape.len() ==> #[trigger] result.layout().shape[j]
                == padding[j].0 + tensor.layout().shape[j] + padding[j].1,
        forall|index: Seq<int>| #[trigger]
            shape::in_bounds(index, result.layout().shape) ==> entry(result, held, index) == if (
            forall|j: int|
                0 <= j < index.len() ==> padding[j].0 <= #[trigger] index[j] < padding[j].0
                    + tensor.layout().shape[j]) {
                entry(tensor, held, Seq::new(index.len(), |j: int| index[j] - padding[j].0))
            } else {
                zero
            },
        result.layout().is_contiguous(),
        result.wf(),
        vstd::layout::size_of::<T>() > 0 ==> elements::backed(result, held),
{
    let layout = tensor.layout();
    let padded = strided::padded_shape(layout.shape, padding);
    let size = shape::numel(padded);
    let counts = workgroups::counts(size as int);
    let tensors = dispatch::pad_tensors(layout, padding);
    let d = choose|d: &Dispatch|
        d.runs::<T>(Operation::Pad, counts, tensors) && #[trigger] call_ensures(
            run,
            (d, &tensor.buffer()),
            result.buffer(),
        );
    assert forall|j: int| 0 <= j < layout.shape.len() implies #[trigger] result.layout().shape[j]
        == padding[j].0 + layout.shape[j] + padding[j].1 by {
        assert(padding[j].0 + layout.shape[j] + padding[j].1 <= usize::MAX);
    }
    strided::lemma_contiguous(result.layout());
    lemma_result_backed(*d, result, padded, held);
    assert(padded.skip(0) =~= padded);
    lemma_chunk(size);
    law_words_stand_where_they_are_read::<T>(*d, Operation::Pad, counts, tensors);
    let words = d.parameters@;
    let n = layout.shape.len() as int;
    assert(pad_told(words, layout.shape, padding, padded)) by {
        assert forall|j: int| 0 <= j < n implies {
            &&& #[trigger] word(words, 3 + n, j) == shape::numel(padded.skip(j + 1))
            &&& word(words, 3 + 2 * n, j) == layout.shape[j]
            &&& word(words, 3 + 3 * n, j) == padding[j].0
            &&& word(words, 3 + 4 * n, j) == padding[j].1
            &&& padded[j] == padding[j].0 + layout.shape[j] + padding[j].1
        } by {
            assert(part(words, 3 + n)[j] == strided::contiguous_strides(padded)[j]);
            assert(part(words, 3 + 2 * n)[j] == layout.shape[j]);
            assert(part(words, 3 + 3 * n)[j] == padding[j].0);
            assert(part(words, 3 + 3 * n + n)[j] == padding[j].1);
            assert(shape::numel(padded.skip(j + 1)) <= usize::MAX);
            assert(result.layout().shape[j] == padding[j].0 + layout.shape[j] + padding[j].1);
        }
    }
    assert forall|index: Seq<int>| #[trigger] shape::in_bounds(index, padded) implies entry(
        result,
        held,
        index,
    ) == if (forall|j: int|
        0 <= j < index.len() ==> padding[j].0 <= #[trigger] index[j] < padding[j].0
            + layout.shape[j]) {
        entry(tensor, held, Seq::new(index.len(), |j: int| index[j] - padding[j].0))
    } else {
        zero
    } by {
        lemma_contiguous_result(result, padded, index, held);
        let i = shape::flat(padded, index);
        lemma_reached::<T>(*d, size, words[2] as int, i);
        lemma_pad_told(words, layout.shape, padding, padded, index);
        let source = Seq::new(index.len(), |j: int| index[j] - padding[j].0);
        if pad_copies(words, i) {
            assert(pad_position(words, i) == layout.index_of(source));
        }
        assert(held(result.buffer())[i] == if pad_copies(words, i) {
            held(tensor.buffer())[pad_position(words, i)]
        } else {
            zero
        });
    }
}

/// Whether `upload` makes a buffer that holds the data that it is given.
pub open spec fn runs_upload<T, B, F: FnOnce(&[T]) -> B>(
    upload: F,
    held: spec_fn(B) -> Seq<T>,
) -> bool {
    forall|data: &[T], buffer: B| #[trigger]
        call_ensures(upload, (data,), buffer) ==> held(buffer) == data@
}

/// A new tensor has the given shape, and the data for its entries in row-major order, on a device
/// that keeps what it is given.
pub proof fn law_new_holds_the_data<T, B, F: FnOnce(&[T]) -> B>(
    shape: Seq<usize>,
    cpu_data: &[T],
    upload: F,
    tensor: WgpuRawTensor<T, B>,
    held: spec_fn(B) -> Seq<T>,
)
    requires
        WgpuRawTensor::uploads_to(shape, cpu_data, upload, Ok(tensor)),
        runs_upload(upload, held),
    ensures
        tensor.layout().shape == shape,
        cpu_data@.len() == shape::numel(shape),
        forall|index: Seq<int>| #[trigger]
            shape::in_bounds(index, shape) ==> entry(tensor, held, index)
                == cpu_data@[shape::flat(shape, index)],
        tensor.layout().is_contiguous(),
        elements::backed(tensor, held),
{
    elements::law_new_has_the_given_elements(shape, cpu_data, upload, tensor, held);
    assert forall|index: Seq<int>| #[trigger] shape::in_bounds(index, shape) implies entry(
        tensor,
        held,
        index,
    ) == cpu_data@[shape::flat(shape, index)] by {
        lemma_contiguous_result(tensor, shape, index, held);
    }
}

/// Whether `read` gives the elements in the bytes that it is asked for, and no others.
pub open spec fn runs_read<T, B, R: FnOnce(&B, u64, u64) -> Vec<T>>(
    read: R,
    held: spec_fn(B) -> Seq<T>,
) -> bool {
    let bytes = vstd::layout::size_of::<T>() as int;
    forall|buffer: B, offset: u64, size: u64, data: Vec<T>| #[trigger]
        call_ensures(read, (&buffer, offset, size), data) && bytes > 0 && offset as int % bytes == 0
            && size as int % bytes == 0 && offset + size <= held(buffer).len() * bytes ==> data@
            == held(buffer).subrange(offset as int / bytes, (offset + size) / bytes)
}

/// Where the entries of a tensor stand one after the other, reading it back asks for exactly the
/// bytes from its first entry to its last, in its own buffer, and copies nothing: whatever `run`
/// is, the tensor can be read back with it. Elsewhere it asks for all bytes of a copy.
pub proof fn law_ravel_asks_for_all_bytes<
    T,
    B,
    F: FnOnce(&Dispatch, &B) -> B,
    R: FnOnce(&B, u64, u64) -> Vec<T>,
>(tensor: WgpuRawTensor<T, B>, run: F, read: R, data: Vec<T>)
    requires
        tensor.wf(),
        tensor.ravels_to(run, read, Ok(data)),
    ensures
        ({
            let layout = tensor.layout();
            let bytes = vstd::layout::size_of::<T>();
            let count = shape::numel(layout.shape);
            let in_place = forall|k: int|
                0 <= k < count ==> shape::dot(
                    #[trigger] shape::unravel(layout.shape, k),
                    layout.strides,
                ) == k;
            &&& in_place ==> {
                &&& layout.offset * bytes <= u64::MAX
                &&& count * bytes <= u64::MAX
                &&& call_ensures(
                    read,
                    (&tensor.buffer(), (layout.offset * bytes) as u64, (count * bytes) as u64),
                    data,
                )
                &&& call_requires(
                    read,
                    (&tensor.buffer(), (layout.offset * bytes) as u64, (count * bytes) as u64),
                ) ==> tensor.ravel_ready(run, read)
            }
            &&& !in_place ==> {
                &&& count * bytes <= u64::MAX
                &&& exists|copy: WgpuRawTensor<T, B>| #[trigger]
                    tensor.maps_to(UnaryOp::Id, run, Ok(copy)) && call_ensures(
                        read,
                        (&copy.buffer(), 0u64, (count * bytes) as u64),
                        data,
                    )
            }
        }),
{
    let layout = tensor.layout();
    let bytes = vstd::layout::size_of::<T>();
    let count = shape::numel(layout.shape);
    let in_place = forall|k: int|
        0 <= k < count ==> shape::dot(
            #[trigger] shape::unravel(layout.shape, k),
            layout.strides,
        ) == k;
    assert(in_place == layout.is_contiguous()) by {
        if in_place {
            assert forall|k: int| 0 <= k < count implies #[trigger] layout.position(k)
                == layout.offset + k by {
                assert(shape::dot(shape::unravel(layout.shape, k), layout.strides) == k);
            }
        }
        if layout.is_contiguous() {
            assert forall|k: int| 0 <= k < count implies shape::dot(
                #[trigger] shape::unravel(layout.shape, k),
                layout.strides,
            ) == k by {
                assert(layout.position(k) == layout.offset + k);
            }
        }
    }
    if !in_place {
        let copy = choose|copy: WgpuRawTensor<T, B>| #[trigger]
            tensor.maps_to(UnaryOp::Id, run, Ok(copy)) && copy.reads(read, data);
        assert(0 * bytes == 0) by (nonlinear_arith);
        assert(copy.layout().offset == 0);
        assert(call_ensures(read, (&copy.buffer(), 0u64, (count * bytes) as u64), data));
    }
}

/// Reading a tensor back gives all its entries in row-major order, whatever its strides and its
/// offset, on a device that copies what it is told to, and that gives the bytes that it is asked
/// for and no others. This is for elements that take up space.
pub proof fn law_ravel_gives_every_entry<
    T,
    B,
    F: FnOnce(&Dispatch, &B) -> B,
    R: FnOnce(&B, u64, u64) -> Vec<T>,
>(tensor: WgpuRawTensor<T, B>, run: F, read: R, data: Vec<T>, held: spec_fn(B) -> Seq<T>)
    requires
        elements::backed(tensor, held),
        tensor.ravels_to(run, read, Ok(data)),
        runs_map(run, held, UnaryOp::Id, |element: T| element),
        runs_read(read, held),
        vstd::layout::size_of::<T>() > 0,
    ensures
        data@.len() == shape::numel(tensor.layout().shape),
        forall|index: Seq<int>| #[trigger]
            shape::in_bounds(index, tensor.layout().shape) ==> data@[shape::flat(
                tensor.layout().shape,
                index,
            )] == entry(tensor, held, index),
{
    let layout = tensor.layout();
    law_ravel_asks_for_all_bytes(tensor, run, read, data);
    if layout.is_contiguous() {
        assert forall|k: int| 0 <= k < layout.numel() implies shape::dot(
            #[trigger] shape::unravel(layout.shape, k),
            layout.strides,
        ) == k by {
            assert(layout.position(k) == layout.offset + k);
        }
        laws::law_contiguous_read_stays_inside(tensor);
        lemma_bytes_read(tensor, read, data, held);
    } else {
        if forall|k: int|
            0 <= k < layout.numel() ==> shape::dot(
                #[trigger] shape::unravel(layout.shape, k),
                layout.strides,
            ) == k {
            assert forall|k: int| 0 <= k < layout.numel() implies #[trigger] layout.position(k)
                == layout.offset + k by {
                assert(shape::dot(shape::unravel(layout.shape, k), layout.strides) == k);
            }
        }
        let bytes = vstd::layout::size_of::<T>();
        let copy = choose|copy: WgpuRawTensor<T, B>| #[trigger]
            tensor.maps_to(UnaryOp::Id, run, Ok(copy)) && call_ensures(
                read,
                (&copy.buffer(), 0u64, (layout.numel() * bytes) as u64),
                data,
            );
        law_map_of_each_entry(tensor, UnaryOp::Id, run, copy, held, |element: T| element);
        assert(0 * bytes == 0) by (nonlinear_arith);
        laws::law_contiguous_read_stays_inside(copy);
        lemma_bytes_read(copy, read, data, held);
        assert forall|index: Seq<int>| #[trigger] shape::in_bounds(
            index,
            layout.shape,
        ) implies data@[shape::flat(layout.shape, index)] == entry(tensor, held, index) by {
            assert(entry(copy, held, index) == entry(tensor, held, index));
        }
    }
}

/// The bytes of a contiguous tensor are its entries.
proof fn lemma_bytes_read<T, B, R: FnOnce(&B, u64, u64) -> Vec<T>>(
    tensor: WgpuRawTensor<T, B>,
    read: R,
    data: Vec<T>,
    held: spec_fn(B) -> Seq<T>,
)
    requires
        elements::backed(tensor, held),
        tensor.layout().is_contiguous(),
        tensor.layout().offset + tensor.layout().numel() <= tensor.buffer_len(),
        tensor.layout().offset * vstd::layout::size_of::<T>() <= u64::MAX,
        tensor.layout().numel() * vstd::layout::size_of::<T>() <= u64::MAX,
        call_ensures(
            read,
            (
                &tensor.buffer(),
                (tensor.layout().offset * vstd::layout::size_of::<T>()) as u64,
                (tensor.layout().numel() * vstd::layout::size_of::<T>()) as u64,
            ),
            data,
        ),
        runs_read(read, held),
        vstd::layout::size_of::<T>() > 0,
    ensures
        data@.len() == tensor.layout().numel(),
        forall|index: Seq<int>| #[trigger]
            shape::in_bounds(index, tensor.layout().shape) ==> data@[shape::flat(
                tensor.layout().shape,
                index,
            )] == entry(tensor, held, index),
{
    let layout = tensor.layout();
    let bytes = vstd::layout::size_of::<T>() as int;
    let start = layout.offset as int;
    let count = layout.numel() as int;
    lemma_mod_multiples_basic(start, bytes);
    lemma_mod_multiples_basic(count, bytes);
    lemma_div_by_multiple(start, bytes);
    lemma_div_by_multiple(start + count, bytes);
    lemma_mul_is_distributive_add_other_way(bytes, start, count);
    lemma_mul_inequality(start + count, held(tensor.buffer()).len() as int, bytes);
    assert(data@ == held(tensor.buffer()).subrange(start, start + count));
    assert forall|index: Seq<int>| #[trigger] shape::in_bounds(
        index,
        layout.shape,
    ) implies data@[shape::flat(layout.shape, index)] == entry(tensor, held, index) by {
        shape::lemma_unravel_flat(layout.shape, index);
        let k = shape::flat(layout.shape, index);
        assert(layout.position(k) == layout.offset + k);
    }
}

/// Reshaping a tensor gives a tensor of the given shape with the same entries in row-major order,
/// on a device that copies what it is told to.
pub proof fn law_reshape_of_each_entry<T, B, F: FnOnce(&Dispatch, &B) -> B>(
    tensor: WgpuRawTensor<T, B>,
    shape: Seq<usize>,
    run: F,
    result: WgpuRawTensor<T, B>,
    held: spec_fn(B) -> Seq<T>,
)
    requires
        elements::backed(tensor, held),
        tensor.reshapes_to(shape, run, Ok(result)),
        runs_map(run, held, UnaryOp::Id, |element: T| element),
    ensures
        result.layout().shape == shape,
        shape::numel(shape) == shape::numel(tensor.layout().shape),
        forall|k: int|
            0 <= k < shape::numel(shape) ==> entry(
                result,
                held,
                #[trigger] shape::unravel(shape, k),
            ) == entry(tensor, held, shape::unravel(tensor.layout().shape, k)),
{
    let layout = tensor.layout();
    assert forall|k: int| 0 <= k < shape::numel(shape) implies entry(
        result,
        held,
        #[trigger] shape::unravel(shape, k),
    ) == entry(tensor, held, shape::unravel(layout.shape, k)) by {
        if layout.has_view(shape) {
            assert(result.layout().position(k) == layout.position(k));
        } else {
            let copy = choose|copy: WgpuRawTensor<T, B>| #[trigger]
                tensor.maps_to(UnaryOp::Id, run, Ok(copy)) && result.buffer() == copy.buffer();
            law_map_of_each_entry(tensor, UnaryOp::Id, run, copy, held, |element: T| element);
            raw_tensor::lemma_needs_copy(layout, shape);
            shape::lemma_fits(shape);
            let index = shape::unravel(layout.shape, k);
            shape::lemma_unravel_in_bounds(layout.shape, k);
            shape::lemma_flat_unravel(layout.shape, k);
            shape::lemma_unravel_in_bounds(shape, k);
            shape::lemma_flat_unravel(shape, k);
            lemma_contiguous_result(copy, layout.shape, index, held);
            lemma_contiguous_result(result, shape, shape::unravel(shape, k), held);
            assert(entry(copy, held, index) == entry(tensor, held, index));
        }
    }
}

/// Where any strides at all list the entries of a tensor in the given shape, in their order and
/// where they stand, a reshape shares the buffer and asks nothing of the device: whatever `run` is,
/// the tensor can be reshaped with it.
pub proof fn law_reshape_shares_where_it_can<T, B, F: FnOnce(&Dispatch, &B) -> B>(
    tensor: WgpuRawTensor<T, B>,
    shape: Seq<usize>,
    run: F,
    result: Result<WgpuRawTensor<T, B>, TensorError>,
    offset: usize,
    strides: Seq<usize>,
)
    requires
        tensor.wf(),
        tensor.reshapes_to(shape, run, result),
        shape::numel(shape) == shape::numel(tensor.layout().shape),
        strides.len() == shape.len(),
        forall|k: int|
            0 <= k < shape::numel(shape) ==> offset + shape::dot(
                #[trigger] shape::unravel(shape, k),
                strides,
            ) == tensor.layout().offset + shape::dot(
                shape::unravel(tensor.layout().shape, k),
                tensor.layout().strides,
            ),
    ensures
        result matches Ok(shared) && shared.buffer() == tensor.buffer(),
        tensor.reshape_ready(shape, run),
{
    let view = Strided { shape, strides, offset };
    let layout = tensor.layout();
    assert(view.same_elements(layout)) by {
        assert forall|k: int| 0 <= k < view.numel() implies #[trigger] view.position(k)
            == layout.position(k) by {
            assert(offset + shape::dot(shape::unravel(shape, k), strides) == layout.offset
                + shape::dot(shape::unravel(layout.shape, k), layout.strides));
        }
    }
    assert(layout.has_view(shape));
}

/// A reshape is refused exactly where the element counts differ, or where the tensor has to be
/// copied and cannot be.
pub proof fn law_reshape_refusal<T, B, F: FnOnce(&Dispatch, &B) -> B>(
    tensor: WgpuRawTensor<T, B>,
    shape: Seq<usize>,
    run: F,
    result: Result<WgpuRawTensor<T, B>, TensorError>,
)
    requires
        tensor.wf(),
        tensor.layout().shape.len() <= usize::MAX,
        tensor.reshapes_to(shape, run, result),
    ensures
        shape::numel(shape) != shape::numel(tensor.layout().shape) <==> result
            == Err::<WgpuRawTensor<T, B>, TensorError>(TensorError::SizeMismatch),
        result matches Err(error) ==> error == TensorError::SizeMismatch || error
            == TensorError::TooLarge,
        result == Err::<WgpuRawTensor<T, B>, TensorError>(TensorError::TooLarge) ==> !map_can::<T>(
            tensor.layout(),
        ),
{
    lemma_map_can::<T>(tensor.layout());
}

/// The part of a tensor between limits has a dimension of the upper less the lower limit along each
/// dimension, the strides of the tensor, and the entries of the tensor that stand as much further
/// along each dimension as the part begins there.
pub proof fn law_crop_of_each_entry<T, B>(
    tensor: WgpuRawTensor<T, B>,
    limits: Seq<(usize, usize)>,
    part: WgpuRawTensor<T, B>,
    held: spec_fn(B) -> Seq<T>,
)
    requires
        tensor.wf(),
        tensor.layout().can_crop(limits),
        part.views(tensor, tensor.layout().crop(limits)),
    ensures
        part.buffer() == tensor.buffer(),
        part.layout().shape.len() == limits.len(),
        forall|i: int|
            0 <= i < limits.len() ==> #[trigger] part.layout().shape[i] == limits[i].1
                - limits[i].0,
        part.layout().strides == tensor.layout().strides,
        forall|index: Seq<int>| #[trigger]
            shape::in_bounds(index, part.layout().shape) ==> entry(part, held, index) == entry(
                tensor,
                held,
                Seq::new(index.len(), |i: int| limits[i].0 + index[i]),
            ),
{
    assert forall|i: int| 0 <= i < limits.len() implies #[trigger] part.layout().shape[i]
        == limits[i].1 - limits[i].0 by {
        assert(limits[i].0 <= limits[i].1 <= tensor.layout().shape[i]);
    }
    assert forall|index: Seq<int>| #[trigger] shape::in_bounds(
        index,
        part.layout().shape,
    ) implies entry(part, held, index) == entry(
        tensor,
        held,
        Seq::new(index.len(), |i: int| limits[i].0 + index[i]),
    ) by {
        laws::law_crop_shifts_elements(tensor.layout(), limits, index);
    }
}

/// Limits are accepted exactly where there is one pair for each dimension, in order and within it.
pub proof fn law_crop_accepts(layout: Strided, limits: Seq<(usize, usize)>)
    ensures
        layout.can_crop(limits) <==> limits.len() == layout.shape.len() && forall|i: int|
            0 <= i < limits.len() ==> (#[trigger] limits[i]).0 <= limits[i].1 && limits[i].1
                <= layout.shape[i],
{
}

/// A tensor with its dimensions moved has the moved dimensions, and for each multi-index the entry
/// that the tensor has for the multi-index moved back.
pub proof fn law_permute_of_each_entry<T, B>(
    tensor: WgpuRawTensor<T, B>,
    permutation: Seq<usize>,
    moved: WgpuRawTensor<T, B>,
    held: spec_fn(B) -> Seq<T>,
)
    requires
        tensor.wf(),
        shape::is_permutation(permutation, tensor.layout().shape.len()),
        moved.views(tensor, tensor.layout().permute(permutation)),
    ensures
        moved.buffer() == tensor.buffer(),
        moved.layout().shape.len() == permutation.len(),
        forall|i: int|
            0 <= i < permutation.len() ==> #[trigger] moved.layout().shape[i]
                == tensor.layout().shape[permutation[i] as int],
        forall|index: Seq<int>| #[trigger]
            shape::in_bounds(index, tensor.layout().shape) ==> entry(
                moved,
                held,
                Seq::new(permutation.len(), |i: int| index[permutation[i] as int]),
            ) == entry(tensor, held, index),
{
    assert forall|index: Seq<int>| #[trigger] shape::in_bounds(
        index,
        tensor.layout().shape,
    ) implies entry(
        moved,
        held,
        Seq::new(permutation.len(), |i: int| index[permutation[i] as int]),
    ) == entry(tensor, held, index) by {
        laws::law_permute_keeps_elements(tensor.layout(), permutation, index);
        assert(Seq::new(permutation.len(), |i: int| index[permutation[i] as int])
            =~= shape::permuted(index, permutation));
    }
}

/// A permutation is accepted exactly where it lists each dimension once.
pub proof fn law_permute_accepts(permutation: Seq<usize>, ndims: nat)
    ensures
        shape::is_permutation(permutation, ndims) <==> permutation.len() == ndims && (forall|i: int|
            0 <= i < ndims ==> #[trigger] permutation[i] < ndims) && forall|i: int, j: int|
            0 <= i < j < ndims ==> #[trigger] permutation[i] != #[trigger] permutation[j],
{
    if shape::is_permutation(permutation, ndims) {
        assert forall|i: int, j: int| 0 <= i < j < ndims implies #[trigger] permutation[i]
            != #[trigger] permutation[j] by {}
    }
}

/// An expanded tensor has the given shape, and for each multi-index the entry that the tensor has
/// with zero along each dimension that grew.
pub proof fn law_expand_of_each_entry<T, B>(
    tensor: WgpuRawTensor<T, B>,
    shape: Seq<usize>,
    grown: WgpuRawTensor<T, B>,
    held: spec_fn(B) -> Seq<T>,
)
    requires
        tensor.wf(),
        tensor.layout().can_expand(shape),
        grown.views(tensor, tensor.layout().expand(shape)),
    ensures
        grown.buffer() == tensor.buffer(),
        grown.layout().shape == shape,
        forall|index: Seq<int>| #[trigger]
            shape::in_bounds(index, shape) ==> entry(grown, held, index) == entry(
                tensor,
                held,
                Seq::new(
                    index.len(),
                    |i: int|
                        if tensor.layout().shape[i] == shape[i] {
                            index[i]
                        } else {
                            0
                        },
                ),
            ),
{
    assert forall|index: Seq<int>| #[trigger] shape::in_bounds(index, shape) implies entry(
        grown,
        held,
        index,
    ) == entry(
        tensor,
        held,
        Seq::new(
            index.len(),
            |i: int|
                if tensor.layout().shape[i] == shape[i] {
                    index[i]
                } else {
                    0
                },
        ),
    ) by {
        laws::law_expand_repeats_elements(tensor.layout(), shape, index);
    }
}

/// A shape is accepted for an expansion exactly where there are as many dimensions and each is kept
/// or grows from one.
pub proof fn law_expand_accepts(layout: Strided, shape: Seq<usize>)
    ensures
        layout.can_expand(shape) <==> shape.len() == layout.shape.len() && forall|i: int|
            0 <= i < shape.len() ==> #[trigger] layout.shape[i] == shape[i] || layout.shape[i] == 1,
{
}

/// No entry of a tensor stands outside its buffer.
pub proof fn law_entries_stand_inside<T, B>(tensor: WgpuRawTensor<T, B>, index: Seq<int>)
    requires
        tensor.wf(),
        index.len() == tensor.layout().shape.len(),
        forall|i: int| 0 <= i < index.len() ==> 0 <= #[trigger] index[i] < tensor.layout().shape[i],
    ensures
        0 <= tensor.layout().offset + shape::dot(index, tensor.layout().strides)
            < tensor.buffer_len(),
        tensor.layout().strides.len() == tensor.layout().shape.len(),
        shape::numel(tensor.layout().shape) <= usize::MAX,
{
    assert(shape::in_bounds(index, tensor.layout().shape));
    assert(0 <= tensor.layout().index_of(index) < tensor.buffer_len());
}

/// Whether every number can be held in a word of the device.
pub open spec fn tellable(numbers: Seq<usize>) -> bool {
    forall|i: int| 0 <= i < numbers.len() ==> #[trigger] numbers[i] <= u32::MAX
}

/// Whether the device can be told of a layout.
pub open spec fn layout_tellable(layout: Strided) -> bool {
    &&& layout.shape.len() <= u32::MAX
    &&& layout.offset <= u32::MAX
    &&& tellable(layout.shape)
    &&& tellable(layout.strides)
}

/// Whether a contiguous tensor of the given shape can be counted and addressed by the host.
pub open spec fn storable<T>(shape: Seq<usize>) -> bool {
    &&& forall|i: int|
        0 <= i <= shape.len() ==> #[trigger] shape::numel(shape.skip(i)) <= usize::MAX
    &&& shape::numel(shape) + 65535 <= usize::MAX
    &&& shape::numel(shape) * vstd::layout::size_of::<T>() <= usize::MAX
}

/// Whether the device can be told of the contiguous strides of a shape.
pub open spec fn steps_tellable(shape: Seq<usize>) -> bool {
    forall|i: int| 0 <= i < shape.len() ==> #[trigger] shape::numel(shape.skip(i + 1)) <= u32::MAX
}

/// Whether the device can be told how many elements each thread has, of `count` in all.
pub open spec fn share_tellable(count: nat) -> bool {
    count > 256 * 65535 ==> (count + 65534) / 65535 <= u32::MAX
}

/// Whether a unary operation can be run on a tensor.
pub open spec fn map_can<T>(layout: Strided) -> bool {
    &&& storable::<T>(layout.shape)
    &&& layout_tellable(layout)
    &&& steps_tellable(layout.shape)
    &&& share_tellable(shape::numel(layout.shape))
}

proof fn lemma_narrow_join(a: Seq<usize>, b: Seq<usize>)
    ensures
        dispatch::narrow(a + b) <==> dispatch::narrow(a) && dispatch::narrow(b),
{
    if dispatch::narrow(a + b) {
        assert forall|i: int| 0 <= i < a.len() implies #[trigger] a[i] <= u32::MAX by {
            assert((a + b)[i] == a[i]);
        }
        assert forall|i: int| 0 <= i < b.len() implies #[trigger] b[i] <= u32::MAX by {
            assert((a + b)[a.len() + i] == b[i]);
        }
    }
}

proof fn lemma_narrow_steps(shape: Seq<usize>)
    requires
        shape::fits(shape),
    ensures
        dispatch::narrow(strided::contiguous_strides(shape)) <==> steps_tellable(shape),
{
    let steps = strided::contiguous_strides(shape);
    assert forall|i: int| 0 <= i < shape.len() implies #[trigger] steps[i] == shape::numel(
        shape.skip(i + 1),
    ) by {
        assert(shape::numel(shape.skip(i + 1)) <= usize::MAX);
    }
    if dispatch::narrow(steps) {
        assert forall|i: int| 0 <= i < shape.len() implies #[trigger] shape::numel(
            shape.skip(i + 1),
        ) <= u32::MAX by {
            assert(steps[i] <= u32::MAX);
        }
    }
}

/// What the words of a run can be told of, piece by piece.
proof fn lemma_narrow_words(tensors: Tensors, chunk_size: int)
    requires
        tensors.input.shape.len() <= usize::MAX,
        0 <= chunk_size <= usize::MAX,
    ensures
        dispatch::narrow(tensors.words(chunk_size)) <==> {
            &&& tensors.input.shape.len() <= u32::MAX
            &&& tensors.input.offset <= u32::MAX
            &&& chunk_size <= u32::MAX
            &&& tellable(tensors.input.strides)
            &&& tellable(tensors.output.strides)
            &&& tellable(tensors.input.shape)
            &&& tensors.other matches Some(other) ==> other.offset <= u32::MAX && tellable(
                other.strides,
            )
            &&& tensors.reduced matches Some(reduced) ==> tellable(reduced.strides) && tellable(
                reduced.shape,
            ) && tellable(tensors.output.shape)
            &&& tensors.padding matches Some(pairs) ==> forall|i: int|
                0 <= i < pairs.len() ==> (#[trigger] pairs[i]).0 <= u32::MAX && pairs[i].1
                    <= u32::MAX
        },
{
    let empty = Seq::<usize>::empty();
    let rank = tensors.input.shape.len() as usize;
    let head = seq![rank, tensors.input.offset];
    let (offset, other) = match tensors.other {
        Some(other) => (seq![other.offset], other.strides),
        None => (empty, empty),
    };
    let chunk = seq![chunk_size as usize];
    let reduced = match tensors.reduced {
        Some(reduced) => reduced.strides + reduced.shape + tensors.output.shape,
        None => empty,
    };
    let padding = match tensors.padding {
        Some(pairs) => dispatch::lows(pairs) + dispatch::highs(pairs),
        None => empty,
    };
    let p1 = head + offset;
    let p2 = p1 + chunk;
    let p3 = p2 + tensors.input.strides;
    let p4 = p3 + other;
    let p5 = p4 + tensors.output.strides;
    let p6 = p5 + tensors.input.shape;
    let p7 = p6 + reduced;
    assert(tensors.words(chunk_size) == p7 + padding);
    lemma_narrow_join(p7, padding);
    lemma_narrow_join(p6, reduced);
    lemma_narrow_join(p5, tensors.input.shape);
    lemma_narrow_join(p4, tensors.output.strides);
    lemma_narrow_join(p3, other);
    lemma_narrow_join(p2, tensors.input.strides);
    lemma_narrow_join(p1, chunk);
    lemma_narrow_join(head, offset);
    assert(head[0] == rank && head[1] == tensors.input.offset);
    assert(chunk[0] == chunk_size);
    if tensors.other is Some {
        assert(offset[0] == tensors.other->0.offset);
    }
    if tensors.reduced is Some {
        let through = tensors.reduced->0;
        lemma_narrow_join(through.strides + through.shape, tensors.output.shape);
        lemma_narrow_join(through.strides, through.shape);
    }
    if tensors.padding is Some {
        let pairs = tensors.padding->0;
        let lows = dispatch::lows(pairs);
        let highs = dispatch::highs(pairs);
        lemma_narrow_join(lows, highs);
        if dispatch::narrow(lows) && dispatch::narrow(highs) {
            assert forall|i: int| 0 <= i < pairs.len() implies (#[trigger] pairs[i]).0 <= u32::MAX
                && pairs[i].1 <= u32::MAX by {
                assert(lows[i] <= u32::MAX);
                assert(highs[i] <= u32::MAX);
            }
        }
    }
}

/// How many elements each thread has, of `count` in all.
proof fn lemma_share(count: nat)
    ensures
        workgroups::counts(count as int).2 <= u32::MAX <==> share_tellable(count),
{
    workgroups::law_counts_are_least(count as int);
}

proof fn lemma_map_can<T>(layout: Strided)
    requires
        layout.wf(),
        layout.shape.len() <= usize::MAX,
    ensures
        dispatch::map_fits::<T>(layout) <==> map_can::<T>(layout),
{
    if shape::fits(layout.shape) {
        lemma_chunk(layout.numel());
        lemma_narrow_words(
            dispatch::map_tensors(layout),
            workgroups::counts(layout.numel() as int).2,
        );
        lemma_narrow_steps(layout.shape);
        lemma_share(layout.numel());
    }
}

/// A unary operation is refused exactly where the host cannot hold the result or the device cannot
/// be told of the tensor.
pub proof fn law_map_refusal<T, B, F: FnOnce(&Dispatch, &B) -> B>(
    tensor: WgpuRawTensor<T, B>,
    operation: UnaryOp,
    run: F,
    result: Result<WgpuRawTensor<T, B>, TensorError>,
)
    requires
        tensor.wf(),
        tensor.layout().shape.len() <= usize::MAX,
        tensor.maps_to(operation, run, result),
    ensures
        result is Ok <==> map_can::<T>(tensor.layout()),
        result matches Err(error) ==> error == TensorError::TooLarge,
{
    lemma_map_can::<T>(tensor.layout());
}

/// A binary operation is refused exactly where the shapes differ, the host cannot hold the result,
/// or the device cannot be told of the tensors.
pub proof fn law_zip_refusal<T, B, F: FnOnce(&Dispatch, &B, &B) -> B>(
    tensor: WgpuRawTensor<T, B>,
    other: WgpuRawTensor<T, B>,
    operation: BinaryOp,
    run: F,
    result: Result<WgpuRawTensor<T, B>, TensorError>,
)
    requires
        tensor.wf(),
        other.wf(),
        tensor.layout().shape.len() <= usize::MAX,
        tensor.zips_to(other, operation, run, result),
    ensures
        result is Ok <==> tensor.layout().shape == other.layout().shape && map_can::<T>(
            tensor.layout(),
        ) && layout_tellable(other.layout()),
        result matches Err(error) ==> error == if tensor.layout().shape != other.layout().shape {
            TensorError::ShapeMismatch
        } else {
            TensorError::TooLarge
        },
{
    let layout = tensor.layout();
    if layout.shape == other.layout().shape && shape::fits(layout.shape) {
        lemma_chunk(layout.numel());
        lemma_narrow_words(
            dispatch::zip_tensors(layout, other.layout()),
            workgroups::counts(layout.numel() as int).2,
        );
        lemma_narrow_steps(layout.shape);
        lemma_share(layout.numel());
    }
}

/// The shape with size one along `axes`, and the other dimensions unchanged.
pub open spec fn across(shape: Seq<usize>, axes: Seq<usize>) -> Seq<usize> {
    Seq::new(
        shape.len(),
        |j: int|
            if axes.contains(j as usize) {
                1
            } else {
                shape[j]
            },
    )
}

/// Whether a reduction, and a multiplication followed by a sum, can be run on a tensor, but for
/// how many elements each thread has.
pub open spec fn reduce_can<T>(layout: Strided, axes: Seq<usize>) -> bool {
    &&& storable::<T>(across(layout.shape, axes))
    &&& shape::fits(along(layout.shape, axes))
    &&& layout_tellable(layout)
    &&& steps_tellable(across(layout.shape, axes))
    &&& steps_tellable(along(layout.shape, axes))
}

/// A reduction is refused exactly where an axis is no dimension, nothing is left, the host cannot
/// hold the result, or the device cannot be told of the tensor.
pub proof fn law_reduce_refusal<T, B, F: FnOnce(&Dispatch, &B) -> B>(
    tensor: WgpuRawTensor<T, B>,
    axes: Seq<usize>,
    operation: ReduceOp,
    run: F,
    result: Result<WgpuRawTensor<T, B>, TensorError>,
)
    requires
        tensor.wf(),
        tensor.layout().shape.len() <= usize::MAX,
        tensor.reduces_to(axes, operation, run, result),
    ensures
        ({
            let shape = tensor.layout().shape;
            let known = forall|i: int|
                0 <= i < axes.len() ==> #[trigger] axes[i] < shape.len();
            let left = shape::numel(across(shape, axes));
            &&& result is Ok <==> known && left > 0 && reduce_can::<T>(tensor.layout(), axes)
                && share_tellable(left)
            &&& result matches Err(error) ==> error == if !known {
                TensorError::AxisOutOfRange
            } else if left == 0 && shape::fits(across(shape, axes)) && shape::fits(
                along(shape, axes),
            ) {
                TensorError::NothingLeft
            } else {
                TensorError::TooLarge
            }
        }),
{
    let layout = tensor.layout();
    let kept = strided::kept_shape(layout.shape, axes);
    let reduced = strided::reduced_shape(layout.shape, axes);
    assert(across(layout.shape, axes) =~= kept);
    assert(along(layout.shape, axes) =~= reduced);
    let size = shape::numel(kept);
    if layout.can_reduce(axes) && size > 0 && shape::fits(kept) && shape::fits(reduced) {
        assert(kept.skip(0) =~= kept);
        lemma_chunk(size);
        lemma_share(size);
        workgroups::law_reduce_counts_are_greatest(layout.numel() as int, size as int);
        lemma_narrow_words(
            dispatch::reduce_tensors(layout, axes),
            dispatch::reduce_spread(layout, axes).2,
        );
        lemma_narrow_steps(kept);
        lemma_narrow_steps(reduced);
        lemma_reduced_tellable(layout.shape, axes);
    }
}

proof fn lemma_reduced_tellable(shape: Seq<usize>, axes: Seq<usize>)
    ensures
        tellable(shape) ==> tellable(strided::kept_shape(shape, axes)) && tellable(
            strided::reduced_shape(shape, axes),
        ),
{
    if tellable(shape) {
        let kept = strided::kept_shape(shape, axes);
        let reduced = strided::reduced_shape(shape, axes);
        assert forall|i: int| 0 <= i < kept.len() implies #[trigger] kept[i] <= u32::MAX by {
            assert(shape[i] <= u32::MAX);
        }
        assert forall|i: int| 0 <= i < reduced.len() implies #[trigger] reduced[i] <= u32::MAX by {
            assert(shape[i] <= u32::MAX);
        }
    }
}

/// A multiplication followed by a sum is refused exactly where the shapes differ, an axis is no
/// dimension, the host cannot hold the result, or the device cannot be told of the tensors.
pub proof fn law_fused_refusal<T, B, F: FnOnce(&Dispatch, &B, &B) -> B>(
    tensor: WgpuRawTensor<T, B>,
    other: WgpuRawTensor<T, B>,
    axes: Seq<usize>,
    run: F,
    result: Result<WgpuRawTensor<T, B>, TensorError>,
)
    requires
        tensor.wf(),
        other.wf(),
        tensor.layout().shape.len() <= usize::MAX,
        tensor.fuses_to(other, axes, run, result),
    ensures
        ({
            let shape = tensor.layout().shape;
            let known = forall|i: int|
                0 <= i < axes.len() ==> #[trigger] axes[i] < shape.len();
            &&& result is Ok <==> shape == other.layout().shape && known && reduce_can::<T>(
                tensor.layout(),
                axes,
            ) && layout_tellable(other.layout()) && share_tellable(
                shape::numel(across(shape, axes)),
            )
            &&& result matches Err(error) ==> error == if shape != other.layout().shape {
                TensorError::ShapeMismatch
            } else if !known {
                TensorError::AxisOutOfRange
            } else {
                TensorError::TooLarge
            }
        }),
{
    let layout = tensor.layout();
    let kept = strided::kept_shape(layout.shape, axes);
    let reduced = strided::reduced_shape(layout.shape, axes);
    assert(across(layout.shape, axes) =~= kept);
    assert(along(layout.shape, axes) =~= reduced);
    let size = shape::numel(kept);
    if layout.shape == other.layout().shape && layout.can_reduce(axes) && shape::fits(kept)
        && shape::fits(reduced) {
        assert(kept.skip(0) =~= kept);
        lemma_chunk(size);
        lemma_share(size);
        lemma_narrow_words(
            dispatch::fused_tensors(layout, other.layout(), axes),
            workgroups::counts(size as int).2,
        );
        lemma_narrow_steps(kept);
        lemma_narrow_steps(reduced);
        lemma_reduced_tellable(layout.shape, axes);
    }
}

/// A padding is refused exactly where there is not one pair for each dimension, the host cannot
/// hold the result, or the device cannot be told of the tensor and the padding.
pub proof fn law_pad_refusal<T, B, F: FnOnce(&Dispatch, &B) -> B>(
    tensor: WgpuRawTensor<T, B>,
    padding: Seq<(usize, usize)>,
    run: F,
    result: Result<WgpuRawTensor<T, B>, TensorError>,
)
    requires
        tensor.wf(),
        tensor.layout().shape.len() <= usize::MAX,
        tensor.pads_to(padding, run, result),
    ensures
        ({
            let shape = tensor.layout().shape;
            let grown = Seq::new(
                shape.len(),
                |j: int| (padding[j].0 + shape[j] + padding[j].1) as usize,
            );
            &&& result is Ok <==> {
                &&& padding.len() == shape.len()
                &&& forall|j: int|
                    0 <= j < shape.len() ==> #[trigger] padding[j].0 + shape[j] + padding[j].1
                        <= usize::MAX
                &&& storable::<T>(grown)
                &&& steps_tellable(grown)
                &&& share_tellable(shape::numel(grown))
                &&& layout_tellable(tensor.layout())
                &&& forall|j: int|
                    0 <= j < padding.len() ==> (#[trigger] padding[j]).0 <= u32::MAX && padding[j].1
                        <= u32::MAX
            }
            &&& result matches Err(error) ==> error == if padding.len() != shape.len() {
                TensorError::RankMismatch
            } else {
                TensorError::TooLarge
            }
        }),
{
    let layout = tensor.layout();
    let padded = strided::padded_shape(layout.shape, padding);
    let grown = Seq::new(
        layout.shape.len(),
        |j: int| (padding[j].0 + layout.shape[j] + padding[j].1) as usize,
    );
    assert(grown =~= padded);
    let size = shape::numel(padded);
    if padding.len() == layout.shape.len() && shape::fits(padded) {
        assert(padded.skip(0) =~= padded);
        lemma_chunk(size);
        lemma_share(size);
        lemma_narrow_words(
            dispatch::pad_tensors(layout, padding),
            workgroups::counts(size as int).2,
        );
        lemma_narrow_steps(padded);
    }
}

/// Reading a tensor back is refused exactly where its bytes cannot be counted, or where it has to
/// be copied and cannot be.
pub proof fn law_ravel_refusal<
    T,
    B,
    F: FnOnce(&Dispatch, &B) -> B,
    R: FnOnce(&B, u64, u64) -> Vec<T>,
>(tensor: WgpuRawTensor<T, B>, run: F, read: R, result: Result<Vec<T>, TensorError>)
    requires
        tensor.wf(),
        tensor.layout().shape.len() <= usize::MAX,
        tensor.ravels_to(run, read, result),
    ensures
        ({
            let layout = tensor.layout();
            let bytes = vstd::layout::size_of::<T>();
            let in_place = forall|k: int|
                0 <= k < shape::numel(layout.shape) ==> shape::dot(
                    #[trigger] shape::unravel(layout.shape, k),
                    layout.strides,
                ) == k;
            &&& result is Ok <==> if in_place {
                shape::numel(layout.shape) * bytes <= usize::MAX && layout.offset * bytes
                    <= usize::MAX
            } else {
                map_can::<T>(layout)
            }
            &&& result matches Err(error) ==> error == TensorError::TooLarge
        }),
{
    let layout = tensor.layout();
    let in_place = forall|k: int|
        0 <= k < shape::numel(layout.shape) ==> shape::dot(
            #[trigger] shape::unravel(layout.shape, k),
            layout.strides,
        ) == k;
    assert(in_place == layout.is_contiguous()) by {
        if in_place {
            assert forall|k: int| 0 <= k < layout.numel() implies #[trigger] layout.position(k)
                == layout.offset + k by {
                assert(shape::dot(shape::unravel(layout.shape, k), layout.strides) == k);
            }
        }
        if layout.is_contiguous() {
            assert forall|k: int| 0 <= k < layout.numel() implies shape::dot(
                #[trigger] shape::unravel(layout.shape, k),
                layout.strides,
            ) == k by {
                assert(layout.position(k) == layout.offset + k);
            }
        }
    }
    lemma_map_can::<T>(layout);
    if !in_place {
        if result is Ok {
            let data = result->Ok_0;
            let copy = choose|copy: WgpuRawTensor<T, B>| #[trigger]
                tensor.maps_to(UnaryOp::Id, run, Ok(copy)) && copy.reads(read, data);
        }
    }
}

/// Data is refused exactly where there is not one item for each element of the shape, or the
/// contiguous strides of the shape cannot be held.
pub proof fn law_new_refusal<T, B, F: FnOnce(&[T]) -> B>(
    shape: Seq<usize>,
    cpu_data: &[T],
    upload: F,
    result: Result<WgpuRawTensor<T, B>, TensorError>,
)
    requires
        WgpuRawTensor::uploads_to(shape, cpu_data, upload, result),
    ensures
        ({
            let countable = forall|i: int|
                0 <= i <= shape.len() ==> #[trigger] shape::numel(shape.skip(i)) <= usize::MAX;
            &&& result is Ok <==> shape::numel(shape) == cpu_data@.len() && countable
            &&& result matches Err(error) ==> error == if shape::numel(shape) != cpu_data@.len() {
                TensorError::SizeMismatch
            } else {
                TensorError::TooLarge
            }
        }),
{
}

/// The elements of a tensor are its entries in row-major order, and a group of them is a line.
pub proof fn law_elements_are_entries<T, B>(
    tensor: WgpuRawTensor<T, B>,
    held: spec_fn(B) -> Seq<T>,
    axes: Seq<usize>,
    i: int,
)
    requires
        elements::backed(tensor, held),
        forall|j: int| 0 <= j < axes.len() ==> #[trigger] axes[j] < tensor.layout().shape.len(),
        0 <= i < shape::numel(across(tensor.layout().shape, axes)),
    ensures
        held(tensor.buffer()).len() == tensor.buffer_len(),
        elements::elements(tensor, held).len() == shape::numel(tensor.layout().shape),
        forall|k: int|
            0 <= k < shape::numel(tensor.layout().shape) ==> #[trigger] elements::elements(
                tensor,
                held,
            )[k] == entry(tensor, held, shape::unravel(tensor.layout().shape, k)),
        elements::group(tensor, held, axes, i) == line(
            tensor,
            held,
            axes,
            shape::unravel(across(tensor.layout().shape, axes), i),
        ),
{
    let layout = tensor.layout();
    let kept = strided::kept_shape(layout.shape, axes);
    let reduced = strided::reduced_shape(layout.shape, axes);
    assert(across(layout.shape, axes) =~= kept);
    assert(along(layout.shape, axes) =~= reduced);
    let left = shape::unravel(kept, i);
    shape::lemma_unravel_in_bounds(kept, i);
    let group = elements::group(tensor, held, axes, i);
    assert forall|r: int| 0 <= r < shape::numel(reduced) implies #[trigger] group[r] == line(
        tensor,
        held,
        axes,
        left,
    )[r] by {
        lemma_merged(layout, axes, left, r);
        let through = shape::unravel(reduced, r);
        shape::lemma_unravel_in_bounds(reduced, r);
        let both = merged(left, through, axes);
        assert forall|j: int| 0 <= j < both.len() implies #[trigger] both[j]
            == elements::sum_of(left, through)[j] by {
            assert(0 <= left[j] < kept[j]);
            assert(0 <= through[j] < reduced[j]);
        }
        assert(both =~= elements::sum_of(left, through));
        shape::lemma_unravel_flat(layout.shape, both);
    }
    assert(group =~= line(tensor, held, axes, left));
}

/// Whether `run` can be called on one buffer with any run at all.
pub open spec fn runs_anything<B, F: FnOnce(&Dispatch, &B) -> B>(run: F, buffer: B) -> bool {
    forall|d: &Dispatch| #[trigger] call_requires(run, (d, &buffer))
}

/// Whether `run` can be called on two buffers with any run at all.
pub open spec fn runs_anything_on_two<B, F: FnOnce(&Dispatch, &B, &B) -> B>(
    run: F,
    first: B,
    second: B,
) -> bool {
    forall|d: &Dispatch| #[trigger] call_requires(run, (d, &first, &second))
}

/// Operations on one tensor that are refused never call `run`: they can be asked for whatever `run`
/// is. And a `run` that can always be called is enough for all of them.
pub proof fn law_refused_runs_nothing<T, B, F: FnOnce(&Dispatch, &B) -> B>(
    tensor: WgpuRawTensor<T, B>,
    unary: UnaryOp,
    reduce: ReduceOp,
    axes: Seq<usize>,
    padding: Seq<(usize, usize)>,
    shape: Seq<usize>,
    run: F,
)
    requires
        tensor.wf(),
        tensor.layout().shape.len() <= usize::MAX,
    ensures
        !map_can::<T>(tensor.layout()) ==> tensor.map_ready(unary, run),
        (exists|i: int| 0 <= i < axes.len() && #[trigger] axes[i] >= tensor.layout().shape.len())
            ==> tensor.reduce_ready(axes, reduce, run),
        shape::numel(across(tensor.layout().shape, axes)) == 0 ==> tensor.reduce_ready(
            axes,
            reduce,
            run,
        ),
        padding.len() != tensor.layout().shape.len() ==> tensor.pad_ready(padding, run),
        shape::numel(shape) != shape::numel(tensor.layout().shape) ==> tensor.reshape_ready(
            shape,
            run,
        ),
        runs_anything(run, tensor.buffer()) ==> {
            &&& tensor.map_ready(unary, run)
            &&& tensor.reduce_ready(axes, reduce, run)
            &&& tensor.pad_ready(padding, run)
            &&& tensor.reshape_ready(shape, run)
        },
{
    lemma_map_can::<T>(tensor.layout());
    assert(across(tensor.layout().shape, axes) =~= strided::kept_shape(
        tensor.layout().shape,
        axes,
    ));
}

/// Operations on two tensors that are refused never call `run`: they can be asked for whatever
/// `run` is. And a `run` that can always be called is enough for all of them.
pub proof fn law_refused_runs_nothing_on_two<T, B, F: FnOnce(&Dispatch, &B, &B) -> B>(
    tensor: WgpuRawTensor<T, B>,
    other: WgpuRawTensor<T, B>,
    binary: BinaryOp,
    axes: Seq<usize>,
    run: F,
)
    requires
        tensor.wf(),
        other.wf(),
    ensures
        tensor.layout().shape != other.layout().shape ==> tensor.zip_ready(other, binary, run)
            && tensor.fused_ready(other, axes, run),
        (exists|i: int| 0 <= i < axes.len() && #[trigger] axes[i] >= tensor.layout().shape.len())
            ==> tensor.fused_ready(other, axes, run),
        runs_anything_on_two(run, tensor.buffer(), other.buffer()) ==> tensor.zip_ready(
            other,
            binary,
            run,
        ) && tensor.fused_ready(other, axes, run),
{
}

/// A `run` and a `read` that can always be called are enough to read a tensor back.
pub proof fn law_anything_can_be_read_back<
    T,
    B,
    F: FnOnce(&Dispatch, &B) -> B,
    R: FnOnce(&B, u64, u64) -> Vec<T>,
>(tensor: WgpuRawTensor<T, B>, run: F, read: R)
    requires
        tensor.wf(),
        runs_anything(run, tensor.buffer()),
        forall|buffer: &B, offset: u64, size: u64| #[trigger]
            call_requires(read, (buffer, offset, size)),
    ensures
        tensor.ravel_ready(run, read),
{
}

/// What it takes for a multi-index to name an entry, and for a tensor to be backed.
pub proof fn law_what_is_there<T, B>(
    tensor: WgpuRawTensor<T, B>,
    held: spec_fn(B) -> Seq<T>,
    index: Seq<int>,
    shape: Seq<usize>,
)
    ensures
        shape::in_bounds(index, shape) <==> index.len() == shape.len() && forall|i: int|
            0 <= i < shape.len() ==> 0 <= #[trigger] index[i] < shape[i],
        elements::backed(tensor, held) <==> tensor.wf() && held(tensor.buffer()).len()
            == tensor.buffer_len(),
{
}

/// The elements per thread can be held wherever the elements can.
proof fn lemma_chunk(size: nat)
    requires
        size <= usize::MAX,
    ensures
        0 <= workgroups::counts(size as int).2 <= usize::MAX,
{
}

} // verus!
