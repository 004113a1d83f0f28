//! How the work of an operation is spread over the threads of the device.

use vstd::arithmetic::div_mod::*;
use vstd::arithmetic::mul::*;
use vstd::prelude::*;

verus! {

/// Size of a workgroup in X and Y dimensions. The Z dimension is always one.
pub type WorkgroupSize = (usize, usize);

/// Max number of threads in a workgroup, as defined by WebGPU.
pub const MAX_WORKGROUP_SIZE: usize = 256;

/// Max number of workgroups in a dispatch, as defined by WebGPU.
pub const MAX_WORKGROUP_COUNT: usize = 65535;

/// The number of elements that one thread of a parallel reduction takes on at least, where the
/// reduction is spread over several threads.
pub const MIN_REDUCE_CHUNK: usize = 64;

/// `n` in parts of `size`, the last one rounded up.
pub open spec fn parts(n: int, size: int) -> int {
    (n + size - 1) / size
}

/// Workgroup size, workgroup count and elements per thread for `work_item_count` elements: one
/// workgroup where they fit; else full workgroups with a thread for each; and where that takes
/// more workgroups than there can be, all of those.
pub open spec fn counts(work_item_count: int) -> ((int, int), int, int) {
    if work_item_count <= MAX_WORKGROUP_SIZE {
        ((work_item_count, 1), 1, 1)
    } else if parts(work_item_count, MAX_WORKGROUP_SIZE as int) <= MAX_WORKGROUP_COUNT {
        (
            (MAX_WORKGROUP_SIZE as int, 1),
            parts(work_item_count, MAX_WORKGROUP_SIZE as int),
            1,
        )
    } else {
        (
            (MAX_WORKGROUP_SIZE as int, 1),
            MAX_WORKGROUP_COUNT as int,
            parts(work_item_count, MAX_WORKGROUP_COUNT as int),
        )
    }
}

/// `v`, or the nearer end of the range from `min` to `max`.
pub open spec fn clamped(v: int, min: int, max: int) -> int {
    if v < min {
        min
    } else if v > max {
        max
    } else {
        v
    }
}

/// Workgroup size, workgroup count and elements per thread for a reduction that leaves
/// `output_size` of `input_size` elements. Where a single workgroup has a thread for each
/// element that is left, the threads that it can have beyond those share the reduction of each.
pub open spec fn reduce_counts(input_size: int, output_size: int) -> ((int, int), int, int) {
    if output_size <= MAX_WORKGROUP_SIZE {
        (
            (
                output_size,
                clamped(
                    input_size / output_size / MIN_REDUCE_CHUNK as int,
                    1,
                    MAX_WORKGROUP_SIZE as int / output_size,
                ),
            ),
            1,
            1,
        )
    } else {
        counts(output_size)
    }
}

/// Whether the rounding up in `counts` can be computed.
pub open spec fn countable(work_item_count: int) -> bool {
    work_item_count + MAX_WORKGROUP_COUNT <= usize::MAX
}

/// Machine counts as mathematical ones.
pub open spec fn as_counts(counts: (WorkgroupSize, usize, usize)) -> ((int, int), int, int) {
    ((counts.0.0 as int, counts.0.1 as int), counts.1 as int, counts.2 as int)
}

/// The number of elements that all threads of a dispatch together can take on.
pub open spec fn capacity(counts: ((int, int), int, int)) -> int {
    counts.0.0 * counts.1 * counts.2
}

/// Returns:
/// - workgroup size (the number of threads in each workgroup, x and y; y is always one),
/// - workgroup count (the number of workgroups to run),
/// - chunk size (the number of elements each thread will process).
pub fn counts_n_sizes(work_item_count: usize) -> (result: (WorkgroupSize, usize, usize))
    requires
        countable(work_item_count as int),
    ensures
        as_counts(result) == counts(work_item_count as int),
        ((result.0.0 as int, result.0.1 as int), result.1 as int, result.2 as int) == counts(
            work_item_count as int,
        ),
{
    if work_item_count <= MAX_WORKGROUP_SIZE {
        return ((work_item_count, 1), 1, 1);
    }
    let workgroup_count: usize = (work_item_count + MAX_WORKGROUP_SIZE - 1) / MAX_WORKGROUP_SIZE;
    if workgroup_count <= MAX_WORKGROUP_COUNT {
        return ((MAX_WORKGROUP_SIZE, 1), workgroup_count, 1);
    }
    let chunk_size: usize = (work_item_count + MAX_WORKGROUP_COUNT - 1) / MAX_WORKGROUP_COUNT;
    ((MAX_WORKGROUP_SIZE, 1), MAX_WORKGROUP_COUNT, chunk_size)
}

/// `v`, or the nearer end of the range from `min` to `max`.
pub fn clamp(v: usize, min: usize, max: usize) -> (result: usize)
    ensures
        result == clamped(v as int, min as int, max as int),
{
    if v < min {
        min
    } else if v > max {
        max
    } else {
        v
    }
}

/// Returns:
/// - workgroup size (the number of threads in each workgroup, x and y),
/// - workgroup count (the number of workgroups to run),
/// - chunk size (the number of elements each thread will process).
pub fn counts_n_sizes_reduce(input_tensor_size: usize, output_tensor_size: usize) -> (result: (
    WorkgroupSize,
    usize,
    usize,
))
    requires
        output_tensor_size > 0,
        countable(output_tensor_size as int),
    ensures
        as_counts(result) == reduce_counts(input_tensor_size as int, output_tensor_size as int),
        ((result.0.0 as int, result.0.1 as int), result.1 as int, result.2 as int)
            == reduce_counts(input_tensor_size as int, output_tensor_size as int),
{
    if output_tensor_size <= MAX_WORKGROUP_SIZE {
        // First a thread for each element of the output, then threads that share the reduction.
        let reduce_size: usize = input_tensor_size / output_tensor_size;
        let max_workgroup_size_y: usize = MAX_WORKGROUP_SIZE / output_tensor_size;
        let workgroup_size_y: usize = clamp(
            reduce_size / MIN_REDUCE_CHUNK,
            1,
            max_workgroup_size_y,
        );
        return ((output_tensor_size, workgroup_size_y), 1, 1);
    }
    counts_n_sizes(output_tensor_size)
}

/// The threads of a dispatch together take on every element, and a dispatch keeps the limits of
/// WebGPU on its workgroups.
pub proof fn law_counts_cover_and_keep_limits(work_item_count: int)
    requires
        work_item_count >= 0,
    ensures
        ({
            let all = counts(work_item_count);
            &&& capacity(all) >= work_item_count
            &&& 0 <= all.0.0 <= MAX_WORKGROUP_SIZE
            &&& all.0.1 == 1
            &&& 1 <= all.1 <= MAX_WORKGROUP_COUNT
            &&& all.2 >= 1
        }),
{
    let n = work_item_count;
    let all = counts(n);
    if n <= MAX_WORKGROUP_SIZE {
        lemma_mul_basics(n);
    } else if parts(n, 256) <= MAX_WORKGROUP_COUNT {
        assert(256 * ((n + 255) / 256) >= n);
        lemma_mul_basics(256 * parts(n, 256));
    } else {
        assert(65535 * ((n + 65534) / 65535) >= n);
        let c = parts(n, 65535);
        assert(c >= 1);
        assert((256 * 65535) * c >= n) by (nonlinear_arith)
            requires
                65535 * c >= n,
                c >= 1,
        ;
        assert(all.0.0 * all.1 == 256 * 65535);
    }
}

/// A reduction has threads for every element that it leaves; those that share the reduction of
/// one element are in one workgroup; and the dispatch keeps the limits of WebGPU.
pub proof fn law_reduce_counts_cover_and_keep_limits(input_size: int, output_size: int)
    requires
        input_size >= 0,
        output_size > 0,
    ensures
        ({
            let all = reduce_counts(input_size, output_size);
            &&& capacity(all) >= output_size
            &&& all.0.0 >= 1
            &&& all.0.1 >= 1
            &&& all.0.0 * all.0.1 <= MAX_WORKGROUP_SIZE
            &&& 1 <= all.1 <= MAX_WORKGROUP_COUNT
            &&& all.2 >= 1
            &&& all.0.1 > 1 ==> all.1 == 1 && all.0.0 == output_size
        }),
{
    let x = output_size;
    if x <= MAX_WORKGROUP_SIZE {
        let y = clamped(input_size / x / 64, 1, 256int / x);
        assert(256int / x >= 1 && x * (256int / x) <= 256) by (nonlinear_arith)
            requires
                1 <= x <= 256,
        ;
        assert(x * y <= 256) by (nonlinear_arith)
            requires
                x * (256int / x) <= 256,
                1 <= y <= 256int / x,
                x >= 1,
        ;
        lemma_mul_basics(x);
    } else {
        law_counts_cover_and_keep_limits(x);
    }
}

/// One workgroup of just enough threads where they fit; else full workgroups, and no more of them
/// than it takes; and where there cannot be that many, all that there can be, with no more elements
/// for each than it takes to spread them over as many threads as there are workgroups.
pub proof fn law_counts_are_least(work_item_count: int)
    requires
        work_item_count >= 0,
    ensures
        ({
            let n = work_item_count;
            let ((x, y), count, chunk) = counts(n);
            &&& y == 1
            &&& n <= 256 ==> x == n && count == 1 && chunk == 1
            &&& 256 < n <= 256 * 65535 ==> {
                &&& x == 256
                &&& 256 * (count - 1) < n <= 256 * count
                &&& chunk == 1
            }
            &&& n > 256 * 65535 ==> {
                &&& x == 256
                &&& count == 65535
                &&& 65535 * (chunk - 1) < n <= 65535 * chunk
            }
        }),
{
}

/// A reduction has a thread for each element that it leaves where one workgroup can have them, and
/// as many threads to share each as the workgroup can have and as have at least 64 elements each,
/// but at least one. Elsewhere it is spread like any other work.
pub proof fn law_reduce_counts_are_greatest(input_size: int, output_size: int)
    requires
        input_size >= 0,
        output_size > 0,
    ensures
        ({
            let ((x, y), count, chunk) = reduce_counts(input_size, output_size);
            &&& output_size <= 256 ==> {
                &&& x == output_size
                &&& count == 1
                &&& chunk == 1
                &&& y >= 1
                &&& x * y <= 256
                &&& y > 1 ==> (input_size / output_size) >= 64 * y
                &&& x * (y + 1) <= 256 ==> (input_size / output_size) < 64 * (y + 1)
            }
            &&& output_size > 256 ==> reduce_counts(input_size, output_size) == counts(output_size)
        }),
{
    law_reduce_counts_cover_and_keep_limits(input_size, output_size);
    if output_size <= 256 {
        let x = output_size;
        let y = reduce_counts(input_size, output_size).0.1;
        let most = 256int / x;
        assert(x * (y + 1) <= 256 ==> y + 1 <= most) by (nonlinear_arith)
            requires
                1 <= x,
                most == 256int / x,
        ;
    }
}

/// A number within a range stays as it is, and one outside it becomes the end that it is beyond.
pub proof fn law_clamp(v: int, min: int, max: int)
    ensures
        v < min ==> clamped(v, min, max) == min,
        min <= v <= max ==> clamped(v, min, max) == v,
        min <= v && v > max ==> clamped(v, min, max) == max,
{
}

/// Each further thread of a parallel reduction comes with a full share of work: the elements
/// that are reduced to one are at least `MIN_REDUCE_CHUNK` for each thread that shares them,
/// unless a single thread does it all.
pub proof fn law_reduce_share(input_size: int, output_size: int)
    requires
        input_size >= 0,
        output_size > 0,
    ensures
        ({
            let threads = reduce_counts(input_size, output_size).0.1;
            threads > 1 ==> input_size / output_size >= threads * MIN_REDUCE_CHUNK
        }),
{
    if output_size <= MAX_WORKGROUP_SIZE {
        let r = input_size / output_size;
        assert((r / 64) * 64 <= r);
    }
}

} // verus!
