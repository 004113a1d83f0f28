//! The templates of the device's programs, in WGSL.

use vstd::prelude::*;

use crate::shader::Templates;

verus! {

/// Applies a unary operation to each element of a tensor.
pub const MAP_SHADER: &'static str = "
@group(0) @binding(0)
var<storage, read> input: array<f32>;

@group(0) @binding(1)
var<storage, read_write> output: array<f32>;

// ndims, input offset, chunk size;
// input strides, output strides, shape (ndims each)
@group(0) @binding(2)
var<storage, read> params: array<u32>;

fn replace_me_with_actual_operation(in: f32) -> f32 { discard; }

fn id(in: f32) -> f32 {
    return in;
}

fn input_index_of(output_i: u32) -> u32 {
    let ndims = params[0];
    var input_i = params[1];
    for (var d = 0u; d < ndims; d = d + 1u) {
        let stride = params[3u + d];
        let output_stride = params[3u + ndims + d];
        let size = params[3u + 2u * ndims + d];
        input_i = input_i + ((output_i / output_stride) % size) * stride;
    }
    return input_i;
}

@compute
@workgroup_size(64)
fn call(@builtin(global_invocation_id) global_id: vec3<u32>) {
    let chunk_size = params[2];
    let start = global_id.x * chunk_size;
    for (var i = start; i < start + chunk_size; i = i + 1u) {
        if (i >= arrayLength(&output)) {
            return;
        }
        output[i] = replace_me_with_actual_operation(input[input_index_of(i)]);
    }
}
";

/// Applies a binary operation to each pair of elements of two tensors of one shape.
pub const ZIP_SHADER: &'static str = "
@group(0) @binding(0)
var<storage, read> input_1: array<f32>;

@group(0) @binding(1)
var<storage, read> input_2: array<f32>;

@group(0) @binding(2)
var<storage, read_write> output: array<f32>;

// ndims, first offset, second offset, chunk size;
// first strides, second strides, output strides, shape (ndims each)
@group(0) @binding(3)
var<storage, read> params: array<u32>;

fn replace_me_with_actual_operation(in_1: f32, in_2: f32) -> f32 { discard; }

fn add(in_1: f32, in_2: f32) -> f32 {
    return in_1 + in_2;
}

fn sub(in_1: f32, in_2: f32) -> f32 {
    return in_1 - in_2;
}

fn mul(in_1: f32, in_2: f32) -> f32 {
    return in_1 * in_2;
}

fn div(in_1: f32, in_2: f32) -> f32 {
    return in_1 / in_2;
}

fn eq(in_1: f32, in_2: f32) -> f32 {
    return select(0.0, 1.0, in_1 == in_2);
}

fn input_indices_of(output_i: u32) -> vec2<u32> {
    let ndims = params[0];
    var indices = vec2<u32>(params[1], params[2]);
    for (var d = 0u; d < ndims; d = d + 1u) {
        let strides = vec2<u32>(params[4u + d], params[4u + ndims + d]);
        let output_stride = params[4u + 2u * ndims + d];
        let size = params[4u + 3u * ndims + d];
        indices = indices + ((output_i / output_stride) % size) * strides;
    }
    return indices;
}

@compute
@workgroup_size(64)
fn call(@builtin(global_invocation_id) global_id: vec3<u32>) {
    let chunk_size = params[3];
    let start = global_id.x * chunk_size;
    for (var i = start; i < start + chunk_size; i = i + 1u) {
        if (i >= arrayLength(&output)) {
            return;
        }
        let indices = input_indices_of(i);
        output[i] = replace_me_with_actual_operation(input_1[indices.x], input_2[indices.y]);
    }
}
";

/// Takes the elements along some dimensions of a tensor together.
pub const REDUCE_SHADER: &'static str = "
@group(0) @binding(0)
var<storage, read> input: array<f32>;

@group(0) @binding(1)
var<storage, read_write> output: array<f32>;

// ndims, input offset, chunk size;
// input strides, output strides, shape,
// reduced strides, reduced shape, output shape (ndims each)
@group(0) @binding(2)
var<storage, read> params: array<u32>;

// What an operation starts from.
const SUM: f32 = 0.0;
const MAX: f32 = -3.40282347e+38;

// The number of threads that share the reduction to one element.
const REDUCE_THREADS: u32 = 64u;

// The number of threads of a workgroup.
const INTERMEDIATE_SIZE: u32 = 64u;

var<workgroup> intermediate: array<f32, INTERMEDIATE_SIZE>;

fn replace_me_with_actual_operation(in_1: f32, in_2: f32) -> f32 { discard; }

fn replace_me_with_actual_default() -> f32 { discard; }

fn sum(in_1: f32, in_2: f32) -> f32 {
    return in_1 + in_2;
}

fn reduced_size() -> u32 {
    let ndims = params[0];
    var size = 1u;
    for (var d = 0u; d < ndims; d = d + 1u) {
        size = size * params[3u + 4u * ndims + d];
    }
    return size;
}

fn base_index_of(output_i: u32) -> u32 {
    let ndims = params[0];
    var input_i = params[1];
    for (var d = 0u; d < ndims; d = d + 1u) {
        let stride = params[3u + d];
        let output_stride = params[3u + ndims + d];
        let output_size = params[3u + 5u * ndims + d];
        input_i = input_i + ((output_i / output_stride) % output_size) * stride;
    }
    return input_i;
}

fn step_of(reduced_i: u32) -> u32 {
    let ndims = params[0];
    var step = 0u;
    for (var d = 0u; d < ndims; d = d + 1u) {
        let stride = params[3u + d];
        let reduced_stride = params[3u + 3u * ndims + d];
        let size = params[3u + 4u * ndims + d];
        step = step + ((reduced_i / reduced_stride) % size) * stride;
    }
    return step;
}

// The reduction of every `threads`-th element, from the one with number `first` on.
fn part(output_i: u32, first: u32, threads: u32) -> f32 {
    let base = base_index_of(output_i);
    let size = reduced_size();
    var acc = replace_me_with_actual_default();
    for (var i = first; i < size; i = i + threads) {
        acc = replace_me_with_actual_operation(acc, input[base + step_of(i)]);
    }
    return acc;
}

@compute
@workgroup_size(64)
fn call(
    @builtin(global_invocation_id) global_id: vec3<u32>,
    @builtin(local_invocation_id) local_id: vec3<u32>,
) {
    if (REDUCE_THREADS == 1u) {
        let chunk_size = params[2];
        let start = global_id.x * chunk_size;
        for (var i = start; i < start + chunk_size; i = i + 1u) {
            if (i < arrayLength(&output)) {
                output[i] = part(i, 0u, 1u);
            }
        }
    } else {
        // One workgroup, with a column of threads for each element of the output.
        let row = local_id.x * REDUCE_THREADS;
        intermediate[row + local_id.y] = part(local_id.x, local_id.y, REDUCE_THREADS);
        workgroupBarrier();
        if (local_id.y == 0u) {
            var acc = replace_me_with_actual_default();
            for (var i = 0u; i < REDUCE_THREADS; i = i + 1u) {
                acc = replace_me_with_actual_operation(acc, intermediate[row + i]);
            }
            output[local_id.x] = acc;
        }
    }
}
";

/// Surrounds the elements of a tensor with zeros.
pub const PAD_SHADER: &'static str = "
@group(0) @binding(0)
var<storage, read> input: array<f32>;

@group(0) @binding(1)
var<storage, read_write> output: array<f32>;

// ndims, input offset, chunk size;
// input strides, output strides, shape,
// padding before, padding after (ndims each)
@group(0) @binding(2)
var<storage, read> params: array<u32>;

fn element(output_i: u32) -> f32 {
    let ndims = params[0];
    var input_i = params[1];
    for (var d = 0u; d < ndims; d = d + 1u) {
        let stride = params[3u + d];
        let output_stride = params[3u + ndims + d];
        let size = params[3u + 2u * ndims + d];
        let before = params[3u + 3u * ndims + d];
        let after = params[3u + 4u * ndims + d];
        let i = (output_i / output_stride) % (before + size + after);
        if (i < before || i >= before + size) {
            return 0.0;
        }
        input_i = input_i + (i - before) * stride;
    }
    return input[input_i];
}

@compute
@workgroup_size(64)
fn call(@builtin(global_invocation_id) global_id: vec3<u32>) {
    let chunk_size = params[2];
    let start = global_id.x * chunk_size;
    for (var i = start; i < start + chunk_size; i = i + 1u) {
        if (i >= arrayLength(&output)) {
            return;
        }
        output[i] = element(i);
    }
}
";

/// Multiplies the elements of two tensors of one shape, and sums the products along some
/// dimensions.
pub const FUSED_MUL_ADD_SHADER: &'static str = "
@group(0) @binding(0)
var<storage, read> input_1: array<f32>;

@group(0) @binding(1)
var<storage, read> input_2: array<f32>;

@group(0) @binding(2)
var<storage, read_write> output: array<f32>;

// ndims, first offset, second offset, chunk size;
// first strides, second strides, output strides, shape,
// reduced strides, reduced shape, output shape (ndims each)
@group(0) @binding(3)
var<storage, read> params: array<u32>;

fn reduced_size() -> u32 {
    let ndims = params[0];
    var size = 1u;
    for (var d = 0u; d < ndims; d = d + 1u) {
        size = size * params[4u + 5u * ndims + d];
    }
    return size;
}

fn base_indices_of(output_i: u32) -> vec2<u32> {
    let ndims = params[0];
    var indices = vec2<u32>(params[1], params[2]);
    for (var d = 0u; d < ndims; d = d + 1u) {
        let strides = vec2<u32>(params[4u + d], params[4u + ndims + d]);
        let output_stride = params[4u + 2u * ndims + d];
        let output_size = params[4u + 6u * ndims + d];
        indices = indices + ((output_i / output_stride) % output_size) * strides;
    }
    return indices;
}

fn steps_of(reduced_i: u32) -> vec2<u32> {
    let ndims = params[0];
    var steps = vec2<u32>(0u, 0u);
    for (var d = 0u; d < ndims; d = d + 1u) {
        let strides = vec2<u32>(params[4u + d], params[4u + ndims + d]);
        let reduced_stride = params[4u + 4u * ndims + d];
        let size = params[4u + 5u * ndims + d];
        steps = steps + ((reduced_i / reduced_stride) % size) * strides;
    }
    return steps;
}

@compute
@workgroup_size(64)
fn call(@builtin(global_invocation_id) global_id: vec3<u32>) {
    let chunk_size = params[3];
    let start = global_id.x * chunk_size;
    let size = reduced_size();
    for (var i = start; i < start + chunk_size; i = i + 1u) {
        if (i >= arrayLength(&output)) {
            return;
        }
        let base = base_indices_of(i);
        var acc = 0.0;
        for (var r = 0u; r < size; r = r + 1u) {
            let indices = base + steps_of(r);
            acc = fma(input_1[indices.x], input_2[indices.y], acc);
        }
        output[i] = acc;
    }
}
";

impl Templates {
    /// The templates of the programs for 32-bit floating point elements.
    pub fn standard() -> (templates: Templates)
        ensures
            templates.map@ == MAP_SHADER@,
            templates.zip@ == ZIP_SHADER@,
            templates.reduce@ == REDUCE_SHADER@,
            templates.pad@ == PAD_SHADER@,
            templates.fused_mul_add@ == FUSED_MUL_ADD_SHADER@,
    {
        Templates {
            map: MAP_SHADER,
            zip: ZIP_SHADER,
            reduce: REDUCE_SHADER,
            pad: PAD_SHADER,
            fused_mul_add: FUSED_MUL_ADD_SHADER,
        }
    }
}

} // verus!
