//! The tensor operations, run on a device that is simulated thread by thread.

use std::f32::consts::E;
use std::iter::repeat;
use std::sync::Mutex;

use wgpu_tensor::device::WgpuDevice;
use wgpu_tensor::dispatch::Dispatch;
use wgpu_tensor::operation::{BinaryOp, Operation, ReduceOp, UnaryOp, ZIP_OPS};
use wgpu_tensor::raw_tensor::WgpuRawTensor;
use wgpu_tensor::shader::Templates;

/// A device whose buffers are vectors, and whose compiled programs are their own text.
struct Device {
    pipelines: Mutex<WgpuDevice<String>>,
}

/// Templates that hold nothing but what a simulated program has to know.
const TEMPLATES: Templates = Templates {
    map: "map @workgroup_size(64) fn replace_me_with_actual_operation(in: f32) -> f32 { discard; } replace_me_with_actual_operation",
    zip: "zip @workgroup_size(64) fn replace_me_with_actual_operation(in_1: f32, in_2: f32) -> f32 { discard; } replace_me_with_actual_operation",
    reduce: "reduce @workgroup_size(64) fn replace_me_with_actual_operation(in_1: f32, in_2: f32) -> f32 { discard; } replace_me_with_actual_operation fn replace_me_with_actual_default() -> f32 { discard; } replace_me_with_actual_default() const REDUCE_THREADS: u32 = 64u; const INTERMEDIATE_SIZE: u32 = 64u;",
    pad: "pad @workgroup_size(64)",
    fused_mul_add: "fused_mul_add @workgroup_size(64)",
};

fn get_wgpu_device() -> Device {
    Device { pipelines: Mutex::new(WgpuDevice::new(TEMPLATES)) }
}

/// The words that a program reads, one after the other.
struct Words {
    words: Vec<usize>,
    next: usize,
}

impl Words {
    fn new(bytes: &[u8]) -> Words {
        let words = bytes
            .chunks(4)
            .map(|b| u32::from_ne_bytes([b[0], b[1], b[2], b[3]]) as usize)
            .collect();
        Words { words, next: 0 }
    }

    fn one(&mut self) -> usize {
        self.next += 1;
        self.words[self.next - 1]
    }

    fn many(&mut self, n: usize) -> Vec<usize> {
        (0..n).map(|_| self.one()).collect()
    }

    fn finish(&self) {
        assert_eq!(self.next, self.words.len());
    }
}

fn unravel(i: usize, strides: &[usize], shape: &[usize]) -> Vec<usize> {
    strides.iter().zip(shape).map(|(s, n)| (i / s) % n).collect()
}

fn dot(index: &[usize], strides: &[usize]) -> usize {
    index.iter().zip(strides).map(|(i, s)| i * s).sum()
}

fn apply_unary_op(op: &str, a: f32) -> f32 {
    match op {
        "exp" => a.exp(),
        "log" => a.log(E),
        "id" => a,
        _ => panic!("unknown op: {op}"),
    }
}

fn apply_binary_op(op: &str, a: f32, b: f32) -> f32 {
    match op {
        "add" => a + b,
        "sub" => a - b,
        "mul" => a * b,
        "div" => a / b,
        "pow" => a.powf(b),
        "eq" => {
            if a == b {
                1.0
            } else {
                0.0
            }
        }
        _ => panic!("unknown op: {op}"),
    }
}

impl Device {
    /// The text of the program, which is compiled on first use.
    fn program(&self, dispatch: &Dispatch) -> String {
        let mut pipelines = self.pipelines.lock().unwrap();
        let program = pipelines.pipeline_for(
            dispatch.operation,
            dispatch.workgroup_size,
            |label: &str, source: &str| {
                assert!(!source.contains("replace_me"));
                format!("{label} {source}")
            },
        );
        program.to_string()
    }

    /// Runs the program in every thread of every workgroup, and checks that the threads fill the
    /// whole result.
    fn run(&self, dispatch: &Dispatch, first: &[f32], second: Option<&[f32]>) -> Vec<f32> {
        let program = self.program(dispatch);
        let tokens: Vec<&str> = program.split_whitespace().collect();
        let label = tokens[0];
        assert_eq!(label, dispatch.operation.name());
        let kind = tokens[1];
        let (x, y) = dispatch.workgroup_size;
        assert_eq!(tokens[2], format!("@workgroup_size({x},"));
        assert_eq!(tokens[3], format!("{y})"));
        assert!(x * y <= 256);
        assert!(dispatch.workgroup_count <= 65535);
        if kind == "reduce" {
            assert_eq!(tokens[5], label.to_uppercase());
            assert!(program.contains(&format!("const REDUCE_THREADS: u32 = {y}u;")));
            assert!(program.contains(&format!("const INTERMEDIATE_SIZE: u32 = {}u;", x * y)));
        }

        let mut words = Words::new(dispatch.parameter_bytes());
        let n = words.one();
        let first_offset = words.one();
        let second_offset = if second.is_some() { words.one() } else { 0 };
        let chunk_size = words.one();
        let first_strides = words.many(n);
        let second_strides = if second.is_some() { words.many(n) } else { vec![] };
        let output_strides = words.many(n);
        let shape = words.many(n);
        let reduces = kind == "reduce" || kind == "fused_mul_add";
        let (reduced_strides, reduced_shape, output_shape) = if reduces {
            (words.many(n), words.many(n), words.many(n))
        } else {
            (vec![], vec![], vec![])
        };
        let (before, after) = if kind == "pad" {
            (words.many(n), words.many(n))
        } else {
            (vec![], vec![])
        };
        words.finish();

        let size = usize::try_from(dispatch.output_bytes).unwrap() / 4;
        let reduced_size: usize = reduced_shape.iter().product();
        let element = |i: usize| -> f32 {
            match kind {
                "map" => {
                    let index = unravel(i, &output_strides, &shape);
                    apply_unary_op(label, first[first_offset + dot(&index, &first_strides)])
                }
                "zip" => {
                    let index = unravel(i, &output_strides, &shape);
                    apply_binary_op(
                        label,
                        first[first_offset + dot(&index, &first_strides)],
                        second.unwrap()[second_offset + dot(&index, &second_strides)],
                    )
                }
                "reduce" => {
                    let index = unravel(i, &output_strides, &output_shape);
                    let base = first_offset + dot(&index, &first_strides);
                    let start = if label == "sum" { 0.0 } else { f32::MIN };
                    let combine = |a: f32, b: f32| if label == "sum" { a + b } else { a.max(b) };
                    // Each of `y` threads takes every `y`-th element; then one takes them all.
                    let partial: Vec<f32> = (0..y)
                        .map(|thread| {
                            (thread..reduced_size)
                                .step_by(y)
                                .map(|r| {
                                    let through = unravel(r, &reduced_strides, &reduced_shape);
                                    first[base + dot(&through, &first_strides)]
                                })
                                .fold(start, combine)
                        })
                        .collect();
                    partial.into_iter().fold(start, combine)
                }
                "fused_mul_add" => {
                    let index = unravel(i, &output_strides, &output_shape);
                    let base = first_offset + dot(&index, &first_strides);
                    let second_base = second_offset + dot(&index, &second_strides);
                    (0..reduced_size)
                        .map(|r| {
                            let through = unravel(r, &reduced_strides, &reduced_shape);
                            first[base + dot(&through, &first_strides)]
                                * second.unwrap()[second_base + dot(&through, &second_strides)]
                        })
                        .sum()
                }
                "pad" => {
                    let padded: Vec<usize> = (0..n)
                        .map(|d| before[d] + shape[d] + after[d])
                        .collect();
                    let index = unravel(i, &output_strides, &padded);
                    if (0..n).all(|d| before[d] <= index[d] && index[d] < before[d] + shape[d]) {
                        let inside: Vec<usize> = (0..n).map(|d| index[d] - before[d]).collect();
                        first[first_offset + dot(&inside, &first_strides)]
                    } else {
                        0.0
                    }
                }
                _ => panic!("unknown program: {program}"),
            }
        };

        let mut output: Vec<Option<f32>> = vec![None; size];
        for workgroup in 0..dispatch.workgroup_count as usize {
            for local in 0..x {
                let thread = workgroup * x + local;
                for i in thread * chunk_size..(thread + 1) * chunk_size {
                    if i < size {
                        output[i] = Some(element(i));
                    }
                }
            }
        }
        output.into_iter().map(|e| e.expect("an element that no thread computes")).collect()
    }
}

/// A tensor on the simulated device.
struct Tensor(WgpuRawTensor<f32, Vec<f32>>);

impl Tensor {
    fn new(shape: &[usize], data: &[f32], _device: Device) -> Tensor {
        Tensor(WgpuRawTensor::new(shape, data, |data: &[f32]| data.to_vec()).unwrap())
    }

    fn map(&self, operation: UnaryOp) -> Tensor {
        let run = |d: &Dispatch, a: &Vec<f32>| get_wgpu_device().run(d, a, None);
        Tensor(self.0.map(operation, run).unwrap())
    }

    fn zip(&self, other: &Tensor, operation: BinaryOp) -> Tensor {
        let run = |d: &Dispatch, a: &Vec<f32>, b: &Vec<f32>| get_wgpu_device().run(d, a, Some(b));
        Tensor(self.0.zip(&other.0, operation, run).unwrap())
    }

    fn add(&self, other: &Tensor) -> Tensor {
        let run = |d: &Dispatch, a: &Vec<f32>, b: &Vec<f32>| get_wgpu_device().run(d, a, Some(b));
        Tensor(self.0.add(&other.0, run).unwrap())
    }

    fn sum(&self, axes: &[usize]) -> Tensor {
        let run = |d: &Dispatch, a: &Vec<f32>| get_wgpu_device().run(d, a, None);
        Tensor(self.0.sum(axes, run).unwrap())
    }

    fn max(&self, axes: &[usize]) -> Tensor {
        let run = |d: &Dispatch, a: &Vec<f32>| get_wgpu_device().run(d, a, None);
        Tensor(self.0.max(axes, run).unwrap())
    }

    fn pad(&self, padding: &[(usize, usize)]) -> Tensor {
        let run = |d: &Dispatch, a: &Vec<f32>| get_wgpu_device().run(d, a, None);
        Tensor(self.0.pad(padding, run).unwrap())
    }

    fn fused_multiply_add(&self, other: &Tensor, axes: &[usize]) -> Tensor {
        let run = |d: &Dispatch, a: &Vec<f32>, b: &Vec<f32>| get_wgpu_device().run(d, a, Some(b));
        Tensor(self.0.fused_multiply_add(&other.0, axes, run).unwrap())
    }

    fn reshape(&self, shape: &[usize]) -> Tensor {
        let run = |d: &Dispatch, a: &Vec<f32>| get_wgpu_device().run(d, a, None);
        Tensor(self.0.reshape(shape, run).unwrap())
    }

    fn permute(&self, permutation: &[usize]) -> Tensor {
        Tensor(self.0.permute(permutation).unwrap())
    }

    fn expand(&self, shape: &[usize]) -> Tensor {
        Tensor(self.0.expand(shape).unwrap())
    }

    fn crop(&self, limits: &[(usize, usize)]) -> Tensor {
        Tensor(self.0.crop(limits).unwrap())
    }

    fn ravel(&self) -> Vec<f32> {
        let run = |d: &Dispatch, a: &Vec<f32>| get_wgpu_device().run(d, a, None);
        let read = |a: &Vec<f32>, offset: u64, size: u64| {
            let start = usize::try_from(offset / 4).unwrap();
            let len = usize::try_from(size / 4).unwrap();
            a[start..start + len].to_vec()
        };
        self.0.ravel(run, read).unwrap()
    }

    fn shape(&self) -> &[usize] {
        self.0.shape()
    }

    fn strides(&self) -> &[usize] {
        self.0.strides()
    }
}

fn assert_vec_eq(a: &[f32], b: &[f32]) {
    assert!(
        a.iter()
            .zip(b.iter())
            .all(|(a, b)| (a.is_nan() && b.is_nan()) || (a - b).abs() < 1e-2),
        "\r\nleft : {a:?}\r\nright: {b:?}"
    );
}

#[test]
fn test_single_unary_ops() {
    let input = vec![1.0, 2.0, 3.0, -1.0, -2.0, -3.0];
    let tensor = Tensor::new(&[3, 2], &input, get_wgpu_device());
    let result = tensor.map(UnaryOp::Exp).ravel();
    assert_vec_eq(
        &result,
        &input.iter().map(|x| x.exp()).collect::<Vec<f32>>(),
    );

    let result = tensor.map(UnaryOp::Log).ravel();
    assert_vec_eq(
        &result,
        &input.iter().map(|x| x.log(E)).collect::<Vec<f32>>(),
    );
}

#[test]
fn test_sequential_unary_ops() {
    let input = vec![1.0, 2.0, -1.0, -2.0, 3.0, -3.0, 4.0, 5.0, 6.0];
    let tensor = Tensor::new(&[3, 3], &input, get_wgpu_device());
    let result = tensor.map(UnaryOp::Exp).map(UnaryOp::Log).ravel();
    assert_vec_eq(
        &result,
        &input.iter().map(|x| x.exp().log(E)).collect::<Vec<f32>>(),
    );
}

#[test]
fn test_binary_ops() {
    let i1 = vec![1.0, 2.0, 3.0, -1.0, -2.0, -3.0];
    let t1 = Tensor::new(&[3, 2], &i1, get_wgpu_device());
    let i2 = vec![6.0, 7.0, 8.0, -6.0, -7.0, -8.0];
    let t2 = Tensor::new(&[3, 2], &i2, get_wgpu_device());
    for op in ZIP_OPS {
        if op == BinaryOp::Pow {
            continue; // see separate test
        }
        let result = t1.zip(&t2, op).ravel();
        assert_vec_eq(
            &result,
            &i1.iter()
                .zip(i2.iter())
                .map(|(a, b)| apply_binary_op(Operation::Binary(op).name(), *a, *b))
                .collect::<Vec<f32>>(),
        );
    }
}

#[test]
fn test_pow() {
    let i1 = vec![1.0, 2.0, 3.0, 4.0, 5.0, 8.0];
    let t1 = Tensor::new(&[3, 2], &i1, get_wgpu_device());
    let i2 = vec![6.0, 7.0, 8.0, -2.0, -5.0, -10.0];
    let t2 = Tensor::new(&[3, 2], &i2, get_wgpu_device());
    let op = "pow";
    let result = t1.zip(&t2, BinaryOp::Pow).ravel();
    assert_vec_eq(
        &result,
        &i1.iter()
            .zip(i2.iter())
            .map(|(a, b)| apply_binary_op(op, *a, *b))
            .collect::<Vec<f32>>(),
    );
}

#[test]
fn test_non_contiguous_binary_ops() {
    let t1 = Tensor::new(
        &[3, 2],
        &[1.0, 2.0, 3.0, -1.0, -2.0, -3.0],
        get_wgpu_device(),
    );
    let t1 = t1.permute(&[1, 0]);
    let t2 = Tensor::new(
        &[3, 2],
        &[6.0, 7.0, 8.0, -6.0, -7.0, -8.0],
        get_wgpu_device(),
    );
    let t2 = t2.reshape(&[2, 3]);
    for op in ZIP_OPS {
        if op == BinaryOp::Pow {
            continue; // see separate test
        }
        let actual = t1.zip(&t2, op).ravel();
        let expected = t1
            .ravel()
            .into_iter()
            .zip(t2.ravel().into_iter())
            .map(|(a, b)| apply_binary_op(Operation::Binary(op).name(), a, b))
            .collect::<Vec<f32>>();
        assert_vec_eq(&actual, &expected);
    }
}

#[test]
fn test_non_contiguous_pow() {
    let t1 = Tensor::new(&[3, 2], &[1.0, 2.0, 3.0, 7.0, 8.0, 9.0], get_wgpu_device());
    let t1 = t1.permute(&[1, 0]);
    let t2 = Tensor::new(
        &[3, 2],
        &[6.0, 7.0, 8.0, -6.0, -7.0, -8.0],
        get_wgpu_device(),
    );
    let t2 = t2.reshape(&[2, 3]);

    let op = "pow";
    let actual = t1.zip(&t2, BinaryOp::Pow).ravel();
    let expected = t1
        .ravel()
        .into_iter()
        .zip(t2.ravel().into_iter())
        .map(|(a, b)| apply_binary_op(op, a, b))
        .collect::<Vec<f32>>();
    assert_vec_eq(&actual, &expected);
}

fn make_vec(len: u16) -> Vec<f32> {
    (0..len).map(f32::from).collect()
}

#[test]
fn test_ravel() {
    let input = make_vec(24);
    let t = Tensor::new(&[2, 3, 4], &input, get_wgpu_device());
    assert_eq!(t.ravel(), input);
}

fn test_reshape_24(orig_shape: &[usize], new_shape: &[usize], expected_strides: &[usize]) {
    let input = make_vec(24);
    let t = Tensor::new(orig_shape, &input, get_wgpu_device());
    let t = t.reshape(new_shape);
    assert_eq!(t.shape(), new_shape);
    assert_eq!(t.strides(), expected_strides);
    assert_eq!(t.ravel(), make_vec(24));
}

#[test]
fn test_reshape() {
    test_reshape_24(&[24], &[3, 2, 4], &[8, 4, 1]);
    test_reshape_24(&[2, 1, 3, 1, 4], &[2, 3, 4], &[12, 4, 1]);
    test_reshape_24(&[2, 1, 3, 1, 4], &[2, 3, 4, 1], &[12, 4, 1, 1]);
}

fn test_permute_24(orig_shape: &[usize], permutation: &[usize], expected_shape: &[usize]) {
    let input = make_vec(24);
    let t = Tensor::new(orig_shape, &input, get_wgpu_device());
    let tp = t.permute(permutation);
    assert_eq!(tp.shape(), expected_shape);
    assert_ne!(tp.strides(), t.strides());

    let rev_perm = (0..permutation.len())
        .map(|i| permutation.iter().position(|&x| x == i).unwrap())
        .collect::<Vec<_>>();
    let tpp = tp.permute(&rev_perm);
    assert_eq!(tpp.shape(), orig_shape);
    assert_eq!(tpp.strides(), t.strides());
    assert_eq!(&tpp.ravel(), &t.ravel());
}

#[test]
fn test_permute() {
    test_permute_24(&[6, 4], &[1, 0], &[4, 6]);
    test_permute_24(&[2, 3, 4], &[2, 0, 1], &[4, 2, 3]);
}

#[test]
fn test_expand() {
    let t = Tensor::new(&[1, 1], &[42.0], get_wgpu_device());
    let t = t.expand(&[5, 4]);

    assert_eq!(t.shape(), &[5, 4]);
    assert_eq!(t.strides(), &[0, 0]);
    assert_eq!(t.ravel(), repeat(42.0).take(20).collect::<Vec<_>>());
}

#[test]
fn test_reduce_ops() {
    let t = Tensor::new(&[2, 3], &make_vec(6), get_wgpu_device());
    let s = t.sum(&[0]);
    assert_eq!(s.shape(), &[1, 3]);
    assert_eq!(s.ravel(), vec![3.0, 5.0, 7.0]);
    let s = t.sum(&[1]);
    assert_eq!(s.shape(), &[2, 1]);
    assert_eq!(s.ravel(), vec![3.0, 12.0]);
    let s = t.sum(&[0, 1]);
    assert_eq!(s.shape(), &[1, 1]);
    assert_eq!(s.ravel(), vec![15.0]);

    let s = t.max(&[0]);
    assert_eq!(s.shape(), &[1, 3]);
    assert_eq!(s.ravel(), vec![3.0, 4.0, 5.0]);
    let s = t.max(&[1]);
    assert_eq!(s.shape(), &[2, 1]);
    assert_eq!(s.ravel(), vec![2.0, 5.0]);
    let s = t.max(&[0, 1]);
    assert_eq!(s.shape(), &[1, 1]);
    assert_eq!(s.ravel(), vec![5.0]);

    let t = Tensor::new(&[1, 1, 1], &[1.0], get_wgpu_device()).expand(&[4, 2, 4]);
    assert_eq!(t.ravel(), vec![1.0; 32]);
    let s = t.sum(&[0]);
    assert_eq!(s.shape(), &[1, 2, 4]);
    assert_eq!(s.ravel(), vec![4.0; 8]);
}

#[test]
fn test_reduce_ops_non_contiguous() {
    let t = Tensor::new(&[2, 3], &make_vec(6), get_wgpu_device()).permute(&[1, 0]);
    let s = t.sum(&[0]);
    assert_eq!(s.shape(), &[1, 2]);
    assert_eq!(s.ravel(), vec![3.0, 12.0]);
    let s = t.sum(&[1]);
    assert_eq!(s.shape(), &[3, 1]);
    assert_eq!(s.ravel(), vec![3.0, 5.0, 7.0]);
    let s = t.sum(&[0, 1]);
    assert_eq!(s.shape(), &[1, 1]);
    assert_eq!(s.ravel(), vec![15.0]);
}

#[test]
fn test_reduce_ops_parallel() {
    let t = Tensor::new(&[2, 128], &make_vec(256), get_wgpu_device());
    let s = t.sum(&[0]);
    assert_eq!(s.shape(), &[1, 128]);
    let expected: Vec<_> = (128i16..128 + 256)
        .step_by(2)
        .map(|i| f32::try_from(i).unwrap())
        .collect();
    assert_eq!(s.ravel(), expected);

    let s = t.sum(&[1]);
    assert_eq!(s.shape(), &[2, 1]);
    assert_eq!(s.ravel(), vec![8128.0, 24512.0]);

    let s = t.sum(&[0, 1]);
    assert_eq!(s.shape(), &[1, 1]);
    assert_eq!(s.ravel(), vec![8128.0 + 24512.0]);

    // No powers of two
    let t = Tensor::new(&[60, 60], &make_vec(3600), get_wgpu_device());
    let s = t.max(&[0]);
    assert_eq!(s.shape(), &[1, 60]);
    let expected: Vec<_> = (3540i16..3600).map(|i| f32::try_from(i).unwrap()).collect();
    assert_eq!(s.ravel(), expected);

    let s = t.max(&[1]);
    assert_eq!(s.shape(), &[60, 1]);
    let expected: Vec<_> = (59i16..3600)
        .step_by(60)
        .map(|i| f32::try_from(i).unwrap())
        .collect();
    assert_eq!(s.ravel(), expected);

    let s = t.sum(&[0, 1]);
    assert_eq!(s.shape(), &[1, 1]);
    assert_eq!(s.ravel(), vec![6_478_200.0]);
}

#[test]
fn test_reduce_ops_non_contiguous_parallel() {
    let t = Tensor::new(&[2, 128], &make_vec(256), get_wgpu_device()).permute(&[1, 0]);
    let s = t.sum(&[0]);
    assert_eq!(s.shape(), &[1, 2]);
    assert_eq!(s.ravel(), vec![8128.0, 24512.0]);

    let s = t.sum(&[1]);
    assert_eq!(s.shape(), &[128, 1]);

    let expected: Vec<_> = (128i16..128 + 256)
        .step_by(2)
        .map(|i| f32::try_from(i).unwrap())
        .collect();
    assert_eq!(s.ravel(), expected);

    let s = t.sum(&[0, 1]);
    assert_eq!(s.shape(), &[1, 1]);
    assert_eq!(s.ravel(), vec![8128.0 + 24512.0]);
}

#[test]
fn test_crop() {
    let orig_shape = &[2, 3, 4];
    let t = Tensor::new(orig_shape, &make_vec(24), get_wgpu_device());

    // crop single dimension
    let s = t.crop(&[(0, 1), (0, 3), (0, 4)]);
    assert_eq!(s.ravel(), make_vec(12));

    let s = t.crop(&[(1, 2), (0, 3), (0, 4)]);
    assert_eq!(
        s.ravel(),
        make_vec(12).iter().map(|x| x + 12.0).collect::<Vec<_>>()
    );

    // crop nothing
    let s = t.crop(&[(0, 2), (0, 3), (0, 4)]);
    assert_eq!(s.shape(), orig_shape);
    assert_eq!(s.strides(), t.strides());
    assert_eq!(s.ravel(), t.ravel());

    let s = t.crop(&[(0, 2), (0, 3), (1, 3)]);
    assert_eq!(s.shape(), &[2, 3, 2]);
    assert_eq!(s.strides(), t.strides());
    assert_eq!(
        s.ravel(),
        vec![1.0, 2.0, 5., 6., 9., 10., 13., 14., 17., 18., 21., 22.]
    );

    // keep cropping
    let s = s.crop(&[(0, 1), (1, 2), (0, 2)]);
    assert_eq!(s.shape(), &[1, 1, 2]);
    assert_eq!(s.strides(), t.strides());
    assert_eq!(s.ravel(), vec![5.0, 6.0]);

    // crop to single element
    let s = s.crop(&[(0, 1), (0, 1), (1, 2)]);
    assert_eq!(s.shape(), &[1, 1, 1]);
    assert_eq!(s.strides(), t.strides());
    assert_eq!(s.ravel(), vec![6.0]);
}

#[test]
fn test_pad() {
    let orig_shape = &[2, 3, 4];
    let t = Tensor::new(orig_shape, &make_vec(24), get_wgpu_device());

    // pad nothing
    let s = t.pad(&[(0, 0), (0, 0), (0, 0)]);
    assert_eq!(s.shape(), orig_shape);
    assert_eq!(s.strides(), t.strides());
    assert_eq!(s.ravel(), t.ravel());

    // pad a little
    let padding = &[(1, 1), (1, 1), (1, 1)];
    let s = t.pad(padding);
    assert_eq!(s.shape(), &[4, 5, 6]);
    assert_eq!(s.strides(), &[30, 6, 1]);
    let s_raveled = s.ravel();
    assert_eq!(s_raveled.len(), s.shape().iter().product::<usize>());
    assert_eq!(s_raveled.iter().filter(|&&x| x != 0.0).count(), 23);
    assert_eq!(s_raveled[s.0.strider().buffer_index(&[1, 1, 2])], 1.0);
    assert_eq!(s_raveled[s.0.strider().buffer_index(&[1, 1, 3])], 2.0);

    // pad a lot in one dimension
    let padding = &[(20, 0), (0, 0), (0, 0)];
    let s = t.pad(padding);
    assert_eq!(s.shape(), &[22, 3, 4]);
    assert_eq!(s.strides(), &[12, 4, 1]);
    let s_raveled = s.ravel();
    assert_eq!(s_raveled.iter().filter(|&&x| x != 0.0).count(), 23);
    assert_eq!(s_raveled[s.0.strider().buffer_index(&[20, 0, 1])], 1.0);
    assert_eq!(s_raveled[s.0.strider().buffer_index(&[20, 0, 2])], 2.0);

    // pad a lot
    let padding = &[(1, 2), (3, 4), (5, 6)];
    let s = t.pad(padding);
    assert_eq!(s.shape(), &[5, 10, 15]);
    assert_eq!(s.strides(), &[150, 15, 1]);
    let s_raveled = s.ravel();
    assert_eq!(s_raveled.iter().filter(|&&x| x != 0.0).count(), 23);
    assert_eq!(s_raveled[s.0.strider().buffer_index(&[1, 3, 6])], 1.0);
    assert_eq!(s_raveled[s.0.strider().buffer_index(&[1, 3, 7])], 2.0);
}

#[test]
fn test_pad_reshape_expand_crop() {
    let dim = 2;
    let t = Tensor::new(&[1], &[1.0], get_wgpu_device());
    let t = t
        .pad(&[(0, dim)])
        .reshape(&[1, dim + 1])
        .expand(&[dim, dim + 1])
        .reshape(&[dim * (dim + 1)])
        .crop(&[(0, dim * dim)]);
    assert_eq!(t.shape(), &[4]);
    assert_eq!(t.ravel(), vec![1.0, 0.0, 0.0, 1.0]);
}

#[test]
fn test_fused_multiply_add() {
    // contiguous
    let t1 = Tensor::new(&[2, 3], &make_vec(6), get_wgpu_device());
    let t2 = t1.add(&Tensor::new(
        &[2, 3],
        &make_vec(6),
        get_wgpu_device(),
    ));

    let r = t1.fused_multiply_add(&t2, &[0]);
    assert_eq!(r.shape(), &[1, 3]);
    assert_eq!(r.ravel(), vec![18.0, 34.0, 58.0]);

    let r = t1.fused_multiply_add(&t2, &[1]);
    assert_eq!(r.shape(), &[2, 1]);
    assert_eq!(r.ravel(), vec![10.0, 100.0]);

    let r = t1.fused_multiply_add(&t2, &[0, 1]);
    assert_eq!(r.shape(), &[1, 1]);
    assert_eq!(r.ravel(), vec![110.0]);

    // different strides
    let t1 = Tensor::new(&[1, 1], &[8.0], get_wgpu_device()).expand(&[2, 3]);
    let t2 = Tensor::new(&[2, 3], &make_vec(6), get_wgpu_device());

    let r = t1.fused_multiply_add(&t2, &[0]);
    assert_eq!(r.shape(), &[1, 3]);
    assert_eq!(r.ravel(), vec![24.0, 40.0, 56.0]);

    let r = t1.fused_multiply_add(&t2, &[1]);
    assert_eq!(r.shape(), &[2, 1]);
    assert_eq!(r.ravel(), vec![24.0, 96.0]);

    let r = t1.fused_multiply_add(&t2, &[0, 1]);
    assert_eq!(r.shape(), &[1, 1]);
    assert_eq!(r.ravel(), vec![120.0]);

    // non_contiguous
    let t1 = Tensor::new(&[2, 3], &make_vec(6), get_wgpu_device()).permute(&[1, 0]);
    let t2 =
        t1.add(&Tensor::new(&[2, 3], &make_vec(6), get_wgpu_device()).permute(&[1, 0]));
    let r = t1.fused_multiply_add(&t2, &[0]);
    assert_eq!(r.shape(), &[1, 2]);
    assert_eq!(r.ravel(), vec![10.0, 100.0]);

    let r = t1.fused_multiply_add(&t2, &[1]);
    assert_eq!(r.shape(), &[3, 1]);
    assert_eq!(r.ravel(), vec![18.0, 34.0, 58.0]);

    let r = t1.fused_multiply_add(&t2, &[0, 1]);
    assert_eq!(r.shape(), &[1, 1]);
    assert_eq!(r.ravel(), vec![110.0]);
}

#[test]
fn the_named_operations_run_their_programs() {
    let a = WgpuRawTensor::<f32, Vec<f32>>::new(&[2], &[4.0, 9.0], |d: &[f32]| d.to_vec()).unwrap();
    let b = WgpuRawTensor::<f32, Vec<f32>>::new(&[2], &[2.0, 9.0], |d: &[f32]| d.to_vec()).unwrap();
    let one = |d: &Dispatch, a: &Vec<f32>| get_wgpu_device().run(d, a, None);
    let two = |d: &Dispatch, a: &Vec<f32>, b: &Vec<f32>| get_wgpu_device().run(d, a, Some(b));
    assert_eq!(a.sub(&b, two).unwrap().device_buffer(), &vec![2.0, 0.0]);
    assert_eq!(a.mul(&b, two).unwrap().device_buffer(), &vec![8.0, 81.0]);
    assert_eq!(a.div(&b, two).unwrap().device_buffer(), &vec![2.0, 1.0]);
    assert_eq!(a.eq(&b, two).unwrap().device_buffer(), &vec![0.0, 1.0]);
    assert_eq!(b.pow(&b, two).unwrap().device_buffer()[0], 4.0);
    assert_vec_eq(a.exp(one).unwrap().device_buffer(), &[4f32.exp(), 9f32.exp()]);
    assert_vec_eq(a.log(one).unwrap().device_buffer(), &[4f32.ln(), 9f32.ln()]);
    assert_eq!(a.contiguous(one).unwrap().device_buffer(), &vec![4.0, 9.0]);
    assert_eq!(a.reduce(&[0], ReduceOp::Max, one).unwrap().device_buffer(), &vec![9.0]);
}

#[test]
fn a_run_with_more_elements_than_threads_reaches_them_all() {
    // More than 256 elements take several workgroups, the last of which is not full.
    let t = Tensor::new(&[7, 100], &make_vec(700), get_wgpu_device());
    let doubled = t.add(&t);
    let expected: Vec<f32> = make_vec(700).iter().map(|x| x + x).collect();
    assert_eq!(doubled.ravel(), expected);
    // A reduction that leaves more than 256 elements is not shared between threads.
    let t = Tensor::new(&[300, 4], &make_vec(1200), get_wgpu_device());
    let expected: Vec<f32> = (0u16..300).map(|i| f32::from(16 * i + 6)).collect();
    assert_eq!(t.sum(&[1]).ravel(), expected);
}

#[test]
fn ravel_reads_a_contiguous_part_in_place() {
    let t = Tensor::new(&[4, 3], &make_vec(12), get_wgpu_device()).crop(&[(1, 3), (0, 3)]);
    let run = |_: &Dispatch, _: &Vec<f32>| -> Vec<f32> { panic!("a copy is not needed") };
    let read = |a: &Vec<f32>, offset: u64, size: u64| {
        assert_eq!((offset, size), (12, 24));
        a[3..9].to_vec()
    };
    let data = t.0.ravel(run, read).unwrap();
    assert_eq!(data, vec![3.0, 4.0, 5.0, 6.0, 7.0, 8.0]);
}

#[test]
fn ravel_copies_what_is_not_contiguous() {
    let t = Tensor::new(&[2, 3], &make_vec(6), get_wgpu_device()).permute(&[1, 0]);
    assert!(!t.0.strider().is_contiguous());
    assert_eq!(t.ravel(), vec![0.0, 3.0, 1.0, 4.0, 2.0, 5.0]);
}

#[test]
fn reshape_shares_the_buffer_whenever_it_can() {
    let t = Tensor::new(&[2, 3, 4], &make_vec(24), get_wgpu_device());
    let run = |_: &Dispatch, _: &Vec<f32>| -> Vec<f32> { panic!("a copy is not needed") };
    // The dimensions that are split have no gap between them and the ones inside.
    let p = t.permute(&[2, 0, 1]);
    let view = p.0.reshape(&[2, 2, 6], run).unwrap();
    assert_eq!(view.shape(), &[2, 2, 6]);
    assert_eq!(view.strides(), &[2, 1, 4]);
    assert_eq!(Tensor(view).ravel(), p.ravel());
    // Here the elements cannot be listed without moving them.
    let moved = p.reshape(&[8, 3]);
    assert_eq!(moved.shape(), &[8, 3]);
    assert_eq!(moved.strides(), &[3, 1]);
    let view = p.reshape(&[4, 6]);
    assert_eq!(view.strides(), &[1, 4]);
    let copied = p.reshape(&[24]);
    assert_eq!(copied.strides(), &[1]);
    assert_eq!(copied.ravel(), p.ravel());
}

#[test]
fn reshaping_back_needs_no_copy() {
    let t = Tensor::new(&[2, 3, 4], &make_vec(24), get_wgpu_device()).permute(&[2, 0, 1]);
    let run = |_: &Dispatch, _: &Vec<f32>| -> Vec<f32> { panic!("a copy is not needed") };
    for shape in [&[4, 6][..], &[8, 3], &[24]] {
        let r = t.reshape(shape);
        let back = r.0.reshape(t.shape(), run).unwrap();
        assert!(std::ptr::eq(back.device_buffer(), r.0.device_buffer()));
        assert_eq!(back.shape(), t.shape());
        assert_eq!(Tensor(back).ravel(), t.ravel());
    }
}

#[test]
fn cropping_undoes_padding() {
    let t = Tensor::new(&[2, 3], &make_vec(6), get_wgpu_device()).permute(&[1, 0]);
    let s = t.pad(&[(1, 2), (3, 0)]);
    let c = s.crop(&[(1, 4), (3, 5)]);
    assert_eq!(c.shape(), t.shape());
    assert_eq!(c.strides(), s.strides());
    assert!(std::ptr::eq(c.0.device_buffer(), s.0.device_buffer()));
    assert_eq!(c.ravel(), t.ravel());
}

#[test]
fn a_contiguous_copy_reads_alike() {
    let t = Tensor::new(&[4, 6], &make_vec(24), get_wgpu_device()).crop(&[(1, 3), (2, 5)]);
    let copy = t.map(UnaryOp::Id);
    assert_eq!(copy.ravel(), t.ravel());
    assert_eq!(t.ravel().len(), 6);
}

#[test]
fn fused_multiply_add_is_both_steps_in_either_order() {
    let a = Tensor::new(&[2, 3], &make_vec(6), get_wgpu_device());
    let b = Tensor::new(&[3, 2], &make_vec(6), get_wgpu_device()).permute(&[1, 0]);
    for axes in [&[0][..], &[1], &[0, 1]] {
        let fused = a.fused_multiply_add(&b, axes);
        let both = a.zip(&b, BinaryOp::Mul).sum(axes);
        let exchanged = b.fused_multiply_add(&a, axes);
        assert_eq!(fused.shape(), both.shape());
        assert_eq!(fused.ravel(), both.ravel());
        assert_eq!(fused.ravel(), exchanged.ravel());
    }
}
