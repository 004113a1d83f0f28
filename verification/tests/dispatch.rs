//! What the device is told.

use wgpu_tensor::dispatch::{
    byte_size, device_words, fused_multiply_add_dispatch, get_strides_and_shapes, map_dispatch,
    pad_dispatch, reduce_dispatch, zip_dispatch, Dispatch,
};
use wgpu_tensor::error::TensorError;
use wgpu_tensor::operation::{BinaryOp, Operation, ReduceOp, UnaryOp};
use wgpu_tensor::raw_tensor::WgpuRawTensor;
use wgpu_tensor::shape_strider::ShapeStrider;

fn contiguous(shape: &[usize]) -> ShapeStrider {
    ShapeStrider::contiguous(shape).unwrap()
}

#[test]
fn parameters_come_in_the_order_in_which_they_are_read() {
    let a = contiguous(&[4, 5]).crop(&[(1, 3), (1, 4)]);
    let b = contiguous(&[3, 2]).permute(&[1, 0]);
    let out = contiguous(&[2, 3]);
    assert_eq!(
        get_strides_and_shapes(&a, 9, None, &out, None, None),
        vec![2, 6, 9, 5, 1, 3, 1, 2, 3]
    );
    assert_eq!(
        get_strides_and_shapes(&a, 9, Some(&b), &out, None, None),
        vec![2, 6, 0, 9, 5, 1, 1, 2, 3, 1, 2, 3]
    );
    let kept = contiguous(&[1, 3]);
    let through = contiguous(&[2, 1]);
    assert_eq!(
        get_strides_and_shapes(&a, 1, None, &kept, Some(&through), None),
        vec![2, 6, 1, 5, 1, 3, 1, 2, 3, 1, 1, 2, 1, 1, 3]
    );
    assert_eq!(
        get_strides_and_shapes(&a, 1, None, &out, None, Some(&[(7, 8), (10, 11)])),
        vec![2, 6, 1, 5, 1, 3, 1, 2, 3, 7, 10, 8, 11]
    );
}

#[test]
fn map_runs_on_every_element() {
    let s = contiguous(&[3, 2]).permute(&[1, 0]);
    let d = map_dispatch::<f32>(&s, UnaryOp::Log).unwrap();
    assert_eq!(d.operation, Operation::Unary(UnaryOp::Log));
    assert_eq!(d.workgroup_size, (6, 1));
    assert_eq!(d.workgroup_count, 1);
    assert_eq!(d.parameters, vec![2, 0, 1, 1, 2, 3, 1, 2, 3]);
    assert_eq!(d.output.shape(), &[2, 3]);
    assert_eq!(d.output.strides(), &[3, 1]);
    assert_eq!(d.output_bytes, 24);
    assert_eq!(map_dispatch::<u64>(&s, UnaryOp::Log).unwrap().output_bytes, 48);
}

#[test]
fn zip_runs_on_every_pair() {
    let a = contiguous(&[3, 2]).permute(&[1, 0]);
    let b = contiguous(&[2, 3]);
    let d = zip_dispatch::<f32>(&a, &b, BinaryOp::Pow).unwrap();
    assert_eq!(d.operation, Operation::Binary(BinaryOp::Pow));
    assert_eq!(d.parameters, vec![2, 0, 0, 1, 1, 2, 3, 1, 3, 1, 2, 3]);
    assert_eq!(
        zip_dispatch::<f32>(&a, &contiguous(&[3, 2]), BinaryOp::Pow).unwrap_err(),
        TensorError::ShapeMismatch
    );
}

#[test]
fn reduce_runs_on_what_is_left() {
    let s = contiguous(&[60, 60]);
    let d = reduce_dispatch::<f32>(&s, &[0, 1], ReduceOp::Sum).unwrap();
    assert_eq!(d.operation, Operation::Reduce(ReduceOp::Sum));
    assert_eq!(d.workgroup_size, (1, 56));
    assert_eq!(d.workgroup_count, 1);
    assert_eq!(d.output.shape(), &[1, 1]);
    assert_eq!(d.output_bytes, 4);
    assert_eq!(
        d.parameters,
        vec![2, 0, 1, 60, 1, 1, 1, 60, 60, 60, 1, 60, 60, 1, 1]
    );
    assert_eq!(
        reduce_dispatch::<f32>(&s, &[2], ReduceOp::Sum).unwrap_err(),
        TensorError::AxisOutOfRange
    );
    assert_eq!(
        reduce_dispatch::<f32>(&contiguous(&[0, 3]), &[1], ReduceOp::Sum).unwrap_err(),
        TensorError::NothingLeft
    );
    let d = reduce_dispatch::<f32>(&contiguous(&[0, 3]), &[0], ReduceOp::Sum).unwrap();
    assert_eq!(d.output.shape(), &[1, 3]);
}

#[test]
fn pad_runs_on_the_grown_tensor() {
    let s = contiguous(&[2, 3]);
    let d = pad_dispatch::<f32>(&s, &[(1, 2), (0, 3)]).unwrap();
    assert_eq!(d.operation, Operation::Pad);
    assert_eq!(d.workgroup_size, (30, 1));
    assert_eq!(d.output.shape(), &[5, 6]);
    assert_eq!(d.output_bytes, 120);
    assert_eq!(d.parameters, vec![2, 0, 1, 3, 1, 6, 1, 2, 3, 1, 0, 2, 3]);
    assert_eq!(pad_dispatch::<f32>(&s, &[(1, 2)]).unwrap_err(), TensorError::RankMismatch);
    assert_eq!(
        pad_dispatch::<f32>(&s, &[(usize::MAX, 0), (0, 0)]).unwrap_err(),
        TensorError::TooLarge
    );
}

#[test]
fn fused_multiply_add_leaves_what_the_two_steps_leave() {
    let a = contiguous(&[2, 3]);
    let b = contiguous(&[3, 2]).permute(&[1, 0]);
    let fused = fused_multiply_add_dispatch::<f32>(&a, &b, &[1]).unwrap();
    assert_eq!(fused.operation, Operation::FusedMulAdd);
    assert_eq!(fused.workgroup_size, (2, 1));
    assert_eq!(
        fused.parameters,
        vec![2, 0, 0, 1, 3, 1, 1, 2, 1, 1, 2, 3, 3, 1, 1, 3, 2, 1]
    );
    let products = zip_dispatch::<f32>(&a, &b, BinaryOp::Mul).unwrap();
    let sums = reduce_dispatch::<f32>(&products.output, &[1], ReduceOp::Sum).unwrap();
    assert_eq!(fused.output.shape(), sums.output.shape());
    assert_eq!(fused.output.strides(), sums.output.strides());
    assert_eq!(
        fused_multiply_add_dispatch::<f32>(&a, &contiguous(&[2, 4]), &[1]).unwrap_err(),
        TensorError::ShapeMismatch
    );
    assert_eq!(
        fused_multiply_add_dispatch::<f32>(&a, &b, &[2]).unwrap_err(),
        TensorError::AxisOutOfRange
    );
    // Here there is no division by what is left.
    let empty = contiguous(&[0, 3]);
    let fused = fused_multiply_add_dispatch::<f32>(&empty, &empty, &[1]).unwrap();
    assert_eq!(fused.workgroup_size, (0, 1));
    assert_eq!(fused.output_bytes, 0);
}

#[test]
fn what_the_device_cannot_hold_is_refused() {
    assert_eq!(device_words(&[1, 2, u32::MAX as usize]), Some(vec![1, 2, u32::MAX]));
    assert_eq!(device_words(&[1, u32::MAX as usize + 1]), None);
    assert_eq!(device_words(&[]), Some(vec![]));
    // A shape beyond the words of the device.
    let wide = contiguous(&[1, 1 << 32]);
    assert_eq!(map_dispatch::<f32>(&wide, UnaryOp::Exp).unwrap_err(), TensorError::TooLarge);
    assert_eq!(
        reduce_dispatch::<f32>(&wide, &[1], ReduceOp::Max).unwrap_err(),
        TensorError::TooLarge
    );
    assert_eq!(
        zip_dispatch::<f32>(&wide, &wide, BinaryOp::Add).unwrap_err(),
        TensorError::TooLarge
    );
    assert_eq!(
        fused_multiply_add_dispatch::<f32>(&wide, &wide, &[1]).unwrap_err(),
        TensorError::TooLarge
    );
    // More bytes than can be counted.
    let many = contiguous(&[usize::MAX]);
    assert_eq!(map_dispatch::<u8>(&many, UnaryOp::Exp).unwrap_err(), TensorError::TooLarge);
}

#[test]
fn bytes_are_counted_by_the_size_of_an_element() {
    assert_eq!(byte_size::<f32>(6), Some(24));
    assert_eq!(byte_size::<u8>(6), Some(6));
    assert_eq!(byte_size::<f64>(usize::MAX / 8), Some((usize::MAX as u64 / 8) * 8));
    assert_eq!(byte_size::<f64>(usize::MAX / 8 + 1), None);
}

#[test]
fn the_device_gets_the_bytes_of_the_parameters() {
    let s = contiguous(&[3, 500]);
    let d = map_dispatch::<f32>(&s, UnaryOp::Id).unwrap();
    let bytes: Vec<u8> = d.parameters.iter().flat_map(|w| w.to_ne_bytes()).collect();
    assert_eq!(d.parameter_bytes(), &bytes[..]);
    assert_eq!(d.parameter_bytes().len(), 4 * 9);
    assert_ne!(d.parameter_bytes(), &vec![0u8; 36][..]);
}

type Tensor = WgpuRawTensor<f32, Vec<f32>>;

#[test]
fn a_new_tensor_needs_data_of_its_size() {
    let upload = |data: &[f32]| data.to_vec();
    let t = Tensor::new(&[2, 2], &[1.0, 2.0, 3.0, 4.0], upload).unwrap();
    assert_eq!(t.shape(), &[2, 2]);
    assert_eq!(t.strides(), &[2, 1]);
    assert_eq!(t.device_buffer(), &vec![1.0, 2.0, 3.0, 4.0]);
    assert_eq!(Tensor::new(&[3], &[1.0], upload).err(), Some(TensorError::SizeMismatch));
    assert_eq!(
        Tensor::new(&[usize::MAX, 2], &[1.0], upload).err(),
        Some(TensorError::SizeMismatch)
    );
    assert_eq!(
        Tensor::new(&[0, usize::MAX, 2], &[], upload).err(),
        Some(TensorError::TooLarge)
    );
}

#[test]
fn refused_operations_do_not_reach_the_device() {
    let t = Tensor::new(&[2, 3], &[0.0; 6], |data: &[f32]| data.to_vec()).unwrap();
    let u = Tensor::new(&[3, 2], &[0.0; 6], |data: &[f32]| data.to_vec()).unwrap();
    let one = |_: &Dispatch, _: &Vec<f32>| -> Vec<f32> { panic!("not to be run") };
    let two = |_: &Dispatch, _: &Vec<f32>, _: &Vec<f32>| -> Vec<f32> { panic!("not to be run") };
    assert_eq!(t.add(&u, two).err(), Some(TensorError::ShapeMismatch));
    assert_eq!(t.fused_multiply_add(&u, &[0], two).err(), Some(TensorError::ShapeMismatch));
    assert_eq!(t.fused_multiply_add(&t, &[7], two).err(), Some(TensorError::AxisOutOfRange));
    assert_eq!(t.sum(&[2], one).err(), Some(TensorError::AxisOutOfRange));
    assert_eq!(t.reshape(&[7], one).err(), Some(TensorError::SizeMismatch));
    assert_eq!(t.pad(&[(0, 0)], one).err(), Some(TensorError::RankMismatch));
    assert_eq!(t.permute(&[0]).err(), Some(TensorError::RankMismatch));
    assert_eq!(t.permute(&[0, 0]).err(), Some(TensorError::NotAPermutation));
    assert_eq!(t.expand(&[2, 3, 1]).err(), Some(TensorError::RankMismatch));
    assert_eq!(t.expand(&[4, 3]).err(), Some(TensorError::CannotExpand));
    assert_eq!(t.crop(&[(0, 1)]).err(), Some(TensorError::RankMismatch));
    assert_eq!(t.crop(&[(0, 3), (0, 1)]).err(), Some(TensorError::LimitsOutOfRange));
}

#[test]
fn views_and_clones_share_the_buffer() {
    let t = Tensor::new(&[2, 3], &[0.0; 6], |data: &[f32]| data.to_vec()).unwrap();
    let views = [
        t.clone(),
        t.permute(&[1, 0]).unwrap(),
        t.crop(&[(0, 1), (1, 2)]).unwrap(),
        t.expand(&[2, 3]).unwrap(),
        t.reshape(&[6], |_: &Dispatch, _: &Vec<f32>| panic!("not to be run")).unwrap(),
    ];
    for view in views {
        assert!(std::ptr::eq(view.device_buffer(), t.device_buffer()));
    }
}

#[test]
fn a_part_without_elements_is_read_inside_the_buffer() {
    let t = Tensor::new(&[2, 3], &[0.0; 6], |data: &[f32]| data.to_vec()).unwrap();
    let part = t.crop(&[(1, 2), (1, 3)]).unwrap().crop(&[(1, 1), (0, 2)]).unwrap();
    let run = |_: &Dispatch, _: &Vec<f32>| -> Vec<f32> { panic!("not to be run") };
    let read = |buffer: &Vec<f32>, offset: u64, size: u64| -> Vec<f32> {
        assert_eq!((buffer.len(), offset, size), (6, 16, 0));
        Vec::new()
    };
    assert_eq!(part.ravel(run, read), Ok(Vec::new()));
}
