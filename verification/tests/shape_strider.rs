//! Layouts.

use wgpu_tensor::error::TensorError;
use wgpu_tensor::shape_strider::{checked_size, same_words, ShapeStrider};

fn contiguous(shape: &[usize]) -> ShapeStrider {
    ShapeStrider::contiguous(shape).unwrap()
}

/// Where the elements stand, in row-major order.
fn positions(strider: &ShapeStrider) -> Vec<usize> {
    (0..strider.size()).map(|k| strider.position(k)).collect()
}

#[test]
fn sizes_are_products() {
    assert_eq!(checked_size(&[]), Some(1));
    assert_eq!(checked_size(&[7]), Some(7));
    assert_eq!(checked_size(&[2, 3, 4]), Some(24));
    assert_eq!(checked_size(&[usize::MAX, 2]), None);
    assert_eq!(checked_size(&[usize::MAX, 2, 0]), Some(0));
    assert_eq!(checked_size(&[usize::MAX, 1]), Some(usize::MAX));
}

#[test]
fn words_are_compared_one_by_one() {
    assert!(same_words(&[], &[]));
    assert!(same_words(&[1, 2], &[1, 2]));
    assert!(!same_words(&[1, 2], &[1, 3]));
    assert!(!same_words(&[1, 2], &[1, 2, 3]));
}

#[test]
fn contiguous_layouts_are_row_major() {
    let s = contiguous(&[2, 3, 4]);
    assert_eq!(s.shape(), &[2, 3, 4]);
    assert_eq!(s.strides(), &[12, 4, 1]);
    assert_eq!(s.offset(), 0);
    assert_eq!(s.ndims(), 3);
    assert_eq!(s.size(), 24);
    assert!(s.is_contiguous());
    assert_eq!(positions(&s), (0..24).collect::<Vec<_>>());
    assert_eq!(s.buffer_index(&[1, 2, 3]), 23);
    assert_eq!(s.buffer_index(&[1, 0, 2]), 14);
    let scalar = contiguous(&[]);
    assert_eq!(scalar.size(), 1);
    assert_eq!(positions(&scalar), vec![0]);
    assert!(scalar.is_contiguous());
    assert_eq!(
        ShapeStrider::contiguous(&[usize::MAX, 3]).unwrap_err(),
        TensorError::TooLarge
    );
    assert_eq!(
        ShapeStrider::contiguous(&[0, usize::MAX, 3]).unwrap_err(),
        TensorError::TooLarge
    );
    assert_eq!(contiguous(&[3, 0, 2]).strides(), &[0, 2, 1]);
}

#[test]
fn a_clone_is_the_same_layout() {
    let s = contiguous(&[4, 3]).crop(&[(1, 3), (1, 2)]);
    let c = s.clone();
    assert_eq!(c.shape(), s.shape());
    assert_eq!(c.strides(), s.strides());
    assert_eq!(c.offset(), s.offset());
}

#[test]
fn zip_needs_one_shape() {
    let a = contiguous(&[2, 3]);
    assert_eq!(a.validate_can_zip(&contiguous(&[2, 3])), Ok(()));
    assert_eq!(a.validate_can_zip(&contiguous(&[3, 2])), Err(TensorError::ShapeMismatch));
    assert_eq!(a.validate_can_zip(&contiguous(&[2, 3, 1])), Err(TensorError::ShapeMismatch));
}

#[test]
fn permute_moves_dimensions() {
    let s = contiguous(&[2, 3, 4]);
    let p = s.permute(&[2, 0, 1]);
    assert_eq!(p.shape(), &[4, 2, 3]);
    assert_eq!(p.strides(), &[1, 12, 4]);
    assert_eq!(p.buffer_index(&[3, 1, 2]), s.buffer_index(&[1, 2, 3]));
    assert!(!p.is_contiguous());
    let back = p.permute(&[1, 2, 0]);
    assert_eq!(back.shape(), s.shape());
    assert_eq!(back.strides(), s.strides());
    assert_eq!(s.validate_can_permute(&[2, 0, 1]), Ok(()));
    assert_eq!(s.validate_can_permute(&[0, 1]), Err(TensorError::RankMismatch));
    assert_eq!(s.validate_can_permute(&[0, 1, 3]), Err(TensorError::NotAPermutation));
    assert_eq!(s.validate_can_permute(&[0, 1, 1]), Err(TensorError::NotAPermutation));
}

#[test]
fn moving_a_dimension_of_size_one_leaves_a_tensor_contiguous() {
    let p = contiguous(&[1, 3, 1]).permute(&[1, 2, 0]);
    assert_eq!(p.shape(), &[3, 1, 1]);
    assert!(p.is_contiguous());
}

#[test]
fn expand_repeats_dimensions_of_size_one() {
    let s = contiguous(&[1, 3, 1]);
    let e = s.expand(&[2, 3, 2]).unwrap();
    assert_eq!(e.strides(), &[0, 1, 0]);
    assert_eq!(positions(&e), vec![0, 0, 1, 1, 2, 2, 0, 0, 1, 1, 2, 2]);
    assert!(!e.is_contiguous());
    assert_eq!(s.validate_can_expand(&[2, 3, 2]), Ok(()));
    assert_eq!(s.validate_can_expand(&[3, 2]), Err(TensorError::RankMismatch));
    assert_eq!(s.validate_can_expand(&[1, 4, 1]), Err(TensorError::CannotExpand));
    assert_eq!(s.expand(&[usize::MAX, 3, 1]).unwrap_err(), TensorError::TooLarge);
}

#[test]
fn crop_keeps_strides_and_moves_the_offset() {
    let s = contiguous(&[4, 5]);
    let c = s.crop(&[(1, 3), (2, 5)]);
    assert_eq!(c.shape(), &[2, 3]);
    assert_eq!(c.strides(), &[5, 1]);
    assert_eq!(c.offset(), 7);
    assert_eq!(positions(&c), vec![7, 8, 9, 12, 13, 14]);
    let twice = c.crop(&[(1, 2), (0, 2)]);
    let once = s.crop(&[(2, 3), (2, 4)]);
    assert_eq!(positions(&twice), positions(&once));
    assert!(twice.is_contiguous());
    let empty = c.crop(&[(1, 1), (0, 3)]);
    assert_eq!(empty.size(), 0);
    assert_eq!(empty.offset(), 7);
    assert!(empty.is_contiguous());
    assert_eq!(s.validate_can_crop(&[(0, 4), (5, 5)]), Ok(()));
    assert_eq!(s.validate_can_crop(&[(0, 4)]), Err(TensorError::RankMismatch));
    assert_eq!(s.validate_can_crop(&[(0, 4), (3, 2)]), Err(TensorError::LimitsOutOfRange));
    assert_eq!(s.validate_can_crop(&[(0, 5), (0, 2)]), Err(TensorError::LimitsOutOfRange));
    let all = c.crop(&[(0, 2), (0, 3)]);
    assert_eq!((all.shape(), all.strides(), all.offset()), (c.shape(), c.strides(), c.offset()));
}

#[test]
fn pad_gives_a_contiguous_layout_of_the_grown_shape() {
    let s = contiguous(&[2, 3]).permute(&[1, 0]);
    let p = s.pad(&[(1, 2), (0, 3)]).unwrap();
    assert_eq!(p.shape(), &[6, 5]);
    assert_eq!(p.strides(), &[5, 1]);
    assert_eq!(p.offset(), 0);
    assert_eq!(s.validate_can_pad(&[(1, 2), (0, 3)]), Ok(()));
    assert_eq!(s.validate_can_pad(&[(1, 2)]), Err(TensorError::RankMismatch));
    assert_eq!(s.pad(&[(usize::MAX, 0), (0, 0)]).unwrap_err(), TensorError::TooLarge);
    assert_eq!(s.pad(&[(usize::MAX - 3, 1), (0, 0)]).unwrap_err(), TensorError::TooLarge);
    assert_eq!(s.pad(&[(usize::MAX / 2, 0), (1, 0)]).unwrap_err(), TensorError::TooLarge);
    // Cut back to where the elements are, the shape is the one from before.
    assert_eq!(p.crop(&[(1, 4), (0, 2)]).shape(), s.shape());
}

#[test]
fn reduce_leaves_size_one_along_the_axes() {
    let s = contiguous(&[2, 3, 4]);
    let kept = s.reduce(&[0, 2]).unwrap();
    let through = s.reduced(&[0, 2]).unwrap();
    assert_eq!(kept.shape(), &[1, 3, 1]);
    assert_eq!(through.shape(), &[2, 1, 4]);
    assert_eq!(kept.strides(), &[3, 1, 1]);
    assert_eq!(through.strides(), &[4, 4, 1]);
    assert_eq!(kept.size() * through.size(), s.size());
    assert_eq!(s.reduce(&[]).unwrap().shape(), s.shape());
    assert_eq!(s.reduce(&[1, 1]).unwrap().shape(), &[2, 1, 4]);
    assert_eq!(s.validate_can_reduce(&[0, 2]), Ok(()));
    assert_eq!(s.validate_can_reduce(&[3]), Err(TensorError::AxisOutOfRange));
}

#[test]
fn every_element_is_reduced_to_exactly_one() {
    let s = contiguous(&[2, 3, 4]).permute(&[2, 0, 1]);
    let kept = s.reduce(&[1]).unwrap();
    let through = s.reduced(&[1]).unwrap();
    let mut seen: Vec<usize> = Vec::new();
    for i in 0..4 {
        for k in 0..3 {
            for j in 0..2 {
                let left = s.buffer_index(&[i, 0, k]);
                let step = s.buffer_index(&[0, j, 0]) - s.offset();
                assert_eq!(s.buffer_index(&[i, j, k]), left + step);
                seen.push(left + step);
            }
        }
    }
    seen.sort_unstable();
    assert_eq!(seen, (0..24).collect::<Vec<_>>());
    assert_eq!((kept.size(), through.size()), (12, 2));
}

#[test]
fn reshape_of_a_contiguous_tensor_is_contiguous() {
    let s = contiguous(&[2, 1, 3, 1, 4]);
    for shape in [&[24][..], &[2, 3, 4], &[2, 3, 4, 1], &[1, 24], &[3, 2, 4]] {
        let view = s.reshape(shape).unwrap();
        assert_eq!(view.shape(), shape);
        assert_eq!(view.strides(), contiguous(shape).strides());
        assert_eq!(positions(&view), positions(&s));
    }
    assert_eq!(s.validate_can_reshape(&[4, 6]), Ok(()));
    assert_eq!(s.validate_can_reshape(&[5, 5]), Err(TensorError::SizeMismatch));
    assert_eq!(s.validate_can_reshape(&[usize::MAX, 2]), Err(TensorError::SizeMismatch));
}

#[test]
fn reshape_finds_a_view_where_there_is_one() {
    // A part of each row: the rows cannot be joined, but each can be split.
    let s = contiguous(&[3, 6]).crop(&[(0, 3), (1, 5)]);
    let view = s.reshape(&[3, 2, 2]).unwrap();
    assert_eq!(view.strides(), &[6, 2, 1]);
    assert_eq!(view.offset(), 1);
    assert_eq!(positions(&view), positions(&s));
    assert_eq!(s.reshape(&[12]).unwrap_err(), TensorError::NeedsCopy);
    assert_eq!(s.reshape(&[4, 3]).unwrap_err(), TensorError::NeedsCopy);
    assert_eq!(s.reshape(&[6, 2]).unwrap_err(), TensorError::NeedsCopy);

    // Repeated elements: the repetition can be split, but not taken with what is repeated.
    let e = contiguous(&[1, 3]).expand(&[4, 3]).unwrap();
    assert_eq!(e.reshape(&[2, 2, 3]).unwrap().strides(), &[0, 0, 1]);
    assert_eq!(e.reshape(&[12]).unwrap_err(), TensorError::NeedsCopy);
    assert_eq!(e.reshape(&[6, 2]).unwrap_err(), TensorError::NeedsCopy);
    let r = contiguous(&[1]).expand(&[6]).unwrap();
    assert_eq!(r.reshape(&[2, 3]).unwrap().strides(), &[0, 0]);

    // Moved dimensions that are neighbours in the buffer can still be joined.
    let p = contiguous(&[2, 3, 4]).permute(&[2, 0, 1]);
    let joined = p.reshape(&[4, 6]).unwrap();
    assert_eq!(joined.strides(), &[1, 4]);
    assert_eq!(positions(&joined), positions(&p));
    assert_eq!(p.reshape(&[8, 3]).unwrap_err(), TensorError::NeedsCopy);

    // Back again.
    let back = joined.reshape(&[4, 2, 3]).unwrap();
    assert_eq!(back.strides(), p.strides());
}

/// Whether some strides list the same positions, found by trying them all.
fn has_view(s: &ShapeStrider, shape: &[usize]) -> bool {
    let wanted = positions(s);
    let top = *wanted.iter().max().unwrap() + 1;
    let candidates = top.pow(shape.len() as u32);
    (0..candidates).any(|mut c| {
        let strides: Vec<usize> = shape
            .iter()
            .map(|_| {
                let stride = c % top;
                c /= top;
                stride
            })
            .collect();
        (0..wanted.len()).all(|k| {
            let mut rest = k;
            let mut position = s.offset();
            for d in (0..shape.len()).rev() {
                position += (rest % shape[d]) * strides[d];
                rest /= shape[d];
            }
            position == wanted[k]
        })
    })
}

#[test]
fn reshape_misses_no_view() {
    let tensors = [
        contiguous(&[2, 6]),
        contiguous(&[2, 6]).permute(&[1, 0]),
        contiguous(&[2, 3, 2]).permute(&[0, 2, 1]),
        contiguous(&[2, 3, 2]).permute(&[2, 0, 1]),
        contiguous(&[3, 4]).crop(&[(0, 3), (0, 2)]),
        contiguous(&[1, 6]).expand(&[2, 6]).unwrap(),
        contiguous(&[6, 1]).expand(&[6, 2]).unwrap(),
        contiguous(&[2, 1, 3]).expand(&[2, 2, 3]).unwrap(),
    ];
    for s in tensors {
        let n = s.size();
        for a in (1..=n).filter(|a| n % a == 0) {
            for shape in [vec![a, n / a], vec![n], vec![a, 1, n / a]] {
                let found = s.reshape(&shape);
                assert_eq!(found.is_ok(), has_view(&s, &shape), "{s:?} {shape:?}");
                if let Ok(view) = found {
                    assert_eq!(positions(&view), positions(&s));
                }
            }
        }
    }
}

#[test]
fn a_tensor_without_elements_takes_any_shape_without_elements() {
    let s = contiguous(&[0, 3]);
    let view = s.reshape(&[3, 0]).unwrap();
    assert_eq!(view.shape(), &[3, 0]);
    assert_eq!(view.strides(), contiguous(&[3, 0]).strides());
    let view = s.reshape(&[0, usize::MAX, 2]).unwrap();
    assert_eq!(view.strides(), &[0, 0, 0]);
    assert_eq!(s.validate_can_reshape(&[1]), Err(TensorError::SizeMismatch));
}
