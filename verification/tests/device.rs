//! The cache of compiled programs.

use std::cell::RefCell;
use std::sync::Arc;

use wgpu_tensor::device::WgpuDevice;
use wgpu_tensor::operation::{BinaryOp, Operation, ReduceOp, UnaryOp};
use wgpu_tensor::shader::Templates;

fn templates() -> Templates {
    Templates {
        map: "@workgroup_size(64) replace_me_with_actual_operation",
        zip: "@workgroup_size(64) replace_me_with_actual_operation",
        reduce: "@workgroup_size(64) replace_me_with_actual_operation",
        pad: "@workgroup_size(64)",
        fused_mul_add: "@workgroup_size(64)",
    }
}

const EXP: Operation = Operation::Unary(UnaryOp::Exp);
const SUM: Operation = Operation::Reduce(ReduceOp::Sum);
const MAX: Operation = Operation::Reduce(ReduceOp::Max);

#[test]
fn a_program_is_compiled_once_for_each_workgroup_size() {
    let compiled: RefCell<Vec<String>> = RefCell::new(Vec::new());
    let build = |label: &str, source: &str| {
        compiled.borrow_mut().push(label.to_string());
        format!("{label}: {source}")
    };
    let mut device: WgpuDevice<String> = WgpuDevice::new(templates());
    assert!(device.kept_pipeline(EXP, (8, 1)).is_none());

    let first = device.pipeline_for(EXP, (8, 1), build);
    assert_eq!(*first, "exp: @workgroup_size(8, 1) exp");
    let again = device.pipeline_for(EXP, (8, 1), build);
    assert!(Arc::ptr_eq(&first, &again));
    assert!(Arc::ptr_eq(&first, &device.kept_pipeline(EXP, (8, 1)).unwrap()));
    let other_size = device.pipeline_for(EXP, (9, 1), build);
    assert_eq!(*other_size, "exp: @workgroup_size(9, 1) exp");
    assert!(device.kept_pipeline(EXP, (8, 2)).is_none());
    let add = device.pipeline_for(Operation::Binary(BinaryOp::Add), (8, 1), build);
    assert_eq!(*add, "add: @workgroup_size(8, 1) add");
    assert_eq!(*device.pipeline_for(Operation::Pad, (2, 1), build), "pad: @workgroup_size(2, 1)");
    assert_eq!(
        *device.pipeline_for(Operation::FusedMulAdd, (2, 1), build),
        "fused_mul_add: @workgroup_size(2, 1)"
    );
    assert!(Arc::ptr_eq(&first, &device.kept_pipeline(EXP, (8, 1)).unwrap()));
    assert_eq!(*compiled.borrow(), vec!["exp", "exp", "add", "pad", "fused_mul_add"]);
}

#[test]
fn the_reductions_are_compiled_together() {
    let compiled: RefCell<Vec<String>> = RefCell::new(Vec::new());
    let build = |label: &str, source: &str| {
        compiled.borrow_mut().push(label.to_string());
        format!("{label}: {source}")
    };
    let mut device: WgpuDevice<String> = WgpuDevice::new(templates());
    let max = device.pipeline_for(MAX, (4, 2), build);
    assert_eq!(*max, "max: @workgroup_size(4, 2) max");
    let sum = device.kept_pipeline(SUM, (4, 2)).unwrap();
    assert_eq!(*sum, "sum: @workgroup_size(4, 2) sum");
    assert!(Arc::ptr_eq(&sum, &device.pipeline_for(SUM, (4, 2), build)));
    assert!(device.kept_pipeline(SUM, (4, 1)).is_none());
    assert_eq!(*compiled.borrow(), vec!["sum", "max"]);
}

#[test]
fn a_pipeline_takes_the_place_of_the_one_before() {
    let mut device: WgpuDevice<u32> = WgpuDevice::new(templates());
    device.memo_compute_pipeline(EXP, Arc::new(1), (8, 1));
    device.memo_compute_pipeline(SUM, Arc::new(2), (8, 1));
    device.memo_compute_pipeline(EXP, Arc::new(3), (8, 1));
    assert_eq!(device.kept_pipeline(EXP, (8, 1)), Some(Arc::new(3)));
    assert_eq!(device.kept_pipeline(SUM, (8, 1)), Some(Arc::new(2)));
    assert_eq!(device.kept_pipeline(MAX, (8, 1)), None);
}

#[test]
fn nothing_is_compiled_where_a_pipeline_is_kept() {
    let mut device: WgpuDevice<String> = WgpuDevice::new(templates());
    let build = |label: &str, _: &str| label.to_string();
    let sum = device.pipeline_for(SUM, (4, 2), build);
    let exp = device.pipeline_for(EXP, (4, 2), build);
    let refuse = |_: &str, _: &str| -> String { panic!("not to be compiled again") };
    assert!(Arc::ptr_eq(&sum, &device.pipeline_for(SUM, (4, 2), refuse)));
    assert!(Arc::ptr_eq(&exp, &device.pipeline_for(EXP, (4, 2), refuse)));
    assert_eq!(*device.pipeline_for(MAX, (4, 2), refuse), "max");
}
