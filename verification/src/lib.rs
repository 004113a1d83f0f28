//! Strided tensors whose elements live in the memory of a WebGPU device.

pub mod device;
pub mod dispatch;
pub mod elements;
pub mod error;
pub mod laws;
pub mod operation;
pub mod programs;
pub mod raw_tensor;
pub mod shader;
pub mod shape;
pub mod shape_strider;
mod shared;
pub mod strided;
pub mod templates;
pub mod text;
pub mod workgroups;
