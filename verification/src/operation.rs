//! The operations that the device computes.

use vstd::prelude::*;

verus! {

/// An operation on each element of one tensor.
#[derive(Clone, Copy, Debug, PartialEq, Eq, Structural)]
pub enum UnaryOp {
    Exp,
    Log,
    Id,
}

/// An operation on each pair of elements of two tensors.
#[derive(Clone, Copy, Debug, PartialEq, Eq, Structural)]
pub enum BinaryOp {
    Add,
    Sub,
    Mul,
    Div,
    Pow,
    Eq,
}

/// An operation that takes the elements along some dimensions together.
#[derive(Clone, Copy, Debug, PartialEq, Eq, Structural)]
pub enum ReduceOp {
    Sum,
    Max,
}

/// An operation of the device.
#[derive(Clone, Copy, Debug, PartialEq, Eq, Structural)]
pub enum Operation {
    Unary(UnaryOp),
    Binary(BinaryOp),
    Reduce(ReduceOp),
    Pad,
    FusedMulAdd,
}

pub const MAP_OPS: [UnaryOp; 3] = [UnaryOp::Exp, UnaryOp::Log, UnaryOp::Id];

pub const ZIP_OPS: [BinaryOp; 6] = [
    BinaryOp::Add,
    BinaryOp::Sub,
    BinaryOp::Mul,
    BinaryOp::Div,
    BinaryOp::Pow,
    BinaryOp::Eq,
];

pub const RED_OPS: [ReduceOp; 2] = [ReduceOp::Sum, ReduceOp::Max];

impl ReduceOp {
    /// The name of the constant that a reduction starts from.
    pub open spec fn spec_default_name(self) -> Seq<char> {
        match self {
            ReduceOp::Sum => "SUM"@,
            ReduceOp::Max => "MAX"@,
        }
    }

    /// The name of the constant that a reduction starts from: the operation's own in upper case.
    pub fn default_name(self) -> (name: &'static str)
        ensures
            name@ == self.spec_default_name(),
    {
        match self {
            ReduceOp::Sum => "SUM",
            ReduceOp::Max => "MAX",
        }
    }
}

impl Operation {
    /// The name of the function that computes the operation.
    pub open spec fn spec_name(self) -> Seq<char> {
        match self {
            Operation::Unary(UnaryOp::Exp) => "exp"@,
            Operation::Unary(UnaryOp::Log) => "log"@,
            Operation::Unary(UnaryOp::Id) => "id"@,
            Operation::Binary(BinaryOp::Add) => "add"@,
            Operation::Binary(BinaryOp::Sub) => "sub"@,
            Operation::Binary(BinaryOp::Mul) => "mul"@,
            Operation::Binary(BinaryOp::Div) => "div"@,
            Operation::Binary(BinaryOp::Pow) => "pow"@,
            Operation::Binary(BinaryOp::Eq) => "eq"@,
            Operation::Reduce(ReduceOp::Sum) => "sum"@,
            Operation::Reduce(ReduceOp::Max) => "max"@,
            Operation::Pad => "pad"@,
            Operation::FusedMulAdd => "fused_mul_add"@,
        }
    }

    /// The name of the function that computes the operation.
    pub fn name(self) -> (name: &'static str)
        ensures
            name@ == self.spec_name(),
    {
        match self {
            Operation::Unary(UnaryOp::Exp) => "exp",
            Operation::Unary(UnaryOp::Log) => "log",
            Operation::Unary(UnaryOp::Id) => "id",
            Operation::Binary(BinaryOp::Add) => "add",
            Operation::Binary(BinaryOp::Sub) => "sub",
            Operation::Binary(BinaryOp::Mul) => "mul",
            Operation::Binary(BinaryOp::Div) => "div",
            Operation::Binary(BinaryOp::Pow) => "pow",
            Operation::Binary(BinaryOp::Eq) => "eq",
            Operation::Reduce(ReduceOp::Sum) => "sum",
            Operation::Reduce(ReduceOp::Max) => "max",
            Operation::Pad => "pad",
            Operation::FusedMulAdd => "fused_mul_add",
        }
    }
}

} // verus!
