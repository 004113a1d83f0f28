//! The programs that the device runs, made from templates.

use vstd::prelude::*;

use crate::operation::Operation;
use crate::operation::ReduceOp;
use crate::text;
use crate::workgroups::WorkgroupSize;

verus! {

/// What stands in a template for the name of the operation.
pub const REPLACE_OP_NAME: &'static str = "replace_me_with_actual_operation";

/// What stands in a template for the value that a reduction starts from.
pub const REPLACE_DEFAULT_NAME: &'static str = "replace_me_with_actual_default()";

/// The definition by which a template with a unary operation is a valid program.
pub const REPLACE_UNARY_OP_DEF: &'static str =
    "fn replace_me_with_actual_operation(in: f32) -> f32 { discard; }";

/// The definition by which a template with a binary operation is a valid program.
pub const REPLACE_BINARY_OP_DEF: &'static str =
    "fn replace_me_with_actual_operation(in_1: f32, in_2: f32) -> f32 { discard; }";

/// The definition by which a template with a start value is a valid program.
pub const REPLACE_REDUCE_DEFAULT_DEF: &'static str =
    "fn replace_me_with_actual_default() -> f32 { discard; }";

/// The number of threads that share a reduction, as a template has it.
pub const REPLACE_REDUCE_THREAD_COUNT_CONST: &'static str = "const REDUCE_THREADS: u32 = 64u;";

/// The number of intermediate results of a workgroup, as a template has it.
pub const REPLACE_REDUCE_INTERMEDIATE_BUFFER_SIZE_CONST: &'static str =
    "const INTERMEDIATE_SIZE: u32 = 64u;";

/// The workgroup size, as a template has it.
pub const REPLACE_WORKGROUP_SIZE: &'static str = "@workgroup_size(64)";

/// A template for each kind of operation.
#[derive(Clone, Copy, Debug)]
pub struct Templates {
    pub map: &'static str,
    pub zip: &'static str,
    pub reduce: &'static str,
    pub pad: &'static str,
    pub fused_mul_add: &'static str,
}

/// The attribute that declares a workgroup size.
pub open spec fn workgroup_size_text(size: WorkgroupSize) -> Seq<char> {
    "@workgroup_size("@ + text::decimal(size.0 as nat) + ", "@ + text::decimal(size.1 as nat)
        + ")"@
}

/// The declaration of how many threads share a reduction.
pub open spec fn reduce_threads_text(size: WorkgroupSize) -> Seq<char> {
    "const REDUCE_THREADS: u32 = "@ + text::decimal(size.1 as nat) + "u;"@
}

/// The declaration of how many intermediate results a workgroup has: one for each thread.
pub open spec fn intermediate_size_text(size: WorkgroupSize) -> Seq<char> {
    "const INTERMEDIATE_SIZE: u32 = "@ + text::decimal((size.0 * size.1) as nat) + "u;"@
}

/// A template with its workgroup size filled in.
pub open spec fn sized(template: Seq<char>, size: WorkgroupSize) -> Seq<char> {
    text::replaced(template, REPLACE_WORKGROUP_SIZE@, workgroup_size_text(size))
}

/// A template with the name of the operation in the place of its stand-in, and without the
/// stand-in's definition.
pub open spec fn with_operation(
    template: Seq<char>,
    definition: Seq<char>,
    operation: Operation,
) -> Seq<char> {
    text::replaced(
        text::replaced(template, definition, ""@),
        REPLACE_OP_NAME@,
        operation.spec_name(),
    )
}

/// A template with the start value of a reduction in the place of its stand-in, and without the
/// stand-in's definition.
pub open spec fn with_default(template: Seq<char>, operation: ReduceOp) -> Seq<char> {
    text::replaced(
        text::replaced(template, REPLACE_REDUCE_DEFAULT_DEF@, ""@),
        REPLACE_DEFAULT_NAME@,
        operation.spec_default_name(),
    )
}

/// A template with the number of threads that share a reduction, and of their intermediate
/// results, filled in.
pub open spec fn with_threads(template: Seq<char>, size: WorkgroupSize) -> Seq<char> {
    text::replaced(
        text::replaced(
            template,
            REPLACE_REDUCE_THREAD_COUNT_CONST@,
            reduce_threads_text(size),
        ),
        REPLACE_REDUCE_INTERMEDIATE_BUFFER_SIZE_CONST@,
        intermediate_size_text(size),
    )
}

impl Templates {
    /// The program that computes an operation in workgroups of the given size.
    pub open spec fn spec_source(self, operation: Operation, size: WorkgroupSize) -> Seq<char> {
        match operation {
            Operation::Unary(_) => with_operation(
                sized(self.map@, size),
                REPLACE_UNARY_OP_DEF@,
                operation,
            ),
            Operation::Binary(_) => with_operation(
                sized(self.zip@, size),
                REPLACE_BINARY_OP_DEF@,
                operation,
            ),
            Operation::Reduce(reduce) => with_threads(
                with_default(
                    with_operation(
                        sized(self.reduce@, size),
                        REPLACE_BINARY_OP_DEF@,
                        operation,
                    ),
                    reduce,
                ),
                size,
            ),
            Operation::Pad => sized(self.pad@, size),
            Operation::FusedMulAdd => sized(self.fused_mul_add@, size),
        }
    }

    /// The program that computes an operation in workgroups of the given size.
    pub fn source(&self, operation: Operation, size: WorkgroupSize) -> (source: String)
        requires
            operation is Reduce ==> size.0 * size.1 <= usize::MAX,
        ensures
            source@ == self.spec_source(operation, size),
    {
        proof {
            reveal_strlit("fn replace_me_with_actual_operation(in: f32) -> f32 { discard; }");
            reveal_strlit(
                "fn replace_me_with_actual_operation(in_1: f32, in_2: f32) -> f32 { discard; }",
            );
        }
        match operation {
            Operation::Unary(_) => {
                let template: String = fill_size(self.map, size);
                fill_operation(template.as_str(), REPLACE_UNARY_OP_DEF, operation)
            },
            Operation::Binary(_) => {
                let template: String = fill_size(self.zip, size);
                fill_operation(template.as_str(), REPLACE_BINARY_OP_DEF, operation)
            },
            Operation::Reduce(reduce) => {
                let template: String = fill_size(self.reduce, size);
                let named: String = fill_operation(
                    template.as_str(),
                    REPLACE_BINARY_OP_DEF,
                    operation,
                );
                let started: String = fill_default(named.as_str(), reduce);
                fill_threads(started.as_str(), size)
            },
            Operation::Pad => fill_size(self.pad, size),
            Operation::FusedMulAdd => fill_size(self.fused_mul_add, size),
        }
    }
}

fn fill_size(template: &str, size: WorkgroupSize) -> (filled: String)
    ensures
        filled@ == sized(template@, size),
{
    let mut declared: String = String::new();
    declared.append("@workgroup_size(");
    text::push_decimal(&mut declared, size.0);
    declared.append(", ");
    text::push_decimal(&mut declared, size.1);
    declared.append(")");
    proof {
        assert(declared@ =~= workgroup_size_text(size));
        reveal_strlit("@workgroup_size(64)");
    }
    text::replace_all(template, REPLACE_WORKGROUP_SIZE, declared.as_str())
}

fn fill_operation(template: &str, definition: &str, operation: Operation) -> (filled: String)
    requires
        definition@.len() > 0,
    ensures
        filled@ == with_operation(template@, definition@, operation),
{
    proof {
        reveal_strlit("replace_me_with_actual_operation");
    }
    let undefined: String = text::replace_all(template, definition, "");
    text::replace_all(undefined.as_str(), REPLACE_OP_NAME, operation.name())
}

fn fill_default(template: &str, operation: ReduceOp) -> (filled: String)
    ensures
        filled@ == with_default(template@, operation),
{
    proof {
        reveal_strlit("fn replace_me_with_actual_default() -> f32 { discard; }");
        reveal_strlit("replace_me_with_actual_default()");
    }
    let undefined: String = text::replace_all(template, REPLACE_REDUCE_DEFAULT_DEF, "");
    text::replace_all(undefined.as_str(), REPLACE_DEFAULT_NAME, operation.default_name())
}

fn fill_threads(template: &str, size: WorkgroupSize) -> (filled: String)
    requires
        size.0 * size.1 <= usize::MAX,
    ensures
        filled@ == with_threads(template@, size),
{
    let mut threads: String = String::new();
    threads.append("const REDUCE_THREADS: u32 = ");
    text::push_decimal(&mut threads, size.1);
    threads.append("u;");
    let mut results: String = String::new();
    results.append("const INTERMEDIATE_SIZE: u32 = ");
    text::push_decimal(&mut results, size.0 * size.1);
    results.append("u;");
    proof {
        assert(threads@ =~= reduce_threads_text(size));
        assert(results@ =~= intermediate_size_text(size));
        reveal_strlit("const REDUCE_THREADS: u32 = 64u;");
        reveal_strlit("const INTERMEDIATE_SIZE: u32 = 64u;");
    }
    let counted: String = text::replace_all(
        template,
        REPLACE_REDUCE_THREAD_COUNT_CONST,
        threads.as_str(),
    );
    text::replace_all(
        counted.as_str(),
        REPLACE_REDUCE_INTERMEDIATE_BUFFER_SIZE_CONST,
        results.as_str(),
    )
}

} // verus!
