//! The programs, and how they are made from their templates.

use wgpu_tensor::operation::{BinaryOp, Operation, ReduceOp, UnaryOp, MAP_OPS, RED_OPS, ZIP_OPS};
use wgpu_tensor::shader::Templates;
use wgpu_tensor::text::{push_decimal, replace_all};

fn all_operations() -> Vec<Operation> {
    let mut all: Vec<Operation> = Vec::new();
    all.extend(MAP_OPS.map(Operation::Unary));
    all.extend(ZIP_OPS.map(Operation::Binary));
    all.extend(RED_OPS.map(Operation::Reduce));
    all.push(Operation::Pad);
    all.push(Operation::FusedMulAdd);
    all
}

#[test]
fn replace_all_replaces_every_occurrence_from_the_left() {
    let cases = [
        ("", "a", "b"),
        ("aaa", "a", "bb"),
        ("aaa", "aa", "b"),
        ("aaaa", "aa", ""),
        ("abcabc", "abc", "x"),
        ("ababac", "abac", "-"),
        ("no match here", "xyz", "!"),
        ("ends with x", "x", "y"),
        ("grün über grün", "grün", "blau"),
        ("to stays: aXa", "X", "aXa"),
    ];
    for (text, from, to) in cases {
        assert_eq!(replace_all(text, from, to), text.replace(from, to));
    }
    assert_eq!(replace_all("aaa", "aa", "b"), "ba");
}

#[test]
fn replacing_what_is_not_there_changes_nothing() {
    assert_eq!(replace_all("@workgroup_size(32)", "@workgroup_size(64)", "?"), "@workgroup_size(32)");
}

#[test]
fn decimals_are_what_display_prints() {
    for n in [0, 1, 9, 10, 64, 99, 100, 256, 65535, 1_000_000_007, usize::MAX] {
        let mut text = String::from("n = ");
        push_decimal(&mut text, n);
        assert_eq!(text, format!("n = {n}"));
    }
}

#[test]
fn operations_have_the_names_of_their_functions() {
    let names: Vec<&str> = all_operations().iter().map(|op| op.name()).collect();
    let expected = [
        "exp", "log", "id", "add", "sub", "mul", "div", "pow", "eq", "sum", "max", "pad",
        "fused_mul_add",
    ];
    assert_eq!(names, expected);
    for op in RED_OPS {
        assert_eq!(op.default_name(), Operation::Reduce(op).name().to_uppercase());
    }
}

/// The substitutions one by one.
fn expected_source(templates: &Templates, operation: Operation, size: (usize, usize)) -> String {
    let workgroup = format!("@workgroup_size({}, {})", size.0, size.1);
    let unary = "fn replace_me_with_actual_operation(in: f32) -> f32 { discard; }";
    let binary = "fn replace_me_with_actual_operation(in_1: f32, in_2: f32) -> f32 { discard; }";
    let name = operation.name();
    match operation {
        Operation::Unary(_) => templates
            .map
            .replace("@workgroup_size(64)", &workgroup)
            .replace(unary, "")
            .replace("replace_me_with_actual_operation", name),
        Operation::Binary(_) => templates
            .zip
            .replace("@workgroup_size(64)", &workgroup)
            .replace(binary, "")
            .replace("replace_me_with_actual_operation", name),
        Operation::Reduce(_) => templates
            .reduce
            .replace("@workgroup_size(64)", &workgroup)
            .replace(binary, "")
            .replace("replace_me_with_actual_operation", name)
            .replace("fn replace_me_with_actual_default() -> f32 { discard; }", "")
            .replace("replace_me_with_actual_default()", &name.to_uppercase())
            .replace(
                "const REDUCE_THREADS: u32 = 64u;",
                &format!("const REDUCE_THREADS: u32 = {}u;", size.1),
            )
            .replace(
                "const INTERMEDIATE_SIZE: u32 = 64u;",
                &format!("const INTERMEDIATE_SIZE: u32 = {}u;", size.0 * size.1),
            ),
        Operation::Pad => templates.pad.replace("@workgroup_size(64)", &workgroup),
        Operation::FusedMulAdd => templates.fused_mul_add.replace("@workgroup_size(64)", &workgroup),
    }
}

#[test]
fn sources_are_the_templates_with_everything_filled_in() {
    let templates = Templates::standard();
    for operation in all_operations() {
        for size in [(1, 1), (7, 1), (256, 1), (3, 56)] {
            let source = templates.source(operation, size);
            assert_eq!(source, expected_source(&templates, operation, size));
            assert!(!source.contains("replace_me"));
            assert!(!source.contains("@workgroup_size(64)"));
        }
    }
}

#[test]
fn a_short_template_is_filled_in_exactly() {
    let templates = Templates {
        map: "@workgroup_size(64) replace_me_with_actual_operation(x)",
        zip: "fn replace_me_with_actual_operation(in_1: f32, in_2: f32) -> f32 { discard; }|",
        reduce: "replace_me_with_actual_default() const REDUCE_THREADS: u32 = 64u; const INTERMEDIATE_SIZE: u32 = 64u;",
        pad: "no size",
        fused_mul_add: "@workgroup_size(64)@workgroup_size(64)",
    };
    let size = (16, 4);
    assert_eq!(
        templates.source(Operation::Unary(UnaryOp::Exp), size),
        "@workgroup_size(16, 4) exp(x)"
    );
    assert_eq!(templates.source(Operation::Binary(BinaryOp::Add), size), "|");
    assert_eq!(
        templates.source(Operation::Reduce(ReduceOp::Max), size),
        "MAX const REDUCE_THREADS: u32 = 4u; const INTERMEDIATE_SIZE: u32 = 64u;"
    );
    assert_eq!(templates.source(Operation::Pad, size), "no size");
    assert_eq!(
        templates.source(Operation::FusedMulAdd, size),
        "@workgroup_size(16, 4)@workgroup_size(16, 4)"
    );
}

#[test]
fn every_program_is_valid_wgsl_with_its_entry_point() {
    let templates = Templates::standard();
    for operation in all_operations() {
        for size in [(256, 1), (5, 1), (2, 3)] {
            let source = templates.source(operation, size);
            let module = naga::front::wgsl::parse_str(&source)
                .unwrap_or_else(|e| panic!("{}: {}", operation.name(), e.emit_to_string(&source)));
            naga::valid::Validator::new(
                naga::valid::ValidationFlags::all(),
                naga::valid::Capabilities::empty(),
            )
            .validate(&module)
            .unwrap_or_else(|e| panic!("{}: {e:?}", operation.name()));
            let entry = &module.entry_points[0];
            assert_eq!(entry.name, "call");
            assert_eq!(entry.workgroup_size, [size.0 as u32, size.1 as u32, 1]);
        }
    }
}
