use rspirv::spirv::{Capability, Decoration, ExecutionMode, Op};
use spirv_float_controls::codes::{
    CAP_DENORM_FLUSH_TO_ZERO, CAP_DENORM_PRESERVE, CAP_FLOAT_CONTROLS2, CAP_ROUNDING_MODE_RTE,
    CAP_ROUNDING_MODE_RTZ, CAP_SIGNED_ZERO_INF_NAN_PRESERVE, DECORATION_FP_FAST_MATH_MODE,
    MODE_DENORM_FLUSH_TO_ZERO, MODE_DENORM_PRESERVE, MODE_FP_FAST_MATH_DEFAULT,
    MODE_ROUNDING_MODE_RTE, MODE_ROUNDING_MODE_RTZ, MODE_SIGNED_ZERO_INF_NAN_PRESERVE,
    OP_CAPABILITY, OP_CONSTANT, OP_CONSTANT_NULL, OP_EXECUTION_MODE, OP_EXECUTION_MODE_ID,
    OP_EXTENSION, OP_TYPE_FLOAT, OP_TYPE_INT,
};
use spirv_float_controls::graph::dependency_graph;
use spirv_float_controls::listing::sorted_widths;
use spirv_float_controls::model::{Function, Instruction, Module, Operand};
use spirv_float_controls::policies::{can_take_policies, take_policies};
use spirv_float_controls::prune::{can_remove_unused_capabilities, remove_unused_capabilities};
use spirv_float_controls::reach::reachable_widths;
use spirv_float_controls::restore::{can_restore_policies, restore_policies};

const OP_TYPE_VOID: u32 = 19;
const OP_TYPE_FUNCTION: u32 = 33;
const OP_TYPE_POINTER: u32 = 32;
const OP_TYPE_STRUCT: u32 = 30;
const OP_ENTRY_POINT: u32 = 15;
const OP_FUNCTION: u32 = 54;
const OP_FUNCTION_END: u32 = 56;
const OP_FUNCTION_CALL: u32 = 57;
const OP_VARIABLE: u32 = 59;
const OP_LABEL: u32 = 248;
const OP_RETURN: u32 = 253;
const OP_DECORATE: u32 = 71;
const MODE_LOCAL_SIZE: u32 = 17;
const MODEL_GL_COMPUTE: u32 = 5;
const MODEL_FRAGMENT: u32 = 4;
const CAP_SHADER: u32 = 1;

fn inst(opcode: u32, result_type: Option<u32>, result_id: Option<u32>, operands: Vec<Operand>) -> Instruction {
    Instruction { opcode, result_type, result_id, operands }
}

fn lit(s: &str) -> Operand {
    Operand::LiteralString(s.to_string())
}

fn capability(c: u32) -> Instruction {
    inst(OP_CAPABILITY, None, None, vec![Operand::Capability(c)])
}

fn extension(name: &str) -> Instruction {
    inst(OP_EXTENSION, None, None, vec![lit(name)])
}

fn mode(entry: u32, kind: u32, width: u32) -> Instruction {
    inst(
        OP_EXECUTION_MODE,
        None,
        None,
        vec![Operand::IdRef(entry), Operand::ExecutionMode(kind), Operand::LiteralBit32(width)],
    )
}

fn fast_math_default(entry: u32, ty: u32, flags: u32) -> Instruction {
    inst(
        OP_EXECUTION_MODE_ID,
        None,
        None,
        vec![
            Operand::IdRef(entry),
            Operand::ExecutionMode(MODE_FP_FAST_MATH_DEFAULT),
            Operand::IdRef(ty),
            Operand::IdRef(flags),
        ],
    )
}

fn entry_point(model: u32, id: u32, name: &str) -> Instruction {
    inst(OP_ENTRY_POINT, None, None, vec![Operand::ExecutionModel(model), Operand::IdRef(id), lit(name)])
}

fn float_type(id: u32, width: u32) -> Instruction {
    inst(OP_TYPE_FLOAT, None, Some(id), vec![Operand::LiteralBit32(width)])
}

fn empty_module(bound: u32) -> Module {
    Module {
        bound: Some(bound),
        capabilities: vec![],
        extensions: vec![],
        ext_inst_imports: vec![],
        memory_model: None,
        entry_points: vec![],
        execution_modes: vec![],
        debug: vec![],
        annotations: vec![],
        types_global_values: vec![],
        functions: vec![],
    }
}

/// A function `id` of type %3 whose body declares a variable of pointer type
/// `pointer`.
fn function_with_variable(id: u32, label: u32, var: u32, pointer: u32) -> Function {
    Function {
        def: Some(inst(OP_FUNCTION, Some(2), Some(id), vec![Operand::Other(1), Operand::IdRef(3)])),
        body: vec![
            inst(OP_LABEL, None, Some(label), vec![]),
            inst(OP_VARIABLE, Some(pointer), Some(var), vec![Operand::Other(0)]),
            inst(OP_RETURN, None, None, vec![]),
            inst(OP_FUNCTION_END, None, None, vec![]),
        ],
    }
}

/// A compute shader `main` (%4) that uses a 32-bit float through a pointer,
/// with a fast-math default naming flags constant %10 of value 3, and a
/// 64-bit float type it does not use.
fn compute_module() -> Module {
    let mut m = empty_module(12);
    m.capabilities = vec![capability(CAP_SHADER)];
    m.entry_points = vec![entry_point(MODEL_GL_COMPUTE, 4, "main")];
    m.execution_modes = vec![
        inst(
            OP_EXECUTION_MODE,
            None,
            None,
            vec![
                Operand::IdRef(4),
                Operand::ExecutionMode(MODE_LOCAL_SIZE),
                Operand::LiteralBit32(1),
                Operand::LiteralBit32(1),
                Operand::LiteralBit32(1),
            ],
        ),
        fast_math_default(4, 7, 10),
    ];
    m.types_global_values = vec![
        inst(OP_TYPE_VOID, None, Some(2), vec![]),
        inst(OP_TYPE_FUNCTION, None, Some(3), vec![Operand::IdRef(2)]),
        float_type(7, 32),
        float_type(8, 64),
        inst(OP_TYPE_INT, None, Some(9), vec![Operand::LiteralBit32(32), Operand::LiteralBit32(0)]),
        inst(OP_CONSTANT, Some(9), Some(10), vec![Operand::LiteralBit32(3)]),
        inst(OP_TYPE_POINTER, None, Some(11), vec![Operand::Other(0), Operand::IdRef(7)]),
    ];
    m.functions = vec![function_with_variable(4, 5, 6, 11)];
    m
}

#[test]
fn codes_match_spirv_grammar() {
    assert_eq!(Op::Extension as u32, OP_EXTENSION);
    assert_eq!(Op::ExecutionMode as u32, OP_EXECUTION_MODE);
    assert_eq!(Op::Capability as u32, OP_CAPABILITY);
    assert_eq!(Op::TypeInt as u32, OP_TYPE_INT);
    assert_eq!(Op::TypeFloat as u32, OP_TYPE_FLOAT);
    assert_eq!(Op::Constant as u32, OP_CONSTANT);
    assert_eq!(Op::ConstantNull as u32, OP_CONSTANT_NULL);
    assert_eq!(Op::ExecutionModeId as u32, OP_EXECUTION_MODE_ID);
    assert_eq!(ExecutionMode::DenormPreserve as u32, MODE_DENORM_PRESERVE);
    assert_eq!(ExecutionMode::DenormFlushToZero as u32, MODE_DENORM_FLUSH_TO_ZERO);
    assert_eq!(ExecutionMode::SignedZeroInfNanPreserve as u32, MODE_SIGNED_ZERO_INF_NAN_PRESERVE);
    assert_eq!(ExecutionMode::RoundingModeRTE as u32, MODE_ROUNDING_MODE_RTE);
    assert_eq!(ExecutionMode::RoundingModeRTZ as u32, MODE_ROUNDING_MODE_RTZ);
    assert_eq!(ExecutionMode::FPFastMathDefault as u32, MODE_FP_FAST_MATH_DEFAULT);
    assert_eq!(Capability::DenormPreserve as u32, CAP_DENORM_PRESERVE);
    assert_eq!(Capability::DenormFlushToZero as u32, CAP_DENORM_FLUSH_TO_ZERO);
    assert_eq!(Capability::SignedZeroInfNanPreserve as u32, CAP_SIGNED_ZERO_INF_NAN_PRESERVE);
    assert_eq!(Capability::RoundingModeRTE as u32, CAP_ROUNDING_MODE_RTE);
    assert_eq!(Capability::RoundingModeRTZ as u32, CAP_ROUNDING_MODE_RTZ);
    assert_eq!(Capability::FloatControls2 as u32, CAP_FLOAT_CONTROLS2);
    assert_eq!(Decoration::FPFastMathMode as u32, DECORATION_FP_FAST_MATH_MODE);
    assert_eq!(Op::TypeVoid as u32, OP_TYPE_VOID);
    assert_eq!(Op::TypeFunction as u32, OP_TYPE_FUNCTION);
    assert_eq!(Op::TypePointer as u32, OP_TYPE_POINTER);
    assert_eq!(Op::EntryPoint as u32, OP_ENTRY_POINT);
    assert_eq!(Op::Function as u32, OP_FUNCTION);
    assert_eq!(Op::Variable as u32, OP_VARIABLE);
    assert_eq!(ExecutionMode::LocalSize as u32, MODE_LOCAL_SIZE);
}

#[test]
fn take_saves_fast_math_default_by_entry_name() {
    let mut m = compute_module();
    assert!(can_take_policies(&m));
    let policies = take_policies(&mut m);
    assert_eq!(policies, vec![("main".to_string(), MODEL_GL_COMPUTE, 3)]);
    assert_eq!(m.execution_modes.len(), 1);
    assert_eq!(m.execution_modes[0].operands[1], Operand::ExecutionMode(MODE_LOCAL_SIZE));
    assert_eq!(m.types_global_values.len(), 7);
}

#[test]
fn take_reads_null_constant_as_zero_flags() {
    let mut m = compute_module();
    m.types_global_values[5] = inst(OP_CONSTANT_NULL, Some(9), Some(10), vec![]);
    let policies = take_policies(&mut m);
    assert_eq!(policies, vec![("main".to_string(), MODEL_GL_COMPUTE, 0)]);
}

#[test]
fn take_keeps_order_of_several_policies() {
    let mut m = compute_module();
    m.entry_points.push(entry_point(MODEL_FRAGMENT, 20, "frag"));
    m.types_global_values.push(inst(OP_CONSTANT, Some(9), Some(21), vec![Operand::LiteralBit32(0)]));
    m.execution_modes.push(mode(20, MODE_DENORM_PRESERVE, 32));
    m.execution_modes.push(fast_math_default(20, 7, 21));
    let policies = take_policies(&mut m);
    assert_eq!(
        policies,
        vec![("main".to_string(), MODEL_GL_COMPUTE, 3), ("frag".to_string(), MODEL_FRAGMENT, 0)]
    );
    assert_eq!(m.execution_modes.len(), 2);
    assert_eq!(m.execution_modes[1], mode(20, MODE_DENORM_PRESERVE, 32));
}

#[test]
fn take_twice_finds_nothing_more() {
    let mut m = compute_module();
    let first = take_policies(&mut m);
    assert_eq!(first.len(), 1);
    let modes_after_first = m.execution_modes.len();
    let second = take_policies(&mut m);
    assert!(second.is_empty());
    assert_eq!(m.execution_modes.len(), modes_after_first);
}

#[test]
fn take_precondition_rejects_missing_entry_point() {
    let mut m = compute_module();
    m.entry_points.clear();
    assert!(!can_take_policies(&m));
    let mut m = compute_module();
    m.types_global_values.remove(5);
    assert!(!can_take_policies(&m));
    let mut m = compute_module();
    m.execution_modes.clear();
    assert!(can_take_policies(&m));
}

#[test]
fn restore_emits_modes_for_reached_width() {
    let mut m = compute_module();
    let policies = take_policies(&mut m);
    assert!(can_restore_policies(&m, &policies));
    restore_policies(&mut m, policies);
    // The existing 32-bit unsigned integer type %9 is reused; the flags
    // constant gets the next id, 12, and the bound moves past it.
    assert_eq!(m.bound, Some(13));
    assert_eq!(m.types_global_values.len(), 8);
    assert_eq!(m.types_global_values[7], inst(OP_CONSTANT, Some(9), Some(12), vec![Operand::LiteralBit32(3)]));
    assert_eq!(m.execution_modes.len(), 4);
    assert_eq!(m.execution_modes[1], fast_math_default(4, 7, 12));
    assert_eq!(m.execution_modes[2], mode(4, MODE_DENORM_FLUSH_TO_ZERO, 32));
    assert_eq!(m.execution_modes[3], mode(4, MODE_ROUNDING_MODE_RTE, 32));
    assert_eq!(m.extensions, vec![extension("SPV_KHR_float_controls")]);
    assert_eq!(
        m.capabilities,
        vec![capability(CAP_SHADER), capability(CAP_DENORM_FLUSH_TO_ZERO), capability(CAP_ROUNDING_MODE_RTE)]
    );
}

#[test]
fn restore_without_fast_math_preserves_denormals() {
    let mut m = compute_module();
    m.execution_modes.clear();
    restore_policies(&mut m, vec![("main".to_string(), MODEL_GL_COMPUTE, 0)]);
    assert_eq!(
        m.execution_modes,
        vec![fast_math_default(4, 7, 12), mode(4, MODE_DENORM_PRESERVE, 32), mode(4, MODE_ROUNDING_MODE_RTE, 32)]
    );
    assert_eq!(
        m.capabilities,
        vec![capability(CAP_SHADER), capability(CAP_DENORM_PRESERVE), capability(CAP_ROUNDING_MODE_RTE)]
    );
}

#[test]
fn restore_declares_integer_type_when_missing() {
    let mut m = compute_module();
    m.execution_modes.clear();
    m.types_global_values.remove(5);
    m.types_global_values.remove(4);
    restore_policies(&mut m, vec![("main".to_string(), MODEL_GL_COMPUTE, 7)]);
    assert_eq!(m.bound, Some(14));
    let n = m.types_global_values.len();
    assert_eq!(
        m.types_global_values[n - 2],
        inst(OP_TYPE_INT, None, Some(12), vec![Operand::LiteralBit32(32), Operand::LiteralBit32(0)])
    );
    assert_eq!(m.types_global_values[n - 1], inst(OP_CONSTANT, Some(12), Some(13), vec![Operand::LiteralBit32(7)]));
    assert_eq!(m.execution_modes[0], fast_math_default(4, 7, 13));
}

#[test]
fn restore_orders_modes_by_width_and_skips_unreached_types() {
    let mut m = compute_module();
    m.execution_modes.clear();
    // Add a 16-bit float used through a struct that the function also
    // reaches, declared after the 64-bit one.
    m.types_global_values.push(float_type(30, 16));
    m.types_global_values.push(inst(OP_TYPE_STRUCT, None, Some(31), vec![Operand::IdRef(30), Operand::IdRef(8)]));
    m.types_global_values.push(inst(OP_TYPE_POINTER, None, Some(32), vec![Operand::Other(0), Operand::IdRef(31)]));
    m.bound = Some(40);
    m.functions[0].body.insert(1, inst(OP_VARIABLE, Some(32), Some(33), vec![Operand::Other(0)]));
    restore_policies(&mut m, vec![("main".to_string(), MODEL_GL_COMPUTE, 1)]);
    let defaults: Vec<&Instruction> =
        m.execution_modes.iter().filter(|i| i.opcode == OP_EXECUTION_MODE_ID).collect();
    assert_eq!(defaults.len(), 3);
    assert_eq!(*defaults[0], fast_math_default(4, 30, 40));
    assert_eq!(*defaults[1], fast_math_default(4, 7, 40));
    assert_eq!(*defaults[2], fast_math_default(4, 8, 40));
    // One denormal and one rounding mode per width, and the capabilities are
    // declared once each.
    assert_eq!(m.execution_modes.len(), 9);
    assert_eq!(
        m.capabilities,
        vec![capability(CAP_SHADER), capability(CAP_DENORM_FLUSH_TO_ZERO), capability(CAP_ROUNDING_MODE_RTE)]
    );
}

#[test]
fn restore_follows_calls_between_functions() {
    let mut m = compute_module();
    m.execution_modes.clear();
    // The entry point %4 now calls %40, and only %40 uses the float.
    m.bound = Some(50);
    m.functions[0] = Function {
        def: Some(inst(OP_FUNCTION, Some(2), Some(4), vec![Operand::Other(1), Operand::IdRef(3)])),
        body: vec![
            inst(OP_LABEL, None, Some(5), vec![]),
            inst(OP_FUNCTION_CALL, Some(2), Some(41), vec![Operand::IdRef(40)]),
            inst(OP_RETURN, None, None, vec![]),
            inst(OP_FUNCTION_END, None, None, vec![]),
        ],
    };
    m.functions.push(function_with_variable(40, 42, 43, 11));
    restore_policies(&mut m, vec![("main".to_string(), MODEL_GL_COMPUTE, 0)]);
    assert_eq!(m.execution_modes[0], fast_math_default(4, 7, 50));
}

#[test]
fn restore_reuses_present_modes_and_declarations() {
    let mut m = compute_module();
    m.execution_modes = vec![mode(4, MODE_DENORM_PRESERVE, 32)];
    m.extensions = vec![extension("SPV_KHR_float_controls")];
    m.capabilities.push(capability(CAP_ROUNDING_MODE_RTE));
    restore_policies(&mut m, vec![("main".to_string(), MODEL_GL_COMPUTE, 0)]);
    assert_eq!(
        m.execution_modes,
        vec![mode(4, MODE_DENORM_PRESERVE, 32), fast_math_default(4, 7, 12), mode(4, MODE_ROUNDING_MODE_RTE, 32)]
    );
    assert_eq!(m.extensions.len(), 1);
    assert_eq!(
        m.capabilities,
        vec![capability(CAP_SHADER), capability(CAP_ROUNDING_MODE_RTE), capability(CAP_DENORM_PRESERVE)]
    );
}

#[test]
fn restore_with_no_reached_float_adds_nothing() {
    let mut m = compute_module();
    m.execution_modes.clear();
    m.functions[0].body.remove(1);
    restore_policies(&mut m, vec![("main".to_string(), MODEL_GL_COMPUTE, 3)]);
    assert!(m.execution_modes.is_empty());
    assert_eq!(m.types_global_values.len(), 7);
    assert!(m.extensions.is_empty());
    assert_eq!(m.capabilities, vec![capability(CAP_SHADER)]);
    assert_eq!(m.bound, Some(12));
}

#[test]
fn restore_without_policies_changes_nothing() {
    let mut m = compute_module();
    m.bound = None;
    let expected = compute_module();
    restore_policies(&mut m, vec![]);
    assert_eq!(m.bound, None);
    assert_eq!(m.execution_modes, expected.execution_modes);
    assert_eq!(m.types_global_values, expected.types_global_values);
}

#[test]
fn restore_precondition_checks() {
    let m = compute_module();
    let main = vec![("main".to_string(), MODEL_GL_COMPUTE, 0)];
    assert!(can_restore_policies(&m, &main));
    assert!(!can_restore_policies(&m, &vec![("other".to_string(), MODEL_GL_COMPUTE, 0)]));
    assert!(!can_restore_policies(&m, &vec![("main".to_string(), MODEL_FRAGMENT, 0)]));
    let mut headless = compute_module();
    headless.bound = None;
    assert!(!can_restore_policies(&headless, &main));
    assert!(can_restore_policies(&headless, &vec![]));
    // One fresh id (the flags constant) still fits below the largest bound.
    let mut nearly_full = compute_module();
    nearly_full.bound = Some(u32::MAX - 1);
    assert!(can_restore_policies(&nearly_full, &main));
    let mut full = compute_module();
    full.bound = Some(u32::MAX);
    assert!(!can_restore_policies(&full, &main));
    // Without a 32-bit integer type two fresh ids are needed.
    let mut no_int = compute_module();
    no_int.types_global_values.retain(|i| i.opcode != OP_TYPE_INT && i.opcode != OP_CONSTANT);
    no_int.bound = Some(u32::MAX - 1);
    assert!(!can_restore_policies(&no_int, &main));
    no_int.bound = Some(u32::MAX - 2);
    assert!(can_restore_policies(&no_int, &main));
    // A policy whose entry reaches no float needs no fresh id at all.
    let mut unreached = compute_module();
    unreached.functions[0].body.remove(1);
    unreached.bound = Some(u32::MAX);
    assert!(can_restore_policies(&unreached, &main));
    let mut anonymous = compute_module();
    anonymous.functions[0].def = None;
    assert!(!can_restore_policies(&anonymous, &main));
}

#[test]
fn reachable_widths_walks_dependencies() {
    let m = compute_module();
    let (edges, floats) = dependency_graph(&m);
    assert_eq!(floats.get(&7), Some(&32));
    assert_eq!(floats.get(&8), Some(&64));
    assert_eq!(edges.get(&11), Some(&vec![7]));
    let widths = reachable_widths(&edges, &floats, 4);
    assert_eq!(sorted_widths(&widths), vec![(32, 7)]);
    let widths = reachable_widths(&edges, &floats, 8);
    assert_eq!(sorted_widths(&widths), vec![(64, 8)]);
    let widths = reachable_widths(&edges, &floats, 2);
    assert!(widths.is_empty());
}

#[test]
fn remove_drops_unused_float_controls() {
    let mut m = empty_module(5);
    m.capabilities = vec![
        capability(CAP_SHADER),
        capability(CAP_DENORM_PRESERVE),
        capability(CAP_DENORM_FLUSH_TO_ZERO),
        capability(CAP_ROUNDING_MODE_RTE),
        capability(CAP_ROUNDING_MODE_RTZ),
        capability(CAP_SIGNED_ZERO_INF_NAN_PRESERVE),
        capability(CAP_FLOAT_CONTROLS2),
    ];
    m.extensions = vec![
        extension("SPV_KHR_float_controls"),
        extension("SPV_KHR_float_controls2"),
        extension("SPV_KHR_storage_buffer_storage_class"),
    ];
    m.execution_modes = vec![mode(4, MODE_DENORM_PRESERVE, 32), mode(4, MODE_ROUNDING_MODE_RTE, 32)];
    assert!(can_remove_unused_capabilities(&m));
    remove_unused_capabilities(&mut m);
    assert_eq!(
        m.capabilities,
        vec![capability(CAP_SHADER), capability(CAP_DENORM_PRESERVE), capability(CAP_ROUNDING_MODE_RTE)]
    );
    assert_eq!(
        m.extensions,
        vec![extension("SPV_KHR_float_controls"), extension("SPV_KHR_storage_buffer_storage_class")]
    );
}

#[test]
fn remove_without_any_mode_drops_all_float_controls() {
    let mut m = empty_module(5);
    m.capabilities = vec![capability(CAP_DENORM_PRESERVE), capability(CAP_FLOAT_CONTROLS2), capability(CAP_SHADER)];
    m.extensions = vec![extension("SPV_KHR_float_controls"), extension("SPV_KHR_float_controls2")];
    remove_unused_capabilities(&mut m);
    assert_eq!(m.capabilities, vec![capability(CAP_SHADER)]);
    assert!(m.extensions.is_empty());
}

#[test]
fn remove_keeps_controls2_for_fast_math_decoration() {
    let mut m = empty_module(5);
    m.capabilities = vec![capability(CAP_FLOAT_CONTROLS2), capability(CAP_ROUNDING_MODE_RTZ)];
    m.extensions = vec![extension("SPV_KHR_float_controls2"), extension("SPV_KHR_float_controls")];
    m.annotations = vec![inst(
        OP_DECORATE,
        None,
        None,
        vec![Operand::IdRef(3), Operand::Decoration(DECORATION_FP_FAST_MATH_MODE), Operand::Other(0)],
    )];
    m.execution_modes = vec![mode(4, MODE_ROUNDING_MODE_RTZ, 16)];
    remove_unused_capabilities(&mut m);
    assert_eq!(m.capabilities, vec![capability(CAP_FLOAT_CONTROLS2), capability(CAP_ROUNDING_MODE_RTZ)]);
    assert_eq!(m.extensions.len(), 2);
}

#[test]
fn remove_keeps_controls2_for_fast_math_default() {
    let mut m = empty_module(5);
    m.capabilities = vec![capability(CAP_FLOAT_CONTROLS2), capability(CAP_SIGNED_ZERO_INF_NAN_PRESERVE)];
    m.execution_modes = vec![fast_math_default(4, 7, 8), mode(4, MODE_SIGNED_ZERO_INF_NAN_PRESERVE, 64)];
    remove_unused_capabilities(&mut m);
    assert_eq!(m.capabilities.len(), 2);
}

#[test]
fn remove_twice_is_remove_once() {
    let mut m = empty_module(5);
    m.capabilities = vec![capability(CAP_DENORM_FLUSH_TO_ZERO), capability(CAP_DENORM_PRESERVE)];
    m.execution_modes = vec![mode(4, MODE_DENORM_FLUSH_TO_ZERO, 32)];
    remove_unused_capabilities(&mut m);
    let once = m.capabilities.len();
    remove_unused_capabilities(&mut m);
    assert_eq!(m.capabilities.len(), once);
    assert_eq!(m.capabilities, vec![capability(CAP_DENORM_FLUSH_TO_ZERO)]);
}

#[test]
fn remove_precondition_checks() {
    let mut m = empty_module(5);
    m.capabilities = vec![inst(OP_CAPABILITY, None, None, vec![])];
    assert!(!can_remove_unused_capabilities(&m));
    let mut m = empty_module(5);
    m.extensions = vec![inst(OP_EXTENSION, None, None, vec![Operand::IdRef(1)])];
    assert!(!can_remove_unused_capabilities(&m));
    let mut m = empty_module(5);
    m.execution_modes = vec![inst(OP_EXECUTION_MODE, None, None, vec![Operand::IdRef(1)])];
    assert!(!can_remove_unused_capabilities(&m));
    // Every search finds its mode before the short one.
    let mut m = empty_module(5);
    m.execution_modes = vec![
        fast_math_default(4, 7, 8),
        mode(4, MODE_DENORM_PRESERVE, 32),
        mode(4, MODE_DENORM_FLUSH_TO_ZERO, 32),
        mode(4, MODE_ROUNDING_MODE_RTE, 32),
        mode(4, MODE_ROUNDING_MODE_RTZ, 32),
        mode(4, MODE_SIGNED_ZERO_INF_NAN_PRESERVE, 32),
        inst(OP_EXECUTION_MODE, None, None, vec![Operand::IdRef(1)]),
    ];
    assert!(can_remove_unused_capabilities(&m));
}

#[test]
fn restore_then_remove_keeps_emitted_requirements() {
    let mut m = compute_module();
    let policies = take_policies(&mut m);
    remove_unused_capabilities(&mut m);
    restore_policies(&mut m, policies);
    m.capabilities.push(capability(CAP_ROUNDING_MODE_RTZ));
    remove_unused_capabilities(&mut m);
    assert_eq!(
        m.capabilities,
        vec![capability(CAP_SHADER), capability(CAP_DENORM_FLUSH_TO_ZERO), capability(CAP_ROUNDING_MODE_RTE)]
    );
    assert_eq!(m.extensions, vec![extension("SPV_KHR_float_controls")]);
}

#[test]
fn restore_only_appends_to_sections() {
    let before = compute_module();
    let mut m = compute_module();
    restore_policies(&mut m, vec![("main".to_string(), MODEL_GL_COMPUTE, 3)]);
    assert!(m.execution_modes.len() > before.execution_modes.len());
    for (i, mode) in before.execution_modes.iter().enumerate() {
        assert_eq!(&m.execution_modes[i], mode);
    }
    for (i, ty) in before.types_global_values.iter().enumerate() {
        assert_eq!(&m.types_global_values[i], ty);
    }
    assert_eq!(m.capabilities[0], before.capabilities[0]);
    assert_eq!(m.entry_points, before.entry_points);
    assert_eq!(m.functions, before.functions);
}

#[test]
fn restore_twice_on_equal_inputs_gives_equal_modules() {
    let mut first = compute_module();
    let mut second = compute_module();
    let policies = vec![("main".to_string(), MODEL_GL_COMPUTE, 3)];
    restore_policies(&mut first, policies.clone());
    restore_policies(&mut second, policies);
    assert_eq!(first, second);
}

#[test]
fn take_after_restore_gives_each_policy_once_per_reached_width() {
    let mut m = compute_module();
    // The entry point reaches a 16-bit float through a struct that also holds
    // the 64-bit float, beside the 32-bit one.
    m.types_global_values.push(float_type(30, 16));
    m.types_global_values.push(inst(OP_TYPE_STRUCT, None, Some(31), vec![Operand::IdRef(30), Operand::IdRef(8)]));
    m.types_global_values.push(inst(OP_TYPE_POINTER, None, Some(32), vec![Operand::Other(0), Operand::IdRef(31)]));
    m.bound = Some(40);
    m.functions[0].body.insert(1, inst(OP_VARIABLE, Some(32), Some(33), vec![Operand::Other(0)]));
    let policies = take_policies(&mut m);
    assert_eq!(policies, vec![("main".to_string(), MODEL_GL_COMPUTE, 3)]);
    assert!(can_restore_policies(&m, &policies));
    restore_policies(&mut m, policies);
    assert!(can_take_policies(&m));
    let again = take_policies(&mut m);
    assert_eq!(again, vec![("main".to_string(), MODEL_GL_COMPUTE, 3); 3]);
    assert!(m.execution_modes.iter().all(|i| i.opcode != OP_EXECUTION_MODE_ID));
}

#[test]
fn take_after_restore_drops_entries_that_reach_no_float() {
    let mut m = compute_module();
    m.functions[0].body.remove(1);
    let policies = take_policies(&mut m);
    assert_eq!(policies.len(), 1);
    restore_policies(&mut m, policies);
    assert!(take_policies(&mut m).is_empty());
}

#[test]
fn take_after_restore_with_two_entry_points_sharing_one_function() {
    let mut m = compute_module();
    m.entry_points.push(entry_point(MODEL_FRAGMENT, 4, "alt"));
    let policies = take_policies(&mut m);
    assert_eq!(policies, vec![("main".to_string(), MODEL_GL_COMPUTE, 3)]);
    restore_policies(&mut m, policies.clone());
    assert!(can_take_policies(&m));
    assert_eq!(take_policies(&mut m), policies);
}
