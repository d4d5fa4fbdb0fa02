//! The numeric SPIR-V values of the opcodes and enumerants that the
//! float-control passes use.

use vstd::prelude::*;

verus! {

pub const OP_EXTENSION: u32 = 10;
pub const OP_EXECUTION_MODE: u32 = 16;
pub const OP_CAPABILITY: u32 = 17;
pub const OP_TYPE_INT: u32 = 21;
pub const OP_TYPE_FLOAT: u32 = 22;
pub const OP_CONSTANT: u32 = 43;
pub const OP_CONSTANT_NULL: u32 = 46;
pub const OP_EXECUTION_MODE_ID: u32 = 331;

pub const MODE_DENORM_PRESERVE: u32 = 4459;
pub const MODE_DENORM_FLUSH_TO_ZERO: u32 = 4460;
pub const MODE_SIGNED_ZERO_INF_NAN_PRESERVE: u32 = 4461;
pub const MODE_ROUNDING_MODE_RTE: u32 = 4462;
pub const MODE_ROUNDING_MODE_RTZ: u32 = 4463;
pub const MODE_FP_FAST_MATH_DEFAULT: u32 = 6028;

pub const CAP_DENORM_PRESERVE: u32 = 4464;
pub const CAP_DENORM_FLUSH_TO_ZERO: u32 = 4465;
pub const CAP_SIGNED_ZERO_INF_NAN_PRESERVE: u32 = 4466;
pub const CAP_ROUNDING_MODE_RTE: u32 = 4467;
pub const CAP_ROUNDING_MODE_RTZ: u32 = 4468;
pub const CAP_FLOAT_CONTROLS2: u32 = 6029;

pub const DECORATION_FP_FAST_MATH_MODE: u32 = 40;

} // verus!
