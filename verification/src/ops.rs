//! The instruction set.

use vstd::prelude::*;
use crate::entity::{Func, Global, Memory, Signature, Table};
use crate::ir::Type;

verus! {

/// The immediate of a load or store: which memory, at what constant offset,
/// with what alignment hint.
#[derive(Clone, Copy, Debug, PartialEq, Eq, Structural, Hash)]
pub struct MemoryArg {
    /// The alignment, as the exponent of a power of two.
    pub align: u8,
    /// The constant added to the address operand.
    pub offset: u64,
    /// The memory that is read or written.
    pub memory: Memory,
}

/// An instruction with its immediates. Operands and results are not part of
/// it: a value definition pairs an operator with its operand list.
///
/// The rest of the library treats an operator as a leaf: it is stored,
/// copied and compared, never taken apart. A floating-point constant holds
/// the bit pattern of its value.
#[allow(inconsistent_fields)]
#[derive(Clone, Copy, Debug, PartialEq, Eq, Structural, Hash)]
pub enum Operator {

    Unreachable,
    Nop,

    Call { function_index: Func },
    CallIndirect { index: Signature, table_index: Table },
    Return,
    LocalSet { local_index: u32 },
    LocalTee { local_index: u32 },
    LocalGet { local_index: u32 },
    Select,
    TypedSelect { ty: Type },
    GlobalGet { global_index: Global },
    GlobalSet { global_index: Global },

    I32Load { memory: MemoryArg },
    I64Load { memory: MemoryArg },
    F32Load { memory: MemoryArg },
    F64Load { memory: MemoryArg },
    I32Load8S { memory: MemoryArg },
    I32Load8U { memory: MemoryArg },
    I32Load16S { memory: MemoryArg },
    I32Load16U { memory: MemoryArg },
    I64Load8S { memory: MemoryArg },
    I64Load8U { memory: MemoryArg },
    I64Load16S { memory: MemoryArg },
    I64Load16U { memory: MemoryArg },
    I64Load32S { memory: MemoryArg },
    I64Load32U { memory: MemoryArg },

    I32Store { memory: MemoryArg },
    I64Store { memory: MemoryArg },
    F32Store { memory: MemoryArg },
    F64Store { memory: MemoryArg },
    I32Store8 { memory: MemoryArg },
    I32Store16 { memory: MemoryArg },
    I64Store8 { memory: MemoryArg },
    I64Store16 { memory: MemoryArg },
    I64Store32 { memory: MemoryArg },

    I32Const { value: u32 },
    I64Const { value: u64 },
    F32Const { value: u32 },
    F64Const { value: u64 },

    I32Eqz,
    I32Eq,
    I32Ne,
    I32LtS,
    I32LtU,
    I32GtS,
    I32GtU,
    I32LeS,
    I32LeU,
    I32GeS,
    I32GeU,

    I64Eqz,

    I64Eq,
    I64Ne,
    I64LtS,
    I64LtU,
    I64GtU,
    I64GtS,
    I64LeS,
    I64LeU,
    I64GeS,
    I64GeU,

    F32Eq,
    F32Ne,
    F32Lt,
    F32Gt,
    F32Le,
    F32Ge,

    F64Eq,
    F64Ne,
    F64Lt,
    F64Gt,
    F64Le,
    F64Ge,

    I32Clz,
    I32Ctz,
    I32Popcnt,

    I32Add,
    I32Sub,
    I32Mul,
    I32DivS,
    I32DivU,
    I32RemS,
    I32RemU,
    I32And,
    I32Or,
    I32Xor,
    I32Shl,
    I32ShrS,
    I32ShrU,
    I32Rotl,
    I32Rotr,

    I64Clz,
    I64Ctz,
    I64Popcnt,

    I64Add,
    I64Sub,
    I64Mul,
    I64DivS,
    I64DivU,
    I64RemS,
    I64RemU,
    I64And,
    I64Or,
    I64Xor,
    I64Shl,
    I64ShrS,
    I64ShrU,
    I64Rotl,
    I64Rotr,

    F32Abs,
    F32Neg,
    F32Ceil,
    F32Floor,
    F32Trunc,
    F32Nearest,
    F32Sqrt,

    F32Add,
    F32Sub,
    F32Mul,
    F32Div,
    F32Min,
    F32Max,
    F32Copysign,

    F64Abs,
    F64Neg,
    F64Ceil,
    F64Floor,
    F64Trunc,
    F64Nearest,
    F64Sqrt,

    F64Add,
    F64Sub,
    F64Mul,
    F64Div,
    F64Min,
    F64Max,
    F64Copysign,

    I32WrapI64,
    I32TruncF32S,
    I32TruncF32U,
    I32TruncF64S,
    I32TruncF64U,
    I64ExtendI32S,
    I64ExtendI32U,
    I64TruncF32S,
    I64TruncF32U,
    I64TruncF64S,
    I64TruncF64U,
    F32ConvertI32S,
    F32ConvertI32U,
    F32ConvertI64S,
    F32ConvertI64U,
    F32DemoteF64,
    F64ConvertI32S,
    F64ConvertI32U,
    F64ConvertI64S,
    F64ConvertI64U,
    F64PromoteF32,
    I32Extend8S,
    I32Extend16S,
    I64Extend8S,
    I64Extend16S,
    I64Extend32S,
    I32TruncSatF32S,
    I32TruncSatF32U,
    I32TruncSatF64S,
    I32TruncSatF64U,
    I64TruncSatF32S,
    I64TruncSatF32U,
    I64TruncSatF64S,
    I64TruncSatF64U,
    F32ReinterpretI32,
    F64ReinterpretI64,
    I32ReinterpretF32,
    I64ReinterpretF64,
    TableGet { table: Table },
    TableSet { table: Table },
    TableGrow { table: Table },
    TableSize { table: Table },
    MemorySize { mem: Memory },
    MemoryGrow { mem: Memory },
}

} // verus!
