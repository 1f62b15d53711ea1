//! The values that the virtual machine moves around and the frames it keeps.
//! Composite values, strings and big integers live in backing stores and are
//! referred to by index.
use vstd::prelude::*;

use crate::compiled::{ConstantId, VariantDiscriminant};
use crate::semantic::FunctionId;

verus! {

#[derive(Debug, Clone, Copy, PartialEq, Eq, Structural)]
pub struct StringBackingId(pub usize);

#[derive(Debug, Clone, Copy, PartialEq, Eq, Structural)]
pub struct DynamicIntegerBackingId(pub usize);

#[derive(Debug, Clone, Copy, PartialEq, Eq, Structural)]
pub struct StructBackingId(pub usize);

#[derive(Debug, Clone, Copy, PartialEq, Eq, Structural)]
pub struct EnumBackingId(pub usize);

#[derive(Debug, Clone, Copy, PartialEq, Eq, Structural)]
pub enum StringBackingRef {
    Compiled(ConstantId),
    Execution(StringBackingId),
}

#[derive(Debug, Clone, Copy, PartialEq, Eq, Structural)]
pub enum DynamicIntegerBackingRef {
    Compiled(ConstantId),
    Execution(DynamicIntegerBackingId),
}

/// A dynamic number. Floating values are held as their IEEE-754 bit
/// patterns.
#[derive(Debug, Clone, Copy, PartialEq, Eq, Structural)]
pub enum DynamicValue {
    Integer(DynamicIntegerBackingRef),
    Float32(u32),
    Float64(u64),
}

/// A value on the machine's stack. Floating values are held as their
/// IEEE-754 bit patterns.
#[derive(Debug, Clone, Copy, PartialEq, Eq, Structural)]
pub enum RuntimeValue {
    Boolean(bool),
    Int8(i8),
    Int16(i16),
    Int32(i32),
    Int64(i64),
    Int128(i128),
    Uint8(u8),
    Uint16(u16),
    Uint32(u32),
    Uint64(u64),
    Uint128(u128),
    Float32(u32),
    Float64(u64),
    String(StringBackingRef),
    Dynamic(DynamicValue),
    Struct(StructBackingId),
    Enum(EnumBackingId),
}

pub struct StructBacking {
    pub fields: Vec<RuntimeValue>,
}

pub struct EnumBacking {
    pub variant: VariantDiscriminant,
    pub payload: RuntimeEnumPayload,
}

pub enum RuntimeEnumPayload {
    Simple,
    Associated(RuntimeValue),
    Structured { fields: Vec<RuntimeValue> },
}

/// The machine's value cells: parameters, locals and operands of every active
/// frame, one after another.
pub struct SharedValueStorage {
    pub cells: Vec<Option<RuntimeValue>>,
}

#[derive(Debug, Clone, Copy, PartialEq, Eq, Structural)]
pub struct InstructionPointer(pub usize);

pub struct CallFrame {
    pub function: FunctionId,
    pub instruction_pointer: InstructionPointer,
    pub frame_base: usize,
}

/// `num_bigint::BigInt`, the integer of any size that backs the dynamic
/// number type, declared so that the backing store can hold one; its value is
/// opaque here and nothing is assumed of it.
#[verifier::external_type_specification]
#[verifier::external_body]
pub struct ExBigInt(num_bigint::BigInt);

pub struct DynamicIntegerBacking {
    pub value: num_bigint::BigInt,
}

/// What a running program allocates: strings, dynamic integers, structs and
/// enums, each referred to by its position.
pub struct ExecutionBackingStore {
    pub strings: Vec<String>,
    pub dynamic_integers: Vec<DynamicIntegerBacking>,
    pub structs: Vec<StructBacking>,
    pub enums: Vec<EnumBacking>,
}

} // verus!
