//! Literal values of the primitive types, and their payload encodings.
//!
//! A literal evaluates to a freshly allocated owned value whose payload is the
//! little-endian encoding of the number (or the text itself for strings).
//! Float literals carry raw IEEE 754 bits; the virtual machine never performs
//! float arithmetic itself, it only stores and moves the bits.

use vstd::prelude::*;
use vstd::bytes::{
    spec_u16_to_le_bytes, spec_u32_to_le_bytes, spec_u64_to_le_bytes, spec_u128_to_le_bytes,
    u16_to_le_bytes, u32_to_le_bytes, u64_to_le_bytes, u128_to_le_bytes,
};
use crate::kind::{
    TypeHash, TH_UNIT, TH_BOOL, TH_I8, TH_I16, TH_I32, TH_I64, TH_I128, TH_ISIZE, TH_U8, TH_U16,
    TH_U32, TH_U64, TH_U128, TH_USIZE, TH_F32, TH_F64, TH_CHAR, TH_STRING,
};

verus! {

/// A literal of one of the primitive types. Pointer-sized integers are held
/// as 64-bit values; float literals are held as their raw bits.
#[derive(Debug, Clone, PartialEq, Eq)]
pub enum AnkhaLiteral {
    Unit,
    Bool(bool),
    I8(i8),
    I16(i16),
    I32(i32),
    I64(i64),
    I128(i128),
    Isize(i64),
    U8(u8),
    U16(u16),
    U32(u32),
    U64(u64),
    U128(u128),
    Usize(u64),
    F32Bits(u32),
    F64Bits(u64),
    Char(char),
    String(String),
}

impl AnkhaLiteral {
    /// The type hash of the primitive type this literal belongs to.
    pub open spec fn spec_type_hash(&self) -> TypeHash {
        match self {
            AnkhaLiteral::Unit => TH_UNIT,
            AnkhaLiteral::Bool(_) => TH_BOOL,
            AnkhaLiteral::I8(_) => TH_I8,
            AnkhaLiteral::I16(_) => TH_I16,
            AnkhaLiteral::I32(_) => TH_I32,
            AnkhaLiteral::I64(_) => TH_I64,
            AnkhaLiteral::I128(_) => TH_I128,
            AnkhaLiteral::Isize(_) => TH_ISIZE,
            AnkhaLiteral::U8(_) => TH_U8,
            AnkhaLiteral::U16(_) => TH_U16,
            AnkhaLiteral::U32(_) => TH_U32,
            AnkhaLiteral::U64(_) => TH_U64,
            AnkhaLiteral::U128(_) => TH_U128,
            AnkhaLiteral::Usize(_) => TH_USIZE,
            AnkhaLiteral::F32Bits(_) => TH_F32,
            AnkhaLiteral::F64Bits(_) => TH_F64,
            AnkhaLiteral::Char(_) => TH_CHAR,
            AnkhaLiteral::String(_) => TH_STRING,
        }
    }

    pub fn type_hash(&self) -> (r: TypeHash)
        ensures
            r == self.spec_type_hash(),
    {
        match self {
            AnkhaLiteral::Unit => TH_UNIT,
            AnkhaLiteral::Bool(_) => TH_BOOL,
            AnkhaLiteral::I8(_) => TH_I8,
            AnkhaLiteral::I16(_) => TH_I16,
            AnkhaLiteral::I32(_) => TH_I32,
            AnkhaLiteral::I64(_) => TH_I64,
            AnkhaLiteral::I128(_) => TH_I128,
            AnkhaLiteral::Isize(_) => TH_ISIZE,
            AnkhaLiteral::U8(_) => TH_U8,
            AnkhaLiteral::U16(_) => TH_U16,
            AnkhaLiteral::U32(_) => TH_U32,
            AnkhaLiteral::U64(_) => TH_U64,
            AnkhaLiteral::U128(_) => TH_U128,
            AnkhaLiteral::Usize(_) => TH_USIZE,
            AnkhaLiteral::F32Bits(_) => TH_F32,
            AnkhaLiteral::F64Bits(_) => TH_F64,
            AnkhaLiteral::Char(_) => TH_CHAR,
            AnkhaLiteral::String(_) => TH_STRING,
        }
    }

    /// Whether this literal's payload is a byte sequence (every literal but
    /// strings; string payloads are text).
    pub open spec fn spec_is_bytes(&self) -> bool {
        !(self is String)
    }

    /// The byte encoding of a non-string literal's payload: little-endian for
    /// the numeric types, one byte for booleans, empty for unit.
    pub open spec fn spec_bytes(&self) -> Seq<u8> {
        match self {
            AnkhaLiteral::Unit => Seq::empty(),
            AnkhaLiteral::Bool(v) => seq![if *v { 1u8 } else { 0u8 }],
            AnkhaLiteral::I8(v) => seq![*v as u8],
            AnkhaLiteral::I16(v) => spec_u16_to_le_bytes(*v as u16),
            AnkhaLiteral::I32(v) => spec_u32_to_le_bytes(*v as u32),
            AnkhaLiteral::I64(v) => spec_u64_to_le_bytes(*v as u64),
            AnkhaLiteral::I128(v) => spec_u128_to_le_bytes(*v as u128),
            AnkhaLiteral::Isize(v) => spec_u64_to_le_bytes(*v as u64),
            AnkhaLiteral::U8(v) => seq![*v],
            AnkhaLiteral::U16(v) => spec_u16_to_le_bytes(*v),
            AnkhaLiteral::U32(v) => spec_u32_to_le_bytes(*v),
            AnkhaLiteral::U64(v) => spec_u64_to_le_bytes(*v),
            AnkhaLiteral::U128(v) => spec_u128_to_le_bytes(*v),
            AnkhaLiteral::Usize(v) => spec_u64_to_le_bytes(*v),
            AnkhaLiteral::F32Bits(v) => spec_u32_to_le_bytes(*v),
            AnkhaLiteral::F64Bits(v) => spec_u64_to_le_bytes(*v),
            AnkhaLiteral::Char(v) => spec_u32_to_le_bytes(*v as u32),
            AnkhaLiteral::String(_) => Seq::empty(),
        }
    }

    /// Copy a literal exactly.
    pub fn duplicate(&self) -> (r: AnkhaLiteral)
        ensures
            r == *self,
    {
        match self {
            AnkhaLiteral::Unit => AnkhaLiteral::Unit,
            AnkhaLiteral::Bool(v) => AnkhaLiteral::Bool(*v),
            AnkhaLiteral::I8(v) => AnkhaLiteral::I8(*v),
            AnkhaLiteral::I16(v) => AnkhaLiteral::I16(*v),
            AnkhaLiteral::I32(v) => AnkhaLiteral::I32(*v),
            AnkhaLiteral::I64(v) => AnkhaLiteral::I64(*v),
            AnkhaLiteral::I128(v) => AnkhaLiteral::I128(*v),
            AnkhaLiteral::Isize(v) => AnkhaLiteral::Isize(*v),
            AnkhaLiteral::U8(v) => AnkhaLiteral::U8(*v),
            AnkhaLiteral::U16(v) => AnkhaLiteral::U16(*v),
            AnkhaLiteral::U32(v) => AnkhaLiteral::U32(*v),
            AnkhaLiteral::U64(v) => AnkhaLiteral::U64(*v),
            AnkhaLiteral::U128(v) => AnkhaLiteral::U128(*v),
            AnkhaLiteral::Usize(v) => AnkhaLiteral::Usize(*v),
            AnkhaLiteral::F32Bits(v) => AnkhaLiteral::F32Bits(*v),
            AnkhaLiteral::F64Bits(v) => AnkhaLiteral::F64Bits(*v),
            AnkhaLiteral::Char(v) => AnkhaLiteral::Char(*v),
            AnkhaLiteral::String(s) => AnkhaLiteral::String(s.clone()),
        }
    }

    /// Encode a non-string literal's payload.
    pub fn to_bytes(&self) -> (r: Vec<u8>)
        requires
            self.spec_is_bytes(),
        ensures
            r@ == self.spec_bytes(),
    {
        match self {
            AnkhaLiteral::Unit => Vec::new(),
            AnkhaLiteral::Bool(v) => {
                let mut out: Vec<u8> = Vec::new();
                out.push(if *v { 1u8 } else { 0u8 });
                out
            },
            AnkhaLiteral::I8(v) => {
                let mut out: Vec<u8> = Vec::new();
                out.push(*v as u8);
                out
            },
            AnkhaLiteral::I16(v) => u16_to_le_bytes(*v as u16),
            AnkhaLiteral::I32(v) => u32_to_le_bytes(*v as u32),
            AnkhaLiteral::I64(v) => u64_to_le_bytes(*v as u64),
            AnkhaLiteral::I128(v) => u128_to_le_bytes(*v as u128),
            AnkhaLiteral::Isize(v) => u64_to_le_bytes(*v as u64),
            AnkhaLiteral::U8(v) => {
                let mut out: Vec<u8> = Vec::new();
                out.push(*v);
                out
            },
            AnkhaLiteral::U16(v) => u16_to_le_bytes(*v),
            AnkhaLiteral::U32(v) => u32_to_le_bytes(*v),
            AnkhaLiteral::U64(v) => u64_to_le_bytes(*v),
            AnkhaLiteral::U128(v) => u128_to_le_bytes(*v),
            AnkhaLiteral::Usize(v) => u64_to_le_bytes(*v),
            AnkhaLiteral::F32Bits(v) => u32_to_le_bytes(*v),
            AnkhaLiteral::F64Bits(v) => u64_to_le_bytes(*v),
            AnkhaLiteral::Char(v) => u32_to_le_bytes(*v as u32),
            AnkhaLiteral::String(_) => Vec::new(),
        }
    }
}

} // verus!
