//! Facts about the native types: which are numeric, integral or signed, their
//! names, and which explicit conversions the language allows.
use vstd::prelude::*;

use crate::ast::{BinaryOperator, UnaryOperator};
use crate::catalog::TypeSymbol;
use crate::failures::{EnumPayloadShape, SemanticTypeDescriptor};
use crate::semantic::{NativeType, SemanticType, SignatureSymbol};
use crate::text::same_text;

verus! {

/// The integer types with a fixed width or the unbounded `int`.
pub open spec fn integer_native(nt: NativeType) -> bool {
    match nt {
        NativeType::Int | NativeType::Int8 | NativeType::Int16 | NativeType::Int32
        | NativeType::Int64 | NativeType::Int128 | NativeType::Uint8 | NativeType::Uint16
        | NativeType::Uint32 | NativeType::Uint64 | NativeType::Uint128 => true,
        _ => false,
    }
}

pub open spec fn floating_native(nt: NativeType) -> bool {
    match nt {
        NativeType::Float | NativeType::Float32 | NativeType::Float64 => true,
        _ => false,
    }
}

/// Integers, floats, and the dynamic number type.
pub open spec fn numeric_native(nt: NativeType) -> bool {
    integer_native(nt) || floating_native(nt) || nt == NativeType::Dynamic
}

pub open spec fn signed_integer_native(nt: NativeType) -> bool {
    match nt {
        NativeType::Int | NativeType::Int8 | NativeType::Int16 | NativeType::Int32
        | NativeType::Int64 | NativeType::Int128 => true,
        _ => false,
    }
}

pub fn is_numeric_native(nt: &NativeType) -> (r: bool)
    ensures
        r == numeric_native(*nt),
{
    match nt {
        NativeType::Int | NativeType::Int8 | NativeType::Int16 | NativeType::Int32
        | NativeType::Int64 | NativeType::Int128 | NativeType::Uint8 | NativeType::Uint16
        | NativeType::Uint32 | NativeType::Uint64 | NativeType::Uint128 | NativeType::Float
        | NativeType::Float32 | NativeType::Float64 | NativeType::Dynamic => true,
        _ => false,
    }
}

pub fn is_integer_native(nt: &NativeType) -> (r: bool)
    ensures
        r == integer_native(*nt),
{
    match nt {
        NativeType::Int | NativeType::Int8 | NativeType::Int16 | NativeType::Int32
        | NativeType::Int64 | NativeType::Int128 | NativeType::Uint8 | NativeType::Uint16
        | NativeType::Uint32 | NativeType::Uint64 | NativeType::Uint128 => true,
        _ => false,
    }
}

pub fn is_signed_integer_or_dyn_native(nt: &NativeType) -> (r: bool)
    ensures
        r == (signed_integer_native(*nt) || *nt == NativeType::Dynamic),
{
    match nt {
        NativeType::Int | NativeType::Int8 | NativeType::Int16 | NativeType::Int32
        | NativeType::Int64 | NativeType::Int128 | NativeType::Dynamic => true,
        _ => false,
    }
}

pub fn is_integer_or_dyn_native(nt: &NativeType) -> (r: bool)
    ensures
        r == (integer_native(*nt) || *nt == NativeType::Dynamic),
{
    match nt {
        NativeType::Int | NativeType::Int8 | NativeType::Int16 | NativeType::Int32
        | NativeType::Int64 | NativeType::Int128 | NativeType::Uint8 | NativeType::Uint16
        | NativeType::Uint32 | NativeType::Uint64 | NativeType::Uint128 | NativeType::Dynamic => true,
        _ => false,
    }
}

/// Whether `sem_type` is a native integer type or the dynamic type.
pub fn is_integer_or_dynamic_type(sem_type: &SemanticType) -> (r: bool)
    ensures
        r == (match sem_type {
            SemanticType::Native(nt) => integer_native(*nt) || *nt == NativeType::Dynamic,
            _ => false,
        }),
{
    match sem_type {
        SemanticType::Native(nt) => is_integer_or_dyn_native(nt),
        _ => false,
    }
}

/// The name by which a script writes a native type.
pub open spec fn native_name(nt: NativeType) -> Seq<char> {
    match nt {
        NativeType::Int => "int"@,
        NativeType::Float => "float"@,
        NativeType::Bool => "bool"@,
        NativeType::String => "string"@,
        NativeType::Dynamic => "dynamic"@,
        NativeType::Int8 => "int8"@,
        NativeType::Int16 => "int16"@,
        NativeType::Int32 => "int32"@,
        NativeType::Int64 => "int64"@,
        NativeType::Int128 => "int128"@,
        NativeType::Uint8 => "uint8"@,
        NativeType::Uint16 => "uint16"@,
        NativeType::Uint32 => "uint32"@,
        NativeType::Uint64 => "uint64"@,
        NativeType::Uint128 => "uint128"@,
        NativeType::Float32 => "float32"@,
        NativeType::Float64 => "float64"@,
    }
}

/// The native type whose name has the length and last character of `s`;
/// no two native names agree on both.
pub open spec fn native_of_name(s: Seq<char>) -> NativeType {
    let c = s.last();
    if s.len() == 3 {
        NativeType::Int
    } else if s.len() == 4 {
        if c == 'l' { NativeType::Bool } else { NativeType::Int8 }
    } else if s.len() == 5 {
        if c == 't' {
            NativeType::Float
        } else if c == '6' {
            NativeType::Int16
        } else if c == '2' {
            NativeType::Int32
        } else if c == '4' {
            NativeType::Int64
        } else {
            NativeType::Uint8
        }
    } else if s.len() == 6 {
        if c == 'g' {
            NativeType::String
        } else if c == '8' {
            NativeType::Int128
        } else if c == '6' {
            NativeType::Uint16
        } else if c == '2' {
            NativeType::Uint32
        } else {
            NativeType::Uint64
        }
    } else if c == 'c' {
        NativeType::Dynamic
    } else if c == '8' {
        NativeType::Uint128
    } else if c == '2' {
        NativeType::Float32
    } else {
        NativeType::Float64
    }
}

/// Each native name names one native type: two native types with the same
/// name are the same type.
pub proof fn lemma_native_name_injective(x: NativeType, y: NativeType)
    ensures
        native_name(x) == native_name(y) ==> x == y,
{
    lemma_native_of_name(x);
    lemma_native_of_name(y);
}

proof fn lemma_native_of_name(x: NativeType)
    ensures
        native_of_name(native_name(x)) == x,
{
    match x {
        NativeType::Int => reveal_strlit("int"),
        NativeType::Float => reveal_strlit("float"),
        NativeType::Bool => reveal_strlit("bool"),
        NativeType::String => reveal_strlit("string"),
        NativeType::Dynamic => reveal_strlit("dynamic"),
        NativeType::Int8 => reveal_strlit("int8"),
        NativeType::Int16 => reveal_strlit("int16"),
        NativeType::Int32 => reveal_strlit("int32"),
        NativeType::Int64 => reveal_strlit("int64"),
        NativeType::Int128 => reveal_strlit("int128"),
        NativeType::Uint8 => reveal_strlit("uint8"),
        NativeType::Uint16 => reveal_strlit("uint16"),
        NativeType::Uint32 => reveal_strlit("uint32"),
        NativeType::Uint64 => reveal_strlit("uint64"),
        NativeType::Uint128 => reveal_strlit("uint128"),
        NativeType::Float32 => reveal_strlit("float32"),
        NativeType::Float64 => reveal_strlit("float64"),
    }
}

pub fn native_type_name(nt: &NativeType) -> (r: &'static str)
    ensures
        r@ == native_name(*nt),
{
    match nt {
        NativeType::Int => "int",
        NativeType::Float => "float",
        NativeType::Bool => "bool",
        NativeType::String => "string",
        NativeType::Dynamic => "dynamic",
        NativeType::Int8 => "int8",
        NativeType::Int16 => "int16",
        NativeType::Int32 => "int32",
        NativeType::Int64 => "int64",
        NativeType::Int128 => "int128",
        NativeType::Uint8 => "uint8",
        NativeType::Uint16 => "uint16",
        NativeType::Uint32 => "uint32",
        NativeType::Uint64 => "uint64",
        NativeType::Uint128 => "uint128",
        NativeType::Float32 => "float32",
        NativeType::Float64 => "float64",
    }
}

/// The native type that the conversion function `name` produces, if `name`
/// is one.
pub open spec fn conversion_target(name: Seq<char>) -> Option<NativeType> {
    if name == "to_int"@ {
        Some(NativeType::Int)
    } else if name == "to_int8"@ {
        Some(NativeType::Int8)
    } else if name == "to_int16"@ {
        Some(NativeType::Int16)
    } else if name == "to_int32"@ {
        Some(NativeType::Int32)
    } else if name == "to_int64"@ {
        Some(NativeType::Int64)
    } else if name == "to_int128"@ {
        Some(NativeType::Int128)
    } else if name == "to_uint8"@ {
        Some(NativeType::Uint8)
    } else if name == "to_uint16"@ {
        Some(NativeType::Uint16)
    } else if name == "to_uint32"@ {
        Some(NativeType::Uint32)
    } else if name == "to_uint64"@ {
        Some(NativeType::Uint64)
    } else if name == "to_uint128"@ {
        Some(NativeType::Uint128)
    } else if name == "to_float"@ {
        Some(NativeType::Float)
    } else if name == "to_float32"@ {
        Some(NativeType::Float32)
    } else if name == "to_float64"@ {
        Some(NativeType::Float64)
    } else if name == "to_string"@ {
        Some(NativeType::String)
    } else {
        None
    }
}

/// The types an explicit conversion may name: every native type but `bool`
/// and the dynamic number.
pub open spec fn convertible_native(nt: NativeType) -> bool {
    nt != NativeType::Bool && nt != NativeType::Dynamic
}

/// Each conversion is written `to_` followed by the name of the native type
/// it converts to: `to_` and the name of a type other than `bool` and the
/// dynamic number names the conversion to that type, and a name that names a
/// conversion is `to_` and the name of its target.
pub proof fn lemma_conversion_names(nt: NativeType, name: Seq<char>)
    ensures
        convertible_native(nt) ==> conversion_target("to_"@ + native_name(nt)) == Some(nt),
        conversion_target(name) == Some(nt) ==> convertible_native(nt) && name == "to_"@ + native_name(nt),
{
    lemma_conversion_name_of(nt);
    if conversion_target(name) == Some(nt) {
        lemma_conversion_target_named(name);
    }
}

proof fn lemma_conversion_name_of(nt: NativeType)
    ensures
        convertible_native(nt) ==> conversion_target("to_"@ + native_name(nt)) == Some(nt),
{
    reveal_strlit("to_");
    reveal_strlit("int");
    reveal_strlit("float");
    reveal_strlit("string");
    reveal_strlit("int8");
    reveal_strlit("int16");
    reveal_strlit("int32");
    reveal_strlit("int64");
    reveal_strlit("int128");
    reveal_strlit("uint8");
    reveal_strlit("uint16");
    reveal_strlit("uint32");
    reveal_strlit("uint64");
    reveal_strlit("uint128");
    reveal_strlit("float32");
    reveal_strlit("float64");
    reveal_strlit("to_int");
    reveal_strlit("to_int8");
    reveal_strlit("to_int16");
    reveal_strlit("to_int32");
    reveal_strlit("to_int64");
    reveal_strlit("to_int128");
    reveal_strlit("to_uint8");
    reveal_strlit("to_uint16");
    reveal_strlit("to_uint32");
    reveal_strlit("to_uint64");
    reveal_strlit("to_uint128");
    reveal_strlit("to_float");
    reveal_strlit("to_float32");
    reveal_strlit("to_float64");
    reveal_strlit("to_string");
    match nt {
        NativeType::Int => {
            assert("to_"@ + "int"@ =~= "to_int"@);
            assert(conversion_target("to_int"@) == Some(NativeType::Int));
            assert(conversion_target("to_"@ + native_name(nt)) == Some(nt));
        },
        NativeType::Int8 => {
            assert("to_"@ + "int8"@ =~= "to_int8"@);
            assert("to_int"@.len() != "to_int8"@.len());
            assert(conversion_target("to_int8"@) == Some(NativeType::Int8));
            assert(conversion_target("to_"@ + native_name(nt)) == Some(nt));
        },
        NativeType::Int16 => {
            assert("to_"@ + "int16"@ =~= "to_int16"@);
            assert("to_int"@.len() != "to_int16"@.len());
            assert("to_int8"@.len() != "to_int16"@.len());
            assert(conversion_target("to_int16"@) == Some(NativeType::Int16));
            assert(conversion_target("to_"@ + native_name(nt)) == Some(nt));
        },
        NativeType::Int32 => {
            assert("to_"@ + "int32"@ =~= "to_int32"@);
            assert("to_int"@.len() != "to_int32"@.len());
            assert("to_int8"@.len() != "to_int32"@.len());
            assert("to_int16"@[6] != "to_int32"@[6]);
            assert(conversion_target("to_int32"@) == Some(NativeType::Int32));
            assert(conversion_target("to_"@ + native_name(nt)) == Some(nt));
        },
        NativeType::Int64 => {
            assert("to_"@ + "int64"@ =~= "to_int64"@);
            assert("to_int"@.len() != "to_int64"@.len());
            assert("to_int8"@.len() != "to_int64"@.len());
            assert("to_int16"@[6] != "to_int64"@[6]);
            assert("to_int32"@[6] != "to_int64"@[6]);
            assert(conversion_target("to_int64"@) == Some(NativeType::Int64));
            assert(conversion_target("to_"@ + native_name(nt)) == Some(nt));
        },
        NativeType::Int128 => {
            assert("to_"@ + "int128"@ =~= "to_int128"@);
            assert("to_int"@.len() != "to_int128"@.len());
            assert("to_int8"@.len() != "to_int128"@.len());
            assert("to_int16"@.len() != "to_int128"@.len());
            assert("to_int32"@.len() != "to_int128"@.len());
            assert("to_int64"@.len() != "to_int128"@.len());
            assert(conversion_target("to_int128"@) == Some(NativeType::Int128));
            assert(conversion_target("to_"@ + native_name(nt)) == Some(nt));
        },
        NativeType::Uint8 => {
            assert("to_"@ + "uint8"@ =~= "to_uint8"@);
            assert("to_int"@.len() != "to_uint8"@.len());
            assert("to_int8"@.len() != "to_uint8"@.len());
            assert("to_int16"@[3] != "to_uint8"@[3]);
            assert("to_int32"@[3] != "to_uint8"@[3]);
            assert("to_int64"@[3] != "to_uint8"@[3]);
            assert("to_int128"@.len() != "to_uint8"@.len());
            assert(conversion_target("to_uint8"@) == Some(NativeType::Uint8));
            assert(conversion_target("to_"@ + native_name(nt)) == Some(nt));
        },
        NativeType::Uint16 => {
            assert("to_"@ + "uint16"@ =~= "to_uint16"@);
            assert("to_int"@.len() != "to_uint16"@.len());
            assert("to_int8"@.len() != "to_uint16"@.len());
            assert("to_int16"@.len() != "to_uint16"@.len());
            assert("to_int32"@.len() != "to_uint16"@.len());
            assert("to_int64"@.len() != "to_uint16"@.len());
            assert("to_int128"@[3] != "to_uint16"@[3]);
            assert("to_uint8"@.len() != "to_uint16"@.len());
            assert(conversion_target("to_uint16"@) == Some(NativeType::Uint16));
            assert(conversion_target("to_"@ + native_name(nt)) == Some(nt));
        },
        NativeType::Uint32 => {
            assert("to_"@ + "uint32"@ =~= "to_uint32"@);
            assert("to_int"@.len() != "to_uint32"@.len());
            assert("to_int8"@.len() != "to_uint32"@.len());
            assert("to_int16"@.len() != "to_uint32"@.len());
            assert("to_int32"@.len() != "to_uint32"@.len());
            assert("to_int64"@.len() != "to_uint32"@.len());
            assert("to_int128"@[3] != "to_uint32"@[3]);
            assert("to_uint8"@.len() != "to_uint32"@.len());
            assert("to_uint16"@[7] != "to_uint32"@[7]);
            assert(conversion_target("to_uint32"@) == Some(NativeType::Uint32));
            assert(conversion_target("to_"@ + native_name(nt)) == Some(nt));
        },
        NativeType::Uint64 => {
            assert("to_"@ + "uint64"@ =~= "to_uint64"@);
            assert("to_int"@.len() != "to_uint64"@.len());
            assert("to_int8"@.len() != "to_uint64"@.len());
            assert("to_int16"@.len() != "to_uint64"@.len());
            assert("to_int32"@.len() != "to_uint64"@.len());
            assert("to_int64"@.len() != "to_uint64"@.len());
            assert("to_int128"@[3] != "to_uint64"@[3]);
            assert("to_uint8"@.len() != "to_uint64"@.len());
            assert("to_uint16"@[7] != "to_uint64"@[7]);
            assert("to_uint32"@[7] != "to_uint64"@[7]);
            assert(conversion_target("to_uint64"@) == Some(NativeType::Uint64));
            assert(conversion_target("to_"@ + native_name(nt)) == Some(nt));
        },
        NativeType::Uint128 => {
            assert("to_"@ + "uint128"@ =~= "to_uint128"@);
            assert("to_int"@.len() != "to_uint128"@.len());
            assert("to_int8"@.len() != "to_uint128"@.len());
            assert("to_int16"@.len() != "to_uint128"@.len());
            assert("to_int32"@.len() != "to_uint128"@.len());
            assert("to_int64"@.len() != "to_uint128"@.len());
            assert("to_int128"@.len() != "to_uint128"@.len());
            assert("to_uint8"@.len() != "to_uint128"@.len());
            assert("to_uint16"@.len() != "to_uint128"@.len());
            assert("to_uint32"@.len() != "to_uint128"@.len());
            assert("to_uint64"@.len() != "to_uint128"@.len());
            assert(conversion_target("to_uint128"@) == Some(NativeType::Uint128));
            assert(conversion_target("to_"@ + native_name(nt)) == Some(nt));
        },
        NativeType::Float => {
            assert("to_"@ + "float"@ =~= "to_float"@);
            assert("to_int"@.len() != "to_float"@.len());
            assert("to_int8"@.len() != "to_float"@.len());
            assert("to_int16"@[3] != "to_float"@[3]);
            assert("to_int32"@[3] != "to_float"@[3]);
            assert("to_int64"@[3] != "to_float"@[3]);
            assert("to_int128"@.len() != "to_float"@.len());
            assert("to_uint8"@[3] != "to_float"@[3]);
            assert("to_uint16"@.len() != "to_float"@.len());
            assert("to_uint32"@.len() != "to_float"@.len());
            assert("to_uint64"@.len() != "to_float"@.len());
            assert("to_uint128"@.len() != "to_float"@.len());
            assert(conversion_target("to_float"@) == Some(NativeType::Float));
            assert(conversion_target("to_"@ + native_name(nt)) == Some(nt));
        },
        NativeType::Float32 => {
            assert("to_"@ + "float32"@ =~= "to_float32"@);
            assert("to_int"@.len() != "to_float32"@.len());
            assert("to_int8"@.len() != "to_float32"@.len());
            assert("to_int16"@.len() != "to_float32"@.len());
            assert("to_int32"@.len() != "to_float32"@.len());
            assert("to_int64"@.len() != "to_float32"@.len());
            assert("to_int128"@.len() != "to_float32"@.len());
            assert("to_uint8"@.len() != "to_float32"@.len());
            assert("to_uint16"@.len() != "to_float32"@.len());
            assert("to_uint32"@.len() != "to_float32"@.len());
            assert("to_uint64"@.len() != "to_float32"@.len());
            assert("to_uint128"@[3] != "to_float32"@[3]);
            assert("to_float"@.len() != "to_float32"@.len());
            assert(conversion_target("to_float32"@) == Some(NativeType::Float32));
            assert(conversion_target("to_"@ + native_name(nt)) == Some(nt));
        },
        NativeType::Float64 => {
            assert("to_"@ + "float64"@ =~= "to_float64"@);
            assert("to_int"@.len() != "to_float64"@.len());
            assert("to_int8"@.len() != "to_float64"@.len());
            assert("to_int16"@.len() != "to_float64"@.len());
            assert("to_int32"@.len() != "to_float64"@.len());
            assert("to_int64"@.len() != "to_float64"@.len());
            assert("to_int128"@.len() != "to_float64"@.len());
            assert("to_uint8"@.len() != "to_float64"@.len());
            assert("to_uint16"@.len() != "to_float64"@.len());
            assert("to_uint32"@.len() != "to_float64"@.len());
            assert("to_uint64"@.len() != "to_float64"@.len());
            assert("to_uint128"@[3] != "to_float64"@[3]);
            assert("to_float"@.len() != "to_float64"@.len());
            assert("to_float32"@[8] != "to_float64"@[8]);
            assert(conversion_target("to_float64"@) == Some(NativeType::Float64));
            assert(conversion_target("to_"@ + native_name(nt)) == Some(nt));
        },
        NativeType::String => {
            assert("to_"@ + "string"@ =~= "to_string"@);
            assert("to_int"@.len() != "to_string"@.len());
            assert("to_int8"@.len() != "to_string"@.len());
            assert("to_int16"@.len() != "to_string"@.len());
            assert("to_int32"@.len() != "to_string"@.len());
            assert("to_int64"@.len() != "to_string"@.len());
            assert("to_int128"@[3] != "to_string"@[3]);
            assert("to_uint8"@.len() != "to_string"@.len());
            assert("to_uint16"@[3] != "to_string"@[3]);
            assert("to_uint32"@[3] != "to_string"@[3]);
            assert("to_uint64"@[3] != "to_string"@[3]);
            assert("to_uint128"@.len() != "to_string"@.len());
            assert("to_float"@.len() != "to_string"@.len());
            assert("to_float32"@.len() != "to_string"@.len());
            assert("to_float64"@.len() != "to_string"@.len());
            assert(conversion_target("to_string"@) == Some(NativeType::String));
            assert(conversion_target("to_"@ + native_name(nt)) == Some(nt));
        },
        _ => {},
    }
}

proof fn lemma_conversion_target_named(name: Seq<char>)
    ensures
        conversion_target(name) matches Some(nt) ==> convertible_native(nt) && name == "to_"@ + native_name(nt),
{
    if conversion_target(name) is Some {
        lemma_conversion_name_of(conversion_target(name)->0);
    }
}

pub fn get_conversion_target_native(name: &str) -> (r: Option<NativeType>)
    ensures
        r == conversion_target(name@),
{
    if same_text(name, "to_int") {
        Some(NativeType::Int)
    } else if same_text(name, "to_int8") {
        Some(NativeType::Int8)
    } else if same_text(name, "to_int16") {
        Some(NativeType::Int16)
    } else if same_text(name, "to_int32") {
        Some(NativeType::Int32)
    } else if same_text(name, "to_int64") {
        Some(NativeType::Int64)
    } else if same_text(name, "to_int128") {
        Some(NativeType::Int128)
    } else if same_text(name, "to_uint8") {
        Some(NativeType::Uint8)
    } else if same_text(name, "to_uint16") {
        Some(NativeType::Uint16)
    } else if same_text(name, "to_uint32") {
        Some(NativeType::Uint32)
    } else if same_text(name, "to_uint64") {
        Some(NativeType::Uint64)
    } else if same_text(name, "to_uint128") {
        Some(NativeType::Uint128)
    } else if same_text(name, "to_float") {
        Some(NativeType::Float)
    } else if same_text(name, "to_float32") {
        Some(NativeType::Float32)
    } else if same_text(name, "to_float64") {
        Some(NativeType::Float64)
    } else if same_text(name, "to_string") {
        Some(NativeType::String)
    } else {
        None
    }
}

/// Whether a value of `source` may be converted explicitly to `target`:
/// only native numbers (the dynamic type among them) convert, to a number or
/// to a string.
pub open spec fn conversion_allowed(source: &SemanticType, target: NativeType) -> bool {
    match source {
        SemanticType::Native(nt) => numeric_native(*nt),
        _ => false,
    }
}

/// An explicit conversion takes any number, the integers of every width, the
/// floats and the dynamic number alike, whatever its target; it takes no
/// `bool`, no `string` and no type that is not native.
pub proof fn lemma_conversion_sources(source: SemanticType, target: NativeType)
    ensures
        source matches SemanticType::Native(nt) && (nt == NativeType::Int || nt == NativeType::Int8
            || nt == NativeType::Int16 || nt == NativeType::Int32 || nt == NativeType::Int64 || nt == NativeType::Int128
            || nt == NativeType::Uint8 || nt == NativeType::Uint16 || nt == NativeType::Uint32 || nt == NativeType::Uint64
            || nt == NativeType::Uint128 || nt == NativeType::Float || nt == NativeType::Float32
            || nt == NativeType::Float64 || nt == NativeType::Dynamic) ==> conversion_allowed(&source, target),
        source == SemanticType::Native(NativeType::Bool) || source == SemanticType::Native(NativeType::String)
            || !(source is Native) ==> !conversion_allowed(&source, target),
{
}

pub fn is_valid_conversion(source_type: &SemanticType, target_native: &NativeType) -> (r: bool)
    ensures
        r == conversion_allowed(source_type, *target_native),
{
    let source_native = match source_type {
        SemanticType::Native(nt) => nt,
        _ => {
            return false;
        },
    };
    if *target_native == NativeType::String {
        return match source_native {
            NativeType::Int | NativeType::Int8 | NativeType::Int16 | NativeType::Int32
            | NativeType::Int64 | NativeType::Int128 | NativeType::Uint8 | NativeType::Uint16
            | NativeType::Uint32 | NativeType::Uint64 | NativeType::Uint128 | NativeType::Float
            | NativeType::Float32 | NativeType::Float64 | NativeType::Dynamic => true,
            _ => false,
        };
    }
    is_numeric_native(source_native)
}

// --- Copies ---

pub fn clone_native_type(nt: &NativeType) -> (r: NativeType)
    ensures
        r == *nt,
{
    match nt {
        NativeType::Int => NativeType::Int,
        NativeType::Float => NativeType::Float,
        NativeType::Bool => NativeType::Bool,
        NativeType::String => NativeType::String,
        NativeType::Dynamic => NativeType::Dynamic,
        NativeType::Int8 => NativeType::Int8,
        NativeType::Int16 => NativeType::Int16,
        NativeType::Int32 => NativeType::Int32,
        NativeType::Int64 => NativeType::Int64,
        NativeType::Int128 => NativeType::Int128,
        NativeType::Uint8 => NativeType::Uint8,
        NativeType::Uint16 => NativeType::Uint16,
        NativeType::Uint32 => NativeType::Uint32,
        NativeType::Uint64 => NativeType::Uint64,
        NativeType::Uint128 => NativeType::Uint128,
        NativeType::Float32 => NativeType::Float32,
        NativeType::Float64 => NativeType::Float64,
    }
}

pub fn clone_type_descriptor(d: &SemanticTypeDescriptor) -> (r: SemanticTypeDescriptor)
    ensures
        r == *d,
{
    match d {
        SemanticTypeDescriptor::Native(nt) => SemanticTypeDescriptor::Native(clone_native_type(nt)),
        SemanticTypeDescriptor::Local(s) => SemanticTypeDescriptor::Local(s.clone()),
        SemanticTypeDescriptor::Shared(sym) => SemanticTypeDescriptor::Shared(
            TypeSymbol { module: sym.module.clone(), name: sym.name.clone() },
        ),
    }
}

pub fn clone_signature_symbol(sym: &SignatureSymbol) -> (r: SignatureSymbol)
    ensures
        r == *sym,
{
    SignatureSymbol { module: sym.module.clone(), name: sym.name.clone() }
}

pub fn clone_unary_operator(op: &UnaryOperator) -> (r: UnaryOperator)
    ensures
        r == *op,
{
    match op {
        UnaryOperator::Not => UnaryOperator::Not,
        UnaryOperator::Negate => UnaryOperator::Negate,
    }
}

pub fn clone_binary_operator(op: &BinaryOperator) -> (r: BinaryOperator)
    ensures
        r == *op,
{
    match op {
        BinaryOperator::Multiply => BinaryOperator::Multiply,
        BinaryOperator::Divide => BinaryOperator::Divide,
        BinaryOperator::Remainder => BinaryOperator::Remainder,
        BinaryOperator::Add => BinaryOperator::Add,
        BinaryOperator::Subtract => BinaryOperator::Subtract,
        BinaryOperator::Less => BinaryOperator::Less,
        BinaryOperator::LessEqual => BinaryOperator::LessEqual,
        BinaryOperator::Greater => BinaryOperator::Greater,
        BinaryOperator::GreaterEqual => BinaryOperator::GreaterEqual,
        BinaryOperator::Equal => BinaryOperator::Equal,
        BinaryOperator::NotEqual => BinaryOperator::NotEqual,
        BinaryOperator::And => BinaryOperator::And,
        BinaryOperator::Or => BinaryOperator::Or,
    }
}

pub fn payload_shapes_match(a: &EnumPayloadShape, b: &EnumPayloadShape) -> (r: bool)
    ensures
        r == (*a == *b),
{
    match (a, b) {
        (EnumPayloadShape::Simple, EnumPayloadShape::Simple) => true,
        (EnumPayloadShape::Associated, EnumPayloadShape::Associated) => true,
        (EnumPayloadShape::Structured, EnumPayloadShape::Structured) => true,
        _ => false,
    }
}

} // verus!
