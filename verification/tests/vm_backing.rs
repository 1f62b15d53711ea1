//! Tests of the machine's values and backing stores.

use evo_script_engine::compiled::{ConstantId, VariantDiscriminant};
use evo_script_engine::vm::{DynamicIntegerBacking, DynamicIntegerBackingId, DynamicIntegerBackingRef, DynamicValue, EnumBacking, EnumBackingId, ExecutionBackingStore, RuntimeEnumPayload, RuntimeValue, SharedValueStorage, StringBackingId, StringBackingRef, StructBacking, StructBackingId};
use num_bigint::BigInt;

#[test]
    fn struct_backing_fields_positional_order() {
        let sb = StructBacking {
            fields: vec![
                RuntimeValue::Int32(42),
                RuntimeValue::Boolean(true),
                RuntimeValue::Float64(3.75f64.to_bits()),
            ]
            ,
        };

        assert_eq!(sb.fields.len(), 3);
        match sb.fields[0] {
            RuntimeValue::Int32(v) => assert_eq!(v, 42),
            _ => panic!("expected Int32 at index 0"),
        }
        match sb.fields[1] {
            RuntimeValue::Boolean(b) => assert!(b),
            _ => panic!("expected Boolean at index 1"),
        }
        match sb.fields[2] {
            RuntimeValue::Float64(v) => assert!((f64::from_bits(v) - 3.75).abs() < 1e-10),
            _ => panic!("expected Float64 at index 2"),
        }
    }


#[test]
    fn runtime_enum_payload_3_variants() {
        let p_simple = RuntimeEnumPayload::Simple;
        match p_simple {
            RuntimeEnumPayload::Simple => {}
            _ => panic!("expected Simple"),
        }

        let p_assoc = RuntimeEnumPayload::Associated(RuntimeValue::Int32(99));
        match p_assoc {
            RuntimeEnumPayload::Associated(RuntimeValue::Int32(v)) => assert_eq!(v, 99),
            _ => panic!("expected Associated Int32"),
        }

        let p_struct = RuntimeEnumPayload::Structured {
            fields: vec![RuntimeValue::Int32(1), RuntimeValue::Boolean(false)]
                ,
        };
        match p_struct {
            RuntimeEnumPayload::Structured { fields } => {
                assert_eq!(fields.len(), 2);
                match fields[0] {
                    RuntimeValue::Int32(v) => assert_eq!(v, 1),
                    _ => panic!("expected Int32 at field 0"),
                }
                match fields[1] {
                    RuntimeValue::Boolean(b) => assert!(!b),
                    _ => panic!("expected Boolean at field 1"),
                }
            }
            _ => panic!("expected Structured"),
        }
    }


#[test]
    fn immutable_dag_sharing_representation() {
        // Leaf struct backing at index 0
        let leaf = StructBacking {
            fields: vec![RuntimeValue::Int32(100)],
        };

        // Parent struct backing at index 1 sharing two references to StructBackingId(0)
        let parent = StructBacking {
            fields: vec![
                RuntimeValue::Struct(StructBackingId(0)),
                RuntimeValue::Struct(StructBackingId(0)),
            ]
            ,
        };

        let store = ExecutionBackingStore {
            strings: vec![],
            dynamic_integers: vec![],
            structs: vec![leaf, parent],
            enums: vec![],
        };

        assert_eq!(store.structs.len(), 2);
        match store.structs[1].fields[0] {
            RuntimeValue::Struct(id) => assert_eq!(id.0, 0),
            _ => panic!("expected StructBackingId(0) at field 0"),
        }
        match store.structs[1].fields[1] {
            RuntimeValue::Struct(id) => assert_eq!(id.0, 0),
            _ => panic!("expected StructBackingId(0) at field 1"),
        }
    }


#[test]
    fn dynamic_integer_backing_greater_than_u128_and_negative() {
        // Decimal string greater than u128::MAX (340282366920938463463374607431768211455)
        let large_positive_str = "340282366920938463463374607431768211456";
        let pos_bigint =
            BigInt::parse_bytes(large_positive_str.as_bytes(), 10).expect("valid decimal BigInt");
        let pos_backing = DynamicIntegerBacking { value: pos_bigint };
        assert_eq!(pos_backing.value.to_str_radix(10), large_positive_str);

        // Arbitrarily large negative decimal
        let large_negative_str = "-10000000000000000000000000000000000000000";
        let neg_bigint = BigInt::parse_bytes(large_negative_str.as_bytes(), 10)
            .expect("valid negative decimal BigInt");
        let neg_backing = DynamicIntegerBacking { value: neg_bigint };
        assert_eq!(neg_backing.value.to_str_radix(10), large_negative_str);
    }


#[test]
    fn execution_backing_store_four_typed_stores() {
        let store = ExecutionBackingStore {
            strings: vec!["hello world".to_string()],
            dynamic_integers: vec![DynamicIntegerBacking {
                value: BigInt::from(100),
            }],
            structs: vec![StructBacking {
                fields: vec![RuntimeValue::Int32(1)],
            }],
            enums: vec![EnumBacking {
                variant: VariantDiscriminant(0),
                payload: RuntimeEnumPayload::Simple,
            }],
        };

        assert_eq!(store.strings.len(), 1);
        assert_eq!(&*store.strings[0], "hello world");
        assert_eq!(store.dynamic_integers.len(), 1);
        assert_eq!(store.dynamic_integers[0].value, BigInt::from(100));
        assert_eq!(store.structs.len(), 1);
        assert_eq!(store.enums.len(), 1);
    }


#[test]
    fn shared_value_storage_cells_some_and_none() {
        let storage = SharedValueStorage {
            cells: vec![
                Some(RuntimeValue::Int32(10)),
                None,
                Some(RuntimeValue::Boolean(true)),
            ],
        };

        assert_eq!(storage.cells.len(), 3);
        match storage.cells[0] {
            Some(RuntimeValue::Int32(v)) => assert_eq!(v, 10),
            _ => panic!("expected Some(Int32) at cell 0"),
        }
        match storage.cells[1] {
            None => {}
            _ => panic!("expected None at cell 1"),
        }
        match storage.cells[2] {
            Some(RuntimeValue::Boolean(b)) => assert!(b),
            _ => panic!("expected Some(Boolean) at cell 2"),
        }
    }


#[test]
    fn dynamic_value_3_variants_and_copy_semantics() {
        let dyn_int = DynamicValue::Integer(DynamicIntegerBackingRef::Compiled(ConstantId(1)));
        let dyn_int_copied = dyn_int;
        match dyn_int_copied {
            DynamicValue::Integer(DynamicIntegerBackingRef::Compiled(cid)) => assert_eq!(cid.0, 1),
            _ => panic!("expected Integer"),
        }

        let dyn_f32 = DynamicValue::Float32(1.5f32.to_bits());
        let dyn_f32_copied = dyn_f32;
        match dyn_f32_copied {
            DynamicValue::Float32(v) => assert!((f32::from_bits(v) - 1.5).abs() < 1e-6),
            _ => panic!("expected Float32"),
        }

        let dyn_f64 = DynamicValue::Float64(2.5f64.to_bits());
        let dyn_f64_copied = dyn_f64;
        match dyn_f64_copied {
            DynamicValue::Float64(v) => assert!((f64::from_bits(v) - 2.5).abs() < 1e-10),
            _ => panic!("expected Float64"),
        }
    }


#[test]
    fn runtime_value_exactly_17_variants() {
        let values = [
            RuntimeValue::Boolean(true),
            RuntimeValue::Int8(-1),
            RuntimeValue::Int16(-2),
            RuntimeValue::Int32(-3),
            RuntimeValue::Int64(-4),
            RuntimeValue::Int128(-5),
            RuntimeValue::Uint8(1),
            RuntimeValue::Uint16(2),
            RuntimeValue::Uint32(3),
            RuntimeValue::Uint64(4),
            RuntimeValue::Uint128(5),
            RuntimeValue::Float32(1.25f32.to_bits()),
            RuntimeValue::Float64(2.5f64.to_bits()),
            RuntimeValue::String(StringBackingRef::Compiled(ConstantId(0))),
            RuntimeValue::Dynamic(DynamicValue::Integer(DynamicIntegerBackingRef::Execution(
                DynamicIntegerBackingId(0),
            ))),
            RuntimeValue::Struct(StructBackingId(0)),
            RuntimeValue::Enum(EnumBackingId(0)),
        ];

        assert_eq!(values.len(), 17);

        // Pattern matching and Copy semantics checks
        let v_bool = values[0];
        match v_bool {
            RuntimeValue::Boolean(b) => assert!(b),
            _ => panic!("expected Boolean"),
        }

        let v_i32 = values[3];
        match v_i32 {
            RuntimeValue::Int32(v) => assert_eq!(v, -3),
            _ => panic!("expected Int32"),
        }

        let v_f64 = values[12];
        match v_f64 {
            RuntimeValue::Float64(v) => assert!((f64::from_bits(v) - 2.5).abs() < 1e-10),
            _ => panic!("expected Float64"),
        }

        let v_str_compiled = values[13];
        match v_str_compiled {
            RuntimeValue::String(StringBackingRef::Compiled(cid)) => assert_eq!(cid.0, 0),
            _ => panic!("expected String Compiled"),
        }

        let v_str_exec = RuntimeValue::String(StringBackingRef::Execution(StringBackingId(42)));
        let v_str_exec_copied = v_str_exec;
        match v_str_exec_copied {
            RuntimeValue::String(StringBackingRef::Execution(id)) => assert_eq!(id.0, 42),
            _ => panic!("expected String Execution"),
        }

        let v_dyn_int = values[14];
        match v_dyn_int {
            RuntimeValue::Dynamic(DynamicValue::Integer(DynamicIntegerBackingRef::Execution(
                id,
            ))) => assert_eq!(id.0, 0),
            _ => panic!("expected Dynamic Integer"),
        }

        let v_struct = values[15];
        match v_struct {
            RuntimeValue::Struct(id) => assert_eq!(id.0, 0),
            _ => panic!("expected Struct"),
        }

        let v_enum = values[16];
        match v_enum {
            RuntimeValue::Enum(id) => assert_eq!(id.0, 0),
            _ => panic!("expected Enum"),
        }
    }

