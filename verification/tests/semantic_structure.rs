//! Tests of the structure data.

use evo_script_engine::semantic::{BindingId, NativeType, SemanticField, SemanticParameter, SemanticSignature, SemanticSignatureParameter, SemanticType, SemanticVariant, SignatureBindingId, SignatureId, SignatureSymbol, TypeId};

#[test]
    fn native_type_17_variants() {
        let types = [
            NativeType::Int,
            NativeType::Float,
            NativeType::Bool,
            NativeType::String,
            NativeType::Dynamic,
            NativeType::Int8,
            NativeType::Int16,
            NativeType::Int32,
            NativeType::Int64,
            NativeType::Int128,
            NativeType::Uint8,
            NativeType::Uint16,
            NativeType::Uint32,
            NativeType::Uint64,
            NativeType::Uint128,
            NativeType::Float32,
            NativeType::Float64,
        ];

        assert_eq!(types.len(), 17);
        match &types[0] {
            NativeType::Int => {}
            _ => panic!("expected Int"),
        }
        match &types[16] {
            NativeType::Float64 => {}
            _ => panic!("expected Float64"),
        }
    }

#[test]
    fn semantic_type_and_variants_order() {
        let t_native = SemanticType::Native(NativeType::Int32);
        match t_native {
            SemanticType::Native(nt) => match nt {
                NativeType::Int32 => {}
                _ => panic!("expected Int32"),
            },
            _ => panic!("expected Native"),
        }

        let t_struct = SemanticType::Struct {
            fields: vec![
                SemanticField { type_id: TypeId(0) },
                SemanticField { type_id: TypeId(1) },
            ],
        };
        match t_struct {
            SemanticType::Struct { fields } => {
                assert_eq!(fields.len(), 2);
                assert_eq!(fields[0].type_id.0, 0);
                assert_eq!(fields[1].type_id.0, 1);
            }
            _ => panic!("expected Struct"),
        }

        let t_enum = SemanticType::Enum {
            variants: vec![
                SemanticVariant::Simple,
                SemanticVariant::Associated { type_id: TypeId(0) },
                SemanticVariant::Structured {
                    fields: vec![SemanticField { type_id: TypeId(1) }],
                },
            ],
        };
        match t_enum {
            SemanticType::Enum { variants } => {
                assert_eq!(variants.len(), 3);
                match &variants[0] {
                    SemanticVariant::Simple => {}
                    _ => panic!("expected Simple at [0]"),
                }
                match &variants[1] {
                    SemanticVariant::Associated { type_id } => {
                        assert_eq!(type_id.0, 0);
                    }
                    _ => panic!("expected Associated at [1]"),
                }
                match &variants[2] {
                    SemanticVariant::Structured { fields } => {
                        assert_eq!(fields.len(), 1);
                        assert_eq!(fields[0].type_id.0, 1);
                    }
                    _ => panic!("expected Structured at [2]"),
                }
            }
            _ => panic!("expected Enum"),
        }
    }

#[test]
    fn semantic_parameter_mixed_order() {
        let params = vec![
            SemanticParameter::Value(BindingId(0)),
            SemanticParameter::SignatureDependency(SignatureBindingId(0)),
            SemanticParameter::Value(BindingId(1)),
        ];

        assert_eq!(params.len(), 3);
        match &params[0] {
            SemanticParameter::Value(bid) => assert_eq!(bid.0, 0),
            _ => panic!("expected Value at [0]"),
        }
        match &params[1] {
            SemanticParameter::SignatureDependency(sbid) => assert_eq!(sbid.0, 0),
            _ => panic!("expected SignatureDependency at [1]"),
        }
        match &params[2] {
            SemanticParameter::Value(bid) => assert_eq!(bid.0, 1),
            _ => panic!("expected Value at [2]"),
        }
    }

#[test]
    fn semantic_signature_parameter_mixed_order() {
        let params = vec![
            SemanticSignatureParameter::Value(TypeId(0)),
            SemanticSignatureParameter::SignatureDependency(SignatureId(0)),
            SemanticSignatureParameter::Value(TypeId(1)),
        ];

        assert_eq!(params.len(), 3);
        match &params[0] {
            SemanticSignatureParameter::Value(tid) => assert_eq!(tid.0, 0),
            _ => panic!("expected Value at [0]"),
        }
        match &params[1] {
            SemanticSignatureParameter::SignatureDependency(sid) => assert_eq!(sid.0, 0),
            _ => panic!("expected SignatureDependency at [1]"),
        }
        match &params[2] {
            SemanticSignatureParameter::Value(tid) => assert_eq!(tid.0, 1),
            _ => panic!("expected Value at [2]"),
        }
    }

#[test]
    fn semantic_signature_fields() {
        let sig = SemanticSignature {
            symbol: SignatureSymbol {
                module: "Math".to_string(),
                name: "Add".to_string(),
            },
            parameters: vec![
                SemanticSignatureParameter::Value(TypeId(0)),
                SemanticSignatureParameter::Value(TypeId(0)),
            ],
            result_type: TypeId(0),
        };

        assert_eq!(sig.symbol.module, "Math");
        assert_eq!(sig.symbol.name, "Add");
        assert_eq!(sig.parameters.len(), 2);
        assert_eq!(sig.result_type.0, 0);
    }
