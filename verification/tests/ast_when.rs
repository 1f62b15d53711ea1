//! Tests of the when data.

use evo_script_engine::ast::{Identifier, PatternField, QualifiedName, TypedBinding, WhenPattern};
use evo_script_engine::lexical::{SourceSpan};

#[test]
    fn when_pattern_variants() {
        let source = String::from(
            "Status::Active Status::Associated(int32 val) Status::Structured{field: string name}",
        );
        let p_simple = WhenPattern::Simple {
            variant: QualifiedName {
                qualifier: Identifier {
                    lexeme: &source[0..6],
                    span: SourceSpan { start: 0, end: 6 },
                },
                name: Identifier {
                    lexeme: &source[8..14],
                    span: SourceSpan { start: 8, end: 14 },
                },
            },
        };
        match p_simple {
            WhenPattern::Simple { variant } => {
                assert_eq!(variant.qualifier.lexeme, "Status");
                assert_eq!(variant.name.lexeme, "Active");
            }
            _ => panic!("expected Simple"),
        }

        let p_assoc = WhenPattern::Associated {
            variant: QualifiedName {
                qualifier: Identifier {
                    lexeme: &source[15..21],
                    span: SourceSpan { start: 15, end: 21 },
                },
                name: Identifier {
                    lexeme: &source[23..33],
                    span: SourceSpan { start: 23, end: 33 },
                },
            },
            binding: TypedBinding {
                type_ident: Identifier {
                    lexeme: &source[34..39],
                    span: SourceSpan { start: 34, end: 39 },
                },
                name: Identifier {
                    lexeme: &source[40..43],
                    span: SourceSpan { start: 40, end: 43 },
                },
            },
        };
        match p_assoc {
            WhenPattern::Associated { variant, binding } => {
                assert_eq!(variant.name.lexeme, "Associated");
                assert_eq!(binding.type_ident.lexeme, "int32");
                assert_eq!(binding.name.lexeme, "val");
            }
            _ => panic!("expected Associated"),
        }

        let p_struct = WhenPattern::Structured {
            variant: QualifiedName {
                qualifier: Identifier {
                    lexeme: &source[45..51],
                    span: SourceSpan { start: 45, end: 51 },
                },
                name: Identifier {
                    lexeme: &source[53..63],
                    span: SourceSpan { start: 53, end: 63 },
                },
            },
            fields: vec![PatternField {
                field: Identifier {
                    lexeme: &source[64..69],
                    span: SourceSpan { start: 64, end: 69 },
                },
                binding: TypedBinding {
                    type_ident: Identifier {
                        lexeme: &source[71..77],
                        span: SourceSpan { start: 71, end: 77 },
                    },
                    name: Identifier {
                        lexeme: &source[78..82],
                        span: SourceSpan { start: 78, end: 82 },
                    },
                },
            }],
        };
        match p_struct {
            WhenPattern::Structured { variant, fields } => {
                assert_eq!(variant.name.lexeme, "Structured");
                assert_eq!(fields.len(), 1);
                assert_eq!(fields[0].field.lexeme, "field");
                assert_eq!(fields[0].binding.name.lexeme, "name");
            }
            _ => panic!("expected Structured"),
        }
    }
