//! Tests of the syntax tree.

use evo_script_engine::ast::{BinaryOperator, BodyStatement, EnumConstruction, Expression, ExpressionKind, FieldInitializer, FunctionBody, FunctionCall, Identifier, LetBinding, LiteralKind, OperationStatement, Pipeline, PipelineStage, QualifiedName, TypedBinding, UnaryOperator, WhenCorrespondence, WhenExpression, WhenPattern};
use evo_script_engine::lexical::{SourceSpan};

#[test]
    fn enum_construction_variants() {
        let source = String::from("Status::Active 42 score: 100");
        let simple = EnumConstruction::Simple {
            variant: QualifiedName {
                qualifier: Identifier {
                    lexeme: &source[0..6],
                    span: SourceSpan { start: 0, end: 6 },
                },
                name: Identifier {
                    lexeme: &source[8..14],
                    span: SourceSpan { start: 8, end: 14 },
                },
            },
        };
        match simple {
            EnumConstruction::Simple { variant } => {
                assert_eq!(variant.qualifier.lexeme, "Status");
                assert_eq!(variant.name.lexeme, "Active");
            }
            _ => panic!("expected Simple"),
        }

        let associated = EnumConstruction::Associated {
            variant: QualifiedName {
                qualifier: Identifier {
                    lexeme: &source[0..6],
                    span: SourceSpan { start: 0, end: 6 },
                },
                name: Identifier {
                    lexeme: &source[8..14],
                    span: SourceSpan { start: 8, end: 14 },
                },
            },
            value: Box::new(Expression {
                kind: ExpressionKind::Literal {
                    kind: LiteralKind::Integer,
                    lexeme: &source[15..17],
                },
                span: SourceSpan { start: 15, end: 17 },
            }),
        };
        match associated {
            EnumConstruction::Associated { variant, value } => {
                assert_eq!(variant.name.lexeme, "Active");
                match value.kind {
                    ExpressionKind::Literal { kind, lexeme } => {
                        match kind {
                            LiteralKind::Integer => {}
                            _ => panic!("expected Integer"),
                        }
                        assert_eq!(lexeme, "42");
                    }
                    _ => panic!("expected Literal"),
                }
            }
            _ => panic!("expected Associated"),
        }

        let structured = EnumConstruction::Structured {
            variant: QualifiedName {
                qualifier: Identifier {
                    lexeme: &source[0..6],
                    span: SourceSpan { start: 0, end: 6 },
                },
                name: Identifier {
                    lexeme: &source[8..14],
                    span: SourceSpan { start: 8, end: 14 },
                },
            },
            fields: vec![FieldInitializer {
                name: Identifier {
                    lexeme: &source[18..23],
                    span: SourceSpan { start: 18, end: 23 },
                },
                value: Expression {
                    kind: ExpressionKind::Literal {
                        kind: LiteralKind::Integer,
                        lexeme: &source[25..28],
                    },
                    span: SourceSpan { start: 25, end: 28 },
                },
            }],
        };
        match structured {
            EnumConstruction::Structured { variant, fields } => {
                assert_eq!(variant.name.lexeme, "Active");
                assert_eq!(fields.len(), 1);
                assert_eq!(fields[0].name.lexeme, "score");
            }
            _ => panic!("expected Structured"),
        }
    }


#[test]
    fn expression_kind_10_variants() {
        let source =
            String::from("42 x -a a + b a.f call(a) User{a: 1} S::A x |> f Enum::Var 1");
        let e_lit = ExpressionKind::Literal {
            kind: LiteralKind::Integer,
            lexeme: &source[0..2],
        };
        match e_lit {
            ExpressionKind::Literal { kind: _, lexeme } => assert_eq!(lexeme, "42"),
            _ => panic!("expected Literal"),
        }

        let e_id = ExpressionKind::Identifier(Identifier {
            lexeme: &source[3..4],
            span: SourceSpan { start: 3, end: 4 },
        });
        match e_id {
            ExpressionKind::Identifier(id) => assert_eq!(id.lexeme, "x"),
            _ => panic!("expected Identifier"),
        }

        let e_un = ExpressionKind::Unary {
            operator: UnaryOperator::Negate,
            operand: Box::new(Expression {
                kind: ExpressionKind::Identifier(Identifier {
                    lexeme: &source[6..7],
                    span: SourceSpan { start: 6, end: 7 },
                }),
                span: SourceSpan { start: 6, end: 7 },
            }),
        };
        match e_un {
            ExpressionKind::Unary { operator, operand } => {
                match operator {
                    UnaryOperator::Negate => {}
                    _ => panic!("expected Negate"),
                }
                assert_eq!(operand.span.start, 6);
            }
            _ => panic!("expected Unary"),
        }

        let e_bin = ExpressionKind::Binary {
            left: Box::new(Expression {
                kind: ExpressionKind::Identifier(Identifier {
                    lexeme: &source[8..9],
                    span: SourceSpan { start: 8, end: 9 },
                }),
                span: SourceSpan { start: 8, end: 9 },
            }),
            operator: BinaryOperator::Add,
            right: Box::new(Expression {
                kind: ExpressionKind::Identifier(Identifier {
                    lexeme: &source[12..13],
                    span: SourceSpan { start: 12, end: 13 },
                }),
                span: SourceSpan { start: 12, end: 13 },
            }),
        };
        match e_bin {
            ExpressionKind::Binary {
                left: _,
                operator,
                right: _,
            } => match operator {
                BinaryOperator::Add => {}
                _ => panic!("expected Add"),
            },
            _ => panic!("expected Binary"),
        }

        let e_fa = ExpressionKind::FieldAccess {
            receiver: Box::new(Expression {
                kind: ExpressionKind::Identifier(Identifier {
                    lexeme: &source[14..15],
                    span: SourceSpan { start: 14, end: 15 },
                }),
                span: SourceSpan { start: 14, end: 15 },
            }),
            field: Identifier {
                lexeme: &source[16..17],
                span: SourceSpan { start: 16, end: 17 },
            },
        };
        match e_fa {
            ExpressionKind::FieldAccess { receiver: _, field } => {
                assert_eq!(field.lexeme, "f");
            }
            _ => panic!("expected FieldAccess"),
        }

        let e_fc = ExpressionKind::FunctionCall(FunctionCall {
            callee: Identifier {
                lexeme: &source[18..22],
                span: SourceSpan { start: 18, end: 22 },
            },
            arguments: vec![Expression {
                kind: ExpressionKind::Identifier(Identifier {
                    lexeme: &source[23..24],
                    span: SourceSpan { start: 23, end: 24 },
                }),
                span: SourceSpan { start: 23, end: 24 },
            }],
        });
        match e_fc {
            ExpressionKind::FunctionCall(fc) => {
                assert_eq!(fc.callee.lexeme, "call");
                assert_eq!(fc.arguments.len(), 1);
            }
            _ => panic!("expected FunctionCall"),
        }

        let e_sc = ExpressionKind::StructConstruction {
            type_ident: Identifier {
                lexeme: &source[26..30],
                span: SourceSpan { start: 26, end: 30 },
            },
            fields: vec![FieldInitializer {
                name: Identifier {
                    lexeme: &source[31..32],
                    span: SourceSpan { start: 31, end: 32 },
                },
                value: Expression {
                    kind: ExpressionKind::Literal {
                        kind: LiteralKind::Integer,
                        lexeme: &source[34..35],
                    },
                    span: SourceSpan { start: 34, end: 35 },
                },
            }],
        };
        match e_sc {
            ExpressionKind::StructConstruction { type_ident, fields } => {
                assert_eq!(type_ident.lexeme, "User");
                assert_eq!(fields.len(), 1);
            }
            _ => panic!("expected StructConstruction"),
        }

        let e_ec = ExpressionKind::EnumConstruction(EnumConstruction::Simple {
            variant: QualifiedName {
                qualifier: Identifier {
                    lexeme: &source[37..38],
                    span: SourceSpan { start: 37, end: 38 },
                },
                name: Identifier {
                    lexeme: &source[40..41],
                    span: SourceSpan { start: 40, end: 41 },
                },
            },
        });
        match e_ec {
            ExpressionKind::EnumConstruction(_) => {}
            _ => panic!("expected EnumConstruction"),
        }

        let e_pip = ExpressionKind::Pipeline(Pipeline {
            source: Box::new(Expression {
                kind: ExpressionKind::Identifier(Identifier {
                    lexeme: &source[42..43],
                    span: SourceSpan { start: 42, end: 43 },
                }),
                span: SourceSpan { start: 42, end: 43 },
            }),
            stages: vec![PipelineStage {
                callee: Identifier {
                    lexeme: &source[47..48],
                    span: SourceSpan { start: 47, end: 48 },
                },
                additional_arguments: vec![],
            }],
        });
        match e_pip {
            ExpressionKind::Pipeline(pip) => {
                assert_eq!(pip.stages.len(), 1);
                assert_eq!(pip.stages[0].callee.lexeme, "f");
            }
            _ => panic!("expected Pipeline"),
        }

        let e_when = ExpressionKind::When(WhenExpression {
            subject: Box::new(Expression {
                kind: ExpressionKind::Identifier(Identifier {
                    lexeme: &source[42..43],
                    span: SourceSpan { start: 42, end: 43 },
                }),
                span: SourceSpan { start: 42, end: 43 },
            }),
            correspondences: vec![WhenCorrespondence {
                pattern: WhenPattern::Simple {
                    variant: QualifiedName {
                        qualifier: Identifier {
                            lexeme: &source[49..53],
                            span: SourceSpan { start: 49, end: 53 },
                        },
                        name: Identifier {
                            lexeme: &source[55..58],
                            span: SourceSpan { start: 55, end: 58 },
                        },
                    },
                },
                result: Expression {
                    kind: ExpressionKind::Literal {
                        kind: LiteralKind::Integer,
                        lexeme: &source[59..60],
                    },
                    span: SourceSpan { start: 59, end: 60 },
                },
            }],
        });
        match e_when {
            ExpressionKind::When(w) => {
                assert_eq!(w.correspondences.len(), 1);
            }
            _ => panic!("expected When"),
        }
    }


#[test]
    fn pipeline_stages_and_additional_arguments_order() {
        let source = String::from("val first x y second");
        let pipeline = Pipeline {
            source: Box::new(Expression {
                kind: ExpressionKind::Identifier(Identifier {
                    lexeme: &source[0..3],
                    span: SourceSpan { start: 0, end: 3 },
                }),
                span: SourceSpan { start: 0, end: 3 },
            }),
            stages: vec![
                PipelineStage {
                    callee: Identifier {
                        lexeme: &source[4..9],
                        span: SourceSpan { start: 4, end: 9 },
                    },
                    additional_arguments: vec![
                        Expression {
                            kind: ExpressionKind::Identifier(Identifier {
                                lexeme: &source[10..11],
                                span: SourceSpan { start: 10, end: 11 },
                            }),
                            span: SourceSpan { start: 10, end: 11 },
                        },
                        Expression {
                            kind: ExpressionKind::Identifier(Identifier {
                                lexeme: &source[12..13],
                                span: SourceSpan { start: 12, end: 13 },
                            }),
                            span: SourceSpan { start: 12, end: 13 },
                        },
                    ],
                },
                PipelineStage {
                    callee: Identifier {
                        lexeme: &source[14..20],
                        span: SourceSpan { start: 14, end: 20 },
                    },
                    additional_arguments: vec![],
                },
            ],
        };

        assert_eq!(pipeline.stages.len(), 2);
        assert_eq!(pipeline.stages[0].callee.lexeme, "first");
        assert_eq!(pipeline.stages[1].callee.lexeme, "second");

        assert_eq!(pipeline.stages[0].additional_arguments.len(), 2);
        match &pipeline.stages[0].additional_arguments[0].kind {
            ExpressionKind::Identifier(id) => assert_eq!(id.lexeme, "x"),
            _ => panic!("expected Identifier x"),
        }
        match &pipeline.stages[0].additional_arguments[1].kind {
            ExpressionKind::Identifier(id) => assert_eq!(id.lexeme, "y"),
            _ => panic!("expected Identifier y"),
        }
    }


#[test]
    fn function_body_statements_and_result() {
        let source = String::from("int32 x 42 log x f 0");
        let body = FunctionBody {
            statements: vec![
                BodyStatement::Let(LetBinding {
                    binding: TypedBinding {
                        type_ident: Identifier {
                            lexeme: &source[0..5],
                            span: SourceSpan { start: 0, end: 5 },
                        },
                        name: Identifier {
                            lexeme: &source[6..7],
                            span: SourceSpan { start: 6, end: 7 },
                        },
                    },
                    value: Expression {
                        kind: ExpressionKind::Literal {
                            kind: LiteralKind::Integer,
                            lexeme: &source[8..10],
                        },
                        span: SourceSpan { start: 8, end: 10 },
                    },
                }),
                BodyStatement::Operation(OperationStatement::FunctionCall(FunctionCall {
                    callee: Identifier {
                        lexeme: &source[11..14],
                        span: SourceSpan { start: 11, end: 14 },
                    },
                    arguments: vec![Expression {
                        kind: ExpressionKind::Identifier(Identifier {
                            lexeme: &source[15..16],
                            span: SourceSpan { start: 15, end: 16 },
                        }),
                        span: SourceSpan { start: 15, end: 16 },
                    }],
                })),
                BodyStatement::Operation(OperationStatement::Pipeline(Pipeline {
                    source: Box::new(Expression {
                        kind: ExpressionKind::Identifier(Identifier {
                            lexeme: &source[15..16],
                            span: SourceSpan { start: 15, end: 16 },
                        }),
                        span: SourceSpan { start: 15, end: 16 },
                    }),
                    stages: vec![PipelineStage {
                        callee: Identifier {
                            lexeme: &source[17..18],
                            span: SourceSpan { start: 17, end: 18 },
                        },
                        additional_arguments: vec![],
                    }],
                })),
            ],
            result: Expression {
                kind: ExpressionKind::Literal {
                    kind: LiteralKind::Integer,
                    lexeme: &source[19..20],
                },
                span: SourceSpan { start: 19, end: 20 },
            },
        };

        assert_eq!(body.statements.len(), 3);
        match &body.statements[0] {
            BodyStatement::Let(lb) => assert_eq!(lb.binding.name.lexeme, "x"),
            _ => panic!("expected Let"),
        }
        match &body.statements[1] {
            BodyStatement::Operation(OperationStatement::FunctionCall(fc)) => {
                assert_eq!(fc.callee.lexeme, "log");
            }
            _ => panic!("expected FunctionCall"),
        }
        match &body.statements[2] {
            BodyStatement::Operation(OperationStatement::Pipeline(pip)) => {
                assert_eq!(pip.stages.len(), 1);
            }
            _ => panic!("expected Pipeline"),
        }
    }


#[test]
    fn when_expression_and_correspondences() {
        let source = String::from("status Status::Active 1");
        let when_expr = WhenExpression {
            subject: Box::new(Expression {
                kind: ExpressionKind::Identifier(Identifier {
                    lexeme: &source[0..6],
                    span: SourceSpan { start: 0, end: 6 },
                }),
                span: SourceSpan { start: 0, end: 6 },
            }),
            correspondences: vec![WhenCorrespondence {
                pattern: WhenPattern::Simple {
                    variant: QualifiedName {
                        qualifier: Identifier {
                            lexeme: &source[7..13],
                            span: SourceSpan { start: 7, end: 13 },
                        },
                        name: Identifier {
                            lexeme: &source[15..21],
                            span: SourceSpan { start: 15, end: 21 },
                        },
                    },
                },
                result: Expression {
                    kind: ExpressionKind::Literal {
                        kind: LiteralKind::Integer,
                        lexeme: &source[22..23],
                    },
                    span: SourceSpan { start: 22, end: 23 },
                },
            }],
        };

        match when_expr.subject.kind {
            ExpressionKind::Identifier(id) => assert_eq!(id.lexeme, "status"),
            _ => panic!("expected Identifier"),
        }
        assert_eq!(when_expr.correspondences.len(), 1);
        match &when_expr.correspondences[0].pattern {
            WhenPattern::Simple { variant } => assert_eq!(variant.name.lexeme, "Active"),
            _ => panic!("expected Simple"),
        }
        match when_expr.correspondences[0].result.kind {
            ExpressionKind::Literal { kind: _, lexeme } => assert_eq!(lexeme, "1"),
            _ => panic!("expected Literal"),
        }
    }

