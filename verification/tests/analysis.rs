//! Tests of semantic analysis, on syntax trees built by hand as the parser
//! would hand them over.

use evo_script_engine::ast::{
    BinaryOperator, BodyStatement, Declaration, EnumConstruction, EnumDefinition, EnumVariant,
    Expression, ExpressionKind, FieldDefinition, FieldInitializer, FunctionBody, FunctionCall,
    FunctionDefinition, Identifier, ImportDeclaration, LetBinding, LiteralKind, Parameter,
    PatternField, Pipeline, PipelineStage, Program, QualifiedName, StructDefinition, TypedBinding,
    UnaryOperator, Visibility, WhenCorrespondence, WhenExpression, WhenPattern,
};
use evo_script_engine::catalog::{
    CatalogField, CatalogSignature, CatalogSignatureParameter, CatalogType, CatalogTypeRef,
    CatalogVariant, CompilationCatalog, TypeSymbol,
};
use evo_script_engine::failures::{
    CallFailure, CompileFailure, CompileFailureKind, CompositeFailure, DeclarationFailure,
    ResolutionFailure, SemanticArgumentKind, SemanticFailure, SemanticNameRole,
    SemanticTypeDescriptor, SignatureMismatchKind, TypeCheckingFailure, WhenFailure,
};
use evo_script_engine::lexical::SourceSpan;
use evo_script_engine::program::analyze_program;
use evo_script_engine::semantic::{
    NativeType, SemanticCallTarget, SemanticEnumPayload, SemanticExpressionKind, SemanticLiteral,
    SemanticParameter, SemanticProgram, SemanticSignatureParameter, SemanticStatement,
    SemanticVariantExtraction, SignatureSymbol,
};

// --- Building syntax trees ---

fn sp() -> SourceSpan {
    SourceSpan { start: 0, end: 0 }
}

fn ident(s: &'static str) -> Identifier<'static> {
    Identifier { lexeme: s, span: sp() }
}

fn qname(q: &'static str, n: &'static str) -> QualifiedName<'static> {
    QualifiedName { qualifier: ident(q), name: ident(n) }
}

fn expr(kind: ExpressionKind<'static>) -> Expression<'static> {
    Expression { kind, span: sp() }
}

fn lit(kind: LiteralKind, s: &'static str) -> Expression<'static> {
    expr(ExpressionKind::Literal { kind, lexeme: s })
}

fn int_lit(s: &'static str) -> Expression<'static> {
    lit(LiteralKind::Integer, s)
}

fn float(s: &'static str) -> Expression<'static> {
    lit(LiteralKind::Floating, s)
}

fn boolean(s: &'static str) -> Expression<'static> {
    lit(LiteralKind::Boolean, s)
}

fn string(s: &'static str) -> Expression<'static> {
    lit(LiteralKind::String, s)
}

fn var(s: &'static str) -> Expression<'static> {
    expr(ExpressionKind::Identifier(ident(s)))
}

fn bin(l: Expression<'static>, op: BinaryOperator, r: Expression<'static>) -> Expression<'static> {
    expr(ExpressionKind::Binary { left: Box::new(l), operator: op, right: Box::new(r) })
}

fn unary(op: UnaryOperator, e: Expression<'static>) -> Expression<'static> {
    expr(ExpressionKind::Unary { operator: op, operand: Box::new(e) })
}

fn call_of(name: &'static str, args: Vec<Expression<'static>>) -> FunctionCall<'static> {
    FunctionCall { callee: ident(name), arguments: args }
}

fn call(name: &'static str, args: Vec<Expression<'static>>) -> Expression<'static> {
    expr(ExpressionKind::FunctionCall(call_of(name, args)))
}

fn field(rec: Expression<'static>, name: &'static str) -> Expression<'static> {
    expr(ExpressionKind::FieldAccess { receiver: Box::new(rec), field: ident(name) })
}

fn inits(fields: Vec<(&'static str, Expression<'static>)>) -> Vec<FieldInitializer<'static>> {
    fields.into_iter().map(|(n, v)| FieldInitializer { name: ident(n), value: v }).collect()
}

fn construct(ty: &'static str, fields: Vec<(&'static str, Expression<'static>)>) -> Expression<'static> {
    expr(ExpressionKind::StructConstruction { type_ident: ident(ty), fields: inits(fields) })
}

fn enum_simple(q: &'static str, n: &'static str) -> Expression<'static> {
    expr(ExpressionKind::EnumConstruction(EnumConstruction::Simple { variant: qname(q, n) }))
}

fn enum_assoc(q: &'static str, n: &'static str, v: Expression<'static>) -> Expression<'static> {
    expr(ExpressionKind::EnumConstruction(EnumConstruction::Associated {
        variant: qname(q, n),
        value: Box::new(v),
    }))
}

fn enum_struct(
    q: &'static str,
    n: &'static str,
    fields: Vec<(&'static str, Expression<'static>)>,
) -> Expression<'static> {
    expr(ExpressionKind::EnumConstruction(EnumConstruction::Structured {
        variant: qname(q, n),
        fields: inits(fields),
    }))
}

fn binding(ty: &'static str, name: &'static str) -> TypedBinding<'static> {
    TypedBinding { type_ident: ident(ty), name: ident(name) }
}

fn when(subject: Expression<'static>, arms: Vec<(WhenPattern<'static>, Expression<'static>)>) -> Expression<'static> {
    expr(ExpressionKind::When(WhenExpression {
        subject: Box::new(subject),
        correspondences: arms.into_iter().map(|(p, r)| WhenCorrespondence { pattern: p, result: r }).collect(),
    }))
}

fn pat_simple(q: &'static str, n: &'static str) -> WhenPattern<'static> {
    WhenPattern::Simple { variant: qname(q, n) }
}

fn pat_assoc(q: &'static str, n: &'static str, ty: &'static str, b: &'static str) -> WhenPattern<'static> {
    WhenPattern::Associated { variant: qname(q, n), binding: binding(ty, b) }
}

fn pat_struct(
    q: &'static str,
    n: &'static str,
    fields: Vec<(&'static str, &'static str, &'static str)>,
) -> WhenPattern<'static> {
    WhenPattern::Structured {
        variant: qname(q, n),
        fields: fields
            .into_iter()
            .map(|(f, ty, b)| PatternField { field: ident(f), binding: binding(ty, b) })
            .collect(),
    }
}

fn pipe(source: Expression<'static>, stages: Vec<(&'static str, Vec<Expression<'static>>)>) -> Pipeline<'static> {
    Pipeline {
        source: Box::new(source),
        stages: stages
            .into_iter()
            .map(|(c, args)| PipelineStage { callee: ident(c), additional_arguments: args })
            .collect(),
    }
}

fn piped(source: Expression<'static>, stages: Vec<(&'static str, Vec<Expression<'static>>)>) -> Expression<'static> {
    expr(ExpressionKind::Pipeline(pipe(source, stages)))
}

fn param(ty: &'static str, name: &'static str) -> Parameter<'static> {
    Parameter::Value(binding(ty, name))
}

fn dep(q: &'static str, n: &'static str, name: &'static str) -> Parameter<'static> {
    Parameter::SignatureDependency { signature: qname(q, n), name: ident(name) }
}

fn let_(ty: &'static str, name: &'static str, value: Expression<'static>) -> BodyStatement<'static> {
    BodyStatement::Let(LetBinding { binding: binding(ty, name), value })
}

fn func_full(
    public: bool,
    name: &'static str,
    params: Vec<Parameter<'static>>,
    result: &'static str,
    satisfaction: Option<QualifiedName<'static>>,
    statements: Vec<BodyStatement<'static>>,
    ret: Expression<'static>,
) -> Declaration<'static> {
    Declaration::Function(FunctionDefinition {
        visibility: if public { Visibility::Public } else { Visibility::Private },
        name: ident(name),
        parameters: params,
        result_type: ident(result),
        satisfaction,
        body: FunctionBody { statements, result: ret },
    })
}

fn func(
    public: bool,
    name: &'static str,
    params: Vec<Parameter<'static>>,
    result: &'static str,
    statements: Vec<BodyStatement<'static>>,
    ret: Expression<'static>,
) -> Declaration<'static> {
    func_full(public, name, params, result, None, statements, ret)
}

fn main_returning(result: &'static str, ret: Expression<'static>) -> Declaration<'static> {
    func(true, "main", vec![], result, vec![], ret)
}

fn fields(fs: Vec<(&'static str, &'static str)>) -> Vec<FieldDefinition<'static>> {
    fs.into_iter().map(|(ty, n)| FieldDefinition { type_ident: ident(ty), name: ident(n) }).collect()
}

fn strukt(name: &'static str, fs: Vec<(&'static str, &'static str)>) -> Declaration<'static> {
    Declaration::Struct(StructDefinition { name: ident(name), fields: fields(fs) })
}

fn enm(name: &'static str, variants: Vec<EnumVariant<'static>>) -> Declaration<'static> {
    Declaration::Enum(EnumDefinition { name: ident(name), variants })
}

fn v_simple(n: &'static str) -> EnumVariant<'static> {
    EnumVariant::Simple { name: ident(n) }
}

fn v_assoc(n: &'static str, ty: &'static str) -> EnumVariant<'static> {
    EnumVariant::Associated { name: ident(n), type_ident: ident(ty) }
}

fn v_struct(n: &'static str, fs: Vec<(&'static str, &'static str)>) -> EnumVariant<'static> {
    EnumVariant::Structured { name: ident(n), fields: fields(fs) }
}

fn import(q: &'static str, n: &'static str, alias: Option<&'static str>) -> ImportDeclaration<'static> {
    ImportDeclaration { symbol: qname(q, n), alias: alias.map(ident) }
}

fn program(imports: Vec<ImportDeclaration<'static>>, declarations: Vec<Declaration<'static>>) -> Program<'static> {
    Program { imports, declarations }
}

fn sig_symbol(m: &str, n: &str) -> SignatureSymbol {
    SignatureSymbol { module: m.to_string(), name: n.to_string() }
}

fn catalog_with_signature(m: &str, n: &str, params: Vec<CatalogSignatureParameter>, result: CatalogTypeRef) -> CompilationCatalog {
    let mut cat = CompilationCatalog::new();
    cat.insert_signature(sig_symbol(m, n), CatalogSignature { parameters: params, result_type: result });
    cat
}

fn analyze(p: &Program, cat: &CompilationCatalog) -> Result<SemanticProgram, CompileFailure> {
    analyze_program(p, cat)
}

fn unwrap_err(res: Result<SemanticProgram, CompileFailure>) -> CompileFailure {
    match res {
        Ok(_) => panic!("expected CompileFailure, got Ok"),
        Err(e) => e,
    }
}

fn semantic(res: Result<SemanticProgram, CompileFailure>) -> SemanticFailure {
    match unwrap_err(res).kind {
        CompileFailureKind::Semantic(f) => f,
        _ => panic!("expected a semantic failure"),
    }
}

// --- Success ---

#[test]
fn semantic_program_ownership_independence() {
    let sem_prog = {
        let cat = CompilationCatalog::new();
        let prog = program(vec![], vec![main_returning("int", int_lit("42"))]);
        match analyze(&prog, &cat) {
            Ok(p) => p,
            Err(_) => panic!("analyze failed"),
        }
    };
    assert_eq!(sem_prog.functions.len(), 1);
    assert_eq!(sem_prog.entry_function.0, 0);
}

#[test]
fn entry_function_is_the_public_one() {
    let cat = CompilationCatalog::new();
    let prog = program(
        vec![],
        vec![
            func(false, "helper", vec![param("int", "x")], "int", vec![], bin(var("x"), BinaryOperator::Add, int_lit("1"))),
            func(true, "main", vec![], "int", vec![], call("helper", vec![int_lit("2")])),
        ],
    );
    let p = analyze(&prog, &cat).unwrap_or_else(|_| panic!("analysis must succeed"));
    assert_eq!(p.functions.len(), 2);
    assert_eq!(p.entry_function.0, 1);
    match &p.functions[1].body.result.kind {
        SemanticExpressionKind::Call(c) => match &c.target {
            SemanticCallTarget::Internal(f) => assert_eq!(f.0, 0),
            _ => panic!("expected an internal call"),
        },
        _ => panic!("expected a call"),
    }
}

#[test]
fn arbitrary_large_integer_dynamic() {
    let cat = CompilationCatalog::new();
    let prog = program(vec![], vec![main_returning("dynamic", int_lit("34028236692093846346337460743176821145600000000000"))]);
    let p = analyze(&prog, &cat).unwrap_or_else(|_| panic!("analysis must succeed"));
    match &p.functions[0].body.result.kind {
        SemanticExpressionKind::Literal(SemanticLiteral::Integer(s)) => {
            assert_eq!(s, "34028236692093846346337460743176821145600000000000")
        }
        _ => panic!("expected an integer literal"),
    }
}

#[test]
fn field_initializers_reordered() {
    let cat = CompilationCatalog::new();
    let prog = program(
        vec![],
        vec![
            strukt("Worker", vec![("int", "id"), ("string", "name")]),
            main_returning("Worker", construct("Worker", vec![("name", string("\"Bob\"")), ("id", int_lit("1"))])),
        ],
    );
    let p = analyze(&prog, &cat).unwrap_or_else(|_| panic!("analysis must succeed"));
    match &p.functions[0].body.result.kind {
        SemanticExpressionKind::StructConstruction { fields } => {
            assert_eq!(fields.len(), 2);
            assert_eq!(fields[0].field.0, 1);
            assert_eq!(fields[1].field.0, 0);
            match &fields[0].value.kind {
                SemanticExpressionKind::Literal(SemanticLiteral::String(s)) => assert_eq!(s, "Bob"),
                _ => panic!("expected a string literal"),
            }
        }
        _ => panic!("expected StructConstruction"),
    }
}

#[test]
fn structured_enum_fields_reordered() {
    let cat = CompilationCatalog::new();
    let prog = program(
        vec![],
        vec![
            enm("Message", vec![v_struct("Data", vec![("int", "code"), ("string", "payload")])]),
            main_returning("Message", enum_struct("Message", "Data", vec![("payload", string("\"x\"")), ("code", int_lit("7"))])),
        ],
    );
    let p = analyze(&prog, &cat).unwrap_or_else(|_| panic!("analysis must succeed"));
    match &p.functions[0].body.result.kind {
        SemanticExpressionKind::EnumConstruction { payload: SemanticEnumPayload::Structured { fields }, .. } => {
            assert_eq!(fields.len(), 2);
            assert_eq!(fields[0].field.0, 1);
            assert_eq!(fields[1].field.0, 0);
        }
        _ => panic!("expected a structured enum construction"),
    }
}

#[test]
fn when_structured_fields_reordered() {
    let cat = CompilationCatalog::new();
    let prog = program(
        vec![],
        vec![
            enm("Message", vec![v_struct("Data", vec![("int", "code"), ("string", "payload")])]),
            func(
                true,
                "main",
                vec![param("Message", "msg")],
                "int",
                vec![],
                when(var("msg"), vec![(pat_struct("Message", "Data", vec![("payload", "string", "p"), ("code", "int", "c")]), var("c"))]),
            ),
        ],
    );
    let p = analyze(&prog, &cat).unwrap_or_else(|_| panic!("analysis must succeed"));
    match &p.functions[0].body.result.kind {
        SemanticExpressionKind::When(w) => {
            assert_eq!(w.branches.len(), 1);
            match &w.branches[0].extraction {
                SemanticVariantExtraction::Structured { fields } => {
                    assert_eq!(fields.len(), 2);
                    assert_eq!(fields[0].field.0, 0);
                    assert_eq!(fields[1].field.0, 1);
                }
                _ => panic!("expected a structured extraction"),
            }
        }
        _ => panic!("expected When"),
    }
}

#[test]
fn semantic_success_integral_pipeline_and_conversions() {
    let mut cat = CompilationCatalog::new();
    cat.insert_type(
        TypeSymbol { module: "data".to_string(), name: "ExternalUser".to_string() },
        CatalogType::Struct {
            fields: vec![CatalogField { name: "id".to_string(), type_ref: CatalogTypeRef::Int64 }],
        },
    );
    cat.insert_signature(
        sig_symbol("io", "Log"),
        CatalogSignature {
            parameters: vec![CatalogSignatureParameter::Value(CatalogTypeRef::String)],
            result_type: CatalogTypeRef::Bool,
        },
    );
    let prog = program(
        vec![import("data", "ExternalUser", Some("ExtUser")), import("io", "Log", None)],
        vec![
            strukt("LocalWorker", vec![("int", "id"), ("string", "name")]),
            enm(
                "Status",
                vec![
                    v_simple("Active"),
                    v_assoc("WithId", "int"),
                    v_struct("Detailed", vec![("int", "code"), ("string", "message")]),
                ],
            ),
            func(false, "helper", vec![param("int", "x")], "int", vec![], bin(var("x"), BinaryOperator::Add, int_lit("1"))),
            func(
                true,
                "main",
                vec![param("ExtUser", "user"), dep("io", "Log", "logger")],
                "int",
                vec![
                    let_("LocalWorker", "worker", construct("LocalWorker", vec![("id", int_lit("10")), ("name", string("\"Alice\""))])),
                    let_("Status", "st", enum_struct("Status", "Detailed", vec![("code", int_lit("200")), ("message", string("\"OK\""))])),
                    let_(
                        "int",
                        "status_code",
                        when(
                            var("st"),
                            vec![
                                (pat_simple("Status", "Active"), int_lit("0")),
                                (pat_assoc("Status", "WithId", "int", "id_val"), var("id_val")),
                                (pat_struct("Status", "Detailed", vec![("code", "int", "code"), ("message", "string", "message")]), var("code")),
                            ],
                        ),
                    ),
                    let_("int", "converted", piped(int_lit("100"), vec![("to_int64", vec![]), ("to_int", vec![])])),
                    let_("int", "piped", piped(field(var("worker"), "id"), vec![("helper", vec![])])),
                ],
                bin(var("piped"), BinaryOperator::Add, var("status_code")),
            ),
        ],
    );
    let sem_prog = analyze(&prog, &cat).unwrap_or_else(|_| panic!("integral analysis must succeed"));
    assert_eq!(sem_prog.functions.len(), 2);
    assert_eq!(sem_prog.entry_function.0, 1);
    let main_fn = &sem_prog.functions[1];
    assert_eq!(main_fn.parameters.len(), 2);
    match &main_fn.parameters[0] {
        SemanticParameter::Value(bid) => assert_eq!(bid.0, 0),
        _ => panic!("expected Value parameter"),
    }
    match &main_fn.parameters[1] {
        SemanticParameter::SignatureDependency(sbid) => assert_eq!(sbid.0, 0),
        _ => panic!("expected SignatureDependency parameter"),
    }
    match &main_fn.body.statements[3] {
        SemanticStatement::Bind { value, .. } => match &value.kind {
            SemanticExpressionKind::Conversion { operand } => match &operand.kind {
                SemanticExpressionKind::Conversion { .. } => {}
                _ => panic!("expected inner Conversion"),
            },
            _ => panic!("expected outer Conversion for pipeline of conversions"),
        },
        _ => panic!("expected Bind"),
    }
    match &main_fn.body.statements[4] {
        SemanticStatement::Bind { value, .. } => match &value.kind {
            SemanticExpressionKind::Call(call) => match &call.target {
                SemanticCallTarget::Internal(fid) => assert_eq!(fid.0, 0),
                _ => panic!("expected Internal call target for piped helper"),
            },
            _ => panic!("expected Call for pipeline of function"),
        },
        _ => panic!("expected Bind"),
    }
}

#[test]
fn signature_dependency_forwarding_and_direct_call() {
    let cat = catalog_with_signature(
        "io",
        "Log",
        vec![CatalogSignatureParameter::Value(CatalogTypeRef::String)],
        CatalogTypeRef::Bool,
    );
    let prog = program(
        vec![import("io", "Log", Some("log"))],
        vec![
            func(false, "forward", vec![dep("io", "Log", "l")], "bool", vec![], call("l", vec![string("\"a\"")])),
            func(true, "main", vec![dep("io", "Log", "root_logger")], "bool", vec![], call("log", vec![string("\"b\"")])),
        ],
    );
    let p = analyze(&prog, &cat).unwrap_or_else(|_| panic!("analysis must succeed"));
    assert_eq!(p.signatures.len(), 1);
    assert_eq!(p.functions.len(), 2);
    match &p.functions[0].body.result.kind {
        SemanticExpressionKind::Call(c) => match &c.target {
            SemanticCallTarget::SignatureDependency(sbid) => assert_eq!(sbid.0, 0),
            _ => panic!("expected a signature dependency call"),
        },
        _ => panic!("expected Call"),
    }
    match &p.functions[1].body.result.kind {
        SemanticExpressionKind::Call(c) => match &c.target {
            SemanticCallTarget::DirectSignature(sid) => assert_eq!(sid.0, 0),
            _ => panic!("expected a direct signature call"),
        },
        _ => panic!("expected Call"),
    }
}

#[test]
fn signature_transitive_dependency_materialization_ids() {
    let mut cat = CompilationCatalog::new();
    cat.insert_signature(
        sig_symbol("dep", "A"),
        CatalogSignature {
            parameters: vec![CatalogSignatureParameter::SignatureDependency(sig_symbol("dep", "B"))],
            result_type: CatalogTypeRef::Int,
        },
    );
    cat.insert_signature(sig_symbol("dep", "B"), CatalogSignature { parameters: vec![], result_type: CatalogTypeRef::Int });
    let prog = program(vec![import("dep", "A", Some("run_a"))], vec![main_returning("int", int_lit("0"))]);
    let p = analyze(&prog, &cat).unwrap_or_else(|_| panic!("analysis must succeed"));
    assert_eq!(p.signatures.len(), 2);
    let a_idx = p.signatures.iter().position(|s| s.symbol.name == "A").unwrap();
    let b_idx = p.signatures.iter().position(|s| s.symbol.name == "B").unwrap();
    assert_ne!(a_idx, b_idx);
    match &p.signatures[a_idx].parameters[0] {
        SemanticSignatureParameter::SignatureDependency(sid) => assert_eq!(sid.0, b_idx),
        _ => panic!("expected a signature dependency parameter"),
    }
}

// --- Resolution ---

#[test]
fn resolution_imported_symbol_not_found() {
    let cat = CompilationCatalog::new();
    let prog = program(vec![import("math", "sqrt", None)], vec![main_returning("int", int_lit("0"))]);
    match semantic(analyze(&prog, &cat)) {
        SemanticFailure::Resolution(ResolutionFailure::ImportedSymbolNotFound { module, name }) => {
            assert_eq!(module, "math");
            assert_eq!(name, "sqrt");
        }
        _ => panic!("expected ImportedSymbolNotFound"),
    }
}

#[test]
fn resolution_unknown_type() {
    let cat = CompilationCatalog::new();
    let prog = program(vec![], vec![func(true, "main", vec![param("UnknownType", "x")], "int", vec![], int_lit("0"))]);
    match semantic(analyze(&prog, &cat)) {
        SemanticFailure::Resolution(ResolutionFailure::UnknownType { name }) => assert_eq!(name, "UnknownType"),
        _ => panic!("expected UnknownType"),
    }
}

#[test]
fn resolution_unknown_value_symbol() {
    let cat = CompilationCatalog::new();
    let prog = program(vec![], vec![main_returning("int", var("missing_var"))]);
    match semantic(analyze(&prog, &cat)) {
        SemanticFailure::Resolution(ResolutionFailure::UnknownValueSymbol { name }) => assert_eq!(name, "missing_var"),
        _ => panic!("expected UnknownValueSymbol"),
    }
}

#[test]
fn resolution_unknown_signature() {
    let cat = CompilationCatalog::new();
    let prog = program(vec![], vec![func(true, "main", vec![dep("ext", "MissingSig", "dep")], "int", vec![], int_lit("0"))]);
    match semantic(analyze(&prog, &cat)) {
        SemanticFailure::Resolution(ResolutionFailure::UnknownSignature(sym)) => {
            assert_eq!(sym.module, "ext");
            assert_eq!(sym.name, "MissingSig");
        }
        _ => panic!("expected UnknownSignature"),
    }
}

// --- Declarations ---

#[test]
fn declaration_type_name_collision() {
    let cat = CompilationCatalog::new();
    let prog = program(
        vec![],
        vec![strukt("Point", vec![("int", "x")]), strukt("Point", vec![("int", "y")]), main_returning("int", int_lit("0"))],
    );
    match semantic(analyze(&prog, &cat)) {
        SemanticFailure::Declaration(DeclarationFailure::TypeNameCollision { name }) => assert_eq!(name, "Point"),
        _ => panic!("expected TypeNameCollision"),
    }
}

#[test]
fn declaration_duplicate_function() {
    let cat = CompilationCatalog::new();
    let prog = program(
        vec![],
        vec![
            func(false, "helper", vec![], "int", vec![], int_lit("1")),
            func(false, "helper", vec![], "int", vec![], int_lit("2")),
            main_returning("int", int_lit("0")),
        ],
    );
    match semantic(analyze(&prog, &cat)) {
        SemanticFailure::Declaration(DeclarationFailure::DuplicateFunction { name }) => assert_eq!(name, "helper"),
        _ => panic!("expected DuplicateFunction"),
    }
}

#[test]
fn declaration_duplicate_field() {
    let cat = CompilationCatalog::new();
    let prog = program(vec![], vec![strukt("Worker", vec![("int", "id"), ("string", "id")]), main_returning("int", int_lit("0"))]);
    match semantic(analyze(&prog, &cat)) {
        SemanticFailure::Declaration(DeclarationFailure::DuplicateField { name }) => assert_eq!(name, "id"),
        _ => panic!("expected DuplicateField"),
    }
}

#[test]
fn declaration_duplicate_variant() {
    let cat = CompilationCatalog::new();
    let prog = program(
        vec![],
        vec![enm("Status", vec![v_simple("Active"), v_simple("Inactive"), v_simple("Active")]), main_returning("int", int_lit("0"))],
    );
    match semantic(analyze(&prog, &cat)) {
        SemanticFailure::Declaration(DeclarationFailure::DuplicateVariant { name }) => assert_eq!(name, "Active"),
        _ => panic!("expected DuplicateVariant"),
    }
}

#[test]
fn declaration_binding_name_collision() {
    let cat = CompilationCatalog::new();
    let prog = program(
        vec![],
        vec![func(true, "main", vec![param("int", "val")], "int", vec![let_("int", "val", int_lit("10"))], var("val"))],
    );
    match semantic(analyze(&prog, &cat)) {
        SemanticFailure::Declaration(DeclarationFailure::BindingNameCollision { name }) => assert_eq!(name, "val"),
        _ => panic!("expected BindingNameCollision"),
    }
}

#[test]
fn declaration_invalid_naming_convention_type() {
    let cat = CompilationCatalog::new();
    let prog = program(vec![], vec![strukt("bad_struct", vec![("int", "x")]), main_returning("int", int_lit("0"))]);
    match semantic(analyze(&prog, &cat)) {
        SemanticFailure::Declaration(DeclarationFailure::InvalidNamingConvention { role }) => {
            assert!(matches!(role, SemanticNameRole::Type))
        }
        _ => panic!("expected InvalidNamingConvention"),
    }
}

#[test]
fn declaration_invalid_naming_convention_field() {
    let cat = CompilationCatalog::new();
    let prog = program(vec![], vec![strukt("Point", vec![("int", "BadField")]), main_returning("int", int_lit("0"))]);
    match semantic(analyze(&prog, &cat)) {
        SemanticFailure::Declaration(DeclarationFailure::InvalidNamingConvention { role }) => {
            assert!(matches!(role, SemanticNameRole::Field))
        }
        _ => panic!("expected InvalidNamingConvention"),
    }
}

#[test]
fn declaration_recursive_type_cycle_direct() {
    let cat = CompilationCatalog::new();
    let prog = program(vec![], vec![strukt("Node", vec![("Node", "next")]), main_returning("int", int_lit("0"))]);
    match semantic(analyze(&prog, &cat)) {
        SemanticFailure::Declaration(DeclarationFailure::RecursiveTypeCycle) => {}
        _ => panic!("expected RecursiveTypeCycle"),
    }
}

#[test]
fn declaration_recursive_type_cycle_indirect() {
    let cat = CompilationCatalog::new();
    let prog = program(
        vec![],
        vec![
            strukt("A", vec![("B", "b")]),
            strukt("B", vec![("C", "c")]),
            strukt("C", vec![("A", "a")]),
            main_returning("int", int_lit("0")),
        ],
    );
    match semantic(analyze(&prog, &cat)) {
        SemanticFailure::Declaration(DeclarationFailure::RecursiveTypeCycle) => {}
        _ => panic!("expected RecursiveTypeCycle"),
    }
}

#[test]
fn recursive_type_cycle_through_enum_names_first_declaration() {
    let cat = CompilationCatalog::new();
    let mut prog = program(
        vec![],
        vec![
            strukt("Leaf", vec![("int", "x")]),
            enm("Tree", vec![v_assoc("Node", "Holder"), v_simple("Empty")]),
            strukt("Holder", vec![("Tree", "tree")]),
            main_returning("int", int_lit("0")),
        ],
    );
    if let Declaration::Enum(e) = &mut prog.declarations[1] {
        e.name.span = SourceSpan { start: 7, end: 11 };
    }
    let err = unwrap_err(analyze(&prog, &cat));
    assert!(matches!(
        err.kind,
        CompileFailureKind::Semantic(SemanticFailure::Declaration(DeclarationFailure::RecursiveTypeCycle))
    ));
    assert_eq!(err.source_span, SourceSpan { start: 7, end: 11 });
}

#[test]
fn nested_types_without_cycle_are_accepted() {
    let cat = CompilationCatalog::new();
    let prog = program(
        vec![],
        vec![
            strukt("Inner", vec![("int", "x")]),
            strukt("Outer", vec![("Inner", "first"), ("Inner", "second")]),
            main_returning("int", int_lit("0")),
        ],
    );
    assert!(analyze(&prog, &cat).is_ok());
}

// --- Type checking ---

#[test]
fn type_checking_binding_initialization() {
    let cat = CompilationCatalog::new();
    let prog = program(vec![], vec![func(true, "main", vec![], "int", vec![let_("int", "x", boolean("true"))], int_lit("0"))]);
    match semantic(analyze(&prog, &cat)) {
        SemanticFailure::TypeChecking(TypeCheckingFailure::BindingInitialization { expected, actual }) => {
            assert!(matches!(expected, SemanticTypeDescriptor::Native(NativeType::Int)));
            assert!(matches!(actual, SemanticTypeDescriptor::Native(NativeType::Bool)));
        }
        _ => panic!("expected BindingInitialization"),
    }
}

#[test]
fn type_checking_function_result() {
    let cat = CompilationCatalog::new();
    let prog = program(vec![], vec![main_returning("int", boolean("true"))]);
    match semantic(analyze(&prog, &cat)) {
        SemanticFailure::TypeChecking(TypeCheckingFailure::FunctionResult { expected, actual }) => {
            assert!(matches!(expected, SemanticTypeDescriptor::Native(NativeType::Int)));
            assert!(matches!(actual, SemanticTypeDescriptor::Native(NativeType::Bool)));
        }
        _ => panic!("expected FunctionResult"),
    }
}

#[test]
fn type_checking_numeric_literal_not_representable() {
    let cat = CompilationCatalog::new();
    let prog = program(vec![], vec![main_returning("int8", int_lit("500"))]);
    match semantic(analyze(&prog, &cat)) {
        SemanticFailure::TypeChecking(TypeCheckingFailure::NumericLiteralNotRepresentable { expected }) => {
            assert!(matches!(expected, SemanticTypeDescriptor::Native(NativeType::Int8)));
        }
        _ => panic!("expected NumericLiteralNotRepresentable"),
    }
}

#[test]
fn type_checking_unary_operator() {
    let cat = CompilationCatalog::new();
    let prog = program(vec![], vec![main_returning("bool", unary(UnaryOperator::Not, int_lit("10")))]);
    match semantic(analyze(&prog, &cat)) {
        SemanticFailure::TypeChecking(TypeCheckingFailure::UnaryOperator { operator, operand }) => {
            assert!(matches!(operator, UnaryOperator::Not));
            assert!(matches!(operand, SemanticTypeDescriptor::Native(NativeType::Int)));
        }
        _ => panic!("expected UnaryOperator"),
    }
}

#[test]
fn type_checking_arithmetic_operator() {
    let cat = CompilationCatalog::new();
    let prog = program(vec![], vec![main_returning("int", bin(int_lit("10"), BinaryOperator::Add, boolean("true")))]);
    match semantic(analyze(&prog, &cat)) {
        SemanticFailure::TypeChecking(TypeCheckingFailure::ArithmeticOperator { operator, left, right }) => {
            assert!(matches!(operator, BinaryOperator::Add));
            assert!(matches!(left, SemanticTypeDescriptor::Native(NativeType::Int)));
            assert!(matches!(right, SemanticTypeDescriptor::Native(NativeType::Bool)));
        }
        _ => panic!("expected ArithmeticOperator"),
    }
}

#[test]
fn type_checking_logical_operator() {
    let cat = CompilationCatalog::new();
    let prog = program(vec![], vec![main_returning("bool", bin(boolean("true"), BinaryOperator::And, int_lit("1")))]);
    match semantic(analyze(&prog, &cat)) {
        SemanticFailure::TypeChecking(TypeCheckingFailure::LogicalOperator { operator, left, right }) => {
            assert!(matches!(operator, BinaryOperator::And));
            assert!(matches!(left, SemanticTypeDescriptor::Native(NativeType::Bool)));
            assert!(matches!(right, SemanticTypeDescriptor::Native(NativeType::Int)));
        }
        _ => panic!("expected LogicalOperator"),
    }
}

#[test]
fn type_checking_comparison() {
    let cat = CompilationCatalog::new();
    let prog = program(vec![], vec![main_returning("bool", bin(int_lit("10"), BinaryOperator::Equal, boolean("true")))]);
    match semantic(analyze(&prog, &cat)) {
        SemanticFailure::TypeChecking(TypeCheckingFailure::Comparison { operator, left, right }) => {
            assert!(matches!(operator, BinaryOperator::Equal));
            assert!(matches!(left, SemanticTypeDescriptor::Native(NativeType::Int)));
            assert!(matches!(right, SemanticTypeDescriptor::Native(NativeType::Bool)));
        }
        _ => panic!("expected Comparison"),
    }
}

#[test]
fn type_checking_invalid_conversion() {
    let cat = CompilationCatalog::new();
    let prog = program(vec![], vec![main_returning("int", call("to_int", vec![boolean("true")]))]);
    match semantic(analyze(&prog, &cat)) {
        SemanticFailure::TypeChecking(TypeCheckingFailure::InvalidConversion { source, target }) => {
            assert!(matches!(source, SemanticTypeDescriptor::Native(NativeType::Bool)));
            assert!(matches!(target, SemanticTypeDescriptor::Native(NativeType::Int)));
        }
        _ => panic!("expected InvalidConversion"),
    }
}

#[test]
fn numeric_literal_signed_positive_max_and_negative_min() {
    let cat = CompilationCatalog::new();
    let with_value = |ty: &'static str, value: Expression<'static>| {
        program(vec![], vec![func(true, "main", vec![], ty, vec![let_(ty, "x", value)], var("x"))])
    };
    assert!(analyze(&with_value("int8", int_lit("127")), &cat).is_ok());
    assert!(analyze(&with_value("int8", int_lit("128")), &cat).is_err());
    assert!(analyze(&with_value("int8", unary(UnaryOperator::Negate, int_lit("128"))), &cat).is_ok());
    assert!(analyze(&with_value("int8", unary(UnaryOperator::Negate, int_lit("129"))), &cat).is_err());
    assert!(analyze(&with_value("int64", unary(UnaryOperator::Negate, int_lit("100"))), &cat).is_ok());
    assert!(analyze(&with_value("int", int_lit("2147483648")), &cat).is_err());
    match semantic(analyze(&with_value("uint8", unary(UnaryOperator::Negate, int_lit("1"))), &cat)) {
        SemanticFailure::TypeChecking(TypeCheckingFailure::UnaryOperator { .. }) => {}
        _ => panic!("expected UnaryOperator"),
    }
}

#[test]
fn floating_literal_representability_and_overflow() {
    let cat = CompilationCatalog::new();
    let with_value = |ty: &'static str, value: Expression<'static>| {
        program(vec![], vec![func(true, "main", vec![], ty, vec![let_(ty, "x", value)], var("x"))])
    };
    assert!(analyze(&with_value("float32", float("1.5")), &cat).is_ok());
    match semantic(analyze(&with_value("float32", float("1e100")), &cat)) {
        SemanticFailure::TypeChecking(TypeCheckingFailure::NumericLiteralNotRepresentable { expected }) => {
            assert!(matches!(expected, SemanticTypeDescriptor::Native(NativeType::Float32)));
        }
        _ => panic!("expected NumericLiteralNotRepresentable"),
    }
    match semantic(analyze(&with_value("float", float("1e400")), &cat)) {
        SemanticFailure::TypeChecking(TypeCheckingFailure::NumericLiteralNotRepresentable { expected }) => {
            assert!(matches!(expected, SemanticTypeDescriptor::Native(NativeType::Float)));
        }
        _ => panic!("expected NumericLiteralNotRepresentable"),
    }
    assert!(analyze(&with_value("float", float("1e308")), &cat).is_ok());
    assert!(analyze(&with_value("float32", float("3.4e38")), &cat).is_ok());
    assert!(analyze(&with_value("float32", float("3.5e38")), &cat).is_err());
    assert!(analyze(&with_value("float", float("0.000001e-400")), &cat).is_ok());
}

#[test]
fn dynamic_context_binary_arithmetic_same_type() {
    let cat = CompilationCatalog::new();
    let prog = program(
        vec![],
        vec![func(true, "main", vec![param("int8", "a"), param("int8", "b")], "dynamic", vec![], bin(var("a"), BinaryOperator::Add, var("b")))],
    );
    let p = analyze(&prog, &cat).unwrap_or_else(|_| panic!("analysis must succeed"));
    assert_eq!(p.functions[0].body.result.type_id.0, 4);
}

#[test]
fn contextual_numeric_symmetry() {
    let cat = CompilationCatalog::new();
    let one = |ty: &'static str, result: &'static str, body: Expression<'static>| {
        program(vec![], vec![func(true, "main", vec![param(ty, "x")], result, vec![], body)])
    };
    assert!(analyze(&one("int64", "bool", bin(var("x"), BinaryOperator::Equal, int_lit("1"))), &cat).is_ok());
    assert!(analyze(&one("int64", "bool", bin(int_lit("1"), BinaryOperator::Equal, var("x"))), &cat).is_ok());
    assert!(analyze(&one("float32", "float32", bin(var("x"), BinaryOperator::Add, float("1.5"))), &cat).is_ok());
    assert!(analyze(&one("float32", "float32", bin(float("1.5"), BinaryOperator::Add, var("x"))), &cat).is_ok());
}

#[test]
fn dynamic_remainder_rejects_floating_operands() {
    let cat = CompilationCatalog::new();
    let ret = |body: Expression<'static>| program(vec![], vec![main_returning("dynamic", body)]);
    assert!(analyze(&ret(bin(float("10.0"), BinaryOperator::Remainder, float("4.0"))), &cat).is_err());
    assert!(analyze(&ret(bin(int_lit("10"), BinaryOperator::Remainder, int_lit("3"))), &cat).is_ok());
}

// --- Calls ---

#[test]
fn call_function_not_found() {
    let cat = CompilationCatalog::new();
    let prog = program(vec![], vec![main_returning("int", call("nonexistent", vec![int_lit("1")]))]);
    match semantic(analyze(&prog, &cat)) {
        SemanticFailure::Call(CallFailure::FunctionNotFound { name }) => assert_eq!(name, "nonexistent"),
        _ => panic!("expected FunctionNotFound"),
    }
}

#[test]
fn call_ambiguous_target() {
    let cat = catalog_with_signature("ops", "calc", vec![CatalogSignatureParameter::Value(CatalogTypeRef::Int)], CatalogTypeRef::Int);
    let prog = program(
        vec![import("ops", "calc", None)],
        vec![
            func(false, "calc", vec![param("int", "x")], "int", vec![], var("x")),
            main_returning("int", call("calc", vec![int_lit("10")])),
        ],
    );
    match semantic(analyze(&prog, &cat)) {
        SemanticFailure::Call(CallFailure::AmbiguousTarget { name }) => assert_eq!(name, "calc"),
        _ => panic!("expected AmbiguousTarget"),
    }
}

#[test]
fn call_arity_mismatch() {
    let cat = CompilationCatalog::new();
    let prog = program(
        vec![],
        vec![
            func(false, "add", vec![param("int", "a"), param("int", "b")], "int", vec![], bin(var("a"), BinaryOperator::Add, var("b"))),
            main_returning("int", call("add", vec![int_lit("1")])),
        ],
    );
    match semantic(analyze(&prog, &cat)) {
        SemanticFailure::Call(CallFailure::ArityMismatch { expected, actual }) => {
            assert_eq!(expected, 2);
            assert_eq!(actual, 1);
        }
        _ => panic!("expected ArityMismatch"),
    }
}

#[test]
fn call_argument_kind_mismatch() {
    let cat = catalog_with_signature("ext", "Log", vec![], CatalogTypeRef::Int);
    let prog = program(
        vec![],
        vec![
            func(false, "run", vec![dep("ext", "Log", "logger")], "int", vec![], int_lit("0")),
            main_returning("int", call("run", vec![int_lit("10")])),
        ],
    );
    match semantic(analyze(&prog, &cat)) {
        SemanticFailure::Call(CallFailure::ArgumentKindMismatch { position, expected, actual }) => {
            assert_eq!(position, 0);
            assert!(matches!(expected, SemanticArgumentKind::SignatureDependency));
            assert!(matches!(actual, SemanticArgumentKind::Value));
        }
        _ => panic!("expected ArgumentKindMismatch"),
    }
}

#[test]
fn call_argument_type_mismatch() {
    let cat = CompilationCatalog::new();
    let prog = program(
        vec![],
        vec![
            func(false, "add", vec![param("int", "a"), param("int", "b")], "int", vec![], bin(var("a"), BinaryOperator::Add, var("b"))),
            main_returning("int", call("add", vec![int_lit("1"), boolean("true")])),
        ],
    );
    match semantic(analyze(&prog, &cat)) {
        SemanticFailure::Call(CallFailure::ArgumentTypeMismatch { position, expected, actual }) => {
            assert_eq!(position, 1);
            assert!(matches!(expected, SemanticTypeDescriptor::Native(NativeType::Int)));
            assert!(matches!(actual, SemanticTypeDescriptor::Native(NativeType::Bool)));
        }
        _ => panic!("expected ArgumentTypeMismatch"),
    }
}

#[test]
fn call_signature_dependency_mismatch() {
    let mut cat = catalog_with_signature("ext", "LogA", vec![], CatalogTypeRef::Int);
    cat.insert_signature(sig_symbol("ext", "LogB"), CatalogSignature { parameters: vec![], result_type: CatalogTypeRef::Int });
    let prog = program(
        vec![],
        vec![
            func(false, "helper", vec![dep("ext", "LogA", "logger")], "int", vec![], int_lit("0")),
            func(true, "main", vec![dep("ext", "LogB", "other_logger")], "int", vec![], call("helper", vec![var("other_logger")])),
        ],
    );
    match semantic(analyze(&prog, &cat)) {
        SemanticFailure::Call(CallFailure::SignatureDependencyMismatch { position, expected, actual }) => {
            assert_eq!(position, 0);
            assert_eq!(expected.name, "LogA");
            assert_eq!(actual.name, "LogB");
        }
        _ => panic!("expected SignatureDependencyMismatch"),
    }
}

#[test]
fn call_function_call_cycle_direct() {
    let cat = CompilationCatalog::new();
    let prog = program(vec![], vec![main_returning("int", call("main", vec![]))]);
    match semantic(analyze(&prog, &cat)) {
        SemanticFailure::Call(CallFailure::FunctionCallCycle) => {}
        _ => panic!("expected FunctionCallCycle"),
    }
}

#[test]
fn call_function_call_cycle_indirect() {
    let cat = CompilationCatalog::new();
    let prog = program(
        vec![],
        vec![
            func(false, "foo", vec![], "int", vec![], call("bar", vec![])),
            func(false, "bar", vec![], "int", vec![], call("foo", vec![])),
            main_returning("int", call("foo", vec![])),
        ],
    );
    match semantic(analyze(&prog, &cat)) {
        SemanticFailure::Call(CallFailure::FunctionCallCycle) => {}
        _ => panic!("expected FunctionCallCycle"),
    }
}

#[test]
fn call_chain_without_cycle_is_accepted() {
    let cat = CompilationCatalog::new();
    let prog = program(
        vec![],
        vec![
            func(false, "foo", vec![], "int", vec![], bin(call("bar", vec![]), BinaryOperator::Add, call("bar", vec![]))),
            func(false, "bar", vec![], "int", vec![], int_lit("1")),
            main_returning("int", call("foo", vec![])),
        ],
    );
    assert!(analyze(&prog, &cat).is_ok());
}

// --- Composites ---

#[test]
fn composite_expected_struct() {
    let cat = CompilationCatalog::new();
    let prog = program(vec![], vec![func(true, "main", vec![], "int", vec![let_("int", "s", construct("int", vec![("x", int_lit("1"))]))], int_lit("0"))]);
    match semantic(analyze(&prog, &cat)) {
        SemanticFailure::Composite(CompositeFailure::ExpectedStruct { .. }) => {}
        _ => panic!("expected ExpectedStruct"),
    }
}

#[test]
fn composite_field_access_type() {
    let cat = CompilationCatalog::new();
    let prog = program(vec![], vec![func(true, "main", vec![param("int", "val")], "int", vec![], field(var("val"), "field"))]);
    match semantic(analyze(&prog, &cat)) {
        SemanticFailure::Composite(CompositeFailure::FieldAccessType { .. }) => {}
        _ => panic!("expected FieldAccessType"),
    }
}

#[test]
fn composite_field_not_found() {
    let cat = CompilationCatalog::new();
    let prog = program(
        vec![],
        vec![strukt("Point", vec![("int", "x")]), func(true, "main", vec![param("Point", "p")], "int", vec![], field(var("p"), "y"))],
    );
    match semantic(analyze(&prog, &cat)) {
        SemanticFailure::Composite(CompositeFailure::FieldNotFound { field }) => assert_eq!(field, "y"),
        _ => panic!("expected FieldNotFound"),
    }
}

#[test]
fn composite_missing_field() {
    let cat = CompilationCatalog::new();
    let prog = program(
        vec![],
        vec![strukt("Point", vec![("int", "x"), ("int", "y")]), main_returning("Point", construct("Point", vec![("x", int_lit("10"))]))],
    );
    match semantic(analyze(&prog, &cat)) {
        SemanticFailure::Composite(CompositeFailure::MissingField { field }) => assert_eq!(field, "y"),
        _ => panic!("expected MissingField"),
    }
}

#[test]
fn composite_duplicate_field_initializer() {
    let cat = CompilationCatalog::new();
    let prog = program(
        vec![],
        vec![strukt("Point", vec![("int", "x")]), main_returning("Point", construct("Point", vec![("x", int_lit("10")), ("x", int_lit("20"))]))],
    );
    match semantic(analyze(&prog, &cat)) {
        SemanticFailure::Composite(CompositeFailure::DuplicateFieldInitializer { field }) => assert_eq!(field, "x"),
        _ => panic!("expected DuplicateFieldInitializer"),
    }
}

#[test]
fn composite_field_type_mismatch() {
    let cat = CompilationCatalog::new();
    let prog = program(
        vec![],
        vec![strukt("Point", vec![("int", "x")]), main_returning("Point", construct("Point", vec![("x", boolean("true"))]))],
    );
    match semantic(analyze(&prog, &cat)) {
        SemanticFailure::Composite(CompositeFailure::FieldTypeMismatch { field, .. }) => assert_eq!(field, "x"),
        _ => panic!("expected FieldTypeMismatch"),
    }
}

#[test]
fn composite_variant_not_found() {
    let cat = CompilationCatalog::new();
    let prog = program(vec![], vec![enm("State", vec![v_simple("Ready")]), main_returning("State", enum_simple("State", "Done"))]);
    match semantic(analyze(&prog, &cat)) {
        SemanticFailure::Composite(CompositeFailure::VariantNotFound { variant }) => assert_eq!(variant, "Done"),
        _ => panic!("expected VariantNotFound"),
    }
}

#[test]
fn composite_variant_payload_shape_mismatch() {
    let cat = CompilationCatalog::new();
    let prog = program(
        vec![],
        vec![enm("State", vec![v_simple("Ready"), v_assoc("Payload", "int")]), main_returning("State", enum_assoc("State", "Ready", int_lit("10")))],
    );
    match semantic(analyze(&prog, &cat)) {
        SemanticFailure::Composite(CompositeFailure::VariantPayloadShapeMismatch { .. }) => {}
        _ => panic!("expected VariantPayloadShapeMismatch"),
    }
}

#[test]
fn composite_associated_payload_type_mismatch() {
    let cat = CompilationCatalog::new();
    let prog = program(
        vec![],
        vec![enm("State", vec![v_assoc("Payload", "int")]), main_returning("State", enum_assoc("State", "Payload", boolean("true")))],
    );
    match semantic(analyze(&prog, &cat)) {
        SemanticFailure::Composite(CompositeFailure::AssociatedPayloadTypeMismatch { .. }) => {}
        _ => panic!("expected AssociatedPayloadTypeMismatch"),
    }
}

// --- When ---

#[test]
fn when_subject_not_enum() {
    let cat = CompilationCatalog::new();
    let prog = program(
        vec![],
        vec![func(true, "main", vec![param("int", "x")], "int", vec![], when(var("x"), vec![(pat_simple("State", "A"), int_lit("1"))]))],
    );
    match semantic(analyze(&prog, &cat)) {
        SemanticFailure::When(WhenFailure::SubjectNotEnum { .. }) => {}
        _ => panic!("expected SubjectNotEnum"),
    }
}

#[test]
fn when_pattern_enum_mismatch() {
    let cat = CompilationCatalog::new();
    let prog = program(
        vec![],
        vec![
            enm("A", vec![v_simple("V")]),
            enm("B", vec![v_simple("V")]),
            func(true, "main", vec![param("A", "a")], "int", vec![], when(var("a"), vec![(pat_simple("B", "V"), int_lit("1"))])),
        ],
    );
    match semantic(analyze(&prog, &cat)) {
        SemanticFailure::When(WhenFailure::PatternEnumMismatch { expected, actual }) => match (expected, actual) {
            (SemanticTypeDescriptor::Local(e), SemanticTypeDescriptor::Local(a)) => {
                assert_eq!(e, "A");
                assert_eq!(a, "B");
            }
            _ => panic!("expected local descriptors"),
        },
        _ => panic!("expected PatternEnumMismatch"),
    }
}

#[test]
fn when_duplicate_variant_correspondence() {
    let cat = CompilationCatalog::new();
    let prog = program(
        vec![],
        vec![
            enm("State", vec![v_simple("Ready"), v_simple("Done")]),
            func(
                true,
                "main",
                vec![param("State", "s")],
                "int",
                vec![],
                when(var("s"), vec![(pat_simple("State", "Ready"), int_lit("1")), (pat_simple("State", "Ready"), int_lit("2"))]),
            ),
        ],
    );
    match semantic(analyze(&prog, &cat)) {
        SemanticFailure::When(WhenFailure::DuplicateVariantCorrespondence { variant }) => assert_eq!(variant, "Ready"),
        _ => panic!("expected DuplicateVariantCorrespondence"),
    }
}

#[test]
fn when_non_exhaustive_order() {
    let cat = CompilationCatalog::new();
    let prog = program(
        vec![],
        vec![
            enm("State", vec![v_simple("Alpha"), v_simple("Beta"), v_simple("Gamma")]),
            func(true, "main", vec![param("State", "s")], "int", vec![], when(var("s"), vec![(pat_simple("State", "Beta"), int_lit("2"))])),
        ],
    );
    match semantic(analyze(&prog, &cat)) {
        SemanticFailure::When(WhenFailure::NonExhaustive { missing }) => {
            assert_eq!(missing.len(), 2);
            assert_eq!(missing[0], "Alpha");
            assert_eq!(missing[1], "Gamma");
        }
        _ => panic!("expected NonExhaustive"),
    }
}

#[test]
fn when_extraction_type_mismatch() {
    let cat = CompilationCatalog::new();
    let prog = program(
        vec![],
        vec![
            enm("State", vec![v_assoc("Payload", "int")]),
            func(
                true,
                "main",
                vec![param("State", "s")],
                "int",
                vec![],
                when(var("s"), vec![(pat_assoc("State", "Payload", "bool", "b"), int_lit("1"))]),
            ),
        ],
    );
    match semantic(analyze(&prog, &cat)) {
        SemanticFailure::When(WhenFailure::ExtractionTypeMismatch { .. }) => {}
        _ => panic!("expected ExtractionTypeMismatch"),
    }
}

#[test]
fn when_branch_result_type_mismatch() {
    let cat = CompilationCatalog::new();
    let prog = program(
        vec![],
        vec![
            enm("State", vec![v_simple("A"), v_simple("B")]),
            func(
                true,
                "main",
                vec![param("State", "s")],
                "int",
                vec![],
                when(var("s"), vec![(pat_simple("State", "A"), int_lit("1")), (pat_simple("State", "B"), boolean("true"))]),
            ),
        ],
    );
    match semantic(analyze(&prog, &cat)) {
        SemanticFailure::When(WhenFailure::BranchResultTypeMismatch { .. }) => {}
        _ => panic!("expected BranchResultTypeMismatch"),
    }
}

#[test]
fn when_branch_bindings_leave_scope() {
    let cat = CompilationCatalog::new();
    let prog = program(
        vec![],
        vec![
            enm("State", vec![v_assoc("A", "int"), v_assoc("B", "int")]),
            func(
                true,
                "main",
                vec![param("State", "s")],
                "int",
                vec![],
                when(var("s"), vec![(pat_assoc("State", "A", "int", "v"), var("v")), (pat_assoc("State", "B", "int", "v"), var("v"))]),
            ),
        ],
    );
    let p = analyze(&prog, &cat).unwrap_or_else(|_| panic!("a name may be reused by the next branch"));
    assert_eq!(p.functions[0].bindings.len(), 3);
}

// --- Signature satisfaction ---

#[test]
fn signature_mismatch_function_name() {
    let cat = catalog_with_signature("svc", "Calculate", vec![], CatalogTypeRef::Int);
    let prog = program(vec![], vec![func_full(true, "run", vec![], "int", Some(qname("svc", "Calculate")), vec![], int_lit("0"))]);
    match semantic(analyze(&prog, &cat)) {
        SemanticFailure::SignatureMismatch { signature, mismatch } => {
            assert_eq!(signature.module, "svc");
            assert_eq!(signature.name, "Calculate");
            assert!(matches!(mismatch, SignatureMismatchKind::FunctionName));
        }
        _ => panic!("expected SignatureMismatch"),
    }
}

#[test]
fn signature_mismatch_parameter_count() {
    let cat = catalog_with_signature("svc", "calc", vec![CatalogSignatureParameter::Value(CatalogTypeRef::Int)], CatalogTypeRef::Int);
    let prog = program(
        vec![],
        vec![func_full(
            true,
            "calc",
            vec![param("int", "a"), param("int", "b")],
            "int",
            Some(qname("svc", "calc")),
            vec![],
            bin(var("a"), BinaryOperator::Add, var("b")),
        )],
    );
    match semantic(analyze(&prog, &cat)) {
        SemanticFailure::SignatureMismatch { mismatch: SignatureMismatchKind::ParameterCount { expected, actual }, .. } => {
            assert_eq!(expected, 1);
            assert_eq!(actual, 2);
        }
        _ => panic!("expected ParameterCount"),
    }
}

#[test]
fn signature_mismatch_value_parameter_type() {
    let cat = catalog_with_signature("svc", "calc", vec![CatalogSignatureParameter::Value(CatalogTypeRef::Int)], CatalogTypeRef::Int);
    let prog = program(
        vec![],
        vec![func_full(true, "calc", vec![param("bool", "flag")], "int", Some(qname("svc", "calc")), vec![], int_lit("0"))],
    );
    match semantic(analyze(&prog, &cat)) {
        SemanticFailure::SignatureMismatch {
            mismatch: SignatureMismatchKind::ValueParameterType { position, expected, actual },
            ..
        } => {
            assert_eq!(position, 0);
            assert!(matches!(expected, SemanticTypeDescriptor::Native(NativeType::Int)));
            assert!(matches!(actual, SemanticTypeDescriptor::Native(NativeType::Bool)));
        }
        _ => panic!("expected ValueParameterType"),
    }
}

#[test]
fn signature_mismatch_result_type() {
    let cat = catalog_with_signature("svc", "calc", vec![], CatalogTypeRef::Int);
    let prog = program(vec![], vec![func_full(true, "calc", vec![], "bool", Some(qname("svc", "calc")), vec![], boolean("true"))]);
    match semantic(analyze(&prog, &cat)) {
        SemanticFailure::SignatureMismatch { mismatch: SignatureMismatchKind::ResultType { expected, actual }, .. } => {
            assert!(matches!(expected, SemanticTypeDescriptor::Native(NativeType::Int)));
            assert!(matches!(actual, SemanticTypeDescriptor::Native(NativeType::Bool)));
        }
        _ => panic!("expected ResultType"),
    }
}

#[test]
fn signature_satisfied_function_records_it() {
    let cat = catalog_with_signature("svc", "calc", vec![CatalogSignatureParameter::Value(CatalogTypeRef::Int)], CatalogTypeRef::Int);
    let prog = program(vec![], vec![func_full(true, "calc", vec![param("int", "a")], "int", Some(qname("svc", "calc")), vec![], var("a"))]);
    let p = analyze(&prog, &cat).unwrap_or_else(|_| panic!("analysis must succeed"));
    assert_eq!(p.functions[0].satisfaction.map(|s| s.0), Some(0));
    assert_eq!(p.signatures[0].symbol.name, "calc");
}

// --- Equality and ordering ---

#[test]
fn equality_comparison_composite_dynamic_forbidden() {
    let cat = CompilationCatalog::new();
    let prog = program(
        vec![],
        vec![
            strukt("Inner", vec![("dynamic", "d")]),
            strukt("Outer", vec![("Inner", "inner")]),
            func(true, "main", vec![param("Outer", "a"), param("Outer", "b")], "bool", vec![], bin(var("a"), BinaryOperator::Equal, var("b"))),
        ],
    );
    match semantic(analyze(&prog, &cat)) {
        SemanticFailure::TypeChecking(TypeCheckingFailure::Comparison { .. }) => {}
        _ => panic!("expected Comparison"),
    }
    let valid = program(
        vec![],
        vec![
            strukt("ValidA", vec![("int", "x"), ("string", "s")]),
            func(true, "main", vec![param("ValidA", "a"), param("ValidA", "b")], "bool", vec![], bin(var("a"), BinaryOperator::Equal, var("b"))),
        ],
    );
    assert!(analyze(&valid, &cat).is_ok());
}

#[test]
fn order_comparison_string_forbidden() {
    let cat = CompilationCatalog::new();
    let prog = program(vec![], vec![main_returning("bool", bin(string("\"a\""), BinaryOperator::Less, string("\"b\"")))]);
    match semantic(analyze(&prog, &cat)) {
        SemanticFailure::TypeChecking(TypeCheckingFailure::Comparison { .. }) => {}
        _ => panic!("expected Comparison"),
    }
    let valid = program(vec![], vec![main_returning("bool", bin(int_lit("1"), BinaryOperator::Less, int_lit("2")))]);
    assert!(analyze(&valid, &cat).is_ok());
}

#[test]
fn string_literal_escapes_are_resolved() {
    let cat = CompilationCatalog::new();
    let prog = program(vec![], vec![main_returning("string", string("\"a\\tb\\\"c\\\\\""))]);
    let p = analyze(&prog, &cat).unwrap_or_else(|_| panic!("analysis must succeed"));
    match &p.functions[0].body.result.kind {
        SemanticExpressionKind::Literal(SemanticLiteral::String(s)) => assert_eq!(s, "a\tb\"c\\"),
        _ => panic!("expected a string literal"),
    }
}

#[test]
fn catalog_enum_import_and_when() {
    let mut cat = CompilationCatalog::new();
    cat.insert_type(
        TypeSymbol { module: "app".to_string(), name: "Shape".to_string() },
        CatalogType::Enum {
            variants: vec![
                CatalogVariant::Simple { name: "Dot".to_string() },
                CatalogVariant::Associated { name: "Circle".to_string(), type_ref: CatalogTypeRef::Int },
            ],
        },
    );
    let prog = program(
        vec![import("app", "Shape", None)],
        vec![func(
            true,
            "main",
            vec![param("Shape", "s")],
            "int",
            vec![],
            when(var("s"), vec![(pat_simple("Shape", "Dot"), int_lit("0")), (pat_assoc("Shape", "Circle", "int", "r"), var("r"))]),
        )],
    );
    assert!(analyze(&prog, &cat).is_ok());
}

#[test]
fn import_alias_must_follow_naming_rule() {
    let mut cat = CompilationCatalog::new();
    cat.insert_type(
        TypeSymbol { module: "app".to_string(), name: "Point".to_string() },
        CatalogType::Struct { fields: vec![] },
    );
    let prog = program(vec![import("app", "Point", Some("bad_alias"))], vec![main_returning("int", int_lit("0"))]);
    match semantic(analyze(&prog, &cat)) {
        SemanticFailure::Declaration(DeclarationFailure::InvalidNamingConvention { role }) => {
            assert!(matches!(role, SemanticNameRole::Type))
        }
        _ => panic!("expected InvalidNamingConvention"),
    }
}

// --- Further cases of the analysis rules ---

fn dynamic_index(p: &SemanticProgram) -> usize {
    p.types
        .iter()
        .position(|t| matches!(t, evo_script_engine::semantic::SemanticType::Native(NativeType::Dynamic)))
        .unwrap_or_else(|| panic!("the dynamic type is always present"))
}

fn type_checking(res: Result<SemanticProgram, CompileFailure>) -> TypeCheckingFailure {
    match semantic(res) {
        SemanticFailure::TypeChecking(f) => f,
        _ => panic!("expected a type checking failure"),
    }
}

fn naming_role(res: Result<SemanticProgram, CompileFailure>) -> SemanticNameRole {
    match semantic(res) {
        SemanticFailure::Declaration(DeclarationFailure::InvalidNamingConvention { role }) => role,
        _ => panic!("expected InvalidNamingConvention"),
    }
}

#[test]
fn call_graph_internal_vs_direct_sig_ambiguity_no_premature_cycle() {
    let cat = catalog_with_signature("ops", "work", vec![], CatalogTypeRef::Int);
    let prog = program(
        vec![import("ops", "work", None)],
        vec![
            func(false, "work", vec![], "int", vec![], call("work", vec![])),
            main_returning("int", int_lit("0")),
        ],
    );
    match semantic(analyze(&prog, &cat)) {
        SemanticFailure::Call(CallFailure::AmbiguousTarget { name }) => assert_eq!(name, "work"),
        _ => panic!("expected AmbiguousTarget"),
    }
}

#[test]
fn call_multiple_direct_signatures_same_local_name() {
    let mut cat = catalog_with_signature("a", "save", vec![], CatalogTypeRef::Int);
    cat.insert_signature(sig_symbol("b", "save"), CatalogSignature { parameters: vec![], result_type: CatalogTypeRef::Int });
    let prog = program(
        vec![import("a", "save", None), import("b", "save", None)],
        vec![main_returning("int", call("save", vec![]))],
    );
    match semantic(analyze(&prog, &cat)) {
        SemanticFailure::Call(CallFailure::AmbiguousTarget { name }) => assert_eq!(name, "save"),
        _ => panic!("expected AmbiguousTarget"),
    }
}

#[test]
fn dynamic_rejects_nonnumeric() {
    let cat = CompilationCatalog::new();
    let bool_let = program(vec![], vec![func(true, "main", vec![], "int", vec![let_("dynamic", "x", boolean("true"))], int_lit("0"))]);
    assert!(matches!(type_checking(analyze(&bool_let, &cat)), TypeCheckingFailure::BindingInitialization { .. }));
    let string_let = program(vec![], vec![func(true, "main", vec![], "int", vec![let_("dynamic", "x", string("\"hello\""))], int_lit("0"))]);
    assert!(matches!(type_checking(analyze(&string_let, &cat)), TypeCheckingFailure::BindingInitialization { .. }));
    let bool_result = program(vec![], vec![main_returning("dynamic", boolean("true"))]);
    assert!(matches!(type_checking(analyze(&bool_result, &cat)), TypeCheckingFailure::FunctionResult { .. }));
    let string_result = program(vec![], vec![main_returning("dynamic", string("\"hello\""))]);
    assert!(matches!(type_checking(analyze(&string_result, &cat)), TypeCheckingFailure::FunctionResult { .. }));
}

#[test]
fn fixed_numeric_value_to_dynamic() {
    let cat = CompilationCatalog::new();
    let let_int8 = program(vec![], vec![func(true, "main", vec![param("int8", "source")], "dynamic", vec![let_("dynamic", "x", var("source"))], var("x"))]);
    assert!(analyze(&let_int8, &cat).is_ok());
    let return_int8 = program(vec![], vec![func(true, "main", vec![param("int8", "value")], "dynamic", vec![], var("value"))]);
    assert!(analyze(&return_int8, &cat).is_ok());
    let let_float32 = program(vec![], vec![func(true, "main", vec![param("float32", "source")], "dynamic", vec![let_("dynamic", "x", var("source"))], var("x"))]);
    assert!(analyze(&let_float32, &cat).is_ok());
}

fn consume_function() -> Declaration<'static> {
    func(false, "consume", vec![param("dynamic", "value")], "dynamic", vec![], var("value"))
}

#[test]
fn dynamic_call_argument() {
    let cat = CompilationCatalog::new();
    let accepted = program(vec![], vec![consume_function(), func(true, "main", vec![param("int8", "value")], "dynamic", vec![], call("consume", vec![var("value")]))]);
    assert!(analyze(&accepted, &cat).is_ok());
    let refused = program(vec![], vec![consume_function(), func(true, "main", vec![param("bool", "value")], "dynamic", vec![], call("consume", vec![var("value")]))]);
    assert!(matches!(semantic(analyze(&refused, &cat)), SemanticFailure::Call(CallFailure::ArgumentTypeMismatch { .. })));
}

#[test]
fn dynamic_pipeline_argument() {
    let cat = CompilationCatalog::new();
    let prog = program(vec![], vec![consume_function(), func(true, "main", vec![param("int8", "value")], "dynamic", vec![], piped(var("value"), vec![("consume", vec![])]))]);
    assert!(analyze(&prog, &cat).is_ok());
}

#[test]
fn dynamic_composite_fields() {
    let cat = CompilationCatalog::new();
    let accepted = program(
        vec![],
        vec![strukt("Holder", vec![("dynamic", "value")]), func(true, "main", vec![param("int8", "source")], "Holder", vec![], construct("Holder", vec![("value", var("source"))]))],
    );
    assert!(analyze(&accepted, &cat).is_ok());
    let refused = program(
        vec![],
        vec![strukt("Holder", vec![("dynamic", "value")]), func(true, "main", vec![], "Holder", vec![], construct("Holder", vec![("value", boolean("true"))]))],
    );
    assert!(matches!(semantic(analyze(&refused, &cat)), SemanticFailure::Composite(CompositeFailure::FieldTypeMismatch { .. })));
}

#[test]
fn dynamic_enum_payload() {
    let cat = CompilationCatalog::new();
    let assoc_ok = program(
        vec![],
        vec![enm("Result", vec![v_assoc("Value", "dynamic")]), func(true, "main", vec![param("int8", "source")], "Result", vec![], enum_assoc("Result", "Value", var("source")))],
    );
    assert!(analyze(&assoc_ok, &cat).is_ok());
    let assoc_bad = program(
        vec![],
        vec![enm("Result", vec![v_assoc("Value", "dynamic")]), func(true, "main", vec![], "Result", vec![], enum_assoc("Result", "Value", boolean("true")))],
    );
    assert!(matches!(semantic(analyze(&assoc_bad, &cat)), SemanticFailure::Composite(CompositeFailure::AssociatedPayloadTypeMismatch { .. })));
    let struct_ok = program(
        vec![],
        vec![enm("Container", vec![v_struct("Item", vec![("dynamic", "val")])]), func(true, "main", vec![param("int8", "source")], "Container", vec![], enum_struct("Container", "Item", vec![("val", var("source"))]))],
    );
    assert!(analyze(&struct_ok, &cat).is_ok());
    let struct_bad = program(
        vec![],
        vec![enm("Container", vec![v_struct("Item", vec![("dynamic", "val")])]), func(true, "main", vec![], "Container", vec![], enum_struct("Container", "Item", vec![("val", boolean("true"))]))],
    );
    assert!(matches!(semantic(analyze(&struct_bad, &cat)), SemanticFailure::Composite(CompositeFailure::FieldTypeMismatch { .. })));
}

fn three_int8() -> Vec<evo_script_engine::ast::Parameter<'static>> {
    vec![param("int8", "a"), param("int8", "b"), param("int8", "c")]
}

#[test]
fn nested_dynamic_arithmetic_trees() {
    let cat = CompilationCatalog::new();
    let left_nested = program(vec![], vec![func(true, "main", three_int8(), "dynamic", vec![], bin(bin(var("a"), BinaryOperator::Add, var("b")), BinaryOperator::Add, var("c")))]);
    let p1 = analyze(&left_nested, &cat).unwrap_or_else(|_| panic!("(a + b) + c under dynamic should succeed"));
    let dyn_id = dynamic_index(&p1);
    assert_eq!(p1.functions[0].body.result.type_id.0, dyn_id);
    match &p1.functions[0].body.result.kind {
        SemanticExpressionKind::Binary { left, right, .. } => {
            assert_eq!(left.type_id.0, dyn_id);
            assert!(matches!(left.kind, SemanticExpressionKind::Binary { .. }));
            assert_ne!(right.type_id.0, dyn_id);
        }
        _ => panic!("expected outer Binary"),
    }
    let right_nested = program(vec![], vec![func(true, "main", three_int8(), "dynamic", vec![], bin(var("a"), BinaryOperator::Add, bin(var("b"), BinaryOperator::Add, var("c"))))]);
    let p2 = analyze(&right_nested, &cat).unwrap_or_else(|_| panic!("a + (b + c) under dynamic should succeed"));
    assert_eq!(p2.functions[0].body.result.type_id.0, dyn_id);
    match &p2.functions[0].body.result.kind {
        SemanticExpressionKind::Binary { left, right, .. } => {
            assert_ne!(left.type_id.0, dyn_id);
            assert_eq!(right.type_id.0, dyn_id);
            assert!(matches!(right.kind, SemanticExpressionKind::Binary { .. }));
        }
        _ => panic!("expected outer Binary"),
    }
}

#[test]
fn when_numeric_fixed_branches_to_dynamic() {
    let cat = CompilationCatalog::new();
    let choice = || enm("Choice", vec![v_simple("A"), v_simple("B")]);
    let prog = program(
        vec![],
        vec![
            choice(),
            func(
                true,
                "main",
                vec![param("Choice", "choice"), param("int8", "a"), param("int8", "b")],
                "dynamic",
                vec![],
                when(var("choice"), vec![(pat_simple("Choice", "A"), var("a")), (pat_simple("Choice", "B"), var("b"))]),
            ),
        ],
    );
    let p = analyze(&prog, &cat).unwrap_or_else(|_| panic!("when branches to dynamic should succeed"));
    assert_eq!(p.functions[0].body.result.type_id.0, dynamic_index(&p));
    let refused = program(
        vec![],
        vec![
            choice(),
            func(
                true,
                "main",
                vec![param("Choice", "choice"), param("int8", "a")],
                "dynamic",
                vec![],
                when(var("choice"), vec![(pat_simple("Choice", "A"), var("a")), (pat_simple("Choice", "B"), boolean("true"))]),
            ),
        ],
    );
    assert!(matches!(semantic(analyze(&refused, &cat)), SemanticFailure::When(WhenFailure::BranchResultTypeMismatch { .. })));
}

fn remainder_refused(params: Vec<evo_script_engine::ast::Parameter<'static>>, e: Expression<'static>) {
    let cat = CompilationCatalog::new();
    let prog = program(vec![], vec![func(true, "main", params, "dynamic", vec![], e)]);
    assert!(matches!(type_checking(analyze(&prog, &cat)), TypeCheckingFailure::ArithmeticOperator { .. }));
}

fn rem(l: Expression<'static>, r: Expression<'static>) -> Expression<'static> {
    bin(l, BinaryOperator::Remainder, r)
}

#[test]
fn dynamic_remainder_domain_and_floating_rejection() {
    let cat = CompilationCatalog::new();
    remainder_refused(vec![], rem(float("10.0"), float("4.0")));
    remainder_refused(vec![param("float32", "a"), param("float32", "b")], rem(var("a"), var("b")));
    remainder_refused(vec![], rem(float("1e10"), float("2e3")));
    remainder_refused(vec![], rem(unary(UnaryOperator::Negate, float("10.0")), float("4.0")));
    remainder_refused(vec![], rem(bin(float("1.0"), BinaryOperator::Add, float("2.0")), float("3.0")));

    let fixed = program(vec![], vec![func(true, "main", vec![param("int8", "a"), param("int8", "b")], "dynamic", vec![], rem(var("a"), var("b")))]);
    let pf = analyze(&fixed, &cat).unwrap_or_else(|_| panic!("fixed integer remainder under dynamic should succeed"));
    let dyn_id = dynamic_index(&pf);
    assert_eq!(pf.functions[0].body.result.type_id.0, dyn_id);

    let literals = program(vec![], vec![main_returning("dynamic", rem(int_lit("10"), int_lit("3")))]);
    assert!(analyze(&literals, &cat).is_ok());
    let both_dynamic = program(vec![], vec![func(true, "main", vec![param("dynamic", "a"), param("dynamic", "b")], "dynamic", vec![], rem(var("a"), var("b")))]);
    assert!(analyze(&both_dynamic, &cat).is_ok());
    let dynamic_and_int8 = program(vec![], vec![func(true, "main", vec![param("dynamic", "a"), param("int8", "b")], "dynamic", vec![], rem(var("a"), var("b")))]);
    assert!(analyze(&dynamic_and_int8, &cat).is_ok());
    remainder_refused(vec![param("dynamic", "a"), param("float32", "b")], rem(var("a"), var("b")));

    let sum = program(vec![], vec![func(true, "main", three_int8(), "dynamic", vec![], rem(bin(var("a"), BinaryOperator::Add, var("b")), var("c")))]);
    let ps = analyze(&sum, &cat).unwrap_or_else(|_| panic!("(a + b) % c under dynamic should succeed"));
    assert_eq!(ps.functions[0].body.result.type_id.0, dyn_id);

    let nested_fields = program(
        vec![],
        vec![
            strukt("Inner", vec![("float", "value")]),
            strukt("Outer", vec![("Inner", "inner")]),
            func(
                true,
                "main",
                vec![param("Outer", "a"), param("Outer", "b")],
                "dynamic",
                vec![],
                rem(bin(field(field(var("a"), "inner"), "value"), BinaryOperator::Add, field(field(var("b"), "inner"), "value")), int_lit("3")),
            ),
        ],
    );
    assert!(matches!(type_checking(analyze(&nested_fields, &cat)), TypeCheckingFailure::ArithmeticOperator { .. }));

    let float_calls = program(
        vec![],
        vec![
            strukt("Inner", vec![("float", "value")]),
            strukt("Outer", vec![("Inner", "inner")]),
            func(false, "get_value", vec![param("Outer", "value")], "float", vec![], field(field(var("value"), "inner"), "value")),
            func(
                true,
                "main",
                vec![param("Outer", "a"), param("Outer", "b")],
                "dynamic",
                vec![],
                rem(bin(call("get_value", vec![var("a")]), BinaryOperator::Add, call("get_value", vec![var("b")])), int_lit("3")),
            ),
        ],
    );
    assert!(matches!(type_checking(analyze(&float_calls, &cat)), TypeCheckingFailure::ArithmeticOperator { .. }));

    let dynamic_call = program(
        vec![],
        vec![
            func(false, "unknown", vec![param("float32", "source")], "dynamic", vec![], var("source")),
            func(
                true,
                "main",
                vec![param("float32", "source"), param("dynamic", "divisor")],
                "dynamic",
                vec![],
                rem(call("unknown", vec![var("source")]), var("divisor")),
            ),
        ],
    );
    assert!(analyze(&dynamic_call, &cat).is_ok());
}

#[test]
fn to_string_domain_restrictions() {
    let cat = CompilationCatalog::new();
    let of = |ty: &'static str| program(vec![], vec![func(true, "main", vec![param(ty, "value")], "string", vec![], call("to_string", vec![var("value")]))]);
    assert!(analyze(&of("int8"), &cat).is_ok());
    assert!(analyze(&of("dynamic"), &cat).is_ok());
    assert!(matches!(type_checking(analyze(&of("bool"), &cat)), TypeCheckingFailure::InvalidConversion { .. }));
    assert!(matches!(type_checking(analyze(&of("string"), &cat)), TypeCheckingFailure::InvalidConversion { .. }));
}

fn getters() -> Vec<Declaration<'static>> {
    vec![
        func(false, "get_name", vec![], "string", vec![], string("\"A\"")),
        func(false, "get_age", vec![], "int", vec![], int_lit("10")),
    ]
}

#[test]
fn struct_construction_preserves_source_evaluation_order() {
    let cat = CompilationCatalog::new();
    let mut decls = vec![strukt("Worker", vec![("int", "age"), ("string", "name")])];
    decls.extend(getters());
    decls.push(func(true, "main", vec![], "Worker", vec![], construct("Worker", vec![("name", call("get_name", vec![])), ("age", call("get_age", vec![]))])));
    let p = analyze(&program(vec![], decls), &cat).unwrap_or_else(|_| panic!("struct construction should succeed"));
    let main_fn = p.functions.last().unwrap_or_else(|| panic!("main exists"));
    match &main_fn.body.result.kind {
        SemanticExpressionKind::StructConstruction { fields } => {
            assert_eq!(fields.len(), 2);
            assert_eq!(fields[0].field.0, 1);
            assert_eq!(fields[1].field.0, 0);
            match &fields[0].value.kind {
                SemanticExpressionKind::Call(c) => assert!(matches!(c.target, SemanticCallTarget::Internal(f) if f.0 == 0)),
                _ => panic!("expected call for get_name"),
            }
            match &fields[1].value.kind {
                SemanticExpressionKind::Call(c) => assert!(matches!(c.target, SemanticCallTarget::Internal(f) if f.0 == 1)),
                _ => panic!("expected call for get_age"),
            }
        }
        _ => panic!("expected StructConstruction"),
    }
}

#[test]
fn structured_enum_construction_preserves_source_evaluation_order() {
    let cat = CompilationCatalog::new();
    let mut decls = vec![enm("Event", vec![v_struct("Data", vec![("int", "code"), ("string", "message")])])];
    decls.extend(getters());
    decls.push(func(
        true,
        "main",
        vec![],
        "Event",
        vec![],
        enum_struct("Event", "Data", vec![("message", call("get_name", vec![])), ("code", call("get_age", vec![]))]),
    ));
    let p = analyze(&program(vec![], decls), &cat).unwrap_or_else(|_| panic!("structured enum construction should succeed"));
    let main_fn = p.functions.last().unwrap_or_else(|| panic!("main exists"));
    match &main_fn.body.result.kind {
        SemanticExpressionKind::EnumConstruction { payload: SemanticEnumPayload::Structured { fields }, .. } => {
            assert_eq!(fields.len(), 2);
            assert_eq!(fields[0].field.0, 1);
            assert_eq!(fields[1].field.0, 0);
        }
        _ => panic!("expected a structured EnumConstruction"),
    }
}

#[test]
fn declaration_invalid_naming_convention_variant() {
    let cat = CompilationCatalog::new();
    let prog = program(vec![], vec![enm("State", vec![v_simple("bad_variant")]), main_returning("int", int_lit("0"))]);
    assert!(matches!(naming_role(analyze(&prog, &cat)), SemanticNameRole::Variant));
}

#[test]
fn declaration_invalid_naming_convention_function() {
    let cat = CompilationCatalog::new();
    let prog = program(vec![], vec![func(true, "Main", vec![], "int", vec![], int_lit("0"))]);
    assert!(matches!(naming_role(analyze(&prog, &cat)), SemanticNameRole::Function));
}

#[test]
fn declaration_invalid_naming_convention_binding() {
    let cat = CompilationCatalog::new();
    let prog = program(vec![], vec![func(true, "main", vec![param("int", "BadParam")], "int", vec![], int_lit("0"))]);
    assert!(matches!(naming_role(analyze(&prog, &cat)), SemanticNameRole::Binding));
}

#[test]
fn declaration_invalid_naming_convention_signature_alias() {
    let cat = catalog_with_signature("svc", "op", vec![], CatalogTypeRef::Int);
    let prog = program(vec![import("svc", "op", Some("BadAlias"))], vec![main_returning("int", int_lit("0"))]);
    assert!(matches!(naming_role(analyze(&prog, &cat)), SemanticNameRole::SignatureAlias));
}

#[test]
fn declaration_invalid_naming_convention_signature_dependency() {
    let cat = catalog_with_signature("svc", "Op", vec![], CatalogTypeRef::Int);
    let prog = program(vec![], vec![func(true, "main", vec![dep("svc", "Op", "BadDep")], "int", vec![], int_lit("0"))]);
    assert!(matches!(naming_role(analyze(&prog, &cat)), SemanticNameRole::SignatureDependency));
}

fn when_on_state(variants: Vec<EnumVariant<'static>>, arms: Vec<(WhenPattern<'static>, Expression<'static>)>) -> Program<'static> {
    program(vec![], vec![enm("State", variants), func(true, "main", vec![param("State", "s")], "int", vec![], when(var("s"), arms))])
}

#[test]
fn when_variant_not_found() {
    let cat = CompilationCatalog::new();
    let prog = when_on_state(vec![v_simple("Ready")], vec![(pat_simple("State", "Unknown"), int_lit("1"))]);
    match semantic(analyze(&prog, &cat)) {
        SemanticFailure::When(WhenFailure::VariantNotFound { variant }) => assert_eq!(variant, "Unknown"),
        _ => panic!("expected VariantNotFound"),
    }
}

#[test]
fn when_payload_shape_mismatch() {
    let cat = CompilationCatalog::new();
    let prog = when_on_state(
        vec![v_simple("Ready"), v_assoc("Payload", "int")],
        vec![(pat_assoc("State", "Ready", "int", "x"), int_lit("1")), (pat_assoc("State", "Payload", "int", "x"), int_lit("2"))],
    );
    match semantic(analyze(&prog, &cat)) {
        SemanticFailure::When(WhenFailure::PayloadShapeMismatch { expected, actual }) => {
            assert!(matches!(expected, evo_script_engine::failures::EnumPayloadShape::Simple));
            assert!(matches!(actual, evo_script_engine::failures::EnumPayloadShape::Associated));
        }
        _ => panic!("expected PayloadShapeMismatch"),
    }
}

#[test]
fn when_duplicate_field() {
    let cat = CompilationCatalog::new();
    let prog = when_on_state(
        vec![v_struct("Item", vec![("int", "code"), ("string", "msg")])],
        vec![(pat_struct("State", "Item", vec![("code", "int", "c"), ("code", "int", "c2")]), var("c"))],
    );
    match semantic(analyze(&prog, &cat)) {
        SemanticFailure::When(WhenFailure::DuplicateField { field }) => assert_eq!(field, "code"),
        _ => panic!("expected DuplicateField"),
    }
}

#[test]
fn when_field_not_found() {
    let cat = CompilationCatalog::new();
    let prog = when_on_state(
        vec![v_struct("Item", vec![("int", "code")])],
        vec![(pat_struct("State", "Item", vec![("unknown", "int", "u")]), var("u"))],
    );
    match semantic(analyze(&prog, &cat)) {
        SemanticFailure::When(WhenFailure::FieldNotFound { field }) => assert_eq!(field, "unknown"),
        _ => panic!("expected FieldNotFound"),
    }
}

#[test]
fn when_missing_field() {
    let cat = CompilationCatalog::new();
    let prog = when_on_state(
        vec![v_struct("Item", vec![("int", "code"), ("string", "msg")])],
        vec![(pat_struct("State", "Item", vec![("code", "int", "c")]), var("c"))],
    );
    match semantic(analyze(&prog, &cat)) {
        SemanticFailure::When(WhenFailure::MissingField { field }) => assert_eq!(field, "msg"),
        _ => panic!("expected MissingField"),
    }
}

#[test]
fn signature_mismatch_parameter_kind() {
    let cat = catalog_with_signature("svc", "calc", vec![CatalogSignatureParameter::Value(CatalogTypeRef::Int)], CatalogTypeRef::Int);
    let prog = program(vec![], vec![func_full(true, "calc", vec![dep("svc", "calc", "dep")], "int", Some(qname("svc", "calc")), vec![], int_lit("0"))]);
    match semantic(analyze(&prog, &cat)) {
        SemanticFailure::SignatureMismatch { mismatch: SignatureMismatchKind::ParameterKind { position, expected, actual }, .. } => {
            assert_eq!(position, 0);
            assert!(matches!(expected, SemanticArgumentKind::Value));
            assert!(matches!(actual, SemanticArgumentKind::SignatureDependency));
        }
        _ => panic!("expected ParameterKind mismatch"),
    }
}

#[test]
fn signature_mismatch_signature_dependency() {
    let mut cat = catalog_with_signature("svc", "DepA", vec![], CatalogTypeRef::Bool);
    cat.insert_signature(sig_symbol("svc", "DepB"), CatalogSignature { parameters: vec![], result_type: CatalogTypeRef::Bool });
    cat.insert_signature(
        sig_symbol("svc", "runner"),
        CatalogSignature { parameters: vec![CatalogSignatureParameter::SignatureDependency(sig_symbol("svc", "DepA"))], result_type: CatalogTypeRef::Int },
    );
    let prog = program(vec![], vec![func_full(true, "runner", vec![dep("svc", "DepB", "dep")], "int", Some(qname("svc", "runner")), vec![], int_lit("0"))]);
    match semantic(analyze(&prog, &cat)) {
        SemanticFailure::SignatureMismatch { mismatch: SignatureMismatchKind::SignatureDependency { position, expected, actual }, .. } => {
            assert_eq!(position, 0);
            assert_eq!(expected.name, "DepA");
            assert_eq!(actual.name, "DepB");
        }
        _ => panic!("expected SignatureDependency mismatch"),
    }
}

// --- Which names a program may use ---

fn catalog_with_struct(m: &str, n: &str) -> CompilationCatalog {
    let mut cat = CompilationCatalog::new();
    cat.insert_type(TypeSymbol { module: m.to_string(), name: n.to_string() }, CatalogType::Struct { fields: vec![] });
    cat
}

#[test]
fn local_type_may_not_take_an_imported_name() {
    let cat = catalog_with_struct("app", "Point");
    let prog = program(
        vec![import("app", "Point", None)],
        vec![strukt("Point", vec![("int", "x")]), main_returning("int", int_lit("0"))],
    );
    match semantic(analyze(&prog, &cat)) {
        SemanticFailure::Declaration(DeclarationFailure::TypeNameCollision { name }) => assert_eq!(name, "Point"),
        _ => panic!("expected TypeNameCollision"),
    }
}

#[test]
fn local_type_under_an_alias_free_name_is_accepted() {
    let cat = catalog_with_struct("app", "Point");
    let prog = program(
        vec![import("app", "Point", Some("SharedPoint"))],
        vec![strukt("Point", vec![("int", "x")]), main_returning("int", int_lit("0"))],
    );
    assert!(analyze(&prog, &cat).is_ok());
}

#[test]
fn two_imports_may_not_share_a_type_name() {
    let mut cat = catalog_with_struct("app", "Point");
    cat.insert_type(TypeSymbol { module: "geo".to_string(), name: "Point".to_string() }, CatalogType::Struct { fields: vec![] });
    let prog = program(vec![import("app", "Point", None), import("geo", "Point", None)], vec![main_returning("int", int_lit("0"))]);
    match semantic(analyze(&prog, &cat)) {
        SemanticFailure::Declaration(DeclarationFailure::TypeNameCollision { name }) => assert_eq!(name, "Point"),
        _ => panic!("expected TypeNameCollision"),
    }
}

#[test]
fn field_of_unknown_type_is_refused() {
    let cat = CompilationCatalog::new();
    let prog = program(vec![], vec![strukt("Worker", vec![("Missing", "id")]), main_returning("int", int_lit("0"))]);
    match semantic(analyze(&prog, &cat)) {
        SemanticFailure::Resolution(ResolutionFailure::UnknownType { name }) => assert_eq!(name, "Missing"),
        _ => panic!("expected UnknownType"),
    }
}

#[test]
fn parameter_names_must_differ() {
    let cat = CompilationCatalog::new();
    let prog = program(
        vec![],
        vec![
            func(false, "pair", vec![param("int", "a"), param("string", "a")], "int", vec![], int_lit("1")),
            main_returning("int", int_lit("0")),
        ],
    );
    match semantic(analyze(&prog, &cat)) {
        SemanticFailure::Declaration(DeclarationFailure::BindingNameCollision { name }) => assert_eq!(name, "a"),
        _ => panic!("expected BindingNameCollision"),
    }
}

#[test]
fn functions_returning_parameters_are_accepted() {
    let cat = CompilationCatalog::new();
    let prog = program(
        vec![],
        vec![
            func(false, "identity", vec![param("int", "x")], "int", vec![], var("x")),
            func(true, "main", vec![param("string", "s")], "string", vec![], var("s")),
        ],
    );
    let p = analyze(&prog, &cat).unwrap_or_else(|_| panic!("expected success"));
    assert_eq!(p.functions.len(), 2);
    assert_eq!(p.entry_function.0, 1);
}

#[test]
fn returning_a_parameter_of_another_type_is_refused() {
    let cat = CompilationCatalog::new();
    let prog = program(vec![], vec![func(true, "main", vec![param("string", "s")], "int", vec![], var("s"))]);
    match type_checking(analyze(&prog, &cat)) {
        TypeCheckingFailure::FunctionResult { .. } => {}
        _ => panic!("expected FunctionResult"),
    }
}

#[test]
fn main_returning_an_integer_literal_is_accepted() {
    let cat = CompilationCatalog::new();
    let prog = program(vec![], vec![main_returning("int", int_lit("42"))]);
    let p = analyze(&prog, &cat).unwrap_or_else(|_| panic!("expected success"));
    assert_eq!(p.functions.len(), 1);
    assert_eq!(p.entry_function.0, 0);
    assert!(matches!(p.types[2], evo_script_engine::semantic::SemanticType::Native(NativeType::Bool)));
}

#[test]
fn a_native_result_type_is_that_native_type() {
    let cat = CompilationCatalog::new();
    let prog = program(vec![], vec![main_returning("bool", boolean("true"))]);
    let p = analyze(&prog, &cat).unwrap_or_else(|_| panic!("expected success"));
    assert_eq!(p.functions[0].result_type.0, 2);
    assert!(matches!(p.functions[0].body.result.kind, SemanticExpressionKind::Literal(_)));
}

#[test]
fn a_literal_beside_a_name_takes_the_name_type() {
    let cat = CompilationCatalog::new();
    let prog = program(
        vec![],
        vec![func(true, "main", vec![param("int8", "x")], "int8", vec![], bin(int_lit("1"), BinaryOperator::Add, var("x")))],
    );
    let p = analyze(&prog, &cat).unwrap_or_else(|_| panic!("expected success"));
    assert_eq!(p.functions[0].body.result.type_id.0, 5);
}

#[test]
fn lets_of_literals_then_a_name_are_accepted() {
    let cat = CompilationCatalog::new();
    let prog = program(
        vec![],
        vec![func(
            true,
            "main",
            vec![],
            "int",
            vec![let_("int", "first", int_lit("5")), let_("int", "second", var("first"))],
            var("second"),
        )],
    );
    let p = analyze(&prog, &cat).unwrap_or_else(|_| panic!("expected success"));
    assert_eq!(p.functions[0].body.statements.len(), 2);
}

#[test]
fn let_of_an_integer_under_bool_is_refused() {
    let cat = CompilationCatalog::new();
    let prog = program(
        vec![],
        vec![func(true, "main", vec![], "int", vec![let_("bool", "flag", int_lit("5"))], int_lit("0"))],
    );
    match semantic(analyze(&prog, &cat)) {
        SemanticFailure::TypeChecking(TypeCheckingFailure::BindingInitialization { expected, .. }) => {
            assert!(matches!(expected, SemanticTypeDescriptor::Native(NativeType::Bool)))
        },
        _ => panic!("expected BindingInitialization"),
    }
}

#[test]
fn the_first_repeated_initializer_is_reported() {
    let cat = CompilationCatalog::new();
    let prog = program(
        vec![],
        vec![
            strukt("Pair", vec![("int", "a"), ("int", "b")]),
            main_returning(
                "Pair",
                construct("Pair", vec![("b", int_lit("1")), ("a", int_lit("2")), ("a", int_lit("3")), ("b", int_lit("4"))]),
            ),
        ],
    );
    match semantic(analyze(&prog, &cat)) {
        SemanticFailure::Composite(CompositeFailure::DuplicateFieldInitializer { field }) => assert_eq!(field, "a"),
        _ => panic!("expected DuplicateFieldInitializer"),
    }
}

#[test]
fn an_associated_literal_payload_is_accepted() {
    let cat = CompilationCatalog::new();
    let prog = program(
        vec![],
        vec![enm("Reading", vec![v_assoc("Value", "int")]), main_returning("Reading", enum_assoc("Reading", "Value", int_lit("10")))],
    );
    assert!(analyze(&prog, &cat).is_ok());
}

#[test]
fn a_call_with_literal_arguments_is_accepted() {
    let cat = CompilationCatalog::new();
    let prog = program(
        vec![],
        vec![
            func(false, "first", vec![param("int", "a"), param("int", "b")], "int", vec![], var("a")),
            main_returning("int", call("first", vec![int_lit("1"), int_lit("2")])),
        ],
    );
    assert!(analyze(&prog, &cat).is_ok());
}

#[test]
fn the_negation_of_a_sum_is_typed() {
    let cat = CompilationCatalog::new();
    let prog = program(
        vec![],
        vec![func(
            true,
            "main",
            vec![param("int", "x")],
            "int",
            vec![],
            unary(UnaryOperator::Negate, bin(var("x"), BinaryOperator::Add, int_lit("1"))),
        )],
    );
    let p = analyze(&prog, &cat).unwrap_or_else(|_| panic!("expected success"));
    assert_eq!(p.functions[0].body.result.type_id.0, 0);
}

#[test]
fn a_remainder_of_a_floating_sum_is_refused() {
    let cat = CompilationCatalog::new();
    let prog = program(
        vec![],
        vec![main_returning(
            "dynamic",
            bin(bin(float("1.5"), BinaryOperator::Add, float("2.5")), BinaryOperator::Remainder, float("4.0")),
        )],
    );
    match semantic(analyze(&prog, &cat)) {
        SemanticFailure::TypeChecking(TypeCheckingFailure::ArithmeticOperator { operator, .. }) => {
            assert!(matches!(operator, BinaryOperator::Remainder))
        },
        _ => panic!("expected ArithmeticOperator"),
    }
}

#[test]
fn a_call_with_a_computed_argument_is_accepted() {
    let cat = CompilationCatalog::new();
    let prog = program(
        vec![],
        vec![
            func(false, "twice", vec![param("int", "a")], "int", vec![], var("a")),
            func(
                true,
                "main",
                vec![param("int", "x")],
                "int",
                vec![],
                call("twice", vec![bin(var("x"), BinaryOperator::Multiply, int_lit("2"))]),
            ),
        ],
    );
    assert!(analyze(&prog, &cat).is_ok());
}

#[test]
fn a_struct_with_computed_values_is_accepted() {
    let cat = CompilationCatalog::new();
    let prog = program(
        vec![],
        vec![
            strukt("Span", vec![("int", "low"), ("int", "high")]),
            func(
                true,
                "main",
                vec![param("int", "x")],
                "Span",
                vec![],
                construct("Span", vec![("low", var("x")), ("high", bin(var("x"), BinaryOperator::Add, int_lit("10")))]),
            ),
        ],
    );
    assert!(analyze(&prog, &cat).is_ok());
}
