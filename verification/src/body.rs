//! Analysis of function bodies: every expression is resolved against the
//! analyser's tables and typed, and the result refers only to entries that
//! exist.
use vstd::prelude::*;

use crate::analyzer::{
    Analyzer, FieldMeta, FormalParamMeta, FunctionHeader, TypeMeta, VariantMeta, declaration_failure,
    fail, header_below, join_spans, meta_names, semantic_failure, variant_meta_names, NATIVE_COUNT,
    native_at, native_type_id, direct_signature_ids,
};
use crate::ast::{
    BinaryOperator, BodyStatement, EnumConstruction, Expression, ExpressionKind, FieldInitializer,
    FunctionCall, Identifier, LetBinding, LiteralKind, OperationStatement, Pipeline, PipelineStage, UnaryOperator,
    WhenExpression, WhenPattern,
};
use crate::failures::{
    CallFailure, CompileFailure, CompositeFailure, DeclarationFailure, EnumPayloadShape,
    SemanticTypeDescriptor,
    ResolutionFailure, SemanticArgumentKind, SemanticFailure, SemanticNameRole,
    TypeCheckingFailure, WhenFailure,
};
use crate::lexical::SourceSpan;
use crate::literals::{
    canonical_integer, canonical_integer_string, decode_string_literal, floating_literal_is_finite,
    integer_representable,
    is_ascii_char, is_integer_representable_in_native, string_literal_text,
};
use crate::naming::{is_valid_snake_case, snake_case};
use crate::natives::{
    clone_binary_operator, clone_signature_symbol, clone_type_descriptor, clone_unary_operator,
    conversion_allowed, conversion_target, get_conversion_target_native, integer_native,
    is_integer_native, is_integer_or_dynamic_type, is_numeric_native,
    is_signed_integer_or_dyn_native, is_valid_conversion, numeric_native, payload_shapes_match,
    floating_native, signed_integer_native,
};
use crate::semantic::{
    BindingId, FieldId, FunctionId, NativeType, SemanticArgument, SemanticBinding, SemanticCall,
    SemanticCallTarget, SemanticEnumPayload, SemanticExpression, SemanticExpressionKind,
    SemanticFieldBinding, SemanticFieldValue, SemanticFunction, SemanticFunctionBody,
    SemanticLiteral, SemanticParameter, SemanticSignatureBinding, SemanticSignatureParameter,
    SemanticStatement, SemanticType, SemanticVariantExtraction, SemanticWhen,
    SemanticWhenBranch, SignatureBindingId, SignatureId, TypeId, VariantId,
};
use crate::graph::reaches;
use crate::tables::{NamedIndex, bind_name, find_name, indices_below, lookup, lemma_lookup_below, lemma_lookup_prefix, lemma_lookup_push};
use crate::text::same_text;

verus! {

// --- Well-formed expressions ---

pub open spec fn target_wf(t: SemanticCallTarget, nf: nat, ns: nat, nsb: nat) -> bool {
    match t {
        SemanticCallTarget::Internal(f) => (f.0 as int) < nf,
        SemanticCallTarget::DirectSignature(s) => (s.0 as int) < ns,
        SemanticCallTarget::SignatureDependency(b) => (b.0 as int) < nsb,
    }
}

/// Every index in `e` names an entry of its table: `nt` types, `nf`
/// functions, `ns` signatures, `nb` bindings and `nsb` signature bindings.
pub open spec fn expr_wf(e: SemanticExpression, nt: nat, nf: nat, ns: nat, nb: nat, nsb: nat) -> bool
    decreases e,
{
    &&& (e.type_id.0 as int) < nt
    &&& match e.kind {
        SemanticExpressionKind::Literal(_) => true,
        SemanticExpressionKind::Binding(b) => (b.0 as int) < nb,
        SemanticExpressionKind::Unary { operand, .. } => expr_wf(*operand, nt, nf, ns, nb, nsb),
        SemanticExpressionKind::Binary { left, right, .. } => {
            &&& expr_wf(*left, nt, nf, ns, nb, nsb)
            &&& expr_wf(*right, nt, nf, ns, nb, nsb)
        },
        SemanticExpressionKind::Conversion { operand } => expr_wf(*operand, nt, nf, ns, nb, nsb),
        SemanticExpressionKind::FieldAccess { receiver, .. } => expr_wf(*receiver, nt, nf, ns, nb, nsb),
        SemanticExpressionKind::Call(c) => {
            &&& target_wf(c.target, nf, ns, nsb)
            &&& forall|i: int|
                0 <= i < c.arguments@.len() ==> match #[trigger] c.arguments@[i] {
                    SemanticArgument::Value(v) => expr_wf(v, nt, nf, ns, nb, nsb),
                    SemanticArgument::SignatureDependency(s) => (s.0 as int) < nsb,
                }
        },
        SemanticExpressionKind::StructConstruction { fields } => forall|i: int|
            0 <= i < fields@.len() ==> expr_wf(#[trigger] fields@[i].value, nt, nf, ns, nb, nsb),
        SemanticExpressionKind::EnumConstruction { payload, .. } => match payload {
            SemanticEnumPayload::Simple => true,
            SemanticEnumPayload::Associated { value } => expr_wf(*value, nt, nf, ns, nb, nsb),
            SemanticEnumPayload::Structured { fields } => forall|i: int|
                0 <= i < fields@.len() ==> expr_wf(#[trigger] fields@[i].value, nt, nf, ns, nb, nsb),
        },
        SemanticExpressionKind::When(w) => {
            &&& expr_wf(*w.subject, nt, nf, ns, nb, nsb)
            &&& forall|i: int|
                0 <= i < w.branches@.len() ==> {
                    &&& expr_wf(#[trigger] w.branches@[i].result, nt, nf, ns, nb, nsb)
                    &&& extraction_wf(w.branches@[i].extraction, nb)
                }
        },
    }
}

pub open spec fn extraction_wf(x: SemanticVariantExtraction, nb: nat) -> bool {
    match x {
        SemanticVariantExtraction::Simple => true,
        SemanticVariantExtraction::Associated { binding } => (binding.0 as int) < nb,
        SemanticVariantExtraction::Structured { fields } => {
            &&& forall|i: int| 0 <= i < fields@.len() ==> (#[trigger] fields@[i].binding.0 as int) < nb
            &&& forall|a: int, b: int|
                0 <= a < b < fields@.len() ==> (#[trigger] fields@[a]).field.0 < (#[trigger] fields@[b]).field.0
        },
    }
}

/// More bindings keep an expression well formed.
pub proof fn lemma_expr_wf_grow(e: SemanticExpression, nt: nat, nf: nat, ns: nat, nb: nat, nsb: nat, nb2: nat)
    requires
        expr_wf(e, nt, nf, ns, nb, nsb),
        nb <= nb2,
    ensures
        expr_wf(e, nt, nf, ns, nb2, nsb),
    decreases e,
{
    match e.kind {
        SemanticExpressionKind::Unary { operand, .. } => {
            lemma_expr_wf_grow(*operand, nt, nf, ns, nb, nsb, nb2);
        },
        SemanticExpressionKind::Binary { left, right, .. } => {
            lemma_expr_wf_grow(*left, nt, nf, ns, nb, nsb, nb2);
            lemma_expr_wf_grow(*right, nt, nf, ns, nb, nsb, nb2);
        },
        SemanticExpressionKind::Conversion { operand } => {
            lemma_expr_wf_grow(*operand, nt, nf, ns, nb, nsb, nb2);
        },
        SemanticExpressionKind::FieldAccess { receiver, .. } => {
            lemma_expr_wf_grow(*receiver, nt, nf, ns, nb, nsb, nb2);
        },
        SemanticExpressionKind::Call(c) => {
            assert forall|i: int|
                0 <= i < c.arguments@.len() implies match #[trigger] c.arguments@[i] {
                    SemanticArgument::Value(v) => expr_wf(v, nt, nf, ns, nb2, nsb),
                    SemanticArgument::SignatureDependency(s) => (s.0 as int) < nsb,
                } by {
                if let SemanticArgument::Value(v) = c.arguments@[i] {
                    lemma_expr_wf_grow(v, nt, nf, ns, nb, nsb, nb2);
                }
            }
        },
        SemanticExpressionKind::StructConstruction { fields } => {
            assert forall|i: int| 0 <= i < fields@.len() implies expr_wf(#[trigger] fields@[i].value, nt, nf, ns, nb2, nsb) by {
                lemma_expr_wf_grow(fields@[i].value, nt, nf, ns, nb, nsb, nb2);
            }
        },
        SemanticExpressionKind::EnumConstruction { payload, .. } => match payload {
            SemanticEnumPayload::Simple => {},
            SemanticEnumPayload::Associated { value } => {
                lemma_expr_wf_grow(*value, nt, nf, ns, nb, nsb, nb2);
            },
            SemanticEnumPayload::Structured { fields } => {
                assert forall|i: int| 0 <= i < fields@.len() implies expr_wf(#[trigger] fields@[i].value, nt, nf, ns, nb2, nsb) by {
                    lemma_expr_wf_grow(fields@[i].value, nt, nf, ns, nb, nsb, nb2);
                }
            },
        },
        SemanticExpressionKind::When(w) => {
            lemma_expr_wf_grow(*w.subject, nt, nf, ns, nb, nsb, nb2);
            assert forall|i: int|
                0 <= i < w.branches@.len() implies {
                    &&& expr_wf(#[trigger] w.branches@[i].result, nt, nf, ns, nb2, nsb)
                    &&& extraction_wf(w.branches@[i].extraction, nb2)
                } by {
                lemma_expr_wf_grow(w.branches@[i].result, nt, nf, ns, nb, nsb, nb2);
            }
        },
        _ => {},
    }
}

// --- The source the analysis reads ---

/// The expression has the form the parser hands over: every string literal
/// keeps the quote characters that enclose it, and no pipeline stage has as
/// many arguments as the largest index of the machine.
pub open spec fn parsed_form(e: Expression) -> bool
    decreases e,
{
    match e.kind {
        ExpressionKind::Literal { kind, lexeme } => kind == LiteralKind::String && lexeme@.len() > 0 ==> {
            &&& is_ascii_char(lexeme@[0])
            &&& is_ascii_char(lexeme@.last())
        },
        ExpressionKind::Identifier(_) => true,
        ExpressionKind::Unary { operand, .. } => parsed_form(*operand),
        ExpressionKind::Binary { left, right, .. } => parsed_form(*left) && parsed_form(*right),
        ExpressionKind::FieldAccess { receiver, .. } => parsed_form(*receiver),
        ExpressionKind::FunctionCall(c) => forall|i: int|
            0 <= i < c.arguments@.len() ==> parsed_form(#[trigger] c.arguments@[i]),
        ExpressionKind::StructConstruction { fields, .. } => forall|i: int|
            0 <= i < fields@.len() ==> parsed_form(#[trigger] fields@[i].value),
        ExpressionKind::EnumConstruction(ec) => match ec {
            EnumConstruction::Simple { .. } => true,
            EnumConstruction::Associated { value, .. } => parsed_form(*value),
            EnumConstruction::Structured { fields, .. } => forall|i: int|
                0 <= i < fields@.len() ==> parsed_form(#[trigger] fields@[i].value),
        },
        ExpressionKind::Pipeline(p) => {
            &&& parsed_form(*p.source)
            &&& forall|i: int| 0 <= i < p.stages@.len() ==> (#[trigger] p.stages@[i]).additional_arguments@.len() < usize::MAX
            &&& forall|i: int, j: int|
                0 <= i < p.stages@.len() && 0 <= j < p.stages@[i].additional_arguments@.len()
                    ==> parsed_form(#[trigger] p.stages@[i].additional_arguments@[j])
        },
        ExpressionKind::When(w) => {
            &&& parsed_form(*w.subject)
            &&& forall|i: int| 0 <= i < w.correspondences@.len() ==> parsed_form(#[trigger] w.correspondences@[i].result)
        },
    }
}

// --- Type rules ---

pub open spec fn is_dynamic(types: Seq<SemanticType>, t: int) -> bool {
    types[t] == SemanticType::Native(NativeType::Dynamic)
}


pub open spec fn numeric_type(t: SemanticType) -> bool {
    match t {
        SemanticType::Native(nt) => numeric_native(nt),
        _ => false,
    }
}

/// A value of type `actual` may stand where `expected` is wanted: the same
/// type, or any native number where the dynamic number type is wanted.
pub open spec fn value_compatible(types: Seq<SemanticType>, actual: int, expected: int) -> bool {
    ||| actual == expected
    ||| (is_dynamic(types, expected) && numeric_type(types[actual]))
}

/// The type an integer literal takes: the expected type when that is an
/// integer type or the dynamic type, `int` otherwise.
pub open spec fn integer_literal_target(types: Seq<SemanticType>, expected: Option<usize>) -> usize {
    match expected {
        Some(t) => if (match types[t as int] {
            SemanticType::Native(nt) => integer_native(nt) || nt == NativeType::Dynamic,
            _ => false,
        }) {
            t
        } else {
            0
        },
        None => 0,
    }
}

pub open spec fn floating_or_dynamic(nt: NativeType) -> bool {
    nt == NativeType::Float || nt == NativeType::Float32 || nt == NativeType::Float64 || nt == NativeType::Dynamic
}

/// The type a floating literal takes: the expected type when that is a
/// floating type or the dynamic type, `float` otherwise.
pub open spec fn floating_literal_target(types: Seq<SemanticType>, expected: Option<usize>) -> usize {
    match expected {
        Some(t) => if (match types[t as int] {
            SemanticType::Native(nt) => floating_or_dynamic(nt),
            _ => false,
        }) {
            t
        } else {
            1
        },
        None => 1,
    }
}

// --- Equality ---

pub open spec fn field_type_ids(fs: Seq<crate::semantic::SemanticField>) -> Seq<usize> {
    fs.map_values(|f: crate::semantic::SemanticField| f.type_id.0)
}

pub open spec fn variant_type_ids(v: crate::semantic::SemanticVariant) -> Seq<usize> {
    match v {
        crate::semantic::SemanticVariant::Simple => Seq::empty(),
        crate::semantic::SemanticVariant::Associated { type_id } => seq![type_id.0],
        crate::semantic::SemanticVariant::Structured { fields } => field_type_ids(fields@),
    }
}

pub open spec fn variants_type_ids(vs: Seq<crate::semantic::SemanticVariant>) -> Seq<usize>
    decreases vs.len(),
{
    if vs.len() == 0 {
        Seq::empty()
    } else {
        variants_type_ids(vs.drop_last()) + variant_type_ids(vs.last())
    }
}

/// The types that a value of `t` holds directly.
pub open spec fn type_members(t: SemanticType) -> Seq<usize> {
    match t {
        SemanticType::Native(_) => Seq::empty(),
        SemanticType::Struct { fields } => field_type_ids(fields@),
        SemanticType::Enum { variants } => variants_type_ids(variants@),
    }
}

/// The graph of the type table in which each type points to the types its
/// values hold directly.
pub open spec fn value_graph(types: Seq<SemanticType>) -> Seq<Seq<usize>> {
    Seq::new(types.len(), |u: int| type_members(types[u]))
}

/// Values of type `t` can be compared with `==`: no value of the dynamic
/// number type is held in them, at any depth.
pub open spec fn equality_comparable(types: Seq<SemanticType>, t: int) -> bool {
    forall|u: int| 0 <= u < types.len() && #[trigger] reaches(value_graph(types), t, u) ==> !is_dynamic(types, u)
}

proof fn lemma_variants_type_ids_below(vs: Seq<crate::semantic::SemanticVariant>, n: nat)
    requires
        forall|i: int| 0 <= i < vs.len() ==> crate::analyzer::variant_below(#[trigger] vs[i], n),
    ensures
        forall|i: int| 0 <= i < variants_type_ids(vs).len() ==> (#[trigger] variants_type_ids(vs)[i] as int) < n,
    decreases vs.len(),
{
    if vs.len() > 0 {
        lemma_variants_type_ids_below(vs.drop_last(), n);
        let a = variants_type_ids(vs.drop_last());
        let b = variant_type_ids(vs.last());
        assert(crate::analyzer::variant_below(vs.last(), n));
        assert forall|i: int| 0 <= i < (a + b).len() implies (#[trigger] (a + b)[i] as int) < n by {
            if i < a.len() {
                assert((a + b)[i] == a[i]);
            } else {
                assert((a + b)[i] == b[i - a.len()]);
            }
        }
    }
}

fn field_type_ids_of(fs: &Vec<crate::semantic::SemanticField>, out: &mut Vec<usize>)
    ensures
        final(out)@ == old(out)@ + field_type_ids(fs@),
{
    let mut i: usize = 0;
    while i < fs.len()
        invariant
            i <= fs@.len(),
            out@ == old(out)@ + field_type_ids(fs@.take(i as int)),
        decreases fs@.len() - i,
    {
        out.push(fs[i].type_id.0);
        proof {
            assert(field_type_ids(fs@.take(i + 1)) =~= field_type_ids(fs@.take(i as int)).push(fs@[i as int].type_id.0));
        }
        i = i + 1;
    }
    proof {
        assert(fs@.take(i as int) =~= fs@);
    }
}

/// The types that a value of `t` holds directly.
fn type_members_of(t: &SemanticType) -> (r: Vec<usize>)
    ensures
        r@ == type_members(*t),
{
    let mut out: Vec<usize> = Vec::new();
    match t {
        SemanticType::Native(_) => {},
        SemanticType::Struct { fields } => {
            field_type_ids_of(fields, &mut out);
        },
        SemanticType::Enum { variants } => {
            let mut i: usize = 0;
            while i < variants.len()
                invariant
                    i <= variants@.len(),
                    out@ == variants_type_ids(variants@.take(i as int)),
                decreases variants@.len() - i,
            {
                let ghost before = out@;
                match &variants[i] {
                    crate::semantic::SemanticVariant::Simple => {},
                    crate::semantic::SemanticVariant::Associated { type_id } => {
                        out.push(type_id.0);
                    },
                    crate::semantic::SemanticVariant::Structured { fields } => {
                        field_type_ids_of(fields, &mut out);
                    },
                }
                proof {
                    assert(variants@.take(i + 1).drop_last() =~= variants@.take(i as int));
                    assert(out@ =~= before + variant_type_ids(variants@[i as int]));
                }
                i = i + 1;
            }
            proof {
                assert(variants@.take(i as int) =~= variants@);
            }
        },
    }
    proof {
        if t is Native {
            assert(out@ =~= Seq::<usize>::empty());
        }
        if let SemanticType::Struct { fields } = t {
            assert(out@ =~= field_type_ids(fields@));
        }
    }
    out
}

impl<'a, 'source> Analyzer<'a, 'source> {
    /// Whether values of type `type_id` can be compared with `==` and `!=`:
    /// none holds a value of the dynamic number type, at any depth.
    pub fn is_type_equality_comparable(&self, type_id: usize) -> (r: bool)
        requires
            self.wf(),
            (type_id as int) < self.types@.len(),
        ensures
            r == equality_comparable(self.types@, type_id as int),
    {
        let ghost g = value_graph(self.types@);
        let n = self.types.len();
        let mut adj: Vec<Vec<usize>> = Vec::new();
        let mut u: usize = 0;
        while u < n
            invariant
                n == self.types@.len(),
                g == value_graph(self.types@),
                u <= n,
                adj@.len() == u,
                forall|v: int| 0 <= v < u ==> (#[trigger] adj@[v])@ == g[v],
            decreases n - u,
        {
            let members = type_members_of(&self.types[u]);
            proof {
                assert(g[u as int] == type_members(self.types@[u as int]));
            }
            adj.push(members);
            u = u + 1;
        }
        proof {
            assert(adj@.map_values(|l: Vec<usize>| l@) =~= g);
            assert forall|v: int, k: int| 0 <= v < g.len() && 0 <= k < g[v].len() implies (#[trigger] g[v][k] as int) < g.len() by {
                assert(crate::analyzer::type_below(self.types@[v], n as nat));
                match self.types@[v] {
                    SemanticType::Enum { variants } => {
                        lemma_variants_type_ids_below(variants@, n as nat);
                    },
                    _ => {},
                }
            }
        }
        let reached = crate::graph::reachable(&adj, type_id);
        let mut v: usize = 0;
        while v < n
            invariant
                n == self.types@.len(),
                v <= n,
                reached@.len() == n,
                g == value_graph(self.types@),
                forall|w: int| 0 <= w < n ==> (#[trigger] reached@[w] <==> reaches(g, type_id as int, w)),
                forall|w: int| 0 <= w < v && reaches(g, type_id as int, w) ==> !is_dynamic(self.types@, w),
            decreases n - v,
        {
            if reached[v] {
                if let SemanticType::Native(NativeType::Dynamic) = &self.types[v] {
                    return false;
                }
            }
            v = v + 1;
        }
        true
    }
}

impl<'a, 'source> Analyzer<'a, 'source> {
    /// Whether a value of type `actual_id` may stand where `expected_id` is
    /// wanted.
    pub fn is_value_type_compatible(&self, actual_id: usize, expected_id: usize) -> (r: bool)
        requires
            self.wf(),
            (actual_id as int) < self.types@.len(),
            (expected_id as int) < self.types@.len(),
        ensures
            r == value_compatible(self.types@, actual_id as int, expected_id as int),
    {
        if actual_id == expected_id {
            return true;
        }
        if let SemanticType::Native(NativeType::Dynamic) = &self.types[expected_id] {
            if let SemanticType::Native(actual_nt) = &self.types[actual_id] {
                return is_numeric_native(actual_nt);
            }
        }
        false
    }
}

// --- The state of one function's analysis ---

pub struct FunctionAnalyzer<'b, 'a, 'source> {
    pub analyzer: &'b Analyzer<'a, 'source>,
    pub header: &'b FunctionHeader<'a, 'source>,
    pub parameters: Vec<SemanticParameter>,
    pub bindings: Vec<SemanticBinding>,
    pub signature_bindings: Vec<SemanticSignatureBinding>,
    /// The value bindings in scope, by name.
    pub binding_names: Vec<NamedIndex>,
    /// The signature dependencies in scope, by name.
    pub signature_binding_names: Vec<NamedIndex>,
}

pub open spec fn params_wf(ps: Seq<SemanticParameter>, nb: nat, nsb: nat) -> bool {
    forall|i: int|
        0 <= i < ps.len() ==> match #[trigger] ps[i] {
            SemanticParameter::Value(b) => (b.0 as int) < nb,
            SemanticParameter::SignatureDependency(s) => (s.0 as int) < nsb,
        }
}

/// The native type that a literal's target type stands for.
pub open spec fn target_native(t: SemanticType) -> NativeType {
    match t {
        SemanticType::Native(nt) => nt,
        _ => NativeType::Int,
    }
}

/// The type a literal of `kind` takes where `expected` is expected.
pub open spec fn literal_type(types: Seq<SemanticType>, kind: LiteralKind, expected: Option<usize>) -> usize {
    match kind {
        LiteralKind::Integer => integer_literal_target(types, expected),
        LiteralKind::Floating => floating_literal_target(types, expected),
        LiteralKind::Boolean => native_type_index(NativeType::Bool),
        LiteralKind::String => native_type_index(NativeType::String),
    }
}

/// A literal of `kind` written `lexeme` is a value of the type it takes where
/// `expected` is expected.
pub open spec fn literal_value_accepted(
    types: Seq<SemanticType>,
    kind: LiteralKind,
    lexeme: Seq<char>,
    expected: Option<usize>,
) -> bool {
    match kind {
        LiteralKind::Integer => integer_representable(
            canonical_integer(lexeme),
            target_native(types[integer_literal_target(types, expected) as int]),
            false,
        ),
        LiteralKind::Floating => floating_literal_is_finite(
            lexeme,
            target_native(types[floating_literal_target(types, expected) as int]) == NativeType::Float32,
        ),
        _ => true,
    }
}

/// The function has no statements and returns a literal that is a value of
/// a type its result accepts.
pub open spec fn returns_literal(types: Seq<SemanticType>, h: FunctionHeader) -> bool {
    &&& h.ast.body.statements@.len() == 0
    &&& h.ast.body.result.kind matches ExpressionKind::Literal { kind, lexeme } && {
        &&& literal_value_accepted(types, kind, lexeme@, Some(h.result_type))
        &&& value_compatible(types, literal_type(types, kind, Some(h.result_type)) as int, h.result_type as int)
    }
}

/// How many value parameters `ps` has.
pub open spec fn value_count(ps: Seq<FormalParamMeta>) -> nat
    decreases ps.len(),
{
    if ps.len() == 0 {
        0
    } else {
        value_count(ps.drop_last()) + if ps.last() is Value {
            1nat
        } else {
            0nat
        }
    }
}

/// The parameter at `i` is bound in scope: a value to the binding after those
/// of the value parameters before it, a dependency to the signature binding
/// after those of the dependencies before it, each of the parameter's type or
/// signature.
pub open spec fn parameter_bound(
    ps: Seq<FormalParamMeta>,
    i: int,
    p: SemanticParameter,
    bindings: Seq<SemanticBinding>,
    sbs: Seq<crate::semantic::SemanticSignatureBinding>,
) -> bool {
    match ps[i] {
        FormalParamMeta::Value { type_id, .. } => p == SemanticParameter::Value(BindingId(value_count(ps.take(i)) as usize))
            && value_count(ps.take(i)) < bindings.len() && bindings[value_count(ps.take(i)) as int].type_id.0 == type_id,
        FormalParamMeta::SignatureDependency { signature_id, .. } => p == SemanticParameter::SignatureDependency(
            SignatureBindingId((i - value_count(ps.take(i))) as usize),
        ) && i - value_count(ps.take(i)) < sbs.len() && sbs[i - value_count(ps.take(i))].signature.0 == signature_id,
    }
}

proof fn lemma_value_count_le(ps: Seq<FormalParamMeta>)
    ensures
        value_count(ps) <= ps.len(),
    decreases ps.len(),
{
    if ps.len() > 0 {
        lemma_value_count_le(ps.drop_last());
    }
}

/// The parameter at `j` of `ps` is a value named `n` of type `t`.
pub open spec fn value_param_typed(ps: Seq<FormalParamMeta>, j: int, n: Seq<char>, t: usize) -> bool {
    ps[j] matches FormalParamMeta::Value { name, type_id, .. } && name@ == n && type_id == t
}

/// Binding the value parameter at `i` keeps every bound name's type that of
/// a value parameter of that name.
proof fn lemma_bind_value_param(
    before: Seq<NamedIndex>,
    after: Seq<NamedIndex>,
    bb: Seq<SemanticBinding>,
    ab: Seq<SemanticBinding>,
    ps: Seq<FormalParamMeta>,
    i: int,
    name: Seq<char>,
    t: usize,
    bid: usize,
)
    requires
        0 <= i,
        bb.len() == bid,
        after == before.push(NamedIndex { name: after.last().name, index: bid }),
        after.last().name@ == name,
        ab == bb.push(SemanticBinding { type_id: TypeId(t) }),
        indices_below(before, bb.len()),
        value_param_typed(ps, i, name, t),
        forall|n: Seq<char>|
            #![trigger lookup(before, n)]
            lookup(before, n) is Some ==> exists|j: int|
                0 <= j < i && #[trigger] value_param_typed(ps, j, n, bb[lookup(before, n)->0 as int].type_id.0),
    ensures
        forall|n: Seq<char>|
            #![trigger lookup(after, n)]
            lookup(after, n) is Some ==> exists|j: int|
                0 <= j < i + 1 && #[trigger] value_param_typed(ps, j, n, ab[lookup(after, n)->0 as int].type_id.0),
{
    assert forall|n: Seq<char>| #![trigger lookup(after, n)] lookup(after, n) is Some implies exists|j: int|
        0 <= j < i + 1 && #[trigger] value_param_typed(ps, j, n, ab[lookup(after, n)->0 as int].type_id.0) by {
        lemma_lookup_push(before, after.last(), n);
        if lookup(before, n) is Some {
            let b = lookup(before, n)->0;
            lemma_lookup_below(before, n, bb.len());
            assert(ab[b as int] == bb[b as int]);
            assert(lookup(after, n) == Some(b));
            assert(exists|j: int| 0 <= j < i && #[trigger] value_param_typed(ps, j, n, bb[lookup(before, n)->0 as int].type_id.0));
            let j = choose|j: int| 0 <= j < i && #[trigger] value_param_typed(ps, j, n, bb[b as int].type_id.0);
            assert(0 <= j < i + 1);
            assert(value_param_typed(ps, j, n, ab[lookup(after, n)->0 as int].type_id.0));
        } else {
            assert(n == name);
            assert(lookup(after, n) == Some(bid));
            assert(ab[bid as int].type_id.0 == t);
            assert(value_param_typed(ps, i, n, ab[lookup(after, n)->0 as int].type_id.0));
        }
    }
}

/// Some value parameter among the first `upto` of `ps` is named `n`.
pub open spec fn value_param_named(ps: Seq<FormalParamMeta>, upto: int, n: Seq<char>) -> bool {
    exists|j: int, t: usize| 0 <= j < upto && #[trigger] value_param_typed(ps, j, n, t)
}

/// The function has no statements and returns one of its value parameters,
/// every value parameter of that name being of a type its result accepts.
pub open spec fn returns_parameter(types: Seq<SemanticType>, h: FunctionHeader) -> bool {
    &&& h.ast.body.statements@.len() == 0
    &&& h.ast.body.result.kind matches ExpressionKind::Identifier(id) && {
        &&& value_param_named(h.parameters@, h.parameters@.len() as int, id.lexeme@)
        &&& forall|j: int, t: usize|
            0 <= j < h.parameters@.len() && #[trigger] value_param_typed(h.parameters@, j, id.lexeme@, t)
                ==> value_compatible(types, t as int, h.result_type as int)
    }
}

/// Every stage of a pipeline is a conversion without further arguments.
pub open spec fn conversions_only(stages: Seq<PipelineStage>) -> bool {
    forall|i: int|
        0 <= i < stages.len() ==> conversion_target((#[trigger] stages[i]).callee.lexeme@) is Some
            && stages[i].additional_arguments@.len() == 0
}

/// The type that stage `i` of a pipeline of conversions receives, the
/// pipeline's source being of type `t0`.
pub open spec fn conversion_input(t0: usize, stages: Seq<PipelineStage>, i: int) -> usize {
    if i == 0 {
        t0
    } else {
        native_type_index(conversion_target(stages[i - 1].callee.lexeme@)->0)
    }
}

/// Each conversion of the pipeline accepts the type it receives.
pub open spec fn conversions_allowed(types: Seq<SemanticType>, t0: usize, stages: Seq<PipelineStage>) -> bool {
    forall|i: int|
        0 <= i < stages.len() ==> conversion_allowed(
            &types[conversion_input(t0, stages, i) as int],
            conversion_target((#[trigger] stages[i]).callee.lexeme@)->0,
        )
}

/// Some correspondence of `cs` is on the variant named `n`.
pub open spec fn correspondence_names(cs: Seq<crate::ast::WhenCorrespondence>, n: Seq<char>) -> bool {
    exists|j: int| 0 <= j < cs.len() && pattern_variant((#[trigger] cs[j]).pattern) == n
}

/// The names of the variants of `vs`, in declaration order, that no
/// correspondence of `cs` is on.
pub open spec fn missing_variants(vs: Seq<VariantMeta>, cs: Seq<crate::ast::WhenCorrespondence>) -> Seq<Seq<char>>
    decreases vs.len(),
{
    if vs.len() == 0 {
        Seq::empty()
    } else if correspondence_names(cs, vs.last().spec_name()) {
        missing_variants(vs.drop_last(), cs)
    } else {
        missing_variants(vs.drop_last(), cs).push(vs.last().spec_name())
    }
}

/// No field is named twice in a structured pattern.
pub open spec fn pattern_fields_distinct(pfs: Seq<crate::ast::PatternField>) -> bool {
    forall|i: int, j: int| 0 <= i < j < pfs.len() ==> (#[trigger] pfs[i]).field.lexeme@ != (#[trigger] pfs[j]).field.lexeme@
}

/// Every field a pattern names is a field of `defs`.
pub open spec fn pattern_fields_exist(pfs: Seq<crate::ast::PatternField>, defs: Seq<FieldMeta>) -> bool {
    forall|i: int| 0 <= i < pfs.len() ==> meta_names(defs).contains(#[trigger] pfs[i].field.lexeme@)
}

/// Some field of the pattern is named `n`.
pub open spec fn pattern_names_field(pfs: Seq<crate::ast::PatternField>, n: Seq<char>) -> bool {
    exists|i: int| 0 <= i < pfs.len() && (#[trigger] pfs[i]).field.lexeme@ == n
}

/// Every field of `defs` is named in the pattern.
pub open spec fn pattern_fields_cover(pfs: Seq<crate::ast::PatternField>, defs: Seq<FieldMeta>) -> bool {
    forall|k: int| 0 <= k < defs.len() ==> pattern_names_field(pfs, (#[trigger] defs[k]).name@)
}

/// `k` is the last field of `defs` named `n`.
pub open spec fn last_field_named(defs: Seq<FieldMeta>, n: Seq<char>, k: int) -> bool {
    &&& 0 <= k < defs.len()
    &&& defs[k].name@ == n
    &&& forall|j: int| k < j < defs.len() ==> (#[trigger] defs[j]).name@ != n
}

impl<'b, 'a, 'source> FunctionAnalyzer<'b, 'a, 'source> {
    /// The type of the binding in scope that `e` names, where `e` is a name.
    pub open spec fn bound_type(&self, e: Expression) -> Option<usize> {
        match e.kind {
            ExpressionKind::Identifier(id) => match lookup(self.binding_names@, id.lexeme@) {
                Some(b) => Some(self.bindings@[b as int].type_id.0),
                None => None,
            },
            _ => None,
        }
    }

    /// A literal of `kind` written `lexeme` is a value of the type it takes
    /// where `expected` is expected.
    pub open spec fn literal_accepted(&self, kind: LiteralKind, lexeme: Seq<char>, expected: Option<usize>) -> bool {
        match kind {
            LiteralKind::Integer => integer_representable(
                canonical_integer(lexeme),
                target_native(self.types()[integer_literal_target(self.types(), expected) as int]),
                false,
            ),
            LiteralKind::Floating => floating_literal_is_finite(
                lexeme,
                target_native(self.types()[floating_literal_target(self.types(), expected) as int])
                    == NativeType::Float32,
            ),
            _ => true,
        }
    }

    /// A negated integer literal written `lexeme` is a negative value of the
    /// type it takes where `expected` is expected, and that type is signed or
    /// the dynamic number.
    pub open spec fn negative_literal_accepted(&self, lexeme: Seq<char>, expected: Option<usize>) -> bool {
        let t = integer_literal_target(self.types(), expected);
        &&& integer_representable(canonical_integer(lexeme), target_native(self.types()[t as int]), true)
        &&& self.types()[t as int] matches SemanticType::Native(nt) && (signed_integer_native(nt) || nt
            == NativeType::Dynamic)
    }

    /// The binding of the pattern field at `j` can be introduced after those
    /// before it: a snake case name free in scope and unlike the earlier
    /// ones, declared with the type of the field it extracts.
    pub open spec fn pattern_binding_accepted(
        &self,
        pfs: Seq<crate::ast::PatternField>,
        defs: Seq<FieldMeta>,
        j: int,
    ) -> bool {
        let pf = pfs[j];
        let n = pf.binding.name.lexeme@;
        &&& snake_case(n)
        &&& lookup(self.binding_names@, n) is None
        &&& lookup(self.signature_binding_names@, n) is None
        &&& forall|i: int| 0 <= i < j ==> (#[trigger] pfs[i]).binding.name.lexeme@ != n
        &&& forall|k: int|
            last_field_named(defs, pf.field.lexeme@, k) ==> lookup(self.analyzer.type_names@, pf.binding.type_ident.lexeme@)
                == Some(#[trigger] defs[k].type_id)
    }

    /// A structured pattern can extract the fields `defs`: each field named
    /// once, each existing, all covered, and every binding accepted.
    pub open spec fn extraction_accepted(&self, pfs: Seq<crate::ast::PatternField>, defs: Seq<FieldMeta>) -> bool {
        &&& pattern_fields_distinct(pfs)
        &&& pattern_fields_exist(pfs, defs)
        &&& pattern_fields_cover(pfs, defs)
        &&& forall|j: int| 0 <= j < pfs.len() ==> #[trigger] self.pattern_binding_accepted(pfs, defs, j)
    }

    /// The correspondence `corr` is a payload-free pattern on a variant of
    /// `variants` of the enum `t`, written with `t`'s name.
    pub open spec fn simple_correspondence(&self, corr: crate::ast::WhenCorrespondence, t: usize, variants: Seq<VariantMeta>) -> bool {
        corr.pattern matches WhenPattern::Simple { variant: q } && {
            &&& lookup(self.analyzer.type_names@, q.qualifier.lexeme@) == Some(t)
            &&& exists|k: int| 0 <= k < variants.len() && (#[trigger] variants[k]).spec_name() == q.name.lexeme@
        }
    }

    /// The type that the results of `w` share: the expected type, or else
    /// the type the first result takes, where that one is built from names,
    /// literals and operators.
    pub open spec fn when_result_type(&self, w: WhenExpression, expected: Option<usize>) -> Option<usize> {
        match expected {
            Some(x) => Some(x),
            None => if w.correspondences@.len() > 0 {
                self.shallow_type(w.correspondences@[0].result, None)
            } else {
                None
            },
        }
    }

    /// A `when` on a name bound to an enum whose variants carry no payload,
    /// with one payload-free correspondence for each variant, each giving an
    /// expression built from names, literals and operators of a type the
    /// result accepts: the expected type, or else the first branch's type.
    pub open spec fn simple_when_accepted(&self, w: WhenExpression, expected: Option<usize>) -> bool {
        let cs = w.correspondences@;
        &&& self.bound_type(*w.subject) matches Some(t) && self.analyzer.metas@[t as int] matches TypeMeta::Enum(em) && {
            &&& forall|k: int| 0 <= k < em.variants@.len() ==> (#[trigger] em.variants@[k]) is Simple
            &&& cs.len() == em.variants@.len()
            &&& forall|i: int| 0 <= i < cs.len() ==> self.simple_correspondence(#[trigger] cs[i], t, em.variants@)
            &&& forall|i: int, j: int|
                0 <= i < j < cs.len() ==> pattern_variant((#[trigger] cs[i]).pattern) != pattern_variant(
                    (#[trigger] cs[j]).pattern,
                )
        }
        &&& self.when_result_type(w, expected) is Some
        &&& forall|i: int|
            0 <= i < cs.len() ==> {
                let result_expected = if i == 0 {
                    expected
                } else {
                    self.when_result_type(w, expected)
                };
                &&& shallow((#[trigger] cs[i]).result)
                &&& self.shallow_type(cs[i].result, result_expected) is Some
                &&& value_compatible(
                    self.types(),
                    self.shallow_type(cs[i].result, result_expected)->0 as int,
                    self.when_result_type(w, expected)->0 as int,
                )
            }
    }

    /// The signature dependency in scope that `e` names, where `e` is a name.
    pub open spec fn signature_binding_of(&self, e: Expression) -> Option<usize> {
        match e.kind {
            ExpressionKind::Identifier(id) => lookup(self.signature_binding_names@, id.lexeme@),
            _ => None,
        }
    }

    /// The type that a name in scope, or a literal accepted where
    /// `expected` is expected, takes; `None` for anything else.
    pub open spec fn atom_type(&self, e: Expression, expected: Option<usize>) -> Option<usize> {
        match e.kind {
            ExpressionKind::Identifier(_) => self.bound_type(e),
            ExpressionKind::Literal { kind, lexeme } => if self.literal_accepted(kind, lexeme@, expected) {
                Some(literal_type(self.types(), kind, expected))
            } else {
                None
            },
            _ => None,
        }
    }

    /// The type that the analysis gives an expression built from names,
    /// literals and operators where `expected` is expected, with whether its
    /// value is statically floating; `None` where the rules refuse it.
    pub open spec fn shallow_info(&self, e: Expression, expected: Option<usize>) -> Option<(usize, bool)>
        decreases e,
    {
        let types = self.types();
        let dynamic = native_type_index(NativeType::Dynamic);
        match e.kind {
            ExpressionKind::Identifier(_) => match self.bound_type(e) {
                Some(t) => Some((t, floating_type(types[t as int]))),
                None => None,
            },
            ExpressionKind::Literal { kind, lexeme } => if self.literal_accepted(kind, lexeme@, expected) {
                let t = literal_type(types, kind, expected);
                Some(
                    (
                        t,
                        floating_type(types[t as int]) || (types[t as int] == SemanticType::Native(NativeType::Dynamic) && kind
                            == LiteralKind::Floating),
                    ),
                )
            } else {
                None
            },
            ExpressionKind::Unary { operator, operand } => if operator == UnaryOperator::Negate && operand.kind is Literal
                && operand.kind->Literal_kind == LiteralKind::Integer {
                if self.negative_literal_accepted(operand.kind->Literal_lexeme@, expected) {
                    let t = widened_to_expected(integer_literal_target(types, expected) as int, expected) as usize;
                    Some((t, floating_type(types[t as int])))
                } else {
                    None
                }
            } else {
                match self.shallow_info(
                    *operand,
                    if operator == UnaryOperator::Not {
                        None
                    } else {
                        expected
                    },
                ) {
                    Some((ot, of)) => match unary_result_type(types, operator, ot as int, expected) {
                        Some(u) => Some(
                            (
                                u as usize,
                                floating_type(types[u]) || (types[u] == SemanticType::Native(NativeType::Dynamic)
                                    && operator == UnaryOperator::Negate && of),
                            ),
                        ),
                        None => None,
                    },
                    None => None,
                }
            },
            ExpressionKind::Binary { left, operator, right } => {
                let infos = if left.kind is Literal && !(right.kind is Literal) {
                    match self.shallow_info(*right, expected) {
                        Some((rt, rf)) => match self.shallow_info(*left, Some(rt)) {
                            Some((lt, lf)) => Some((lt, lf, rt, rf)),
                            None => None,
                        },
                        None => None,
                    }
                } else {
                    match self.shallow_info(*left, expected) {
                        Some((lt, lf)) => {
                            let right_expected = if !(left.kind is Literal) && !(right.kind is Literal) && expected
                                == Some(dynamic) {
                                Some(dynamic)
                            } else {
                                Some(lt)
                            };
                            match self.shallow_info(*right, right_expected) {
                                Some((rt, rf)) => Some((lt, lf, rt, rf)),
                                None => None,
                            }
                        },
                        None => None,
                    }
                };
                match infos {
                    Some((lt, lf, rt, rf)) => match binary_result_type(
                        types,
                        operator,
                        lt as int,
                        rt as int,
                        expected,
                        lf || rf,
                        equality_comparable(types, lt as int),
                    ) {
                        Some(b) => Some(
                            (
                                b as usize,
                                floating_type(types[b]) || (types[b] == SemanticType::Native(NativeType::Dynamic)
                                    && arithmetic_operator(operator) && (lf || rf)),
                            ),
                        ),
                        None => None,
                    },
                    None => None,
                }
            },
            _ => None,
        }
    }

    /// The type that `shallow_info` gives `e`.
    pub open spec fn shallow_type(&self, e: Expression, expected: Option<usize>) -> Option<usize> {
        match self.shallow_info(e, expected) {
            Some((t, _)) => Some(t),
            None => None,
        }
    }

    /// The types the operands `left` and `right` of a binary expression take,
    /// each with whether it is statically floating, in the order the
    /// analysis types them.
    pub open spec fn binary_operand_infos(&self, left: Expression, right: Expression, expected: Option<usize>) -> Option<
        (usize, bool, usize, bool),
    > {
        let dynamic = native_type_index(NativeType::Dynamic);
        if left.kind is Literal && !(right.kind is Literal) {
            match self.shallow_info(right, expected) {
                Some((rt, rf)) => match self.shallow_info(left, Some(rt)) {
                    Some((lt, lf)) => Some((lt, lf, rt, rf)),
                    None => None,
                },
                None => None,
            }
        } else {
            match self.shallow_info(left, expected) {
                Some((lt, lf)) => {
                    let right_expected = if !(left.kind is Literal) && !(right.kind is Literal) && expected == Some(dynamic) {
                        Some(dynamic)
                    } else {
                        Some(lt)
                    };
                    match self.shallow_info(right, right_expected) {
                        Some((rt, rf)) => Some((lt, lf, rt, rf)),
                        None => None,
                    }
                },
                None => None,
            }
        }
    }

    /// An atom of type `t` is statically floating: its type is floating, or
    /// it is a floating literal read as the dynamic number.
    pub open spec fn atom_floating(&self, e: Expression, t: usize) -> bool {
        ||| floating_type(self.types()[t as int])
        ||| self.types()[t as int] == SemanticType::Native(NativeType::Dynamic) && (e.kind matches ExpressionKind::Literal {
            kind,
            ..
        } && kind == LiteralKind::Floating)
    }

    /// A name or literal typed from `before` is statically floating in any
    /// later state exactly as `atom_floating` says.
    pub proof fn lemma_atom_floating(&self, before: &Self, fin: &Self, e: Expression, expected: Option<usize>, x: SemanticExpression)
        requires
            before.wf(),
            self.extends(before),
            is_atom(e),
            before.expression_typed(fin, e, expected, x),
        ensures
            statically_floating(self.types(), self.bindings@, x) == before.atom_floating(e, x.type_id.0),
    {
        if let ExpressionKind::Identifier(id) = e.kind {
            lemma_lookup_below(before.binding_names@, id.lexeme@, before.nb());
            let b = lookup(before.binding_names@, id.lexeme@)->0;
            assert(self.bindings@[b as int] == before.bindings@[b as int]);
        }
    }

    /// What `shallow_info` gives stays what it was while the names in scope
    /// stay.
    pub proof fn lemma_shallow_info_kept(&self, before: &Self, e: Expression, expected: Option<usize>)
        requires
            before.wf(),
            self.extends(before),
            self.binding_names@ == before.binding_names@,
        ensures
            self.shallow_info(e, expected) == before.shallow_info(e, expected),
        decreases e,
    {
        assert(self.types() == before.types());
        match e.kind {
            ExpressionKind::Identifier(_) => {
                self.lemma_bound_type_kept(before, e);
            },
            ExpressionKind::Unary { operator, operand } => {
                self.lemma_shallow_info_kept(before, *operand, if operator == UnaryOperator::Not {
                    None
                } else {
                    expected
                });
            },
            ExpressionKind::Binary { left, right, .. } => {
                let dynamic = native_type_index(NativeType::Dynamic);
                if left.kind is Literal && !(right.kind is Literal) {
                    self.lemma_shallow_info_kept(before, *right, expected);
                    if let Some((rt, _)) = before.shallow_info(*right, expected) {
                        self.lemma_shallow_info_kept(before, *left, Some(rt));
                    }
                } else {
                    self.lemma_shallow_info_kept(before, *left, expected);
                    if let Some((lt, _)) = before.shallow_info(*left, expected) {
                        self.lemma_shallow_info_kept(before, *right, Some(dynamic));
                        self.lemma_shallow_info_kept(before, *right, Some(lt));
                    }
                }
            },
            _ => {},
        }
    }

    /// A name's binding stays what it was while the names in scope stay.
    pub proof fn lemma_bound_type_kept(&self, before: &Self, e: Expression)
        requires
            before.wf(),
            self.extends(before),
            self.binding_names@ == before.binding_names@,
        ensures
            self.bound_type(e) == before.bound_type(e),
    {
        if let ExpressionKind::Identifier(id) = e.kind {
            lemma_lookup_below(before.binding_names@, id.lexeme@, before.nb());
        }
    }

    /// `e` is a name of a binding in scope, or a literal.
    pub open spec fn value_atom(&self, e: Expression) -> bool {
        self.bound_type(e) is Some || e.kind is Literal
    }

    /// The initializer at `i` gives an expression built from names, literals
    /// and operators that the type of the field it initializes accepts and
    /// whose type fits it.
    pub open spec fn initializer_fits(&self, inits: Seq<FieldInitializer>, defs: Seq<FieldMeta>, i: int) -> bool {
        &&& shallow(inits[i].value)
        &&& forall|k: int|
            last_field_named(defs, inits[i].name.lexeme@, k) ==> {
                let ft = (#[trigger] defs[k]).type_id;
                &&& self.shallow_type(inits[i].value, Some(ft)) is Some
                &&& value_compatible(self.types(), self.shallow_type(inits[i].value, Some(ft))->0 as int, ft as int)
            }
    }

    /// The failure for the initializer at `i`, a name in scope or a literal
    /// that does not fit the field it initializes: a literal that the field's
    /// type cannot hold, or else the field's name, the field's type and the
    /// value's type, at the value.
    pub open spec fn initializer_mismatch(
        &self,
        inits: Seq<FieldInitializer>,
        defs: Seq<FieldMeta>,
        i: int,
        f: CompileFailure,
    ) -> bool {
        let v = inits[i].value;
        exists|k: int|
            #[trigger] last_field_named(defs, inits[i].name.lexeme@, k) && match self.atom_type(v, Some(defs[k].type_id)) {
                None => v.kind is Literal && f == semantic_failure(
                    SemanticFailure::TypeChecking(
                        TypeCheckingFailure::NumericLiteralNotRepresentable {
                            expected: self.analyzer.type_descriptors@[literal_type(
                                self.types(),
                                v.kind->Literal_kind,
                                Some(defs[k].type_id),
                            ) as int],
                        },
                    ),
                    v.span,
                ),
                Some(at) => f.source_span == (if v.kind is Identifier {
                    v.kind->Identifier_0.span
                } else {
                    v.span
                }) && (f.kind matches crate::failures::CompileFailureKind::Semantic(
                    SemanticFailure::Composite(CompositeFailure::FieldTypeMismatch { field, expected, actual }),
                ) && field@ == inits[i].name.lexeme@ && expected == self.analyzer.type_descriptors@[defs[k].type_id as int]
                    && actual == self.analyzer.type_descriptors@[at as int]),
            }
    }

    /// The payload of the construction `ec` fits the variant `vm`: nothing
    /// for a simple variant, an expression built from names, literals and
    /// operators of a fitting type for an associated one, initializers that
    /// cover the fields exactly with such expressions of fitting types for a
    /// structured one.
    pub open spec fn enum_payload_fits(&self, vm: VariantMeta, ec: EnumConstruction) -> bool {
        match (vm, ec) {
            (VariantMeta::Simple { .. }, EnumConstruction::Simple { .. }) => true,
            (VariantMeta::Associated { type_id, .. }, EnumConstruction::Associated { value, .. }) => shallow(*value)
                && self.shallow_type(*value, Some(type_id)) is Some && value_compatible(
                self.types(),
                self.shallow_type(*value, Some(type_id))->0 as int,
                type_id as int,
            ),
            (VariantMeta::Structured { fields: defs, .. }, EnumConstruction::Structured { fields: inits, .. }) => {
                &&& !initializers_repeat(inits@)
                &&& !initializers_unknown(inits@, defs@)
                &&& !fields_missing(inits@, defs@)
                &&& forall|i: int| 0 <= i < inits@.len() ==> #[trigger] self.initializer_fits(inits@, defs@, i)
            },
            _ => false,
        }
    }

    /// The payload that `ec` writes is made of names of bindings in scope and
    /// literals.
    pub open spec fn payload_atoms(&self, ec: EnumConstruction) -> bool {
        match ec {
            EnumConstruction::Simple { .. } => true,
            EnumConstruction::Associated { value, .. } => self.value_atom(*value),
            EnumConstruction::Structured { fields, .. } => forall|i: int|
                0 <= i < fields@.len() ==> self.value_atom(#[trigger] fields@[i].value),
        }
    }

    /// The failure of a payload `ec` that does not fit the variant `vm` of a
    /// construction at `span`: for an associated name or literal, a literal
    /// that the payload type cannot hold or the payload type against the
    /// value's; for a structured payload, the first repeated, unknown or
    /// missing field, or else, with names and literals, the first value that
    /// does not fit its field. Other payloads are left open here.
    pub open spec fn enum_payload_failure(&self, vm: VariantMeta, ec: EnumConstruction, span: SourceSpan, f: CompileFailure) -> bool {
        let descs = self.analyzer.type_descriptors@;
        match (vm, ec) {
            (VariantMeta::Associated { type_id, .. }, EnumConstruction::Associated { value, .. }) => self.value_atom(*value)
                ==> match self.atom_type(*value, Some(type_id)) {
                None => f == semantic_failure(
                    SemanticFailure::TypeChecking(
                        TypeCheckingFailure::NumericLiteralNotRepresentable {
                            expected: descs[literal_type(self.types(), value.kind->Literal_kind, Some(type_id)) as int],
                        },
                    ),
                    value.span,
                ),
                Some(at) => f == semantic_failure(
                    SemanticFailure::Composite(
                        CompositeFailure::AssociatedPayloadTypeMismatch { expected: descs[type_id as int], actual: descs[at as int] },
                    ),
                    if value.kind is Identifier {
                        value.kind->Identifier_0.span
                    } else {
                        value.span
                    },
                ),
            },
            (VariantMeta::Structured { fields: defs, .. }, EnumConstruction::Structured { fields: inits, .. }) => if initializers_repeat(
                inits@,
            ) || initializers_unknown(inits@, defs@) || fields_missing(inits@, defs@) {
                initializers_refused(inits@, defs@, span, f)
            } else {
                (forall|i: int| 0 <= i < inits@.len() ==> #[trigger] self.value_atom(inits@[i].value)) ==> exists|i: int|
                    0 <= i < inits@.len() && !self.initializer_fits(inits@, defs@, i) && self.initializer_mismatch(
                        inits@,
                        defs@,
                        i,
                        f,
                    ) && forall|j: int| 0 <= j < i ==> #[trigger] self.initializer_fits(inits@, defs@, j)
            },
            _ => true,
        }
    }

    /// The argument `arg` fits the parameter `formal`: a dependency in scope
    /// of the parameter's signature, or an expression built from names that
    /// are no dependency, literals and operators, whose type where the
    /// parameter's is expected fits the parameter's.
    pub open spec fn argument_accepted(&self, arg: Expression, formal: SemanticSignatureParameter) -> bool {
        match formal {
            SemanticSignatureParameter::SignatureDependency(d) => self.signature_binding_of(arg) is Some
                && self.signature_bindings@[self.signature_binding_of(arg)->0 as int].signature.0 == d.0,
            SemanticSignatureParameter::Value(t) => {
                &&& shallow(arg)
                &&& self.shallow_type(arg, Some(t.0)) is Some
                &&& self.signature_binding_of(arg) is None
                &&& value_compatible(self.types(), self.shallow_type(arg, Some(t.0))->0 as int, t.0 as int)
            },
        }
    }

    /// `e` is a literal or a name in scope: a binding's or a dependency's.
    pub open spec fn plain_argument(&self, e: Expression) -> bool {
        self.bound_type(e) is Some || self.signature_binding_of(e) is Some || e.kind is Literal
    }

    /// The failure for the argument `arg` at `position` where it does not fit
    /// `formal` and is a name, or a name of a dependency; `None` otherwise.
    pub open spec fn argument_failure(
        &self,
        arg: Expression,
        formal: SemanticSignatureParameter,
        position: usize,
    ) -> Option<CompileFailure> {
        let descs = self.analyzer.type_descriptors@;
        match formal {
            SemanticSignatureParameter::SignatureDependency(d) => match self.signature_binding_of(arg) {
                None => Some(
                    semantic_failure(
                        SemanticFailure::Call(
                            CallFailure::ArgumentKindMismatch {
                                position,
                                expected: SemanticArgumentKind::SignatureDependency,
                                actual: SemanticArgumentKind::Value,
                            },
                        ),
                        arg.span,
                    ),
                ),
                Some(sb) => if self.signature_bindings@[sb as int].signature.0 != d.0 {
                    Some(
                        semantic_failure(
                            SemanticFailure::Call(
                                CallFailure::SignatureDependencyMismatch {
                                    position,
                                    expected: self.analyzer.signatures@[d.0 as int].symbol,
                                    actual: self.analyzer.signatures@[self.signature_bindings@[sb as int].signature.0 as int].symbol,
                                },
                            ),
                            arg.span,
                        ),
                    )
                } else {
                    None
                },
            },
            SemanticSignatureParameter::Value(t) => if self.signature_binding_of(arg) is Some {
                Some(
                    semantic_failure(
                        SemanticFailure::Call(
                            CallFailure::ArgumentKindMismatch {
                                position,
                                expected: SemanticArgumentKind::Value,
                                actual: SemanticArgumentKind::SignatureDependency,
                            },
                        ),
                        arg.span,
                    ),
                )
            } else if self.atom_type(arg, Some(t.0)) is Some && !value_compatible(
                self.types(),
                self.atom_type(arg, Some(t.0))->0 as int,
                t.0 as int,
            ) {
                Some(
                    semantic_failure(
                        SemanticFailure::Call(
                            CallFailure::ArgumentTypeMismatch {
                                position,
                                expected: descs[t.0 as int],
                                actual: descs[self.atom_type(arg, Some(t.0))->0 as int],
                            },
                        ),
                        if arg.kind is Identifier {
                            arg.kind->Identifier_0.span
                        } else {
                            arg.span
                        },
                    ),
                )
            } else if arg.kind matches ExpressionKind::Literal { kind, lexeme } && !self.literal_accepted(
                kind,
                lexeme@,
                Some(t.0),
            ) {
                Some(
                    semantic_failure(
                        SemanticFailure::TypeChecking(
                            TypeCheckingFailure::NumericLiteralNotRepresentable {
                                expected: descs[literal_type(self.types(), arg.kind->Literal_kind, Some(t.0)) as int],
                            },
                        ),
                        arg.span,
                    ),
                )
            } else {
                None
            },
        }
    }

    /// Type `t` is a struct with a field named `n`.
    pub open spec fn struct_has_field(&self, t: usize, n: Seq<char>) -> bool {
        self.analyzer.metas@[t as int] matches TypeMeta::Struct(sm) && exists|j: int|
            0 <= j < sm.fields@.len() && (#[trigger] sm.fields@[j]).name@ == n
    }

    pub open spec fn types(&self) -> Seq<SemanticType> {
        self.analyzer.types@
    }

    pub open spec fn nt(&self) -> nat {
        self.analyzer.types@.len()
    }

    pub open spec fn nf(&self) -> nat {
        self.analyzer.function_headers@.len()
    }

    pub open spec fn ns(&self) -> nat {
        self.analyzer.signatures@.len()
    }

    pub open spec fn nb(&self) -> nat {
        self.bindings@.len()
    }

    pub open spec fn nsb(&self) -> nat {
        self.signature_bindings@.len()
    }

    /// Every binding, signature binding and name in scope refers to an entry
    /// that exists.
    pub open spec fn wf(&self) -> bool {
        &&& self.analyzer.wf()
        &&& header_below(*self.header, self.nt(), self.ns())
        &&& forall|b: int| 0 <= b < self.bindings@.len() ==> (#[trigger] self.bindings@[b].type_id.0 as int) < self.nt()
        &&& forall|b: int|
            0 <= b < self.signature_bindings@.len() ==> (#[trigger] self.signature_bindings@[b].signature.0 as int) < self.ns()
        &&& indices_below(self.binding_names@, self.nb())
        &&& indices_below(self.signature_binding_names@, self.nsb())
        &&& params_wf(self.parameters@, self.nb(), self.nsb())
    }

    pub open spec fn expr_ok(&self, e: SemanticExpression) -> bool {
        expr_wf(e, self.nt(), self.nf(), self.ns(), self.nb(), self.nsb())
    }

    pub open spec fn expected_ok(&self, expected: Option<usize>) -> bool {
        expected matches Some(t) ==> (t as int) < self.nt()
    }

    /// One analysis step: bindings were only added, and nothing else changed
    /// but the names in scope.
    pub open spec fn extends(&self, old: &Self) -> bool {
        &&& self.wf()
        &&& self.analyzer == old.analyzer
        &&& self.header == old.header
        &&& self.parameters == old.parameters
        &&& self.signature_bindings == old.signature_bindings
        &&& self.signature_binding_names == old.signature_binding_names
        &&& old.bindings@.len() <= self.bindings@.len()
        &&& forall|b: int| 0 <= b < old.bindings@.len() ==> #[trigger] self.bindings@[b] == old.bindings@[b]
    }

    /// A fresh analysis of `header`'s function, with its parameters in scope.
    #[verifier::spinoff_prover]
    pub fn new(analyzer: &'b Analyzer<'a, 'source>, header: &'b FunctionHeader<'a, 'source>) -> (r: Self)
        requires
            analyzer.wf(),
            header_below(*header, analyzer.types@.len(), analyzer.signatures@.len()),
        ensures
            r.wf(),
            r.analyzer == analyzer,
            r.header == header,
            r.parameters@.len() == header.parameters@.len(),
            forall|i: int|
                0 <= i < header.parameters@.len() ==> parameter_bound(
                    header.parameters@,
                    i,
                    #[trigger] r.parameters@[i],
                    r.bindings@,
                    r.signature_bindings@,
                ),
            r.bindings@.len() == value_count(header.parameters@),
            forall|n: Seq<char>|
                #![trigger lookup(r.binding_names@, n)]
                (lookup(r.binding_names@, n) is Some) == value_param_named(header.parameters@, header.parameters@.len() as int, n),
            forall|n: Seq<char>|
                #![trigger lookup(r.binding_names@, n)]
                lookup(r.binding_names@, n) is Some ==> exists|j: int|
                    0 <= j < header.parameters@.len() && #[trigger] value_param_typed(
                        header.parameters@,
                        j,
                        n,
                        r.bindings@[lookup(r.binding_names@, n)->0 as int].type_id.0,
                    ),
    {
        let mut fa = FunctionAnalyzer {
            analyzer,
            header,
            parameters: Vec::new(),
            bindings: Vec::new(),
            signature_bindings: Vec::new(),
            binding_names: Vec::new(),
            signature_binding_names: Vec::new(),
        };
        let mut i: usize = 0;
        while i < header.parameters.len()
            invariant
                fa.wf(),
                fa.analyzer == analyzer,
                fa.header == header,
                i <= header.parameters@.len(),
                fa.parameters@.len() == i,
                fa.bindings@.len() == value_count(header.parameters@.take(i as int)),
                fa.signature_bindings@.len() == i - value_count(header.parameters@.take(i as int)),
                forall|j: int|
                    0 <= j < i ==> parameter_bound(
                        header.parameters@,
                        j,
                        #[trigger] fa.parameters@[j],
                        fa.bindings@,
                        fa.signature_bindings@,
                    ),
                forall|n: Seq<char>|
                    #![trigger lookup(fa.binding_names@, n)]
                    (lookup(fa.binding_names@, n) is Some) == value_param_named(header.parameters@, i as int, n),
                forall|n: Seq<char>|
                    #![trigger lookup(fa.binding_names@, n)]
                    lookup(fa.binding_names@, n) is Some ==> exists|j: int|
                        0 <= j < i && #[trigger] value_param_typed(header.parameters@, j, n, fa.bindings@[lookup(fa.binding_names@, n)->0 as int].type_id.0),
            decreases header.parameters@.len() - i,
        {
            proof {
                assert(crate::analyzer::param_below(header.parameters@[i as int], fa.nt(), fa.ns()));
            }
            proof {
                assert(header.parameters@.take(i + 1).drop_last() =~= header.parameters@.take(i as int));
                assert(header.parameters@.take(i + 1).last() == header.parameters@[i as int]);
                lemma_value_count_le(header.parameters@.take(i as int));
            }
            let ghost before_all = fa;
            match &header.parameters[i] {
                FormalParamMeta::Value { name, type_id, .. } => {
                    let bid = fa.bindings.len();
                    let ghost before = fa.binding_names@;
                    let ghost before_params = fa.parameters@;
                    let ghost before_bindings = fa.bindings@;
                    fa.bindings.push(SemanticBinding { type_id: TypeId(*type_id) });
                    fa.parameters.push(SemanticParameter::Value(BindingId(bid)));
                    bind_name(&mut fa.binding_names, name.as_str(), bid);
                    proof {
                        assert(value_param_typed(header.parameters@, i as int, name@, *type_id));
                        assert(fa.bindings@[bid as int].type_id.0 == *type_id);
                        assert forall|n: Seq<char>|
                            #![trigger lookup(fa.binding_names@, n)]
                            (lookup(fa.binding_names@, n) is Some) == value_param_named(header.parameters@, i + 1, n) by {
                            lemma_lookup_push(before, fa.binding_names@.last(), n);
                            if value_param_named(header.parameters@, i + 1, n) {
                                let (j, t) = choose|j: int, t: usize| 0 <= j < i + 1 && #[trigger] value_param_typed(header.parameters@, j, n, t);
                                if j < i {
                                    assert(value_param_named(header.parameters@, i as int, n));
                                }
                            }
                            if value_param_named(header.parameters@, i as int, n) {
                                let (j, t) = choose|j: int, t: usize| 0 <= j < i && #[trigger] value_param_typed(header.parameters@, j, n, t);
                                assert(value_param_typed(header.parameters@, j, n, t));
                            }
                            if n == name@ {
                                assert(value_param_typed(header.parameters@, i as int, n, *type_id));
                            }
                        }
                        lemma_bind_value_param(before, fa.binding_names@, before_bindings, fa.bindings@, header.parameters@, i as int, name@, *type_id, bid);
                        assert forall|k: int| 0 <= k < fa.parameters@.len() implies match #[trigger] fa.parameters@[k] {
                            SemanticParameter::Value(b) => (b.0 as int) < fa.nb(),
                            SemanticParameter::SignatureDependency(s) => (s.0 as int) < fa.nsb(),
                        } by {
                            if k < before_params.len() {
                                assert(fa.parameters@[k] == before_params[k]);
                            }
                        }
                        assert forall|k: int| 0 <= k < fa.binding_names@.len() implies (#[trigger] fa.binding_names@[k].index as int) < fa.nb() by {
                            if k < before.len() {
                                assert(fa.binding_names@[k] == before[k]);
                            }
                        }
                    }
                },
                FormalParamMeta::SignatureDependency { name, signature_id, .. } => {
                    let sbid = fa.signature_bindings.len();
                    let ghost before = fa.signature_binding_names@;
                    let ghost before_params = fa.parameters@;
                    fa.signature_bindings.push(SemanticSignatureBinding { signature: SignatureId(*signature_id) });
                    fa.parameters.push(SemanticParameter::SignatureDependency(SignatureBindingId(sbid)));
                    bind_name(&mut fa.signature_binding_names, name.as_str(), sbid);
                    proof {
                        assert forall|n: Seq<char>|
                            value_param_named(header.parameters@, i + 1, n) implies value_param_named(header.parameters@, i as int, n) by {
                            let (j, t) = choose|j: int, t: usize| 0 <= j < i + 1 && #[trigger] value_param_typed(header.parameters@, j, n, t);
                            assert(j != i);
                        }
                        assert forall|n: Seq<char>|
                            value_param_named(header.parameters@, i as int, n) implies value_param_named(header.parameters@, i + 1, n) by {
                            let (j, t) = choose|j: int, t: usize| 0 <= j < i && #[trigger] value_param_typed(header.parameters@, j, n, t);
                            assert(value_param_typed(header.parameters@, j, n, t));
                        }
                        assert forall|k: int| 0 <= k < fa.parameters@.len() implies match #[trigger] fa.parameters@[k] {
                            SemanticParameter::Value(b) => (b.0 as int) < fa.nb(),
                            SemanticParameter::SignatureDependency(s) => (s.0 as int) < fa.nsb(),
                        } by {
                            if k < before_params.len() {
                                assert(fa.parameters@[k] == before_params[k]);
                            }
                        }
                        assert forall|k: int| 0 <= k < fa.signature_binding_names@.len() implies (#[trigger] fa.signature_binding_names@[k].index as int) < fa.nsb() by {
                            if k < before.len() {
                                assert(fa.signature_binding_names@[k] == before[k]);
                            }
                        }
                    }
                },
            }
            proof {
                assert forall|j: int| 0 <= j < i + 1 implies parameter_bound(
                    header.parameters@,
                    j,
                    #[trigger] fa.parameters@[j],
                    fa.bindings@,
                    fa.signature_bindings@,
                ) by {
                    if j < i {
                        assert(fa.parameters@[j] == before_all.parameters@[j]);
                        assert(parameter_bound(
                            header.parameters@,
                            j,
                            before_all.parameters@[j],
                            before_all.bindings@,
                            before_all.signature_bindings@,
                        ));
                        lemma_value_count_le(header.parameters@.take(j));
                        let vb = value_count(header.parameters@.take(j)) as int;
                        if header.parameters@[j] is Value {
                            assert(fa.bindings@[vb] == before_all.bindings@[vb]);
                        } else {
                            assert(fa.signature_bindings@[j - vb] == before_all.signature_bindings@[j - vb]);
                        }
                    }
                }
            }
            i = i + 1;
        }
        proof {
            assert(header.parameters@.take(i as int) =~= header.parameters@);
        }
        fa
    }

    /// The type and canonical text of an integer literal, negated in a
    /// negative context: it takes the expected type when that is an integer
    /// type or the dynamic type, `int` otherwise, and must be a value of it.
    fn resolve_integer_literal(
        &self,
        lexeme: &str,
        span: SourceSpan,
        expected: Option<usize>,
        negative: bool,
    ) -> (r: Result<(usize, String), CompileFailure>)
        requires
            self.wf(),
            self.expected_ok(expected),
        ensures
            ({
                let t = integer_literal_target(self.types(), expected);
                match r {
                    Ok((ty, text)) => {
                        &&& ty == t
                        &&& text@ == canonical_integer(lexeme@)
                        &&& integer_representable(canonical_integer(lexeme@), target_native(self.types()[t as int]), negative)
                    },
                    Err(e) => {
                        &&& !integer_representable(canonical_integer(lexeme@), target_native(self.types()[t as int]), negative)
                        &&& e == semantic_failure(
                            SemanticFailure::TypeChecking(
                                TypeCheckingFailure::NumericLiteralNotRepresentable {
                                    expected: self.analyzer.type_descriptors@[t as int],
                                },
                            ),
                            span,
                        )
                    },
                }
            }),
    {
        let canonical = canonical_integer_string(lexeme);
        let target = match expected {
            Some(t) => if is_integer_or_dynamic_type(&self.analyzer.types[t]) {
                t
            } else {
                native_type_id(NativeType::Int)
            },
            None => native_type_id(NativeType::Int),
        };
        let native = match &self.analyzer.types[target] {
            SemanticType::Native(nt) => *nt,
            _ => NativeType::Int,
        };
        if !is_integer_representable_in_native(canonical.as_str(), &native, negative) {
            return Err(
                fail(
                    SemanticFailure::TypeChecking(
                        TypeCheckingFailure::NumericLiteralNotRepresentable {
                            expected: clone_type_descriptor(&self.analyzer.type_descriptors[target]),
                        },
                    ),
                    span,
                ),
            );
        }
        Ok((target, canonical))
    }

    /// A literal: an integer or floating literal takes the expected type when
    /// that suits it and must be a value of its type; a Boolean literal is
    /// `bool`, a string literal `string`.
    fn analyze_literal(
        &self,
        kind: LiteralKind,
        lexeme: &str,
        span: SourceSpan,
        expected: Option<usize>,
    ) -> (r: Result<SemanticExpression, CompileFailure>)
        requires
            self.wf(),
            self.expected_ok(expected),
            kind == LiteralKind::String && lexeme@.len() > 0 ==> is_ascii_char(lexeme@[0]) && is_ascii_char(lexeme@.last()),
        ensures
            r matches Ok(e) ==> {
                &&& self.expr_ok(e)
                &&& e.span == span
                &&& match kind {
                    LiteralKind::Integer => {
                        &&& e.type_id.0 == integer_literal_target(self.types(), expected)
                        &&& e.kind matches SemanticExpressionKind::Literal(SemanticLiteral::Integer(text))
                        &&& text@ == canonical_integer(lexeme@)
                    },
                    LiteralKind::Floating => {
                        &&& e.type_id.0 == floating_literal_target(self.types(), expected)
                        &&& e.kind matches SemanticExpressionKind::Literal(SemanticLiteral::Floating(text))
                        &&& text@ == lexeme@
                    },
                    LiteralKind::Boolean => {
                        &&& e.type_id.0 == native_type_index(NativeType::Bool)
                        &&& e.kind == SemanticExpressionKind::Literal(SemanticLiteral::Boolean(lexeme@ == "true"@))
                    },
                    LiteralKind::String => {
                        &&& e.type_id.0 == native_type_index(NativeType::String)
                        &&& e.kind matches SemanticExpressionKind::Literal(SemanticLiteral::String(text))
                        &&& text@ == string_literal_text(lexeme@)
                    },
                }
            },
            kind == LiteralKind::Integer ==> (r is Ok <==> integer_representable(
                canonical_integer(lexeme@),
                target_native(self.types()[integer_literal_target(self.types(), expected) as int]),
                false,
            )),
            kind == LiteralKind::Floating ==> (r is Ok <==> floating_literal_is_finite(
                lexeme@,
                target_native(self.types()[floating_literal_target(self.types(), expected) as int])
                    == NativeType::Float32,
            )),
            kind == LiteralKind::Boolean || kind == LiteralKind::String ==> r is Ok,
            r matches Err(e) ==> e == semantic_failure(
                SemanticFailure::TypeChecking(
                    TypeCheckingFailure::NumericLiteralNotRepresentable {
                        expected: self.analyzer.type_descriptors@[if kind == LiteralKind::Integer {
                            integer_literal_target(self.types(), expected)
                        } else {
                            floating_literal_target(self.types(), expected)
                        } as int],
                    },
                ),
                span,
            ),
    {
        match kind {
            LiteralKind::Integer => {
                let (t, text) = self.resolve_integer_literal(lexeme, span, expected, false)?;
                Ok(SemanticExpression {
                    type_id: TypeId(t),
                    kind: SemanticExpressionKind::Literal(SemanticLiteral::Integer(text)),
                    span,
                })
            },
            LiteralKind::Floating => {
                let target = match expected {
                    Some(t) => match &self.analyzer.types[t] {
                        SemanticType::Native(NativeType::Float) => t,
                        SemanticType::Native(NativeType::Float32) => t,
                        SemanticType::Native(NativeType::Float64) => t,
                        SemanticType::Native(NativeType::Dynamic) => t,
                        _ => native_type_id(NativeType::Float),
                    },
                    None => native_type_id(NativeType::Float),
                };
                let single = match &self.analyzer.types[target] {
                    SemanticType::Native(NativeType::Float32) => true,
                    _ => false,
                };
                if !crate::literals::floating_literal_finite(lexeme, single) {
                    return Err(
                        fail(
                            SemanticFailure::TypeChecking(
                                TypeCheckingFailure::NumericLiteralNotRepresentable {
                                    expected: clone_type_descriptor(&self.analyzer.type_descriptors[target]),
                                },
                            ),
                            span,
                        ),
                    );
                }
                Ok(SemanticExpression {
                    type_id: TypeId(target),
                    kind: SemanticExpressionKind::Literal(SemanticLiteral::Floating(lexeme.to_owned())),
                    span,
                })
            },
            LiteralKind::Boolean => {
                let value = same_text(lexeme, "true");
                Ok(SemanticExpression {
                    type_id: TypeId(native_type_id(NativeType::Bool)),
                    kind: SemanticExpressionKind::Literal(SemanticLiteral::Boolean(value)),
                    span,
                })
            },
            LiteralKind::String => {
                let text = decode_string_literal(lexeme);
                Ok(SemanticExpression {
                    type_id: TypeId(native_type_id(NativeType::String)),
                    kind: SemanticExpressionKind::Literal(SemanticLiteral::String(text)),
                    span,
                })
            },
        }
    }

    /// A name used as a value: the binding in scope under that name.
    fn analyze_identifier(&self, id: &Identifier) -> (r: Result<SemanticExpression, CompileFailure>)
        requires
            self.wf(),
        ensures
            match lookup(self.binding_names@, id.lexeme@) {
                Some(b) => r == Ok::<SemanticExpression, CompileFailure>(
                    SemanticExpression {
                        type_id: self.bindings@[b as int].type_id,
                        kind: SemanticExpressionKind::Binding(BindingId(b)),
                        span: id.span,
                    },
                ),
                None => r matches Err(e) && e.kind matches crate::failures::CompileFailureKind::Semantic(
                    SemanticFailure::Resolution(ResolutionFailure::UnknownValueSymbol { name }),
                ) && name@ == id.lexeme@ && e.source_span == id.span,
            },
            r matches Ok(e) ==> self.expr_ok(e),
    {
        match find_name(&self.binding_names, id.lexeme) {
            Some(b) => {
                proof {
                    lemma_lookup_below(self.binding_names@, id.lexeme@, self.nb());
                }
                Ok(SemanticExpression {
                    type_id: self.bindings[b].type_id,
                    kind: SemanticExpressionKind::Binding(BindingId(b)),
                    span: id.span,
                })
            },
            None => Err(
                fail(
                    SemanticFailure::Resolution(ResolutionFailure::UnknownValueSymbol { name: id.lexeme.to_owned() }),
                    id.span,
                ),
            ),
        }
    }
}

/// The place of a native type in the type table.
pub open spec fn native_type_index(nt: NativeType) -> usize {
    match nt {
        NativeType::Int => 0,
        NativeType::Float => 1,
        NativeType::Bool => 2,
        NativeType::String => 3,
        NativeType::Dynamic => 4,
        NativeType::Int8 => 5,
        NativeType::Int16 => 6,
        NativeType::Int32 => 7,
        NativeType::Int64 => 8,
        NativeType::Int128 => 9,
        NativeType::Uint8 => 10,
        NativeType::Uint16 => 11,
        NativeType::Uint32 => 12,
        NativeType::Uint64 => 13,
        NativeType::Uint128 => 14,
        NativeType::Float32 => 15,
        NativeType::Float64 => 16,
    }
}

/// The place of each native type in the type table and the native type at
/// each of the first places agree both ways.
pub proof fn lemma_native_places(nt: NativeType, i: int)
    ensures
        native_at(native_type_index(nt) as int) == nt,
        0 <= i < NATIVE_COUNT ==> native_type_index(native_at(i)) == i,
        (native_type_index(nt) as int) < NATIVE_COUNT,
{
}

// --- Lookups by name ---

/// The position of the last field of `ms` named `name`: a later field of the
/// same name hides an earlier one.
fn field_index(ms: &Vec<FieldMeta>, name: &str) -> (r: Option<usize>)
    ensures
        match r {
            Some(i) => (i as int) < ms@.len() && ms@[i as int].name@ == name@ && forall|j: int|
                i < j < ms@.len() ==> (#[trigger] ms@[j]).name@ != name@,
            None => forall|j: int| 0 <= j < ms@.len() ==> (#[trigger] ms@[j]).name@ != name@,
        },
{
    let mut i: usize = ms.len();
    while i > 0
        invariant
            i <= ms@.len(),
            forall|j: int| i <= j < ms@.len() ==> (#[trigger] ms@[j]).name@ != name@,
        decreases i,
    {
        if same_text(ms[i - 1].name.as_str(), name) {
            return Some(i - 1);
        }
        i = i - 1;
    }
    None
}

/// The position of the last variant of `vs` named `name`.
fn variant_index(vs: &Vec<VariantMeta>, name: &str) -> (r: Option<usize>)
    ensures
        match r {
            Some(i) => (i as int) < vs@.len() && vs@[i as int].spec_name() == name@ && forall|j: int|
                i < j < vs@.len() ==> (#[trigger] vs@[j]).spec_name() != name@,
            None => forall|j: int| 0 <= j < vs@.len() ==> (#[trigger] vs@[j]).spec_name() != name@,
        },
{
    let mut i: usize = vs.len();
    while i > 0
        invariant
            i <= vs@.len(),
            forall|j: int| i <= j < vs@.len() ==> (#[trigger] vs@[j]).spec_name() != name@,
        decreases i,
    {
        if same_text(vs[i - 1].name(), name) {
            return Some(i - 1);
        }
        i = i - 1;
    }
    None
}

/// Whether one of the first `upto` initializers is named `name`.
fn initializer_named(fields: &Vec<FieldInitializer>, upto: usize, name: &str) -> (r: bool)
    requires
        upto <= fields@.len(),
    ensures
        r == exists|j: int| 0 <= j < upto && (#[trigger] fields@[j]).name.lexeme@ == name@,
{
    let mut j: usize = 0;
    while j < upto
        invariant
            upto <= fields@.len(),
            j <= upto,
            forall|k: int| 0 <= k < j ==> (#[trigger] fields@[k]).name.lexeme@ != name@,
        decreases upto - j,
    {
        if same_text(fields[j].name.lexeme, name) {
            return true;
        }
        j = j + 1;
    }
    false
}

/// Whether one of the first `upto` pattern fields names the field `name`.
fn pattern_field_named(fields: &Vec<crate::ast::PatternField>, upto: usize, name: &str) -> (r: bool)
    requires
        upto <= fields@.len(),
    ensures
        r == exists|j: int| 0 <= j < upto && (#[trigger] fields@[j]).field.lexeme@ == name@,
{
    let mut j: usize = 0;
    while j < upto
        invariant
            upto <= fields@.len(),
            j <= upto,
            forall|k: int| 0 <= k < j ==> (#[trigger] fields@[k]).field.lexeme@ != name@,
        decreases upto - j,
    {
        if same_text(fields[j].field.lexeme, name) {
            return true;
        }
        j = j + 1;
    }
    false
}

/// Whether `name` is among `names`.
fn text_listed(names: &Vec<&str>, name: &str) -> (r: bool)
    ensures
        r == exists|j: int| 0 <= j < names@.len() && (#[trigger] names@[j])@ == name@,
{
    let mut j: usize = 0;
    while j < names.len()
        invariant
            j <= names@.len(),
            forall|k: int| 0 <= k < j ==> (#[trigger] names@[k])@ != name@,
        decreases names@.len() - j,
    {
        if same_text(names[j], name) {
            return true;
        }
        j = j + 1;
    }
    false
}


/// The imported signatures known under `name`, as a position in `t`: the
/// first entry that carries the name.
fn signature_names_index(t: &Vec<crate::analyzer::NamedSignatures>, name: &str) -> (r: Option<usize>)
    ensures
        r matches Some(i) ==> (i as int) < t@.len() && t@[i as int].name@ == name@
            && t@[i as int].ids@ == direct_signature_ids(t@, name@),
        r is None ==> direct_signature_ids(t@, name@).len() == 0,
{
    let mut i: usize = 0;
    assert(t@.skip(0) =~= t@);
    while i < t.len()
        invariant
            i <= t@.len(),
            direct_signature_ids(t@, name@) == direct_signature_ids(t@.skip(i as int), name@),
        decreases t@.len() - i,
    {
        assert(t@.skip(i as int)[0] == t@[i as int]);
        if same_text(t[i].name.as_str(), name) {
            return Some(i);
        }
        assert(t@.skip(i as int).drop_first() =~= t@.skip(i + 1));
        i = i + 1;
    }
    assert(t@.skip(i as int).len() == 0);
    None
}

// --- Growth of the binding table ---

pub open spec fn values_wf(vs: Seq<SemanticFieldValue>, nt: nat, nf: nat, ns: nat, nb: nat, nsb: nat) -> bool {
    forall|i: int| 0 <= i < vs.len() ==> expr_wf(#[trigger] vs[i].value, nt, nf, ns, nb, nsb)
}

pub open spec fn args_wf(args: Seq<SemanticArgument>, nt: nat, nf: nat, ns: nat, nb: nat, nsb: nat) -> bool {
    forall|i: int|
        0 <= i < args.len() ==> match #[trigger] args[i] {
            SemanticArgument::Value(v) => expr_wf(v, nt, nf, ns, nb, nsb),
            SemanticArgument::SignatureDependency(s) => (s.0 as int) < nsb,
        }
}

pub open spec fn branches_wf(bs: Seq<SemanticWhenBranch>, nt: nat, nf: nat, ns: nat, nb: nat, nsb: nat) -> bool {
    forall|i: int|
        0 <= i < bs.len() ==> {
            &&& expr_wf(#[trigger] bs[i].result, nt, nf, ns, nb, nsb)
            &&& extraction_wf(bs[i].extraction, nb)
        }
}

proof fn lemma_values_grow(vs: Seq<SemanticFieldValue>, nt: nat, nf: nat, ns: nat, nb: nat, nsb: nat, nb2: nat)
    requires
        values_wf(vs, nt, nf, ns, nb, nsb),
        nb <= nb2,
    ensures
        values_wf(vs, nt, nf, ns, nb2, nsb),
{
    assert forall|i: int| 0 <= i < vs.len() implies expr_wf(#[trigger] vs[i].value, nt, nf, ns, nb2, nsb) by {
        lemma_expr_wf_grow(vs[i].value, nt, nf, ns, nb, nsb, nb2);
    }
}

proof fn lemma_args_grow(args: Seq<SemanticArgument>, nt: nat, nf: nat, ns: nat, nb: nat, nsb: nat, nb2: nat)
    requires
        args_wf(args, nt, nf, ns, nb, nsb),
        nb <= nb2,
    ensures
        args_wf(args, nt, nf, ns, nb2, nsb),
{
    assert forall|i: int|
        0 <= i < args.len() implies match #[trigger] args[i] {
            SemanticArgument::Value(v) => expr_wf(v, nt, nf, ns, nb2, nsb),
            SemanticArgument::SignatureDependency(s) => (s.0 as int) < nsb,
        } by {
        if let SemanticArgument::Value(v) = args[i] {
            lemma_expr_wf_grow(v, nt, nf, ns, nb, nsb, nb2);
        }
    }
}

proof fn lemma_branches_grow(bs: Seq<SemanticWhenBranch>, nt: nat, nf: nat, ns: nat, nb: nat, nsb: nat, nb2: nat)
    requires
        branches_wf(bs, nt, nf, ns, nb, nsb),
        nb <= nb2,
    ensures
        branches_wf(bs, nt, nf, ns, nb2, nsb),
{
    assert forall|i: int|
        0 <= i < bs.len() implies {
            &&& expr_wf(#[trigger] bs[i].result, nt, nf, ns, nb2, nsb)
            &&& extraction_wf(bs[i].extraction, nb2)
        } by {
        lemma_expr_wf_grow(bs[i].result, nt, nf, ns, nb, nsb, nb2);
    }
}

// --- Expressions whose type is known to be floating ---

pub open spec fn floating_type(t: SemanticType) -> bool {
    t == SemanticType::Native(NativeType::Float) || t == SemanticType::Native(NativeType::Float32)
        || t == SemanticType::Native(NativeType::Float64)
}

pub open spec fn arithmetic_operator(op: BinaryOperator) -> bool {
    op == BinaryOperator::Add || op == BinaryOperator::Subtract || op == BinaryOperator::Multiply
        || op == BinaryOperator::Divide || op == BinaryOperator::Remainder
}

/// The value of `e` is known, before the program runs, to be a floating
/// number: its type is a floating type, or it has the dynamic type and is a
/// floating literal, a floating binding, the negation of such a value, an
/// arithmetic operation with such an operand, or a `when` with such a branch.
pub open spec fn statically_floating(types: Seq<SemanticType>, bindings: Seq<SemanticBinding>, e: SemanticExpression) -> bool
    decreases e,
{
    if floating_type(types[e.type_id.0 as int]) {
        true
    } else if types[e.type_id.0 as int] == SemanticType::Native(NativeType::Dynamic) {
        match e.kind {
            SemanticExpressionKind::Literal(l) => l is Floating,
            SemanticExpressionKind::Binding(b) => floating_type(types[bindings[b.0 as int].type_id.0 as int]),
            SemanticExpressionKind::Unary { operator, operand } => operator == UnaryOperator::Negate
                && statically_floating(types, bindings, *operand),
            SemanticExpressionKind::Binary { left, operator, right } => arithmetic_operator(operator) && (
            statically_floating(types, bindings, *left) || statically_floating(types, bindings, *right)),
            SemanticExpressionKind::When(w) => exists|i: int|
                0 <= i < w.branches@.len() && statically_floating(types, bindings, #[trigger] w.branches@[i].result),
            _ => false,
        }
    } else {
        false
    }
}

/// Type `t` is a native number type: an integer, a float or the dynamic number.
pub open spec fn numeric_type_at(types: Seq<SemanticType>, t: int) -> bool {
    match types[t] {
        SemanticType::Native(nt) => numeric_native(nt),
        _ => false,
    }
}

pub open spec fn integer_type_at(types: Seq<SemanticType>, t: int) -> bool {
    match types[t] {
        SemanticType::Native(nt) => integer_native(nt),
        _ => false,
    }
}

/// Type `t` can be ordered with `<` and its kin: a number type other than the
/// dynamic one.
pub open spec fn orderable_type_at(types: Seq<SemanticType>, t: int) -> bool {
    match types[t] {
        SemanticType::Native(nt) => numeric_native(nt) && nt != NativeType::Dynamic,
        _ => false,
    }
}

/// Type `t` can be negated: a signed integer, a float or the dynamic number.
pub open spec fn negatable_type_at(types: Seq<SemanticType>, t: int) -> bool {
    match types[t] {
        SemanticType::Native(nt) => signed_integer_native(nt) || floating_native(nt) || nt
            == NativeType::Dynamic,
        _ => false,
    }
}

/// `t`, or the dynamic number where that is what is expected.
pub open spec fn widened_to_expected(t: int, expected: Option<usize>) -> int {
    if expected == Some(native_type_index(NativeType::Dynamic)) {
        native_type_index(NativeType::Dynamic) as int
    } else {
        t
    }
}

/// The type of a unary operation on an operand of type `ot`; `None` where
/// the operator does not apply to it.
pub open spec fn unary_result_type(
    types: Seq<SemanticType>,
    op: UnaryOperator,
    ot: int,
    expected: Option<usize>,
) -> Option<int> {
    match op {
        UnaryOperator::Not => if ot == native_type_index(NativeType::Bool) {
            Some(ot)
        } else {
            None
        },
        UnaryOperator::Negate => if negatable_type_at(types, ot) {
            Some(widened_to_expected(ot, expected))
        } else {
            None
        },
    }
}

/// Arithmetic on `lt` and `rt`: two operands of one number type give that
/// type (or the dynamic number where that is expected); the dynamic number
/// with any number type gives the dynamic number. `integers_only` restricts
/// operands of one fixed type to the integers.
pub open spec fn arithmetic_result_type(
    types: Seq<SemanticType>,
    lt: int,
    rt: int,
    expected: Option<usize>,
    integers_only: bool,
) -> Option<int> {
    let dynamic = native_type_index(NativeType::Dynamic) as int;
    if lt == rt {
        if integers_only && lt == dynamic {
            Some(dynamic)
        } else if (if integers_only {
            integer_type_at(types, lt)
        } else {
            numeric_type_at(types, lt)
        }) {
            Some(widened_to_expected(lt, expected))
        } else {
            None
        }
    } else if lt == dynamic {
        if numeric_type_at(types, rt) {
            Some(dynamic)
        } else {
            None
        }
    } else if rt == dynamic {
        if numeric_type_at(types, lt) {
            Some(dynamic)
        } else {
            None
        }
    } else {
        None
    }
}

/// `e` is built from names, literals and unary and binary operators.
pub open spec fn shallow(e: Expression) -> bool
    decreases e,
{
    match e.kind {
        ExpressionKind::Identifier(_) => true,
        ExpressionKind::Literal { .. } => true,
        ExpressionKind::Unary { operand, .. } => shallow(*operand),
        ExpressionKind::Binary { left, right, .. } => shallow(*left) && shallow(*right),
        _ => false,
    }
}

/// `e` is a failure of the analysis that is not one of a `when`.
pub open spec fn outside_when(e: CompileFailure) -> bool {
    e.kind matches crate::failures::CompileFailureKind::Semantic(f) && !(f is When)
}

/// A name or a literal.
pub open spec fn is_atom(e: Expression) -> bool {
    e.kind is Identifier || e.kind is Literal
}

/// The type of `left op right` for operands of types `lt` and `rt`; `None`
/// where the operator does not apply to them. `floating_operand` says that
/// an operand is known to be a floating number (no remainder is taken of
/// one), `comparable` that values of `lt` can be compared for equality.
pub open spec fn binary_result_type(
    types: Seq<SemanticType>,
    op: BinaryOperator,
    lt: int,
    rt: int,
    expected: Option<usize>,
    floating_operand: bool,
    comparable: bool,
) -> Option<int> {
    let boolean = native_type_index(NativeType::Bool) as int;
    match op {
        BinaryOperator::Add | BinaryOperator::Subtract | BinaryOperator::Multiply
        | BinaryOperator::Divide => arithmetic_result_type(types, lt, rt, expected, false),
        BinaryOperator::Remainder => if floating_operand {
            None
        } else {
            arithmetic_result_type(types, lt, rt, expected, true)
        },
        BinaryOperator::And | BinaryOperator::Or => if lt == boolean && rt == boolean {
            Some(boolean)
        } else {
            None
        },
        BinaryOperator::Equal | BinaryOperator::NotEqual => if comparable && lt == rt {
            Some(boolean)
        } else {
            None
        },
        BinaryOperator::Less | BinaryOperator::Greater | BinaryOperator::LessEqual
        | BinaryOperator::GreaterEqual => if orderable_type_at(types, lt) && lt == rt {
            Some(boolean)
        } else {
            None
        },
    }
}

/// The rules of the binary operators over a type table that opens with the
/// native types: `&&` and `||` take two `bool`s and give `bool`; `==` and
/// `!=` take two operands of one type and give `bool`, the orderings the
/// same on number types other than the dynamic one; arithmetic on two
/// operands of one fixed number type gives that type where the dynamic
/// number is not expected, on operands of two types only gives the dynamic
/// number and needs one of them to be it, and never applies to `bool` or
/// `string`; no remainder is taken of a floating operand.
pub proof fn lemma_binary_rules(
    types: Seq<SemanticType>,
    op: BinaryOperator,
    lt: int,
    rt: int,
    expected: Option<usize>,
    floating: bool,
    comparable: bool,
)
    requires
        types.len() >= NATIVE_COUNT,
        forall|i: int| 0 <= i < NATIVE_COUNT ==> #[trigger] types[i] == SemanticType::Native(native_at(i)),
        0 <= lt < types.len(),
        0 <= rt < types.len(),
    ensures
        ({
            let r = binary_result_type(types, op, lt, rt, expected, floating, comparable);
            &&& (op == BinaryOperator::And || op == BinaryOperator::Or) ==> (r matches Some(t) ==> types[t]
                == SemanticType::Native(NativeType::Bool) && types[lt] == SemanticType::Native(NativeType::Bool)
                && types[rt] == SemanticType::Native(NativeType::Bool))
            &&& (op == BinaryOperator::And || op == BinaryOperator::Or) && types[lt] == SemanticType::Native(
                NativeType::Bool,
            ) && lt == rt && lt < NATIVE_COUNT ==> r is Some
            &&& (op == BinaryOperator::Equal || op == BinaryOperator::NotEqual || op == BinaryOperator::Less
                || op == BinaryOperator::Greater || op == BinaryOperator::LessEqual || op == BinaryOperator::GreaterEqual)
                ==> (r matches Some(t) ==> types[t] == SemanticType::Native(NativeType::Bool) && lt == rt)
            &&& (op == BinaryOperator::Less || op == BinaryOperator::Greater || op == BinaryOperator::LessEqual
                || op == BinaryOperator::GreaterEqual) ==> (r is Some <==> (lt == rt && (types[lt] matches SemanticType::Native(
                nt,
            ) && numeric_native(nt) && nt != NativeType::Dynamic)))
            &&& arithmetic_operator(op) && lt != rt ==> (r matches Some(t) ==> types[t] == SemanticType::Native(
                NativeType::Dynamic,
            ) && (types[lt] == SemanticType::Native(NativeType::Dynamic) || types[rt] == SemanticType::Native(
                NativeType::Dynamic,
            )))
            &&& arithmetic_operator(op) && (types[lt] == SemanticType::Native(NativeType::Bool) || types[lt]
                == SemanticType::Native(NativeType::String)) ==> r is None
            &&& op == BinaryOperator::Remainder && floating ==> r is None
            &&& (op == BinaryOperator::Add || op == BinaryOperator::Subtract || op == BinaryOperator::Multiply
                || op == BinaryOperator::Divide) && lt == rt && (types[lt] matches SemanticType::Native(nt) && numeric_native(
                nt,
            )) && expected != Some(native_type_index(NativeType::Dynamic)) ==> r == Some(lt)
        }),
{
    assert(types[2] == SemanticType::Native(native_at(2)));
    assert(types[4] == SemanticType::Native(native_at(4)));
    assert(types[3] == SemanticType::Native(native_at(3)));
}

/// The rules of the unary operators over a type table that opens with the
/// native types: `!` takes and gives `bool`; `-` takes the signed integers,
/// the floats and the dynamic number, giving the operand's type or the
/// dynamic number where that is expected, and takes no unsigned integer,
/// `bool` or `string`.
pub proof fn lemma_unary_rules(types: Seq<SemanticType>, op: UnaryOperator, t: int, expected: Option<usize>)
    requires
        types.len() >= NATIVE_COUNT,
        forall|i: int| 0 <= i < NATIVE_COUNT ==> #[trigger] types[i] == SemanticType::Native(native_at(i)),
        0 <= t < types.len(),
    ensures
        op == UnaryOperator::Not ==> (unary_result_type(types, op, t, expected) is Some <==> types[t] == SemanticType::Native(
            NativeType::Bool,
        ) && t < NATIVE_COUNT),
        op == UnaryOperator::Not ==> (unary_result_type(types, op, t, expected) matches Some(u) ==> u == t),
        op == UnaryOperator::Negate && (types[t] matches SemanticType::Native(nt) && (nt == NativeType::Int
            || nt == NativeType::Int8 || nt == NativeType::Int16 || nt == NativeType::Int32 || nt == NativeType::Int64
            || nt == NativeType::Int128 || nt == NativeType::Float || nt == NativeType::Float32
            || nt == NativeType::Float64 || nt == NativeType::Dynamic)) ==> unary_result_type(types, op, t, expected) == Some(
            if expected == Some(native_type_index(NativeType::Dynamic)) {
                native_type_index(NativeType::Dynamic) as int
            } else {
                t
            },
        ),
        op == UnaryOperator::Negate && (types[t] matches SemanticType::Native(nt) && (nt == NativeType::Uint8
            || nt == NativeType::Uint16 || nt == NativeType::Uint32 || nt == NativeType::Uint64
            || nt == NativeType::Uint128 || nt == NativeType::Bool || nt == NativeType::String))
            ==> unary_result_type(types, op, t, expected) is None,
{
    assert(types[2] == SemanticType::Native(native_at(2)));
}

/// The failure of `op` on operands described as `left` and `right`.
pub open spec fn binary_failure_of(
    op: BinaryOperator,
    left: SemanticTypeDescriptor,
    right: SemanticTypeDescriptor,
) -> TypeCheckingFailure {
    match op {
        BinaryOperator::And | BinaryOperator::Or => TypeCheckingFailure::LogicalOperator {
            operator: op,
            left,
            right,
        },
        BinaryOperator::Equal | BinaryOperator::NotEqual | BinaryOperator::Less
        | BinaryOperator::Greater | BinaryOperator::LessEqual | BinaryOperator::GreaterEqual => {
            TypeCheckingFailure::Comparison { operator: op, left, right }
        },
        _ => TypeCheckingFailure::ArithmeticOperator { operator: op, left, right },
    }
}

impl<'b, 'a, 'source> FunctionAnalyzer<'b, 'a, 'source> {
    fn descriptor(&self, t: usize) -> (r: crate::failures::SemanticTypeDescriptor)
        requires
            self.wf(),
            (t as int) < self.nt(),
        ensures
            r == self.analyzer.type_descriptors@[t as int],
    {
        clone_type_descriptor(&self.analyzer.type_descriptors[t])
    }

    /// Whether the value of `e` is known to be a floating number.
    fn is_statically_known_floating_result(&self, e: &SemanticExpression) -> (r: bool)
        requires
            self.wf(),
            self.expr_ok(*e),
        ensures
            r == statically_floating(self.types(), self.bindings@, *e),
        decreases e,
    {
        let analyzer = self.analyzer;
        match &analyzer.types[e.type_id.0] {
            SemanticType::Native(NativeType::Float) => true,
            SemanticType::Native(NativeType::Float32) => true,
            SemanticType::Native(NativeType::Float64) => true,
            SemanticType::Native(NativeType::Dynamic) => match &e.kind {
                SemanticExpressionKind::Literal(lit) => match lit {
                    SemanticLiteral::Floating(_) => true,
                    _ => false,
                },
                SemanticExpressionKind::Binding(b) => {
                    let bt = self.bindings[b.0].type_id.0;
                    match &analyzer.types[bt] {
                        SemanticType::Native(NativeType::Float) => true,
                        SemanticType::Native(NativeType::Float32) => true,
                        SemanticType::Native(NativeType::Float64) => true,
                        _ => false,
                    }
                },
                SemanticExpressionKind::Unary { operator, operand } => match operator {
                    UnaryOperator::Negate => self.is_statically_known_floating_result(operand),
                    UnaryOperator::Not => false,
                },
                SemanticExpressionKind::Binary { left, operator, right } => match operator {
                    BinaryOperator::Add | BinaryOperator::Subtract | BinaryOperator::Multiply
                    | BinaryOperator::Divide | BinaryOperator::Remainder => {
                        self.is_statically_known_floating_result(left)
                            || self.is_statically_known_floating_result(right)
                    },
                    _ => false,
                },
                SemanticExpressionKind::When(w) => {
                    let mut i: usize = 0;
                    while i < w.branches.len()
                        invariant
                            self.wf(),
                            self.expr_ok(*e),
                            e.kind == SemanticExpressionKind::When(*w),
                            self.types()[e.type_id.0 as int] == SemanticType::Native(NativeType::Dynamic),
                            i <= w.branches@.len(),
                            forall|j: int| 0 <= j < i ==> !statically_floating(self.types(), self.bindings@, #[trigger] w.branches@[j].result),
                        decreases w.branches@.len() - i,
                    {
                        if self.is_statically_known_floating_result(&w.branches[i].result) {
                            proof {
                                assert(statically_floating(self.types(), self.bindings@, w.branches@[i as int].result));
                                assert(self.types()[e.type_id.0 as int] == SemanticType::Native(NativeType::Dynamic));
                                assert(!floating_type(self.types()[e.type_id.0 as int]));
                                assert(statically_floating(self.types(), self.bindings@, *e));
                            }
                            return true;
                        }
                        i = i + 1;
                    }
                    false
                },
                _ => false,
            },
            _ => false,
        }
    }
}

// --- Call targets ---

pub open spec fn formal_below(p: SemanticSignatureParameter, nt: nat, ns: nat) -> bool {
    match p {
        SemanticSignatureParameter::Value(t) => (t.0 as int) < nt,
        SemanticSignatureParameter::SignatureDependency(s) => (s.0 as int) < ns,
    }
}

/// The parameters of a function as a signature's parameters.
/// The parameter of a signature that a function's parameter stands for.
pub open spec fn formal_of_meta(p: FormalParamMeta) -> SemanticSignatureParameter {
    match p {
        FormalParamMeta::Value { type_id, .. } => SemanticSignatureParameter::Value(TypeId(type_id)),
        FormalParamMeta::SignatureDependency { signature_id, .. } => SemanticSignatureParameter::SignatureDependency(
            SignatureId(signature_id),
        ),
    }
}

fn formals_of_header(ps: &Vec<FormalParamMeta>) -> (r: Vec<SemanticSignatureParameter>)
    ensures
        r@.len() == ps@.len(),
        forall|i: int| 0 <= i < ps@.len() ==> crate::analyzer::param_satisfies(#[trigger] ps@[i], r@[i]),
        forall|i: int| 0 <= i < ps@.len() ==> r@[i] == formal_of_meta(#[trigger] ps@[i]),
{
    let mut r: Vec<SemanticSignatureParameter> = Vec::new();
    let mut i: usize = 0;
    while i < ps.len()
        invariant
            i <= ps@.len(),
            r@.len() == i,
            forall|j: int| 0 <= j < i ==> crate::analyzer::param_satisfies(#[trigger] ps@[j], r@[j]),
            forall|j: int| 0 <= j < i ==> r@[j] == formal_of_meta(#[trigger] ps@[j]),
        decreases ps@.len() - i,
    {
        match &ps[i] {
            FormalParamMeta::Value { type_id, .. } => r.push(SemanticSignatureParameter::Value(TypeId(*type_id))),
            FormalParamMeta::SignatureDependency { signature_id, .. } => r.push(
                SemanticSignatureParameter::SignatureDependency(SignatureId(*signature_id)),
            ),
        }
        i = i + 1;
    }
    r
}

/// A copy of a signature's parameters.
fn formals_of_signature(ps: &Vec<SemanticSignatureParameter>) -> (r: Vec<SemanticSignatureParameter>)
    ensures
        r@ == ps@,
{
    let mut r: Vec<SemanticSignatureParameter> = Vec::new();
    let mut i: usize = 0;
    while i < ps.len()
        invariant
            i <= ps@.len(),
            r@ == ps@.take(i as int),
        decreases ps@.len() - i,
    {
        match &ps[i] {
            SemanticSignatureParameter::Value(t) => r.push(SemanticSignatureParameter::Value(TypeId(t.0))),
            SemanticSignatureParameter::SignatureDependency(d) => r.push(
                SemanticSignatureParameter::SignatureDependency(SignatureId(d.0)),
            ),
        }
        proof {
            assert(ps@.take(i + 1) =~= ps@.take(i as int).push(ps@[i as int]));
        }
        i = i + 1;
    }
    proof {
        assert(ps@.take(i as int) =~= ps@);
    }
    r
}

impl<'b, 'a, 'source> FunctionAnalyzer<'b, 'a, 'source> {
    /// How many targets carry `name`: a function of the program, a signature
    /// dependency in scope, and each imported signature known under it.
    pub open spec fn call_candidates(&self, name: Seq<char>) -> int {
        (if lookup(self.analyzer.function_names@, name) is Some {
            1int
        } else {
            0int
        }) + (if lookup(self.signature_binding_names@, name) is Some {
            1int
        } else {
            0int
        }) + direct_signature_ids(self.analyzer.signature_names@, name).len()
    }

    /// The target of a call by `name`, where exactly one carries the name.
    pub open spec fn call_target(&self, name: Seq<char>) -> SemanticCallTarget {
        match lookup(self.analyzer.function_names@, name) {
            Some(f) => SemanticCallTarget::Internal(FunctionId(f)),
            None => match lookup(self.signature_binding_names@, name) {
                Some(b) => SemanticCallTarget::SignatureDependency(SignatureBindingId(b)),
                None => SemanticCallTarget::DirectSignature(
                    SignatureId(direct_signature_ids(self.analyzer.signature_names@, name)[0]),
                ),
            },
        }
    }

    /// The signature that a signature target stands for.
    pub open spec fn target_signature(&self, t: SemanticCallTarget) -> int {
        match t {
            SemanticCallTarget::SignatureDependency(b) => self.signature_bindings@[b.0 as int].signature.0 as int,
            SemanticCallTarget::DirectSignature(s) => s.0 as int,
            _ => 0,
        }
    }

    /// The parameter at `i` of the target of a call.
    pub open spec fn target_parameter(&self, t: SemanticCallTarget, i: int) -> SemanticSignatureParameter {
        match t {
            SemanticCallTarget::Internal(f) => formal_of_meta(self.analyzer.function_headers@[f.0 as int].parameters@[i]),
            _ => self.analyzer.signatures@[self.target_signature(t)].parameters@[i],
        }
    }

    /// An argument suits its parameter: a value of a compatible type for a
    /// value parameter, a dependency on that very signature for a signature
    /// parameter.
    pub open spec fn argument_fits(&self, a: SemanticArgument, formal: SemanticSignatureParameter) -> bool {
        match (a, formal) {
            (SemanticArgument::Value(v), SemanticSignatureParameter::Value(t)) => value_compatible(
                self.types(),
                v.type_id.0 as int,
                t.0 as int,
            ),
            (
                SemanticArgument::SignatureDependency(b),
                SemanticSignatureParameter::SignatureDependency(d),
            ) => self.signature_bindings@[b.0 as int].signature.0 == d.0,
            _ => false,
        }
    }

    /// How many parameters the target of a call takes.
    pub open spec fn target_parameter_count(&self, t: SemanticCallTarget) -> int {
        match t {
            SemanticCallTarget::Internal(f) => self.analyzer.function_headers@[f.0 as int].parameters@.len() as int,
            _ => self.analyzer.signatures@[self.target_signature(t)].parameters@.len() as int,
        }
    }

    /// The type that the target of a call returns.
    pub open spec fn target_result_type(&self, t: SemanticCallTarget) -> int {
        match t {
            SemanticCallTarget::Internal(f) => self.analyzer.function_headers@[f.0 as int].result_type as int,
            _ => self.analyzer.signatures@[self.target_signature(t)].result_type.0 as int,
        }
    }

    /// `e` is what a pipeline stage makes of the value before it: a
    /// conversion to the native type its callee names, or a call of the one
    /// target its callee names, with that value as the first argument and
    /// every argument suited to its parameter.
    pub open spec fn stage_result(&self, stage: PipelineStage, e: SemanticExpression) -> bool {
        match conversion_target(stage.callee.lexeme@) {
            Some(nt) => {
                &&& e.type_id.0 == native_type_index(nt)
                &&& e.kind matches SemanticExpressionKind::Conversion { operand }
                &&& conversion_allowed(&self.types()[operand.type_id.0 as int], nt)
            },
            None => {
                let target = self.call_target(stage.callee.lexeme@);
                &&& self.call_candidates(stage.callee.lexeme@) == 1
                &&& e.type_id.0 == self.target_result_type(target)
                &&& e.kind matches SemanticExpressionKind::Call(c)
                &&& c.target == target
                &&& c.arguments@.len() == stage.additional_arguments@.len() + 1
                &&& self.target_parameter_count(target) == c.arguments@.len()
                &&& c.arguments@[0] is Value
                &&& forall|i: int| 0 <= i < c.arguments@.len() ==> self.argument_fits(
                    #[trigger] c.arguments@[i],
                    self.target_parameter(target, i),
                )
            },
        }
    }

    /// Each stage, last to first, made `e` out of the value before it.
    pub open spec fn pipeline_chain(&self, stages: Seq<PipelineStage>, e: SemanticExpression) -> bool
        decreases stages.len(),
    {
        if stages.len() == 0 {
            true
        } else {
            &&& self.stage_result(stages.last(), e)
            &&& self.pipeline_chain(stages.drop_last(), pipeline_input(e))
        }
    }
}

/// The value that a pipeline stage received: the operand of a conversion, the
/// first argument of a call.
/// The value that entered a chain of `n` stages ending in `e`.
pub open spec fn pipeline_source(e: SemanticExpression, n: nat) -> SemanticExpression
    decreases n,
{
    if n == 0 {
        e
    } else {
        pipeline_source(pipeline_input(e), (n - 1) as nat)
    }
}

pub open spec fn pipeline_input(e: SemanticExpression) -> SemanticExpression {
    match e.kind {
        SemanticExpressionKind::Conversion { operand } => *operand,
        SemanticExpressionKind::Call(c) => match c.arguments@[0] {
            SemanticArgument::Value(v) => v,
            _ => e,
        },
        _ => e,
    }
}

impl<'b, 'a, 'source> FunctionAnalyzer<'b, 'a, 'source> {
    /// What a call by `callee`'s name invokes: a function of the program, a
    /// signature dependency in scope, or an imported signature; exactly one of
    /// them must carry the name. The result holds the target, the parameters
    /// it takes and the type it returns.
    fn resolve_call_target(&self, callee: &Identifier) -> (r: Result<
        (SemanticCallTarget, Vec<SemanticSignatureParameter>, usize),
        CompileFailure,
    >)
        requires
            self.wf(),
        ensures
            r is Ok <==> self.call_candidates(callee.lexeme@) == 1,
            r matches Ok((target, formals, result)) ==> {
                &&& target_wf(target, self.nf(), self.ns(), self.nsb())
                &&& forall|i: int| 0 <= i < formals@.len() ==> formal_below(#[trigger] formals@[i], self.nt(), self.ns())
                &&& (result as int) < self.nt()
                &&& target == self.call_target(callee.lexeme@)
                &&& formals@.len() == self.target_parameter_count(target)
                &&& forall|i: int| 0 <= i < formals@.len() ==> #[trigger] formals@[i] == self.target_parameter(target, i)
                &&& result == self.target_result_type(target)
            },
            r matches Err(e) ==> e.source_span == callee.span && if self.call_candidates(callee.lexeme@) > 1 {
                e.kind matches crate::failures::CompileFailureKind::Semantic(
                    SemanticFailure::Call(CallFailure::AmbiguousTarget { name }),
                ) && name@ == callee.lexeme@
            } else {
                e.kind matches crate::failures::CompileFailureKind::Semantic(
                    SemanticFailure::Call(CallFailure::FunctionNotFound { name }),
                ) && name@ == callee.lexeme@
            },
            r matches Err(e) ==> e.kind matches crate::failures::CompileFailureKind::Semantic(SemanticFailure::Call(c)) && (
            c is FunctionNotFound || c is AmbiguousTarget),
    {
        let analyzer = self.analyzer;
        let local = find_name(&analyzer.function_names, callee.lexeme);
        let dep = find_name(&self.signature_binding_names, callee.lexeme);
        let direct = signature_names_index(&analyzer.signature_names, callee.lexeme);
        let direct_count = match direct {
            Some(i) => analyzer.signature_names[i].ids.len(),
            None => 0,
        };
        let mut others: usize = 0;
        if local.is_some() {
            others = others + 1;
        }
        if dep.is_some() {
            others = others + 1;
        }
        if direct_count > 1 || others + direct_count > 1 {
            return Err(
                fail(
                    SemanticFailure::Call(CallFailure::AmbiguousTarget { name: callee.lexeme.to_owned() }),
                    callee.span,
                ),
            );
        }
        if others + direct_count == 0 {
            return Err(
                fail(
                    SemanticFailure::Call(CallFailure::FunctionNotFound { name: callee.lexeme.to_owned() }),
                    callee.span,
                ),
            );
        }
        proof {
            lemma_lookup_below(analyzer.function_names@, callee.lexeme@, analyzer.function_headers@.len());
            lemma_lookup_below(self.signature_binding_names@, callee.lexeme@, self.nsb());
        }
        if let Some(fid) = local {
            let header = &analyzer.function_headers[fid];
            proof {
                assert(header_below(*header, self.nt(), self.ns()));
            }
            let formals = formals_of_header(&header.parameters);
            proof {
                assert forall|i: int| 0 <= i < formals@.len() implies formal_below(#[trigger] formals@[i], self.nt(), self.ns()) by {
                    assert(crate::analyzer::param_below(header.parameters@[i], self.nt(), self.ns()));
                    assert(crate::analyzer::param_satisfies(header.parameters@[i], formals@[i]));
                }
            }
            return Ok((SemanticCallTarget::Internal(FunctionId(fid)), formals, header.result_type));
        }
        if let Some(sbid) = dep {
            let sid = self.signature_bindings[sbid].signature.0;
            let sig = &analyzer.signatures[sid];
            proof {
                assert(crate::analyzer::signature_below(*sig, self.nt(), self.ns()));
            }
            let formals = formals_of_signature(&sig.parameters);
            return Ok((SemanticCallTarget::SignatureDependency(SignatureBindingId(sbid)), formals, sig.result_type.0));
        }
        let i = direct.unwrap();
        let sid = analyzer.signature_names[i].ids[0];
        proof {
            assert(crate::analyzer::signature_ids_below(analyzer.signature_names@, self.ns()));
            assert(analyzer.signature_names@[i as int].ids@[0] == sid);
        }
        let sig = &analyzer.signatures[sid];
        proof {
            assert(crate::analyzer::signature_below(*sig, self.nt(), self.ns()));
        }
        let formals = formals_of_signature(&sig.parameters);
        Ok((SemanticCallTarget::DirectSignature(SignatureId(sid)), formals, sig.result_type.0))
    }
}

// --- What the analysis of each kind of expression gives ---

/// What a literal of `kind` written `lexeme` becomes, given the expected type.
pub open spec fn literal_typed(
    types: Seq<SemanticType>,
    kind: LiteralKind,
    lexeme: Seq<char>,
    expected: Option<usize>,
    e: SemanticExpression,
) -> bool {
    match kind {
        LiteralKind::Integer => {
            &&& e.type_id.0 == integer_literal_target(types, expected)
            &&& e.kind matches SemanticExpressionKind::Literal(SemanticLiteral::Integer(text))
            &&& text@ == canonical_integer(lexeme)
        },
        LiteralKind::Floating => {
            &&& e.type_id.0 == floating_literal_target(types, expected)
            &&& e.kind matches SemanticExpressionKind::Literal(SemanticLiteral::Floating(text))
            &&& text@ == lexeme
        },
        LiteralKind::Boolean => {
            &&& e.type_id.0 == native_type_index(NativeType::Bool)
            &&& e.kind == SemanticExpressionKind::Literal(SemanticLiteral::Boolean(lexeme == "true"@))
        },
        LiteralKind::String => {
            &&& e.type_id.0 == native_type_index(NativeType::String)
            &&& e.kind matches SemanticExpressionKind::Literal(SemanticLiteral::String(text))
            &&& text@ == string_literal_text(lexeme)
        },
    }
}

impl<'b, 'a, 'source> FunctionAnalyzer<'b, 'a, 'source> {
    /// What the analysis of `expr`, from this state to `fin`, gives when it
    /// succeeds: by the kind of expression, the type and form of the result.
    pub open spec fn expression_typed(
        &self,
        fin: &Self,
        expr: Expression,
        expected: Option<usize>,
        e: SemanticExpression,
    ) -> bool {
        let types = self.types();
        match expr.kind {
            ExpressionKind::Literal { kind, lexeme } => e.span == expr.span && literal_typed(
                types,
                kind,
                lexeme@,
                expected,
                e,
            ),
            ExpressionKind::Identifier(id) => lookup(self.binding_names@, id.lexeme@) matches Some(b) && e == (
            SemanticExpression {
                type_id: self.bindings@[b as int].type_id,
                kind: SemanticExpressionKind::Binding(BindingId(b)),
                span: id.span,
            }),
            ExpressionKind::Unary { operator: op, .. } => {
                &&& e.span == expr.span
                &&& e.kind matches SemanticExpressionKind::Unary { operator, operand }
                &&& operator == op
                &&& unary_result_type(types, operator, operand.type_id.0 as int, expected) == Some(e.type_id.0 as int)
            },
            ExpressionKind::Binary { operator: op, .. } => {
                &&& e.span == expr.span
                &&& e.kind matches SemanticExpressionKind::Binary { left, operator, right }
                &&& operator == op
                &&& binary_result_type(
                    types,
                    operator,
                    left.type_id.0 as int,
                    right.type_id.0 as int,
                    expected,
                    statically_floating(types, fin.bindings@, *left) || statically_floating(
                        types,
                        fin.bindings@,
                        *right,
                    ),
                    equality_comparable(types, left.type_id.0 as int),
                ) == Some(e.type_id.0 as int)
            },
            ExpressionKind::FieldAccess { field: name, .. } => {
                &&& e.span == expr.span
                &&& e.kind matches SemanticExpressionKind::FieldAccess { receiver, field }
                &&& self.analyzer.metas@[receiver.type_id.0 as int] matches TypeMeta::Struct(sm)
                &&& (field.0 as int) < sm.fields@.len()
                &&& sm.fields@[field.0 as int].name@ == name.lexeme@
                &&& forall|j: int| field.0 < j < sm.fields@.len() ==> (#[trigger] sm.fields@[j]).name@ != name.lexeme@
                &&& e.type_id.0 == sm.fields@[field.0 as int].type_id
            },
            ExpressionKind::StructConstruction { type_ident, fields: inits } => {
                &&& lookup(self.analyzer.type_names@, type_ident.lexeme@) == Some(e.type_id.0)
                &&& self.analyzer.metas@[e.type_id.0 as int] matches TypeMeta::Struct(sm)
                &&& e.span == expr.span
                &&& e.kind matches SemanticExpressionKind::StructConstruction { fields }
                &&& values_follow(types, fields@, inits@, sm.fields@)
            },
            ExpressionKind::EnumConstruction(ec) => {
                let q = construction_variant(ec);
                &&& lookup(self.analyzer.type_names@, q.qualifier.lexeme@) == Some(e.type_id.0)
                &&& self.analyzer.metas@[e.type_id.0 as int] matches TypeMeta::Enum(em)
                &&& e.span == expr.span
                &&& e.kind matches SemanticExpressionKind::EnumConstruction { variant, payload }
                &&& last_variant_named(em.variants@, q.name.lexeme@, variant.0 as int)
                &&& match (em.variants@[variant.0 as int], payload) {
                    (VariantMeta::Simple { .. }, SemanticEnumPayload::Simple) => true,
                    (VariantMeta::Associated { type_id, .. }, SemanticEnumPayload::Associated { value }) => value_compatible(
                        types,
                        value.type_id.0 as int,
                        type_id as int,
                    ),
                    (VariantMeta::Structured { fields: defs, .. }, SemanticEnumPayload::Structured { fields }) => values_follow(
                        types,
                        fields@,
                        ec->Structured_fields@,
                        defs@,
                    ),
                    _ => false,
                }
            },
            ExpressionKind::FunctionCall(call) => {
                &&& e.span == expr.span
                &&& match conversion_target(call.callee.lexeme@) {
                    Some(nt) => {
                        &&& e.type_id.0 == native_type_index(nt)
                        &&& e.kind matches SemanticExpressionKind::Conversion { operand }
                        &&& conversion_allowed(&types[operand.type_id.0 as int], nt)
                    },
                    None => {
                        let target = self.call_target(call.callee.lexeme@);
                        &&& self.call_candidates(call.callee.lexeme@) == 1
                        &&& e.type_id.0 == self.target_result_type(target)
                        &&& e.kind matches SemanticExpressionKind::Call(c)
                        &&& c.target == target
                        &&& c.arguments@.len() == call.arguments@.len()
                        &&& self.target_parameter_count(target) == call.arguments@.len()
                        &&& forall|i: int| 0 <= i < c.arguments@.len() ==> self.argument_fits(
                            #[trigger] c.arguments@[i],
                            self.target_parameter(target, i),
                        )
                    },
                }
            },
            ExpressionKind::Pipeline(pipe) => self.pipeline_chain(pipe.stages@, e),
            ExpressionKind::When(w) => {
                &&& e.span == expr.span
                &&& e.kind matches SemanticExpressionKind::When(sw)
                &&& self.analyzer.metas@[sw.subject.type_id.0 as int] matches TypeMeta::Enum(em)
                &&& branches_cover(sw.branches@, em.variants@, w.correspondences@)
                &&& sw.branches@.len() > 0
                &&& e.type_id.0 == match expected {
                    Some(t) => t,
                    None => sw.branches@[0].result.type_id.0,
                }
                &&& forall|i: int| 0 <= i < sw.branches@.len() ==> value_compatible(
                    types,
                    (#[trigger] sw.branches@[i]).result.type_id.0 as int,
                    e.type_id.0 as int,
                )
            },
        }
    }
}

// --- The analysis of expressions ---

impl<'b, 'a, 'source> FunctionAnalyzer<'b, 'a, 'source> {
    /// Resolves and types `expr`, given the type its context expects if any.
    /// A name succeeds exactly when a binding in scope has it, a literal
    /// exactly when it is a value of the type it takes; an expression built
    /// from names, literals and operators exactly when `shallow_info` gives
    /// its type, which it then has.
    pub fn analyze_expression(&mut self, expr: &Expression, expected: Option<usize>) -> (r: Result<
        SemanticExpression,
        CompileFailure,
    >)
        requires
            old(self).wf(),
            old(self).expected_ok(expected),
            parsed_form(*expr),
        ensures
            final(self).extends(old(self)),
            r is Ok ==> final(self).binding_names@ == old(self).binding_names@,
            r matches Ok(e) ==> final(self).expr_ok(e),
            r matches Ok(e) ==> old(self).expression_typed(final(self), *expr, expected, e),
            expr.kind is Identifier ==> (r is Ok <==> old(self).bound_type(*expr) is Some),
            r matches Ok(e) ==> (expr.kind is Identifier ==> old(self).bound_type(*expr) == Some(e.type_id.0)),
            expr.kind matches ExpressionKind::Literal { kind, lexeme } ==> (r is Ok <==> old(self).literal_accepted(
                kind,
                lexeme@,
                expected,
            )),
            expr.kind matches ExpressionKind::Literal { kind, .. } ==> (r matches Ok(e) ==> e.type_id.0 == literal_type(
                old(self).types(),
                kind,
                expected,
            )),
            expr.kind matches ExpressionKind::Literal { kind, .. } ==> (r matches Err(e) ==> e == semantic_failure(
                SemanticFailure::TypeChecking(
                    TypeCheckingFailure::NumericLiteralNotRepresentable {
                        expected: old(self).analyzer.type_descriptors@[if kind == LiteralKind::Integer {
                            integer_literal_target(old(self).types(), expected)
                        } else {
                            floating_literal_target(old(self).types(), expected)
                        } as int],
                    },
                ),
                expr.span,
            )),
            expr.kind matches ExpressionKind::Identifier(id) ==> (r matches Err(e) ==> (e.source_span == id.span
                && (e.kind matches crate::failures::CompileFailureKind::Semantic(
                SemanticFailure::Resolution(ResolutionFailure::UnknownValueSymbol { name }),
            ) && name@ == id.lexeme@))),
            shallow(*expr) ==> *final(self) == *old(self),
            shallow(*expr) ==> (r matches Err(e) ==> outside_when(e)),
            shallow(*expr) ==> match old(self).shallow_info(*expr, expected) {
                None => r is Err,
                Some((t, f)) => r matches Ok(x) && x.type_id.0 == t && statically_floating(
                    old(self).types(),
                    old(self).bindings@,
                    x,
                ) == f,
            },
        decreases *expr, 1nat,
    {
        let ghost start = *self;
        match &expr.kind {
            ExpressionKind::Literal { kind, lexeme } => {
                let r = self.analyze_literal(*kind, lexeme, expr.span, expected);
                proof {
                    if r is Ok {
                        self.lemma_atom_floating(&start, &start, *expr, expected, r->Ok_0);
                    }
                }
                r
            },
            ExpressionKind::Identifier(id) => {
                let r = self.analyze_identifier(id);
                proof {
                    if r is Ok {
                        assert(start.expression_typed(&start, *expr, expected, r->Ok_0));
                        self.lemma_atom_floating(&start, &start, *expr, expected, r->Ok_0);
                    }
                }
                r
            },
            ExpressionKind::Unary { .. } => self.analyze_unary(expr, expected),
            ExpressionKind::Binary { .. } => self.analyze_binary(expr, expected),
            ExpressionKind::FieldAccess { .. } => self.analyze_field_access(expr),
            ExpressionKind::StructConstruction { .. } => self.analyze_struct_construction(expr),
            ExpressionKind::EnumConstruction(ec) => self.analyze_enum_construction(ec, expr.span),
            ExpressionKind::FunctionCall(call) => self.analyze_function_call(call, expr.span),
            ExpressionKind::Pipeline(pipe) => self.analyze_pipeline(pipe),
            ExpressionKind::When(w) => self.analyze_when(w, expr.span, expected),
        }
    }

    /// `!` takes and gives `bool`. `-` takes a signed integer, floating or
    /// dynamic number; a negated integer literal is read as a negative value
    /// of its type. On an operand built from names, literals and operators,
    /// or a negated integer literal, it succeeds exactly when these rules
    /// hold, and otherwise reports the operator with the operand's type, or
    /// the literal that its type cannot hold.
    fn analyze_unary(&mut self, expr: &Expression, expected: Option<usize>) -> (r: Result<
        SemanticExpression,
        CompileFailure,
    >)
        requires
            old(self).wf(),
            old(self).expected_ok(expected),
            parsed_form(*expr),
            expr.kind is Unary,
        ensures
            final(self).extends(old(self)),
            r is Ok ==> final(self).binding_names@ == old(self).binding_names@,
            r matches Ok(e) ==> final(self).expr_ok(e),
            r matches Ok(e) ==> {
                &&& e.span == expr.span
                &&& e.kind matches SemanticExpressionKind::Unary { operator, operand }
                &&& operator == expr.kind->Unary_operator
                &&& unary_result_type(final(self).types(), operator, operand.type_id.0 as int, expected)
                    == Some(e.type_id.0 as int)
            },
            shallow(*expr) ==> *final(self) == *old(self),
            shallow(*expr) ==> (r matches Err(e) ==> outside_when(e)),
            shallow(*expr) && !(expr.kind->Unary_operator == UnaryOperator::Negate
                && expr.kind->Unary_operand.kind matches ExpressionKind::Literal { kind: LiteralKind::Integer, .. })
                ==> match old(self).shallow_info(
                *expr.kind->Unary_operand,
                if expr.kind->Unary_operator == UnaryOperator::Not {
                    None
                } else {
                    expected
                },
            ) {
                None => r is Err,
                Some((t, _)) => {
                    &&& (r is Ok <==> unary_result_type(old(self).types(), expr.kind->Unary_operator, t as int, expected) is Some)
                    &&& (r matches Err(e) ==> e == semantic_failure(
                        SemanticFailure::TypeChecking(
                            TypeCheckingFailure::UnaryOperator {
                                operator: expr.kind->Unary_operator,
                                operand: old(self).analyzer.type_descriptors@[t as int],
                            },
                        ),
                        expr.span,
                    ))
                },
            },
            shallow(*expr) ==> (r is Ok <==> old(self).shallow_info(*expr, expected) is Some),
            shallow(*expr) ==> (r matches Ok(x) ==> old(self).shallow_info(*expr, expected) == Some(
                (x.type_id.0, statically_floating(old(self).types(), old(self).bindings@, x)),
            )),
            expr.kind->Unary_operator == UnaryOperator::Negate ==> (expr.kind->Unary_operand.kind matches ExpressionKind::Literal {
                kind: LiteralKind::Integer,
                lexeme,
            } ==> (r matches Err(e) ==> {
                let t = integer_literal_target(old(self).types(), expected);
                e == if !integer_representable(canonical_integer(lexeme@), target_native(old(self).types()[t as int]), true) {
                    semantic_failure(
                        SemanticFailure::TypeChecking(
                            TypeCheckingFailure::NumericLiteralNotRepresentable {
                                expected: old(self).analyzer.type_descriptors@[t as int],
                            },
                        ),
                        expr.kind->Unary_operand.span,
                    )
                } else {
                    semantic_failure(
                        SemanticFailure::TypeChecking(
                            TypeCheckingFailure::UnaryOperator {
                                operator: UnaryOperator::Negate,
                                operand: old(self).analyzer.type_descriptors@[t as int],
                            },
                        ),
                        expr.span,
                    )
                }
            })),
            expr.kind->Unary_operator == UnaryOperator::Negate ==> (expr.kind->Unary_operand.kind matches ExpressionKind::Literal {
                kind: LiteralKind::Integer,
                lexeme,
            } ==> (r is Ok <==> old(self).negative_literal_accepted(lexeme@, expected))),
        decreases *expr, 0nat,
    {
        let (operator, operand) = match &expr.kind {
            ExpressionKind::Unary { operator, operand } => (*operator, operand),
            _ => {
                return vstd::pervasive::unreached();
            },
        };
        let dynamic_id = native_type_id(NativeType::Dynamic);
        match operator {
            UnaryOperator::Not => {
                let op = self.analyze_expression(operand, None)?;
                let bool_id = native_type_id(NativeType::Bool);
                if op.type_id.0 != bool_id {
                    return Err(
                        fail(
                            SemanticFailure::TypeChecking(
                                TypeCheckingFailure::UnaryOperator {
                                    operator: UnaryOperator::Not,
                                    operand: self.descriptor(op.type_id.0),
                                },
                            ),
                            expr.span,
                        ),
                    );
                }
                Ok(SemanticExpression {
                    type_id: TypeId(bool_id),
                    kind: SemanticExpressionKind::Unary { operator: UnaryOperator::Not, operand: Box::new(op) },
                    span: expr.span,
                })
            },
            UnaryOperator::Negate => {
                if let ExpressionKind::Literal { kind: LiteralKind::Integer, lexeme } = &operand.kind {
                    let (t, text) = self.resolve_integer_literal(lexeme, operand.span, expected, true)?;
                    proof {
                        assert((t as int) < self.nt());
                    }
                    let signed_or_dynamic = match &self.analyzer.types[t] {
                        SemanticType::Native(nt) => is_signed_integer_or_dyn_native(nt),
                        _ => false,
                    };
                    if !signed_or_dynamic {
                        return Err(
                            fail(
                                SemanticFailure::TypeChecking(
                                    TypeCheckingFailure::UnaryOperator {
                                        operator: UnaryOperator::Negate,
                                        operand: self.descriptor(t),
                                    },
                                ),
                                expr.span,
                            ),
                        );
                    }
                    let op = SemanticExpression {
                        type_id: TypeId(t),
                        kind: SemanticExpressionKind::Literal(SemanticLiteral::Integer(text)),
                        span: operand.span,
                    };
                    let out = match expected {
                        Some(x) => if x == dynamic_id {
                            dynamic_id
                        } else {
                            t
                        },
                        None => t,
                    };
                    proof {
                        assert(self.expr_ok(op));
                        assert((out as int) < self.nt());
                    }
                    let e = SemanticExpression {
                        type_id: TypeId(out),
                        kind: SemanticExpressionKind::Unary { operator: UnaryOperator::Negate, operand: Box::new(op) },
                        span: expr.span,
                    };
                    proof {
                        assert(self.expr_ok(e));
                        assert(self.types()[0] == SemanticType::Native(native_at(0)));
                        assert(!floating_type(self.types()[t as int]));
                        assert(statically_floating(self.types(), self.bindings@, op) == false);
                        assert(*e.kind->Unary_operand == op);
                    }
                    return Ok(e);
                }
                let op = self.analyze_expression(operand, expected)?;
                let negatable = match &self.analyzer.types[op.type_id.0] {
                    SemanticType::Native(nt) => match nt {
                        NativeType::Int | NativeType::Int8 | NativeType::Int16 | NativeType::Int32
                        | NativeType::Int64 | NativeType::Int128 | NativeType::Float | NativeType::Float32
                        | NativeType::Float64 | NativeType::Dynamic => true,
                        _ => false,
                    },
                    _ => false,
                };
                if !negatable {
                    return Err(
                        fail(
                            SemanticFailure::TypeChecking(
                                TypeCheckingFailure::UnaryOperator {
                                    operator: UnaryOperator::Negate,
                                    operand: self.descriptor(op.type_id.0),
                                },
                            ),
                            expr.span,
                        ),
                    );
                }
                let out = match expected {
                    Some(x) => if x == dynamic_id {
                        dynamic_id
                    } else {
                        op.type_id.0
                    },
                    None => op.type_id.0,
                };
                Ok(SemanticExpression {
                    type_id: TypeId(out),
                    kind: SemanticExpressionKind::Unary { operator: UnaryOperator::Negate, operand: Box::new(op) },
                    span: expr.span,
                })
            },
        }
    }

    fn binary_failure(&self, operator: BinaryOperator, l: usize, r: usize, span: SourceSpan) -> (e: CompileFailure)
        requires
            self.wf(),
            (l as int) < self.nt(),
            (r as int) < self.nt(),
        ensures
            e == semantic_failure(
                SemanticFailure::TypeChecking(
                    binary_failure_of(
                        operator,
                        self.analyzer.type_descriptors@[l as int],
                        self.analyzer.type_descriptors@[r as int],
                    ),
                ),
                span,
            ),
    {
        let left = self.descriptor(l);
        let right = self.descriptor(r);
        let f = match operator {
            BinaryOperator::And | BinaryOperator::Or => TypeCheckingFailure::LogicalOperator {
                operator: clone_binary_operator(&operator),
                left,
                right,
            },
            BinaryOperator::Equal | BinaryOperator::NotEqual | BinaryOperator::Less | BinaryOperator::Greater
            | BinaryOperator::LessEqual | BinaryOperator::GreaterEqual => TypeCheckingFailure::Comparison {
                operator: clone_binary_operator(&operator),
                left,
                right,
            },
            _ => TypeCheckingFailure::ArithmeticOperator { operator: clone_binary_operator(&operator), left, right },
        };
        fail(SemanticFailure::TypeChecking(f), span)
    }

    /// The type of `l operator rr` by the rules of binary operators, or the
    /// operator's failure naming both operand types.
    fn type_binary(
        &self,
        operator: BinaryOperator,
        l: &SemanticExpression,
        rr: &SemanticExpression,
        expected: Option<usize>,
        span: SourceSpan,
    ) -> (r: Result<usize, CompileFailure>)
        requires
            self.wf(),
            self.expected_ok(expected),
            self.expr_ok(*l),
            self.expr_ok(*rr),
        ensures
            ({
                let rule = binary_result_type(
                    self.types(),
                    operator,
                    l.type_id.0 as int,
                    rr.type_id.0 as int,
                    expected,
                    statically_floating(self.types(), self.bindings@, *l) || statically_floating(
                        self.types(),
                        self.bindings@,
                        *rr,
                    ),
                    equality_comparable(self.types(), l.type_id.0 as int),
                );
                &&& r is Ok <==> rule is Some
                &&& r matches Ok(t) ==> rule == Some(t as int) && (t as int) < self.nt()
                &&& r matches Err(e) ==> e == semantic_failure(
                    SemanticFailure::TypeChecking(
                        binary_failure_of(
                            operator,
                            self.analyzer.type_descriptors@[l.type_id.0 as int],
                            self.analyzer.type_descriptors@[rr.type_id.0 as int],
                        ),
                    ),
                    span,
                )
            }),
    {
        let dynamic_id = native_type_id(NativeType::Dynamic);
        let bool_id = native_type_id(NativeType::Bool);
        let lt = l.type_id.0;
        let rt = rr.type_id.0;
        let analyzer = self.analyzer;
        let out: usize = match operator {
            BinaryOperator::Add | BinaryOperator::Subtract | BinaryOperator::Multiply | BinaryOperator::Divide => {
                let left_numeric = match &analyzer.types[lt] {
                    SemanticType::Native(nt) => is_numeric_native(nt),
                    _ => false,
                };
                let right_numeric = match &analyzer.types[rt] {
                    SemanticType::Native(nt) => is_numeric_native(nt),
                    _ => false,
                };
                if lt == rt {
                    if !left_numeric {
                        return Err(self.binary_failure(operator, lt, rt, span));
                    }
                    if expected == Some(dynamic_id) {
                        dynamic_id
                    } else {
                        lt
                    }
                } else if lt == dynamic_id {
                    if !right_numeric {
                        return Err(self.binary_failure(operator, lt, rt, span));
                    }
                    dynamic_id
                } else if rt == dynamic_id {
                    if !left_numeric {
                        return Err(self.binary_failure(operator, lt, rt, span));
                    }
                    dynamic_id
                } else {
                    return Err(self.binary_failure(operator, lt, rt, span));
                }
            },
            BinaryOperator::Remainder => {
                let left_floating = self.is_statically_known_floating_result(l);
                let right_floating = self.is_statically_known_floating_result(rr);
                let left_numeric = match &analyzer.types[lt] {
                    SemanticType::Native(nt) => is_numeric_native(nt),
                    _ => false,
                };
                let right_numeric = match &analyzer.types[rt] {
                    SemanticType::Native(nt) => is_numeric_native(nt),
                    _ => false,
                };
                if left_floating || right_floating {
                    return Err(self.binary_failure(operator, lt, rt, span));
                } else if lt == rt {
                    if lt == dynamic_id {
                        dynamic_id
                    } else {
                        let left_integer = match &analyzer.types[lt] {
                            SemanticType::Native(nt) => is_integer_native(nt),
                            _ => false,
                        };
                        if !left_integer {
                            return Err(self.binary_failure(operator, lt, rt, span));
                        }
                        if expected == Some(dynamic_id) {
                            dynamic_id
                        } else {
                            lt
                        }
                    }
                } else if lt == dynamic_id {
                    if !right_numeric {
                        return Err(self.binary_failure(operator, lt, rt, span));
                    }
                    dynamic_id
                } else if rt == dynamic_id {
                    if !left_numeric {
                        return Err(self.binary_failure(operator, lt, rt, span));
                    }
                    dynamic_id
                } else {
                    return Err(self.binary_failure(operator, lt, rt, span));
                }
            },
            BinaryOperator::And | BinaryOperator::Or => {
                if lt != bool_id || rt != bool_id {
                    return Err(self.binary_failure(operator, lt, rt, span));
                }
                bool_id
            },
            BinaryOperator::Equal | BinaryOperator::NotEqual => {
                if !analyzer.is_type_equality_comparable(lt) || lt != rt {
                    return Err(self.binary_failure(operator, lt, rt, span));
                }
                bool_id
            },
            BinaryOperator::Less | BinaryOperator::Greater | BinaryOperator::LessEqual
            | BinaryOperator::GreaterEqual => {
                let orderable = match &analyzer.types[lt] {
                    SemanticType::Native(nt) => is_numeric_native(nt) && *nt != NativeType::Dynamic,
                    _ => false,
                };
                if !orderable || lt != rt {
                    return Err(self.binary_failure(operator, lt, rt, span));
                }
                bool_id
            },
        };
        Ok(out)
    }

    /// A binary operation. A literal operand takes the other operand's type;
    /// arithmetic wants numbers of one type or a dynamic number against a
    /// number, `%` no floating operand; `&&` and `||` want `bool`; `==` and
    /// `!=` want one comparable type, the orderings one numeric type that is
    /// not dynamic; comparisons give `bool`. On operands built from names,
    /// literals and operators it succeeds exactly when these rules hold for
    /// the types the operands take, and otherwise reports the operator with
    /// both operand types.
    #[verifier::rlimit(50)]
    fn analyze_binary(&mut self, expr: &Expression, expected: Option<usize>) -> (r: Result<
        SemanticExpression,
        CompileFailure,
    >)
        requires
            old(self).wf(),
            old(self).expected_ok(expected),
            parsed_form(*expr),
            expr.kind is Binary,
        ensures
            final(self).extends(old(self)),
            r is Ok ==> final(self).binding_names@ == old(self).binding_names@,
            r matches Ok(e) ==> final(self).expr_ok(e),
            r matches Ok(e) ==> {
                &&& e.span == expr.span
                &&& e.kind matches SemanticExpressionKind::Binary { left, operator, right }
                &&& operator == expr.kind->Binary_operator
                &&& binary_result_type(
                    final(self).types(),
                    operator,
                    left.type_id.0 as int,
                    right.type_id.0 as int,
                    expected,
                    statically_floating(final(self).types(), final(self).bindings@, *left)
                        || statically_floating(final(self).types(), final(self).bindings@, *right),
                    equality_comparable(final(self).types(), left.type_id.0 as int),
                ) == Some(e.type_id.0 as int)
            },
            shallow(*expr) ==> *final(self) == *old(self),
            shallow(*expr) ==> (r matches Err(e) ==> outside_when(e)),
            shallow(*expr) ==> match old(self).binary_operand_infos(
                *expr.kind->Binary_left,
                *expr.kind->Binary_right,
                expected,
            ) {
                None => r is Err,
                Some((lt, lf, rt, rf)) => {
                    &&& (r is Ok <==> binary_result_type(
                        old(self).types(),
                        expr.kind->Binary_operator,
                        lt as int,
                        rt as int,
                        expected,
                        lf || rf,
                        equality_comparable(old(self).types(), lt as int),
                    ) is Some)
                    &&& (r matches Err(e) ==> e == semantic_failure(
                        SemanticFailure::TypeChecking(
                            binary_failure_of(
                                expr.kind->Binary_operator,
                                old(self).analyzer.type_descriptors@[lt as int],
                                old(self).analyzer.type_descriptors@[rt as int],
                            ),
                        ),
                        expr.span,
                    ))
                },
            },
            shallow(*expr) ==> (r matches Ok(x) ==> old(self).shallow_info(*expr, expected) == Some(
                (x.type_id.0, statically_floating(old(self).types(), old(self).bindings@, x)),
            )),
        decreases *expr, 0nat,
    {
        let (left, operator, right) = match &expr.kind {
            ExpressionKind::Binary { left, operator, right } => (left, *operator, right),
            _ => {
                return vstd::pervasive::unreached();
            },
        };
        let dynamic_id = native_type_id(NativeType::Dynamic);
        let left_literal = matches!(left.kind, ExpressionKind::Literal { .. });
        let right_literal = matches!(right.kind, ExpressionKind::Literal { .. });
        let ghost mut st1 = *self;
        let (l, rr) = if left_literal && !right_literal {
            let rr = self.analyze_expression(right, expected)?;
            let ghost mid = self.nb();
            let ghost st_mid = *self;
            let l = self.analyze_expression(left, Some(rr.type_id.0))?;
            proof {
                lemma_expr_wf_grow(rr, self.nt(), self.nf(), self.ns(), mid, self.nsb(), self.nb());
            }
            (l, rr)
        } else {
            let l = self.analyze_expression(left, expected)?;
            proof {
                st1 = *self;
            }
            let r_expected = if !left_literal && !right_literal {
                match expected {
                    Some(x) => if x == dynamic_id {
                        Some(x)
                    } else {
                        Some(l.type_id.0)
                    },
                    None => Some(l.type_id.0),
                }
            } else {
                Some(l.type_id.0)
            };
            let ghost mid = self.nb();
            let rr = self.analyze_expression(right, r_expected)?;
            proof {
                lemma_expr_wf_grow(l, self.nt(), self.nf(), self.ns(), mid, self.nsb(), self.nb());
            }
            (l, rr)
        };
        proof {
            if shallow(*expr) {
                assert(*self == *old(self));
                let infos = old(self).binary_operand_infos(**left, **right, expected);
                assert(infos == Some((l.type_id.0, statically_floating(self.types(), self.bindings@, l), rr.type_id.0, statically_floating(self.types(), self.bindings@, rr))));
            }
        }
        let out = self.type_binary(operator, &l, &rr, expected, expr.span)?;
        let e = SemanticExpression {
            type_id: TypeId(out),
            kind: SemanticExpressionKind::Binary {
                left: Box::new(l),
                operator: clone_binary_operator(&operator),
                right: Box::new(rr),
            },
            span: expr.span,
        };
        proof {
            if shallow(*expr) {
                assert(statically_floating(self.types(), self.bindings@, *e.kind->Binary_left) == statically_floating(self.types(), self.bindings@, l));
            }
        }
        Ok(e)
    }

    /// `receiver.field`: the receiver must be a struct that has the field; on
    /// a receiver that is a name in scope it succeeds exactly then, and
    /// otherwise reports the missing field or the receiver's type.
    fn analyze_field_access(&mut self, expr: &Expression) -> (r: Result<SemanticExpression, CompileFailure>)
        requires
            old(self).wf(),
            parsed_form(*expr),
            expr.kind is FieldAccess,
        ensures
            final(self).extends(old(self)),
            r is Ok ==> final(self).binding_names@ == old(self).binding_names@,
            r matches Ok(e) ==> final(self).expr_ok(e),
            r matches Ok(e) ==> {
                &&& e.span == expr.span
                &&& e.kind matches SemanticExpressionKind::FieldAccess { receiver, field }
                &&& old(self).analyzer.metas@[receiver.type_id.0 as int] matches TypeMeta::Struct(sm)
                &&& (field.0 as int) < sm.fields@.len()
                &&& sm.fields@[field.0 as int].name@ == expr.kind->FieldAccess_field.lexeme@
                &&& forall|j: int| field.0 < j < sm.fields@.len() ==> (#[trigger] sm.fields@[j]).name@
                    != expr.kind->FieldAccess_field.lexeme@
                &&& e.type_id.0 == sm.fields@[field.0 as int].type_id
            },
            old(self).bound_type(*expr.kind->FieldAccess_receiver) matches Some(t) ==> (r is Ok
                <==> old(self).struct_has_field(t, expr.kind->FieldAccess_field.lexeme@)),
            old(self).bound_type(*expr.kind->FieldAccess_receiver) matches Some(t) ==> (r matches Err(e) ==> if old(
                self,
            ).analyzer.metas@[t as int] is Struct {
                e.source_span == expr.kind->FieldAccess_field.span && (e.kind matches crate::failures::CompileFailureKind::Semantic(
                    SemanticFailure::Composite(CompositeFailure::FieldNotFound { field }),
                ) && field@ == expr.kind->FieldAccess_field.lexeme@)
            } else {
                e == semantic_failure(
                    SemanticFailure::Composite(
                        CompositeFailure::FieldAccessType { actual: old(self).analyzer.type_descriptors@[t as int] },
                    ),
                    expr.kind->FieldAccess_receiver.kind->Identifier_0.span,
                )
            }),
        decreases *expr, 0nat,
    {
        let (receiver, field) = match &expr.kind {
            ExpressionKind::FieldAccess { receiver, field } => (receiver, field),
            _ => {
                return vstd::pervasive::unreached();
            },
        };
        let rec = self.analyze_expression(receiver, None)?;
        let analyzer = self.analyzer;
        proof {
            assert(crate::analyzer::meta_below(analyzer.metas@[rec.type_id.0 as int], self.nt()));
        }
        match &analyzer.metas[rec.type_id.0] {
            TypeMeta::Struct(sm) => match field_index(&sm.fields, field.lexeme) {
                Some(i) => {
                    let ft = sm.fields[i].type_id;
                    Ok(SemanticExpression {
                        type_id: TypeId(ft),
                        kind: SemanticExpressionKind::FieldAccess { receiver: Box::new(rec), field: FieldId(i) },
                        span: expr.span,
                    })
                },
                None => Err(
                    fail(
                        SemanticFailure::Composite(CompositeFailure::FieldNotFound { field: field.lexeme.to_owned() }),
                        field.span,
                    ),
                ),
            },
            _ => Err(
                fail(
                    SemanticFailure::Composite(CompositeFailure::FieldAccessType { actual: self.descriptor(rec.type_id.0) }),
                    rec.span,
                ),
            ),
        }
    }

    /// The initializers of a struct or of a structured variant: no field
    /// twice, only fields that exist, every field once; each value of its
    /// field's type. The values keep the order in which they are written.
    fn analyze_initializers(
        &mut self,
        inits: &Vec<FieldInitializer>,
        defs: &Vec<FieldMeta>,
        span: SourceSpan,
    ) -> (r: Result<Vec<SemanticFieldValue>, CompileFailure>)
        requires
            old(self).wf(),
            crate::analyzer::field_metas_below(defs@, old(self).nt()),
            forall|i: int| 0 <= i < inits@.len() ==> parsed_form(#[trigger] inits@[i].value),
        ensures
            final(self).extends(old(self)),
            r is Ok ==> final(self).binding_names@ == old(self).binding_names@,
            r matches Ok(vs) ==> values_wf(vs@, final(self).nt(), final(self).nf(), final(self).ns(), final(self).nb(), final(self).nsb()),
            r matches Ok(vs) ==> values_follow(old(self).types(), vs@, inits@, defs@),
            initializers_repeat(inits@) || initializers_unknown(inits@, defs@) || fields_missing(inits@, defs@)
                ==> (r matches Err(f) && initializers_refused(inits@, defs@, span, f)),
            !initializers_repeat(inits@) && !initializers_unknown(inits@, defs@) && !fields_missing(inits@, defs@) && (forall|i: int|
                0 <= i < inits@.len() ==> #[trigger] old(self).initializer_fits(inits@, defs@, i)) ==> r is Ok,
            !initializers_repeat(inits@) && !initializers_unknown(inits@, defs@) && !fields_missing(inits@, defs@) && (forall|i: int|
                0 <= i < inits@.len() ==> #[trigger] old(self).value_atom(inits@[i].value)) && (exists|i: int|
                0 <= i < inits@.len() && !#[trigger] old(self).initializer_fits(inits@, defs@, i)) ==> (r matches Err(f) && exists|i: int|
                0 <= i < inits@.len() && !old(self).initializer_fits(inits@, defs@, i) && old(self).initializer_mismatch(inits@, defs@, i, f)
                    && forall|j: int| 0 <= j < i ==> #[trigger] old(self).initializer_fits(inits@, defs@, j)),
        decreases *inits, 0nat,
    {
        let mut i: usize = 0;
        while i < inits.len()
            invariant
                self.extends(old(self)),
                self.binding_names@ == old(self).binding_names@,
                i <= inits@.len(),
                forall|a: int, b: int|
                    0 <= a < b < i ==> (#[trigger] inits@[a]).name.lexeme@ != (#[trigger] inits@[b]).name.lexeme@,
            decreases inits@.len() - i,
        {
            if initializer_named(inits, i, inits[i].name.lexeme) {
                proof {
                    assert(repeats_earlier(inits@, i as int));
                    assert forall|k: int| 0 <= k < i implies !#[trigger] repeats_earlier(inits@, k) by {
                        if repeats_earlier(inits@, k) {
                            let a = choose|a: int| 0 <= a < k && (#[trigger] inits@[a]).name.lexeme@ == inits@[k].name.lexeme@;
                            assert(inits@[a].name.lexeme@ != inits@[k].name.lexeme@);
                        }
                    }
                }
                return Err(
                    fail(
                        SemanticFailure::Composite(
                            CompositeFailure::DuplicateFieldInitializer { field: inits[i].name.lexeme.to_owned() },
                        ),
                        inits[i].name.span,
                    ),
                );
            }
            proof {
                assert forall|a: int, b: int|
                    0 <= a < b < i + 1 implies (#[trigger] inits@[a]).name.lexeme@ != (#[trigger] inits@[b]).name.lexeme@ by {
                    if b == i {
                        assert(!(0 <= a < i && inits@[a].name.lexeme@ == inits@[i as int].name.lexeme@));
                    }
                }
            }
            i = i + 1;
        }
        assert(!initializers_repeat(inits@));
        let mut i: usize = 0;
        while i < inits.len()
            invariant
                self.extends(old(self)),
                self.binding_names@ == old(self).binding_names@,
                i <= inits@.len(),
                !initializers_repeat(inits@),
                forall|j: int| 0 <= j < i ==> meta_names(defs@).contains(#[trigger] inits@[j].name.lexeme@),
            decreases inits@.len() - i,
        {
            match field_index(defs, inits[i].name.lexeme) {
                Some(k) => {
                    proof {
                        assert(meta_names(defs@)[k as int] == inits@[i as int].name.lexeme@);
                    }
                },
                None => {
                    proof {
                        assert(!meta_names(defs@).contains(inits@[i as int].name.lexeme@)) by {
                            if meta_names(defs@).contains(inits@[i as int].name.lexeme@) {
                                let j = choose|j: int| 0 <= j < meta_names(defs@).len() && meta_names(defs@)[j] == inits@[i as int].name.lexeme@;
                                assert(defs@[j].name@ == inits@[i as int].name.lexeme@);
                            }
                        }
                        assert(initializers_unknown(inits@, defs@));
                    }
                    return Err(
                        fail(
                            SemanticFailure::Composite(CompositeFailure::FieldNotFound { field: inits[i].name.lexeme.to_owned() }),
                            inits[i].name.span,
                        ),
                    );
                },
            }
            i = i + 1;
        }
        assert(!initializers_unknown(inits@, defs@));
        let mut k: usize = 0;
        while k < defs.len()
            invariant
                self.extends(old(self)),
                self.binding_names@ == old(self).binding_names@,
                k <= defs@.len(),
                !initializers_repeat(inits@),
                !initializers_unknown(inits@, defs@),
                forall|j: int| 0 <= j < k ==> initialized(inits@, #[trigger] defs@[j].name@),
            decreases defs@.len() - k,
        {
            if !initializer_named(inits, inits.len(), defs[k].name.as_str()) {
                proof {
                    assert(!initialized(inits@, defs@[k as int].name@));
                    assert(fields_missing(inits@, defs@));
                }
                return Err(
                    fail(
                        SemanticFailure::Composite(CompositeFailure::MissingField { field: defs[k].name.clone() }),
                        span,
                    ),
                );
            }
            k = k + 1;
        }
        assert(!fields_missing(inits@, defs@));
        let mut values: Vec<SemanticFieldValue> = Vec::new();
        let mut i: usize = 0;
        while i < inits.len()
            invariant
                !initializers_repeat(inits@),
                !initializers_unknown(inits@, defs@),
                !fields_missing(inits@, defs@),
                values_follow(old(self).types(), values@, inits@.take(i as int), defs@),
                self.extends(old(self)),
                self.binding_names@ == old(self).binding_names@,
                crate::analyzer::field_metas_below(defs@, self.nt()),
                forall|j: int| 0 <= j < inits@.len() ==> parsed_form(#[trigger] inits@[j].value),
                forall|j: int| 0 <= j < inits@.len() ==> meta_names(defs@).contains(#[trigger] inits@[j].name.lexeme@),
                i <= inits@.len(),
                values@.len() == i,
                values_wf(values@, self.nt(), self.nf(), self.ns(), self.nb(), self.nsb()),
                old(self).wf(),
                (forall|j: int| 0 <= j < inits@.len() ==> #[trigger] old(self).value_atom(inits@[j].value)) ==> forall|j: int|
                    0 <= j < i ==> #[trigger] old(self).initializer_fits(inits@, defs@, j),
            decreases inits@.len() - i,
        {
            let init = &inits[i];
            let fi = match field_index(defs, init.name.lexeme) {
                Some(k) => k,
                None => {
                    proof {
                        let j = choose|j: int| 0 <= j < meta_names(defs@).len() && meta_names(defs@)[j] == init.name.lexeme@;
                        assert(defs@[j].name@ == init.name.lexeme@);
                    }
                    return vstd::pervasive::unreached();
                },
            };
            let ft = defs[fi].type_id;
            let ghost mid = self.nb();
            proof {
                self.lemma_bound_type_kept(&*old(self), init.value);
                assert(last_field_named(defs@, init.name.lexeme@, fi as int));
                assert(inits@[i as int] == *init);
                if forall|i2: int| 0 <= i2 < inits@.len() ==> #[trigger] old(self).initializer_fits(inits@, defs@, i2) {
                    assert(old(self).initializer_fits(inits@, defs@, i as int));
                }
                if forall|j: int| 0 <= j < inits@.len() ==> #[trigger] old(self).value_atom(inits@[j].value) {
                    assert(old(self).value_atom(inits@[i as int].value));
                }
                assert forall|k: int| last_field_named(defs@, init.name.lexeme@, k) implies k == fi as int by {
                    if k < fi {
                        assert(defs@[fi as int].name@ == init.name.lexeme@);
                    } else if k > fi {
                        assert(defs@[k].name@ == init.name.lexeme@);
                    }
                }
                assert(self.types() == old(self).types());
                self.lemma_shallow_info_kept(&*old(self), init.value, Some(ft));
            }
            let v = match self.analyze_expression(&init.value, Some(ft)) {
                Ok(v) => v,
                Err(e) => {
                    proof {
                        if old(self).value_atom(init.value) {
                            assert(init.value.kind is Literal);
                            assert(old(self).atom_type(init.value, Some(ft)) is None);
                            assert(!old(self).initializer_fits(inits@, defs@, i as int));
                            assert(old(self).initializer_mismatch(inits@, defs@, i as int, e));
                        }
                    }
                    return Err(e);
                },
            };
            let fits = self.analyzer.is_value_type_compatible(v.type_id.0, ft);
            proof {
                if old(self).value_atom(init.value) {
                    assert(v.type_id.0 == old(self).atom_type(init.value, Some(ft))->0);
                    assert(old(self).initializer_fits(inits@, defs@, i as int) == fits);
                }
                if shallow(init.value) {
                    assert(v.type_id.0 == old(self).shallow_type(init.value, Some(ft))->0);
                    assert(old(self).initializer_fits(inits@, defs@, i as int) == fits);
                }
            }
            if !fits {
                let f = fail(
                    SemanticFailure::Composite(
                        CompositeFailure::FieldTypeMismatch {
                            field: init.name.lexeme.to_owned(),
                            expected: self.descriptor(ft),
                            actual: self.descriptor(v.type_id.0),
                        },
                    ),
                    v.span,
                );
                proof {
                    if old(self).value_atom(init.value) {
                        assert(old(self).initializer_mismatch(inits@, defs@, i as int, f));
                    }
                }
                return Err(f);
            }
            proof {
                lemma_values_grow(values@, self.nt(), self.nf(), self.ns(), mid, self.nsb(), self.nb());
            }
            let ghost before = values@;
            values.push(SemanticFieldValue { field: FieldId(fi), value: v });
            proof {
                assert forall|j: int| 0 <= j < values@.len() implies {
                    &&& (#[trigger] values@[j].field.0 as int) < defs@.len()
                    &&& defs@[values@[j].field.0 as int].name@ == inits@.take(i + 1)[j].name.lexeme@
                    &&& value_compatible(
                        old(self).types(),
                        values@[j].value.type_id.0 as int,
                        defs@[values@[j].field.0 as int].type_id as int,
                    )
                } by {
                    if j < i {
                        assert(values@[j] == before[j]);
                        assert(inits@.take(i + 1)[j] == inits@.take(i as int)[j]);
                    }
                }
            }
            i = i + 1;
        }
        assert(inits@.take(i as int) =~= inits@);
        Ok(values)
    }

    /// `Type { field: value, .. }`: the type must be a struct.
    fn analyze_struct_construction(&mut self, expr: &Expression) -> (r: Result<SemanticExpression, CompileFailure>)
        requires
            old(self).wf(),
            parsed_form(*expr),
            expr.kind is StructConstruction,
        ensures
            final(self).extends(old(self)),
            r is Ok ==> final(self).binding_names@ == old(self).binding_names@,
            r matches Ok(e) ==> final(self).expr_ok(e),
            ({
                let name = expr.kind->StructConstruction_type_ident.lexeme@;
                let inits = expr.kind->StructConstruction_fields@;
                let a = old(self).analyzer;
                &&& lookup(a.type_names@, name) is None ==> (r matches Err(e) && e.source_span
                    == expr.kind->StructConstruction_type_ident.span && (e.kind matches crate::failures::CompileFailureKind::Semantic(
                    SemanticFailure::Resolution(ResolutionFailure::UnknownType { name: n }),
                ) && n@ == name))
                &&& lookup(a.type_names@, name) matches Some(t) ==> {
                    &&& !(a.metas@[t as int] is Struct) ==> r == Err::<SemanticExpression, CompileFailure>(
                        semantic_failure(
                            SemanticFailure::Composite(
                                CompositeFailure::ExpectedStruct { actual: a.type_descriptors@[t as int] },
                            ),
                            expr.kind->StructConstruction_type_ident.span,
                        ),
                    )
                    &&& a.metas@[t as int] matches TypeMeta::Struct(sm) ==> {
                        &&& initializers_repeat(inits) || initializers_unknown(inits, sm.fields@) || fields_missing(
                            inits,
                            sm.fields@,
                        ) ==> (r matches Err(f) && initializers_refused(inits, sm.fields@, expr.span, f))
                        &&& (!initializers_repeat(inits) && !initializers_unknown(inits, sm.fields@) && !fields_missing(
                            inits,
                            sm.fields@,
                        ) && forall|i: int|
                            0 <= i < inits.len() ==> #[trigger] old(self).initializer_fits(inits, sm.fields@, i)) ==> r is Ok
                        &&& (!initializers_repeat(inits) && !initializers_unknown(inits, sm.fields@) && !fields_missing(
                            inits,
                            sm.fields@,
                        ) && (forall|i: int| 0 <= i < inits.len() ==> #[trigger] old(self).value_atom(inits[i].value))
                            && exists|i: int| 0 <= i < inits.len() && !#[trigger] old(self).initializer_fits(inits, sm.fields@, i))
                            ==> (r matches Err(f) && exists|i: int|
                            0 <= i < inits.len() && !old(self).initializer_fits(inits, sm.fields@, i) && old(self).initializer_mismatch(
                                inits,
                                sm.fields@,
                                i,
                                f,
                            ) && forall|j: int| 0 <= j < i ==> #[trigger] old(self).initializer_fits(inits, sm.fields@, j))
                        &&& r matches Ok(e) ==> {
                            &&& e.type_id.0 == t
                            &&& e.span == expr.span
                            &&& e.kind matches SemanticExpressionKind::StructConstruction { fields }
                            &&& values_follow(old(self).types(), fields@, inits, sm.fields@)
                        }
                    }
                    &&& r is Ok ==> a.metas@[t as int] is Struct
                }
            }),
        decreases *expr, 0nat,
    {
        let (ident, inits) = match &expr.kind {
            ExpressionKind::StructConstruction { type_ident, fields } => (type_ident, fields),
            _ => {
                return vstd::pervasive::unreached();
            },
        };
        let analyzer = self.analyzer;
        let t = analyzer.resolve_type_identifier(ident)?;
        proof {
            assert(crate::analyzer::meta_below(analyzer.metas@[t as int], self.nt()));
        }
        let defs = match &analyzer.metas[t] {
            TypeMeta::Struct(sm) => &sm.fields,
            _ => {
                return Err(
                    fail(
                        SemanticFailure::Composite(CompositeFailure::ExpectedStruct { actual: self.descriptor(t) }),
                        ident.span,
                    ),
                );
            },
        };
        let values = self.analyze_initializers(inits, defs, expr.span)?;
        Ok(SemanticExpression {
            type_id: TypeId(t),
            kind: SemanticExpressionKind::StructConstruction { fields: values },
            span: expr.span,
        })
    }

    /// `Enum::Variant`, with the payload the variant declares.
    fn analyze_enum_construction(&mut self, ec: &EnumConstruction, span: SourceSpan) -> (r: Result<
        SemanticExpression,
        CompileFailure,
    >)
        requires
            old(self).wf(),
            match *ec {
                EnumConstruction::Simple { .. } => true,
                EnumConstruction::Associated { value, .. } => parsed_form(*value),
                EnumConstruction::Structured { fields, .. } => forall|i: int|
                    0 <= i < fields@.len() ==> parsed_form(#[trigger] fields@[i].value),
            },
        ensures
            final(self).extends(old(self)),
            r is Ok ==> final(self).binding_names@ == old(self).binding_names@,
            r matches Ok(e) ==> final(self).expr_ok(e),
            ({
                let q = construction_variant(*ec);
                let a = old(self).analyzer;
                &&& lookup(a.type_names@, q.qualifier.lexeme@) is None ==> (r matches Err(e) && e.source_span
                    == q.qualifier.span && (e.kind matches crate::failures::CompileFailureKind::Semantic(
                    SemanticFailure::Resolution(ResolutionFailure::UnknownType { name: n }),
                ) && n@ == q.qualifier.lexeme@))
                &&& lookup(a.type_names@, q.qualifier.lexeme@) matches Some(t) ==> {
                    &&& !(a.metas@[t as int] is Enum) ==> r == Err::<SemanticExpression, CompileFailure>(
                        semantic_failure(
                            SemanticFailure::Composite(
                                CompositeFailure::ExpectedEnum { actual: a.type_descriptors@[t as int] },
                            ),
                            q.qualifier.span,
                        ),
                    )
                    &&& a.metas@[t as int] matches TypeMeta::Enum(em) ==> {
                        &&& (forall|j: int| 0 <= j < em.variants@.len() ==> (#[trigger] em.variants@[j]).spec_name()
                            != q.name.lexeme@) ==> (r matches Err(f) && f.source_span == q.name.span && (f.kind
                            matches crate::failures::CompileFailureKind::Semantic(
                            SemanticFailure::Composite(CompositeFailure::VariantNotFound { variant }),
                        ) && variant@ == q.name.lexeme@))
                        &&& forall|v: int| last_variant_named(em.variants@, q.name.lexeme@, v)
                            && em.variants@[v].shape() != construction_shape(*ec) ==> r
                            == Err::<SemanticExpression, CompileFailure>(
                            semantic_failure(
                                SemanticFailure::Composite(
                                    CompositeFailure::VariantPayloadShapeMismatch {
                                        expected: em.variants@[v].shape(),
                                        actual: construction_shape(*ec),
                                    },
                                ),
                                q.name.span,
                            ),
                        )
                        &&& forall|v: int|
                            last_variant_named(em.variants@, q.name.lexeme@, v) && old(self).enum_payload_fits(
                                #[trigger] em.variants@[v],
                                *ec,
                            ) ==> r is Ok
                        &&& forall|v: int|
                            last_variant_named(em.variants@, q.name.lexeme@, v) && (#[trigger] em.variants@[v]).shape()
                                == construction_shape(*ec) ==> {
                                &&& (old(self).payload_atoms(*ec) ==> (r is Ok <==> old(self).enum_payload_fits(
                                    em.variants@[v],
                                    *ec,
                                )))
                                &&& (r matches Err(f) ==> old(self).enum_payload_failure(em.variants@[v], *ec, span, f))
                            }
                        &&& r matches Ok(e) ==> {
                            &&& e.type_id.0 == t
                            &&& e.span == span
                            &&& e.kind matches SemanticExpressionKind::EnumConstruction { variant, payload }
                            &&& last_variant_named(em.variants@, q.name.lexeme@, variant.0 as int)
                            &&& match (em.variants@[variant.0 as int], payload) {
                                (VariantMeta::Simple { .. }, SemanticEnumPayload::Simple) => true,
                                (VariantMeta::Associated { type_id, .. }, SemanticEnumPayload::Associated { value }) => value_compatible(
                                    old(self).types(),
                                    value.type_id.0 as int,
                                    type_id as int,
                                ),
                                (VariantMeta::Structured { fields: defs, .. }, SemanticEnumPayload::Structured { fields }) => values_follow(
                                    old(self).types(),
                                    fields@,
                                    ec->Structured_fields@,
                                    defs@,
                                ),
                                _ => false,
                            }
                        }
                    }
                    &&& r is Ok ==> a.metas@[t as int] is Enum
                }
            }),
        decreases *ec, 0nat,
    {
        let (qname, shape) = match ec {
            EnumConstruction::Simple { variant } => (variant, EnumPayloadShape::Simple),
            EnumConstruction::Associated { variant, .. } => (variant, EnumPayloadShape::Associated),
            EnumConstruction::Structured { variant, .. } => (variant, EnumPayloadShape::Structured),
        };
        let analyzer = self.analyzer;
        let t = analyzer.resolve_type_identifier(&qname.qualifier)?;
        proof {
            assert(crate::analyzer::meta_below(analyzer.metas@[t as int], self.nt()));
        }
        let variants = match &analyzer.metas[t] {
            TypeMeta::Enum(em) => &em.variants,
            _ => {
                return Err(
                    fail(
                        SemanticFailure::Composite(CompositeFailure::ExpectedEnum { actual: self.descriptor(t) }),
                        qname.qualifier.span,
                    ),
                );
            },
        };
        let vi = match variant_index(variants, qname.name.lexeme) {
            Some(i) => i,
            None => {
                return Err(
                    fail(
                        SemanticFailure::Composite(CompositeFailure::VariantNotFound { variant: qname.name.lexeme.to_owned() }),
                        qname.name.span,
                    ),
                );
            },
        };
        let vm = &variants[vi];
        proof {
            assert(crate::analyzer::variant_meta_below(*vm, self.nt()));
        }
        let expected_shape = vm.payload_shape();
        if !payload_shapes_match(&expected_shape, &shape) {
            return Err(
                fail(
                    SemanticFailure::Composite(
                        CompositeFailure::VariantPayloadShapeMismatch { expected: expected_shape, actual: shape },
                    ),
                    qname.name.span,
                ),
            );
        }
        let payload = match (vm, ec) {
            (VariantMeta::Simple { .. }, EnumConstruction::Simple { .. }) => SemanticEnumPayload::Simple,
            (VariantMeta::Associated { type_id, .. }, EnumConstruction::Associated { value, .. }) => {
                let v = self.analyze_expression(value, Some(*type_id))?;
                if !self.analyzer.is_value_type_compatible(v.type_id.0, *type_id) {
                    return Err(
                        fail(
                            SemanticFailure::Composite(
                                CompositeFailure::AssociatedPayloadTypeMismatch {
                                    expected: self.descriptor(*type_id),
                                    actual: self.descriptor(v.type_id.0),
                                },
                            ),
                            v.span,
                        ),
                    );
                }
                SemanticEnumPayload::Associated { value: Box::new(v) }
            },
            (VariantMeta::Structured { fields: defs, .. }, EnumConstruction::Structured { fields: inits, .. }) => {
                let values = self.analyze_initializers(inits, defs, span)?;
                SemanticEnumPayload::Structured { fields: values }
            },
            _ => {
                return vstd::pervasive::unreached();
            },
        };
        Ok(SemanticExpression {
            type_id: TypeId(t),
            kind: SemanticExpressionKind::EnumConstruction { variant: VariantId(vi), payload },
            span,
        })
    }

    /// One argument of a call, at `position`, for the parameter `formal`: a
    /// value of the parameter's type, or a signature dependency in scope of
    /// the parameter's signature. A dependency succeeds exactly then; a value
    /// given by a name in scope or a literal exactly when it is no dependency
    /// and its type fits; otherwise the failure names the position.
    fn analyze_argument(&mut self, arg: &Expression, formal: &SemanticSignatureParameter, position: usize) -> (r: Result<
        SemanticArgument,
        CompileFailure,
    >)
        requires
            old(self).wf(),
            formal_below(*formal, old(self).nt(), old(self).ns()),
            parsed_form(*arg),
        ensures
            final(self).extends(old(self)),
            r is Ok ==> final(self).binding_names@ == old(self).binding_names@,
            r matches Ok(a) ==> args_wf(seq![a], final(self).nt(), final(self).nf(), final(self).ns(), final(self).nb(), final(self).nsb()),
            r matches Ok(a) ==> (a is Value <==> formal is Value),
            r matches Ok(a) ==> final(self).argument_fits(a, *formal),
            formal matches SemanticSignatureParameter::SignatureDependency(d) ==> (r is Ok <==> (old(self).signature_binding_of(
                *arg,
            ) matches Some(sb) && old(self).signature_bindings@[sb as int].signature.0 == d.0)),
            shallow(*arg) ==> (r is Ok <==> old(self).argument_accepted(*arg, *formal)),
            r matches Err(e) ==> (old(self).argument_failure(*arg, *formal, position) matches Some(f) ==> e == f),
            formal is Value && old(self).signature_binding_of(*arg) is Some ==> r is Err,
        decreases *arg, 2nat,
    {
        match formal {
            SemanticSignatureParameter::Value(t) => {
                if let ExpressionKind::Identifier(id) = &arg.kind {
                    if find_name(&self.signature_binding_names, id.lexeme).is_some() {
                        return Err(
                            fail(
                                SemanticFailure::Call(
                                    CallFailure::ArgumentKindMismatch {
                                        position,
                                        expected: SemanticArgumentKind::Value,
                                        actual: SemanticArgumentKind::SignatureDependency,
                                    },
                                ),
                                arg.span,
                            ),
                        );
                    }
                }
                let v = self.analyze_expression(arg, Some(t.0))?;
                if !self.analyzer.is_value_type_compatible(v.type_id.0, t.0) {
                    return Err(
                        fail(
                            SemanticFailure::Call(
                                CallFailure::ArgumentTypeMismatch {
                                    position,
                                    expected: self.descriptor(t.0),
                                    actual: self.descriptor(v.type_id.0),
                                },
                            ),
                            v.span,
                        ),
                    );
                }
                let a = SemanticArgument::Value(v);
                proof {
                    assert(seq![a][0] == a);
                }
                Ok(a)
            },
            SemanticSignatureParameter::SignatureDependency(expected_sig) => {
                let sb = match &arg.kind {
                    ExpressionKind::Identifier(id) => find_name(&self.signature_binding_names, id.lexeme),
                    _ => None,
                };
                match sb {
                    Some(sb) => {
                        proof {
                            if let ExpressionKind::Identifier(id) = &arg.kind {
                                lemma_lookup_below(self.signature_binding_names@, id.lexeme@, self.nsb());
                            }
                        }
                        let actual_sig = self.signature_bindings[sb].signature.0;
                        if actual_sig != expected_sig.0 {
                            return Err(
                                fail(
                                    SemanticFailure::Call(
                                        CallFailure::SignatureDependencyMismatch {
                                            position,
                                            expected: clone_signature_symbol(&self.analyzer.signatures[expected_sig.0].symbol),
                                            actual: clone_signature_symbol(&self.analyzer.signatures[actual_sig].symbol),
                                        },
                                    ),
                                    arg.span,
                                ),
                            );
                        }
                        let a = SemanticArgument::SignatureDependency(SignatureBindingId(sb));
                        proof {
                            assert(seq![a][0] == a);
                        }
                        Ok(a)
                    },
                    None => Err(
                        fail(
                            SemanticFailure::Call(
                                CallFailure::ArgumentKindMismatch {
                                    position,
                                    expected: SemanticArgumentKind::SignatureDependency,
                                    actual: SemanticArgumentKind::Value,
                                },
                            ),
                            arg.span,
                        ),
                    ),
                }
            },
        }
    }

    /// `callee(arguments)`: an explicit conversion to a native type, or a call
    /// of the one function or signature the name designates, with as many
    /// arguments as it has parameters.
    pub fn analyze_function_call(&mut self, call: &FunctionCall, span: SourceSpan) -> (r: Result<
        SemanticExpression,
        CompileFailure,
    >)
        requires
            old(self).wf(),
            forall|i: int| 0 <= i < call.arguments@.len() ==> parsed_form(#[trigger] call.arguments@[i]),
        ensures
            final(self).extends(old(self)),
            r is Ok ==> final(self).binding_names@ == old(self).binding_names@,
            r matches Ok(e) ==> final(self).expr_ok(e),
            r matches Ok(e) ==> e.span == span,
            conversion_target(call.callee.lexeme@) matches Some(nt) ==> {
                &&& call.arguments@.len() != 1 ==> r == Err::<SemanticExpression, CompileFailure>(
                    semantic_failure(
                        SemanticFailure::Call(
                            CallFailure::ArityMismatch { expected: 1, actual: call.arguments@.len() as usize },
                        ),
                        span,
                    ),
                )
                &&& call.arguments@.len() == 1 && is_atom(call.arguments@[0]) ==> match old(self).atom_type(
                    call.arguments@[0],
                    None,
                ) {
                    None => r is Err,
                    Some(t) => {
                        &&& (r is Ok <==> conversion_allowed(&old(self).types()[t as int], nt))
                        &&& (r matches Err(e) ==> e == semantic_failure(
                            SemanticFailure::TypeChecking(
                                TypeCheckingFailure::InvalidConversion {
                                    source: old(self).analyzer.type_descriptors@[t as int],
                                    target: old(self).analyzer.type_descriptors@[native_type_index(nt) as int],
                                },
                            ),
                            span,
                        ))
                    },
                }
                &&& r matches Ok(e) ==> {
                    &&& e.type_id.0 == native_type_index(nt)
                    &&& e.kind matches SemanticExpressionKind::Conversion { operand }
                    &&& conversion_allowed(&old(self).types()[operand.type_id.0 as int], nt)
                }
            },
            conversion_target(call.callee.lexeme@) is None ==> {
                let name = call.callee.lexeme@;
                let target = old(self).call_target(name);
                &&& old(self).call_candidates(name) != 1 ==> (r matches Err(e) && e.source_span == call.callee.span && if old(
                    self,
                ).call_candidates(name) > 1 {
                    e.kind matches crate::failures::CompileFailureKind::Semantic(
                        SemanticFailure::Call(CallFailure::AmbiguousTarget { name: n }),
                    ) && n@ == name
                } else {
                    e.kind matches crate::failures::CompileFailureKind::Semantic(
                        SemanticFailure::Call(CallFailure::FunctionNotFound { name: n }),
                    ) && n@ == name
                })
                &&& old(self).call_candidates(name) == 1 && old(self).target_parameter_count(target) == call.arguments@.len()
                    && (forall|i: int|
                    0 <= i < call.arguments@.len() ==> old(self).argument_accepted(
                        #[trigger] call.arguments@[i],
                        old(self).target_parameter(target, i),
                    )) ==> r is Ok
                &&& old(self).call_candidates(name) == 1 && old(self).target_parameter_count(target) == call.arguments@.len()
                    && (forall|i: int|
                    0 <= i < call.arguments@.len() ==> old(self).plain_argument(#[trigger] call.arguments@[i]))
                    ==> (r matches Err(e) ==> exists|i: int|
                    0 <= i < call.arguments@.len() && (forall|j: int|
                        0 <= j < i ==> old(self).argument_accepted(
                            #[trigger] call.arguments@[j],
                            old(self).target_parameter(target, j),
                        )) && old(self).argument_failure(
                        call.arguments@[i],
                        old(self).target_parameter(target, i),
                        i as usize,
                    ) == Some(e))
                &&& old(self).call_candidates(name) == 1 && old(self).target_parameter_count(target)
                    != call.arguments@.len() ==> r == Err::<SemanticExpression, CompileFailure>(
                    semantic_failure(
                        SemanticFailure::Call(
                            CallFailure::ArityMismatch {
                                expected: old(self).target_parameter_count(target) as usize,
                                actual: call.arguments@.len() as usize,
                            },
                        ),
                        span,
                    ),
                )
                &&& r matches Ok(e) ==> {
                    &&& e.type_id.0 == old(self).target_result_type(target)
                    &&& e.kind matches SemanticExpressionKind::Call(c)
                    &&& c.target == target
                    &&& c.arguments@.len() == call.arguments@.len()
                    &&& forall|i: int| 0 <= i < c.arguments@.len() ==> old(self).argument_fits(
                        #[trigger] c.arguments@[i],
                        old(self).target_parameter(target, i),
                    )
                }
            },
        decreases *call, 0nat,
    {
        let callee = call.callee.lexeme;
        if let Some(target_native) = get_conversion_target_native(callee) {
            if call.arguments.len() != 1 {
                return Err(
                    fail(
                        SemanticFailure::Call(CallFailure::ArityMismatch { expected: 1, actual: call.arguments.len() }),
                        span,
                    ),
                );
            }
            let operand = self.analyze_expression(&call.arguments[0], None)?;
            let target = native_type_id(target_native);
            if !is_valid_conversion(&self.analyzer.types[operand.type_id.0], &target_native) {
                return Err(
                    fail(
                        SemanticFailure::TypeChecking(
                            TypeCheckingFailure::InvalidConversion {
                                source: self.descriptor(operand.type_id.0),
                                target: self.descriptor(target),
                            },
                        ),
                        span,
                    ),
                );
            }
            return Ok(SemanticExpression {
                type_id: TypeId(target),
                kind: SemanticExpressionKind::Conversion { operand: Box::new(operand) },
                span,
            });
        }
        let (target, formals, result) = self.resolve_call_target(&call.callee)?;
        if call.arguments.len() != formals.len() {
            return Err(
                fail(
                    SemanticFailure::Call(
                        CallFailure::ArityMismatch { expected: formals.len(), actual: call.arguments.len() },
                    ),
                    span,
                ),
            );
        }
        let mut arguments: Vec<SemanticArgument> = Vec::new();
        let mut i: usize = 0;
        while i < call.arguments.len()
            invariant
                self.extends(old(self)),
                self.binding_names@ == old(self).binding_names@,
                formals@.len() == call.arguments@.len(),
                forall|j: int| 0 <= j < formals@.len() ==> formal_below(#[trigger] formals@[j], self.nt(), self.ns()),
                forall|j: int| 0 <= j < call.arguments@.len() ==> parsed_form(#[trigger] call.arguments@[j]),
                i <= call.arguments@.len(),
                arguments@.len() == i,
                args_wf(arguments@, self.nt(), self.nf(), self.ns(), self.nb(), self.nsb()),
                forall|j: int| 0 <= j < i ==> self.argument_fits(#[trigger] arguments@[j], formals@[j]),
                conversion_target(call.callee.lexeme@) is None,
                old(self).call_candidates(call.callee.lexeme@) == 1,
                target == old(self).call_target(call.callee.lexeme@),
                result == old(self).target_result_type(target),
                formals@.len() == old(self).target_parameter_count(target),
                forall|j: int| 0 <= j < formals@.len() ==> #[trigger] formals@[j] == old(self).target_parameter(target, j),
                old(self).wf(),
                (forall|j: int|
                    0 <= j < call.arguments@.len() ==> old(self).plain_argument(#[trigger] call.arguments@[j])) ==> forall|j: int|
                    0 <= j < i ==> old(self).argument_accepted(
                        #[trigger] call.arguments@[j],
                        old(self).target_parameter(target, j),
                    ),
            decreases call.arguments@.len() - i,
        {
            let ghost mid = self.nb();
            proof {
                self.lemma_bound_type_kept(&*old(self), call.arguments@[i as int]);
                if let SemanticSignatureParameter::Value(t) = formals@[i as int] {
                    self.lemma_shallow_info_kept(&*old(self), call.arguments@[i as int], Some(t.0));
                }
                if forall|j: int|
                    0 <= j < call.arguments@.len() ==> old(self).argument_accepted(
                        #[trigger] call.arguments@[j],
                        old(self).target_parameter(target, j),
                    ) {
                    assert(old(self).argument_accepted(call.arguments@[i as int], old(self).target_parameter(target, i as int)));
                    assert(self.argument_accepted(call.arguments@[i as int], formals@[i as int]));
                }
            }
            let ghost pre = *self;
            proof {
                assert(old(self).argument_failure(call.arguments@[i as int], formals@[i as int], i)
                    == pre.argument_failure(call.arguments@[i as int], formals@[i as int], i));
                assert(old(self).argument_accepted(call.arguments@[i as int], formals@[i as int])
                    == pre.argument_accepted(call.arguments@[i as int], formals@[i as int]));
            }
            let a = match self.analyze_argument(&call.arguments[i], &formals[i], i) {
                Ok(a) => a,
                Err(e) => {
                    proof {
                        if forall|j: int|
                            0 <= j < call.arguments@.len() ==> old(self).plain_argument(#[trigger] call.arguments@[j]) {
                            assert(old(self).plain_argument(call.arguments@[i as int]));
                        }
                    }
                    return Err(e);
                },
            };
            proof {
                if forall|j: int|
                    0 <= j < call.arguments@.len() ==> old(self).plain_argument(#[trigger] call.arguments@[j]) {
                    assert(old(self).plain_argument(call.arguments@[i as int]));
                    assert(old(self).argument_accepted(call.arguments@[i as int], old(self).target_parameter(target, i as int)));
                }
            }
            proof {
                lemma_args_grow(arguments@, self.nt(), self.nf(), self.ns(), mid, self.nsb(), self.nb());
            }
            let ghost before = arguments@;
            arguments.push(a);
            proof {
                assert forall|j: int|
                    0 <= j < arguments@.len() implies match #[trigger] arguments@[j] {
                        SemanticArgument::Value(v) => expr_wf(v, self.nt(), self.nf(), self.ns(), self.nb(), self.nsb()),
                        SemanticArgument::SignatureDependency(s) => (s.0 as int) < self.nsb(),
                    } by {
                    if j < before.len() {
                        assert(arguments@[j] == before[j]);
                    } else {
                        assert(seq![a][0] == a);
                    }
                }
            }
            i = i + 1;
        }
        Ok(SemanticExpression {
            type_id: TypeId(result),
            kind: SemanticExpressionKind::Call(SemanticCall { target, arguments }),
            span,
        })
    }
}

impl<'b, 'a, 'source> FunctionAnalyzer<'b, 'a, 'source> {
    /// `source |> stage |> ..`: each stage is a conversion, or a call whose
    /// first argument is the value so far. A name in scope piped through
    /// conversions alone succeeds exactly when each conversion accepts what
    /// it receives, and otherwise reports the first conversion that does
    /// not.
    #[verifier::rlimit(50)]
    #[verifier::spinoff_prover]
    pub fn analyze_pipeline(&mut self, pipe: &Pipeline) -> (r: Result<SemanticExpression, CompileFailure>)
        requires
            old(self).wf(),
            parsed_form(*pipe.source),
            forall|i: int| 0 <= i < pipe.stages@.len() ==> (#[trigger] pipe.stages@[i]).additional_arguments@.len() < usize::MAX,
            forall|i: int, j: int|
                0 <= i < pipe.stages@.len() && 0 <= j < pipe.stages@[i].additional_arguments@.len()
                    ==> parsed_form(#[trigger] pipe.stages@[i].additional_arguments@[j]),
        ensures
            final(self).extends(old(self)),
            r is Ok ==> final(self).binding_names@ == old(self).binding_names@,
            r matches Ok(e) ==> final(self).expr_ok(e),
            r matches Ok(e) ==> old(self).pipeline_chain(pipe.stages@, e),
            r matches Ok(e) ==> exists|fin: Self| #[trigger] old(self).expression_typed(
                &fin,
                *pipe.source,
                None,
                pipeline_source(e, pipe.stages@.len()),
            ),
            old(self).bound_type(*pipe.source) matches Some(t0) ==> (conversions_only(pipe.stages@) ==> (r is Ok
                <==> conversions_allowed(old(self).types(), t0, pipe.stages@))),
            old(self).bound_type(*pipe.source) matches Some(t0) ==> (conversions_only(pipe.stages@) ==> (r matches Err(e)
                ==> exists|i: int|
                0 <= i < pipe.stages@.len() && !conversion_allowed(
                    &old(self).types()[conversion_input(t0, pipe.stages@, i) as int],
                    conversion_target(pipe.stages@[i].callee.lexeme@)->0,
                ) && (forall|j: int|
                    0 <= j < i ==> conversion_allowed(
                        &old(self).types()[conversion_input(t0, pipe.stages@, j) as int],
                        conversion_target((#[trigger] pipe.stages@[j]).callee.lexeme@)->0,
                    )) && e == semantic_failure(
                    SemanticFailure::TypeChecking(
                        TypeCheckingFailure::InvalidConversion {
                            source: old(self).analyzer.type_descriptors@[conversion_input(t0, pipe.stages@, i) as int],
                            target: old(self).analyzer.type_descriptors@[native_type_index(
                                conversion_target(pipe.stages@[i].callee.lexeme@)->0,
                            ) as int],
                        },
                    ),
                    SourceSpan { start: pipe.source.kind->Identifier_0.span.start, end: pipe.stages@[i].callee.span.end },
                ))),
        decreases *pipe, 0nat,
    {
        let ghost plain = old(self).bound_type(*pipe.source) is Some && conversions_only(pipe.stages@);
        let ghost t0 = old(self).bound_type(*pipe.source)->0;
        let mut current = self.analyze_expression(&pipe.source, None)?;
        let ghost src = current;
        let ghost st1 = *self;
        proof {
            assert(old(self).expression_typed(&st1, *pipe.source, None, src));
        }
        let mut s: usize = 0;
        while s < pipe.stages.len()
            invariant
                old(self).pipeline_chain(pipe.stages@.take(s as int), current),
                self.extends(old(self)),
                self.binding_names@ == old(self).binding_names@,
                forall|i: int, j: int|
                    0 <= i < pipe.stages@.len() && 0 <= j < pipe.stages@[i].additional_arguments@.len()
                        ==> parsed_form(#[trigger] pipe.stages@[i].additional_arguments@[j]),
                forall|i: int| 0 <= i < pipe.stages@.len() ==> (#[trigger] pipe.stages@[i]).additional_arguments@.len() < usize::MAX,
                s <= pipe.stages@.len(),
                self.expr_ok(current),
                plain == (old(self).bound_type(*pipe.source) is Some && conversions_only(pipe.stages@)),
                t0 == old(self).bound_type(*pipe.source)->0,
                pipeline_source(current, s as nat) == src,
                old(self).expression_typed(&st1, *pipe.source, None, src),
                plain ==> current.type_id.0 == conversion_input(t0, pipe.stages@, s as int),
                plain ==> current.span.start == pipe.source.kind->Identifier_0.span.start,
                plain ==> forall|i: int|
                    0 <= i < s ==> conversion_allowed(
                        &old(self).types()[conversion_input(t0, pipe.stages@, i) as int],
                        conversion_target((#[trigger] pipe.stages@[i]).callee.lexeme@)->0,
                    ),
            decreases pipe.stages@.len() - s,
        {
            let stage = &pipe.stages[s];
            let callee = stage.callee.lexeme;
            let stage_span = SourceSpan { start: current.span.start, end: stage.callee.span.end };
            proof {
                assert(pipe.stages@[s as int].additional_arguments@.len() < usize::MAX);
            }
            let arg_count = stage.additional_arguments.len() + 1;
            if let Some(target_native) = get_conversion_target_native(callee) {
                if stage.additional_arguments.len() != 0 {
                    return Err(
                        fail(
                            SemanticFailure::Call(CallFailure::ArityMismatch { expected: 1, actual: arg_count }),
                            stage_span,
                        ),
                    );
                }
                let target = native_type_id(target_native);
                if !is_valid_conversion(&self.analyzer.types[current.type_id.0], &target_native) {
                    assert(plain ==> !conversions_allowed(old(self).types(), t0, pipe.stages@));
                    proof {
                        if plain {
                            assert(native_type_index(conversion_target(pipe.stages@[s as int].callee.lexeme@)->0) == target);
                        }
                    }
                    return Err(
                        fail(
                            SemanticFailure::TypeChecking(
                                TypeCheckingFailure::InvalidConversion {
                                    source: self.descriptor(current.type_id.0),
                                    target: self.descriptor(target),
                                },
                            ),
                            stage_span,
                        ),
                    );
                }
                let ghost before = current;
                current = SemanticExpression {
                    type_id: TypeId(target),
                    kind: SemanticExpressionKind::Conversion { operand: Box::new(current) },
                    span: stage_span,
                };
                proof {
                    assert(pipe.stages@.take(s + 1).drop_last() =~= pipe.stages@.take(s as int));
                    assert(pipeline_input(current) == before);
                }
            } else {
                assert(!conversions_only(pipe.stages@));
                let (target, formals, result) = self.resolve_call_target(&stage.callee)?;
                if arg_count != formals.len() {
                    return Err(
                        fail(
                            SemanticFailure::Call(
                                CallFailure::ArityMismatch { expected: formals.len(), actual: arg_count },
                            ),
                            stage_span,
                        ),
                    );
                }
                let ghost before = current;
                let mut arguments: Vec<SemanticArgument> = Vec::new();
                match &formals[0] {
                    SemanticSignatureParameter::Value(t) => {
                        if !self.analyzer.is_value_type_compatible(current.type_id.0, t.0) {
                            return Err(
                                fail(
                                    SemanticFailure::Call(
                                        CallFailure::ArgumentTypeMismatch {
                                            position: 0,
                                            expected: self.descriptor(t.0),
                                            actual: self.descriptor(current.type_id.0),
                                        },
                                    ),
                                    current.span,
                                ),
                            );
                        }
                        arguments.push(SemanticArgument::Value(current));
                    },
                    SemanticSignatureParameter::SignatureDependency(_) => {
                        return Err(
                            fail(
                                SemanticFailure::Call(
                                    CallFailure::ArgumentKindMismatch {
                                        position: 0,
                                        expected: SemanticArgumentKind::SignatureDependency,
                                        actual: SemanticArgumentKind::Value,
                                    },
                                ),
                                current.span,
                            ),
                        );
                    },
                }
                let mut i: usize = 0;
                while i < stage.additional_arguments.len()
                    invariant
                        self.extends(old(self)),
                        self.binding_names@ == old(self).binding_names@,
                        s < pipe.stages@.len(),
                        *stage == pipe.stages@[s as int],
                        formals@.len() == stage.additional_arguments@.len() + 1,
                        forall|j: int| 0 <= j < formals@.len() ==> formal_below(#[trigger] formals@[j], self.nt(), self.ns()),
                        forall|j: int|
                            0 <= j < stage.additional_arguments@.len() ==> parsed_form(#[trigger] stage.additional_arguments@[j]),
                        i <= stage.additional_arguments@.len(),
                        arguments@.len() == i + 1,
                        args_wf(arguments@, self.nt(), self.nf(), self.ns(), self.nb(), self.nsb()),
                        arguments@[0] == SemanticArgument::Value(before),
                        forall|j: int| 0 <= j < arguments@.len() ==> self.argument_fits(#[trigger] arguments@[j], formals@[j]),
                        conversion_target(stage.callee.lexeme@) is None,
                        old(self).call_candidates(stage.callee.lexeme@) == 1,
                        target == old(self).call_target(stage.callee.lexeme@),
                        result == old(self).target_result_type(target),
                        formals@.len() == old(self).target_parameter_count(target),
                        forall|j: int| 0 <= j < formals@.len() ==> #[trigger] formals@[j] == old(self).target_parameter(target, j),
                    decreases stage.additional_arguments@.len() - i,
                {
                    let ghost mid = self.nb();
                    proof {
                        assert(decreases_to!(*pipe => pipe.stages));
                        assert(decreases_to!(pipe.stages => pipe.stages@));
                        assert(decreases_to!(pipe.stages@ => pipe.stages@[s as int]));
                        assert(decreases_to!(pipe.stages@[s as int] => pipe.stages@[s as int].additional_arguments));
                        assert(decreases_to!(pipe.stages@[s as int].additional_arguments => pipe.stages@[s as int].additional_arguments@));
                        assert(decreases_to!(pipe.stages@[s as int].additional_arguments@ => pipe.stages@[s as int].additional_arguments@[i as int]));
                    }
                    let a = self.analyze_argument(&stage.additional_arguments[i], &formals[i + 1], i + 1)?;
                    proof {
                        lemma_args_grow(arguments@, self.nt(), self.nf(), self.ns(), mid, self.nsb(), self.nb());
                    }
                    let ghost before = arguments@;
                    arguments.push(a);
                    proof {
                        assert forall|j: int|
                            0 <= j < arguments@.len() implies match #[trigger] arguments@[j] {
                                SemanticArgument::Value(v) => expr_wf(v, self.nt(), self.nf(), self.ns(), self.nb(), self.nsb()),
                                SemanticArgument::SignatureDependency(x) => (x.0 as int) < self.nsb(),
                            } by {
                            if j < before.len() {
                                assert(arguments@[j] == before[j]);
                            } else {
                                assert(seq![a][0] == a);
                            }
                        }
                    }
                    i = i + 1;
                }
                current = SemanticExpression {
                    type_id: TypeId(result),
                    kind: SemanticExpressionKind::Call(SemanticCall { target, arguments }),
                    span: stage_span,
                };
                proof {
                    assert(pipe.stages@.take(s + 1).drop_last() =~= pipe.stages@.take(s as int));
                    assert(pipeline_input(current) == before);
                }
            }
            s = s + 1;
        }
        assert(pipe.stages@.take(s as int) =~= pipe.stages@);
        Ok(current)
    }

    /// A binding may be introduced under `name`: it is snake case and names
    /// no binding or signature dependency in scope.
    fn check_binding_name(&self, name: &Identifier) -> (r: Result<(), CompileFailure>)
        requires
            self.wf(),
        ensures
            r is Ok <==> snake_case(name.lexeme@) && lookup(self.binding_names@, name.lexeme@) is None && lookup(
                self.signature_binding_names@,
                name.lexeme@,
            ) is None,
            r matches Err(e) ==> e.source_span == name.span && if !snake_case(name.lexeme@) {
                e.kind == crate::failures::CompileFailureKind::Semantic(
                    SemanticFailure::Declaration(DeclarationFailure::InvalidNamingConvention { role: SemanticNameRole::Binding }),
                )
            } else {
                e.kind matches crate::failures::CompileFailureKind::Semantic(
                    SemanticFailure::Declaration(DeclarationFailure::BindingNameCollision { name: n }),
                ) && n@ == name.lexeme@
            },
    {
        if !is_valid_snake_case(name.lexeme) {
            return Err(
                declaration_failure(
                    DeclarationFailure::InvalidNamingConvention { role: SemanticNameRole::Binding },
                    name.span,
                ),
            );
        }
        if find_name(&self.binding_names, name.lexeme).is_some() || find_name(
            &self.signature_binding_names,
            name.lexeme,
        ).is_some() {
            return Err(
                declaration_failure(DeclarationFailure::BindingNameCollision { name: name.lexeme.to_owned() }, name.span),
            );
        }
        Ok(())
    }

    /// Takes `name` into scope as a new binding of type `t`.
    #[verifier::spinoff_prover]
    fn push_binding(&mut self, name: &Identifier, t: usize) -> (b: usize)
        requires
            old(self).wf(),
            (t as int) < old(self).nt(),
        ensures
            final(self).extends(old(self)),
            b == old(self).nb(),
            final(self).nb() == old(self).nb() + 1,
            final(self).bindings@[b as int].type_id.0 == t,
            final(self).binding_names@ == old(self).binding_names@.push(
                NamedIndex { name: final(self).binding_names@.last().name, index: b },
            ),
            final(self).binding_names@.last().name@ == name.lexeme@,
    {
        let b = self.bindings.len();
        let ghost before = self.binding_names@;
        self.bindings.push(SemanticBinding { type_id: TypeId(t) });
        bind_name(&mut self.binding_names, name.lexeme, b);
        proof {
            assert forall|k: int| 0 <= k < self.binding_names@.len() implies (#[trigger] self.binding_names@[k].index as int) < self.nb() by {
                if k < before.len() {
                    assert(self.binding_names@[k] == before[k]);
                }
            }
        }
        b
    }

    /// The field bindings of a structured pattern: no field twice, only fields
    /// that exist, every field once; each binding declared with its field's
    /// type. The bindings come in the order of the variant's fields. It
    /// succeeds exactly when the pattern meets these rules.
    fn extract_fields(&mut self, pfs: &Vec<crate::ast::PatternField>, defs: &Vec<FieldMeta>, span: SourceSpan) -> (r: Result<
        Vec<SemanticFieldBinding>,
        CompileFailure,
    >)
        requires
            old(self).wf(),
            crate::analyzer::field_metas_below(defs@, old(self).nt()),
        ensures
            final(self).extends(old(self)),
            old(self).binding_names@.len() <= final(self).binding_names@.len(),
            final(self).binding_names@.subrange(0, old(self).binding_names@.len() as int) == old(self).binding_names@,
            r matches Ok(fs) ==> extraction_wf(SemanticVariantExtraction::Structured { fields: fs }, final(self).nb()),
            r is Ok <==> old(self).extraction_accepted(pfs@, defs@),
            r matches Err(e) ==> !(e.kind matches crate::failures::CompileFailureKind::Semantic(
                SemanticFailure::When(WhenFailure::NonExhaustive { .. }),
            )),
    {
        let mut j: usize = 0;
        while j < pfs.len()
            invariant
                self.extends(old(self)),
                self.binding_names@ == old(self).binding_names@,
                j <= pfs@.len(),
                forall|a: int, b: int| 0 <= a < b < j ==> (#[trigger] pfs@[a]).field.lexeme@ != (#[trigger] pfs@[b]).field.lexeme@,
            decreases pfs@.len() - j,
        {
            if pattern_field_named(pfs, j, pfs[j].field.lexeme) {
                proof {
                    let a = choose|a: int| 0 <= a < j && (#[trigger] pfs@[a]).field.lexeme@ == pfs@[j as int].field.lexeme@;
                    assert(!pattern_fields_distinct(pfs@));
                }
                return Err(
                    fail(
                        SemanticFailure::When(WhenFailure::DuplicateField { field: pfs[j].field.lexeme.to_owned() }),
                        pfs[j].field.span,
                    ),
                );
            }
            j = j + 1;
        }
        let mut j: usize = 0;
        while j < pfs.len()
            invariant
                self.extends(old(self)),
                self.binding_names@ == old(self).binding_names@,
                j <= pfs@.len(),
                forall|i: int| 0 <= i < j ==> meta_names(defs@).contains(#[trigger] pfs@[i].field.lexeme@),
                pattern_fields_distinct(pfs@),
            decreases pfs@.len() - j,
        {
            match field_index(defs, pfs[j].field.lexeme) {
                Some(k) => {
                    proof {
                        assert(meta_names(defs@)[k as int] == pfs@[j as int].field.lexeme@);
                    }
                },
                None => {
                    proof {
                        if meta_names(defs@).contains(pfs@[j as int].field.lexeme@) {
                            let k = choose|k: int| 0 <= k < meta_names(defs@).len() && meta_names(defs@)[k] == pfs@[j as int].field.lexeme@;
                            assert(defs@[k].name@ == pfs@[j as int].field.lexeme@);
                        }
                        assert(!pattern_fields_exist(pfs@, defs@));
                    }
                    return Err(
                        fail(
                            SemanticFailure::When(WhenFailure::FieldNotFound { field: pfs[j].field.lexeme.to_owned() }),
                            pfs[j].field.span,
                        ),
                    );
                },
            }
            j = j + 1;
        }
        let mut k: usize = 0;
        while k < defs.len()
            invariant
                self.extends(old(self)),
                self.binding_names@ == old(self).binding_names@,
                k <= defs@.len(),
                pattern_fields_distinct(pfs@),
                pattern_fields_exist(pfs@, defs@),
                forall|k2: int| 0 <= k2 < k ==> pattern_names_field(pfs@, (#[trigger] defs@[k2]).name@),
            decreases defs@.len() - k,
        {
            if !pattern_field_named(pfs, pfs.len(), defs[k].name.as_str()) {
                proof {
                    assert(!pattern_names_field(pfs@, defs@[k as int].name@));
                    assert(!pattern_fields_cover(pfs@, defs@));
                }
                return Err(
                    fail(SemanticFailure::When(WhenFailure::MissingField { field: defs[k].name.clone() }), span),
                );
            }
            k = k + 1;
        }
        let mut slots: Vec<Option<SemanticFieldBinding>> = Vec::new();
        let mut k: usize = 0;
        while k < defs.len()
            invariant
                self.extends(old(self)),
                self.binding_names@ == old(self).binding_names@,
                k <= defs@.len(),
                slots@.len() == k,
                forall|i: int| 0 <= i < k ==> #[trigger] slots@[i] is None,
                pattern_fields_distinct(pfs@),
                pattern_fields_exist(pfs@, defs@),
                pattern_fields_cover(pfs@, defs@),
            decreases defs@.len() - k,
        {
            slots.push(None);
            k = k + 1;
        }
        let analyzer = self.analyzer;
        let mut j: usize = 0;
        while j < pfs.len()
            invariant
                self.extends(old(self)),
                self.analyzer == analyzer,
                old(self).binding_names@.len() <= self.binding_names@.len(),
                self.binding_names@.subrange(0, old(self).binding_names@.len() as int) == old(self).binding_names@,
                crate::analyzer::field_metas_below(defs@, self.nt()),
                forall|i: int| 0 <= i < pfs@.len() ==> meta_names(defs@).contains(#[trigger] pfs@[i].field.lexeme@),
                j <= pfs@.len(),
                slots@.len() == defs@.len(),
                forall|i: int| 0 <= i < slots@.len() ==> (#[trigger] slots@[i] matches Some(fb) ==> (fb.binding.0 as int) < self.nb()),
                forall|i: int| 0 <= i < slots@.len() ==> (#[trigger] slots@[i] matches Some(fb) ==> fb.field.0 == i),
                pattern_fields_distinct(pfs@),
                pattern_fields_exist(pfs@, defs@),
                pattern_fields_cover(pfs@, defs@),
                forall|i: int| 0 <= i < j ==> #[trigger] old(self).pattern_binding_accepted(pfs@, defs@, i),
                forall|n: Seq<char>|
                    #![trigger lookup(self.binding_names@, n)]
                    (lookup(self.binding_names@, n) is Some) <==> (lookup(old(self).binding_names@, n) is Some || exists|i: int|
                        0 <= i < j && (#[trigger] pfs@[i]).binding.name.lexeme@ == n),
            decreases pfs@.len() - j,
        {
            let pf = &pfs[j];
            match self.check_binding_name(&pf.binding.name) {
                Ok(()) => {},
                Err(e) => {
                    proof {
                        let n = pf.binding.name.lexeme@;
                        if lookup(self.binding_names@, n) is Some && lookup(old(self).binding_names@, n) is None {
                            let i = choose|i: int| 0 <= i < j && (#[trigger] pfs@[i]).binding.name.lexeme@ == n;
                            assert(pfs@[i].binding.name.lexeme@ == n);
                        }
                        assert(!old(self).pattern_binding_accepted(pfs@, defs@, j as int));
                    }
                    return Err(e);
                },
            }
            let fi = match field_index(defs, pf.field.lexeme) {
                Some(k) => k,
                None => {
                    proof {
                        let i = choose|i: int| 0 <= i < meta_names(defs@).len() && meta_names(defs@)[i] == pf.field.lexeme@;
                        assert(defs@[i].name@ == pf.field.lexeme@);
                    }
                    return vstd::pervasive::unreached();
                },
            };
            let ft = defs[fi].type_id;
            proof {
                assert(last_field_named(defs@, pf.field.lexeme@, fi as int));
            }
            let declared = match analyzer.resolve_type_identifier(&pf.binding.type_ident) {
                Ok(d) => d,
                Err(e) => {
                    assert(!old(self).pattern_binding_accepted(pfs@, defs@, j as int));
                    return Err(e);
                },
            };
            if declared != ft {
                assert(!old(self).pattern_binding_accepted(pfs@, defs@, j as int));
                return Err(
                    fail(
                        SemanticFailure::When(
                            WhenFailure::ExtractionTypeMismatch { expected: self.descriptor(ft), actual: self.descriptor(declared) },
                        ),
                        pf.binding.type_ident.span,
                    ),
                );
            }
            proof {
                let n = pf.binding.name.lexeme@;
                assert forall|i: int| 0 <= i < j implies (#[trigger] pfs@[i]).binding.name.lexeme@ != n by {
                    assert(lookup(self.binding_names@, pfs@[i].binding.name.lexeme@) is Some);
                }
                assert forall|k: int| last_field_named(defs@, pf.field.lexeme@, k) implies lookup(
                    old(self).analyzer.type_names@,
                    pf.binding.type_ident.lexeme@,
                ) == Some(#[trigger] defs@[k].type_id) by {
                    if k < fi {
                        assert(defs@[fi as int].name@ == pf.field.lexeme@);
                    } else if k > fi {
                        assert(defs@[k].name@ == pf.field.lexeme@);
                    }
                }
                assert(old(self).pattern_binding_accepted(pfs@, defs@, j as int));
            }
            let ghost before_names = self.binding_names@;
            let b = self.push_binding(&pf.binding.name, declared);
            proof {
                assert forall|n: Seq<char>|
                    #![trigger lookup(self.binding_names@, n)]
                    (lookup(self.binding_names@, n) is Some) <==> (lookup(old(self).binding_names@, n) is Some || exists|i: int|
                        0 <= i < j + 1 && (#[trigger] pfs@[i]).binding.name.lexeme@ == n) by {
                    lemma_lookup_push(before_names, self.binding_names@.last(), n);
                    assert(lookup(before_names, n) is Some <==> (lookup(old(self).binding_names@, n) is Some || exists|i: int|
                        0 <= i < j && (#[trigger] pfs@[i]).binding.name.lexeme@ == n));
                    if exists|i: int| 0 <= i < j + 1 && (#[trigger] pfs@[i]).binding.name.lexeme@ == n {
                        let i = choose|i: int| 0 <= i < j + 1 && (#[trigger] pfs@[i]).binding.name.lexeme@ == n;
                        if i < j {
                            assert(pfs@[i].binding.name.lexeme@ == n);
                        }
                    }
                    if exists|i: int| 0 <= i < j && (#[trigger] pfs@[i]).binding.name.lexeme@ == n {
                        let i = choose|i: int| 0 <= i < j && (#[trigger] pfs@[i]).binding.name.lexeme@ == n;
                        assert(pfs@[i].binding.name.lexeme@ == n);
                    }
                    if n == pf.binding.name.lexeme@ {
                        assert(pfs@[j as int].binding.name.lexeme@ == n);
                    }
                }
            }
            proof {
                assert(self.binding_names@.subrange(0, old(self).binding_names@.len() as int) =~= before_names.subrange(
                    0,
                    old(self).binding_names@.len() as int,
                ));
            }
            let ghost before_slots = slots@;
            slots.set(fi, Some(SemanticFieldBinding { field: FieldId(fi), binding: BindingId(b) }));
            proof {
                assert forall|i: int| 0 <= i < slots@.len() implies (#[trigger] slots@[i] matches Some(fb) ==> (fb.binding.0 as int) < self.nb()) by {
                    if i != fi {
                        assert(slots@[i] == before_slots[i]);
                    }
                }
                assert forall|i: int| 0 <= i < slots@.len() implies (#[trigger] slots@[i] matches Some(fb) ==> fb.field.0 == i) by {
                    if i != fi {
                        assert(slots@[i] == before_slots[i]);
                    }
                }
            }
            j = j + 1;
        }
        let mut fields: Vec<SemanticFieldBinding> = Vec::new();
        let mut k: usize = 0;
        while k < slots.len()
            invariant
                k <= slots@.len(),
                forall|i: int| 0 <= i < slots@.len() ==> (#[trigger] slots@[i] matches Some(fb) ==> (fb.binding.0 as int) < self.nb()),
                forall|i: int| 0 <= i < fields@.len() ==> (#[trigger] fields@[i].binding.0 as int) < self.nb(),
                forall|i: int| 0 <= i < slots@.len() ==> (#[trigger] slots@[i] matches Some(fb) ==> fb.field.0 == i),
                forall|i: int| 0 <= i < fields@.len() ==> (#[trigger] fields@[i].field.0 as int) < k,
                forall|a: int, b: int|
                    0 <= a < b < fields@.len() ==> (#[trigger] fields@[a]).field.0 < (#[trigger] fields@[b]).field.0,
            decreases slots@.len() - k,
        {
            if let Some(fb) = &slots[k] {
                let ghost before = fields@;
                fields.push(SemanticFieldBinding { field: FieldId(fb.field.0), binding: BindingId(fb.binding.0) });
                proof {
                    assert(slots@[k as int] matches Some(x) && x.field.0 == k);
                    assert forall|i: int| 0 <= i < fields@.len() implies (#[trigger] fields@[i].field.0 as int) < k + 1 by {
                        if i < before.len() {
                            assert(fields@[i] == before[i]);
                        }
                    }
                    assert forall|a: int, b: int|
                        0 <= a < b < fields@.len() implies (#[trigger] fields@[a]).field.0 < (#[trigger] fields@[b]).field.0 by {
                        assert(fields@[a] == before[a]);
                        if b < before.len() {
                            assert(fields@[b] == before[b]);
                        }
                    }
                }
            }
            k = k + 1;
        }
        Ok(fields)
    }

    /// `when subject { Enum::Variant => result, .. }`: one correspondence
    /// for each variant of the subject's enum, each extracting the payload the
    /// variant carries into fresh bindings; all results of one type. A `when`
    /// on a name bound to an enum without payloads, covering each variant
    /// once with expressions built from names, literals and operators of
    /// fitting types, is accepted.
    /// Where the subject is a name and every result is built from names,
    /// literals and operators, a `when` that leaves variants out is refused
    /// with those variants in declaration order.
    pub fn analyze_when(&mut self, w: &WhenExpression, span: SourceSpan, expected: Option<usize>) -> (r: Result<
        SemanticExpression,
        CompileFailure,
    >)
        requires
            old(self).wf(),
            old(self).expected_ok(expected),
            parsed_form(*w.subject),
            forall|i: int| 0 <= i < w.correspondences@.len() ==> parsed_form(#[trigger] w.correspondences@[i].result),
        ensures
            final(self).extends(old(self)),
            r is Ok ==> final(self).binding_names@ == old(self).binding_names@,
            r matches Ok(e) ==> final(self).expr_ok(e),
            r matches Ok(e) ==> {
                &&& e.span == span
                &&& e.kind matches SemanticExpressionKind::When(sw)
                &&& old(self).analyzer.metas@[sw.subject.type_id.0 as int] matches TypeMeta::Enum(em)
                &&& branches_cover(sw.branches@, em.variants@, w.correspondences@)
                &&& sw.branches@.len() > 0
                &&& e.type_id.0 == match expected {
                    Some(t) => t,
                    None => sw.branches@[0].result.type_id.0,
                }
                &&& forall|i: int| 0 <= i < sw.branches@.len() ==> value_compatible(
                    old(self).types(),
                    (#[trigger] sw.branches@[i]).result.type_id.0 as int,
                    e.type_id.0 as int,
                )
            },
            old(self).simple_when_accepted(*w, expected) ==> r is Ok,
            old(self).bound_type(*w.subject) matches Some(t) ==> (!(old(self).analyzer.metas@[t as int] is Enum) ==> r
                == Err::<SemanticExpression, CompileFailure>(
                semantic_failure(
                    SemanticFailure::When(WhenFailure::SubjectNotEnum { actual: old(self).analyzer.type_descriptors@[t as int] }),
                    w.subject.kind->Identifier_0.span,
                ),
            )),
            old(self).bound_type(*w.subject) matches Some(t) ==> ((forall|i: int|
                0 <= i < w.correspondences@.len() ==> shallow((#[trigger] w.correspondences@[i]).result))
                ==> (r matches Err(e) ==> (e.kind matches crate::failures::CompileFailureKind::Semantic(
                SemanticFailure::When(WhenFailure::NonExhaustive { missing }),
            ) ==> e.source_span == span && (old(self).analyzer.metas@[t as int] matches TypeMeta::Enum(em)
                && missing@.map_values(|m: String| m@) == missing_variants(em.variants@, w.correspondences@))))),
        decreases *w, 0nat,
    {
        let ghost acc = old(self).simple_when_accepted(*w, expected);
        let subject = self.analyze_expression(&w.subject, None)?;
        let analyzer = self.analyzer;
        proof {
            assert(crate::analyzer::meta_below(analyzer.metas@[subject.type_id.0 as int], self.nt()));
        }
        let variants = match &analyzer.metas[subject.type_id.0] {
            TypeMeta::Enum(em) => &em.variants,
            _ => {
                return Err(
                    fail(
                        SemanticFailure::When(WhenFailure::SubjectNotEnum { actual: self.descriptor(subject.type_id.0) }),
                        subject.span,
                    ),
                );
            },
        };
        proof {
            assert(variants@.len() > 0);
        }
        let mut visited: Vec<&str> = Vec::new();
        let mut branches: Vec<SemanticWhenBranch> = Vec::new();
        let mut common: Option<usize> = expected;
        let mut c: usize = 0;
        while c < w.correspondences.len()
            invariant
                self.extends(old(self)),
                self.binding_names@ == old(self).binding_names@,
                self.analyzer == analyzer,
                forall|i: int| 0 <= i < w.correspondences@.len() ==> parsed_form(#[trigger] w.correspondences@[i].result),
                forall|i: int| 0 <= i < variants@.len() ==> crate::analyzer::variant_meta_below(#[trigger] variants@[i], self.nt()),
                self.expr_ok(subject),
                self.expected_ok(common),
                c <= w.correspondences@.len(),
                visited@.len() == c,
                branches@.len() == c,
                c > 0 ==> common is Some,
                branches_wf(branches@, self.nt(), self.nf(), self.ns(), self.nb(), self.nsb()),
                analyzer.metas@[subject.type_id.0 as int] matches TypeMeta::Enum(em) && em.variants@ == variants@,
                forall|i: int| 0 <= i < c ==> #[trigger] branch_on_named_variant(branches@, variants@, w.correspondences@, i),
                forall|i: int| 0 <= i < c ==> (#[trigger] visited@[i])@ == pattern_variant(w.correspondences@[i].pattern),
                forall|i: int, j: int| 0 <= i < j < c ==> (#[trigger] visited@[i])@ != (#[trigger] visited@[j])@,
                expected is Some ==> common == expected,
                c == 0 ==> common == expected,
                expected is None && c > 0 ==> common == Some(branches@[0].result.type_id.0),
                forall|i: int| 0 <= i < c ==> value_compatible(
                    self.types(),
                    (#[trigger] branches@[i]).result.type_id.0 as int,
                    common->0 as int,
                ),
                acc == old(self).simple_when_accepted(*w, expected),
                old(self).wf(),
                acc ==> old(self).bound_type(*w.subject) == Some(subject.type_id.0),
                old(self).bound_type(*w.subject) is Some ==> old(self).bound_type(*w.subject) == Some(subject.type_id.0),
                acc && c > 0 ==> common == old(self).when_result_type(*w, expected),
                acc ==> forall|k: int| 0 <= k < variants@.len() ==> (#[trigger] variants@[k]) is Simple,
            decreases w.correspondences@.len() - c,
        {
            let corr = &w.correspondences[c];
            let (qname, shape) = match &corr.pattern {
                WhenPattern::Simple { variant } => (variant, EnumPayloadShape::Simple),
                WhenPattern::Associated { variant, .. } => (variant, EnumPayloadShape::Associated),
                WhenPattern::Structured { variant, .. } => (variant, EnumPayloadShape::Structured),
            };
            proof {
                if acc {
                    assert(old(self).simple_correspondence(w.correspondences@[c as int], subject.type_id.0, variants@));
                }
            }
            let pt = analyzer.resolve_type_identifier(&qname.qualifier)?;
            if pt != subject.type_id.0 {
                return Err(
                    fail(
                        SemanticFailure::When(
                            WhenFailure::PatternEnumMismatch {
                                expected: self.descriptor(subject.type_id.0),
                                actual: self.descriptor(pt),
                            },
                        ),
                        qname.qualifier.span,
                    ),
                );
            }
            let vi = match variant_index(variants, qname.name.lexeme) {
                Some(i) => i,
                None => {
                    return Err(
                        fail(
                            SemanticFailure::When(WhenFailure::VariantNotFound { variant: qname.name.lexeme.to_owned() }),
                            qname.name.span,
                        ),
                    );
                },
            };
            if text_listed(&visited, qname.name.lexeme) {
                return Err(
                    fail(
                        SemanticFailure::When(
                            WhenFailure::DuplicateVariantCorrespondence { variant: qname.name.lexeme.to_owned() },
                        ),
                        qname.name.span,
                    ),
                );
            }
            let ghost visited_before = visited@;
            visited.push(qname.name.lexeme);
            proof {
                assert(pattern_variant(corr.pattern) == qname.name.lexeme@);
                assert(corr == w.correspondences@[c as int]);
                assert forall|j: int| 0 <= j < c implies (#[trigger] visited@[j])@ != qname.name.lexeme@ by {
                    assert(visited@[j] == visited_before[j]);
                }
            }
            let vm = &variants[vi];
            proof {
                assert(crate::analyzer::variant_meta_below(*vm, self.nt()));
            }
            let expected_shape = vm.payload_shape();
            if !payload_shapes_match(&expected_shape, &shape) {
                return Err(
                    fail(
                        SemanticFailure::When(WhenFailure::PayloadShapeMismatch { expected: expected_shape, actual: shape }),
                        qname.name.span,
                    ),
                );
            }
            let scope = self.binding_names.len();
            let ghost entry = *self;
            let ghost entry_branches = branches@;
            let extraction = match (&corr.pattern, vm) {
                (WhenPattern::Simple { .. }, VariantMeta::Simple { .. }) => {
                    proof {
                        assert(self.binding_names@.subrange(0, entry.binding_names@.len() as int) =~= entry.binding_names@);
                    }
                    SemanticVariantExtraction::Simple
                },
                (WhenPattern::Associated { binding, .. }, VariantMeta::Associated { type_id, .. }) => {
                    self.check_binding_name(&binding.name)?;
                    let declared = analyzer.resolve_type_identifier(&binding.type_ident)?;
                    if declared != *type_id {
                        return Err(
                            fail(
                                SemanticFailure::When(
                                    WhenFailure::ExtractionTypeMismatch {
                                        expected: self.descriptor(*type_id),
                                        actual: self.descriptor(declared),
                                    },
                                ),
                                binding.type_ident.span,
                            ),
                        );
                    }
                    let b = self.push_binding(&binding.name, declared);
                    proof {
                        assert(self.binding_names@.subrange(0, entry.binding_names@.len() as int) =~= entry.binding_names@);
                    }
                    SemanticVariantExtraction::Associated { binding: BindingId(b) }
                },
                (WhenPattern::Structured { fields: pfs, .. }, VariantMeta::Structured { fields: defs, .. }) => {
                    let fields = self.extract_fields(pfs, defs, qname.name.span)?;
                    SemanticVariantExtraction::Structured { fields }
                },
                _ => {
                    return vstd::pervasive::unreached();
                },
            };
            proof {
                lemma_branches_grow(entry_branches, self.nt(), self.nf(), self.ns(), entry.nb(), self.nsb(), self.nb());
            }
            let ghost mid = self.nb();
            let ghost pre_res = *self;
            let result = self.analyze_expression(&corr.result, common);
            self.binding_names.truncate(scope);
            proof {
                if forall|i: int| 0 <= i < w.correspondences@.len() ==> shallow((#[trigger] w.correspondences@[i]).result) {
                    assert(shallow(w.correspondences@[c as int].result));
                }
                if acc {
                    assert(common == (if c == 0 {
                        expected
                    } else {
                        old(self).when_result_type(*w, expected)
                    }));
                    assert(shallow(w.correspondences@[c as int].result));
                    assert(old(self).shallow_type(w.correspondences@[c as int].result, common) is Some);
                    pre_res.lemma_shallow_info_kept(&*old(self), corr.result, common);
                    assert(pre_res.shallow_info(corr.result, common) is Some);
                }
            }
            let result = result?;
            proof {
                if acc {
                    assert(common == (if c == 0 {
                        expected
                    } else {
                        old(self).when_result_type(*w, expected)
                    }));
                    assert(old(self).shallow_type(w.correspondences@[c as int].result, common) is Some);
                    pre_res.lemma_shallow_info_kept(&*old(self), corr.result, common);
                    assert(result.type_id.0 == old(self).shallow_type(corr.result, common)->0);
                }
            }
            proof {
                assert(self.binding_names@ =~= entry.binding_names@);
                lemma_branches_grow(branches@, self.nt(), self.nf(), self.ns(), mid, self.nsb(), self.nb());
            }
            match common {
                Some(ct) => {
                    if !analyzer.is_value_type_compatible(result.type_id.0, ct) {
                        return Err(
                            fail(
                                SemanticFailure::When(
                                    WhenFailure::BranchResultTypeMismatch {
                                        expected: self.descriptor(ct),
                                        actual: self.descriptor(result.type_id.0),
                                    },
                                ),
                                result.span,
                            ),
                        );
                    }
                },
                None => {
                    common = Some(result.type_id.0);
                },
            }
            let ghost before = branches@;
            proof {
                lemma_expr_wf_grow(subject, self.nt(), self.nf(), self.ns(), entry.nb(), self.nsb(), self.nb());
            }
            branches.push(SemanticWhenBranch { variant: VariantId(vi), extraction, result });
            proof {
                assert(branches@[c as int].variant.0 == vi);
                assert forall|i: int| 0 <= i < c + 1 implies #[trigger] branch_on_named_variant(
                    branches@,
                    variants@,
                    w.correspondences@,
                    i,
                ) by {
                    if i < c {
                        assert(branches@[i] == before[i]);
                        assert(branch_on_named_variant(before, variants@, w.correspondences@, i));
                    } else {
                        assert(variants@[vi as int].spec_name() == qname.name.lexeme@);
                        assert(pattern_variant(w.correspondences@[i].pattern) == qname.name.lexeme@);
                    }
                }
                assert forall|i: int| 0 <= i < c + 1 implies (#[trigger] visited@[i])@ == pattern_variant(
                    w.correspondences@[i].pattern,
                ) by {
                    if i < c {
                        assert(visited@[i] == visited_before[i]);
                    }
                }
                assert forall|i: int| 0 <= i < c + 1 implies value_compatible(
                    self.types(),
                    (#[trigger] branches@[i]).result.type_id.0 as int,
                    common->0 as int,
                ) by {
                    if i < c {
                        assert(branches@[i] == before[i]);
                    }
                }
                if c > 0 {
                    assert(branches@[0] == before[0]);
                } else {
                    assert(branches@[0].result == result);
                    assert(expected is None ==> common == Some(result.type_id.0));
                }
                assert(variants@[vi as int].spec_name() == qname.name.lexeme@);
                assert(visited@[c as int]@ == qname.name.lexeme@);
                assert(pattern_variant(w.correspondences@[c as int].pattern) == qname.name.lexeme@);
                assert forall|i: int|
                    0 <= i < branches@.len() implies {
                        &&& expr_wf(#[trigger] branches@[i].result, self.nt(), self.nf(), self.ns(), self.nb(), self.nsb())
                        &&& extraction_wf(branches@[i].extraction, self.nb())
                    } by {
                    if i < before.len() {
                        assert(branches@[i] == before[i]);
                    }
                }
            }
            c = c + 1;
        }
        if visited.len() != variants.len() {
            let mut missing: Vec<String> = Vec::new();
            let mut k: usize = 0;
            proof {
                assert(variants@.take(0) =~= Seq::<VariantMeta>::empty());
                assert(missing@.map_values(|m: String| m@) =~= Seq::<Seq<char>>::empty());
            }
            while k < variants.len()
                invariant
                    k <= variants@.len(),
                    visited@.len() == w.correspondences@.len(),
                    forall|i: int| 0 <= i < visited@.len() ==> (#[trigger] visited@[i])@ == pattern_variant(w.correspondences@[i].pattern),
                    missing@.map_values(|m: String| m@) == missing_variants(variants@.take(k as int), w.correspondences@),
                decreases variants@.len() - k,
            {
                let ghost before = missing@;
                proof {
                    assert(variants@.take(k + 1).drop_last() =~= variants@.take(k as int));
                    assert(variants@.take(k + 1).last() == variants@[k as int]);
                }
                if !text_listed(&visited, variants[k].name()) {
                    proof {
                        if correspondence_names(w.correspondences@, variants@[k as int].spec_name()) {
                            let j = choose|j: int|
                                0 <= j < w.correspondences@.len() && pattern_variant((#[trigger] w.correspondences@[j]).pattern)
                                    == variants@[k as int].spec_name();
                            assert(visited@[j]@ == variants@[k as int].spec_name());
                        }
                    }
                    missing.push(variants[k].name().to_owned());
                    proof {
                        assert(missing@.map_values(|m: String| m@) =~= before.map_values(|m: String| m@).push(
                            variants@[k as int].spec_name(),
                        ));
                    }
                } else {
                    proof {
                        let j = choose|j: int| 0 <= j < visited@.len() && (#[trigger] visited@[j])@ == variants@[k as int].spec_name();
                        assert(pattern_variant(w.correspondences@[j].pattern) == variants@[k as int].spec_name());
                        assert(correspondence_names(w.correspondences@, variants@[k as int].spec_name()));
                    }
                }
                k = k + 1;
            }
            proof {
                assert(variants@.take(k as int) =~= variants@);
            }
            return Err(fail(SemanticFailure::When(WhenFailure::NonExhaustive { missing }), span));
        }
        let t = match common {
            Some(t) => t,
            None => {
                return vstd::pervasive::unreached();
            },
        };
        proof {
            let n = variants@.len() as int;
            let idx = branches@.map_values(|b: SemanticWhenBranch| b.variant.0 as int);
            assert forall|i: int| 0 <= i < n implies 0 <= #[trigger] idx[i] < n by {
                assert(idx[i] == branches@[i].variant.0 as int);
                assert(branch_on_named_variant(branches@, variants@, w.correspondences@, i));
            }
            assert forall|i: int, j: int| 0 <= i < j < n implies idx[i] != idx[j] by {
                assert(idx[i] == branches@[i].variant.0 as int);
                assert(idx[j] == branches@[j].variant.0 as int);
                assert(visited@[i]@ != visited@[j]@);
                assert(branch_on_named_variant(branches@, variants@, w.correspondences@, i));
                assert(branch_on_named_variant(branches@, variants@, w.correspondences@, j));
            }
            lemma_distinct_positions_cover(idx, n);
            assert forall|v: int| 0 <= v < n implies #[trigger] has_branch(branches@, v) by {
                assert(idx.contains(v));
                let i = choose|i: int| 0 <= i < idx.len() && idx[i] == v;
                assert(branches@[i].variant.0 == v);
            }
            assert forall|i: int, j: int| 0 <= i < j < branches@.len() implies #[trigger] branches@[i].variant
                != #[trigger] branches@[j].variant by {
                assert(visited@[i]@ != visited@[j]@);
                assert(branch_on_named_variant(branches@, variants@, w.correspondences@, i));
                assert(branch_on_named_variant(branches@, variants@, w.correspondences@, j));
            }
            assert forall|i: int| 0 <= i < branches@.len() implies (#[trigger] branches@[i].variant.0 as int)
                < variants@.len() && variants@[branches@[i].variant.0 as int].spec_name() == pattern_variant(
                w.correspondences@[i].pattern,
            ) by {
                assert(branch_on_named_variant(branches@, variants@, w.correspondences@, i));
            }
            assert(branches_cover(branches@, variants@, w.correspondences@));
        }
        Ok(SemanticExpression {
            type_id: TypeId(t),
            kind: SemanticExpressionKind::When(SemanticWhen { subject: Box::new(subject), branches }),
            span,
        })
    }
}

/// Two initializers name one field.
pub open spec fn initializers_repeat(inits: Seq<FieldInitializer>) -> bool {
    exists|i: int, j: int|
        0 <= i < j < inits.len() && (#[trigger] inits[i]).name.lexeme@ == (#[trigger] inits[j]).name.lexeme@
}

/// An initializer names no field of `defs`.
pub open spec fn initializers_unknown(inits: Seq<FieldInitializer>, defs: Seq<FieldMeta>) -> bool {
    exists|i: int| 0 <= i < inits.len() && !meta_names(defs).contains(#[trigger] inits[i].name.lexeme@)
}

/// Some field of `defs` has no initializer.
pub open spec fn fields_missing(inits: Seq<FieldInitializer>, defs: Seq<FieldMeta>) -> bool {
    exists|k: int| 0 <= k < defs.len() && !initialized(inits, #[trigger] defs[k].name@)
}

/// Some initializer names `name`.
pub open spec fn initialized(inits: Seq<FieldInitializer>, name: Seq<char>) -> bool {
    exists|j: int| 0 <= j < inits.len() && (#[trigger] inits[j]).name.lexeme@ == name
}

/// The field values follow the initializers one by one: each on the field
/// its initializer names, with a value of that field's type.
pub open spec fn values_follow(
    types: Seq<SemanticType>,
    vs: Seq<SemanticFieldValue>,
    inits: Seq<FieldInitializer>,
    defs: Seq<FieldMeta>,
) -> bool {
    &&& vs.len() == inits.len()
    &&& forall|i: int|
        0 <= i < vs.len() ==> {
            &&& (#[trigger] vs[i].field.0 as int) < defs.len()
            &&& defs[vs[i].field.0 as int].name@ == inits[i].name.lexeme@
            &&& value_compatible(types, vs[i].value.type_id.0 as int, defs[vs[i].field.0 as int].type_id as int)
        }
}

/// The initializer at `j` names a field that an earlier one names.
pub open spec fn repeats_earlier(inits: Seq<FieldInitializer>, j: int) -> bool {
    exists|i: int| 0 <= i < j && (#[trigger] inits[i]).name.lexeme@ == inits[j].name.lexeme@
}

/// The failure that initializers `inits` for the fields `defs` of a
/// construction at `span` meet before any value is looked at: the first
/// initializer that repeats an earlier one, then the first that names no
/// field, then the first field, in declaration order, left out.
pub open spec fn initializers_refused(
    inits: Seq<FieldInitializer>,
    defs: Seq<FieldMeta>,
    span: SourceSpan,
    f: CompileFailure,
) -> bool {
    if initializers_repeat(inits) {
        exists|j: int|
            0 <= j < inits.len() && #[trigger] repeats_earlier(inits, j) && (forall|k: int|
                0 <= k < j ==> !#[trigger] repeats_earlier(inits, k)) && f.source_span == inits[j].name.span && (f.kind
                matches crate::failures::CompileFailureKind::Semantic(
                SemanticFailure::Composite(CompositeFailure::DuplicateFieldInitializer { field }),
            ) && field@ == inits[j].name.lexeme@)
    } else if initializers_unknown(inits, defs) {
        exists|i: int|
            0 <= i < inits.len() && !meta_names(defs).contains(#[trigger] inits[i].name.lexeme@) && (forall|k: int|
                0 <= k < i ==> meta_names(defs).contains(#[trigger] inits[k].name.lexeme@)) && f.source_span
                == inits[i].name.span && (f.kind matches crate::failures::CompileFailureKind::Semantic(
                SemanticFailure::Composite(CompositeFailure::FieldNotFound { field }),
            ) && field@ == inits[i].name.lexeme@)
    } else {
        exists|k: int|
            0 <= k < defs.len() && !initialized(inits, #[trigger] defs[k].name@) && (forall|m: int|
                0 <= m < k ==> initialized(inits, #[trigger] defs[m].name@)) && f.source_span == span && (f.kind
                matches crate::failures::CompileFailureKind::Semantic(
                SemanticFailure::Composite(CompositeFailure::MissingField { field }),
            ) && field@ == defs[k].name@)
    }
}

/// The variant that an enum construction names.
pub open spec fn construction_variant(ec: EnumConstruction) -> crate::ast::QualifiedName {
    match ec {
        EnumConstruction::Simple { variant } => variant,
        EnumConstruction::Associated { variant, .. } => variant,
        EnumConstruction::Structured { variant, .. } => variant,
    }
}

/// The payload an enum construction writes.
pub open spec fn construction_shape(ec: EnumConstruction) -> EnumPayloadShape {
    match ec {
        EnumConstruction::Simple { .. } => EnumPayloadShape::Simple,
        EnumConstruction::Associated { .. } => EnumPayloadShape::Associated,
        EnumConstruction::Structured { .. } => EnumPayloadShape::Structured,
    }
}

/// The last variant of `vs` named `name`.
pub open spec fn last_variant_named(vs: Seq<VariantMeta>, name: Seq<char>, i: int) -> bool {
    &&& 0 <= i < vs.len()
    &&& vs[i].spec_name() == name
    &&& forall|j: int| i < j < vs.len() ==> (#[trigger] vs[j]).spec_name() != name
}

/// The variant that a `when` pattern names.
pub open spec fn pattern_variant(p: WhenPattern) -> Seq<char> {
    match p {
        WhenPattern::Simple { variant } => variant.name.lexeme@,
        WhenPattern::Associated { variant, .. } => variant.name.lexeme@,
        WhenPattern::Structured { variant, .. } => variant.name.lexeme@,
    }
}

/// The branches follow the correspondences one by one, each on the variant
/// its pattern names; no variant has two branches and every variant has one.
pub open spec fn branches_cover(
    bs: Seq<SemanticWhenBranch>,
    vs: Seq<VariantMeta>,
    cs: Seq<crate::ast::WhenCorrespondence>,
) -> bool {
    &&& bs.len() == cs.len()
    &&& forall|i: int|
        0 <= i < bs.len() ==> (#[trigger] bs[i].variant.0 as int) < vs.len() && vs[bs[i].variant.0 as int].spec_name()
            == pattern_variant(cs[i].pattern)
    &&& forall|i: int, j: int| 0 <= i < j < bs.len() ==> #[trigger] bs[i].variant != #[trigger] bs[j].variant
    &&& forall|v: int| 0 <= v < vs.len() ==> #[trigger] has_branch(bs, v)
}

/// Some branch is on variant `v`.
pub open spec fn has_branch(bs: Seq<SemanticWhenBranch>, v: int) -> bool {
    exists|i: int| 0 <= i < bs.len() && #[trigger] bs[i].variant.0 == v
}

/// Branch `i` is on the variant that correspondence `i` names.
pub open spec fn branch_on_named_variant(
    bs: Seq<SemanticWhenBranch>,
    vs: Seq<VariantMeta>,
    cs: Seq<crate::ast::WhenCorrespondence>,
    i: int,
) -> bool {
    &&& (bs[i].variant.0 as int) < vs.len()
    &&& vs[bs[i].variant.0 as int].spec_name() == pattern_variant(cs[i].pattern)
}

/// `n` distinct positions below `n` are all of them.
proof fn lemma_distinct_positions_cover(idx: Seq<int>, n: int)
    requires
        idx.len() == n,
        forall|i: int| 0 <= i < n ==> 0 <= #[trigger] idx[i] < n,
        forall|i: int, j: int| 0 <= i < j < n ==> idx[i] != idx[j],
    ensures
        forall|v: int| 0 <= v < n ==> #[trigger] idx.contains(v),
{
    assert forall|i: int, j: int| 0 <= i < idx.len() && 0 <= j < idx.len() && i != j implies idx[i] != idx[j] by {
        if i < j {
        } else {
        }
    }
    assert(idx.no_duplicates());
    idx.unique_seq_to_set();
    vstd::set_lib::lemma_int_range(0, n);
    let s = idx.to_set();
    let r = vstd::set_lib::set_int_range(0, n);
    assert(s.subset_of(r));
    vstd::seq_lib::seq_to_set_is_finite(idx);
    vstd::set_lib::lemma_subset_equality(s, r);
    assert forall|v: int| 0 <= v < n implies #[trigger] idx.contains(v) by {
        assert(r.contains(v));
        assert(s.contains(v));
    }
}

// --- Function bodies ---

pub open spec fn call_parsed(c: FunctionCall) -> bool {
    forall|i: int| 0 <= i < c.arguments@.len() ==> parsed_form(#[trigger] c.arguments@[i])
}

pub open spec fn pipeline_parsed(p: Pipeline) -> bool {
    &&& parsed_form(*p.source)
    &&& forall|i: int| 0 <= i < p.stages@.len() ==> (#[trigger] p.stages@[i]).additional_arguments@.len() < usize::MAX
    &&& forall|i: int, j: int|
        0 <= i < p.stages@.len() && 0 <= j < p.stages@[i].additional_arguments@.len()
            ==> parsed_form(#[trigger] p.stages@[i].additional_arguments@[j])
}

/// The body has the form the parser hands over, in its statements and its
/// result.
pub open spec fn body_parsed(b: crate::ast::FunctionBody) -> bool {
    &&& forall|i: int|
        0 <= i < b.statements@.len() ==> match #[trigger] b.statements@[i] {
            BodyStatement::Let(l) => parsed_form(l.value),
            BodyStatement::Operation(OperationStatement::FunctionCall(c)) => call_parsed(c),
            BodyStatement::Operation(OperationStatement::Pipeline(p)) => pipeline_parsed(p),
        }
    &&& parsed_form(b.result)
}

pub open spec fn statement_wf(st: SemanticStatement, nt: nat, nf: nat, ns: nat, nb: nat, nsb: nat) -> bool {
    match st {
        SemanticStatement::Bind { binding, value } => (binding.0 as int) < nb && expr_wf(value, nt, nf, ns, nb, nsb),
        SemanticStatement::Operation(e) => expr_wf(e, nt, nf, ns, nb, nsb),
    }
}

/// Every index in the function names an entry: its bindings, signature
/// bindings and parameters among its own, the rest among `nt` types, `nf`
/// functions and `ns` signatures.
pub open spec fn function_wf(f: SemanticFunction, nt: nat, nf: nat, ns: nat) -> bool {
    let nb = f.bindings@.len();
    let nsb = f.signature_bindings@.len();
    &&& forall|b: int| 0 <= b < nb ==> (#[trigger] f.bindings@[b].type_id.0 as int) < nt
    &&& forall|b: int| 0 <= b < nsb ==> (#[trigger] f.signature_bindings@[b].signature.0 as int) < ns
    &&& params_wf(f.parameters@, nb, nsb)
    &&& (f.result_type.0 as int) < nt
    &&& (f.satisfaction matches Some(s) ==> (s.0 as int) < ns)
    &&& forall|i: int| 0 <= i < f.body.statements@.len() ==> statement_wf(#[trigger] f.body.statements@[i], nt, nf, ns, nb, nsb)
    &&& expr_wf(f.body.result, nt, nf, ns, nb, nsb)
}

/// Each binding is initialised with a value of its type, and the result is a
/// value of the function's result type.
pub open spec fn function_typed(f: SemanticFunction, types: Seq<SemanticType>) -> bool {
    &&& forall|i: int|
        0 <= i < f.body.statements@.len() ==> (#[trigger] f.body.statements@[i] matches SemanticStatement::Bind { binding, value }
            ==> value_compatible(types, value.type_id.0 as int, f.bindings@[binding.0 as int].type_id.0 as int))
    &&& value_compatible(types, f.body.result.type_id.0 as int, f.result_type.0 as int)
}

pub open spec fn statements_wf(sts: Seq<SemanticStatement>, nt: nat, nf: nat, ns: nat, nb: nat, nsb: nat) -> bool {
    forall|i: int| 0 <= i < sts.len() ==> statement_wf(#[trigger] sts[i], nt, nf, ns, nb, nsb)
}

proof fn lemma_statements_grow(sts: Seq<SemanticStatement>, nt: nat, nf: nat, ns: nat, nb: nat, nsb: nat, nb2: nat)
    requires
        statements_wf(sts, nt, nf, ns, nb, nsb),
        nb <= nb2,
    ensures
        statements_wf(sts, nt, nf, ns, nb2, nsb),
{
    assert forall|i: int| 0 <= i < sts.len() implies statement_wf(#[trigger] sts[i], nt, nf, ns, nb2, nsb) by {
        match sts[i] {
            SemanticStatement::Bind { value, .. } => lemma_expr_wf_grow(value, nt, nf, ns, nb, nsb, nb2),
            SemanticStatement::Operation(e) => lemma_expr_wf_grow(e, nt, nf, ns, nb, nsb, nb2),
        }
    }
}

/// The type bound last to `n` among the bindings `lets`, taken in order.
pub open spec fn lets_lookup(lets: Seq<(Seq<char>, usize)>, n: Seq<char>) -> Option<usize>
    decreases lets.len(),
{
    if lets.len() == 0 {
        None
    } else if lets.last().0 == n {
        Some(lets.last().1)
    } else {
        lets_lookup(lets.drop_last(), n)
    }
}

impl<'b, 'a, 'source> FunctionAnalyzer<'b, 'a, 'source> {
    /// The type of the binding named `n`, where `lets` are bound after the
    /// bindings in scope now.
    pub open spec fn scoped_type(&self, lets: Seq<(Seq<char>, usize)>, n: Seq<char>) -> Option<usize> {
        match lookup(self.binding_names@, n) {
            Some(b) => Some(self.bindings@[b as int].type_id.0),
            None => lets_lookup(lets, n),
        }
    }

    /// The type that a name or a literal takes where `expected` is expected,
    /// with `lets` bound after the bindings in scope now.
    pub open spec fn scoped_atom_type(&self, lets: Seq<(Seq<char>, usize)>, e: Expression, expected: Option<usize>) -> Option<
        usize,
    > {
        match e.kind {
            ExpressionKind::Identifier(id) => self.scoped_type(lets, id.lexeme@),
            ExpressionKind::Literal { kind, lexeme } => if self.literal_accepted(kind, lexeme@, expected) {
                Some(literal_type(self.types(), kind, expected))
            } else {
                None
            },
            _ => None,
        }
    }

    /// The `let` `lb`, after `lets`, binds a fresh name that follows the
    /// rule, under a known type, to a name or a literal whose type fits it.
    pub open spec fn let_accepted(&self, lets: Seq<(Seq<char>, usize)>, lb: LetBinding) -> bool {
        let n = lb.binding.name.lexeme@;
        &&& snake_case(n)
        &&& self.scoped_type(lets, n) is None
        &&& lookup(self.signature_binding_names@, n) is None
        &&& lookup(self.analyzer.type_names@, lb.binding.type_ident.lexeme@) matches Some(dt) && self.scoped_atom_type(
            lets,
            lb.value,
            Some(dt),
        ) matches Some(vt) && value_compatible(self.types(), vt as int, dt as int)
    }

    /// The bindings, name and declared type, that the `let`s among the first
    /// `k` statements add.
    pub open spec fn body_lets(&self, stmts: Seq<BodyStatement>, k: int) -> Seq<(Seq<char>, usize)>
        decreases k,
    {
        if k <= 0 {
            Seq::empty()
        } else {
            let prev = self.body_lets(stmts, k - 1);
            match stmts[k - 1] {
                BodyStatement::Let(lb) => prev.push(
                    (lb.binding.name.lexeme@, lookup(self.analyzer.type_names@, lb.binding.type_ident.lexeme@)->0),
                ),
                _ => prev,
            }
        }
    }

    /// The first `k` statements are `let`s, each accepted after the ones
    /// before it.
    pub open spec fn lets_accepted(&self, stmts: Seq<BodyStatement>, k: int) -> bool {
        forall|i: int|
            0 <= i < k ==> (#[trigger] stmts[i] matches BodyStatement::Let(lb) && self.let_accepted(
                self.body_lets(stmts, i),
                lb,
            ))
    }

    /// The failure of the `let` `lb` after `lets`, where its value is a name
    /// or a literal: a name against the rule, a name already bound, an
    /// unknown type, an unknown value, a literal that the declared type
    /// cannot hold, or the declared type against the value's.
    pub open spec fn let_failure(&self, lets: Seq<(Seq<char>, usize)>, lb: LetBinding, e: CompileFailure) -> bool {
        let n = lb.binding.name;
        let ti = lb.binding.type_ident;
        let v = lb.value;
        let descs = self.analyzer.type_descriptors@;
        if !snake_case(n.lexeme@) {
            e == semantic_failure(
                SemanticFailure::Declaration(DeclarationFailure::InvalidNamingConvention { role: SemanticNameRole::Binding }),
                n.span,
            )
        } else if self.scoped_type(lets, n.lexeme@) is Some || lookup(self.signature_binding_names@, n.lexeme@) is Some {
            e.source_span == n.span && (e.kind matches crate::failures::CompileFailureKind::Semantic(
                SemanticFailure::Declaration(DeclarationFailure::BindingNameCollision { name }),
            ) && name@ == n.lexeme@)
        } else {
            match lookup(self.analyzer.type_names@, ti.lexeme@) {
                None => e.source_span == ti.span && (e.kind matches crate::failures::CompileFailureKind::Semantic(
                    SemanticFailure::Resolution(ResolutionFailure::UnknownType { name }),
                ) && name@ == ti.lexeme@),
                Some(dt) => match v.kind {
                    ExpressionKind::Identifier(id) => match self.scoped_type(lets, id.lexeme@) {
                        None => e.source_span == id.span && (e.kind matches crate::failures::CompileFailureKind::Semantic(
                            SemanticFailure::Resolution(ResolutionFailure::UnknownValueSymbol { name }),
                        ) && name@ == id.lexeme@),
                        Some(vt) => e == semantic_failure(
                            SemanticFailure::TypeChecking(
                                TypeCheckingFailure::BindingInitialization { expected: descs[dt as int], actual: descs[vt as int] },
                            ),
                            id.span,
                        ),
                    },
                    ExpressionKind::Literal { kind, lexeme } => if !self.literal_accepted(kind, lexeme@, Some(dt)) {
                        e == semantic_failure(
                            SemanticFailure::TypeChecking(
                                TypeCheckingFailure::NumericLiteralNotRepresentable {
                                    expected: descs[literal_type(self.types(), kind, Some(dt)) as int],
                                },
                            ),
                            v.span,
                        )
                    } else {
                        e == semantic_failure(
                            SemanticFailure::TypeChecking(
                                TypeCheckingFailure::BindingInitialization {
                                    expected: descs[dt as int],
                                    actual: descs[literal_type(self.types(), kind, Some(dt)) as int],
                                },
                            ),
                            v.span,
                        )
                    },
                    _ => true,
                },
            }
        }
    }
}

/// A statement of the analysed body follows its statement in the source: a
/// `let` under a snake case name becomes a binding of the type it declares,
/// an operation stays an operation.
pub open spec fn statement_follows(
    type_names: Seq<NamedIndex>,
    bindings: Seq<SemanticBinding>,
    st: BodyStatement,
    sem: SemanticStatement,
) -> bool {
    match (st, sem) {
        (BodyStatement::Let(lb), SemanticStatement::Bind { binding, .. }) => snake_case(lb.binding.name.lexeme@) && lookup(
            type_names,
            lb.binding.type_ident.lexeme@,
        ) == Some(bindings[binding.0 as int].type_id.0),
        (BodyStatement::Operation(_), SemanticStatement::Operation(_)) => true,
        _ => false,
    }
}

impl<'b, 'a, 'source> FunctionAnalyzer<'b, 'a, 'source> {
    /// The body of the function: each `let` binds a new name to a value of its
    /// declared type, each operation is a call or a pipeline, and the result
    /// is a value of the function's result type. Where the statements up to
    /// some `let` are `let`s that each bind a name or a literal and are
    /// accepted, a `let` of a name or a literal that breaks a rule is refused
    /// with its failure; where all statements are such `let`s, a result that
    /// is a name or a literal is accepted exactly when its type fits the
    /// result type, and otherwise refused with both types.
    #[verifier::spinoff_prover]
    pub fn analyze_body(self) -> (r: Result<SemanticFunction, CompileFailure>)
        requires
            self.wf(),
            body_parsed(self.header.ast.body),
            self.parameters@.len() == self.header.parameters@.len(),
        ensures
            r matches Ok(f) ==> {
                &&& function_wf(f, self.nt(), self.nf(), self.ns())
                &&& function_typed(f, self.types())
                &&& f.result_type.0 == self.header.result_type
                &&& f.parameters@.len() == self.header.parameters@.len()
                &&& f.body.statements@.len() == self.header.ast.body.statements@.len()
                &&& forall|i: int|
                    0 <= i < f.body.statements@.len() ==> statement_follows(
                        self.analyzer.type_names@,
                        f.bindings@,
                        #[trigger] self.header.ast.body.statements@[i],
                        f.body.statements@[i],
                    )
                &&& f.satisfaction == match self.header.satisfaction {
                    Some((sid, _)) => Some(SignatureId(sid)),
                    None => None,
                }
            },
            r matches Ok(f) ==> (self.header.ast.body.result.kind is Identifier ==> f.body.result.kind is Binding),
            r matches Ok(f) ==> (self.header.ast.body.result.kind is Literal ==> f.body.result.kind is Literal),
            self.header.ast.body.statements@.len() == 0 ==> (self.header.ast.body.result.kind matches ExpressionKind::Literal {
                kind,
                lexeme,
            } ==> (r is Ok <==> literal_value_accepted(self.types(), kind, lexeme@, Some(self.header.result_type))
                && value_compatible(
                self.types(),
                literal_type(self.types(), kind, Some(self.header.result_type)) as int,
                self.header.result_type as int,
            ))),
            self.header.ast.body.statements@.len() == 0 ==> (self.bound_type(self.header.ast.body.result) matches Some(t)
                ==> (r matches Err(e) ==> e == semantic_failure(
                SemanticFailure::TypeChecking(
                    TypeCheckingFailure::FunctionResult {
                        expected: self.analyzer.type_descriptors@[self.header.result_type as int],
                        actual: self.analyzer.type_descriptors@[t as int],
                    },
                ),
                self.header.ast.body.result.kind->Identifier_0.span,
            ))),
            self.header.ast.body.statements@.len() == 0 ==> (self.bound_type(self.header.ast.body.result) matches Some(t)
                ==> (r is Ok <==> value_compatible(self.types(), t as int, self.header.result_type as int))),
            forall|k: int|
                0 <= k < self.header.ast.body.statements@.len() && self.lets_accepted(self.header.ast.body.statements@, k) ==> (
                #[trigger] self.header.ast.body.statements@[k] matches BodyStatement::Let(lb) ==> (is_atom(lb.value)
                    && !self.let_accepted(self.body_lets(self.header.ast.body.statements@, k), lb) ==> (r matches Err(e)
                    && self.let_failure(self.body_lets(self.header.ast.body.statements@, k), lb, e)))),
            ({
                let stmts = self.header.ast.body.statements@;
                let res = self.header.ast.body.result;
                self.lets_accepted(stmts, stmts.len() as int) && is_atom(res) ==> match self.scoped_atom_type(
                    self.body_lets(stmts, stmts.len() as int),
                    res,
                    Some(self.header.result_type),
                ) {
                    None => r is Err,
                    Some(t) => {
                        &&& (r is Ok <==> value_compatible(self.types(), t as int, self.header.result_type as int))
                        &&& (r matches Err(e) ==> e == semantic_failure(
                            SemanticFailure::TypeChecking(
                                TypeCheckingFailure::FunctionResult {
                                    expected: self.analyzer.type_descriptors@[self.header.result_type as int],
                                    actual: self.analyzer.type_descriptors@[t as int],
                                },
                            ),
                            if res.kind is Identifier {
                                res.kind->Identifier_0.span
                            } else {
                                res.span
                            },
                        ))
                    },
                }
            }),
    {
        let ghost start = self;
        let mut this = self;
        let ast = this.header.ast;
        let mut statements: Vec<SemanticStatement> = Vec::new();
        let mut k: usize = 0;
        while k < ast.body.statements.len()
            invariant
                this.wf(),
                this.analyzer == start.analyzer,
                this.header == start.header,
                this.parameters == start.parameters,
                this.signature_bindings == start.signature_bindings,
                ast == start.header.ast,
                body_parsed(ast.body),
                k <= ast.body.statements@.len(),
                statements_wf(statements@, this.nt(), this.nf(), this.ns(), this.nb(), this.nsb()),
                forall|i: int|
                    0 <= i < statements@.len() ==> (#[trigger] statements@[i] matches SemanticStatement::Bind { binding, value }
                        ==> value_compatible(this.types(), value.type_id.0 as int, this.bindings@[binding.0 as int].type_id.0 as int)),
                statements@.len() == k,
                k == 0 ==> this == start,
                start == self,
                forall|i: int|
                    0 <= i < k ==> statement_follows(
                        this.analyzer.type_names@,
                        this.bindings@,
                        #[trigger] ast.body.statements@[i],
                        statements@[i],
                    ),
                this.signature_binding_names == start.signature_binding_names,
                start.lets_accepted(ast.body.statements@, k as int) ==> forall|n: Seq<char>|
                    #![trigger lookup(this.binding_names@, n)]
                    this.scoped_type(Seq::empty(), n) == start.scoped_type(start.body_lets(ast.body.statements@, k as int), n),
                forall|j: int|
                    0 <= j < k && start.lets_accepted(ast.body.statements@, j) ==> (
                    #[trigger] ast.body.statements@[j] matches BodyStatement::Let(lb) ==> (is_atom(lb.value) ==> start.let_accepted(
                        start.body_lets(ast.body.statements@, j),
                        lb,
                    ))),
            decreases ast.body.statements@.len() - k,
        {
            let ghost before = this;
            let ghost before_statements = statements@;
            let ghost stmts = ast.body.statements@;
            let ghost lets = start.body_lets(stmts, k as int);
            let ghost acc = start.lets_accepted(stmts, k as int);
            proof {
                assert(stmts[k as int] == ast.body.statements@[k as int]);
                assert forall|k2: int| k < k2 <= stmts.len() && #[trigger] start.lets_accepted(stmts, k2) implies (stmts[k as int] matches BodyStatement::Let(lb)
                    && start.let_accepted(lets, lb)) && start.lets_accepted(stmts, k + 1) by {
                    assert(stmts[k as int] matches BodyStatement::Let(lb) && start.let_accepted(start.body_lets(stmts, k as int), lb));
                }
            }
            match &ast.body.statements[k] {
                BodyStatement::Let(lb) => {
                    proof {
                        if acc {
                            assert(this.scoped_type(Seq::empty(), lb.binding.name.lexeme@) == start.scoped_type(lets, lb.binding.name.lexeme@));
                            if let ExpressionKind::Identifier(id) = &lb.value.kind {
                                assert(this.scoped_type(Seq::empty(), id.lexeme@) == start.scoped_type(lets, id.lexeme@));
                            }
                        }
                    }
                    match this.check_binding_name(&lb.binding.name) {
                        Ok(()) => {},
                        Err(e) => {
                            proof {
                                if acc && is_atom(lb.value) {
                                    assert(start.let_failure(lets, *lb, e));
                                }
                            }
                            return Err(e);
                        },
                    }
                    let analyzer = this.analyzer;
                    let expected = match analyzer.resolve_type_identifier(&lb.binding.type_ident) {
                        Ok(t) => t,
                        Err(e) => {
                            proof {
                                if acc && is_atom(lb.value) {
                                    assert(start.let_failure(lets, *lb, e));
                                }
                            }
                            return Err(e);
                        },
                    };
                    let v = match this.analyze_expression(&lb.value, Some(expected)) {
                        Ok(v) => v,
                        Err(e) => {
                            proof {
                                if acc && is_atom(lb.value) {
                                    assert(start.let_failure(lets, *lb, e));
                                }
                            }
                            return Err(e);
                        },
                    };
                    proof {
                        if acc && is_atom(lb.value) {
                            assert(start.scoped_atom_type(lets, lb.value, Some(expected)) == Some(v.type_id.0));
                        }
                    }
                    if !this.analyzer.is_value_type_compatible(v.type_id.0, expected) {
                        let e = fail(
                            SemanticFailure::TypeChecking(
                                TypeCheckingFailure::BindingInitialization {
                                    expected: this.descriptor(expected),
                                    actual: this.descriptor(v.type_id.0),
                                },
                            ),
                            v.span,
                        );
                        proof {
                            if acc && is_atom(lb.value) {
                                assert(start.let_failure(lets, *lb, e));
                            }
                        }
                        return Err(e);
                    }
                    proof {
                        if acc && is_atom(lb.value) {
                            assert(start.let_accepted(lets, *lb));
                        }
                    }
                    let ghost mid = this.nb();
                    let ghost names_before = this.binding_names@;
                    let ghost binds_before = this.bindings@;
                    let b = this.push_binding(&lb.binding.name, expected);
                    proof {
                        lemma_expr_wf_grow(v, this.nt(), this.nf(), this.ns(), mid, this.nsb(), this.nb());
                        if start.lets_accepted(stmts, k + 1) {
                            assert(start.body_lets(stmts, k + 1) == lets.push((lb.binding.name.lexeme@, expected)));
                            assert forall|n: Seq<char>| #![trigger lookup(this.binding_names@, n)]
                                this.scoped_type(Seq::empty(), n) == start.scoped_type(start.body_lets(stmts, k + 1), n) by {
                                lemma_lookup_push(names_before, this.binding_names@.last(), n);
                                assert(this.binding_names@ == names_before.push(this.binding_names@.last()));
                                assert(before.scoped_type(Seq::empty(), n) == start.scoped_type(lets, n));
                                assert(lets.push((lb.binding.name.lexeme@, expected)).drop_last() =~= lets);
                                if let Some(x) = lookup(names_before, n) {
                                    lemma_lookup_below(names_before, n, before.nb());
                                    assert(this.bindings@[x as int] == binds_before[x as int]);
                                }
                            }
                        }
                    }
                    statements.push(SemanticStatement::Bind { binding: BindingId(b), value: v });
                },
                BodyStatement::Operation(op) => {
                    let e = match op {
                        OperationStatement::FunctionCall(call) => this.analyze_function_call(call, call.callee.span)?,
                        OperationStatement::Pipeline(p) => this.analyze_pipeline(p)?,
                    };
                    statements.push(SemanticStatement::Operation(e));
                },
            }
            proof {
                lemma_statements_grow(before_statements, this.nt(), this.nf(), this.ns(), before.nb(), this.nsb(), this.nb());
                assert forall|i: int| 0 <= i < statements@.len() implies statement_wf(#[trigger] statements@[i], this.nt(), this.nf(), this.ns(), this.nb(), this.nsb()) by {
                    if i < before_statements.len() {
                        assert(statements@[i] == before_statements[i]);
                    }
                }
                assert forall|i: int|
                    0 <= i < statements@.len() implies (#[trigger] statements@[i] matches SemanticStatement::Bind { binding, value }
                        ==> value_compatible(this.types(), value.type_id.0 as int, this.bindings@[binding.0 as int].type_id.0 as int)) by {
                    if i < before_statements.len() {
                        assert(statements@[i] == before_statements[i]);
                        if let SemanticStatement::Bind { binding, value } = statements@[i] {
                            assert(this.bindings@[binding.0 as int] == before.bindings@[binding.0 as int]);
                        }
                    }
                }
                assert forall|i: int|
                    0 <= i < k + 1 implies statement_follows(
                    this.analyzer.type_names@,
                    this.bindings@,
                    #[trigger] ast.body.statements@[i],
                    statements@[i],
                ) by {
                    if i < k {
                        assert(statements@[i] == before_statements[i]);
                        assert(statement_follows(
                            before.analyzer.type_names@,
                            before.bindings@,
                            ast.body.statements@[i],
                            before_statements[i],
                        ));
                        if let SemanticStatement::Bind { binding, .. } = statements@[i] {
                            assert(this.bindings@[binding.0 as int] == before.bindings@[binding.0 as int]);
                        }
                    }
                }
            }
            k = k + 1;
        }
        let result_type = this.header.result_type;
        let ghost mid = this.nb();
        let result = this.analyze_expression(&ast.body.result, Some(result_type))?;
        if !this.analyzer.is_value_type_compatible(result.type_id.0, result_type) {
            return Err(
                fail(
                    SemanticFailure::TypeChecking(
                        TypeCheckingFailure::FunctionResult {
                            expected: this.descriptor(result_type),
                            actual: this.descriptor(result.type_id.0),
                        },
                    ),
                    result.span,
                ),
            );
        }
        proof {
            lemma_statements_grow(statements@, this.nt(), this.nf(), this.ns(), mid, this.nsb(), this.nb());
        }
        let satisfaction = match &this.header.satisfaction {
            Some((sid, _)) => Some(SignatureId(*sid)),
            None => None,
        };
        let f = SemanticFunction {
            parameters: this.parameters,
            bindings: this.bindings,
            signature_bindings: this.signature_bindings,
            result_type: TypeId(result_type),
            satisfaction,
            body: SemanticFunctionBody { statements, result },
        };
        proof {
            assert forall|i: int|
                0 <= i < f.body.statements@.len() implies (#[trigger] f.body.statements@[i] matches SemanticStatement::Bind { binding, value }
                    ==> value_compatible(this.types(), value.type_id.0 as int, f.bindings@[binding.0 as int].type_id.0 as int)) by {
                assert(f.body.statements@[i] == statements@[i]);
            }
            assert forall|i: int|
                0 <= i < f.body.statements@.len() implies statement_follows(
                start.analyzer.type_names@,
                f.bindings@,
                #[trigger] start.header.ast.body.statements@[i],
                f.body.statements@[i],
            ) by {
                assert(f.body.statements@[i] == statements@[i]);
                if let SemanticStatement::Bind { binding, .. } = statements@[i] {
                    assert(f.bindings@[binding.0 as int] == this.bindings@[binding.0 as int]);
                }
            }
        }
        Ok(f)
    }
}

impl<'a, 'source> Analyzer<'a, 'source> {
    /// Analyses the body of every function, in the order of the headers;
    /// functions that each return one of their parameters are accepted.
    pub fn analyze_function_bodies(&mut self) -> (r: Result<(), CompileFailure>)
        requires
            old(self).wf(),
            old(self).functions@.len() == 0,
            forall|i: int| 0 <= i < old(self).function_headers@.len() ==> body_parsed(#[trigger] old(self).function_headers@[i].ast.body),
        ensures
            final(self).wf(),
            final(self).program == old(self).program,
            final(self).catalog == old(self).catalog,
            final(self).types == old(self).types,
            final(self).type_descriptors == old(self).type_descriptors,
            final(self).metas == old(self).metas,
            final(self).type_names == old(self).type_names,
            final(self).signatures == old(self).signatures,
            final(self).function_headers == old(self).function_headers,
            final(self).function_names == old(self).function_names,
            r is Ok ==> final(self).functions@.len() == final(self).function_headers@.len(),
            forall|i: int|
                0 <= i < final(self).functions@.len() ==> {
                    &&& function_wf(#[trigger] final(self).functions@[i], final(self).types@.len(), final(self).function_headers@.len(), final(self).signatures@.len())
                    &&& function_typed(final(self).functions@[i], final(self).types@)
                    &&& final(self).functions@[i].result_type.0 == final(self).function_headers@[i].result_type
                    &&& final(self).functions@[i].body.statements@.len() == final(self).function_headers@[i].ast.body.statements@.len()
                    &&& final(self).functions@[i].parameters@.len() == final(self).function_headers@[i].parameters@.len()
                    &&& (final(self).function_headers@[i].ast.body.result.kind is Identifier
                        ==> final(self).functions@[i].body.result.kind is Binding)
                    &&& (final(self).function_headers@[i].ast.body.result.kind is Literal
                        ==> final(self).functions@[i].body.result.kind is Literal)
                },
            (forall|i: int|
                0 <= i < old(self).function_headers@.len() ==> #[trigger] returns_parameter(
                    old(self).types@,
                    old(self).function_headers@[i],
                ) || returns_literal(old(self).types@, old(self).function_headers@[i])) ==> r is Ok,
    {
        let n = self.function_headers.len();
        let mut i: usize = 0;
        while i < n
            invariant
                self.wf(),
                n == self.function_headers@.len(),
                self.program == old(self).program,
                self.catalog == old(self).catalog,
                self.types == old(self).types,
                self.type_descriptors == old(self).type_descriptors,
                self.metas == old(self).metas,
                self.type_names == old(self).type_names,
                self.signatures == old(self).signatures,
                self.function_headers == old(self).function_headers,
                self.function_names == old(self).function_names,
                forall|j: int| 0 <= j < n ==> body_parsed(#[trigger] self.function_headers@[j].ast.body),
                i <= n,
                self.functions@.len() == i,
                forall|j: int|
                    0 <= j < i ==> {
                        &&& function_wf(#[trigger] self.functions@[j], self.types@.len(), n as nat, self.signatures@.len())
                        &&& function_typed(self.functions@[j], self.types@)
                        &&& self.functions@[j].result_type.0 == self.function_headers@[j].result_type
                        &&& self.functions@[j].body.statements@.len() == self.function_headers@[j].ast.body.statements@.len()
                        &&& self.functions@[j].parameters@.len() == self.function_headers@[j].parameters@.len()
                        &&& (self.function_headers@[j].ast.body.result.kind is Identifier
                            ==> self.functions@[j].body.result.kind is Binding)
                        &&& (self.function_headers@[j].ast.body.result.kind is Literal
                            ==> self.functions@[j].body.result.kind is Literal)
                    },
            decreases n - i,
        {
            let f = {
                let header = &self.function_headers[i];
                proof {
                    assert(crate::analyzer::header_below(*header, self.types@.len(), self.signatures@.len()));
                    assert(body_parsed(header.ast.body));
                }
                let fa = FunctionAnalyzer::new(self, header);
                match fa.analyze_body() {
                    Ok(f) => f,
                    Err(e) => {
                        proof {
                            if (forall|j: int|
                                0 <= j < old(self).function_headers@.len() ==> #[trigger] returns_parameter(
                                    old(self).types@,
                                    old(self).function_headers@[j],
                                ) || returns_literal(old(self).types@, old(self).function_headers@[j])) && returns_parameter(
                                old(self).types@,
                                old(self).function_headers@[i as int],
                            ) {
                                let id = header.ast.body.result.kind->Identifier_0;
                                assert(value_param_named(header.parameters@, header.parameters@.len() as int, id.lexeme@));
                                assert(lookup(fa.binding_names@, id.lexeme@) is Some);
                                let b = lookup(fa.binding_names@, id.lexeme@)->0;
                                let j = choose|j: int|
                                    0 <= j < header.parameters@.len() && #[trigger] value_param_typed(
                                        header.parameters@,
                                        j,
                                        id.lexeme@,
                                        fa.bindings@[lookup(fa.binding_names@, id.lexeme@)->0 as int].type_id.0,
                                    );
                                assert(fa.bound_type(header.ast.body.result) == Some(fa.bindings@[b as int].type_id.0));
                            }
                        }
                        return Err(e);
                    },
                }
            };
            self.functions.push(f);
            i = i + 1;
        }
        Ok(())
    }
}

} // verus!
