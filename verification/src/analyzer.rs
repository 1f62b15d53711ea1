//! Semantic analysis of a parsed program against the application's catalog:
//! imports, local types, function headers, bodies and the call graph. Every
//! table that the analysis builds refers only to entries that exist.
use vstd::prelude::*;

use crate::ast::{
    Declaration, EnumVariant, FieldDefinition, FunctionDefinition, Identifier, ImportDeclaration,
    Parameter, Program, QualifiedName, Visibility,
};
use crate::catalog::{
    CatalogSignatureParameter, CatalogType, CatalogTypeRef, CatalogVariant, CompilationCatalog,
    TypeSymbol,
};
use crate::failures::{
    CompileFailure, CompileFailureKind, DeclarationFailure, EnumPayloadShape, ResolutionFailure,
    SemanticArgumentKind, SemanticFailure, SemanticNameRole, SemanticTypeDescriptor,
    SignatureMismatchKind,
};
use crate::lexical::SourceSpan;
use crate::naming::{is_valid_pascal_case, is_valid_snake_case, pascal_case, snake_case};
use crate::natives::{clone_signature_symbol, clone_type_descriptor, numeric_native};
use crate::semantic::{
    NativeType, SemanticField, SemanticFunction, SemanticSignature, SemanticSignatureParameter,
    SemanticType, SemanticVariant, SignatureId, SignatureSymbol, TypeId,
};
use crate::tables::{
    NamedIndex, bind_name, find_name, indices_below, lemma_lookup_below, lemma_lookup_found,
    lemma_lookup_push, lookup, names,
};
use crate::graph::{cycle_reachable, edge, find_cycle, graph_wf};
use crate::text::same_text;

verus! {

// --- Structural metadata of composite types ---

pub struct FieldMeta {
    pub name: String,
    pub type_id: usize,
}

pub struct StructMeta {
    pub fields: Vec<FieldMeta>,
}

pub enum VariantMeta {
    Simple { name: String },
    Associated { name: String, type_id: usize },
    Structured { name: String, fields: Vec<FieldMeta> },
}

pub struct EnumMeta {
    pub variants: Vec<VariantMeta>,
}

/// What the analysis knows of a type's members: nothing for natives and for
/// local types not yet populated.
pub enum TypeMeta {
    Opaque,
    Struct(StructMeta),
    Enum(EnumMeta),
}

impl VariantMeta {
    pub open spec fn spec_name(&self) -> Seq<char> {
        match self {
            VariantMeta::Simple { name } => name@,
            VariantMeta::Associated { name, .. } => name@,
            VariantMeta::Structured { name, .. } => name@,
        }
    }

    pub open spec fn shape(&self) -> EnumPayloadShape {
        match self {
            VariantMeta::Simple { .. } => EnumPayloadShape::Simple,
            VariantMeta::Associated { .. } => EnumPayloadShape::Associated,
            VariantMeta::Structured { .. } => EnumPayloadShape::Structured,
        }
    }

    /// The variant's name.
    pub fn name(&self) -> (r: &str)
        ensures
            r@ == self.spec_name(),
    {
        match self {
            VariantMeta::Simple { name } => name.as_str(),
            VariantMeta::Associated { name, .. } => name.as_str(),
            VariantMeta::Structured { name, .. } => name.as_str(),
        }
    }

    /// Which payload the variant carries.
    pub fn payload_shape(&self) -> (r: EnumPayloadShape)
        ensures
            r == self.shape(),
    {
        match self {
            VariantMeta::Simple { .. } => EnumPayloadShape::Simple,
            VariantMeta::Associated { .. } => EnumPayloadShape::Associated,
            VariantMeta::Structured { .. } => EnumPayloadShape::Structured,
        }
    }
}

// --- Well-formedness with respect to table sizes ---

pub open spec fn fields_below(fields: Seq<SemanticField>, n: nat) -> bool {
    forall|i: int| 0 <= i < fields.len() ==> (#[trigger] fields[i].type_id.0 as int) < n
}

pub open spec fn variant_below(v: SemanticVariant, n: nat) -> bool {
    match v {
        SemanticVariant::Simple => true,
        SemanticVariant::Associated { type_id } => (type_id.0 as int) < n,
        SemanticVariant::Structured { fields } => fields_below(fields@, n),
    }
}

/// Every type that `t` refers to is below `n`.
pub open spec fn type_below(t: SemanticType, n: nat) -> bool {
    match t {
        SemanticType::Native(_) => true,
        SemanticType::Struct { fields } => fields_below(fields@, n),
        SemanticType::Enum { variants } => forall|i: int|
            0 <= i < variants.len() ==> variant_below(#[trigger] variants@[i], n),
    }
}

pub open spec fn field_metas_below(fields: Seq<FieldMeta>, n: nat) -> bool {
    forall|i: int| 0 <= i < fields.len() ==> (#[trigger] fields[i].type_id as int) < n
}

pub open spec fn variant_meta_below(v: VariantMeta, n: nat) -> bool {
    match v {
        VariantMeta::Simple { .. } => true,
        VariantMeta::Associated { type_id, .. } => (type_id as int) < n,
        VariantMeta::Structured { fields, .. } => field_metas_below(fields@, n),
    }
}

pub open spec fn meta_below(m: TypeMeta, n: nat) -> bool {
    match m {
        TypeMeta::Opaque => true,
        TypeMeta::Struct(s) => field_metas_below(s.fields@, n),
        TypeMeta::Enum(e) => forall|i: int|
            0 <= i < e.variants.len() ==> variant_meta_below(#[trigger] e.variants@[i], n),
    }
}

/// The signature refers only to types below `nt` and signatures below `ns`.
pub open spec fn signature_below(s: SemanticSignature, nt: nat, ns: nat) -> bool {
    &&& (s.result_type.0 as int) < nt
    &&& forall|i: int|
        0 <= i < s.parameters.len() ==> match #[trigger] s.parameters@[i] {
            SemanticSignatureParameter::Value(t) => (t.0 as int) < nt,
            SemanticSignatureParameter::SignatureDependency(d) => (d.0 as int) < ns,
        }
}

/// The native type at each of the first positions of the type table.
pub open spec fn native_at(i: int) -> NativeType {
    if i == 0 {
        NativeType::Int
    } else if i == 1 {
        NativeType::Float
    } else if i == 2 {
        NativeType::Bool
    } else if i == 3 {
        NativeType::String
    } else if i == 4 {
        NativeType::Dynamic
    } else if i == 5 {
        NativeType::Int8
    } else if i == 6 {
        NativeType::Int16
    } else if i == 7 {
        NativeType::Int32
    } else if i == 8 {
        NativeType::Int64
    } else if i == 9 {
        NativeType::Int128
    } else if i == 10 {
        NativeType::Uint8
    } else if i == 11 {
        NativeType::Uint16
    } else if i == 12 {
        NativeType::Uint32
    } else if i == 13 {
        NativeType::Uint64
    } else if i == 14 {
        NativeType::Uint128
    } else if i == 15 {
        NativeType::Float32
    } else {
        NativeType::Float64
    }
}

/// How many native types open the type table.
pub const NATIVE_COUNT: usize = 17;

/// In a table that binds each native name to its position, looking up the
/// name of the native at `idx` gives `idx`.
pub proof fn lemma_native_index_lookup(t: Seq<NamedIndex>, idx: int)
    requires
        t.len() == NATIVE_COUNT,
        forall|i: int| 0 <= i < NATIVE_COUNT ==> #[trigger] t[i].name@ == crate::natives::native_name(native_at(i)),
        forall|i: int| 0 <= i < NATIVE_COUNT ==> #[trigger] t[i].index == i,
        0 <= idx < NATIVE_COUNT,
    ensures
        lookup(t, crate::natives::native_name(native_at(idx))) == Some(idx as usize),
{
    let n = crate::natives::native_name(native_at(idx));
    lemma_lookup_found(t, n);
    assert(names(t)[idx] == n);
    let x = lookup(t, n)->0;
    let i = choose|i: int| 0 <= i < t.len() && t[i].index == x && t[i].name@ == n;
    crate::natives::lemma_native_name_injective(native_at(i), native_at(idx));
    assert(native_at(i) == native_at(idx));
}

/// The position of a native type in the type table.
pub fn native_type_id(nt: NativeType) -> (r: usize)
    ensures
        r < NATIVE_COUNT,
        native_at(r as int) == nt,
{
    match nt {
        NativeType::Int => 0,
        NativeType::Float => 1,
        NativeType::Bool => 2,
        NativeType::String => 3,
        NativeType::Dynamic => 4,
        NativeType::Int8 => 5,
        NativeType::Int16 => 6,
        NativeType::Int32 => 7,
        NativeType::Int64 => 8,
        NativeType::Int128 => 9,
        NativeType::Uint8 => 10,
        NativeType::Uint16 => 11,
        NativeType::Uint32 => 12,
        NativeType::Uint64 => 13,
        NativeType::Uint128 => 14,
        NativeType::Float32 => 15,
        NativeType::Float64 => 16,
    }
}

fn native_at_exec(i: usize) -> (r: NativeType)
    requires
        i < NATIVE_COUNT,
    ensures
        r == native_at(i as int),
{
    if i == 0 {
        NativeType::Int
    } else if i == 1 {
        NativeType::Float
    } else if i == 2 {
        NativeType::Bool
    } else if i == 3 {
        NativeType::String
    } else if i == 4 {
        NativeType::Dynamic
    } else if i == 5 {
        NativeType::Int8
    } else if i == 6 {
        NativeType::Int16
    } else if i == 7 {
        NativeType::Int32
    } else if i == 8 {
        NativeType::Int64
    } else if i == 9 {
        NativeType::Int128
    } else if i == 10 {
        NativeType::Uint8
    } else if i == 11 {
        NativeType::Uint16
    } else if i == 12 {
        NativeType::Uint32
    } else if i == 13 {
        NativeType::Uint64
    } else if i == 14 {
        NativeType::Uint128
    } else if i == 15 {
        NativeType::Float32
    } else {
        NativeType::Float64
    }
}

// --- Failures ---

pub open spec fn semantic_failure(f: SemanticFailure, span: SourceSpan) -> CompileFailure {
    CompileFailure { kind: CompileFailureKind::Semantic(f), source_span: span }
}

pub fn fail(f: SemanticFailure, span: SourceSpan) -> (r: CompileFailure)
    ensures
        r == semantic_failure(f, span),
{
    CompileFailure { kind: CompileFailureKind::Semantic(f), source_span: span }
}

pub fn declaration_failure(f: DeclarationFailure, span: SourceSpan) -> (r: CompileFailure)
    ensures
        r == semantic_failure(SemanticFailure::Declaration(f), span),
{
    fail(SemanticFailure::Declaration(f), span)
}

/// The span from the start of `first` to the end of `last`.
pub fn join_spans(first: SourceSpan, last: SourceSpan) -> (r: SourceSpan)
    ensures
        r == (SourceSpan { start: first.start, end: last.end }),
{
    SourceSpan { start: first.start, end: last.end }
}


// --- The catalog the analysis may rely on ---

pub open spec fn ref_known(c: &CompilationCatalog, r: CatalogTypeRef) -> bool {
    match r {
        CatalogTypeRef::Shared(sym) => c.has_type(sym.key()),
        _ => true,
    }
}

pub open spec fn catalog_fields_known(c: &CompilationCatalog, fields: Seq<crate::catalog::CatalogField>) -> bool {
    forall|i: int| 0 <= i < fields.len() ==> ref_known(c, #[trigger] fields[i].type_ref)
}

pub open spec fn catalog_variant_known(c: &CompilationCatalog, v: CatalogVariant) -> bool {
    match v {
        CatalogVariant::Simple { .. } => true,
        CatalogVariant::Associated { type_ref, .. } => ref_known(c, type_ref),
        CatalogVariant::Structured { fields, .. } => catalog_fields_known(c, fields@),
    }
}

pub open spec fn catalog_type_known(c: &CompilationCatalog, t: CatalogType) -> bool {
    match t {
        CatalogType::Struct { fields } => catalog_fields_known(c, fields@),
        CatalogType::Enum { variants } => {
            &&& variants.len() > 0
            &&& forall|i: int|
                0 <= i < variants.len() ==> catalog_variant_known(c, #[trigger] variants@[i])
        },
    }
}

pub open spec fn catalog_signature_known(c: &CompilationCatalog, s: crate::catalog::CatalogSignature) -> bool {
    &&& ref_known(c, s.result_type)
    &&& forall|i: int|
        0 <= i < s.parameters.len() ==> match #[trigger] s.parameters@[i] {
            CatalogSignatureParameter::Value(r) => ref_known(c, r),
            CatalogSignatureParameter::SignatureDependency(sym) => c.has_signature(sym.key()),
        }
}

/// The catalog is closed: every shared type and signature that an entry
/// refers to is itself in the catalog, and every shared enum has a variant.
pub open spec fn catalog_closed(c: &CompilationCatalog) -> bool {
    &&& forall|i: int| 0 <= i < c.type_keys().len() ==> catalog_type_known(c, *#[trigger] c.type_at(i))
    &&& forall|i: int|
        0 <= i < c.signature_keys().len() ==> catalog_signature_known(c, *#[trigger] c.signature_at(i))
}

// --- Function headers ---

pub enum FormalParamMeta {
    Value { name: String, type_id: usize, span: SourceSpan },
    SignatureDependency { name: String, signature_id: usize, span: SourceSpan },
}

pub struct FunctionHeader<'a, 'source> {
    pub ast: &'a FunctionDefinition<'source>,
    pub parameters: Vec<FormalParamMeta>,
    pub result_type: usize,
    pub satisfaction: Option<(usize, SignatureSymbol)>,
}

pub open spec fn param_below(p: FormalParamMeta, nt: nat, ns: nat) -> bool {
    match p {
        FormalParamMeta::Value { type_id, .. } => (type_id as int) < nt,
        FormalParamMeta::SignatureDependency { signature_id, .. } => (signature_id as int) < ns,
    }
}

pub open spec fn params_below(ps: Seq<FormalParamMeta>, nt: nat, ns: nat) -> bool {
    forall|i: int| 0 <= i < ps.len() ==> param_below(#[trigger] ps[i], nt, ns)
}

pub open spec fn header_below(h: FunctionHeader, nt: nat, ns: nat) -> bool {
    &&& params_below(h.parameters@, nt, ns)
    &&& (h.result_type as int) < nt
    &&& match h.satisfaction {
        Some((sid, _)) => (sid as int) < ns,
        None => true,
    }
}

/// A list of signatures imported under one local name.
pub struct NamedSignatures {
    pub name: String,
    pub ids: Vec<usize>,
}

// --- The analyser's working state ---

pub struct Analyzer<'a, 'source> {
    pub program: &'a Program<'source>,
    pub catalog: &'a CompilationCatalog,
    pub types: Vec<SemanticType>,
    pub type_descriptors: Vec<SemanticTypeDescriptor>,
    pub metas: Vec<TypeMeta>,
    /// Local names of types: natives, imports, local declarations.
    pub type_names: Vec<NamedIndex>,
    /// The type materialised for each catalog type, by catalog position.
    pub shared_types: Vec<Option<usize>>,
    pub signatures: Vec<SemanticSignature>,
    /// The signature materialised for each catalog signature, by catalog position.
    pub shared_signatures: Vec<Option<usize>>,
    pub signature_names: Vec<NamedSignatures>,
    pub functions: Vec<SemanticFunction>,
    pub function_headers: Vec<FunctionHeader<'a, 'source>>,
    pub function_names: Vec<NamedIndex>,
}

impl<'a, 'source> Analyzer<'a, 'source> {
    pub open spec fn type_count(&self) -> nat {
        self.types@.len()
    }

    pub open spec fn signature_count(&self) -> nat {
        self.signatures@.len()
    }

    /// The tables are consistent: every index that one table holds names an
    /// entry of the table it points into.
    pub open spec fn wf(&self) -> bool {
        let nt = self.types@.len();
        let ns = self.signatures@.len();
        &&& nt >= NATIVE_COUNT
        &&& self.type_descriptors@.len() == nt
        &&& self.metas@.len() == nt
        &&& forall|i: int| 0 <= i < NATIVE_COUNT ==> #[trigger] self.types@[i] == SemanticType::Native(native_at(i))
        &&& forall|i: int| 0 <= i < NATIVE_COUNT ==> #[trigger] self.metas@[i] is Opaque
        &&& forall|i: int| 0 <= i < nt ==> type_below(#[trigger] self.types@[i], nt)
        &&& forall|i: int| 0 <= i < nt ==> meta_below(#[trigger] self.metas@[i], nt)
        &&& forall|i: int| 0 <= i < nt ==> (#[trigger] self.metas@[i] matches TypeMeta::Enum(em) ==> em.variants@.len() > 0)
        &&& indices_below(self.type_names@, nt)
        &&& self.shared_types@.len() == self.catalog.type_keys().len()
        &&& forall|i: int|
            0 <= i < self.shared_types@.len() ==> match #[trigger] self.shared_types@[i] {
                Some(t) => (t as int) < nt,
                None => true,
            }
        &&& forall|i: int| 0 <= i < ns ==> signature_below(#[trigger] self.signatures@[i], nt, ns)
        &&& self.shared_signatures@.len() == self.catalog.signature_keys().len()
        &&& forall|i: int|
            0 <= i < self.shared_signatures@.len() ==> match #[trigger] self.shared_signatures@[i] {
                Some(s) => (s as int) < ns,
                None => true,
            }
        &&& signature_ids_below(self.signature_names@, ns)
        &&& forall|p: int|
            0 <= p < self.shared_signatures@.len() && #[trigger] self.shared_signatures@[p] is Some
                ==> self.signatures@[self.shared_signatures@[p].unwrap() as int].symbol.key() == self.catalog.signature_keys()[p]
        &&& forall|i: int|
            0 <= i < self.function_headers@.len() ==> header_below(#[trigger] self.function_headers@[i], nt, ns)
        &&& indices_below(self.function_names@, self.function_headers@.len())
    }

    /// A fresh analyser that knows the native types and nothing else.
    pub fn new(program: &'a Program<'source>, catalog: &'a CompilationCatalog) -> (r: Self)
        ensures
            r.wf(),
            r.program == program,
            r.catalog == catalog,
            r.types@.len() == NATIVE_COUNT,
            forall|i: int| 0 <= i < NATIVE_COUNT ==> #[trigger] r.type_names@[i].name@ == crate::natives::native_name(native_at(i)),
            forall|i: int| 0 <= i < NATIVE_COUNT ==> #[trigger] r.type_names@[i].index == i,
            forall|i: int| 0 <= i < NATIVE_COUNT ==> #[trigger] r.type_descriptors@[i] == SemanticTypeDescriptor::Native(native_at(i)),
            forall|i: int| 0 <= i < NATIVE_COUNT ==> #[trigger] lookup(r.type_names@, crate::natives::native_name(native_at(i))) == Some(i as usize),
            r.type_names@.len() == NATIVE_COUNT,
            r.signatures@.len() == 0,
            r.signature_names@.len() == 0,
            r.function_headers@.len() == 0,
            r.function_names@.len() == 0,
            r.functions@.len() == 0,
    {
        let mut shared_types: Vec<Option<usize>> = Vec::new();
        let mut i: usize = 0;
        while i < catalog.type_count()
            invariant
                i <= catalog.type_keys().len(),
                shared_types@.len() == i,
                forall|j: int| 0 <= j < i ==> #[trigger] shared_types@[j] is None,
            decreases catalog.type_keys().len() - i,
        {
            shared_types.push(None);
            i = i + 1;
        }
        let mut shared_signatures: Vec<Option<usize>> = Vec::new();
        let mut i: usize = 0;
        while i < catalog.signature_count()
            invariant
                i <= catalog.signature_keys().len(),
                shared_signatures@.len() == i,
                forall|j: int| 0 <= j < i ==> #[trigger] shared_signatures@[j] is None,
            decreases catalog.signature_keys().len() - i,
        {
            shared_signatures.push(None);
            i = i + 1;
        }
        let mut analyzer = Analyzer {
            program,
            catalog,
            types: Vec::new(),
            type_descriptors: Vec::new(),
            metas: Vec::new(),
            type_names: Vec::new(),
            shared_types,
            signatures: Vec::new(),
            shared_signatures,
            signature_names: Vec::new(),
            functions: Vec::new(),
            function_headers: Vec::new(),
            function_names: Vec::new(),
        };
        analyzer.initialize_native_types();
        proof {
            assert forall|i: int| 0 <= i < NATIVE_COUNT implies #[trigger] lookup(
                analyzer.type_names@,
                crate::natives::native_name(native_at(i)),
            ) == Some(i as usize) by {
                lemma_native_index_lookup(analyzer.type_names@, i);
            }
        }
        analyzer
    }

    fn initialize_native_types(&mut self)
        requires
            old(self).types@.len() == 0,
            old(self).type_descriptors@.len() == 0,
            old(self).metas@.len() == 0,
            old(self).type_names@.len() == 0,
            old(self).signatures@.len() == 0,
            old(self).signature_names@.len() == 0,
            old(self).function_headers@.len() == 0,
            old(self).function_names@.len() == 0,
            old(self).shared_types@.len() == old(self).catalog.type_keys().len(),
            forall|j: int| 0 <= j < old(self).shared_types@.len() ==> #[trigger] old(self).shared_types@[j] is None,
            old(self).shared_signatures@.len() == old(self).catalog.signature_keys().len(),
            forall|j: int| 0 <= j < old(self).shared_signatures@.len() ==> #[trigger] old(self).shared_signatures@[j] is None,
        ensures
            final(self).wf(),
            final(self).program == old(self).program,
            final(self).catalog == old(self).catalog,
            final(self).types@.len() == NATIVE_COUNT,
            forall|i: int| 0 <= i < NATIVE_COUNT ==> #[trigger] final(self).type_names@[i].name@ == crate::natives::native_name(native_at(i)),
            forall|i: int| 0 <= i < NATIVE_COUNT ==> #[trigger] final(self).type_names@[i].index == i,
            forall|i: int| 0 <= i < NATIVE_COUNT ==> #[trigger] final(self).type_descriptors@[i] == SemanticTypeDescriptor::Native(native_at(i)),
            final(self).type_names@.len() == NATIVE_COUNT,
            final(self).signatures@.len() == 0,
            final(self).signature_names@.len() == 0,
            final(self).function_headers@.len() == 0,
            final(self).function_names@.len() == 0,
            final(self).functions == old(self).functions,
    {
        let mut i: usize = 0;
        while i < NATIVE_COUNT
            invariant
                i <= NATIVE_COUNT,
                self.program == old(self).program,
                self.catalog == old(self).catalog,
                self.types@.len() == i,
                self.type_descriptors@.len() == i,
                self.metas@.len() == i,
                self.type_names@.len() == i,
                forall|j: int| 0 <= j < i ==> #[trigger] self.types@[j] == SemanticType::Native(native_at(j)),
                forall|j: int| 0 <= j < i ==> #[trigger] self.metas@[j] is Opaque,
                forall|j: int| 0 <= j < i ==> #[trigger] self.type_names@[j].index == j,
                forall|j: int| 0 <= j < i ==> #[trigger] self.type_descriptors@[j] == SemanticTypeDescriptor::Native(native_at(j)),
                forall|j: int| 0 <= j < i ==> #[trigger] self.type_names@[j].name@ == crate::natives::native_name(native_at(j)),
                self.signatures == old(self).signatures,
                self.signature_names == old(self).signature_names,
                self.function_headers == old(self).function_headers,
                self.function_names == old(self).function_names,
                self.functions == old(self).functions,
                self.shared_types == old(self).shared_types,
                self.shared_signatures == old(self).shared_signatures,
            decreases NATIVE_COUNT - i,
        {
            let nt = native_at_exec(i);
            self.types.push(SemanticType::Native(nt));
            self.type_descriptors.push(SemanticTypeDescriptor::Native(nt));
            self.metas.push(TypeMeta::Opaque);
            bind_name(&mut self.type_names, crate::natives::native_type_name(&nt), i);
            i = i + 1;
        }
    }
}


// --- Catalog materialisation ---

/// How many catalog entries have not been given a place in the tables yet.
pub open spec fn unplaced(s: Seq<Option<usize>>) -> nat
    decreases s.len(),
{
    if s.len() == 0 {
        0
    } else {
        unplaced(s.drop_last()) + if s.last() is None {
            1nat
        } else {
            0nat
        }
    }
}

/// Entries once placed keep their place.
pub open spec fn placements_kept(a: Seq<Option<usize>>, b: Seq<Option<usize>>) -> bool {
    &&& a.len() == b.len()
    &&& forall|i: int| 0 <= i < a.len() && a[i] is Some ==> #[trigger] b[i] == a[i]
}

proof fn lemma_placements_trans(a: Seq<Option<usize>>, b: Seq<Option<usize>>, c: Seq<Option<usize>>)
    requires
        placements_kept(a, b),
        placements_kept(b, c),
    ensures
        placements_kept(a, c),
{
    assert forall|i: int| 0 <= i < a.len() && a[i] is Some implies #[trigger] c[i] == a[i] by {
        assert(b[i] == a[i]);
    }
}

proof fn lemma_unplaced_mono(a: Seq<Option<usize>>, b: Seq<Option<usize>>)
    requires
        placements_kept(a, b),
    ensures
        unplaced(b) <= unplaced(a),
    decreases a.len(),
{
    if a.len() > 0 {
        assert(placements_kept(a.drop_last(), b.drop_last())) by {
            assert forall|i: int| 0 <= i < a.drop_last().len() && a.drop_last()[i] is Some implies #[trigger] b.drop_last()[i] == a.drop_last()[i] by {
                assert(b[i] == a[i]);
            }
        }
        lemma_unplaced_mono(a.drop_last(), b.drop_last());
        if a.last() is Some {
            assert(b[b.len() - 1] == a[a.len() - 1]);
        }
    }
}

proof fn lemma_unplaced_place(a: Seq<Option<usize>>, i: int, v: usize)
    requires
        0 <= i < a.len(),
        a[i] is None,
    ensures
        unplaced(a.update(i, Some(v))) < unplaced(a),
        placements_kept(a, a.update(i, Some(v))),
    decreases a.len(),
{
    let b = a.update(i, Some(v));
    if i == a.len() - 1 {
        assert(b.drop_last() =~= a.drop_last());
    } else {
        assert(b.drop_last() =~= a.drop_last().update(i, Some(v)));
        lemma_unplaced_place(a.drop_last(), i, v);
    }
}

/// The native type that a catalog reference names, for references that
/// name one.
pub open spec fn native_of_ref(r: CatalogTypeRef) -> NativeType {
    match r {
        CatalogTypeRef::Int => NativeType::Int,
        CatalogTypeRef::Float => NativeType::Float,
        CatalogTypeRef::Bool => NativeType::Bool,
        CatalogTypeRef::String => NativeType::String,
        CatalogTypeRef::Dynamic => NativeType::Dynamic,
        CatalogTypeRef::Int8 => NativeType::Int8,
        CatalogTypeRef::Int16 => NativeType::Int16,
        CatalogTypeRef::Int32 => NativeType::Int32,
        CatalogTypeRef::Int64 => NativeType::Int64,
        CatalogTypeRef::Int128 => NativeType::Int128,
        CatalogTypeRef::Uint8 => NativeType::Uint8,
        CatalogTypeRef::Uint16 => NativeType::Uint16,
        CatalogTypeRef::Uint32 => NativeType::Uint32,
        CatalogTypeRef::Uint64 => NativeType::Uint64,
        CatalogTypeRef::Uint128 => NativeType::Uint128,
        CatalogTypeRef::Float32 => NativeType::Float32,
        CatalogTypeRef::Float64 => NativeType::Float64,
        CatalogTypeRef::Shared(_) => NativeType::Dynamic,
    }
}

impl<'a, 'source> Analyzer<'a, 'source> {
    /// `t` is the place of the type that `r` refers to: the native type it
    /// names, or the place given to the shared catalog type.
    pub open spec fn ref_resolves(&self, r: CatalogTypeRef, t: usize) -> bool {
        match r {
            CatalogTypeRef::Shared(sym) => exists|p: int|
                0 <= p < self.catalog.type_keys().len() && p < self.shared_types@.len()
                    && self.catalog.type_keys()[p] == sym.key() && #[trigger] self.shared_types@[p] == Some(t),
            _ => (t as int) < NATIVE_COUNT && native_at(t as int) == native_of_ref(r),
        }
    }

    /// The fields of a table entry follow the catalog's fields one by one:
    /// the same names, and the types they refer to.
    pub open spec fn fields_mirror(
        &self,
        cf: Seq<crate::catalog::CatalogField>,
        sf: Seq<SemanticField>,
        mf: Seq<FieldMeta>,
    ) -> bool {
        &&& sf.len() == cf.len()
        &&& mf.len() == cf.len()
        &&& forall|i: int|
            0 <= i < cf.len() ==> {
                &&& self.ref_resolves(cf[i].type_ref, #[trigger] sf[i].type_id.0)
                &&& mf[i].name@ == cf[i].name@
                &&& mf[i].type_id == sf[i].type_id.0
            }
    }

    /// A variant of a table entry follows the catalog's variant.
    pub open spec fn variant_mirrors(&self, cv: CatalogVariant, sv: SemanticVariant, mv: VariantMeta) -> bool {
        match cv {
            CatalogVariant::Simple { name } => {
                &&& sv is Simple
                &&& mv matches VariantMeta::Simple { name: n } && n@ == name@
            },
            CatalogVariant::Associated { name, type_ref } => {
                &&& sv matches SemanticVariant::Associated { type_id } && self.ref_resolves(type_ref, type_id.0)
                &&& mv matches VariantMeta::Associated { name: n, type_id: m } && n@ == name@ && m == sv->Associated_type_id.0
            },
            CatalogVariant::Structured { name, fields } => {
                &&& sv matches SemanticVariant::Structured { fields: sf }
                &&& mv matches VariantMeta::Structured { name: n, fields: mf } && n@ == name@
                &&& self.fields_mirror(fields@, sv->Structured_fields@, mv->Structured_fields@)
            },
        }
    }

    /// The table entry `id` follows the catalog type `ct`: a struct with its
    /// fields, or an enum with its variants, in order.
    pub open spec fn mirrors_catalog_type(&self, ct: CatalogType, id: int) -> bool {
        match ct {
            CatalogType::Struct { fields } => {
                &&& self.types@[id] matches SemanticType::Struct { fields: sf }
                &&& self.metas@[id] matches TypeMeta::Struct(sm)
                &&& self.fields_mirror(fields@, self.types@[id]->Struct_fields@, self.metas@[id]->Struct_0.fields@)
            },
            CatalogType::Enum { variants } => {
                &&& self.types@[id] matches SemanticType::Enum { variants: sv }
                &&& self.metas@[id] matches TypeMeta::Enum(em)
                &&& self.types@[id]->Enum_variants@.len() == variants@.len()
                &&& self.metas@[id]->Enum_0.variants@.len() == variants@.len()
                &&& forall|v: int|
                    0 <= v < variants@.len() ==> self.variant_mirrors(
                        #[trigger] variants@[v],
                        self.types@[id]->Enum_variants@[v],
                        self.metas@[id]->Enum_0.variants@[v],
                    )
            },
        }
    }

    /// What `ref_resolves` says stays true while placements are kept.
    pub proof fn lemma_ref_resolves_kept(&self, later: &Self, r: CatalogTypeRef, t: usize)
        requires
            self.ref_resolves(r, t),
            later.catalog == self.catalog,
            placements_kept(self.shared_types@, later.shared_types@),
        ensures
            later.ref_resolves(r, t),
    {
        if let CatalogTypeRef::Shared(sym) = r {
            let p = choose|p: int|
                0 <= p < self.catalog.type_keys().len() && p < self.shared_types@.len()
                    && self.catalog.type_keys()[p] == sym.key() && #[trigger] self.shared_types@[p] == Some(t);
            assert(later.shared_types@[p] == Some(t));
        }
    }

    pub proof fn lemma_fields_mirror_kept(
        &self,
        later: &Self,
        cf: Seq<crate::catalog::CatalogField>,
        sf: Seq<SemanticField>,
        mf: Seq<FieldMeta>,
    )
        requires
            self.fields_mirror(cf, sf, mf),
            later.catalog == self.catalog,
            placements_kept(self.shared_types@, later.shared_types@),
        ensures
            later.fields_mirror(cf, sf, mf),
    {
        assert forall|i: int| 0 <= i < cf.len() implies later.ref_resolves(cf[i].type_ref, #[trigger] sf[i].type_id.0) by {
            self.lemma_ref_resolves_kept(later, cf[i].type_ref, sf[i].type_id.0);
        }
    }

    /// `d` is the place given to the catalog signature `sym`.
    pub open spec fn signature_ref_resolves(&self, sym: SignatureSymbol, d: usize) -> bool {
        exists|p: int|
            0 <= p < self.catalog.signature_keys().len() && p < self.shared_signatures@.len()
                && self.catalog.signature_keys()[p] == sym.key() && #[trigger] self.shared_signatures@[p] == Some(d)
    }

    /// A parameter of a table signature follows the catalog's parameter.
    pub open spec fn parameter_mirrors(&self, cp: CatalogSignatureParameter, sp: SemanticSignatureParameter) -> bool {
        match (cp, sp) {
            (CatalogSignatureParameter::Value(r), SemanticSignatureParameter::Value(t)) => self.ref_resolves(r, t.0),
            (
                CatalogSignatureParameter::SignatureDependency(sym),
                SemanticSignatureParameter::SignatureDependency(d),
            ) => self.signature_ref_resolves(sym, d.0),
            _ => false,
        }
    }

    /// The table signature `id` follows the catalog signature `cs`: its
    /// parameters one by one, and its result.
    pub open spec fn mirrors_catalog_signature(&self, cs: crate::catalog::CatalogSignature, id: int) -> bool {
        &&& self.signatures@[id].parameters@.len() == cs.parameters@.len()
        &&& forall|i: int|
            0 <= i < cs.parameters@.len() ==> self.parameter_mirrors(
                #[trigger] cs.parameters@[i],
                self.signatures@[id].parameters@[i],
            )
        &&& self.ref_resolves(cs.result_type, self.signatures@[id].result_type.0)
    }

    pub proof fn lemma_parameter_mirrors_kept(
        &self,
        later: &Self,
        cp: CatalogSignatureParameter,
        sp: SemanticSignatureParameter,
    )
        requires
            self.parameter_mirrors(cp, sp),
            later.catalog == self.catalog,
            placements_kept(self.shared_types@, later.shared_types@),
            placements_kept(self.shared_signatures@, later.shared_signatures@),
        ensures
            later.parameter_mirrors(cp, sp),
    {
        match (cp, sp) {
            (CatalogSignatureParameter::Value(r), SemanticSignatureParameter::Value(t)) => {
                self.lemma_ref_resolves_kept(later, r, t.0);
            },
            (
                CatalogSignatureParameter::SignatureDependency(sym),
                SemanticSignatureParameter::SignatureDependency(d),
            ) => {
                let p = choose|p: int|
                    0 <= p < self.catalog.signature_keys().len() && p < self.shared_signatures@.len()
                        && self.catalog.signature_keys()[p] == sym.key() && #[trigger] self.shared_signatures@[p]
                        == Some(d.0);
                assert(later.shared_signatures@[p] == Some(d.0));
            },
            _ => {},
        }
    }

    pub proof fn lemma_variant_mirrors_kept(&self, later: &Self, cv: CatalogVariant, sv: SemanticVariant, mv: VariantMeta)
        requires
            self.variant_mirrors(cv, sv, mv),
            later.catalog == self.catalog,
            placements_kept(self.shared_types@, later.shared_types@),
        ensures
            later.variant_mirrors(cv, sv, mv),
    {
        match cv {
            CatalogVariant::Associated { type_ref, .. } => {
                self.lemma_ref_resolves_kept(later, type_ref, sv->Associated_type_id.0);
            },
            CatalogVariant::Structured { fields, .. } => {
                self.lemma_fields_mirror_kept(later, fields@, sv->Structured_fields@, mv->Structured_fields@);
            },
            _ => {},
        }
    }
}

impl<'a, 'source> Analyzer<'a, 'source> {
    /// The tables that materialisation of catalog types leaves alone.
    pub open spec fn same_except_types(&self, other: &Self) -> bool {
        &&& self.program == other.program
        &&& self.catalog == other.catalog
        &&& self.type_names == other.type_names
        &&& self.signatures == other.signatures
        &&& self.shared_signatures == other.shared_signatures
        &&& self.signature_names == other.signature_names
        &&& self.functions == other.functions
        &&& self.function_headers == other.function_headers
        &&& self.function_names == other.function_names
    }

    /// Types are only ever added: those that exist keep their entries' count and
    /// the native types stay in place.
    pub open spec fn types_grown(&self, other: &Self) -> bool {
        &&& other.types@.len() <= self.types@.len()
        &&& forall|i: int| 0 <= i < other.types@.len() ==> #[trigger] self.types@[i] == other.types@[i]
        &&& forall|i: int| 0 <= i < other.types@.len() ==> #[trigger] self.metas@[i] == other.metas@[i]
        &&& forall|i: int| 0 <= i < other.types@.len() ==> #[trigger] self.type_descriptors@[i] == other.type_descriptors@[i]
        &&& placements_kept(other.shared_types@, self.shared_types@)
    }

    /// The position of the native type or shared catalog type `type_ref`,
    /// materialising the latter if this is its first use.
    fn resolve_catalog_type_ref(&mut self, type_ref: &CatalogTypeRef) -> (r: usize)
        requires
            old(self).wf(),
            catalog_closed(old(self).catalog),
            ref_known(old(self).catalog, *type_ref),
        ensures
            final(self).wf(),
            (r as int) < final(self).types@.len(),
            final(self).same_except_types(old(self)),
            final(self).types_grown(old(self)),
            final(self).ref_resolves(*type_ref, r),
        decreases unplaced(old(self).shared_types@), 2nat,
    {
        match type_ref {
            CatalogTypeRef::Int => native_type_id(NativeType::Int),
            CatalogTypeRef::Float => native_type_id(NativeType::Float),
            CatalogTypeRef::Bool => native_type_id(NativeType::Bool),
            CatalogTypeRef::String => native_type_id(NativeType::String),
            CatalogTypeRef::Dynamic => native_type_id(NativeType::Dynamic),
            CatalogTypeRef::Int8 => native_type_id(NativeType::Int8),
            CatalogTypeRef::Int16 => native_type_id(NativeType::Int16),
            CatalogTypeRef::Int32 => native_type_id(NativeType::Int32),
            CatalogTypeRef::Int64 => native_type_id(NativeType::Int64),
            CatalogTypeRef::Int128 => native_type_id(NativeType::Int128),
            CatalogTypeRef::Uint8 => native_type_id(NativeType::Uint8),
            CatalogTypeRef::Uint16 => native_type_id(NativeType::Uint16),
            CatalogTypeRef::Uint32 => native_type_id(NativeType::Uint32),
            CatalogTypeRef::Uint64 => native_type_id(NativeType::Uint64),
            CatalogTypeRef::Uint128 => native_type_id(NativeType::Uint128),
            CatalogTypeRef::Float32 => native_type_id(NativeType::Float32),
            CatalogTypeRef::Float64 => native_type_id(NativeType::Float64),
            CatalogTypeRef::Shared(sym) => {
                let pos = match self.catalog.find_type(sym.module.as_str(), sym.name.as_str()) {
                    Some(p) => p,
                    None => {
                        proof {
                            assert(self.catalog.has_type(sym.key()));
                        }
                        return 0;  // unreachable: the catalog is closed
                    },
                };
                let r = self.materialize_catalog_type(pos);
                assert(self.shared_types@[pos as int] == Some(r));
                r
            },
        }
    }

    /// The position of the catalog type at catalog position `pos`; on first use
    /// the type is given a place and its members are resolved.
    fn materialize_catalog_type(&mut self, pos: usize) -> (r: usize)
        requires
            old(self).wf(),
            catalog_closed(old(self).catalog),
            pos < old(self).catalog.type_keys().len(),
        ensures
            final(self).wf(),
            (r as int) < final(self).types@.len(),
            final(self).shared_types@[pos as int] == Some(r),
            final(self).same_except_types(old(self)),
            final(self).types_grown(old(self)),
            old(self).shared_types@[pos as int] is None ==> {
                &&& final(self).mirrors_catalog_type(*old(self).catalog.type_at(pos as int), r as int)
                &&& final(self).type_descriptors@[r as int] matches SemanticTypeDescriptor::Shared(sym)
                &&& sym.key() == old(self).catalog.type_keys()[pos as int]
            },
            old(self).shared_types@[pos as int] is Some ==> *final(self) == *old(self),
            final(self).types@.len() == old(self).types@.len() <==> old(self).shared_types@[pos as int] is Some,
        decreases unplaced(old(self).shared_types@), 1nat,
    {
        if let Some(id) = self.shared_types[pos] {
            return id;
        }
        let ghost entry = *self;
        let id = self.types.len();
        let symbol = self.catalog.type_symbol(pos);
        let cat_type = self.catalog.type_entry(pos);
        proof {
            lemma_unplaced_place(self.shared_types@, pos as int, id);
            assert(catalog_type_known(self.catalog, *cat_type));
        }
        self.shared_types.set(pos, Some(id));
        let descriptor = SemanticTypeDescriptor::Shared(
            TypeSymbol { module: symbol.module.clone(), name: symbol.name.clone() },
        );
        let ghost desc = descriptor;
        match cat_type {
            CatalogType::Struct { fields } => {
                self.types.push(SemanticType::Struct { fields: Vec::new() });
                self.type_descriptors.push(descriptor);
                self.metas.push(TypeMeta::Opaque);
                proof {
                    self.lemma_grown_wf(&entry, pos as int);
                }
                let (sem_fields, metas) = self.resolve_catalog_fields(fields);
                let ghost before = *self;
                let ghost sf = sem_fields@;
                let ghost mf = metas@;
                self.types.set(id, SemanticType::Struct { fields: sem_fields });
                self.metas.set(id, TypeMeta::Struct(StructMeta { fields: metas }));
                proof {
                    self.lemma_set_wf(&before, id as int);
                    before.lemma_fields_mirror_kept(self, fields@, sf, mf);
                    assert(self.types@[id as int] == SemanticType::Struct { fields: sem_fields });
                    assert(self.mirrors_catalog_type(*cat_type, id as int));
                    assert(self.type_descriptors@[id as int] == desc);
                }
            },
            CatalogType::Enum { variants } => {
                self.types.push(SemanticType::Enum { variants: Vec::new() });
                self.type_descriptors.push(descriptor);
                self.metas.push(TypeMeta::Opaque);
                proof {
                    self.lemma_grown_wf(&entry, pos as int);
                }
                let mut sem_variants: Vec<SemanticVariant> = Vec::new();
                let mut variant_metas: Vec<VariantMeta> = Vec::new();
                let mut v: usize = 0;
                while v < variants.len()
                    invariant
                        self.wf(),
                        catalog_closed(self.catalog),
                        self.same_except_types(&entry),
                        self.types_grown(&entry),
                        (id as int) < self.types@.len(),
                        pos < self.catalog.type_keys().len(),
                        self.shared_types@[pos as int] == Some(id),
                        unplaced(self.shared_types@) < unplaced(old(self).shared_types@),
                        v <= variants@.len(),
                        forall|i: int| 0 <= i < variants@.len() ==> catalog_variant_known(self.catalog, #[trigger] variants@[i]),
                        sem_variants@.len() == variant_metas@.len(),
                        variant_metas@.len() == v,
                        forall|i: int| 0 <= i < sem_variants@.len() ==> variant_below(#[trigger] sem_variants@[i], self.types@.len()),
                        forall|i: int| 0 <= i < variant_metas@.len() ==> variant_meta_below(#[trigger] variant_metas@[i], self.types@.len()),
                        forall|i: int| 0 <= i < v ==> self.variant_mirrors(#[trigger] variants@[i], sem_variants@[i], variant_metas@[i]),
                        self.type_descriptors@[id as int] == desc,
                    decreases variants@.len() - v,
                {
                    proof {
                        assert(catalog_variant_known(self.catalog, variants@[v as int]));
                    }
                    let ghost before_n = self.types@.len();
                    let ghost before_step = *self;
                    let ghost sv_before = sem_variants@;
                    let ghost mv_before = variant_metas@;
                    match &variants[v] {
                        CatalogVariant::Simple { name } => {
                            sem_variants.push(SemanticVariant::Simple);
                            variant_metas.push(VariantMeta::Simple { name: name.clone() });
                        },
                        CatalogVariant::Associated { name, type_ref } => {
                            let ghost before_call = *self;
                            let t = self.resolve_catalog_type_ref(type_ref);
                            proof {
                                lemma_unplaced_mono(before_call.shared_types@, self.shared_types@);
                            }
                            sem_variants.push(SemanticVariant::Associated { type_id: TypeId(t) });
                            variant_metas.push(VariantMeta::Associated { name: name.clone(), type_id: t });
                        },
                        CatalogVariant::Structured { name, fields } => {
                            let ghost before_call = *self;
                            let (sem_fields, metas) = self.resolve_catalog_fields(fields);
                            proof {
                                lemma_unplaced_mono(before_call.shared_types@, self.shared_types@);
                            }
                            sem_variants.push(SemanticVariant::Structured { fields: sem_fields });
                            variant_metas.push(VariantMeta::Structured { name: name.clone(), fields: metas });
                        },
                    }
                    proof {
                        assert forall|i: int| 0 <= i < v + 1 implies self.variant_mirrors(
                            #[trigger] variants@[i],
                            sem_variants@[i],
                            variant_metas@[i],
                        ) by {
                            if i < v {
                                assert(sem_variants@[i] == sv_before[i]);
                                assert(variant_metas@[i] == mv_before[i]);
                                before_step.lemma_variant_mirrors_kept(self, variants@[i], sv_before[i], mv_before[i]);
                            }
                        }
                        assert forall|i: int| 0 <= i < sem_variants@.len() implies variant_below(#[trigger] sem_variants@[i], self.types@.len()) by {
                            if i < sem_variants@.len() - 1 {
                                lemma_variant_below_grow(sem_variants@[i], before_n, self.types@.len());
                            }
                        }
                        assert forall|i: int| 0 <= i < variant_metas@.len() implies variant_meta_below(#[trigger] variant_metas@[i], self.types@.len()) by {
                            if i < variant_metas@.len() - 1 {
                                lemma_variant_meta_below_grow(variant_metas@[i], before_n, self.types@.len());
                            }
                        }
                    }
                    v = v + 1;
                }
                let ghost before = *self;
                let ghost sv = sem_variants@;
                let ghost mv = variant_metas@;
                self.types.set(id, SemanticType::Enum { variants: sem_variants });
                self.metas.set(id, TypeMeta::Enum(EnumMeta { variants: variant_metas }));
                proof {
                    self.lemma_set_wf(&before, id as int);
                    assert forall|i: int| 0 <= i < variants@.len() implies self.variant_mirrors(
                        #[trigger] variants@[i],
                        sv[i],
                        mv[i],
                    ) by {
                        before.lemma_variant_mirrors_kept(self, variants@[i], sv[i], mv[i]);
                    }
                    assert(self.mirrors_catalog_type(*cat_type, id as int));
                    assert(self.type_descriptors@[id as int] == desc);
                }
            },
        }
        proof {
            lemma_unplaced_mono(entry.shared_types@, self.shared_types@);
        }
        id
    }

    /// Resolves the types of catalog fields, in order.
    fn resolve_catalog_fields(
        &mut self,
        fields: &Vec<crate::catalog::CatalogField>,
    ) -> (r: (Vec<SemanticField>, Vec<FieldMeta>))
        requires
            old(self).wf(),
            catalog_closed(old(self).catalog),
            catalog_fields_known(old(self).catalog, fields@),
        ensures
            final(self).wf(),
            final(self).same_except_types(old(self)),
            final(self).types_grown(old(self)),
            fields_below(r.0@, final(self).types@.len()),
            field_metas_below(r.1@, final(self).types@.len()),
            r.0@.len() == fields@.len(),
            r.1@.len() == fields@.len(),
            final(self).fields_mirror(fields@, r.0@, r.1@),
        decreases unplaced(old(self).shared_types@), 3nat,
    {
        let ghost entry = *self;
        let mut sem_fields: Vec<SemanticField> = Vec::new();
        let mut metas: Vec<FieldMeta> = Vec::new();
        let mut f: usize = 0;
        while f < fields.len()
            invariant
                self.wf(),
                catalog_closed(self.catalog),
                catalog_fields_known(self.catalog, fields@),
                self.same_except_types(&entry),
                self.types_grown(&entry),
                unplaced(self.shared_types@) <= unplaced(old(self).shared_types@),
                f <= fields@.len(),
                sem_fields@.len() == f,
                metas@.len() == f,
                fields_below(sem_fields@, self.types@.len()),
                field_metas_below(metas@, self.types@.len()),
                self.fields_mirror(fields@.take(f as int), sem_fields@, metas@),
            decreases fields@.len() - f,
        {
            let ghost before = *self;
            let t = self.resolve_catalog_type_ref(&fields[f].type_ref);
            proof {
                lemma_unplaced_mono(before.shared_types@, self.shared_types@);
                before.lemma_fields_mirror_kept(self, fields@.take(f as int), sem_fields@, metas@);
            }
            let ghost sem_before = sem_fields@;
            let ghost metas_before = metas@;
            sem_fields.push(SemanticField { type_id: TypeId(t) });
            metas.push(FieldMeta { name: fields[f].name.clone(), type_id: t });
            proof {
                assert forall|i: int| 0 <= i < f + 1 implies {
                    &&& self.ref_resolves(fields@.take(f + 1)[i].type_ref, #[trigger] sem_fields@[i].type_id.0)
                    &&& metas@[i].name@ == fields@.take(f + 1)[i].name@
                    &&& metas@[i].type_id == sem_fields@[i].type_id.0
                } by {
                    if i < f {
                        assert(sem_fields@[i] == sem_before[i]);
                        assert(metas@[i] == metas_before[i]);
                        assert(fields@.take(f + 1)[i] == fields@.take(f as int)[i]);
                    }
                }
            }
            f = f + 1;
        }
        assert(fields@.take(f as int) =~= fields@);
        (sem_fields, metas)
    }
}

impl<'a, 'source> Analyzer<'a, 'source> {
    /// The tables that materialisation of catalog entries leaves alone.
    pub open spec fn same_except_shared(&self, other: &Self) -> bool {
        &&& self.program == other.program
        &&& self.catalog == other.catalog
        &&& self.type_names == other.type_names
        &&& self.signature_names == other.signature_names
        &&& self.functions == other.functions
        &&& self.function_headers == other.function_headers
        &&& self.function_names == other.function_names
    }

    /// Types and signatures are only ever added, and catalog entries keep the
    /// places they were given.
    pub open spec fn tables_grown(&self, other: &Self) -> bool {
        &&& self.types_grown(other)
        &&& other.signatures@.len() <= self.signatures@.len()
        &&& forall|i: int| 0 <= i < other.signatures@.len() ==> #[trigger] self.signatures@[i] == other.signatures@[i]
        &&& placements_kept(other.shared_signatures@, self.shared_signatures@)
    }

    /// The position of the catalog signature at catalog position `pos`; on
    /// first use it is given a place and its parameters and result resolved,
    /// the signatures it depends on included.
    fn materialize_catalog_signature(&mut self, pos: usize) -> (r: usize)
        requires
            old(self).wf(),
            catalog_closed(old(self).catalog),
            pos < old(self).catalog.signature_keys().len(),
        ensures
            final(self).wf(),
            (r as int) < final(self).signatures@.len(),
            final(self).shared_signatures@[pos as int] == Some(r),
            final(self).same_except_shared(old(self)),
            final(self).tables_grown(old(self)),
            old(self).shared_signatures@[pos as int] is None ==> final(self).mirrors_catalog_signature(
                *old(self).catalog.signature_at(pos as int),
                r as int,
            ),
            old(self).shared_signatures@[pos as int] is Some ==> *final(self) == *old(self),
        decreases unplaced(old(self).shared_signatures@),
    {
        if let Some(id) = self.shared_signatures[pos] {
            return id;
        }
        let ghost entry = *self;
        let id = self.signatures.len();
        let catalog = self.catalog;
        let symbol = catalog.signature_symbol(pos);
        let cat_sig = catalog.signature_entry(pos);
        proof {
            lemma_unplaced_place(self.shared_signatures@, pos as int, id);
            assert(catalog_signature_known(self.catalog, *cat_sig));
        }
        self.shared_signatures.set(pos, Some(id));
        self.signatures.push(
            SemanticSignature {
                symbol: SignatureSymbol { module: symbol.module.clone(), name: symbol.name.clone() },
                parameters: Vec::new(),
                result_type: TypeId(0),
            },
        );
        proof {
            self.lemma_signature_grown_wf(&entry, pos as int);
        }
        let mut parameters: Vec<SemanticSignatureParameter> = Vec::new();
        let mut k: usize = 0;
        while k < cat_sig.parameters.len()
            invariant
                self.wf(),
                catalog_closed(self.catalog),
                self.catalog == catalog,
                catalog_signature_known(catalog, *cat_sig),
                self.same_except_shared(&entry),
                self.tables_grown(&entry),
                (id as int) < self.signatures@.len(),
                pos < catalog.signature_keys().len(),
                self.shared_signatures@[pos as int] == Some(id),
                unplaced(self.shared_signatures@) < unplaced(old(self).shared_signatures@),
                k <= cat_sig.parameters@.len(),
                forall|i: int|
                    0 <= i < parameters@.len() ==> match #[trigger] parameters@[i] {
                        SemanticSignatureParameter::Value(t) => (t.0 as int) < self.types@.len(),
                        SemanticSignatureParameter::SignatureDependency(d) => (d.0 as int) < self.signatures@.len(),
                    },
                parameters@.len() == k,
                forall|i: int| 0 <= i < k ==> self.parameter_mirrors(#[trigger] cat_sig.parameters@[i], parameters@[i]),
            decreases cat_sig.parameters@.len() - k,
        {
            let ghost before = *self;
            let ghost params_before = parameters@;
            match &cat_sig.parameters[k] {
                CatalogSignatureParameter::Value(type_ref) => {
                    let t = self.resolve_catalog_type_ref(type_ref);
                    parameters.push(SemanticSignatureParameter::Value(TypeId(t)));
                },
                CatalogSignatureParameter::SignatureDependency(dep) => {
                    let dep_pos = match catalog.find_signature(dep.module.as_str(), dep.name.as_str()) {
                        Some(p) => p,
                        None => {
                            proof {
                                assert(catalog.has_signature(dep.key()));
                            }
                            return 0;  // unreachable: the catalog is closed
                        },
                    };
                    let d = self.materialize_catalog_signature(dep_pos);
                    proof {
                        lemma_unplaced_mono(before.shared_signatures@, self.shared_signatures@);
                        assert(self.shared_signatures@[dep_pos as int] == Some(d));
                        assert(self.signature_ref_resolves(*dep, d));
                    }
                    parameters.push(SemanticSignatureParameter::SignatureDependency(SignatureId(d)));
                },
            }
            proof {
                assert forall|i: int| 0 <= i < k + 1 implies self.parameter_mirrors(
                    #[trigger] cat_sig.parameters@[i],
                    parameters@[i],
                ) by {
                    if i < k {
                        assert(parameters@[i] == params_before[i]);
                        before.lemma_parameter_mirrors_kept(self, cat_sig.parameters@[i], params_before[i]);
                    }
                }
                assert forall|i: int| 0 <= i < parameters@.len() implies match #[trigger] parameters@[i] {
                    SemanticSignatureParameter::Value(t) => (t.0 as int) < self.types@.len(),
                    SemanticSignatureParameter::SignatureDependency(d) => (d.0 as int) < self.signatures@.len(),
                } by {
                    if i < parameters@.len() - 1 {
                        assert(before.types@.len() <= self.types@.len());
                    }
                }
            }
            k = k + 1;
        }
        let ghost before_result = *self;
        let result = self.resolve_catalog_type_ref(&cat_sig.result_type);
        proof {
            assert forall|i: int| 0 <= i < k implies self.parameter_mirrors(
                #[trigger] cat_sig.parameters@[i],
                parameters@[i],
            ) by {
                before_result.lemma_parameter_mirrors_kept(self, cat_sig.parameters@[i], parameters@[i]);
            }
        }
        let ghost before = *self;
        let ghost params = parameters@;
        self.signatures.set(
            id,
            SemanticSignature {
                symbol: SignatureSymbol { module: symbol.module.clone(), name: symbol.name.clone() },
                parameters,
                result_type: TypeId(result),
            },
        );
        proof {
            assert forall|i: int| 0 <= i < self.signatures@.len() implies signature_below(#[trigger] self.signatures@[i], self.types@.len(), self.signatures@.len()) by {
                if i != id {
                    assert(self.signatures@[i] == before.signatures@[i]);
                }
            }
            assert forall|p: int|
                0 <= p < self.shared_signatures@.len() && #[trigger] self.shared_signatures@[p] is Some
                    implies self.signatures@[self.shared_signatures@[p].unwrap() as int].symbol.key() == self.catalog.signature_keys()[p] by {
                if self.shared_signatures@[p].unwrap() != id {
                    assert(before.shared_signatures@[p] is Some);
                }
            }
            lemma_unplaced_mono(entry.shared_signatures@, self.shared_signatures@);
            assert(self.signatures@[id as int].parameters@ == params);
            assert forall|i: int| 0 <= i < cat_sig.parameters@.len() implies self.parameter_mirrors(
                #[trigger] cat_sig.parameters@[i],
                self.signatures@[id as int].parameters@[i],
            ) by {
                before.lemma_parameter_mirrors_kept(self, cat_sig.parameters@[i], params[i]);
            }
            before.lemma_ref_resolves_kept(self, cat_sig.result_type, result);
        }
        id
    }

    /// A placeholder signature appended for the catalog signature at `pos`
    /// keeps the tables consistent.
    proof fn lemma_signature_grown_wf(&self, entry: &Self, pos: int)
        requires
            entry.wf(),
            0 <= pos < entry.shared_signatures@.len(),
            self.signatures@.len() == entry.signatures@.len() + 1,
            forall|i: int| 0 <= i < entry.signatures@.len() ==> #[trigger] self.signatures@[i] == entry.signatures@[i],
            self.signatures@.last().parameters@.len() == 0,
            self.signatures@.last().result_type.0 == 0,
            self.signatures@.last().symbol.key() == entry.catalog.signature_keys()[pos],
            entry.signatures@.len() <= usize::MAX,
            self.shared_signatures@ == entry.shared_signatures@.update(pos, Some(entry.signatures@.len() as usize)),
            self.types == entry.types,
            self.type_descriptors == entry.type_descriptors,
            self.metas == entry.metas,
            self.shared_types == entry.shared_types,
            self.same_except_shared(entry),
        ensures
            self.wf(),
    {
        let nt = self.types@.len();
        let n = entry.signatures@.len();
        let m = self.signatures@.len();
        assert forall|i: int| 0 <= i < m implies signature_below(#[trigger] self.signatures@[i], nt, m) by {
            if i < n {
                lemma_signature_below_grow(entry.signatures@[i], nt, nt, n, m);
            }
        }
        assert forall|i: int| 0 <= i < self.function_headers@.len() implies header_below(#[trigger] self.function_headers@[i], nt, m) by {
            lemma_header_below_grow(entry.function_headers@[i], nt, nt, n, m);
        }
        assert forall|i: int, j: int|
            0 <= i < self.signature_names@.len() && 0 <= j < self.signature_names@[i].ids@.len()
                implies (#[trigger] self.signature_names@[i].ids@[j] as int) < m by {
            assert(entry.signature_names@[i].ids@[j] < n);
        }
        assert(signature_ids_below(self.signature_names@, m));
        assert forall|p: int|
            0 <= p < self.shared_signatures@.len() && #[trigger] self.shared_signatures@[p] is Some
                implies self.signatures@[self.shared_signatures@[p].unwrap() as int].symbol.key() == self.catalog.signature_keys()[p] by {
            if p != pos {
                assert(self.shared_signatures@[p] == entry.shared_signatures@[p]);
                let q = entry.shared_signatures@[p].unwrap() as int;
                assert(q < n);
                assert(self.signatures@[q] == entry.signatures@[q]);
                assert(entry.signatures@[q].symbol.key() == entry.catalog.signature_keys()[p]);
            } else {
                assert(self.shared_signatures@[p].unwrap() as int == n);
                assert(self.signatures@[n as int] == self.signatures@.last());
            }
        }
    }
}

// --- Imports ---

/// The catalog key that an import names.
pub open spec fn import_key(imp: ImportDeclaration) -> (Seq<char>, Seq<char>) {
    (imp.symbol.qualifier.lexeme@, imp.symbol.name.lexeme@)
}

/// The catalog has a type or a signature under the imported symbol.
pub open spec fn import_resolvable(c: &CompilationCatalog, imp: ImportDeclaration) -> bool {
    c.has_type(import_key(imp)) || c.has_signature(import_key(imp))
}

/// An alias follows the naming rule of what it names: Pascal case for a type,
/// snake case for a signature.
pub open spec fn import_alias_valid(c: &CompilationCatalog, imp: ImportDeclaration) -> bool {
    match imp.alias {
        Some(a) => {
            &&& c.has_type(import_key(imp)) ==> pascal_case(a.lexeme@)
            &&& c.has_signature(import_key(imp)) ==> snake_case(a.lexeme@)
        },
        None => true,
    }
}

pub open spec fn signature_ids_below(t: Seq<NamedSignatures>, n: nat) -> bool {
    forall|i: int, j: int|
        0 <= i < t.len() && 0 <= j < t[i].ids@.len() ==> (#[trigger] t[i].ids@[j] as int) < n
}

/// The imported signatures known under `name`: those of the first entry of
/// `t` that carries the name, or none.
pub open spec fn direct_signature_ids(t: Seq<NamedSignatures>, name: Seq<char>) -> Seq<
    usize,
>
    decreases t.len(),
{
    if t.len() == 0 {
        Seq::empty()
    } else if t[0].name@ == name {
        t[0].ids@
    } else {
        direct_signature_ids(t.drop_first(), name)
    }
}

proof fn lemma_direct_first(t: Seq<NamedSignatures>, i: int, name: Seq<char>)
    requires
        0 <= i < t.len(),
        t[i].name@ == name,
        forall|j: int| 0 <= j < i ==> (#[trigger] t[j]).name@ != name,
    ensures
        direct_signature_ids(t, name) == t[i].ids@,
    decreases i,
{
    if i > 0 {
        assert forall|j: int| 0 <= j < i - 1 implies (#[trigger] t.drop_first()[j]).name@ != name by {
            assert(t.drop_first()[j] == t[j + 1]);
        }
        lemma_direct_first(t.drop_first(), i - 1, name);
    }
}

proof fn lemma_direct_absent(t: Seq<NamedSignatures>, name: Seq<char>)
    requires
        forall|j: int| 0 <= j < t.len() ==> (#[trigger] t[j]).name@ != name,
    ensures
        direct_signature_ids(t, name) == Seq::<usize>::empty(),
    decreases t.len(),
{
    if t.len() > 0 {
        assert forall|j: int| 0 <= j < t.drop_first().len() implies (#[trigger] t.drop_first()[j]).name@ != name by {
            assert(t.drop_first()[j] == t[j + 1]);
        }
        lemma_direct_absent(t.drop_first(), name);
    }
}

/// Replacing an entry by one of the same name leaves the other names alone.
proof fn lemma_direct_update_other(t: Seq<NamedSignatures>, i: int, e: NamedSignatures, n: Seq<char>)
    requires
        0 <= i < t.len(),
        t[i].name@ == e.name@,
        t[i].name@ != n,
    ensures
        direct_signature_ids(t.update(i, e), n) == direct_signature_ids(t, n),
    decreases t.len(),
{
    if i > 0 {
        assert(t.update(i, e).drop_first() =~= t.drop_first().update(i - 1, e));
        lemma_direct_update_other(t.drop_first(), i - 1, e, n);
    } else {
        assert(t.update(i, e).drop_first() =~= t.drop_first());
    }
}

/// Appending an entry leaves the names already present alone, and gives an
/// absent name the new entry's ids when it carries that name.
proof fn lemma_direct_push(t: Seq<NamedSignatures>, e: NamedSignatures, n: Seq<char>)
    ensures
        direct_signature_ids(t, n).len() > 0 ==> direct_signature_ids(t.push(e), n) == direct_signature_ids(t, n),
        (forall|j: int| 0 <= j < t.len() ==> (#[trigger] t[j]).name@ != n) ==> direct_signature_ids(t.push(e), n) == (
        if e.name@ == n {
            e.ids@
        } else {
            Seq::<usize>::empty()
        }),
        (exists|j: int| 0 <= j < t.len() && (#[trigger] t[j]).name@ == n) ==> direct_signature_ids(t.push(e), n)
            == direct_signature_ids(t, n),
    decreases t.len(),
{
    if t.len() == 0 {
        assert(t.push(e).drop_first() =~= Seq::<NamedSignatures>::empty());
        assert(t.push(e)[0] == e);
        assert(direct_signature_ids(Seq::<NamedSignatures>::empty(), n) == Seq::<usize>::empty());
    } else {
        assert(t.push(e).drop_first() =~= t.drop_first().push(e));
        assert(t.push(e)[0] == t[0]);
        lemma_direct_push(t.drop_first(), e, n);
        if forall|j: int| 0 <= j < t.len() ==> (#[trigger] t[j]).name@ != n {
            assert forall|j: int| 0 <= j < t.drop_first().len() implies (#[trigger] t.drop_first()[j]).name@ != n by {
                assert(t.drop_first()[j] == t[j + 1]);
            }
        }
        if exists|j: int| 0 <= j < t.len() && (#[trigger] t[j]).name@ == n {
            if t[0].name@ != n {
                let j = choose|j: int| 0 <= j < t.len() && (#[trigger] t[j]).name@ == n;
                assert(t.drop_first()[j - 1] == t[j]);
            }
        }
    }
}

/// Adds `id` to the signatures known under `name`, unless it is there already.
fn add_signature_name(t: &mut Vec<NamedSignatures>, name: &str, id: usize)
    ensures
        forall|n: nat| signature_ids_below(old(t)@, n) && (id as int) < n ==> signature_ids_below(final(t)@, n),
        direct_signature_ids(final(t)@, name@).contains(id),
        forall|x: usize| direct_signature_ids(old(t)@, name@).contains(x) ==> direct_signature_ids(final(t)@, name@).contains(x),
        forall|n: Seq<char>| n != name@ ==> #[trigger] direct_signature_ids(final(t)@, n) == direct_signature_ids(old(t)@, n),
{
    let mut i: usize = 0;
    while i < t.len()
        invariant
            t@ == old(t)@,
            i <= t@.len(),
            forall|j: int| 0 <= j < i ==> (#[trigger] t@[j]).name@ != name@,
        decreases t@.len() - i,
    {
        if same_text(t[i].name.as_str(), name) {
            proof {
                lemma_direct_first(t@, i as int, name@);
            }
            let mut k: usize = 0;
            while k < t[i].ids.len()
                invariant
                    t@ == old(t)@,
                    i < t@.len(),
                    k <= t@[i as int].ids@.len(),
                    direct_signature_ids(t@, name@) == t@[i as int].ids@,
                    t@[i as int].name@ == name@,
                    forall|j: int| 0 <= j < i ==> (#[trigger] t@[j]).name@ != name@,
                decreases t@[i as int].ids@.len() - k,
            {
                if t[i].ids[k] == id {
                    proof {
                        assert(direct_signature_ids(t@, name@)[k as int] == id);
                    }
                    return;
                }
                k = k + 1;
            }
            let ghost before = t@;
            let mut entry = t.remove(i);
            entry.ids.push(id);
            let ghost e = entry;
            t.insert(i, entry);
            proof {
                assert(t@ =~= before.update(i as int, e));
                lemma_direct_first(t@, i as int, name@);
                assert(e.ids@ == before[i as int].ids@.push(id));
                assert(direct_signature_ids(t@, name@)[e.ids@.len() - 1] == id);
                assert forall|x: usize| direct_signature_ids(before, name@).contains(x) implies direct_signature_ids(
                    t@,
                    name@,
                ).contains(x) by {
                    let j = choose|j: int| 0 <= j < before[i as int].ids@.len() && before[i as int].ids@[j] == x;
                    assert(e.ids@[j] == x);
                }
                assert forall|n: Seq<char>| n != name@ implies #[trigger] direct_signature_ids(t@, n)
                    == direct_signature_ids(before, n) by {
                    lemma_direct_update_other(before, i as int, e, n);
                }
            }
            proof {
                assert forall|n: nat| signature_ids_below(old(t)@, n) && (id as int) < n implies signature_ids_below(t@, n) by {
                    assert forall|a: int, b: int| 0 <= a < t@.len() && 0 <= b < t@[a].ids@.len() implies (#[trigger] t@[a].ids@[b] as int) < n by {
                        if a != i {
                            assert(t@[a] == old(t)@[a]);
                        } else if b < old(t)@[a].ids@.len() {
                            assert(t@[a].ids@[b] == old(t)@[a].ids@[b]);
                        }
                    }
                }
            }
            return;
        }
        i = i + 1;
    }
    let mut ids: Vec<usize> = Vec::new();
    ids.push(id);
    let ghost before = t@;
    t.push(NamedSignatures { name: name.to_owned(), ids });
    proof {
        let e = t@.last();
        assert(t@ == before.push(e));
        lemma_direct_push(before, e, name@);
        lemma_direct_absent(before, name@);
        assert(e.ids@[0] == id);
        assert forall|n: Seq<char>| n != name@ implies #[trigger] direct_signature_ids(t@, n)
            == direct_signature_ids(before, n) by {
            lemma_direct_push(before, e, n);
            if !(exists|j: int| 0 <= j < before.len() && (#[trigger] before[j]).name@ == n) {
                lemma_direct_absent(before, n);
            }
        }
    }
    proof {
        assert forall|n: nat| signature_ids_below(old(t)@, n) && (id as int) < n implies signature_ids_below(t@, n) by {
            assert forall|a: int, b: int| 0 <= a < t@.len() && 0 <= b < t@[a].ids@.len() implies (#[trigger] t@[a].ids@[b] as int) < n by {
                if a < old(t)@.len() {
                    assert(t@[a] == old(t)@[a]);
                    assert((old(t)@[a].ids@[b] as int) < n);
                } else {
                    assert(t@[a] == t@.last());
                    assert(t@[a].ids@ == seq![id]);
                    assert(b == 0);
                    assert(t@[a].ids@[b] == id);
                }
            }
        }
    }
}

/// The name under which an import is known: its alias, or the imported name.
pub open spec fn import_local_name(imp: ImportDeclaration) -> Seq<char> {
    match imp.alias {
        Some(a) => a.lexeme@,
        None => imp.symbol.name.lexeme@,
    }
}

impl<'a, 'source> Analyzer<'a, 'source> {
    /// `t` is the place given to the catalog type under `key`.
    pub open spec fn type_placed(&self, key: (Seq<char>, Seq<char>), t: usize) -> bool {
        exists|p: int|
            0 <= p < self.catalog.type_keys().len() && p < self.shared_types@.len() && self.catalog.type_keys()[p]
                == key && #[trigger] self.shared_types@[p] == Some(t)
    }

    /// `d` is the place given to the catalog signature under `key`.
    pub open spec fn signature_placed(&self, key: (Seq<char>, Seq<char>), d: usize) -> bool {
        exists|p: int|
            0 <= p < self.catalog.signature_keys().len() && p < self.shared_signatures@.len()
                && self.catalog.signature_keys()[p] == key && #[trigger] self.shared_signatures@[p] == Some(d)
    }

    /// What an import names is known under its local name: a type bound to
    /// its place, a signature among those known under the name.
    pub open spec fn import_bound(&self, imp: ImportDeclaration) -> bool {
        &&& self.catalog.has_type(import_key(imp)) ==> (lookup(self.type_names@, import_local_name(imp)) matches Some(
            t,
        ) && self.type_placed(import_key(imp), t))
        &&& self.catalog.has_signature(import_key(imp)) ==> exists|d: usize|
            self.signature_placed(import_key(imp), d) && #[trigger] direct_signature_ids(
                self.signature_names@,
                import_local_name(imp),
            ).contains(d)
    }

    proof fn lemma_import_bound_kept(&self, later: &Self, imp: ImportDeclaration)
        requires
            self.import_bound(imp),
            later.catalog == self.catalog,
            placements_kept(self.shared_types@, later.shared_types@),
            lookup(self.type_names@, import_local_name(imp)) is Some ==> lookup(later.type_names@, import_local_name(imp))
                == lookup(self.type_names@, import_local_name(imp)),
            placements_kept(self.shared_signatures@, later.shared_signatures@),
            forall|x: usize|
                direct_signature_ids(self.signature_names@, import_local_name(imp)).contains(x)
                    ==> #[trigger] direct_signature_ids(later.signature_names@, import_local_name(imp)).contains(x),
        ensures
            later.import_bound(imp),
    {
        if self.catalog.has_signature(import_key(imp)) {
            let d = choose|d: usize|
                self.signature_placed(import_key(imp), d) && #[trigger] direct_signature_ids(
                    self.signature_names@,
                    import_local_name(imp),
                ).contains(d);
            let p = choose|p: int|
                0 <= p < self.catalog.signature_keys().len() && p < self.shared_signatures@.len()
                    && self.catalog.signature_keys()[p] == import_key(imp) && #[trigger] self.shared_signatures@[p]
                    == Some(d);
            assert(later.shared_signatures@[p] == Some(d));
            assert(later.signature_placed(import_key(imp), d));
            assert(direct_signature_ids(later.signature_names@, import_local_name(imp)).contains(d));
        }
        if self.catalog.has_type(import_key(imp)) {
            let t = lookup(self.type_names@, import_local_name(imp))->0;
            let p = choose|p: int|
                0 <= p < self.catalog.type_keys().len() && p < self.shared_types@.len() && self.catalog.type_keys()[p]
                    == import_key(imp) && #[trigger] self.shared_types@[p] == Some(t);
            assert(later.shared_types@[p] == Some(t));
        }
    }
}

/// The names that the table `t` binds.
pub open spec fn bound_in(t: Seq<NamedIndex>) -> spec_fn(Seq<char>) -> bool {
    |n: Seq<char>| lookup(t, n) is Some
}

/// `imp` imports a catalog type under the local name `n`.
pub open spec fn imports_type_named(c: &CompilationCatalog, imp: ImportDeclaration, n: Seq<char>) -> bool {
    c.has_type(import_key(imp)) && import_local_name(imp) == n
}

/// Some import before position `i` brings a type under the local name `n`.
pub open spec fn type_imported_before(c: &CompilationCatalog, imps: Seq<ImportDeclaration>, i: int, n: Seq<char>) -> bool {
    exists|j: int| 0 <= j < i && #[trigger] imports_type_named(c, imps[j], n)
}

/// The import at `i` cannot be bound: it names nothing in the catalog, its
/// alias breaks the rule of what it names, or the type it brings would take
/// a local name already bound in `names` or by an earlier import.
pub open spec fn import_refused(
    bound: spec_fn(Seq<char>) -> bool,
    c: &CompilationCatalog,
    imps: Seq<ImportDeclaration>,
    i: int,
) -> bool {
    let imp = imps[i];
    ||| !import_resolvable(c, imp)
    ||| !import_alias_valid(c, imp)
    ||| c.has_type(import_key(imp)) && (bound(import_local_name(imp)) || type_imported_before(
        c,
        imps,
        i,
        import_local_name(imp),
    ))
}

/// The failure reported for the refused import at `i`: a symbol the catalog
/// lacks, an alias against the rule of the type it names, a type name
/// already taken, or an alias against the rule of the signature it names.
pub open spec fn import_failure_fits(
    bound: spec_fn(Seq<char>) -> bool,
    c: &CompilationCatalog,
    imps: Seq<ImportDeclaration>,
    i: int,
    e: CompileFailure,
) -> bool {
    let imp = imps[i];
    let has_type = c.has_type(import_key(imp));
    if !import_resolvable(c, imp) {
        &&& e.kind matches CompileFailureKind::Semantic(
            SemanticFailure::Resolution(ResolutionFailure::ImportedSymbolNotFound { module, name }),
        ) && module@ == imp.symbol.qualifier.lexeme@ && name@ == imp.symbol.name.lexeme@
        &&& e.source_span == (SourceSpan { start: imp.symbol.qualifier.span.start, end: imp.symbol.name.span.end })
    } else if has_type && imp.alias is Some && !pascal_case(imp.alias->0.lexeme@) {
        &&& e.kind == CompileFailureKind::Semantic(
            SemanticFailure::Declaration(DeclarationFailure::InvalidNamingConvention { role: SemanticNameRole::Type }),
        )
        &&& e.source_span == imp.alias->0.span
    } else if has_type && (bound(import_local_name(imp)) || type_imported_before(c, imps, i, import_local_name(imp))) {
        &&& e.kind matches CompileFailureKind::Semantic(
            SemanticFailure::Declaration(DeclarationFailure::TypeNameCollision { name }),
        ) && name@ == import_local_name(imp)
        &&& e.source_span == match imp.alias {
            Some(a) => a.span,
            None => imp.symbol.name.span,
        }
    } else {
        &&& e.kind == CompileFailureKind::Semantic(
            SemanticFailure::Declaration(
                DeclarationFailure::InvalidNamingConvention { role: SemanticNameRole::SignatureAlias },
            ),
        )
        &&& e.source_span == imp.alias->0.span
    }
}

impl<'a, 'source> Analyzer<'a, 'source> {
    /// The tables that only the import step and local declarations change.
    pub open spec fn same_functions(&self, other: &Self) -> bool {
        &&& self.program == other.program
        &&& self.catalog == other.catalog
        &&& self.functions == other.functions
        &&& self.function_headers == other.function_headers
        &&& self.function_names == other.function_names
    }

    /// Binds the imported types and signatures under their local names.
    ///
    /// Fails on the first import that names nothing in the catalog, whose
    /// alias breaks the naming rule of what it names, or whose type's local
    /// name is already bound. On success every import names a catalog entry
    /// and every alias follows its rule.
    pub(crate) fn collect_imports(&mut self) -> (r: Result<(), CompileFailure>)
        requires
            old(self).wf(),
            catalog_closed(old(self).catalog),
        ensures
            final(self).wf(),
            final(self).same_functions(old(self)),
            r is Ok ==> forall|i: int|
                0 <= i < old(self).program.imports@.len() ==> import_resolvable(
                    old(self).catalog,
                    #[trigger] old(self).program.imports@[i],
                ),
            r is Ok ==> forall|i: int|
                0 <= i < old(self).program.imports@.len() ==> import_alias_valid(
                    old(self).catalog,
                    #[trigger] old(self).program.imports@[i],
                ),
            r is Ok ==> forall|i: int|
                0 <= i < old(self).program.imports@.len() ==> final(self).import_bound(
                    #[trigger] old(self).program.imports@[i],
                ),
            r is Ok <==> forall|i: int|
                0 <= i < old(self).program.imports@.len() ==> !import_refused(
                    bound_in(old(self).type_names@),
                    old(self).catalog,
                    old(self).program.imports@,
                    i,
                ),
            r is Ok ==> forall|n: Seq<char>|
                #![trigger lookup(final(self).type_names@, n)]
                (lookup(final(self).type_names@, n) is Some) <==> (lookup(old(self).type_names@, n) is Some
                    || type_imported_before(
                    old(self).catalog,
                    old(self).program.imports@,
                    old(self).program.imports@.len() as int,
                    n,
                )),
            r matches Err(e) ==> exists|i: int|
                0 <= i < old(self).program.imports@.len() && import_refused(
                    bound_in(old(self).type_names@),
                    old(self).catalog,
                    old(self).program.imports@,
                    i,
                ) && import_failure_fits(
                    bound_in(old(self).type_names@),
                    old(self).catalog,
                    old(self).program.imports@,
                    i,
                    e,
                ) && forall|j: int|
                    0 <= j < i ==> !import_refused(
                        bound_in(old(self).type_names@),
                        old(self).catalog,
                        old(self).program.imports@,
                        j,
                    ),
            old(self).type_names@.len() <= final(self).type_names@.len(),
            final(self).type_names@.subrange(0, old(self).type_names@.len() as int) == old(self).type_names@,
    {
        let ghost names0 = old(self).type_names@;
        let program = self.program;
        let catalog = self.catalog;
        let mut i: usize = 0;
        while i < program.imports.len()
            invariant
                self.wf(),
                self.program == program,
                self.catalog == catalog,
                catalog_closed(catalog),
                self.same_functions(old(self)),
                i <= program.imports@.len(),
                forall|j: int| 0 <= j < i ==> import_resolvable(catalog, #[trigger] program.imports@[j]),
                forall|j: int| 0 <= j < i ==> import_alias_valid(catalog, #[trigger] program.imports@[j]),
                forall|j: int| 0 <= j < i ==> self.import_bound(#[trigger] program.imports@[j]),
                names0 == old(self).type_names@,
                names0.len() <= self.type_names@.len(),
                self.type_names@.subrange(0, names0.len() as int) == names0,
                forall|j: int| 0 <= j < i ==> !import_refused(bound_in(names0), catalog, program.imports@, j),
                forall|n: Seq<char>|
                    #![trigger lookup(self.type_names@, n)]
                    (lookup(self.type_names@, n) is Some) <==> (lookup(names0, n) is Some || type_imported_before(
                        catalog,
                        program.imports@,
                        i as int,
                        n,
                    )),
            decreases program.imports@.len() - i,
        {
            let ghost start = *self;
            let ghost mut bound_type: usize = 0;
            let import = &program.imports[i];
            let mod_name = import.symbol.qualifier.lexeme;
            let sym_name = import.symbol.name.lexeme;
            let type_pos = catalog.find_type(mod_name, sym_name);
            let sig_pos = catalog.find_signature(mod_name, sym_name);
            if type_pos.is_none() && sig_pos.is_none() {
                assert(import_refused(bound_in(names0), catalog, program.imports@, i as int));
                return Err(
                    fail(
                        SemanticFailure::Resolution(
                            ResolutionFailure::ImportedSymbolNotFound {
                                module: mod_name.to_owned(),
                                name: sym_name.to_owned(),
                            },
                        ),
                        join_spans(import.symbol.qualifier.span, import.symbol.name.span),
                    ),
                );
            }
            proof {
                if let Some(p) = type_pos {
                    assert(catalog.type_keys()[p as int] == import_key(*import));
                    assert(catalog.has_type(import_key(*import)));
                }
                if let Some(p) = sig_pos {
                    assert(catalog.signature_keys()[p as int] == import_key(*import));
                    assert(catalog.has_signature(import_key(*import)));
                }
            }
            let local_name: &str = match &import.alias {
                Some(a) => a.lexeme,
                None => sym_name,
            };
            if let Some(p) = type_pos {
                if let Some(alias) = &import.alias {
                    if !is_valid_pascal_case(alias.lexeme) {
                        assert(import_refused(bound_in(names0), catalog, program.imports@, i as int));
                        return Err(
                            declaration_failure(
                                DeclarationFailure::InvalidNamingConvention { role: SemanticNameRole::Type },
                                alias.span,
                            ),
                        );
                    }
                }
                if find_name(&self.type_names, local_name).is_some() {
                    assert(local_name@ == import_local_name(*import));
                    assert(import_refused(bound_in(names0), catalog, program.imports@, i as int));
                    let span = match &import.alias {
                        Some(a) => a.span,
                        None => import.symbol.name.span,
                    };
                    return Err(
                        declaration_failure(
                            DeclarationFailure::TypeNameCollision { name: local_name.to_owned() },
                            span,
                        ),
                    );
                }
                assert(local_name@ == import_local_name(*import));
                assert(lookup(self.type_names@, local_name@) is None);
                let ghost names_before = self.type_names@;
                let type_id = self.materialize_catalog_type(p);
                let ghost before = *self;
                bind_name(&mut self.type_names, local_name, type_id);
                proof {
                    bound_type = type_id;
                    assert(local_name@ == import_local_name(*import));
                    lemma_lookup_found(before.type_names@, local_name@);
                    lemma_lookup_push(before.type_names@, self.type_names@.last(), local_name@);
                    assert(self.type_names@ == before.type_names@.push(self.type_names@.last()));
                    assert(self.shared_types@[p as int] == Some(type_id));
                    assert forall|n: Seq<char>|
                        #![trigger lookup(self.type_names@, n)]
                        (lookup(self.type_names@, n) is Some) <==> (lookup(names0, n) is Some || type_imported_before(
                            catalog,
                            program.imports@,
                            i + 1,
                            n,
                        )) by {
                        lemma_lookup_push(names_before, self.type_names@.last(), n);
                        assert(lookup(names_before, n) is Some <==> (lookup(names0, n) is Some || type_imported_before(
                            catalog,
                            program.imports@,
                            i as int,
                            n,
                        )));
                        if type_imported_before(catalog, program.imports@, i + 1, n) && !type_imported_before(
                            catalog,
                            program.imports@,
                            i as int,
                            n,
                        ) {
                            let j = choose|j: int| 0 <= j < i + 1 && #[trigger] imports_type_named(catalog, program.imports@[j], n);
                            if j < i {
                                assert(type_imported_before(catalog, program.imports@, i as int, n));
                            }
                        }
                        if type_imported_before(catalog, program.imports@, i as int, n) {
                            let j = choose|j: int| 0 <= j < i && #[trigger] imports_type_named(catalog, program.imports@[j], n);
                            assert(imports_type_named(catalog, program.imports@[j], n));
                        }
                        if n == local_name@ {
                            assert(imports_type_named(catalog, program.imports@[i as int], n));
                        }
                    }
                    assert forall|k: int| 0 <= k < self.type_names@.len() implies (#[trigger] self.type_names@[k].index as int) < self.types@.len() by {
                        if k < before.type_names@.len() {
                            assert(self.type_names@[k] == before.type_names@[k]);
                        }
                    }
                }
            }
            if let Some(p) = sig_pos {
                if let Some(alias) = &import.alias {
                    if !is_valid_snake_case(alias.lexeme) {
                        assert(import_refused(bound_in(names0), catalog, program.imports@, i as int));
                        return Err(
                            declaration_failure(
                                DeclarationFailure::InvalidNamingConvention {
                                    role: SemanticNameRole::SignatureAlias,
                                },
                                alias.span,
                            ),
                        );
                    }
                }
                let ghost before_sig = *self;
                let sig_id = self.materialize_catalog_signature(p);
                let ghost before_add = self.signature_names@;
                add_signature_name(&mut self.signature_names, local_name, sig_id);
                proof {
                    assert(local_name@ == import_local_name(*import));
                    assert(self.shared_signatures@[p as int] == Some(sig_id));
                    assert(self.signature_placed(import_key(*import), sig_id));
                    assert(direct_signature_ids(self.signature_names@, import_local_name(*import)).contains(sig_id));
                    lemma_placements_trans(start.shared_types@, before_sig.shared_types@, self.shared_types@);
                }
            }
            proof {
                let local = import_local_name(*import);
                assert(local_name@ == local);
                assert(!import_refused(bound_in(names0), catalog, program.imports@, i as int));
                if type_pos is None {
                    assert(!catalog.has_type(import_key(*import)));
                    assert forall|n: Seq<char>|
                        type_imported_before(catalog, program.imports@, i + 1, n) implies type_imported_before(
                            catalog,
                            program.imports@,
                            i as int,
                            n,
                        ) by {
                        let j = choose|j: int| 0 <= j < i + 1 && #[trigger] imports_type_named(catalog, program.imports@[j], n);
                        assert(j != i);
                    }
                    assert forall|n: Seq<char>|
                        type_imported_before(catalog, program.imports@, i as int, n) implies type_imported_before(
                            catalog,
                            program.imports@,
                            i + 1,
                            n,
                        ) by {
                        let j = choose|j: int| 0 <= j < i && #[trigger] imports_type_named(catalog, program.imports@[j], n);
                        assert(imports_type_named(catalog, program.imports@[j], n));
                    }
                } else {
                    assert(lookup(self.type_names@, local) == Some(bound_type));
                    let tp = type_pos->0 as int;
                    assert(self.shared_types@[tp] == Some(bound_type));
                    assert(self.type_placed(import_key(*import), bound_type));
                }
                if sig_pos is None {
                    assert(!catalog.has_signature(import_key(*import)));
                }
                assert(self.import_bound(*import));
                assert forall|j: int| 0 <= j < i implies self.import_bound(#[trigger] program.imports@[j]) by {
                    let n = import_local_name(program.imports@[j]);
                    if type_pos is Some {
                        lemma_lookup_push(start.type_names@, self.type_names@.last(), n);
                    }
                    if n != local {
                        assert(direct_signature_ids(self.signature_names@, n) == direct_signature_ids(start.signature_names@, n));
                    }
                    start.lemma_import_bound_kept(self, program.imports@[j]);
                }
            }
            i = i + 1;
        }
        Ok(())
    }
}

// --- Local types ---

/// Every enum declaration has a variant, as the parser guarantees.
pub open spec fn enums_have_variants(ds: Seq<Declaration>) -> bool {
    forall|k: int| 0 <= k < ds.len() ==> (#[trigger] ds[k] matches Declaration::Enum(en) ==> en.variants@.len() > 0)
}

/// The places given to local types grow with the declarations' order.
pub open spec fn places_increasing(ids: Seq<Option<usize>>) -> bool {
    forall|a: int, b: int|
        0 <= a < b < ids.len() && #[trigger] ids[a] is Some && #[trigger] ids[b] is Some ==> ids[a].unwrap() < ids[b].unwrap()
}

/// The name of a local struct or enum declaration; `None` for a function.
pub open spec fn local_type_name(d: Declaration) -> Option<Identifier> {
    match d {
        Declaration::Struct(st) => Some(st.name),
        Declaration::Enum(en) => Some(en.name),
        Declaration::Function(_) => None,
    }
}

/// How many local structs and enums `decls` declares.
pub open spec fn local_count(decls: Seq<Declaration>) -> nat
    decreases decls.len(),
{
    if decls.len() == 0 {
        0
    } else {
        local_count(decls.drop_last()) + if decls.last() is Function {
            0nat
        } else {
            1nat
        }
    }
}

/// `d` declares a local type named `n`.
pub open spec fn declares_type_named(d: Declaration, n: Seq<char>) -> bool {
    local_type_name(d) matches Some(id) && id.lexeme@ == n
}

/// Some local type declared before position `k` has the name `n`.
pub open spec fn type_declared_before(decls: Seq<Declaration>, k: int, n: Seq<char>) -> bool {
    exists|j: int| 0 <= j < k && #[trigger] declares_type_named(decls[j], n)
}

/// The local type declared at `k` cannot get an entry: its name is not
/// Pascal case, or it is already bound in `names` or by an earlier local type.
pub open spec fn shell_refused(bound: spec_fn(Seq<char>) -> bool, decls: Seq<Declaration>, k: int) -> bool {
    local_type_name(decls[k]) matches Some(id) && {
        ||| !pascal_case(id.lexeme@)
        ||| bound(id.lexeme@)
        ||| type_declared_before(decls, k, id.lexeme@)
    }
}

/// The failure reported for the refused local type declared at `k`.
pub open spec fn shell_failure_fits(decls: Seq<Declaration>, k: int, e: CompileFailure) -> bool {
    local_type_name(decls[k]) matches Some(id) && e.source_span == id.span && if !pascal_case(id.lexeme@) {
        e.kind == CompileFailureKind::Semantic(
            SemanticFailure::Declaration(DeclarationFailure::InvalidNamingConvention { role: SemanticNameRole::Type }),
        )
    } else {
        e.kind matches CompileFailureKind::Semantic(SemanticFailure::Declaration(DeclarationFailure::TypeNameCollision { name }))
            && name@ == id.lexeme@
    }
}

impl<'a, 'source> Analyzer<'a, 'source> {
    /// The declaration `d` has its place `id` in the type table: a local
    /// struct or enum is bound under its own name to an empty entry of its kind.
    pub open spec fn shell_registered(&self, d: Declaration, id: Option<usize>) -> bool {
        match d {
            Declaration::Struct(st) => id matches Some(t) && {
                &&& NATIVE_COUNT <= t < self.types@.len()
                &&& lookup(self.type_names@, st.name.lexeme@) == Some(t)
                &&& pascal_case(st.name.lexeme@)
                &&& self.types@[t as int] is Struct
            },
            Declaration::Enum(en) => id matches Some(t) && {
                &&& NATIVE_COUNT <= t < self.types@.len()
                &&& lookup(self.type_names@, en.name.lexeme@) == Some(t)
                &&& pascal_case(en.name.lexeme@)
                &&& self.types@[t as int] is Enum
            },
            Declaration::Function(_) => id is None,
        }
    }

    /// The local type declared at `k` got the place after those of the local
    /// types declared before it, counted from `base`, with its own name as
    /// its descriptor.
    pub open spec fn shell_placed(&self, decls: Seq<Declaration>, k: int, id: Option<usize>, base: nat) -> bool {
        decls[k] is Function || {
            &&& id == Some((base + local_count(decls.take(k))) as usize)
            &&& (id->0 as int) < self.type_descriptors@.len()
            &&& self.type_descriptors@[id->0 as int] matches SemanticTypeDescriptor::Local(n) && n@ == local_type_name(
                decls[k],
            )->0.lexeme@
        }
    }

    /// A new local type entry, bound under `name`, keeps the tables consistent.
    proof fn lemma_shell_wf(&self, entry: &Self)
        requires
            entry.wf(),
            self.types@.len() == entry.types@.len() + 1,
            forall|i: int| 0 <= i < entry.types@.len() ==> #[trigger] self.types@[i] == entry.types@[i],
            type_below(self.types@.last(), self.types@.len()),
            self.type_descriptors@.len() == entry.type_descriptors@.len() + 1,
            self.metas@ == entry.metas@.push(TypeMeta::Opaque),
            self.type_names@ == entry.type_names@.push(self.type_names@.last()),
            self.type_names@.last().index == entry.types@.len(),
            self.shared_types == entry.shared_types,
            self.signatures == entry.signatures,
            self.shared_signatures == entry.shared_signatures,
            self.signature_names == entry.signature_names,
            self.function_headers == entry.function_headers,
            self.function_names == entry.function_names,
            self.catalog == entry.catalog,
        ensures
            self.wf(),
    {
        let n = entry.types@.len();
        let m = self.types@.len();
        assert forall|i: int| 0 <= i < m implies type_below(#[trigger] self.types@[i], m) by {
            if i < n {
                lemma_type_below_grow(entry.types@[i], n, m);
            }
        }
        assert forall|i: int| 0 <= i < m implies meta_below(#[trigger] self.metas@[i], m) by {
            if i < n {
                assert(self.metas@[i] == entry.metas@[i]);
                lemma_meta_below_grow(entry.metas@[i], n, m);
            }
        }
        assert forall|i: int| 0 <= i < self.signatures@.len() implies signature_below(#[trigger] self.signatures@[i], m, self.signatures@.len()) by {
            assert(signature_below(entry.signatures@[i], n, self.signatures@.len()));
        }
        assert forall|i: int| 0 <= i < self.function_headers@.len() implies header_below(#[trigger] self.function_headers@[i], m, self.signatures@.len()) by {
            lemma_header_below_grow(entry.function_headers@[i], n, m, self.signatures@.len(), self.signatures@.len());
        }
        assert forall|i: int| 0 <= i < NATIVE_COUNT implies #[trigger] self.metas@[i] is Opaque by {
            assert(self.metas@[i] == entry.metas@[i]);
        }
        assert forall|i: int| 0 <= i < self.type_names@.len() implies (#[trigger] self.type_names@[i].index as int) < m by {
            if i < entry.type_names@.len() {
                assert(self.type_names@[i] == entry.type_names@[i]);
            }
        }
    }

    /// Gives every local struct and enum an empty entry of its kind, bound
    /// under its name; the result holds each declaration's place.
    ///
    /// Fails on the first local type whose name is not Pascal case or is
    /// already bound.
    #[verifier::rlimit(60)]
    pub(crate) fn register_local_type_shells(&mut self) -> (r: Result<Vec<Option<usize>>, CompileFailure>)
        requires
            old(self).wf(),
        ensures
            final(self).wf(),
            final(self).same_functions(old(self)),
            final(self).shared_types == old(self).shared_types,
            final(self).signatures == old(self).signatures,
            final(self).shared_signatures == old(self).shared_signatures,
            final(self).signature_names == old(self).signature_names,
            r matches Ok(ids) ==> {
                &&& ids@.len() == old(self).program.declarations@.len()
                &&& forall|k: int|
                    0 <= k < ids@.len() ==> final(self).shell_registered(
                        #[trigger] old(self).program.declarations@[k],
                        ids@[k],
                    )
                &&& places_increasing(ids@)
            },
            r is Ok <==> forall|k: int|
                0 <= k < old(self).program.declarations@.len() ==> !shell_refused(
                    bound_in(old(self).type_names@),
                    old(self).program.declarations@,
                    k,
                ),
            r matches Err(e) ==> exists|k: int|
                0 <= k < old(self).program.declarations@.len() && shell_refused(
                    bound_in(old(self).type_names@),
                    old(self).program.declarations@,
                    k,
                ) && shell_failure_fits(old(self).program.declarations@, k, e) && forall|j: int|
                    0 <= j < k ==> !shell_refused(bound_in(old(self).type_names@), old(self).program.declarations@, j),
            r is Ok ==> forall|n: Seq<char>|
                #![trigger lookup(final(self).type_names@, n)]
                (lookup(final(self).type_names@, n) is Some) <==> (lookup(old(self).type_names@, n) is Some
                    || type_declared_before(
                    old(self).program.declarations@,
                    old(self).program.declarations@.len() as int,
                    n,
                )),
            old(self).type_names@.len() <= final(self).type_names@.len(),
            final(self).type_names@.subrange(0, old(self).type_names@.len() as int) == old(self).type_names@,
            r matches Ok(ids) ==> forall|k: int|
                0 <= k < ids@.len() ==> final(self).shell_placed(#[trigger] old(self).program.declarations@, k, ids@[k], old(self).types@.len()),
            r is Ok ==> final(self).types@.len() == old(self).types@.len() + local_count(old(self).program.declarations@),
    {
        let program = self.program;
        let ghost names0 = old(self).type_names@;
        let mut ids: Vec<Option<usize>> = Vec::new();
        let mut k: usize = 0;
        while k < program.declarations.len()
            invariant
                self.wf(),
                self.program == program,
                self.same_functions(old(self)),
                self.shared_types == old(self).shared_types,
                self.signatures == old(self).signatures,
                self.shared_signatures == old(self).shared_signatures,
                self.signature_names == old(self).signature_names,
                k <= program.declarations@.len(),
                ids@.len() == k,
                forall|j: int| 0 <= j < k ==> self.shell_registered(#[trigger] program.declarations@[j], ids@[j]),
                places_increasing(ids@),
                forall|j: int| 0 <= j < k ==> (#[trigger] ids@[j] matches Some(t) ==> (t as int) < self.types@.len()),
                names0 == old(self).type_names@,
                self.types@.len() == old(self).types@.len() + local_count(program.declarations@.take(k as int)),
                forall|j: int|
                    0 <= j < k ==> self.shell_placed(program.declarations@, j, #[trigger] ids@[j], old(self).types@.len()),
                names0.len() <= self.type_names@.len(),
                self.type_names@.subrange(0, names0.len() as int) == names0,
                forall|j: int| 0 <= j < k ==> !shell_refused(bound_in(names0), program.declarations@, j),
                forall|n: Seq<char>|
                    #![trigger lookup(self.type_names@, n)]
                    (lookup(self.type_names@, n) is Some) <==> (lookup(names0, n) is Some
                        || type_declared_before(program.declarations@, k as int, n)),
            decreases program.declarations@.len() - k,
        {
            let ghost entry = *self;
            proof {
                assert(program.declarations@.take(k + 1).drop_last() =~= program.declarations@.take(k as int));
                assert(program.declarations@.take(k + 1).last() == program.declarations@[k as int]);
            }
            let (name, is_struct) = match &program.declarations[k] {
                Declaration::Struct(st) => (&st.name, true),
                Declaration::Enum(en) => (&en.name, false),
                Declaration::Function(_) => {
                    ids.push(None);
                    proof {
                        assert forall|j: int| 0 <= j < k + 1 implies self.shell_registered(#[trigger] program.declarations@[j], ids@[j]) by {
                            if j < k {
                                assert(ids@[j] == ids@[j]);
                            }
                        }
                        assert forall|n: Seq<char>|
                            type_declared_before(program.declarations@, k + 1, n) implies type_declared_before(
                                program.declarations@,
                                k as int,
                                n,
                            ) by {
                            let j = choose|j: int|
                                0 <= j < k + 1 && #[trigger] declares_type_named(program.declarations@[j], n);
                            assert(j != k);
                        }
                        assert forall|n: Seq<char>|
                            type_declared_before(program.declarations@, k as int, n) implies type_declared_before(
                                program.declarations@,
                                k + 1,
                                n,
                            ) by {
                            let j = choose|j: int|
                                0 <= j < k && #[trigger] declares_type_named(program.declarations@[j], n);
                            assert(declares_type_named(program.declarations@[j], n));
                        }
                    }
                    k = k + 1;
                    continue;
                },
            };
            assert(local_type_name(program.declarations@[k as int]) == Some(*name));
            if !is_valid_pascal_case(name.lexeme) {
                let e = declaration_failure(
                    DeclarationFailure::InvalidNamingConvention { role: SemanticNameRole::Type },
                    name.span,
                );
                assert(shell_refused(bound_in(names0), program.declarations@, k as int));
                assert(shell_failure_fits(program.declarations@, k as int, e));
                return Err(e);
            }
            if find_name(&self.type_names, name.lexeme).is_some() {
                assert(lookup(self.type_names@, name.lexeme@) is Some);
                let e = declaration_failure(
                    DeclarationFailure::TypeNameCollision { name: name.lexeme.to_owned() },
                    name.span,
                );
                assert(shell_refused(bound_in(names0), program.declarations@, k as int));
                assert(shell_failure_fits(program.declarations@, k as int, e));
                return Err(e);
            }
            assert(lookup(self.type_names@, name.lexeme@) is None);
            assert(!shell_refused(bound_in(names0), program.declarations@, k as int));
            let ghost names_before = self.type_names@;
            let type_id = self.types.len();
            if is_struct {
                self.types.push(SemanticType::Struct { fields: Vec::new() });
            } else {
                self.types.push(SemanticType::Enum { variants: Vec::new() });
            }
            self.type_descriptors.push(SemanticTypeDescriptor::Local(name.lexeme.to_owned()));
            self.metas.push(TypeMeta::Opaque);
            bind_name(&mut self.type_names, name.lexeme, type_id);
            ids.push(Some(type_id));
            proof {
                assert forall|n: Seq<char>|
                    #![trigger lookup(self.type_names@, n)]
                    (lookup(self.type_names@, n) is Some) <==> (lookup(names0, n) is Some || type_declared_before(
                        program.declarations@,
                        k + 1,
                        n,
                    )) by {
                    lemma_lookup_push(names_before, self.type_names@.last(), n);
                    assert(lookup(names_before, n) is Some <==> (lookup(names0, n) is Some || type_declared_before(
                        program.declarations@,
                        k as int,
                        n,
                    )));
                    if type_declared_before(program.declarations@, k + 1, n) && !type_declared_before(
                        program.declarations@,
                        k as int,
                        n,
                    ) {
                        let j = choose|j: int|
                            0 <= j < k + 1 && #[trigger] declares_type_named(program.declarations@[j], n);
                        if j < k {
                            assert(type_declared_before(program.declarations@, k as int, n));
                        }
                    }
                    if type_declared_before(program.declarations@, k as int, n) {
                        let j = choose|j: int|
                            0 <= j < k && #[trigger] declares_type_named(program.declarations@[j], n);
                        assert(declares_type_named(program.declarations@[j], n));
                    }
                    if n == name.lexeme@ {
                        assert(declares_type_named(program.declarations@[k as int], n));
                    }
                }
                self.lemma_shell_wf(&entry);
                assert forall|j: int| 0 <= j < k + 1 implies self.shell_registered(#[trigger] program.declarations@[j], ids@[j]) by {
                    if j < k {
                        let d = program.declarations@[j];
                        match d {
                            Declaration::Struct(st) => {
                                lemma_lookup_push(entry.type_names@, self.type_names@.last(), st.name.lexeme@);
                                assert(self.types@[ids@[j].unwrap() as int] == entry.types@[ids@[j].unwrap() as int]);
                            },
                            Declaration::Enum(en) => {
                                lemma_lookup_push(entry.type_names@, self.type_names@.last(), en.name.lexeme@);
                                assert(self.types@[ids@[j].unwrap() as int] == entry.types@[ids@[j].unwrap() as int]);
                            },
                            Declaration::Function(_) => {},
                        }
                    } else {
                        lemma_lookup_push(entry.type_names@, self.type_names@.last(), name.lexeme@);
                    }
                }
            }
            k = k + 1;
        }
        proof {
            assert(program.declarations@.take(k as int) =~= program.declarations@);
        }
        Ok(ids)
    }

    /// The type bound to `id`'s name; fails with the unknown name otherwise.
    pub(crate) fn resolve_type_identifier(&self, id: &Identifier) -> (r: Result<usize, CompileFailure>)
        requires
            self.wf(),
        ensures
            match r {
                Ok(t) => lookup(self.type_names@, id.lexeme@) == Some(t) && (t as int) < self.types@.len(),
                Err(e) => lookup(self.type_names@, id.lexeme@) is None && e == semantic_failure(
                    SemanticFailure::Resolution(ResolutionFailure::UnknownType { name: e.kind->Semantic_0->Resolution_0->UnknownType_name }),
                    id.span,
                ) && e.kind->Semantic_0->Resolution_0->UnknownType_name@ == id.lexeme@,
            },
    {
        match find_name(&self.type_names, id.lexeme) {
            Some(t) => {
                proof {
                    lemma_lookup_below(self.type_names@, id.lexeme@, self.types@.len());
                }
                Ok(t)
            },
            None => Err(
                fail(
                    SemanticFailure::Resolution(ResolutionFailure::UnknownType { name: id.lexeme.to_owned() }),
                    id.span,
                ),
            ),
        }
    }
}

/// The names of field metadata, in order.
pub open spec fn meta_names(ms: Seq<FieldMeta>) -> Seq<Seq<char>> {
    ms.map_values(|m: FieldMeta| m.name@)
}

/// The field metadata follow the declared fields: same names, in order, each
/// snake case and none twice, with the type that each field's type name is
/// bound to.
pub open spec fn fields_declared(type_names: Seq<NamedIndex>, defs: Seq<FieldDefinition>, ms: Seq<FieldMeta>) -> bool {
    &&& ms.len() == defs.len()
    &&& forall|i: int| 0 <= i < ms.len() ==> {
        &&& #[trigger] ms[i].name@ == defs[i].name.lexeme@
        &&& snake_case(defs[i].name.lexeme@)
        &&& lookup(type_names, defs[i].type_ident.lexeme@) == Some(ms[i].type_id)
    }
    &&& meta_names(ms).no_duplicates()
}

/// The semantic fields carry the metadata's types.
pub open spec fn fields_typed(fs: Seq<SemanticField>, ms: Seq<FieldMeta>) -> bool {
    &&& fs.len() == ms.len()
    &&& forall|i: int| 0 <= i < fs.len() ==> (#[trigger] fs[i]).type_id.0 == ms[i].type_id
}

pub open spec fn variant_meta_names(vs: Seq<VariantMeta>) -> Seq<Seq<char>> {
    vs.map_values(|v: VariantMeta| v.spec_name())
}

/// One variant follows its declaration.
pub open spec fn variant_declared(type_names: Seq<NamedIndex>, d: EnumVariant, m: VariantMeta, v: SemanticVariant) -> bool {
    &&& m.spec_name() == d.spec_name().lexeme@
    &&& pascal_case(d.spec_name().lexeme@)
    &&& match d {
        EnumVariant::Simple { .. } => m is Simple && v is Simple,
        EnumVariant::Associated { type_ident, .. } => m matches VariantMeta::Associated { type_id, .. } && {
            &&& lookup(type_names, type_ident.lexeme@) == Some(type_id)
            &&& v == (SemanticVariant::Associated { type_id: TypeId(type_id) })
        },
        EnumVariant::Structured { fields, .. } => m matches VariantMeta::Structured { fields: fm, .. } && {
            &&& fields_declared(type_names, fields@, fm@)
            &&& v matches SemanticVariant::Structured { fields: sf } && fields_typed(sf@, fm@)
        },
    }
}

/// The variants follow the declared ones, in order, none named twice.
pub open spec fn variants_declared(
    type_names: Seq<NamedIndex>,
    defs: Seq<EnumVariant>,
    ms: Seq<VariantMeta>,
    vs: Seq<SemanticVariant>,
) -> bool {
    &&& ms.len() == defs.len()
    &&& vs.len() == defs.len()
    &&& forall|i: int| 0 <= i < ms.len() ==> variant_declared(type_names, defs[i], #[trigger] ms[i], vs[i])
    &&& variant_meta_names(ms).no_duplicates()
}

/// The field declared at `i` can be resolved: its name is snake case and
/// unlike every earlier field's, and its type name is bound.
pub open spec fn field_accepted(bound: spec_fn(Seq<char>) -> bool, defs: Seq<FieldDefinition>, i: int) -> bool {
    &&& snake_case(defs[i].name.lexeme@)
    &&& forall|j: int| 0 <= j < i ==> (#[trigger] defs[j]).name.lexeme@ != defs[i].name.lexeme@
    &&& bound(defs[i].type_ident.lexeme@)
}

/// Every declared field can be resolved.
pub open spec fn fields_accepted(bound: spec_fn(Seq<char>) -> bool, defs: Seq<FieldDefinition>) -> bool {
    forall|i: int| 0 <= i < defs.len() ==> #[trigger] field_accepted(bound, defs, i)
}

/// The variant declared at `i` can be resolved: its name is Pascal case and
/// unlike every earlier variant's, and its payload's types are bound.
pub open spec fn variant_accepted(bound: spec_fn(Seq<char>) -> bool, defs: Seq<EnumVariant>, i: int) -> bool {
    &&& pascal_case(defs[i].spec_name().lexeme@)
    &&& forall|j: int| 0 <= j < i ==> (#[trigger] defs[j]).spec_name().lexeme@ != defs[i].spec_name().lexeme@
    &&& match defs[i] {
        EnumVariant::Simple { .. } => true,
        EnumVariant::Associated { type_ident, .. } => bound(type_ident.lexeme@),
        EnumVariant::Structured { fields, .. } => fields_accepted(bound, fields@),
    }
}

/// The members of a local struct or enum can all be resolved.
pub open spec fn members_accepted(bound: spec_fn(Seq<char>) -> bool, d: Declaration) -> bool {
    match d {
        Declaration::Struct(st) => fields_accepted(bound, st.fields@),
        Declaration::Enum(en) => forall|i: int|
            0 <= i < en.variants@.len() ==> #[trigger] variant_accepted(bound, en.variants@, i),
        Declaration::Function(_) => true,
    }
}

/// The failure reported for the field declared at `i`, the first refused:
/// a name against the rule, a name repeated, or an unknown type.
pub open spec fn field_failure_fits(defs: Seq<FieldDefinition>, i: int, e: CompileFailure) -> bool {
    let d = defs[i];
    if !snake_case(d.name.lexeme@) {
        e == semantic_failure(
            SemanticFailure::Declaration(DeclarationFailure::InvalidNamingConvention { role: SemanticNameRole::Field }),
            d.name.span,
        )
    } else if exists|j: int| 0 <= j < i && (#[trigger] defs[j]).name.lexeme@ == d.name.lexeme@ {
        e.source_span == d.name.span && (e.kind matches CompileFailureKind::Semantic(
            SemanticFailure::Declaration(DeclarationFailure::DuplicateField { name }),
        ) && name@ == d.name.lexeme@)
    } else {
        e.source_span == d.type_ident.span && (e.kind matches CompileFailureKind::Semantic(
            SemanticFailure::Resolution(ResolutionFailure::UnknownType { name }),
        ) && name@ == d.type_ident.lexeme@)
    }
}

/// `e` is the failure of the first refused field of `defs`.
pub open spec fn fields_failure(bound: spec_fn(Seq<char>) -> bool, defs: Seq<FieldDefinition>, e: CompileFailure) -> bool {
    exists|i: int|
        0 <= i < defs.len() && !field_accepted(bound, defs, i) && field_failure_fits(defs, i, e) && forall|j: int|
            0 <= j < i ==> #[trigger] field_accepted(bound, defs, j)
}

/// The failure reported for the variant declared at `i`, the first refused.
pub open spec fn variant_failure_fits(bound: spec_fn(Seq<char>) -> bool, defs: Seq<EnumVariant>, i: int, e: CompileFailure) -> bool {
    let d = defs[i];
    let n = d.spec_name();
    if !pascal_case(n.lexeme@) {
        e == semantic_failure(
            SemanticFailure::Declaration(DeclarationFailure::InvalidNamingConvention { role: SemanticNameRole::Variant }),
            n.span,
        )
    } else if exists|j: int| 0 <= j < i && (#[trigger] defs[j]).spec_name().lexeme@ == n.lexeme@ {
        e.source_span == n.span && (e.kind matches CompileFailureKind::Semantic(
            SemanticFailure::Declaration(DeclarationFailure::DuplicateVariant { name }),
        ) && name@ == n.lexeme@)
    } else {
        match d {
            EnumVariant::Associated { type_ident, .. } => e.source_span == type_ident.span && (e.kind matches CompileFailureKind::Semantic(
                SemanticFailure::Resolution(ResolutionFailure::UnknownType { name }),
            ) && name@ == type_ident.lexeme@),
            EnumVariant::Structured { fields, .. } => fields_failure(bound, fields@, e),
            EnumVariant::Simple { .. } => false,
        }
    }
}

/// `e` is the failure of the members of the local type declared by `d`.
pub open spec fn members_failure(bound: spec_fn(Seq<char>) -> bool, d: Declaration, e: CompileFailure) -> bool {
    match d {
        Declaration::Struct(st) => fields_failure(bound, st.fields@, e),
        Declaration::Enum(en) => exists|i: int|
            0 <= i < en.variants@.len() && !variant_accepted(bound, en.variants@, i) && variant_failure_fits(
                bound,
                en.variants@,
                i,
                e,
            ) && forall|j: int| 0 <= j < i ==> #[trigger] variant_accepted(bound, en.variants@, j),
        Declaration::Function(_) => false,
    }
}

/// Whether a field of `ms` is named `name`.
fn has_field_name(ms: &Vec<FieldMeta>, name: &str) -> (r: bool)
    ensures
        r == meta_names(ms@).contains(name@),
{
    let mut i: usize = 0;
    while i < ms.len()
        invariant
            i <= ms@.len(),
            forall|j: int| 0 <= j < i ==> ms@[j].name@ != name@,
        decreases ms@.len() - i,
    {
        if same_text(ms[i].name.as_str(), name) {
            assert(meta_names(ms@)[i as int] == name@);
            return true;
        }
        i = i + 1;
    }
    proof {
        if meta_names(ms@).contains(name@) {
            let j = choose|j: int| 0 <= j < meta_names(ms@).len() && meta_names(ms@)[j] == name@;
            assert(ms@[j].name@ == name@);
        }
    }
    false
}

/// Whether a variant of `vs` is named `name`.
fn has_variant_name(vs: &Vec<VariantMeta>, name: &str) -> (r: bool)
    ensures
        r == variant_meta_names(vs@).contains(name@),
{
    let mut i: usize = 0;
    while i < vs.len()
        invariant
            i <= vs@.len(),
            forall|j: int| 0 <= j < i ==> vs@[j].spec_name() != name@,
        decreases vs@.len() - i,
    {
        if same_text(vs[i].name(), name) {
            assert(variant_meta_names(vs@)[i as int] == name@);
            return true;
        }
        i = i + 1;
    }
    proof {
        if variant_meta_names(vs@).contains(name@) {
            let j = choose|j: int| 0 <= j < variant_meta_names(vs@).len() && variant_meta_names(vs@)[j] == name@;
            assert(vs@[j].spec_name() == name@);
        }
    }
    false
}

proof fn lemma_push_no_duplicates(s: Seq<Seq<char>>, x: Seq<char>)
    requires
        s.no_duplicates(),
        !s.contains(x),
    ensures
        s.push(x).no_duplicates(),
{
    assert forall|i: int, j: int| 0 <= i < j < s.push(x).len() implies s.push(x)[i] != s.push(x)[j] by {
        if j == s.len() {
            assert(s[i] == s.push(x)[i]);
        }
    }
}

impl<'a, 'source> Analyzer<'a, 'source> {
    /// Resolves declared fields in order: each name snake case and not seen
    /// before, each type name bound.
    #[verifier::spinoff_prover]
    fn resolve_declared_fields(&self, defs: &Vec<FieldDefinition>) -> (r: Result<
        (Vec<SemanticField>, Vec<FieldMeta>),
        CompileFailure,
    >)
        requires
            self.wf(),
        ensures
            r matches Ok((fs, ms)) ==> {
                &&& fields_declared(self.type_names@, defs@, ms@)
                &&& fields_typed(fs@, ms@)
                &&& fields_below(fs@, self.types@.len())
                &&& field_metas_below(ms@, self.types@.len())
            },
            r is Ok <==> fields_accepted(bound_in(self.type_names@), defs@),
            r matches Err(e) ==> fields_failure(bound_in(self.type_names@), defs@, e),
    {
        let mut fs: Vec<SemanticField> = Vec::new();
        let mut ms: Vec<FieldMeta> = Vec::new();
        let mut i: usize = 0;
        while i < defs.len()
            invariant
                self.wf(),
                i <= defs@.len(),
                fields_declared(self.type_names@, defs@.take(i as int), ms@),
                fields_typed(fs@, ms@),
                fields_below(fs@, self.types@.len()),
                field_metas_below(ms@, self.types@.len()),
                forall|j: int| 0 <= j < i ==> #[trigger] field_accepted(bound_in(self.type_names@), defs@, j),
            decreases defs@.len() - i,
        {
            let def = &defs[i];
            if !is_valid_snake_case(def.name.lexeme) {
                assert(!field_accepted(bound_in(self.type_names@), defs@, i as int));
                let e = declaration_failure(
                    DeclarationFailure::InvalidNamingConvention { role: SemanticNameRole::Field },
                    def.name.span,
                );
                assert(field_failure_fits(defs@, i as int, e));
                return Err(e);
            }
            if has_field_name(&ms, def.name.lexeme) {
                proof {
                    let t = choose|t: int| 0 <= t < meta_names(ms@).len() && meta_names(ms@)[t] == def.name.lexeme@;
                    assert(ms@[t].name@ == defs@.take(i as int)[t].name.lexeme@);
                    assert(defs@[t].name.lexeme@ == def.name.lexeme@);
                }
                assert(!field_accepted(bound_in(self.type_names@), defs@, i as int));
                let e = declaration_failure(
                    DeclarationFailure::DuplicateField { name: def.name.lexeme.to_owned() },
                    def.name.span,
                );
                assert(field_failure_fits(defs@, i as int, e));
                return Err(e);
            }
            let t = match self.resolve_type_identifier(&def.type_ident) {
                Ok(t) => t,
                Err(e) => {
                    assert(!field_accepted(bound_in(self.type_names@), defs@, i as int));
                    proof {
                        assert forall|j: int| 0 <= j < i implies (#[trigger] defs@[j]).name.lexeme@ != def.name.lexeme@ by {
                            assert(ms@[j].name@ == defs@.take(i as int)[j].name.lexeme@);
                            assert(meta_names(ms@)[j] == ms@[j].name@);
                        }
                    }
                    assert(field_failure_fits(defs@, i as int, e));
                    return Err(e);
                },
            };
            proof {
                assert forall|j: int| 0 <= j < i implies (#[trigger] defs@[j]).name.lexeme@ != def.name.lexeme@ by {
                    assert(ms@[j].name@ == defs@.take(i as int)[j].name.lexeme@);
                    assert(meta_names(ms@)[j] == ms@[j].name@);
                }
                assert(field_accepted(bound_in(self.type_names@), defs@, i as int));
            }
            let ghost old_ms = ms@;
            fs.push(SemanticField { type_id: TypeId(t) });
            ms.push(FieldMeta { name: def.name.lexeme.to_owned(), type_id: t });
            proof {
                assert(meta_names(ms@) =~= meta_names(old_ms).push(def.name.lexeme@));
                lemma_push_no_duplicates(meta_names(old_ms), def.name.lexeme@);
                assert(defs@.take(i + 1) =~= defs@.take(i as int).push(*def));
            }
            i = i + 1;
        }
        proof {
            assert(defs@.take(i as int) =~= defs@);
        }
        Ok((fs, ms))
    }
}

impl<'a, 'source> Analyzer<'a, 'source> {
    /// The local declaration `d`, placed at `id`, has its members: a struct its
    /// declared fields, an enum its declared variants.
    pub open spec fn local_populated(&self, d: Declaration, id: Option<usize>) -> bool {
        match d {
            Declaration::Struct(st) => id matches Some(t) && {
                &&& self.metas@[t as int] matches TypeMeta::Struct(m)
                &&& self.types@[t as int] matches SemanticType::Struct { fields }
                &&& fields_declared(self.type_names@, st.fields@, m.fields@)
                &&& fields_typed(fields@, m.fields@)
            },
            Declaration::Enum(en) => id matches Some(t) && {
                &&& self.metas@[t as int] matches TypeMeta::Enum(m)
                &&& self.types@[t as int] matches SemanticType::Enum { variants }
                &&& variants_declared(self.type_names@, en.variants@, m.variants@, variants@)
            },
            Declaration::Function(_) => true,
        }
    }

    /// Resolves the declared variants of an enum in order.
    fn resolve_declared_variants(&self, defs: &Vec<EnumVariant>) -> (r: Result<
        (Vec<SemanticVariant>, Vec<VariantMeta>),
        CompileFailure,
    >)
        requires
            self.wf(),
        ensures
            r matches Ok((vs, ms)) ==> {
                &&& variants_declared(self.type_names@, defs@, ms@, vs@)
                &&& forall|i: int| 0 <= i < vs@.len() ==> variant_below(#[trigger] vs@[i], self.types@.len())
                &&& forall|i: int| 0 <= i < ms@.len() ==> variant_meta_below(#[trigger] ms@[i], self.types@.len())
            },
            r is Ok <==> forall|i: int| 0 <= i < defs@.len() ==> #[trigger] variant_accepted(bound_in(self.type_names@), defs@, i),
            r matches Err(e) ==> exists|i: int|
                0 <= i < defs@.len() && !variant_accepted(bound_in(self.type_names@), defs@, i) && variant_failure_fits(
                    bound_in(self.type_names@),
                    defs@,
                    i,
                    e,
                ) && forall|j: int| 0 <= j < i ==> #[trigger] variant_accepted(bound_in(self.type_names@), defs@, j),
    {
        let mut vs: Vec<SemanticVariant> = Vec::new();
        let mut ms: Vec<VariantMeta> = Vec::new();
        let mut i: usize = 0;
        while i < defs.len()
            invariant
                self.wf(),
                i <= defs@.len(),
                variants_declared(self.type_names@, defs@.take(i as int), ms@, vs@),
                forall|j: int| 0 <= j < vs@.len() ==> variant_below(#[trigger] vs@[j], self.types@.len()),
                forall|j: int| 0 <= j < ms@.len() ==> variant_meta_below(#[trigger] ms@[j], self.types@.len()),
                forall|j: int| 0 <= j < i ==> #[trigger] variant_accepted(bound_in(self.type_names@), defs@, j),
            decreases defs@.len() - i,
        {
            let def = &defs[i];
            let name = def.name();
            if !is_valid_pascal_case(name.lexeme) {
                assert(!variant_accepted(bound_in(self.type_names@), defs@, i as int));
                let e = declaration_failure(
                    DeclarationFailure::InvalidNamingConvention { role: SemanticNameRole::Variant },
                    name.span,
                );
                assert(variant_failure_fits(bound_in(self.type_names@), defs@, i as int, e));
                return Err(e);
            }
            if has_variant_name(&ms, name.lexeme) {
                proof {
                    let t = choose|t: int| 0 <= t < variant_meta_names(ms@).len() && variant_meta_names(ms@)[t] == name.lexeme@;
                    assert(variant_declared(self.type_names@, defs@.take(i as int)[t], ms@[t], vs@[t]));
                    assert(defs@[t].spec_name().lexeme@ == name.lexeme@);
                }
                assert(!variant_accepted(bound_in(self.type_names@), defs@, i as int));
                let e = declaration_failure(
                    DeclarationFailure::DuplicateVariant { name: name.lexeme.to_owned() },
                    name.span,
                );
                assert(variant_failure_fits(bound_in(self.type_names@), defs@, i as int, e));
                return Err(e);
            }
            let ghost old_ms = ms@;
            let ghost old_vs = vs@;
            proof {
                assert forall|j: int| 0 <= j < i implies (#[trigger] defs@[j]).spec_name().lexeme@ != name.lexeme@ by {
                    assert(variant_declared(self.type_names@, defs@.take(i as int)[j], ms@[j], vs@[j]));
                    assert(variant_meta_names(ms@)[j] == ms@[j].spec_name());
                }
            }
            match def {
                EnumVariant::Simple { .. } => {
                    vs.push(SemanticVariant::Simple);
                    ms.push(VariantMeta::Simple { name: name.lexeme.to_owned() });
                },
                EnumVariant::Associated { type_ident, .. } => {
                    let t = match self.resolve_type_identifier(type_ident) {
                        Ok(t) => t,
                        Err(e) => {
                            assert(!variant_accepted(bound_in(self.type_names@), defs@, i as int));
                            assert(variant_failure_fits(bound_in(self.type_names@), defs@, i as int, e));
                            return Err(e);
                        },
                    };
                    vs.push(SemanticVariant::Associated { type_id: TypeId(t) });
                    ms.push(VariantMeta::Associated { name: name.lexeme.to_owned(), type_id: t });
                },
                EnumVariant::Structured { fields, .. } => {
                    let (fs, fms) = match self.resolve_declared_fields(fields) {
                        Ok(x) => x,
                        Err(e) => {
                            assert(!variant_accepted(bound_in(self.type_names@), defs@, i as int));
                            assert(variant_failure_fits(bound_in(self.type_names@), defs@, i as int, e));
                            return Err(e);
                        },
                    };
                    vs.push(SemanticVariant::Structured { fields: fs });
                    ms.push(VariantMeta::Structured { name: name.lexeme.to_owned(), fields: fms });
                },
            }
            proof {
                assert(variant_accepted(bound_in(self.type_names@), defs@, i as int));
                assert(variant_meta_names(ms@) =~= variant_meta_names(old_ms).push(name.lexeme@));
                lemma_push_no_duplicates(variant_meta_names(old_ms), name.lexeme@);
                assert(defs@.take(i + 1) =~= defs@.take(i as int).push(*def));
                assert forall|j: int| 0 <= j < ms@.len() implies variant_declared(self.type_names@, defs@.take(i + 1)[j], #[trigger] ms@[j], vs@[j]) by {
                    if j < i {
                        assert(ms@[j] == old_ms[j]);
                        assert(vs@[j] == old_vs[j]);
                        assert(defs@.take(i + 1)[j] == defs@.take(i as int)[j]);
                    }
                }
            }
            i = i + 1;
        }
        proof {
            assert(defs@.take(i as int) =~= defs@);
        }
        Ok((vs, ms))
    }

    /// Fills each local struct and enum with its declared members.
    ///
    /// Fails on the first field or variant whose name breaks its naming rule
    /// or repeats one before it in the same type, or whose type name is not
    /// bound.
    pub(crate) fn populate_local_types(&mut self, ids: &Vec<Option<usize>>) -> (r: Result<(), CompileFailure>)
        requires
            old(self).wf(),
            ids@.len() == old(self).program.declarations@.len(),
            forall|k: int| 0 <= k < ids@.len() ==> old(self).shell_registered(#[trigger] old(self).program.declarations@[k], ids@[k]),
            places_increasing(ids@),
            enums_have_variants(old(self).program.declarations@),
        ensures
            final(self).wf(),
            final(self).same_functions(old(self)),
            final(self).type_names == old(self).type_names,
            final(self).shared_types == old(self).shared_types,
            final(self).signatures == old(self).signatures,
            final(self).shared_signatures == old(self).shared_signatures,
            final(self).signature_names == old(self).signature_names,
            final(self).types@.len() == old(self).types@.len(),
            forall|k: int| 0 <= k < ids@.len() ==> final(self).shell_registered(#[trigger] old(self).program.declarations@[k], ids@[k]),
            r is Ok ==> forall|k: int|
                0 <= k < ids@.len() ==> final(self).local_populated(#[trigger] old(self).program.declarations@[k], ids@[k]),
            r is Ok <==> forall|k: int|
                0 <= k < ids@.len() ==> members_accepted(bound_in(old(self).type_names@), #[trigger] old(self).program.declarations@[k]),
            r matches Err(e) ==> exists|k: int|
                0 <= k < ids@.len() && !members_accepted(bound_in(old(self).type_names@), old(self).program.declarations@[k])
                    && members_failure(bound_in(old(self).type_names@), old(self).program.declarations@[k], e) && forall|j: int|
                    0 <= j < k ==> members_accepted(bound_in(old(self).type_names@), #[trigger] old(self).program.declarations@[j]),
    {
        let program = self.program;
        let mut k: usize = 0;
        while k < program.declarations.len()
            invariant
                self.wf(),
                self.program == program,
                self.same_functions(old(self)),
                self.type_names == old(self).type_names,
                self.shared_types == old(self).shared_types,
                self.signatures == old(self).signatures,
                self.shared_signatures == old(self).shared_signatures,
                self.signature_names == old(self).signature_names,
                self.types@.len() == old(self).types@.len(),
                ids@.len() == program.declarations@.len(),
                places_increasing(ids@),
                enums_have_variants(program.declarations@),
                k <= ids@.len(),
                forall|j: int| 0 <= j < ids@.len() ==> self.shell_registered(#[trigger] program.declarations@[j], ids@[j]),
                forall|j: int| 0 <= j < k ==> self.local_populated(#[trigger] program.declarations@[j], ids@[j]),
                forall|j: int| 0 <= j < k ==> members_accepted(bound_in(old(self).type_names@), #[trigger] program.declarations@[j]),
            decreases ids@.len() - k,
        {
            let ghost before = *self;
            proof {
                assert(self.shell_registered(program.declarations@[k as int], ids@[k as int]));
            }
            match &program.declarations[k] {
                Declaration::Struct(st) => {
                    let t = ids[k].unwrap();
                    let (fs, ms) = match self.resolve_declared_fields(&st.fields) {
                        Ok(x) => x,
                        Err(e) => {
                            assert(!members_accepted(bound_in(old(self).type_names@), program.declarations@[k as int]));
                            assert(members_failure(bound_in(old(self).type_names@), program.declarations@[k as int], e));
                            return Err(e);
                        },
                    };
                    self.types.set(t, SemanticType::Struct { fields: fs });
                    self.metas.set(t, TypeMeta::Struct(StructMeta { fields: ms }));
                    proof {
                        self.lemma_set_wf(&before, t as int);
                    }
                },
                Declaration::Enum(en) => {
                    let t = ids[k].unwrap();
                    let (vs, ms) = match self.resolve_declared_variants(&en.variants) {
                        Ok(x) => x,
                        Err(e) => {
                            assert(!members_accepted(bound_in(old(self).type_names@), program.declarations@[k as int]));
                            assert(members_failure(bound_in(old(self).type_names@), program.declarations@[k as int], e));
                            return Err(e);
                        },
                    };
                    self.types.set(t, SemanticType::Enum { variants: vs });
                    self.metas.set(t, TypeMeta::Enum(EnumMeta { variants: ms }));
                    proof {
                        self.lemma_set_wf(&before, t as int);
                    }
                },
                Declaration::Function(_) => {},
            }
            proof {
                assert forall|j: int| 0 <= j < ids@.len() implies self.shell_registered(#[trigger] program.declarations@[j], ids@[j]) by {
                    assert(before.shell_registered(program.declarations@[j], ids@[j]));
                    if let Some(t) = ids@[j] {
                        if ids@[k as int] is Some && j != k {
                            assert(ids@[j].unwrap() != ids@[k as int].unwrap());
                        }
                    }
                }
                assert forall|j: int| 0 <= j < k + 1 implies self.local_populated(#[trigger] program.declarations@[j], ids@[j]) by {
                    if j < k {
                        assert(before.local_populated(program.declarations@[j], ids@[j]));
                        assert(before.shell_registered(program.declarations@[j], ids@[j]));
                        if ids@[j] is Some && ids@[k as int] is Some {
                            assert(ids@[j].unwrap() < ids@[k as int].unwrap());
                        }
                    }
                }
            }
            k = k + 1;
        }
        Ok(())
    }
}

// --- Containment of local types ---

pub open spec fn field_ids(ms: Seq<FieldMeta>) -> Seq<usize> {
    ms.map_values(|m: FieldMeta| m.type_id)
}

/// The types that a variant's payload holds, in order.
pub open spec fn variant_members(v: VariantMeta) -> Seq<usize> {
    match v {
        VariantMeta::Simple { .. } => Seq::empty(),
        VariantMeta::Associated { type_id, .. } => seq![type_id],
        VariantMeta::Structured { fields, .. } => field_ids(fields@),
    }
}

pub open spec fn variants_members(vs: Seq<VariantMeta>) -> Seq<usize>
    decreases vs.len(),
{
    if vs.len() == 0 {
        Seq::empty()
    } else {
        variants_members(vs.drop_last()) + variant_members(vs.last())
    }
}

/// The types that a value of a type holds directly, in order.
pub open spec fn meta_members(m: TypeMeta) -> Seq<usize> {
    match m {
        TypeMeta::Opaque => Seq::empty(),
        TypeMeta::Struct(s) => field_ids(s.fields@),
        TypeMeta::Enum(e) => variants_members(e.variants@),
    }
}

pub open spec fn is_composite(types: Seq<SemanticType>, t: usize) -> bool {
    &&& (t as int) < types.len()
    &&& (types[t as int] is Struct || types[t as int] is Enum)
}

/// The struct and enum types among `ms`, in order.
pub open spec fn composites(types: Seq<SemanticType>, ms: Seq<usize>) -> Seq<usize>
    decreases ms.len(),
{
    if ms.len() == 0 {
        Seq::empty()
    } else if is_composite(types, ms.last()) {
        composites(types, ms.drop_last()).push(ms.last())
    } else {
        composites(types, ms.drop_last())
    }
}

/// `u` is the place of a local type declaration.
pub open spec fn is_local(ids: Seq<Option<usize>>, u: int) -> bool {
    exists|k: int| 0 <= k < ids.len() && #[trigger] ids[k] == Some(u as usize)
}

/// The containment graph: a local type points to each struct or enum type
/// that its values hold directly; other types point nowhere.
pub open spec fn type_graph(types: Seq<SemanticType>, metas: Seq<TypeMeta>, ids: Seq<Option<usize>>) -> Seq<Seq<usize>> {
    Seq::new(
        types.len(),
        |u: int|
            if is_local(ids, u) {
                composites(types, meta_members(metas[u]))
            } else {
                Seq::empty()
            },
    )
}

/// Some field of `fields` is declared with the type name `n`.
pub open spec fn field_typed_as(fields: Seq<FieldDefinition>, n: Seq<char>) -> bool {
    exists|i: int| 0 <= i < fields.len() && (#[trigger] fields[i]).type_ident.lexeme@ == n
}

/// The variant `v` carries a value of the type named `n`.
pub open spec fn variant_holds(v: EnumVariant, n: Seq<char>) -> bool {
    match v {
        EnumVariant::Simple { .. } => false,
        EnumVariant::Associated { type_ident, .. } => type_ident.lexeme@ == n,
        EnumVariant::Structured { fields, .. } => field_typed_as(fields@, n),
    }
}

/// A value of the local type declared by `d` directly holds a value of the
/// type named `n`.
pub open spec fn declaration_holds(d: Declaration, n: Seq<char>) -> bool {
    match d {
        Declaration::Struct(st) => field_typed_as(st.fields@, n),
        Declaration::Enum(en) => exists|v: int| 0 <= v < en.variants@.len() && variant_holds(#[trigger] en.variants@[v], n),
        Declaration::Function(_) => false,
    }
}

/// The local type declared at `k` directly holds the local type declared
/// at `j`.
pub open spec fn declaration_contains(decls: Seq<Declaration>, k: int, j: int) -> bool {
    local_type_name(decls[j]) matches Some(id) && declaration_holds(decls[k], id.lexeme@)
}

/// Some local types contain one another in a circle: a walk of declarations,
/// each holding the next directly, that returns to where it started.
pub open spec fn local_type_cycle(decls: Seq<Declaration>) -> bool {
    exists|p: Seq<int>|
        {
            &&& p.len() >= 2
            &&& p[0] == p.last()
            &&& forall|i: int|
                0 <= i < p.len() - 1 ==> 0 <= #[trigger] p[i] < decls.len() && 0 <= p[i + 1] < decls.len()
                    && declaration_contains(decls, p[i], p[i + 1])
        }
}

proof fn lemma_composites_has(types: Seq<SemanticType>, ms: Seq<usize>, m: usize)
    requires
        ms.contains(m),
        is_composite(types, m),
    ensures
        composites(types, ms).contains(m),
    decreases ms.len(),
{
    if ms.last() == m {
        assert(composites(types, ms).last() == m);
    } else {
        let i = choose|i: int| 0 <= i < ms.len() && ms[i] == m;
        assert(ms.drop_last()[i] == m);
        lemma_composites_has(types, ms.drop_last(), m);
        let c = composites(types, ms.drop_last());
        let k = choose|k: int| 0 <= k < c.len() && c[k] == m;
        if is_composite(types, ms.last()) {
            assert(composites(types, ms)[k] == m);
        }
    }
}

proof fn lemma_variants_members_has(vs: Seq<VariantMeta>, i: int, m: usize)
    requires
        0 <= i < vs.len(),
        variant_members(vs[i]).contains(m),
    ensures
        variants_members(vs).contains(m),
    decreases vs.len(),
{
    let a = variants_members(vs.drop_last());
    let b = variant_members(vs.last());
    if i == vs.len() - 1 {
        let k = choose|k: int| 0 <= k < b.len() && b[k] == m;
        assert((a + b)[a.len() + k] == m);
    } else {
        assert(vs.drop_last()[i] == vs[i]);
        lemma_variants_members_has(vs.drop_last(), i, m);
        let k = choose|k: int| 0 <= k < a.len() && a[k] == m;
        assert((a + b)[k] == m);
    }
}

proof fn lemma_field_ids_has(type_names: Seq<NamedIndex>, defs: Seq<FieldDefinition>, ms: Seq<FieldMeta>, n: Seq<char>, t: usize)
    requires
        fields_declared(type_names, defs, ms),
        field_typed_as(defs, n),
        lookup(type_names, n) == Some(t),
    ensures
        field_ids(ms).contains(t),
{
    let i = choose|i: int| 0 <= i < defs.len() && (#[trigger] defs[i]).type_ident.lexeme@ == n;
    assert(ms[i].name@ == defs[i].name.lexeme@);
    assert(field_ids(ms)[i] == t);
}

/// Where a local type is declared: its name's span.
pub open spec fn declared_name_span(d: Declaration) -> SourceSpan {
    match d {
        Declaration::Struct(st) => st.name.span,
        Declaration::Enum(en) => en.name.span,
        Declaration::Function(f) => f.name.span,
    }
}

proof fn lemma_composites_valid(types: Seq<SemanticType>, ms: Seq<usize>)
    ensures
        forall|i: int| 0 <= i < composites(types, ms).len() ==> is_composite(types, #[trigger] composites(types, ms)[i]),
    decreases ms.len(),
{
    if ms.len() > 0 {
        lemma_composites_valid(types, ms.drop_last());
        let rest = composites(types, ms.drop_last());
        assert forall|i: int| 0 <= i < composites(types, ms).len() implies is_composite(types, #[trigger] composites(types, ms)[i]) by {
            if i < rest.len() {
                assert(composites(types, ms)[i] == rest[i]);
            }
        }
    }
}

fn field_ids_of(ms: &Vec<FieldMeta>, out: &mut Vec<usize>)
    ensures
        final(out)@ == old(out)@ + field_ids(ms@),
{
    let mut i: usize = 0;
    while i < ms.len()
        invariant
            i <= ms@.len(),
            out@ == old(out)@ + field_ids(ms@.take(i as int)),
        decreases ms@.len() - i,
    {
        out.push(ms[i].type_id);
        proof {
            assert(field_ids(ms@.take(i + 1)) =~= field_ids(ms@.take(i as int)).push(ms@[i as int].type_id));
        }
        i = i + 1;
    }
    proof {
        assert(ms@.take(i as int) =~= ms@);
    }
}

/// The types that a value of a type with metadata `m` holds directly.
fn meta_members_of(m: &TypeMeta) -> (r: Vec<usize>)
    ensures
        r@ == meta_members(*m),
{
    let mut out: Vec<usize> = Vec::new();
    match m {
        TypeMeta::Opaque => {},
        TypeMeta::Struct(st) => {
            field_ids_of(&st.fields, &mut out);
        },
        TypeMeta::Enum(en) => {
            let mut i: usize = 0;
            while i < en.variants.len()
                invariant
                    i <= en.variants@.len(),
                    out@ == variants_members(en.variants@.take(i as int)),
                decreases en.variants@.len() - i,
            {
                let ghost before = out@;
                match &en.variants[i] {
                    VariantMeta::Simple { .. } => {},
                    VariantMeta::Associated { type_id, .. } => {
                        out.push(*type_id);
                    },
                    VariantMeta::Structured { fields, .. } => {
                        field_ids_of(fields, &mut out);
                    },
                }
                proof {
                    assert(en.variants@.take(i + 1).drop_last() =~= en.variants@.take(i as int));
                    assert(out@ =~= before + variant_members(en.variants@[i as int]));
                }
                i = i + 1;
            }
            proof {
                assert(en.variants@.take(i as int) =~= en.variants@);
            }
        },
    }
    proof {
        if m is Opaque {
            assert(out@ =~= Seq::<usize>::empty());
        }
        if let TypeMeta::Struct(st) = m {
            assert(out@ =~= field_ids(st.fields@));
        }
    }
    out
}

/// The struct and enum types among `ms`, in order.
fn composites_of(types: &Vec<SemanticType>, ms: &Vec<usize>) -> (r: Vec<usize>)
    ensures
        r@ == composites(types@, ms@),
{
    let mut out: Vec<usize> = Vec::new();
    let mut i: usize = 0;
    while i < ms.len()
        invariant
            i <= ms@.len(),
            out@ == composites(types@, ms@.take(i as int)),
        decreases ms@.len() - i,
    {
        proof {
            assert(ms@.take(i + 1).drop_last() =~= ms@.take(i as int));
            assert(ms@.take(i + 1).last() == ms@[i as int]);
        }
        let t = ms[i];
        if t < types.len() {
            match &types[t] {
                SemanticType::Struct { .. } => out.push(t),
                SemanticType::Enum { .. } => out.push(t),
                SemanticType::Native(_) => {},
            }
        }
        i = i + 1;
    }
    proof {
        assert(ms@.take(i as int) =~= ms@);
    }
    out
}




impl<'a, 'source> Analyzer<'a, 'source> {
    /// A local type that directly holds another local type has an edge to it
    /// in the containment graph.
    pub proof fn lemma_contains_edge(&self, ids: Seq<Option<usize>>, k: int, j: int)
        requires
            self.wf(),
            ids.len() == self.program.declarations@.len(),
            forall|x: int| 0 <= x < ids.len() ==> self.shell_registered(#[trigger] self.program.declarations@[x], ids[x]),
            forall|x: int| 0 <= x < ids.len() ==> self.local_populated(#[trigger] self.program.declarations@[x], ids[x]),
            0 <= k < ids.len(),
            0 <= j < ids.len(),
            declaration_contains(self.program.declarations@, k, j),
        ensures
            ids[k] is Some,
            ids[j] is Some,
            edge(type_graph(self.types@, self.metas@, ids), ids[k]->0 as int, ids[j]->0 as int),
    {
        let decls = self.program.declarations@;
        assert(self.shell_registered(decls[j], ids[j]));
        assert(self.shell_registered(decls[k], ids[k]));
        assert(self.local_populated(decls[k], ids[k]));
        let n = local_type_name(decls[j])->0.lexeme@;
        let tj = ids[j]->0;
        let tk = ids[k]->0;
        assert(lookup(self.type_names@, n) == Some(tj));
        lemma_lookup_below(self.type_names@, n, self.types@.len());
        assert(is_composite(self.types@, tj));
        match decls[k] {
            Declaration::Struct(st) => {
                let m = self.metas@[tk as int]->Struct_0;
                lemma_field_ids_has(self.type_names@, st.fields@, m.fields@, n, tj);
            },
            Declaration::Enum(en) => {
                let m = self.metas@[tk as int]->Enum_0;
                let v = choose|v: int| 0 <= v < en.variants@.len() && variant_holds(#[trigger] en.variants@[v], n);
                assert(variant_declared(self.type_names@, en.variants@[v], m.variants@[v], self.types@[tk as int]->variants@[v]));
                match en.variants@[v] {
                    EnumVariant::Associated { .. } => {
                        assert(variant_members(m.variants@[v])[0] == tj);
                    },
                    EnumVariant::Structured { fields, .. } => {
                        let fm = m.variants@[v]->Structured_fields;
                        lemma_field_ids_has(self.type_names@, fields@, fm@, n, tj);
                    },
                    EnumVariant::Simple { .. } => {},
                }
                lemma_variants_members_has(m.variants@, v, tj);
            },
            Declaration::Function(_) => {},
        }
        lemma_composites_has(self.types@, meta_members(self.metas@[tk as int]), tj);
        assert(ids[k] == Some(tk));
        assert(is_local(ids, tk as int));
        let g = type_graph(self.types@, self.metas@, ids);
        assert(g[tk as int] == composites(self.types@, meta_members(self.metas@[tk as int])));
        let c = g[tk as int];
        let idx = choose|idx: int| 0 <= idx < c.len() && c[idx] == tj;
        assert(0 <= idx < g[tk as int].len() && g[tk as int][idx] as int == tj as int);
    }

    /// Rejects a local type that contains itself, directly or through other
    /// types: by value, such a type would have no finite size.
    ///
    /// The error names the first local declaration, in declaration order,
    /// from which a cycle of the containment graph can be reached.
    pub(crate) fn validate_recursive_type_cycles(&self, ids: &Vec<Option<usize>>) -> (r: Result<(), CompileFailure>)
        requires
            self.wf(),
            ids@.len() == self.program.declarations@.len(),
            forall|k: int| 0 <= k < ids@.len() ==> self.shell_registered(#[trigger] self.program.declarations@[k], ids@[k]),
            places_increasing(ids@),
        ensures
            ({
                let g = type_graph(self.types@, self.metas@, ids@);
                match r {
                    Ok(()) => forall|k: int|
                        0 <= k < ids@.len() && #[trigger] ids@[k] is Some ==> !cycle_reachable(g, ids@[k].unwrap() as int),
                    Err(e) => exists|k: int| {
                        &&& 0 <= k < ids@.len()
                        &&& #[trigger] ids@[k] is Some
                        &&& cycle_reachable(g, ids@[k].unwrap() as int)
                        &&& forall|j: int| 0 <= j < k && #[trigger] ids@[j] is Some ==> !cycle_reachable(g, ids@[j].unwrap() as int)
                        &&& e == semantic_failure(
                            SemanticFailure::Declaration(DeclarationFailure::RecursiveTypeCycle),
                            declared_name_span(self.program.declarations@[k]),
                        )
                    },
                }
            }),
    {
        let ghost g = type_graph(self.types@, self.metas@, ids@);
        let n = self.types.len();
        let mut adj: Vec<Vec<usize>> = Vec::new();
        let mut u: usize = 0;
        while u < n
            invariant
                n == self.types@.len(),
                u <= n,
                adj@.len() == u,
                forall|v: int| 0 <= v < u ==> (#[trigger] adj@[v])@.len() == 0,
            decreases n - u,
        {
            adj.push(Vec::new());
            u = u + 1;
        }
        let mut roots: Vec<usize> = Vec::new();
        let mut root_decls: Vec<usize> = Vec::new();
        let mut k: usize = 0;
        while k < ids.len()
            invariant
                self.wf(),
                n == self.types@.len(),
                g == type_graph(self.types@, self.metas@, ids@),
                ids@.len() == self.program.declarations@.len(),
                forall|j: int| 0 <= j < ids@.len() ==> self.shell_registered(#[trigger] self.program.declarations@[j], ids@[j]),
                places_increasing(ids@),
                k <= ids@.len(),
                adj@.len() == n,
                forall|v: int|
                    0 <= v < n ==> (#[trigger] adj@[v])@ == if is_local(ids@.take(k as int), v) {
                        g[v]
                    } else {
                        Seq::empty()
                    },
                roots@.len() == root_decls@.len(),
                forall|i: int| 0 <= i < roots@.len() ==> (#[trigger] root_decls@[i] as int) < k,
                forall|i: int| 0 <= i < roots@.len() ==> ids@[#[trigger] root_decls@[i] as int] == Some(roots@[i]),
                forall|i: int, j: int| 0 <= i < j < roots@.len() ==> #[trigger] root_decls@[i] < #[trigger] root_decls@[j],
                forall|j: int| 0 <= j < k && #[trigger] ids@[j] is Some ==> exists|i: int| 0 <= i < roots@.len() && #[trigger] root_decls@[i] == j,
                forall|i: int| 0 <= i < roots@.len() ==> (#[trigger] roots@[i] as int) < n,
            decreases ids@.len() - k,
        {
            if let Some(t) = ids[k] {
                proof {
                    assert(self.shell_registered(self.program.declarations@[k as int], ids@[k as int]));
                }
                let members = meta_members_of(&self.metas[t]);
                let comps = composites_of(&self.types, &members);
                let ghost before = adj@;
                let ghost old_rd = root_decls@;
                adj.set(t, comps);
                roots.push(t);
                root_decls.push(k);
                proof {
                    assert(is_local(ids@, t as int)) by {
                        assert(ids@[k as int] == Some(t));
                    }
                    assert forall|v: int|
                        0 <= v < n implies (#[trigger] adj@[v])@ == if is_local(ids@.take(k + 1), v) {
                            g[v]
                        } else {
                            Seq::empty()
                        } by {
                        if v == t {
                            assert(ids@.take(k + 1)[k as int] == Some(t));
                        } else {
                            assert(adj@[v] == before[v]);
                            if is_local(ids@.take(k + 1), v) {
                                let j = choose|j: int| 0 <= j < k + 1 && #[trigger] ids@.take(k + 1)[j] == Some(v as usize);
                                assert(j != k);
                                assert(ids@.take(k as int)[j] == Some(v as usize));
                            }
                            if is_local(ids@.take(k as int), v) {
                                let j = choose|j: int| 0 <= j < k && #[trigger] ids@.take(k as int)[j] == Some(v as usize);
                                assert(ids@.take(k + 1)[j] == Some(v as usize));
                            }
                        }
                    }
                    assert forall|j: int| 0 <= j < k + 1 && #[trigger] ids@[j] is Some implies exists|i: int| 0 <= i < roots@.len() && #[trigger] root_decls@[i] == j by {
                        if j == k {
                            assert(root_decls@[roots@.len() - 1] == j);
                        } else {
                            let i = choose|i: int| 0 <= i < old_rd.len() && #[trigger] old_rd[i] == j;
                            assert(root_decls@[i] == old_rd[i]);
                        }
                    }
                }
            } else {
                proof {
                    assert forall|v: int|
                        0 <= v < n implies (#[trigger] adj@[v])@ == if is_local(ids@.take(k + 1), v) {
                            g[v]
                        } else {
                            Seq::empty()
                        } by {
                        if is_local(ids@.take(k + 1), v) {
                            let j = choose|j: int| 0 <= j < k + 1 && #[trigger] ids@.take(k + 1)[j] == Some(v as usize);
                            assert(j != k);
                            assert(ids@.take(k as int)[j] == Some(v as usize));
                        }
                        if is_local(ids@.take(k as int), v) {
                            let j = choose|j: int| 0 <= j < k && #[trigger] ids@.take(k as int)[j] == Some(v as usize);
                            assert(ids@.take(k + 1)[j] == Some(v as usize));
                        }
                    }
                }
            }
            k = k + 1;
        }
        proof {
            assert(ids@.take(k as int) =~= ids@);
            assert(adj@.map_values(|l: Vec<usize>| l@) =~= g);
            assert forall|v: int, j: int| 0 <= v < g.len() && 0 <= j < g[v].len() implies (#[trigger] g[v][j] as int) < g.len() by {
                if is_local(ids@, v) {
                    lemma_composites_valid(self.types@, meta_members(self.metas@[v]));
                    assert(is_composite(self.types@, composites(self.types@, meta_members(self.metas@[v]))[j]));
                }
            }
        }
        match find_cycle(&adj, &roots) {
            None => {
                proof {
                    assert forall|j: int| 0 <= j < ids@.len() && #[trigger] ids@[j] is Some implies !cycle_reachable(g, ids@[j].unwrap() as int) by {
                        let i = choose|i: int| 0 <= i < roots@.len() && #[trigger] root_decls@[i] == j;
                        assert(!cycle_reachable(g, roots@[i] as int));
                    }
                }
                Ok(())
            },
            Some((i, u, kk)) => {
                let d = root_decls[i];
                let span = match &self.program.declarations[d] {
                    Declaration::Struct(st) => st.name.span,
                    Declaration::Enum(en) => en.name.span,
                    Declaration::Function(f) => f.name.span,
                };
                proof {
                    let v = g[u as int][kk as int] as int;
                    assert(edge(g, u as int, v));
                    assert(cycle_reachable(g, roots@[i as int] as int));
                    assert(ids@[d as int] == Some(roots@[i as int]));
                    assert forall|j: int| 0 <= j < d && #[trigger] ids@[j] is Some implies !cycle_reachable(g, ids@[j].unwrap() as int) by {
                        let ii = choose|ii: int| 0 <= ii < roots@.len() && #[trigger] root_decls@[ii] == j;
                        if ii >= i {
                            if ii > i {
                                assert(root_decls@[i as int] < root_decls@[ii]);
                            }
                        }
                        assert(ii < i);
                        assert(!cycle_reachable(g, roots@[ii] as int));
                    }
                }
                Err(
                    fail(
                        SemanticFailure::Declaration(DeclarationFailure::RecursiveTypeCycle),
                        span,
                    ),
                )
            },
        }
    }
}

// --- Signature satisfaction ---

/// A formal parameter takes the place of a signature's parameter: same kind,
/// and the same type or the same signature.
pub open spec fn param_satisfies(p: FormalParamMeta, e: SemanticSignatureParameter) -> bool {
    match (p, e) {
        (FormalParamMeta::Value { type_id, .. }, SemanticSignatureParameter::Value(t)) => type_id == t.0,
        (
            FormalParamMeta::SignatureDependency { signature_id, .. },
            SemanticSignatureParameter::SignatureDependency(d),
        ) => signature_id == d.0,
        _ => false,
    }
}

/// The parameters match the signature's one by one.
pub open spec fn params_satisfy(ps: Seq<FormalParamMeta>, sig: SemanticSignature) -> bool {
    &&& ps.len() == sig.parameters@.len()
    &&& forall|i: int| 0 <= i < ps.len() ==> param_satisfies(#[trigger] ps[i], sig.parameters@[i])
}

/// How a function fails to satisfy a signature: the first of name, parameter
/// count, parameters in order, and result that differs.
pub open spec fn mismatch_explained(
    name: Seq<char>,
    ps: Seq<FormalParamMeta>,
    result_type: usize,
    sig: SemanticSignature,
    sym_name: Seq<char>,
    m: SignatureMismatchKind,
) -> bool {
    match m {
        SignatureMismatchKind::FunctionName => name != sym_name,
        SignatureMismatchKind::ParameterCount { expected, actual } => {
            &&& name == sym_name
            &&& expected == sig.parameters@.len()
            &&& actual == ps.len()
            &&& expected != actual
        },
        SignatureMismatchKind::ResultType { .. } => {
            &&& name == sym_name
            &&& params_satisfy(ps, sig)
            &&& result_type != sig.result_type.0
        },
        SignatureMismatchKind::ParameterKind { position, .. } => first_param_mismatch(name, ps, sig, sym_name, position as int),
        SignatureMismatchKind::ValueParameterType { position, .. } => first_param_mismatch(name, ps, sig, sym_name, position as int),
        SignatureMismatchKind::SignatureDependency { position, .. } => first_param_mismatch(name, ps, sig, sym_name, position as int),
    }
}

/// The details a mismatch carries: at a parameter, which kinds or which
/// types or signatures the function and the signature have there; at the
/// result, the signature's and the function's result types.
pub open spec fn mismatch_details(
    ps: Seq<FormalParamMeta>,
    result_type: usize,
    sig: SemanticSignature,
    descs: Seq<SemanticTypeDescriptor>,
    sigs: Seq<SemanticSignature>,
    m: SignatureMismatchKind,
) -> bool {
    match m {
        SignatureMismatchKind::ResultType { expected, actual } => expected == descs[sig.result_type.0 as int] && actual
            == descs[result_type as int],
        SignatureMismatchKind::ParameterKind { position, expected, actual } => match (
            ps[position as int],
            sig.parameters@[position as int],
        ) {
            (FormalParamMeta::Value { .. }, SemanticSignatureParameter::SignatureDependency(_)) => expected
                == SemanticArgumentKind::SignatureDependency && actual == SemanticArgumentKind::Value,
            (FormalParamMeta::SignatureDependency { .. }, SemanticSignatureParameter::Value(_)) => expected
                == SemanticArgumentKind::Value && actual == SemanticArgumentKind::SignatureDependency,
            _ => false,
        },
        SignatureMismatchKind::ValueParameterType { position, expected, actual } => match (
            ps[position as int],
            sig.parameters@[position as int],
        ) {
            (FormalParamMeta::Value { type_id, .. }, SemanticSignatureParameter::Value(t)) => expected == descs[t.0 as int]
                && actual == descs[type_id as int],
            _ => false,
        },
        SignatureMismatchKind::SignatureDependency { position, expected, actual } => match (
            ps[position as int],
            sig.parameters@[position as int],
        ) {
            (
                FormalParamMeta::SignatureDependency { signature_id, .. },
                SemanticSignatureParameter::SignatureDependency(d),
            ) => expected == sigs[d.0 as int].symbol && actual == sigs[signature_id as int].symbol,
            _ => false,
        },
        _ => true,
    }
}

pub open spec fn first_param_mismatch(
    name: Seq<char>,
    ps: Seq<FormalParamMeta>,
    sig: SemanticSignature,
    sym_name: Seq<char>,
    position: int,
) -> bool {
    &&& name == sym_name
    &&& ps.len() == sig.parameters@.len()
    &&& 0 <= position < ps.len()
    &&& forall|j: int| 0 <= j < position ==> param_satisfies(#[trigger] ps[j], sig.parameters@[j])
    &&& !param_satisfies(ps[position], sig.parameters@[position])
}

impl<'a, 'source> Analyzer<'a, 'source> {
    /// Checks that a function satisfies the signature it claims: the same
    /// name, the same parameters in order, the same result.
    fn validate_signature_satisfaction(
        &self,
        fn_def: &FunctionDefinition,
        params: &Vec<FormalParamMeta>,
        result_type: usize,
        sig_id: usize,
        sig_sym: &SignatureSymbol,
        sat_name: &QualifiedName,
    ) -> (r: Result<(), CompileFailure>)
        requires
            self.wf(),
            (sig_id as int) < self.signatures@.len(),
            (result_type as int) < self.types@.len(),
            params_below(params@, self.types@.len(), self.signatures@.len()),
        ensures
            ({
                let sig = self.signatures@[sig_id as int];
                r is Ok <==> {
                    &&& fn_def.name.lexeme@ == sig_sym.name@
                    &&& params_satisfy(params@, sig)
                    &&& result_type == sig.result_type.0
                }
            }),
            r matches Err(e) ==> e.kind matches CompileFailureKind::Semantic(
                SemanticFailure::SignatureMismatch { signature, mismatch },
            ) && signature == *sig_sym && mismatch_explained(
                fn_def.name.lexeme@,
                params@,
                result_type,
                self.signatures@[sig_id as int],
                sig_sym.name@,
                mismatch,
            ) && mismatch_details(
                params@,
                result_type,
                self.signatures@[sig_id as int],
                self.type_descriptors@,
                self.signatures@,
                mismatch,
            ),
    {
        let sat_span = join_spans(sat_name.qualifier.span, sat_name.name.span);
        if !same_text(fn_def.name.lexeme, sig_sym.name.as_str()) {
            return Err(
                fail(
                    SemanticFailure::SignatureMismatch {
                        signature: clone_signature_symbol(sig_sym),
                        mismatch: SignatureMismatchKind::FunctionName,
                    },
                    fn_def.name.span,
                ),
            );
        }
        let sig = &self.signatures[sig_id];
        if params.len() != sig.parameters.len() {
            return Err(
                fail(
                    SemanticFailure::SignatureMismatch {
                        signature: clone_signature_symbol(sig_sym),
                        mismatch: SignatureMismatchKind::ParameterCount {
                            expected: sig.parameters.len(),
                            actual: params.len(),
                        },
                    },
                    sat_span,
                ),
            );
        }
        proof {
            assert(signature_below(*sig, self.types@.len(), self.signatures@.len()));
        }
        let mut i: usize = 0;
        while i < params.len()
            invariant
                self.wf(),
                sig == &self.signatures@[sig_id as int],
                signature_below(*sig, self.types@.len(), self.signatures@.len()),
                params_below(params@, self.types@.len(), self.signatures@.len()),
                fn_def.name.lexeme@ == sig_sym.name@,
                params@.len() == sig.parameters@.len(),
                i <= params@.len(),
                forall|j: int| 0 <= j < i ==> param_satisfies(#[trigger] params@[j], sig.parameters@[j]),
            decreases params@.len() - i,
        {
            proof {
                assert(param_below(params@[i as int], self.types@.len(), self.signatures@.len()));
            }
            match (&params[i], &sig.parameters[i]) {
                (FormalParamMeta::Value { type_id, span, .. }, SemanticSignatureParameter::Value(expected)) => {
                    if *type_id != expected.0 {
                        return Err(
                            fail(
                                SemanticFailure::SignatureMismatch {
                                    signature: clone_signature_symbol(sig_sym),
                                    mismatch: SignatureMismatchKind::ValueParameterType {
                                        position: i,
                                        expected: clone_type_descriptor(&self.type_descriptors[expected.0]),
                                        actual: clone_type_descriptor(&self.type_descriptors[*type_id]),
                                    },
                                },
                                *span,
                            ),
                        );
                    }
                },
                (
                    FormalParamMeta::SignatureDependency { signature_id, span, .. },
                    SemanticSignatureParameter::SignatureDependency(expected),
                ) => {
                    if *signature_id != expected.0 {
                        return Err(
                            fail(
                                SemanticFailure::SignatureMismatch {
                                    signature: clone_signature_symbol(sig_sym),
                                    mismatch: SignatureMismatchKind::SignatureDependency {
                                        position: i,
                                        expected: clone_signature_symbol(&self.signatures[expected.0].symbol),
                                        actual: clone_signature_symbol(&self.signatures[*signature_id].symbol),
                                    },
                                },
                                *span,
                            ),
                        );
                    }
                },
                (FormalParamMeta::Value { span, .. }, SemanticSignatureParameter::SignatureDependency(_)) => {
                    return Err(
                        fail(
                            SemanticFailure::SignatureMismatch {
                                signature: clone_signature_symbol(sig_sym),
                                mismatch: SignatureMismatchKind::ParameterKind {
                                    position: i,
                                    expected: SemanticArgumentKind::SignatureDependency,
                                    actual: SemanticArgumentKind::Value,
                                },
                            },
                            *span,
                        ),
                    );
                },
                (FormalParamMeta::SignatureDependency { span, .. }, SemanticSignatureParameter::Value(_)) => {
                    return Err(
                        fail(
                            SemanticFailure::SignatureMismatch {
                                signature: clone_signature_symbol(sig_sym),
                                mismatch: SignatureMismatchKind::ParameterKind {
                                    position: i,
                                    expected: SemanticArgumentKind::Value,
                                    actual: SemanticArgumentKind::SignatureDependency,
                                },
                            },
                            *span,
                        ),
                    );
                },
            }
            i = i + 1;
        }
        if result_type != sig.result_type.0 {
            return Err(
                fail(
                    SemanticFailure::SignatureMismatch {
                        signature: clone_signature_symbol(sig_sym),
                        mismatch: SignatureMismatchKind::ResultType {
                            expected: clone_type_descriptor(&self.type_descriptors[sig.result_type.0]),
                            actual: clone_type_descriptor(&self.type_descriptors[result_type]),
                        },
                    },
                    fn_def.result_type.span,
                ),
            );
        }
        Ok(())
    }
}

// --- Function headers ---

/// The function definitions among the declarations, in order.
pub open spec fn function_definitions<'s>(ds: Seq<Declaration<'s>>) -> Seq<FunctionDefinition<'s>>
    decreases ds.len(),
{
    if ds.len() == 0 {
        Seq::empty()
    } else {
        let rest = function_definitions(ds.drop_last());
        match ds.last() {
            Declaration::Function(f) => rest.push(f),
            _ => rest,
        }
    }
}

pub open spec fn qualified_key(q: QualifiedName) -> (Seq<char>, Seq<char>) {
    (q.qualifier.lexeme@, q.name.lexeme@)
}

/// Only one position of the catalog holds a signature under `key`.
pub open spec fn signature_key_single(c: &CompilationCatalog, key: (Seq<char>, Seq<char>)) -> bool {
    forall|i: int, j: int|
        0 <= i < c.signature_keys().len() && 0 <= j < c.signature_keys().len() && #[trigger] c.signature_keys()[i] == key
            && #[trigger] c.signature_keys()[j] == key ==> i == j
}

/// The name a declared parameter is bound under.
pub open spec fn parameter_name(p: Parameter) -> Identifier {
    match p {
        Parameter::Value(b) => b.name,
        Parameter::SignatureDependency { name, .. } => name,
    }
}

/// The parameter declared at `k` can be resolved: its name is snake case and
/// unlike every earlier parameter's, and its type is bound in `type_names`,
/// or the signature it depends on is in the catalog.
pub open spec fn parameter_accepted(
    bound: spec_fn(Seq<char>) -> bool,
    catalog: CompilationCatalog,
    ps: Seq<Parameter>,
    k: int,
) -> bool {
    let n = parameter_name(ps[k]).lexeme@;
    &&& snake_case(n)
    &&& forall|j: int| 0 <= j < k ==> (#[trigger] parameter_name(ps[j])).lexeme@ != n
    &&& match ps[k] {
        Parameter::Value(b) => bound(b.type_ident.lexeme@),
        Parameter::SignatureDependency { signature, .. } => catalog.has_signature(qualified_key(signature)),
    }
}

/// The failure reported for the parameter declared at `k`, the first
/// refused: a name against the rule, a name that an earlier parameter has,
/// an unknown type, or a signature that the catalog lacks.
pub open spec fn parameter_failure_fits(ps: Seq<Parameter>, k: int, e: CompileFailure) -> bool {
    let n = parameter_name(ps[k]);
    if !snake_case(n.lexeme@) {
        e == semantic_failure(
            SemanticFailure::Declaration(
                DeclarationFailure::InvalidNamingConvention {
                    role: if ps[k] is Value {
                        SemanticNameRole::Binding
                    } else {
                        SemanticNameRole::SignatureDependency
                    },
                },
            ),
            n.span,
        )
    } else if exists|j: int| 0 <= j < k && (#[trigger] parameter_name(ps[j])).lexeme@ == n.lexeme@ {
        e.source_span == n.span && (e.kind matches CompileFailureKind::Semantic(
            SemanticFailure::Declaration(DeclarationFailure::BindingNameCollision { name }),
        ) && name@ == n.lexeme@)
    } else {
        match ps[k] {
            Parameter::Value(b) => e.source_span == b.type_ident.span && (e.kind matches CompileFailureKind::Semantic(
                SemanticFailure::Resolution(ResolutionFailure::UnknownType { name }),
            ) && name@ == b.type_ident.lexeme@),
            Parameter::SignatureDependency { signature, .. } => e.source_span == (SourceSpan {
                start: signature.qualifier.span.start,
                end: signature.name.span.end,
            }) && (e.kind matches CompileFailureKind::Semantic(
                SemanticFailure::Resolution(ResolutionFailure::UnknownSignature(sym)),
            ) && sym.module@ == signature.qualifier.lexeme@ && sym.name@ == signature.name.lexeme@),
        }
    }
}

pub open spec fn formal_param_name(p: FormalParamMeta) -> Seq<char> {
    match p {
        FormalParamMeta::Value { name, .. } => name@,
        FormalParamMeta::SignatureDependency { name, .. } => name@,
    }
}

pub open spec fn formal_param_names(ps: Seq<FormalParamMeta>) -> Seq<Seq<char>> {
    ps.map_values(|p: FormalParamMeta| formal_param_name(p))
}

/// Whether a parameter of `ps` is named `name`.
fn has_param_name(ps: &Vec<FormalParamMeta>, name: &str) -> (r: bool)
    ensures
        r == formal_param_names(ps@).contains(name@),
{
    let mut i: usize = 0;
    while i < ps.len()
        invariant
            i <= ps@.len(),
            forall|j: int| 0 <= j < i ==> formal_param_name(ps@[j]) != name@,
        decreases ps@.len() - i,
    {
        let n = match &ps[i] {
            FormalParamMeta::Value { name, .. } => name.as_str(),
            FormalParamMeta::SignatureDependency { name, .. } => name.as_str(),
        };
        if same_text(n, name) {
            assert(formal_param_names(ps@)[i as int] == name@);
            return true;
        }
        i = i + 1;
    }
    proof {
        if formal_param_names(ps@).contains(name@) {
            let j = choose|j: int| 0 <= j < formal_param_names(ps@).len() && formal_param_names(ps@)[j] == name@;
            assert(formal_param_name(ps@[j]) == name@);
        }
    }
    false
}

impl<'a, 'source> Analyzer<'a, 'source> {
    /// A formal parameter follows its declaration: same name, snake case, and
    /// the type bound to its type name or the signature it names.
    pub open spec fn param_declared(&self, d: Parameter, p: FormalParamMeta) -> bool {
        match d {
            Parameter::Value(b) => p matches FormalParamMeta::Value { name, type_id, span } && {
                &&& name@ == b.name.lexeme@
                &&& span == b.name.span
                &&& snake_case(b.name.lexeme@)
                &&& lookup(self.type_names@, b.type_ident.lexeme@) == Some(type_id)
            },
            Parameter::SignatureDependency { signature, name: n } => p matches FormalParamMeta::SignatureDependency {
                name,
                signature_id,
                span,
            } && {
                &&& name@ == n.lexeme@
                &&& span == n.span
                &&& snake_case(n.lexeme@)
                &&& (signature_id as int) < self.signatures@.len()
                &&& self.signatures@[signature_id as int].symbol.key() == qualified_key(signature)
            },
        }
    }

    /// The header of the function at position `i` follows its definition:
    /// its name is snake case and bound to `i`, its parameters follow the
    /// declared ones under distinct names, its result is the type bound to the
    /// result type's name, and a signature it claims is one it satisfies.
    pub open spec fn header_declared(&self, h: FunctionHeader, f: FunctionDefinition, i: int) -> bool {
        &&& *h.ast == f
        &&& snake_case(f.name.lexeme@)
        &&& lookup(self.function_names@, f.name.lexeme@) == Some(i as usize)
        &&& h.parameters@.len() == f.parameters@.len()
        &&& forall|k: int| 0 <= k < h.parameters@.len() ==> self.param_declared(f.parameters@[k], #[trigger] h.parameters@[k])
        &&& formal_param_names(h.parameters@).no_duplicates()
        &&& lookup(self.type_names@, f.result_type.lexeme@) == Some(h.result_type)
        &&& match f.satisfaction {
            None => h.satisfaction is None,
            Some(q) => h.satisfaction matches Some((sid, sym)) && {
                &&& sym.key() == qualified_key(q)
                &&& (sid as int) < self.signatures@.len()
                &&& self.signatures@[sid as int].symbol.key() == qualified_key(q)
                &&& f.name.lexeme@ == sym.name@
                &&& params_satisfy(h.parameters@, self.signatures@[sid as int])
                &&& h.result_type == self.signatures@[sid as int].result_type.0
            },
        }
    }

    /// A signature dependency `p` declared by `d` refers to the place of the
    /// catalog signature it names, which only that catalog position has.
    pub open spec fn param_placed(&self, d: Parameter, p: FormalParamMeta) -> bool {
        match (d, p) {
            (
                Parameter::SignatureDependency { signature, .. },
                FormalParamMeta::SignatureDependency { signature_id, .. },
            ) => self.signature_placed(qualified_key(signature), signature_id) && signature_key_single(
                self.catalog,
                qualified_key(signature),
            ),
            _ => true,
        }
    }

    /// The declared parameter `d` matches the signature's parameter `e`: a
    /// value of the type its type name is bound to, or a dependency on the
    /// place of the catalog signature it names.
    pub open spec fn param_meets(&self, d: Parameter, e: SemanticSignatureParameter) -> bool {
        match (d, e) {
            (Parameter::Value(b), SemanticSignatureParameter::Value(t)) => lookup(self.type_names@, b.type_ident.lexeme@)
                == Some(t.0),
            (
                Parameter::SignatureDependency { signature, .. },
                SemanticSignatureParameter::SignatureDependency(x),
            ) => self.signature_placed(qualified_key(signature), x.0),
            _ => false,
        }
    }

    /// The function `f` satisfies the catalog signature `q` as placed in the
    /// tables: the same name, parameters that match one by one, and the
    /// signature's result as the type its result type name is bound to.
    pub open spec fn claim_met(&self, f: FunctionDefinition, q: QualifiedName) -> bool {
        exists|sid: usize|
            #[trigger] self.signature_placed(qualified_key(q), sid) && (sid as int) < self.signatures@.len() && {
                let sig = self.signatures@[sid as int];
                &&& f.name.lexeme@ == q.name.lexeme@
                &&& f.parameters@.len() == sig.parameters@.len()
                &&& forall|k: int|
                    0 <= k < sig.parameters@.len() ==> self.param_meets(f.parameters@[k], #[trigger] sig.parameters@[k])
                &&& lookup(self.type_names@, f.result_type.lexeme@) == Some(sig.result_type.0)
            }
    }

    /// `f` claims a signature that it does not satisfy.
    pub open spec fn claim_unmet(&self, f: FunctionDefinition) -> bool {
        f.satisfaction matches Some(q) && !self.claim_met(f, q)
    }

    /// Two places of one catalog signature are the same place.
    proof fn lemma_placed_unique(&self, key: (Seq<char>, Seq<char>), d1: usize, d2: usize)
        requires
            self.signature_placed(key, d1),
            self.signature_placed(key, d2),
            signature_key_single(self.catalog, key),
        ensures
            d1 == d2,
    {
        let p1 = choose|p: int|
            0 <= p < self.catalog.signature_keys().len() && p < self.shared_signatures@.len()
                && self.catalog.signature_keys()[p] == key && #[trigger] self.shared_signatures@[p] == Some(d1);
        let p2 = choose|p: int|
            0 <= p < self.catalog.signature_keys().len() && p < self.shared_signatures@.len()
                && self.catalog.signature_keys()[p] == key && #[trigger] self.shared_signatures@[p] == Some(d2);
        assert(p1 == p2);
    }

    /// A place given to a catalog signature stays its place.
    proof fn lemma_placed_kept(&self, later: &Self, key: (Seq<char>, Seq<char>), d: usize)
        requires
            self.signature_placed(key, d),
            later.catalog == self.catalog,
            placements_kept(self.shared_signatures@, later.shared_signatures@),
        ensures
            later.signature_placed(key, d),
    {
        let p = choose|p: int|
            0 <= p < self.catalog.signature_keys().len() && p < self.shared_signatures@.len()
                && self.catalog.signature_keys()[p] == key && #[trigger] self.shared_signatures@[p] == Some(d);
        assert(later.shared_signatures@[p] == Some(d));
    }

    proof fn lemma_param_declared_stable(&self, old_a: &Self, d: Parameter, p: FormalParamMeta)
        requires
            old_a.param_declared(d, p),
            self.type_names == old_a.type_names,
            old_a.signatures@.len() <= self.signatures@.len(),
            forall|i: int| 0 <= i < old_a.signatures@.len() ==> #[trigger] self.signatures@[i] == old_a.signatures@[i],
        ensures
            self.param_declared(d, p),
    {
        if let FormalParamMeta::SignatureDependency { signature_id, .. } = p {
            assert(self.signatures@[signature_id as int] == old_a.signatures@[signature_id as int]);
        }
    }

    proof fn lemma_header_declared_stable(&self, old_a: &Self, h: FunctionHeader, f: FunctionDefinition, i: int)
        requires
            old_a.header_declared(h, f, i),
            self.type_names == old_a.type_names,
            lookup(self.function_names@, f.name.lexeme@) == lookup(old_a.function_names@, f.name.lexeme@),
            old_a.signatures@.len() <= self.signatures@.len(),
            forall|j: int| 0 <= j < old_a.signatures@.len() ==> #[trigger] self.signatures@[j] == old_a.signatures@[j],
        ensures
            self.header_declared(h, f, i),
    {
        assert forall|k: int| 0 <= k < h.parameters@.len() implies self.param_declared(f.parameters@[k], #[trigger] h.parameters@[k]) by {
            self.lemma_param_declared_stable(old_a, f.parameters@[k], h.parameters@[k]);
        }
        if let Some((sid, _)) = h.satisfaction {
            assert(self.signatures@[sid as int] == old_a.signatures@[sid as int]);
        }
    }

    /// Resolves the parameters of one function definition.
    fn collect_parameters(&mut self, fn_def: &FunctionDefinition) -> (r: Result<Vec<FormalParamMeta>, CompileFailure>)
        requires
            old(self).wf(),
            catalog_closed(old(self).catalog),
        ensures
            final(self).wf(),
            final(self).same_except_shared(old(self)),
            final(self).tables_grown(old(self)),
            r matches Ok(ps) ==> {
                &&& ps@.len() == fn_def.parameters@.len()
                &&& forall|k: int| 0 <= k < ps@.len() ==> final(self).param_declared(fn_def.parameters@[k], #[trigger] ps@[k])
                &&& formal_param_names(ps@).no_duplicates()
                &&& params_below(ps@, final(self).types@.len(), final(self).signatures@.len())
                &&& forall|k: int| 0 <= k < ps@.len() ==> final(self).param_placed(fn_def.parameters@[k], #[trigger] ps@[k])
            },
            r is Ok <==> forall|k: int|
                0 <= k < fn_def.parameters@.len() ==> parameter_accepted(
                    bound_in(old(self).type_names@),
                    *old(self).catalog,
                    fn_def.parameters@,
                    k,
                ),
            r matches Err(e) ==> exists|k: int|
                0 <= k < fn_def.parameters@.len() && !parameter_accepted(
                    bound_in(old(self).type_names@),
                    *old(self).catalog,
                    fn_def.parameters@,
                    k,
                ) && parameter_failure_fits(fn_def.parameters@, k, e) && forall|j: int|
                    0 <= j < k ==> #[trigger] parameter_accepted(
                        bound_in(old(self).type_names@),
                        *old(self).catalog,
                        fn_def.parameters@,
                        j,
                    ),
    {
        let catalog = self.catalog;
        let mut ps: Vec<FormalParamMeta> = Vec::new();
        let mut k: usize = 0;
        while k < fn_def.parameters.len()
            invariant
                self.wf(),
                self.catalog == catalog,
                catalog_closed(catalog),
                self.same_except_shared(old(self)),
                self.tables_grown(old(self)),
                k <= fn_def.parameters@.len(),
                ps@.len() == k,
                forall|j: int| 0 <= j < k ==> self.param_declared(fn_def.parameters@[j], #[trigger] ps@[j]),
                formal_param_names(ps@).no_duplicates(),
                params_below(ps@, self.types@.len(), self.signatures@.len()),
                forall|j: int| 0 <= j < k ==> parameter_accepted(
                    bound_in(old(self).type_names@),
                    *old(self).catalog,
                    fn_def.parameters@,
                    j,
                ),
                forall|j: int| 0 <= j < k ==> #[trigger] formal_param_names(ps@)[j] == parameter_name(fn_def.parameters@[j]).lexeme@,
                forall|j: int| 0 <= j < k ==> self.param_placed(fn_def.parameters@[j], #[trigger] ps@[j]),
            decreases fn_def.parameters@.len() - k,
        {
            let ghost old_ps = ps@;
            let ghost before = *self;
            match &fn_def.parameters[k] {
                Parameter::Value(b) => {
                    assert(parameter_name(fn_def.parameters@[k as int]) == b.name);
                    if !is_valid_snake_case(b.name.lexeme) {
                        assert(!parameter_accepted(bound_in(old(self).type_names@), *old(self).catalog, fn_def.parameters@, k as int));
                        let e = declaration_failure(
                            DeclarationFailure::InvalidNamingConvention { role: SemanticNameRole::Binding },
                            b.name.span,
                        );
                        assert(parameter_failure_fits(fn_def.parameters@, k as int, e));
                        return Err(e);
                    }
                    if has_param_name(&ps, b.name.lexeme) {
                        proof {
                            let i = choose|i: int| 0 <= i < formal_param_names(old_ps).len() && formal_param_names(old_ps)[i] == b.name.lexeme@;
                            assert(parameter_name(fn_def.parameters@[i]).lexeme@ == b.name.lexeme@);
                        }
                        assert(!parameter_accepted(bound_in(old(self).type_names@), *old(self).catalog, fn_def.parameters@, k as int));
                        let e = declaration_failure(
                            DeclarationFailure::BindingNameCollision { name: b.name.lexeme.to_owned() },
                            b.name.span,
                        );
                        assert(parameter_failure_fits(fn_def.parameters@, k as int, e));
                        return Err(e);
                    }
                    proof {
                        assert forall|j: int| 0 <= j < k implies (#[trigger] parameter_name(fn_def.parameters@[j])).lexeme@ != b.name.lexeme@ by {
                            assert(formal_param_names(old_ps)[j] == parameter_name(fn_def.parameters@[j]).lexeme@);
                        }
                    }
                    let t = match self.resolve_type_identifier(&b.type_ident) {
                        Ok(t) => t,
                        Err(e) => {
                            assert(!parameter_accepted(bound_in(old(self).type_names@), *old(self).catalog, fn_def.parameters@, k as int));
                            assert(parameter_failure_fits(fn_def.parameters@, k as int, e));
                            return Err(e);
                        },
                    };
                    proof {
                        assert forall|j: int| 0 <= j < k implies (#[trigger] parameter_name(fn_def.parameters@[j])).lexeme@ != b.name.lexeme@ by {
                            assert(formal_param_names(old_ps)[j] == parameter_name(fn_def.parameters@[j]).lexeme@);
                        }
                        assert(parameter_accepted(bound_in(old(self).type_names@), *old(self).catalog, fn_def.parameters@, k as int));
                    }
                    ps.push(FormalParamMeta::Value { name: b.name.lexeme.to_owned(), type_id: t, span: b.name.span });
                    proof {
                        assert(formal_param_names(ps@) =~= formal_param_names(old_ps).push(b.name.lexeme@));
                        lemma_push_no_duplicates(formal_param_names(old_ps), b.name.lexeme@);
                        assert forall|j: int| 0 <= j < k + 1 implies self.param_declared(fn_def.parameters@[j], #[trigger] ps@[j]) by {
                            if j < k {
                                assert(ps@[j] == old_ps[j]);
                            }
                        }
                        assert forall|j: int| 0 <= j < k + 1 implies self.param_placed(fn_def.parameters@[j], #[trigger] ps@[j]) by {
                            if j < k {
                                assert(ps@[j] == old_ps[j]);
                            }
                        }
                        assert forall|j: int| 0 <= j < ps@.len() implies param_below(#[trigger] ps@[j], self.types@.len(), self.signatures@.len()) by {
                            if j < k {
                                assert(ps@[j] == old_ps[j]);
                            }
                        }
                    }
                },
                Parameter::SignatureDependency { signature, name } => {
                    assert(parameter_name(fn_def.parameters@[k as int]) == *name);
                    if !is_valid_snake_case(name.lexeme) {
                        assert(!parameter_accepted(bound_in(old(self).type_names@), *old(self).catalog, fn_def.parameters@, k as int));
                        let e = declaration_failure(
                            DeclarationFailure::InvalidNamingConvention { role: SemanticNameRole::SignatureDependency },
                            name.span,
                        );
                        assert(parameter_failure_fits(fn_def.parameters@, k as int, e));
                        return Err(e);
                    }
                    if has_param_name(&ps, name.lexeme) {
                        proof {
                            let i = choose|i: int| 0 <= i < formal_param_names(old_ps).len() && formal_param_names(old_ps)[i] == name.lexeme@;
                            assert(parameter_name(fn_def.parameters@[i]).lexeme@ == name.lexeme@);
                        }
                        assert(!parameter_accepted(bound_in(old(self).type_names@), *old(self).catalog, fn_def.parameters@, k as int));
                        let e = declaration_failure(
                            DeclarationFailure::BindingNameCollision { name: name.lexeme.to_owned() },
                            name.span,
                        );
                        assert(parameter_failure_fits(fn_def.parameters@, k as int, e));
                        return Err(e);
                    }
                    proof {
                        assert forall|j: int| 0 <= j < k implies (#[trigger] parameter_name(fn_def.parameters@[j])).lexeme@ != name.lexeme@ by {
                            assert(formal_param_names(old_ps)[j] == parameter_name(fn_def.parameters@[j]).lexeme@);
                        }
                    }
                    let pos = match catalog.find_signature(signature.qualifier.lexeme, signature.name.lexeme) {
                        Some(p) => p,
                        None => {
                            assert(!parameter_accepted(bound_in(old(self).type_names@), *old(self).catalog, fn_def.parameters@, k as int));
                            let e = fail(
                                SemanticFailure::Resolution(
                                    ResolutionFailure::UnknownSignature(
                                        SignatureSymbol {
                                            module: signature.qualifier.lexeme.to_owned(),
                                            name: signature.name.lexeme.to_owned(),
                                        },
                                    ),
                                ),
                                join_spans(signature.qualifier.span, signature.name.span),
                            );
                            assert(parameter_failure_fits(fn_def.parameters@, k as int, e));
                            return Err(e);
                        },
                    };
                    proof {
                        assert forall|j: int| 0 <= j < k implies (#[trigger] parameter_name(fn_def.parameters@[j])).lexeme@ != name.lexeme@ by {
                            assert(formal_param_names(old_ps)[j] == parameter_name(fn_def.parameters@[j]).lexeme@);
                        }
                        assert(catalog.signature_keys().contains(qualified_key(*signature))) by {
                            assert(catalog.signature_keys()[pos as int] == qualified_key(*signature));
                        }
                        assert(parameter_accepted(bound_in(old(self).type_names@), *old(self).catalog, fn_def.parameters@, k as int));
                    }
                    let sid = self.materialize_catalog_signature(pos);
                    ps.push(FormalParamMeta::SignatureDependency {
                        name: name.lexeme.to_owned(),
                        signature_id: sid,
                        span: name.span,
                    });
                    proof {
                        assert(self.shared_signatures@[pos as int] is Some);
                        assert(formal_param_names(ps@) =~= formal_param_names(old_ps).push(name.lexeme@));
                        lemma_push_no_duplicates(formal_param_names(old_ps), name.lexeme@);
                        assert forall|j: int| 0 <= j < k + 1 implies self.param_declared(fn_def.parameters@[j], #[trigger] ps@[j]) by {
                            if j < k {
                                assert(ps@[j] == old_ps[j]);
                                self.lemma_param_declared_stable(&before, fn_def.parameters@[j], ps@[j]);
                            }
                        }
                        assert(self.signature_placed(qualified_key(*signature), sid));
                        assert(signature_key_single(self.catalog, qualified_key(*signature))) by {
                            assert forall|a: int, b: int|
                                0 <= a < catalog.signature_keys().len() && 0 <= b < catalog.signature_keys().len()
                                    && #[trigger] catalog.signature_keys()[a] == qualified_key(*signature)
                                    && #[trigger] catalog.signature_keys()[b] == qualified_key(*signature) implies a == b by {
                                if a != pos {
                                    assert(catalog.signature_keys()[a] != qualified_key(*signature));
                                }
                                if b != pos {
                                    assert(catalog.signature_keys()[b] != qualified_key(*signature));
                                }
                            }
                        }
                        assert forall|j: int| 0 <= j < k + 1 implies self.param_placed(fn_def.parameters@[j], #[trigger] ps@[j]) by {
                            if j < k {
                                assert(ps@[j] == old_ps[j]);
                                if let (
                                    Parameter::SignatureDependency { signature: sj, .. },
                                    FormalParamMeta::SignatureDependency { signature_id: dj, .. },
                                ) = (fn_def.parameters@[j], ps@[j]) {
                                    before.lemma_placed_kept(self, qualified_key(sj), dj);
                                }
                            }
                        }
                        assert forall|j: int| 0 <= j < ps@.len() implies param_below(#[trigger] ps@[j], self.types@.len(), self.signatures@.len()) by {
                            if j < k {
                                assert(ps@[j] == old_ps[j]);
                                assert(param_below(old_ps[j], before.types@.len(), before.signatures@.len()));
                            }
                        }
                    }
                },
            }
            k = k + 1;
        }
        Ok(ps)
    }
}

proof fn lemma_params_below_grow(ps: Seq<FormalParamMeta>, nt: nat, mt: nat, ns: nat, ms: nat)
    requires
        params_below(ps, nt, ns),
        nt <= mt,
        ns <= ms,
    ensures
        params_below(ps, mt, ms),
{
    assert forall|i: int| 0 <= i < ps.len() implies param_below(#[trigger] ps[i], mt, ms) by {
        assert(param_below(ps[i], nt, ns));
    }
}

/// The functions declared in a prefix of `ds` come first, in order, among
/// those declared in `ds`.
proof fn lemma_definitions_prefix<'s>(ds: Seq<Declaration<'s>>, m: int)
    requires
        0 <= m <= ds.len(),
    ensures
        function_definitions(ds.take(m)).len() <= function_definitions(ds).len(),
        forall|i: int|
            0 <= i < function_definitions(ds.take(m)).len() ==> #[trigger] function_definitions(ds.take(m))[i]
                == function_definitions(ds)[i],
    decreases ds.len(),
{
    if m == ds.len() {
        assert(ds.take(m) =~= ds);
    } else {
        assert(ds.drop_last().take(m) =~= ds.take(m));
        lemma_definitions_prefix(ds.drop_last(), m);
    }
}

/// The header of the function at `i` of `fs` cannot be resolved: its name is
/// not snake case or repeats an earlier function's, one of its parameters is
/// not accepted, its result type is unbound, or the signature it claims is
/// not in the catalog.
pub open spec fn header_refused(
    bound: spec_fn(Seq<char>) -> bool,
    catalog: CompilationCatalog,
    fs: Seq<FunctionDefinition>,
    i: int,
) -> bool {
    let f = fs[i];
    ||| !snake_case(f.name.lexeme@)
    ||| exists|j: int| 0 <= j < i && (#[trigger] fs[j]).name.lexeme@ == f.name.lexeme@
    ||| exists|k: int| 0 <= k < f.parameters@.len() && !parameter_accepted(bound, catalog, f.parameters@, k)
    ||| !bound(f.result_type.lexeme@)
    ||| f.satisfaction matches Some(q) && !catalog.has_signature(qualified_key(q))
}

/// The failure reported for the header of `fs[i]`: a name against the
/// rule, then a name repeated, then the failure of the first refused
/// parameter, then an unknown result type, then a claimed signature that the
/// catalog lacks, else a mismatch with the claimed signature, which
/// `validate_signature_satisfaction` details.
pub open spec fn header_failure_fits(
    bound: spec_fn(Seq<char>) -> bool,
    catalog: CompilationCatalog,
    fs: Seq<FunctionDefinition>,
    i: int,
    e: CompileFailure,
) -> bool {
    let f = fs[i];
    if !snake_case(f.name.lexeme@) {
        e == semantic_failure(
            SemanticFailure::Declaration(DeclarationFailure::InvalidNamingConvention { role: SemanticNameRole::Function }),
            f.name.span,
        )
    } else if exists|j: int| 0 <= j < i && (#[trigger] fs[j]).name.lexeme@ == f.name.lexeme@ {
        e.source_span == f.name.span && (e.kind matches CompileFailureKind::Semantic(
            SemanticFailure::Declaration(DeclarationFailure::DuplicateFunction { name }),
        ) && name@ == f.name.lexeme@)
    } else if exists|k: int| 0 <= k < f.parameters@.len() && !parameter_accepted(bound, catalog, f.parameters@, k) {
        exists|k: int|
            0 <= k < f.parameters@.len() && !parameter_accepted(bound, catalog, f.parameters@, k) && parameter_failure_fits(
                f.parameters@,
                k,
                e,
            ) && forall|j: int| 0 <= j < k ==> #[trigger] parameter_accepted(bound, catalog, f.parameters@, j)
    } else if !bound(f.result_type.lexeme@) {
        e.source_span == f.result_type.span && (e.kind matches CompileFailureKind::Semantic(
            SemanticFailure::Resolution(ResolutionFailure::UnknownType { name }),
        ) && name@ == f.result_type.lexeme@)
    } else if f.satisfaction matches Some(q) && !catalog.has_signature(qualified_key(q)) {
        let q = f.satisfaction->0;
        e.source_span == (SourceSpan { start: q.qualifier.span.start, end: q.name.span.end }) && (e.kind matches CompileFailureKind::Semantic(
            SemanticFailure::Resolution(ResolutionFailure::UnknownSignature(sym)),
        ) && sym.module@ == q.qualifier.lexeme@ && sym.name@ == q.name.lexeme@)
    } else {
        f.satisfaction matches Some(q) && (e.kind matches CompileFailureKind::Semantic(
            SemanticFailure::SignatureMismatch { signature, .. },
        ) && signature.module@ == q.qualifier.lexeme@ && signature.name@ == q.name.lexeme@)
    }
}

impl<'a, 'source> Analyzer<'a, 'source> {
    /// Resolves the header of every function, in declaration order: its name,
    /// parameters, result type and the signature it claims to satisfy.
    ///
    /// Fails on the first function whose name breaks the snake case rule or
    /// repeats an earlier one, whose parameter or result cannot be resolved,
    /// that claims a signature the catalog lacks, or that does not satisfy the
    /// signature it claims.
    pub(crate) fn collect_function_headers(&mut self) -> (r: Result<(), CompileFailure>)
        requires
            old(self).wf(),
            catalog_closed(old(self).catalog),
            old(self).function_headers@.len() == 0,
            old(self).function_names@.len() == 0,
        ensures
            final(self).wf(),
            final(self).program == old(self).program,
            final(self).catalog == old(self).catalog,
            final(self).type_names == old(self).type_names,
            final(self).functions == old(self).functions,
            final(self).tables_grown(old(self)),
            r is Ok ==> {
                let fs = function_definitions(old(self).program.declarations@);
                &&& final(self).function_headers@.len() == fs.len()
                &&& forall|i: int|
                    0 <= i < fs.len() ==> final(self).header_declared(#[trigger] final(self).function_headers@[i], fs[i], i)
            },
            r is Ok ==> {
                let fs = function_definitions(old(self).program.declarations@);
                forall|i: int|
                    0 <= i < fs.len() ==> !#[trigger] header_refused(
                        bound_in(old(self).type_names@),
                        *old(self).catalog,
                        fs,
                        i,
                    )
            },
            r is Err ==> {
                let fs = function_definitions(old(self).program.declarations@);
                exists|i: int|
                    0 <= i < fs.len() && (header_refused(bound_in(old(self).type_names@), *old(self).catalog, fs, i)
                        || final(self).claim_unmet(#[trigger] fs[i]))
            },
            r matches Err(e) ==> {
                let fs = function_definitions(old(self).program.declarations@);
                exists|i: int|
                    0 <= i < fs.len() && header_failure_fits(bound_in(old(self).type_names@), *old(self).catalog, fs, i, e)
                        && forall|j: int| 0 <= j < i ==> !#[trigger] header_refused(bound_in(old(self).type_names@), *old(self).catalog, fs, j)
            },
    {
        let program = self.program;
        let catalog = self.catalog;
        let mut k: usize = 0;
        while k < program.declarations.len()
            invariant
                self.wf(),
                self.program == program,
                self.catalog == catalog,
                catalog_closed(catalog),
                program == old(self).program,
                catalog == old(self).catalog,
                self.type_names == old(self).type_names,
                self.functions == old(self).functions,
                self.tables_grown(old(self)),
                k <= program.declarations@.len(),
                self.function_headers@.len() == function_definitions(program.declarations@.take(k as int)).len(),
                self.function_names@.len() == self.function_headers@.len(),
                forall|i: int|
                    0 <= i < self.function_headers@.len() ==> self.header_declared(
                        #[trigger] self.function_headers@[i],
                        function_definitions(program.declarations@.take(k as int))[i],
                        i,
                    ),
                forall|i: int|
                    0 <= i < self.function_names@.len() ==> #[trigger] self.function_names@[i].name@ == function_definitions(
                        program.declarations@.take(k as int),
                    )[i].name.lexeme@,
                forall|i: int|
                    0 <= i < self.function_headers@.len() ==> !#[trigger] header_refused(
                        bound_in(old(self).type_names@),
                        *old(self).catalog,
                        function_definitions(program.declarations@),
                        i,
                    ),
            decreases program.declarations@.len() - k,
        {
            proof {
                assert(program.declarations@.take(k + 1).drop_last() =~= program.declarations@.take(k as int));
                assert(program.declarations@.take(k + 1).last() == program.declarations@[k as int]);
            }
            let ghost fs_before = function_definitions(program.declarations@.take(k as int));
            if let Declaration::Function(fn_def) = &program.declarations[k] {
                let ghost fs_all = function_definitions(program.declarations@);
                let ghost idx = fs_before.len() as int;
                proof {
                    assert(function_definitions(program.declarations@.take(k + 1)) == fs_before.push(*fn_def));
                    lemma_definitions_prefix(program.declarations@, k + 1);
                    lemma_definitions_prefix(program.declarations@, k as int);
                    assert(fs_all[idx] == function_definitions(program.declarations@.take(k + 1))[idx]);
                    assert(fs_all[idx] == *fn_def);
                }
                let fn_name = fn_def.name.lexeme;
                if !is_valid_snake_case(fn_name) {
                    assert(header_refused(bound_in(old(self).type_names@), *old(self).catalog, fs_all, idx));
                    let e = declaration_failure(
                        DeclarationFailure::InvalidNamingConvention { role: SemanticNameRole::Function },
                        fn_def.name.span,
                    );
                    assert(header_failure_fits(bound_in(old(self).type_names@), *old(self).catalog, fs_all, idx, e));
                    return Err(e);
                }
                if find_name(&self.function_names, fn_name).is_some() {
                    proof {
                        lemma_lookup_found(self.function_names@, fn_name@);
                        let t = choose|t: int| 0 <= t < self.function_names@.len() && self.function_names@[t].name@ == fn_name@;
                        assert(self.function_names@[t].name@ == fs_before[t].name.lexeme@);
                        assert(fs_all[t] == fs_before[t]);
                        assert(fs_all[t].name.lexeme@ == fs_all[idx].name.lexeme@);
                    }
                    assert(header_refused(bound_in(old(self).type_names@), *old(self).catalog, fs_all, idx));
                    let e = declaration_failure(
                        DeclarationFailure::DuplicateFunction { name: fn_name.to_owned() },
                        fn_def.name.span,
                    );
                    assert(header_failure_fits(bound_in(old(self).type_names@), *old(self).catalog, fs_all, idx, e));
                    return Err(e);
                }
                let ghost start = *self;
                proof {
                    assert forall|j: int| 0 <= j < idx implies (#[trigger] fs_all[j]).name.lexeme@ != fn_name@ by {
                        if fs_all[j].name.lexeme@ == fn_name@ {
                            assert(fs_all[j] == fs_before[j]);
                            assert(start.function_names@[j].name@ == fs_before[j].name.lexeme@);
                            assert(names(start.function_names@)[j] == fn_name@);
                            lemma_lookup_found(start.function_names@, fn_name@);
                        }
                    }
                }
                let params = match self.collect_parameters(fn_def) {
                    Ok(ps) => ps,
                    Err(e) => {
                        assert(header_refused(bound_in(old(self).type_names@), *old(self).catalog, fs_all, idx));
                        assert(header_failure_fits(bound_in(old(self).type_names@), *old(self).catalog, fs_all, idx, e));
                        return Err(e);
                    },
                };
                let result_type = match self.resolve_type_identifier(&fn_def.result_type) {
                    Ok(t) => t,
                    Err(e) => {
                        assert(header_refused(bound_in(old(self).type_names@), *old(self).catalog, fs_all, idx));
                        assert(header_failure_fits(bound_in(old(self).type_names@), *old(self).catalog, fs_all, idx, e));
                        return Err(e);
                    },
                };
                let ghost mid = *self;
                let satisfaction = match &fn_def.satisfaction {
                    Some(q) => {
                        let pos = match catalog.find_signature(q.qualifier.lexeme, q.name.lexeme) {
                            Some(p) => {
                                assert(catalog.signature_keys()[p as int] == qualified_key(*q));
                                assert(catalog.has_signature(qualified_key(*q)));
                                p
                            },
                            None => {
                                assert(header_refused(bound_in(old(self).type_names@), *old(self).catalog, fs_all, idx));
                                let e = fail(
                                    SemanticFailure::Resolution(
                                        ResolutionFailure::UnknownSignature(
                                            SignatureSymbol {
                                                module: q.qualifier.lexeme.to_owned(),
                                                name: q.name.lexeme.to_owned(),
                                            },
                                        ),
                                    ),
                                    join_spans(q.qualifier.span, q.name.span),
                                );
                                assert(header_failure_fits(bound_in(old(self).type_names@), *old(self).catalog, fs_all, idx, e));
                                return Err(e);
                            },
                        };
                        let sid = self.materialize_catalog_signature(pos);
                        let sym = SignatureSymbol {
                            module: q.qualifier.lexeme.to_owned(),
                            name: q.name.lexeme.to_owned(),
                        };
                        proof {
                            assert(self.shared_signatures@[pos as int] is Some);
                            lemma_params_below_grow(params@, mid.types@.len(), self.types@.len(), mid.signatures@.len(), self.signatures@.len());
                        }
                        match self.validate_signature_satisfaction(fn_def, &params, result_type, sid, &sym, q) {
                            Ok(()) => {},
                            Err(e) => {
                                proof {
                                    if self.claim_met(*fn_def, *q) {
                                        let sig = self.signatures@[sid as int];
                                        let sid2 = choose|sid2: usize|
                                            #[trigger] self.signature_placed(qualified_key(*q), sid2) && (sid2 as int)
                                                < self.signatures@.len() && {
                                                let sig2 = self.signatures@[sid2 as int];
                                                &&& fn_def.name.lexeme@ == q.name.lexeme@
                                                &&& fn_def.parameters@.len() == sig2.parameters@.len()
                                                &&& forall|k: int|
                                                    0 <= k < sig2.parameters@.len() ==> self.param_meets(
                                                        fn_def.parameters@[k],
                                                        #[trigger] sig2.parameters@[k],
                                                    )
                                                &&& lookup(self.type_names@, fn_def.result_type.lexeme@) == Some(
                                                    sig2.result_type.0,
                                                )
                                            };
                                        assert(self.signature_placed(qualified_key(*q), sid));
                                        assert(signature_key_single(self.catalog, qualified_key(*q))) by {
                                            assert forall|a: int, b: int|
                                                0 <= a < catalog.signature_keys().len() && 0 <= b
                                                    < catalog.signature_keys().len() && #[trigger] catalog.signature_keys()[a]
                                                    == qualified_key(*q) && #[trigger] catalog.signature_keys()[b]
                                                    == qualified_key(*q) implies a == b by {
                                                if a != pos {
                                                    assert(catalog.signature_keys()[a] != qualified_key(*q));
                                                }
                                                if b != pos {
                                                    assert(catalog.signature_keys()[b] != qualified_key(*q));
                                                }
                                            }
                                        }
                                        self.lemma_placed_unique(qualified_key(*q), sid, sid2);
                                        assert forall|k: int| 0 <= k < params@.len() implies param_satisfies(
                                            #[trigger] params@[k],
                                            sig.parameters@[k],
                                        ) by {
                                            let d = fn_def.parameters@[k];
                                            assert(self.param_meets(d, sig.parameters@[k]));
                                            self.lemma_param_declared_stable(&mid, d, params@[k]);
                                            if let (
                                                Parameter::SignatureDependency { signature: sk, .. },
                                                FormalParamMeta::SignatureDependency { signature_id: dk, .. },
                                            ) = (d, params@[k]) {
                                                assert(mid.param_placed(d, params@[k]));
                                                mid.lemma_placed_kept(self, qualified_key(sk), dk);
                                                if let SemanticSignatureParameter::SignatureDependency(x) = sig.parameters@[k] {
                                                    self.lemma_placed_unique(qualified_key(sk), dk, x.0);
                                                }
                                            }
                                        }
                                        assert(params_satisfy(params@, sig));
                                    }
                                    assert(self.claim_unmet(fs_all[idx]));
                                    assert(!header_refused(bound_in(old(self).type_names@), *old(self).catalog, fs_all, idx));
                                    assert(header_failure_fits(bound_in(old(self).type_names@), *old(self).catalog, fs_all, idx, e));
                                }
                                return Err(e);
                            },
                        }
                        Some((sid, sym))
                    },
                    None => None,
                };
                let ghost after_sat = *self;
                let func_id = self.function_headers.len();
                self.function_headers.push(
                    FunctionHeader { ast: fn_def, parameters: params, result_type, satisfaction },
                );
                bind_name(&mut self.function_names, fn_name, func_id);
                proof {
                    assert forall|j: int| 0 <= j < idx implies (#[trigger] fs_all[j]).name.lexeme@ != fn_name@ by {
                        if fs_all[j].name.lexeme@ == fn_name@ {
                            assert(fs_all[j] == fs_before[j]);
                            assert(start.function_names@[j].name@ == fs_before[j].name.lexeme@);
                            assert(names(start.function_names@)[j] == fn_name@);
                            lemma_lookup_found(start.function_names@, fn_name@);
                        }
                    }
                    assert(!header_refused(bound_in(old(self).type_names@), *old(self).catalog, fs_all, idx));
                    let fs = function_definitions(program.declarations@.take(k + 1));
                    assert(fs == fs_before.push(*fn_def));
                    let h = self.function_headers@.last();
                    assert forall|k2: int| 0 <= k2 < h.parameters@.len() implies self.param_declared(fn_def.parameters@[k2], #[trigger] h.parameters@[k2]) by {
                        self.lemma_param_declared_stable(&mid, fn_def.parameters@[k2], h.parameters@[k2]);
                    }
                    lemma_lookup_push(after_sat.function_names@, self.function_names@.last(), fn_name@);
                    assert(self.header_declared(h, fs[func_id as int], func_id as int));
                    assert forall|i: int| 0 <= i < self.function_headers@.len() implies self.header_declared(
                        #[trigger] self.function_headers@[i],
                        fs[i],
                        i,
                    ) by {
                        if i < func_id {
                            assert(self.function_headers@[i] == start.function_headers@[i]);
                            assert(fs[i] == fs_before[i]);
                            lemma_lookup_push(after_sat.function_names@, self.function_names@.last(), fs_before[i].name.lexeme@);
                            self.lemma_header_declared_stable(&start, start.function_headers@[i], fs_before[i], i);
                        }
                    }
                    lemma_params_below_grow(params@, mid.types@.len(), self.types@.len(), mid.signatures@.len(), self.signatures@.len());
                    assert forall|i: int| 0 <= i < self.function_headers@.len() implies header_below(#[trigger] self.function_headers@[i], self.types@.len(), self.signatures@.len()) by {
                        if i < func_id {
                            assert(self.function_headers@[i] == start.function_headers@[i]);
                            lemma_header_below_grow(start.function_headers@[i], start.types@.len(), self.types@.len(), start.signatures@.len(), self.signatures@.len());
                        }
                    }
                    assert forall|i: int| 0 <= i < self.function_names@.len() implies (#[trigger] self.function_names@[i].index as int) < self.function_headers@.len() by {
                        if i < func_id {
                            assert(self.function_names@[i] == after_sat.function_names@[i]);
                        }
                    }
                }
            }
            k = k + 1;
        }
        proof {
            assert(program.declarations@.take(k as int) =~= program.declarations@);
        }
        Ok(())
    }
}

impl<'a, 'source> Analyzer<'a, 'source> {
    /// A placeholder type appended for the catalog type at `pos` keeps the
    /// tables consistent.
    proof fn lemma_grown_wf(&self, entry: &Self, pos: int)
        requires
            entry.wf(),
            0 <= pos < entry.shared_types@.len(),
            self.types@.len() == entry.types@.len() + 1,
            forall|i: int| 0 <= i < entry.types@.len() ==> #[trigger] self.types@[i] == entry.types@[i],
            type_below(self.types@.last(), self.types@.len()),
            self.type_descriptors@.len() == entry.type_descriptors@.len() + 1,
            self.metas@ == entry.metas@.push(TypeMeta::Opaque),
            self.shared_types@ == entry.shared_types@.update(pos, Some(entry.types@.len() as usize)),
            self.same_except_types(entry),
        ensures
            self.wf(),
    {
        let n = entry.types@.len();
        let m = self.types@.len();
        assert forall|i: int| 0 <= i < m implies type_below(#[trigger] self.types@[i], m) by {
            if i < n {
                lemma_type_below_grow(entry.types@[i], n, m);
            }
        }
        assert forall|i: int| 0 <= i < m implies meta_below(#[trigger] self.metas@[i], m) by {
            if i < n {
                assert(self.metas@[i] == entry.metas@[i]);
                lemma_meta_below_grow(entry.metas@[i], n, m);
            }
        }
        assert forall|i: int| 0 <= i < self.signatures@.len() implies signature_below(#[trigger] self.signatures@[i], m, self.signatures@.len()) by {
            assert(signature_below(entry.signatures@[i], n, self.signatures@.len()));
        }
        assert forall|i: int| 0 <= i < self.function_headers@.len() implies header_below(#[trigger] self.function_headers@[i], m, self.signatures@.len()) by {
            lemma_header_below_grow(entry.function_headers@[i], n, m, self.signatures@.len(), self.signatures@.len());
        }
        assert forall|i: int| 0 <= i < NATIVE_COUNT implies #[trigger] self.metas@[i] is Opaque by {
            assert(self.metas@[i] == entry.metas@[i]);
        }
    }

    /// Replacing the entry at `id` by members below the table's size keeps the
    /// tables consistent.
    proof fn lemma_set_wf(&self, before: &Self, id: int)
        requires
            before.wf(),
            NATIVE_COUNT <= id < before.types@.len(),
            self.types@ == before.types@.update(id, self.types@[id]),
            self.metas@ == before.metas@.update(id, self.metas@[id]),
            type_below(self.types@[id], self.types@.len()),
            meta_below(self.metas@[id], self.types@.len()),
            self.metas@[id] matches TypeMeta::Enum(em) ==> em.variants@.len() > 0,
            self.type_descriptors == before.type_descriptors,
            self.shared_types == before.shared_types,
            self.same_except_types(before),
        ensures
            self.wf(),
    {
        assert forall|i: int| 0 <= i < self.types@.len() implies (#[trigger] self.metas@[i] matches TypeMeta::Enum(em) ==> em.variants@.len() > 0) by {
            if i != id {
                assert(self.metas@[i] == before.metas@[i]);
            }
        }
        assert forall|i: int| 0 <= i < NATIVE_COUNT implies #[trigger] self.types@[i] == SemanticType::Native(native_at(i)) by {
            assert(self.types@[i] == before.types@[i]);
        }
        assert forall|i: int| 0 <= i < NATIVE_COUNT implies #[trigger] self.metas@[i] is Opaque by {
            assert(self.metas@[i] == before.metas@[i]);
        }
        assert forall|i: int| 0 <= i < self.types@.len() implies type_below(#[trigger] self.types@[i], self.types@.len()) by {
            if i != id {
                assert(self.types@[i] == before.types@[i]);
            }
        }
        assert forall|i: int| 0 <= i < self.types@.len() implies meta_below(#[trigger] self.metas@[i], self.types@.len()) by {
            if i != id {
                assert(self.metas@[i] == before.metas@[i]);
            }
        }
    }
}

proof fn lemma_type_below_grow(t: SemanticType, n: nat, m: nat)
    requires
        type_below(t, n),
        n <= m,
    ensures
        type_below(t, m),
{
    match t {
        SemanticType::Enum { variants } => {
            assert forall|i: int| 0 <= i < variants.len() implies variant_below(#[trigger] variants@[i], m) by {
                lemma_variant_below_grow(variants@[i], n, m);
            }
        },
        _ => {},
    }
}

proof fn lemma_meta_below_grow(t: TypeMeta, n: nat, m: nat)
    requires
        meta_below(t, n),
        n <= m,
    ensures
        meta_below(t, m),
{
    match t {
        TypeMeta::Enum(e) => {
            assert forall|i: int| 0 <= i < e.variants.len() implies variant_meta_below(#[trigger] e.variants@[i], m) by {
                lemma_variant_meta_below_grow(e.variants@[i], n, m);
            }
        },
        _ => {},
    }
}

proof fn lemma_header_below_grow(h: FunctionHeader, nt: nat, mt: nat, ns: nat, ms: nat)
    requires
        header_below(h, nt, ns),
        nt <= mt,
        ns <= ms,
    ensures
        header_below(h, mt, ms),
{
    assert forall|i: int| 0 <= i < h.parameters@.len() implies param_below(#[trigger] h.parameters@[i], mt, ms) by {
        assert(param_below(h.parameters@[i], nt, ns));
    }
}

proof fn lemma_signature_below_grow(s: SemanticSignature, nt: nat, mt: nat, ns: nat, ms: nat)
    requires
        signature_below(s, nt, ns),
        nt <= mt,
        ns <= ms,
    ensures
        signature_below(s, mt, ms),
{
}

proof fn lemma_variant_below_grow(v: SemanticVariant, n: nat, m: nat)
    requires
        variant_below(v, n),
        n <= m,
    ensures
        variant_below(v, m),
{
}

proof fn lemma_variant_meta_below_grow(v: VariantMeta, n: nat, m: nat)
    requires
        variant_meta_below(v, n),
        n <= m,
    ensures
        variant_meta_below(v, m),
{
}

} // verus!
