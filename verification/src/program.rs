//! The whole analysis: from a parsed program and the application's catalog to
//! the analysed program, or the first failure.
use vstd::prelude::*;

use crate::analyzer::{
    Analyzer, FormalParamMeta, NATIVE_COUNT, lemma_native_index_lookup, bound_in, import_failure_fits, shell_failure_fits, declaration_contains, formal_param_names, local_type_cycle,
    type_graph, catalog_closed, enums_have_variants, function_definitions, header_failure_fits, header_refused,
    import_refused, members_accepted, members_failure, native_at, shell_refused, signature_below, type_below, type_declared_before,
    type_imported_before, import_key, import_local_name, direct_signature_ids,
};
use crate::ast::{Declaration, ExpressionKind, FunctionDefinition, LiteralKind, Parameter, Program, Visibility};
use crate::body::{
    body_parsed, function_typed, function_wf, returns_literal, returns_parameter, value_compatible, value_param_named, value_param_typed,
};
use crate::calls::{call_cycle, function_calls};
use crate::graph::{cycle_reachable, edge, is_path, lemma_reaches_refl, reaches};
use crate::catalog::CompilationCatalog;
use crate::failures::{CompileFailure, DeclarationFailure, SemanticFailure};
use crate::natives::native_name;
use crate::literals::{canonical_integer, integer_representable};
use crate::semantic::{FunctionId, NativeType, SemanticExpressionKind, SemanticFunction, SemanticProgram, SemanticType};
use crate::tables::{NamedIndex, lemma_lookup_found, lemma_lookup_prefix, lookup, names};

verus! {

/// The program has the form the parser hands over: every enum has a variant,
/// every function body is in parsed form, and some function is public.
pub open spec fn program_parsed(p: Program) -> bool {
    &&& enums_have_variants(p.declarations@)
    &&& forall|k: int|
        0 <= k < p.declarations@.len() ==> (#[trigger] p.declarations@[k] matches Declaration::Function(f) ==> body_parsed(
            f.body,
        ))
    &&& exists|k: int| 0 <= k < p.declarations@.len() && public_function(#[trigger] p.declarations@[k])
}

pub open spec fn public_function(d: Declaration) -> bool {
    match d {
        Declaration::Function(f) => f.visibility is Public,
        _ => false,
    }
}

/// `n` is the name of a native type.
pub open spec fn native_named(n: Seq<char>) -> bool {
    exists|i: int| 0 <= i < NATIVE_COUNT && #[trigger] native_name(native_at(i)) == n
}

/// The type names known before any import: the native ones.
pub open spec fn natives_known() -> spec_fn(Seq<char>) -> bool {
    |n: Seq<char>| native_named(n)
}

/// The type names known once the imports are bound: the native ones and the
/// local names of imported types.
pub open spec fn imported_types_known(c: &CompilationCatalog, p: Program) -> spec_fn(Seq<char>) -> bool {
    |n: Seq<char>| native_named(n) || type_imported_before(c, p.imports@, p.imports@.len() as int, n)
}

/// Every type name the program can use: native, imported or declared.
pub open spec fn program_types_known(c: &CompilationCatalog, p: Program) -> spec_fn(Seq<char>) -> bool {
    |n: Seq<char>|
        native_named(n) || type_imported_before(c, p.imports@, p.imports@.len() as int, n) || type_declared_before(
            p.declarations@,
            p.declarations@.len() as int,
            n,
        )
}

/// Every name of the program follows the language's rules: each import
/// names a catalog entry, under a valid alias and a type name not yet taken;
/// each local type has a fresh Pascal case name; every member of a local type
/// and every function header is named by the rules and refers to known
/// types and catalog signatures.
pub open spec fn names_accepted(p: Program, c: &CompilationCatalog) -> bool {
    &&& forall|i: int| 0 <= i < p.imports@.len() ==> !#[trigger] import_refused(natives_known(), c, p.imports@, i)
    &&& forall|k: int|
        0 <= k < p.declarations@.len() ==> !#[trigger] shell_refused(imported_types_known(c, p), p.declarations@, k)
    &&& forall|k: int|
        0 <= k < p.declarations@.len() ==> members_accepted(program_types_known(c, p), #[trigger] p.declarations@[k])
    &&& forall|i: int|
        0 <= i < function_definitions(p.declarations@).len() ==> !#[trigger] header_refused(
            program_types_known(c, p),
            *c,
            function_definitions(p.declarations@),
            i,
        )
}

/// The parameter at `k` of `f` is a value parameter under the name `f`
/// returns, declared with `f`'s result type name.
pub open spec fn result_parameter(f: FunctionDefinition, k: int) -> bool {
    &&& f.body.result.kind matches ExpressionKind::Identifier(id) && f.parameters@[k] matches Parameter::Value(b) && {
        &&& b.name.lexeme@ == id.lexeme@
        &&& b.type_ident.lexeme@ == f.result_type.lexeme@
    }
}

/// `f` has no statements and returns one of its value parameters declared
/// with its result type name.
pub open spec fn returns_declared_parameter(f: FunctionDefinition) -> bool {
    &&& f.body.statements@.len() == 0
    &&& exists|k: int| 0 <= k < f.parameters@.len() && #[trigger] result_parameter(f, k)
}

/// `f` has no statements and returns a literal of a native type, declared
/// with that type's name: a Boolean as `bool`, a string as `string`, an
/// integer that `int` holds as `int`.
pub open spec fn returns_native_literal(f: FunctionDefinition) -> bool {
    &&& f.body.statements@.len() == 0
    &&& f.body.result.kind matches ExpressionKind::Literal { kind, lexeme } && {
        ||| kind == LiteralKind::Boolean && f.result_type.lexeme@ == native_name(NativeType::Bool)
        ||| kind == LiteralKind::String && f.result_type.lexeme@ == native_name(NativeType::String)
        ||| kind == LiteralKind::Integer && f.result_type.lexeme@ == native_name(NativeType::Int) && integer_representable(
            canonical_integer(lexeme@),
            NativeType::Int,
            false,
        )
    }
}

/// A program of functions alone, none claiming a signature, each returning
/// one of its parameters or a literal of a native type.
pub open spec fn plain_program(p: Program) -> bool {
    &&& forall|k: int| 0 <= k < p.declarations@.len() ==> #[trigger] p.declarations@[k] is Function
    &&& forall|i: int|
        0 <= i < function_definitions(p.declarations@).len() ==> {
            &&& (#[trigger] function_definitions(p.declarations@)[i]).satisfaction is None
            &&& returns_declared_parameter(function_definitions(p.declarations@)[i]) || returns_native_literal(
                function_definitions(p.declarations@)[i],
            )
        }
}

/// Every signature that the program imports from the catalog is among the
/// analysed program's signatures, under its symbol.
pub open spec fn imported_signatures_held(p: SemanticProgram, c: &CompilationCatalog, prog: Program) -> bool {
    forall|i: int|
        0 <= i < prog.imports@.len() && c.has_signature(import_key(#[trigger] prog.imports@[i])) ==> exists|d: int|
            0 <= d < p.signatures@.len() && p.signatures@[d].symbol.key() == import_key(prog.imports@[i])
}

/// Functions none of which calls any function form no call cycle.
proof fn lemma_no_calls_no_cycle(fs: Seq<SemanticFunction>)
    requires
        forall|i: int, g: usize| 0 <= i < fs.len() ==> !#[trigger] function_calls(fs[i], g),
    ensures
        !call_cycle(fs),
{
    if call_cycle(fs) {
        let p = choose|p: Seq<int>|
            {
                &&& p.len() >= 2
                &&& p[0] == p.last()
                &&& forall|i: int|
                    0 <= i < p.len() - 1 ==> 0 <= #[trigger] p[i] < fs.len() && 0 <= p[i + 1] < fs.len()
                        && function_calls(fs[p[i]], p[i + 1] as usize)
            };
        assert(0 <= p[0] < fs.len() && function_calls(fs[p[0]], p[1] as usize));
    }
}

/// Every index of the analysed program names an entry of its tables.
pub open spec fn program_wf(p: SemanticProgram) -> bool {
    let nt = p.types@.len();
    let ns = p.signatures@.len();
    let nf = p.functions@.len();
    &&& forall|i: int| 0 <= i < nt ==> type_below(#[trigger] p.types@[i], nt)
    &&& forall|i: int| 0 <= i < ns ==> signature_below(#[trigger] p.signatures@[i], nt, ns)
    &&& forall|i: int| 0 <= i < nf ==> function_wf(#[trigger] p.functions@[i], nt, nf, ns)
    &&& (p.entry_function.0 as int) < nf
}

proof fn lemma_function_definitions_in(ds: Seq<Declaration>, i: int)
    requires
        0 <= i < function_definitions(ds).len(),
    ensures
        exists|k: int| 0 <= k < ds.len() && ds[k] == Declaration::Function(function_definitions(ds)[i]),
    decreases ds.len(),
{
    let rest = function_definitions(ds.drop_last());
    if i < rest.len() {
        lemma_function_definitions_in(ds.drop_last(), i);
        let k = choose|k: int| 0 <= k < ds.drop_last().len() && ds.drop_last()[k] == Declaration::Function(rest[i]);
        assert(ds[k] == Declaration::Function(function_definitions(ds)[i]));
    } else {
        assert(ds[ds.len() - 1] == Declaration::Function(function_definitions(ds)[i]));
    }
}

proof fn lemma_function_definitions_has(ds: Seq<Declaration>, k: int)
    requires
        0 <= k < ds.len(),
        ds[k] is Function,
    ensures
        exists|i: int| 0 <= i < function_definitions(ds).len() && Declaration::Function(function_definitions(ds)[i]) == ds[k],
    decreases ds.len(),
{
    if k < ds.len() - 1 {
        lemma_function_definitions_has(ds.drop_last(), k);
        let i = choose|i: int|
            0 <= i < function_definitions(ds.drop_last()).len() && Declaration::Function(function_definitions(ds.drop_last())[i])
                == ds.drop_last()[k];
        assert(function_definitions(ds)[i] == function_definitions(ds.drop_last())[i]);
    } else {
        let i = function_definitions(ds.drop_last()).len() as int;
        assert(Declaration::Function(function_definitions(ds)[i]) == ds[k]);
    }
}

impl<'a, 'source> Analyzer<'a, 'source> {
    /// Runs every step of the analysis in order: imports, local types and
    /// their containment, function headers, bodies and the call graph; the
    /// entry function is the first public one. See `analyze_program` for the
    /// failures stated and the programs owed success.
    pub fn analyze(self) -> (r: Result<SemanticProgram, CompileFailure>)
        requires
            self.wf(),
            catalog_closed(self.catalog),
            program_parsed(*self.program),
            self.function_headers@.len() == 0,
            self.function_names@.len() == 0,
            self.functions@.len() == 0,
            self.type_names@.len() == NATIVE_COUNT,
            forall|i: int| 0 <= i < NATIVE_COUNT ==> #[trigger] self.type_names@[i].name@ == native_name(native_at(i)),
            forall|i: int| 0 <= i < NATIVE_COUNT ==> #[trigger] self.type_names@[i].index == i,
        ensures
            r is Ok ==> names_accepted(*self.program, self.catalog),
            r is Ok ==> !local_type_cycle(self.program.declarations@),
            (forall|i: int| 0 <= i < self.program.imports@.len() ==> !#[trigger] import_refused(natives_known(), self.catalog, self.program.imports@, i))
                && (forall|k: int| 0 <= k < self.program.declarations@.len() ==> !#[trigger] shell_refused(imported_types_known(self.catalog, *self.program), self.program.declarations@, k))
                && (forall|k: int| 0 <= k < self.program.declarations@.len() ==> members_accepted(program_types_known(self.catalog, *self.program), #[trigger] self.program.declarations@[k]))
                && local_type_cycle(self.program.declarations@) ==> (r matches Err(e) && e.kind == crate::failures::CompileFailureKind::Semantic(
                SemanticFailure::Declaration(DeclarationFailure::RecursiveTypeCycle),
            )),
            (forall|i: int| 0 <= i < self.program.imports@.len() ==> !#[trigger] import_refused(natives_known(), self.catalog, self.program.imports@, i))
                && (exists|k: int| 0 <= k < self.program.declarations@.len() && #[trigger] shell_refused(imported_types_known(self.catalog, *self.program), self.program.declarations@, k))
                ==> (r matches Err(e) && exists|k: int|
                0 <= k < self.program.declarations@.len() && shell_refused(imported_types_known(self.catalog, *self.program), self.program.declarations@, k)
                    && shell_failure_fits(self.program.declarations@, k, e) && forall|j: int|
                    0 <= j < k ==> !shell_refused(imported_types_known(self.catalog, *self.program), self.program.declarations@, j)),
            (forall|i: int| 0 <= i < self.program.imports@.len() ==> !#[trigger] import_refused(natives_known(), self.catalog, self.program.imports@, i))
                    && (forall|k: int| 0 <= k < self.program.declarations@.len() ==> !#[trigger] shell_refused(imported_types_known(self.catalog, *self.program), self.program.declarations@, k))
                    && (exists|k: int| 0 <= k < self.program.declarations@.len() && !members_accepted(program_types_known(self.catalog, *self.program), #[trigger] self.program.declarations@[k]))
                    ==> (r matches Err(e) && exists|k: int|
                    0 <= k < self.program.declarations@.len() && !members_accepted(program_types_known(self.catalog, *self.program), self.program.declarations@[k])
                        && members_failure(program_types_known(self.catalog, *self.program), self.program.declarations@[k], e) && forall|j: int|
                        0 <= j < k ==> members_accepted(program_types_known(self.catalog, *self.program), #[trigger] self.program.declarations@[j])),
            (forall|i: int| 0 <= i < self.program.imports@.len() ==> !#[trigger] import_refused(natives_known(), self.catalog, self.program.imports@, i))
                    && (forall|k: int| 0 <= k < self.program.declarations@.len() ==> !#[trigger] shell_refused(imported_types_known(self.catalog, *self.program), self.program.declarations@, k))
                    && (forall|k: int| 0 <= k < self.program.declarations@.len() ==> members_accepted(program_types_known(self.catalog, *self.program), #[trigger] self.program.declarations@[k]))
                    && (exists|i: int| 0 <= i < function_definitions(self.program.declarations@).len() && #[trigger] header_refused(
                        program_types_known(self.catalog, *self.program), *self.catalog, function_definitions(self.program.declarations@), i))
                    ==> (r matches Err(e) && (e.kind == crate::failures::CompileFailureKind::Semantic(
                        SemanticFailure::Declaration(DeclarationFailure::RecursiveTypeCycle),
                    ) || exists|i: int|
                    0 <= i < function_definitions(self.program.declarations@).len() && header_failure_fits(
                        program_types_known(self.catalog, *self.program), *self.catalog, function_definitions(self.program.declarations@), i, e)
                        && forall|j: int| 0 <= j < i ==> !#[trigger] header_refused(
                        program_types_known(self.catalog, *self.program), *self.catalog, function_definitions(self.program.declarations@), j))),
            (exists|i: int| 0 <= i < self.program.imports@.len() && #[trigger] import_refused(natives_known(), self.catalog, self.program.imports@, i)) ==> (r matches Err(e) && exists|i: int|
                0 <= i < self.program.imports@.len() && import_refused(natives_known(), self.catalog, self.program.imports@, i)
                    && import_failure_fits(natives_known(), self.catalog, self.program.imports@, i, e) && forall|j: int|
                    0 <= j < i ==> !import_refused(natives_known(), self.catalog, self.program.imports@, j)),
            names_accepted(*self.program, self.catalog) && plain_program(*self.program) ==> r is Ok,
            r matches Ok(p) ==> {
                let fs = function_definitions(self.program.declarations@);
                &&& program_wf(p)
                &&& p.functions@.len() == fs.len()
                &&& fs[p.entry_function.0 as int].visibility is Public
                &&& forall|j: int| 0 <= j < p.entry_function.0 ==> !(#[trigger] fs[j].visibility is Public)
                &&& forall|i: int| 0 <= i < p.functions@.len() ==> function_typed(#[trigger] p.functions@[i], p.types@)
                &&& !call_cycle(p.functions@)
                &&& forall|i: int| 0 <= i < NATIVE_COUNT ==> #[trigger] p.types@[i] == SemanticType::Native(native_at(i))
                &&& imported_signatures_held(p, self.catalog, *self.program)
                &&& forall|i: int, j: int|
                    #![trigger p.functions@[i], native_at(j)]
                    0 <= i < p.functions@.len() && 0 <= j < NATIVE_COUNT && fs[i].result_type.lexeme@ == native_name(native_at(j))
                        ==> p.functions@[i].result_type.0 == j
                &&& forall|i: int|
                    0 <= i < p.functions@.len() ==> {
                        &&& (#[trigger] p.functions@[i]).parameters@.len() == fs[i].parameters@.len()
                        &&& p.functions@[i].body.statements@.len() == fs[i].body.statements@.len()
                        &&& (fs[i].body.result.kind is Identifier ==> p.functions@[i].body.result.kind is Binding)
                        &&& (fs[i].body.result.kind is Literal ==> p.functions@[i].body.result.kind is Literal)
                    }
            },
    {
        let mut this = self;
        let ghost c = self.catalog;
        let ghost prog = *self.program;
        let ghost t0 = this.type_names@;
        proof {
            assert forall|n: Seq<char>| #[trigger] bound_in(t0)(n) == natives_known()(n) by {
                lemma_lookup_found(t0, n);
                if native_named(n) {
                    let i = choose|i: int| 0 <= i < NATIVE_COUNT && #[trigger] native_name(native_at(i)) == n;
                    assert(names(t0)[i] == n);
                }
                if names(t0).contains(n) {
                    let i = choose|i: int| 0 <= i < names(t0).len() && names(t0)[i] == n;
                    assert(t0[i].name@ == native_name(native_at(i)));
                }
            }
            assert(bound_in(t0) =~= natives_known());
            lemma_native_index_lookup(t0, 2);
            lemma_native_index_lookup(t0, 3);
            lemma_native_index_lookup(t0, 0);
        }
        this.collect_imports()?;
        let ghost sig1 = this.signatures@;
        proof {
            assert forall|i: int|
                0 <= i < prog.imports@.len() && c.has_signature(import_key(#[trigger] prog.imports@[i])) implies exists|d: int|
                0 <= d < sig1.len() && sig1[d].symbol.key() == import_key(prog.imports@[i]) by {
                let imp = prog.imports@[i];
                assert(this.import_bound(imp));
                let d = choose|d: usize|
                    this.signature_placed(import_key(imp), d) && #[trigger] direct_signature_ids(
                        this.signature_names@,
                        import_local_name(imp),
                    ).contains(d);
                let q = choose|q: int|
                    0 <= q < c.signature_keys().len() && q < this.shared_signatures@.len() && c.signature_keys()[q]
                        == import_key(imp) && #[trigger] this.shared_signatures@[q] == Some(d);
                assert(this.shared_signatures@[q] is Some);
                assert(sig1[d as int].symbol.key() == import_key(imp));
            }
        }
        let ghost t1 = this.type_names@;
        proof {
            assert forall|n: Seq<char>| #[trigger] bound_in(t1)(n) == imported_types_known(c, prog)(n) by {
                assert(bound_in(t0)(n) == natives_known()(n));
            }
            assert(bound_in(t1) =~= imported_types_known(c, prog));
        }
        let ids = this.register_local_type_shells()?;
        let ghost t2 = this.type_names@;
        proof {
            assert forall|n: Seq<char>| #[trigger] bound_in(t2)(n) == program_types_known(c, prog)(n) by {
                assert(bound_in(t1)(n) == imported_types_known(c, prog)(n));
            }
            assert(bound_in(t2) =~= program_types_known(c, prog));
        }
        this.populate_local_types(&ids)?;
        this.validate_recursive_type_cycles(&ids)?;
        proof {
            let decls = this.program.declarations@;
            if local_type_cycle(decls) {
                let p = choose|p: Seq<int>|
                    {
                        &&& p.len() >= 2
                        &&& p[0] == p.last()
                        &&& forall|i: int|
                            0 <= i < p.len() - 1 ==> 0 <= #[trigger] p[i] < decls.len() && 0 <= p[i + 1] < decls.len()
                                && declaration_contains(decls, p[i], p[i + 1])
                    };
                let g = type_graph(this.types@, this.metas@, ids@);
                assert forall|i: int| 0 <= i < p.len() - 1 implies edge(g, ids@[#[trigger] p[i]]->0 as int, ids@[p[i + 1]]->0 as int)
                    && ids@[p[i]] is Some && ids@[p[i + 1]] is Some by {
                    this.lemma_contains_edge(ids@, p[i], p[i + 1]);
                }
                let q = Seq::new((p.len() - 1) as nat, |i: int| ids@[p[i + 1]]->0 as int);
                assert forall|i: int| 0 <= i < q.len() - 1 implies edge(g, #[trigger] q[i], q[i + 1]) by {
                    assert(p[i + 1] == p[i + 1]);
                    assert(edge(g, ids@[p[i + 1]]->0 as int, ids@[p[i + 2]]->0 as int));
                }
                assert(is_path(g, q));
                assert(q.last() == ids@[p[0]]->0 as int);
                assert(reaches(g, q[0], q.last()));
                lemma_reaches_refl(g, ids@[p[0]]->0 as int);
                assert(edge(g, ids@[p[0]]->0 as int, ids@[p[1]]->0 as int));
                assert(cycle_reachable(g, ids@[p[0]]->0 as int));
                assert(ids@[p[0]] is Some);
                assert(false);
            }
        }
        let ghost t_headers = this.type_names@;
        proof {
            assert(bound_in(t_headers) =~= program_types_known(c, prog));
        }
        this.collect_function_headers()?;
        let ghost fs = function_definitions(this.program.declarations@);
        proof {
            assert forall|i: int| 0 <= i < this.function_headers@.len() implies body_parsed(#[trigger] this.function_headers@[i].ast.body) by {
                assert(this.header_declared(this.function_headers@[i], fs[i], i));
                lemma_function_definitions_in(this.program.declarations@, i);
                let k = choose|k: int|
                    0 <= k < this.program.declarations@.len() && this.program.declarations@[k] == Declaration::Function(fs[i]);
                assert(this.program.declarations@[k] matches Declaration::Function(f) ==> body_parsed(f.body));
            }
            if names_accepted(prog, c) && plain_program(prog) {
                assert(t0.len() <= this.type_names@.len() && this.type_names@.subrange(0, t0.len() as int) == t0);
                lemma_lookup_prefix(t0, this.type_names@, native_name(NativeType::Bool));
                lemma_lookup_prefix(t0, this.type_names@, native_name(NativeType::String));
                lemma_lookup_prefix(t0, this.type_names@, native_name(NativeType::Int));
                assert forall|i: int| 0 <= i < this.function_headers@.len() implies #[trigger] returns_parameter(
                    this.types@,
                    this.function_headers@[i],
                ) || returns_literal(this.types@, this.function_headers@[i]) by {
                    let f = fs[i];
                    let h = this.function_headers@[i];
                    assert(this.header_declared(h, f, i));
                    if returns_native_literal(f) {
                        assert(this.types@[0] == SemanticType::Native(native_at(0)));
                        assert(this.types@[2] == SemanticType::Native(native_at(2)));
                        assert(this.types@[3] == SemanticType::Native(native_at(3)));
                        assert(returns_literal(this.types@, h));
                    } else {
                    assert(returns_declared_parameter(f));
                    let k = choose|k: int| 0 <= k < f.parameters@.len() && #[trigger] result_parameter(f, k);
                    assert(this.param_declared(f.parameters@[k], h.parameters@[k]));
                    let id = f.body.result.kind->Identifier_0;
                    if let FormalParamMeta::Value { type_id: tk, .. } = h.parameters@[k] {
                        assert(value_param_typed(h.parameters@, k, id.lexeme@, tk));
                        assert(value_param_named(h.parameters@, h.parameters@.len() as int, id.lexeme@));
                        assert forall|j: int, t: usize|
                            0 <= j < h.parameters@.len() && #[trigger] value_param_typed(h.parameters@, j, id.lexeme@, t) implies value_compatible(
                            this.types@,
                            t as int,
                            h.result_type as int,
                        ) by {
                            assert(formal_param_names(h.parameters@)[j] == formal_param_names(h.parameters@)[k]);
                        }
                    }
                    }
                }
            }
        }
        let ghost before_bodies = this;
        this.analyze_function_bodies()?;
        proof {
            if names_accepted(prog, c) && plain_program(prog) {
                assert forall|i: int, g: usize| 0 <= i < this.functions@.len() implies !#[trigger] function_calls(
                    this.functions@[i],
                    g,
                ) by {
                    assert(this.function_headers@[i].ast.body == fs[i].body) by {
                        assert(before_bodies.header_declared(before_bodies.function_headers@[i], fs[i], i));
                    }
                    if returns_native_literal(fs[i]) {
                        assert(this.functions@[i].body.result.kind is Literal);
                    } else {
                        assert(returns_declared_parameter(fs[i]));
                        let k = choose|k: int| 0 <= k < fs[i].parameters@.len() && #[trigger] result_parameter(fs[i], k);
                        assert(this.functions@[i].body.result.kind is Binding);
                    }
                }
                lemma_no_calls_no_cycle(this.functions@);
            }
        }
        proof {
            assert(t0.len() <= this.type_names@.len() && this.type_names@.subrange(0, t0.len() as int) == t0);
            assert forall|i: int, j: int|
                0 <= i < this.functions@.len() && 0 <= j < NATIVE_COUNT && fs[i].result_type.lexeme@ == native_name(
                    native_at(j),
                ) implies this.functions@[i].result_type.0 == j by {
                assert(before_bodies.header_declared(before_bodies.function_headers@[i], fs[i], i));
                lemma_native_index_lookup(t0, j);
                lemma_lookup_prefix(t0, this.type_names@, native_name(native_at(j)));
            }
            assert forall|i: int| 0 <= i < this.functions@.len() implies this.function_headers@[i].ast.body == fs[i].body by {
                assert(before_bodies.header_declared(before_bodies.function_headers@[i], fs[i], i));
            }
        }
        this.validate_function_call_graph()?;
        let mut entry: usize = 0;
        let mut found = false;
        let mut i: usize = 0;
        while i < this.function_headers.len()
            invariant
                i <= this.function_headers@.len(),
                this.function_headers@.len() == fs.len(),
                forall|j: int| 0 <= j < fs.len() ==> *(#[trigger] this.function_headers@[j]).ast == fs[j],
                found ==> (entry as int) < fs.len() && fs[entry as int].visibility is Public,
                found ==> forall|j: int| 0 <= j < entry ==> !(#[trigger] fs[j].visibility is Public),
                !found ==> forall|j: int| 0 <= j < i ==> !(#[trigger] fs[j].visibility is Public),
            decreases this.function_headers@.len() - i,
        {
            if !found {
                if let Visibility::Public = this.function_headers[i].ast.visibility {
                    proof {
                        assert(*this.function_headers@[i as int].ast == fs[i as int]);
                    }
                    entry = i;
                    found = true;
                }
            }
            i = i + 1;
        }
        if !found {
            proof {
                let ds = this.program.declarations@;
                let k = choose|k: int| 0 <= k < ds.len() && public_function(#[trigger] ds[k]);
                lemma_function_definitions_has(ds, k);
                let j = choose|j: int| 0 <= j < fs.len() && Declaration::Function(fs[j]) == ds[k];
                assert(fs[j].visibility is Public);
            }
            return vstd::pervasive::unreached();
        }
        proof {
            assert(sig1.len() <= this.signatures@.len());
            assert forall|i: int|
                0 <= i < prog.imports@.len() && c.has_signature(import_key(#[trigger] prog.imports@[i])) implies exists|d: int|
                0 <= d < this.signatures@.len() && this.signatures@[d].symbol.key() == import_key(prog.imports@[i]) by {
                let d = choose|d: int| 0 <= d < sig1.len() && sig1[d].symbol.key() == import_key(prog.imports@[i]);
                assert(this.signatures@[d] == sig1[d]);
            }
        }
        let p = SemanticProgram {
            types: this.types,
            signatures: this.signatures,
            functions: this.functions,
            entry_function: FunctionId(entry),
        };
        proof {
            assert(p.signatures@ == this.signatures@);
            assert(imported_signatures_held(p, c, prog));
        }
        Ok(p)
    }
}

/// Analyses `program` against the application's `catalog`: resolves every
/// name, types every expression, and checks the rules of the language. On
/// success every name of the program follows the rules, the analysed program
/// refers only to entries of its own tables, no
/// function calls itself directly or through others, every binding and result
/// holds a value of its declared type, and the entry function is the first
/// public one; the first types are the native ones in their fixed order, and
/// no local type contains itself. A refused import, the first in order, is
/// reported as such; so is a refused local type name when the imports pass,
/// the first refused member of a local type when the imports and the type
/// names pass, a type that contains itself when all names pass, and, when
/// the names of the imports and local types pass, the failure of the first
/// refused function header or a type cycle. Each function's result is a
/// binding where a name is returned and a literal where one is written, and
/// a result type written as a native name is that native type. A program of
/// functions alone whose names follow the rules, none claiming a signature
/// and each returning one of its parameters or a literal of its native
/// result type, is accepted.
pub fn analyze_program(program: &Program, catalog: &CompilationCatalog) -> (r: Result<
    SemanticProgram,
    CompileFailure,
>)
    requires
        catalog_closed(catalog),
        program_parsed(*program),
    ensures
        r is Ok ==> names_accepted(*program, catalog),
        r is Ok ==> !local_type_cycle(program.declarations@),
        (forall|i: int| 0 <= i < program.imports@.len() ==> !#[trigger] import_refused(natives_known(), catalog, program.imports@, i))
                && (forall|k: int| 0 <= k < program.declarations@.len() ==> !#[trigger] shell_refused(imported_types_known(catalog, *program), program.declarations@, k))
                && (forall|k: int| 0 <= k < program.declarations@.len() ==> members_accepted(program_types_known(catalog, *program), #[trigger] program.declarations@[k]))
                && local_type_cycle(program.declarations@) ==> (r matches Err(e) && e.kind == crate::failures::CompileFailureKind::Semantic(
                SemanticFailure::Declaration(DeclarationFailure::RecursiveTypeCycle),
            )),
        (forall|i: int| 0 <= i < program.imports@.len() ==> !#[trigger] import_refused(natives_known(), catalog, program.imports@, i))
                && (exists|k: int| 0 <= k < program.declarations@.len() && #[trigger] shell_refused(imported_types_known(catalog, *program), program.declarations@, k))
                ==> (r matches Err(e) && exists|k: int|
                0 <= k < program.declarations@.len() && shell_refused(imported_types_known(catalog, *program), program.declarations@, k)
                    && shell_failure_fits(program.declarations@, k, e) && forall|j: int|
                    0 <= j < k ==> !shell_refused(imported_types_known(catalog, *program), program.declarations@, j)),
        (forall|i: int| 0 <= i < program.imports@.len() ==> !#[trigger] import_refused(natives_known(), catalog, program.imports@, i))
                && (forall|k: int| 0 <= k < program.declarations@.len() ==> !#[trigger] shell_refused(imported_types_known(catalog, *program), program.declarations@, k))
                && (exists|k: int| 0 <= k < program.declarations@.len() && !members_accepted(program_types_known(catalog, *program), #[trigger] program.declarations@[k]))
                ==> (r matches Err(e) && exists|k: int|
                0 <= k < program.declarations@.len() && !members_accepted(program_types_known(catalog, *program), program.declarations@[k])
                    && members_failure(program_types_known(catalog, *program), program.declarations@[k], e) && forall|j: int|
                    0 <= j < k ==> members_accepted(program_types_known(catalog, *program), #[trigger] program.declarations@[j])),
        (forall|i: int| 0 <= i < program.imports@.len() ==> !#[trigger] import_refused(natives_known(), catalog, program.imports@, i))
                && (forall|k: int| 0 <= k < program.declarations@.len() ==> !#[trigger] shell_refused(imported_types_known(catalog, *program), program.declarations@, k))
                && (forall|k: int| 0 <= k < program.declarations@.len() ==> members_accepted(program_types_known(catalog, *program), #[trigger] program.declarations@[k]))
                && (exists|i: int| 0 <= i < function_definitions(program.declarations@).len() && #[trigger] header_refused(
                    program_types_known(catalog, *program), *catalog, function_definitions(program.declarations@), i))
                ==> (r matches Err(e) && (e.kind == crate::failures::CompileFailureKind::Semantic(
                    SemanticFailure::Declaration(DeclarationFailure::RecursiveTypeCycle),
                ) || exists|i: int|
                0 <= i < function_definitions(program.declarations@).len() && header_failure_fits(
                    program_types_known(catalog, *program), *catalog, function_definitions(program.declarations@), i, e)
                    && forall|j: int| 0 <= j < i ==> !#[trigger] header_refused(
                    program_types_known(catalog, *program), *catalog, function_definitions(program.declarations@), j))),
        (exists|i: int| 0 <= i < program.imports@.len() && #[trigger] import_refused(natives_known(), catalog, program.imports@, i)) ==> (r matches Err(e) && exists|i: int|
                0 <= i < program.imports@.len() && import_refused(natives_known(), catalog, program.imports@, i)
                    && import_failure_fits(natives_known(), catalog, program.imports@, i, e) && forall|j: int|
                    0 <= j < i ==> !import_refused(natives_known(), catalog, program.imports@, j)),
        names_accepted(*program, catalog) && plain_program(*program) ==> r is Ok,
        r matches Ok(p) ==> {
            let fs = function_definitions(program.declarations@);
            &&& program_wf(p)
            &&& p.functions@.len() == fs.len()
            &&& fs[p.entry_function.0 as int].visibility is Public
            &&& forall|j: int| 0 <= j < p.entry_function.0 ==> !(#[trigger] fs[j].visibility is Public)
            &&& forall|i: int| 0 <= i < p.functions@.len() ==> function_typed(#[trigger] p.functions@[i], p.types@)
            &&& !call_cycle(p.functions@)
            &&& forall|i: int| 0 <= i < NATIVE_COUNT ==> #[trigger] p.types@[i] == SemanticType::Native(native_at(i))
            &&& imported_signatures_held(p, catalog, *program)
            &&& forall|i: int, j: int|
                #![trigger p.functions@[i], native_at(j)]
                0 <= i < p.functions@.len() && 0 <= j < NATIVE_COUNT && fs[i].result_type.lexeme@ == native_name(native_at(j))
                    ==> p.functions@[i].result_type.0 == j
            &&& forall|i: int|
                0 <= i < p.functions@.len() ==> {
                    &&& (#[trigger] p.functions@[i]).parameters@.len() == fs[i].parameters@.len()
                    &&& p.functions@[i].body.statements@.len() == fs[i].body.statements@.len()
                    &&& (fs[i].body.result.kind is Identifier ==> p.functions@[i].body.result.kind is Binding)
                    &&& (fs[i].body.result.kind is Literal ==> p.functions@[i].body.result.kind is Literal)
                }
        },
{
    let analyzer = Analyzer::new(program, catalog);
    analyzer.analyze()
}

} // verus!
