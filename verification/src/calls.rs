//! The call graph of the analysed functions: which function calls which, and
//! the rule that no function may call itself, directly or through others.
use vstd::prelude::*;

use crate::analyzer::{Analyzer, fail, semantic_failure};
use crate::body::{expr_wf, function_wf};
use crate::failures::{CallFailure, CompileFailure, SemanticFailure};
use crate::graph::{cycle_reachable, edge, find_cycle, graph_wf, is_path, reaches};
use crate::lexical::SourceSpan;
use crate::semantic::{
    SemanticArgument, SemanticCallTarget, SemanticEnumPayload, SemanticExpression,
    SemanticExpressionKind, SemanticFunction, SemanticStatement,
};

verus! {

/// `e` contains a call of the program's function `g`.
pub open spec fn expr_calls(e: SemanticExpression, g: usize) -> bool
    decreases e,
{
    match e.kind {
        SemanticExpressionKind::Literal(_) => false,
        SemanticExpressionKind::Binding(_) => false,
        SemanticExpressionKind::Unary { operand, .. } => expr_calls(*operand, g),
        SemanticExpressionKind::Binary { left, right, .. } => expr_calls(*left, g) || expr_calls(*right, g),
        SemanticExpressionKind::Conversion { operand } => expr_calls(*operand, g),
        SemanticExpressionKind::FieldAccess { receiver, .. } => expr_calls(*receiver, g),
        SemanticExpressionKind::Call(c) => {
            ||| c.target == SemanticCallTarget::Internal(crate::semantic::FunctionId(g))
            ||| exists|i: int|
                0 <= i < c.arguments@.len() && match #[trigger] c.arguments@[i] {
                    SemanticArgument::Value(v) => expr_calls(v, g),
                    SemanticArgument::SignatureDependency(_) => false,
                }
        },
        SemanticExpressionKind::StructConstruction { fields } => exists|i: int|
            0 <= i < fields@.len() && expr_calls(#[trigger] fields@[i].value, g),
        SemanticExpressionKind::EnumConstruction { payload, .. } => match payload {
            SemanticEnumPayload::Simple => false,
            SemanticEnumPayload::Associated { value } => expr_calls(*value, g),
            SemanticEnumPayload::Structured { fields } => exists|i: int|
                0 <= i < fields@.len() && expr_calls(#[trigger] fields@[i].value, g),
        },
        SemanticExpressionKind::When(w) => {
            ||| expr_calls(*w.subject, g)
            ||| exists|i: int| 0 <= i < w.branches@.len() && expr_calls(#[trigger] w.branches@[i].result, g)
        },
    }
}

pub open spec fn statement_value(st: SemanticStatement) -> SemanticExpression {
    match st {
        SemanticStatement::Bind { value, .. } => value,
        SemanticStatement::Operation(e) => e,
    }
}

/// The body of `f` calls the program's function `g`.
pub open spec fn function_calls(f: SemanticFunction, g: usize) -> bool {
    ||| exists|i: int|
        0 <= i < f.body.statements@.len() && expr_calls(statement_value(#[trigger] f.body.statements@[i]), g)
    ||| expr_calls(f.body.result, g)
}

/// Some function calls itself, directly or through a chain of calls: a walk
/// along calls that returns to where it started.
pub open spec fn call_cycle(fs: Seq<SemanticFunction>) -> bool {
    exists|p: Seq<int>|
        {
            &&& p.len() >= 2
            &&& p[0] == p.last()
            &&& forall|i: int|
                0 <= i < p.len() - 1 ==> 0 <= #[trigger] p[i] < fs.len() && 0 <= p[i + 1] < fs.len()
                    && function_calls(fs[p[i]], p[i + 1] as usize)
        }
}

/// `e` contains a call of the program's function `g` whose span is `sp`.
pub open spec fn expr_call_span(e: SemanticExpression, g: usize, sp: SourceSpan) -> bool
    decreases e,
{
    match e.kind {
        SemanticExpressionKind::Literal(_) => false,
        SemanticExpressionKind::Binding(_) => false,
        SemanticExpressionKind::Unary { operand, .. } => expr_call_span(*operand, g, sp),
        SemanticExpressionKind::Binary { left, right, .. } => expr_call_span(*left, g, sp) || expr_call_span(
            *right,
            g,
            sp,
        ),
        SemanticExpressionKind::Conversion { operand } => expr_call_span(*operand, g, sp),
        SemanticExpressionKind::FieldAccess { receiver, .. } => expr_call_span(*receiver, g, sp),
        SemanticExpressionKind::Call(c) => {
            ||| (c.target == SemanticCallTarget::Internal(crate::semantic::FunctionId(g)) && e.span == sp)
            ||| exists|i: int|
                0 <= i < c.arguments@.len() && match #[trigger] c.arguments@[i] {
                    SemanticArgument::Value(v) => expr_call_span(v, g, sp),
                    SemanticArgument::SignatureDependency(_) => false,
                }
        },
        SemanticExpressionKind::StructConstruction { fields } => exists|i: int|
            0 <= i < fields@.len() && expr_call_span(#[trigger] fields@[i].value, g, sp),
        SemanticExpressionKind::EnumConstruction { payload, .. } => match payload {
            SemanticEnumPayload::Simple => false,
            SemanticEnumPayload::Associated { value } => expr_call_span(*value, g, sp),
            SemanticEnumPayload::Structured { fields } => exists|i: int|
                0 <= i < fields@.len() && expr_call_span(#[trigger] fields@[i].value, g, sp),
        },
        SemanticExpressionKind::When(w) => {
            ||| expr_call_span(*w.subject, g, sp)
            ||| exists|i: int| 0 <= i < w.branches@.len() && expr_call_span(#[trigger] w.branches@[i].result, g, sp)
        },
    }
}

/// The body of `f` holds a call of the program's function `g` whose span is
/// `sp`.
pub open spec fn function_call_span(f: SemanticFunction, g: usize, sp: SourceSpan) -> bool {
    ||| exists|i: int|
        0 <= i < f.body.statements@.len() && expr_call_span(statement_value(#[trigger] f.body.statements@[i]), g, sp)
    ||| expr_call_span(f.body.result, g, sp)
}

/// From `(t0, s0)` to `(t, s)` calls were only appended, each a call in `e`
/// of its target with its span.
spec fn entries_from(
    e: SemanticExpression,
    t0: Seq<usize>,
    s0: Seq<SourceSpan>,
    t: Seq<usize>,
    s: Seq<SourceSpan>,
) -> bool {
    &&& t0.len() <= t.len()
    &&& t.len() == s.len()
    &&& t0.len() == s0.len()
    &&& t.subrange(0, t0.len() as int) == t0
    &&& s.subrange(0, s0.len() as int) == s0
    &&& forall|i: int| t0.len() <= i < t.len() ==> #[trigger] expr_call_span(e, t[i], s[i])
}

/// Every call with its span in `x` is one in `e`.
spec fn span_part_of(x: SemanticExpression, e: SemanticExpression) -> bool {
    forall|g: usize, sp: SourceSpan| #[trigger] expr_call_span(x, g, sp) ==> expr_call_span(e, g, sp)
}

proof fn lemma_entries_refl(e: SemanticExpression, t: Seq<usize>, s: Seq<SourceSpan>)
    requires
        t.len() == s.len(),
    ensures
        entries_from(e, t, s, t, s),
{
    assert(t.subrange(0, t.len() as int) =~= t);
    assert(s.subrange(0, s.len() as int) =~= s);
}

proof fn lemma_entries_chain(
    e: SemanticExpression,
    x: SemanticExpression,
    t0: Seq<usize>,
    s0: Seq<SourceSpan>,
    t1: Seq<usize>,
    s1: Seq<SourceSpan>,
    t2: Seq<usize>,
    s2: Seq<SourceSpan>,
)
    requires
        entries_from(e, t0, s0, t1, s1),
        entries_from(x, t1, s1, t2, s2),
        span_part_of(x, e),
    ensures
        entries_from(e, t0, s0, t2, s2),
{
    assert(t2.subrange(0, t0.len() as int) =~= t1.subrange(0, t0.len() as int)) by {
        assert forall|i: int| 0 <= i < t0.len() implies t2[i] == t1[i] by {
            assert(t2.subrange(0, t1.len() as int)[i] == t1[i]);
        }
    }
    assert(s2.subrange(0, s0.len() as int) =~= s1.subrange(0, s0.len() as int)) by {
        assert forall|i: int| 0 <= i < s0.len() implies s2[i] == s1[i] by {
            assert(s2.subrange(0, s1.len() as int)[i] == s1[i]);
        }
    }
    assert forall|i: int| t0.len() <= i < t2.len() implies #[trigger] expr_call_span(e, t2[i], s2[i]) by {
        if i < t1.len() {
            assert(t2[i] == t2.subrange(0, t1.len() as int)[i]);
            assert(s2[i] == s2.subrange(0, s1.len() as int)[i]);
            assert(expr_call_span(e, t1[i], s1[i]));
        } else {
            assert(expr_call_span(x, t2[i], s2[i]));
        }
    }
}

/// What calls of the program's functions `e` makes: their targets, and the
/// spans of the calls, in parallel.
fn collect_internal_calls(
    e: &SemanticExpression,
    targets: &mut Vec<usize>,
    spans: &mut Vec<SourceSpan>,
    Ghost(bounds): Ghost<(nat, nat, nat, nat, nat)>,
)
    requires
        expr_wf(*e, bounds.0, bounds.1, bounds.2, bounds.3, bounds.4),
        old(targets)@.len() == old(spans)@.len(),
    ensures
        final(targets)@.len() == final(spans)@.len(),
        forall|g: usize| #[trigger] final(targets)@.contains(g) <==> (old(targets)@.contains(g) || expr_calls(*e, g)),
        forall|i: int|
            0 <= i < final(targets)@.len() ==> old(targets)@.contains(#[trigger] final(targets)@[i]) || (final(targets)@[i] as int)
                < bounds.1,
        entries_from(*e, old(targets)@, old(spans)@, final(targets)@, final(spans)@),
    decreases e,
{
    let ghost (nt, nf, ns, nb, nsb) = bounds;
    let ghost t0 = targets@;
    let ghost s0 = spans@;
    proof {
        lemma_entries_refl(*e, t0, s0);
    }
    match &e.kind {
        SemanticExpressionKind::Literal(_) | SemanticExpressionKind::Binding(_) => {},
        SemanticExpressionKind::Unary { operand, .. } => {
            collect_internal_calls(operand, targets, spans, Ghost(bounds));
            proof {
                assert(span_part_of(**operand, *e));
                lemma_entries_chain(*e, **operand, t0, s0, t0, s0, targets@, spans@);
            }
        },
        SemanticExpressionKind::Conversion { operand } => {
            collect_internal_calls(operand, targets, spans, Ghost(bounds));
            proof {
                assert(span_part_of(**operand, *e));
                lemma_entries_chain(*e, **operand, t0, s0, t0, s0, targets@, spans@);
            }
        },
        SemanticExpressionKind::FieldAccess { receiver, .. } => {
            collect_internal_calls(receiver, targets, spans, Ghost(bounds));
            proof {
                assert(span_part_of(**receiver, *e));
                lemma_entries_chain(*e, **receiver, t0, s0, t0, s0, targets@, spans@);
            }
        },
        SemanticExpressionKind::Binary { left, right, .. } => {
            collect_internal_calls(left, targets, spans, Ghost(bounds));
            let ghost t1 = targets@;
            let ghost s1 = spans@;
            proof {
                assert(span_part_of(**left, *e));
                lemma_entries_chain(*e, **left, t0, s0, t0, s0, t1, s1);
            }
            collect_internal_calls(right, targets, spans, Ghost(bounds));
            proof {
                assert(span_part_of(**right, *e));
                lemma_entries_chain(*e, **right, t0, s0, t1, s1, targets@, spans@);
                assert forall|i: int| 0 <= i < targets@.len() implies t0.contains(#[trigger] targets@[i]) || (targets@[i] as int) < nf by {
                    if t1.contains(targets@[i]) && !t0.contains(targets@[i]) {
                        let j = choose|j: int| 0 <= j < t1.len() && t1[j] == targets@[i];
                        assert(t0.contains(t1[j]) || (t1[j] as int) < nf);
                    }
                }
            }
        },
        SemanticExpressionKind::Call(c) => {
            if let SemanticCallTarget::Internal(fid) = &c.target {
                let ghost tb = targets@;
                let ghost sb = spans@;
                targets.push(fid.0);
                spans.push(e.span);
                proof {
                    assert(expr_call_span(*e, fid.0, e.span));
                    assert(targets@.subrange(0, t0.len() as int) =~= t0);
                    assert(spans@.subrange(0, s0.len() as int) =~= s0);
                    assert(entries_from(*e, t0, s0, targets@, spans@)) by {
                        assert forall|i: int| t0.len() <= i < targets@.len() implies #[trigger] expr_call_span(
                            *e,
                            targets@[i],
                            spans@[i],
                        ) by {
                            assert(targets@[i] == fid.0 && spans@[i] == e.span);
                        }
                    }
                    assert forall|g: usize| #[trigger] targets@.contains(g) <==> (t0.contains(g) || g == fid.0) by {
                        if targets@.contains(g) && !t0.contains(g) {
                            let j = choose|j: int| 0 <= j < targets@.len() && targets@[j] == g;
                            if j < t0.len() {
                                assert(t0[j] == g);
                            }
                        }
                        if g == fid.0 {
                            assert(targets@[targets@.len() - 1] == g);
                        }
                        if t0.contains(g) {
                            let j = choose|j: int| 0 <= j < t0.len() && t0[j] == g;
                            assert(targets@[j] == g);
                        }
                    }
                }
            }
            let ghost t1 = targets@;
            let mut k: usize = 0;
            while k < c.arguments.len()
                invariant
                    e.kind == SemanticExpressionKind::Call(*c),
                    expr_wf(*e, nt, nf, ns, nb, nsb),
                    bounds == (nt, nf, ns, nb, nsb),
                    k <= c.arguments@.len(),
                    targets@.len() == spans@.len(),
                    forall|g: usize|
                        #[trigger] targets@.contains(g) <==> (t1.contains(g) || exists|i: int|
                            0 <= i < k && match #[trigger] c.arguments@[i] {
                                SemanticArgument::Value(v) => expr_calls(v, g),
                                SemanticArgument::SignatureDependency(_) => false,
                            }),
                    forall|i: int| 0 <= i < targets@.len() ==> t0.contains(#[trigger] targets@[i]) || (targets@[i] as int) < nf,
                    entries_from(*e, t0, s0, targets@, spans@),
                decreases c.arguments@.len() - k,
            {
                let ghost before = targets@;
                let ghost before_spans = spans@;
                if let SemanticArgument::Value(v) = &c.arguments[k] {
                    proof {
                        assert(expr_wf(*v, nt, nf, ns, nb, nsb));
                    }
                    collect_internal_calls(v, targets, spans, Ghost(bounds));
                    proof {
                        assert(span_part_of(*v, *e)) by {
                            assert forall|g: usize, sp: SourceSpan| #[trigger] expr_call_span(*v, g, sp) implies expr_call_span(
                                *e,
                                g,
                                sp,
                            ) by {
                                assert(c.arguments@[k as int] == SemanticArgument::Value(*v));
                            }
                        }
                        lemma_entries_chain(*e, *v, t0, s0, before, before_spans, targets@, spans@);
                    }
                }
                proof {
                    assert forall|g: usize|
                        #[trigger] targets@.contains(g) <==> (t1.contains(g) || exists|i: int|
                            0 <= i < k + 1 && match #[trigger] c.arguments@[i] {
                                SemanticArgument::Value(v) => expr_calls(v, g),
                                SemanticArgument::SignatureDependency(_) => false,
                            }) by {
                        if exists|i: int| 0 <= i < k + 1 && match #[trigger] c.arguments@[i] {
                            SemanticArgument::Value(v) => expr_calls(v, g),
                            SemanticArgument::SignatureDependency(_) => false,
                        } {
                            let i = choose|i: int| 0 <= i < k + 1 && match #[trigger] c.arguments@[i] {
                                SemanticArgument::Value(v) => expr_calls(v, g),
                                SemanticArgument::SignatureDependency(_) => false,
                            };
                            if i < k {
                                assert(before.contains(g));
                            }
                        }
                    }
                    assert forall|i: int| 0 <= i < targets@.len() implies t0.contains(#[trigger] targets@[i]) || (targets@[i] as int) < nf by {
                        if before.contains(targets@[i]) && !t0.contains(targets@[i]) {
                            let j = choose|j: int| 0 <= j < before.len() && before[j] == targets@[i];
                            assert(t0.contains(before[j]) || (before[j] as int) < nf);
                        }
                    }
                }
                k = k + 1;
            }
        },
        SemanticExpressionKind::StructConstruction { fields } => {
            let mut k: usize = 0;
            while k < fields.len()
                invariant
                    e.kind == (SemanticExpressionKind::StructConstruction { fields: *fields }),
                    expr_wf(*e, nt, nf, ns, nb, nsb),
                    bounds == (nt, nf, ns, nb, nsb),
                    k <= fields@.len(),
                    targets@.len() == spans@.len(),
                    forall|g: usize|
                        #[trigger] targets@.contains(g) <==> (t0.contains(g) || exists|i: int|
                            0 <= i < k && expr_calls(#[trigger] fields@[i].value, g)),
                    forall|i: int| 0 <= i < targets@.len() ==> t0.contains(#[trigger] targets@[i]) || (targets@[i] as int) < nf,
                    entries_from(*e, t0, s0, targets@, spans@),
                decreases fields@.len() - k,
            {
                let ghost before = targets@;
                let ghost before_spans = spans@;
                collect_internal_calls(&fields[k].value, targets, spans, Ghost(bounds));
                proof {
                    assert(span_part_of(fields@[k as int].value, *e)) by {
                        assert forall|g: usize, sp: SourceSpan| #[trigger] expr_call_span(fields@[k as int].value, g, sp) implies expr_call_span(
                            *e,
                            g,
                            sp,
                        ) by {
                        }
                    }
                    lemma_entries_chain(*e, fields@[k as int].value, t0, s0, before, before_spans, targets@, spans@);
                    assert forall|g: usize|
                        #[trigger] targets@.contains(g) <==> (t0.contains(g) || exists|i: int|
                            0 <= i < k + 1 && expr_calls(#[trigger] fields@[i].value, g)) by {
                        if exists|i: int| 0 <= i < k + 1 && expr_calls(#[trigger] fields@[i].value, g) {
                            let i = choose|i: int| 0 <= i < k + 1 && expr_calls(#[trigger] fields@[i].value, g);
                            if i < k {
                                assert(before.contains(g));
                            }
                        }
                    }
                    assert forall|i: int| 0 <= i < targets@.len() implies t0.contains(#[trigger] targets@[i]) || (targets@[i] as int) < nf by {
                        if before.contains(targets@[i]) && !t0.contains(targets@[i]) {
                            let j = choose|j: int| 0 <= j < before.len() && before[j] == targets@[i];
                            assert(t0.contains(before[j]) || (before[j] as int) < nf);
                        }
                    }
                }
                k = k + 1;
            }
        },
        SemanticExpressionKind::EnumConstruction { payload, .. } => match payload {
            SemanticEnumPayload::Simple => {},
            SemanticEnumPayload::Associated { value } => {
                collect_internal_calls(value, targets, spans, Ghost(bounds));
            proof {
                assert(span_part_of(**value, *e));
                lemma_entries_chain(*e, **value, t0, s0, t0, s0, targets@, spans@);
            }
            },
            SemanticEnumPayload::Structured { fields } => {
                let mut k: usize = 0;
                while k < fields.len()
                    invariant
                        e.kind matches SemanticExpressionKind::EnumConstruction { payload: p, .. } && p == (SemanticEnumPayload::Structured { fields: *fields }),
                        expr_wf(*e, nt, nf, ns, nb, nsb),
                        bounds == (nt, nf, ns, nb, nsb),
                    bounds == (nt, nf, ns, nb, nsb),
                        k <= fields@.len(),
                        targets@.len() == spans@.len(),
                        forall|g: usize|
                            #[trigger] targets@.contains(g) <==> (t0.contains(g) || exists|i: int|
                                0 <= i < k && expr_calls(#[trigger] fields@[i].value, g)),
                        forall|i: int| 0 <= i < targets@.len() ==> t0.contains(#[trigger] targets@[i]) || (targets@[i] as int) < nf,
                        entries_from(*e, t0, s0, targets@, spans@),
                    decreases fields@.len() - k,
                {
                    let ghost before = targets@;
                    let ghost before_spans = spans@;
                    collect_internal_calls(&fields[k].value, targets, spans, Ghost(bounds));
                    proof {
                        assert(span_part_of(fields@[k as int].value, *e)) by {
                            assert forall|g: usize, sp: SourceSpan| #[trigger] expr_call_span(fields@[k as int].value, g, sp) implies expr_call_span(
                                *e,
                                g,
                                sp,
                            ) by {
                            }
                        }
                        lemma_entries_chain(*e, fields@[k as int].value, t0, s0, before, before_spans, targets@, spans@);
                        assert forall|g: usize|
                            #[trigger] targets@.contains(g) <==> (t0.contains(g) || exists|i: int|
                                0 <= i < k + 1 && expr_calls(#[trigger] fields@[i].value, g)) by {
                            if exists|i: int| 0 <= i < k + 1 && expr_calls(#[trigger] fields@[i].value, g) {
                                let i = choose|i: int| 0 <= i < k + 1 && expr_calls(#[trigger] fields@[i].value, g);
                                if i < k {
                                    assert(before.contains(g));
                                }
                            }
                        }
                        assert forall|i: int| 0 <= i < targets@.len() implies t0.contains(#[trigger] targets@[i]) || (targets@[i] as int) < nf by {
                            if before.contains(targets@[i]) && !t0.contains(targets@[i]) {
                                let j = choose|j: int| 0 <= j < before.len() && before[j] == targets@[i];
                                assert(t0.contains(before[j]) || (before[j] as int) < nf);
                            }
                        }
                    }
                    k = k + 1;
                }
            },
        },
        SemanticExpressionKind::When(w) => {
            collect_internal_calls(&w.subject, targets, spans, Ghost(bounds));
            proof {
                assert(span_part_of(*w.subject, *e));
                lemma_entries_chain(*e, *w.subject, t0, s0, t0, s0, targets@, spans@);
            }
            let ghost t1 = targets@;
            let mut k: usize = 0;
            while k < w.branches.len()
                invariant
                    e.kind == SemanticExpressionKind::When(*w),
                    expr_wf(*e, nt, nf, ns, nb, nsb),
                    bounds == (nt, nf, ns, nb, nsb),
                    k <= w.branches@.len(),
                    targets@.len() == spans@.len(),
                    forall|g: usize|
                        #[trigger] targets@.contains(g) <==> (t1.contains(g) || exists|i: int|
                            0 <= i < k && expr_calls(#[trigger] w.branches@[i].result, g)),
                    forall|i: int| 0 <= i < targets@.len() ==> t0.contains(#[trigger] targets@[i]) || (targets@[i] as int) < nf,
                    entries_from(*e, t0, s0, targets@, spans@),
                decreases w.branches@.len() - k,
            {
                let ghost before = targets@;
                let ghost before_spans = spans@;
                collect_internal_calls(&w.branches[k].result, targets, spans, Ghost(bounds));
                proof {
                    assert(span_part_of(w.branches@[k as int].result, *e)) by {
                        assert forall|g: usize, sp: SourceSpan| #[trigger] expr_call_span(w.branches@[k as int].result, g, sp) implies expr_call_span(
                            *e,
                            g,
                            sp,
                        ) by {
                        }
                    }
                    lemma_entries_chain(*e, w.branches@[k as int].result, t0, s0, before, before_spans, targets@, spans@);
                    assert forall|g: usize|
                        #[trigger] targets@.contains(g) <==> (t1.contains(g) || exists|i: int|
                            0 <= i < k + 1 && expr_calls(#[trigger] w.branches@[i].result, g)) by {
                        if exists|i: int| 0 <= i < k + 1 && expr_calls(#[trigger] w.branches@[i].result, g) {
                            let i = choose|i: int| 0 <= i < k + 1 && expr_calls(#[trigger] w.branches@[i].result, g);
                            if i < k {
                                assert(before.contains(g));
                            }
                        }
                    }
                    assert forall|i: int| 0 <= i < targets@.len() implies t0.contains(#[trigger] targets@[i]) || (targets@[i] as int) < nf by {
                        if before.contains(targets@[i]) && !t0.contains(targets@[i]) {
                            let j = choose|j: int| 0 <= j < before.len() && before[j] == targets@[i];
                            assert(t0.contains(before[j]) || (before[j] as int) < nf);
                        }
                    }
                }
                k = k + 1;
            }
        },
    }
}

/// The graph whose edges are the calls between functions.
pub open spec fn calls_graph_of(g: Seq<Seq<usize>>, fs: Seq<SemanticFunction>) -> bool {
    &&& g.len() == fs.len()
    &&& forall|u: int, v: usize| 0 <= u < g.len() ==> (#[trigger] g[u].contains(v) <==> function_calls(fs[u], v))
}

proof fn lemma_edge_is_call(g: Seq<Seq<usize>>, fs: Seq<SemanticFunction>, u: int, v: int)
    requires
        calls_graph_of(g, fs),
        0 <= u < g.len(),
        0 <= v <= usize::MAX,
    ensures
        edge(g, u, v) <==> function_calls(fs[u], v as usize),
{
    if edge(g, u, v) {
        let k = choose|k: int| 0 <= k < g[u].len() && g[u][k] as int == v;
        assert(g[u][k] == v as usize);
        assert(g[u].contains(v as usize));
    }
    if function_calls(fs[u], v as usize) {
        assert(g[u].contains(v as usize));
        let k = choose|k: int| 0 <= k < g[u].len() && g[u][k] == v as usize;
        assert(g[u][k] as int == v);
    }
}

/// A call cycle through `p[0]` makes a cycle reachable from it.
proof fn lemma_call_cycle_reachable(g: Seq<Seq<usize>>, fs: Seq<SemanticFunction>, p: Seq<int>)
    requires
        calls_graph_of(g, fs),
        p.len() >= 2,
        p[0] == p.last(),
        forall|i: int|
            0 <= i < p.len() - 1 ==> 0 <= #[trigger] p[i] < fs.len() && 0 <= p[i + 1] < fs.len()
                && function_calls(fs[p[i]], p[i + 1] as usize),
        g.len() <= usize::MAX,
    ensures
        cycle_reachable(g, p[0]),
{
    let a = p[0];
    crate::graph::lemma_reaches_refl(g, a);
    assert(0 <= p[0] < fs.len());
    lemma_edge_is_call(g, fs, a, p[1]);
    let q = p.subrange(1, p.len() as int);
    assert forall|i: int| 0 <= i < q.len() - 1 implies edge(g, #[trigger] q[i], q[i + 1]) by {
        assert(q[i] == p[i + 1] && q[i + 1] == p[i + 2]);
        assert(0 <= p[i + 1] < fs.len());
        lemma_edge_is_call(g, fs, p[i + 1], p[i + 2]);
    }
    assert(is_path(g, q) && q[0] == p[1] && q.last() == a);
    assert(reaches(g, p[1], a));
    assert(edge(g, a, p[1]));
}

/// An edge that closes a cycle gives a call cycle.
proof fn lemma_cycle_gives_call_cycle(g: Seq<Seq<usize>>, fs: Seq<SemanticFunction>, u: int, v: int)
    requires
        calls_graph_of(g, fs),
        graph_wf(g),
        0 <= u < g.len(),
        edge(g, u, v),
        reaches(g, v, u),
        g.len() <= usize::MAX,
    ensures
        call_cycle(fs),
{
    let q = choose|q: Seq<int>| is_path(g, q) && q[0] == v && q.last() == u;
    let p = seq![u] + q;
    lemma_edge_is_call(g, fs, u, v);
    let k = choose|k: int| 0 <= k < g[u].len() && g[u][k] as int == v;
    assert(0 <= v < g.len());
    assert forall|i: int|
        0 <= i < p.len() - 1 implies 0 <= #[trigger] p[i] < fs.len() && 0 <= p[i + 1] < fs.len() && function_calls(fs[p[i]], p[i + 1] as usize) by {
        if i == 0 {
            assert(p[0] == u && p[1] == v);
        } else {
            assert(p[i] == q[i - 1] && p[i + 1] == q[i]);
            assert(edge(g, q[i - 1], q[i]));
            let w = q[i - 1];
            let kk = choose|kk: int| 0 <= kk < g[w].len() && #[trigger] g[w][kk] as int == q[i];
            assert((g[w][kk] as int) < g.len());
            lemma_edge_is_call(g, fs, q[i - 1], q[i]);
        }
    }
    assert(p[0] == p.last());
}

/// A chain of calls leads from function `a` to function `b`, possibly an
/// empty one.
pub open spec fn calls_reach(fs: Seq<SemanticFunction>, a: int, b: int) -> bool {
    exists|p: Seq<int>|
        {
            &&& p.len() >= 1
            &&& p[0] == a
            &&& p.last() == b
            &&& forall|i: int|
                0 <= i < p.len() - 1 ==> 0 <= #[trigger] p[i] < fs.len() && function_calls(fs[p[i]], p[i + 1] as usize)
        }
}

proof fn lemma_reach_gives_calls_reach(g: Seq<Seq<usize>>, fs: Seq<SemanticFunction>, a: int, b: int)
    requires
        calls_graph_of(g, fs),
        graph_wf(g),
        reaches(g, a, b),
        g.len() <= usize::MAX,
    ensures
        calls_reach(fs, a, b),
{
    let q = choose|q: Seq<int>| is_path(g, q) && q[0] == a && q.last() == b;
    assert forall|i: int| 0 <= i < q.len() - 1 implies 0 <= #[trigger] q[i] < fs.len() && function_calls(
        fs[q[i]],
        q[i + 1] as usize,
    ) by {
        assert(edge(g, q[i], q[i + 1]));
        let w = q[i];
        let kk = choose|kk: int| 0 <= kk < g[w].len() && #[trigger] g[w][kk] as int == q[i + 1];
        assert((g[w][kk] as int) < g.len());
        lemma_edge_is_call(g, fs, q[i], q[i + 1]);
    }
}

impl<'a, 'source> Analyzer<'a, 'source> {
    /// Rejects a program in which a function calls itself, directly or
    /// through other functions. The error points at a call that closes such
    /// a cycle.
    pub fn validate_function_call_graph(&self) -> (r: Result<(), CompileFailure>)
        requires
            forall|i: int|
                0 <= i < self.functions@.len() ==> function_wf(
                    #[trigger] self.functions@[i],
                    self.types@.len(),
                    self.functions@.len(),
                    self.signatures@.len(),
                ),
        ensures
            r is Ok <==> !call_cycle(self.functions@),
            r matches Err(e) ==> e.kind == crate::failures::CompileFailureKind::Semantic(
                SemanticFailure::Call(CallFailure::FunctionCallCycle),
            ),
            r matches Err(e) ==> exists|u: int, v: usize|
                0 <= u < self.functions@.len() && #[trigger] function_call_span(self.functions@[u], v, e.source_span)
                    && calls_reach(self.functions@, v as int, u),
    {
        let n = self.functions.len();
        let ghost fs = self.functions@;
        let ghost bounds_nt = self.types@.len();
        let ghost bounds_ns = self.signatures@.len();
        let mut adj: Vec<Vec<usize>> = Vec::new();
        let mut spans: Vec<Vec<SourceSpan>> = Vec::new();
        let mut f: usize = 0;
        while f < n
            invariant
                n == fs.len(),
                fs == self.functions@,
                bounds_nt == self.types@.len(),
                bounds_ns == self.signatures@.len(),
                forall|i: int| 0 <= i < fs.len() ==> function_wf(#[trigger] fs[i], bounds_nt, n as nat, bounds_ns),
                f <= n,
                adj@.len() == f,
                spans@.len() == f,
                forall|u: int, v: usize| 0 <= u < f ==> (#[trigger] adj@[u]@.contains(v) <==> function_calls(fs[u], v)),
                forall|u: int, k: int| 0 <= u < f && 0 <= k < adj@[u]@.len() ==> (#[trigger] adj@[u]@[k] as int) < n,
                forall|u: int| 0 <= u < f ==> (#[trigger] adj@[u])@.len() == spans@[u]@.len(),
                forall|u: int, k: int|
                    0 <= u < f && 0 <= k < adj@[u]@.len() ==> #[trigger] function_call_span(fs[u], adj@[u]@[k], spans@[u]@[k]),
            decreases n - f,
        {
            let func = &self.functions[f];
            let ghost nb = func.bindings@.len();
            let ghost nsb = func.signature_bindings@.len();
            let ghost bounds = (bounds_nt, n as nat, bounds_ns, nb, nsb);
            proof {
                assert(function_wf(fs[f as int], bounds_nt, n as nat, bounds_ns));
            }
            let mut targets: Vec<usize> = Vec::new();
            let mut call_spans: Vec<SourceSpan> = Vec::new();
            let mut k: usize = 0;
            while k < func.body.statements.len()
                invariant
                    *func == fs[f as int],
                    function_wf(*func, bounds_nt, n as nat, bounds_ns),
                    bounds == (bounds_nt, n as nat, bounds_ns, func.bindings@.len(), func.signature_bindings@.len()),
                    k <= func.body.statements@.len(),
                    targets@.len() == call_spans@.len(),
                    forall|g: usize|
                        #[trigger] targets@.contains(g) <==> exists|i: int|
                            0 <= i < k && expr_calls(statement_value(#[trigger] func.body.statements@[i]), g),
                    forall|i: int| 0 <= i < targets@.len() ==> (#[trigger] targets@[i] as int) < n,
                    forall|i: int| 0 <= i < targets@.len() ==> #[trigger] function_call_span(*func, targets@[i], call_spans@[i]),
                decreases func.body.statements@.len() - k,
            {
                let ghost before = targets@;
                let ghost before_spans = call_spans@;
                let st = &func.body.statements[k];
                let value = match st {
                    SemanticStatement::Bind { value, .. } => value,
                    SemanticStatement::Operation(e) => e,
                };
                proof {
                    assert(crate::body::statement_wf(*st, bounds.0, bounds.1, bounds.2, bounds.3, bounds.4));
                    assert(*value == statement_value(*st));
                }
                collect_internal_calls(value, &mut targets, &mut call_spans, Ghost(bounds));
                proof {
                    assert forall|i: int| 0 <= i < targets@.len() implies #[trigger] function_call_span(
                        *func,
                        targets@[i],
                        call_spans@[i],
                    ) by {
                        if i < before.len() {
                            assert(targets@[i] == targets@.subrange(0, before.len() as int)[i]);
                            assert(call_spans@[i] == call_spans@.subrange(0, before_spans.len() as int)[i]);
                            assert(function_call_span(*func, before[i], before_spans[i]));
                        } else {
                            assert(expr_call_span(*value, targets@[i], call_spans@[i]));
                            assert(statement_value(func.body.statements@[k as int]) == *value);
                        }
                    }
                    assert forall|g: usize|
                        #[trigger] targets@.contains(g) <==> exists|i: int|
                            0 <= i < k + 1 && expr_calls(statement_value(#[trigger] func.body.statements@[i]), g) by {
                        if exists|i: int| 0 <= i < k + 1 && expr_calls(statement_value(#[trigger] func.body.statements@[i]), g) {
                            let i = choose|i: int| 0 <= i < k + 1 && expr_calls(statement_value(#[trigger] func.body.statements@[i]), g);
                            if i < k {
                                assert(before.contains(g));
                            }
                        }
                    }
                    assert forall|i: int| 0 <= i < targets@.len() implies (#[trigger] targets@[i] as int) < n by {
                        if before.contains(targets@[i]) {
                            let j = choose|j: int| 0 <= j < before.len() && before[j] == targets@[i];
                            assert((before[j] as int) < n);
                        }
                    }
                }
                k = k + 1;
            }
            let ghost before = targets@;
            let ghost before_spans = call_spans@;
            collect_internal_calls(&func.body.result, &mut targets, &mut call_spans, Ghost(bounds));
            proof {
                assert forall|i: int| 0 <= i < targets@.len() implies #[trigger] function_call_span(
                    *func,
                    targets@[i],
                    call_spans@[i],
                ) by {
                    if i < before.len() {
                        assert(targets@[i] == targets@.subrange(0, before.len() as int)[i]);
                        assert(call_spans@[i] == call_spans@.subrange(0, before_spans.len() as int)[i]);
                        assert(function_call_span(*func, before[i], before_spans[i]));
                    } else {
                        assert(expr_call_span(func.body.result, targets@[i], call_spans@[i]));
                    }
                }
                assert forall|g: usize| #[trigger] targets@.contains(g) <==> function_calls(fs[f as int], g) by {}
                assert forall|i: int| 0 <= i < targets@.len() implies (#[trigger] targets@[i] as int) < n by {
                    if before.contains(targets@[i]) {
                        let j = choose|j: int| 0 <= j < before.len() && before[j] == targets@[i];
                        assert((before[j] as int) < n);
                    }
                }
            }
            let ghost old_adj = adj@;
            let ghost old_spans = spans@;
            adj.push(targets);
            spans.push(call_spans);
            proof {
                assert forall|u: int, v: usize| 0 <= u < f + 1 implies (#[trigger] adj@[u]@.contains(v) <==> function_calls(fs[u], v)) by {
                    if u < f {
                        assert(adj@[u] == old_adj[u]);
                    }
                }
                assert forall|u: int, kk: int| 0 <= u < f + 1 && 0 <= kk < adj@[u]@.len() implies (#[trigger] adj@[u]@[kk] as int) < n by {
                    if u < f {
                        assert(adj@[u] == old_adj[u]);
                    }
                }
                assert forall|u: int| 0 <= u < f + 1 implies (#[trigger] adj@[u])@.len() == spans@[u]@.len() by {
                    if u < f {
                        assert(adj@[u] == old_adj[u]);
                        assert(spans@[u] == old_spans[u]);
                    }
                }
                assert forall|u: int, kk: int|
                    0 <= u < f + 1 && 0 <= kk < adj@[u]@.len() implies #[trigger] function_call_span(
                    fs[u],
                    adj@[u]@[kk],
                    spans@[u]@[kk],
                ) by {
                    if u < f {
                        assert(adj@[u] == old_adj[u]);
                        assert(spans@[u] == old_spans[u]);
                    }
                }
            }
            f = f + 1;
        }
        let ghost g = adj@.map_values(|l: Vec<usize>| l@);
        proof {
            assert(calls_graph_of(g, fs));
            assert(graph_wf(g));
        }
        let mut roots: Vec<usize> = Vec::new();
        let mut i: usize = 0;
        while i < n
            invariant
                i <= n,
                roots@.len() == i,
                forall|j: int| 0 <= j < i ==> #[trigger] roots@[j] == j,
            decreases n - i,
        {
            roots.push(i);
            i = i + 1;
        }
        match find_cycle(&adj, &roots) {
            None => {
                proof {
                    if call_cycle(fs) {
                        let p = choose|p: Seq<int>|
                            {
                                &&& p.len() >= 2
                                &&& p[0] == p.last()
                                &&& forall|i: int|
                                    0 <= i < p.len() - 1 ==> 0 <= #[trigger] p[i] < fs.len() && 0 <= p[i + 1] < fs.len()
                                        && function_calls(fs[p[i]], p[i + 1] as usize)
                            };
                        lemma_call_cycle_reachable(g, fs, p);
                        assert(0 <= p[0] < fs.len());
                        assert(roots@[p[0]] == p[0]);
                    }
                }
                Ok(())
            },
            Some((_, u, k)) => {
                proof {
                    let v = g[u as int][k as int] as int;
                    assert(edge(g, u as int, v));
                    lemma_cycle_gives_call_cycle(g, fs, u as int, v);
                    lemma_reach_gives_calls_reach(g, fs, v, u as int);
                }
                let err = fail(SemanticFailure::Call(CallFailure::FunctionCallCycle), spans[u][k]);
                proof {
                    assert(g[u as int] == adj@[u as int]@);
                    let vv = adj@[u as int]@[k as int];
                    assert(vv as int == g[u as int][k as int] as int);
                    assert(function_call_span(fs[u as int], vv, spans@[u as int]@[k as int]));
                    assert(err.source_span == spans@[u as int]@[k as int]);
                    assert(function_call_span(self.functions@[u as int], vv, err.source_span));
                    assert(calls_reach(self.functions@, vv as int, u as int));
                }
                Err(err)
            },
        }
    }
}

} // verus!
