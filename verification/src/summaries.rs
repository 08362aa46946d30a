//! Summaries of user functions, inferred from their definitions: the index
//! guards they establish, the predicates they compute, and what they do to
//! the lengths of vectors.
use vstd::prelude::*;
use crate::text::{copy_text, text_eq, text_is, texts_view};
use crate::expr::{Expression, Sexp, head_is, is_word, shape, shapes, lemma_shapes};
use crate::facts::TextMap;
use crate::state::{AbstractState, GuardRelation, PredicateSummary, Summaries};
use crate::guards::{
    EXPANSION_LIMIT, expand_predicate_call, single_built_expression, state_for_true_branch, built_body,
    single_sexp, subst_sexp,
};
use crate::termination::{
    SizeStep, StructuralSummary, is_closure_form, lambda_word_params, length_operand,
    result_relation_of_call, word_text, call_relation, length_form, closure_form,
};
use crate::desugar::build_text;

verus! {

/// The name and right-hand side of `(let name rhs)` or `(letrec name rhs)`.
pub open spec fn binding_of(e: Expression) -> Option<(Seq<char>, Expression)> {
    match e {
        Expression::Apply(b) => if b@.len() == 3 && (word_text(b@[0]) == Some("let"@) || word_text(b@[0])
            == Some("letrec"@)) && b@[1] is Word {
            Some((b@[1]->Word_0@, b@[2]))
        } else {
            None
        },
        _ => None,
    }
}

/// `e` is `(lambda params... body)` with at least one parameter.
pub open spec fn lambda_form(e: Expression) -> bool {
    e is Apply && e->Apply_0@.len() >= 3 && word_text(e->Apply_0@[0]) == Some("lambda"@)
}

/// Two guard relations are the same.
pub open spec fn relation_eq(a: GuardRelation, b: GuardRelation) -> bool {
    a.vector_arg == b.vector_arg && a.index_arg == b.index_arg && a.projection_index_args@
        == b.projection_index_args@
}

/// `a` sorts strictly before `b`: by projection count, then vector
/// argument, then index argument.
pub open spec fn relation_precedes(a: GuardRelation, b: GuardRelation) -> bool {
    let (pa, pb) = (a.projection_index_args@.len(), b.projection_index_args@.len());
    pa < pb || (pa == pb && (a.vector_arg < b.vector_arg || (a.vector_arg == b.vector_arg
        && a.index_arg < b.index_arg)))
}

/// `i` is the first position of `name` among `params`.
pub open spec fn param_at(params: Seq<Vec<char>>, name: Seq<char>, i: int) -> bool {
    0 <= i < params.len() && params[i]@ == name && forall|j: int| 0 <= j < i ==> (#[trigger] params[j])@ != name
}

/// One of `forms` binds `k` at the top level.
pub open spec fn bound_at_top(forms: Seq<Expression>, k: Seq<char>) -> bool {
    exists|f: int| 0 <= f < forms.len() && #[trigger] binding_name(forms[f]) == Some(k)
}

/// The name a top-level binding form binds.
pub open spec fn binding_name(e: Expression) -> Option<Seq<char>> {
    match binding_of(e) {
        Some(b) => Some(b.0),
        None => None,
    }
}

/// A top-level `(let name rhs)` or `(letrec name rhs)`: the name and the
/// right-hand side.
fn binding_parts(expr: &Expression) -> (r: Option<(&Vec<char>, &Expression)>)
    ensures
        r is Some == binding_of(*expr) is Some,
        r matches Some((n, rhs)) ==> binding_of(*expr) == Some((n@, *rhs)),
{
    match expr {
        Expression::Apply(binding) => {
            if binding.len() == 3 && (head_is(binding, "let") || head_is(binding, "letrec")) {
                match &binding[1] {
                    Expression::Word(name) => Some((name, &binding[2])),
                    _ => None,
                }
            } else {
                None
            }
        },
        _ => None,
    }
}

/// The items of a `(lambda params... body)` with at least one parameter.
fn lambda_items(rhs: &Expression) -> (r: Option<&Vec<Expression>>)
    ensures
        r matches Some(l) ==> l@.len() >= 3,
        r is Some == lambda_form(*rhs),
        r matches Some(l) ==> *rhs == Expression::Apply(*l),
{
    match rhs {
        Expression::Apply(lambda) => {
            if lambda.len() >= 3 && head_is(lambda, "lambda") {
                Some(lambda)
            } else {
                None
            }
        },
        _ => None,
    }
}

/// The two lists hold the same texts.
fn same_texts(a: &Vec<Vec<char>>, b: &Vec<Vec<char>>) -> (r: bool)
    ensures
        r == (texts_view(a@) == texts_view(b@)),
{
    if a.len() != b.len() {
        return false;
    }
    let mut i: usize = 0;
    while i < a.len()
        invariant
            i <= a.len(),
            a.len() == b.len(),
            forall|j: int| 0 <= j < i ==> (#[trigger] a@[j])@ == b@[j]@,
        decreases a.len() - i,
    {
        if !text_eq(&a[i], &b[i]) {
            assert(texts_view(a@)[i as int] != texts_view(b@)[i as int]);
            return false;
        }
        i += 1;
    }
    assert(texts_view(a@) =~= texts_view(b@));
    true
}

/// The two predicates have the same parameters and body.
fn same_predicate(a: &PredicateSummary, b: &PredicateSummary) -> (r: bool)
    ensures
        r == (texts_view(a.params@) == texts_view(b.params@) && a.body@ == b.body@),
{
    same_texts(&a.params, &b.params) && text_eq(&a.body, &b.body)
}

/// A copy of a list of texts.
fn copy_texts(a: &Vec<Vec<char>>) -> (r: Vec<Vec<char>>)
    ensures
        texts_view(r@) == texts_view(a@),
{
    let mut out: Vec<Vec<char>> = Vec::new();
    let mut i: usize = 0;
    while i < a.len()
        invariant
            i <= a.len(),
            out@.len() == i,
            forall|j: int| 0 <= j < i ==> (#[trigger] out@[j])@ == a@[j]@,
        decreases a.len() - i,
    {
        out.push(copy_text(&a[i]));
        i += 1;
    }
    assert(texts_view(out@) =~= texts_view(a@));
    out
}

/// A copy of a predicate summary.
fn copy_predicate(a: &PredicateSummary) -> (r: PredicateSummary)
    ensures
        texts_view(r.params@) == texts_view(a.params@),
        r.body@ == a.body@,
{
    PredicateSummary { params: copy_texts(&a.params), body: copy_text(&a.body) }
}

/// The predicates the top-level `let` and `letrec` forms define: each
/// lambda's parameters and the text of its body, aliases included.
pub(crate) fn infer_predicate_summaries(forms: &[Expression]) -> (r: TextMap<PredicateSummary>)
    ensures
        forall|k: Seq<char>| #[trigger] r.has_key(k) ==> bound_at_top(forms@, k),
{
    let mut summaries: TextMap<PredicateSummary> = TextMap::new();
    let rounds: usize = if forms.len() > 1 {
        forms.len()
    } else {
        1
    };
    let mut round: usize = 0;
    while round < rounds
        invariant
            forall|k: Seq<char>| #[trigger] summaries.has_key(k) ==> bound_at_top(forms@, k),
        decreases rounds - round,
    {
        let mut changed = false;
        let mut f: usize = 0;
        while f < forms.len()
            invariant
                forall|k: Seq<char>| #[trigger] summaries.has_key(k) ==> bound_at_top(forms@, k),
            decreases forms.len() - f,
        {
            if let Some((name, rhs)) = binding_parts(&forms[f]) {
                let mut candidate: Option<PredicateSummary> = None;
                if let Expression::Word(alias) = rhs {
                    if let Some(summary) = summaries.get_ref(alias) {
                        candidate = Some(copy_predicate(summary));
                    }
                } else if let Some(lambda) = lambda_items(rhs) {
                    let params = lambda_word_params(lambda);
                    if params.len() == lambda.len() - 2 {
                        let body = lambda[lambda.len() - 1].lisp_chars();
                        candidate = Some(PredicateSummary { params, body });
                    }
                }
                if let Some(summary) = candidate {
                    let differs = match summaries.get_ref(name) {
                        Some(previous) => !same_predicate(previous, &summary),
                        None => true,
                    };
                    if differs {
                        changed = true;
                    }
                    proof {
                        assert(binding_name(forms@[f as int]) == Some(name@));
                        assert(bound_at_top(forms@, name@));
                    }
                    summaries.insert(copy_text(name), summary);
                }
            }
            f += 1;
        }
        if !changed {
            break;
        }
        round += 1;
    }
    summaries
}

/// Sequential composition of two length effects.
pub fn combine_size_steps(left: SizeStep, right: SizeStep) -> (r: SizeStep)
    ensures
        left == SizeStep::Unchanged ==> r == right,
        right == SizeStep::Unchanged ==> r == left,
        left == right ==> r == left,
        left != right && left != SizeStep::Unchanged && right != SizeStep::Unchanged ==> r
            == SizeStep::Unknown,
{
    if left == SizeStep::Unchanged {
        right
    } else if right == SizeStep::Unchanged {
        left
    } else if left == right {
        left
    } else {
        SizeStep::Unknown
    }
}

/// The vector name `xs` when `e` is `(length xs)`.
pub open spec fn length_sexp(e: Sexp) -> Option<Seq<char>> {
    match e {
        Sexp::List(items) => if items.len() == 2 && items[0] == Sexp::Word("length"@) && items[1] is Word {
            Some(items[1]->Word_0)
        } else {
            None
        },
        _ => None,
    }
}

/// A comparison of a vector's length with `bound`, evaluating to `t`,
/// proves the vector empty; `length_left` tells whether the length is the
/// left operand.
pub open spec fn empty_by_comparison(op: Seq<char>, bound: int, length_left: bool, t: bool) -> bool {
    if length_left {
        (op == "="@ && bound == 0 && t) || (op == "<="@ && bound == 0 && t) || (op == "<"@ && bound == 1
            && t) || (op == ">"@ && bound == 0 && !t) || (op == ">="@ && bound == 1 && !t)
    } else {
        (op == "="@ && bound == 0 && t) || (op == ">="@ && bound == 0 && t) || (op == ">"@ && bound == 1
            && t) || (op == "<"@ && bound == 0 && !t) || (op == "<="@ && bound == 0 && !t)
    }
}

/// The body of the user predicate that `items` calls with one argument per
/// parameter, its arguments substituted, when the body builds.
pub open spec fn sexp_expansion(items: Seq<Sexp>, predicates: TextMap<PredicateSummary>) -> Option<Sexp> {
    if items.len() > 0 && items[0] is Word && predicates.has_key(items[0]->Word_0)
        && predicates.value_at(items[0]->Word_0).params@.len() == items.len() - 1 && built_body(
        predicates.value_at(items[0]->Word_0).body@,
    ) is Some {
        let summary = predicates.value_at(items[0]->Word_0);
        Some(
            subst_sexp(
                single_sexp(built_body(summary.body@)->0),
                texts_view(summary.params@),
                items.drop_first(),
            ),
        )
    } else {
        None
    }
}

/// The condition `c`, evaluating to `t`, proves the vector `param` empty:
/// through `not`, a comparison of its length with a small constant, or a
/// user predicate expanded at most `EXPANSION_LIMIT - depth` times.
pub open spec fn proves_empty(
    c: Sexp,
    param: Seq<char>,
    t: bool,
    predicates: TextMap<PredicateSummary>,
    depth: int,
) -> bool
    decreases EXPANSION_LIMIT - depth, c,
{
    if depth >= EXPANSION_LIMIT {
        false
    } else {
        match c {
            Sexp::List(items) => if items.len() == 2 && items[0] == Sexp::Word("not"@) {
                proves_empty(items[1], param, !t, predicates, depth + 1)
            } else if items.len() == 3 && items[0] is Word && items[2] is Int && length_sexp(items[1])
                == Some(param) {
                empty_by_comparison(items[0]->Word_0, items[2]->Int_0, true, t)
            } else if items.len() == 3 && items[0] is Word && items[1] is Int && length_sexp(items[2])
                == Some(param) {
                empty_by_comparison(items[0]->Word_0, items[1]->Int_0, false, t)
            } else {
                match sexp_expansion(items, predicates) {
                    Some(x) => proves_empty(x, param, t, predicates, depth + 1),
                    None => false,
                }
            },
            _ => false,
        }
    }
}

/// `length_form` read off the shape.
proof fn lemma_length_form_shape(e: Expression)
    ensures
        length_form(e) == length_sexp(shape(e)),
{
    if let Expression::Apply(items) = e {
        lemma_shapes(items@);
    }
}

/// The shapes of all but the first expression.
proof fn lemma_shapes_drop_first(s: Seq<Expression>)
    requires
        s.len() > 0,
    ensures
        shapes(s.drop_first()) == shapes(s).drop_first(),
{
    lemma_shapes(s);
    lemma_shapes(s.drop_first());
    assert(shapes(s.drop_first()) =~= shapes(s).drop_first());
}

/// The condition, evaluating to `is_true`, proves the vector `parameter`
/// empty.
pub(crate) fn condition_proves_empty(
    condition: &Expression,
    parameter: &Vec<char>,
    is_true: bool,
    predicates: &TextMap<PredicateSummary>,
    depth: usize,
) -> (r: bool)
    ensures
        r == proves_empty(shape(*condition), parameter@, is_true, *predicates, depth as int),
    decreases EXPANSION_LIMIT - depth, *condition,
{
    if depth >= EXPANSION_LIMIT {
        return false;
    }
    let items = match condition {
        Expression::Apply(items) => items,
        _ => {
            return false;
        },
    };
    proof {
        lemma_shapes(items@);
        if items@.len() == 3 {
            lemma_length_form_shape(items@[1]);
            lemma_length_form_shape(items@[2]);
        }
        if items@.len() > 0 {
            lemma_shapes_drop_first(items@);
        }
        reveal_strlit("not");
        reveal_strlit("length");
    }
    if items.len() == 2 && head_is(items, "not") {
        return condition_proves_empty(&items[1], parameter, !is_true, predicates, depth + 1);
    }
    if items.len() == 3 {
        if let Expression::Word(op) = &items[0] {
            if let Expression::Int(bound) = &items[2] {
                if let Some(name) = length_operand(&items[1]) {
                    if text_eq(name, parameter) {
                        return (text_is(op, "=") && *bound == 0 && is_true) || (text_is(op, "<=")
                            && *bound == 0 && is_true) || (text_is(op, "<") && *bound == 1
                            && is_true) || (text_is(op, ">") && *bound == 0 && !is_true) || (
                        text_is(op, ">=") && *bound == 1 && !is_true);
                    }
                }
            }
            if let Expression::Int(bound) = &items[1] {
                if let Some(name) = length_operand(&items[2]) {
                    if text_eq(name, parameter) {
                        return (text_is(op, "=") && *bound == 0 && is_true) || (text_is(op, ">=")
                            && *bound == 0 && is_true) || (text_is(op, ">") && *bound == 1
                            && is_true) || (text_is(op, "<") && *bound == 0 && !is_true) || (
                        text_is(op, "<=") && *bound == 0 && !is_true);
                    }
                }
            }
        }
    }
    match expand_predicate_call(items, predicates) {
        Ok(Some(expanded)) => condition_proves_empty(&expanded, parameter, is_true, predicates, depth + 1),
        _ => false,
    }
}

/// The spec form of `combine_size_steps`.
pub open spec fn combined_steps(l: SizeStep, r: SizeStep) -> SizeStep {
    if l == SizeStep::Unchanged {
        r
    } else if r == SizeStep::Unchanged {
        l
    } else if l == r {
        l
    } else {
        SizeStep::Unknown
    }
}

/// The combined effect, on `param`, of the first `n` arguments of the call
/// `items`, by the per-parameter effects `effects`.
pub open spec fn call_effect(items: Seq<Expression>, param: Seq<char>, effects: Seq<SizeStep>, n: int) -> SizeStep
    decreases n,
{
    if n <= 0 {
        SizeStep::Unchanged
    } else {
        let prev = call_effect(items, param, effects, n - 1);
        if word_text(items[n]) == Some(param) {
            combined_steps(prev, effects[n - 1])
        } else {
            prev
        }
    }
}

/// The effect on `param` of a call of a user function by its summary, when
/// the call has one argument per parameter.
pub open spec fn summary_effect(items: Seq<Expression>, param: Seq<char>, summaries: TextMap<StructuralSummary>) -> SizeStep {
    if items.len() > 0 && items[0] is Word && summaries.has_key(items[0]->Word_0@) && summaries.value_at(
        items[0]->Word_0@,
    ).params@.len() == items.len() - 1 {
        let effects = summaries.value_at(items[0]->Word_0@).parameter_effects@;
        call_effect(
            items,
            param,
            effects,
            if effects.len() <= items.len() - 1 {
                effects.len() as int
            } else {
                items.len() - 1
            },
        )
    } else {
        SizeStep::Unchanged
    }
}

/// What evaluating `e` does to the length of the vector `param`, outside
/// nested closures: `pop!` and `pop-val!` shrink it, `push!` grows it, an
/// `if` has the effect its branches agree on (or a shrink guarded by a
/// condition proving the vector empty), a call has the effect its summary
/// gives, and any other form the combined effect of its operands.
pub open spec fn param_effect(
    e: Expression,
    param: Seq<char>,
    summaries: TextMap<StructuralSummary>,
    predicates: TextMap<PredicateSummary>,
) -> SizeStep
    decreases e,
{
    match e {
        Expression::Apply(items) => if closure_form(items@) {
            SizeStep::Unchanged
        } else if items@.len() == 2 && (word_text(items@[0]) == Some("pop!"@) || word_text(items@[0])
            == Some("pop-val!"@)) && word_text(items@[1]) == Some(param) {
            SizeStep::Shrink
        } else if items@.len() == 3 && word_text(items@[0]) == Some("push!"@) && word_text(items@[1])
            == Some(param) {
            SizeStep::Grow
        } else if items@.len() > 0 && word_text(items@[0]) == Some("if"@) {
            let t = if items@.len() > 2 {
                param_effect(items@[2], param, summaries, predicates)
            } else {
                SizeStep::Unchanged
            };
            let f = if items@.len() > 3 {
                param_effect(items@[3], param, summaries, predicates)
            } else {
                SizeStep::Unchanged
            };
            if t == f {
                t
            } else if proves_empty(shape(items@[1]), param, true, predicates, 0) && t == SizeStep::Unchanged
                && f == SizeStep::Shrink {
                SizeStep::Shrink
            } else if proves_empty(shape(items@[1]), param, false, predicates, 0) && t == SizeStep::Shrink
                && f == SizeStep::Unchanged {
                SizeStep::Shrink
            } else {
                SizeStep::Unknown
            }
        } else if summary_effect(items@, param, summaries) != SizeStep::Unchanged {
            summary_effect(items@, param, summaries)
        } else if items@.len() == 0 {
            SizeStep::Unchanged
        } else {
            operands_effect(items@.drop_first(), param, summaries, predicates)
        },
        _ => SizeStep::Unchanged,
    }
}

/// The combined effect of `s`, left to right.
pub open spec fn operands_effect(
    s: Seq<Expression>,
    param: Seq<char>,
    summaries: TextMap<StructuralSummary>,
    predicates: TextMap<PredicateSummary>,
) -> SizeStep
    decreases s,
{
    if s.len() == 0 {
        SizeStep::Unchanged
    } else {
        combined_steps(
            operands_effect(s.drop_last(), param, summaries, predicates),
            param_effect(s.last(), param, summaries, predicates),
        )
    }
}

/// What evaluating `expr` does to the length of the vector `parameter`.
pub(crate) fn structural_parameter_effect(
    expr: &Expression,
    parameter: &Vec<char>,
    summaries: &TextMap<StructuralSummary>,
    predicates: &TextMap<PredicateSummary>,
) -> (r: SizeStep)
    ensures
        r == param_effect(*expr, parameter@, *summaries, *predicates),
    decreases *expr,
{
    let items = match expr {
        Expression::Apply(items) => items,
        _ => {
            return SizeStep::Unchanged;
        },
    };
    if is_closure_form(items) {
        return SizeStep::Unchanged;
    }
    if items.len() == 2 && (head_is(items, "pop!") || head_is(items, "pop-val!")) {
        if let Expression::Word(name) = &items[1] {
            if text_eq(name, parameter) {
                return SizeStep::Shrink;
            }
        }
    }
    if items.len() == 3 && head_is(items, "push!") {
        if let Expression::Word(name) = &items[1] {
            if text_eq(name, parameter) {
                return SizeStep::Grow;
            }
        }
    }
    if head_is(items, "if") {
        let then_effect = if items.len() > 2 {
            assert(decreases_to!(*expr => items@[2]));
            structural_parameter_effect(&items[2], parameter, summaries, predicates)
        } else {
            SizeStep::Unchanged
        };
        let else_effect = if items.len() > 3 {
            assert(decreases_to!(*expr => items@[3]));
            structural_parameter_effect(&items[3], parameter, summaries, predicates)
        } else {
            SizeStep::Unchanged
        };
        if then_effect == else_effect {
            return then_effect;
        }
        if condition_proves_empty(&items[1], parameter, true, predicates, 0) && then_effect
            == SizeStep::Unchanged && else_effect == SizeStep::Shrink {
            return SizeStep::Shrink;
        }
        if condition_proves_empty(&items[1], parameter, false, predicates, 0) && then_effect
            == SizeStep::Shrink && else_effect == SizeStep::Unchanged {
            return SizeStep::Shrink;
        }
        return SizeStep::Unknown;
    }
    if items.len() > 0 {
        if let Expression::Word(op) = &items[0] {
            if let Some(summary) = summaries.get_ref(op) {
                if summary.params.len() == items.len() - 1 {
                    let mut effect = SizeStep::Unchanged;
                    let mut k: usize = 0;
                    while k < summary.parameter_effects.len() && k + 1 < items.len()
                        invariant
                            k <= summary.parameter_effects.len(),
                            k <= items.len() - 1,
                            effect == call_effect(items@, parameter@, summary.parameter_effects@, k as int),
                        decreases summary.parameter_effects.len() - k,
                    {
                        if let Expression::Word(name) = &items[k + 1] {
                            if text_eq(name, parameter) {
                                effect = combine_size_steps(effect, summary.parameter_effects[k]);
                            }
                        }
                        k += 1;
                    }
                    if effect != SizeStep::Unchanged {
                        return effect;
                    }
                }
            }
        }
    }
    let mut effect = SizeStep::Unchanged;
    let mut i: usize = 1;
    proof {
        if items@.len() > 0 {
            assert(items@.subrange(1, 1) =~= Seq::<Expression>::empty());
        }
    }
    while i < items.len()
        invariant
            i >= 1,
            i <= items.len() || items.len() == 0,
            *expr == Expression::Apply(*items),
            items@.len() == 0 ==> effect == SizeStep::Unchanged,
            items@.len() > 0 ==> effect == operands_effect(
                items@.subrange(1, i as int),
                parameter@,
                *summaries,
                *predicates,
            ),
        decreases items.len() - i,
    {
        assert(decreases_to!(*expr => items@[i as int]));
        let child = structural_parameter_effect(&items[i], parameter, summaries, predicates);
        proof {
            let t = items@.subrange(1, i + 1);
            assert(t.drop_last() =~= items@.subrange(1, i as int));
            assert(t.last() == items@[i as int]);
        }
        effect = combine_size_steps(effect, child);
        i += 1;
    }
    proof {
        if items@.len() > 0 {
            assert(items@.subrange(1, items@.len() as int) =~= items@.drop_first());
        }
    }
    effect
}

/// How the length of the value of `e` relates to that of `param`: the
/// parameter itself, its `cdr`, a `cons` onto it, the last form of a `do`
/// or `block`, both branches of an `if` when they agree, or a call by its
/// summary.
pub open spec fn result_rel(e: Expression, param: Seq<char>, summaries: TextMap<StructuralSummary>) -> SizeStep
    decreases e,
{
    match e {
        Expression::Word(n) => if n@ == param {
            SizeStep::Unchanged
        } else {
            SizeStep::Unknown
        },
        Expression::Apply(items) => if (items@.len() == 2 || items@.len() == 3) && word_text(items@[0])
            == Some("cdr"@) && word_text(items@[1]) == Some(param) {
            SizeStep::Shrink
        } else if items@.len() == 3 && word_text(items@[0]) == Some("cons"@) && (word_text(items@[1])
            == Some(param) || word_text(items@[2]) == Some(param)) {
            SizeStep::Grow
        } else if items@.len() > 0 && (word_text(items@[0]) == Some("do"@) || word_text(items@[0])
            == Some("block"@)) {
            result_rel(items@[items@.len() - 1], param, summaries)
        } else if items@.len() > 0 && word_text(items@[0]) == Some("if"@) {
            let t = if items@.len() > 2 {
                result_rel(items@[2], param, summaries)
            } else {
                SizeStep::Unknown
            };
            let f = if items@.len() > 3 {
                result_rel(items@[3], param, summaries)
            } else {
                SizeStep::Unknown
            };
            if t == f {
                t
            } else {
                SizeStep::Unknown
            }
        } else {
            call_relation(items@, param, summaries)
        },
        _ => SizeStep::Unknown,
    }
}

/// The first position of `name` among `params`.
pub open spec fn first_param(params: Seq<Vec<char>>, name: Seq<char>) -> Option<int> {
    if exists|i: int| param_at(params, name, i) {
        Some(choose|i: int| param_at(params, name, i))
    } else {
        None
    }
}

/// For a vector expression made of parameters and `get`s by parameters:
/// the position of the root parameter and those of the indexing
/// parameters in order.
pub open spec fn guard_path(e: Expression, params: Seq<Vec<char>>) -> Option<(int, Seq<usize>)>
    decreases e,
{
    match e {
        Expression::Word(name) => match first_param(params, name@) {
            Some(i) => Some((i, Seq::empty())),
            None => None,
        },
        Expression::Apply(items) => if items@.len() == 3 && word_text(items@[0]) == Some("get"@) {
            match guard_path(items@[1], params) {
                None => None,
                Some((root, proj)) => match items@[2] {
                    Expression::Word(ix) => match first_param(params, ix@) {
                        Some(k) => Some((root, proj.push(k as usize))),
                        None => None,
                    },
                    _ => None,
                },
            }
        } else {
            None
        },
        _ => None,
    }
}

/// How the length of the value of `expr` relates to that of `parameter`.
pub(crate) fn structural_result_relation(
    expr: &Expression,
    parameter: &Vec<char>,
    summaries: &TextMap<StructuralSummary>,
) -> (r: SizeStep)
    ensures
        r == result_rel(*expr, parameter@, *summaries),
    decreases *expr,
{
    match expr {
        Expression::Word(name) => {
            if text_eq(name, parameter) {
                SizeStep::Unchanged
            } else {
                SizeStep::Unknown
            }
        },
        Expression::Apply(items) => {
            if (items.len() == 2 || items.len() == 3) && head_is(items, "cdr") && is_param_word(&items[1], parameter) {
                return SizeStep::Shrink;
            }
            if items.len() == 3 && head_is(items, "cons") && (is_param_word(&items[1], parameter) || is_param_word(&items[2], parameter)) {
                return SizeStep::Grow;
            }
            if head_is(items, "do") || head_is(items, "block") {
                let last = items.len() - 1;
                assert(decreases_to!(*expr => items@[last as int]));
                return structural_result_relation(&items[last], parameter, summaries);
            }
            if head_is(items, "if") {
                let then_relation = if items.len() > 2 {
                    assert(decreases_to!(*expr => items@[2]));
                    structural_result_relation(&items[2], parameter, summaries)
                } else {
                    SizeStep::Unknown
                };
                let else_relation = if items.len() > 3 {
                    assert(decreases_to!(*expr => items@[3]));
                    structural_result_relation(&items[3], parameter, summaries)
                } else {
                    SizeStep::Unknown
                };
                return if then_relation == else_relation {
                    then_relation
                } else {
                    SizeStep::Unknown
                };
            }
            result_relation_of_call(items, parameter, summaries)
        },
        _ => SizeStep::Unknown,
    }
}

fn is_param_word(e: &Expression, parameter: &Vec<char>) -> (r: bool)
    ensures
        r == (word_text(*e) == Some(parameter@)),
{
    match e {
        Expression::Word(w) => text_eq(w, parameter),
        _ => false,
    }
}

/// The two lists hold the same steps.
fn same_steps(a: &Vec<SizeStep>, b: &Vec<SizeStep>) -> (r: bool)
    ensures
        r == (a@ == b@),
{
    if a.len() != b.len() {
        return false;
    }
    let mut i: usize = 0;
    while i < a.len()
        invariant
            i <= a.len(),
            a.len() == b.len(),
            forall|j: int| 0 <= j < i ==> #[trigger] a@[j] == b@[j],
        decreases a.len() - i,
    {
        if a[i] != b[i] {
            return false;
        }
        i += 1;
    }
    assert(a@ =~= b@);
    true
}

/// A copy of a list of steps.
fn copy_steps(a: &Vec<SizeStep>) -> (r: Vec<SizeStep>)
    ensures
        r@ == a@,
{
    let mut out: Vec<SizeStep> = Vec::new();
    let mut i: usize = 0;
    while i < a.len()
        invariant
            i <= a.len(),
            out@ == a@.take(i as int),
        decreases a.len() - i,
    {
        out.push(a[i]);
        i += 1;
        assert(out@ =~= a@.take(i as int));
    }
    assert(a@.take(a@.len() as int) =~= a@);
    out
}

/// A copy of a structural summary.
fn copy_structural(a: &StructuralSummary) -> (r: StructuralSummary)
    ensures
        texts_view(r.params@) == texts_view(a.params@),
        r.parameter_effects@ == a.parameter_effects@,
        r.result_relations@ == a.result_relations@,
{
    StructuralSummary {
        params: copy_texts(&a.params),
        parameter_effects: copy_steps(&a.parameter_effects),
        result_relations: copy_steps(&a.result_relations),
    }
}

/// The two summaries have the same parameters, effects and relations.
fn same_structural(a: &StructuralSummary, b: &StructuralSummary) -> (r: bool)
    ensures
        r == (texts_view(a.params@) == texts_view(b.params@) && a.parameter_effects@
            == b.parameter_effects@ && a.result_relations@ == b.result_relations@),
{
    same_texts(&a.params, &b.params) && same_steps(&a.parameter_effects, &b.parameter_effects)
        && same_steps(&a.result_relations, &b.result_relations)
}

/// The length effects and result relations of the functions the top-level
/// `let` and `letrec` forms define.
pub(crate) fn infer_structural_summaries(
    forms: &[Expression],
    predicates: &TextMap<PredicateSummary>,
) -> (r: TextMap<StructuralSummary>)
    ensures
        forall|k: Seq<char>| #[trigger] r.has_key(k) ==> bound_at_top(forms@, k),
{
    let mut summaries: TextMap<StructuralSummary> = TextMap::new();
    let rounds: usize = if forms.len() > 1 {
        forms.len()
    } else {
        1
    };
    let mut round: usize = 0;
    while round < rounds
        invariant
            forall|k: Seq<char>| #[trigger] summaries.has_key(k) ==> bound_at_top(forms@, k),
        decreases rounds - round,
    {
        let mut changed = false;
        let mut f: usize = 0;
        while f < forms.len()
            invariant
                forall|k: Seq<char>| #[trigger] summaries.has_key(k) ==> bound_at_top(forms@, k),
            decreases forms.len() - f,
        {
            if let Some((name, rhs)) = binding_parts(&forms[f]) {
                let mut candidate: Option<StructuralSummary> = None;
                if let Expression::Word(alias) = rhs {
                    if let Some(summary) = summaries.get_ref(alias) {
                        candidate = Some(copy_structural(summary));
                    }
                } else if let Some(lambda) = lambda_items(rhs) {
                    let params = lambda_word_params(lambda);
                    if params.len() == lambda.len() - 2 {
                        let body = &lambda[lambda.len() - 1];
                        let mut parameter_effects: Vec<SizeStep> = Vec::new();
                        let mut result_relations: Vec<SizeStep> = Vec::new();
                        let mut k: usize = 0;
                        while k < params.len()
                            decreases params.len() - k,
                        {
                            parameter_effects.push(
                                structural_parameter_effect(body, &params[k], &summaries, predicates),
                            );
                            k += 1;
                        }
                        let mut k: usize = 0;
                        while k < params.len()
                            decreases params.len() - k,
                        {
                            result_relations.push(
                                structural_result_relation(body, &params[k], &summaries),
                            );
                            k += 1;
                        }
                        candidate = Some(StructuralSummary { params, parameter_effects, result_relations });
                    }
                }
                if let Some(summary) = candidate {
                    let differs = match summaries.get_ref(name) {
                        Some(previous) => !same_structural(previous, &summary),
                        None => true,
                    };
                    if differs {
                        changed = true;
                    }
                    proof {
                        assert(binding_name(forms@[f as int]) == Some(name@));
                        assert(bound_at_top(forms@, name@));
                    }
                    summaries.insert(copy_text(name), summary);
                }
            }
            f += 1;
        }
        if !changed {
            break;
        }
        round += 1;
    }
    summaries
}

/// The position of `name` among `params`.
fn param_position(params: &Vec<Vec<char>>, name: &Vec<char>) -> (r: Option<usize>)
    ensures
        r matches Some(i) ==> param_at(params@, name@, i as int),
        r is None ==> forall|j: int| 0 <= j < params@.len() ==> (#[trigger] params@[j])@ != name@,
        r is Some == first_param(params@, name@) is Some,
        r matches Some(i) ==> first_param(params@, name@) == Some(i as int),
{
    let mut i: usize = 0;
    while i < params.len()
        invariant
            i <= params.len(),
            forall|j: int| 0 <= j < i ==> (#[trigger] params@[j])@ != name@,
        decreases params.len() - i,
    {
        if text_eq(&params[i], name) {
            proof {
                assert(param_at(params@, name@, i as int));
                let c = choose|c: int| param_at(params@, name@, c);
                if c < i {
                    assert(params@[c]@ != name@);
                } else if c > i {
                    assert(params@[i as int]@ != name@);
                }
            }
            return Some(i);
        }
        i += 1;
    }
    None
}

/// For a vector expression made of parameters and `get`s by parameters:
/// the root parameter and the projecting parameters in order.
pub(crate) fn guard_path_from_params(expr: &Expression, params: &Vec<Vec<char>>) -> (r: Option<
    (usize, Vec<usize>),
>)
    ensures
        r is Some == guard_path(*expr, params@) is Some,
        r matches Some((root, p)) ==> guard_path(*expr, params@) == Some((root as int, p@)),
    decreases *expr,
{
    match expr {
        Expression::Word(name) => match param_position(params, name) {
            Some(root) => Some((root, Vec::new())),
            None => None,
        },
        Expression::Apply(items) => {
            if items.len() == 3 && head_is(items, "get") {
                assert(decreases_to!(*expr => items@[1]));
                let (root, mut projections) = guard_path_from_params(&items[1], params)?;
                let index = match &items[2] {
                    Expression::Word(index) => index,
                    _ => {
                        return None;
                    },
                };
                projections.push(param_position(params, index)?);
                Some((root, projections))
            } else {
                None
            }
        },
        _ => None,
    }
}

/// A copy of a guard relation.
fn copy_relation(r: &GuardRelation) -> (c: GuardRelation)
    ensures
        relation_eq(c, *r),
{
    let mut p: Vec<usize> = Vec::new();
    let mut i: usize = 0;
    while i < r.projection_index_args.len()
        invariant
            i <= r.projection_index_args.len(),
            p@ == r.projection_index_args@.take(i as int),
        decreases r.projection_index_args.len() - i,
    {
        p.push(r.projection_index_args[i]);
        i += 1;
        assert(p@ =~= r.projection_index_args@.take(i as int));
    }
    assert(r.projection_index_args@.take(r.projection_index_args@.len() as int) =~= r.projection_index_args@);
    GuardRelation { vector_arg: r.vector_arg, projection_index_args: p, index_arg: r.index_arg }
}

/// The two relations are the same.
fn same_relation(a: &GuardRelation, b: &GuardRelation) -> (r: bool)
    ensures
        r == relation_eq(*a, *b),
{
    if a.vector_arg != b.vector_arg || a.index_arg != b.index_arg
        || a.projection_index_args.len() != b.projection_index_args.len() {
        return false;
    }
    let mut i: usize = 0;
    while i < a.projection_index_args.len()
        invariant
            i <= a.projection_index_args.len(),
            a.projection_index_args.len() == b.projection_index_args.len(),
            forall|j: int| 0 <= j < i ==> #[trigger] a.projection_index_args@[j] == b.projection_index_args@[j],
        decreases a.projection_index_args.len() - i,
    {
        if a.projection_index_args[i] != b.projection_index_args[i] {
            return false;
        }
        i += 1;
    }
    assert(a.projection_index_args@ =~= b.projection_index_args@);
    true
}

/// The two lists hold the same relations in the same order.
fn same_relations(a: &Vec<GuardRelation>, b: &Vec<GuardRelation>) -> (r: bool)
    ensures
        r == (a@.len() == b@.len() && forall|i: int| 0 <= i < a@.len() ==> relation_eq(#[trigger] a@[i], b@[i])),
{
    if a.len() != b.len() {
        return false;
    }
    let mut i: usize = 0;
    while i < a.len()
        invariant
            i <= a.len(),
            a.len() == b.len(),
            forall|j: int| 0 <= j < i ==> relation_eq(#[trigger] a@[j], b@[j]),
        decreases a.len() - i,
    {
        if !same_relation(&a[i], &b[i]) {
            return false;
        }
        i += 1;
    }
    true
}

/// A copy of a list of relations.
fn copy_relations(a: &Vec<GuardRelation>) -> (r: Vec<GuardRelation>)
    ensures
        r@.len() == a@.len(),
        forall|i: int| 0 <= i < a@.len() ==> relation_eq(#[trigger] r@[i], a@[i]),
{
    let mut out: Vec<GuardRelation> = Vec::new();
    let mut i: usize = 0;
    while i < a.len()
        invariant
            i <= a.len(),
            out@.len() == i,
            forall|j: int| 0 <= j < i ==> relation_eq(#[trigger] out@[j], a@[j]),
        decreases a.len() - i,
    {
        out.push(copy_relation(&a[i]));
        i += 1;
    }
    out
}

/// `a` sorts strictly before `b`: by projection count, then vector
/// argument, then index argument.
fn relation_before(a: &GuardRelation, b: &GuardRelation) -> (r: bool)
    ensures
        r == relation_precedes(*a, *b),
{
    let (pa, pb) = (a.projection_index_args.len(), b.projection_index_args.len());
    pa < pb || (pa == pb && (a.vector_arg < b.vector_arg || (a.vector_arg == b.vector_arg
        && a.index_arg < b.index_arg)))
}

/// The relations of `r` are ordered: none sorts before an earlier one.
pub open spec fn relations_ordered(r: Seq<GuardRelation>) -> bool {
    forall|a: int, b: int| 0 <= a < b < r.len() ==> !relation_precedes(#[trigger] r[b], #[trigger] r[a])
}

/// `x` is the same as some relation of `b`.
pub open spec fn same_as_some(x: GuardRelation, b: Seq<GuardRelation>) -> bool {
    exists|k: int| 0 <= k < b.len() && relation_eq(x, #[trigger] b[k])
}

/// Each relation of `a` is the same as one of `b`.
pub open spec fn relations_covered(a: Seq<GuardRelation>, b: Seq<GuardRelation>) -> bool {
    forall|i: int| 0 <= i < a.len() ==> #[trigger] same_as_some(a[i], b)
}

/// Not sorting before is transitive.
proof fn lemma_not_before_transitive(x: GuardRelation, y: GuardRelation, z: GuardRelation)
    requires
        !relation_precedes(x, y),
        !relation_precedes(y, z),
    ensures
        !relation_precedes(x, z),
{
}

/// Inserts `r` after every relation that does not sort after it.
fn insert_relation(sorted: &mut Vec<GuardRelation>, r: GuardRelation)
    requires
        relations_ordered(old(sorted)@),
    ensures
        relations_ordered(final(sorted)@),
        exists|pos: int| 0 <= pos <= old(sorted)@.len() && final(sorted)@ == old(sorted)@.insert(pos, r),
{
    let mut pos: usize = sorted.len();
    while pos > 0 && relation_before(&r, &sorted[pos - 1])
        invariant
            pos <= sorted.len(),
            forall|q: int| pos <= q < sorted@.len() ==> relation_precedes(r, #[trigger] sorted@[q]),
        decreases pos,
    {
        pos -= 1;
    }
    let ghost before = sorted@;
    sorted.insert(pos, r);
    proof {
        assert forall|a: int, b: int| 0 <= a < b < sorted@.len() implies !relation_precedes(
            #[trigger] sorted@[b],
            #[trigger] sorted@[a],
        ) by {
            if b < pos {
            } else if b == pos {
                if a < pos - 1 {
                    assert(!relation_precedes(before[pos - 1], before[a]));
                    lemma_not_before_transitive(r, before[pos - 1], before[a]);
                }
            } else if a < pos {
                assert(!relation_precedes(before[b - 1], before[a]));
            } else if a == pos {
                assert(relation_precedes(r, before[b - 1]));
            } else {
                assert(!relation_precedes(before[b - 1], before[a - 1]));
            }
        }
    }
}

/// The relations of `s` each occur in `t`, and those of `t` in `s`.
pub open spec fn same_elements(s: Seq<GuardRelation>, t: Seq<GuardRelation>) -> bool {
    &&& forall|i: int| 0 <= i < s.len() ==> #[trigger] t.contains(s[i])
    &&& forall|i: int| 0 <= i < t.len() ==> #[trigger] s.contains(t[i])
}

/// `sorted` without adjacent repeats.
#[verifier::spinoff_prover]
fn dedup_relations(sorted: &Vec<GuardRelation>) -> (out: Vec<GuardRelation>)
    requires
        relations_ordered(sorted@),
    ensures
        relations_ordered(out@),
        forall|i: int| 0 < i < out@.len() ==> !relation_eq(#[trigger] out@[i - 1], out@[i]),
        relations_covered(out@, sorted@),
        relations_covered(sorted@, out@),
{
    let mut out: Vec<GuardRelation> = Vec::new();
    let mut i: usize = 0;
    while i < sorted.len()
        invariant
            i <= sorted.len(),
            relations_ordered(sorted@),
            relations_ordered(out@),
            forall|a: int| 0 < a < out@.len() ==> !relation_eq(#[trigger] out@[a - 1], out@[a]),
            relations_covered(out@, sorted@),
            forall|q: int| 0 <= q < i ==> #[trigger] same_as_some(sorted@[q], out@),
            i > 0 ==> out@.len() > 0 && relation_eq(out@.last(), sorted@[i - 1]),
            i == 0 ==> out@.len() == 0,
        decreases sorted.len() - i,
    {
        let ghost before = out@;
        if out.len() == 0 || !same_relation(&out[out.len() - 1], &sorted[i]) {
            let c = copy_relation(&sorted[i]);
            out.push(c);
            proof {
                assert(out@ == before.push(c));
                if i > 0 {
                    assert(!relation_precedes(sorted@[i as int], sorted@[i - 1]));
                    assert(!relation_precedes(c, before.last()));
                }
                assert forall|a: int, b: int| 0 <= a < b < out@.len() implies !relation_precedes(
                    #[trigger] out@[b],
                    #[trigger] out@[a],
                ) by {
                    if b == out@.len() - 1 {
                        if a < before.len() - 1 {
                            assert(!relation_precedes(before.last(), before[a]));
                            lemma_not_before_transitive(c, before.last(), before[a]);
                        }
                    } else {
                        assert(out@[a] == before[a] && out@[b] == before[b]);
                    }
                }
                assert forall|a: int| 0 <= a < out@.len() implies #[trigger] same_as_some(out@[a], sorted@) by {
                    if a < before.len() {
                        assert(out@[a] == before[a]);
                        assert(same_as_some(before[a], sorted@));
                    } else {
                        assert(relation_eq(out@[a], sorted@[i as int]));
                    }
                }
                assert forall|q: int| 0 <= q < i + 1 implies #[trigger] same_as_some(sorted@[q], out@) by {
                    if q < i {
                        assert(same_as_some(sorted@[q], before));
                        let a = choose|a: int| 0 <= a < before.len() && relation_eq(sorted@[q], #[trigger] before[a]);
                        assert(out@[a] == before[a]);
                    } else {
                        assert(relation_eq(sorted@[q], out@[out@.len() - 1]));
                    }
                }
            }
        } else {
            proof {
                assert(relation_eq(sorted@[i as int], out@[out@.len() - 1]));
                assert(same_as_some(sorted@[i as int], out@));
            }
        }
        i += 1;
    }
    out
}

/// The relations in stable order with adjacent repeats removed.
fn sort_and_dedup(relations: Vec<GuardRelation>) -> (r: Vec<GuardRelation>)
    ensures
        relations_ordered(r@),
        forall|i: int| 0 < i < r@.len() ==> !relation_eq(#[trigger] r@[i - 1], r@[i]),
        relations_covered(r@, relations@),
        relations_covered(relations@, r@),
{
    let ghost orig = relations@;
    let mut sorted: Vec<GuardRelation> = Vec::new();
    let mut rest = relations;
    let ghost mut m: int = 0;
    proof {
        assert(orig.skip(0) =~= orig);
        assert(orig.take(0) =~= Seq::<GuardRelation>::empty());
    }
    while rest.len() > 0
        invariant
            0 <= m <= orig.len(),
            rest@ == orig.skip(m),
            relations_ordered(sorted@),
            same_elements(sorted@, orig.take(m)),
        decreases rest.len(),
    {
        let r = rest.remove(0);
        proof {
            assert(r == orig[m]);
            assert(rest@ =~= orig.skip(m + 1));
        }
        let ghost before = sorted@;
        insert_relation(&mut sorted, r);
        proof {
            let pos = choose|pos: int| 0 <= pos <= before.len() && sorted@ == before.insert(pos, r);
            let t = orig.take(m + 1);
            assert(t =~= orig.take(m).push(r));
            assert forall|i: int| 0 <= i < sorted@.len() implies #[trigger] t.contains(sorted@[i]) by {
                if i < pos {
                    assert(sorted@[i] == before[i]);
                    assert(orig.take(m).contains(before[i]));
                    let k = choose|k: int| 0 <= k < orig.take(m).len() && orig.take(m)[k] == before[i];
                    assert(t[k] == before[i]);
                } else if i == pos {
                    assert(t[m] == r);
                } else {
                    assert(sorted@[i] == before[i - 1]);
                    assert(orig.take(m).contains(before[i - 1]));
                    let k = choose|k: int| 0 <= k < orig.take(m).len() && orig.take(m)[k] == before[i - 1];
                    assert(t[k] == before[i - 1]);
                }
            }
            assert forall|i: int| 0 <= i < t.len() implies #[trigger] sorted@.contains(t[i]) by {
                if i < m {
                    assert(t[i] == orig.take(m)[i]);
                    assert(before.contains(t[i]));
                    let k = choose|k: int| 0 <= k < before.len() && before[k] == t[i];
                    if k < pos {
                        assert(sorted@[k] == t[i]);
                    } else {
                        assert(sorted@[k + 1] == t[i]);
                    }
                } else {
                    assert(sorted@[pos] == t[i]);
                }
            }
            m = m + 1;
        }
    }
    proof {
        assert(orig.skip(m).len() == 0);
        assert(orig.take(m) =~= orig);
    }
    let out = dedup_relations(&sorted);
    proof {
        assert forall|a: int| 0 <= a < out@.len() implies #[trigger] same_as_some(out@[a], orig) by {
            assert(same_as_some(out@[a], sorted@));
            let q = choose|q: int| 0 <= q < sorted@.len() && relation_eq(out@[a], #[trigger] sorted@[q]);
            assert(orig.contains(sorted@[q]));
            let k = choose|k: int| 0 <= k < orig.len() && orig[k] == sorted@[q];
            assert(relation_eq(out@[a], orig[k]));
        }
        assert forall|k: int| 0 <= k < orig.len() implies #[trigger] same_as_some(orig[k], out@) by {
            assert(sorted@.contains(orig[k]));
            let q = choose|q: int| 0 <= q < sorted@.len() && sorted@[q] == orig[k];
            assert(same_as_some(sorted@[q], out@));
        }
    }
    out
}

/// The guards the top-level `let` and `letrec` forms define: for each
/// function, which argument indices its truth proves in bounds for which
/// argument vectors.
pub(crate) fn infer_guard_summaries(forms: &[Expression]) -> (r: TextMap<Vec<GuardRelation>>)
    ensures
        forall|k: Seq<char>| #[trigger] r.has_key(k) ==> bound_at_top(forms@, k),
{
    let mut summaries: TextMap<Vec<GuardRelation>> = TextMap::new();
    let no_predicates: TextMap<PredicateSummary> = TextMap::new();
    let rounds: usize = if forms.len() > 1 {
        forms.len()
    } else {
        1
    };
    let mut round: usize = 0;
    while round < rounds
        invariant
            forall|k: Seq<char>| #[trigger] summaries.has_key(k) ==> bound_at_top(forms@, k),
        decreases rounds - round,
    {
        let mut changed = false;
        let mut f: usize = 0;
        while f < forms.len()
            invariant
                forall|k: Seq<char>| #[trigger] summaries.has_key(k) ==> bound_at_top(forms@, k),
            decreases forms.len() - f,
        {
            if let Some((name, rhs)) = binding_parts(&forms[f]) {
                let mut candidate: Option<Vec<GuardRelation>> = None;
                if let Expression::Word(alias) = rhs {
                    if let Some(summary) = summaries.get_ref(alias) {
                        candidate = Some(copy_relations(summary));
                    }
                } else if let Some(lambda) = lambda_items(rhs) {
                    let params = lambda_word_params(lambda);
                    let facts = {
                        let ctx = Summaries { guards: &summaries, predicates: &no_predicates };
                        state_for_true_branch(&lambda[lambda.len() - 1], &AbstractState::empty(), &ctx)
                    };
                    let mut summary: Vec<GuardRelation> = Vec::new();
                    let pairs = &facts.safe_pairs.items;
                    let mut k: usize = 0;
                    while k < pairs.len()
                        decreases pairs.len() - k,
                    {
                        let vector = &pairs[k].0;
                        let index = &pairs[k].1;
                        if let Some(index_arg) = param_position(&params, index) {
                            if let Ok(vector_expr) = build_text(vector) {
                                if let Some((vector_arg, projection_index_args)) = guard_path_from_params(
                                    single_built_expression(&vector_expr),
                                    &params,
                                ) {
                                    summary.push(GuardRelation { vector_arg, projection_index_args, index_arg });
                                }
                            }
                        }
                        k += 1;
                    }
                    let summary = sort_and_dedup(summary);
                    if summary.len() > 0 {
                        candidate = Some(summary);
                    }
                }
                if let Some(summary) = candidate {
                    let differs = match summaries.get_ref(name) {
                        Some(previous) => !same_relations(previous, &summary),
                        None => true,
                    };
                    if differs {
                        changed = true;
                    }
                    proof {
                        assert(binding_name(forms@[f as int]) == Some(name@));
                        assert(bound_at_top(forms@, name@));
                    }
                    summaries.insert(copy_text(name), summary);
                }
            }
            f += 1;
        }
        if !changed {
            break;
        }
        round += 1;
    }
    summaries
}

} // verus!
