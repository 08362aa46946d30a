//! The entry points of the static analysis of a built program.
use vstd::prelude::*;
use crate::text::{text_to_string};
use crate::expr::{
    Expression, Sexp, copy_expr, head_is, shape, shapes, lemma_shapes, lemma_head_words,
    lemma_operator_words_differ, sexp_text,
};
use crate::state::{AbstractState, Summaries, blank};
use crate::summaries::{
    infer_guard_summaries, infer_predicate_summaries, infer_structural_summaries,
};
use crate::bounds::{
    all_categorized, categorized, distinct_messages, validate_static_bounds_expr, views, with_message,
    literal_form_message, literal_vector_size, atom, owed_messages, lemma_owed_blank, lemma_grows_contains,
};
use crate::guards::grows;
use crate::termination::{
    FindingText, analyze_termination_expr, collect_termination_findings, valid_finding, loop_free,
    lemma_all_loop_free, plain_while_form, counter_progress, loop_updates, loop_reason_fits, counter_loop,
    loop_counter, counter_reason,
};

verus! {

/// What termination analysis found for one loop or recursive function:
/// its subject, a status of `proven`, `warning` or `unknown`, the measure
/// that decreases when one was found, and the reason.
#[derive(Clone, Debug, PartialEq, Eq)]
pub struct TerminationFinding {
    pub subject: String,
    pub status: String,
    pub measure: Option<String>,
    pub reason: String,
}

/// The shapes of the top-level forms the analysis reads from a program: the
/// forms of a `(do ...)`, else the program itself.
pub open spec fn analysed_forms(program: Sexp) -> Seq<Sexp> {
    match program {
        Sexp::List(items) => if items.len() > 0 && items[0] == Sexp::Word("do"@) {
            items.drop_first()
        } else {
            seq![program]
        },
        _ => seq![program],
    }
}

/// The top-level forms of a built program, as expressions: the items of a
/// `(do ...)` after its head, or the program itself.
pub open spec fn top_forms(program: Expression) -> Seq<Expression> {
    match program {
        Expression::Apply(items) => if items@.len() > 0 && items@[0] is Word && items@[0]->Word_0@ == "do"@ {
            items@.drop_first()
        } else {
            seq![program]
        },
        _ => seq![program],
    }
}

/// A `(do ...)` program with a first form and no forms before the user's:
/// its first form is checked with no facts known.
pub open spec fn first_form_unguarded(program: Expression, user_form_count: int) -> bool {
    &&& top_forms(program) != seq![program]
    &&& top_forms(program).len() >= 1
    &&& user_form_count >= top_forms(program).len()
}

/// A `while` form judged `unknown` has no counter that moves toward its exit.
pub open spec fn no_counter_progress(form: Expression) -> bool {
    forall|u: int| 0 <= u < loop_updates(form->Apply_0@).len() ==> !counter_progress(
        form->Apply_0@[1],
        #[trigger] loop_updates(form->Apply_0@)[u],
    )
}

/// The last of `forms` is a `while` loop on a counter that moves toward its
/// exit bound, with no loop or recursive definition inside, and the user's
/// forms before it hold no loop and no recursive definition.
pub open spec fn ends_in_counter_loop(forms: Seq<Expression>, user_form_count: int) -> bool {
    &&& user_form_count >= 1
    &&& forms.len() >= 1
    &&& forall|k: int|
        0 <= k < forms.len() - 1 && k >= forms.len() - user_form_count ==> loop_free(
            #[trigger] shape(forms[k]),
        )
    &&& plain_while_form(shape(forms.last()))
    &&& counter_loop(forms.last()->Apply_0@)
}

/// A form over literals that the analysis decides on its own holds no loop
/// and no recursive definition.
proof fn lemma_literal_form_loop_free(f: Sexp)
    requires
        literal_form_message(f) is Some,
    ensures
        loop_free(f),
{
    lemma_head_words();
    lemma_operator_words_differ();
    let items = f->List_0;
    lemma_all_loop_free(items);
    assert forall|k: int| 0 <= k < items.len() implies #[trigger] loop_free(items[k]) by {
        if items[k] is List {
            let inner = items[k]->List_0;
            assert(literal_vector_size(items[k]) is Some);
            lemma_all_loop_free(inner);
            assert forall|j: int| 0 <= j < inner.len() implies #[trigger] loop_free(inner[j]) by {
                if j >= 1 {
                    assert(atom(inner[j]));
                }
            }
        }
    }
}

/// The messages of the analysis of `forms`, the top-level forms of a
/// program of which the last `user_form_count` are the user's; the forms
/// before them only contribute facts.
#[verifier::rlimit(50)]
fn analyze_forms(forms: &[Expression], user_form_count: usize) -> (r: Vec<Vec<char>>)
    ensures
        distinct_messages(r@),
        all_categorized(r@),
        forms@.len() == 1 && user_form_count >= 1 && literal_form_message(shape(forms@[0])) is Some
            ==> views(r@) == with_message(
            Seq::empty(),
            literal_form_message(shape(forms@[0]))->0,
        ),
        forms@.len() >= 1 && user_form_count >= forms@.len() ==> forall|s: AbstractState, m: Seq<char>|
            blank(s) && #[trigger] owed_messages(forms@[0], s).contains(m) ==> views(r@).contains(m),
{
    let ghost law = forms@.len() == 1 && user_form_count >= 1 && literal_form_message(
        shape(forms@[0]),
    ) is Some;
    let ghost message = literal_form_message(shape(forms@[0]))->0;
    let guards = infer_guard_summaries(forms);
    let predicates = infer_predicate_summaries(forms);
    let structural = infer_structural_summaries(forms, &predicates);
    let ctx = Summaries { guards: &guards, predicates: &predicates };
    let start: usize = if forms.len() > user_form_count {
        forms.len() - user_form_count
    } else {
        0
    };
    let mut facts = AbstractState::empty();
    let ghost first = forms@.len() >= 1 && user_form_count >= forms@.len();
    let ghost facts0 = facts;
    let mut ignored: Vec<Vec<char>> = Vec::new();
    let mut i: usize = 0;
    while i < start
        invariant
            start <= forms@.len(),
            distinct_messages(ignored@),
            all_categorized(ignored@),
            law ==> start == 0 && blank(facts),
            first ==> start == 0 && facts == facts0,
        decreases start - i,
    {
        validate_static_bounds_expr(&forms[i], &mut facts, &ctx, &mut ignored);
        i += 1;
    }
    let mut diagnostics: Vec<Vec<char>> = Vec::new();
    let mut i: usize = start;
    proof {
        if law {
            assert(views(diagnostics@) =~= Seq::<Seq<char>>::empty());
        }
    }
    while i < forms.len()
        invariant
            distinct_messages(diagnostics@),
            all_categorized(diagnostics@),
            law ==> i <= 1,
            law && i == 0 ==> views(diagnostics@) == Seq::<Seq<char>>::empty() && blank(facts),
            law && i == 1 ==> views(diagnostics@) == with_message(Seq::empty(), message),
            first ==> start == 0,
            first && i == 0 ==> facts == facts0,
            first && i >= 1 ==> forall|m: Seq<char>| #[trigger] owed_messages(forms@[0], facts0).contains(m)
                ==> views(diagnostics@).contains(m),
        decreases forms.len() - i,
    {
        proof {
            if law {
                lemma_literal_form_loop_free(shape(forms@[0]));
            }
        }
        let ghost before = views(diagnostics@);
        validate_static_bounds_expr(&forms[i], &mut facts, &ctx, &mut diagnostics);
        let ghost checked = views(diagnostics@);
        analyze_termination_expr(&forms[i], &structural, &facts, &ctx, &mut diagnostics);
        proof {
            if first {
                assert forall|m: Seq<char>| #[trigger] owed_messages(forms@[0], facts0).contains(m) implies views(
                    diagnostics@,
                ).contains(m) by {
                    if i == 0 {
                        lemma_grows_contains(checked, views(diagnostics@), m);
                    } else {
                        lemma_grows_contains(before, checked, m);
                        lemma_grows_contains(checked, views(diagnostics@), m);
                    }
                }
            }
        }
        i += 1;
    }
    proof {
        if first {
            assert forall|s: AbstractState, m: Seq<char>| blank(s) && #[trigger] owed_messages(forms@[0], s).contains(
                m,
            ) implies views(diagnostics@).contains(m) by {
                lemma_owed_blank(forms@[0], s, facts0);
            }
        }
    }
    diagnostics
}

/// The termination findings for the user's forms among `forms`.
#[verifier::rlimit(50)]
fn explain_forms(forms: &[Expression], user_form_count: usize) -> (r: Vec<FindingText>)
    ensures
        forall|i: int| 0 <= i < r@.len() ==> valid_finding(#[trigger] r@[i]),
        (forall|k: int|
            0 <= k < forms@.len() && k >= forms@.len() - user_form_count ==> loop_free(
                #[trigger] shape(forms@[k]),
            )) ==> r@.len() == 0,
        user_form_count >= 1 && forms@.len() == 1 && plain_while_form(shape(forms@[0])) ==> r@.len()
            == 1 && r@[0].subject@ == "while "@ + sexp_text(shape(forms@[0])->List_0[1]),
        user_form_count >= 1 && forms@.len() == 1 && plain_while_form(shape(forms@[0])) && shape(
            forms@[0],
        )->List_0[1] == Sexp::Word("true"@) ==> r@[0].status@ == "warning"@ && r@[0].reason@
            == "loop has no program-controlled exit: `"@ + sexp_text(shape(forms@[0])) + "`"@,
        user_form_count >= 1 && forms@.len() == 1 && plain_while_form(shape(forms@[0])) && r@[0].status@
            == "unknown"@ ==> no_counter_progress(forms@[0]),
        user_form_count >= 1 && forms@.len() == 1 && plain_while_form(shape(forms@[0])) ==> loop_reason_fits(r@[0]),
        ends_in_counter_loop(forms@, user_form_count as int) ==> r@.len() == 1 && r@[0].status@ == "proven"@
            && (r@[0].measure matches Some(m) && m@ == loop_counter(forms@.last()->Apply_0@)) && r@[0].reason@
            == counter_reason(forms@.last()->Apply_0@),
{
    let ghost counted = ends_in_counter_loop(forms@, user_form_count as int);
    let ghost free = forall|k: int|
        0 <= k < forms@.len() && k >= forms@.len() - user_form_count ==> loop_free(
            #[trigger] shape(forms@[k]),
        );
    let ghost plain = user_form_count >= 1 && forms@.len() == 1 && plain_while_form(
        shape(forms@[0]),
    );
    let guards = infer_guard_summaries(forms);
    let predicates = infer_predicate_summaries(forms);
    let structural = infer_structural_summaries(forms, &predicates);
    let ctx = Summaries { guards: &guards, predicates: &predicates };
    let start: usize = if forms.len() > user_form_count {
        forms.len() - user_form_count
    } else {
        0
    };
    let mut facts = AbstractState::empty();
    let mut ignored: Vec<Vec<char>> = Vec::new();
    let mut i: usize = 0;
    while i < start
        invariant
            start <= forms@.len(),
            distinct_messages(ignored@),
            all_categorized(ignored@),
        decreases start - i,
    {
        validate_static_bounds_expr(&forms[i], &mut facts, &ctx, &mut ignored);
        i += 1;
    }
    let mut findings: Vec<FindingText> = Vec::new();
    let mut i: usize = start;
    while i < forms.len()
        invariant
            distinct_messages(ignored@),
            all_categorized(ignored@),
            forall|j: int| 0 <= j < findings@.len() ==> valid_finding(#[trigger] findings@[j]),
            start <= i,
            free ==> findings@.len() == 0,
            plain ==> i <= 1 && start == 0,
            plain && i == 0 ==> findings@.len() == 0,
            plain && i == 1 ==> findings@.len() == 1 && findings@[0].subject@ == "while "@
                + sexp_text(shape(forms@[0])->List_0[1]),
            plain && i == 1 && shape(forms@[0])->List_0[1] == Sexp::Word("true"@) ==> findings@[0].status@
                == "warning"@ && findings@[0].reason@ == "loop has no program-controlled exit: `"@
                + sexp_text(shape(forms@[0])) + "`"@,
            plain && i == 1 && findings@[0].status@ == "unknown"@ ==> no_counter_progress(forms@[0]),
            plain && i == 1 ==> loop_reason_fits(findings@[0]),
            i <= forms@.len(),
            counted && i < forms@.len() ==> findings@.len() == 0,
            counted && i == forms@.len() ==> findings@.len() == 1 && findings@[0].status@ == "proven"@
                && (findings@[0].measure matches Some(m) && m@ == loop_counter(forms@.last()->Apply_0@))
                && findings@[0].reason@ == counter_reason(forms@.last()->Apply_0@),
        decreases forms.len() - i,
    {
        proof {
            if free {
                assert(loop_free(shape(forms@[i as int])));
            }
            if counted && i + 1 < forms@.len() {
                assert(loop_free(shape(forms@[i as int])));
            }
        }
        validate_static_bounds_expr(&forms[i], &mut facts, &ctx, &mut ignored);
        collect_termination_findings(&forms[i], &structural, &facts, &ctx, &mut findings);
        i += 1;
    }
    findings
}

/// The user's forms among `forms`, whose shapes are `shapes_of`, are those
/// of `user_forms`.
proof fn user_forms_bridge(forms: Seq<Expression>, shapes_of: Seq<Sexp>, user_form_count: int)
    requires
        forms.len() == shapes_of.len(),
        forall|k: int| 0 <= k < forms.len() ==> #[trigger] shape(forms[k]) == shapes_of[k],
        user_form_count >= 0,
    ensures
        forall|k: int|
            #![trigger shape(forms[k])]
            0 <= k < forms.len() && k >= forms.len() - user_form_count ==> shape(forms[k])
                == (if shapes_of.len() > user_form_count {
                shapes_of.subrange(shapes_of.len() - user_form_count, shapes_of.len() as int)
            } else {
                shapes_of
            })[if shapes_of.len() > user_form_count {
                k - (shapes_of.len() - user_form_count)
            } else {
                k
            }],
{
}

/// The single form of a program that has one user form, when the analysis
/// decides it from its literals alone: the message it reports of it, or
/// `Some(None)` when it reports nothing.
pub open spec fn single_literal_form_message(program: Sexp, user_form_count: int) -> Option<
    Option<Seq<char>>,
> {
    if user_form_count >= 1 && analysed_forms(program).len() == 1 {
        literal_form_message(analysed_forms(program)[0])
    } else {
        None
    }
}

/// The messages the analysis reports for a built program, whose last
/// `user_form_count` top-level forms are the user's.  No message is
/// reported twice, and each is a bounds (`static bounds: `), arithmetic
/// (`static arithmetic: `) or termination (`termination: `) finding.
///
/// A program whose one form is Int arithmetic or a division on two Int
/// literals, or an access on a literal vector at an Int literal index, gets
/// exactly the message of its literal case: an overflow or underflow
/// exactly when the result leaves the Int range, a zero divisor, the one
/// quotient that overflows, an index outside the vector (for `set!`, past
/// its end), or an empty vector; otherwise none.  In a `(do ...)` program
/// with no forms before the user's, every access or divisor of the first
/// form that nothing proves is reported.
#[verifier::rlimit(50)]
pub fn analyze_user_program_diagnostics(program: &Expression, user_form_count: usize) -> (r: Vec<
    String,
>)
    ensures
        forall|i: int, j: int| 0 <= i < j < r@.len() ==> (#[trigger] r@[i])@ != (#[trigger] r@[j])@,
        forall|i: int| 0 <= i < r@.len() ==> categorized((#[trigger] r@[i])@),
        single_literal_form_message(shape(*program), user_form_count as int) matches Some(m) ==> (
        match m {
            None => r@.len() == 0,
            Some(text) => r@.len() == 1 && r@[0]@ == text,
        }),
        first_form_unguarded(*program, user_form_count as int) ==> forall|s: AbstractState, m: Seq<char>|
            blank(s) && #[trigger] owed_messages(top_forms(*program)[0], s).contains(m) ==> exists|k: int|
                0 <= k < r@.len() && r@[k]@ == m,
{
    let ghost law = single_literal_form_message(shape(*program), user_form_count as int);
    let messages = match program {
        Expression::Apply(items) => {
            proof {
                lemma_shapes(items@);
            }
            if items.len() > 0 && head_is(items, "do") {
                let forms = &items.as_slice()[1..items.len()];
                proof {
                    assert(forms@ == items@.subrange(1, items@.len() as int));
                    assert(shape(*program) == Sexp::List(shapes(items@)));
                    assert(shapes(items@)[0] == Sexp::Word("do"@));
                    assert(analysed_forms(shape(*program)) == shapes(items@).drop_first());
                    if law is Some {
                        assert(forms@.len() == 1);
                        assert(shapes(items@)[1] == shape(items@[1]));
                        assert(shape(forms@[0]) == analysed_forms(shape(*program))[0]);
                    }
                }
                proof {
                    assert(top_forms(*program) == items@.drop_first());
                    assert(forms@ =~= top_forms(*program));
                }
                let found = analyze_forms(forms, user_form_count);
                proof {
                    if law is Some {
                        assert(views(found@) == with_message(Seq::empty(), law->0));
                    }
                }
                found
            } else {
                let single = vec![copy_expr(program)];
                proof {
                    if items@.len() > 0 && shapes(items@)[0] == Sexp::Word("do"@) {
                        assert(shape(items@[0]) == Sexp::Word("do"@));
                    }
                    assert(analysed_forms(shape(*program)) == seq![shape(*program)]);
                }
                let found = analyze_forms(single.as_slice(), user_form_count);
                proof {
                    if law is Some {
                        assert(views(found@) == with_message(Seq::empty(), law->0));
                    }
                }
                found
            }
        },
        _ => {
            let single = vec![copy_expr(program)];
            analyze_forms(single.as_slice(), user_form_count)
        },
    };
    let mut out: Vec<String> = Vec::new();
    let mut i: usize = 0;
    while i < messages.len()
        invariant
            i <= messages.len(),
            distinct_messages(messages@),
            all_categorized(messages@),
            out@.len() == i,
            forall|k: int| 0 <= k < i ==> (#[trigger] out@[k])@ == messages@[k]@,
        decreases messages.len() - i,
    {
        out.push(text_to_string(&messages[i]));
        i += 1;
    }
    proof {
        if law is Some && law->0 is Some {
            assert(views(messages@)[0] == messages@[0]@);
        }
        if first_form_unguarded(*program, user_form_count as int) {
            assert forall|s: AbstractState, m: Seq<char>| blank(s) && #[trigger] owed_messages(
                top_forms(*program)[0],
                s,
            ).contains(m) implies exists|k: int| 0 <= k < out@.len() && out@[k]@ == m by {
                let j = choose|j: int| 0 <= j < views(messages@).len() && views(messages@)[j] == m;
                assert(out@[j]@ == m);
            }
        }
    }
    out
}

/// The first message of a list, as an error.
pub fn first_diagnostic(diagnostics: Vec<String>) -> (r: Result<(), String>)
    ensures
        r is Ok <==> diagnostics@.len() == 0,
        r matches Err(m) ==> m@ == diagnostics@[0]@,
{
    let mut diagnostics = diagnostics;
    if diagnostics.len() == 0 {
        Ok(())
    } else {
        Err(diagnostics.remove(0))
    }
}

/// The first message the analysis reports for a built program, as an
/// error; `Ok` when it reports none.  A program whose one form the analysis
/// decides from its literals alone fails exactly with that form's message,
/// and a `(do ...)` program with no forms before the user's fails when its
/// first form holds an access or divisor that nothing proves.
pub fn analyze_user_program(program: &Expression, user_form_count: usize) -> (r: Result<(), String>)
    ensures
        r matches Err(m) ==> categorized(m@),
        first_form_unguarded(*program, user_form_count as int) ==> forall|s: AbstractState, m: Seq<char>|
            blank(s) && #[trigger] owed_messages(top_forms(*program)[0], s).contains(m) ==> r is Err,
        single_literal_form_message(shape(*program), user_form_count as int) matches Some(m) ==> (
        match m {
            None => r is Ok,
            Some(text) => r matches Err(e) && e@ == text,
        }),
{
    first_diagnostic(analyze_user_program_diagnostics(program, user_form_count))
}

/// The shapes of the user's forms among the forms the analysis reads from
/// a program: the last `user_form_count` of them.
pub open spec fn user_forms(program: Sexp, user_form_count: int) -> Seq<Sexp> {
    let forms = analysed_forms(program);
    if forms.len() > user_form_count {
        forms.subrange(forms.len() - user_form_count, forms.len() as int)
    } else {
        forms
    }
}

/// The termination findings for the user's forms of a built program: each
/// is `proven` with the measure that decreases, or a `warning` or `unknown`
/// without one.  User forms without loops and recursive definitions give
/// no finding; a program whose one user form is a `while` loop with a plain
/// condition and body gets one finding, about that loop, which for
/// `while true` is a warning that the loop has no program-controlled exit,
/// and which is `unknown` only when no counter of the loop moves toward its
/// exit bound; the reason of a proven loop names the counter or length that
/// moves toward the exit bound, that of an unknown one says no measure was
/// found.  When the last user form is a loop on a counter that every
/// reassignment moves toward the literal bound it is compared with, and the
/// user forms before it hold no loop, the one finding proves the loop with
/// that counter as its measure.
#[verifier::rlimit(50)]
pub fn explain_termination(program: &Expression, user_form_count: usize) -> (r: Vec<
    TerminationFinding,
>)
    ensures
        forall|i: int|
            0 <= i < r@.len() ==> ((#[trigger] r@[i]).status@ == "proven"@ && r@[i].measure is Some)
                || ((r@[i].status@ == "warning"@ || r@[i].status@ == "unknown"@) && r@[i].measure is None),
        (forall|k: int|
            0 <= k < user_forms(shape(*program), user_form_count as int).len() ==> loop_free(
                #[trigger] user_forms(shape(*program), user_form_count as int)[k],
            )) ==> r@.len() == 0,
        user_form_count >= 1 && analysed_forms(shape(*program)).len() == 1 && plain_while_form(
            analysed_forms(shape(*program))[0],
        ) ==> r@.len() == 1 && r@[0].subject@ == "while "@ + sexp_text(
            analysed_forms(shape(*program))[0]->List_0[1],
        ),
        user_form_count >= 1 && analysed_forms(shape(*program)).len() == 1 && plain_while_form(
            analysed_forms(shape(*program))[0],
        ) && analysed_forms(shape(*program))[0]->List_0[1] == Sexp::Word("true"@) ==> r@[0].status@
            == "warning"@ && r@[0].reason@ == "loop has no program-controlled exit: `"@ + sexp_text(
            analysed_forms(shape(*program))[0],
        ) + "`"@,
        user_form_count >= 1 && analysed_forms(shape(*program)).len() == 1 && plain_while_form(
            analysed_forms(shape(*program))[0],
        ) && r@[0].status@ == "unknown"@ && top_forms(*program) != seq![*program] ==> no_counter_progress(
            top_forms(*program)[0],
        ),
        user_form_count >= 1 && analysed_forms(shape(*program)).len() == 1 && plain_while_form(
            analysed_forms(shape(*program))[0],
        ) ==> (r@[0].status@ == "unknown"@ ==> r@[0].reason@ == "no monotonic measure was inferred"@) && (
        r@[0].status@ == "proven"@ ==> r@[0].reason@ == r@[0].measure->0@ + " increases toward the exit bound"@
            || r@[0].reason@ == r@[0].measure->0@ + " decreases toward the exit bound"@ || r@[0].reason@
            == r@[0].measure->0@ + " moves toward the exit bound"@),
        top_forms(*program) != seq![*program] && ends_in_counter_loop(top_forms(*program), user_form_count as int)
            ==> r@.len() == 1 && r@[0].status@ == "proven"@ && (r@[0].measure matches Some(m) && m@
            == loop_counter(top_forms(*program).last()->Apply_0@)) && r@[0].reason@ == counter_reason(
            top_forms(*program).last()->Apply_0@,
        ),
{
    let ghost counted = top_forms(*program) != seq![*program] && ends_in_counter_loop(
        top_forms(*program),
        user_form_count as int,
    );
    let ghost forms_shape = analysed_forms(shape(*program));
    let ghost users = user_forms(shape(*program), user_form_count as int);
    let ghost free = forall|k: int| 0 <= k < users.len() ==> loop_free(#[trigger] users[k]);
    let ghost plain = user_form_count >= 1 && forms_shape.len() == 1 && plain_while_form(
        forms_shape[0],
    );
    let findings = match program {
        Expression::Apply(items) => {
            proof {
                lemma_shapes(items@);
            }
            if items.len() > 0 && head_is(items, "do") {
                let forms = &items.as_slice()[1..items.len()];
                proof {
                    assert(forms@ == items@.subrange(1, items@.len() as int));
                    assert(shape(*program) == Sexp::List(shapes(items@)));
                    assert(shapes(items@)[0] == Sexp::Word("do"@));
                    assert(forms_shape == shapes(items@).drop_first());
                    assert forall|k: int| 0 <= k < forms@.len() implies #[trigger] shape(forms@[k])
                        == forms_shape[k] by {
                        assert(shapes(items@)[k + 1] == shape(items@[k + 1]));
                    }
                    user_forms_bridge(forms@, forms_shape, user_form_count as int);
                    assert(top_forms(*program) == items@.drop_first());
                    assert(forms@ =~= top_forms(*program));
                }
                explain_forms(forms, user_form_count)
            } else {
                let single = vec![copy_expr(program)];
                proof {
                    if items@.len() > 0 && shapes(items@)[0] == Sexp::Word("do"@) {
                        assert(shape(items@[0]) == Sexp::Word("do"@));
                    }
                    assert(forms_shape == seq![shape(*program)]);
                    user_forms_bridge(single@, forms_shape, user_form_count as int);
                }
                explain_forms(single.as_slice(), user_form_count)
            }
        },
        _ => {
            let single = vec![copy_expr(program)];
            proof {
                assert(forms_shape == seq![shape(*program)]);
                user_forms_bridge(single@, forms_shape, user_form_count as int);
            }
            explain_forms(single.as_slice(), user_form_count)
        },
    };
    let mut out: Vec<TerminationFinding> = Vec::new();
    let mut i: usize = 0;
    while i < findings.len()
        invariant
            i <= findings.len(),
            forall|j: int| 0 <= j < findings@.len() ==> valid_finding(#[trigger] findings@[j]),
            forall|j: int|
                0 <= j < out@.len() ==> ((#[trigger] out@[j]).status@ == "proven"@ && out@[j].measure is Some)
                    || ((out@[j].status@ == "warning"@ || out@[j].status@ == "unknown"@) && out@[j].measure is None),
            out@.len() == i,
            forall|j: int| 0 <= j < i ==> (#[trigger] out@[j]).subject@ == findings@[j].subject@
                && out@[j].status@ == findings@[j].status@ && out@[j].reason@ == findings@[j].reason@
                && (findings@[j].measure matches Some(m) ==> out@[j].measure matches Some(o) && o@ == m@),
        decreases findings.len() - i,
    {
        let f = &findings[i];
        out.push(
            TerminationFinding {
                subject: text_to_string(&f.subject),
                status: text_to_string(&f.status),
                measure: match &f.measure {
                    Some(m) => Some(text_to_string(m)),
                    None => None,
                },
                reason: text_to_string(&f.reason),
            },
        );
        i += 1;
    }
    proof {
        if counted {
            let m = findings@[0].measure->0;
            assert(out@[0].measure->0@ == m@);
        }
        if plain {
            assert(loop_reason_fits(findings@[0]));
            assert(out@[0].status@ == findings@[0].status@);
            assert(out@[0].reason@ == findings@[0].reason@);
            if findings@[0].measure is Some {
                let m = findings@[0].measure->0;
                assert(out@[0].measure->0@ == m@);
            }
            if out@[0].status@ == "proven"@ {
                reveal_strlit("proven");
                reveal_strlit("warning");
                reveal_strlit("unknown");
                assert("proven"@[0] != "warning"@[0] && "proven"@[0] != "unknown"@[0]);
                assert(valid_finding(findings@[0]));
                assert(findings@[0].measure is Some);
            }
        }
    }
    out
}

} // verus!
