//! Termination checks for `while` loops and self-recursive functions.
use vstd::prelude::*;
use crate::text::{copy_text, push_str, push_text, starts_with, text_eq, text_is, texts_view};
use crate::expr::{
    Expression, Sexp, copy_expr, head_is, is_word, shape, shapes, lemma_shapes, lisp_text, sexp_text,
    lemma_shapes_push,
    lemma_lisp_text_shape, lemma_head_words,
};
use crate::facts::{TextMap, TextSet};
use crate::state::{AbstractState, Summaries, blank};
use crate::numeric::{
    REL_GE, REL_GT, REL_LE, REL_LT, comparison_code, comparison_of, integer_interval, literal_operands,
    ring_operator,
};
use crate::interval::{IntInterval, arithmetic_interval_spec};
use crate::guards::{grows, state_for_branch, state_for_true_branch};
use crate::bounds::{all_categorized, categorized, distinct_messages, record_diagnostic, views, with_message};

verus! {

/// How one update moves an integer counter.
#[derive(Clone, Copy, Debug, PartialEq, Eq, Structural)]
pub enum CounterStep {
    Increase,
    Decrease,
    Unchanged,
    Unknown,
}

/// How an operation changes the length of a vector.
#[derive(Clone, Copy, Debug, PartialEq, Eq, Structural)]
pub enum SizeStep {
    Shrink,
    Grow,
    Unchanged,
    Unknown,
}

/// What a user function does to the lengths of its vector parameters, and
/// how the length of its result relates to each parameter.
#[derive(Clone, Debug)]
pub struct StructuralSummary {
    pub params: Vec<Vec<char>>,
    pub parameter_effects: Vec<SizeStep>,
    pub result_relations: Vec<SizeStep>,
}

/// What termination analysis found for one loop or recursive function.
#[derive(Clone, Debug)]
pub struct FindingText {
    pub subject: Vec<char>,
    pub status: Vec<char>,
    pub measure: Option<Vec<char>>,
    pub reason: Vec<char>,
}

/// Values grouped by name, in the order names first appear.
pub type NamedValues<T> = Vec<(Vec<char>, Vec<T>)>;

/// `i` is the first position of `list` whose name is `name`.
pub open spec fn named_at<T>(list: Seq<(Vec<char>, Vec<T>)>, name: Seq<char>, i: int) -> bool {
    &&& 0 <= i < list.len()
    &&& list[i].0@ == name
    &&& forall|j: int| 0 <= j < i ==> (#[trigger] list[j]).0@ != name
}

/// No entry of `list` has the name `name`.
pub open spec fn unnamed<T>(list: Seq<(Vec<char>, Vec<T>)>, name: Seq<char>) -> bool {
    forall|j: int| 0 <= j < list.len() ==> (#[trigger] list[j]).0@ != name
}

/// `after` is `before` with `value` added to the values of `name`: appended
/// to the first entry with that name, or in a new entry at the end.
pub open spec fn pushed_named<T>(
    before: Seq<(Vec<char>, Vec<T>)>,
    after: Seq<(Vec<char>, Vec<T>)>,
    name: Seq<char>,
    value: T,
) -> bool {
    &&& unnamed(before, name) ==> {
        &&& after.len() == before.len() + 1
        &&& after.take(before.len() as int) == before
        &&& after.last().0@ == name
        &&& after.last().1@ == seq![value]
    }
    &&& forall|i: int| #[trigger] named_at(before, name, i) ==> {
        &&& after.len() == before.len()
        &&& after[i].0 == before[i].0
        &&& after[i].1@ == before[i].1@.push(value)
        &&& forall|j: int| 0 <= j < before.len() && j != i ==> #[trigger] after[j] == before[j]
    }
}

/// `g` with `v` added to the values of `name`: to the first entry with that
/// name, or in a new entry at the end.
pub open spec fn group_push<V>(g: Seq<(Seq<char>, Seq<V>)>, name: Seq<char>, v: V) -> Seq<(Seq<char>, Seq<V>)>
    decreases g.len(),
{
    if g.len() == 0 {
        seq![(name, seq![v])]
    } else if g[0].0 == name {
        g.update(0, (name, g[0].1.push(v)))
    } else {
        seq![g[0]] + group_push(g.drop_first(), name, v)
    }
}

/// `g` with each named value of `events` added in order.
pub open spec fn group_all<V>(g: Seq<(Seq<char>, Seq<V>)>, events: Seq<(Seq<char>, V)>) -> Seq<(Seq<char>, Seq<V>)>
    decreases events.len(),
{
    if events.len() == 0 {
        g
    } else {
        group_push(group_all(g, events.drop_last()), events.last().0, events.last().1)
    }
}

/// Adding two runs of events adds the first, then the second.
pub proof fn lemma_group_all_concat<V>(g: Seq<(Seq<char>, Seq<V>)>, a: Seq<(Seq<char>, V)>, b: Seq<(Seq<char>, V)>)
    ensures
        group_all(g, a + b) == group_all(group_all(g, a), b),
    decreases b.len(),
{
    if b.len() == 0 {
        assert(a + b =~= a);
    } else {
        assert((a + b).drop_last() =~= a + b.drop_last());
        assert((a + b).last() == b.last());
        lemma_group_all_concat(g, a, b.drop_last());
    }
}

/// A name no entry has gets a new entry at the end.
proof fn lemma_group_push_new<V>(g: Seq<(Seq<char>, Seq<V>)>, name: Seq<char>, v: V)
    requires
        forall|j: int| 0 <= j < g.len() ==> (#[trigger] g[j]).0 != name,
    ensures
        group_push(g, name, v) == g.push((name, seq![v])),
    decreases g.len(),
{
    if g.len() > 0 {
        assert forall|j: int| 0 <= j < g.drop_first().len() implies (#[trigger] g.drop_first()[j]).0 != name by {
            assert(g.drop_first()[j] == g[j + 1]);
        }
        lemma_group_push_new(g.drop_first(), name, v);
        assert(seq![g[0]] + g.drop_first().push((name, seq![v])) =~= g.push((name, seq![v])));
    }
}

/// A name whose first entry is `i` gets the value added there.
proof fn lemma_group_push_at<V>(g: Seq<(Seq<char>, Seq<V>)>, name: Seq<char>, v: V, i: int)
    requires
        0 <= i < g.len(),
        g[i].0 == name,
        forall|j: int| 0 <= j < i ==> (#[trigger] g[j]).0 != name,
    ensures
        group_push(g, name, v) == g.update(i, (name, g[i].1.push(v))),
    decreases i,
{
    if i > 0 {
        assert forall|j: int| 0 <= j < i - 1 implies (#[trigger] g.drop_first()[j]).0 != name by {
            assert(g.drop_first()[j] == g[j + 1]);
        }
        assert(g.drop_first()[i - 1] == g[i]);
        lemma_group_push_at(g.drop_first(), name, v, i - 1);
        assert(seq![g[0]] + g.drop_first().update(i - 1, (name, g[i].1.push(v))) =~= g.update(
            i,
            (name, g[i].1.push(v)),
        ));
    }
}

/// Named steps as texts and step sequences.
pub open spec fn steps_view(l: Seq<(Vec<char>, Vec<SizeStep>)>) -> Seq<(Seq<char>, Seq<SizeStep>)> {
    l.map_values(|p: (Vec<char>, Vec<SizeStep>)| (p.0@, p.1@))
}

/// Named expressions as texts and shapes.
pub open spec fn values_view(l: Seq<(Vec<char>, Vec<Expression>)>) -> Seq<(Seq<char>, Seq<Sexp>)> {
    l.map_values(|p: (Vec<char>, Vec<Expression>)| (p.0@, shapes(p.1@)))
}

fn named_index<T>(list: &NamedValues<T>, name: &Vec<char>) -> (r: Option<usize>)
    ensures
        r matches Some(i) ==> named_at(list@, name@, i as int),
        r is None ==> unnamed(list@, name@),
{
    let mut i: usize = 0;
    while i < list.len()
        invariant
            i <= list.len(),
            forall|j: int| 0 <= j < i ==> (#[trigger] list@[j]).0@ != name@,
        decreases list.len() - i,
    {
        if text_eq(&list[i].0, name) {
            return Some(i);
        }
        i += 1;
    }
    None
}

fn push_named_expr(list: &mut NamedValues<Expression>, name: &Vec<char>, value: Expression)
    ensures
        pushed_named(old(list)@, final(list)@, name@, value),
        values_view(final(list)@) == group_push(values_view(old(list)@), name@, shape(value)),
{
    let ghost before = list@;
    match named_index(list, name) {
        Some(i) => {
            let mut entry = list.remove(i);
            entry.1.push(value);
            list.insert(i, entry);
            proof {
                assert forall|k: int| #[trigger] named_at(before, name@, k) implies k == i by {
                    if k < i {
                        assert(before[k].0@ != name@);
                    } else if k > i {
                        assert(before[i as int].0@ != name@);
                    }
                }
                let gv = values_view(before);
                assert forall|j: int| 0 <= j < i implies (#[trigger] gv[j]).0 != name@ by {
                    assert(before[j].0@ != name@);
                }
                lemma_group_push_at(gv, name@, shape(value), i as int);
                lemma_shapes_push(before[i as int].1@, value);
                assert(values_view(list@) =~= gv.update(i as int, (name@, gv[i as int].1.push(shape(value)))));
            }
        },
        None => {
            list.push((copy_text(name), vec![value]));
            proof {
                assert(list@.take(before.len() as int) =~= before);
                assert(list@.last().1@ =~= seq![value]);
                let gv = values_view(before);
                assert forall|j: int| 0 <= j < gv.len() implies (#[trigger] gv[j]).0 != name@ by {
                    assert(before[j].0@ != name@);
                }
                lemma_group_push_new(gv, name@, shape(value));
                lemma_shapes_push(Seq::<Expression>::empty(), value); assert(seq![value] =~= Seq::<Expression>::empty().push(value)); assert(shapes(Seq::<Expression>::empty()) =~= Seq::<Sexp>::empty());
                assert(values_view(list@) =~= gv.push((name@, seq![shape(value)])));
            }
        },
    }
}

fn push_named_step(list: &mut NamedValues<SizeStep>, name: &Vec<char>, value: SizeStep)
    ensures
        pushed_named(old(list)@, final(list)@, name@, value),
        steps_view(final(list)@) == group_push(steps_view(old(list)@), name@, value),
{
    let ghost before = list@;
    match named_index(list, name) {
        Some(i) => {
            let mut entry = list.remove(i);
            entry.1.push(value);
            list.insert(i, entry);
            proof {
                assert forall|k: int| #[trigger] named_at(before, name@, k) implies k == i by {
                    if k < i {
                        assert(before[k].0@ != name@);
                    } else if k > i {
                        assert(before[i as int].0@ != name@);
                    }
                }
                let gv = steps_view(before);
                assert forall|j: int| 0 <= j < i implies (#[trigger] gv[j]).0 != name@ by {
                    assert(before[j].0@ != name@);
                }
                lemma_group_push_at(gv, name@, value, i as int);
                
                assert(steps_view(list@) =~= gv.update(i as int, (name@, gv[i as int].1.push(value))));
            }
        },
        None => {
            list.push((copy_text(name), vec![value]));
            proof {
                assert(list@.take(before.len() as int) =~= before);
                assert(list@.last().1@ =~= seq![value]);
                let gv = steps_view(before);
                assert forall|j: int| 0 <= j < gv.len() implies (#[trigger] gv[j]).0 != name@ by {
                    assert(before[j].0@ != name@);
                }
                lemma_group_push_new(gv, name@, value);
                
                assert(steps_view(list@) =~= gv.push((name@, seq![value])));
            }
        },
    }
}

/// `items` starts with the word `lambda` or `letrec`.
pub open spec fn closure_form(items: Seq<Expression>) -> bool {
    items.len() > 0 && items[0] is Word && (items[0]->Word_0@ == "lambda"@ || items[0]->Word_0@
        == "letrec"@)
}

/// The text of `e` when it is a word.
pub open spec fn word_text(e: Expression) -> Option<Seq<char>> {
    match e {
        Expression::Word(w) => Some(w@),
        _ => None,
    }
}

/// True when `items` starts with the word `lambda` or `letrec`.
pub(crate) fn is_closure_form(items: &Vec<Expression>) -> (r: bool)
    ensures
        r == closure_form(items@),
{
    head_is(items, "lambda") || head_is(items, "letrec")
}

/// The names reassigned by `alter!` in `e`, outside nested closures, with
/// the shapes of their new values, in evaluation order.
pub open spec fn altered(e: Expression) -> Seq<(Seq<char>, Sexp)>
    decreases e,
{
    match e {
        Expression::Apply(items) => if items@.len() == 0 || closure_form(items@) {
            Seq::empty()
        } else if items@.len() == 3 && word_text(items@[0]) == Some("alter!"@) && items@[1] is Word {
            seq![(items@[1]->Word_0@, shape(items@[2]))]
        } else {
            altered_in(items@.drop_first())
        },
        _ => Seq::empty(),
    }
}

/// The reassignments in each of `s`, in order.
pub open spec fn altered_in(s: Seq<Expression>) -> Seq<(Seq<char>, Sexp)>
    decreases s,
{
    if s.len() == 0 {
        Seq::empty()
    } else {
        altered_in(s.drop_last()) + altered(s.last())
    }
}

/// The values each name is reassigned with by `alter!`, outside nested
/// closures.
pub(crate) fn collect_altered_values(expr: &Expression, out: &mut NamedValues<Expression>)
    ensures
        values_view(final(out)@) == group_all(values_view(old(out)@), altered(*expr)),
    decreases *expr,
{
    let ghost v0 = values_view(out@);
    let items = match expr {
        Expression::Apply(items) => items,
        _ => {
            return;
        },
    };
    if is_closure_form(items) {
        return;
    }
    if items.len() == 3 && head_is(items, "alter!") {
        if let Expression::Word(name) = &items[1] {
            let c = copy_expr(&items[2]);
            push_named_expr(out, name, c);
            proof {
                let ev = seq![(name@, shape(items@[2]))];
                assert(ev.drop_last() =~= Seq::<(Seq<char>, Sexp)>::empty());
                assert(altered(*expr) == ev);
                assert(group_all(v0, ev.drop_last()) == v0);
                assert(group_all(v0, ev) == group_push(v0, name@, shape(items@[2])));
            }
            return;
        }
    }
    proof {
        if items@.len() > 0 {
            assert(items@.subrange(1, 1) =~= Seq::<Expression>::empty());
        }
    }
    let mut i: usize = 1;
    while i < items.len()
        invariant
            i >= 1,
            *expr == Expression::Apply(*items),
            items@.len() > 0 ==> i <= items@.len() && values_view(out@) == group_all(
                v0,
                altered_in(items@.subrange(1, i as int)),
            ),
            items@.len() == 0 ==> values_view(out@) == v0,
        decreases items.len() - i,
    {
        assert(decreases_to!(*expr => items@[i as int]));
        collect_altered_values(&items[i], out);
        proof {
            let t = items@.subrange(1, i + 1);
            assert(t.drop_last() =~= items@.subrange(1, i as int));
            assert(t.last() == items@[i as int]);
            lemma_group_all_concat(v0, altered_in(items@.subrange(1, i as int)), altered(items@[i as int]));
        }
        i += 1;
    }
    proof {
        if items@.len() > 0 {
            assert(items@.subrange(1, items@.len() as int) =~= items@.drop_first());
        }
    }
}

/// The logical, comparison and arithmetic operator words.
pub open spec fn guard_operator(op: Seq<char>) -> bool {
    op == "and"@ || op == "or"@ || op == "not"@ || op == "="@ || op == "<"@ || op == "<="@ || op
        == ">"@ || op == ">="@ || op == "+"@ || op == "-"@ || op == "*"@ || op == "/"@ || op == "%"@
}

/// `e` is built only of integers, names and guard operators.
pub open spec fn simple_guard(e: Expression) -> bool
    decreases e,
{
    match e {
        Expression::Int(_) => true,
        Expression::Word(_) => true,
        Expression::Dec(_) => false,
        Expression::Apply(items) => items@.len() > 0 && items@[0] is Word && guard_operator(
            items@[0]->Word_0@,
        ) && all_simple_guards(items@.drop_first()),
    }
}

/// Each of `s` is a simple guard.
pub open spec fn all_simple_guards(s: Seq<Expression>) -> bool
    decreases s,
{
    s.len() == 0 || (simple_guard(s[0]) && all_simple_guards(s.drop_first()))
}

/// `x` is a name in `e` other than `true` and `false`, outside operator
/// positions.
pub open spec fn guard_name(e: Expression, x: Seq<char>) -> bool
    decreases e,
{
    match e {
        Expression::Word(w) => w@ == x && x != "true"@ && x != "false"@,
        Expression::Apply(items) => items@.len() > 0 && guard_name_in(items@.drop_first(), x),
        _ => false,
    }
}

/// `x` is such a name in one of `s`.
pub open spec fn guard_name_in(s: Seq<Expression>, x: Seq<char>) -> bool
    decreases s,
{
    s.len() > 0 && (guard_name(s[0], x) || guard_name_in(s.drop_first(), x))
}

proof fn lemma_all_simple_guards(s: Seq<Expression>)
    ensures
        all_simple_guards(s) <==> forall|k: int| 0 <= k < s.len() ==> simple_guard(#[trigger] s[k]),
    decreases s.len(),
{
    if s.len() > 0 {
        lemma_all_simple_guards(s.drop_first());
        if forall|k: int| 0 <= k < s.len() ==> simple_guard(#[trigger] s[k]) {
            assert forall|k: int| 0 <= k < s.drop_first().len() implies simple_guard(
                #[trigger] s.drop_first()[k],
            ) by {
                assert(s.drop_first()[k] == s[k + 1]);
            }
            assert(simple_guard(s[0]));
        }
        if all_simple_guards(s) {
            assert forall|k: int| 0 <= k < s.len() implies simple_guard(#[trigger] s[k]) by {
                if k > 0 {
                    assert(s.drop_first()[k - 1] == s[k]);
                }
            }
        }
    }
}

proof fn lemma_guard_name_in(s: Seq<Expression>, x: Seq<char>)
    ensures
        guard_name_in(s, x) <==> exists|k: int| 0 <= k < s.len() && guard_name(#[trigger] s[k], x),
    decreases s.len(),
{
    if s.len() > 0 {
        lemma_guard_name_in(s.drop_first(), x);
        if guard_name_in(s.drop_first(), x) {
            let k = choose|k: int| 0 <= k < s.drop_first().len() && guard_name(#[trigger] s.drop_first()[k], x);
            assert(s.drop_first()[k] == s[k + 1]);
        }
        if exists|k: int| 0 <= k < s.len() && guard_name(#[trigger] s[k], x) {
            let k = choose|k: int| 0 <= k < s.len() && guard_name(#[trigger] s[k], x);
            if k > 0 {
                assert(s.drop_first()[k - 1] == s[k]);
            }
        }
    }
}

/// True when `expr` is built only of constants, names and the logical,
/// comparison and arithmetic operators; the names are collected.
pub(crate) fn simple_guard_words(expr: &Expression, out: &mut TextSet) -> (r: bool)
    ensures
        r == simple_guard(*expr),
        forall|x: Seq<char>| #[trigger] old(out).has(x) ==> final(out).has(x),
        forall|x: Seq<char>| #[trigger] final(out).has(x) ==> old(out).has(x) || guard_name(*expr, x),
        r ==> forall|x: Seq<char>| #[trigger] guard_name(*expr, x) ==> final(out).has(x),
    decreases *expr,
{
    match expr {
        Expression::Int(_) => true,
        Expression::Word(w) => {
            if !(text_is(w, "true") || text_is(w, "false")) {
                out.insert(copy_text(w));
            }
            true
        },
        Expression::Dec(_) => false,
        Expression::Apply(items) => {
            if items.len() == 0 {
                return false;
            }
            let op = match &items[0] {
                Expression::Word(w) => w,
                _ => {
                    return false;
                },
            };
            if !(text_is(op, "and") || text_is(op, "or") || text_is(op, "not") || text_is(op, "=")
                || text_is(op, "<") || text_is(op, "<=") || text_is(op, ">") || text_is(op, ">=")
                || text_is(op, "+") || text_is(op, "-") || text_is(op, "*") || text_is(op, "/")
                || text_is(op, "%")) {
                return false;
            }
            proof {
                lemma_all_simple_guards(items@.drop_first());
            }
            let ghost start = *out;
            let mut i: usize = 1;
            while i < items.len()
                invariant
                    1 <= i <= items.len(),
                    *expr == Expression::Apply(*items),
                    forall|k: int| 1 <= k < i ==> simple_guard(#[trigger] items@[k]),
                    forall|x: Seq<char>| #[trigger] start.has(x) ==> out.has(x),
                    forall|x: Seq<char>| #[trigger] out.has(x) ==> start.has(x) || exists|k: int|
                        1 <= k < i && guard_name(#[trigger] items@[k], x),
                    forall|x: Seq<char>, k: int| 1 <= k < i && #[trigger] guard_name(items@[k], x) ==> out.has(x),
                decreases items.len() - i,
            {
                assert(decreases_to!(*expr => items@[i as int]));
                let ghost mid = *out;
                if !simple_guard_words(&items[i], out) {
                    proof {
                        assert(items@.drop_first()[i - 1] == items@[i as int]);
                        assert forall|x: Seq<char>| #[trigger] out.has(x) implies start.has(x) || guard_name(*expr, x) by {
                            lemma_guard_name_in(items@.drop_first(), x);
                            if !start.has(x) {
                                if !mid.has(x) {
                                    assert(guard_name(items@.drop_first()[i - 1], x));
                                } else {
                                    let k = choose|k: int| 1 <= k < i && guard_name(#[trigger] items@[k], x);
                                    assert(items@.drop_first()[k - 1] == items@[k]);
                                    assert(guard_name(items@.drop_first()[k - 1], x));
                                }
                            }
                        }
                    }
                    return false;
                }
                proof {
                    assert forall|x: Seq<char>| #[trigger] out.has(x) implies start.has(x) || exists|k: int|
                        1 <= k < i + 1 && guard_name(#[trigger] items@[k], x) by {
                        if !start.has(x) && !mid.has(x) {
                            assert(guard_name(items@[i as int], x));
                        }
                    }
                }
                i += 1;
            }
            proof {
                assert forall|k: int| 0 <= k < items@.drop_first().len() implies simple_guard(
                    #[trigger] items@.drop_first()[k],
                ) by {
                    assert(items@.drop_first()[k] == items@[k + 1]);
                }
                assert forall|x: Seq<char>| #[trigger] out.has(x) implies start.has(x) || guard_name(*expr, x) by {
                    lemma_guard_name_in(items@.drop_first(), x);
                    if !start.has(x) {
                        let k = choose|k: int| 1 <= k < i && guard_name(#[trigger] items@[k], x);
                        assert(items@.drop_first()[k - 1] == items@[k]);
                        assert(guard_name(items@.drop_first()[k - 1], x));
                    }
                }
                assert forall|x: Seq<char>| #[trigger] guard_name(*expr, x) implies out.has(x) by {
                    lemma_guard_name_in(items@.drop_first(), x);
                    let k = choose|k: int| 0 <= k < items@.drop_first().len() && guard_name(
                        #[trigger] items@.drop_first()[k],
                        x,
                    );
                    assert(items@.drop_first()[k] == items@[k + 1]);
                }
            }
            true
        },
    }
}

/// The length change a `pop!`, `pop-val!` or `push!` form itself makes.
pub open spec fn own_size_events(items: Seq<Expression>) -> Seq<(Seq<char>, SizeStep)> {
    if items.len() == 2 && (word_text(items[0]) == Some("pop!"@) || word_text(items[0]) == Some(
        "pop-val!"@,
    )) && items[1] is Word {
        seq![(items[1]->Word_0@, SizeStep::Shrink)]
    } else if items.len() == 3 && word_text(items[0]) == Some("push!"@) && items[1] is Word {
        seq![(items[1]->Word_0@, SizeStep::Grow)]
    } else {
        Seq::empty()
    }
}

/// The length changes of the first `k` arguments of the call `items` that
/// are names, by the per-parameter effects `effects`, leaving out
/// `Unchanged`.
pub open spec fn effect_events(items: Seq<Expression>, effects: Seq<SizeStep>, k: int) -> Seq<(Seq<char>, SizeStep)>
    decreases k,
{
    if k <= 0 {
        Seq::empty()
    } else {
        effect_events(items, effects, k - 1) + if items[k] is Word && effects[k - 1] != SizeStep::Unchanged {
            seq![(items[k]->Word_0@, effects[k - 1])]
        } else {
            Seq::empty()
        }
    }
}

/// The length changes a call of a user function with a summary makes to
/// the names it is passed.
pub open spec fn summary_size_events(items: Seq<Expression>, summaries: TextMap<StructuralSummary>) -> Seq<(Seq<char>, SizeStep)> {
    if items.len() > 0 && items[0] is Word && summaries.has_key(items[0]->Word_0@) && summaries.value_at(
        items[0]->Word_0@,
    ).params@.len() == items.len() - 1 {
        let effects = summaries.value_at(items[0]->Word_0@).parameter_effects@;
        effect_events(
            items,
            effects,
            if effects.len() <= items.len() - 1 {
                effects.len() as int
            } else {
                items.len() - 1
            },
        )
    } else {
        Seq::empty()
    }
}

/// The length changes in `e`, outside nested closures, in evaluation order:
/// the form's own, then its operands'.
pub open spec fn size_events(e: Expression, summaries: TextMap<StructuralSummary>) -> Seq<(Seq<char>, SizeStep)>
    decreases e,
{
    match e {
        Expression::Apply(items) => if items@.len() == 0 || closure_form(items@) {
            Seq::empty()
        } else {
            own_size_events(items@) + summary_size_events(items@, summaries) + size_events_in(
                items@.drop_first(),
                summaries,
            )
        },
        _ => Seq::empty(),
    }
}

/// The length changes in each of `s`, in order.
pub open spec fn size_events_in(s: Seq<Expression>, summaries: TextMap<StructuralSummary>) -> Seq<(Seq<char>, SizeStep)>
    decreases s,
{
    if s.len() == 0 {
        Seq::empty()
    } else {
        size_events_in(s.drop_last(), summaries) + size_events(s.last(), summaries)
    }
}

/// The length changes each vector name undergoes: `pop!`, `pop-val!`,
/// `push!`, and calls of user functions with a known effect.
#[verifier::rlimit(50)]
pub(crate) fn collect_size_mutations(
    expr: &Expression,
    summaries: &TextMap<StructuralSummary>,
    out: &mut NamedValues<SizeStep>,
)
    ensures
        steps_view(final(out)@) == group_all(steps_view(old(out)@), size_events(*expr, *summaries)),
    decreases *expr,
{
    let ghost v0 = steps_view(out@);
    let items = match expr {
        Expression::Apply(items) => items,
        _ => {
            return;
        },
    };
    if is_closure_form(items) {
        return;
    }
    let ghost own = own_size_events(items@);
    if items.len() == 2 && (head_is(items, "pop!") || head_is(items, "pop-val!")) {
        if let Expression::Word(name) = &items[1] {
            push_named_step(out, name, SizeStep::Shrink);
            proof {
                assert(own.drop_last() =~= Seq::<(Seq<char>, SizeStep)>::empty());
                assert(group_all(v0, own.drop_last()) == v0);
            }
        }
    } else if items.len() == 3 && head_is(items, "push!") {
        if let Expression::Word(name) = &items[1] {
            push_named_step(out, name, SizeStep::Grow);
            proof {
                assert(own.drop_last() =~= Seq::<(Seq<char>, SizeStep)>::empty());
                assert(group_all(v0, own.drop_last()) == v0);
            }
        }
    }
    assert(steps_view(out@) == group_all(v0, own));
    let ghost v1 = steps_view(out@);
    let ghost summ = summary_size_events(items@, *summaries);
    if items.len() > 0 {
        if let Expression::Word(op) = &items[0] {
            if let Some(summary) = summaries.get_ref(op) {
                if summary.params.len() == items.len() - 1 {
                    let mut k: usize = 0;
                    while k < summary.parameter_effects.len() && k + 1 < items.len()
                        invariant
                            k <= summary.parameter_effects.len(),
                            k <= items.len() - 1,
                            steps_view(out@) == group_all(v1, effect_events(items@, summary.parameter_effects@, k as int)),
                        decreases summary.parameter_effects.len() - k,
                    {
                        let effect = summary.parameter_effects[k];
                        let ghost before = effect_events(items@, summary.parameter_effects@, k as int);
                        let ghost after = effect_events(items@, summary.parameter_effects@, k + 1);
                        if let Expression::Word(name) = &items[k + 1] {
                            if effect != SizeStep::Unchanged {
                                push_named_step(out, name, effect);
                                proof {
                                    assert(after == before.push((name@, effect)));
                                    assert(after.drop_last() =~= before);
                                }
                            } else {
                                proof {
                                    assert(after =~= before);
                                }
                            }
                        } else {
                            proof {
                                assert(after =~= before);
                            }
                        }
                        k += 1;
                    }
                }
            }
        }
    }
    assert(steps_view(out@) == group_all(v1, summ));
    proof {
        lemma_group_all_concat(v0, own, summ);
    }
    let ghost v2 = steps_view(out@);
    proof {
        if items@.len() > 0 {
            assert(items@.subrange(1, 1) =~= Seq::<Expression>::empty());
        }
    }
    let mut i: usize = 1;
    while i < items.len()
        invariant
            i >= 1,
            *expr == Expression::Apply(*items),
            items@.len() > 0 ==> i <= items@.len() && steps_view(out@) == group_all(
                v2,
                size_events_in(items@.subrange(1, i as int), *summaries),
            ),
            items@.len() == 0 ==> steps_view(out@) == v2,
        decreases items.len() - i,
    {
        assert(decreases_to!(*expr => items@[i as int]));
        collect_size_mutations(&items[i], summaries, out);
        proof {
            let t = items@.subrange(1, i + 1);
            assert(t.drop_last() =~= items@.subrange(1, i as int));
            assert(t.last() == items@[i as int]);
            lemma_group_all_concat(v2, size_events_in(items@.subrange(1, i as int), *summaries), size_events(items@[i as int], *summaries));
        }
        i += 1;
    }
    proof {
        if items@.len() > 0 {
            assert(items@.subrange(1, items@.len() as int) =~= items@.drop_first());
            lemma_group_all_concat(v0, own + summ, size_events_in(items@.drop_first(), *summaries));
        }
    }
}

/// The vector name `xs` when `e` is `(length xs)`.
pub open spec fn length_form(e: Expression) -> Option<Seq<char>> {
    match e {
        Expression::Apply(items) => if items@.len() == 2 && word_text(items@[0]) == Some("length"@)
            && items@[1] is Word {
            Some(items@[1]->Word_0@)
        } else {
            None
        },
        _ => None,
    }
}

/// For a comparison of `(length xs)` with another operand, `xs` and the
/// way its length must move to make the comparison false.
pub open spec fn size_exit(c: Expression) -> Option<(Seq<char>, SizeStep)> {
    match c {
        Expression::Apply(items) => if items@.len() == 3 && items@[0] is Word {
            let op = items@[0]->Word_0@;
            let greater = op == ">"@ || op == ">="@;
            let less = op == "<"@ || op == "<="@;
            if !(greater || less) {
                None
            } else if length_form(items@[1]) is Some {
                Some(
                    (
                        length_form(items@[1])->0,
                        if greater {
                            SizeStep::Shrink
                        } else {
                            SizeStep::Grow
                        },
                    ),
                )
            } else if length_form(items@[2]) is Some {
                Some(
                    (
                        length_form(items@[2])->0,
                        if less {
                            SizeStep::Shrink
                        } else {
                            SizeStep::Grow
                        },
                    ),
                )
            } else {
                None
            }
        } else {
            None
        },
        _ => None,
    }
}

/// The vector name `xs` of `(length xs)`.
pub(crate) fn length_operand(expr: &Expression) -> (r: Option<&Vec<char>>)
    ensures
        r is Some == length_form(*expr) is Some,
        r matches Some(n) ==> length_form(*expr) == Some(n@),
{
    match expr {
        Expression::Apply(items) => {
            if items.len() == 2 && head_is(items, "length") {
                match &items[1] {
                    Expression::Word(name) => Some(name),
                    _ => None,
                }
            } else {
                None
            }
        },
        _ => None,
    }
}

/// For a loop condition comparing `(length xs)`, the vector and the way its
/// length must move for the loop to exit.
pub(crate) fn size_guard_exit_direction(condition: &Expression) -> (r: Option<(&Vec<char>, SizeStep)>)
    ensures
        r is Some == size_exit(*condition) is Some,
        r matches Some((n, step)) ==> size_exit(*condition) == Some((n@, step)),
{
    let items = match condition {
        Expression::Apply(items) => items,
        _ => {
            return None;
        },
    };
    if items.len() != 3 {
        return None;
    }
    let op = match &items[0] {
        Expression::Word(w) => w,
        _ => {
            return None;
        },
    };
    let greater = text_is(op, ">") || text_is(op, ">=");
    let less = text_is(op, "<") || text_is(op, "<=");
    if !(greater || less) {
        return None;
    }
    if let Some(name) = length_operand(&items[1]) {
        return Some(
            (
                name,
                if greater {
                    SizeStep::Shrink
                } else {
                    SizeStep::Grow
                },
            ),
        );
    }
    match length_operand(&items[2]) {
        Some(name) => Some(
            (
                name,
                if less {
                    SizeStep::Shrink
                } else {
                    SizeStep::Grow
                },
            ),
        ),
        None => None,
    }
}

/// The one step all the steps agree on, `Unknown` when they differ, and
/// `Unchanged` when there are none.
pub fn combined_size_step(steps: &Vec<SizeStep>) -> (r: SizeStep)
    ensures
        steps@.len() == 0 ==> r == SizeStep::Unchanged,
        steps@.len() > 0 && (forall|i: int| 0 <= i < steps@.len() ==> #[trigger] steps@[i] == steps@[0])
            ==> r == steps@[0],
        steps@.len() > 0 && (exists|i: int| 0 <= i < steps@.len() && #[trigger] steps@[i] != steps@[0])
            ==> r == SizeStep::Unknown,
{
    if steps.len() == 0 {
        return SizeStep::Unchanged;
    }
    let first = steps[0];
    let mut i: usize = 1;
    while i < steps.len()
        invariant
            1 <= i <= steps@.len(),
            first == steps@[0],
            forall|j: int| 0 <= j < i ==> #[trigger] steps@[j] == first,
        decreases steps.len() - i,
    {
        if steps[i] != first {
            return SizeStep::Unknown;
        }
        i += 1;
    }
    first
}

/// How adding a value from `iv` moves a counter.
pub open spec fn interval_step(iv: IntInterval) -> CounterStep {
    if iv.min > 0 {
        CounterStep::Increase
    } else if iv.max < 0 {
        CounterStep::Decrease
    } else if iv.min == 0 && iv.max == 0 {
        CounterStep::Unchanged
    } else {
        CounterStep::Unknown
    }
}

/// The opposite move.
pub open spec fn flipped_step(s: CounterStep) -> CounterStep {
    match s {
        CounterStep::Increase => CounterStep::Decrease,
        CounterStep::Decrease => CounterStep::Increase,
        other => other,
    }
}

/// How assigning `value` moves the counter `name`, where the shape of
/// `value` alone decides it: the name itself, a constant step added to or
/// taken from it, or any other form.
pub open spec fn plain_update_step(name: Seq<char>, value: Expression) -> Option<CounterStep> {
    match value {
        Expression::Word(other) => Some(
            if other@ == name {
                CounterStep::Unchanged
            } else {
                CounterStep::Unknown
            },
        ),
        Expression::Apply(items) => if items@.len() != 3 {
            Some(CounterStep::Unknown)
        } else {
            let plus = word_text(items@[0]) == Some("+"@);
            let minus = word_text(items@[0]) == Some("-"@);
            let left = word_text(items@[1]) == Some(name);
            let right = word_text(items@[2]) == Some(name);
            if plus && left {
                match items@[2] {
                    Expression::Int(k) => Some(interval_step(IntInterval { min: k as i64, max: k as i64 })),
                    _ => None,
                }
            } else if plus && right {
                match items@[1] {
                    Expression::Int(k) => Some(interval_step(IntInterval { min: k as i64, max: k as i64 })),
                    _ => None,
                }
            } else if minus && left {
                match items@[2] {
                    Expression::Int(k) => Some(
                        flipped_step(interval_step(IntInterval { min: k as i64, max: k as i64 })),
                    ),
                    _ => None,
                }
            } else {
                Some(CounterStep::Unknown)
            }
        },
        _ => Some(CounterStep::Unknown),
    }
}

/// `plain_update_step` read off the shape of the value.
pub open spec fn plain_step_of(name: Seq<char>, value: Sexp) -> Option<CounterStep> {
    match value {
        Sexp::Word(other) => Some(
            if other == name {
                CounterStep::Unchanged
            } else {
                CounterStep::Unknown
            },
        ),
        Sexp::List(items) => if items.len() != 3 {
            Some(CounterStep::Unknown)
        } else {
            let plus = items[0] == Sexp::Word("+"@);
            let minus = items[0] == Sexp::Word("-"@);
            let left = items[1] == Sexp::Word(name);
            let right = items[2] == Sexp::Word(name);
            if plus && left {
                match items[2] {
                    Sexp::Int(k) => Some(interval_step(IntInterval { min: k as i64, max: k as i64 })),
                    _ => None,
                }
            } else if plus && right {
                match items[1] {
                    Sexp::Int(k) => Some(interval_step(IntInterval { min: k as i64, max: k as i64 })),
                    _ => None,
                }
            } else if minus && left {
                match items[2] {
                    Sexp::Int(k) => Some(flipped_step(interval_step(IntInterval { min: k as i64, max: k as i64 }))),
                    _ => None,
                }
            } else {
                Some(CounterStep::Unknown)
            }
        },
        _ => Some(CounterStep::Unknown),
    }
}

/// The shape of a value decides its plain step.
proof fn lemma_plain_step_shape(name: Seq<char>, value: Expression)
    ensures
        plain_update_step(name, value) == plain_step_of(name, shape(value)),
{
    match value {
        Expression::Apply(items) => {
            lemma_shapes(items@);
            if items@.len() == 3 {
                assert(shapes(items@)[0] == shape(items@[0]));
                assert(shapes(items@)[1] == shape(items@[1]));
                assert(shapes(items@)[2] == shape(items@[2]));
                assert((word_text(items@[0]) == Some("+"@)) == (shape(items@[0]) == Sexp::Word("+"@))) by {
                    match items@[0] { Expression::Apply(l) => {}, _ => {} }
                }
                assert((word_text(items@[0]) == Some("-"@)) == (shape(items@[0]) == Sexp::Word("-"@))) by {
                    match items@[0] { Expression::Apply(l) => {}, _ => {} }
                }
                assert((word_text(items@[1]) == Some(name)) == (shape(items@[1]) == Sexp::Word(name))) by {
                    match items@[1] { Expression::Apply(l) => {}, _ => {} }
                }
                assert((word_text(items@[2]) == Some(name)) == (shape(items@[2]) == Sexp::Word(name))) by {
                    match items@[2] { Expression::Apply(l) => {}, _ => {} }
                }
                assert((items@[1] is Int) == (shape(items@[1]) is Int)) by {
                    match items@[1] { Expression::Apply(l) => {}, _ => {} }
                }
                assert((items@[2] is Int) == (shape(items@[2]) is Int)) by {
                    match items@[2] { Expression::Apply(l) => {}, _ => {} }
                }
            }
        },
        _ => {},
    }
}

/// A counter that moves toward its exit bound: a name that the loop body
/// reassigns only by plain steps that all agree, compared with a bound in the
/// loop condition so that the step approaches the bound.
pub open spec fn counter_progress(condition: Expression, entry: (Seq<char>, Seq<Sexp>)) -> bool {
    let (name, values) = entry;
    &&& counter_comparison(condition, name) is Some
    &&& forall|k: int| 0 <= k < values.len() ==> #[trigger] plain_step_of(name, values[k]) is Some
    &&& {
        let (relation, on_left) = counter_comparison(condition, name)->0;
        let step = agreed_step(Seq::new(values.len(), |k: int| plain_step_of(name, values[k])->0));
        ||| (((relation == REL_LT || relation == REL_LE) && on_left) || ((relation == REL_GT
            || relation == REL_GE) && !on_left)) && step == CounterStep::Increase
        ||| (((relation == REL_GT || relation == REL_GE) && on_left) || ((relation == REL_LT
            || relation == REL_LE) && !on_left)) && step == CounterStep::Decrease
    }
}

/// The values each name of a `while` loop's body is reassigned with.
pub open spec fn loop_updates(items: Seq<Expression>) -> Seq<(Seq<char>, Seq<Sexp>)> {
    group_all(Seq::empty(), altered_in(items.skip(2)))
}

/// The step all of `steps` agree on, `Unknown` when they differ, and
/// `Unchanged` when there are none.
pub open spec fn agreed_step(steps: Seq<CounterStep>) -> CounterStep {
    if steps.len() == 0 {
        CounterStep::Unchanged
    } else if forall|k: int| 0 <= k < steps.len() ==> #[trigger] steps[k] == steps[0] {
        steps[0]
    } else {
        CounterStep::Unknown
    }
}

/// The direction a step expression moves a counter it is added to.
fn step_direction(step: &Expression, facts: &AbstractState) -> (r: Option<CounterStep>)
    ensures
        *step matches Expression::Int(v) ==> r == Some(
            interval_step(IntInterval { min: v as i64, max: v as i64 }),
        ),
        literal_operands(*step) matches Some((op, a, b)) ==> (ring_operator(op) && blank(*facts) ==> r
            == match arithmetic_interval_spec(
            op,
            IntInterval { min: a as i64, max: a as i64 },
            IntInterval { min: b as i64, max: b as i64 },
        ) {
            Some(iv) => Some(interval_step(iv)),
            None => None,
        }),
{
    let interval = integer_interval(step, facts)?;
    if interval.min > 0 {
        Some(CounterStep::Increase)
    } else if interval.max < 0 {
        Some(CounterStep::Decrease)
    } else if interval.min == 0 && interval.max == 0 {
        Some(CounterStep::Unchanged)
    } else {
        Some(CounterStep::Unknown)
    }
}

/// How assigning `value` moves the counter `name`.
pub(crate) fn classify_update(name: &Vec<char>, value: &Expression, facts: &AbstractState) -> (r:
    CounterStep)
    ensures
        plain_update_step(name@, *value) matches Some(s) ==> r == s,
{
    match value {
        Expression::Word(other) => {
            if text_eq(other, name) {
                CounterStep::Unchanged
            } else {
                CounterStep::Unknown
            }
        },
        Expression::Apply(items) => {
            if items.len() != 3 {
                return CounterStep::Unknown;
            }
            let plus = is_word(&items[0], "+");
            let minus = is_word(&items[0], "-");
            let left_is_name = match &items[1] {
                Expression::Word(v) => text_eq(v, name),
                _ => false,
            };
            let right_is_name = match &items[2] {
                Expression::Word(v) => text_eq(v, name),
                _ => false,
            };
            if plus && left_is_name {
                match step_direction(&items[2], facts) {
                    Some(d) => d,
                    None => CounterStep::Unknown,
                }
            } else if plus && right_is_name {
                match step_direction(&items[1], facts) {
                    Some(d) => d,
                    None => CounterStep::Unknown,
                }
            } else if minus && left_is_name {
                match step_direction(&items[2], facts) {
                    Some(CounterStep::Increase) => CounterStep::Decrease,
                    Some(CounterStep::Decrease) => CounterStep::Increase,
                    Some(other) => other,
                    None => CounterStep::Unknown,
                }
            } else {
                CounterStep::Unknown
            }
        },
        _ => CounterStep::Unknown,
    }
}

/// How a sequence of updates moves the counter `name`: the step they all
/// agree on, `Unknown` when they differ, `Unchanged` when there are none.
pub(crate) fn counter_step(name: &Vec<char>, updates: &Vec<Expression>, facts: &AbstractState) -> (r:
    CounterStep)
    ensures
        updates@.len() == 0 ==> r == CounterStep::Unchanged,
        (forall|k: int| 0 <= k < updates@.len() ==> #[trigger] plain_update_step(name@, updates@[k]) is Some)
            ==> r == agreed_step(
            Seq::new(updates@.len(), |k: int| plain_update_step(name@, updates@[k])->0),
        ),
{
    let ghost steps = Seq::new(updates@.len(), |k: int| plain_update_step(name@, updates@[k])->0);
    let ghost known = forall|k: int| 0 <= k < updates@.len() ==> #[trigger] plain_update_step(name@, updates@[k]) is Some;
    if updates.len() == 0 {
        return CounterStep::Unchanged;
    }
    let first = classify_update(name, &updates[0], facts);
    proof {
        if known {
            assert(plain_update_step(name@, updates@[0]) is Some);
        }
    }
    let mut i: usize = 1;
    while i < updates.len()
        invariant
            1 <= i <= updates@.len(),
            steps == Seq::new(updates@.len(), |k: int| plain_update_step(name@, updates@[k])->0),
            known == forall|k: int| 0 <= k < updates@.len() ==> #[trigger] plain_update_step(name@, updates@[k]) is Some,
            known ==> first == steps[0],
            known ==> forall|k: int| 0 <= k < i ==> #[trigger] steps[k] == steps[0],
        decreases updates.len() - i,
    {
        let next = classify_update(name, &updates[i], facts);
        if next != first {
            proof {
                if known {
                    assert(plain_update_step(name@, updates@[i as int]) is Some);
                    assert(steps[i as int] != steps[0]);
                }
            }
            return CounterStep::Unknown;
        }
        proof {
            if known {
                assert(plain_update_step(name@, updates@[i as int]) is Some);
            }
        }
        i += 1;
    }
    first
}

/// For `(op a b)` with `op` an ordering comparison and `name` as `a` or
/// `b`: the relation and whether `name` is the left operand.
pub open spec fn counter_comparison_here(items: Seq<Expression>, name: Seq<char>) -> Option<(u8, bool)> {
    if items.len() == 3 && items[0] is Word && comparison_of(items[0]->Word_0@) is Some
        && comparison_of(items[0]->Word_0@)->0 != crate::numeric::REL_EQ {
        let rel = comparison_of(items[0]->Word_0@)->0;
        if word_text(items[1]) == Some(name) {
            Some((rel, true))
        } else if word_text(items[2]) == Some(name) {
            Some((rel, false))
        } else {
            None
        }
    } else {
        None
    }
}

/// The first ordering comparison in `e` with `name` on one side, searching
/// the form itself and then its operands in order.
pub open spec fn counter_comparison(e: Expression, name: Seq<char>) -> Option<(u8, bool)>
    decreases e,
{
    match e {
        Expression::Apply(items) => if items@.len() == 0 {
            None
        } else if counter_comparison_here(items@, name) is Some {
            counter_comparison_here(items@, name)
        } else {
            counter_comparison_in(items@.drop_first(), name)
        },
        _ => None,
    }
}

/// The first such comparison found in `s`, in order.
pub open spec fn counter_comparison_in(s: Seq<Expression>, name: Seq<char>) -> Option<(u8, bool)>
    decreases s,
{
    if s.len() == 0 {
        None
    } else {
        match counter_comparison(s[0], name) {
            Some(c) => Some(c),
            None => counter_comparison_in(s.drop_first(), name),
        }
    }
}

/// The first ordering comparison in `expr` with `name` on one side: its
/// relation and whether `name` is the left operand.
pub(crate) fn comparison_for_counter(expr: &Expression, name: &Vec<char>) -> (r: Option<(u8, bool)>)
    ensures
        r == counter_comparison(*expr, name@),
    decreases *expr,
{
    let items = match expr {
        Expression::Apply(items) => items,
        _ => {
            return None;
        },
    };
    if items.len() == 3 {
        if let Expression::Word(op) = &items[0] {
            if let Some(relation) = comparison_code(op) {
                if relation != crate::numeric::REL_EQ {
                    if let Expression::Word(v) = &items[1] {
                        if text_eq(v, name) {
                            return Some((relation, true));
                        }
                    }
                    if let Expression::Word(v) = &items[2] {
                        if text_eq(v, name) {
                            return Some((relation, false));
                        }
                    }
                }
            }
        }
    }
    proof {
        if items@.len() > 0 {
            assert(items@.subrange(1, items@.len() as int) =~= items@.drop_first());
        }
        assert(counter_comparison_here(items@, name@) is None);
    }
    let mut i: usize = 1;
    while i < items.len()
        invariant
            i >= 1,
            *expr == Expression::Apply(*items),
            counter_comparison_here(items@, name@) is None,
            items@.len() > 0 ==> i <= items@.len() && counter_comparison_in(items@.drop_first(), name@) == counter_comparison_in(
                items@.subrange(i as int, items@.len() as int), name@,
            ),
        decreases items.len() - i,
    {
        assert(decreases_to!(*expr => items@[i as int]));
        proof {
            let rest = items@.subrange(i as int, items@.len() as int);
            assert(rest[0] == items@[i as int]);
            assert(rest.drop_first() =~= items@.subrange(i + 1, items@.len() as int));
        }
        if let Some(found) = comparison_for_counter(&items[i], name) {
            return Some(found);
        }
        i += 1;
    }
    proof {
        if items@.len() > 0 {
            assert(items@.subrange(i as int, items@.len() as int).len() == 0);
        }
    }
    None
}

/// A termination message: `prefix`, a quoted name, `middle`, and a
/// backquoted rendering.
fn named_message(prefix: &str, name: &Vec<char>, middle: &str, expr: &Expression) -> (r: Vec<char>)
    ensures
        categorized(r@),
        r@ == "termination: "@ + prefix@ + name@ + middle@ + lisp_text(*expr) + "`"@,
{
    let mut out: Vec<char> = Vec::new();
    push_str(&mut out, "termination: ");
    let ghost p = out@;
    push_str(&mut out, prefix);
    push_text(&mut out, name);
    push_str(&mut out, middle);
    let lisp = expr.lisp_chars();
    push_text(&mut out, &lisp);
    out.push('`');
    proof {
        reveal_strlit("`");
        assert(out@ =~= "termination: "@ + prefix@ + name@ + middle@ + lisp_text(*expr) + "`"@);
        assert(out@.take(p.len() as int) =~= p);
    }
    out
}

/// A termination message: `prefix` and a backquoted rendering.
fn plain_message(prefix: &str, expr: &Expression) -> (r: Vec<char>)
    ensures
        categorized(r@),
        r@ == "termination: "@ + prefix@ + lisp_text(*expr) + "`"@,
{
    let mut out: Vec<char> = Vec::new();
    push_str(&mut out, "termination: ");
    let ghost p = out@;
    push_str(&mut out, prefix);
    let lisp = expr.lisp_chars();
    push_text(&mut out, &lisp);
    out.push('`');
    proof {
        reveal_strlit("`");
        assert(out@ =~= "termination: "@ + prefix@ + lisp_text(*expr) + "`"@);
        assert(out@.take(p.len() as int) =~= p);
    }
    out
}

/// The message for a recursive call that does not shrink `parameter`.
fn shrink_message(function: &Vec<char>, parameter: &Vec<char>, branch: &Expression) -> (r: Vec<
    char,
>)
    ensures
        categorized(r@),
{
    let mut out: Vec<char> = Vec::new();
    push_str(&mut out, "termination: ");
    let ghost p = out@;
    push_str(&mut out, "recursive call to '");
    push_text(&mut out, function);
    push_str(&mut out, "' does not shrink '");
    push_text(&mut out, parameter);
    push_str(&mut out, "': `");
    let lisp = branch.lisp_chars();
    push_text(&mut out, &lisp);
    out.push('`');
    proof {
        assert(out@.take(p.len() as int) =~= p);
    }
    out
}

/// The loop counter moves toward the exit: the relation with the counter
/// on the given side and the step it takes.
fn toward_upper_exit(relation: u8, counter_on_left: bool) -> (r: bool)
    ensures
        r == (((relation == REL_LT || relation == REL_LE) && counter_on_left) || ((relation == REL_GT
            || relation == REL_GE) && !counter_on_left)),
{
    ((relation == REL_LT || relation == REL_LE) && counter_on_left) || ((relation == REL_GT
        || relation == REL_GE) && !counter_on_left)
}

/// The loop counter moves toward the exit when it falls.
fn toward_lower_exit(relation: u8, counter_on_left: bool) -> (r: bool)
    ensures
        r == (((relation == REL_GT || relation == REL_GE) && counter_on_left) || ((relation == REL_LT
            || relation == REL_LE) && !counter_on_left)),
{
    ((relation == REL_GT || relation == REL_GE) && counter_on_left) || ((relation == REL_LT
        || relation == REL_LE) && !counter_on_left)
}

/// A `while` loop on a counter: its condition compares a name (not `true`
/// or `false`) with an Int literal by an ordering, `(rel w c)`, the body
/// reassigns `w`, and every group of updates of `w` moves it toward the exit
/// bound.
pub open spec fn counter_loop(items: Seq<Expression>) -> bool {
    items.len() >= 3 && match items[1] {
        Expression::Apply(c) => c@.len() == 3 && c@[0] is Word && comparison_of(c@[0]->Word_0@) is Some
            && comparison_of(c@[0]->Word_0@)->0 != crate::numeric::REL_EQ && c@[1] is Word && c@[1]->Word_0@
            != "true"@ && c@[1]->Word_0@ != "false"@ && c@[2] is Int && (exists|u: int|
            0 <= u < loop_updates(items).len() && #[trigger] loop_updates(items)[u].0 == c@[1]->Word_0@)
            && forall|u: int| 0 <= u < loop_updates(items).len() && #[trigger] loop_updates(items)[u].0
                == c@[1]->Word_0@ ==> counter_progress(items[1], loop_updates(items)[u]),
        _ => false,
    }
}

/// The counter of a counter loop.
pub open spec fn loop_counter(items: Seq<Expression>) -> Seq<char> {
    items[1]->Apply_0@[1]->Word_0@
}

/// The counter of a counter loop rises toward its exit bound: the loop runs
/// while the counter is below the bound.
pub open spec fn counter_rises(items: Seq<Expression>) -> bool {
    let rel = comparison_of(items[1]->Apply_0@[0]->Word_0@)->0;
    rel == REL_LT || rel == REL_LE
}

/// The reason given for a counter loop: its counter rises or falls toward
/// the exit bound.
pub open spec fn counter_reason(items: Seq<Expression>) -> Seq<char> {
    loop_counter(items) + if counter_rises(items) {
        " increases toward the exit bound"@
    } else {
        " decreases toward the exit bound"@
    }
}

/// In the condition of a counter loop, only the counter is compared.
proof fn lemma_only_counter_compared(items: Seq<Expression>, n: Seq<char>)
    requires
        counter_loop(items),
        n != loop_counter(items),
    ensures
        counter_comparison(items[1], n) is None,
{
    let c = items[1]->Apply_0@;
    assert(counter_comparison_here(c, n) is None);
    let rest = c.drop_first();
    assert(counter_comparison(rest[0], n) is None);
    assert(counter_comparison(rest[1], n) is None);
    assert(counter_comparison_in(rest.drop_first().drop_first(), n) is None);
    assert(counter_comparison_in(rest.drop_first(), n) is None);
    assert(counter_comparison_in(rest, n) is None);
}

/// The values of each updated name of a `while` loop, collected in order.
proof fn lemma_loop_updates_step(items: Seq<Expression>, i: int)
    requires
        2 <= i < items.len(),
    ensures
        group_all(Seq::empty(), altered_in(items.subrange(2, i + 1))) == group_all(
            group_all(Seq::empty(), altered_in(items.subrange(2, i))),
            altered(items[i]),
        ),
{
    let next = items.subrange(2, i + 1);
    assert(next.drop_last() =~= items.subrange(2, i));
    assert(next.last() == items[i]);
    lemma_group_all_concat(Seq::empty(), altered_in(items.subrange(2, i)), altered(items[i]));
}


/// Reports a `while` loop that cannot, or is not shown to, reach its exit.
pub(crate) fn analyze_while_termination(
    whole: &Expression,
    items: &Vec<Expression>,
    structural_summaries: &TextMap<StructuralSummary>,
    facts: &AbstractState,
    ctx: &Summaries,
    diagnostics: &mut Vec<Vec<char>>,
)
    requires
        distinct_messages(old(diagnostics)@),
        all_categorized(old(diagnostics)@),
    ensures
        distinct_messages(final(diagnostics)@),
        all_categorized(final(diagnostics)@),
        grows(views(old(diagnostics)@), views(final(diagnostics)@)),
        items@.len() < 3 ==> final(diagnostics)@ == old(diagnostics)@,
        items@.len() >= 3 && word_text(items@[1]) == Some("true"@) ==> views(final(diagnostics)@)
            == with_message(
            views(old(diagnostics)@),
            Some("termination: loop has no program-controlled exit: `"@ + lisp_text(*whole) + "`"@),
        ),
        counter_loop(items@) ==> final(diagnostics)@ == old(diagnostics)@,
{
    let ghost counting = counter_loop(items@);
    if items.len() < 3 {
        return;
    }
    let condition = &items[1];
    if is_word(condition, "true") {
        let message = plain_message("loop has no program-controlled exit: `", whole);
        proof {
            reveal_strlit("termination: ");
            reveal_strlit("loop has no program-controlled exit: `");
            reveal_strlit("termination: loop has no program-controlled exit: `");
            assert("termination: "@ + "loop has no program-controlled exit: `"@
                =~= "termination: loop has no program-controlled exit: `"@);
        }
        record_diagnostic(diagnostics, message);
        return;
    }
    let loop_facts = state_for_true_branch(condition, facts, ctx);
    let mut updates: NamedValues<Expression> = Vec::new();
    let mut i: usize = 2;
    proof {
        assert(values_view(updates@) =~= group_all(Seq::empty(), altered_in(items@.subrange(2, 2))));
    }
    while i < items.len()
        invariant
            2 <= i <= items@.len(),
            values_view(updates@) == group_all(Seq::empty(), altered_in(items@.subrange(2, i as int))),
        decreases items.len() - i,
    {
        collect_altered_values(&items[i], &mut updates);
        proof {
            lemma_loop_updates_step(items@, i as int);
        }
        i += 1;
    }
    proof {
        assert(items@.subrange(2, items@.len() as int) =~= items@.skip(2));
    }
    let ghost groups = values_view(updates@);
    let mut size_mutations: NamedValues<SizeStep> = Vec::new();
    let mut i: usize = 2;
    while i < items.len()
        invariant
            i >= 2,
        decreases items.len() - i,
    {
        collect_size_mutations(&items[i], structural_summaries, &mut size_mutations);
        i += 1;
    }
    proof {
        if counting {
            let c = items@[1]->Apply_0@;
            assert(c.drop_first()[0] == c[1]);
            assert(guard_name(c[1], loop_counter(items@)));
            assert(guard_name(items@[1], loop_counter(items@)));
        }
    }
    let mut guard_words = TextSet::new();
    if simple_guard_words(condition, &mut guard_words) {
        let mut unchanged = true;
        let mut k: usize = 0;
        while k < guard_words.items.len()
            invariant
                k <= guard_words.items.len(),
                groups == values_view(updates@),
                counting ==> forall|j: int| 0 <= j < k && (#[trigger] guard_words.items@[j])@ == loop_counter(items@)
                    ==> !unchanged,
            decreases guard_words.items.len() - k,
        {
            let found = named_index(&updates, &guard_words.items[k]);
            proof {
                if counting && guard_words.items@[k as int]@ == loop_counter(items@) {
                    let uw = choose|u: int| 0 <= u < loop_updates(items@).len() && #[trigger] loop_updates(items@)[u].0
                        == loop_counter(items@);
                    assert(groups[uw].0 == updates@[uw].0@);
                    assert(found is Some);
                }
            }
            if found.is_some() {
                unchanged = false;
            }
            k += 1;
        }
        proof {
            if counting {
                assert(guard_words.has(loop_counter(items@)));
                let j = choose|j: int| 0 <= j < guard_words.items@.len() && (#[trigger] guard_words.items@[j])@
                    == loop_counter(items@);
                assert(!unchanged);
            }
        }
        if unchanged {
            let message = plain_message(
                "loop condition cannot change once entered: `",
                condition,
            );
            record_diagnostic(diagnostics, message);
            return;
        }
    }
    let mut u: usize = 0;
    while u < updates.len()
        invariant
            u <= updates.len(),
            distinct_messages(diagnostics@),
            all_categorized(diagnostics@),
            grows(views(old(diagnostics)@), views(diagnostics@)),
            groups == values_view(updates@),
            groups == loop_updates(items@),
            counting ==> diagnostics@ == old(diagnostics)@,
        decreases updates.len() - u,
    {
        proof {
            if counting {
                let w = loop_counter(items@);
                let nm = updates@[u as int].0@;
                let values = updates@[u as int].1@;
                lemma_shapes(values);
                assert(groups[u as int] == (nm, shapes(values)));
                if nm != w {
                    lemma_only_counter_compared(items@, nm);
                } else {
                    assert(counter_progress(items@[1], groups[u as int]));
                    assert forall|k: int| 0 <= k < values.len() implies #[trigger] plain_update_step(nm, values[k])
                        == plain_step_of(nm, shapes(values)[k]) by {
                        lemma_plain_step_shape(nm, values[k]);
                    }
                    assert forall|k: int| 0 <= k < values.len() implies #[trigger] plain_update_step(nm, values[k]) is Some by {
                        assert(plain_step_of(nm, shapes(values)[k]) is Some);
                    }
                    assert(Seq::new(values.len(), |k: int| plain_update_step(nm, values[k])->0) =~= Seq::new(
                        shapes(values).len(),
                        |k: int| plain_step_of(nm, shapes(values)[k])->0,
                    ));
                }
            }
        }
        let name = &updates[u].0;
        if let Some((relation, counter_on_left)) = comparison_for_counter(condition, name) {
            let step = counter_step(name, &updates[u].1, &loop_facts);
            let moves_away = (toward_upper_exit(relation, counter_on_left) && step
                == CounterStep::Decrease) || (toward_lower_exit(relation, counter_on_left) && step
                == CounterStep::Increase);
            if moves_away || step == CounterStep::Unchanged {
                proof {
                    if counting {
                        assert(false);
                    }
                }
                let message = named_message(
                    "loop counter '",
                    name,
                    "' does not move toward its exit bound: `",
                    condition,
                );
                record_diagnostic(diagnostics, message);
            }
        }
        u += 1;
    }
    proof {
        if counting {
            let c = items@[1]->Apply_0@;
            assert(length_form(c[1]) is None);
            assert(length_form(c[2]) is None);
            assert(size_exit(items@[1]) is None);
        }
    }
    if let Some((name, expected)) = size_guard_exit_direction(condition) {
        let actual = match named_index(&size_mutations, name) {
            Some(idx) => combined_size_step(&size_mutations[idx].1),
            None => SizeStep::Unchanged,
        };
        let moves_away = (expected == SizeStep::Shrink && actual == SizeStep::Grow) || (expected
            == SizeStep::Grow && actual == SizeStep::Shrink);
        if moves_away || actual == SizeStep::Unchanged {
            let message = named_message(
                "length of '",
                name,
                "' does not move toward the loop exit: `",
                condition,
            );
            record_diagnostic(diagnostics, message);
        }
    }
}

/// `items` calls `function` with exactly `params`, in order.
pub open spec fn unchanged_call(items: Seq<Expression>, function: Seq<char>, params: Seq<Vec<char>>) -> bool {
    &&& items.len() == params.len() + 1
    &&& word_text(items[0]) == Some(function)
    &&& forall|j: int| 0 <= j < params.len() ==> word_text(#[trigger] items[j + 1]) == Some(params[j]@)
}

/// `items` starts with the word `function`.
pub open spec fn calls_named(items: Seq<Expression>, function: Seq<char>) -> bool {
    items.len() > 0 && word_text(items[0]) == Some(function)
}

/// True when `items` calls `function` with exactly its parameters, in order.
fn calls_with_unchanged_arguments(items: &Vec<Expression>, function: &Vec<char>, params: &Vec<
    Vec<char>,
>) -> (r: bool)
    ensures
        r == unchanged_call(items@, function@, params@),
{
    if items.len() == 0 || items.len() - 1 != params.len() {
        return false;
    }
    match &items[0] {
        Expression::Word(name) => {
            if !text_eq(name, function) {
                return false;
            }
        },
        _ => {
            return false;
        },
    }
    let mut k: usize = 0;
    while k < params.len()
        invariant
            k <= params.len(),
            params.len() + 1 == items.len(),
            word_text(items@[0]) == Some(function@),
            forall|j: int| 0 <= j < k ==> word_text(#[trigger] items@[j + 1]) == Some(params@[j]@),
        decreases params.len() - k,
    {
        match &items[k + 1] {
            Expression::Word(arg) => {
                if !text_eq(arg, &params[k]) {
                    return false;
                }
            },
            _ => {
                return false;
            },
        }
        k += 1;
    }
    true
}

/// True when `items` starts with the word `function`.
fn calls_function(items: &Vec<Expression>, function: &Vec<char>) -> (r: bool)
    ensures
        r == calls_named(items@, function@),
{
    items.len() > 0 && match &items[0] {
        Expression::Word(name) => text_eq(name, function),
        _ => false,
    }
}

/// `e` holds, outside nested closures, a call of `f` that passes exactly
/// `params`.
pub open spec fn has_unchanged_call(e: Expression, f: Seq<char>, params: Seq<Vec<char>>) -> bool
    decreases e,
{
    match e {
        Expression::Apply(items) => items@.len() > 0 && !closure_form(items@) && (unchanged_call(
            items@,
            f,
            params,
        ) || has_unchanged_call_in(items@.drop_first(), f, params)),
        _ => false,
    }
}

/// One of `s` holds such a call.
pub open spec fn has_unchanged_call_in(s: Seq<Expression>, f: Seq<char>, params: Seq<Vec<char>>) -> bool
    decreases s,
{
    if s.len() == 0 {
        false
    } else {
        has_unchanged_call(s[0], f, params) || has_unchanged_call_in(s.drop_first(), f, params)
    }
}

/// `expr` holds, outside nested closures, a call of `function` that passes
/// its parameters unchanged.
pub(crate) fn contains_unchanged_recursive_call(expr: &Expression, function: &Vec<char>, params: &Vec<
    Vec<char>,
>) -> (r: bool)
    ensures
        r == has_unchanged_call(*expr, function@, params@),
    decreases *expr,
{
    let items = match expr {
        Expression::Apply(items) => items,
        _ => {
            return false;
        },
    };
    if is_closure_form(items) {
        return false;
    }
    if calls_with_unchanged_arguments(items, function, params) {
        return true;
    }
    proof {
        if items@.len() > 0 {
            assert(items@.subrange(1, items@.len() as int) =~= items@.drop_first());
        }
    }
    let mut i: usize = 1;
    while i < items.len()
        invariant
            i >= 1,
            *expr == Expression::Apply(*items),
            !closure_form(items@),
            items@.len() > 0 ==> i <= items@.len() && has_unchanged_call_in(items@.drop_first(), function@, params@) == has_unchanged_call_in(
                items@.subrange(i as int, items@.len() as int), function@, params@,
            ),
        decreases items.len() - i,
    {
        assert(decreases_to!(*expr => items@[i as int]));
        proof {
            let rest = items@.subrange(i as int, items@.len() as int);
            assert(rest[0] == items@[i as int]);
            assert(rest.drop_first() =~= items@.subrange(i + 1, items@.len() as int));
        }
        if contains_unchanged_recursive_call(&items[i], function, params) {
            return true;
        }
        i += 1;
    }
    proof {
        if items@.len() > 0 {
            assert(items@.subrange(i as int, items@.len() as int).len() == 0);
        }
    }
    false
}

/// `e` calls `f`, outside nested closures.
pub open spec fn has_call(e: Expression, f: Seq<char>) -> bool
    decreases e,
{
    match e {
        Expression::Apply(items) => items@.len() > 0 && !closure_form(items@) && (calls_named(items@, f)
            || has_call_in(items@.drop_first(), f)),
        _ => false,
    }
}

/// One of `s` calls `f`, outside nested closures.
pub open spec fn has_call_in(s: Seq<Expression>, f: Seq<char>) -> bool
    decreases s,
{
    if s.len() == 0 {
        false
    } else {
        has_call(s[0], f) || has_call_in(s.drop_first(), f)
    }
}

/// `expr` calls `function`, outside nested closures.
pub(crate) fn contains_recursive_call(expr: &Expression, function: &Vec<char>) -> (r: bool)
    ensures
        r == has_call(*expr, function@),
    decreases *expr,
{
    let items = match expr {
        Expression::Apply(items) => items,
        _ => {
            return false;
        },
    };
    if is_closure_form(items) {
        return false;
    }
    if calls_function(items, function) {
        return true;
    }
    proof {
        if items@.len() > 0 {
            assert(items@.subrange(1, items@.len() as int) =~= items@.drop_first());
        }
    }
    let mut i: usize = 1;
    while i < items.len()
        invariant
            i >= 1,
            *expr == Expression::Apply(*items),
            !closure_form(items@),
            items@.len() > 0 ==> i <= items@.len() && has_call_in(items@.drop_first(), function@) == has_call_in(
                items@.subrange(i as int, items@.len() as int), function@,
            ),
        decreases items.len() - i,
    {
        assert(decreases_to!(*expr => items@[i as int]));
        proof {
            let rest = items@.subrange(i as int, items@.len() as int);
            assert(rest[0] == items@[i as int]);
            assert(rest.drop_first() =~= items@.subrange(i + 1, items@.len() as int));
        }
        if contains_recursive_call(&items[i], function) {
            return true;
        }
        i += 1;
    }
    proof {
        if items@.len() > 0 {
            assert(items@.subrange(i as int, items@.len() as int).len() == 0);
        }
    }
    false
}

/// `e` holds an `if` form.
pub open spec fn has_if(e: Expression) -> bool
    decreases e,
{
    match e {
        Expression::Apply(items) => items@.len() > 0 && (word_text(items@[0]) == Some("if"@)
            || has_if_in(items@.drop_first())),
        _ => false,
    }
}

/// One of `s` holds an `if` form.
pub open spec fn has_if_in(s: Seq<Expression>) -> bool
    decreases s,
{
    if s.len() == 0 {
        false
    } else {
        has_if(s[0]) || has_if_in(s.drop_first())
    }
}

/// `expr` holds an `if`.
pub(crate) fn contains_if(expr: &Expression) -> (r: bool)
    ensures
        r == has_if(*expr),
    decreases *expr,
{
    let items = match expr {
        Expression::Apply(items) => items,
        _ => {
            return false;
        },
    };
    if head_is(items, "if") {
        return true;
    }
    proof {
        if items@.len() > 0 {
            assert(items@.subrange(1, items@.len() as int) =~= items@.drop_first());
        }
    }
    let mut i: usize = 1;
    while i < items.len()
        invariant
            i >= 1,
            *expr == Expression::Apply(*items),
            items@.len() > 0 ==> i <= items@.len() && has_if_in(items@.drop_first()) == has_if_in(
                items@.subrange(i as int, items@.len() as int),
            ),
        decreases items.len() - i,
    {
        assert(decreases_to!(*expr => items@[i as int]));
        proof {
            let rest = items@.subrange(i as int, items@.len() as int);
            assert(rest[0] == items@[i as int]);
            assert(rest.drop_first() =~= items@.subrange(i + 1, items@.len() as int));
        }
        if contains_if(&items[i]) {
            return true;
        }
        i += 1;
    }
    proof {
        if items@.len() > 0 {
            assert(items@.subrange(i as int, items@.len() as int).len() == 0);
        }
    }
    false
}

/// True when `e` is the word `name`.
fn is_name(e: &Expression, name: &Vec<char>) -> (r: bool)
    ensures
        r == (word_text(*e) == Some(name@)),
{
    match e {
        Expression::Word(w) => text_eq(w, name),
        _ => false,
    }
}

/// The relation `rels[k]` for the first `k` from `k` on whose argument
/// `items[k + 1]` is the word `param`; `Unknown` when there is none.
pub open spec fn first_arg_relation(items: Seq<Expression>, param: Seq<char>, rels: Seq<SizeStep>, k: int) -> SizeStep
    decreases rels.len() - k,
{
    if k < 0 || k >= rels.len() || k + 1 >= items.len() {
        SizeStep::Unknown
    } else if word_text(items[k + 1]) == Some(param) {
        rels[k]
    } else {
        first_arg_relation(items, param, rels, k + 1)
    }
}

/// How the result of the call `items` relates in length to the argument
/// `param`, by the summary of the called function.
pub open spec fn call_relation(items: Seq<Expression>, param: Seq<char>, summaries: TextMap<StructuralSummary>) -> SizeStep {
    if items.len() == 0 || !(items[0] is Word) {
        SizeStep::Unknown
    } else {
        let op = items[0]->Word_0@;
        if !summaries.has_key(op) {
            SizeStep::Unknown
        } else {
            let s = summaries.value_at(op);
            if s.params@.len() != items.len() - 1 {
                SizeStep::Unknown
            } else {
                first_arg_relation(items, param, s.result_relations@, 0)
            }
        }
    }
}

/// How the argument `arg` passed for `param` relates to `param`'s length.
pub open spec fn arg_size_step(arg: Expression, param: Seq<char>, summaries: TextMap<StructuralSummary>) -> SizeStep {
    match arg {
        Expression::Word(n) => if n@ == param {
            SizeStep::Unchanged
        } else {
            SizeStep::Unknown
        },
        Expression::Apply(items) => if (items@.len() == 2 || items@.len() == 3) && word_text(items@[0])
            == Some("cdr"@) && word_text(items@[1]) == Some(param) {
            SizeStep::Shrink
        } else if items@.len() == 3 && word_text(items@[0]) == Some("cons"@) && (word_text(items@[1])
            == Some(param) || word_text(items@[2]) == Some(param)) {
            SizeStep::Grow
        } else {
            call_relation(items@, param, summaries)
        },
        _ => SizeStep::Unknown,
    }
}

/// Some call of `f` in `e`, outside nested closures, with one argument per
/// parameter, does not pass a shorter vector for parameter `idx`.
pub open spec fn fails_to_shrink(
    e: Expression,
    f: Seq<char>,
    params: Seq<Vec<char>>,
    idx: int,
    summaries: TextMap<StructuralSummary>,
) -> bool
    decreases e,
{
    match e {
        Expression::Apply(items) => items@.len() > 0 && !closure_form(items@) && if calls_named(items@, f)
            && items@.len() - 1 == params.len() {
            if idx < params.len() {
                arg_size_step(items@[idx + 1], params[idx]@, summaries) != SizeStep::Shrink
            } else {
                true
            }
        } else {
            fails_to_shrink_in(items@.drop_first(), f, params, idx, summaries)
        },
        _ => false,
    }
}

/// One of `s` holds such a call.
pub open spec fn fails_to_shrink_in(
    s: Seq<Expression>,
    f: Seq<char>,
    params: Seq<Vec<char>>,
    idx: int,
    summaries: TextMap<StructuralSummary>,
) -> bool
    decreases s,
{
    if s.len() == 0 {
        false
    } else {
        fails_to_shrink(s[0], f, params, idx, summaries) || fails_to_shrink_in(
            s.drop_first(),
            f,
            params,
            idx,
            summaries,
        )
    }
}

/// A call found in one of `s` is found in `s`.
proof fn lemma_has_call_in(s: Seq<Expression>, f: Seq<char>, k: int)
    requires
        0 <= k < s.len(),
        has_call(s[k], f),
    ensures
        has_call_in(s, f),
    decreases k,
{
    if k > 0 {
        lemma_has_call_in(s.drop_first(), f, k - 1);
    }
}

/// How the argument passed for `parameter` relates to the parameter's
/// length.
pub(crate) fn recursive_argument_size_step(
    arg: &Expression,
    parameter: &Vec<char>,
    summaries: &TextMap<StructuralSummary>,
) -> (r: SizeStep)
    ensures
        r == arg_size_step(*arg, parameter@, *summaries),
{
    match arg {
        Expression::Word(name) => {
            if text_eq(name, parameter) {
                SizeStep::Unchanged
            } else {
                SizeStep::Unknown
            }
        },
        Expression::Apply(items) => {
            if (items.len() == 2 || items.len() == 3) && head_is(items, "cdr") && is_name(
                &items[1],
                parameter,
            ) {
                return SizeStep::Shrink;
            }
            if items.len() == 3 && head_is(items, "cons") && (is_name(&items[1], parameter)
                || is_name(&items[2], parameter)) {
                return SizeStep::Grow;
            }
            result_relation_of_call(items, parameter, summaries)
        },
        _ => SizeStep::Unknown,
    }
}

/// The result relation a user function's summary gives for the first
/// argument that is `parameter`.
pub(crate) fn result_relation_of_call(
    items: &Vec<Expression>,
    parameter: &Vec<char>,
    summaries: &TextMap<StructuralSummary>,
) -> (r: SizeStep)
    ensures
        r == call_relation(items@, parameter@, *summaries),
{
    if items.len() == 0 {
        return SizeStep::Unknown;
    }
    let op = match &items[0] {
        Expression::Word(op) => op,
        _ => {
            return SizeStep::Unknown;
        },
    };
    let summary = match summaries.get_ref(op) {
        Some(s) => s,
        None => {
            return SizeStep::Unknown;
        },
    };
    if summary.params.len() != items.len() - 1 {
        return SizeStep::Unknown;
    }
    let mut k: usize = 0;
    while k < summary.result_relations.len() && k + 1 < items.len()
        invariant
            k <= summary.result_relations.len(),
            call_relation(items@, parameter@, *summaries) == first_arg_relation(
                items@,
                parameter@,
                summary.result_relations@,
                k as int,
            ),
        decreases summary.result_relations.len() - k,
    {
        if is_name(&items[k + 1], parameter) {
            return summary.result_relations[k];
        }
        k += 1;
    }
    SizeStep::Unknown
}

/// `c` compares `(length param)` with a constant of at most one, as
/// `(op (length param) k)` with `op` one of `=`, `<=`, `<`, or as
/// `(op k (length param))` with `op` one of `=`, `>=`, `>`.
pub open spec fn length_base(c: Expression, param: Seq<char>) -> bool {
    match c {
        Expression::Apply(items) => items@.len() == 3 && items@[0] is Word && {
            let op = items@[0]->Word_0@;
            ||| (items@[2] is Int && items@[2]->Int_0 <= 1 && (op == "="@ || op == "<="@ || op == "<"@)
                && length_form(items@[1]) == Some(param))
            ||| (items@[1] is Int && items@[1]->Int_0 <= 1 && (op == "="@ || op == ">="@ || op == ">"@)
                && length_form(items@[2]) == Some(param))
        },
        _ => false,
    }
}

/// The condition is a base case on the length of `parameter`: it compares
/// `(length parameter)` with a bound of at most one.
pub(crate) fn length_base_case(condition: &Expression, parameter: &Vec<char>) -> (r: bool)
    ensures
        r == length_base(*condition, parameter@),
{
    let items = match condition {
        Expression::Apply(items) => items,
        _ => {
            return false;
        },
    };
    if items.len() != 3 {
        return false;
    }
    let op = match &items[0] {
        Expression::Word(op) => op,
        _ => {
            return false;
        },
    };
    if let Expression::Int(bound) = &items[2] {
        if (text_is(op, "=") || text_is(op, "<=") || text_is(op, "<")) && *bound <= 1 {
            if let Some(name) = length_operand(&items[1]) {
                if text_eq(name, parameter) {
                    return true;
                }
            }
        }
    }
    if let Expression::Int(bound) = &items[1] {
        if (text_is(op, "=") || text_is(op, ">=") || text_is(op, ">")) && *bound <= 1 {
            if let Some(name) = length_operand(&items[2]) {
                if text_eq(name, parameter) {
                    return true;
                }
            }
        }
    }
    false
}

/// Some recursive call in `expr` does not pass a shorter vector for the
/// parameter at `shrinking_param`.
pub(crate) fn recursive_calls_fail_to_shrink(
    expr: &Expression,
    function: &Vec<char>,
    params: &Vec<Vec<char>>,
    shrinking_param: usize,
    summaries: &TextMap<StructuralSummary>,
) -> (r: bool)
    ensures
        r == fails_to_shrink(*expr, function@, params@, shrinking_param as int, *summaries),
    decreases *expr,
{
    let items = match expr {
        Expression::Apply(items) => items,
        _ => {
            return false;
        },
    };
    if is_closure_form(items) {
        return false;
    }
    if calls_function(items, function) && items.len() >= 1 && items.len() - 1 == params.len() {
        if shrinking_param < params.len() {
            return recursive_argument_size_step(
                &items[shrinking_param + 1],
                &params[shrinking_param],
                summaries,
            ) != SizeStep::Shrink;
        }
        return true;
    }
    proof {
        if items@.len() > 0 {
            assert(items@.subrange(1, items@.len() as int) =~= items@.drop_first());
        }
    }
    let mut i: usize = 1;
    while i < items.len()
        invariant
            i >= 1,
            *expr == Expression::Apply(*items),
            !closure_form(items@),
            !(calls_named(items@, function@) && items@.len() - 1 == params@.len()),
            items@.len() > 0 ==> i <= items@.len() && fails_to_shrink_in(
                items@.drop_first(),
                function@,
                params@,
                shrinking_param as int,
                *summaries,
            ) == fails_to_shrink_in(
                items@.subrange(i as int, items@.len() as int),
                function@,
                params@,
                shrinking_param as int,
                *summaries,
            ),
        decreases items.len() - i,
    {
        assert(decreases_to!(*expr => items@[i as int]));
        proof {
            let rest = items@.subrange(i as int, items@.len() as int);
            assert(rest[0] == items@[i as int]);
            assert(rest.drop_first() =~= items@.subrange(i + 1, items@.len() as int));
        }
        if recursive_calls_fail_to_shrink(&items[i], function, params, shrinking_param, summaries) {
            return true;
        }
        i += 1;
    }
    false
}

/// For an ordering comparison with `param` as one operand, the way `param`
/// must move to drive the comparison toward `target`.
pub open spec fn guard_direction(c: Expression, param: Seq<char>, target: bool) -> Option<CounterStep> {
    match c {
        Expression::Apply(items) => if items@.len() == 3 && items@[0] is Word {
            let op = items@[0]->Word_0@;
            let less = op == "<"@ || op == "<="@;
            if !(less || op == ">"@ || op == ">="@) {
                None
            } else if word_text(items@[1]) == Some(param) || word_text(items@[2]) == Some(param) {
                let left = word_text(items@[1]) == Some(param);
                let up_makes_true = if left {
                    !less
                } else {
                    less
                };
                let up_is_target = if target {
                    up_makes_true
                } else {
                    !up_makes_true
                };
                Some(
                    if up_is_target {
                        CounterStep::Increase
                    } else {
                        CounterStep::Decrease
                    },
                )
            } else {
                None
            }
        } else {
            None
        },
        _ => None,
    }
}

/// Which way `parameter` must move to drive an ordering comparison toward
/// `target_truth`.
pub(crate) fn guard_direction_for_parameter(
    condition: &Expression,
    parameter: &Vec<char>,
    target_truth: bool,
) -> (r: Option<CounterStep>)
    ensures
        r == guard_direction(*condition, parameter@, target_truth),
{
    let items = match condition {
        Expression::Apply(items) => items,
        _ => {
            return None;
        },
    };
    if items.len() != 3 {
        return None;
    }
    let op = match &items[0] {
        Expression::Word(op) => op,
        _ => {
            return None;
        },
    };
    let less_relation = text_is(op, "<") || text_is(op, "<=");
    if !(less_relation || text_is(op, ">") || text_is(op, ">=")) {
        return None;
    }
    let parameter_on_left = if is_name(&items[1], parameter) {
        true
    } else if is_name(&items[2], parameter) {
        false
    } else {
        return None;
    };
    let increase_makes_true = if parameter_on_left {
        !less_relation
    } else {
        less_relation
    };
    let increase_is_target = if target_truth {
        increase_makes_true
    } else {
        !increase_makes_true
    };
    Some(
        if increase_is_target {
            CounterStep::Increase
        } else {
            CounterStep::Decrease
        },
    )
}

/// Some recursive call in `expr` moves a parameter away from the value that
/// would take the exit branch of `condition`.
pub(crate) fn recursive_calls_move_away_from_guard(
    expr: &Expression,
    function: &Vec<char>,
    params: &Vec<Vec<char>>,
    condition: &Expression,
    recurse_when_true: bool,
    facts: &AbstractState,
) -> (r: bool)
    ensures
        r ==> has_call(*expr, function@),
    decreases *expr,
{
    let items = match expr {
        Expression::Apply(items) => items,
        _ => {
            return false;
        },
    };
    if is_closure_form(items) {
        return false;
    }
    if calls_function(items, function) && items.len() >= 1 && items.len() - 1 == params.len() {
        // the sibling branch is the exit, so progress must drive the guard
        // toward the opposite truth value
        let target_truth = !recurse_when_true;
        let mut k: usize = 0;
        while k < params.len()
            invariant
                k <= params.len(),
                items.len() == params.len() + 1,
            decreases params.len() - k,
        {
            if let Some(expected) = guard_direction_for_parameter(condition, &params[k], target_truth) {
                let actual = classify_update(&params[k], &items[k + 1], facts);
                if (expected == CounterStep::Increase && actual == CounterStep::Decrease) || (
                expected == CounterStep::Decrease && actual == CounterStep::Increase) {
                    return true;
                }
            }
            k += 1;
        }
        return false;
    }
    let mut i: usize = 1;
    while i < items.len()
        invariant
            i >= 1,
            *expr == Expression::Apply(*items),
            !closure_form(items@),
        decreases items.len() - i,
    {
        assert(decreases_to!(*expr => items@[i as int]));
        proof {
            assert(items@.drop_first()[i - 1] == items@[i as int]);
            if has_call(items@[i as int], function@) {
                lemma_has_call_in(items@.drop_first(), function@, i - 1);
            }
        }
        if recursive_calls_move_away_from_guard(
            &items[i],
            function,
            params,
            condition,
            recurse_when_true,
            facts,
        ) {
            return true;
        }
        i += 1;
    }
    false
}

/// Reports recursion in the body of `function` that repeats without a
/// conditional exit, moves away from its base case, or does not shrink the
/// vector its base case measures.
pub(crate) fn analyze_recursive_progress(
    body: &Expression,
    function: &Vec<char>,
    params: &Vec<Vec<char>>,
    structural_summaries: &TextMap<StructuralSummary>,
    facts: &AbstractState,
    ctx: &Summaries,
    diagnostics: &mut Vec<Vec<char>>,
)
    requires
        distinct_messages(old(diagnostics)@),
        all_categorized(old(diagnostics)@),
    ensures
        distinct_messages(final(diagnostics)@),
        all_categorized(final(diagnostics)@),
        grows(views(old(diagnostics)@), views(final(diagnostics)@)),
        !(body is Apply) ==> final(diagnostics)@ == old(diagnostics)@,
        *body matches Expression::Apply(items) ==> (calls_named(items@, function@) && !(word_text(items@[0])
            == Some("do"@) || word_text(items@[0]) == Some("block"@)) ==> views(final(diagnostics)@)
            == with_message(
            views(old(diagnostics)@),
            Some(
                "termination: "@ + "recursive call to '"@ + function@ + "' has no conditional exit path: `"@
                    + lisp_text(*body) + "`"@,
            ),
        )),
    decreases *body,
{
    let items = match body {
        Expression::Apply(items) => items,
        _ => {
            return;
        },
    };
    if head_is(items, "do") || head_is(items, "block") {
        let mut i: usize = 1;
        while i < items.len()
            invariant
                i >= 1,
                *body == Expression::Apply(*items),
                distinct_messages(diagnostics@),
                all_categorized(diagnostics@),
                grows(views(old(diagnostics)@), views(diagnostics@)),
            decreases items.len() - i,
        {
            assert(decreases_to!(*body => items@[i as int]));
            analyze_recursive_progress(
                &items[i],
                function,
                params,
                structural_summaries,
                facts,
                ctx,
                diagnostics,
            );
            i += 1;
        }
        return;
    }
    if calls_function(items, function) {
        let message = named_message(
            "recursive call to '",
            function,
            "' has no conditional exit path: `",
            body,
        );
        record_diagnostic(diagnostics, message);
        return;
    }
    if head_is(items, "if") && items.len() >= 3 {
        let then_recurses = contains_recursive_call(&items[2], function);
        let else_recurses = items.len() > 3 && contains_recursive_call(&items[3], function);
        if then_recurses != else_recurses {
            let recurse_when_true = then_recurses;
            let recursive_branch = if then_recurses {
                &items[2]
            } else {
                &items[3]
            };
            let branch_facts = state_for_branch(&items[1], facts, ctx, recurse_when_true);
            if recursive_calls_move_away_from_guard(
                recursive_branch,
                function,
                params,
                &items[1],
                recurse_when_true,
                &branch_facts,
            ) {
                let message = named_message(
                    "recursive call to '",
                    function,
                    "' moves away from its base-case guard: `",
                    recursive_branch,
                );
                record_diagnostic(diagnostics, message);
            }
            if !recurse_when_true {
                let mut k: usize = 0;
                while k < params.len()
                    invariant
                        k <= params.len(),
                        distinct_messages(diagnostics@),
                        all_categorized(diagnostics@),
                        grows(views(old(diagnostics)@), views(diagnostics@)),
                    decreases params.len() - k,
                {
                    if length_base_case(&items[1], &params[k]) && recursive_calls_fail_to_shrink(
                        recursive_branch,
                        function,
                        params,
                        k,
                        structural_summaries,
                    ) {
                        let message = shrink_message(function, &params[k], recursive_branch);
                        record_diagnostic(diagnostics, message);
                    }
                    k += 1;
                }
            }
            return;
        }
    }
    // a sequence or arithmetic wrapper holding recursion but no branch
    // repeats unconditionally
    if contains_recursive_call(body, function) && !contains_if(body) {
        let message = named_message(
            "recursion in '",
            function,
            "' has no conditional exit path: `",
            body,
        );
        record_diagnostic(diagnostics, message);
    }
}

/// The parameter names of `(lambda p1 ... pn body)`, when all are words.
pub fn lambda_params(lambda: &Vec<Expression>) -> (r: Option<Vec<Vec<char>>>)
    ensures
        r is Some <==> lambda@.len() >= 2 && forall|k: int| 1 <= k < lambda@.len() - 1 ==> #[trigger] lambda@[k] is Word,
        r matches Some(p) ==> lambda@.len() >= 2 && p@.len() == lambda@.len() - 2 && forall|k: int|
            0 <= k < p@.len() ==> #[trigger] p@[k]@ == lambda@[k + 1]->Word_0@,
{
    if lambda.len() < 2 {
        return None;
    }
    let mut params: Vec<Vec<char>> = Vec::new();
    let mut k: usize = 1;
    while k + 1 < lambda.len()
        invariant
            1 <= k <= lambda.len() - 1,
            params@.len() == k - 1,
            forall|j: int| 1 <= j < k ==> #[trigger] lambda@[j] is Word,
            forall|j: int| 0 <= j < params@.len() ==> #[trigger] params@[j]@ == lambda@[j + 1]->Word_0@,
        decreases lambda.len() - k,
    {
        match &lambda[k] {
            Expression::Word(w) => params.push(copy_text(w)),
            _ => {
                return None;
            },
        }
        k += 1;
    }
    Some(params)
}

/// The texts of the words among `items[from..to]`, in order.
pub open spec fn words_between(items: Seq<Expression>, from: int, to: int) -> Seq<Seq<char>>
    decreases to - from,
{
    if to <= from {
        Seq::empty()
    } else {
        let rest = words_between(items, from, to - 1);
        match items[to - 1] {
            Expression::Word(w) => rest.push(w@),
            _ => rest,
        }
    }
}

/// The parameters of `(lambda p1 ... pn body)` that are words.
pub(crate) fn lambda_word_params(lambda: &Vec<Expression>) -> (r: Vec<Vec<char>>)
    ensures
        texts_view(r@) == words_between(lambda@, 1, lambda@.len() - 1),
{
    let mut params: Vec<Vec<char>> = Vec::new();
    let mut k: usize = 1;
    while k < lambda.len() && k + 1 < lambda.len()
        invariant
            k >= 1,
            k + 1 <= lambda@.len() || k == 1,
            texts_view(params@) == words_between(lambda@, 1, k as int),
        decreases lambda.len() - k,
    {
        let ghost before = params@;
        if let Expression::Word(w) = &lambda[k] {
            params.push(copy_text(w));
            proof {
                assert(texts_view(params@) =~= texts_view(before).push(lambda@[k as int]->Word_0@));
            }
        }
        k += 1;
    }
    params
}

/// No `while` loop and no `letrec` definition occurs in `e`.
pub open spec fn loop_free(e: Sexp) -> bool
    decreases e,
{
    match e {
        Sexp::List(items) => !(items.len() > 0 && items[0] == Sexp::Word("while"@)) && !(items.len()
            == 3 && items[0] == Sexp::Word("letrec"@)) && all_loop_free(items),
        _ => true,
    }
}

/// Each of `items` is free of loops and recursive definitions.
pub open spec fn all_loop_free(items: Seq<Sexp>) -> bool
    decreases items,
{
    if items.len() == 0 {
        true
    } else {
        all_loop_free(items.drop_last()) && loop_free(items[items.len() - 1])
    }
}

/// `all_loop_free` holds exactly when each item is loop free.
pub proof fn lemma_all_loop_free(items: Seq<Sexp>)
    ensures
        all_loop_free(items) <==> forall|k: int| 0 <= k < items.len() ==> #[trigger] loop_free(items[k]),
    decreases items.len(),
{
    if items.len() > 0 {
        lemma_all_loop_free(items.drop_last());
        if all_loop_free(items) {
            assert forall|k: int| 0 <= k < items.len() implies #[trigger] loop_free(items[k]) by {
                if k < items.len() - 1 {
                    assert(items.drop_last()[k] == items[k]);
                }
            }
        }
        if forall|k: int| 0 <= k < items.len() ==> #[trigger] loop_free(items[k]) {
            assert forall|k: int| 0 <= k < items.drop_last().len() implies #[trigger] loop_free(
                items.drop_last()[k],
            ) by {
                assert(items.drop_last()[k] == items[k]);
            }
            assert(loop_free(items[items.len() - 1]));
        }
    }
}

/// A `while` loop whose condition and body hold no loop and no recursive
/// definition.
pub open spec fn plain_while_form(e: Sexp) -> bool {
    match e {
        Sexp::List(items) => items.len() >= 3 && items[0] == Sexp::Word("while"@) && all_loop_free(
            items.drop_first(),
        ),
        _ => false,
    }
}

/// A `while true` loop whose body holds no loop and no recursive
/// definition.
pub open spec fn endless_while_form(e: Sexp) -> bool {
    match e {
        Sexp::List(items) => items.len() >= 3 && items[0] == Sexp::Word("while"@) && items[1] == Sexp::Word(
            "true"@,
        ) && all_loop_free(items.skip(2)),
        _ => false,
    }
}

/// Runs the termination checks on every loop and self-recursive function
/// in `expr`.  A form without loops and recursive definitions gets no
/// message.
#[verifier::rlimit(50)]
pub(crate) fn analyze_termination_expr(
    expr: &Expression,
    structural_summaries: &TextMap<StructuralSummary>,
    facts: &AbstractState,
    ctx: &Summaries,
    diagnostics: &mut Vec<Vec<char>>,
)
    requires
        distinct_messages(old(diagnostics)@),
        all_categorized(old(diagnostics)@),
    ensures
        distinct_messages(final(diagnostics)@),
        all_categorized(final(diagnostics)@),
        grows(views(old(diagnostics)@), views(final(diagnostics)@)),
        loop_free(shape(*expr)) ==> final(diagnostics)@ == old(diagnostics)@,
        endless_while_form(shape(*expr)) ==> views(final(diagnostics)@) == with_message(
            views(old(diagnostics)@),
            Some("termination: loop has no program-controlled exit: `"@ + sexp_text(shape(*expr)) + "`"@),
        ),
    decreases *expr,
{
    let items = match expr {
        Expression::Apply(items) => items,
        _ => {
            return;
        },
    };
    let ghost free = loop_free(shape(*expr));
    let ghost endless = endless_while_form(shape(*expr));
    let ghost message = "termination: loop has no program-controlled exit: `"@ + sexp_text(shape(*expr)) + "`"@;
    proof {
        lemma_shapes(items@);
        lemma_all_loop_free(shapes(items@));
        lemma_lisp_text_shape(*expr);
        lemma_head_words();
        reveal_strlit("letrec");
        if endless {
            lemma_all_loop_free(shapes(items@).skip(2));
            assert(items@[1] == Expression::Word(items@[1]->Word_0));
            assert forall|k: int| 2 <= k < items@.len() implies #[trigger] loop_free(shapes(items@)[k]) by {
                assert(shapes(items@).skip(2)[k - 2] == shapes(items@)[k]);
            }
        }
    }
    if head_is(items, "while") {
        analyze_while_termination(expr, items, structural_summaries, facts, ctx, diagnostics);
    }
    if items.len() == 3 && head_is(items, "letrec") {
        if let (Expression::Word(name), Expression::Apply(lambda)) = (&items[1], &items[2]) {
            if head_is(lambda, "lambda") {
                if let Some(params) = lambda_params(lambda) {
                    let body = &lambda[lambda.len() - 1];
                    if contains_unchanged_recursive_call(body, name, &params) {
                        let message = named_message(
                            "recursive call to '",
                            name,
                            "' repeats all arguments unchanged: `",
                            expr,
                        );
                        record_diagnostic(diagnostics, message);
                    }
                    analyze_recursive_progress(
                        body,
                        name,
                        &params,
                        structural_summaries,
                        facts,
                        ctx,
                        diagnostics,
                    );
                }
            }
        }
    }
    let mut i: usize = 1;
    while i < items.len()
        invariant
            i >= 1,
            *expr == Expression::Apply(*items),
            distinct_messages(diagnostics@),
            all_categorized(diagnostics@),
            grows(views(old(diagnostics)@), views(diagnostics@)),
            free ==> diagnostics@ == old(diagnostics)@,
            endless ==> views(diagnostics@) == with_message(views(old(diagnostics)@), Some(message)),
            endless ==> forall|k: int| 2 <= k < items@.len() ==> #[trigger] loop_free(shapes(items@)[k]),
            endless ==> !(items@[1] is Apply),
            shapes(items@).len() == items@.len(),
            forall|k: int| 0 <= k < items@.len() ==> #[trigger] shapes(items@)[k] == shape(items@[k]),
        decreases items.len() - i,
    {
        assert(decreases_to!(*expr => items@[i as int]));
        proof {
            if free {
                assert(loop_free(shapes(items@)[i as int]));
            }
            if endless && i >= 2 {
                assert(loop_free(shapes(items@)[i as int]));
            }
        }
        analyze_termination_expr(&items[i], structural_summaries, facts, ctx, diagnostics);
        i += 1;
    }
}

/// The first call of `f` in `e`, outside nested closures, searching the
/// form itself and then its operands in order.
pub open spec fn first_call(e: Expression, f: Seq<char>) -> Option<Vec<Expression>>
    decreases e,
{
    match e {
        Expression::Apply(items) => if items@.len() == 0 || closure_form(items@) {
            None
        } else if calls_named(items@, f) {
            Some(items)
        } else {
            first_call_in(items@.drop_first(), f)
        },
        _ => None,
    }
}

/// The first call of `f` found in `s`, in order.
pub open spec fn first_call_in(s: Seq<Expression>, f: Seq<char>) -> Option<Vec<Expression>>
    decreases s,
{
    if s.len() == 0 {
        None
    } else {
        match first_call(s[0], f) {
            Some(c) => Some(c),
            None => first_call_in(s.drop_first(), f),
        }
    }
}

/// The first call of `function` in `expr`, outside nested closures.
pub(crate) fn first_recursive_call<'a>(expr: &'a Expression, function: &Vec<char>) -> (r: Option<
    &'a Vec<Expression>,
>)
    ensures
        r is Some == first_call(*expr, function@) is Some,
        r matches Some(c) ==> first_call(*expr, function@) == Some(*c),
    decreases *expr,
{
    let items = match expr {
        Expression::Apply(items) => items,
        _ => {
            return None;
        },
    };
    if is_closure_form(items) {
        return None;
    }
    if calls_function(items, function) {
        return Some(items);
    }
    proof {
        if items@.len() > 0 {
            assert(items@.subrange(1, items@.len() as int) =~= items@.drop_first());
        }
    }
    let mut i: usize = 1;
    while i < items.len()
        invariant
            i >= 1,
            *expr == Expression::Apply(*items),
            !closure_form(items@),
            items@.len() > 0 ==> i <= items@.len() && first_call_in(items@.drop_first(), function@) == first_call_in(
                items@.subrange(i as int, items@.len() as int), function@,
            ),
        decreases items.len() - i,
    {
        assert(decreases_to!(*expr => items@[i as int]));
        proof {
            let rest = items@.subrange(i as int, items@.len() as int);
            assert(rest[0] == items@[i as int]);
            assert(rest.drop_first() =~= items@.subrange(i + 1, items@.len() as int));
        }
        if let Some(found) = first_recursive_call(&items[i], function) {
            return Some(found);
        }
        i += 1;
    }
    proof {
        if items@.len() > 0 {
            assert(items@.subrange(i as int, items@.len() as int).len() == 0);
        }
    }
    None
}

/// `t` without its leading `termination: ` prefixes.
pub open spec fn without_prefixes(t: Seq<char>) -> Seq<char>
    decreases t.len(),
{
    if t.len() >= 13 && t.take(13) == "termination: "@ {
        without_prefixes(t.skip(13))
    } else {
        t
    }
}

/// `text` without its leading `termination: ` prefixes.
fn strip_termination_prefix(text: &Vec<char>) -> (r: Vec<char>)
    ensures
        r@ == without_prefixes(text@),
{
    let prefix = crate::text::chars_of("termination: ");
    proof {
        reveal_strlit("termination: ");
    }
    let mut rest = copy_text(text);
    while prefix.len() > 0 && starts_with(&rest, &prefix)
        invariant
            prefix@ == "termination: "@,
            without_prefixes(rest@) == without_prefixes(text@),
        decreases rest.len(),
    {
        rest = crate::text::slice_text(&rest, prefix.len(), rest.len());
    }
    rest
}

fn text_of_str(s: &str) -> (r: Vec<char>)
    ensures
        r@ == s@,
{
    crate::text::chars_of(s)
}

/// A finding is proven with a measure, or a warning or unknown without one.
pub open spec fn valid_finding(f: FindingText) -> bool {
    (f.status@ == "proven"@ && f.measure is Some) || ((f.status@ == "warning"@ || f.status@
        == "unknown"@) && f.measure is None)
}

fn finding(subject: Vec<char>, status: &str, measure: Option<Vec<char>>, reason: Vec<char>) -> (r:
    FindingText)
    ensures
        r.status@ == status@,
        r.measure == measure,
        r.subject == subject,
        r.reason == reason,
{
    FindingText { subject, status: text_of_str(status), measure, reason }
}

/// The endless-loop message loses its `termination: ` heading and nothing
/// more.
proof fn lemma_endless_reason(form: Seq<char>)
    ensures
        without_prefixes("termination: loop has no program-controlled exit: `"@ + form + "`"@)
            == "loop has no program-controlled exit: `"@ + form + "`"@,
{
    reveal_strlit("termination: loop has no program-controlled exit: `");
    reveal_strlit("loop has no program-controlled exit: `");
    reveal_strlit("termination: ");
    let whole = "termination: loop has no program-controlled exit: `"@ + form + "`"@;
    let rest = "loop has no program-controlled exit: `"@ + form + "`"@;
    assert(whole.take(13) =~= "termination: "@);
    assert(whole.skip(13) =~= rest);
    assert(rest.take(13) != "termination: "@) by {
        assert(rest.take(13)[0] == 'l');
    }
    assert(without_prefixes(rest) == rest);
    assert(without_prefixes(whole) == without_prefixes(whole.skip(13)));
}

/// The termination finding for a `while` loop.
#[verifier::rlimit(50)]
fn while_finding(
    expr: &Expression,
    items: &Vec<Expression>,
    structural_summaries: &TextMap<StructuralSummary>,
    facts: &AbstractState,
    ctx: &Summaries,
) -> (r: FindingText)
    requires
        items@.len() >= 3,
    ensures
        valid_finding(r),
        r.subject@ == "while "@ + lisp_text(items@[1]),
        word_text(items@[1]) == Some("true"@) ==> r.status@ == "warning"@ && r.reason@
            == "loop has no program-controlled exit: `"@ + lisp_text(*expr) + "`"@,
        r.status@ == "unknown"@ ==> r.reason@ == "no monotonic measure was inferred"@,
        r.status@ == "unknown"@ ==> forall|u: int| 0 <= u < loop_updates(items@).len() ==> !counter_progress(
            items@[1],
            #[trigger] loop_updates(items@)[u],
        ),
        r.status@ == "proven"@ ==> r.reason@ == r.measure->0@ + " increases toward the exit bound"@
            || r.reason@ == r.measure->0@ + " decreases toward the exit bound"@ || r.reason@
            == r.measure->0@ + " moves toward the exit bound"@,
        counter_loop(items@) ==> r.status@ == "proven"@ && (r.measure matches Some(m) && m@ == loop_counter(
            items@,
        )) && r.reason@ == counter_reason(items@),
{
    let ghost counting = counter_loop(items@);
    let condition = &items[1];
    let mut subject = text_of_str("while ");
    let lisp = condition.lisp_chars();
    push_text(&mut subject, &lisp);
    let mut diagnostics: Vec<Vec<char>> = Vec::new();
    proof {
        assert(distinct_messages(diagnostics@));
        assert(all_categorized(diagnostics@));
    }
    analyze_while_termination(expr, items, structural_summaries, facts, ctx, &mut diagnostics);
    let prefix = text_of_str("termination:");
    let ghost endless = word_text(items@[1]) == Some("true"@);
    proof {
        reveal_strlit("proven");
        reveal_strlit("warning");
        reveal_strlit("unknown");
        assert("proven"@[0] != "warning"@[0] && "proven"@[0] != "unknown"@[0]);
        assert("unknown"@[0] != "warning"@[0]);
        if endless {
            let msg = "termination: loop has no program-controlled exit: `"@ + lisp_text(*expr) + "`"@;
            assert(views(diagnostics@) == seq![msg]);
            assert(diagnostics@[0]@ == views(diagnostics@)[0]);
            reveal_strlit("termination:");
            reveal_strlit("termination: loop has no program-controlled exit: `");
            assert(diagnostics@[0]@.take(12) =~= "termination:"@);
            lemma_endless_reason(lisp_text(*expr));
        }
    }
    let mut d: usize = 0;
    while d < diagnostics.len()
        invariant
            endless ==> d == 0,
            counting ==> diagnostics@.len() == 0,
        decreases diagnostics.len() - d,
    {
        if starts_with(&diagnostics[d], &prefix) {
            return finding(subject, "warning", None, strip_termination_prefix(&diagnostics[d]));
        }
        d += 1;
    }
    let mut updates: NamedValues<Expression> = Vec::new();
    let mut i: usize = 2;
    proof {
        assert(values_view(updates@) =~= group_all(Seq::empty(), altered_in(items@.subrange(2, 2))));
    }
    while i < items.len()
        invariant
            2 <= i <= items@.len(),
            values_view(updates@) == group_all(Seq::empty(), altered_in(items@.subrange(2, i as int))),
        decreases items.len() - i,
    {
        let ghost before = values_view(updates@);
        collect_altered_values(&items[i], &mut updates);
        proof {
            let next = items@.subrange(2, i + 1);
            assert(next.drop_last() =~= items@.subrange(2, i as int));
            assert(next.last() == items@[i as int]);
            lemma_group_all_concat(Seq::empty(), altered_in(items@.subrange(2, i as int)), altered(items@[i as int]));
        }
        i += 1;
    }
    proof {
        assert(items@.subrange(2, items@.len() as int) =~= items@.skip(2));
    }
    let ghost groups = values_view(updates@);
    let loop_facts = state_for_true_branch(condition, facts, ctx);
    let mut u: usize = 0;
    while u < updates.len()
        invariant
            u <= updates@.len(),
            groups == values_view(updates@),
            groups == loop_updates(items@),
            forall|j: int| 0 <= j < u ==> !counter_progress(items@[1], #[trigger] groups[j]),
            counting ==> forall|j: int| 0 <= j < u ==> (#[trigger] groups[j]).0 != loop_counter(items@),
        decreases updates.len() - u,
    {
        proof {
            let name = updates@[u as int].0@;
            let values = updates@[u as int].1@;
            lemma_shapes(values);
            assert(groups[u as int] == (name, shapes(values)));
            assert forall|k: int| 0 <= k < values.len() implies #[trigger] plain_update_step(name, values[k])
                == plain_step_of(name, shapes(values)[k]) by {
                lemma_plain_step_shape(name, values[k]);
            }
            if forall|k: int| 0 <= k < values.len() ==> #[trigger] plain_update_step(name, values[k]) is Some {
                assert(Seq::new(values.len(), |k: int| plain_update_step(name, values[k])->0) =~= Seq::new(
                    shapes(values).len(),
                    |k: int| plain_step_of(name, shapes(values)[k])->0,
                ));
            } else {
                let k = choose|k: int| 0 <= k < values.len() && !(#[trigger] plain_update_step(name, values[k]) is Some);
                assert(!(plain_step_of(name, shapes(values)[k]) is Some));
            }
            if counting && name != loop_counter(items@) {
                lemma_only_counter_compared(items@, name);
            }
        }
        let name = &updates[u].0;
        if let Some((relation, counter_on_left)) = comparison_for_counter(condition, name) {
            let step = counter_step(name, &updates[u].1, &loop_facts);
            let up = toward_upper_exit(relation, counter_on_left) && step == CounterStep::Increase;
            let down = toward_lower_exit(relation, counter_on_left) && step == CounterStep::Decrease;
            proof {
                if counting {
                    assert(name@ == loop_counter(items@));
                    assert(counter_progress(items@[1], groups[u as int]));
                    assert(up || down);
                    assert(up == counter_rises(items@));
                }
            }
            if up || down {
                let mut reason = copy_text(name);
                crate::text::push_str(
                    &mut reason,
                    if up {
                        " increases toward the exit bound"
                    } else {
                        " decreases toward the exit bound"
                    },
                );
                return finding(subject, "proven", Some(copy_text(name)), reason);
            }
        }
        u += 1;
    }
    proof {
        if counting {
            let uw = choose|u: int| 0 <= u < loop_updates(items@).len() && #[trigger] loop_updates(items@)[u].0
                == loop_counter(items@);
            assert(groups[uw].0 == loop_counter(items@));
            assert(false);
        }
    }
    let mut size_mutations: NamedValues<SizeStep> = Vec::new();
    let mut i: usize = 2;
    while i < items.len()
        invariant
            i >= 2,
        decreases items.len() - i,
    {
        collect_size_mutations(&items[i], structural_summaries, &mut size_mutations);
        i += 1;
    }
    if let Some((name, expected)) = size_guard_exit_direction(condition) {
        let actual = match named_index(&size_mutations, name) {
            Some(idx) => combined_size_step(&size_mutations[idx].1),
            None => SizeStep::Unchanged,
        };
        if actual == expected {
            let mut measure = text_of_str("length(");
            push_text(&mut measure, name);
            measure.push(')');
            let mut reason = copy_text(&measure);
            push_str(&mut reason, " moves toward the exit bound");
            return finding(subject, "proven", Some(measure), reason);
        }
    }
    finding(subject, "unknown", None, text_of_str("no monotonic measure was inferred"))
}

/// The measure and reason proving that the recursive call `call` of `name`
/// approaches the base case of `condition`.
fn recursion_proof(
    call: &Vec<Expression>,
    condition: &Expression,
    params: &Vec<Vec<char>>,
    then_recurses: bool,
    structural_summaries: &TextMap<StructuralSummary>,
    facts: &AbstractState,
    ctx: &Summaries,
) -> (r: Option<(Vec<char>, Vec<char>)>)
    ensures
        params@.len() == 0 ==> r is None,
        params@.len() > 0 && call@.len() > 1 && length_base(*condition, params@[0]@) && arg_size_step(
            call@[1],
            params@[0]@,
            *structural_summaries,
        ) == SizeStep::Shrink ==> (r matches Some((m, why)) && m@ == "length("@ + params@[0]@ + ")"@
            && why@ == m@ + " decreases on the recursive path"@),
{
    let mut k: usize = 0;
    while k < params.len()
        invariant
            k == 0 || !(params@.len() > 0 && call@.len() > 1 && length_base(*condition, params@[0]@)
                && arg_size_step(call@[1], params@[0]@, *structural_summaries) == SizeStep::Shrink),
        decreases params.len() - k,
    {
        if k + 1 < call.len() {
            let parameter = &params[k];
            let argument = &call[k + 1];
            if length_base_case(condition, parameter) && recursive_argument_size_step(
                argument,
                parameter,
                structural_summaries,
            ) == SizeStep::Shrink {
                let mut measure = text_of_str("length(");
                push_text(&mut measure, parameter);
                let ghost open_part = measure@;
                measure.push(')');
                proof {
                    reveal_strlit(")");
                    assert(measure@ =~= open_part + ")"@);
                }
                let mut reason = copy_text(&measure);
                push_str(&mut reason, " decreases on the recursive path");
                return Some((measure, reason));
            }
            if let Some(expected) = guard_direction_for_parameter(condition, parameter, !then_recurses) {
                let recursive_facts = state_for_branch(condition, facts, ctx, then_recurses);
                let actual = classify_update(parameter, argument, &recursive_facts);
                if actual == expected {
                    let mut reason = copy_text(parameter);
                    push_str(
                        &mut reason,
                        if actual == CounterStep::Increase {
                            " increases toward the base-case guard"
                        } else {
                            " decreases toward the base-case guard"
                        },
                    );
                    return Some((copy_text(parameter), reason));
                }
            }
        }
        k += 1;
    }
    None
}

/// The termination finding for `(letrec name (lambda params... body))`;
/// `params` are the parameters that are words, and the checks run only when
/// all of them are.
fn letrec_finding(
    name: &Vec<char>,
    params: &Vec<Vec<char>>,
    all_words: bool,
    body: &Expression,
    structural_summaries: &TextMap<StructuralSummary>,
    facts: &AbstractState,
    ctx: &Summaries,
) -> (r: Option<FindingText>)
    ensures
        r matches Some(f) ==> valid_finding(f),
        all_words && has_unchanged_call(*body, name@, params@) ==> (r matches Some(f) && f.subject@
            == name@ && f.status@ == "warning"@ && f.reason@ == "recursive call to '"@ + name@
            + "' repeats all arguments unchanged"@),
        !all_words ==> (r is Some <==> has_call(*body, name@)),
        has_call(*body, name@) ==> r is Some,
        r matches Some(f) ==> f.subject@ == name@,
{
    if all_words {
        if contains_unchanged_recursive_call(body, name, params) {
            let mut m = text_of_str("recursive call to '");
            push_text(&mut m, name);
            push_str(&mut m, "' repeats all arguments unchanged");
            return Some(finding(copy_text(name), "warning", None, m));
        }
        let mut diagnostics: Vec<Vec<char>> = Vec::new();
        analyze_recursive_progress(body, name, params, structural_summaries, facts, ctx, &mut diagnostics);
        if diagnostics.len() > 0 {
            return Some(finding(copy_text(name), "warning", None, strip_termination_prefix(&diagnostics[0])));
        }
    }
    let branch = match body {
        Expression::Apply(branch) => branch,
        _ => {
            return None;
        },
    };
    if head_is(branch, "if") && branch.len() >= 3 {
        let then_recurses = contains_recursive_call(&branch[2], name);
        let else_recurses = branch.len() > 3 && contains_recursive_call(&branch[3], name);
        proof {
            reveal_strlit("if");
            reveal_strlit("lambda");
            reveal_strlit("letrec");
            assert(!closure_form(branch@)) by {
                assert(branch@[0]->Word_0@ == "if"@);
                assert("if"@[0] != "lambda"@[0]);
                assert("if"@[0] != "letrec"@[0]);
            }
            assert(branch@.drop_first()[1] == branch@[2]);
            if then_recurses {
                lemma_has_call_in(branch@.drop_first(), name@, 1);
            }
            if else_recurses {
                assert(branch@.drop_first()[2] == branch@[3]);
                lemma_has_call_in(branch@.drop_first(), name@, 2);
            }
        }
        let mut found_measure: Option<(Vec<char>, Vec<char>)> = None;
        if then_recurses != else_recurses {
            let recursive_branch = if then_recurses {
                &branch[2]
            } else {
                &branch[3]
            };
            if let Some(call) = first_recursive_call(recursive_branch, name) {
                found_measure = recursion_proof(
                    call,
                    &branch[1],
                    params,
                    then_recurses,
                    structural_summaries,
                    facts,
                    ctx,
                );
            }
        }
        if let Some((measure, reason)) = found_measure {
            return Some(finding(copy_text(name), "proven", Some(measure), reason));
        }
        if contains_recursive_call(body, name) {
            Some(
                finding(
                    copy_text(name),
                    "unknown",
                    None,
                    text_of_str("recursive calls exist, but no decreasing measure was inferred"),
                ),
            )
        } else {
            None
        }
    } else if contains_recursive_call(body, name) {
        Some(
            finding(
                copy_text(name),
                "unknown",
                None,
                text_of_str("recursive calls exist, but no base-case measure was inferred"),
            ),
        )
    } else {
        None
    }
}

/// The reason of a loop finding fits its status: a proven loop names the
/// counter or length that moves toward the exit bound, an unknown one says
/// that no measure was found.
pub open spec fn loop_reason_fits(f: FindingText) -> bool {
    &&& f.status@ == "unknown"@ ==> f.reason@ == "no monotonic measure was inferred"@
    &&& f.status@ == "proven"@ ==> f.reason@ == f.measure->0@ + " increases toward the exit bound"@
        || f.reason@ == f.measure->0@ + " decreases toward the exit bound"@ || f.reason@
        == f.measure->0@ + " moves toward the exit bound"@
}

/// For `(letrec name (lambda params... body))`: the name and the body.
pub open spec fn letrec_parts(e: Expression) -> Option<(Seq<char>, Expression)> {
    match e {
        Expression::Apply(items) => if items@.len() == 3 && items@[0] is Word && items@[0]->Word_0@
            == "letrec"@ && items@[1] is Word && items@[2] is Apply {
            let lambda = items@[2]->Apply_0@;
            if lambda.len() >= 2 && lambda[0] is Word && lambda[0]->Word_0@ == "lambda"@ {
                Some((items@[1]->Word_0@, lambda.last()))
            } else {
                None
            }
        } else {
            None
        },
        _ => None,
    }
}

/// Collects a finding for every loop and self-recursive function in `expr`.
#[verifier::rlimit(50)]
pub(crate) fn collect_termination_findings(
    expr: &Expression,
    structural_summaries: &TextMap<StructuralSummary>,
    facts: &AbstractState,
    ctx: &Summaries,
    findings: &mut Vec<FindingText>,
)
    requires
        forall|i: int| 0 <= i < old(findings)@.len() ==> valid_finding(#[trigger] old(findings)@[i]),
    ensures
        forall|i: int| 0 <= i < final(findings)@.len() ==> valid_finding(#[trigger] final(findings)@[i]),
        loop_free(shape(*expr)) ==> final(findings)@ == old(findings)@,
        plain_while_form(shape(*expr)) ==> final(findings)@.len() == old(findings)@.len() + 1
            && final(findings)@[old(findings)@.len() as int].subject@ == "while "@ + sexp_text(
            shape(*expr)->List_0[1],
        ),
        grows(old(findings)@, final(findings)@),
        plain_while_form(shape(*expr)) ==> (shape(*expr)->List_0[1] == Sexp::Word("true"@) ==> ({
            let f = final(findings)@[old(findings)@.len() as int];
            &&& f.status@ == "warning"@
            &&& f.reason@ == "loop has no program-controlled exit: `"@ + sexp_text(shape(*expr)) + "`"@
        })),
        plain_while_form(shape(*expr)) ==> loop_reason_fits(final(findings)@[old(findings)@.len() as int]),
        plain_while_form(shape(*expr)) ==> (final(findings)@[old(findings)@.len() as int].status@ == "unknown"@
            ==> forall|u: int| 0 <= u < loop_updates(expr->Apply_0@).len() ==> !counter_progress(
            expr->Apply_0@[1],
            #[trigger] loop_updates(expr->Apply_0@)[u],
        )),
        letrec_parts(*expr) matches Some((name, body)) ==> (has_call(body, name) ==> (final(findings)@.len()
            > old(findings)@.len() && final(findings)@[old(findings)@.len() as int].subject@ == name)),
        plain_while_form(shape(*expr)) && counter_loop(expr->Apply_0@) ==> ({
            let f = final(findings)@[old(findings)@.len() as int];
            &&& f.status@ == "proven"@
            &&& f.measure matches Some(m) && m@ == loop_counter(expr->Apply_0@)
            &&& f.reason@ == counter_reason(expr->Apply_0@)
        }),
    decreases *expr,
{
    let items = match expr {
        Expression::Apply(items) => items,
        _ => {
            return;
        },
    };
    let ghost free = loop_free(shape(*expr));
    let ghost plain = plain_while_form(shape(*expr));
    proof {
        lemma_shapes(items@);
        lemma_all_loop_free(shapes(items@));
        lemma_head_words();
        if plain {
            lemma_lisp_text_shape(items@[1]);
            lemma_lisp_text_shape(*expr);
            lemma_all_loop_free(shapes(items@).drop_first());
            if shapes(items@)[1] == Sexp::Word("true"@) {
                assert(items@[1] is Word) by {
                    assert(shape(items@[1]) == Sexp::Word("true"@));
                    if !(items@[1] is Word) {
                        assert(false) by {
                            match items@[1] {
                                Expression::Apply(l) => {},
                                _ => {},
                            }
                        }
                    }
                }
                assert(word_text(items@[1]) == Some("true"@));
            }
        }
    }
    if head_is(items, "while") && items.len() >= 3 {
        findings.push(while_finding(expr, items, structural_summaries, facts, ctx));
    }
    let ghost pushed = findings@;
    if items.len() == 3 && head_is(items, "letrec") {
        if let (Expression::Word(name), Expression::Apply(lambda)) = (&items[1], &items[2]) {
            if head_is(lambda, "lambda") && lambda.len() >= 2 {
                let body = &lambda[lambda.len() - 1];
                let params = lambda_word_params(lambda);
                let all_words = params.len() == lambda.len() - 2;
                let found = letrec_finding(
                    name,
                    &params,
                    all_words,
                    body,
                    structural_summaries,
                    facts,
                    ctx,
                );
                if let Some(f) = found {
                    findings.push(f);
                }
            }
        }
    }
    let ghost own = findings@;
    let mut i: usize = 1;
    while i < items.len()
        invariant
            i >= 1,
            *expr == Expression::Apply(*items),
            forall|j: int| 0 <= j < findings@.len() ==> valid_finding(#[trigger] findings@[j]),
            free ==> findings@ == old(findings)@,
            plain ==> findings@ == pushed,
            grows(own, findings@),
            grows(old(findings)@, own),
        decreases items.len() - i,
    {
        assert(decreases_to!(*expr => items@[i as int]));
        proof {
            if free {
                assert(loop_free(shapes(items@)[i as int]));
            }
            if plain {
                assert(shapes(items@).drop_first()[i - 1] == shapes(items@)[i as int]);
                assert(loop_free(shapes(items@)[i as int]));
            }
        }
        collect_termination_findings(&items[i], structural_summaries, facts, ctx, findings);
        i += 1;
    }
}

} // verus!
