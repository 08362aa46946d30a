//! Building a program together with a standard library: binder checks, free
//! identifiers, and keeping only the library definitions the program uses.
use vstd::prelude::*;
use crate::text::{copy_text, push_str, push_text, text_eq, text_is, text_of, text_to_string};
use crate::expr::{
    Expression, Sexp, copy_expr, head_is, shape, shapes, lemma_shapes, lemma_shapes_push,
    lemma_shapes_concat,
};
use crate::facts::TextSet;
use crate::reader::{parse_text, preprocess};
use crate::macros::prepare_program_with_macros;
use crate::desugar::{
    desugar_with_counter, transform_let_destructuring_in_do, wrap_runtime_top_level_do, program_forms,
    desugared_all, let_destructure_from, runtime_do, without_macros,
};
use crate::macros::{flat_dos, macro_free, prepared};

verus! {

/// Names a program may not bind: those of the built-in collection and
/// reference operations.
pub open spec fn reserved_word(name: Seq<char>) -> bool {
    name == "map"@ || name == "map/i"@ || name == "filter"@ || name == "filter/i"@ || name
        == "select"@ || name == "exclude"@ || name == "reduce"@ || name == "reduce/i"@ || name
        == "reduce/until"@ || name == "reduce/until/i"@ || name == "sum"@ || name == "sum/int"@
        || name == "sum/dec"@ || name == "product"@ || name == "product/int"@ || name
        == "product/dec"@ || name == "some?"@ || name == "some/i?"@ || name == "every?"@ || name
        == "every/i?"@ || name == "find"@ || name == "zip"@ || name == "unzip"@ || name == "flat"@
        || name == "flat-map"@ || name == "window"@ || name == "char"@ || name == "mean"@ || name
        == "mean/int"@ || name == "mean/dec"@ || name == "range"@ || name == "range/int"@ || name
        == "range/dec"@ || name == "slice"@ || name == "take/first"@ || name == "drop/first"@
        || name == "take/last"@ || name == "drop/last"@ || name == "&mut"@ || name == "&box"@
        || name == "&get"@ || name == "&alter!"@
}

/// True when `name` is reserved.
pub fn is_reserved_word(name: &Vec<char>) -> (r: bool)
    ensures
        r == reserved_word(name@),
{
    text_is(name, "map") || text_is(name, "map/i") || text_is(name, "filter") || text_is(
        name,
        "filter/i",
    ) || text_is(name, "select") || text_is(name, "exclude") || text_is(name, "reduce")
        || text_is(name, "reduce/i") || text_is(name, "reduce/until") || text_is(
        name,
        "reduce/until/i",
    ) || text_is(name, "sum") || text_is(name, "sum/int") || text_is(name, "sum/dec") || text_is(
        name,
        "product",
    ) || text_is(name, "product/int") || text_is(name, "product/dec") || text_is(name, "some?")
        || text_is(name, "some/i?") || text_is(name, "every?") || text_is(name, "every/i?")
        || text_is(name, "find") || text_is(name, "zip") || text_is(name, "unzip") || text_is(
        name,
        "flat",
    ) || text_is(name, "flat-map") || text_is(name, "window") || text_is(name, "char") || text_is(
        name,
        "mean",
    ) || text_is(name, "mean/int") || text_is(name, "mean/dec") || text_is(name, "range")
        || text_is(name, "range/int") || text_is(name, "range/dec") || text_is(name, "slice")
        || text_is(name, "take/first") || text_is(name, "drop/first") || text_is(name, "take/last")
        || text_is(name, "drop/last") || text_is(name, "&mut") || text_is(name, "&box") || text_is(
        name,
        "&get",
    ) || text_is(name, "&alter!")
}

/// `Variable '<name>' is forbidden`.
fn forbidden(name: &Vec<char>) -> (r: Vec<char>)
    ensures
        r@ == "Variable '"@ + name@ + "' is forbidden"@,
{
    let mut out = text_of("Variable '");
    push_text(&mut out, name);
    push_str(&mut out, "' is forbidden");
    out
}

/// The words a binding pattern binds: each word in it except `_`.
pub open spec fn pattern_words(p: Sexp) -> Set<Seq<char>>
    decreases p,
{
    match p {
        Sexp::Word(w) => if w == "_"@ {
            Set::empty()
        } else {
            set![w]
        },
        Sexp::List(items) => patterns_words(items),
        _ => Set::empty(),
    }
}

/// The words the patterns `items` bind.
pub open spec fn patterns_words(items: Seq<Sexp>) -> Set<Seq<char>>
    decreases items,
{
    if items.len() == 0 {
        Set::empty()
    } else {
        patterns_words(items.drop_last()).union(pattern_words(items[items.len() - 1]))
    }
}

proof fn lemma_head_shape(items: Seq<Expression>, lit: Seq<char>)
    requires
        items.len() > 0,
    ensures
        (items[0] is Word && items[0]->Word_0@ == lit) <==> shapes(items)[0] == Sexp::Word(lit),
{
    lemma_shapes(items);
}

/// Every word of a binding pattern except `_`.
pub(crate) fn collect_pattern_words(expr: &Expression, acc: &mut TextSet)
    ensures
        forall|x: Seq<char>| #[trigger] final(acc).has(x) == (old(acc).has(x) || pattern_words(shape(*expr)).contains(x)),
    decreases *expr,
{
    match expr {
        Expression::Word(w) => {
            if !text_is(w, "_") {
                acc.insert(copy_text(w));
            }
        },
        Expression::Apply(items) => {
            proof {
                lemma_shapes(items@);
            }
            let ghost start = *acc;
            let mut i: usize = 0;
            while i < items.len()
                invariant
                    i <= items.len(),
                    *expr == Expression::Apply(*items),
                    shapes(items@).len() == items@.len(),
                    forall|m: int| 0 <= m < items@.len() ==> #[trigger] shapes(items@)[m] == shape(items@[m]),
                    forall|x: Seq<char>| #[trigger] acc.has(x) == (start.has(x) || patterns_words(
                        shapes(items@).take(i as int),
                    ).contains(x)),
                decreases items.len() - i,
            {
                assert(decreases_to!(*expr => items@[i as int]));
                collect_pattern_words(&items[i], acc);
                proof {
                    let t = shapes(items@).take(i + 1);
                    assert(t.drop_last() =~= shapes(items@).take(i as int));
                }
                i += 1;
            }
            proof {
                assert(shapes(items@).take(items@.len() as int) =~= shapes(items@));
            }
        },
        _ => {},
    }
}

/// One of the lambda parameter patterns `items[k..]` (the last item is the
/// body) binds a reserved name.
pub open spec fn params_bind_reserved(items: Seq<Sexp>, k: int) -> bool
    decreases items.len() - k,
{
    if k < 1 || k + 1 >= items.len() {
        false
    } else {
        (exists|w: Seq<char>| #[trigger] pattern_words(items[k]).contains(w) && reserved_word(w))
            || params_bind_reserved(items, k + 1)
    }
}

/// The application `items` itself binds a reserved name: a `let`, `let*`
/// or `mut` of one, or a lambda whose parameter patterns bind one.
pub open spec fn binds_reserved_here(items: Seq<Sexp>) -> bool {
    items.len() > 0 && match items[0] {
        Sexp::Word(op) => if op == "let"@ || op == "let*"@ || op == "mut"@ {
            items.len() > 1 && match items[1] {
                Sexp::Word(n) => reserved_word(n),
                _ => false,
            }
        } else if op == "lambda"@ {
            params_bind_reserved(items, 1)
        } else {
            false
        },
        _ => false,
    }
}

/// Some binder anywhere in `e` binds a reserved name.
pub open spec fn reserved_binder(e: Sexp) -> bool
    decreases e,
{
    match e {
        Sexp::List(items) => binds_reserved_here(items) || any_reserved_binder(items),
        _ => false,
    }
}

/// Some binder anywhere in `items` binds a reserved name.
pub open spec fn any_reserved_binder(items: Seq<Sexp>) -> bool
    decreases items,
{
    if items.len() == 0 {
        false
    } else {
        any_reserved_binder(items.drop_last()) || reserved_binder(items[items.len() - 1])
    }
}

proof fn lemma_any_reserved_binder(items: Seq<Sexp>)
    ensures
        any_reserved_binder(items) <==> exists|k: int| 0 <= k < items.len() && #[trigger] reserved_binder(items[k]),
    decreases items.len(),
{
    if items.len() > 0 {
        lemma_any_reserved_binder(items.drop_last());
        if exists|k: int| 0 <= k < items.drop_last().len() && #[trigger] reserved_binder(items.drop_last()[k]) {
            let k = choose|k: int| 0 <= k < items.drop_last().len() && #[trigger] reserved_binder(items.drop_last()[k]);
            assert(reserved_binder(items[k]));
        }
        if exists|k: int| 0 <= k < items.len() && #[trigger] reserved_binder(items[k]) {
            let k = choose|k: int| 0 <= k < items.len() && #[trigger] reserved_binder(items[k]);
            if k < items.len() - 1 {
                assert(reserved_binder(items.drop_last()[k]));
            }
        }
        if reserved_binder(items[items.len() - 1]) {
            assert(exists|k: int| 0 <= k < items.len() && #[trigger] reserved_binder(items[k]));
        }
    }
}

/// Rejects a `let`, `let*` or `mut` of a reserved name, and a lambda whose
/// parameter patterns bind one, anywhere in `expr`.
pub(crate) fn validate_reserved_words_in_binders(expr: &Expression) -> (r: Result<(), Vec<char>>)
    ensures
        r is Ok <==> !reserved_binder(shape(*expr)),
    decreases *expr,
{
    let items = match expr {
        Expression::Apply(items) => items,
        _ => {
            return Ok(());
        },
    };
    proof {
        lemma_shapes(items@);
    }
    let ghost xs = shapes(items@);
    if items.len() == 0 {
        return Ok(());
    }
    if let Expression::Word(op) = &items[0] {
        assert(xs[0] == Sexp::Word(op@));
        if text_is(op, "let") || text_is(op, "let*") || text_is(op, "mut") {
            if items.len() > 1 {
                if let Expression::Word(name) = &items[1] {
                    assert(xs[1] == Sexp::Word(name@));
                    if is_reserved_word(name) {
                        return Err(forbidden(name));
                    }
                }
            }
        } else if text_is(op, "lambda") {
            let mut k: usize = 1;
            while k < items.len() && k + 1 < items.len()
                invariant
                    k >= 1,
                    *expr == Expression::Apply(*items),
                    xs == shapes(items@),
                    xs.len() == items@.len(),
                    forall|m: int| 0 <= m < items@.len() ==> #[trigger] xs[m] == shape(items@[m]),
                    params_bind_reserved(xs, 1) == params_bind_reserved(xs, k as int),
                decreases items.len() - k,
            {
                let mut names = TextSet::new();
                collect_pattern_words(&items[k], &mut names);
                let mut j: usize = 0;
                while j < names.items.len()
                    invariant
                        j <= names.items@.len(),
                        forall|i: int| 0 <= i < j ==> !reserved_word((#[trigger] names.items@[i])@),
                    decreases names.items.len() - j,
                {
                    if is_reserved_word(&names.items[j]) {
                        proof {
                            let w = names.items@[j as int]@;
                            assert(names.has(w));
                            assert(pattern_words(xs[k as int]).contains(w));
                        }
                        return Err(forbidden(&names.items[j]));
                    }
                    j += 1;
                }
                proof {
                    assert forall|w: Seq<char>| #[trigger] pattern_words(xs[k as int]).contains(w) implies !reserved_word(
                        w,
                    ) by {
                        assert(names.has(w));
                        let i = choose|i: int| 0 <= i < names.items@.len() && (#[trigger] names.items@[i])@ == w;
                    }
                }
                k += 1;
            }
        }
    }
    let mut i: usize = 0;
    while i < items.len()
        invariant
            i <= items.len(),
            *expr == Expression::Apply(*items),
            xs == shapes(items@),
            xs.len() == items@.len(),
            forall|m: int| 0 <= m < items@.len() ==> #[trigger] xs[m] == shape(items@[m]),
            !binds_reserved_here(xs),
            !any_reserved_binder(xs.take(i as int)),
        decreases items.len() - i,
    {
        assert(decreases_to!(*expr => items@[i as int]));
        proof {
            let t = xs.take(i + 1);
            assert(t.drop_last() =~= xs.take(i as int));
        }
        let checked = validate_reserved_words_in_binders(&items[i]);
        if checked.is_err() {
            proof {
                lemma_any_reserved_binder(xs);
                assert(reserved_binder(xs[i as int]));
            }
            return checked;
        }
        i += 1;
    }
    proof {
        assert(xs.take(xs.len() as int) =~= xs);
    }
    Ok(())
}

/// The members of a set of texts.
pub open spec fn members(t: TextSet) -> Set<Seq<char>> {
    Set::new(|x: Seq<char>| t.has(x))
}

/// A `(let name value)` or `(let* name value)` form.
pub open spec fn is_simple_let(items: Seq<Sexp>) -> bool {
    items.len() == 3 && (items[0] == Sexp::Word("let"@) || items[0] == Sexp::Word("let*"@))
        && items[1] is Word
}

/// The words the lambda parameter patterns `items[k..]` bind (the last
/// item is the body).
pub open spec fn lambda_param_words(items: Seq<Sexp>, k: int) -> Set<Seq<char>>
    decreases items.len() - k,
{
    if k < 1 || k + 1 >= items.len() {
        Set::empty()
    } else {
        pattern_words(items[k]).union(lambda_param_words(items, k + 1))
    }
}

/// The identifiers `e` uses that `bound` does not bind, and the names bound
/// after it: a `let` or `let*` binds its name for what follows, also
/// inside an enclosing `do` and application; a lambda's parameters are
/// bound only in its body.
pub open spec fn free_idents(e: Sexp, bound: Set<Seq<char>>) -> (Set<Seq<char>>, Set<Seq<char>>)
    decreases e, 1int, 0int,
{
    match e {
        Sexp::Word(w) => (
            if bound.contains(w) {
                Set::empty()
            } else {
                set![w]
            },
            bound,
        ),
        Sexp::List(items) => if items.len() == 0 {
            (Set::empty(), bound)
        } else if items[0] == Sexp::Word("lambda"@) {
            proof {
                assert(decreases_to!(e => items));
            }
            (
                free_idents(items[items.len() - 1], bound.union(lambda_param_words(items, 1))).0,
                bound,
            )
        } else if items[0] == Sexp::Word("do"@) {
            do_free_idents(e, items, 1, bound, Set::empty())
        } else if is_simple_let(items) {
            proof {
                assert(decreases_to!(e => items));
            }
            let r = free_idents(items[2], bound);
            (r.0, r.1.insert(items[1]->Word_0))
        } else {
            items_free_idents(e, items, 0, bound, Set::empty())
        },
        _ => (Set::empty(), bound),
    }
}

/// The free identifiers of the forms `items[i..]` of a `do` after `acc`,
/// each simple `let` binding its name for the forms after it.
pub open spec fn do_free_idents(
    e: Sexp,
    items: Seq<Sexp>,
    i: int,
    bound: Set<Seq<char>>,
    acc: Set<Seq<char>>,
) -> (Set<Seq<char>>, Set<Seq<char>>)
    decreases e, 0int, items.len() - i,
{
    if i < 0 || i >= items.len() || e != Sexp::List(items) {
        (acc, bound)
    } else {
        proof {
            assert(decreases_to!(e => e->List_0));
        }
        let item = items[i];
        match item {
            Sexp::List(l) => if is_simple_let(l) {
                proof {
                    assert(decreases_to!(item => l));
                }
                let r = free_idents(l[2], bound);
                do_free_idents(e, items, i + 1, r.1.insert(l[1]->Word_0), acc.union(r.0))
            } else {
                let r = free_idents(item, bound);
                do_free_idents(e, items, i + 1, r.1, acc.union(r.0))
            },
            _ => {
                let r = free_idents(item, bound);
                do_free_idents(e, items, i + 1, r.1, acc.union(r.0))
            },
        }
    }
}

/// The free identifiers of `items[i..]` after `acc`, in turn.
pub open spec fn items_free_idents(
    e: Sexp,
    items: Seq<Sexp>,
    i: int,
    bound: Set<Seq<char>>,
    acc: Set<Seq<char>>,
) -> (Set<Seq<char>>, Set<Seq<char>>)
    decreases e, 0int, items.len() - i,
{
    if i < 0 || i >= items.len() || e != Sexp::List(items) {
        (acc, bound)
    } else {
        proof {
            assert(decreases_to!(e => e->List_0));
        }
        let r = free_idents(items[i], bound);
        items_free_idents(e, items, i + 1, r.1, acc.union(r.0))
    }
}

/// The identifiers `expr` uses that `bound` does not bind.  A `let` or
/// `let*` binds its name for what follows it, also in an enclosing `do`.
pub(crate) fn collect_free_idents(expr: &Expression, bound: &mut TextSet, acc: &mut TextSet)
    ensures
        forall|x: Seq<char>| #[trigger] final(acc).has(x) == (old(acc).has(x) || free_idents(
            shape(*expr),
            members(*old(bound)),
        ).0.contains(x)),
        members(*final(bound)) == free_idents(shape(*expr), members(*old(bound))).1,
    decreases *expr,
{
    let ghost b0 = members(*bound);
    let ghost a0 = *acc;
    match expr {
        Expression::Word(w) => {
            if !bound.contains(w) {
                acc.insert(copy_text(w));
            }
            proof {
                assert(members(*bound) =~= b0);
            }
        },
        Expression::Apply(items) => {
            proof {
                lemma_shapes(items@);
            }
            let ghost xs = shapes(items@);
            let ghost e = shape(*expr);
            if items.len() == 0 {
                proof {
                    assert(members(*bound) =~= b0);
                }
                return;
            }
            proof {
                lemma_head_shape(items@, "lambda"@);
                lemma_head_shape(items@, "do"@);
                lemma_head_shape(items@, "let"@);
                lemma_head_shape(items@, "let*"@);
            }
            if head_is(items, "lambda") {
                let mut scoped = TextSet::new();
                scoped.extend(bound);
                let mut k: usize = 1;
                proof {
                    assert(members(scoped) =~= b0);
                    assert(b0.union(lambda_param_words(xs, 1)) =~= b0.union(lambda_param_words(xs, 1)));
                }
                while k < items.len() && k + 1 < items.len()
                    invariant
                        k >= 1,
                        *expr == Expression::Apply(*items),
                        xs == shapes(items@),
                        xs.len() == items@.len(),
                        forall|m: int| 0 <= m < items@.len() ==> #[trigger] xs[m] == shape(items@[m]),
                        b0.union(lambda_param_words(xs, 1)) == members(scoped).union(lambda_param_words(xs, k as int)),
                    decreases items.len() - k,
                {
                    let ghost before = members(scoped);
                    collect_pattern_words(&items[k], &mut scoped);
                    proof {
                        assert(members(scoped) =~= before.union(pattern_words(xs[k as int])));
                        assert(before.union(lambda_param_words(xs, k as int)) =~= members(scoped).union(
                            lambda_param_words(xs, k + 1),
                        ));
                    }
                    k += 1;
                }
                proof {
                    assert(members(scoped).union(lambda_param_words(xs, k as int)) =~= members(scoped));
                }
                let last = items.len() - 1;
                assert(decreases_to!(*expr => items@[last as int]));
                collect_free_idents(&items[last], &mut scoped, acc);
                proof {
                    assert(members(*bound) =~= b0);
                }
                return;
            }
            if head_is(items, "do") {
                let mut i: usize = 1;
                let ghost mut found: Set<Seq<char>> = Set::empty();
                proof {
                    assert forall|x: Seq<char>| #[trigger] acc.has(x) == (a0.has(x) || found.contains(x)) by {}
                }
                while i < items.len()
                    invariant
                        i >= 1,
                        *expr == Expression::Apply(*items),
                        e == shape(*expr),
                        e == Sexp::List(xs),
                        xs == shapes(items@),
                        xs.len() == items@.len(),
                        forall|m: int| 0 <= m < items@.len() ==> #[trigger] xs[m] == shape(items@[m]),
                        forall|x: Seq<char>| #[trigger] acc.has(x) == (a0.has(x) || found.contains(x)),
                        do_free_idents(e, xs, 1, b0, Set::empty()) == do_free_idents(
                            e,
                            xs,
                            i as int,
                            members(*bound),
                            found,
                        ),
                    decreases items.len() - i,
                {
                    assert(decreases_to!(*expr => items@[i as int]));
                    let ghost bi = members(*bound);
                    let mut handled = false;
                    if let Expression::Apply(let_items) = &items[i] {
                        proof {
                            lemma_shapes(let_items@);
                            if let_items@.len() > 0 {
                                lemma_head_shape(let_items@, "let"@);
                                lemma_head_shape(let_items@, "let*"@);
                            }
                        }
                        if let_items.len() == 3 && (head_is(let_items, "let") || head_is(
                            let_items,
                            "let*",
                        )) {
                            if let Expression::Word(name) = &let_items[1] {
                                assert(is_simple_let(shapes(let_items@)));
                                assert(decreases_to!(items@[i as int] => let_items@[2]));
                                let ghost r = free_idents(shapes(let_items@)[2], bi);
                                collect_free_idents(&let_items[2], bound, acc);
                                bound.insert(copy_text(name));
                                proof {
                                    assert(members(*bound) =~= r.1.insert(name@));
                                    found = found.union(r.0);
                                }
                                handled = true;
                            }
                        }
                    }
                    if !handled {
                        let ghost r = free_idents(xs[i as int], bi);
                        collect_free_idents(&items[i], bound, acc);
                        proof {
                            found = found.union(r.0);
                        }
                    }
                    i += 1;
                }
                return;
            }
            if items.len() == 3 && (head_is(items, "let") || head_is(items, "let*")) {
                if let Expression::Word(name) = &items[1] {
                    assert(is_simple_let(xs));
                    assert(decreases_to!(*expr => items@[2]));
                    collect_free_idents(&items[2], bound, acc);
                    let ghost r1 = members(*bound);
                    bound.insert(copy_text(name));
                    proof {
                        assert(members(*bound) =~= r1.insert(name@));
                    }
                    return;
                }
            }
            let mut i: usize = 0;
            let ghost mut found: Set<Seq<char>> = Set::empty();
            while i < items.len()
                invariant
                    *expr == Expression::Apply(*items),
                    e == shape(*expr),
                    e == Sexp::List(xs),
                    xs == shapes(items@),
                    xs.len() == items@.len(),
                    forall|m: int| 0 <= m < items@.len() ==> #[trigger] xs[m] == shape(items@[m]),
                    forall|x: Seq<char>| #[trigger] acc.has(x) == (a0.has(x) || found.contains(x)),
                    items_free_idents(e, xs, 0, b0, Set::empty()) == items_free_idents(
                        e,
                        xs,
                        i as int,
                        members(*bound),
                        found,
                    ),
                decreases items.len() - i,
            {
                assert(decreases_to!(*expr => items@[i as int]));
                let ghost r = free_idents(xs[i as int], members(*bound));
                collect_free_idents(&items[i], bound, acc);
                proof {
                    found = found.union(r.0);
                }
                i += 1;
            }
        },
        _ => {
            proof {
                assert(members(*bound) =~= b0);
            }
        },
    }
}

/// The name a library definition `(let name ...)` defines.
pub open spec fn def_name(e: Expression) -> Option<Seq<char>> {
    match e {
        Expression::Apply(list) => if list@.len() >= 2 && list@[0] is Word && list@[0]->Word_0@
            == "let"@ && list@[1] is Word {
            Some(list@[1]->Word_0@)
        } else {
            None
        },
        _ => None,
    }
}

/// The library defines `n`.
pub open spec fn library_defines(defs: Seq<Expression>, n: Seq<char>) -> bool {
    exists|j: int| 0 <= j < defs.len() && def_name(#[trigger] defs[j]) == Some(n)
}

/// The name of the library definition at `src[k]`.
pub open spec fn source_name(defs: Seq<Expression>, src: Seq<int>, k: int) -> Seq<char> {
    def_name(defs[src[k]])->0
}

/// Each of `kept` has the shape of the library definition `src` points it to.
pub open spec fn copies_of_definitions(kept: Seq<Expression>, defs: Seq<Expression>, src: Seq<int>) -> bool {
    &&& src.len() == kept.len()
    &&& forall|k: int|
        0 <= k < kept.len() ==> 0 <= #[trigger] src[k] < defs.len() && def_name(defs[src[k]]) is Some
            && shape(kept[k]) == shape(defs[src[k]])
}

/// `index` has an entry for `n`.
spec fn indexed(index: Seq<(Vec<char>, usize)>, n: Seq<char>) -> bool {
    exists|e: int| 0 <= e < index.len() && (#[trigger] index[e]).0@ == n
}

/// One of the first `i` library forms defines `n`.
spec fn defined_below(defs: Seq<Expression>, i: int, n: Seq<char>) -> bool {
    exists|j: int| 0 <= j < i && def_name(#[trigger] defs[j]) == Some(n)
}

/// The entries of `index` name library definitions, and every name the
/// library defines has one.
spec fn index_of(index: Seq<(Vec<char>, usize)>, defs: Seq<Expression>) -> bool {
    &&& forall|e: int|
        0 <= e < index.len() ==> (#[trigger] index[e]).1 < defs.len() && def_name(defs[index[e].1 as int])
            == Some(index[e].0@)
    &&& forall|n: Seq<char>| #[trigger] library_defines(defs, n) ==> indexed(index, n)
}

/// The library `let` definitions by name; a later definition of a name
/// replaces the earlier.
fn index_definitions(std_defs: &Vec<Expression>) -> (index: Vec<(Vec<char>, usize)>)
    ensures
        index_of(index@, std_defs@),
{
    let mut index: Vec<(Vec<char>, usize)> = Vec::new();
    let mut i: usize = 0;
    while i < std_defs.len()
        invariant
            i <= std_defs.len(),
            forall|e: int|
                0 <= e < index@.len() ==> (#[trigger] index@[e]).1 < std_defs@.len() && def_name(
                    std_defs@[index@[e].1 as int],
                ) == Some(index@[e].0@),
            forall|n: Seq<char>| #[trigger] defined_below(std_defs@, i as int, n) ==> indexed(index@, n),
        decreases std_defs.len() - i,
    {
        if let Expression::Apply(list) = &std_defs[i] {
            if list.len() >= 2 && head_is(list, "let") {
                if let Expression::Word(name) = &list[1] {
                    assert(def_name(std_defs@[i as int]) == Some(name@));
                    let ghost before = index@;
                    let mut replaced = false;
                    let mut k: usize = 0;
                    while k < index.len()
                        invariant
                            k <= index@.len(),
                            index@ == before,
                            !replaced,
                        decreases index.len() - k,
                    {
                        if text_eq(&index[k].0, name) {
                            index.set(k, (copy_text(name), i));
                            replaced = true;
                            proof {
                                assert forall|n: Seq<char>| #[trigger] indexed(before, n) implies indexed(
                                    index@,
                                    n,
                                ) by {
                                    let e = choose|e: int| 0 <= e < before.len() && (#[trigger] before[e]).0@ == n;
                                    assert(index@[e].0@ == n);
                                }
                                assert(indexed(index@, name@)) by {
                                    assert(index@[k as int].0@ == name@);
                                }
                            }
                            break;
                        }
                        k += 1;
                    }
                    if !replaced {
                        index.push((copy_text(name), i));
                        proof {
                            assert(index@[before.len() as int].0@ == name@);
                            assert(indexed(index@, name@));
                            assert forall|n: Seq<char>| #[trigger] indexed(before, n) implies indexed(
                                index@,
                                n,
                            ) by {
                                let e = choose|e: int| 0 <= e < before.len() && (#[trigger] before[e]).0@ == n;
                                assert(index@[e] == before[e]);
                            }
                        }
                    }
                }
            }
        }
        proof {
            assert forall|n: Seq<char>| #[trigger] defined_below(std_defs@, i + 1, n) implies indexed(
                index@,
                n,
            ) by {
                let j = choose|j: int| 0 <= j < i + 1 && def_name(#[trigger] std_defs@[j]) == Some(n);
                if j < i {
                    assert(defined_below(std_defs@, i as int, n));
                }
            }
        }
        i += 1;
    }
    proof {
        assert forall|n: Seq<char>| #[trigger] library_defines(std_defs@, n) implies indexed(index@, n) by {
            assert(defined_below(std_defs@, std_defs@.len() as int, n));
        }
    }
    index
}

/// Keeps the definition of `name` and, before it, those it depends on, each
/// once; `visited` holds the names already handled.  The result points each
/// definition kept to the library definition it copies.
fn visit_definition(
    name: &Vec<char>,
    std_defs: &Vec<Expression>,
    index: &Vec<(Vec<char>, usize)>,
    kept: &mut Vec<Expression>,
    visited: &mut TextSet,
    fuel: usize,
) -> (added: Ghost<Seq<int>>)
    requires
        index_of(index@, std_defs@),
    ensures
        forall|x: Seq<char>| old(visited).has(x) ==> #[trigger] final(visited).has(x),
        fuel > 0 ==> final(visited).has(name@),
        final(kept)@.len() == old(kept)@.len() + added@.len(),
        forall|k: int| 0 <= k < old(kept)@.len() ==> #[trigger] final(kept)@[k] == old(kept)@[k],
        copies_of_definitions(final(kept)@.skip(old(kept)@.len() as int), std_defs@, added@),
        forall|k: int|
            0 <= k < added@.len() ==> !old(visited).has(#[trigger] source_name(std_defs@, added@, k))
                && final(visited).has(source_name(std_defs@, added@, k)),
        forall|k1: int, k2: int|
            0 <= k1 < k2 < added@.len() ==> #[trigger] source_name(std_defs@, added@, k1)
                != #[trigger] source_name(std_defs@, added@, k2),
        forall|n: Seq<char>|
            #![trigger final(visited).has(n)]
            final(visited).has(n) && !old(visited).has(n) && library_defines(std_defs@, n) ==> exists|k: int|
                0 <= k < added@.len() && source_name(std_defs@, added@, k) == n,
    decreases fuel,
{
    let ghost kept0 = kept@;
    if fuel == 0 || visited.contains(name) {
        assert(kept@.skip(kept0.len() as int) =~= Seq::<Expression>::empty());
        return Ghost(Seq::empty());
    }
    visited.insert(copy_text(name));
    let ghost visited1 = *visited;
    let mut found: Option<usize> = None;
    let mut k: usize = 0;
    while k < index.len() && found.is_none()
        invariant
            k <= index@.len(),
            index_of(index@, std_defs@),
            found is None ==> forall|e: int| 0 <= e < k ==> (#[trigger] index@[e]).0@ != name@,
            found matches Some(at) ==> at < std_defs@.len() && def_name(std_defs@[at as int]) == Some(
                name@,
            ),
        decreases index.len() - k,
    {
        if text_eq(&index[k].0, name) {
            found = Some(index[k].1);
        }
        k += 1;
    }
    let ghost mut added: Seq<int> = Seq::empty();
    if let Some(at) = found {
        assert(def_name(std_defs@[at as int]) == Some(name@));
        if let Expression::Apply(list) = &std_defs[at] {
            if list.len() >= 3 {
                let mut deps = TextSet::new();
                let mut scoped = TextSet::new();
                collect_free_idents(&list[2], &mut scoped, &mut deps);
                let mut d: usize = 0;
                while d < deps.items.len()
                    invariant
                        index_of(index@, std_defs@),
                        visited1.has(name@),
                        forall|x: Seq<char>| visited1.has(x) ==> #[trigger] visited.has(x),
                        kept@.len() == kept0.len() + added.len(),
                        forall|k: int| 0 <= k < kept0.len() ==> #[trigger] kept@[k] == kept0[k],
                        copies_of_definitions(kept@.skip(kept0.len() as int), std_defs@, added),
                        forall|k: int|
                            0 <= k < added.len() ==> !visited1.has(#[trigger] source_name(std_defs@, added, k))
                                && visited.has(source_name(std_defs@, added, k)),
                        forall|k1: int, k2: int|
                            0 <= k1 < k2 < added.len() ==> #[trigger] source_name(std_defs@, added, k1)
                                != #[trigger] source_name(std_defs@, added, k2),
                        forall|n: Seq<char>|
                            #![trigger visited.has(n)]
                            visited.has(n) && !visited1.has(n) && library_defines(std_defs@, n) ==> exists|k: int|
                                0 <= k < added.len() && source_name(std_defs@, added, k) == n,
                    decreases deps.items.len() - d,
                {
                    let ghost before_kept = kept@;
                    let ghost before_visited = *visited;
                    let ghost before_added = added;
                    let more = visit_definition(&deps.items[d], std_defs, index, kept, visited, fuel - 1);
                    proof {
                        let m = more@;
                        added = before_added + m;
                        let tail = kept@.skip(kept0.len() as int);
                        let old_tail = before_kept.skip(kept0.len() as int);
                        assert forall|k: int| 0 <= k < added.len() implies #[trigger] source_name(std_defs@, added, k)
                            == if k < before_added.len() {
                                source_name(std_defs@, before_added, k)
                            } else {
                                source_name(std_defs@, m, k - before_added.len())
                            } by {
                        }
                        assert(copies_of_definitions(tail, std_defs@, added)) by {
                            assert forall|k: int| 0 <= k < tail.len() implies 0 <= #[trigger] added[k] < std_defs@.len()
                                && def_name(std_defs@[added[k]]) is Some && shape(tail[k]) == shape(
                                std_defs@[added[k]],
                            ) by {
                                if k < before_added.len() {
                                    assert(tail[k] == old_tail[k]);
                                } else {
                                    let j = k - before_added.len();
                                    assert(tail[k] == kept@.skip(before_kept.len() as int)[j]);
                                    assert(added[k] == m[j]);
                                }
                            }
                        }
                        assert forall|k1: int, k2: int|
                            0 <= k1 < k2 < added.len() implies #[trigger] source_name(std_defs@, added, k1)
                                != #[trigger] source_name(std_defs@, added, k2) by {
                            if k2 < before_added.len() {
                            } else if k1 < before_added.len() {
                                assert(before_visited.has(source_name(std_defs@, before_added, k1)));
                            } else {
                                let j1 = k1 - before_added.len();
                                let j2 = k2 - before_added.len();
                                assert(source_name(std_defs@, m, j1) != source_name(std_defs@, m, j2));
                            }
                        }
                        assert forall|n: Seq<char>|
                            visited.has(n) && !visited1.has(n) && library_defines(std_defs@, n) implies exists|k: int|
                                0 <= k < added.len() && source_name(std_defs@, added, k) == n by {
                            if before_visited.has(n) {
                                let k = choose|k: int| 0 <= k < before_added.len() && source_name(std_defs@, before_added, k) == n;
                                assert(source_name(std_defs@, added, k) == n);
                            } else {
                                let j = choose|j: int| 0 <= j < m.len() && source_name(std_defs@, m, j) == n;
                                assert(source_name(std_defs@, added, before_added.len() + j) == n);
                            }
                        }
                    }
                    d += 1;
                }
            }
        }
        let ghost before_kept = kept@;
        let ghost before_added = added;
        kept.push(copy_expr(&std_defs[at]));
        proof {
            added = before_added.push(at as int);
            let tail = kept@.skip(kept0.len() as int);
            let old_tail = before_kept.skip(kept0.len() as int);
            assert forall|k: int| 0 <= k < before_added.len() implies #[trigger] source_name(std_defs@, added, k)
                == source_name(std_defs@, before_added, k) by {
            }
            assert(source_name(std_defs@, added, before_added.len() as int) == name@);
            assert(copies_of_definitions(tail, std_defs@, added)) by {
                assert forall|k: int| 0 <= k < tail.len() implies 0 <= #[trigger] added[k] < std_defs@.len()
                    && def_name(std_defs@[added[k]]) is Some && shape(tail[k]) == shape(
                    std_defs@[added[k]],
                ) by {
                    if k < before_added.len() {
                        assert(tail[k] == old_tail[k]);
                    }
                }
            }
            assert forall|k1: int, k2: int|
                0 <= k1 < k2 < added.len() implies #[trigger] source_name(std_defs@, added, k1)
                    != #[trigger] source_name(std_defs@, added, k2) by {
                if k2 < before_added.len() {
                    assert(source_name(std_defs@, before_added, k1) != source_name(std_defs@, before_added, k2));
                } else {
                    assert(!visited1.has(source_name(std_defs@, before_added, k1)));
                }
            }
            assert forall|n: Seq<char>|
                #![trigger visited.has(n)]
                visited.has(n) && !visited1.has(n) && library_defines(std_defs@, n) implies exists|k: int|
                    0 <= k < added.len() && source_name(std_defs@, added, k) == n by {
                let k = choose|k: int|
                    0 <= k < before_added.len() && source_name(std_defs@, before_added, k) == n;
                assert(source_name(std_defs@, added, k) == n);
            }
        }
    } else {
        proof {
            if library_defines(std_defs@, name@) {
                let e = choose|e: int| 0 <= e < index@.len() && (#[trigger] index@[e]).0@ == name@;
                assert(index@[e].0@ != name@);
            }
        }
        assert(kept@.skip(kept0.len() as int) =~= Seq::<Expression>::empty());
    }
    proof {
        assert forall|n: Seq<char>|
            #![trigger visited.has(n)]
            visited.has(n) && !old(visited).has(n) && library_defines(std_defs@, n) implies exists|k: int|
                0 <= k < added.len() && source_name(std_defs@, added, k) == n by {
            if n == name@ {
                if found is None {
                    let e = choose|e: int| 0 <= e < index@.len() && (#[trigger] index@[e]).0@ == name@;
                    assert(index@[e].0@ != name@);
                } else {
                    assert(added[added.len() - 1] == found->0);
                    assert(source_name(std_defs@, added, added.len() - 1) == n);
                }
            } else {
                assert(!visited1.has(n));
            }
        }
    }
    Ghost(added)
}

/// The library definitions that the `used` names need, dependencies first;
/// names in `visited` are skipped.  Each definition kept is a copy of a
/// library `let` definition whose name was not in `visited` and is now,
/// no name is kept twice, and every used name the library defines and
/// `visited` does not hold is kept.
pub fn tree_shake(std_defs: &Vec<Expression>, used: &TextSet, visited: &mut TextSet) -> (r: Vec<
    Expression,
>)
    ensures
        exists|src: Seq<int>|
            {
                &&& copies_of_definitions(r@, std_defs@, src)
                &&& forall|k: int|
                    0 <= k < r@.len() ==> !old(visited).has(#[trigger] source_name(std_defs@, src, k))
                        && final(visited).has(source_name(std_defs@, src, k))
                &&& forall|k1: int, k2: int|
                    0 <= k1 < k2 < r@.len() ==> #[trigger] source_name(std_defs@, src, k1)
                        != #[trigger] source_name(std_defs@, src, k2)
                &&& forall|n: Seq<char>|
                    used.has(n) && library_defines(std_defs@, n) && !old(visited).has(n) ==> exists|k: int|
                        0 <= k < r@.len() && source_name(std_defs@, src, k) == n
            },
{
    let index = index_definitions(std_defs);
    let mut kept: Vec<Expression> = Vec::new();
    let fuel: usize = if index.len() < usize::MAX {
        index.len() + 1
    } else {
        index.len()
    };
    let ghost visited0 = *visited;
    let ghost mut src: Seq<int> = Seq::empty();
    proof {
        assert(kept@.skip(0) =~= kept@);
    }
    let mut u: usize = 0;
    while u < used.items.len()
        invariant
            u <= used.items@.len(),
            fuel > 0,
            index_of(index@, std_defs@),
            forall|x: Seq<char>| visited0.has(x) ==> #[trigger] visited.has(x),
            copies_of_definitions(kept@, std_defs@, src),
            forall|k: int|
                0 <= k < src.len() ==> !visited0.has(#[trigger] source_name(std_defs@, src, k))
                    && visited.has(source_name(std_defs@, src, k)),
            forall|k1: int, k2: int|
                0 <= k1 < k2 < src.len() ==> #[trigger] source_name(std_defs@, src, k1)
                    != #[trigger] source_name(std_defs@, src, k2),
            forall|n: Seq<char>|
                #![trigger visited.has(n)]
                visited.has(n) && !visited0.has(n) && library_defines(std_defs@, n) ==> exists|k: int|
                    0 <= k < src.len() && source_name(std_defs@, src, k) == n,
            forall|i: int| 0 <= i < u ==> visited.has((#[trigger] used.items@[i])@),
        decreases used.items.len() - u,
    {
        let ghost before_kept = kept@;
        let ghost before_visited = *visited;
        let ghost before_src = src;
        let more = visit_definition(&used.items[u], std_defs, &index, &mut kept, visited, fuel);
        proof {
            let m = more@;
            src = before_src + m;
            assert(before_kept.len() == before_src.len());
            assert forall|k: int| 0 <= k < src.len() implies #[trigger] source_name(std_defs@, src, k)
                == if k < before_src.len() {
                    source_name(std_defs@, before_src, k)
                } else {
                    source_name(std_defs@, m, k - before_src.len())
                } by {
            }
            assert(copies_of_definitions(kept@, std_defs@, src)) by {
                assert forall|k: int| 0 <= k < kept@.len() implies 0 <= #[trigger] src[k] < std_defs@.len()
                    && def_name(std_defs@[src[k]]) is Some && shape(kept@[k]) == shape(
                    std_defs@[src[k]],
                ) by {
                    if k < before_src.len() {
                        assert(kept@[k] == before_kept[k]);
                    } else {
                        let j = k - before_src.len();
                        assert(kept@[k] == kept@.skip(before_kept.len() as int)[j]);
                        assert(src[k] == m[j]);
                    }
                }
            }
            assert forall|k1: int, k2: int|
                0 <= k1 < k2 < src.len() implies #[trigger] source_name(std_defs@, src, k1)
                    != #[trigger] source_name(std_defs@, src, k2) by {
                if k2 < before_src.len() {
                } else if k1 < before_src.len() {
                    assert(before_visited.has(source_name(std_defs@, before_src, k1)));
                } else {
                    let j1 = k1 - before_src.len();
                    let j2 = k2 - before_src.len();
                    assert(source_name(std_defs@, m, j1) != source_name(std_defs@, m, j2));
                }
            }
            assert forall|n: Seq<char>|
                #![trigger visited.has(n)]
                visited.has(n) && !visited0.has(n) && library_defines(std_defs@, n) implies exists|k: int|
                    0 <= k < src.len() && source_name(std_defs@, src, k) == n by {
                if before_visited.has(n) {
                    let k = choose|k: int| 0 <= k < before_src.len() && source_name(std_defs@, before_src, k) == n;
                    assert(source_name(std_defs@, src, k) == n);
                } else {
                    let j = choose|j: int| 0 <= j < m.len() && source_name(std_defs@, m, j) == n;
                    assert(source_name(std_defs@, src, before_src.len() + j) == n);
                }
            }
            assert forall|i: int| 0 <= i < u + 1 implies visited.has((#[trigger] used.items@[i])@) by {
                if i < u {
                    assert(before_visited.has(used.items@[i]@));
                }
            }
        }
        u += 1;
    }
    proof {
        assert forall|n: Seq<char>|
            used.has(n) && library_defines(std_defs@, n) && !visited0.has(n) implies exists|k: int|
                0 <= k < kept@.len() && source_name(std_defs@, src, k) == n by {
            let i = choose|i: int| 0 <= i < used.items@.len() && (#[trigger] used.items@[i])@ == n;
            assert(visited.has(used.items@[i]@));
        }
    }
    kept
}

/// The name a top-level `let`, `let*` or `mut` form defines.
pub open spec fn top_definition(e: Sexp) -> Option<Seq<char>> {
    match e {
        Sexp::List(l) => if l.len() >= 2 && (l[0] == Sexp::Word("let"@) || l[0] == Sexp::Word("let*"@)
            || l[0] == Sexp::Word("mut"@)) && l[1] is Word {
            Some(l[1]->Word_0)
        } else {
            None
        },
        _ => None,
    }
}

/// The names the forms define at top level.
pub open spec fn defined_names(forms: Seq<Sexp>) -> Set<Seq<char>> {
    Set::new(|n: Seq<char>| exists|k: int| 0 <= k < forms.len() && top_definition(#[trigger] forms[k]) == Some(n))
}

/// The identifiers the forms use freely, each form read on its own.
pub open spec fn used_names(forms: Seq<Sexp>) -> Set<Seq<char>> {
    Set::new(
        |n: Seq<char>|
            exists|k: int| 0 <= k < forms.len() && free_idents(#[trigger] forms[k], Set::empty()).0.contains(n),
    )
}

/// The name a library definition `(let name ...)` defines, by its shape.
pub open spec fn let_name(s: Sexp) -> Option<Seq<char>> {
    match s {
        Sexp::List(l) => if l.len() >= 2 && l[0] == Sexp::Word("let"@) && l[1] is Word {
            Some(l[1]->Word_0)
        } else {
            None
        },
        _ => None,
    }
}

/// `kept` is what tree shaking keeps of the library definitions `defs` for
/// the names `used`, skipping the names in `skip`: each is one of the
/// definitions, of a name not in `skip`, no name twice, and every used
/// name the library defines and `skip` does not hold is kept.
pub open spec fn shaken(kept: Seq<Sexp>, defs: Seq<Sexp>, used: Set<Seq<char>>, skip: Set<Seq<char>>) -> bool {
    exists|src: Seq<int>|
        {
            &&& src.len() == kept.len()
            &&& forall|k: int|
                0 <= k < kept.len() ==> 0 <= #[trigger] src[k] < defs.len() && kept[k] == defs[src[k]]
                    && let_name(kept[k]) is Some && !skip.contains(let_name(kept[k])->0)
            &&& forall|k1: int, k2: int|
                0 <= k1 < k2 < kept.len() ==> #[trigger] let_name(kept[k1]) != #[trigger] let_name(kept[k2])
            &&& forall|n: Seq<char>|
                used.contains(n) && (exists|j: int| 0 <= j < defs.len() && #[trigger] let_name(defs[j]) == Some(n))
                    && !skip.contains(n) ==> exists|k: int| 0 <= k < kept.len() && let_name(kept[k]) == Some(n)
        }
}

/// The library forms desugared, the program's forms desugared, and the
/// program's top level with its destructuring `let`s expanded; `None` when
/// the program does not read, a form does not desugar, or the program
/// binds a reserved name.
pub open spec fn merge_parts(src: Seq<char>, std: Seq<Sexp>) -> Option<(Seq<Sexp>, Seq<Sexp>, Seq<Sexp>)> {
    match program_forms(src) {
        None => None,
        Some(forms) => merge_expanded(flat_dos(forms), std),
    }
}

/// The parts of the merge of a program and a library whose macros are
/// expanded: the library forms desugared, the program's forms desugared,
/// and the program's top level with its destructuring `let`s expanded;
/// `None` when a form does not desugar or the program binds a reserved
/// name.
pub open spec fn merge_expanded(prog: Seq<Sexp>, lib: Seq<Sexp>) -> Option<(Seq<Sexp>, Seq<Sexp>, Seq<Sexp>)> {
    match desugared_all(lib, 0, 0, Seq::empty()) {
        None => None,
        Some((dstd, c1)) => match desugared_all(prog, 0, c1, Seq::empty()) {
            None => None,
            Some((dprog, c2)) => if exists|k: int| 0 <= k < dprog.len() && #[trigger] reserved_binder(dprog[k]) {
                None
            } else {
                match let_destructure_from(dprog, 0, c2, Seq::empty()) {
                    None => None,
                    Some((top, c3)) => Some((dstd, dprog, top)),
                }
            },
        },
    }
}

/// What merging gives once the program reads: the failure of the macros,
/// or the parts of the merge of the expanded program and library.
pub open spec fn merge_outcome(forms: Seq<Sexp>, std: Seq<Sexp>) -> Result<
    Option<(Seq<Sexp>, Seq<Sexp>, Seq<Sexp>)>,
    Seq<char>,
> {
    match prepared(forms, std) {
        Err(m) => Err(m),
        Ok((p, l)) => Ok(merge_expanded(p, l)),
    }
}

/// `result` is one `(do ...)` of the library definitions the program needs,
/// then the program's top level.
pub open spec fn merged_as(result: Sexp, parts: (Seq<Sexp>, Seq<Sexp>, Seq<Sexp>)) -> bool {
    exists|kept: Seq<Sexp>|
        result == runtime_do(kept + parts.2) && #[trigger] shaken(
            kept,
            parts.0,
            used_names(parts.1),
            defined_names(parts.1),
        )
}

proof fn lemma_def_name_shape(e: Expression)
    ensures
        def_name(e) == let_name(shape(e)),
{
    if let Expression::Apply(list) = e {
        lemma_shapes(list@);
    }
}

/// What `tree_shake` keeps, read by shape.
proof fn lemma_shaken(
    kept: Seq<Expression>,
    defs: Seq<Expression>,
    used: TextSet,
    visited0: TextSet,
    visited1: TextSet,
)
    requires
        exists|src: Seq<int>|
            {
                &&& copies_of_definitions(kept, defs, src)
                &&& forall|k: int|
                    0 <= k < kept.len() ==> !visited0.has(#[trigger] source_name(defs, src, k))
                        && visited1.has(source_name(defs, src, k))
                &&& forall|k1: int, k2: int|
                    0 <= k1 < k2 < kept.len() ==> #[trigger] source_name(defs, src, k1)
                        != #[trigger] source_name(defs, src, k2)
                &&& forall|n: Seq<char>|
                    used.has(n) && library_defines(defs, n) && !visited0.has(n) ==> exists|k: int|
                        0 <= k < kept.len() && source_name(defs, src, k) == n
            },
    ensures
        shaken(shapes(kept), shapes(defs), members(used), members(visited0)),
{
    let src = choose|src: Seq<int>|
        {
            &&& copies_of_definitions(kept, defs, src)
            &&& forall|k: int|
                0 <= k < kept.len() ==> !visited0.has(#[trigger] source_name(defs, src, k))
                    && visited1.has(source_name(defs, src, k))
            &&& forall|k1: int, k2: int|
                0 <= k1 < k2 < kept.len() ==> #[trigger] source_name(defs, src, k1)
                    != #[trigger] source_name(defs, src, k2)
            &&& forall|n: Seq<char>|
                used.has(n) && library_defines(defs, n) && !visited0.has(n) ==> exists|k: int|
                    0 <= k < kept.len() && source_name(defs, src, k) == n
        };
    lemma_shapes(kept);
    lemma_shapes(defs);
    let ks = shapes(kept);
    let ds = shapes(defs);
    assert forall|k: int| 0 <= k < kept.len() implies #[trigger] let_name(ks[k]) == Some(
        source_name(defs, src, k),
    ) by {
        lemma_def_name_shape(defs[src[k]]);
    }
    assert forall|k: int| 0 <= k < ks.len() implies 0 <= #[trigger] src[k] < ds.len() && ks[k] == ds[src[k]]
        && let_name(ks[k]) is Some && !members(visited0).contains(let_name(ks[k])->0) by {
        assert(let_name(ks[k]) == Some(source_name(defs, src, k)));
    }
    assert forall|k1: int, k2: int| 0 <= k1 < k2 < ks.len() implies #[trigger] let_name(ks[k1])
        != #[trigger] let_name(ks[k2]) by {
        assert(let_name(ks[k1]) == Some(source_name(defs, src, k1)));
        assert(let_name(ks[k2]) == Some(source_name(defs, src, k2)));
    }
    assert forall|n: Seq<char>|
        members(used).contains(n) && (exists|j: int| 0 <= j < ds.len() && #[trigger] let_name(ds[j]) == Some(n))
            && !members(visited0).contains(n) implies exists|k: int| 0 <= k < ks.len() && let_name(ks[k]) == Some(n) by {
        let j = choose|j: int| 0 <= j < ds.len() && #[trigger] let_name(ds[j]) == Some(n);
        lemma_def_name_shape(defs[j]);
        assert(def_name(defs[j]) == Some(n));
        assert(library_defines(defs, n));
        let k = choose|k: int| 0 <= k < kept.len() && source_name(defs, src, k) == n;
        assert(let_name(ks[k]) == Some(n));
    }
}

/// Reads, expands and desugars a program together with a standard library,
/// keeping only the library definitions the program uses; the result is one
/// `(do ...)` of the kept definitions and the program's forms.  Source that
/// does not read is refused, and a failure of the macros is reported as
/// such.  When neither the program nor the library defines macros or uses
/// compile-time forms, the merge is of the forms themselves.
pub fn merge_std_and_program(program: &str, std: Vec<Expression>) -> (r: Result<Expression, String>)
    ensures
        program_forms(program@) is None ==> r is Err,
        program_forms(program@) matches Some(forms) ==> match merge_outcome(forms, shapes(std@)) {
            Err(m) => r matches Err(e) && e@ == m,
            Ok(parts) => (r is Ok <==> parts is Some) && (r matches Ok(e) ==> merged_as(
                shape(e),
                parts->0,
            )),
        },
        without_macros(program@) && macro_free(shapes(std@)) ==> (r is Ok <==> merge_parts(
            program@,
            shapes(std@),
        ) is Some),
        without_macros(program@) && macro_free(shapes(std@)) ==> (r matches Ok(e) ==> merged_as(
            shape(e),
            merge_parts(program@, shapes(std@))->0,
        )),
{
    let text = text_of(program);
    match merge_text(&text, std) {
        Ok(e) => Ok(e),
        Err(e) => Err(text_to_string(&e)),
    }
}

/// Desugars each form in turn, sharing the id counter.
fn desugar_forms(forms: &Vec<Expression>, binding_counter: &mut usize) -> (r: Result<Vec<Expression>, Vec<char>>)
    ensures
        r is Ok <==> desugared_all(shapes(forms@), 0, *old(binding_counter), Seq::empty()) is Some,
        r matches Ok(v) ==> desugared_all(shapes(forms@), 0, *old(binding_counter), Seq::empty()) == Some(
            (shapes(v@), *final(binding_counter)),
        ),
{
    proof {
        lemma_shapes(forms@);
        assert(shapes(Seq::<Expression>::empty()) =~= Seq::<Sexp>::empty());
    }
    let ghost c0 = *binding_counter;
    let mut out: Vec<Expression> = Vec::new();
    let mut i: usize = 0;
    while i < forms.len()
        invariant
            i <= forms@.len(),
            shapes(forms@).len() == forms@.len(),
            forall|m: int| 0 <= m < forms@.len() ==> #[trigger] shapes(forms@)[m] == shape(forms@[m]),
            desugared_all(shapes(forms@), 0, c0, Seq::empty()) == desugared_all(
                shapes(forms@),
                i as int,
                *binding_counter,
                shapes(out@),
            ),
        decreases forms.len() - i,
    {
        let d = desugar_with_counter(&forms[i], binding_counter)?;
        proof {
            lemma_shapes_push(out@, d);
        }
        out.push(d);
        i += 1;
    }
    Ok(out)
}

/// Rejects forms that bind a reserved name.
fn check_binders(forms: &Vec<Expression>) -> (r: Result<(), Vec<char>>)
    ensures
        r is Ok <==> !exists|k: int| 0 <= k < shapes(forms@).len() && #[trigger] reserved_binder(shapes(forms@)[k]),
{
    proof {
        lemma_shapes(forms@);
    }
    let ghost fs = shapes(forms@);
    let mut i: usize = 0;
    while i < forms.len()
        invariant
            i <= forms@.len(),
            fs == shapes(forms@),
            fs.len() == forms@.len(),
            forall|m: int| 0 <= m < forms@.len() ==> #[trigger] fs[m] == shape(forms@[m]),
            forall|m: int| 0 <= m < i ==> !#[trigger] reserved_binder(fs[m]),
        decreases forms.len() - i,
    {
        let checked = validate_reserved_words_in_binders(&forms[i]);
        if checked.is_err() {
            proof {
                assert(reserved_binder(fs[i as int]));
            }
            return checked;
        }
        i += 1;
    }
    Ok(())
}

/// The identifiers the forms use freely, each form read on its own.
fn used_identifiers(forms: &Vec<Expression>) -> (r: TextSet)
    ensures
        members(r) == used_names(shapes(forms@)),
{
    proof {
        lemma_shapes(forms@);
    }
    let ghost fs = shapes(forms@);
    let mut used = TextSet::new();
    let mut i: usize = 0;
    while i < forms.len()
        invariant
            i <= forms@.len(),
            fs == shapes(forms@),
            fs.len() == forms@.len(),
            forall|m: int| 0 <= m < forms@.len() ==> #[trigger] fs[m] == shape(forms@[m]),
            forall|x: Seq<char>| #[trigger] used.has(x) == exists|k: int|
                0 <= k < i && free_idents(#[trigger] fs[k], Set::empty()).0.contains(x),
        decreases forms.len() - i,
    {
        let mut scoped = TextSet::new();
        proof {
            assert(members(scoped) =~= Set::<Seq<char>>::empty());
        }
        collect_free_idents(&forms[i], &mut scoped, &mut used);
        proof {
            assert forall|x: Seq<char>| #[trigger] used.has(x) == exists|k: int|
                0 <= k < i + 1 && free_idents(#[trigger] fs[k], Set::empty()).0.contains(x) by {
                if free_idents(fs[i as int], Set::empty()).0.contains(x) {
                    assert(0 <= i < i + 1);
                }
            }
        }
        i += 1;
    }
    proof {
        assert(members(used) =~= used_names(fs));
    }
    used
}

/// The names the forms define at top level; none of them is reserved.
fn definition_names(forms: &Vec<Expression>) -> (r: TextSet)
    requires
        !exists|k: int| 0 <= k < shapes(forms@).len() && #[trigger] reserved_binder(shapes(forms@)[k]),
    ensures
        members(r) == defined_names(shapes(forms@)),
{
    proof {
        lemma_shapes(forms@);
    }
    let ghost fs = shapes(forms@);
    let mut definitions = TextSet::new();
    let mut i: usize = 0;
    while i < forms.len()
        invariant
            i <= forms@.len(),
            fs == shapes(forms@),
            fs.len() == forms@.len(),
            forall|m: int| 0 <= m < forms@.len() ==> #[trigger] fs[m] == shape(forms@[m]),
            forall|m: int| 0 <= m < forms@.len() ==> !#[trigger] reserved_binder(fs[m]),
            forall|x: Seq<char>| #[trigger] definitions.has(x) == exists|k: int|
                0 <= k < i && top_definition(#[trigger] fs[k]) == Some(x),
        decreases forms.len() - i,
    {
        if let Expression::Apply(list) = &forms[i] {
            proof {
                lemma_shapes(list@);
                if list@.len() > 0 {
                    lemma_head_shape(list@, "let"@);
                    lemma_head_shape(list@, "let*"@);
                    lemma_head_shape(list@, "mut"@);
                }
            }
            if list.len() >= 2 && (head_is(list, "let") || head_is(list, "let*") || head_is(
                list,
                "mut",
            )) {
                if let Expression::Word(name) = &list[1] {
                    assert(top_definition(fs[i as int]) == Some(name@));
                    proof {
                        if reserved_word(name@) {
                            assert(binds_reserved_here(shapes(list@)));
                            assert(reserved_binder(fs[i as int]));
                        }
                    }
                    definitions.insert(copy_text(name));
                }
            }
        }
        proof {
            assert forall|x: Seq<char>| #[trigger] definitions.has(x) == exists|k: int|
                0 <= k < i + 1 && top_definition(#[trigger] fs[k]) == Some(x) by {
                if top_definition(fs[i as int]) == Some(x) {
                    assert(0 <= i < i + 1);
                }
            }
        }
        i += 1;
    }
    proof {
        assert(members(definitions) =~= defined_names(fs));
    }
    definitions
}

/// Merges a program and a library whose macros are expanded: both are
/// desugared, the program checked for reserved binders, the library
/// shaken down to what the program uses, and the program's destructuring
/// `let`s expanded.
#[verifier::spinoff_prover]
#[verifier::rlimit(100)]
fn merge_forms(exprs: Vec<Expression>, std: Vec<Expression>) -> (r: Result<Expression, Vec<char>>)
    ensures
        r is Ok <==> merge_expanded(shapes(exprs@), shapes(std@)) is Some,
        r matches Ok(e) ==> merged_as(shape(e), merge_expanded(shapes(exprs@), shapes(std@))->0),
{
    let ghost p_exp = shapes(exprs@);
    let ghost l_exp = shapes(std@);
    let mut binding_counter: usize = 0;
    let desugared_std = desugar_forms(&std, &mut binding_counter)?;
    let ghost c1 = binding_counter;
    let desugared = desugar_forms(&exprs, &mut binding_counter)?;
    let ghost c2 = binding_counter;
    let ghost dstd = shapes(desugared_std@);
    let ghost dprog = shapes(desugared@);
    assert(desugared_all(l_exp, 0, 0, Seq::empty()) == Some((dstd, c1)));
    assert(desugared_all(p_exp, 0, c1, Seq::empty()) == Some((dprog, c2)));
    let checked = check_binders(&desugared);
    if checked.is_err() {
        proof {
            assert(merge_expanded(p_exp, l_exp) is None);
        }
        return Err(checked.unwrap_err());
    }
    let used = used_identifiers(&desugared);
    let mut definitions = definition_names(&desugared);
    let ghost visited0 = definitions;
    let shaken_std = tree_shake(&desugared_std, &used, &mut definitions);
    proof {
        lemma_shaken(shaken_std@, desugared_std@, used, visited0, definitions);
    }
    let top_level = transform_let_destructuring_in_do(&desugared, &mut binding_counter)?;
    let mut all = shaken_std;
    let ghost gall = all@;
    let ghost gtop = top_level@;
    let mut rest = top_level;
    all.append(&mut rest);
    proof {
        lemma_shapes_concat(gall, gtop);
    }
    let result = wrap_runtime_top_level_do(all);
    proof {
        let parts = (dstd, dprog, shapes(gtop));
        assert(merge_expanded(p_exp, l_exp) == Some(parts));
        assert(shape(result) == runtime_do(shapes(gall) + shapes(gtop)));
        assert(shaken(shapes(gall), dstd, used_names(dprog), defined_names(dprog)));
        assert(shaken(shapes(gall), parts.0, used_names(parts.1), defined_names(parts.1)));
        assert(shape(result) == runtime_do(shapes(gall) + parts.2));
        assert(merged_as(shape(result), parts));
    }
    Ok(result)
}

fn merge_text(program: &Vec<char>, std: Vec<Expression>) -> (r: Result<Expression, Vec<char>>)
    ensures
        program_forms(program@) is None ==> r is Err,
        program_forms(program@) matches Some(forms) ==> match merge_outcome(forms, shapes(std@)) {
            Err(m) => r matches Err(e) && e@ == m,
            Ok(parts) => (r is Ok <==> parts is Some) && (r matches Ok(e) ==> merged_as(
                shape(e),
                parts->0,
            )),
        },
        without_macros(program@) && macro_free(shapes(std@)) ==> (r is Ok <==> merge_parts(
            program@,
            shapes(std@),
        ) is Some),
        without_macros(program@) && macro_free(shapes(std@)) ==> (r matches Ok(e) ==> merged_as(
            shape(e),
            merge_parts(program@, shapes(std@))->0,
        )),
{
    let ghost std0 = shapes(std@);
    let preprocessed = preprocess(program)?;
    let exprs = parse_text(&preprocessed)?;
    let ghost forms = shapes(exprs@);
    assert(program_forms(program@) == Some(forms));
    let ghost plain = without_macros(program@) && macro_free(std0);
    let prepared_forms = prepare_program_with_macros(exprs, std);
    let (exprs, std) = match prepared_forms {
        Ok(x) => x,
        Err(e) => {
            return Err(e);
        },
    };
    let ghost p_exp = shapes(exprs@);
    let ghost l_exp = shapes(std@);
    assert(prepared(forms, std0) == Ok::<(Seq<Sexp>, Seq<Sexp>), Seq<char>>((p_exp, l_exp)));
    assert(plain ==> p_exp == flat_dos(forms) && l_exp == std0);
    assert(plain ==> merge_parts(program@, std0) == merge_expanded(p_exp, l_exp));
    merge_forms(exprs, std)
}

} // verus!
