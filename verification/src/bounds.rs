//! The static checks: vector accesses, divisions and Int arithmetic that the
//! facts at their program point do not prove safe are reported.
use vstd::prelude::*;
use crate::text::{copy_text, push_str, push_text, text_eq, text_is, text_less};
use crate::expr::{
    Expression, Sexp, copy_expr, head_is, is_word, word_of, lisp_text, sexp_text, shape, shapes,
    lemma_shapes, lemma_lisp_text_shape, lemma_head_words, lemma_operator_words_differ,
};
use crate::interval::{IntInterval, I32_MAX, I32_MIN, integer_arithmetic_interval, arithmetic_interval_spec};
use crate::facts::{PairSet, TextMap, TextSet, has_prefix};
use crate::state::{
    AbstractState, Summaries, join_states, product_lower_is_safe, product_upper_is_safe,
    same_state, blank, upper_safe, lower_safe,
};
use crate::numeric::{
    access_text, scalar_text, atom_value, operand_interval, known_range,
    affine_interval, canonical_access, canonical_product_pair, canonical_scalar,
    divisor_is_proven_nonzero, divisor_proven, expression_is_nonnegative, integer_constant, integer_interval,
    literal_vector_length, exact_result, fits_int, ring_operator, vector_word, literal_operands,
    literal_length, checked_result,
};
use crate::guards::{grows, length_argument, length_of, plain_index_nonnegative, state_for_false_branch, state_for_true_branch};

verus! {

/// A message of one of the analysis's three kinds: a bounds, an arithmetic
/// or a termination finding.
pub open spec fn categorized(m: Seq<char>) -> bool {
    has_prefix(m, "static bounds: "@) || has_prefix(m, "static arithmetic: "@) || has_prefix(
        m,
        "termination: "@,
    )
}

/// Every message is of one of the three kinds.
pub open spec fn all_categorized(d: Seq<Vec<char>>) -> bool {
    forall|i: int| 0 <= i < d.len() ==> categorized(#[trigger] d[i]@)
}

/// No message occurs twice.
pub open spec fn distinct_messages(d: Seq<Vec<char>>) -> bool {
    forall|i: int, j: int| 0 <= i < j < d.len() ==> (#[trigger] d[i])@ != (#[trigger] d[j])@
}

/// The texts of a list of messages.
pub open spec fn views(d: Seq<Vec<char>>) -> Seq<Seq<char>> {
    d.map_values(|m: Vec<char>| m@)
}

/// The messages `d` after recording `m`, if any: a message already there is
/// not recorded again.
pub open spec fn with_message(d: Seq<Seq<char>>, m: Option<Seq<char>>) -> Seq<Seq<char>> {
    match m {
        None => d,
        Some(m) => if d.contains(m) {
            d
        } else {
            d.push(m)
        },
    }
}

/// A message of the analysis: the heading of its kind (bounds or
/// arithmetic), what was found, the form in backquotes, and a help line.
pub open spec fn report(bounds: bool, head: Seq<char>, form: Seq<char>, help: Seq<char>) -> Seq<char> {
    (if bounds {
        "static bounds: "@
    } else {
        "static arithmetic: "@
    }) + head + seq!['`'] + form + "`\nhelp: "@ + help
}

/// What is reported of `(op a b)` for `+`, `-` or `*` on two Int literals,
/// rendered as `form`: nothing when the exact result is an Int, else that it
/// overflows or underflows.
pub open spec fn arithmetic_outcome(op: Seq<char>, a: int, b: int, form: Seq<char>) -> Option<
    Seq<char>,
> {
    let v = exact_result(op, a, b);
    if fits_int(v) {
        None
    } else {
        Some(
            report(
                false,
                if v > I32_MAX {
                    "Int overflow possible: "@
                } else {
                    "Int underflow possible: "@
                },
                form,
                "constrain the operands to keep the result within 32-bit Int range"@,
            ),
        )
    }
}

/// What is reported of `(/ a b)` or `(% a b)` on two Int literals: a zero
/// divisor, or the one quotient that leaves the Int range.
pub open spec fn division_outcome(op: Seq<char>, a: int, b: int, form: Seq<char>) -> Option<
    Seq<char>,
> {
    if b == 0 {
        Some(report(false, "divisor may be zero: "@, form, "guard it with `(not (= divisor 0))`"@))
    } else if op == "/"@ && a == I32_MIN && b == -1 {
        Some(report(false, "Int overflow: "@, form, "minimum Int cannot be divided by -1"@))
    } else {
        None
    }
}

/// What is reported of `(get xs i)` on a literal vector of `n` elements.
pub open spec fn get_outcome(i: int, n: int, form: Seq<char>) -> Option<Seq<char>> {
    if 0 <= i < n {
        None
    } else {
        Some(
            report(
                true,
                "index not proven safe: "@,
                form,
                "guard it with `(and (>= index 0) (< index (length xs)))`"@,
            ),
        )
    }
}

/// What is reported of `(set! xs i x)` on a literal vector of `n`
/// elements: replacing an element or appending at the end is safe.
pub open spec fn set_outcome(i: int, n: int, form: Seq<char>) -> Option<Seq<char>> {
    if 0 <= i <= n {
        None
    } else {
        Some(
            report(
                true,
                "set! index not proven safe: "@,
                form,
                "guard replacement with `0 <= index < length`, or append at `(length xs)`"@,
            ),
        )
    }
}

/// What is reported of `(car xs)` or `(pop-val! xs)` on a literal vector
/// of `n` elements.
pub open spec fn first_element_outcome(n: int, form: Seq<char>) -> Option<Seq<char>> {
    if n > 0 {
        None
    } else {
        Some(report(true, "vector may be empty: "@, form, "guard it with `(> (length xs) 0)`"@))
    }
}

/// Not a list: a number, a decimal or a word.
pub open spec fn atom(e: Sexp) -> bool {
    !(e is List)
}

/// The number of elements of a literal vector whose elements are atoms.
pub open spec fn literal_vector_size(e: Sexp) -> Option<int> {
    match e {
        Sexp::List(items) => if items.len() > 0 && items[0] is Word && vector_word(items[0]->Word_0)
            && forall|k: int| 1 <= k < items.len() ==> atom(#[trigger] items[k]) {
            Some(items.len() - 1)
        } else {
            None
        },
        _ => None,
    }
}

/// For a form over literals that the analysis decides without any facts,
/// the message it reports: `Some(None)` when it reports nothing.  Such a
/// form is arithmetic or a division on two Int literals, or `get`, `set!`,
/// `car`, `pop-val!` or `pop!` on a literal vector with an Int literal index.
pub open spec fn literal_form_message(f: Sexp) -> Option<Option<Seq<char>>> {
    match f {
        Sexp::List(items) => if items.len() == 3 && items[0] is Word && items[1] is Int
            && items[2] is Int && ring_operator(items[0]->Word_0) {
            Some(
                arithmetic_outcome(items[0]->Word_0, items[1]->Int_0, items[2]->Int_0, sexp_text(f)),
            )
        } else if items.len() == 3 && items[0] is Word && items[1] is Int && items[2] is Int && (
        items[0]->Word_0 == "/"@ || items[0]->Word_0 == "%"@) {
            Some(
                division_outcome(items[0]->Word_0, items[1]->Int_0, items[2]->Int_0, sexp_text(f)),
            )
        } else if items.len() == 3 && items[0] == Sexp::Word("get"@) && literal_vector_size(
            items[1],
        ) is Some && items[2] is Int {
            Some(get_outcome(items[2]->Int_0, literal_vector_size(items[1])->0, sexp_text(f)))
        } else if items.len() == 4 && items[0] == Sexp::Word("set!"@) && literal_vector_size(
            items[1],
        ) is Some && items[2] is Int && atom(items[3]) {
            Some(set_outcome(items[2]->Int_0, literal_vector_size(items[1])->0, sexp_text(f)))
        } else if items.len() == 2 && (items[0] == Sexp::Word("car"@) || items[0] == Sexp::Word(
            "pop-val!"@,
        )) && literal_vector_size(items[1]) is Some {
            Some(first_element_outcome(literal_vector_size(items[1])->0, sexp_text(f)))
        } else if items.len() == 2 && items[0] == Sexp::Word("pop!"@) && literal_vector_size(
            items[1],
        ) is Some {
            Some(None)
        } else {
            None
        },
        _ => None,
    }
}

/// Adds a message unless it was reported already.
pub fn record_diagnostic(diagnostics: &mut Vec<Vec<char>>, message: Vec<char>)
    requires
        distinct_messages(old(diagnostics)@),
        all_categorized(old(diagnostics)@),
        categorized(message@),
    ensures
        distinct_messages(final(diagnostics)@),
        all_categorized(final(diagnostics)@),
        old(diagnostics)@.is_prefix_of(final(diagnostics)@),
        exists|i: int|
            0 <= i < final(diagnostics)@.len() && (#[trigger] final(diagnostics)@[i])@ == message@,
        final(diagnostics)@.len() <= old(diagnostics)@.len() + 1,
        views(final(diagnostics)@) == with_message(views(old(diagnostics)@), Some(message@)),
        grows(views(old(diagnostics)@), views(final(diagnostics)@)),
        views(final(diagnostics)@).contains(message@),
{
    let mut i: usize = 0;
    while i < diagnostics.len()
        invariant
            i <= diagnostics.len(),
            forall|j: int| 0 <= j < i ==> (#[trigger] diagnostics@[j])@ != message@,
        decreases diagnostics.len() - i,
    {
        if text_eq(&diagnostics[i], &message) {
            assert(old(diagnostics)@.is_prefix_of(diagnostics@));
            assert(views(diagnostics@)[i as int] == message@);
            assert(views(diagnostics@).contains(message@));
            return;
        }
        i += 1;
    }
    let ghost m = message@;
    assert(!views(diagnostics@).contains(m));
    diagnostics.push(message);
    assert(diagnostics@[diagnostics@.len() - 1]@ == m);
    assert(old(diagnostics)@.is_prefix_of(diagnostics@));
    assert(views(diagnostics@) =~= views(old(diagnostics)@).push(m));
    assert(views(diagnostics@)[diagnostics@.len() - 1] == m);
}

/// A message present in a list is present in every list that grows from it.
pub proof fn lemma_grows_contains(a: Seq<Seq<char>>, b: Seq<Seq<char>>, m: Seq<char>)
    requires
        grows(a, b),
        a.contains(m),
    ensures
        b.contains(m),
{
    let j = choose|j: int| 0 <= j < a.len() && a[j] == m;
    assert(b[j] == m);
}

/// Help line of an unproven index.
pub open spec fn get_help() -> Seq<char> {
    "guard it with `(and (>= index 0) (< index (length xs)))`"@
}

/// Without aliases, the canonical text of an expression does not depend on
/// which empty alias map is meant.
proof fn lemma_scalar_text_unaliased(e: Expression, a: TextMap<Vec<char>>, b: TextMap<Vec<char>>)
    requires
        forall|k: Seq<char>| !a.has_key(k),
        forall|k: Seq<char>| !b.has_key(k),
    ensures
        scalar_text(e, a) == scalar_text(e, b),
    decreases e,
{
    match e {
        Expression::Apply(items) => {
            lemma_scalar_items_unaliased(items@, a, b);
        },
        _ => {},
    }
}

/// The same for the joined texts of a list of expressions.
proof fn lemma_scalar_items_unaliased(s: Seq<Expression>, a: TextMap<Vec<char>>, b: TextMap<Vec<char>>)
    requires
        forall|k: Seq<char>| !a.has_key(k),
        forall|k: Seq<char>| !b.has_key(k),
    ensures
        crate::numeric::scalar_items(s, a) == crate::numeric::scalar_items(s, b),
    decreases s,
{
    if s.len() == 1 {
        lemma_scalar_text_unaliased(s[0], a, b);
    } else if s.len() > 1 {
        lemma_scalar_items_unaliased(s.drop_last(), a, b);
        lemma_scalar_text_unaliased(s.last(), a, b);
    }
}

/// Without any facts, the known range of an expression does not depend on
/// which empty state is meant.
proof fn lemma_known_range_blank(e: Expression, a: AbstractState, b: AbstractState)
    requires
        blank(a),
        blank(b),
    ensures
        known_range(e, a) == known_range(e, b),
    decreases e,
{
    match e {
        Expression::Apply(items) => {
            if items@.len() == 3 {
                assert(decreases_to!(e => items@[1]));
                assert(decreases_to!(e => items@[2]));
                lemma_known_range_blank(items@[1], a, b);
                lemma_known_range_blank(items@[2], a, b);
                lemma_scalar_text_unaliased(items@[1], a.scalar_aliases, b.scalar_aliases);
                lemma_scalar_text_unaliased(items@[2], a.scalar_aliases, b.scalar_aliases);
                if a.leq_pairs.items@.len() > 0 {
                    assert(a.leq_pairs.has(a.leq_pairs.items@[0].0@, a.leq_pairs.items@[0].1@));
                }
                if b.leq_pairs.items@.len() > 0 {
                    assert(b.leq_pairs.has(b.leq_pairs.items@[0].0@, b.leq_pairs.items@[0].1@));
                }
            }
        },
        Expression::Word(name) => {
            assert(!a.integer_ranges.has_key(scalar_text(e, a.scalar_aliases)));
            assert(!b.integer_ranges.has_key(scalar_text(e, b.scalar_aliases)));
            assert(!a.integer_ranges.has_key(name@) && !b.integer_ranges.has_key(name@));
            assert(!a.integer_constants.has_key(name@) && !b.integer_constants.has_key(name@));
            assert(!a.nonnegative.has(name@) && !b.nonnegative.has(name@));
        },
        _ => {},
    }
}

/// Without any facts, the messages an operation owes do not depend on which
/// empty state is meant.
pub proof fn lemma_owed_blank(e: Expression, a: AbstractState, b: AbstractState)
    requires
        blank(a),
        blank(b),
    ensures
        owed_messages(e, a) == owed_messages(e, b),
{
    match e {
        Expression::Apply(items) => {
            if items@.len() > 0 {
                if items@.len() >= 3 {
                    match length_of(items@[2]) {
                        Some(v) => {
                            crate::guards::lemma_access_text_same(v, a.aliases, b.aliases);
                            crate::guards::lemma_access_text_same(items@[1], a.aliases, b.aliases);
                        },
                        None => {},
                    }
                }
                if items@.len() == 3 {
                    assert(difference_overflow(e, a) == difference_overflow(e, b)) by {
                        if a.leq_pairs.items@.len() > 0 {
                            assert(a.leq_pairs.has(a.leq_pairs.items@[0].0@, a.leq_pairs.items@[0].1@));
                        }
                        if b.leq_pairs.items@.len() > 0 {
                            assert(b.leq_pairs.has(b.leq_pairs.items@[0].0@, b.leq_pairs.items@[0].1@));
                        }
                    }
                    assert(product_overflow(e, a) == product_overflow(e, b)) by {
                        lemma_known_range_blank(items@[1], a, b);
                        lemma_known_range_blank(items@[2], a, b);
                        lemma_scalar_text_unaliased(items@[1], a.scalar_aliases, b.scalar_aliases);
                        lemma_scalar_text_unaliased(items@[2], a.scalar_aliases, b.scalar_aliases);
                        let x = scalar_text(items@[1], a.scalar_aliases);
                        let y = scalar_text(items@[2], a.scalar_aliases);
                        assert(!a.integer_ranges.has_key(x) && !a.integer_ranges.has_key(y));
                        assert(!b.integer_ranges.has_key(x) && !b.integer_ranges.has_key(y));
                        assert(!a.integer_constants.has_key(x) && !a.integer_constants.has_key(y));
                        assert(!b.integer_constants.has_key(x) && !b.integer_constants.has_key(y));
                        assert(!a.product_upper_safe.has(x, y) && !a.product_upper_safe.has(y, x));
                        assert(!b.product_upper_safe.has(x, y) && !b.product_upper_safe.has(y, x));
                        assert(!a.product_lower_safe.has(x, y) && !a.product_lower_safe.has(y, x));
                        assert(!b.product_lower_safe.has(x, y) && !b.product_lower_safe.has(y, x));
                    }
                }
            }
        },
        _ => {},
    }
}

/// The heading of the message that `(+ a b)` owes when its operands are
/// constants whose known ranges are exactly their values, no affine bound is
/// recorded, and the sum leaves the Int range: an overflow above it, an
/// underflow below it.
pub open spec fn sum_overflow(e: Expression, s: AbstractState) -> Option<Seq<char>> {
    match e {
        Expression::Apply(items) => if items@.len() == 3 && items@[0] is Word && items@[0]->Word_0@ == "+"@
            && atom_value(items@[1], s) is Some && atom_value(items@[2], s) is Some
            && s.affine_upper_bounds.entries@.len() == 0 {
            let x = atom_value(items@[1], s)->0;
            let y = atom_value(items@[2], s)->0;
            if operand_interval(items@[1], s) == Some(IntInterval { min: x as i64, max: x as i64 })
                && operand_interval(items@[2], s) == Some(IntInterval { min: y as i64, max: y as i64 }) {
                if x + y > I32_MAX {
                    Some("Int overflow possible: "@)
                } else if x + y < I32_MIN {
                    Some("Int underflow possible: "@)
                } else {
                    None
                }
            } else {
                None
            }
        } else {
            None
        },
        _ => None,
    }
}

/// The heading of the message that `(- a b)` owes when its operands are
/// two different constants whose known ranges are exactly their values, no
/// affine bound and no ordering between names is recorded, and the
/// difference leaves the Int range: an overflow above it, an underflow below
/// it.
pub open spec fn difference_overflow(e: Expression, s: AbstractState) -> Option<Seq<char>> {
    match e {
        Expression::Apply(items) => if items@.len() == 3 && items@[0] is Word && items@[0]->Word_0@ == "-"@
            && atom_value(items@[1], s) is Some && atom_value(items@[2], s) is Some
            && s.affine_upper_bounds.entries@.len() == 0 && s.leq_pairs.items@.len() == 0
            && scalar_text(items@[1], s.scalar_aliases) != scalar_text(items@[2], s.scalar_aliases) {
            let x = atom_value(items@[1], s)->0;
            let y = atom_value(items@[2], s)->0;
            if operand_interval(items@[1], s) == Some(IntInterval { min: x as i64, max: x as i64 })
                && operand_interval(items@[2], s) == Some(IntInterval { min: y as i64, max: y as i64 }) {
                if x - y > I32_MAX {
                    Some("Int overflow possible: "@)
                } else if x - y < I32_MIN {
                    Some("Int underflow possible: "@)
                } else {
                    None
                }
            } else {
                None
            }
        } else {
            None
        },
        _ => None,
    }
}

/// The heading of the message that `(* a b)` owes when its operands have
/// known ranges (literals, names, or sums, differences and products of
/// such), the product of those ranges leaves the Int range, and the facts do
/// not prove the product of the pair safe: an overflow above the range, an
/// underflow below it, or both.
pub open spec fn product_overflow(e: Expression, s: AbstractState) -> Option<Seq<char>> {
    match e {
        Expression::Apply(items) => if items@.len() == 3 && items@[0] is Word && items@[0]->Word_0@ == "*"@
            && known_range(items@[1], s) is Some && known_range(items@[2], s) is Some {
            let iv = arithmetic_interval_spec(
                "*"@,
                known_range(items@[1], s)->0,
                known_range(items@[2], s)->0,
            )->0;
            let a = scalar_text(items@[1], s.scalar_aliases);
            let b = scalar_text(items@[2], s.scalar_aliases);
            let safe = if text_less(b, a) {
                upper_safe(b, a, s) && lower_safe(b, a, s)
            } else {
                upper_safe(a, b, s) && lower_safe(a, b, s)
            };
            let below = iv.min < I32_MIN;
            let above = iv.max > I32_MAX;
            if safe || !(below || above) {
                None
            } else if below && above {
                Some("Int overflow/underflow possible: "@)
            } else if below {
                Some("Int underflow possible: "@)
            } else {
                Some("Int overflow possible: "@)
            }
        } else {
            None
        },
        _ => None,
    }
}

/// The help line of an arithmetic result that may leave the Int range.
pub open spec fn range_help() -> Seq<char> {
    "constrain the operands to keep the result within 32-bit Int range"@
}

/// `(push! xs v ...)` on names and constants.
pub open spec fn plain_push(e: Expression) -> bool {
    match e {
        Expression::Apply(items) => items@.len() >= 2 && items@[0] is Word && items@[0]->Word_0@ == "push!"@
            && forall|k: int| 1 <= k < items@.len() ==> !(#[trigger] items@[k] is Apply),
        _ => false,
    }
}

/// A head word the checks or the fact updates treat on their own.
pub open spec fn special_word(op: Seq<char>) -> bool {
    ||| op == "/"@ || op == "%"@ || op == "+"@ || op == "-"@ || op == "*"@
    ||| op == "get"@ || op == "set!"@ || op == "car"@ || op == "pop-val!"@ || op == "push!"@ || op == "pop!"@
    ||| op == "and"@ || op == "do"@ || op == "block"@ || op == "lambda"@ || op == "let"@ || op == "mut"@
    ||| op == "alter!"@ || op == "if"@ || op == "while"@ || op == "loop"@ || op == "loop/range"@
}

/// A call of an ordinary operator (such as a comparison or `length`) on
/// constants, names and such calls: it reports nothing and changes no fact.
pub open spec fn plain_call(e: Expression) -> bool
    decreases e,
{
    match e {
        Expression::Apply(items) => items@.len() > 0 && items@[0] is Word && !special_word(items@[0]->Word_0@)
            && forall|k: int| 1 <= k < items@.len() ==> (!(#[trigger] items@[k] is Apply) || plain_call(items@[k])),
        _ => false,
    }
}

/// `(and c ...)` of ordinary calls.
pub open spec fn plain_and(e: Expression) -> bool {
    match e {
        Expression::Apply(items) => items@.len() >= 2 && items@[0] is Word && items@[0]->Word_0@ == "and"@
            && forall|k: int| 1 <= k < items@.len() ==> plain_call(#[trigger] items@[k]),
        _ => false,
    }
}

/// A guard that proves `(get xs i)` where it holds, with its index and
/// vector: `(and (>= i 0) (< i (length xs)))`, or `(< i (length xs))` (or
/// `(> (length xs) i)`) for an `i` the facts know to be nonnegative.
pub open spec fn proving_guard(c: Expression, facts: AbstractState) -> Option<(Expression, Expression)> {
    if plain_and(c) && crate::guards::full_index_guard(c) is Some {
        crate::guards::full_index_guard(c)
    } else {
        match crate::guards::index_below_length(c, true) {
            Some((i, xs)) => if plain_call(c) && plain_index_nonnegative(i, facts) {
                Some((i, xs))
            } else {
                None
            },
            None => None,
        }
    }
}

/// `(if guard (get xs i))`, possibly with a plain else value, for names `i`
/// and `xs` and a guard that proves the access.
pub open spec fn guarded_get(e: Expression, facts: AbstractState) -> bool {
    match e {
        Expression::Apply(items) => (items@.len() == 3 || (items@.len() == 4 && !(items@[3] is Apply)))
            && items@[0] is Word && items@[0]->Word_0@ == "if"@ && match proving_guard(items@[1], facts) {
            Some((i, xs)) => {
                &&& xs is Word
                &&& items@[2] is Apply
                &&& items@[2]->Apply_0@.len() == 3
                &&& items@[2]->Apply_0@[0] is Word && items@[2]->Apply_0@[0]->Word_0@ == "get"@
                &&& items@[2]->Apply_0@[1] == xs
                &&& items@[2]->Apply_0@[2] == i
            },
            None => false,
        },
        _ => false,
    }
}

/// An access on plain operands (constants and names) that the facts prove:
/// `(get xs i)`, `(car xs)`, `(pop-val! xs)`, or `(set! xs i v)` with an index
/// written as a constant or a name.
pub open spec fn accepted_access(e: Expression, facts: AbstractState) -> bool {
    match e {
        Expression::Apply(items) => items@.len() > 0 && items@[0] is Word && (forall|k: int|
            1 <= k < items@.len() ==> !(#[trigger] items@[k] is Apply)) && {
            let op = items@[0]->Word_0@;
            ||| op == "get"@ && items@.len() == 3 && index_proven(items@[1], items@[2], facts, false)
            ||| (op == "car"@ || op == "pop-val!"@) && items@.len() == 2 && index_proven(
                items@[1],
                Expression::Int(0),
                facts,
                false,
            )
            ||| op == "set!"@ && items@.len() == 4 && (items@[2] is Int || items@[2] is Word)
                && index_proven(items@[1], items@[2], facts, true)
        },
        _ => false,
    }
}

/// The messages owed by the check of an operation itself under `facts`: an
/// access `(get xs i ...)`, `(car xs)`, `(pop-val! xs)` or `(set! xs i v)`
/// whose (first) index the facts do not prove, a division or remainder by
/// a constant or name not proven nonzero, a sum or difference of two
/// constants that leaves the Int range, and a product whose known range
/// leaves it without the facts proving it safe.  For `set!` and the divisor this
/// covers indices and divisors written as a constant or a name.
pub open spec fn owed_messages(e: Expression, facts: AbstractState) -> Set<Seq<char>> {
    match e {
        Expression::Apply(items) => if items@.len() > 0 && items@[0] is Word {
            let op = items@[0]->Word_0@;
            let form = lisp_text(e);
            if op == "get"@ && items@.len() == 3 && !index_proven(items@[1], items@[2], facts, false) {
                set![report(true, "index not proven safe: "@, form, get_help())]
            } else if op == "get"@ && items@.len() > 3 && !index_proven(items@[1], items@[2], facts, false) {
                set![report(true, "index not proven safe: "@, sexp_text(chain_sexp(items@, 1)), get_help())]
            } else if op == "set!"@ && items@.len() == 4 && (items@[2] is Int || items@[2] is Word)
                && !index_proven(items@[1], items@[2], facts, true) {
                set![
                    report(
                        true,
                        "set! index not proven safe: "@,
                        form,
                        "guard replacement with `0 <= index < length`, or append at `(length xs)`"@,
                    ),
                ]
            } else if (op == "car"@ || op == "pop-val!"@) && items@.len() == 2 && !index_proven(
                items@[1],
                Expression::Int(0),
                facts,
                false,
            ) {
                set![report(true, "vector may be empty: "@, form, "guard it with `(> (length xs) 0)`"@)]
            } else if (op == "/"@ || op == "%"@) && items@.len() == 3 && (items@[2] is Int || items@[2] is Word)
                && !divisor_proven(items@[2], facts) {
                set![report(false, "divisor may be zero: "@, form, "guard it with `(not (= divisor 0))`"@)]
            } else if op == "+"@ && sum_overflow(e, facts) is Some {
                set![report(false, sum_overflow(e, facts)->0, form, range_help())]
            } else if op == "-"@ && difference_overflow(e, facts) is Some {
                set![report(false, difference_overflow(e, facts)->0, form, range_help())]
            } else if op == "*"@ && product_overflow(e, facts) is Some {
                set![report(false, product_overflow(e, facts)->0, form, range_help())]
            } else {
                Set::empty()
            }
        } else {
            Set::empty()
        },
        _ => Set::empty(),
    }
}

/// A message of kind `kind` (0 for bounds, otherwise arithmetic): its
/// heading, the expression in backquotes, and a help line.
fn message_with_help(kind: u8, head: &str, expr: &Expression, help: &str) -> (r: Vec<char>)
    ensures
        categorized(r@),
        r@ == report(kind == 0, head@, lisp_text(*expr), help@),
{
    let mut out: Vec<char> = Vec::new();
    if kind == 0 {
        push_str(&mut out, "static bounds: ");
    } else {
        push_str(&mut out, "static arithmetic: ");
    }
    proof {
        assert(out@.take(out@.len() as int) =~= out@);
    }
    let ghost p = out@;
    push_str(&mut out, head);
    out.push('`');
    let lisp = expr.lisp_chars();
    push_text(&mut out, &lisp);
    push_str(&mut out, "`\nhelp: ");
    push_str(&mut out, help);
    proof {
        assert(out@.take(p.len() as int) =~= p);
    }
    out
}

/// The words of the vector mutations this analysis follows.
pub open spec fn mutation_word(op: Seq<char>) -> bool {
    op == "push!"@ || op == "set!"@ || op == "pop!"@ || op == "pop-val!"@
}

/// Updates the vector facts after a mutation `(op xs ...)`.  A mutation
/// never adds an index proof, and leaves the scalar facts as they were.
pub(crate) fn apply_vector_mutation(items: &Vec<Expression>, facts: &mut AbstractState)
    ensures
        forall|x: Seq<char>, y: Seq<char>|
            #[trigger] final(facts).safe_pairs.has(x, y) ==> old(facts).safe_pairs.has(x, y),
        final(facts).nonnegative == old(facts).nonnegative,
        final(facts).nonzero == old(facts).nonzero,
        final(facts).integer_constants == old(facts).integer_constants,
        final(facts).integer_ranges == old(facts).integer_ranges,
        final(facts).leq_pairs == old(facts).leq_pairs,
        final(facts).scalar_aliases == old(facts).scalar_aliases,
        final(facts).aliases == old(facts).aliases,
        !(items@.len() >= 2 && items@[0] is Word && mutation_word(items@[0]->Word_0@)) ==> *final(facts)
            == *old(facts),
        items@.len() >= 2 && items@[0] is Word && items@[0]->Word_0@ == "push!"@ ==> extended_by_one(
            *old(facts),
            *final(facts),
            access_text(items@[1], old(facts).aliases),
        ),
{
    if items.len() < 2 {
        return;
    }
    let op = match &items[0] {
        Expression::Word(w) => w,
        _ => {
            return;
        },
    };
    let xs = canonical_access(&items[1], facts);
    let mut nested_prefix: Vec<char> = Vec::new();
    push_str(&mut nested_prefix, "(get ");
    push_text(&mut nested_prefix, &xs);
    nested_prefix.push(' ');
    if text_is(op, "push!") {
        extend_known_length(&xs, facts);
    } else if text_is(op, "set!") {
        // replacing an element can invalidate facts about a nested vector,
        // but never an index into the container itself
        facts.safe_pairs.forget_first_prefix(&nested_prefix);
        facts.fixed_lengths.remove_prefixed(&nested_prefix);
        facts.minimum_lengths.remove_prefixed(&nested_prefix);
        facts.length_sources.remove_by_value(None, &nested_prefix);
        let direct_append = if items.len() > 2 {
            match length_argument(&items[2]) {
                Some(v) => {
                    let key = canonical_access(v, facts);
                    text_eq(&key, &xs)
                },
                None => false,
            }
        } else {
            false
        };
        let known_append = if items.len() > 2 {
            match (integer_constant(&items[2], facts), facts.fixed_lengths.get(&xs)) {
                (Some(index), Some(length)) => length <= 2147483647usize && index >= 0
                    && index as usize == length,
                _ => false,
            }
        } else {
            false
        };
        if direct_append || known_append {
            extend_known_length(&xs, facts);
        }
    } else if text_is(op, "pop!") || text_is(op, "pop-val!") {
        facts.safe_pairs.forget_first_or_prefix(&xs, &nested_prefix);
        facts.fixed_lengths.remove_prefixed_except(&xs, &nested_prefix);
        if let Some(length) = facts.fixed_lengths.get(&xs) {
            facts.fixed_lengths.insert(copy_text(&xs), if length > 0 {
                length - 1
            } else {
                0
            });
        }
        facts.minimum_lengths.remove_prefixed_except(&xs, &nested_prefix);
        if let Some(length) = facts.minimum_lengths.get(&xs) {
            facts.minimum_lengths.insert(copy_text(&xs), if length > 0 {
                length - 1
            } else {
                0
            });
        }
        facts.length_sources.remove_by_value(Some(&xs), &nested_prefix);
    }
}

/// `b` is `a` after the vector `xs` got one more element: a known length
/// grows by one, the known minimum grows by one (or is one), and every other
/// fact stays.
pub open spec fn extended_by_one(a: AbstractState, b: AbstractState, xs: Seq<char>) -> bool {
    &&& forall|x: Seq<char>| x != xs ==> #[trigger] b.fixed_lengths.has_key(x) == a.fixed_lengths.has_key(x)
        && (a.fixed_lengths.has_key(x) ==> b.fixed_lengths.value_at(x) == a.fixed_lengths.value_at(x))
    &&& forall|x: Seq<char>| x != xs ==> #[trigger] b.minimum_lengths.has_key(x) == a.minimum_lengths.has_key(x)
        && (a.minimum_lengths.has_key(x) ==> b.minimum_lengths.value_at(x) == a.minimum_lengths.value_at(x))
    &&& b.fixed_lengths.has_key(xs) == a.fixed_lengths.has_key(xs)
    &&& a.fixed_lengths.has_key(xs) ==> b.fixed_lengths.value_at(xs) == if a.fixed_lengths.value_at(xs)
        < usize::MAX {
        a.fixed_lengths.value_at(xs) + 1
    } else {
        a.fixed_lengths.value_at(xs) as int
    }
    &&& b.minimum_lengths.has_key(xs)
    &&& b.minimum_lengths.value_at(xs) == if a.minimum_lengths.has_key(xs) {
        if a.minimum_lengths.value_at(xs) < usize::MAX {
            a.minimum_lengths.value_at(xs) + 1
        } else {
            a.minimum_lengths.value_at(xs) as int
        }
    } else {
        1
    }
    &&& b.safe_pairs == a.safe_pairs && b.nonnegative == a.nonnegative && b.nonzero == a.nonzero
    &&& b.integer_constants == a.integer_constants && b.integer_ranges == a.integer_ranges
    &&& b.leq_pairs == a.leq_pairs && b.scalar_aliases == a.scalar_aliases && b.aliases == a.aliases
    &&& b.length_sources == a.length_sources && b.affine_upper_bounds == a.affine_upper_bounds
    &&& b.product_upper_safe == a.product_upper_safe && b.product_lower_safe == a.product_lower_safe
}

/// One more element: a known length grows by one, and the vector is known
/// to hold at least one more element than before (at least one if nothing
/// was known).
fn extend_known_length(xs: &Vec<char>, facts: &mut AbstractState)
    ensures
        extended_by_one(*old(facts), *final(facts), xs@),
{
    if let Some(length) = facts.fixed_lengths.get(xs) {
        facts.fixed_lengths.insert(copy_text(xs), if length < usize::MAX {
            length + 1
        } else {
            length
        });
    }
    let minimum = match facts.minimum_lengths.get(xs) {
        Some(length) => if length < usize::MAX {
            length + 1
        } else {
            length
        },
        None => 1,
    };
    facts.minimum_lengths.insert(copy_text(xs), minimum);
}

/// Rebinds `name` to `value`: every fact about the old value is dropped and
/// the facts `value` carries are recorded for the name.  In particular no
/// index proof through the name survives, and no other index proof appears.
#[verifier::rlimit(50)]
pub fn assign_abstract_scalar(name: &Vec<char>, value: &Expression, facts: &mut AbstractState)
    ensures
        forall|x: Seq<char>| !final(facts).safe_pairs.has(x, name@),
        forall|x: Seq<char>, y: Seq<char>|
            #[trigger] final(facts).safe_pairs.has(x, y) ==> old(facts).safe_pairs.has(x, y),
        forall|x: Seq<char>| !final(facts).leq_pairs.has(x, name@) && !final(facts).leq_pairs.has(name@, x),
        !final(facts).aliases.has_key(name@),
        !final(facts).scalar_aliases.has_key(name@),
        !final(facts).fixed_lengths.has_key(name@),
        !final(facts).minimum_lengths.has_key(name@),
        *value matches Expression::Int(v) ==> {
            &&& final(facts).integer_constants.has_key(name@)
            &&& final(facts).integer_constants.value_at(name@) == v
            &&& final(facts).integer_ranges.has_key(name@)
            &&& final(facts).integer_ranges.value_at(name@) == (IntInterval { min: v as i64, max: v as i64 })
            &&& final(facts).nonnegative.has(name@) == (v >= 0)
            &&& v != 0 ==> final(facts).nonzero.has(name@)
        },
        *value matches Expression::Word(w) ==> {
            &&& final(facts).integer_constants.has_key(name@) == old(facts).integer_constants.has_key(w@)
            &&& old(facts).integer_constants.has_key(w@) ==> final(facts).integer_constants.value_at(name@)
                == old(facts).integer_constants.value_at(w@)
            &&& final(facts).nonnegative.has(name@) == if old(facts).integer_constants.has_key(w@) {
                old(facts).integer_constants.value_at(w@) >= 0
            } else {
                old(facts).nonnegative.has(w@)
            }
        },
        literal_operands(*value) matches Some((op, a, b)) ==> (ring_operator(op) ==> {
            &&& final(facts).integer_constants.has_key(name@) == checked_result(op, a, b) is Some
            &&& checked_result(op, a, b) matches Some(c) ==> final(facts).integer_constants.value_at(name@) == c
        }),
        *value matches Expression::Apply(l) ==> (l@.len() == 2 && l@[0] is Word && l@[0]->Word_0@ == "length"@ ==> {
            &&& final(facts).nonnegative.has(name@)
            &&& final(facts).length_sources.has_key(name@)
            &&& final(facts).length_sources.value_at(name@)@ == access_text(l@[1], final(facts).aliases)
        }),
{
    let remains_nonnegative = expression_is_nonnegative(value, facts);
    let constant = integer_constant(value, facts);
    let interval = match integer_interval(value, facts) {
        Some(range) => if range.fits_i32() {
            Some(range)
        } else {
            None
        },
        None => None,
    };
    let remains_nonzero = divisor_is_proven_nonzero(value, facts);
    facts.safe_pairs.forget_second(name);
    facts.nonnegative.remove(name);
    facts.integer_constants.remove(name);
    facts.integer_ranges.remove(name);
    facts.nonzero.remove(name);
    facts.fixed_lengths.remove(name);
    facts.minimum_lengths.remove(name);
    facts.length_sources.remove(name);
    facts.aliases.remove(name);
    facts.scalar_aliases.remove(name);
    facts.leq_pairs.forget_name(name);
    facts.affine_upper_bounds.forget_atom(name);
    facts.product_upper_safe.forget_name(name);
    facts.product_lower_safe.forget_name(name);
    if remains_nonnegative {
        facts.nonnegative.insert(copy_text(name));
    }
    if let Some(c) = constant {
        facts.integer_constants.insert(copy_text(name), c);
    }
    if let Some(range) = interval {
        facts.integer_ranges.insert(copy_text(name), range);
    }
    if remains_nonzero {
        facts.nonzero.insert(copy_text(name));
    }
    if let Some(vector) = length_argument(value) {
        let source = canonical_access(vector, facts);
        facts.length_sources.insert(copy_text(name), source);
        facts.nonnegative.insert(copy_text(name));
    }
}

/// `x` is a word of the parameter pattern `e`, at any depth.
pub open spec fn binds_word(e: Expression, x: Seq<char>) -> bool
    decreases e,
{
    match e {
        Expression::Word(w) => w@ == x,
        Expression::Apply(items) => binds_list(items@, x),
        _ => false,
    }
}

/// `x` is a word of one of the patterns `s`.
pub open spec fn binds_list(s: Seq<Expression>, x: Seq<char>) -> bool
    decreases s,
{
    s.len() > 0 && (binds_list(s.drop_last(), x) || binds_word(s.last(), x))
}

/// `b` is `a` with the scalar facts about each word bound by `e` dropped.
pub open spec fn forgot_words(a: AbstractState, b: AbstractState, e: Expression) -> bool {
    forgot_where(a, b, |x: Seq<char>| binds_word(e, x))
}

/// `b` is `a` with the scalar facts about each name in `gone` dropped.
pub open spec fn forgot_where(a: AbstractState, b: AbstractState, gone: spec_fn(Seq<char>) -> bool) -> bool {
    &&& forall|x: Seq<char>| #[trigger] b.nonnegative.has(x) == (a.nonnegative.has(x) && !gone(x))
    &&& forall|x: Seq<char>| #[trigger] b.nonzero.has(x) == (a.nonzero.has(x) && !gone(x))
    &&& forall|x: Seq<char>| #[trigger] b.integer_constants.has_key(x) == (a.integer_constants.has_key(x) && !gone(x))
    &&& forall|x: Seq<char>| #[trigger] b.integer_constants.has_key(x) ==> b.integer_constants.value_at(x) == a.integer_constants.value_at(x)
    &&& forall|x: Seq<char>| #[trigger] b.integer_ranges.has_key(x) == (a.integer_ranges.has_key(x) && !gone(x))
    &&& forall|x: Seq<char>| #[trigger] b.integer_ranges.has_key(x) ==> b.integer_ranges.value_at(x) == a.integer_ranges.value_at(x)
    &&& forall|x: Seq<char>| #[trigger] b.scalar_aliases.has_key(x) == (a.scalar_aliases.has_key(x) && !gone(x))
    &&& forall|x: Seq<char>| #[trigger] b.scalar_aliases.has_key(x) ==> b.scalar_aliases.value_at(x) == a.scalar_aliases.value_at(x)
    &&& forall|x: Seq<char>, y: Seq<char>| #[trigger] b.leq_pairs.has(x, y) == (a.leq_pairs.has(x, y) && !gone(x) && !gone(y))
    &&& forall|x: Seq<char>, y: Seq<char>| #[trigger] b.product_upper_safe.has(x, y) == (a.product_upper_safe.has(x, y) && !gone(x) && !gone(y))
    &&& forall|x: Seq<char>, y: Seq<char>| #[trigger] b.product_lower_safe.has(x, y) == (a.product_lower_safe.has(x, y) && !gone(x) && !gone(y))
    &&& b.safe_pairs == a.safe_pairs && b.fixed_lengths == a.fixed_lengths && b.minimum_lengths == a.minimum_lengths
    &&& b.length_sources == a.length_sources && b.aliases == a.aliases
}

/// Drops the scalar facts about every name a lambda parameter list binds.
pub(crate) fn forget_lambda_parameter(expr: &Expression, facts: &mut AbstractState)
    ensures
        forgot_words(*old(facts), *final(facts), *expr),
    decreases *expr,
{
    match expr {
        Expression::Word(name) => {
            facts.nonnegative.remove(name);
            facts.nonzero.remove(name);
            facts.integer_constants.remove(name);
            facts.integer_ranges.remove(name);
            facts.scalar_aliases.remove(name);
            facts.leq_pairs.forget_name(name);
            facts.affine_upper_bounds.forget_atom(name);
            facts.product_upper_safe.forget_name(name);
            facts.product_lower_safe.forget_name(name);
        },
        Expression::Apply(items) => {
            let ghost start = *facts;
            let mut i: usize = 0;
            proof {
                assert(items@.take(0).len() == 0);
            }
            while i < items.len()
                invariant
                    i <= items.len(),
                    *expr == Expression::Apply(*items),
                    forgot_where(start, *facts, |x: Seq<char>| binds_list(items@.take(i as int), x)),
                decreases items.len() - i,
            {
                assert(decreases_to!(*expr => items@[i as int]));
                let ghost mid = *facts;
                forget_lambda_parameter(&items[i], facts);
                proof {
                    let t = items@.take(i + 1);
                    assert(t.drop_last() =~= items@.take(i as int));
                    assert(t.last() == items@[i as int]);
                    assert forall|x: Seq<char>| binds_list(t, x) == (binds_list(items@.take(i as int), x)
                        || binds_word(items@[i as int], x)) by {
                    }
                }
                i += 1;
            }
            proof {
                assert(items@.take(items@.len() as int) =~= items@);
            }
        },
        _ => {},
    }
}

/// The facts prove `(get vector index)` safe, or with `append` also allow
/// writing at the end of the vector: the pair is recorded safe; for `append`,
/// the index is `(length vector)` or a name bound to it; or the index is a
/// nonnegative constant (for `append`, also a name bound to one) below the
/// known minimum or exact length of the vector (for `append`, up to it).
pub open spec fn index_proven(vector: Expression, index: Expression, facts: AbstractState, append: bool) -> bool {
    let vk = access_text(vector, facts.aliases);
    let ik = scalar_text(index, facts.scalar_aliases);
    let constant: Option<int> = match index {
        Expression::Int(i) => Some(i as int),
        Expression::Word(w) => if append && facts.integer_constants.has_key(w@) {
            Some(facts.integer_constants.value_at(w@) as int)
        } else {
            None
        },
        _ => None,
    };
    let length: Option<int> = if facts.fixed_lengths.has_key(vk) {
        Some(facts.fixed_lengths.value_at(vk) as int)
    } else {
        literal_length(vector)
    };
    ||| facts.safe_pairs.has(vk, ik)
    ||| (append && length_of(index) is Some && access_text(length_of(index)->0, facts.aliases) == vk)
    ||| (append && index is Word && facts.length_sources.has_key(index->Word_0@)
        && facts.length_sources.value_at(index->Word_0@)@ == vk)
    ||| (constant is Some && constant->0 >= 0 && ((facts.minimum_lengths.has_key(vk) && (constant->0
        < facts.minimum_lengths.value_at(vk) || (append && constant->0 <= facts.minimum_lengths.value_at(vk))))
        || (length is Some && (constant->0 < length->0 || (append && constant->0 == length->0)))))
}

/// The facts prove `index` valid for `vector`: within its bounds, or, when
/// `allow_append` holds, equal to its length.
pub(crate) fn access_index_is_proven(
    vector: &Expression,
    index: &Expression,
    facts: &AbstractState,
    allow_append: bool,
) -> (r: bool)
    ensures
        !allow_append || index is Int || index is Word ==> r == index_proven(*vector, *index, *facts, allow_append),
        *index matches Expression::Int(i) ==> (literal_length(*vector) matches Some(n) ==> (blank(
            *facts,
        ) ==> (r <==> 0 <= i && (i < n || (allow_append && i == n))))),
{
    let vector_key = canonical_access(vector, facts);
    let index_key = canonical_scalar(index, facts);
    if facts.safe_pairs.contains(&vector_key, &index_key) {
        return true;
    }
    if allow_append {
        if let Some(v) = length_argument(index) {
            let key = canonical_access(v, facts);
            if text_eq(&key, &vector_key) {
                return true;
            }
        }
        if let Expression::Word(name) = index {
            if let Some(source) = facts.length_sources.get_ref(name) {
                if text_eq(source, &vector_key) {
                    return true;
                }
            }
        }
    }
    let constant_index = if allow_append {
        integer_constant(index, facts)
    } else {
        match index {
            Expression::Int(i) => Some(*i),
            _ => None,
        }
    };
    let index: usize = match constant_index {
        Some(i) => {
            if i < 0 {
                return false;
            }
            i as usize
        },
        None => {
            return false;
        },
    };
    if let Some(minimum) = facts.minimum_lengths.get(&vector_key) {
        if index < minimum || (allow_append && index <= minimum) {
            return true;
        }
    }
    let len = match facts.fixed_lengths.get(&vector_key) {
        Some(l) => Some(l),
        None => literal_vector_length(vector),
    };
    match len {
        Some(l) => index < l || (allow_append && index == l),
        None => false,
    }
}

/// The access `(get (get ... (get xs i1) ...) ik)` that applies the first
/// `k` indices of `(get xs i1 ... in)` one at a time.
pub open spec fn chain_sexp(items: Seq<Expression>, k: nat) -> Sexp
    decreases k,
{
    if k == 0 {
        shape(items[1])
    } else {
        Sexp::List(seq![Sexp::Word("get"@), chain_sexp(items, (k - 1) as nat), shape(items[(k + 1) as int])])
    }
}

/// `(get (get ... (get xs i1) ...) ik)`: the first `k` indices of a
/// multi-index `get` applied one at a time.
fn get_chain(items: &Vec<Expression>, k: usize) -> (r: Expression)
    requires
        k + 1 < items@.len(),
    ensures
        shape(r) == chain_sexp(items@, k as nat),
    decreases k,
{
    let n = items.len();
    if k == 0 {
        copy_expr(&items[1])
    } else {
        let inner = get_chain(items, k - 1);
        let g = word_of("get");
        let last = copy_expr(&items[k + 1]);
        let v = vec![g, inner, last];
        proof {
            lemma_shapes(v@);
            assert(shapes(v@) =~= seq![Sexp::Word("get"@), chain_sexp(items@, (k - 1) as nat), shape(items@[k + 1])]);
        }
        Expression::Apply(v)
    }
}

/// Checks the access `(get chain ik)` of a multi-index `get`, then its parts.
#[verifier::rlimit(50)]
fn validate_get_chain(
    expr: &Expression,
    k: usize,
    facts: &mut AbstractState,
    ctx: &Summaries,
    diagnostics: &mut Vec<Vec<char>>,
)
    requires
        k >= 1,
        expr matches Expression::Apply(items) && k + 1 < items@.len(),
        distinct_messages(old(diagnostics)@),
        all_categorized(old(diagnostics)@),
    ensures
        distinct_messages(final(diagnostics)@),
        all_categorized(final(diagnostics)@),
        grows(views(old(diagnostics)@), views(final(diagnostics)@)),
        k == 1 && !index_proven(expr->Apply_0@[1], expr->Apply_0@[2], *old(facts), false) ==> views(
            final(diagnostics)@,
        ).contains(report(true, "index not proven safe: "@, sexp_text(chain_sexp(expr->Apply_0@, 1)), get_help())),
    decreases *expr, 0nat, k,
{
    let items = match expr {
        Expression::Apply(items) => items,
        _ => {
            return;
        },
    };
    let n = items.len();
    let index = &items[k + 1];
    let proven = if k == 1 {
        access_index_is_proven(&items[1], index, facts, false)
    } else {
        let inner = get_chain(items, k - 1);
        access_index_is_proven(&inner, index, facts, false)
    };
    let ghost owed = report(true, "index not proven safe: "@, sexp_text(chain_sexp(items@, 1)), get_help());
    if !proven {
        let g = word_of("get");
        let chain = get_chain(items, k - 1);
        let last = copy_expr(index);
        let v = vec![g, chain, last];
        proof {
            lemma_shapes(v@);
            assert(shapes(v@) =~= seq![Sexp::Word("get"@), chain_sexp(items@, (k - 1) as nat), shape(items@[k + 1])]);
        }
        let whole = Expression::Apply(v);
        proof {
            lemma_lisp_text_shape(whole);
            if k == 1 {
                assert(shape(whole) == chain_sexp(items@, 1));
            }
        }
        let message = message_with_help(
            0, "index not proven safe: ",
            &whole,
            "guard it with `(and (>= index 0) (< index (length xs)))`",
        );
        record_diagnostic(diagnostics, message);
    }
    let ghost checked = views(diagnostics@);
    if k == 1 {
        assert(decreases_to!(*expr => items@[1]));
        validate_static_bounds_expr(&items[1], facts, ctx, diagnostics);
    } else {
        validate_get_chain(expr, k - 1, facts, ctx, diagnostics);
    }
    assert(decreases_to!(*expr => items@[k + 1]));
    validate_static_bounds_expr(index, facts, ctx, diagnostics);
    proof {
        if k == 1 && !proven {
            lemma_grows_contains(checked, views(diagnostics@), owed);
        }
    }
}

/// Checks an expression against the facts that hold before it, recording a
/// message for each operation not proven safe, and updates the facts to
/// those that hold after it.  Messages already recorded stay; an access or
/// divisor the facts do not prove gets its message; an access on names and
/// constants that the facts prove, and a call of an ordinary operator, add
/// none; `(if (and (>= i 0) (< i (length xs))) (get xs i))` adds none, nor
/// does `(if (< i (length xs)) (get xs i))` with `i` known nonnegative; binding or reassigning a name to a constant records that constant;
/// `(push! xs v)` grows the known length of `xs` by one.
#[verifier::rlimit(50)]
pub(crate) fn validate_static_bounds_expr(
    expr: &Expression,
    facts: &mut AbstractState,
    ctx: &Summaries,
    diagnostics: &mut Vec<Vec<char>>,
)
    requires
        distinct_messages(old(diagnostics)@),
        all_categorized(old(diagnostics)@),
    ensures
        distinct_messages(final(diagnostics)@),
        all_categorized(final(diagnostics)@),
        !(*expr is Apply) ==> final(diagnostics)@ == old(diagnostics)@,
        literal_vector_size(shape(*expr)) is Some ==> final(diagnostics)@ == old(diagnostics)@,
        literal_form_message(shape(*expr)) is Some && blank(*old(facts)) ==> views(
            final(diagnostics)@,
        ) == with_message(views(old(diagnostics)@), literal_form_message(shape(*expr))->0),
        !(*expr is Apply) ==> *final(facts) == *old(facts),
        grows(views(old(diagnostics)@), views(final(diagnostics)@)),
        forall|m: Seq<char>| #[trigger] owed_messages(*expr, *old(facts)).contains(m) ==> views(
            final(diagnostics)@,
        ).contains(m),
        accepted_access(*expr, *old(facts)) ==> final(diagnostics)@ == old(diagnostics)@,
        plain_call(*expr) ==> final(diagnostics)@ == old(diagnostics)@ && *final(facts) == *old(facts),
        plain_and(*expr) ==> final(diagnostics)@ == old(diagnostics)@ && *final(facts) == *old(facts),
        guarded_get(*expr, *old(facts)) ==> final(diagnostics)@ == old(diagnostics)@,
        plain_push(*expr) ==> extended_by_one(*old(facts), *final(facts), access_text(
            expr->Apply_0@[1],
            old(facts).aliases,
        )),
        *expr matches Expression::Apply(items) ==> (items@.len() == 3 && items@[0] is Word && (items@[0]->Word_0@
            == "let"@ || items@[0]->Word_0@ == "mut"@ || items@[0]->Word_0@ == "alter!"@) ==> (
        items@[1] matches Expression::Word(name) ==> (items@[2] matches Expression::Int(v) ==> {
            &&& final(facts).integer_constants.has_key(name@)
            &&& final(facts).integer_constants.value_at(name@) == v
            &&& final(facts).integer_ranges.has_key(name@)
            &&& final(facts).integer_ranges.value_at(name@) == (IntInterval { min: v as i64, max: v as i64 })
        }))),
    decreases *expr, 1nat, 0nat,
{
    let items = match expr {
        Expression::Apply(items) => items,
        _ => {
            return;
        },
    };
    let n = items.len();
    let op: Vec<char> = if n > 0 {
        match &items[0] {
            Expression::Word(w) => copy_text(w),
            _ => Vec::new(),
        }
    } else {
        Vec::new()
    };
    let ghost f = shape(*expr);
    let ghost quiet = literal_vector_size(f) is Some;
    let ghost literal = literal_form_message(f) is Some && blank(*old(facts));
    proof {
        lemma_head_words();
        lemma_operator_words_differ();
        lemma_shapes(items@);
        lemma_lisp_text_shape(*expr);
        assert(f == Sexp::List(shapes(items@)));
        if quiet || literal_form_message(f) is Some {
            assert(items@[0] is Word && op@ == items@[0]->Word_0@);
            assert forall|k: int| 1 <= k < items@.len() implies #[trigger] atom(shape(items@[k]))
                || literal_vector_size(shape(items@[k])) is Some by {
                assert(shapes(items@)[k] == shape(items@[k]));
            }
            if n >= 2 {
                match items@[1] {
                    Expression::Apply(v) => {
                        lemma_shapes(v@);
                    },
                    _ => {},
                }
            }
        }
    }
    let ghost owed = owed_messages(*expr, *old(facts));
    let ghost accepted = accepted_access(*expr, *old(facts));
    let ghost plain = plain_call(*expr);
    let ghost guarded = guarded_get(*expr, *old(facts));
    let ghost pushed = plain_push(*expr);
    let ghost anded = plain_and(*expr);
    proof {
        reveal_strlit("push!");
        assert("push!"@.len() == 5 && "push!"@[0] == 'p');
    }
    let ghost zero_message = report(false, "divisor may be zero: "@, lisp_text(*expr), "guard it with `(not (= divisor 0))`"@);
    if n == 3 && (text_is(&op, "/") || text_is(&op, "%")) {
        if !divisor_is_proven_nonzero(&items[2], facts) {
            let message = message_with_help(
                1, "divisor may be zero: ",
                expr,
                "guard it with `(not (= divisor 0))`",
            );
            record_diagnostic(diagnostics, message);
        }
        let ghost after_zero = views(diagnostics@);
        if text_is(&op, "/") {
            let numerator_is_min = match integer_interval(&items[1], facts) {
                Some(r) => r.min == I32_MIN && r.max == I32_MIN,
                None => false,
            };
            let divisor_is_minus_one = match integer_interval(&items[2], facts) {
                Some(r) => r.min == -1 && r.max == -1,
                None => false,
            };
            if numerator_is_min && divisor_is_minus_one {
                let message = message_with_help(
                    1, "Int overflow: ",
                    expr,
                    "minimum Int cannot be divided by -1",
                );
                record_diagnostic(diagnostics, message);
                proof {
                    if after_zero.contains(zero_message) {
                        lemma_grows_contains(after_zero, views(diagnostics@), zero_message);
                    }
                }
            }
        }
    }
    if n == 3 && (text_is(&op, "+") || text_is(&op, "-") || text_is(&op, "*")) {
        check_integer_arithmetic(expr, items, &op, facts, diagnostics);
    }
    if n > 3 && text_is(&op, "get") {
        let ghost first = report(true, "index not proven safe: "@, sexp_text(chain_sexp(items@, 1)), get_help());
        let ghost unproven = !index_proven(items@[1], items@[2], *old(facts), false);
        let mut k: usize = 1;
        while k + 1 < n
            invariant
                1 <= k < n,
                n == items@.len(),
                *expr == Expression::Apply(*items),
                distinct_messages(diagnostics@),
                all_categorized(diagnostics@),
                grows(views(old(diagnostics)@), views(diagnostics@)),
                k == 1 ==> *facts == *old(facts),
                k > 1 && unproven ==> views(diagnostics@).contains(first),
            decreases n - k,
        {
            let ghost before = views(diagnostics@);
            validate_get_chain(expr, k, facts, ctx, diagnostics);
            proof {
                if k > 1 && unproven {
                    lemma_grows_contains(before, views(diagnostics@), first);
                }
            }
            k += 1;
        }
        proof {
            assert(owed == if unproven { set![first] } else { Set::empty() });
        }
        return;
    }
    if n == 3 && text_is(&op, "get") {
        if !access_index_is_proven(&items[1], &items[2], facts, false) {
            let message = message_with_help(
                0, "index not proven safe: ",
                expr,
                "guard it with `(and (>= index 0) (< index (length xs)))`",
            );
            record_diagnostic(diagnostics, message);
        }
    }
    if n == 4 && text_is(&op, "set!") {
        if !access_index_is_proven(&items[1], &items[2], facts, true) {
            let message = message_with_help(
                0, "set! index not proven safe: ",
                expr,
                "guard replacement with `0 <= index < length`, or append at `(length xs)`",
            );
            record_diagnostic(diagnostics, message);
        }
    }
    if n == 2 && (text_is(&op, "car") || text_is(&op, "pop-val!")) {
        let zero = Expression::Int(0);
        if !access_index_is_proven(&items[1], &zero, facts, false) {
            let message = message_with_help(
                0, "vector may be empty: ",
                expr,
                "guard it with `(> (length xs) 0)`",
            );
            record_diagnostic(diagnostics, message);
        }
    }
    proof {
        assert forall|m: Seq<char>| #[trigger] owed.contains(m) implies views(diagnostics@).contains(m) by {}
        if accepted || plain || guarded || anded {
            assert(diagnostics@ == old(diagnostics)@);
        }
        if quiet {
            assert(diagnostics@ == old(diagnostics)@);
        }
        if literal {
            assert(views(diagnostics@) == with_message(
                views(old(diagnostics)@),
                literal_form_message(f)->0,
            ));
        }
    }
    let ghost checked = diagnostics@;
    if text_is(&op, "and") {
        let mut scoped = facts.duplicate();
        let mut i: usize = 1;
        while i < n
            invariant
                1 <= i <= n || n == 0,
                n == items@.len(),
                *expr == Expression::Apply(*items),
                distinct_messages(diagnostics@),
                all_categorized(diagnostics@),
                grows(views(checked), views(diagnostics@)),
                anded ==> diagnostics@ == checked,
            decreases n - i,
        {
            assert(decreases_to!(*expr => items@[i as int]));
            proof {
                if anded {
                    assert(plain_call(items@[i as int]));
                }
            }
            validate_static_bounds_expr(&items[i], &mut scoped, ctx, diagnostics);
            scoped = state_for_true_branch(&items[i], &scoped, ctx);
            i += 1;
        }
    } else if text_is(&op, "do") || text_is(&op, "block") {
        let mut scoped = facts.duplicate();
        let mut i: usize = 1;
        while i < n
            invariant
                1 <= i <= n || n == 0,
                n == items@.len(),
                *expr == Expression::Apply(*items),
                distinct_messages(diagnostics@),
                all_categorized(diagnostics@),
                grows(views(checked), views(diagnostics@)),
            decreases n - i,
        {
            assert(decreases_to!(*expr => items@[i as int]));
            validate_static_bounds_expr(&items[i], &mut scoped, ctx, diagnostics);
            i += 1;
        }
        if text_is(&op, "do") {
            *facts = scoped;
        }
    } else if text_is(&op, "lambda") {
        // immutable scalar facts stay valid in a closure; container facts do
        // not, since the vector may change before the closure runs
        let mut scoped = facts.captured_scalars();
        if n >= 2 {
            let mut i: usize = 1;
            while i + 1 < n
                invariant
                    1 <= i < n,
                    n == items@.len(),
                    *expr == Expression::Apply(*items),
                decreases n - i,
            {
                assert(decreases_to!(*expr => items@[i as int]));
                forget_lambda_parameter(&items[i], &mut scoped);
                i += 1;
            }
            assert(decreases_to!(*expr => items@[n - 1]));
            validate_static_bounds_expr(&items[n - 1], &mut scoped, ctx, diagnostics);
        }
    } else if (text_is(&op, "let") || text_is(&op, "mut")) && n >= 3 {
        assert(decreases_to!(*expr => items@[2]));
        validate_static_bounds_expr(&items[2], facts, ctx, diagnostics);
        if let Expression::Word(name) = &items[1] {
            let scalar_alias = if text_is(&op, "let") {
                Some(canonical_scalar(&items[2], facts))
            } else {
                None
            };
            let alias = match &items[2] {
                Expression::Word(_) => Some(canonical_access(&items[2], facts)),
                Expression::Apply(rhs) => {
                    if rhs.len() > 0 && is_word(&rhs[0], "get") {
                        Some(canonical_access(&items[2], facts))
                    } else {
                        None
                    }
                },
                _ => None,
            };
            assign_abstract_scalar(name, &items[2], facts);
            if let Some(len) = literal_vector_length(&items[2]) {
                facts.fixed_lengths.insert(copy_text(name), len);
            }
            if let Some(a) = alias {
                facts.aliases.insert(copy_text(name), a);
            }
            if let Some(s) = scalar_alias {
                facts.scalar_aliases.insert(copy_text(name), s);
            }
        }
    } else if text_is(&op, "alter!") && n == 3 {
        assert(decreases_to!(*expr => items@[2]));
        validate_static_bounds_expr(&items[2], facts, ctx, diagnostics);
        if let Expression::Word(name) = &items[1] {
            assign_abstract_scalar(name, &items[2], facts);
        }
    } else if text_is(&op, "if") && n >= 3 {
        assert(decreases_to!(*expr => items@[1]));
        assert(decreases_to!(*expr => items@[2]));
        validate_static_bounds_expr(&items[1], facts, ctx, diagnostics);
        let mut consequent = state_for_true_branch(&items[1], facts, ctx);
        validate_static_bounds_expr(&items[2], &mut consequent, ctx, diagnostics);
        let mut alternate = state_for_false_branch(&items[1], facts, ctx);
        if n > 3 {
            assert(decreases_to!(*expr => items@[3]));
            validate_static_bounds_expr(&items[3], &mut alternate, ctx, diagnostics);
        }
        *facts = join_states(&consequent, &alternate);
    } else if text_is(&op, "while") && n >= 3 {
        // a loop-header fixed point; the intersection join converges on this
        // finite fact domain, and the bound on rounds is only a guard
        let entry = facts.duplicate();
        let mut header = entry.duplicate();
        let mut round: usize = 0;
        while round < 16
            invariant
                n == items@.len(),
                n >= 3,
                *expr == Expression::Apply(*items),
                distinct_messages(diagnostics@),
                all_categorized(diagnostics@),
                grows(views(checked), views(diagnostics@)),
            decreases 16 - round,
        {
            assert(decreases_to!(*expr => items@[1]));
            validate_static_bounds_expr(&items[1], &mut header, ctx, diagnostics);
            let mut body_exit = state_for_true_branch(&items[1], &header, ctx);
            let mut i: usize = 2;
            while i < n
                invariant
                    2 <= i <= n,
                    n == items@.len(),
                    *expr == Expression::Apply(*items),
                    distinct_messages(diagnostics@),
                    all_categorized(diagnostics@),
                    grows(views(checked), views(diagnostics@)),
                grows(views(checked), views(diagnostics@)),
                decreases n - i,
            {
                assert(decreases_to!(*expr => items@[i as int]));
                validate_static_bounds_expr(&items[i], &mut body_exit, ctx, diagnostics);
                i += 1;
            }
            let next = join_states(&entry, &body_exit);
            if same_state(&next, &header) {
                break;
            }
            header = next;
            round += 1;
        }
        // the loop may run zero times: only header facts hold on exit
        *facts = header;
    } else if text_is(&op, "loop") && n >= 4 {
        let mut scoped = facts.duplicate();
        if let Expression::Word(index) = &items[1] {
            scoped.nonnegative.insert(copy_text(index));
        }
        scoped = state_for_true_branch(&items[2], &scoped, ctx);
        let mut i: usize = 3;
        while i < n
            invariant
                3 <= i <= n,
                n == items@.len(),
                *expr == Expression::Apply(*items),
                distinct_messages(diagnostics@),
                all_categorized(diagnostics@),
                grows(views(checked), views(diagnostics@)),
            decreases n - i,
        {
            assert(decreases_to!(*expr => items@[i as int]));
            validate_static_bounds_expr(&items[i], &mut scoped, ctx, diagnostics);
            i += 1;
        }
    } else if text_is(&op, "loop/range") && n >= 5 {
        let mut scoped = facts.duplicate();
        if let Expression::Word(index) = &items[1] {
            if let Expression::Int(start) = &items[2] {
                if *start >= 0 {
                    scoped.nonnegative.insert(copy_text(index));
                }
            }
            if let Expression::Apply(end) = &items[3] {
                if end.len() == 2 && is_word(&end[0], "length") {
                    if let Expression::Word(xs) = &end[1] {
                        scoped.safe_pairs.insert(copy_text(xs), copy_text(index));
                    }
                }
            }
        }
        let mut i: usize = 4;
        while i < n
            invariant
                4 <= i <= n,
                n == items@.len(),
                *expr == Expression::Apply(*items),
                distinct_messages(diagnostics@),
                all_categorized(diagnostics@),
                grows(views(checked), views(diagnostics@)),
            decreases n - i,
        {
            assert(decreases_to!(*expr => items@[i as int]));
            validate_static_bounds_expr(&items[i], &mut scoped, ctx, diagnostics);
            i += 1;
        }
    } else {
        let mut i: usize = 1;
        while i < n
            invariant
                1 <= i <= n || n == 0,
                n == items@.len(),
                *expr == Expression::Apply(*items),
                distinct_messages(diagnostics@),
                all_categorized(diagnostics@),
                grows(views(checked), views(diagnostics@)),
                quiet || literal ==> diagnostics@ == checked,
                accepted ==> diagnostics@ == checked,
                plain ==> diagnostics@ == checked && *facts == *old(facts),
                pushed ==> *facts == *old(facts),
            decreases n - i,
        {
            assert(decreases_to!(*expr => items@[i as int]));
            proof {
                if accepted {
                    assert(!(items@[i as int] is Apply));
                }
                if plain {
                    assert(!(items@[i as int] is Apply) || plain_call(items@[i as int]));
                }
                if pushed {
                    assert(!(items@[i as int] is Apply));
                }
                if quiet || literal {
                    assert(atom(shape(items@[i as int])) || literal_vector_size(
                        shape(items@[i as int]),
                    ) is Some);
                }
            }
            validate_static_bounds_expr(&items[i], facts, ctx, diagnostics);
            i += 1;
        }
    }
    apply_vector_mutation(items, facts);
    proof {
        assert forall|m: Seq<char>| #[trigger] owed.contains(m) implies views(diagnostics@).contains(m) by {
            lemma_grows_contains(views(checked), views(diagnostics@), m);
        }
    }
}

/// `+`, `-` and `*` on two exact intervals give the exact result.
proof fn lemma_exact_arithmetic(op: Seq<char>, a: int, b: int)
    requires
        ring_operator(op),
        I32_MIN <= a <= I32_MAX,
        I32_MIN <= b <= I32_MAX,
    ensures
        arithmetic_interval_spec(
            op,
            IntInterval { min: a as i64, max: a as i64 },
            IntInterval { min: b as i64, max: b as i64 },
        ) == Some(
            (IntInterval {
                min: exact_result(op, a, b) as i64,
                max: exact_result(op, a, b) as i64,
            }),
        ),
{
    lemma_operator_words_differ();
    assert(-0x4000_0000_0000_0000 <= a * b <= 0x4000_0000_0000_0000) by (nonlinear_arith)
        requires
            -0x8000_0000 <= a <= 0x8000_0000,
            -0x8000_0000 <= b <= 0x8000_0000,
    ;
}

/// Reports `+`, `-` or `*` whose result may leave the Int range.
fn check_integer_arithmetic(
    expr: &Expression,
    items: &Vec<Expression>,
    op: &Vec<char>,
    facts: &AbstractState,
    diagnostics: &mut Vec<Vec<char>>,
)
    requires
        items@.len() == 3,
        *expr == Expression::Apply(*items),
        distinct_messages(old(diagnostics)@),
        all_categorized(old(diagnostics)@),
    ensures
        distinct_messages(final(diagnostics)@),
        all_categorized(final(diagnostics)@),
        grows(views(old(diagnostics)@), views(final(diagnostics)@)),
        op@ == "+"@ ==> (sum_overflow(*expr, *facts) matches Some(head) ==> views(final(diagnostics)@).contains(
            report(false, head, lisp_text(*expr), range_help()),
        )),
        op@ == "-"@ ==> (difference_overflow(*expr, *facts) matches Some(head) ==> views(
            final(diagnostics)@,
        ).contains(report(false, head, lisp_text(*expr), range_help()))),
        op@ == "*"@ ==> (product_overflow(*expr, *facts) matches Some(head) ==> views(
            final(diagnostics)@,
        ).contains(report(false, head, lisp_text(*expr), range_help()))),
        literal_operands(*expr) matches Some((o, a, b)) ==> (ring_operator(o) && blank(*facts) && op@
            == o ==> views(final(diagnostics)@) == with_message(
            views(old(diagnostics)@),
            arithmetic_outcome(o, a, b, lisp_text(*expr)),
        )),
{
    proof {
        lemma_operator_words_differ();
        let (o, a, b) = literal_operands(*expr)->0;
        if literal_operands(*expr) is Some && ring_operator(o) {
            lemma_exact_arithmetic(o, a, b);
        }
    }
    let ghost summed = op@ == "+"@ && sum_overflow(*expr, *facts) is Some;
    proof {
        if summed {
            let x = atom_value(items@[1], *facts)->0;
            let y = atom_value(items@[2], *facts)->0;
            assert(crate::numeric::affine_value(*expr, *facts) == Some(x + y));
        }
        if op@ == "-"@ && difference_overflow(*expr, *facts) is Some {
            let x = atom_value(items@[1], *facts)->0;
            let y = atom_value(items@[2], *facts)->0;
            assert(crate::numeric::affine_value(*expr, *facts) == Some(x - y));
        }
    }
    let is_product = text_is(op, "*");
    let relational = if !is_product {
        affine_interval(expr, facts)
    } else {
        None
    };
    let ordinary = integer_interval(expr, facts);
    let refined = match (relational, ordinary) {
        (Some(r), Some(o)) => Some(
            IntInterval {
                min: if r.min >= o.min {
                    r.min
                } else {
                    o.min
                },
                max: if r.max <= o.max {
                    r.max
                } else {
                    o.max
                },
            },
        ),
        (Some(r), None) => Some(r),
        (None, o) => o,
    };
    let result = match refined {
        Some(r) => r,
        None => {
            let left = match integer_interval(&items[1], facts) {
                Some(r) => r,
                None => IntInterval::i32_range(),
            };
            let right = match integer_interval(&items[2], facts) {
                Some(r) => r,
                None => IntInterval::i32_range(),
            };
            match integer_arithmetic_interval(op, left, right) {
                Some(r) => r,
                None => {
                    return;
                },
            }
        },
    };
    let product_is_proven_safe = if is_product {
        let pair = canonical_product_pair(&items[1], &items[2], facts);
        product_upper_is_safe(&pair.0, &pair.1, facts) && product_lower_is_safe(
            &pair.0,
            &pair.1,
            facts,
        )
    } else {
        false
    };
    if !result.fits_i32() && !product_is_proven_safe {
        let below = result.min < I32_MIN;
        let above = result.max > I32_MAX;
        let head = if below && above {
            "Int overflow/underflow possible: "
        } else if below {
            "Int underflow possible: "
        } else {
            "Int overflow possible: "
        };
        let message = message_with_help(
            1,
            head,
            expr,
            "constrain the operands to keep the result within 32-bit Int range",
        );
        record_diagnostic(diagnostics, message);
    }
}

} // verus!
