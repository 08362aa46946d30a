//! Numeric reasoning over expressions: canonical names, constants, integer
//! ranges, affine bounds and product safety.
use vstd::prelude::*;
use crate::text::{
    copy_text, push_str, push_text, text_eq, text_is, text_lt, lemma_int_text_injective, text_less,
};
use crate::expr::{
    Expression, Sexp, head_is, is_word, lisp_text, lemma_operator_words_differ, shape, shapes, sexp_text,
    lemma_shapes, lemma_lisp_text_shape,
};
use crate::facts::TextMap;
use crate::interval::{
    IntInterval, I32_MAX, I32_MIN, integer_arithmetic_interval, arithmetic_interval_spec, clamp64,
};
use crate::state::{
    AbstractState, AffineTerms, affine_upper_bound, checked_add64, checked_mul64, checked_sub64,
    negate_affine_terms, blank, lemma_first_bound, unbounded, bound_at,
};

verus! {

/// `(op a b)` applied to two Int literals: the operator and the two values.
pub open spec fn literal_operands(e: Expression) -> Option<(Seq<char>, int, int)> {
    match e {
        Expression::Apply(items) => if items@.len() == 3 && items@[0] is Word && items@[1] is Int
            && items@[2] is Int {
            Some((items@[0]->Word_0@, items@[1]->Int_0 as int, items@[2]->Int_0 as int))
        } else {
            None
        },
        _ => None,
    }
}

/// One of the operators `+`, `-` and `*`.
pub open spec fn ring_operator(op: Seq<char>) -> bool {
    op == "+"@ || op == "-"@ || op == "*"@
}

/// `a op b` computed exactly, for `+`, `-` and `*`.
pub open spec fn exact_result(op: Seq<char>, a: int, b: int) -> int {
    if op == "+"@ {
        a + b
    } else if op == "-"@ {
        a - b
    } else {
        a * b
    }
}

/// `v` is within the 32-bit Int range.
pub open spec fn fits_int(v: int) -> bool {
    I32_MIN <= v <= I32_MAX
}

/// `a op b` as an Int, unless it leaves the Int range.
pub open spec fn checked_result(op: Seq<char>, a: int, b: int) -> Option<i32> {
    if fits_int(exact_result(op, a, b)) {
        Some(exact_result(op, a, b) as i32)
    } else {
        None
    }
}

/// The operator coded 0, 1 or 2.
pub open spec fn operator_word(op: u8) -> Seq<char> {
    if op == 0 {
        "+"@
    } else if op == 1 {
        "-"@
    } else {
        "*"@
    }
}

/// The value of an Int literal, or of `+` or `-` applied to two Int
/// literals.
pub open spec fn affine_literal(e: Expression) -> Option<int> {
    match e {
        Expression::Int(v) => Some(v as int),
        _ => match literal_operands(e) {
            Some((op, a, b)) => if op == "+"@ || op == "-"@ {
                Some(exact_result(op, a, b))
            } else {
                None
            },
            None => None,
        },
    }
}

/// The value of a constant operand: an Int literal, or a name with a
/// recorded constant.
pub open spec fn atom_value(e: Expression, s: AbstractState) -> Option<int> {
    match e {
        Expression::Int(v) => Some(v as int),
        Expression::Word(w) => if s.integer_constants.has_key(w@) {
            Some(s.integer_constants.value_at(w@) as int)
        } else {
            None
        },
        _ => None,
    }
}

/// The exact value of a constant operand, or of `(+ a b)` or `(- a b)` on
/// two constant operands.
pub open spec fn affine_value(e: Expression, s: AbstractState) -> Option<int> {
    match e {
        Expression::Apply(items) => if items@.len() == 3 && items@[0] is Word && (items@[0]->Word_0@ == "+"@
            || items@[0]->Word_0@ == "-"@) && atom_value(items@[1], s) is Some && atom_value(items@[2], s) is Some {
            Some(exact_result(items@[0]->Word_0@, atom_value(items@[1], s)->0, atom_value(items@[2], s)->0))
        } else {
            None
        },
        _ => atom_value(e, s),
    }
}

/// The range known for an operand written as an Int literal or a name.
pub open spec fn operand_interval(e: Expression, s: AbstractState) -> Option<IntInterval> {
    match e {
        Expression::Int(v) => Some(IntInterval { min: v as i64, max: v as i64 }),
        Expression::Word(_) => word_interval(e, s),
        _ => None,
    }
}

/// The range known for an Int expression built of literals, names and the
/// operators `+`, `-` and `*`: a literal is its value, a name has the range
/// its facts give, and an operation has the range that interval arithmetic
/// gives from its operands'.  A sum with a midpoint offset for an operand,
/// and a difference of one scalar with itself or under recorded orderings,
/// are left out.
pub open spec fn known_range(e: Expression, s: AbstractState) -> Option<IntInterval>
    decreases e,
{
    match e {
        Expression::Int(v) => Some(IntInterval { min: v as i64, max: v as i64 }),
        Expression::Word(_) => word_interval(e, s),
        Expression::Apply(items) => if items@.len() == 3 && items@[0] is Word {
            let op = items@[0]->Word_0@;
            let plain = if op == "+"@ {
                !offset_has_upper(items@[1]) && !offset_has_upper(items@[2])
            } else if op == "-"@ {
                s.leq_pairs.items@.len() == 0 && scalar_text(items@[1], s.scalar_aliases) != scalar_text(
                    items@[2],
                    s.scalar_aliases,
                )
            } else {
                op == "*"@
            };
            if plain && known_range(items@[1], s) is Some && known_range(items@[2], s) is Some {
                arithmetic_interval_spec(op, known_range(items@[1], s)->0, known_range(items@[2], s)->0)
            } else {
                None
            }
        } else {
            None
        },
        _ => None,
    }
}

/// The words that make a literal vector: `(vector ...)` and its typed kin.
pub open spec fn vector_word(w: Seq<char>) -> bool {
    w == "vector"@ || w == "string"@ || w == "integers"@ || w == "bools"@ || w == "decimals"@ || w
        == "strings"@
}

/// The number of elements of a literal vector.
pub open spec fn literal_length(e: Expression) -> Option<int> {
    match e {
        Expression::Apply(items) => if items@.len() > 0 && items@[0] is Word && vector_word(
            items@[0]->Word_0@,
        ) {
            Some(items@.len() - 1)
        } else {
            None
        },
        _ => None,
    }
}

/// The canonical text of a scalar expression: each name with an alias is
/// replaced by it, the rest rendered as Lisp.
pub open spec fn scalar_text(e: Expression, aliases: TextMap<Vec<char>>) -> Seq<char>
    decreases e,
{
    match e {
        Expression::Word(name) => if aliases.has_key(name@) {
            aliases.value_at(name@)@
        } else {
            name@
        },
        Expression::Apply(items) => seq!['('] + scalar_items(items@, aliases) + seq![')'],
        _ => lisp_text(e),
    }
}

/// The canonical texts of `s` joined by single spaces.
pub open spec fn scalar_items(s: Seq<Expression>, aliases: TextMap<Vec<char>>) -> Seq<char>
    decreases s,
{
    if s.len() == 0 {
        Seq::empty()
    } else if s.len() == 1 {
        scalar_text(s[0], aliases)
    } else {
        scalar_items(s.drop_last(), aliases) + seq![' '] + scalar_text(s.last(), aliases)
    }
}

/// The canonical text of a vector access: each name with an alias is
/// replaced by it, through nested `(get v i)`, whose index is rendered as
/// Lisp.
pub open spec fn access_text(e: Expression, aliases: TextMap<Vec<char>>) -> Seq<char>
    decreases e,
{
    match e {
        Expression::Word(name) => if aliases.has_key(name@) {
            aliases.value_at(name@)@
        } else {
            name@
        },
        Expression::Apply(items) => if items@.len() == 3 && items@[0] is Word && items@[0]->Word_0@
            == "get"@ {
            "(get "@ + access_text(items@[1], aliases) + seq![' '] + lisp_text(items@[2]) + seq![')']
        } else {
            lisp_text(e)
        },
        _ => lisp_text(e),
    }
}

/// `access_text` read off a shape.
pub open spec fn access_sexp(e: Sexp, aliases: TextMap<Vec<char>>) -> Seq<char>
    decreases e,
{
    match e {
        Sexp::Word(name) => if aliases.has_key(name) {
            aliases.value_at(name)@
        } else {
            name
        },
        Sexp::List(items) => if items.len() == 3 && items[0] == Sexp::Word("get"@) {
            "(get "@ + access_sexp(items[1], aliases) + seq![' '] + sexp_text(items[2]) + seq![')']
        } else {
            sexp_text(e)
        },
        _ => sexp_text(e),
    }
}

/// The access text of an expression depends on its shape alone.
pub proof fn lemma_access_text_shape(e: Expression, aliases: TextMap<Vec<char>>)
    ensures
        access_text(e, aliases) == access_sexp(shape(e), aliases),
    decreases e,
{
    lemma_lisp_text_shape(e);
    if let Expression::Apply(items) = e {
        lemma_shapes(items@);
        if items@.len() == 3 {
            assert(decreases_to!(e => items@[1]));
            lemma_access_text_shape(items@[1], aliases);
            lemma_lisp_text_shape(items@[2]);
            if items@[0] is Word {
            } else {
                assert(shapes(items@)[0] != Sexp::Word("get"@));
            }
        }
    }
}

/// The canonical text of a scalar expression: immutable names are replaced by
/// the expressions they were bound to.
pub(crate) fn canonical_scalar(expr: &Expression, state: &AbstractState) -> (r: Vec<char>)
    ensures
        expr is Int ==> r@ == lisp_text(*expr),
        r@ == scalar_text(*expr, state.scalar_aliases),
    decreases *expr,
{
    match expr {
        Expression::Word(name) => match state.scalar_aliases.get_ref(name) {
            Some(alias) => copy_text(alias),
            None => copy_text(name),
        },
        Expression::Apply(items) => {
            let mut out: Vec<char> = Vec::new();
            out.push('(');
            let mut i: usize = 0;
            while i < items.len()
                invariant
                    i <= items.len(),
                    *expr == Expression::Apply(*items),
                    out@ == seq!['('] + scalar_items(items@.take(i as int), state.scalar_aliases),
                decreases items.len() - i,
            {
                assert(decreases_to!(*expr => items@[i as int]));
                proof {
                    let t = items@.take(i + 1);
                    assert(t.drop_last() =~= items@.take(i as int));
                    assert(t.last() == items@[i as int]);
                }
                let ghost before = out@;
                if i > 0 {
                    out.push(' ');
                }
                let part = canonical_scalar(&items[i], state);
                push_text(&mut out, &part);
                proof {
                    let t = items@.take(i + 1);
                    if i == 0 {
                        assert(items@.take(0).len() == 0);
                        assert(scalar_items(items@.take(0), state.scalar_aliases) =~= Seq::<char>::empty());
                        assert(out@ =~= seq!['('] + scalar_items(t, state.scalar_aliases));
                    } else {
                        assert(out@ =~= seq!['('] + scalar_items(t, state.scalar_aliases));
                    }
                }
                i += 1;
            }
            proof {
                assert(items@.take(items@.len() as int) =~= items@);
            }
            out.push(')');
            out
        },
        _ => expr.lisp_chars(),
    }
}

/// The canonical text of a vector access: names are replaced by the vectors
/// they alias, through nested `get`s.
pub(crate) fn canonical_access(expr: &Expression, state: &AbstractState) -> (r: Vec<char>)
    ensures
        r@ == access_text(*expr, state.aliases),
    decreases *expr,
{
    match expr {
        Expression::Word(name) => match state.aliases.get_ref(name) {
            Some(alias) => copy_text(alias),
            None => copy_text(name),
        },
        Expression::Apply(items) => {
            if items.len() == 3 && head_is(items, "get") {
                assert(decreases_to!(*expr => items@[1]));
                let mut out: Vec<char> = Vec::new();
                push_str(&mut out, "(get ");
                let inner = canonical_access(&items[1], state);
                push_text(&mut out, &inner);
                out.push(' ');
                let index = items[2].lisp_chars();
                push_text(&mut out, &index);
                out.push(')');
                proof {
                    reveal_strlit("(get ");
                    reveal_strlit("get");
                    assert(out@ =~= access_text(*expr, state.aliases));
                }
                out
            } else {
                expr.lisp_chars()
            }
        },
        _ => expr.lisp_chars(),
    }
}

/// The number of elements of a literal vector, string or typed vector.
pub(crate) fn literal_vector_length(expr: &Expression) -> (r: Option<usize>)
    ensures
        r is Some <==> literal_length(*expr) is Some,
        r matches Some(n) ==> n == literal_length(*expr)->0,
{
    match expr {
        Expression::Apply(items) => {
            if items.len() > 0 && (head_is(items, "vector") || head_is(items, "string")
                || head_is(items, "integers") || head_is(items, "bools") || head_is(
                items,
                "decimals",
            ) || head_is(items, "strings")) {
                Some(items.len() - 1)
            } else {
                None
            }
        },
        _ => None,
    }
}

/// The magnitude of `x`.
pub open spec fn magnitude(x: int) -> int {
    if x < 0 {
        -x
    } else {
        x
    }
}

/// `a / b` rounded toward zero.
pub open spec fn trunc_quotient(a: int, b: int) -> int {
    let q = magnitude(a) / magnitude(b);
    if (a < 0) != (b < 0) {
        -q
    } else {
        q
    }
}

/// `x` limited to the range of `i64`.
pub open spec fn clamp_i64(x: int) -> int {
    if x < i64::MIN {
        i64::MIN as int
    } else if x > i64::MAX {
        i64::MAX as int
    } else {
        x
    }
}

/// `a` divided by `b`, rounded toward zero, as Rust's integer division does;
/// the one quotient that leaves `i64` saturates.
pub fn trunc_div64(a: i64, b: i64) -> (r: i64)
    requires
        b != 0,
    ensures
        r == clamp_i64(trunc_quotient(a as int, b as int)),
{
    let ua: u64 = if a < 0 {
        if a == i64::MIN {
            9223372036854775808u64
        } else {
            (-a) as u64
        }
    } else {
        a as u64
    };
    let ub: u64 = if b < 0 {
        if b == i64::MIN {
            9223372036854775808u64
        } else {
            (-b) as u64
        }
    } else {
        b as u64
    };
    let q: u64 = ua / ub;
    assert(ua == magnitude(a as int) && ub == magnitude(b as int));
    assert(q <= ua) by (nonlinear_arith)
        requires
            ub >= 1,
            q == ua / ub,
    ;
    if (a < 0) != (b < 0) {
        if q >= 9223372036854775808u64 {
            i64::MIN
        } else {
            -(q as i64)
        }
    } else {
        if q > 9223372036854775807u64 {
            i64::MAX
        } else {
            q as i64
        }
    }
}

/// `a op b` in Int, unless it overflows; `/` also fails on a zero divisor.
fn checked_i32_op(op: u8, a: i32, b: i32) -> (r: Option<i32>)
    ensures
        op <= 2 ==> r == checked_result(operator_word(op), a as int, b as int),
{
    proof {
        reveal_strlit("+");
        reveal_strlit("-");
        reveal_strlit("*");
    }
    let x = a as i64;
    let y = b as i64;
    assert(-0x8000_0000 * 0x8000_0000 <= x * y <= 0x8000_0000 * 0x8000_0000) by (nonlinear_arith)
        requires
            -0x8000_0000 <= x <= 0x7fff_ffff,
            -0x8000_0000 <= y <= 0x7fff_ffff,
    ;
    let v: i64 = if op == 0 {
        x + y
    } else if op == 1 {
        x - y
    } else if op == 2 {
        x * y
    } else {
        if y == 0 {
            return None;
        }
        trunc_div64(x, y)
    };
    proof {
        assert("-"@[0] != "+"@[0] && "*"@[0] != "+"@[0] && "*"@[0] != "-"@[0]);
        if op <= 2 {
            assert(v == exact_result(operator_word(op), a as int, b as int));
        }
    }
    if v < i32::MIN as i64 || v > i32::MAX as i64 {
        None
    } else {
        Some(v as i32)
    }
}

/// The Int value an expression is known to have.
pub(crate) fn integer_constant(expr: &Expression, state: &AbstractState) -> (r: Option<i32>)
    ensures
        *expr matches Expression::Int(v) ==> r == Some(v),
        *expr matches Expression::Word(name) ==> r == if state.integer_constants.has_key(name@) {
            Some(state.integer_constants.value_at(name@))
        } else {
            None
        },
        literal_operands(*expr) matches Some((op, a, b)) ==> (ring_operator(op) ==> r
            == checked_result(op, a, b)),
        *expr is Dec ==> r is None,
        *expr matches Expression::Apply(items) && items@.len() != 3 ==> r is None,
        *expr matches Expression::Apply(items) ==> (items@.len() == 3 && items@[0] is Word && ring_operator(
            items@[0]->Word_0@,
        ) && atom_value(items@[1], *state) is Some && atom_value(items@[2], *state) is Some ==> r
            == checked_result(items@[0]->Word_0@, atom_value(items@[1], *state)->0, atom_value(items@[2], *state)->0)),
    decreases *expr,
{
    match expr {
        Expression::Int(value) => Some(*value),
        Expression::Word(name) => state.integer_constants.get(name),
        Expression::Apply(items) => {
            if items.len() != 3 || !matches!(&items[0], Expression::Word(_)) {
                return None;
            }
            let op: u8 = if is_word(&items[0], "+") {
                0
            } else if is_word(&items[0], "-") {
                1
            } else if is_word(&items[0], "*") {
                2
            } else if is_word(&items[0], "/") {
                3
            } else {
                return None;
            };
            assert(decreases_to!(*expr => items@[1]));
            assert(decreases_to!(*expr => items@[2]));
            if op == 3 {
                let divisor = integer_constant(&items[2], state)?;
                if divisor == 0 {
                    return None;
                }
                let left = integer_constant(&items[1], state)?;
                checked_i32_op(3, left, divisor)
            } else {
                let left = integer_constant(&items[1], state)?;
                let right = integer_constant(&items[2], state)?;
                checked_i32_op(op, left, right)
            }
        },
        Expression::Dec(_) => None,
    }
}

/// True when `a <= b` follows from the recorded orderings, taken
/// transitively.
pub(crate) fn relation_is_known_leq(left: &Expression, right: &Expression, state: &AbstractState) -> (r:
    bool)
    ensures
        left is Int && right is Int && state.leq_pairs.items@.len() == 0 && r ==> left->Int_0
            == right->Int_0,
        scalar_text(*left, state.scalar_aliases) == scalar_text(*right, state.scalar_aliases) ==> r,
        state.leq_pairs.items@.len() == 0 && r ==> scalar_text(*left, state.scalar_aliases) == scalar_text(
            *right,
            state.scalar_aliases,
        ),
{
    let start = canonical_scalar(left, state);
    let goal = canonical_scalar(right, state);
    if text_eq(&start, &goal) {
        proof {
            if left is Int && right is Int {
                lemma_int_text_injective(left->Int_0 as int, right->Int_0 as int);
            }
        }
        return true;
    }
    let pairs = &state.leq_pairs.items;
    let mut reached: Vec<Vec<char>> = Vec::new();
    reached.push(start);
    let mut round: usize = 0;
    while round <= pairs.len()
        decreases pairs.len() + 1 - round,
    {
        let mut added = false;
        let mut i: usize = 0;
        while i < pairs.len()
            invariant
                i <= pairs.len(),
                pairs@.len() == 0 ==> !added,
            decreases pairs.len() - i,
        {
            if text_in(&reached, &pairs[i].0) {
                if text_eq(&pairs[i].1, &goal) {
                    return true;
                }
                if !text_in(&reached, &pairs[i].1) {
                    reached.push(copy_text(&pairs[i].1));
                    added = true;
                }
            }
            i += 1;
        }
        if !added || round == pairs.len() {
            return false;
        }
        round += 1;
    }
    false
}

/// True when `t` is one of `list`.
pub fn text_in(list: &Vec<Vec<char>>, t: &Vec<char>) -> (r: bool)
    ensures
        r == exists|i: int| 0 <= i < list@.len() && (#[trigger] list@[i])@ == t@,
{
    let mut i: usize = 0;
    while i < list.len()
        invariant
            i <= list.len(),
            forall|j: int| 0 <= j < i ==> (#[trigger] list@[j])@ != t@,
        decreases list.len() - i,
    {
        if text_eq(&list[i], t) {
            return true;
        }
        i += 1;
    }
    false
}

/// The facts of `b` are those of `a`, but for the product facts.
pub open spec fn only_products_changed(a: AbstractState, b: AbstractState) -> bool {
    &&& a.safe_pairs == b.safe_pairs && a.nonnegative == b.nonnegative && a.nonzero == b.nonzero
    &&& a.integer_constants == b.integer_constants && a.integer_ranges == b.integer_ranges
    &&& a.leq_pairs == b.leq_pairs && a.affine_upper_bounds == b.affine_upper_bounds
    &&& a.fixed_lengths == b.fixed_lengths && a.minimum_lengths == b.minimum_lengths
    &&& a.length_sources == b.length_sources && a.aliases == b.aliases && a.scalar_aliases == b.scalar_aliases
}

/// Every product fact of `a` holds in `b`.
pub open spec fn products_kept(a: AbstractState, b: AbstractState) -> bool {
    &&& forall|x: Seq<char>, y: Seq<char>| a.product_upper_safe.has(x, y) ==> #[trigger] b.product_upper_safe.has(x, y)
    &&& forall|x: Seq<char>, y: Seq<char>| a.product_lower_safe.has(x, y) ==> #[trigger] b.product_lower_safe.has(x, y)
}

/// The facts of `b` are those of `a`, but for the affine bounds.
pub open spec fn only_bounds_changed(a: AbstractState, b: AbstractState) -> bool {
    &&& a.safe_pairs == b.safe_pairs && a.nonnegative == b.nonnegative && a.nonzero == b.nonzero
    &&& a.integer_constants == b.integer_constants && a.integer_ranges == b.integer_ranges
    &&& a.leq_pairs == b.leq_pairs && a.product_upper_safe == b.product_upper_safe
    &&& a.product_lower_safe == b.product_lower_safe
    &&& a.fixed_lengths == b.fixed_lengths && a.minimum_lengths == b.minimum_lengths
    &&& a.length_sources == b.length_sources && a.aliases == b.aliases && a.scalar_aliases == b.scalar_aliases
}

/// The facts of `b` are those of `a`, but for the integer ranges and the
/// nonzero names.
pub open spec fn only_ranges_changed(a: AbstractState, b: AbstractState) -> bool {
    &&& a.safe_pairs == b.safe_pairs && a.nonnegative == b.nonnegative
    &&& a.integer_constants == b.integer_constants && a.affine_upper_bounds == b.affine_upper_bounds
    &&& a.leq_pairs == b.leq_pairs && a.product_upper_safe == b.product_upper_safe
    &&& a.product_lower_safe == b.product_lower_safe
    &&& a.fixed_lengths == b.fixed_lengths && a.minimum_lengths == b.minimum_lengths
    &&& a.length_sources == b.length_sources && a.aliases == b.aliases && a.scalar_aliases == b.scalar_aliases
}

/// The range `m` records for `x`, else all of Int.
pub open spec fn range_or_all(m: TextMap<IntInterval>, x: Seq<char>) -> IntInterval {
    if m.has_key(x) {
        m.value_at(x)
    } else {
        IntInterval { min: I32_MIN, max: I32_MAX }
    }
}

/// Each range of `b` lies within what `a` knows of that name, and every
/// name `a` has a range for keeps one.
pub open spec fn ranges_narrowed(a: TextMap<IntInterval>, b: TextMap<IntInterval>) -> bool {
    &&& forall|x: Seq<char>| #[trigger] a.has_key(x) ==> b.has_key(x)
    &&& forall|x: Seq<char>| #[trigger] b.has_key(x) ==> range_or_all(a, x).min <= b.value_at(x).min
        && b.value_at(x).max <= range_or_all(a, x).max
}

/// Narrows the ranges of both sides of every recorded ordering, until
/// nothing changes or as many rounds as there are orderings have run.
pub(crate) fn propagate_relational_ranges(facts: &mut AbstractState)
    ensures
        only_ranges_changed(*old(facts), *final(facts)),
        final(facts).nonzero == old(facts).nonzero,
        ranges_narrowed(old(facts).integer_ranges, final(facts).integer_ranges),
{
    let ghost start = *facts;
    let n = facts.leq_pairs.items.len();
    let rounds: usize = if n < usize::MAX {
        n + 1
    } else {
        n
    };
    let mut round: usize = 0;
    while round < rounds
        invariant
            only_ranges_changed(start, *facts),
            facts.nonzero == start.nonzero,
            ranges_narrowed(start.integer_ranges, facts.integer_ranges),
        decreases rounds - round,
    {
        let mut changed = false;
        let pairs = facts.leq_pairs.items.clone();
        let mut i: usize = 0;
        while i < pairs.len()
            invariant
                i <= pairs.len(),
                only_ranges_changed(start, *facts),
                facts.nonzero == start.nonzero,
                ranges_narrowed(start.integer_ranges, facts.integer_ranges),
            decreases pairs.len() - i,
        {
            let ghost mid = facts.integer_ranges;
            let lower = &pairs[i].0;
            let upper = &pairs[i].1;
            let lower_range = match facts.integer_ranges.get(lower) {
                Some(r) => r,
                None => IntInterval::i32_range(),
            };
            let upper_range = match facts.integer_ranges.get(upper) {
                Some(r) => r,
                None => IntInterval::i32_range(),
            };
            let narrowed_lower = IntInterval {
                min: lower_range.min,
                max: if lower_range.max <= upper_range.max {
                    lower_range.max
                } else {
                    upper_range.max
                },
            };
            let narrowed_upper = IntInterval {
                min: if upper_range.min >= lower_range.min {
                    upper_range.min
                } else {
                    lower_range.min
                },
                max: upper_range.max,
            };
            proof {
                assert(lower_range == range_or_all(mid, lower@));
                assert(upper_range == range_or_all(mid, upper@));
            }
            if narrowed_lower.min != lower_range.min || narrowed_lower.max != lower_range.max {
                facts.integer_ranges.insert(copy_text(lower), narrowed_lower);
                changed = true;
            }
            let ghost mid2 = facts.integer_ranges;
            proof {
                assert forall|x: Seq<char>| #[trigger] mid2.has_key(x) implies range_or_all(mid, x).min <= mid2.value_at(x).min
                    && mid2.value_at(x).max <= range_or_all(mid, x).max by {
                }
                assert(upper_range.min <= range_or_all(mid2, upper@).min && range_or_all(mid2, upper@).max <= upper_range.max);
            }
            if narrowed_upper.min != upper_range.min || narrowed_upper.max != upper_range.max {
                facts.integer_ranges.insert(copy_text(upper), narrowed_upper);
                changed = true;
            }
            proof {
                assert forall|x: Seq<char>| #[trigger] facts.integer_ranges.has_key(x) implies range_or_all(start.integer_ranges, x).min <= facts.integer_ranges.value_at(x).min
                    && facts.integer_ranges.value_at(x).max <= range_or_all(start.integer_ranges, x).max by {
                    if x == upper@ && narrowed_upper != upper_range {
                    } else if mid2.has_key(x) {
                    }
                }
            }
            i += 1;
        }
        if !changed {
            return;
        }
        round += 1;
    }
}

/// `offset` has the shape `(op (op upper x) y)`.
pub open spec fn offset_has_upper(offset: Expression) -> bool {
    match offset {
        Expression::Apply(div) => div@.len() == 3 && match div@[1] {
            Expression::Apply(sub) => sub@.len() == 3,
            _ => false,
        },
        _ => false,
    }
}

/// The `upper` of an offset of the shape `(op (op upper x) y)`.
pub open spec fn offset_upper(offset: Expression) -> Expression {
    match offset {
        Expression::Apply(div) => match div@[1] {
            Expression::Apply(sub) => sub@[1],
            _ => offset,
        },
        _ => offset,
    }
}

/// The parts `(upper, base, divisor)` of an offset `(/ (- upper base) divisor)`.
pub open spec fn midpoint_parts(offset: Expression) -> Option<(Expression, Expression, Expression)> {
    match offset {
        Expression::Apply(div) => if div@.len() == 3 && div@[0] is Word && div@[0]->Word_0@ == "/"@ {
            match div@[1] {
                Expression::Apply(sub) => if sub@.len() == 3 && sub@[0] is Word && sub@[0]->Word_0@ == "-"@ {
                    Some((sub@[1], sub@[2], div@[2]))
                } else {
                    None
                },
                _ => None,
            }
        } else {
            None
        },
        _ => None,
    }
}

/// The operand an `(upper - base) / divisor` offset measures from, when
/// `base + offset` is a midpoint that cannot leave `[base, upper]`: the
/// offset subtracts this very base, the divisor is a positive constant, and
/// `base <= upper` is known.
fn midpoint_upper<'a>(base: &Expression, offset: &'a Expression, state: &AbstractState) -> (r:
    Option<&'a Expression>)
    ensures
        r matches Some(u) ==> offset_has_upper(*offset) && *u == offset_upper(*offset),
        r is Some ==> (midpoint_parts(*offset) matches Some((u, rb, d)) && scalar_text(*base, state.scalar_aliases)
            == scalar_text(rb, state.scalar_aliases)),
        midpoint_parts(*offset) matches Some((u, rb, d)) ==> (scalar_text(*base, state.scalar_aliases)
            == scalar_text(rb, state.scalar_aliases) && d is Int && d->Int_0 >= 1 && scalar_text(*base, state.scalar_aliases)
            == scalar_text(u, state.scalar_aliases) ==> r == Some(&u)),
{
    match offset {
        Expression::Apply(div) => {
            if div.len() != 3 || !is_word(&div[0], "/") {
                return None;
            }
            match &div[1] {
                Expression::Apply(sub) => {
                    if sub.len() != 3 || !is_word(&sub[0], "-") {
                        return None;
                    }
                    let upper = &sub[1];
                    let repeated_base = &sub[2];
                    let b1 = canonical_scalar(base, state);
                    let b2 = canonical_scalar(repeated_base, state);
                    if !text_eq(&b1, &b2) {
                        return None;
                    }
                    match integer_constant(&div[2], state) {
                        Some(d) => {
                            if d < 1 {
                                return None;
                            }
                        },
                        None => {
                            return None;
                        },
                    }
                    if !relation_is_known_leq(base, upper, state) {
                        return None;
                    }
                    Some(upper)
                },
                _ => None,
            }
        },
        _ => None,
    }
}

/// The range known for a name: its own recorded range (through its scalar
/// alias first), else its constant, else `[0, MAX]` for a name known not to be
/// negative.
pub open spec fn word_interval(e: Expression, s: AbstractState) -> Option<IntInterval> {
    match e {
        Expression::Word(name) => {
            let key = scalar_text(e, s.scalar_aliases);
            if s.integer_ranges.has_key(key) {
                Some(s.integer_ranges.value_at(key))
            } else if s.integer_ranges.has_key(name@) {
                Some(s.integer_ranges.value_at(name@))
            } else if s.integer_constants.has_key(name@) {
                Some(IntInterval { min: s.integer_constants.value_at(name@) as i64, max: s.integer_constants.value_at(name@) as i64 })
            } else if s.nonnegative.has(name@) {
                Some(IntInterval { min: 0, max: I32_MAX })
            } else {
                None
            }
        },
        _ => None,
    }
}

/// `current` cut down to `constraint`; a name known to be nonzero loses a
/// zero end point.
pub open spec fn narrowed_range(current: IntInterval, constraint: IntInterval, nonzero: bool) -> IntInterval {
    let lo: i64 = if current.min >= constraint.min { current.min } else { constraint.min };
    let hi: i64 = if current.max <= constraint.max { current.max } else { constraint.max };
    if nonzero && lo == 0 && hi > 0 {
        IntInterval { min: 1, max: hi }
    } else if nonzero && hi == 0 && lo < 0 {
        IntInterval { min: lo, max: -1i64 }
    } else {
        IntInterval { min: lo, max: hi }
    }
}

/// What narrowing a name by `constraint` records: when the narrowed range is
/// not empty it becomes the name's range, and the name is nonzero when the
/// range excludes zero; an empty range leaves ranges and nonzero names alone.
pub open spec fn word_narrowed(expr: Expression, a: AbstractState, b: AbstractState, constraint: IntInterval) -> bool {
    let key = scalar_text(expr, a.scalar_aliases);
    let current = match word_interval(expr, a) {
        Some(c) => c,
        None => IntInterval { min: I32_MIN, max: I32_MAX },
    };
    let n = narrowed_range(current, constraint, a.nonzero.has(key));
    expr is Word ==> if n.min <= n.max {
        &&& b.integer_ranges.has_key(key) && b.integer_ranges.value_at(key) == n
        &&& (n.max < 0 || n.min > 0) ==> b.nonzero.has(key)
    } else {
        b.integer_ranges == a.integer_ranges && b.nonzero == a.nonzero
    }
}

/// The range of an Int expression, when one is known.
pub(crate) fn integer_interval(expr: &Expression, state: &AbstractState) -> (r: Option<IntInterval>)
    ensures
        expr is Word ==> r == word_interval(*expr, *state),
        *expr matches Expression::Int(v) ==> r == Some((IntInterval { min: v as i64, max: v as i64 })),
        literal_operands(*expr) matches Some((op, a, b)) ==> (ring_operator(op) && blank(*state) ==> r
            == arithmetic_interval_spec(
            op,
            IntInterval { min: a as i64, max: a as i64 },
            IntInterval { min: b as i64, max: b as i64 },
        )),
        *expr matches Expression::Apply(items) ==> (items@.len() == 3 && items@[0] == Expression::Word(
            items@[0]->Word_0,
        ) && items@[0]->Word_0@ == "+"@ && operand_interval(items@[1], *state) is Some && operand_interval(
            items@[2],
            *state,
        ) is Some ==> r == arithmetic_interval_spec(
            "+"@,
            operand_interval(items@[1], *state)->0,
            operand_interval(items@[2], *state)->0,
        )),
        *expr matches Expression::Apply(items) ==> (items@.len() == 3 && items@[0] == Expression::Word(
            items@[0]->Word_0,
        ) && items@[0]->Word_0@ == "*"@ && operand_interval(items@[1], *state) is Some && operand_interval(
            items@[2],
            *state,
        ) is Some ==> r == arithmetic_interval_spec(
            "*"@,
            operand_interval(items@[1], *state)->0,
            operand_interval(items@[2], *state)->0,
        )),
        *expr matches Expression::Apply(items) ==> (items@.len() == 3 && items@[0] == Expression::Word(
            items@[0]->Word_0,
        ) && items@[0]->Word_0@ == "-"@ && operand_interval(items@[1], *state) is Some && operand_interval(
            items@[2],
            *state,
        ) is Some && state.leq_pairs.items@.len() == 0 && scalar_text(items@[1], state.scalar_aliases)
            != scalar_text(items@[2], state.scalar_aliases) ==> r == arithmetic_interval_spec(
            "-"@,
            operand_interval(items@[1], *state)->0,
            operand_interval(items@[2], *state)->0,
        )),
        known_range(*expr, *state) is Some ==> r == known_range(*expr, *state),
    decreases *expr, 1nat,
{
    match expr {
        Expression::Int(value) => Some(IntInterval::exact(*value)),
        Expression::Word(name) => {
            let key = canonical_scalar(expr, state);
            if let Some(range) = state.integer_ranges.get(&key) {
                return Some(range);
            }
            if let Some(range) = state.integer_ranges.get(name) {
                return Some(range);
            }
            if let Some(c) = state.integer_constants.get(name) {
                return Some(IntInterval::exact(c));
            }
            if state.nonnegative.contains(name) {
                return Some(IntInterval { min: 0, max: I32_MAX });
            }
            None
        },
        Expression::Apply(items) => {
            if items.len() == 2 && head_is(items, "length") {
                let vector = canonical_access(&items[1], state);
                let len = match state.fixed_lengths.get(&vector) {
                    Some(l) => Some(l),
                    None => literal_vector_length(&items[1]),
                };
                return match len {
                    Some(l) => {
                        let v: i64 = if l <= 2147483647usize {
                            l as i64
                        } else {
                            I32_MAX
                        };
                        Some(IntInterval { min: v, max: v })
                    },
                    None => Some(IntInterval { min: 0, max: I32_MAX }),
                };
            }
            if items.len() == 3 && (head_is(items, "+") || head_is(items, "-") || head_is(
                items,
                "*",
            )) {
                assert(decreases_to!(*expr => items@[1]));
                assert(decreases_to!(*expr => items@[2]));
                if head_is(items, "+") {
                    if let Some(m) = midpoint_interval(expr, 1, 2, state) {
                        return Some(m);
                    }
                    if let Some(m) = midpoint_interval(expr, 2, 1, state) {
                        return Some(m);
                    }
                }
                let left_range = integer_interval(&items[1], state)?;
                let right_range = integer_interval(&items[2], state)?;
                let op = match &items[0] {
                    Expression::Word(w) => w,
                    _ => {
                        return None;
                    },
                };
                let mut result = integer_arithmetic_interval(op, left_range, right_range)?;
                proof {
                    lemma_operator_words_differ();
                    if blank(*state) && state.leq_pairs.items@.len() > 0 {
                        assert(state.leq_pairs.has(
                            state.leq_pairs.items@[0].0@,
                            state.leq_pairs.items@[0].1@,
                        ));
                    }
                }
                if head_is(items, "-") {
                    if relation_is_known_leq(&items[2], &items[1], state) {
                        if result.min < 0 {
                            result.min = 0;
                        }
                    }
                    if relation_is_known_leq(&items[1], &items[2], state) {
                        if result.max > 0 {
                            result.max = 0;
                        }
                    }
                }
                proof {
                    let (o, a, b) = literal_operands(*expr)->0;
                    if literal_operands(*expr) is Some && ring_operator(o) && blank(*state) {
                        assert(left_range == IntInterval { min: a as i64, max: a as i64 });
                        assert(right_range == IntInterval { min: b as i64, max: b as i64 });
                        assert(op@ == o);
                        assert(Some(result) == arithmetic_interval_spec(o, left_range, right_range));
                    }
                }
                return Some(result);
            }
            if items.len() == 3 && head_is(items, "/") {
                assert(decreases_to!(*expr => items@[1]));
                let numerator = integer_interval(&items[1], state)?;
                let divisor = integer_constant(&items[2], state)?;
                if divisor == 0 {
                    return None;
                }
                let a = trunc_div64(numerator.min, divisor as i64);
                let b = trunc_div64(numerator.max, divisor as i64);
                return Some(
                    IntInterval {
                        min: if a <= b {
                            a
                        } else {
                            b
                        },
                        max: if a >= b {
                            a
                        } else {
                            b
                        },
                    },
                );
            }
            let key = canonical_scalar(expr, state);
            state.integer_ranges.get(&key)
        },
        Expression::Dec(_) => None,
    }
}

/// `base + offset` with `base` a nonnegative constant and `offset` the
/// degenerate midpoint offset `(/ (- base base) d)` for a positive constant
/// `d`.
pub open spec fn constant_midpoint(base: Expression, offset: Expression) -> bool {
    &&& base is Int && base->Int_0 >= 0
    &&& midpoint_parts(offset) matches Some((u, rb, d))
    &&& u == base && rb == base && d is Int && d->Int_0 >= 1
}

/// The range of the sum `expr` when operand `b` plus operand `o` is a
/// midpoint of operand `b` and a known upper end: `[base.min, upper.max]`,
/// for a nonnegative base.
fn midpoint_interval(expr: &Expression, b: usize, o: usize, state: &AbstractState) -> (r: Option<
    IntInterval,
>)
    ensures
        r is Some ==> *expr is Apply && o < expr->Apply_0@.len() && offset_has_upper(
            expr->Apply_0@[o as int],
        ),
        *expr matches Expression::Apply(items) ==> (b < items@.len() && o < items@.len() && constant_midpoint(
            items@[b as int],
            items@[o as int],
        ) ==> r == Some(
            IntInterval { min: items@[b as int]->Int_0 as i64, max: items@[b as int]->Int_0 as i64 },
        )),
    decreases *expr, 0nat,
{
    match expr {
        Expression::Apply(items) => {
            if b >= items.len() || o >= items.len() {
                return None;
            }
            let upper = midpoint_upper(&items[b], &items[o], state)?;
            proof {
                assert(decreases_to!(*expr => items@[b as int]));
                assert(decreases_to!(*expr => items@[o as int]));
                match items@[o as int] {
                    Expression::Apply(div) => {
                        assert(decreases_to!(items@[o as int] => div@[1]));
                        match div@[1] {
                            Expression::Apply(sub) => {
                                assert(decreases_to!(div@[1] => sub@[1]));
                            },
                            _ => {},
                        }
                    },
                    _ => {},
                }
            }
            let base_range = integer_interval(&items[b], state)?;
            let upper_range = integer_interval(upper, state)?;
            if base_range.min < 0 {
                return None;
            }
            Some(IntInterval { min: base_range.min, max: upper_range.max })
        },
        _ => None,
    }
}

/// The facts prove a constant or a name nonzero: it is recorded nonzero, or
/// it is a nonzero constant, or the range known for the name excludes zero.
pub open spec fn divisor_proven(e: Expression, s: AbstractState) -> bool {
    s.nonzero.has(scalar_text(e, s.scalar_aliases)) || match e {
        Expression::Int(v) => v != 0,
        Expression::Word(_) => match word_interval(e, s) {
            Some(r) => r.max < 0 || r.min > 0,
            None => false,
        },
        _ => false,
    }
}

/// The divisor is known to be nonzero.
pub(crate) fn divisor_is_proven_nonzero(expr: &Expression, state: &AbstractState) -> (r: bool)
    ensures
        expr is Int || expr is Word ==> r == divisor_proven(*expr, *state),
        *expr matches Expression::Int(v) ==> ((forall|k: Seq<char>| !state.nonzero.has(k)) ==> (r
            <==> v != 0)),
        *expr matches Expression::Int(v) ==> (v != 0 ==> r),
{
    let key = canonical_scalar(expr, state);
    if state.nonzero.contains(&key) {
        return true;
    }
    match integer_interval(expr, state) {
        Some(range) => range.excludes_zero(),
        None => false,
    }
}

/// The range recorded for the canonical form of `expr`, else its computed
/// range, else all of Int.
pub(crate) fn refined_integer_interval(expr: &Expression, state: &AbstractState) -> (r: IntInterval)
    ensures
        state.integer_ranges.has_key(scalar_text(*expr, state.scalar_aliases)) ==> r
            == state.integer_ranges.value_at(scalar_text(*expr, state.scalar_aliases)),
        !state.integer_ranges.has_key(scalar_text(*expr, state.scalar_aliases)) ==> (
        *expr matches Expression::Int(v) ==> r == (IntInterval { min: v as i64, max: v as i64 })),
        literal_operands(*expr) matches Some((op, a, b)) ==> (ring_operator(op) && blank(*state) ==> r
            == match arithmetic_interval_spec(
            op,
            IntInterval { min: a as i64, max: a as i64 },
            IntInterval { min: b as i64, max: b as i64 },
        ) {
            Some(iv) => iv,
            None => IntInterval { min: I32_MIN, max: I32_MAX },
        }),
{
    let key = canonical_scalar(expr, state);
    match state.integer_ranges.get(&key) {
        Some(range) => range,
        None => match integer_interval(expr, state) {
            Some(range) => range,
            None => IntInterval::i32_range(),
        },
    }
}

/// The canonical texts of two factors, in ascending order.
pub(crate) fn canonical_product_pair(left: &Expression, right: &Expression, state: &AbstractState) -> (r:
    (Vec<char>, Vec<char>))
    ensures
        ({
            let a = scalar_text(*left, state.scalar_aliases);
            let b = scalar_text(*right, state.scalar_aliases);
            if text_less(b, a) {
                r.0@ == b && r.1@ == a
            } else {
                r.0@ == a && r.1@ == b
            }
        }),
{
    let a = canonical_scalar(left, state);
    let b = canonical_scalar(right, state);
    if text_lt(&b, &a) {
        (b, a)
    } else {
        (a, b)
    }
}

/// Records the product of the pair as safe on each side where the ranges of
/// the two expressions already prove it.
fn materialize_product_expression_safety(
    left: &Expression,
    right: &Expression,
    pair: &(Vec<char>, Vec<char>),
    state: &mut AbstractState,
)
    ensures
        only_products_changed(*old(state), *final(state)),
        products_kept(*old(state), *final(state)),
        forall|x: Seq<char>, y: Seq<char>| #[trigger] final(state).product_upper_safe.has(x, y) ==> old(
            state,
        ).product_upper_safe.has(x, y) || (x == pair.0@ && y == pair.1@),
        forall|x: Seq<char>, y: Seq<char>| #[trigger] final(state).product_lower_safe.has(x, y) ==> old(
            state,
        ).product_lower_safe.has(x, y) || (x == pair.0@ && y == pair.1@),
        left is Int && right is Int && !old(state).integer_ranges.has_key(scalar_text(*left, old(state).scalar_aliases))
            && !old(state).integer_ranges.has_key(scalar_text(*right, old(state).scalar_aliases)) && fits_int(
            left->Int_0 * right->Int_0,
        ) ==> final(state).product_upper_safe.has(pair.0@, pair.1@) && final(state).product_lower_safe.has(
            pair.0@,
            pair.1@,
        ),
{
    let l = refined_integer_interval(left, state);
    let r = refined_integer_interval(right, state);
    let star = crate::text::chars_of("*");
    proof {
        reveal_strlit("*");
        reveal_strlit("+");
        reveal_strlit("-");
        assert(star@ != "+"@) by {
            assert(star@[0] != "+"@[0]);
        }
        assert(star@ != "-"@) by {
            assert(star@[0] != "-"@[0]);
        }
    }
    if let Some(interval) = integer_arithmetic_interval(&star, l, r) {
        if interval.max <= I32_MAX {
            state.product_upper_safe.insert(copy_text(&pair.0), copy_text(&pair.1));
        }
        if interval.min >= I32_MIN {
            state.product_lower_safe.insert(copy_text(&pair.0), copy_text(&pair.1));
        }
    }
}

/// Splits `(/ numerator divisor)` into its operands.
fn division_operands(e: &Expression) -> (r: Option<(&Expression, &Expression)>)
    ensures
        match *e {
            Expression::Apply(div) => if div@.len() == 3 && div@[0] is Word && div@[0]->Word_0@ == "/"@ {
                r == Some((&div@[1], &div@[2]))
            } else {
                r is None
            },
            _ => r is None,
        },
{
    match e {
        Expression::Apply(div) => {
            if div.len() == 3 && is_word(&div[0], "/") {
                Some((&div[1], &div[2]))
            } else {
                None
            }
        },
        _ => None,
    }
}

/// The operands of `(/ numerator divisor)`.
pub open spec fn division_parts(e: Expression) -> Option<(Expression, Expression)> {
    match e {
        Expression::Apply(div) => if div@.len() == 3 && div@[0] is Word && div@[0]->Word_0@ == "/"@ {
            Some((div@[1], div@[2]))
        } else {
            None
        },
        _ => None,
    }
}

/// The canonical texts of two factors, in ascending order.
pub open spec fn product_pair_texts(a: Expression, b: Expression, aliases: TextMap<Vec<char>>) -> (Seq<char>, Seq<char>) {
    let x = scalar_text(a, aliases);
    let y = scalar_text(b, aliases);
    if text_less(y, x) {
        (y, x)
    } else {
        (x, y)
    }
}

/// `smaller <= n / d` with `n` the largest Int and `d` a positive constant
/// (or `n` the smallest Int and `d` negative) proves the product of
/// `smaller` and `d` safe on that side.
pub open spec fn quotient_bound_recorded(smaller: Expression, larger: Expression, a: AbstractState, b: AbstractState) -> bool {
    division_parts(larger) matches Some((n, d)) ==> (constant_divisor(n, d, a) ==> ({
        let p = product_pair_texts(smaller, d, a.scalar_aliases);
        &&& (n->Int_0 == i32::MAX && d->Int_0 > 0) ==> b.product_upper_safe.has(p.0, p.1)
        &&& (n->Int_0 == i32::MIN && d->Int_0 < 0) ==> b.product_lower_safe.has(p.0, p.1)
    }))
}

/// A constant numerator over a constant divisor with no range recorded for
/// the divisor's text.
pub open spec fn constant_divisor(n: Expression, d: Expression, state: AbstractState) -> bool {
    n is Int && d is Int && !state.integer_ranges.has_key(scalar_text(d, state.scalar_aliases))
}

/// What recording a product bound may do: keep every fact, and add product
/// facts only for the pair `p`.
pub open spec fn adds_product_pair(a: AbstractState, b: AbstractState, p: (Seq<char>, Seq<char>)) -> bool {
    &&& only_products_changed(a, b)
    &&& products_kept(a, b)
    &&& forall|x: Seq<char>, y: Seq<char>| #[trigger] b.product_upper_safe.has(x, y) ==> a.product_upper_safe.has(x, y)
        || (x == p.0 && y == p.1)
    &&& forall|x: Seq<char>, y: Seq<char>| #[trigger] b.product_lower_safe.has(x, y) ==> a.product_lower_safe.has(x, y)
        || (x == p.0 && y == p.1)
}

/// `smaller <= bound / divisor`: with the divisor's sign known, the product
/// `smaller * divisor` stays on one side of the bound.
fn record_product_division_bound(
    smaller: &Expression,
    larger: &Expression,
    state: &mut AbstractState,
)
    ensures
        division_parts(*larger) is None ==> *final(state) == *old(state),
        division_parts(*larger) matches Some((n, d)) ==> adds_product_pair(
            *old(state),
            *final(state),
            product_pair_texts(*smaller, d, old(state).scalar_aliases),
        ),
        division_parts(*larger) matches Some((n, d)) ==> (constant_divisor(n, d, *old(state)) ==> ({
            let p = product_pair_texts(*smaller, d, old(state).scalar_aliases);
            &&& (n->Int_0 == i32::MAX && d->Int_0 > 0) ==> final(state).product_upper_safe.has(p.0, p.1)
            &&& (n->Int_0 == i32::MIN && d->Int_0 < 0) ==> final(state).product_lower_safe.has(p.0, p.1)
        })),
{
    let (numerator, divisor) = match division_operands(larger) {
        Some(p) => p,
        None => {
            return;
        },
    };
    let bound = match integer_constant(numerator, state) {
        Some(b) => b,
        None => {
            return;
        },
    };
    let divisor_range = refined_integer_interval(divisor, state);
    let pair = canonical_product_pair(smaller, divisor, state);
    if divisor_range.min > 0 && bound == i32::MAX {
        state.product_upper_safe.insert(copy_text(&pair.0), copy_text(&pair.1));
    } else if divisor_range.max < 0 && bound == i32::MIN {
        state.product_lower_safe.insert(copy_text(&pair.0), copy_text(&pair.1));
    }
    materialize_product_expression_safety(smaller, divisor, &pair, state);
}

/// `bound / divisor <= larger`: the lower-bound form for a positive divisor
/// and the upper-bound form for a negative one.
fn record_reversed_product_division_bound(
    smaller: &Expression,
    larger: &Expression,
    state: &mut AbstractState,
)
    ensures
        division_parts(*smaller) is None ==> *final(state) == *old(state),
        division_parts(*smaller) matches Some((n, d)) ==> adds_product_pair(
            *old(state),
            *final(state),
            product_pair_texts(*larger, d, old(state).scalar_aliases),
        ),
        division_parts(*smaller) matches Some((n, d)) ==> (constant_divisor(n, d, *old(state)) ==> ({
            let p = product_pair_texts(*larger, d, old(state).scalar_aliases);
            &&& (n->Int_0 == i32::MIN && d->Int_0 > 0) ==> final(state).product_lower_safe.has(p.0, p.1)
            &&& (n->Int_0 == i32::MAX && d->Int_0 < 0) ==> final(state).product_upper_safe.has(p.0, p.1)
        })),
{
    let (numerator, divisor) = match division_operands(smaller) {
        Some(p) => p,
        None => {
            return;
        },
    };
    let bound = match integer_constant(numerator, state) {
        Some(b) => b,
        None => {
            return;
        },
    };
    let divisor_range = refined_integer_interval(divisor, state);
    let pair = canonical_product_pair(larger, divisor, state);
    if divisor_range.min > 0 && bound == i32::MIN {
        state.product_lower_safe.insert(copy_text(&pair.0), copy_text(&pair.1));
    } else if divisor_range.max < 0 && bound == i32::MAX {
        state.product_upper_safe.insert(copy_text(&pair.0), copy_text(&pair.1));
    }
    materialize_product_expression_safety(larger, divisor, &pair, state);
}

/// Comparison codes: `=`, `>`, `>=`, `<`, `<=` and `!=`.
pub const REL_EQ: u8 = 0u8;
pub const REL_GT: u8 = 1u8;
pub const REL_GE: u8 = 2u8;
pub const REL_LT: u8 = 3u8;
pub const REL_LE: u8 = 4u8;
pub const REL_NE: u8 = 5u8;

/// The code of a comparison operator word.
pub open spec fn comparison_of(op: Seq<char>) -> Option<u8> {
    if op == "="@ {
        Some(REL_EQ)
    } else if op == ">"@ {
        Some(REL_GT)
    } else if op == ">="@ {
        Some(REL_GE)
    } else if op == "<"@ {
        Some(REL_LT)
    } else if op == "<="@ {
        Some(REL_LE)
    } else {
        None
    }
}

/// The comparison that holds when `rel` does not.
pub open spec fn negation_of(rel: u8) -> u8 {
    if rel == REL_GT {
        REL_LE
    } else if rel == REL_GE {
        REL_LT
    } else if rel == REL_LT {
        REL_GE
    } else if rel == REL_LE {
        REL_GT
    } else if rel == REL_EQ {
        REL_NE
    } else {
        REL_EQ
    }
}

/// The comparison with its operands swapped.
pub open spec fn reversal_of(rel: u8) -> u8 {
    if rel == REL_GT {
        REL_LT
    } else if rel == REL_GE {
        REL_LE
    } else if rel == REL_LT {
        REL_GT
    } else if rel == REL_LE {
        REL_GE
    } else {
        rel
    }
}

/// The code of a comparison operator word.
pub fn comparison_code(op: &Vec<char>) -> (r: Option<u8>)
    ensures
        r == comparison_of(op@),
        r matches Some(c) ==> c <= REL_LE,
{
    if text_is(op, "=") {
        Some(REL_EQ)
    } else if text_is(op, ">") {
        Some(REL_GT)
    } else if text_is(op, ">=") {
        Some(REL_GE)
    } else if text_is(op, "<") {
        Some(REL_LT)
    } else if text_is(op, "<=") {
        Some(REL_LE)
    } else {
        None
    }
}

/// The comparison that holds when `rel` does not: `=` turns into `!=`.
pub(crate) fn negate_comparison(rel: u8) -> (r: u8)
    ensures
        r == negation_of(rel),
{
    if rel == REL_GT {
        REL_LE
    } else if rel == REL_GE {
        REL_LT
    } else if rel == REL_LT {
        REL_GE
    } else if rel == REL_LE {
        REL_GT
    } else if rel == REL_EQ {
        REL_NE
    } else {
        REL_EQ
    }
}

/// The comparison with its operands swapped.
pub(crate) fn reverse_comparison(rel: u8) -> (r: u8)
    ensures
        r == reversal_of(rel),
{
    if rel == REL_GT {
        REL_LT
    } else if rel == REL_GE {
        REL_LE
    } else if rel == REL_LT {
        REL_GT
    } else if rel == REL_LE {
        REL_GE
    } else {
        rel
    }
}

/// Records what a comparison between two expressions says about products.
pub(crate) fn record_product_comparison(
    left: &Expression,
    right: &Expression,
    comparison: u8,
    state: &mut AbstractState,
)
    ensures
        only_products_changed(*old(state), *final(state)),
        products_kept(*old(state), *final(state)),
        !(comparison == REL_LT || comparison == REL_LE || comparison == REL_GT || comparison == REL_GE)
            ==> *final(state) == *old(state),
        (comparison == REL_LT || comparison == REL_LE) ==> quotient_bound_recorded(*left, *right, *old(state), *final(state)),
        (comparison == REL_GT || comparison == REL_GE) ==> quotient_bound_recorded(*right, *left, *old(state), *final(state)),
{
    if comparison == REL_LT || comparison == REL_LE {
        record_product_division_bound(left, right, state);
        record_reversed_product_division_bound(left, right, state);
    } else if comparison == REL_GT || comparison == REL_GE {
        record_product_division_bound(right, left, state);
        record_reversed_product_division_bound(right, left, state);
    }
}

/// `i` is where `atom` belongs in `t`: the first entry for `atom` or for
/// an atom after it, else the end.
pub open spec fn term_position(t: Seq<(Vec<char>, i64)>, atom: Seq<char>, i: int) -> bool {
    &&& 0 <= i <= t.len()
    &&& forall|j: int| 0 <= j < i ==> (#[trigger] t[j]).0@ != atom && !text_less(atom, t[j].0@)
    &&& i < t.len() ==> (t[i].0@ == atom || text_less(atom, t[i].0@))
}

/// Adds `scale` to the coefficient of `atom` in the sorted term list.
fn add_term(terms: &mut AffineTerms, atom: Vec<char>, scale: i64)
    ensures
        forall|i: int| #[trigger] term_position(old(terms)@, atom@, i) ==> if i < old(terms)@.len()
            && old(terms)@[i].0@ == atom@ {
            final(terms)@ == old(terms)@.update(i, (atom, clamp64(old(terms)@[i].1 + scale) as i64))
        } else {
            final(terms)@ == old(terms)@.insert(i, (atom, scale))
        },
{
    let ghost start = terms@;
    let mut i: usize = 0;
    while i < terms.len()
        invariant
            i <= terms.len(),
            terms@ == start,
            forall|j: int| 0 <= j < i ==> (#[trigger] start[j]).0@ != atom@ && !text_less(atom@, start[j].0@),
        decreases terms.len() - i,
    {
        if text_eq(&terms[i].0, &atom) {
            let c = terms[i].1;
            let sum: i64 = if scale > 0 && c > i64::MAX - scale {
                i64::MAX
            } else if scale < 0 && c < i64::MIN - scale {
                i64::MIN
            } else {
                c + scale
            };
            proof {
                assert forall|c: int| #[trigger] term_position(start, atom@, c) implies c == i by {
                    if c < i {
                        assert(start[c].0@ != atom@ && !text_less(atom@, start[c].0@));
                    } else if c > i {
                        assert(start[i as int].0@ != atom@);
                    }
                }
            }
            terms.set(i, (atom, sum));
            return;
        }
        if text_lt(&atom, &terms[i].0) {
            proof {
                assert forall|c: int| #[trigger] term_position(start, atom@, c) implies c == i by {
                    if c < i {
                        assert(!text_less(atom@, start[c].0@));
                    } else if c > i {
                        assert(!text_less(atom@, start[i as int].0@));
                    }
                }
            }
            terms.insert(i, (atom, scale));
            return;
        }
        i += 1;
    }
    proof {
        assert forall|c: int| #[trigger] term_position(start, atom@, c) implies c == start.len() by {
            if c < start.len() {
                assert(start[c].0@ != atom@ && !text_less(atom@, start[c].0@));
            }
        }
        assert(start.insert(start.len() as int, (atom, scale)) =~= start.push((atom, scale)));
    }
    terms.push((atom, scale));
}

/// Collects `scale * expr` into atoms and a constant; `None` when a constant
/// leaves `i64` or a decimal occurs.
fn collect_affine(
    expr: &Expression,
    state: &AbstractState,
    scale: i64,
    terms: &mut AffineTerms,
    constant: &mut i64,
) -> (r: bool)
    ensures
        affine_literal(*expr) is Some && (scale == 1 || scale == -1) && (if expr is Int {
            -0x4000_0000_0000_0000 <= *old(constant) <= 0x4000_0000_0000_0000
        } else {
            -0x2000_0000_0000_0000 <= *old(constant) <= 0x2000_0000_0000_0000
        }) ==> r && *final(constant) == *old(constant) + scale * affine_literal(*expr)->0
            && final(terms)@ == old(terms)@,
        affine_value(*expr, *state) is Some && (scale == 1 || scale == -1) && (if expr is Apply {
            -0x1000_0000_0000_0000 <= *old(constant) <= 0x1000_0000_0000_0000
        } else {
            -0x2000_0000_0000_0000 <= *old(constant) <= 0x2000_0000_0000_0000
        }) ==> r && *final(constant) == *old(constant) + scale * affine_value(*expr, *state)->0
            && final(terms)@ == old(terms)@,
    decreases *expr,
{
    proof {
        lemma_operator_words_differ();
    }
    let ghost valued = affine_value(*expr, *state) is Some && (scale == 1 || scale == -1) && (if expr is Apply {
        -0x1000_0000_0000_0000 <= *old(constant) <= 0x1000_0000_0000_0000
    } else {
        -0x2000_0000_0000_0000 <= *old(constant) <= 0x2000_0000_0000_0000
    });
    if let Some(value) = integer_constant(expr, state) {
        proof {
            if valued {
                if expr is Apply {
                    let items = expr->Apply_0;
                    assert(ring_operator(items@[0]->Word_0@));
                    assert(value as int == affine_value(*expr, *state)->0);
                } else {
                    assert(value as int == affine_value(*expr, *state)->0);
                }
                if scale == 1 {
                    assert(scale * value == value);
                } else {
                    assert(scale * value == -value);
                }
            }
            if affine_literal(*expr) is Some && (scale == 1 || scale == -1) {
                if !(expr is Int) {
                    let (op, a, b) = literal_operands(*expr)->0;
                    assert(ring_operator(op));
                    assert(checked_result(op, a, b) == Some(value));
                    assert(fits_int(exact_result(op, a, b)));
                    assert(value as int == exact_result(op, a, b));
                }
                assert(value == affine_literal(*expr)->0);
                if scale == 1 {
                    assert(scale * value == value);
                } else {
                    assert(scale * value == -value);
                }
            }
        }
        let scaled = match checked_mul64(scale, value as i64) {
            Some(v) => v,
            None => {
                return false;
            },
        };
        match checked_add64(*constant, scaled) {
            Some(v) => {
                *constant = v;
                return true;
            },
            None => {
                return false;
            },
        }
    }
    match expr {
        Expression::Apply(items) => {
            let ghost literal = affine_literal(*expr) is Some && (scale == 1 || scale == -1)
                && -0x2000_0000_0000_0000 <= *old(constant) <= 0x2000_0000_0000_0000;
            if items.len() == 3 && head_is(items, "+") {
                assert(decreases_to!(*expr => items@[1]));
                assert(decreases_to!(*expr => items@[2]));
                if !collect_affine(&items[1], state, scale, terms, constant) {
                    return false;
                }
                proof {
                    if literal {
                        let a = items@[1]->Int_0 as int;
                        if scale == 1 {
                            assert(*constant == *old(constant) + a);
                        } else {
                            assert(scale * a == -a) by (nonlinear_arith)
                                requires
                                    scale == -1,
                            ;
                            assert(*constant == *old(constant) - a);
                        }
                    }
                    if valued {
                        let a = atom_value(items@[1], *state)->0;
                        if scale == 1 {
                            assert(*constant == *old(constant) + a);
                        } else {
                            assert(scale * a == -a) by (nonlinear_arith)
                                requires
                                    scale == -1,
                            ;
                            assert(*constant == *old(constant) - a);
                        }
                    }
                }
                let ghost middle = *constant;
                let r = collect_affine(&items[2], state, scale, terms, constant);
                proof {
                    if valued {
                        let (a, b) = (atom_value(items@[1], *state)->0, atom_value(items@[2], *state)->0);
                        assert(affine_value(*expr, *state)->0 == a + b);
                        if scale == 1 {
                            assert(*constant == middle + b);
                        } else {
                            assert(scale * b == -b) by (nonlinear_arith)
                                requires
                                    scale == -1,
                            ;
                            assert(*constant == middle - b);
                            assert(scale * (a + b) == -(a + b)) by (nonlinear_arith)
                                requires
                                    scale == -1,
                            ;
                        }
                    }
                }
                proof {
                    if literal {
                        let (a, b) = (items@[1]->Int_0 as int, items@[2]->Int_0 as int);
                        assert(affine_literal(*expr)->0 == a + b);
                        if scale == 1 {
                            assert(*constant == middle + b);
                        } else {
                            assert(scale * b == -b) by (nonlinear_arith)
                                requires
                                    scale == -1,
                            ;
                            assert(*constant == middle - b);
                            assert(scale * (a + b) == -(a + b)) by (nonlinear_arith)
                                requires
                                    scale == -1,
                            ;
                        }
                    }
                }
                r
            } else if items.len() == 3 && head_is(items, "-") {
                assert(decreases_to!(*expr => items@[1]));
                assert(decreases_to!(*expr => items@[2]));
                if !collect_affine(&items[1], state, scale, terms, constant) {
                    return false;
                }
                proof {
                    if literal {
                        let a = items@[1]->Int_0 as int;
                        if scale == 1 {
                            assert(*constant == *old(constant) + a);
                        } else {
                            assert(scale * a == -a) by (nonlinear_arith)
                                requires
                                    scale == -1,
                            ;
                            assert(*constant == *old(constant) - a);
                        }
                    }
                }
                proof {
                    if valued {
                        let a = atom_value(items@[1], *state)->0;
                        if scale == 1 {
                            assert(*constant == *old(constant) + a);
                        } else {
                            assert(scale * a == -a) by (nonlinear_arith)
                                requires
                                    scale == -1,
                            ;
                            assert(*constant == *old(constant) - a);
                        }
                    }
                }
                let negated: i64 = if scale == i64::MIN {
                    i64::MAX
                } else {
                    -scale
                };
                let ghost middle = *constant;
                let r = collect_affine(&items[2], state, negated, terms, constant);
                proof {
                    if valued {
                        let (a, b) = (atom_value(items@[1], *state)->0, atom_value(items@[2], *state)->0);
                        assert(affine_value(*expr, *state)->0 == a - b);
                        if scale == 1 {
                            assert(negated * b == -b) by (nonlinear_arith)
                                requires
                                    negated == -1,
                            ;
                            assert(*constant == middle - b);
                        } else {
                            assert(*constant == middle + b);
                            assert(scale * (a - b) == -(a - b)) by (nonlinear_arith)
                                requires
                                    scale == -1,
                            ;
                        }
                    }
                }
                proof {
                    if literal {
                        let (a, b) = (items@[1]->Int_0 as int, items@[2]->Int_0 as int);
                        assert(affine_literal(*expr)->0 == a - b);
                        if scale == 1 {
                            assert(negated * b == -b) by (nonlinear_arith)
                                requires
                                    negated == -1,
                            ;
                            assert(*constant == middle - b);
                        } else {
                            assert(*constant == middle + b);
                            assert(scale * (a - b) == -(a - b)) by (nonlinear_arith)
                                requires
                                    scale == -1,
                            ;
                        }
                    }
                }
                r
            } else {
                let atom = canonical_scalar(expr, state);
                add_term(terms, atom, scale);
                true
            }
        },
        Expression::Word(_) => {
            let atom = canonical_scalar(expr, state);
            add_term(terms, atom, scale);
            true
        },
        Expression::Int(value) => {
            let scaled = match checked_mul64(scale, *value as i64) {
                Some(v) => v,
                None => {
                    return false;
                },
            };
            match checked_add64(*constant, scaled) {
                Some(v) => {
                    *constant = v;
                    true
                },
                None => false,
            }
        },
        Expression::Dec(_) => false,
    }
}

/// The term list without its zero coefficients.
fn drop_zero_terms(terms: AffineTerms) -> (r: AffineTerms)
    ensures
        terms@.len() == 0 ==> r@.len() == 0,
        r@ == nonzero_terms(terms@),
{
    let ghost n = terms@.len();
    let ghost orig = terms@;
    let mut out: AffineTerms = Vec::new();
    let mut terms = terms;
    let ghost mut k: int = 0;
    proof {
        assert(orig.skip(0) =~= orig);
        assert(orig.take(0) =~= Seq::<(Vec<char>, i64)>::empty());
    }
    while terms.len() > 0
        invariant
            out@.len() + terms@.len() <= n,
            0 <= k <= orig.len(),
            terms@ == orig.skip(k),
            out@ == nonzero_terms(orig.take(k)),
            n == orig.len(),
        decreases terms.len(),
    {
        let t = terms.remove(0);
        proof {
            assert(t == orig[k]);
            assert(orig.take(k + 1).drop_last() =~= orig.take(k));
            assert(orig.take(k + 1).last() == orig[k]);
        }
        if t.1 != 0 {
            out.push(t);
        }
        proof {
            k = k + 1;
            assert(terms@ =~= orig.skip(k));
        }
    }
    proof {
        assert(orig.take(k) =~= orig);
    }
    out
}

/// The terms of `t` whose coefficient is not zero, in order.
pub open spec fn nonzero_terms(t: Seq<(Vec<char>, i64)>) -> Seq<(Vec<char>, i64)>
    decreases t.len(),
{
    if t.len() == 0 {
        Seq::empty()
    } else if t.last().1 != 0 {
        nonzero_terms(t.drop_last()).push(t.last())
    } else {
        nonzero_terms(t.drop_last())
    }
}

/// An expression as sorted atoms with coefficients plus a constant.
pub(crate) fn affine_expression(expr: &Expression, state: &AbstractState) -> (r: Option<(AffineTerms, i64)>)
    ensures
        affine_literal(*expr) is Some ==> (r matches Some((t, c)) && t@.len() == 0 && c
            == affine_literal(*expr)->0),
        affine_value(*expr, *state) is Some ==> (r matches Some((t, c)) && t@.len() == 0 && c
            == affine_value(*expr, *state)->0),
{
    proof {
        if affine_value(*expr, *state) is Some && expr is Apply {
            let items = expr->Apply_0;
            lemma_operator_words_differ();
            assert(ring_operator(items@[0]->Word_0@));
        }
    }
    if let Some(value) = integer_constant(expr, state) {
        return Some((Vec::new(), value as i64));
    }
    let mut terms: AffineTerms = Vec::new();
    let mut constant: i64 = 0;
    if !collect_affine(expr, state, 1, &mut terms, &mut constant) {
        return None;
    }
    Some((drop_zero_terms(terms), constant))
}

/// The range of an expression from its affine form and the recorded bounds.
pub(crate) fn affine_interval(expr: &Expression, state: &AbstractState) -> (r: Option<IntInterval>)
    ensures
        affine_literal(*expr) is Some && state.affine_upper_bounds.entries@.len() == 0 ==> r
            == Some(
            (IntInterval {
                min: affine_literal(*expr)->0 as i64,
                max: affine_literal(*expr)->0 as i64,
            }),
        ),
        affine_value(*expr, *state) is Some && state.affine_upper_bounds.entries@.len() == 0 ==> r
            == Some(
            (IntInterval {
                min: affine_value(*expr, *state)->0 as i64,
                max: affine_value(*expr, *state)->0 as i64,
            }),
        ),
{
    let (terms, constant) = affine_expression(expr, state)?;
    let upper = affine_upper_bound(&terms, state)?;
    let max = checked_add64(upper, constant)?;
    let negated = negate_affine_terms(&terms);
    let neg_upper = affine_upper_bound(&negated, state)?;
    if neg_upper == i64::MIN {
        return None;
    }
    let min = checked_add64(-neg_upper, constant)?;
    Some(IntInterval { min, max })
}

/// Records `left - right <= bound` from `left <= right` (or `<`).
fn record_affine_comparison(
    left: &Expression,
    right: &Expression,
    strict: bool,
    state: &mut AbstractState,
)
    ensures
        only_bounds_changed(*old(state), *final(state)),
        left is Int && right is Int ==> constant_bound_recorded(
            final(state).affine_upper_bounds.entries@,
            right->Int_0 - left->Int_0 - if strict {
                1int
            } else {
                0int
            },
        ),
{
    let (left_terms, left_constant) = match affine_expression(left, state) {
        Some(v) => v,
        None => {
            return;
        },
    };
    let (right_terms, right_constant) = match affine_expression(right, state) {
        Some(v) => v,
        None => {
            return;
        },
    };
    let ghost ints = left is Int && right is Int;
    let mut combined: AffineTerms = left_terms;
    let mut rt = right_terms;
    while rt.len() > 0
        invariant
            ints ==> rt@.len() == 0 && combined@.len() == 0,
        decreases rt.len(),
    {
        let (atom, coefficient) = rt.remove(0);
        let negated: i64 = if coefficient == i64::MIN {
            i64::MAX
        } else {
            -coefficient
        };
        add_term(&mut combined, atom, negated);
    }
    let terms = drop_zero_terms(combined);
    let mut bound = match checked_sub64(right_constant, left_constant) {
        Some(b) => b,
        None => {
            return;
        },
    };
    if strict && bound > i64::MIN {
        bound = bound - 1;
    }
    let ghost before = state.affine_upper_bounds.entries@;
    proof {
        lemma_first_bound(before, terms);
    }
    state.affine_upper_bounds.record_min(terms, bound);
    proof {
        if ints {
            let after = state.affine_upper_bounds.entries@;
            if unbounded(before, terms) {
                assert(after[after.len() - 1] == (terms, bound));
            } else {
                let i = choose|i: int| bound_at(before, terms, i);
                assert(after[i].0 == terms);
            }
        }
    }
}

/// Some bound of `e` is on the empty term list and at most `b`.
pub open spec fn constant_bound_recorded(e: Seq<(AffineTerms, i64)>, b: int) -> bool {
    exists|i: int| 0 <= i < e.len() && (#[trigger] e[i]).0@.len() == 0 && e[i].1 <= b
}

/// Records the affine bound a comparison that holds establishes.
pub(crate) fn record_effective_affine_comparison(
    left: &Expression,
    right: &Expression,
    comparison: u8,
    state: &mut AbstractState,
)
    ensures
        only_bounds_changed(*old(state), *final(state)),
        comparison > REL_LE ==> *final(state) == *old(state),
        left is Int && right is Int ==> ({
            let (l, r) = (left->Int_0 as int, right->Int_0 as int);
            let e = final(state).affine_upper_bounds.entries@;
            &&& comparison == REL_LT ==> constant_bound_recorded(e, r - l - 1)
            &&& comparison == REL_LE ==> constant_bound_recorded(e, r - l)
            &&& comparison == REL_GT ==> constant_bound_recorded(e, l - r - 1)
            &&& comparison == REL_GE ==> constant_bound_recorded(e, l - r)
        }),
{
    if comparison == REL_LT {
        record_affine_comparison(left, right, true, state);
    } else if comparison == REL_LE {
        record_affine_comparison(left, right, false, state);
    } else if comparison == REL_GT {
        record_affine_comparison(right, left, true, state);
    } else if comparison == REL_GE {
        record_affine_comparison(right, left, false, state);
    } else if comparison == REL_EQ {
        record_affine_comparison(left, right, false, state);
        record_affine_comparison(right, left, false, state);
    }
}

/// The truth of the comparison `rel` between two integers.
pub open spec fn literal_comparison(rel: u8, a: int, b: int) -> bool {
    if rel == REL_EQ {
        a == b
    } else if rel == REL_GT {
        a > b
    } else if rel == REL_GE {
        a >= b
    } else if rel == REL_LT {
        a < b
    } else {
        a <= b
    }
}

/// The truth of an integer comparison, when the operand ranges decide it.
pub(crate) fn known_integer_predicate(expr: &Expression, state: &AbstractState) -> (r: Option<bool>)
    ensures
        r is Some ==> *expr is Apply && expr->Apply_0@.len() == 3 && expr->Apply_0@[0] is Word
            && comparison_of(expr->Apply_0@[0]->Word_0@) is Some,
        *expr matches Expression::Apply(items) ==> (items@.len() == 3 && items@[0] is Word && items@[1] is Int
            && items@[2] is Int && comparison_of(items@[0]->Word_0@) is Some ==> r == Some(
            literal_comparison(
                comparison_of(items@[0]->Word_0@)->0,
                items@[1]->Int_0 as int,
                items@[2]->Int_0 as int,
            ),
        )),
{
    let items = match expr {
        Expression::Apply(items) => items,
        _ => {
            return None;
        },
    };
    if items.len() != 3 || !matches!(&items[0], Expression::Word(_)) {
        return None;
    }
    let is_eq = is_word(&items[0], "=");
    let is_gt = is_word(&items[0], ">");
    let is_ge = is_word(&items[0], ">=");
    let is_lt = is_word(&items[0], "<");
    let is_le = is_word(&items[0], "<=");
    if !(is_eq || is_gt || is_ge || is_lt || is_le) {
        return None;
    }
    let left = integer_interval(&items[1], state)?;
    let right = integer_interval(&items[2], state)?;
    if is_eq {
        if left.max < right.min || right.max < left.min {
            Some(false)
        } else if left.min == left.max && left.min == right.min && left.max == right.max {
            Some(true)
        } else {
            None
        }
    } else if is_gt {
        if left.min > right.max {
            Some(true)
        } else if left.max <= right.min {
            Some(false)
        } else {
            None
        }
    } else if is_ge {
        if left.min >= right.max {
            Some(true)
        } else if left.max < right.min {
            Some(false)
        } else {
            None
        }
    } else if is_lt {
        if left.max < right.min {
            Some(true)
        } else if left.min >= right.max {
            Some(false)
        } else {
            None
        }
    } else {
        if left.max <= right.min {
            Some(true)
        } else if left.min > right.max {
            Some(false)
        } else {
            None
        }
    }
}

/// What narrowing the range of `expr` by `constraint` leaves: only the
/// range and nonzero fact of its canonical text may change; a changed range
/// is a nonempty part of `constraint`; a constant within `constraint` gets
/// its exact range.
pub open spec fn constrained(expr: Expression, a: AbstractState, b: AbstractState, constraint: IntInterval) -> bool {
    let key = scalar_text(expr, a.scalar_aliases);
    &&& forall|x: Seq<char>| x != key ==> #[trigger] b.integer_ranges.has_key(x) == a.integer_ranges.has_key(x)
        && (a.integer_ranges.has_key(x) ==> b.integer_ranges.value_at(x) == a.integer_ranges.value_at(x))
    &&& forall|x: Seq<char>| x != key ==> #[trigger] b.nonzero.has(x) == a.nonzero.has(x)
    &&& forall|x: Seq<char>| #[trigger] a.nonzero.has(x) ==> b.nonzero.has(x)
    &&& a.integer_ranges.has_key(key) ==> b.integer_ranges.has_key(key)
    &&& (b.integer_ranges.has_key(key) && !(a.integer_ranges.has_key(key) && b.integer_ranges.value_at(key)
        == a.integer_ranges.value_at(key))) ==> constraint.min <= b.integer_ranges.value_at(key).min
        <= b.integer_ranges.value_at(key).max <= constraint.max
    &&& (expr is Int && constraint.min <= expr->Int_0 <= constraint.max) ==> (b.integer_ranges.has_key(key)
        && b.integer_ranges.value_at(key) == IntInterval { min: expr->Int_0 as i64, max: expr->Int_0 as i64 })
}

/// Narrows the recorded range of `expr` by `constraint`.
pub(crate) fn constrain_integer_range(expr: &Expression, facts: &mut AbstractState, constraint: IntInterval)
    ensures
        only_ranges_changed(*old(facts), *final(facts)),
        constrained(*expr, *old(facts), *final(facts), constraint),
        word_narrowed(*expr, *old(facts), *final(facts), constraint),
{
    let key = canonical_scalar(expr, facts);
    let current = match integer_interval(expr, facts) {
        Some(r) => r,
        None => IntInterval::i32_range(),
    };
    let mut narrowed = IntInterval {
        min: if current.min >= constraint.min {
            current.min
        } else {
            constraint.min
        },
        max: if current.max <= constraint.max {
            current.max
        } else {
            constraint.max
        },
    };
    if facts.nonzero.contains(&key) {
        if narrowed.min == 0 && narrowed.max > 0 {
            narrowed.min = 1;
        } else if narrowed.max == 0 && narrowed.min < 0 {
            narrowed.max = -1;
        }
    }
    proof {
        if expr is Int {
            let v = expr->Int_0;
            if constraint.min <= v <= constraint.max {
                assert(narrowed.min == v && narrowed.max == v);
            }
        }
    }
    if narrowed.min <= narrowed.max {
        facts.integer_ranges.insert(copy_text(&key), narrowed);
        if narrowed.excludes_zero() {
            facts.nonzero.insert(key);
        }
    }
}

/// The expression is known not to be negative.
pub(crate) fn expression_is_nonnegative(expr: &Expression, facts: &AbstractState) -> (r: bool)
    ensures
        *expr matches Expression::Int(v) ==> r == (v >= 0),
        *expr matches Expression::Word(name) ==> r == if facts.integer_constants.has_key(name@) {
            facts.integer_constants.value_at(name@) >= 0
        } else {
            facts.nonnegative.has(name@)
        },
        *expr matches Expression::Apply(items) ==> (items@.len() == 2 && items@[0] is Word
            && items@[0]->Word_0@ == "length"@ ==> r),
        *expr is Dec ==> !r,
    decreases *expr,
{
    if let Some(value) = integer_constant(expr, facts) {
        return value >= 0;
    }
    match expr {
        Expression::Int(number) => *number >= 0,
        Expression::Word(name) => facts.nonnegative.contains(name),
        Expression::Apply(items) => {
            if items.len() == 2 && head_is(items, "length") {
                true
            } else if items.len() == 3 && head_is(items, "+") {
                assert(decreases_to!(*expr => items@[1]));
                assert(decreases_to!(*expr => items@[2]));
                expression_is_nonnegative(&items[1], facts) && expression_is_nonnegative(
                    &items[2],
                    facts,
                )
            } else {
                false
            }
        },
        Expression::Dec(_) => false,
    }
}

} // verus!
