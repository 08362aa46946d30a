//! What a condition proves on the path where it is true, or false.
use vstd::prelude::*;
use crate::text::{copy_text, text_eq, text_is};
use crate::expr::{
    Expression, Sexp, copy_expr, head_is, is_word, word_of, shape, shapes, lemma_shapes, lemma_shapes_push,
};
use crate::text::texts_view;
use crate::desugar::{build_outcome, program_forms};
use crate::interval::{IntInterval, I32_MAX, I32_MIN};
use crate::facts::{TextMap, TextSet};
use crate::state::{AbstractState, PredicateSummary, Summaries, join_states, copy_of, texts_within};
use crate::bounds::index_proven;
use crate::numeric::{
    scalar_text, access_text, comparison_of, literal_comparison, negation_of, access_sexp,
    lemma_access_text_shape,
    REL_EQ, REL_GE, REL_GT, REL_LE, REL_LT, REL_NE, canonical_access, canonical_scalar,
    comparison_code, constrain_integer_range, integer_constant, known_integer_predicate,
    negate_comparison, propagate_relational_ranges, record_effective_affine_comparison,
    record_product_comparison, reverse_comparison, word_interval, narrowed_range,
};
use crate::desugar::build_text;

verus! {

/// How deep user predicates are expanded inside one another.
pub const EXPANSION_LIMIT: usize = 16usize;

/// The form a `(do form)` wraps; any other shape as it is.
pub open spec fn single_sexp(s: Sexp) -> Sexp {
    match s {
        Sexp::List(items) => if items.len() == 2 && items[0] == Sexp::Word("do"@) {
            items[1]
        } else {
            s
        },
        _ => s,
    }
}

/// The argument for `name`: the last of the first `n` parameters of that
/// name gives it.
pub open spec fn sub_for(name: Seq<char>, params: Seq<Seq<char>>, args: Seq<Sexp>, n: int) -> Option<Sexp>
    decreases n,
{
    if n <= 0 {
        None
    } else if params[n - 1] == name {
        Some(args[n - 1])
    } else {
        sub_for(name, params, args, n - 1)
    }
}

/// `s` with each parameter word replaced by its argument.
pub open spec fn subst_sexp(s: Sexp, params: Seq<Seq<char>>, args: Seq<Sexp>) -> Sexp
    decreases s,
{
    match s {
        Sexp::Word(w) => match sub_for(
            w,
            params,
            args,
            if params.len() <= args.len() {
                params.len() as int
            } else {
                args.len() as int
            },
        ) {
            Some(a) => a,
            None => s,
        },
        Sexp::List(items) => Sexp::List(subst_list(items, params, args)),
        _ => s,
    }
}

/// Each of `items` with the parameters replaced.
pub open spec fn subst_list(items: Seq<Sexp>, params: Seq<Seq<char>>, args: Seq<Sexp>) -> Seq<Sexp>
    decreases items,
{
    if items.len() == 0 {
        Seq::empty()
    } else {
        subst_list(items.drop_last(), params, args).push(subst_sexp(items.last(), params, args))
    }
}

/// `items` calls a user predicate with one argument per parameter.
pub open spec fn predicate_call(items: Seq<Expression>, predicates: TextMap<PredicateSummary>) -> bool {
    items.len() > 0 && items[0] is Word && predicates.has_key(items[0]->Word_0@)
        && predicates.value_at(items[0]->Word_0@).params@.len() == items.len() - 1
}

/// The form a program text builds to, when it builds to one.
pub open spec fn built_body(body: Seq<char>) -> Option<Sexp> {
    match program_forms(body) {
        None => None,
        Some(forms) => match build_outcome(forms) {
            Ok(Some(x)) => Some(x),
            _ => None,
        },
    }
}

/// The only form of a `(do form)` that wraps a single form.
pub(crate) fn single_built_expression(expr: &Expression) -> (r: &Expression)
    ensures
        shape(*r) == single_sexp(shape(*expr)),
{
    proof {
        if expr is Apply {
            lemma_shapes(expr->Apply_0@);
        }
    }
    match expr {
        Expression::Apply(items) => {
            if items.len() == 2 && head_is(items, "do") {
                &items[1]
            } else {
                expr
            }
        },
        _ => expr,
    }
}

/// The argument bound to `name`: the last parameter of that name wins.
fn substitution_for<'a>(name: &Vec<char>, params: &Vec<Vec<char>>, args: &'a [Expression]) -> (r:
    Option<&'a Expression>)
    ensures
        ({
            let n = if params@.len() <= args@.len() {
                params@.len() as int
            } else {
                args@.len() as int
            };
            &&& r is Some == sub_for(name@, texts_view(params@), shapes(args@), n) is Some
            &&& r matches Some(a) ==> sub_for(name@, texts_view(params@), shapes(args@), n) == Some(shape(*a))
        }),
{
    proof {
        lemma_shapes(args@);
    }
    let n = if params.len() <= args.len() {
        params.len()
    } else {
        args.len()
    };
    let ghost full = sub_for(name@, texts_view(params@), shapes(args@), n as int);
    let mut i: usize = n;
    while i > 0
        invariant
            i <= n,
            n <= params.len(),
            n <= args@.len(),
            shapes(args@).len() == args@.len(),
            forall|k: int| 0 <= k < args@.len() ==> #[trigger] shapes(args@)[k] == shape(args@[k]),
            full == sub_for(name@, texts_view(params@), shapes(args@), i as int),
        decreases i,
    {
        i -= 1;
        if text_eq(&params[i], name) {
            return Some(&args[i]);
        }
    }
    None
}

/// `expr` with each parameter word replaced by its argument.
pub(crate) fn substitute_predicate_body(expr: &Expression, params: &Vec<Vec<char>>, args: &[Expression]) -> (r:
    Expression)
    ensures
        shape(r) == subst_sexp(shape(*expr), texts_view(params@), shapes(args@)),
    decreases *expr,
{
    proof {
        lemma_shapes(args@);
    }
    match expr {
        Expression::Word(name) => match substitution_for(name, params, args) {
            Some(replacement) => copy_expr(replacement),
            None => copy_expr(expr),
        },
        Expression::Apply(items) => {
            let mut out: Vec<Expression> = Vec::new();
            let mut i: usize = 0;
            proof {
                assert(items@.take(0) =~= Seq::<Expression>::empty());
                assert(shapes(Seq::<Expression>::empty()) =~= Seq::<Sexp>::empty());
                assert(out@ =~= Seq::<Expression>::empty());
            }
            while i < items.len()
                invariant
                    i <= items.len(),
                    *expr == Expression::Apply(*items),
                    shapes(out@) == subst_list(shapes(items@.take(i as int)), texts_view(params@), shapes(args@)),
                decreases items.len() - i,
            {
                assert(decreases_to!(*expr => items@[i as int]));
                let ghost before = out@;
                let piece = substitute_predicate_body(&items[i], params, args);
                out.push(piece);
                proof {
                    lemma_shapes_push(before, piece);
                    assert(out@ =~= before.push(piece));
                    assert(items@.take(i + 1) =~= items@.take(i as int).push(items@[i as int]));
                    lemma_shapes_push(items@.take(i as int), items@[i as int]);
                    let sh = shapes(items@.take(i + 1));
                    assert(sh.drop_last() =~= shapes(items@.take(i as int)));
                }
                i += 1;
            }
            proof {
                assert(items@.take(items@.len() as int) =~= items@);
            }
            Expression::Apply(out)
        },
        _ => copy_expr(expr),
    }
}

/// The body of the user predicate called by `items`, with its arguments
/// substituted, when `items` calls one with the right number of arguments
/// and its body reads back.
pub(crate) fn expand_predicate_call(items: &Vec<Expression>, predicates: &TextMap<PredicateSummary>) -> (r: Result<
    Option<Expression>,
    (),
>)
    ensures
        !predicate_call(items@, *predicates) ==> r matches Ok(None),
        predicate_call(items@, *predicates) ==> {
            let summary = predicates.value_at(items@[0]->Word_0@);
            &&& r is Err <==> built_body(summary.body@) is None
            &&& r is Ok ==> (r matches Ok(Some(e)) && shape(e) == subst_sexp(
                single_sexp(built_body(summary.body@)->0),
                texts_view(summary.params@),
                shapes(items@.drop_first()),
            ))
        },
{
    if items.len() == 0 {
        return Ok(None);
    }
    let op = match &items[0] {
        Expression::Word(op) => op,
        _ => {
            return Ok(None);
        },
    };
    let summary = match predicates.get_ref(op) {
        Some(s) => s,
        None => {
            return Ok(None);
        },
    };
    if summary.params.len() != items.len() - 1 {
        return Ok(None);
    }
    let parsed = match build_text(&summary.body) {
        Ok(p) => p,
        Err(_) => {
            return Err(());
        },
    };
    let args = &items.as_slice()[1..items.len()];
    proof {
        assert(args@ =~= items@.drop_first());
    }
    Ok(Some(substitute_predicate_body(single_built_expression(&parsed), &summary.params, args)))
}

/// The `xs` of an expression `(length xs)`.
pub(crate) fn length_argument(e: &Expression) -> (r: Option<&Expression>)
    ensures
        r is Some ==> *e is Apply,
        match *e {
            Expression::Apply(l) => if l@.len() == 2 && l@[0] is Word && l@[0]->Word_0@ == "length"@ {
                r == Some(&l@[1])
            } else {
                r is None
            },
            _ => r is None,
        },
{
    match e {
        Expression::Apply(length) => {
            if length.len() == 2 && head_is(length, "length") {
                Some(&length[1])
            } else {
                None
            }
        },
        _ => None,
    }
}

/// Pairs of texts as texts.
pub open spec fn pairs_view(s: Seq<(Vec<char>, Vec<char>)>) -> Seq<(Seq<char>, Seq<char>)> {
    s.map_values(|p: (Vec<char>, Vec<char>)| (p.0@, p.1@))
}

/// Texts with lengths, the texts as texts.
pub open spec fn lengths_view(s: Seq<(Vec<char>, usize)>) -> Seq<(Seq<char>, usize)> {
    s.map_values(|p: (Vec<char>, usize)| (p.0@, p.1))
}

/// An index written as a constant or a name is known nonnegative: a
/// nonnegative constant, a name bound to one, or a name known nonnegative.
pub open spec fn plain_index_nonnegative(index: Expression, facts: AbstractState) -> bool {
    match index {
        Expression::Int(v) => v >= 0,
        Expression::Word(n) => (facts.integer_constants.has_key(n@) && facts.integer_constants.value_at(n@)
            >= 0) || facts.nonnegative.has(n@),
        _ => false,
    }
}

/// Records that the vector `xs` has at least `m` elements.
fn push_minimum(minimum_lengths: &mut Vec<(Vec<char>, usize)>, xs: Vec<char>, m: usize)
    ensures
        lengths_view(final(minimum_lengths)@) == lengths_view(old(minimum_lengths)@).push((xs@, m)),
{
    let ghost before = minimum_lengths@;
    let ghost x = xs@;
    minimum_lengths.push((xs, m));
    proof {
        assert(lengths_view(minimum_lengths@) =~= lengths_view(before).push((x, m)));
    }
}

/// Records that `index` is below the length of `vector`, and below which
/// literal index the vector must then be longer.
fn add_upper_bound(
    vector: &Expression,
    index: &Expression,
    facts: &AbstractState,
    lower: &mut TextSet,
    upper: &mut Vec<(Vec<char>, Vec<char>)>,
    minimum_lengths: &mut Vec<(Vec<char>, usize)>,
)
    ensures
        pairs_view(final(upper)@) == pairs_view(old(upper)@).push(
            (access_text(*vector, facts.aliases), scalar_text(*index, facts.scalar_aliases)),
        ),
        forall|x: Seq<char>| #[trigger] old(lower).has(x) ==> final(lower).has(x),
        forall|x: Seq<char>| #[trigger] final(lower).has(x) ==> old(lower).has(x) || x == scalar_text(
            *index,
            facts.scalar_aliases,
        ),
        (index is Int || index is Word) ==> (final(lower).has(scalar_text(*index, facts.scalar_aliases))
            <== plain_index_nonnegative(*index, *facts)),
        *index matches Expression::Int(v) ==> (v < 0 ==> *final(lower) == *old(lower)),
        grows(lengths_view(old(minimum_lengths)@), lengths_view(final(minimum_lengths)@)),
        *index matches Expression::Int(v) ==> lengths_view(final(minimum_lengths)@) == if v >= 0 {
            lengths_view(old(minimum_lengths)@).push((access_text(*vector, facts.aliases), (v + 1) as usize))
        } else {
            lengths_view(old(minimum_lengths)@)
        },
{
    let index_key = canonical_scalar(index, facts);
    let constant_index = integer_constant(index, facts);
    let nonnegative_word = match index {
        Expression::Word(name) => facts.nonnegative.contains(name),
        _ => false,
    };
    let constant_nonnegative = match constant_index {
        Some(v) => v >= 0,
        None => false,
    };
    if constant_nonnegative || nonnegative_word {
        lower.insert(copy_text(&index_key));
    }
    let vector_key = canonical_access(vector, facts);
    let ghost mins = minimum_lengths@;
    if let Some(v) = constant_index {
        if v >= 0 {
            minimum_lengths.push((copy_text(&vector_key), (v as usize) + 1));
            proof {
                assert(lengths_view(minimum_lengths@) =~= lengths_view(mins).push((vector_key@, (v + 1) as usize)));
            }
        }
    }
    let ghost ups = upper@;
    upper.push((vector_key, index_key));
    proof {
        assert(pairs_view(upper@) =~= pairs_view(ups).push((vector_key@, index_key@)));
    }
}

/// Records the bound a cached length name gives an index.
fn add_cached_length_bound(
    index: &Expression,
    length_name: &Vec<char>,
    facts: &AbstractState,
    lower: &mut TextSet,
    upper: &mut Vec<(Vec<char>, Vec<char>)>,
    minimum_lengths: &mut Vec<(Vec<char>, usize)>,
)
    ensures
        !facts.length_sources.has_key(length_name@) ==> *final(lower) == *old(lower) && final(upper)@
            == old(upper)@ && final(minimum_lengths)@ == old(minimum_lengths)@,
        facts.length_sources.has_key(length_name@) ==> ({
            let source = facts.length_sources.value_at(length_name@)@;
            let key = scalar_text(*index, facts.scalar_aliases);
            let nonnegative = match *index {
                Expression::Int(v) => v >= 0,
                Expression::Word(n) => facts.nonnegative.has(n@),
                _ => false,
            };
            &&& pairs_view(final(upper)@) == pairs_view(old(upper)@).push((source, key))
            &&& forall|x: Seq<char>| #[trigger] final(lower).has(x) == (old(lower).has(x) || (nonnegative
                && x == key))
            &&& lengths_view(final(minimum_lengths)@) == match *index {
                Expression::Int(v) => if v >= 0 {
                    lengths_view(old(minimum_lengths)@).push((source, (v + 1) as usize))
                } else {
                    lengths_view(old(minimum_lengths)@)
                },
                _ => lengths_view(old(minimum_lengths)@),
            }
        }),
{
    let source = match facts.length_sources.get_ref(length_name) {
        Some(s) => copy_text(s),
        None => {
            return;
        },
    };
    let ghost ups = upper@;
    let ghost mins = minimum_lengths@;
    let index_key = canonical_scalar(index, facts);
    let nonnegative = match index {
        Expression::Int(v) => *v >= 0,
        Expression::Word(name) => facts.nonnegative.contains(name),
        _ => false,
    };
    if nonnegative {
        lower.insert(copy_text(&index_key));
    }
    upper.push((copy_text(&source), index_key));
    proof {
        assert(pairs_view(upper@) =~= pairs_view(ups).push((source@, index_key@)));
    }
    if let Expression::Int(v) = index {
        if *v >= 0 {
            let ghost src = source@;
            minimum_lengths.push((source, (*v as usize) + 1));
            proof {
                assert(lengths_view(minimum_lengths@) =~= lengths_view(mins).push((src, (*v + 1) as usize)));
            }
        }
    }
}

/// `e` is `(>= w 0)` for a name `w`.
pub open spec fn nonnegative_guard(e: Expression) -> bool {
    match e {
        Expression::Apply(items) => items@.len() == 3 && items@[0] is Word && items@[0]->Word_0@ == ">="@
            && items@[1] is Word && items@[2] == Expression::Int(0),
        _ => false,
    }
}

/// The vector `xs` of an expression `(length xs)`.
pub open spec fn length_of(e: Expression) -> Option<Expression> {
    match e {
        Expression::Apply(l) => if l@.len() == 2 && l@[0] is Word && l@[0]->Word_0@ == "length"@ {
            Some(l@[1])
        } else {
            None
        },
        _ => None,
    }
}

/// For a condition that, evaluating to `t`, puts a name below the length of
/// a vector (`(< i (length xs))`, `(> (length xs) i)` and their negations):
/// the name and the vector.
pub open spec fn index_below_length(e: Expression, t: bool) -> Option<(Expression, Expression)> {
    match e {
        Expression::Apply(items) => if items@.len() == 3 && items@[0] is Word {
            let op = items@[0]->Word_0@;
            if items@[1] is Word && length_of(items@[2]) is Some && ((t && op == "<"@) || (!t && op
                == ">="@)) {
                Some((items@[1], length_of(items@[2])->0))
            } else if items@[2] is Word && length_of(items@[1]) is Some && ((t && op == ">"@) || (!t
                && op == "<="@)) {
                Some((items@[2], length_of(items@[1])->0))
            } else {
                None
            }
        } else {
            None
        },
        _ => None,
    }
}

/// For a condition that, evaluating to `t`, compares the length of a vector
/// with a literal so that the vector has at least some number of elements:
/// the vector and that number.
pub open spec fn length_floor(e: Expression, t: bool) -> Option<(Expression, int)> {
    match e {
        Expression::Apply(items) => if items@.len() == 3 && items@[0] is Word {
            let op = items@[0]->Word_0@;
            if length_of(items@[1]) is Some && items@[2] is Int {
                let xs = length_of(items@[1])->0;
                let c = items@[2]->Int_0 as int;
                if t && op == "="@ {
                    Some((xs, c))
                } else if !t && op == "="@ && c == 0 {
                    Some((xs, 1))
                } else if (t && op == ">"@) || (!t && op == "<="@) {
                    Some((xs, c + 1))
                } else if (t && op == ">="@) || (!t && op == "<"@) {
                    Some((xs, c))
                } else {
                    None
                }
            } else if length_of(items@[2]) is Some && items@[1] is Int {
                let xs = length_of(items@[2])->0;
                let c = items@[1]->Int_0 as int;
                if t && op == "="@ {
                    Some((xs, c))
                } else if !t && op == "="@ && c == 0 {
                    Some((xs, 1))
                } else if (t && op == "<"@) || (!t && op == ">="@) {
                    Some((xs, c + 1))
                } else if (t && op == "<="@) || (!t && op == ">"@) {
                    Some((xs, c))
                } else {
                    None
                }
            } else {
                None
            }
        } else {
            None
        },
        _ => None,
    }
}

/// `(and (>= i 0) (< i (length xs)))` for names `i` and `xs`: the index and
/// the vector.
pub open spec fn full_index_guard(e: Expression) -> Option<(Expression, Expression)> {
    match e {
        Expression::Apply(items) => if items@.len() == 3 && items@[0] is Word && items@[0]->Word_0@ == "and"@
            && nonnegative_guard(items@[1]) {
            match index_below_length(items@[2], true) {
                Some((i, xs)) => if i == items@[1]->Apply_0@[1] && items@[2]->Apply_0@[0]->Word_0@ == "<"@ {
                    Some((i, xs))
                } else {
                    None
                },
                None => None,
            }
        } else {
            None
        },
        _ => None,
    }
}

/// `b` holds every item of `a`, at the same places.
pub open spec fn grows<T>(a: Seq<T>, b: Seq<T>) -> bool {
    a.len() <= b.len() && forall|i: int| 0 <= i < a.len() ==> #[trigger] b[i] == a[i]
}

/// Alias maps with the same entries give the same access texts.
pub proof fn lemma_access_text_same(e: Expression, a: TextMap<Vec<char>>, b: TextMap<Vec<char>>)
    requires
        texts_within(a, b),
        texts_within(b, a),
    ensures
        access_text(e, a) == access_text(e, b),
    decreases e,
{
    match e {
        Expression::Word(name) => {
            if a.has_key(name@) {
                assert(b.has_key(name@));
            } else if b.has_key(name@) {
                assert(a.has_key(name@));
            }
        },
        Expression::Apply(items) => {
            if items@.len() == 3 && items@[0] is Word && items@[0]->Word_0@ == "get"@ {
                assert(decreases_to!(e => items@[1]));
                lemma_access_text_same(items@[1], a, b);
            }
        },
        _ => {},
    }
}

/// Collects the bounds facts a condition proves when it evaluates to
/// `is_true`: indices known nonnegative (`lower`), indices known below a
/// vector's length (`upper`) and minimum vector lengths.
#[verifier::rlimit(50)]
pub(crate) fn collect_static_bound_guard_facts(
    expr: &Expression,
    facts: &AbstractState,
    ctx: &Summaries,
    is_true: bool,
    lower: &mut TextSet,
    upper: &mut Vec<(Vec<char>, Vec<char>)>,
    minimum_lengths: &mut Vec<(Vec<char>, usize)>,
    depth: usize,
)
    requires
        depth <= EXPANSION_LIMIT,
    ensures
        !(expr is Apply) ==> *final(lower) == *old(lower) && final(upper)@ == old(upper)@
            && final(minimum_lengths)@ == old(minimum_lengths)@,
        is_true && nonnegative_guard(*expr) ==> final(lower).has(
            scalar_text(expr->Apply_0@[1], facts.scalar_aliases),
        ) && final(upper)@ == old(upper)@ && final(minimum_lengths)@ == old(minimum_lengths)@,
        forall|x: Seq<char>| #[trigger] old(lower).has(x) ==> final(lower).has(x),
        grows(pairs_view(old(upper)@), pairs_view(final(upper)@)),
        grows(lengths_view(old(minimum_lengths)@), lengths_view(final(minimum_lengths)@)),
        index_below_length(*expr, is_true) matches Some((i, xs)) ==> {
            &&& pairs_view(final(upper)@) == pairs_view(old(upper)@).push(
                (access_text(xs, facts.aliases), scalar_text(i, facts.scalar_aliases)),
            )
            &&& plain_index_nonnegative(i, *facts) ==> final(lower).has(scalar_text(i, facts.scalar_aliases))
            &&& forall|x: Seq<char>| #[trigger] facts.nonnegative.has(x) ==> final(lower).has(x)
        },
        is_true && full_index_guard(*expr) is Some ==> ({
            let (i, xs) = full_index_guard(*expr)->0;
            &&& final(lower).has(scalar_text(i, facts.scalar_aliases))
            &&& pairs_view(final(upper)@).contains((access_text(xs, facts.aliases), scalar_text(i, facts.scalar_aliases)))
        }),
        length_floor(*expr, is_true) matches Some((xs, m)) ==> {
            &&& final(upper)@ == old(upper)@
            &&& lengths_view(final(minimum_lengths)@) == if m > 0 {
                lengths_view(old(minimum_lengths)@).push((access_text(xs, facts.aliases), m as usize))
            } else {
                lengths_view(old(minimum_lengths)@)
            }
        },
    decreases EXPANSION_LIMIT - depth, *expr,
{
    let items = match expr {
        Expression::Apply(items) => items,
        _ => {
            return;
        },
    };
    let first_word: Option<&Vec<char>> = if items.len() == 0 {
        None
    } else {
        match &items[0] {
            Expression::Word(w) => Some(w),
            _ => None,
        }
    };
    let op: &Vec<char> = match first_word {
        Some(w) => w,
        None => {
            // only a summary expansion could apply, and it needs a word
            if !is_true {
                lower.extend(&facts.nonnegative);
            }
            return;
        },
    };
    let n = items.len();
    proof {
        reveal_strlit(">=");
        reveal_strlit("and");
        reveal_strlit("or");
        reveal_strlit("not");
        reveal_strlit(">");
        assert(">="@.len() != "and"@.len() && ">="@.len() != "not"@.len());
        assert(">="@[0] != "or"@[0]);
        reveal_strlit("<");
        reveal_strlit("<=");
        reveal_strlit("=");
        assert("="@[0] != "<"@[0] && "="@[0] != ">"@[0] && "<"@[0] != ">"@[0]);
        assert("<="@[0] != ">="@[0] && "<="@.len() != "<"@.len() && ">="@.len() != ">"@.len());
        assert("<="@[0] != "or"@[0]);
        assert("<"@.len() != "or"@.len() && "="@.len() != "or"@.len() && ">"@.len() != "or"@.len());
    }
    let ghost full = is_true && full_index_guard(*expr) is Some;
    let ghost (gi, gxs) = full_index_guard(*expr)->0;
    let ghost key = scalar_text(gi, facts.scalar_aliases);
    let ghost pair = (access_text(gxs, facts.aliases), key);
    if n >= 3 && ((text_is(op, "and") && is_true) || (text_is(op, "or") && !is_true)) {
        let mut i: usize = 1;
        while i < n
            invariant
                1 <= i <= n,
                n == items@.len(),
                depth <= EXPANSION_LIMIT,
                *expr == Expression::Apply(*items),
                forall|x: Seq<char>| #[trigger] old(lower).has(x) ==> lower.has(x),
                grows(pairs_view(old(upper)@), pairs_view(upper@)),
                grows(lengths_view(old(minimum_lengths)@), lengths_view(minimum_lengths@)),
                full && i >= 2 ==> lower.has(key),
                full && i >= 3 ==> pairs_view(upper@).contains(pair),
            decreases n - i,
        {
            assert(decreases_to!(*expr => items@[i as int]));
            let ghost before_upper = pairs_view(upper@);
            proof {
                if full && i == 2 {
                    assert(items@[2] is Apply);
                }
            }
            collect_static_bound_guard_facts(
                &items[i],
                facts,
                ctx,
                is_true,
                lower,
                upper,
                minimum_lengths,
                depth,
            );
            proof {
                if full && i >= 3 {
                    let j = choose|j: int| 0 <= j < before_upper.len() && before_upper[j] == pair;
                    assert(pairs_view(upper@)[j] == pair);
                }
                if full && i == 2 {
                    assert(pairs_view(upper@)[pairs_view(upper@).len() - 1] == pair);
                }
            }
            i += 1;
        }
        lower.extend(&facts.nonnegative);
        return;
    }
    if n == 2 && text_is(op, "not") {
        assert(decreases_to!(*expr => items@[1]));
        collect_static_bound_guard_facts(
            &items[1],
            facts,
            ctx,
            !is_true,
            lower,
            upper,
            minimum_lengths,
            depth,
        );
        lower.extend(&facts.nonnegative);
        return;
    }
    if n == 3 {
        let left = &items[1];
        let right = &items[2];
        // (op index bound): nonnegativity of a word
        if let (Expression::Word(index), Expression::Int(bound)) = (left, right) {
            if (is_true && ((text_is(op, ">=") && *bound == 0) || (text_is(op, ">") && *bound
                == -1))) || (!is_true && ((text_is(op, "<") && *bound == 0) || (text_is(op, "<=")
                && *bound == -1))) {
                let key = canonical_scalar(left, facts);
                let ghost k = key@;
                lower.insert(key);
                lower.extend(&facts.nonnegative);
                proof {
                    assert(lower.has(k));
                }
                return;
            }
        }
        let left_length = length_argument(left);
        let right_length = length_argument(right);
        // (= (length xs) bound) that holds
        if text_is(op, "=") && is_true && left_length.is_some() {
            if let Some(xs) = left_length {
                if let Some(minimum) = integer_constant(right, facts) {
                    if minimum > 0 {
                        push_minimum(minimum_lengths, canonical_access(xs, facts), minimum as usize);
                    }
                }
            }
            lower.extend(&facts.nonnegative);
            return;
        }
        // (= bound (length xs)) that holds
        if text_is(op, "=") && is_true && right_length.is_some() {
            if let Some(xs) = right_length {
                if let Some(minimum) = integer_constant(left, facts) {
                    if minimum > 0 {
                        push_minimum(minimum_lengths, canonical_access(xs, facts), minimum as usize);
                    }
                }
            }
            lower.extend(&facts.nonnegative);
            return;
        }
        // (= (length xs) 0) that fails
        if text_is(op, "=") && !is_true && left_length.is_some() && matches!(right, Expression::Int(0)) {
            if let Some(xs) = left_length {
                push_minimum(minimum_lengths, canonical_access(xs, facts), 1);
            }
            lower.extend(&facts.nonnegative);
            return;
        }
        let ordering = text_is(op, ">") || text_is(op, ">=") || text_is(op, "<") || text_is(
            op,
            "<=",
        );
        // (op (length xs) bound)
        if ordering && left_length.is_some() {
            if let Expression::Int(bound) = right {
                let b = *bound as i64;
                let minimum: i64 = if (text_is(op, ">") && is_true) || (text_is(op, "<=")
                    && !is_true) {
                    b + 1
                } else if (text_is(op, ">=") && is_true) || (text_is(op, "<") && !is_true) {
                    b
                } else {
                    return;
                };
                if minimum > 0 {
                    if let Some(xs) = left_length {
                        push_minimum(minimum_lengths, canonical_access(xs, facts), minimum as usize);
                    }
                }
                lower.extend(&facts.nonnegative);
                return;
            }
        }
        // (op bound (length xs))
        if ordering && right_length.is_some() {
            if let Expression::Int(bound) = left {
                let b = *bound as i64;
                let minimum: i64 = if (text_is(op, "<") && is_true) || (text_is(op, ">=")
                    && !is_true) {
                    b + 1
                } else if (text_is(op, "<=") && is_true) || (text_is(op, ">") && !is_true) {
                    b
                } else {
                    return;
                };
                if minimum > 0 {
                    if let Some(xs) = right_length {
                        push_minimum(minimum_lengths, canonical_access(xs, facts), minimum as usize);
                    }
                }
                lower.extend(&facts.nonnegative);
                return;
            }
        }
        // (= 0 (length xs)) that fails
        if text_is(op, "=") && !is_true && right_length.is_some() && matches!(left, Expression::Int(0)) {
            if let Some(xs) = right_length {
                push_minimum(minimum_lengths, canonical_access(xs, facts), 1);
            }
            lower.extend(&facts.nonnegative);
            return;
        }
        let below = (is_true && text_is(op, "<")) || (!is_true && text_is(op, ">="));
        let above = (is_true && text_is(op, ">")) || (!is_true && text_is(op, "<="));
        // index below (length xs)
        if below && right_length.is_some() {
            if let Some(xs) = right_length {
                add_upper_bound(xs, left, facts, lower, upper, minimum_lengths);
            }
            lower.extend(&facts.nonnegative);
            return;
        }
        // (length xs) above index
        if above && left_length.is_some() {
            if let Some(xs) = left_length {
                add_upper_bound(xs, right, facts, lower, upper, minimum_lengths);
            }
            lower.extend(&facts.nonnegative);
            return;
        }
        // index below a cached length
        if below {
            if let Expression::Word(length) = right {
                if facts.length_sources.contains_key(length) {
                    add_cached_length_bound(left, length, facts, lower, upper, minimum_lengths);
                    lower.extend(&facts.nonnegative);
                    return;
                }
            }
        }
        // a cached length above index
        if above {
            if let Expression::Word(length) = left {
                if facts.length_sources.contains_key(length) {
                    add_cached_length_bound(right, length, facts, lower, upper, minimum_lengths);
                    lower.extend(&facts.nonnegative);
                    return;
                }
            }
        }
    }
    // a call of a user function with a known guard, or of a user predicate
    if is_true {
        if let Some(relations) = ctx.guards.get_ref(op) {
            let mut k: usize = 0;
            while k < relations.len()
                invariant
                    k <= relations.len(),
                    forall|x: Seq<char>| #[trigger] old(lower).has(x) ==> lower.has(x),
                    grows(pairs_view(old(upper)@), pairs_view(upper@)),
                    minimum_lengths@ == old(minimum_lengths)@,
                decreases relations.len() - k,
            {
                add_guard_relation(&relations[k], items, facts, lower, upper);
                k += 1;
            }
        }
    }
    if depth < EXPANSION_LIMIT {
        match expand_predicate_call(items, ctx.predicates) {
            Ok(Some(expanded)) => {
                collect_static_bound_guard_facts(
                    &expanded,
                    facts,
                    ctx,
                    is_true,
                    lower,
                    upper,
                    minimum_lengths,
                    depth + 1,
                );
            },
            Ok(None) => {},
            Err(()) => {
                return;
            },
        }
    }
    lower.extend(&facts.nonnegative);
}

/// The shape of the vector a guard relation names in the call `items`: the
/// vector argument indexed, one `get` at a time, by the first `p`
/// projecting arguments that exist.
pub open spec fn guard_vector(items: Seq<Expression>, relation: crate::state::GuardRelation, p: int) -> Sexp
    decreases p,
{
    if p <= 0 {
        shape(items[relation.vector_arg + 1])
    } else {
        let prev = guard_vector(items, relation, p - 1);
        let arg = relation.projection_index_args@[p - 1];
        if arg < items.len() - 1 {
            Sexp::List(seq![Sexp::Word("get"@), prev, shape(items[arg + 1])])
        } else {
            prev
        }
    }
}

/// Records the bound a guard relation of the called function gives.
fn add_guard_relation(
    relation: &crate::state::GuardRelation,
    items: &Vec<Expression>,
    facts: &AbstractState,
    lower: &mut TextSet,
    upper: &mut Vec<(Vec<char>, Vec<char>)>,
)
    ensures
        items@.len() == 0 || relation.vector_arg >= items@.len() - 1 || relation.index_arg >= items@.len() - 1
            ==> *final(lower) == *old(lower) && final(upper)@ == old(upper)@,
        !(items@.len() == 0 || relation.vector_arg >= items@.len() - 1 || relation.index_arg >= items@.len() - 1)
            ==> {
            let key = scalar_text(items@[relation.index_arg + 1], facts.scalar_aliases);
            &&& forall|x: Seq<char>| #[trigger] final(lower).has(x) == (old(lower).has(x) || x == key)
            &&& pairs_view(final(upper)@) == pairs_view(old(upper)@).push(
                (
                    access_sexp(
                        guard_vector(items@, *relation, relation.projection_index_args@.len() as int),
                        facts.aliases,
                    ),
                    key,
                ),
            )
        },
{
    if items.len() == 0 || relation.vector_arg >= items.len() - 1 || relation.index_arg
        >= items.len() - 1 {
        return;
    }
    let mut vector = copy_expr(&items[relation.vector_arg + 1]);
    let index = &items[relation.index_arg + 1];
    let mut p: usize = 0;
    while p < relation.projection_index_args.len()
        invariant
            p <= relation.projection_index_args.len(),
            items@.len() > 0,
            shape(vector) == guard_vector(items@, *relation, p as int),
        decreases relation.projection_index_args.len() - p,
    {
        let arg = relation.projection_index_args[p];
        if arg < items.len() - 1 {
            let g = word_of("get");
            let c = copy_expr(&items[arg + 1]);
            let ghost prev = vector;
            let v = vec![g, vector, c];
            proof {
                lemma_shapes(v@);
                assert(shapes(v@) =~= seq![Sexp::Word("get"@), shape(prev), shape(items@[arg + 1])]);
            }
            vector = Expression::Apply(v);
        }
        p += 1;
    }
    let index_key = canonical_scalar(index, facts);
    lower.insert(copy_text(&index_key));
    let access = canonical_access(&vector, facts);
    proof {
        lemma_access_text_shape(vector, facts.aliases);
    }
    let ghost ups = upper@;
    let ghost ik = index_key@;
    upper.push((access, index_key));
    proof {
        assert(pairs_view(upper@) =~= pairs_view(ups).push((access@, ik)));
    }
}

/// The state after `expr` evaluates to `desired`, or `None` when it cannot.
pub(crate) fn predicate_result_state(
    expr: &Expression,
    state: &AbstractState,
    ctx: &Summaries,
    desired: bool,
    depth: usize,
) -> (r: Option<AbstractState>)
    requires
        depth <= EXPANSION_LIMIT,
    ensures
        *expr matches Expression::Word(w) ==> (w@ == "true"@ || w@ == "false"@ ==> (r is Some <==> (w@
            == "true"@) == desired) && (r matches Some(s) ==> copy_of(s, *state))),
        *expr matches Expression::Apply(items) ==> (items@.len() == 3 && items@[0] is Word && items@[1] is Int
            && items@[2] is Int && comparison_of(items@[0]->Word_0@) is Some ==> (r is Some <==> literal_comparison(
            comparison_of(items@[0]->Word_0@)->0,
            items@[1]->Int_0 as int,
            items@[2]->Int_0 as int,
        ) == desired) && (r matches Some(s) ==> copy_of(s, *state))),
        !(expr is Apply) && !(*expr matches Expression::Word(w) && (w@ == "true"@ || w@ == "false"@))
            ==> (r matches Some(s) && copy_of(s, *state)),
    decreases EXPANSION_LIMIT - depth, *expr, 1nat,
{
    if let Expression::Word(value) = expr {
        if text_is(value, "true") || text_is(value, "false") {
            if text_is(value, "true") == desired {
                return Some(state.duplicate());
            } else {
                return None;
            }
        }
    }
    if let Some(known) = known_integer_predicate(expr, state) {
        if known == desired {
            return Some(state.duplicate());
        } else {
            return None;
        }
    }
    let mut result = state.duplicate();
    collect_numeric_guard_facts(expr, &mut result, ctx, desired, depth);
    Some(result)
}

/// Refines the numeric facts with what `expr` evaluating to `is_true` proves.
#[verifier::rlimit(50)]
pub(crate) fn collect_numeric_guard_facts(
    expr: &Expression,
    facts: &mut AbstractState,
    ctx: &Summaries,
    is_true: bool,
    depth: usize,
)
    requires
        depth <= EXPANSION_LIMIT,
    ensures
        !(expr is Apply) ==> *final(facts) == *old(facts),
        *expr matches Expression::Apply(items) ==> (items@.len() == 3 && items@[0] is Word && comparison_of(
            items@[0]->Word_0@,
        ) is Some ==> names_ordered(
            items@[1],
            items@[2],
            comparison_of(items@[0]->Word_0@)->0,
            is_true,
            *old(facts),
            *final(facts),
        )),
        *expr matches Expression::Apply(items) ==> (items@.len() == 3 && items@[0] is Word && comparison_of(
            items@[0]->Word_0@,
        ) is Some ==> (items@[2] matches Expression::Int(c) ==> bound_guarded(
            items@[1],
            c as int,
            if is_true {
                comparison_of(items@[0]->Word_0@)->0
            } else {
                negation_of(comparison_of(items@[0]->Word_0@)->0)
            },
            *old(facts),
            *final(facts),
        ))),
        *expr matches Expression::Apply(items) ==> (items@.len() == 3 && items@[0] is Word && comparison_of(
            items@[0]->Word_0@,
        ) is Some ==> comparison_frame(*old(facts), *final(facts))),
        is_true && full_index_guard(*expr) is Some ==> final(facts).safe_pairs == old(facts).safe_pairs
            && final(facts).aliases == old(facts).aliases && final(facts).scalar_aliases == old(facts).scalar_aliases,
    decreases EXPANSION_LIMIT - depth, *expr, 0nat,
{
    let items = match expr {
        Expression::Apply(items) => items,
        _ => {
            return;
        },
    };
    let n = items.len();
    if n == 0 {
        return;
    }
    let op = match &items[0] {
        Expression::Word(w) => w,
        _ => {
            return;
        },
    };
    proof {
        reveal_strlit("and");
        reveal_strlit("or");
        reveal_strlit("=");
        reveal_strlit("<");
        reveal_strlit("<=");
        reveal_strlit(">");
        reveal_strlit(">=");
        if comparison_of(op@) is Some {
            assert(op@ != "and"@ && op@ != "or"@) by {
                assert("and"@.len() == 3);
                assert("or"@[0] == 'o');
            }
        }
        assert("and"@ != "or"@) by {
            assert("and"@.len() == 3 && "or"@.len() == 2);
        }
    }
    if n == 4 && text_is(op, "if") {
        assert(decreases_to!(*expr => items@[1]));
        assert(decreases_to!(*expr => items@[2]));
        assert(decreases_to!(*expr => items@[3]));
        let condition = &items[1];
        let mut outcomes: Vec<AbstractState> = Vec::new();
        let known = known_integer_predicate(condition, facts);
        let known_false = match known {
            Some(k) => !k,
            None => false,
        };
        let known_true = match known {
            Some(k) => k,
            None => false,
        };
        if !known_false {
            let mut true_path = facts.duplicate();
            collect_numeric_guard_facts(condition, &mut true_path, ctx, true, depth);
            if let Some(outcome) = predicate_result_state(&items[2], &true_path, ctx, is_true, depth) {
                outcomes.push(outcome);
            }
        }
        if !known_true {
            let mut false_path = facts.duplicate();
            collect_numeric_guard_facts(condition, &mut false_path, ctx, false, depth);
            if let Some(outcome) = predicate_result_state(&items[3], &false_path, ctx, is_true, depth) {
                outcomes.push(outcome);
            }
        }
        if outcomes.len() == 1 {
            *facts = outcomes.pop().unwrap();
        } else if outcomes.len() == 2 {
            *facts = join_states(&outcomes[0], &outcomes[1]);
        }
        return;
    }
    if n >= 3 && ((text_is(op, "or") && is_true) || (text_is(op, "and") && !is_true)) {
        assert(decreases_to!(*expr => items@[1]));
        let mut joined = facts.duplicate();
        collect_numeric_guard_facts(&items[1], &mut joined, ctx, is_true, depth);
        let mut i: usize = 2;
        while i < n
            invariant
                2 <= i <= n,
                n == items@.len(),
                depth <= EXPANSION_LIMIT,
                *expr == Expression::Apply(*items),
            decreases n - i,
        {
            assert(decreases_to!(*expr => items@[i as int]));
            let mut branch = facts.duplicate();
            collect_numeric_guard_facts(&items[i], &mut branch, ctx, is_true, depth);
            joined = join_states(&joined, &branch);
            i += 1;
        }
        *facts = joined;
        return;
    }
    if n >= 3 && ((text_is(op, "and") && is_true) || (text_is(op, "or") && !is_true)) {
        let ghost full = is_true && full_index_guard(*expr) is Some;
        let mut i: usize = 1;
        while i < n
            invariant
                1 <= i <= n,
                n == items@.len(),
                depth <= EXPANSION_LIMIT,
                *expr == Expression::Apply(*items),
                full ==> facts.safe_pairs == old(facts).safe_pairs && facts.aliases == old(facts).aliases
                    && facts.scalar_aliases == old(facts).scalar_aliases,
            decreases n - i,
        {
            assert(decreases_to!(*expr => items@[i as int]));
            proof {
                if full {
                    reveal_strlit(">=");
                    assert(items@[i as int] is Apply);
                    assert(comparison_of(items@[i as int]->Apply_0@[0]->Word_0@) is Some);
                }
            }
            collect_numeric_guard_facts(&items[i], facts, ctx, is_true, depth);
            i += 1;
        }
        return;
    }
    if n == 2 && text_is(op, "not") {
        assert(decreases_to!(*expr => items@[1]));
        collect_numeric_guard_facts(&items[1], facts, ctx, !is_true, depth);
        return;
    }
    if n == 3 {
        if let Some(rel) = comparison_code(op) {
            record_comparison_facts(&items[1], &items[2], rel, facts, is_true);
            return;
        }
    }
    if depth < EXPANSION_LIMIT {
        match expand_predicate_call(items, ctx.predicates) {
            Ok(Some(expanded)) => {
                collect_numeric_guard_facts(&expanded, facts, ctx, is_true, depth + 1);
            },
            _ => {},
        }
    }
}

/// The facts a comparison leaves as they were: index proofs, vector
/// lengths, names bound to lengths and aliases, constants.
pub open spec fn comparison_frame(a: AbstractState, b: AbstractState) -> bool {
    &&& b.safe_pairs == a.safe_pairs && b.nonnegative == a.nonnegative
    &&& b.fixed_lengths == a.fixed_lengths && b.minimum_lengths == a.minimum_lengths
    &&& b.length_sources == a.length_sources && b.aliases == a.aliases && b.scalar_aliases == a.scalar_aliases
    &&& b.integer_constants == a.integer_constants
    &&& forall|x: Seq<char>, y: Seq<char>| a.leq_pairs.has(x, y) ==> #[trigger] b.leq_pairs.has(x, y)
}

/// `(rel l r)` with `rel` evaluating to `t` between two names that are not
/// constants orders them in `b`: `l <= r` for `<` and `<=`, `r <= l` for `>`
/// and `>=`.
pub open spec fn names_ordered(l: Expression, r: Expression, rel: u8, t: bool, a: AbstractState, b: AbstractState) -> bool {
    let effective = if t {
        rel
    } else {
        negation_of(rel)
    };
    (l is Word && r is Word && !a.integer_constants.has_key(l->Word_0@) && !a.integer_constants.has_key(
        r->Word_0@,
    )) ==> {
        let lk = scalar_text(l, a.scalar_aliases);
        let rk = scalar_text(r, a.scalar_aliases);
        &&& (effective == REL_LT || effective == REL_LE) ==> b.leq_pairs.has(lk, rk)
        &&& (effective == REL_GT || effective == REL_GE) ==> b.leq_pairs.has(rk, lk)
    }
}

/// The values a name may take when `(rel name c)` holds, for the orderings and `=`.
pub open spec fn guard_range(rel: u8, c: int) -> IntInterval {
    if rel == REL_EQ {
        IntInterval { min: c as i64, max: c as i64 }
    } else if rel == REL_GT {
        IntInterval { min: (c + 1) as i64, max: I32_MAX }
    } else if rel == REL_GE {
        IntInterval { min: c as i64, max: I32_MAX }
    } else if rel == REL_LT {
        IntInterval { min: I32_MIN, max: (c - 1) as i64 }
    } else {
        IntInterval { min: I32_MIN, max: c as i64 }
    }
}

/// `(rel l c)` with `rel` the comparison that holds, for a name `l` and a
/// literal `c`, bounds `l` in `b`: its range lies within what was known of it,
/// cut down to the values the comparison allows, and a range without zero
/// makes it nonzero; `(!= l 0)` makes it nonzero.  A comparison that
/// contradicts what was known records no range.
pub open spec fn bound_guarded(l: Expression, c: int, rel: u8, a: AbstractState, b: AbstractState) -> bool {
    let key = scalar_text(l, a.scalar_aliases);
    let current = match word_interval(l, a) {
        Some(x) => x,
        None => IntInterval { min: I32_MIN, max: I32_MAX },
    };
    let n = narrowed_range(current, guard_range(rel, c), a.nonzero.has(key));
    l is Word ==> {
        &&& (rel == REL_NE && c == 0) ==> b.nonzero.has(key)
        &&& (rel <= REL_LE && n.min <= n.max) ==> {
            &&& b.integer_ranges.has_key(key)
            &&& n.min <= b.integer_ranges.value_at(key).min
            &&& b.integer_ranges.value_at(key).max <= n.max
            &&& (n.max < 0 || n.min > 0) ==> b.nonzero.has(key)
        }
    }
}

/// Refines the facts with `(rel left right)` evaluating to `is_true`.
fn record_comparison_facts(
    left: &Expression,
    right: &Expression,
    rel: u8,
    facts: &mut AbstractState,
    is_true: bool,
)
    ensures
        comparison_frame(*old(facts), *final(facts)),
        names_ordered(*left, *right, rel, is_true, *old(facts), *final(facts)),
        *right matches Expression::Int(c) ==> bound_guarded(
            *left,
            c as int,
            if is_true {
                rel
            } else {
                negation_of(rel)
            },
            *old(facts),
            *final(facts),
        ),
{
    let (value, bound, comparison) = match integer_constant(right, facts) {
        Some(bound) => (left, bound, rel),
        None => match integer_constant(left, facts) {
            Some(bound) => (right, bound, reverse_comparison(rel)),
            None => {
                let effective = if is_true {
                    rel
                } else {
                    negate_comparison(rel)
                };
                record_effective_affine_comparison(left, right, effective, facts);
                record_product_comparison(left, right, effective, facts);
                let left_key = canonical_scalar(left, facts);
                let right_key = canonical_scalar(right, facts);
                if effective == REL_LT || effective == REL_LE {
                    facts.leq_pairs.insert(left_key, right_key);
                } else if effective == REL_GT || effective == REL_GE {
                    facts.leq_pairs.insert(right_key, left_key);
                } else if effective == REL_EQ {
                    facts.leq_pairs.insert(copy_text(&left_key), copy_text(&right_key));
                    facts.leq_pairs.insert(right_key, left_key);
                }
                propagate_relational_ranges(facts);
                return;
            },
        },
    };
    let effective = if is_true {
        comparison
    } else {
        negate_comparison(comparison)
    };
    record_effective_affine_comparison(left, right, effective, facts);
    record_product_comparison(left, right, effective, facts);
    let b = bound as i64;
    if effective == REL_EQ {
        constrain_integer_range(value, facts, IntInterval::exact(bound));
    } else if effective == REL_NE {
        if bound == 0 {
            let key = canonical_scalar(value, facts);
            facts.nonzero.insert(key);
        }
    } else if effective == REL_GT {
        constrain_integer_range(value, facts, IntInterval { min: b + 1, max: I32_MAX });
    } else if effective == REL_GE {
        constrain_integer_range(value, facts, IntInterval { min: b, max: I32_MAX });
    } else if effective == REL_LT {
        constrain_integer_range(value, facts, IntInterval { min: I32_MIN, max: b - 1 });
    } else if effective == REL_LE {
        constrain_integer_range(value, facts, IntInterval { min: I32_MIN, max: b });
    }
    propagate_relational_ranges(facts);
}

/// The state on the path where `expr` evaluates to `is_true`.
#[verifier::rlimit(50)]
pub(crate) fn state_for_branch(expr: &Expression, facts: &AbstractState, ctx: &Summaries, is_true: bool) -> (r:
    AbstractState)
    ensures
        !(expr is Apply) ==> copy_of(r, *facts),
        *expr matches Expression::Apply(items) ==> (items@.len() == 3 && items@[0] is Word && comparison_of(
            items@[0]->Word_0@,
        ) is Some ==> names_ordered(
            items@[1],
            items@[2],
            comparison_of(items@[0]->Word_0@)->0,
            is_true,
            *facts,
            r,
        )),
        index_below_length(*expr, is_true) matches Some((i, xs)) ==> (plain_index_nonnegative(i, *facts)
            ==> r.safe_pairs.has(access_text(xs, facts.aliases), scalar_text(i, facts.scalar_aliases))),
        index_below_length(*expr, is_true) matches Some((i, xs)) ==> (plain_index_nonnegative(i, *facts)
            ==> index_proven(xs, i, r, false)),
        is_true && full_index_guard(*expr) is Some ==> ({
            let (i, xs) = full_index_guard(*expr)->0;
            index_proven(xs, i, r, false)
        }),
{
    let mut next = facts.duplicate();
    let mut lower = TextSet::new();
    let mut upper: Vec<(Vec<char>, Vec<char>)> = Vec::new();
    let mut minimum_lengths: Vec<(Vec<char>, usize)> = Vec::new();
    collect_static_bound_guard_facts(
        expr,
        facts,
        ctx,
        is_true,
        &mut lower,
        &mut upper,
        &mut minimum_lengths,
        0,
    );
    let ghost copied = next;
    let mut i: usize = 0;
    while i < upper.len()
        invariant
            i <= upper.len(),
            upper@.len() == 0 ==> next == copied,
            next.leq_pairs == copied.leq_pairs && next.integer_constants == copied.integer_constants
                && next.scalar_aliases == copied.scalar_aliases && next.aliases == copied.aliases,
            forall|j: int| 0 <= j < i && lower.has((#[trigger] upper@[j]).1@) ==> next.safe_pairs.has(
                upper@[j].0@,
                upper@[j].1@,
            ),
        decreases upper.len() - i,
    {
        if lower.contains(&upper[i].1) {
            next.safe_pairs.insert(copy_text(&upper[i].0), copy_text(&upper[i].1));
        }
        i += 1;
    }
    let ghost guarded = next.safe_pairs;
    let mut i: usize = 0;
    while i < minimum_lengths.len()
        invariant
            i <= minimum_lengths.len(),
            upper@.len() == 0 && minimum_lengths@.len() == 0 ==> next == copied,
            next.leq_pairs == copied.leq_pairs && next.integer_constants == copied.integer_constants
                && next.scalar_aliases == copied.scalar_aliases && next.aliases == copied.aliases,
            next.safe_pairs == guarded,
        decreases minimum_lengths.len() - i,
    {
        let vector = &minimum_lengths[i].0;
        let minimum = minimum_lengths[i].1;
        let merged = match next.minimum_lengths.get(vector) {
            Some(known) => if known >= minimum {
                known
            } else {
                minimum
            },
            None => minimum,
        };
        next.minimum_lengths.insert(copy_text(vector), merged);
        i += 1;
    }
    let ghost pre = next;
    collect_numeric_guard_facts(expr, &mut next, ctx, is_true, 0);
    proof {
        if is_true && full_index_guard(*expr) is Some {
            let (ix, xs) = full_index_guard(*expr)->0;
            let pair = (access_text(xs, facts.aliases), scalar_text(ix, facts.scalar_aliases));
            let j = choose|j: int| 0 <= j < pairs_view(upper@).len() && pairs_view(upper@)[j] == pair;
            assert(pairs_view(upper@)[j] == (upper@[j].0@, upper@[j].1@));
            assert(lower.has(upper@[j].1@));
            assert(guarded.has(upper@[j].0@, upper@[j].1@));
            lemma_access_text_same(xs, next.aliases, facts.aliases);
            assert(scalar_text(ix, next.scalar_aliases) == scalar_text(ix, facts.scalar_aliases)) by {
                let w = ix->Word_0@;
                if facts.scalar_aliases.has_key(w) {
                    assert(next.scalar_aliases.has_key(w));
                } else if next.scalar_aliases.has_key(w) {
                    assert(facts.scalar_aliases.has_key(w));
                }
            }
        }
    }
    proof {
        if index_below_length(*expr, is_true) is Some {
            let (ix, xs) = index_below_length(*expr, is_true)->0;
            let pair = (access_text(xs, facts.aliases), scalar_text(ix, facts.scalar_aliases));
            assert(pairs_view(upper@) == Seq::<(Seq<char>, Seq<char>)>::empty().push(pair));
            assert(pairs_view(upper@)[0] == (upper@[0].0@, upper@[0].1@));
            if plain_index_nonnegative(ix, *facts) {
                assert(lower.has(upper@[0].1@));
                assert(guarded.has(upper@[0].0@, upper@[0].1@));
                assert(next.aliases == pre.aliases && next.scalar_aliases == pre.scalar_aliases);
                lemma_access_text_same(xs, next.aliases, facts.aliases);
                assert(scalar_text(ix, next.scalar_aliases) == scalar_text(ix, facts.scalar_aliases)) by {
                    let w = ix->Word_0@;
                    if facts.scalar_aliases.has_key(w) {
                        assert(next.scalar_aliases.has_key(w));
                    } else if next.scalar_aliases.has_key(w) {
                        assert(facts.scalar_aliases.has_key(w));
                    }
                }
            }
        }
    }
    proof {
        if expr is Apply {
            let items = expr->Apply_0;
            if items@.len() == 3 && items@[1] is Word && items@[2] is Word {
                let l = items@[1]->Word_0@;
                let rr = items@[2]->Word_0@;
                assert(pre.integer_constants.has_key(l) == facts.integer_constants.has_key(l));
                assert(pre.integer_constants.has_key(rr) == facts.integer_constants.has_key(rr));
                assert(scalar_text(items@[1], pre.scalar_aliases) == scalar_text(items@[1], facts.scalar_aliases));
                assert(scalar_text(items@[2], pre.scalar_aliases) == scalar_text(items@[2], facts.scalar_aliases));
            }
        }
    }
    next
}

/// The state on the path where `expr` is true.
pub(crate) fn state_for_true_branch(expr: &Expression, facts: &AbstractState, ctx: &Summaries) -> (r:
    AbstractState)
    ensures
        !(expr is Apply) ==> copy_of(r, *facts),
        *expr matches Expression::Apply(items) ==> (items@.len() == 3 && items@[0] is Word && comparison_of(
            items@[0]->Word_0@,
        ) is Some ==> names_ordered(
            items@[1],
            items@[2],
            comparison_of(items@[0]->Word_0@)->0,
            true,
            *facts,
            r,
        )),
        index_below_length(*expr, true) matches Some((i, xs)) ==> (plain_index_nonnegative(i, *facts)
            ==> index_proven(xs, i, r, false)),
        full_index_guard(*expr) is Some ==> ({
            let (i, xs) = full_index_guard(*expr)->0;
            index_proven(xs, i, r, false)
        }),
{
    state_for_branch(expr, facts, ctx, true)
}

/// The state on the path where `expr` is false.
pub(crate) fn state_for_false_branch(expr: &Expression, facts: &AbstractState, ctx: &Summaries) -> (r:
    AbstractState)
    ensures
        !(expr is Apply) ==> copy_of(r, *facts),
        *expr matches Expression::Apply(items) ==> (items@.len() == 3 && items@[0] is Word && comparison_of(
            items@[0]->Word_0@,
        ) is Some ==> names_ordered(
            items@[1],
            items@[2],
            comparison_of(items@[0]->Word_0@)->0,
            false,
            *facts,
            r,
        )),
        index_below_length(*expr, false) matches Some((i, xs)) ==> (plain_index_nonnegative(i, *facts)
            ==> index_proven(xs, i, r, false)),
{
    state_for_branch(expr, facts, ctx, false)
}

} // verus!
