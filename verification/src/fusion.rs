//! Loop fusion sources: the bindings that a fused map/filter/reduce loop sets
//! up for the sequence it walks, the counter range it runs over, and the
//! element it reads at each counter value.
use vstd::prelude::*;
use crate::expr::{Expression, Sexp, copy_expr, lemma_shapes, shape, shapes};
use crate::text::{chars_of, copy_text, push_text};

verus! {

/// What a fused loop walks: a vector, two vectors side by side, an inclusive
/// Int or Dec range, a slice of a vector, or the windows of a vector.
pub enum FuseSource {
    Vector(Expression),
    Zip { left: Expression, right: Expression },
    RangeInt { start: Expression, end: Expression },
    RangeFloat { start: Expression, end: Expression },
    Slice { xs: Expression, start: Expression, end: Expression },
    Window { xs: Expression, size: Expression },
}

/// How the element at a counter value is read from the names the setup
/// binds: `(get xs i)`, `(tuple (get left i) (get right i))`, `(+ from i)`,
/// `(Int->Dec (+ from i))`, `(get xs (+ from i))` or `(slice i (+ i size) xs)`.
pub enum IndexAccess {
    Element(Vec<char>),
    Pair(Vec<char>, Vec<char>),
    Offset(Vec<char>),
    DecimalOffset(Vec<char>),
    SliceElement(Vec<char>, Vec<char>),
    Window(Vec<char>, Vec<char>),
}

/// `(f a)`.
pub open spec fn call1(f: Seq<char>, a: Sexp) -> Sexp {
    Sexp::List(seq![Sexp::Word(f), a])
}

/// `(f a b)`.
pub open spec fn call2(f: Seq<char>, a: Sexp, b: Sexp) -> Sexp {
    Sexp::List(seq![Sexp::Word(f), a, b])
}

/// `(let name value)`.
pub open spec fn let_sexp(name: Seq<char>, value: Sexp) -> Sexp {
    call2("let"@, Sexp::Word(name), value)
}

/// The loop's temporary name `base` for the loop marked by `suffix`.
pub open spec fn tmp_name(base: Seq<char>, suffix: Seq<char>) -> Seq<char> {
    base + suffix
}

/// The number of windows of size `size` in a vector of length `len`: none
/// when the window is longer than the vector, `len` for size 0, otherwise
/// `len - size + 1`.
pub open spec fn window_end(len: Sexp, size: Sexp) -> Sexp {
    Sexp::List(
        seq![
            Sexp::Word("if"@),
            call2(">"@, size, len),
            Sexp::Int(0),
            Sexp::List(
                seq![
                    Sexp::Word("if"@),
                    call2("="@, size, Sexp::Int(0)),
                    len,
                    call2("+"@, call2("-"@, len, size), Sexp::Int(1)),
                ],
            ),
        ],
    )
}

/// The element an access reads at the counter `i`.
pub open spec fn indexed_value(a: IndexAccess, i: Sexp) -> Sexp {
    match a {
        IndexAccess::Element(xs) => call2("get"@, Sexp::Word(xs@), i),
        IndexAccess::Pair(l, r) => call2(
            "tuple"@,
            call2("get"@, Sexp::Word(l@), i),
            call2("get"@, Sexp::Word(r@), i),
        ),
        IndexAccess::Offset(from) => call2("+"@, Sexp::Word(from@), i),
        IndexAccess::DecimalOffset(from) => call1("Int->Dec"@, call2("+"@, Sexp::Word(from@), i)),
        IndexAccess::SliceElement(xs, from) => call2(
            "get"@,
            Sexp::Word(xs@),
            call2("+"@, Sexp::Word(from@), i),
        ),
        IndexAccess::Window(xs, size) => Sexp::List(
            seq![Sexp::Word("slice"@), i, call2("+"@, i, Sexp::Word(size@)), Sexp::Word(xs@)],
        ),
    }
}

/// The bindings a fused loop over `source` starts with.
pub open spec fn loop_setup(source: FuseSource, s: Seq<char>) -> Seq<Sexp> {
    match source {
        FuseSource::Vector(xs) => seq![let_sexp(tmp_name("__fuse_xs"@, s), shape(xs))],
        FuseSource::Zip { left, right } => seq![
            let_sexp(tmp_name("__fuse_left"@, s), shape(left)),
            let_sexp(tmp_name("__fuse_right"@, s), shape(right)),
            let_sexp(tmp_name("__fuse_zip_len"@, s), call1("length"@, Sexp::Word(tmp_name("__fuse_left"@, s)))),
        ],
        FuseSource::RangeInt { start, end } => seq![
            let_sexp(tmp_name("__fuse_from"@, s), shape(start)),
            let_sexp(tmp_name("__fuse_to"@, s), shape(end)),
        ],
        FuseSource::RangeFloat { start, end } => seq![
            let_sexp(tmp_name("__fuse_from"@, s), shape(start)),
            let_sexp(tmp_name("__fuse_to"@, s), shape(end)),
        ],
        FuseSource::Slice { xs, start, end } => seq![
            let_sexp(tmp_name("__fuse_xs"@, s), shape(xs)),
            let_sexp(tmp_name("__fuse_from"@, s), shape(start)),
            let_sexp(tmp_name("__fuse_to"@, s), shape(end)),
        ],
        FuseSource::Window { xs, size } => seq![
            let_sexp(tmp_name("__fuse_xs"@, s), shape(xs)),
            let_sexp(tmp_name("__fuse_window_size"@, s), shape(size)),
            let_sexp(tmp_name("__fuse_window_len"@, s), call1("length"@, Sexp::Word(tmp_name("__fuse_xs"@, s)))),
            let_sexp(
                tmp_name("__fuse_window_end"@, s),
                window_end(
                    Sexp::Word(tmp_name("__fuse_window_len"@, s)),
                    Sexp::Word(tmp_name("__fuse_window_size"@, s)),
                ),
            ),
        ],
    }
}

/// The exclusive end of the counter, which runs from 0: the length of the
/// vector or of the left one of a pair, the number of values in the range
/// (both ends included), the width of the slice, or the number of windows.
pub open spec fn loop_end(source: FuseSource, s: Seq<char>) -> Sexp {
    let from = Sexp::Word(tmp_name("__fuse_from"@, s));
    let to = Sexp::Word(tmp_name("__fuse_to"@, s));
    match source {
        FuseSource::Vector(_) => call1("length"@, Sexp::Word(tmp_name("__fuse_xs"@, s))),
        FuseSource::Zip { .. } => Sexp::Word(tmp_name("__fuse_zip_len"@, s)),
        FuseSource::RangeInt { .. } => call2("+"@, call2("-"@, to, from), Sexp::Int(1)),
        FuseSource::RangeFloat { .. } => call2("+"@, call2("-"@, to, from), Sexp::Int(1)),
        FuseSource::Slice { .. } => call2("-"@, to, from),
        FuseSource::Window { .. } => Sexp::Word(tmp_name("__fuse_window_end"@, s)),
    }
}

/// The element a fused loop over `source` reads at the counter `i`.
pub open spec fn loop_value(source: FuseSource, s: Seq<char>, i: Sexp) -> Sexp {
    let from = Sexp::Word(tmp_name("__fuse_from"@, s));
    let xs = Sexp::Word(tmp_name("__fuse_xs"@, s));
    match source {
        FuseSource::Vector(_) => call2("get"@, xs, i),
        FuseSource::Zip { .. } => call2(
            "tuple"@,
            call2("get"@, Sexp::Word(tmp_name("__fuse_left"@, s)), i),
            call2("get"@, Sexp::Word(tmp_name("__fuse_right"@, s)), i),
        ),
        FuseSource::RangeInt { .. } => call2("+"@, from, i),
        FuseSource::RangeFloat { .. } => call1("Int->Dec"@, call2("+"@, from, i)),
        FuseSource::Slice { .. } => call2("get"@, xs, call2("+"@, from, i)),
        FuseSource::Window { .. } => Sexp::List(
            seq![
                Sexp::Word("slice"@),
                i,
                call2("+"@, i, Sexp::Word(tmp_name("__fuse_window_size"@, s))),
                xs,
            ],
        ),
    }
}

/// The word `w`.
fn word(w: &str) -> (r: Expression)
    ensures
        shape(r) == Sexp::Word(w@),
{
    Expression::Word(chars_of(w))
}

/// `(a b)`.
fn list2(a: Expression, b: Expression) -> (r: Expression)
    ensures
        shape(r) == Sexp::List(seq![shape(a), shape(b)]),
{
    let ghost (sa, sb) = (shape(a), shape(b));
    let v = vec![a, b];
    proof {
        lemma_shapes(v@);
        assert(shapes(v@) =~= seq![sa, sb]);
    }
    Expression::Apply(v)
}

/// `(a b c)`.
fn list3(a: Expression, b: Expression, c: Expression) -> (r: Expression)
    ensures
        shape(r) == Sexp::List(seq![shape(a), shape(b), shape(c)]),
{
    let ghost (sa, sb, sc) = (shape(a), shape(b), shape(c));
    let v = vec![a, b, c];
    proof {
        lemma_shapes(v@);
        assert(shapes(v@) =~= seq![sa, sb, sc]);
    }
    Expression::Apply(v)
}

/// `(a b c d)`.
fn list4(a: Expression, b: Expression, c: Expression, d: Expression) -> (r: Expression)
    ensures
        shape(r) == Sexp::List(seq![shape(a), shape(b), shape(c), shape(d)]),
{
    let ghost (sa, sb, sc, sd) = (shape(a), shape(b), shape(c), shape(d));
    let v = vec![a, b, c, d];
    proof {
        lemma_shapes(v@);
        assert(shapes(v@) =~= seq![sa, sb, sc, sd]);
    }
    Expression::Apply(v)
}

/// `(let name value)`.
fn let_form(name: &Vec<char>, value: Expression) -> (r: Expression)
    ensures
        shape(r) == let_sexp(name@, shape(value)),
{
    list3(word("let"), Expression::Word(copy_text(name)), value)
}

/// The name `base` followed by the loop's suffix.
fn fuse_tmp_name(base: &str, suffix: &Vec<char>) -> (r: Vec<char>)
    ensures
        r@ == tmp_name(base@, suffix@),
{
    let mut name = chars_of(base);
    push_text(&mut name, suffix);
    name
}

/// `(if (> size len) 0 (if (= size 0) len (+ (- len size) 1)))`.
fn build_window_end_expr(len: &Vec<char>, size: &Vec<char>) -> (r: Expression)
    ensures
        shape(r) == window_end(Sexp::Word(len@), Sexp::Word(size@)),
{
    let w = |t: &Vec<char>| -> (e: Expression)
        ensures
            shape(e) == Sexp::Word(t@),
        { Expression::Word(copy_text(t)) };
    let too_long = list3(word(">"), w(size), w(len));
    let empty = list3(word("="), w(size), Expression::Int(0));
    let count = list3(word("+"), list3(word("-"), w(len), w(size)), Expression::Int(1));
    let inner = list4(word("if"), empty, w(len), count);
    list4(word("if"), too_long, Expression::Int(0), inner)
}

/// The element `access` reads at the counter `i`.
pub fn index_value(access: &IndexAccess, i: &Expression) -> (r: Expression)
    ensures
        shape(r) == indexed_value(*access, shape(*i)),
{
    let w = |t: &Vec<char>| -> (e: Expression)
        ensures
            shape(e) == Sexp::Word(t@),
        { Expression::Word(copy_text(t)) };
    match access {
        IndexAccess::Element(xs) => list3(word("get"), w(xs), copy_expr(i)),
        IndexAccess::Pair(l, r) => list3(
            word("tuple"),
            list3(word("get"), w(l), copy_expr(i)),
            list3(word("get"), w(r), copy_expr(i)),
        ),
        IndexAccess::Offset(from) => list3(word("+"), w(from), copy_expr(i)),
        IndexAccess::DecimalOffset(from) => list2(word("Int->Dec"), list3(word("+"), w(from), copy_expr(i))),
        IndexAccess::SliceElement(xs, from) => list3(
            word("get"),
            w(xs),
            list3(word("+"), w(from), copy_expr(i)),
        ),
        IndexAccess::Window(xs, size) => list4(
            word("slice"),
            copy_expr(i),
            list3(word("+"), copy_expr(i), w(size)),
            w(xs),
        ),
    }
}

/// The setup bindings, the counter's start and end, and the element access
/// of a fused loop over `source`; `suffix` marks the loop's temporary names.
pub fn loop_source_bindings(source: FuseSource, suffix: &Vec<char>) -> (r: Option<
    (Vec<Expression>, Expression, Expression, IndexAccess),
>)
    ensures
        r is Some,
        r matches Some((setup, start, end, access)) ==> {
            &&& shapes(setup@) == loop_setup(source, suffix@)
            &&& shape(start) == Sexp::Int(0)
            &&& shape(end) == loop_end(source, suffix@)
            &&& forall|i: Sexp| #[trigger] indexed_value(access, i) == loop_value(source, suffix@, i)
        },
{
    let ghost src = source;
    let w = |t: &Vec<char>| -> (e: Expression)
        ensures
            shape(e) == Sexp::Word(t@),
        { Expression::Word(copy_text(t)) };
    let (setup, end, access) = match source {
        FuseSource::Vector(xs_expr) => {
            let xs = fuse_tmp_name("__fuse_xs", suffix);
            let end = list2(word("length"), w(&xs));
            let setup = vec![let_form(&xs, xs_expr)];
            (setup, end, IndexAccess::Element(xs))
        },
        FuseSource::Zip { left, right } => {
            let l = fuse_tmp_name("__fuse_left", suffix);
            let r = fuse_tmp_name("__fuse_right", suffix);
            let len = fuse_tmp_name("__fuse_zip_len", suffix);
            let setup = vec![
                let_form(&l, left),
                let_form(&r, right),
                let_form(&len, list2(word("length"), w(&l))),
            ];
            (setup, w(&len), IndexAccess::Pair(l, r))
        },
        FuseSource::RangeInt { start, end } => {
            let from = fuse_tmp_name("__fuse_from", suffix);
            let to = fuse_tmp_name("__fuse_to", suffix);
            let count = list3(word("+"), list3(word("-"), w(&to), w(&from)), Expression::Int(1));
            let setup = vec![let_form(&from, start), let_form(&to, end)];
            (setup, count, IndexAccess::Offset(from))
        },
        FuseSource::RangeFloat { start, end } => {
            let from = fuse_tmp_name("__fuse_from", suffix);
            let to = fuse_tmp_name("__fuse_to", suffix);
            let count = list3(word("+"), list3(word("-"), w(&to), w(&from)), Expression::Int(1));
            let setup = vec![let_form(&from, start), let_form(&to, end)];
            (setup, count, IndexAccess::DecimalOffset(from))
        },
        FuseSource::Slice { xs, start, end } => {
            let v = fuse_tmp_name("__fuse_xs", suffix);
            let from = fuse_tmp_name("__fuse_from", suffix);
            let to = fuse_tmp_name("__fuse_to", suffix);
            let width = list3(word("-"), w(&to), w(&from));
            let setup = vec![let_form(&v, xs), let_form(&from, start), let_form(&to, end)];
            (setup, width, IndexAccess::SliceElement(v, from))
        },
        FuseSource::Window { xs, size } => {
            let v = fuse_tmp_name("__fuse_xs", suffix);
            let sz = fuse_tmp_name("__fuse_window_size", suffix);
            let len = fuse_tmp_name("__fuse_window_len", suffix);
            let last = fuse_tmp_name("__fuse_window_end", suffix);
            let setup = vec![
                let_form(&v, xs),
                let_form(&sz, size),
                let_form(&len, list2(word("length"), w(&v))),
                let_form(&last, build_window_end_expr(&len, &sz)),
            ];
            (setup, w(&last), IndexAccess::Window(v, sz))
        },
    };
    proof {
        lemma_shapes(setup@);
        assert(shapes(setup@) =~= loop_setup(src, suffix@));
    }
    Some((setup, Expression::Int(0), end, access))
}

/// The binding of a short-circuiting loop's counter cell, `(let i (vector 0))`.
pub open spec fn counter_cell(s: Seq<char>) -> Sexp {
    let_sexp(tmp_name("__fuse_i"@, s), call1("vector"@, Sexp::Int(0)))
}

/// The bindings a short-circuiting fused loop over `source` starts with: those
/// of a plain fused loop (for a vector its length is bound too, and for a
/// slice the end comes after the counter) and the counter cell.
pub open spec fn short_circuit_setup(source: FuseSource, s: Seq<char>) -> Seq<Sexp> {
    match source {
        FuseSource::Vector(xs) => seq![
            let_sexp(tmp_name("__fuse_xs"@, s), shape(xs)),
            let_sexp(tmp_name("__fuse_len"@, s), call1("length"@, Sexp::Word(tmp_name("__fuse_xs"@, s)))),
            counter_cell(s),
        ],
        FuseSource::Slice { xs, start, end } => seq![
            let_sexp(tmp_name("__fuse_xs"@, s), shape(xs)),
            let_sexp(tmp_name("__fuse_from"@, s), shape(start)),
            counter_cell(s),
            let_sexp(tmp_name("__fuse_to"@, s), shape(end)),
        ],
        _ => loop_setup(source, s).push(counter_cell(s)),
    }
}

/// The condition a short-circuiting fused loop runs while: the counter in
/// its cell is below the loop's end (for a vector, its bound length).
pub open spec fn short_circuit_condition(source: FuseSource, s: Seq<char>) -> Sexp {
    let end = match source {
        FuseSource::Vector(_) => Sexp::Word(tmp_name("__fuse_len"@, s)),
        _ => loop_end(source, s),
    };
    call2("<"@, call2("get"@, Sexp::Word(tmp_name("__fuse_i"@, s)), Sexp::Int(0)), end)
}

/// `(let name (vector 0))`.
fn counter_cell_form(name: &Vec<char>) -> (r: Expression)
    ensures
        shape(r) == let_sexp(name@, call1("vector"@, Sexp::Int(0))),
{
    let_form(name, list2(word("vector"), Expression::Int(0)))
}

/// The setup bindings, the name of the counter cell, the loop condition and
/// the element access of a short-circuiting fused loop over `source`;
/// `suffix` marks the loop's temporary names.
pub fn short_circuit_source_bindings(source: FuseSource, suffix: &Vec<char>) -> (r: Option<
    (Vec<Expression>, Vec<char>, Expression, IndexAccess),
>)
    ensures
        r is Some,
        r matches Some((setup, counter, condition, access)) ==> {
            &&& shapes(setup@) == short_circuit_setup(source, suffix@)
            &&& counter@ == tmp_name("__fuse_i"@, suffix@)
            &&& shape(condition) == short_circuit_condition(source, suffix@)
            &&& forall|i: Sexp| #[trigger] indexed_value(access, i) == loop_value(source, suffix@, i)
        },
{
    let ghost src = source;
    let w = |t: &Vec<char>| -> (e: Expression)
        ensures
            shape(e) == Sexp::Word(t@),
        { Expression::Word(copy_text(t)) };
    let counter = fuse_tmp_name("__fuse_i", suffix);
    let in_range = |end: Expression| -> (e: Expression)
        ensures
            shape(e) == call2("<"@, call2("get"@, Sexp::Word(tmp_name("__fuse_i"@, suffix@)), Sexp::Int(0)), shape(end)),
        { list3(word("<"), list3(word("get"), w(&counter), Expression::Int(0)), end) };
    match source {
        FuseSource::Vector(xs_expr) => {
            let xs = fuse_tmp_name("__fuse_xs", suffix);
            let len = fuse_tmp_name("__fuse_len", suffix);
            let setup = vec![
                let_form(&xs, xs_expr),
                let_form(&len, list2(word("length"), w(&xs))),
                counter_cell_form(&counter),
            ];
            let condition = in_range(w(&len));
            proof {
                lemma_shapes(setup@);
                assert(shapes(setup@) =~= short_circuit_setup(src, suffix@));
            }
            Some((setup, counter, condition, IndexAccess::Element(xs)))
        },
        FuseSource::Slice { xs, start, end } => {
            let v = fuse_tmp_name("__fuse_xs", suffix);
            let from = fuse_tmp_name("__fuse_from", suffix);
            let to = fuse_tmp_name("__fuse_to", suffix);
            let condition = in_range(list3(word("-"), w(&to), w(&from)));
            let setup = vec![
                let_form(&v, xs),
                let_form(&from, start),
                counter_cell_form(&counter),
                let_form(&to, end),
            ];
            proof {
                lemma_shapes(setup@);
                assert(shapes(setup@) =~= short_circuit_setup(src, suffix@));
            }
            Some((setup, counter, condition, IndexAccess::SliceElement(v, from)))
        },
        other => {
            let (mut setup, _start, end, access) = match loop_source_bindings(other, suffix) {
                Some(parts) => parts,
                None => {
                    return None;
                },
            };
            let ghost before = setup@;
            setup.push(counter_cell_form(&counter));
            proof {
                lemma_shapes(before);
                lemma_shapes(setup@);
                assert(shapes(setup@) =~= shapes(before).push(counter_cell(suffix@)));
            }
            let condition = in_range(end);
            Some((setup, counter, condition, access))
        },
    }
}

} // verus!
