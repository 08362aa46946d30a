//! Rewriting surface syntax into core forms, and the entry points that read
//! whole programs.
use vstd::prelude::*;
use crate::text::{
    chars_of, copy_text, int_to_text, push_str, push_text, text_eq, text_is, text_of,
    text_to_string, digits_text, digit_char,
};
use crate::expr::{
    Expression, Sexp, copy_expr, head_is, is_word, word_of, shape, shapes, lemma_shapes,
    lemma_shapes_concat, lemma_shapes_push,
};
use crate::reader::{parse_text, preprocess, preprocessed, read_program};
use crate::macros::{flatten_top_level_dos, prepare_program_with_macros, flat_dos, macro_free, prepared};

verus! {

fn usize_text(n: usize) -> (r: Vec<char>)
    ensures
        r@ == digits_text(n as nat),
{
    if (n as u64) <= 9223372036854775807u64 {
        int_to_text(n as i64)
    } else {
        let mut d = int_to_text((n / 10) as i64);
        let last = int_to_text((n % 10) as i64);
        push_text(&mut d, &last);
        proof {
            assert(digits_text((n % 10) as nat) == seq![digit_char((n % 10) as nat)]);
        }
        d
    }
}

/// The id after `id`; the last id is reused.
pub open spec fn next_id(id: usize) -> usize {
    if id < usize::MAX {
        (id + 1) as usize
    } else {
        id
    }
}

/// The fresh binding name `_{prefix}_{arg_index}_{id}`.
pub open spec fn temp_name(prefix: Seq<char>, arg_index: usize, id: usize) -> Seq<char> {
    seq!['_'] + prefix + seq!['_'] + digits_text(arg_index as nat) + seq!['_'] + digits_text(
        id as nat,
    )
}

/// A fresh binding name `_{prefix}_{arg_index}_{id}`, taking the next id.
fn next_destructure_temp(prefix: &Vec<char>, arg_index: usize, binding_counter: &mut usize) -> (r:
    Vec<char>)
    ensures
        r@ == temp_name(prefix@, arg_index, *old(binding_counter)),
        *final(binding_counter) == next_id(*old(binding_counter)),
{
    let id = *binding_counter;
    *binding_counter = if id < usize::MAX {
        id + 1
    } else {
        id
    };
    let mut out: Vec<char> = Vec::new();
    out.push('_');
    push_text(&mut out, prefix);
    out.push('_');
    let a = usize_text(arg_index);
    push_text(&mut out, &a);
    out.push('_');
    let b = usize_text(id);
    push_text(&mut out, &b);
    assert(out@ =~= temp_name(prefix@, arg_index, id));
    out
}

/// `(head a)`.
pub open spec fn call1(head: Seq<char>, a: Sexp) -> Sexp {
    Sexp::List(seq![Sexp::Word(head), a])
}

/// `(head a b)`.
pub open spec fn call2(head: Seq<char>, a: Sexp, b: Sexp) -> Sexp {
    Sexp::List(seq![Sexp::Word(head), a, b])
}

/// `(let name value)`.
pub open spec fn let_shape(name: Seq<char>, value: Sexp) -> Sexp {
    call2("let"@, Sexp::Word(name), value)
}

proof fn lemma_shapes_of1(a: Expression)
    ensures
        shapes(seq![a]) == seq![shape(a)],
{
    lemma_shapes(seq![a]);
    assert(shapes(seq![a]) =~= seq![shape(a)]);
}

proof fn lemma_shapes_of2(a: Expression, b: Expression)
    ensures
        shapes(seq![a, b]) == seq![shape(a), shape(b)],
{
    lemma_shapes(seq![a, b]);
    assert(shapes(seq![a, b]) =~= seq![shape(a), shape(b)]);
}

proof fn lemma_shapes_of3(a: Expression, b: Expression, c: Expression)
    ensures
        shapes(seq![a, b, c]) == seq![shape(a), shape(b), shape(c)],
{
    lemma_shapes(seq![a, b, c]);
    assert(shapes(seq![a, b, c]) =~= seq![shape(a), shape(b), shape(c)]);
}

proof fn lemma_shapes_of4(a: Expression, b: Expression, c: Expression, d: Expression)
    ensures
        shapes(seq![a, b, c, d]) == seq![shape(a), shape(b), shape(c), shape(d)],
{
    lemma_shapes(seq![a, b, c, d]);
    assert(shapes(seq![a, b, c, d]) =~= seq![shape(a), shape(b), shape(c), shape(d)]);
}

fn apply2(head: &str, a: Expression) -> (r: Expression)
    ensures
        shape(r) == call1(head@, shape(a)),
{
    let w = word_of(head);
    proof {
        lemma_shapes_of2(w, a);
    }
    Expression::Apply(vec![w, a])
}

fn apply3(head: &str, a: Expression, b: Expression) -> (r: Expression)
    ensures
        shape(r) == call2(head@, shape(a), shape(b)),
{
    let w = word_of(head);
    proof {
        lemma_shapes_of3(w, a, b);
    }
    Expression::Apply(vec![w, a, b])
}

fn let_binding(name: &Vec<char>, value: Expression) -> (r: Expression)
    ensures
        shape(r) == let_shape(name@, shape(value)),
{
    apply3("let", Expression::Word(copy_text(name)), value)
}

fn append_all(out: &mut Vec<Expression>, more: Vec<Expression>)
    ensures
        final(out)@ == old(out)@ + more@,
{
    let mut more = more;
    out.append(&mut more);
}

/// The bindings a destructuring pattern `p` makes of the value `v`, the
/// expression naming the whole value, and the next id; `None` for a
/// malformed pattern.  Names are made with ids from `c` on, numbered by
/// `arg`.  A word binds the value (`_` binds nothing); `(vector ...)`
/// binds its elements by position; `(tuple a b)` binds `a` to the `fst`
/// and `b` to the `snd` of the value, and an application whose first
/// argument is a tuple pattern or which has two arguments reads nested
/// pairs.
pub open spec fn destructure(p: Sexp, v: Sexp, arg: usize, c: usize) -> Option<(Seq<Sexp>, Sexp, usize)>
    decreases p, 2int, 0int,
{
    match p {
        Sexp::Word(name) => if name == "_"@ {
            Some((Seq::empty(), v, c))
        } else {
            Some((seq![let_shape(name, v)], Sexp::Word(name), c))
        },
        Sexp::List(ts) => if ts.len() == 0 {
            None
        } else {
            proof {
                assert(decreases_to!(p => ts));
            }
            match ts[0] {
                Sexp::Word(kw) => {
                    let n = ts.len() - 1;
                    if kw == "vector"@ {
                        let t = temp_name("temp_vec"@, arg, c);
                        match destructure_vector(p, t, arg, next_id(c)) {
                            Some((bs, c2)) => Some((seq![let_shape(t, v)] + bs, Sexp::Word(t), c2)),
                            None => None,
                        }
                    } else if kw == "tuple"@ {
                        if n != 2 {
                            None
                        } else {
                            let t = temp_name("temp_tuple"@, arg, c);
                            match destructure(ts[1], call1("fst"@, Sexp::Word(t)), arg, next_id(c)) {
                                None => None,
                                Some((b1, x1, c2)) => match destructure(
                                    ts[2],
                                    call1("snd"@, Sexp::Word(t)),
                                    arg,
                                    c2,
                                ) {
                                    None => None,
                                    Some((b2, x2, c3)) => Some(
                                        (seq![let_shape(t, v)] + b1 + b2, Sexp::Word(t), c3),
                                    ),
                                },
                            }
                        }
                    } else if n >= 1 {
                        match ts[1] {
                            Sexp::List(inner) => if inner.len() > 0 && inner[0] == Sexp::Word(
                                "tuple"@,
                            ) {
                                let t = temp_name("temp_tuple"@, arg, c);
                                let it = temp_name("temp_tuple"@, arg, next_id(c));
                                let base = seq![
                                    let_shape(t, v),
                                    let_shape(it, call1("snd"@, Sexp::Word(t))),
                                ];
                                if inner.len() >= 3 {
                                    proof {
                                        assert(decreases_to!(ts[1] => inner));
                                    }
                                    match destructure(
                                        inner[1],
                                        call1("fst"@, Sexp::Word(it)),
                                        arg,
                                        next_id(next_id(c)),
                                    ) {
                                        None => None,
                                        Some((b1, x1, c2)) => match destructure(
                                            inner[2],
                                            call1("snd"@, Sexp::Word(it)),
                                            arg,
                                            c2,
                                        ) {
                                            None => None,
                                            Some((b2, x2, c3)) => Some(
                                                (base + b1 + b2, Sexp::Word(t), c3),
                                            ),
                                        },
                                    }
                                } else {
                                    Some((base, Sexp::Word(t), next_id(next_id(c))))
                                }
                            } else {
                                Some((Seq::empty(), v, c))
                            },
                            _ => if n == 2 {
                                let t = temp_name("temp_tuple"@, arg, c);
                                let rest = call1("snd"@, Sexp::Word(t));
                                match destructure(ts[1], call1("fst"@, rest), arg, next_id(c)) {
                                    None => None,
                                    Some((b1, x1, c2)) => match destructure(
                                        ts[2],
                                        call1("snd"@, rest),
                                        arg,
                                        c2,
                                    ) {
                                        None => None,
                                        Some((b2, x2, c3)) => Some(
                                            (seq![let_shape(t, v)] + b1 + b2, Sexp::Word(t), c3),
                                        ),
                                    },
                                }
                            } else {
                                Some((Seq::empty(), v, c))
                            },
                        }
                    } else {
                        Some((Seq::empty(), v, c))
                    }
                },
                _ => Some((Seq::empty(), v, c)),
            }
        },
        _ => Some((Seq::empty(), v, c)),
    }
}

/// The position of the first `.` in `vs` at or after `k`, or its length.
pub open spec fn vector_dot(vs: Seq<Sexp>, k: int) -> int
    decreases vs.len() - k,
{
    if k < 0 || k >= vs.len() {
        vs.len() as int
    } else if vs[k] == Sexp::Word("."@) {
        k
    } else {
        vector_dot(vs, k + 1)
    }
}

/// The bindings of a `(vector ...)` pattern `p` over the vector named
/// `var`, and the next id; `None` for a malformed pattern.  An element
/// `x` at position `i` binds `(get var i)`; `. rest` at the end binds the
/// tail `(cdr var i)`.  A pattern that is not a vector pattern binds
/// nothing.
pub open spec fn destructure_vector(p: Sexp, var: Seq<char>, arg: usize, c: usize) -> Option<
    (Seq<Sexp>, usize),
>
    decreases p, 1int, 0int,
{
    match p {
        Sexp::List(vs) => if !(vs.len() > 0 && vs[0] == Sexp::Word("vector"@)) {
            Some((Seq::empty(), c))
        } else {
            let dot = vector_dot(vs, 1);
            if dot < vs.len() {
                if vs.len() - dot != 2 {
                    None
                } else {
                    match vs[dot + 1] {
                        Sexp::Word(name) => if name == "."@ {
                            None
                        } else {
                            vector_elements(p, vs, 1, dot, var, arg, c, Seq::empty(), Some(name))
                        },
                        _ => None,
                    }
                }
            } else {
                vector_elements(p, vs, 1, vs.len() as int, var, arg, c, Seq::empty(), None)
            }
        },
        _ => Some((Seq::empty(), c)),
    }
}

/// The element bindings of `vs[k..end]` after `acc`, then the rest
/// binding.
pub open spec fn vector_elements(
    p: Sexp,
    vs: Seq<Sexp>,
    k: int,
    end: int,
    var: Seq<char>,
    arg: usize,
    c: usize,
    acc: Seq<Sexp>,
    rest: Option<Seq<char>>,
) -> Option<(Seq<Sexp>, usize)>
    decreases p, 0int, end - k,
{
    if k >= end || k < 1 || p != Sexp::List(vs) || end > vs.len() {
        match rest {
            Some(name) => Some(
                (
                    acc.push(
                        let_shape(
                            name,
                            call2("cdr"@, Sexp::Word(var), Sexp::Int(((k - 1) as i32) as int)),
                        ),
                    ),
                    c,
                ),
            ),
            None => Some((acc, c)),
        }
    } else {
        let access = call2("get"@, Sexp::Word(var), Sexp::Int(((k - 1) as i32) as int));
        proof {
            assert(p->List_0 == vs);
            assert(decreases_to!(p => p->List_0));
        }
        match vs[k] {
            Sexp::Word(name) => if name == "_"@ {
                vector_elements(p, vs, k + 1, end, var, arg, c, acc, rest)
            } else {
                match destructure(vs[k], access, arg, c) {
                    Some((bs, x, c2)) => vector_elements(p, vs, k + 1, end, var, arg, c2, acc + bs, rest),
                    None => None,
                }
            },
            Sexp::List(_) => match destructure(vs[k], access, arg, c) {
                Some((bs, x, c2)) => vector_elements(p, vs, k + 1, end, var, arg, c2, acc + bs, rest),
                None => None,
            },
            _ => None,
        }
    }
}

/// Expands a destructuring pattern bound to `value_expr` into `let`
/// bindings; also returns the expression naming the whole value.
fn destructure_pattern(
    pattern: &Expression,
    value_expr: Expression,
    arg_index: usize,
    binding_counter: &mut usize,
) -> (r: Result<(Vec<Expression>, Expression), Vec<char>>)
    ensures
        r is Ok <==> destructure(shape(*pattern), shape(value_expr), arg_index, *old(binding_counter))
            is Some,
        r matches Ok((bs, v)) ==> destructure(
            shape(*pattern),
            shape(value_expr),
            arg_index,
            *old(binding_counter),
        ) == Some((shapes(bs@), shape(v), *final(binding_counter))),
    decreases *pattern, 1nat,
{
    let ghost c0 = *binding_counter;
    let ghost vv = shape(value_expr);
    proof {
        assert(shapes(Seq::<Expression>::empty()) =~= Seq::<Sexp>::empty());
    }
    match pattern {
        Expression::Word(name) => {
            if text_is(name, "_") {
                Ok((Vec::new(), value_expr))
            } else {
                let b = let_binding(name, value_expr);
                let ghost gb = b;
                proof {
                    lemma_shapes_of1(b);
                }
                let one = vec![b];
                assert(one@ =~= seq![gb]);
                Ok((one, Expression::Word(copy_text(name))))
            }
        },
        Expression::Apply(tuple_exprs) => {
            proof {
                lemma_shapes(tuple_exprs@);
            }
            let ghost ts = shapes(tuple_exprs@);
            if tuple_exprs.len() == 0 {
                return Err(chars_of("Empty pattern not allowed"));
            }
            let kw = match &tuple_exprs[0] {
                Expression::Word(w) => w,
                _ => {
                    return Ok((Vec::new(), value_expr));
                },
            };
            assert(ts[0] == Sexp::Word(kw@));
            let elements_len = tuple_exprs.len() - 1;
            if text_is(kw, "vector") {
                let temp_var = next_destructure_temp(
                    &chars_of("temp_vec"),
                    arg_index,
                    binding_counter,
                );
                let mut bindings: Vec<Expression> = Vec::new();
                let tb = let_binding(&temp_var, value_expr);
                proof {
                    lemma_shapes_push(bindings@, tb);
                }
                bindings.push(tb);
                let ghost head = bindings@;
                let vector_bindings = destructure_vector_pattern(
                    pattern,
                    &temp_var,
                    arg_index,
                    binding_counter,
                )?;
                let ghost vb = vector_bindings@;
                append_all(&mut bindings, vector_bindings);
                proof {
                    lemma_shapes_concat(head, vb);
                    assert(shapes(head) =~= seq![let_shape(temp_var@, vv)]);
                }
                Ok((bindings, Expression::Word(temp_var)))
            } else if text_is(kw, "tuple") {
                if elements_len != 2 {
                    let mut msg = chars_of("Tuple pattern must have exactly 2 elements, got ");
                    let n = usize_text(elements_len);
                    push_text(&mut msg, &n);
                    return Err(msg);
                }
                let mut bindings: Vec<Expression> = Vec::new();
                let temp_var = next_destructure_temp(
                    &chars_of("temp_tuple"),
                    arg_index,
                    binding_counter,
                );
                let tb = let_binding(&temp_var, value_expr);
                proof {
                    lemma_shapes_push(bindings@, tb);
                }
                bindings.push(tb);
                let ghost head = bindings@;
                assert(shapes(head) =~= seq![let_shape(temp_var@, vv)]);
                assert(decreases_to!(*pattern => tuple_exprs@[1]));
                let (fst_bindings, _fst) = destructure_pattern(
                    &tuple_exprs[1],
                    apply2("fst", Expression::Word(copy_text(&temp_var))),
                    arg_index,
                    binding_counter,
                )?;
                let ghost b1 = fst_bindings@;
                append_all(&mut bindings, fst_bindings);
                let ghost mid = bindings@;
                assert(decreases_to!(*pattern => tuple_exprs@[2]));
                let (snd_bindings, _snd) = destructure_pattern(
                    &tuple_exprs[2],
                    apply2("snd", Expression::Word(copy_text(&temp_var))),
                    arg_index,
                    binding_counter,
                )?;
                let ghost b2 = snd_bindings@;
                append_all(&mut bindings, snd_bindings);
                proof {
                    lemma_shapes_concat(head, b1);
                    lemma_shapes_concat(mid, b2);
                }
                Ok((bindings, Expression::Word(temp_var)))
            } else if elements_len >= 1 {
                match &tuple_exprs[1] {
                    Expression::Apply(inner_exprs) => {
                        proof {
                            lemma_shapes(inner_exprs@);
                            if inner_exprs@.len() > 0 {
                                lemma_head_word(inner_exprs@, "tuple"@);
                            }
                        }
                        if inner_exprs.len() > 0 && is_word(&inner_exprs[0], "tuple") {
                            let mut bindings: Vec<Expression> = Vec::new();
                            let temp_var = next_destructure_temp(
                                &chars_of("temp_tuple"),
                                arg_index,
                                binding_counter,
                            );
                            let tb = let_binding(&temp_var, value_expr);
                            proof {
                                lemma_shapes_push(bindings@, tb);
                            }
                            bindings.push(tb);
                            let inner_tuple_var = next_destructure_temp(
                                &chars_of("temp_tuple"),
                                arg_index,
                                binding_counter,
                            );
                            let ib = let_binding(
                                &inner_tuple_var,
                                apply2("snd", Expression::Word(copy_text(&temp_var))),
                            );
                            proof {
                                lemma_shapes_push(bindings@, ib);
                            }
                            bindings.push(ib);
                            let ghost head = bindings@;
                            assert(shapes(head) =~= seq![
                                let_shape(temp_var@, vv),
                                let_shape(inner_tuple_var@, call1("snd"@, Sexp::Word(temp_var@))),
                            ]);
                            if inner_exprs.len() >= 3 {
                                assert(decreases_to!(*pattern => tuple_exprs@[1]));
                                assert(decreases_to!(tuple_exprs@[1] => inner_exprs@[1]));
                                let (fst_bindings, _a) = destructure_pattern(
                                    &inner_exprs[1],
                                    apply2("fst", Expression::Word(copy_text(&inner_tuple_var))),
                                    arg_index,
                                    binding_counter,
                                )?;
                                let ghost b1 = fst_bindings@;
                                append_all(&mut bindings, fst_bindings);
                                let ghost mid = bindings@;
                                assert(decreases_to!(tuple_exprs@[1] => inner_exprs@[2]));
                                let (snd_bindings, _b) = destructure_pattern(
                                    &inner_exprs[2],
                                    apply2("snd", Expression::Word(copy_text(&inner_tuple_var))),
                                    arg_index,
                                    binding_counter,
                                )?;
                                let ghost b2 = snd_bindings@;
                                append_all(&mut bindings, snd_bindings);
                                proof {
                                    lemma_shapes_concat(head, b1);
                                    lemma_shapes_concat(mid, b2);
                                }
                            }
                            Ok((bindings, Expression::Word(temp_var)))
                        } else {
                            Ok((Vec::new(), value_expr))
                        }
                    },
                    _ => {
                        if elements_len == 2 {
                            let mut bindings: Vec<Expression> = Vec::new();
                            let temp_var = next_destructure_temp(
                                &chars_of("temp_tuple"),
                                arg_index,
                                binding_counter,
                            );
                            let tb = let_binding(&temp_var, value_expr);
                            proof {
                                lemma_shapes_push(bindings@, tb);
                            }
                            bindings.push(tb);
                            let ghost head = bindings@;
                            assert(shapes(head) =~= seq![let_shape(temp_var@, vv)]);
                            assert(decreases_to!(*pattern => tuple_exprs@[1]));
                            let (fst_bindings, _a) = destructure_pattern(
                                &tuple_exprs[1],
                                apply2(
                                    "fst",
                                    apply2("snd", Expression::Word(copy_text(&temp_var))),
                                ),
                                arg_index,
                                binding_counter,
                            )?;
                            let ghost b1 = fst_bindings@;
                            append_all(&mut bindings, fst_bindings);
                            let ghost mid = bindings@;
                            assert(decreases_to!(*pattern => tuple_exprs@[2]));
                            let (snd_bindings, _b) = destructure_pattern(
                                &tuple_exprs[2],
                                apply2(
                                    "snd",
                                    apply2("snd", Expression::Word(copy_text(&temp_var))),
                                ),
                                arg_index,
                                binding_counter,
                            )?;
                            let ghost b2 = snd_bindings@;
                            append_all(&mut bindings, snd_bindings);
                            proof {
                                lemma_shapes_concat(head, b1);
                                lemma_shapes_concat(mid, b2);
                            }
                            Ok((bindings, Expression::Word(temp_var)))
                        } else {
                            Ok((Vec::new(), value_expr))
                        }
                    },
                }
            } else {
                Ok((Vec::new(), value_expr))
            }
        },
        _ => Ok((Vec::new(), value_expr)),
    }
}

/// Expands a `(vector ...)` pattern over the named vector into bindings of
/// its elements by position, with an optional `. rest` binding of the tail.
fn destructure_vector_pattern(
    pattern: &Expression,
    vector_var: &Vec<char>,
    arg_index: usize,
    binding_counter: &mut usize,
) -> (r: Result<Vec<Expression>, Vec<char>>)
    ensures
        r is Ok <==> destructure_vector(shape(*pattern), vector_var@, arg_index, *old(binding_counter))
            is Some,
        r matches Ok(bs) ==> destructure_vector(
            shape(*pattern),
            vector_var@,
            arg_index,
            *old(binding_counter),
        ) == Some((shapes(bs@), *final(binding_counter))),
    decreases *pattern, 0nat,
{
    proof {
        assert(shapes(Seq::<Expression>::empty()) =~= Seq::<Sexp>::empty());
    }
    match pattern {
        Expression::Apply(vector_exprs) => {
            proof {
                lemma_shapes(vector_exprs@);
                if vector_exprs@.len() > 0 {
                    lemma_head_word(vector_exprs@, "vector"@);
                }
            }
            let ghost vs = shapes(vector_exprs@);
            let ghost p = shape(*pattern);
            if !(vector_exprs.len() > 0 && is_word(&vector_exprs[0], "vector")) {
                return Ok(Vec::new());
            }
            let mut bindings: Vec<Expression> = Vec::new();
            let mut element_index: usize = 0;
            let mut rest_name: Option<Vec<char>> = None;
            let mut end = vector_exprs.len();
            let mut dot: usize = 1;
            let mut at_dot = false;
            if dot < vector_exprs.len() {
                at_dot = is_word(&vector_exprs[dot], ".");
            }
            while dot < vector_exprs.len() && !at_dot
                invariant
                    1 <= dot <= vector_exprs.len(),
                    vs == shapes(vector_exprs@),
                    vs.len() == vector_exprs@.len(),
                    forall|m: int| 0 <= m < vector_exprs@.len() ==> #[trigger] vs[m] == shape(vector_exprs@[m]),
                    vector_dot(vs, 1) == vector_dot(vs, dot as int),
                    at_dot == (dot < vector_exprs@.len() && vs[dot as int] == Sexp::Word("."@)),
                decreases vector_exprs.len() - dot,
            {
                dot += 1;
                at_dot = false;
                if dot < vector_exprs.len() {
                    at_dot = is_word(&vector_exprs[dot], ".");
                }
            }
            assert(vector_dot(vs, 1) == dot);
            let ghost mut rest_spec: Option<Seq<char>> = None;
            if dot < vector_exprs.len() {
                if vector_exprs.len() - dot != 2 {
                    return Err(
                        chars_of(
                            "Vector pattern rest must look like '[... . rest]' with '.' before the final binding",
                        ),
                    );
                }
                match &vector_exprs[dot + 1] {
                    Expression::Word(name) => {
                        if text_is(name, ".") {
                            return Err(chars_of("Vector pattern rest binding cannot be '.'"));
                        }
                        rest_name = Some(copy_text(name));
                        proof {
                            rest_spec = Some(name@);
                        }
                    },
                    _ => {
                        return Err(chars_of("Vector pattern rest binding must be a simple word"));
                    },
                }
                end = dot;
            }
            let mut k: usize = 1;
            let ghost c0 = *binding_counter;
            while k < end
                invariant
                    1 <= k <= end <= vector_exprs.len(),
                    *pattern == Expression::Apply(*vector_exprs),
                    p == shape(*pattern),
                    p == Sexp::List(vs),
                    vs == shapes(vector_exprs@),
                    vs.len() == vector_exprs@.len(),
                    forall|m: int| 0 <= m < vector_exprs@.len() ==> #[trigger] vs[m] == shape(vector_exprs@[m]),
                    element_index == k - 1,
                    rest_name is Some <==> rest_spec is Some,
                    rest_name matches Some(nm) ==> rest_spec == Some(nm@),
                    vector_elements(p, vs, 1, end as int, vector_var@, arg_index, c0, Seq::empty(), rest_spec)
                        == vector_elements(
                        p,
                        vs,
                        k as int,
                        end as int,
                        vector_var@,
                        arg_index,
                        *binding_counter,
                        shapes(bindings@),
                        rest_spec,
                    ),
                decreases end - k,
            {
                let elem = &vector_exprs[k];
                let access = apply3(
                    "get",
                    Expression::Word(copy_text(vector_var)),
                    Expression::Int(element_index as i32),
                );
                let ghost before = bindings@;
                match elem {
                    Expression::Word(name) => {
                        if !text_is(name, "_") {
                            assert(decreases_to!(*pattern => vector_exprs@[k as int]));
                            let (elem_bindings, _e) = destructure_pattern(
                                elem,
                                access,
                                arg_index,
                                binding_counter,
                            )?;
                            let ghost eb = elem_bindings@;
                            append_all(&mut bindings, elem_bindings);
                            proof {
                                lemma_shapes_concat(before, eb);
                            }
                        }
                    },
                    Expression::Apply(_) => {
                        assert(decreases_to!(*pattern => vector_exprs@[k as int]));
                        let (elem_bindings, _e) = destructure_pattern(
                            elem,
                            access,
                            arg_index,
                            binding_counter,
                        )?;
                        let ghost eb = elem_bindings@;
                        append_all(&mut bindings, elem_bindings);
                        proof {
                            lemma_shapes_concat(before, eb);
                        }
                    },
                    _ => {
                        return Err(
                            chars_of(
                                "Vector pattern element must be a word, '_', '.', or nested pattern",
                            ),
                        );
                    },
                }
                element_index = if element_index < usize::MAX {
                    element_index + 1
                } else {
                    element_index
                };
                k += 1;
            }
            if let Some(rest) = rest_name {
                let rb = let_binding(
                    &rest,
                    apply3(
                        "cdr",
                        Expression::Word(copy_text(vector_var)),
                        Expression::Int(element_index as i32),
                    ),
                );
                proof {
                    lemma_shapes_push(bindings@, rb);
                }
                bindings.push(rb);
            }
            Ok(bindings)
        },
        _ => Ok(Vec::new()),
    }
}

/// A destructuring parameter: an application of `vector` or `tuple`.
pub open spec fn is_pattern_param(arg: Sexp) -> bool {
    arg matches Sexp::List(items) && items.len() > 0 && (items[0] == Sexp::Word("vector"@)
        || items[0] == Sexp::Word("tuple"@))
}

/// The name a destructured parameter at `index` gets, around the fresh
/// name `inner`.
pub open spec fn param_name(index: usize, inner: Seq<char>) -> Seq<char> {
    "_args"@ + digits_text(index as nat) + seq!['_'] + inner
}

/// The parameters `xs[j..]` of a lambda (its last item is the body), after
/// `args` and `binds`: each destructuring parameter becomes a fresh name
/// and adds the bindings of its parts.
pub open spec fn lambda_params_from(
    xs: Seq<Sexp>,
    j: int,
    c: usize,
    args: Seq<Sexp>,
    binds: Seq<Sexp>,
) -> Option<(Seq<Sexp>, Seq<Sexp>, usize)>
    decreases xs.len() - j,
{
    if j < 1 || j >= xs.len() - 1 {
        Some((args, binds, c))
    } else {
        let arg = xs[j];
        let index = (j - 1) as usize;
        if is_pattern_param(arg) {
            let name = param_name(index, temp_name("arg"@, index, c));
            if arg->List_0[0] == Sexp::Word("vector"@) {
                match destructure_vector(arg, name, index, next_id(c)) {
                    Some((bs, c2)) => lambda_params_from(
                        xs,
                        j + 1,
                        c2,
                        args.push(Sexp::Word(name)),
                        binds + bs,
                    ),
                    None => None,
                }
            } else {
                match destructure(arg, Sexp::Word(name), index, next_id(c)) {
                    Some((bs, x, c2)) => lambda_params_from(
                        xs,
                        j + 1,
                        c2,
                        args.push(Sexp::Word(name)),
                        binds + bs,
                    ),
                    None => None,
                }
            }
        } else {
            lambda_params_from(xs, j + 1, c, args.push(arg), binds)
        }
    }
}

/// A lambda with its destructuring parameters replaced by names, whose
/// body first makes the bindings of their parts.
pub open spec fn lambda_form(xs: Seq<Sexp>, c: usize) -> Option<(Sexp, usize)> {
    if xs.len() < 2 {
        None
    } else {
        match lambda_params_from(xs, 1, c, Seq::empty(), Seq::empty()) {
            Some((args, binds, c2)) => {
                let body = xs[xs.len() - 1];
                let new_body = if binds.len() > 0 {
                    Sexp::List(seq![Sexp::Word("do"@)] + binds + seq![body])
                } else {
                    body
                };
                Some((Sexp::List(seq![Sexp::Word("lambda"@)] + args + seq![new_body]), c2))
            },
            None => None,
        }
    }
}

fn lambda_destructure_transform(exprs: Vec<Expression>, binding_counter: &mut usize) -> (r: Result<
    Expression,
    Vec<char>,
>)
    requires
        exprs@.len() >= 1,
    ensures
        r is Ok <==> lambda_form(shapes(exprs@), *old(binding_counter)) is Some,
        r matches Ok(e) ==> lambda_form(shapes(exprs@), *old(binding_counter)) == Some(
            (shape(e), *final(binding_counter)),
        ),
{
    proof {
        lemma_shapes(exprs@);
        assert(shapes(Seq::<Expression>::empty()) =~= Seq::<Sexp>::empty());
    }
    let ghost xs = shapes(exprs@);
    let ghost c0 = *binding_counter;
    if exprs.len() < 2 {
        return Err(chars_of("lambda expects at least a body"));
    }
    let mut new_bindings: Vec<Expression> = Vec::new();
    let mut new_args: Vec<Expression> = Vec::new();
    let mut j: usize = 1;
    while j < exprs.len() - 1
        invariant
            1 <= j <= exprs@.len() - 1,
            xs == shapes(exprs@),
            xs.len() == exprs@.len(),
            forall|m: int| 0 <= m < exprs@.len() ==> #[trigger] xs[m] == shape(exprs@[m]),
            lambda_params_from(xs, 1, c0, Seq::empty(), Seq::empty()) == lambda_params_from(
                xs,
                j as int,
                *binding_counter,
                shapes(new_args@),
                shapes(new_bindings@),
            ),
        decreases exprs.len() - j,
    {
        let arg = &exprs[j];
        let index = j - 1;
        let mut handled = false;
        let ghost args0 = new_args@;
        let ghost binds0 = new_bindings@;
        if let Expression::Apply(array_exprs) = arg {
            proof {
                lemma_shapes(array_exprs@);
                if array_exprs@.len() > 0 {
                    lemma_head_word(array_exprs@, "vector"@);
                    lemma_head_word(array_exprs@, "tuple"@);
                }
            }
            if array_exprs.len() > 0 && (is_word(&array_exprs[0], "vector") || is_word(
                &array_exprs[0],
                "tuple",
            )) {
                let inner = next_destructure_temp(&chars_of("arg"), index, binding_counter);
                let mut temp_arg_name = chars_of("_args");
                let n = usize_text(index);
                push_text(&mut temp_arg_name, &n);
                temp_arg_name.push('_');
                push_text(&mut temp_arg_name, &inner);
                assert(temp_arg_name@ =~= param_name(index, inner@));
                if is_word(&array_exprs[0], "vector") {
                    let bindings = destructure_vector_pattern(
                        arg,
                        &temp_arg_name,
                        index,
                        binding_counter,
                    )?;
                    let ghost bs = bindings@;
                    append_all(&mut new_bindings, bindings);
                    proof {
                        lemma_shapes_concat(binds0, bs);
                    }
                } else {
                    let (bindings, _v) = destructure_pattern(
                        arg,
                        Expression::Word(copy_text(&temp_arg_name)),
                        index,
                        binding_counter,
                    )?;
                    let ghost bs = bindings@;
                    append_all(&mut new_bindings, bindings);
                    proof {
                        lemma_shapes_concat(binds0, bs);
                    }
                }
                let w = Expression::Word(temp_arg_name);
                proof {
                    lemma_shapes_push(new_args@, w);
                }
                new_args.push(w);
                handled = true;
            }
        }
        if !handled {
            let c = copy_expr(arg);
            proof {
                lemma_shapes_push(new_args@, c);
            }
            new_args.push(c);
        }
        j += 1;
    }
    let body = copy_expr(&exprs[exprs.len() - 1]);
    let ghost binds = shapes(new_bindings@);
    let ghost args = shapes(new_args@);
    let new_body = if new_bindings.len() > 0 {
        let mut do_exprs: Vec<Expression> = Vec::new();
        let d = word_of("do");
        proof {
            lemma_shapes_push(do_exprs@, d);
        }
        do_exprs.push(d);
        let ghost head = do_exprs@;
        let ghost nb = new_bindings@;
        append_all(&mut do_exprs, new_bindings);
        let ghost mid = do_exprs@;
        let ghost gb = body;
        proof {
            lemma_shapes_concat(head, nb);
            lemma_shapes_push(mid, gb);
        }
        do_exprs.push(body);
        proof {
            assert(shapes(head) =~= seq![Sexp::Word("do"@)]);
            assert(shapes(do_exprs@) =~= seq![Sexp::Word("do"@)] + binds + seq![shape(gb)]);
        }
        Expression::Apply(do_exprs)
    } else {
        body
    };
    let mut lambda_exprs: Vec<Expression> = Vec::new();
    let l = word_of("lambda");
    proof {
        lemma_shapes_push(lambda_exprs@, l);
    }
    lambda_exprs.push(l);
    let ghost head = lambda_exprs@;
    let ghost na = new_args@;
    append_all(&mut lambda_exprs, new_args);
    let ghost mid = lambda_exprs@;
    let ghost gnb = new_body;
    proof {
        lemma_shapes_concat(head, na);
        lemma_shapes_push(mid, gnb);
    }
    lambda_exprs.push(new_body);
    proof {
        assert(shapes(head) =~= seq![Sexp::Word("lambda"@)]);
        assert(shapes(lambda_exprs@) =~= seq![Sexp::Word("lambda"@)] + args + seq![shape(gnb)]);
    }
    Ok(Expression::Apply(lambda_exprs))
}

/// A `(do ...)` body ending in `nil`: a `do` body gets a trailing `nil`,
/// any other body is wrapped as `(do body nil)`.
pub open spec fn with_trailing_nil(body: Sexp) -> Sexp {
    match body {
        Sexp::List(items) => if items.len() > 0 && items[0] == Sexp::Word("do"@) {
            Sexp::List(items.push(Sexp::Word("nil"@)))
        } else {
            Sexp::List(seq![Sexp::Word("do"@), body, Sexp::Word("nil"@)])
        },
        _ => Sexp::List(seq![Sexp::Word("do"@), body, Sexp::Word("nil"@)]),
    }
}

proof fn lemma_head_word(items: Seq<Expression>, lit: Seq<char>)
    requires
        items.len() > 0,
    ensures
        (items[0] is Word && items[0]->Word_0@ == lit) <==> shapes(items)[0] == Sexp::Word(lit),
{
    lemma_shapes(items);
}

fn ensure_do_body_with_trailing_nil(body_expr: Expression) -> (r: Expression)
    ensures
        shape(r) == with_trailing_nil(shape(body_expr)),
{
    let ghost b = shape(body_expr);
    match body_expr {
        Expression::Apply(mut body_items) => {
            proof {
                if body_items@.len() > 0 {
                    lemma_head_word(body_items@, "do"@);
                }
            }
            if body_items.len() > 0 && is_word(&body_items[0], "do") {
                let nil = word_of("nil");
                proof {
                    lemma_shapes_push(body_items@, nil);
                }
                body_items.push(nil);
                Expression::Apply(body_items)
            } else {
                let d = word_of("do");
                let inner = Expression::Apply(body_items);
                let nil = word_of("nil");
                proof {
                    lemma_shapes_of3(d, inner, nil);
                }
                Expression::Apply(vec![d, inner, nil])
            }
        },
        other => {
            let d = word_of("do");
            let nil = word_of("nil");
            proof {
                lemma_shapes_of3(d, other, nil);
            }
            Expression::Apply(vec![d, other, nil])
        },
    }
}

/// The body a `while` runs, from its body argument: a lambda without
/// parameters is called, a name is called; `None` for a lambda with
/// parameters.
pub open spec fn loop_body_from(arg: Sexp) -> Option<Sexp> {
    match arg {
        Sexp::List(items) => if items.len() > 0 && items[0] == Sexp::Word("lambda"@) {
            if items.len() < 2 || items.len() - 2 != 0 {
                None
            } else {
                Some(Sexp::List(seq![arg]))
            }
        } else {
            Some(arg)
        },
        Sexp::Word(name) => Some(Sexp::List(seq![Sexp::Word(name)])),
        _ => Some(arg),
    }
}

fn normalize_loop_while_body_from_arg(body_arg: &Expression) -> (r: Result<Expression, Vec<char>>)
    ensures
        r is Ok <==> loop_body_from(shape(*body_arg)) is Some,
        r matches Ok(e) ==> shape(e) == loop_body_from(shape(*body_arg))->0,
{
    match body_arg {
        Expression::Apply(items) => {
            proof {
                lemma_shapes(items@);
                if items@.len() > 0 {
                    lemma_head_word(items@, "lambda"@);
                }
            }
            if items.len() > 0 && is_word(&items[0], "lambda") {
                if items.len() < 2 {
                    let mut msg = chars_of("loop condition form lambda missing body\n");
                    let rendered = body_arg.lisp_chars();
                    push_text(&mut msg, &rendered);
                    return Err(msg);
                }
                let param_count = items.len() - 2;
                if param_count != 0 {
                    let mut msg = chars_of(
                        "loop condition form expects lambda with 0 parameters, found ",
                    );
                    let n = usize_text(param_count);
                    push_text(&mut msg, &n);
                    msg.push('\n');
                    let rendered = body_arg.lisp_chars();
                    push_text(&mut msg, &rendered);
                    return Err(msg);
                }
                let c = copy_expr(body_arg);
                let ghost gc = c;
                proof {
                    lemma_shapes_of1(c);
                }
                let one = vec![c];
                assert(one@ =~= seq![gc]);
                return Ok(Expression::Apply(one));
            }
            Ok(copy_expr(body_arg))
        },
        Expression::Word(name) => {
            let w = Expression::Word(copy_text(name));
            let ghost gw = w;
            proof {
                lemma_shapes_of1(w);
            }
            let one = vec![w];
            assert(one@ =~= seq![gw]);
            Ok(Expression::Apply(one))
        },
        _ => Ok(copy_expr(body_arg)),
    }
}

/// `(while condition body)` with its body made a call ending in `nil`.
pub open spec fn while_form(xs: Seq<Sexp>) -> Option<Sexp> {
    if xs.len() - 1 != 2 {
        None
    } else {
        match loop_body_from(xs[2]) {
            Some(body) => Some(
                Sexp::List(seq![Sexp::Word("while"@), xs[1], with_trailing_nil(body)]),
            ),
            None => None,
        }
    }
}

fn loop_while_transform(exprs: Vec<Expression>) -> (r: Result<Expression, Vec<char>>)
    requires
        exprs@.len() >= 1,
    ensures
        r is Ok <==> while_form(shapes(exprs@)) is Some,
        r matches Ok(e) ==> shape(e) == while_form(shapes(exprs@))->0,
{
    proof {
        lemma_shapes(exprs@);
    }
    let len = exprs.len() - 1;
    if len != 2 {
        let mut msg = chars_of(
            "while expects exactly 2 arguments: condition and body expression, got ",
        );
        let n = usize_text(len);
        push_text(&mut msg, &n);
        msg.push('\n');
        let mut k: usize = 1;
        while k < exprs.len()
            decreases exprs.len() - k,
        {
            if k > 1 {
                msg.push(' ');
            }
            let rendered = exprs[k].lisp_chars();
            push_text(&mut msg, &rendered);
            k += 1;
        }
        return Err(msg);
    }
    let condition = copy_expr(&exprs[1]);
    let raw_body = normalize_loop_while_body_from_arg(&exprs[2])?;
    let body_with_unit = ensure_do_body_with_trailing_nil(raw_body);
    let w = word_of("while");
    proof {
        lemma_shapes_of3(w, condition, body_with_unit);
    }
    Ok(Expression::Apply(vec![w, condition, body_with_unit]))
}

/// `acc` combined with `xs[k..end]` from the left: each step makes
/// `(op acc x)`.
pub open spec fn fold_upto(xs: Seq<Sexp>, k: int, end: int, acc: Sexp, op: Seq<char>) -> Sexp
    decreases end - k,
{
    if k >= end {
        acc
    } else {
        fold_upto(xs, k + 1, end, call2(op, acc, xs[k]), op)
    }
}

/// `(head a b c ...)` folded into nested binary applications of `op`;
/// `empty` when there are no arguments.
pub open spec fn fold_form(xs: Seq<Sexp>, op: Seq<char>, empty: Sexp) -> Sexp {
    if xs.len() <= 1 {
        empty
    } else {
        fold_upto(xs, 2, xs.len() as int, xs[1], op)
    }
}

fn cdr_transform(exprs: Vec<Expression>) -> (r: Result<Expression, Vec<char>>)
    requires
        exprs@.len() >= 1,
    ensures
        r is Ok <==> exprs@.len() >= 2,
        r matches Ok(e) ==> shape(e) == (if exprs@.len() == 2 {
            call2("cdr"@, shapes(exprs@)[1], Sexp::Int(1))
        } else {
            call2("cdr"@, shapes(exprs@)[1], shapes(exprs@)[2])
        }),
{
    proof {
        lemma_shapes(exprs@);
    }
    let len = exprs.len() - 1;
    if len == 0 {
        return Err(chars_of("cdr requires at least 1 argument"));
    }
    if len == 1 {
        return Ok(apply3("cdr", copy_expr(&exprs[1]), Expression::Int(1)));
    }
    Ok(apply3("cdr", copy_expr(&exprs[1]), copy_expr(&exprs[2])))
}

fn accessor_transform(exprs: Vec<Expression>) -> (r: Result<Expression, Vec<char>>)
    requires
        exprs@.len() >= 1,
    ensures
        r is Ok <==> exprs@.len() >= 2,
        r matches Ok(e) ==> shape(e) == (if exprs@.len() == 2 {
            call2("get"@, shapes(exprs@)[1], Sexp::Int(0))
        } else {
            fold_form(shapes(exprs@), "get"@, Sexp::Int(0))
        }),
{
    proof {
        lemma_shapes(exprs@);
    }
    let ghost xs = shapes(exprs@);
    let len = exprs.len() - 1;
    if len == 0 {
        return Err(chars_of("get requires at least 1 argument"));
    }
    if len == 1 {
        return Ok(apply3("get", copy_expr(&exprs[1]), Expression::Int(0)));
    }
    let mut acc = copy_expr(&exprs[1]);
    let mut k: usize = 2;
    while k < exprs.len()
        invariant
            2 <= k <= exprs@.len(),
            xs == shapes(exprs@),
            xs.len() == exprs@.len(),
            forall|m: int| 0 <= m < exprs@.len() ==> #[trigger] xs[m] == shape(exprs@[m]),
            fold_form(xs, "get"@, Sexp::Int(0)) == fold_upto(xs, k as int, xs.len() as int, shape(acc), "get"@),
        decreases exprs.len() - k,
    {
        acc = apply3("get", acc, copy_expr(&exprs[k]));
        k += 1;
    }
    Ok(acc)
}

/// `(set! xs i ... j v)`: the accesses before the last index nest into
/// `get`s, giving `(set! (get (get xs i) ...) j v)`; `None` with fewer
/// than three arguments.
pub open spec fn set_form(xs: Seq<Sexp>) -> Option<Sexp> {
    if xs.len() == 4 {
        Some(Sexp::List(xs))
    } else if xs.len() - 1 < 3 {
        None
    } else {
        Some(
            Sexp::List(
                seq![
                    Sexp::Word("set!"@),
                    fold_upto(xs, 2, xs.len() - 2, xs[1], "get"@),
                    xs[xs.len() - 2],
                    xs[xs.len() - 1],
                ],
            ),
        )
    }
}

fn setter_transform(exprs: Vec<Expression>) -> (r: Result<Expression, Vec<char>>)
    requires
        exprs@.len() >= 1,
    ensures
        r is Ok <==> set_form(shapes(exprs@)) is Some,
        r matches Ok(e) ==> shape(e) == set_form(shapes(exprs@))->0,
{
    proof {
        lemma_shapes(exprs@);
    }
    let ghost xs = shapes(exprs@);
    if exprs.len() == 4 {
        return Ok(Expression::Apply(exprs));
    }
    let len = exprs.len() - 1;
    if len < 3 {
        return Err(chars_of("set! requires at least 3 arguments"));
    }
    let last = copy_expr(&exprs[exprs.len() - 1]);
    let set_idx = copy_expr(&exprs[exprs.len() - 2]);
    let mut acc = copy_expr(&exprs[1]);
    let mut k: usize = 2;
    while k < exprs.len() - 2
        invariant
            2 <= k <= exprs@.len() - 2,
            xs == shapes(exprs@),
            xs.len() == exprs@.len(),
            forall|m: int| 0 <= m < exprs@.len() ==> #[trigger] xs[m] == shape(exprs@[m]),
            fold_upto(xs, 2, xs.len() - 2, xs[1], "get"@) == fold_upto(
                xs,
                k as int,
                xs.len() - 2,
                shape(acc),
                "get"@,
            ),
        decreases exprs.len() - k,
    {
        acc = apply3("get", acc, copy_expr(&exprs[k]));
        k += 1;
    }
    let w = word_of("set!");
    proof {
        lemma_shapes_of4(w, acc, set_idx, last);
    }
    Ok(Expression::Apply(vec![w, acc, set_idx, last]))
}

fn wrapped_let_transform(exprs: Vec<Expression>, wrapper: &str) -> (r: Result<Expression, Vec<char>>)
    requires
        exprs@.len() >= 1,
    ensures
        r is Ok <==> exprs@.len() >= 3,
        r matches Ok(e) ==> shape(e) == let_shape_of(
            shapes(exprs@)[1],
            call1(wrapper@, shapes(exprs@)[2]),
        ),
{
    proof {
        lemma_shapes(exprs@);
    }
    if exprs.len() < 3 {
        let mut msg = chars_of("");
        push_text(&mut msg, &match &exprs[0] {
            Expression::Word(w) => copy_text(w),
            _ => Vec::new(),
        });
        push_str(&mut msg, " expects a name and a value");
        return Err(msg);
    }
    Ok(apply3("let", copy_expr(&exprs[1]), apply2(wrapper, copy_expr(&exprs[2]))))
}

/// `(let target value)` for any target expression.
pub open spec fn let_shape_of(target: Sexp, value: Sexp) -> Sexp {
    call2("let"@, target, value)
}

/// A value a `boolean` binding accepts: `true`, `false`, or an application
/// of a comparison or logical operator.
pub open spec fn boolean_value(v: Sexp) -> bool {
    match v {
        Sexp::Word(x) => x == "true"@ || x == "false"@,
        Sexp::List(ys) => ys.len() > 0 && match ys[0] {
            Sexp::Word(y) => y == "="@ || y == ">"@ || y == "<"@ || y == "<="@ || y == ">="@ || y
                == "not"@ || y == "or"@ || y == "and"@,
            _ => false,
        },
        _ => false,
    }
}

fn boolean_transform(exprs: Vec<Expression>) -> (r: Result<Expression, Vec<char>>)
    requires
        exprs@.len() >= 1,
    ensures
        r is Ok <==> exprs@.len() >= 3 && boolean_value(shapes(exprs@)[2]),
        r matches Ok(e) ==> shape(e) == let_shape_of(shapes(exprs@)[1], call1("bool"@, shapes(exprs@)[2])),
{
    proof {
        lemma_shapes(exprs@);
    }
    if exprs.len() < 3 {
        return Err(chars_of("boolean expects a name and a value"));
    }
    match &exprs[2] {
        Expression::Word(x) => {
            if !text_is(x, "true") && !text_is(x, "false") {
                let mut msg = chars_of(
                    "Booleans variables only be assigned to true or false but got: ",
                );
                push_text(&mut msg, x);
                return Err(msg);
            }
        },
        Expression::Apply(x) => {
            if x.len() == 0 {
                proof {
                    assert(shapes(x@) =~= Seq::<Sexp>::empty());
                }
                return Err(chars_of("Booleans variables only be assigned to true or false"));
            }
            proof {
                lemma_shapes(x@);
            }
            match &x[0] {
                Expression::Word(y) => {
                    if !text_is(y, "=") && !text_is(y, ">") && !text_is(y, "<") && !text_is(y, "<=")
                        && !text_is(y, ">=") && !text_is(y, "not") && !text_is(y, "or")
                        && !text_is(y, "and") {
                        let mut msg = chars_of(
                            "Booleans variables only be assigned to results of boolean expressions but got: ",
                        );
                        push_text(&mut msg, y);
                        return Err(msg);
                    }
                },
                other => {
                    let mut msg = chars_of(
                        "Booleans variables only be assigned to true or false but got: ",
                    );
                    let rendered = other.lisp_chars();
                    push_text(&mut msg, &rendered);
                    return Err(msg);
                },
            }
        },
        other => {
            let mut msg = chars_of("Booleans variables only be assigned to true or false but got : ");
            let rendered = other.lisp_chars();
            push_text(&mut msg, &rendered);
            return Err(msg);
        },
    }
    Ok(apply3("let", copy_expr(&exprs[1]), apply2("bool", copy_expr(&exprs[2]))))
}

/// Folds the arguments left to right with the binary operator `op`;
/// no arguments give `empty`.
fn fold_binary(exprs: &Vec<Expression>, op: &str, empty: Expression) -> (r: Expression)
    ensures
        shape(r) == fold_form(shapes(exprs@), op@, shape(empty)),
{
    proof {
        lemma_shapes(exprs@);
    }
    let ghost xs = shapes(exprs@);
    if exprs.len() <= 1 {
        return empty;
    }
    let mut acc = copy_expr(&exprs[1]);
    let mut k: usize = 2;
    while k < exprs.len()
        invariant
            2 <= k <= exprs@.len(),
            xs == shapes(exprs@),
            xs.len() == exprs@.len(),
            forall|m: int| 0 <= m < exprs@.len() ==> #[trigger] xs[m] == shape(exprs@[m]),
            fold_form(xs, op@, shape(empty)) == fold_upto(xs, k as int, xs.len() as int, shape(acc), op@),
        decreases exprs.len() - k,
    {
        acc = apply3(op, acc, copy_expr(&exprs[k]));
        k += 1;
    }
    acc
}

/// `(- x)` negates by multiplying with -1; otherwise `-` folds from the
/// left, with 0 for no arguments.
pub open spec fn minus_form(xs: Seq<Sexp>) -> Sexp {
    if xs.len() == 2 {
        call2("*"@, xs[1], Sexp::Int(-1))
    } else {
        fold_form(xs, "-"@, Sexp::Int(0))
    }
}

fn minus_transform(exprs: Vec<Expression>) -> (r: Expression)
    requires
        exprs@.len() >= 1,
    ensures
        shape(r) == minus_form(shapes(exprs@)),
{
    proof {
        lemma_shapes(exprs@);
    }
    if exprs.len() == 2 {
        return apply3("*", copy_expr(&exprs[1]), Expression::Int(-1));
    }
    fold_binary(&exprs, "-", Expression::Int(0))
}

/// `(-. x)` negates by multiplying with -1.0; otherwise `-.` folds from
/// the left, with 0 for no arguments.
pub open spec fn minusf_form(xs: Seq<Sexp>) -> Sexp {
    if xs.len() == 2 {
        call2("*."@, xs[1], Sexp::Dec("-1.0"@))
    } else {
        fold_form(xs, "-."@, Sexp::Int(0))
    }
}

fn minusf_transform(exprs: Vec<Expression>) -> (r: Expression)
    requires
        exprs@.len() >= 1,
    ensures
        shape(r) == minusf_form(shapes(exprs@)),
{
    proof {
        lemma_shapes(exprs@);
    }
    if exprs.len() == 2 {
        return apply3("*.", copy_expr(&exprs[1]), Expression::Dec(chars_of("-1.0")));
    }
    fold_binary(&exprs, "-.", Expression::Int(0))
}

fn cons_transform(exprs: Vec<Expression>) -> (r: Expression)
    requires
        exprs@.len() >= 1,
    ensures
        shape(r) == fold_form(shapes(exprs@), "cons"@, Sexp::List(seq![Sexp::Word("vector"@)])),
{
    let v = word_of("vector");
    let ghost gv = v;
    proof {
        lemma_shapes_of1(v);
    }
    let items = vec![v];
    assert(items@ =~= seq![gv]);
    let empty = Expression::Apply(items);
    assert(shape(empty) == Sexp::List(seq![Sexp::Word("vector"@)]));
    fold_binary(&exprs, "cons", empty)
}

/// Curried applications flattened: `((f a) b)` becomes `(f a b)`, at every
/// level.
pub open spec fn flat_call(e: Sexp) -> Sexp
    decreases e,
{
    match e {
        Sexp::List(items) => if items.len() == 2 {
            proof {
                assert(decreases_to!(e => items));
            }
            let f = flat_call(items[0]);
            let arg = flat_call(items[1]);
            match f {
                Sexp::List(inner) => Sexp::List(inner.push(arg)),
                other => Sexp::List(seq![other, arg]),
            }
        } else {
            Sexp::List(flat_calls(items))
        },
        other => other,
    }
}

/// `flat_call` of each item.
pub open spec fn flat_calls(items: Seq<Sexp>) -> Seq<Sexp>
    decreases items,
{
    if items.len() == 0 {
        Seq::empty()
    } else {
        flat_calls(items.drop_last()).push(flat_call(items[items.len() - 1]))
    }
}

fn normalize_apply(expr: &Expression) -> (r: Expression)
    ensures
        shape(r) == flat_call(shape(*expr)),
    decreases *expr,
{
    match expr {
        Expression::Apply(items) => {
            proof {
                lemma_shapes(items@);
            }
            if items.len() == 2 {
                let f = normalize_apply(&items[0]);
                let arg = normalize_apply(&items[1]);
                match f {
                    Expression::Apply(mut inner) => {
                        proof {
                            lemma_shapes_push(inner@, arg);
                        }
                        inner.push(arg);
                        Expression::Apply(inner)
                    },
                    other => {
                        proof {
                            lemma_shapes_of2(other, arg);
                        }
                        Expression::Apply(vec![other, arg])
                    },
                }
            } else {
                let mut out: Vec<Expression> = Vec::new();
                let mut k: usize = 0;
                proof {
                    assert(shapes(out@) =~= flat_calls(shapes(items@).take(0)));
                }
                while k < items.len()
                    invariant
                        k <= items.len(),
                        *expr == Expression::Apply(*items),
                        shapes(items@).len() == items@.len(),
                        forall|m: int| 0 <= m < items@.len() ==> #[trigger] shapes(items@)[m] == shape(items@[m]),
                        shapes(out@) == flat_calls(shapes(items@).take(k as int)),
                    decreases items.len() - k,
                {
                    assert(decreases_to!(*expr => items@[k as int]));
                    let c = normalize_apply(&items[k]);
                    proof {
                        lemma_shapes_push(out@, c);
                        let t = shapes(items@).take(k + 1);
                        assert(t.drop_last() =~= shapes(items@).take(k as int));
                    }
                    out.push(c);
                    k += 1;
                }
                proof {
                    assert(shapes(items@).take(items@.len() as int) =~= shapes(items@));
                }
                Expression::Apply(out)
            }
        },
        other => copy_expr(other),
    }
}

/// `Some(true)` for a tuple pattern, `Some(false)` for a vector pattern.
pub open spec fn pattern_kind(p: Sexp) -> Option<bool> {
    match p {
        Sexp::List(es) => if es.len() > 0 && es[0] == Sexp::Word("tuple"@) {
            Some(true)
        } else if es.len() > 0 && es[0] == Sexp::Word("vector"@) {
            Some(false)
        } else {
            None
        },
        _ => None,
    }
}

/// `Some(true)` for a tuple pattern, `Some(false)` for a vector pattern.
fn destructuring_kind(pattern: &Expression) -> (r: Option<bool>)
    ensures
        r == pattern_kind(shape(*pattern)),
{
    match pattern {
        Expression::Apply(exprs) => {
            proof {
                lemma_shapes(exprs@);
                if exprs@.len() > 0 {
                    lemma_head_word(exprs@, "tuple"@);
                    lemma_head_word(exprs@, "vector"@);
                }
            }
            if head_is(exprs, "tuple") {
                Some(true)
            } else if head_is(exprs, "vector") {
                Some(false)
            } else {
                None
            }
        },
        _ => None,
    }
}

/// The forms `xs[k..]` of a `do` after `acc`, each `(let pattern value)`
/// whose pattern destructures replaced by a binding of a fresh name to the
/// value followed by the bindings of the pattern's parts.
pub open spec fn let_destructure_from(xs: Seq<Sexp>, k: int, c: usize, acc: Seq<Sexp>) -> Option<
    (Seq<Sexp>, usize),
>
    decreases xs.len() - k,
{
    if k < 0 || k >= xs.len() {
        Some((acc, c))
    } else {
        let e = xs[k];
        match e {
            Sexp::List(ls) => if ls.len() >= 3 && ls[0] == Sexp::Word("let"@) {
                match pattern_kind(ls[1]) {
                    Some(is_tuple) => {
                        let t = temp_name(
                            if is_tuple {
                                "let_temp_tuple"@
                            } else {
                                "let_temp_vec"@
                            },
                            10000,
                            c,
                        );
                        match destructure(ls[1], Sexp::Word(t), 10000, next_id(c)) {
                            Some((bs, x, c2)) => let_destructure_from(
                                xs,
                                k + 1,
                                c2,
                                acc.push(let_shape(t, ls[2])) + bs,
                            ),
                            None => None,
                        }
                    },
                    None => let_destructure_from(xs, k + 1, c, acc.push(e)),
                }
            } else {
                let_destructure_from(xs, k + 1, c, acc.push(e))
            },
            _ => let_destructure_from(xs, k + 1, c, acc.push(e)),
        }
    }
}

/// Replaces `(let pattern value)` forms whose pattern destructures with a
/// temporary binding followed by the bindings of the pattern's parts.
pub(crate) fn transform_let_destructuring_in_do(exprs: &Vec<Expression>, binding_counter: &mut usize) -> (r: Result<
    Vec<Expression>,
    Vec<char>,
>)
    ensures
        r is Ok <==> let_destructure_from(shapes(exprs@), 0, *old(binding_counter), Seq::empty()) is Some,
        r matches Ok(v) ==> let_destructure_from(shapes(exprs@), 0, *old(binding_counter), Seq::empty())
            == Some((shapes(v@), *final(binding_counter))),
{
    proof {
        lemma_shapes(exprs@);
        assert(shapes(Seq::<Expression>::empty()) =~= Seq::<Sexp>::empty());
    }
    let ghost xs = shapes(exprs@);
    let ghost c0 = *binding_counter;
    let mut new_exprs: Vec<Expression> = Vec::new();
    let mut k: usize = 0;
    while k < exprs.len()
        invariant
            k <= exprs@.len(),
            xs == shapes(exprs@),
            xs.len() == exprs@.len(),
            forall|m: int| 0 <= m < exprs@.len() ==> #[trigger] xs[m] == shape(exprs@[m]),
            let_destructure_from(xs, 0, c0, Seq::empty()) == let_destructure_from(
                xs,
                k as int,
                *binding_counter,
                shapes(new_exprs@),
            ),
        decreases exprs.len() - k,
    {
        let expr = &exprs[k];
        let mut done = false;
        let ghost before = new_exprs@;
        if let Expression::Apply(let_items) = expr {
            proof {
                lemma_shapes(let_items@);
                if let_items@.len() > 0 {
                    lemma_head_word(let_items@, "let"@);
                }
            }
            if let_items.len() >= 3 && is_word(&let_items[0], "let") {
                let pattern = &let_items[1];
                match destructuring_kind(pattern) {
                    Some(is_tuple) => {
                        let mut prefix = chars_of("let_temp_");
                        if is_tuple {
                            push_str(&mut prefix, "tuple");
                        } else {
                            push_str(&mut prefix, "vec");
                        }
                        proof {
                            reveal_strlit("let_temp_");
                            reveal_strlit("tuple");
                            reveal_strlit("vec");
                            reveal_strlit("let_temp_tuple");
                            reveal_strlit("let_temp_vec");
                            assert(prefix@ =~= if is_tuple {
                                "let_temp_tuple"@
                            } else {
                                "let_temp_vec"@
                            });
                        }
                        let temp_var = next_destructure_temp(&prefix, 10000, binding_counter);
                        let temp_binding = let_binding(&temp_var, copy_expr(&let_items[2]));
                        let (bindings, _v) = destructure_pattern(
                            pattern,
                            Expression::Word(temp_var),
                            10000,
                            binding_counter,
                        )?;
                        proof {
                            lemma_shapes_push(new_exprs@, temp_binding);
                        }
                        new_exprs.push(temp_binding);
                        let ghost mid = new_exprs@;
                        let ghost bs = bindings@;
                        append_all(&mut new_exprs, bindings);
                        proof {
                            lemma_shapes_concat(mid, bs);
                        }
                    },
                    None => {
                        let c = copy_expr(expr);
                        proof {
                            lemma_shapes_push(new_exprs@, c);
                        }
                        new_exprs.push(c);
                    },
                }
                done = true;
            }
        }
        if !done {
            let c = copy_expr(expr);
            proof {
                lemma_shapes_push(new_exprs@, c);
            }
            new_exprs.push(c);
        }
        k += 1;
    }
    Ok(new_exprs)
}

/// A `do` form with its destructuring `let`s expanded.
pub open spec fn do_form(xs: Seq<Sexp>, c: usize) -> Option<(Sexp, usize)> {
    match let_destructure_from(xs.subrange(1, xs.len() as int), 0, c, Seq::empty()) {
        Some((lets, c2)) => Some((Sexp::List(seq![Sexp::Word("do"@)] + lets), c2)),
        None => None,
    }
}

fn transform_do(exprs: Vec<Expression>, binding_counter: &mut usize) -> (r: Result<Expression, Vec<char>>)
    requires
        exprs@.len() >= 1,
    ensures
        r is Ok <==> do_form(shapes(exprs@), *old(binding_counter)) is Some,
        r matches Ok(e) ==> do_form(shapes(exprs@), *old(binding_counter)) == Some(
            (shape(e), *final(binding_counter)),
        ),
{
    proof {
        lemma_shapes(exprs@);
    }
    let ghost xs = shapes(exprs@);
    let mut rest: Vec<Expression> = Vec::new();
    let mut k: usize = 1;
    proof {
        assert(shapes(rest@) =~= xs.subrange(1, 1));
    }
    while k < exprs.len()
        invariant
            1 <= k <= exprs@.len(),
            xs == shapes(exprs@),
            xs.len() == exprs@.len(),
            forall|m: int| 0 <= m < exprs@.len() ==> #[trigger] xs[m] == shape(exprs@[m]),
            shapes(rest@) == xs.subrange(1, k as int),
        decreases exprs.len() - k,
    {
        let c = copy_expr(&exprs[k]);
        proof {
            lemma_shapes_push(rest@, c);
            assert(xs.subrange(1, k + 1) =~= xs.subrange(1, k as int).push(xs[k as int]));
        }
        rest.push(c);
        k += 1;
    }
    let lets = transform_let_destructuring_in_do(&rest, binding_counter)?;
    let mut out: Vec<Expression> = Vec::new();
    let d = word_of("do");
    proof {
        lemma_shapes_push(out@, d);
    }
    out.push(d);
    let ghost head = out@;
    let ghost lv = lets@;
    append_all(&mut out, lets);
    proof {
        lemma_shapes_concat(head, lv);
        assert(shapes(head) =~= seq![Sexp::Word("do"@)]);
    }
    Ok(Expression::Apply(out))
}

/// `(f x)` applied in turn: `acc` then each of `xs[k..]` as an argument.
pub open spec fn apply_from(xs: Seq<Sexp>, k: int, acc: Sexp) -> Sexp
    decreases xs.len() - k,
{
    if k >= xs.len() {
        acc
    } else {
        apply_from(xs, k + 1, Sexp::List(seq![acc, xs[k]]))
    }
}

/// Functions composed right to left around `_x`: `(comp f g)` builds the
/// body `(g (f _x))`.
pub open spec fn compose_from(xs: Seq<Sexp>, k: int, body: Sexp) -> Sexp
    decreases xs.len() - k,
{
    if k >= xs.len() {
        body
    } else {
        compose_from(xs, k + 1, Sexp::List(seq![xs[k], body]))
    }
}

/// `(comp f ...)` as a one-parameter lambda, its calls flattened.
pub open spec fn comp_form(xs: Seq<Sexp>) -> Option<Sexp> {
    if xs.len() <= 1 {
        None
    } else {
        Some(
            flat_call(
                call2("lambda"@, Sexp::Word("_x"@), compose_from(xs, 1, Sexp::Word("_x"@))),
            ),
        )
    }
}

fn combinator_transform_rev(exprs: Vec<Expression>) -> (r: Result<Expression, Vec<char>>)
    requires
        exprs@.len() >= 1,
    ensures
        r is Ok <==> comp_form(shapes(exprs@)) is Some,
        r matches Ok(e) ==> shape(e) == comp_form(shapes(exprs@))->0,
{
    proof {
        lemma_shapes(exprs@);
    }
    let ghost xs = shapes(exprs@);
    if exprs.len() <= 1 {
        return Err(chars_of("(comp) requires at least one function"));
    }
    let mut body = word_of("_x");
    let mut k: usize = 1;
    while k < exprs.len()
        invariant
            1 <= k <= exprs@.len(),
            xs == shapes(exprs@),
            xs.len() == exprs@.len(),
            forall|m: int| 0 <= m < exprs@.len() ==> #[trigger] xs[m] == shape(exprs@[m]),
            compose_from(xs, 1, Sexp::Word("_x"@)) == compose_from(xs, k as int, shape(body)),
        decreases exprs.len() - k,
    {
        let f = copy_expr(&exprs[k]);
        proof {
            lemma_shapes_of2(f, body);
        }
        body = Expression::Apply(vec![f, body]);
        k += 1;
    }
    Ok(normalize_apply(&apply3("lambda", word_of("_x"), body)))
}

/// `(apply f a b ...)`: `f` applied to one argument at a time.
pub open spec fn apply_form(xs: Seq<Sexp>) -> Option<Sexp> {
    if xs.len() <= 1 {
        None
    } else {
        Some(apply_from(xs, 2, xs[1]))
    }
}

fn apply_transform(exprs: Vec<Expression>) -> (r: Result<Expression, Vec<char>>)
    requires
        exprs@.len() >= 1,
    ensures
        r is Ok <==> apply_form(shapes(exprs@)) is Some,
        r matches Ok(e) ==> shape(e) == apply_form(shapes(exprs@))->0,
{
    proof {
        lemma_shapes(exprs@);
    }
    let ghost xs = shapes(exprs@);
    if exprs.len() <= 1 {
        return Err(chars_of("(apply) requires at least one function"));
    }
    let mut acc = copy_expr(&exprs[1]);
    let mut k: usize = 2;
    while k < exprs.len()
        invariant
            2 <= k <= exprs@.len(),
            xs == shapes(exprs@),
            xs.len() == exprs@.len(),
            forall|m: int| 0 <= m < exprs@.len() ==> #[trigger] xs[m] == shape(exprs@[m]),
            apply_from(xs, 2, xs[1]) == apply_from(xs, k as int, shape(acc)),
        decreases exprs.len() - k,
    {
        let a = copy_expr(&exprs[k]);
        proof {
            lemma_shapes_of2(acc, a);
        }
        acc = Expression::Apply(vec![acc, a]);
        k += 1;
    }
    Ok(acc)
}

/// `(if c a b)` with `nil` for each missing part.
pub open spec fn if_form(xs: Seq<Sexp>) -> Sexp {
    let nil = Sexp::Word("nil"@);
    let n = xs.len() - 1;
    if n == 0 {
        Sexp::List(seq![Sexp::Word("if"@), nil, nil, nil])
    } else if n == 1 {
        Sexp::List(seq![Sexp::Word("if"@), xs[1], nil, nil])
    } else {
        Sexp::List(
            seq![Sexp::Word("if"@), xs[1], xs[2], if n == 2 {
                nil
            } else {
                xs[3]
            }],
        )
    }
}

fn if_transform(exprs: Vec<Expression>) -> (r: Expression)
    requires
        exprs@.len() >= 1,
    ensures
        shape(r) == if_form(shapes(exprs@)),
{
    proof {
        lemma_shapes(exprs@);
    }
    let n = exprs.len() - 1;
    if n == 0 {
        let (a, b, c, d) = (word_of("if"), word_of("nil"), word_of("nil"), word_of("nil"));
        proof {
            lemma_shapes_of4(a, b, c, d);
        }
        return Expression::Apply(vec![a, b, c, d]);
    }
    if n == 1 {
        let (a, b, c, d) = (word_of("if"), copy_expr(&exprs[1]), word_of("nil"), word_of("nil"));
        proof {
            lemma_shapes_of4(a, b, c, d);
        }
        return Expression::Apply(vec![a, b, c, d]);
    }
    let otherwise = if n == 2 {
        word_of("nil")
    } else {
        copy_expr(&exprs[3])
    };
    let (a, b, c) = (word_of("if"), copy_expr(&exprs[1]), copy_expr(&exprs[2]));
    proof {
        lemma_shapes_of4(a, b, c, otherwise);
    }
    Expression::Apply(vec![a, b, c, otherwise])
}

/// One stage of a pipe: the value goes in as the first argument when
/// `data_first`, as the last otherwise; a stage that is not an application
/// is called with the value alone.
pub open spec fn pipe_stage(stage: Sexp, value: Sexp, data_first: bool) -> Sexp {
    match stage {
        Sexp::List(items) => if items.len() > 0 {
            if data_first {
                Sexp::List(seq![items[0], value] + items.subrange(1, items.len() as int))
            } else {
                Sexp::List(items.push(value))
            }
        } else {
            Sexp::List(seq![stage, value])
        },
        _ => Sexp::List(seq![stage, value]),
    }
}

/// The value threaded through the stages `xs[k..]`.
pub open spec fn pipe_from(xs: Seq<Sexp>, k: int, value: Sexp, data_first: bool) -> Sexp
    decreases xs.len() - k,
{
    if k >= xs.len() {
        value
    } else {
        pipe_from(xs, k + 1, pipe_stage(xs[k], value, data_first), data_first)
    }
}

fn pipe_transform(exprs: Vec<Expression>, data_first: bool) -> (r: Result<Expression, Vec<char>>)
    requires
        exprs@.len() >= 1,
    ensures
        r is Ok <==> exprs@.len() >= 2,
        r matches Ok(e) ==> shape(e) == pipe_from(shapes(exprs@), 2, shapes(exprs@)[1], data_first),
{
    proof {
        lemma_shapes(exprs@);
    }
    let ghost xs = shapes(exprs@);
    if exprs.len() < 2 {
        return Err(chars_of("pipe expects a value to pipe"));
    }
    let mut inp = copy_expr(&exprs[1]);
    let mut k: usize = 2;
    while k < exprs.len()
        invariant
            2 <= k <= exprs@.len(),
            xs == shapes(exprs@),
            xs.len() == exprs@.len(),
            forall|m: int| 0 <= m < exprs@.len() ==> #[trigger] xs[m] == shape(exprs@[m]),
            pipe_from(xs, 2, xs[1], data_first) == pipe_from(xs, k as int, shape(inp), data_first),
        decreases exprs.len() - k,
    {
        let stage = &exprs[k];
        let ghost v = shape(inp);
        match stage {
            Expression::Apply(items) => {
                proof {
                    lemma_shapes(items@);
                }
                if items.len() > 0 {
                    let mut new_stage: Vec<Expression> = Vec::new();
                    new_stage.push(copy_expr(&items[0]));
                    let mut rest: Vec<Expression> = Vec::new();
                    let mut m: usize = 1;
                    while m < items.len()
                        invariant
                            1 <= m <= items@.len(),
                            shapes(items@).len() == items@.len(),
                            forall|j: int| 0 <= j < items@.len() ==> #[trigger] shapes(items@)[j] == shape(items@[j]),
                            shapes(rest@) == shapes(items@).subrange(1, m as int),
                        decreases items.len() - m,
                    {
                        let c = copy_expr(&items[m]);
                        proof {
                            lemma_shapes_push(rest@, c);
                            assert(shapes(items@).subrange(1, m + 1) =~= shapes(items@).subrange(1, m as int).push(shape(items@[m as int])));
                        }
                        rest.push(c);
                        m += 1;
                    }
                    let ghost head = new_stage@;
                    proof {
                        assert(shapes(head) =~= seq![shapes(items@)[0]]) by {
                            lemma_shapes(head);
                        }
                    }
                    if data_first {
                        let ghost gi = inp;
                        new_stage.push(inp);
                        let ghost mid = new_stage@;
                        let ghost grest = rest@;
                        append_all(&mut new_stage, rest);
                        proof {
                            lemma_shapes_push(head, gi);
                            lemma_shapes_concat(mid, grest);
                            assert(shapes(new_stage@) =~= seq![shapes(items@)[0], v] + shapes(items@).subrange(1, items@.len() as int));
                        }
                    } else {
                        let ghost grest = rest@;
                        append_all(&mut new_stage, rest);
                        let ghost mid = new_stage@;
                        let ghost gi = inp;
                        new_stage.push(inp);
                        proof {
                            lemma_shapes_concat(head, grest);
                            lemma_shapes_push(mid, gi);
                            assert(shapes(new_stage@) =~= shapes(items@).push(v));
                        }
                    }
                    inp = Expression::Apply(new_stage);
                } else {
                    let c = copy_expr(stage);
                    proof {
                        lemma_shapes_of2(c, inp);
                    }
                    inp = Expression::Apply(vec![c, inp]);
                }
            },
            _ => {
                let c = copy_expr(stage);
                proof {
                    lemma_shapes_of2(c, inp);
                }
                inp = Expression::Apply(vec![c, inp]);
            },
        }
        k += 1;
    }
    Ok(inp)
}

/// A result that leaves the id counter as it is.
pub open spec fn keeping(r: Option<Sexp>, c: usize) -> Option<(Sexp, usize)> {
    match r {
        Some(e) => Some((e, c)),
        None => None,
    }
}

/// The surface form `xs` (its items already desugared) rewritten into
/// core forms, by the word at its head.
pub open spec fn rewrite_form(xs: Seq<Sexp>, c: usize) -> Option<(Sexp, usize)> {
    match xs[0] {
        Sexp::Word(name) => if name == "<|"@ {
            keeping(if xs.len() >= 2 { Some(pipe_from(xs, 2, xs[1], true)) } else { None }, c)
        } else if name == "|>"@ {
            keeping(if xs.len() >= 2 { Some(pipe_from(xs, 2, xs[1], false)) } else { None }, c)
        } else if name == "if"@ {
            Some((if_form(xs), c))
        } else if name == "-"@ {
            Some((minus_form(xs), c))
        } else if name == "-."@ {
            Some((minusf_form(xs), c))
        } else if name == "+"@ {
            Some((fold_form(xs, "+"@, Sexp::Int(1)), c))
        } else if name == "+."@ {
            Some((fold_form(xs, "+."@, Sexp::Dec("1.0"@)), c))
        } else if name == "*"@ {
            Some((fold_form(xs, "*"@, Sexp::Int(1)), c))
        } else if name == "*."@ {
            Some((fold_form(xs, "*."@, Sexp::Dec("1.0"@)), c))
        } else if name == "/"@ {
            Some((fold_form(xs, "/"@, Sexp::Int(1)), c))
        } else if name == "/."@ {
            Some((fold_form(xs, "/."@, Sexp::Dec("1.0"@)), c))
        } else if name == "and"@ {
            Some((fold_form(xs, "and"@, Sexp::Int(1)), c))
        } else if name == "or"@ {
            Some((fold_form(xs, "or"@, Sexp::Int(1)), c))
        } else if name == "get"@ {
            keeping(
                if xs.len() < 2 {
                    None
                } else if xs.len() == 2 {
                    Some(call2("get"@, xs[1], Sexp::Int(0)))
                } else {
                    Some(fold_form(xs, "get"@, Sexp::Int(0)))
                },
                c,
            )
        } else if name == "cdr"@ {
            keeping(
                if xs.len() < 2 {
                    None
                } else if xs.len() == 2 {
                    Some(call2("cdr"@, xs[1], Sexp::Int(1)))
                } else {
                    Some(call2("cdr"@, xs[1], xs[2]))
                },
                c,
            )
        } else if name == "set!"@ {
            keeping(set_form(xs), c)
        } else if name == "&mut"@ || name == "variable"@ {
            keeping(if xs.len() >= 3 { Some(let_shape_of(xs[1], call1("box"@, xs[2]))) } else { None }, c)
        } else if name == "integer"@ {
            keeping(if xs.len() >= 3 { Some(let_shape_of(xs[1], call1("int"@, xs[2]))) } else { None }, c)
        } else if name == "fixed"@ {
            keeping(if xs.len() >= 3 { Some(let_shape_of(xs[1], call1("dec"@, xs[2]))) } else { None }, c)
        } else if name == "boolean"@ {
            keeping(
                if xs.len() >= 3 && boolean_value(xs[2]) {
                    Some(let_shape_of(xs[1], call1("bool"@, xs[2])))
                } else {
                    None
                },
                c,
            )
        } else if name == "while"@ {
            keeping(while_form(xs), c)
        } else if name == "lambda"@ {
            lambda_form(xs, c)
        } else if name == "cons"@ {
            Some((fold_form(xs, "cons"@, Sexp::List(seq![Sexp::Word("vector"@)])), c))
        } else if name == "apply"@ {
            keeping(apply_form(xs), c)
        } else if name == "comp"@ {
            keeping(comp_form(xs), c)
        } else if name == "do"@ {
            do_form(xs, c)
        } else {
            Some((Sexp::List(xs), c))
        },
        _ => Some((Sexp::List(xs), c)),
    }
}

/// The heads whose arguments fold into nested binary applications of the
/// head itself.
pub open spec fn fold_operator(h: Seq<char>) -> bool {
    ||| h == "+"@ || h == "+."@ || h == "*"@ || h == "*."@ || h == "/"@ || h == "/."@
    ||| h == "-"@ || h == "-."@
    ||| h == "and"@ || h == "or"@ || h == "get"@ || h == "cons"@
}

/// The form a surface form is rewritten into (a placeholder when it is
/// refused).
pub open spec fn rewritten(xs: Seq<Sexp>, c: usize) -> Sexp {
    match rewrite_form(xs, c) {
        Some((e, _)) => e,
        None => Sexp::Int(0),
    }
}

/// Folding one more argument applies the operator once more, to the fold
/// of the arguments before it and the new one.
proof fn lemma_fold_upto_last(xs: Seq<Sexp>, k: int, end: int, acc: Sexp, op: Seq<char>)
    requires
        0 <= k < end,
    ensures
        fold_upto(xs, k, end, acc, op) == call2(op, fold_upto(xs, k, end - 1, acc, op), xs[end - 1]),
    decreases end - k,
{
    assert(fold_upto(xs, k, end, acc, op) == fold_upto(xs, k + 1, end, call2(op, acc, xs[k]), op));
    if k < end - 1 {
        lemma_fold_upto_last(xs, k + 1, end, call2(op, acc, xs[k]), op);
        assert(fold_upto(xs, k, end - 1, acc, op) == fold_upto(xs, k + 1, end - 1, call2(op, acc, xs[k]), op));
    } else {
        assert(fold_upto(xs, k + 1, end, call2(op, acc, xs[k]), op) == call2(op, acc, xs[k]));
        assert(fold_upto(xs, k, end - 1, acc, op) == acc);
    }
}

/// A fold reads only the arguments it folds.
proof fn lemma_fold_upto_same(xs: Seq<Sexp>, ys: Seq<Sexp>, k: int, end: int, acc: Sexp, op: Seq<char>)
    requires
        0 <= k,
        end <= xs.len(),
        end <= ys.len(),
        forall|j: int| 0 <= j < end ==> xs[j] == ys[j],
    ensures
        fold_upto(xs, k, end, acc, op) == fold_upto(ys, k, end, acc, op),
    decreases end - k,
{
    if k < end {
        assert(xs[k] == ys[k]);
        lemma_fold_upto_same(xs, ys, k + 1, end, call2(op, acc, xs[k]), op);
    }
}

/// The rewriting of a form headed by a fold operator is its fold.
proof fn lemma_rewrite_fold(h: Seq<char>, xs: Seq<Sexp>, c: usize, unit: Sexp)
    requires
        fold_operator(h),
        xs.len() >= 3,
        xs[0] == Sexp::Word(h),
        unit == if h == "+"@ || h == "*"@ || h == "/"@ || h == "and"@ || h == "or"@ {
            Sexp::Int(1)
        } else if h == "get"@ || h == "-"@ || h == "-."@ {
            Sexp::Int(0)
        } else if h == "cons"@ {
            Sexp::List(seq![Sexp::Word("vector"@)])
        } else {
            Sexp::Dec("1.0"@)
        },
    ensures
        rewrite_form(xs, c) == Some((fold_form(xs, h, unit), c)),
{
    reveal_strlit("<|");
    reveal_strlit("|>");
    reveal_strlit("if");
    reveal_strlit("-");
    reveal_strlit("-.");
    reveal_strlit("+");
    reveal_strlit("+.");
    reveal_strlit("*");
    reveal_strlit("*.");
    reveal_strlit("/");
    reveal_strlit("/.");
    reveal_strlit("and");
    reveal_strlit("or");
    reveal_strlit("get");
    reveal_strlit("cdr");
    reveal_strlit("set!");
    reveal_strlit("&mut");
    reveal_strlit("variable");
    reveal_strlit("integer");
    reveal_strlit("fixed");
    reveal_strlit("boolean");
    reveal_strlit("while");
    reveal_strlit("lambda");
    reveal_strlit("cons");
    assert("<|"@[0] == '<' && "|>"@[0] == '|' && "if"@[0] == 'i' && "-"@[0] == '-' && "-."@[0] == '-');
    assert("+"@[0] == '+' && "+."@[0] == '+' && "*"@[0] == '*' && "*."@[0] == '*' && "/"@[0] == '/');
    assert("/."@[0] == '/' && "and"@[0] == 'a' && "or"@[0] == 'o' && "get"@[0] == 'g' && "cdr"@[0] == 'c');
    assert("set!"@[0] == 's' && "&mut"@[0] == '&' && "variable"@[0] == 'v' && "integer"@[0] == 'i');
    assert("fixed"@[0] == 'f' && "boolean"@[0] == 'b' && "while"@[0] == 'w' && "lambda"@[0] == 'l');
    assert("cons"@[0] == 'c' && "cons"@[1] == 'o' && "cdr"@[1] == 'd');
    assert("-."@[1] == '.' && "+."@[1] == '.' && "*."@[1] == '.' && "/."@[1] == '.');
}

/// Arithmetic, logical, `get` and `cons` forms with two arguments or more
/// keep their operator: with two arguments the form stays as it is, and each
/// further argument applies the operator once more to the form of the
/// arguments before it; the id counter is left alone.
pub proof fn lemma_fold_keeps_operator(h: Seq<char>, xs: Seq<Sexp>, c: usize)
    requires
        fold_operator(h),
        xs.len() >= 3,
        xs[0] == Sexp::Word(h),
    ensures
        rewrite_form(xs, c) == Some((rewritten(xs, c), c)),
        xs.len() == 3 ==> rewritten(xs, c) == Sexp::List(xs),
        xs.len() > 3 ==> rewritten(xs, c) == call2(h, rewritten(xs.drop_last(), c), xs.last()),
    decreases xs.len(),
{
    reveal_strlit("<|");
    reveal_strlit("|>");
    reveal_strlit("if");
    reveal_strlit("-");
    reveal_strlit("-.");
    reveal_strlit("+");
    reveal_strlit("+.");
    reveal_strlit("*");
    reveal_strlit("*.");
    reveal_strlit("/");
    reveal_strlit("/.");
    reveal_strlit("and");
    reveal_strlit("or");
    reveal_strlit("get");
    reveal_strlit("cdr");
    reveal_strlit("set!");
    reveal_strlit("&mut");
    reveal_strlit("variable");
    reveal_strlit("integer");
    reveal_strlit("fixed");
    reveal_strlit("boolean");
    reveal_strlit("while");
    reveal_strlit("lambda");
    reveal_strlit("cons");
    let unit = if h == "+"@ || h == "*"@ || h == "/"@ || h == "and"@ || h == "or"@ {
        Sexp::Int(1)
    } else if h == "get"@ || h == "-"@ || h == "-."@ {
        Sexp::Int(0)
    } else if h == "cons"@ {
        Sexp::List(seq![Sexp::Word("vector"@)])
    } else {
        Sexp::Dec("1.0"@)
    };
    lemma_rewrite_fold(h, xs, c, unit);
    let n = xs.len() as int;
    lemma_fold_upto_last(xs, 2, n, xs[1], h);
    if n == 3 {
        assert(Sexp::List(xs) == call2(h, xs[1], xs[2])) by {
            assert(xs =~= seq![Sexp::Word(h), xs[1], xs[2]]);
        }
    } else {
        let ys = xs.drop_last();
        lemma_fold_upto_same(xs, ys, 2, n - 1, xs[1], h);
        lemma_rewrite_fold(h, ys, c, unit);
    }
}

/// An expression desugared bottom-up, its items first and then its own
/// surface form, with fresh names numbered from `c`; the next id comes
/// back with it.  `None` when a form is malformed.
pub open spec fn desugared(e: Sexp, c: usize) -> Option<(Sexp, usize)>
    decreases e, 1int, 0int,
{
    match e {
        Sexp::List(items) => if items.len() == 0 {
            Some((Sexp::List(Seq::empty()), c))
        } else {
            match desugared_items(e, items, 0, c, Seq::empty()) {
                Some((xs, c2)) => rewrite_form(xs, c2),
                None => None,
            }
        },
        _ => Some((e, c)),
    }
}

/// The items `items[k..]` of `e` desugared in turn after `acc`.
pub open spec fn desugared_items(e: Sexp, items: Seq<Sexp>, k: int, c: usize, acc: Seq<Sexp>) -> Option<
    (Seq<Sexp>, usize),
>
    decreases e, 0int, items.len() - k,
{
    if k < 0 || k >= items.len() || e != Sexp::List(items) {
        Some((acc, c))
    } else {
        proof {
            assert(e->List_0 == items);
            assert(decreases_to!(e => e->List_0));
        }
        match desugared(items[k], c) {
            Some((x, c2)) => desugared_items(e, items, k + 1, c2, acc.push(x)),
            None => None,
        }
    }
}

/// Desugars an expression bottom-up: children first, then the surface form
/// at the head is rewritten into core forms.
pub(crate) fn desugar_with_counter(expr: &Expression, binding_counter: &mut usize) -> (r: Result<
    Expression,
    Vec<char>,
>)
    ensures
        r is Ok <==> desugared(shape(*expr), *old(binding_counter)) is Some,
        r matches Ok(e) ==> desugared(shape(*expr), *old(binding_counter)) == Some(
            (shape(e), *final(binding_counter)),
        ),
    decreases *expr,
{
    match expr {
        Expression::Apply(items) => {
            proof {
                lemma_shapes(items@);
            }
            let ghost e = shape(*expr);
            let ghost its = shapes(items@);
            let ghost c0 = *binding_counter;
            if items.len() == 0 {
                return Ok(Expression::Apply(Vec::new()));
            }
            let mut exprs: Vec<Expression> = Vec::new();
            let mut k: usize = 0;
            proof {
                assert(shapes(exprs@) =~= Seq::<Sexp>::empty());
            }
            while k < items.len()
                invariant
                    k <= items.len(),
                    exprs@.len() == k,
                    *expr == Expression::Apply(*items),
                    e == shape(*expr),
                    e == Sexp::List(its),
                    its == shapes(items@),
                    its.len() == items@.len(),
                    forall|m: int| 0 <= m < items@.len() ==> #[trigger] its[m] == shape(items@[m]),
                    desugared_items(e, its, 0, c0, Seq::empty()) == desugared_items(
                        e,
                        its,
                        k as int,
                        *binding_counter,
                        shapes(exprs@),
                    ),
                decreases items.len() - k,
            {
                assert(decreases_to!(*expr => items@[k as int]));
                let d = desugar_with_counter(&items[k], binding_counter)?;
                proof {
                    lemma_shapes_push(exprs@, d);
                }
                exprs.push(d);
                k += 1;
            }
            proof {
                lemma_shapes(exprs@);
            }
            let ghost xs = shapes(exprs@);
            let name = match &exprs[0] {
                Expression::Word(w) => copy_text(w),
                _ => {
                    return Ok(Expression::Apply(exprs));
                },
            };
            assert(xs[0] == Sexp::Word(name@));
            if text_is(&name, "<|") {
                pipe_transform(exprs, true)
            } else if text_is(&name, "|>") {
                pipe_transform(exprs, false)
            } else if text_is(&name, "if") {
                Ok(if_transform(exprs))
            } else if text_is(&name, "-") {
                Ok(minus_transform(exprs))
            } else if text_is(&name, "-.") {
                Ok(minusf_transform(exprs))
            } else if text_is(&name, "+") {
                Ok(fold_binary(&exprs, "+", Expression::Int(1)))
            } else if text_is(&name, "+.") {
                Ok(fold_binary(&exprs, "+.", Expression::Dec(chars_of("1.0"))))
            } else if text_is(&name, "*") {
                Ok(fold_binary(&exprs, "*", Expression::Int(1)))
            } else if text_is(&name, "*.") {
                Ok(fold_binary(&exprs, "*.", Expression::Dec(chars_of("1.0"))))
            } else if text_is(&name, "/") {
                Ok(fold_binary(&exprs, "/", Expression::Int(1)))
            } else if text_is(&name, "/.") {
                Ok(fold_binary(&exprs, "/.", Expression::Dec(chars_of("1.0"))))
            } else if text_is(&name, "and") {
                Ok(fold_binary(&exprs, "and", Expression::Int(1)))
            } else if text_is(&name, "or") {
                Ok(fold_binary(&exprs, "or", Expression::Int(1)))
            } else if text_is(&name, "get") {
                accessor_transform(exprs)
            } else if text_is(&name, "cdr") {
                cdr_transform(exprs)
            } else if text_is(&name, "set!") {
                setter_transform(exprs)
            } else if text_is(&name, "&mut") || text_is(&name, "variable") {
                wrapped_let_transform(exprs, "box")
            } else if text_is(&name, "integer") {
                wrapped_let_transform(exprs, "int")
            } else if text_is(&name, "fixed") {
                wrapped_let_transform(exprs, "dec")
            } else if text_is(&name, "boolean") {
                boolean_transform(exprs)
            } else if text_is(&name, "while") {
                loop_while_transform(exprs)
            } else if text_is(&name, "lambda") {
                lambda_destructure_transform(exprs, binding_counter)
            } else if text_is(&name, "cons") {
                Ok(cons_transform(exprs))
            } else if text_is(&name, "apply") {
                apply_transform(exprs)
            } else if text_is(&name, "comp") {
                combinator_transform_rev(exprs)
            } else if text_is(&name, "do") {
                transform_do(exprs, binding_counter)
            } else {
                Ok(Expression::Apply(exprs))
            }
        },
        other => Ok(copy_expr(other)),
    }
}

fn wrap_top_level_do(exprs: Vec<Expression>) -> (r: Expression)
    ensures
        shape(r) == Sexp::List(seq![Sexp::Word("do"@)] + shapes(exprs@)),
{
    let mut out: Vec<Expression> = Vec::new();
    out.push(word_of("do"));
    let ghost head = out@;
    append_all(&mut out, exprs);
    proof {
        lemma_shapes_concat(head, exprs@);
        assert(shapes(head) =~= seq![Sexp::Word("do"@)]) by {
            assert(head.len() == 1);
            assert(head.drop_last() =~= Seq::<Expression>::empty());
            assert(shapes(Seq::<Expression>::empty()) =~= Seq::<Sexp>::empty());
            assert(shape(head[0]) == Sexp::Word("do"@));
            assert(shapes(head) == shapes(head.drop_last()).push(shape(head.last())));
        }
    }
    Expression::Apply(out)
}

/// The top-level forms as one `(do ...)`; `(do nil)` when there are none.
pub open spec fn runtime_do(top: Seq<Sexp>) -> Sexp {
    if top.len() == 0 {
        Sexp::List(seq![Sexp::Word("do"@), Sexp::Word("nil"@)])
    } else {
        Sexp::List(seq![Sexp::Word("do"@)] + top)
    }
}

pub(crate) fn wrap_runtime_top_level_do(exprs: Vec<Expression>) -> (r: Expression)
    ensures
        shape(r) == runtime_do(shapes(exprs@)),
{
    if exprs.len() == 0 {
        proof {
            assert(shapes(exprs@) =~= Seq::<Sexp>::empty());
        }
        let (d, n) = (word_of("do"), word_of("nil"));
        proof {
            lemma_shapes_of2(d, n);
        }
        return Expression::Apply(vec![d, n]);
    }
    wrap_top_level_do(exprs)
}

/// The forms `xs[k..]` desugared in turn after `acc`, sharing the id
/// counter.
pub open spec fn desugared_all(xs: Seq<Sexp>, k: int, c: usize, acc: Seq<Sexp>) -> Option<
    (Seq<Sexp>, usize),
>
    decreases xs.len() - k,
{
    if k < 0 || k >= xs.len() {
        Some((acc, c))
    } else {
        match desugared(xs[k], c) {
            Some((x, c2)) => desugared_all(xs, k + 1, c2, acc.push(x)),
            None => None,
        }
    }
}

/// The top-level forms source reads as, once its literal syntax is
/// rewritten.
pub open spec fn program_forms(src: Seq<char>) -> Option<Seq<Sexp>> {
    match preprocessed(src) {
        Some(p) => read_program(p),
        None => None,
    }
}

/// What forms with their macros expanded build to: desugared with ids
/// from 0, the destructuring `let`s among them expanded, all in one
/// `(do ...)`.
pub open spec fn built_forms(forms: Seq<Sexp>) -> Option<Sexp> {
    match desugared_all(forms, 0, 0, Seq::empty()) {
        Some((ds, c)) => match let_destructure_from(ds, 0, c, Seq::empty()) {
            Some((top, c2)) => Some(runtime_do(top)),
            None => None,
        },
        None => None,
    }
}

/// What a program without macros builds to: its forms, with top-level
/// `do` forms spliced in, built.
pub open spec fn built_program(forms: Seq<Sexp>) -> Option<Sexp> {
    built_forms(flat_dos(forms))
}

/// What source builds to once it reads: the failure of its macros, or its
/// forms with their macros expanded, built (`None` when a form does not
/// desugar).
pub open spec fn build_outcome(forms: Seq<Sexp>) -> Result<Option<Sexp>, Seq<char>> {
    match prepared(forms, Seq::empty()) {
        Err(m) => Err(m),
        Ok((p, l)) => Ok(built_forms(p)),
    }
}

/// Source that reads, and whose forms define no macros and use no
/// compile-time forms.
pub open spec fn without_macros(src: Seq<char>) -> bool {
    program_forms(src) is Some && macro_free(flat_dos(program_forms(src)->0))
}

/// What such source builds to.
pub open spec fn built_source(src: Seq<char>) -> Option<Sexp> {
    built_program(program_forms(src)->0)
}

/// Reads, expands and desugars a program given as characters; the result is
/// one `(do ...)` of its top-level forms.
pub(crate) fn build_text(program: &Vec<char>) -> (r: Result<Expression, Vec<char>>)
    ensures
        program_forms(program@) is None ==> r is Err,
        without_macros(program@) ==> (r is Ok <==> built_source(program@) is Some),
        without_macros(program@) ==> (r matches Ok(e) ==> shape(e) == built_source(program@)->0),
        program_forms(program@) matches Some(forms) ==> match build_outcome(forms) {
            Err(m) => r matches Err(e) && e@ == m,
            Ok(b) => (r is Ok <==> b is Some) && (r matches Ok(e) ==> shape(e) == b->0),
        },
{
    let preprocessed = preprocess(program)?;
    let exprs = parse_text(&preprocessed)?;
    let ghost forms = shapes(exprs@);
    proof {
        assert(shapes(Seq::<Expression>::empty()) =~= Seq::<Sexp>::empty());
    }
    let prepared_forms = prepare_program_with_macros(exprs, Vec::new());
    let (exprs, _std) = match prepared_forms {
        Ok(x) => x,
        Err(e) => {
            return Err(e);
        },
    };
    let ghost plain = macro_free(flat_dos(forms));
    proof {
        lemma_shapes(exprs@);
    }
    let mut desugared: Vec<Expression> = Vec::new();
    let mut binding_counter: usize = 0;
    let mut k: usize = 0;
    while k < exprs.len()
        invariant
            k <= exprs@.len(),
            shapes(exprs@).len() == exprs@.len(),
            forall|m: int| 0 <= m < exprs@.len() ==> #[trigger] shapes(exprs@)[m] == shape(exprs@[m]),
            plain ==> shapes(exprs@) == flat_dos(forms),
            desugared_all(shapes(exprs@), 0, 0, Seq::empty()) == desugared_all(
                shapes(exprs@),
                k as int,
                binding_counter,
                shapes(desugared@),
            ),
        decreases exprs.len() - k,
    {
        let d = desugar_with_counter(&exprs[k], &mut binding_counter)?;
        proof {
            lemma_shapes_push(desugared@, d);
        }
        desugared.push(d);
        k += 1;
    }
    let top_level = transform_let_destructuring_in_do(&desugared, &mut binding_counter)?;
    Ok(wrap_runtime_top_level_do(top_level))
}

/// Reads, expands and desugars a Que program into a single `(do ...)`.
/// Source that does not read is refused; a failure of its macros is
/// reported as such; otherwise the result is the build of its forms with
/// their macros expanded.  A program without macro definitions or
/// compile-time forms builds to its forms, with top-level `do` forms
/// spliced in, desugared.
pub fn build(program: &str) -> (r: Result<Expression, String>)
    ensures
        program_forms(program@) is None ==> r is Err,
        program_forms(program@) matches Some(forms) ==> match build_outcome(forms) {
            Err(m) => r matches Err(e) && e@ == m,
            Ok(b) => (r is Ok <==> b is Some) && (r matches Ok(e) ==> shape(e) == b->0),
        },
        without_macros(program@) ==> (r is Ok <==> built_source(program@) is Some),
        without_macros(program@) ==> (r matches Ok(e) ==> shape(e) == built_source(program@)->0),
{
    let text = text_of(program);
    match build_text(&text) {
        Ok(e) => Ok(e),
        Err(e) => Err(text_to_string(&e)),
    }
}

/// What library source reads as: one `(do ...)` of its top-level forms,
/// with nested top-level `do` forms spliced in.
pub open spec fn library_form(src: Seq<char>) -> Option<Sexp> {
    match preprocessed(src) {
        Some(p) => match read_program(p) {
            Some(forms) => Some(Sexp::List(seq![Sexp::Word("do"@)] + flat_dos(forms))),
            None => None,
        },
        None => None,
    }
}

/// Reads library source into one `(do ...)` of its top-level forms, with
/// nested top-level `do` forms spliced in; no macros are expanded.
pub fn build_library(program: &str) -> (r: Result<Expression, String>)
    ensures
        r is Ok <==> library_form(program@) is Some,
        r matches Ok(e) ==> shape(e) == library_form(program@)->0,
{
    let text = text_of(program);
    let preprocessed = match preprocess(&text) {
        Ok(p) => p,
        Err(e) => {
            return Err(text_to_string(&e));
        },
    };
    let exprs = match parse_text(&preprocessed) {
        Ok(x) => x,
        Err(e) => {
            return Err(text_to_string(&e));
        },
    };
    Ok(wrap_top_level_do(flatten_top_level_dos(&exprs)))
}

/// Reads the top-level expressions of already preprocessed source.
pub fn parse(src: &str) -> (r: Result<Vec<Expression>, String>)
    ensures
        r is Ok <==> read_program(src@) is Some,
        r matches Ok(v) ==> shapes(v@) == read_program(src@)->0,
{
    let text = text_of(src);
    match parse_text(&text) {
        Ok(v) => Ok(v),
        Err(e) => Err(text_to_string(&e)),
    }
}

} // verus!
