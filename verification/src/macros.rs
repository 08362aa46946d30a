//! Compile-time macros: `letmacro` definitions, quasi-quotation and
//! expansion of macro calls.
use vstd::prelude::*;
use crate::text::{
    chars_of, copy_text, int_text, int_to_text, push_str, push_text, text_eq, text_is, text_lt,
    text_less, texts_view,
};
use crate::expr::{
    Expression, Sexp, copy_expr, head_is, is_word, word_of, shape, shapes, lemma_shapes,
    lemma_shapes_push, sexp_text, lisp_text, lemma_lisp_text_shape,
};

verus! {

/// Expansion stops with an error beyond this nesting of macro calls.
pub const MAX_MACRO_EXPANSION_DEPTH: usize = 64;

/// One clause of a macro: its parameters, an optional rest parameter and
/// the body evaluated at expansion time.
pub struct MacroClause {
    pub params: Vec<Vec<char>>,
    pub rest_param: Option<Vec<char>>,
    pub body: Expression,
}

/// A macro: clauses tried in order by argument count.
pub struct MacroDef {
    pub clauses: Vec<MacroClause>,
}

/// Named expression bindings; a later binding of a name replaces the earlier.
pub type Bindings = Vec<(Vec<char>, Expression)>;

/// The value bound to `name`: the first binding of the name.
pub open spec fn lookup<V>(env: Seq<(Seq<char>, V)>, name: Seq<char>) -> Option<V>
    decreases env.len(),
{
    if env.len() == 0 {
        None
    } else if env[0].0 == name {
        Some(env[0].1)
    } else {
        lookup(env.drop_first(), name)
    }
}

/// `env` with `name` bound to `value`: the first binding of the name is
/// replaced where it stands, or the binding is added at the end.
pub open spec fn bind<V>(env: Seq<(Seq<char>, V)>, name: Seq<char>, value: V) -> Seq<(Seq<char>, V)>
    decreases env.len(),
{
    if env.len() == 0 {
        seq![(name, value)]
    } else if env[0].0 == name {
        env.update(0, (name, value))
    } else {
        seq![env[0]] + bind(env.drop_first(), name, value)
    }
}

/// Bindings of names to shapes, as a macro body sees them.
pub open spec fn env_view(b: Seq<(Vec<char>, Expression)>) -> Seq<(Seq<char>, Sexp)> {
    b.map_values(|p: (Vec<char>, Expression)| (p.0@, shape(p.1)))
}

/// A macro clause as a mathematical value.
pub struct ClauseSpec {
    pub params: Seq<Seq<char>>,
    pub rest: Option<Seq<char>>,
    pub body: Sexp,
}

/// The value of a clause.
pub open spec fn clause_view(c: MacroClause) -> ClauseSpec {
    ClauseSpec {
        params: c.params@.map_values(|p: Vec<char>| p@),
        rest: match c.rest_param {
            Some(r) => Some(r@),
            None => None,
        },
        body: shape(c.body),
    }
}

/// The clauses of a macro, in order.
pub open spec fn def_view(d: MacroDef) -> Seq<ClauseSpec> {
    d.clauses@.map_values(|c: MacroClause| clause_view(c))
}

/// A table of macros as names bound to their clauses.
pub open spec fn table_view(m: Seq<(Vec<char>, MacroDef)>) -> Seq<(Seq<char>, Seq<ClauseSpec>)> {
    m.map_values(|p: (Vec<char>, MacroDef)| (p.0@, def_view(p.1)))
}

/// The name `(gensym)` gives when the counter is `g`.
pub open spec fn gensym_name(g: int) -> Seq<char> {
    "__macro_"@ + int_text(
        if g <= i64::MAX {
            g
        } else {
            i64::MAX as int
        },
    )
}

/// The counter after a `(gensym)`.
pub open spec fn next_gensym(g: int) -> int {
    if g < usize::MAX {
        g + 1
    } else {
        g
    }
}

/// The word at the head of a list form, if it is `w`.
pub open spec fn headed(items: Seq<Sexp>, w: Seq<char>) -> bool {
    items.len() > 0 && items[0] == Sexp::Word(w)
}

/// Evaluates a macro-body expression at expansion time, in the bindings
/// `env` with the gensym counter at `g`: the value, the bindings after any
/// `let`, and the counter after.  Words bound in `env` stand for their
/// values; `do` gives its last value; `let` binds a name; `quote` and `qq`
/// quote; `gensym` makes a fresh name; any other list is evaluated item by
/// item.
pub open spec fn eval_in(e: Sexp, env: Seq<(Seq<char>, Sexp)>, g: int) -> Result<
    (Sexp, Seq<(Seq<char>, Sexp)>, int),
    Seq<char>,
>
    decreases e, 0int, 0int,
{
    match e {
        Sexp::Word(w) => match lookup(env, w) {
            Some(v) => Ok((v, env, g)),
            None => Ok((e, env, g)),
        },
        Sexp::List(items) => if items.len() == 0 {
            Ok((e, env, g))
        } else if headed(items, "do"@) {
            if items.len() < 2 {
                Err("(do ...) requires at least one expression"@)
            } else {
                match eval_each(items, 1, env, g) {
                    Ok((vals, env2, g2)) => Ok((vals.last(), env2, g2)),
                    Err(m) => Err(m),
                }
            }
        } else if headed(items, "let"@) {
            if items.len() != 3 {
                Err("(let name value) expects exactly a name and value"@)
            } else if items[1] is Word {
                match eval_in(items[2], env, g) {
                    Ok((v, env2, g2)) => Ok((v, bind(env2, items[1]->Word_0, v), g2)),
                    Err(m) => Err(m),
                }
            } else {
                Err("compile-time let only supports simple word bindings for now"@)
            }
        } else if headed(items, "quote"@) {
            if items.len() != 2 {
                Err("(quote ...) expects exactly one expression"@)
            } else {
                Ok((items[1], env, g))
            }
        } else if headed(items, "qq"@) {
            if items.len() != 2 {
                Err("(qq ...) expects exactly one expression"@)
            } else {
                match quasi(items[1], env, g) {
                    Ok((v, g2)) => Ok((v, env, g2)),
                    Err(m) => Err(m),
                }
            }
        } else if headed(items, "gensym"@) {
            if items.len() != 1 {
                Err("(gensym) does not take arguments yet"@)
            } else {
                Ok((Sexp::Word(gensym_name(g)), env, next_gensym(g)))
            }
        } else {
            match eval_each(items, 0, env, g) {
                Ok((vals, env2, g2)) => Ok((Sexp::List(vals), env2, g2)),
                Err(m) => Err(m),
            }
        },
        _ => Ok((e, env, g)),
    }
}

/// Evaluates `items[i..]` in turn, each in the bindings the one before left.
pub open spec fn eval_each(items: Seq<Sexp>, i: int, env: Seq<(Seq<char>, Sexp)>, g: int) -> Result<
    (Seq<Sexp>, Seq<(Seq<char>, Sexp)>, int),
    Seq<char>,
>
    decreases items, 0int, items.len() - i,
{
    if i < 0 || i >= items.len() {
        Ok((Seq::empty(), env, g))
    } else {
        match eval_in(items[i], env, g) {
            Err(m) => Err(m),
            Ok((v, env2, g2)) => match eval_each(items, i + 1, env2, g2) {
                Err(m) => Err(m),
                Ok((vs, env3, g3)) => Ok((seq![v] + vs, env3, g3)),
            },
        }
    }
}

/// Evaluates in a copy of the bindings: the value and the counter after.
pub open spec fn eval_fresh(e: Sexp, env: Seq<(Seq<char>, Sexp)>, g: int) -> Result<(Sexp, int), Seq<char>>
    decreases e, 1int, 0int,
{
    match eval_in(e, env, g) {
        Ok((v, env2, g2)) => Ok((v, g2)),
        Err(m) => Err(m),
    }
}

/// Quasi-quotation: the form itself, except that `(uq x)` is replaced by
/// the value of `x`, and `(uqs x)` inside a list by the items of the list
/// that `x` evaluates to.
pub open spec fn quasi(e: Sexp, env: Seq<(Seq<char>, Sexp)>, g: int) -> Result<(Sexp, int), Seq<char>>
    decreases e, 2int, 0int,
{
    match e {
        Sexp::List(items) => if headed(items, "uq"@) {
            if items.len() != 2 {
                Err("(uq ...) expects exactly one expression"@)
            } else {
                eval_fresh(items[1], env, g)
            }
        } else {
            match quasi_each(items, 0, env, g) {
                Ok((vals, g2)) => Ok((Sexp::List(vals), g2)),
                Err(m) => Err(m),
            }
        },
        _ => Ok((e, g)),
    }
}

/// Quasi-quotes `items[i..]` in turn, splicing each `(uqs x)`.
pub open spec fn quasi_each(items: Seq<Sexp>, i: int, env: Seq<(Seq<char>, Sexp)>, g: int) -> Result<
    (Seq<Sexp>, int),
    Seq<char>,
>
    decreases items, 2int, items.len() - i,
{
    if i < 0 || i >= items.len() {
        Ok((Seq::empty(), g))
    } else if items[i] is List && headed(items[i]->List_0, "uqs"@) {
        let si = items[i]->List_0;
        if si.len() != 2 {
            Err("(uqs ...) expects exactly one expression"@)
        } else {
            match eval_fresh(si[1], env, g) {
                Err(m) => Err(m),
                Ok((spliced, g2)) => match spliced {
                    Sexp::List(parts) => match quasi_each(items, i + 1, env, g2) {
                        Err(m) => Err(m),
                        Ok((vs, g3)) => Ok((parts + vs, g3)),
                    },
                    _ => Err("(uqs ...) expected a syntax list to splice, got "@ + sexp_text(spliced)),
                },
            }
        }
    } else {
        match quasi(items[i], env, g) {
            Err(m) => Err(m),
            Ok((v, g2)) => match quasi_each(items, i + 1, env, g2) {
                Err(m) => Err(m),
                Ok((vs, g3)) => Ok((seq![v] + vs, g3)),
            },
        }
    }
}

/// The text of a count, as the error messages write it.
pub open spec fn count_spec(n: int) -> Seq<char> {
    int_text(
        if n <= i64::MAX {
            n
        } else {
            i64::MAX as int
        },
    )
}

/// How many arguments a clause takes: `n`, or `n+` with a rest parameter.
pub open spec fn clause_arity(c: ClauseSpec) -> Seq<char> {
    if c.rest is Some {
        count_spec(c.params.len() as int).push('+')
    } else {
        count_spec(c.params.len() as int)
    }
}

/// The arities of the clauses, in clause order.
pub open spec fn arities(def: Seq<ClauseSpec>) -> Seq<Seq<char>> {
    def.map_values(|c: ClauseSpec| clause_arity(c))
}

/// `x` inserted into `s` after every element it does not sort before.
pub open spec fn insert_text(s: Seq<Seq<char>>, x: Seq<char>) -> Seq<Seq<char>>
    decreases s.len(),
{
    if s.len() > 0 && text_less(x, s.last()) {
        insert_text(s.drop_last(), x).push(s.last())
    } else {
        s.push(x)
    }
}

/// The texts in ascending order.
pub open spec fn sorted_texts(s: Seq<Seq<char>>) -> Seq<Seq<char>>
    decreases s.len(),
{
    if s.len() == 0 {
        s
    } else {
        insert_text(sorted_texts(s.drop_last()), s.last())
    }
}

/// The texts with each run of equal neighbours kept once.
pub open spec fn dedup_texts(s: Seq<Seq<char>>) -> Seq<Seq<char>>
    decreases s.len(),
{
    if s.len() == 0 {
        s
    } else if dedup_texts(s.drop_last()).len() > 0 && dedup_texts(s.drop_last()).last() == s.last() {
        dedup_texts(s.drop_last())
    } else {
        dedup_texts(s.drop_last()).push(s.last())
    }
}

/// The texts joined by `, `.
pub open spec fn comma_joined(s: Seq<Seq<char>>) -> Seq<char>
    decreases s.len(),
{
    if s.len() == 0 {
        Seq::empty()
    } else if s.len() == 1 {
        s[0]
    } else {
        comma_joined(s.drop_last()) + ", "@ + s.last()
    }
}

/// The first clause that takes `n` arguments.
pub open spec fn fitting_clause(def: Seq<ClauseSpec>, n: int, c: int) -> Option<int>
    decreases def.len() - c,
{
    if c < 0 || c >= def.len() {
        None
    } else if (if def[c].rest is Some {
        n >= def[c].params.len()
    } else {
        n == def[c].params.len()
    }) {
        Some(c)
    } else {
        fitting_clause(def, n, c + 1)
    }
}

/// The bindings of the first `p` parameters of a clause to the arguments.
pub open spec fn param_bindings(params: Seq<Seq<char>>, args: Seq<Sexp>, p: int) -> Seq<(Seq<char>, Sexp)>
    decreases p,
{
    if p <= 0 || p > params.len() || p > args.len() {
        Seq::empty()
    } else {
        bind(param_bindings(params, args, p - 1), params[p - 1], args[p - 1])
    }
}

/// The bindings a clause's body is evaluated in: each parameter to its
/// argument, and the rest parameter to the list of the arguments left.
pub open spec fn call_bindings(c: ClauseSpec, args: Seq<Sexp>) -> Seq<(Seq<char>, Sexp)> {
    let n = if c.params.len() < args.len() {
        c.params.len() as int
    } else {
        args.len() as int
    };
    let b = param_bindings(c.params, args, n);
    match c.rest {
        Some(r) => bind(b, r, Sexp::List(args.subrange(c.params.len() as int, args.len() as int))),
        None => b,
    }
}

/// Expands one call of the macro `name` with clauses `def` on `args`: the
/// body of the first clause that takes as many arguments, evaluated with
/// the parameters bound.
pub open spec fn expand_call(name: Seq<char>, def: Seq<ClauseSpec>, args: Seq<Sexp>, g: int) -> Result<
    (Sexp, int),
    Seq<char>,
> {
    let call = sexp_text(Sexp::List(seq![Sexp::Word(name)] + args));
    match fitting_clause(def, args.len() as int, 0) {
        None => Err(
            "Macro '"@ + name + "' expected one of ["@ + comma_joined(
                dedup_texts(sorted_texts(arities(def))),
            ) + "] args, got "@ + count_spec(args.len() as int) + " in call "@ + call,
        ),
        Some(c) => match eval_fresh(def[c].body, call_bindings(def[c], args), g) {
            Ok((v, g2)) => Ok((v, g2)),
            Err(m) => Err("Macro '"@ + name + "' expansion failed for call "@ + call + ": "@ + m),
        },
    }
}

/// One step of expansion: a call of a macro of `table` is expanded once,
/// anything else is itself.
pub open spec fn expand_once(e: Sexp, table: Seq<(Seq<char>, Seq<ClauseSpec>)>, g: int) -> Result<
    (Sexp, int),
    Seq<char>,
> {
    match e {
        Sexp::List(items) => if items.len() > 0 && items[0] is Word && lookup(
            table,
            items[0]->Word_0,
        ) is Some {
            expand_call(items[0]->Word_0, lookup(table, items[0]->Word_0)->0, items.drop_first(), g)
        } else {
            Ok((e, g))
        },
        _ => Ok((e, g)),
    }
}

/// The code of a character, as an Int.
pub open spec fn char_code(c: char) -> int {
    ((c as u32) as i32) as int
}

/// The `(string c ...)` literal that spells the rendering of `e`, each
/// character by its code.
pub open spec fn string_literal(e: Sexp) -> Sexp {
    Sexp::List(seq![Sexp::Word("string"@)] + sexp_text(e).map_values(|c: char| Sexp::Int(char_code(c))))
}

/// Expands every macro call of `table` in `e`, at nesting `depth`: a call
/// is expanded and the result expanded again one level deeper;
/// `(macroexpand x)` and `(macroexpand-1 x)` become the string of the full
/// or one-step expansion of `x`; a compile-time form outside a macro body
/// is an error; past the maximum depth expansion fails.
pub open spec fn expand_in(e: Sexp, table: Seq<(Seq<char>, Seq<ClauseSpec>)>, g: int, depth: int) -> Result<
    (Sexp, int),
    Seq<char>,
>
    decreases MAX_MACRO_EXPANSION_DEPTH + 1 - depth, e, 0int,
{
    if depth > MAX_MACRO_EXPANSION_DEPTH {
        Err("Macro expansion exceeded maximum depth"@)
    } else {
        match e {
            Sexp::List(items) => if items.len() == 0 {
                Ok((e, g))
            } else if items[0] is Word {
                let head = items[0]->Word_0;
                if head == "quote"@ || head == "qq"@ || head == "uq"@ || head == "uqs"@ || head
                    == "gensym"@ {
                    Err("Compile-time form '"@ + head + "' can only appear inside letmacro bodies"@)
                } else if head == "macroexpand-1"@ {
                    if items.len() != 2 {
                        Err("(macroexpand-1 ...) expects exactly one expression"@)
                    } else {
                        match expand_once(items[1], table, g) {
                            Ok((x, g2)) => Ok((string_literal(x), g2)),
                            Err(m) => Err(m),
                        }
                    }
                } else if head == "macroexpand"@ {
                    if items.len() != 2 {
                        Err("(macroexpand ...) expects exactly one expression"@)
                    } else {
                        match expand_in(items[1], table, g, depth + 1) {
                            Ok((x, g2)) => Ok((string_literal(x), g2)),
                            Err(m) => Err(m),
                        }
                    }
                } else if lookup(table, head) is Some {
                    match expand_call(head, lookup(table, head)->0, items.drop_first(), g) {
                        Ok((x, g2)) => expand_in(x, table, g2, depth + 1),
                        Err(m) => Err(m),
                    }
                } else {
                    match expand_each(items, 0, table, g, depth) {
                        Ok((xs, g2)) => Ok((Sexp::List(xs), g2)),
                        Err(m) => Err(m),
                    }
                }
            } else {
                match expand_each(items, 0, table, g, depth) {
                    Ok((xs, g2)) => Ok((Sexp::List(xs), g2)),
                    Err(m) => Err(m),
                }
            },
            _ => Ok((e, g)),
        }
    }
}

/// Expands `items[i..]` in turn at the same depth.
pub open spec fn expand_each(
    items: Seq<Sexp>,
    i: int,
    table: Seq<(Seq<char>, Seq<ClauseSpec>)>,
    g: int,
    depth: int,
) -> Result<(Seq<Sexp>, int), Seq<char>>
    decreases MAX_MACRO_EXPANSION_DEPTH + 1 - depth, items, items.len() - i,
{
    if depth > MAX_MACRO_EXPANSION_DEPTH || i < 0 || i >= items.len() {
        Ok((Seq::empty(), g))
    } else {
        match expand_in(items[i], table, g, depth) {
            Err(m) => Err(m),
            Ok((x, g2)) => match expand_each(items, i + 1, table, g2, depth) {
                Err(m) => Err(m),
                Ok((xs, g3)) => Ok((seq![x] + xs, g3)),
            },
        }
    }
}

/// Expands each top-level form in turn, the gensym counter starting at 0.
pub open spec fn expand_forms(forms: Seq<Sexp>, table: Seq<(Seq<char>, Seq<ClauseSpec>)>) -> Result<
    Seq<Sexp>,
    Seq<char>,
> {
    match expand_each(forms, 0, table, 0, 0) {
        Ok((xs, g)) => Ok(xs),
        Err(m) => Err(m),
    }
}

/// The error for a malformed definition of the macro `name`.
pub open spec fn definition_error(name: Seq<char>, what: Seq<char>) -> Seq<char> {
    "letmacro '"@ + name + what
}

/// The parameter list `params[idx..]` of a macro clause, after the words
/// `names` read so far: plain words, then optionally `. rest`.
pub open spec fn params_from(params: Seq<Sexp>, idx: int, name: Seq<char>, names: Seq<Seq<char>>) -> Result<
    (Seq<Seq<char>>, Option<Seq<char>>),
    Seq<char>,
>
    decreases params.len() - idx,
{
    if idx < 0 || idx >= params.len() {
        Ok((names, None))
    } else if params[idx] == Sexp::Word("."@) {
        if idx + 1 >= params.len() {
            Err(definition_error(name, "' has '.' without a trailing rest parameter"@))
        } else if params[idx + 1] is Word {
            if idx + 2 != params.len() {
                Err(definition_error(name, "' rest parameter must be the last parameter"@))
            } else {
                Ok((names, Some(params[idx + 1]->Word_0)))
            }
        } else {
            Err(definition_error(name, "' rest parameter must be a simple word"@))
        }
    } else if params[idx] is Word {
        params_from(params, idx + 1, name, names.push(params[idx]->Word_0))
    } else {
        Err(definition_error(name, "' only supports simple word parameters for now"@))
    }
}

/// A clause from a parameter list and a body.
pub open spec fn make_clause(
    params: Result<(Seq<Seq<char>>, Option<Seq<char>>), Seq<char>>,
    body: Sexp,
) -> Result<ClauseSpec, Seq<char>> {
    match params {
        Ok((ps, rest)) => Ok(ClauseSpec { params: ps, rest, body }),
        Err(m) => Err(m),
    }
}

/// The one clause of a macro bound to `(lambda params... body)`.
pub open spec fn lambda_clause(e: Sexp, name: Seq<char>) -> Result<ClauseSpec, Seq<char>> {
    match e {
        Sexp::List(items) => if items.len() >= 2 && headed(items, "lambda"@) {
            make_clause(
                params_from(items.subrange(1, items.len() - 1), 0, name, Seq::empty()),
                items[items.len() - 1],
            )
        } else {
            Err(definition_error(name, "' must be bound to a lambda"@))
        },
        _ => Err(definition_error(name, "' must be bound to a lambda"@)),
    }
}

/// A clause `((params...) body)` of a macro with several clauses.
pub open spec fn listed_clause(e: Sexp, name: Seq<char>) -> Result<ClauseSpec, Seq<char>> {
    match e {
        Sexp::List(items) => if items.len() != 2 {
            Err(definition_error(name, "' clause must have exactly a parameter list and body"@))
        } else {
            match items[0] {
                Sexp::List(ps) => make_clause(params_from(ps, 0, name, Seq::empty()), items[1]),
                _ => Err(definition_error(name, "' clause parameter list must be parenthesized"@)),
            }
        },
        _ => Err(definition_error(name, "' clause must look like ((params...) body)"@)),
    }
}

/// The clauses `exprs[k..]`, each `((params...) body)`.
pub open spec fn clauses_from(exprs: Seq<Sexp>, k: int, name: Seq<char>) -> Result<Seq<ClauseSpec>, Seq<char>>
    decreases exprs.len() - k,
{
    if k < 0 || k >= exprs.len() {
        Ok(Seq::empty())
    } else {
        match listed_clause(exprs[k], name) {
            Err(m) => Err(m),
            Ok(c) => match clauses_from(exprs, k + 1, name) {
                Err(m) => Err(m),
                Ok(cs) => Ok(seq![c] + cs),
            },
        }
    }
}

/// The clauses of `(letmacro name exprs...)`: a lambda alone, or several
/// listed clauses.
pub open spec fn macro_clauses(exprs: Seq<Sexp>, name: Seq<char>) -> Result<Seq<ClauseSpec>, Seq<char>> {
    if exprs.len() == 0 {
        Err(definition_error(name, "' requires a body"@))
    } else if exprs.len() == 1 {
        match lambda_clause(exprs[0], name) {
            Ok(c) => Ok(seq![c]),
            Err(m) => Err(m),
        }
    } else {
        clauses_from(exprs, 0, name)
    }
}

/// Takes the macro definitions out of `forms[k..]`, recording them in
/// `table` (a later definition of a name replaces the earlier): the forms
/// left and the table.
pub open spec fn split_from(forms: Seq<Sexp>, k: int, table: Seq<(Seq<char>, Seq<ClauseSpec>)>) -> Result<
    (Seq<Sexp>, Seq<(Seq<char>, Seq<ClauseSpec>)>),
    Seq<char>,
>
    decreases forms.len() - k,
{
    if k < 0 || k >= forms.len() {
        Ok((Seq::empty(), table))
    } else if is_macro_definition(forms[k]) {
        let items = forms[k]->List_0;
        let name = items[1]->Word_0;
        match macro_clauses(items.subrange(2, items.len() as int), name) {
            Err(m) => Err(m),
            Ok(def) => split_from(forms, k + 1, bind(table, name, def)),
        }
    } else {
        match split_from(forms, k + 1, table) {
            Err(m) => Err(m),
            Ok((rest, t)) => Ok((seq![forms[k]] + rest, t)),
        }
    }
}

/// What the program and library become once macros are collected and
/// expanded: the library's definitions are read first, then the program's
/// (its top-level `do` forms spliced in); both are then expanded with all
/// of them.
pub open spec fn prepared(program: Seq<Sexp>, library: Seq<Sexp>) -> Result<(Seq<Sexp>, Seq<Sexp>), Seq<char>> {
    match split_from(library, 0, Seq::empty()) {
        Err(m) => Err(m),
        Ok((lib_forms, t1)) => match split_from(flat_dos(program), 0, t1) {
            Err(m) => Err(m),
            Ok((prog_forms, t2)) => match expand_forms(lib_forms, t2) {
                Err(m) => Err(m),
                Ok(lib_expanded) => match expand_forms(prog_forms, t2) {
                    Err(m) => Err(m),
                    Ok(prog_expanded) => Ok((prog_expanded, lib_expanded)),
                },
            },
        },
    }
}

/// Past bindings of other names, the lookup continues in the rest.
pub proof fn lemma_lookup_skip<V>(env: Seq<(Seq<char>, V)>, name: Seq<char>, k: int)
    requires
        0 <= k <= env.len(),
        forall|j: int| 0 <= j < k ==> (#[trigger] env[j]).0 != name,
    ensures
        lookup(env, name) == lookup(env.skip(k), name),
    decreases k,
{
    if k > 0 {
        assert(env[0].0 != name);
        assert forall|j: int| 0 <= j < k - 1 implies (#[trigger] env.drop_first()[j]).0 != name by {
            assert(env.drop_first()[j] == env[j + 1]);
        }
        lemma_lookup_skip(env.drop_first(), name, k - 1);
        assert(env.drop_first().skip(k - 1) =~= env.skip(k));
    } else {
        assert(env.skip(0) =~= env);
    }
}

/// Binding a name whose first binding is at `k` replaces that binding;
/// binding a name not bound adds it at the end.
pub proof fn lemma_bind_at<V>(env: Seq<(Seq<char>, V)>, name: Seq<char>, value: V, k: int)
    requires
        0 <= k <= env.len(),
        forall|j: int| 0 <= j < k ==> (#[trigger] env[j]).0 != name,
        k < env.len() ==> env[k].0 == name,
    ensures
        bind(env, name, value) == (if k < env.len() {
            env.update(k, (name, value))
        } else {
            env.push((name, value))
        }),
    decreases k,
{
    if k > 0 {
        assert(env[0].0 != name);
        assert forall|j: int| 0 <= j < k - 1 implies (#[trigger] env.drop_first()[j]).0 != name by {
            assert(env.drop_first()[j] == env[j + 1]);
        }
        lemma_bind_at(env.drop_first(), name, value, k - 1);
        if k < env.len() {
            assert(seq![env[0]] + env.drop_first().update(k - 1, (name, value)) =~= env.update(
                k,
                (name, value),
            ));
        } else {
            assert(seq![env[0]] + env.drop_first().push((name, value)) =~= env.push((name, value)));
        }
    } else if env.len() == 0 {
        assert(seq![(name, value)] =~= env.push((name, value)));
    }
}

/// The expression bound to `name`.
pub fn binding_get<'a>(b: &'a Bindings, name: &Vec<char>) -> (r: Option<&'a Expression>)
    ensures
        r is Some <==> exists|k: int| 0 <= k < b@.len() && (#[trigger] b@[k]).0@ == name@,
        match r {
            Some(e) => lookup(env_view(b@), name@) == Some(shape(*e)),
            None => lookup(env_view(b@), name@) is None,
        },
{
    let ghost view = env_view(b@);
    let mut k: usize = 0;
    while k < b.len()
        invariant
            k <= b.len(),
            view == env_view(b@),
            forall|j: int| 0 <= j < k ==> (#[trigger] b@[j]).0@ != name@,
        decreases b.len() - k,
    {
        if text_eq(&b[k].0, name) {
            proof {
                assert forall|j: int| 0 <= j < k implies (#[trigger] view[j]).0 != name@ by {
                    assert(view[j].0 == b@[j].0@);
                }
                lemma_lookup_skip(view, name@, k as int);
                assert(view.skip(k as int)[0] == view[k as int]);
            }
            return Some(&b[k].1);
        }
        k += 1;
    }
    proof {
        assert forall|j: int| 0 <= j < k implies (#[trigger] view[j]).0 != name@ by {
            assert(view[j].0 == b@[j].0@);
        }
        lemma_lookup_skip(view, name@, k as int);
        assert(view.skip(k as int).len() == 0);
    }
    None
}

/// Binds `name` to `value`, replacing an earlier binding of the name.
pub fn binding_insert(b: &mut Bindings, name: Vec<char>, value: Expression)
    ensures
        exists|k: int| 0 <= k < final(b)@.len() && (#[trigger] final(b)@[k]).0@ == name@,
        env_view(final(b)@) == bind(env_view(old(b)@), name@, shape(value)),
{
    let ghost view = env_view(b@);
    let ghost n = name@;
    let ghost v = shape(value);
    let mut k: usize = 0;
    while k < b.len()
        invariant
            k <= b.len(),
            b@ == old(b)@,
            view == env_view(b@),
            forall|j: int| 0 <= j < k ==> (#[trigger] b@[j]).0@ != n,
        decreases b.len() - k,
    {
        if text_eq(&b[k].0, &name) {
            proof {
                assert forall|j: int| 0 <= j < k implies (#[trigger] view[j]).0 != n by {
                    assert(view[j].0 == b@[j].0@);
                }
                lemma_bind_at(view, n, v, k as int);
            }
            b.set(k, (name, value));
            assert(b@[k as int].0@ == n);
            assert(env_view(b@) =~= view.update(k as int, (n, v)));
            return;
        }
        k += 1;
    }
    proof {
        assert forall|j: int| 0 <= j < k implies (#[trigger] view[j]).0 != n by {
            assert(view[j].0 == b@[j].0@);
        }
        lemma_bind_at(view, n, v, k as int);
    }
    b.push((name, value));
    assert(b@[b@.len() - 1].0@ == n);
    assert(env_view(b@) =~= view.push((n, v)));
}

fn copy_bindings(b: &Bindings) -> (r: Bindings)
    ensures
        r@.len() == b@.len(),
        env_view(r@) == env_view(b@),
{
    let mut out: Bindings = Vec::new();
    let mut k: usize = 0;
    while k < b.len()
        invariant
            k <= b.len(),
            out@.len() == k,
            env_view(out@) == env_view(b@).take(k as int),
        decreases b.len() - k,
    {
        let ghost before = out@;
        out.push((copy_text(&b[k].0), copy_expr(&b[k].1)));
        assert(env_view(out@) =~= env_view(b@).take(k + 1));
        k += 1;
    }
    assert(env_view(b@).take(k as int) =~= env_view(b@));
    out
}

/// Macro definitions by name; a later definition replaces the earlier.
pub type MacroTable = Vec<(Vec<char>, MacroDef)>;

fn macro_get<'a>(m: &'a MacroTable, name: &Vec<char>) -> (r: Option<&'a MacroDef>)
    ensures
        m@.len() == 0 ==> r is None,
        match r {
            Some(d) => lookup(table_view(m@), name@) == Some(def_view(*d)),
            None => lookup(table_view(m@), name@) is None,
        },
{
    let ghost view = table_view(m@);
    let mut k: usize = 0;
    while k < m.len()
        invariant
            k <= m.len(),
            view == table_view(m@),
            forall|j: int| 0 <= j < k ==> (#[trigger] m@[j]).0@ != name@,
        decreases m.len() - k,
    {
        if text_eq(&m[k].0, name) {
            proof {
                assert forall|j: int| 0 <= j < k implies (#[trigger] view[j]).0 != name@ by {
                    assert(view[j].0 == m@[j].0@);
                }
                lemma_lookup_skip(view, name@, k as int);
                assert(view.skip(k as int)[0] == view[k as int]);
            }
            return Some(&m[k].1);
        }
        k += 1;
    }
    proof {
        assert forall|j: int| 0 <= j < k implies (#[trigger] view[j]).0 != name@ by {
            assert(view[j].0 == m@[j].0@);
        }
        lemma_lookup_skip(view, name@, k as int);
        assert(view.skip(k as int).len() == 0);
    }
    None
}

fn macro_insert(m: &mut MacroTable, name: Vec<char>, def: MacroDef)
    ensures
        table_view(final(m)@) == bind(table_view(old(m)@), name@, def_view(def)),
{
    let ghost view = table_view(m@);
    let ghost n = name@;
    let ghost v = def_view(def);
    let mut k: usize = 0;
    while k < m.len()
        invariant
            k <= m.len(),
            m@ == old(m)@,
            view == table_view(m@),
            forall|j: int| 0 <= j < k ==> (#[trigger] m@[j]).0@ != n,
        decreases m.len() - k,
    {
        if text_eq(&m[k].0, &name) {
            proof {
                assert forall|j: int| 0 <= j < k implies (#[trigger] view[j]).0 != n by {
                    assert(view[j].0 == m@[j].0@);
                }
                lemma_bind_at(view, n, v, k as int);
            }
            m.set(k, (name, def));
            assert(table_view(m@) =~= view.update(k as int, (n, v)));
            return;
        }
        k += 1;
    }
    proof {
        assert forall|j: int| 0 <= j < k implies (#[trigger] view[j]).0 != n by {
            assert(view[j].0 == m@[j].0@);
        }
        lemma_bind_at(view, n, v, k as int);
    }
    m.push((name, def));
    assert(table_view(m@) =~= view.push((n, v)));
}

fn named_error(before: &str, name: &Vec<char>, after: &str) -> (r: Vec<char>)
    ensures
        r@ == before@ + name@ + after@,
{
    let mut out = chars_of(before);
    push_text(&mut out, name);
    push_str(&mut out, after);
    out
}

/// The value of an optional name.
pub open spec fn name_view(n: Option<Vec<char>>) -> Option<Seq<char>> {
    match n {
        Some(t) => Some(t@),
        None => None,
    }
}

/// Reads a clause's parameter list.
fn parse_macro_param_list(params: &[Expression], macro_name: &Vec<char>) -> (r: Result<
    (Vec<Vec<char>>, Option<Vec<char>>),
    Vec<char>,
>)
    ensures
        match (r, params_from(shapes(params@), 0, macro_name@, Seq::empty())) {
            (Ok((names, rest)), Ok((sn, sr))) => texts_view(names@) == sn && name_view(rest) == sr,
            (Err(m), Err(t)) => m@ == t,
            _ => false,
        },
{
    let ghost ps = shapes(params@);
    proof {
        lemma_shapes(params@);
    }
    let mut names: Vec<Vec<char>> = Vec::new();
    let mut idx: usize = 0;
    proof {
        assert(texts_view(names@) =~= Seq::<Seq<char>>::empty());
    }
    while idx < params.len()
        invariant
            idx <= params@.len(),
            ps == shapes(params@),
            ps.len() == params@.len(),
            forall|m: int| 0 <= m < params@.len() ==> #[trigger] ps[m] == shape(params@[m]),
            params_from(ps, 0, macro_name@, Seq::empty()) == params_from(
                ps,
                idx as int,
                macro_name@,
                texts_view(names@),
            ),
        decreases params.len() - idx,
    {
        proof {
            assert(ps[idx as int] == shape(params@[idx as int]));
            if idx + 1 < params@.len() {
                assert(ps[idx + 1] == shape(params@[idx + 1]));
            }
        }
        if is_word(&params[idx], ".") {
            if idx + 1 >= params.len() {
                return Err(
                    named_error(
                        "letmacro '",
                        macro_name,
                        "' has '.' without a trailing rest parameter",
                    ),
                );
            }
            match &params[idx + 1] {
                Expression::Word(rest_name) => {
                    if idx + 2 != params.len() {
                        return Err(
                            named_error(
                                "letmacro '",
                                macro_name,
                                "' rest parameter must be the last parameter",
                            ),
                        );
                    }
                    return Ok((names, Some(copy_text(rest_name))));
                },
                _ => {
                    return Err(
                        named_error(
                            "letmacro '",
                            macro_name,
                            "' rest parameter must be a simple word",
                        ),
                    );
                },
            }
        }
        match &params[idx] {
            Expression::Word(name) => {
                let ghost before = texts_view(names@);
                names.push(copy_text(name));
                assert(texts_view(names@) =~= before.push(name@));
            },
            _ => {
                return Err(
                    named_error(
                        "letmacro '",
                        macro_name,
                        "' only supports simple word parameters for now",
                    ),
                );
            },
        }
        idx += 1;
    }
    Ok((names, None))
}

/// Reads the one clause of a macro bound to a lambda.
fn parse_macro_lambda(expr: &Expression, macro_name: &Vec<char>) -> (r: Result<MacroClause, Vec<char>>)
    ensures
        match (r, lambda_clause(shape(*expr), macro_name@)) {
            (Ok(c), Ok(sc)) => clause_view(c) == sc,
            (Err(m), Err(t)) => m@ == t,
            _ => false,
        },
{
    match expr {
        Expression::Apply(items) => {
            proof {
                lemma_shapes(items@);
                if items@.len() > 0 {
                    assert(shapes(items@)[0] == shape(items@[0]));
                }
            }
            if items.len() < 2 || !head_is(items, "lambda") {
                return Err(named_error("letmacro '", macro_name, "' must be bound to a lambda"));
            }
            let params = &items.as_slice()[1..items.len() - 1];
            proof {
                assert(params@ == items@.subrange(1, items@.len() - 1));
                lemma_shapes(params@);
                assert(shapes(params@) =~= shapes(items@).subrange(1, items@.len() - 1));
                assert(shapes(items@)[items@.len() - 1] == shape(items@[items@.len() - 1]));
            }
            let (params, rest_param) = parse_macro_param_list(params, macro_name)?;
            let body = copy_expr(&items[items.len() - 1]);
            let c = MacroClause { params, rest_param, body };
            assert(clause_view(c).params =~= texts_view(c.params@));
            Ok(c)
        },
        _ => Err(named_error("letmacro '", macro_name, "' must be bound to a lambda")),
    }
}

/// Reads a clause `((params...) body)`.
fn parse_macro_clause(expr: &Expression, macro_name: &Vec<char>) -> (r: Result<MacroClause, Vec<char>>)
    ensures
        match (r, listed_clause(shape(*expr), macro_name@)) {
            (Ok(c), Ok(sc)) => clause_view(c) == sc,
            (Err(m), Err(t)) => m@ == t,
            _ => false,
        },
{
    match expr {
        Expression::Apply(items) => {
            proof {
                lemma_shapes(items@);
            }
            if items.len() != 2 {
                return Err(
                    named_error(
                        "letmacro '",
                        macro_name,
                        "' clause must have exactly a parameter list and body",
                    ),
                );
            }
            proof {
                assert(shapes(items@)[0] == shape(items@[0]));
                assert(shapes(items@)[1] == shape(items@[1]));
            }
            match &items[0] {
                Expression::Apply(param_items) => {
                    let (params, rest_param) = parse_macro_param_list(
                        param_items.as_slice(),
                        macro_name,
                    )?;
                    let c = MacroClause { params, rest_param, body: copy_expr(&items[1]) };
                    assert(clause_view(c).params =~= texts_view(c.params@));
                    Ok(c)
                },
                _ => Err(
                    named_error(
                        "letmacro '",
                        macro_name,
                        "' clause parameter list must be parenthesized",
                    ),
                ),
            }
        },
        _ => Err(
            named_error(
                "letmacro '",
                macro_name,
                "' clause must look like ((params...) body)",
            ),
        ),
    }
}

/// The clauses `done` followed by those of `rest`, or the failure of `rest`.
pub open spec fn then_clauses(done: Seq<ClauseSpec>, rest: Result<Seq<ClauseSpec>, Seq<char>>) -> Result<
    Seq<ClauseSpec>,
    Seq<char>,
> {
    match rest {
        Ok(cs) => Ok(done + cs),
        Err(m) => Err(m),
    }
}

/// Reads the clauses of `(letmacro name exprs...)`.
fn parse_macro_definition(exprs: &[Expression], macro_name: &Vec<char>) -> (r: Result<MacroDef, Vec<char>>)
    ensures
        match (r, macro_clauses(shapes(exprs@), macro_name@)) {
            (Ok(d), Ok(sd)) => def_view(d) == sd,
            (Err(m), Err(t)) => m@ == t,
            _ => false,
        },
{
    let ghost xs = shapes(exprs@);
    proof {
        lemma_shapes(exprs@);
    }
    if exprs.len() == 0 {
        return Err(named_error("letmacro '", macro_name, "' requires a body"));
    }
    if exprs.len() == 1 {
        assert(xs[0] == shape(exprs@[0]));
        let clause = parse_macro_lambda(&exprs[0], macro_name)?;
        let mut clauses: Vec<MacroClause> = Vec::new();
        clauses.push(clause);
        let d = MacroDef { clauses };
        assert(def_view(d) =~= seq![clause_view(d.clauses@[0])]);
        return Ok(d);
    }
    let mut clauses: Vec<MacroClause> = Vec::new();
    let mut k: usize = 0;
    proof {
        match clauses_from(xs, 0, macro_name@) {
            Ok(cs) => {
                assert(Seq::<ClauseSpec>::empty() + cs =~= cs);
            },
            Err(_) => {},
        }
    }
    while k < exprs.len()
        invariant
            k <= exprs@.len(),
            xs == shapes(exprs@),
            xs.len() == exprs@.len(),
            forall|m: int| 0 <= m < exprs@.len() ==> #[trigger] xs[m] == shape(exprs@[m]),
            clauses_from(xs, 0, macro_name@) == then_clauses(
                clauses@.map_values(|c: MacroClause| clause_view(c)),
                clauses_from(xs, k as int, macro_name@),
            ),
        decreases exprs.len() - k,
    {
        assert(xs[k as int] == shape(exprs@[k as int]));
        let c = parse_macro_clause(&exprs[k], macro_name)?;
        let ghost before = clauses@.map_values(|c: MacroClause| clause_view(c));
        let ghost cv = clause_view(c);
        clauses.push(c);
        proof {
            assert(clauses@.map_values(|c: MacroClause| clause_view(c)) =~= before.push(cv));
            match clauses_from(xs, k + 1, macro_name@) {
                Ok(cs) => {
                    assert(before + (seq![cv] + cs) =~= before.push(cv) + cs);
                },
                Err(_) => {},
            }
        }
        k += 1;
    }
    let d = MacroDef { clauses };
    proof {
        assert(d.clauses@.map_values(|c: MacroClause| clause_view(c)) + Seq::<ClauseSpec>::empty()
            =~= def_view(d));
    }
    Ok(d)
}

/// The forms `done` followed by those of `rest`, or the failure of `rest`.
pub open spec fn then_split(
    done: Seq<Sexp>,
    rest: Result<(Seq<Sexp>, Seq<(Seq<char>, Seq<ClauseSpec>)>), Seq<char>>,
) -> Result<(Seq<Sexp>, Seq<(Seq<char>, Seq<ClauseSpec>)>), Seq<char>> {
    match rest {
        Ok((fs, t)) => Ok((done + fs, t)),
        Err(m) => Err(m),
    }
}

/// A top-level macro definition `(letmacro name ...)`.
pub open spec fn is_macro_definition(e: Sexp) -> bool {
    e matches Sexp::List(items) && items.len() >= 3 && items[0] == Sexp::Word("letmacro"@)
        && items[1] is Word
}

/// Removes top-level `letmacro` forms, recording the macros they define.
/// Forms without a macro definition pass unchanged and record nothing.
pub(crate) fn split_macro_definitions(exprs: Vec<Expression>, macros: &mut MacroTable) -> (r: Result<
    Vec<Expression>,
    Vec<char>,
>)
    ensures
        (forall|k: int| 0 <= k < exprs@.len() ==> !is_macro_definition(#[trigger] shapes(exprs@)[k]))
            ==> (r matches Ok(v) && shapes(v@) == shapes(exprs@) && final(macros)@ == old(macros)@),
        match (r, split_from(shapes(exprs@), 0, table_view(old(macros)@))) {
            (Ok(v), Ok((fs, t))) => shapes(v@) == fs && table_view(final(macros)@) == t,
            (Err(m), Err(t)) => m@ == t,
            _ => false,
        },
{
    proof {
        lemma_shapes(exprs@);
        assert(shapes(Seq::<Expression>::empty()) =~= Seq::<Sexp>::empty());
    }
    let ghost plain = forall|k: int| 0 <= k < exprs@.len() ==> !is_macro_definition(#[trigger] shapes(exprs@)[k]);
    let mut out: Vec<Expression> = Vec::new();
    let mut k: usize = 0;
    proof {
        match split_from(shapes(exprs@), 0, table_view(macros@)) {
            Ok((fs, t)) => {
                assert(shapes(out@) + fs =~= fs);
            },
            Err(_) => {},
        }
    }
    while k < exprs.len()
        invariant
            k <= exprs@.len(),
            shapes(exprs@).len() == exprs@.len(),
            forall|m: int| 0 <= m < exprs@.len() ==> #[trigger] shapes(exprs@)[m] == shape(exprs@[m]),
            plain == (forall|j: int| 0 <= j < exprs@.len() ==> !is_macro_definition(#[trigger] shapes(exprs@)[j])),
            plain ==> shapes(out@) == shapes(exprs@).take(k as int) && macros@ == old(macros)@,
            split_from(shapes(exprs@), 0, table_view(old(macros)@)) == then_split(
                shapes(out@),
                split_from(shapes(exprs@), k as int, table_view(macros@)),
            ),
        decreases exprs.len() - k,
    {
        let ghost before = shapes(out@);
        let expr = &exprs[k];
        let mut is_macro = false;
        if let Expression::Apply(items) = expr {
            proof {
                lemma_shapes(items@);
                if items@.len() > 0 {
                    assert(shapes(items@)[0] == shape(items@[0]));
                }
            }
            if items.len() >= 3 && head_is(items, "letmacro") {
                if let Expression::Word(name) = &items[1] {
                    proof {
                        assert(is_macro_definition(shapes(exprs@)[k as int]));
                    }
                    let rest = &items.as_slice()[2..items.len()];
                    proof {
                        assert(rest@ == items@.subrange(2, items@.len() as int));
                        lemma_shapes(rest@);
                        assert(shapes(rest@) =~= shapes(items@).subrange(2, items@.len() as int));
                        assert(shapes(items@)[1] == shape(items@[1]));
                    }
                    let def = parse_macro_definition(rest, name)?;
                    macro_insert(macros, copy_text(name), def);
                    is_macro = true;
                }
            }
        }
        if !is_macro {
            let c = copy_expr(expr);
            proof {
                lemma_shapes_push(out@, c);
                assert(shapes(exprs@).take(k + 1) =~= shapes(exprs@).take(k as int).push(shapes(exprs@)[k as int]));
                if expr is Apply {
                    let items = expr->Apply_0;
                    lemma_shapes(items@);
                    if items@.len() > 1 {
                        assert(shapes(items@)[0] == shape(items@[0]));
                        assert(shapes(items@)[1] == shape(items@[1]));
                    }
                }
                assert(!is_macro_definition(shapes(exprs@)[k as int]));
                match split_from(shapes(exprs@), k + 1, table_view(macros@)) {
                    Ok((fs, t)) => {
                        assert(before + (seq![shape(c)] + fs) =~= before.push(shape(c)) + fs);
                    },
                    Err(_) => {},
                }
            }
            out.push(c);
        }
        k += 1;
    }
    proof {
        assert(shapes(exprs@).take(exprs@.len() as int) =~= shapes(exprs@));
        assert(shapes(out@) + Seq::<Sexp>::empty() =~= shapes(out@));
    }
    Ok(out)
}

/// `items` with the body of each top-level `(do ...)` spliced in its
/// place, recursively.
pub open spec fn flat_dos(items: Seq<Sexp>) -> Seq<Sexp>
    decreases items,
{
    if items.len() == 0 {
        Seq::empty()
    } else {
        let last = items[items.len() - 1];
        let rest = flat_dos(items.drop_last());
        match last {
            Sexp::List(xs) => if xs.len() > 0 && xs[0] == Sexp::Word("do"@) {
                proof {
                    assert(decreases_to!(items => last));
                    assert(decreases_to!(last => xs));
                }
                rest + flat_dos(xs.subrange(1, xs.len() as int))
            } else {
                rest.push(last)
            },
            _ => rest.push(last),
        }
    }
}

/// Splices the bodies of top-level `do` forms into the surrounding sequence.
pub fn flatten_top_level_dos(exprs: &Vec<Expression>) -> (r: Vec<Expression>)
    ensures
        shapes(r@) == flat_dos(shapes(exprs@)),
{
    let mut out: Vec<Expression> = Vec::new();
    flatten_into(exprs.as_slice(), &mut out);
    assert(shapes(out@) =~= Seq::<Sexp>::empty() + flat_dos(shapes(exprs@)));
    out
}

fn flatten_into(exprs: &[Expression], out: &mut Vec<Expression>)
    ensures
        shapes(final(out)@) == shapes(old(out)@) + flat_dos(shapes(exprs@)),
    decreases exprs@,
{
    let ghost base = shapes(out@);
    let mut k: usize = 0;
    proof {
        assert(exprs@.take(0) =~= Seq::<Expression>::empty());
        assert(shapes(out@) =~= base + flat_dos(shapes(exprs@.take(0))));
    }
    while k < exprs.len()
        invariant
            k <= exprs@.len(),
            shapes(out@) == base + flat_dos(shapes(exprs@.take(k as int))),
        decreases exprs.len() - k,
    {
        let ghost before = shapes(out@);
        proof {
            let t = exprs@.take(k + 1);
            assert(t.drop_last() =~= exprs@.take(k as int));
            assert(t.last() == exprs@[k as int]);
            lemma_shapes(t);
            lemma_shapes_push(exprs@.take(k as int), exprs@[k as int]);
            assert(exprs@.take(k as int).push(exprs@[k as int]) =~= t);
            assert(shapes(t).drop_last() =~= shapes(exprs@.take(k as int)));
            assert(shapes(t)[shapes(t).len() - 1] == shape(exprs@[k as int]));
        }
        match &exprs[k] {
            Expression::Apply(items) => {
                if items.len() > 0 && is_word(&items[0], "do") {
                    assert(decreases_to!(exprs@ => exprs@[k as int]));
                    let inner = &items.as_slice()[1..items.len()];
                    proof {
                        lemma_shapes(items@);
                        assert(inner@ =~= items@.subrange(1, items@.len() as int));
                        assert(shapes(inner@) =~= shapes(items@).subrange(1, items@.len() as int)) by {
                            lemma_shapes(inner@);
                        }
                        assert(shapes(items@)[0] == Sexp::Word("do"@));
                    }
                    flatten_into(inner, out);
                    proof {
                        assert(shapes(out@) =~= base + flat_dos(shapes(exprs@.take(k + 1))));
                    }
                } else {
                    proof {
                        lemma_shapes(items@);
                        if items@.len() > 0 {
                            assert(shapes(items@)[0] == shape(items@[0]));
                        }
                    }
                    let c = copy_expr(&exprs[k]);
                    proof {
                        lemma_shapes_push(out@, c);
                    }
                    out.push(c);
                    proof {
                        assert(shapes(out@) =~= base + flat_dos(shapes(exprs@.take(k + 1))));
                    }
                }
            },
            _ => {
                let c = copy_expr(&exprs[k]);
                proof {
                    lemma_shapes_push(out@, c);
                }
                out.push(c);
                proof {
                    assert(shapes(out@) =~= base + flat_dos(shapes(exprs@.take(k + 1))));
                }
            },
        }
        k += 1;
    }
    assert(exprs@.take(exprs@.len() as int) =~= exprs@);
}

/// The values `done` followed by those of `rest`, or the failure of `rest`.
pub open spec fn then_each<E>(done: Seq<Sexp>, rest: Result<(Seq<Sexp>, E, int), Seq<char>>) -> Result<
    (Seq<Sexp>, E, int),
    Seq<char>,
> {
    match rest {
        Ok((vs, e, g)) => Ok((done + vs, e, g)),
        Err(m) => Err(m),
    }
}

/// Evaluates in a copy of the bindings.
fn eval_macro_expr(expr: &Expression, bindings: &Bindings, gensym_counter: &mut usize) -> (r:
    Result<Expression, Vec<char>>)
    ensures
        match (r, eval_fresh(shape(*expr), env_view(bindings@), *old(gensym_counter) as int)) {
            (Ok(e), Ok((v, g))) => shape(e) == v && *final(gensym_counter) as int == g,
            (Err(m), Err(t)) => m@ == t,
            _ => false,
        },
    decreases *expr, 1nat,
{
    let mut local = copy_bindings(bindings);
    eval_macro_expr_in_env(expr, &mut local, gensym_counter)
}

/// Evaluates a macro-body expression in `bindings`, which a `let` extends.
fn eval_macro_expr_in_env(
    expr: &Expression,
    bindings: &mut Bindings,
    gensym_counter: &mut usize,
) -> (r: Result<Expression, Vec<char>>)
    ensures
        match (r, eval_in(shape(*expr), env_view(old(bindings)@), *old(gensym_counter) as int)) {
            (Ok(e), Ok((v, env, g))) => shape(e) == v && env_view(final(bindings)@) == env
                && *final(gensym_counter) as int == g,
            (Err(m), Err(t)) => m@ == t,
            _ => false,
        },
    decreases *expr, 0nat,
{
    match expr {
        Expression::Word(w) => {
            match binding_get(bindings, w) {
                Some(v) => Ok(copy_expr(v)),
                None => Ok(Expression::Word(copy_text(w))),
            }
        },
        Expression::Int(n) => Ok(Expression::Int(*n)),
        Expression::Dec(d) => Ok(Expression::Dec(copy_text(d))),
        Expression::Apply(items) => {
            let ghost xs = shapes(items@);
            proof {
                lemma_shapes(items@);
                assert(shape(*expr) == Sexp::List(xs));
                if items@.len() > 0 {
                    assert(xs[0] == shape(items@[0]));
                }
            }
            if items.len() == 0 {
                return Ok(Expression::Apply(Vec::new()));
            }
            if is_word(&items[0], "do") {
                if items.len() < 2 {
                    return Err(chars_of("(do ...) requires at least one expression"));
                }
                let ghost env0 = env_view(bindings@);
                let ghost g0 = *gensym_counter as int;
                let ghost mut done: Seq<Sexp> = Seq::empty();
                let mut last = Expression::Apply(Vec::new());
                let mut k: usize = 1;
                proof {
                    match eval_each(xs, 1, env0, g0) {
                        Ok((vs, e, g)) => {
                            assert(done + vs =~= vs);
                        },
                        Err(_) => {},
                    }
                }
                while k < items.len()
                    invariant
                        1 <= k <= items.len(),
                        *expr == Expression::Apply(*items),
                        xs == shapes(items@),
                        xs.len() == items@.len(),
                        forall|m: int| 0 <= m < items@.len() ==> #[trigger] xs[m] == shape(items@[m]),
                        env0 == env_view(old(bindings)@),
                        g0 == *old(gensym_counter) as int,
                        done.len() == k - 1,
                        k > 1 ==> done.last() == shape(last),
                        eval_each(xs, 1, env0, g0) == then_each(
                            done,
                            eval_each(xs, k as int, env_view(bindings@), *gensym_counter as int),
                        ),
                    decreases items.len() - k,
                {
                    assert(decreases_to!(*expr => items@[k as int]));
                    let ghost env_k = env_view(bindings@);
                    let ghost g_k = *gensym_counter as int;
                    let value = eval_macro_expr_in_env(&items[k], bindings, gensym_counter);
                    let value = match value {
                        Ok(v) => v,
                        Err(e) => {
                            return Err(e);
                        },
                    };
                    proof {
                        let next = done.push(shape(value));
                        match eval_each(xs, k + 1, env_view(bindings@), *gensym_counter as int) {
                            Ok((vs, e, g)) => {
                                assert(done + (seq![shape(value)] + vs) =~= next + vs);
                            },
                            Err(_) => {},
                        }
                        done = next;
                    }
                    last = value;
                    k += 1;
                }
                return Ok(last);
            }
            if is_word(&items[0], "let") {
                if items.len() != 3 {
                    return Err(chars_of("(let name value) expects exactly a name and value"));
                }
                match &items[1] {
                    Expression::Word(name) => {
                        assert(decreases_to!(*expr => items@[2]));
                        let value = eval_macro_expr_in_env(&items[2], bindings, gensym_counter)?;
                        binding_insert(bindings, copy_text(name), copy_expr(&value));
                        return Ok(value);
                    },
                    _ => {
                        return Err(
                            chars_of("compile-time let only supports simple word bindings for now"),
                        );
                    },
                }
            }
            if is_word(&items[0], "quote") {
                if items.len() != 2 {
                    return Err(chars_of("(quote ...) expects exactly one expression"));
                }
                return Ok(copy_expr(&items[1]));
            }
            if is_word(&items[0], "qq") {
                if items.len() != 2 {
                    return Err(chars_of("(qq ...) expects exactly one expression"));
                }
                assert(decreases_to!(*expr => items@[1]));
                return quasiquote_macro_expr(&items[1], bindings, gensym_counter);
            }
            if is_word(&items[0], "gensym") {
                if items.len() != 1 {
                    return Err(chars_of("(gensym) does not take arguments yet"));
                }
                let mut name = chars_of("__macro_");
                let n = *gensym_counter;
                let digits = if (n as u64) <= (i64::MAX as u64) {
                    int_to_text(n as i64)
                } else {
                    int_to_text(i64::MAX)
                };
                push_text(&mut name, &digits);
                *gensym_counter = if n < usize::MAX {
                    n + 1
                } else {
                    n
                };
                return Ok(Expression::Word(name));
            }
            let ghost env0 = env_view(bindings@);
            let ghost g0 = *gensym_counter as int;
            let mut out: Vec<Expression> = Vec::new();
            let mut k: usize = 0;
            proof {
                assert(shapes(out@) =~= Seq::<Sexp>::empty());
                match eval_each(xs, 0, env0, g0) {
                    Ok((vs, e, g)) => {
                        assert(shapes(out@) + vs =~= vs);
                    },
                    Err(_) => {},
                }
            }
            while k < items.len()
                invariant
                    k <= items.len(),
                    *expr == Expression::Apply(*items),
                    xs == shapes(items@),
                    xs.len() == items@.len(),
                    forall|m: int| 0 <= m < items@.len() ==> #[trigger] xs[m] == shape(items@[m]),
                    env0 == env_view(old(bindings)@),
                    g0 == *old(gensym_counter) as int,
                    eval_each(xs, 0, env0, g0) == then_each(
                        shapes(out@),
                        eval_each(xs, k as int, env_view(bindings@), *gensym_counter as int),
                    ),
                decreases items.len() - k,
            {
                assert(decreases_to!(*expr => items@[k as int]));
                let value = eval_macro_expr_in_env(&items[k], bindings, gensym_counter);
                let value = match value {
                    Ok(v) => v,
                    Err(e) => {
                        return Err(e);
                    },
                };
                proof {
                    lemma_shapes_push(out@, value);
                    match eval_each(xs, k + 1, env_view(bindings@), *gensym_counter as int) {
                        Ok((vs, e, g)) => {
                            assert(shapes(out@) + (seq![shape(value)] + vs) =~= shapes(out@).push(
                                shape(value),
                            ) + vs);
                        },
                        Err(_) => {},
                    }
                }
                out.push(value);
                k += 1;
            }
            proof {
                assert(shapes(out@) + Seq::<Sexp>::empty() =~= shapes(out@));
            }
            Ok(Expression::Apply(out))
        },
    }
}

/// The values `done` followed by those of `rest`, or the failure of `rest`.
pub open spec fn then_quasi(done: Seq<Sexp>, rest: Result<(Seq<Sexp>, int), Seq<char>>) -> Result<
    (Seq<Sexp>, int),
    Seq<char>,
> {
    match rest {
        Ok((vs, g)) => Ok((done + vs, g)),
        Err(m) => Err(m),
    }
}

/// Quasi-quotes `expr` in `bindings`.
fn quasiquote_macro_expr(expr: &Expression, bindings: &Bindings, gensym_counter: &mut usize) -> (r:
    Result<Expression, Vec<char>>)
    ensures
        match (r, quasi(shape(*expr), env_view(bindings@), *old(gensym_counter) as int)) {
            (Ok(e), Ok((v, g))) => shape(e) == v && *final(gensym_counter) as int == g,
            (Err(m), Err(t)) => m@ == t,
            _ => false,
        },
    decreases *expr, 2nat,
{
    match expr {
        Expression::Apply(items) => {
            let ghost xs = shapes(items@);
            let ghost env = env_view(bindings@);
            proof {
                lemma_shapes(items@);
                assert(shape(*expr) == Sexp::List(xs));
                if items@.len() > 0 {
                    assert(xs[0] == shape(items@[0]));
                }
            }
            if head_is(items, "uq") {
                if items.len() != 2 {
                    return Err(chars_of("(uq ...) expects exactly one expression"));
                }
                assert(decreases_to!(*expr => items@[1]));
                return eval_macro_expr(&items[1], bindings, gensym_counter);
            }
            let ghost g0 = *gensym_counter as int;
            let mut out: Vec<Expression> = Vec::new();
            let mut k: usize = 0;
            proof {
                assert(shapes(out@) =~= Seq::<Sexp>::empty());
                match quasi_each(xs, 0, env, g0) {
                    Ok((vs, g)) => {
                        assert(shapes(out@) + vs =~= vs);
                    },
                    Err(_) => {},
                }
            }
            while k < items.len()
                invariant
                    k <= items.len(),
                    *expr == Expression::Apply(*items),
                    xs == shapes(items@),
                    xs.len() == items@.len(),
                    forall|m: int| 0 <= m < items@.len() ==> #[trigger] xs[m] == shape(items@[m]),
                    env == env_view(bindings@),
                    g0 == *old(gensym_counter) as int,
                    quasi_each(xs, 0, env, g0) == then_quasi(
                        shapes(out@),
                        quasi_each(xs, k as int, env, *gensym_counter as int),
                    ),
                decreases items.len() - k,
            {
                assert(decreases_to!(*expr => items@[k as int]));
                let it = &items[k];
                let ghost before = shapes(out@);
                let ghost g_k = *gensym_counter as int;
                let mut spliced_here = false;
                if let Expression::Apply(splice_items) = it {
                    proof {
                        lemma_shapes(splice_items@);
                        assert(xs[k as int] == Sexp::List(shapes(splice_items@)));
                        if splice_items@.len() > 0 {
                            assert(shapes(splice_items@)[0] == shape(splice_items@[0]));
                        }
                    }
                    if head_is(splice_items, "uqs") {
                        if splice_items.len() != 2 {
                            return Err(chars_of("(uqs ...) expects exactly one expression"));
                        }
                        assert(decreases_to!(*it => splice_items@[1]));
                        assert(shapes(splice_items@)[1] == shape(splice_items@[1]));
                        let spliced = eval_macro_expr(&splice_items[1], bindings, gensym_counter)?;
                        match spliced {
                            Expression::Apply(parts) => {
                                let ghost ps = shapes(parts@);
                                proof {
                                    lemma_shapes(parts@);
                                }
                                let mut m: usize = 0;
                                while m < parts.len()
                                    invariant
                                        m <= parts@.len(),
                                        ps == shapes(parts@),
                                        ps.len() == parts@.len(),
                                        forall|q: int| 0 <= q < parts@.len() ==> #[trigger] ps[q] == shape(parts@[q]),
                                        shapes(out@) == before + ps.take(m as int),
                                    decreases parts.len() - m,
                                {
                                    let c = copy_expr(&parts[m]);
                                    proof {
                                        lemma_shapes_push(out@, c);
                                        assert(ps.take(m + 1) =~= ps.take(m as int).push(ps[m as int]));
                                    }
                                    out.push(c);
                                    m += 1;
                                }
                                proof {
                                    assert(ps.take(m as int) =~= ps);
                                    match quasi_each(xs, k + 1, env, *gensym_counter as int) {
                                        Ok((vs, g)) => {
                                            assert(before + (ps + vs) =~= shapes(out@) + vs);
                                        },
                                        Err(_) => {},
                                    }
                                }
                                spliced_here = true;
                            },
                            other => {
                                let mut msg = chars_of(
                                    "(uqs ...) expected a syntax list to splice, got ",
                                );
                                let rendered = other.lisp_chars();
                                proof {
                                    lemma_lisp_text_shape(other);
                                }
                                push_text(&mut msg, &rendered);
                                return Err(msg);
                            },
                        }
                    }
                }
                if !spliced_here {
                    let value = quasiquote_macro_expr(it, bindings, gensym_counter)?;
                    proof {
                        lemma_shapes_push(out@, value);
                        match quasi_each(xs, k + 1, env, *gensym_counter as int) {
                            Ok((vs, g)) => {
                                assert(before + (seq![shape(value)] + vs) =~= before.push(shape(value)) + vs);
                            },
                            Err(_) => {},
                        }
                    }
                    out.push(value);
                }
                k += 1;
            }
            proof {
                assert(shapes(out@) + Seq::<Sexp>::empty() =~= shapes(out@));
            }
            Ok(Expression::Apply(out))
        },
        other => Ok(copy_expr(other)),
    }
}

fn count_text(n: usize) -> (r: Vec<char>)
    ensures
        r@ == count_spec(n as int),
{
    if (n as u64) <= (i64::MAX as u64) {
        int_to_text(n as i64)
    } else {
        int_to_text(i64::MAX)
    }
}

/// Sorts texts in ascending order, each element sinking past the greater
/// ones before it.
fn sort_texts(v: &mut Vec<Vec<char>>)
    ensures
        final(v)@.len() == old(v)@.len(),
        texts_view(final(v)@) == sorted_texts(texts_view(old(v)@)),
{
    let ghost orig = texts_view(v@);
    let n = v.len();
    if n == 0 {
        assert(orig =~= Seq::<Seq<char>>::empty());
        return;
    }
    let mut i: usize = 1;
    proof {
        assert(orig.take(1) =~= seq![orig[0]]);
        assert(sorted_texts(orig.take(1)) == insert_text(sorted_texts(orig.take(1).drop_last()), orig[0]));
        assert(orig.take(1).drop_last() =~= Seq::<Seq<char>>::empty());
        assert(texts_view(v@).take(1) =~= orig.take(1));
    }
    while i < n
        invariant
            v@.len() == n,
            1 <= i <= n,
            orig.len() == n,
            texts_view(v@).take(i as int) == sorted_texts(orig.take(i as int)),
            texts_view(v@).skip(i as int) == orig.skip(i as int),
        decreases n - i,
    {
        let ghost p = sorted_texts(orig.take(i as int));
        let ghost x = orig[i as int];
        let ghost rest = orig.skip(i + 1);
        proof {
            assert(texts_view(v@) =~= p + seq![x] + rest) by {
                assert(texts_view(v@) =~= texts_view(v@).take(i as int) + texts_view(v@).skip(i as int));
                assert(orig.skip(i as int) =~= seq![x] + rest);
            }
            lemma_sorted_texts_len(orig.take(i as int));
        }
        let mut j = i;
        proof {
            assert(p.take(i as int) =~= p);
            assert(insert_text(p, x) + p.subrange(i as int, i as int) =~= insert_text(p, x));
            assert(p.take(i as int) + seq![x] + p.subrange(i as int, i as int) + rest =~= p + seq![x] + rest);
        }
        while j > 0 && text_lt(&v[j], &v[j - 1])
            invariant
                v@.len() == n,
                j <= i < n,
                p.len() == i,
                texts_view(v@) == p.take(j as int) + seq![x] + p.subrange(j as int, i as int) + rest,
                insert_text(p, x) == insert_text(p.take(j as int), x) + p.subrange(j as int, i as int),
            decreases j,
        {
            proof {
                assert(texts_view(v@)[j as int] == x);
                assert(texts_view(v@)[j - 1] == p[j - 1]);
                let pj = p.take(j as int);
                assert(pj.last() == p[j - 1]);
                assert(pj.drop_last() =~= p.take(j - 1));
                assert(insert_text(pj, x) == insert_text(p.take(j - 1), x).push(p[j - 1]));
                assert(insert_text(p.take(j - 1), x).push(p[j - 1]) + p.subrange(j as int, i as int)
                    =~= insert_text(p.take(j - 1), x) + p.subrange(j - 1, i as int));
            }
            let ghost before = texts_view(v@);
            let a = copy_text(&v[j - 1]);
            let b = copy_text(&v[j]);
            v.set(j - 1, b);
            v.set(j, a);
            proof {
                assert(texts_view(v@) =~= before.update(j - 1, x).update(j as int, p[j - 1]));
                assert(before.update(j - 1, x).update(j as int, p[j - 1]) =~= p.take(j - 1) + seq![x]
                    + p.subrange(j - 1, i as int) + rest);
            }
            j -= 1;
        }
        proof {
            let pj = p.take(j as int);
            if j > 0 {
                assert(texts_view(v@)[j as int] == x);
                assert(texts_view(v@)[j - 1] == p[j - 1]);
                assert(pj.last() == p[j - 1]);
            }
            assert(insert_text(pj, x) == pj.push(x));
            assert(orig.take(i + 1).drop_last() =~= orig.take(i as int));
            assert(orig.take(i + 1).last() == x);
            assert(sorted_texts(orig.take(i + 1)) == insert_text(p, x));
            assert(texts_view(v@).take(i + 1) =~= insert_text(p, x));
            assert(texts_view(v@).skip(i + 1) =~= rest);
        }
        i += 1;
    }
    proof {
        assert(texts_view(v@).take(n as int) =~= texts_view(v@));
        assert(orig.take(n as int) =~= orig);
    }
}

/// Sorting keeps the number of texts.
proof fn lemma_sorted_texts_len(s: Seq<Seq<char>>)
    ensures
        sorted_texts(s).len() == s.len(),
    decreases s.len(),
{
    if s.len() > 0 {
        lemma_sorted_texts_len(s.drop_last());
        lemma_insert_text_len(sorted_texts(s.drop_last()), s.last());
    }
}

/// Inserting adds one text.
proof fn lemma_insert_text_len(s: Seq<Seq<char>>, x: Seq<char>)
    ensures
        insert_text(s, x).len() == s.len() + 1,
    decreases s.len(),
{
    if s.len() > 0 && text_less(x, s.last()) {
        lemma_insert_text_len(s.drop_last(), x);
    }
}

/// Expands one call of the macro `macro_name` on `args`.
fn expand_macro_call(
    macro_name: &Vec<char>,
    def: &MacroDef,
    args: &[Expression],
    gensym_counter: &mut usize,
) -> (r: Result<Expression, Vec<char>>)
    ensures
        match (r, expand_call(macro_name@, def_view(*def), shapes(args@), *old(gensym_counter) as int)) {
            (Ok(e), Ok((v, g))) => shape(e) == v && *final(gensym_counter) as int == g,
            (Err(m), Err(t)) => m@ == t,
            _ => false,
        },
{
    let ghost arg_shapes = shapes(args@);
    let ghost clauses = def_view(*def);
    proof {
        lemma_shapes(args@);
    }
    let mut call_items: Vec<Expression> = Vec::new();
    call_items.push(Expression::Word(copy_text(macro_name)));
    let mut k: usize = 0;
    proof {
        assert(shapes(call_items@) =~= seq![Sexp::Word(macro_name@)]) by {
            lemma_shapes(call_items@);
        }
        assert(arg_shapes.take(0) =~= Seq::<Sexp>::empty());
    }
    while k < args.len()
        invariant
            k <= args@.len(),
            arg_shapes == shapes(args@),
            arg_shapes.len() == args@.len(),
            forall|m: int| 0 <= m < args@.len() ==> #[trigger] arg_shapes[m] == shape(args@[m]),
            shapes(call_items@) == seq![Sexp::Word(macro_name@)] + arg_shapes.take(k as int),
        decreases args.len() - k,
    {
        let c = copy_expr(&args[k]);
        proof {
            lemma_shapes_push(call_items@, c);
            assert(seq![Sexp::Word(macro_name@)] + arg_shapes.take(k + 1) =~= (seq![
                Sexp::Word(macro_name@),
            ] + arg_shapes.take(k as int)).push(arg_shapes[k as int]));
        }
        call_items.push(c);
        k += 1;
    }
    let call_expr = Expression::Apply(call_items);
    let ghost call_text = sexp_text(Sexp::List(seq![Sexp::Word(macro_name@)] + arg_shapes));
    proof {
        assert(arg_shapes.take(args@.len() as int) =~= arg_shapes);
        lemma_lisp_text_shape(call_expr);
        assert(lisp_text(call_expr) == call_text);
    }
    let mut selected: Option<usize> = None;
    let mut c: usize = 0;
    while c < def.clauses.len()
        invariant
            c <= def.clauses@.len(),
            clauses == def_view(*def),
            clauses.len() == def.clauses@.len(),
            selected is None,
            fitting_clause(clauses, args@.len() as int, 0) == fitting_clause(clauses, args@.len() as int, c as int),
        decreases def.clauses.len() - c,
    {
        let clause = &def.clauses[c];
        proof {
            assert(clauses[c as int] == clause_view(*clause));
        }
        let fits = if clause.rest_param.is_some() {
            args.len() >= clause.params.len()
        } else {
            args.len() == clause.params.len()
        };
        if fits {
            selected = Some(c);
            break ;
        }
        c += 1;
    }
    let chosen = match selected {
        Some(c) => c,
        None => {
            let mut expected: Vec<Vec<char>> = Vec::new();
            let mut c: usize = 0;
            while c < def.clauses.len()
                invariant
                    c <= def.clauses@.len(),
                    clauses == def_view(*def),
                    clauses.len() == def.clauses@.len(),
                    texts_view(expected@) == arities(clauses).take(c as int),
                decreases def.clauses.len() - c,
            {
                let clause = &def.clauses[c];
                let mut t = count_text(clause.params.len());
                if clause.rest_param.is_some() {
                    t.push('+');
                }
                proof {
                    assert(clauses[c as int] == clause_view(*clause));
                    assert(t@ == clause_arity(clauses[c as int]));
                }
                expected.push(t);
                proof {
                    assert(texts_view(expected@) =~= arities(clauses).take(c + 1));
                }
                c += 1;
            }
            proof {
                assert(arities(clauses).take(c as int) =~= arities(clauses));
            }
            sort_texts(&mut expected);
            let ghost sorted = sorted_texts(arities(clauses));
            let mut unique: Vec<Vec<char>> = Vec::new();
            let mut m: usize = 0;
            proof {
                assert(sorted.take(0) =~= Seq::<Seq<char>>::empty());
                assert(texts_view(unique@) =~= dedup_texts(sorted.take(0)));
            }
            while m < expected.len()
                invariant
                    m <= expected@.len(),
                    texts_view(expected@) == sorted,
                    texts_view(unique@) == dedup_texts(sorted.take(m as int)),
                decreases expected.len() - m,
            {
                proof {
                    let s1 = sorted.take(m + 1);
                    assert(s1.drop_last() =~= sorted.take(m as int));
                    assert(s1.last() == expected@[m as int]@);
                    if unique@.len() > 0 {
                        assert(texts_view(unique@).last() == unique@[unique@.len() - 1]@);
                    }
                }
                if unique.len() == 0 || !text_eq(&unique[unique.len() - 1], &expected[m]) {
                    let ghost before = texts_view(unique@);
                    unique.push(copy_text(&expected[m]));
                    assert(texts_view(unique@) =~= before.push(expected@[m as int]@));
                }
                m += 1;
            }
            proof {
                assert(sorted.take(m as int) =~= sorted);
            }
            let ghost listed = texts_view(unique@);
            let mut msg = named_error("Macro '", macro_name, "' expected one of [");
            let ghost head = msg@;
            let mut m: usize = 0;
            proof {
                assert(listed.take(0) =~= Seq::<Seq<char>>::empty());
                assert(msg@ =~= head + comma_joined(listed.take(0)));
            }
            while m < unique.len()
                invariant
                    m <= unique@.len(),
                    listed == texts_view(unique@),
                    msg@ == head + comma_joined(listed.take(m as int)),
                decreases unique.len() - m,
            {
                proof {
                    let l1 = listed.take(m + 1);
                    assert(l1.drop_last() =~= listed.take(m as int));
                    assert(l1.last() == unique@[m as int]@);
                    if m == 0 {
                        assert(l1 =~= seq![unique@[0]@]);
                    }
                }
                if m > 0 {
                    push_str(&mut msg, ", ");
                }
                push_text(&mut msg, &unique[m]);
                proof {
                    if m == 0 {
                        assert(msg@ =~= head + comma_joined(listed.take(m + 1)));
                    } else {
                        assert(msg@ =~= head + comma_joined(listed.take(m + 1)));
                    }
                }
                m += 1;
            }
            proof {
                assert(listed.take(m as int) =~= listed);
            }
            push_str(&mut msg, "] args, got ");
            let n = count_text(args.len());
            push_text(&mut msg, &n);
            push_str(&mut msg, " in call ");
            let rendered = call_expr.lisp_chars();
            push_text(&mut msg, &rendered);
            proof {
                assert(fitting_clause(clauses, args@.len() as int, c as int) is None);
            }
            return Err(msg);
        },
    };
    let clause = &def.clauses[chosen];
    let ghost cv = clauses[chosen as int];
    proof {
        assert(cv == clause_view(*clause));
        assert(fitting_clause(clauses, args@.len() as int, chosen as int) == Some(chosen as int));
    }
    let mut bindings: Bindings = Vec::new();
    let mut p: usize = 0;
    proof {
        assert(env_view(bindings@) =~= Seq::<(Seq<char>, Sexp)>::empty());
    }
    while p < clause.params.len() && p < args.len()
        invariant
            p <= clause.params@.len(),
            p <= args@.len(),
            cv == clause_view(*clause),
            arg_shapes == shapes(args@),
            forall|m: int| 0 <= m < args@.len() ==> #[trigger] arg_shapes[m] == shape(args@[m]),
            env_view(bindings@) == param_bindings(cv.params, arg_shapes, p as int),
        decreases clause.params.len() - p,
    {
        let c = copy_expr(&args[p]);
        binding_insert(&mut bindings, copy_text(&clause.params[p]), c);
        proof {
            assert(cv.params[p as int] == clause.params@[p as int]@);
        }
        p += 1;
    }
    if let Some(rest_name) = &clause.rest_param {
        let mut rest: Vec<Expression> = Vec::new();
        let mut q = clause.params.len();
        proof {
            assert(shapes(rest@) =~= arg_shapes.subrange(q as int, q as int));
        }
        while q < args.len()
            invariant
                clause.params@.len() <= q <= args@.len(),
                arg_shapes == shapes(args@),
                forall|m: int| 0 <= m < args@.len() ==> #[trigger] arg_shapes[m] == shape(args@[m]),
                shapes(rest@) == arg_shapes.subrange(clause.params@.len() as int, q as int),
            decreases args.len() - q,
        {
            let c = copy_expr(&args[q]);
            proof {
                lemma_shapes_push(rest@, c);
                assert(arg_shapes.subrange(clause.params@.len() as int, q + 1) =~= arg_shapes.subrange(
                    clause.params@.len() as int,
                    q as int,
                ).push(arg_shapes[q as int]));
            }
            rest.push(c);
            q += 1;
        }
        binding_insert(&mut bindings, copy_text(rest_name), Expression::Apply(rest));
    }
    proof {
        assert(env_view(bindings@) == call_bindings(cv, arg_shapes));
    }
    match eval_macro_expr(&clause.body, &bindings, gensym_counter) {
        Ok(e) => Ok(e),
        Err(e) => {
            let mut msg = named_error("Macro '", macro_name, "' expansion failed for call ");
            let rendered = call_expr.lisp_chars();
            push_text(&mut msg, &rendered);
            push_str(&mut msg, ": ");
            push_text(&mut msg, &e);
            Err(msg)
        },
    }
}

/// The `(string c ...)` literal spelling an expression's Lisp rendering.
fn expression_to_string_literal_expr(expr: &Expression) -> (r: Expression)
    ensures
        shape(r) == string_literal(shape(*expr)),
{
    let rendered = expr.lisp_chars();
    proof {
        lemma_lisp_text_shape(*expr);
    }
    let ghost chars = sexp_text(shape(*expr));
    let ghost codes = chars.map_values(|c: char| Sexp::Int(char_code(c)));
    let mut items: Vec<Expression> = Vec::new();
    items.push(word_of("string"));
    proof {
        lemma_shapes(items@);
        assert(shapes(items@) =~= seq![Sexp::Word("string"@)] + codes.take(0));
    }
    let mut k: usize = 0;
    while k < rendered.len()
        invariant
            k <= rendered@.len(),
            rendered@ == chars,
            codes == chars.map_values(|c: char| Sexp::Int(char_code(c))),
            shapes(items@) == seq![Sexp::Word("string"@)] + codes.take(k as int),
        decreases rendered.len() - k,
    {
        let ch = rendered[k];
        let code = ch as u32;
        let item = Expression::Int(code as i32);
        proof {
            lemma_shapes_push(items@, item);
            assert(shape(item) == codes[k as int]);
            assert(seq![Sexp::Word("string"@)] + codes.take(k + 1) =~= (seq![Sexp::Word("string"@)]
                + codes.take(k as int)).push(codes[k as int]));
        }
        items.push(item);
        k += 1;
    }
    proof {
        assert(codes.take(k as int) =~= codes);
    }
    Expression::Apply(items)
}

fn macroexpand_once_expr(expr: &Expression, macros: &MacroTable, gensym_counter: &mut usize) -> (r:
    Result<Expression, Vec<char>>)
    ensures
        match (r, expand_once(shape(*expr), table_view(macros@), *old(gensym_counter) as int)) {
            (Ok(e), Ok((v, g))) => shape(e) == v && *final(gensym_counter) as int == g,
            (Err(m), Err(t)) => m@ == t,
            _ => false,
        },
{
    match expr {
        Expression::Apply(items) => {
            proof {
                lemma_shapes(items@);
                if items@.len() > 0 {
                    assert(shapes(items@)[0] == shape(items@[0]));
                    assert(shapes(items@).drop_first() =~= shapes(items@.subrange(1, items@.len() as int))) by {
                        lemma_shapes(items@.subrange(1, items@.len() as int));
                    }
                }
            }
            if items.len() == 0 {
                return Ok(copy_expr(expr));
            }
            match &items[0] {
                Expression::Word(head) => match macro_get(macros, head) {
                    Some(def) => expand_macro_call(
                        head,
                        def,
                        &items.as_slice()[1..items.len()],
                        gensym_counter,
                    ),
                    None => Ok(copy_expr(expr)),
                },
                _ => Ok(copy_expr(expr)),
            }
        },
        _ => Ok(copy_expr(expr)),
    }
}

/// The words that only a macro body may use.
pub open spec fn compile_time_word(w: Seq<char>) -> bool {
    w == "quote"@ || w == "qq"@ || w == "uq"@ || w == "uqs"@ || w == "gensym"@ || w
        == "macroexpand-1"@ || w == "macroexpand"@
}

/// A compile-time word.
pub open spec fn compile_time_head(e: Sexp) -> bool {
    match e {
        Sexp::Word(w) => compile_time_word(w),
        _ => false,
    }
}

/// No application in `e` has a compile-time word at its head.
pub open spec fn free_of_compile_time_forms(e: Sexp) -> bool
    decreases e,
{
    match e {
        Sexp::List(items) => !(items.len() > 0 && compile_time_head(items[0])) && all_free_of_compile_time_forms(
            items,
        ),
        _ => true,
    }
}

/// Each of `items` is free of compile-time forms.
pub open spec fn all_free_of_compile_time_forms(items: Seq<Sexp>) -> bool
    decreases items,
{
    if items.len() == 0 {
        true
    } else {
        all_free_of_compile_time_forms(items.drop_last()) && free_of_compile_time_forms(
            items[items.len() - 1],
        )
    }
}

proof fn lemma_all_free(items: Seq<Sexp>)
    ensures
        all_free_of_compile_time_forms(items) <==> forall|k: int|
            0 <= k < items.len() ==> #[trigger] free_of_compile_time_forms(items[k]),
    decreases items.len(),
{
    if items.len() > 0 {
        lemma_all_free(items.drop_last());
        if all_free_of_compile_time_forms(items) {
            assert forall|k: int| 0 <= k < items.len() implies #[trigger] free_of_compile_time_forms(
                items[k],
            ) by {
                if k < items.len() - 1 {
                    assert(items.drop_last()[k] == items[k]);
                }
            }
        }
        if forall|k: int| 0 <= k < items.len() ==> #[trigger] free_of_compile_time_forms(items[k]) {
            assert forall|k: int| 0 <= k < items.drop_last().len() implies #[trigger] free_of_compile_time_forms(
                items.drop_last()[k],
            ) by {
                assert(items.drop_last()[k] == items[k]);
            }
            assert(free_of_compile_time_forms(items[items.len() - 1]));
            assert(all_free_of_compile_time_forms(items.drop_last()));
        }
    }
}

fn expand_macros_expr(
    expr: &Expression,
    macros: &MacroTable,
    gensym_counter: &mut usize,
    depth: usize,
) -> (r: Result<Expression, Vec<char>>)
    requires
        depth <= MAX_MACRO_EXPANSION_DEPTH + 1,
    ensures
        macros@.len() == 0 && depth <= MAX_MACRO_EXPANSION_DEPTH && free_of_compile_time_forms(shape(*expr))
            ==> (r matches Ok(e) && shape(e) == shape(*expr)),
        match (r, expand_in(shape(*expr), table_view(macros@), *old(gensym_counter) as int, depth as int)) {
            (Ok(e), Ok((v, g))) => shape(e) == v && *final(gensym_counter) as int == g,
            (Err(m), Err(t)) => m@ == t,
            _ => false,
        },
    decreases MAX_MACRO_EXPANSION_DEPTH + 1 - depth, *expr,
{
    if depth > MAX_MACRO_EXPANSION_DEPTH {
        return Err(chars_of("Macro expansion exceeded maximum depth"));
    }
    match expr {
        Expression::Apply(items) => {
            proof {
                lemma_shapes(items@);
            }
            if items.len() == 0 {
                return Ok(copy_expr(expr));
            }
            proof {
                assert(shapes(items@)[0] == shape(items@[0]));
            }
            if let Expression::Word(head) = &items[0] {
                if text_is(head, "quote") || text_is(head, "qq") || text_is(head, "uq") || text_is(
                    head,
                    "uqs",
                ) || text_is(head, "gensym") {
                    return Err(
                        named_error(
                            "Compile-time form '",
                            head,
                            "' can only appear inside letmacro bodies",
                        ),
                    );
                }
                if text_is(head, "macroexpand-1") {
                    if items.len() != 2 {
                        return Err(chars_of("(macroexpand-1 ...) expects exactly one expression"));
                    }
                    let expanded = macroexpand_once_expr(&items[1], macros, gensym_counter)?;
                    return Ok(expression_to_string_literal_expr(&expanded));
                }
                if text_is(head, "macroexpand") {
                    if items.len() != 2 {
                        return Err(chars_of("(macroexpand ...) expects exactly one expression"));
                    }
                    let expanded = expand_macros_expr(
                        &items[1],
                        macros,
                        gensym_counter,
                        depth + 1,
                    )?;
                    return Ok(expression_to_string_literal_expr(&expanded));
                }
                if let Some(def) = macro_get(macros, head) {
                    let args = &items.as_slice()[1..items.len()];
                    proof {
                        assert(args@ == items@.subrange(1, items@.len() as int));
                        lemma_shapes(args@);
                        assert(shapes(args@) =~= shapes(items@).drop_first());
                    }
                    let expanded = expand_macro_call(head, def, args, gensym_counter)?;
                    return expand_macros_expr(&expanded, macros, gensym_counter, depth + 1);
                }
            }
            let ghost table = table_view(macros@);
            let ghost g0 = *gensym_counter as int;
            let ghost xs = shapes(items@);
            let mut out: Vec<Expression> = Vec::new();
            let mut k: usize = 0;
            proof {
                match expand_each(xs, 0, table, g0, depth as int) {
                    Ok((vs, g)) => {
                        assert(Seq::<Sexp>::empty() + vs =~= vs);
                    },
                    Err(_) => {},
                }
            }
            let ghost plain = macros@.len() == 0 && depth <= MAX_MACRO_EXPANSION_DEPTH
                && free_of_compile_time_forms(shape(*expr));
            proof {
                assert(shapes(out@) =~= shapes(items@).take(0));
                assert(shape(*expr) == Sexp::List(shapes(items@)));
                if plain {
                    let xs = shapes(items@);
                    assert(free_of_compile_time_forms(Sexp::List(xs)));
                    lemma_all_free(xs);
                }
            }
            while k < items.len()
                invariant
                    k <= items.len(),
                    *expr == Expression::Apply(*items),
                    depth <= MAX_MACRO_EXPANSION_DEPTH + 1,
                    shapes(items@).len() == items@.len(),
                    forall|m: int| 0 <= m < items@.len() ==> #[trigger] shapes(items@)[m] == shape(items@[m]),
                    plain == (macros@.len() == 0 && depth <= MAX_MACRO_EXPANSION_DEPTH
                        && free_of_compile_time_forms(shape(*expr))),
                    plain ==> forall|m: int| 0 <= m < items@.len() ==> #[trigger] free_of_compile_time_forms(
                        shapes(items@)[m],
                    ),
                    plain ==> shapes(out@) == shapes(items@).take(k as int),
                    depth <= MAX_MACRO_EXPANSION_DEPTH,
                    xs == shapes(items@),
                    table == table_view(macros@),
                    g0 == *old(gensym_counter) as int,
                    expand_each(xs, 0, table, g0, depth as int) == then_quasi(
                        shapes(out@),
                        expand_each(xs, k as int, table, *gensym_counter as int, depth as int),
                    ),
                decreases items.len() - k,
            {
                assert(decreases_to!(*expr => items@[k as int]));
                proof {
                    if plain {
                        assert(free_of_compile_time_forms(shapes(items@)[k as int]));
                    }
                }
                let x = expand_macros_expr(&items[k], macros, gensym_counter, depth);
                let x = match x {
                    Ok(x) => x,
                    Err(e) => {
                        return Err(e);
                    },
                };
                proof {
                    lemma_shapes_push(out@, x);
                    assert(shapes(items@).take(k + 1) =~= shapes(items@).take(k as int).push(shapes(items@)[k as int]));
                    match expand_each(xs, k + 1, table, *gensym_counter as int, depth as int) {
                        Ok((vs, g)) => {
                            assert(shapes(out@) + (seq![shape(x)] + vs) =~= shapes(out@).push(shape(x)) + vs);
                        },
                        Err(_) => {},
                    }
                }
                out.push(x);
                k += 1;
            }
            proof {
                assert(shapes(out@) + Seq::<Sexp>::empty() =~= shapes(out@));
            }
            proof {
                assert(shapes(items@).take(items@.len() as int) =~= shapes(items@));
            }
            Ok(Expression::Apply(out))
        },
        _ => Ok(copy_expr(expr)),
    }
}

fn expand_macros_in_program(exprs: &Vec<Expression>, macros: &MacroTable) -> (r: Result<
    Vec<Expression>,
    Vec<char>,
>)
    ensures
        macros@.len() == 0 && (forall|k: int|
            0 <= k < exprs@.len() ==> free_of_compile_time_forms(#[trigger] shapes(exprs@)[k])) ==> (r matches Ok(
            v,
        ) && shapes(v@) == shapes(exprs@)),
        match (r, expand_forms(shapes(exprs@), table_view(macros@))) {
            (Ok(v), Ok(s)) => shapes(v@) == s,
            (Err(m), Err(t)) => m@ == t,
            _ => false,
        },
{
    proof {
        lemma_shapes(exprs@);
        assert(shapes(Seq::<Expression>::empty()) =~= shapes(exprs@).take(0));
    }
    let ghost plain = macros@.len() == 0 && (forall|k: int|
        0 <= k < exprs@.len() ==> free_of_compile_time_forms(#[trigger] shapes(exprs@)[k]));
    let mut gensym_counter: usize = 0;
    let mut out: Vec<Expression> = Vec::new();
    let mut k: usize = 0;
    proof {
        match expand_each(shapes(exprs@), 0, table_view(macros@), 0, 0) {
            Ok((vs, g)) => {
                assert(shapes(out@) + vs =~= vs);
            },
            Err(_) => {},
        }
    }
    while k < exprs.len()
        invariant
            k <= exprs@.len(),
            shapes(exprs@).len() == exprs@.len(),
            forall|m: int| 0 <= m < exprs@.len() ==> #[trigger] shapes(exprs@)[m] == shape(exprs@[m]),
            plain == (macros@.len() == 0 && (forall|j: int|
                0 <= j < exprs@.len() ==> free_of_compile_time_forms(#[trigger] shapes(exprs@)[j]))),
            plain ==> shapes(out@) == shapes(exprs@).take(k as int),
            expand_each(shapes(exprs@), 0, table_view(macros@), 0, 0) == then_quasi(
                shapes(out@),
                expand_each(shapes(exprs@), k as int, table_view(macros@), gensym_counter as int, 0),
            ),
        decreases exprs.len() - k,
    {
        proof {
            if plain {
                assert(free_of_compile_time_forms(shapes(exprs@)[k as int]));
            }
        }
        let x = expand_macros_expr(&exprs[k], macros, &mut gensym_counter, 0);
        let x = match x {
            Ok(x) => x,
            Err(e) => {
                return Err(e);
            },
        };
        proof {
            lemma_shapes_push(out@, x);
            assert(shapes(exprs@).take(k + 1) =~= shapes(exprs@).take(k as int).push(shapes(exprs@)[k as int]));
            match expand_each(shapes(exprs@), k + 1, table_view(macros@), gensym_counter as int, 0) {
                Ok((vs, g)) => {
                    assert(shapes(out@) + (seq![shape(x)] + vs) =~= shapes(out@).push(shape(x)) + vs);
                },
                Err(_) => {},
            }
        }
        out.push(x);
        k += 1;
    }
    proof {
        assert(shapes(exprs@).take(exprs@.len() as int) =~= shapes(exprs@));
        assert(shapes(out@) + Seq::<Sexp>::empty() =~= shapes(out@));
    }
    Ok(out)
}

/// Collects the macros defined in the library and the program, then expands
/// every macro call in both.  Returns the expanded program and library.
/// Forms that neither define macros nor use compile-time forms.
pub open spec fn macro_free(forms: Seq<Sexp>) -> bool {
    forall|k: int| 0 <= k < forms.len() ==> !is_macro_definition(#[trigger] forms[k])
        && free_of_compile_time_forms(forms[k])
}

/// Collects the macros defined in the library and the program, then expands
/// every macro call in both.  Returns the expanded program and library.
/// Without macro definitions or compile-time forms, the program comes back
/// with its top-level `do` forms spliced in, and the library unchanged.
pub(crate) fn prepare_program_with_macros(
    program_exprs: Vec<Expression>,
    std_exprs: Vec<Expression>,
) -> (r: Result<(Vec<Expression>, Vec<Expression>), Vec<char>>)
    ensures
        macro_free(shapes(std_exprs@)) && macro_free(flat_dos(shapes(program_exprs@))) ==> (r matches Ok(
            (p, l),
        ) && shapes(p@) == flat_dos(shapes(program_exprs@)) && shapes(l@) == shapes(std_exprs@)),
        match (r, prepared(shapes(program_exprs@), shapes(std_exprs@))) {
            (Ok((p, l)), Ok((sp, sl))) => shapes(p@) == sp && shapes(l@) == sl,
            (Err(m), Err(t)) => m@ == t,
            _ => false,
        },
{
    let ghost plain = macro_free(shapes(std_exprs@)) && macro_free(flat_dos(shapes(program_exprs@)));
    proof {
        if plain {
            assert forall|k: int| 0 <= k < std_exprs@.len() implies !is_macro_definition(
                #[trigger] shapes(std_exprs@)[k],
            ) by {
                lemma_shapes(std_exprs@);
            }
        }
    }
    let mut macros: MacroTable = Vec::new();
    proof {
        assert(table_view(macros@) =~= Seq::<(Seq<char>, Seq<ClauseSpec>)>::empty());
    }
    let runtime_std = split_macro_definitions(std_exprs, &mut macros)?;
    let flat = flatten_top_level_dos(&program_exprs);
    proof {
        if plain {
            lemma_shapes(flat@);
            assert forall|k: int| 0 <= k < flat@.len() implies !is_macro_definition(
                #[trigger] shapes(flat@)[k],
            ) by {}
        }
    }
    let runtime_program = split_macro_definitions(flat, &mut macros)?;
    proof {
        if plain {
            lemma_shapes(runtime_std@);
            lemma_shapes(runtime_program@);
            assert forall|k: int| 0 <= k < runtime_std@.len() implies free_of_compile_time_forms(
                #[trigger] shapes(runtime_std@)[k],
            ) by {}
            assert forall|k: int| 0 <= k < runtime_program@.len() implies free_of_compile_time_forms(
                #[trigger] shapes(runtime_program@)[k],
            ) by {}
        }
    }
    let expanded_std = expand_macros_in_program(&runtime_std, &macros)?;
    let expanded_program = expand_macros_in_program(&runtime_program, &macros)?;
    Ok((expanded_program, expanded_std))
}

} // verus!
