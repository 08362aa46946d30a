//! Que expressions and their Lisp rendering.
use vstd::prelude::*;
use crate::text::{copy_text, int_to_text, int_text, push_text, text_is, chars_of, text_eq, text_to_string};

verus! {

/// A Que expression after reading.  Decimal literals keep the digits they
/// were written with; integers are 32-bit.
#[derive(Debug)]
pub enum Expression {
    Int(i32),
    Dec(Vec<char>),
    Word(Vec<char>),
    Apply(Vec<Expression>),
}

/// The shape of an expression, as a mathematical value: what reading and
/// building produce.
pub enum Sexp {
    Int(int),
    Dec(Seq<char>),
    Word(Seq<char>),
    List(Seq<Sexp>),
}

/// The shape of an expression.
pub open spec fn shape(e: Expression) -> Sexp
    decreases e,
{
    match e {
        Expression::Int(n) => Sexp::Int(n as int),
        Expression::Dec(d) => Sexp::Dec(d@),
        Expression::Word(w) => Sexp::Word(w@),
        Expression::Apply(items) => Sexp::List(shapes(items@)),
    }
}

/// The shapes of a sequence of expressions.
pub open spec fn shapes(items: Seq<Expression>) -> Seq<Sexp>
    decreases items,
{
    if items.len() == 0 {
        Seq::empty()
    } else {
        shapes(items.drop_last()).push(shape(items.last()))
    }
}

/// `shapes` maps each expression to its shape.
pub proof fn lemma_shapes(items: Seq<Expression>)
    ensures
        shapes(items).len() == items.len(),
        forall|k: int| 0 <= k < items.len() ==> #[trigger] shapes(items)[k] == shape(items[k]),
    decreases items.len(),
{
    if items.len() > 0 {
        lemma_shapes(items.drop_last());
        assert forall|k: int| 0 <= k < items.len() implies #[trigger] shapes(items)[k] == shape(items[k]) by {
            if k < items.len() - 1 {
                assert(items.drop_last()[k] == items[k]);
            }
        }
    }
}

/// Appending an expression appends its shape.
pub proof fn lemma_shapes_push(items: Seq<Expression>, e: Expression)
    ensures
        shapes(items.push(e)) == shapes(items).push(shape(e)),
{
    assert(items.push(e).drop_last() =~= items);
}

/// The shapes of two sequences joined are their shapes joined.
pub proof fn lemma_shapes_concat(a: Seq<Expression>, b: Seq<Expression>)
    ensures
        shapes(a + b) == shapes(a) + shapes(b),
    decreases b.len(),
{
    if b.len() == 0 {
        assert(a + b =~= a);
        assert(shapes(a) + shapes(b) =~= shapes(a));
    } else {
        lemma_shapes_concat(a, b.drop_last());
        assert((a + b).drop_last() =~= a + b.drop_last());
        assert((a + b).last() == b.last());
        assert(shapes(a) + shapes(b) =~= (shapes(a) + shapes(b.drop_last())).push(shape(b.last())));
    }
}

/// The Lisp rendering of an expression.
pub open spec fn lisp_text(e: Expression) -> Seq<char>
    decreases e,
{
    match e {
        Expression::Word(w) => w@,
        Expression::Int(n) => int_text(n as int),
        Expression::Dec(d) => d@,
        Expression::Apply(items) => if items@.len() == 0 {
            seq!['(', ')']
        } else {
            seq!['('] + lisp_items(items@) + seq![')']
        },
    }
}

/// The renderings of `items` joined by single spaces.
pub open spec fn lisp_items(items: Seq<Expression>) -> Seq<char>
    decreases items,
{
    if items.len() == 0 {
        Seq::empty()
    } else if items.len() == 1 {
        lisp_text(items[0])
    } else {
        lisp_items(items.drop_last()) + seq![' '] + lisp_text(items.last())
    }
}

/// The Lisp rendering of a shape.
pub open spec fn sexp_text(s: Sexp) -> Seq<char>
    decreases s,
{
    match s {
        Sexp::Word(w) => w,
        Sexp::Int(n) => int_text(n),
        Sexp::Dec(d) => d,
        Sexp::List(items) => if items.len() == 0 {
            seq!['(', ')']
        } else {
            seq!['('] + sexp_items(items) + seq![')']
        },
    }
}

/// The renderings of shapes joined by single spaces.
pub open spec fn sexp_items(items: Seq<Sexp>) -> Seq<char>
    decreases items,
{
    if items.len() == 0 {
        Seq::empty()
    } else if items.len() == 1 {
        sexp_text(items[0])
    } else {
        sexp_items(items.drop_last()) + seq![' '] + sexp_text(items.last())
    }
}

/// An expression renders as its shape does.
pub proof fn lemma_lisp_text_shape(e: Expression)
    ensures
        lisp_text(e) == sexp_text(shape(e)),
    decreases e,
{
    match e {
        Expression::Apply(items) => {
            lemma_lisp_items_shapes(items@);
            lemma_shapes(items@);
        },
        _ => {},
    }
}

/// A sequence of expressions renders as its shapes do.
pub proof fn lemma_lisp_items_shapes(items: Seq<Expression>)
    ensures
        lisp_items(items) == sexp_items(shapes(items)),
    decreases items,
{
    if items.len() == 1 {
        lemma_lisp_text_shape(items[0]);
        lemma_shapes(items);
    } else if items.len() > 1 {
        lemma_lisp_items_shapes(items.drop_last());
        lemma_lisp_text_shape(items.last());
        lemma_shapes(items);
        assert(shapes(items).drop_last() == shapes(items.drop_last()));
    }
}

/// The operator words `+`, `-`, `*`, `/` and `%` are five different words.
pub proof fn lemma_operator_words_differ()
    ensures
        "+"@ != "-"@,
        "+"@ != "*"@,
        "-"@ != "*"@,
        "/"@ != "+"@,
        "/"@ != "-"@,
        "/"@ != "*"@,
        "%"@ != "+"@,
        "%"@ != "-"@,
        "%"@ != "*"@,
        "%"@ != "/"@,
        "+"@.len() == 1 && "-"@.len() == 1 && "*"@.len() == 1 && "/"@.len() == 1 && "%"@.len() == 1,
{
    reveal_strlit("+");
    reveal_strlit("-");
    reveal_strlit("*");
    reveal_strlit("/");
    reveal_strlit("%");
    assert("+"@[0] != "-"@[0] && "+"@[0] != "*"@[0] && "-"@[0] != "*"@[0]);
    assert("/"@[0] != "+"@[0] && "/"@[0] != "-"@[0] && "/"@[0] != "*"@[0]);
    assert("%"@[0] != "+"@[0] && "%"@[0] != "-"@[0] && "%"@[0] != "*"@[0] && "%"@[0] != "/"@[0]);
}

/// The length and first character of each word the analysis dispatches on,
/// which tell these words apart.
pub proof fn lemma_head_words()
    ensures
        "+"@.len() == 1 && "+"@[0] == '+',
        "-"@.len() == 1 && "-"@[0] == '-',
        "*"@.len() == 1 && "*"@[0] == '*',
        "/"@.len() == 1 && "/"@[0] == '/',
        "%"@.len() == 1 && "%"@[0] == '%',
        "get"@.len() == 3 && "get"@[0] == 'g',
        "set!"@.len() == 4 && "set!"@[0] == 's',
        "car"@.len() == 3 && "car"@[0] == 'c',
        "pop-val!"@.len() == 8 && "pop-val!"@[0] == 'p',
        "pop!"@.len() == 4 && "pop!"@[0] == 'p',
        "and"@.len() == 3 && "and"@[0] == 'a',
        "do"@.len() == 2 && "do"@[0] == 'd',
        "block"@.len() == 5 && "block"@[0] == 'b',
        "lambda"@.len() == 6 && "lambda"@[0] == 'l',
        "let"@.len() == 3 && "let"@[0] == 'l',
        "mut"@.len() == 3 && "mut"@[0] == 'm',
        "alter!"@.len() == 6 && "alter!"@[0] == 'a',
        "if"@.len() == 2 && "if"@[0] == 'i',
        "while"@.len() == 5 && "while"@[0] == 'w',
        "loop"@.len() == 4 && "loop"@[0] == 'l',
        "loop/range"@.len() == 10 && "loop/range"@[0] == 'l',
        "vector"@.len() == 6 && "vector"@[0] == 'v',
        "string"@.len() == 6 && "string"@[0] == 's',
        "integers"@.len() == 8 && "integers"@[0] == 'i',
        "bools"@.len() == 5 && "bools"@[0] == 'b',
        "decimals"@.len() == 8 && "decimals"@[0] == 'd',
        "strings"@.len() == 7 && "strings"@[0] == 's',
        "letrec"@.len() == 6 && "letrec"@[0] == 'l',
        "block"@[1] == 'l' && "bools"@[1] == 'o' && "letrec"@[1] == 'e' && "lambda"@[1] == 'a',
{
    reveal_strlit("+");
    reveal_strlit("-");
    reveal_strlit("*");
    reveal_strlit("/");
    reveal_strlit("%");
    reveal_strlit("get");
    reveal_strlit("set!");
    reveal_strlit("car");
    reveal_strlit("pop-val!");
    reveal_strlit("pop!");
    reveal_strlit("and");
    reveal_strlit("do");
    reveal_strlit("block");
    reveal_strlit("lambda");
    reveal_strlit("let");
    reveal_strlit("mut");
    reveal_strlit("alter!");
    reveal_strlit("if");
    reveal_strlit("while");
    reveal_strlit("loop");
    reveal_strlit("loop/range");
    reveal_strlit("vector");
    reveal_strlit("string");
    reveal_strlit("integers");
    reveal_strlit("bools");
    reveal_strlit("decimals");
    reveal_strlit("strings");
    reveal_strlit("letrec");
}

impl Expression {
    /// Renders the expression as Lisp source text.
    pub fn to_lisp(&self) -> (r: String)
        ensures
            r@ == lisp_text(*self),
    {
        text_to_string(&self.lisp_chars())
    }

    /// The Lisp source text of the expression, as characters.
    pub fn lisp_chars(&self) -> (r: Vec<char>)
        ensures
            r@ == lisp_text(*self),
        decreases *self,
    {
        match self {
            Expression::Word(w) => copy_text(w),
            Expression::Int(n) => int_to_text(*n as i64),
            Expression::Dec(d) => copy_text(d),
            Expression::Apply(items) => {
                let mut out: Vec<char> = Vec::new();
                out.push('(');
                let mut i: usize = 0;
                while i < items.len()
                    invariant
                        i <= items.len(),
                        *self == Expression::Apply(*items),
                        out@ == seq!['('] + lisp_items(items@.take(i as int)),
                    decreases items.len() - i,
                {
                    assert(decreases_to!(*self => items@[i as int]));
                    let part = items[i].lisp_chars();
                    if i > 0 {
                        out.push(' ');
                    }
                    push_text(&mut out, &part);
                    proof {
                        let next = items@.take(i + 1);
                        assert(next.drop_last() =~= items@.take(i as int));
                        assert(next.last() == items@[i as int]);
                        if i == 0 {
                            assert(out@ =~= seq!['('] + lisp_items(next));
                        } else {
                            assert(out@ =~= seq!['('] + lisp_items(next));
                        }
                    }
                    i += 1;
                }
                out.push(')');
                assert(items@.take(items@.len() as int) =~= items@);
                assert(out@ =~= lisp_text(*self));
                out
            },
        }
    }
}

/// The word an expression is, if it is one.
pub fn word(e: &Expression) -> (r: Option<&Vec<char>>)
    ensures
        match *e {
            Expression::Word(w) => r == Some(&w),
            _ => r is None,
        },
{
    match e {
        Expression::Word(w) => Some(w),
        _ => None,
    }
}

/// True when `e` is the word `lit`.
pub fn is_word(e: &Expression, lit: &str) -> (r: bool)
    ensures
        r == (e is Word && e->Word_0@ == lit@),
{
    match e {
        Expression::Word(w) => text_is(w, lit),
        _ => false,
    }
}

/// True when `items` starts with the word `lit`.
pub fn head_is(items: &Vec<Expression>, lit: &str) -> (r: bool)
    ensures
        r == (items@.len() > 0 && items@[0] is Word && items@[0]->Word_0@ == lit@),
{
    items.len() > 0 && is_word(&items[0], lit)
}

/// A word expression spelling `lit`.
pub fn word_of(lit: &str) -> (r: Expression)
    ensures
        r is Word && r->Word_0@ == lit@,
{
    Expression::Word(chars_of(lit))
}

/// A deep copy of an expression.
pub fn copy_expr(e: &Expression) -> (r: Expression)
    ensures
        shape(r) == shape(*e),
        lisp_text(r) == lisp_text(*e),
        r is Int <==> e is Int,
        r is Word <==> e is Word,
        r is Dec <==> e is Dec,
        r is Apply <==> e is Apply,
        e is Word ==> r->Word_0@ == e->Word_0@,
        e is Int ==> r->Int_0 == e->Int_0,
        e is Apply ==> r->Apply_0@.len() == e->Apply_0@.len(),
    decreases *e,
{
    match e {
        Expression::Int(n) => Expression::Int(*n),
        Expression::Dec(d) => Expression::Dec(copy_text(d)),
        Expression::Word(w) => Expression::Word(copy_text(w)),
        Expression::Apply(items) => {
            let mut out: Vec<Expression> = Vec::new();
            let mut i: usize = 0;
            while i < items.len()
                invariant
                    i <= items.len(),
                    *e == Expression::Apply(*items),
                    out@.len() == i,
                    lisp_items(out@) == lisp_items(items@.take(i as int)),
                    shapes(out@) == shapes(items@.take(i as int)),
                decreases items.len() - i,
            {
                assert(decreases_to!(*e => items@[i as int]));
                let c = copy_expr(&items[i]);
                let ghost before = out@;
                out.push(c);
                proof {
                    assert(out@.drop_last() =~= before);
                    assert(items@.take(i + 1).drop_last() =~= items@.take(i as int));
                    let next = items@.take(i + 1);
                    assert(next.drop_last() =~= items@.take(i as int));
                    if i == 0 {
                        assert(lisp_items(out@) == lisp_text(out@[0]));
                    }
                }
                i += 1;
            }
            assert(items@.take(items@.len() as int) =~= items@);
            Expression::Apply(out)
        },
    }
}

/// Structural equality of expressions.
pub(crate) fn expr_eq(a: &Expression, b: &Expression) -> (r: bool)
    ensures
        r == (shape(*a) == shape(*b)),
    decreases *a,
{
    match (a, b) {
        (Expression::Int(x), Expression::Int(y)) => *x == *y,
        (Expression::Dec(x), Expression::Dec(y)) => text_eq(x, y),
        (Expression::Word(x), Expression::Word(y)) => text_eq(x, y),
        (Expression::Apply(xs), Expression::Apply(ys)) => {
            proof {
                lemma_shapes(xs@);
                lemma_shapes(ys@);
            }
            if xs.len() != ys.len() {
                return false;
            }
            let mut i: usize = 0;
            while i < xs.len()
                invariant
                    i <= xs.len(),
                    xs.len() == ys.len(),
                    *a == Expression::Apply(*xs),
                    *b == Expression::Apply(*ys),
                    shapes(xs@).len() == xs@.len(),
                    shapes(ys@).len() == ys@.len(),
                    forall|k: int| 0 <= k < xs@.len() ==> #[trigger] shapes(xs@)[k] == shape(xs@[k]),
                    forall|k: int| 0 <= k < ys@.len() ==> #[trigger] shapes(ys@)[k] == shape(ys@[k]),
                    forall|k: int| 0 <= k < i ==> shape(#[trigger] xs@[k]) == shape(ys@[k]),
                decreases xs.len() - i,
            {
                assert(decreases_to!(*a => xs@[i as int]));
                if !expr_eq(&xs[i], &ys[i]) {
                    assert(shapes(xs@)[i as int] != shapes(ys@)[i as int]);
                    return false;
                }
                i += 1;
            }
            assert(shapes(xs@) =~= shapes(ys@));
            true
        },
        _ => false,
    }
}

} // verus!
