//! Reading Que source: delimiter checking with diagnostic reports,
//! literal preprocessing, tokenizing and building expression trees.
use vstd::prelude::*;
use crate::text::{
    chars_of, copy_text, int_to_text, is_whitespace, push_str, push_text, spec_is_digit,
    spec_is_whitespace, split_lines, text_is, texts_view, trim_end, first_index, int_text,
    lemma_first_index, digits_text, digit_char, trim_end_index,
};
use crate::expr::{Expression, Sexp, shape, shapes, lemma_shapes_push};

verus! {

/// Which characters count as delimiters.
#[derive(Clone, Copy, PartialEq, Eq)]
pub enum DelimiterMode {
    ParenOnly,
    SourceDelimiters,
}

#[derive(Clone, Copy)]
struct OpenDelimiter {
    open: char,
    close: char,
    line: usize,
    col: usize,
}

fn delimiter_close_for_open(ch: char, mode: DelimiterMode) -> (r: Option<char>)
    ensures
        mode == DelimiterMode::ParenOnly ==> r == (if ch == '(' {
            Some(')')
        } else {
            None::<char>
        }),
        mode == DelimiterMode::SourceDelimiters ==> r == (if ch == '(' {
            Some(')')
        } else if ch == '[' {
            Some(']')
        } else if ch == '{' {
            Some('}')
        } else {
            None::<char>
        }),
{
    match mode {
        DelimiterMode::ParenOnly => if ch == '(' {
            Some(')')
        } else {
            None
        },
        DelimiterMode::SourceDelimiters => if ch == '(' {
            Some(')')
        } else if ch == '[' {
            Some(']')
        } else if ch == '{' {
            Some('}')
        } else {
            None
        },
    }
}

fn is_delimiter_close(ch: char, mode: DelimiterMode) -> (r: bool)
    ensures
        r == (ch == ')' || (mode == DelimiterMode::SourceDelimiters && (ch == ']' || ch == '}'))),
{
    match mode {
        DelimiterMode::ParenOnly => ch == ')',
        DelimiterMode::SourceDelimiters => ch == ')' || ch == ']' || ch == '}',
    }
}

fn ensure_line_delta(line_deltas: &mut Vec<i64>, line: usize)
    ensures
        final(line_deltas)@.len() == if old(line_deltas)@.len() < line {
            line as nat
        } else {
            old(line_deltas)@.len()
        },
        forall|k: int|
            0 <= k < old(line_deltas)@.len() ==> final(line_deltas)@[k] == old(line_deltas)@[k],
{
    while line_deltas.len() < line
        invariant
            forall|k: int|
                0 <= k < old(line_deltas)@.len() ==> line_deltas@[k] == old(line_deltas)@[k],
            line_deltas@.len() >= old(line_deltas)@.len(),
            old(line_deltas)@.len() >= line ==> line_deltas@.len() == old(line_deltas)@.len(),
            old(line_deltas)@.len() < line ==> line_deltas@.len() <= line,
        decreases line - line_deltas.len(),
    {
        line_deltas.push(0);
    }
}

/// An integer with its sign: `+` before a nonnegative one.
pub open spec fn signed_text(v: int) -> Seq<char> {
    if v >= 0 {
        seq!['+'] + int_text(v)
    } else {
        int_text(v)
    }
}

/// Lines joined by newlines.
pub open spec fn joined(lines: Seq<Seq<char>>) -> Seq<char>
    decreases lines.len(),
{
    if lines.len() == 0 {
        Seq::empty()
    } else if lines.len() == 1 {
        lines[0]
    } else {
        joined(lines.drop_last()) + seq!['\n'] + lines.last()
    }
}

/// Appends `v` with its sign.
fn push_signed(out: &mut Vec<char>, v: i64)
    ensures
        final(out)@ == old(out)@ + signed_text(v as int),
{
    let ghost before = out@;
    if v >= 0 {
        out.push('+');
    }
    let digits = int_to_text(v);
    push_text(out, &digits);
    proof {
        if v >= 0 {
            assert(out@ =~= before + signed_text(v as int));
        }
    }
}

/// Appends the decimal digits of `v`.
fn push_usize(out: &mut Vec<char>, v: usize)
    ensures
        final(out)@ == old(out)@ + digits_text(v as nat),
{
    let digits = if v <= i64::MAX as usize {
        int_to_text(v as i64)
    } else {
        let mut d = int_to_text((v / 10) as i64);
        let last = int_to_text((v % 10) as i64);
        push_text(&mut d, &last);
        proof {
            assert(v >= 10) by (bit_vector)
                requires
                    !(v <= i64::MAX as usize),
            ;
            assert(digits_text((v % 10) as nat) =~= seq![digit_char((v % 10) as nat)]);
            assert(d@ =~= digits_text(v as nat));
        }
        d
    };
    push_text(out, &digits);
}

/// The report line for the opener `idx` places below the top of the stack.
spec fn stack_line(idx: nat, item: OpenDelimiter) -> Seq<char> {
    "parse.open_stack["@ + digits_text(idx) + "]: '"@ + seq![item.open] + "' opened at "@ + digits_text(
        item.line as nat,
    ) + seq![':'] + digits_text(item.col as nat) + " expects '"@ + seq![item.close] + seq!['\'']
}

/// The report lines for the top `n` openers, top first.
spec fn stack_lines_upto(stack: Seq<OpenDelimiter>, n: nat) -> Seq<Seq<char>>
    decreases n,
{
    if n == 0 {
        Seq::empty()
    } else {
        stack_lines_upto(stack, (n - 1) as nat).push(
            stack_line((n - 1) as nat, stack[stack.len() - 1 - (n - 1)]),
        )
    }
}

/// The report lines for the open delimiters: the top eight, then how many
/// more there are.
spec fn open_stack_lines(stack: Seq<OpenDelimiter>) -> Seq<Seq<char>> {
    if stack.len() == 0 {
        seq!["parse.open_stack: <empty>"@]
    } else {
        stack_lines_upto(
            stack,
            if stack.len() < 8 {
                stack.len()
            } else {
                8
            },
        ) + if stack.len() > 8 {
            seq!["parse.open_stack_more: "@ + digits_text((stack.len() - 8) as nat)]
        } else {
            Seq::empty()
        }
    }
}

fn push_open_stack_lines(out: &mut Vec<Vec<char>>, stack: &Vec<OpenDelimiter>)
    ensures
        texts_view(final(out)@) == texts_view(old(out)@) + open_stack_lines(stack@),
{
    let ghost start = texts_view(out@);
    if stack.len() == 0 {
        out.push(chars_of("parse.open_stack: <empty>"));
        proof {
            assert(texts_view(out@) =~= start + open_stack_lines(stack@));
        }
        return;
    }
    let mut idx: usize = 0;
    while idx < 8 && idx < stack.len()
        invariant
            idx <= 8,
            idx <= stack.len(),
            texts_view(out@) == start + stack_lines_upto(stack@, idx as nat),
        decreases 8 - idx,
    {
        let item = stack[stack.len() - 1 - idx];
        let mut line = chars_of("parse.open_stack[");
        push_usize(&mut line, idx);
        push_str(&mut line, "]: '");
        line.push(item.open);
        push_str(&mut line, "' opened at ");
        push_usize(&mut line, item.line);
        line.push(':');
        push_usize(&mut line, item.col);
        push_str(&mut line, " expects '");
        line.push(item.close);
        line.push('\'');
        proof {
            assert(line@ =~= stack_line(idx as nat, stack@[stack@.len() - 1 - idx]));
        }
        let ghost before = texts_view(out@);
        out.push(line);
        proof {
            assert(texts_view(out@) =~= before.push(stack_line(idx as nat, stack@[stack@.len() - 1 - idx])));
        }
        idx += 1;
    }
    let ghost mid = texts_view(out@);
    if stack.len() > 8 {
        let mut line = chars_of("parse.open_stack_more: ");
        push_usize(&mut line, stack.len() - 8);
        out.push(line);
        proof {
            assert(texts_view(out@) =~= mid.push("parse.open_stack_more: "@ + digits_text((stack@.len() - 8) as nat)));
        }
    }
    proof {
        assert(texts_view(out@) =~= start + open_stack_lines(stack@));
    }
}

/// `bal + d`, held within `i64`.
pub open spec fn sat_step(bal: int, d: int) -> int {
    if d >= 0 {
        if bal <= i64::MAX - d {
            bal + d
        } else {
            i64::MAX as int
        }
    } else {
        if bal >= i64::MIN - d {
            bal + d
        } else {
            i64::MIN as int
        }
    }
}

/// The delimiter balance after the lines `0..=k`, held within `i64`.
pub open spec fn running_balance(deltas: Seq<i64>, k: int) -> int
    decreases k + 1,
{
    if k < 0 {
        0
    } else {
        sat_step(running_balance(deltas, k - 1), deltas[k] as int)
    }
}

/// The first line, counting from one, among the first `k` whose running
/// balance is negative.
pub open spec fn first_underflow(deltas: Seq<i64>, k: int) -> Option<int>
    decreases k,
{
    if k <= 0 {
        None
    } else {
        match first_underflow(deltas, k - 1) {
            Some(x) => Some(x),
            None => if running_balance(deltas, k - 1) < 0 {
                Some(k)
            } else {
                None
            },
        }
    }
}

/// The first line of the window around `focus`: two lines before it, and
/// at least line one.
pub open spec fn window_start(focus: int) -> int {
    let lowered = if focus >= 2 {
        focus - 2
    } else {
        0
    };
    if lowered > 1 {
        lowered
    } else {
        1
    }
}

/// The last line of the window around `focus`: two lines after it, and at
/// most the last line.
pub open spec fn window_end(focus: int, count: int) -> int {
    let max_line = if count > 1 {
        count
    } else {
        1
    };
    let raised = if focus <= usize::MAX - 2 {
        focus + 2
    } else {
        usize::MAX as int
    };
    if raised < max_line {
        raised
    } else {
        max_line
    }
}

/// The report line for `line`: its delta, the running balance and its
/// text without trailing whitespace.
pub open spec fn balance_line(src: Seq<Seq<char>>, deltas: Seq<i64>, line: int) -> Seq<char> {
    "parse.line_balance["@ + digits_text(line as nat) + "]: delta="@ + signed_text(deltas[line - 1] as int)
        + " cumulative="@ + signed_text(running_balance(deltas, line - 1)) + " | "@ + if line - 1
        < src.len() {
        src[line - 1].subrange(0, trim_end_index(src[line - 1]))
    } else {
        Seq::empty()
    }
}

/// The report lines for the lines around `focus`, then the first line whose
/// balance goes negative, if any.
pub open spec fn window_lines(src: Seq<Seq<char>>, deltas: Seq<i64>, focus: int) -> Seq<Seq<char>> {
    if deltas.len() == 0 {
        Seq::empty()
    } else {
        let start = window_start(focus);
        let end = window_end(focus, deltas.len() as int);
        Seq::new(
            if end >= start {
                (end - start + 1) as nat
            } else {
                0
            },
            |k: int| balance_line(src, deltas, start + k),
        ) + match first_underflow(deltas, deltas.len() as int) {
            Some(l) => seq!["parse.first_underflow_line: "@ + digits_text(l as nat)],
            None => Seq::empty(),
        }
    }
}

#[verifier::spinoff_prover]
#[verifier::rlimit(80)]
fn push_balance_window_lines(
    out: &mut Vec<Vec<char>>,
    source_lines: &Vec<Vec<char>>,
    line_deltas: &Vec<i64>,
    focus_line: usize,
)
    ensures
        texts_view(final(out)@) == texts_view(old(out)@) + window_lines(
            texts_view(source_lines@),
            line_deltas@,
            focus_line as int,
        ),
{
    let ghost begin = texts_view(out@);
    if line_deltas.len() == 0 {
        proof {
            assert(texts_view(out@) =~= begin + window_lines(texts_view(source_lines@), line_deltas@, focus_line as int));
        }
        return;
    }
    let mut cumulative: Vec<i64> = Vec::new();
    let mut bal: i64 = 0;
    let mut first_underflow: Option<usize> = None;
    let mut idx: usize = 0;
    while idx < line_deltas.len()
        invariant
            idx <= line_deltas.len(),
            cumulative@.len() == idx,
            bal == running_balance(line_deltas@, idx - 1),
            forall|k: int| 0 <= k < idx ==> #[trigger] cumulative@[k] == running_balance(line_deltas@, k),
            match first_underflow {
                Some(l) => crate::reader::first_underflow(line_deltas@, idx as int) == Some(l as int),
                None => crate::reader::first_underflow(line_deltas@, idx as int) is None,
            },
        decreases line_deltas.len() - idx,
    {
        let delta = line_deltas[idx];
        bal = if delta >= 0 {
            if bal <= i64::MAX - delta {
                bal + delta
            } else {
                i64::MAX
            }
        } else {
            if bal >= i64::MIN - delta {
                bal + delta
            } else {
                i64::MIN
            }
        };
        cumulative.push(bal);
        if bal < 0 && first_underflow.is_none() {
            first_underflow = Some(idx + 1);
        }
        idx += 1;
    }
    let max_line = if line_deltas.len() > 1 {
        line_deltas.len()
    } else {
        1
    };
    let lowered = if focus_line >= 2 {
        focus_line - 2
    } else {
        0
    };
    let start = if lowered > 1 {
        lowered
    } else {
        1
    };
    let raised = if focus_line <= usize::MAX - 2 {
        focus_line + 2
    } else {
        usize::MAX
    };
    let end = if raised < max_line {
        raised
    } else {
        max_line
    };
    let mut line = start;
    let ghost src = texts_view(source_lines@);
    proof {
        assert(start == window_start(focus_line as int));
        assert(end == window_end(focus_line as int, line_deltas@.len() as int));
    }
    while line <= end
        invariant
            start <= end + 1 ==> line <= end + 1,
            start > end ==> line == start,
            texts_view(out@) == begin + Seq::new((line - start) as nat, |k: int| balance_line(src, line_deltas@, start + k)),
            1 <= start,
            start <= line,
            end <= max_line,
            max_line == line_deltas.len() || (max_line == 1 && line_deltas.len() >= 1),
            cumulative@.len() == line_deltas.len(),
            forall|k: int| 0 <= k < line_deltas@.len() ==> #[trigger] cumulative@[k] == running_balance(line_deltas@, k),
            src == texts_view(source_lines@),
        decreases end + 1 - line,
    {
        let idx = line - 1;
        let mut text = chars_of("parse.line_balance[");
        push_usize(&mut text, line);
        push_str(&mut text, "]: delta=");
        push_signed(&mut text, line_deltas[idx]);
        push_str(&mut text, " cumulative=");
        push_signed(&mut text, cumulative[idx]);
        push_str(&mut text, " | ");
        if idx < source_lines.len() {
            let trimmed = trim_end(&source_lines[idx]);
            push_text(&mut text, &trimmed);
        }
        proof {
            assert(text@ =~= balance_line(src, line_deltas@, line as int));
        }
        let ghost before = texts_view(out@);
        out.push(text);
        proof {
            let f = |k: int| balance_line(src, line_deltas@, start + k);
            assert(texts_view(out@) =~= before.push(text@));
            assert(Seq::new((line + 1 - start) as nat, f) =~= Seq::new((line - start) as nat, f).push(f(line - start)));
            assert(texts_view(out@) =~= begin + Seq::new((line + 1 - start) as nat, f));
        }
        if line == usize::MAX {
            break;
        }
        line = if line < usize::MAX { line + 1 } else { line };
    }
    let ghost mid = texts_view(out@);
    proof {
        let f = |k: int| balance_line(src, line_deltas@, start + k);
        assert(mid =~= begin + Seq::new(
            if end >= start {
                (end - start + 1) as nat
            } else {
                0
            },
            f,
        ));
    }
    if let Some(l) = first_underflow {
        let mut text = chars_of("parse.first_underflow_line: ");
        push_usize(&mut text, l);
        out.push(text);
        proof {
            assert(texts_view(out@) =~= mid.push("parse.first_underflow_line: "@ + digits_text(l as nat)));
        }
    }
    proof {
        assert(texts_view(out@) =~= begin + window_lines(src, line_deltas@, focus_line as int));
    }
}

fn join_lines(lines: &Vec<Vec<char>>) -> (r: Vec<char>)
    ensures
        r@ == joined(texts_view(lines@)),
{
    let mut out: Vec<char> = Vec::new();
    let mut i: usize = 0;
    while i < lines.len()
        invariant
            i <= lines.len(),
            out@ == joined(texts_view(lines@).take(i as int)),
        decreases lines.len() - i,
    {
        proof {
            let t = texts_view(lines@).take(i + 1);
            assert(t.drop_last() =~= texts_view(lines@).take(i as int));
            assert(t.last() == lines@[i as int]@);
        }
        if i > 0 {
            out.push('\n');
        }
        push_text(&mut out, &lines[i]);
        proof {
            let t = texts_view(lines@).take(i + 1);
            if i == 0 {
                assert(out@ =~= t[0]);
            }
        }
        i += 1;
    }
    proof {
        assert(texts_view(lines@).take(lines@.len() as int) =~= texts_view(lines@));
    }
    out
}

/// `line:col` as decimal digits.
pub open spec fn position_text(line: nat, col: nat) -> Seq<char> {
    digits_text(line) + seq![':'] + digits_text(col)
}

/// The opening lines of the report on a closer with no matching opener.
spec fn unexpected_closer_head(stack: Seq<OpenDelimiter>, found: char, line: nat, col: nat) -> Seq<Seq<char>> {
    seq![
        "parse.delimiter_error: unexpected_closer"@,
        "parse.found: '"@ + seq![found] + "' at "@ + position_text(line, col),
    ] + if stack.len() > 0 {
        let top = stack.last();
        seq![
            "parse.expected: '"@ + seq![top.close] + "' to close '"@ + seq![top.open] + "' opened at "@
                + position_text(top.line as nat, top.col as nat),
            "parse.fix_hint[0]: Replace '"@ + seq![found] + "' with '"@ + seq![top.close] + "' at "@
                + position_text(line, col) + seq!['.'],
            "parse.fix_hint[1]: Or insert '"@ + seq![top.close] + "' before "@ + position_text(line, col)
                + " and keep '"@ + seq![found] + "'."@,
        ]
    } else {
        seq![
            "parse.expected: <no opener in scope>"@,
            "parse.fix_hint[0]: Remove '"@ + seq![found] + "' at "@ + position_text(line, col) + seq!['.'],
            "parse.fix_hint[1]: Or add matching opener before "@ + position_text(line, col) + seq!['.'],
        ]
    }
}

/// The opening lines of the report on an opener never closed.
spec fn unclosed_opener_head(opener: OpenDelimiter) -> Seq<Seq<char>> {
    seq![
        "parse.delimiter_error: unclosed_opener"@,
        "parse.unclosed: '"@ + seq![opener.open] + "' opened at "@ + position_text(opener.line as nat, opener.col as nat),
        "parse.expected_before_eof: '"@ + seq![opener.close] + seq!['\''],
        "parse.fix_hint[0]: Add '"@ + seq![opener.close] + "' before end of file."@,
    ]
}

/// The opening lines of the report on a string or character literal never
/// closed.
pub open spec fn unclosed_literal_head(is_string: bool, line: nat, col: nat) -> Seq<Seq<char>> {
    let kind = if is_string {
        "string_literal"@
    } else {
        "char_literal"@
    };
    seq![
        "parse.delimiter_error: unclosed_"@ + kind,
        "parse.unclosed_"@ + kind + ": opened at "@ + position_text(line, col),
        "parse.fix_hint[0]: Add closing "@ + seq![if is_string { '"' } else { '\'' }] + seq!['.'],
    ]
}

fn delimiter_report_unexpected_closer(
    source_lines: &Vec<Vec<char>>,
    line_deltas: &Vec<i64>,
    stack: &Vec<OpenDelimiter>,
    found: char,
    line: usize,
    col: usize,
) -> (r: Vec<char>)
    ensures
        r@ == joined(unexpected_closer_head(stack@, found, line as nat, col as nat) + open_stack_lines(stack@)
            + window_lines(texts_view(source_lines@), line_deltas@, line as int)),
{
    let mut out: Vec<Vec<char>> = Vec::new();
    out.push(chars_of("parse.delimiter_error: unexpected_closer"));
    let mut t = chars_of("parse.found: '");
    t.push(found);
    push_str(&mut t, "' at ");
    push_usize(&mut t, line);
    t.push(':');
    push_usize(&mut t, col);
    proof {
        assert(t@ =~= "parse.found: '"@ + seq![found] + "' at "@ + position_text(line as nat, col as nat));
    }
    out.push(t);
    if stack.len() > 0 {
        let top = stack[stack.len() - 1];
        let mut a = chars_of("parse.expected: '");
        a.push(top.close);
        push_str(&mut a, "' to close '");
        a.push(top.open);
        push_str(&mut a, "' opened at ");
        push_usize(&mut a, top.line);
        a.push(':');
        push_usize(&mut a, top.col);
        proof {
            assert(a@ =~= "parse.expected: '"@ + seq![top.close] + "' to close '"@ + seq![top.open] + "' opened at "@ + position_text(top.line as nat, top.col as nat));
        }
        out.push(a);
        let mut b = chars_of("parse.fix_hint[0]: Replace '");
        b.push(found);
        push_str(&mut b, "' with '");
        b.push(top.close);
        push_str(&mut b, "' at ");
        push_usize(&mut b, line);
        b.push(':');
        push_usize(&mut b, col);
        b.push('.');
        proof {
            assert(b@ =~= "parse.fix_hint[0]: Replace '"@ + seq![found] + "' with '"@ + seq![top.close] + "' at "@ + position_text(line as nat, col as nat) + seq!['.']);
        }
        out.push(b);
        let mut c = chars_of("parse.fix_hint[1]: Or insert '");
        c.push(top.close);
        push_str(&mut c, "' before ");
        push_usize(&mut c, line);
        c.push(':');
        push_usize(&mut c, col);
        push_str(&mut c, " and keep '");
        c.push(found);
        push_str(&mut c, "'.");
        proof {
            assert(c@ =~= "parse.fix_hint[1]: Or insert '"@ + seq![top.close] + "' before "@ + position_text(line as nat, col as nat) + " and keep '"@ + seq![found] + "'."@);
        }
        out.push(c);
    } else {
        out.push(chars_of("parse.expected: <no opener in scope>"));
        let mut b = chars_of("parse.fix_hint[0]: Remove '");
        b.push(found);
        push_str(&mut b, "' at ");
        push_usize(&mut b, line);
        b.push(':');
        push_usize(&mut b, col);
        b.push('.');
        proof {
            assert(b@ =~= "parse.fix_hint[0]: Remove '"@ + seq![found] + "' at "@ + position_text(line as nat, col as nat) + seq!['.']);
        }
        out.push(b);
        let mut c = chars_of("parse.fix_hint[1]: Or add matching opener before ");
        push_usize(&mut c, line);
        c.push(':');
        push_usize(&mut c, col);
        c.push('.');
        proof {
            assert(c@ =~= "parse.fix_hint[1]: Or add matching opener before "@ + position_text(line as nat, col as nat) + seq!['.']);
        }
        out.push(c);
    }
    proof {
        assert(texts_view(out@) =~= unexpected_closer_head(stack@, found, line as nat, col as nat));
    }
    push_open_stack_lines(&mut out, stack);
    push_balance_window_lines(&mut out, source_lines, line_deltas, line);
    join_lines(&out)
}

fn delimiter_report_unclosed_opener(
    source_lines: &Vec<Vec<char>>,
    line_deltas: &Vec<i64>,
    stack: &Vec<OpenDelimiter>,
    opener: OpenDelimiter,
) -> (r: Vec<char>)
    ensures
        r@ == joined(unclosed_opener_head(opener) + open_stack_lines(stack@) + window_lines(
            texts_view(source_lines@),
            line_deltas@,
            opener.line as int,
        )),
{
    let mut out: Vec<Vec<char>> = Vec::new();
    out.push(chars_of("parse.delimiter_error: unclosed_opener"));
    let mut a = chars_of("parse.unclosed: '");
    a.push(opener.open);
    push_str(&mut a, "' opened at ");
    push_usize(&mut a, opener.line);
    a.push(':');
    push_usize(&mut a, opener.col);
    proof {
        assert(a@ =~= "parse.unclosed: '"@ + seq![opener.open] + "' opened at "@ + position_text(opener.line as nat, opener.col as nat));
    }
    out.push(a);
    let mut b = chars_of("parse.expected_before_eof: '");
    b.push(opener.close);
    b.push('\'');
    proof {
        assert(b@ =~= "parse.expected_before_eof: '"@ + seq![opener.close] + seq!['\'']);
    }
    out.push(b);
    let mut c = chars_of("parse.fix_hint[0]: Add '");
    c.push(opener.close);
    push_str(&mut c, "' before end of file.");
    proof {
        assert(c@ =~= "parse.fix_hint[0]: Add '"@ + seq![opener.close] + "' before end of file."@);
    }
    out.push(c);
    proof {
        assert(texts_view(out@) =~= unclosed_opener_head(opener));
    }
    push_open_stack_lines(&mut out, stack);
    push_balance_window_lines(&mut out, source_lines, line_deltas, opener.line);
    join_lines(&out)
}

fn delimiter_report_unclosed_literal(
    source_lines: &Vec<Vec<char>>,
    line_deltas: &Vec<i64>,
    is_string: bool,
    line: usize,
    col: usize,
) -> (r: Vec<char>)
    ensures
        r@ == joined(unclosed_literal_head(is_string, line as nat, col as nat) + window_lines(
            texts_view(source_lines@),
            line_deltas@,
            line as int,
        )),
{
    let kind = if is_string {
        "string_literal"
    } else {
        "char_literal"
    };
    let mut out: Vec<Vec<char>> = Vec::new();
    let mut a = chars_of("parse.delimiter_error: unclosed_");
    push_str(&mut a, kind);
    proof {
        assert(a@ =~= "parse.delimiter_error: unclosed_"@ + kind@);
    }
    out.push(a);
    let mut b = chars_of("parse.unclosed_");
    push_str(&mut b, kind);
    push_str(&mut b, ": opened at ");
    push_usize(&mut b, line);
    b.push(':');
    push_usize(&mut b, col);
    proof {
        assert(b@ =~= "parse.unclosed_"@ + kind@ + ": opened at "@ + position_text(line as nat, col as nat));
    }
    out.push(b);
    let mut c = chars_of("parse.fix_hint[0]: Add closing ");
    if is_string {
        c.push('"');
    } else {
        c.push('\'');
    }
    c.push('.');
    proof {
        assert(c@ =~= "parse.fix_hint[0]: Add closing "@ + seq![if is_string { '"' } else { '\'' }] + seq!['.']);
    }
    out.push(c);
    proof {
        assert(texts_view(out@) =~= unclosed_literal_head(is_string, line as nat, col as nat));
    }
    push_balance_window_lines(&mut out, source_lines, line_deltas, line);
    join_lines(&out)
}

/// `v` moved one step up or down, staying within `i64`.
fn bump(v: i64, up: bool) -> (r: i64)
    ensures
        r == if up {
            if v < i64::MAX {
                v + 1
            } else {
                v as int
            }
        } else {
            if v > i64::MIN {
                v - 1
            } else {
                v as int
            }
        },
{
    if up {
        if v < i64::MAX {
            v + 1
        } else {
            v
        }
    } else {
        if v > i64::MIN {
            v - 1
        } else {
            v
        }
    }
}

/// The closer that `c` opens in `mode`.
pub open spec fn closer_for(c: char, mode: DelimiterMode) -> Option<char> {
    if c == '(' {
        Some(')')
    } else if mode == DelimiterMode::SourceDelimiters && c == '[' {
        Some(']')
    } else if mode == DelimiterMode::SourceDelimiters && c == '{' {
        Some('}')
    } else {
        None
    }
}

/// `c` closes a delimiter in `mode`.
pub open spec fn is_closer(c: char, mode: DelimiterMode) -> bool {
    c == ')' || (mode == DelimiterMode::SourceDelimiters && (c == ']' || c == '}'))
}

/// Whether `s[i..]` balances its delimiters, reading in a comment, a string
/// or a character literal as the flags tell, with `expected` the closers of
/// the delimiters open, innermost last.  Comments run to the end of the
/// line; delimiters inside comments and literals do not count.
pub open spec fn balanced_from(
    s: Seq<char>,
    i: int,
    mode: DelimiterMode,
    in_comment: bool,
    in_string: bool,
    in_char: bool,
    expected: Seq<char>,
) -> bool
    decreases s.len() - i,
{
    if i < 0 || i >= s.len() {
        !in_string && !in_char && expected.len() == 0
    } else if in_comment {
        balanced_from(s, i + 1, mode, s[i] != '\n', false, false, expected)
    } else if in_string {
        balanced_from(s, i + 1, mode, false, s[i] != '"', false, expected)
    } else if in_char {
        balanced_from(s, i + 1, mode, false, false, s[i] != '\'', expected)
    } else if s[i] == ';' {
        balanced_from(s, i + 1, mode, true, false, false, expected)
    } else if s[i] == '"' {
        balanced_from(s, i + 1, mode, false, true, false, expected)
    } else if s[i] == '\'' {
        balanced_from(s, i + 1, mode, false, false, true, expected)
    } else if closer_for(s[i], mode) is Some {
        balanced_from(s, i + 1, mode, false, false, false, expected.push(closer_for(s[i], mode)->0))
    } else if is_closer(s[i], mode) {
        expected.len() > 0 && expected[expected.len() - 1] == s[i] && balanced_from(
            s,
            i + 1,
            mode,
            false,
            false,
            false,
            expected.drop_last(),
        )
    } else {
        balanced_from(s, i + 1, mode, false, false, false, expected)
    }
}

/// The heading of the first delimiter problem met scanning `s` from `i` in the
/// given state, as `balanced_from` scans it: an unexpected closer, a string or
/// character literal left open, or an opener left open; `None` when there is
/// none.
pub open spec fn delimiter_problem(
    s: Seq<char>,
    i: int,
    mode: DelimiterMode,
    in_comment: bool,
    in_string: bool,
    in_char: bool,
    expected: Seq<char>,
) -> Option<Seq<char>>
    decreases s.len() - i,
{
    if i < 0 || i >= s.len() {
        if in_string {
            Some("parse.delimiter_error: unclosed_"@ + "string_literal"@)
        } else if in_char {
            Some("parse.delimiter_error: unclosed_"@ + "char_literal"@)
        } else if expected.len() > 0 {
            Some("parse.delimiter_error: unclosed_opener"@)
        } else {
            None
        }
    } else if in_comment {
        delimiter_problem(s, i + 1, mode, s[i] != '\n', false, false, expected)
    } else if in_string {
        delimiter_problem(s, i + 1, mode, false, s[i] != '"', false, expected)
    } else if in_char {
        delimiter_problem(s, i + 1, mode, false, false, s[i] != '\'', expected)
    } else if s[i] == ';' {
        delimiter_problem(s, i + 1, mode, true, false, false, expected)
    } else if s[i] == '"' {
        delimiter_problem(s, i + 1, mode, false, true, false, expected)
    } else if s[i] == '\'' {
        delimiter_problem(s, i + 1, mode, false, false, true, expected)
    } else if closer_for(s[i], mode) is Some {
        delimiter_problem(s, i + 1, mode, false, false, false, expected.push(closer_for(s[i], mode)->0))
    } else if is_closer(s[i], mode) {
        if expected.len() > 0 && expected[expected.len() - 1] == s[i] {
            delimiter_problem(s, i + 1, mode, false, false, false, expected.drop_last())
        } else {
            Some("parse.delimiter_error: unexpected_closer"@)
        }
    } else {
        delimiter_problem(s, i + 1, mode, false, false, false, expected)
    }
}

/// Lines joined by newlines start with the first line.
proof fn lemma_joined_starts(lines: Seq<Seq<char>>)
    requires
        lines.len() >= 1,
    ensures
        lines[0].len() <= joined(lines).len(),
        joined(lines).take(lines[0].len() as int) == lines[0],
    decreases lines.len(),
{
    if lines.len() > 1 {
        lemma_joined_starts(lines.drop_last());
        let a = joined(lines.drop_last());
        assert(joined(lines) == a + seq!['\n'] + lines.last());
        assert((a + seq!['\n'] + lines.last()).take(lines[0].len() as int) =~= a.take(lines[0].len() as int));
    }
}

/// The source balances its delimiters.
pub open spec fn delimiters_balanced(s: Seq<char>, mode: DelimiterMode) -> bool {
    balanced_from(s, 0, mode, false, false, false, Seq::empty())
}

spec fn expected_closers(stack: Seq<OpenDelimiter>) -> Seq<char> {
    stack.map_values(|d: OpenDelimiter| d.close)
}

/// Checks that delimiters balance.  Returns a multi-line report of the first
/// problem (an unexpected closer, or an unclosed string, character literal or
/// opener), or `None` when the source is balanced.  Comments and literals are
/// skipped.
#[verifier::rlimit(60)]
pub fn delimiter_debug_report(source: &Vec<char>, mode: DelimiterMode) -> (r: Option<Vec<char>>)
    ensures
        r is None <==> delimiters_balanced(source@, mode),
        r is None <==> delimiter_problem(source@, 0, mode, false, false, false, Seq::empty()) is None,
        r matches Some(t) ==> {
            let head = delimiter_problem(source@, 0, mode, false, false, false, Seq::empty())->0;
            head.len() <= t@.len() && t@.take(head.len() as int) == head
        },
{
    let source_lines = split_lines(source);
    let mut line_deltas: Vec<i64> = Vec::new();
    line_deltas.push(0);
    let mut stack: Vec<OpenDelimiter> = Vec::new();
    let mut line: usize = 1;
    let mut col: usize = 1;
    let mut in_comment = false;
    let mut in_string_start: Option<(usize, usize)> = None;
    let mut in_char_start: Option<(usize, usize)> = None;
    let mut i: usize = 0;
    assert(expected_closers(stack@) =~= Seq::<char>::empty());
    while i < source.len()
        invariant
            i <= source.len(),
            1 <= line,
            1 <= col,
            line_deltas@.len() >= line,
            forall|k: int| 0 <= k < stack@.len() ==> stack@[k].line >= 1,
            !(in_comment && in_string_start is Some),
            !(in_comment && in_char_start is Some),
            !(in_string_start is Some && in_char_start is Some),
            delimiters_balanced(source@, mode) == balanced_from(
                source@,
                i as int,
                mode,
                in_comment,
                in_string_start is Some,
                in_char_start is Some,
                expected_closers(stack@),
            ),
            delimiter_problem(source@, 0, mode, false, false, false, Seq::empty()) == delimiter_problem(
                source@,
                i as int,
                mode,
                in_comment,
                in_string_start is Some,
                in_char_start is Some,
                expected_closers(stack@),
            ),
        decreases source.len() - i,
    {
        let ch = source[i];
        ensure_line_delta(&mut line_deltas, line);
        if in_comment {
            if ch == '\n' {
                in_comment = false;
                line = if line < usize::MAX { line + 1 } else { line };
                col = 1;
                ensure_line_delta(&mut line_deltas, line);
            } else {
                col = if col < usize::MAX { col + 1 } else { col };
            }
            i += 1;
            continue;
        }
        if in_string_start.is_some() {
            if ch == '"' {
                in_string_start = None;
            }
            if ch == '\n' {
                line = if line < usize::MAX { line + 1 } else { line };
                col = 1;
                ensure_line_delta(&mut line_deltas, line);
            } else {
                col = if col < usize::MAX { col + 1 } else { col };
            }
            i += 1;
            continue;
        }
        if in_char_start.is_some() {
            if ch == '\'' {
                in_char_start = None;
            }
            if ch == '\n' {
                line = if line < usize::MAX { line + 1 } else { line };
                col = 1;
                ensure_line_delta(&mut line_deltas, line);
            } else {
                col = if col < usize::MAX { col + 1 } else { col };
            }
            i += 1;
            continue;
        }
        if ch == ';' {
            in_comment = true;
            col = if col < usize::MAX { col + 1 } else { col };
        } else if ch == '"' {
            in_string_start = Some((line, col));
            col = if col < usize::MAX { col + 1 } else { col };
        } else if ch == '\'' {
            in_char_start = Some((line, col));
            col = if col < usize::MAX { col + 1 } else { col };
        } else if ch == '\n' {
            line = if line < usize::MAX { line + 1 } else { line };
            col = 1;
            ensure_line_delta(&mut line_deltas, line);
        } else {
            match delimiter_close_for_open(ch, mode) {
                Some(close) => {
                    let v = bump(line_deltas[line - 1], true);
                    line_deltas.set(line - 1, v);
                    let ghost before = stack@;
                    stack.push(OpenDelimiter { open: ch, close, line, col });
                    assert(expected_closers(stack@) =~= expected_closers(before).push(close));
                    col = if col < usize::MAX { col + 1 } else { col };
                },
                None => {
                    if is_delimiter_close(ch, mode) {
                        let v = bump(line_deltas[line - 1], false);
                        line_deltas.set(line - 1, v);
                        if stack.len() == 0 {
                            let report = delimiter_report_unexpected_closer(
                                &source_lines,
                                &line_deltas,
                                &stack,
                                ch,
                                line,
                                col,
                            );
                            proof {
                                lemma_joined_starts(
                                    unexpected_closer_head(stack@, ch, line as nat, col as nat) + open_stack_lines(stack@)
                                        + window_lines(texts_view(source_lines@), line_deltas@, line as int),
                                );
                            }
                            return Some(report);
                        }
                        let top = stack[stack.len() - 1];
                        if ch != top.close {
                            let report = delimiter_report_unexpected_closer(
                                &source_lines,
                                &line_deltas,
                                &stack,
                                ch,
                                line,
                                col,
                            );
                            proof {
                                lemma_joined_starts(
                                    unexpected_closer_head(stack@, ch, line as nat, col as nat) + open_stack_lines(stack@)
                                        + window_lines(texts_view(source_lines@), line_deltas@, line as int),
                                );
                            }
                            return Some(report);
                        }
                        let ghost before = stack@;
                        stack.pop();
                        assert(expected_closers(stack@) =~= expected_closers(before).drop_last());
                        col = if col < usize::MAX { col + 1 } else { col };
                    } else {
                        col = if col < usize::MAX { col + 1 } else { col };
                    }
                },
            }
        }
        i += 1;
    }
    if let Some((sline, scol)) = in_string_start {
        let report = delimiter_report_unclosed_literal(&source_lines, &line_deltas, true, sline, scol);
        proof {
            lemma_joined_starts(
                unclosed_literal_head(true, sline as nat, scol as nat) + window_lines(
                    texts_view(source_lines@),
                    line_deltas@,
                    sline as int,
                ),
            );
        }
        return Some(report);
    }
    if let Some((sline, scol)) = in_char_start {
        let report = delimiter_report_unclosed_literal(&source_lines, &line_deltas, false, sline, scol);
        proof {
            lemma_joined_starts(
                unclosed_literal_head(false, sline as nat, scol as nat) + window_lines(
                    texts_view(source_lines@),
                    line_deltas@,
                    sline as int,
                ),
            );
        }
        return Some(report);
    }
    if stack.len() > 0 {
        let opener = stack[stack.len() - 1];
        let report = delimiter_report_unclosed_opener(&source_lines, &line_deltas, &stack, opener);
        proof {
            lemma_joined_starts(
                unclosed_opener_head(opener) + open_stack_lines(stack@) + window_lines(
                    texts_view(source_lines@),
                    line_deltas@,
                    opener.line as int,
                ),
            );
        }
        return Some(report);
    }
    None
}

/// `buf` as a token, when it is not empty.
pub open spec fn flushed(buf: Seq<char>) -> Seq<Seq<char>> {
    if buf.len() > 0 {
        seq![buf]
    } else {
        Seq::empty()
    }
}

/// The tokens of `s[i..]`, where `buf` is the token read so far and
/// `in_comment` tells that a `;` comment runs until the next newline.
/// Parentheses stand alone, white space separates, and a comment is
/// skipped up to its newline.
pub open spec fn tokens_from(s: Seq<char>, i: int, buf: Seq<char>, in_comment: bool) -> Seq<Seq<char>>
    decreases s.len() - i,
{
    if i < 0 || i >= s.len() {
        flushed(buf)
    } else if in_comment && s[i] != '\n' {
        tokens_from(s, i + 1, buf, true)
    } else if !in_comment && s[i] == ';' {
        tokens_from(s, i + 1, buf, true)
    } else if s[i] == '(' || s[i] == ')' {
        flushed(buf) + seq![seq![s[i]]] + tokens_from(s, i + 1, Seq::empty(), false)
    } else if spec_is_whitespace(s[i]) {
        flushed(buf) + tokens_from(s, i + 1, Seq::empty(), false)
    } else {
        tokens_from(s, i + 1, buf.push(s[i]), false)
    }
}

/// The tokens of `s`.
pub open spec fn tokens_of(s: Seq<char>) -> Seq<Seq<char>> {
    tokens_from(s, 0, Seq::empty(), false)
}

/// Splits source into tokens: parentheses stand alone, white space separates,
/// and a `;` comment runs to the end of its line.
pub fn tokenize(input: &Vec<char>) -> (r: Vec<Vec<char>>)
    ensures
        texts_view(r@) == tokens_of(input@),
        forall|k: int| 0 <= k < r@.len() ==> (#[trigger] r@[k])@.len() > 0,
        forall|k: int|
            0 <= k < r@.len() ==> ((#[trigger] r@[k])@.contains('(') || r@[k]@.contains(')'))
                ==> r@[k]@.len() == 1,
{
    let mut out: Vec<Vec<char>> = Vec::new();
    let mut buf: Vec<char> = Vec::new();
    let mut i: usize = 0;
    proof {
        assert(texts_view(out@) + tokens_of(input@) =~= tokens_of(input@));
    }
    while i < input.len()
        invariant
            i <= input.len(),
            !buf@.contains('('),
            !buf@.contains(')'),
            forall|k: int| 0 <= k < out@.len() ==> (#[trigger] out@[k])@.len() > 0,
            forall|k: int|
                0 <= k < out@.len() ==> ((#[trigger] out@[k])@.contains('(')
                    || out@[k]@.contains(')')) ==> out@[k]@.len() == 1,
            tokens_of(input@) == texts_view(out@) + tokens_from(input@, i as int, buf@, false),
        decreases input.len() - i,
    {
        let ch = input[i];
        let ghost before = texts_view(out@);
        if ch == ';' {
            let mut j = i + 1;
            while j < input.len() && input[j] != '\n'
                invariant
                    i < j <= input.len(),
                    tokens_from(input@, i as int, buf@, false) == tokens_from(input@, j as int, buf@, true),
                decreases input.len() - j,
            {
                j += 1;
            }
            proof {
                if j < input.len() {
                    assert(spec_is_whitespace(input@[j as int]));
                    assert(tokens_from(input@, j as int, buf@, true) == flushed(buf@) + tokens_from(
                        input@,
                        j + 1,
                        Seq::empty(),
                        false,
                    ));
                    assert(tokens_from(input@, j as int, buf@, false) == flushed(buf@) + tokens_from(
                        input@,
                        j + 1,
                        Seq::empty(),
                        false,
                    ));
                }
            }
            i = j;
        } else if ch == '(' || ch == ')' {
            let ghost b_old = buf@;
            if buf.len() > 0 {
                let ghost b = buf@;
                out.push(buf);
                buf = Vec::new();
                proof {
                    assert(texts_view(out@) =~= before.push(b));
                }
            } else {
                proof {
                    assert(texts_view(out@) =~= before);
                }
            }
            let ghost mid = texts_view(out@);
            let mut t: Vec<char> = Vec::new();
            t.push(ch);
            out.push(t);
            proof {
                assert(texts_view(out@) =~= mid.push(seq![ch]));
                assert(mid =~= before + flushed(b_old));
                assert(tokens_from(input@, i as int, b_old, false) == flushed(b_old) + seq![seq![ch]]
                    + tokens_from(input@, i + 1, Seq::empty(), false));
                assert(buf@ =~= Seq::<char>::empty());
                assert(before + (flushed(b_old) + seq![seq![ch]] + tokens_from(
                    input@,
                    i + 1,
                    Seq::empty(),
                    false,
                )) =~= texts_view(out@) + tokens_from(input@, i + 1, Seq::empty(), false));
            }
            i += 1;
        } else if is_whitespace(ch) {
            if buf.len() > 0 {
                let ghost b = buf@;
                out.push(buf);
                buf = Vec::new();
                proof {
                    assert(texts_view(out@) =~= before.push(b));
                    assert(before + (flushed(b) + tokens_from(input@, i + 1, Seq::empty(), false))
                        =~= texts_view(out@) + tokens_from(input@, i + 1, Seq::empty(), false));
                }
            } else {
                proof {
                    assert(buf@ =~= Seq::<char>::empty());
                    assert(texts_view(out@) =~= before);
                    assert(before + (flushed(buf@) + tokens_from(input@, i + 1, Seq::empty(), false))
                        =~= texts_view(out@) + tokens_from(input@, i + 1, Seq::empty(), false));
                }
            }
            i += 1;
        } else {
            let ghost b0 = buf@;
            buf.push(ch);
            assert(buf@ == b0.push(ch));
            assert(!buf@.contains('(')) by {
                if buf@.contains('(') {
                    let k = choose|k: int| 0 <= k < buf@.len() && buf@[k] == '(';
                    if k < b0.len() {
                        assert(b0[k] == '(');
                    }
                }
            }
            assert(!buf@.contains(')')) by {
                if buf@.contains(')') {
                    let k = choose|k: int| 0 <= k < buf@.len() && buf@[k] == ')';
                    if k < b0.len() {
                        assert(b0[k] == ')');
                    }
                }
            }
            assert(!spec_is_whitespace(ch));
            assert(tokens_from(input@, i as int, b0, false) == tokens_from(input@, i + 1, buf@, false));
            i += 1;
        }
    }
    let ghost before = texts_view(out@);
    if buf.len() > 0 {
        let ghost b = buf@;
        out.push(buf);
        proof {
            assert(texts_view(out@) =~= before.push(b));
            assert(before + seq![b] =~= before.push(b));
        }
    } else {
        proof {
            assert(before + Seq::<Seq<char>>::empty() =~= before);
        }
    }
    out
}

/// A token without its leading minus sign, if it has one.
pub open spec fn unsigned_part(tok: Seq<char>) -> Seq<char> {
    if tok.len() > 0 && tok[0] == '-' {
        tok.drop_first()
    } else {
        tok
    }
}

/// All characters of `s` are decimal digits.
pub open spec fn all_digits(s: Seq<char>) -> bool {
    forall|m: int| 0 <= m < s.len() ==> spec_is_digit(#[trigger] s[m])
}

/// The token is an optional `-` followed by decimal digits, with at least
/// one digit somewhere.
pub open spec fn spec_is_integer(tok: Seq<char>) -> bool {
    tok != seq!['-'] && (exists|k: int| 0 <= k < tok.len() && spec_is_digit(#[trigger] tok[k]))
        && all_digits(unsigned_part(tok))
}

fn digits_from(tok: &Vec<char>, start: usize) -> (r: bool)
    requires
        start <= tok.len(),
    ensures
        r == all_digits(tok@.skip(start as int)),
{
    let ghost body = tok@.skip(start as int);
    let mut j = start;
    while j < tok.len()
        invariant
            start <= j <= tok.len(),
            body == tok@.skip(start as int),
            forall|m: int| 0 <= m < j - start ==> spec_is_digit(#[trigger] body[m]),
        decreases tok.len() - j,
    {
        if !('0' <= tok[j] && tok[j] <= '9') {
            assert(!spec_is_digit(body[j - start]));
            return false;
        }
        j += 1;
    }
    true
}

/// Whether a token reads as an integer literal.
pub fn is_integer(tok: &Vec<char>) -> (r: bool)
    ensures
        r == spec_is_integer(tok@),
{
    proof {
        reveal_strlit("-");
    }
    if text_is(tok, "-") {
        return false;
    }
    let mut has_digit = false;
    let mut k: usize = 0;
    while k < tok.len()
        invariant
            k <= tok.len(),
            has_digit == exists|j: int| 0 <= j < k && spec_is_digit(#[trigger] tok@[j]),
        decreases tok.len() - k,
    {
        if '0' <= tok[k] && tok[k] <= '9' {
            has_digit = true;
        }
        k += 1;
    }
    if !has_digit {
        return false;
    }
    let start: usize = if tok.len() > 0 && tok[0] == '-' {
        1
    } else {
        0
    };
    assert(unsigned_part(tok@) =~= tok@.skip(start as int));
    digits_from(tok, start)
}

/// The decimal value of a digit sequence.
pub open spec fn digits_value(ds: Seq<char>) -> int
    decreases ds.len(),
{
    if ds.len() == 0 {
        0
    } else {
        digits_value(ds.drop_last()) * 10 + (ds.last() as int - '0' as int)
    }
}

/// The value an integer token denotes.
pub open spec fn integer_token_value(tok: Seq<char>) -> int {
    if tok.len() > 0 && tok[0] == '-' {
        -digits_value(tok.drop_first())
    } else {
        digits_value(tok)
    }
}

/// Reads an integer token as an `i32`, or reports that it does not fit.
pub fn parse_i32_token(tok: &Vec<char>) -> (r: Result<i32, Vec<char>>)
    requires
        spec_is_integer(tok@),
    ensures
        match r {
            Ok(v) => v as int == integer_token_value(tok@),
            Err(_) => integer_token_value(tok@) < i32::MIN || integer_token_value(tok@)
                > i32::MAX,
        },
{
    let negative = tok.len() > 0 && tok[0] == '-';
    let start: usize = if negative {
        1
    } else {
        0
    };
    let ghost body = if tok@.len() > 0 && tok@[0] == '-' {
        tok@.drop_first()
    } else {
        tok@
    };
    assert(forall|m: int| 0 <= m < body.len() ==> spec_is_digit(#[trigger] body[m]));
    let mut value: i64 = 0;
    let mut j = start;
    let mut overflow = false;
    while j < tok.len()
        invariant
            start <= j <= tok.len(),
            body.len() == tok@.len() - start,
            forall|m: int| 0 <= m < body.len() ==> body[m] == tok@[m + start],
            forall|m: int| 0 <= m < body.len() ==> spec_is_digit(#[trigger] body[m]),
            !overflow ==> value == digits_value(body.take(j - start)),
            !overflow ==> 0 <= value <= 2147483648,
            overflow ==> digits_value(body.take(j - start)) > 2147483648,
        decreases tok.len() - j,
    {
        let d = tok[j];
        assert(spec_is_digit(body[j - start]));
        proof {
            let t = body.take(j + 1 - start);
            assert(t.drop_last() =~= body.take(j - start));
            assert(t.last() == d);
            lemma_digits_value_nonneg(body.take(j - start));
        }
        if !overflow {
            let next = value * 10 + ((d as u32 - '0' as u32) as i64);
            if next > 2147483648 {
                overflow = true;
            } else {
                value = next;
            }
        }
        j += 1;
    }
    proof {
        assert(body.take(body.len() as int) =~= body);
    }
    if overflow {
        return Err(if negative {
            chars_of("number too small to fit in target type")
        } else {
            chars_of("number too large to fit in target type")
        });
    }
    if negative {
        Ok((-value) as i32)
    } else if value > 2147483647 {
        Err(chars_of("number too large to fit in target type"))
    } else {
        Ok(value as i32)
    }
}

proof fn lemma_digits_value_nonneg(ds: Seq<char>)
    requires
        forall|m: int| 0 <= m < ds.len() ==> spec_is_digit(#[trigger] ds[m]),
    ensures
        digits_value(ds) >= 0,
    decreases ds.len(),
{
    if ds.len() > 0 {
        lemma_digits_value_nonneg(ds.drop_last());
        assert(spec_is_digit(ds[ds.len() - 1]));
    }
}

/// How many times `c` occurs in `s`.
pub open spec fn count_char(s: Seq<char>, c: char) -> nat
    decreases s.len(),
{
    if s.len() == 0 {
        0
    } else {
        count_char(s.drop_last(), c) + if s.last() == c {
            1nat
        } else {
            0nat
        }
    }
}

/// Every character of `s` is a digit or a `.`.
pub open spec fn digits_and_dots(s: Seq<char>) -> bool {
    forall|m: int| 0 <= m < s.len() ==> (spec_is_digit(#[trigger] s[m]) || s[m] == '.')
}

/// The token is an optional `-`, digits, exactly one `.`, digits, with at
/// least one digit.
pub open spec fn spec_is_float(tok: Seq<char>) -> bool {
    tok != seq!['-'] && tok != seq!['+'] && count_char(unsigned_part(tok), '.') == 1
        && digits_and_dots(unsigned_part(tok)) && unsigned_part(tok).len() >= 2
}

/// Whether a token reads as a decimal literal.
#[verifier::spinoff_prover]
pub fn is_float(tok: &Vec<char>) -> (r: bool)
    ensures
        r == spec_is_float(tok@),
{
    proof {
        reveal_strlit("-");
        reveal_strlit("+");
    }
    if text_is(tok, "-") || text_is(tok, "+") {
        return false;
    }
    let start: usize = if tok.len() > 0 && tok[0] == '-' {
        1
    } else {
        0
    };
    let ghost body = unsigned_part(tok@);
    assert(body =~= tok@.skip(start as int));
    let mut dots: usize = 0;
    let mut others = false;
    let mut j = start;
    while j < tok.len()
        invariant
            start <= j <= tok.len(),
            body == tok@.skip(start as int),
            dots == count_char(body.take(j - start), '.'),
            dots <= j - start,
            others == !digits_and_dots(body.take(j - start)),
        decreases tok.len() - j,
    {
        let c = tok[j];
        proof {
            let t = body.take(j + 1 - start);
            assert(t.drop_last() =~= body.take(j - start));
            assert(t.last() == c);
            if !others {
                if '0' <= c && c <= '9' || c == '.' {
                    assert(digits_and_dots(t)) by {
                        assert forall|m: int| 0 <= m < t.len() implies (spec_is_digit(
                            #[trigger] t[m],
                        ) || t[m] == '.') by {
                            if m < t.len() - 1 {
                                assert(t[m] == body.take(j - start)[m]);
                            }
                        }
                    }
                }
            } else {
                let m = choose|m: int|
                    0 <= m < j - start && !(spec_is_digit(#[trigger] body.take(j - start)[m])
                        || body.take(j - start)[m] == '.');
                assert(t[m] == body.take(j - start)[m]);
            }
            if !('0' <= c && c <= '9' || c == '.') {
                assert(!(spec_is_digit(t[j - start]) || t[j - start] == '.'));
            }
        }
        if c == '.' {
            dots += 1;
        } else if !('0' <= c && c <= '9') {
            others = true;
        }
        j += 1;
    }
    assert(body.take(body.len() as int) =~= body);
    dots == 1 && !others && tok.len() - start >= 2
}

/// `s` without its leading zeros.
pub open spec fn without_leading_zeros(s: Seq<char>) -> Seq<char>
    decreases s.len(),
{
    if s.len() > 0 && s[0] == '0' {
        without_leading_zeros(s.drop_first())
    } else {
        s
    }
}

/// `s` without its trailing zeros.
pub open spec fn without_trailing_zeros(s: Seq<char>) -> Seq<char>
    decreases s.len(),
{
    if s.len() > 0 && s[s.len() - 1] == '0' {
        without_trailing_zeros(s.drop_last())
    } else {
        s
    }
}

/// `s`, or `0` when it is empty.
pub open spec fn or_zero(s: Seq<char>) -> Seq<char> {
    if s.len() == 0 {
        seq!['0']
    } else {
        s
    }
}

/// Where the digits of a token start: after a leading minus sign.
pub open spec fn digits_start(tok: Seq<char>) -> int {
    if tok.len() > 0 && tok[0] == '-' {
        1
    } else {
        0
    }
}

/// The position of a decimal token's point, or its length.
pub open spec fn point_position(tok: Seq<char>) -> int {
    match first_index(tok, '.', digits_start(tok)) {
        Some(d) => d,
        None => tok.len() as int,
    }
}

/// A decimal token in the shortest form that keeps its digits: its sign,
/// the integer digits without leading zeros (or `0`), a point, and the
/// fraction digits without trailing zeros (or `0`).
pub open spec fn decimal_form(tok: Seq<char>) -> Seq<char> {
    let start = digits_start(tok);
    let dot = point_position(tok);
    let fraction = if dot < tok.len() {
        tok.subrange(dot + 1, tok.len() as int)
    } else {
        Seq::empty()
    };
    (if start == 1 {
        seq!['-']
    } else {
        Seq::empty()
    }) + or_zero(without_leading_zeros(tok.subrange(start, dot))) + seq!['.'] + or_zero(
        without_trailing_zeros(fraction),
    )
}

/// A decimal token in the shortest form that keeps its digits: no leading
/// zeros before the point beyond one, no trailing zeros after it beyond one.
#[verifier::spinoff_prover]
#[verifier::rlimit(50)]
fn decimal_text(tok: &Vec<char>) -> (r: Vec<char>)
    ensures
        r@ == decimal_form(tok@),
{
    let mut out: Vec<char> = Vec::new();
    let mut i: usize = 0;
    if tok.len() > 0 && tok[0] == '-' {
        out.push('-');
        i = 1;
    }
    let ghost sign = out@;
    assert(sign =~= if i == 1 {
        seq!['-']
    } else {
        Seq::<char>::empty()
    });
    let mut dot = i;
    while dot < tok.len() && tok[dot] != '.'
        invariant
            i <= dot <= tok.len(),
            i == digits_start(tok@),
            first_index(tok@, '.', i as int) == first_index(tok@, '.', dot as int),
        decreases tok.len() - dot,
    {
        dot += 1;
    }
    assert(dot == point_position(tok@));
    let mut first = i;
    while first < dot && tok[first] == '0'
        invariant
            i <= first <= dot,
            dot <= tok.len(),
            without_leading_zeros(tok@.subrange(i as int, dot as int)) == without_leading_zeros(
                tok@.subrange(first as int, dot as int),
            ),
        decreases dot - first,
    {
        assert(tok@.subrange(first as int, dot as int).drop_first() =~= tok@.subrange(
            first + 1,
            dot as int,
        ));
        first += 1;
    }
    let ghost whole = without_leading_zeros(tok@.subrange(i as int, dot as int));
    assert(whole == tok@.subrange(first as int, dot as int));
    if first == dot {
        out.push('0');
    }
    let ghost head = out@;
    let mut k = first;
    while k < dot
        invariant
            first <= k <= dot,
            dot <= tok.len(),
            out@ == head + tok@.subrange(first as int, k as int),
        decreases dot - k,
    {
        out.push(tok[k]);
        k += 1;
        assert(out@ =~= head + tok@.subrange(first as int, k as int));
    }
    assert(out@ =~= sign + or_zero(whole));
    out.push('.');
    let frac_start = if dot < tok.len() {
        dot + 1
    } else {
        tok.len()
    };
    let ghost fraction = tok@.subrange(frac_start as int, tok.len() as int);
    assert(fraction =~= if dot < tok.len() {
        tok@.subrange(dot + 1, tok.len() as int)
    } else {
        Seq::empty()
    });
    let mut last = tok.len();
    while last > frac_start && tok[last - 1] == '0'
        invariant
            frac_start <= last <= tok.len(),
            without_trailing_zeros(fraction) == without_trailing_zeros(
                tok@.subrange(frac_start as int, last as int),
            ),
        decreases last,
    {
        assert(tok@.subrange(frac_start as int, last as int).drop_last() =~= tok@.subrange(
            frac_start as int,
            last - 1,
        ));
        last -= 1;
    }
    let ghost tail = without_trailing_zeros(fraction);
    assert(tail == tok@.subrange(frac_start as int, last as int));
    let ghost mid = out@;
    if last == frac_start {
        out.push('0');
    }
    let ghost head2 = out@;
    let mut m = frac_start;
    while m < last
        invariant
            frac_start <= m <= last,
            last <= tok.len(),
            out@ == head2 + tok@.subrange(frac_start as int, m as int),
        decreases last - m,
    {
        out.push(tok[m]);
        m += 1;
        assert(out@ =~= head2 + tok@.subrange(frac_start as int, m as int));
    }
    assert(out@ =~= mid + or_zero(tail));
    proof {
        lemma_decimal_form_parts(tok@, i as int, dot as int, sign, whole, fraction, tail);
        assert(mid =~= sign + or_zero(whole) + seq!['.']);
    }
    out
}

proof fn lemma_decimal_form_parts(
    tok: Seq<char>,
    start: int,
    dot: int,
    sign: Seq<char>,
    whole: Seq<char>,
    fraction: Seq<char>,
    tail: Seq<char>,
)
    requires
        start == digits_start(tok),
        dot == point_position(tok),
        sign == (if start == 1 {
            seq!['-']
        } else {
            Seq::<char>::empty()
        }),
        whole == without_leading_zeros(tok.subrange(start, dot)),
        fraction == (if dot < tok.len() {
            tok.subrange(dot + 1, tok.len() as int)
        } else {
            Seq::<char>::empty()
        }),
        tail == without_trailing_zeros(fraction),
    ensures
        decimal_form(tok) == sign + or_zero(whole) + seq!['.'] + or_zero(tail),
{
}

/// What a token other than a parenthesis reads as: an `i32` integer, a
/// decimal, or a word; `None` for an integer that does not fit.
pub open spec fn atom(tok: Seq<char>) -> Option<Sexp> {
    if spec_is_integer(tok) {
        if i32::MIN <= integer_token_value(tok) <= i32::MAX {
            Some(Sexp::Int(integer_token_value(tok)))
        } else {
            None
        }
    } else if spec_is_float(tok) {
        Some(Sexp::Dec(decimal_form(tok)))
    } else {
        Some(Sexp::Word(tok))
    }
}

/// The expression read from `tokens[i..]` and the position after it.
pub open spec fn read_expr(tokens: Seq<Seq<char>>, i: int) -> Option<(Sexp, int)>
    decreases tokens.len() - i, 0int,
{
    if i < 0 || i >= tokens.len() {
        None
    } else if tokens[i] == seq!['('] {
        match read_list(tokens, i + 1, Seq::empty()) {
            Some((items, j)) => Some((Sexp::List(items), j)),
            None => None,
        }
    } else if tokens[i] == seq![')'] {
        None
    } else {
        match atom(tokens[i]) {
            Some(a) => Some((a, i + 1)),
            None => None,
        }
    }
}

/// The expressions read from `tokens[i..]` up to the `)` that closes a
/// list, after `acc`, and the position after that `)`.
pub open spec fn read_list(tokens: Seq<Seq<char>>, i: int, acc: Seq<Sexp>) -> Option<(Seq<Sexp>, int)>
    decreases tokens.len() - i, 1int,
{
    if i < 0 || i >= tokens.len() {
        None
    } else if tokens[i] == seq![')'] {
        Some((acc, i + 1))
    } else {
        match read_expr(tokens, i) {
            None => None,
            Some((e, j)) => if i < j <= tokens.len() {
                read_list(tokens, j, acc.push(e))
            } else {
                None
            },
        }
    }
}

/// Reading moves forward.
pub proof fn lemma_read_advances(tokens: Seq<Seq<char>>, i: int)
    ensures
        read_expr(tokens, i) matches Some((e, j)) ==> i < j <= tokens.len(),
{
    if 0 <= i < tokens.len() && tokens[i] == seq!['('] {
        lemma_read_list_bound(tokens, i + 1, Seq::empty());
    }
}

proof fn lemma_read_list_bound(tokens: Seq<Seq<char>>, i: int, acc: Seq<Sexp>)
    ensures
        read_list(tokens, i, acc) matches Some((items, j)) ==> i < j <= tokens.len(),
    decreases tokens.len() - i,
{
    if 0 <= i < tokens.len() && tokens[i] != seq![')'] {
        if let Some((e, k)) = read_expr(tokens, i) {
            if i < k <= tokens.len() {
                lemma_read_list_bound(tokens, k, acc.push(e));
            }
        }
    }
}

/// The top-level expressions read from `tokens[i..]`, after `acc`.
pub open spec fn read_all(tokens: Seq<Seq<char>>, i: int, acc: Seq<Sexp>) -> Option<Seq<Sexp>>
    decreases tokens.len() - i,
{
    if i < 0 || i >= tokens.len() {
        Some(acc)
    } else {
        match read_expr(tokens, i) {
            None => None,
            Some((e, j)) => if i < j <= tokens.len() {
                read_all(tokens, j, acc.push(e))
            } else {
                None
            },
        }
    }
}

/// Reads one expression starting at token `*i`, advancing `*i` past it.
pub fn parse_expr(tokens: &Vec<Vec<char>>, i: &mut usize) -> (r: Result<Expression, Vec<char>>)
    requires
        *old(i) <= tokens@.len(),
    ensures
        *old(i) <= *final(i) <= tokens@.len(),
        r is Ok <==> read_expr(texts_view(tokens@), *old(i) as int) is Some,
        r matches Ok(e) ==> read_expr(texts_view(tokens@), *old(i) as int) == Some(
            (shape(e), *final(i) as int),
        ),
    decreases tokens@.len() - *old(i),
{
    let ghost tv = texts_view(tokens@);
    let ghost start = *i as int;
    proof {
        reveal_strlit("(");
        reveal_strlit(")");
        assert("("@ =~= seq!['(']);
        assert(")"@ =~= seq![')']);
    }
    if *i >= tokens.len() {
        return Err(chars_of("Unexpected end of input"));
    }
    let tok = &tokens[*i];
    assert(tok@ == tv[start]);
    if text_is(tok, "(") {
        assert(tv[start] == seq!['(']);
        *i = *i + 1;
        let mut exprs: Vec<Expression> = Vec::new();
        proof {
            assert(shapes(exprs@) =~= Seq::<Sexp>::empty());
            reveal_strlit(")");
        }
        let mut closing = false;
        if *i < tokens.len() {
            closing = text_is(&tokens[*i], ")");
            assert(tv[*i as int] == tokens@[*i as int]@);
            assert(")"@ =~= seq![')']);
        }
        while *i < tokens.len() && !closing
            invariant
                start < *i <= tokens@.len(),
                0 <= start < tv.len(),
                tv == texts_view(tokens@),
                tv[start] == seq!['('],
                closing == (*i < tokens@.len() && tv[*i as int] == seq![')']),
                read_list(tv, start + 1, Seq::empty()) == read_list(tv, *i as int, shapes(exprs@)),
            decreases tokens@.len() - *i,
        {
            let ghost at = *i as int;
            let e = parse_expr(tokens, i)?;
            proof {
                lemma_read_advances(tv, at);
                lemma_shapes_push(exprs@, e);
                reveal_strlit(")");
            }
            exprs.push(e);
            closing = false;
            if *i < tokens.len() {
                closing = text_is(&tokens[*i], ")");
                assert(tv[*i as int] == tokens@[*i as int]@);
                assert(")"@ =~= seq![')']);
            }
        }
        if *i >= tokens.len() {
            return Err(chars_of("Unclosed '('"));
        }
        *i = *i + 1;
        Ok(Expression::Apply(exprs))
    } else if text_is(tok, ")") {
        Err(chars_of("Unexpected ')'"))
    } else {
        *i = *i + 1;
        if is_integer(tok) {
            match parse_i32_token(tok) {
                Ok(n) => Ok(Expression::Int(n)),
                Err(e) => {
                    let mut msg = chars_of("Bad integer '");
                    push_text(&mut msg, tok);
                    push_str(&mut msg, "': ");
                    push_text(&mut msg, &e);
                    Err(msg)
                },
            }
        } else if is_float(tok) {
            Ok(Expression::Dec(decimal_text(tok)))
        } else {
            Ok(Expression::Word(copy_text(tok)))
        }
    }
}

/// The top-level expressions of preprocessed source: `None` when its
/// parentheses do not balance or a token sequence does not read.
pub open spec fn read_program(src: Seq<char>) -> Option<Seq<Sexp>> {
    if delimiters_balanced(src, DelimiterMode::ParenOnly) {
        read_all(tokens_of(src), 0, Seq::empty())
    } else {
        None
    }
}

/// Reads all top-level expressions of preprocessed source.
pub fn parse_text(src: &Vec<char>) -> (r: Result<Vec<Expression>, Vec<char>>)
    ensures
        r is Ok <==> read_program(src@) is Some,
        r matches Ok(v) ==> shapes(v@) == read_program(src@)->0,
{
    if let Some(report) = delimiter_debug_report(src, DelimiterMode::ParenOnly) {
        return Err(report);
    }
    let tokens = tokenize(src);
    let ghost tv = texts_view(tokens@);
    let mut i: usize = 0;
    let mut exprs: Vec<Expression> = Vec::new();
    proof {
        assert(shapes(exprs@) =~= Seq::<Sexp>::empty());
    }
    while i < tokens.len()
        invariant
            i <= tokens@.len(),
            tv == texts_view(tokens@),
            tv == tokens_of(src@),
            read_all(tv, 0, Seq::empty()) == read_all(tv, i as int, shapes(exprs@)),
        decreases tokens@.len() - i,
    {
        let ghost at = i as int;
        match parse_expr(&tokens, &mut i) {
            Ok(e) => {
                proof {
                    lemma_read_advances(tv, at);
                    lemma_shapes_push(exprs@, e);
                }
                exprs.push(e);
            },
            Err(e) => {
                let mut msg = chars_of("Error parsing expression at token index ");
                push_usize(&mut msg, i);
                push_str(&mut msg, ": ");
                push_text(&mut msg, &e);
                return Err(msg);
            },
        }
    }
    Ok(exprs)
}

/// The decimal code of a character.
pub open spec fn code_text(c: char) -> Seq<char> {
    int_text(c as int)
}

fn push_code(out: &mut Vec<char>, c: char)
    ensures
        final(out)@ == old(out)@ + code_text(c),
{
    let code = c as u32;
    let digits = int_to_text(code as i64);
    push_text(out, &digits);
}

/// The codes of `s`, separated by single spaces.
pub open spec fn codes_text(s: Seq<char>) -> Seq<char>
    decreases s.len(),
{
    if s.len() == 0 {
        Seq::empty()
    } else if s.len() == 1 {
        code_text(s[0])
    } else {
        codes_text(s.drop_last()) + seq![' '] + code_text(s.last())
    }
}

/// Where a literal that opens before `i` and closes with `q` ends: the
/// position of the closing quote, or the end of the source.
pub open spec fn literal_stop(src: Seq<char>, i: int, q: char) -> int {
    match first_index(src, q, i) {
        Some(k) => k,
        None => src.len() as int,
    }
}

/// Where reading goes on after a literal that opens before `i` and closes
/// with `q`: past the closing quote, or at the end of the source.
pub open spec fn literal_next(src: Seq<char>, i: int, q: char) -> int {
    if literal_stop(src, i, q) < src.len() {
        literal_stop(src, i, q) + 1
    } else {
        src.len() as int
    }
}

/// Where a comment that starts before `i` ends: at its newline, or at the
/// end of the source.
pub open spec fn comment_stop(src: Seq<char>, i: int) -> int {
    match first_index(src, '\n', i) {
        Some(k) => k,
        None => src.len() as int,
    }
}

/// `piece` before what follows, when that is accepted.
pub open spec fn then_rest(piece: Seq<char>, rest: Option<Seq<char>>) -> Option<Seq<char>> {
    match rest {
        Some(r) => Some(piece + r),
        None => None,
    }
}

/// The text `src[i..]` becomes once its literal syntax is rewritten;
/// `None` for a character literal that is not one ASCII character.
pub open spec fn rewritten_from(src: Seq<char>, i: int) -> Option<Seq<char>>
    decreases src.len() - i,
{
    if i < 0 || i >= src.len() {
        Some(Seq::empty())
    } else {
        let c = src[i];
        proof {
            lemma_first_index(src, '\n', i + 1);
            lemma_first_index(src, '"', i + 1);
            lemma_first_index(src, '\'', i + 1);
        }
        if c == ';' {
            rewritten_from(src, comment_stop(src, i + 1))
        } else if c == '[' {
            then_rest("(vector "@, rewritten_from(src, i + 1))
        } else if c == ']' || c == '}' {
            then_rest(seq![')'], rewritten_from(src, i + 1))
        } else if c == '{' {
            then_rest("(tuple "@, rewritten_from(src, i + 1))
        } else if c == '"' {
            let stop = literal_stop(src, i + 1, '"');
            then_rest(
                "(string "@ + codes_text(src.subrange(i + 1, stop)) + seq![')'],
                rewritten_from(src, literal_next(src, i + 1, '"')),
            )
        } else if c == '\'' {
            let stop = literal_stop(src, i + 1, '\'');
            let body = src.subrange(i + 1, stop);
            if body.len() == 1 && body[0] <= '\x7f' {
                then_rest(
                    "(char "@ + code_text(body[0]) + seq![')'],
                    rewritten_from(src, literal_next(src, i + 1, '\'')),
                )
            } else {
                None
            }
        } else {
            then_rest(seq![c], rewritten_from(src, i + 1))
        }
    }
}

proof fn lemma_rewrite_step(src: Seq<char>, at: int)
    requires
        0 <= at < src.len(),
    ensures
        src[at] == ';' ==> rewritten_from(src, at) == rewritten_from(src, comment_stop(src, at + 1)),
        src[at] == '[' ==> rewritten_from(src, at) == then_rest("(vector "@, rewritten_from(src, at + 1)),
        src[at] == ']' || src[at] == '}' ==> rewritten_from(src, at) == then_rest(
            seq![')'],
            rewritten_from(src, at + 1),
        ),
        src[at] == '{' ==> rewritten_from(src, at) == then_rest("(tuple "@, rewritten_from(src, at + 1)),
        src[at] == '"' ==> rewritten_from(src, at) == then_rest(
            "(string "@ + codes_text(src.subrange(at + 1, literal_stop(src, at + 1, '"'))) + seq![')'],
            rewritten_from(src, literal_next(src, at + 1, '"')),
        ),
        src[at] == '\'' ==> {
            let body = src.subrange(at + 1, literal_stop(src, at + 1, '\''));
            rewritten_from(src, at) == if body.len() == 1 && body[0] <= '\x7f' {
                then_rest(
                    "(char "@ + code_text(body[0]) + seq![')'],
                    rewritten_from(src, literal_next(src, at + 1, '\'')),
                )
            } else {
                None
            }
        },
        !(src[at] == ';' || src[at] == '[' || src[at] == ']' || src[at] == '}' || src[at] == '{'
            || src[at] == '"' || src[at] == '\'') ==> rewritten_from(src, at) == then_rest(
            seq![src[at]],
            rewritten_from(src, at + 1),
        ),
{
}

/// The source with its literal syntax rewritten, when its delimiters
/// balance and its character literals are single ASCII characters.
pub open spec fn preprocessed(src: Seq<char>) -> Option<Seq<char>> {
    if delimiters_balanced(src, DelimiterMode::SourceDelimiters) {
        rewritten_from(src, 0)
    } else {
        None
    }
}

/// Reads a literal's characters from `*i` up to its closing `q`, moving
/// `*i` past that quote (or to the end of the source).
fn read_literal(source: &Vec<char>, i: &mut usize, q: char) -> (r: Vec<char>)
    requires
        *old(i) <= source@.len(),
    ensures
        r@ == source@.subrange(*old(i) as int, literal_stop(source@, *old(i) as int, q)),
        *final(i) == literal_next(source@, *old(i) as int, q),
{
    let ghost start = *i as int;
    proof {
        lemma_first_index(source@, q, start);
    }
    let mut s: Vec<char> = Vec::new();
    while *i < source.len() && source[*i] != q
        invariant
            start <= *i <= source@.len(),
            first_index(source@, q, start) == first_index(source@, q, *i as int),
            s@ == source@.subrange(start, *i as int),
        decreases source.len() - *i,
    {
        s.push(source[*i]);
        *i = *i + 1;
        assert(s@ =~= source@.subrange(start, *i as int));
    }
    if *i < source.len() {
        *i = *i + 1;
    }
    s
}

/// Rewrites literal syntax into plain applications: `[..]` becomes
/// `(vector ..)`, `{..}` becomes `(tuple ..)`, a string becomes `(string ..)`
/// of character codes and a character becomes `(char code)`.  Comments are
/// dropped.
#[verifier::spinoff_prover]
#[verifier::rlimit(50)]
pub fn preprocess(source: &Vec<char>) -> (r: Result<Vec<char>, Vec<char>>)
    ensures
        r is Ok <==> preprocessed(source@) is Some,
        r matches Ok(t) ==> t@ == preprocessed(source@)->0,
{
    if let Some(report) = delimiter_debug_report(source, DelimiterMode::SourceDelimiters) {
        return Err(report);
    }
    let mut out: Vec<char> = Vec::new();
    let mut i: usize = 0;
    proof {
        assert(then_rest(out@, rewritten_from(source@, 0)) == rewritten_from(source@, 0)) by {
            if let Some(x) = rewritten_from(source@, 0) {
                assert(out@ + x =~= x);
            }
        }
    }
    while i < source.len()
        invariant
            i <= source.len(),
            delimiters_balanced(source@, DelimiterMode::SourceDelimiters),
            rewritten_from(source@, 0) == then_rest(out@, rewritten_from(source@, i as int)),
        decreases source.len() - i,
    {
        let ch = source[i];
        let ghost at = i as int;
        let ghost before = out@;
        proof {
            lemma_rewrite_step(source@, at);
            lemma_first_index(source@, '"', at + 1);
            lemma_first_index(source@, '\'', at + 1);
            lemma_first_index(source@, '\n', at + 1);
        }
        i += 1;
        if ch == ';' {
            while i < source.len() && source[i] != '\n'
                invariant
                    at + 1 <= i <= source.len(),
                    first_index(source@, '\n', at + 1) == first_index(source@, '\n', i as int),
                decreases source.len() - i,
            {
                i += 1;
            }
            assert(i == comment_stop(source@, at + 1));
            assert(rewritten_from(source@, at) == rewritten_from(source@, i as int));
        } else if ch == '[' {
            push_str(&mut out, "(vector ");
            proof {
                reveal_strlit("(vector ");
                lemma_then_rest_assoc(before, "(vector "@, rewritten_from(source@, i as int));
            }
        } else if ch == ']' || ch == '}' {
            out.push(')');
            proof {
                assert(out@ == before + seq![')']);
                lemma_then_rest_assoc(before, seq![')'], rewritten_from(source@, i as int));
            }
        } else if ch == '{' {
            push_str(&mut out, "(tuple ");
            proof {
                reveal_strlit("(tuple ");
                lemma_then_rest_assoc(before, "(tuple "@, rewritten_from(source@, i as int));
            }
        } else if ch == '"' {
            let s = read_literal(source, &mut i, '"');
            push_str(&mut out, "(string ");
            let mut k: usize = 0;
            let ghost head = out@;
            while k < s.len()
                invariant
                    k <= s@.len(),
                    out@ == head + codes_text(s@.take(k as int)),
                decreases s.len() - k,
            {
                if k > 0 {
                    out.push(' ');
                }
                push_code(&mut out, s[k]);
                proof {
                    let t = s@.take(k + 1);
                    assert(t.drop_last() =~= s@.take(k as int));
                    if k == 0 {
                        assert(codes_text(s@.take(0)) =~= Seq::<char>::empty());
                        assert(out@ =~= head + codes_text(t));
                    } else {
                        assert(out@ =~= head + codes_text(t));
                    }
                }
                k += 1;
            }
            out.push(')');
            proof {
                assert(s@.take(s@.len() as int) =~= s@);
                let stop = literal_stop(source@, at + 1, '"');
                let piece = "(string "@ + codes_text(source@.subrange(at + 1, stop)) + seq![')'];
                assert(out@ =~= before + piece);
                lemma_then_rest_assoc(before, piece, rewritten_from(source@, i as int));
            }
        } else if ch == '\'' {
            let s = read_literal(source, &mut i, '\'');
            if !(s.len() == 1 && s[0] <= '\x7f') {
                proof {
                    assert(rewritten_from(source@, at) is None);
                }
                return Err(chars_of("Char should be of length 1"));
            }
            push_str(&mut out, "(char ");
            push_code(&mut out, s[0]);
            out.push(')');
            proof {
                let stop = literal_stop(source@, at + 1, '\'');
                let piece = "(char "@ + code_text(s@[0]) + seq![')'];
                assert(out@ =~= before + piece);
                lemma_then_rest_assoc(before, piece, rewritten_from(source@, i as int));
            }
        } else {
            out.push(ch);
            proof {
                assert(out@ == before + seq![ch]);
                lemma_then_rest_assoc(before, seq![ch], rewritten_from(source@, i as int));
            }
        }
    }
    proof {
        assert(out@ + Seq::<char>::empty() =~= out@);
    }
    Ok(out)
}

proof fn lemma_then_rest_assoc(a: Seq<char>, b: Seq<char>, rest: Option<Seq<char>>)
    ensures
        then_rest(a, then_rest(b, rest)) == then_rest(a + b, rest),
{
    if let Some(r) = rest {
        assert(a + (b + r) =~= (a + b) + r);
    }
}

} // verus!
