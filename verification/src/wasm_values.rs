//! The text-level decisions of running compiled programs: the result type a
//! module announces, how composite result types split, the optimization level
//! setting, and the messages of guard traps.
use vstd::prelude::*;
use crate::facts::has_prefix;
use crate::text::{
    chars_of, copy_text, slice_text, split_lines, starts_with, text_eq, text_is, text_lines, text_of,
    text_to_string, trim, trimmed, lemma_trimmed_len,
};

verus! {

/// The error `wat::parse_str` reports, carried through unchanged.
#[verifier::external_type_specification]
#[verifier::external_body]
pub struct ExWatError(wat::Error);

/// The binary module `wat::parse_str` makes of a text, or `None` where it
/// refuses the text.
pub uninterp spec fn wat_binary(text: Seq<char>) -> Option<Seq<u8>>;

/// Calls `wat::parse_str`.  The claim: the call depends on the text alone, and
/// succeeds exactly when `wat_binary` gives a module, which it returns.
#[verifier::external_body]
fn parse_wat(text: &str) -> (r: Result<Vec<u8>, wat::Error>)
    ensures
        r is Ok <==> wat_binary(text@) is Some,
        r matches Ok(b) ==> b@ == wat_binary(text@)->0,
{
    wat::parse_str(text)
}

/// Calls `to_string` on a `wat::Error` (its `Display` text); nothing is
/// claimed of the text.
#[verifier::external_body]
fn wat_error_text(e: &wat::Error) -> String {
    e.to_string()
}

/// The WebAssembly binary for a module written in the text format; a text
/// the assembler refuses gives its error message.
pub fn wasm_of_wat(text: &str) -> (r: Result<Vec<u8>, String>)
    ensures
        r is Ok <==> wat_binary(text@) is Some,
        r matches Ok(b) ==> b@ == wat_binary(text@)->0,
{
    match parse_wat(text) {
        Ok(bytes) => Ok(bytes),
        Err(e) => Err(wat_error_text(&e)),
    }
}

/// The type a module's text announces: the first line, when it starts with
/// `;; Type:`, with that prefix cut and the rest trimmed.
pub open spec fn announced_type(src: Seq<char>) -> Option<Seq<char>> {
    let lines = text_lines(src);
    if lines.len() > 0 && has_prefix(lines[0], ";; Type:"@) {
        Some(trimmed(lines[0].skip(";; Type:"@.len() as int)))
    } else {
        None
    }
}

/// The result type a module announces on its first line, `;; Type: <type>`.
pub fn extract_type_from_wat(src: &str) -> (r: Option<String>)
    ensures
        r is Some <==> announced_type(src@) is Some,
        r matches Some(t) ==> t@ == announced_type(src@)->0,
{
    let text = text_of(src);
    let lines = split_lines(&text);
    if lines.len() == 0 {
        return None;
    }
    let first = &lines[0];
    assert(first@ == text_lines(src@)[0]);
    let prefix = chars_of(";; Type:");
    if !starts_with(first, &prefix) {
        return None;
    }
    let rest = slice_text(first, prefix.len(), first.len());
    assert(rest@ =~= first@.skip(prefix@.len() as int));
    Some(text_to_string(&trim(&rest)))
}

/// The parts of a tuple type read from `s[i..]`: `depth` counts the
/// brackets and braces open, and `cur` is the part read so far.  A `*` at
/// depth zero ends a part; a last part counts when it is not empty; each
/// part is trimmed.
pub open spec fn tuple_parts(s: Seq<char>, i: int, depth: int, cur: Seq<char>) -> Seq<Seq<char>>
    decreases s.len() - i,
{
    if i < 0 || i >= s.len() {
        if cur.len() > 0 {
            seq![trimmed(cur)]
        } else {
            Seq::empty()
        }
    } else if s[i] == '[' || s[i] == '{' {
        tuple_parts(s, i + 1, depth + 1, cur.push(s[i]))
    } else if s[i] == ']' || s[i] == '}' {
        tuple_parts(s, i + 1, depth - 1, cur.push(s[i]))
    } else if s[i] == '*' && depth == 0 {
        seq![trimmed(cur)] + tuple_parts(s, i + 1, depth, Seq::empty())
    } else {
        tuple_parts(s, i + 1, depth, cur.push(s[i]))
    }
}

/// Each part `tuple_parts` cuts is no longer than the text it is cut from.
pub proof fn lemma_tuple_parts_short(s: Seq<char>, i: int, depth: int, cur: Seq<char>)
    requires
        0 <= i <= s.len(),
    ensures
        forall|k: int|
            0 <= k < tuple_parts(s, i, depth, cur).len() ==> #[trigger] tuple_parts(
                s,
                i,
                depth,
                cur,
            )[k].len() <= cur.len() + s.len() - i,
    decreases s.len() - i,
{
    lemma_trimmed_len(cur);
    if i < s.len() {
        if s[i] == '*' && depth == 0 {
            lemma_tuple_parts_short(s, i + 1, depth, Seq::empty());
            let rest = tuple_parts(s, i + 1, depth, Seq::empty());
            assert forall|k: int|
                0 <= k < tuple_parts(s, i, depth, cur).len() implies #[trigger] tuple_parts(
                s,
                i,
                depth,
                cur,
            )[k].len() <= cur.len() + s.len() - i by {
                if k > 0 {
                    assert(tuple_parts(s, i, depth, cur)[k] == rest[k - 1]);
                }
            }
        } else if s[i] == '[' || s[i] == '{' {
            lemma_tuple_parts_short(s, i + 1, depth + 1, cur.push(s[i]));
            assert(tuple_parts(s, i, depth, cur) == tuple_parts(s, i + 1, depth + 1, cur.push(s[i])));
        } else if s[i] == ']' || s[i] == '}' {
            lemma_tuple_parts_short(s, i + 1, depth - 1, cur.push(s[i]));
            assert(tuple_parts(s, i, depth, cur) == tuple_parts(s, i + 1, depth - 1, cur.push(s[i])));
        } else {
            lemma_tuple_parts_short(s, i + 1, depth, cur.push(s[i]));
            assert(tuple_parts(s, i, depth, cur) == tuple_parts(s, i + 1, depth, cur.push(s[i])));
        }
    } else {
        if cur.len() > 0 {
            assert(tuple_parts(s, i, depth, cur) == seq![trimmed(cur)]);
        }
    }
}

/// The texts of a list of strings.
pub open spec fn strings_view(v: Seq<String>) -> Seq<Seq<char>> {
    v.map_values(|t: String| t@)
}

/// The element types of a tuple type `A * B * ...`: split at `*` outside
/// brackets and braces, each part trimmed; a trailing empty part is dropped.
pub fn split_tuple_types(s: &str) -> (r: Vec<String>)
    ensures
        strings_view(r@) == tuple_parts(s@, 0, 0, Seq::empty()),
{
    let text = text_of(s);
    let mut parts: Vec<String> = Vec::new();
    let mut current: Vec<char> = Vec::new();
    let mut depth: i128 = 0;
    let mut i: usize = 0;
    proof {
        assert(strings_view(parts@) + tuple_parts(s@, 0, 0, Seq::empty()) =~= tuple_parts(
            s@,
            0,
            0,
            Seq::empty(),
        ));
    }
    while i < text.len()
        invariant
            i <= text.len(),
            text@ == s@,
            -(i as int) <= depth <= i as int,
            tuple_parts(s@, 0, 0, Seq::empty()) == strings_view(parts@) + tuple_parts(
                s@,
                i as int,
                depth as int,
                current@,
            ),
        decreases text.len() - i,
    {
        let c = text[i];
        let ghost before = strings_view(parts@);
        if c == '[' || c == '{' {
            depth = depth + 1;
            current.push(c);
        } else if c == ']' || c == '}' {
            depth = depth - 1;
            current.push(c);
        } else if c == '*' && depth == 0 {
            let part = text_to_string(&trim(&current));
            let ghost pv = part@;
            parts.push(part);
            current = Vec::new();
            proof {
                assert(strings_view(parts@) =~= before.push(pv));
                assert(before + (seq![pv] + tuple_parts(s@, i + 1, 0, Seq::empty())) =~= before.push(pv)
                    + tuple_parts(s@, i + 1, 0, Seq::empty()));
            }
        } else {
            current.push(c);
        }
        i += 1;
    }
    let ghost before = strings_view(parts@);
    if current.len() > 0 {
        let part = text_to_string(&trim(&current));
        let ghost pv = part@;
        parts.push(part);
        proof {
            assert(strings_view(parts@) =~= before.push(pv));
            assert(before + seq![pv] =~= before.push(pv));
        }
    } else {
        proof {
            assert(before + Seq::<Seq<char>>::empty() =~= before);
        }
    }
    parts
}

/// Whether `s[i..]`, read at bracket `depth`, closes the pair that `s[0]`
/// opened exactly at its last character and never before; `saw` records
/// that the outer pair closed.
pub open spec fn closes_at_end(s: Seq<char>, i: int, depth: int, saw: bool, open: char, close: char) -> bool
    decreases s.len() - i,
{
    if i < 0 || i >= s.len() {
        depth == 0 && saw
    } else if s[i] == open {
        closes_at_end(s, i + 1, depth + 1, saw, open, close)
    } else if s[i] == close {
        if depth - 1 == 0 {
            i + 1 == s.len() && closes_at_end(s, i + 1, 0, true, open, close)
        } else if depth - 1 < 0 {
            false
        } else {
            closes_at_end(s, i + 1, depth - 1, saw, open, close)
        }
    } else {
        closes_at_end(s, i + 1, depth, saw, open, close)
    }
}

/// The inside of `t`, trimmed, when `t` (trimmed) is one balanced pair of
/// `open` and `close` around it.
pub open spec fn outer_inside(t: Seq<char>, open: char, close: char) -> Option<Seq<char>> {
    let s = trimmed(t);
    if s.len() > 0 && s[0] == open && s[s.len() - 1] == close && closes_at_end(
        s,
        0,
        0,
        false,
        open,
        close,
    ) && s.len() >= 2 {
        Some(trimmed(s.subrange(1, s.len() - 1)))
    } else {
        None
    }
}

/// The inside of a bracketed type is shorter than the type.
pub proof fn lemma_outer_inside_shorter(t: Seq<char>, open: char, close: char)
    ensures
        outer_inside(t, open, close) matches Some(x) ==> x.len() < t.len(),
{
    let s = trimmed(t);
    lemma_trimmed_len(t);
    if s.len() >= 2 {
        lemma_trimmed_len(s.subrange(1, s.len() - 1));
    }
}

/// The inside of `t`, trimmed, when `t` (trimmed) is one balanced pair of
/// `open` and `close` around it.
pub fn strip_outer_type(t: &str, open: char, close: char) -> (r: Option<String>)
    ensures
        r is Some <==> outer_inside(t@, open, close) is Some,
        r matches Some(x) ==> x@ == outer_inside(t@, open, close)->0,
{
    let s = trim(&text_of(t));
    let n = s.len();
    if n == 0 || s[0] != open || s[n - 1] != close {
        return None;
    }
    let mut depth: i128 = 0;
    let mut saw_outer_close_at_end = false;
    let mut i: usize = 0;
    while i < n
        invariant
            n == s.len(),
            i <= n,
            -(i as int) <= depth <= i as int,
            closes_at_end(s@, 0, 0, false, open, close) == closes_at_end(
                s@,
                i as int,
                depth as int,
                saw_outer_close_at_end,
                open,
                close,
            ),
        decreases n - i,
    {
        let ch = s[i];
        if ch == open {
            depth = depth + 1;
        } else if ch == close {
            depth = depth - 1;
            if depth == 0 {
                saw_outer_close_at_end = i + 1 == n;
                if !saw_outer_close_at_end {
                    return None;
                }
            } else if depth < 0 {
                return None;
            }
        }
        i += 1;
    }
    if depth != 0 || !saw_outer_close_at_end || n < 2 {
        return None;
    }
    let inner = slice_text(&s, 1, n - 1);
    Some(text_to_string(&trim(&inner)))
}

/// The code generator's optimization levels: none, for speed, and for
/// speed and size.
#[derive(Clone, Copy, Debug, PartialEq, Eq, Structural)]
pub enum WasmOptLevel {
    Unoptimized,
    Speed,
    SpeedAndSize,
}

/// The ASCII lowercase form of a character.
pub open spec fn ascii_lower(c: char) -> char {
    if c == 'A' {
        'a'
    } else if c == 'B' {
        'b'
    } else if c == 'C' {
        'c'
    } else if c == 'D' {
        'd'
    } else if c == 'E' {
        'e'
    } else if c == 'F' {
        'f'
    } else if c == 'G' {
        'g'
    } else if c == 'H' {
        'h'
    } else if c == 'I' {
        'i'
    } else if c == 'J' {
        'j'
    } else if c == 'K' {
        'k'
    } else if c == 'L' {
        'l'
    } else if c == 'M' {
        'm'
    } else if c == 'N' {
        'n'
    } else if c == 'O' {
        'o'
    } else if c == 'P' {
        'p'
    } else if c == 'Q' {
        'q'
    } else if c == 'R' {
        'r'
    } else if c == 'S' {
        's'
    } else if c == 'T' {
        't'
    } else if c == 'U' {
        'u'
    } else if c == 'V' {
        'v'
    } else if c == 'W' {
        'w'
    } else if c == 'X' {
        'x'
    } else if c == 'Y' {
        'y'
    } else if c == 'Z' {
        'z'
    } else {
        c
    }
}

/// The ASCII lowercase form of a character.
fn lower_char(c: char) -> (r: char)
    ensures
        r == ascii_lower(c),
{
    if c == 'A' {
        'a'
    } else if c == 'B' {
        'b'
    } else if c == 'C' {
        'c'
    } else if c == 'D' {
        'd'
    } else if c == 'E' {
        'e'
    } else if c == 'F' {
        'f'
    } else if c == 'G' {
        'g'
    } else if c == 'H' {
        'h'
    } else if c == 'I' {
        'i'
    } else if c == 'J' {
        'j'
    } else if c == 'K' {
        'k'
    } else if c == 'L' {
        'l'
    } else if c == 'M' {
        'm'
    } else if c == 'N' {
        'n'
    } else if c == 'O' {
        'o'
    } else if c == 'P' {
        'p'
    } else if c == 'Q' {
        'q'
    } else if c == 'R' {
        'r'
    } else if c == 'S' {
        's'
    } else if c == 'T' {
        't'
    } else if c == 'U' {
        'u'
    } else if c == 'V' {
        'v'
    } else if c == 'W' {
        'w'
    } else if c == 'X' {
        'x'
    } else if c == 'Y' {
        'y'
    } else if c == 'Z' {
        'z'
    } else {
        c
    }
}

/// `t` with ASCII letters lowercased.
fn to_ascii_lowercase(t: &Vec<char>) -> (r: Vec<char>)
    ensures
        r@.len() == t@.len(),
        forall|i: int| 0 <= i < t@.len() ==> r@[i] == ascii_lower(#[trigger] t@[i]),
{
    let mut out: Vec<char> = Vec::new();
    let mut i: usize = 0;
    while i < t.len()
        invariant
            i <= t.len(),
            out@.len() == i,
            forall|j: int| 0 <= j < i ==> out@[j] == ascii_lower(#[trigger] t@[j]),
        decreases t.len() - i,
    {
        out.push(lower_char(t[i]));
        i += 1;
    }
    out
}

/// `t` with ASCII letters lowercased.
pub open spec fn lowercased(t: Seq<char>) -> Seq<char> {
    Seq::new(t.len(), |i: int| ascii_lower(t[i]))
}

/// The optimization level a setting names once trimmed and lowercased.
pub open spec fn opt_level_named(name: Seq<char>) -> Option<WasmOptLevel> {
    if name == "none"@ {
        Some(WasmOptLevel::Unoptimized)
    } else if name == "speed"@ {
        Some(WasmOptLevel::Speed)
    } else if name == "speed_and_size"@ || name == "speed-size"@ || name == "size"@ {
        Some(WasmOptLevel::SpeedAndSize)
    } else {
        None
    }
}

/// The optimization level a `QUE_WASM_OPT` setting names, ignoring ASCII
/// case and surrounding white space: `none`, `speed`, or one of
/// `speed_and_size`, `speed-size` and `size`; any other value is refused
/// with a message that quotes it, lowercased.
pub fn parse_wasm_opt_level(opt: &str) -> (r: Result<WasmOptLevel, String>)
    ensures
        r is Ok <==> opt_level_named(lowercased(trimmed(opt@))) is Some,
        r matches Ok(level) ==> opt_level_named(lowercased(trimmed(opt@))) == Some(level),
        r matches Err(m) ==> m@ == "invalid QUE_WASM_OPT='"@ + lowercased(trimmed(opt@))
            + "'. expected one of: none, speed, speed_and_size"@,
{
    let t = trim(&text_of(opt));
    let lower = to_ascii_lowercase(&t);
    assert(lower@ =~= lowercased(trimmed(opt@)));
    if text_is(&lower, "none") {
        Ok(WasmOptLevel::Unoptimized)
    } else if text_is(&lower, "speed") {
        Ok(WasmOptLevel::Speed)
    } else if text_is(&lower, "speed_and_size") || text_is(&lower, "speed-size") || text_is(
        &lower,
        "size",
    ) {
        Ok(WasmOptLevel::SpeedAndSize)
    } else {
        let mut msg = chars_of("invalid QUE_WASM_OPT='");
        crate::text::push_text(&mut msg, &lower);
        crate::text::push_str(&mut msg, "'. expected one of: none, speed, speed_and_size");
        Err(text_to_string(&msg))
    }
}

/// The message of a guard trap code.
pub open spec fn guard_trap_text(code: i64) -> Seq<char> {
    if code == 1 {
        "debug.guard_trap: integer divide/modulo by zero (QUE_DIV_ZERO_CHECK)"@
    } else if code == 2 {
        "debug.guard_trap: float divide by zero (QUE_DIV_ZERO_CHECK)"@
    } else if code == 3 {
        "debug.guard_trap: integer overflow on add/inc (QUE_INT_OVERFLOW_CHECK)"@
    } else if code == 4 {
        "debug.guard_trap: integer overflow on sub/dec (QUE_INT_OVERFLOW_CHECK)"@
    } else if code == 5 {
        "debug.guard_trap: integer overflow on mul/square (QUE_INT_OVERFLOW_CHECK)"@
    } else if code == 6 {
        "debug.guard_trap: float overflow or NaN/Inf (QUE_FLOAT_OVERFLOW_CHECK)"@
    } else {
        "debug.guard_trap: unknown guard trap"@
    }
}

/// The message for a guard trap code a module recorded; `None` for zero,
/// which means no trap.
pub fn guard_trap_message(code: i64) -> (r: Option<String>)
    ensures
        r is None <==> code == 0,
        r matches Some(m) ==> m@ == guard_trap_text(code),
{
    if code == 0 {
        return None;
    }
    let msg = if code == 1 {
        "debug.guard_trap: integer divide/modulo by zero (QUE_DIV_ZERO_CHECK)"
    } else if code == 2 {
        "debug.guard_trap: float divide by zero (QUE_DIV_ZERO_CHECK)"
    } else if code == 3 {
        "debug.guard_trap: integer overflow on add/inc (QUE_INT_OVERFLOW_CHECK)"
    } else if code == 4 {
        "debug.guard_trap: integer overflow on sub/dec (QUE_INT_OVERFLOW_CHECK)"
    } else if code == 5 {
        "debug.guard_trap: integer overflow on mul/square (QUE_INT_OVERFLOW_CHECK)"
    } else if code == 6 {
        "debug.guard_trap: float overflow or NaN/Inf (QUE_FLOAT_OVERFLOW_CHECK)"
    } else {
        "debug.guard_trap: unknown guard trap"
    };
    Some(text_to_string(&chars_of(msg)))
}

} // verus!
