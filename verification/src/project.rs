//! Project configuration: the `que.toml` file naming the entry module, the
//! dependencies and the build environment.
use vstd::prelude::*;
use crate::expr::{Expression, lisp_text};
use crate::facts::has_prefix;
use crate::text::{
    chars_of, copy_text, push_str, push_text, slice_text, split_lines, starts_with, text_eq,
    text_is, text_lt, text_of, text_to_string, trim, trim_start, trimmed, usize_to_text,
    lemma_trim_start_bounds, trim_start_index, texts_view, text_lines, first_index, digits_text,
};

verus! {

/// The name of the project configuration file.
pub const PROJECT_CONFIG_FILE: &'static str = "que.toml";

/// Environment settings by name; a name occurs once, and a setting of a
/// name already present replaces its value.
#[derive(Debug, PartialEq, Eq)]
pub struct EnvMap {
    entries: Vec<(String, String)>,
}

impl EnvMap {
    /// Names are distinct.
    #[verifier::type_invariant]
    spec fn wf(&self) -> bool {
        forall|i: int, j: int|
            0 <= i < j < self.entries@.len() ==> (#[trigger] self.entries@[i]).0@
                != (#[trigger] self.entries@[j]).0@
    }

    /// The value set for `key`, if any.
    pub closed spec fn lookup(&self, key: Seq<char>) -> Option<Seq<char>> {
        if exists|i: int| 0 <= i < self.entries@.len() && (#[trigger] self.entries@[i]).0@ == key {
            let i = choose|i: int| 0 <= i < self.entries@.len() && (#[trigger] self.entries@[i]).0@ == key;
            Some(self.entries@[i].1@)
        } else {
            None
        }
    }

    /// The number of settings.
    pub closed spec fn size(&self) -> nat {
        self.entries@.len()
    }

    /// No settings.
    pub fn new() -> (r: EnvMap)
        ensures
            r.size() == 0,
            forall|k: Seq<char>| r.lookup(k) is None,
    {
        EnvMap { entries: Vec::new() }
    }

    /// The number of settings.
    pub fn len(&self) -> (r: usize)
        ensures
            r == self.size(),
    {
        self.entries.len()
    }

    /// The index of `key`'s entry.
    fn position(&self, key: &Vec<char>) -> (r: Option<usize>)
        ensures
            r is None ==> self.lookup(key@) is None,
            r matches Some(i) ==> i < self.entries@.len() && self.entries@[i as int].0@ == key@
                && self.lookup(key@) == Some(self.entries@[i as int].1@),
    {
        proof {
            use_type_invariant(self);
        }
        let mut i: usize = 0;
        while i < self.entries.len()
            invariant
                i <= self.entries.len(),
                forall|j: int| 0 <= j < i ==> (#[trigger] self.entries@[j]).0@ != key@,
            decreases self.entries.len() - i,
        {
            let name = string_chars(&self.entries[i].0);
            if text_eq(&name, key) {
                proof {
                    let c = choose|c: int|
                        0 <= c < self.entries@.len() && (#[trigger] self.entries@[c]).0@ == key@;
                    if c != i {
                        if c < i {
                            assert(self.entries@[c].0@ != self.entries@[i as int].0@);
                        } else {
                            assert(self.entries@[i as int].0@ != self.entries@[c].0@);
                        }
                    }
                }
                return Some(i);
            }
            i += 1;
        }
        None
    }

    /// The value of the setting `key`.
    pub fn get(&self, key: &str) -> (r: Option<&String>)
        ensures
            r is None <==> self.lookup(key@) is None,
            r matches Some(v) ==> self.lookup(key@) == Some(v@),
    {
        let k = text_of(key);
        match self.position(&k) {
            Some(i) => Some(&self.entries[i].1),
            None => None,
        }
    }

    /// Sets `key` to `value`, replacing an earlier value; every other
    /// setting is unchanged.
    pub fn insert(&mut self, key: String, value: String)
        ensures
            final(self).lookup(key@) == Some(value@),
            forall|k: Seq<char>| k != key@ ==> #[trigger] final(self).lookup(k) == old(self).lookup(k),
            final(self).size() == if old(self).lookup(key@) is Some {
                old(self).size()
            } else {
                old(self).size() + 1
            },
    {
        proof {
            use_type_invariant(&*self);
        }
        let k = string_chars(&key);
        let ghost (kv, vv) = (key@, value@);
        let ghost before = self.entries@;
        match self.position(&k) {
            Some(i) => {
                proof {
                    let after = before.update(i as int, (key, value));
                    assert forall|a: int, b: int| 0 <= a < b < after.len() implies (#[trigger] after[a]).0@
                        != (#[trigger] after[b]).0@ by {
                        assert(before[a].0@ != before[b].0@);
                    }
                }
                let mut es: Vec<(String, String)> = Vec::new();
                std::mem::swap(&mut es, &mut self.entries);
                es.set(i, (key, value));
                self.entries = es;
                proof {
                    assert(self.entries@[i as int].0@ == kv);
                    assert forall|x: Seq<char>| x != kv implies #[trigger] self.lookup(x) == old(self).lookup(x) by {
                        if exists|c: int| 0 <= c < self.entries@.len() && (#[trigger] self.entries@[c]).0@ == x {
                            let c = choose|c: int| 0 <= c < self.entries@.len() && (#[trigger] self.entries@[c]).0@ == x;
                            assert(before[c] == self.entries@[c]);
                            let d = choose|d: int| 0 <= d < before.len() && (#[trigger] before[d]).0@ == x;
                            if c != d {
                                if c < d {
                                    assert(before[c].0@ != before[d].0@);
                                } else {
                                    assert(before[d].0@ != before[c].0@);
                                }
                            }
                        }
                        if exists|c: int| 0 <= c < before.len() && (#[trigger] before[c]).0@ == x {
                            let c = choose|c: int| 0 <= c < before.len() && (#[trigger] before[c]).0@ == x;
                            assert(before[c] == self.entries@[c]);
                        }
                    }
                    let c = choose|c: int| 0 <= c < self.entries@.len() && (#[trigger] self.entries@[c]).0@ == kv;
                    if c != i {
                        assert(before[c] == self.entries@[c]);
                        if c < i {
                            assert(before[c].0@ != before[i as int].0@);
                        } else {
                            assert(before[i as int].0@ != before[c].0@);
                        }
                    }
                }
            },
            None => {
                proof {
                    assert forall|j: int| 0 <= j < before.len() implies (#[trigger] before[j]).0@ != kv by {
                        if before[j].0@ == kv {
                            assert(old(self).lookup(kv) is Some);
                        }
                    }
                }
                // the position after the names that sort before `key`
                let mut at: usize = 0;
                while at < self.entries.len()
                    invariant
                        at <= self.entries.len(),
                        self.entries@ == before,
                    decreases self.entries.len() - at,
                {
                    let name = string_chars(&self.entries[at].0);
                    if text_lt(&k, &name) {
                        break;
                    }
                    at += 1;
                }
                proof {
                    let after = before.insert(at as int, (key, value));
                    assert forall|a: int, b: int| 0 <= a < b < after.len() implies (#[trigger] after[a]).0@
                        != (#[trigger] after[b]).0@ by {
                        if a < at && b < at {
                            assert(before[a].0@ != before[b].0@);
                        } else if a < at && b == at {
                        } else if a < at {
                            assert(after[b] == before[b - 1]);
                        } else if a == at {
                            assert(after[b] == before[b - 1]);
                        } else {
                            assert(after[a] == before[a - 1]);
                            assert(after[b] == before[b - 1]);
                            assert(before[a - 1].0@ != before[b - 1].0@);
                        }
                    }
                }
                let mut es: Vec<(String, String)> = Vec::new();
                std::mem::swap(&mut es, &mut self.entries);
                es.insert(at, (key, value));
                self.entries = es;
                proof {
                    assert(self.entries@[at as int].0@ == kv);
                    assert forall|x: Seq<char>| x != kv implies #[trigger] self.lookup(x) == old(self).lookup(x) by {
                        if exists|c: int| 0 <= c < self.entries@.len() && (#[trigger] self.entries@[c]).0@ == x {
                            let c = choose|c: int| 0 <= c < self.entries@.len() && (#[trigger] self.entries@[c]).0@ == x;
                            let c2 = if c < at { c } else { c - 1 };
                            assert(c != at);
                            assert(self.entries@[c] == before[c2]);
                            let d = choose|d: int| 0 <= d < before.len() && (#[trigger] before[d]).0@ == x;
                            if c2 != d {
                                if c2 < d {
                                    assert(before[c2].0@ != before[d].0@);
                                } else {
                                    assert(before[d].0@ != before[c2].0@);
                                }
                            }
                        }
                        if exists|c: int| 0 <= c < before.len() && (#[trigger] before[c]).0@ == x {
                            let c = choose|c: int| 0 <= c < before.len() && (#[trigger] before[c]).0@ == x;
                            let c3 = if c < at { c } else { c + 1 };
                            assert(self.entries@[c3] == before[c]);
                        }
                    }
                    let c = choose|c: int| 0 <= c < self.entries@.len() && (#[trigger] self.entries@[c]).0@ == kv;
                    if c != at {
                        let c2 = if c < at { c } else { c - 1 };
                        assert(self.entries@[c] == before[c2]);
                    }
                }
            },
        }
    }
}

impl Clone for EnvMap {
    fn clone(&self) -> (r: Self)
        ensures
            r.size() == self.size(),
            forall|k: Seq<char>| #[trigger] r.lookup(k) == self.lookup(k),
    {
        proof {
            use_type_invariant(self);
        }
        let mut es: Vec<(String, String)> = Vec::new();
        let mut i: usize = 0;
        while i < self.entries.len()
            invariant
                i <= self.entries.len(),
                es@.len() == i,
                forall|j: int|
                    0 <= j < i ==> (#[trigger] es@[j]).0@ == self.entries@[j].0@ && es@[j].1@
                        == self.entries@[j].1@,
            decreases self.entries.len() - i,
        {
            let name = text_to_string(&string_chars(&self.entries[i].0));
            let value = text_to_string(&string_chars(&self.entries[i].1));
            es.push((name, value));
            i += 1;
        }
        proof {
            assert forall|a: int, b: int| 0 <= a < b < es@.len() implies (#[trigger] es@[a]).0@
                != (#[trigger] es@[b]).0@ by {
                assert(self.entries@[a].0@ != self.entries@[b].0@);
            }
        }
        let r = EnvMap { entries: es };
        proof {
            assert forall|k: Seq<char>| #[trigger] r.lookup(k) == self.lookup(k) by {
                if exists|c: int| 0 <= c < r.entries@.len() && (#[trigger] r.entries@[c]).0@ == k {
                    let c = choose|c: int| 0 <= c < r.entries@.len() && (#[trigger] r.entries@[c]).0@ == k;
                    assert(self.entries@[c].0@ == k);
                    let d = choose|d: int| 0 <= d < self.entries@.len() && (#[trigger] self.entries@[d]).0@ == k;
                    if c != d {
                        if c < d {
                            assert(self.entries@[c].0@ != self.entries@[d].0@);
                        } else {
                            assert(self.entries@[d].0@ != self.entries@[c].0@);
                        }
                    }
                }
                if exists|c: int| 0 <= c < self.entries@.len() && (#[trigger] self.entries@[c]).0@ == k {
                    let c = choose|c: int| 0 <= c < self.entries@.len() && (#[trigger] self.entries@[c]).0@ == k;
                    assert(r.entries@[c].0@ == k);
                }
            }
        }
        r
    }
}

/// The characters of a `String`.
fn string_chars(s: &String) -> (r: Vec<char>)
    ensures
        r@ == s@,
{
    chars_of(s.as_str())
}

/// A project configuration.
#[derive(Clone, Debug, PartialEq, Eq)]
pub struct ProjectConfig {
    pub entry: Option<String>,
    pub deps: Vec<String>,
    pub env: EnvMap,
}

impl ProjectConfig {
    /// The configuration that sets nothing.
    pub fn empty() -> (r: ProjectConfig)
        ensures
            r.entry is None,
            r.deps@.len() == 0,
            r.env.size() == 0,
    {
        ProjectConfig { entry: None, deps: Vec::new(), env: EnvMap::new() }
    }
}

impl Default for ProjectConfig {
    fn default() -> (r: ProjectConfig)
        ensures
            r.entry is None,
            r.deps@.len() == 0,
            r.env.size() == 0,
    {
        ProjectConfig::empty()
    }
}

/// The position where an inline `#` comment starts in `s[i..]`, scanning
/// with the given string and escape state; the length when there is none.
pub open spec fn comment_cut(s: Seq<char>, i: int, in_string: bool, escaped: bool) -> int
    decreases s.len() - i,
{
    if i >= s.len() || i < 0 {
        s.len() as int
    } else if escaped {
        comment_cut(s, i + 1, in_string, false)
    } else if s[i] == '\\' && in_string {
        comment_cut(s, i + 1, in_string, true)
    } else if s[i] == '"' {
        comment_cut(s, i + 1, !in_string, false)
    } else if s[i] == '#' && !in_string {
        i
    } else {
        comment_cut(s, i + 1, in_string, false)
    }
}

/// `line` up to its first `#` outside a quoted string.
fn strip_inline_comment(line: &Vec<char>) -> (r: Vec<char>)
    ensures
        r@ == line@.take(comment_cut(line@, 0, false, false)),
{
    let mut in_string = false;
    let mut escaped = false;
    let mut i: usize = 0;
    while i < line.len()
        invariant
            i <= line.len(),
            comment_cut(line@, 0, false, false) == comment_cut(line@, i as int, in_string, escaped),
        decreases line.len() - i,
    {
        let c = line[i];
        if escaped {
            escaped = false;
        } else if c == '\\' && in_string {
            escaped = true;
        } else if c == '"' {
            in_string = !in_string;
        } else if c == '#' && !in_string {
            return slice_text(line, 0, i);
        }
        i += 1;
    }
    assert(line@.take(line@.len() as int) =~= line@);
    copy_text(line)
}

/// The bracket depth at the end of `s[i..]` starting from `depth`, counting
/// brackets outside quoted strings.
pub open spec fn bracket_depth(s: Seq<char>, i: int, in_string: bool, escaped: bool, depth: int) -> int
    decreases s.len() - i,
{
    if i >= s.len() || i < 0 {
        depth
    } else if escaped {
        bracket_depth(s, i + 1, in_string, false, depth)
    } else if s[i] == '\\' && in_string {
        bracket_depth(s, i + 1, in_string, true, depth)
    } else if s[i] == '"' {
        bracket_depth(s, i + 1, !in_string, false, depth)
    } else if s[i] == '[' && !in_string {
        bracket_depth(s, i + 1, in_string, false, depth + 1)
    } else if s[i] == ']' && !in_string {
        bracket_depth(s, i + 1, in_string, false, depth - 1)
    } else {
        bracket_depth(s, i + 1, in_string, false, depth)
    }
}

/// An array value is complete once its brackets are closed and it holds a
/// closing bracket.
pub open spec fn array_complete(s: Seq<char>) -> bool {
    bracket_depth(s, 0, false, false, 0) <= 0 && s.contains(']')
}

fn array_literal_is_complete(value: &Vec<char>) -> (r: bool)
    ensures
        r == array_complete(value@),
{
    let mut in_string = false;
    let mut escaped = false;
    let mut depth: i128 = 0;
    let mut closes = false;
    let mut i: usize = 0;
    while i < value.len()
        invariant
            i <= value.len(),
            -(i as int) <= depth <= i as int,
            bracket_depth(value@, 0, false, false, 0) == bracket_depth(
                value@,
                i as int,
                in_string,
                escaped,
                depth as int,
            ),
            closes == exists|j: int| 0 <= j < i && value@[j] == ']',
        decreases value.len() - i,
    {
        let c = value[i];
        if c == ']' {
            closes = true;
        }
        if escaped {
            escaped = false;
        } else if c == '\\' && in_string {
            escaped = true;
        } else if c == '"' {
            in_string = !in_string;
        } else if c == '[' && !in_string {
            depth = depth + 1;
        } else if c == ']' && !in_string {
            depth = depth - 1;
        }
        i += 1;
    }
    depth <= 0 && closes
}

/// The decoded contents of a quoted string's inside: `\\`, `\"`, `\n` and
/// `\t` escapes; `None` at any other or an unfinished escape.
pub open spec fn unescape(s: Seq<char>) -> Option<Seq<char>>
    decreases s.len(),
{
    if s.len() == 0 {
        Some(Seq::empty())
    } else if s[0] == '\\' {
        if s.len() == 1 {
            None
        } else {
            let decoded = if s[1] == '\\' || s[1] == '"' {
                Some(s[1])
            } else if s[1] == 'n' {
                Some('\n')
            } else if s[1] == 't' {
                Some('\t')
            } else {
                None
            };
            match (decoded, unescape(s.skip(2))) {
                (Some(c), Some(rest)) => Some(seq![c] + rest),
                _ => None,
            }
        }
    } else {
        match unescape(s.skip(1)) {
            Some(rest) => Some(seq![s[0]] + rest),
            None => None,
        }
    }
}

/// `value`, trimmed, is a double-quoted string.
pub open spec fn quoted_shape(t: Seq<char>) -> bool {
    t.len() >= 2 && t[0] == '"' && t[t.len() - 1] == '"'
}

/// The string a quoted value stands for: the value, trimmed, must be
/// enclosed in double quotes, and its inside must hold only supported
/// escapes.
pub open spec fn quoted_value(v: Seq<char>) -> Option<Seq<char>> {
    let t = trimmed(v);
    if quoted_shape(t) {
        unescape(t.subrange(1, t.len() - 1))
    } else {
        None
    }
}

/// The escape that makes `s` undecodable: the character after a backslash
/// that no escape uses, or `None` for a backslash at the end.
pub open spec fn escape_error(s: Seq<char>) -> Option<char>
    decreases s.len(),
{
    if s.len() == 0 {
        None
    } else if s[0] == '\\' {
        if s.len() == 1 {
            None
        } else if s[1] == '\\' || s[1] == '"' || s[1] == 'n' || s[1] == 't' {
            escape_error(s.skip(2))
        } else {
            Some(s[1])
        }
    } else {
        escape_error(s.skip(1))
    }
}

/// `"{key} on line {n}{rest}"`.
pub open spec fn key_line(key: Seq<char>, line: nat, rest: Seq<char>) -> Seq<char> {
    key + " on line "@ + digits_text(line) + rest
}

/// Why the value of `key` on line `line` is not a quoted string.
pub open spec fn quoted_detail(v: Seq<char>, key: Seq<char>, line: nat) -> Seq<char> {
    let t = trimmed(v);
    if !quoted_shape(t) {
        key_line(key, line, " must be a quoted string"@)
    } else {
        match escape_error(t.subrange(1, t.len() - 1)) {
            None => "invalid escape in "@ + key_line(key, line, ""@),
            Some(c) => "unsupported escape '\\"@ + seq![c] + "' in "@ + key_line(key, line, ""@),
        }
    }
}

/// How every configuration error begins: it names the configuration.
pub open spec fn config_error_prefix(label: Seq<char>) -> Seq<char> {
    "failed to parse project config '"@ + label + "': "@
}

/// The text of a configuration error.
fn config_error(label: &Vec<char>, detail: &Vec<char>) -> (r: Vec<char>)
    ensures
        has_prefix(r@, config_error_prefix(label@)),
        r@ == config_error_prefix(label@) + detail@,
{
    let mut out = chars_of("failed to parse project config '");
    push_text(&mut out, label);
    push_str(&mut out, "': ");
    let ghost p = out@;
    push_text(&mut out, detail);
    proof {
        assert(p =~= config_error_prefix(label@));
        assert(out@.take(p.len() as int) =~= p);
    }
    out
}

/// `"{key} on line {n}{rest}"`.
fn key_line_detail(key: &Vec<char>, line_no: usize, rest: &str) -> (r: Vec<char>)
    ensures
        r@ == key_line(key@, line_no as nat, rest@),
{
    let mut out = copy_text(key);
    push_str(&mut out, " on line ");
    let n = usize_to_text(line_no);
    push_text(&mut out, &n);
    push_str(&mut out, rest);
    out
}

/// The decoded escapes of `inner`; the error holds the character of an
/// unsupported escape, or nothing for a backslash at the end.
fn decode_escapes(inner: &Vec<char>) -> (r: Result<Vec<char>, Option<char>>)
    ensures
        r is Ok <==> unescape(inner@) is Some,
        r matches Ok(s) ==> s@ == unescape(inner@)->0,
        r matches Err(x) ==> x == escape_error(inner@),
{
    let mut out: Vec<char> = Vec::new();
    let mut i: usize = 0;
    proof {
        assert(inner@.skip(0) =~= inner@);
    }
    while i < inner.len()
        invariant
            i <= inner.len(),
            unescape(inner@) matches Some(all) ==> (unescape(inner@.skip(i as int)) matches Some(
                rest,
            ) && all == out@ + rest),
            unescape(inner@) is None ==> unescape(inner@.skip(i as int)) is None,
            escape_error(inner@) == escape_error(inner@.skip(i as int)),
        decreases inner.len() - i,
    {
        let ghost s = inner@.skip(i as int);
        let ch = inner[i];
        if ch == '\\' {
            if i + 1 >= inner.len() {
                return Err(None);
            }
            let next = inner[i + 1];
            let decoded = if next == '\\' || next == '"' {
                next
            } else if next == 'n' {
                '\n'
            } else if next == 't' {
                '\t'
            } else {
                return Err(Some(next));
            };
            proof {
                assert(s[0] == '\\' && s[1] == next);
                assert(s.skip(2) =~= inner@.skip(i + 2));
            }
            out.push(decoded);
            i += 2;
            proof {
                if unescape(inner@) is Some {
                    assert(out@ =~= out@.drop_last() + seq![decoded]);
                }
            }
        } else {
            proof {
                assert(s[0] == ch);
                assert(s.skip(1) =~= inner@.skip(i + 1));
            }
            out.push(ch);
            i += 1;
        }
    }
    proof {
        assert(inner@.skip(inner@.len() as int) =~= Seq::<char>::empty());
        if unescape(inner@) is Some {
            assert(out@ + Seq::<char>::empty() =~= out@);
        }
    }
    Ok(out)
}

/// Decodes a quoted string value.
fn parse_quoted_string(value: &Vec<char>, label: &Vec<char>, line_no: usize, key: &Vec<char>) -> (r:
    Result<Vec<char>, Vec<char>>)
    ensures
        r is Ok <==> quoted_value(value@) is Some,
        r matches Ok(s) ==> s@ == quoted_value(value@)->0,
        r matches Err(e) ==> has_prefix(e@, config_error_prefix(label@)),
        r matches Err(e) ==> e@ == config_error_prefix(label@) + quoted_detail(value@, key@, line_no as nat),
{
    let t = trim(value);
    if !(t.len() >= 2 && t[0] == '"' && t[t.len() - 1] == '"') {
        let detail = key_line_detail(key, line_no, " must be a quoted string");
        return Err(config_error(label, &detail));
    }
    let inner = slice_text(&t, 1, t.len() - 1);
    match decode_escapes(&inner) {
        Ok(out) => Ok(out),
        Err(None) => {
            let mut detail = chars_of("invalid escape in ");
            let d = key_line_detail(key, line_no, "");
            push_text(&mut detail, &d);
            Err(config_error(label, &detail))
        },
        Err(Some(next)) => {
            let mut detail = chars_of("unsupported escape '\\");
            detail.push(next);
            push_str(&mut detail, "' in ");
            let d = key_line_detail(key, line_no, "");
            push_text(&mut detail, &d);
            Err(config_error(label, &detail))
        },
    }
}

/// The position of the quote that ends the string opened at `s[0]`,
/// scanning `s[i..]` with the given escape state.
pub open spec fn string_end(s: Seq<char>, i: int, escaped: bool) -> Option<int>
    decreases s.len() - i,
{
    if i >= s.len() || i < 1 {
        None
    } else if escaped {
        string_end(s, i + 1, false)
    } else if s[i] == '\\' {
        string_end(s, i + 1, true)
    } else if s[i] == '"' {
        Some(i)
    } else {
        string_end(s, i + 1, false)
    }
}

fn find_string_end(input: &Vec<char>) -> (r: Option<usize>)
    ensures
        r matches Some(e) ==> string_end(input@, 1, false) == Some(e as int) && 1 <= e
            < input@.len(),
        r is None ==> string_end(input@, 1, false) is None,
{
    let mut escaped = false;
    let mut i: usize = 1;
    while i < input.len()
        invariant
            1 <= i,
            string_end(input@, 1, false) == string_end(input@, i as int, escaped),
        decreases input.len() - i,
    {
        let c = input[i];
        if escaped {
            escaped = false;
        } else if c == '\\' {
            escaped = true;
        } else if c == '"' {
            return Some(i);
        }
        i += 1;
    }
    None
}

pub proof fn lemma_string_end_bounds(s: Seq<char>, i: int, escaped: bool)
    ensures
        string_end(s, i, escaped) matches Some(e) ==> i <= e < s.len() && 1 <= e,
    decreases s.len() - i,
{
    if i >= s.len() || i < 1 {
    } else if escaped {
        lemma_string_end_bounds(s, i + 1, false);
    } else if s[i] == '\\' {
        lemma_string_end_bounds(s, i + 1, true);
    } else if s[i] == '"' {
    } else {
        lemma_string_end_bounds(s, i + 1, false);
    }
}

/// `s` without its leading white space.
pub open spec fn without_leading_space(s: Seq<char>) -> Seq<char> {
    s.subrange(trim_start_index(s), s.len() as int)
}

/// The strings of the comma-separated quoted values in `cursor`, which may
/// end with a comma; `None` when it holds anything else.
pub open spec fn array_items(cursor: Seq<char>) -> Option<Seq<Seq<char>>>
    decreases cursor.len(),
{
    let rest = without_leading_space(cursor);
    if rest.len() == 0 {
        Some(Seq::empty())
    } else if rest[0] != '"' {
        None
    } else {
        match string_end(rest, 1, false) {
            None => None,
            Some(end) => match quoted_value(rest.take(end + 1)) {
                None => None,
                Some(item) => {
                    let next = without_leading_space(rest.skip(end + 1));
                    if next.len() == 0 {
                        Some(seq![item])
                    } else if next[0] != ',' {
                        None
                    } else {
                        proof {
                            lemma_trim_start_bounds(cursor);
                            lemma_string_end_bounds(rest, 1, false);
                            lemma_trim_start_bounds(rest.skip(end + 1));
                        }
                        match array_items(next.skip(1)) {
                            Some(items) => Some(seq![item] + items),
                            None => None,
                        }
                    }
                }
            },
        }
    }
}

/// The strings of an array value `[ "a", "b" ]`.
pub open spec fn string_array(v: Seq<char>) -> Option<Seq<Seq<char>>> {
    let t = trimmed(v);
    if t.len() >= 2 && t[0] == '[' && t[t.len() - 1] == ']' {
        array_items(trimmed(t.subrange(1, t.len() - 1)))
    } else {
        None
    }
}

/// The number of double quotes in a text.
pub open spec fn quote_count(s: Seq<char>) -> nat
    decreases s.len(),
{
    if s.len() == 0 {
        0
    } else {
        quote_count(s.drop_last()) + if s.last() == '"' {
            1nat
        } else {
            0nat
        }
    }
}

/// Quotes of two texts put together add up.
proof fn lemma_quote_count_add(a: Seq<char>, b: Seq<char>)
    ensures
        quote_count(a + b) == quote_count(a) + quote_count(b),
    decreases b.len(),
{
    if b.len() > 0 {
        lemma_quote_count_add(a, b.drop_last());
        assert((a + b).drop_last() =~= a + b.drop_last());
    }
}

/// A piece of a text holds no more quotes than the text, and a piece that
/// starts and ends with a quote holds at least two.
proof fn lemma_quote_count_piece(s: Seq<char>, i: int, j: int)
    requires
        0 <= i <= j <= s.len(),
    ensures
        quote_count(s.subrange(i, j)) <= quote_count(s),
        i + 1 < j && s[i] == '"' && s[j - 1] == '"' ==> quote_count(s.subrange(i, j)) >= 2,
{
    lemma_quote_count_add(s.subrange(0, i), s.subrange(i, j));
    lemma_quote_count_add(s.subrange(0, i) + s.subrange(i, j), s.subrange(j, s.len() as int));
    assert(s.subrange(0, i) + s.subrange(i, j) + s.subrange(j, s.len() as int) =~= s);
    if i + 1 < j && s[i] == '"' && s[j - 1] == '"' {
        let p = s.subrange(i, j);
        lemma_quote_count_add(seq![p[0]], p.subrange(1, p.len() - 1));
        lemma_quote_count_add(seq![p[0]] + p.subrange(1, p.len() - 1), seq![p[p.len() - 1]]);
        assert(seq![p[0]] + p.subrange(1, p.len() - 1) + seq![p[p.len() - 1]] =~= p);
        assert(p[0] == '"' && p[p.len() - 1] == '"');
        assert(quote_count(seq![p[0]]) == 1) by {
            assert(seq![p[0]].drop_last() =~= Seq::<char>::empty());
            assert(seq![p[0]].last() == p[0]);
            assert(quote_count(Seq::<char>::empty()) == 0);
        }
        assert(quote_count(seq![p[p.len() - 1]]) == 1) by {
            assert(seq![p[p.len() - 1]].drop_last() =~= Seq::<char>::empty());
            assert(seq![p[p.len() - 1]].last() == p[p.len() - 1]);
            assert(quote_count(Seq::<char>::empty()) == 0);
        }
    }
}

/// A string that ends does so at a quote.
proof fn lemma_string_end_quote(s: Seq<char>, i: int, escaped: bool)
    ensures
        string_end(s, i, escaped) matches Some(e) ==> s[e] == '"',
    decreases s.len() - i,
{
    if i >= s.len() || i < 1 {
    } else if escaped {
        lemma_string_end_quote(s, i + 1, false);
    } else if s[i] == '\\' {
        lemma_string_end_quote(s, i + 1, true);
    } else if s[i] == '"' {
    } else {
        lemma_string_end_quote(s, i + 1, false);
    }
}

/// Each string read from a list of quoted values uses two quotes of the list.
proof fn lemma_array_items_quotes(cursor: Seq<char>)
    ensures
        array_items(cursor) matches Some(items) ==> 2 * items.len() <= quote_count(cursor),
    decreases cursor.len(),
{
    lemma_trim_start_bounds(cursor);
    let rest = without_leading_space(cursor);
    lemma_quote_count_piece(cursor, trim_start_index(cursor), cursor.len() as int);
    if rest.len() > 0 && rest[0] == '"' {
        lemma_string_end_bounds(rest, 1, false);
        lemma_string_end_quote(rest, 1, false);
        match string_end(rest, 1, false) {
            None => {},
            Some(end) => {
                lemma_quote_count_piece(rest, 0, end + 1);
                lemma_quote_count_add(rest.take(end + 1), rest.skip(end + 1));
                assert(rest.take(end + 1) + rest.skip(end + 1) =~= rest);
                assert(rest.subrange(0, end + 1) =~= rest.take(end + 1));
                let after = rest.skip(end + 1);
                lemma_trim_start_bounds(after);
                lemma_quote_count_piece(after, trim_start_index(after), after.len() as int);
                let next = without_leading_space(after);
                if next.len() > 0 {
                    lemma_quote_count_piece(next, 1, next.len() as int);
                    assert(next.skip(1) =~= next.subrange(1, next.len() as int));
                    lemma_array_items_quotes(next.skip(1));
                }
            },
        }
    }
}

/// Every string of an array value is written between two of its quotes:
/// an array holds at most half as many strings as the value has quotes, so
/// `[]` holds none.
pub proof fn lemma_string_array_quotes(v: Seq<char>)
    ensures
        string_array(v) matches Some(items) ==> 2 * items.len() <= quote_count(v),
{
    let t = trimmed(v);
    lemma_trim_start_bounds(v);
    crate::text::lemma_trim_end_bounds(v);
    if trim_start_index(v) <= crate::text::trim_end_index(v) {
        lemma_quote_count_piece(v, trim_start_index(v), crate::text::trim_end_index(v));
    }
    if t.len() >= 2 && t[0] == '[' && t[t.len() - 1] == ']' {
        let middle = t.subrange(1, t.len() - 1);
        lemma_quote_count_piece(t, 1, t.len() - 1);
        let inner = trimmed(middle);
        lemma_trim_start_bounds(middle);
        crate::text::lemma_trim_end_bounds(middle);
        if trim_start_index(middle) <= crate::text::trim_end_index(middle) {
            lemma_quote_count_piece(middle, trim_start_index(middle), crate::text::trim_end_index(middle));
        }
        lemma_array_items_quotes(inner);
    }
}

/// `item` is what a double-quoted piece of `v` stands for: `v[i]` and
/// `v[j - 1]` are quotes and the characters between them unescape to `item`.
pub open spec fn quoted_in(v: Seq<char>, item: Seq<char>) -> bool {
    exists|i: int, j: int|
        0 <= i && i + 1 < j <= v.len() && v[i] == '"' && v[j - 1] == '"' && #[trigger] unescape(
            v.subrange(i + 1, j - 1),
        ) == Some(item)
}

/// What a quoted piece of part of a text stands for, a quoted piece of the
/// whole text stands for too.
proof fn lemma_quoted_in_part(v: Seq<char>, a: int, b: int, item: Seq<char>)
    requires
        0 <= a <= b <= v.len(),
        quoted_in(v.subrange(a, b), item),
    ensures
        quoted_in(v, item),
{
    let w = v.subrange(a, b);
    let (i, j) = choose|i: int, j: int|
        0 <= i && i + 1 < j <= w.len() && w[i] == '"' && w[j - 1] == '"' && #[trigger] unescape(
            w.subrange(i + 1, j - 1),
        ) == Some(item);
    assert(w.subrange(i + 1, j - 1) =~= v.subrange(a + i + 1, a + j - 1));
    assert(v[a + i] == '"' && v[a + j - 1] == '"');
    assert(unescape(v.subrange(a + i + 1, a + j - 1)) == Some(item));
}

/// Each string read from a list of quoted values is what one of its quoted
/// pieces stands for.
proof fn lemma_array_items_quoted(cursor: Seq<char>)
    ensures
        array_items(cursor) matches Some(items) ==> forall|k: int| 0 <= k < items.len() ==> quoted_in(
            cursor,
            #[trigger] items[k],
        ),
    decreases cursor.len(),
{
    lemma_trim_start_bounds(cursor);
    let start = trim_start_index(cursor);
    let rest = without_leading_space(cursor);
    if rest.len() > 0 && rest[0] == '"' {
        lemma_string_end_bounds(rest, 1, false);
        lemma_string_end_quote(rest, 1, false);
        match string_end(rest, 1, false) {
            None => {},
            Some(end) => {
                let t = rest.take(end + 1);
                assert(!crate::text::spec_is_whitespace(t[0]));
                assert(!crate::text::spec_is_whitespace(t.last()));
                assert(t.drop_first().len() + 1 == t.len());
                assert(trim_start_index(t) == 0);
                assert(crate::text::trim_end_index(t) == t.len());
                assert(trimmed(t) =~= t);
                match quoted_value(t) {
                    None => {},
                    Some(item) => {
                        assert(t.subrange(1, t.len() - 1) =~= rest.subrange(1, end));
                        assert(quoted_in(rest, item)) by {
                            assert(unescape(rest.subrange(0int + 1, (end + 1) - 1)) == Some(item));
                        }
                        lemma_quoted_in_part(cursor, start, cursor.len() as int, item);
                        let after = rest.skip(end + 1);
                        lemma_trim_start_bounds(after);
                        let next = without_leading_space(after);
                        if next.len() > 0 && next[0] == ',' {
                            let tail = next.skip(1);
                            lemma_array_items_quoted(tail);
                            match array_items(tail) {
                                None => {},
                                Some(more) => {
                                    assert forall|k: int| 0 <= k < more.len() implies quoted_in(
                                        cursor,
                                        #[trigger] more[k],
                                    ) by {
                                        assert(quoted_in(tail, more[k]));
                                        assert(tail =~= next.subrange(1, next.len() as int));
                                        lemma_quoted_in_part(next, 1, next.len() as int, more[k]);
                                        lemma_quoted_in_part(after, trim_start_index(after), after.len() as int, more[k]);
                                        assert(after =~= rest.subrange(end + 1, rest.len() as int));
                                        lemma_quoted_in_part(rest, end + 1, rest.len() as int, more[k]);
                                        lemma_quoted_in_part(cursor, start, cursor.len() as int, more[k]);
                                    }
                                    let items = seq![item] + more;
                                    assert forall|k: int| 0 <= k < items.len() implies quoted_in(
                                        cursor,
                                        #[trigger] items[k],
                                    ) by {
                                        if k > 0 {
                                            assert(items[k] == more[k - 1]);
                                        }
                                    }
                                },
                            }
                        }
                    },
                }
            },
        }
    }
}

/// Every string of an array value is what one of the value's double-quoted
/// pieces stands for: the strings of the array come from its quoted strings.
pub proof fn lemma_string_array_quoted(v: Seq<char>)
    ensures
        string_array(v) matches Some(items) ==> forall|k: int| 0 <= k < items.len() ==> quoted_in(
            v,
            #[trigger] items[k],
        ),
{
    let t = trimmed(v);
    lemma_trim_start_bounds(v);
    crate::text::lemma_trim_end_bounds(v);
    if t.len() >= 2 && t[0] == '[' && t[t.len() - 1] == ']' {
        let middle = t.subrange(1, t.len() - 1);
        let inner = trimmed(middle);
        lemma_trim_start_bounds(middle);
        crate::text::lemma_trim_end_bounds(middle);
        lemma_array_items_quoted(inner);
        match array_items(inner) {
            None => {},
            Some(items) => {
                assert forall|k: int| 0 <= k < items.len() implies quoted_in(v, #[trigger] items[k]) by {
                    assert(quoted_in(inner, items[k]));
                    assert(trim_start_index(middle) <= crate::text::trim_end_index(middle)) by {
                        if trim_start_index(middle) > crate::text::trim_end_index(middle) {
                            assert(inner.len() == 0);
                        }
                    }
                    lemma_quoted_in_part(
                        middle,
                        trim_start_index(middle),
                        crate::text::trim_end_index(middle),
                        items[k],
                    );
                    lemma_quoted_in_part(t, 1, t.len() - 1, items[k]);
                    assert(trim_start_index(v) <= crate::text::trim_end_index(v));
                    lemma_quoted_in_part(v, trim_start_index(v), crate::text::trim_end_index(v), items[k]);
                }
            },
        }
    }
}

/// Why `cursor` is not a list of comma-separated quoted strings: the
/// first fault met reading it from the front.
pub open spec fn items_detail(cursor: Seq<char>, key: Seq<char>, line: nat) -> Seq<char>
    decreases cursor.len(),
{
    let rest = without_leading_space(cursor);
    if rest.len() == 0 {
        Seq::empty()
    } else if rest[0] != '"' {
        key_line(key, line, " must contain only quoted strings"@)
    } else {
        match string_end(rest, 1, false) {
            None => "unterminated string in "@ + key_line(key, line, ""@),
            Some(end) => match quoted_value(rest.take(end + 1)) {
                None => quoted_detail(rest.take(end + 1), key, line),
                Some(item) => {
                    let next = without_leading_space(rest.skip(end + 1));
                    if next.len() == 0 {
                        Seq::empty()
                    } else if next[0] != ',' {
                        key_line(key, line, " must separate values with commas"@)
                    } else {
                        proof {
                            lemma_trim_start_bounds(cursor);
                            lemma_string_end_bounds(rest, 1, false);
                            lemma_trim_start_bounds(rest.skip(end + 1));
                        }
                        items_detail(next.skip(1), key, line)
                    }
                },
            },
        }
    }
}

/// Why the value of `key` on line `line` is not a string array.
pub open spec fn array_detail(v: Seq<char>, key: Seq<char>, line: nat) -> Seq<char> {
    let t = trimmed(v);
    if t.len() >= 2 && t[0] == '[' && t[t.len() - 1] == ']' {
        items_detail(trimmed(t.subrange(1, t.len() - 1)), key, line)
    } else {
        key_line(key, line, " must be a string array"@)
    }
}

/// `items` with `prefix` in front, when there are items.
pub open spec fn prefixed(prefix: Seq<Seq<char>>, items: Option<Seq<Seq<char>>>) -> Option<
    Seq<Seq<char>>,
> {
    match items {
        Some(x) => Some(prefix + x),
        None => None,
    }
}

/// Decodes an array of quoted strings.
fn parse_string_array(value: &Vec<char>, label: &Vec<char>, line_no: usize, key: &Vec<char>) -> (r:
    Result<Vec<Vec<char>>, Vec<char>>)
    ensures
        r is Ok <==> string_array(value@) is Some,
        r matches Ok(items) ==> texts_view(items@) == string_array(value@)->0,
        r matches Err(e) ==> has_prefix(e@, config_error_prefix(label@)),
        r matches Err(e) ==> e@ == config_error_prefix(label@) + array_detail(value@, key@, line_no as nat),
{
    let t = trim(value);
    if !(t.len() >= 2 && t[0] == '[' && t[t.len() - 1] == ']') {
        let detail = key_line_detail(key, line_no, " must be a string array");
        return Err(config_error(label, &detail));
    }
    let middle = slice_text(&t, 1, t.len() - 1);
    let inner = trim(&middle);
    let mut out: Vec<Vec<char>> = Vec::new();
    let mut cursor = inner;
    proof {
        assert(texts_view(out@) + array_items(inner@)->0 =~= array_items(inner@)->0);
    }
    loop
        invariant
            string_array(value@) == prefixed(texts_view(out@), array_items(cursor@)),
            array_detail(value@, key@, line_no as nat) == items_detail(cursor@, key@, line_no as nat),
        decreases cursor.len(),
    {
        let rest = trim_start(&cursor);
        if rest.len() == 0 {
            proof {
                assert(texts_view(out@) + Seq::<Seq<char>>::empty() =~= texts_view(out@));
            }
            return Ok(out);
        }
        if rest[0] != '"' {
            let detail = key_line_detail(key, line_no, " must contain only quoted strings");
            return Err(config_error(label, &detail));
        }
        let end = match find_string_end(&rest) {
            Some(e) => e,
            None => {
                let mut detail = chars_of("unterminated string in ");
                let d = key_line_detail(key, line_no, "");
                push_text(&mut detail, &d);
                return Err(config_error(label, &detail));
            },
        };
        let piece = slice_text(&rest, 0, end + 1);
        assert(piece@ =~= rest@.take(end + 1));
        let item = parse_quoted_string(&piece, label, line_no, key)?;
        let after = slice_text(&rest, end + 1, rest.len());
        assert(after@ =~= rest@.skip(end + 1));
        let next = trim_start(&after);
        proof {
            lemma_trim_start_bounds(cursor@);
        }
        if next.len() == 0 {
            proof {
                assert(texts_view(out@.push(item)) =~= texts_view(out@) + seq![item@]);
            }
            out.push(item);
            return Ok(out);
        }
        if next[0] != ',' {
            let detail = key_line_detail(key, line_no, " must separate values with commas");
            return Err(config_error(label, &detail));
        }
        let tail = slice_text(&next, 1, next.len());
        proof {
            assert(tail@ =~= next@.skip(1));
            let ghost old_view = texts_view(out@);
            assert(texts_view(out@.push(item)) =~= old_view.push(item@));
            match array_items(tail@) {
                Some(items) => {
                    assert(old_view + (seq![item@] + items) =~= old_view.push(item@) + items);
                },
                None => {},
            }
        }
        out.push(item);
        cursor = tail;
    }
}

/// A configuration as read: the entry, the dependencies, and the
/// environment settings in the order they are written.
pub struct ConfigModel {
    pub entry: Option<Seq<char>>,
    pub deps: Seq<Seq<char>>,
    pub env: Seq<(Seq<char>, Seq<char>)>,
}

/// A line without its comment and surrounding white space.
pub open spec fn clean_line(raw: Seq<char>) -> Seq<char> {
    trimmed(raw.take(comment_cut(raw, 0, false, false)))
}

/// A line `[name]` that opens a section.
pub open spec fn is_section_line(line: Seq<char>) -> bool {
    line.len() >= 2 && line[0] == '[' && line[line.len() - 1] == ']'
}

/// An array value continued by the next non-empty line: a space joins
/// them unless the value ends with `[` or `,`.
pub open spec fn join_continuation(value: Seq<char>, next: Seq<char>) -> Seq<char> {
    if value.len() > 0 && (value[value.len() - 1] == '[' || value[value.len() - 1] == ',') {
        value + next
    } else {
        value + seq![' '] + next
    }
}

/// An array value that starts before line `l`, completed with the lines
/// from `l` on, and the line after it; `None` when the lines end first.
pub open spec fn gather_array(lines: Seq<Seq<char>>, l: int, value: Seq<char>) -> Option<
    (Seq<char>, int),
>
    decreases lines.len() - l,
{
    if array_complete(value) {
        Some((value, l))
    } else if l < 0 || l >= lines.len() {
        None
    } else {
        let next = clean_line(lines[l]);
        gather_array(
            lines,
            l + 1,
            if next.len() > 0 {
                join_continuation(value, next)
            } else {
                value
            },
        )
    }
}

pub proof fn lemma_gather_bounds(lines: Seq<Seq<char>>, l: int, value: Seq<char>)
    requires
        0 <= l <= lines.len(),
    ensures
        gather_array(lines, l, value) matches Some((v, n)) ==> l <= n <= lines.len(),
    decreases lines.len() - l,
{
    if !array_complete(value) && l < lines.len() {
        let next = clean_line(lines[l]);
        lemma_gather_bounds(
            lines,
            l + 1,
            if next.len() > 0 {
                join_continuation(value, next)
            } else {
                value
            },
        );
    }
}

/// The configuration that lines `l..` give to `acc`, inside the `[env]`
/// section when `in_env`; `None` when a line is refused.
pub open spec fn config_lines(lines: Seq<Seq<char>>, l: int, in_env: bool, acc: ConfigModel) -> Option<
    ConfigModel,
>
    decreases lines.len() - l,
{
    if l < 0 || l >= lines.len() {
        Some(acc)
    } else {
        let line = clean_line(lines[l]);
        if line.len() == 0 {
            config_lines(lines, l + 1, in_env, acc)
        } else if is_section_line(line) {
            if trimmed(line.subrange(1, line.len() - 1)) == "env"@ {
                config_lines(lines, l + 1, true, acc)
            } else {
                None
            }
        } else {
            match first_index(line, '=', 0) {
                None => None,
                Some(eq) => {
                    let key = trimmed(line.take(eq));
                    let value = trimmed(line.skip(eq + 1));
                    if in_env {
                        match quoted_value(value) {
                            Some(v) => config_lines(
                                lines,
                                l + 1,
                                in_env,
                                ConfigModel { env: acc.env.push((key, v)), ..acc },
                            ),
                            None => None,
                        }
                    } else if key == "entry"@ {
                        match quoted_value(value) {
                            Some(v) => config_lines(
                                lines,
                                l + 1,
                                in_env,
                                ConfigModel { entry: Some(v), ..acc },
                            ),
                            None => None,
                        }
                    } else if key == "deps"@ {
                        match gather_array(lines, l + 1, value) {
                            None => None,
                            Some((full, next_l)) => match string_array(full) {
                                None => None,
                                Some(d) => {
                                    proof {
                                        lemma_gather_bounds(lines, l + 1, value);
                                    }
                                    config_lines(
                                        lines,
                                        next_l,
                                        in_env,
                                        ConfigModel { deps: d, ..acc },
                                    )
                                },
                            },
                        }
                    } else {
                        None
                    }
                },
            }
        }
    }
}

/// Why lines `l..` are refused, read in the `[env]` section when
/// `in_env`: the first fault met, with the number of its line.
pub open spec fn config_detail(lines: Seq<Seq<char>>, l: int, in_env: bool, acc: ConfigModel) -> Seq<char>
    decreases lines.len() - l,
{
    if l < 0 || l >= lines.len() {
        Seq::empty()
    } else {
        let line = clean_line(lines[l]);
        let n = (l + 1) as nat;
        if line.len() == 0 {
            config_detail(lines, l + 1, in_env, acc)
        } else if is_section_line(line) {
            let name = trimmed(line.subrange(1, line.len() - 1));
            if name == "env"@ {
                config_detail(lines, l + 1, true, acc)
            } else {
                "unknown section '"@ + name + "' on line "@ + digits_text(n)
            }
        } else {
            match first_index(line, '=', 0) {
                None => "line "@ + digits_text(n) + " must be `key = value`"@,
                Some(eq) => {
                    let key = trimmed(line.take(eq));
                    let value = trimmed(line.skip(eq + 1));
                    if in_env {
                        match quoted_value(value) {
                            Some(v) => config_detail(
                                lines,
                                l + 1,
                                in_env,
                                ConfigModel { env: acc.env.push((key, v)), ..acc },
                            ),
                            None => quoted_detail(value, key, n),
                        }
                    } else if key == "entry"@ {
                        match quoted_value(value) {
                            Some(v) => config_detail(
                                lines,
                                l + 1,
                                in_env,
                                ConfigModel { entry: Some(v), ..acc },
                            ),
                            None => quoted_detail(value, "entry"@, n),
                        }
                    } else if key == "deps"@ {
                        match gather_array(lines, l + 1, value) {
                            None => "unterminated deps array"@,
                            Some((full, next_l)) => match string_array(full) {
                                None => array_detail(full, "deps"@, n),
                                Some(d) => {
                                    proof {
                                        lemma_gather_bounds(lines, l + 1, value);
                                    }
                                    config_detail(lines, next_l, in_env, ConfigModel { deps: d, ..acc })
                                },
                            },
                        }
                    } else {
                        "unknown key '"@ + key + "' on line "@ + digits_text(n)
                    }
                },
            }
        }
    }
}

/// The configuration that sets nothing.
pub open spec fn empty_model() -> ConfigModel {
    ConfigModel { entry: None, deps: Seq::empty(), env: Seq::empty() }
}

/// Why a configuration text is refused, when it is.
pub open spec fn config_failure(source: Seq<char>) -> Seq<char> {
    config_detail(text_lines(source), 0, false, empty_model())
}

/// The configuration a configuration text gives, if it is accepted.
pub open spec fn config_model(source: Seq<char>) -> Option<ConfigModel> {
    config_lines(text_lines(source), 0, false, empty_model())
}

/// The value the settings give `key`: the last one written.
pub open spec fn env_value(env: Seq<(Seq<char>, Seq<char>)>, key: Seq<char>) -> Option<Seq<char>>
    decreases env.len(),
{
    if env.len() == 0 {
        None
    } else if env.last().0 == key {
        Some(env.last().1)
    } else {
        env_value(env.drop_last(), key)
    }
}

/// The names that `env` sets.
pub open spec fn env_names(env: Seq<(Seq<char>, Seq<char>)>) -> Set<Seq<char>>
    decreases env.len(),
{
    if env.len() == 0 {
        Set::empty()
    } else {
        env_names(env.drop_last()).insert(env.last().0)
    }
}

/// `cfg` holds what `m` reads.
pub open spec fn config_matches(cfg: ProjectConfig, m: ConfigModel) -> bool {
    &&& cfg.env.size() == env_names(m.env).len()
    &&& match cfg.entry {
        Some(e) => m.entry == Some(e@),
        None => m.entry is None,
    }
    &&& cfg.deps@.len() == m.deps.len()
    &&& forall|k: int| 0 <= k < m.deps.len() ==> (#[trigger] cfg.deps@[k])@ == m.deps[k]
    &&& forall|key: Seq<char>| #[trigger] cfg.env.lookup(key) == env_value(m.env, key)
}

/// The parsed settings, as texts.
struct ConfigText {
    entry: Option<Vec<char>>,
    deps: Vec<Vec<char>>,
    env: Vec<(Vec<char>, Vec<char>)>,
}

impl ConfigText {
    spec fn model(self) -> ConfigModel {
        ConfigModel {
            entry: match self.entry {
                Some(e) => Some(e@),
                None => None,
            },
            deps: texts_view(self.deps@),
            env: self.env@.map_values(|p: (Vec<char>, Vec<char>)| (p.0@, p.1@)),
        }
    }
}

/// The position of the first `=` in `line`.
fn equals_position(line: &Vec<char>) -> (r: Option<usize>)
    ensures
        r matches Some(i) ==> first_index(line@, '=', 0) == Some(i as int) && i < line@.len(),
        r is None ==> first_index(line@, '=', 0) is None,
{
    let mut i: usize = 0;
    while i < line.len()
        invariant
            i <= line.len(),
            first_index(line@, '=', 0) == first_index(line@, '=', i as int),
        decreases line.len() - i,
    {
        if line[i] == '=' {
            return Some(i);
        }
        i += 1;
    }
    None
}

fn parse_config_text(source: &Vec<char>, label: &Vec<char>) -> (r: Result<ConfigText, Vec<char>>)
    ensures
        r is Ok <==> config_model(source@) is Some,
        r matches Ok(c) ==> c.model() == config_model(source@)->0,
        r matches Err(e) ==> has_prefix(e@, config_error_prefix(label@)),
        r matches Err(e) ==> e@ == config_error_prefix(label@) + config_failure(source@),
{
    let mut cfg = ConfigText { entry: None, deps: Vec::new(), env: Vec::new() };
    let lines = split_lines(source);
    let ghost ls = texts_view(lines@);
    proof {
        assert(cfg.model().deps =~= Seq::<Seq<char>>::empty());
        assert(cfg.model().env =~= Seq::<(Seq<char>, Seq<char>)>::empty());
        assert(cfg.model() == empty_model());
    }
    let mut in_env = false;
    let mut l: usize = 0;
    while l < lines.len()
        invariant
            l <= lines.len(),
            ls == texts_view(lines@),
            ls == text_lines(source@),
            config_model(source@) == config_lines(ls, l as int, in_env, cfg.model()),
            config_failure(source@) == config_detail(ls, l as int, in_env, cfg.model()),
        decreases lines.len() - l,
    {
        let line_no: usize = l + 1;
        let stripped = strip_inline_comment(&lines[l]);
        let line = trim(&stripped);
        let ghost at = l as int;
        let ghost before = cfg.model();
        assert(line@ == clean_line(ls[at]));
        l += 1;
        if line.len() == 0 {
            continue;
        }
        if line[0] == '[' && line[line.len() - 1] == ']' && line.len() >= 2 {
            let inside = slice_text(&line, 1, line.len() - 1);
            let name = trim(&inside);
            if text_is(&name, "env") {
                in_env = true;
            } else {
                let mut detail = chars_of("unknown section '");
                push_text(&mut detail, &name);
                push_str(&mut detail, "' on line ");
                let n = usize_to_text(line_no);
                push_text(&mut detail, &n);
                return Err(config_error(label, &detail));
            }
            continue;
        }
        let eq = match equals_position(&line) {
            Some(i) => i,
            None => {
                let mut detail = chars_of("line ");
                let n = usize_to_text(line_no);
                push_text(&mut detail, &n);
                push_str(&mut detail, " must be `key = value`");
                return Err(config_error(label, &detail));
            },
        };
        let raw_key = slice_text(&line, 0, eq);
        let raw_value = slice_text(&line, eq + 1, line.len());
        assert(raw_key@ =~= line@.take(eq as int));
        assert(raw_value@ =~= line@.skip(eq + 1));
        let key = trim(&raw_key);
        let mut value = trim(&raw_value);
        if !in_env {
            if text_is(&key, "entry") {
                let entry_key = chars_of("entry");
                let v = parse_quoted_string(&value, label, line_no, &entry_key)?;
                cfg.entry = Some(v);
                proof {
                    assert(cfg.model() == ConfigModel { entry: Some(v@), ..before });
                }
            } else if text_is(&key, "deps") {
                let ghost v0 = value@;
                while !array_literal_is_complete(&value)
                    invariant
                        at < l <= lines.len(),
                        ls == texts_view(lines@),
                        gather_array(ls, at + 1, v0) == gather_array(ls, l as int, value@),
                    decreases lines.len() - l,
                {
                    if l >= lines.len() {
                        let detail = chars_of("unterminated deps array");
                        return Err(config_error(label, &detail));
                    }
                    let next_stripped = strip_inline_comment(&lines[l]);
                    let next = trim(&next_stripped);
                    assert(next@ == clean_line(ls[l as int]));
                    let ghost joined = join_continuation(value@, next@);
                    l += 1;
                    if next.len() > 0 {
                        let n = value.len();
                        if !(n > 0 && (value[n - 1] == '[' || value[n - 1] == ',')) {
                            value.push(' ');
                        }
                        push_text(&mut value, &next);
                        assert(value@ =~= joined);
                    }
                }
                let deps_key = chars_of("deps");
                let d = parse_string_array(&value, label, line_no, &deps_key)?;
                cfg.deps = d;
                proof {
                    lemma_gather_bounds(ls, at + 1, v0);
                    assert(cfg.model() == ConfigModel { deps: texts_view(d@), ..before });
                }
            } else {
                let mut detail = chars_of("unknown key '");
                push_text(&mut detail, &key);
                push_str(&mut detail, "' on line ");
                let n = usize_to_text(line_no);
                push_text(&mut detail, &n);
                return Err(config_error(label, &detail));
            }
        } else {
            let parsed = parse_quoted_string(&value, label, line_no, &key)?;
            let ghost pair = (key@, parsed@);
            cfg.env.push((key, parsed));
            proof {
                assert(cfg.model().env =~= before.env.push(pair));
                assert(cfg.model() == ConfigModel { env: before.env.push(pair), ..before });
            }
        }
    }
    Ok(cfg)
}

/// Parses the text of a project configuration; `label` names it in error
/// messages, each of which starts with
/// `failed to parse project config '<label>': `.
///
/// Lines are read after their `#` comment is cut and surrounding white
/// space trimmed; empty lines are skipped.  Before any section a line is
/// `entry = "<string>"` or `deps = [ "<string>", ... ]`, whose value may go
/// on over the following lines until its brackets close; `[env]` opens the
/// environment section, whose lines are `NAME = "<string>"`.  A later
/// setting replaces an earlier one.  A refused text gets the first fault
/// met reading it: an unknown section or key, a line without `=`, a value
/// that is not a quoted string (or has a bad escape), a `deps` array left
/// open or not made of comma-separated quoted strings, each with its line.
pub fn parse_project_config(source: &str, label: &str) -> (r: Result<ProjectConfig, String>)
    ensures
        r is Ok <==> config_model(source@) is Some,
        r matches Ok(cfg) ==> config_matches(cfg, config_model(source@)->0),
        r matches Err(e) ==> has_prefix(e@, config_error_prefix(label@)),
        r matches Err(e) ==> e@ == config_error_prefix(label@) + config_failure(source@),
{
    let text = text_of(source);
    let label_text = text_of(label);
    match parse_config_text(&text, &label_text) {
        Ok(cfg) => {
            let ghost m = cfg.model();
            let mut env = EnvMap::new();
            let mut i: usize = 0;
            while i < cfg.env.len()
                invariant
                    i <= cfg.env@.len(),
                    m == cfg.model(),
                    forall|key: Seq<char>| #[trigger] env.lookup(key) == env_value(m.env.take(i as int), key),
                    forall|key: Seq<char>| #[trigger] env_names(m.env.take(i as int)).contains(key) == (env.lookup(key) is Some),
                    env_names(m.env.take(i as int)).finite(),
                    env.size() == env_names(m.env.take(i as int)).len(),
                decreases cfg.env.len() - i,
            {
                let ghost prev = m.env.take(i as int);
                let ghost pair = m.env[i as int];
                let ghost had = env.lookup(pair.0) is Some;
                env.insert(text_to_string(&cfg.env[i].0), text_to_string(&cfg.env[i].1));
                proof {
                    let now = m.env.take(i + 1);
                    assert(now.drop_last() =~= prev);
                    assert(now.last() == pair);
                    assert(env_names(now) == env_names(prev).insert(pair.0));
                    assert forall|key: Seq<char>| #[trigger] env.lookup(key) == env_value(now, key) by {
                    }
                    assert forall|key: Seq<char>| #[trigger] env_names(now).contains(key) == (env.lookup(key) is Some) by {
                    }
                    if had {
                        assert(env_names(prev).insert(pair.0) =~= env_names(prev));
                    }
                }
                i += 1;
            }
            proof {
                assert(m.env.take(m.env.len() as int) =~= m.env);
            }
            let mut deps: Vec<String> = Vec::new();
            let mut i: usize = 0;
            while i < cfg.deps.len()
                invariant
                    i <= cfg.deps@.len(),
                    m == cfg.model(),
                    deps@.len() == i,
                    forall|k: int| 0 <= k < i ==> (#[trigger] deps@[k])@ == m.deps[k],
                decreases cfg.deps.len() - i,
            {
                deps.push(text_to_string(&cfg.deps[i]));
                i += 1;
            }
            Ok(
                ProjectConfig {
                    entry: match &cfg.entry {
                        Some(e) => Some(text_to_string(e)),
                        None => None,
                    },
                    deps,
                    env,
                },
            )
        },
        Err(e) => Err(text_to_string(&e)),
    }
}

/// A file system path, carried through unchanged.
#[verifier::external_type_specification]
#[verifier::external_body]
pub struct ExPathBuf(std::path::PathBuf);

/// A loaded configuration: the file it came from, the directory that
/// holds it, and its settings.
#[derive(Debug, PartialEq, Eq)]
pub struct LoadedProjectConfig {
    pub path: std::path::PathBuf,
    pub root_dir: std::path::PathBuf,
    pub config: ProjectConfig,
}

/// Calls `std::path::Path::is_absolute` on the text as a path; nothing is
/// claimed of the answer, which depends on the platform.
#[verifier::external_body]
fn path_text_is_absolute(p: &str) -> bool {
    std::path::Path::new(p).is_absolute()
}

/// Calls `std::path::PathBuf::from` on the text; nothing is claimed of the path.
#[verifier::external_body]
fn path_of_text(p: &str) -> std::path::PathBuf {
    std::path::PathBuf::from(p)
}

/// Calls `std::path::Path::join`, appending the text to `base`; nothing is
/// claimed of the path.
#[verifier::external_body]
fn path_join_text(base: &std::path::PathBuf, p: &str) -> std::path::PathBuf {
    base.join(p)
}

/// Calls `std::path::Path::extension`, as text where it is valid UTF-8;
/// nothing is claimed of the answer.
#[verifier::external_body]
fn path_extension_text(p: &std::path::PathBuf) -> Option<String> {
    p.extension().and_then(|e| e.to_str()).map(|e| e.to_string())
}

/// Calls `std::path::Path::display` and renders it; nothing is claimed of
/// the text.
#[verifier::external_body]
fn path_display_text(p: &std::path::PathBuf) -> String {
    p.display().to_string()
}

/// A bundle file must have the extension `que`; the error names the path as
/// displayed.
pub fn check_bundle_extension(extension: Option<&str>, displayed: &str) -> (r: Result<(), String>)
    ensures
        r is Ok <==> (extension matches Some(e) && e@ == "que"@),
        r matches Err(m) ==> m@ == "bundle '"@ + displayed@ + "' must be a .que file"@,
{
    let ok = match extension {
        Some(e) => text_is(&text_of(e), "que"),
        None => false,
    };
    if ok {
        Ok(())
    } else {
        let mut m = chars_of("bundle '");
        push_text(&mut m, &text_of(displayed));
        push_str(&mut m, "' must be a .que file");
        Err(text_to_string(&m))
    }
}

/// Resolves a bundle path of the project configuration: an absolute path
/// stands as it is, a relative one is taken from `base_dir`.  The resolved
/// path must name a `.que` file; it is refused, with its displayed text,
/// exactly when its extension is not `que`.
pub fn resolve_bundle_path(base_dir: &std::path::PathBuf, bundle_path: &str) -> (r: Result<
    std::path::PathBuf,
    String,
>)
    ensures
        r matches Err(m) ==> exists|shown: Seq<char>| m@ == "bundle '"@ + shown + "' must be a .que file"@,
{
    let resolved = if path_text_is_absolute(bundle_path) {
        path_of_text(bundle_path)
    } else {
        path_join_text(base_dir, bundle_path)
    };
    let extension = path_extension_text(&resolved);
    let displayed = path_display_text(&resolved);
    let ext: Option<&str> = match &extension {
        Some(e) => Some(e.as_str()),
        None => None,
    };
    match check_bundle_extension(ext, displayed.as_str()) {
        Ok(()) => Ok(resolved),
        Err(m) => {
            assert(m@ == "bundle '"@ + displayed@ + "' must be a .que file"@);
            Err(m)
        },
    }
}

/// The configuration a new project starts with.
pub fn default_project_config_text() -> (r: String)
    ensures
        r@ == "entry = \"main.que\"\ndeps = []\n\n[env]\nQUE_WASM_OPT = \"speed\"\nQUE_DEVIRTUALIZE = \"aggressive\"\nQUE_TCO = \"aggressive\"\n"@,
{
    let t = chars_of(
        "entry = \"main.que\"\ndeps = []\n\n[env]\nQUE_WASM_OPT = \"speed\"\nQUE_DEVIRTUALIZE = \"aggressive\"\nQUE_TCO = \"aggressive\"\n",
    );
    text_to_string(&t)
}

/// A form that may stand at the top level of a bundle: an application of
/// `let`, `letrec`, `mut`, `extern` or `letype`.
pub open spec fn is_definition_form(e: Expression) -> bool {
    match e {
        Expression::Apply(items) => items@.len() > 0 && match items@[0] {
            Expression::Word(kw) => kw@ == "let"@ || kw@ == "letrec"@ || kw@ == "mut"@ || kw@
                == "extern"@ || kw@ == "letype"@,
            _ => false,
        },
        _ => false,
    }
}

/// The position of the first form from `i` on that is not a definition,
/// or the number of forms.
pub open spec fn first_non_definition(defs: Seq<Expression>, i: int) -> int
    decreases defs.len() - i,
{
    if i < 0 || i >= defs.len() {
        defs.len() as int
    } else if is_definition_form(defs[i]) {
        first_non_definition(defs, i + 1)
    } else {
        i
    }
}

/// The error for the form at position `k` of bundle `label`, which is not
/// a definition: the word it starts with, or the form itself when it does
/// not start with a word.
pub open spec fn bundle_fault(label: Seq<char>, form: Expression, k: nat) -> Seq<char> {
    "bundle '"@ + label + "' must contain only top-level definitions; "@ + match form {
        Expression::Apply(items) => if items@.len() > 0 && items@[0] is Word {
            "found '"@ + items@[0]->Word_0@ + "' at form "@ + digits_text(k)
        } else {
            "malformed form "@ + digits_text(k) + ": "@ + lisp_text(form)
        },
        _ => "found non-definition at form "@ + digits_text(k) + ": "@ + lisp_text(form),
    }
}

/// Checks that every form of a bundle is a definition; the error names the
/// first form that is not.
pub fn check_bundle_definitions(defs: &Vec<Expression>, label: &str) -> (r: Result<(), String>)
    ensures
        r is Ok <==> forall|i: int| 0 <= i < defs@.len() ==> is_definition_form(#[trigger] defs@[i]),
        r matches Err(e) ==> e@ == bundle_fault(
            label@,
            defs@[first_non_definition(defs@, 0)],
            first_non_definition(defs@, 0) as nat,
        ),
{
    let label_text = text_of(label);
    let mut idx: usize = 0;
    while idx < defs.len()
        invariant
            idx <= defs.len(),
            forall|i: int| 0 <= i < idx ==> is_definition_form(#[trigger] defs@[i]),
            first_non_definition(defs@, 0) == first_non_definition(defs@, idx as int),
        decreases defs.len() - idx,
    {
        let item = &defs[idx];
        let mut head = chars_of("bundle '");
        push_text(&mut head, &label_text);
        push_str(&mut head, "' must contain only top-level definitions; ");
        let index_text = usize_to_text(idx);
        match item {
            Expression::Apply(form) => {
                let kw = if form.len() == 0 {
                    None
                } else {
                    match &form[0] {
                        Expression::Word(kw) => Some(kw),
                        _ => None,
                    }
                };
                match kw {
                    None => {
                        push_str(&mut head, "malformed form ");
                        push_text(&mut head, &index_text);
                        push_str(&mut head, ": ");
                        let lisp = item.lisp_chars();
                        push_text(&mut head, &lisp);
                        assert(!is_definition_form(defs@[idx as int]));
                        return Err(text_to_string(&head));
                    },
                    Some(kw) => {
                        if !(text_is(kw, "let") || text_is(kw, "letrec") || text_is(kw, "mut")
                            || text_is(kw, "extern") || text_is(kw, "letype")) {
                            push_str(&mut head, "found '");
                            push_text(&mut head, kw);
                            push_str(&mut head, "' at form ");
                            push_text(&mut head, &index_text);
                            assert(!is_definition_form(defs@[idx as int]));
                            return Err(text_to_string(&head));
                        }
                    },
                }
            },
            _ => {
                push_str(&mut head, "found non-definition at form ");
                push_text(&mut head, &index_text);
                push_str(&mut head, ": ");
                let lisp = item.lisp_chars();
                push_text(&mut head, &lisp);
                return Err(text_to_string(&head));
            },
        }
        idx += 1;
    }
    Ok(())
}

} // verus!
