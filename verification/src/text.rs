//! Text held as character vectors, and the few operations the front end needs.
use vstd::prelude::*;
use vstd::string::*;

verus! {

/// True when `text` spells exactly the characters of `lit`.
pub fn text_is(text: &Vec<char>, lit: &str) -> (r: bool)
    ensures
        r == (text@ == lit@),
{
    let n = lit.unicode_len();
    if text.len() != n {
        return false;
    }
    let mut i: usize = 0;
    while i < n
        invariant
            i <= n,
            n == lit@.len(),
            text@.len() == n,
            forall|j: int| 0 <= j < i ==> text@[j] == lit@[j],
        decreases n - i,
    {
        if text[i] != lit.get_char(i) {
            return false;
        }
        i += 1;
    }
    assert(text@ =~= lit@);
    true
}

/// The characters of a string slice.
pub fn chars_of(lit: &str) -> (r: Vec<char>)
    ensures
        r@ == lit@,
{
    let n = lit.unicode_len();
    let mut out: Vec<char> = Vec::new();
    let mut i: usize = 0;
    while i < n
        invariant
            i <= n,
            n == lit@.len(),
            out@ == lit@.take(i as int),
        decreases n - i,
    {
        out.push(lit.get_char(i));
        i += 1;
        assert(out@ =~= lit@.take(i as int));
    }
    assert(lit@.take(n as int) =~= lit@);
    out
}

/// Equality of two texts.
pub fn text_eq(a: &Vec<char>, b: &Vec<char>) -> (r: bool)
    ensures
        r == (a@ == b@),
{
    if a.len() != b.len() {
        return false;
    }
    let mut i: usize = 0;
    while i < a.len()
        invariant
            i <= a.len(),
            a.len() == b.len(),
            forall|j: int| 0 <= j < i ==> a@[j] == b@[j],
        decreases a.len() - i,
    {
        if a[i] != b[i] {
            return false;
        }
        i += 1;
    }
    assert(a@ =~= b@);
    true
}

/// A fresh copy of a text.
pub fn copy_text(t: &Vec<char>) -> (r: Vec<char>)
    ensures
        r@ == t@,
{
    let mut out: Vec<char> = Vec::new();
    let mut i: usize = 0;
    while i < t.len()
        invariant
            i <= t.len(),
            out@ == t@.take(i as int),
        decreases t.len() - i,
    {
        out.push(t[i]);
        i += 1;
        assert(out@ =~= t@.take(i as int));
    }
    assert(t@.take(t@.len() as int) =~= t@);
    out
}

/// Appends the characters of `lit`.
pub fn push_str(out: &mut Vec<char>, lit: &str)
    ensures
        final(out)@ == old(out)@ + lit@,
{
    let n = lit.unicode_len();
    let ghost start = out@;
    let mut i: usize = 0;
    while i < n
        invariant
            i <= n,
            n == lit@.len(),
            out@ == start + lit@.take(i as int),
        decreases n - i,
    {
        out.push(lit.get_char(i));
        i += 1;
        assert(out@ =~= start + lit@.take(i as int));
    }
    assert(lit@.take(n as int) =~= lit@);
}

/// Appends the characters of `t`.
pub fn push_text(out: &mut Vec<char>, t: &Vec<char>)
    ensures
        final(out)@ == old(out)@ + t@,
{
    let ghost start = out@;
    let mut i: usize = 0;
    while i < t.len()
        invariant
            i <= t.len(),
            out@ == start + t@.take(i as int),
        decreases t.len() - i,
    {
        out.push(t[i]);
        i += 1;
        assert(out@ =~= start + t@.take(i as int));
    }
    assert(t@.take(t@.len() as int) =~= t@);
}

/// True when `prefix` is a prefix of `t`.
pub fn starts_with(t: &Vec<char>, prefix: &Vec<char>) -> (r: bool)
    ensures
        r == (prefix@.len() <= t@.len() && t@.take(prefix@.len() as int) == prefix@),
{
    if prefix.len() > t.len() {
        return false;
    }
    let mut i: usize = 0;
    while i < prefix.len()
        invariant
            i <= prefix.len(),
            prefix.len() <= t.len(),
            forall|j: int| 0 <= j < i ==> t@[j] == prefix@[j],
        decreases prefix.len() - i,
    {
        if t[i] != prefix[i] {
            assert(t@.take(prefix@.len() as int)[i as int] != prefix@[i as int]);
            return false;
        }
        i += 1;
    }
    assert(t@.take(prefix@.len() as int) =~= prefix@);
    true
}

/// Lexicographic order of texts by character code, the order of `String`.
pub open spec fn text_less(a: Seq<char>, b: Seq<char>) -> bool
    decreases a.len(),
{
    if b.len() == 0 {
        false
    } else if a.len() == 0 {
        true
    } else if (a[0] as u32) < (b[0] as u32) {
        true
    } else if a[0] == b[0] {
        text_less(a.drop_first(), b.drop_first())
    } else {
        false
    }
}

/// True when `a` sorts strictly before `b`.
pub fn text_lt(a: &Vec<char>, b: &Vec<char>) -> (r: bool)
    ensures
        r == text_less(a@, b@),
{
    let mut i: usize = 0;
    assert(a@.skip(0) =~= a@);
    assert(b@.skip(0) =~= b@);
    while i < a.len() && i < b.len()
        invariant
            i <= a.len(),
            i <= b.len(),
            text_less(a@, b@) == text_less(a@.skip(i as int), b@.skip(i as int)),
        decreases a.len() - i,
    {
        let x = a[i];
        let y = b[i];
        assert(a@.skip(i as int)[0] == x);
        assert(b@.skip(i as int)[0] == y);
        if (x as u32) < (y as u32) {
            return true;
        }
        if x != y {
            return false;
        }
        assert(a@.skip(i as int).drop_first() =~= a@.skip(i + 1));
        assert(b@.skip(i as int).drop_first() =~= b@.skip(i + 1));
        i += 1;
    }
    i < b.len()
}

/// Decimal digits of a natural number, most significant first.
pub open spec fn digits_text(n: nat) -> Seq<char>
    decreases n,
{
    if n < 10 {
        seq![digit_char(n)]
    } else {
        digits_text(n / 10).push(digit_char(n % 10))
    }
}

pub open spec fn digit_char(d: nat) -> char {
    if d == 0 {
        '0'
    } else if d == 1 {
        '1'
    } else if d == 2 {
        '2'
    } else if d == 3 {
        '3'
    } else if d == 4 {
        '4'
    } else if d == 5 {
        '5'
    } else if d == 6 {
        '6'
    } else if d == 7 {
        '7'
    } else if d == 8 {
        '8'
    } else {
        '9'
    }
}

/// The decimal rendering of an integer, as `to_string` writes it.
pub open spec fn int_text(n: int) -> Seq<char> {
    if n < 0 {
        seq!['-'] + digits_text((-n) as nat)
    } else {
        digits_text(n as nat)
    }
}

proof fn lemma_digit_char_injective(x: nat, y: nat)
    requires
        x < 10,
        y < 10,
        digit_char(x) == digit_char(y),
    ensures
        x == y,
{
}

/// A decimal rendering is nonempty, starts with a digit, and has two or
/// more characters from ten on.
proof fn lemma_digits_text_shape(n: nat)
    ensures
        digits_text(n).len() >= 1,
        digits_text(n)[0] != '-',
        n >= 10 ==> digits_text(n).len() >= 2,
    decreases n,
{
    if n >= 10 {
        lemma_digits_text_shape(n / 10);
    }
}

/// Different naturals have different decimal renderings.
pub proof fn lemma_digits_text_injective(a: nat, b: nat)
    requires
        digits_text(a) == digits_text(b),
    ensures
        a == b,
    decreases a,
{
    lemma_digits_text_shape(a);
    lemma_digits_text_shape(b);
    if a < 10 && b < 10 {
        lemma_digit_char_injective(a, b);
    } else if a >= 10 && b >= 10 {
        let (da, db) = (digits_text(a), digits_text(b));
        assert(da.drop_last() == digits_text(a / 10));
        assert(db.drop_last() == digits_text(b / 10));
        lemma_digits_text_injective(a / 10, b / 10);
        assert(da.last() == digit_char(a % 10));
        assert(db.last() == digit_char(b % 10));
        lemma_digit_char_injective(a % 10, b % 10);
    }
}

/// Different integers have different decimal renderings.
pub proof fn lemma_int_text_injective(a: int, b: int)
    requires
        int_text(a) == int_text(b),
    ensures
        a == b,
{
    if a < 0 && b < 0 {
        assert(int_text(a).drop_first() == digits_text((-a) as nat));
        assert(int_text(b).drop_first() == digits_text((-b) as nat));
        lemma_digits_text_injective((-a) as nat, (-b) as nat);
    } else if a >= 0 && b >= 0 {
        lemma_digits_text_injective(a as nat, b as nat);
    } else if a < 0 {
        lemma_digits_text_shape(b as nat);
        assert(int_text(a)[0] == '-');
    } else {
        lemma_digits_text_shape(a as nat);
        assert(int_text(b)[0] == '-');
    }
}

fn digit(d: u64) -> (c: char)
    requires
        d < 10,
    ensures
        c == digit_char(d as nat),
{
    if d == 0 {
        '0'
    } else if d == 1 {
        '1'
    } else if d == 2 {
        '2'
    } else if d == 3 {
        '3'
    } else if d == 4 {
        '4'
    } else if d == 5 {
        '5'
    } else if d == 6 {
        '6'
    } else if d == 7 {
        '7'
    } else if d == 8 {
        '8'
    } else {
        '9'
    }
}

fn digits_of(n: u64) -> (r: Vec<char>)
    ensures
        r@ == digits_text(n as nat),
    decreases n,
{
    if n < 10 {
        let mut v: Vec<char> = Vec::new();
        v.push(digit(n));
        assert(v@ =~= digits_text(n as nat));
        v
    } else {
        let mut v = digits_of(n / 10);
        v.push(digit(n % 10));
        v
    }
}

/// Renders an integer in decimal.
pub fn int_to_text(n: i64) -> (r: Vec<char>)
    ensures
        r@ == int_text(n as int),
{
    if n < 0 {
        let magnitude: u64 = if n == i64::MIN {
            9223372036854775808u64
        } else {
            (-n) as u64
        };
        let mut out: Vec<char> = Vec::new();
        out.push('-');
        let digits = digits_of(magnitude);
        push_text(&mut out, &digits);
        assert(out@ =~= seq!['-'] + digits_text((-(n as int)) as nat));
        out
    } else {
        digits_of(n as u64)
    }
}

/// Renders a `usize` in decimal.
pub fn usize_to_text(n: usize) -> (r: Vec<char>)
    ensures
        r@ == digits_text(n as nat),
{
    digits_of(n as u64)
}

/// The characters of a string slice, for text handed in by callers.
pub fn text_of(s: &str) -> (r: Vec<char>)
    ensures
        r@ == s@,
{
    chars_of(s)
}

/// A `String` holding the characters of `t`.
///
/// Calls `String`'s `FromIterator<&char>` implementation; the contract claims
/// only that the string holds exactly these characters in order.
#[verifier::external_body]
pub fn text_to_string(t: &Vec<char>) -> (r: String)
    ensures
        r@ == t@,
{
    t.iter().collect()
}

} // verus!

verus! {

/// Unicode `White_Space`, the set `char::is_whitespace` tests.
pub open spec fn spec_is_whitespace(c: char) -> bool {
    c == '\t' || c == '\n' || c == '\u{b}' || c == '\u{c}' || c == '\r' || c == ' ' || c
        == '\u{85}' || c == '\u{a0}' || c == '\u{1680}' || ('\u{2000}' <= c && c <= '\u{200a}')
        || c == '\u{2028}' || c == '\u{2029}' || c == '\u{202f}' || c == '\u{205f}' || c
        == '\u{3000}'
}

/// Whether `c` is white space.
pub fn is_whitespace(c: char) -> (r: bool)
    ensures
        r == spec_is_whitespace(c),
{
    c == '\t' || c == '\n' || c == '\u{b}' || c == '\u{c}' || c == '\r' || c == ' ' || c
        == '\u{85}' || c == '\u{a0}' || c == '\u{1680}' || ('\u{2000}' <= c && c <= '\u{200a}')
        || c == '\u{2028}' || c == '\u{2029}' || c == '\u{202f}' || c == '\u{205f}' || c
        == '\u{3000}'
}

/// Whether `c` is an ASCII decimal digit.
pub open spec fn spec_is_digit(c: char) -> bool {
    '0' <= c && c <= '9'
}

/// The text with white space removed from both ends.
pub open spec fn trimmed(s: Seq<char>) -> Seq<char> {
    if trim_start_index(s) <= trim_end_index(s) {
        s.subrange(trim_start_index(s), trim_end_index(s))
    } else {
        Seq::empty()
    }
}

/// Index of the first character that is not white space (or the length).
pub open spec fn trim_start_index(s: Seq<char>) -> int
    decreases s.len(),
{
    if s.len() == 0 {
        0
    } else if spec_is_whitespace(s[0]) {
        1 + trim_start_index(s.drop_first())
    } else {
        0
    }
}

/// One past the last character that is not white space (or zero).
pub open spec fn trim_end_index(s: Seq<char>) -> int
    decreases s.len(),
{
    if s.len() == 0 {
        0
    } else if spec_is_whitespace(s.last()) {
        trim_end_index(s.drop_last())
    } else {
        s.len() as int
    }
}

pub proof fn lemma_trim_end_bounds(s: Seq<char>)
    ensures
        0 <= trim_end_index(s) <= s.len(),
        forall|j: int| trim_end_index(s) <= j < s.len() ==> spec_is_whitespace(#[trigger] s[j]),
        trim_end_index(s) > 0 ==> !spec_is_whitespace(s[trim_end_index(s) - 1]),
    decreases s.len(),
{
    if s.len() > 0 && spec_is_whitespace(s.last()) {
        lemma_trim_end_bounds(s.drop_last());
        assert forall|j: int| trim_end_index(s) <= j < s.len() implies spec_is_whitespace(
            #[trigger] s[j],
        ) by {
            if j < s.len() - 1 {
                assert(s[j] == s.drop_last()[j]);
            }
        }
        if trim_end_index(s) > 0 {
            assert(s[trim_end_index(s) - 1] == s.drop_last()[trim_end_index(s) - 1]);
        }
    }
}

/// Trimming never lengthens a text.
pub proof fn lemma_trimmed_len(s: Seq<char>)
    ensures
        trimmed(s).len() <= s.len(),
{
    lemma_trim_start_bounds(s);
    lemma_trim_end_bounds(s);
}

pub proof fn lemma_trim_start_bounds(s: Seq<char>)
    ensures
        0 <= trim_start_index(s) <= s.len(),
        forall|j: int| 0 <= j < trim_start_index(s) ==> spec_is_whitespace(#[trigger] s[j]),
        trim_start_index(s) < s.len() ==> !spec_is_whitespace(s[trim_start_index(s)]),
    decreases s.len(),
{
    if s.len() > 0 && spec_is_whitespace(s[0]) {
        lemma_trim_start_bounds(s.drop_first());
        assert forall|j: int| 0 <= j < trim_start_index(s) implies spec_is_whitespace(
            #[trigger] s[j],
        ) by {
            if j > 0 {
                assert(s[j] == s.drop_first()[j - 1]);
            }
        }
        if trim_start_index(s) < s.len() {
            assert(s[trim_start_index(s)] == s.drop_first()[trim_start_index(s) - 1]);
        }
    }
}

/// Position one past the last non-space character of `s[from..to]`.
fn end_without_space(s: &Vec<char>, from: usize, to: usize) -> (r: usize)
    requires
        from <= to <= s.len(),
    ensures
        from <= r <= to,
        r == from + trim_end_index(s@.subrange(from as int, to as int)),
    decreases to - from,
{
    proof {
        let t = s@.subrange(from as int, to as int);
        if t.len() > 0 {
            assert(t.drop_last() =~= s@.subrange(from as int, to - 1));
            assert(t.last() == s@[to - 1]);
        }
        lemma_trim_end_bounds(t);
    }
    if to > from && is_whitespace(s[to - 1]) {
        end_without_space(s, from, to - 1)
    } else {
        to
    }
}

/// Position of the first non-space character of `s[from..to]`.
fn start_without_space(s: &Vec<char>, from: usize, to: usize) -> (r: usize)
    requires
        from <= to <= s.len(),
    ensures
        from <= r <= to,
        r == from + trim_start_index(s@.subrange(from as int, to as int)),
    decreases to - from,
{
    proof {
        let t = s@.subrange(from as int, to as int);
        if t.len() > 0 {
            assert(t.drop_first() =~= s@.subrange(from + 1, to as int));
            assert(t[0] == s@[from as int]);
        }
        lemma_trim_start_bounds(t);
    }
    if to > from && is_whitespace(s[from]) {
        start_without_space(s, from + 1, to)
    } else {
        from
    }
}

/// The characters of `s[from..to]`.
pub fn slice_text(s: &Vec<char>, from: usize, to: usize) -> (r: Vec<char>)
    requires
        from <= to <= s.len(),
    ensures
        r@ == s@.subrange(from as int, to as int),
{
    let mut out: Vec<char> = Vec::new();
    let mut i = from;
    while i < to
        invariant
            from <= i <= to,
            to <= s.len(),
            out@ == s@.subrange(from as int, i as int),
        decreases to - i,
    {
        out.push(s[i]);
        i += 1;
        assert(out@ =~= s@.subrange(from as int, i as int));
    }
    out
}

/// `s` without leading and trailing white space.
pub fn trim(s: &Vec<char>) -> (r: Vec<char>)
    ensures
        r@ == trimmed(s@),
{
    let n = s.len();
    let start = start_without_space(s, 0, n);
    let end = end_without_space(s, 0, n);
    proof {
        assert(s@.subrange(0, n as int) =~= s@);
        lemma_trim_start_bounds(s@);
        lemma_trim_end_bounds(s@);
        if start > end {
            // every character would be white space on both sides
            assert(end < s@.len());
            if end > 0 {
                assert(!spec_is_whitespace(s@[end - 1]));
                assert(spec_is_whitespace(s@[end - 1]));
            }
            assert(spec_is_whitespace(s@[end as int]));
        }
    }
    if start <= end {
        slice_text(s, start, end)
    } else {
        Vec::new()
    }
}

/// `s` without trailing white space.
pub fn trim_end(s: &Vec<char>) -> (r: Vec<char>)
    ensures
        r@ == s@.subrange(0, trim_end_index(s@)),
{
    let n = s.len();
    let end = end_without_space(s, 0, n);
    assert(s@.subrange(0, n as int) =~= s@);
    slice_text(s, 0, end)
}

/// `s` without leading white space.
pub fn trim_start(s: &Vec<char>) -> (r: Vec<char>)
    ensures
        r@ == s@.subrange(trim_start_index(s@), s@.len() as int),
        r@.len() <= s@.len(),
{
    proof {
        lemma_trim_start_bounds(s@);
    }
    let n = s.len();
    let start = start_without_space(s, 0, n);
    assert(s@.subrange(0, n as int) =~= s@);
    slice_text(s, start, n)
}

/// The first position at or after `i` where `s` holds `c`.
pub open spec fn first_index(s: Seq<char>, c: char, i: int) -> Option<int>
    decreases s.len() - i,
{
    if i < 0 || i >= s.len() {
        None
    } else if s[i] == c {
        Some(i)
    } else {
        first_index(s, c, i + 1)
    }
}

/// A position `first_index` finds holds `c` and lies at or after `i`.
pub proof fn lemma_first_index(s: Seq<char>, c: char, i: int)
    ensures
        first_index(s, c, i) matches Some(k) ==> 0 <= i <= k < s.len() && s[k] == c,
        first_index(s, c, i) is None && 0 <= i ==> forall|k: int| i <= k < s.len() ==> s[k] != c,
    decreases s.len() - i,
{
    if 0 <= i < s.len() && s[i] != c {
        lemma_first_index(s, c, i + 1);
    }
}

/// `t` without one trailing carriage return.
pub open spec fn without_cr(t: Seq<char>) -> Seq<char> {
    if t.len() > 0 && t.last() == '\r' {
        t.drop_last()
    } else {
        t
    }
}

/// The lines of `s`, where `cur` is the part of the current line read so
/// far: each `'\n'` ends a line (without the `'\r'` of a `"\r\n"`), and a
/// last line without a newline counts only when it is not empty.
pub open spec fn lines_with(s: Seq<char>, cur: Seq<char>) -> Seq<Seq<char>>
    decreases s.len(),
{
    if s.len() == 0 {
        if cur.len() > 0 {
            seq![cur]
        } else {
            Seq::empty()
        }
    } else if s[0] == '\n' {
        seq![without_cr(cur)] + lines_with(s.drop_first(), Seq::empty())
    } else {
        lines_with(s.drop_first(), cur.push(s[0]))
    }
}

/// The lines of `s` in the manner of `str::lines`.
pub open spec fn text_lines(s: Seq<char>) -> Seq<Seq<char>> {
    lines_with(s, Seq::empty())
}

/// The texts of a sequence of character vectors.
pub open spec fn texts_view(v: Seq<Vec<char>>) -> Seq<Seq<char>> {
    v.map_values(|t: Vec<char>| t@)
}

proof fn lemma_lines_skip(s: Seq<char>, start: int, i: int)
    requires
        0 <= start <= i < s.len(),
        s[i] != '\n',
    ensures
        lines_with(s.skip(i), s.subrange(start, i)) == lines_with(
            s.skip(i + 1),
            s.subrange(start, i + 1),
        ),
{
    assert(s.skip(i).drop_first() =~= s.skip(i + 1));
    assert(s.subrange(start, i).push(s[i]) =~= s.subrange(start, i + 1));
}

/// The lines of `s` in the manner of `str::lines`: split at `'\n'`, with
/// the `'\r'` of a `"\r\n"` ending removed, and no final empty line after a
/// trailing newline.
pub fn split_lines(s: &Vec<char>) -> (r: Vec<Vec<char>>)
    ensures
        texts_view(r@) == text_lines(s@),
        forall|k: int| 0 <= k < r@.len() ==> !(#[trigger] r@[k]@).contains('\n'),
{
    let mut out: Vec<Vec<char>> = Vec::new();
    let mut start: usize = 0;
    let mut i: usize = 0;
    proof {
        assert(s@.skip(0) =~= s@);
        assert(s@.subrange(0, 0) =~= Seq::<char>::empty());
        assert(texts_view(out@) =~= Seq::<Seq<char>>::empty());
    }
    while i < s.len()
        invariant
            start <= i <= s.len(),
            forall|j: int| start <= j < i ==> s@[j] != '\n',
            forall|k: int| 0 <= k < out@.len() ==> !(#[trigger] out@[k]@).contains('\n'),
            text_lines(s@) == texts_view(out@) + lines_with(
                s@.skip(i as int),
                s@.subrange(start as int, i as int),
            ),
        decreases s.len() - i,
    {
        if s[i] == '\n' {
            let mut end = i;
            if end > start && s[end - 1] == '\r' {
                end = end - 1;
            }
            let line = slice_text(s, start, end);
            assert(!line@.contains('\n')) by {
                if line@.contains('\n') {
                    let k = choose|k: int| 0 <= k < line@.len() && line@[k] == '\n';
                    assert(s@[start + k] == '\n');
                }
            }
            proof {
                let cur = s@.subrange(start as int, i as int);
                assert(line@ =~= without_cr(cur));
                assert(s@.skip(i as int).drop_first() =~= s@.skip(i + 1));
                assert(s@.subrange(i + 1, i + 1) =~= Seq::<char>::empty());
                assert(texts_view(out@.push(line)) =~= texts_view(out@).push(line@));
            }
            out.push(line);
            start = i + 1;
        } else {
            proof {
                lemma_lines_skip(s@, start as int, i as int);
            }
        }
        i += 1;
    }
    proof {
        assert(s@.skip(i as int) =~= Seq::<char>::empty());
    }
    if start < s.len() {
        let end = s.len();
        let line = slice_text(s, start, end);
        assert(!line@.contains('\n')) by {
            if line@.contains('\n') {
                let k = choose|k: int| 0 <= k < line@.len() && line@[k] == '\n';
                assert(s@[start + k] == '\n');
            }
        }
        proof {
            assert(texts_view(out@.push(line)) =~= texts_view(out@).push(line@));
        }
        out.push(line);
    } else {
        proof {
            assert(s@.subrange(start as int, i as int) =~= Seq::<char>::empty());
        }
    }
    out
}

} // verus!
