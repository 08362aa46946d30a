//! Decoding the value a compiled program leaves in its linear memory, from a
//! copy of that memory's bytes and the type the program announces.
//!
//! A vector is stored as a header whose first word is its length and whose
//! word 16 bytes on is the address of its elements, one word each; a tuple
//! is stored as a vector of two or more elements.  Words are 32-bit
//! little-endian.
use vstd::prelude::*;
use crate::text::{chars_of, int_text, int_to_text, push_str, push_text, text_is, text_of, trim, trimmed};
use crate::wasm_values::{
    lemma_outer_inside_shorter, lemma_tuple_parts_short, outer_inside, split_tuple_types,
    strings_view, strip_outer_type, tuple_parts,
};

verus! {

/// A piece of a decoded value's rendering: text, or the bits of a `Float`,
/// whose decimal form the caller writes.
pub enum ValuePiece {
    Text(Vec<char>),
    FloatBits(u32),
}

/// A piece of a rendering, as a mathematical value.
pub enum Rendered {
    Text(Seq<char>),
    FloatBits(u32),
}

/// The value of a piece.
pub open spec fn rendered(p: ValuePiece) -> Rendered {
    match p {
        ValuePiece::Text(t) => Rendered::Text(t@),
        ValuePiece::FloatBits(b) => Rendered::FloatBits(b),
    }
}

/// The values of a list of pieces.
pub open spec fn rendered_all(ps: Seq<ValuePiece>) -> Seq<Rendered> {
    ps.map_values(|p: ValuePiece| rendered(p))
}

/// The 32-bit little-endian word stored at `a`, as a signed Int.
pub open spec fn le_word(mem: Seq<u8>, a: int) -> int {
    let u = mem[a] as int + 256 * (mem[a + 1] as int) + 65536 * (mem[a + 2] as int) + 16777216 * (
    mem[a + 3] as int);
    if u >= 0x8000_0000 {
        u - 0x1_0000_0000
    } else {
        u
    }
}

/// The word at address `a`, or why it cannot be read.
pub open spec fn word_at(mem: Seq<u8>, a: int) -> Result<int, Seq<char>> {
    if a < 0 {
        Err("invalid memory address: "@ + int_text(a))
    } else if a + 4 > mem.len() {
        Err("out of bounds memory read at "@ + int_text(a))
    } else {
        Ok(le_word(mem, a))
    }
}

/// The words `i..len` of a vector's storage at `data`, four bytes apart.
pub open spec fn words_from(mem: Seq<u8>, data: int, i: int, len: int) -> Result<Seq<int>, Seq<char>>
    decreases len - i,
{
    if i >= len {
        Ok(Seq::empty())
    } else {
        match word_at(mem, data + 4 * i) {
            Err(e) => Err(e),
            Ok(w) => match words_from(mem, data, i + 1, len) {
                Err(e) => Err(e),
                Ok(rest) => Ok(seq![w] + rest),
            },
        }
    }
}

/// The length and the elements of the vector whose header is at `ptr`.
pub open spec fn vector_words(mem: Seq<u8>, ptr: int) -> Result<(int, Seq<int>), Seq<char>> {
    match word_at(mem, ptr) {
        Err(e) => Err(e),
        Ok(len) => match word_at(mem, ptr + 16) {
            Err(e) => Err(e),
            Ok(data) => if len < 0 {
                Err("negative vector length: "@ + int_text(len))
            } else {
                match words_from(mem, data, 0, len) {
                    Err(e) => Err(e),
                    Ok(ws) => Ok((len, ws)),
                }
            },
        },
    }
}

/// The elements of the tuple at `ptr`: a vector of two or more.
pub open spec fn tuple_words(mem: Seq<u8>, ptr: int) -> Result<Seq<int>, Seq<char>> {
    match vector_words(mem, ptr) {
        Err(e) => Err(e),
        Ok((len, ws)) => if len < 2 {
            Err("tuple len != 2 ("@ + int_text(len) + ")"@)
        } else {
            Ok(ws)
        },
    }
}

/// The character with scalar value `code`, or `?` when there is none.
pub open spec fn code_char(code: int) -> char {
    if 0 <= code <= 0xD7FF || 0xE000 <= code <= 0x10FFFF {
        code as char
    } else {
        '?'
    }
}

/// The bits of a word, read as unsigned.
pub open spec fn word_bits(w: int) -> u32 {
    if w < 0 {
        (w + 0x1_0000_0000) as u32
    } else {
        w as u32
    }
}

/// A `Float` result is the word itself: its bits, read back as a signed word,
/// are the word, sign included.
pub proof fn lemma_float_keeps_word(mem: Seq<u8>, ptr: i32, typ: Seq<char>)
    requires
        trimmed(typ) == "Float"@,
    ensures
        decoding(mem, ptr as int, typ) matches Ok(rs) && rs.len() == 1 && match rs[0] {
            Rendered::FloatBits(b) => b as i32 == ptr,
            _ => false,
        },
{
    reveal_strlit("Float");
    reveal_strlit("Bool");
    assert("Float"@ != "Bool"@) by {
        assert("Float"@[0] != "Bool"@[0]);
    }
    if ptr < 0 {
        let w: i64 = (ptr as i64 + 0x1_0000_0000i64) as i64;
        assert((w as u32) as i32 == ptr) by (bit_vector)
            requires
                w == ptr as i64 + 0x1_0000_0000i64,
                ptr < 0,
        ;
        assert(word_bits(ptr as int) == w as u32);
    } else {
        assert(((ptr as u32) as i32) == ptr) by (bit_vector)
            requires
                ptr >= 0,
        ;
    }
}

/// Renderings joined by single spaces.
pub open spec fn joined(ds: Seq<Seq<Rendered>>) -> Seq<Rendered>
    decreases ds.len(),
{
    if ds.len() == 0 {
        Seq::empty()
    } else if ds.len() == 1 {
        ds[0]
    } else {
        joined(ds.drop_last()) + seq![Rendered::Text(" "@)] + ds.last()
    }
}

/// The length of the longest text of a list.
pub open spec fn longest(parts: Seq<Seq<char>>) -> nat
    decreases parts.len(),
{
    if parts.len() == 0 {
        0
    } else if parts[0].len() > longest(parts.drop_first()) {
        parts[0].len()
    } else {
        longest(parts.drop_first())
    }
}

/// No text of a list is longer than `bound`, nor then the longest.
pub proof fn lemma_longest_bound(parts: Seq<Seq<char>>, bound: nat)
    requires
        forall|k: int| 0 <= k < parts.len() ==> #[trigger] parts[k].len() <= bound,
    ensures
        longest(parts) <= bound,
    decreases parts.len(),
{
    if parts.len() > 0 {
        assert forall|k: int| 0 <= k < parts.drop_first().len() implies #[trigger] parts.drop_first()[k].len()
            <= bound by {
            assert(parts.drop_first()[k] == parts[k + 1]);
        }
        lemma_longest_bound(parts.drop_first(), bound);
    }
}

/// The rendering of the value at `ptr` of type `typ`, or why it cannot be
/// read: `Bool`, `Float` and `Char` are the word itself; `[Char]` is a
/// string; `[T]` a vector `[a b ...]`; `{A * B ...}` a tuple `{ a b ... }`,
/// an element past the listed types read as `Int`; any other type is the
/// word as an Int.
pub open spec fn decoding(mem: Seq<u8>, ptr: int, typ: Seq<char>) -> Result<Seq<Rendered>, Seq<char>>
    decreases typ.len(), 0int,
{
    let t = trimmed(typ);
    if t == "Bool"@ {
        Ok(
            seq![
                Rendered::Text(
                    if ptr == 1 {
                        "true"@
                    } else {
                        "false"@
                    },
                ),
            ],
        )
    } else if t == "Float"@ {
        Ok(seq![Rendered::FloatBits(word_bits(ptr))])
    } else if t == "Char"@ {
        Ok(seq![Rendered::Text(seq![code_char(ptr)])])
    } else if t == "[Char]"@ {
        match vector_words(mem, ptr) {
            Err(e) => Err(e),
            Ok((len, ws)) => Ok(seq![Rendered::Text(ws.map_values(|w: int| code_char(w)))]),
        }
    } else if outer_inside(typ, '[', ']') is Some {
        let inner = outer_inside(typ, '[', ']')->0;
        proof {
            lemma_outer_inside_shorter(typ, '[', ']');
        }
        match vector_words(mem, ptr) {
            Err(e) => Err(e),
            Ok((len, ws)) => match decode_all(mem, ws, inner) {
                Err(e) => Err(e),
                Ok(ds) => Ok(seq![Rendered::Text("["@)] + joined(ds) + seq![Rendered::Text("]"@)]),
            },
        }
    } else if outer_inside(typ, '{', '}') is Some {
        let content = outer_inside(typ, '{', '}')->0;
        let parts = tuple_parts(content, 0, 0, Seq::empty());
        proof {
            lemma_outer_inside_shorter(typ, '{', '}');
            lemma_tuple_parts_short(content, 0, 0, Seq::empty());
            lemma_longest_bound(parts, content.len());
        }
        match tuple_words(mem, ptr) {
            Err(e) => Err(e),
            Ok(ws) => match decode_tuple(mem, ws, parts) {
                Err(e) => Err(e),
                Ok(ds) => Ok(seq![Rendered::Text("{ "@)] + joined(ds) + seq![Rendered::Text(" }"@)]),
            },
        }
    } else {
        Ok(seq![Rendered::Text(int_text(ptr))])
    }
}

/// The renderings of the values at `ws`, all of type `typ`; the first
/// failure, if any.
pub open spec fn decode_all(mem: Seq<u8>, ws: Seq<int>, typ: Seq<char>) -> Result<
    Seq<Seq<Rendered>>,
    Seq<char>,
>
    decreases typ.len(), ws.len() + 1,
{
    if ws.len() == 0 {
        Ok(Seq::empty())
    } else {
        match decoding(mem, ws[0], typ) {
            Err(e) => Err(e),
            Ok(d) => match decode_all(mem, ws.drop_first(), typ) {
                Err(e) => Err(e),
                Ok(rest) => Ok(seq![d] + rest),
            },
        }
    }
}

/// The renderings of the elements `ws` of a tuple whose remaining element
/// types are `parts`; an element past them is an Int.
pub open spec fn decode_tuple(mem: Seq<u8>, ws: Seq<int>, parts: Seq<Seq<char>>) -> Result<
    Seq<Seq<Rendered>>,
    Seq<char>,
>
    decreases longest(parts), ws.len() + 1,
{
    if ws.len() == 0 {
        Ok(Seq::empty())
    } else {
        let first = if parts.len() > 0 {
            decoding(mem, ws[0], parts[0])
        } else {
            Ok(seq![Rendered::Text(int_text(ws[0]))])
        };
        let rest_parts = if parts.len() > 0 {
            parts.drop_first()
        } else {
            parts
        };
        match first {
            Err(e) => Err(e),
            Ok(d) => match decode_tuple(mem, ws.drop_first(), rest_parts) {
                Err(e) => Err(e),
                Ok(rest) => Ok(seq![d] + rest),
            },
        }
    }
}

/// `char::from_u32`: the character with scalar value `code`; `None` for a
/// surrogate (`0xD800..=0xDFFF`) or a value past `0x10FFFF`, which are not
/// characters.
#[verifier::external_body]
fn char_from_code(code: u32) -> (r: Option<char>)
    ensures
        r is Some <==> (code <= 0xD7FF || (0xE000 <= code <= 0x10FFFF)),
        r matches Some(c) ==> c as int == code as int,
{
    char::from_u32(code)
}

/// The character with scalar value `code`, or `?`.
fn char_of_code(code: i32) -> (c: char)
    ensures
        c == code_char(code as int),
{
    if code < 0 {
        '?'
    } else {
        match char_from_code(code as u32) {
            Some(c) => c,
            None => '?',
        }
    }
}

/// Reads the word at `addr`.
fn read_word(memory: &Vec<u8>, addr: i64) -> (r: Result<i32, Vec<char>>)
    ensures
        match (r, word_at(memory@, addr as int)) {
            (Ok(w), Ok(v)) => w as int == v,
            (Err(e), Err(m)) => e@ == m,
            _ => false,
        },
{
    if addr < 0 {
        let mut e = chars_of("invalid memory address: ");
        let n = int_to_text(addr);
        push_text(&mut e, &n);
        return Err(e);
    }
    let a = addr as u64;
    let len = memory.len() as u64;
    if a + 4 > len {
        let mut e = chars_of("out of bounds memory read at ");
        let n = int_to_text(addr);
        push_text(&mut e, &n);
        return Err(e);
    }
    let i = a as usize;
    let u: u64 = memory[i] as u64 + 256 * (memory[i + 1] as u64) + 65536 * (memory[i + 2] as u64)
        + 16777216 * (memory[i + 3] as u64);
    if u >= 0x8000_0000 {
        Ok((u as i64 - 0x1_0000_0000) as i32)
    } else {
        Ok(u as i32)
    }
}

/// The words of a list, as Ints.
pub open spec fn word_values(ws: Seq<i32>) -> Seq<int> {
    ws.map_values(|w: i32| w as int)
}

/// Reads the length and the elements of the vector whose header is at
/// `ptr`.
fn read_vector(memory: &Vec<u8>, ptr: i32) -> (r: Result<(i32, Vec<i32>), Vec<char>>)
    ensures
        match (r, vector_words(memory@, ptr as int)) {
            (Ok((len, ws)), Ok((slen, sws))) => len as int == slen && word_values(ws@) == sws,
            (Err(e), Err(m)) => e@ == m,
            _ => false,
        },
{
    let len = read_word(memory, ptr as i64)?;
    let data = read_word(memory, ptr as i64 + 16)?;
    if len < 0 {
        let mut e = chars_of("negative vector length: ");
        let n = int_to_text(len as i64);
        push_text(&mut e, &n);
        return Err(e);
    }
    let mut out: Vec<i32> = Vec::new();
    let mut i: i32 = 0;
    while i < len
        invariant
            0 <= i <= len,
            words_from(memory@, data as int, 0, len as int) == match words_from(
                memory@,
                data as int,
                i as int,
                len as int,
            ) {
                Ok(rest) => Ok(word_values(out@) + rest),
                Err(e) => Err(e),
            },
        decreases len - i,
    {
        let w = read_word(memory, data as i64 + 4 * (i as i64))?;
        let ghost before = out@;
        out.push(w);
        proof {
            assert(word_values(out@) =~= word_values(before).push(w as int));
            match words_from(memory@, data as int, i + 1, len as int) {
                Ok(rest) => {
                    assert(word_values(before) + (seq![w as int] + rest) =~= word_values(out@) + rest);
                },
                Err(_) => {},
            }
        }
        i += 1;
    }
    proof {
        assert(word_values(out@) + Seq::<int>::empty() =~= word_values(out@));
    }
    Ok((len, out))
}

/// A decoding result as computed, against the one the spec gives.
pub open spec fn decoded_as(r: Result<Vec<ValuePiece>, Vec<char>>, s: Result<Seq<Rendered>, Seq<char>>) -> bool {
    match (r, s) {
        (Ok(ps), Ok(rs)) => rendered_all(ps@) == rs,
        (Err(e), Err(m)) => e@ == m,
        _ => false,
    }
}

/// The decodings `done` followed by those of `rest`, or the failure of
/// `rest`.
pub open spec fn then_all(done: Seq<Seq<Rendered>>, rest: Result<Seq<Seq<Rendered>>, Seq<char>>) -> Result<
    Seq<Seq<Rendered>>,
    Seq<char>,
> {
    match rest {
        Ok(r) => Ok(done + r),
        Err(e) => Err(e),
    }
}

/// Appends `more` to `out`.
fn append_pieces(out: &mut Vec<ValuePiece>, more: Vec<ValuePiece>)
    ensures
        rendered_all(final(out)@) == rendered_all(old(out)@) + rendered_all(more@),
{
    let mut more = more;
    let ghost m = more@;
    out.append(&mut more);
    assert(rendered_all(out@) =~= rendered_all(old(out)@) + rendered_all(m));
}

/// Decodes the value at `ptr` of type `typ`.
#[verifier::spinoff_prover]
#[verifier::rlimit(60)]
fn decode_in(memory: &Vec<u8>, ptr: i32, typ: &str) -> (r: Result<Vec<ValuePiece>, Vec<char>>)
    ensures
        decoded_as(r, decoding(memory@, ptr as int, typ@)),
    decreases typ@.len(),
{
    let t = trim(&text_of(typ));
    if text_is(&t, "Bool") {
        let word = if ptr == 1 {
            chars_of("true")
        } else {
            chars_of("false")
        };
        let out = vec![ValuePiece::Text(word)];
        assert(rendered_all(out@) =~= decoding(memory@, ptr as int, typ@)->Ok_0);
        return Ok(out);
    }
    if text_is(&t, "Float") {
        let bits: u32 = if ptr < 0 {
            (ptr as i64 + 0x1_0000_0000) as u32
        } else {
            ptr as u32
        };
        let out = vec![ValuePiece::FloatBits(bits)];
        assert(rendered_all(out@) =~= decoding(memory@, ptr as int, typ@)->Ok_0);
        return Ok(out);
    }
    if text_is(&t, "Char") {
        let c = char_of_code(ptr);
        let text = vec![c];
        assert(text@ =~= seq![code_char(ptr as int)]);
        let out = vec![ValuePiece::Text(text)];
        assert(rendered_all(out@) =~= decoding(memory@, ptr as int, typ@)->Ok_0);
        return Ok(out);
    }
    if text_is(&t, "[Char]") {
        let (_, words) = read_vector(memory, ptr)?;
        let mut text: Vec<char> = Vec::new();
        let mut k: usize = 0;
        while k < words.len()
            invariant
                k <= words@.len(),
                text@ == word_values(words@).take(k as int).map_values(|w: int| code_char(w)),
            decreases words.len() - k,
        {
            text.push(char_of_code(words[k]));
            proof {
                assert(word_values(words@).take(k + 1) =~= word_values(words@).take(k as int).push(
                    words@[k as int] as int,
                ));
            }
            k += 1;
        }
        proof {
            assert(word_values(words@).take(words@.len() as int) =~= word_values(words@));
        }
        let out = vec![ValuePiece::Text(text)];
        assert(rendered_all(out@) =~= decoding(memory@, ptr as int, typ@)->Ok_0);
        return Ok(out);
    }
    if let Some(inner) = strip_outer_type(typ, '[', ']') {
        proof {
            lemma_outer_inside_shorter(typ@, '[', ']');
        }
        let (_, words) = read_vector(memory, ptr)?;
        let ghost ws = word_values(words@);
        let ghost ty = inner@;
        let mut out: Vec<ValuePiece> = vec![ValuePiece::Text(chars_of("["))];
        let ghost mut done: Seq<Seq<Rendered>> = Seq::empty();
        let mut k: usize = 0;
        proof {
            assert(ws.skip(0) =~= ws);
            assert(then_all(done, decode_all(memory@, ws.skip(0), ty)) =~= decode_all(memory@, ws, ty));
        }
        while k < words.len()
            invariant
                k <= words@.len(),
                ws == word_values(words@),
                ty.len() < typ@.len(),
                ty == inner@,
                done.len() == k,
                rendered_all(out@) == seq![Rendered::Text("["@)] + joined(done),
                decode_all(memory@, ws, ty) == then_all(done, decode_all(memory@, ws.skip(k as int), ty)),
            decreases words.len() - k,
        {
            let piece = decode_in(memory, words[k], inner.as_str());
            proof {
                assert(ws.skip(k as int)[0] == words@[k as int] as int);
                assert(ws.skip(k as int).drop_first() =~= ws.skip(k + 1));
            }
            let piece = match piece {
                Ok(p) => p,
                Err(e) => {
                    return Err(e);
                },
            };
            let ghost d = rendered_all(piece@);
            let ghost pushed_from = rendered_all(out@);
            if k > 0 {
                out.push(ValuePiece::Text(chars_of(" ")));
                assert(rendered_all(out@) =~= pushed_from.push(Rendered::Text(" "@)));
            }
            append_pieces(&mut out, piece);
            proof {
                let next = done.push(d);
                assert(next.drop_last() =~= done);
                if k == 0 {
                    assert(joined(next) == d);
                    assert(rendered_all(out@) =~= seq![Rendered::Text("["@)] + joined(next));
                } else {
                    assert(rendered_all(out@) =~= seq![Rendered::Text("["@)] + joined(next));
                }
                match decode_all(memory@, ws.skip(k + 1), ty) {
                    Ok(rest) => {
                        assert(done + (seq![d] + rest) =~= next + rest);
                    },
                    Err(_) => {},
                }
                done = next;
            }
            k += 1;
        }
        proof {
            assert(ws.skip(k as int) =~= Seq::<int>::empty());
            assert(done + Seq::<Seq<Rendered>>::empty() =~= done);
        }
        let ghost before = rendered_all(out@);
        out.push(ValuePiece::Text(chars_of("]")));
        proof {
            assert(rendered_all(out@) =~= before.push(Rendered::Text("]"@)));
            assert(rendered_all(out@) =~= decoding(memory@, ptr as int, typ@)->Ok_0);
        }
        return Ok(out);
    }
    if let Some(content) = strip_outer_type(typ, '{', '}') {
        let parts = split_tuple_types(content.as_str());
        let ghost ps = strings_view(parts@);
        proof {
            lemma_outer_inside_shorter(typ@, '{', '}');
            lemma_tuple_parts_short(content@, 0, 0, Seq::empty());
        }
        let words = read_tuple(memory, ptr)?;
        let ghost ws = word_values(words@);
        let mut out: Vec<ValuePiece> = vec![ValuePiece::Text(chars_of("{ "))];
        let ghost mut done: Seq<Seq<Rendered>> = Seq::empty();
        let mut k: usize = 0;
        proof {
            assert(ws.skip(0) =~= ws);
            assert(ps.skip(0) =~= ps);
            assert(parts_from(ps, 0) == ps);
            match decode_tuple(memory@, ws, ps) {
                Ok(r) => {
                    assert(done + r =~= r);
                },
                Err(_) => {},
            }
        }
        while k < words.len()
            invariant
                k <= words@.len(),
                ws == word_values(words@),
                ps == strings_view(parts@),
                ps == tuple_parts(content@, 0, 0, Seq::empty()),
                forall|j: int| 0 <= j < ps.len() ==> #[trigger] ps[j].len() < typ@.len(),
                done.len() == k,
                rendered_all(out@) == seq![Rendered::Text("{ "@)] + joined(done),
                decode_tuple(memory@, ws, ps) == then_all(
                    done,
                    decode_tuple(memory@, ws.skip(k as int), parts_from(ps, k as int)),
                ),
            decreases words.len() - k,
        {
            proof {
                assert(ws.skip(k as int)[0] == words@[k as int] as int);
                assert(ws.skip(k as int).drop_first() =~= ws.skip(k + 1));
                if k < ps.len() {
                    assert(parts_from(ps, k as int)[0] == ps[k as int]);
                    assert(parts_from(ps, k as int).drop_first() =~= parts_from(ps, k + 1));
                } else {
                    assert(parts_from(ps, k as int) == parts_from(ps, k + 1));
                }
            }
            let piece = if k < parts.len() {
                assert(ps[k as int] == parts@[k as int]@);
                decode_in(memory, words[k], parts[k].as_str())
            } else {
                let out = vec![ValuePiece::Text(int_to_text(words[k] as i64))];
                assert(rendered_all(out@) =~= seq![Rendered::Text(int_text(words@[k as int] as int))]);
                Ok(out)
            };
            let piece = match piece {
                Ok(p) => p,
                Err(e) => {
                    return Err(e);
                },
            };
            let ghost d = rendered_all(piece@);
            let ghost pushed_from = rendered_all(out@);
            if k > 0 {
                out.push(ValuePiece::Text(chars_of(" ")));
                assert(rendered_all(out@) =~= pushed_from.push(Rendered::Text(" "@)));
            }
            append_pieces(&mut out, piece);
            proof {
                let next = done.push(d);
                assert(next.drop_last() =~= done);
                if k == 0 {
                    assert(joined(next) == d);
                }
                assert(rendered_all(out@) =~= seq![Rendered::Text("{ "@)] + joined(next));
                match decode_tuple(memory@, ws.skip(k + 1), parts_from(ps, k + 1)) {
                    Ok(rest) => {
                        assert(done + (seq![d] + rest) =~= next + rest);
                    },
                    Err(_) => {},
                }
                done = next;
            }
            k += 1;
        }
        proof {
            assert(ws.skip(k as int) =~= Seq::<int>::empty());
            assert(done + Seq::<Seq<Rendered>>::empty() =~= done);
        }
        let ghost before = rendered_all(out@);
        out.push(ValuePiece::Text(chars_of(" }")));
        proof {
            assert(rendered_all(out@) =~= before.push(Rendered::Text(" }"@)));
            assert(rendered_all(out@) =~= decoding(memory@, ptr as int, typ@)->Ok_0);
        }
        return Ok(out);
    }
    let out = vec![ValuePiece::Text(int_to_text(ptr as i64))];
    assert(rendered_all(out@) =~= decoding(memory@, ptr as int, typ@)->Ok_0);
    Ok(out)
}

/// The element types a tuple has left from element `k` on.
pub open spec fn parts_from(ps: Seq<Seq<char>>, k: int) -> Seq<Seq<char>> {
    if k < ps.len() {
        ps.skip(k)
    } else {
        Seq::empty()
    }
}

/// Reads the elements of the tuple at `ptr`.
fn read_tuple(memory: &Vec<u8>, ptr: i32) -> (r: Result<Vec<i32>, Vec<char>>)
    ensures
        match (r, tuple_words(memory@, ptr as int)) {
            (Ok(ws), Ok(sws)) => word_values(ws@) == sws,
            (Err(e), Err(m)) => e@ == m,
            _ => false,
        },
{
    let (len, items) = read_vector(memory, ptr)?;
    if len < 2 {
        let mut e = chars_of("tuple len != 2 (");
        let n = int_to_text(len as i64);
        push_text(&mut e, &n);
        push_str(&mut e, ")");
        return Err(e);
    }
    Ok(items)
}

/// Decodes the value a program left at `ptr` in its linear memory, whose
/// bytes are `memory`, by the type `typ` it announces.  The rendering is
/// the pieces' texts in order, with each `Float` written in decimal.
pub fn decode_value(memory: &Vec<u8>, ptr: i32, typ: &str) -> (r: Result<Vec<ValuePiece>, String>)
    ensures
        match (r, decoding(memory@, ptr as int, typ@)) {
            (Ok(ps), Ok(rs)) => rendered_all(ps@) == rs,
            (Err(e), Err(m)) => e@ == m,
            _ => false,
        },
        trimmed(typ@) == "Float"@ ==> (r matches Ok(ps) && ps@.len() == 1 && match ps@[0] {
            ValuePiece::FloatBits(b) => b as i32 == ptr,
            _ => false,
        }),
{
    proof {
        if trimmed(typ@) == "Float"@ {
            lemma_float_keeps_word(memory@, ptr, typ@);
        }
    }
    match decode_in(memory, ptr, typ) {
        Ok(ps) => Ok(ps),
        Err(e) => Err(crate::text::text_to_string(&e)),
    }
}

} // verus!
