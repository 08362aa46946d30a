use que::heap::{decode_value, ValuePiece};

fn render(memory: &[u8], ptr: i32, typ: &str) -> Result<String, String> {
    let pieces = decode_value(&memory.to_vec(), ptr, typ)?;
    let mut out = String::new();
    for piece in pieces {
        match piece {
            ValuePiece::Text(text) => out.extend(text),
            ValuePiece::FloatBits(bits) => out.push_str(&f32::from_bits(bits).to_string()),
        }
    }
    Ok(out)
}

fn put(memory: &mut Vec<u8>, addr: usize, value: i32) {
    if memory.len() < addr + 4 {
        memory.resize(addr + 4, 0);
    }
    memory[addr..addr + 4].copy_from_slice(&value.to_le_bytes());
}

/// A vector header at `at` whose elements start at `data`.
fn vector(memory: &mut Vec<u8>, at: usize, data: usize, items: &[i32]) {
    put(memory, at, items.len() as i32);
    put(memory, at + 16, data as i32);
    for (i, item) in items.iter().enumerate() {
        put(memory, data + 4 * i, *item);
    }
}

#[test]
fn scalars_are_the_word_itself() {
    let memory = vec![0u8; 8];
    assert_eq!(render(&memory, 1, "Bool"), Ok("true".to_string()));
    assert_eq!(render(&memory, 0, " Bool "), Ok("false".to_string()));
    assert_eq!(render(&memory, 65, "Char"), Ok("A".to_string()));
    assert_eq!(render(&memory, 0xD800, "Char"), Ok("?".to_string()));
    assert_eq!(render(&memory, -5, "Char"), Ok("?".to_string()));
    assert_eq!(render(&memory, -42, "Int"), Ok("-42".to_string()));
    assert_eq!(render(&memory, 7, "Unknown"), Ok("7".to_string()));
    let bits = 1.5f32.to_bits() as i32;
    assert_eq!(render(&memory, bits, "Float"), Ok("1.5".to_string()));
}

#[test]
fn vectors_and_strings_are_read_from_their_headers() {
    let mut memory = Vec::new();
    vector(&mut memory, 0, 32, &[1, -2, 3]);
    assert_eq!(render(&memory, 0, "[Int]"), Ok("[1 -2 3]".to_string()));
    vector(&mut memory, 64, 96, &['h' as i32, 'i' as i32]);
    assert_eq!(render(&memory, 64, "[Char]"), Ok("hi".to_string()));
    vector(&mut memory, 128, 160, &[]);
    assert_eq!(render(&memory, 128, "[Int]"), Ok("[]".to_string()));
}

#[test]
fn nested_vectors_decode_each_element_by_the_inner_type() {
    let mut memory = Vec::new();
    vector(&mut memory, 0, 32, &[1, 2]);
    vector(&mut memory, 64, 96, &[3]);
    vector(&mut memory, 128, 160, &[0, 64]);
    assert_eq!(render(&memory, 128, "[[Int]]"), Ok("[[1 2] [3]]".to_string()));
}

#[test]
fn tuples_use_their_element_types_and_read_extra_elements_as_int() {
    let mut memory = Vec::new();
    vector(&mut memory, 0, 32, &['o' as i32, 'k' as i32]);
    vector(&mut memory, 64, 96, &[1, 0, 9]);
    assert_eq!(render(&memory, 64, "{Bool * [Char]}"), Ok("{ true ok 9 }".to_string()));
}

#[test]
fn a_tuple_needs_two_elements() {
    let mut memory = Vec::new();
    vector(&mut memory, 0, 32, &[5]);
    assert_eq!(render(&memory, 0, "{Int * Int}"), Err("tuple len != 2 (1)".to_string()));
}

#[test]
fn unreadable_memory_is_reported() {
    let mut memory = Vec::new();
    vector(&mut memory, 0, 32, &[1]);
    assert_eq!(
        render(&memory, 1000, "[Int]"),
        Err("out of bounds memory read at 1000".to_string())
    );
    assert_eq!(render(&memory, -4, "[Int]"), Err("invalid memory address: -4".to_string()));
    put(&mut memory, 64, -1);
    put(&mut memory, 80, 0);
    assert_eq!(render(&memory, 64, "[Int]"), Err("negative vector length: -1".to_string()));
}
