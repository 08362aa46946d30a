use que::expr::Expression;
use que::fusion::{index_value, loop_source_bindings, short_circuit_source_bindings, FuseSource};

fn word(s: &str) -> Expression {
    Expression::Word(s.chars().collect())
}

fn lisp(e: &Expression) -> String {
    e.to_lisp()
}

fn suffix(s: &str) -> Vec<char> {
    s.chars().collect()
}

#[test]
fn vector_source_walks_its_elements() {
    let (setup, start, end, access) =
        loop_source_bindings(FuseSource::Vector(word("xs")), &suffix("")).expect("bindings");
    assert_eq!(setup.iter().map(lisp).collect::<Vec<_>>(), vec!["(let __fuse_xs xs)"]);
    assert_eq!(lisp(&start), "0");
    assert_eq!(lisp(&end), "(length __fuse_xs)");
    assert_eq!(lisp(&index_value(&access, &word("i"))), "(get __fuse_xs i)");
}

#[test]
fn inclusive_range_counts_both_ends() {
    let source = FuseSource::RangeInt { start: Expression::Int(1), end: Expression::Int(5) };
    let (setup, _start, end, access) = loop_source_bindings(source, &suffix("_2")).expect("bindings");
    assert_eq!(
        setup.iter().map(lisp).collect::<Vec<_>>(),
        vec!["(let __fuse_from_2 1)", "(let __fuse_to_2 5)"]
    );
    assert_eq!(lisp(&end), "(+ (- __fuse_to_2 __fuse_from_2) 1)");
    assert_eq!(lisp(&index_value(&access, &word("k"))), "(+ __fuse_from_2 k)");
}

#[test]
fn window_source_counts_windows() {
    let source = FuseSource::Window { xs: word("v"), size: Expression::Int(2) };
    let (setup, _start, end, access) = loop_source_bindings(source, &suffix("")).expect("bindings");
    assert_eq!(setup.len(), 4);
    assert_eq!(
        lisp(&setup[3]),
        "(let __fuse_window_end (if (> __fuse_window_size __fuse_window_len) 0 (if (= __fuse_window_size 0) __fuse_window_len (+ (- __fuse_window_len __fuse_window_size) 1))))"
    );
    assert_eq!(lisp(&end), "__fuse_window_end");
    assert_eq!(lisp(&index_value(&access, &word("i"))), "(slice i (+ i __fuse_window_size) __fuse_xs)");
}

#[test]
fn short_circuit_vector_source_binds_length_and_counter() {
    let (setup, counter, condition, access) =
        short_circuit_source_bindings(FuseSource::Vector(word("xs")), &suffix("")).expect("bindings");
    assert_eq!(
        setup.iter().map(lisp).collect::<Vec<_>>(),
        vec!["(let __fuse_xs xs)", "(let __fuse_len (length __fuse_xs))", "(let __fuse_i (vector 0))"]
    );
    assert_eq!(counter.iter().collect::<String>(), "__fuse_i");
    assert_eq!(lisp(&condition), "(< (get __fuse_i 0) __fuse_len)");
    assert_eq!(lisp(&index_value(&access, &word("j"))), "(get __fuse_xs j)");
}

#[test]
fn short_circuit_zip_source_reads_pairs() {
    let source = FuseSource::Zip { left: word("a"), right: word("b") };
    let (setup, _counter, condition, access) =
        short_circuit_source_bindings(source, &suffix("_1")).expect("bindings");
    assert_eq!(setup.len(), 4);
    assert_eq!(lisp(&setup[3]), "(let __fuse_i_1 (vector 0))");
    assert_eq!(lisp(&condition), "(< (get __fuse_i_1 0) __fuse_zip_len_1)");
    assert_eq!(
        lisp(&index_value(&access, &word("i"))),
        "(tuple (get __fuse_left_1 i) (get __fuse_right_1 i))"
    );
}
