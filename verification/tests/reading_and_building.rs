use que::desugar::{build, build_library, parse};
use que::program::merge_std_and_program;
use que::reader::tokenize;

fn chars(s: &str) -> Vec<char> {
    s.chars().collect()
}

fn text(v: &[char]) -> String {
    v.iter().collect()
}

fn built(source: &str) -> String {
    build(source).expect("source should build").to_lisp()
}

fn parsed(source: &str) -> Vec<String> {
    parse(source).expect("source should parse").iter().map(|e| e.to_lisp()).collect()
}

#[test]
fn comments_run_to_the_end_of_their_line() {
    let tokens: Vec<String> = tokenize(&chars("(a ;note ( )\n b)")).iter().map(|t| text(t)).collect();
    assert_eq!(tokens, vec!["(", "a", "b", ")"]);
    let tail: Vec<String> = tokenize(&chars("ab;c")).iter().map(|t| text(t)).collect();
    assert_eq!(tail, vec!["ab"]);
}

#[test]
fn numbers_read_in_their_shortest_form() {
    assert_eq!(parsed("(f 007 -2 2.50 -00.100 .5 5.)"), vec!["(f 7 -2 2.5 -0.1 0.5 5.0)"]);
    assert_eq!(parsed("1 x"), vec!["1", "x"]);
    assert_eq!(parsed(""), Vec::<String>::new());
}

#[test]
fn malformed_source_is_refused() {
    assert!(parse("(a").is_err());
    assert!(parse(")").is_err());
    assert!(parse("99999999999").is_err());
    let error = parse("(a").unwrap_err();
    assert!(error.starts_with("parse.delimiter_error: unclosed_opener"), "{error}");
}

#[test]
fn literal_syntax_becomes_applications() {
    let library = build_library("[1 2] {a b} \"hi\" 'c' ; gone\n").expect("library should build");
    assert_eq!(library.to_lisp(), "(do (vector 1 2) (tuple a b) (string 104 105) (char 99))");
    let nested = build_library("(do (do a b) c) d").expect("library should build");
    assert_eq!(nested.to_lisp(), "(do a b c d)");
    assert_eq!(build_library("'ab'").unwrap_err(), "Char should be of length 1");
    assert!(build_library("[1 2").is_err());
    assert!(build_library("(a]").is_err());
}

#[test]
fn pipes_thread_the_value_through_each_stage() {
    assert_eq!(
        built("(|> xs (filter odd?) (map square) (sum))"),
        "(do (sum (map square (filter odd? xs))))"
    );
    assert_eq!(built("(<| x (f a) g)"), "(do (g (f x a)))");
    assert!(build("(|>)").is_err());
}

#[test]
fn arithmetic_folds_from_the_left() {
    assert_eq!(built("(- x)"), "(do (* x -1))");
    assert_eq!(built("(- a b c)"), "(do (- (- a b) c))");
    assert_eq!(built("(+ a b c)"), "(do (+ (+ a b) c))");
    assert_eq!(built("(+)"), "(do 1)");
    assert_eq!(built("(-. x)"), "(do (*. x -1.0))");
    assert_eq!(built("(cons a b)"), "(do (cons a b))");
    assert_eq!(built("(cons)"), "(do (vector))");
}

#[test]
fn conditionals_and_accessors_fill_in_their_parts() {
    assert_eq!(built("(if c a)"), "(do (if c a nil))");
    assert_eq!(built("(if)"), "(do (if nil nil nil))");
    assert_eq!(built("(get m)"), "(do (get m 0))");
    assert_eq!(built("(get m 1 2)"), "(do (get (get m 1) 2))");
    assert_eq!(built("(cdr xs)"), "(do (cdr xs 1))");
    assert_eq!(built("(set! m 1 2 v)"), "(do (set! (get m 1) 2 v))");
    assert_eq!(built("(set! m 1 v)"), "(do (set! m 1 v))");
    assert!(build("(set! m 1)").is_err());
    assert_eq!(built("(apply f a b)"), "(do ((f a) b))");
    assert_eq!(built("(comp f g)"), "(do (lambda _x (g (f _x))))");
}

#[test]
fn typed_bindings_wrap_their_values() {
    assert_eq!(built("(integer n 1)"), "(do (let n (int 1)))");
    assert_eq!(built("(variable n 1)"), "(do (let n (box 1)))");
    assert_eq!(built("(boolean ok (> a b))"), "(do (let ok (bool (> a b))))");
    assert!(build("(boolean ok 1)").is_err());
    assert_eq!(built("(while c body)"), "(do (while c (do (body) nil)))");
    assert_eq!(built("(while c (lambda (f)))"), "(do (while c (do ((lambda (f))) nil)))");
    assert!(build("(while c (lambda x (f)))").is_err());
}

#[test]
fn destructuring_binds_fresh_names() {
    assert_eq!(
        built("(let (tuple a b) p)"),
        "(do (let _let_temp_tuple_10000_0 p) (let _temp_tuple_10000_1 _let_temp_tuple_10000_0) \
         (let a (fst _temp_tuple_10000_1)) (let b (snd _temp_tuple_10000_1)))"
    );
    assert_eq!(
        built("(lambda (tuple a b) a)"),
        "(do (lambda _args0__arg_0_0 (do (let _temp_tuple_0_1 _args0__arg_0_0) \
         (let a (fst _temp_tuple_0_1)) (let b (snd _temp_tuple_0_1)) a)))"
    );
    assert_eq!(
        built("(let (vector x . rest) xs)"),
        "(do (let _let_temp_vec_10000_0 xs) (let _temp_vec_10000_1 _let_temp_vec_10000_0) \
         (let x (get _temp_vec_10000_1 0)) (let rest (cdr _temp_vec_10000_1 1)))"
    );
    assert!(build("(let (tuple a) p)").is_err());
    assert!(build("(let (vector x . . r) xs)").is_err());
}

#[test]
fn library_definitions_come_before_the_program_dependencies_first() {
    let std_forms = parse("(let a 1) (let b (+ a 1)) (let c 3)").unwrap();
    let merged = merge_std_and_program("b", std_forms).expect("program should merge");
    assert_eq!(merged.to_lisp(), "(do (let a 1) (let b (+ a 1)) b)");
    let own = merge_std_and_program("(let b 5) b", parse("(let b 7)").unwrap()).unwrap();
    assert_eq!(own.to_lisp(), "(do (let b 5) b)");
    assert!(merge_std_and_program("(a", Vec::new()).is_err());
}

#[test]
fn macro_calls_expand_before_desugaring() {
    assert_eq!(
        built("(letmacro twice (lambda x (qq (+ (uq x) (uq x))))) (twice 3)"),
        "(do (+ 3 3))"
    );
    assert_eq!(
        built("(letmacro all (lambda . xs (qq (list (uqs xs))))) (all 1 2 3)"),
        "(do (list 1 2 3))"
    );
    assert_eq!(
        built("(letmacro pick ((a) a) ((a b) b)) (pick 1) (pick 1 2)"),
        "(do 1 2)"
    );
}

#[test]
fn macro_bodies_evaluate_let_quote_and_gensym() {
    assert_eq!(
        built("(letmacro fresh (lambda (do (let n (gensym)) (qq (f (uq n) (uq n)))))) (fresh) (fresh)"),
        "(do (f __macro_0 __macro_0) (f __macro_1 __macro_1))"
    );
    assert_eq!(built("(letmacro q (lambda x (quote x))) (q 5)"), "(do x)");
}

#[test]
fn macro_errors_name_the_macro_and_the_call() {
    assert_eq!(
        build("(letmacro pick ((a) a) ((a b . c) b)) (pick)").unwrap_err(),
        "Macro 'pick' expected one of [1, 2+] args, got 0 in call (pick)"
    );
    assert_eq!(
        build("(letmacro bad (lambda x (let (y) x))) (bad 1)").unwrap_err(),
        "Macro 'bad' expansion failed for call (bad 1): compile-time let only supports simple word bindings for now"
    );
    assert_eq!(
        build("(letmacro leak (lambda x (qq (uq x)))) (leak (uq 2))").unwrap_err(),
        "Compile-time form 'uq' can only appear inside letmacro bodies"
    );
    assert_eq!(
        build("(quote a)").unwrap_err(),
        "Compile-time form 'quote' can only appear inside letmacro bodies"
    );
    assert_eq!(
        build("(letmacro m 1)").unwrap_err(),
        "letmacro 'm' must be bound to a lambda"
    );
    assert_eq!(
        build("(letmacro loop (lambda x (qq (loop (uq x))))) (loop 1)").unwrap_err(),
        "Macro expansion exceeded maximum depth"
    );
}

#[test]
fn macroexpand_spells_the_expansion_as_a_string() {
    assert_eq!(
        built("(letmacro one (lambda 1)) (macroexpand (one))"),
        "(do (string 49))"
    );
}
