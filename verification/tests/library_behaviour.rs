use que::analysis::{
    analyze_user_program, analyze_user_program_diagnostics, explain_termination, first_diagnostic,
};
use que::desugar::{build, build_library, parse};
use que::expr::Expression;
use que::interval::{hull, integer_arithmetic_interval, meet, sat_add, sat_mul, sat_sub, IntInterval};
use que::program::{is_reserved_word, merge_std_and_program};
use que::project::{check_bundle_definitions, parse_project_config, EnvMap};
use que::reader::{delimiter_debug_report, is_float, is_integer, parse_i32_token, tokenize, DelimiterMode};
use que::text::{split_lines, text_lt, trim};
use que::wasm_values::{
    extract_type_from_wat, guard_trap_message, parse_wasm_opt_level, split_tuple_types,
    strip_outer_type, WasmOptLevel,
    wasm_of_wat,
};

fn chars(s: &str) -> Vec<char> {
    s.chars().collect()
}

fn text(v: &[char]) -> String {
    v.iter().collect()
}

fn messages_of(source: &str, user_form_count: usize) -> Vec<String> {
    let program = build(source).expect("source should build");
    analyze_user_program_diagnostics(&program, user_form_count)
}

#[test]
fn interval_addition_and_subtraction_take_endpoint_sums() {
    let a = IntInterval { min: 1, max: 2 };
    let b = IntInterval { min: 3, max: 4 };
    assert_eq!(
        integer_arithmetic_interval(&chars("+"), a, b),
        Some(IntInterval { min: 4, max: 6 })
    );
    assert_eq!(
        integer_arithmetic_interval(&chars("-"), a, b),
        Some(IntInterval { min: -3, max: -1 })
    );
}

#[test]
fn interval_multiplication_takes_the_extreme_corner_products() {
    let a = IntInterval { min: -2, max: 3 };
    let b = IntInterval { min: -5, max: 4 };
    assert_eq!(
        integer_arithmetic_interval(&chars("*"), a, b),
        Some(IntInterval { min: -15, max: 12 })
    );
    assert_eq!(integer_arithmetic_interval(&chars("/"), a, b), None);
}

#[test]
fn interval_endpoints_saturate_at_the_i64_range() {
    assert_eq!(sat_add(i64::MAX, 1), i64::MAX);
    assert_eq!(sat_sub(i64::MIN, 1), i64::MIN);
    assert_eq!(sat_mul(i64::MAX, 2), i64::MAX);
    assert_eq!(sat_mul(i64::MIN, 2), i64::MIN);
    assert_eq!(sat_mul(-3, 7), -21);
    let wide = IntInterval { min: i64::MIN, max: i64::MAX };
    assert_eq!(
        integer_arithmetic_interval(&chars("*"), wide, wide),
        Some(IntInterval { min: i64::MIN, max: i64::MAX })
    );
}

#[test]
fn hull_covers_both_and_meet_keeps_the_overlap() {
    let a = IntInterval { min: 0, max: 5 };
    let b = IntInterval { min: 3, max: 9 };
    assert_eq!(hull(a, b), IntInterval { min: 0, max: 9 });
    assert_eq!(meet(a, b), IntInterval { min: 3, max: 5 });
    assert!(IntInterval::exact(4).excludes_zero());
    assert!(!IntInterval { min: -1, max: 1 }.excludes_zero());
    assert!(IntInterval::i32_range().fits_i32());
    assert!(!IntInterval { min: 0, max: 2147483648 }.fits_i32());
}

#[test]
fn lines_split_like_str_lines() {
    let lines = split_lines(&chars("a\r\nb\n\nc\r"));
    let got: Vec<String> = lines.iter().map(|l| text(l)).collect();
    assert_eq!(got, vec!["a", "b", "", "c\r"]);
    assert!(split_lines(&chars("")).is_empty());
    assert_eq!(split_lines(&chars("x\n")).len(), 1);
}

#[test]
fn trim_and_order_follow_string_semantics() {
    assert_eq!(text(&trim(&chars("  a b \t"))), "a b");
    assert_eq!(text(&trim(&chars(" \n "))), "");
    assert!(text_lt(&chars("abc"), &chars("abd")));
    assert!(text_lt(&chars("ab"), &chars("abc")));
    assert!(!text_lt(&chars("b"), &chars("abc")));
    assert!(!text_lt(&chars("same"), &chars("same")));
}

#[test]
fn number_tokens_are_classified() {
    assert!(is_integer(&chars("42")));
    assert!(is_integer(&chars("-7")));
    assert!(!is_integer(&chars("-")));
    assert!(!is_integer(&chars("4a")));
    assert!(is_float(&chars("3.5")));
    assert!(is_float(&chars("-0.25")));
    assert!(!is_float(&chars("3")));
    assert!(!is_float(&chars("1.2.3")));
    assert_eq!(parse_i32_token(&chars("-2147483648")), Ok(i32::MIN));
    assert!(parse_i32_token(&chars("2147483648")).is_err());
}

#[test]
fn tokens_split_at_parentheses_and_spaces() {
    let tokens: Vec<String> = tokenize(&chars("(+ 1 (f x))")).iter().map(|t| text(t)).collect();
    assert_eq!(tokens, vec!["(", "+", "1", "(", "f", "x", ")", ")"]);
}

#[test]
fn parsed_expressions_render_back_as_lisp() {
    let forms = parse("(let x 1) (f x -2)").expect("source should parse");
    assert_eq!(forms.len(), 2);
    assert_eq!(forms[0].to_lisp(), "(let x 1)");
    assert_eq!(forms[1].to_lisp(), "(f x -2)");
    assert!(parse("(f x").is_err());
}

#[test]
fn built_programs_are_one_do_form() {
    let program = build("(let x 1) x").expect("source should build");
    match &program {
        Expression::Apply(items) => {
            assert_eq!(items[0].to_lisp(), "do");
            assert_eq!(items.len(), 3);
        }
        _ => panic!("a built program is an application"),
    }
    let empty = build("").expect("an empty program builds");
    assert_eq!(empty.to_lisp(), "(do nil)");
    let library = build_library("(let a 1) (do (let b 2))").expect("library should build");
    assert_eq!(library.to_lisp(), "(do (let a 1) (let b 2))");
}

#[test]
fn every_diagnostic_is_one_of_three_kinds() {
    let source = "(let xs []) (let i 4) (get xs i) (/ 1 0) (+ 2147483647 1) (mut j 0) (while true (alter! j j))";
    let found = messages_of(source, 7);
    assert!(!found.is_empty());
    for message in &found {
        assert!(
            message.starts_with("static bounds: ")
                || message.starts_with("static arithmetic: ")
                || message.starts_with("termination: "),
            "{message}"
        );
    }
    let first = analyze_user_program(&build(source).unwrap(), 7).expect_err("problems are reported");
    assert_eq!(&first, &found[0]);
}

#[test]
fn first_diagnostic_is_the_error() {
    assert_eq!(first_diagnostic(Vec::new()), Ok(()));
    assert_eq!(
        first_diagnostic(vec!["one".to_string(), "two".to_string()]),
        Err("one".to_string())
    );
}

#[test]
fn safe_programs_report_nothing() {
    assert!(messages_of("(let xs [1 2 3]) (get xs 2)", 2).is_empty());
    assert_eq!(analyze_user_program(&build("(* 46340 46340)").unwrap(), 1), Ok(()));
    assert!(analyze_user_program(&build("(* 46341 46341)").unwrap(), 1).is_err());
}

#[test]
fn library_forms_contribute_facts_but_no_messages() {
    let source = "(let xs []) (get xs 0) (let ys [1]) (get ys 0)";
    assert!(messages_of(source, 2).is_empty());
    assert_eq!(messages_of(source, 4).len(), 1);
}

#[test]
fn termination_findings_carry_a_measure_exactly_when_proven() {
    let counting = build("(mut i 0) (while (< i 10) (alter! i (+ i 1)))").unwrap();
    let findings = explain_termination(&counting, 2);
    assert_eq!(findings.len(), 1);
    assert_eq!(findings[0].status, "proven");
    assert_eq!(findings[0].measure.as_deref(), Some("i"));
    assert_eq!(findings[0].reason, "i increases toward the exit bound");
    assert_eq!(findings[0].subject, "while (< i 10)");

    let forever = build("(mut i 0) (while true (alter! i i))").unwrap();
    let findings = explain_termination(&forever, 2);
    assert_eq!(findings[0].status, "warning");
    assert_eq!(findings[0].measure, None);
    assert!(findings[0].reason.starts_with("loop has no program-controlled exit"));

    for finding in &findings {
        assert_eq!(finding.status == "proven", finding.measure.is_some());
    }
}

#[test]
fn shrinking_vector_loops_are_proven_by_length() {
    let program = build("(let xs [1 2 3]) (while (> (length xs) 0) (pop! xs))").unwrap();
    let findings = explain_termination(&program, 2);
    assert_eq!(findings[0].status, "proven");
    assert_eq!(findings[0].measure.as_deref(), Some("length(xs)"));
    assert_eq!(findings[0].reason, "length(xs) moves toward the exit bound");
}

#[test]
fn project_config_handles_comments_and_multiline_deps() {
    let cfg = parse_project_config(
        "# project\nentry = \"app.que\" # main module\ndeps = [\n  \"./a.que\",\n  \"./b.que\"\n]\n[env]\nA = \"x\\\"y\"\nA = \"z\"",
        "que.toml",
    )
    .expect("config should parse");
    assert_eq!(cfg.entry.as_deref(), Some("app.que"));
    assert_eq!(cfg.deps, vec!["./a.que".to_string(), "./b.que".to_string()]);
    assert_eq!(cfg.env.get("A").map(String::as_str), Some("z"));
    assert_eq!(cfg.env.len(), 1);
    assert_eq!(cfg.env.get("B"), None);
}

#[test]
fn project_config_errors_name_the_file() {
    let cases = [
        ("[tools]", "unknown section 'tools' on line 1"),
        ("entry", "line 1 must be `key = value`"),
        ("name = \"x\"", "unknown key 'name' on line 1"),
        ("entry = main.que", "entry on line 1 must be a quoted string"),
        ("entry = \"a\\qb\"", "unsupported escape '\\q' in entry on line 1"),
        ("entry = \"a\\\"", "invalid escape in entry on line 1"),
        ("deps = [\"a\"", "unterminated deps array"),
        ("deps = [1]", "deps on line 1 must contain only quoted strings"),
        ("deps = [\"a\" \"b\"]", "deps on line 1 must separate values with commas"),
        ("entry = \"a\"\nentry = 5", "entry on line 2 must be a quoted string"),
    ];
    for (source, detail) in cases {
        let error = parse_project_config(source, "cfg.toml").expect_err(source);
        assert_eq!(error, format!("failed to parse project config 'cfg.toml': {detail}"), "{source}");
    }
}

#[test]
fn env_settings_read_back_what_was_written() {
    let mut env = EnvMap::new();
    env.insert("B".to_string(), "2".to_string());
    env.insert("A".to_string(), "1".to_string());
    env.insert("B".to_string(), "3".to_string());
    assert_eq!(env.get("A").map(String::as_str), Some("1"));
    assert_eq!(env.get("B").map(String::as_str), Some("3"));
    assert_eq!(env.get("C"), None);
    assert_eq!(env.len(), 2);
    let copy = env.clone();
    assert_eq!(copy, env);
}

#[test]
fn bundles_hold_only_definitions() {
    let defs = que::desugar::parse("(let a 1) (letrec f (lambda x x)) (mut m 0)").unwrap();
    assert_eq!(check_bundle_definitions(&defs, "b.que"), Ok(()));
    let stray = que::desugar::parse("(let a 1) (print a)").unwrap();
    assert_eq!(
        check_bundle_definitions(&stray, "b.que"),
        Err("bundle 'b.que' must contain only top-level definitions; found 'print' at form 1".to_string())
    );
    let bare = que::desugar::parse("42").unwrap();
    assert_eq!(
        check_bundle_definitions(&bare, "b.que"),
        Err("bundle 'b.que' must contain only top-level definitions; found non-definition at form 0: 42".to_string())
    );
    let empty = que::desugar::parse("()").unwrap();
    assert_eq!(
        check_bundle_definitions(&empty, "b.que"),
        Err("bundle 'b.que' must contain only top-level definitions; malformed form 0: ()".to_string())
    );
}

#[test]
fn merging_keeps_only_used_library_definitions() {
    let std_forms = que::desugar::parse("(let inc (lambda x (+ x 1))) (let unused 5) (let twice (lambda x (inc (inc x))))")
        .unwrap();
    let merged = merge_std_and_program("(twice 1)", std_forms).expect("program should merge");
    let rendered = merged.to_lisp();
    assert!(rendered.contains("(let inc"), "{rendered}");
    assert!(rendered.contains("(let twice"), "{rendered}");
    assert!(!rendered.contains("unused"), "{rendered}");
    assert!(rendered.find("(let inc").unwrap() < rendered.find("(let twice").unwrap());
    assert!(rendered.ends_with("(twice 1))"), "{rendered}");
}

#[test]
fn reserved_names_cannot_be_bound() {
    assert!(is_reserved_word(&chars("map")));
    assert!(is_reserved_word(&chars("&alter!")));
    assert!(!is_reserved_word(&chars("mapping")));
    let error = merge_std_and_program("(let map 1)", Vec::new()).expect_err("map is reserved");
    assert_eq!(error, "Variable 'map' is forbidden");
    let lambda_error =
        merge_std_and_program("(let f (lambda filter 1))", Vec::new()).expect_err("filter is reserved");
    assert_eq!(lambda_error, "Variable 'filter' is forbidden");
}

#[test]
fn module_result_types_are_read_and_split() {
    assert_eq!(extract_type_from_wat(";; Type: [Int]\n(module)"), Some("[Int]".to_string()));
    assert_eq!(extract_type_from_wat("(module)\n;; Type: Int"), None);
    assert_eq!(split_tuple_types("Int * [Char] * {Int * Bool}"), vec!["Int", "[Char]", "{Int * Bool}"]);
    assert_eq!(strip_outer_type(" [ [Int] ] ", '[', ']'), Some("[Int]".to_string()));
    assert_eq!(strip_outer_type("[Int] * [Int]", '[', ']'), None);
    assert_eq!(strip_outer_type("Int", '[', ']'), None);
}

#[test]
fn optimization_settings_and_trap_codes_are_decoded() {
    assert_eq!(parse_wasm_opt_level(" Speed "), Ok(WasmOptLevel::Speed));
    assert_eq!(parse_wasm_opt_level("none"), Ok(WasmOptLevel::Unoptimized));
    assert_eq!(parse_wasm_opt_level("SIZE"), Ok(WasmOptLevel::SpeedAndSize));
    assert_eq!(
        parse_wasm_opt_level("Fast"),
        Err("invalid QUE_WASM_OPT='fast'. expected one of: none, speed, speed_and_size".to_string())
    );
    assert_eq!(guard_trap_message(0), None);
    assert_eq!(
        guard_trap_message(1).as_deref(),
        Some("debug.guard_trap: integer divide/modulo by zero (QUE_DIV_ZERO_CHECK)")
    );
    assert_eq!(guard_trap_message(99).as_deref(), Some("debug.guard_trap: unknown guard trap"));
}

#[test]
fn text_format_modules_assemble_to_binary() {
    assert_eq!(wasm_of_wat("(module)"), Ok(b"\0asm\x01\0\0\0".to_vec()));
    assert!(wasm_of_wat("module").is_err());
}

#[test]
fn delimiter_reports_start_with_the_kind_of_problem() {
    let report = |src: &str| delimiter_debug_report(&chars(src), DelimiterMode::SourceDelimiters).map(|r| text(&r));
    assert_eq!(report("(a (b))"), None);
    let closer = report("(a]").expect("a stray closer is reported");
    assert!(closer.starts_with("parse.delimiter_error: unexpected_closer\nparse.found: ']' at 1:3"));
    let opener = report("(a (b)").expect("an open paren is reported");
    assert!(opener.starts_with("parse.delimiter_error: unclosed_opener\nparse.unclosed: '(' opened at 1:1"));
    let string = report("(a \"b)").expect("an open string is reported");
    assert!(string.starts_with("parse.delimiter_error: unclosed_string_literal"));
    assert_eq!(report("; (\n(a)"), None);
}
