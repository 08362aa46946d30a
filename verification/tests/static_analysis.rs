use que::analysis::{analyze_user_program, analyze_user_program_diagnostics};
use que::desugar::build;

fn analyze(source: &str, user_form_count: usize) -> Result<(), String> {
    let expression = build(source)?;
    analyze_user_program(&expression, user_form_count)
}

fn messages(source: &str, user_form_count: usize) -> Vec<String> {
    let expression = build(source).expect("source should build");
    analyze_user_program_diagnostics(&expression, user_form_count)
}

#[test]
fn termination_warns_for_constant_true_and_invariant_guard_loops() {
    let constant = messages("(mut i 0) (while true (alter! i i))", 2);
    assert!(constant
        .iter()
        .any(|message| message.contains("no program-controlled exit")));

    let invariant = messages("(mut i 0) (mut j 0) (while (< i 10) (alter! j (+ j 1)))", 3);
    assert!(invariant
        .iter()
        .any(|message| message.contains("condition cannot change")));
}

#[test]
fn termination_warns_when_counter_moves_away_but_not_toward_bound() {
    let away = messages("(mut i 0) (while (< i 10) (alter! i (- i 1)))", 2);
    assert!(away
        .iter()
        .any(|message| message.contains("does not move toward")));

    let toward = messages("(mut i 0) (while (< i 10) (alter! i (+ i 1)))", 2);
    assert!(!toward
        .iter()
        .any(|message| message.starts_with("termination:")));
}

#[test]
fn termination_uses_symbolic_step_sign_facts() {
    let positive = messages(
        "(let step 2) (mut i 0) (while (< i 10) (alter! i (+ i step)))",
        3,
    );
    assert!(!positive
        .iter()
        .any(|message| message.starts_with("termination:")));

    let guarded_parameter = messages(
        "(let count (lambda (step) (mut i 0) (while (and (> step 0) (< i 10)) (alter! i (+ i step))) i))",
        1,
    );
    assert!(!guarded_parameter
        .iter()
        .any(|message| message.starts_with("termination:")));

    let negative = messages(
        "(let step -2) (mut i 0) (while (< i 10) (alter! i (+ i step)))",
        3,
    );
    assert!(negative
        .iter()
        .any(|message| message.contains("does not move toward")));

    let recursive = messages(
        "(let step 2) (letrec down (lambda (n) (if (<= n 0) 0 (down (- n step)))))",
        2,
    );
    assert!(!recursive
        .iter()
        .any(|message| message.starts_with("termination:")));
}

#[test]
fn termination_tracks_vectors_consumed_by_loops() {
    let shrinking = messages("(let xs [1 2 3]) (while (> (length xs) 0) (pop! xs))", 2);
    assert!(!shrinking
        .iter()
        .any(|message| message.starts_with("termination:")));

    let unchanged = messages(
        "(let xs [1 2 3]) (mut n 0) (while (> (length xs) 0) (alter! n (+ n 1)))",
        3,
    );
    assert!(unchanged
        .iter()
        .any(|message| message.contains("length of 'xs' does not move")));

    let growing = messages("(let xs [1]) (while (> (length xs) 0) (push! xs 1))", 2);
    assert!(growing
        .iter()
        .any(|message| message.contains("length of 'xs' does not move")));
}

#[test]
fn termination_infers_structural_effects_from_helpers_and_aliases() {
    let shrinking_helper = messages(
        "(let remove-last (lambda xs (pop! xs))) (let shrink remove-last) (let xs [1 2 3]) (while (> (length xs) 0) (shrink xs))",
        4,
    );
    assert!(!shrinking_helper
        .iter()
        .any(|message| message.starts_with("termination:")));

    let growing_helper = messages(
        "(let add-one (lambda xs (push! xs 1))) (let xs [1]) (while (> (length xs) 0) (add-one xs))",
        3,
    );
    assert!(growing_helper
        .iter()
        .any(|message| message.contains("length of 'xs' does not move")));

    let nested_helper = messages(
        "(let clear (lambda xs (while (> (length xs) 0) (pop! xs)))) (let xs [1 2]) (while (> (length xs) 0) (clear xs))",
        3,
    );
    assert!(!nested_helper
        .iter()
        .any(|message| message.starts_with("termination:")));

    let predicate_wrapped_helper = messages(
        "(let zero-sized (lambda ys (= (length ys) 0))) (let clear-all (lambda zs (if (zero-sized zs) zs (do (while (> (length zs) 0) (pop! zs)) zs)))) (let clear clear-all) (let xs [1 2]) (while (> (length xs) 0) (clear xs))",
        5,
    );
    assert!(!predicate_wrapped_helper
        .iter()
        .any(|message| message.starts_with("termination:")));
}

#[test]
fn nested_matrix_access_requires_both_path_proofs() {
    let guarded = "(let xs [[1] [2]]) (let x 0) (let y 0) (if (and (>= x 0) (< x (length xs)) (>= y 0) (< y (length (get xs x)))) (get xs x y) -1)";
    assert!(analyze(guarded, 4).is_ok());

    let unguarded = "(let xs [[1] [2]]) (let x 10) (let y 10) (get xs x y)";
    assert!(analyze(unguarded, 4)
        .expect_err("unproven access should fail")
        .contains("index not proven safe"));
}

#[test]
fn cached_length_proves_loop_access_after_macro_expansion() {
    let source = "(let xs [1 2 3 4]) (let len (length xs)) (mut i 0) (while (< i len) (do (let x (get xs i)) (alter! i (+ i 1))))";
    assert_eq!(analyze(source, 4), Ok(()));
}

#[test]
fn cached_nested_lengths_prove_matrix_accesses() {
    let source = "(let rows [[1] [2]]) (let height (length rows)) (mut y 0) (while (< y height) (do (let row (get rows y)) (let width (length row)) (mut x 0) (while (< x width) (do (let item (get row x)) (alter! x (+ x 1)))) (alter! y (+ y 1))))";
    assert_eq!(analyze(source, 4), Ok(()));
}

#[test]
fn branch_refinement_does_not_escape_the_branch() {
    let source = "(let xs [1 2]) (let i 1) (if (and (>= i 0) (< i (length xs))) (get xs i) 0) (get xs i)";
    assert!(analyze(source, 4)
        .expect_err("a path-local proof must not escape its branch")
        .contains("index not proven safe"));
}

#[test]
fn assignment_kills_old_index_refinement() {
    let source = "(let xs [1 2]) (mut i 1) (if (and (>= i 0) (< i (length xs))) (do (alter! i -1) (get xs i)) 0)";
    assert!(analyze(source, 3)
        .expect_err("assigning the index must kill its prior proof")
        .contains("index not proven safe"));
}

#[test]
fn resize_kills_a_cached_length_relation() {
    let source = "(let xs [1 2]) (let len (length xs)) (pop! xs) (mut i 0) (while (< i len) (do (let x (get xs i)) (alter! i (+ i 1))))";
    assert!(analyze(source, 5)
        .expect_err("resizing a vector must invalidate its cached length")
        .contains("index not proven safe"));
}

#[test]
fn vector_aliases_share_a_symbolic_bounds_identity() {
    let source = "(let xs [1 2]) (let ys xs) (let i 1) (if (and (>= i 0) (< i (length ys))) (get xs i) 0)";
    assert_eq!(analyze(source, 4), Ok(()));
}

#[test]
fn resizing_through_an_alias_kills_original_vector_proofs() {
    let source = "(let xs [1 2]) (let ys xs) (let len (length xs)) (pop! ys) (mut i 0) (while (< i len) (do (let x (get xs i)) (alter! i (+ i 1))))";
    assert!(analyze(source, 6)
        .expect_err("an alias resize must invalidate the shared vector identity")
        .contains("index not proven safe"));
}

#[test]
fn push_preserves_old_bounds_and_extends_known_length() {
    let source = "(let xs [1 2 3]) (push! xs 10) {(get xs 2) (get xs 3)}";
    assert_eq!(analyze(source, 2), Ok(()));
}

#[test]
fn set_replacement_preserves_length_and_known_bounds() {
    let source = "(let xs [1 2 3]) (set! xs 1 10) (get xs 2)";
    assert_eq!(analyze(source, 3), Ok(()));
}

#[test]
fn set_append_extends_known_length() {
    let source = "(let xs [1 2 3]) (set! xs (length xs) 10) (get xs 3)";
    assert_eq!(analyze(source, 3), Ok(()));
}

#[test]
fn set_replacement_invalidates_nested_element_facts() {
    let source = "(let rows [[1]]) (let x 0) (let y 0) (if (and (in-bounds? rows x) (in-bounds? (get rows x) y)) (block (set! rows x []) (get rows x y)) -1)";
    let source =
        format!("(let in-bounds? (lambda xs i (and (>= i 0) (< i (length xs))))) {source}");
    assert!(analyze(&source, 5)
        .expect_err("replacing a row must invalidate facts about its old contents")
        .contains("index not proven safe"));
}

#[test]
fn diagnostic_mode_collects_all_unproven_accesses() {
    let source = "(let xs [1]) (let ys [2]) (let i 0) (let j 0) (get xs i) (get ys j)";
    let expression = build(source).expect("source should parse");
    let diagnostics = analyze_user_program_diagnostics(&expression, 6);
    assert_eq!(diagnostics.len(), 2, "{diagnostics:?}");
}

#[test]
fn positive_dynamic_length_proves_literal_zero_access() {
    let source = "(let xs []) (if (> (length xs) 0) (get xs 0) -1)";
    assert_eq!(analyze(source, 2), Ok(()));

    let equivalent = "(let xs []) (if (< 0 (length xs)) (get xs 0) -1)";
    assert_eq!(analyze(equivalent, 2), Ok(()));

    let stronger = "(let xs []) (if (> (length xs) 1) (get xs 0) -1)";
    assert_eq!(analyze(stronger, 2), Ok(()));

    let constant_alias = "(let xs []) (let index 0) (if (> (length xs) index) (get xs 0) -1)";
    assert_eq!(analyze(constant_alias, 3), Ok(()));
}

#[test]
fn false_out_of_bounds_comparisons_refine_else_branch() {
    let source = "(let xs [1 2]) (let index 1) (if (or false (< index 0) (>= index (length xs))) -1 (get xs index))";
    assert_eq!(analyze(source, 3), Ok(()));
}

#[test]
fn predicate_body_substitution_preserves_false_comparison_implication() {
    let source = "(let gte? (lambda a b (>= b a))) (let xs [1 2]) (let index 1) (if (gte? (length xs) index) -1 (get xs index))";
    assert_eq!(analyze(source, 4), Ok(()));
}

#[test]
fn set_requires_a_proven_replacement_or_append_index() {
    let unguarded = "(let xs [1 2]) (let i 10) (set! xs i 3)";
    assert!(analyze(unguarded, 3)
        .expect_err("unproven set! should fail")
        .contains("set! index not proven safe"));

    let guarded =
        "(let xs [1 2]) (let i 1) (if (and (>= i 0) (< i (length xs))) (set! xs i 3) nil)";
    assert_eq!(analyze(guarded, 3), Ok(()));
}

#[test]
fn set_accepts_ques_append_at_length_semantics() {
    assert_eq!(analyze("(let xs []) (set! xs (length xs) 1)", 2), Ok(()));
    assert_eq!(
        analyze("(let xs [1]) (let end (length xs)) (set! xs end 2)", 3),
        Ok(())
    );
    assert_eq!(analyze("(let xs [1]) (set! xs 1 2)", 2), Ok(()));
}

#[test]
fn set_rejects_negative_and_past_end_literal_indices() {
    assert!(analyze("(let xs [1]) (set! xs -1 2)", 2).is_err());
    assert!(analyze("(let xs [1]) (set! xs 2 2)", 2).is_err());
}

#[test]
fn car_and_pop_val_require_a_proven_nonempty_vector() {
    assert!(analyze("(let xs []) (car xs)", 2)
        .expect_err("car of a known empty vector should fail")
        .contains("may be empty"));
    assert!(analyze("(let xs []) (pop-val! xs)", 2)
        .expect_err("pop-val! of a known empty vector should fail")
        .contains("may be empty"));

    assert_eq!(analyze("(let xs [1]) (car xs)", 2), Ok(()));
    assert_eq!(analyze("(let xs [1]) (pop-val! xs)", 2), Ok(()));
}

#[test]
fn zero_argument_lambda_body_is_statically_analyzed() {
    let source = "(let history []) (let alt []) (let undo! (lambda () (push! alt (pop-val! history)))) (let redo! (lambda () (push! history (pop-val! alt))))";
    let expression = build(source).expect("source should parse");
    let diagnostics = analyze_user_program_diagnostics(&expression, 4);
    assert!(diagnostics
        .iter()
        .any(|message| message.contains("(pop-val! history)")));
    assert!(diagnostics
        .iter()
        .any(|message| message.contains("(pop-val! alt)")));
}

#[test]
fn nonempty_branch_proves_car_and_pop_val_safety() {
    let car = "(let xs []) (if (> (length xs) 0) (car xs) 0)";
    assert_eq!(analyze(car, 2), Ok(()));

    let pop = "(let xs []) (if (> (length xs) 0) (pop-val! xs) 0)";
    assert_eq!(analyze(pop, 2), Ok(()));
}

#[test]
fn false_zero_length_branch_proves_nonempty_vector() {
    let direct = "(let xs []) (if (= (length xs) 0) 0 (car xs))";
    assert_eq!(analyze(direct, 2), Ok(()));

    let reversed = "(let xs []) (if (= 0 (length xs)) 0 (pop-val! xs))";
    assert_eq!(analyze(reversed, 2), Ok(()));

    let negated = "(let xs []) (if (not (= (length xs) 0)) (car xs) 0)";
    assert_eq!(analyze(negated, 2), Ok(()));
}

#[test]
fn recursive_car_after_empty_base_case_is_proven_safe() {
    let source = "(letrec rev (lambda (xs ys) (if (= (length xs) 0) ys (rev (cdr xs) (cons [(car xs)] ys))))) (rev [1 2 3] [])";
    assert_eq!(analyze(source, 2), Ok(()));
}

#[test]
fn empty_pop_remains_a_safe_noop() {
    assert_eq!(analyze("(let xs []) (pop! xs)", 2), Ok(()));
}

#[test]
fn division_and_modulo_require_a_nonzero_divisor_proof() {
    assert!(analyze("(let x 10) (let divisor 0) (/ x divisor)", 3)
        .expect_err("zero divisor should fail")
        .contains("divisor may be zero"));
    assert!(analyze("(let divide (lambda x divisor (/ x divisor)))", 1)
        .expect_err("unknown divisor should require a guard")
        .contains("divisor may be zero"));
    assert!(analyze("(% 10 0)", 1).is_err());
    assert_eq!(analyze("(/ 10 2)", 1), Ok(()));
}

#[test]
fn branch_facts_prove_division_is_nonzero() {
    let guarded = "(let divide (lambda x divisor (if (= divisor 0) 0 (/ x divisor))))";
    assert_eq!(analyze(guarded, 1), Ok(()));

    let positive = "(let divide (lambda x divisor (if (> divisor 0) (/ x divisor) 0)))";
    assert_eq!(analyze(positive, 1), Ok(()));

    let predicate = "(let nonzero? (lambda x (not (= x 0)))) (let divide (lambda x divisor (if (nonzero? divisor) (/ x divisor) 0)))";
    assert_eq!(analyze(predicate, 2), Ok(()));
}

#[test]
fn known_integer_ranges_report_possible_overflow() {
    assert!(analyze("(+ 2147483647 1)", 1)
        .expect_err("literal addition overflow should fail")
        .contains("overflow"));
    assert!(analyze("(* 50000 50000)", 1)
        .expect_err("literal multiplication overflow should fail")
        .contains("overflow"));
    assert_eq!(analyze("(+ 20 22)", 1), Ok(()));
}

#[test]
fn branch_ranges_can_prove_or_expose_overflow() {
    let safe = "(let add-one (lambda x (if (< x 2147483647) (+ x 1) x)))";
    assert_eq!(analyze(safe, 1), Ok(()));

    let unsafe_range = "(let add-one (lambda x (if (>= x 2147483647) (+ x 1) x)))";
    assert!(analyze(unsafe_range, 1)
        .expect_err("upper-edge range should expose overflow")
        .contains("overflow"));
}

#[test]
fn library_constant_alias_refines_user_overflow_guard() {
    let source = "(let const/int/max-safe 2147483647) (let increment (lambda index (if (>= index const/int/max-safe) index (+ index 1))))";
    // Only `increment` is a user form; the constant models a bundled
    // standard-library definition.
    assert_eq!(analyze(source, 1), Ok(()));
}

#[test]
fn unknown_integer_ranges_report_both_bounds_and_arithmetic_risks() {
    let source = "(let inspect (lambda xs left right (block (let index (/ (+ left right) 2)) (let current (get xs index)) {(+ index 1) (- index 1)})))";
    let expression = build(source).expect("source should parse");
    let diagnostics = analyze_user_program_diagnostics(&expression, 1);
    assert!(diagnostics
        .iter()
        .any(|message| message.contains("index not proven safe")));
    assert!(diagnostics
        .iter()
        .any(|message| message.contains("(+ left right)")
            && message.contains("overflow/underflow")));
    assert!(
        diagnostics
            .iter()
            .any(|message| message.contains("Int overflow possible")),
        "{diagnostics:?}"
    );
    assert!(diagnostics
        .iter()
        .any(|message| message.contains("Int underflow possible")));
}

#[test]
fn relational_ranges_prove_safe_binary_search_midpoint() {
    let source = "(let midpoint (lambda left right (if (or (> left right) (< left 0)) 0 (+ left (/ (- right left) 2)))))";
    assert_eq!(analyze(source, 1), Ok(()));

    let missing_lower_bound =
        "(let midpoint (lambda left right (if (> left right) 0 (+ left (/ (- right left) 2)))))";
    assert!(analyze(missing_lower_bound, 1)
        .expect_err("signed endpoints still need a nonnegative invariant")
        .contains("underflow"));
}

#[test]
fn relational_ranges_cover_recursive_binary_search_shape() {
    let source = r#"
        (let in-bounds? (lambda xs i (and (>= i 0) (< i (length xs)))))
        (let max-safe 2147483647)
        (let search? (lambda (target xs)
          (letrec bs (lambda (left right)
            (if (or (> left right) (< left 0)) false
              (block
                (let index (+ left (/ (- right left) 2)))
                (if (not (in-bounds? xs index)) false
                  (block
                    (let current (get xs index))
                    (if (= target current) true
                      (if (>= index max-safe) false
                        (if (> target current)
                          (bs (+ index 1) right)
                          (bs left (- index 1)))))))))))
          (bs 0 (- (length xs) 1))))
    "#;
    assert_eq!(analyze(source, 3), Ok(()));
}


#[test]
fn first_form_accesses_and_divisors_without_facts_are_reported() {
    let access = messages("(get xs i)", 1);
    assert!(access
        .iter()
        .any(|message| message == "static bounds: index not proven safe: `(get xs i)`\nhelp: guard it with `(and (>= index 0) (< index (length xs)))`"));
    let divisor = messages("(/ 10 d)", 1);
    assert!(divisor
        .iter()
        .any(|message| message == "static arithmetic: divisor may be zero: `(/ 10 d)`\nhelp: guard it with `(not (= divisor 0))`"));
    assert!(analyze("(car xs)", 1).is_err());
}

#[test]
fn a_guard_on_a_known_nonnegative_index_proves_the_access() {
    assert_eq!(analyze("(let i 0) (let f (lambda xs (if (< i (length xs)) (get xs i) 0)))", 2), Ok(()));
    assert!(analyze("(let i 0) (let f (lambda xs (get xs i)))", 2).is_err());
    assert_eq!(
        analyze("(let f (lambda xs i (if (and (>= i 0) (< i (length xs))) (get xs i) 0)))", 1),
        Ok(())
    );
    assert!(analyze("(let f (lambda xs i (if (< i (length xs)) (get xs i) 0)))", 1).is_err());
}
