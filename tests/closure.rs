use rustc_hash::FxHashSet;
use semithue::closure::run_closure;
use semithue::grammar::{is_only_terms, Grammar};
use semithue::matcher::{apply_rule, Rule, RuleError};

fn strings(v: &[&str]) -> Vec<String> {
    v.iter().map(|s| s.to_string()).collect()
}

fn rule(from: &str, to: &str) -> Rule {
    match Rule::new(from.to_string(), to.to_string()) {
        Ok(r) => r,
        Err(e) => panic!("rule {from} -> {to} refused: {e:?}"),
    }
}

fn grammar(terms: &[&str], start: &str, rules: &[(&str, &str)]) -> Grammar {
    Grammar {
        var_symbols: strings(&["S"]),
        term_symbols: strings(terms),
        start_symbol: start.to_string(),
        rules: rules.iter().map(|(f, t)| rule(f, t)).collect(),
    }
}

fn set_of(v: &[&str]) -> FxHashSet<String> {
    v.iter().map(|s| s.to_string()).collect()
}

#[test]
fn balanced_grammar_two_generations() {
    let g = grammar(&["a", "b"], "S", &[("S", "aSb"), ("S", "")]);
    let (iters, results) = run_closure(&g, Some(2));
    assert_eq!(iters, 2);
    assert_eq!(results, set_of(&["", "ab"]));
}

#[test]
fn balanced_grammar_three_generations() {
    let g = grammar(&["a", "b"], "S", &[("S", "aSb"), ("S", "")]);
    let (iters, results) = run_closure(&g, Some(3));
    assert_eq!(iters, 3);
    assert_eq!(results, set_of(&["", "ab", "aabb"]));
}

#[test]
fn terminal_start_word_runs_no_generation() {
    let g = grammar(&["a", "b"], "ab", &[("X", "Y")]);
    let (iters, results) = run_closure(&g, Some(5));
    assert_eq!(iters, 0);
    assert_eq!(results, set_of(&["ab"]));
}

#[test]
fn terminal_start_word_is_not_rewritten() {
    let g = grammar(&["a", "b"], "ab", &[("a", "b")]);
    let (iters, results) = run_closure(&g, None);
    assert_eq!(iters, 0);
    assert_eq!(results, set_of(&["ab"]));
}

#[test]
fn zero_cap_runs_nothing() {
    let g = grammar(&["a"], "S", &[("S", "a")]);
    let (iters, results) = run_closure(&g, Some(0));
    assert_eq!(iters, 0);
    assert!(results.is_empty());
}

#[test]
fn cap_bounds_an_infinite_grammar() {
    let g = grammar(&["a"], "S", &[("S", "aS")]);
    let (iters, results) = run_closure(&g, Some(3));
    assert_eq!(iters, 3);
    assert!(results.is_empty());
}

#[test]
fn no_cap_runs_to_fixpoint() {
    let g = grammar(&["a", "b"], "SS", &[("S", "a"), ("S", "b")]);
    let (iters, results) = run_closure(&g, None);
    assert_eq!(iters, 2);
    assert_eq!(results, set_of(&["aa", "ab", "ba", "bb"]));
}

#[test]
fn more_generations_after_fixpoint_change_nothing() {
    let g = grammar(&["a", "b"], "SS", &[("S", "a"), ("S", "b")]);
    let small = run_closure(&g, Some(2));
    let large = run_closure(&g, Some(50));
    assert_eq!(small, large);
}

#[test]
fn rule_order_does_not_change_results() {
    let g1 = grammar(&["a", "b"], "S", &[("S", "aSb"), ("S", "ab"), ("S", "")]);
    let g2 = grammar(&["a", "b"], "S", &[("S", ""), ("S", "ab"), ("S", "aSb")]);
    assert_eq!(run_closure(&g1, Some(4)), run_closure(&g2, Some(4)));
}

#[test]
fn every_result_is_terminal() {
    let g = grammar(&["a", "b"], "S", &[("S", "aSb"), ("S", "T"), ("T", "b"), ("S", "")]);
    let (_, results) = run_closure(&g, Some(4));
    assert!(!results.is_empty());
    for w in &results {
        assert!(is_only_terms(w, &g), "{w} is not terminal-only");
    }
}

#[test]
fn empty_word_is_terminal() {
    let g = grammar(&["a"], "S", &[]);
    assert!(is_only_terms("", &g));
}

#[test]
fn classifier_checks_each_character() {
    let g = grammar(&["a", "b"], "S", &[]);
    assert!(is_only_terms("abba", &g));
    assert!(!is_only_terms("abSa", &g));
    assert!(!is_only_terms("c", &g));
}

#[test]
fn classifier_ignores_multi_character_symbols() {
    let g = grammar(&["ab"], "S", &[]);
    assert!(!is_only_terms("ab", &g));
}

#[test]
fn classifier_on_multibyte_symbols() {
    let g = grammar(&["é", "ü"], "S", &[]);
    assert!(is_only_terms("éüé", &g));
    assert!(!is_only_terms("éue", &g));
}

#[test]
fn one_derived_word_per_occurrence() {
    let r = rule("S", "x");
    let mut out = Vec::new();
    apply_rule(&mut out, &r, "aSbS");
    assert_eq!(out, strings(&["axbS", "aSbx"]));
}

#[test]
fn occurrences_do_not_overlap() {
    let r = rule("aa", "b");
    let mut out = Vec::new();
    apply_rule(&mut out, &r, "aaa");
    assert_eq!(out, strings(&["ba"]));
    let mut out4 = Vec::new();
    apply_rule(&mut out4, &r, "aaaa");
    assert_eq!(out4, strings(&["baa", "aab"]));
}

#[test]
fn apply_rule_appends_to_existing_words() {
    let r = rule("S", "");
    let mut out = strings(&["kept"]);
    apply_rule(&mut out, &r, "SaS");
    assert_eq!(out, strings(&["kept", "aS", "Sa"]));
}

#[test]
fn apply_rule_without_match_adds_nothing() {
    let r = rule("X", "y");
    let mut out = Vec::new();
    apply_rule(&mut out, &r, "abc");
    assert!(out.is_empty());
}

#[test]
fn apply_rule_on_multibyte_text() {
    let r = rule("ßS", "üx");
    let mut out = Vec::new();
    apply_rule(&mut out, &r, "éßSéßS");
    assert_eq!(out, strings(&["éüxéßS", "éßSéüx"]));
}

#[test]
fn apply_rule_does_not_match_inside_a_character() {
    // 'ā' and 'ł' share no character with the pattern, though their
    // encodings share bytes with it.
    let r = rule("Ą", "z");
    let mut out = Vec::new();
    apply_rule(&mut out, &r, "āłĄ");
    assert_eq!(out, strings(&["āłz"]));
}

#[test]
fn empty_pattern_is_refused() {
    assert!(matches!(Rule::new(String::new(), "x".to_string()), Err(RuleError::EmptyPattern)));
}

#[test]
fn rule_keeps_its_pattern_and_replacement() {
    let r = rule("S", "aSb");
    assert_eq!(r.from(), "S");
    assert_eq!(r.to(), "aSb");
}

#[test]
fn overlong_pattern_is_refused() {
    let from = "a".repeat(semithue::matcher::MAX_PATTERN_LEN + 1);
    assert!(matches!(Rule::new(from, "x".to_string()), Err(RuleError::PatternTooLong)));
}

#[test]
fn long_pattern_is_compiled_and_matched() {
    let from = "ab".repeat(500);
    let r = rule(&from, "z");
    let mut out = Vec::new();
    apply_rule(&mut out, &r, &format!("x{from}y"));
    assert_eq!(out, strings(&["xzy"]));
}
