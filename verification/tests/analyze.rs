use rxray::{analyze, AmbiguityKind, AnalyzeError, ComplexityClass, Engine};
use rxray::nfa::build;
use rxray::synth::{backtrack_steps, synthesize, STEP_CAP};
use rxray::{attack, parse_ascii};

#[test]
fn nested_quantifier_is_exponential() {
    let report = analyze("(a+)+", Engine::Pcre2).unwrap();
    assert_eq!(report.worst, ComplexityClass::Exponential);
}

#[test]
fn adjacent_overlapping_stars_are_polynomial() {
    let report = analyze("a*a*", Engine::Pcre2).unwrap();
    assert_eq!(report.worst, ComplexityClass::Polynomial(2));
}

#[test]
fn linear_engine_never_reports_redos() {
    // Rust regex / Go RE2 are linear by construction: even `(a+)+` is safe.
    let report = analyze("(a+)+", Engine::RustRegex).unwrap();
    assert_eq!(report.worst, ComplexityClass::Linear);
    assert!(report.findings.is_empty());
}

#[test]
fn eda_pattern_reports_an_eda_finding() {
    let report = analyze("(a+)+", Engine::Pcre2).unwrap();
    assert_eq!(report.findings.len(), 1);
    assert_eq!(report.findings[0].kind, AmbiguityKind::Eda);
    assert_eq!(report.findings[0].class, ComplexityClass::Exponential);
}

#[test]
fn ida_pattern_reports_an_ida_finding() {
    let report = analyze("a*a*", Engine::Pcre2).unwrap();
    assert_eq!(report.findings.len(), 1);
    assert_eq!(report.findings[0].kind, AmbiguityKind::Ida);
}

#[test]
fn plain_literal_is_linear() {
    let report = analyze("abc", Engine::Pcre2).unwrap();
    assert_eq!(report.worst, ComplexityClass::Linear);
    assert!(report.findings.is_empty());
}

#[test]
fn single_quantifier_is_linear() {
    assert_eq!(analyze("a+", Engine::Pcre2).unwrap().worst, ComplexityClass::Linear);
}

#[test]
fn adjacent_disjoint_stars_are_linear() {
    // `a*b*`: adjacent but non-overlapping bodies, no IDA.
    assert_eq!(analyze("a*b*", Engine::Pcre2).unwrap().worst, ComplexityClass::Linear);
}

#[test]
fn higher_degree_ida_counts_the_chain() {
    assert_eq!(analyze("a*a*a*", Engine::Pcre2).unwrap().worst, ComplexityClass::Polynomial(3));
}

#[test]
fn invalid_pattern_is_a_parse_error() {
    assert!(matches!(analyze("(", Engine::Pcre2), Err(AnalyzeError::Parse(_))));
}

#[test]
fn overlapping_alternation_is_exponential() {
    // `(aa|a)+`: exponential but with no nested repetition.
    let report = analyze("(aa|a)+", Engine::Pcre2).unwrap();
    assert_eq!(report.worst, ComplexityClass::Exponential);
    assert_eq!(report.findings[0].kind, AmbiguityKind::Eda);
}

#[test]
fn nested_rep_needing_a_separator_is_not_exponential() {
    // `(ab+)+`: looks nested, but each outer iteration needs a fresh `a`.
    let report = analyze("(ab+)+", Engine::Pcre2).unwrap();
    assert_eq!(report.worst, ComplexityClass::Linear);
}

#[test]
fn non_adjacent_polynomial_is_detected() {
    // `\d*-?\d*`: two unbounded repetitions separated by `-?`.
    let report = analyze(r"\d*-?\d*", Engine::Pcre2).unwrap();
    assert!(matches!(report.worst, ComplexityClass::Polynomial(_)));
    assert_eq!(report.findings[0].kind, AmbiguityKind::Ida);
}

#[test]
fn explanations_name_the_class() {
    let exp = analyze("(a+)+", Engine::Pcre2).unwrap();
    assert_eq!(
        exp.findings[0].explanation,
        "two distinct match paths read the same pumpable input (exponential backtracking)"
    );
    let poly = analyze("a*a*a*", Engine::Pcre2).unwrap();
    assert_eq!(poly.findings[0].explanation, "super-linear backtracking: polynomial O(n^3)");
}

#[test]
fn report_carries_the_engine() {
    assert_eq!(analyze("abc", Engine::Ruby).unwrap().engine, Engine::Ruby);
    assert_eq!(analyze("abc", Engine::Go).unwrap().engine, Engine::Go);
}

#[test]
fn go_engine_is_linear_too() {
    let report = analyze("(a*)*$", Engine::Go).unwrap();
    assert_eq!(report.worst, ComplexityClass::Linear);
    assert!(report.findings.is_empty());
}

#[test]
fn parse_error_comes_before_the_engine_check() {
    assert!(matches!(analyze("(", Engine::RustRegex), Err(AnalyzeError::Parse(_))));
    assert!(matches!(analyze("a{3,2}", Engine::Pcre2), Err(AnalyzeError::Parse(_))));
}

#[test]
fn huge_bounded_repetition_is_too_complex() {
    match analyze("a{5000}", Engine::Pcre2) {
        Err(AnalyzeError::TooComplex { estimated_states }) => assert_eq!(estimated_states, 10002),
        other => panic!("expected TooComplex, got {:?}", other.map(|r| r.worst)),
    }
    // A linear engine needs no estimate at all.
    assert!(analyze("a{5000}", Engine::RustRegex).is_ok());
}

#[test]
fn too_complex_message_states_the_estimate() {
    let e = AnalyzeError::TooComplex { estimated_states: 4321 };
    assert_eq!(e.message(), "pattern too complex to analyze (≈4321 NFA states)");
    let z = AnalyzeError::TooComplex { estimated_states: 0 };
    assert_eq!(z.message(), "pattern too complex to analyze (≈0 NFA states)");
}

#[test]
fn parse_error_message_has_its_prefix() {
    let e = analyze("(", Engine::Pcre2).unwrap_err();
    assert!(e.message().starts_with("pattern failed to parse: "));
}

#[test]
fn empty_loop_is_exponential() {
    for p in ["(a*)*", "(a?)*", "(.*)*"] {
        assert_eq!(analyze(p, Engine::Pcre2).unwrap().worst, ComplexityClass::Exponential, "{}", p);
    }
}

#[test]
fn attack_synthesizes_for_exponential_and_not_for_safe() {
    let atk = rxray::attack("(a+)+$", Engine::Pcre2, 28).expect("attack for EDA");
    assert_eq!(atk.pumped_n, 28);
    assert!(atk.value.contains("aaaa"));
    // Safe pattern: no attack.
    assert!(rxray::attack("a+$", Engine::Pcre2, 28).is_none());
    // Linear engine: never an attack.
    assert!(rxray::attack("(a+)+$", Engine::RustRegex, 28).is_none());
}

#[test]
fn attack_has_the_pump_then_the_first_breaker() {
    let atk = rxray::attack("(a+)+$", Engine::Pcre2, 25).unwrap();
    let mut expected = "a".repeat(25);
    expected.push('\u{0}');
    assert_eq!(atk.value, expected);
}

#[test]
fn attack_needs_a_parsable_pattern() {
    assert!(rxray::attack("(", Engine::Pcre2, 10).is_none());
    assert!(rxray::attack("a{5000}", Engine::Pcre2, 10).is_none());
}

#[test]
fn backreferences_and_lookaround_do_not_parse() {
    assert!(matches!(analyze(r"(a)\1", Engine::Pcre2), Err(AnalyzeError::Parse(_))));
    assert!(matches!(analyze("(?=a)b", Engine::Pcre2), Err(AnalyzeError::Parse(_))));
}

#[test]
fn parser_normalization_collapses_duplicate_branches() {
    assert_eq!(analyze("(a|a)+", Engine::Pcre2).unwrap().worst, ComplexityClass::Linear);
}

#[test]
fn thousandfold_repetition_is_too_complex() {
    assert!(matches!(
        analyze("a{1000}", Engine::Pcre2),
        Err(AnalyzeError::TooComplex { estimated_states: 2002 })
    ));
}

#[test]
fn attack_reconstructs_the_pump_prefix() {
    let atk = rxray::attack("x(a+)+$", Engine::Pcre2, 30).expect("attack behind a prefix");
    assert_eq!(atk.pumped_n, 30);
    assert!(atk.value.starts_with("x"));
    let mut expected = String::from("x");
    expected.push_str(&"a".repeat(30));
    expected.push('\u{0}');
    assert_eq!(atk.value, expected);
}

#[test]
fn polynomial_attack_is_verified_by_growth() {
    let atk = rxray::attack("a*a*$", Engine::Pcre2, 30).expect("polynomial attack");
    assert_eq!(atk.pumped_n, 30);
    assert!(atk.value.starts_with(&"a".repeat(30)));
}

#[test]
fn node_entry_points_agree_with_the_pattern_ones() {
    let node = rxray::parse_ascii("(a+)+").unwrap();
    let r = rxray::analyze_node(&node, Engine::Pcre2).unwrap();
    assert_eq!(r.worst, ComplexityClass::Exponential);
    let node = rxray::parse_ascii("a{5000}").unwrap();
    assert!(matches!(rxray::analyze_node(&node, Engine::Pcre2), Err(AnalyzeError::TooComplex { estimated_states: 10002 })));
    let node = rxray::parse_ascii("x(a+)+$").unwrap();
    assert_eq!(rxray::attack_node(&node, Engine::Pcre2, 30), rxray::attack("x(a+)+$", Engine::Pcre2, 30));
    assert!(rxray::attack_node(&node, Engine::Go, 30).is_none());
}

#[test]
fn exponential_attacks_must_reach_the_step_cap() {
    // Ten pumps of an exponential pattern stay far below the step cap: growth
    // alone does not make an exponential attack.
    assert!(attack("(a+)+$", Engine::Pcre2, 10).is_none());
    let a = attack("(a+)+$", Engine::Pcre2, 30).expect("attack");
    let chars: Vec<char> = a.value.chars().collect();
    let nfa = build(&parse_ascii("(a+)+$").unwrap());
    let (matched, steps) = backtrack_steps(&nfa, &chars, STEP_CAP);
    assert!(!matched);
    assert!(steps >= STEP_CAP);
}

#[test]
fn exponential_synthesis_ignores_growth() {
    let h = parse_ascii("(a+)+$").unwrap();
    let n = build(&h);
    assert!(synthesize(&n, &h, 10, true).is_none());
    // Read as a polynomial pattern, the same ten pumps are accepted by growth.
    assert!(synthesize(&n, &h, 10, false).is_some());
}
