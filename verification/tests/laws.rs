use rxray::ambiguity::{severity, worst};
use rxray::cli::{parse_engine, parse_threshold, Threshold};
use rxray::nfa::build;
use rxray::synth::{backtrack_steps, STEP_CAP};
use rxray::{analyze, parse_ascii, AmbiguityKind, ComplexityClass, Engine, EngineCaps, Finding};
use std::cmp::Ordering;

#[test]
fn engine_capabilities() {
    let none = EngineCaps { backtracks: false, atomic_groups: false, possessive: false, backrefs: false };
    assert_eq!(Engine::RustRegex.caps(), none);
    assert_eq!(Engine::Go.caps(), none);
    let js = Engine::JavaScript.caps();
    assert!(js.backtracks && !js.atomic_groups && !js.possessive && js.backrefs);
    let net = Engine::DotNet.caps();
    assert!(net.backtracks && net.atomic_groups && !net.possessive && net.backrefs);
    for e in [Engine::FancyRegex, Engine::Pcre2, Engine::Python, Engine::Java, Engine::Php, Engine::Ruby] {
        let c = e.caps();
        assert!(c.backtracks && c.atomic_groups && c.possessive && c.backrefs);
    }
}

#[test]
fn backtracking_matches_are_real_matches() {
    let cases: &[(&str, &str)] = &[
        ("abc", "abc"),
        ("a|bc", "bc"),
        ("(a+)+$", "aaaa"),
        ("a{2,3}", "aaa"),
        ("(ab|a)*c", "ababac"),
        ("[a-c]+d?", "cab"),
    ];
    for &(p, input) in cases {
        let nfa = build(&parse_ascii(p).unwrap());
        let chars: Vec<char> = input.chars().collect();
        let (matched, _) = backtrack_steps(&nfa, &chars, STEP_CAP);
        assert!(matched, "{} on {}", p, input);
        assert!(nfa.matches(input));
    }
    let nfa = build(&parse_ascii("abc").unwrap());
    let (m, _) = backtrack_steps(&nfa, &vec!['a', 'b', 'd'], STEP_CAP);
    assert!(!m);
    assert!(!nfa.matches("abd"));
}

#[test]
fn worst_is_the_most_severe_finding() {
    let f = |class: ComplexityClass| Finding { class, kind: AmbiguityKind::Ida, explanation: String::new() };
    assert_eq!(worst(&[]), ComplexityClass::Linear);
    assert_eq!(
        worst(&[f(ComplexityClass::Polynomial(3)), f(ComplexityClass::Exponential), f(ComplexityClass::Polynomial(9))]),
        ComplexityClass::Exponential
    );
    assert_eq!(worst(&[f(ComplexityClass::Polynomial(3)), f(ComplexityClass::Polynomial(2))]), ComplexityClass::Polynomial(3));
    assert_eq!(severity(&ComplexityClass::Linear, &ComplexityClass::Polynomial(0)), Ordering::Less);
    assert_eq!(severity(&ComplexityClass::Polynomial(7), &ComplexityClass::Polynomial(7)), Ordering::Equal);
    assert_eq!(severity(&ComplexityClass::Exponential, &ComplexityClass::Polynomial(u32::MAX)), Ordering::Greater);
}

#[test]
fn report_worst_agrees_with_its_findings() {
    for p in ["(a+)+", "a*a*", "abc", r"\d*-?\d*", "(a|aa)*b", "x?y?z?"] {
        let report = analyze(p, Engine::Pcre2).unwrap();
        assert_eq!(report.worst, worst(&report.findings), "{}", p);
        assert!(report.findings.len() <= 1);
    }
}

#[test]
fn polynomial_degree_is_superlinear() {
    for p in ["a*a*", "a*a*a*", ".*.*$", r"\d*\d*\d*\d*\d*"] {
        match analyze(p, Engine::Pcre2).unwrap().worst {
            ComplexityClass::Polynomial(d) => assert!(d >= 2, "{}", p),
            other => panic!("{} gave {:?}", p, other),
        }
    }
}

#[test]
fn stricter_thresholds_are_exceeded_more() {
    let classes =
        [ComplexityClass::Linear, ComplexityClass::Polynomial(2), ComplexityClass::Polynomial(5), ComplexityClass::Exponential];
    for c in classes {
        assert!(!Threshold::Exp.exceeded_by(c));
        if Threshold::Poly(4).exceeded_by(c) {
            assert!(Threshold::Poly(1).exceeded_by(c));
            assert!(Threshold::Linear.exceeded_by(c));
        }
    }
}

#[test]
fn names_ignore_ascii_case() {
    for name in ["RuBy", "PCRE2", "DotNet", "fancy"] {
        assert_eq!(parse_engine(name), parse_engine(&name.to_ascii_lowercase()));
    }
    for name in ["LINEAR", "Poly:4", "EXP", "pOlYnOmIaL"] {
        assert_eq!(parse_threshold(name), parse_threshold(&name.to_ascii_lowercase()));
    }
}

#[test]
fn backtracking_below_the_cap_agrees_with_simulation() {
    let patterns = ["abc", "a|bc", "(a+)+$", "a{2,3}", "(ab|a)*c", "[a-c]+d?", "x*y*", "(a*)*b"];
    let inputs = ["", "a", "ab", "abc", "aaa", "aaaa!", "ababac", "cab", "xxyy", "yx", "aab", "b"];
    for p in patterns {
        let nfa = build(&parse_ascii(p).unwrap());
        for input in inputs {
            let chars: Vec<char> = input.chars().collect();
            let (matched, steps) = backtrack_steps(&nfa, &chars, STEP_CAP);
            if steps < STEP_CAP {
                assert_eq!(matched, nfa.matches(input), "{} on {:?}", p, input);
            }
        }
    }
}

#[test]
fn attacks_only_for_flagged_patterns() {
    for p in ["(a+)+$", "(a*)*$", "a*a*$", "abc", "a+$", "(ab+)+$", "(aa|a)+$", "x*y*$"] {
        let flagged = analyze(p, Engine::Pcre2).unwrap().worst != ComplexityClass::Linear;
        if rxray::attack(p, Engine::Pcre2, 20).is_some() {
            assert!(flagged, "{}", p);
        }
    }
}

#[test]
fn reports_depend_only_on_the_pattern_and_backtracking() {
    for p in ["a*a*", "(a+)+$", r"\d*-?\d*", "a*a*a*", "abc"] {
        let first = analyze(p, Engine::Pcre2).unwrap();
        let again = analyze(p, Engine::Pcre2).unwrap();
        let other = analyze(p, Engine::Python).unwrap();
        assert_eq!(first.worst, again.worst);
        assert_eq!(first.findings, again.findings);
        assert_eq!(first.worst, other.worst);
        assert_eq!(first.findings, other.findings);
        assert_eq!(other.engine, Engine::Python);
        let linear = analyze(p, Engine::RustRegex).unwrap();
        assert_eq!(linear.worst, ComplexityClass::Linear);
        assert!(linear.findings.is_empty());
    }
}
