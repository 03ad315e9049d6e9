use rxray::cli::{
    attack_request, class_label, exit_code, failure_message, parse_args, parse_engine, parse_threshold,
    pattern_from_input, run_program, Command, Step, Threshold,
};
use rxray::{analyze, attack, AnalyzeError, ComplexityClass, Engine};

fn args(list: &[&str]) -> Vec<String> {
    list.iter().map(|s| s.to_string()).collect()
}

/// The program's exit code and output for a command line (patterns given as
/// arguments; the attack line after the first line when one was asked for).
fn outcome(list: &[&str]) -> (u8, String) {
    let o = match run_program(&args(list), None) {
        Step::Done(o) => o,
        Step::ReadStdin => panic!("pattern expected as an argument"),
    };
    let mut out = o.first_line.clone();
    if let Some((opts, pattern, report)) = &o.analysis {
        if let Some(n) = attack_request(opts.want_attack, report.worst) {
            match attack(pattern, opts.engine, n) {
                Some(a) => out.push_str(&format!("\n  attack ({}x): {:?}", a.pumped_n, a.value)),
                None => out.push_str("\n  attack: (none synthesized)"),
            }
        }
    }
    (o.exit, out)
}

#[test]
fn safe_pattern_exits_zero() {
    let (code, out) = outcome(&["a+b+"]);
    assert_eq!(code, 0);
    assert!(out.contains("Linear"));
}

#[test]
fn exponential_pattern_exits_one() {
    let (code, out) = outcome(&["(a+)+$"]);
    assert_eq!(code, 1);
    assert!(out.contains("Exponential"));
}

#[test]
fn polynomial_exceeds_linear_but_passes_poly_threshold() {
    assert_eq!(outcome(&["a*a*$"]).0, 1);
    assert_eq!(outcome(&["--max-complexity", "poly", "a*a*$"]).0, 0);
    assert_eq!(outcome(&["--max-complexity", "poly:1", "a*a*$"]).0, 1);
}

#[test]
fn parse_error_exits_two() {
    assert_eq!(outcome(&["("]).0, 2);
}

#[test]
fn attack_flag_prints_attack_for_exponential() {
    let (code, out) = outcome(&["--attack", "(a+)+$"]);
    assert_eq!(code, 1);
    assert!(out.contains("attack"));
}

#[test]
fn engines_parse_case_insensitively() {
    assert_eq!(parse_engine("RUST"), Ok(Engine::RustRegex));
    assert_eq!(parse_engine("pcre"), Ok(Engine::Pcre2));
    assert_eq!(parse_engine("JavaScript"), Ok(Engine::JavaScript));
    assert_eq!(parse_engine(".NET"), Ok(Engine::DotNet));
    assert_eq!(parse_engine("Go"), Ok(Engine::Go));
    assert_eq!(parse_engine("Perl"), Err("unknown engine: perl".to_string()));
}

#[test]
fn thresholds_parse() {
    assert_eq!(parse_threshold("LIN"), Ok(Threshold::Linear));
    assert_eq!(parse_threshold("exponential"), Ok(Threshold::Exp));
    assert_eq!(parse_threshold("Poly"), Ok(Threshold::Poly(u32::MAX)));
    assert_eq!(parse_threshold("poly:3"), Ok(Threshold::Poly(3)));
    assert_eq!(parse_threshold("poly7"), Ok(Threshold::Poly(7)));
    assert_eq!(parse_threshold("poly:+12"), Ok(Threshold::Poly(12)));
    assert_eq!(parse_threshold("poly:"), Err("bad poly degree: ".to_string()));
    assert_eq!(parse_threshold("poly:x"), Err("bad poly degree: x".to_string()));
    assert_eq!(parse_threshold("poly:4294967296"), Err("bad poly degree: 4294967296".to_string()));
    assert_eq!(parse_threshold("poly:4294967295"), Ok(Threshold::Poly(4294967295)));
    assert_eq!(parse_threshold("Quadratic"), Err("bad --max-complexity: quadratic".to_string()));
}

#[test]
fn threshold_comparisons() {
    assert!(!Threshold::Linear.exceeded_by(ComplexityClass::Linear));
    assert!(Threshold::Linear.exceeded_by(ComplexityClass::Polynomial(2)));
    assert!(!Threshold::Poly(2).exceeded_by(ComplexityClass::Polynomial(2)));
    assert!(Threshold::Poly(2).exceeded_by(ComplexityClass::Polynomial(3)));
    assert!(Threshold::Poly(u32::MAX).exceeded_by(ComplexityClass::Exponential));
    assert!(!Threshold::Exp.exceeded_by(ComplexityClass::Exponential));
    assert_eq!(exit_code(&Threshold::Poly(1), ComplexityClass::Polynomial(2)), 1);
    assert_eq!(exit_code(&Threshold::Exp, ComplexityClass::Exponential), 0);
}

#[test]
fn argument_errors() {
    assert_eq!(parse_args(&args(&["--engine"])), Err("--engine needs a value".to_string()));
    assert_eq!(parse_args(&args(&["-m"])), Err("--max-complexity needs a value".to_string()));
    assert_eq!(parse_args(&args(&["--frobnicate"])), Err("unknown option: --frobnicate".to_string()));
    assert_eq!(parse_args(&args(&["a", "b"])), Err("multiple patterns given".to_string()));
    assert_eq!(parse_args(&args(&["-e", "perl", "a"])), Err("unknown engine: perl".to_string()));
    assert_eq!(parse_args(&args(&["a", "--help", "--bogus"])), Ok(Command::Help));
}

#[test]
fn arguments_set_options() {
    match parse_args(&args(&["-e", "Ruby", "-a", "-m", "poly:2", "x+"])) {
        Ok(Command::Run(opts)) => {
            assert_eq!(opts.engine, Engine::Ruby);
            assert_eq!(opts.threshold, Threshold::Poly(2));
            assert_eq!(opts.want_attack, Some(30));
            assert_eq!(opts.pattern, Some("x+".to_string()));
        }
        other => panic!("unexpected {:?}", other),
    }
    match parse_args(&args(&[])) {
        Ok(Command::Run(opts)) => {
            assert_eq!(opts.engine, Engine::Pcre2);
            assert_eq!(opts.threshold, Threshold::Linear);
            assert_eq!(opts.want_attack, None);
            assert_eq!(opts.pattern, None);
        }
        other => panic!("unexpected {:?}", other),
    }
}

#[test]
fn labels_and_messages() {
    assert_eq!(class_label(ComplexityClass::Linear), "Linear");
    assert_eq!(class_label(ComplexityClass::Polynomial(12)), "Polynomial(12)");
    assert_eq!(class_label(ComplexityClass::Exponential), "Exponential");
    assert_eq!(failure_message(&AnalyzeError::TooComplex { estimated_states: 2001 }), "too complex (~2001 states)");
    let e = analyze("(", Engine::Pcre2).unwrap_err();
    assert!(failure_message(&e).starts_with("parse error: "));
    assert_eq!(attack_request(Some(30), ComplexityClass::Linear), None);
    assert_eq!(attack_request(Some(30), ComplexityClass::Polynomial(2)), Some(30));
}

#[test]
fn stdin_pattern_is_trimmed() {
    assert_eq!(pattern_from_input("a+b\n\n"), Ok("a+b".to_string()));
    assert_eq!(pattern_from_input("a\nb\n"), Ok("a\nb".to_string()));
    assert!(pattern_from_input("\n\n").is_err());
    assert!(pattern_from_input("").is_err());
}

#[test]
fn whole_program_outcomes() {
    let (code, out) = outcome(&["-e", "python", "a*a*$"]);
    assert_eq!(code, 1);
    assert_eq!(out, "Polynomial(2)\ta*a*$");
    let (code, out) = outcome(&["-h"]);
    assert_eq!(code, 0);
    assert!(out.starts_with("usage: rxray"));
    let (code, out) = outcome(&["--bogus", "a"]);
    assert_eq!(code, 2);
    assert_eq!(out, "rxray: unknown option: --bogus");
    let (code, out) = outcome(&["("]);
    assert_eq!(code, 2);
    assert!(out.starts_with("rxray: parse error: "));
    let (code, out) = outcome(&["a{5000}"]);
    assert_eq!(code, 2);
    assert!(out.starts_with("rxray: too complex (~"));
    assert!(matches!(run_program(&args(&["-e", "pcre2"]), None), Step::ReadStdin));
    match run_program(&args(&["-e", "pcre2"]), Some("a+b\n\n")) {
        Step::Done(o) => {
            assert_eq!(o.exit, 0);
            assert_eq!(o.first_line, "Linear\ta+b");
        }
        Step::ReadStdin => panic!("stdin was given"),
    }
    match run_program(&args(&[]), Some("\n")) {
        Step::Done(o) => {
            assert_eq!(o.exit, 2);
            assert!(o.to_stderr);
            assert_eq!(o.first_line, "rxray: no pattern (give an argument or pipe via stdin)");
        }
        Step::ReadStdin => panic!("stdin was given"),
    }
}
