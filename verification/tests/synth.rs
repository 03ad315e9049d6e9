use rxray::nfa::{build, Nfa};
use rxray::parse_ascii;
use rxray::synth::{backtrack_steps, synthesize, STEP_CAP};
use rxray::prefix::{prefix_for, reach_witnesses};

fn nfa(p: &str) -> Nfa {
    build(&parse_ascii(p).unwrap())
}

#[test]
fn synthesizes_verified_attack_for_eda() {
    let h = parse_ascii("(a+)+$").unwrap();
    let atk = synthesize(&nfa("(a+)+$"), &h, 30, true).expect("attack");
    assert_eq!(atk.pumped_n, 30);
    // Re-confirm: the synthesized string blows up the backtracking matcher.
    let chars: Vec<char> = atk.value.chars().collect();
    let (matched, steps) = backtrack_steps(&nfa("(a+)+$"), &chars, STEP_CAP);
    assert!(!matched);
    assert!(steps >= STEP_CAP);
}

#[test]
fn benign_input_does_not_blow_up() {
    // A safe pattern's matcher stays cheap on the same kind of input.
    let (_m, steps) = backtrack_steps(&nfa("a+$"), &vec!['a'; 60], STEP_CAP);
    assert!(steps < STEP_CAP);
}

#[test]
fn matching_input_is_found() {
    let (m, steps) = backtrack_steps(&nfa("abc"), &vec!['a', 'b', 'c'], STEP_CAP);
    assert!(m);
    assert!(steps > 0 && steps < 100);
    let (m2, _) = backtrack_steps(&nfa("abc"), &vec!['a', 'b'], STEP_CAP);
    assert!(!m2);
}

#[test]
fn step_count_saturates_at_the_cap() {
    let (m, steps) = backtrack_steps(&nfa("(a+)+$"), &vec!['a', 'a', 'a', 'a', 'a', 'a', 'a', 'a', '!'], 10);
    assert!(!m);
    assert_eq!(steps, 10);
}

#[test]
fn safe_pattern_gets_no_attack() {
    let h = parse_ascii("abc").unwrap();
    assert!(synthesize(&nfa("abc"), &h, 30, false).is_none());
}

#[test]
fn prefixes_lead_to_the_pump() {
    let n = nfa("xy(a+)+$");
    let (order, wit) = reach_witnesses(&n);
    assert_eq!(prefix_for(&n, &order, &wit, 'a'), Some(vec!['x', 'y']));
    assert_eq!(prefix_for(&n, &order, &wit, 'x'), Some(vec![]));
    assert_eq!(prefix_for(&n, &order, &wit, 'q'), None);
}
