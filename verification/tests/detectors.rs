use rxray::graph::reach;
use rxray::eda::{eda_search, has_eda};
use rxray::ida::{chain_degree, has_ida, ida_search, polynomial_degree, reachable_from_start, reaches_accept};
use rxray::nfa::{build, Nfa};
use rxray::parse_ascii;

fn nfa(pattern: &str) -> Nfa {
    build(&parse_ascii(pattern).unwrap())
}

fn eda(pattern: &str) -> bool {
    has_eda(&nfa(pattern))
}

fn ida(pattern: &str) -> bool {
    has_ida(&nfa(pattern))
}

#[test]
fn nested_quantifier_has_eda() {
    assert!(eda("(a+)+"));
}

#[test]
fn overlapping_alternation_plus_has_eda() {
    // `(aa|a)+` is exponential (a^n has exponentially many splits) but has no
    // nested repetition.
    assert!(eda("(aa|a)+"));
}

#[test]
fn nested_rep_without_real_ambiguity_is_not_eda() {
    // Each outer iteration needs a fresh `a`, so a run of `b`s cannot split.
    assert!(!eda("(ab+)+"));
}

#[test]
fn plain_star_is_not_eda() {
    assert!(!eda("a*"));
    assert!(!eda("a*a*")); // IDA (polynomial), not EDA
    assert!(!eda("abc"));
}

#[test]
fn adjacent_overlapping_stars_have_ida() {
    assert!(ida("a*a*"));
}

#[test]
fn non_adjacent_reps_have_ida() {
    // A run of digits splits across the two `\d*`.
    assert!(ida(r"\d*-?\d*"));
}

#[test]
fn linear_patterns_have_no_ida() {
    assert!(!ida("a*b*")); // disjoint
    assert!(!ida("a+")); // single loop
    assert!(!ida("abc")); // no loop
    assert!(!ida("(ab)+")); // unambiguous loop
}

#[test]
fn degree_counts_chained_pairs() {
    assert_eq!(polynomial_degree(&nfa("a*a*")), Some(2));
    assert_eq!(polynomial_degree(&nfa("a*a*a*")), Some(3));
    assert_eq!(polynomial_degree(&nfa("a*a*a*a*")), Some(4));
    assert_eq!(polynomial_degree(&nfa("a*b*")), None);
}

#[test]
fn reach_spends_one_unit_per_node_taken() {
    let adj = vec![vec![1], vec![2], vec![], vec![0]];
    let mut budget = 10;
    let seen = reach(&adj, 0, &mut budget);
    assert_eq!(seen, vec![true, true, true, false]);
    assert_eq!(budget, 7);
    let mut small = 1;
    let partial = reach(&adj, 0, &mut small);
    assert_eq!(small, 0);
    assert_eq!(partial, vec![true, true, false, false]);
}

#[test]
fn deep_chains_of_loops_stay_within_the_budgets() {
    // Patterns whose automata exceed the crude size bounds still get exact
    // answers: the searches only meet the product nodes they can reach.
    let r = rxray::analyze("a*a*a*a*", rxray::Engine::Pcre2).unwrap();
    assert_eq!(r.worst, rxray::ComplexityClass::Polynomial(4));
    let r = rxray::analyze("(a|b)*c(a|b)*", rxray::Engine::Pcre2).unwrap();
    assert_eq!(r.worst, rxray::ComplexityClass::Linear);
}

#[test]
fn searches_report_whether_they_finished() {
    let s = eda_search(&nfa("(a+)+"));
    assert!(s.found && !s.gave_up);
    let s = eda_search(&nfa("a*a*"));
    assert!(!s.found && !s.gave_up);
    let s = ida_search(&nfa("a*a*"), false);
    assert!(!s.gave_up);
    assert!(!s.pairs.is_empty());
    let s = ida_search(&nfa("a*b*"), true);
    assert!(!s.gave_up);
    assert!(s.pairs.is_empty());
}

#[test]
fn reachability_from_the_start_and_to_the_accept() {
    let n = nfa("a|b");
    let from = reachable_from_start(&n);
    let to = reaches_accept(&n);
    assert_eq!(from.len(), n.states.len());
    assert_eq!(to.len(), n.states.len());
    assert!(from[n.start] && from[n.accept]);
    assert!(to[n.start] && to[n.accept]);
    assert!(from.iter().all(|&b| b));
}

#[test]
fn detector_answers_follow_their_searches() {
    for p in ["(a+)+", "a*a*", "a*b*", "(a|ab)*c", "x*y*x*y*", "(ab|a)*(ba|a)*"] {
        let n = nfa(p);
        assert_eq!(has_eda(&n), eda_search(&n).found);
        assert_eq!(has_ida(&n), !ida_search(&n, true).pairs.is_empty());
        let all = ida_search(&n, false);
        assert_eq!(polynomial_degree(&n), chain_degree(&n, &all.pairs));
        // Two runs on one automaton agree.
        assert_eq!(ida_search(&n, false).pairs, all.pairs);
        assert_eq!(polynomial_degree(&n), polynomial_degree(&n));
    }
}
