use rxray::nfa::{build, eclose, epsfree_moves, estimate_states, intersect_ranges, ranges_intersect, Nfa, State};
use rxray::parse_ascii;

fn nfa(pattern: &str) -> Nfa {
    build(&parse_ascii(pattern).unwrap())
}

#[test]
fn literal_concat_matches_exactly() {
    let n = nfa("abc");
    assert!(n.matches("abc"));
    assert!(!n.matches("abx"));
    assert!(!n.matches("ab"));
}

#[test]
fn class_matches_any_member() {
    let n = nfa("[a-c]");
    assert!(n.matches("a"));
    assert!(n.matches("c"));
    assert!(!n.matches("d"));
}

#[test]
fn alternation_matches_either_branch() {
    let n = nfa("a|bc");
    assert!(n.matches("a"));
    assert!(n.matches("bc"));
    assert!(!n.matches("b"));
}

#[test]
fn star_matches_zero_or_more() {
    let n = nfa("a*");
    assert!(n.matches(""));
    assert!(n.matches("aaa"));
    assert!(!n.matches("b"));
}

#[test]
fn plus_requires_at_least_one() {
    let n = nfa("a+");
    assert!(!n.matches(""));
    assert!(n.matches("a"));
    assert!(n.matches("aaa"));
}

#[test]
fn optional_matches_zero_or_one() {
    let n = nfa("a?");
    assert!(n.matches(""));
    assert!(n.matches("a"));
    assert!(!n.matches("aa"));
}

#[test]
fn bounded_repetition_respects_range() {
    let n = nfa("a{2,3}");
    assert!(!n.matches("a"));
    assert!(n.matches("aa"));
    assert!(n.matches("aaa"));
    assert!(!n.matches("aaaa"));
}

#[test]
fn estimate_bounds_the_built_size() {
    for p in ["abc", "a{2,3}", "(a|bc)*d+", "[a-z]{4}", "(ab+)+$", "x{0}", ""] {
        let node = parse_ascii(p).unwrap();
        let built = build(&node);
        assert!(built.states.len() <= estimate_states(&node), "{}", p);
        assert!(built.start < built.states.len() && built.accept < built.states.len());
    }
}

#[test]
fn estimate_of_a_literal_and_a_repetition() {
    assert_eq!(estimate_states(&parse_ascii("abc").unwrap()), 4);
    assert_eq!(estimate_states(&parse_ascii("a{3}").unwrap()), 8);
    assert_eq!(estimate_states(&parse_ascii("a*").unwrap()), 4);
}

#[test]
fn epsilon_closure_keeps_seeds_first() {
    let n = nfa("a*");
    let closure = n.epsilon_closure(vec![n.start]);
    assert_eq!(closure[0], n.start);
    assert!(closure.contains(&n.accept));
}

#[test]
fn intersection_lists_the_pairwise_overlaps() {
    assert_eq!(intersect_ranges(&vec![('a', 'f')], &vec![('d', 'k'), ('x', 'z')]), vec![('d', 'f')]);
    assert_eq!(
        intersect_ranges(&vec![('a', 'f'), ('m', 'z')], &vec![('c', 'p'), ('e', 'e')]),
        vec![('c', 'f'), ('e', 'e'), ('m', 'p')]
    );
    assert!(intersect_ranges(&vec![('a', 'c')], &vec![('x', 'z')]).is_empty());
}

#[test]
fn overlap_test_reads_the_range_ends() {
    assert!(ranges_intersect(&vec![('a', 'f')], &vec![('f', 'k')]));
    assert!(!ranges_intersect(&vec![('a', 'e')], &vec![('f', 'k')]));
    assert!(!ranges_intersect(&vec![], &vec![('f', 'k')]));
    // Ranges written backwards still follow the end-point comparison.
    assert!(ranges_intersect(&vec![('c', 'a')], &vec![('a', 'd')]));
    assert!(!ranges_intersect(&vec![('z', 'a')], &vec![('b', 'c')]));
}

fn hand_built() -> Nfa {
    // 0 -eps-> 1, 0 -eps-> 2, 2 -eps-> 3, 1 -eps-> 3; moves on 1, 3, 0.
    Nfa {
        states: vec![
            State { eps: vec![1, 2], moves: vec![(vec![('z', 'z')], 4)] },
            State { eps: vec![3], moves: vec![(vec![('a', 'a')], 4)] },
            State { eps: vec![3], moves: vec![] },
            State { eps: vec![], moves: vec![(vec![('b', 'c')], 4), (vec![('d', 'd')], 4)] },
            State { eps: vec![], moves: vec![] },
        ],
        start: 0,
        accept: 4,
    }
}

#[test]
fn closure_is_listed_in_depth_first_discovery_order() {
    let n = hand_built();
    // 0 discovers 1 and 2; 2 (pushed last) is searched first and discovers 3.
    assert_eq!(eclose(&n, 0), vec![0, 1, 2, 3]);
    assert_eq!(eclose(&n, 2), vec![2, 3]);
    assert_eq!(eclose(&n, 4), vec![4]);
}

#[test]
fn epsilon_free_moves_follow_the_closure_order() {
    let n = hand_built();
    let ef = epsfree_moves(&n);
    assert_eq!(
        ef[0],
        vec![
            (vec![('z', 'z')], 4),
            (vec![('a', 'a')], 4),
            (vec![('b', 'c')], 4),
            (vec![('d', 'd')], 4),
        ]
    );
    assert_eq!(ef[2], vec![(vec![('b', 'c')], 4), (vec![('d', 'd')], 4)]);
    assert!(ef[4].is_empty());
}
