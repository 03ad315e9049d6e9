//! Ambiguity helpers on the parsed pattern that complement the NFA product
//! analyses.
//!
//! - [`has_empty_loop_eda`] catches the nullable-body EDA family (`(a*)*`,
//!   `(.*)*`, `(a?)*`) that the product-automaton detector folds away.
//! - [`worst`] reduces a finding list to its worst complexity class.
use vstd::prelude::*;

use std::cmp::Ordering;

use crate::nfa::{lemma_body_decreases, lemma_child_decreases};
use crate::syntax::{occurs_in, Node};
use crate::{ComplexityClass, Finding};

verus! {

/// Severity rank of a complexity class: `Linear` lowest, then `Polynomial(k)`
/// by `k`, then `Exponential`.
pub open spec fn rank_spec(c: ComplexityClass) -> int {
    match c {
        ComplexityClass::Linear => 0,
        ComplexityClass::Polynomial(k) => 1 + k,
        ComplexityClass::Exponential => u64::MAX as int,
    }
}

/// The worst class among `cs`: the last one of highest rank, or `Linear` when
/// `cs` is empty.
pub open spec fn worst_spec(cs: Seq<ComplexityClass>) -> ComplexityClass
    decreases cs.len(),
{
    if cs.len() == 0 {
        ComplexityClass::Linear
    } else {
        let w = worst_spec(cs.drop_last());
        if rank_spec(cs.last()) >= rank_spec(w) {
            cs.last()
        } else {
            w
        }
    }
}

/// The classes of a list of findings.
pub open spec fn classes(fs: Seq<Finding>) -> Seq<ComplexityClass> {
    fs.map_values(|f: Finding| f.class)
}

/// Can `node` match the empty string?
pub open spec fn nullable_spec(node: Node) -> bool
    decreases node,
{
    match node {
        Node::Empty | Node::Look => true,
        Node::Literal(bytes) => bytes@.len() == 0,
        Node::Class(_) => false,
        Node::Repeat { min, max, sub } => min == 0 || nullable_spec(*sub),
        Node::Group(sub) => nullable_spec(*sub),
        Node::Concat(subs) => forall|i: int| 0 <= i < subs.len() ==> nullable_spec(#[trigger] subs@[i]),
        Node::Alternation(subs) => exists|i: int| 0 <= i < subs.len() && nullable_spec(#[trigger] subs@[i]),
    }
}

/// Can `node` match a non-empty string?
pub open spec fn nonempty_spec(node: Node) -> bool
    decreases node,
{
    match node {
        Node::Empty | Node::Look => false,
        Node::Literal(bytes) => bytes@.len() > 0,
        Node::Class(_) => true,
        Node::Repeat { min, max, sub } => max != Some(0u32) && nonempty_spec(*sub),
        Node::Group(sub) => nonempty_spec(*sub),
        Node::Concat(subs) => exists|i: int| 0 <= i < subs.len() && nonempty_spec(#[trigger] subs@[i]),
        Node::Alternation(subs) => exists|i: int| 0 <= i < subs.len() && nonempty_spec(#[trigger] subs@[i]),
    }
}

/// The direct sub-expressions of `node`.
pub open spec fn children_spec(node: Node) -> Seq<Node> {
    match node {
        Node::Repeat { min, max, sub } => seq![*sub],
        Node::Group(sub) => seq![*sub],
        Node::Concat(subs) => subs@,
        Node::Alternation(subs) => subs@,
        _ => Seq::empty(),
    }
}

/// `node` itself is an unbounded repetition whose body is nullable and can
/// also match a non-empty string.
pub open spec fn empty_loop_here(node: Node) -> bool {
    node matches Node::Repeat { min, max, sub } && max is None && nullable_spec(*sub) && nonempty_spec(*sub)
}

/// Some sub-expression of `node` (itself included) is such an empty loop.
pub open spec fn empty_loop_spec(node: Node) -> bool
    decreases node,
{
    empty_loop_here(node) || match node {
        Node::Repeat { min, max, sub } => empty_loop_spec(*sub),
        Node::Group(sub) => empty_loop_spec(*sub),
        Node::Concat(subs) => exists|i: int| 0 <= i < subs.len() && empty_loop_spec(#[trigger] subs@[i]),
        Node::Alternation(subs) => exists|i: int| 0 <= i < subs.len() && empty_loop_spec(#[trigger] subs@[i]),
        _ => false,
    }
}

/// Worst complexity across `findings` (`Linear` if none): the class of highest
/// severity, the last such one where several tie.
pub fn worst(findings: &[Finding]) -> (w: ComplexityClass)
    ensures
        w == worst_spec(classes(findings@)),
        findings@.len() == 0 ==> w == ComplexityClass::Linear,
        findings@.len() > 0 ==> exists|i: int| 0 <= i < findings@.len() && findings@[i].class == w,
        forall|i: int| 0 <= i < findings@.len() ==> rank_spec(#[trigger] findings@[i].class) <= rank_spec(w),
{
    let mut best = ComplexityClass::Linear;
    let mut i: usize = 0;
    while i < findings.len()
        invariant
            i <= findings@.len(),
            best == worst_spec(classes(findings@).take(i as int)),
            i == 0 ==> best == ComplexityClass::Linear,
            i > 0 ==> exists|j: int| 0 <= j < i && findings@[j].class == best,
            forall|j: int| 0 <= j < i ==> rank_spec(#[trigger] findings@[j].class) <= rank_spec(best),
        decreases findings@.len() - i,
    {
        let c = findings[i].class;
        let ghost cs = classes(findings@);
        assert(cs.take(i + 1).drop_last() == cs.take(i as int));
        assert(cs.take(i + 1).last() == c);
        if at_least_as_severe(&c, &best) {
            best = c;
        }
        i = i + 1;
    }
    assert(classes(findings@).take(findings@.len() as int) == classes(findings@));
    best
}

/// Empty-loop EDA: an unbounded repetition whose body is nullable and can also
/// match a non-empty string, e.g. `(a*)*`, `(.*)*`, `(a?)*`.
///
/// Such a loop can pad any input with empty iterations, so a run of input
/// splits among outer iterations in exponentially many ways. The product-
/// automaton detector folds away these epsilon-cycles and misses them, so this
/// rule on the parsed pattern complements it.
pub fn has_empty_loop_eda(node: &Node) -> (r: bool)
    ensures
        r == empty_loop_spec(*node),
    decreases node,
{
    let here = match node {
        Node::Repeat { min: _, max, sub } => max.is_none() && nullable(sub) && matches_nonempty(sub),
        _ => false,
    };
    if here {
        return true;
    }
    let kids = children(node);
    let mut i: usize = 0;
    while i < kids.len()
        invariant
            i <= kids.len(),
            kids@.len() == children_spec(*node).len(),
            forall|j: int| 0 <= j < kids.len() ==> *kids@[j] == #[trigger] children_spec(*node)[j],
            forall|j: int| 0 <= j < i ==> !empty_loop_spec(#[trigger] children_spec(*node)[j]),
        decreases kids.len() - i,
    {
        proof {
            lemma_children_decrease(*node, i as int);
        }
        if has_empty_loop_eda(kids[i]) {
            return true;
        }
        i = i + 1;
    }
    proof {
        if node is Repeat {
            assert(children_spec(*node)[0] == *node->sub);
        }
        if node is Group {
            assert(children_spec(*node)[0] == *node->Group_0);
        }
    }
    false
}

proof fn lemma_children_decrease(node: Node, i: int)
    requires
        0 <= i < children_spec(node).len(),
    ensures
        decreases_to!(node => children_spec(node)[i]),
{
    match node {
        Node::Repeat { min, max, sub } => lemma_body_decreases(node, min, max, sub),
        Node::Group(sub) => {
            let b = node->Group_0;
            assert(decreases_to!(node => b));
            assert(decreases_to!(node => *b));
        },
        Node::Concat(subs) => lemma_child_decreases(node, subs, i),
        Node::Alternation(subs) => lemma_child_decreases(node, subs, i),
        _ => {},
    }
}

/// Can `node` match the empty string?
#[verifier::loop_isolation(false)]
fn nullable(node: &Node) -> (r: bool)
    ensures
        r == nullable_spec(*node),
    decreases node,
{
    match node {
        Node::Empty | Node::Look => true,
        Node::Literal(bytes) => bytes.len() == 0,
        Node::Class(_) => false,
        Node::Repeat { min, max: _, sub } => *min == 0 || nullable(sub),
        Node::Group(sub) => nullable(sub),
        Node::Concat(subs) => {
            let mut i: usize = 0;
            while i < subs.len()
                invariant
                    i <= subs.len(),
                    *node == Node::Concat(*subs),
                    forall|j: int| 0 <= j < i ==> nullable_spec(#[trigger] subs@[j]),
                decreases subs.len() - i,
            {
                proof {
                    lemma_child_decreases(*node, *subs, i as int);
                }
                if !nullable(&subs[i]) {
                    assert(!nullable_spec(subs@[i as int]));
                    return false;
                }
                i = i + 1;
            }
            true
        },
        Node::Alternation(subs) => {
            let mut i: usize = 0;
            while i < subs.len()
                invariant
                    i <= subs.len(),
                    *node == Node::Alternation(*subs),
                    forall|j: int| 0 <= j < i ==> !nullable_spec(#[trigger] subs@[j]),
                decreases subs.len() - i,
            {
                proof {
                    lemma_child_decreases(*node, *subs, i as int);
                }
                if nullable(&subs[i]) {
                    assert(nullable_spec(subs@[i as int]));
                    return true;
                }
                i = i + 1;
            }
            false
        },
    }
}

/// Can `node` match a non-empty string?
#[verifier::loop_isolation(false)]
fn matches_nonempty(node: &Node) -> (r: bool)
    ensures
        r == nonempty_spec(*node),
    decreases node,
{
    match node {
        Node::Empty | Node::Look => false,
        Node::Literal(bytes) => bytes.len() > 0,
        Node::Class(_) => true,
        Node::Repeat { min: _, max, sub } => {
            let zero = match max {
                Some(m) => *m == 0,
                None => false,
            };
            !zero && matches_nonempty(sub)
        },
        Node::Group(sub) => matches_nonempty(sub),
        Node::Concat(subs) => {
            let mut i: usize = 0;
            while i < subs.len()
                invariant
                    i <= subs.len(),
                    *node == Node::Concat(*subs),
                    forall|j: int| 0 <= j < i ==> !nonempty_spec(#[trigger] subs@[j]),
                decreases subs.len() - i,
            {
                proof {
                    lemma_child_decreases(*node, *subs, i as int);
                }
                if matches_nonempty(&subs[i]) {
                    assert(nonempty_spec(subs@[i as int]));
                    return true;
                }
                i = i + 1;
            }
            false
        },
        Node::Alternation(subs) => {
            let mut i: usize = 0;
            while i < subs.len()
                invariant
                    i <= subs.len(),
                    *node == Node::Alternation(*subs),
                    forall|j: int| 0 <= j < i ==> !nonempty_spec(#[trigger] subs@[j]),
                decreases subs.len() - i,
            {
                proof {
                    lemma_child_decreases(*node, *subs, i as int);
                }
                if matches_nonempty(&subs[i]) {
                    assert(nonempty_spec(subs@[i as int]));
                    return true;
                }
                i = i + 1;
            }
            false
        },
    }
}

/// Direct sub-expressions of a node.
fn children(node: &Node) -> (r: Vec<&Node>)
    ensures
        r@.len() == children_spec(*node).len(),
        forall|j: int| 0 <= j < r@.len() ==> *r@[j] == #[trigger] children_spec(*node)[j],
{
    let mut out: Vec<&Node> = Vec::new();
    match node {
        Node::Repeat { min: _, max: _, sub } => {
            out.push(&**sub);
        },
        Node::Group(sub) => {
            out.push(&**sub);
        },
        Node::Concat(subs) => {
            push_all(&mut out, subs);
        },
        Node::Alternation(subs) => {
            push_all(&mut out, subs);
        },
        Node::Empty | Node::Look | Node::Literal(_) | Node::Class(_) => {},
    }
    out
}

/// Appends a reference to each of `subs` to `out`, which starts empty.
fn push_all<'a>(out: &mut Vec<&'a Node>, subs: &'a Vec<Node>)
    requires
        old(out)@.len() == 0,
    ensures
        final(out)@.len() == subs@.len(),
        forall|j: int| 0 <= j < subs@.len() ==> *final(out)@[j] == #[trigger] subs@[j],
{
    let mut i: usize = 0;
    while i < subs.len()
        invariant
            i <= subs.len(),
            out@.len() == i,
            forall|j: int| 0 <= j < i ==> *out@[j] == #[trigger] subs@[j],
        decreases subs.len() - i,
    {
        out.push(&subs[i]);
        i = i + 1;
    }
}

/// `a` is at least as severe as `b`.
fn at_least_as_severe(a: &ComplexityClass, b: &ComplexityClass) -> (r: bool)
    ensures
        r == (rank_spec(*a) >= rank_spec(*b)),
{
    match severity(a, b) {
        Ordering::Less => false,
        Ordering::Equal => true,
        Ordering::Greater => true,
    }
}

/// Severity rank of a complexity class (`Linear` < `Polynomial(k)` by `k` <
/// `Exponential`).
fn rank(c: &ComplexityClass) -> (r: u64)
    ensures
        r == rank_spec(*c),
{
    match c {
        ComplexityClass::Linear => 0,
        ComplexityClass::Polynomial(k) => 1 + (*k as u64),
        ComplexityClass::Exponential => u64::MAX,
    }
}

/// Ordering on complexity classes by severity (Linear < Polynomial < Exponential).
pub fn severity(a: &ComplexityClass, b: &ComplexityClass) -> (o: Ordering)
    ensures
        (o == Ordering::Less) == (rank_spec(*a) < rank_spec(*b)),
        (o == Ordering::Equal) == (rank_spec(*a) == rank_spec(*b)),
        (o == Ordering::Greater) == (rank_spec(*a) > rank_spec(*b)),
{
    let ra = rank(a);
    let rb = rank(b);
    if ra < rb {
        Ordering::Less
    } else if ra == rb {
        Ordering::Equal
    } else {
        Ordering::Greater
    }
}

/// An empty loop anywhere in a pattern is an empty loop of the pattern.
pub proof fn lemma_empty_loop_occurs(s: Node, node: Node)
    requires
        occurs_in(s, node),
        empty_loop_here(s),
    ensures
        empty_loop_spec(node),
    decreases node,
{
    if s != node {
        match node {
            Node::Repeat { min, max, sub } => {
                lemma_body_decreases(node, min, max, sub);
                lemma_empty_loop_occurs(s, *sub);
            },
            Node::Group(sub) => {
                lemma_empty_loop_occurs(s, *sub);
            },
            Node::Concat(subs) => {
                let i = choose|i: int| 0 <= i < subs.len() && occurs_in(s, #[trigger] subs@[i]);
                lemma_child_decreases(node, subs, i);
                lemma_empty_loop_occurs(s, subs@[i]);
            },
            Node::Alternation(subs) => {
                let i = choose|i: int| 0 <= i < subs.len() && occurs_in(s, #[trigger] subs@[i]);
                lemma_child_decreases(node, subs, i);
                lemma_empty_loop_occurs(s, subs@[i]);
            },
            _ => {},
        }
    }
}

/// An empty loop of a pattern is an empty loop somewhere in it.
pub proof fn lemma_empty_loop_found(node: Node)
    requires
        empty_loop_spec(node),
    ensures
        exists|s: Node| #[trigger] occurs_in(s, node) && empty_loop_here(s),
    decreases node,
{
    if empty_loop_here(node) {
        assert(occurs_in(node, node));
    } else {
        match node {
            Node::Repeat { min, max, sub } => {
                lemma_body_decreases(node, min, max, sub);
                lemma_empty_loop_found(*sub);
                let s = choose|s: Node| #[trigger] occurs_in(s, *sub) && empty_loop_here(s);
                assert(occurs_in(s, node));
            },
            Node::Group(sub) => {
                lemma_empty_loop_found(*sub);
                let s = choose|s: Node| #[trigger] occurs_in(s, *sub) && empty_loop_here(s);
                assert(occurs_in(s, node));
            },
            Node::Concat(subs) => {
                let i = choose|i: int| 0 <= i < subs.len() && empty_loop_spec(#[trigger] subs@[i]);
                lemma_child_decreases(node, subs, i);
                lemma_empty_loop_found(subs@[i]);
                let s = choose|s: Node| #[trigger] occurs_in(s, subs@[i]) && empty_loop_here(s);
                assert(occurs_in(s, node));
            },
            Node::Alternation(subs) => {
                let i = choose|i: int| 0 <= i < subs.len() && empty_loop_spec(#[trigger] subs@[i]);
                lemma_child_decreases(node, subs, i);
                lemma_empty_loop_found(subs@[i]);
                let s = choose|s: Node| #[trigger] occurs_in(s, subs@[i]) && empty_loop_here(s);
                assert(occurs_in(s, node));
            },
            _ => {},
        }
    }
}

} // verus!
