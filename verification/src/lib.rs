//! rxray: deterministic regex worst-case complexity (ReDoS) analysis.
//!
//! Classifies a regex pattern's worst-case match complexity under
//! *backtracking* semantics as [`ComplexityClass::Linear`],
//! [`ComplexityClass::Polynomial`] or [`ComplexityClass::Exponential`], for a
//! target [`Engine`].
use vstd::prelude::*;

pub mod accept;
pub mod ambiguity;
pub mod cli;
pub mod eda;
pub mod engine;
pub mod graph;
pub mod lang;
pub mod ida;
pub mod nfa;
pub mod prefix;
pub mod simulate;
pub mod synth;
pub mod syntax;
pub mod text;

pub use engine::{Engine, EngineCaps};
pub use synth::AttackString;

use crate::ambiguity::{
    classes, rank_spec, empty_loop_here, empty_loop_spec, has_empty_loop_eda, lemma_empty_loop_found, lemma_empty_loop_occurs,
    nonempty_spec, worst, worst_spec,
};
use crate::eda::{eda_outcome, eda_work_bound, has_eda, has_eda_spec};
use crate::engine::caps_of;
use crate::ida::{chain_degree_spec, has_ida_spec, ida_outcome, ida_pairs_below, ida_work_bound, lemma_found_degree, polynomial_degree};
use crate::nfa::{build, canonical, est, estimate_states, lemma_estimate_tight, lemma_thompson_size, sat, thompson};
use crate::prefix::{leads_to_reader, prefixes_ok, pump_prefixes};
use crate::synth::{
    alphabet_spec, attack_input, blows_up, breakers_spec, first_attack, lemma_first_attack_verified, synth_answer,
    synthesize, verified_attack,
};
use crate::syntax::{ascii_parse, occurs_in, parse_hir, Node};
use crate::lang::{in_language, lemma_nonempty_word, lemma_nullable_matches_empty, lemma_occurs_wf};
use crate::text::{decimal, decimal_string};

verus! {

/// NFA-state ceiling above which a pattern is `TooComplex` to analyze.
pub const MAX_NFA_STATES: usize = 2000;

/// Worst-case match complexity of a pattern under backtracking semantics.
#[derive(Debug, Clone, Copy, PartialEq, Eq, Structural)]
pub enum ComplexityClass {
    /// O(n): no catastrophic backtracking possible.
    Linear,
    /// O(n^k): `k` chained ambiguous structures (infinite degree of ambiguity).
    Polynomial(u32),
    /// O(2^n): nested ambiguity (exponential degree of ambiguity).
    Exponential,
}

/// The kind of ambiguity a [`Finding`] identifies.
#[derive(Debug, Clone, Copy, PartialEq, Eq, Structural)]
pub enum AmbiguityKind {
    /// Exponential degree of ambiguity (e.g. `(a+)+`).
    Eda,
    /// Infinite degree of ambiguity, polynomial (e.g. `a*a*`).
    Ida,
}

/// A single source of backtracking blowup located within a pattern.
#[derive(Debug, Clone, PartialEq, Eq)]
pub struct Finding {
    pub class: ComplexityClass,
    pub kind: AmbiguityKind,
    pub explanation: String,
}

/// The result of [`analyze`].
#[derive(Debug, Clone, PartialEq, Eq)]
pub struct Report {
    pub engine: Engine,
    /// Worst complexity across all findings (`Linear` if none).
    pub worst: ComplexityClass,
    pub findings: Vec<Finding>,
}

/// Why [`analyze`] could not produce a report.
#[derive(Debug)]
pub enum AnalyzeError {
    /// The pattern did not parse as a regex. Boxed: `regex_syntax::Error` is large.
    Parse(Box<regex_syntax::Error>),
    /// The pattern's expanded NFA would be too large to analyze (e.g. huge
    /// bounded repetitions). Skipped rather than reported as a false "safe".
    TooComplex { estimated_states: usize },
}

/// The message of a `TooComplex` error for `n` estimated states.
pub open spec fn too_complex_message(n: nat) -> Seq<char> {
    "pattern too complex to analyze (≈"@ + decimal(n) + " NFA states)"@
}

impl AnalyzeError {
    /// A human-readable description of the error.
    pub fn message(&self) -> (s: String)
        ensures
            self matches AnalyzeError::TooComplex { estimated_states } ==> s@ == too_complex_message(estimated_states as nat),
            self matches AnalyzeError::Parse(e) ==> exists|d: String|
                vstd::string::to_string_from_display_ensures::<Box<regex_syntax::Error>>(&e, d)
                    && s@ == "pattern failed to parse: "@ + d@,
    {
        match self {
            AnalyzeError::Parse(e) => {
                let mut s = String::from_str("pattern failed to parse: ");
                let detail = e.to_string();
                s.append(detail.as_str());
                assert(vstd::string::to_string_from_display_ensures::<Box<regex_syntax::Error>>(e, detail));
                s
            },
            AnalyzeError::TooComplex { estimated_states } => {
                let mut s = String::from_str("pattern too complex to analyze (≈");
                let num = decimal_string(*estimated_states as u64);
                s.append(num.as_str());
                s.append(" NFA states)");
                s
            },
        }
    }
}

/// Explanation attached to an exponential finding.
pub open spec fn eda_explanation() -> Seq<char> {
    "two distinct match paths read the same pumpable input (exponential backtracking)"@
}

/// Explanation attached to a polynomial finding of degree `d`.
pub open spec fn ida_explanation(d: nat) -> Seq<char> {
    "super-linear backtracking: polynomial O(n^"@ + decimal(d) + ")"@
}

/// The worst class that a detector outcome amounts to.
pub open spec fn outcome_class(is_eda: bool, degree: Option<u32>) -> ComplexityClass {
    if is_eda {
        ComplexityClass::Exponential
    } else {
        match degree {
            Some(d) => ComplexityClass::Polynomial(d),
            None => ComplexityClass::Linear,
        }
    }
}

/// `fs` are the findings reported for a detector outcome: one exponential
/// finding, or else one polynomial finding, or else none.
pub open spec fn findings_match(fs: Seq<Finding>, is_eda: bool, degree: Option<u32>) -> bool {
    if is_eda {
        &&& fs.len() == 1
        &&& fs[0].class == ComplexityClass::Exponential
        &&& fs[0].kind == AmbiguityKind::Eda
        &&& fs[0].explanation@ == eda_explanation()
    } else {
        match degree {
            Some(d) => {
                &&& fs.len() == 1
                &&& fs[0].class == ComplexityClass::Polynomial(d)
                &&& fs[0].kind == AmbiguityKind::Ida
                &&& fs[0].explanation@ == ida_explanation(d as nat)
            },
            None => fs.len() == 0,
        }
    }
}

/// What the detectors answer for `node`: exponential ambiguity when the
/// product-automaton search finds it ([`eda_outcome`]) or the pattern has an
/// empty loop; otherwise the degree read off the IDA pairs that the pair search
/// finds ([`ida_outcome`]). Both searches run in a fixed order with a fixed
/// budget, so the answers are functions of the pattern. Exponential ambiguity
/// is reported only where it exists, and always where the search did not give
/// up; the pairs found are the IDA pairs before some point of the search order,
/// all of them where the search did not give up.
pub open spec fn detector_answers(node: Node, is_eda: bool, degree: Option<u32>) -> bool {
    let m = thompson(node);
    &&& is_eda == (eda_outcome(m).0 || empty_loop_spec(node))
    &&& degree == if is_eda {
        None
    } else {
        chain_degree_spec(m, ida_outcome(m, false).0)
    }
    &&& is_eda ==> has_eda_spec(m) || empty_loop_spec(node)
    &&& !eda_outcome(m).1 && has_eda_spec(m) ==> is_eda
    &&& m.len() <= 128 && has_eda_spec(m) ==> is_eda
    &&& m.len() <= eda::MAX_STATES && eda_work_bound(m) < eda::VISIT_CAP && has_eda_spec(m) ==> is_eda
    &&& !is_eda ==> exists|t: int| 0 <= t <= m.len() * m.len() && degree == chain_degree_spec(m, #[trigger] ida_pairs_below(m, t))
    &&& !is_eda && !ida_outcome(m, false).1 ==> degree == chain_degree_spec(m, ida_pairs_below(m, m.len() * m.len()))
    &&& !is_eda && m.len() <= ida::MAX_STATES && ida_work_bound(m) < ida::VISIT_CAP ==> degree == chain_degree_spec(
        m,
        ida_pairs_below(m, m.len() * m.len()),
    )
}

/// The findings for a detector outcome (see [`findings_match`]).
pub fn findings_for(is_eda: bool, degree: Option<u32>) -> (fs: Vec<Finding>)
    ensures
        findings_match(fs@, is_eda, degree),
        worst_spec(classes(fs@)) == outcome_class(is_eda, degree),
{
    let mut fs: Vec<Finding> = Vec::new();
    if is_eda {
        let explanation = String::from_str("two distinct match paths read the same pumpable input (exponential backtracking)");
        fs.push(Finding { class: ComplexityClass::Exponential, kind: AmbiguityKind::Eda, explanation });
    } else if let Some(d) = degree {
        let mut explanation = String::from_str("super-linear backtracking: polynomial O(n^");
        let num = decimal_string(d as u64);
        explanation.append(num.as_str());
        explanation.append(")");
        fs.push(Finding { class: ComplexityClass::Polynomial(d), kind: AmbiguityKind::Ida, explanation });
    }
    proof {
        let cs = classes(fs@);
        if fs@.len() == 1 {
            assert(cs.drop_last() =~= Seq::<ComplexityClass>::empty());
            assert(worst_spec(cs.drop_last()) == ComplexityClass::Linear);
            assert(cs.last() == fs@[0].class);
            assert(rank_spec(cs.last()) >= 0);
        } else {
            assert(cs =~= Seq::<ComplexityClass>::empty());
        }
    }
    fs
}

/// Parses `pattern` in ASCII mode (Unicode and UTF-8 modes off).
///
/// Complexity is structural, identical whether `\w`, `\d` and `.` are ASCII
/// or Unicode, but Unicode classes carry thousands of ranges that make the
/// product analyses' range intersections slow.
pub fn parse_ascii(pattern: &str) -> (r: Result<Node, AnalyzeError>)
    ensures
        r is Err <==> ascii_parse(pattern@) is None,
        r matches Ok(node) ==> ascii_parse(pattern@) == Some(node) && node.wf(),
        r matches Err(e) ==> e is Parse,
{
    match parse_hir(pattern) {
        Ok(node) => Ok(node),
        Err(e) => Err(AnalyzeError::Parse(e)),
    }
}

/// The report [`analyze`] gives for a parsed pattern `node` on `engine`.
pub open spec fn node_report(node: Node, engine: Engine, r: Result<Report, AnalyzeError>) -> bool {
    &&& r matches Ok(rep) ==> rep.engine == engine && rep.worst == worst_spec(classes(rep.findings@))
    &&& if !caps_of(engine).backtracks {
        r matches Ok(rep) && rep.worst == ComplexityClass::Linear && rep.findings@.len() == 0
    } else if sat(est(node) as int) > MAX_NFA_STATES {
        r matches Err(AnalyzeError::TooComplex { estimated_states }) && estimated_states == sat(est(node) as int)
    } else {
        r matches Ok(rep) && exists|is_eda: bool, degree: Option<u32>|
            #[trigger] detector_answers(node, is_eda, degree) && findings_match(rep.findings@, is_eda, degree)
                && rep.worst == outcome_class(is_eda, degree)
    }
}

/// Statically analyze `pattern`'s worst-case complexity for `engine`.
///
/// Pure and static: never executes the regex.
pub fn analyze(pattern: &str, engine: Engine) -> (r: Result<Report, AnalyzeError>)
    ensures
        ascii_parse(pattern@) is None <==> r matches Err(AnalyzeError::Parse(_)),
        r matches Ok(rep) ==> rep.engine == engine && rep.worst == worst_spec(classes(rep.findings@)),
        ascii_parse(pattern@) matches Some(node) ==> node_report(node, engine, r),
{
    let node = match parse_ascii(pattern) {
        Ok(node) => node,
        Err(e) => {
            return Err(e);
        },
    };
    analyze_node(&node, engine)
}

/// [`analyze`] on an already parsed pattern.
pub fn analyze_node(node: &Node, engine: Engine) -> (r: Result<Report, AnalyzeError>)
    requires
        node.wf(),
    ensures
        node_report(*node, engine, r),
        !(r matches Err(AnalyzeError::Parse(_))),
{
    // Linear-by-construction engines (Rust regex, Go RE2) cannot backtrack:
    // no pattern is ReDoS-vulnerable on them.
    if !engine.caps().backtracks {
        let findings: Vec<Finding> = Vec::new();
        assert(classes(findings@) =~= Seq::<ComplexityClass>::empty());
        return Ok(Report { engine, worst: ComplexityClass::Linear, findings });
    }
    // Patterns whose expanded NFA would explode are reported as TooComplex,
    // never as a false "Linear".
    let estimated_states = estimate_states(node);
    if estimated_states > MAX_NFA_STATES {
        return Err(AnalyzeError::TooComplex { estimated_states });
    }
    proof {
        lemma_thompson_size(*node);
    }
    let nfa = build(node);
    let is_eda = has_eda(&nfa) || has_empty_loop_eda(node);
    let degree = if is_eda {
        None
    } else {
        polynomial_degree(&nfa)
    };
    let findings = findings_for(is_eda, degree);
    let worst = worst(findings.as_slice());
    assert(detector_answers(*node, is_eda, degree));
    Ok(Report { engine, worst, findings })
}

/// `r` is what synthesis answers for `node` with `n` pump repetitions: with
/// the pump prefixes of the breadth-first search (each leading to a state that
/// reads its character), the first candidate, in order, verified to blow up,
/// reaching the step cap, or, where the pattern is not `exponential`, to grow
/// super-linearly. An exponential attack always reaches the step cap.
pub open spec fn synthesized(node: Node, n: u32, exponential: bool, r: Option<AttackString>) -> bool {
    let m = thompson(node);
    &&& prefixes_ok(m, pump_prefixes(m))
    &&& synth_answer(r, first_attack(m, exponential, alphabet_spec(node), n as nat, pump_prefixes(m), 0), n)
    &&& exponential && r is Some ==> blows_up(m, r->0.value@)
}

/// The attack [`attack`] gives for a parsed pattern `node` on `engine`.
pub open spec fn node_attack(node: Node, engine: Engine, n: u32, r: Option<AttackString>) -> bool {
    if !caps_of(engine).backtracks || sat(est(node) as int) > MAX_NFA_STATES {
        r is None
    } else {
        exists|is_eda: bool, degree: Option<u32>|
            #[trigger] detector_answers(node, is_eda, degree) && if is_eda || degree is Some {
                synthesized(node, n, is_eda, r)
            } else {
                r is None
            }
    }
}

/// Synthesize an input of `n` pump repetitions that triggers super-linear
/// backtracking for `pattern` on `engine`, or `None` if the pattern is not
/// vulnerable or no candidate could be verified.
///
/// Every returned attack is *verified*: a backtracking step counter confirms
/// it blows up (exponential: a failing attempt reaches [`synth::STEP_CAP`]
/// steps; polynomial: it reaches the cap too, or doubling the pumps more than
/// triples the steps). The pump
/// prefix is reconstructed so loops not at the pattern start are covered.
pub fn attack(pattern: &str, engine: Engine, n: u32) -> (r: Option<AttackString>)
    ensures
        !caps_of(engine).backtracks ==> r is None,
        ascii_parse(pattern@) is None ==> r is None,
        ascii_parse(pattern@) matches Some(node) ==> node_attack(node, engine, n, r),
{
    if !engine.caps().backtracks {
        return None;
    }
    let node = match parse_ascii(pattern) {
        Ok(node) => node,
        Err(_) => {
            return None;
        },
    };
    attack_node(&node, engine, n)
}

/// [`attack`] on an already parsed pattern.
pub fn attack_node(node: &Node, engine: Engine, n: u32) -> (r: Option<AttackString>)
    requires
        node.wf(),
    ensures
        node_attack(*node, engine, n, r),
{
    if !engine.caps().backtracks {
        return None;
    }
    if estimate_states(node) > MAX_NFA_STATES {
        return None;
    }
    proof {
        lemma_thompson_size(*node);
    }
    let nfa = build(node);
    let is_eda = has_eda(&nfa) || has_empty_loop_eda(node);
    let ghost mut degree: Option<u32> = None;
    let vulnerable = if is_eda {
        true
    } else {
        let d = polynomial_degree(&nfa);
        proof {
            degree = d;
        }
        d.is_some()
    };
    assert(detector_answers(*node, is_eda, degree));
    if !vulnerable {
        return None;
    }
    let r = synthesize(&nfa, node, n, is_eda);
    assert(synthesized(*node, n, is_eda, r));
    r
}

/// Every attack returned is verified: an input leading from the start to a
/// state that reads the pump, `n` copies of a pump character drawn from the
/// pattern, and a different breaker character; on it a backtracking full-match
/// attempt blows up, reaching the step cap, or, for a pattern that is not
/// exponential, doubling the pumps more than triples its steps.
pub proof fn lemma_attack_verified(node: Node, n: u32, exponential: bool, r: Option<AttackString>)
    requires
        synthesized(node, n, exponential, r),
        r is Some,
    ensures
        r->0.pumped_n == n,
        exponential ==> blows_up(thompson(node), r->0.value@),
        exists|i: int, j: int|
            0 <= i < alphabet_spec(node).len() && 0 <= j < 5 && alphabet_spec(node)[i] != breakers_spec()[j]
                && pump_prefixes(thompson(node))(alphabet_spec(node)[i]) is Some && leads_to_reader(
                thompson(node),
                pump_prefixes(thompson(node))(alphabet_spec(node)[i])->0,
                alphabet_spec(node)[i],
            ) && verified_attack(
                thompson(node),
                exponential,
                pump_prefixes(thompson(node))(alphabet_spec(node)[i])->0,
                #[trigger] alphabet_spec(node)[i],
                #[trigger] breakers_spec()[j],
                n as nat,
            ) && r->0.value@ == attack_input(
                pump_prefixes(thompson(node))(alphabet_spec(node)[i])->0,
                alphabet_spec(node)[i],
                breakers_spec()[j],
                n as nat,
            ),
{
    let m = thompson(node);
    lemma_first_attack_verified(m, exponential, alphabet_spec(node), n as nat, pump_prefixes(m), 0);
}

/// A polynomial finding is super-linear (degree at least 2), rests on a real
/// IDA pair, and is reported only where no empty loop exists and, where
/// [`eda_work_bound`] is within the budget, no exponential ambiguity either.
pub proof fn lemma_polynomial_finding(node: Node, d: u32)
    requires
        node.wf(),
        est(node) <= MAX_NFA_STATES,
        detector_answers(node, false, Some(d)),
    ensures
        d >= 2,
        has_ida_spec(thompson(node)),
        !empty_loop_spec(node),
        thompson(node).len() <= eda::MAX_STATES && eda_work_bound(thompson(node)) < eda::VISIT_CAP ==> !has_eda_spec(
            thompson(node),
        ),
{
    let m = thompson(node);
    lemma_thompson_size(node);
    assert(m.len() * m.len() <= 2000 * 2000) by (nonlinear_arith)
        requires m.len() <= 2000, 0 <= m.len();
    let t = choose|t: int| 0 <= t <= m.len() * m.len() && Some(d) == chain_degree_spec(m, #[trigger] ida_pairs_below(m, t));
    lemma_found_degree(m, t);
}

/// The detectors' answers are determined by the pattern, so [`analyze`] and
/// [`attack`] agree: the class reported is the same for any two answers, and an
/// attack is attempted exactly when that class is not `Linear`.
pub proof fn lemma_detectors_agree(node: Node, is_eda1: bool, deg1: Option<u32>, is_eda2: bool, deg2: Option<u32>)
    requires
        detector_answers(node, is_eda1, deg1),
        detector_answers(node, is_eda2, deg2),
    ensures
        is_eda1 == is_eda2,
        deg1 == deg2,
        outcome_class(is_eda1, deg1) == outcome_class(is_eda2, deg2),
        (is_eda2 || deg2 is Some) == (outcome_class(is_eda1, deg1) != ComplexityClass::Linear),
{
}

/// The report is a function of the pattern and of whether the engine
/// backtracks: two analyses of one pattern, on the same engine or on two engines
/// that both backtrack (or both do not), give the same verdict and findings.
pub proof fn lemma_report_deterministic(
    node: Node,
    e1: Engine,
    e2: Engine,
    r1: Result<Report, AnalyzeError>,
    r2: Result<Report, AnalyzeError>,
)
    requires
        node.wf(),
        caps_of(e1).backtracks == caps_of(e2).backtracks,
        node_report(node, e1, r1),
        node_report(node, e2, r2),
    ensures
        r1 is Ok <==> r2 is Ok,
        r1 matches Err(AnalyzeError::TooComplex { estimated_states: a }) ==> r2 matches Err(
            AnalyzeError::TooComplex { estimated_states: b },
        ) && a == b,
        r1 matches Ok(rep1) ==> r2 matches Ok(rep2) && {
            &&& rep1.engine == e1
            &&& rep2.engine == e2
            &&& rep1.worst == rep2.worst
            &&& rep1.findings.len() == rep2.findings.len()
            &&& forall|i: int|
                0 <= i < rep1.findings.len() ==> #[trigger] rep1.findings@[i].class == rep2.findings@[i].class
                    && rep1.findings@[i].kind == rep2.findings@[i].kind && rep1.findings@[i].explanation@
                    == rep2.findings@[i].explanation@
        },
{
    if caps_of(e1).backtracks && sat(est(node) as int) <= MAX_NFA_STATES {
        let (a1, d1) = choose|is_eda: bool, degree: Option<u32>|
            #[trigger] detector_answers(node, is_eda, degree) && findings_match(r1->Ok_0.findings@, is_eda, degree)
                && r1->Ok_0.worst == outcome_class(is_eda, degree);
        let (a2, d2) = choose|is_eda: bool, degree: Option<u32>|
            #[trigger] detector_answers(node, is_eda, degree) && findings_match(r2->Ok_0.findings@, is_eda, degree)
                && r2->Ok_0.worst == outcome_class(is_eda, degree);
        lemma_detectors_agree(node, a1, d1, a2, d2);
    }
}

/// An attack is offered only for a pattern that [`analyze`] reports as
/// vulnerable: where [`attack`] returns an input, the report's verdict is not
/// `Linear`.
pub proof fn lemma_attack_needs_vulnerable_report(
    node: Node,
    engine: Engine,
    n: u32,
    a: AttackString,
    r: Result<Report, AnalyzeError>,
)
    requires
        node.wf(),
        node_attack(node, engine, n, Some(a)),
        node_report(node, engine, r),
    ensures
        r matches Ok(rep) && rep.worst != ComplexityClass::Linear,
{
    let (a1, d1) = choose|is_eda: bool, degree: Option<u32>|
        #[trigger] detector_answers(node, is_eda, degree) && if is_eda || degree is Some {
            synthesized(node, n, is_eda, Some(a))
        } else {
            false
        };
    let (a2, d2) = choose|is_eda: bool, degree: Option<u32>|
        #[trigger] detector_answers(node, is_eda, degree) && findings_match(r->Ok_0.findings@, is_eda, degree)
            && r->Ok_0.worst == outcome_class(is_eda, degree);
    lemma_detectors_agree(node, a1, d1, a2, d2);
}

/// An unbounded repetition, anywhere in a pattern and whatever its minimum,
/// whose body matches both the empty string and some non-empty string makes
/// the pattern exponential on every backtracking engine: the loop can pad any
/// input with empty iterations. The report is `Exponential`, with one
/// exponential-ambiguity finding.
pub proof fn lemma_empty_loop_is_exponential(
    node: Node,
    min: u32,
    body: Node,
    w: Seq<char>,
    engine: Engine,
    r: Result<Report, AnalyzeError>,
)
    requires
        node.wf(),
        occurs_in(Node::Repeat { min, max: None, sub: Box::new(body) }, node),
        in_language(body, Seq::empty()),
        in_language(body, w),
        w.len() > 0,
        caps_of(engine).backtracks,
        sat(est(node) as int) <= MAX_NFA_STATES,
        node_report(node, engine, r),
    ensures
        r matches Ok(rep) && rep.worst == ComplexityClass::Exponential && rep.findings.len() == 1
            && rep.findings@[0].kind == AmbiguityKind::Eda && rep.findings@[0].class == ComplexityClass::Exponential,
{
    let s = Node::Repeat { min, max: None, sub: Box::new(body) };
    lemma_occurs_wf(s, node);
    assert(body.wf());
    lemma_nullable_matches_empty(body);
    lemma_nonempty_word(body, w);
    assert(empty_loop_here(s));
    lemma_empty_loop_occurs(s, node);
    let (a, d) = choose|is_eda: bool, degree: Option<u32>|
        #[trigger] detector_answers(node, is_eda, degree) && findings_match(r->Ok_0.findings@, is_eda, degree)
            && r->Ok_0.worst == outcome_class(is_eda, degree);
    assert(a);
}

/// A pattern of the parser's shape whose automaton has at most a quarter of
/// [`MAX_NFA_STATES`] states is always analyzed: it is never refused as too
/// complex, because the size estimate is within a factor of four of the
/// automaton's real size. A refusal, for any pattern, reports an estimate above
/// the limit that is never below the real size.
pub proof fn lemma_small_patterns_analyzed(node: Node, engine: Engine, r: Result<Report, AnalyzeError>)
    requires
        node.wf(),
        node_report(node, engine, r),
    ensures
        canonical(node) && 4 * thompson(node).len() <= MAX_NFA_STATES ==> r is Ok,
        r matches Err(AnalyzeError::TooComplex { estimated_states }) ==> estimated_states > MAX_NFA_STATES
            && (estimated_states < usize::MAX ==> thompson(node).len() <= estimated_states),
{
    lemma_thompson_size(node);
    if canonical(node) {
        lemma_estimate_tight(node);
    }
}

/// The empty-loop rule fires only where it should: a pattern has an empty
/// loop only if some unbounded repetition in it has a body that matches the
/// empty string and can also match a non-empty one.
pub proof fn lemma_empty_loop_sound(node: Node)
    requires
        node.wf(),
        empty_loop_spec(node),
    ensures
        exists|min: u32, body: Node|
            #[trigger] occurs_in(Node::Repeat { min, max: None, sub: Box::new(body) }, node) && in_language(body, Seq::empty())
                && nonempty_spec(body),
{
    lemma_empty_loop_found(node);
    let s = choose|s: Node| #[trigger] occurs_in(s, node) && empty_loop_here(s);
    let min = s->min;
    let body = *s->sub;
    lemma_occurs_wf(s, node);
    lemma_nullable_matches_empty(body);
    assert(s == Node::Repeat { min, max: None, sub: Box::new(body) });
    assert(occurs_in(Node::Repeat { min, max: None, sub: Box::new(body) }, node));
}

} // verus!
