//! Sound IDA (polynomial / Infinite Degree of Ambiguity) detection via the
//! triple product automaton.
//!
//! IDA (super-linear, polynomial backtracking) exists iff there are states
//! `p != q` and a non-empty string `v` with `p -v-> p`, `p -v-> q`, `q -v-> q`.
//! In the triple product `A^3` this is a non-empty path `(p,p,q) -> (p,q,q)`.
//! `p` is restricted to states reachable from the start and `q` to states that
//! reach the accept state, so dead sub-automata cannot produce false positives.
use vstd::prelude::*;

use std::collections::HashSet;

use crate::graph::{
    count_true, lemma_count_true_bound, lemma_distinct_count, lemma_reaches_closed, lemma_reaches_edge, lemma_reaches_refl, lemma_reaches_step, reaches,
    reaches_plus,
};
use crate::nfa::{
    total_moves, ef_has, ef_lists, ef_spec, epsfree_listing, epsfree_moves, in_ranges, intersect_ranges,
    is_epsfree_table, move_view, moves_view, nfa_graph, pairwise_overlaps, ranges_intersect, ranges_overlap,
    reach_backward, reach_forward, share_char, Nfa, NfaModel, Ranges,
};
use crate::syntax::ranges_wf;

verus! {

broadcast use vstd::std_specs::hash::group_hash_axioms;

/// A safety cap on triple-product exploration; hitting it answers `false`
/// (sound: never a false positive).
pub const VISIT_CAP: usize = 2_000_000;

/// Above this NFA size the triple product (cubically many nodes) is too
/// expensive; the detector then answers `false`.
pub const MAX_STATES: usize = 600;

/// The triple-product node of `(a, b, c)` among `n` states.
pub open spec fn tnode(n: int, a: int, b: int, c: int) -> int {
    (a * n + b) * n + c
}

/// Some character lies in all three range sets.
pub open spec fn share_char3(r1: Seq<(char, char)>, r2: Seq<(char, char)>, r3: Seq<(char, char)>) -> bool {
    exists|ch: char| #[trigger] in_ranges(r1, ch) && in_ranges(r2, ch) && in_ranges(r3, ch)
}

/// In the triple product, `(a, b, c)` moves to `(a2, b2, c2)`: the three copies
/// have epsilon-free moves, to `a2`, `b2` and `c2`, on one common character.
pub open spec fn triple_step(m: NfaModel, a: int, b: int, c: int, a2: int, b2: int, c2: int) -> bool {
    exists|r1: Seq<(char, char)>, r2: Seq<(char, char)>, r3: Seq<(char, char)>|
        #[trigger] ef_has(m, a, r1, a2) && #[trigger] ef_has(m, b, r2, b2) && #[trigger] ef_has(m, c, r3, c2)
            && share_char3(r1, r2, r3)
}

/// An edge of the triple product automaton, on encoded nodes.
pub open spec fn triple_edge(m: NfaModel, x: int, y: int) -> bool {
    let n = m.len();
    exists|a: int, b: int, c: int, a2: int, b2: int, c2: int|
        0 <= a < n && 0 <= b < n && 0 <= c < n && 0 <= a2 < n && 0 <= b2 < n && 0 <= c2 < n && x == tnode(
            n,
            a,
            b,
            c,
        ) && y == tnode(n, a2, b2, c2) && #[trigger] triple_step(m, a, b, c, a2, b2, c2)
}

pub open spec fn triple_graph(m: NfaModel) -> spec_fn(int, int) -> bool {
    |x: int, y: int| triple_edge(m, x, y)
}

/// `(p, q)` is an IDA pair: `p != q`, `p` is reachable from the start, `q`
/// reaches the accept state, and a non-empty string leads `p` to itself, `p` to
/// `q` and `q` to itself.
pub open spec fn ida_pair(m: NfaModel, p: int, q: int) -> bool {
    let n = m.len();
    &&& 0 <= p < n
    &&& 0 <= q < n
    &&& p != q
    &&& reaches(nfa_graph(m), m.start, p)
    &&& reaches(nfa_graph(m), q, m.accept)
    &&& reaches_plus(triple_graph(m), tnode(n, p, p, q), tnode(n, p, q, q))
}

/// Infinite degree of ambiguity: some IDA pair exists.
pub open spec fn has_ida_spec(m: NfaModel) -> bool {
    exists|p: int, q: int| #[trigger] ida_pair(m, p, q)
}

/// The triple-product nodes a search from `from` can meet: `from` itself and
/// the nodes reachable from it over one or more edges.
pub open spec fn triple_closure(m: NfaModel, from: int) -> Seq<bool> {
    let n = m.len();
    Seq::new((n * n * n) as nat, |x: int| x == from || reaches_plus(triple_graph(m), from, x))
}

/// The most steps one triple-product node can cost: `E * E * (E + 1)`, where
/// `E`, the number of labeled moves, bounds every state's epsilon-free moves.
pub open spec fn node_work(m: NfaModel) -> int {
    let e = total_moves(m) as int;
    e * e * (e + 1)
}

/// `(p, q)` is tried by the search: `p != q`, `p` is reachable from the start
/// and `q` reaches the accept state.
pub open spec fn ida_candidate(m: NfaModel, p: int, q: int) -> bool {
    p != q && reaches(nfa_graph(m), m.start, p) && reaches(nfa_graph(m), q, m.accept)
}

/// An upper bound on the steps the search spends on the candidates `(p, q)`
/// with `p * n + q < t`: for each, the nodes it can meet times [`node_work`].
pub open spec fn ida_work_below(m: NfaModel, t: int) -> int
    decreases t,
{
    if t <= 0 {
        0
    } else {
        let n = m.len();
        let p = (t - 1) / n;
        let q = (t - 1) % n;
        ida_work_below(m, t - 1) + if ida_candidate(m, p, q) {
            count_true(triple_closure(m, tnode(n, p, p, q))) * node_work(m)
        } else {
            0
        }
    }
}

proof fn lemma_ida_work_mono(m: NfaModel, t1: int, t2: int)
    requires
        0 <= t1 <= t2,
    ensures
        0 <= ida_work_below(m, t1) <= ida_work_below(m, t2),
    decreases t2,
{
    let e = total_moves(m) as int;
    assert(node_work(m) >= 0) by (nonlinear_arith)
        requires e >= 0, node_work(m) == e * e * (e + 1);
    if t2 > 0 {
        let n = m.len();
        let p = (t2 - 1) / n;
        let q = (t2 - 1) % n;
        let c = count_true(triple_closure(m, tnode(n, p, p, q)));
        assert(c * node_work(m) >= 0) by (nonlinear_arith)
            requires c >= 0, node_work(m) >= 0;
        if t1 < t2 {
            lemma_ida_work_mono(m, t1, t2 - 1);
        } else {
            lemma_ida_work_mono(m, t1 - 1, t2 - 1);
        }
    }
}

/// The IDA pairs `(p, q)` with `p * n + q < t` (`n` states), in increasing
/// order of `p * n + q`: the order in which [`ida_search`] tries them.
pub open spec fn ida_pairs_below(m: NfaModel, t: int) -> Seq<(usize, usize)>
    decreases t,
{
    if t <= 0 {
        Seq::empty()
    } else {
        let prev = ida_pairs_below(m, t - 1);
        let p = (t - 1) / m.len();
        let q = (t - 1) % m.len();
        if ida_pair(m, p, q) {
            prev.push((p as usize, q as usize))
        } else {
            prev
        }
    }
}

/// Position of a candidate pair in search order.
pub open spec fn pair_index(n: int, e: (usize, usize)) -> int {
    e.0 * n + e.1
}

proof fn lemma_pair_index(n: int, p: int, q: int)
    requires
        0 < n,
        0 <= p,
        0 <= q < n,
    ensures
        (p * n + q) / n == p,
        (p * n + q) % n == q,
{
    vstd::arithmetic::div_mod::lemma_fundamental_div_mod_converse(p * n + q, n, p, q);
}

proof fn lemma_ida_pairs_below(m: NfaModel, t: int)
    requires
        0 < m.len() < usize::MAX,
        0 <= t,
    ensures
        ida_pairs_below(m, t).len() <= t,
        forall|k: int| 0 <= k < ida_pairs_below(m, t).len() ==> #[trigger] ida_pair(m, ida_pairs_below(m, t)[k].0 as int, ida_pairs_below(m, t)[k].1 as int),
        forall|k: int| 0 <= k < ida_pairs_below(m, t).len() ==> pair_index(m.len(), #[trigger] ida_pairs_below(m, t)[k]) < t,
        forall|k1: int, k2: int| 0 <= k1 < k2 < ida_pairs_below(m, t).len() ==> pair_index(m.len(), #[trigger] ida_pairs_below(m, t)[k1]) < pair_index(m.len(), #[trigger] ida_pairs_below(m, t)[k2]),
        ida_pairs_below(m, t).no_duplicates(),
        forall|p: int, q: int| #[trigger] ida_pair(m, p, q) && p * m.len() + q < t ==> ida_pairs_below(m, t).contains((p as usize, q as usize)),
    decreases t,
{
    let n = m.len();
    let s = ida_pairs_below(m, t);
    if t > 0 {
        lemma_ida_pairs_below(m, t - 1);
        let prev = ida_pairs_below(m, t - 1);
        let x = t - 1;
        let p = x / n;
        let q = x % n;
        vstd::arithmetic::div_mod::lemma_fundamental_div_mod(x, n);
        vstd::arithmetic::div_mod::lemma_div_pos_is_pos(x, n);
        vstd::arithmetic::div_mod::lemma_mod_pos_bound(x, n);
        assert(p * n + q == x) by (nonlinear_arith)
            requires x == n * (x / n) + x % n, p == x / n, q == x % n;
        if ida_pair(m, p, q) {
            assert(s == prev.push((p as usize, q as usize)));
            assert(p as usize == p && q as usize == q);
            assert(pair_index(n, (p as usize, q as usize)) == x);
            assert(ida_pair(m, s[s.len() - 1].0 as int, s[s.len() - 1].1 as int));
        } else {
            assert(s == prev);
        }
        assert forall|k1: int, k2: int| 0 <= k1 < k2 < s.len() implies pair_index(n, #[trigger] s[k1]) < pair_index(n, #[trigger] s[k2]) by {
            if k2 < prev.len() {
                assert(s[k1] == prev[k1] && s[k2] == prev[k2]);
            } else {
                assert(s[k1] == prev[k1]);
            }
        }
        assert forall|p2: int, q2: int| #[trigger] ida_pair(m, p2, q2) && p2 * n + q2 < t implies s.contains((p2 as usize, q2 as usize)) by {
            if p2 * n + q2 == x {
                lemma_pair_index(n, p2, q2);
                assert(s[s.len() - 1] == (p2 as usize, q2 as usize));
            } else {
                let k = choose|k: int| 0 <= k < prev.len() && prev[k] == (p2 as usize, q2 as usize);
                assert(s[k] == prev[k]);
            }
        }
    }
}

proof fn lemma_tnode(n: int, a: int, b: int, c: int)
    requires
        0 <= a < n,
        0 <= b < n,
        0 <= c < n,
    ensures
        0 <= tnode(n, a, b, c) < n * n * n,
        tnode(n, a, b, c) / (n * n) == a,
        (tnode(n, a, b, c) / n) % n == b,
        tnode(n, a, b, c) % n == c,
{
    let x = (a * n + b) * n + c;
    assert(0 <= a * n + b < n * n) by (nonlinear_arith)
        requires 0 <= a < n, 0 <= b < n;
    assert(0 <= x < n * n * n) by (nonlinear_arith)
        requires 0 <= a * n + b < n * n, 0 <= c < n, x == (a * n + b) * n + c;
    vstd::arithmetic::div_mod::lemma_fundamental_div_mod_converse(x, n, a * n + b, c);
    vstd::arithmetic::div_mod::lemma_fundamental_div_mod_converse(a * n + b, n, a, b);
    assert(x == a * (n * n) + (b * n + c)) by (nonlinear_arith)
        requires x == (a * n + b) * n + c;
    assert(0 <= b * n + c < n * n) by (nonlinear_arith)
        requires 0 <= b < n, 0 <= c < n;
    vstd::arithmetic::div_mod::lemma_fundamental_div_mod_converse(x, n * n, a, b * n + c);
}

proof fn lemma_tdecode(n: int, x: int)
    requires
        0 < n,
        0 <= x < n * n * n,
    ensures
        0 <= x / (n * n) < n,
        0 <= (x / n) % n < n,
        0 <= x % n < n,
        x == tnode(n, x / (n * n), (x / n) % n, x % n),
{
    let a = x / (n * n);
    let y = x / n;
    let b = y % n;
    let c = x % n;
    assert(n * n > 0) by (nonlinear_arith)
        requires n > 0;
    vstd::arithmetic::div_mod::lemma_fundamental_div_mod(x, n);
    vstd::arithmetic::div_mod::lemma_fundamental_div_mod(y, n);
    vstd::arithmetic::div_mod::lemma_mod_pos_bound(x, n);
    vstd::arithmetic::div_mod::lemma_mod_pos_bound(y, n);
    vstd::arithmetic::div_mod::lemma_div_pos_is_pos(x, n);
    vstd::arithmetic::div_mod::lemma_div_denominator(x, n, n);
    assert(a == y / n);
    vstd::arithmetic::div_mod::lemma_div_pos_is_pos(y, n);
    assert(x == n * (n * (y / n) + b) + c);
    assert(a < n) by (nonlinear_arith)
        requires x == n * (n * a + b) + c, 0 <= b, 0 <= c, x < n * n * n, 0 < n, a == y / n, 0 <= a;
    assert(x == (a * n + b) * n + c) by (nonlinear_arith)
        requires x == n * (n * a + b) + c;
}

/// The triple-product edges out of `(a, b, c)`, read off the epsilon-free table.
pub open spec fn table3_step(
    ef: Seq<Vec<(Ranges, usize)>>,
    n: int,
    a: int,
    b: int,
    c: int,
    i: int,
    j: int,
    k: int,
    y: int,
) -> bool {
    &&& 0 <= i < ef[a].len()
    &&& 0 <= j < ef[b].len()
    &&& 0 <= k < ef[c].len()
    &&& share_char3(ef[a]@[i].0@, ef[b]@[j].0@, ef[c]@[k].0@)
    &&& y == tnode(n, ef[a]@[i].1 as int, ef[b]@[j].1 as int, ef[c]@[k].1 as int)
}

proof fn lemma_table3_edge(m: NfaModel, ef: Seq<Vec<(Ranges, usize)>>, a: int, b: int, c: int, y: int)
    requires
        m.wf(),
        is_epsfree_table(m, ef),
        0 <= a < m.len(),
        0 <= b < m.len(),
        0 <= c < m.len(),
    ensures
        triple_edge(m, tnode(m.len(), a, b, c), y) <==> exists|i: int, j: int, k: int|
            #[trigger] table3_step(ef, m.len(), a, b, c, i, j, k, y),
{
    let n = m.len();
    lemma_tnode(n, a, b, c);
    if triple_edge(m, tnode(n, a, b, c), y) {
        let (a0, b0, c0, a2, b2, c2) = choose|a0: int, b0: int, c0: int, a2: int, b2: int, c2: int|
            0 <= a0 < n && 0 <= b0 < n && 0 <= c0 < n && 0 <= a2 < n && 0 <= b2 < n && 0 <= c2 < n && tnode(n, a, b, c)
                == tnode(n, a0, b0, c0) && y == tnode(n, a2, b2, c2) && #[trigger] triple_step(m, a0, b0, c0, a2, b2, c2);
        lemma_tnode(n, a0, b0, c0);
        let (r1, r2, r3) = choose|r1: Seq<(char, char)>, r2: Seq<(char, char)>, r3: Seq<(char, char)>|
            #[trigger] ef_has(m, a0, r1, a2) && #[trigger] ef_has(m, b0, r2, b2) && #[trigger] ef_has(m, c0, r3, c2)
                && share_char3(r1, r2, r3);
        assert(ef_lists(ef, a, r1, a2));
        assert(ef_lists(ef, b, r2, b2));
        assert(ef_lists(ef, c, r3, c2));
        let i = choose|i: int| 0 <= i < moves_view(ef[a]@).len() && moves_view(ef[a]@)[i] == (r1, a2 as usize);
        let j = choose|j: int| 0 <= j < moves_view(ef[b]@).len() && moves_view(ef[b]@)[j] == (r2, b2 as usize);
        let k = choose|k: int| 0 <= k < moves_view(ef[c]@).len() && moves_view(ef[c]@)[k] == (r3, c2 as usize);
        assert(move_view(ef[a]@[i]) == (r1, a2 as usize));
        assert(move_view(ef[b]@[j]) == (r2, b2 as usize));
        assert(move_view(ef[c]@[k]) == (r3, c2 as usize));
        assert(table3_step(ef, n, a, b, c, i, j, k, y));
    }
    if exists|i: int, j: int, k: int| #[trigger] table3_step(ef, n, a, b, c, i, j, k, y) {
        let (i, j, k) = choose|i: int, j: int, k: int| #[trigger] table3_step(ef, n, a, b, c, i, j, k, y);
        let r1 = ef[a]@[i].0@;
        let r2 = ef[b]@[j].0@;
        let r3 = ef[c]@[k].0@;
        let a2 = ef[a]@[i].1 as int;
        let b2 = ef[b]@[j].1 as int;
        let c2 = ef[c]@[k].1 as int;
        assert(moves_view(ef[a]@)[i] == (r1, a2 as usize));
        assert(moves_view(ef[b]@)[j] == (r2, b2 as usize));
        assert(moves_view(ef[c]@)[k] == (r3, c2 as usize));
        assert(ef_lists(ef, a, r1, a2));
        assert(ef_lists(ef, b, r2, b2));
        assert(ef_lists(ef, c, r3, c2));
        assert(triple_step(m, a, b, c, a2, b2, c2));
        assert(ef[a]@[i].1 < n);
        assert(ef[b]@[j].1 < n);
        assert(ef[c]@[k].1 < n);
    }
}

proof fn lemma_plus_step(g: spec_fn(int, int) -> bool, a: int, b: int, c: int)
    requires
        a == b || reaches_plus(g, a, b),
        g(b, c),
    ensures
        reaches_plus(g, a, c),
{
    if a == b {
        lemma_reaches_refl(g, c);
    } else {
        let x = choose|x: int| #[trigger] g(a, x) && reaches(g, x, b);
        lemma_reaches_step(g, x, b, c);
    }
}

proof fn lemma_work_within(e: int, ee: int, w: int, i: int, j: int, k: int)
    by (nonlinear_arith)
    requires
        0 <= e,
        ee == e * (e + 1),
        w == e * ee,
        0 <= i < e,
        0 <= j < e,
        0 <= k < e,
    ensures
        i * ee + j * (e + 1) + k + 2 <= w,
{
}

/// The work of the nodes taken off the queue so far is within the bound for
/// all nodes a search from `start` can meet.
proof fn lemma_work_total(m: NfaModel, start: int, head: int, w: int, queue: Seq<usize>)
    requires
        1 <= head <= queue.len(),
        0 <= w,
        0 <= m.len() * m.len() * m.len() <= usize::MAX,
        queue.no_duplicates(),
        forall|i: int| 0 <= i < queue.len() ==> #[trigger] queue[i] < m.len() * m.len() * m.len() && (queue[i] == start
            || reaches_plus(triple_graph(m), start, queue[i] as int)),
    ensures
        (head - 1) * w + w <= count_true(triple_closure(m, start)) * w,
{
    let nnn = m.len() * m.len() * m.len();
    let p = |x: int| x == start || reaches_plus(triple_graph(m), start, x);
    lemma_distinct_count(queue, nnn, p);
    assert(Seq::new(nnn as nat, p) =~= triple_closure(m, start));
    let c = count_true(triple_closure(m, start));
    assert((head - 1) * w + w <= c * w) by (nonlinear_arith)
        requires head <= queue.len(), queue.len() <= c, 0 <= w;
}

/// The moves `cs[k..]` of the third copy after the first two read a common
/// character in `r12` and moved to `a2` and `b2`, with `budget` steps left: one
/// step each; the target ends the search, a new node is marked and queued.
/// The outcome is `0` to go on, `1` when the target was met and `2` when the
/// budget ran out, with the nodes seen, the queue and the budget left.
pub open spec fn tr_third(
    n: int,
    a2: usize,
    b2: usize,
    r12: Seq<(char, char)>,
    cs: Seq<(Seq<(char, char)>, usize)>,
    k: int,
    target: int,
    seen: Set<usize>,
    queue: Seq<usize>,
    budget: nat,
) -> (int, Set<usize>, Seq<usize>, nat)
    decreases cs.len() - k,
{
    if k < 0 || k >= cs.len() {
        (0, seen, queue, budget)
    } else if budget == 0 {
        (2, seen, queue, budget)
    } else if ranges_overlap(r12, cs[k].0) {
        let next = tnode(n, a2 as int, b2 as int, cs[k].1 as int);
        if next == target {
            (1, seen, queue, (budget - 1) as nat)
        } else if seen.contains(next as usize) {
            tr_third(n, a2, b2, r12, cs, k + 1, target, seen, queue, (budget - 1) as nat)
        } else {
            tr_third(n, a2, b2, r12, cs, k + 1, target, seen.insert(next as usize), queue.push(next as usize), (budget - 1) as nat)
        }
    } else {
        tr_third(n, a2, b2, r12, cs, k + 1, target, seen, queue, (budget - 1) as nat)
    }
}

/// The moves `bs[j..]` of the second copy paired with the move `ar` of the
/// first: one step each, and, where the two share a character, the third
/// copy's moves.
pub open spec fn tr_second(
    n: int,
    ar: (Seq<(char, char)>, usize),
    bs: Seq<(Seq<(char, char)>, usize)>,
    cs: Seq<(Seq<(char, char)>, usize)>,
    j: int,
    target: int,
    seen: Set<usize>,
    queue: Seq<usize>,
    budget: nat,
) -> (int, Set<usize>, Seq<usize>, nat)
    decreases bs.len() - j,
{
    if j < 0 || j >= bs.len() {
        (0, seen, queue, budget)
    } else if budget == 0 {
        (2, seen, queue, budget)
    } else {
        let r12 = pairwise_overlaps(ar.0, bs[j].0, ar.0.len() as int);
        if r12.len() > 0 {
            let t = tr_third(n, ar.1, bs[j].1, r12, cs, 0, target, seen, queue, (budget - 1) as nat);
            if t.0 != 0 {
                t
            } else {
                tr_second(n, ar, bs, cs, j + 1, target, t.1, t.2, t.3)
            }
        } else {
            tr_second(n, ar, bs, cs, j + 1, target, seen, queue, (budget - 1) as nat)
        }
    }
}

/// The moves `as_[i..]` of the first copy, each with all of the second's.
pub open spec fn tr_first(
    n: int,
    as_: Seq<(Seq<(char, char)>, usize)>,
    bs: Seq<(Seq<(char, char)>, usize)>,
    cs: Seq<(Seq<(char, char)>, usize)>,
    i: int,
    target: int,
    seen: Set<usize>,
    queue: Seq<usize>,
    budget: nat,
) -> (int, Set<usize>, Seq<usize>, nat)
    decreases as_.len() - i,
{
    if i < 0 || i >= as_.len() {
        (0, seen, queue, budget)
    } else {
        let t = tr_second(n, as_[i], bs, cs, 0, target, seen, queue, budget);
        if t.0 != 0 {
            t
        } else {
            tr_first(n, as_, bs, cs, i + 1, target, t.1, t.2, t.3)
        }
    }
}

/// Breadth-first search of the triple product from the queued node at `head`
/// on, for at most `fuel` nodes: whether the target was met, and the budget
/// left.
pub open spec fn tr_run(
    ef: Seq<Seq<(Seq<(char, char)>, usize)>>,
    n: int,
    target: int,
    seen: Set<usize>,
    queue: Seq<usize>,
    head: int,
    budget: nat,
    fuel: nat,
) -> (bool, nat)
    decreases fuel,
{
    if fuel == 0 || head < 0 || head >= queue.len() {
        (false, budget)
    } else {
        let cur = queue[head] as int;
        let t = tr_first(n, ef[cur / (n * n)], ef[(cur / n) % n], ef[cur % n], 0, target, seen, queue, budget);
        if t.0 == 1 {
            (true, t.3)
        } else if t.0 == 2 {
            (false, t.3)
        } else {
            tr_run(ef, n, target, t.1, t.2, head + 1, t.3, (fuel - 1) as nat)
        }
    }
}

/// What [`triple_reaches`] answers from `start` to `target` with `budget`, and
/// the budget it leaves.
pub open spec fn tr_spec(ef: Seq<Seq<(Seq<(char, char)>, usize)>>, n: int, start: int, target: int, budget: nat) -> (bool, nat) {
    tr_run(ef, n, target, set![start as usize], seq![start as usize], 0, budget, (2 * n * n * n + 1) as nat)
}

/// Is `target` reachable from `start` over one or more edges of the triple
/// product? Breadth-first search, one unit of `budget` per pair of moves
/// examined; when the budget runs out the answer is `false`.
#[verifier::rlimit(80)]
fn triple_reaches(
    epsfree: &Vec<Vec<(Ranges, usize)>>,
    n: usize,
    start: usize,
    target: usize,
    budget: &mut usize,
    Ghost(m): Ghost<NfaModel>,
    Ghost(e): Ghost<int>,
) -> (r: bool)
    requires
        m.wf(),
        m.len() == n,
        0 < n <= MAX_STATES,
        0 <= e,
        forall|s: int| 0 <= s < epsfree.len() ==> #[trigger] epsfree@[s].len() <= e,
        is_epsfree_table(m, epsfree@),
        forall|s: int, i: int| 0 <= s < epsfree.len() && 0 <= i < epsfree@[s].len() ==> ranges_wf(#[trigger] epsfree@[s]@[i].0@),
        start < n * n * n,
        target < n * n * n,
        forall|s: int| 0 <= s < epsfree.len() ==> #[trigger] epsfree_listing(m, s, epsfree@[s]@),
    ensures
        (r, *final(budget) as nat) == tr_spec(ef_spec(m), n as int, start as int, target as int, *old(budget) as nat),
        *final(budget) <= *old(budget),
        *old(budget) - *final(budget) <= count_true(triple_closure(m, start as int)) * (e * e * (e + 1)),
        r ==> *old(budget) > 0,
        r ==> reaches_plus(triple_graph(m), start as int, target as int),
        !r && *final(budget) > 0 ==> !reaches_plus(triple_graph(m), start as int, target as int),
{
    let ghost g = triple_graph(m);
    let ghost b0 = *budget;
    let ghost ee = e * (e + 1);
    let ghost w = e * ee;
    assert(w == e * e * (e + 1)) by (nonlinear_arith)
        requires w == e * ee, ee == e * (e + 1);
    assert(0 <= ee && 0 <= w) by (nonlinear_arith)
        requires 0 <= e, w == e * ee, ee == e * (e + 1);

    assert(n * n * n <= 600 * 600 * 600) by (nonlinear_arith)
        requires n <= 600;
    assert(n * n <= 600 * 600) by (nonlinear_arith)
        requires n <= 600;
    let nn = n * n;
    let nnn = nn * n;
    let mut seen: HashSet<usize> = HashSet::new();
    seen.insert(start);
    let mut queue: Vec<usize> = Vec::new();
    queue.push(start);
    let mut head: usize = 0;
    assert(seen@.contains(start) && queue@[0] == start);
    let ghost efv = ef_spec(m);
    let ghost mut fuel: nat = (2 * n * n * n + 1) as nat;
    proof {
        assert forall|x: int| 0 <= x < efv.len() implies #[trigger] efv[x] == moves_view(epsfree@[x]@) by {
            assert(epsfree_listing(m, x, epsfree@[x]@));
        }
        assert(seen@ =~= set![start]);
        assert(queue@ =~= seq![start]);
        assert(2 * n * n * n == 2 * nnn) by (nonlinear_arith)
            requires nnn == nn * n, nn == n * n;
    }
    while head < queue.len()
        invariant
            efv == ef_spec(m),
            efv.len() == n,
            forall|x: int| 0 <= x < efv.len() ==> #[trigger] efv[x] == moves_view(epsfree@[x]@),
            2 * (nnn - queue.len()) + (queue.len() - head) <= fuel,
            tr_run(efv, n as int, target as int, seen@, queue@, head as int, *budget as nat, fuel) == tr_spec(
                efv,
                n as int,
                start as int,
                target as int,
                b0 as nat,
            ),
            m.wf(),
            m.len() == n,
            0 < n <= MAX_STATES,
            nn == n * n,
            nnn == n * n * n,
            g == triple_graph(m),
            is_epsfree_table(m, epsfree@),
            forall|s: int, i: int| 0 <= s < epsfree.len() && 0 <= i < epsfree@[s].len() ==> ranges_wf(#[trigger] epsfree@[s]@[i].0@),
            start < nnn,
            target < nnn,
            seen@.contains(start),
            b0 == *old(budget),
            head <= queue.len(),
            *budget <= b0,
            0 <= e,
            ee == e * (e + 1),
            w == e * ee,
            w == e * e * (e + 1),
            0 <= ee,
            0 <= w,
            forall|s: int| 0 <= s < epsfree.len() ==> #[trigger] epsfree@[s].len() <= e,
            queue@.no_duplicates(),
            b0 - *budget <= head * w,
            forall|i: int| 0 <= i < queue.len() ==> #[trigger] queue@[i] < nnn && seen@.contains(queue@[i]),
            forall|x: usize| #[trigger] seen@.contains(x) ==> x < nnn && queue@.contains(x),
            forall|x: usize| #[trigger] seen@.contains(x) ==> x == start || reaches_plus(g, start as int, x as int),
            forall|i: int, y: int| 0 <= i < head && #[trigger] triple_edge(m, queue@[i] as int, y) ==> 0 <= y < nnn && y != target && seen@.contains(y as usize),
        decreases *budget + queue.len() - head,
    {
        proof {
            lemma_distinct_count(queue@, nnn as int, |x: int| true);
            lemma_count_true_bound(Seq::new(nnn as nat, |x: int| true));
        }
        let ghost sn = (seen@, queue@, *budget as nat);
        let ghost head_b = head as int;
        let cur = queue[head];
        head = head + 1;
        proof {
            lemma_tdecode(n as int, cur as int);
        }
        let a = cur / nn;
        let b = (cur / n) % n;
        let c = cur % n;
        let efa = &epsfree[a];
        let efb = &epsfree[b];
        let efc = &epsfree[c];
        let ghost q0 = queue.len();
        let ghost bud0 = *budget;
        let mut i: usize = 0;
        while i < efa.len()
            invariant
                m.wf(),
                m.len() == n,
                0 < n <= MAX_STATES,
                nn == n * n,
                nnn == n * n * n,
                g == triple_graph(m),
                is_epsfree_table(m, epsfree@),
                forall|s: int, i: int| 0 <= s < epsfree.len() && 0 <= i < epsfree@[s].len() ==> ranges_wf(#[trigger] epsfree@[s]@[i].0@),
                start < nnn,
                target < nnn,
                seen@.contains(start),
                b0 == *old(budget),
                a < n,
                b < n,
                c < n,
                cur == tnode(n as int, a as int, b as int, c as int),
                efa == epsfree@[a as int],
                efb == epsfree@[b as int],
                efc == epsfree@[c as int],
                1 <= head <= queue.len(),
                queue@[head - 1] == cur,
                *budget <= b0,
                *budget + queue.len() <= bud0 + q0,
                0 <= e,
                ee == e * (e + 1),
                w == e * ee,
                w == e * e * (e + 1),
                0 <= ee,
                0 <= w,
                forall|s: int| 0 <= s < epsfree.len() ==> #[trigger] epsfree@[s].len() <= e,
                queue@.no_duplicates(),
                i <= efa.len(),
                efa.len() <= e,
                efb.len() <= e,
                efc.len() <= e,
                b0 - *budget <= (head - 1) * w + i * ee,
                forall|i: int| 0 <= i < queue.len() ==> #[trigger] queue@[i] < nnn && seen@.contains(queue@[i]),
                forall|x: usize| #[trigger] seen@.contains(x) ==> x < nnn && queue@.contains(x),
                forall|x: usize| #[trigger] seen@.contains(x) ==> x == start || reaches_plus(g, start as int, x as int),
                forall|i: int, y: int| 0 <= i < head - 1 && #[trigger] triple_edge(m, queue@[i] as int, y) ==> 0 <= y < nnn && y != target && seen@.contains(y as usize),
                forall|i2: int, j2: int, k2: int, y: int|
                    0 <= i2 < i && #[trigger] table3_step(epsfree@, n as int, a as int, b as int, c as int, i2, j2, k2, y) ==> 0 <= y < nnn && y != target
                        && seen@.contains(y as usize),
                efv == ef_spec(m),
                efv.len() == n,
                forall|x: int| 0 <= x < efv.len() ==> #[trigger] efv[x] == moves_view(epsfree@[x]@),
                queue.len() >= sn.1.len(),
                tr_run(efv, n as int, target as int, sn.0, sn.1, head_b, sn.2, fuel) == tr_spec(efv, n as int, start as int, target as int, b0 as nat),
                fuel > 0,
                0 <= head_b < sn.1.len(),
                sn.1[head_b] == cur,
                tr_first(n as int, efv[a as int], efv[b as int], efv[c as int], i as int, target as int, seen@, queue@, *budget as nat) == tr_first(n as int, efv[a as int], efv[b as int], efv[c as int], 0, target as int, sn.0, sn.1, sn.2),
            decreases efa.len() - i,
        {
            let ghost si = (seen@, queue@, *budget as nat);
            let mut j: usize = 0;
            while j < efb.len()
                invariant
                    m.wf(),
                    m.len() == n,
                    0 < n <= MAX_STATES,
                    nn == n * n,
                    nnn == n * n * n,
                    g == triple_graph(m),
                    is_epsfree_table(m, epsfree@),
                    forall|s: int, i: int| 0 <= s < epsfree.len() && 0 <= i < epsfree@[s].len() ==> ranges_wf(#[trigger] epsfree@[s]@[i].0@),
                    start < nnn,
                    target < nnn,
                    seen@.contains(start),
                    b0 == *old(budget),
                    a < n,
                    b < n,
                    c < n,
                    i < efa.len(),
                    cur == tnode(n as int, a as int, b as int, c as int),
                    efa == epsfree@[a as int],
                    efb == epsfree@[b as int],
                    efc == epsfree@[c as int],
                    1 <= head <= queue.len(),
                    queue@[head - 1] == cur,
                    *budget <= b0,
                    *budget + queue.len() <= bud0 + q0,
                    0 <= e,
                    ee == e * (e + 1),
                    w == e * ee,
                    w == e * e * (e + 1),
                    0 <= ee,
                    0 <= w,
                    forall|s: int| 0 <= s < epsfree.len() ==> #[trigger] epsfree@[s].len() <= e,
                    queue@.no_duplicates(),
                    j <= efb.len(),
                    efa.len() <= e,
                    efb.len() <= e,
                    efc.len() <= e,
                    b0 - *budget <= (head - 1) * w + i * ee + j * (e + 1),
                    forall|i: int| 0 <= i < queue.len() ==> #[trigger] queue@[i] < nnn && seen@.contains(queue@[i]),
                    forall|x: usize| #[trigger] seen@.contains(x) ==> x < nnn && queue@.contains(x),
                    forall|x: usize| #[trigger] seen@.contains(x) ==> x == start || reaches_plus(g, start as int, x as int),
                    forall|i: int, y: int| 0 <= i < head - 1 && #[trigger] triple_edge(m, queue@[i] as int, y) ==> 0 <= y < nnn && y != target && seen@.contains(y as usize),
                    forall|i2: int, j2: int, k2: int, y: int|
                        (0 <= i2 < i || (i2 == i && 0 <= j2 < j)) && #[trigger] table3_step(epsfree@, n as int, a as int, b as int, c as int, i2, j2, k2, y) ==> 0 <= y < nnn
                            && y != target && seen@.contains(y as usize),
                    efv == ef_spec(m),
                    efv.len() == n,
                    forall|x: int| 0 <= x < efv.len() ==> #[trigger] efv[x] == moves_view(epsfree@[x]@),
                    queue.len() >= sn.1.len(),
                    tr_run(efv, n as int, target as int, sn.0, sn.1, head_b, sn.2, fuel) == tr_spec(efv, n as int, start as int, target as int, b0 as nat),
                    fuel > 0,
                    0 <= head_b < sn.1.len(),
                    sn.1[head_b] == cur,
                    tr_first(n as int, efv[a as int], efv[b as int], efv[c as int], i as int, target as int, si.0, si.1, si.2) == tr_first(n as int, efv[a as int], efv[b as int], efv[c as int], 0, target as int, sn.0, sn.1, sn.2),
                    tr_second(n as int, efv[a as int][i as int], efv[b as int], efv[c as int], j as int, target as int, seen@, queue@, *budget as nat) == tr_second(n as int, efv[a as int][i as int], efv[b as int], efv[c as int], 0, target as int, si.0, si.1, si.2),
                decreases efb.len() - j,
            {
                let ghost sj = (seen@, queue@, *budget as nat);
                if *budget == 0 {
                    proof {
                        lemma_work_within(e, ee, w, i as int, j as int, 0);
                        lemma_work_total(m, start as int, head as int, w, queue@);
                        assert(sn.1[head_b] == cur);
                        let res = (2int, seen@, queue@, *budget as nat);
                        assert(tr_second(n as int, efv[a as int][i as int], efv[b as int], efv[c as int], j as int, target as int, seen@, queue@, *budget as nat) == res);
                        assert(tr_first(n as int, efv[a as int], efv[b as int], efv[c as int], i as int, target as int, si.0, si.1, si.2) == res);
                        lemma_tnode(n as int, a as int, b as int, c as int);
                        assert(tr_run(efv, n as int, target as int, sn.0, sn.1, head_b, sn.2, fuel) == (false, *budget as nat));
                    }
                    return false;
                }
                *budget = *budget - 1;
                assert(ranges_wf(epsfree@[a as int]@[i as int].0@));
                assert(ranges_wf(epsfree@[b as int]@[j as int].0@));
                let r12 = intersect_ranges(&efa[i].0, &efb[j].0);
                proof {
                    assert(efv[a as int][i as int] == move_view(efa@[i as int]));
                    assert(efv[b as int][j as int] == move_view(efb@[j as int]));
                }
                if r12.len() > 0 {
                    let mut k: usize = 0;
                    while k < efc.len()
                        invariant
                            m.wf(),
                            m.len() == n,
                            0 < n <= MAX_STATES,
                            nn == n * n,
                            nnn == n * n * n,
                            g == triple_graph(m),
                            is_epsfree_table(m, epsfree@),
                            forall|s: int, i: int| 0 <= s < epsfree.len() && 0 <= i < epsfree@[s].len() ==> ranges_wf(#[trigger] epsfree@[s]@[i].0@),
                            start < nnn,
                            target < nnn,
                            seen@.contains(start),
                            b0 == *old(budget),
                            a < n,
                            b < n,
                            c < n,
                            i < efa.len(),
                            j < efb.len(),
                            ranges_wf(r12@),
                            forall|ch: char| #[trigger] in_ranges(r12@, ch) <==> in_ranges(efa@[i as int].0@, ch) && in_ranges(efb@[j as int].0@, ch),
                            cur == tnode(n as int, a as int, b as int, c as int),
                            efa == epsfree@[a as int],
                            efb == epsfree@[b as int],
                            efc == epsfree@[c as int],
                            1 <= head <= queue.len(),
                            queue@[head - 1] == cur,
                            *budget <= b0,
                            *budget + queue.len() < bud0 + q0,
                            0 <= e,
                            ee == e * (e + 1),
                            w == e * ee,
                            w == e * e * (e + 1),
                            0 <= ee,
                            0 <= w,
                            forall|s: int| 0 <= s < epsfree.len() ==> #[trigger] epsfree@[s].len() <= e,
                            queue@.no_duplicates(),
                            k <= efc.len(),
                            efa.len() <= e,
                            efb.len() <= e,
                            efc.len() <= e,
                            b0 - *budget <= (head - 1) * w + i * ee + j * (e + 1) + 1 + k,
                            forall|i: int| 0 <= i < queue.len() ==> #[trigger] queue@[i] < nnn && seen@.contains(queue@[i]),
                            forall|x: usize| #[trigger] seen@.contains(x) ==> x < nnn && queue@.contains(x),
                            forall|x: usize| #[trigger] seen@.contains(x) ==> x == start || reaches_plus(g, start as int, x as int),
                            forall|i: int, y: int| 0 <= i < head - 1 && #[trigger] triple_edge(m, queue@[i] as int, y) ==> 0 <= y < nnn && y != target && seen@.contains(y as usize),
                            forall|i2: int, j2: int, k2: int, y: int|
                                (0 <= i2 < i || (i2 == i && 0 <= j2 < j) || (i2 == i && j2 == j && 0 <= k2 < k)) && #[trigger] table3_step(epsfree@, n as int, a as int, b as int, c as int, i2, j2, k2, y) ==> 0 <= y < nnn
                                    && y != target && seen@.contains(y as usize),
                            efv == ef_spec(m),
                            efv.len() == n,
                            forall|x: int| 0 <= x < efv.len() ==> #[trigger] efv[x] == moves_view(epsfree@[x]@),
                            queue.len() >= sn.1.len(),
                            tr_run(efv, n as int, target as int, sn.0, sn.1, head_b, sn.2, fuel) == tr_spec(efv, n as int, start as int, target as int, b0 as nat),
                            fuel > 0,
                            0 <= head_b < sn.1.len(),
                            sn.1[head_b] == cur,
                            tr_first(n as int, efv[a as int], efv[b as int], efv[c as int], i as int, target as int, si.0, si.1, si.2) == tr_first(n as int, efv[a as int], efv[b as int], efv[c as int], 0, target as int, sn.0, sn.1, sn.2),
                            tr_second(n as int, efv[a as int][i as int], efv[b as int], efv[c as int], j as int, target as int, sj.0, sj.1, sj.2) == tr_second(n as int, efv[a as int][i as int], efv[b as int], efv[c as int], 0, target as int, si.0, si.1, si.2),
                            sj.2 > 0,
                            r12@ == pairwise_overlaps(efv[a as int][i as int].0, efv[b as int][j as int].0, efv[a as int][i as int].0.len() as int),
                            r12@.len() > 0,
                            tr_third(n as int, efv[a as int][i as int].1, efv[b as int][j as int].1, r12@, efv[c as int], k as int, target as int, seen@, queue@, *budget as nat) == tr_third(n as int, efv[a as int][i as int].1, efv[b as int][j as int].1, r12@, efv[c as int], 0, target as int, sj.0, sj.1, (sj.2 - 1) as nat),
                        decreases efc.len() - k,
                    {
                        let ghost sk = (seen@, queue@, *budget as nat);
                        let ghost mut nx: int = 0;
                        if *budget == 0 {
                            proof {
                                lemma_work_within(e, ee, w, i as int, j as int, k as int);
                                lemma_work_total(m, start as int, head as int, w, queue@);
                                assert(sn.1[head_b] == cur);
                                let res = (2int, seen@, queue@, *budget as nat);
                                assert(tr_third(n as int, efv[a as int][i as int].1, efv[b as int][j as int].1, r12@, efv[c as int], k as int, target as int, seen@, queue@, *budget as nat) == res);
                                assert(tr_second(n as int, efv[a as int][i as int], efv[b as int], efv[c as int], j as int, target as int, sj.0, sj.1, sj.2) == res);
                                assert(tr_first(n as int, efv[a as int], efv[b as int], efv[c as int], i as int, target as int, si.0, si.1, si.2) == res);
                                lemma_tnode(n as int, a as int, b as int, c as int);
                                assert(tr_run(efv, n as int, target as int, sn.0, sn.1, head_b, sn.2, fuel) == (false, *budget as nat));
                            }
                            return false;
                        }
                        *budget = *budget - 1;
                        assert(ranges_wf(epsfree@[c as int]@[k as int].0@));
                        let hit = ranges_intersect(&r12, &efc[k].0);
                        proof {
                            assert(efv[c as int][k as int] == move_view(efc@[k as int]));
                        }
                        if hit {
                            let a2 = efa[i].1;
                            let b2 = efb[j].1;
                            let c2 = efc[k].1;
                            assert(a2 < n && b2 < n && c2 < n);
                            proof {
                                lemma_tnode(n as int, a2 as int, b2 as int, c2 as int);
                                assert(a2 * n + b2 < nn) by (nonlinear_arith)
                                    requires a2 < n, b2 < n, nn == n * n;
                            }
                            let next = (a2 * n + b2) * n + c2;
                            proof {
                                nx = next as int;
                            }
                            proof {
                                let ch = choose|ch: char| #[trigger] in_ranges(r12@, ch) && in_ranges(efc@[k as int].0@, ch);
                                assert(in_ranges(efa@[i as int].0@, ch) && in_ranges(efb@[j as int].0@, ch));
                                assert(share_char3(efa@[i as int].0@, efb@[j as int].0@, efc@[k as int].0@));
                                assert(table3_step(epsfree@, n as int, a as int, b as int, c as int, i as int, j as int, k as int, next as int));
                                lemma_table3_edge(m, epsfree@, a as int, b as int, c as int, next as int);
                                assert(triple_edge(m, cur as int, next as int));
                                assert(seen@.contains(cur));
                                lemma_plus_step(g, start as int, cur as int, next as int);
                            }
                            if next == target {
                                assert(*budget <= b0);
                                proof {
                                    lemma_work_within(e, ee, w, i as int, j as int, k as int);
                                    lemma_work_total(m, start as int, head as int, w, queue@);
                                }
                                proof {
                                    assert(sn.1[head_b] == cur);
                                    let res = (1int, seen@, queue@, *budget as nat);
                                    assert(tr_third(n as int, efv[a as int][i as int].1, efv[b as int][j as int].1, r12@, efv[c as int], k as int, target as int, sk.0, sk.1, sk.2) == res);
                                    assert(tr_third(n as int, efv[a as int][i as int].1, efv[b as int][j as int].1, r12@, efv[c as int], 0, target as int, sj.0, sj.1, (sj.2 - 1) as nat) == res);
                                    assert(tr_second(n as int, efv[a as int][i as int], efv[b as int], efv[c as int], j as int, target as int, sj.0, sj.1, sj.2) == res);
                                    assert(tr_first(n as int, efv[a as int], efv[b as int], efv[c as int], i as int, target as int, si.0, si.1, si.2) == res);
                                    lemma_tnode(n as int, a as int, b as int, c as int);
                                    assert(tr_run(efv, n as int, target as int, sn.0, sn.1, head_b, sn.2, fuel) == (true, *budget as nat));
                                }
                                return true;
                            }
                            let ghost sb = seen@;
                            let ghost qb = queue@;
                            if seen.insert(next) {
                                assert(!qb.contains(next)) by {
                                    if qb.contains(next) {
                                        let t = choose|t: int| 0 <= t < qb.len() && qb[t] == next;
                                        assert(sb.contains(qb[t]));
                                    }
                                }
                                queue.push(next);
                                proof {
                                    assert(queue@.no_duplicates()) by {
                                        assert forall|x: int, y: int| 0 <= x < queue.len() && 0 <= y < queue.len() && x != y implies queue@[x] != queue@[y] by {
                                            if x == queue.len() - 1 && y < qb.len() {
                                                assert(qb.contains(qb[y]));
                                            } else if y == queue.len() - 1 && x < qb.len() {
                                                assert(qb.contains(qb[x]));
                                            }
                                        }
                                    }
                                    assert forall|x: usize| #[trigger] seen@.contains(x) implies x < nnn && queue@.contains(x) by {
                                        if x == next {
                                            assert(queue@[queue.len() - 1] == next);
                                        } else {
                                            assert(sb.contains(x));
                                            let t = choose|t: int| 0 <= t < qb.len() && qb[t] == x;
                                            assert(queue@[t] == x);
                                        }
                                    }
                                }
                            }
                        }
                        proof {
                            assert forall|i2: int, j2: int, k2: int, y: int|
                                (0 <= i2 < i || (i2 == i && 0 <= j2 < j) || (i2 == i && j2 == j && 0 <= k2 < k + 1)) && #[trigger] table3_step(epsfree@, n as int, a as int, b as int, c as int, i2, j2, k2, y) implies 0 <= y < nnn
                                    && y != target && seen@.contains(y as usize) by {
                                if i2 == i && j2 == j && k2 == k {
                                    if !hit {
                                        let ch = choose|ch: char| #[trigger] in_ranges(efa@[i as int].0@, ch) && in_ranges(efb@[j as int].0@, ch) && in_ranges(efc@[k as int].0@, ch);
                                        assert(in_ranges(r12@, ch));
                                        assert(share_char(r12@, efc@[k as int].0@));
                                    }
                                }
                            }
                        }
                        proof {
                            assert(ranges_overlap(r12@, efv[c as int][k as int].0) == hit);
                            if hit {
                                assert(tnode(n as int, efv[a as int][i as int].1 as int, efv[b as int][j as int].1 as int, efv[c as int][k as int].1 as int) == nx);
                                assert(nx != target);
                                if sk.0.contains(nx as usize) {
                                    assert(seen@ =~= sk.0);
                                    assert(queue@ == sk.1);
                                } else {
                                    assert(seen@ == sk.0.insert(nx as usize));
                                    assert(queue@ == sk.1.push(nx as usize));
                                }
                            } else {
                                assert(seen@ == sk.0 && queue@ == sk.1);
                            }
                            assert(tr_third(n as int, efv[a as int][i as int].1, efv[b as int][j as int].1, r12@, efv[c as int], k as int, target as int, sk.0, sk.1, sk.2) == tr_third(n as int, efv[a as int][i as int].1, efv[b as int][j as int].1, r12@, efv[c as int], k + 1, target as int, seen@, queue@, *budget as nat));
                        }
                        k = k + 1;
                    }
                    proof {
                        assert((j + 1) * (e + 1) == j * (e + 1) + e + 1) by (nonlinear_arith);
                    }
                } else {
                    proof {
                        assert((j + 1) * (e + 1) == j * (e + 1) + e + 1) by (nonlinear_arith);
                        assert forall|i2: int, j2: int, k2: int, y: int|
                            (0 <= i2 < i || (i2 == i && 0 <= j2 < j + 1)) && #[trigger] table3_step(epsfree@, n as int, a as int, b as int, c as int, i2, j2, k2, y) implies 0 <= y < nnn
                                && y != target && seen@.contains(y as usize) by {
                            if i2 == i && j2 == j {
                                let ch = choose|ch: char| #[trigger] in_ranges(efa@[i as int].0@, ch) && in_ranges(efb@[j as int].0@, ch) && in_ranges(efc@[k2].0@, ch);
                                assert(in_ranges(r12@, ch));
                            }
                        }
                    }
                }
                proof {
                    if r12@.len() > 0 {
                        assert(tr_third(n as int, efv[a as int][i as int].1, efv[b as int][j as int].1, r12@, efv[c as int], efc@.len() as int, target as int, seen@, queue@, *budget as nat) == (0int, seen@, queue@, *budget as nat));
                    }
                    assert(tr_second(n as int, efv[a as int][i as int], efv[b as int], efv[c as int], j as int, target as int, sj.0, sj.1, sj.2) == tr_second(n as int, efv[a as int][i as int], efv[b as int], efv[c as int], j + 1, target as int, seen@, queue@, *budget as nat));
                }
                j = j + 1;
            }
            proof {
                assert(j * (e + 1) <= e * (e + 1)) by (nonlinear_arith)
                    requires j <= e, 0 <= e;
                assert((i + 1) * ee == i * ee + ee) by (nonlinear_arith);
            }
            proof {
                assert(tr_second(n as int, efv[a as int][i as int], efv[b as int], efv[c as int], efv[b as int].len() as int, target as int, seen@, queue@, *budget as nat) == (0int, seen@, queue@, *budget as nat));
                assert(tr_first(n as int, efv[a as int], efv[b as int], efv[c as int], i as int, target as int, si.0, si.1, si.2) == tr_first(n as int, efv[a as int], efv[b as int], efv[c as int], i + 1, target as int, seen@, queue@, *budget as nat));
            }
            i = i + 1;
        }
        proof {
            assert(tr_first(n as int, efv[a as int], efv[b as int], efv[c as int], efv[a as int].len() as int, target as int, seen@, queue@, *budget as nat) == (
                0int,
                seen@,
                queue@,
                *budget as nat,
            ));
            assert(sn.1[head_b] == cur);
            lemma_tnode(n as int, a as int, b as int, c as int);
            assert(tr_run(efv, n as int, target as int, sn.0, sn.1, head_b, sn.2, fuel) == tr_run(
                efv,
                n as int,
                target as int,
                seen@,
                queue@,
                head as int,
                *budget as nat,
                (fuel - 1) as nat,
            ));
            fuel = (fuel - 1) as nat;
        }
        proof {
            assert(i * ee <= e * ee) by (nonlinear_arith)
                requires i <= e, 0 <= ee;
            assert((head - 1) * w + w == head * w) by (nonlinear_arith);
        }
        proof {
            assert forall|i2: int, y: int| 0 <= i2 < head && #[trigger] triple_edge(m, queue@[i2] as int, y) implies 0 <= y < nnn && y != target && seen@.contains(y as usize) by {
                if i2 == head - 1 {
                    lemma_table3_edge(m, epsfree@, a as int, b as int, c as int, y);
                    let (i3, j3, k3) = choose|i3: int, j3: int, k3: int| #[trigger] table3_step(epsfree@, n as int, a as int, b as int, c as int, i3, j3, k3, y);
                }
            }
        }
    }
    proof {
        lemma_work_total(m, start as int, head as int, w, queue@);
        assert((head - 1) * w + w == head * w) by (nonlinear_arith);
        let set = |z: int| 0 <= z < nnn && seen@.contains(z as usize) && z != target;
        assert forall|x: int, y: int| set(x) && #[trigger] g(x, y) implies set(y) by {
            assert(queue@.contains(x as usize));
            let t = choose|t: int| 0 <= t < queue.len() && queue@[t] == x as usize;
            assert(triple_edge(m, queue@[t] as int, y));
        }
        if reaches_plus(g, start as int, target as int) {
            let x = choose|x: int| #[trigger] g(start as int, x) && reaches(g, x, target as int);
            assert(queue@.contains(start));
            let t = choose|t: int| 0 <= t < queue.len() && queue@[t] == start;
            assert(triple_edge(m, queue@[t] as int, x));
            lemma_reaches_closed(g, set, x, target as int);
        }
    }
    assert(tr_run(efv, n as int, target as int, seen@, queue@, head as int, *budget as nat, fuel) == (false, *budget as nat));
    false
}

/// States reachable from the start (over epsilon and labeled transitions).
pub fn reachable_from_start(nfa: &Nfa) -> (v: Vec<bool>)
    requires
        nfa.wf(),
    ensures
        v.len() == nfa.states.len(),
        forall|x: int| 0 <= x < v.len() ==> (#[trigger] v@[x] <==> reaches(nfa_graph(nfa@), nfa@.start, x)),
{
    reach_forward(nfa, nfa.start)
}

/// States that can reach the accept state (over epsilon and labeled transitions).
pub fn reaches_accept(nfa: &Nfa) -> (v: Vec<bool>)
    requires
        nfa.wf(),
    ensures
        v.len() == nfa.states.len(),
        forall|x: int| 0 <= x < v.len() ==> (#[trigger] v@[x] <==> reaches(nfa_graph(nfa@), x, nfa@.accept)),
{
    reach_backward(nfa, nfa.accept)
}

/// Does `nfa` have IDA (super-linear / polynomial backtracking)?
///
/// Sound: `true` only when an IDA pair exists. The search is bounded (at most
/// [`MAX_STATES`] states, [`VISIT_CAP`] steps) and answers `false` when a bound
/// is hit; whenever the search does not stop at a bound (see [`ida_outcome`]),
/// in particular when [`ida_work_bound`] is within the budget, the answer is
/// exact.
pub fn has_ida(nfa: &Nfa) -> (r: bool)
    requires
        nfa.wf(),
    ensures
        r ==> has_ida_spec(nfa@),
        exists|t: int| 0 <= t <= nfa.states.len() * nfa.states.len() && r == (#[trigger] ida_pairs_below(nfa@, t).len() > 0),
        nfa.states.len() > MAX_STATES ==> !r,
        nfa.states.len() <= MAX_STATES && ida_work_bound(nfa@) < VISIT_CAP ==> (r <==> has_ida_spec(nfa@)),
        r == (ida_outcome(nfa@, true).0.len() > 0),
        !ida_outcome(nfa@, true).1 ==> (r <==> has_ida_spec(nfa@)),
{
    let search = ida_search(nfa, true);
    proof {
        let n = nfa.states.len() as int;
        lemma_ida_pairs_below(nfa@, n * n);
        if has_ida_spec(nfa@) {
            let (p, q) = choose|p: int, q: int| #[trigger] ida_pair(nfa@, p, q);
            assert(p * n + q < n * n) by (nonlinear_arith)
                requires 0 <= p < n, 0 <= q < n;
            assert(ida_pairs_below(nfa@, n * n).contains((p as usize, q as usize)));
        }
        if ida_pairs_below(nfa@, n * n).len() > 0 {
            let e = ida_pairs_below(nfa@, n * n)[0];
            assert(ida_pair(nfa@, e.0 as int, e.1 as int));
        }
    }
    if search.pairs.len() > 0 {
        assert(ida_pair(nfa@, search.pairs@[0].0 as int, search.pairs@[0].1 as int));
        true
    } else {
        false
    }
}

/// An upper bound on the triple-product steps an IDA search takes: over every
/// candidate pair, the product nodes its search can meet times [`node_work`].
pub open spec fn ida_work_bound(m: NfaModel) -> int {
    ida_work_below(m, m.len() * m.len())
}

/// The candidates `(p, q)` with `p * n + q` from `x` on, searched in that
/// order with what is left of the budget: the pairs found (after `pairs`), the
/// budget left, and whether the search stopped at the first pair found.
pub open spec fn ida_scan(
    m: NfaModel,
    ef: Seq<Seq<(Seq<(char, char)>, usize)>>,
    first_only: bool,
    x: int,
    pairs: Seq<(usize, usize)>,
    budget: nat,
) -> (Seq<(usize, usize)>, nat, bool)
    decreases m.len() * m.len() - x,
{
    let n = m.len() as int;
    if n <= 0 || x < 0 || x >= n * n {
        (pairs, budget, false)
    } else {
        let p = x / n;
        let q = x % n;
        if ida_candidate(m, p, q) {
            let t = tr_spec(ef, n, tnode(n, p, p, q), tnode(n, p, q, q), budget);
            if t.0 && first_only {
                (pairs.push((p as usize, q as usize)), t.1, true)
            } else if t.0 {
                ida_scan(m, ef, first_only, x + 1, pairs.push((p as usize, q as usize)), t.1)
            } else {
                ida_scan(m, ef, first_only, x + 1, pairs, t.1)
            }
        } else {
            ida_scan(m, ef, first_only, x + 1, pairs, budget)
        }
    }
}

/// What [`ida_search`] answers on `m`: the pairs found, and whether it gave up.
pub open spec fn ida_outcome(m: NfaModel, first_only: bool) -> (Seq<(usize, usize)>, bool) {
    if m.len() == 0 {
        (Seq::empty(), false)
    } else if m.len() > MAX_STATES {
        (Seq::empty(), true)
    } else {
        let r = ida_scan(m, ef_spec(m), first_only, 0, Seq::empty(), VISIT_CAP as nat);
        (r.0, !r.2 && r.1 == 0)
    }
}

/// The outcome of an IDA pair search.
pub struct IdaSearch {
    /// IDA pairs found, in the order `(p, q)` were tried.
    pub pairs: Vec<(usize, usize)>,
    /// The search stopped at a limit (the automaton's size or the step
    /// budget) before it was done.
    pub gave_up: bool,
}

/// Search the candidate pairs `(p, q)` (`p` reachable from the start, `q`
/// reaching the accept state, `p != q`) in order of `p * n + q`, with one shared
/// budget of [`VISIT_CAP`] triple-product steps. With `first_only`, stop at the
/// first pair found.
///
/// The pairs found are exactly the IDA pairs before some point of the search
/// order: the point where the budget ran out, or the end when it did not.
pub fn ida_search(nfa: &Nfa, first_only: bool) -> (res: IdaSearch)
    requires
        nfa.wf(),
    ensures
        exists|t: int| 0 <= t <= nfa.states.len() * nfa.states.len() && res.pairs@ == #[trigger] ida_pairs_below(nfa@, t),
        !res.gave_up && !first_only ==> res.pairs@ == ida_pairs_below(nfa@, nfa.states.len() * nfa.states.len()),
        !res.gave_up && first_only ==> (res.pairs.len() > 0 <==> ida_pairs_below(
            nfa@,
            nfa.states.len() * nfa.states.len(),
        ).len() > 0),
        forall|k: int| 0 <= k < res.pairs.len() ==> #[trigger] ida_pair(nfa@, res.pairs@[k].0 as int, res.pairs@[k].1 as int),
        res.pairs.len() <= nfa.states.len() * nfa.states.len(),
        first_only ==> res.pairs.len() <= 1,
        nfa.states.len() > MAX_STATES ==> res.pairs.len() == 0 && res.gave_up,
        nfa.states.len() <= MAX_STATES && ida_work_bound(nfa@) < VISIT_CAP ==> !res.gave_up,
        (res.pairs@, res.gave_up) == ida_outcome(nfa@, first_only),
{
    let n = nfa.states.len();
    let ghost m = nfa@;
    let mut pairs: Vec<(usize, usize)> = Vec::new();
    if n == 0 || n > MAX_STATES {
        assert(pairs@ == ida_pairs_below(m, 0));
        assert(0 <= n * n) by (nonlinear_arith);
        return IdaSearch { pairs, gave_up: n > MAX_STATES };
    }
    let epsfree = epsfree_moves(nfa);
    let from_start = reachable_from_start(nfa);
    let to_accept = reaches_accept(nfa);
    let mut budget: usize = VISIT_CAP;
    assert(n * n <= 360000) by (nonlinear_arith)
        requires n <= 600;
    let ghost mut cut: int = 0;
    let ghost small = ida_work_bound(m) < VISIT_CAP;
    assert(pairs@ == ida_pairs_below(m, 0));
    let ghost efv = ef_spec(m);
    let ghost whole = ida_scan(m, efv, first_only, 0, Seq::empty(), VISIT_CAP as nat);
    assert(pairs@ =~= Seq::<(usize, usize)>::empty());
    let mut p: usize = 0;
    while p < n
        invariant
            n == nfa.states.len(),
            m == nfa@,
            m.wf(),
            0 < n <= MAX_STATES,
            p <= n,
            is_epsfree_table(m, epsfree@),
            forall|s: int| 0 <= s < epsfree.len() ==> #[trigger] epsfree_listing(m, s, epsfree@[s]@),
            forall|s: int, i: int| 0 <= s < epsfree.len() && 0 <= i < epsfree@[s].len() ==> ranges_wf(#[trigger] epsfree@[s]@[i].0@),
            forall|s: int| 0 <= s < epsfree.len() ==> #[trigger] epsfree@[s].len() <= total_moves(m),
            from_start.len() == n,
            to_accept.len() == n,
            forall|x: int| 0 <= x < n ==> (#[trigger] from_start@[x] <==> reaches(nfa_graph(m), m.start, x)),
            forall|x: int| 0 <= x < n ==> (#[trigger] to_accept@[x] <==> reaches(nfa_graph(m), x, m.accept)),
            0 <= cut <= p * n,
            pairs@ == ida_pairs_below(m, cut),
            budget > 0 ==> cut == p * n,
            first_only ==> pairs.len() == 0,
            small == (ida_work_bound(m) < VISIT_CAP),
            VISIT_CAP - budget <= ida_work_below(m, p * n),
            budget <= VISIT_CAP,
            efv == ef_spec(m),
            whole == ida_scan(m, efv, first_only, 0, Seq::empty(), VISIT_CAP as nat),
            ida_scan(m, efv, first_only, p * n, pairs@, budget as nat) == whole,
        decreases n - p,
    {
        let mut q: usize = 0;
        while q < n
            invariant
                n == nfa.states.len(),
                m == nfa@,
                m.wf(),
                0 < n <= MAX_STATES,
                p < n,
                q <= n,
                is_epsfree_table(m, epsfree@),
                forall|s: int| 0 <= s < epsfree.len() ==> #[trigger] epsfree_listing(m, s, epsfree@[s]@),
                forall|s: int, i: int| 0 <= s < epsfree.len() && 0 <= i < epsfree@[s].len() ==> ranges_wf(#[trigger] epsfree@[s]@[i].0@),
                forall|s: int| 0 <= s < epsfree.len() ==> #[trigger] epsfree@[s].len() <= total_moves(m),
                from_start.len() == n,
                to_accept.len() == n,
                forall|x: int| 0 <= x < n ==> (#[trigger] from_start@[x] <==> reaches(nfa_graph(m), m.start, x)),
                forall|x: int| 0 <= x < n ==> (#[trigger] to_accept@[x] <==> reaches(nfa_graph(m), x, m.accept)),
                0 <= cut <= p * n + q,
                pairs@ == ida_pairs_below(m, cut),
                budget > 0 ==> cut == p * n + q,
                first_only ==> pairs.len() == 0,
                small == (ida_work_bound(m) < VISIT_CAP),
                VISIT_CAP - budget <= ida_work_below(m, p * n + q),
                budget <= VISIT_CAP,
                efv == ef_spec(m),
                whole == ida_scan(m, efv, first_only, 0, Seq::empty(), VISIT_CAP as nat),
                ida_scan(m, efv, first_only, p * n + q, pairs@, budget as nat) == whole,
            decreases n - q,
        {
            let ghost x = p * n + q;
            let ghost bud_before = budget;
            let ghost pairs_before = pairs@;
            assert(ida_scan(m, efv, first_only, x, pairs_before, bud_before as nat) == whole);
            proof {
                lemma_pair_index(n as int, p as int, q as int);
                assert(x < n * n) by (nonlinear_arith)
                    requires x == p * n + q, p < n, q < n;
                lemma_ida_work_mono(m, x + 1, n * n);
                assert(ida_work_below(m, x + 1) == ida_work_below(m, x) + if ida_candidate(m, p as int, q as int) {
                    count_true(triple_closure(m, tnode(n as int, p as int, p as int, q as int))) * node_work(m)
                } else {
                    0
                });
            }
            if from_start[p] && p != q && to_accept[q] {
                proof {
                    lemma_tnode(n as int, p as int, p as int, q as int);
                    lemma_tnode(n as int, p as int, q as int, q as int);
                    assert(p * n + p < n * n && p * n + q < n * n) by (nonlinear_arith)
                        requires p < n, q < n;
                    assert(n * n * n <= 216000000) by (nonlinear_arith)
                        requires n <= 600;
                    assert((p * n + p) * n + q < n * n * n) by (nonlinear_arith)
                        requires p < n, q < n;
                    assert((p * n + q) * n + q < n * n * n) by (nonlinear_arith)
                        requires p < n, q < n;
                    assert(p * n <= 360000) by (nonlinear_arith)
                        requires p < n, n <= 600;
                    assert((p * n + p) * n <= 216000000) by (nonlinear_arith)
                        requires p < n, n <= 600;
                    assert((p * n + q) * n <= 216000000) by (nonlinear_arith)
                        requires p < n, q < n, n <= 600;
                }
                let from = (p * n + p) * n + q;
                let to = (p * n + q) * n + q;
                let ghost bud0 = budget;
                let found = triple_reaches(&epsfree, n, from, to, &mut budget, Ghost(m), Ghost(total_moves(m) as int));
                if found {
                    pairs.push((p, q));
                    proof {
                        assert(ida_pair(m, p as int, q as int));
                        assert(pairs@ == ida_pairs_below(m, x + 1));
                        cut = x + 1;
                    }
                    if first_only {
                        proof {
                            lemma_ida_pairs_below(m, cut);
                            lemma_ida_pairs_below(m, n * n);
                            assert(ida_pairs_below(m, n * n).contains((p, q)));
                        }
                        proof {
                            let r = ida_scan(m, efv, first_only, x, pairs_before, bud_before as nat);
                            assert(r == whole);
                            assert(r.0 =~= pairs@ && r.2);
                            assert(ida_outcome(m, first_only) == (whole.0, false));
                        }
                        return IdaSearch { pairs, gave_up: false };
                    }
                } else if budget > 0 {
                    proof {
                        assert(!reaches_plus(triple_graph(m), from as int, to as int));
                        assert(!ida_pair(m, p as int, q as int));
                        assert(pairs@ == ida_pairs_below(m, x + 1));
                        cut = x + 1;
                    }
                }
            } else if budget > 0 {
                proof {
                    assert(!ida_pair(m, p as int, q as int));
                    assert(pairs@ == ida_pairs_below(m, x + 1));
                    cut = x + 1;
                }
            }
            proof {
                assert(ida_scan(m, efv, first_only, x, pairs_before, bud_before as nat) == ida_scan(m, efv, first_only, x + 1, pairs@, budget as nat));
                assert(VISIT_CAP - budget <= ida_work_below(m, x + 1));
                if small {
                    assert(budget > 0);
                }
            }
            q = q + 1;
        }
        proof {
            assert(p * n + n == (p + 1) * n) by (nonlinear_arith);
        }
        p = p + 1;
    }
    proof {
        lemma_ida_pairs_below(m, cut);
        assert(n * n == n * n);
        assert(ida_scan(m, efv, first_only, n * n, pairs@, budget as nat) == (pairs@, budget as nat, false));
    }
    IdaSearch { pairs, gave_up: budget == 0 }
}

// --- Polynomial degree ---

/// The longest chain of at most `r` of the `pairs`, in which the first state of
/// the first pair is reachable from `s` and the first state of each later pair
/// is reachable from the second state of the pair before it.
pub open spec fn chain_len(m: NfaModel, pairs: Seq<(usize, usize)>, s: int, r: nat) -> nat
    decreases r, pairs.len() + 1,
{
    if r == 0 {
        0
    } else {
        chain_best(m, pairs, s, r, pairs.len() as int)
    }
}

/// The longest such chain of at most `r` pairs that starts with one of `pairs[..i]`.
pub open spec fn chain_best(m: NfaModel, pairs: Seq<(usize, usize)>, s: int, r: nat, i: int) -> nat
    decreases r, i,
{
    if i <= 0 || r == 0 || i > pairs.len() {
        0
    } else {
        let prev = chain_best(m, pairs, s, r, i - 1);
        if reaches(nfa_graph(m), s, pairs[i - 1].0 as int) {
            let c = 1 + chain_len(m, pairs, pairs[i - 1].1 as int, (r - 1) as nat);
            if c > prev {
                c
            } else {
                prev
            }
        } else {
            prev
        }
    }
}

proof fn lemma_chain_best_congruent(m: NfaModel, pairs: Seq<(usize, usize)>, s: int, r1: nat, r2: nat, i: int)
    requires
        r1 >= 1,
        r2 >= 1,
        0 <= i <= pairs.len(),
        forall|k: int| 0 <= k < pairs.len() ==> #[trigger] chain_len(m, pairs, pairs[k].1 as int, (r1 - 1) as nat) == chain_len(m, pairs, pairs[k].1 as int, (r2 - 1) as nat),
    ensures
        chain_best(m, pairs, s, r1, i) == chain_best(m, pairs, s, r2, i),
    decreases i,
{
    if i > 0 {
        lemma_chain_best_congruent(m, pairs, s, r1, r2, i - 1);
        assert(chain_len(m, pairs, pairs[i - 1].1 as int, (r1 - 1) as nat) == chain_len(m, pairs, pairs[i - 1].1 as int, (r2 - 1) as nat));
    }
}

/// Once one more allowed pair changes no chain length, no further pair does.
proof fn lemma_chain_fixpoint(m: NfaModel, pairs: Seq<(usize, usize)>, r: nat, r2: nat)
    requires
        r2 >= r,
        forall|k: int| 0 <= k < pairs.len() ==> #[trigger] chain_len(m, pairs, pairs[k].1 as int, r + 1) == chain_len(m, pairs, pairs[k].1 as int, r),
    ensures
        forall|s: int| #[trigger] chain_len(m, pairs, s, r2 + 1) == chain_len(m, pairs, s, r + 1),
        forall|k: int| 0 <= k < pairs.len() ==> #[trigger] chain_len(m, pairs, pairs[k].1 as int, r2) == chain_len(m, pairs, pairs[k].1 as int, r),
    decreases r2 - r,
{
    if r2 > r {
        lemma_chain_fixpoint(m, pairs, r, (r2 - 1) as nat);
        assert forall|k: int| 0 <= k < pairs.len() implies #[trigger] chain_len(m, pairs, pairs[k].1 as int, r2) == chain_len(m, pairs, pairs[k].1 as int, r) by {
            assert(chain_len(m, pairs, pairs[k].1 as int, ((r2 - 1) as nat + 1) as nat) == chain_len(m, pairs, pairs[k].1 as int, r + 1));
        }
    }
    assert forall|s: int| #[trigger] chain_len(m, pairs, s, r2 + 1) == chain_len(m, pairs, s, r + 1) by {
        lemma_chain_best_congruent(m, pairs, s, r2 + 1, r + 1, pairs.len() as int);
    }
}

/// The estimated polynomial degree of a list of IDA pairs: one more than the
/// longest chain of them, starting from the start state (`None` for no pairs).
pub open spec fn chain_degree_spec(m: NfaModel, pairs: Seq<(usize, usize)>) -> Option<u32> {
    if pairs.len() == 0 {
        None
    } else {
        Some((1 + chain_len(m, pairs, m.start, pairs.len() as nat)) as u32)
    }
}

/// The degree read off a list of IDA pairs (see [`chain_degree_spec`]).
pub fn chain_degree(nfa: &Nfa, pairs: &Vec<(usize, usize)>) -> (r: Option<u32>)
    requires
        nfa.wf(),
        pairs.len() <= 360000,
        forall|k: int| 0 <= k < pairs.len() ==> (#[trigger] pairs@[k]).0 < nfa.states.len() && pairs@[k].1 < nfa.states.len(),
    ensures
        r == chain_degree_spec(nfa@, pairs@),
        pairs.len() > 0 ==> chain_len(nfa@, pairs@, nfa@.start, pairs.len() as nat) <= pairs.len(),
{
    let n = nfa.states.len();
    let ghost m = nfa@;
    let kk = pairs.len();
    if kk == 0 {
        return None;
    }
    let mut reach: Vec<Vec<bool>> = Vec::new();
    for s in 0..n
        invariant
            n == nfa.states.len(),
            m == nfa@,
            m.wf(),
            reach.len() == s,
            forall|x: int| 0 <= x < s ==> #[trigger] reach@[x].len() == n,
            forall|x: int, y: int| 0 <= x < s && 0 <= y < n ==> (#[trigger] reach@[x]@[y] <==> reaches(nfa_graph(m), x, y)),
    {
        let v = reach_forward(nfa, s);
        let ghost r0 = reach@;
        reach.push(v);
        assert forall|x: int, y: int| 0 <= x < s + 1 && 0 <= y < n implies (#[trigger] reach@[x]@[y] <==> reaches(nfa_graph(m), x, y)) by {
            if x < s {
                assert(reach@[x] == r0[x]);
            }
        }
    }
    let mut best: Vec<usize> = Vec::new();
    for s in 0..n
        invariant
            best.len() == s,
            forall|x: int| 0 <= x < s ==> #[trigger] best@[x] == 0,
    {
        best.push(0);
    }
    let mut r: usize = 0;
    while r < kk
        invariant
            n == nfa.states.len(),
            m == nfa@,
            m.wf(),
            kk == pairs.len(),
            0 < kk <= 360000,
            r <= kk,
            forall|k: int| 0 <= k < pairs.len() ==> (#[trigger] pairs@[k]).0 < n && pairs@[k].1 < n,
            reach.len() == n,
            forall|x: int| 0 <= x < n ==> #[trigger] reach@[x].len() == n,
            forall|x: int, y: int| 0 <= x < n && 0 <= y < n ==> (#[trigger] reach@[x]@[y] <==> reaches(nfa_graph(m), x, y)),
            best.len() == n,
            forall|x: int| 0 <= x < n ==> #[trigger] best@[x] == chain_len(m, pairs@, x, r as nat),
            forall|x: int| 0 <= x < n ==> #[trigger] best@[x] <= r,
        ensures
            best.len() == n,
            forall|x: int| 0 <= x < n ==> #[trigger] best@[x] == chain_len(m, pairs@, x, kk as nat),
            forall|x: int| 0 <= x < n ==> #[trigger] best@[x] <= kk,
        decreases kk - r,
    {
        let mut next: Vec<usize> = Vec::new();
        for s in 0..n
            invariant
                n == nfa.states.len(),
                m == nfa@,
                kk == pairs.len(),
                0 < kk <= 360000,
                r < kk,
                forall|k: int| 0 <= k < pairs.len() ==> (#[trigger] pairs@[k]).0 < n && pairs@[k].1 < n,
                reach.len() == n,
                forall|x: int| 0 <= x < n ==> #[trigger] reach@[x].len() == n,
                forall|x: int, y: int| 0 <= x < n && 0 <= y < n ==> (#[trigger] reach@[x]@[y] <==> reaches(nfa_graph(m), x, y)),
                best.len() == n,
                forall|x: int| 0 <= x < n ==> #[trigger] best@[x] == chain_len(m, pairs@, x, r as nat),
                forall|x: int| 0 <= x < n ==> #[trigger] best@[x] <= r,
                next.len() == s,
                forall|x: int| 0 <= x < s ==> #[trigger] next@[x] == chain_len(m, pairs@, x, (r + 1) as nat),
                forall|x: int| 0 <= x < s ==> #[trigger] next@[x] <= r + 1,
        {
            let mut b: usize = 0;
            let mut i: usize = 0;
            while i < kk
                invariant
                    n == nfa.states.len(),
                    kk == pairs.len(),
                    0 < kk <= 360000,
                    r < kk,
                    s < n,
                    i <= kk,
                    forall|k: int| 0 <= k < pairs.len() ==> (#[trigger] pairs@[k]).0 < n && pairs@[k].1 < n,
                    reach.len() == n,
                    forall|x: int| 0 <= x < n ==> #[trigger] reach@[x].len() == n,
                    forall|x: int, y: int| 0 <= x < n && 0 <= y < n ==> (#[trigger] reach@[x]@[y] <==> reaches(nfa_graph(m), x, y)),
                    best.len() == n,
                    forall|x: int| 0 <= x < n ==> #[trigger] best@[x] == chain_len(m, pairs@, x, r as nat),
                    forall|x: int| 0 <= x < n ==> #[trigger] best@[x] <= r,
                    b == chain_best(m, pairs@, s as int, (r + 1) as nat, i as int),
                    b <= r + 1,
                decreases kk - i,
            {
                let (p, q) = pairs[i];
                assert(pairs@[i as int].0 < n && pairs@[i as int].1 < n);
                assert(reach@[s as int].len() == n);
                if reach[s][p] {
                    let c = 1 + best[q];
                    if c > b {
                        b = c;
                    }
                }
                i = i + 1;
            }
            next.push(b);
        }
        let mut same = true;
        let mut s: usize = 0;
        while s < n
            invariant
                best.len() == n,
                next.len() == n,
                s <= n,
                same <==> forall|x: int| 0 <= x < s ==> #[trigger] best@[x] == next@[x],
            decreases n - s,
        {
            if best[s] != next[s] {
                same = false;
            }
            s = s + 1;
        }
        let ghost old_best = best@;
        best = next;
        r = r + 1;
        if same {
            proof {
                assert forall|k: int| 0 <= k < pairs.len() implies #[trigger] chain_len(m, pairs@, pairs@[k].1 as int, ((r - 1) as nat + 1) as nat) == chain_len(m, pairs@, pairs@[k].1 as int, (r - 1) as nat) by {
                    let x = pairs@[k].1 as int;
                    assert(old_best[x] == best@[x]);
                }
                lemma_chain_fixpoint(m, pairs@, (r - 1) as nat, (kk - 1) as nat);
                assert forall|x: int| 0 <= x < n implies #[trigger] best@[x] == chain_len(m, pairs@, x, kk as nat) by {
                    assert(chain_len(m, pairs@, x, ((kk - 1) as nat + 1) as nat) == chain_len(m, pairs@, x, ((r - 1) as nat + 1) as nat));
                }
            }
            break;
        }
    }
    let d = 1 + best[nfa.start];
    Some(d as u32)
}

/// The polynomial degree of the backtracking blowup: one more than the longest
/// chain of IDA pairs found (see [`ida_search`] and [`chain_degree`]), or `None`
/// when no IDA pair was found. Whenever the search does not stop at a bound
/// (see [`ida_outcome`]), in particular when [`ida_work_bound`] is within the
/// budget, every IDA pair is found.
pub fn polynomial_degree(nfa: &Nfa) -> (r: Option<u32>)
    requires
        nfa.wf(),
    ensures
        exists|t: int| 0 <= t <= nfa.states.len() * nfa.states.len() && r == chain_degree_spec(nfa@, #[trigger] ida_pairs_below(nfa@, t)),
        r matches Some(d) ==> has_ida_spec(nfa@) && d >= 2,
        nfa.states.len() > MAX_STATES ==> r is None,
        nfa.states.len() <= MAX_STATES && ida_work_bound(nfa@) < VISIT_CAP ==> r == chain_degree_spec(
            nfa@,
            ida_pairs_below(nfa@, nfa.states.len() * nfa.states.len()),
        ),
        r == chain_degree_spec(nfa@, ida_outcome(nfa@, false).0),
        !ida_outcome(nfa@, false).1 ==> r == chain_degree_spec(nfa@, ida_pairs_below(nfa@, nfa.states.len() * nfa.states.len())),
{
    let search = ida_search(nfa, false);
    proof {
        assert(nfa.states.len() <= MAX_STATES ==> nfa.states.len() * nfa.states.len() <= 360000) by (nonlinear_arith)
            requires MAX_STATES == 600;
        assert forall|k: int| 0 <= k < search.pairs.len() implies (#[trigger] search.pairs@[k]).0 < nfa.states.len() && search.pairs@[k].1 < nfa.states.len() by {
            assert(ida_pair(nfa@, search.pairs@[k].0 as int, search.pairs@[k].1 as int));
        }
    }
    let r = chain_degree(nfa, &search.pairs);
    proof {
        if search.pairs.len() > 0 {
            let p0 = search.pairs@[0];
            assert(ida_pair(nfa@, p0.0 as int, p0.1 as int));
            assert(reaches(nfa_graph(nfa@), nfa@.start, p0.0 as int));
            let kk = search.pairs.len();
            assert(chain_len(nfa@, search.pairs@, nfa@.start, kk as nat) >= 1) by {
                lemma_chain_best_ge(nfa@, search.pairs@, nfa@.start, kk as nat, kk as int, 0);
            }
        }
    }
    r
}

proof fn lemma_chain_best_ge(m: NfaModel, pairs: Seq<(usize, usize)>, s: int, r: nat, i: int, k: int)
    requires
        r >= 1,
        0 <= k < i <= pairs.len(),
        reaches(nfa_graph(m), s, pairs[k].0 as int),
    ensures
        chain_best(m, pairs, s, r, i) >= 1,
    decreases i,
{
    if i - 1 > k {
        lemma_chain_best_ge(m, pairs, s, r, i - 1, k);
    }
}

proof fn lemma_chain_len_le(m: NfaModel, pairs: Seq<(usize, usize)>, s: int, r: nat)
    ensures
        chain_len(m, pairs, s, r) <= r,
    decreases r, pairs.len() + 1,
{
    if r > 0 {
        lemma_chain_best_le(m, pairs, s, r, pairs.len() as int);
    }
}

proof fn lemma_chain_best_le(m: NfaModel, pairs: Seq<(usize, usize)>, s: int, r: nat, i: int)
    requires
        r >= 1,
    ensures
        chain_best(m, pairs, s, r, i) <= r,
    decreases r, i,
{
    if i > 0 && i <= pairs.len() {
        lemma_chain_best_le(m, pairs, s, r, i - 1);
        lemma_chain_len_le(m, pairs, pairs[i - 1].1 as int, (r - 1) as nat);
    }
}

/// A degree read off the IDA pairs found before any point of the search order
/// is super-linear (at least 2), at most one more than the number of pairs, and
/// rests on a real IDA pair.
pub proof fn lemma_found_degree(m: NfaModel, t: int)
    requires
        m.wf(),
        0 <= t <= m.len() * m.len(),
        m.len() * m.len() < u32::MAX,
    ensures
        chain_degree_spec(m, ida_pairs_below(m, t)) matches Some(d) ==> {
            &&& 2 <= d <= 1 + ida_pairs_below(m, t).len()
            &&& has_ida_spec(m)
        },
{
    let pairs = ida_pairs_below(m, t);
    if pairs.len() > 0 {
        lemma_ida_pairs_below(m, t);
        let kk = pairs.len();
        let p0 = pairs[0];
        assert(ida_pair(m, p0.0 as int, p0.1 as int));
        lemma_chain_best_ge(m, pairs, m.start, kk as nat, kk as int, 0);
        lemma_chain_len_le(m, pairs, m.start, kk as nat);
    }
}

} // verus!
