//! Sound EDA (Exponential Degree of Ambiguity) detection via the product NFA.
//!
//! Build the product `A x A` over epsilon-free, character-labeled moves: from a
//! pair `(p, q)` there is an edge to `(p', q')` when both copies can read some
//! common symbol (`p --R1--> p'`, `q --R2--> q'`, `R1` and `R2` share a char).
//!
//! A pattern has EDA iff, reachable from `(start, start)`, some diagonal node
//! `(m, m)` lies on a cycle that passes through an off-diagonal node `(p, q)`
//! with `p != q`: two distinct paths read the same pumpable string.
use vstd::prelude::*;

use crate::graph::{
    adj_edge, adj_graph, adj_wf, lists_view, reach, reach_spec, count_true, falses, lemma_adj_edge_bound, lemma_adj_push,
    lemma_count_true_all_false, lemma_count_true_bound, lemma_count_true_mono, lemma_count_true_set, lemma_reaches_closed,
    lemma_reaches_mono, lemma_reaches_refl, lemma_reaches_restricted, lemma_reaches_reverse,
    lemma_reaches_step, reaches,
};
use crate::nfa::{
    ef_has, ef_lists, ef_spec, epsfree_listing, epsfree_moves, is_epsfree_table, move_view, moves_view,
    ranges_intersect, ranges_overlap, share_char, Nfa, NfaModel, Ranges,
};
use crate::syntax::ranges_wf;

verus! {

/// Above this NFA size the product (quadratically many nodes) is too expensive;
/// the detector then answers `false` (fail-safe: no false positives).
pub const MAX_STATES: usize = 1000;

/// Total node-visit budget across the analysis; exhausting it answers `false`.
pub const VISIT_CAP: usize = 5_000_000;

/// The product node of the pair `(p, q)` among `n` states.
pub open spec fn pnode(n: int, p: int, q: int) -> int {
    p * n + q
}

/// In the product automaton, `(p, q)` moves to `(p2, q2)`: both copies have an
/// epsilon-free move, to `p2` and to `q2`, on a common character.
pub open spec fn pair_step(m: NfaModel, p: int, q: int, p2: int, q2: int) -> bool {
    exists|r1: Seq<(char, char)>, r2: Seq<(char, char)>|
        #[trigger] ef_has(m, p, r1, p2) && #[trigger] ef_has(m, q, r2, q2) && share_char(r1, r2)
}

/// An edge of the product automaton, on encoded nodes.
pub open spec fn prod_edge(m: NfaModel, a: int, b: int) -> bool {
    let n = m.len();
    exists|p: int, q: int, p2: int, q2: int|
        0 <= p < n && 0 <= q < n && 0 <= p2 < n && 0 <= q2 < n && a == pnode(n, p, q) && b == pnode(n, p2, q2)
            && #[trigger] pair_step(m, p, q, p2, q2)
}

pub open spec fn prod_graph(m: NfaModel) -> spec_fn(int, int) -> bool {
    |a: int, b: int| prod_edge(m, a, b)
}

/// The diagonal node `(d, d)` is reachable from `(start, start)` and lies on a
/// cycle through an off-diagonal node.
pub open spec fn diag_cycle(m: NfaModel, d: int) -> bool {
    let n = m.len();
    &&& 0 <= d < n
    &&& reaches(prod_graph(m), pnode(n, m.start, m.start), pnode(n, d, d))
    &&& exists|p: int, q: int|
        0 <= p < n && 0 <= q < n && p != q && #[trigger] reaches(prod_graph(m), pnode(n, d, d), pnode(n, p, q))
            && reaches(prod_graph(m), pnode(n, p, q), pnode(n, d, d))
}

/// Exponential degree of ambiguity: some diagonal product node reachable from
/// the start lies on a cycle through an off-diagonal node.
pub open spec fn has_eda_spec(m: NfaModel) -> bool {
    exists|d: int| #[trigger] diag_cycle(m, d)
}

proof fn lemma_pnode(n: int, p: int, q: int)
    requires
        0 <= p < n,
        0 <= q < n,
    ensures
        0 <= pnode(n, p, q) < n * n,
        pnode(n, p, q) / n == p,
        pnode(n, p, q) % n == q,
{
    vstd::arithmetic::div_mod::lemma_fundamental_div_mod_converse(p * n + q, n, p, q);
    assert(p * n + q < n * n) by (nonlinear_arith)
        requires 0 <= p < n, 0 <= q < n;
    assert(0 <= p * n) by (nonlinear_arith)
        requires 0 <= p, 0 <= n;
}

proof fn lemma_decode(n: int, x: int)
    requires
        0 < n,
        0 <= x < n * n,
    ensures
        0 <= x / n < n,
        0 <= x % n < n,
        x == pnode(n, x / n, x % n),
{
    vstd::arithmetic::div_mod::lemma_fundamental_div_mod(x, n);
    vstd::arithmetic::div_mod::lemma_div_pos_is_pos(x, n);
    vstd::arithmetic::div_mod::lemma_mod_pos_bound(x, n);
    let d = x / n;
    let r = x % n;
    assert(d < n) by (nonlinear_arith)
        requires x == n * d + r, 0 <= r, x < n * n, 0 < n;
    assert(n * (x / n) == (x / n) * n) by (nonlinear_arith);
}

/// The product edges out of `(p, q)`, read off the epsilon-free move table.
pub open spec fn table_step(ef: Seq<Vec<(Ranges, usize)>>, n: int, p: int, q: int, i: int, j: int, y: int) -> bool {
    &&& 0 <= i < ef[p].len()
    &&& 0 <= j < ef[q].len()
    &&& share_char(ef[p]@[i].0@, ef[q]@[j].0@)
    &&& y == pnode(n, ef[p]@[i].1 as int, ef[q]@[j].1 as int)
}

proof fn lemma_table_step_edge(m: NfaModel, ef: Seq<Vec<(Ranges, usize)>>, p: int, q: int, y: int)
    requires
        m.wf(),
        is_epsfree_table(m, ef),
        0 <= p < m.len(),
        0 <= q < m.len(),
    ensures
        prod_edge(m, pnode(m.len(), p, q), y) <==> exists|i: int, j: int| #[trigger] table_step(ef, m.len(), p, q, i, j, y),
{
    let n = m.len();
    lemma_pnode(n, p, q);
    if prod_edge(m, pnode(n, p, q), y) {
        let (p0, q0, p2, q2) = choose|p0: int, q0: int, p2: int, q2: int|
            0 <= p0 < n && 0 <= q0 < n && 0 <= p2 < n && 0 <= q2 < n && pnode(n, p, q) == pnode(n, p0, q0) && y == pnode(
                n,
                p2,
                q2,
            ) && #[trigger] pair_step(m, p0, q0, p2, q2);
        lemma_pnode(n, p0, q0);
        let (r1, r2) = choose|r1: Seq<(char, char)>, r2: Seq<(char, char)>|
            #[trigger] ef_has(m, p0, r1, p2) && #[trigger] ef_has(m, q0, r2, q2) && share_char(r1, r2);
        assert(ef_lists(ef, p, r1, p2));
        assert(ef_lists(ef, q, r2, q2));
        let i = choose|i: int| 0 <= i < moves_view(ef[p]@).len() && moves_view(ef[p]@)[i] == (r1, p2 as usize);
        let j = choose|j: int| 0 <= j < moves_view(ef[q]@).len() && moves_view(ef[q]@)[j] == (r2, q2 as usize);
        assert(move_view(ef[p]@[i]) == (r1, p2 as usize));
        assert(move_view(ef[q]@[j]) == (r2, q2 as usize));
        assert(table_step(ef, n, p, q, i, j, y));
    }
    if exists|i: int, j: int| #[trigger] table_step(ef, n, p, q, i, j, y) {
        let (i, j) = choose|i: int, j: int| #[trigger] table_step(ef, n, p, q, i, j, y);
        let r1 = ef[p]@[i].0@;
        let r2 = ef[q]@[j].0@;
        let p2 = ef[p]@[i].1 as int;
        let q2 = ef[q]@[j].1 as int;
        assert(moves_view(ef[p]@)[i] == (r1, p2 as usize));
        assert(moves_view(ef[q]@)[j] == (r2, q2 as usize));
        assert(ef_lists(ef, p, r1, p2));
        assert(ef_lists(ef, q, r2, q2));
        assert(pair_step(m, p, q, p2, q2));
        assert(ef[p]@[i].1 < n);
        assert(ef[q]@[j].1 < n);
    }
}

/// The moves `qs[j..]` of the second copy paired with the move `r1 -> a2` of
/// the first, from the product node `cur`: each pair reading a common
/// character adds the edge to `(a2, q2)` in both directions and queues that
/// node when it is new. The state is the nodes seen, the forward and reverse
/// adjacency lists and the queue.
pub open spec fn explore_pairs(
    n: int,
    cur: int,
    r1: Seq<(char, char)>,
    a2: usize,
    qs: Seq<(Seq<(char, char)>, usize)>,
    j: int,
    st: (Seq<bool>, Seq<Seq<usize>>, Seq<Seq<usize>>, Seq<usize>),
) -> (Seq<bool>, Seq<Seq<usize>>, Seq<Seq<usize>>, Seq<usize>)
    decreases qs.len() - j,
{
    if j < 0 || j >= qs.len() {
        st
    } else if ranges_overlap(r1, qs[j].0) {
        let next = a2 * n + qs[j].1;
        let fwd = st.1.update(cur, st.1[cur].push(next as usize));
        let rev = st.2.update(next, st.2[next].push(cur as usize));
        if st.0[next] {
            explore_pairs(n, cur, r1, a2, qs, j + 1, (st.0, fwd, rev, st.3))
        } else {
            explore_pairs(n, cur, r1, a2, qs, j + 1, (st.0.update(next, true), fwd, rev, st.3.push(next as usize)))
        }
    } else {
        explore_pairs(n, cur, r1, a2, qs, j + 1, st)
    }
}

/// The moves `ps[i..]` of the first copy, each paired with all of `qs`.
pub open spec fn explore_node(
    n: int,
    cur: int,
    ps: Seq<(Seq<(char, char)>, usize)>,
    qs: Seq<(Seq<(char, char)>, usize)>,
    i: int,
    st: (Seq<bool>, Seq<Seq<usize>>, Seq<Seq<usize>>, Seq<usize>),
) -> (Seq<bool>, Seq<Seq<usize>>, Seq<Seq<usize>>, Seq<usize>)
    decreases ps.len() - i,
{
    if i < 0 || i >= ps.len() {
        st
    } else {
        explore_node(n, cur, ps, qs, i + 1, explore_pairs(n, cur, ps[i].0, ps[i].1, qs, 0, st))
    }
}

/// Breadth-first exploration of the product from the queued node at `head`
/// on, one unit of `budget` per node taken off the queue, for at most `fuel`
/// nodes: the final state and the budget left.
pub open spec fn explore_run(
    ef: Seq<Seq<(Seq<(char, char)>, usize)>>,
    n: int,
    st: (Seq<bool>, Seq<Seq<usize>>, Seq<Seq<usize>>, Seq<usize>),
    head: int,
    budget: nat,
    fuel: nat,
) -> ((Seq<bool>, Seq<Seq<usize>>, Seq<Seq<usize>>, Seq<usize>), nat)
    decreases fuel,
{
    if fuel == 0 || head < 0 || head >= st.3.len() || budget == 0 {
        (st, budget)
    } else {
        let cur = st.3[head] as int;
        let next = explore_node(n, cur, ef[cur / n], ef[cur % n], 0, st);
        explore_run(ef, n, next, head + 1, (budget - 1) as nat, (fuel - 1) as nat)
    }
}

/// What the exploration of `m`'s product gives with `budget`.
pub open spec fn explore_spec(m: NfaModel, budget: nat) -> ((Seq<bool>, Seq<Seq<usize>>, Seq<Seq<usize>>, Seq<usize>), nat) {
    let n = m.len();
    let start = pnode(n, m.start, m.start);
    let init = (
        Seq::new((n * n) as nat, |i: int| false).update(start, true),
        Seq::new((n * n) as nat, |i: int| Seq::<usize>::empty()),
        Seq::new((n * n) as nat, |i: int| Seq::<usize>::empty()),
        seq![start as usize],
    );
    explore_run(ef_spec(m), n, init, 0, budget, (2 * n * n + 1) as nat)
}

/// The product graph explored from `(start, start)`: the nodes reached, and the
/// adjacency lists (both directions) of the explored nodes.
struct Explored {
    seen: Vec<bool>,
    fwd: Vec<Vec<usize>>,
    rev: Vec<Vec<usize>>,
}

/// Breadth-first exploration of the product automaton from `(start, start)`,
/// one unit of `budget` per node taken off the queue. When the budget lasts,
/// the explored nodes are exactly the reachable ones and `fwd` holds exactly
/// their product edges.
#[verifier::rlimit(60)]
fn explore_product(nfa: &Nfa, ef: &Vec<Vec<(Ranges, usize)>>, budget: &mut usize) -> (ex: Explored)
    requires
        nfa.wf(),
        0 < nfa.states.len() <= MAX_STATES,
        is_epsfree_table(nfa@, ef@),
        forall|s: int, i: int| 0 <= s < ef.len() && 0 <= i < ef@[s].len() ==> ranges_wf(#[trigger] ef@[s]@[i].0@),
        forall|s: int| 0 <= s < ef.len() ==> #[trigger] epsfree_listing(nfa@, s, ef@[s]@),
    ensures
        explore_spec(nfa@, *old(budget) as nat).0.0 == ex.seen@,
        explore_spec(nfa@, *old(budget) as nat).0.1 == lists_view(ex.fwd@),
        explore_spec(nfa@, *old(budget) as nat).0.2 == lists_view(ex.rev@),
        explore_spec(nfa@, *old(budget) as nat).1 == *final(budget) as nat,
        ({
            let n = nfa.states.len() as int;
            let m = nfa@;
            let st = pnode(n, m.start, m.start);
            &&& ex.seen.len() == n * n
            &&& ex.fwd.len() == n * n
            &&& ex.rev.len() == n * n
            &&& adj_wf(ex.fwd@)
            &&& adj_wf(ex.rev@)
            &&& ex.seen@[st]
            &&& forall|x: int| 0 <= x < n * n && #[trigger] ex.seen@[x] ==> reaches(prod_graph(m), st, x)
            &&& forall|x: int, y: int| #[trigger] adj_edge(ex.fwd@, x, y) ==> prod_edge(m, x, y)
            &&& forall|x: int, y: int| #[trigger] adj_edge(ex.rev@, x, y) <==> adj_edge(ex.fwd@, y, x)
            &&& forall|x: int, y: int| #[trigger] adj_edge(ex.fwd@, x, y) ==> 0 <= x < n * n && ex.seen@[x]
            &&& *final(budget) <= *old(budget)
            &&& *old(budget) - *final(budget) <= n * n
            &&& *old(budget) - *final(budget) <= count_true(ex.seen@)
            &&& (*final(budget) > 0 ==> {
                &&& forall|x: int, y: int| 0 <= x < n * n && ex.seen@[x] && #[trigger] prod_edge(m, x, y) ==> 0 <= y < n * n && ex.seen@[y]
                &&& forall|x: int, y: int| 0 <= x < n * n && ex.seen@[x] && #[trigger] prod_edge(m, x, y) ==> adj_edge(ex.fwd@, x, y)
            })
        }),
{
    let n = nfa.states.len();
    let ghost m = nfa@;
    let ghost g = prod_graph(m);
    let ghost b0 = *budget;
    assert(n * n <= MAX_STATES * MAX_STATES) by (nonlinear_arith)
        requires n <= MAX_STATES;
    let nn = n * n;
    proof {
        lemma_pnode(n as int, nfa.start as int, nfa.start as int);
    }
    let start = nfa.start * n + nfa.start;
    let mut fwd: Vec<Vec<usize>> = Vec::new();
    let mut rev: Vec<Vec<usize>> = Vec::new();
    for i in 0..nn
        invariant
            fwd.len() == i,
            rev.len() == i,
            forall|x: int| 0 <= x < i ==> #[trigger] fwd@[x]@.len() == 0,
            forall|x: int| 0 <= x < i ==> #[trigger] rev@[x]@.len() == 0,
    {
        fwd.push(Vec::new());
        rev.push(Vec::new());
    }
    let mut seen = falses(nn);
    proof {
        lemma_count_true_all_false(nn as nat);
        lemma_count_true_set(seen@, start as int);
        lemma_reaches_refl(g, start as int);
    }
    seen.set(start, true);
    let mut queue: Vec<usize> = Vec::new();
    queue.push(start);
    assert forall|x: int| 0 <= x < nn && #[trigger] seen@[x] implies queue@.contains(x as usize) by {
        assert(queue@[0] == start);
    }
    let mut head: usize = 0;
    let ghost efv = ef_spec(m);
    let ghost mut fuel: nat = (2 * n * n + 1) as nat;
    proof {
        assert(2 * n * n == 2 * nn) by (nonlinear_arith)
            requires nn == n * n;
        assert forall|x: int| 0 <= x < efv.len() implies #[trigger] efv[x] == moves_view(ef@[x]@) by {
            assert(epsfree_listing(m, x, ef@[x]@));
        }
        assert forall|x: int| 0 <= x < nn implies #[trigger] fwd@[x]@ =~= Seq::<usize>::empty() && rev@[x]@ =~= Seq::<usize>::empty() by {
            assert(fwd@[x]@.len() == 0);
            assert(rev@[x]@.len() == 0);
        }
        assert(lists_view(fwd@) =~= Seq::new((n * n) as nat, |i: int| Seq::<usize>::empty()));
        assert(lists_view(rev@) =~= Seq::new((n * n) as nat, |i: int| Seq::<usize>::empty()));
        assert(queue@ =~= seq![start]);
        assert(explore_run(efv, n as int, (seen@, lists_view(fwd@), lists_view(rev@), queue@), 0, b0 as nat, fuel) == explore_spec(m, b0 as nat));
    }
    while head < queue.len()
        invariant
            efv == ef_spec(m),
            efv.len() == n,
            forall|x: int| 0 <= x < efv.len() ==> #[trigger] efv[x] == moves_view(ef@[x]@),
            2 * (nn - queue.len()) + (queue.len() - head) <= fuel,
            explore_run(efv, n as int, (seen@, lists_view(fwd@), lists_view(rev@), queue@), head as int, *budget as nat, fuel) == explore_spec(m, b0 as nat),
            n == nfa.states.len(),
            m == nfa@,
            m.wf(),
            0 < n <= MAX_STATES,
            g == prod_graph(m),
            nn == n * n,
            is_epsfree_table(m, ef@),
            forall|s: int, i: int| 0 <= s < ef.len() && 0 <= i < ef@[s].len() ==> ranges_wf(#[trigger] ef@[s]@[i].0@),
            start == pnode(n as int, m.start, m.start),
            start < nn,
            seen.len() == nn,
            fwd.len() == nn,
            rev.len() == nn,
            head <= queue.len(),
            queue.len() == count_true(seen@),
            queue.len() <= nn,
            seen@[start as int],
            adj_wf(fwd@),
            adj_wf(rev@),
            forall|i: int| 0 <= i < queue.len() ==> #[trigger] queue@[i] < nn && seen@[queue@[i] as int],
            queue@.no_duplicates(),
            forall|x: int| 0 <= x < nn && #[trigger] seen@[x] ==> queue@.contains(x as usize),
            forall|x: int| 0 <= x < nn && #[trigger] seen@[x] ==> reaches(g, start as int, x),
            forall|i: int, y: int| 0 <= i < head && #[trigger] prod_edge(m, queue@[i] as int, y) ==> 0 <= y < nn && seen@[y],
            forall|i: int, y: int| 0 <= i < head && #[trigger] prod_edge(m, queue@[i] as int, y) ==> adj_edge(fwd@, queue@[i] as int, y),
            forall|x: int, y: int| #[trigger] adj_edge(fwd@, x, y) ==> prod_edge(m, x, y),
            forall|x: int, y: int| #[trigger] adj_edge(fwd@, x, y) ==> exists|i: int| 0 <= i < head && queue@[i] == x,
            forall|x: int, y: int| #[trigger] adj_edge(rev@, x, y) <==> adj_edge(fwd@, y, x),
            b0 - *budget == head,
            *budget <= b0,
        ensures
            *budget == 0 || head == queue.len(),
            explore_run(efv, n as int, (seen@, lists_view(fwd@), lists_view(rev@), queue@), head as int, *budget as nat, fuel) == explore_spec(m, b0 as nat),
            queue.len() == count_true(seen@),
            forall|i: int| 0 <= i < queue.len() ==> #[trigger] queue@[i] < nn && seen@[queue@[i] as int],
            forall|x: int, y: int| #[trigger] adj_edge(fwd@, x, y) ==> exists|i: int| 0 <= i < head && queue@[i] == x,
            seen.len() == nn,
            fwd.len() == nn,
            rev.len() == nn,
            head <= queue.len(),
            queue.len() <= nn,
            seen@[start as int],
            adj_wf(fwd@),
            adj_wf(rev@),
            forall|x: int| 0 <= x < nn && #[trigger] seen@[x] ==> queue@.contains(x as usize),
            forall|x: int| 0 <= x < nn && #[trigger] seen@[x] ==> reaches(g, start as int, x),
            forall|i: int, y: int| 0 <= i < head && #[trigger] prod_edge(m, queue@[i] as int, y) ==> 0 <= y < nn && seen@[y],
            forall|i: int, y: int| 0 <= i < head && #[trigger] prod_edge(m, queue@[i] as int, y) ==> adj_edge(fwd@, queue@[i] as int, y),
            forall|x: int, y: int| #[trigger] adj_edge(fwd@, x, y) ==> prod_edge(m, x, y),
            forall|x: int, y: int| #[trigger] adj_edge(rev@, x, y) <==> adj_edge(fwd@, y, x),
            b0 - *budget == head,
            *budget <= b0,
        decreases nn - head,
    {
        if *budget == 0 {
            break;
        }
        let ghost st_b = (seen@, lists_view(fwd@), lists_view(rev@), queue@);
        let ghost budget_b = *budget as nat;
        *budget = *budget - 1;
        let cur = queue[head];
        proof {
            lemma_decode(n as int, cur as int);
        }
        let p = cur / n;
        let q = cur % n;
        let ghost pending: spec_fn(int, int) -> bool = |i2: int, j2: int| true;
        let efp = &ef[p];
        let efq = &ef[q];
        let ghost fwd_cur0 = fwd@[cur as int]@;
        assert(fwd_cur0.len() == 0) by {
            if fwd_cur0.len() > 0 {
                assert(adj_edge(fwd@, cur as int, fwd_cur0[0] as int));
                let i = choose|i: int| 0 <= i < head && queue@[i] == cur;
                assert(queue@.no_duplicates());
            }
        }
        let ghost queue_b0 = queue@;
        let mut i: usize = 0;
        while i < efp.len()
            invariant
                n == nfa.states.len(),
                m == nfa@,
                m.wf(),
                0 < n <= MAX_STATES,
                g == prod_graph(m),
                nn == n * n,
                is_epsfree_table(m, ef@),
                forall|s: int, i: int| 0 <= s < ef.len() && 0 <= i < ef@[s].len() ==> ranges_wf(#[trigger] ef@[s]@[i].0@),
                start < nn,
                p < n,
                q < n,
                cur == pnode(n as int, p as int, q as int),
                efp == ef@[p as int],
                efq == ef@[q as int],
                seen.len() == nn,
                fwd.len() == nn,
                rev.len() == nn,
                head < queue.len(),
                queue@[head as int] == cur,
                queue.len() == count_true(seen@),
                queue.len() <= nn,
                seen@[start as int],
                seen@[cur as int],
                adj_wf(fwd@),
                adj_wf(rev@),
                forall|k: int| 0 <= k < queue.len() ==> #[trigger] queue@[k] < nn && seen@[queue@[k] as int],
                queue@.no_duplicates(),
                forall|x: int| 0 <= x < nn && #[trigger] seen@[x] ==> queue@.contains(x as usize),
                forall|x: int| 0 <= x < nn && #[trigger] seen@[x] ==> reaches(g, start as int, x),
                forall|k: int, y: int| 0 <= k < head && #[trigger] prod_edge(m, queue@[k] as int, y) ==> 0 <= y < nn && seen@[y],
                forall|k: int, y: int| 0 <= k < head && #[trigger] prod_edge(m, queue@[k] as int, y) ==> adj_edge(fwd@, queue@[k] as int, y),
                forall|x: int, y: int| #[trigger] adj_edge(fwd@, x, y) ==> prod_edge(m, x, y),
                forall|x: int, y: int| #[trigger] adj_edge(fwd@, x, y) ==> x == cur || exists|k: int| 0 <= k < head && queue@[k] == x,
                forall|x: int, y: int| #[trigger] adj_edge(rev@, x, y) <==> adj_edge(fwd@, y, x),
                forall|i2: int, j2: int, y: int|
                    0 <= i2 < i && #[trigger] table_step(ef@, n as int, p as int, q as int, i2, j2, y) ==> 0 <= y < nn && seen@[y]
                        && adj_edge(fwd@, cur as int, y),
                efv == ef_spec(m),
                efv.len() == n,
                forall|x: int| 0 <= x < efv.len() ==> #[trigger] efv[x] == moves_view(ef@[x]@),
                explore_node(n as int, cur as int, efv[p as int], efv[q as int], i as int, (seen@, lists_view(fwd@), lists_view(rev@), queue@)) == explore_node(
                    n as int,
                    cur as int,
                    efv[p as int],
                    efv[q as int],
                    0,
                    st_b,
                ),
                queue.len() >= queue_b0.len(),
            decreases efp.len() - i,
        {
            let ghost st_i = (seen@, lists_view(fwd@), lists_view(rev@), queue@);
            let mut j: usize = 0;
            while j < efq.len()
                invariant
                    n == nfa.states.len(),
                    m == nfa@,
                    m.wf(),
                    0 < n <= MAX_STATES,
                    g == prod_graph(m),
                    nn == n * n,
                    is_epsfree_table(m, ef@),
                    forall|s: int, i: int| 0 <= s < ef.len() && 0 <= i < ef@[s].len() ==> ranges_wf(#[trigger] ef@[s]@[i].0@),
                    start < nn,
                    p < n,
                    q < n,
                    i < efp.len(),
                    cur == pnode(n as int, p as int, q as int),
                    efp == ef@[p as int],
                    efq == ef@[q as int],
                    seen.len() == nn,
                    fwd.len() == nn,
                    rev.len() == nn,
                    head < queue.len(),
                    queue@[head as int] == cur,
                    queue.len() == count_true(seen@),
                    queue.len() <= nn,
                    seen@[start as int],
                    seen@[cur as int],
                    adj_wf(fwd@),
                    adj_wf(rev@),
                    forall|k: int| 0 <= k < queue.len() ==> #[trigger] queue@[k] < nn && seen@[queue@[k] as int],
                    queue@.no_duplicates(),
                    forall|x: int| 0 <= x < nn && #[trigger] seen@[x] ==> queue@.contains(x as usize),
                    forall|x: int| 0 <= x < nn && #[trigger] seen@[x] ==> reaches(g, start as int, x),
                    forall|k: int, y: int| 0 <= k < head && #[trigger] prod_edge(m, queue@[k] as int, y) ==> 0 <= y < nn && seen@[y],
                    forall|k: int, y: int| 0 <= k < head && #[trigger] prod_edge(m, queue@[k] as int, y) ==> adj_edge(fwd@, queue@[k] as int, y),
                    forall|x: int, y: int| #[trigger] adj_edge(fwd@, x, y) ==> prod_edge(m, x, y),
                    forall|x: int, y: int| #[trigger] adj_edge(fwd@, x, y) ==> x == cur || exists|k: int| 0 <= k < head && queue@[k] == x,
                    forall|x: int, y: int| #[trigger] adj_edge(rev@, x, y) <==> adj_edge(fwd@, y, x),
                    forall|i2: int, j2: int, y: int|
                        (0 <= i2 < i || (i2 == i && 0 <= j2 < j)) && #[trigger] table_step(ef@, n as int, p as int, q as int, i2, j2, y) ==> 0 <= y < nn
                            && seen@[y] && adj_edge(fwd@, cur as int, y),
                    efv == ef_spec(m),
                    efv.len() == n,
                    forall|x: int| 0 <= x < efv.len() ==> #[trigger] efv[x] == moves_view(ef@[x]@),
                    explore_node(n as int, cur as int, efv[p as int], efv[q as int], i as int, st_i) == explore_node(
                        n as int,
                        cur as int,
                        efv[p as int],
                        efv[q as int],
                        0,
                        st_b,
                    ),
                    explore_pairs(
                        n as int,
                        cur as int,
                        efv[p as int][i as int].0,
                        efv[p as int][i as int].1,
                        efv[q as int],
                        j as int,
                        (seen@, lists_view(fwd@), lists_view(rev@), queue@),
                    ) == explore_pairs(
                        n as int,
                        cur as int,
                        efv[p as int][i as int].0,
                        efv[p as int][i as int].1,
                        efv[q as int],
                        0,
                        st_i,
                    ),
                    queue.len() >= queue_b0.len(),
                decreases efq.len() - j,
            {
                let ghost st_j = (seen@, lists_view(fwd@), lists_view(rev@), queue@);
                let r1 = &efp[i].0;
                let p2 = efp[i].1;
                let r2 = &efq[j].0;
                let q2 = efq[j].1;
                assert(ranges_wf(ef@[p as int]@[i as int].0@));
                assert(ranges_wf(ef@[q as int]@[j as int].0@));
                let hit = ranges_intersect(r1, r2);
                if hit {
                    assert(ef@[p as int]@[i as int].1 < n);
                    assert(ef@[q as int]@[j as int].1 < n);
                    proof {
                        lemma_pnode(n as int, p2 as int, q2 as int);
                    }
                    let next = p2 * n + q2;
                    proof {
                        assert(table_step(ef@, n as int, p as int, q as int, i as int, j as int, next as int));
                        lemma_table_step_edge(m, ef@, p as int, q as int, next as int);
                        assert(prod_edge(m, cur as int, next as int));
                    }
                    let ghost f0 = fwd@;
                    let ghost r0 = rev@;
                    fwd[cur].push(next);
                    rev[next].push(cur);
                    proof {
                        lemma_adj_push(f0, fwd@, cur as int, next);
                        lemma_adj_push(r0, rev@, next as int, cur);
                        assert forall|x: int, jj: int| 0 <= x < fwd@.len() && 0 <= jj < fwd@[x].len() implies #[trigger] fwd@[x]@[jj] < fwd@.len() by {
                            if x == cur && jj == f0[x].len() {
                            } else if x == cur {
                                assert(fwd@[x]@[jj] == f0[x]@[jj]);
                            } else {
                                assert(fwd@[x] == f0[x]);
                            }
                        }
                        assert forall|x: int, jj: int| 0 <= x < rev@.len() && 0 <= jj < rev@[x].len() implies #[trigger] rev@[x]@[jj] < rev@.len() by {
                            if x == next && jj == r0[x].len() {
                            } else if x == next {
                                assert(rev@[x]@[jj] == r0[x]@[jj]);
                            } else {
                                assert(rev@[x] == r0[x]);
                            }
                        }
                    }
                    if !seen[next] {
                        let ghost sb = seen@;
                        let ghost qb = queue@;
                        proof {
                            lemma_count_true_set(seen@, next as int);
                            lemma_reaches_step(g, start as int, cur as int, next as int);
                            assert(!qb.contains(next)) by {
                                if qb.contains(next) {
                                    let k = choose|k: int| 0 <= k < qb.len() && qb[k] == next;
                                    assert(sb[qb[k] as int]);
                                }
                            }
                        }
                        seen.set(next, true);
                        queue.push(next);
                        proof {
                            lemma_count_true_bound(seen@);
                            assert forall|x: int| 0 <= x < nn && #[trigger] seen@[x] implies queue@.contains(x as usize) by {
                                if x != next {
                                    assert(sb[x]);
                                    let k = choose|k: int| 0 <= k < qb.len() && qb[k] == x as usize;
                                    assert(queue@[k] == x as usize);
                                } else {
                                    assert(queue@[queue.len() - 1] == next);
                                }
                            }
                            assert(queue@.no_duplicates()) by {
                                assert forall|a: int, b: int| 0 <= a < queue.len() && 0 <= b < queue.len() && a != b implies queue@[a] != queue@[b] by {
                                    if a == queue.len() - 1 && b < qb.len() {
                                        assert(qb.contains(qb[b]));
                                    } else if b == queue.len() - 1 && a < qb.len() {
                                        assert(qb.contains(qb[a]));
                                    }
                                }
                            }
                            assert forall|x: int, y: int| #[trigger] adj_edge(fwd@, x, y) implies x == cur || exists|k: int| 0 <= k < head && queue@[k] == x by {
                                if x != cur {
                                    let k = choose|k: int| 0 <= k < head && qb[k] == x;
                                    assert(queue@[k] == qb[k]);
                                }
                            }
                        }
                    } else {
                        proof {
                            assert forall|x: int, y: int| #[trigger] adj_edge(fwd@, x, y) implies x == cur || exists|k: int| 0 <= k < head && queue@[k] == x by {
                                if x != cur {
                                    assert(adj_edge(f0, x, y));
                                }
                            }
                        }
                    }
                } else {
                    proof {
                        assert(!table_step(ef@, n as int, p as int, q as int, i as int, j as int, (p2 * n + q2) as int));
                    }
                }
                proof {
                    assert forall|i2: int, j2: int, y: int|
                        (0 <= i2 < i || (i2 == i && 0 <= j2 < j + 1)) && #[trigger] table_step(ef@, n as int, p as int, q as int, i2, j2, y) implies 0 <= y < nn
                            && seen@[y] && adj_edge(fwd@, cur as int, y) by {
                        if i2 == i && j2 == j {
                            assert(hit);
                        }
                    }
                }
                proof {
                    assert(efv[q as int][j as int] == move_view(efq@[j as int]));
                    assert(efv[p as int][i as int] == move_view(efp@[i as int]));
                    let nx = efv[p as int][i as int].1 * n + efv[q as int][j as int].1;
                    assert(hit == ranges_overlap(efv[p as int][i as int].0, efv[q as int][j as int].0));
                    if hit {
                        assert(lists_view(fwd@) =~= st_j.1.update(cur as int, st_j.1[cur as int].push(nx as usize)));
                        assert(lists_view(rev@) =~= st_j.2.update(nx, st_j.2[nx].push(cur)));
                        if st_j.0[nx] {
                            assert(seen@ == st_j.0);
                            assert(queue@ == st_j.3);
                        } else {
                            assert(seen@ =~= st_j.0.update(nx, true));
                            assert(queue@ =~= st_j.3.push(nx as usize));
                        }
                    } else {
                        assert(lists_view(fwd@) =~= st_j.1);
                        assert(lists_view(rev@) =~= st_j.2);
                    }
                    assert(explore_pairs(
                        n as int,
                        cur as int,
                        efv[p as int][i as int].0,
                        efv[p as int][i as int].1,
                        efv[q as int],
                        j as int,
                        st_j,
                    ) == explore_pairs(
                        n as int,
                        cur as int,
                        efv[p as int][i as int].0,
                        efv[p as int][i as int].1,
                        efv[q as int],
                        j + 1,
                        (seen@, lists_view(fwd@), lists_view(rev@), queue@),
                    ));
                }
                j = j + 1;
            }
            proof {
                assert(explore_pairs(
                    n as int,
                    cur as int,
                    efv[p as int][i as int].0,
                    efv[p as int][i as int].1,
                    efv[q as int],
                    efq@.len() as int,
                    (seen@, lists_view(fwd@), lists_view(rev@), queue@),
                ) == (seen@, lists_view(fwd@), lists_view(rev@), queue@));
            }
            i = i + 1;
        }
        proof {
            assert forall|y: int| #[trigger] prod_edge(m, cur as int, y) implies 0 <= y < nn && seen@[y] && adj_edge(fwd@, cur as int, y) by {
                lemma_table_step_edge(m, ef@, p as int, q as int, y);
                let (i2, j2) = choose|i2: int, j2: int| #[trigger] table_step(ef@, n as int, p as int, q as int, i2, j2, y);
            }
        }
        head = head + 1;
        proof {
            assert(explore_node(n as int, cur as int, efv[p as int], efv[q as int], efp@.len() as int, (seen@, lists_view(fwd@), lists_view(rev@), queue@)) == (seen@, lists_view(fwd@), lists_view(rev@), queue@));
            assert(st_b.3[head - 1] == cur);
            assert(explore_run(efv, n as int, st_b, head - 1, budget_b, fuel) == explore_run(
                efv,
                n as int,
                (seen@, lists_view(fwd@), lists_view(rev@), queue@),
                head as int,
                (budget_b - 1) as nat,
                (fuel - 1) as nat,
            ));
            fuel = (fuel - 1) as nat;
        }
        proof {
            assert forall|x: int, y: int| #[trigger] adj_edge(fwd@, x, y) implies exists|k: int| 0 <= k < head && queue@[k] == x by {
                if x == cur {
                    assert(queue@[head - 1] == cur);
                }
            }
            assert forall|k: int, y: int| 0 <= k < head && #[trigger] prod_edge(m, queue@[k] as int, y) implies 0 <= y < nn && seen@[y] by {
                if k == head - 1 {
                    assert(queue@[k] == cur);
                }
            }
            assert forall|k: int, y: int| 0 <= k < head && #[trigger] prod_edge(m, queue@[k] as int, y) implies adj_edge(fwd@, queue@[k] as int, y) by {
                if k == head - 1 {
                    assert(queue@[k] == cur);
                }
            }
        }
    }
    proof {
        assert(explore_run(efv, n as int, (seen@, lists_view(fwd@), lists_view(rev@), queue@), head as int, *budget as nat, fuel) == ((seen@, lists_view(fwd@), lists_view(rev@), queue@), *budget as nat));
        assert forall|x: int, y: int| #[trigger] adj_edge(fwd@, x, y) implies 0 <= x < nn && seen@[x] by {
            let k = choose|k: int| 0 <= k < head && queue@[k] == x;
        }
        if *budget > 0 {
            assert forall|x: int, y: int| 0 <= x < nn && seen@[x] && #[trigger] prod_edge(m, x, y) implies 0 <= y < nn && seen@[y] && adj_edge(fwd@, x, y) by {
                assert(queue@.contains(x as usize));
                let k = choose|k: int| 0 <= k < queue.len() && queue@[k] == x as usize;
                assert(prod_edge(m, queue@[k] as int, y));
            }
        }
    }
    Explored { seen, fwd, rev }
}

/// The product nodes reachable from `(start, start)`, as flags.
pub open spec fn prod_reached(m: NfaModel) -> Seq<bool> {
    let n = m.len();
    Seq::new((n * n) as nat, |x: int| reaches(prod_graph(m), pnode(n, m.start, m.start), x))
}

/// The product nodes reachable from `d`, as flags.
pub open spec fn prod_from(m: NfaModel, d: int) -> Seq<bool> {
    let n = m.len();
    Seq::new((n * n) as nat, |x: int| reaches(prod_graph(m), d, x))
}

/// The product nodes reachable from `(start, start)` that reach `d`, as flags.
pub open spec fn prod_to(m: NfaModel, d: int) -> Seq<bool> {
    let n = m.len();
    Seq::new(
        (n * n) as nat,
        |x: int| reaches(prod_graph(m), pnode(n, m.start, m.start), x) && reaches(prod_graph(m), x, d),
    )
}

/// The node visits of the cycle checks of the diagonal nodes `(k, k)`, `k < t`,
/// reachable from `(start, start)`: the nodes each reaches and is reached from.
pub open spec fn eda_diag_work(m: NfaModel, t: int) -> int
    decreases t,
{
    if t <= 0 {
        0
    } else {
        let n = m.len();
        let d = pnode(n, t - 1, t - 1);
        eda_diag_work(m, t - 1) + if reaches(prod_graph(m), pnode(n, m.start, m.start), d) {
            count_true(prod_from(m, d)) + count_true(prod_to(m, d))
        } else {
            0
        }
    }
}

/// The node visits of a search that finds no cycle: exploring the reachable
/// product, then, for each reachable diagonal node, the nodes it reaches and the
/// nodes that reach it. A search that finds a cycle stops early.
pub open spec fn eda_work_bound(m: NfaModel) -> int {
    count_true(prod_reached(m)) + eda_diag_work(m, m.len() as int)
}

proof fn lemma_eda_diag_work(m: NfaModel, t1: int, t2: int)
    requires
        0 <= t1 <= t2,
    ensures
        0 <= eda_diag_work(m, t1) <= eda_diag_work(m, t2),
        eda_diag_work(m, t2) <= 2 * t2 * (m.len() * m.len()),
    decreases t2,
{
    if t2 > 0 {
        let n = m.len();
        let d = pnode(n, t2 - 1, t2 - 1);
        lemma_count_true_bound(prod_from(m, d));
        lemma_count_true_bound(prod_to(m, d));
        if t1 < t2 {
            lemma_eda_diag_work(m, t1, t2 - 1);
        } else {
            lemma_eda_diag_work(m, t1 - 1, t2 - 1);
        }
        let nn = n * n;
        assert(2 * (t2 - 1) * nn + 2 * nn == 2 * t2 * nn) by (nonlinear_arith);
    }
}

/// Some off-diagonal product node is in both `fw` and `bw`.
pub open spec fn meets_off_diagonal(fw: Seq<bool>, bw: Seq<bool>, n: int) -> bool {
    exists|x: int| 0 <= x < n * n && #[trigger] fw[x] && bw[x] && x / n != x % n
}

/// The cycle checks of the explored product `ex` from the diagonal node
/// `(k, k)` on, with `budget` node visits left: for each reached diagonal node,
/// the nodes it reaches and the nodes that reach it back; whether a cycle
/// through an off-diagonal node was found, and whether the budget ran out.
pub open spec fn eda_diag_run(
    n: int,
    ex: (Seq<bool>, Seq<Seq<usize>>, Seq<Seq<usize>>, Seq<usize>),
    k: int,
    budget: nat,
) -> (bool, bool)
    decreases n - k,
{
    if k < 0 || k >= n {
        (false, false)
    } else {
        let d = pnode(n, k, k);
        if ex.0[d] {
            let f = reach_spec(ex.1, d, budget);
            let b = reach_spec(ex.2, d, f.1);
            if meets_off_diagonal(f.0, b.0, n) {
                (true, false)
            } else if b.1 == 0 {
                (false, true)
            } else {
                eda_diag_run(n, ex, k + 1, b.1)
            }
        } else {
            eda_diag_run(n, ex, k + 1, budget)
        }
    }
}

/// The outcome of [`eda_search`] on `m`, in its order and within its limits:
/// whether it finds a cycle, and whether it gives up.
pub open spec fn eda_outcome(m: NfaModel) -> (bool, bool) {
    let n = m.len();
    if n == 0 {
        (false, false)
    } else if n > MAX_STATES {
        (false, true)
    } else {
        let e = explore_spec(m, VISIT_CAP as nat);
        if e.1 == 0 {
            (false, true)
        } else {
            eda_diag_run(n, e.0, 0, e.1)
        }
    }
}

/// The outcome of the EDA search.
pub struct EdaSearch {
    /// A diagonal product node on a cycle through an off-diagonal node was found.
    pub found: bool,
    /// The search stopped at a limit (the automaton's size or the visit
    /// budget) before it was done.
    pub gave_up: bool,
}

/// The EDA search: explore the product automaton from `(start, start)`, then
/// for each diagonal node it reaches, in order, look for an off-diagonal node
/// that it reaches and that reaches it back, within [`VISIT_CAP`] node visits.
///
/// It finds a cycle only where one exists, and whenever it did not give up its
/// answer is exact. It does not give up where [`eda_work_bound`] is within the
/// budget (so for every automaton of at most 128 states).
pub fn eda_search(nfa: &Nfa) -> (res: EdaSearch)
    requires
        nfa.wf(),
    ensures
        (res.found, res.gave_up) == eda_outcome(nfa@),
        res.found ==> has_eda_spec(nfa@) && !res.gave_up,
        !res.gave_up ==> (res.found <==> has_eda_spec(nfa@)),
        nfa.states.len() > MAX_STATES ==> res.gave_up && !res.found,
        nfa.states.len() <= MAX_STATES && eda_work_bound(nfa@) < VISIT_CAP ==> !res.gave_up,
        nfa.states.len() <= 128 ==> !res.gave_up,
{
    let n = nfa.states.len();
    if n == 0 {
        return EdaSearch { found: false, gave_up: false };
    }
    if n > MAX_STATES {
        return EdaSearch { found: false, gave_up: true };
    }
    let ghost m = nfa@;
    let ghost g = prod_graph(m);
    let ghost small = eda_work_bound(m) < VISIT_CAP;
    let ghost vcount = count_true(prod_reached(m));
    proof {
        lemma_eda_diag_work(m, 0, n as int);
        lemma_count_true_bound(prod_reached(m));
        if n <= 128 {
            assert(n * n <= 16384) by (nonlinear_arith)
                requires n <= 128;
            assert(2 * n * (n * n) <= 2 * 128 * 16384) by (nonlinear_arith)
                requires n <= 128, n * n <= 16384;
            assert(small);
        }
    }
    let ef = epsfree_moves(nfa);
    let mut budget: usize = VISIT_CAP;
    let ex = explore_product(nfa, &ef, &mut budget);
    let ghost e = explore_spec(m, VISIT_CAP as nat);
    let ghost b_ex = budget as nat;
    let ghost st = pnode(n as int, m.start, m.start);
    proof {
        lemma_count_true_mono(ex.seen@, prod_reached(m));
        assert(VISIT_CAP - budget <= vcount);
        if small {
            assert(budget > 0);
        }
        if budget > 0 {
            lemma_pnode(n as int, m.start, m.start);
            let set = |z: int| 0 <= z < n * n && ex.seen@[z];
            assert forall|a: int, b: int| set(a) && #[trigger] g(a, b) implies set(b) by {}
            assert forall|x: int| 0 <= x < n * n && #[trigger] reaches(g, st, x) implies ex.seen@[x] by {
                lemma_reaches_closed(g, set, st, x);
            }
        }
    }
    if budget == 0 {
        return EdaSearch { found: false, gave_up: true };
    }
    let nn = n * n;
    let mut k: usize = 0;
    while k < n
        invariant
            n == nfa.states.len(),
            m == nfa@,
            m.wf(),
            0 < n <= MAX_STATES,
            g == prod_graph(m),
            nn == n * n,
            st == pnode(n as int, m.start, m.start),
            k <= n,
            ex.seen.len() == nn,
            ex.fwd.len() == nn,
            ex.rev.len() == nn,
            adj_wf(ex.fwd@),
            adj_wf(ex.rev@),
            forall|x: int| 0 <= x < nn && #[trigger] ex.seen@[x] ==> reaches(g, st, x),
            forall|x: int, y: int| #[trigger] adj_edge(ex.fwd@, x, y) ==> prod_edge(m, x, y),
            forall|x: int, y: int| #[trigger] adj_edge(ex.fwd@, x, y) ==> 0 <= x < nn && ex.seen@[x],
            forall|x: int, y: int| #[trigger] adj_edge(ex.rev@, x, y) <==> adj_edge(ex.fwd@, y, x),
            budget > 0,
            small == (eda_work_bound(m) < VISIT_CAP),
            n <= 128 ==> small,
            vcount == count_true(prod_reached(m)),
            VISIT_CAP - budget <= vcount + eda_diag_work(m, k as int),
            budget <= VISIT_CAP,
            forall|x: int, y: int| 0 <= x < nn && ex.seen@[x] && #[trigger] prod_edge(m, x, y) ==> 0 <= y < nn && ex.seen@[y],
            forall|x: int, y: int| 0 <= x < nn && ex.seen@[x] && #[trigger] prod_edge(m, x, y) ==> adj_edge(ex.fwd@, x, y),
            forall|k2: int| 0 <= k2 < k ==> !#[trigger] diag_cycle(m, k2),
            forall|x: int| 0 <= x < nn && #[trigger] reaches(g, st, x) ==> ex.seen@[x],
            e == explore_spec(m, VISIT_CAP as nat),
            e.0.0 == ex.seen@,
            e.0.1 == lists_view(ex.fwd@),
            e.0.2 == lists_view(ex.rev@),
            eda_outcome(m) == eda_diag_run(n as int, e.0, 0, b_ex),
            eda_diag_run(n as int, e.0, k as int, budget as nat) == eda_diag_run(n as int, e.0, 0, b_ex),
        decreases n - k,
    {
        proof {
            lemma_pnode(n as int, k as int, k as int);
            lemma_eda_diag_work(m, k as int + 1, n as int);
        }
        let d = k * n + k;
        if ex.seen[d] {
            let ghost bk = budget as nat;
            let forward = reach(&ex.fwd, d, &mut budget);
            let backward = reach(&ex.rev, d, &mut budget);
            proof {
                assert forall|x: int| 0 <= x < nn && #[trigger] forward@[x] implies prod_from(m, d as int)[x] by {
                    assert forall|a: int, b: int| #[trigger] adj_graph(ex.fwd@)(a, b) implies g(a, b) by {}
                    lemma_reaches_mono(adj_graph(ex.fwd@), g, d as int, x);
                }
                lemma_count_true_mono(forward@, prod_from(m, d as int));
                assert forall|x: int| 0 <= x < nn && #[trigger] backward@[x] implies prod_to(m, d as int)[x] by {
                    assert forall|a: int, b: int| #[trigger] adj_graph(ex.rev@)(a, b) implies g(b, a) by {
                        assert(adj_edge(ex.fwd@, b, a));
                    }
                    lemma_reaches_reverse(g, adj_graph(ex.rev@), d as int, x);
                    let set = |z: int| z == d || (0 <= z < nn && ex.seen@[z]);
                    assert forall|a: int, b: int| set(a) && #[trigger] adj_graph(ex.rev@)(a, b) implies set(b) by {
                        assert(adj_edge(ex.fwd@, b, a));
                    }
                    lemma_reaches_closed(adj_graph(ex.rev@), set, d as int, x);
                }
                lemma_count_true_mono(backward@, prod_to(m, d as int));
                assert(reaches(g, st, d as int));
                assert(VISIT_CAP - budget <= vcount + eda_diag_work(m, k as int + 1));
            }
            let mut x: usize = 0;
            #[verifier::loop_isolation(false)]
            while x < nn
                invariant
                    n == nfa.states.len(),
                    0 < n,
                    nn == n * n,
                    x <= nn,
                    forward.len() == nn,
                    backward.len() == nn,
                    forall|x2: int| 0 <= x2 < x ==> !(#[trigger] forward@[x2] && backward@[x2] && x2 / (n as int) != x2 % (n as int)),
                decreases nn - x,
            {
                if forward[x] && backward[x] && x / n != x % n {
                    proof {
                        lemma_decode(n as int, x as int);
                        let p = x as int / n as int;
                        let q = x as int % n as int;
                        assert forall|a: int, b: int| #[trigger] adj_graph(ex.fwd@)(a, b) implies g(a, b) by {}
                        lemma_reaches_mono(adj_graph(ex.fwd@), g, d as int, x as int);
                        assert forall|a: int, b: int| #[trigger] adj_graph(ex.rev@)(a, b) implies g(b, a) by {
                            assert(adj_edge(ex.fwd@, b, a));
                        }
                        lemma_reaches_reverse(g, adj_graph(ex.rev@), d as int, x as int);
                        assert(reaches(g, pnode(n as int, k as int, k as int), pnode(n as int, p, q)));
                        assert(diag_cycle(m, k as int));
                    }
                    proof {
                        assert(forward@[x as int] && backward@[x as int]);
                        assert(meets_off_diagonal(forward@, backward@, n as int));
                    }
                    return EdaSearch { found: true, gave_up: false };
                }
                x = x + 1;
            }
            if budget == 0 {
                return EdaSearch { found: false, gave_up: true };
            }
            proof {
                if small {
                    assert(budget > 0);
                }
                if budget > 0 {
                    assert(!diag_cycle(m, k as int)) by {
                        if diag_cycle(m, k as int) {
                            let (p, q) = choose|p: int, q: int|
                                0 <= p < n && 0 <= q < n && p != q && #[trigger] reaches(g, pnode(n as int, k as int, k as int), pnode(n as int, p, q))
                                    && reaches(g, pnode(n as int, p, q), pnode(n as int, k as int, k as int));
                            lemma_pnode(n as int, p, q);
                            let pq = pnode(n as int, p, q);
                            let set = |z: int| 0 <= z < nn && ex.seen@[z];
                            assert forall|a: int, b: int| set(a) && #[trigger] g(a, b) implies set(b) by {}
                            assert forall|a: int, b: int| set(a) && #[trigger] g(a, b) implies adj_graph(ex.fwd@)(a, b) by {}
                            lemma_reaches_restricted(g, adj_graph(ex.fwd@), set, d as int, pq);
                            lemma_reaches_closed(g, set, d as int, pq);
                            lemma_reaches_restricted(g, adj_graph(ex.fwd@), set, pq, d as int);
                            assert forall|a: int, b: int| #[trigger] adj_graph(ex.fwd@)(a, b) implies adj_graph(ex.rev@)(b, a) by {}
                            lemma_reaches_reverse(adj_graph(ex.rev@), adj_graph(ex.fwd@), pq, d as int);
                            assert(forward@[pq]);
                            assert(backward@[pq]);
                            assert(!(forward@[pq] && backward@[pq] && pq / (n as int) != pq % (n as int)));
                        }
                    }
                }
            }

        } else {
            proof {
                assert(!diag_cycle(m, k as int));
            }
        }
        k = k + 1;
    }
    proof {
        assert(!has_eda_spec(m)) by {
            if has_eda_spec(m) {
                let d = choose|d: int| #[trigger] diag_cycle(m, d);
                assert(!diag_cycle(m, d));
            }
        }
    }
    EdaSearch { found: false, gave_up: false }
}

/// Does `nfa` exhibit exponential-degree ambiguity (exponential backtracking)?
///
/// Sound: `true` only when [`has_eda_spec`] holds. The search is bounded (at
/// most [`MAX_STATES`] states and [`VISIT_CAP`] node visits) and answers `false`
/// when a bound is hit; whenever it does not stop at a bound (see
/// [`eda_search`]) the answer is exact.
pub fn has_eda(nfa: &Nfa) -> (r: bool)
    requires
        nfa.wf(),
    ensures
        r == eda_outcome(nfa@).0,
        !eda_outcome(nfa@).1 ==> (r <==> has_eda_spec(nfa@)),
        r ==> has_eda_spec(nfa@),
        nfa.states.len() > MAX_STATES ==> !r,
        nfa.states.len() <= MAX_STATES && eda_work_bound(nfa@) < VISIT_CAP ==> (r <==> has_eda_spec(nfa@)),
        nfa.states.len() <= 128 ==> (r <==> has_eda_spec(nfa@)),
{
    eda_search(nfa).found
}

} // verus!
