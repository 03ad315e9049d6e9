//! Pump prefixes: for each state the automaton can reach, an input that leads
//! there from the start state, so that an attack can first reach a loop that
//! is not at the start of the pattern.
use vstd::prelude::*;

use crate::graph::{
    count_true, falses, lemma_count_true_all_false, lemma_count_true_bound, lemma_count_true_set, lemma_reaches_closed,
    lemma_reaches_refl,
};
use crate::nfa::{eps_edge, eps_graph, in_ranges, in_ranges_exec, move_view, Nfa, NfaModel, Ranges};
use crate::simulate::{
    closure_states, lemma_run_states_eps, lemma_run_states_in_range, lemma_run_states_move, moves_to, run_states,
    step_states,
};
use crate::text::skip_chars;

verus! {

/// State `s` has a labeled transition that reads `c`.
pub open spec fn reads(m: NfaModel, s: int, c: char) -> bool {
    exists|j: int, t: int| #[trigger] moves_to(m, s, j, t, c)
}

/// Reading `p` from the start can leave the automaton in a state that reads `c`.
pub open spec fn leads_to_reader(m: NfaModel, p: Seq<char>, c: char) -> bool {
    exists|s: int| #[trigger] run_states(m, p).contains(s) && reads(m, s, c)
}

/// No input leaves the automaton in a state that reads `c`.
pub open spec fn unreadable(m: NfaModel, c: char) -> bool {
    forall|w: Seq<char>, s: int| #[trigger] run_states(m, w).contains(s) ==> !reads(m, s, c)
}

/// `pf` gives, for each character, an input leading to a state that reads it,
/// or `None` only when no input does.
pub open spec fn prefixes_ok(m: NfaModel, pf: spec_fn(char) -> Option<Seq<char>>) -> bool {
    forall|c: char|
        match #[trigger] pf(c) {
            Some(p) => leads_to_reader(m, p, c),
            None => unreadable(m, c),
        }
}

/// The first entry of the table, from the `i`-th on, whose state reads `c`:
/// its input.
pub open spec fn first_reader(m: NfaModel, order: Seq<usize>, wits: Seq<Seq<char>>, c: char, i: int) -> Option<Seq<char>>
    decreases order.len() - i,
{
    if i < 0 || i >= order.len() {
        None
    } else if reads(m, order[i] as int, c) {
        Some(wits[i])
    } else {
        first_reader(m, order, wits, c, i + 1)
    }
}

/// A table of states with, for each, an input leading to it; every state any
/// input can lead to is listed.
pub open spec fn witness_table(m: NfaModel, order: Seq<usize>, wits: Seq<Seq<char>>) -> bool {
    &&& order.len() == wits.len()
    &&& forall|i: int| 0 <= i < order.len() ==> #[trigger] run_states(m, wits[i]).contains(order[i] as int)
    &&& forall|w: Seq<char>, s: int| #[trigger] run_states(m, w).contains(s) ==> order.contains(s as usize)
}

pub open spec fn wits_view(wit: Seq<Vec<char>>) -> Seq<Seq<char>> {
    wit.map_values(|v: Vec<char>| v@)
}

proof fn lemma_first_reader(m: NfaModel, order: Seq<usize>, wits: Seq<Seq<char>>, c: char, i: int)
    requires
        m.wf(),
        witness_table(m, order, wits),
        0 <= i,
        forall|k: int| 0 <= k < i && k < order.len() ==> !reads(m, #[trigger] order[k] as int, c),
    ensures
        match first_reader(m, order, wits, c, i) {
            Some(p) => leads_to_reader(m, p, c),
            None => unreadable(m, c),
        },
    decreases order.len() - i,
{
    if i < order.len() {
        if reads(m, order[i] as int, c) {
            assert(run_states(m, wits[i]).contains(order[i] as int));
        } else {
            lemma_first_reader(m, order, wits, c, i + 1);
        }
    } else {
        assert forall|w: Seq<char>, s: int| #[trigger] run_states(m, w).contains(s) implies !reads(m, s, c) by {
            assert(order.contains(s as usize));
            let k = choose|k: int| 0 <= k < order.len() && order[k] == s as usize;
            lemma_run_states_in_range(m, w, s);
            assert(order[k] as int == s);
        }
    }
}

/// The prefixes a witness table gives satisfy [`prefixes_ok`].
pub proof fn lemma_table_prefixes(m: NfaModel, order: Seq<usize>, wits: Seq<Seq<char>>)
    requires
        m.wf(),
        witness_table(m, order, wits),
    ensures
        prefixes_ok(m, |c: char| first_reader(m, order, wits, c, 0)),
{
    let pf = |c: char| first_reader(m, order, wits, c, 0);
    assert forall|c: char|
        match #[trigger] pf(c) {
            Some(p) => leads_to_reader(m, p, c),
            None => unreadable(m, c),
        } by {
        lemma_first_reader(m, order, wits, c, 0);
    }
}

/// Does state `s` read `c`?
fn reads_exec(nfa: &Nfa, s: usize, c: char) -> (b: bool)
    requires
        nfa.wf(),
        s < nfa.states.len(),
    ensures
        b == reads(nfa@, s as int, c),
{
    let ghost m = nfa@;
    let moves = &nfa.states[s].moves;
    assert(moves@.map_values(|mv: (Ranges, usize)| move_view(mv)) == m.states[s as int].moves);
    let mut j: usize = 0;
    while j < moves.len()
        invariant
            m == nfa@,
            s < nfa.states.len(),
            moves@.map_values(|mv: (Ranges, usize)| move_view(mv)) == m.states[s as int].moves,
            j <= moves.len(),
            forall|j2: int| 0 <= j2 < j ==> !in_ranges(#[trigger] m.states[s as int].moves[j2].0, c),
        decreases moves.len() - j,
    {
        assert(m.states[s as int].moves[j as int] == move_view(moves@[j as int]));
        if in_ranges_exec(&moves[j].0, c) {
            assert(moves_to(m, s as int, j as int, m.states[s as int].moves[j as int].1 as int, c));
            return true;
        }
        j = j + 1;
    }
    assert forall|j2: int, t: int| !#[trigger] moves_to(m, s as int, j2, t, c) by {
        if moves_to(m, s as int, j2, t, c) {
            assert(!in_ranges(m.states[s as int].moves[j2].0, c));
        }
    }
    false
}

/// The input the table gives for the first listed state that reads `c`.
pub fn prefix_for(nfa: &Nfa, order: &Vec<usize>, wit: &Vec<Vec<char>>, c: char) -> (r: Option<Vec<char>>)
    requires
        nfa.wf(),
        order.len() == wit.len(),
        forall|i: int| 0 <= i < order.len() ==> #[trigger] order@[i] < nfa.states.len(),
    ensures
        match r {
            Some(p) => first_reader(nfa@, order@, wits_view(wit@), c, 0) == Some(p@),
            None => first_reader(nfa@, order@, wits_view(wit@), c, 0) is None,
        },
{
    let ghost m = nfa@;
    let ghost wv = wits_view(wit@);
    let mut i: usize = 0;
    while i < order.len()
        invariant
            nfa.wf(),
            m == nfa@,
            wv == wits_view(wit@),
            order.len() == wit.len(),
            forall|k: int| 0 <= k < order.len() ==> #[trigger] order@[k] < nfa.states.len(),
            i <= order.len(),
            first_reader(m, order@, wv, c, i as int) == first_reader(m, order@, wv, c, 0),
        decreases order.len() - i,
    {
        if reads_exec(nfa, order[i], c) {
            let p = skip_chars(&wit[i], 0);
            assert(wit@[i as int]@.skip(0) =~= wit@[i as int]@);
            return Some(p);
        }
        i = i + 1;
    }
    None
}

/// The epsilon targets `eps[k..]` of a state reached by `w`: each not yet
/// visited is marked and listed, reached by `w` too.
pub open spec fn bfs_eps(
    eps: Seq<usize>,
    k: int,
    vis: Seq<bool>,
    order: Seq<usize>,
    wits: Seq<Seq<char>>,
    w: Seq<char>,
) -> (Seq<bool>, Seq<usize>, Seq<Seq<char>>)
    decreases eps.len() - k,
{
    if k < 0 || k >= eps.len() {
        (vis, order, wits)
    } else {
        let t = eps[k];
        if vis[t as int] {
            bfs_eps(eps, k + 1, vis, order, wits, w)
        } else {
            bfs_eps(eps, k + 1, vis.update(t as int, true), order.push(t), wits.push(w), w)
        }
    }
}

/// The labeled moves `mvs[j..]` of a state reached by `w`: each target not yet
/// visited, of a move with a range, is marked and listed, reached by `w` and the
/// low end of the move's first range.
pub open spec fn bfs_moves(
    mvs: Seq<(Seq<(char, char)>, usize)>,
    j: int,
    vis: Seq<bool>,
    order: Seq<usize>,
    wits: Seq<Seq<char>>,
    w: Seq<char>,
) -> (Seq<bool>, Seq<usize>, Seq<Seq<char>>)
    decreases mvs.len() - j,
{
    if j < 0 || j >= mvs.len() {
        (vis, order, wits)
    } else {
        let t = mvs[j].1;
        if mvs[j].0.len() > 0 && !vis[t as int] {
            bfs_moves(mvs, j + 1, vis.update(t as int, true), order.push(t), wits.push(w.push(mvs[j].0[0].0)), w)
        } else {
            bfs_moves(mvs, j + 1, vis, order, wits, w)
        }
    }
}

/// Breadth-first search from the listed state at `head` on, for at most
/// `fuel` states: the states in discovery order, each with its input.
pub open spec fn bfs_run(
    m: NfaModel,
    vis: Seq<bool>,
    order: Seq<usize>,
    wits: Seq<Seq<char>>,
    head: int,
    fuel: nat,
) -> (Seq<usize>, Seq<Seq<char>>)
    decreases fuel,
{
    if fuel == 0 || head < 0 || head >= order.len() {
        (order, wits)
    } else {
        let s = order[head];
        let a = bfs_eps(m.states[s as int].eps, 0, vis, order, wits, wits[head]);
        let b = bfs_moves(m.states[s as int].moves, 0, a.0, a.1, a.2, wits[head]);
        bfs_run(m, b.0, b.1, b.2, head + 1, (fuel - 1) as nat)
    }
}

/// The states reachable from the start in breadth-first discovery order
/// (epsilon targets before move targets), each with the input that first led
/// there: empty for the start, and one character more for each labeled move.
pub open spec fn witness_bfs(m: NfaModel) -> (Seq<usize>, Seq<Seq<char>>) {
    let n = m.len();
    bfs_run(
        m,
        Seq::new(n as nat, |i: int| false).update(m.start, true),
        seq![m.start as usize],
        seq![Seq::<char>::empty()],
        0,
        (2 * n + 1) as nat,
    )
}

/// The pump prefixes the search finds: for each character, the input of the
/// first state in breadth-first order that reads it.
pub open spec fn pump_prefixes(m: NfaModel) -> spec_fn(char) -> Option<Seq<char>> {
    |c: char| first_reader(m, witness_bfs(m).0, witness_bfs(m).1, c, 0)
}

/// For every state the automaton can reach, an input that leads to it, in
/// breadth-first order from the start state: the input of a state reached by
/// an epsilon transition is that of its predecessor; one reached by a labeled
/// transition extends it by the lowest character of the transition's first
/// range.
pub fn reach_witnesses(nfa: &Nfa) -> (res: (Vec<usize>, Vec<Vec<char>>))
    requires
        nfa.wf(),
    ensures
        (res.0@, wits_view(res.1@)) == witness_bfs(nfa@),
        witness_table(nfa@, res.0@, wits_view(res.1@)),
        forall|i: int| 0 <= i < res.0.len() ==> #[trigger] res.0@[i] < nfa.states.len(),
{
    let ghost m = nfa@;
    let n = nfa.states.len();
    let mut visited = falses(n);
    let mut order: Vec<usize> = Vec::new();
    let mut wit: Vec<Vec<char>> = Vec::new();
    proof {
        lemma_count_true_all_false(n as nat);
        lemma_count_true_set(visited@, nfa.start as int);
        lemma_reaches_refl(eps_graph(m), m.start);
        assert(set![m.start].contains(m.start));
        assert(run_states(m, Seq::<char>::empty()) == closure_states(m, set![m.start]));
    }
    visited.set(nfa.start, true);
    order.push(nfa.start);
    wit.push(Vec::new());
    let mut head: usize = 0;
    let ghost mut fuel: nat = (2 * m.len() + 1) as nat;
    proof {
        assert(order@ =~= seq![m.start as usize]);
        assert(wits_view(wit@) =~= seq![Seq::<char>::empty()]);
        assert(wits_view(wit@)[0] =~= Seq::<char>::empty());
        assert forall|x: int| 0 <= x < n && #[trigger] visited@[x] implies order@.contains(x as usize) by {
            assert(x == m.start);
            assert(order@[0] == nfa.start);
        }
    }
    while head < order.len()
        invariant
            m == nfa@,
            m.wf(),
            n == nfa.states.len(),
            visited.len() == n,
            order.len() == wit.len(),
            head <= order.len(),
            count_true(visited@) == order.len(),
            order.len() <= n,
            visited@[m.start],
            forall|i: int| 0 <= i < order.len() ==> #[trigger] order@[i] < n && visited@[order@[i] as int],
            forall|i: int| 0 <= i < order.len() ==> #[trigger] run_states(m, wits_view(wit@)[i]).contains(order@[i] as int),
            forall|x: int| 0 <= x < n && #[trigger] visited@[x] ==> order@.contains(x as usize),
            forall|i: int, y: int| 0 <= i < head && #[trigger] eps_edge(m, order@[i] as int, y) ==> 0 <= y < n && visited@[y],
            forall|i: int, j: int|
                0 <= i < head && 0 <= j < m.states[order@[i] as int].moves.len()
                    && #[trigger] m.states[order@[i] as int].moves[j].0.len() > 0 ==> m.states[order@[i] as int].moves[j].1 < n
                    && visited@[m.states[order@[i] as int].moves[j].1 as int],
            2 * (n - order.len()) + (order.len() - head) <= fuel,
            bfs_run(m, visited@, order@, wits_view(wit@), head as int, fuel) == witness_bfs(m),
        decreases 2 * (n - order.len()) + (order.len() - head),
    {
        proof {
            lemma_count_true_bound(visited@);
        }
        let s = order[head];
        let w = skip_chars(&wit[head], 0);
        let ghost wv = wit@[head as int]@;
        let ghost len0 = order.len();
        assert(w@ =~= wv);
        assert(wits_view(wit@)[head as int] == wv);
        assert(run_states(m, wv).contains(s as int));
        let eps = &nfa.states[s].eps;
        assert(eps@ == m.states[s as int].eps);
        let ghost vis0 = visited@;
        let ghost order0 = order@;
        let ghost wits0 = wits_view(wit@);
        let ghost fuel0 = fuel;
        let mut k: usize = 0;
        while k < eps.len()
            invariant
                m == nfa@,
                m.wf(),
                n == nfa.states.len(),
                s < n,
                s == order@[head as int],
                w@ == wv,
                run_states(m, wv).contains(s as int),
                eps@ == m.states[s as int].eps,
                k <= eps.len(),
                visited.len() == n,
                order.len() == wit.len(),
                head < order.len(),
                count_true(visited@) == order.len(),
                order.len() <= n,
                order.len() >= len0,
                visited@[m.start],
                forall|i: int| 0 <= i < order.len() ==> #[trigger] order@[i] < n && visited@[order@[i] as int],
                forall|i: int| 0 <= i < order.len() ==> #[trigger] run_states(m, wits_view(wit@)[i]).contains(order@[i] as int),
                forall|x: int| 0 <= x < n && #[trigger] visited@[x] ==> order@.contains(x as usize),
                forall|i: int, y: int| 0 <= i < head && #[trigger] eps_edge(m, order@[i] as int, y) ==> 0 <= y < n && visited@[y],
                forall|i: int, j: int|
                0 <= i < head && 0 <= j < m.states[order@[i] as int].moves.len()
                    && #[trigger] m.states[order@[i] as int].moves[j].0.len() > 0 ==> m.states[order@[i] as int].moves[j].1 < n
                    && visited@[m.states[order@[i] as int].moves[j].1 as int],
                forall|k2: int| 0 <= k2 < k ==> #[trigger] visited@[eps@[k2] as int],
                bfs_eps(eps@, k as int, visited@, order@, wits_view(wit@), wv) == bfs_eps(eps@, 0, vis0, order0, wits0, wv),
            decreases eps.len() - k,
        {
            let t = eps[k];
            assert(m.states[s as int].eps[k as int] < n);
            assert(bfs_eps(eps@, k as int, visited@, order@, wits_view(wit@), wv) == if visited@[t as int] {
                bfs_eps(eps@, k + 1, visited@, order@, wits_view(wit@), wv)
            } else {
                bfs_eps(eps@, k + 1, visited@.update(t as int, true), order@.push(t), wits_view(wit@).push(wv), wv)
            });
            if !visited[t] {
                proof {
                    lemma_count_true_set(visited@, t as int);
                    lemma_count_true_bound(visited@.update(t as int, true));
                    assert(eps_edge(m, s as int, t as int));
                    lemma_run_states_eps(m, wv, s as int, t as int);
                }
                let ghost ob = order@;
                let ghost wb = wits_view(wit@);
                visited.set(t, true);
                order.push(t);
                let wt = skip_chars(&w, 0);
                wit.push(wt);
                proof {
                    assert(wits_view(wit@) =~= wb.push(wt@));
                    assert(wt@ =~= wv);
                    assert forall|x: int| 0 <= x < n && #[trigger] visited@[x] implies order@.contains(x as usize) by {
                        if x == t {
                            assert(order@[order.len() - 1] == t);
                        } else {
                            let y = choose|y: int| 0 <= y < ob.len() && ob[y] == x as usize;
                            assert(order@[y] == x as usize);
                        }
                    }
                }
            }
            k = k + 1;
        }
        let moves = &nfa.states[s].moves;
        assert(moves@.map_values(|mv: (Ranges, usize)| move_view(mv)) == m.states[s as int].moves);
        let ghost vis1 = visited@;
        let ghost order1 = order@;
        let ghost wits1 = wits_view(wit@);
        assert(bfs_eps(eps@, eps@.len() as int, visited@, order@, wits_view(wit@), wv) == (visited@, order@, wits_view(wit@)));
        let mut j: usize = 0;
        while j < moves.len()
            invariant
                m == nfa@,
                m.wf(),
                n == nfa.states.len(),
                s < n,
                s == order@[head as int],
                w@ == wv,
                run_states(m, wv).contains(s as int),
                eps@ == m.states[s as int].eps,
                moves@.map_values(|mv: (Ranges, usize)| move_view(mv)) == m.states[s as int].moves,
                j <= moves.len(),
                visited.len() == n,
                order.len() == wit.len(),
                head < order.len(),
                count_true(visited@) == order.len(),
                order.len() <= n,
                order.len() >= len0,
                visited@[m.start],
                forall|i: int| 0 <= i < order.len() ==> #[trigger] order@[i] < n && visited@[order@[i] as int],
                forall|i: int| 0 <= i < order.len() ==> #[trigger] run_states(m, wits_view(wit@)[i]).contains(order@[i] as int),
                forall|x: int| 0 <= x < n && #[trigger] visited@[x] ==> order@.contains(x as usize),
                forall|i: int, y: int| 0 <= i < head && #[trigger] eps_edge(m, order@[i] as int, y) ==> 0 <= y < n && visited@[y],
                forall|i: int, j: int|
                0 <= i < head && 0 <= j < m.states[order@[i] as int].moves.len()
                    && #[trigger] m.states[order@[i] as int].moves[j].0.len() > 0 ==> m.states[order@[i] as int].moves[j].1 < n
                    && visited@[m.states[order@[i] as int].moves[j].1 as int],
                forall|k2: int| 0 <= k2 < eps@.len() ==> #[trigger] visited@[eps@[k2] as int],
                forall|j2: int| 0 <= j2 < j && #[trigger] m.states[s as int].moves[j2].0.len() > 0 ==> visited@[m.states[s as int].moves[j2].1 as int],
                bfs_moves(m.states[s as int].moves, j as int, visited@, order@, wits_view(wit@), wv) == bfs_moves(
                    m.states[s as int].moves,
                    0,
                    vis1,
                    order1,
                    wits1,
                    wv,
                ),
            decreases moves.len() - j,
        {
            assert(moves@.map_values(|mv: (Ranges, usize)| move_view(mv)).len() == moves@.len());
            assert(m.states[s as int].moves[j as int] == move_view(moves@[j as int]));
            assert(m.states[s as int].moves[j as int].1 < n);
            let t = moves[j].1;
            assert(t < n);
            assert(m.states[s as int].moves[j as int].0.len() == moves@[j as int].0@.len());
            assert(bfs_moves(m.states[s as int].moves, j as int, visited@, order@, wits_view(wit@), wv) == if m.states[s as int].moves[j as int].0.len() > 0 && !visited@[t as int] {
                bfs_moves(
                    m.states[s as int].moves,
                    j + 1,
                    visited@.update(t as int, true),
                    order@.push(t),
                    wits_view(wit@).push(wv.push(m.states[s as int].moves[j as int].0[0].0)),
                    wv,
                )
            } else {
                bfs_moves(m.states[s as int].moves, j + 1, visited@, order@, wits_view(wit@), wv)
            });
            if moves[j].0.len() > 0 && !visited[t] {
                let c = moves[j].0[0].0;
                proof {
                    lemma_count_true_set(visited@, t as int);
                    lemma_count_true_bound(visited@.update(t as int, true));
                    let r = m.states[s as int].moves[j as int].0;
                    assert(r[0] == moves@[j as int].0@[0]);
                    assert(crate::syntax::ranges_wf(r));
                    assert(r[0].0 <= r[0].1);
                    assert(in_ranges(r, c));
                    assert(moves_to(m, s as int, j as int, t as int, c));
                    lemma_run_states_move(m, wv, s as int, j as int, t as int, c);
                }
                let ghost ob = order@;
                let ghost wb = wits_view(wit@);
                visited.set(t, true);
                order.push(t);
                let mut wt = skip_chars(&w, 0);
                wt.push(c);
                wit.push(wt);
                proof {
                    assert(wits_view(wit@) =~= wb.push(wt@));
                    assert(wt@ =~= wv.push(c));
                    assert forall|x: int| 0 <= x < n && #[trigger] visited@[x] implies order@.contains(x as usize) by {
                        if x == t {
                            assert(order@[order.len() - 1] == t);
                        } else {
                            let y = choose|y: int| 0 <= y < ob.len() && ob[y] == x as usize;
                            assert(order@[y] == x as usize);
                        }
                    }
                }
            }
            j = j + 1;
        }
        proof {
            assert(bfs_moves(m.states[s as int].moves, moves@.len() as int, visited@, order@, wits_view(wit@), wv) == (
                visited@,
                order@,
                wits_view(wit@),
            ));
            assert(wits0[head as int] == wv);
            assert(bfs_run(m, vis0, order0, wits0, head as int, fuel) == bfs_run(
                m,
                visited@,
                order@,
                wits_view(wit@),
                head + 1,
                (fuel - 1) as nat,
            ));
            fuel = (fuel - 1) as nat;
        }
        proof {
            assert forall|i: int, y: int| 0 <= i < head + 1 && #[trigger] eps_edge(m, order@[i] as int, y) implies 0 <= y < n && visited@[y] by {
                if i == head {
                    let k2 = choose|k2: int| 0 <= k2 < m.states[s as int].eps.len() && #[trigger] m.states[s as int].eps[k2] as int == y;
                    assert(visited@[eps@[k2] as int]);
                }
            }
        }
        head = head + 1;
    }
    proof {
        assert(bfs_run(m, visited@, order@, wits_view(wit@), head as int, fuel) == (order@, wits_view(wit@)));
        let set = |z: int| 0 <= z < n && visited@[z];
        lemma_witness_complete(m, order@, visited@, Seq::<char>::empty());
        assert forall|w: Seq<char>, s: int| #[trigger] run_states(m, w).contains(s) implies order@.contains(s as usize) by {
            lemma_witness_complete(m, order@, visited@, w);
        }
    }
    (order, wit)
}

proof fn lemma_witness_complete(m: NfaModel, order: Seq<usize>, visited: Seq<bool>, w: Seq<char>)
    requires
        m.wf(),
        visited.len() == m.len(),
        visited[m.start],
        forall|i: int| 0 <= i < order.len() ==> #[trigger] order[i] < m.len() && visited[order[i] as int],
        forall|x: int| 0 <= x < m.len() && #[trigger] visited[x] ==> order.contains(x as usize),
        forall|i: int, y: int| 0 <= i < order.len() && #[trigger] eps_edge(m, order[i] as int, y) ==> 0 <= y < m.len() && visited[y],
        forall|i: int, j: int|
                0 <= i < order.len() && 0 <= j < m.states[order[i] as int].moves.len()
                    && #[trigger] m.states[order[i] as int].moves[j].0.len() > 0 ==> m.states[order[i] as int].moves[j].1 < m.len()
                    && visited[m.states[order[i] as int].moves[j].1 as int],
    ensures
        forall|s: int| #[trigger] run_states(m, w).contains(s) ==> 0 <= s < m.len() && visited[s],
    decreases w.len(),
{
    let g = eps_graph(m);
    let set = |z: int| 0 <= z < m.len() && visited[z];
    assert forall|x: int, y: int| set(x) && #[trigger] g(x, y) implies set(y) by {
        let i = choose|i: int| 0 <= i < order.len() && order[i] == x as usize;
        assert(eps_edge(m, order[i] as int, y));
    }
    let cur = if w.len() == 0 {
        set![m.start]
    } else {
        step_states(m, run_states(m, w.drop_last()), w.last())
    };
    if w.len() > 0 {
        lemma_witness_complete(m, order, visited, w.drop_last());
    }
    assert forall|x: int| #[trigger] cur.contains(x) implies set(x) by {
        if w.len() > 0 {
            let c = w.last();
            let prev = run_states(m, w.drop_last());
            let (s0, j) = choose|s0: int, j: int| #![trigger prev.contains(s0), moves_to(m, s0, j, x, c)] prev.contains(s0) && moves_to(m, s0, j, x, c);
            let i = choose|i: int| 0 <= i < order.len() && order[i] == s0 as usize;
            assert(in_ranges(m.states[s0].moves[j].0, c));
            assert(m.states[order[i] as int].moves[j].0.len() > 0);
        }
    }
    assert forall|s: int| #[trigger] run_states(m, w).contains(s) implies 0 <= s < m.len() && visited[s] by {
        let x = choose|x: int| #![trigger cur.contains(x), crate::graph::reaches(g, x, s)] cur.contains(x) && 0 <= x < m.len() && crate::graph::reaches(g, x, s);
        lemma_reaches_closed(g, set, x, s);
    }
}

} // verus!
