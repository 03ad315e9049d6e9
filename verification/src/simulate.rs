//! Whole-string simulation of an [`Nfa`] (epsilon-closure powerset).
use vstd::prelude::*;

use crate::graph::{
    count_true, falses, lemma_count_true_all_false, lemma_count_true_bound, lemma_count_true_set,
    lemma_reaches_closed, lemma_reaches_refl, lemma_reaches_step, reaches,
};
use crate::nfa::{eps_edge, eps_graph, in_ranges, in_ranges_exec, lemma_eps_reach_in_range, move_view, Nfa, NfaModel, Ranges};

verus! {

/// `s` has a labeled transition, its `j`-th, to `t` that reads `c`.
pub open spec fn moves_to(m: NfaModel, s: int, j: int, t: int, c: char) -> bool {
    &&& 0 <= s < m.len()
    &&& 0 <= j < m.states[s].moves.len()
    &&& m.states[s].moves[j].1 == t
    &&& in_ranges(m.states[s].moves[j].0, c)
}

/// The states reached from `cur` by one transition reading `c`.
pub open spec fn step_states(m: NfaModel, cur: Set<int>, c: char) -> Set<int> {
    Set::new(|t: int| exists|s: int, j: int| #![trigger cur.contains(s), moves_to(m, s, j, t, c)] cur.contains(s) && moves_to(m, s, j, t, c))
}

/// The states reached from `cur` by epsilon transitions (`cur` included).
pub open spec fn closure_states(m: NfaModel, cur: Set<int>) -> Set<int> {
    Set::new(|u: int| exists|s: int| #![trigger cur.contains(s), reaches(eps_graph(m), s, u)] cur.contains(s) && 0 <= s < m.len() && reaches(eps_graph(m), s, u))
}

/// The states the automaton can be in after reading `input`.
pub open spec fn run_states(m: NfaModel, input: Seq<char>) -> Set<int>
    decreases input.len(),
{
    if input.len() == 0 {
        closure_states(m, set![m.start])
    } else {
        closure_states(m, step_states(m, run_states(m, input.drop_last()), input.last()))
    }
}

/// The automaton accepts the whole of `input`.
pub open spec fn accepts(m: NfaModel, input: Seq<char>) -> bool {
    run_states(m, input).contains(m.accept)
}

/// Some seed reaches `u` by epsilon transitions.
pub open spec fn seed_reaches(m: NfaModel, seeds: Seq<usize>, u: int) -> bool {
    exists|k: int| 0 <= k < seeds.len() && #[trigger] reaches(eps_graph(m), seeds[k] as int, u)
}

pub proof fn lemma_run_states_in_range(m: NfaModel, input: Seq<char>, u: int)
    requires
        m.wf(),
        run_states(m, input).contains(u),
    ensures
        0 <= u < m.len(),
    decreases input.len(),
{
    let cur = if input.len() == 0 {
        set![m.start]
    } else {
        step_states(m, run_states(m, input.drop_last()), input.last())
    };
    let s = choose|s: int| #![trigger cur.contains(s), reaches(eps_graph(m), s, u)] cur.contains(s) && 0 <= s < m.len() && reaches(eps_graph(m), s, u);
    lemma_eps_reach_in_range(m, s, u);
}

/// The states after reading `w` are closed under epsilon transitions.
pub proof fn lemma_run_states_eps(m: NfaModel, w: Seq<char>, s: int, t: int)
    requires
        m.wf(),
        run_states(m, w).contains(s),
        eps_edge(m, s, t),
    ensures
        run_states(m, w).contains(t),
{
    let cur = if w.len() == 0 {
        set![m.start]
    } else {
        step_states(m, run_states(m, w.drop_last()), w.last())
    };
    let x = choose|x: int| #![trigger cur.contains(x), reaches(eps_graph(m), x, s)] cur.contains(x) && 0 <= x < m.len() && reaches(eps_graph(m), x, s);
    lemma_reaches_step(eps_graph(m), x, s, t);
    assert(cur.contains(x) && reaches(eps_graph(m), x, t));
}

/// Reading one more character moves along a labeled transition that reads it.
pub proof fn lemma_run_states_move(m: NfaModel, w: Seq<char>, s: int, j: int, t: int, c: char)
    requires
        m.wf(),
        run_states(m, w).contains(s),
        moves_to(m, s, j, t, c),
    ensures
        run_states(m, w.push(c)).contains(t),
{
    let w2 = w.push(c);
    assert(w2.drop_last() =~= w);
    assert(w2.last() == c);
    let st = step_states(m, run_states(m, w), c);
    assert(st.contains(t));
    assert(0 <= t < m.len());
    lemma_reaches_refl(eps_graph(m), t);
    assert(closure_states(m, st).contains(t));
}

proof fn lemma_run_states_stay_empty(m: NfaModel, input: Seq<char>, i: int)
    requires
        0 <= i <= input.len(),
        run_states(m, input.take(i)) =~= Set::<int>::empty(),
    ensures
        run_states(m, input) =~= Set::<int>::empty(),
    decreases input.len() - i,
{
    if i < input.len() {
        let p = input.take(i + 1);
        assert(p.drop_last() =~= input.take(i));
        assert(step_states(m, run_states(m, p.drop_last()), p.last()) =~= Set::<int>::empty());
        assert(run_states(m, p) =~= Set::<int>::empty());
        lemma_run_states_stay_empty(m, input, i + 1);
    } else {
        assert(input.take(i) =~= input);
    }
}

/// The states reachable from `cur` after reading `w`, reading from the front.
pub open spec fn run_from(m: NfaModel, cur: Set<int>, w: Seq<char>) -> Set<int>
    decreases w.len(),
{
    let c = closure_states(m, cur);
    if w.len() == 0 {
        c
    } else {
        run_from(m, step_states(m, c, w[0]), w.drop_first())
    }
}

proof fn lemma_run_from_push(m: NfaModel, cur: Set<int>, w: Seq<char>, c: char)
    ensures
        run_from(m, cur, w.push(c)) == closure_states(m, step_states(m, run_from(m, cur, w), c)),
    decreases w.len(),
{
    let cl = closure_states(m, cur);
    if w.len() == 0 {
        let next = step_states(m, cl, c);
        assert(w.push(c).drop_first() =~= Seq::<char>::empty());
        assert(w.push(c)[0] == c);
        assert(run_from(m, cur, w) == cl);
        assert(run_from(m, next, Seq::<char>::empty()) == closure_states(m, next));
        assert(run_from(m, cur, w.push(c)) == run_from(m, next, w.push(c).drop_first()));
    } else {
        let next = step_states(m, cl, w[0]);
        assert(w.push(c).drop_first() =~= w.drop_first().push(c));
        assert(w.push(c)[0] == w[0]);
        lemma_run_from_push(m, next, w.drop_first(), c);
        assert(run_from(m, cur, w) == run_from(m, next, w.drop_first()));
        assert(run_from(m, cur, w.push(c)) == run_from(m, next, w.push(c).drop_first()));
    }
}

/// Reading from the front and from the back agree: the states after `input`
/// are those reached from the start state.
pub proof fn lemma_run_states_from_start(m: NfaModel, input: Seq<char>)
    ensures
        run_states(m, input) == run_from(m, set![m.start], input),
    decreases input.len(),
{
    if input.len() > 0 {
        lemma_run_states_from_start(m, input.drop_last());
        lemma_run_from_push(m, set![m.start], input.drop_last(), input.last());
        assert(input.drop_last().push(input.last()) =~= input);
    }
}

proof fn lemma_closure_mono(m: NfaModel, a: Set<int>, b: Set<int>)
    requires
        a.subset_of(b),
    ensures
        closure_states(m, a).subset_of(closure_states(m, b)),
{
    assert forall|u: int| closure_states(m, a).contains(u) implies closure_states(m, b).contains(u) by {
        let s = choose|s: int| #![trigger a.contains(s), reaches(eps_graph(m), s, u)] a.contains(s) && 0 <= s < m.len() && reaches(eps_graph(m), s, u);
        assert(b.contains(s));
    }
}

proof fn lemma_step_mono(m: NfaModel, a: Set<int>, b: Set<int>, c: char)
    requires
        a.subset_of(b),
    ensures
        step_states(m, a, c).subset_of(step_states(m, b, c)),
{
    assert forall|t: int| step_states(m, a, c).contains(t) implies step_states(m, b, c).contains(t) by {
        let (s, j) = choose|s: int, j: int| #![trigger a.contains(s), moves_to(m, s, j, t, c)] a.contains(s) && moves_to(m, s, j, t, c);
        assert(b.contains(s));
    }
}

/// Starting from more states (up to epsilon closure) reaches more states.
pub proof fn lemma_run_from_mono(m: NfaModel, a: Set<int>, b: Set<int>, w: Seq<char>)
    requires
        closure_states(m, a).subset_of(closure_states(m, b)),
    ensures
        run_from(m, a, w).subset_of(run_from(m, b, w)),
    decreases w.len(),
{
    if w.len() > 0 {
        let sa = step_states(m, closure_states(m, a), w[0]);
        let sb = step_states(m, closure_states(m, b), w[0]);
        lemma_step_mono(m, closure_states(m, a), closure_states(m, b), w[0]);
        lemma_closure_mono(m, sa, sb);
        lemma_run_from_mono(m, sa, sb, w.drop_first());
    }
}

/// What is reached from a set of states is reached from one of them.
pub proof fn lemma_run_from_split(m: NfaModel, a: Set<int>, w: Seq<char>, x: int)
    requires
        run_from(m, a, w).contains(x),
    ensures
        exists|s: int| #[trigger] a.contains(s) && 0 <= s < m.len() && run_from(m, set![s], w).contains(x),
    decreases w.len(),
{
    let cl = closure_states(m, a);
    if w.len() == 0 {
        let s = choose|s: int| #![trigger a.contains(s), reaches(eps_graph(m), s, x)] a.contains(s) && 0 <= s < m.len() && reaches(eps_graph(m), s, x);
        assert(set![s].contains(s));
        assert(closure_states(m, set![s]).contains(x));
    } else {
        let c = w[0];
        let st = step_states(m, cl, c);
        lemma_run_from_split(m, st, w.drop_first(), x);
        let t = choose|t: int| #[trigger] st.contains(t) && 0 <= t < m.len() && run_from(m, set![t], w.drop_first()).contains(x);
        let (v, j) = choose|v: int, j: int| #![trigger cl.contains(v), moves_to(m, v, j, t, c)] cl.contains(v) && moves_to(m, v, j, t, c);
        let s = choose|s: int| #![trigger a.contains(s), reaches(eps_graph(m), s, v)] a.contains(s) && 0 <= s < m.len() && reaches(eps_graph(m), s, v);
        let cs = closure_states(m, set![s]);
        assert(set![s].contains(s));
        assert(cs.contains(v));
        let sts = step_states(m, cs, c);
        assert(sts.contains(t));
        assert forall|u: int| closure_states(m, set![t]).contains(u) implies closure_states(m, sts).contains(u) by {
            let t0 = choose|t0: int| #![trigger set![t].contains(t0), reaches(eps_graph(m), t0, u)] set![t].contains(t0) && 0 <= t0 < m.len() && reaches(eps_graph(m), t0, u);
            assert(t0 == t);
        }
        lemma_run_from_mono(m, set![t], sts, w.drop_first());
        assert(run_from(m, set![s], w) == run_from(m, sts, w.drop_first()));
    }
}

impl Nfa {
    /// Whole-string simulation: does the automaton accept all of `input`?
    pub fn matches(&self, input: &str) -> (r: bool)
        requires
            self.wf(),
        ensures
            r == accepts(self@, input@),
    {
        let ghost m = self@;
        let n = self.states.len();
        let mut seeds: Vec<usize> = Vec::new();
        seeds.push(self.start);
        let ghost sv = seeds@;
        let mut current = self.epsilon_closure(seeds);
        proof {
            let start_set = set![m.start];
            let r0 = run_states(m, input@.take(0));
            assert(r0 == closure_states(m, start_set));
            assert forall|u: int| 0 <= u < n implies (current@.contains(u as usize) <==> #[trigger] run_states(m, input@.take(0)).contains(u)) by {
                assert(current@.contains(u as usize) <==> seed_reaches(m, sv, u));
                if seed_reaches(m, sv, u) {
                    let k = choose|k: int| 0 <= k < sv.len() && #[trigger] reaches(eps_graph(m), sv[k] as int, u);
                    assert(sv[k] == self.start);
                    assert(start_set.contains(m.start));
                    assert(r0.contains(u));
                }
                if r0.contains(u) {
                    let s0 = choose|s0: int| #![trigger start_set.contains(s0), reaches(eps_graph(m), s0, u)] start_set.contains(s0) && 0 <= s0 < m.len() && reaches(eps_graph(m), s0, u);
                    assert(s0 == m.start);
                    assert(reaches(eps_graph(m), sv[0] as int, u));
                    assert(seed_reaches(m, sv, u));
                }
            }
        }
        let len = input.unicode_len();
        let mut i: usize = 0;
        while i < len
            invariant
                m == self@,
                m.wf(),
                n == self.states.len(),
                len == input@.len(),
                i <= len,
                forall|k: int| 0 <= k < current.len() ==> #[trigger] current@[k] < n,
                forall|u: int| 0 <= u < n ==> (current@.contains(u as usize) <==> #[trigger] run_states(m, input@.take(i as int)).contains(u)),
            decreases len - i,
        {
            let c = input.get_char(i);
            let next = self.step(&current, c);
            let ghost nv = next@;
            let cur2 = self.epsilon_closure(next);
            proof {
                let prev = run_states(m, input@.take(i as int));
                let p = input@.take(i + 1);
                assert(p.drop_last() =~= input@.take(i as int));
                assert(p.last() == c);
                let st = step_states(m, prev, c);
                assert(run_states(m, p) == closure_states(m, st));
                assert forall|u: int| 0 <= u < n implies (cur2@.contains(u as usize) <==> #[trigger] run_states(m, p).contains(u)) by {
                    assert(cur2@.contains(u as usize) <==> seed_reaches(m, nv, u));
                    if seed_reaches(m, nv, u) {
                        let k = choose|k: int| 0 <= k < nv.len() && #[trigger] reaches(eps_graph(m), nv[k] as int, u);
                        let t = nv[k] as int;
                        assert(nv.contains(nv[k]));
                        assert(0 <= t < n);
                        assert(nv.contains(t as usize) && 0 <= t < n);
                        let (s1, j) = choose|s1: int, j: int| 0 <= s1 < current@.len() && #[trigger] moves_to(m, current@[s1] as int, j, t, c);
                        let s0 = current@[s1] as int;
                        assert(current@.contains(current@[s1]));
                        assert(current@.contains(s0 as usize));
                        assert(prev.contains(s0));
                        assert(st.contains(t));
                        assert(run_states(m, p).contains(u));
                    }
                    if run_states(m, p).contains(u) {
                        let t = choose|t: int| #![trigger st.contains(t), reaches(eps_graph(m), t, u)] st.contains(t) && 0 <= t < m.len() && reaches(eps_graph(m), t, u);
                        let (s0, j) = choose|s0: int, j: int| #![trigger prev.contains(s0), moves_to(m, s0, j, t, c)] prev.contains(s0) && moves_to(m, s0, j, t, c);
                        lemma_run_states_in_range(m, input@.take(i as int), s0);
                        assert(current@.contains(s0 as usize));
                        let s1 = choose|s1: int| 0 <= s1 < current@.len() && current@[s1] == s0 as usize;
                        assert(moves_to(m, current@[s1] as int, j, t, c));
                        assert(nv.contains(t as usize));
                        let k = choose|k: int| 0 <= k < nv.len() && nv[k] == t as usize;
                        assert(reaches(eps_graph(m), nv[k] as int, u));
                        assert(seed_reaches(m, nv, u));
                    }
                }
            }
            current = cur2;
            if current.len() == 0 {
                proof {
                    assert forall|u: int| !#[trigger] run_states(m, input@.take(i + 1)).contains(u) by {
                        if run_states(m, input@.take(i + 1)).contains(u) {
                            lemma_run_states_in_range(m, input@.take(i + 1), u);
                        }
                    }
                    assert(run_states(m, input@.take(i + 1)) =~= Set::<int>::empty());
                    lemma_run_states_stay_empty(m, input@, i + 1);
                }
                return false;
            }
            i = i + 1;
        }
        proof {
            assert(input@.take(len as int) =~= input@);
            if run_states(m, input@).contains(m.accept) {
                assert(run_states(m, input@.take(len as int)).contains(m.accept));
            }
            assert(current@.contains(self.accept) <==> run_states(m, input@.take(len as int)).contains(m.accept));
        }
        let mut k: usize = 0;
        while k < current.len()
            invariant
                k <= current.len(),
                current@.contains(self.accept) <==> accepts(self@, input@),
                forall|j: int| 0 <= j < k ==> current@[j] != self.accept,
            decreases current.len() - k,
        {
            if current[k] == self.accept {
                assert(current@.contains(self.accept));
                return true;
            }
            k = k + 1;
        }
        assert(!current@.contains(self.accept));
        false
    }

    /// The targets of the labeled transitions out of `current` that read `c`,
    /// in order.
    fn step(&self, current: &Vec<usize>, c: char) -> (next: Vec<usize>)
        requires
            self.wf(),
            forall|k: int| 0 <= k < current.len() ==> #[trigger] current@[k] < self.states.len(),
        ensures
            forall|k: int| 0 <= k < next.len() ==> #[trigger] next@[k] < self.states.len(),
            forall|t: int| #[trigger] next@.contains(t as usize) && 0 <= t < self.states.len() <==> exists|s: int, j: int|
                0 <= s < current.len() && #[trigger] moves_to(self@, current@[s] as int, j, t, c),
    {
        let ghost m = self@;
        let n = self.states.len();
        let mut next: Vec<usize> = Vec::new();
        let mut k: usize = 0;
        while k < current.len()
            invariant
                m == self@,
                m.wf(),
                n == self.states.len(),
                k <= current.len(),
                forall|x: int| 0 <= x < current.len() ==> #[trigger] current@[x] < n,
                forall|x: int| 0 <= x < next.len() ==> #[trigger] next@[x] < n,
                forall|t: int| #[trigger] next@.contains(t as usize) && 0 <= t < n <==> exists|s: int, j: int|
                    0 <= s < k && #[trigger] moves_to(m, current@[s] as int, j, t, c),
            decreases current.len() - k,
        {
            let s = current[k];
            let moves = &self.states[s].moves;
            assert(moves@.map_values(|mv: (Ranges, usize)| move_view(mv)) == m.states[s as int].moves);
            let mut j: usize = 0;
            while j < moves.len()
                invariant
                    m == self@,
                    m.wf(),
                    n == self.states.len(),
                    k < current.len(),
                    s == current@[k as int],
                    s < n,
                    moves@.map_values(|mv: (Ranges, usize)| move_view(mv)) == m.states[s as int].moves,
                    j <= moves.len(),
                    forall|x: int| 0 <= x < next.len() ==> #[trigger] next@[x] < n,
                    forall|t: int| #[trigger] next@.contains(t as usize) && 0 <= t < n <==> (exists|s2: int, j2: int|
                        0 <= s2 < k && #[trigger] moves_to(m, current@[s2] as int, j2, t, c)) || (exists|j2: int|
                        0 <= j2 < j && #[trigger] moves_to(m, s as int, j2, t, c)),
                decreases moves.len() - j,
            {
                assert(moves@.map_values(|mv: (Ranges, usize)| move_view(mv)).len() == moves@.len());
                assert(m.states[s as int].moves[j as int] == move_view(moves@[j as int]));
                assert(m.states[s as int].moves[j as int].1 < n);
                let hit = in_ranges_exec(&moves[j].0, c);
                let ghost nb = next@;
                if hit {
                    let t = moves[j].1;
                    assert(t < n);
                    next.push(t);
                    proof {
                        assert(moves_to(m, s as int, j as int, t as int, c));
                        assert(next@[next.len() - 1] == t);
                    }
                }
                proof {
                    assert forall|t: int| #[trigger] next@.contains(t as usize) && 0 <= t < n <==> (exists|s2: int, j2: int|
                        0 <= s2 < k && #[trigger] moves_to(m, current@[s2] as int, j2, t, c)) || (exists|j2: int|
                        0 <= j2 < j + 1 && #[trigger] moves_to(m, s as int, j2, t, c)) by {
                        if next@.contains(t as usize) && 0 <= t < n {
                            let x = choose|x: int| 0 <= x < next@.len() && next@[x] == t as usize;
                            if x < nb.len() {
                                assert(nb.contains(t as usize));
                            } else {
                                assert(moves_to(m, s as int, j as int, t, c));
                            }
                        }
                        if exists|j2: int| 0 <= j2 < j + 1 && #[trigger] moves_to(m, s as int, j2, t, c) {
                            let j2 = choose|j2: int| 0 <= j2 < j + 1 && #[trigger] moves_to(m, s as int, j2, t, c);
                            if j2 < j {
                                assert(nb.contains(t as usize));
                                let y = choose|y: int| 0 <= y < nb.len() && nb[y] == t as usize;
                                assert(next@[y] == t as usize);
                            } else {
                                assert(next@[next.len() - 1] == t as usize);
                            }
                        }
                        if exists|s2: int, j2: int| 0 <= s2 < k && #[trigger] moves_to(m, current@[s2] as int, j2, t, c) {
                            assert(nb.contains(t as usize));
                            let y = choose|y: int| 0 <= y < nb.len() && nb[y] == t as usize;
                            assert(next@[y] == t as usize);
                        }
                    }
                }
                j = j + 1;
            }
            proof {
                assert forall|t: int| #[trigger] next@.contains(t as usize) && 0 <= t < n <==> exists|s2: int, j2: int|
                    0 <= s2 < k + 1 && #[trigger] moves_to(m, current@[s2] as int, j2, t, c) by {
                    if exists|s2: int, j2: int| 0 <= s2 < k + 1 && #[trigger] moves_to(m, current@[s2] as int, j2, t, c) {
                        let (s2, j2) = choose|s2: int, j2: int| 0 <= s2 < k + 1 && #[trigger] moves_to(m, current@[s2] as int, j2, t, c);
                        if s2 == k {
                            assert(moves_to(m, s as int, j2, t, c));
                        }
                    }
                    if next@.contains(t as usize) && 0 <= t < n {
                        if exists|j2: int| 0 <= j2 < j && #[trigger] moves_to(m, s as int, j2, t, c) {
                            let j2 = choose|j2: int| 0 <= j2 < j && #[trigger] moves_to(m, s as int, j2, t, c);
                            assert(moves_to(m, current@[k as int] as int, j2, t, c));
                        }
                    }
                }
            }
            k = k + 1;
        }
        next
    }

    /// The states reachable from `seeds` by epsilon transitions: `seeds`
    /// themselves first, then the others in depth-first discovery order.
    pub fn epsilon_closure(&self, seeds: Vec<usize>) -> (out: Vec<usize>)
        requires
            self.wf(),
            forall|k: int| 0 <= k < seeds.len() ==> #[trigger] seeds@[k] < self.states.len(),
        ensures
            out.len() >= seeds.len(),
            out@.take(seeds.len() as int) == seeds@,
            forall|k: int| 0 <= k < out.len() ==> #[trigger] out@[k] < self.states.len(),
            forall|u: int| 0 <= u < self.states.len() ==> (out@.contains(u as usize) <==> #[trigger] seed_reaches(self@, seeds@, u)),
    {
        let ghost m = self@;
        let ghost g = eps_graph(m);
        let n = self.states.len();
        let mut visited = falses(n);
        let mut stack: Vec<usize> = Vec::new();
        let mut k: usize = 0;
        proof {
            lemma_count_true_all_false(n as nat);
        }
        while k < seeds.len()
            invariant
                m == self@,
                m.wf(),
                g == eps_graph(m),
                n == self.states.len(),
                k <= seeds.len(),
                forall|x: int| 0 <= x < seeds.len() ==> #[trigger] seeds@[x] < n,
                visited.len() == n,
                stack@ == seeds@.take(k as int),
                count_true(visited@) <= n,
                forall|x: int| 0 <= x < n ==> (#[trigger] visited@[x] <==> seeds@.take(k as int).contains(x as usize)),
            decreases seeds.len() - k,
        {
            let s = seeds[k];
            proof {
                lemma_count_true_bound(visited@);
            }
            if !visited[s] {
                proof {
                    lemma_count_true_set(visited@, s as int);
                    lemma_count_true_bound(visited@.update(s as int, true));
                }
                visited.set(s, true);
            }
            stack.push(s);
            proof {
                let t1 = seeds@.take(k + 1);
                let t0 = seeds@.take(k as int);
                assert(t1 =~= t0.push(s));
                assert forall|x: int| 0 <= x < n implies (#[trigger] visited@[x] <==> t1.contains(x as usize)) by {
                    if x != s {
                        if t1.contains(x as usize) {
                            let y = choose|y: int| 0 <= y < t1.len() && t1[y] == x as usize;
                            assert(t0[y] == x as usize);
                        }
                        if t0.contains(x as usize) {
                            let y = choose|y: int| 0 <= y < t0.len() && t0[y] == x as usize;
                            assert(t1[y] == x as usize);
                        }
                    } else {
                        assert(t1[k as int] == s);
                    }
                }
            }
            k = k + 1;
        }
        proof {
            assert(seeds@.take(seeds.len() as int) =~= seeds@);
        }
        let mut out = seeds;
        let ghost sd = out@;
        proof {
            assert forall|x: int| 0 <= x < n && #[trigger] visited@[x] implies seed_reaches(m, sd, x) by {
                let y = choose|y: int| 0 <= y < sd.len() && sd[y] == x as usize;
                lemma_reaches_refl(g, x);
                assert(reaches(g, sd[y] as int, x));
            }
            assert(out@.take(sd.len() as int) =~= sd);
        }
        while stack.len() > 0
            invariant
                m == self@,
                m.wf(),
                g == eps_graph(m),
                n == self.states.len(),
                visited.len() == n,
                count_true(visited@) <= n,
                out.len() >= sd.len(),
                out@.take(sd.len() as int) == sd,
                forall|i: int| 0 <= i < out.len() ==> #[trigger] out@[i] < n,
                forall|i: int| 0 <= i < stack.len() ==> #[trigger] stack@[i] < n && visited@[stack@[i] as int],
                forall|x: int| 0 <= x < n ==> (#[trigger] visited@[x] <==> out@.contains(x as usize)),
                forall|x: int, y: int|
                    0 <= x < n && visited@[x] && !stack@.contains(x as usize) && #[trigger] eps_edge(m, x, y) ==> 0 <= y < n
                        && visited@[y],
                forall|x: int| 0 <= x < n && #[trigger] visited@[x] ==> seed_reaches(m, sd, x),
            decreases 2 * (n - count_true(visited@)) + stack.len(),
        {
            let ghost stack_before = stack@;
            let x = stack.pop().unwrap();
            let ghost cnt_b = count_true(visited@);
            let ghost stack_b = stack.len();
            assert(stack_before == stack@.push(x));
            let succs = &self.states[x].eps;
            assert(succs@ == m.states[x as int].eps);
            assert forall|z: int, y: int|
                0 <= z < n && z != x && visited@[z] && !stack@.contains(z as usize) && #[trigger] eps_edge(m, z, y) implies 0 <= y
                    < n && visited@[y] by {
                if stack_before.contains(z as usize) {
                    let i = choose|i: int| 0 <= i < stack_before.len() && stack_before[i] == z as usize;
                    if i < stack@.len() {
                        assert(stack@[i] == z as usize);
                    }
                }
            }
            let mut e: usize = 0;
            while e < succs.len()
                invariant
                    m == self@,
                    m.wf(),
                    g == eps_graph(m),
                    n == self.states.len(),
                    x < n,
                    visited@[x as int],
                    succs@ == m.states[x as int].eps,
                    e <= succs.len(),
                    visited.len() == n,
                    count_true(visited@) <= n,
                    count_true(visited@) >= cnt_b,
                    2 * (n - count_true(visited@)) + stack.len() <= 2 * (n - cnt_b) + stack_b,
                    out.len() >= sd.len(),
                    out@.take(sd.len() as int) == sd,
                    forall|i: int| 0 <= i < out.len() ==> #[trigger] out@[i] < n,
                    forall|i: int| 0 <= i < stack.len() ==> #[trigger] stack@[i] < n && visited@[stack@[i] as int],
                    forall|z: int| 0 <= z < n ==> (#[trigger] visited@[z] <==> out@.contains(z as usize)),
                    forall|z: int, y: int|
                        0 <= z < n && z != x && visited@[z] && !stack@.contains(z as usize) && #[trigger] eps_edge(m, z, y) ==> 0
                            <= y < n && visited@[y],
                    forall|j: int| 0 <= j < e ==> #[trigger] visited@[succs@[j] as int],
                    forall|z: int| 0 <= z < n && #[trigger] visited@[z] ==> seed_reaches(m, sd, z),
                decreases succs.len() - e,
            {
                let t = succs[e];
                assert(m.states[x as int].eps[e as int] < n);
                if !visited[t] {
                    let ghost vb = visited@;
                    let ghost ob = out@;
                    let ghost sb = stack@;
                    proof {
                        lemma_count_true_set(visited@, t as int);
                        lemma_count_true_bound(visited@.update(t as int, true));
                        assert(eps_edge(m, x as int, t as int));
                        let k0 = choose|k0: int| 0 <= k0 < sd.len() && #[trigger] reaches(g, sd[k0] as int, x as int);
                        lemma_reaches_step(g, sd[k0] as int, x as int, t as int);
                        assert(seed_reaches(m, sd, t as int));
                    }
                    visited.set(t, true);
                    out.push(t);
                    stack.push(t);
                    proof {
                        assert(out@.take(sd.len() as int) =~= ob.take(sd.len() as int));
                        assert forall|z: int| 0 <= z < n implies (#[trigger] visited@[z] <==> out@.contains(z as usize)) by {
                            if z != t {
                                if vb[z] {
                                    let i = choose|i: int| 0 <= i < ob.len() && ob[i] == z as usize;
                                    assert(out@[i] == z as usize);
                                }
                                if out@.contains(z as usize) {
                                    let i = choose|i: int| 0 <= i < out@.len() && out@[i] == z as usize;
                                    assert(ob.contains(z as usize));
                                }
                            } else {
                                assert(out@[out.len() - 1] == t);
                            }
                        }
                        assert forall|z: int, y: int|
                            0 <= z < n && z != x && visited@[z] && !stack@.contains(z as usize) && #[trigger] eps_edge(m, z, y) implies 0
                                <= y < n && visited@[y] by {
                            if z != t {
                                assert(vb[z]);
                                if sb.contains(z as usize) {
                                    let i = choose|i: int| 0 <= i < sb.len() && sb[i] == z as usize;
                                    assert(stack@[i] == z as usize);
                                }
                            } else {
                                assert(stack@[stack.len() - 1] == t);
                            }
                        }
                    }
                }
                e = e + 1;
            }
            proof {
                assert forall|z: int, y: int|
                    0 <= z < n && visited@[z] && !stack@.contains(z as usize) && #[trigger] eps_edge(m, z, y) implies 0 <= y < n
                        && visited@[y] by {
                    if z == x {
                        let j = choose|j: int| 0 <= j < m.states[x as int].eps.len() && #[trigger] m.states[x as int].eps[j] as int == y;
                        assert(visited@[succs@[j] as int]);
                    }
                }
            }
        }
        proof {
            let set = |z: int| 0 <= z < n && visited@[z];
            assert forall|z: int, y: int| set(z) && #[trigger] g(z, y) implies set(y) by {
                assert(!stack@.contains(z as usize));
            }
            assert forall|u: int| 0 <= u < n implies (out@.contains(u as usize) <==> #[trigger] seed_reaches(m, sd, u)) by {
                if seed_reaches(m, sd, u) {
                    let k0 = choose|k0: int| 0 <= k0 < sd.len() && #[trigger] reaches(g, sd[k0] as int, u);
                    assert(out@.take(sd.len() as int)[k0] == sd[k0]);
                    assert(out@[k0] == sd[k0]);
                    assert(out@.contains(sd[k0]));
                    assert(sd[k0] < n);
                    assert(visited@[sd[k0] as int]);
                    assert(set(sd[k0] as int));
                    lemma_reaches_closed(g, set, sd[k0] as int, u);
                    assert(visited@[u]);
                }
                if out@.contains(u as usize) {
                    assert(visited@[u]);
                }
            }
        }
        out
    }
}

} // verus!
