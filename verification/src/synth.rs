//! Attack-string synthesis.
//!
//! For a vulnerable pattern, generate `pump^n + breaker` candidates and keep
//! only those *verified* to blow up: a backtracking step counter (modelling a
//! real backtracking engine, since the NFA simulation is linear) must reach a
//! catastrophic-step cap on a full-match attempt that fails.
//!
//! The step counter is specified by [`bt_run`], a model of a backtracking
//! matcher that tries alternatives in order with no memoization.
use vstd::prelude::*;

use std::collections::HashSet;

use crate::graph::{lemma_reaches_edge, lemma_reaches_refl};
use crate::nfa::{eps_edge, eps_graph, in_ranges, in_ranges_exec, Nfa, NfaModel};
use crate::simulate::{
    accepts, closure_states, lemma_run_from_mono, lemma_run_from_split, lemma_run_states_from_start, moves_to, run_from,
    step_states,
};
use crate::prefix::{
    first_reader, leads_to_reader, lemma_table_prefixes, prefix_for, prefixes_ok, pump_prefixes, reach_witnesses, unreadable,
    wits_view,
};
use crate::syntax::{occurs_in, str_from_utf8, Node};
use crate::text::{skip_chars, string_from_chars};

verus! {

broadcast use vstd::std_specs::hash::group_hash_axioms;

/// A synthesized input that triggers catastrophic backtracking.
#[derive(Debug, Clone, PartialEq, Eq)]
pub struct AttackString {
    /// The attack input.
    pub value: String,
    /// How many pump repetitions it contains.
    pub pumped_n: u32,
}

/// Steps above which a failed full-match attempt is deemed catastrophic.
pub const STEP_CAP: usize = 1_000_000;

// --- The backtracking model ---

/// Steps left before the cap.
pub open spec fn bt_fuel(cap: int, steps: int) -> int {
    if steps < cap {
        cap - steps
    } else {
        0
    }
}

/// A backtracking full-match attempt from `state` at input position `pos`,
/// `steps` steps into a run capped at `cap`. `seen` holds the states already
/// entered by an epsilon transition at this position. Returns whether a match
/// was found, the step count afterwards, and the updated `seen`.
///
/// Each attempt costs one step. It succeeds at the accept state at the end of
/// the input; otherwise it tries the epsilon transitions in order (each target
/// at most once per position), then the labeled transitions that read the next
/// character in order (each with a fresh epsilon guard), stopping at the first
/// success or when the cap is reached.
pub open spec fn bt_run(m: NfaModel, input: Seq<char>, cap: int, s: int, pos: int, steps: int, seen: Set<usize>) -> (
    bool,
    int,
    Set<usize>,
)
    decreases bt_fuel(cap, steps), 0int, 0int,
{
    if steps >= cap {
        (false, steps, seen)
    } else if s == m.accept && pos == input.len() {
        (true, steps + 1, seen)
    } else {
        bt_eps(m, input, cap, s, pos, 0, steps + 1, seen)
    }
}

/// The epsilon transitions of `s` from the `i`-th on, then its labeled ones.
pub open spec fn bt_eps(
    m: NfaModel,
    input: Seq<char>,
    cap: int,
    s: int,
    pos: int,
    i: int,
    steps: int,
    seen: Set<usize>,
) -> (bool, int, Set<usize>)
    decreases bt_fuel(cap, steps), 2int, m.states[s].eps.len() - i,
{
    let eps = m.states[s].eps;
    if i < 0 || i >= eps.len() {
        bt_moves(m, input, cap, s, pos, 0, steps, seen)
    } else {
        let t = eps[i];
        if seen.contains(t) {
            if steps >= cap {
                (false, steps, seen)
            } else {
                bt_eps(m, input, cap, s, pos, i + 1, steps, seen)
            }
        } else {
            let r = bt_run(m, input, cap, t as int, pos, steps, seen.insert(t));
            if r.0 {
                (true, r.1, r.2)
            } else if r.1 >= cap || r.1 < steps {
                (false, r.1, r.2)
            } else {
                bt_eps(m, input, cap, s, pos, i + 1, r.1, r.2)
            }
        }
    }
}

/// The labeled transitions of `s` from the `j`-th on that read `input[pos]`.
pub open spec fn bt_moves(
    m: NfaModel,
    input: Seq<char>,
    cap: int,
    s: int,
    pos: int,
    j: int,
    steps: int,
    seen: Set<usize>,
) -> (bool, int, Set<usize>)
    decreases bt_fuel(cap, steps), 1int, m.states[s].moves.len() - j,
{
    let moves = m.states[s].moves;
    if pos < 0 || pos >= input.len() || j < 0 || j >= moves.len() {
        (false, steps, seen)
    } else if in_ranges(moves[j].0, input[pos]) {
        let r = bt_run(m, input, cap, moves[j].1 as int, pos + 1, steps, Set::empty());
        if r.0 {
            (true, r.1, seen)
        } else if r.1 >= cap || r.1 < steps {
            (false, r.1, seen)
        } else {
            bt_moves(m, input, cap, s, pos, j + 1, r.1, seen)
        }
    } else {
        bt_moves(m, input, cap, s, pos, j + 1, steps, seen)
    }
}

/// A full-match attempt on `input` from the start state, capped at `cap`:
/// whether it matched, and how many steps it took.
pub open spec fn backtrack_spec(m: NfaModel, input: Seq<char>, cap: int) -> (bool, int) {
    let r = bt_run(m, input, cap, m.start, 0, 0, Set::empty());
    (r.0, r.1)
}

/// The attempt on `input` fails and reaches the step cap.
pub open spec fn blows_up(m: NfaModel, input: Seq<char>) -> bool {
    let r = backtrack_spec(m, input, STEP_CAP as int);
    !r.0 && r.1 >= STEP_CAP
}

// --- Soundness of the model ---

proof fn lemma_closure_singleton_has(m: NfaModel, s: int)
    requires
        0 <= s < m.len(),
    ensures
        closure_states(m, set![s]).contains(s),
{
    lemma_reaches_refl(eps_graph(m), s);
    assert(set![s].contains(s));
}

/// After an epsilon edge `s -> t`, `t` reaches no state that `s` does not.
proof fn lemma_closure_eps(m: NfaModel, s: int, t: int)
    requires
        m.wf(),
        0 <= s < m.len(),
        eps_edge(m, s, t),
    ensures
        closure_states(m, set![t]).subset_of(closure_states(m, set![s])),
{
    assert forall|u: int| closure_states(m, set![t]).contains(u) implies closure_states(m, set![s]).contains(u) by {
        let t0 = choose|t0: int| #![trigger set![t].contains(t0), crate::graph::reaches(eps_graph(m), t0, u)] set![t].contains(t0) && 0 <= t0 < m.len() && crate::graph::reaches(eps_graph(m), t0, u);
        assert(t0 == t);
        lemma_reaches_edge(eps_graph(m), s, t);
        crate::graph::lemma_reaches_trans(eps_graph(m), s, t, u);
        assert(set![s].contains(s));
    }
}

proof fn lemma_bt_run_sound(m: NfaModel, input: Seq<char>, cap: int, s: int, pos: int, steps: int, seen: Set<usize>)
    requires
        m.wf(),
        0 <= s < m.len(),
        0 <= pos <= input.len(),
        bt_run(m, input, cap, s, pos, steps, seen).0,
    ensures
        run_from(m, set![s], input.skip(pos)).contains(m.accept),
    decreases bt_fuel(cap, steps), 0int, 0int,
{
    if s == m.accept && pos == input.len() {
        assert(input.skip(pos) =~= Seq::<char>::empty());
        lemma_closure_singleton_has(m, s);
    } else {
        lemma_bt_eps_sound(m, input, cap, s, pos, 0, steps + 1, seen);
    }
}

proof fn lemma_bt_eps_sound(
    m: NfaModel,
    input: Seq<char>,
    cap: int,
    s: int,
    pos: int,
    i: int,
    steps: int,
    seen: Set<usize>,
)
    requires
        m.wf(),
        0 <= s < m.len(),
        0 <= pos <= input.len(),
        0 <= i,
        bt_eps(m, input, cap, s, pos, i, steps, seen).0,
    ensures
        run_from(m, set![s], input.skip(pos)).contains(m.accept),
    decreases bt_fuel(cap, steps), 2int, m.states[s].eps.len() - i,
{
    let eps = m.states[s].eps;
    if i >= eps.len() {
        lemma_bt_moves_sound(m, input, cap, s, pos, 0, steps, seen);
    } else {
        let t = eps[i];
        assert(t < m.len());
        if seen.contains(t) {
            lemma_bt_eps_sound(m, input, cap, s, pos, i + 1, steps, seen);
        } else {
            let r = bt_run(m, input, cap, t as int, pos, steps, seen.insert(t));
            if r.0 {
                lemma_bt_run_sound(m, input, cap, t as int, pos, steps, seen.insert(t));
                assert(eps_edge(m, s, t as int));
                lemma_closure_eps(m, s, t as int);
                lemma_run_from_mono(m, set![t as int], set![s], input.skip(pos));
            } else {
                lemma_bt_eps_sound(m, input, cap, s, pos, i + 1, r.1, r.2);
            }
        }
    }
}

proof fn lemma_bt_moves_sound(
    m: NfaModel,
    input: Seq<char>,
    cap: int,
    s: int,
    pos: int,
    j: int,
    steps: int,
    seen: Set<usize>,
)
    requires
        m.wf(),
        0 <= s < m.len(),
        0 <= pos <= input.len(),
        0 <= j,
        bt_moves(m, input, cap, s, pos, j, steps, seen).0,
    ensures
        run_from(m, set![s], input.skip(pos)).contains(m.accept),
    decreases bt_fuel(cap, steps), 1int, m.states[s].moves.len() - j,
{
    let moves = m.states[s].moves;
    let c = input[pos];
    if in_ranges(moves[j].0, c) {
        let t = moves[j].1 as int;
        assert(t < m.len());
        let r = bt_run(m, input, cap, t, pos + 1, steps, Set::empty());
        if r.0 {
            lemma_bt_run_sound(m, input, cap, t, pos + 1, steps, Set::empty());
            let cl = closure_states(m, set![s]);
            let st = step_states(m, cl, c);
            lemma_closure_singleton_has(m, s);
            assert(moves_to(m, s, j, t, c));
            assert(st.contains(t));
            lemma_closure_singleton_has(m, t);
            assert forall|u: int| closure_states(m, set![t]).contains(u) implies closure_states(m, st).contains(u) by {
                let t0 = choose|t0: int| #![trigger set![t].contains(t0), crate::graph::reaches(eps_graph(m), t0, u)] set![t].contains(t0) && 0 <= t0 < m.len() && crate::graph::reaches(eps_graph(m), t0, u);
                assert(t0 == t);
            }
            lemma_run_from_mono(m, set![t], st, input.skip(pos + 1));
            let w = input.skip(pos);
            assert(w[0] == c);
            assert(w.drop_first() =~= input.skip(pos + 1));
            assert(run_from(m, set![s], w) == run_from(m, st, w.drop_first()));
        } else {
            lemma_bt_moves_sound(m, input, cap, s, pos, j + 1, r.1, seen);
        }
    } else {
        lemma_bt_moves_sound(m, input, cap, s, pos, j + 1, steps, seen);
    }
}

/// The backtracking model never reports a false match: when a full-match
/// attempt succeeds, the automaton accepts the input.
pub proof fn lemma_backtrack_sound(m: NfaModel, input: Seq<char>, cap: int)
    requires
        m.wf(),
        backtrack_spec(m, input, cap).0,
    ensures
        accepts(m, input),
{
    lemma_bt_run_sound(m, input, cap, m.start, 0, 0, Set::empty());
    assert(input.skip(0) =~= input);
    lemma_run_states_from_start(m, input);
}

/// `v` at position `pos` finishes a match directly: it is the accept state at
/// the end of the input, or it reads `input[pos]` into a state from which the
/// rest of the input is accepted.
pub open spec fn finishes(m: NfaModel, input: Seq<char>, pos: int, v: int) -> bool {
    ||| v == m.accept && pos == input.len()
    ||| pos < input.len() && exists|j: int, t: int|
        #[trigger] moves_to(m, v, j, t, input[pos]) && run_from(m, set![t], input.skip(pos + 1)).contains(m.accept)
}

/// Every epsilon successor of `v` is in `set`.
pub open spec fn eps_succs_in(m: NfaModel, v: int, set: Set<usize>) -> bool {
    forall|k: int| 0 <= k < m.states[v].eps.len() ==> set.contains(#[trigger] m.states[v].eps[k])
}

/// States added to the guard during a failed, uncapped attempt: none finishes a
/// match, and all their epsilon successors are in the guard too.
pub open spec fn explored(m: NfaModel, input: Seq<char>, pos: int, before: Set<usize>, after: Set<usize>) -> bool {
    &&& before.subset_of(after)
    &&& forall|x: usize| #[trigger] after.contains(x) && !before.contains(x) ==> {
        &&& x < m.len()
        &&& !finishes(m, input, pos, x as int)
        &&& eps_succs_in(m, x as int, after)
    }
}

proof fn lemma_bt_run_steps(m: NfaModel, input: Seq<char>, cap: int, s: int, pos: int, steps: int, seen: Set<usize>)
    ensures
        bt_run(m, input, cap, s, pos, steps, seen).1 >= steps,
    decreases bt_fuel(cap, steps), 0int, 0int,
{
    if steps < cap && !(s == m.accept && pos == input.len()) {
        lemma_bt_eps_steps(m, input, cap, s, pos, 0, steps + 1, seen);
    }
}

proof fn lemma_bt_eps_steps(m: NfaModel, input: Seq<char>, cap: int, s: int, pos: int, i: int, steps: int, seen: Set<usize>)
    ensures
        bt_eps(m, input, cap, s, pos, i, steps, seen).1 >= steps,
    decreases bt_fuel(cap, steps), 2int, m.states[s].eps.len() - i,
{
    let eps = m.states[s].eps;
    if i < 0 || i >= eps.len() {
        lemma_bt_moves_steps(m, input, cap, s, pos, 0, steps, seen);
    } else {
        let t = eps[i];
        if seen.contains(t) {
            if steps < cap {
                lemma_bt_eps_steps(m, input, cap, s, pos, i + 1, steps, seen);
            }
        } else {
            let r = bt_run(m, input, cap, t as int, pos, steps, seen.insert(t));
            lemma_bt_run_steps(m, input, cap, t as int, pos, steps, seen.insert(t));
            if !r.0 && r.1 < cap && r.1 >= steps {
                lemma_bt_eps_steps(m, input, cap, s, pos, i + 1, r.1, r.2);
            }
        }
    }
}

proof fn lemma_bt_moves_steps(m: NfaModel, input: Seq<char>, cap: int, s: int, pos: int, j: int, steps: int, seen: Set<usize>)
    ensures
        bt_moves(m, input, cap, s, pos, j, steps, seen).1 >= steps,
    decreases bt_fuel(cap, steps), 1int, m.states[s].moves.len() - j,
{
    let moves = m.states[s].moves;
    if !(pos < 0 || pos >= input.len() || j < 0 || j >= moves.len()) {
        if in_ranges(moves[j].0, input[pos]) {
            let r = bt_run(m, input, cap, moves[j].1 as int, pos + 1, steps, Set::empty());
            lemma_bt_run_steps(m, input, cap, moves[j].1 as int, pos + 1, steps, Set::empty());
            if !r.0 && r.1 < cap && r.1 >= steps {
                lemma_bt_moves_steps(m, input, cap, s, pos, j + 1, r.1, seen);
            }
        } else {
            lemma_bt_moves_steps(m, input, cap, s, pos, j + 1, steps, seen);
        }
    }
}

proof fn lemma_explored_trans(m: NfaModel, input: Seq<char>, pos: int, a: Set<usize>, b: Set<usize>, c: Set<usize>)
    requires
        explored(m, input, pos, a, b),
        explored(m, input, pos, b, c),
    ensures
        explored(m, input, pos, a, c),
{
    assert forall|x: usize| #[trigger] c.contains(x) && !a.contains(x) implies {
        &&& x < m.len()
        &&& !finishes(m, input, pos, x as int)
        &&& eps_succs_in(m, x as int, c)
    } by {
        if b.contains(x) {
            assert forall|k: int| 0 <= k < m.states[x as int].eps.len() implies c.contains(#[trigger] m.states[x as int].eps[k]) by {
                assert(b.contains(m.states[x as int].eps[k]));
            }
        }
    }
}

proof fn lemma_bt_run_explores(m: NfaModel, input: Seq<char>, cap: int, s: int, pos: int, steps: int, seen: Set<usize>)
    requires
        m.wf(),
        0 <= s < m.len(),
        0 <= pos <= input.len(),
        !bt_run(m, input, cap, s, pos, steps, seen).0,
        bt_run(m, input, cap, s, pos, steps, seen).1 < cap,
    ensures
        explored(m, input, pos, seen, bt_run(m, input, cap, s, pos, steps, seen).2),
        !finishes(m, input, pos, s),
        eps_succs_in(m, s, bt_run(m, input, cap, s, pos, steps, seen).2),
    decreases bt_fuel(cap, steps), 0int, 0int,
{
    lemma_bt_eps_explores(m, input, cap, s, pos, 0, steps + 1, seen);
}

proof fn lemma_bt_eps_explores(
    m: NfaModel,
    input: Seq<char>,
    cap: int,
    s: int,
    pos: int,
    i: int,
    steps: int,
    seen: Set<usize>,
)
    requires
        m.wf(),
        0 <= s < m.len(),
        0 <= pos <= input.len(),
        0 <= i,
        !(s == m.accept && pos == input.len()),
        !bt_eps(m, input, cap, s, pos, i, steps, seen).0,
        bt_eps(m, input, cap, s, pos, i, steps, seen).1 < cap,
    ensures
        explored(m, input, pos, seen, bt_eps(m, input, cap, s, pos, i, steps, seen).2),
        !finishes(m, input, pos, s),
        forall|k: int| i <= k < m.states[s].eps.len() ==> bt_eps(m, input, cap, s, pos, i, steps, seen).2.contains(#[trigger] m.states[s].eps[k]),
    decreases bt_fuel(cap, steps), 2int, m.states[s].eps.len() - i,
{
    let eps = m.states[s].eps;
    let out = bt_eps(m, input, cap, s, pos, i, steps, seen).2;
    if i >= eps.len() {
        lemma_bt_moves_explores(m, input, cap, s, pos, 0, steps, seen);
    } else {
        let t = eps[i];
        assert(t < m.len());
        if seen.contains(t) {
            lemma_bt_eps_explores(m, input, cap, s, pos, i + 1, steps, seen);
        } else {
            let seen1 = seen.insert(t);
            let r = bt_run(m, input, cap, t as int, pos, steps, seen1);
            lemma_bt_run_steps(m, input, cap, t as int, pos, steps, seen1);
            lemma_bt_run_explores(m, input, cap, t as int, pos, steps, seen1);
            lemma_bt_eps_explores(m, input, cap, s, pos, i + 1, r.1, r.2);
            assert(explored(m, input, pos, seen, r.2)) by {
                assert forall|x: usize| #[trigger] r.2.contains(x) && !seen.contains(x) implies {
                    &&& x < m.len()
                    &&& !finishes(m, input, pos, x as int)
                    &&& eps_succs_in(m, x as int, r.2)
                } by {
                    if x == t {
                    } else {
                        assert(!seen1.contains(x));
                    }
                }
            }
            lemma_explored_trans(m, input, pos, seen, r.2, out);
            assert forall|k: int| 0 <= k < m.states[t as int].eps.len() implies out.contains(#[trigger] m.states[t as int].eps[k]) by {
                assert(r.2.contains(m.states[t as int].eps[k]));
            }
            assert(out.contains(t));
        }
    }
}

proof fn lemma_bt_moves_explores(
    m: NfaModel,
    input: Seq<char>,
    cap: int,
    s: int,
    pos: int,
    j: int,
    steps: int,
    seen: Set<usize>,
)
    requires
        m.wf(),
        0 <= s < m.len(),
        0 <= pos <= input.len(),
        0 <= j,
        !(s == m.accept && pos == input.len()),
        !bt_moves(m, input, cap, s, pos, j, steps, seen).0,
        bt_moves(m, input, cap, s, pos, j, steps, seen).1 < cap,
    ensures
        bt_moves(m, input, cap, s, pos, j, steps, seen).2 == seen,
        explored(m, input, pos, seen, seen),
        pos < input.len() ==> forall|j2: int, t: int| j2 >= j && #[trigger] moves_to(m, s, j2, t, input[pos])
            ==> !run_from(m, set![t], input.skip(pos + 1)).contains(m.accept),
        j == 0 ==> !finishes(m, input, pos, s),
    decreases bt_fuel(cap, steps), 1int, m.states[s].moves.len() - j,
{
    let moves = m.states[s].moves;
    if pos < 0 || pos >= input.len() || j < 0 || j >= moves.len() {
    } else {
        let c = input[pos];
        if in_ranges(moves[j].0, c) {
            let t = moves[j].1 as int;
            assert(t < m.len());
            let r = bt_run(m, input, cap, t, pos + 1, steps, Set::empty());
            lemma_bt_run_steps(m, input, cap, t, pos + 1, steps, Set::empty());
            lemma_bt_run_rejects(m, input, cap, t, pos + 1, steps);
            lemma_bt_moves_explores(m, input, cap, s, pos, j + 1, r.1, seen);
        } else {
            lemma_bt_moves_explores(m, input, cap, s, pos, j + 1, steps, seen);
        }
    }
}

/// A fresh attempt at `pos` that fails without reaching the cap rules the
/// configuration out: the rest of the input is not accepted from `s`.
proof fn lemma_bt_run_rejects(m: NfaModel, input: Seq<char>, cap: int, s: int, pos: int, steps: int)
    requires
        m.wf(),
        0 <= s < m.len(),
        0 <= pos <= input.len(),
        !bt_run(m, input, cap, s, pos, steps, Set::empty()).0,
        bt_run(m, input, cap, s, pos, steps, Set::empty()).1 < cap,
    ensures
        !run_from(m, set![s], input.skip(pos)).contains(m.accept),
    decreases bt_fuel(cap, steps), 0int, 1int,
{
    let out = bt_run(m, input, cap, s, pos, steps, Set::empty()).2;
    lemma_bt_run_explores(m, input, cap, s, pos, steps, Set::empty());
    let g = eps_graph(m);
    let set = |z: int| z == s || (0 <= z && out.contains(z as usize));
    assert forall|x: int, y: int| set(x) && #[trigger] g(x, y) implies set(y) by {
        let k = choose|k: int| 0 <= k < m.states[x].eps.len() && #[trigger] m.states[x].eps[k] as int == y;
        if x == s {
            assert(out.contains(m.states[s].eps[k]));
        } else {
            assert(out.contains(x as usize) && !Set::<usize>::empty().contains(x as usize));
            assert(eps_succs_in(m, x, out));
            assert(out.contains(m.states[x].eps[k]));
        }
    }
    assert forall|v: int| #[trigger] closure_states(m, set![s]).contains(v) implies !finishes(m, input, pos, v) by {
        let s0 = choose|s0: int| #![trigger set![s].contains(s0), crate::graph::reaches(g, s0, v)] set![s].contains(s0) && 0 <= s0 < m.len() && crate::graph::reaches(g, s0, v);
        crate::graph::lemma_reaches_closed(g, set, s, v);
        if v != s {
            assert(out.contains(v as usize) && !Set::<usize>::empty().contains(v as usize));
        }
    }
    let w = input.skip(pos);
    let cl = closure_states(m, set![s]);
    if pos == input.len() {
        assert(w =~= Seq::<char>::empty());
        if cl.contains(m.accept) {
            assert(!finishes(m, input, pos, m.accept));
        }
    } else {
        let c = input[pos];
        assert(w[0] == c);
        assert(w.drop_first() =~= input.skip(pos + 1));
        let st = step_states(m, cl, c);
        assert(run_from(m, set![s], w) == run_from(m, st, w.drop_first()));
        if run_from(m, st, w.drop_first()).contains(m.accept) {
            lemma_run_from_split(m, st, w.drop_first(), m.accept);
            let t = choose|t: int| #[trigger] st.contains(t) && 0 <= t < m.len() && run_from(m, set![t], w.drop_first()).contains(m.accept);
            let (v, j) = choose|v: int, j: int| #![trigger cl.contains(v), moves_to(m, v, j, t, c)] cl.contains(v) && moves_to(m, v, j, t, c);
            assert(finishes(m, input, pos, v));
        }
    }
}

/// Below the cap the backtracking model decides acceptance exactly: an attempt
/// that ends before reaching `cap` steps matches if and only if the automaton
/// accepts the input.
pub proof fn lemma_backtrack_exact(m: NfaModel, input: Seq<char>, cap: int)
    requires
        m.wf(),
        backtrack_spec(m, input, cap).1 < cap,
    ensures
        backtrack_spec(m, input, cap).0 == accepts(m, input),
{
    if backtrack_spec(m, input, cap).0 {
        lemma_backtrack_sound(m, input, cap);
    } else {
        lemma_bt_run_rejects(m, input, cap, m.start, 0, 0);
        assert(input.skip(0) =~= input);
        lemma_run_states_from_start(m, input);
    }
}

// --- Candidates ---

/// Characters tried after the pump, likely to fall outside the loop and force
/// the failing match that triggers the blowup.
pub open spec fn breakers_spec() -> Seq<char> {
    seq!['\u{0}', '!', '\u{7f}', 'Z', '9']
}

/// `prefix`, then `pump` repeated `n` times, then `brk`.
pub open spec fn attack_input(prefix: Seq<char>, pump: char, brk: char, n: nat) -> Seq<char> {
    prefix + Seq::new(n, |i: int| pump).push(brk)
}

/// Super-linear growth: both attempts fail, and the one on the input with
/// twice the pumps takes more than three times the steps (a linear matcher
/// takes about twice as many; a quadratic one about four times).
pub open spec fn grows(m: NfaModel, once: Seq<char>, twice: Seq<char>) -> bool {
    let r1 = backtrack_spec(m, once, STEP_CAP as int);
    let r2 = backtrack_spec(m, twice, STEP_CAP as int);
    !r1.0 && !r2.0 && r2.1 > 3 * r1.1
}

/// The candidate with `n` pumps is a verified attack: it blows up the
/// backtracking model, reaching the step cap; or, for a pattern that is not
/// `exponential`, doubling its pumps shows super-linear growth.
pub open spec fn verified_attack(m: NfaModel, exponential: bool, prefix: Seq<char>, pump: char, brk: char, n: nat) -> bool {
    ||| blows_up(m, attack_input(prefix, pump, brk, n))
    ||| !exponential && 2 * n <= u32::MAX && grows(
        m,
        attack_input(prefix, pump, brk, n),
        attack_input(prefix, pump, brk, 2 * n),
    )
}

/// The candidates from position `k` on (pump `alpha[k / 5]` after its prefix
/// `pf(pump)`, breaker `breakers[k % 5]`; skipping a breaker equal to the pump
/// and a pump that no input leads to): the first verified attack.
pub open spec fn first_attack(
    m: NfaModel,
    exponential: bool,
    alpha: Seq<char>,
    n: nat,
    pf: spec_fn(char) -> Option<Seq<char>>,
    k: int,
) -> Option<Seq<char>>
    decreases 5 * alpha.len() - k,
{
    if k < 0 || k >= 5 * alpha.len() {
        None
    } else {
        let pump = alpha[k / 5];
        let brk = breakers_spec()[k % 5];
        if brk != pump && pf(pump) is Some && verified_attack(m, exponential, pf(pump)->0, pump, brk, n) {
            Some(attack_input(pf(pump)->0, pump, brk, n))
        } else {
            first_attack(m, exponential, alpha, n, pf, k + 1)
        }
    }
}

/// Every attack synthesis answers is verified: a prefix leading from the start
/// to a state that reads the pump, the pump repeated `n` times, and a different
/// breaker character; and the backtracking model blows up on it or grows
/// super-linearly when the pumps are doubled.
pub proof fn lemma_first_attack_verified(
    m: NfaModel,
    exponential: bool,
    alpha: Seq<char>,
    n: nat,
    pf: spec_fn(char) -> Option<Seq<char>>,
    k: int,
)
    requires
        prefixes_ok(m, pf),
        first_attack(m, exponential, alpha, n, pf, k) is Some,
    ensures
        exponential ==> blows_up(m, first_attack(m, exponential, alpha, n, pf, k)->0),
        exists|i: int, j: int|
            0 <= i < alpha.len() && 0 <= j < 5 && alpha[i] != breakers_spec()[j] && pf(alpha[i]) is Some
                && leads_to_reader(m, pf(alpha[i])->0, alpha[i])
                && verified_attack(m, exponential, pf(alpha[i])->0, #[trigger] alpha[i], #[trigger] breakers_spec()[j], n)
                && first_attack(m, exponential, alpha, n, pf, k)->0 == attack_input(pf(alpha[i])->0, alpha[i], breakers_spec()[j], n),
    decreases 5 * alpha.len() - k,
{
    let pump = alpha[k / 5];
    let brk = breakers_spec()[k % 5];
    if brk != pump && pf(pump) is Some && verified_attack(m, exponential, pf(pump)->0, pump, brk, n) {
        assert(0 <= k / 5 < alpha.len()) by (nonlinear_arith)
            requires 0 <= k < 5 * alpha.len();
        assert(0 <= k % 5 < 5);
        let x = pf(pump);
        assert(match x { Some(p) => leads_to_reader(m, p, pump), None => unreadable(m, pump) });
    } else {
        lemma_first_attack_verified(m, exponential, alpha, n, pf, k + 1);
    }
}

// --- Alphabet ---

/// The first character of a literal's bytes read as UTF-8 (`None` when they
/// are not UTF-8 or empty).
pub open spec fn lit_first(bytes: Seq<u8>) -> Option<char> {
    if vstd::utf8::valid_utf8(bytes) && vstd::utf8::decode_utf8(bytes).len() > 0 {
        Some(vstd::utf8::decode_utf8(bytes)[0])
    } else {
        None
    }
}

/// `out` with `c` appended unless already present.
pub open spec fn add_new(out: Seq<char>, c: char) -> Seq<char> {
    if out.contains(c) {
        out
    } else {
        out.push(c)
    }
}

/// `out` extended, in pattern order, by a representative character of each
/// literal (its first character) and class (the start of its first range).
pub open spec fn collect_spec(node: Node, out: Seq<char>) -> Seq<char>
    decreases node, 0int,
{
    match node {
        Node::Literal(bytes) => match lit_first(bytes@) {
            Some(c) => add_new(out, c),
            None => out,
        },
        Node::Class(r) => if r@.len() > 0 {
            add_new(out, r@[0].0)
        } else {
            out
        },
        Node::Repeat { min, max, sub } => collect_spec(*sub, out),
        Node::Group(sub) => collect_spec(*sub, out),
        Node::Concat(subs) => collect_list(subs@, 0, out),
        Node::Alternation(subs) => collect_list(subs@, 0, out),
        Node::Empty | Node::Look => out,
    }
}

/// [`collect_spec`] over `subs[i..]`, in order.
pub open spec fn collect_list(subs: Seq<Node>, i: int, out: Seq<char>) -> Seq<char>
    decreases subs, subs.len() - i,
{
    if i < 0 || i >= subs.len() {
        out
    } else {
        collect_list(subs, i + 1, collect_spec(subs[i], out))
    }
}

/// Representative characters of the pattern, without repeats.
pub open spec fn alphabet_spec(node: Node) -> Seq<char> {
    collect_spec(node, Seq::empty())
}

/// `node` contributes `c` to every alphabet it is collected into.
pub open spec fn contributes(node: Node, c: char) -> bool {
    forall|o: Seq<char>| #[trigger] collect_spec(node, o).contains(c)
}

/// Collecting only ever adds characters.
proof fn lemma_collect_keeps(node: Node, out: Seq<char>, c: char)
    requires
        out.contains(c),
    ensures
        collect_spec(node, out).contains(c),
    decreases node, 0int,
{
    match node {
        Node::Literal(bytes) => {
            if lit_first(bytes@) is Some {
                assert(add_new(out, lit_first(bytes@)->0).contains(c)) by {
                    let k = choose|k: int| 0 <= k < out.len() && out[k] == c;
                    if !out.contains(lit_first(bytes@)->0) {
                        assert(out.push(lit_first(bytes@)->0)[k] == c);
                    }
                }
            }
        },
        Node::Class(r) => {
            if r@.len() > 0 {
                assert(add_new(out, r@[0].0).contains(c)) by {
                    let k = choose|k: int| 0 <= k < out.len() && out[k] == c;
                    if !out.contains(r@[0].0) {
                        assert(out.push(r@[0].0)[k] == c);
                    }
                }
            }
        },
        Node::Repeat { min, max, sub } => {
            crate::nfa::lemma_body_decreases(node, min, max, sub);
            lemma_collect_keeps(*sub, out, c);
        },
        Node::Group(sub) => {
            lemma_collect_keeps(*sub, out, c);
        },
        Node::Concat(subs) => {
            lemma_collect_list_keeps(subs@, 0, out, c);
        },
        Node::Alternation(subs) => {
            lemma_collect_list_keeps(subs@, 0, out, c);
        },
        _ => {},
    }
}

proof fn lemma_collect_list_keeps(subs: Seq<Node>, i: int, out: Seq<char>, c: char)
    requires
        out.contains(c),
    ensures
        collect_list(subs, i, out).contains(c),
    decreases subs, subs.len() - i,
{
    if 0 <= i < subs.len() {
        lemma_collect_keeps(subs[i], out, c);
        lemma_collect_list_keeps(subs, i + 1, collect_spec(subs[i], out), c);
    }
}

/// What a sub-expression contributes, the whole pattern contributes.
proof fn lemma_collect_occurs(s: Node, node: Node, c: char, out: Seq<char>)
    requires
        occurs_in(s, node),
        contributes(s, c),
    ensures
        collect_spec(node, out).contains(c),
    decreases node, 0int,
{
    if s == node {
        assert(collect_spec(s, out).contains(c));
    } else {
        match node {
            Node::Repeat { min, max, sub } => {
                crate::nfa::lemma_body_decreases(node, min, max, sub);
                lemma_collect_occurs(s, *sub, c, out);
            },
            Node::Group(sub) => {
                lemma_collect_occurs(s, *sub, c, out);
            },
            Node::Concat(subs) => {
                let j = choose|j: int| 0 <= j < subs.len() && occurs_in(s, #[trigger] subs@[j]);
                lemma_collect_list_occurs(s, subs@, 0, j, c, out);
            },
            Node::Alternation(subs) => {
                let j = choose|j: int| 0 <= j < subs.len() && occurs_in(s, #[trigger] subs@[j]);
                lemma_collect_list_occurs(s, subs@, 0, j, c, out);
            },
            _ => {},
        }
    }
}

proof fn lemma_collect_list_occurs(s: Node, subs: Seq<Node>, i: int, j: int, c: char, out: Seq<char>)
    requires
        0 <= i <= j < subs.len(),
        occurs_in(s, subs[j]),
        contributes(s, c),
    ensures
        collect_list(subs, i, out).contains(c),
    decreases subs, subs.len() - i,
{
    if i == j {
        lemma_collect_occurs(s, subs[i], c, out);
        lemma_collect_list_keeps(subs, i + 1, collect_spec(subs[i], out), c);
    } else {
        lemma_collect_list_occurs(s, subs, i + 1, j, c, collect_spec(subs[i], out));
    }
}

/// Every non-empty character class of a pattern, wherever it stands, puts the
/// start of its first range into the pump alphabet, and every literal that
/// decodes to characters puts in its first character.
pub proof fn lemma_alphabet_covers(node: Node, s: Node)
    requires
        occurs_in(s, node),
    ensures
        s matches Node::Class(r) ==> (r@.len() > 0 ==> alphabet_spec(node).contains(r@[0].0)),
        s matches Node::Literal(b) ==> (lit_first(b@) is Some ==> alphabet_spec(node).contains(lit_first(b@)->0)),
{
    if s is Class && s->Class_0@.len() > 0 {
        let c = s->Class_0@[0].0;
        assert forall|o: Seq<char>| #[trigger] collect_spec(s, o).contains(c) by {
            if !o.contains(c) {
                assert(o.push(c)[o.len() as int] == c);
            }
        }
        lemma_collect_occurs(s, node, c, Seq::empty());
    }
    if s is Literal && lit_first(s->Literal_0@) is Some {
        let c = lit_first(s->Literal_0@)->0;
        assert forall|o: Seq<char>| #[trigger] collect_spec(s, o).contains(c) by {
            if !o.contains(c) {
                assert(o.push(c)[o.len() as int] == c);
            }
        }
        lemma_collect_occurs(s, node, c, Seq::empty());
    }
}

/// `c` is the character that `s` contributes to an alphabet: the start of the
/// first range of a non-empty class, or the first character of a literal.
pub open spec fn represents(s: Node, c: char) -> bool {
    ||| s is Class && s->Class_0@.len() > 0 && c == s->Class_0@[0].0
    ||| s is Literal && lit_first(s->Literal_0@) == Some(c)
}

proof fn lemma_collect_from(node: Node, out: Seq<char>, c: char)
    requires
        collect_spec(node, out).contains(c),
    ensures
        out.contains(c) || exists|s: Node| #[trigger] occurs_in(s, node) && represents(s, c),
    decreases node, 0int,
{
    match node {
        Node::Literal(bytes) => {
            if !out.contains(c) {
                assert(occurs_in(node, node));
            }
        },
        Node::Class(r) => {
            if !out.contains(c) {
                assert(occurs_in(node, node));
            }
        },
        Node::Repeat { min, max, sub } => {
            crate::nfa::lemma_body_decreases(node, min, max, sub);
            lemma_collect_from(*sub, out, c);
            if !out.contains(c) {
                let s = choose|s: Node| #[trigger] occurs_in(s, *sub) && represents(s, c);
                assert(occurs_in(s, node));
            }
        },
        Node::Group(sub) => {
            lemma_collect_from(*sub, out, c);
            if !out.contains(c) {
                let s = choose|s: Node| #[trigger] occurs_in(s, *sub) && represents(s, c);
                assert(occurs_in(s, node));
            }
        },
        Node::Concat(subs) => {
            lemma_collect_list_from(subs@, 0, out, c);
            if !out.contains(c) {
                let (j, s) = choose|j: int, s: Node| 0 <= j < subs@.len() && #[trigger] occurs_in(s, subs@[j]) && represents(s, c);
                assert(occurs_in(s, node));
            }
        },
        Node::Alternation(subs) => {
            lemma_collect_list_from(subs@, 0, out, c);
            if !out.contains(c) {
                let (j, s) = choose|j: int, s: Node| 0 <= j < subs@.len() && #[trigger] occurs_in(s, subs@[j]) && represents(s, c);
                assert(occurs_in(s, node));
            }
        },
        _ => {},
    }
}

proof fn lemma_collect_list_from(subs: Seq<Node>, i: int, out: Seq<char>, c: char)
    requires
        0 <= i,
        collect_list(subs, i, out).contains(c),
    ensures
        out.contains(c) || exists|j: int, s: Node| 0 <= j < subs.len() && #[trigger] occurs_in(s, subs[j]) && represents(s, c),
    decreases subs, subs.len() - i,
{
    if i < subs.len() {
        let o2 = collect_spec(subs[i], out);
        lemma_collect_list_from(subs, i + 1, o2, c);
        if o2.contains(c) {
            lemma_collect_from(subs[i], out, c);
            if !out.contains(c) {
                let s = choose|s: Node| #[trigger] occurs_in(s, subs[i]) && represents(s, c);
                assert(0 <= i < subs.len() && occurs_in(s, subs[i]) && represents(s, c));
            }
        }
    }
}

proof fn lemma_collect_distinct(node: Node, out: Seq<char>)
    requires
        out.no_duplicates(),
    ensures
        collect_spec(node, out).no_duplicates(),
    decreases node, 0int,
{
    match node {
        Node::Repeat { min, max, sub } => {
            crate::nfa::lemma_body_decreases(node, min, max, sub);
            lemma_collect_distinct(*sub, out);
        },
        Node::Group(sub) => {
            lemma_collect_distinct(*sub, out);
        },
        Node::Concat(subs) => {
            lemma_collect_list_distinct(subs@, 0, out);
        },
        Node::Alternation(subs) => {
            lemma_collect_list_distinct(subs@, 0, out);
        },
        _ => {},
    }
}

proof fn lemma_collect_list_distinct(subs: Seq<Node>, i: int, out: Seq<char>)
    requires
        out.no_duplicates(),
    ensures
        collect_list(subs, i, out).no_duplicates(),
    decreases subs, subs.len() - i,
{
    if 0 <= i < subs.len() {
        lemma_collect_distinct(subs[i], out);
        lemma_collect_list_distinct(subs, i + 1, collect_spec(subs[i], out));
    }
}

/// The pump alphabet holds nothing else: each of its characters, listed once,
/// is the one some class or literal of the pattern contributes.
pub proof fn lemma_alphabet_sound(node: Node, c: char)
    ensures
        alphabet_spec(node).no_duplicates(),
        alphabet_spec(node).contains(c) ==> exists|s: Node| #[trigger] occurs_in(s, node) && represents(s, c),
{
    assert(Seq::<char>::empty().no_duplicates());
    lemma_collect_distinct(node, Seq::empty());
    if alphabet_spec(node).contains(c) {
        lemma_collect_from(node, Seq::empty(), c);
    }
}

// --- Executable code ---

/// Synthesize a verified attack of `n` pump repetitions, or `None` if no
/// candidate can be verified: the first candidate, in order, that blows up the
/// backtracking model, reaching the step cap, or, for a pattern that is not
/// `exponential`, shows super-linear growth (see [`first_attack`]). Each pump
/// is preceded by an input leading from the start to a state that reads it, so
/// loops not at the start of the pattern are covered.
pub fn synthesize(nfa: &Nfa, node: &Node, n: u32, exponential: bool) -> (r: Option<AttackString>)
    requires
        nfa.wf(),
    ensures
        prefixes_ok(nfa@, pump_prefixes(nfa@)),
        synth_answer(r, first_attack(nfa@, exponential, alphabet_spec(*node), n as nat, pump_prefixes(nfa@), 0), n),
        exponential && r is Some ==> blows_up(nfa@, r->0.value@),
{
    let alphabet = alphabet(node);
    let (order, wit) = reach_witnesses(nfa);
    let breakers: [char; 5] = ['\u{0}', '!', '\u{7f}', 'Z', '9'];
    assert(breakers@ == breakers_spec());
    let ghost m = nfa@;
    let ghost alpha = alphabet@;
    let ghost wv = wits_view(wit@);
    let ghost pf = |c: char| first_reader(m, order@, wv, c, 0);
    proof {
        lemma_table_prefixes(m, order@, wv);
        assert(pf =~= pump_prefixes(m));
    }
    let mut i: usize = 0;
    while i < alphabet.len()
        invariant
            nfa.wf(),
            m == nfa@,
            alpha == alphabet@,
            alpha == alphabet_spec(*node),
            breakers@ == breakers_spec(),
            order.len() == wit.len(),
            forall|x: int| 0 <= x < order.len() ==> #[trigger] order@[x] < nfa.states.len(),
            wv == wits_view(wit@),
            pf == (|c: char| first_reader(m, order@, wv, c, 0)),
            pf == pump_prefixes(m),
            prefixes_ok(m, pf),
            i <= alphabet.len(),
            first_attack(m, exponential, alpha, n as nat, pf, 5 * i) == first_attack(m, exponential, alpha, n as nat, pf, 0),
        decreases alphabet.len() - i,
    {
        let pump = alphabet[i];
        let prefix = prefix_for(nfa, &order, &wit, pump);
        let mut j: usize = 0;
        while j < 5
            invariant
                nfa.wf(),
                m == nfa@,
                alpha == alphabet@,
                alpha == alphabet_spec(*node),
                breakers@ == breakers_spec(),
                pf == (|c: char| first_reader(m, order@, wv, c, 0)),
                pf == pump_prefixes(m),
                prefixes_ok(m, pf),
                i < alphabet.len(),
                j <= 5,
                pump == alpha[i as int],
                match prefix {
                    Some(p) => pf(pump) == Some(p@),
                    None => pf(pump) is None,
                },
                first_attack(m, exponential, alpha, n as nat, pf, 5 * i + j) == first_attack(m, exponential, alpha, n as nat, pf, 0),
            decreases 5 - j,
        {
            let brk = breakers[j];
            let ghost k = 5 * i + j;
            assert(k / 5 == i && k % 5 == j) by (nonlinear_arith)
                requires k == 5 * i + j, 0 <= j < 5;
            assert(k < 5 * alpha.len()) by (nonlinear_arith)
                requires k == 5 * i + j, j < 5, i < alpha.len();
            assert(breakers_spec()[k % 5] == brk);
            assert(alpha[k / 5] == pump);
            if brk != pump {
                if let Some(p) = &prefix {
                    let chars = attack_chars(p, pump, brk, n as usize);
                    let (matched, steps) = backtrack_steps(nfa, &chars, STEP_CAP);
                    let mut ok = !matched && steps >= STEP_CAP;
                    if !ok && !exponential && n <= 0x7FFF_FFFF {
                        let chars2 = attack_chars(p, pump, brk, 2 * (n as usize));
                        let (matched2, steps2) = backtrack_steps(nfa, &chars2, STEP_CAP);
                        ok = !matched && !matched2 && steps2 > 3 * steps;
                        assert(2 * (n as usize) == 2 * (n as nat));
                    }
                    if ok {
                        let value = string_from_chars(&chars);
                        assert(verified_attack(m, exponential, p@, pump, brk, n as nat));
                        assert(pf(pump) == Some(p@));
                        assert(first_attack(m, exponential, alpha, n as nat, pf, k) == Some(attack_input(p@, pump, brk, n as nat)));
                        let r = Some(AttackString { value, pumped_n: n });
                        assert(synth_answer(r, first_attack(m, exponential, alpha, n as nat, pf, 0), n));
                        assert(exponential ==> blows_up(m, attack_input(p@, pump, brk, n as nat)));
                        return r;
                    }
                    assert(!verified_attack(m, exponential, p@, pump, brk, n as nat));
                }
            }
            assert(first_attack(m, exponential, alpha, n as nat, pf, k) == first_attack(m, exponential, alpha, n as nat, pf, k + 1));
            j = j + 1;
        }
        i = i + 1;
    }
    assert(synth_answer(None, first_attack(m, exponential, alpha, n as nat, pf, 0), n));
    None
}

/// `r` is the answer a first verified candidate `first` gives: none, or an
/// attack with `n` pumps whose value is the candidate.
pub open spec fn synth_answer(r: Option<AttackString>, first: Option<Seq<char>>, n: u32) -> bool {
    &&& (r is Some) == (first is Some)
    &&& r matches Some(a) ==> a.pumped_n == n && Some(a.value@) == first
}

/// `prefix`, then `pump` repeated `n` times, then `brk`.
fn attack_chars(prefix: &Vec<char>, pump: char, brk: char, n: usize) -> (v: Vec<char>)
    ensures
        v@ == attack_input(prefix@, pump, brk, n as nat),
{
    let mut v: Vec<char> = skip_chars(prefix, 0);
    assert(v@ =~= prefix@ + Seq::new(0, |i: int| pump));
    let mut k: usize = 0;
    while k < n
        invariant
            k <= n,
            v@ == prefix@ + Seq::new(k as nat, |i: int| pump),
        decreases n - k,
    {
        v.push(pump);
        k = k + 1;
        assert(v@ =~= prefix@ + Seq::new(k as nat, |i: int| pump));
    }
    v.push(brk);
    assert(v@ =~= attack_input(prefix@, pump, brk, n as nat));
    v
}

/// Representative characters drawn from the pattern's literals and classes.
fn alphabet(node: &Node) -> (out: Vec<char>)
    ensures
        out@ == alphabet_spec(*node),
{
    let mut out: Vec<char> = Vec::new();
    collect_alphabet(node, &mut out);
    out
}

/// Appends `c` to `out` unless it is already there.
fn push_new(out: &mut Vec<char>, c: char)
    ensures
        final(out)@ == add_new(old(out)@, c),
{
    let mut i: usize = 0;
    while i < out.len()
        invariant
            i <= out.len(),
            forall|j: int| 0 <= j < i ==> out@[j] != c,
        decreases out.len() - i,
    {
        if out[i] == c {
            assert(out@.contains(c));
            return;
        }
        i = i + 1;
    }
    out.push(c);
}

/// Appends the representative characters of `node` to `out` (see
/// [`collect_spec`]).
fn collect_alphabet(node: &Node, out: &mut Vec<char>)
    ensures
        final(out)@ == collect_spec(*node, old(out)@),
    decreases node, 2int,
{
    match node {
        Node::Literal(bytes) => {
            let decoded = str_from_utf8(bytes.as_slice());
            if let Some(s) = decoded {
                let len = s.unicode_len();
                if len > 0 {
                    let c = s.get_char(0);
                    push_new(out, c);
                }
            }
        },
        Node::Class(ranges) => {
            if ranges.len() > 0 {
                push_new(out, ranges[0].0);
            }
        },
        Node::Repeat { min: _, max: _, sub } => {
            proof {
                crate::nfa::lemma_body_decreases(*node, node->min, node->max, node->sub);
            }
            collect_alphabet(sub, out);
        },
        Node::Group(sub) => {
            proof {
                let b = node->Group_0;
                assert(decreases_to!(*node => b));
                assert(decreases_to!(*node => *b));
            }
            collect_alphabet(sub, out);
        },
        Node::Concat(subs) => {
            collect_each(node, subs, out);
        },
        Node::Alternation(subs) => {
            collect_each(node, subs, out);
        },
        Node::Empty | Node::Look => {},
    }
}

/// [`collect_alphabet`] over each of `subs`, the children of `node`.
fn collect_each(node: &Node, subs: &Vec<Node>, out: &mut Vec<char>)
    requires
        *node == Node::Concat(*subs) || *node == Node::Alternation(*subs),
    ensures
        final(out)@ == collect_list(subs@, 0, old(out)@),
    decreases node, 1int,
{
    let ghost out0 = out@;
    let mut i: usize = 0;
    while i < subs.len()
        invariant
            i <= subs.len(),
            *node == Node::Concat(*subs) || *node == Node::Alternation(*subs),
            collect_list(subs@, i as int, out@) == collect_list(subs@, 0, out0),
        decreases subs.len() - i,
    {
        proof {
            crate::nfa::lemma_child_decreases(*node, *subs, i as int);
        }
        collect_alphabet(&subs[i], out);
        i = i + 1;
    }
}

/// Backtracking full-match step count, saturating at `cap` (see
/// [`backtrack_spec`]).
pub fn backtrack_steps(nfa: &Nfa, input: &Vec<char>, cap: usize) -> (r: (bool, usize))
    requires
        nfa.wf(),
    ensures
        (r.0, r.1 as int) == backtrack_spec(nfa@, input@, cap as int),
        r.1 <= cap,
{
    let mut steps: usize = 0;
    let mut eps_seen: HashSet<usize> = HashSet::new();
    let matched = bt(nfa, nfa.start, 0, input, &mut steps, cap, &mut eps_seen);
    (matched, steps)
}

/// One backtracking attempt (see [`bt_run`]): from `state` at `pos`, counting
/// steps in `steps`, with `eps_seen` the states entered by an epsilon
/// transition at this position.
fn bt(
    nfa: &Nfa,
    state: usize,
    pos: usize,
    input: &Vec<char>,
    steps: &mut usize,
    cap: usize,
    eps_seen: &mut HashSet<usize>,
) -> (r: bool)
    requires
        nfa.wf(),
        state < nfa.states.len(),
        pos <= input.len(),
        *old(steps) <= cap,
    ensures
        (r, *final(steps) as int, final(eps_seen)@) == bt_run(nfa@, input@, cap as int, state as int, pos as int, *old(steps) as int, old(eps_seen)@),
        *old(steps) <= *final(steps) <= cap,
    decreases cap - *old(steps),
{
    let ghost m = nfa@;
    if *steps >= cap {
        return false;
    }
    *steps = *steps + 1;
    if state == nfa.accept && pos == input.len() {
        return true;
    }
    let ghost s1 = *steps;
    let ghost seen1 = eps_seen@;
    let eps = &nfa.states[state].eps;
    assert(eps@ == m.states[state as int].eps);
    let mut i: usize = 0;
    while i < eps.len()
        invariant
            nfa.wf(),
            m == nfa@,
            state < nfa.states.len(),
            pos <= input.len(),
            eps@ == m.states[state as int].eps,
            i <= eps.len(),
            s1 <= *steps <= cap,
            s1 == *old(steps) + 1,
            *old(steps) < cap,
            bt_eps(m, input@, cap as int, state as int, pos as int, i as int, *steps as int, eps_seen@)
                == bt_eps(m, input@, cap as int, state as int, pos as int, 0, s1 as int, seen1),
            bt_run(m, input@, cap as int, state as int, pos as int, *old(steps) as int, old(eps_seen)@)
                == bt_eps(m, input@, cap as int, state as int, pos as int, 0, s1 as int, seen1),
        decreases eps.len() - i,
    {
        let t = eps[i];
        assert(t < nfa.states.len());
        let ghost st0 = *steps as int;
        let ghost se0 = eps_seen@;
        assert(eps@[i as int] == t);
        if eps_seen.insert(t) {
            if bt(nfa, t, pos, input, steps, cap, eps_seen) {
                return true;
            }
        } else {
            assert(eps_seen@ =~= se0);
        }
        if *steps >= cap {
            return false;
        }
        assert(bt_eps(m, input@, cap as int, state as int, pos as int, i as int, st0, se0)
            == bt_eps(m, input@, cap as int, state as int, pos as int, i + 1, *steps as int, eps_seen@));
        i = i + 1;
    }
    assert(bt_eps(m, input@, cap as int, state as int, pos as int, i as int, *steps as int, eps_seen@)
        == bt_moves(m, input@, cap as int, state as int, pos as int, 0, *steps as int, eps_seen@));
    if pos >= input.len() {
        assert(bt_moves(m, input@, cap as int, state as int, pos as int, 0, *steps as int, eps_seen@)
            == (false, *steps as int, eps_seen@));
    }
    if pos < input.len() {
        let c = input[pos];
        let moves = &nfa.states[state].moves;
        assert(moves@.map_values(|mv: (crate::nfa::Ranges, usize)| crate::nfa::move_view(mv)) == m.states[state as int].moves);
        let mut j: usize = 0;
        while j < moves.len()
            invariant
                nfa.wf(),
                m == nfa@,
                state < nfa.states.len(),
                pos < input.len(),
                c == input@[pos as int],
                moves@.map_values(|mv: (crate::nfa::Ranges, usize)| crate::nfa::move_view(mv)) == m.states[state as int].moves,
                j <= moves.len(),
                s1 <= *steps <= cap,
                s1 == *old(steps) + 1,
                *old(steps) < cap,
                bt_moves(m, input@, cap as int, state as int, pos as int, j as int, *steps as int, eps_seen@)
                    == bt_run(m, input@, cap as int, state as int, pos as int, *old(steps) as int, old(eps_seen)@),
            decreases moves.len() - j,
        {
            assert(m.states[state as int].moves[j as int] == crate::nfa::move_view(moves@[j as int]));
            if in_ranges_exec(&moves[j].0, c) {
                let t = moves[j].1;
                assert(t < nfa.states.len());
                let mut fresh: HashSet<usize> = HashSet::new();
                if bt(nfa, t, pos + 1, input, steps, cap, &mut fresh) {
                    return true;
                }
                if *steps >= cap {
                    return false;
                }
            }
            j = j + 1;
        }
    }
    false
}

} // verus!
