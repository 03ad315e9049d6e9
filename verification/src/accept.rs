//! The automaton built from a pattern accepts every string the pattern
//! matches: each fragment of the construction reads, from its start to its
//! accept state, every string its sub-pattern matches, and the transitions
//! added around it later only add ways through.
use vstd::prelude::*;

use crate::graph::{lemma_reaches_edge, lemma_reaches_refl, lemma_reaches_trans, reaches};
use crate::lang::{in_language, spells};
use crate::nfa::{
    add_eps_m, add_move_m, alt_rest, concat_rest, eps_edge, eps_graph, est, extends, frag, lemma_alt_rest,
    lemma_body_decreases, lemma_child_decreases, lemma_concat_rest, lemma_extends_steps, lemma_extends_trans,
    lemma_frag, lemma_lit_chain, lemma_rep_opt, lemma_rep_seq, lit_chain, literal_chars, rep_opt, rep_seq, thompson,
    empty_state, NfaModel, StateModel,
};
use crate::simulate::{accepts, closure_states, lemma_run_from_mono, lemma_run_states_from_start, moves_to, run_from, step_states};
use crate::syntax::Node;

verus! {

/// Reading `w` can lead from state `a` to state `b`.
pub open spec fn walks(m: NfaModel, a: int, w: Seq<char>, b: int) -> bool {
    run_from(m, set![a], w).contains(b)
}

proof fn lemma_walk_refl(m: NfaModel, a: int)
    requires
        0 <= a < m.len(),
    ensures
        walks(m, a, Seq::empty(), a),
{
    lemma_reaches_refl(eps_graph(m), a);
    assert(set![a].contains(a));
}

/// A walk may begin with an epsilon transition.
proof fn lemma_walk_eps_first(m: NfaModel, a: int, b: int, w: Seq<char>, c: int)
    requires
        eps_edge(m, a, b),
        walks(m, b, w, c),
    ensures
        walks(m, a, w, c),
{
    let g = eps_graph(m);
    assert forall|u: int| closure_states(m, set![b]).contains(u) implies closure_states(m, set![a]).contains(u) by {
        let s = choose|s: int| #![trigger set![b].contains(s), reaches(g, s, u)] set![b].contains(s) && 0 <= s < m.len() && reaches(g, s, u);
        assert(s == b);
        lemma_reaches_edge(g, a, b);
        lemma_reaches_trans(g, a, b, u);
        assert(set![a].contains(a));
    }
    lemma_run_from_mono(m, set![b], set![a], w);
}

/// Walks compose: from a set of states by `u` to `b`, then from `b` by `v`.
proof fn lemma_walk_concat(m: NfaModel, a: Set<int>, u: Seq<char>, b: int, v: Seq<char>, c: int)
    requires
        run_from(m, a, u).contains(b),
        walks(m, b, v, c),
    ensures
        run_from(m, a, u + v).contains(c),
    decreases u.len(),
{
    let g = eps_graph(m);
    if u.len() == 0 {
        assert(u + v =~= v);
        let s0 = choose|s: int| #![trigger a.contains(s), reaches(g, s, b)] a.contains(s) && 0 <= s < m.len() && reaches(g, s, b);
        assert forall|x: int| closure_states(m, set![b]).contains(x) implies closure_states(m, a).contains(x) by {
            let s = choose|s: int| #![trigger set![b].contains(s), reaches(g, s, x)] set![b].contains(s) && 0 <= s < m.len() && reaches(g, s, x);
            assert(s == b);
            lemma_reaches_trans(g, s0, b, x);
        }
        lemma_run_from_mono(m, set![b], a, v);
    } else {
        let next = step_states(m, closure_states(m, a), u[0]);
        assert((u + v).drop_first() =~= u.drop_first() + v);
        assert((u + v)[0] == u[0]);
        lemma_walk_concat(m, next, u.drop_first(), b, v, c);
    }
}

/// A walk may end with an epsilon transition.
proof fn lemma_walk_eps_last(m: NfaModel, a: int, w: Seq<char>, b: int, c: int)
    requires
        walks(m, a, w, b),
        eps_edge(m, b, c),
    ensures
        walks(m, a, w, c),
{
    let g = eps_graph(m);
    lemma_reaches_edge(g, b, c);
    assert(set![b].contains(b));
    assert(walks(m, b, Seq::empty(), c));
    lemma_walk_concat(m, set![a], w, b, Seq::empty(), c);
    assert(w + Seq::<char>::empty() =~= w);
}

/// One labeled transition reads one character.
proof fn lemma_walk_move(m: NfaModel, a: int, j: int, b: int, ch: char)
    requires
        moves_to(m, a, j, b, ch),
        0 <= b < m.len(),
    ensures
        walks(m, a, seq![ch], b),
{
    let g = eps_graph(m);
    let w = seq![ch];
    lemma_reaches_refl(g, a);
    assert(set![a].contains(a));
    let cl = closure_states(m, set![a]);
    assert(cl.contains(a));
    let st = step_states(m, cl, ch);
    assert(cl.contains(a) && moves_to(m, a, j, b, ch));
    assert(st.contains(b));
    lemma_reaches_refl(g, b);
    assert(closure_states(m, st).contains(b));
    let e = w.drop_first();
    assert(e.len() == 0);
    assert(run_from(m, st, e) == closure_states(m, st));
    assert(w[0] == ch);
    assert(run_from(m, set![a], w) == run_from(m, step_states(m, closure_states(m, set![a]), w[0]), e));
}

/// The epsilon transition added by `add_eps_m` is one of `m`'s.
proof fn lemma_added_eps(s: Seq<StateModel>, a: int, b: int, m: NfaModel)
    requires
        0 <= a < s.len(),
        0 <= b <= usize::MAX,
        extends(add_eps_m(s, a, b), m.states),
    ensures
        eps_edge(m, a, b),
{
    let s1 = add_eps_m(s, a, b);
    let j = s[a].eps.len() as int;
    assert(s1[a].eps[j] == b as usize);
    assert(m.states[a].eps[j] == s1[a].eps[j]);
}

/// `parts` spell the first `k` of them, then the rest.
proof fn lemma_flatten_split(parts: Seq<Seq<char>>, k: int)
    requires
        0 <= k <= parts.len(),
    ensures
        parts.flatten() == parts.take(k).flatten() + parts.skip(k).flatten(),
    decreases k,
{
    if k == 0 {
        assert(parts.take(0) =~= Seq::<Seq<char>>::empty());
        assert(parts.skip(0) =~= parts);
        assert(Seq::<Seq<char>>::empty().flatten() =~= Seq::<char>::empty());
        assert(Seq::<char>::empty() + parts.flatten() =~= parts.flatten());
    } else {
        let d = parts.drop_first();
        lemma_flatten_split(d, k - 1);
        assert(parts.take(k).drop_first() =~= d.take(k - 1));
        assert(parts.take(k).first() == parts.first());
        assert(parts.skip(k) =~= d.skip(k - 1));
        assert(parts.take(k).flatten() == parts.first() + d.take(k - 1).flatten());
        assert(parts.flatten() == parts.first() + d.flatten());
        assert(parts.first() + (d.take(k - 1).flatten() + d.skip(k - 1).flatten()) =~= (parts.first()
            + d.take(k - 1).flatten()) + d.skip(k - 1).flatten());
    }
}

/// A literal's chain reads its characters from `i` on.
proof fn lemma_lit_walk(chars: Seq<char>, i: int, st: Seq<StateModel>, cur: int, m: NfaModel)
    requires
        0 <= i <= chars.len(),
        0 <= cur < st.len(),
        extends(lit_chain(chars, i, st, cur).0, m.states),
        m.len() <= usize::MAX,
    ensures
        walks(m, cur, chars.skip(i), lit_chain(chars, i, st, cur).1),
    decreases chars.len() - i,
{
    lemma_lit_chain(chars, i, st, cur);
    if i >= chars.len() {
        assert(chars.skip(i) =~= Seq::<char>::empty());
        lemma_walk_refl(m, cur);
    } else {
        let next = st.len() as int;
        let st0 = st.push(empty_state());
        let r = seq![(chars[i], chars[i])];
        let st1 = add_move_m(st0, cur, r, next);
        lemma_lit_chain(chars, i + 1, st1, next);
        lemma_lit_walk(chars, i + 1, st1, next, m);
        lemma_extends_trans(st1, lit_chain(chars, i + 1, st1, next).0, m.states);
        let j = st0[cur].moves.len() as int;
        assert(st1[cur].moves[j] == (r, next as usize));
        assert(m.states[cur].moves[j] == st1[cur].moves[j]);
        assert(r[0].0 <= chars[i] && chars[i] <= r[0].1);
        assert(moves_to(m, cur, j, next, chars[i]));
        lemma_walk_move(m, cur, j, next, chars[i]);
        lemma_walk_concat(m, set![cur], seq![chars[i]], next, chars.skip(i + 1), lit_chain(chars, i + 1, st1, next).1);
        assert(seq![chars[i]] + chars.skip(i + 1) =~= chars.skip(i));
    }
}

/// The fragment of a pattern reads, from its start to its accept state, every
/// string the pattern matches, in any automaton that keeps the fragment.
pub proof fn lemma_frag_walks(node: Node, st: Seq<StateModel>, m: NfaModel, w: Seq<char>)
    requires
        node.wf(),
        extends(frag(node, st).0, m.states),
        m.len() <= usize::MAX,
        in_language(node, w),
    ensures
        walks(m, frag(node, st).1, w, frag(node, st).2),
    decreases node, 0int,
{
    let n = st.len() as int;
    let f = frag(node, st);
    lemma_frag(node, st);
    let p = st.push(empty_state());
    match node {
        Node::Empty | Node::Look => {
            assert(w =~= Seq::<char>::empty());
            lemma_walk_refl(m, n);
        },
        Node::Literal(bytes) => {
            let chars = literal_chars(bytes@);
            lemma_lit_walk(chars, 0, p, n, m);
            assert(chars.skip(0) =~= chars);
        },
        Node::Class(r) => {
            let st0 = p.push(empty_state());
            assert(st0[n].moves.len() == 0);
            assert(f.0[n].moves[0] == (r@, (n + 1) as usize));
            assert(m.states[n].moves[0] == f.0[n].moves[0]);
            let i = choose|i: int| #![trigger r@[i]] 0 <= i < r@.len() && r@[i].0 <= w[0] && w[0] <= r@[i].1;
            assert(moves_to(m, n, 0, n + 1, w[0]));
            lemma_walk_move(m, n, 0, n + 1, w[0]);
            assert(w =~= seq![w[0]]);
        },
        Node::Group(sub) => {
            lemma_frag_walks(*sub, st, m, w);
        },
        Node::Concat(subs) => {
            let parts = choose|parts: Seq<Seq<char>>|
                #[trigger] spells(parts, w) && parts.len() == subs.len() && forall|i: int|
                    0 <= i < parts.len() ==> in_language(subs@[i], #[trigger] parts[i]);
            if subs.len() == 0 {
                assert(parts =~= Seq::<Seq<char>>::empty());
                assert(w =~= Seq::<char>::empty());
                lemma_walk_refl(m, n);
            } else {
                assert forall|j: int| 0 <= j < subs@.len() implies (#[trigger] subs@[j]).wf() by {}
                let f0 = frag(subs@[0], st);
                lemma_frag(subs@[0], st);
                lemma_concat_rest(subs@, 1, f0.0, f0.2);
                lemma_extends_trans(f0.0, f.0, m.states);
                lemma_child_decreases(node, subs, 0);
                lemma_frag_walks(subs@[0], st, m, parts[0]);
                let d = parts.drop_first();
                assert forall|k: int| 0 <= k < d.len() implies in_language(subs@[1 + k], #[trigger] d[k]) by {
                    assert(d[k] == parts[k + 1]);
                }
                lemma_concat_walk(subs@, 1, f0.0, f0.2, m, d);
                lemma_walk_concat(m, set![f0.1], parts[0], f0.2, d.flatten(), f.2);
                assert(parts.flatten() == parts.first() + d.flatten());
            }
        },
        Node::Alternation(subs) => {
            let k = choose|i: int| 0 <= i < subs.len() && in_language(#[trigger] subs@[i], w);
            assert forall|j: int| 0 <= j < subs@.len() implies (#[trigger] subs@[j]).wf() by {}
            lemma_alt_walk(subs@, 0, p.push(empty_state()), n, n + 1, m, k, w);
        },
        Node::Repeat { min, max, sub } => {
            lemma_body_decreases(node, min, max, sub);
            let parts = choose|parts: Seq<Seq<char>>|
                #[trigger] spells(parts, w) && min <= parts.len() && (max matches Some(x) ==> parts.len() <= x) && forall|i: int|
                    0 <= i < parts.len() ==> in_language(*sub, #[trigger] parts[i]);
            let first = parts.take(min as int);
            let rest = parts.skip(min as int);
            lemma_flatten_split(parts, min as int);
            lemma_rep_seq(*sub, min as int, p, n);
            let (st1, cur) = rep_seq(*sub, min as int, p, n);
            let acc = st1.len() as int;
            let st2 = st1.push(empty_state());
            lemma_extends_steps(st1, 0, 0, seq![]);
            assert forall|i: int| 0 <= i < first.len() implies in_language(*sub, #[trigger] first[i]) by {
                assert(first[i] == parts[i]);
            }
            assert forall|i: int| 0 <= i < rest.len() implies in_language(*sub, #[trigger] rest[i]) by {
                assert(rest[i] == parts[i + min]);
            }
            match max {
                None => {
                    lemma_frag(*sub, st2);
                    let g = frag(*sub, st2);
                    let s1 = add_eps_m(g.0, cur, g.1);
                    let s2 = add_eps_m(s1, cur, acc);
                    let s3 = add_eps_m(s2, g.2, g.1);
                    lemma_extends_steps(g.0, cur, g.1, seq![]);
                    lemma_extends_steps(s1, cur, acc, seq![]);
                    lemma_extends_steps(s2, g.2, g.1, seq![]);
                    lemma_extends_steps(s3, g.2, acc, seq![]);
                    lemma_extends_trans(s3, f.0, m.states);
                    lemma_extends_trans(s2, s3, m.states);
                    lemma_extends_trans(s1, s2, m.states);
                    lemma_extends_trans(g.0, s1, m.states);
                    lemma_extends_trans(st2, g.0, m.states);
                    lemma_extends_trans(st1, st2, m.states);
                    lemma_added_eps(g.0, cur, g.1, m);
                    lemma_added_eps(s1, cur, acc, m);
                    lemma_added_eps(s2, g.2, g.1, m);
                    lemma_added_eps(s3, g.2, acc, m);
                    lemma_rep_seq_walk(*sub, min as int, p, n, m, first);
                    if rest.len() == 0 {
                        lemma_walk_refl(m, cur);
                        lemma_walk_eps_last(m, cur, Seq::empty(), cur, acc);
                        assert(rest.flatten() =~= Seq::<char>::empty());
                    } else {
                        assert forall|i: int| 0 <= i < rest.len() implies walks(m, g.1, #[trigger] rest[i], g.2) by {
                            lemma_frag_walks(*sub, st2, m, rest[i]);
                        }
                        lemma_star_walk(m, g.1, g.2, acc, rest);
                        lemma_walk_eps_first(m, cur, g.1, rest.flatten(), acc);
                    }
                    lemma_walk_concat(m, set![n], first.flatten(), cur, rest.flatten(), acc);
                },
                Some(mx) => {
                    let s1 = add_eps_m(st2, cur, acc);
                    lemma_extends_steps(st2, cur, acc, seq![]);
                    lemma_rep_opt(*sub, mx - min, s1, cur, acc);
                    lemma_extends_trans(s1, f.0, m.states);
                    lemma_extends_trans(st2, s1, m.states);
                    lemma_extends_trans(st1, st2, m.states);
                    lemma_added_eps(st2, cur, acc, m);
                    lemma_rep_seq_walk(*sub, min as int, p, n, m, first);
                    lemma_rep_opt_walk(*sub, mx - min, s1, cur, acc, m, rest);
                    lemma_walk_concat(m, set![n], first.flatten(), cur, rest.flatten(), acc);
                },
            }
        },
    }
}

proof fn lemma_concat_walk(subs: Seq<Node>, i: int, st: Seq<StateModel>, acc: int, m: NfaModel, parts: Seq<Seq<char>>)
    requires
        forall|j: int| 0 <= j < subs.len() ==> (#[trigger] subs[j]).wf(),
        1 <= i <= subs.len(),
        0 <= acc < st.len(),
        extends(concat_rest(subs, i, st, acc).0, m.states),
        m.len() <= usize::MAX,
        parts.len() == subs.len() - i,
        forall|k: int| 0 <= k < parts.len() ==> in_language(subs[i + k], #[trigger] parts[k]),
    ensures
        walks(m, acc, parts.flatten(), concat_rest(subs, i, st, acc).1),
    decreases subs, subs.len() - i,
{
    lemma_concat_rest(subs, i, st, acc);
    if i >= subs.len() {
        assert(parts =~= Seq::<Seq<char>>::empty());
        assert(parts.flatten() =~= Seq::<char>::empty());
        lemma_walk_refl(m, acc);
    } else {
        lemma_frag(subs[i], st);
        let f = frag(subs[i], st);
        let s1 = add_eps_m(f.0, acc, f.1);
        lemma_extends_steps(f.0, acc, f.1, seq![]);
        lemma_concat_rest(subs, i + 1, s1, f.2);
        lemma_extends_trans(s1, concat_rest(subs, i + 1, s1, f.2).0, m.states);
        lemma_extends_trans(f.0, s1, m.states);
        lemma_added_eps(f.0, acc, f.1, m);
        assert(in_language(subs[i], parts[0]));
        lemma_frag_walks(subs[i], st, m, parts[0]);
        let d = parts.drop_first();
        assert forall|k: int| 0 <= k < d.len() implies in_language(subs[i + 1 + k], #[trigger] d[k]) by {
            assert(d[k] == parts[k + 1]);
        }
        lemma_concat_walk(subs, i + 1, s1, f.2, m, d);
        lemma_walk_concat(m, set![f.1], parts[0], f.2, d.flatten(), concat_rest(subs, i, st, acc).1);
        lemma_walk_eps_first(m, acc, f.1, parts[0] + d.flatten(), concat_rest(subs, i, st, acc).1);
        assert(parts.flatten() == parts.first() + d.flatten());
    }
}

proof fn lemma_alt_walk(
    subs: Seq<Node>,
    i: int,
    st: Seq<StateModel>,
    start: int,
    accept: int,
    m: NfaModel,
    k: int,
    w: Seq<char>,
)
    requires
        forall|j: int| 0 <= j < subs.len() ==> (#[trigger] subs[j]).wf(),
        0 <= i <= k < subs.len(),
        in_language(subs[k], w),
        0 <= start < st.len(),
        0 <= accept < st.len(),
        extends(alt_rest(subs, i, st, start, accept), m.states),
        m.len() <= usize::MAX,
    ensures
        walks(m, start, w, accept),
    decreases subs, subs.len() - i,
{
    lemma_frag(subs[i], st);
    let f = frag(subs[i], st);
    let s1 = add_eps_m(f.0, start, f.1);
    let s2 = add_eps_m(s1, f.2, accept);
    lemma_extends_steps(f.0, start, f.1, seq![]);
    lemma_extends_steps(s1, f.2, accept, seq![]);
    lemma_alt_rest(subs, i + 1, s2, start, accept);
    lemma_extends_trans(s2, alt_rest(subs, i + 1, s2, start, accept), m.states);
    if i < k {
        lemma_alt_walk(subs, i + 1, s2, start, accept, m, k, w);
    } else {
        lemma_extends_trans(s1, s2, m.states);
        lemma_extends_trans(f.0, s1, m.states);
        lemma_added_eps(f.0, start, f.1, m);
        lemma_added_eps(s1, f.2, accept, m);
        lemma_frag_walks(subs[i], st, m, w);
        lemma_walk_eps_first(m, start, f.1, w, f.2);
        lemma_walk_eps_last(m, start, w, f.2, accept);
    }
}

proof fn lemma_rep_seq_walk(sub: Node, k: int, st: Seq<StateModel>, cur: int, m: NfaModel, parts: Seq<Seq<char>>)
    requires
        sub.wf(),
        0 <= k,
        0 <= cur < st.len(),
        extends(rep_seq(sub, k, st, cur).0, m.states),
        m.len() <= usize::MAX,
        parts.len() == k,
        forall|i: int| 0 <= i < parts.len() ==> in_language(sub, #[trigger] parts[i]),
    ensures
        walks(m, cur, parts.flatten(), rep_seq(sub, k, st, cur).1),
    decreases sub, k + 1,
{
    lemma_rep_seq(sub, k, st, cur);
    if k == 0 {
        assert(parts =~= Seq::<Seq<char>>::empty());
        assert(parts.flatten() =~= Seq::<char>::empty());
        lemma_walk_refl(m, cur);
    } else {
        lemma_frag(sub, st);
        let f = frag(sub, st);
        let s1 = add_eps_m(f.0, cur, f.1);
        lemma_extends_steps(f.0, cur, f.1, seq![]);
        lemma_rep_seq(sub, k - 1, s1, f.2);
        lemma_extends_trans(s1, rep_seq(sub, k - 1, s1, f.2).0, m.states);
        lemma_extends_trans(f.0, s1, m.states);
        lemma_added_eps(f.0, cur, f.1, m);
        lemma_frag_walks(sub, st, m, parts[0]);
        let d = parts.drop_first();
        assert forall|i: int| 0 <= i < d.len() implies in_language(sub, #[trigger] d[i]) by {
            assert(d[i] == parts[i + 1]);
        }
        lemma_rep_seq_walk(sub, k - 1, s1, f.2, m, d);
        lemma_walk_concat(m, set![f.1], parts[0], f.2, d.flatten(), rep_seq(sub, k, st, cur).1);
        lemma_walk_eps_first(m, cur, f.1, parts[0] + d.flatten(), rep_seq(sub, k, st, cur).1);
        assert(parts.flatten() == parts.first() + d.flatten());
    }
}

proof fn lemma_rep_opt_walk(
    sub: Node,
    k: int,
    st: Seq<StateModel>,
    cur: int,
    acc: int,
    m: NfaModel,
    parts: Seq<Seq<char>>,
)
    requires
        sub.wf(),
        0 <= k,
        0 <= cur < st.len(),
        0 <= acc < st.len(),
        eps_edge(m, cur, acc),
        extends(rep_opt(sub, k, st, cur, acc).0, m.states),
        m.len() <= usize::MAX,
        parts.len() <= k,
        forall|i: int| 0 <= i < parts.len() ==> in_language(sub, #[trigger] parts[i]),
    ensures
        walks(m, cur, parts.flatten(), acc),
    decreases sub, k + 1,
{
    lemma_rep_opt(sub, k, st, cur, acc);
    if parts.len() == 0 {
        assert(parts.flatten() =~= Seq::<char>::empty());
        lemma_walk_refl(m, cur);
        lemma_walk_eps_last(m, cur, Seq::empty(), cur, acc);
    } else {
        lemma_frag(sub, st);
        let f = frag(sub, st);
        let s1 = add_eps_m(f.0, cur, f.1);
        let s2 = add_eps_m(s1, f.2, acc);
        lemma_extends_steps(f.0, cur, f.1, seq![]);
        lemma_extends_steps(s1, f.2, acc, seq![]);
        lemma_rep_opt(sub, k - 1, s2, f.2, acc);
        lemma_extends_trans(s2, rep_opt(sub, k - 1, s2, f.2, acc).0, m.states);
        lemma_extends_trans(s1, s2, m.states);
        lemma_extends_trans(f.0, s1, m.states);
        lemma_added_eps(f.0, cur, f.1, m);
        lemma_added_eps(s1, f.2, acc, m);
        lemma_frag_walks(sub, st, m, parts[0]);
        let d = parts.drop_first();
        assert forall|i: int| 0 <= i < d.len() implies in_language(sub, #[trigger] d[i]) by {
            assert(d[i] == parts[i + 1]);
        }
        lemma_rep_opt_walk(sub, k - 1, s2, f.2, acc, m, d);
        lemma_walk_concat(m, set![f.1], parts[0], f.2, d.flatten(), acc);
        lemma_walk_eps_first(m, cur, f.1, parts[0] + d.flatten(), acc);
        assert(parts.flatten() == parts.first() + d.flatten());
    }
}

/// The loop of an unbounded repetition reads any non-empty sequence of the
/// body's strings from the body's start to the repetition's accept state.
proof fn lemma_star_walk(m: NfaModel, b1: int, b2: int, acc: int, parts: Seq<Seq<char>>)
    requires
        forall|i: int| 0 <= i < parts.len() ==> walks(m, b1, #[trigger] parts[i], b2),
        eps_edge(m, b2, b1),
        eps_edge(m, b2, acc),
        parts.len() > 0,
    ensures
        walks(m, b1, parts.flatten(), acc),
    decreases parts.len(),
{
    let d = parts.drop_first();
    assert(parts.flatten() == parts.first() + d.flatten());
    assert(walks(m, b1, parts[0], b2));
    if parts.len() == 1 {
        assert(d =~= Seq::<Seq<char>>::empty());
        assert(d.flatten() =~= Seq::<char>::empty());
        assert(parts[0] + d.flatten() =~= parts[0]);
        lemma_walk_eps_last(m, b1, parts[0], b2, acc);
    } else {
        assert forall|i: int| 0 <= i < d.len() implies walks(m, b1, #[trigger] d[i], b2) by {
            assert(d[i] == parts[i + 1]);
        }
        lemma_star_walk(m, b1, b2, acc, d);
        lemma_walk_eps_last(m, b1, parts[0], b2, b1);
        lemma_walk_concat(m, set![b1], parts[0], b1, d.flatten(), acc);
    }
}

/// Every string a pattern matches is accepted by the automaton built from it.
pub proof fn lemma_matched_strings_accepted(node: Node, w: Seq<char>)
    requires
        node.wf(),
        est(node) < usize::MAX,
        in_language(node, w),
    ensures
        accepts(thompson(node), w),
{
    let m = thompson(node);
    lemma_frag(node, seq![]);
    lemma_extends_steps(m.states, 0, 0, seq![]);
    lemma_frag_walks(node, seq![], m, w);
    lemma_run_states_from_start(m, w);
}

} // verus!
