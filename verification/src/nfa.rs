//! Thompson NFA over character-labeled transitions, built from a [`Node`].
//!
//! Used by the sound EDA/IDA analyses: a character-labeled NFA keeps the
//! product-automaton constructions simple. Zero-width assertions are treated
//! as epsilon (they add no backtracking ambiguity in this model).
use vstd::prelude::*;

use crate::graph::{
    adj_edge, adj_graph, adj_wf, reach, lemma_reaches_mono, lemma_reaches_reverse, reverse_adj,
    count_true, falses, lemma_count_true_all_false, lemma_count_true_bound, lemma_count_true_set,
    lemma_reaches_closed, lemma_reaches_refl, lemma_reaches_step, reaches,
};
use crate::syntax::{ranges_wf, str_from_utf8, Node};
use crate::text::str_chars;

verus! {

/// Inclusive character ranges a transition can match.
pub type Ranges = Vec<(char, char)>;

/// One NFA state and its outgoing transitions.
pub struct State {
    /// Epsilon transitions (no input consumed).
    pub eps: Vec<usize>,
    /// Labeled transitions: read a character in the ranges, move to the target.
    pub moves: Vec<(Ranges, usize)>,
}

/// A nondeterministic finite automaton with one start and one accept state.
pub struct Nfa {
    pub states: Vec<State>,
    pub start: usize,
    pub accept: usize,
}

/// The mathematical content of a [`State`].
pub struct StateModel {
    pub eps: Seq<usize>,
    pub moves: Seq<(Seq<(char, char)>, usize)>,
}

/// The mathematical content of an [`Nfa`].
pub struct NfaModel {
    pub states: Seq<StateModel>,
    pub start: int,
    pub accept: int,
}

pub open spec fn move_view(m: (Ranges, usize)) -> (Seq<(char, char)>, usize) {
    (m.0@, m.1)
}

impl View for State {
    type V = StateModel;

    open spec fn view(&self) -> StateModel {
        StateModel { eps: self.eps@, moves: self.moves@.map_values(|m: (Ranges, usize)| move_view(m)) }
    }
}

pub open spec fn state_view(s: State) -> StateModel {
    s@
}

impl View for Nfa {
    type V = NfaModel;

    open spec fn view(&self) -> NfaModel {
        NfaModel {
            states: self.states@.map_values(|s: State| state_view(s)),
            start: self.start as int,
            accept: self.accept as int,
        }
    }
}

/// Every transition of `st` leads to one of its states.
pub open spec fn targets_ok(st: Seq<StateModel>) -> bool {
    &&& forall|s: int, j: int|
        0 <= s < st.len() && 0 <= j < st[s].eps.len() ==> #[trigger] st[s].eps[j] < st.len()
    &&& forall|s: int, j: int|
        0 <= s < st.len() && 0 <= j < st[s].moves.len() ==> #[trigger] st[s].moves[j].1 < st.len()
}

/// Every transition label is a well-formed range set.
pub open spec fn moves_wf(st: Seq<StateModel>) -> bool {
    forall|s: int, j: int| 0 <= s < st.len() && 0 <= j < st[s].moves.len() ==> ranges_wf(#[trigger] st[s].moves[j].0)
}

impl NfaModel {
    pub open spec fn len(self) -> int {
        self.states.len() as int
    }

    /// Start and accept are states, every transition leads to a state, and the
    /// state count leaves room for index arithmetic.
    pub open spec fn wf(self) -> bool {
        &&& 0 <= self.start < self.len()
        &&& 0 <= self.accept < self.len()
        &&& self.len() < usize::MAX
        &&& targets_ok(self.states)
        &&& moves_wf(self.states)
    }
}

impl Nfa {
    pub open spec fn wf(&self) -> bool {
        self@.wf()
    }
}

/// `c` lies in one of the ranges.
pub open spec fn in_ranges(r: Seq<(char, char)>, c: char) -> bool {
    exists|i: int| #![trigger r[i]] 0 <= i < r.len() && r[i].0 <= c && c <= r[i].1
}

/// Some character lies in both range sets.
pub open spec fn share_char(a: Seq<(char, char)>, b: Seq<(char, char)>) -> bool {
    exists|c: char| #[trigger] in_ranges(a, c) && in_ranges(b, c)
}

/// An epsilon transition `a -> b`.
pub open spec fn eps_edge(m: NfaModel, a: int, b: int) -> bool {
    0 <= a < m.len() && exists|j: int| 0 <= j < m.states[a].eps.len() && #[trigger] m.states[a].eps[j] as int == b
}

pub open spec fn eps_graph(m: NfaModel) -> spec_fn(int, int) -> bool {
    |a: int, b: int| eps_edge(m, a, b)
}

/// A labeled transition `a -> b` (any label).
pub open spec fn move_edge(m: NfaModel, a: int, b: int) -> bool {
    0 <= a < m.len() && exists|j: int| 0 <= j < m.states[a].moves.len() && #[trigger] m.states[a].moves[j].1 as int == b
}

/// Any transition `a -> b`, epsilon or labeled.
pub open spec fn nfa_edge(m: NfaModel, a: int, b: int) -> bool {
    eps_edge(m, a, b) || move_edge(m, a, b)
}

pub open spec fn nfa_graph(m: NfaModel) -> spec_fn(int, int) -> bool {
    |a: int, b: int| nfa_edge(m, a, b)
}

/// The epsilon-free move `s --r--> t`: some state `u` in the epsilon closure of
/// `s` has the labeled transition `(r, t)`.
pub open spec fn ef_has(m: NfaModel, s: int, r: Seq<(char, char)>, t: int) -> bool {
    exists|u: int, k: int|
        #![trigger m.states[u].moves[k]]
        reaches(eps_graph(m), s, u) && 0 <= u < m.len() && 0 <= k < m.states[u].moves.len()
            && m.states[u].moves[k] == (r, t as usize)
}

/// `ef` lists the move `(r, t)` for state `s`.
pub open spec fn ef_lists(ef: Seq<Vec<(Ranges, usize)>>, s: int, r: Seq<(char, char)>, t: int) -> bool {
    moves_view(ef[s]@).contains((r, t as usize))
}

/// `ef` is exactly the table of epsilon-free moves of `m`.
pub open spec fn is_epsfree_table(m: NfaModel, ef: Seq<Vec<(Ranges, usize)>>) -> bool {
    &&& ef.len() == m.len()
    &&& forall|s: int, i: int| 0 <= s < ef.len() && 0 <= i < ef[s].len() ==> #[trigger] ef[s]@[i].1 < m.len()
    &&& forall|s: int, r: Seq<(char, char)>, t: int|
        0 <= s < m.len() ==> (#[trigger] ef_lists(ef, s, r, t) <==> ef_has(m, s, r, t))
}

/// Does `c` lie in one of the ranges?
pub fn in_ranges_exec(r: &Ranges, c: char) -> (b: bool)
    ensures
        b == in_ranges(r@, c),
{
    let mut i: usize = 0;
    while i < r.len()
        invariant
            i <= r.len(),
            forall|j: int| 0 <= j < i ==> !(r@[j].0 <= c && c <= r@[j].1),
        decreases r.len() - i,
    {
        let (lo, hi) = r[i];
        if lo <= c && c <= hi {
            return true;
        }
        i = i + 1;
    }
    false
}

/// Some range of `a` overlaps some range of `b`: `a0 <= b1` and `b0 <= a1`.
pub open spec fn ranges_overlap(a: Seq<(char, char)>, b: Seq<(char, char)>) -> bool {
    exists|x: int, y: int|
        0 <= x < a.len() && 0 <= y < b.len() && #[trigger] a[x].0 <= b[y].1 && #[trigger] b[y].0 <= a[x].1
}

/// Do two range sets share any character? Some pair of ranges overlaps; for
/// well-formed range sets, that is exactly a shared character.
pub fn ranges_intersect(a: &Ranges, b: &Ranges) -> (r: bool)
    ensures
        r == ranges_overlap(a@, b@),
        ranges_wf(a@) && ranges_wf(b@) ==> (r == share_char(a@, b@)),
{
    let mut i: usize = 0;
    while i < a.len()
        invariant
            i <= a.len(),
            forall|x: int, y: int| 0 <= x < i && 0 <= y < b.len() ==> !(a@[x].0 <= b@[y].1 && b@[y].0 <= a@[x].1),
        decreases a.len() - i,
    {
        let (a0, a1) = a[i];
        let mut j: usize = 0;
        while j < b.len()
            invariant
                i < a.len(),
                j <= b.len(),
                a@[i as int] == (a0, a1),
                forall|x: int, y: int| 0 <= x < i && 0 <= y < b.len() ==> !(a@[x].0 <= b@[y].1 && b@[y].0 <= a@[x].1),
                forall|y: int| 0 <= y < j ==> !(a0 <= b@[y].1 && b@[y].0 <= a1),
            decreases b.len() - j,
        {
            let (b0, b1) = b[j];
            if a0 <= b1 && b0 <= a1 {
                proof {
                    assert(a@[i as int].0 <= b@[j as int].1 && b@[j as int].0 <= a@[i as int].1);
                    if ranges_wf(a@) && ranges_wf(b@) {
                        assert(a@[i as int].0 <= a@[i as int].1);
                        assert(b@[j as int].0 <= b@[j as int].1);
                        let c = if a0 <= b0 { b0 } else { a0 };
                        assert(a@[i as int].0 <= c && c <= a@[i as int].1);
                        assert(in_ranges(a@, c));
                        assert(b@[j as int].0 <= c && c <= b@[j as int].1);
                        assert(in_ranges(b@, c));
                    }
                }
                return true;
            }
            j = j + 1;
        }
        i = i + 1;
    }
    proof {
        assert(!ranges_overlap(a@, b@));
        assert forall|c: char| !(#[trigger] in_ranges(a@, c) && in_ranges(b@, c)) by {
            if in_ranges(a@, c) && in_ranges(b@, c) {
                let x = choose|x: int| 0 <= x < a@.len() && a@[x].0 <= c && c <= a@[x].1;
                let y = choose|y: int| 0 <= y < b@.len() && b@[y].0 <= c && c <= b@[y].1;
                assert(!(a@[x].0 <= b@[y].1 && b@[y].0 <= a@[x].1));
            }
        }
    }
    false
}

/// The overlap of two ranges, as a list of at most one range.
pub open spec fn clip(r: (char, char), s: (char, char)) -> Seq<(char, char)> {
    let lo = if r.0 >= s.0 { r.0 } else { s.0 };
    let hi = if r.1 <= s.1 { r.1 } else { s.1 };
    if lo <= hi {
        seq![(lo, hi)]
    } else {
        Seq::empty()
    }
}

/// The overlaps of `r` with the first `j` ranges of `b`, in order.
pub open spec fn clip_each(r: (char, char), b: Seq<(char, char)>, j: int) -> Seq<(char, char)>
    decreases j,
{
    if j <= 0 {
        Seq::empty()
    } else {
        clip_each(r, b, j - 1) + clip(r, b[j - 1])
    }
}

/// The overlaps of each of the first `i` ranges of `a` with each range of `b`,
/// in order.
pub open spec fn pairwise_overlaps(a: Seq<(char, char)>, b: Seq<(char, char)>, i: int) -> Seq<(char, char)>
    decreases i,
{
    if i <= 0 {
        Seq::empty()
    } else {
        pairwise_overlaps(a, b, i - 1) + clip_each(a[i - 1], b, b.len() as int)
    }
}

/// The intersection of two range sets (for three-way common-symbol checks):
/// the non-empty overlaps of each range of `a` with each range of `b`, in order.
pub fn intersect_ranges(a: &Ranges, b: &Ranges) -> (out: Ranges)
    ensures
        out@ == pairwise_overlaps(a@, b@, a@.len() as int),
        ranges_wf(out@),
        forall|c: char| #[trigger] in_ranges(out@, c) <==> in_ranges(a@, c) && in_ranges(b@, c),
{
    let mut out: Ranges = Vec::new();
    let mut i: usize = 0;
    while i < a.len()
        invariant
            i <= a.len(),
            out@ == pairwise_overlaps(a@, b@, i as int),
            ranges_wf(out@),
            forall|c: char| #[trigger] in_ranges(out@, c) <==> exists|x: int, y: int|
                0 <= x < i && 0 <= y < b.len() && #[trigger] a@[x].0 <= c && c <= a@[x].1 && #[trigger] b@[y].0 <= c
                    && c <= b@[y].1,
        decreases a.len() - i,
    {
        let (a0, a1) = a[i];
        let mut j: usize = 0;
        while j < b.len()
            invariant
                i < a.len(),
                j <= b.len(),
                a@[i as int] == (a0, a1),
                out@ == pairwise_overlaps(a@, b@, i as int) + clip_each(a@[i as int], b@, j as int),
                ranges_wf(out@),
                forall|c: char| #[trigger] in_ranges(out@, c) <==> (exists|x: int, y: int|
                    0 <= x < i && 0 <= y < b.len() && #[trigger] a@[x].0 <= c && c <= a@[x].1 && #[trigger] b@[y].0
                        <= c && c <= b@[y].1) || (exists|y: int|
                    0 <= y < j && a0 <= c && c <= a1 && #[trigger] b@[y].0 <= c && c <= b@[y].1),
            decreases b.len() - j,
        {
            let (b0, b1) = b[j];
            let lo = if a0 >= b0 { a0 } else { b0 };
            let hi = if a1 <= b1 { a1 } else { b1 };
            let ghost old_out = out@;
            if lo <= hi {
                out.push((lo, hi));
            }
            proof {
                let pw = pairwise_overlaps(a@, b@, i as int);
                let ce = clip_each(a@[i as int], b@, j as int);
                assert(b@[j as int] == (b0, b1));
                assert(clip_each(a@[i as int], b@, j + 1) == ce + clip(a@[i as int], b@[j as int]));
                assert(out@ =~= pw + (ce + clip(a@[i as int], b@[j as int])));
            }
            proof {
                assert forall|c: char| #[trigger] in_ranges(out@, c) <==> (exists|x: int, y: int|
                    0 <= x < i && 0 <= y < b.len() && #[trigger] a@[x].0 <= c && c <= a@[x].1 && #[trigger] b@[y].0
                        <= c && c <= b@[y].1) || (exists|y: int|
                    0 <= y < j + 1 && a0 <= c && c <= a1 && #[trigger] b@[y].0 <= c && c <= b@[y].1) by {
                    if in_ranges(out@, c) {
                        let k = choose|k: int| 0 <= k < out@.len() && out@[k].0 <= c && c <= out@[k].1;
                        if k < old_out.len() {
                            assert(in_ranges(old_out, c));
                        } else {
                            assert(b@[j as int].0 <= c);
                        }
                    }
                    if a0 <= c && c <= a1 && b0 <= c && c <= b1 {
                        assert(out@[out@.len() - 1] == (lo, hi));
                        assert(out@[out@.len() - 1].0 <= c && c <= out@[out@.len() - 1].1);
                        assert(in_ranges(out@, c));
                    }
                    if in_ranges(old_out, c) {
                        let k = choose|k: int| 0 <= k < old_out.len() && old_out[k].0 <= c && c <= old_out[k].1;
                        assert(out@[k] == old_out[k]);
                    }
                }
            }
            j = j + 1;
        }
        assert(out@ =~= pairwise_overlaps(a@, b@, i + 1));
        i = i + 1;
    }
    proof {
        assert forall|c: char| #[trigger] in_ranges(out@, c) <==> in_ranges(a@, c) && in_ranges(b@, c) by {
            if in_ranges(a@, c) && in_ranges(b@, c) {
                let x = choose|x: int| 0 <= x < a@.len() && a@[x].0 <= c && c <= a@[x].1;
                let y = choose|y: int| 0 <= y < b@.len() && b@[y].0 <= c && c <= b@[y].1;
                assert(a@[x].0 <= c && b@[y].0 <= c);
            }
        }
    }
    out
}

/// A copy of a range set.
pub fn copy_ranges(r: &Ranges) -> (c: Ranges)
    ensures
        c@ == r@,
{
    let mut c: Ranges = Vec::new();
    for i in 0..r.len()
        invariant
            c@ == r@.subrange(0, i as int),
    {
        c.push(r[i]);
    }
    assert(r@.subrange(0, r.len() as int) =~= r@);
    c
}

/// Epsilon moves stay among the states of a well-formed automaton.
pub proof fn lemma_eps_reach_in_range(m: NfaModel, s: int, u: int)
    requires
        m.wf(),
        0 <= s < m.len(),
        reaches(eps_graph(m), s, u),
    ensures
        0 <= u < m.len(),
{
    let set = |x: int| 0 <= x < m.len();
    assert forall|x: int, y: int| set(x) && #[trigger] eps_graph(m)(x, y) implies set(y) by {
        let j = choose|j: int| 0 <= j < m.states[x].eps.len() && #[trigger] m.states[x].eps[j] as int == y;
        assert(m.states[x].eps[j] < m.len());
    }
    lemma_reaches_closed(eps_graph(m), set, s, u);
}

/// One scan of the epsilon targets `eps[k..]` of a state taken off the stack:
/// each target not yet visited is marked, pushed and listed.
pub open spec fn dfs_scan(eps: Seq<usize>, k: int, vis: Seq<bool>, stack: Seq<usize>, out: Seq<usize>) -> (
    Seq<bool>,
    Seq<usize>,
    Seq<usize>,
)
    decreases eps.len() - k,
{
    if k < 0 || k >= eps.len() {
        (vis, stack, out)
    } else {
        let t = eps[k];
        if vis[t as int] {
            dfs_scan(eps, k + 1, vis, stack, out)
        } else {
            dfs_scan(eps, k + 1, vis.update(t as int, true), stack.push(t), out.push(t))
        }
    }
}

/// Depth-first search over epsilon edges, for at most `fuel` states taken off
/// the top of the stack: the states listed in discovery order.
pub open spec fn dfs_run(m: NfaModel, vis: Seq<bool>, stack: Seq<usize>, out: Seq<usize>, fuel: nat) -> Seq<usize>
    decreases fuel,
{
    if fuel == 0 || stack.len() == 0 {
        out
    } else {
        let x = stack.last();
        let r = dfs_scan(m.states[x as int].eps, 0, vis, stack.drop_last(), out);
        dfs_run(m, r.0, r.1, r.2, (fuel - 1) as nat)
    }
}

/// The epsilon closure of `s` in depth-first discovery order: `s` first, then
/// each state as the search first meets it, the last state pushed searched
/// first.
pub open spec fn eclose_spec(m: NfaModel, s: int) -> Seq<usize> {
    let n = m.len();
    dfs_run(
        m,
        Seq::new(n as nat, |i: int| false).update(s, true),
        seq![s as usize],
        seq![s as usize],
        (2 * n + 1) as nat,
    )
}

/// Epsilon-closure of a single state, in depth-first discovery order.
pub fn eclose(nfa: &Nfa, s: usize) -> (out: Vec<usize>)
    requires
        nfa.wf(),
        s < nfa.states.len(),
    ensures
        out@ == eclose_spec(nfa@, s as int),
        out.len() > 0,
        out@[0] == s,
        out@.no_duplicates(),
        forall|i: int| 0 <= i < out.len() ==> #[trigger] out@[i] < nfa.states.len(),
        forall|u: int| 0 <= u < nfa.states.len() ==> (out@.contains(u as usize) <==> #[trigger] reaches(eps_graph(nfa@), s as int, u)),
{
    let n = nfa.states.len();
    let ghost m = nfa@;
    let ghost g = eps_graph(m);
    let mut visited = falses(n);
    proof {
        lemma_count_true_all_false(n as nat);
        lemma_count_true_set(visited@, s as int);
        lemma_reaches_refl(g, s as int);
    }
    visited.set(s, true);
    let mut stack: Vec<usize> = Vec::new();
    stack.push(s);
    let mut out: Vec<usize> = Vec::new();
    out.push(s);
    assert(out@[0] == s);
    let ghost mut fuel: nat = (2 * m.len() + 1) as nat;
    assert(stack@ =~= seq![s]);
    assert(out@ =~= seq![s]);
    assert forall|x: int| 0 <= x < n implies (#[trigger] visited@[x] <==> out@.contains(x as usize)) by {
        if visited@[x] {
            assert(out@[0] == x);
        }
    }
    while stack.len() > 0
        invariant
            n == nfa.states.len(),
            m == nfa@,
            m.wf(),
            g == eps_graph(m),
            s < n,
            visited.len() == n,
            out.len() > 0,
            out@[0] == s,
            out@.no_duplicates(),
            stack@.no_duplicates(),
            out.len() == count_true(visited@),
            out.len() <= n,
            forall|i: int| 0 <= i < out.len() ==> #[trigger] out@[i] < n,
            forall|i: int| 0 <= i < stack.len() ==> #[trigger] stack@[i] < n && visited@[stack@[i] as int],
            forall|x: int| 0 <= x < n ==> (#[trigger] visited@[x] <==> out@.contains(x as usize)),
            forall|x: int, y: int|
                0 <= x < n && visited@[x] && !stack@.contains(x as usize) && #[trigger] eps_edge(m, x, y) ==> 0 <= y < n
                    && visited@[y],
            forall|x: int| 0 <= x < n && #[trigger] visited@[x] ==> reaches(g, s as int, x),
            2 * (n - out.len()) + stack.len() <= fuel,
            dfs_run(m, visited@, stack@, out@, fuel) == eclose_spec(m, s as int),
        decreases 2 * (n - out.len()) + stack.len(),
    {
        proof {
            lemma_count_true_bound(visited@);
        }
        let ghost stack_before = stack@;
        let x = stack.pop().unwrap();
        let ghost out_b = out.len();
        let ghost stack_b = stack.len();
        let ghost vis0 = visited@;
        let ghost stack0 = stack@;
        let ghost out0 = out@;
        assert(stack_before.last() == x && stack_before.drop_last() == stack@);
        assert(stack_before == stack@.push(x));
        assert(!stack@.contains(x)) by {
            if stack@.contains(x) {
                let i = choose|i: int| 0 <= i < stack@.len() && stack@[i] == x;
                assert(stack@.push(x).no_duplicates());
            }
        }
        let succs = &nfa.states[x].eps;
        assert(succs@ == m.states[x as int].eps);
        assert forall|z: int, y: int|
            0 <= z < n && z != x && visited@[z] && !stack@.contains(z as usize) && #[trigger] eps_edge(m, z, y) implies 0 <= y
                < n && visited@[y] by {
            if stack_before.contains(z as usize) {
                let i = choose|i: int| 0 <= i < stack_before.len() && stack_before[i] == z as usize;
                if i < stack@.len() {
                    assert(stack@[i] == z as usize);
                }
            }
        }
        for k in 0..succs.len()
            invariant
                n == nfa.states.len(),
                m == nfa@,
                m.wf(),
                g == eps_graph(m),
                s < n,
                x < n,
                visited@[x as int],
                succs@ == m.states[x as int].eps,
                visited.len() == n,
                out.len() <= n,
                out.len() >= out_b,
                2 * (n - out.len()) + stack.len() <= 2 * (n - out_b) + stack_b,
                out.len() > 0,
                out@[0] == s,
                out@.no_duplicates(),
                stack@.no_duplicates(),
                !stack@.contains(x),
                out.len() == count_true(visited@),
                forall|i: int| 0 <= i < out.len() ==> #[trigger] out@[i] < n,
                forall|i: int| 0 <= i < stack.len() ==> #[trigger] stack@[i] < n && visited@[stack@[i] as int],
                forall|z: int| 0 <= z < n ==> (#[trigger] visited@[z] <==> out@.contains(z as usize)),
                forall|z: int, y: int|
                    0 <= z < n && z != x && visited@[z] && !stack@.contains(z as usize) && #[trigger] eps_edge(m, z, y) ==> 0
                        <= y < n && visited@[y],
                forall|j: int| 0 <= j < k ==> #[trigger] visited@[succs@[j] as int],
                forall|z: int| 0 <= z < n && #[trigger] visited@[z] ==> reaches(g, s as int, z),
                dfs_scan(succs@, k as int, visited@, stack@, out@) == dfs_scan(succs@, 0, vis0, stack0, out0),
        {
            let t = succs[k];
            assert(m.states[x as int].eps[k as int] < n);
            assert(dfs_scan(succs@, k as int, visited@, stack@, out@) == if visited@[t as int] {
                dfs_scan(succs@, k + 1, visited@, stack@, out@)
            } else {
                dfs_scan(succs@, k + 1, visited@.update(t as int, true), stack@.push(t), out@.push(t))
            });
            if !visited[t] {
                let ghost vb = visited@;
                let ghost ob = out@;
                let ghost sb = stack@;
                proof {
                    lemma_count_true_set(visited@, t as int);
                    assert(eps_edge(m, x as int, t as int));
                    lemma_reaches_step(g, s as int, x as int, t as int);
                    assert(!ob.contains(t));
                }
                visited.set(t, true);
                out.push(t);
                stack.push(t);
                proof {
                    lemma_count_true_bound(visited@);
                    assert(out@.no_duplicates()) by {
                        assert forall|i: int, j: int| 0 <= i < out.len() && 0 <= j < out.len() && i != j implies out@[i] != out@[j] by {
                            if i == out.len() - 1 && j < ob.len() {
                                assert(ob.contains(ob[j]));
                            } else if j == out.len() - 1 && i < ob.len() {
                                assert(ob.contains(ob[i]));
                            }
                        }
                    }
                    assert(stack@.no_duplicates()) by {
                        assert forall|i: int, j: int| 0 <= i < stack.len() && 0 <= j < stack.len() && i != j implies stack@[i] != stack@[j] by {
                            if i == stack.len() - 1 && j < sb.len() {
                                assert(visited@[sb[j] as int]);
                                assert(vb[sb[j] as int]);
                            } else if j == stack.len() - 1 && i < sb.len() {
                                assert(vb[sb[i] as int]);
                            }
                        }
                    }
                    assert(!stack@.contains(x)) by {
                        if stack@.contains(x) {
                            let i = choose|i: int| 0 <= i < stack@.len() && stack@[i] == x;
                            if i < sb.len() {
                                assert(sb.contains(x));
                            }
                        }
                    }
                    assert forall|z: int| 0 <= z < n implies (#[trigger] visited@[z] <==> out@.contains(z as usize)) by {
                        if z != t {
                            if vb[z] {
                                let i = choose|i: int| 0 <= i < ob.len() && ob[i] == z as usize;
                                assert(out@[i] == z as usize);
                            }
                            if out@.contains(z as usize) {
                                let i = choose|i: int| 0 <= i < out@.len() && out@[i] == z as usize;
                                assert(ob.contains(z as usize));
                            }
                        } else {
                            assert(out@[out.len() - 1] == t);
                        }
                    }
                    assert forall|z: int, y: int|
                        0 <= z < n && z != x && visited@[z] && !stack@.contains(z as usize) && #[trigger] eps_edge(m, z, y) implies 0
                            <= y < n && visited@[y] by {
                        if z != t {
                            assert(vb[z]);
                            if sb.contains(z as usize) {
                                let i = choose|i: int| 0 <= i < sb.len() && sb[i] == z as usize;
                                assert(stack@[i] == z as usize);
                            }
                        } else {
                            assert(stack@[stack.len() - 1] == t);
                        }
                    }
                }
            }
        }
        proof {
            assert(dfs_scan(succs@, succs@.len() as int, visited@, stack@, out@) == (visited@, stack@, out@));
            assert(dfs_run(m, vis0, stack_before, out0, fuel) == dfs_run(m, visited@, stack@, out@, (fuel - 1) as nat));
            fuel = (fuel - 1) as nat;
        }
        proof {
            lemma_count_true_bound(visited@);
            assert forall|z: int, y: int|
                0 <= z < n && visited@[z] && !stack@.contains(z as usize) && #[trigger] eps_edge(m, z, y) implies 0 <= y < n
                    && visited@[y] by {
                if z == x {
                    let j = choose|j: int| 0 <= j < m.states[x as int].eps.len() && #[trigger] m.states[x as int].eps[j] as int == y;
                    assert(visited@[succs@[j] as int]);
                }
            }
        }
    }
    proof {
        let set = |z: int| 0 <= z < n && visited@[z];
        assert forall|z: int, y: int| set(z) && #[trigger] g(z, y) implies set(y) by {
            assert(!stack@.contains(z as usize));
        }
        assert forall|u: int| 0 <= u < n implies (out@.contains(u as usize) <==> #[trigger] reaches(g, s as int, u)) by {
            assert(visited@[u] == out@.contains(u as usize));
            if reaches(g, s as int, u) {
                lemma_reaches_closed(g, set, s as int, u);
            }
        }
    }
    out
}

pub open spec fn moves_view(mv: Seq<(Ranges, usize)>) -> Seq<(Seq<(char, char)>, usize)> {
    mv.map_values(|mm: (Ranges, usize)| move_view(mm))
}

/// The labeled moves of the listed states, one state after the other.
pub open spec fn flat_moves(m: NfaModel, us: Seq<usize>) -> Seq<(Seq<(char, char)>, usize)>
    decreases us.len(),
{
    if us.len() == 0 {
        seq![]
    } else {
        flat_moves(m, us.drop_last()) + m.states[us.last() as int].moves
    }
}

proof fn lemma_flat_moves_member(m: NfaModel, us: Seq<usize>, x: (Seq<(char, char)>, usize))
    ensures
        flat_moves(m, us).contains(x) <==> exists|a: int, k: int|
            #![trigger m.states[us[a] as int].moves[k]]
            0 <= a < us.len() && 0 <= k < m.states[us[a] as int].moves.len() && m.states[us[a] as int].moves[k] == x,
    decreases us.len(),
{
    if us.len() > 0 {
        let pre = us.drop_last();
        lemma_flat_moves_member(m, pre, x);
        let f0 = flat_moves(m, pre);
        let last = m.states[us.last() as int].moves;
        assert(flat_moves(m, us) == f0 + last);
        if flat_moves(m, us).contains(x) {
            let i = choose|i: int| 0 <= i < (f0 + last).len() && (f0 + last)[i] == x;
            if i < f0.len() {
                assert(f0.contains(x));
                let (a, k) = choose|a: int, k: int|
                    #![trigger m.states[pre[a] as int].moves[k]]
                    0 <= a < pre.len() && 0 <= k < m.states[pre[a] as int].moves.len() && m.states[pre[a] as int].moves[k] == x;
                assert(us[a] == pre[a]);
                assert(m.states[us[a] as int].moves[k] == x);
            } else {
                let k = i - f0.len();
                assert(m.states[us[us.len() - 1] as int].moves[k] == x);
            }
        }
        if exists|a: int, k: int|
            #![trigger m.states[us[a] as int].moves[k]]
            0 <= a < us.len() && 0 <= k < m.states[us[a] as int].moves.len() && m.states[us[a] as int].moves[k] == x {
            let (a, k) = choose|a: int, k: int|
                #![trigger m.states[us[a] as int].moves[k]]
                0 <= a < us.len() && 0 <= k < m.states[us[a] as int].moves.len() && m.states[us[a] as int].moves[k] == x;
            if a < us.len() - 1 {
                assert(pre[a] == us[a]);
                assert(m.states[pre[a] as int].moves[k] == x);
                let i = choose|i: int| 0 <= i < f0.len() && f0[i] == x;
                assert((f0 + last)[i] == x);
            } else {
                assert((f0 + last)[f0.len() + k] == x);
            }
        }
    }
}

/// The number of labeled moves of the first `k` states.
pub open spec fn moves_upto(st: Seq<StateModel>, k: int) -> nat
    decreases k,
{
    if k <= 0 {
        0
    } else {
        moves_upto(st, k - 1) + st[k - 1].moves.len()
    }
}

/// The number of labeled moves of the automaton.
pub open spec fn total_moves(m: NfaModel) -> nat {
    moves_upto(m.states, m.len())
}

/// The number of labeled moves of the listed states.
pub open spec fn moves_of_list(m: NfaModel, us: Seq<usize>) -> nat
    decreases us.len(),
{
    if us.len() == 0 {
        0
    } else {
        moves_of_list(m, us.drop_last()) + m.states[us.last() as int].moves.len()
    }
}

proof fn lemma_flat_moves_len(m: NfaModel, us: Seq<usize>)
    ensures
        flat_moves(m, us).len() == moves_of_list(m, us),
    decreases us.len(),
{
    if us.len() > 0 {
        lemma_flat_moves_len(m, us.drop_last());
    }
}

proof fn lemma_moves_of_list_remove(m: NfaModel, us: Seq<usize>, i: int)
    requires
        0 <= i < us.len(),
    ensures
        moves_of_list(m, us) == moves_of_list(m, us.remove(i)) + m.states[us[i] as int].moves.len(),
    decreases us.len(),
{
    if i < us.len() - 1 {
        let r = us.remove(i);
        assert(r.drop_last() =~= us.drop_last().remove(i));
        assert(r.last() == us.last());
        lemma_moves_of_list_remove(m, us.drop_last(), i);
    } else {
        assert(us.remove(i) =~= us.drop_last());
    }
}

/// Distinct states below `k` have at most as many moves as the first `k` states.
proof fn lemma_moves_of_distinct(m: NfaModel, us: Seq<usize>, k: int)
    requires
        us.no_duplicates(),
        k <= usize::MAX,
        forall|a: int| 0 <= a < us.len() ==> #[trigger] us[a] < k,
    ensures
        moves_of_list(m, us) <= moves_upto(m.states, k),
    decreases k,
{
    if k <= 0 {
        if us.len() > 0 {
            assert(us[0] < k);
        }
    } else if us.contains((k - 1) as usize) {
        let i = choose|i: int| 0 <= i < us.len() && us[i] == (k - 1) as usize;
        let r = us.remove(i);
        lemma_moves_of_list_remove(m, us, i);
        assert forall|a: int| 0 <= a < r.len() implies #[trigger] r[a] < k - 1 by {
            if a < i {
                assert(r[a] == us[a]);
            } else {
                assert(r[a] == us[a + 1]);
            }
        }
        assert(r.no_duplicates()) by {
            assert forall|a: int, b: int| 0 <= a < r.len() && 0 <= b < r.len() && a != b implies r[a] != r[b] by {
                let ia = if a < i { a } else { a + 1 };
                let ib = if b < i { b } else { b + 1 };
                assert(r[a] == us[ia] && r[b] == us[ib]);
            }
        }
        lemma_moves_of_distinct(m, r, k - 1);
    } else {
        assert forall|a: int| 0 <= a < us.len() implies #[trigger] us[a] < k - 1 by {
            assert(us[a] != (k - 1) as usize);
        }
        lemma_moves_of_distinct(m, us, k - 1);
    }
}

/// Appends copies of `moves` to `mv`.
fn push_moves(mv: &mut Vec<(Ranges, usize)>, moves: &Vec<(Ranges, usize)>)
    ensures
        moves_view(final(mv)@) == moves_view(old(mv)@) + moves_view(moves@),
{
    let ghost mv0 = mv@;
    for k in 0..moves.len()
        invariant
            moves_view(mv@) == moves_view(mv0) + moves_view(moves@.take(k as int)),
    {
        let (r, v) = &moves[k];
        let rc = copy_ranges(r);
        let ghost before = mv@;
        mv.push((rc, *v));
        assert(moves_view(mv@) =~= moves_view(before).push(move_view(moves@[k as int])));
        assert(moves_view(moves@.take(k + 1)) =~= moves_view(moves@.take(k as int)).push(move_view(moves@[k as int])));
    }
    assert(moves@.take(moves.len() as int) =~= moves@);
}

/// The epsilon-free moves of one state: the labeled moves of the states of its
/// epsilon closure, in closure order.
/// `mv` is, in order, the labeled moves of each state of the epsilon closure of
/// `s`, one state after the other, the closure in depth-first discovery order.
pub open spec fn epsfree_listing(m: NfaModel, s: int, mv: Seq<(Ranges, usize)>) -> bool {
    moves_view(mv) == flat_moves(m, eclose_spec(m, s))
}

/// The exact table of epsilon-free moves: for each state, the labeled moves
/// of its epsilon closure in depth-first order.
pub open spec fn ef_spec(m: NfaModel) -> Seq<Seq<(Seq<(char, char)>, usize)>> {
    Seq::new(m.len() as nat, |s: int| flat_moves(m, eclose_spec(m, s)))
}

fn epsfree_of(nfa: &Nfa, s: usize) -> (mv: Vec<(Ranges, usize)>)
    requires
        nfa.wf(),
        s < nfa.states.len(),
    ensures
        epsfree_listing(nfa@, s as int, mv@),
        forall|e: int| 0 <= e < mv.len() ==> #[trigger] mv@[e].1 < nfa.states.len() && ranges_wf(mv@[e].0@),
        forall|r: Seq<(char, char)>, t: int|
            #[trigger] moves_view(mv@).contains((r, t as usize)) <==> ef_has(nfa@, s as int, r, t),
        mv.len() <= total_moves(nfa@),
{
    let n = nfa.states.len();
    let ghost m = nfa@;
    let cl = eclose(nfa, s);
    let mut mv: Vec<(Ranges, usize)> = Vec::new();
    let mut i: usize = 0;
    assert(moves_view(mv@) =~= flat_moves(m, cl@.take(0)));
    while i < cl.len()
        invariant
            n == nfa.states.len(),
            m == nfa@,
            m.wf(),
            i <= cl.len(),
            forall|a: int| 0 <= a < cl.len() ==> #[trigger] cl@[a] < n,
            moves_view(mv@) == flat_moves(m, cl@.take(i as int)),
        decreases cl.len() - i,
    {
        let u = cl[i];
        let moves = &nfa.states[u].moves;
        assert(moves_view(moves@) == m.states[u as int].moves);
        push_moves(&mut mv, moves);
        assert(cl@.take(i + 1).drop_last() =~= cl@.take(i as int));
        i = i + 1;
    }
    assert(cl@.take(cl.len() as int) =~= cl@);
    proof {
        lemma_flat_moves_len(m, cl@);
        lemma_moves_of_distinct(m, cl@, n as int);
        assert(moves_view(mv@).len() == mv@.len());
        assert forall|e: int| 0 <= e < mv.len() implies #[trigger] mv@[e].1 < n && ranges_wf(mv@[e].0@) by {
            let x = moves_view(mv@)[e];
            assert(moves_view(mv@).contains(x));
            lemma_flat_moves_member(m, cl@, x);
            let (a, k) = choose|a: int, k: int|
                #![trigger m.states[cl@[a] as int].moves[k]]
                0 <= a < cl@.len() && 0 <= k < m.states[cl@[a] as int].moves.len() && m.states[cl@[a] as int].moves[k] == x;
            assert(m.states[cl@[a] as int].moves[k].1 < n);
            assert(ranges_wf(m.states[cl@[a] as int].moves[k].0));
        }
        assert forall|r: Seq<(char, char)>, t: int|
            #[trigger] moves_view(mv@).contains((r, t as usize)) <==> ef_has(m, s as int, r, t) by {
            lemma_flat_moves_member(m, cl@, (r, t as usize));
            if moves_view(mv@).contains((r, t as usize)) {
                let (a, k) = choose|a: int, k: int|
                    #![trigger m.states[cl@[a] as int].moves[k]]
                    0 <= a < cl@.len() && 0 <= k < m.states[cl@[a] as int].moves.len() && m.states[cl@[a] as int].moves[k] == (r, t as usize);
                let uu = cl@[a] as int;
                assert(cl@.contains(cl@[a]));
                assert(reaches(eps_graph(m), s as int, uu));
            }
            if ef_has(m, s as int, r, t) {
                let (uu, k) = choose|uu: int, k: int|
                    #![trigger m.states[uu].moves[k]]
                    reaches(eps_graph(m), s as int, uu) && 0 <= uu < m.len() && 0 <= k < m.states[uu].moves.len()
                        && m.states[uu].moves[k] == (r, t as usize);
                assert(cl@.contains(uu as usize));
                let a = choose|a: int| 0 <= a < cl.len() && cl@[a] == uu as usize;
                assert(m.states[cl@[a] as int].moves[k] == (r, t as usize));
            }
        }
    }
    mv
}

/// Epsilon-free labeled moves per state (source-side epsilons folded in).
pub fn epsfree_moves(nfa: &Nfa) -> (ef: Vec<Vec<(Ranges, usize)>>)
    requires
        nfa.wf(),
    ensures
        is_epsfree_table(nfa@, ef@),
        forall|s: int| 0 <= s < ef.len() ==> #[trigger] epsfree_listing(nfa@, s, ef@[s]@),
        forall|s: int, i: int| 0 <= s < ef.len() && 0 <= i < ef@[s].len() ==> ranges_wf(#[trigger] ef@[s]@[i].0@),
        forall|s: int| 0 <= s < ef.len() ==> #[trigger] ef@[s].len() <= total_moves(nfa@),
{
    let n = nfa.states.len();
    let ghost m = nfa@;
    let mut ef: Vec<Vec<(Ranges, usize)>> = Vec::new();
    for s in 0..n
        invariant
            n == nfa.states.len(),
            m == nfa@,
            m.wf(),
            ef.len() == s,
            forall|x: int| 0 <= x < ef.len() ==> #[trigger] epsfree_listing(m, x, ef@[x]@),
            forall|x: int| 0 <= x < ef.len() ==> #[trigger] ef@[x].len() <= total_moves(m),
            forall|x: int, i: int| 0 <= x < ef.len() && 0 <= i < ef@[x].len() ==> #[trigger] ef@[x]@[i].1 < n,
            forall|x: int, i: int| 0 <= x < ef.len() && 0 <= i < ef@[x].len() ==> ranges_wf(#[trigger] ef@[x]@[i].0@),
            forall|x: int, r: Seq<(char, char)>, t: int|
                0 <= x < ef.len() ==> (#[trigger] ef_lists(ef@, x, r, t) <==> ef_has(m, x, r, t)),
    {
        let mv = epsfree_of(nfa, s);
        let ghost ef0 = ef@;
        ef.push(mv);
        assert(ef@[s as int] == mv);
        assert forall|x: int, i: int| 0 <= x < ef.len() && 0 <= i < ef@[x].len() implies ranges_wf(#[trigger] ef@[x]@[i].0@) by {
            if x < ef0.len() {
                assert(ef@[x] == ef0[x]);
            } else {
                assert(x == s);
                assert(ef@[x]@[i] == mv@[i]);
                assert(mv@[i].1 < nfa.states.len());
                assert(ranges_wf(mv@[i].0@));
            }
        }
        proof {
            assert forall|x: int| 0 <= x < ef.len() implies #[trigger] epsfree_listing(m, x, ef@[x]@) by {
                if x < ef0.len() {
                    assert(ef@[x] == ef0[x]);
                }
            }
            assert forall|x: int, r: Seq<(char, char)>, t: int|
                0 <= x < ef.len() implies (#[trigger] ef_lists(ef@, x, r, t) <==> ef_has(m, x, r, t)) by {
                assert(ef@[x] == if x < ef0.len() { ef0[x] } else { mv });
                if x < ef0.len() {
                    assert(ef_lists(ef@, x, r, t) == ef_lists(ef0, x, r, t));
                }
            }
        }
    }
    ef
}

/// Adjacency lists of all transitions: for each state, its epsilon targets
/// followed by its move targets.
fn transition_lists(nfa: &Nfa) -> (adj: Vec<Vec<usize>>)
    requires
        nfa.wf(),
    ensures
        adj.len() == nfa.states.len(),
        adj_wf(adj@),
        forall|a: int, b: int| #[trigger] adj_edge(adj@, a, b) <==> nfa_edge(nfa@, a, b),
{
    let n = nfa.states.len();
    let ghost m = nfa@;
    let mut adj: Vec<Vec<usize>> = Vec::new();
    for s in 0..n
        invariant
            n == nfa.states.len(),
            m == nfa@,
            m.wf(),
            adj.len() == s,
            forall|x: int, j: int| 0 <= x < adj.len() && 0 <= j < adj@[x].len() ==> #[trigger] adj@[x]@[j] < n,
            forall|a: int, b: int| 0 <= a < s ==> (#[trigger] adj_edge(adj@, a, b) <==> nfa_edge(m, a, b)),
    {
        let st = &nfa.states[s];
        assert(st@ == m.states[s as int]);
        let mut out: Vec<usize> = Vec::new();
        for j in 0..st.eps.len()
            invariant
                n == nfa.states.len(),
                m.wf(),
                s < n,
                st@ == m.states[s as int],
                out@ == st.eps@.take(j as int),
        {
            out.push(st.eps[j]);
            assert(st.eps@.take(j + 1) =~= st.eps@.take(j as int).push(st.eps@[j as int]));
        }
        assert(st.eps@.take(st.eps.len() as int) =~= st.eps@);
        let ghost ne = out.len();
        for k in 0..st.moves.len()
            invariant
                n == nfa.states.len(),
                m.wf(),
                s < n,
                st@ == m.states[s as int],
                out@.len() == ne + k,
                ne == st.eps@.len(),
                out@.take(ne as int) == st.eps@,
                forall|i: int| 0 <= i < k ==> #[trigger] out@[ne + i] == st.moves@[i].1,
        {
            let ghost o0 = out@;
            out.push(st.moves[k].1);
            assert(out@.take(ne as int) =~= o0.take(ne as int));
        }
        proof {
            assert forall|i: int| 0 <= i < st.moves.len() implies #[trigger] m.states[s as int].moves[i].1 == st.moves@[i].1 by {
                assert(m.states[s as int].moves[i] == move_view(st.moves@[i]));
            }
            assert forall|b: int| #[trigger] adj_edge(adj@.push(out), s as int, b) <==> nfa_edge(m, s as int, b) by {
                let a2 = adj@.push(out);
                assert(a2[s as int] == out);
                if adj_edge(a2, s as int, b) {
                    let j = choose|j: int| 0 <= j < out@.len() && #[trigger] out@[j] as int == b;
                    if j < ne {
                        assert(out@.take(ne as int)[j] == st.eps@[j]);
                        assert(m.states[s as int].eps[j] as int == b);
                    } else {
                        assert(out@[ne + (j - ne)] == st.moves@[j - ne].1);
                        assert(m.states[s as int].moves[j - ne].1 as int == b);
                    }
                }
                if eps_edge(m, s as int, b) {
                    let j = choose|j: int| 0 <= j < m.states[s as int].eps.len() && #[trigger] m.states[s as int].eps[j] as int == b;
                    assert(out@.take(ne as int)[j] == out@[j]);
                    assert(out@[j] as int == b);
                }
                if move_edge(m, s as int, b) {
                    let j = choose|j: int| 0 <= j < m.states[s as int].moves.len() && #[trigger] m.states[s as int].moves[j].1 as int == b;
                    assert(out@[ne + j] as int == b);
                }
            }
            assert forall|i: int| 0 <= i < out@.len() implies #[trigger] out@[i] < n by {
                if i < ne {
                    assert(out@.take(ne as int)[i] == st.eps@[i]);
                    assert(m.states[s as int].eps[i] < n);
                } else {
                    assert(out@[ne + (i - ne)] == st.moves@[i - ne].1);
                    assert(m.states[s as int].moves[i - ne].1 < n);
                }
            }
        }
        let ghost a0 = adj@;
        adj.push(out);
        proof {
            assert forall|a: int, b: int| 0 <= a < s + 1 implies (#[trigger] adj_edge(adj@, a, b) <==> nfa_edge(m, a, b)) by {
                if a < s {
                    assert(adj@[a] == a0[a]);
                    assert(adj_edge(adj@, a, b) == adj_edge(a0, a, b));
                }
            }
            assert forall|x: int, j: int| 0 <= x < adj.len() && 0 <= j < adj@[x].len() implies #[trigger] adj@[x]@[j] < n by {
                if x < s {
                    assert(adj@[x] == a0[x]);
                }
            }
        }
    }
    proof {
        assert forall|a: int, b: int| #[trigger] adj_edge(adj@, a, b) <==> nfa_edge(m, a, b) by {
            if !(0 <= a < n) {
                assert(!nfa_edge(m, a, b));
            }
        }
    }
    adj
}

/// States reachable from `from` over epsilon and labeled transitions.
pub fn reach_forward(nfa: &Nfa, from: usize) -> (seen: Vec<bool>)
    requires
        nfa.wf(),
        from < nfa.states.len(),
    ensures
        seen.len() == nfa.states.len(),
        forall|x: int| 0 <= x < seen.len() ==> (#[trigger] seen@[x] <==> reaches(nfa_graph(nfa@), from as int, x)),
{
    let adj = transition_lists(nfa);
    let mut budget: usize = usize::MAX;
    let seen = reach(&adj, from, &mut budget);
    proof {
        assert forall|x: int, y: int| #[trigger] adj_graph(adj@)(x, y) implies nfa_graph(nfa@)(x, y) by {}
        assert forall|x: int, y: int| #[trigger] nfa_graph(nfa@)(x, y) implies adj_graph(adj@)(x, y) by {}
        assert forall|x: int| 0 <= x < seen.len() implies (#[trigger] seen@[x] <==> reaches(nfa_graph(nfa@), from as int, x)) by {
            if seen@[x] {
                lemma_reaches_mono(adj_graph(adj@), nfa_graph(nfa@), from as int, x);
            }
            if reaches(nfa_graph(nfa@), from as int, x) {
                lemma_reaches_mono(nfa_graph(nfa@), adj_graph(adj@), from as int, x);
            }
        }
    }
    seen
}

/// States that can reach `to` over epsilon and labeled transitions.
pub fn reach_backward(nfa: &Nfa, to: usize) -> (seen: Vec<bool>)
    requires
        nfa.wf(),
        to < nfa.states.len(),
    ensures
        seen.len() == nfa.states.len(),
        forall|x: int| 0 <= x < seen.len() ==> (#[trigger] seen@[x] <==> reaches(nfa_graph(nfa@), x, to as int)),
{
    let adj = transition_lists(nfa);
    let rev = reverse_adj(&adj);
    let mut budget: usize = usize::MAX;
    let seen = reach(&rev, to, &mut budget);
    proof {
        assert forall|x: int, y: int| #[trigger] adj_graph(rev@)(x, y) implies nfa_graph(nfa@)(y, x) by {}
        assert forall|x: int, y: int| #[trigger] nfa_graph(nfa@)(x, y) implies adj_graph(rev@)(y, x) by {
            assert(nfa_edge(nfa@, x, y));
            assert(adj_edge(adj@, x, y));
            assert(adj_edge(rev@, y, x));
        }
        assert forall|x: int| 0 <= x < seen.len() implies (#[trigger] seen@[x] <==> reaches(nfa_graph(nfa@), x, to as int)) by {
            if seen@[x] {
                lemma_reaches_reverse(nfa_graph(nfa@), adj_graph(rev@), to as int, x);
            }
            if reaches(nfa_graph(nfa@), x, to as int) {
                lemma_reaches_reverse(adj_graph(rev@), nfa_graph(nfa@), x, to as int);
            }
        }
    }
    seen
}

// --- Thompson construction ---

pub open spec fn empty_state() -> StateModel {
    StateModel { eps: seq![], moves: seq![] }
}

/// `st` with the epsilon transition `a -> b` added.
pub open spec fn add_eps_m(st: Seq<StateModel>, a: int, b: int) -> Seq<StateModel> {
    st.update(a, StateModel { eps: st[a].eps.push(b as usize), moves: st[a].moves })
}

/// `st` with the labeled transition `a --r--> b` added.
pub open spec fn add_move_m(st: Seq<StateModel>, a: int, r: Seq<(char, char)>, b: int) -> Seq<StateModel> {
    st.update(a, StateModel { eps: st[a].eps, moves: st[a].moves.push((r, b as usize)) })
}

/// The characters of a literal: its bytes decoded as UTF-8 where they are valid
/// UTF-8, else each byte read as the character of the same value.
pub open spec fn literal_chars(bytes: Seq<u8>) -> Seq<char> {
    if vstd::utf8::valid_utf8(bytes) {
        vstd::utf8::decode_utf8(bytes)
    } else {
        bytes.map_values(|b: u8| b as char)
    }
}

/// A chain of single-character transitions for `chars[i..]`, from `cur`.
pub open spec fn lit_chain(chars: Seq<char>, i: int, st: Seq<StateModel>, cur: int) -> (Seq<StateModel>, int)
    decreases chars.len() - i,
{
    if i >= chars.len() {
        (st, cur)
    } else {
        let next = st.len() as int;
        let st1 = add_move_m(st.push(empty_state()), cur, seq![(chars[i], chars[i])], next);
        lit_chain(chars, i + 1, st1, next)
    }
}

/// The Thompson fragment for `node`, appended to the states `st`: the new
/// states and the fragment's `(start, accept)`.
pub open spec fn frag(node: Node, st: Seq<StateModel>) -> (Seq<StateModel>, int, int)
    decreases node, 0int,
{
    let n = st.len() as int;
    match node {
        Node::Empty => (st.push(empty_state()), n, n),
        Node::Look => (st.push(empty_state()), n, n),
        Node::Literal(bytes) => {
            let (st1, a) = lit_chain(literal_chars(bytes@), 0, st.push(empty_state()), n);
            (st1, n, a)
        },
        Node::Group(sub) => frag(*sub, st),
        Node::Concat(subs) => {
            if subs.len() == 0 {
                (st.push(empty_state()), n, n)
            } else {
                let f = frag(subs@[0], st);
                let (st2, a2) = concat_rest(subs@, 1, f.0, f.2);
                (st2, f.1, a2)
            }
        },
        Node::Class(r) => {
            let st1 = st.push(empty_state()).push(empty_state());
            (add_move_m(st1, n, r@, n + 1), n, n + 1)
        },
        Node::Alternation(subs) => {
            let st1 = st.push(empty_state()).push(empty_state());
            (alt_rest(subs@, 0, st1, n, n + 1), n, n + 1)
        },
        Node::Repeat { min, max, sub } => {
            let (st1, cur) = rep_seq(*sub, min as int, st.push(empty_state()), n);
            let acc = st1.len() as int;
            let st2 = st1.push(empty_state());
            match max {
                None => {
                    let f = frag(*sub, st2);
                    let st3 = add_eps_m(add_eps_m(add_eps_m(add_eps_m(f.0, cur, f.1), cur, acc), f.2, f.1), f.2, acc);
                    (st3, n, acc)
                },
                Some(mx) => {
                    let (st3, c2) = rep_opt(*sub, mx - min, add_eps_m(st2, cur, acc), cur, acc);
                    (st3, n, acc)
                },
            }
        },
    }
}

/// Concatenation: the fragments of `subs[i..]` chained after `acc`.
pub open spec fn concat_rest(subs: Seq<Node>, i: int, st: Seq<StateModel>, acc: int) -> (Seq<StateModel>, int)
    decreases subs, subs.len() - i,
{
    if i < 0 || i >= subs.len() {
        (st, acc)
    } else {
        let f = frag(subs[i], st);
        concat_rest(subs, i + 1, add_eps_m(f.0, acc, f.1), f.2)
    }
}

/// Alternation: the fragments of `subs[i..]` placed between `start` and `accept`.
pub open spec fn alt_rest(subs: Seq<Node>, i: int, st: Seq<StateModel>, start: int, accept: int) -> Seq<StateModel>
    decreases subs, subs.len() - i,
{
    if i < 0 || i >= subs.len() {
        st
    } else {
        let f = frag(subs[i], st);
        alt_rest(subs, i + 1, add_eps_m(add_eps_m(f.0, start, f.1), f.2, accept), start, accept)
    }
}

/// `k` mandatory copies of `sub` in sequence after `cur`.
pub open spec fn rep_seq(sub: Node, k: int, st: Seq<StateModel>, cur: int) -> (Seq<StateModel>, int)
    decreases sub, k + 1,
{
    if k <= 0 {
        (st, cur)
    } else {
        let f = frag(sub, st);
        rep_seq(sub, k - 1, add_eps_m(f.0, cur, f.1), f.2)
    }
}

/// `k` skippable copies of `sub` after `cur`, each of which may exit to `acc`.
pub open spec fn rep_opt(sub: Node, k: int, st: Seq<StateModel>, cur: int, acc: int) -> (Seq<StateModel>, int)
    decreases sub, k + 1,
{
    if k <= 0 {
        (st, cur)
    } else {
        let f = frag(sub, st);
        rep_opt(sub, k - 1, add_eps_m(add_eps_m(f.0, cur, f.1), f.2, acc), f.2, acc)
    }
}

/// The Thompson NFA of `node`.
pub open spec fn thompson(node: Node) -> NfaModel {
    let f = frag(node, seq![]);
    NfaModel { states: f.0, start: f.1, accept: f.2 }
}

// --- Size estimate ---

/// The number of copies of a repetition's body that the construction lays out.
pub open spec fn rep_copies(min: u32, max: Option<u32>) -> int {
    match max {
        Some(m) => m as int,
        None => min as int + 1,
    }
}

/// Upper-bound estimate of the state count of the Thompson NFA of `node`.
pub open spec fn est(node: Node) -> nat
    decreases node, 0int,
{
    match node {
        Node::Empty => 1,
        Node::Look => 1,
        Node::Literal(bytes) => bytes@.len() + 1,
        Node::Class(_) => 2,
        Node::Group(sub) => est(*sub),
        Node::Concat(subs) => 1 + est_from(subs@, 0),
        Node::Alternation(subs) => 2 + est_from(subs@, 0),
        Node::Repeat { min, max, sub } => {
            let c = rep_copies(min, max);
            let c1: nat = if c < 1 { 1 } else { c as nat };
            est(*sub) * c1 + 2
        },
    }
}

/// The estimates of `subs[i..]`, summed.
pub open spec fn est_from(subs: Seq<Node>, i: int) -> nat
    decreases subs, subs.len() - i,
{
    if i < 0 || i >= subs.len() {
        0
    } else {
        est(subs[i]) + est_from(subs, i + 1)
    }
}

// --- Shape of the construction ---

/// `b` keeps every state of `a` with its transitions, in order, possibly with
/// more states and more transitions after them.
pub open spec fn extends(a: Seq<StateModel>, b: Seq<StateModel>) -> bool {
    &&& a.len() <= b.len()
    &&& forall|x: int| 0 <= x < a.len() ==> #[trigger] b[x].eps.len() >= a[x].eps.len()
    &&& forall|x: int| 0 <= x < a.len() ==> #[trigger] b[x].moves.len() >= a[x].moves.len()
    &&& forall|x: int, j: int| 0 <= x < a.len() && 0 <= j < a[x].eps.len() ==> #[trigger] b[x].eps[j] == a[x].eps[j]
    &&& forall|x: int, j: int| 0 <= x < a.len() && 0 <= j < a[x].moves.len() ==> #[trigger] b[x].moves[j] == a[x].moves[j]
}

pub proof fn lemma_extends_trans(a: Seq<StateModel>, b: Seq<StateModel>, c: Seq<StateModel>)
    requires
        extends(a, b),
        extends(b, c),
    ensures
        extends(a, c),
{
    assert forall|x: int, j: int| 0 <= x < a.len() && 0 <= j < a[x].eps.len() implies #[trigger] c[x].eps[j] == a[x].eps[j] by {
        assert(c[x].eps[j] == b[x].eps[j]);
    }
    assert forall|x: int, j: int| 0 <= x < a.len() && 0 <= j < a[x].moves.len() implies #[trigger] c[x].moves[j] == a[x].moves[j] by {
        assert(c[x].moves[j] == b[x].moves[j]);
    }
}

pub proof fn lemma_extends_steps(st: Seq<StateModel>, a: int, b: int, r: Seq<(char, char)>)
    ensures
        extends(st, st),
        extends(st, st.push(empty_state())),
        0 <= a < st.len() ==> extends(st, add_eps_m(st, a, b)),
        0 <= a < st.len() ==> extends(st, add_move_m(st, a, r, b)),
{
    let p = st.push(empty_state());
    assert forall|x: int| 0 <= x < st.len() implies #[trigger] p[x] == st[x] by {}
    if 0 <= a < st.len() {
        let s1 = add_eps_m(st, a, b);
        assert forall|x: int, j: int| 0 <= x < st.len() && 0 <= j < st[x].eps.len() implies #[trigger] s1[x].eps[j] == st[x].eps[j] by {
            if x == a {
                assert(s1[x].eps == st[x].eps.push(b as usize));
            }
        }
        let s2 = add_move_m(st, a, r, b);
        assert forall|x: int, j: int| 0 <= x < st.len() && 0 <= j < st[x].moves.len() implies #[trigger] s2[x].moves[j] == st[x].moves[j] by {
            if x == a {
                assert(s2[x].moves == st[x].moves.push((r, b as usize)));
            }
        }
    }
}

proof fn lemma_push_ok(st: Seq<StateModel>)
    ensures
        targets_ok(st) ==> targets_ok(st.push(empty_state())),
        moves_wf(st) ==> moves_wf(st.push(empty_state())),
{
    let st1 = st.push(empty_state());
    if targets_ok(st) {
        assert forall|x: int, j: int| 0 <= x < st1.len() && 0 <= j < st1[x].eps.len() implies #[trigger] st1[x].eps[j] < st1.len() by {
            assert(x < st.len());
            assert(st1[x] == st[x]);
        }
        assert forall|x: int, j: int| 0 <= x < st1.len() && 0 <= j < st1[x].moves.len() implies #[trigger] st1[x].moves[j].1 < st1.len() by {
            assert(x < st.len());
            assert(st1[x] == st[x]);
        }
    }
    if moves_wf(st) {
        assert forall|x: int, j: int| 0 <= x < st1.len() && 0 <= j < st1[x].moves.len() implies ranges_wf(#[trigger] st1[x].moves[j].0) by {
            assert(x < st.len());
            assert(st1[x] == st[x]);
        }
    }
}

proof fn lemma_add_eps_ok(st: Seq<StateModel>, a: int, b: int)
    requires
        0 <= a < st.len(),
        0 <= b < st.len(),
    ensures
        add_eps_m(st, a, b).len() == st.len(),
        targets_ok(st) ==> targets_ok(add_eps_m(st, a, b)),
        moves_wf(st) ==> moves_wf(add_eps_m(st, a, b)),
{
    let st1 = add_eps_m(st, a, b);
    if targets_ok(st) {
        assert forall|x: int, j: int| 0 <= x < st1.len() && 0 <= j < st1[x].eps.len() implies #[trigger] st1[x].eps[j] < st1.len() by {
            if x == a && j == st[a].eps.len() {
            } else if x == a {
                assert(st1[x].eps[j] == st[x].eps[j]);
            }
        }
        assert forall|x: int, j: int| 0 <= x < st1.len() && 0 <= j < st1[x].moves.len() implies #[trigger] st1[x].moves[j].1 < st1.len() by {
            assert(st1[x].moves == st[x].moves);
        }
    }
    if moves_wf(st) {
        assert forall|x: int, j: int| 0 <= x < st1.len() && 0 <= j < st1[x].moves.len() implies ranges_wf(#[trigger] st1[x].moves[j].0) by {
            assert(st1[x].moves == st[x].moves);
        }
    }
}

proof fn lemma_add_move_ok(st: Seq<StateModel>, a: int, r: Seq<(char, char)>, b: int)
    requires
        0 <= a < st.len(),
        0 <= b < st.len(),
    ensures
        add_move_m(st, a, r, b).len() == st.len(),
        targets_ok(st) ==> targets_ok(add_move_m(st, a, r, b)),
        moves_wf(st) && ranges_wf(r) ==> moves_wf(add_move_m(st, a, r, b)),
{
    let st1 = add_move_m(st, a, r, b);
    if targets_ok(st) {
        assert forall|x: int, j: int| 0 <= x < st1.len() && 0 <= j < st1[x].eps.len() implies #[trigger] st1[x].eps[j] < st1.len() by {
            assert(st1[x].eps == st[x].eps);
        }
        assert forall|x: int, j: int| 0 <= x < st1.len() && 0 <= j < st1[x].moves.len() implies #[trigger] st1[x].moves[j].1 < st1.len() by {
            if x == a && j == st[a].moves.len() {
            } else if x == a {
                assert(st1[x].moves[j] == st[x].moves[j]);
            }
        }
    }
    if moves_wf(st) && ranges_wf(r) {
        assert forall|x: int, j: int| 0 <= x < st1.len() && 0 <= j < st1[x].moves.len() implies ranges_wf(#[trigger] st1[x].moves[j].0) by {
            if x == a && j == st[a].moves.len() {
            } else if x == a {
                assert(st1[x].moves[j] == st[x].moves[j]);
            }
        }
    }
}

/// Valid UTF-8 decodes to at most one character per byte.
proof fn lemma_decode_len(bytes: Seq<u8>)
    requires
        vstd::utf8::valid_utf8(bytes),
    ensures
        vstd::utf8::decode_utf8(bytes).len() <= bytes.len(),
    decreases bytes.len(),
{
    if bytes.len() > 0 {
        let l = vstd::utf8::length_of_first_scalar(bytes);
        assert(1 <= l <= bytes.len());
        let rest = vstd::utf8::pop_first_scalar(bytes);
        assert(rest.len() == bytes.len() - l);
        lemma_decode_len(rest);
    }
}

proof fn lemma_literal_chars_len(bytes: Seq<u8>)
    ensures
        literal_chars(bytes).len() <= bytes.len(),
{
    if vstd::utf8::valid_utf8(bytes) {
        lemma_decode_len(bytes);
    }
}

/// Shape of a literal chain: one new state per character.
pub proof fn lemma_lit_chain(chars: Seq<char>, i: int, st: Seq<StateModel>, cur: int)
    requires
        0 <= i <= chars.len(),
        0 <= cur < st.len(),
    ensures
        ({
            let (st1, c1) = lit_chain(chars, i, st, cur);
            &&& st1.len() == st.len() + (chars.len() - i)
            &&& 0 <= c1 < st1.len()
            &&& (i < chars.len() ==> st.len() <= c1)
            &&& (i == chars.len() ==> c1 == cur)
            &&& (targets_ok(st) ==> targets_ok(st1))
            &&& (moves_wf(st) ==> moves_wf(st1))
            &&& extends(st, st1)
        }),
    decreases chars.len() - i,
{
    lemma_extends_steps(st, 0, 0, seq![]);
    if i < chars.len() {
        let next = st.len() as int;
        let st0 = st.push(empty_state());
        lemma_push_ok(st);
        lemma_add_move_ok(st0, cur, seq![(chars[i], chars[i])], next);
        let st1 = add_move_m(st0, cur, seq![(chars[i], chars[i])], next);
        assert(ranges_wf(seq![(chars[i], chars[i])]));
        lemma_lit_chain(chars, i + 1, st1, next);
        lemma_extends_steps(st0, cur, next, seq![(chars[i], chars[i])]);
        lemma_extends_trans(st, st0, st1);
        lemma_extends_trans(st, st1, lit_chain(chars, i + 1, st1, next).0);
    }
}

/// Shape of a fragment: it appends at most `est(node)` states (at least one),
/// its start and accept are among the new states, and it keeps every
/// transition pointing at a state and every label well formed.
pub proof fn lemma_frag(node: Node, st: Seq<StateModel>)
    requires
        node.wf(),
    ensures
        ({
            let f = frag(node, st);
            &&& st.len() < f.0.len() <= st.len() + est(node)
            &&& st.len() <= f.1 < f.0.len()
            &&& st.len() <= f.2 < f.0.len()
            &&& (targets_ok(st) ==> targets_ok(f.0))
            &&& (moves_wf(st) ==> moves_wf(f.0))
            &&& extends(st, f.0)
        }),
    decreases node, 0int,
{
    let n = st.len() as int;
    lemma_push_ok(st);
    lemma_extends_steps(st, 0, 0, seq![]);
    let p = st.push(empty_state());
    match node {
        Node::Empty => {},
        Node::Look => {},
        Node::Literal(bytes) => {
            lemma_literal_chars_len(bytes@);
            lemma_lit_chain(literal_chars(bytes@), 0, st.push(empty_state()), n);
            lemma_extends_trans(st, p, frag(node, st).0);
        },
        Node::Group(sub) => {
            lemma_frag(*sub, st);
        },
        Node::Concat(subs) => {
            if subs.len() > 0 {
                assert(subs@[0].wf());
                lemma_frag(subs@[0], st);
                let f = frag(subs@[0], st);
                assert forall|j: int| 0 <= j < subs@.len() implies (#[trigger] subs@[j]).wf() by {}
                lemma_concat_rest(subs@, 1, f.0, f.2);
                assert(est_from(subs@, 0) == est(subs@[0]) + est_from(subs@, 1));
                lemma_extends_trans(st, f.0, frag(node, st).0);
            }
        },
        Node::Class(r) => {
            let st0 = st.push(empty_state());
            lemma_push_ok(st0);
            lemma_add_move_ok(st0.push(empty_state()), n, r@, n + 1);
            lemma_extends_steps(st0, 0, 0, seq![]);
            lemma_extends_steps(st0.push(empty_state()), n, n + 1, r@);
            lemma_extends_trans(st, st0, st0.push(empty_state()));
            lemma_extends_trans(st, st0.push(empty_state()), frag(node, st).0);
        },
        Node::Alternation(subs) => {
            let st0 = st.push(empty_state());
            lemma_push_ok(st0);
            assert forall|j: int| 0 <= j < subs@.len() implies (#[trigger] subs@[j]).wf() by {}
            lemma_alt_rest(subs@, 0, st0.push(empty_state()), n, n + 1);
            lemma_extends_steps(st0, 0, 0, seq![]);
            lemma_extends_trans(st, st0, st0.push(empty_state()));
            lemma_extends_trans(st, st0.push(empty_state()), frag(node, st).0);
        },
        Node::Repeat { min, max, sub } => {
            let e = est(*sub);
            lemma_rep_seq(*sub, min as int, st.push(empty_state()), n);
            let (st1, cur) = rep_seq(*sub, min as int, st.push(empty_state()), n);
            let acc = st1.len() as int;
            let st2 = st1.push(empty_state());
            lemma_push_ok(st1);
            assert(st1.len() <= n + 1 + min * e);
            lemma_extends_steps(st1, 0, 0, seq![]);
            lemma_extends_trans(st, p, st1);
            lemma_extends_trans(st, st1, st2);
            match max {
                None => {
                    lemma_frag(*sub, st2);
                    let f = frag(*sub, st2);
                    lemma_add_eps_ok(f.0, cur, f.1);
                    let s1 = add_eps_m(f.0, cur, f.1);
                    lemma_add_eps_ok(s1, cur, acc);
                    let s2 = add_eps_m(s1, cur, acc);
                    lemma_add_eps_ok(s2, f.2, f.1);
                    let s3 = add_eps_m(s2, f.2, f.1);
                    lemma_add_eps_ok(s3, f.2, acc);
                    assert(min * e + e == e * (min + 1)) by (nonlinear_arith);
                    lemma_extends_steps(f.0, cur, f.1, seq![]);
                    lemma_extends_steps(s1, cur, acc, seq![]);
                    lemma_extends_steps(s2, f.2, f.1, seq![]);
                    lemma_extends_steps(s3, f.2, acc, seq![]);
                    lemma_extends_trans(st, st2, f.0);
                    lemma_extends_trans(st, f.0, s1);
                    lemma_extends_trans(st, s1, s2);
                    lemma_extends_trans(st, s2, s3);
                    lemma_extends_trans(st, s3, add_eps_m(s3, f.2, acc));
                },
                Some(mx) => {
                    lemma_add_eps_ok(st2, cur, acc);
                    lemma_rep_opt(*sub, mx - min, add_eps_m(st2, cur, acc), cur, acc);
                    lemma_extends_steps(st2, cur, acc, seq![]);
                    lemma_extends_trans(st, st2, add_eps_m(st2, cur, acc));
                    lemma_extends_trans(st, add_eps_m(st2, cur, acc), frag(node, st).0);
                    assert(min * e + (mx - min) * e == e * mx) by (nonlinear_arith);
                    if mx < 1 {
                        assert(mx == 0 && min == 0);
                        assert(e * 1 == e);
                    }
                },
            }
        },
    }
}

pub proof fn lemma_concat_rest(subs: Seq<Node>, i: int, st: Seq<StateModel>, acc: int)
    requires
        forall|j: int| 0 <= j < subs.len() ==> (#[trigger] subs[j]).wf(),
        0 <= i <= subs.len(),
        0 <= acc < st.len(),
    ensures
        ({
            let (st1, a1) = concat_rest(subs, i, st, acc);
            &&& st.len() <= st1.len() <= st.len() + est_from(subs, i)
            &&& 0 <= a1 < st1.len()
            &&& (a1 == acc || st.len() <= a1)
            &&& (targets_ok(st) ==> targets_ok(st1))
            &&& (moves_wf(st) ==> moves_wf(st1))
            &&& extends(st, st1)
        }),
    decreases subs, subs.len() - i,
{
    lemma_extends_steps(st, 0, 0, seq![]);
    if i < subs.len() {
        lemma_frag(subs[i], st);
        let f = frag(subs[i], st);
        lemma_add_eps_ok(f.0, acc, f.1);
        let s1 = add_eps_m(f.0, acc, f.1);
        lemma_concat_rest(subs, i + 1, s1, f.2);
        lemma_extends_steps(f.0, acc, f.1, seq![]);
        lemma_extends_trans(st, f.0, s1);
        lemma_extends_trans(st, s1, concat_rest(subs, i + 1, s1, f.2).0);
    }
}

pub proof fn lemma_alt_rest(subs: Seq<Node>, i: int, st: Seq<StateModel>, start: int, accept: int)
    requires
        forall|j: int| 0 <= j < subs.len() ==> (#[trigger] subs[j]).wf(),
        0 <= i <= subs.len(),
        0 <= start < st.len(),
        0 <= accept < st.len(),
    ensures
        ({
            let st1 = alt_rest(subs, i, st, start, accept);
            &&& st.len() <= st1.len() <= st.len() + est_from(subs, i)
            &&& (targets_ok(st) ==> targets_ok(st1))
            &&& (moves_wf(st) ==> moves_wf(st1))
            &&& extends(st, st1)
        }),
    decreases subs, subs.len() - i,
{
    lemma_extends_steps(st, 0, 0, seq![]);
    if i < subs.len() {
        lemma_frag(subs[i], st);
        let f = frag(subs[i], st);
        lemma_add_eps_ok(f.0, start, f.1);
        let s1 = add_eps_m(f.0, start, f.1);
        lemma_add_eps_ok(s1, f.2, accept);
        let s2 = add_eps_m(s1, f.2, accept);
        lemma_alt_rest(subs, i + 1, s2, start, accept);
        lemma_extends_steps(f.0, start, f.1, seq![]);
        lemma_extends_steps(s1, f.2, accept, seq![]);
        lemma_extends_trans(st, f.0, s1);
        lemma_extends_trans(st, s1, s2);
        lemma_extends_trans(st, s2, alt_rest(subs, i + 1, s2, start, accept));
    }
}

pub proof fn lemma_rep_seq(sub: Node, k: int, st: Seq<StateModel>, cur: int)
    requires
        sub.wf(),
        0 <= k,
        0 <= cur < st.len(),
    ensures
        ({
            let (st1, c1) = rep_seq(sub, k, st, cur);
            &&& st.len() <= st1.len() <= st.len() + k * est(sub)
            &&& 0 <= c1 < st1.len()
            &&& (targets_ok(st) ==> targets_ok(st1))
            &&& (moves_wf(st) ==> moves_wf(st1))
            &&& extends(st, st1)
        }),
    decreases sub, k + 1,
{
    lemma_extends_steps(st, 0, 0, seq![]);
    if k > 0 {
        lemma_frag(sub, st);
        let f = frag(sub, st);
        lemma_add_eps_ok(f.0, cur, f.1);
        let s1 = add_eps_m(f.0, cur, f.1);
        lemma_rep_seq(sub, k - 1, s1, f.2);
        lemma_extends_steps(f.0, cur, f.1, seq![]);
        lemma_extends_trans(st, f.0, s1);
        lemma_extends_trans(st, s1, rep_seq(sub, k - 1, s1, f.2).0);
        let e = est(sub);
        assert((k - 1) * e + e == k * e) by (nonlinear_arith);
    }
}

pub proof fn lemma_rep_opt(sub: Node, k: int, st: Seq<StateModel>, cur: int, acc: int)
    requires
        sub.wf(),
        0 <= k,
        0 <= cur < st.len(),
        0 <= acc < st.len(),
    ensures
        ({
            let (st1, c1) = rep_opt(sub, k, st, cur, acc);
            &&& st.len() <= st1.len() <= st.len() + k * est(sub)
            &&& 0 <= c1 < st1.len()
            &&& (targets_ok(st) ==> targets_ok(st1))
            &&& (moves_wf(st) ==> moves_wf(st1))
            &&& extends(st, st1)
        }),
    decreases sub, k + 1,
{
    lemma_extends_steps(st, 0, 0, seq![]);
    if k > 0 {
        lemma_frag(sub, st);
        let f = frag(sub, st);
        lemma_add_eps_ok(f.0, cur, f.1);
        let s1 = add_eps_m(f.0, cur, f.1);
        lemma_add_eps_ok(s1, f.2, acc);
        let s2 = add_eps_m(s1, f.2, acc);
        lemma_rep_opt(sub, k - 1, s2, f.2, acc);
        lemma_extends_steps(f.0, cur, f.1, seq![]);
        lemma_extends_steps(s1, f.2, acc, seq![]);
        lemma_extends_trans(st, f.0, s1);
        lemma_extends_trans(st, s1, s2);
        lemma_extends_trans(st, s2, rep_opt(sub, k - 1, s2, f.2, acc).0);
        let e = est(sub);
        assert((k - 1) * e + e == k * e) by (nonlinear_arith);
    }
}

// --- Executable construction ---

/// `x` clipped to the range of `usize`.
pub open spec fn sat(x: int) -> int {
    if x > usize::MAX {
        usize::MAX as int
    } else {
        x
    }
}

/// Upper-bound estimate of the NFA state count [`build`] would produce, so callers
/// can skip patterns whose bounded repetitions (`{1000}`, `.{255}`) would explode
/// the construction. Saturating: the exact estimate, clipped at `usize::MAX`.
pub fn estimate_states(node: &Node) -> (r: usize)
    ensures
        r as int == sat(est(*node) as int),
    decreases node,
{
    match node {
        Node::Empty => 1,
        Node::Look => 1,
        Node::Literal(bytes) => bytes.len().saturating_add(1),
        Node::Class(_) => 2,
        Node::Group(sub) => estimate_states(sub),
        Node::Concat(subs) => sum_estimates(subs, 1),
        Node::Alternation(subs) => sum_estimates(subs, 2),
        Node::Repeat { min, max, sub } => {
            let body = estimate_states(sub);
            let copies: usize = match max {
                Some(m) => *m as usize,
                None => (*min as usize).saturating_add(1),
            };
            let c1: usize = if copies >= 1 {
                copies
            } else {
                1
            };
            let prod: usize = match body.checked_mul(c1) {
                Some(v) => v,
                None => usize::MAX,
            };
            proof {
                let e = est(**sub) as int;
                let c = rep_copies(*min, *max);
                let cc: int = if c < 1 { 1 } else { c };
                lemma_est_pos(**sub);
                if c > usize::MAX {
                    assert(c1 == usize::MAX);
                    assert(e * cc >= cc) by (nonlinear_arith)
                        requires e >= 1, cc >= 1;
                    assert(body * c1 >= c1) by (nonlinear_arith)
                        requires body >= 1, c1 >= 1;
                } else {
                    assert(c1 as int == cc);
                }
                if e > usize::MAX {
                    assert(body == usize::MAX);
                    assert(e * cc >= e) by (nonlinear_arith)
                        requires e >= 1, cc >= 1;
                    assert(body * c1 >= body) by (nonlinear_arith)
                        requires body >= 1, c1 >= 1;
                } else if c <= usize::MAX {
                    assert(body as int == e);
                }
                assert(prod as int == sat(e * cc));
            }
            prod.saturating_add(2)
        },
    }
}

proof fn lemma_est_pos(node: Node)
    ensures
        est(node) >= 1,
    decreases node,
{
    match node {
        Node::Group(sub) => lemma_est_pos(*sub),
        Node::Repeat { min, max, sub } => {},
        _ => {},
    }
}

/// `base` plus the estimates of all of `subs`, saturating.
fn sum_estimates(subs: &Vec<Node>, base: usize) -> (r: usize)
    ensures
        r as int == sat(base + est_from(subs@, 0)),
    decreases subs@, 0int,
{
    let mut acc: usize = base;
    let mut i: usize = 0;
    while i < subs.len()
        invariant
            i <= subs.len(),
            acc as int == sat(base + est_from(subs@, 0) - est_from(subs@, i as int)),
            est_from(subs@, 0) >= est_from(subs@, i as int),
        decreases subs.len() - i,
    {
        let e = estimate_states(&subs[i]);
        assert(est_from(subs@, i as int) == est(subs@[i as int]) + est_from(subs@, i + 1));
        acc = acc.saturating_add(e);
        i = i + 1;
    }
    acc
}

pub proof fn lemma_child_decreases(node: Node, subs: Vec<Node>, i: int)
    requires
        node == Node::Concat(subs) || node == Node::Alternation(subs),
        0 <= i < subs.len(),
    ensures
        decreases_to!(node => subs@[i]),
{
    if node is Concat {
        let v = node->Concat_0;
        assert(decreases_to!(node => v));
        assert(decreases_to!(v => v@));
        assert(decreases_to!(v@ => v@[i]));
    } else {
        let v = node->Alternation_0;
        assert(decreases_to!(node => v));
        assert(decreases_to!(v => v@));
        assert(decreases_to!(v@ => v@[i]));
    }
}

pub proof fn lemma_body_decreases(node: Node, min: u32, max: Option<u32>, sub: Box<Node>)
    requires
        node == (Node::Repeat { min, max, sub }),
    ensures
        decreases_to!(node => *sub),
{
    let b = node->sub;
    assert(decreases_to!(node => b));
    assert(decreases_to!(node => *b));
}

impl Nfa {
    fn new_state(&mut self) -> (s: usize)
        ensures
            final(self)@.states == old(self)@.states.push(empty_state()),
            final(self).states.len() == old(self).states.len() + 1,
            s == old(self).states.len(),
    {
        let ghost v0 = self@.states;
        let st = State { eps: Vec::new(), moves: Vec::new() };
        assert(st@.moves =~= Seq::<(Seq<(char, char)>, usize)>::empty());
        assert(st@.eps =~= Seq::<usize>::empty());
        assert(st@ == empty_state());
        self.states.push(st);
        assert forall|i: int| 0 <= i < self@.states.len() implies #[trigger] self@.states[i] == v0.push(empty_state())[i] by {
            if i < v0.len() {
                assert(self.states@[i] == old(self).states@[i]);
            } else {
                assert(self.states@[i] == st);
            }
        }
        assert(self@.states =~= v0.push(empty_state()));
        self.states.len() - 1
    }

    fn add_eps(&mut self, a: usize, b: usize)
        requires
            a < old(self).states.len(),
        ensures
            final(self)@.states == add_eps_m(old(self)@.states, a as int, b as int),
            final(self).states.len() == old(self).states.len(),
    {
        let ghost v0 = self@.states;
        self.states[a].eps.push(b);
        assert(self@.states[a as int] == StateModel { eps: v0[a as int].eps.push(b), moves: v0[a as int].moves });
        assert(self@.states =~= add_eps_m(v0, a as int, b as int));
    }

    fn add_move(&mut self, a: usize, r: Ranges, b: usize)
        requires
            a < old(self).states.len(),
        ensures
            final(self)@.states == add_move_m(old(self)@.states, a as int, r@, b as int),
            final(self).states.len() == old(self).states.len(),
    {
        let ghost v0 = self@.states;
        let ghost old_moves = self.states@[a as int].moves@;
        self.states[a].moves.push((r, b));
        assert(self.states@[a as int].moves@ == old_moves.push((r, b)));
        assert(self@.states[a as int].moves =~= v0[a as int].moves.push((r@, b)));
        assert(self@.states[a as int] == StateModel { eps: v0[a as int].eps, moves: v0[a as int].moves.push((r@, b)) });
        assert(self@.states =~= add_move_m(v0, a as int, r@, b as int));
    }

    /// A chain of single-character transitions for a literal's bytes (decoded as
    /// UTF-8 where possible).
    fn build_literal(&mut self, bytes: &Vec<u8>) -> (r: (usize, usize))
        ensures
            ({
                let n = old(self)@.states.len() as int;
                let c = lit_chain(literal_chars(bytes@), 0, old(self)@.states.push(empty_state()), n);
                final(self)@.states == c.0 && r.0 == n && r.1 == c.1
            }),
    {
        let chars = literal_chars_exec(bytes);
        let ghost target = lit_chain(chars@, 0, self@.states.push(empty_state()), self@.states.len() as int);
        let start = self.new_state();
        let mut cur = start;
        let mut i: usize = 0;
        while i < chars.len()
            invariant
                i <= chars.len(),
                cur < self.states.len(),
                lit_chain(chars@, i as int, self@.states, cur as int) == target,
            decreases chars.len() - i,
        {
            let c = chars[i];
            let next = self.new_state();
            let mut r: Ranges = Vec::new();
            r.push((c, c));
            assert(r@ =~= seq![(chars@[i as int], chars@[i as int])]);
            self.add_move(cur, r, next);
            cur = next;
            i = i + 1;
        }
        (start, cur)
    }

    /// Build a Thompson fragment for `node`, returning its `(start, accept)` states.
    fn build_frag(&mut self, node: &Node) -> (r: (usize, usize))
        requires
            node.wf(),
        ensures
            final(self)@.states == frag(*node, old(self)@.states).0,
            r.0 == frag(*node, old(self)@.states).1,
            r.1 == frag(*node, old(self)@.states).2,
        decreases node,
    {
        proof {
            lemma_frag(*node, self@.states);
        }
        match node {
            Node::Empty => {
                let s = self.new_state();
                (s, s)
            },
            Node::Look => {
                let s = self.new_state();
                (s, s)
            },
            Node::Literal(bytes) => self.build_literal(bytes),
            Node::Group(sub) => self.build_frag(sub),
            Node::Concat(subs) => {
                if subs.len() == 0 {
                    let s = self.new_state();
                    return (s, s);
                }
                let ghost st0 = self@.states;
                assert(subs@[0].wf());
                proof {
                    lemma_frag(subs@[0], st0);
                }
                let (start, acc0) = self.build_frag(&subs[0]);
                let mut acc = acc0;
                let ghost target = concat_rest(subs@, 1, self@.states, acc0 as int);
                let mut i: usize = 1;
                while i < subs.len()
                    invariant
                        1 <= i <= subs.len(),
                        *node == Node::Concat(*subs),
                        forall|j: int| 0 <= j < subs.len() ==> (#[trigger] subs@[j]).wf(),
                        acc < self.states.len(),
                        concat_rest(subs@, i as int, self@.states, acc as int) == target,
                    decreases subs.len() - i,
                {
                    let ghost st_i = self@.states;
                    proof {
                        lemma_frag(subs@[i as int], st_i);
                        lemma_child_decreases(*node, *subs, i as int);
                    }
                    let (s, a) = self.build_frag(&subs[i]);
                    self.add_eps(acc, s);
                    proof {
                        lemma_add_eps_ok(frag(subs@[i as int], st_i).0, acc as int, s as int);
                    }
                    acc = a;
                    i = i + 1;
                }
                (start, acc)
            },
            Node::Class(r) => {
                let start = self.new_state();
                let accept = self.new_state();
                let rc = copy_ranges(r);
                self.add_move(start, rc, accept);
                (start, accept)
            },
            Node::Alternation(subs) => {
                let start = self.new_state();
                let accept = self.new_state();
                let ghost target = alt_rest(subs@, 0, self@.states, start as int, accept as int);
                let mut i: usize = 0;
                while i < subs.len()
                    invariant
                        i <= subs.len(),
                        *node == Node::Alternation(*subs),
                        forall|j: int| 0 <= j < subs.len() ==> (#[trigger] subs@[j]).wf(),
                        start < self.states.len(),
                        accept < self.states.len(),
                        alt_rest(subs@, i as int, self@.states, start as int, accept as int) == target,
                    decreases subs.len() - i,
                {
                    let ghost st_i = self@.states;
                    proof {
                        lemma_frag(subs@[i as int], st_i);
                        lemma_child_decreases(*node, *subs, i as int);
                    }
                    let (s, a) = self.build_frag(&subs[i]);
                    self.add_eps(start, s);
                    self.add_eps(a, accept);
                    i = i + 1;
                }
                (start, accept)
            },
            Node::Repeat { min, max, sub } => {
                let start = self.new_state();
                let mut cur = start;
                let ghost target = rep_seq(**sub, *min as int, self@.states, start as int);
                let mut k: u32 = 0;
                while k < *min
                    invariant
                        k <= *min,
                        *node == (Node::Repeat { min: *min, max: *max, sub: *sub }),
                        sub.wf(),
                        cur < self.states.len(),
                        rep_seq(**sub, *min - k, self@.states, cur as int) == target,
                    decreases *min - k,
                {
                    let ghost st_k = self@.states;
                    proof {
                        lemma_frag(**sub, st_k);
                        lemma_body_decreases(*node, *min, *max, *sub);
                    }
                    let (s, a) = self.build_frag(sub);
                    self.add_eps(cur, s);
                    cur = a;
                    k = k + 1;
                }
                let accept = self.new_state();
                match max {
                    None => {
                        let ghost st2 = self@.states;
                        proof {
                            lemma_frag(**sub, st2);
                        }
                        let (s, a) = self.build_frag(sub);
                        self.add_eps(cur, s);
                        self.add_eps(cur, accept);
                        self.add_eps(a, s);
                        self.add_eps(a, accept);
                    },
                    Some(mx) => {
                        self.add_eps(cur, accept);
                        let ghost target2 = rep_opt(**sub, *mx - *min, self@.states, cur as int, accept as int);
                        let mut j: u32 = 0;
                        let extra: u32 = *mx - *min;
                        while j < extra
                            invariant
                                j <= extra,
                                *node == (Node::Repeat { min: *min, max: *max, sub: *sub }),
                                sub.wf(),
                                cur < self.states.len(),
                                accept < self.states.len(),
                                rep_opt(**sub, extra - j, self@.states, cur as int, accept as int) == target2,
                            decreases extra - j,
                        {
                            let ghost st_j = self@.states;
                            proof {
                                lemma_frag(**sub, st_j);
                                lemma_body_decreases(*node, *min, *max, *sub);
                            }
                            let (s, a) = self.build_frag(sub);
                            self.add_eps(cur, s);
                            self.add_eps(a, accept);
                            cur = a;
                            j = j + 1;
                        }
                    },
                }
                (start, accept)
            },
        }
    }
}

/// The characters of a literal (see [`literal_chars`]).
fn literal_chars_exec(bytes: &Vec<u8>) -> (out: Vec<char>)
    ensures
        out@ == literal_chars(bytes@),
{
    let mut out: Vec<char> = Vec::new();
    match str_from_utf8(bytes.as_slice()) {
        Some(s) => {
            out = str_chars(s);
        },
        None => {
            for i in 0..bytes.len()
                invariant
                    out@ == bytes@.take(i as int).map_values(|b: u8| b as char),
            {
                out.push(bytes[i] as char);
                assert(bytes@.take(i + 1).map_values(|b: u8| b as char) =~= bytes@.take(i as int).map_values(
                    |b: u8| b as char,
                ).push(bytes@[i as int] as char));
            }
            assert(bytes@.take(bytes.len() as int) =~= bytes@);
        },
    }
    out
}

/// [`estimate_states`] is an upper bound: the Thompson NFA of a well-formed
/// pattern has at most `est(node)` states (and at least one).
pub proof fn lemma_thompson_size(node: Node)
    requires
        node.wf(),
    ensures
        0 < thompson(node).len() <= est(node),
        thompson(node).wf() || thompson(node).len() >= usize::MAX,
{
    lemma_frag(node, seq![]);
    assert(targets_ok(Seq::<StateModel>::empty()));
    assert(moves_wf(Seq::<StateModel>::empty()));
}

/// `node` has the shape that regex-syntax gives every parsed pattern: no
/// concatenation of exactly one part, and no repetition at most zero times
/// (the parser writes those as the part itself and as the empty pattern).
pub open spec fn canonical(node: Node) -> bool
    decreases node,
{
    match node {
        Node::Repeat { min, max, sub } => max != Some(0u32) && canonical(*sub),
        Node::Group(sub) => canonical(*sub),
        Node::Concat(subs) => subs.len() != 1 && forall|i: int| 0 <= i < subs.len() ==> canonical(#[trigger] subs@[i]),
        Node::Alternation(subs) => forall|i: int| 0 <= i < subs.len() ==> canonical(#[trigger] subs@[i]),
        _ => true,
    }
}

/// Valid UTF-8 spends at most four bytes on a character.
proof fn lemma_utf8_bytes_per_char(bytes: Seq<u8>)
    requires
        vstd::utf8::valid_utf8(bytes),
    ensures
        bytes.len() <= 4 * vstd::utf8::decode_utf8(bytes).len(),
    decreases bytes.len(),
{
    if bytes.len() > 0 {
        let l = vstd::utf8::length_of_first_scalar(bytes);
        assert(1 <= l <= 4);
        assert(l <= bytes.len());
        let rest = vstd::utf8::pop_first_scalar(bytes);
        assert(rest.len() == bytes.len() - l);
        lemma_utf8_bytes_per_char(rest);
        assert(vstd::utf8::decode_utf8(bytes).len() == 1 + vstd::utf8::decode_utf8(rest).len());
    }
}

/// A fragment of a canonical pattern has more than a quarter as many states as
/// the estimate: `est(node) + 1 <= 4 * (states added)`.
proof fn lemma_frag_tight(node: Node, st: Seq<StateModel>)
    requires
        node.wf(),
        canonical(node),
    ensures
        est(node) + 1 <= 4 * (frag(node, st).0.len() - st.len()),
    decreases node, 0int,
{
    let n = st.len() as int;
    lemma_frag(node, st);
    let p = st.push(empty_state());
    match node {
        Node::Empty => {
            assert(est(node) == 1);
            assert(frag(node, st).0.len() == n + 1);
            assert(est(node) + 1 <= 4 * (frag(node, st).0.len() - st.len()));
        },
        Node::Look => {
            assert(est(node) == 1);
            assert(frag(node, st).0.len() == n + 1);
            assert(est(node) + 1 <= 4 * (frag(node, st).0.len() - st.len()));
        },
        Node::Literal(bytes) => {
            let chars = literal_chars(bytes@);
            lemma_lit_chain(chars, 0, p, n);
            if vstd::utf8::valid_utf8(bytes@) {
                lemma_utf8_bytes_per_char(bytes@);
            }
            assert(bytes@.len() <= 4 * chars.len());
            assert(est(node) + 1 <= 4 * (frag(node, st).0.len() - st.len()));
        },
        Node::Class(r) => {
            assert(est(node) == 2);
            assert(frag(node, st).0.len() == n + 2);
            assert(est(node) + 1 <= 4 * (frag(node, st).0.len() - st.len()));
        },
        Node::Group(sub) => {
            lemma_frag_tight(*sub, st);
            assert(est(node) + 1 <= 4 * (frag(node, st).0.len() - st.len()));
        },
        Node::Concat(subs) => {
            if subs.len() > 0 {
                assert(subs.len() >= 2);
                assert(subs@[0].wf() && canonical(subs@[0]));
                lemma_frag(subs@[0], st);
                lemma_frag_tight(subs@[0], st);
                let f = frag(subs@[0], st);
                assert forall|j: int| 0 <= j < subs@.len() implies (#[trigger] subs@[j]).wf() by {}
                assert forall|j: int| 0 <= j < subs@.len() implies canonical(#[trigger] subs@[j]) by {}
                lemma_concat_rest_tight(subs@, 1, f.0, f.2);
                assert(est_from(subs@, 0) == est(subs@[0]) + est_from(subs@, 1));
                assert(frag(node, st).0 == concat_rest(subs@, 1, f.0, f.2).0);
                assert(est(node) == 1 + est_from(subs@, 0));
            } else {
                assert(est_from(subs@, 0) == 0);
                assert(frag(node, st).0.len() == n + 1);
            }
            assert(est(node) + 1 <= 4 * (frag(node, st).0.len() - st.len()));
        },
        Node::Alternation(subs) => {
            assert forall|j: int| 0 <= j < subs@.len() implies (#[trigger] subs@[j]).wf() by {}
            assert forall|j: int| 0 <= j < subs@.len() implies canonical(#[trigger] subs@[j]) by {}
            lemma_alt_rest_tight(subs@, 0, p.push(empty_state()), n, n + 1);
            assert(est(node) + 1 <= 4 * (frag(node, st).0.len() - st.len()));
        },
        Node::Repeat { min, max, sub } => {
            let e = est(*sub);
            lemma_rep_seq(*sub, min as int, p, n);
            lemma_rep_seq_tight(*sub, min as int, p, n);
            let (st1, cur) = rep_seq(*sub, min as int, p, n);
            let acc = st1.len() as int;
            let st2 = st1.push(empty_state());
            match max {
                None => {
                    lemma_frag(*sub, st2);
                    lemma_frag_tight(*sub, st2);
                    let f = frag(*sub, st2);
                    let s1 = add_eps_m(f.0, cur, f.1);
                    let s2 = add_eps_m(s1, cur, acc);
                    let s3 = add_eps_m(s2, f.2, f.1);
                    assert(add_eps_m(s3, f.2, acc).len() == f.0.len());
                    assert(e * (min + 1) == min * e + e) by (nonlinear_arith);
                    assert(min * (e + 1) == min * e + min) by (nonlinear_arith);
                },
                Some(mx) => {
                    let s1 = add_eps_m(st2, cur, acc);
                    lemma_rep_opt_tight(*sub, mx - min, s1, cur, acc);
                    assert(mx >= 1);
                    assert(e * mx + mx == min * (e + 1) + (mx - min) * (e + 1)) by (nonlinear_arith);
                },
            }
            assert(est(node) + 1 <= 4 * (frag(node, st).0.len() - st.len()));
        },
    }
}

proof fn lemma_concat_rest_tight(subs: Seq<Node>, i: int, st: Seq<StateModel>, acc: int)
    requires
        forall|j: int| 0 <= j < subs.len() ==> (#[trigger] subs[j]).wf(),
        forall|j: int| 0 <= j < subs.len() ==> canonical(#[trigger] subs[j]),
        0 <= i <= subs.len(),
        0 <= acc < st.len(),
    ensures
        est_from(subs, i) + (subs.len() - i) <= 4 * (concat_rest(subs, i, st, acc).0.len() - st.len()),
    decreases subs, subs.len() - i,
{
    if i < subs.len() {
        lemma_frag(subs[i], st);
        lemma_frag_tight(subs[i], st);
        let f = frag(subs[i], st);
        let s1 = add_eps_m(f.0, acc, f.1);
        lemma_concat_rest_tight(subs, i + 1, s1, f.2);
    }
}

proof fn lemma_alt_rest_tight(subs: Seq<Node>, i: int, st: Seq<StateModel>, start: int, accept: int)
    requires
        forall|j: int| 0 <= j < subs.len() ==> (#[trigger] subs[j]).wf(),
        forall|j: int| 0 <= j < subs.len() ==> canonical(#[trigger] subs[j]),
        0 <= i <= subs.len(),
        0 <= start < st.len(),
        0 <= accept < st.len(),
    ensures
        est_from(subs, i) + (subs.len() - i) <= 4 * (alt_rest(subs, i, st, start, accept).len() - st.len()),
    decreases subs, subs.len() - i,
{
    if i < subs.len() {
        lemma_frag(subs[i], st);
        lemma_frag_tight(subs[i], st);
        let f = frag(subs[i], st);
        let s1 = add_eps_m(add_eps_m(f.0, start, f.1), f.2, accept);
        lemma_alt_rest_tight(subs, i + 1, s1, start, accept);
    }
}

proof fn lemma_rep_seq_tight(sub: Node, k: int, st: Seq<StateModel>, cur: int)
    requires
        sub.wf(),
        canonical(sub),
        0 <= k,
        0 <= cur < st.len(),
    ensures
        k * (est(sub) + 1) <= 4 * (rep_seq(sub, k, st, cur).0.len() - st.len()),
    decreases sub, k + 1,
{
    if k > 0 {
        lemma_frag(sub, st);
        lemma_frag_tight(sub, st);
        let f = frag(sub, st);
        let s1 = add_eps_m(f.0, cur, f.1);
        lemma_rep_seq_tight(sub, k - 1, s1, f.2);
        assert((k - 1) * (est(sub) + 1) + (est(sub) + 1) == k * (est(sub) + 1)) by (nonlinear_arith);
    }
}

proof fn lemma_rep_opt_tight(sub: Node, k: int, st: Seq<StateModel>, cur: int, acc: int)
    requires
        sub.wf(),
        canonical(sub),
        0 <= k,
        0 <= cur < st.len(),
        0 <= acc < st.len(),
    ensures
        k * (est(sub) + 1) <= 4 * (rep_opt(sub, k, st, cur, acc).0.len() - st.len()),
    decreases sub, k + 1,
{
    if k > 0 {
        lemma_frag(sub, st);
        lemma_frag_tight(sub, st);
        let f = frag(sub, st);
        let s1 = add_eps_m(add_eps_m(f.0, cur, f.1), f.2, acc);
        lemma_rep_opt_tight(sub, k - 1, s1, f.2, acc);
        assert((k - 1) * (est(sub) + 1) + (est(sub) + 1) == k * (est(sub) + 1)) by (nonlinear_arith);
    }
}

/// The size estimate is tight as well as safe: for every pattern of the shape
/// the parser gives, the Thompson automaton has at least a quarter of the
/// estimated states and at most all of them.
pub proof fn lemma_estimate_tight(node: Node)
    requires
        node.wf(),
        canonical(node),
    ensures
        thompson(node).len() <= est(node) < 4 * thompson(node).len(),
{
    lemma_thompson_size(node);
    lemma_frag_tight(node, seq![]);
}

/// `node` is of the parser's shape, has no concatenation, and every literal
/// in it reads one character per byte (ASCII text).
pub open spec fn concat_free(node: Node) -> bool
    decreases node,
{
    match node {
        Node::Repeat { min, max, sub } => max != Some(0u32) && concat_free(*sub),
        Node::Group(sub) => concat_free(*sub),
        Node::Concat(subs) => false,
        Node::Alternation(subs) => forall|i: int| 0 <= i < subs.len() ==> concat_free(#[trigger] subs@[i]),
        Node::Literal(bytes) => literal_chars(bytes@).len() == bytes@.len(),
        _ => true,
    }
}

proof fn lemma_frag_exact(node: Node, st: Seq<StateModel>)
    requires
        node.wf(),
        concat_free(node),
    ensures
        frag(node, st).0.len() - st.len() == est(node),
    decreases node, 0int,
{
    let n = st.len() as int;
    lemma_frag(node, st);
    let p = st.push(empty_state());
    match node {
        Node::Empty => {
            assert(frag(node, st).0.len() == n + 1);
        },
        Node::Look => {
            assert(frag(node, st).0.len() == n + 1);
        },
        Node::Literal(bytes) => {
            lemma_lit_chain(literal_chars(bytes@), 0, p, n);
        },
        Node::Class(r) => {
            assert(frag(node, st).0.len() == n + 2);
        },
        Node::Group(sub) => {
            lemma_frag_exact(*sub, st);
        },
        Node::Concat(subs) => {},
        Node::Alternation(subs) => {
            assert forall|j: int| 0 <= j < subs@.len() implies (#[trigger] subs@[j]).wf() by {}
            assert forall|j: int| 0 <= j < subs@.len() implies concat_free(#[trigger] subs@[j]) by {}
            lemma_alt_rest_exact(subs@, 0, p.push(empty_state()), n, n + 1);
        },
        Node::Repeat { min, max, sub } => {
            let e = est(*sub);
            lemma_rep_seq(*sub, min as int, p, n);
            lemma_rep_seq_exact(*sub, min as int, p, n);
            let (st1, cur) = rep_seq(*sub, min as int, p, n);
            let acc = st1.len() as int;
            let st2 = st1.push(empty_state());
            match max {
                None => {
                    lemma_frag(*sub, st2);
                    lemma_frag_exact(*sub, st2);
                    let f = frag(*sub, st2);
                    let s1 = add_eps_m(f.0, cur, f.1);
                    let s2 = add_eps_m(s1, cur, acc);
                    let s3 = add_eps_m(s2, f.2, f.1);
                    assert(add_eps_m(s3, f.2, acc).len() == f.0.len());
                    assert(e * (min + 1) == min * e + e) by (nonlinear_arith);
                },
                Some(mx) => {
                    let s1 = add_eps_m(st2, cur, acc);
                    lemma_rep_opt_exact(*sub, mx - min, s1, cur, acc);
                    assert(mx >= 1);
                    assert(e * mx == min * e + (mx - min) * e) by (nonlinear_arith);
                },
            }
        },
    }
}

proof fn lemma_alt_rest_exact(subs: Seq<Node>, i: int, st: Seq<StateModel>, start: int, accept: int)
    requires
        forall|j: int| 0 <= j < subs.len() ==> (#[trigger] subs[j]).wf(),
        forall|j: int| 0 <= j < subs.len() ==> concat_free(#[trigger] subs[j]),
        0 <= i <= subs.len(),
        0 <= start < st.len(),
        0 <= accept < st.len(),
    ensures
        alt_rest(subs, i, st, start, accept).len() - st.len() == est_from(subs, i),
    decreases subs, subs.len() - i,
{
    if i < subs.len() {
        lemma_frag(subs[i], st);
        lemma_frag_exact(subs[i], st);
        let f = frag(subs[i], st);
        let s1 = add_eps_m(add_eps_m(f.0, start, f.1), f.2, accept);
        lemma_alt_rest_exact(subs, i + 1, s1, start, accept);
    }
}

proof fn lemma_rep_seq_exact(sub: Node, k: int, st: Seq<StateModel>, cur: int)
    requires
        sub.wf(),
        concat_free(sub),
        0 <= k,
        0 <= cur < st.len(),
    ensures
        rep_seq(sub, k, st, cur).0.len() - st.len() == k * est(sub),
    decreases sub, k + 1,
{
    if k > 0 {
        lemma_frag(sub, st);
        lemma_frag_exact(sub, st);
        let f = frag(sub, st);
        let s1 = add_eps_m(f.0, cur, f.1);
        lemma_rep_seq_exact(sub, k - 1, s1, f.2);
        assert((k - 1) * est(sub) + est(sub) == k * est(sub)) by (nonlinear_arith);
    }
}

proof fn lemma_rep_opt_exact(sub: Node, k: int, st: Seq<StateModel>, cur: int, acc: int)
    requires
        sub.wf(),
        concat_free(sub),
        0 <= k,
        0 <= cur < st.len(),
        0 <= acc < st.len(),
    ensures
        rep_opt(sub, k, st, cur, acc).0.len() - st.len() == k * est(sub),
    decreases sub, k + 1,
{
    if k > 0 {
        lemma_frag(sub, st);
        lemma_frag_exact(sub, st);
        let f = frag(sub, st);
        let s1 = add_eps_m(add_eps_m(f.0, cur, f.1), f.2, acc);
        lemma_rep_opt_exact(sub, k - 1, s1, f.2, acc);
        assert((k - 1) * est(sub) + est(sub) == k * est(sub)) by (nonlinear_arith);
    }
}

/// Without concatenations and with ASCII literals, the estimate is exactly the
/// size of the Thompson automaton.
pub proof fn lemma_estimate_exact(node: Node)
    requires
        node.wf(),
        concat_free(node),
    ensures
        est(node) == thompson(node).len(),
{
    lemma_frag_exact(node, seq![]);
}

/// Build the Thompson NFA of a parsed pattern.
pub fn build(node: &Node) -> (nfa: Nfa)
    requires
        node.wf(),
        est(*node) < usize::MAX,
    ensures
        nfa@ == thompson(*node),
        nfa.wf(),
        0 < nfa.states.len() <= est(*node),
{
    let mut nfa = Nfa { states: Vec::new(), start: 0, accept: 0 };
    assert(nfa@.states =~= Seq::<StateModel>::empty());
    proof {
        lemma_frag(*node, seq![]);
    }
    let (start, accept) = nfa.build_frag(node);
    nfa.start = start;
    nfa.accept = accept;
    nfa
}

} // verus!
