//! Finite directed graphs: paths, reachability, and a budgeted breadth-first
//! search over adjacency lists.
//!
//! Nodes are integers; a graph is given by its edge relation. The automata
//! analyses (epsilon closures, the product automata of the EDA and IDA
//! detectors) all reduce to reachability questions stated here.
use vstd::prelude::*;

verus! {

/// Step `i` of the node sequence `p` follows an edge.
pub open spec fn path_step(edge: spec_fn(int, int) -> bool, p: Seq<int>, i: int) -> bool {
    edge(p[i], p[i + 1])
}

/// `p` is a non-empty sequence of nodes, each joined to the next by an edge.
pub open spec fn is_path(edge: spec_fn(int, int) -> bool, p: Seq<int>) -> bool {
    &&& p.len() > 0
    &&& forall|i: int| 0 <= i < p.len() - 1 ==> #[trigger] path_step(edge, p, i)
}

/// `b` can be reached from `a` over zero or more edges.
pub open spec fn reaches(edge: spec_fn(int, int) -> bool, a: int, b: int) -> bool {
    exists|p: Seq<int>| #[trigger] is_path(edge, p) && p[0] == a && p[p.len() - 1] == b
}

/// `b` can be reached from `a` over one or more edges.
pub open spec fn reaches_plus(edge: spec_fn(int, int) -> bool, a: int, b: int) -> bool {
    exists|x: int| #[trigger] edge(a, x) && reaches(edge, x, b)
}

pub proof fn lemma_reaches_refl(edge: spec_fn(int, int) -> bool, a: int)
    ensures
        reaches(edge, a, a),
{
    let p = seq![a];
    assert(is_path(edge, p));
}

pub proof fn lemma_reaches_step(edge: spec_fn(int, int) -> bool, a: int, b: int, c: int)
    requires
        reaches(edge, a, b),
        edge(b, c),
    ensures
        reaches(edge, a, c),
{
    let p = choose|p: Seq<int>| #[trigger] is_path(edge, p) && p[0] == a && p[p.len() - 1] == b;
    let q = p.push(c);
    assert forall|i: int| 0 <= i < q.len() - 1 implies #[trigger] path_step(edge, q, i) by {
        if i < p.len() - 1 {
            assert(path_step(edge, p, i));
        }
    }
    assert(is_path(edge, q));
}

pub proof fn lemma_reaches_edge(edge: spec_fn(int, int) -> bool, a: int, b: int)
    requires
        edge(a, b),
    ensures
        reaches(edge, a, b),
{
    lemma_reaches_refl(edge, a);
    lemma_reaches_step(edge, a, a, b);
}

pub proof fn lemma_reaches_trans(edge: spec_fn(int, int) -> bool, a: int, b: int, c: int)
    requires
        reaches(edge, a, b),
        reaches(edge, b, c),
    ensures
        reaches(edge, a, c),
{
    let p = choose|p: Seq<int>| #[trigger] is_path(edge, p) && p[0] == a && p[p.len() - 1] == b;
    let q = choose|q: Seq<int>| #[trigger] is_path(edge, q) && q[0] == b && q[q.len() - 1] == c;
    let r = p + q.drop_first();
    assert forall|i: int| 0 <= i < r.len() - 1 implies #[trigger] path_step(edge, r, i) by {
        if i < p.len() - 1 {
            assert(path_step(edge, p, i));
        } else if i == p.len() - 1 {
            assert(path_step(edge, q, 0));
        } else {
            assert(path_step(edge, q, i - p.len() + 1));
        }
    }
    assert(is_path(edge, r));
}

/// Every node of a path that starts in a set closed under the edges lies in the set.
proof fn lemma_path_in_closed_set(
    edge: spec_fn(int, int) -> bool,
    set: spec_fn(int) -> bool,
    p: Seq<int>,
    k: int,
)
    requires
        is_path(edge, p),
        set(p[0]),
        forall|x: int, y: int| set(x) && #[trigger] edge(x, y) ==> set(y),
        0 <= k < p.len(),
    ensures
        set(p[k]),
    decreases k,
{
    if k > 0 {
        lemma_path_in_closed_set(edge, set, p, k - 1);
        assert(path_step(edge, p, k - 1));
    }
}

/// Reachability never leaves a set that is closed under the edges.
pub proof fn lemma_reaches_closed(
    edge: spec_fn(int, int) -> bool,
    set: spec_fn(int) -> bool,
    a: int,
    b: int,
)
    requires
        set(a),
        forall|x: int, y: int| set(x) && #[trigger] edge(x, y) ==> set(y),
        reaches(edge, a, b),
    ensures
        set(b),
{
    let p = choose|p: Seq<int>| #[trigger] is_path(edge, p) && p[0] == a && p[p.len() - 1] == b;
    lemma_path_in_closed_set(edge, set, p, p.len() - 1);
}

/// A path of one relation is a path of any larger relation.
pub proof fn lemma_reaches_mono(
    small: spec_fn(int, int) -> bool,
    big: spec_fn(int, int) -> bool,
    a: int,
    b: int,
)
    requires
        forall|x: int, y: int| #[trigger] small(x, y) ==> big(x, y),
        reaches(small, a, b),
    ensures
        reaches(big, a, b),
{
    let p = choose|p: Seq<int>| #[trigger] is_path(small, p) && p[0] == a && p[p.len() - 1] == b;
    assert forall|i: int| 0 <= i < p.len() - 1 implies #[trigger] path_step(big, p, i) by {
        assert(path_step(small, p, i));
    }
    assert(is_path(big, p));
}

/// Within a set closed under the edges, a relation that agrees with the edges on
/// the set's nodes reaches everything the edges reach.
pub proof fn lemma_reaches_restricted(
    edge: spec_fn(int, int) -> bool,
    part: spec_fn(int, int) -> bool,
    set: spec_fn(int) -> bool,
    a: int,
    b: int,
)
    requires
        set(a),
        forall|x: int, y: int| set(x) && #[trigger] edge(x, y) ==> set(y),
        forall|x: int, y: int| set(x) && #[trigger] edge(x, y) ==> part(x, y),
        reaches(edge, a, b),
    ensures
        reaches(part, a, b),
{
    let p = choose|p: Seq<int>| #[trigger] is_path(edge, p) && p[0] == a && p[p.len() - 1] == b;
    assert forall|i: int| 0 <= i < p.len() - 1 implies #[trigger] path_step(part, p, i) by {
        lemma_path_in_closed_set(edge, set, p, i);
        assert(path_step(edge, p, i));
    }
    assert(is_path(part, p));
}

/// Reversing every edge reverses reachability.
pub proof fn lemma_reaches_reverse(
    edge: spec_fn(int, int) -> bool,
    rev: spec_fn(int, int) -> bool,
    a: int,
    b: int,
)
    requires
        forall|x: int, y: int| #[trigger] rev(x, y) ==> edge(y, x),
        reaches(rev, a, b),
    ensures
        reaches(edge, b, a),
{
    let p = choose|p: Seq<int>| #[trigger] is_path(rev, p) && p[0] == a && p[p.len() - 1] == b;
    let q = p.reverse();
    assert forall|i: int| 0 <= i < q.len() - 1 implies #[trigger] path_step(edge, q, i) by {
        let j = p.len() - 2 - i;
        assert(path_step(rev, p, j));
        assert(q[i] == p[j + 1]);
        assert(q[i + 1] == p[j]);
    }
    assert(is_path(edge, q));
}

/// A sequence of distinct values below `k`, each satisfying `p`, has no more
/// entries than there are such values.
pub proof fn lemma_distinct_count(s: Seq<usize>, k: int, p: spec_fn(int) -> bool)
    requires
        s.no_duplicates(),
        0 <= k <= usize::MAX,
        forall|a: int| 0 <= a < s.len() ==> #[trigger] s[a] < k && p(s[a] as int),
    ensures
        s.len() <= count_true(Seq::new(k as nat, p)),
    decreases k,
{
    if k <= 0 {
        if s.len() > 0 {
            assert(s[0] < k);
        }
    } else {
        let whole = Seq::new(k as nat, p);
        let below = Seq::new((k - 1) as nat, p);
        assert(whole.drop_last() =~= below);
        if s.contains((k - 1) as usize) {
            let i = choose|i: int| 0 <= i < s.len() && s[i] == (k - 1) as usize;
            let r = s.remove(i);
            assert forall|a: int| 0 <= a < r.len() implies #[trigger] r[a] < k - 1 && p(r[a] as int) by {
                if a < i {
                    assert(r[a] == s[a]);
                } else {
                    assert(r[a] == s[a + 1]);
                }
            }
            assert(r.no_duplicates()) by {
                assert forall|a: int, b: int| 0 <= a < r.len() && 0 <= b < r.len() && a != b implies r[a] != r[b] by {
                    let ia = if a < i { a } else { a + 1 };
                    let ib = if b < i { b } else { b + 1 };
                    assert(r[a] == s[ia] && r[b] == s[ib]);
                }
            }
            lemma_distinct_count(r, k - 1, p);
            assert(p(s[i] as int));
            assert(whole.last());
        } else {
            assert forall|a: int| 0 <= a < s.len() implies #[trigger] s[a] < k - 1 && p(s[a] as int) by {
                assert(s[a] != (k - 1) as usize);
            }
            lemma_distinct_count(s, k - 1, p);
        }
    }
}

/// Where every entry of `s1` that holds also holds in `s2`, `s1` counts no more.
pub proof fn lemma_count_true_mono(s1: Seq<bool>, s2: Seq<bool>)
    requires
        s1.len() == s2.len(),
        forall|i: int| 0 <= i < s1.len() && #[trigger] s1[i] ==> s2[i],
    ensures
        count_true(s1) <= count_true(s2),
    decreases s1.len(),
{
    if s1.len() > 0 {
        lemma_count_true_mono(s1.drop_last(), s2.drop_last());
    }
}

/// The number of `true` entries.
pub open spec fn count_true(s: Seq<bool>) -> nat
    decreases s.len(),
{
    if s.len() == 0 {
        0
    } else {
        let rest = count_true(s.drop_last());
        if s.last() {
            rest + 1
        } else {
            rest
        }
    }
}

pub proof fn lemma_count_true_bound(s: Seq<bool>)
    ensures
        count_true(s) <= s.len(),
    decreases s.len(),
{
    if s.len() > 0 {
        lemma_count_true_bound(s.drop_last());
    }
}

pub proof fn lemma_count_true_set(s: Seq<bool>, i: int)
    requires
        0 <= i < s.len(),
        !s[i],
    ensures
        count_true(s.update(i, true)) == count_true(s) + 1,
    decreases s.len(),
{
    let t = s.update(i, true);
    if i == s.len() - 1 {
        assert(t.drop_last() =~= s.drop_last());
    } else {
        lemma_count_true_set(s.drop_last(), i);
        assert(t.drop_last() =~= s.drop_last().update(i, true));
    }
}

pub proof fn lemma_count_true_all_false(n: nat)
    ensures
        count_true(Seq::new(n, |i: int| false)) == 0,
    decreases n,
{
    if n > 0 {
        lemma_count_true_all_false((n - 1) as nat);
        assert(Seq::new(n, |i: int| false).drop_last() =~= Seq::new((n - 1) as nat, |i: int| false));
    }
}

/// A `Vec` of `n` copies of `false`.
pub fn falses(n: usize) -> (v: Vec<bool>)
    ensures
        v@ == Seq::new(n as nat, |i: int| false),
{
    let mut v: Vec<bool> = Vec::new();
    for i in 0..n
        invariant
            v@ == Seq::new(i as nat, |k: int| false),
    {
        v.push(false);
    }
    v
}

/// Adjacency lists: there is an edge `x -> y` when `y` is listed under `x`.
pub open spec fn adj_edge(adj: Seq<Vec<usize>>, x: int, y: int) -> bool {
    0 <= x < adj.len() && exists|j: int| 0 <= j < adj[x]@.len() && #[trigger] adj[x]@[j] as int == y
}

/// The edge relation of adjacency lists.
pub open spec fn adj_graph(adj: Seq<Vec<usize>>) -> spec_fn(int, int) -> bool {
    |x: int, y: int| adj_edge(adj, x, y)
}

/// Every listed successor is itself a node.
pub open spec fn adj_wf(adj: Seq<Vec<usize>>) -> bool {
    forall|x: int, j: int| 0 <= x < adj.len() && 0 <= j < adj[x].len() ==> #[trigger] adj[x]@[j] < adj.len()
}

pub proof fn lemma_adj_edge_bound(adj: Seq<Vec<usize>>, x: int, y: int)
    requires
        adj_wf(adj),
        adj_edge(adj, x, y),
    ensures
        0 <= y < adj.len(),
{
    let j = choose|j: int| 0 <= j < adj[x]@.len() && #[trigger] adj[x]@[j] as int == y;
    assert(adj[x]@[j] < adj.len());
}

/// Appending `v` to the list of `x` adds exactly the edge `x -> v`.
pub proof fn lemma_adj_push(adj: Seq<Vec<usize>>, adj2: Seq<Vec<usize>>, x: int, v: usize)
    requires
        0 <= x < adj.len(),
        adj2.len() == adj.len(),
        adj2[x]@ == adj[x]@.push(v),
        forall|z: int| 0 <= z < adj.len() && z != x ==> #[trigger] adj2[z] == adj[z],
    ensures
        forall|a: int, b: int| #[trigger] adj_edge(adj2, a, b) <==> (adj_edge(adj, a, b) || (a == x && b == v as int)),
{
    assert forall|a: int, b: int| #[trigger] adj_edge(adj2, a, b) <==> (adj_edge(adj, a, b) || (a == x && b == v as int)) by {
        if a == x {
            if adj_edge(adj2, a, b) {
                let j = choose|j: int| 0 <= j < adj2[a]@.len() && #[trigger] adj2[a]@[j] as int == b;
                if j < adj[a]@.len() {
                    assert(adj[a]@[j] == adj2[a]@[j]);
                }
            }
            if adj_edge(adj, a, b) {
                let j = choose|j: int| 0 <= j < adj[a]@.len() && #[trigger] adj[a]@[j] as int == b;
                assert(adj2[a]@[j] == adj[a]@[j]);
            }
            if b == v as int {
                assert(adj2[a]@[adj[a]@.len() as int] == v);
            }
        } else if 0 <= a < adj.len() {
            assert(adj2[a] == adj[a]);
        }
    }
}

/// The adjacency lists as sequences.
pub open spec fn lists_view(adj: Seq<Vec<usize>>) -> Seq<Seq<usize>> {
    adj.map_values(|v: Vec<usize>| v@)
}

/// One scan of the successors `succs[k..]` of a node taken off the queue: each
/// not yet seen is marked and queued.
pub open spec fn reach_scan(succs: Seq<usize>, k: int, seen: Seq<bool>, queue: Seq<usize>) -> (Seq<bool>, Seq<usize>)
    decreases succs.len() - k,
{
    if k < 0 || k >= succs.len() {
        (seen, queue)
    } else {
        let t = succs[k];
        if seen[t as int] {
            reach_scan(succs, k + 1, seen, queue)
        } else {
            reach_scan(succs, k + 1, seen.update(t as int, true), queue.push(t))
        }
    }
}

/// Breadth-first search from the queued node at `head` on, one unit of
/// `budget` per node taken off the queue, for at most `fuel` nodes: the nodes
/// seen and the budget left.
pub open spec fn reach_run(adj: Seq<Seq<usize>>, seen: Seq<bool>, queue: Seq<usize>, head: int, budget: nat, fuel: nat) -> (
    Seq<bool>,
    nat,
)
    decreases fuel,
{
    if fuel == 0 || head < 0 || head >= queue.len() || budget == 0 {
        (seen, budget)
    } else {
        let r = reach_scan(adj[queue[head] as int], 0, seen, queue);
        reach_run(adj, r.0, r.1, head + 1, (budget - 1) as nat, (fuel - 1) as nat)
    }
}

/// What [`reach`] gives from `from` with `budget`: the nodes seen and the
/// budget left.
pub open spec fn reach_spec(adj: Seq<Seq<usize>>, from: int, budget: nat) -> (Seq<bool>, nat) {
    let n = adj.len();
    reach_run(adj, Seq::new(n as nat, |i: int| false).update(from, true), seq![from as usize], 0, budget, (2 * n + 1) as nat)
}

/// The nodes reachable from `from` in `adj`, by breadth-first search. One unit of
/// `budget` is spent per node taken off the queue; when it runs out the search
/// stops early, so the result is then only known to hold reachable nodes.
pub fn reach(adj: &Vec<Vec<usize>>, from: usize, budget: &mut usize) -> (seen: Vec<bool>)
    requires
        adj_wf(adj@),
        from < adj.len(),
    ensures
        seen.len() == adj.len(),
        seen[from as int],
        forall|x: int| 0 <= x < seen.len() && #[trigger] seen[x] ==> reaches(adj_graph(adj@), from as int, x),
        *final(budget) <= *old(budget),
        *old(budget) - *final(budget) <= adj.len(),
        *old(budget) - *final(budget) <= count_true(seen@),
        *final(budget) > 0 ==> *old(budget) - *final(budget) == count_true(seen@),
        *final(budget) > 0 ==> forall|x: int| #[trigger] reaches(adj_graph(adj@), from as int, x) ==> 0 <= x < seen.len() && seen[x],
        (seen@, *final(budget) as nat) == reach_spec(lists_view(adj@), from as int, *old(budget) as nat),
{
    let n = adj.len();
    let ghost g = adj_graph(adj@);
    let ghost b0 = *budget;
    let mut seen = falses(n);
    proof {
        lemma_count_true_all_false(n as nat);
        lemma_count_true_set(seen@, from as int);
        lemma_reaches_refl(g, from as int);
    }
    seen.set(from, true);
    let mut queue: Vec<usize> = Vec::new();
    queue.push(from);
    assert forall|x: int| 0 <= x < n && #[trigger] seen[x] implies queue@.contains(x as usize) by {
        assert(x == from);
        assert(queue@[0] == from);
    }
    let mut head: usize = 0;
    let ghost av = lists_view(adj@);
    let ghost mut fuel: nat = (2 * n + 1) as nat;
    assert(queue@ =~= seq![from]);
    while head < queue.len()
        invariant
            av == lists_view(adj@),
            av.len() == n,
            2 * (n - queue.len()) + (queue.len() - head) <= fuel,
            reach_run(av, seen@, queue@, head as int, *budget as nat, fuel) == reach_spec(av, from as int, b0 as nat),
            seen.len() == n,
            n == adj.len(),
            adj_wf(adj@),
            g == adj_graph(adj@),
            head <= queue.len(),
            queue.len() == count_true(seen@),
            queue.len() <= n,
            from < n,
            seen[from as int],
            forall|i: int| 0 <= i < queue.len() ==> #[trigger] queue@[i] < n && seen[queue@[i] as int],
            forall|x: int| 0 <= x < n && #[trigger] seen[x] ==> queue@.contains(x as usize),
            forall|i: int, y: int| 0 <= i < head && #[trigger] adj_edge(adj@, queue@[i] as int, y) ==> 0 <= y < n && seen[y],
            forall|x: int| 0 <= x < n && #[trigger] seen[x] ==> reaches(g, from as int, x),
            b0 - *budget == head,
            *budget <= b0,
        ensures
            *budget == 0 || head == queue.len(),
            reach_run(av, seen@, queue@, head as int, *budget as nat, fuel) == reach_spec(av, from as int, b0 as nat),
            queue.len() == count_true(seen@),
            seen.len() == n,
            n == adj.len(),
            from < n,
            head <= queue.len(),
            queue.len() <= n,
            seen[from as int],
            forall|x: int| 0 <= x < n && #[trigger] seen[x] ==> queue@.contains(x as usize),
            forall|i: int, y: int| 0 <= i < head && #[trigger] adj_edge(adj@, queue@[i] as int, y) ==> 0 <= y < n && seen[y],
            forall|x: int| 0 <= x < n && #[trigger] seen[x] ==> reaches(g, from as int, x),
            b0 - *budget == head,
            *budget <= b0,
        decreases n - head,
    {
        if *budget == 0 {
            break;
        }
        let ghost seen_b = seen@;
        let ghost queue_b = queue@;
        let ghost head_b = head as int;
        let ghost budget_b = *budget as nat;
        *budget = *budget - 1;
        let cur = queue[head];
        head = head + 1;
        let succs = &adj[cur];
        assert(succs@ == av[cur as int]);
        let ghost q0 = queue@;
        for k in 0..succs.len()
            invariant
                seen.len() == n,
                n == adj.len(),
                adj_wf(adj@),
                g == adj_graph(adj@),
                succs == adj@[cur as int],
                cur < n,
                from < n,
                head <= q0.len(),
                seen[cur as int],
                head <= queue.len(),
                head >= 1,
                q0 == queue@.subrange(0, q0.len() as int),
                q0.len() <= queue.len(),
                q0[head - 1] == cur,
                queue.len() == count_true(seen@),
                seen[from as int],
                forall|i: int| 0 <= i < queue.len() ==> #[trigger] queue@[i] < n && seen[queue@[i] as int],
                forall|x: int| 0 <= x < n && #[trigger] seen[x] ==> queue@.contains(x as usize),
                forall|i: int, y: int| 0 <= i < head - 1 && #[trigger] adj_edge(adj@, queue@[i] as int, y) ==> 0 <= y < n && seen[y],
                forall|j: int| 0 <= j < k ==> #[trigger] seen[succs@[j] as int],
                forall|x: int| 0 <= x < n && #[trigger] seen[x] ==> reaches(g, from as int, x),
                reach_scan(succs@, k as int, seen@, queue@) == reach_scan(succs@, 0, seen_b, queue_b),
                queue.len() - q0.len() <= k,
        {
            let next = succs[k];
            assert(adj@[cur as int]@[k as int] < n);
            assert(reach_scan(succs@, k as int, seen@, queue@) == if seen@[next as int] {
                reach_scan(succs@, k + 1, seen@, queue@)
            } else {
                reach_scan(succs@, k + 1, seen@.update(next as int, true), queue@.push(next))
            });
            let ghost qb = queue@;
            let ghost sb = seen@;
            if !seen[next] {
                proof {
                    lemma_count_true_set(seen@, next as int);
                    assert(adj@[cur as int]@[k as int] as int == next as int);
                    assert(adj_edge(adj@, cur as int, next as int));
                    lemma_reaches_step(g, from as int, cur as int, next as int);
                }
                seen.set(next, true);
                queue.push(next);
                assert(queue@[queue.len() - 1] == next);
                assert(seen[from as int]);
                assert forall|x: int| 0 <= x < n && #[trigger] seen[x] implies queue@.contains(x as usize) by {
                    if x != next {
                        assert(sb[x]);
                        assert(qb.contains(x as usize));
                        let i = choose|i: int| 0 <= i < qb.len() && qb[i] == x as usize;
                        assert(queue@[i] == x as usize);
                    }
                }
            }
        }
        proof {
            assert(reach_scan(succs@, succs@.len() as int, seen@, queue@) == (seen@, queue@));
            assert(reach_run(av, seen_b, queue_b, head_b, budget_b, fuel) == reach_run(
                av,
                seen@,
                queue@,
                head as int,
                (budget_b - 1) as nat,
                (fuel - 1) as nat,
            ));
            fuel = (fuel - 1) as nat;
        }
        proof {
            lemma_count_true_bound(seen@);
            assert forall|i: int, y: int| 0 <= i < head && #[trigger] adj_edge(adj@, queue@[i] as int, y) implies 0 <= y < n && seen[y] by {
                lemma_adj_edge_bound(adj@, queue@[i] as int, y);
                if i == head - 1 {
                    assert(q0[i] == cur);
                    assert(queue@[i] == q0[i]);
                    let j = choose|j: int| 0 <= j < adj@[cur as int]@.len() && #[trigger] adj@[cur as int]@[j] as int == y;
                    assert(seen[succs@[j] as int]);
                }
            }
        }
    }
    proof {
        assert(reach_run(av, seen@, queue@, head as int, *budget as nat, fuel) == (seen@, *budget as nat));
        if *budget > 0 {
            let set = |x: int| 0 <= x < n && seen@[x];
            assert forall|x: int, y: int| set(x) && #[trigger] g(x, y) implies set(y) by {
                assert(queue@.contains(x as usize));
                let i = choose|i: int| 0 <= i < queue.len() && queue@[i] == x as usize;
                assert(adj_edge(adj@, queue@[i] as int, y));
                lemma_adj_edge_bound(adj@, x, y);
            }
            assert forall|x: int| #[trigger] reaches(g, from as int, x) implies 0 <= x < seen.len() && seen[x] by {
                lemma_reaches_closed(g, set, from as int, x);
            }
        }
    }
    seen
}

/// Adjacency lists with every edge reversed: `y` lists `x` when `x` lists `y`.
/// Within each list, sources appear in increasing order.
pub fn reverse_adj(adj: &Vec<Vec<usize>>) -> (rev: Vec<Vec<usize>>)
    requires
        adj_wf(adj@),
    ensures
        rev.len() == adj.len(),
        adj_wf(rev@),
        forall|x: int, y: int| #[trigger] adj_edge(rev@, x, y) <==> adj_edge(adj@, y, x),
{
    let n = adj.len();
    let mut rev: Vec<Vec<usize>> = Vec::new();
    for i in 0..n
        invariant
            rev.len() == i,
            forall|x: int| 0 <= x < i ==> #[trigger] rev@[x]@.len() == 0,
    {
        rev.push(Vec::new());
    }
    for s in 0..n
        invariant
            n == adj.len(),
            adj_wf(adj@),
            rev.len() == n,
            forall|x: int, j: int| 0 <= x < n && 0 <= j < rev@[x].len() ==> #[trigger] rev@[x]@[j] < s,
            forall|x: int, y: int| #[trigger] adj_edge(rev@, x, y) <==> (y < s && adj_edge(adj@, y, x)),
    {
        let succs = &adj[s];
        for k in 0..succs.len()
            invariant
                n == adj.len(),
                adj_wf(adj@),
                rev.len() == n,
                s < n,
                succs == adj@[s as int],
                forall|x: int, j: int| 0 <= x < n && 0 <= j < rev@[x].len() ==> #[trigger] rev@[x]@[j] <= s,
                forall|x: int, y: int| #[trigger] adj_edge(rev@, x, y) <==> ((y < s && adj_edge(adj@, y, x)) || (y == s
                    && exists|j: int| 0 <= j < k && #[trigger] succs@[j] as int == x)),
        {
            let t = succs[k];
            assert(adj@[s as int]@[k as int] < n);
            let ghost r0 = rev@;
            rev[t].push(s);
            proof {
                assert forall|x: int| 0 <= x < n && x != t implies #[trigger] rev@[x] == r0[x] by {}
                assert forall|x: int, j: int| 0 <= x < n && 0 <= j < rev@[x].len() implies #[trigger] rev@[x]@[j] <= s by {
                    if x == t && j == r0[x].len() {
                    } else {
                        assert(rev@[x]@[j] == r0[x]@[j]);
                    }
                }
                assert forall|x: int, y: int| #[trigger] adj_edge(rev@, x, y) <==> ((y < s && adj_edge(adj@, y, x)) || (y
                    == s && exists|j: int| 0 <= j < k + 1 && #[trigger] succs@[j] as int == x)) by {
                    if adj_edge(rev@, x, y) {
                        let j = choose|j: int| 0 <= j < rev@[x]@.len() && #[trigger] rev@[x]@[j] as int == y;
                        if x == t && j == r0[x]@.len() {
                            assert(succs@[k as int] as int == x);
                        } else {
                            assert(rev@[x]@[j] == r0[x]@[j]);
                            assert(adj_edge(r0, x, y));
                        }
                    }
                    if (y < s && adj_edge(adj@, y, x)) || (y == s && exists|j: int|
                        0 <= j < k + 1 && #[trigger] succs@[j] as int == x) {
                        if y == s && x == t as int && succs@[k as int] as int == x {
                            assert(rev@[x]@[r0[x]@.len() as int] as int == y);
                        } else {
                            if y == s {
                                let j = choose|j: int| 0 <= j < k + 1 && #[trigger] succs@[j] as int == x;
                                if j == k {
                                    assert(rev@[x]@[r0[x]@.len() as int] as int == y);
                                }
                            }
                            if adj_edge(r0, x, y) {
                                let j = choose|j: int| 0 <= j < r0[x]@.len() && #[trigger] r0[x]@[j] as int == y;
                                assert(rev@[x]@[j] == r0[x]@[j]);
                            }
                        }
                    }
                }
            }
        }
        proof {
            assert forall|x: int, y: int| #[trigger] adj_edge(rev@, x, y) <==> (y < s + 1 && adj_edge(adj@, y, x)) by {
                if y == s && adj_edge(adj@, y, x) {
                    let j = choose|j: int| 0 <= j < adj@[y]@.len() && #[trigger] adj@[y]@[j] as int == x;
                    assert(succs@[j] as int == x);
                }
            }
        }
    }
    proof {
        assert forall|x: int, j: int| 0 <= x < rev@.len() && 0 <= j < rev@[x].len() implies #[trigger] rev@[x]@[j] < rev@.len() by {}
    }
    rev
}

} // verus!
