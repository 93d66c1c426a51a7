//! Reachability over a directed graph given as adjacency lists.

use vstd::prelude::*;

verus! {

/// `a -> b` is an edge of the graph.
pub open spec fn edge(adj: Seq<Seq<usize>>, a: usize, b: usize) -> bool {
    a < adj.len() && adj[a as int].contains(b)
}

/// The `i`-th step of `p` is an edge.
pub open spec fn step(adj: Seq<Seq<usize>>, p: Seq<usize>, i: int) -> bool {
    edge(adj, p[i], p[i + 1])
}

/// `p` is a walk of one or more edges.
pub open spec fn is_path(adj: Seq<Seq<usize>>, p: Seq<usize>) -> bool {
    p.len() >= 2 && forall|i: int| 0 <= i < p.len() - 1 ==> #[trigger] step(adj, p, i)
}

/// `b` can be reached from `a` over one or more edges.
pub open spec fn reaches(adj: Seq<Seq<usize>>, a: usize, b: usize) -> bool {
    exists|p: Seq<usize>| #[trigger] is_path(adj, p) && p[0] == a && p.last() == b
}

/// `b` is `a` or can be reached from it.
pub open spec fn reaches_or_is(adj: Seq<Seq<usize>>, a: usize, b: usize) -> bool {
    a == b || reaches(adj, a, b)
}

/// No node can reach itself.
pub open spec fn acyclic(adj: Seq<Seq<usize>>) -> bool {
    forall|v: usize| !#[trigger] reaches(adj, v, v)
}

/// Every edge leads to a node of the graph.
pub open spec fn closed_targets(adj: Seq<Seq<usize>>) -> bool {
    forall|a: int, k: int| 0 <= a < adj.len() && 0 <= k < adj[a].len() ==> #[trigger] adj[a][k] < adj.len()
}

/// The graph with the edge `w -> l` appended to `w`'s list.
pub open spec fn with_edge(adj: Seq<Seq<usize>>, w: usize, l: usize) -> Seq<Seq<usize>> {
    adj.update(w as int, adj[w as int].push(l))
}

pub proof fn lemma_edge_with_edge(adj: Seq<Seq<usize>>, w: usize, l: usize, a: usize, b: usize)
    requires
        w < adj.len(),
    ensures
        edge(with_edge(adj, w, l), a, b) <==> (edge(adj, a, b) || (a == w && b == l)),
{
    let adj2 = with_edge(adj, w, l);
    if a == w {
        assert(adj2[a as int] == adj[a as int].push(l));
        if adj[a as int].contains(b) {
            let k = choose|k: int| 0 <= k < adj[a as int].len() && adj[a as int][k] == b;
            assert(adj2[a as int][k] == b);
        }
        if adj2[a as int].contains(b) {
            let k = choose|k: int| 0 <= k < adj2[a as int].len() && adj2[a as int][k] == b;
            if k < adj[a as int].len() {
                assert(adj[a as int][k] == b);
            }
        }
        if b == l {
            assert(adj2[a as int][adj[a as int].len() as int] == l);
        }
    }
}

pub proof fn lemma_edge_reaches(adj: Seq<Seq<usize>>, a: usize, b: usize)
    requires
        edge(adj, a, b),
    ensures
        reaches(adj, a, b),
{
    let p = seq![a, b];
    assert(step(adj, p, 0));
    assert(is_path(adj, p));
}

/// Paths compose.
pub proof fn lemma_reaches_trans(adj: Seq<Seq<usize>>, a: usize, m: usize, b: usize)
    requires
        reaches(adj, a, m),
        reaches(adj, m, b),
    ensures
        reaches(adj, a, b),
{
    let p1 = choose|p: Seq<usize>| #[trigger] is_path(adj, p) && p[0] == a && p.last() == m;
    let p2 = choose|p: Seq<usize>| #[trigger] is_path(adj, p) && p[0] == m && p.last() == b;
    let q = p1 + p2.subrange(1, p2.len() as int);
    assert forall|i: int| 0 <= i < q.len() - 1 implies #[trigger] step(adj, q, i) by {
        if i < p1.len() - 1 {
            assert(step(adj, p1, i));
        } else if i == p1.len() - 1 {
            assert(step(adj, p2, 0));
        } else {
            let j = i - p1.len() + 1;
            assert(step(adj, p2, j));
        }
    }
    assert(is_path(adj, q));
}

/// Adding an edge keeps every path.
pub proof fn lemma_reaches_grow(adj: Seq<Seq<usize>>, w: usize, l: usize, a: usize, b: usize)
    requires
        w < adj.len(),
        reaches(adj, a, b),
    ensures
        reaches(with_edge(adj, w, l), a, b),
{
    let adj2 = with_edge(adj, w, l);
    let p = choose|p: Seq<usize>| #[trigger] is_path(adj, p) && p[0] == a && p.last() == b;
    assert forall|i: int| 0 <= i < p.len() - 1 implies #[trigger] step(adj2, p, i) by {
        assert(step(adj, p, i));
        lemma_edge_with_edge(adj, w, l, p[i], p[i + 1]);
    }
    assert(is_path(adj2, p));
}

/// A walk in the graph with `w -> l` added is an old path, or it runs
/// from `a` to `w`, over the new edge, and from `l` to `b`.
pub proof fn lemma_path_split(adj: Seq<Seq<usize>>, w: usize, l: usize, p: Seq<usize>)
    requires
        w < adj.len(),
        is_path(with_edge(adj, w, l), p),
    ensures
        reaches(adj, p[0], p.last()) || (reaches_or_is(adj, p[0], w) && reaches_or_is(adj, l, p.last())),
    decreases p.len(),
{
    let adj2 = with_edge(adj, w, l);
    let a = p[0];
    let m = p[1];
    let b = p.last();
    assert(step(adj2, p, 0));
    lemma_edge_with_edge(adj, w, l, a, m);
    if edge(adj, a, m) {
        lemma_edge_reaches(adj, a, m);
    }
    if p.len() > 2 {
        let rest = p.subrange(1, p.len() as int);
        assert forall|i: int| 0 <= i < rest.len() - 1 implies #[trigger] step(adj2, rest, i) by {
            assert(step(adj2, p, i + 1));
        }
        assert(is_path(adj2, rest));
        lemma_path_split(adj, w, l, rest);
        if edge(adj, a, m) {
            if reaches(adj, m, b) {
                lemma_reaches_trans(adj, a, m, b);
            } else if m != w {
                lemma_reaches_trans(adj, a, m, w);
            }
        }
    }
}

/// Adding `w -> l` to an acyclic graph closes a cycle through `w` exactly when
/// `w` is `l` or can already be reached from `l`; otherwise the graph stays acyclic.
pub proof fn lemma_new_cycle(adj: Seq<Seq<usize>>, w: usize, l: usize)
    requires
        w < adj.len(),
        acyclic(adj),
    ensures
        reaches(with_edge(adj, w, l), w, w) <==> reaches_or_is(adj, l, w),
        !reaches_or_is(adj, l, w) ==> acyclic(with_edge(adj, w, l)),
{
    let adj2 = with_edge(adj, w, l);
    if reaches(adj2, w, w) {
        let p = choose|p: Seq<usize>| #[trigger] is_path(adj2, p) && p[0] == w && p.last() == w;
        lemma_path_split(adj, w, l, p);
    }
    if reaches_or_is(adj, l, w) {
        lemma_edge_with_edge(adj, w, l, w, l);
        lemma_edge_reaches(adj2, w, l);
        if l != w {
            lemma_reaches_grow(adj, w, l, l, w);
            lemma_reaches_trans(adj2, w, l, w);
        }
    }
    if !reaches_or_is(adj, l, w) {
        assert forall|v: usize| !#[trigger] reaches(adj2, v, v) by {
            if reaches(adj2, v, v) {
                let p = choose|p: Seq<usize>| #[trigger] is_path(adj2, p) && p[0] == v && p.last() == v;
                lemma_path_split(adj, w, l, p);
                assert(!reaches(adj, v, v));
                if v != w && v != l {
                    lemma_reaches_trans(adj, l, v, w);
                }
            }
        }
    }
}

/// A set of nodes that holds every successor of `s`, and every successor of
/// each of its members, holds every node that `s` reaches.
pub proof fn lemma_closed_set_holds_reach(adj: Seq<Seq<usize>>, s: usize, seen: Seq<bool>, p: Seq<usize>)
    requires
        seen.len() == adj.len(),
        forall|x: usize| #[trigger] edge(adj, s, x) ==> x < seen.len() && seen[x as int],
        forall|y: usize, x: usize| y < seen.len() && seen[y as int] && #[trigger] edge(adj, y, x) ==> x < seen.len() && seen[x as int],
        p[0] == s || (p[0] < seen.len() && seen[p[0] as int]),
        is_path(adj, p),
    ensures
        p.last() < seen.len() && seen[p.last() as int],
    decreases p.len(),
{
    assert(step(adj, p, 0));
    if p.len() > 2 {
        let rest = p.subrange(1, p.len() as int);
        assert forall|i: int| 0 <= i < rest.len() - 1 implies #[trigger] step(adj, rest, i) by {
            assert(step(adj, p, i + 1));
        }
        lemma_closed_set_holds_reach(adj, s, seen, rest);
    }
}


/// A node without edges added to the graph changes no reachability.
pub proof fn lemma_add_node(adj: Seq<Seq<usize>>, a: usize, b: usize)
    requires
        reaches(adj.push(Seq::empty()), a, b),
    ensures
        reaches(adj, a, b),
{
    let adj2 = adj.push(Seq::empty());
    let p = choose|p: Seq<usize>| #[trigger] is_path(adj2, p) && p[0] == a && p.last() == b;
    assert forall|i: int| 0 <= i < p.len() - 1 implies #[trigger] step(adj, p, i) by {
        assert(step(adj2, p, i));
        let x = p[i];
        if x as int == adj.len() {
            assert(adj2[x as int] == Seq::<usize>::empty());
        } else {
            assert(adj2[x as int] == adj[x as int]);
        }
    }
    assert(is_path(adj, p));
}

pub proof fn lemma_add_node_acyclic(adj: Seq<Seq<usize>>)
    requires
        acyclic(adj),
        closed_targets(adj),
    ensures
        acyclic(adj.push(Seq::empty())),
        closed_targets(adj.push(Seq::empty())),
{
    let adj2 = adj.push(Seq::empty());
    assert forall|v: usize| !#[trigger] reaches(adj2, v, v) by {
        if reaches(adj2, v, v) {
            lemma_add_node(adj, v, v);
        }
    }
    assert forall|a: int, k: int| 0 <= a < adj2.len() && 0 <= k < adj2[a].len() implies #[trigger] adj2[a][k] < adj2.len() by {
        assert(a < adj.len());
        assert(adj2[a] == adj[a]);
        assert(adj[a][k] < adj.len());
    }
}


pub proof fn lemma_with_edge_closed(adj: Seq<Seq<usize>>, w: usize, l: usize)
    requires
        closed_targets(adj),
        w < adj.len(),
        l < adj.len(),
    ensures
        closed_targets(with_edge(adj, w, l)),
        with_edge(adj, w, l).len() == adj.len(),
{
    let adj2 = with_edge(adj, w, l);
    assert forall|a: int, k: int| 0 <= a < adj2.len() && 0 <= k < adj2[a].len() implies #[trigger] adj2[a][k] < adj2.len() by {
        if a != w as int || k < adj[a].len() {
            assert(adj2[a][k] == adj[a][k]);
        }
    }
}

/// Two graphs over the same nodes with the same edges.
pub open spec fn same_edges(a: Seq<Seq<usize>>, b: Seq<Seq<usize>>) -> bool {
    a.len() == b.len() && forall|x: usize, y: usize| #[trigger] edge(a, x, y) == #[trigger] edge(b, x, y)
}

/// Reachability depends on the edges alone.
pub proof fn lemma_same_edges_reach(a: Seq<Seq<usize>>, b: Seq<Seq<usize>>, x: usize, y: usize)
    requires
        same_edges(a, b),
    ensures
        reaches(a, x, y) == reaches(b, x, y),
{
    if reaches(a, x, y) {
        let p = choose|p: Seq<usize>| #[trigger] is_path(a, p) && p[0] == x && p.last() == y;
        assert forall|i: int| 0 <= i < p.len() - 1 implies #[trigger] step(b, p, i) by {
            assert(step(a, p, i));
            assert(edge(a, p[i], p[i + 1]) == edge(b, p[i], p[i + 1]));
        }
        assert(is_path(b, p));
    }
    if reaches(b, x, y) {
        let p = choose|p: Seq<usize>| #[trigger] is_path(b, p) && p[0] == x && p.last() == y;
        assert forall|i: int| 0 <= i < p.len() - 1 implies #[trigger] step(a, p, i) by {
            assert(step(b, p, i));
            assert(edge(a, p[i], p[i + 1]) == edge(b, p[i], p[i + 1]));
        }
        assert(is_path(a, p));
    }
}


/// Every edge of `a` is an edge of `b`.
pub open spec fn edges_within(a: Seq<Seq<usize>>, b: Seq<Seq<usize>>) -> bool {
    forall|x: usize, y: usize| #[trigger] edge(a, x, y) ==> edge(b, x, y)
}

/// More edges reach at least as far.
pub proof fn lemma_reaches_within(a: Seq<Seq<usize>>, b: Seq<Seq<usize>>, x: usize, y: usize)
    requires
        edges_within(a, b),
        reaches(a, x, y),
    ensures
        reaches(b, x, y),
{
    let p = choose|p: Seq<usize>| #[trigger] is_path(a, p) && p[0] == x && p.last() == y;
    assert forall|i: int| 0 <= i < p.len() - 1 implies #[trigger] step(b, p, i) by {
        assert(step(a, p, i));
    }
    assert(is_path(b, p));
}

} // verus!
