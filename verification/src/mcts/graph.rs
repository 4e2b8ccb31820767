//! Walks in a directed graph.
//!
//! A graph is a map from each of its nodes to the list of nodes that its
//! edges lead to. One node reaches another where a walk along edges leads
//! from the first to the second; the walk of a single node counts.

use vstd::prelude::*;

verus! {

/// An edge leads from `a` to `b`.
pub open spec fn edge(g: Map<int, Seq<int>>, a: int, b: int) -> bool {
    g.dom().contains(a) && g[a].contains(b)
}

/// Every edge ends in a node of the graph.
pub open spec fn closed(g: Map<int, Seq<int>>) -> bool {
    forall|a: int, k: int|
        g.dom().contains(a) && 0 <= k < g[a].len() ==> g.dom().contains(#[trigger] g[a][k])
}

/// `p` names nodes of which each is joined to the next by an edge.
pub open spec fn is_walk(g: Map<int, Seq<int>>, p: Seq<int>) -> bool {
    &&& p.len() > 0
    &&& g.dom().contains(p[0])
    &&& forall|k: int| 0 <= k < p.len() - 1 ==> edge(g, #[trigger] p[k], p[k + 1])
}

/// A walk leads from `a` to `b`.
pub open spec fn reaches(g: Map<int, Seq<int>>, a: int, b: int) -> bool {
    exists|p: Seq<int>| is_walk(g, p) && p[0] == a && p.last() == b
}

/// Every node reaches itself.
pub proof fn lemma_reaches_self(g: Map<int, Seq<int>>, a: int)
    requires
        g.dom().contains(a),
    ensures
        reaches(g, a, a),
{
    let p = seq![a];
    assert(is_walk(g, p));
    assert(p[0] == a && p.last() == a);
}

/// A walk goes on along an edge.
pub proof fn lemma_reaches_step(g: Map<int, Seq<int>>, a: int, b: int, c: int)
    requires
        reaches(g, a, b),
        edge(g, b, c),
    ensures
        reaches(g, a, c),
{
    let p = choose|p: Seq<int>| is_walk(g, p) && p[0] == a && p.last() == b;
    let q = p.push(c);
    assert forall|k: int| 0 <= k < q.len() - 1 implies edge(g, #[trigger] q[k], q[k + 1]) by {
        if k < p.len() - 1 {
            assert(edge(g, p[k], p[k + 1]));
        }
    }
    assert(is_walk(g, q));
    assert(q[0] == a && q.last() == c);
}

/// What a node reaches is a node of the graph, where the graph is closed.
pub proof fn lemma_reaches_in_graph(g: Map<int, Seq<int>>, a: int, b: int)
    requires
        closed(g),
        reaches(g, a, b),
    ensures
        g.dom().contains(a),
        g.dom().contains(b),
{
    let p = choose|p: Seq<int>| is_walk(g, p) && p[0] == a && p.last() == b;
    if p.len() > 1 {
        let k = p.len() - 2;
        assert(edge(g, p[k], p[k + 1]));
        let j = choose|j: int| 0 <= j < g[p[k]].len() && g[p[k]][j] == p[k + 1];
        assert(g.dom().contains(g[p[k]][j]));
    }
}

proof fn lemma_walk_stays(g: Map<int, Seq<int>>, s: Set<int>, p: Seq<int>, k: int)
    requires
        is_walk(g, p),
        s.contains(p[0]),
        forall|x: int, y: int| s.contains(x) && edge(g, x, y) ==> s.contains(y),
        0 <= k < p.len(),
    ensures
        s.contains(p[k]),
    decreases k,
{
    if k > 0 {
        lemma_walk_stays(g, s, p, k - 1);
        assert(edge(g, p[k - 1], p[k - 1 + 1]));
    }
}

/// A set that holds `a` and, with a node, all that its edges lead to, holds
/// all that `a` reaches.
pub proof fn lemma_closed_set_holds_reach(g: Map<int, Seq<int>>, s: Set<int>, a: int, b: int)
    requires
        s.contains(a),
        forall|x: int, y: int| s.contains(x) && edge(g, x, y) ==> s.contains(y),
        reaches(g, a, b),
    ensures
        s.contains(b),
{
    let p = choose|p: Seq<int>| is_walk(g, p) && p[0] == a && p.last() == b;
    lemma_walk_stays(g, s, p, p.len() - 1);
}

/// Every node of a walk is reached from its first.
pub proof fn lemma_walk_prefix(g: Map<int, Seq<int>>, p: Seq<int>, k: int)
    requires
        is_walk(g, p),
        0 <= k < p.len(),
    ensures
        reaches(g, p[0], p[k]),
{
    let q = p.take(k + 1);
    assert forall|j: int| 0 <= j < q.len() - 1 implies edge(g, #[trigger] q[j], q[j + 1]) by {
        assert(edge(g, p[j], p[j + 1]));
    }
    assert(is_walk(g, q));
    assert(q[0] == p[0] && q.last() == p[k]);
}

/// Reaching is transitive.
pub proof fn lemma_reaches_trans(g: Map<int, Seq<int>>, a: int, b: int, c: int)
    requires
        reaches(g, a, b),
        reaches(g, b, c),
    ensures
        reaches(g, a, c),
{
    let s = Set::new(|x: int| reaches(g, a, x));
    assert forall|x: int, y: int| s.contains(x) && edge(g, x, y) implies s.contains(y) by {
        lemma_reaches_step(g, a, x, y);
    }
    lemma_closed_set_holds_reach(g, s, b, c);
}

/// What `a` reaches in `g` it reaches in `h`, where `h` has the nodes that
/// `a` reaches in `g` with the same edges.
pub proof fn lemma_reaches_transfer(g: Map<int, Seq<int>>, h: Map<int, Seq<int>>, a: int, b: int)
    requires
        reaches(g, a, b),
        forall|x: int| #[trigger] reaches(g, a, x) ==> h.dom().contains(x) && h[x] == g[x],
    ensures
        reaches(h, a, b),
{
    let p = choose|p: Seq<int>| is_walk(g, p) && p[0] == a && p.last() == b;
    lemma_walk_prefix(g, p, 0);
    assert forall|k: int| 0 <= k < p.len() - 1 implies edge(h, #[trigger] p[k], p[k + 1]) by {
        lemma_walk_prefix(g, p, k);
        assert(edge(g, p[k], p[k + 1]));
    }
    assert(is_walk(h, p));
}

/// What `a` reaches in `g` it reaches in `h`, where `h` has the nodes and
/// the edges of `g`, and maybe more.
pub proof fn lemma_reaches_grow(g: Map<int, Seq<int>>, h: Map<int, Seq<int>>, a: int, b: int)
    requires
        reaches(g, a, b),
        forall|x: int, y: int| edge(g, x, y) ==> edge(h, x, y),
        forall|x: int| g.dom().contains(x) ==> h.dom().contains(x),
    ensures
        reaches(h, a, b),
{
    let p = choose|p: Seq<int>| is_walk(g, p) && p[0] == a && p.last() == b;
    assert forall|k: int| 0 <= k < p.len() - 1 implies edge(h, #[trigger] p[k], p[k + 1]) by {
        assert(edge(g, p[k], p[k + 1]));
    }
    assert(is_walk(h, p));
}

/// `p`, once for each time `c` stands in `s`.
pub open spec fn echoes(s: Seq<int>, c: int, p: int) -> Seq<int>
    decreases s.len(),
{
    if s.len() == 0 {
        Seq::empty()
    } else {
        echoes(s.drop_last(), c, p) + if s.last() == c {
            seq![p]
        } else {
            Seq::empty()
        }
    }
}

/// The nodes below `n` from which an edge leads to `c`, in rising order, each
/// once for each such edge.
pub open spec fn incoming(g: Map<int, Seq<int>>, c: int, n: int) -> Seq<int>
    decreases n,
{
    if n <= 0 {
        Seq::empty()
    } else {
        incoming(g, c, n - 1) + if g.dom().contains(n - 1) {
            echoes(g[n - 1], c, n - 1)
        } else {
            Seq::empty()
        }
    }
}

/// `echoes` holds `p` and nothing else, and holds it where `c` stands in `s`.
pub proof fn lemma_echoes(s: Seq<int>, c: int, p: int)
    ensures
        forall|x: int| #[trigger] echoes(s, c, p).contains(x) ==> x == p,
        echoes(s, c, p).len() > 0 <==> s.contains(c),
    decreases s.len(),
{
    if s.len() > 0 {
        lemma_echoes(s.drop_last(), c, p);
        let e = echoes(s.drop_last(), c, p);
        let t: Seq<int> = if s.last() == c {
            seq![p]
        } else {
            Seq::empty()
        };
        assert forall|x: int| echoes(s, c, p).contains(x) implies x == p by {
            let j = choose|j: int| 0 <= j < (e + t).len() && (e + t)[j] == x;
            if j < e.len() {
                assert(e[j] == x);
                assert(e.contains(x));
            }
        }
        if s.contains(c) {
            let j = choose|j: int| 0 <= j < s.len() && s[j] == c;
            if j < s.len() - 1 {
                assert(s.drop_last()[j] == c);
                assert(s.drop_last().contains(c));
            }
        }
        if s.drop_last().contains(c) {
            let j = choose|j: int| 0 <= j < s.drop_last().len() && s.drop_last()[j] == c;
            assert(s[j] == c);
        }
        if s.last() == c {
            assert(s[s.len() - 1] == c);
        }
    }
}

/// `incoming` holds the sources of the edges into `c`, and nothing else.
pub proof fn lemma_incoming(g: Map<int, Seq<int>>, c: int, n: int)
    ensures
        forall|x: int| #[trigger] incoming(g, c, n).contains(x) ==> 0 <= x < n && edge(g, x, c),
        forall|x: int| 0 <= x < n && #[trigger] edge(g, x, c) ==> incoming(g, c, n).contains(x),
    decreases n,
{
    if n > 0 {
        lemma_incoming(g, c, n - 1);
        let before = incoming(g, c, n - 1);
        let last: Seq<int> = if g.dom().contains(n - 1) {
            echoes(g[n - 1], c, n - 1)
        } else {
            Seq::empty()
        };
        if g.dom().contains(n - 1) {
            lemma_echoes(g[n - 1], c, n - 1);
        }
        let all = incoming(g, c, n);
        assert(all == before + last);
        assert forall|x: int| all.contains(x) implies 0 <= x < n && edge(g, x, c) by {
            let j = choose|j: int| 0 <= j < all.len() && all[j] == x;
            if j < before.len() {
                assert(before[j] == x);
                assert(before.contains(x));
            } else {
                assert(last[j - before.len()] == x);
                assert(echoes(g[n - 1], c, n - 1).contains(x));
            }
        }
        assert forall|x: int| 0 <= x < n && edge(g, x, c) implies all.contains(x) by {
            if x < n - 1 {
                assert(before.contains(x));
                let j = choose|j: int| 0 <= j < before.len() && before[j] == x;
                assert(all[j] == x);
            } else {
                assert(last.len() > 0);
                assert(last.contains(last[0]));
                assert(all[before.len() as int] == last[0]);
            }
        }
    } else {
        assert(incoming(g, c, n).len() == 0);
    }
}

} // verus!
