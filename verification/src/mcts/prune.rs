//! What a node reaches, and the eviction of what the head does not.

use vstd::prelude::*;
use crate::mcts::graph::{
    edge, closed, reaches, echoes, incoming, lemma_incoming, lemma_reaches_self, lemma_reaches_step,
    lemma_reaches_in_graph, lemma_closed_set_holds_reach,
};
use crate::utils::rc_wrapper::HashableRcRefCell;
use crate::mcts::tree::{NodeStore, NodeRef, NodeView, Tree};

verus! {

broadcast use vstd::std_specs::hash::group_hash_axioms;

/// The number of entries of `s` that are not set.
pub open spec fn unmarked(s: Seq<bool>) -> nat
    decreases s.len(),
{
    if s.len() == 0 {
        0
    } else {
        unmarked(s.drop_last()) + if s.last() { 0nat } else { 1nat }
    }
}

/// Setting an entry that was not set leaves one fewer.
pub proof fn lemma_mark(s: Seq<bool>, i: int)
    requires
        0 <= i < s.len(),
        !s[i],
    ensures
        unmarked(s.update(i, true)) + 1 == unmarked(s),
    decreases s.len(),
{
    if i == s.len() - 1 {
        assert(s.update(i, true).drop_last() == s.drop_last());
    } else {
        assert(s.update(i, true).drop_last() == s.drop_last().update(i, true));
        lemma_mark(s.drop_last(), i);
    }
}

impl NodeStore {
    /// The graph of child edges, or of back-references where `up` is set.
    pub open(crate) spec fn graph(&self, up: bool) -> Map<int, Seq<int>> {
        if up {
            self.parent_graph()
        } else {
            self.child_graph()
        }
    }

    /// Both graphs of a store in order are closed.
    pub proof fn lemma_graph_closed(&self, up: bool)
        requires
            self.wf(),
        ensures
            closed(self.graph(up)),
    {
        let g = self.graph(up);
        assert forall|a: int, k: int| g.dom().contains(a) && 0 <= k < g[a].len() implies g.dom().contains(
            #[trigger] g[a][k],
        ) by {
            if up {
                assert(self.arena.sees(self.parent(a, k)));
            } else {
                assert(self.arena.has(self.child(a, k)));
            }
        }
    }

    /// The number of edges that leave the node in slot `u`.
    pub(crate) fn degree(&self, u: usize, up: bool) -> (d: usize)
        requires
            self.is_node(u as int),
        ensures
            d == self.graph(up)[u as int].len(),
    {
        let node = self.arena.slots[u].value.as_ref().unwrap();
        if up {
            node.parents.len()
        } else {
            node.children.len()
        }
    }

    /// The slot that the `k`th edge of the node in slot `u` leads to.
    pub(crate) fn neighbour(&self, u: usize, k: usize, up: bool) -> (v: usize)
        requires
            self.wf(),
            self.is_node(u as int),
            k < self.graph(up)[u as int].len(),
        ensures
            v == self.graph(up)[u as int][k as int],
            self.is_node(v as int),
    {
        let node = self.arena.slots[u].value.as_ref().unwrap();
        if up {
            assert(self.arena.sees(self.parent(u as int, k as int)));
            node.parents[k].slot
        } else {
            assert(self.arena.has(self.child(u as int, k as int)));
            node.children[k].slot
        }
    }

    /// Marks the slots of all nodes that `start` reaches: along child edges,
    /// or along back-references where `up` is set. Each node is entered once,
    /// whatever the number of walks that lead to it.
    pub fn reach(&self, start: &NodeRef, up: bool) -> (marked: Vec<bool>)
        requires
            self.wf(),
            self.contains(*start),
        ensures
            marked.len() == self.slots(),
            forall|i: int|
                0 <= i < marked.len() ==> marked[i] == reaches(self.graph(up), start.index(), i),
    {
        let n = self.arena.slots.len();
        let ghost g = self.graph(up);
        let ghost a = start.index();
        let mut marked: Vec<bool> = Vec::new();
        while marked.len() < n
            invariant
                marked.len() <= n,
                forall|i: int| 0 <= i < marked.len() ==> !marked[i],
            decreases n - marked.len(),
        {
            marked.push(false);
        }
        let mut work: Vec<usize> = Vec::new();
        marked.set(start.slot, true);
        work.push(start.slot);
        proof {
            lemma_reaches_self(g, a);
            self.lemma_graph_closed(up);
            assert(work@[0] == start.slot);
            assert(work@.contains(start.slot));
            assert forall|i: int| 0 <= i < n && marked[i] implies i == a by {}
        }
        while work.len() > 0
            invariant
                self.wf(),
                g == self.graph(up),
                closed(g),
                a == start.index(),
                n == self.arena.size(),
                marked.len() == n,
                marked[a],
                forall|i: int| 0 <= i < n && marked[i] ==> reaches(g, a, i),
                forall|j: int| 0 <= j < work.len() ==> work[j] < n && marked[work[j] as int],
                forall|i: usize, y: int|
                    i < n && marked[i as int] && !work@.contains(i) && #[trigger] edge(g, i as int, y)
                        ==> 0 <= y < n && marked[y],
            decreases unmarked(marked@) + work.len(),
        {
            let ghost before = unmarked(marked@) + work.len();
            let ghost work_before = work@;
            let u = work.pop().unwrap();
            proof {
                lemma_reaches_in_graph(g, a, u as int);
                assert forall|i: usize| i != u && !(#[trigger] work@.contains(i)) implies !work_before.contains(
                    i,
                ) by {
                    if work_before.contains(i) {
                        let j = choose|j: int| 0 <= j < work_before.len() && work_before[j] == i;
                        assert(work@[j] == i);
                    }
                }
            }
            let degree = self.degree(u, up);
            let mut k: usize = 0;
            while k < degree
                invariant
                    self.wf(),
                    g == self.graph(up),
                    closed(g),
                    a == start.index(),
                    n == self.arena.size(),
                    marked.len() == n,
                    marked[a],
                    u < n,
                    marked[u as int],
                    self.is_node(u as int),
                    degree == g[u as int].len(),
                    k <= degree,
                    forall|i: int| 0 <= i < n && marked[i] ==> reaches(g, a, i),
                    forall|j: int| 0 <= j < work.len() ==> work[j] < n && marked[work[j] as int],
                    forall|i: usize, y: int|
                        i < n && marked[i as int] && i != u && !work@.contains(i) && #[trigger] edge(
                            g,
                            i as int,
                            y,
                        ) ==> 0 <= y < n && marked[y],
                    forall|j: int| 0 <= j < k ==> marked[#[trigger] g[u as int][j]],
                    unmarked(marked@) + work.len() + 1 == before,
                decreases degree - k,
            {
                let v = self.neighbour(u, k, up);
                proof {
                    assert(g[u as int][k as int] == v);
                    assert(edge(g, u as int, v as int));
                    lemma_reaches_step(g, a, u as int, v as int);
                }
                if !marked[v] {
                    proof {
                        lemma_mark(marked@, v as int);
                    }
                    let ghost work_old = work@;
                    marked.set(v, true);
                    work.push(v);
                    proof {
                        assert forall|i: usize| !(#[trigger] work@.contains(i)) implies !work_old.contains(
                            i,
                        ) by {
                            if work_old.contains(i) {
                                let j = choose|j: int| 0 <= j < work_old.len() && work_old[j] == i;
                                assert(work@[j] == i);
                            }
                        }
                        assert(work@[work@.len() - 1] == v);
                        assert(work@.contains(v));
                    }
                }
                k = k + 1;
            }
            proof {
                assert forall|i: usize, y: int|
                    i < n && marked[i as int] && !work@.contains(i) && #[trigger] edge(
                        g,
                        i as int,
                        y,
                    ) implies 0 <= y < n && marked[y] by {
                    if i == u {
                        let j = choose|j: int| 0 <= j < g[i as int].len() && g[i as int][j] == y;
                        assert(marked[g[u as int][j]]);
                        assert(g.dom().contains(g[u as int][j]));
                    }
                }
            }
        }
        proof {
            let s = Set::new(|i: int| 0 <= i < n && marked[i]);
            assert forall|i: int| 0 <= i < marked.len() implies marked[i] == reaches(g, a, i) by {
                if reaches(g, a, i) {
                    assert(s.contains(a));
                    assert forall|x: int, y: int| s.contains(x) && edge(g, x, y) implies s.contains(y) by {
                        let xu = x as usize;
                        assert(!work@.contains(xu));
                        assert(edge(g, xu as int, y));
                    }
                    lemma_closed_set_holds_reach(g, s, a, i);
                }
            }
        }
        marked
    }

    /// Takes out every node that is not marked, and the back-references of
    /// every node that is.
    fn sweep(&mut self, marked: &Vec<bool>)
        requires
            old(self).wf(),
            marked.len() == old(self).slots(),
            forall|i: int| 0 <= i < marked.len() && marked[i] ==> old(self).is_node(i),
            forall|i: int, y: int|
                0 <= i < marked.len() && marked[i] && #[trigger] edge(old(self).child_graph(), i, y)
                    ==> 0 <= y < marked.len() && marked[y],
        ensures
            final(self).forward(),
            final(self).slots() == old(self).slots(),
            forall|i: int| 0 <= i < marked.len() ==> (#[trigger] final(self).is_node(i) <==> marked[i]),
            forall|i: int| #[trigger]
                final(self).is_node(i) ==> final(self).arena.generation(i) == old(self).arena.generation(i)
                    && final(self).node(i).same_but_parents(&old(self).node(i)) && final(self).node(
                    i,
                ).parents.len() == 0,
    {
        let n = self.arena.slots.len();
        let ghost before = *self;
        let mut i: usize = 0;
        while i < n
            invariant
                before.wf(),
                n == before.slots(),
                n == self.slots(),
                marked.len() == n,
                i <= n,
                self.arena.wf(),
                forall|j: int| 0 <= j < marked.len() && marked[j] ==> before.is_node(j),
                forall|j: int| 0 <= j < i ==> (#[trigger] self.is_node(j) <==> marked[j]),
                forall|j: int| i <= j < n ==> #[trigger] self.arena.slot(j) == before.arena.slot(j),
                forall|j: int|
                    0 <= j < i && #[trigger] self.is_node(j) ==> self.arena.generation(j)
                        == before.arena.generation(j) && self.node(j).same_but_parents(&before.node(j))
                        && self.node(j).parents.len() == 0,
                forall|id: u64| #[trigger]
                    self.index@.contains_key(id) <==> before.index@.contains_key(id) && (before.index@[id]
                        >= i || marked[before.index@[id] as int]),
                forall|id: u64| #[trigger]
                    self.index@.contains_key(id) ==> self.index@[id] == before.index@[id],
            decreases n - i,
        {
            let ghost here = *self;
            assert(self.arena.slot(i as int) == before.arena.slot(i as int));
            if self.arena.slots[i].value.is_some() {
                assert(before.is_node(i as int));
                let ghost id = before.node(i as int).position.identity();
                assert(before.index@.contains_key(id) && before.index@[id] == i);
                if marked[i] {
                    match &mut self.arena.slots[i].value {
                        Some(node) => {
                            node.parents = Vec::new();
                        },
                        None => {},
                    }
                    proof {
                        assert forall|j: int| i + 1 <= j < n implies #[trigger] self.arena.slot(j)
                            == before.arena.slot(j) by {
                            assert(here.arena.slot(j) == before.arena.slot(j));
                        }
                        assert forall|j: int| 0 <= j < i + 1 implies (#[trigger] self.is_node(j)
                            <==> marked[j]) by {
                            if j < i {
                                assert(here.is_node(j) <==> marked[j]);
                            }
                        }
                        assert forall|j: int| 0 <= j < i + 1 && #[trigger] self.is_node(j) implies self.arena.generation(
                            j,
                        ) == before.arena.generation(j) && self.node(j).same_but_parents(
                            &before.node(j),
                        ) && self.node(j).parents.len() == 0 by {
                            if j < i {
                                assert(here.is_node(j));
                            }
                        }
                    }
                } else {
                    let identity = self.arena.slots[i].value.as_ref().unwrap().position.get_hash();
                    self.index.remove(&identity);
                    let _ = self.arena.remove(i);
                    proof {
                        assert(identity == id);
                        assert forall|j: int| i + 1 <= j < n implies #[trigger] self.arena.slot(j)
                            == before.arena.slot(j) by {
                            assert(here.arena.slot(j) == before.arena.slot(j));
                        }
                        assert forall|j: int| 0 <= j < i + 1 implies (#[trigger] self.is_node(j)
                            <==> marked[j]) by {
                            if j < i {
                                assert(here.is_node(j) <==> marked[j]);
                                assert(self.arena.slot(j) == here.arena.slot(j));
                            }
                        }
                        assert forall|j: int| 0 <= j < i + 1 && #[trigger] self.is_node(j) implies self.arena.generation(
                            j,
                        ) == before.arena.generation(j) && self.node(j).same_but_parents(
                            &before.node(j),
                        ) && self.node(j).parents.len() == 0 by {
                            assert(self.arena.slot(j) == here.arena.slot(j));
                            assert(here.is_node(j));
                        }
                        assert forall|other: u64| #[trigger]
                            self.index@.contains_key(other) <==> before.index@.contains_key(other) && (
                            before.index@[other] >= i + 1 || marked[before.index@[other] as int]) by {
                            if other != id {
                                assert(here.index@.contains_key(other) <==> before.index@.contains_key(
                                    other,
                                ) && (before.index@[other] >= i || marked[before.index@[other] as int]));
                                if before.index@.contains_key(other) && before.index@[other] == i {
                                    assert(before.node(i as int).position.identity() == other);
                                }
                            }
                        }
                    }
                }
            } else {
                proof {
                    assert(!before.is_node(i as int));
                    assert(!marked[i as int]);
                    assert forall|j: int| 0 <= j < i + 1 implies (#[trigger] self.is_node(j)
                        <==> marked[j]) by {}
                    assert forall|other: u64| #[trigger]
                        self.index@.contains_key(other) <==> before.index@.contains_key(other) && (
                        before.index@[other] >= i + 1 || marked[before.index@[other] as int]) by {
                        if before.index@.contains_key(other) && before.index@[other] == i {
                            assert(before.is_node(i as int));
                        }
                    }
                }
            }
            i = i + 1;
        }
        proof {
            assert(self.indexed()) by {
                assert forall|j: int| self.is_node(j) implies self.index@.contains_key(
                    #[trigger] self.node(j).position.identity(),
                ) && self.index@[self.node(j).position.identity()] == j by {
                    let id = before.node(j).position.identity();
                    assert(before.is_node(j));
                    assert(before.index@.contains_key(id) && before.index@[id] == j);
                    assert(self.index@.contains_key(id));
                }
                assert forall|id: u64| #[trigger] self.index@.contains_key(id) implies self.is_node(
                    self.index@[id] as int,
                ) && self.node(self.index@[id] as int).position.identity() == id by {
                    assert(before.index@.contains_key(id));
                    let v = before.index@[id] as int;
                    assert(before.is_node(v));
                    assert(self.is_node(v) <==> marked[v]);
                }
            }
            assert forall|j: int, k: int|
                self.is_node(j) && 0 <= k < self.node(j).children.len() implies self.arena.has(
                #[trigger] self.child(j, k),
            ) by {
                let c = before.child(j, k);
                assert(before.is_node(j));
                assert(self.child(j, k) == c);
                assert(before.arena.has(c));
                assert(before.child_graph()[j][k] == c.index());
                assert(edge(before.child_graph(), j, c.index()));
                assert(self.is_node(c.index()) <==> marked[c.index()]);
            }
            assert forall|j: int| self.is_node(j) implies (#[trigger] self.node(j)).sound() by {
                assert(before.node(j).sound());
            }
        }
    }

    /// Having the same nodes carries over.
    pub proof fn lemma_same_nodes_trans(&self, second: &NodeStore, third: &NodeStore)
        requires
            self.same_nodes(second),
            second.same_nodes(third),
        ensures
            self.same_nodes(third),
    {
        assert forall|i: int| 0 <= i < self.arena.size() implies (self.is_node(i) <==> third.is_node(i))
            && (#[trigger] self.arena.generation(i)) == third.arena.generation(i) by {
            assert(second.is_node(i) <==> third.is_node(i));
        }
    }

    /// Gives every node but the one in slot `root` a back-reference for each
    /// child edge that leads to it.
    fn rebuild(&mut self, root: usize)
        requires
            old(self).forward(),
            forall|i: int| old(self).is_node(i) ==> (#[trigger] old(self).node(i)).parents.len() == 0,
        ensures
            final(self).wf(),
            final(self).same_nodes(old(self)),
            final(self).child_graph() == old(self).child_graph(),
            forall|i: int| #[trigger]
                final(self).is_node(i) ==> final(self).node(i).same_but_parents(&old(self).node(i))
                    && final(self).node(i)@.parents == if i == root {
                    Seq::<int>::empty()
                } else {
                    incoming(old(self).child_graph(), i, old(self).slots())
                },
    {
        let n = self.arena.slots.len();
        let ghost before = *self;
        let ghost g = self.child_graph();
        let mut p: usize = 0;
        proof {
            assert forall|c: int| self.is_node(c) implies (#[trigger] self.node(c))@.parents == if c
                == root {
                Seq::<int>::empty()
            } else {
                incoming(g, c, 0)
            } by {
                assert(self.node(c).parents.len() == 0);
                assert(self.node(c)@.parents =~= Seq::<int>::empty());
            }
        }
        while p < n
            invariant
                before.forward(),
                g == before.child_graph(),
                g == self.child_graph(),
                n == before.slots(),
                p <= n,
                self.forward(),
                self.same_nodes(&before),
                forall|c: int| #[trigger]
                    self.is_node(c) ==> self.node(c).same_but_parents(&before.node(c)),
                forall|c: int|
                    self.is_node(c) ==> (#[trigger] self.node(c))@.parents == if c == root {
                        Seq::<int>::empty()
                    } else {
                        incoming(g, c, p as int)
                    },
                forall|c: int, j: int|
                    self.is_node(c) && 0 <= j < self.node(c).parents.len() ==> self.arena.sees(
                        #[trigger] self.parent(c, j),
                    ),
            decreases n - p,
        {
            if self.arena.slots[p].value.is_some() {
                let degree = self.arena.slots[p].value.as_ref().unwrap().children.len();
                let me = HashableRcRefCell::at(&self.arena, p).downgrade();
                let mut k: usize = 0;
                proof {
                    assert(g[p as int].take(0) =~= Seq::<int>::empty());
                    assert forall|c: int| self.is_node(c) implies (#[trigger] self.node(c))@.parents
                        == if c == root {
                        Seq::<int>::empty()
                    } else {
                        incoming(g, c, p as int) + echoes(g[p as int].take(0), c, p as int)
                    } by {
                        assert(incoming(g, c, p as int) + Seq::<int>::empty() =~= incoming(
                            g,
                            c,
                            p as int,
                        ));
                    }
                }
                while k < degree
                    invariant
                        before.forward(),
                        g == before.child_graph(),
                        g == self.child_graph(),
                        n == before.slots(),
                        p < n,
                        self.is_node(p as int),
                        degree == g[p as int].len(),
                        k <= degree,
                        me.index() == p,
                        self.arena.sees(me),
                        self.forward(),
                        self.same_nodes(&before),
                        forall|c: int| #[trigger]
                            self.is_node(c) ==> self.node(c).same_but_parents(&before.node(c)),
                        forall|c: int|
                            self.is_node(c) ==> (#[trigger] self.node(c))@.parents == if c == root {
                                Seq::<int>::empty()
                            } else {
                                incoming(g, c, p as int) + echoes(
                                    g[p as int].take(k as int),
                                    c,
                                    p as int,
                                )
                            },
                        forall|c: int, j: int|
                            self.is_node(c) && 0 <= j < self.node(c).parents.len() ==> self.arena.sees(
                                #[trigger] self.parent(c, j),
                            ),
                    decreases degree - k,
                {
                    let ghost here = *self;
                    let child = self.arena.slots[p].value.as_ref().unwrap().children[k];
                    proof {
                        assert(child == self.child(p as int, k as int));
                        assert(self.arena.has(child));
                        assert(g[p as int][k as int] == child.index());
                        assert(g[p as int].take(k + 1).drop_last() =~= g[p as int].take(k as int));
                    }
                    if child.slot != root {
                        match &mut self.arena.slots[child.slot].value {
                            Some(node) => {
                                node.parents.push(me);
                            },
                            None => {},
                        }
                    }
                    proof {
                        let t = child.index();
                        assert forall|c: int| 0 <= c < n implies self.is_node(c) == here.is_node(c)
                            && #[trigger] self.arena.generation(c) == here.arena.generation(c) by {}
                        assert forall|c: int| self.is_node(c) && c != t implies self.node(c)
                            == here.node(c) by {}
                        assert(self.same_nodes(&here));
                        self.lemma_same_nodes_trans(&here, &before);
                        assert forall|c: int| #[trigger] self.is_node(c) implies self.node(
                            c,
                        ).same_but_parents(&before.node(c)) by {
                            assert(here.is_node(c));
                        }
                        assert(self.child_graph() =~= g) by {
                            assert forall|c: int| self.is_node(c) implies self.node(c)@.children
                                == here.node(c)@.children by {
                                assert(here.is_node(c));
                                assert(self.node(c)@.children =~= here.node(c)@.children);
                            }
                        }
                        assert forall|c: int| self.is_node(c) implies (#[trigger] self.node(c))@.parents
                            == if c == root {
                            Seq::<int>::empty()
                        } else {
                            incoming(g, c, p as int) + echoes(
                                g[p as int].take(k + 1),
                                c,
                                p as int,
                            )
                        } by {
                            assert(here.is_node(c));
                            let was = incoming(g, c, p as int) + echoes(
                                g[p as int].take(k as int),
                                c,
                                p as int,
                            );
                            if c == t && c != root {
                                assert(self.node(c).parents@ == here.node(c).parents@.push(me));
                                assert(self.node(c)@.parents =~= here.node(c)@.parents.push(p as int));
                                assert(was.push(p as int) =~= incoming(g, c, p as int) + (echoes(
                                    g[p as int].take(k as int),
                                    c,
                                    p as int,
                                ) + seq![p as int]));
                            } else if c != root {
                                assert(self.node(c)@.parents =~= here.node(c)@.parents);
                                assert(echoes(g[p as int].take(k as int), c, p as int) + Seq::<
                                    int,
                                >::empty() =~= echoes(g[p as int].take(k as int), c, p as int));
                            } else {
                                assert(self.node(c)@.parents =~= here.node(c)@.parents);
                            }
                        }
                        assert forall|c: int, j: int|
                            self.is_node(c) && 0 <= j < self.node(c).parents.len() implies self.arena.sees(
                            #[trigger] self.parent(c, j),
                        ) by {
                            assert(here.is_node(c));
                            if j < here.node(c).parents.len() {
                                assert(here.arena.sees(here.parent(c, j)));
                                assert(self.parent(c, j) == here.parent(c, j));
                            } else {
                                assert(self.parent(c, j) == me);
                            }
                        }
                        assert(self.forward()) by {
                            assert(self.indexed()) by {
                                assert forall|c: int| self.is_node(c) implies self.index@.contains_key(
                                    #[trigger] self.node(c).position.identity(),
                                ) && self.index@[self.node(c).position.identity()] == c by {
                                    assert(here.index@.contains_key(here.node(c).position.identity()));
                                }
                                assert forall|id: u64| #[trigger]
                                    self.index@.contains_key(id) implies self.is_node(
                                    self.index@[id] as int,
                                ) && self.node(self.index@[id] as int).position.identity() == id by {
                                    assert(here.index@.contains_key(id));
                                }
                            }
                            assert forall|c: int, j: int|
                                self.is_node(c) && 0 <= j < self.node(c).children.len() implies self.arena.has(
                                #[trigger] self.child(c, j),
                            ) by {
                                assert(here.arena.has(here.child(c, j)));
                            }
                            assert forall|c: int| self.is_node(c) implies (#[trigger] self.node(
                                c,
                            )).sound() by {
                                assert(here.node(c).sound());
                            }
                        }
                    }
                    k = k + 1;
                }
                proof {
                    assert(g[p as int].take(degree as int) =~= g[p as int]);
                }
            }
            p = p + 1;
        }
        proof {
            assert(self.backed()) by {
                assert forall|i: int, k: int|
                    self.is_node(i) && 0 <= k < self.node(i).parents.len() implies edge(
                    self.child_graph(),
                    (#[trigger] self.parent(i, k)).index(),
                    i,
                ) by {
                    let x = self.parent(i, k).index();
                    assert(self.node(i)@.parents[k] == x);
                    assert(i != root);
                    assert(incoming(g, i, n as int).contains(x));
                    lemma_incoming(g, i, n as int);
                }
            }
        }
    }

    /// A store in order holds no reference to what is not in it: whatever a
    /// handle stands for that is not in the store, no node has it for a
    /// child or looks back at it.
    pub proof fn lemma_no_dangling(&self, gone: NodeRef, i: int, k: int)
        requires
            self.wf(),
            !self.contains(gone),
            self.is_node(i),
        ensures
            0 <= k < self.node(i)@.children.len() ==> self.child(i, k) != gone,
            0 <= k < self.node(i)@.parents.len() ==> self.parent(i, k) != gone.weak(),
    {
        if 0 <= k < self.node(i)@.children.len() {
            assert(self.arena.has(self.child(i, k)));
        }
        if 0 <= k < self.node(i)@.parents.len() {
            assert(self.arena.sees(self.parent(i, k)));
        }
    }

    /// Takes out of the store every node that `root` does not reach along
    /// child edges, and leaves no reference to any of them: of the nodes that
    /// stay, the children stay and the back-references are made anew, one for
    /// each child edge among them, none for `root`.
    pub fn evict_unreachable(&mut self, root: &NodeRef)
        requires
            old(self).wf(),
            old(self).contains(*root),
        ensures
            final(self).wf(),
            final(self).contains(*root),
            final(self).slots() == old(self).slots(),
            forall|i: int| #[trigger]
                final(self).is_node(i) <==> old(self).is_node(i) && reaches(
                    old(self).child_graph(),
                    root.index(),
                    i,
                ),
            forall|h: NodeRef| #[trigger]
                final(self).contains(h) <==> old(self).contains(h) && reaches(
                    old(self).child_graph(),
                    root.index(),
                    h.index(),
                ),
            forall|i: int| #[trigger]
                final(self).is_node(i) ==> final(self).node(i).place() == old(self).node(i).place()
                    && final(self)@[i] == (NodeView {
                    parents: if i == root.index() {
                        Seq::<int>::empty()
                    } else {
                        incoming(final(self).child_graph(), i, final(self).slots())
                    },
                    ..old(self)@[i]
                }),
    {
        let ghost before = *self;
        let ghost g = self.child_graph();
        let marked = self.reach(root, false);
        proof {
            before.lemma_graph_closed(false);
            assert forall|i: int| 0 <= i < marked.len() && marked[i] implies before.is_node(i) by {
                lemma_reaches_in_graph(g, root.index(), i);
            }
            assert forall|i: int, y: int|
                0 <= i < marked.len() && marked[i] && #[trigger] edge(g, i, y) implies 0 <= y
                < marked.len() && marked[y] by {
                lemma_reaches_step(g, root.index(), i, y);
                lemma_reaches_in_graph(g, root.index(), y);
            }
            lemma_reaches_self(g, root.index());
        }
        self.sweep(&marked);
        let ghost swept = *self;
        self.rebuild(root.slot);
        proof {
            assert forall|i: int| #[trigger] self.is_node(i) <==> before.is_node(i) && reaches(
                g,
                root.index(),
                i,
            ) by {
                if 0 <= i < marked.len() {
                    assert(swept.is_node(i) <==> marked[i]);
                    assert(self.arena.generation(i) == swept.arena.generation(i));
                }
                if reaches(g, root.index(), i) {
                    lemma_reaches_in_graph(g, root.index(), i);
                }
            }
            assert forall|i: int| self.is_node(i) implies self.arena.generation(i)
                == before.arena.generation(i) && self.node(i).same_but_parents(&before.node(i)) by {
                assert(self.arena.generation(i) == swept.arena.generation(i));
                assert(swept.is_node(i));
            }
            assert forall|h: NodeRef| #[trigger] self.contains(h) <==> before.contains(h) && reaches(
                g,
                root.index(),
                h.index(),
            ) by {
                if self.contains(h) {
                    assert(self.is_node(h.index()));
                }
                if before.contains(h) && reaches(g, root.index(), h.index()) {
                    assert(self.is_node(h.index()));
                }
            }
            assert forall|i: int| #[trigger] self.is_node(i) implies self.node(i).place()
                == before.node(i).place() && self@[i] == (NodeView {
                parents: if i == root.index() {
                    Seq::<int>::empty()
                } else {
                    incoming(self.child_graph(), i, self.slots())
                },
                ..before@[i]
            }) by {
                assert(swept.is_node(i));
                assert(self.node(i).same_but_parents(&swept.node(i)));
                assert(swept.node(i).same_but_parents(&before.node(i)));
            }
        }
    }
}

impl Tree {
    /// Marks the slots of all nodes that `start` reaches: along child edges,
    /// or along back-references where `up` is set.
    pub fn reach(&self, start: &NodeRef, up: bool) -> (marked: Vec<bool>)
        requires
            self.wf(),
            self.store().contains(*start),
        ensures
            marked.len() == self.store().slots(),
            forall|i: int|
                0 <= i < marked.len() ==> marked[i] == reaches(
                    self.store().graph(up),
                    start.index(),
                    i,
                ),
    {
        self.nodes.reach(start, up)
    }
}

} // verus!
