//! What a playout leaves behind: one visit, and White's share of the point,
//! at the node it started from and at every node that looks down on it.
//!
//! A node that is reached along more than one line of back-references is
//! still counted once for one playout.

use vstd::prelude::*;
use crate::mcts::graph::{
    edge, is_walk, reaches, lemma_reaches_in_graph, lemma_reaches_self, lemma_reaches_step,
    lemma_reaches_trans,
};
use crate::mcts::policy::SelectionPolicy;
use crate::mcts::score::VISIT_LIMIT;
use crate::mcts::tree::{NodeStore, WNodeRef, NodeView, Tree, score_of};
use crate::rules::{BoardStatus, Color, rules_identity, rules_apply};

verus! {

/// The visits of a node after one more playout.
pub open spec fn bumped(visits: nat) -> nat {
    if visits < VISIT_LIMIT {
        visits + 1
    } else {
        visits
    }
}

/// White's half points at a node after one more playout that earned White
/// `credit` of them.
pub open spec fn credited(white_wins: nat, visits: nat, credit: nat) -> nat {
    if visits < VISIT_LIMIT {
        white_wins + credit
    } else {
        white_wins
    }
}

/// The half points that a playout earns White: two where Black is mated, none
/// where White is, and one where nobody is.
pub open spec fn credit_of(status: BoardStatus, to_move: Color) -> nat {
    match status {
        BoardStatus::Checkmate => match to_move {
            Color::Black => 2,
            Color::White => 0,
        },
        _ => 1,
    }
}

/// The half points that a playout earns White.
pub fn credit(status: BoardStatus, to_move: Color) -> (c: u64)
    ensures
        c == credit_of(status, to_move),
        c <= 2,
{
    match status {
        BoardStatus::Checkmate => match to_move {
            Color::Black => 2,
            Color::White => 0,
        },
        _ => 1,
    }
}

impl NodeStore {
    /// The visits of the node in slot `q` after a playout through the nodes
    /// in `touched`.
    pub open(crate) spec fn visits_after(&self, touched: Set<int>, q: int) -> nat {
        if touched.contains(q) {
            bumped(self.node(q)@.visits)
        } else {
            self.node(q)@.visits
        }
    }

    /// The visits, after such a playout, of the nodes in the slots `ps`,
    /// added up.
    pub open(crate) spec fn visit_sum_after(&self, touched: Set<int>, ps: Seq<int>) -> nat
        decreases ps.len(),
    {
        if ps.len() == 0 {
            0
        } else {
            self.visit_sum_after(touched, ps.drop_last()) + self.visits_after(touched, ps.last())
        }
    }

    /// That sum, as far as it can be counted.
    pub open(crate) spec fn weight_after(&self, touched: Set<int>, ps: Seq<int>) -> u64 {
        if self.visit_sum_after(touched, ps) > u64::MAX {
            u64::MAX
        } else {
            self.visit_sum_after(touched, ps) as u64
        }
    }

    /// The node in slot `i` after a playout through the nodes in `touched`,
    /// itself among them, that earned White `credit` half points.
    pub open(crate) spec fn updated(&self, touched: Set<int>, i: int, credit: nat) -> NodeView {
        let n = self.node(i)@;
        NodeView {
            visits: bumped(n.visits),
            white_wins: credited(n.white_wins, n.visits, credit),
            score: score_of(
                credited(n.white_wins, n.visits, credit),
                bumped(n.visits),
                self.weight_after(touched, n.parents) as nat,
                n.side,
            ),
            ..n
        }
    }

    /// A store that has the nodes of one in order, each joined as it was
    /// there and sound, is in order, with the same two graphs.
    pub(crate) proof fn lemma_same_links(&self, prev: &NodeStore)
        requires
            prev.wf(),
            self.same_nodes(prev),
            self.arena.free@ == prev.arena.free@,
            forall|i: int| #[trigger]
                self.is_node(i) ==> self.node(i).same_links(&prev.node(i)) && self.node(i).sound(),
        ensures
            self.wf(),
            self.child_graph() == prev.child_graph(),
            self.parent_graph() == prev.parent_graph(),
    {
        assert forall|i: int| self.is_node(i) implies self.node(i)@.children == prev.node(i)@.children
            && self.node(i)@.parents == prev.node(i)@.parents by {
            assert(prev.is_node(i));
        }
        assert(self.child_graph() =~= prev.child_graph()) by {
            assert forall|i: int| self.is_node(i) == prev.is_node(i) by {
                if 0 <= i < self.arena.size() {
                    assert(self.arena.generation(i) == prev.arena.generation(i));
                }
            }
        }
        assert(self.parent_graph() =~= prev.parent_graph()) by {
            assert forall|i: int| self.is_node(i) == prev.is_node(i) by {
                if 0 <= i < self.arena.size() {
                    assert(self.arena.generation(i) == prev.arena.generation(i));
                }
            }
        }
        assert(self.arena.wf()) by {
            assert forall|k: int| 0 <= k < self.arena.free.len() implies (#[trigger] self.arena.free[k])
                < self.arena.slots.len() && self.arena.slots[self.arena.free[k] as int].value is None by {
                let f = prev.arena.free[k] as int;
                assert(!prev.is_node(f));
                assert(self.arena.generation(f) == prev.arena.generation(f));
            }
        }
        assert(self.indexed()) by {
            assert forall|i: int| self.is_node(i) implies self.index@.contains_key(
                #[trigger] self.node(i).position.identity(),
            ) && self.index@[self.node(i).position.identity()] == i by {
                assert(prev.is_node(i));
                assert(prev.index@.contains_key(prev.node(i).position.identity()));
            }
            assert forall|id: u64| #[trigger] self.index@.contains_key(id) implies self.is_node(
                self.index@[id] as int,
            ) && self.node(self.index@[id] as int).position.identity() == id by {
                assert(prev.index@.contains_key(id));
                assert(prev.is_node(prev.index@[id] as int));
            }
        }
        assert(self.linked()) by {
            assert forall|i: int, k: int|
                self.is_node(i) && 0 <= k < self.node(i).children.len() implies self.arena.has(
                #[trigger] self.child(i, k),
            ) by {
                assert(prev.is_node(i));
                let c = prev.child(i, k);
                assert(prev.arena.has(c));
                assert(self.arena.generation(c.index()) == prev.arena.generation(c.index()));
            }
            assert forall|i: int, k: int|
                self.is_node(i) && 0 <= k < self.node(i).parents.len() implies self.arena.sees(
                #[trigger] self.parent(i, k),
            ) by {
                assert(prev.is_node(i));
                let p = prev.parent(i, k);
                assert(prev.arena.sees(p));
                assert(self.arena.generation(p.index()) == prev.arena.generation(p.index()));
            }
        }
        assert(self.backed()) by {
            assert forall|i: int, k: int|
                self.is_node(i) && 0 <= k < self.node(i).parents.len() implies edge(
                self.child_graph(),
                (#[trigger] self.parent(i, k)).index(),
                i,
            ) by {
                assert(prev.is_node(i));
                assert(prev.arena.sees(prev.parent(i, k)));
                assert(edge(prev.child_graph(), prev.parent(i, k).index(), i));
            }
        }
    }

    /// The visits that the parents of the node in slot `i` will have in all
    /// once the playout is entered, as far as they can be counted. The nodes
    /// in the slots below `done` have it entered already.
    fn weigh(&self, prev: Ghost<NodeStore>, marked: &Vec<bool>, i: usize, done: usize) -> (w: u64)
        requires
            prev@.wf(),
            self.same_nodes(&prev@),
            marked.len() == self.slots(),
            self.is_node(i as int),
            forall|j: int| #[trigger]
                self.is_node(j) ==> self.node(j).same_links(&prev@.node(j)) && self.node(j)@.visits == if j
                    < done && marked[j] {
                    bumped(prev@.node(j)@.visits)
                } else {
                    prev@.node(j)@.visits
                },
        ensures
            w == prev@.weight_after(
                Set::new(|j: int| 0 <= j < marked.len() && marked[j]),
                prev@.node(i as int)@.parents,
            ),
    {
        let ghost touched = Set::new(|j: int| 0 <= j < marked.len() && marked[j]);
        let ghost ps = prev@.node(i as int)@.parents;
        let node = self.arena.slots[i].value.as_ref().unwrap();
        let n = node.parents.len();
        let mut sum: u64 = 0;
        let mut k: usize = 0;
        proof {
            assert(prev@.is_node(i as int));
            assert(node.parents == prev@.node(i as int).parents);
            assert(ps.take(0) =~= Seq::<int>::empty());
        }
        while k < n
            invariant
                prev@.wf(),
                self.same_nodes(&prev@),
                marked.len() == self.slots(),
                self.is_node(i as int),
                prev@.is_node(i as int),
                *node == self.node(i as int),
                node.parents == prev@.node(i as int).parents,
                n == node.parents.len(),
                n == ps.len(),
                ps == prev@.node(i as int)@.parents,
                touched == Set::new(|j: int| 0 <= j < marked.len() && marked[j]),
                k <= n,
                forall|j: int| #[trigger]
                    self.is_node(j) ==> self.node(j).same_links(&prev@.node(j)) && self.node(j)@.visits
                        == if j < done && marked[j] {
                        bumped(prev@.node(j)@.visits)
                    } else {
                        prev@.node(j)@.visits
                    },
                sum == if prev@.visit_sum_after(touched, ps.take(k as int)) > u64::MAX {
                    u64::MAX
                } else {
                    prev@.visit_sum_after(touched, ps.take(k as int)) as u64
                },
            decreases n - k,
        {
            let q = node.parents[k].slot;
            proof {
                assert(prev@.arena.sees(prev@.parent(i as int, k as int)));
                assert(prev@.is_node(q as int));
                assert(self.arena.generation(q as int) == prev@.arena.generation(q as int));
                assert(self.is_node(q as int));
                assert(ps[k as int] == q);
                assert(ps.take(k + 1).drop_last() =~= ps.take(k as int));
                assert(ps.take(k + 1).last() == q);
            }
            let stored = self.arena.slots[q].value.as_ref().unwrap().visits;
            let visits = if marked[q] && q >= done && stored < VISIT_LIMIT {
                stored + 1
            } else {
                stored
            };
            assert(visits == prev@.visits_after(touched, q as int));
            sum = if sum > u64::MAX - visits {
                u64::MAX
            } else {
                sum + visits
            };
            k = k + 1;
        }
        proof {
            assert(ps.take(n as int) =~= ps);
        }
        sum
    }

    /// Enters a playout that earned White `credit` half points at every
    /// marked node.
    pub(crate) fn touch_all(&mut self, marked: &Vec<bool>, credit: u64)
        requires
            old(self).wf(),
            marked.len() == old(self).slots(),
            forall|i: int| 0 <= i < marked.len() && marked[i] ==> old(self).is_node(i),
            credit <= 2,
        ensures
            final(self).wf(),
            final(self).same_nodes(old(self)),
            final(self).child_graph() == old(self).child_graph(),
            final(self).parent_graph() == old(self).parent_graph(),
            forall|i: int| #[trigger]
                final(self).is_node(i) ==> final(self).node(i).same_links(&old(self).node(i))
                    && final(self)@[i] == if marked[i] {
                    old(self).updated(
                        Set::new(|j: int| 0 <= j < marked.len() && marked[j]),
                        i,
                        credit as nat,
                    )
                } else {
                    old(self)@[i]
                },
    {
        let n = self.arena.slots.len();
        let ghost before = *self;
        let ghost touched = Set::new(|j: int| 0 <= j < marked.len() && marked[j]);
        let mut i: usize = 0;
        while i < n
            invariant
                before.wf(),
                n == before.slots(),
                marked.len() == n,
                forall|j: int| 0 <= j < marked.len() && marked[j] ==> before.is_node(j),
                credit <= 2,
                i <= n,
                touched == Set::new(|j: int| 0 <= j < marked.len() && marked[j]),
                self.same_nodes(&before),
                self.arena.free@ == before.arena.free@,
                forall|j: int| #[trigger]
                    self.is_node(j) ==> self.node(j).same_links(&before.node(j)) && self.node(j).sound()
                        && self.node(j)@.visits == if j < i && marked[j] {
                        bumped(before.node(j)@.visits)
                    } else {
                        before.node(j)@.visits
                    } && self.node(j)@.white_wins == if j < i && marked[j] {
                        credited(before.node(j)@.white_wins, before.node(j)@.visits, credit as nat)
                    } else {
                        before.node(j)@.white_wins
                    } && self.node(j)@.score == if j < i && marked[j] {
                        before.updated(touched, j, credit as nat).score
                    } else {
                        before.node(j)@.score
                    },
            decreases n - i,
        {
            if marked[i] {
                let ghost here = *self;
                proof {
                    assert(before.is_node(i as int));
                    assert(self.arena.generation(i as int) == before.arena.generation(i as int));
                    assert(self.is_node(i as int));
                    assert(before.node(i as int).sound());
                }
                let weight = self.weigh(Ghost(before), marked, i, i);
                match &mut self.arena.slots[i].value {
                    Some(node) => {
                        if node.visits < VISIT_LIMIT {
                            node.visits = node.visits + 1;
                            node.white_wins = node.white_wins + credit;
                        }
                        let score = node.get_score(weight, SelectionPolicy::UCT);
                        node.score = score;
                    },
                    None => {},
                }
                proof {
                    assert forall|j: int| 0 <= j < n implies (self.is_node(j) <==> here.is_node(j))
                        && #[trigger] self.arena.generation(j) == here.arena.generation(j) by {}
                    assert(self.same_nodes(&here));
                    self.lemma_same_nodes_trans(&here, &before);
                    assert forall|j: int| self.is_node(j) && j != i implies self.node(j) == here.node(
                        j,
                    ) by {}
                    assert(self.node(i as int).same_links(&here.node(i as int)));
                    assert(self.node(i as int)@.side == before.node(i as int)@.side);
                    assert(self.node(i as int)@.parents == before.node(i as int)@.parents);
                }
            }
            i = i + 1;
        }
        proof {
            self.lemma_same_links(&before);
            assert forall|j: int| #[trigger] self.is_node(j) implies self@[j] == if marked[j] {
                before.updated(touched, j, credit as nat)
            } else {
                before@[j]
            } by {
                assert(before.is_node(j));
                assert(self.node(j)@.children == before.node(j)@.children);
                assert(self.node(j)@.parents == before.node(j)@.parents);
                assert(self.node(j)@.moves == before.node(j)@.moves);
            }
        }
    }
}

impl Tree {
    /// Every node of a walk down from the head looks up to the head.
    proof fn lemma_walk_looks_up(&self, p: Seq<int>, k: int)
        requires
            self.wf(),
            is_walk(self.nodes.child_graph(), p),
            p[0] == self.head.index(),
            0 <= k < p.len(),
        ensures
            reaches(self.nodes.parent_graph(), p[k], self.head.index()),
        decreases k,
    {
        let h = self.head.index();
        let up = self.nodes.parent_graph();
        let down = self.nodes.child_graph();
        if k == 0 || p[k] == h {
            assert(self.nodes.is_node(h));
            lemma_reaches_self(up, h);
        } else {
            self.lemma_walk_looks_up(p, k - 1);
            assert(edge(down, p[k - 1], p[k - 1 + 1]));
            let q = p[k - 1];
            let j = choose|j: int| 0 <= j < down[q].len() && down[q][j] == p[k];
            assert(self.nodes.child(q, j).index() == p[k]);
            assert(self.nodes.arena.has(self.nodes.child(q, j)));
            assert(self.nodes.node(p[k])@.parents.contains(q));
            assert(edge(up, p[k], q));
            lemma_reaches_self(up, p[k]);
            lemma_reaches_step(up, p[k], p[k], q);
            lemma_reaches_trans(up, p[k], q, h);
        }
    }

    /// Every node of a tree in order looks up to the head: what is entered
    /// at a node is entered at the head.
    pub proof fn lemma_head_above(&self, i: int)
        requires
            self.wf(),
            self.store().is_node(i),
        ensures
            reaches(self.store().parent_graph(), i, self.head().index()),
    {
        let down = self.nodes.child_graph();
        let h = self.head.index();
        assert(reaches(down, h, i));
        let p = choose|p: Seq<int>| is_walk(down, p) && p[0] == h && p.last() == i;
        self.lemma_walk_looks_up(p, p.len() - 1);
    }

    /// The tree is `prev` after the end `status` of a playout was entered at
    /// `leaf`: every node that looks down on `leaf`, `leaf` among them, has
    /// one visit more, White's share of the point more, and its score made
    /// anew; all else is as it was. Nothing is entered where `leaf` stands
    /// for no node.
    pub open(crate) spec fn entered_from(
        &self,
        prev: &Tree,
        leaf: WNodeRef,
        status: (BoardStatus, Color),
    ) -> bool {
        &&& self.wf()
        &&& self.head == prev.head
        &&& self.params == prev.params
        &&& self.nodes.same_nodes(&prev.nodes)
        &&& self.nodes.child_graph() == prev.nodes.child_graph()
        &&& self.nodes.parent_graph() == prev.nodes.parent_graph()
        &&& !prev.nodes.contains(leaf.strong()) ==> self.nodes@ == prev.nodes@
        &&& forall|i: int| #[trigger]
            self.nodes.is_node(i) ==> self.nodes.node(i).same_links(&prev.nodes.node(i))
                && self.nodes@[i] == if prev.nodes.contains(leaf.strong()) && reaches(
                prev.nodes.parent_graph(),
                leaf.index(),
                i,
            ) {
                prev.nodes.updated(
                    Set::new(
                        |j: int|
                            prev.nodes.is_node(j) && reaches(
                                prev.nodes.parent_graph(),
                                leaf.index(),
                                j,
                            ),
                    ),
                    i,
                    credit_of(status.0, status.1),
                )
            } else {
                prev.nodes@[i]
            }
    }

    /// Enters the end of a playout at `leaf` and at every node that looks
    /// down on it, each once: one visit more, White's share of the point
    /// more, and the score made anew. Nothing is entered where `leaf` stands
    /// for no node.
    pub fn backpropagate(&mut self, leaf: &WNodeRef, status: (BoardStatus, Color))
        requires
            old(self).wf(),
        ensures
            final(self).entered_from(old(self), *leaf, status),
    {
        let ghost before = *self;
        match leaf.upgrade(&self.nodes.arena) {
            None => {
                proof {
                    assert(self.nodes.same_nodes(&before.nodes)) by {
                        assert forall|i: int| 0 <= i < self.nodes.arena.size() implies (
                        self.nodes.is_node(i) <==> before.nodes.is_node(i)) && #[trigger] self.nodes.arena.generation(
                            i,
                        ) == before.nodes.arena.generation(i) by {}
                    }
                }
            },
            Some(start) => {
                let marked = self.nodes.reach(&start, true);
                let ghost g = before.nodes.parent_graph();
                let ghost touched = Set::new(|j: int| 0 <= j < marked.len() && marked[j]);
                let ghost wanted = Set::new(
                    |j: int| before.nodes.is_node(j) && reaches(g, leaf.index(), j),
                );
                proof {
                    before.nodes.lemma_graph_closed(true);
                    assert forall|i: int| 0 <= i < marked.len() && marked[i] implies before.nodes.is_node(
                        i,
                    ) by {
                        lemma_reaches_in_graph(g, leaf.index(), i);
                    }
                    assert(touched =~= wanted);
                }
                let c = credit(status.0, status.1);
                self.nodes.touch_all(&marked, c);
                proof {
                    let after = self.nodes;
                    assert forall|i: int| after.is_node(i) implies before.nodes.is_node(i) by {
                        assert(after.arena.generation(i) == before.nodes.arena.generation(i));
                    }
                    assert(self.all_reached());
                    assert(self.looked_back()) by {
                        assert forall|p: int, k: int|
                            self.nodes.is_node(p) && 0 <= k < self.nodes.node(p).children.len() && (
                            #[trigger] self.nodes.child(p, k)).index() != self.head.index() implies self.nodes.node(
                            self.nodes.child(p, k).index(),
                        )@.parents.contains(p) by {
                            let ch = before.nodes.child(p, k);
                            assert(self.nodes.child(p, k) == ch);
                            assert(before.nodes.arena.has(ch));
                            assert(after.is_node(ch.index()));
                            assert(after.node(ch.index()).same_links(&before.nodes.node(ch.index())));
                            assert(after.node(ch.index())@.parents == before.nodes.node(ch.index())@.parents);
                        }
                    }
                    assert forall|p: int| #[trigger] self.nodes.is_node(p) implies self.by_the_rules(
                        p,
                    ) by {
                        assert(before.by_the_rules(p));
                        assert(after.node(p).same_links(&before.nodes.node(p)));
                        assert(after.node(p)@.children == before.nodes.node(p)@.children);
                        assert(after.node(p)@.moves == before.nodes.node(p)@.moves);
                        let n = after.node(p)@;
                        if n.children.len() > 0 {
                            assert forall|k: int| 0 <= k < n.children.len() implies (
                            #[trigger] after.node(n.children[k]))@.identity == rules_identity(
                                rules_apply(n.fen, n.moves[k]),
                            ) by {
                                assert(before.nodes.arena.has(before.nodes.child(p, k)));
                                assert(after.is_node(n.children[k]));
                                assert(after.node(n.children[k]).same_links(
                                    &before.nodes.node(n.children[k]),
                                ));
                            }
                        }
                    }
                }
            },
        }
    }
}

} // verus!
