//! The head moves on: to the child of the best share of playouts when the bot
//! moves, to whatever position the opponent's move leads to when the
//! opponent does. What the new head does not reach is taken out.

use vstd::prelude::*;
use crate::mcts::graph::{
    edge, reaches, incoming, lemma_incoming, lemma_reaches_self, lemma_reaches_transfer,
};
use crate::mcts::policy::{first_best, lead_share};
use crate::mcts::score::{Ratio, win_share};
use crate::mcts::search::{IllegalMoveError, NoAvailableMoveError};
use crate::mcts::tree::{Node, NodeStore, NodeRef, NodeView, Tree};
use crate::rules::{Position, Color, is_legal, legal_moves_of, rules_identity, rules_apply};

verus! {

impl NodeStore {
    /// The slot of the node known under `identity`.
    pub open(crate) spec fn slot_of(&self, identity: u64) -> int {
        choose|i: int| self.is_node(i) && (#[trigger] self.node(i))@.identity == identity
    }
}

impl Tree {
    /// The tree is `prev` with the head moved to `next`. Where `prev` had a
    /// node of that very position, it is the head now, and what it reached
    /// in `prev` is all there is, each node with the figures and children it
    /// had; back-references are the reverse of the child edges, but that the
    /// head has none. Otherwise the head is a new node, and the only one.
    pub open(crate) spec fn rebased_from(&self, prev: &Tree, next: Position) -> bool {
        let c = prev.nodes.slot_of(next.identity());
        let h = self.head.index();
        if prev.nodes.knows(next.identity()) && prev.nodes.node(c)@.fen == next.fen() {
            &&& h == c
            &&& self.nodes.slots() == prev.nodes.slots()
            &&& forall|i: int| #[trigger]
                self.nodes.is_node(i) <==> prev.nodes.is_node(i) && reaches(
                    prev.nodes.child_graph(),
                    c,
                    i,
                )
            &&& forall|i: int| #[trigger]
                self.nodes.is_node(i) ==> self.nodes.node(i)@ == (NodeView {
                    parents: if i == c {
                        Seq::<int>::empty()
                    } else {
                        incoming(self.nodes.child_graph(), i, self.nodes.slots())
                    },
                    ..prev.nodes.node(i)@
                })
        } else {
            &&& forall|i: int| #[trigger] self.nodes.is_node(i) ==> i == h
            &&& self.nodes.node(h)@ == Node::new_view(
                next,
                NodeStore::below(prev.nodes.node(prev.head.index())@.depth),
            )
        }
    }

    /// An evicted store under the new head `h` makes a tree in order.
    proof fn lemma_rebased(&self, prev: &NodeStore, old_tree: &Tree)
        requires
            prev.wf(),
            prev.contains(self.head),
            self.nodes.wf(),
            self.nodes.contains(self.head),
            self.nodes.slots() == prev.slots(),
            forall|i: int| #[trigger]
                self.nodes.is_node(i) <==> prev.is_node(i) && reaches(
                    prev.child_graph(),
                    self.head.index(),
                    i,
                ),
            forall|i: int| #[trigger]
                self.nodes.is_node(i) ==> self.nodes.node(i)@ == (NodeView {
                    parents: if i == self.head.index() {
                        Seq::<int>::empty()
                    } else {
                        incoming(self.nodes.child_graph(), i, self.nodes.slots())
                    },
                    ..prev.node(i)@
                }),
            forall|p: int| #[trigger]
                prev.is_node(p) ==> {
                    let n = prev.node(p)@;
                    n.children.len() > 0 ==> n.moves == legal_moves_of(n.fen) && forall|k: int|
                        0 <= k < n.children.len() ==> (#[trigger] prev.node(n.children[k]))@.identity
                            == rules_identity(rules_apply(n.fen, n.moves[k]))
                },
        ensures
            self.wf(),
    {
        let h = self.head.index();
        let g0 = prev.child_graph();
        let g1 = self.nodes.child_graph();
        assert forall|x: int| #[trigger] reaches(g0, h, x) implies g1.dom().contains(x) && g1[x]
            == g0[x] by {
            prev.lemma_graph_closed(false);
            crate::mcts::graph::lemma_reaches_in_graph(g0, h, x);
            assert(self.nodes.is_node(x));
        }
        assert(self.all_reached()) by {
            assert forall|i: int| #[trigger] self.nodes.is_node(i) implies reaches(g1, h, i) by {
                lemma_reaches_transfer(g0, g1, h, i);
            }
        }
        assert(self.nodes.node(h).parents.len() == 0) by {
            assert(self.nodes.node(h)@.parents.len() == 0);
        }
        assert(self.looked_back()) by {
            assert forall|q: int, j: int|
                self.nodes.is_node(q) && 0 <= j < self.nodes.node(q).children.len() && (
                #[trigger] self.nodes.child(q, j)).index() != h implies self.nodes.node(
                self.nodes.child(q, j).index(),
            )@.parents.contains(q) by {
                let x = self.nodes.child(q, j).index();
                assert(self.nodes.arena.has(self.nodes.child(q, j)));
                assert(self.nodes.is_node(x));
                assert(g1[q][j] == x);
                assert(edge(g1, q, x));
                lemma_incoming(g1, x, self.nodes.slots());
            }
        }
        assert forall|p: int| #[trigger] self.nodes.is_node(p) implies self.by_the_rules(p) by {
            assert(prev.is_node(p));
            let n = self.nodes.node(p)@;
            if n.children.len() > 0 {
                assert forall|k: int| 0 <= k < n.children.len() implies (#[trigger] self.nodes.node(
                    n.children[k],
                ))@.identity == rules_identity(rules_apply(n.fen, n.moves[k])) by {
                    assert(self.nodes.arena.has(self.nodes.child(p, k)));
                    assert(self.nodes.is_node(n.children[k]));
                }
            }
        }
    }

    /// Moves the head to `next`: to the node the tree has of that position,
    /// with all that it reaches, or to a new node where the tree has none.
    /// Everything else is taken out.
    pub fn rebase(&mut self, next: Position)
        requires
            old(self).wf(),
            next.wf(),
        ensures
            final(self).wf(),
            final(self).fen() == next.fen(),
            final(self).max_search_depth() == old(self).max_search_depth(),
            final(self).cutoff() == old(self).cutoff(),
            final(self).all_reached(),
            final(self).store().node(final(self).head().index())@.parents.len() == 0,
            final(self).rebased_from(old(self), next),
    {
        let ghost before = *self;
        let probe = next.duplicate();
        assert(self.nodes.is_node(self.head.index()));
        let depth = self.nodes.get(&self.head).depth;
        let depth = if depth < usize::MAX { depth + 1 } else { depth };
        let h = self.nodes.adopt(next, depth);
        let ghost adopted = self.nodes;
        if self.nodes.get(&h).position.same_text(&probe) {
            self.nodes.clear_parents(&h);
            let ghost cleared = self.nodes;
            self.nodes.evict_unreachable(&h);
            self.head = h;
            proof {
                let c = h.index();
                let g_old = before.nodes.child_graph();
                let g_mid = cleared.child_graph();
                assert forall|i: int| adopted.is_node(i) <==> cleared.is_node(i) by {
                    if 0 <= i < cleared.arena.size() {
                        assert(cleared.arena.generation(i) == adopted.arena.generation(i));
                    }
                }
                assert forall|i: int| cleared.is_node(i) implies (#[trigger] cleared.node(i))@
                    == if before.nodes.is_node(i) {
                    NodeView {
                        parents: if i == c {
                            Seq::<int>::empty()
                        } else {
                            before.nodes.node(i)@.parents
                        },
                        ..before.nodes.node(i)@
                    }
                } else {
                    NodeView { parents: Seq::<int>::empty(), ..Node::new_view(next, depth) }
                } by {
                    assert(cleared@.dom().contains(i));
                    assert(cleared.node(i)@ == cleared@[i]);
                    assert(adopted.node(i)@ == adopted@[i]);
                    if before.nodes.is_node(i) {
                        assert(before.nodes.node(i)@ == before.nodes@[i]);
                    }
                }
                assert forall|p: int| #[trigger] cleared.is_node(p) implies {
                    let n = cleared.node(p)@;
                    n.children.len() > 0 ==> n.moves == legal_moves_of(n.fen) && forall|k: int|
                        0 <= k < n.children.len() ==> (#[trigger] cleared.node(n.children[k]))@.identity
                            == rules_identity(rules_apply(n.fen, n.moves[k]))
                } by {
                    let n = cleared.node(p)@;
                    if n.children.len() > 0 {
                        assert(before.nodes.is_node(p));
                        assert(before.by_the_rules(p));
                        assert forall|k: int| 0 <= k < n.children.len() implies (
                        #[trigger] cleared.node(n.children[k]))@.identity == rules_identity(
                            rules_apply(n.fen, n.moves[k]),
                        ) by {
                            assert(before.nodes.arena.has(before.nodes.child(p, k)));
                            assert(before.nodes.is_node(n.children[k]));
                            assert(cleared.is_node(n.children[k]));
                        }
                    }
                }
                assert forall|i: int| #[trigger] self.nodes.is_node(i) implies self.nodes.node(i)@ == (
                NodeView {
                    parents: if i == c {
                        Seq::<int>::empty()
                    } else {
                        incoming(self.nodes.child_graph(), i, self.nodes.slots())
                    },
                    ..cleared.node(i)@
                }) by {
                    assert(self.nodes@.dom().contains(i));
                    assert(self.nodes.node(i)@ == self.nodes@[i]);
                    assert(cleared.node(i)@ == cleared@[i]);
                }
                self.lemma_rebased(&cleared, &before);
                assert(self.nodes.node(c).place() == cleared.node(c).place());
                assert(cleared.node(c).place() == adopted.node(c).place());
                // what stays, told of the tree as it was
                if before.nodes.knows(next.identity()) {
                    assert(before.nodes.is_node(c));
                    before.nodes.lemma_one_node_per_identity(
                        c,
                        before.nodes.slot_of(next.identity()),
                    );
                    assert(adopted.node(c) == before.nodes.node(c));
                    assert(g_mid =~= g_old) by {
                        assert forall|i: int| cleared.is_node(i) <==> before.nodes.is_node(i) by {
                            if cleared.is_node(i) {
                                assert(adopted.is_node(i));
                            }
                        }
                    }
                    assert(adopted == before.nodes);
                    assert(self.rebased_from(&before, next));
                } else {
                    assert(!before.nodes.is_node(c));
                    assert(cleared.node(c)@.children.len() == 0);
                    assert forall|i: int| #[trigger] self.nodes.is_node(i) implies i == c by {
                        let s = Set::new(|x: int| x == c);
                        assert forall|x: int, y: int| s.contains(x) && edge(g_mid, x, y) implies s.contains(
                            y,
                        ) by {
                            assert(g_mid[x].len() == 0);
                        }
                        crate::mcts::graph::lemma_closed_set_holds_reach(g_mid, s, c, i);
                    }
                    assert(self.nodes.node(c)@ == Node::new_view(
                        next,
                        NodeStore::below(before.nodes.node(before.head.index())@.depth),
                    ));
                    assert(self.rebased_from(&before, next));
                }
            }
        } else {
            self.nodes = NodeStore::new();
            self.head = self.nodes.create(probe, depth);
            proof {
                let c = self.head.index();
                assert(before.nodes.knows(next.identity())) by {
                    if !before.nodes.knows(next.identity()) {
                        assert(adopted.node(h.index()).place() == next);
                    }
                }
                assert(before.nodes.is_node(h.index()));
                before.nodes.lemma_one_node_per_identity(
                    h.index(),
                    before.nodes.slot_of(next.identity()),
                );
                assert(adopted.node(h.index()) == before.nodes.node(h.index()));
                assert forall|i: int| #[trigger] self.nodes.is_node(i) implies i == c by {
                    assert(self.nodes@.dom().contains(i));
                }
                assert(self.nodes.node(c)@ == self.nodes@[c]);
                assert(self.nodes.node(c).parents.len() == 0) by {
                    assert(self.nodes.node(c)@.parents.len() == 0);
                }
                assert(self.nodes.node(c).children.len() == 0) by {
                    assert(self.nodes.node(c)@.children.len() == 0);
                }
                lemma_reaches_self(self.nodes.child_graph(), c);
            }
        }
    }

    /// Makes `chess_move` in the position the game has come to and moves the
    /// head to where it leads. A move that is not legal there changes
    /// nothing.
    pub fn _prune_tree_based_on_move_and_update_head(&mut self, chess_move: &str) -> (r: Result<
        (),
        IllegalMoveError,
    >)
        requires
            old(self).wf(),
        ensures
            final(self).wf(),
            match r {
                Ok(_) => {
                    &&& is_legal(old(self).fen(), chess_move@)
                    &&& final(self).fen() == rules_apply(old(self).fen(), chess_move@)
                    &&& final(self).max_search_depth() == old(self).max_search_depth()
                    &&& final(self).cutoff() == old(self).cutoff()
                    &&& final(self).all_reached()
                    &&& final(self).store().node(final(self).head().index())@.parents.len() == 0
                    &&& exists|next: Position|
                        next.wf() && next.fen() == rules_apply(old(self).fen(), chess_move@)
                            && #[trigger] final(self).rebased_from(old(self), next)
                },
                Err(_) => !is_legal(old(self).fen(), chess_move@) && *final(self) == *old(self),
            },
    {
        match self.position().successor(chess_move) {
            Some(next) => {
                proof {
                    next.lemma_wf();
                }
                self.rebase(next);
                Ok(())
            },
            None => Err(IllegalMoveError {  }),
        }
    }

    /// Tells the tree that the opponent has made `chess_move`.
    pub fn provide_opponent_move(&mut self, chess_move: &str) -> (r: Result<(), IllegalMoveError>)
        requires
            old(self).wf(),
        ensures
            final(self).wf(),
            match r {
                Ok(_) => {
                    &&& is_legal(old(self).fen(), chess_move@)
                    &&& final(self).fen() == rules_apply(old(self).fen(), chess_move@)
                    &&& final(self).max_search_depth() == old(self).max_search_depth()
                    &&& final(self).cutoff() == old(self).cutoff()
                    &&& final(self).all_reached()
                    &&& final(self).store().node(final(self).head().index())@.parents.len() == 0
                    &&& exists|next: Position|
                        next.wf() && next.fen() == rules_apply(old(self).fen(), chess_move@)
                            && #[trigger] final(self).rebased_from(old(self), next)
                },
                Err(_) => !is_legal(old(self).fen(), chess_move@) && *final(self) == *old(self),
            },
    {
        self._prune_tree_based_on_move_and_update_head(chess_move)
    }

    /// The shares of playouts that went well for `color`, of the children of
    /// the head.
    pub open(crate) spec fn shares(&self, color: Color) -> Seq<Ratio> {
        let head = self.nodes.node(self.head.index());
        Seq::new(
            head.children.len() as nat,
            |k: int|
                {
                    let child = self.nodes.node(head.children[k].index())@;
                    win_share(child.white_wins, child.visits, color)
                },
        )
    }

    /// The place among the head's children of the one the bot moves to when
    /// it plays `color`: the first of those with the largest share.
    pub open(crate) spec fn best_for(&self, color: Color) -> int {
        first_best(self.shares(color))
    }

    /// The place among the head's children of the one the bot moves to.
    pub fn best_move_index(&self, color_to_play: Color) -> (b: usize)
        requires
            self.wf(),
            self.store().node(self.head().index())@.children.len() > 0,
        ensures
            b == self.best_for(color_to_play),
            b < self.store().node(self.head().index())@.children.len(),
    {
        let head = self.nodes.get(&self.head);
        let ghost shares = self.shares(color_to_play);
        let n = head.children.len();
        assert(self.nodes.arena.has(self.nodes.child(self.head.index(), 0)));
        assert(self.nodes.node(self.nodes.child(self.head.index(), 0).index()).sound());
        let mut best: usize = 0;
        let mut top = self.nodes.get(&head.children[0]).get_win_ratio(Some(color_to_play));
        let mut k: usize = 1;
        while k < n
            invariant
                self.wf(),
                *head == self.nodes.node(self.head.index()),
                n == head.children.len(),
                shares == self.shares(color_to_play),
                1 <= k <= n,
                best == lead_share(shares, k as int),
                best < k,
                top == shares[best as int],
            decreases n - k,
        {
            assert(self.nodes.arena.has(self.nodes.child(self.head.index(), k as int)));
            assert(self.nodes.node(self.nodes.child(self.head.index(), k as int).index()).sound());
            let share = self.nodes.get(&head.children[k]).get_win_ratio(Some(color_to_play));
            if share.exceeds(&top) {
                best = k;
                top = share;
            }
            k = k + 1;
        }
        best
    }

    /// The tree is `mid` after the bot, which plays `color`, made the move
    /// `mv`: the move that leads to the child of the head of `mid` with the
    /// largest share of playouts that went well for the bot, the first such;
    /// the head has moved there with all that it reached. Where `mv` is
    /// none, the head of `mid` has no children and the tree is `mid`.
    pub open(crate) spec fn moved_from(&self, mid: &Tree, mv: Option<Seq<char>>, color: Color) -> bool {
        match mv {
            Some(mv) => {
                &&& mid.nodes.node(mid.head.index())@.children.len() > 0
                &&& mv == mid.nodes.node(mid.head.index())@.moves[mid.best_for(color)]
                &&& is_legal(mid.fen(), mv)
                &&& exists|next: Position|
                    next.wf() && next.fen() == rules_apply(mid.fen(), mv) && #[trigger] self.rebased_from(
                        mid,
                        next,
                    )
            },
            None => mid.nodes.node(mid.head.index())@.children.len() == 0 && *self == *mid,
        }
    }

    /// Moves the head to the child with the largest share of playouts that
    /// went well for `color_to_play`, the first of them where there are
    /// several, and returns the move that leads there. Fails, and changes
    /// nothing, where the head has no children.
    pub fn _yield_best_move(&mut self, color_to_play: Color) -> (r: Result<String, NoAvailableMoveError>)
        requires
            old(self).wf(),
        ensures
            final(self).wf(),
            match r {
                Ok(mv) => {
                    &&& old(self).store().node(old(self).head().index())@.children.len() > 0
                    &&& mv@ == old(self).store().node(old(self).head().index())@.moves[old(
                        self,
                    ).best_for(color_to_play)]
                    &&& is_legal(old(self).fen(), mv@)
                    &&& final(self).fen() == rules_apply(old(self).fen(), mv@)
                    &&& final(self).max_search_depth() == old(self).max_search_depth()
                    &&& final(self).cutoff() == old(self).cutoff()
                    &&& final(self).all_reached()
                    &&& final(self).store().node(final(self).head().index())@.parents.len() == 0
                    &&& exists|next: Position|
                        next.wf() && next.fen() == rules_apply(old(self).fen(), mv@)
                            && #[trigger] final(self).rebased_from(old(self), next)
                },
                Err(_) => old(self).store().node(old(self).head().index())@.children.len() == 0
                    && *final(self) == *old(self),
            },
            final(self).moved_from(
                old(self),
                match r {
                    Ok(mv) => Some(mv@),
                    Err(_) => None,
                },
                color_to_play,
            ),
    {
        let head = self.nodes.get(&self.head);
        if head.children.len() == 0 {
            return Err(NoAvailableMoveError {  });
        }
        let b = self.best_move_index(color_to_play);
        let head = self.nodes.get(&self.head);
        let mv = head.moves[b].clone();
        proof {
            let h = self.head.index();
            assert(self.nodes.is_node(h));
            assert(self.by_the_rules(h));
            assert(self.nodes.node(h).sound());
            let n = self.nodes.node(h)@;
            assert(n.moves[b as int] == mv@) by {
                assert(head.moves.deep_view()[b as int] == head.moves[b as int]@);
            }
            assert(legal_moves_of(n.fen)[b as int] == mv@);
            assert(is_legal(n.fen, mv@));
        }
        let next = head.position.play(mv.as_str());
        self.rebase(next);
        Ok(mv)
    }

    /// The move by which `child` is a child of `parent`: the first such,
    /// where there are several; none where it is no child of it.
    pub fn _get_move_diff(&self, parent: &NodeRef, child: &NodeRef) -> (r: Option<String>)
        requires
            self.wf(),
            self.store().contains(*parent),
        ensures
            match r {
                Some(mv) => exists|k: int|
                    {
                        &&& 0 <= k < self.store().node(parent.index())@.children.len()
                        &&& #[trigger] self.store().child(parent.index(), k) == *child
                        &&& mv@ == self.store().node(parent.index())@.moves[k]
                        &&& forall|j: int| 0 <= j < k ==> self.store().child(parent.index(), j) != *child
                    },
                None => forall|k: int|
                    0 <= k < self.store().node(parent.index())@.children.len()
                        ==> #[trigger] self.store().child(parent.index(), k) != *child,
            },
    {
        let node = self.nodes.get(parent);
        assert(node.sound());
        let n = node.children.len();
        let mut k: usize = 0;
        while k < n
            invariant
                *node == self.nodes.node(parent.index()),
                node.sound(),
                n == node.children.len(),
                k <= n,
                forall|j: int| 0 <= j < k ==> #[trigger] self.nodes.child(parent.index(), j) != *child,
            decreases n - k,
        {
            let c = node.children[k];
            if c.slot == child.slot && c.generation == child.generation {
                let mv = node.moves[k].clone();
                proof {
                    assert(c == *child);
                    assert(node.moves.deep_view()[k as int] == node.moves[k as int]@);
                    assert(self.nodes.child(parent.index(), k as int) == *child);
                    assert(self.nodes.node(parent.index())@.moves[k as int] == mv@);
                }
                return Some(mv);
            }
            k = k + 1;
        }
        None
    }
}

} // verus!
