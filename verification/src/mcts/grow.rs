//! The growth of the tree: a node gets a child for each legal move of its
//! position.

use vstd::prelude::*;
use vstd::set_lib::{lemma_int_range, lemma_set_disjoint_lens, lemma_set_subset_finite, set_int_range};
use crate::mcts::graph::{
    echoes, edge, reaches, lemma_echoes, lemma_reaches_step, lemma_reaches_grow,
};
use crate::mcts::score::Score;
use crate::mcts::tree::{Node, NodeStore, NodeRef, NodeView, Tree};
use crate::rules::{Position, legal_moves_of, rules_identity, rules_apply};
use crate::utils::chance::random_below;

verus! {

impl Tree {
    /// The tree is in order, but that the node in slot `p` has children for
    /// the first `k` of its legal moves only.
    pub open(crate) spec fn growing(&self, p: int, k: int) -> bool {
        let n = self.nodes.node(p)@;
        let legal = legal_moves_of(n.fen);
        &&& self.nodes.wf()
        &&& self.nodes.contains(self.head)
        &&& self.nodes.node(self.head.index()).parents.len() == 0
        &&& self.all_reached()
        &&& self.looked_back()
        &&& forall|q: int| #[trigger] self.nodes.is_node(q) && q != p ==> self.by_the_rules(q)
        &&& self.nodes.is_node(p)
        &&& 0 <= k <= legal.len()
        &&& n.moves == legal.take(k)
        &&& n.children.len() == k
        &&& forall|j: int|
            0 <= j < k ==> (#[trigger] self.nodes.node(n.children[j]))@.identity == rules_identity(
                rules_apply(n.fen, legal[j]),
            )
    }

    /// The back-references of the node in slot `i` after the node in slot
    /// `p` of `prev` got its children in `cur`: those it had, then `p` once
    /// for each new child edge that leads to it; none for the head.
    pub open(crate) spec fn back_refs(prev: &Tree, cur: &Tree, p: int, i: int) -> Seq<int> {
        let had = if prev.nodes.is_node(i) {
            prev.nodes.node(i)@.parents
        } else {
            Seq::<int>::empty()
        };
        if i == prev.head.index() {
            Seq::<int>::empty()
        } else {
            had + echoes(
                cur.nodes.node(p)@.children.skip(prev.nodes.node(p)@.children.len() as int),
                i,
                p,
            )
        }
    }

    /// What the tree `prev` has become after the node in slot `p` got
    /// children: the head is the same; every node of `prev` is still there,
    /// with its position, figures and children; `p` has the children it had
    /// and new ones after them; each node looks back as it did, and at `p`
    /// once more for each new child edge to it, but the head at none; and
    /// each node that is new is a child of `p`, one move below it, was never
    /// visited and has no children.
    pub open(crate) spec fn grown_from(&self, prev: &Tree, p: int) -> bool {
        &&& self.head == prev.head
        &&& self.params == prev.params
        &&& self.nodes.keeps(&prev.nodes)
        &&& prev.nodes.node(p)@.children.is_prefix_of(self.nodes.node(p)@.children)
        &&& forall|i: int| #[trigger]
            prev.nodes.is_node(i) ==> self.nodes.node(i).place() == prev.nodes.node(i).place() && {
                let was = prev.nodes.node(i)@;
                let is = self.nodes.node(i)@;
                is == (NodeView {
                    parents: Tree::back_refs(prev, self, p, i),
                    children: if i == p {
                        is.children
                    } else {
                        was.children
                    },
                    moves: if i == p {
                        is.moves
                    } else {
                        was.moves
                    },
                    ..was
                })
            }
        &&& forall|i: int| #[trigger]
            self.nodes.is_node(i) && !prev.nodes.is_node(i) ==> {
                let is = self.nodes.node(i)@;
                &&& is.visits == 0
                &&& is.white_wins == 0
                &&& is.score == Score::Infinite
                &&& is.children.len() == 0
                &&& is.depth == NodeStore::below(prev.nodes.node(p)@.depth)
                &&& is.parents == Tree::back_refs(prev, self, p, i)
                &&& self.nodes.node(p)@.children.contains(i)
            }
    }

    /// The node in slot `i` after the node in slot `p` of `prev` got the
    /// node in slot `c` for a child, by move `mv`: the node `prev` had there,
    /// or a new one for `next`; with the child, where it is the parent; with
    /// the back-reference, where it is the child and not the head.
    pub open(crate) spec fn step_view(
        prev: &Tree,
        p: int,
        c: int,
        mv: Seq<char>,
        next: Position,
        i: int,
    ) -> NodeView {
        let h = prev.head.index();
        let base = if prev.nodes.is_node(i) {
            prev.nodes.node(i)@
        } else {
            Node::new_view(next, NodeStore::below(prev.nodes.node(p)@.depth))
        };
        let with_child = if i == p {
            NodeView { children: base.children.push(c), moves: base.moves.push(mv), ..base }
        } else {
            base
        };
        if i == h && c == h {
            NodeView { parents: Seq::<int>::empty(), ..with_child }
        } else if i == c {
            NodeView { parents: with_child.parents.push(p), ..with_child }
        } else {
            with_child
        }
    }

    /// The tree is `prev` after such a step.
    pub open(crate) spec fn stepped(
        &self,
        prev: &Tree,
        p: int,
        c: int,
        mv: Seq<char>,
        next: Position,
    ) -> bool {
        &&& self.head == prev.head
        &&& self.params == prev.params
        &&& self.nodes.wf()
        &&& self.nodes.keeps(&prev.nodes)
        &&& self.nodes.is_node(c)
        &&& prev.nodes.is_node(c) ==> prev.nodes.node(c)@.identity == next.identity()
        &&& forall|i: int| #[trigger] self.nodes.is_node(i) ==> prev.nodes.is_node(i) || i == c
        &&& forall|i: int| #[trigger]
            self.nodes.is_node(i) ==> self.nodes.node(i)@ == Tree::step_view(prev, p, c, mv, next, i)
        &&& forall|i: int| #[trigger]
            prev.nodes.is_node(i) ==> self.nodes.node(i).place() == prev.nodes.node(i).place()
    }

    /// After a step the head still reaches every node.
    proof fn lemma_step_reached(&self, prev: &Tree, p: int, c: int, mv: Seq<char>, next: Position)
        requires
            prev.nodes.wf(),
            prev.nodes.contains(prev.head),
            prev.nodes.is_node(p),
            prev.all_reached(),
            self.stepped(prev, p, c, mv, next),
        ensures
            self.all_reached(),
    {
        let h = self.head.index();
        let g0 = prev.nodes.child_graph();
        let g1 = self.nodes.child_graph();
        assert forall|x: int, y: int| edge(g0, x, y) implies edge(g1, x, y) by {
            assert(prev.nodes.is_node(x));
            assert(self.nodes.is_node(x));
            let j = choose|j: int| 0 <= j < g0[x].len() && g0[x][j] == y;
            assert(self.nodes.node(x)@ == Tree::step_view(prev, p, c, mv, next, x));
            assert(self.nodes.node(x)@.children[j] == y);
        }
        assert(edge(g1, p, c)) by {
            assert(self.nodes.is_node(p));
            assert(self.nodes.node(p)@ == Tree::step_view(prev, p, c, mv, next, p));
            let k = prev.nodes.node(p)@.children.len() as int;
            assert(self.nodes.node(p)@.children[k] == c);
        }
        assert forall|i: int| #[trigger] self.nodes.is_node(i) implies reaches(g1, h, i) by {
            if prev.nodes.is_node(i) {
                assert(reaches(g0, h, i));
                lemma_reaches_grow(g0, g1, h, i);
            } else {
                assert(i == c);
                assert(reaches(g0, h, p));
                lemma_reaches_grow(g0, g1, h, p);
                lemma_reaches_step(g1, h, p, c);
            }
        }
    }

    /// After a step every child but the head still looks back at each of its
    /// parents, and the head at none.
    proof fn lemma_step_looked_back(&self, prev: &Tree, p: int, c: int, mv: Seq<char>, next: Position)
        requires
            prev.nodes.wf(),
            prev.nodes.contains(prev.head),
            prev.nodes.is_node(p),
            prev.nodes.node(prev.head.index()).parents.len() == 0,
            prev.looked_back(),
            self.stepped(prev, p, c, mv, next),
        ensures
            self.looked_back(),
            self.nodes.contains(self.head),
            self.nodes.node(self.head.index()).parents.len() == 0,
    {
        let h = self.head.index();
        let k = prev.nodes.node(p)@.children.len() as int;
        assert(prev.nodes.is_node(h));
        assert(self.nodes.is_node(h));
        assert(self.nodes.node(h)@ == Tree::step_view(prev, p, c, mv, next, h));
        assert(prev.nodes.node(h)@.parents.len() == 0);
        assert(self.nodes.node(h)@.parents.len() == 0);
        assert forall|q: int, j: int|
            self.nodes.is_node(q) && 0 <= j < self.nodes.node(q).children.len() && (
            #[trigger] self.nodes.child(q, j)).index() != h implies self.nodes.node(
            self.nodes.child(q, j).index(),
        )@.parents.contains(q) by {
            let x = self.nodes.child(q, j).index();
            assert(self.nodes.node(q)@.children[j] == x);
            assert(self.nodes.arena.has(self.nodes.child(q, j)));
            assert(self.nodes.is_node(x));
            assert(self.nodes.node(q)@ == Tree::step_view(prev, p, c, mv, next, q));
            assert(self.nodes.node(x)@ == Tree::step_view(prev, p, c, mv, next, x));
            if q == p && j == k {
                assert(x == c);
                let ps = self.nodes.node(x)@.parents;
                assert(ps[ps.len() - 1] == p);
            } else {
                assert(self.nodes.node(q)@.children.len() == self.nodes.node(q).children.len());
                if !prev.nodes.is_node(q) {
                    assert(q == c);
                    assert(q != p);
                    assert(self.nodes.node(q)@.children.len() == 0);
                }
                assert(prev.nodes.is_node(q));
                assert(j < prev.nodes.node(q)@.children.len());
                assert(prev.nodes.node(q)@.children[j] == x);
                assert(prev.nodes.child(q, j).index() == x);
                assert(prev.nodes.arena.has(prev.nodes.child(q, j)));
                let old_ps = prev.nodes.node(x)@.parents;
                assert(old_ps.contains(q));
                let w = choose|w: int| 0 <= w < old_ps.len() && old_ps[w] == q;
                assert(self.nodes.node(x)@.parents[w] == q);
            }
        }
    }

    /// After a step the children of every node but `p` still follow the
    /// rules, and those of `p` for one move more.
    proof fn lemma_step_rules(
        &self,
        prev: &Tree,
        p: int,
        c: int,
        mv: Seq<char>,
        next: Position,
        k: int,
    )
        requires
            prev.growing(p, k),
            self.stepped(prev, p, c, mv, next),
            k < legal_moves_of(prev.nodes.node(p)@.fen).len(),
            mv == legal_moves_of(prev.nodes.node(p)@.fen)[k],
            next.identity() == rules_identity(rules_apply(prev.nodes.node(p)@.fen, mv)),
        ensures
            forall|q: int| #[trigger] self.nodes.is_node(q) && q != p ==> self.by_the_rules(q),
            self.nodes.node(p)@.moves == legal_moves_of(self.nodes.node(p)@.fen).take(k + 1),
            self.nodes.node(p)@.children.len() == k + 1,
            self.nodes.node(p)@.fen == prev.nodes.node(p)@.fen,
            forall|j: int|
                0 <= j < k + 1 ==> (#[trigger] self.nodes.node(self.nodes.node(p)@.children[j]))@.identity
                    == rules_identity(
                    rules_apply(
                        self.nodes.node(p)@.fen,
                        legal_moves_of(self.nodes.node(p)@.fen)[j],
                    ),
                ),
    {
        let fen = prev.nodes.node(p)@.fen;
        let legal = legal_moves_of(fen);
        assert forall|i: int| self.nodes.is_node(i) implies (#[trigger] self.nodes.node(i))@.identity
            == if prev.nodes.is_node(i) {
            prev.nodes.node(i)@.identity
        } else {
            next.identity()
        } by {
            assert(self.nodes.node(i)@ == Tree::step_view(prev, p, c, mv, next, i));
        }
        assert forall|q: int| #[trigger] self.nodes.is_node(q) && q != p implies self.by_the_rules(q) by {
            assert(self.nodes.node(q)@ == Tree::step_view(prev, p, c, mv, next, q));
            if prev.nodes.is_node(q) {
                assert(prev.by_the_rules(q));
                let n = self.nodes.node(q)@;
                if n.children.len() > 0 {
                    assert forall|j: int| 0 <= j < n.children.len() implies (
                    #[trigger] self.nodes.node(n.children[j]))@.identity == rules_identity(
                        rules_apply(n.fen, n.moves[j]),
                    ) by {
                        assert(prev.nodes.arena.has(prev.nodes.child(q, j)));
                        assert(prev.nodes.is_node(n.children[j]));
                        assert(self.nodes.is_node(n.children[j]));
                    }
                }
            }
        }
        assert(self.nodes.is_node(p));
        let n = self.nodes.node(p)@;
        assert(n == Tree::step_view(prev, p, c, mv, next, p));
        assert(n.moves == legal.take(k + 1)) by {
            assert(legal.take(k).push(mv) =~= legal.take(k + 1));
        }
        assert forall|j: int| 0 <= j < k + 1 implies (#[trigger] self.nodes.node(n.children[j]))@.identity
            == rules_identity(rules_apply(n.fen, legal[j])) by {
            if j < k {
                assert(prev.nodes.arena.has(prev.nodes.child(p, j)));
                assert(prev.nodes.is_node(prev.nodes.node(p)@.children[j]));
                assert(self.nodes.is_node(n.children[j]));
            } else {
                assert(n.children[j] == c);
            }
        }
    }

    /// A step of growth upon growth from `first` is growth from `first`.
    proof fn lemma_step_grown(
        &self,
        here: &Tree,
        first: &Tree,
        p: int,
        c: int,
        mv: Seq<char>,
        next: Position,
    )
        requires
            first.nodes.is_node(p),
            first.nodes.is_node(first.head.index()),
            first.nodes.node(first.head.index())@.parents.len() == 0,
            here.nodes.wf(),
            here.nodes.is_node(p),
            here.grown_from(first, p),
            self.stepped(here, p, c, mv, next),
        ensures
            self.grown_from(first, p),
    {
        let h = first.head.index();
        let a = first.nodes.node(p)@.children.len() as int;
        let ch = here.nodes.node(p)@.children;
        let cs = self.nodes.node(p)@.children;
        assert(self.nodes.is_node(p));
        assert(self.nodes.node(p)@ == Tree::step_view(here, p, c, mv, next, p));
        assert(cs == ch.push(c));
        assert(cs.skip(a) =~= ch.skip(a).push(c));
        assert(cs.skip(a).drop_last() =~= ch.skip(a));
        assert(first.nodes.node(p)@.children.is_prefix_of(cs)) by {
            assert(cs.take(a) =~= ch.take(a));
        }
        assert forall|i: int| #[trigger] first.nodes.is_node(i) implies self.nodes.is_node(i)
            && self.nodes.arena.generation(i) == first.nodes.arena.generation(i) by {
            assert(here.nodes.is_node(i));
        }
        assert forall|i: int| self.nodes.is_node(i) implies (#[trigger] self.nodes.node(i))@.parents
            == Tree::back_refs(first, self, p, i) by {
            assert(self.nodes.node(i)@ == Tree::step_view(here, p, c, mv, next, i));
            let tail = echoes(ch.skip(a), i, p);
            if i != h {
                if here.nodes.is_node(i) {
                    if first.nodes.is_node(i) {
                        assert(here.nodes.node(i)@.parents == Tree::back_refs(first, here, p, i));
                    } else {
                        assert(here.nodes.node(i)@.parents == Tree::back_refs(first, here, p, i));
                    }
                    let had = if first.nodes.is_node(i) {
                        first.nodes.node(i)@.parents
                    } else {
                        Seq::<int>::empty()
                    };
                    if i == c {
                        assert((had + tail).push(p) =~= had + (tail + seq![p]));
                    } else {
                        assert(had + (tail + Seq::<int>::empty()) =~= had + tail);
                    }
                } else {
                    assert(i == c);
                    lemma_echoes(ch.skip(a), c, p);
                    if ch.skip(a).contains(c) {
                        let j = choose|j: int| 0 <= j < ch.skip(a).len() && ch.skip(a)[j] == c;
                        assert(here.nodes.arena.has(here.nodes.child(p, j + a)));
                        assert(ch[j + a] == c);
                    }
                    assert(tail.len() == 0);
                    assert(Seq::<int>::empty().push(p) =~= Seq::<int>::empty() + (tail + seq![p]));
                }
            } else {
                assert(here.nodes.is_node(h));
                assert(here.nodes.node(h)@.parents == Tree::back_refs(first, here, p, h));
            }
        }
        assert forall|i: int| #[trigger] first.nodes.is_node(i) implies self.nodes.node(i).place()
            == first.nodes.node(i).place() && {
            let was = first.nodes.node(i)@;
            let is = self.nodes.node(i)@;
            is == (NodeView {
                parents: Tree::back_refs(first, self, p, i),
                children: if i == p {
                    is.children
                } else {
                    was.children
                },
                moves: if i == p {
                    is.moves
                } else {
                    was.moves
                },
                ..was
            })
        } by {
            assert(here.nodes.is_node(i));
            assert(self.nodes.is_node(i));
            assert(self.nodes.node(i)@ == Tree::step_view(here, p, c, mv, next, i));
        }
        assert forall|i: int| #[trigger] self.nodes.is_node(i) && !first.nodes.is_node(i) implies {
            let is = self.nodes.node(i)@;
            &&& is.visits == 0
            &&& is.white_wins == 0
            &&& is.score == Score::Infinite
            &&& is.children.len() == 0
            &&& is.depth == NodeStore::below(first.nodes.node(p)@.depth)
            &&& is.parents == Tree::back_refs(first, self, p, i)
            &&& self.nodes.node(p)@.children.contains(i)
        } by {
            assert(self.nodes.node(i)@ == Tree::step_view(here, p, c, mv, next, i));
            assert(here.nodes.node(p)@.depth == first.nodes.node(p)@.depth);
            if here.nodes.is_node(i) {
                assert(i != p);
                let j = choose|j: int| 0 <= j < ch.len() && ch[j] == i;
                assert(cs[j] == i);
            } else {
                assert(i == c);
                assert(cs[cs.len() - 1] == c);
            }
        }
    }

    /// The views of a store after `get_or_create`, and after the head's
    /// back-references were taken away where the head is the child, are
    /// those of a step.
    proof fn lemma_step_views(
        prev: &Tree,
        between: &NodeStore,
        after: &NodeStore,
        p: int,
        c: int,
        mv: Seq<char>,
        next: Position,
        i: int,
    )
        requires
            prev.nodes.is_node(p),
            between.is_node(i),
            after.is_node(i),
            between.is_node(c),
            prev.nodes.is_node(c) <==> prev.nodes.knows(next.identity()),
            prev.nodes.is_node(i) || i == c,
            between@ == NodeStore::attached(
                if prev.nodes.knows(next.identity()) {
                    prev.nodes@
                } else {
                    prev.nodes@.insert(
                        c,
                        Node::new_view(next, NodeStore::below(prev.nodes@[p].depth)),
                    )
                },
                p,
                c,
                mv,
            ),
            after@ == if c == prev.head.index() {
                between@.insert(c, NodeView { parents: Seq::<int>::empty(), ..between@[c] })
            } else {
                between@
            },
        ensures
            after.node(i)@ == Tree::step_view(prev, p, c, mv, next, i),
    {
        assert(after.node(i)@ == after@[i]);
        assert(between.node(i)@ == between@[i]);
        assert(prev.nodes.node(p)@ == prev.nodes@[p]);
        if prev.nodes.is_node(i) {
            assert(prev.nodes.node(i)@ == prev.nodes@[i]);
        }
    }

    /// Gives the node `parent` a child for its next legal move, `mv`.
    fn add_child(&mut self, parent: &NodeRef, mv: String, Ghost(k): Ghost<int>, Ghost(first): Ghost<Tree>)
        requires
            old(self).growing(parent.index(), k),
            old(self).store().contains(*parent),
            k < legal_moves_of(old(self).store().node(parent.index())@.fen).len(),
            mv@ == legal_moves_of(old(self).store().node(parent.index())@.fen)[k],
            first.wf(),
            first.store().is_node(parent.index()),
            old(self).grown_from(&first, parent.index()),
        ensures
            final(self).growing(parent.index(), k + 1),
            final(self).store().contains(*parent),
            final(self).grown_from(&first, parent.index()),
    {
        let ghost before = *self;
        let ghost p = parent.index();
        let ghost fen = self.nodes.node(p)@.fen;
        let ghost legal = legal_moves_of(fen);
        proof {
            assert(self.nodes.node(p).sound());
            assert(legal.contains(mv@));
        }
        let next = self.nodes.get(parent).position.play(mv.as_str());
        proof {
            next.lemma_wf();
        }
        let ghost moved = mv@;
        let child = self.nodes.get_or_create(next, parent, mv);
        let ghost between = self.nodes;
        let ghost c = child.index();
        proof {
            assert(between.is_node(self.head.index())) by {
                assert(before.nodes.is_node(self.head.index()));
            }
            assert(between.arena.generation(self.head.index()) == before.nodes.arena.generation(
                self.head.index(),
            ));
        }
        if child.slot == self.head.slot {
            let head = self.head;
            self.nodes.clear_parents(&head);
        }
        proof {
            let after = self.nodes;
            assert forall|i: int| between.is_node(i) <==> after.is_node(i) by {
                if c == self.head.index() && 0 <= i < after.arena.size() {
                    assert(after.arena.generation(i) == between.arena.generation(i));
                }
            }
            assert forall|i: int| between.is_node(i) implies after.arena.generation(i)
                == between.arena.generation(i) && after.node(i).place() == between.node(i).place() by {
                if c == self.head.index() {
                    assert(after.arena.generation(i) == between.arena.generation(i));
                }
            }
            assert(after.keeps(&before.nodes)) by {
                assert forall|i: int| #[trigger] before.nodes.is_node(i) implies after.is_node(i)
                    && after.arena.generation(i) == before.nodes.arena.generation(i) by {
                    assert(between.is_node(i));
                }
            }
            assert(before.nodes.is_node(c) <==> before.nodes.knows(next.identity()));
            assert forall|i: int| #[trigger] after.is_node(i) implies before.nodes.is_node(i) || i
                == c by {
                assert(between.is_node(i));
            }
            assert forall|i: int| #[trigger] after.is_node(i) implies after.node(i)@
                == Tree::step_view(&before, p, c, moved, next, i) by {
                assert(between.is_node(i));
                Tree::lemma_step_views(&before, &between, &after, p, c, moved, next, i);
            }
            assert forall|i: int| #[trigger] before.nodes.is_node(i) implies after.node(i).place()
                == before.nodes.node(i).place() by {
                assert(between.is_node(i));
            }
            assert(self.stepped(&before, p, c, moved, next));
            self.lemma_step_reached(&before, p, c, moved, next);
            self.lemma_step_looked_back(&before, p, c, moved, next);
            self.lemma_step_rules(&before, p, c, moved, next, k);
            self.lemma_step_grown(&before, &first, p, c, moved, next);
        }
    }

    /// Gives the node `parent` a child for each legal move of its position,
    /// in the rules engine's order. A child whose position the store knows
    /// already is the node known; the others are new. Where `parent` has
    /// its children already, nothing changes.
    pub fn add_children(&mut self, parent: &NodeRef)
        requires
            old(self).wf(),
            old(self).store().contains(*parent),
        ensures
            final(self).wf(),
            final(self).store().contains(*parent),
            final(self).grown_from(old(self), parent.index()),
            old(self).store().node(parent.index())@.children.len() > 0 ==> *final(self) == *old(self),
            final(self).store().node(parent.index())@.moves == legal_moves_of(
                old(self).store().node(parent.index())@.fen,
            ),
            final(self).store().node(parent.index())@.children.len() == legal_moves_of(
                old(self).store().node(parent.index())@.fen,
            ).len(),
    {
        let ghost before = *self;
        let ghost p = parent.index();
        let ghost legal = legal_moves_of(self.nodes.node(p)@.fen);
        proof {
            assert(self.nodes.is_node(p));
            assert(self.nodes.node(p).sound());
        }
        if self.nodes.get(parent).children.len() > 0 {
            proof {
                self.lemma_grown_self(p);
                assert(self.by_the_rules(p));
            }
            return ;
        }
        proof {
            assert(self.nodes.node(p)@.moves.len() == 0);
            assert(self.nodes.node(p)@.moves =~= legal.take(0));
        }
        let moves = self.nodes.get(parent).position.legal_moves();
        let n = moves.len();
        let mut k: usize = 0;
        proof {
            self.lemma_grown_self(p);
        }
        while k < n
            invariant
                before.wf(),
                before.nodes.is_node(p),
                p == parent.index(),
                legal == legal_moves_of(before.nodes.node(p)@.fen),
                legal == legal_moves_of(self.nodes.node(p)@.fen),
                moves.deep_view() == legal,
                n == moves.len(),
                k <= n,
                self.growing(p, k as int),
                self.nodes.contains(*parent),
                self.grown_from(&before, p),
            decreases n - k,
        {
            let mv = moves[k].clone();
            proof {
                assert(moves.deep_view()[k as int] == moves[k as int]@);
            }
            self.add_child(parent, mv, Ghost(k as int), Ghost(before));
            k = k + 1;
        }
        proof {
            assert(legal.take(n as int) =~= legal);
            assert(self.by_the_rules(p));
        }
    }

    /// After growth, the child of `p` for a position that the tree knew
    /// already is the very node known, with the figures and the children it
    /// had.
    pub proof fn lemma_known_child(&self, prev: &Tree, p: int, k: int, i: int)
        requires
            self.wf(),
            self.grown_from(prev, p),
            prev.store().is_node(i),
            0 <= k < self.store().node(p)@.children.len(),
            self.store().is_node(p),
            self.store().node(self.store().node(p)@.children[k])@.identity == prev.store().node(
                i,
            )@.identity,
        ensures
            self.store().node(p)@.children[k] == i,
            self.store().node(i)@.visits == prev.store().node(i)@.visits,
            self.store().node(i)@.white_wins == prev.store().node(i)@.white_wins,
            self.store().node(i)@.score == prev.store().node(i)@.score,
            i != p ==> self.store().node(i)@.children == prev.store().node(i)@.children,
    {
        let c = self.nodes.node(p)@.children[k];
        assert(self.nodes.arena.has(self.nodes.child(p, k)));
        assert(self.nodes.is_node(i));
        self.nodes.lemma_fen_of_place(i);
        prev.nodes.lemma_fen_of_place(i);
        self.nodes.lemma_one_node_per_identity(c, i);
    }

    /// After growth the tree knows the identities it knew and those of the
    /// children of `p`, and no others: a node is new only where a child of
    /// `p` has an identity that was not known.
    pub proof fn lemma_known_after_growth(&self, prev: &Tree, p: int, identity: u64)
        requires
            self.wf(),
            self.grown_from(prev, p),
            self.store().is_node(p),
        ensures
            self.store().knows(identity) <==> prev.store().knows(identity) || exists|k: int|
                0 <= k < self.store().node(p)@.children.len() && (#[trigger] self.store().node(
                    self.store().node(p)@.children[k],
                ))@.identity == identity,
    {
        let ch = self.nodes.node(p)@.children;
        if self.nodes.knows(identity) {
            let i = choose|i: int| self.nodes.is_node(i) && (#[trigger] self.nodes.node(i))@.identity
                == identity;
            if prev.nodes.is_node(i) {
                self.nodes.lemma_fen_of_place(i);
                prev.nodes.lemma_fen_of_place(i);
                assert(prev.nodes.node(i)@.identity == identity);
            } else {
                assert(ch.contains(i));
                let k = choose|k: int| 0 <= k < ch.len() && ch[k] == i;
                assert(self.nodes.node(ch[k])@.identity == identity);
            }
        }
        if prev.nodes.knows(identity) {
            let i = choose|i: int| prev.nodes.is_node(i) && (#[trigger] prev.nodes.node(i))@.identity
                == identity;
            assert(self.nodes.is_node(i));
            self.nodes.lemma_fen_of_place(i);
            prev.nodes.lemma_fen_of_place(i);
            assert(self.nodes.node(i)@.identity == identity);
        }
        if exists|k: int|
            0 <= k < ch.len() && (#[trigger] self.nodes.node(ch[k]))@.identity == identity {
            let k = choose|k: int|
                0 <= k < ch.len() && (#[trigger] self.nodes.node(ch[k]))@.identity == identity;
            assert(self.nodes.arena.has(self.nodes.child(p, k)));
            assert(self.nodes.is_node(ch[k]));
        }
    }

    /// The slots of the nodes of the tree.
    pub open(crate) spec fn population(&self) -> Set<int> {
        Set::new(|i: int| self.nodes.is_node(i))
    }

    /// The slots of the children of `p` that were no nodes of `prev`.
    pub open(crate) spec fn added(&self, prev: &Tree, p: int) -> Set<int> {
        Set::new(|i: int| self.nodes.node(p)@.children.contains(i) && !prev.nodes.is_node(i))
    }

    /// The nodes of a tree are finitely many.
    pub proof fn lemma_population_finite(&self)
        ensures
            self.population().finite(),
    {
        lemma_int_range(0, self.nodes.slots());
        assert(self.population().subset_of(set_int_range(0, self.nodes.slots())));
        lemma_set_subset_finite(set_int_range(0, self.nodes.slots()), self.population());
    }

    /// After growth the tree has the nodes it had and, beside them, as many
    /// as `p` has children that were no nodes before: one node more for
    /// each position among those that the moves lead to that was not known.
    pub proof fn lemma_count_after_growth(&self, prev: &Tree, p: int)
        requires
            self.wf(),
            self.grown_from(prev, p),
            self.store().is_node(p),
        ensures
            self.population() == prev.population() + self.added(prev, p),
            self.added(prev, p).finite(),
            self.population().len() == prev.population().len() + self.added(prev, p).len(),
    {
        let ch = self.nodes.node(p)@.children;
        self.lemma_population_finite();
        prev.lemma_population_finite();
        assert forall|i: int| self.added(prev, p).contains(i) implies self.population().contains(i) by {
            let k = choose|k: int| 0 <= k < ch.len() && ch[k] == i;
            assert(self.nodes.arena.has(self.nodes.child(p, k)));
        }
        assert(self.added(prev, p).subset_of(self.population()));
        lemma_set_subset_finite(self.population(), self.added(prev, p));
        assert(self.population() =~= prev.population() + self.added(prev, p)) by {
            assert forall|i: int| self.population().contains(i) implies (prev.population() + self.added(
                prev,
                p,
            )).contains(i) by {
                if !prev.nodes.is_node(i) {
                    assert(self.nodes.is_node(i));
                    assert(ch.contains(i));
                }
            }
            assert forall|i: int| prev.population().contains(i) implies self.population().contains(
                i,
            ) by {
                assert(prev.nodes.is_node(i));
            }
        }
        assert(prev.population().disjoint(self.added(prev, p)));
        lemma_set_disjoint_lens(prev.population(), self.added(prev, p));
    }

    /// A tree in order has grown from itself.
    proof fn lemma_grown_self(&self, p: int)
        requires
            self.wf(),
            self.nodes.is_node(p),
        ensures
            self.grown_from(self, p),
    {
        let ch = self.nodes.node(p)@.children;
        assert(ch.skip(ch.len() as int) =~= Seq::<int>::empty());
        assert forall|i: int| #[trigger] self.nodes.is_node(i) implies self.nodes.node(i)@.parents
            == Tree::back_refs(self, self, p, i) by {
            assert(self.nodes.node(i)@.parents + Seq::<int>::empty() =~= self.nodes.node(i)@.parents);
            if i == self.head.index() {
                assert(self.nodes.node(i)@.parents =~= Seq::<int>::empty());
            }
        }
    }

    /// The tree is `prev` after `expand` was asked for a node below `root`
    /// and gave `leaf`: where `root` could grow it has a child for each of
    /// its legal moves, and otherwise all is as it was; `leaf` is one of the
    /// children of `root`, or `root` itself where it has none.
    pub open(crate) spec fn expanded_from(&self, prev: &Tree, root: NodeRef, leaf: NodeRef) -> bool {
        &&& self.wf()
        &&& self.nodes.contains(root)
        &&& self.nodes.contains(leaf)
        &&& self.grown_from(prev, root.index())
        &&& prev.can_grow(root.index()) ==> self.nodes.node(root.index())@.moves == legal_moves_of(
            prev.nodes.node(root.index())@.fen,
        )
        &&& !prev.can_grow(root.index()) ==> *self == *prev
        &&& self.nodes.node(root.index())@.children.len() == 0 ==> leaf == root
        &&& self.nodes.node(root.index())@.children.len() > 0 ==> exists|k: int|
            0 <= k < self.nodes.node(root.index())@.children.len() && leaf
                == #[trigger] self.nodes.child(root.index(), k)
    }

    /// The node to play out from, below `root`: one of its children, picked
    /// by chance, after children were made for it where it had none and is
    /// less than the search depth below the head; `root` itself where it has
    /// no children even then.
    pub fn expand(&mut self, root: &NodeRef) -> (leaf: NodeRef)
        requires
            old(self).wf(),
            old(self).store().contains(*root),
        ensures
            final(self).expanded_from(old(self), *root, leaf),
    {
        let ghost before = *self;
        proof {
            self.lemma_grown_self(root.index());
            assert(self.nodes.is_node(self.head.index()));
        }
        let head_depth = self.nodes.get(&self.head).depth;
        let max_depth = self.params.max_search_depth;
        let node = self.nodes.get(root);
        if node.children.len() == 0 && (node.depth < head_depth || node.depth - head_depth < max_depth) {
            self.add_children(root);
        }
        let node = self.nodes.get(root);
        let n = node.children.len();
        if n > 0 {
            let k = random_below(n);
            let leaf = node.children[k];
            assert(leaf == self.nodes.child(root.index(), k as int));
            assert(self.nodes.arena.has(self.nodes.child(root.index(), k as int)));
            leaf
        } else {
            *root
        }
    }

    /// The node in slot `i` has no children and is less than the search
    /// depth below the head.
    pub open(crate) spec fn can_grow(&self, i: int) -> bool {
        self.nodes.node(i)@.children.len() == 0 && self.nodes.node(i)@.depth < self.depth_limit()
    }
}

} // verus!
