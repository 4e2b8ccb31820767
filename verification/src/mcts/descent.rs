//! The way down: from a node to the child of the best score, and on, until a
//! node without children is met.

use vstd::prelude::*;
use crate::mcts::policy::{SelectionPolicy, first_max, lead, lemma_first_max};
use crate::mcts::score::Score;
use crate::mcts::tree::{NodeStore, NodeRef, Tree};

verus! {

impl NodeStore {
    /// The scores of the children of the node in slot `i`, as ranks.
    pub open(crate) spec fn ranks(&self, i: int) -> Seq<int> {
        Seq::new(
            self.node(i).children.len() as nat,
            |k: int| self.node(self.child(i, k).index())@.score.rank(),
        )
    }

    /// The slot of the child that the search goes to from the node in slot
    /// `i`: the first of those with the best score.
    pub open(crate) spec fn favourite(&self, i: int) -> int {
        self.node(i)@.children[first_max(self.ranks(i))]
    }

    /// The slot that the way down from slot `i` ends in: that of the first
    /// node without children, or of the node come to after `fuel` steps.
    pub open(crate) spec fn descend(&self, i: int, fuel: nat) -> int
        decreases fuel,
    {
        if fuel == 0 || self.node(i)@.children.len() == 0 {
            i
        } else {
            self.descend(self.favourite(i), (fuel - 1) as nat)
        }
    }

    /// A child that was never visited is gone to before any that was,
    /// whatever the figures of those.
    pub proof fn lemma_unvisited_first(&self, i: int, k: int)
        requires
            self.wf(),
            self.is_node(i),
            0 <= k < self.node(i)@.children.len(),
            self.node(self.node(i)@.children[k])@.visits == 0,
        ensures
            self.is_node(self.favourite(i)),
            self.node(self.favourite(i))@.visits == 0,
    {
        let ranks = self.ranks(i);
        lemma_first_max(ranks);
        let b = first_max(ranks);
        assert(self.arena.has(self.child(i, k)));
        assert(self.arena.has(self.child(i, b)));
        assert(self.node(self.child(i, k).index()).sound());
        assert(self.node(self.child(i, b).index()).sound());
        assert(ranks[k] <= ranks[b]);
    }

    /// The place among its siblings of the child that the search goes to
    /// from `h`.
    pub fn best_child(&self, h: &NodeRef) -> (b: usize)
        requires
            self.wf(),
            self.contains(*h),
            self.node(h.index())@.children.len() > 0,
        ensures
            b == first_max(self.ranks(h.index())),
            b < self.node(h.index())@.children.len(),
            self.contains(self.child(h.index(), b as int)),
            self.child(h.index(), b as int).index() == self.favourite(h.index()),
    {
        let node = self.get(h);
        let ghost ranks = self.ranks(h.index());
        let n = node.children.len();
        let mut best: usize = 0;
        assert(self.arena.has(self.child(h.index(), 0)));
        let mut top: Score = self.get(&node.children[0]).score;
        let mut k: usize = 1;
        while k < n
            invariant
                self.wf(),
                self.contains(*h),
                *node == self.node(h.index()),
                n == node.children.len(),
                ranks == self.ranks(h.index()),
                1 <= k <= n,
                best == lead(ranks, k as int),
                best < k,
                top.rank() == ranks[best as int],
            decreases n - k,
        {
            assert(self.arena.has(self.child(h.index(), k as int)));
            let score = self.get(&node.children[k]).score;
            if score.exceeds(&top) {
                best = k;
                top = score;
            }
            k = k + 1;
        }
        proof {
            lemma_first_max(ranks);
            assert(self.arena.has(self.child(h.index(), best as int)));
        }
        best
    }
}

impl Tree {
    /// The node that the way down from `root` ends in. `selection_policy`
    /// names the policy by which the scores along the way were worked out;
    /// the way itself goes by the scores as they stand.
    pub fn select(&self, root: &NodeRef, selection_policy: SelectionPolicy) -> (leaf: NodeRef)
        requires
            self.wf(),
            self.store().contains(*root),
        ensures
            self.store().contains(leaf),
            leaf.index() == self.store().descend(root.index(), self.store().slots() as nat),
    {
        let mut fuel = self.nodes.arena.capacity();
        let mut leaf = *root;
        while fuel > 0 && self.nodes.get(&leaf).children.len() > 0
            invariant
                self.wf(),
                self.nodes.contains(leaf),
                self.nodes.descend(root.index(), self.nodes.slots() as nat) == self.nodes.descend(
                    leaf.index(),
                    fuel as nat,
                ),
            decreases fuel,
        {
            let b = self.nodes.best_child(&leaf);
            leaf = self.nodes.get(&leaf).children[b];
            fuel = fuel - 1;
        }
        leaf
    }
}

} // verus!
