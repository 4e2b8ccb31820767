//! The rounds of a search: down the tree, a step of growth, a playout, and
//! the playout's end entered on the way back up; again and again until the
//! time is up.

use vstd::prelude::*;
use crate::mcts::policy::{SelectionPolicy, SimulationPolicy};
use crate::mcts::score::VISIT_LIMIT;
use crate::mcts::update::bumped;
use crate::mcts::search::NoAvailableMoveError;
use crate::mcts::tree::{NodeRef, Tree};
use crate::rules::{playout, played, BoardStatus, Color, is_legal, rules_apply, legal_moves_of};
use crate::utils::clock::{now, elapsed, millis};

verus! {

/// The visits of a node after `rounds` playouts more went through it.
pub open spec fn after_rounds(visits: nat, rounds: nat) -> nat {
    if visits + rounds <= VISIT_LIMIT {
        visits + rounds
    } else {
        VISIT_LIMIT as nat
    }
}

/// Whether a search goes on after `made` rounds, `gone` milliseconds after it
/// began: it does while fewer rounds are made than the `most` it may make and
/// no more time is gone than its `budget`.
pub fn goes_on(made: u64, most: u64, gone: u128, budget: u64) -> (b: bool)
    ensures
        b == (made < most && gone <= budget),
{
    made < most && gone <= budget as u128
}

impl Tree {
    /// The bot can be given a move after a search: the head has children, or
    /// can get some.
    pub open(crate) spec fn movable(&self) -> bool {
        self.nodes.node(self.head.index())@.children.len() > 0 || (self.can_grow(self.head.index())
            && legal_moves_of(self.fen()).len() > 0)
    }

    /// Where the search may look a move ahead, the bot can be given a move
    /// exactly where the game is not over.
    pub proof fn lemma_movable(&self)
        requires
            self.wf(),
            self.max_search_depth() > 0,
        ensures
            self.movable() == (legal_moves_of(self.fen()).len() > 0),
    {
        let h = self.head.index();
        assert(self.nodes.is_node(h));
        assert(self.by_the_rules(h));
        assert(self.nodes.node(h).sound());
    }

    /// Plays moves picked by chance from the position of `root` until the
    /// side to move has none, or as many moves are made as a playout may
    /// make. Returns the status of the position come to and the side to move
    /// there.
    pub fn simulate(&self, root: &NodeRef, simulation_policy: SimulationPolicy) -> (r: (
        BoardStatus,
        Color,
    ))
        requires
            self.wf(),
            self.store().contains(*root),
        ensures
            played(self.store().node(root.index())@.fen, self.cutoff() as nat, r),
    {
        assert(self.nodes.node(root.index()).sound());
        match simulation_policy {
            SimulationPolicy::Random => playout(
                &self.nodes.get(root).position,
                self.params.n_cutoff_moves,
            ),
        }
    }

    /// The tree is `prev` after one round of the search that went down to
    /// `selected`, grew `prev` to `grown` there, played out from `leaf`, and
    /// entered the end `status` of the playout on the way back up.
    pub open(crate) spec fn round_via(
        &self,
        prev: &Tree,
        selected: NodeRef,
        grown: &Tree,
        leaf: NodeRef,
        status: (BoardStatus, Color),
    ) -> bool {
        &&& prev.wf()
        &&& prev.nodes.contains(selected)
        &&& selected.index() == prev.nodes.descend(prev.head.index(), prev.nodes.slots() as nat)
        &&& grown.expanded_from(prev, selected, leaf)
        &&& played(grown.nodes.node(leaf.index())@.fen, grown.cutoff() as nat, status)
        &&& self.entered_from(grown, leaf.weak(), status)
    }

    /// The tree is `prev` after one round of the search: the way down by the
    /// best scores, a step of growth where it ended, a playout, and the
    /// playout's end entered on the way back up.
    pub open(crate) spec fn round_from(&self, prev: &Tree) -> bool {
        exists|selected: NodeRef, grown: Tree, leaf: NodeRef, status: (BoardStatus, Color)|
            #[trigger] self.round_via(prev, selected, &grown, leaf, status)
    }

    /// `cur` is `prev` after `rounds` rounds of the search.
    pub open(crate) spec fn searched(prev: &Tree, cur: &Tree, rounds: nat) -> bool
        decreases rounds,
    {
        if rounds == 0 {
            *cur == *prev
        } else {
            exists|mid: Tree|
                Tree::searched(prev, &mid, (rounds - 1) as nat) && #[trigger] cur.round_from(&mid)
        }
    }

    /// `cur` is `prev` after a search of at least one round, and of no more
    /// rounds than it may make where it may make more than one.
    pub open(crate) spec fn searched_from(&self, prev: &Tree) -> bool {
        exists|rounds: nat|
            1 <= rounds && (rounds <= prev.max_rounds() || rounds == 1) && #[trigger] Tree::searched(
                prev,
                self,
                rounds,
            )
    }

    /// `cur` is `prev` after a search and the move `mv` that the search
    /// found best for the bot, which plays `color`; after a search that
    /// found none where `mv` is none.
    pub open(crate) spec fn searched_and_moved(
        prev: &Tree,
        cur: &Tree,
        mv: Option<Seq<char>>,
        color: Color,
    ) -> bool {
        exists|mid: Tree| #[trigger] mid.searched_from(prev) && cur.moved_from(&mid, mv, color)
    }

    /// A round after a search of `rounds` rounds makes a search of one
    /// round more.
    proof fn lemma_searched_on(prev: &Tree, mid: &Tree, cur: &Tree, rounds: nat)
        requires
            Tree::searched(prev, mid, rounds),
            cur.round_from(mid),
        ensures
            Tree::searched(prev, cur, rounds + 1),
    {
    }

    /// One round of the search.
    fn round(&mut self)
        requires
            old(self).wf(),
        ensures
            final(self).wf(),
            final(self).head() == old(self).head(),
            final(self).params == old(self).params,
            final(self).store().keeps(&old(self).store()),
            final(self).store().node(final(self).head().index()).place() == old(self).store().node(
                old(self).head().index(),
            ).place(),
            final(self).store().node(final(self).head().index())@.depth == old(self).store().node(
                old(self).head().index(),
            )@.depth,
            (final(self).store().node(final(self).head().index())@.children.len() > 0) == old(
                self,
            ).movable(),
            final(self).store().node(final(self).head().index())@.visits == bumped(
                old(self).store().node(old(self).head().index())@.visits,
            ),
            final(self).round_from(old(self)),
    {
        let ghost before = *self;
        let ghost h = self.head.index();
        let head = self.head;
        let selected = self.select(&head, SelectionPolicy::UCT);
        proof {
            assert(self.nodes.is_node(h));
            assert(self.nodes.slots() > 0);
            if self.nodes.node(h)@.children.len() == 0 {
                assert(selected.index() == h);
            }
            assert(self.nodes.node(h).sound());
            before.nodes.lemma_fen_of_place(h);
        }
        let leaf = self.expand(&selected);
        let ghost grown = *self;
        proof {
            let p = selected.index();
            assert(before.nodes.is_node(h));
            assert(grown.nodes.is_node(h));
            assert(grown.nodes.node(h).sound());
            assert(grown.nodes.node(h)@.depth == before.nodes.node(h)@.depth);
            if p == h {
                if before.can_grow(h) {
                    assert(grown.nodes.node(h)@.moves == legal_moves_of(before.fen()));
                    assert(grown.nodes.node(h)@.moves.len() == grown.nodes.node(h)@.children.len());
                } else {
                    assert(grown.nodes.node(h)@ == grown.nodes@[h]);
                    assert(before.nodes.node(h)@ == before.nodes@[h]);
                }
            } else {
                assert(grown.nodes.node(h)@.children == before.nodes.node(h)@.children);
            }
        }
        let result = self.simulate(&leaf, SimulationPolicy::Random);
        proof {
            grown.lemma_head_above(leaf.index());
            assert(grown.nodes.node(h)@.visits == before.nodes.node(h)@.visits);
        }
        self.backpropagate(&leaf.downgrade(), result);
        proof {
            assert(self.round_via(&before, selected, &grown, leaf, result));
            assert(self.nodes.node(h)@ == self.nodes@[h]);
            assert(self.nodes.is_node(h)) by {
                assert(self.nodes.arena.generation(h) == grown.nodes.arena.generation(h));
            }
            assert(self.nodes.node(h).same_links(&grown.nodes.node(h)));
            assert(self.nodes.node(h)@.children == grown.nodes.node(h)@.children);
            assert(self.nodes.keeps(&before.nodes)) by {
                assert forall|i: int| #[trigger] before.nodes.is_node(i) implies self.nodes.is_node(i)
                    && self.nodes.arena.generation(i) == before.nodes.arena.generation(i) by {
                    assert(grown.nodes.is_node(i));
                    assert(self.nodes.arena.generation(i) == grown.nodes.arena.generation(i));
                }
            }
        }
    }

    /// Searches from the head, round upon round, until the time of a search
    /// is up or the most rounds are made; one round at the least.
    #[verifier::rlimit(50)]
    pub fn _populate_tree(&mut self)
        requires
            old(self).wf(),
        ensures
            final(self).wf(),
            final(self).head() == old(self).head(),
            final(self).fen() == old(self).fen(),
            final(self).max_search_depth() == old(self).max_search_depth(),
            final(self).cutoff() == old(self).cutoff(),
            final(self).store().keeps(&old(self).store()),
            (final(self).store().node(final(self).head().index())@.children.len() > 0) == old(
                self,
            ).movable(),
            final(self).searched_from(old(self)),
            exists|rounds: nat|
                1 <= rounds && (rounds <= old(self).max_rounds() || rounds == 1)
                    && final(self).store().node(final(self).head().index())@.visits
                    == #[trigger] after_rounds(
                    old(self).store().node(old(self).head().index())@.visits,
                    rounds,
                ),
    {
        let ghost before = *self;
        let start = now();
        let most = if self.params.max_iterations == 0 {
            1
        } else {
            self.params.max_iterations
        };
        let mut made: u64 = 0;
        let mut going = true;
        proof {
            before.nodes.lemma_fen_of_place(before.head.index());
            assert(before.nodes.is_node(before.head.index()));
            assert(before.nodes.node(before.head.index()).sound());
        }
        while going
            invariant
                before.wf(),
                self.wf(),
                self.head == before.head,
                self.params == before.params,
                self.nodes.keeps(&before.nodes),
                self.nodes.node(self.head.index()).place() == before.nodes.node(
                    before.head.index(),
                ).place(),
                self.nodes.node(self.head.index())@.depth == before.nodes.node(
                    before.head.index(),
                )@.depth,
                made == 0 ==> *self == before,
                Tree::searched(&before, self, made as nat),
                made > 0 ==> (self.nodes.node(self.head.index())@.children.len() > 0)
                    == before.movable(),
                before.nodes.node(before.head.index())@.visits <= VISIT_LIMIT,
                self.nodes.node(self.head.index())@.visits == after_rounds(
                    before.nodes.node(before.head.index())@.visits,
                    made as nat,
                ),
                made <= most,
                going ==> made < most,
                !going ==> made > 0,
                most == if before.params.max_iterations == 0 {
                    1
                } else {
                    before.params.max_iterations
                },
            decreases most - made, going as int,
        {
            let ghost here = *self;
            proof {
                here.nodes.lemma_fen_of_place(here.head.index());
                assert(here.movable() == before.movable() || made == 0);
                if made > 0 {
                    assert(here.depth_limit() == before.depth_limit());
                    assert(here.fen() == before.fen());
                    if here.nodes.node(here.head.index())@.children.len() == 0 {
                        assert(!before.movable());
                        assert(!here.movable());
                    }
                }
            }
            self.round();
            proof {
                assert(self.nodes.keeps(&before.nodes)) by {
                    assert forall|i: int| #[trigger] before.nodes.is_node(i) implies self.nodes.is_node(
                        i,
                    ) && self.nodes.arena.generation(i) == before.nodes.arena.generation(i) by {
                        assert(here.nodes.is_node(i));
                    }
                }
            }
            proof {
                Tree::lemma_searched_on(&before, &here, self, made as nat);
            }
            made = made + 1;
            let gone = millis(&elapsed(&start));
            going = goes_on(made, most, gone, self.params.max_search_time);
        }
        proof {
            self.nodes.lemma_fen_of_place(self.head.index());
            assert(Tree::searched(&before, self, made as nat));
        }
    }

    /// Searches from the head, one round at the least, and makes the move
    /// found best for the bot, which plays `color_to_play`: the head of the
    /// tree as the search left it moves to the child with the largest share
    /// of playouts that went well for the bot. Returns the move. Fails where
    /// the head has no children even after the search.
    pub fn yield_best_move(&mut self, color_to_play: Color) -> (r: Result<String, NoAvailableMoveError>)
        requires
            old(self).wf(),
        ensures
            final(self).wf(),
            final(self).max_search_depth() == old(self).max_search_depth(),
            final(self).cutoff() == old(self).cutoff(),
            match r {
                Ok(mv) => {
                    &&& old(self).movable()
                    &&& is_legal(old(self).fen(), mv@)
                    &&& final(self).fen() == rules_apply(old(self).fen(), mv@)
                    &&& final(self).all_reached()
                    &&& final(self).store().node(final(self).head().index())@.parents.len() == 0
                },
                Err(_) => !old(self).movable() && final(self).fen() == old(self).fen(),
            },
            Tree::searched_and_moved(
                old(self),
                final(self),
                match r {
                    Ok(mv) => Some(mv@),
                    Err(_) => None,
                },
                color_to_play,
            ),
    {
        self._populate_tree();
        let ghost mid = *self;
        let r = self._yield_best_move(color_to_play);
        proof {
            assert(mid.searched_from(old(self)));
        }
        r
    }
}

} // verus!
