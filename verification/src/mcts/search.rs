//! The engine that answers for the bot.

use vstd::prelude::*;
use crate::mcts::tree::Tree;
use crate::rules::{Position, Color, is_legal, rules_apply, legal_moves_of};
use crate::utils::chance::random_below;

verus! {

/// There is no move to make: the game is over where the bot is to move, or
/// the search is not allowed to look a single move ahead.
#[derive(Debug, PartialEq, Eq, Structural)]
pub struct NoAvailableMoveError {}

/// The move is none of the legal moves of the position it was to be made in.
#[derive(Debug, PartialEq, Eq, Structural)]
pub struct IllegalMoveError {}

impl NoAvailableMoveError {
    /// The error in words.
    pub fn message(&self) -> (s: String)
        ensures
            s@ == "An error occurred"@,
    {
        "An error occurred".to_owned()
    }
}

/// How deep below the position of the game a search looks.
pub const MAX_SEARCH_DEPTH: usize = 15;

/// What finds the bot's moves.
pub trait Engine<T> {
    /// An engine for a game that stands at `game`.
    fn new(game: Position) -> (engine: T)
        requires
            game.wf(),
    ;

    /// The bot's next move, and whether to offer a draw with it. The move is
    /// a legal one, and is made in the engine's own view of the game. The
    /// engine finds none exactly where there is no legal move, and the game
    /// stays where it was then.
    fn get_next_move(&mut self, bot_color: Color) -> (r: Result<(String, bool), NoAvailableMoveError>)
        requires
            old(self).ready(),
        ensures
            final(self).ready(),
            r is Ok <==> legal_moves_of(old(self).text()).len() > 0,
            match r {
                Ok(answer) => is_legal(old(self).text(), answer.0@) && final(self).text()
                    == rules_apply(old(self).text(), answer.0@),
                Err(_) => final(self).text() == old(self).text(),
            },
    ;

    /// The engine is in order.
    spec fn ready(&self) -> bool;

    /// The text of the position that the game has come to in the engine's
    /// view.
    spec fn text(&self) -> Seq<char>;
}

/// The engine that searches a tree.
pub struct Searcher {
    pub(crate) tree: Tree,
}

impl Searcher {
    /// The searcher is in order: so is its tree, which it may search at
    /// least a move deep.
    pub open(crate) spec fn wf(&self) -> bool {
        self.tree.wf() && self.tree.max_search_depth() > 0
    }

    /// The tree of the searcher.
    pub open(crate) spec fn tree(&self) -> Tree {
        self.tree
    }

    /// The text of the position the game has come to.
    pub open(crate) spec fn fen(&self) -> Seq<char> {
        self.tree.fen()
    }

    /// A searcher for a game that stands at `game`.
    pub fn start(game: Position) -> (s: Searcher)
        requires
            game.wf(),
        ensures
            s.wf(),
            s.fen() == game.fen(),
    {
        Searcher { tree: Tree::new(game, MAX_SEARCH_DEPTH) }
    }

    /// The position the game has come to.
    pub fn position(&self) -> (p: &Position)
        requires
            self.wf(),
        ensures
            p.wf(),
            p.fen() == self.fen(),
    {
        self.tree.position()
    }

    /// The tree, to look at.
    pub fn search_tree(&self) -> (t: &Tree)
        ensures
            *t == self.tree(),
    {
        &self.tree
    }

    /// A legal move picked by chance, and no offer of a draw. The move is not
    /// made. Fails where there is no legal move.
    pub fn _get_next_move_random(&mut self) -> (r: Result<(String, bool), NoAvailableMoveError>)
        requires
            old(self).wf(),
        ensures
            *final(self) == *old(self),
            match r {
                Ok(answer) => is_legal(old(self).fen(), answer.0@) && !answer.1,
                Err(_) => legal_moves_of(old(self).fen()).len() == 0,
            },
    {
        let moves = self.tree.position().legal_moves();
        if moves.len() == 0 {
            Err(NoAvailableMoveError {  })
        } else {
            let i = random_below(moves.len());
            let mv = moves[i].clone();
            proof {
                assert(moves.deep_view()[i as int] == mv@);
            }
            Ok((mv, false))
        }
    }

    /// The move that a search of the tree, of one round at the least, finds
    /// best for the bot, which plays `my_color`, and no offer of a draw. The
    /// move is made: the head of the tree moves on, with all that was
    /// searched below it. Fails, with the game where it was, exactly where
    /// the game is over.
    pub fn _get_next_move_mcts(&mut self, my_color: Color) -> (r: Result<
        (String, bool),
        NoAvailableMoveError,
    >)
        requires
            old(self).wf(),
        ensures
            final(self).wf(),
            r is Ok <==> legal_moves_of(old(self).fen()).len() > 0,
            match r {
                Ok(answer) => {
                    &&& is_legal(old(self).fen(), answer.0@)
                    &&& final(self).fen() == rules_apply(old(self).fen(), answer.0@)
                    &&& !answer.1
                },
                Err(_) => final(self).fen() == old(self).fen(),
            },
            Tree::searched_and_moved(
                &old(self).tree(),
                &final(self).tree(),
                match r {
                    Ok(answer) => Some(answer.0@),
                    Err(_) => None,
                },
                my_color,
            ),
    {
        proof {
            self.tree.lemma_movable();
        }
        match self.tree.yield_best_move(my_color) {
            Ok(best_move) => Ok((best_move, false)),
            Err(e) => Err(e),
        }
    }

    /// Tells the searcher that the opponent has made `chess_move`: the head
    /// of the tree moves to the position come to, with all that was searched
    /// below it. A move that is not legal changes nothing.
    pub fn provide_opponent_move(&mut self, chess_move: &str) -> (r: Result<(), IllegalMoveError>)
        requires
            old(self).wf(),
        ensures
            final(self).wf(),
            match r {
                Ok(_) => {
                    &&& is_legal(old(self).fen(), chess_move@)
                    &&& final(self).fen() == rules_apply(old(self).fen(), chess_move@)
                    &&& exists|next: Position|
                        next.wf() && next.fen() == rules_apply(old(self).fen(), chess_move@)
                            && #[trigger] final(self).tree().rebased_from(&old(self).tree(), next)
                },
                Err(_) => !is_legal(old(self).fen(), chess_move@) && *final(self) == *old(self),
            },
    {
        self.tree.provide_opponent_move(chess_move)
    }

    /// Sets the time a search may take, in milliseconds, and the number of
    /// rounds it may make at most.
    pub fn set_budget(&mut self, milliseconds: u64, rounds: u64)
        ensures
            final(self).wf() == old(self).wf(),
            final(self).fen() == old(self).fen(),
            final(self).tree() == old(self).tree().with_budget(milliseconds, rounds),
    {
        self.tree.set_budget(milliseconds, rounds);
    }

    /// Moves the game on to `next`, whatever the moves that led there: the
    /// head of the tree moves there, with all that was searched below it.
    pub fn jump(&mut self, next: Position)
        requires
            old(self).wf(),
            next.wf(),
        ensures
            final(self).wf(),
            final(self).fen() == next.fen(),
            final(self).tree().rebased_from(&old(self).tree(), next),
    {
        self.tree.rebase(next);
    }
}

impl Engine<Searcher> for Searcher {
    open(crate) spec fn ready(&self) -> bool {
        self.wf()
    }

    open(crate) spec fn text(&self) -> Seq<char> {
        self.fen()
    }

    fn new(game: Position) -> (s: Searcher)
        ensures
            s.wf(),
            s.fen() == game.fen(),
    {
        Searcher::start(game)
    }

    fn get_next_move(&mut self, bot_color: Color) -> (r: Result<(String, bool), NoAvailableMoveError>)
        ensures
            r is Ok <==> legal_moves_of(old(self).fen()).len() > 0,
            r matches Ok(answer) ==> !answer.1,
    {
        self._get_next_move_mcts(bot_color)
    }
}

} // verus!
