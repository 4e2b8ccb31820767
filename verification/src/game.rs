//! One game of the bot: the moves made so far, the engine that finds the
//! bot's moves, and what to do when the server tells of the game.

use vstd::prelude::*;
use crate::mcts::search::Searcher;
use crate::mcts::tree::Tree;
use crate::rules::{
    Position, Color, is_legal, legal_line, line_end, rules_apply, rules_board, legal_moves_of,
    rules_move, side_of, sound_placement, read_move, lemma_line_concat,
    lemma_line_prefix,
};
use crate::utils::text::{split_words, words};

verus! {

/// What can go wrong in a game.
#[derive(Debug, Clone, Copy, PartialEq, Eq, Structural)]
pub enum GameError {
    /// A move is not a move, or not a legal one where it was to be made.
    IllegalMove,
    /// The moves the server tells of are not those made here, and no
    /// replaying of moves makes them so.
    Desync,
    /// The bot was asked for a move where there is none.
    NoLegalMove,
    /// The search for a move was given up, or never begun.
    PoolJobFailure,
}

/// What to do when the server tells of a game.
#[derive(Debug, Clone, Copy, PartialEq, Eq, Structural)]
pub enum Reply {
    /// The game is over: stop listening.
    Leave,
    /// The opponent is to move: wait.
    Wait,
    /// The bot is to move: take in the moves told of, then move.
    Move,
}

/// The moves that `texts` are read as, each as the rules engine prints it;
/// none where one of them is no move.
pub open spec fn read_chain(texts: Seq<Seq<char>>) -> Option<Seq<Seq<char>>>
    decreases texts.len(),
{
    if texts.len() == 0 {
        Some(Seq::empty())
    } else {
        match (read_chain(texts.drop_last()), rules_move(texts.last())) {
            (Some(chain), Some(mv)) => Some(chain.push(mv)),
            _ => None,
        }
    }
}

/// Where the first of some texts are not all moves, the texts are not.
pub proof fn lemma_read_chain_prefix(texts: Seq<Seq<char>>, n: int)
    requires
        0 <= n <= texts.len(),
        read_chain(texts.take(n)) is None,
    ensures
        read_chain(texts) is None,
    decreases texts.len() - n,
{
    if n < texts.len() {
        assert(texts.take(n + 1).drop_last() =~= texts.take(n));
        lemma_read_chain_prefix(texts, n + 1);
    } else {
        assert(texts.take(n) =~= texts);
    }
}

/// Reads each of `texts` as a move. None where one of them is no move.
pub fn read_moves(texts: &Vec<String>) -> (r: Option<Vec<String>>)
    ensures
        match r {
            Some(chain) => read_chain(texts.deep_view()) == Some(chain.deep_view()),
            None => read_chain(texts.deep_view()) is None,
        },
{
    let ghost all = texts.deep_view();
    let mut chain: Vec<String> = Vec::new();
    let mut k: usize = 0;
    proof {
        assert(all.take(0) =~= Seq::<Seq<char>>::empty());
        assert(chain.deep_view() =~= Seq::<Seq<char>>::empty());
    }
    while k < texts.len()
        invariant
            all == texts.deep_view(),
            k <= texts.len(),
            read_chain(all.take(k as int)) == Some(chain.deep_view()),
        decreases texts.len() - k,
    {
        let ghost before = chain.deep_view();
        proof {
            assert(all.take(k + 1).drop_last() =~= all.take(k as int));
            assert(all.take(k + 1).last() == texts[k as int]@);
        }
        match read_move(texts[k].as_str()) {
            Some(mv) => {
                chain.push(mv);
                proof {
                    assert(chain.deep_view() =~= before.push(mv@));
                }
            },
            None => {
                proof {
                    lemma_read_chain_prefix(all, k + 1);
                }
                return None;
            },
        }
        k = k + 1;
    }
    proof {
        assert(all.take(texts.len() as int) =~= all);
    }
    Some(chain)
}

/// The number of moves that two lines have in common at their beginnings.
pub fn common_moves(first: &Vec<String>, second: &Vec<String>) -> (n: usize)
    ensures
        n <= first.len(),
        n <= second.len(),
        first.deep_view().take(n as int) == second.deep_view().take(n as int),
        n < first.len() && n < second.len() ==> first.deep_view()[n as int] != second.deep_view()[n as int],
{
    let mut n: usize = 0;
    while n < first.len() && n < second.len() && first[n] == second[n]
        invariant
            n <= first.len(),
            n <= second.len(),
            first.deep_view().take(n as int) == second.deep_view().take(n as int),
        decreases first.len() - n,
    {
        proof {
            assert(first.deep_view()[n as int] == first[n as int]@);
            assert(second.deep_view()[n as int] == second[n as int]@);
            assert(first.deep_view().take(n + 1) =~= first.deep_view().take(n as int).push(
                first.deep_view()[n as int],
            ));
            assert(second.deep_view().take(n + 1) =~= second.deep_view().take(n as int).push(
                second.deep_view()[n as int],
            ));
        }
        n = n + 1;
    }
    proof {
        if n < first.len() && n < second.len() {
            assert(first.deep_view()[n as int] == first[n as int]@);
            assert(second.deep_view()[n as int] == second[n as int]@);
        }
    }
    n
}

/// The side that is to move after the moves told of in `moves`, in a game
/// that White began.
pub open spec fn side_after(moves: Seq<char>) -> Color {
    if words(moves).len() % 2 == 0 {
        Color::White
    } else {
        Color::Black
    }
}

/// The side that is to move after the moves told of in `moves`.
pub fn side_to_play(moves: &str) -> (c: Color)
    ensures
        c == side_after(moves@),
{
    if split_words(moves).len() % 2 == 0 {
        Color::White
    } else {
        Color::Black
    }
}

/// What to do when the server tells of the whole game, with `moves` made so
/// far: move where the bot is to move, wait where it is not.
pub fn on_game_full(bot_is: Color, moves: &str) -> (r: Reply)
    ensures
        r == if side_after(moves@) == bot_is {
            Reply::Move
        } else {
            Reply::Wait
        },
{
    if side_to_play(moves) == bot_is {
        Reply::Move
    } else {
        Reply::Wait
    }
}

/// What to do when the server tells of the state of the game, with `moves`
/// made so far: leave where the game is no longer going on, move where the
/// bot is to move, wait where it is not.
pub fn on_game_state(bot_is: Color, status: &str, moves: &str) -> (r: Reply)
    ensures
        r == if status@ != "started"@ {
            Reply::Leave
        } else if side_after(moves@) == bot_is {
            Reply::Move
        } else {
            Reply::Wait
        },
{
    if status.to_owned() != "started".to_owned() {
        Reply::Leave
    } else {
        on_game_full(bot_is, moves)
    }
}

/// One game of the bot.
pub struct BotGame {
    id: String,
    start: Position,
    moves: Vec<String>,
    searcher: Searcher,
    pub bot_is: Color,
}

impl BotGame {
    /// The game is in order: the moves made so far are a legal line from its
    /// start, and lead to the position that the engine holds.
    pub closed spec fn wf(&self) -> bool {
        &&& self.start.wf()
        &&& self.searcher.wf()
        &&& legal_line(self.start.fen(), self.moves.deep_view())
        &&& line_end(self.start.fen(), self.moves.deep_view()) == self.searcher.fen()
    }

    /// The text of the position the game has come to.
    pub closed spec fn fen(&self) -> Seq<char> {
        self.searcher.fen()
    }

    /// The text of the position the game began in.
    pub closed spec fn began(&self) -> Seq<char> {
        self.start.fen()
    }

    /// The moves made so far.
    pub closed spec fn history(&self) -> Seq<Seq<char>> {
        self.moves.deep_view()
    }

    /// The search tree of the game.
    pub closed spec fn tree(&self) -> Tree {
        self.searcher.tree()
    }

    /// The name of the game.
    pub closed spec fn name(&self) -> Seq<char> {
        self.id@
    }

    /// The side the bot plays.
    pub closed spec fn bot(&self) -> Color {
        self.bot_is
    }

    /// What the game holds fits together.
    pub proof fn lemma_history(&self)
        requires
            self.wf(),
        ensures
            legal_line(self.began(), self.history()),
            line_end(self.began(), self.history()) == self.fen(),
    {
    }

    /// A game named `game_id` that begins in the position `fen`, with the
    /// bot playing `color`. None where `fen` is no position.
    pub fn new_from_challenge(game_id: String, fen: &str, color: Color) -> (r: Option<BotGame>)
        ensures
            r is Some <==> sound_placement(fen@) && rules_board(fen@) is Some,
            r matches Some(g) ==> {
                &&& g.wf()
                &&& g.name() == game_id@
                &&& g.bot() == color
                &&& Some(g.fen()) == rules_board(fen@)
                &&& g.began() == g.fen()
                &&& g.history().len() == 0
            },
    {
        match Position::from_fen(fen) {
            Some(board) => {
                let start = board.duplicate();
                let searcher = Searcher::start(board);
                let g = BotGame { id: game_id, start, moves: Vec::new(), searcher, bot_is: color };
                assert(g.moves.deep_view() =~= Seq::<Seq<char>>::empty());
                Some(g)
            },
            None => None,
        }
    }

    /// The name of the game.
    pub fn id(&self) -> (s: String)
        ensures
            s@ == self.name(),
    {
        self.id.clone()
    }

    /// The side that is to move.
    pub fn botgame_side_to_move(&mut self) -> (c: Color)
        requires
            old(self).wf(),
        ensures
            *final(self) == *old(self),
            c == side_of(old(self).fen()),
    {
        let p = self.searcher.position();
        proof {
            p.lemma_wf();
        }
        p.side_to_move()
    }

    /// The text of the position the game has come to.
    pub fn get_fen(&self) -> (s: String)
        requires
            self.wf(),
        ensures
            s@ == self.fen(),
    {
        self.searcher.position().get_fen()
    }

    /// The position the game has come to.
    pub fn current_position(&self) -> (p: Position)
        requires
            self.wf(),
        ensures
            p.wf(),
            p.fen() == self.fen(),
    {
        self.searcher.position().duplicate()
    }

    /// Takes in one move of the opponent: the head of the search tree moves
    /// to the position come to, with all that was searched below it. A text
    /// that is no move, or no legal one in the position the game has come
    /// to, is refused, and the game stays as it was.
    pub fn observe_opponent_move(&mut self, chess_move: &str) -> (r: Result<(), GameError>)
        requires
            old(self).wf(),
        ensures
            final(self).wf(),
            match r {
                Ok(_) => rules_move(chess_move@) matches Some(mv) && {
                    &&& is_legal(old(self).fen(), mv)
                    &&& final(self).fen() == rules_apply(old(self).fen(), mv)
                    &&& final(self).history() == old(self).history().push(mv)
                    &&& final(self).began() == old(self).began()
                    &&& final(self).bot() == old(self).bot()
                    &&& final(self).name() == old(self).name()
                    &&& exists|next: Position|
                        next.wf() && next.fen() == rules_apply(old(self).fen(), mv)
                            && #[trigger] final(self).tree().rebased_from(&old(self).tree(), next)
                },
                Err(e) => {
                    &&& e == GameError::IllegalMove
                    &&& *final(self) == *old(self)
                    &&& match rules_move(chess_move@) {
                        Some(mv) => !is_legal(old(self).fen(), mv),
                        None => true,
                    }
                },
            },
    {
        match read_move(chess_move) {
            None => Err(GameError::IllegalMove),
            Some(mv) => {
                match self.searcher.provide_opponent_move(mv.as_str()) {
                    Ok(_) => {
                        let ghost before = self.moves.deep_view();
                        self.moves.push(mv);
                        proof {
                            let after = self.moves.deep_view();
                            assert(after =~= before.push(rules_move(chess_move@)->0));
                            assert(after.drop_last() =~= before);
                        }
                        Ok(())
                    },
                    Err(_) => Err(GameError::IllegalMove),
                }
            },
        }
    }

    /// Searches the tree of the game, one round at the least, for the bot's
    /// move and makes it: the head of the tree moves on, with all that was
    /// searched below it. Returns the move. Fails, with the game at the
    /// position and the moves it had, exactly where the game is over.
    pub fn _yield_next_move(&mut self) -> (r: Result<String, GameError>)
        requires
            old(self).wf(),
        ensures
            final(self).wf(),
            final(self).began() == old(self).began(),
            final(self).bot() == old(self).bot(),
            final(self).name() == old(self).name(),
            r is Ok <==> legal_moves_of(old(self).fen()).len() > 0,
            match r {
                Ok(mv) => {
                    &&& is_legal(old(self).fen(), mv@)
                    &&& final(self).fen() == rules_apply(old(self).fen(), mv@)
                    &&& final(self).history() == old(self).history().push(mv@)
                },
                Err(e) => {
                    &&& e == GameError::NoLegalMove
                    &&& final(self).fen() == old(self).fen()
                    &&& final(self).history() == old(self).history()
                },
            },
            Tree::searched_and_moved(
                &old(self).tree(),
                &final(self).tree(),
                match r {
                    Ok(mv) => Some(mv@),
                    Err(_) => None,
                },
                old(self).bot(),
            ),
    {
        let bot_color = self.bot_is;
        match self.searcher._get_next_move_mcts(bot_color) {
            Ok(answer) => {
                let ghost before = self.moves.deep_view();
                let mv = answer.0;
                self.moves.push(mv.clone());
                proof {
                    let after = self.moves.deep_view();
                    assert(after =~= before.push(mv@));
                    assert(after.drop_last() =~= before);
                }
                Ok(mv)
            },
            Err(_) => Err(GameError::NoLegalMove),
        }
    }

    /// Asks for the bot's move, to be found within `time_budget`
    /// milliseconds, and makes it.
    pub fn request_bot_move(&mut self, time_budget: u64) -> (r: Result<String, GameError>)
        requires
            old(self).wf(),
        ensures
            final(self).wf(),
            final(self).began() == old(self).began(),
            final(self).bot() == old(self).bot(),
            final(self).name() == old(self).name(),
            r is Ok <==> legal_moves_of(old(self).fen()).len() > 0,
            match r {
                Ok(mv) => {
                    &&& is_legal(old(self).fen(), mv@)
                    &&& final(self).fen() == rules_apply(old(self).fen(), mv@)
                    &&& final(self).history() == old(self).history().push(mv@)
                },
                Err(e) => {
                    &&& e == GameError::NoLegalMove
                    &&& final(self).fen() == old(self).fen()
                    &&& final(self).history() == old(self).history()
                },
            },
            Tree::searched_and_moved(
                &old(self).tree().with_budget(time_budget, u64::MAX),
                &final(self).tree(),
                match r {
                    Ok(mv) => Some(mv@),
                    Err(_) => None,
                },
                old(self).bot(),
            ),
    {
        self.searcher.set_budget(time_budget, u64::MAX);
        self._yield_next_move()
    }

    /// Takes in the moves made so far as the server tells of them, one word
    /// for each move from the start of the game. The moves that the game
    /// lacks are made, each after a look whether it is legal, and the head of
    /// the search tree moves to the position come to, with all that was
    /// searched below it. Where the game lacks none, nothing is done. Moves
    /// that the game has and the server does not tell of yet are no fault. The game
    /// stays as it was where a word is no move, where one of the moves to be
    /// made is not legal, and where the moves told of part from the moves
    /// made.
    pub fn enter_opponent_move(&mut self, move_chain: &str) -> (r: Result<(), GameError>)
        requires
            old(self).wf(),
        ensures
            final(self).wf(),
            final(self).began() == old(self).began(),
            final(self).bot() == old(self).bot(),
            final(self).name() == old(self).name(),
            match read_chain(words(move_chain@)) {
                None => r == Err::<(), GameError>(GameError::IllegalMove) && *final(self) == *old(self),
                Some(chain) => if old(self).history() == chain {
                    r is Ok && *final(self) == *old(self)
                } else if old(self).history().is_prefix_of(chain) {
                    let rest = chain.skip(old(self).history().len() as int);
                    if legal_line(old(self).fen(), rest) {
                        &&& r is Ok
                        &&& final(self).fen() == line_end(old(self).fen(), rest)
                        &&& final(self).history() == chain
                        &&& exists|next: Position|
                            next.wf() && next.fen() == line_end(old(self).fen(), rest)
                                && #[trigger] final(self).tree().rebased_from(
                                &old(self).tree(),
                                next,
                            )
                    } else {
                        r == Err::<(), GameError>(GameError::IllegalMove) && *final(self) == *old(self)
                    }
                } else if chain.is_prefix_of(old(self).history()) {
                    r is Ok && *final(self) == *old(self)
                } else {
                    r == Err::<(), GameError>(GameError::Desync) && *final(self) == *old(self)
                },
            },
    {
        let texts = split_words(move_chain);
        let chain = match read_moves(&texts) {
            Some(chain) => chain,
            None => {
                return Err(GameError::IllegalMove);
            },
        };
        let ghost told = chain.deep_view();
        let ghost made = self.moves.deep_view();
        let n = common_moves(&self.moves, &chain);
        if n < self.moves.len() {
            proof {
                if made.is_prefix_of(told) {
                    assert(told.take(made.len() as int) == made);
                    assert(told.take(made.len() as int).take(n as int) =~= told.take(n as int));
                    assert(told[n as int] == told.take(made.len() as int)[n as int]);
                    assert(made.take(n as int) == told.take(n as int));
                }
            }
            if n < chain.len() {
                proof {
                    if told.is_prefix_of(made) {
                        assert(made.take(told.len() as int) == told);
                        assert(made[n as int] == made.take(told.len() as int)[n as int]);
                    }
                }
                return Err(GameError::Desync);
            } else {
                proof {
                    assert(made.take(n as int) == told.take(n as int));
                    assert(told.take(n as int) =~= told);
                }
                return Ok(());
            }
        }
        proof {
            assert(made.take(n as int) =~= made);
            assert(made.is_prefix_of(told));
        }
        if n == chain.len() {
            proof {
                assert(told.take(n as int) =~= told);
            }
            return Ok(());
        }
        proof {
            assert(made != told);
        }
        let ghost rest = told.skip(n as int);
        let ghost from = self.fen();
        let mut position = self.current_position();
        let mut k: usize = n;
        proof {
            assert(rest.take(0) =~= Seq::<Seq<char>>::empty());
        }
        while k < chain.len()
            invariant
                *self == *old(self),
                self.wf(),
                read_chain(words(move_chain@)) == Some(told),
                made == self.history(),
                made.is_prefix_of(told),
                made != told,
                n == made.len(),
                from == self.fen(),
                told == chain.deep_view(),
                rest == told.skip(n as int),
                n <= k <= chain.len(),
                position.wf(),
                legal_line(from, rest.take(k - n)),
                position.fen() == line_end(from, rest.take(k - n)),
            decreases chain.len() - k,
        {
            proof {
                assert(rest.take(k - n + 1).drop_last() =~= rest.take(k - n));
                assert(rest.take(k - n + 1).last() == chain[k as int]@) by {
                    assert(told[k as int] == chain[k as int]@);
                }
            }
            match position.successor(chain[k].as_str()) {
                Some(next) => {
                    position = next;
                },
                None => {
                    proof {
                        if legal_line(from, rest) {
                            lemma_line_prefix(from, rest, k - n + 1);
                        }
                    }
                    return Err(GameError::IllegalMove);
                },
            }
            k = k + 1;
        }
        proof {
            assert(rest.take(chain.len() - n) =~= rest);
            assert(made + rest =~= told);
            lemma_line_concat(self.start.fen(), made, rest);
        }
        self.searcher.jump(position);
        self.moves = chain;
        Ok(())
    }
}

/// The move the bot makes, playing `color`, in the game that began in the
/// position `fen` and went on with the moves told of in `move_chain`, found
/// within `time_budget` milliseconds. None where `fen` is no position.
/// Otherwise the moves told of are refused where a word of them is no move or
/// a move is not legal where it was made, and no move is found exactly where
/// the game is over.
pub fn suggest_move(fen: &str, color: Color, move_chain: &str, time_budget: u64) -> (r: Option<
    Result<String, GameError>,
>)
    ensures
        r is Some <==> sound_placement(fen@) && rules_board(fen@) is Some,
        r matches Some(answer) ==> {
            let start = rules_board(fen@)->0;
            match read_chain(words(move_chain@)) {
                None => answer == Err::<String, GameError>(GameError::IllegalMove),
                Some(line) => if !legal_line(start, line) {
                    answer == Err::<String, GameError>(GameError::IllegalMove)
                } else if legal_moves_of(line_end(start, line)).len() == 0 {
                    answer == Err::<String, GameError>(GameError::NoLegalMove)
                } else {
                    answer matches Ok(mv) && is_legal(line_end(start, line), mv@)
                },
            }
        },
{
    match BotGame::new_from_challenge(String::new(), fen, color) {
        None => None,
        Some(mut game) => {
            proof {
                let line = read_chain(words(move_chain@));
                if line is Some {
                    assert(game.history().is_prefix_of(line->0));
                    assert(line->0.skip(0) =~= line->0);
                }
            }
            match game.enter_opponent_move(move_chain) {
                Err(e) => Some(Err(e)),
                Ok(_) => Some(game.request_bot_move(time_budget)),
            }
        },
    }
}

} // verus!
