//! The rules engine as this library sees it.
//!
//! A position is held as the text the `chess` crate prints for a board
//! (Forsyth-Edwards notation) and a move as the text it prints for a move
//! (long algebraic, `e2e4`, `e7e8q`). Everything the search needs to know of a
//! position is asked of the `chess` crate through the small functions below,
//! whose contracts are believed, not proved.

use vstd::prelude::*;
use crate::utils::chance::random_below;
use crate::utils::text::{pieces, split_pieces, words};

verus! {

/// One of the two sides.
#[derive(Clone, Copy, PartialEq, Eq, Structural, Debug)]
pub enum Color {
    White,
    Black,
}

/// Whether the side to move still has a legal move, and if not, why.
#[derive(Clone, Copy, PartialEq, Eq, Structural, Debug)]
pub enum BoardStatus {
    Ongoing,
    Stalemate,
    Checkmate,
}

// The text `chess::Board` prints for the board it reads from `fen`, if it reads one.
pub uninterp spec fn rules_board(fen: Seq<char>) -> Option<Seq<char>>;

// What `chess::Board::get_hash` returns for the board read from `fen`.
pub uninterp spec fn rules_identity(fen: Seq<char>) -> u64;

// What `chess::Board::status` returns for the board read from `fen`.
pub uninterp spec fn rules_status(fen: Seq<char>) -> BoardStatus;

// How many pieces `chess::Board::checkers` holds for the board read from `fen`.
pub uninterp spec fn rules_checkers(fen: Seq<char>) -> u32;

// The moves `chess::MoveGen::new_legal` yields for the board read from `fen`, in its order.
pub uninterp spec fn rules_legal_moves(fen: Seq<char>) -> Seq<Seq<char>>;

// The board `chess::Board::make_move_new` returns for the board read from `fen` and the move read from `mv`.
pub uninterp spec fn rules_apply(fen: Seq<char>, mv: Seq<char>) -> Seq<char>;

// The text `chess::ChessMove` prints for the move it reads from `text`, if it reads one.
pub uninterp spec fn rules_move(text: Seq<char>) -> Option<Seq<char>>;


/// Those of `moves` that lead from `fen` to a position, in their order.
pub open spec fn kept(fen: Seq<char>, moves: Seq<Seq<char>>) -> Seq<Seq<char>>
    decreases moves.len(),
{
    if moves.len() == 0 {
        Seq::empty()
    } else {
        kept(fen, moves.drop_last()) + if is_position(rules_apply(fen, moves.last())) {
            seq![moves.last()]
        } else {
            Seq::empty()
        }
    }
}

/// The legal moves of `fen`: the moves that the rules engine lists, in its
/// order, but those that lead to what is no position. The rules engine is
/// known to list a capture in passing that leaves the king in check, or
/// lands on it; what comes of such a move does not read back.
pub open spec fn legal_moves_of(fen: Seq<char>) -> Seq<Seq<char>> {
    kept(fen, rules_legal_moves(fen))
}

/// `mv` is one of the legal moves of `fen`.
pub open spec fn is_legal(fen: Seq<char>, mv: Seq<char>) -> bool {
    legal_moves_of(fen).contains(mv)
}

/// What is kept of a list of moves are those of its moves that lead to a
/// position.
pub proof fn lemma_kept(fen: Seq<char>, moves: Seq<Seq<char>>, mv: Seq<char>)
    ensures
        kept(fen, moves).contains(mv) <==> moves.contains(mv) && is_position(rules_apply(fen, mv)),
    decreases moves.len(),
{
    if moves.len() > 0 {
        let front = kept(fen, moves.drop_last());
        let back: Seq<Seq<char>> = if is_position(rules_apply(fen, moves.last())) {
            seq![moves.last()]
        } else {
            Seq::empty()
        };
        lemma_kept(fen, moves.drop_last(), mv);
        assert(kept(fen, moves) == front + back);
        if kept(fen, moves).contains(mv) {
            let j = choose|j: int| 0 <= j < (front + back).len() && (front + back)[j] == mv;
            if j < front.len() {
                assert(front[j] == mv);
                assert(front.contains(mv));
                let k = choose|k: int| 0 <= k < moves.drop_last().len() && moves.drop_last()[k] == mv;
                assert(moves[k] == mv);
            } else {
                assert(back[j - front.len()] == mv);
                assert(moves[moves.len() - 1] == mv);
            }
        }
        if moves.contains(mv) && is_position(rules_apply(fen, mv)) {
            let k = choose|k: int| 0 <= k < moves.len() && moves[k] == mv;
            if k < moves.len() - 1 {
                assert(moves.drop_last()[k] == mv);
                assert(moves.drop_last().contains(mv));
                let j = choose|j: int| 0 <= j < front.len() && front[j] == mv;
                assert((front + back)[j] == mv);
            } else {
                assert((front + back)[front.len() as int] == mv);
            }
        }
    }
}

/// `mv` is legal in `fen` exactly where the rules engine lists it and it
/// leads to a position.
pub proof fn lemma_is_legal(fen: Seq<char>, mv: Seq<char>)
    ensures
        is_legal(fen, mv) <==> rules_legal_moves(fen).contains(mv) && is_position(
            rules_apply(fen, mv),
        ),
{
    lemma_kept(fen, rules_legal_moves(fen), mv);
}

/// Where none of some moves leads to a position, none is kept.
pub proof fn lemma_none_kept(fen: Seq<char>, moves: Seq<Seq<char>>)
    requires
        forall|m: Seq<char>| moves.contains(m) ==> !is_position(#[trigger] rules_apply(fen, m)),
    ensures
        kept(fen, moves).len() == 0,
{
    if kept(fen, moves).len() > 0 {
        let m = kept(fen, moves)[0];
        assert(kept(fen, moves).contains(m));
        lemma_kept(fen, moves, m);
    }
}

/// The status of `fen`: that of the rules engine, but where the engine
/// lets the game go on and no move that it lists leads to a position. The
/// side to move is then mated where a piece gives check, and has no move
/// and is not mated otherwise.
pub open spec fn status_of(fen: Seq<char>) -> BoardStatus {
    if rules_status(fen) is Ongoing && legal_moves_of(fen).len() == 0 {
        if rules_checkers(fen) > 0 {
            BoardStatus::Checkmate
        } else {
            BoardStatus::Stalemate
        }
    } else {
        rules_status(fen)
    }
}

/// The position that the moves of `line`, made one after the other, lead to
/// from `start`.
pub open spec fn line_end(start: Seq<char>, line: Seq<Seq<char>>) -> Seq<char>
    decreases line.len(),
{
    if line.len() == 0 {
        start
    } else {
        rules_apply(line_end(start, line.drop_last()), line.last())
    }
}

/// Each move of `line` is legal where it is made.
pub open spec fn legal_line(start: Seq<char>, line: Seq<Seq<char>>) -> bool
    decreases line.len(),
{
    line.len() == 0 || (legal_line(start, line.drop_last()) && is_legal(
        line_end(start, line.drop_last()),
        line.last(),
    ))
}

/// A line made after another is a line from the start of the first.
pub proof fn lemma_line_concat(start: Seq<char>, first: Seq<Seq<char>>, second: Seq<Seq<char>>)
    ensures
        line_end(start, first + second) == line_end(line_end(start, first), second),
        legal_line(start, first + second) == (legal_line(start, first) && legal_line(
            line_end(start, first),
            second,
        )),
    decreases second.len(),
{
    if second.len() == 0 {
        assert(first + second =~= first);
    } else {
        assert((first + second).drop_last() =~= first + second.drop_last());
        assert((first + second).last() == second.last());
        lemma_line_concat(start, first, second.drop_last());
    }
}

/// The first moves of a legal line are a legal line.
pub proof fn lemma_line_prefix(start: Seq<char>, line: Seq<Seq<char>>, n: int)
    requires
        0 <= n <= line.len(),
        legal_line(start, line),
    ensures
        legal_line(start, line.take(n)),
{
    assert(line.take(n) + line.skip(n) =~= line);
    lemma_line_concat(start, line.take(n), line.skip(n));
}

/// The piece placement of a position text: all that stands before its first blank.
pub open spec fn placement(fen: Seq<char>) -> Seq<char>
    decreases fen.len(),
{
    if fen.len() == 0 || fen[0] == ' ' {
        Seq::empty()
    } else {
        seq![fen[0]] + placement(fen.drop_first())
    }
}

/// Both kings stand in the piece placement of `fen`.
pub open spec fn has_kings(fen: Seq<char>) -> bool {
    placement(fen).contains('K') && placement(fen).contains('k')
}

/// The squares that the character `c` stands for in a piece placement: one
/// for a piece, as many as it says for a digit, none for anything else.
pub open spec fn squares_of(c: char) -> nat {
    if c == 'p' || c == 'n' || c == 'b' || c == 'r' || c == 'q' || c == 'k' || c == 'P' || c == 'N'
        || c == 'B' || c == 'R' || c == 'Q' || c == 'K' || c == '1' {
        1
    } else if c == '2' {
        2
    } else if c == '3' {
        3
    } else if c == '4' {
        4
    } else if c == '5' {
        5
    } else if c == '6' {
        6
    } else if c == '7' {
        7
    } else if c == '8' {
        8
    } else {
        0
    }
}

/// The squares that the characters of `rank` stand for, added up.
pub open spec fn rank_width(rank: Seq<char>) -> nat
    decreases rank.len(),
{
    if rank.len() == 0 {
        0
    } else {
        rank_width(rank.drop_last()) + squares_of(rank.last())
    }
}

/// `rank` describes the eight squares of a rank, and nothing else.
pub open spec fn sound_rank(rank: Seq<char>) -> bool {
    rank_width(rank) == 8 && forall|i: int| 0 <= i < rank.len() ==> squares_of(#[trigger] rank[i]) > 0
}

/// Whether `c` stands for a piece of White, where `white` is set, or of
/// Black, where it is not.
pub open spec fn is_man(c: char, white: bool) -> bool {
    if white {
        c == 'P' || c == 'N' || c == 'B' || c == 'R' || c == 'Q' || c == 'K'
    } else {
        c == 'p' || c == 'n' || c == 'b' || c == 'r' || c == 'q' || c == 'k'
    }
}

/// The number of pieces of one side that `field` names.
pub open spec fn men(field: Seq<char>, white: bool) -> nat
    decreases field.len(),
{
    if field.len() == 0 {
        0
    } else {
        men(field.drop_last(), white) + if is_man(field.last(), white) { 1nat } else { 0nat }
    }
}

/// The most pieces a side has.
pub const MOST_MEN: usize = 16;

/// The piece placement of `fen` describes eight ranks of eight squares, with
/// both kings among the pieces and no more pieces of a side than a game
/// begins with.
pub open spec fn sound_placement(fen: Seq<char>) -> bool {
    let ranks = pieces(placement(fen), '/');
    &&& has_kings(fen)
    &&& ranks.len() == 8
    &&& forall|i: int| 0 <= i < ranks.len() ==> sound_rank(#[trigger] ranks[i])
    &&& men(placement(fen), true) <= MOST_MEN
    &&& men(placement(fen), false) <= MOST_MEN
}

/// `fen` is the text of a board exactly as the rules engine prints it, and
/// its piece placement is sound.
pub open spec fn is_position(fen: Seq<char>) -> bool {
    rules_board(fen) == Some(fen) && sound_placement(fen)
}

/// Reads a board with `chess::Board::from_str` and prints it again.
///
/// Believed: the result is a function of the text alone, and the printed
/// board reads back as itself. Only a text whose piece placement is sound
/// is handed over: the crate wraps round at the edge of the board, so that
/// a piece may land on another, looks up the kings' squares before it
/// checks that there are kings, and lists the moves of a side in a place
/// that holds those of sixteen pieces and no more. Believed too: the text
/// printed for a board read from a sound placement has a sound placement,
/// as it names the same pieces on eight ranks of eight squares.
#[verifier::external_body]
fn read_board(fen: &str) -> (r: Option<String>)
    requires
        sound_placement(fen@),
    ensures
        match r {
            Some(s) => rules_board(fen@) == Some(s@) && is_position(s@),
            None => rules_board(fen@) is None,
        },
{
    fen.parse::<chess::Board>().ok().map(|b| b.to_string())
}

/// Prints `chess::Board::default()`, the start of a game.
///
/// Believed: the text is the one below, as the crate's own tests assert,
/// reads back as itself, and has a sound placement.
#[verifier::external_body]
fn start_board() -> (r: String)
    ensures
        r@ == "rnbqkbnr/pppppppp/8/8/8/8/PPPPPPPP/RNBQKBNR w KQkq - 0 1"@,
        is_position(r@),
{
    chess::Board::default().to_string()
}

/// `chess::Board::get_hash` of the board read from `fen`.
///
/// Believed: the hash is a function of the board alone. It is folded from
/// tables of constants that are laid down when the crate is built.
#[verifier::external_body]
fn board_identity(fen: &str) -> (h: u64)
    requires
        is_position(fen@),
    ensures
        h == rules_identity(fen@),
{
    fen.parse::<chess::Board>().unwrap().get_hash()
}

/// The side to move that a position text names: White where its second
/// word is `w`, Black otherwise.
pub open spec fn side_of(fen: Seq<char>) -> Color {
    if words(fen).len() > 1 && words(fen)[1] == seq!['w'] {
        Color::White
    } else {
        Color::Black
    }
}

/// `chess::Board::side_to_move` of the board read from `fen`.
///
/// Believed: the side is the one that the second word of the text names.
/// The crate reads the side from that word, and a position is a text as the
/// crate prints it, with `w` or `b` for its second word.
#[verifier::external_body]
fn board_side_to_move(fen: &str) -> (c: Color)
    requires
        is_position(fen@),
    ensures
        c == side_of(fen@),
{
    match fen.parse::<chess::Board>().unwrap().side_to_move() {
        chess::Color::White => Color::White,
        chess::Color::Black => Color::Black,
    }
}

/// `chess::Board::status` of the board read from `fen`.
///
/// Believed beside the name: the status is `Ongoing` exactly when there is a
/// legal move, which is how the crate computes it. The crate lists the
/// moves to count them; that a position has a sound placement keeps away
/// the boards whose moves the list does not hold.
#[verifier::external_body]
fn board_status(fen: &str) -> (s: BoardStatus)
    requires
        is_position(fen@),
    ensures
        s == rules_status(fen@),
        (s is Ongoing) == (rules_legal_moves(fen@).len() > 0),
{
    match fen.parse::<chess::Board>().unwrap().status() {
        chess::BoardStatus::Ongoing => BoardStatus::Ongoing,
        chess::BoardStatus::Stalemate => BoardStatus::Stalemate,
        chess::BoardStatus::Checkmate => BoardStatus::Checkmate,
    }
}

/// The number of pieces in `chess::Board::checkers` of the board read from
/// `fen`: those that give check to the side to move.
#[verifier::external_body]
fn board_checkers(fen: &str) -> (n: u32)
    requires
        is_position(fen@),
    ensures
        n == rules_checkers(fen@),
{
    fen.parse::<chess::Board>().unwrap().checkers().popcnt()
}

/// The moves of the board read from `fen` that `chess::MoveGen::new_legal`
/// yields, in its order, each printed. That a position has a sound placement keeps
/// away the boards whose moves the crate's list does not hold.
#[verifier::external_body]
fn board_legal_moves(fen: &str) -> (r: Vec<String>)
    requires
        is_position(fen@),
    ensures
        r.deep_view() == rules_legal_moves(fen@),
{
    chess::MoveGen::new_legal(&fen.parse::<chess::Board>().unwrap()).map(|m| m.to_string()).collect()
}

/// `chess::Board::make_move_new` on the board read from `fen`, with the move
/// read from `mv`; the new board printed.
///
/// Believed: the text is a function of the two texts alone. Nothing is
/// believed of what the text is: the crate lists moves that it should not,
/// and makes any move without a look. Whether the text is a position is
/// found by reading it back. A move that the crate does not list is kept
/// away.
#[verifier::external_body]
fn board_apply(fen: &str, mv: &str) -> (r: String)
    requires
        is_position(fen@),
        rules_legal_moves(fen@).contains(mv@),
    ensures
        r@ == rules_apply(fen@, mv@),
{
    fen.parse::<chess::Board>().unwrap().make_move_new(mv.parse::<chess::ChessMove>().unwrap()).to_string()
}

/// Reads a move with `chess::ChessMove::from_str` and prints it again.
#[verifier::external_body]
pub(crate) fn read_move(text: &str) -> (r: Option<String>)
    ensures
        match r {
            Some(m) => rules_move(text@) == Some(m@),
            None => rules_move(text@) is None,
        },
{
    text.parse::<chess::ChessMove>().ok().map(|m| m.to_string())
}


/// A position of the game, with what the search reads of it kept beside its
/// text: the hash that identifies it, the side to move and the status.
pub struct Position {
    fen: String,
    hash: u64,
    side: Color,
    status: BoardStatus,
}

impl Position {
    /// The cached facts are those of the text.
    pub closed spec fn wf(&self) -> bool {
        &&& is_position(self.fen@)
        &&& self.hash == rules_identity(self.fen@)
        &&& self.side == side_of(self.fen@)
        &&& self.status == status_of(self.fen@)
        &&& (self.status is Ongoing) == (legal_moves_of(self.fen@).len() > 0)
    }

    /// The text of the position.
    pub closed spec fn fen(&self) -> Seq<char> {
        self.fen@
    }

    /// The hash under which the position is known.
    pub closed spec fn identity(&self) -> u64 {
        self.hash
    }

    pub closed spec fn side(&self) -> Color {
        self.side
    }

    pub closed spec fn board_status(&self) -> BoardStatus {
        self.status
    }

    /// What `wf` says of a position, over its public view.
    pub proof fn lemma_wf(&self)
        requires
            self.wf(),
        ensures
            is_position(self.fen()),
            self.identity() == rules_identity(self.fen()),
            self.side() == side_of(self.fen()),
            self.board_status() == status_of(self.fen()),
            (self.board_status() is Ongoing) == (legal_moves_of(self.fen()).len() > 0),
    {
    }

    fn build(fen: String) -> (p: Position)
        requires
            is_position(fen@),
        ensures
            p.wf(),
            p.fen() == fen@,
    {
        let hash = board_identity(fen.as_str());
        let side = board_side_to_move(fen.as_str());
        let status = match board_status(fen.as_str()) {
            BoardStatus::Ongoing => {
                if has_move(fen.as_str()) {
                    BoardStatus::Ongoing
                } else if board_checkers(fen.as_str()) > 0 {
                    BoardStatus::Checkmate
                } else {
                    BoardStatus::Stalemate
                }
            },
            BoardStatus::Stalemate => BoardStatus::Stalemate,
            BoardStatus::Checkmate => BoardStatus::Checkmate,
        };
        proof {
            if rules_legal_moves(fen@).len() == 0 {
                assert(legal_moves_of(fen@).len() == 0);
            }
        }
        Position { fen, hash, side, status }
    }

    /// The start of a game.
    pub fn initial() -> (p: Position)
        ensures
            p.wf(),
            p.fen() == "rnbqkbnr/pppppppp/8/8/8/8/PPPPPPPP/RNBQKBNR w KQkq - 0 1"@,
    {
        Position::build(start_board())
    }

    /// Reads a position. `None` where the piece placement of the text is
    /// not sound or the rules engine refuses the text.
    pub fn from_fen(fen: &str) -> (r: Option<Position>)
        ensures
            r is Some <==> sound_placement(fen@) && rules_board(fen@) is Some,
            r matches Some(p) ==> p.wf() && Some(p.fen()) == rules_board(fen@),
    {
        if !placement_is_sound(fen) {
            return None;
        }
        match read_board(fen) {
            Some(text) => Some(Position::build(text)),
            None => None,
        }
    }

    pub fn get_fen(&self) -> (s: String)
        ensures
            s@ == self.fen(),
    {
        self.fen.clone()
    }

    pub fn get_hash(&self) -> (h: u64)
        ensures
            h == self.identity(),
    {
        self.hash
    }

    pub fn side_to_move(&self) -> (c: Color)
        ensures
            c == self.side(),
    {
        self.side
    }

    pub fn status(&self) -> (s: BoardStatus)
        ensures
            s == self.board_status(),
    {
        self.status
    }

    pub fn same_text(&self, other: &Position) -> (b: bool)
        ensures
            b == (self.fen() == other.fen()),
    {
        self.fen == other.fen
    }

    pub fn duplicate(&self) -> (p: Position)
        ensures
            p == *self,
    {
        Position { fen: self.fen.clone(), hash: self.hash, side: self.side, status: self.status }
    }

    /// The legal moves, in the rules engine's order.
    pub fn legal_moves(&self) -> (r: Vec<String>)
        requires
            self.wf(),
        ensures
            r.deep_view() == legal_moves_of(self.fen()),
    {
        let listed = board_legal_moves(self.fen.as_str());
        let ghost all = listed.deep_view();
        let mut moves: Vec<String> = Vec::new();
        let mut k: usize = 0;
        proof {
            assert(all.take(0) =~= Seq::<Seq<char>>::empty());
            assert(moves.deep_view() =~= Seq::<Seq<char>>::empty());
        }
        while k < listed.len()
            invariant
                self.wf(),
                all == listed.deep_view(),
                all == rules_legal_moves(self.fen@),
                k <= listed.len(),
                moves.deep_view() == kept(self.fen@, all.take(k as int)),
            decreases listed.len() - k,
        {
            let ghost before = moves.deep_view();
            proof {
                assert(all[k as int] == listed[k as int]@);
                assert(all.take(k + 1).drop_last() =~= all.take(k as int));
                assert(all.take(k + 1).last() == listed[k as int]@);
            }
            let text = board_apply(self.fen.as_str(), listed[k].as_str());
            if readable(text.as_str()) {
                moves.push(listed[k].clone());
                proof {
                    assert(moves.deep_view() =~= before + seq![listed[k as int]@]);
                }
            } else {
                proof {
                    assert(before + Seq::<Seq<char>>::empty() =~= before);
                }
            }
            k = k + 1;
        }
        proof {
            assert(all.take(listed.len() as int) =~= all);
        }
        moves
    }

    /// The position after `mv`; `None` where `mv` is not a legal move here.
    pub fn successor(&self, mv: &str) -> (r: Option<Position>)
        requires
            self.wf(),
        ensures
            r is Some <==> is_legal(self.fen(), mv@),
            r matches Some(p) ==> p.wf() && p.fen() == rules_apply(self.fen(), mv@),
    {
        proof {
            lemma_is_legal(self.fen@, mv@);
        }
        let listed = board_legal_moves(self.fen.as_str());
        if contains_text(&listed, mv) {
            let text = board_apply(self.fen.as_str(), mv);
            if readable(text.as_str()) {
                Some(Position::build(text))
            } else {
                None
            }
        } else {
            None
        }
    }

    /// The position after a move known to be legal.
    pub fn play(&self, mv: &str) -> (p: Position)
        requires
            self.wf(),
            is_legal(self.fen(), mv@),
        ensures
            p.wf(),
            p.fen() == rules_apply(self.fen(), mv@),
    {
        proof {
            lemma_is_legal(self.fen@, mv@);
        }
        Position::build(board_apply(self.fen.as_str(), mv))
    }
}

/// Whether `text` is a position: whether its placement is sound and the
/// rules engine reads it and prints it as it stands.
pub fn readable(text: &str) -> (b: bool)
    ensures
        b == is_position(text@),
{
    if !placement_is_sound(text) {
        return false;
    }
    match read_board(text) {
        Some(printed) => printed == text.to_owned(),
        None => false,
    }
}

/// Whether the position `fen` has a legal move: whether a move that the
/// rules engine lists leads to a position.
fn has_move(fen: &str) -> (b: bool)
    requires
        is_position(fen@),
    ensures
        b == (legal_moves_of(fen@).len() > 0),
{
    let listed = board_legal_moves(fen);
    let ghost all = listed.deep_view();
    let mut k: usize = 0;
    while k < listed.len()
        invariant
            is_position(fen@),
            all == listed.deep_view(),
            all == rules_legal_moves(fen@),
            k <= listed.len(),
            forall|j: int| 0 <= j < k ==> !is_position(#[trigger] rules_apply(fen@, all[j])),
        decreases listed.len() - k,
    {
        proof {
            assert(all[k as int] == listed[k as int]@);
        }
        let text = board_apply(fen, listed[k].as_str());
        if readable(text.as_str()) {
            proof {
                lemma_is_legal(fen@, all[k as int]);
            }
            return true;
        }
        k = k + 1;
    }
    proof {
        lemma_none_kept(fen@, all);
    }
    false
}

/// A legal move of the position `fen`, picked by chance, with the position
/// it leads to; none where there is no legal move.
pub(crate) fn move_by_chance(fen: &str) -> (r: Option<(String, String)>)
    requires
        is_position(fen@),
    ensures
        match r {
            Some(step) => is_legal(fen@, step.0@) && step.1@ == rules_apply(fen@, step.0@)
                && is_position(step.1@),
            None => legal_moves_of(fen@).len() == 0,
        },
{
    let mut left = board_legal_moves(fen);
    let ghost all = left.deep_view();
    while left.len() > 0
        invariant
            is_position(fen@),
            all == rules_legal_moves(fen@),
            forall|j: int| 0 <= j < left.len() ==> all.contains(#[trigger] left.deep_view()[j]),
            forall|m: Seq<char>|
                all.contains(m) && !left.deep_view().contains(m) ==> !is_position(
                    #[trigger] rules_apply(fen@, m),
                ),
        decreases left.len(),
    {
        let ghost before = left.deep_view();
        let i = random_below(left.len());
        let mv = left.remove(i);
        proof {
            assert(before[i as int] == mv@);
            assert(left.deep_view() =~= before.remove(i as int));
            assert(all.contains(mv@));
        }
        let text = board_apply(fen, mv.as_str());
        if readable(text.as_str()) {
            proof {
                lemma_is_legal(fen@, mv@);
            }
            return Some((mv, text));
        }
        proof {
            assert forall|j: int| 0 <= j < left.len() implies all.contains(
                #[trigger] left.deep_view()[j],
            ) by {
                if j < i {
                    assert(left.deep_view()[j] == before[j]);
                } else {
                    assert(left.deep_view()[j] == before[j + 1]);
                }
            }
            assert forall|m: Seq<char>|
                all.contains(m) && !left.deep_view().contains(m) implies !is_position(
                #[trigger] rules_apply(fen@, m),
            ) by {
                if m != mv@ && before.contains(m) {
                    let j = choose|j: int| 0 <= j < before.len() && before[j] == m;
                    if j < i {
                        assert(left.deep_view()[j] == m);
                    } else {
                        assert(left.deep_view()[j - 1] == m);
                    }
                }
            }
        }
    }
    proof {
        assert forall|m: Seq<char>| all.contains(m) implies !is_position(
            #[trigger] rules_apply(fen@, m),
        ) by {
            assert(!left.deep_view().contains(m));
        }
        lemma_none_kept(fen@, all);
    }
    None
}

/// Whether `text` is among `list`.
pub fn contains_text(list: &Vec<String>, text: &str) -> (b: bool)
    ensures
        b == list.deep_view().contains(text@),
{
    let wanted = text.to_owned();
    let mut i: usize = 0;
    while i < list.len()
        invariant
            i <= list.len(),
            wanted@ == text@,
            forall|j: int| 0 <= j < i ==> list.deep_view()[j] != text@,
        decreases list.len() - i,
    {
        if list[i] == wanted {
            assert(list.deep_view()[i as int] == text@);
            return true;
        }
        i = i + 1;
    }
    false
}

/// The squares that the character `c` stands for in a piece placement.
pub fn squares(c: char) -> (n: u8)
    ensures
        n == squares_of(c),
{
    if c == 'p' || c == 'n' || c == 'b' || c == 'r' || c == 'q' || c == 'k' || c == 'P' || c == 'N'
        || c == 'B' || c == 'R' || c == 'Q' || c == 'K' || c == '1' {
        1
    } else if c == '2' {
        2
    } else if c == '3' {
        3
    } else if c == '4' {
        4
    } else if c == '5' {
        5
    } else if c == '6' {
        6
    } else if c == '7' {
        7
    } else if c == '8' {
        8
    } else {
        0
    }
}

/// A rank is at least as wide as its beginning.
pub proof fn lemma_rank_width_grows(rank: Seq<char>, n: int)
    requires
        0 <= n <= rank.len(),
    ensures
        rank_width(rank.take(n)) <= rank_width(rank),
    decreases rank.len() - n,
{
    if n < rank.len() {
        assert(rank.take(n + 1).drop_last() =~= rank.take(n));
        lemma_rank_width_grows(rank, n + 1);
    } else {
        assert(rank.take(n) =~= rank);
    }
}

/// Whether `rank` describes the eight squares of a rank, and nothing else.
pub fn rank_is_sound(rank: &str) -> (b: bool)
    ensures
        b == sound_rank(rank@),
{
    let n = rank.unicode_len();
    let mut width: usize = 0;
    let mut i: usize = 0;
    proof {
        assert(rank@.take(0) =~= Seq::<char>::empty());
    }
    while i < n
        invariant
            n == rank@.len(),
            i <= n,
            width == rank_width(rank@.take(i as int)),
            width <= 8,
            forall|j: int| 0 <= j < i ==> squares_of(#[trigger] rank@[j]) > 0,
        decreases n - i,
    {
        let c = rank.get_char(i);
        let w = squares(c);
        if w == 0 {
            return false;
        }
        proof {
            assert(rank@.take(i + 1).drop_last() =~= rank@.take(i as int));
            assert(rank@.take(i + 1).last() == c);
        }
        if width + w as usize > 8 {
            proof {
                lemma_rank_width_grows(rank@, i + 1);
            }
            return false;
        }
        width = width + w as usize;
        i = i + 1;
    }
    proof {
        assert(rank@.take(n as int) =~= rank@);
    }
    width == 8
}

/// The piece placement of `fen`.
pub fn placement_text(fen: &str) -> (field: String)
    ensures
        field@ == placement(fen@),
{
    let n = fen.unicode_len();
    let mut i: usize = 0;
    let mut open = true;
    proof {
        assert(fen@.skip(0) == fen@);
        assert(fen@.take(0) + placement(fen@) == placement(fen@));
    }
    while i < n && open
        invariant
            i <= n,
            n == fen@.len(),
            open ==> placement(fen@) == fen@.take(i as int) + placement(fen@.skip(i as int)),
            !open ==> placement(fen@) == fen@.take(i as int),
        decreases n - i, open as int,
    {
        if fen.get_char(i) == ' ' {
            open = false;
        } else {
            proof {
                assert(fen@.skip(i as int).drop_first() == fen@.skip(i as int + 1));
                assert(fen@.take(i as int) + (seq![fen@[i as int]] + placement(fen@.skip(i as int + 1)))
                    == fen@.take(i as int + 1) + placement(fen@.skip(i as int + 1)));
            }
            i = i + 1;
        }
    }
    proof {
        if open {
            assert(fen@.skip(i as int).len() == 0);
        }
        assert(placement(fen@) == fen@.take(i as int));
        assert(fen@.take(i as int) =~= fen@.subrange(0, i as int));
    }
    fen.substring_char(0, i).to_owned()
}

/// The number of pieces of one side that `field` names.
pub fn count_men(field: &str, white: bool) -> (n: usize)
    ensures
        n == men(field@, white),
{
    let len = field.unicode_len();
    let mut n: usize = 0;
    let mut i: usize = 0;
    proof {
        assert(field@.take(0) =~= Seq::<char>::empty());
    }
    while i < len
        invariant
            len == field@.len(),
            i <= len,
            n <= i,
            n == men(field@.take(i as int), white),
        decreases len - i,
    {
        let c = field.get_char(i);
        proof {
            assert(field@.take(i + 1).drop_last() =~= field@.take(i as int));
            assert(field@.take(i + 1).last() == c);
        }
        let man = if white {
            c == 'P' || c == 'N' || c == 'B' || c == 'R' || c == 'Q' || c == 'K'
        } else {
            c == 'p' || c == 'n' || c == 'b' || c == 'r' || c == 'q' || c == 'k'
        };
        if man {
            n = n + 1;
        }
        i = i + 1;
    }
    proof {
        assert(field@.take(len as int) =~= field@);
    }
    n
}

/// Whether the piece placement of `fen` describes eight ranks of eight
/// squares, with both kings among the pieces and no more pieces of a side
/// than a game begins with.
pub fn placement_is_sound(fen: &str) -> (b: bool)
    ensures
        b == sound_placement(fen@),
{
    if !kings_present(fen) {
        return false;
    }
    let field = placement_text(fen);
    if count_men(field.as_str(), true) > MOST_MEN || count_men(field.as_str(), false) > MOST_MEN {
        return false;
    }
    let ranks = split_pieces(field.as_str(), '/');
    if ranks.len() != 8 {
        return false;
    }
    let mut i: usize = 0;
    while i < 8
        invariant
            ranks.len() == 8,
            i <= 8,
            ranks.deep_view() == pieces(placement(fen@), '/'),
            forall|j: int| 0 <= j < i ==> sound_rank(#[trigger] ranks.deep_view()[j]),
        decreases 8 - i,
    {
        proof {
            assert(ranks.deep_view()[i as int] == ranks[i as int]@);
        }
        if !rank_is_sound(ranks[i].as_str()) {
            return false;
        }
        i = i + 1;
    }
    true
}

/// Whether both kings stand in the piece placement of `fen`.
pub fn kings_present(fen: &str) -> (b: bool)
    ensures
        b == has_kings(fen@),
{
    let n = fen.unicode_len();
    let mut white = false;
    let mut black = false;
    let mut i: usize = 0;
    let mut open = true;
    proof {
        assert(fen@.skip(0) == fen@);
        assert(fen@.take(0) + placement(fen@) == placement(fen@));
    }
    while i < n && open
        invariant
            i <= n,
            n == fen@.len(),
            open ==> placement(fen@) == fen@.take(i as int) + placement(fen@.skip(i as int)),
            !open ==> placement(fen@) == fen@.take(i as int),
            white == fen@.take(i as int).contains('K'),
            black == fen@.take(i as int).contains('k'),
        decreases n - i, open as int,
    {
        let c = fen.get_char(i);
        if c == ' ' {
            open = false;
        } else {
            proof {
                lemma_take_step(fen@, i as int, 'K');
                lemma_take_step(fen@, i as int, 'k');
                assert(fen@.skip(i as int).drop_first() == fen@.skip(i as int + 1));
                assert(fen@.take(i as int) + (seq![fen@[i as int]] + placement(fen@.skip(i as int + 1)))
                    == fen@.take(i as int + 1) + placement(fen@.skip(i as int + 1)));
            }
            if c == 'K' {
                white = true;
            }
            if c == 'k' {
                black = true;
            }
            i = i + 1;
        }
    }
    proof {
        if open {
            assert(fen@.skip(i as int).len() == 0);
        }
        assert(placement(fen@) == fen@.take(i as int));
    }
    white && black
}

proof fn lemma_take_step(s: Seq<char>, i: int, c: char)
    requires
        0 <= i < s.len(),
    ensures
        s.take(i + 1).contains(c) == (s.take(i).contains(c) || s[i] == c),
{
    assert(s.take(i + 1) == s.take(i).push(s[i]));
    if s.take(i).contains(c) {
        let j = choose|j: int| 0 <= j < s.take(i).len() && s.take(i)[j] == c;
        assert(s.take(i + 1)[j] == c);
    }
    if s[i] == c {
        assert(s.take(i + 1)[i] == c);
    }
}

/// `r` tells how a playout of at most `cutoff` moves from `start` ended: some
/// line of legal moves leads from `start` to a position of the status and
/// with the side to move that `r` names, and the line stops short of
/// `cutoff` moves only where that position has no legal move.
pub open spec fn played(start: Seq<char>, cutoff: nat, r: (BoardStatus, Color)) -> bool {
    exists|line: Seq<Seq<char>>|
        {
            &&& line.len() <= cutoff
            &&& #[trigger] legal_line(start, line)
            &&& line.len() == cutoff || legal_moves_of(line_end(start, line)).len() == 0
            &&& r.0 == status_of(line_end(start, line))
            &&& r.1 == side_of(line_end(start, line))
        }
}

/// Plays moves picked by chance from `start` until the side to move has none,
/// or `cutoff` moves are made. Returns the status of the position come to and
/// the side to move there.
pub fn playout(start: &Position, cutoff: usize) -> (r: (BoardStatus, Color))
    requires
        start.wf(),
    ensures
        played(start.fen(), cutoff as nat, r),
{
    let mut fen = start.get_fen();
    let mut made: usize = 0;
    let mut open = true;
    let ghost mut line: Seq<Seq<char>> = Seq::empty();
    while made < cutoff && open
        invariant
            start.wf(),
            is_position(fen@),
            legal_line(start.fen(), line),
            fen@ == line_end(start.fen(), line),
            line.len() == made,
            made <= cutoff,
            !open ==> legal_moves_of(fen@).len() == 0,
        decreases cutoff - made, open as int,
    {
        match move_by_chance(fen.as_str()) {
            None => {
                open = false;
            },
            Some(step) => {
                proof {
                    let longer = line.push(step.0@);
                    assert(longer.drop_last() =~= line);
                    line = longer;
                }
                fen = step.1;
                made = made + 1;
            },
        }
    }
    let end = Position::build(fen);
    (end.status(), end.side_to_move())
}

} // verus!
