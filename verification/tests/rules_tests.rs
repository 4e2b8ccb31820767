use mcts_bot::rules::{
    contains_text, count_men, readable, kings_present, placement_is_sound, placement_text, playout, rank_is_sound, squares,
    BoardStatus, Color, Position,
};
use std::str::FromStr;

const START: &str = "rnbqkbnr/pppppppp/8/8/8/8/PPPPPPPP/RNBQKBNR w KQkq - 0 1";
const FOOLS_MATE: &str = "rnb1kbnr/pppp1ppp/8/4p3/6Pq/5P2/PPPPP2P/RNBQKBNR w KQkq - 1 3";
const STALEMATE: &str = "7k/5Q2/6K1/8/8/8/8/8 b - - 0 1";

#[test]
fn initial_position_is_the_start_of_a_game() {
    let p = Position::initial();
    assert_eq!(p.get_fen(), START);
    assert_eq!(p.side_to_move(), Color::White);
    assert_eq!(p.status(), BoardStatus::Ongoing);
    assert_eq!(p.get_hash(), chess::Board::default().get_hash());
}

#[test]
fn from_fen_reads_what_the_rules_engine_reads() {
    let p = Position::from_fen(START).expect("the start is a position");
    assert_eq!(p.get_fen(), START);
    assert!(p.same_text(&Position::initial()));
}

#[test]
fn from_fen_gives_the_text_the_rules_engine_prints() {
    // Move counters are not kept by the rules engine: it prints "0 1".
    let p = Position::from_fen("rnbqkbnr/pppppppp/8/8/4P3/8/PPPP1PPP/RNBQKBNR b KQkq e3 7 42")
        .expect("a position");
    let board =
        chess::Board::from_str("rnbqkbnr/pppppppp/8/8/4P3/8/PPPP1PPP/RNBQKBNR b KQkq e3 7 42")
            .unwrap();
    assert_eq!(p.get_fen(), board.to_string());
    assert_eq!(p.get_fen(), "rnbqkbnr/pppppppp/8/8/4P3/8/PPPP1PPP/RNBQKBNR b KQkq - 0 1");
    assert_eq!(p.get_hash(), board.get_hash());
    assert_eq!(p.side_to_move(), Color::Black);
}

#[test]
fn from_fen_refuses_a_text_without_kings() {
    assert!(Position::from_fen("8/8/8/8/8/8/8/8 w - - 0 1").is_none());
    assert!(Position::from_fen("8/8/8/8/8/8/8/8 w Kk - 0 1").is_none());
    assert!(Position::from_fen("4k3/8/8/8/8/8/8/8 w - - 0 1").is_none());
    assert!(Position::from_fen("").is_none());
}

#[test]
fn from_fen_refuses_what_the_rules_engine_refuses() {
    assert!(Position::from_fen("Kk").is_none());
    assert!(Position::from_fen("not a position with K and k").is_none());
    // The side not to move is in check.
    assert!(Position::from_fen("4k3/8/8/8/8/8/8/4K2r b - - 0 1").is_none());
}

#[test]
fn kings_are_looked_for_in_the_placement_only() {
    assert!(kings_present(START));
    assert!(kings_present("Kk"));
    assert!(!kings_present("K w k"));
    assert!(!kings_present(" Kk"));
    assert!(!kings_present("8/8 w Kk"));
    assert!(!kings_present(""));
}

#[test]
fn start_has_twenty_legal_moves_in_the_rules_engines_order() {
    let moves = Position::initial().legal_moves();
    let expected: Vec<String> = chess::MoveGen::new_legal(&chess::Board::default())
        .map(|m| m.to_string())
        .collect();
    assert_eq!(moves.len(), 20);
    assert_eq!(moves, expected);
    assert!(contains_text(&moves, "e2e4"));
    assert!(!contains_text(&moves, "e2e5"));
}

#[test]
fn successor_makes_the_move_as_the_rules_engine_does() {
    let p = Position::initial().successor("e2e4").expect("a legal move");
    let board = chess::Board::default()
        .make_move_new(chess::ChessMove::from_str("e2e4").unwrap());
    assert_eq!(p.get_fen(), board.to_string());
    assert_ne!(p.get_fen(), START);
    assert_eq!(p.get_hash(), board.get_hash());
    assert_ne!(p.get_hash(), Position::initial().get_hash());
    assert_eq!(p.side_to_move(), Color::Black);
    assert_eq!(p.status(), BoardStatus::Ongoing);
}

#[test]
fn successor_refuses_a_move_that_is_not_legal() {
    let p = Position::initial();
    assert!(p.successor("e2e5").is_none());
    assert!(p.successor("e7e5").is_none());
    assert!(p.successor("").is_none());
    assert!(p.successor("E2E4").is_none());
}

#[test]
fn play_keeps_the_en_passant_square_where_a_capture_is_there() {
    let p = Position::initial()
        .play("e2e4")
        .play("a7a6")
        .play("e4e5")
        .play("d7d5");
    let fen = p.get_fen();
    // The rules engine names the square of the pawn that can be taken.
    assert_eq!(fen, "rnbqkbnr/1pp1pppp/p7/3pP3/8/8/PPPP1PPP/RNBQKBNR w KQkq d5 0 1");
    assert!(contains_text(&p.legal_moves(), "e5d6"));
    let again = Position::from_fen(&fen).expect("reads back");
    assert_eq!(again.get_fen(), fen);
    assert_eq!(again.get_hash(), p.get_hash());
}

#[test]
fn status_tells_mate_from_stalemate() {
    let mate = Position::from_fen(FOOLS_MATE).expect("a position");
    assert_eq!(mate.status(), BoardStatus::Checkmate);
    assert_eq!(mate.side_to_move(), Color::White);
    assert_eq!(mate.legal_moves().len(), 0);
    let stale = Position::from_fen(STALEMATE).expect("a position");
    assert_eq!(stale.status(), BoardStatus::Stalemate);
    assert_eq!(stale.side_to_move(), Color::Black);
    assert_eq!(stale.legal_moves().len(), 0);
}

#[test]
fn duplicate_is_the_same_position() {
    let p = Position::initial().play("g1f3");
    let q = p.duplicate();
    assert_eq!(q.get_fen(), p.get_fen());
    assert_eq!(q.get_hash(), p.get_hash());
    assert_eq!(q.side_to_move(), p.side_to_move());
    assert_eq!(q.status(), p.status());
    assert!(p.same_text(&q));
    assert!(!p.same_text(&Position::initial()));
}

#[test]
fn playout_of_no_moves_stays_at_the_start() {
    let r = playout(&Position::initial(), 0);
    assert_eq!(r, (BoardStatus::Ongoing, Color::White));
    let r = playout(&Position::initial().play("e2e4"), 0);
    assert_eq!(r, (BoardStatus::Ongoing, Color::Black));
}

#[test]
fn playout_from_a_finished_game_stays_there() {
    let mate = Position::from_fen(FOOLS_MATE).expect("a position");
    assert_eq!(playout(&mate, 200), (BoardStatus::Checkmate, Color::White));
    let stale = Position::from_fen(STALEMATE).expect("a position");
    assert_eq!(playout(&stale, 200), (BoardStatus::Stalemate, Color::Black));
}

#[test]
fn playout_of_one_move_hands_the_move_to_the_other_side() {
    for _ in 0..20 {
        let r = playout(&Position::initial(), 1);
        assert_eq!(r, (BoardStatus::Ongoing, Color::Black));
    }
}

#[test]
fn playout_ends_within_the_cutoff() {
    for _ in 0..5 {
        let (status, _) = playout(&Position::initial(), 200);
        assert!(matches!(
            status,
            BoardStatus::Ongoing | BoardStatus::Checkmate | BoardStatus::Stalemate
        ));
    }
}

#[test]
fn positions_reached_by_chance_read_back_as_themselves() {
    for _ in 0..10 {
        let mut p = Position::initial();
        for _ in 0..60 {
            let moves = p.legal_moves();
            if moves.is_empty() {
                break;
            }
            let i = (p.get_hash() as usize) % moves.len();
            let next = p.successor(&moves[i]).expect("legal");
            let board = chess::Board::from_str(&p.get_fen())
                .unwrap()
                .make_move_new(chess::ChessMove::from_str(&moves[i]).unwrap());
            assert_eq!(next.get_fen(), board.to_string());
            assert_eq!(next.get_hash(), board.get_hash());
            let again = Position::from_fen(&next.get_fen()).expect("reads back");
            assert_eq!(again.get_fen(), next.get_fen());
            assert_eq!(again.get_hash(), next.get_hash());
            assert_eq!(again.status(), next.status());
            let word = next.get_fen().split(' ').nth(1).map(|w| w.to_string());
            assert_eq!(word == Some("w".to_string()), next.side_to_move() == Color::White);
            assert!(readable(&next.get_fen()));
            p = next;
        }
    }
}

#[test]
fn a_rank_has_eight_squares() {
    assert!(rank_is_sound("8"));
    assert!(rank_is_sound("rnbqkbnr"));
    assert!(rank_is_sound("4P3"));
    assert!(rank_is_sound("1p1p1p1p"));
    assert!(!rank_is_sound(""));
    assert!(!rank_is_sound("7"));
    assert!(!rank_is_sound("9"));
    assert!(!rank_is_sound("44p"));
    assert!(!rank_is_sound("8/"));
    assert!(!rank_is_sound("pppppppx"));
    assert!(!rank_is_sound("08"));
    assert_eq!(squares('K'), 1);
    assert_eq!(squares('1'), 1);
    assert_eq!(squares('8'), 8);
    assert_eq!(squares('9'), 0);
    assert_eq!(squares('0'), 0);
    assert_eq!(squares('/'), 0);
    assert_eq!(squares('x'), 0);
}

#[test]
fn a_placement_has_eight_ranks_and_both_kings() {
    assert_eq!(placement_text(START), "rnbqkbnr/pppppppp/8/8/8/8/PPPPPPPP/RNBQKBNR");
    assert_eq!(placement_text(""), "");
    assert_eq!(placement_text(" w"), "");
    assert_eq!(placement_text("abc"), "abc");
    assert!(placement_is_sound(START));
    assert!(placement_is_sound("4k3/8/8/8/8/8/8/4K3"));
    assert!(!placement_is_sound("4k3/8/8/8/8/8/8/8 w K"));
    assert!(!placement_is_sound("4k3/8/8/8/8/8/4K3"));
    assert!(!placement_is_sound("4k3/8/8/8/8/8/8/8/4K3"));
    assert!(!placement_is_sound("4k3/8/8/8/8/8/8/4K4"));
    assert!(!placement_is_sound("Kk"));
    assert!(!placement_is_sound(""));
}

#[test]
fn from_fen_refuses_a_placement_that_runs_over_the_board() {
    // Nine ranks: the last would land on the first.
    assert!(Position::from_fen("4k3/8/8/8/8/8/8/4K3/8 w - - 0 1").is_none());
    // Nine squares in a rank.
    assert!(Position::from_fen("4k4/8/8/8/8/8/8/4K3 w - - 0 1").is_none());
    assert!(Position::from_fen("4k3/8/8/8/8/8/8/4K3 w - - 0 1").is_some());
}

#[test]
fn odd_texts_are_read_or_refused_without_harm() {
    let texts = [
        "4k3/8/8/8/8/8/8/4K3",
        "4k3/8/8/8/8/8/8/4K3 w",
        "4k3/8/8/8/8/8/8/4K3 x - - 0 1",
        "4k3/8/8/8/8/8/8/4K3 w KQkq - 0 1",
        "4k3/8/8/8/8/8/8/4K3 w - e3 0 1",
        "4k3/8/8/8/8/8/8/4K3 w - zz",
        "4k3/8/8/8/8/8/8/4K3  w - -",
        "P3k3/8/8/8/8/8/8/4K2p w - - 0 1",
        "pppkpppp/8/8/8/8/8/8/PPPKPPPP b - - 0 1",
        "kkkkkkkk/8/8/8/8/8/8/KKKKKKKK w - - 0 1",
        "k7/8/8/8/8/8/8/K7 w - - 0 1",
        "kK6/8/8/8/8/8/8/8 w - - 0 1",
        "QQQQQQQQ/QQQQQQQQ/8/8/8/8/8/k6K w - - 0 1",
        "rnbqkbnr/pppppppp/8/8/8/8/PPPPPPPP/RNBQKBNR w KQkq - 0 1 and more",
    ];
    for text in texts {
        if let Some(p) = Position::from_fen(text) {
            let moves = p.legal_moves();
            assert_eq!(moves.is_empty(), p.status() != BoardStatus::Ongoing);
            let again = Position::from_fen(&p.get_fen()).expect("reads back");
            assert_eq!(again.get_fen(), p.get_fen());
            for m in moves.iter() {
                let next = p.successor(m).expect("legal");
                assert!(Position::from_fen(&next.get_fen()).is_some());
            }
            let _ = playout(&p, 40);
        }
    }
}

#[test]
fn a_side_has_sixteen_pieces_at_most() {
    assert_eq!(count_men("rnbqkbnr/pppppppp/8/8/8/8/PPPPPPPP/RNBQKBNR", true), 16);
    assert_eq!(count_men("rnbqkbnr/pppppppp/8/8/8/8/PPPPPPPP/RNBQKBNR", false), 16);
    assert_eq!(count_men("7k/8/8/8/NNNNNNNN/NNNNNNNN/NNNNNNNN/K7", true), 25);
    assert_eq!(count_men("7k/8/8/8/NNNNNNNN/NNNNNNNN/NNNNNNNN/K7", false), 1);
    assert_eq!(count_men("", true), 0);
    assert_eq!(count_men("8/8", false), 0);
    // More knights than the list of moves of the rules engine holds.
    assert!(!placement_is_sound("7k/8/8/8/NNNNNNNN/NNNNNNNN/NNNNNNNN/K7 w - - 0 1"));
    assert!(Position::from_fen("7k/8/8/8/NNNNNNNN/NNNNNNNN/NNNNNNNN/K7 w - - 0 1").is_none());
    assert!(Position::from_fen("7K/8/8/8/nnnnnnnn/nnnnnnnn/nnnnnnnn/k7 b - - 0 1").is_none());
    // Seventeen are one too many, sixteen are not.
    assert!(Position::from_fen("7k/8/8/8/8/N7/NNNNNNNN/KNNNNNNN w - - 0 1").is_none());
    let full = Position::from_fen("7k/8/8/8/8/8/NNNNNNNN/KNNNNNNN w - - 0 1").expect("sixteen");
    assert_eq!(full.status(), BoardStatus::Ongoing);
    assert!(!full.legal_moves().is_empty());
    let _ = playout(&full, 30);
}

#[test]
fn a_capture_in_passing_that_leaves_the_king_in_check_is_no_move() {
    // The knight gives check; to take the pawn in passing does not end it.
    let p = Position::from_fen("4k3/8/8/3Pp3/8/5n2/8/4K3 w - e5 0 1").expect("a position");
    let listed: Vec<String> = chess::MoveGen::new_legal(&chess::Board::from_str(&p.get_fen()).unwrap())
        .map(|m| m.to_string())
        .collect();
    assert!(listed.contains(&"d5e6".to_string()));
    let moves = p.legal_moves();
    assert!(!moves.contains(&"d5e6".to_string()));
    assert_eq!(moves.len() + 1, listed.len());
    assert!(p.successor("d5e6").is_none());
    for m in moves.iter() {
        let next = p.successor(m).expect("legal");
        assert!(readable(&next.get_fen()));
    }
    let _ = playout(&p, 50);
}

#[test]
fn a_capture_in_passing_that_lands_on_the_king_is_no_move() {
    let p = Position::from_fen("4k3/8/4K3/3Pp3/8/8/8/8 w - e5 0 1").expect("a position");
    assert!(!p.legal_moves().contains(&"d5e6".to_string()));
    assert!(p.successor("d5e6").is_none());
    assert!(!p.legal_moves().is_empty());
    let _ = playout(&p, 50);
}

#[test]
fn a_text_is_readable_where_it_is_a_position_as_printed() {
    assert!(readable(START));
    assert!(!readable("rnbqkbnr/pppppppp/8/8/8/8/PPPPPPPP/RNBQKBNR w KQkq - 3 7"));
    assert!(!readable("4k3/8/4P3/8/8/5n2/8/4K3 b - - 0 1"));
    assert!(!readable("4k3/8/4p3/8/8/8/8/8 b - - 0 1"));
    assert!(!readable(""));
    assert!(readable("4k3/8/8/8/8/8/8/4K3 w - - 0 1"));
}

#[test]
fn a_side_in_check_whose_one_listed_move_is_none_is_mated() {
    // The knight mates; all that the rules engine lists is to take the pawn in passing.
    let p = Position::from_fen("4k3/8/8/3Pp3/8/8/5nPP/6RK w - e6 0 1").expect("a position");
    let board = chess::Board::from_str(&p.get_fen()).unwrap();
    let listed: Vec<String> = chess::MoveGen::new_legal(&board).map(|m| m.to_string()).collect();
    assert_eq!(listed, vec!["d5e6".to_string()]);
    assert_eq!(board.status(), chess::BoardStatus::Ongoing);
    assert!(p.legal_moves().is_empty());
    assert_eq!(p.status(), BoardStatus::Checkmate);
    assert!(p.successor("d5e6").is_none());
    assert_eq!(playout(&p, 50), (BoardStatus::Checkmate, Color::White));
}

#[test]
fn a_side_not_in_check_whose_one_listed_move_is_none_is_stalemated() {
    // The king cannot move, and the pawn could only land on it.
    let p = Position::from_fen("4kb2/6p1/3pK1p1/3Pp3/8/8/8/8 w - e6 0 1").expect("a position");
    let board = chess::Board::from_str(&p.get_fen()).unwrap();
    let listed: Vec<String> = chess::MoveGen::new_legal(&board).map(|m| m.to_string()).collect();
    assert_eq!(listed, vec!["d5e6".to_string()]);
    assert_eq!(board.status(), chess::BoardStatus::Ongoing);
    assert!(p.legal_moves().is_empty());
    assert_eq!(p.status(), BoardStatus::Stalemate);
    assert_eq!(playout(&p, 50), (BoardStatus::Stalemate, Color::White));
}

#[test]
fn the_status_goes_with_the_legal_moves() {
    for text in [START, FOOLS_MATE, STALEMATE, "4k3/8/8/3Pp3/8/5n2/8/4K3 w - e5 0 1"] {
        let p = Position::from_fen(text).expect("a position");
        assert_eq!(p.status() == BoardStatus::Ongoing, !p.legal_moves().is_empty());
    }
}
