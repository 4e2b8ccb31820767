use mcts_bot::game::{
    common_moves, on_game_full, on_game_state, read_moves, side_to_play, suggest_move, BotGame,
    GameError, Reply,
};
use mcts_bot::mcts::search::{Engine, NoAvailableMoveError, Searcher, MAX_SEARCH_DEPTH};
use mcts_bot::rules::{readable, Color, Position};
use std::str::FromStr;

const START: &str = "rnbqkbnr/pppppppp/8/8/8/8/PPPPPPPP/RNBQKBNR w KQkq - 0 1";
const FOOLS_MATE: &str = "rnb1kbnr/pppp1ppp/8/4p3/6Pq/5P2/PPPPP2P/RNBQKBNR w KQkq - 1 3";

fn game(color: Color) -> BotGame {
    BotGame::new_from_challenge("game".to_string(), START, color).expect("a game")
}

#[test]
fn a_game_begins_in_the_position_it_is_given() {
    let mut g = game(Color::Black);
    assert_eq!(g.id(), "game");
    assert_eq!(g.bot_is, Color::Black);
    assert_eq!(g.get_fen(), START);
    assert_eq!(g.botgame_side_to_move(), Color::White);
    assert_eq!(g.current_position().get_hash(), chess::Board::default().get_hash());
}

#[test]
fn a_game_is_not_made_of_a_text_that_is_no_position() {
    assert!(BotGame::new_from_challenge("g".to_string(), "", Color::White).is_none());
    assert!(BotGame::new_from_challenge("g".to_string(), "8/8/8/8/8/8/8/8 w - - 0 1", Color::White)
        .is_none());
    assert!(BotGame::new_from_challenge("g".to_string(), "Kk w", Color::White).is_none());
}

#[test]
fn observed_moves_lead_where_the_rules_engine_leads() {
    let mut g = game(Color::White);
    assert_eq!(g.observe_opponent_move("e2e4"), Ok(()));
    assert_eq!(g.observe_opponent_move("e7e5"), Ok(()));
    let board = chess::Board::default()
        .make_move_new(chess::ChessMove::from_str("e2e4").unwrap())
        .make_move_new(chess::ChessMove::from_str("e7e5").unwrap());
    assert_eq!(g.get_fen(), board.to_string());
    assert_eq!(g.current_position().get_fen(), board.to_string());
    assert_eq!(g.current_position().get_hash(), board.get_hash());
    assert_eq!(g.botgame_side_to_move(), Color::White);
}

#[test]
fn a_move_that_is_not_legal_is_refused_and_nothing_changes() {
    let mut g = game(Color::Black);
    assert_eq!(g.observe_opponent_move("e2e5"), Err(GameError::IllegalMove));
    assert_eq!(g.get_fen(), START);
    assert_eq!(g.observe_opponent_move("e7e5"), Err(GameError::IllegalMove));
    assert_eq!(g.observe_opponent_move("zz"), Err(GameError::IllegalMove));
    assert_eq!(g.observe_opponent_move(""), Err(GameError::IllegalMove));
    assert_eq!(g.get_fen(), START);
    assert_eq!(g.observe_opponent_move("e2e4"), Ok(()));
    let after = g.get_fen();
    assert_eq!(g.observe_opponent_move("e2e4"), Err(GameError::IllegalMove));
    assert_eq!(g.get_fen(), after);
    // The game goes on as if nothing had been: no move was taken in.
    assert_eq!(g.enter_opponent_move("e2e4"), Ok(()));
    assert_eq!(g.get_fen(), after);
}

#[test]
fn a_move_is_read_as_the_rules_engine_reads_it() {
    let mut g = game(Color::Black);
    // What follows the fourth letter is not looked at where it does not make five.
    assert_eq!(g.observe_opponent_move("e2e4xx"), Ok(()));
    assert_eq!(g.get_fen(), Position::initial().play("e2e4").get_fen());
    assert_eq!(g.enter_opponent_move("e2e4"), Ok(()));
}

#[test]
fn the_moves_told_of_are_taken_in() {
    let mut g = game(Color::White);
    assert_eq!(g.enter_opponent_move("e2e4 e7e5 g1f3"), Ok(()));
    assert_eq!(
        g.get_fen(),
        Position::initial().play("e2e4").play("e7e5").play("g1f3").get_fen()
    );
    // Told again, nothing is made twice.
    assert_eq!(g.enter_opponent_move("e2e4 e7e5 g1f3"), Ok(()));
    assert_eq!(
        g.get_fen(),
        Position::initial().play("e2e4").play("e7e5").play("g1f3").get_fen()
    );
    // One more move.
    assert_eq!(g.enter_opponent_move("e2e4 e7e5 g1f3 b8c6"), Ok(()));
    assert_eq!(
        g.get_fen(),
        Position::initial().play("e2e4").play("e7e5").play("g1f3").play("b8c6").get_fen()
    );
}

#[test]
fn no_moves_told_of_is_no_fault() {
    let mut g = game(Color::White);
    assert_eq!(g.enter_opponent_move(""), Ok(()));
    assert_eq!(g.enter_opponent_move("   "), Ok(()));
    assert_eq!(g.get_fen(), START);
}

#[test]
fn moves_made_and_not_yet_told_of_are_no_fault() {
    let mut g = game(Color::White);
    assert_eq!(g.enter_opponent_move("e2e4 e7e5"), Ok(()));
    let fen = g.get_fen();
    assert_eq!(g.enter_opponent_move("e2e4"), Ok(()));
    assert_eq!(g.enter_opponent_move(""), Ok(()));
    assert_eq!(g.get_fen(), fen);
}

#[test]
fn moves_that_part_from_those_made_are_a_desync() {
    let mut g = game(Color::White);
    assert_eq!(g.enter_opponent_move("e2e4 e7e5"), Ok(()));
    let fen = g.get_fen();
    assert_eq!(g.enter_opponent_move("d2d4 d7d5 c2c4"), Err(GameError::Desync));
    assert_eq!(g.enter_opponent_move("e2e4 c7c5"), Err(GameError::Desync));
    assert_eq!(g.enter_opponent_move("d2d4"), Err(GameError::Desync));
    assert_eq!(g.get_fen(), fen);
    assert_eq!(g.enter_opponent_move("e2e4 e7e5 g1f3"), Ok(()));
}

#[test]
fn a_word_that_is_no_move_is_refused() {
    let mut g = game(Color::White);
    assert_eq!(g.enter_opponent_move("e2e4 hello"), Err(GameError::IllegalMove));
    assert_eq!(g.enter_opponent_move("e2"), Err(GameError::IllegalMove));
    assert_eq!(g.enter_opponent_move("e2e4 e7e9"), Err(GameError::IllegalMove));
    assert_eq!(g.get_fen(), START);
}

#[test]
fn a_move_told_of_that_is_not_legal_is_refused_with_all_that_came_with_it() {
    let mut g = game(Color::White);
    assert_eq!(g.enter_opponent_move("e2e4 e7e5 e4e5"), Err(GameError::IllegalMove));
    assert_eq!(g.get_fen(), START);
    assert_eq!(g.enter_opponent_move("e2e4"), Ok(()));
    let fen = g.get_fen();
    assert_eq!(g.enter_opponent_move("e2e4 e7e5 a1a8"), Err(GameError::IllegalMove));
    assert_eq!(g.get_fen(), fen);
}

#[test]
fn the_bot_makes_a_legal_move() {
    let mut g = game(Color::White);
    let before = g.current_position();
    let mv = g.request_bot_move(20).expect("a move");
    assert!(before.legal_moves().contains(&mv));
    assert_eq!(g.get_fen(), before.play(&mv).get_fen());
    assert_eq!(g.botgame_side_to_move(), Color::Black);
    // The move is one of the moves made: the server tells of it next.
    assert_eq!(g.enter_opponent_move(&mv), Ok(()));
    assert_eq!(g.get_fen(), before.play(&mv).get_fen());
    let reply = g.current_position().legal_moves()[0].clone();
    assert_eq!(g.enter_opponent_move(&format!("{} {}", mv, reply)), Ok(()));
    assert_eq!(g.get_fen(), before.play(&mv).play(&reply).get_fen());
}

#[test]
fn the_bot_answers_an_opponent() {
    let mut g = game(Color::Black);
    assert_eq!(g.enter_opponent_move("d2d4"), Ok(()));
    let before = g.current_position();
    let mv = g.request_bot_move(20).expect("a move");
    assert!(before.legal_moves().contains(&mv));
    assert_eq!(g.enter_opponent_move(&format!("d2d4 {} c2c4", mv)), Ok(()));
    assert_eq!(g.get_fen(), before.play(&mv).play("c2c4").get_fen());
    let second = g.request_bot_move(20).expect("a move");
    assert!(before.play(&mv).play("c2c4").legal_moves().contains(&second));
}

#[test]
fn no_move_is_found_where_the_game_is_over() {
    let mut g = BotGame::new_from_challenge("g".to_string(), FOOLS_MATE, Color::White).unwrap();
    let fen = g.get_fen();
    assert_eq!(g.request_bot_move(5), Err(GameError::NoLegalMove));
    assert_eq!(g._yield_next_move(), Err(GameError::NoLegalMove));
    assert_eq!(g.get_fen(), fen);
}

#[test]
fn every_error_is_its_own() {
    assert_ne!(GameError::IllegalMove, GameError::Desync);
    assert_ne!(GameError::NoLegalMove, GameError::PoolJobFailure);
    assert_ne!(GameError::IllegalMove, GameError::NoLegalMove);
    assert_eq!(NoAvailableMoveError {}.message(), "An error occurred");
}

#[test]
fn the_side_to_play_follows_from_the_moves_made() {
    assert_eq!(side_to_play(""), Color::White);
    assert_eq!(side_to_play("e2e4"), Color::Black);
    assert_eq!(side_to_play("e2e4 e7e5"), Color::White);
    assert_eq!(side_to_play("e2e4 e7e5 g1f3"), Color::Black);
    assert_eq!(side_to_play(" e2e4  e7e5 "), Color::White);
}

#[test]
fn the_bot_moves_when_it_is_its_turn() {
    assert_eq!(on_game_full(Color::White, ""), Reply::Move);
    assert_eq!(on_game_full(Color::Black, ""), Reply::Wait);
    assert_eq!(on_game_full(Color::Black, "e2e4"), Reply::Move);
    assert_eq!(on_game_full(Color::White, "e2e4"), Reply::Wait);
    assert_eq!(on_game_full(Color::White, "e2e4 e7e5"), Reply::Move);
    assert_eq!(on_game_state(Color::White, "started", "e2e4 e7e5"), Reply::Move);
    assert_eq!(on_game_state(Color::Black, "started", "e2e4 e7e5"), Reply::Wait);
    assert_eq!(on_game_state(Color::Black, "started", "e2e4"), Reply::Move);
}

#[test]
fn the_bot_leaves_a_game_that_is_no_longer_going_on() {
    assert_eq!(on_game_state(Color::White, "mate", "e2e4 e7e5"), Reply::Leave);
    assert_eq!(on_game_state(Color::Black, "resign", "e2e4"), Reply::Leave);
    assert_eq!(on_game_state(Color::White, "", ""), Reply::Leave);
    assert_eq!(on_game_state(Color::White, "Started", ""), Reply::Leave);
}

#[test]
fn moves_are_read_one_by_one() {
    let texts = vec!["e2e4".to_string(), "e7e8q".to_string(), "a1h8xyz".to_string()];
    assert_eq!(
        read_moves(&texts),
        Some(vec!["e2e4".to_string(), "e7e8q".to_string(), "a1h8".to_string()])
    );
    assert_eq!(read_moves(&vec![]), Some(vec![]));
    assert_eq!(read_moves(&vec!["e2e4".to_string(), "e9e4".to_string()]), None);
    assert_eq!(read_moves(&vec!["e7e8k".to_string()]), None);
}

#[test]
fn common_moves_are_counted_from_the_start() {
    let a = vec!["e2e4".to_string(), "e7e5".to_string(), "g1f3".to_string()];
    let b = vec!["e2e4".to_string(), "e7e5".to_string(), "b1c3".to_string()];
    assert_eq!(common_moves(&a, &b), 2);
    assert_eq!(common_moves(&a, &a), 3);
    assert_eq!(common_moves(&a, &vec![]), 0);
    assert_eq!(common_moves(&a[..1].to_vec(), &b), 1);
}

#[test]
fn a_searcher_starts_where_the_game_stands() {
    let s = Searcher::start(Position::initial().play("e2e4"));
    assert_eq!(s.position().get_fen(), Position::initial().play("e2e4").get_fen());
    assert_eq!(MAX_SEARCH_DEPTH, 15);
    let t = s.search_tree();
    assert!(t.node(&t.head_node()).children.is_empty());
}

#[test]
fn a_move_by_chance_is_legal_and_not_made() {
    let mut s = Searcher::start(Position::initial());
    for _ in 0..20 {
        let (mv, draw) = s._get_next_move_random().expect("a move");
        assert!(Position::initial().legal_moves().contains(&mv));
        assert!(!draw);
        assert_eq!(s.position().get_fen(), START);
    }
    let mut over = Searcher::start(Position::from_fen(FOOLS_MATE).unwrap());
    assert!(over._get_next_move_random().is_err());
}

#[test]
fn a_searcher_finds_and_makes_a_move() {
    let mut s = Searcher::start(Position::initial());
    s.set_budget(0, 40);
    let (mv, draw) = s._get_next_move_mcts(Color::White).expect("a move");
    assert!(!draw);
    assert_eq!(s.position().get_fen(), Position::initial().play(&mv).get_fen());
    assert!(s.provide_opponent_move("e2e4").is_err());
    let reply = s.position().legal_moves()[3].clone();
    assert!(s.provide_opponent_move(&reply).is_ok());
    assert_eq!(
        s.position().get_fen(),
        Position::initial().play(&mv).play(&reply).get_fen()
    );
}

#[test]
fn a_searcher_is_an_engine() {
    let mut s: Searcher = <Searcher as Engine<Searcher>>::new(Position::initial());
    s.set_budget(0, 10);
    let (mv, draw) = s.get_next_move(Color::White).expect("a move");
    assert!(Position::initial().legal_moves().contains(&mv));
    assert!(!draw);
    let mut over: Searcher =
        <Searcher as Engine<Searcher>>::new(Position::from_fen(FOOLS_MATE).unwrap());
    over.set_budget(0, 10);
    assert!(over.get_next_move(Color::White).is_err());
}

#[test]
fn a_searcher_jumps_to_a_position() {
    let mut s = Searcher::start(Position::initial());
    s.jump(Position::initial().play("e2e4").play("c7c5"));
    assert_eq!(
        s.position().get_fen(),
        Position::initial().play("e2e4").play("c7c5").get_fen()
    );
}

#[test]
fn a_move_is_suggested_for_a_game_told_of_in_one_go() {
    let mv = suggest_move(START, Color::White, "e2e4 e7e5", 10)
        .expect("a position")
        .expect("a move");
    let at = Position::initial().play("e2e4").play("e7e5");
    assert!(at.legal_moves().contains(&mv));
    let mv = suggest_move(START, Color::White, "", 10).expect("a position").expect("a move");
    assert!(Position::initial().legal_moves().contains(&mv));
}

#[test]
fn nothing_is_suggested_for_what_is_no_game() {
    assert_eq!(suggest_move("", Color::White, "", 10), None);
    assert_eq!(suggest_move("8/8/8/8/8/8/8/8 w - - 0 1", Color::White, "e2e4", 10), None);
    assert_eq!(
        suggest_move(START, Color::Black, "e2e5", 10),
        Some(Err(GameError::IllegalMove))
    );
    assert_eq!(
        suggest_move(START, Color::Black, "e2e4 what", 10),
        Some(Err(GameError::IllegalMove))
    );
    assert_eq!(
        suggest_move(FOOLS_MATE, Color::White, "", 10),
        Some(Err(GameError::NoLegalMove))
    );
    assert_eq!(
        suggest_move(START, Color::White, "f2f3 e7e5 g2g4 d8h4", 10),
        Some(Err(GameError::NoLegalMove))
    );
}

#[test]
fn moves_told_of_again_leave_the_search_as_it_was() {
    let mut s = Searcher::start(Position::initial());
    s.set_budget(0, 30);
    let (mv, _) = s._get_next_move_mcts(Color::White).expect("a move");
    let head = s.search_tree().head_node();
    let visits = s.search_tree().node(&head).visits();
    let children = s.search_tree().node(&head).children.len();
    s.jump(Position::initial().play(&mv));
    assert!(s.search_tree().head_node().same(&head));
    assert_eq!(s.search_tree().node(&head).visits(), visits);
    assert_eq!(s.search_tree().node(&head).children.len(), children);

    let mut g = game(Color::White);
    let first = g.request_bot_move(10).expect("a move");
    let fen = g.get_fen();
    assert_eq!(g.enter_opponent_move(&first), Ok(()));
    assert_eq!(g.enter_opponent_move(&first), Ok(()));
    assert_eq!(g.get_fen(), fen);
}

#[test]
fn an_observed_move_keeps_what_was_searched_below_it() {
    let mut s = Searcher::start(Position::initial());
    s.set_budget(0, 60);
    let (mv, _) = s._get_next_move_mcts(Color::White).expect("a move");
    s.set_budget(0, 60);
    let before = s.search_tree().head_node();
    let replies = s.search_tree().node(&before).moves().clone();
    let kept = s.search_tree().node(&before).children.clone();
    let _ = mv;
    if !replies.is_empty() {
        let visits = s.search_tree().node(&kept[0]).visits();
        assert!(s.provide_opponent_move(&replies[0]).is_ok());
        assert!(s.search_tree().head_node().same(&kept[0]));
        assert_eq!(s.search_tree().node(&kept[0]).visits(), visits);
    }
}

#[test]
fn a_move_that_the_rules_engine_should_not_list_is_refused() {
    let mut g = BotGame::new_from_challenge(
        "g".to_string(),
        "4k3/8/8/3Pp3/8/5n2/8/4K3 w - e5 0 1",
        Color::Black,
    )
    .expect("a game");
    let fen = g.get_fen();
    assert_eq!(g.observe_opponent_move("d5e6"), Err(GameError::IllegalMove));
    assert_eq!(g.enter_opponent_move("d5e6"), Err(GameError::IllegalMove));
    assert_eq!(g.get_fen(), fen);
    let mut g = BotGame::new_from_challenge(
        "g".to_string(),
        "4k3/8/8/3Pp3/8/5n2/8/4K3 w - e5 0 1",
        Color::White,
    )
    .expect("a game");
    let mv = g.request_bot_move(20).expect("a move");
    assert_ne!(mv, "d5e6");
    assert!(readable(&g.get_fen()));
}
