use mcts_bot::mcts::policy::{SelectionPolicy, SimulationPolicy};
use mcts_bot::mcts::rounds::goes_on;
use mcts_bot::mcts::score::{Ratio, Score, ONE};
use mcts_bot::mcts::tree::{Node, NodeRef, Tree, CUTOFF_MOVES, MAX_SEARCH_TIME};
use mcts_bot::rules::{BoardStatus, Color, Position};
use mcts_bot::utils::rc_wrapper::WeakHashableRcRefCell;

const FOOLS_MATE: &str = "rnb1kbnr/pppp1ppp/8/4p3/6Pq/5P2/PPPPP2P/RNBQKBNR w KQkq - 1 3";
const WHITE_WINS: (BoardStatus, Color) = (BoardStatus::Checkmate, Color::Black);
const BLACK_WINS: (BoardStatus, Color) = (BoardStatus::Checkmate, Color::White);
const NOBODY_WINS: (BoardStatus, Color) = (BoardStatus::Stalemate, Color::White);

fn child_by_move(tree: &Tree, parent: &NodeRef, mv: &str) -> NodeRef {
    let node = tree.node(parent);
    let k = node.moves().iter().position(|m| m == mv).expect("a child by that move");
    node.children[k]
}

#[test]
fn a_new_tree_has_the_start_for_its_head() {
    let tree = Tree::new(Position::initial(), 15);
    let head = tree.head_node();
    assert!(tree.has_node(&head));
    assert_eq!(tree.position().get_fen(), Position::initial().get_fen());
    let node = tree.node(&head);
    assert_eq!(node.depth, 0);
    assert_eq!(node.visits(), 0);
    assert!(node.children.is_empty());
    assert!(node.parents().is_empty());
    assert_eq!(CUTOFF_MOVES, 200);
    assert_eq!(MAX_SEARCH_TIME, 5000);
}

#[test]
fn select_stops_at_a_node_without_children() {
    let mut tree = Tree::new(Position::initial(), 15);
    let head = tree.head_node();
    assert!(tree.select(&head, SelectionPolicy::UCT).same(&head));
    tree.expand(&head);
    let leaf = tree.select(&head, SelectionPolicy::UCT);
    assert!(leaf.same(&tree.node(&head).children[0]));
}

#[test]
fn expand_makes_a_child_for_each_legal_move() {
    let mut tree = Tree::new(Position::initial(), 15);
    let head = tree.head_node();
    let leaf = tree.expand(&head);
    let node = tree.node(&head);
    assert_eq!(node.children.len(), 20);
    assert_eq!(node.moves(), &Position::initial().legal_moves());
    assert!(node.children.iter().any(|c| c.same(&leaf)));
    for (k, child) in node.children.iter().enumerate() {
        let c = tree.node(child);
        let expected = Position::initial().play(&node.moves()[k]);
        assert_eq!(c.position().get_fen(), expected.get_fen());
        assert_eq!(c.depth, 1);
        assert_eq!(c.visits(), 0);
        assert_eq!(c.score(), Score::Infinite);
        assert_eq!(c.parents().len(), 1);
        assert!(c.parents()[0].same(&head.downgrade()));
    }
}

#[test]
fn expand_picks_among_children_that_are_there() {
    let mut tree = Tree::new(Position::initial(), 15);
    let head = tree.head_node();
    tree.expand(&head);
    let mut seen = std::collections::HashSet::new();
    for _ in 0..200 {
        let leaf = tree.expand(&head);
        assert!(tree.node(&head).children.iter().any(|c| c.same(&leaf)));
        seen.insert(leaf.slot());
    }
    assert_eq!(tree.node(&head).children.len(), 20);
    assert!(seen.len() > 1);
}

#[test]
fn expand_stops_at_the_search_depth() {
    let mut tree = Tree::new(Position::initial(), 1);
    let head = tree.head_node();
    let child = tree.expand(&head);
    assert_eq!(tree.node(&head).children.len(), 20);
    let leaf = tree.expand(&child);
    assert!(leaf.same(&child));
    assert!(tree.node(&child).children.is_empty());
    let mut flat = Tree::new(Position::initial(), 0);
    let head = flat.head_node();
    assert!(flat.expand(&head).same(&head));
    assert!(flat.node(&head).children.is_empty());
}

#[test]
fn expand_of_a_finished_game_gives_the_node_itself() {
    let mut tree = Tree::new(Position::from_fen(FOOLS_MATE).unwrap(), 15);
    let head = tree.head_node();
    assert!(tree.expand(&head).same(&head));
    assert!(tree.node(&head).children.is_empty());
    assert!(!tree.node(&head)._is_not_terminal());
}

#[test]
fn backpropagate_counts_the_leaf_and_all_above() {
    let mut tree = Tree::new(Position::initial(), 15);
    let head = tree.head_node();
    tree.expand(&head);
    let a = tree.node(&head).children[0];
    let b = tree.node(&head).children[1];
    tree.backpropagate(&a.downgrade(), WHITE_WINS);
    assert_eq!(tree.node(&a).visits(), 1);
    assert_eq!(tree.node(&a).white_wins(), 2);
    assert_eq!(tree.node(&head).visits(), 1);
    assert_eq!(tree.node(&head).white_wins(), 2);
    assert_eq!(tree.node(&b).visits(), 0);
    assert_eq!(tree.node(&b).score(), Score::Infinite);
    tree.backpropagate(&a.downgrade(), NOBODY_WINS);
    tree.backpropagate(&b.downgrade(), BLACK_WINS);
    assert_eq!(tree.node(&a).visits(), 2);
    assert_eq!(tree.node(&a).white_wins(), 3);
    assert_eq!(tree.node(&b).visits(), 1);
    assert_eq!(tree.node(&b).white_wins(), 0);
    assert_eq!(tree.node(&head).visits(), 3);
    assert_eq!(tree.node(&head).white_wins(), 3);
}

#[test]
fn backpropagate_makes_the_score_anew() {
    let mut tree = Tree::new(Position::initial(), 15);
    let head = tree.head_node();
    tree.expand(&head);
    let a = tree.node(&head).children[0];
    // Black is to move at the child: a win of Black is its full share.
    tree.backpropagate(&a.downgrade(), BLACK_WINS);
    assert_eq!(tree.node(&a).get_win_ratio(None), Ratio { num: 2, den: 2 });
    // One visit of the parent: the logarithm is zero.
    assert_eq!(tree.node(&a).score(), Score::Finite(ONE));
    // White is to move at the head, and has no share yet; it has no parents.
    assert_eq!(tree.node(&head).score(), Score::Finite(0));
    tree.backpropagate(&a.downgrade(), BLACK_WINS);
    // Two visits of the parent and two of the node: sqrt(2 ln 2 / 2).
    assert_eq!(tree.node(&a).score(), Score::Finite(ONE + 3575794826));
    tree.backpropagate(&a.downgrade(), WHITE_WINS);
    assert_eq!(tree.node(&a).get_win_ratio(None), Ratio { num: 4, den: 6 });
    assert_eq!(tree.node(&a).get_win_ratio(Some(Color::White)), Ratio { num: 2, den: 6 });
    assert_eq!(
        tree.node(&a).get_score(3, SelectionPolicy::UCT),
        tree.node(&a).score()
    );
}

#[test]
fn backpropagate_from_a_handle_of_nothing_changes_nothing() {
    let mut tree = Tree::new(Position::initial(), 15);
    let head = tree.head_node();
    tree.expand(&head);
    let nothing = WeakHashableRcRefCell::new(Node::new(Position::initial(), 0));
    tree.backpropagate(&nothing, WHITE_WINS);
    assert_eq!(tree.node(&head).visits(), 0);
    assert_eq!(tree.node(&head).score(), Score::Infinite);
}

#[test]
fn a_node_above_on_two_lines_is_counted_once() {
    let mut tree = Tree::new(Position::initial(), 15);
    let head = tree.head_node();
    tree.add_children(&head);
    let e4 = child_by_move(&tree, &head, "e2e4");
    let nf3 = child_by_move(&tree, &head, "g1f3");
    tree.add_children(&e4);
    tree.add_children(&nf3);
    let e4_e5 = child_by_move(&tree, &e4, "e7e5");
    let nf3_e5 = child_by_move(&tree, &nf3, "e7e5");
    tree.add_children(&e4_e5);
    tree.add_children(&nf3_e5);
    let one = child_by_move(&tree, &e4_e5, "g1f3");
    let other = child_by_move(&tree, &nf3_e5, "e2e4");
    assert!(one.same(&other));
    assert_eq!(tree.node(&one).parents().len(), 2);
    tree.backpropagate(&one.downgrade(), WHITE_WINS);
    assert_eq!(tree.node(&one).visits(), 1);
    assert_eq!(tree.node(&e4_e5).visits(), 1);
    assert_eq!(tree.node(&nf3_e5).visits(), 1);
    assert_eq!(tree.node(&e4).visits(), 1);
    assert_eq!(tree.node(&nf3).visits(), 1);
    // Two lines lead up to the head: it is still one playout.
    assert_eq!(tree.node(&head).visits(), 1);
    assert_eq!(tree.node(&head).white_wins(), 2);
    // The parents of the shared node were visited twice in all.
    assert_eq!(
        tree.node(&one).score(),
        tree.node(&one).get_score(2, SelectionPolicy::UCT)
    );
    assert_eq!(tree.node(&one).score(), Score::Finite(5056937539));
}

#[test]
fn an_unvisited_child_is_gone_to_before_any_visited_one() {
    let mut tree = Tree::new(Position::initial(), 15);
    let head = tree.head_node();
    tree.expand(&head);
    let children = tree.node(&head).children.clone();
    // The best figures one can have do not help a child that was visited.
    for _ in 0..5 {
        tree.backpropagate(&children[0].downgrade(), BLACK_WINS);
    }
    assert!(tree.select(&head, SelectionPolicy::UCT).same(&children[1]));
    for k in 1..19 {
        tree.backpropagate(&children[k].downgrade(), WHITE_WINS);
        assert!(tree.select(&head, SelectionPolicy::UCT).same(&children[k + 1]));
    }
    tree.backpropagate(&children[19].downgrade(), WHITE_WINS);
    // All are visited now: the one with the best score is gone to.
    let leaf = tree.select(&head, SelectionPolicy::UCT);
    let mut best = 0;
    for k in 1..20 {
        if tree.node(&children[k]).score().exceeds(&tree.node(&children[best]).score()) {
            best = k;
        }
    }
    assert!(leaf.same(&children[best]));
}

#[test]
fn simulate_tells_how_a_finished_game_ended() {
    let tree = Tree::new(Position::from_fen(FOOLS_MATE).unwrap(), 15);
    let head = tree.head_node();
    assert_eq!(
        tree.simulate(&head, SimulationPolicy::Random),
        (BoardStatus::Checkmate, Color::White)
    );
}

#[test]
fn simulate_ends() {
    let tree = Tree::new(Position::initial(), 15);
    let head = tree.head_node();
    let (status, _) = tree.simulate(&head, SimulationPolicy::Random);
    assert!(matches!(
        status,
        BoardStatus::Ongoing | BoardStatus::Checkmate | BoardStatus::Stalemate
    ));
}

#[test]
fn best_move_goes_to_the_child_with_the_best_share() {
    let mut tree = Tree::new(Position::initial(), 15);
    let head = tree.head_node();
    tree.expand(&head);
    let a = tree.node(&head).children[0];
    let b = tree.node(&head).children[1];
    let move_a = tree.node(&head).moves()[0].clone();
    for _ in 0..7 {
        tree.backpropagate(&a.downgrade(), WHITE_WINS);
    }
    for _ in 0..3 {
        tree.backpropagate(&a.downgrade(), BLACK_WINS);
    }
    for _ in 0..3 {
        tree.backpropagate(&b.downgrade(), WHITE_WINS);
    }
    for _ in 0..7 {
        tree.backpropagate(&b.downgrade(), BLACK_WINS);
    }
    assert_eq!(tree.node(&a).visits(), 10);
    assert_eq!(tree.node(&a).white_wins(), 14);
    assert_eq!(tree.node(&b).visits(), 10);
    assert_eq!(tree.node(&b).white_wins(), 6);
    assert_eq!(tree.best_move_index(Color::White), 0);
    assert_eq!(tree.best_move_index(Color::Black), 1);
    let mv = tree._yield_best_move(Color::White).expect("a move");
    assert_eq!(mv, move_a);
    assert!(tree.head_node().same(&a));
    assert_eq!(tree.position().get_fen(), Position::initial().play(&move_a).get_fen());
    assert!(!tree.has_node(&b));
    assert!(!tree.has_node(&head));
    assert!(tree.node(&a).parents().is_empty());
    assert_eq!(tree.node(&a).visits(), 10);
}

#[test]
fn best_move_for_black_goes_to_the_child_where_white_fares_worst() {
    let mut tree = Tree::new(Position::initial().play("e2e4"), 15);
    let head = tree.head_node();
    tree.expand(&head);
    let a = tree.node(&head).children[0];
    let c = tree.node(&head).children[2];
    let move_c = tree.node(&head).moves()[2].clone();
    tree.backpropagate(&a.downgrade(), WHITE_WINS);
    tree.backpropagate(&c.downgrade(), BLACK_WINS);
    let mv = tree._yield_best_move(Color::Black).expect("a move");
    assert_eq!(mv, move_c);
    assert!(tree.head_node().same(&c));
}

#[test]
fn best_move_among_equals_is_the_first() {
    let mut tree = Tree::new(Position::initial(), 15);
    let head = tree.head_node();
    tree.expand(&head);
    let first = tree.node(&head).moves()[0].clone();
    assert_eq!(tree.best_move_index(Color::White), 0);
    let children = tree.node(&head).children.clone();
    tree.backpropagate(&children[3].downgrade(), NOBODY_WINS);
    tree.backpropagate(&children[5].downgrade(), NOBODY_WINS);
    assert_eq!(tree.best_move_index(Color::White), 3);
    tree.backpropagate(&children[3].downgrade(), BLACK_WINS);
    tree.backpropagate(&children[3].downgrade(), BLACK_WINS);
    tree.backpropagate(&children[5].downgrade(), BLACK_WINS);
    tree.backpropagate(&children[5].downgrade(), BLACK_WINS);
    tree.backpropagate(&children[5].downgrade(), BLACK_WINS);
    tree.backpropagate(&children[5].downgrade(), BLACK_WINS);
    tree.backpropagate(&children[5].downgrade(), NOBODY_WINS);
    // 1/6 and 2/12 are one share.
    assert_eq!(tree.node(&children[3]).get_win_ratio(Some(Color::White)), Ratio { num: 1, den: 6 });
    assert_eq!(tree.node(&children[5]).get_win_ratio(Some(Color::White)), Ratio { num: 2, den: 12 });
    assert_eq!(tree.best_move_index(Color::White), 3);
    tree.backpropagate(&children[5].downgrade(), WHITE_WINS);
    assert_eq!(tree.best_move_index(Color::White), 5);
    let mut fresh = Tree::new(Position::initial(), 15);
    let head = fresh.head_node();
    fresh.expand(&head);
    assert_eq!(fresh._yield_best_move(Color::White).expect("a move"), first);
}

#[test]
fn best_move_without_children_fails_and_changes_nothing() {
    let mut tree = Tree::new(Position::initial(), 15);
    let head = tree.head_node();
    assert!(tree._yield_best_move(Color::White).is_err());
    assert!(tree.head_node().same(&head));
    assert_eq!(tree.position().get_fen(), Position::initial().get_fen());
}

#[test]
fn opponent_move_moves_the_head_and_keeps_what_lies_below() {
    let mut tree = Tree::new(Position::initial(), 15);
    let head = tree.head_node();
    tree.add_children(&head);
    let e4 = child_by_move(&tree, &head, "e2e4");
    let d4 = child_by_move(&tree, &head, "d2d4");
    tree.add_children(&e4);
    let e4_e5 = child_by_move(&tree, &e4, "e7e5");
    tree.backpropagate(&e4_e5.downgrade(), WHITE_WINS);
    assert!(tree.provide_opponent_move("e2e4").is_ok());
    assert!(tree.head_node().same(&e4));
    assert_eq!(tree.position().get_fen(), Position::initial().play("e2e4").get_fen());
    assert!(tree.has_node(&e4_e5));
    assert!(!tree.has_node(&head));
    assert!(!tree.has_node(&d4));
    assert!(tree.node(&e4).parents().is_empty());
    assert_eq!(tree.node(&e4).children.len(), 20);
    assert_eq!(tree.node(&e4).visits(), 1);
    assert_eq!(tree.node(&e4_e5).visits(), 1);
    assert_eq!(tree.node(&e4_e5).parents().len(), 1);
    assert!(tree.node(&e4_e5).parents()[0].same(&e4.downgrade()));
    for child in tree.node(&e4).children.iter() {
        assert!(tree.has_node(child));
    }
}

#[test]
fn opponent_move_to_a_position_not_yet_searched_makes_a_new_head() {
    let mut tree = Tree::new(Position::initial(), 15);
    let head = tree.head_node();
    assert!(tree.provide_opponent_move("c2c4").is_ok());
    let new = tree.head_node();
    assert!(!tree.has_node(&head));
    assert_eq!(tree.position().get_fen(), Position::initial().play("c2c4").get_fen());
    assert_eq!(tree.node(&new).depth, 1);
    assert!(tree.node(&new).children.is_empty());
    assert!(tree.node(&new).parents().is_empty());
}

#[test]
fn a_move_that_is_not_legal_is_refused_by_the_tree() {
    let mut tree = Tree::new(Position::initial(), 15);
    let head = tree.head_node();
    tree.expand(&head);
    assert!(tree.provide_opponent_move("e2e5").is_err());
    assert!(tree._prune_tree_based_on_move_and_update_head("a1a8").is_err());
    assert!(tree.provide_opponent_move("nonsense").is_err());
    assert!(tree.head_node().same(&head));
    assert_eq!(tree.node(&head).children.len(), 20);
    assert_eq!(tree.position().get_fen(), Position::initial().get_fen());
}

#[test]
fn every_node_left_after_a_move_is_reached_from_the_head() {
    let mut tree = Tree::new(Position::initial(), 15);
    tree.set_budget(0, 300);
    tree._populate_tree();
    let before = tree.head_node();
    let children = tree.node(&before).children.clone();
    let moves = tree.node(&before).moves().clone();
    assert!(tree.provide_opponent_move(&moves[4]).is_ok());
    let head = tree.head_node();
    assert!(head.same(&children[4]));
    assert!(tree.node(&head).parents().is_empty());
    // Walk down from the head: all that is met is in the tree, and each
    // child looks back at its parent.
    let mut seen = vec![head];
    let mut next = 0;
    while next < seen.len() {
        let at = seen[next];
        next += 1;
        assert!(tree.has_node(&at));
        for child in tree.node(&at).children.clone() {
            assert!(tree.has_node(&child));
            if !child.same(&head) {
                assert!(tree.node(&child).parents().iter().any(|p| p.same(&at.downgrade())));
            }
            if !seen.iter().any(|s| s.same(&child)) {
                seen.push(child);
            }
        }
        for parent in tree.node(&at).parents().iter() {
            let p = parent.upgrade(tree.arena()).expect("no reference to what is gone");
            assert!(tree.node(&p).children.iter().any(|c| c.same(&at)));
        }
    }
    for at in seen.iter() {
        for parent in tree.node(at).parents().iter() {
            assert!(seen.iter().any(|s| s.downgrade().same(parent)));
        }
    }
    for (k, child) in children.iter().enumerate() {
        if k != 4 && !seen.iter().any(|s| s.same(child)) {
            assert!(!tree.has_node(child));
        }
    }
    assert!(!tree.has_node(&before) || seen.iter().any(|s| s.same(&before)));
}

#[test]
fn populate_searches_at_least_one_round() {
    let mut tree = Tree::new(Position::initial(), 15);
    tree.set_budget(0, 0);
    tree._populate_tree();
    let head = tree.head_node();
    assert_eq!(tree.node(&head).children.len(), 20);
    assert_eq!(tree.node(&head).visits(), 1);
    let visited: u64 = tree
        .node(&head)
        .children
        .iter()
        .map(|c| tree.node(c).visits())
        .sum();
    assert_eq!(visited, 1);
}

#[test]
fn populate_makes_as_many_rounds_as_it_may() {
    // One move deep there are no two ways to a position.
    let mut tree = Tree::new(Position::initial(), 1);
    tree.set_budget(u64::MAX, 25);
    tree._populate_tree();
    let head = tree.head_node();
    assert_eq!(tree.node(&head).visits(), 25);
    let visited: u64 = tree
        .node(&head)
        .children
        .iter()
        .map(|c| tree.node(c).visits())
        .sum();
    assert_eq!(visited, 25);
    // Twenty children were each visited once before any a second time.
    assert!(tree.node(&head).children.iter().all(|c| tree.node(c).visits() >= 1));
}

#[test]
fn populate_stops_when_the_time_is_up() {
    let mut tree = Tree::new(Position::initial(), 15);
    tree.set_budget(30, u64::MAX);
    let start = std::time::Instant::now();
    tree._populate_tree();
    assert!(start.elapsed().as_millis() >= 30);
    assert!(start.elapsed().as_millis() < 10000);
    assert!(tree.node(&tree.head_node()).visits() >= 1);
}

#[test]
fn yield_best_move_makes_a_legal_move() {
    let mut tree = Tree::new(Position::initial(), 15);
    tree.set_budget(0, 50);
    let mv = tree.yield_best_move(Color::White).expect("a move");
    assert!(Position::initial().legal_moves().contains(&mv));
    assert_eq!(tree.position().get_fen(), Position::initial().play(&mv).get_fen());
    assert!(tree.node(&tree.head_node()).parents().is_empty());
}

#[test]
fn yield_best_move_fails_where_the_game_is_over() {
    let mut tree = Tree::new(Position::from_fen(FOOLS_MATE).unwrap(), 15);
    tree.set_budget(0, 5);
    assert!(tree.yield_best_move(Color::White).is_err());
    assert_eq!(
        tree.position().get_fen(),
        Position::from_fen(FOOLS_MATE).unwrap().get_fen()
    );
}

#[test]
fn yield_best_move_fails_where_the_search_may_not_look_ahead() {
    let mut tree = Tree::new(Position::initial(), 0);
    tree.set_budget(0, 5);
    assert!(tree.yield_best_move(Color::White).is_err());
    assert_eq!(tree.position().get_fen(), Position::initial().get_fen());
}

#[test]
fn move_diff_names_the_move_between_parent_and_child() {
    let mut tree = Tree::new(Position::initial(), 15);
    let head = tree.head_node();
    tree.add_children(&head);
    let e4 = child_by_move(&tree, &head, "e2e4");
    assert_eq!(tree._get_move_diff(&head, &e4), Some("e2e4".to_string()));
    assert_eq!(tree._get_move_diff(&e4, &head), None);
    assert_eq!(tree._get_move_diff(&head, &head), None);
}

#[test]
fn rebase_to_a_position_far_away_starts_anew() {
    let mut tree = Tree::new(Position::initial(), 15);
    let head = tree.head_node();
    tree.expand(&head);
    tree.rebase(Position::from_fen(FOOLS_MATE).unwrap());
    assert!(!tree.has_node(&head));
    assert_eq!(
        tree.position().get_fen(),
        Position::from_fen(FOOLS_MATE).unwrap().get_fen()
    );
    assert!(tree.node(&tree.head_node()).children.is_empty());
}

#[test]
fn a_position_that_comes_again_is_the_same_node() {
    let mut tree = Tree::new(Position::initial(), 15);
    let head = tree.head_node();
    tree.add_children(&head);
    let a = child_by_move(&tree, &head, "g1f3");
    tree.add_children(&a);
    let b = child_by_move(&tree, &a, "g8f6");
    tree.add_children(&b);
    let c = child_by_move(&tree, &b, "f3g1");
    tree.add_children(&c);
    let back = child_by_move(&tree, &c, "f6g8");
    // The knights are home again: it is the position of the head.
    assert!(back.same(&head));
    // The head still looks back at nothing.
    assert!(tree.node(&head).parents().is_empty());
    tree.backpropagate(&c.downgrade(), NOBODY_WINS);
    assert_eq!(tree.node(&head).visits(), 1);
    // The way down ends although it could go round.
    let leaf = tree.select(&head, SelectionPolicy::UCT);
    assert!(tree.has_node(&leaf));
    // After the move the old head is still there, below the new one.
    assert!(tree.provide_opponent_move("g1f3").is_ok());
    assert!(tree.has_node(&head));
    assert!(tree.node(&a).parents().is_empty());
    assert_eq!(tree.node(&head).parents().len(), 1);
    assert!(tree.node(&head).parents()[0].same(&c.downgrade()));
}

#[test]
fn a_search_goes_on_while_it_has_rounds_and_time() {
    assert!(goes_on(0, 1, 0, 0));
    assert!(goes_on(3, 4, 5000, 5000));
    assert!(!goes_on(4, 4, 0, 5000));
    assert!(!goes_on(5, 4, 0, 5000));
    assert!(!goes_on(3, 4, 5001, 5000));
    assert!(!goes_on(0, 0, 0, 0));
    assert!(goes_on(u64::MAX - 1, u64::MAX, u64::MAX as u128, u64::MAX));
    assert!(!goes_on(0, 1, u64::MAX as u128 + 1, u64::MAX));
}

#[test]
fn children_look_back_once_for_each_edge_to_them() {
    let mut tree = Tree::new(Position::initial(), 15);
    let head = tree.head_node();
    tree.add_children(&head);
    let e4 = child_by_move(&tree, &head, "e2e4");
    let nf3 = child_by_move(&tree, &head, "g1f3");
    tree.add_children(&e4);
    tree.add_children(&nf3);
    let e4_e5 = child_by_move(&tree, &e4, "e7e5");
    let nf3_e5 = child_by_move(&tree, &nf3, "e7e5");
    tree.add_children(&e4_e5);
    let shared = child_by_move(&tree, &e4_e5, "g1f3");
    assert_eq!(tree.node(&shared).parents().len(), 1);
    let before: Vec<_> = tree.node(&e4_e5).parents().clone();
    tree.add_children(&nf3_e5);
    // The node that was there has its back-reference, then the new one.
    let parents = tree.node(&shared).parents();
    assert_eq!(parents.len(), 2);
    assert!(parents[0].same(&e4_e5.downgrade()));
    assert!(parents[1].same(&nf3_e5.downgrade()));
    // A node that got no new edge looks back as before.
    assert_eq!(tree.node(&e4_e5).parents().len(), before.len());
    assert!(tree.node(&e4_e5).parents()[0].same(&before[0]));
    // Every new node looks back at its parent, once.
    for child in tree.node(&nf3_e5).children.iter() {
        if !child.same(&shared) {
            assert_eq!(tree.node(child).parents().len(), 1);
            assert!(tree.node(child).parents()[0].same(&nf3_e5.downgrade()));
        }
    }
}

#[test]
fn reach_of_the_tree_marks_what_the_head_reaches() {
    let mut tree = Tree::new(Position::initial(), 15);
    let head = tree.head_node();
    tree.add_children(&head);
    let e4 = child_by_move(&tree, &head, "e2e4");
    let all = tree.reach(&head, false);
    assert_eq!(all.iter().filter(|m| **m).count(), 21);
    let below = tree.reach(&e4, false);
    assert_eq!(below.iter().filter(|m| **m).count(), 1);
    assert!(below[e4.slot()]);
    let above = tree.reach(&e4, true);
    assert_eq!(above.iter().filter(|m| **m).count(), 2);
    assert!(above[head.slot()]);
    for slot in 0..all.len() {
        let h = tree.handle_at(slot).expect("a node in every slot");
        assert_eq!(h.slot(), slot);
        assert!(tree.has_node(&h));
        assert!(tree.node(&h).is_counted());
    }
    assert!(tree.handle_at(all.len()).is_none());
    assert!(tree.provide_opponent_move("e2e4").is_ok());
    assert!(tree.handle_at(head.slot()).is_none());
    assert!(tree.handle_at(e4.slot()).expect("the head").same(&e4));
}

#[test]
fn a_node_that_has_its_children_is_not_grown_again() {
    let mut tree = Tree::new(Position::initial(), 15);
    let head = tree.head_node();
    tree.add_children(&head);
    let children = tree.node(&head).children.clone();
    let moves = tree.node(&head).moves().clone();
    let live = tree.arena().capacity();
    tree.add_children(&head);
    assert_eq!(tree.node(&head).children.len(), 20);
    assert_eq!(tree.node(&head).moves(), &moves);
    assert_eq!(tree.arena().capacity(), live);
    for (k, child) in children.iter().enumerate() {
        assert!(tree.node(&head).children[k].same(child));
        assert_eq!(tree.node(child).parents().len(), 1);
    }
}
