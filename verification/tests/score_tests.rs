use mcts_bot::mcts::policy::{ExpansionPolicy, SelectionPolicy, SimulationPolicy};
use mcts_bot::mcts::score::{
    exploration_of, floor_log2, ln_fixed_of, log2_fixed_of, sqrt_floor_of, Ratio, Score, LN2, ONE,
    VISIT_LIMIT,
};
use mcts_bot::mcts::tree::Node;
use mcts_bot::mcts::update::credit;
use mcts_bot::rules::{BoardStatus, Color, Position};

#[test]
fn floor_log2_gives_exponent_and_power() {
    assert_eq!(floor_log2(1), (0, 1));
    assert_eq!(floor_log2(2), (1, 2));
    assert_eq!(floor_log2(3), (1, 2));
    assert_eq!(floor_log2(4), (2, 4));
    assert_eq!(floor_log2(1023), (9, 512));
    assert_eq!(floor_log2(1024), (10, 1024));
    assert_eq!(floor_log2(u64::MAX), (63, 1u64 << 63));
}

#[test]
fn log2_is_exact_at_powers_of_two_and_straight_between() {
    assert_eq!(log2_fixed_of(1), 0);
    assert_eq!(log2_fixed_of(2), ONE);
    assert_eq!(log2_fixed_of(3), ONE + ONE / 2);
    assert_eq!(log2_fixed_of(4), 2 * ONE);
    assert_eq!(log2_fixed_of(5), 9663676416);
    assert_eq!(log2_fixed_of(10), 13958643712);
    assert_eq!(log2_fixed_of(1u64 << 63), 63 * ONE);
}

#[test]
fn natural_logarithm_in_fixed_point() {
    assert_eq!(LN2, 2977044471);
    assert_eq!(ln_fixed_of(1), 0);
    assert_eq!(ln_fixed_of(2), LN2);
    assert_eq!(ln_fixed_of(3), 4465566706);
    assert_eq!(ln_fixed_of(10), 9675394530);
    assert_eq!(ln_fixed_of(100), 19536854340);
}

#[test]
fn natural_logarithm_is_near_the_true_one() {
    for n in [2u64, 3, 5, 7, 10, 33, 100, 1000, 123456, 1 << 40] {
        let ours = ln_fixed_of(n) as f64 / ONE as f64;
        let true_value = (n as f64).ln();
        assert!(ours <= true_value + 1e-9, "{} {} {}", n, ours, true_value);
        assert!(true_value - ours < 0.06, "{} {} {}", n, ours, true_value);
    }
}

#[test]
fn square_root_rounds_down() {
    assert_eq!(sqrt_floor_of(0), 0);
    assert_eq!(sqrt_floor_of(1), 1);
    assert_eq!(sqrt_floor_of(2), 1);
    assert_eq!(sqrt_floor_of(3), 1);
    assert_eq!(sqrt_floor_of(4), 2);
    assert_eq!(sqrt_floor_of(99), 9);
    assert_eq!(sqrt_floor_of(100), 10);
    assert_eq!(sqrt_floor_of((1u128 << 64) - 1), (1u64 << 32) - 1);
    assert_eq!(sqrt_floor_of(1u128 << 64), 1u64 << 32);
    assert_eq!(sqrt_floor_of((1u128 << 72) - 1), 68719476735);
    assert_eq!(sqrt_floor_of(1u128 << 72), 68719476736);
    assert_eq!(sqrt_floor_of(u128::MAX), u64::MAX);
}

#[test]
fn exploration_term_in_fixed_point() {
    assert_eq!(exploration_of(1, 1), 0);
    assert_eq!(exploration_of(1, 1000), 0);
    assert_eq!(exploration_of(2, 1), 5056937539);
    assert_eq!(exploration_of(2, 2), 3575794826);
    assert_eq!(exploration_of(10, 3), 5263427469);
    assert_eq!(exploration_of(100, 7), 4896358718);
}

#[test]
fn exploration_term_is_near_the_true_one() {
    for (parents, visits) in [(2u64, 1u64), (2, 2), (10, 3), (100, 7), (1000, 10), (5000, 4999)] {
        let ours = exploration_of(parents, visits) as f64 / ONE as f64;
        let true_value = (2.0 * (parents as f64).ln() / visits as f64).sqrt();
        assert!((ours - true_value).abs() < 0.03 * true_value + 1e-6);
    }
}

#[test]
fn exploration_grows_with_the_parents_and_shrinks_with_the_visits() {
    assert!(exploration_of(100, 5) > exploration_of(10, 5));
    assert!(exploration_of(100, 5) > exploration_of(100, 50));
}

#[test]
fn infinite_score_exceeds_every_number() {
    assert!(Score::Infinite.exceeds(&Score::Finite(u64::MAX)));
    assert!(Score::Infinite.exceeds(&Score::Finite(0)));
    assert!(!Score::Finite(u64::MAX).exceeds(&Score::Infinite));
    assert!(!Score::Infinite.exceeds(&Score::Infinite));
    assert!(Score::Finite(2).exceeds(&Score::Finite(1)));
    assert!(!Score::Finite(1).exceeds(&Score::Finite(1)));
    assert!(!Score::Finite(1).exceeds(&Score::Finite(2)));
}

#[test]
fn ratios_are_told_apart_exactly() {
    let seven_tenths = Ratio { num: 14, den: 20 };
    let three_tenths = Ratio { num: 6, den: 20 };
    assert!(seven_tenths.exceeds(&three_tenths));
    assert!(!three_tenths.exceeds(&seven_tenths));
    assert!(!seven_tenths.exceeds(&Ratio { num: 7, den: 10 }));
    let big = Ratio { num: u64::MAX - 1, den: u64::MAX };
    let bigger = Ratio { num: u64::MAX, den: u64::MAX };
    assert!(bigger.exceeds(&big));
    assert!(!big.exceeds(&bigger));
    assert!(Ratio { num: 1, den: 3 }.exceeds(&Ratio { num: 333333333, den: 1000000000 }));
}

#[test]
fn a_new_node_was_never_visited() {
    let n = Node::new(Position::initial(), 3);
    assert_eq!(n.visits(), 0);
    assert_eq!(n.white_wins(), 0);
    assert_eq!(n.score(), Score::Infinite);
    assert_eq!(n.depth, 3);
    assert!(n.children.is_empty());
    assert!(n.parents().is_empty());
    assert!(n.moves().is_empty());
    assert!(!n._has_children());
    assert!(n._is_not_terminal());
    assert_eq!(n.position().get_fen(), Position::initial().get_fen());
}

#[test]
fn an_unvisited_node_scores_above_all() {
    let n = Node::new(Position::initial(), 0);
    assert_eq!(n.get_score(0, SelectionPolicy::UCT), Score::Infinite);
    assert_eq!(n.get_score(1000, SelectionPolicy::UCT), Score::Infinite);
    assert_eq!(n.get_win_ratio(None), Ratio { num: 0, den: 1 });
    assert_eq!(n.get_win_ratio(Some(Color::Black)), Ratio { num: 0, den: 1 });
}

#[test]
fn credit_goes_to_the_side_that_mates() {
    assert_eq!(credit(BoardStatus::Checkmate, Color::Black), 2);
    assert_eq!(credit(BoardStatus::Checkmate, Color::White), 0);
    assert_eq!(credit(BoardStatus::Stalemate, Color::White), 1);
    assert_eq!(credit(BoardStatus::Stalemate, Color::Black), 1);
    assert_eq!(credit(BoardStatus::Ongoing, Color::White), 1);
    assert_eq!(credit(BoardStatus::Ongoing, Color::Black), 1);
}

#[test]
fn policies_have_names_and_defaults() {
    assert_eq!(SelectionPolicy::UCT.name(), "UCT");
    assert_eq!(SelectionPolicy::AlphaZero.name(), "AlphaZero");
    assert_eq!(ExpansionPolicy::Random.name(), "Random");
    assert_eq!(SimulationPolicy::Random.name(), "Random");
    assert_eq!(SelectionPolicy::default(), SelectionPolicy::UCT);
    assert_eq!(ExpansionPolicy::default(), ExpansionPolicy::Random);
    assert_eq!(SimulationPolicy::default(), SimulationPolicy::Random);
}

#[test]
fn visit_limit_leaves_room_for_half_points() {
    assert_eq!(VISIT_LIMIT, (1u64 << 62) - 1);
    assert!(VISIT_LIMIT.checked_mul(2).is_some());
}

#[test]
fn exploration_never_falls_with_the_parents_nor_rises_with_the_visits() {
    for visits in 1u64..40 {
        for parents in 1u64..300 {
            assert!(exploration_of(parents, visits) <= exploration_of(parents + 1, visits));
            assert!(exploration_of(parents, visits + 1) <= exploration_of(parents, visits));
        }
    }
}

#[test]
fn logarithm_never_falls_and_is_whole_at_every_power_of_two() {
    for e in 0u64..63 {
        assert_eq!(log2_fixed_of(1u64 << e), e * ONE);
    }
    for n in 1u64..5000 {
        assert!(log2_fixed_of(n) <= log2_fixed_of(n + 1));
    }
}
