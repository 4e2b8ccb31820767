use mcts_bot::mcts::node::{GameResult, Node};
use mcts_bot::utils::parse_args::ApiInfo;
use mcts_bot::utils::text::{pick_sentence, split_pieces, split_words};

fn strings(words: &[&str]) -> Vec<String> {
    words.iter().map(|w| w.to_string()).collect()
}

#[test]
fn words_stand_between_blanks() {
    assert_eq!(split_words("e2e4 e7e5 g1f3"), strings(&["e2e4", "e7e5", "g1f3"]));
    assert_eq!(split_words("e2e4"), strings(&["e2e4"]));
    assert_eq!(split_words(""), strings(&[]));
    assert_eq!(split_words(" "), strings(&[]));
    assert_eq!(split_words("  a  b "), strings(&["a", "b"]));
    assert_eq!(split_words("a\tb c"), strings(&["a\tb", "c"]));
    assert_eq!(split_words("é ü"), strings(&["é", "ü"]));
}

#[test]
fn pieces_may_be_empty() {
    assert_eq!(split_pieces("a.b.c", '.'), strings(&["a", "b", "c"]));
    assert_eq!(split_pieces("a.b.", '.'), strings(&["a", "b", ""]));
    assert_eq!(split_pieces("", '.'), strings(&[""]));
    assert_eq!(split_pieces(".", '.'), strings(&["", ""]));
    assert_eq!(split_pieces("..a", '.'), strings(&["", "", "a"]));
    assert_eq!(split_pieces("no stop", '.'), strings(&["no stop"]));
    let text = "Lorem ipsum. Dolor sit amet. ";
    let expected: Vec<String> = text.split('.').map(|s| s.to_string()).collect();
    assert_eq!(split_pieces(text, '.'), expected);
}

#[test]
fn a_sentence_is_one_of_the_pieces() {
    let text = "One. Two. Three";
    let pieces = split_pieces(text, '.');
    let mut seen = std::collections::HashSet::new();
    for _ in 0..200 {
        let s = pick_sentence(text);
        assert!(pieces.contains(&s));
        seen.insert(s);
    }
    assert!(seen.len() > 1);
    assert_eq!(pick_sentence("alone"), "alone");
    assert_eq!(pick_sentence(""), "");
}

#[test]
fn a_tally_counts_games() {
    let mut n = Node::new("abc");
    assert_eq!((n.get_visits(), n.get_wins(), n.get_draws()), (0, 0, 0));
    n.update_statistics(GameResult::WhiteCheckmates);
    assert_eq!((n.get_visits(), n.get_wins(), n.get_draws()), (1, 1, 0));
    n.update_statistics(GameResult::BlackResigns);
    assert_eq!((n.get_visits(), n.get_wins(), n.get_draws()), (2, 2, 0));
    n.update_statistics(GameResult::Stalemate);
    n.update_statistics(GameResult::DrawAccepted);
    n.update_statistics(GameResult::DrawDeclared);
    assert_eq!((n.get_visits(), n.get_wins(), n.get_draws()), (5, 2, 3));
    n.update_statistics(GameResult::WhiteResigns);
    n.update_statistics(GameResult::BlackCheckmates);
    assert_eq!((n.get_visits(), n.get_wins(), n.get_draws()), (7, 2, 3));
}

#[test]
fn a_tally_takes_children() {
    let mut n = Node::new("parent");
    let mut child = Node::new("child");
    child.update_statistics(GameResult::Stalemate);
    n.append(child);
    n.append(Node::new("other"));
    assert_eq!((n.get_visits(), n.get_wins(), n.get_draws()), (0, 0, 0));
}

#[test]
fn account_info_holds_name_and_token() {
    let info = ApiInfo { user: "bot".to_string(), token: "secret".to_string() };
    assert_eq!(info.user, "bot");
    assert_eq!(info.token, "secret");
}
