//! Record-level tests: one line at a time, the category helpers, and
//! the serialization round trip.

use cube_games::FromLine;
use cube_games::game::Color;
use cube_games::game::Cubes;
use cube_games::game::Game;

#[test]
fn parses_a_full_line() {
    let g = Game::from_line("Game 12: 3 Blue, 4 Red; 2 Green").unwrap();
    assert_eq!(g.id, 12);
    assert_eq!(g.cubes.len(), 2);
    assert_eq!(g.cubes[0].get(&Color::Blue), Some(3));
    assert_eq!(g.cubes[0].get(&Color::Red), Some(4));
    assert_eq!(g.cubes[0].get(&Color::Green), None);
    assert_eq!(g.cubes[1].get(&Color::Green), Some(2));
}

#[test]
fn rejects_lines_without_the_game_prefix() {
    assert!(Game::from_line("").is_none());
    assert!(Game::from_line("Gam").is_none());
    assert!(Game::from_line("game 1: 3 Blue").is_none());
    assert!(Game::from_line("xGame 1: 3 Blue").is_none());
    assert!(Game::from_line("Game1: 3 Blue").is_none());
}

#[test]
fn rejects_lines_without_separator_or_numeric_id() {
    assert!(Game::from_line("Game 7 3 Blue").is_none());
    assert!(Game::from_line("Game seven: 3 Blue").is_none());
    assert!(Game::from_line("Game : 3 Blue").is_none());
    assert!(Game::from_line("Game -1: 3 Blue").is_none());
    assert!(Game::from_line("Game +1: 3 Blue").is_none());
}

#[test]
fn non_numeric_count_drops_only_its_token() {
    let g = Game::from_line("Game 3: abc Blue, 4 Red").unwrap();
    assert_eq!(g.id, 3);
    assert_eq!(g.cubes.len(), 1);
    assert_eq!(g.cubes[0].get(&Color::Blue), None);
    assert_eq!(g.cubes[0].get(&Color::Red), Some(4));
}

#[test]
fn unknown_label_and_spaceless_token_are_dropped() {
    let g = Game::from_line("Game 3: 4 Purple, nospace, 2 Green").unwrap();
    assert_eq!(g.cubes[0].get(&Color::Blue), None);
    assert_eq!(g.cubes[0].get(&Color::Red), None);
    assert_eq!(g.cubes[0].get(&Color::Green), Some(2));
}

#[test]
fn later_observation_of_a_category_wins() {
    let g = Game::from_line("Game 3: 4 Red, 9 Red").unwrap();
    assert_eq!(g.cubes[0].get(&Color::Red), Some(9));
}

#[test]
fn overlong_count_drops_its_token() {
    let g = Game::from_line("Game 1: 99999999999999999999999999 Blue, 2 Red").unwrap();
    assert_eq!(g.cubes[0].get(&Color::Blue), None);
    assert_eq!(g.cubes[0].get(&Color::Red), Some(2));
}

#[test]
fn color_parse_is_exact_and_case_sensitive() {
    assert_eq!(Color::parse("Blue"), Some(Color::Blue));
    assert_eq!(Color::parse("Red"), Some(Color::Red));
    assert_eq!(Color::parse("Green"), Some(Color::Green));
    assert_eq!(Color::parse("blue"), None);
    assert_eq!(Color::parse("Blu"), None);
    assert_eq!(Color::parse("Greens"), None);
    assert_eq!(Color::parse(""), None);
}

#[test]
fn color_thresholds_match_the_contract() {
    assert_eq!(Color::Blue.max(), 14);
    assert_eq!(Color::Red.max(), 12);
    assert_eq!(Color::Green.max(), 13);
}

#[test]
fn color_all_lists_each_category_once() {
    assert_eq!(Color::all(), vec![Color::Blue, Color::Red, Color::Green]);
}

#[test]
fn cubes_fold_with_overwrite() {
    let d = Cubes::default();
    assert_eq!(d.get(&Color::Blue), None);
    let d = d.with(&Color::Blue, 3).with(&Color::Red, 5).with(&Color::Blue, 7);
    assert_eq!(d.get(&Color::Blue), Some(7));
    assert_eq!(d.get(&Color::Red), Some(5));
    assert_eq!(d.get(&Color::Green), None);
}

#[test]
fn game_get_collects_observed_counts_in_order() {
    let g = Game::from_line("Game 2: 1 Blue, 2 Green; 3 Green, 4 Blue, 1 Red; 1 Green").unwrap();
    assert_eq!(g.get(&Color::Blue), vec![1, 4]);
    assert_eq!(g.get(&Color::Red), vec![1]);
    assert_eq!(g.get(&Color::Green), vec![2, 3, 1]);
}

#[test]
fn serialization_round_trips_parsed_records() {
    let lines = [
        "Game 1: 3 Blue, 4 Red; 1 Red, 2 Green, 6 Blue; 2 Green",
        "Game 12: 3 Blue, 4 Red; 2 Green",
        "Game 9: ",
        "Game 3: abc Blue, 4 Red",
        "Game 3: 4 Red, 9 Red",
    ];
    for line in lines {
        let g = Game::from_line(line).unwrap();
        let text: String = g.to_line().into_iter().collect();
        let h = Game::from_line(&text).unwrap();
        assert_eq!(g, h);
    }
}

#[test]
fn canonical_lines_serialize_verbatim() {
    let line = "Game 12: 3 Blue, 4 Red; 2 Green";
    let g = Game::from_line(line).unwrap();
    let text: String = g.to_line().into_iter().collect();
    assert_eq!(text, line);
}
