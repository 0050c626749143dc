//! Batch-level tests: parsing many lines and the two aggregates.

use cube_games::aggregate::part_1;
use cube_games::aggregate::part_2;
use cube_games::game::Game;
use cube_games::parse_lines;

const DATA: &str = "Game 1: 3 Blue, 4 Red; 1 Red, 2 Green, 6 Blue; 2 Green
Game 2: 1 Blue, 2 Green; 3 Green, 4 Blue, 1 Red; 1 Green, 1 Blue
Game 3: 8 Green, 6 Blue, 20 Red; 5 Blue, 4 Red, 13 Green; 5 Green, 1 Red
Game 4: 1 Green, 3 Red, 6 Blue; 3 Green, 6 Red; 3 Green, 15 Blue, 14 Red
Game 5: 6 Red, 1 Blue, 3 Green; 2 Blue, 1 Red, 2 Green";

#[test]
fn test_part_1() {
    let data = "Game 1: 3 Blue, 4 Red; 1 Red, 2 Green, 6 Blue; 2 Green
Game 2: 1 Blue, 2 Green; 3 Green, 4 Blue, 1 Red; 1 Green, 1 Blue
Game 3: 8 Green, 6 Blue, 20 Red; 5 Blue, 4 Red, 13 Green; 5 Green, 1 Red
Game 4: 1 Green, 3 Red, 6 Blue; 3 Green, 6 Red; 3 Green, 15 Blue, 14 Red
Game 5: 6 Red, 1 Blue, 3 Green; 2 Blue, 1 Red, 2 Green";
    assert_eq!(part_1(&parse_lines::<Game>(data)), 8)
}

#[test]
fn test_part_2() {
    let data = "Game 1: 3 Blue, 4 Red; 1 Red, 2 Green, 6 Blue; 2 Green
Game 2: 1 Blue, 2 Green; 3 Green, 4 Blue, 1 Red; 1 Green, 1 Blue
Game 3: 8 Green, 6 Blue, 20 Red; 5 Blue, 4 Red, 13 Green; 5 Green, 1 Red
Game 4: 1 Green, 3 Red, 6 Blue; 3 Green, 6 Red; 3 Green, 15 Blue, 14 Red
Game 5: 6 Red, 1 Blue, 3 Green; 2 Blue, 1 Red, 2 Green";
    assert_eq!(part_2(&parse_lines::<Game>(data)), 2286)
}

#[test]
fn empty_batch_sums_to_zero() {
    let games: Vec<Game> = parse_lines("");
    assert!(games.is_empty());
    assert_eq!(part_1(&games), 0);
    assert_eq!(part_2(&games), 0);
}

#[test]
fn all_unparseable_lines_yield_empty_batch() {
    let data = "not a game\n\nxGame 1: 3 Blue\nGame x: 3 Blue\nGame: 3 Blue";
    let games: Vec<Game> = parse_lines(data);
    assert!(games.is_empty());
    assert_eq!(part_1(&games), 0);
    assert_eq!(part_2(&games), 0);
}

#[test]
fn missing_separator_line_is_skipped() {
    let data = "Game 7 3 Blue\nGame 2: 1 Blue";
    let games: Vec<Game> = parse_lines(data);
    assert_eq!(games.len(), 1);
    assert_eq!(games[0].id, 2);
}

#[test]
fn malformed_lines_do_not_abort_the_batch() {
    let data = format!("junk\n{}\nGame 7 3 Blue", DATA);
    let games: Vec<Game> = parse_lines(&data);
    assert_eq!(games.len(), 5);
    assert_eq!(part_1(&games), 8);
    assert_eq!(part_2(&games), 2286);
}

#[test]
fn crlf_line_endings_are_accepted() {
    let data = "Game 1: 3 Blue\r\nGame 2: 4 Red\r\n";
    let games: Vec<Game> = parse_lines(data);
    assert_eq!(games.len(), 2);
    assert_eq!(games[0].id, 1);
    assert_eq!(games[1].id, 2);
}

#[test]
fn record_with_empty_draw_text_contributes_zero_power() {
    let games: Vec<Game> = parse_lines("Game 9: ");
    assert_eq!(games.len(), 1);
    assert_eq!(games[0].id, 9);
    assert_eq!(games[0].cubes.len(), 1);
    assert_eq!(part_2(&games), 0);
    assert_eq!(part_1(&games), 9);
}

#[test]
fn overlong_identifier_is_skipped() {
    let games: Vec<Game> = parse_lines("Game 99999999999999999999999999: 1 Blue");
    assert!(games.is_empty());
}

#[test]
fn feasibility_respects_thresholds_exactly() {
    let data = "Game 1: 14 Blue, 12 Red, 13 Green\nGame 2: 15 Blue\nGame 3: 13 Red\nGame 4: 14 Green";
    let games: Vec<Game> = parse_lines(data);
    assert_eq!(games.len(), 4);
    assert_eq!(part_1(&games), 1);
}

#[test]
fn power_multiplies_per_category_maxima() {
    let data = "Game 1: 2 Blue, 3 Red; 5 Blue, 4 Green";
    let games: Vec<Game> = parse_lines(data);
    assert_eq!(part_2(&games), 5 * 3 * 4);
}
