use std::cmp::Ordering;

use bgg::cli::{Data, SortOrder};
use bgg::details::Details;
use bgg::game::Game;
use bgg::query::{distinct_properties, filter_games, game_matches_query, ord_for_option, sort_games};
use bgg::text::str_contains;

fn game(id: u32, name: &str, rating: Option<u64>, rank: Option<u32>, mechanics: &[&str]) -> Game {
    let details = rating.map(|r| Details {
        id,
        name: name.to_string(),
        rating: r,
        rank,
        categories: vec![],
        mechanics: mechanics.iter().map(|m| m.to_string()).collect(),
    });
    Game { id, name: name.to_string(), plays: 0, details }
}

fn names(games: &[Game]) -> Vec<&str> {
    games.iter().map(|g| g.name.as_str()).collect()
}

#[test]
fn ord_for_option_puts_absent_keys_last() {
    assert_eq!(ord_for_option(None, None, false), Ordering::Equal);
    assert_eq!(ord_for_option(None, Some(3), false), Ordering::Greater);
    assert_eq!(ord_for_option(Some(3), None, false), Ordering::Less);
    assert_eq!(ord_for_option(Some(2), Some(3), false), Ordering::Less);
    assert_eq!(ord_for_option(Some(2), Some(3), true), Ordering::Greater);
    assert_eq!(ord_for_option(Some(3), Some(3), true), Ordering::Equal);
}

#[test]
fn sort_by_rating_is_descending_with_unrated_last() {
    let games = vec![
        game(1, "Low", Some(400000), None, &[]),
        game(2, "NoDetails", None, None, &[]),
        game(3, "High", Some(870000), None, &[]),
        game(4, "Mid", Some(700000), None, &[]),
    ];
    let sorted = sort_games(games, &SortOrder::Rating);
    assert_eq!(names(&sorted), vec!["High", "Mid", "Low", "NoDetails"]);
}

#[test]
fn sort_by_rating_is_stable_under_equal_keys() {
    let games = vec![
        game(1, "A", Some(500000), None, &[]),
        game(2, "B", Some(870000), None, &[]),
        game(3, "C", Some(500000), None, &[]),
        game(4, "D", None, None, &[]),
        game(5, "E", Some(500000), None, &[]),
        game(6, "F", None, None, &[]),
    ];
    let sorted = sort_games(games, &SortOrder::Rating);
    assert_eq!(names(&sorted), vec!["B", "A", "C", "E", "D", "F"]);
}

#[test]
fn sort_by_rank_is_ascending_with_unranked_last() {
    let games = vec![
        game(1, "Unranked", Some(600000), None, &[]),
        game(2, "Third", Some(600000), Some(300), &[]),
        game(3, "First", Some(600000), Some(1), &[]),
        game(4, "NoDetails", None, None, &[]),
        game(5, "Second", Some(600000), Some(7), &[]),
    ];
    let sorted = sort_games(games, &SortOrder::Rank);
    assert_eq!(names(&sorted), vec!["First", "Second", "Third", "Unranked", "NoDetails"]);
}

#[test]
fn sort_by_name_keeps_equal_names_in_input_order() {
    let games = vec![
        game(10, "Go", None, None, &[]),
        game(7, "Azul", None, None, &[]),
        game(3, "Go", None, None, &[]),
    ];
    let sorted = sort_games(games, &SortOrder::Name);
    assert_eq!(names(&sorted), vec!["Azul", "Go", "Go"]);
    assert_eq!(sorted[1].id, 10);
    assert_eq!(sorted[2].id, 3);
}

#[test]
fn sort_by_name_is_ascending() {
    let games = vec![
        game(1, "Go", None, None, &[]),
        game(2, "Azul", None, None, &[]),
        game(3, "Chess", None, None, &[]),
    ];
    let sorted = sort_games(games, &SortOrder::Name);
    assert_eq!(names(&sorted), vec!["Azul", "Chess", "Go"]);
}

#[test]
fn filter_by_name_is_case_insensitive() {
    let games = vec![
        game(1, "Warhammer", None, None, &[]),
        game(2, "Chess", None, None, &[]),
    ];
    let kept = filter_games(games, &Data::Games, "war");
    assert_eq!(names(&kept), vec!["Warhammer"]);
}

#[test]
fn str_contains_folds_case_both_ways() {
    assert!(str_contains("Warhammer", "war"));
    assert!(str_contains("warhammer", "WAR"));
    assert!(!str_contains("Chess", "war"));
    assert!(str_contains("anything", ""));
}

#[test]
fn filter_by_mechanic_needs_details() {
    let games = vec![
        game(1, "Catan", Some(700000), None, &["Trading", "Dice Rolling"]),
        game(2, "Bare", None, None, &[]),
        game(3, "Azul", Some(780000), None, &["Tile Placement"]),
    ];
    assert!(game_matches_query(&games[0], &Data::Mechanics, "dice"));
    assert!(!game_matches_query(&games[1], &Data::Mechanics, "dice"));
    let kept = filter_games(games, &Data::Mechanics, "tile");
    assert_eq!(names(&kept), vec!["Azul"]);
}

#[test]
fn properties_are_deduplicated_and_sorted() {
    let games = vec![
        game(1, "Catan", Some(700000), None, &["Trading", "Dice Rolling"]),
        game(2, "Backgammon", Some(650000), None, &["Dice Rolling"]),
        game(3, "Bare", None, None, &[]),
    ];
    let props = distinct_properties(&games, &Data::Mechanics);
    assert_eq!(props, vec!["Dice Rolling".to_string(), "Trading".to_string()]);
}

#[test]
fn properties_of_games_selection_are_empty() {
    let games = vec![game(1, "Catan", Some(700000), None, &["Trading"])];
    let props = distinct_properties(&games, &Data::Games);
    assert!(props.is_empty());
}
