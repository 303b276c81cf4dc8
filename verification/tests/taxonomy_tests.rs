//! Boundary and totality checks of the bucket taxonomy.

use ranked_playlists::record::parse_difficulty;
use ranked_playlists::record::Difficulty;
use ranked_playlists::taxonomy::{classify, Direction, Magnitude, RowError};

#[test]
fn diff_zero_is_a_little_overrated() {
    let id = classify(5200, 0).unwrap();
    assert_eq!(id.bracket, 5);
    assert_eq!(id.direction, Direction::Overrated);
    assert_eq!(id.magnitude, Magnitude::ALittle);
}

#[test]
fn diff_half_star_is_fairly_overrated() {
    let id = classify(5200, 500).unwrap();
    assert_eq!(id.direction, Direction::Overrated);
    assert_eq!(id.magnitude, Magnitude::Fairly);
}

#[test]
fn diff_minus_half_star_is_fairly_underrated() {
    let id = classify(5200, -500).unwrap();
    assert_eq!(id.direction, Direction::Underrated);
    assert_eq!(id.magnitude, Magnitude::Fairly);
}

#[test]
fn diff_full_star_is_very_overrated() {
    let id = classify(5200, 1000).unwrap();
    assert_eq!(id.direction, Direction::Overrated);
    assert_eq!(id.magnitude, Magnitude::Very);
}

#[test]
fn diff_just_under_half_star_is_a_little() {
    let id = classify(5200, 499).unwrap();
    assert_eq!(id.direction, Direction::Overrated);
    assert_eq!(id.magnitude, Magnitude::ALittle);
    let id = classify(5200, -499).unwrap();
    assert_eq!(id.direction, Direction::Underrated);
    assert_eq!(id.magnitude, Magnitude::ALittle);
}

#[test]
fn diff_minus_full_star_is_very_underrated() {
    let id = classify(5200, -1000).unwrap();
    assert_eq!(id.direction, Direction::Underrated);
    assert_eq!(id.magnitude, Magnitude::Very);
    let id = classify(5200, -999).unwrap();
    assert_eq!(id.magnitude, Magnitude::Fairly);
}

#[test]
fn stars_just_below_fifteen_land_in_bracket_fourteen() {
    let id = classify(14999, 0).unwrap();
    assert_eq!(id.bracket, 14);
}

#[test]
fn stars_fifteen_are_rejected() {
    assert_eq!(classify(15000, 0), Err(RowError::OutOfRangeRating));
}

#[test]
fn negative_stars_are_rejected() {
    assert_eq!(classify(-1, 0), Err(RowError::OutOfRangeRating));
}

#[test]
fn every_valid_rating_classifies_into_a_valid_bucket() {
    let mut stars = 0i64;
    while stars < 15000 {
        for diff in [-2000i64, -1000, -500, -1, 0, 499, 500, 999, 1000, 5000] {
            let id = classify(stars, diff).unwrap();
            assert!(id.bracket < 15);
            assert_eq!(id.bracket as i64, stars / 1000);
        }
        stars += 250;
    }
}

#[test]
fn recognized_difficulty_labels_parse() {
    assert_eq!(parse_difficulty(&"Easy".to_string()), Some(Difficulty::Easy));
    assert_eq!(parse_difficulty(&"Normal".to_string()), Some(Difficulty::Normal));
    assert_eq!(parse_difficulty(&"Hard".to_string()), Some(Difficulty::Hard));
    assert_eq!(parse_difficulty(&"Expert".to_string()), Some(Difficulty::Expert));
    assert_eq!(parse_difficulty(&"ExpertPlus".to_string()), Some(Difficulty::ExpertPlus));
}

#[test]
fn unrecognized_difficulty_labels_do_not_parse() {
    assert_eq!(parse_difficulty(&"ExpertPlusPlus".to_string()), None);
    assert_eq!(parse_difficulty(&"easy".to_string()), None);
    assert_eq!(parse_difficulty(&"".to_string()), None);
}
