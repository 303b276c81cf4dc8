//! The per-run prediction memo: lookups, inserts, and the at-most-once
//! invocation discipline a driver gets from it.

use ranked_playlists::engine::RunSession;
use ranked_playlists::prediction::{PredictionKey, PredictionTable};
use ranked_playlists::record::Difficulty;

fn key(characteristic: &str, difficulty: Difficulty) -> PredictionKey {
    PredictionKey { characteristic: characteristic.to_string(), difficulty }
}

#[test]
fn lookup_of_an_empty_table_misses() {
    let table = PredictionTable::new();
    assert_eq!(table.lookup(&key("Standard", Difficulty::Hard)), None);
}

#[test]
fn lookup_finds_what_insert_memoized() {
    let mut table = PredictionTable::new();
    table.insert(key("Standard", Difficulty::Hard), 4900);
    table.insert(key("Standard", Difficulty::Expert), 7300);
    assert_eq!(table.lookup(&key("Standard", Difficulty::Hard)), Some(4900));
    assert_eq!(table.lookup(&key("Standard", Difficulty::Expert)), Some(7300));
    assert_eq!(table.lookup(&key("Standard", Difficulty::Easy)), None);
    assert_eq!(table.lookup(&key("Lawless", Difficulty::Hard)), None);
}

#[test]
fn keys_differ_by_characteristic_and_difficulty() {
    let mut table = PredictionTable::new();
    table.insert(key("Standard", Difficulty::Hard), 1000);
    table.insert(key("Lawless", Difficulty::Hard), 2000);
    table.insert(key("Standard", Difficulty::Easy), 3000);
    assert_eq!(table.lookup(&key("Standard", Difficulty::Hard)), Some(1000));
    assert_eq!(table.lookup(&key("Lawless", Difficulty::Hard)), Some(2000));
    assert_eq!(table.lookup(&key("Standard", Difficulty::Easy)), Some(3000));
}

#[test]
fn predictor_is_invoked_at_most_once_per_distinct_key() {
    // A run of five rows over two distinct keys. The driver invokes the
    // predictor only when the session does not hold the key yet, as the
    // engine prescribes; the memo must keep the invocation count at the
    // number of distinct keys.
    let rows = [
        ("Standard", Difficulty::Hard),
        ("Standard", Difficulty::Expert),
        ("Standard", Difficulty::Hard),
        ("Standard", Difficulty::Hard),
        ("Standard", Difficulty::Expert),
    ];
    let mut session = RunSession::new();
    let mut predictor_calls = 0usize;
    for (characteristic, difficulty) in rows {
        let k = key(characteristic, difficulty);
        if session.needs_prediction(&k) {
            predictor_calls += 1;
            session.supply_prediction(k, 4900);
        }
    }
    assert_eq!(predictor_calls, 2);
}
