//! The classification pass end to end: run grouping, per-row resolution,
//! first-wins bucket assignment, and the run reports.

use ranked_playlists::engine::{group_runs, make_difficulties, process_run, RowOutcome, RunSession};
use ranked_playlists::playlist::Playlists;
use ranked_playlists::prediction::{PredictionKey, PredictionTable};
use ranked_playlists::record::{Difficulty, MapData};
use ranked_playlists::taxonomy::RowError;

fn record(hash: &str, name: &str, characteristic: &str, difficulty: &str, stars_milli: i64) -> MapData {
    MapData {
        hash: hash.to_string(),
        name: name.to_string(),
        characteristic: characteristic.to_string(),
        difficulty: difficulty.to_string(),
        stars_milli,
    }
}

fn key(characteristic: &str, difficulty: Difficulty) -> PredictionKey {
    PredictionKey { characteristic: characteristic.to_string(), difficulty }
}

#[test]
fn group_runs_of_an_empty_stream_is_empty() {
    let records: Vec<MapData> = vec![];
    let expected: Vec<(usize, usize)> = vec![];
    assert_eq!(group_runs(&records), expected);
}

#[test]
fn group_runs_cuts_where_the_hash_changes() {
    let records = vec![
        record("A", "Song1", "Standard", "Easy", 1000),
        record("A", "Song1", "Standard", "Hard", 1000),
        record("A", "Song1", "Standard", "Expert", 1000),
        record("B", "Song2", "Standard", "Hard", 2000),
        record("B", "Song2", "Standard", "Expert", 2000),
        record("C", "Song3", "Standard", "Easy", 3000),
    ];
    assert_eq!(group_runs(&records), vec![(0, 3), (3, 5), (5, 6)]);
}

#[test]
fn group_runs_keeps_single_row_runs() {
    let records = vec![
        record("A", "Song1", "Standard", "Easy", 1000),
        record("B", "Song2", "Standard", "Easy", 2000),
    ];
    assert_eq!(group_runs(&records), vec![(0, 1), (1, 2)]);
}

#[test]
fn make_difficulties_computes_the_deviation() {
    let mut table = PredictionTable::new();
    table.insert(key("Standard", Difficulty::Hard), 4900);
    let row = record("A", "Song1", "Standard", "Hard", 5200);
    let d = make_difficulties(&row, &table).unwrap();
    assert_eq!(d.name, "Hard");
    assert_eq!(d.characteristic, "Standard");
    assert_eq!(d.diff_milli, 300);
}

#[test]
fn make_difficulties_rejects_an_unrecognized_label() {
    let table = PredictionTable::new();
    let row = record("A", "Song1", "Standard", "Impossible", 5200);
    assert_eq!(make_difficulties(&row, &table), Err(RowError::InvalidDifficultyLabel));
}

#[test]
fn make_difficulties_reports_a_missing_prediction() {
    let mut table = PredictionTable::new();
    table.insert(key("Standard", Difficulty::Easy), 4900);
    let row = record("A", "Song1", "Standard", "Hard", 5200);
    assert_eq!(make_difficulties(&row, &table), Err(RowError::MissingPrediction));
}

#[test]
fn make_difficulties_is_total_over_ratings() {
    // A rating without a bracket still yields its deviation; the taxonomy,
    // not the diff calculator, rejects such a row later.
    let mut table = PredictionTable::new();
    table.insert(key("Standard", Difficulty::Hard), 4900);
    let row = record("A", "Song1", "Standard", "Hard", 15000);
    let d = make_difficulties(&row, &table).unwrap();
    assert_eq!(d.diff_milli, 10100);
}

#[test]
fn one_row_lands_in_its_bucket_with_its_deviation() {
    // A 5.2-star "Hard" row predicted at 4.9 stars deviates by 0.3: bucket
    // (bracket 5, overrated, a little), one song entry, one reading.
    let mut playlists = Playlists::new();
    let records = vec![record("A", "Song1", "Standard", "Hard", 5200)];
    let mut table = PredictionTable::new();
    table.insert(key("Standard", Difficulty::Hard), 4900);
    let report = process_run(&mut playlists, &records, 0, 1, table);
    assert_eq!(report.processed, 1);
    assert_eq!(report.skipped, 0);
    let bucket = &playlists.overrated_playlist[5].a_little_version;
    assert_eq!(bucket.songs.len(), 1);
    let song = &bucket.songs[0];
    assert_eq!(song.songName, "Song1");
    assert_eq!(song.hash, "A");
    assert_eq!(song.difficulties.len(), 1);
    assert_eq!(song.difficulties[0].name, "Hard");
    assert_eq!(song.difficulties[0].characteristic, "Standard");
    assert_eq!(song.difficulties[0].diff_milli, 300);
    // Nothing lands anywhere else.
    for (i, set) in playlists.overrated_playlist.iter().enumerate() {
        if i != 5 {
            assert!(set.a_little_version.songs.is_empty());
        }
        assert!(set.fairly_version.songs.is_empty());
        assert!(set.very_version.songs.is_empty());
    }
    for set in playlists.underrated_playlist.iter() {
        assert!(set.a_little_version.songs.is_empty());
        assert!(set.fairly_version.songs.is_empty());
        assert!(set.very_version.songs.is_empty());
    }
}

#[test]
fn first_classified_reading_fixes_the_song_bucket() {
    // Two difficulties of one song deviate by 0.3 and -0.7. The first
    // classified reading decides the bucket, so both land in (5, overrated,
    // a little) as one song entry — the second reading's own class is not
    // consulted.
    let mut playlists = Playlists::new();
    let records = vec![
        record("A", "Song1", "Standard", "Hard", 5200),
        record("A", "Song1", "Standard", "Expert", 5200),
    ];
    let mut table = PredictionTable::new();
    table.insert(key("Standard", Difficulty::Hard), 4900);
    table.insert(key("Standard", Difficulty::Expert), 5900);
    let report = process_run(&mut playlists, &records, 0, 2, table);
    assert_eq!(report.processed, 2);
    assert_eq!(report.skipped, 0);
    let bucket = &playlists.overrated_playlist[5].a_little_version;
    assert_eq!(bucket.songs.len(), 1);
    let song = &bucket.songs[0];
    assert_eq!(song.difficulties.len(), 2);
    assert_eq!(song.difficulties[0].diff_milli, 300);
    assert_eq!(song.difficulties[1].diff_milli, -700);
    // The bucket the second reading would have named on its own stays
    // empty.
    assert!(playlists.underrated_playlist[5].fairly_version.songs.is_empty());
}

#[test]
fn rows_without_a_prediction_are_skipped_and_counted() {
    let mut playlists = Playlists::new();
    let records = vec![
        record("A", "Song1", "Standard", "Hard", 5200),
        record("A", "Song1", "Standard", "Expert", 5200),
        record("A", "Song1", "Standard", "Oops", 5200),
    ];
    let mut table = PredictionTable::new();
    table.insert(key("Standard", Difficulty::Hard), 4900);
    let report = process_run(&mut playlists, &records, 0, 3, table);
    assert_eq!(report.processed, 1);
    assert_eq!(report.skipped, 2);
    let bucket = &playlists.overrated_playlist[5].a_little_version;
    assert_eq!(bucket.songs.len(), 1);
    assert_eq!(bucket.songs[0].difficulties.len(), 1);
}

#[test]
fn per_row_session_memoizes_and_classifies() {
    let mut playlists = Playlists::new();
    let rows = vec![
        record("A", "Song1", "Standard", "Hard", 5200),
        record("A", "Song1", "Standard", "Hard", 5200),
    ];
    let mut session = RunSession::new();
    let mut predictor_calls = 0usize;
    for row in rows.iter() {
        let k = key(row.characteristic.as_str(), Difficulty::Hard);
        if session.needs_prediction(&k) {
            predictor_calls += 1;
            session.supply_prediction(k, 4900);
        }
        let outcome = session.process_row(&mut playlists, row);
        assert_eq!(outcome, RowOutcome::Added);
    }
    assert_eq!(predictor_calls, 1);
    let bucket = &playlists.overrated_playlist[5].a_little_version;
    assert_eq!(bucket.songs.len(), 1);
    assert_eq!(bucket.songs[0].difficulties.len(), 2);
}

#[test]
fn a_rating_out_of_range_skips_the_row() {
    let mut playlists = Playlists::new();
    let records = vec![record("A", "Song1", "Standard", "Hard", 16000)];
    let mut table = PredictionTable::new();
    table.insert(key("Standard", Difficulty::Hard), 4900);
    let report = process_run(&mut playlists, &records, 0, 1, table);
    assert_eq!(report.processed, 0);
    assert_eq!(report.skipped, 1);
}
