//! The whole pass driven as a caller would drive it: group the pre-ordered
//! stream into runs, resolve predictions per run with memoization, classify
//! and store every reading, then sort once.

use ranked_playlists::engine::{group_runs, RowOutcome, RunSession};
use ranked_playlists::playlist::Playlists;
use ranked_playlists::prediction::PredictionKey;
use ranked_playlists::record::{parse_difficulty, MapData};
use ranked_playlists::sort::sort_all;

fn record(hash: &str, name: &str, difficulty: &str, stars_milli: i64) -> MapData {
    MapData {
        hash: hash.to_string(),
        name: name.to_string(),
        characteristic: "Standard".to_string(),
        difficulty: difficulty.to_string(),
        stars_milli,
    }
}

/// A stand-in predictor: a fixed rating per difficulty label, counting its
/// invocations.
fn predict(difficulty: &str, calls: &mut usize) -> i64 {
    *calls += 1;
    match difficulty {
        "Easy" => 1000,
        "Normal" => 3000,
        "Hard" => 4900,
        "Expert" => 5900,
        _ => 8000,
    }
}

#[test]
fn two_songs_flow_into_sorted_buckets() {
    // Song A, 5.2 stars: Hard deviates 0.3, Expert -0.7; first reading
    // fixes the bucket (bracket 5, overrated, a little). Song B, 2.1 stars:
    // Normal deviates -0.9 (bracket 2, underrated, fairly). A repeated Hard
    // row exercises the memo.
    let records = vec![
        record("A", "Song A", "Hard", 5200),
        record("A", "Song A", "Expert", 5200),
        record("A", "Song A", "Hard", 5200),
        record("B", "Song B", "Normal", 2100),
    ];
    let mut playlists = Playlists::new();
    let mut predictor_calls = 0usize;
    let mut processed = 0usize;
    let mut skipped = 0usize;

    for (start, end) in group_runs(&records) {
        let mut session = RunSession::new();
        for row in &records[start..end] {
            if let Some(difficulty) = parse_difficulty(&row.difficulty) {
                let key = PredictionKey {
                    characteristic: row.characteristic.clone(),
                    difficulty,
                };
                if session.needs_prediction(&key) {
                    let predicted = predict(&row.difficulty, &mut predictor_calls);
                    session.supply_prediction(key, predicted);
                }
            }
            match session.process_row(&mut playlists, row) {
                RowOutcome::Added => processed += 1,
                RowOutcome::Skipped(_) => skipped += 1,
            }
        }
    }

    // Three distinct keys over four rows: Hard asked once per run it
    // appears in, never twice within one run.
    assert_eq!(predictor_calls, 3);
    assert_eq!(processed, 4);
    assert_eq!(skipped, 0);

    sort_all(&mut playlists);

    let bucket_a = &playlists.overrated_playlist[5].a_little_version;
    assert_eq!(bucket_a.songs.len(), 1);
    let song_a = &bucket_a.songs[0];
    assert_eq!(song_a.songName, "Song A");
    assert_eq!(song_a.difficulties.len(), 3);
    // Overrated bucket: readings descend by deviation after the sort.
    let diffs: Vec<i64> = song_a.difficulties.iter().map(|d| d.diff_milli).collect();
    assert_eq!(diffs, vec![300, 300, -700]);

    let bucket_b = &playlists.underrated_playlist[2].fairly_version;
    assert_eq!(bucket_b.songs.len(), 1);
    assert_eq!(bucket_b.songs[0].songName, "Song B");
    assert_eq!(bucket_b.songs[0].difficulties[0].diff_milli, -900);
}
