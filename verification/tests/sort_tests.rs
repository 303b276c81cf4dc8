//! The sorter: direction-aware order, most extreme first, and idempotence.

use ranked_playlists::playlist::{Difficulties, Playlist, Playlists, Songs};
use ranked_playlists::sort::sort_all;
use ranked_playlists::taxonomy::Direction;

fn reading(name: &str, diff_milli: i64) -> Difficulties {
    Difficulties { name: name.to_string(), characteristic: "Standard".to_string(), diff_milli }
}

fn song(name: &str, hash: &str, diffs: &[i64]) -> Songs {
    Songs {
        songName: name.to_string(),
        difficulties: diffs.iter().map(|d| reading("Hard", *d)).collect(),
        hash: hash.to_string(),
    }
}

fn bucket(direction: Direction, songs: Vec<Songs>) -> Playlist {
    Playlist { playlistTitle: "Bucket".to_string(), direction, songs }
}

fn diffs_of(p: &Playlist) -> Vec<Vec<i64>> {
    p.songs
        .iter()
        .map(|s| s.difficulties.iter().map(|d| d.diff_milli).collect())
        .collect()
}

#[test]
fn overrated_bucket_sorts_descending_most_extreme_first() {
    let mut p = bucket(
        Direction::Overrated,
        vec![song("S1", "A", &[100, 400, 200]), song("S2", "B", &[900]), song("S3", "C", &[300, 600])],
    );
    p.sort();
    assert_eq!(diffs_of(&p), vec![vec![900], vec![600, 300], vec![400, 200, 100]]);
    assert_eq!(p.songs[0].songName, "S2");
    assert_eq!(p.songs[1].songName, "S3");
    assert_eq!(p.songs[2].songName, "S1");
}

#[test]
fn underrated_bucket_sorts_ascending_most_extreme_first() {
    let mut p = bucket(
        Direction::Underrated,
        vec![song("S1", "A", &[-100, -400]), song("S2", "B", &[-900, -200])],
    );
    p.sort();
    assert_eq!(diffs_of(&p), vec![vec![-900, -200], vec![-400, -100]]);
    assert_eq!(p.songs[0].songName, "S2");
}

#[test]
fn sorting_twice_equals_sorting_once() {
    let mut p = bucket(
        Direction::Overrated,
        vec![song("S1", "A", &[0, 300]), song("S2", "B", &[450, 20, 499]), song("S3", "C", &[250])],
    );
    p.sort();
    let once = p.clone();
    p.sort();
    assert_eq!(p, once);
}

#[test]
fn sorting_twice_equals_sorting_once_underrated() {
    let mut p = bucket(
        Direction::Underrated,
        vec![song("S1", "A", &[-700, -320]), song("S2", "B", &[-999]), song("S3", "C", &[-500, -501])],
    );
    p.sort();
    let once = p.clone();
    p.sort();
    assert_eq!(p, once);
}

#[test]
fn sort_keeps_ties_in_first_seen_order() {
    // Equal deviations are ties; the sorter keeps their first-seen order,
    // so repeated runs over the same input are reproducible.
    let mut p = bucket(
        Direction::Overrated,
        vec![song("S1", "A", &[300]), song("S2", "B", &[300]), song("S3", "C", &[300])],
    );
    p.sort();
    let names: Vec<&str> = p.songs.iter().map(|s| s.songName.as_str()).collect();
    assert_eq!(names, vec!["S1", "S2", "S3"]);
}

#[test]
fn sort_keeps_tied_readings_in_first_seen_order() {
    let mut p = bucket(
        Direction::Underrated,
        vec![Songs {
            songName: "S1".to_string(),
            difficulties: vec![reading("Hard", -300), reading("Expert", -300), reading("Easy", -700)],
            hash: "A".to_string(),
        }],
    );
    p.sort();
    let order: Vec<(&str, i64)> = p.songs[0]
        .difficulties
        .iter()
        .map(|d| (d.name.as_str(), d.diff_milli))
        .collect();
    assert_eq!(order, vec![("Easy", -700), ("Hard", -300), ("Expert", -300)]);
}

#[test]
fn sort_all_sorts_every_bucket_and_keeps_the_rest() {
    let mut playlists = Playlists::new();
    playlists.overrated_playlist[5].a_little_version.songs =
        vec![song("S1", "A", &[100, 400]), song("S2", "B", &[450])];
    playlists.underrated_playlist[2].very_version.songs =
        vec![song("S3", "C", &[-1100, -2000]), song("S4", "D", &[-1500])];
    sort_all(&mut playlists);
    assert_eq!(
        diffs_of(&playlists.overrated_playlist[5].a_little_version),
        vec![vec![450], vec![400, 100]]
    );
    assert_eq!(
        diffs_of(&playlists.underrated_playlist[2].very_version),
        vec![vec![-2000, -1100], vec![-1500]]
    );
    // Untouched buckets stay empty, titles stay put.
    assert!(playlists.overrated_playlist[5].fairly_version.songs.is_empty());
    assert_eq!(
        playlists.overrated_playlist[5].a_little_version.playlistTitle,
        format!("A Little Overrated Playlist 5{}", '\u{2605}')
    );
    // A second pass changes nothing anywhere.
    let once = playlists.clone();
    sort_all(&mut playlists);
    assert_eq!(playlists, once);
}
