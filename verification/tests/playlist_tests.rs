//! The playlist store: construction, bucket search, and upsert merging.

use ranked_playlists::playlist::{add_difficulties_to_playlists, Difficulties, Playlists};
use ranked_playlists::record::MapData;
use ranked_playlists::taxonomy::{BucketId, Direction, Magnitude, RowError};

fn record(hash: &str, name: &str, characteristic: &str, difficulty: &str, stars_milli: i64) -> MapData {
    MapData {
        hash: hash.to_string(),
        name: name.to_string(),
        characteristic: characteristic.to_string(),
        difficulty: difficulty.to_string(),
        stars_milli,
    }
}

fn reading(name: &str, characteristic: &str, diff_milli: i64) -> Difficulties {
    Difficulties { name: name.to_string(), characteristic: characteristic.to_string(), diff_milli }
}

#[test]
fn new_store_has_fifteen_empty_bracket_sets_per_side() {
    let playlists = Playlists::new();
    assert_eq!(playlists.overrated_playlist.len(), 15);
    assert_eq!(playlists.underrated_playlist.len(), 15);
    for set in playlists.overrated_playlist.iter().chain(playlists.underrated_playlist.iter()) {
        assert!(set.a_little_version.songs.is_empty());
        assert!(set.fairly_version.songs.is_empty());
        assert!(set.very_version.songs.is_empty());
    }
}

#[test]
fn new_store_titles_buckets_by_direction_and_bracket() {
    let playlists = Playlists::new();
    assert_eq!(
        playlists.overrated_playlist[5].a_little_version.playlistTitle,
        format!("A Little Overrated Playlist 5{}", '\u{2605}')
    );
    assert_eq!(
        playlists.overrated_playlist[0].fairly_version.playlistTitle,
        format!("Fairly Overrated Playlist 0{}", '\u{2605}')
    );
    assert_eq!(
        playlists.underrated_playlist[14].very_version.playlistTitle,
        format!("Very Underrated Playlist 14{}", '\u{2605}')
    );
    assert_eq!(playlists.overrated_playlist[5].a_little_version.direction, Direction::Overrated);
    assert_eq!(playlists.underrated_playlist[5].a_little_version.direction, Direction::Underrated);
}

#[test]
fn search_playlist_set_floors_the_rating() {
    let playlists = Playlists::new();
    assert_eq!(playlists.search_playlist_set(0), Ok(0));
    assert_eq!(playlists.search_playlist_set(5200), Ok(5));
    assert_eq!(playlists.search_playlist_set(14999), Ok(14));
    assert_eq!(playlists.search_playlist_set(15000), Err(RowError::OutOfRangeRating));
    assert_eq!(playlists.search_playlist_set(-1), Err(RowError::OutOfRangeRating));
}

#[test]
fn upsert_merges_two_readings_into_one_song_entry() {
    // Two rows with the same hash and song name but different
    // (characteristic, difficulty) make one song entry with two readings,
    // not two entries.
    let mut playlists = Playlists::new();
    let id = BucketId { bracket: 5, direction: Direction::Overrated, magnitude: Magnitude::ALittle };
    let name = "Song1".to_string();
    let hash = "A".to_string();
    playlists.upsert(id, &name, &hash, reading("Hard", "Standard", 300));
    playlists.upsert(id, &name, &hash, reading("Expert", "Lawless", 100));
    let bucket = &playlists.overrated_playlist[5].a_little_version;
    assert_eq!(bucket.songs.len(), 1);
    let song = &bucket.songs[0];
    assert_eq!(song.songName, "Song1");
    assert_eq!(song.hash, "A");
    assert_eq!(song.difficulties.len(), 2);
    assert_eq!(song.difficulties[0], reading("Hard", "Standard", 300));
    assert_eq!(song.difficulties[1], reading("Expert", "Lawless", 100));
}

#[test]
fn upsert_keeps_distinct_songs_apart() {
    let mut playlists = Playlists::new();
    let id = BucketId { bracket: 3, direction: Direction::Underrated, magnitude: Magnitude::Very };
    playlists.upsert(id, &"Song1".to_string(), &"A".to_string(), reading("Hard", "Standard", -1200));
    playlists.upsert(id, &"Song2".to_string(), &"B".to_string(), reading("Hard", "Standard", -1500));
    // Same name, different hash: a different song.
    playlists.upsert(id, &"Song1".to_string(), &"C".to_string(), reading("Easy", "Standard", -1100));
    let bucket = &playlists.underrated_playlist[3].very_version;
    assert_eq!(bucket.songs.len(), 3);
    assert_eq!(bucket.songs[0].hash, "A");
    assert_eq!(bucket.songs[1].hash, "B");
    assert_eq!(bucket.songs[2].hash, "C");
}

#[test]
fn search_songs_finds_the_first_match() {
    let mut playlists = Playlists::new();
    let id = BucketId { bracket: 2, direction: Direction::Overrated, magnitude: Magnitude::Fairly };
    playlists.upsert(id, &"Song1".to_string(), &"A".to_string(), reading("Hard", "Standard", 700));
    playlists.upsert(id, &"Song2".to_string(), &"B".to_string(), reading("Hard", "Standard", 600));
    let bucket = &playlists.overrated_playlist[2].fairly_version;
    assert_eq!(bucket.search_songs(&"Song2".to_string(), &"B".to_string()), Some(1));
    assert_eq!(bucket.search_songs(&"Song2".to_string(), &"A".to_string()), None);
    assert_eq!(bucket.search_songs(&"Missing".to_string(), &"Z".to_string()), None);
}

#[test]
fn add_difficulties_joins_the_song_where_it_already_lives() {
    // First-wins: the second reading of a song deviates the other way, yet
    // it joins the entry the first reading created; the bucket its own
    // deviation would name stays empty.
    let mut playlists = Playlists::new();
    let row = record("A", "Song1", "Standard", "Hard", 5200);
    add_difficulties_to_playlists(&mut playlists, &row, reading("Hard", "Standard", 300));
    let row2 = record("A", "Song1", "Standard", "Expert", 5200);
    add_difficulties_to_playlists(&mut playlists, &row2, reading("Expert", "Standard", -700));
    let bucket = &playlists.overrated_playlist[5].a_little_version;
    assert_eq!(bucket.songs.len(), 1);
    assert_eq!(bucket.songs[0].difficulties.len(), 2);
    assert_eq!(bucket.songs[0].difficulties[0].diff_milli, 300);
    assert_eq!(bucket.songs[0].difficulties[1].diff_milli, -700);
    assert!(playlists.underrated_playlist[5].fairly_version.songs.is_empty());
}

#[test]
fn add_difficulties_classifies_by_stars_and_diff() {
    let mut playlists = Playlists::new();
    let row = record("A", "Song1", "Standard", "Hard", 5200);
    add_difficulties_to_playlists(&mut playlists, &row, reading("Hard", "Standard", 300));
    let bucket = &playlists.overrated_playlist[5].a_little_version;
    assert_eq!(bucket.songs.len(), 1);
    assert_eq!(bucket.songs[0].songName, "Song1");

    let row2 = record("B", "Song2", "Standard", "Expert", 7800);
    add_difficulties_to_playlists(&mut playlists, &row2, reading("Expert", "Standard", -600));
    let bucket2 = &playlists.underrated_playlist[7].fairly_version;
    assert_eq!(bucket2.songs.len(), 1);
    assert_eq!(bucket2.songs[0].songName, "Song2");
}
