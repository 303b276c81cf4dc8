//! The playlist store: 90 buckets, each an ordered list of song entries,
//! each song entry an ordered list of difficulty readings. Populated by
//! idempotent upsert during the single classification pass.

use vstd::prelude::*;
use vstd::pervasive::unreached;
use crate::taxonomy::{
    classify, lemma_classify_total, spec_bracket, spec_classify, valid_bucket, valid_stars,
    BucketId, Direction, Magnitude, RowError, BRACKET_COUNT, MAX_STARS_MILLI, MILLIS_PER_STAR,
};
use crate::record::{MapData, MapDataView};

verus! {

/// One difficulty reading of a song: the label and characteristic of the row
/// it came from, and the signed deviation in milli-stars. Immutable once
/// created.
#[allow(non_snake_case)]
#[derive(Debug, Clone, PartialEq)]
pub struct Difficulties {
    pub name: String,
    pub characteristic: String,
    pub diff_milli: i64,
}

/// Ghost image of a difficulty reading.
#[verifier::ext_equal]
pub struct DifficultiesView {
    pub name: Seq<char>,
    pub characteristic: Seq<char>,
    pub diff_milli: int,
}

impl View for Difficulties {
    type V = DifficultiesView;

    open spec fn view(&self) -> DifficultiesView {
        DifficultiesView {
            name: self.name@,
            characteristic: self.characteristic@,
            diff_milli: self.diff_milli as int,
        }
    }
}

/// One song entry of a bucket: identity is the pair (songName, hash); the
/// difficulty readings accumulate in first-seen order until sorting.
#[allow(non_snake_case)]
#[derive(Debug, Clone, PartialEq)]
pub struct Songs {
    pub songName: String,
    pub difficulties: Vec<Difficulties>,
    pub hash: String,
}

/// Ghost image of a song entry.
#[allow(non_snake_case)]
#[verifier::ext_equal]
pub struct SongsView {
    pub songName: Seq<char>,
    pub difficulties: Seq<DifficultiesView>,
    pub hash: Seq<char>,
}

impl View for Songs {
    type V = SongsView;

    open spec fn view(&self) -> SongsView {
        SongsView {
            songName: self.songName@,
            difficulties: self.difficulties@.map_values(|d: Difficulties| d@),
            hash: self.hash@,
        }
    }
}

/// One bucket: a titled, ordered list of song entries, sorted most extreme
/// first in the direction the bucket belongs to.
#[allow(non_snake_case)]
#[derive(Debug, Clone, PartialEq)]
pub struct Playlist {
    pub playlistTitle: String,
    pub direction: Direction,
    pub songs: Vec<Songs>,
}

/// Ghost image of a bucket.
#[allow(non_snake_case)]
#[verifier::ext_equal]
pub struct PlaylistView {
    pub playlistTitle: Seq<char>,
    pub direction: Direction,
    pub songs: Seq<SongsView>,
}

impl View for Playlist {
    type V = PlaylistView;

    open spec fn view(&self) -> PlaylistView {
        PlaylistView {
            playlistTitle: self.playlistTitle@,
            direction: self.direction,
            songs: self.songs@.map_values(|s: Songs| s@),
        }
    }
}

/// The three deviation-magnitude buckets of one rating bracket and one
/// direction.
#[derive(Debug, Clone, PartialEq)]
pub struct PlaylistSet {
    pub a_little_version: Playlist,
    pub fairly_version: Playlist,
    pub very_version: Playlist,
}

/// Ghost image of a bracket's three buckets of one direction.
#[verifier::ext_equal]
pub struct PlaylistSetView {
    pub a_little_version: PlaylistView,
    pub fairly_version: PlaylistView,
    pub very_version: PlaylistView,
}

impl View for PlaylistSet {
    type V = PlaylistSetView;

    open spec fn view(&self) -> PlaylistSetView {
        PlaylistSetView {
            a_little_version: self.a_little_version@,
            fairly_version: self.fairly_version@,
            very_version: self.very_version@,
        }
    }
}

/// The full aggregate: 15 rating brackets of three overrated buckets each,
/// and the same on the underrated side, 90 buckets in all.
#[allow(non_snake_case)]
#[derive(Debug, Clone, PartialEq)]
pub struct Playlists {
    pub overrated_playlist: Vec<PlaylistSet>,
    pub underrated_playlist: Vec<PlaylistSet>,
}

/// Ghost image of the full aggregate.
#[allow(non_snake_case)]
#[verifier::ext_equal]
pub struct PlaylistsView {
    pub overrated_playlist: Seq<PlaylistSetView>,
    pub underrated_playlist: Seq<PlaylistSetView>,
}

impl View for Playlists {
    type V = PlaylistsView;

    open spec fn view(&self) -> PlaylistsView {
        PlaylistsView {
            overrated_playlist: self.overrated_playlist@.map_values(|s: PlaylistSet| s@),
            underrated_playlist: self.underrated_playlist@.map_values(|s: PlaylistSet| s@),
        }
    }
}

/// A song entry always holds at least the reading that created it.
pub open spec fn song_wf(s: SongsView) -> bool {
    s.difficulties.len() >= 1
}

/// Every song entry of a bucket is well-formed.
pub open spec fn playlist_wf(p: PlaylistView) -> bool {
    forall|i: int| 0 <= i < p.songs.len() ==> song_wf(#[trigger] p.songs[i])
}

/// The three buckets of a set are well-formed and belong to the set's
/// direction.
pub open spec fn set_wf(s: PlaylistSetView, direction: Direction) -> bool {
    &&& playlist_wf(s.a_little_version)
    &&& playlist_wf(s.fairly_version)
    &&& playlist_wf(s.very_version)
    &&& s.a_little_version.direction == direction
    &&& s.fairly_version.direction == direction
    &&& s.very_version.direction == direction
}

/// The aggregate holds 15 well-formed bracket sets on either side.
pub open spec fn playlists_wf(p: PlaylistsView) -> bool {
    &&& p.overrated_playlist.len() == BRACKET_COUNT
    &&& p.underrated_playlist.len() == BRACKET_COUNT
    &&& forall|i: int|
        0 <= i < BRACKET_COUNT ==> set_wf(#[trigger] p.overrated_playlist[i], Direction::Overrated)
    &&& forall|i: int|
        0 <= i < BRACKET_COUNT ==> set_wf(
            #[trigger] p.underrated_playlist[i],
            Direction::Underrated,
        )
}

/// Whether a song entry answers to the given identity.
pub open spec fn song_matches(s: SongsView, name: Seq<char>, hash: Seq<char>) -> bool {
    s.songName == name && s.hash == hash
}

/// Index of the first song entry with the given identity, if any.
pub open spec fn spec_find_song(songs: Seq<SongsView>, name: Seq<char>, hash: Seq<char>) -> Option<
    int,
>
    decreases songs.len(),
{
    if songs.len() == 0 {
        None
    } else if song_matches(songs[0], name, hash) {
        Some(0)
    } else {
        match spec_find_song(songs.drop_first(), name, hash) {
            None => None,
            Some(j) => Some(j + 1),
        }
    }
}

/// `spec_find_song` names the first matching entry: the index it returns
/// matches and nothing before it does; when it returns nothing, no entry
/// matches.
pub proof fn lemma_find_song(songs: Seq<SongsView>, name: Seq<char>, hash: Seq<char>)
    ensures
        match spec_find_song(songs, name, hash) {
            Some(i) => 0 <= i < songs.len() && song_matches(songs[i], name, hash) && forall|j: int|
                0 <= j < i ==> !song_matches(#[trigger] songs[j], name, hash),
            None => forall|j: int|
                0 <= j < songs.len() ==> !song_matches(#[trigger] songs[j], name, hash),
        },
    decreases songs.len(),
{
    if songs.len() > 0 && !song_matches(songs[0], name, hash) {
        let rest = songs.drop_first();
        lemma_find_song(rest, name, hash);
        assert(forall|j: int| 0 <= j < rest.len() ==> #[trigger] rest[j] == songs[j + 1]);
        match spec_find_song(rest, name, hash) {
            Some(j) => {
                assert(spec_find_song(songs, name, hash) == Some(j + 1));
                assert(songs[j + 1] == rest[j]);
                assert forall|k: int| 0 <= k < j + 1 implies !song_matches(
                    #[trigger] songs[k],
                    name,
                    hash,
                ) by {
                    if k > 0 {
                        assert(songs[k] == rest[k - 1]);
                    }
                }
            },
            None => {
                assert forall|k: int| 0 <= k < songs.len() implies !song_matches(
                    #[trigger] songs[k],
                    name,
                    hash,
                ) by {
                    if k > 0 {
                        assert(songs[k] == rest[k - 1]);
                    }
                }
            },
        }
    }
}

/// The bucket's song list after an upsert: the reading joins the first entry
/// with the song's identity, or a fresh entry holding only the reading goes
/// to the end.
pub open spec fn spec_upsert_songs(
    songs: Seq<SongsView>,
    name: Seq<char>,
    hash: Seq<char>,
    entry: DifficultiesView,
) -> Seq<SongsView> {
    match spec_find_song(songs, name, hash) {
        Some(i) => songs.update(
            i,
            SongsView {
                songName: name,
                difficulties: songs[i].difficulties.push(entry),
                hash: hash,
            },
        ),
        None => songs.push(SongsView { songName: name, difficulties: seq![entry], hash: hash }),
    }
}

impl Playlist {
    /// Index of the first song entry with the given identity, if the bucket
    /// holds one.
    pub fn search_songs(&self, song_name: &String, hash: &String) -> (r: Option<usize>)
        ensures
            match r {
                Some(i) => spec_find_song(self@.songs, song_name@, hash@) == Some(i as int),
                None => spec_find_song(self@.songs, song_name@, hash@) is None,
            },
    {
        let n = self.songs.len();
        let mut i: usize = 0;
        while i < n
            invariant
                0 <= i <= n,
                n == self.songs.len(),
                forall|j: int|
                    0 <= j < i ==> !song_matches(#[trigger] self@.songs[j], song_name@, hash@),
            decreases n - i,
        {
            let candidate = &self.songs[i];
            proof {
                assert(self@.songs[i as int] == self.songs@[i as int]@);
            }
            if candidate.songName == *song_name && candidate.hash == *hash {
                proof {
                    lemma_find_song(self@.songs, song_name@, hash@);
                    assert(song_matches(self@.songs[i as int], song_name@, hash@));
                }
                return Some(i);
            }
            proof {
                assert(!song_matches(self@.songs[i as int], song_name@, hash@));
            }
            i = i + 1;
        }
        proof {
            lemma_find_song(self@.songs, song_name@, hash@);
        }
        None
    }

    /// Upsert one reading under the given song identity, per the store
    /// contract: join the existing entry or append a fresh one.
    pub fn upsert_song(&mut self, song_name: &String, hash: &String, entry: Difficulties)
        ensures
            final(self)@.songs == spec_upsert_songs(
                old(self)@.songs,
                song_name@,
                hash@,
                entry@,
            ),
            final(self)@.playlistTitle == old(self)@.playlistTitle,
            final(self)@.direction == old(self)@.direction,
            playlist_wf(old(self)@) ==> playlist_wf(final(self)@),
    {
        proof {
            lemma_find_song(self@.songs, song_name@, hash@);
        }
        match self.search_songs(song_name, hash) {
            Some(i) => {
                let ghost old_songs = old(self)@.songs;
                let mut song = self.songs.remove(i);
                proof {
                    assert(song@ == old_songs[i as int]);
                    assert(song_matches(old_songs[i as int], song_name@, hash@));
                }
                let ghost removed_view = song@;
                song.difficulties.push(entry);
                proof {
                    assert(song@.difficulties =~= removed_view.difficulties.push(entry@));
                    assert(song@ =~= SongsView {
                        songName: song_name@,
                        difficulties: old_songs[i as int].difficulties.push(entry@),
                        hash: hash@,
                    });
                }
                self.songs.insert(i, song);
                proof {
                    assert(self.songs@ =~= old(self).songs@.update(i as int, song));
                    assert(self@.songs =~= old_songs.update(i as int, song@));
                    assert(self@.songs =~= spec_upsert_songs(
                        old(self)@.songs,
                        song_name@,
                        hash@,
                        entry@,
                    ));
                }
            },
            None => {
                let mut first_reading: Vec<Difficulties> = Vec::new();
                first_reading.push(entry);
                let song = Songs {
                    songName: song_name.clone(),
                    difficulties: first_reading,
                    hash: hash.clone(),
                };
                proof {
                    assert(song@.difficulties =~= seq![entry@]);
                }
                self.songs.push(song);
                proof {
                    assert(self@.songs =~= spec_upsert_songs(
                        old(self)@.songs,
                        song_name@,
                        hash@,
                        entry@,
                    ));
                }
            },
        }
    }
}

/// The bucket a valid identifier names, out of the aggregate.
pub open spec fn spec_target_playlist(p: PlaylistsView, id: BucketId) -> PlaylistView {
    let set = match id.direction {
        Direction::Overrated => p.overrated_playlist[id.bracket as int],
        Direction::Underrated => p.underrated_playlist[id.bracket as int],
    };
    match id.magnitude {
        Magnitude::ALittle => set.a_little_version,
        Magnitude::Fairly => set.fairly_version,
        Magnitude::Very => set.very_version,
    }
}

/// The set with one of its three buckets replaced.
pub open spec fn spec_set_with_playlist(
    set: PlaylistSetView,
    magnitude: Magnitude,
    playlist: PlaylistView,
) -> PlaylistSetView {
    match magnitude {
        Magnitude::ALittle => PlaylistSetView { a_little_version: playlist, ..set },
        Magnitude::Fairly => PlaylistSetView { fairly_version: playlist, ..set },
        Magnitude::Very => PlaylistSetView { very_version: playlist, ..set },
    }
}

/// The aggregate with the bucket named by `id` replaced.
pub open spec fn spec_replace_playlist(
    p: PlaylistsView,
    id: BucketId,
    playlist: PlaylistView,
) -> PlaylistsView {
    match id.direction {
        Direction::Overrated => PlaylistsView {
            overrated_playlist: p.overrated_playlist.update(
                id.bracket as int,
                spec_set_with_playlist(
                    p.overrated_playlist[id.bracket as int],
                    id.magnitude,
                    playlist,
                ),
            ),
            ..p
        },
        Direction::Underrated => PlaylistsView {
            underrated_playlist: p.underrated_playlist.update(
                id.bracket as int,
                spec_set_with_playlist(
                    p.underrated_playlist[id.bracket as int],
                    id.magnitude,
                    playlist,
                ),
            ),
            ..p
        },
    }
}

/// The whole aggregate after one upsert: only the bucket named by `id`
/// changes, and it changes by `spec_upsert_songs`.
pub open spec fn spec_upsert(
    p: PlaylistsView,
    id: BucketId,
    name: Seq<char>,
    hash: Seq<char>,
    entry: DifficultiesView,
) -> PlaylistsView {
    let target = spec_target_playlist(p, id);
    spec_replace_playlist(
        p,
        id,
        PlaylistView { songs: spec_upsert_songs(target.songs, name, hash, entry), ..target },
    )
}

impl Playlists {
    /// Upsert one reading into the bucket `id` names.
    pub fn upsert(&mut self, id: BucketId, song_name: &String, hash: &String, entry: Difficulties)
        requires
            valid_bucket(id),
            playlists_wf(old(self)@),
        ensures
            final(self)@ == spec_upsert(old(self)@, id, song_name@, hash@, entry@),
            playlists_wf(final(self)@),
    {
        let bracket = id.bracket as usize;
        match id.direction {
            Direction::Overrated => {
                let mut set = self.overrated_playlist.remove(bracket);
                match id.magnitude {
                    Magnitude::ALittle => set.a_little_version.upsert_song(
                        song_name,
                        hash,
                        entry,
                    ),
                    Magnitude::Fairly => set.fairly_version.upsert_song(song_name, hash, entry),
                    Magnitude::Very => set.very_version.upsert_song(song_name, hash, entry),
                }
                self.overrated_playlist.insert(bracket, set);
            },
            Direction::Underrated => {
                let mut set = self.underrated_playlist.remove(bracket);
                match id.magnitude {
                    Magnitude::ALittle => set.a_little_version.upsert_song(
                        song_name,
                        hash,
                        entry,
                    ),
                    Magnitude::Fairly => set.fairly_version.upsert_song(song_name, hash, entry),
                    Magnitude::Very => set.very_version.upsert_song(song_name, hash, entry),
                }
                self.underrated_playlist.insert(bracket, set);
            },
        }
        proof {
            let expected = spec_upsert(old(self)@, id, song_name@, hash@, entry@);
            assert(self@.overrated_playlist =~= expected.overrated_playlist);
            assert(self@.underrated_playlist =~= expected.underrated_playlist);
            assert(self@ =~= expected);
        }
    }

    /// The bracket index serving a rating: its pair of playlist sets, by the
    /// rating's integer floor; a rating without a bracket is refused.
    pub fn search_playlist_set(&self, stars_milli: i64) -> (r: Result<usize, RowError>)
        ensures
            r matches Ok(i) ==> i as int == spec_bracket(stars_milli as int),
            r is Ok <==> valid_stars(stars_milli as int),
            r matches Err(e) ==> e == RowError::OutOfRangeRating,
    {
        if 0 <= stars_milli && stars_milli < MAX_STARS_MILLI {
            Ok((stars_milli / MILLIS_PER_STAR) as usize)
        } else {
            Err(RowError::OutOfRangeRating)
        }
    }
}

/// Decimal digits of a rating bracket, 0 through 14.
pub open spec fn spec_bracket_digits(i: int) -> Seq<char> {
    if i == 0 {
        "0"@
    } else if i == 1 {
        "1"@
    } else if i == 2 {
        "2"@
    } else if i == 3 {
        "3"@
    } else if i == 4 {
        "4"@
    } else if i == 5 {
        "5"@
    } else if i == 6 {
        "6"@
    } else if i == 7 {
        "7"@
    } else if i == 8 {
        "8"@
    } else if i == 9 {
        "9"@
    } else if i == 10 {
        "10"@
    } else if i == 11 {
        "11"@
    } else if i == 12 {
        "12"@
    } else if i == 13 {
        "13"@
    } else {
        "14"@
    }
}

/// Decimal digits of a rating bracket.
fn bracket_digits(i: usize) -> (s: &'static str)
    requires
        i < 15,
    ensures
        s@ == spec_bracket_digits(i as int),
{
    match i {
        0 => "0",
        1 => "1",
        2 => "2",
        3 => "3",
        4 => "4",
        5 => "5",
        6 => "6",
        7 => "7",
        8 => "8",
        9 => "9",
        10 => "10",
        11 => "11",
        12 => "12",
        13 => "13",
        _ => "14",
    }
}

/// Base title of one bracket's sets on one side, e.g. the overrated side's
/// bracket 3 base reads "Overrated Playlist 3" with a star sign appended.
pub open spec fn spec_base_title(direction: Direction, i: int) -> Seq<char> {
    (match direction {
        Direction::Overrated => "Overrated Playlist "@,
        Direction::Underrated => "Underrated Playlist "@,
    }) + spec_bracket_digits(i) + "\u{2605}"@
}

/// A freshly built set: three empty buckets of one direction, titled "A
/// Little", "Fairly" and "Very" before the base title.
pub open spec fn spec_new_set(base_title: Seq<char>, direction: Direction) -> PlaylistSetView {
    PlaylistSetView {
        a_little_version: PlaylistView {
            playlistTitle: "A Little "@ + base_title,
            direction,
            songs: Seq::empty(),
        },
        fairly_version: PlaylistView {
            playlistTitle: "Fairly "@ + base_title,
            direction,
            songs: Seq::empty(),
        },
        very_version: PlaylistView {
            playlistTitle: "Very "@ + base_title,
            direction,
            songs: Seq::empty(),
        },
    }
}

impl PlaylistSet {
    /// Build one bracket's three empty buckets from the bracket's base
    /// title.
    pub fn new(playlist_base_title: String, direction: Direction) -> (set: PlaylistSet)
        ensures
            set@ == spec_new_set(playlist_base_title@, direction),
    {
        let a_little_version = Playlist {
            playlistTitle: "A Little ".to_owned().concat(playlist_base_title.as_str()),
            direction,
            songs: Vec::new(),
        };
        let fairly_version = Playlist {
            playlistTitle: "Fairly ".to_owned().concat(playlist_base_title.as_str()),
            direction,
            songs: Vec::new(),
        };
        let very_version = Playlist {
            playlistTitle: "Very ".to_owned().concat(playlist_base_title.as_str()),
            direction,
            songs: Vec::new(),
        };
        let set = PlaylistSet { a_little_version, fairly_version, very_version };
        proof {
            assert(set@ =~~= spec_new_set(playlist_base_title@, direction));
        }
        set
    }
}

/// The 15 bracket sets of one side, every bucket empty and titled by its
/// bracket.
fn make_playlist_array(direction: Direction) -> (sets: Vec<PlaylistSet>)
    ensures
        sets@.len() == BRACKET_COUNT,
        forall|i: int|
            0 <= i < BRACKET_COUNT ==> (#[trigger] sets@[i])@ == spec_new_set(
                spec_base_title(direction, i),
                direction,
            ),
{
    let mut sets: Vec<PlaylistSet> = Vec::new();
    let mut i: usize = 0;
    while i < 15
        invariant
            0 <= i <= 15,
            sets@.len() == i,
            forall|k: int|
                0 <= k < i ==> (#[trigger] sets@[k])@ == spec_new_set(
                    spec_base_title(direction, k),
                    direction,
                ),
        decreases 15 - i,
    {
        let prefix: &'static str = match direction {
            Direction::Overrated => "Overrated Playlist ",
            Direction::Underrated => "Underrated Playlist ",
        };
        let base = prefix.to_owned().concat(bracket_digits(i)).concat("\u{2605}");
        proof {
            assert(base@ == spec_base_title(direction, i as int));
        }
        let set = PlaylistSet::new(base, direction);
        sets.push(set);
        i = i + 1;
    }
    sets
}

/// The aggregate a pass starts from: all 90 buckets present and empty.
pub open spec fn spec_new_playlists() -> PlaylistsView {
    PlaylistsView {
        overrated_playlist: Seq::new(
            BRACKET_COUNT as nat,
            |i: int| spec_new_set(spec_base_title(Direction::Overrated, i), Direction::Overrated),
        ),
        underrated_playlist: Seq::new(
            BRACKET_COUNT as nat,
            |i: int|
                spec_new_set(spec_base_title(Direction::Underrated, i), Direction::Underrated),
        ),
    }
}

impl Playlists {
    /// Build the full aggregate: 15 bracket sets of empty buckets on either
    /// side, each titled by its direction and bracket.
    pub fn new() -> (playlists: Playlists)
        ensures
            playlists@ == spec_new_playlists(),
            playlists_wf(playlists@),
    {
        let overrated_playlist = make_playlist_array(Direction::Overrated);
        let underrated_playlist = make_playlist_array(Direction::Underrated);
        let playlists = Playlists { overrated_playlist, underrated_playlist };
        proof {
            assert(playlists@.overrated_playlist =~= spec_new_playlists().overrated_playlist);
            assert(playlists@.underrated_playlist =~= spec_new_playlists().underrated_playlist);
            assert(playlists@ =~= spec_new_playlists());
            assert forall|i: int| 0 <= i < BRACKET_COUNT implies set_wf(
                #[trigger] playlists@.overrated_playlist[i],
                Direction::Overrated,
            ) by {}
            assert forall|i: int| 0 <= i < BRACKET_COUNT implies set_wf(
                #[trigger] playlists@.underrated_playlist[i],
                Direction::Underrated,
            ) by {}
        }
        playlists
    }
}

/// Appending a matching song entry to a list without one puts it at the
/// end, where the search finds it.
proof fn lemma_find_song_push(
    songs: Seq<SongsView>,
    name: Seq<char>,
    hash: Seq<char>,
    x: SongsView,
)
    requires
        spec_find_song(songs, name, hash) is None,
        song_matches(x, name, hash),
    ensures
        spec_find_song(songs.push(x), name, hash) == Some(songs.len() as int),
    decreases songs.len(),
{
    if songs.len() == 0 {
        assert(songs.push(x)[0] == x);
    } else {
        assert(songs.push(x)[0] == songs[0]);
        lemma_find_song_push(songs.drop_first(), name, hash, x);
        assert(songs.push(x).drop_first() =~= songs.drop_first().push(x));
    }
}

/// Replacing the bucket a valid identifier names puts exactly that bucket
/// there.
proof fn lemma_replace_target(p: PlaylistsView, id: BucketId, playlist: PlaylistView)
    requires
        valid_bucket(id),
        playlists_wf(p),
    ensures
        spec_target_playlist(spec_replace_playlist(p, id, playlist), id) == playlist,
{
}

/// Merging: two readings upserted in turn under one song identity into one
/// bucket that does not hold the song yet land in a single new song entry
/// holding both readings in order — the bucket grows by one entry, not
/// two.
pub proof fn lemma_upsert_merges(
    p: PlaylistsView,
    id: BucketId,
    name: Seq<char>,
    hash: Seq<char>,
    e1: DifficultiesView,
    e2: DifficultiesView,
)
    requires
        valid_bucket(id),
        playlists_wf(p),
        spec_find_song(spec_target_playlist(p, id).songs, name, hash) is None,
    ensures
        ({
            let once = spec_upsert(p, id, name, hash, e1);
            let twice = spec_upsert(once, id, name, hash, e2);
            &&& spec_target_playlist(twice, id).songs == spec_target_playlist(p, id).songs.push(
                (SongsView { songName: name, difficulties: seq![e1, e2], hash }),
            )
            &&& spec_target_playlist(twice, id).songs.len() == spec_target_playlist(
                p,
                id,
            ).songs.len() + 1
        }),
{
    let songs0 = spec_target_playlist(p, id).songs;
    let once = spec_upsert(p, id, name, hash, e1);
    let s1 = SongsView { songName: name, difficulties: seq![e1], hash };
    lemma_replace_target(
        p,
        id,
        PlaylistView { songs: songs0.push(s1), ..spec_target_playlist(p, id) },
    );
    assert(spec_target_playlist(once, id).songs == songs0.push(s1));
    lemma_find_song_push(songs0, name, hash, s1);
    assert(playlists_wf(once)) by {
        assert forall|i: int| 0 <= i < BRACKET_COUNT implies set_wf(
            #[trigger] once.overrated_playlist[i],
            Direction::Overrated,
        ) by {
            assert(set_wf(p.overrated_playlist[i], Direction::Overrated));
        }
        assert forall|i: int| 0 <= i < BRACKET_COUNT implies set_wf(
            #[trigger] once.underrated_playlist[i],
            Direction::Underrated,
        ) by {
            assert(set_wf(p.underrated_playlist[i], Direction::Underrated));
        }
    }
    let twice = spec_upsert(once, id, name, hash, e2);
    let merged = SongsView { songName: name, difficulties: seq![e1].push(e2), hash };
    lemma_replace_target(
        once,
        id,
        PlaylistView {
            songs: songs0.push(s1).update(songs0.len() as int, merged),
            ..spec_target_playlist(once, id)
        },
    );
    assert(spec_target_playlist(twice, id).songs == songs0.push(s1).update(
        songs0.len() as int,
        merged,
    ));
    assert(seq![e1].push(e2) =~= seq![e1, e2]);
    assert(songs0.push(s1).update(songs0.len() as int, merged) =~= songs0.push(
        (SongsView { songName: name, difficulties: seq![e1, e2], hash }),
    ));
}

/// The bucket standing at position `k` of the canonical scan: the
/// overrated side first, brackets in order, the three magnitudes within a
/// bracket.
pub open spec fn spec_bucket_at(k: int) -> BucketId {
    let r = if k < 45 {
        k
    } else {
        k - 45
    };
    BucketId {
        bracket: (r / 3) as u8,
        direction: if k < 45 {
            Direction::Overrated
        } else {
            Direction::Underrated
        },
        magnitude: if r % 3 == 0 {
            Magnitude::ALittle
        } else if r % 3 == 1 {
            Magnitude::Fairly
        } else {
            Magnitude::Very
        },
    }
}

/// The bucket standing at position `k` of the canonical scan.
fn bucket_id_at(k: usize) -> (id: BucketId)
    requires
        k < 90,
    ensures
        id == spec_bucket_at(k as int),
        valid_bucket(id),
{
    let r = if k < 45 {
        k
    } else {
        k - 45
    };
    let bracket = (r / 3) as u8;
    let direction = if k < 45 {
        Direction::Overrated
    } else {
        Direction::Underrated
    };
    let magnitude = if r % 3 == 0 {
        Magnitude::ALittle
    } else if r % 3 == 1 {
        Magnitude::Fairly
    } else {
        Magnitude::Very
    };
    BucketId { bracket, direction, magnitude }
}

/// The first bucket from scan position `k` on whose song list holds the
/// identity, if any does.
pub open spec fn spec_locate_from(
    p: PlaylistsView,
    name: Seq<char>,
    hash: Seq<char>,
    k: int,
) -> Option<BucketId>
    decreases 90 - k,
{
    if !(0 <= k < 90) {
        None
    } else if spec_find_song(spec_target_playlist(p, spec_bucket_at(k)).songs, name, hash)
        is Some {
        Some(spec_bucket_at(k))
    } else {
        spec_locate_from(p, name, hash, k + 1)
    }
}

/// The bucket already holding the song of this identity, if any bucket
/// does. A song is never split across buckets, so at most one bucket can.
pub open spec fn spec_locate_song(p: PlaylistsView, name: Seq<char>, hash: Seq<char>) -> Option<
    BucketId,
> {
    spec_locate_from(p, name, hash, 0)
}

impl Playlists {
    /// The bucket a valid identifier names.
    pub fn playlist_at(&self, id: BucketId) -> (r: &Playlist)
        requires
            valid_bucket(id),
            playlists_wf(self@),
        ensures
            r@ == spec_target_playlist(self@, id),
    {
        let bracket = id.bracket as usize;
        let set = match id.direction {
            Direction::Overrated => &self.overrated_playlist[bracket],
            Direction::Underrated => &self.underrated_playlist[bracket],
        };
        proof {
            assert(self@.overrated_playlist.len() == BRACKET_COUNT);
            match id.direction {
                Direction::Overrated => {
                    assert(set@ == self@.overrated_playlist[bracket as int]);
                },
                Direction::Underrated => {
                    assert(set@ == self@.underrated_playlist[bracket as int]);
                },
            }
        }
        match id.magnitude {
            Magnitude::ALittle => &set.a_little_version,
            Magnitude::Fairly => &set.fairly_version,
            Magnitude::Very => &set.very_version,
        }
    }

    /// The bucket already holding the song of this identity, if any of the
    /// 90 does.
    pub fn locate_song(&self, song_name: &String, hash: &String) -> (r: Option<BucketId>)
        requires
            playlists_wf(self@),
        ensures
            r == spec_locate_song(self@, song_name@, hash@),
            r matches Some(id) ==> valid_bucket(id) && spec_find_song(
                spec_target_playlist(self@, id).songs,
                song_name@,
                hash@,
            ) is Some,
    {
        let mut k: usize = 0;
        while k < 90
            invariant
                0 <= k <= 90,
                playlists_wf(self@),
                spec_locate_song(self@, song_name@, hash@) == spec_locate_from(
                    self@,
                    song_name@,
                    hash@,
                    k as int,
                ),
            decreases 90 - k,
        {
            let id = bucket_id_at(k);
            let playlist = self.playlist_at(id);
            if playlist.search_songs(song_name, hash).is_some() {
                proof {
                    assert(spec_locate_from(self@, song_name@, hash@, k as int) == Some(id));
                }
                return Some(id);
            }
            proof {
                assert(spec_locate_from(self@, song_name@, hash@, k as int) == spec_locate_from(
                    self@,
                    song_name@,
                    hash@,
                    k as int + 1,
                ));
            }
            k = k + 1;
        }
        None
    }
}

/// The store after one reading is added under the first-wins rule: the
/// reading joins the song's entry in whichever bucket already holds the
/// song — the bucket its first classified reading chose — and only a song
/// the store does not hold yet is classified by this reading's rating and
/// deviation to create its entry.
pub open spec fn spec_add_difficulties(
    p: PlaylistsView,
    row: MapDataView,
    entry: DifficultiesView,
) -> PlaylistsView {
    let id = match spec_locate_song(p, row.name, row.hash) {
        Some(id) => id,
        None => spec_classify(row.stars_milli, entry.diff_milli)->Some_0,
    };
    spec_upsert(p, id, row.name, row.hash, entry)
}

/// Add one reading under the record's song identity, first-wins: wherever
/// the store already holds the song, the reading joins that entry, whatever
/// bucket this reading's own deviation would name; a song seen for the
/// first time is classified by the record's rating and the reading's
/// deviation. The record's rating must have a bracket; rows without one
/// are skipped before this point.
pub fn add_difficulties_to_playlists(
    playlists: &mut Playlists,
    record: &MapData,
    difficulties: Difficulties,
)
    requires
        playlists_wf(old(playlists)@),
        valid_stars(record.stars_milli as int),
    ensures
        final(playlists)@ == spec_add_difficulties(old(playlists)@, record@, difficulties@),
        playlists_wf(final(playlists)@),
{
    proof {
        lemma_classify_total(record@.stars_milli, difficulties@.diff_milli);
    }
    let id = match playlists.locate_song(&record.name, &record.hash) {
        Some(id) => id,
        None => {
            match classify(record.stars_milli, difficulties.diff_milli) {
                Ok(id) => id,
                Err(_) => unreached(),
            }
        },
    };
    playlists.upsert(id, &record.name, &record.hash, difficulties);
}

} // verus!
