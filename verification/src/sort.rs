//! The sorter: orders every bucket most-extreme-first in the bucket's own
//! direction — descending by deviation for overrated buckets, ascending for
//! underrated — first within each song's readings, then across songs by
//! their leading reading. Sorting twice changes nothing.

use vstd::prelude::*;
use vstd::multiset::Multiset;
use crate::taxonomy::Direction;
use crate::playlist::{
    playlist_wf, playlists_wf, set_wf, song_wf, Difficulties, DifficultiesView, Playlist,
    PlaylistSet, PlaylistSetView, PlaylistView, Playlists, PlaylistsView, Songs, SongsView,
};

verus! {

/// Order of two deviations in a bucket's direction: an overrated bucket
/// puts the larger deviation first, an underrated bucket the smaller.
pub open spec fn diffs_in_order(direction: Direction, a: int, b: int) -> bool {
    match direction {
        Direction::Overrated => a >= b,
        Direction::Underrated => a <= b,
    }
}

/// The readings as the order predicates see them.
pub open spec fn readings_view(v: Seq<Difficulties>) -> Seq<DifficultiesView> {
    v.map_values(|d: Difficulties| d@)
}

/// The song entries as the order predicates see them.
pub open spec fn songs_view(v: Seq<Songs>) -> Seq<SongsView> {
    v.map_values(|s: Songs| s@)
}

/// A reading list ordered by deviation in the given direction.
pub open spec fn sorted_readings(direction: Direction, ds: Seq<DifficultiesView>) -> bool {
    forall|i: int, j: int|
        0 <= i < j < ds.len() ==> diffs_in_order(
            direction,
            (#[trigger] ds[i]).diff_milli,
            (#[trigger] ds[j]).diff_milli,
        )
}

/// A song's place in its bucket: the deviation of its leading reading.
pub open spec fn song_key(s: SongsView) -> int {
    s.difficulties[0].diff_milli
}

/// A song list ordered by each song's leading deviation in the given
/// direction.
pub open spec fn sorted_songs(direction: Direction, songs: Seq<SongsView>) -> bool {
    forall|i: int, j: int|
        0 <= i < j < songs.len() ==> diffs_in_order(
            direction,
            song_key(#[trigger] songs[i]),
            song_key(#[trigger] songs[j]),
        )
}

/// A bucket in its final shape: songs ordered by leading deviation, and
/// every song's readings ordered, all in the bucket's direction.
pub open spec fn playlist_fully_sorted(p: PlaylistView) -> bool {
    &&& sorted_songs(p.direction, p.songs)
    &&& forall|i: int|
        0 <= i < p.songs.len() ==> sorted_readings(
            p.direction,
            (#[trigger] p.songs[i]).difficulties,
        )
}

/// What sorting may not touch of a song entry: its identity and the
/// collection of its readings, order set aside.
#[verifier::ext_equal]
pub struct SongContent {
    pub songName: Seq<char>,
    pub hash: Seq<char>,
    pub readings: Multiset<DifficultiesView>,
}

/// The order-free image of a song entry.
pub open spec fn song_content(s: SongsView) -> SongContent {
    SongContent { songName: s.songName, hash: s.hash, readings: s.difficulties.to_multiset() }
}

/// The order-free image of a bucket's song list: which songs it holds, with
/// which readings, in any order.
pub open spec fn songs_content(songs: Seq<SongsView>) -> Multiset<SongContent> {
    songs.map_values(|s: SongsView| song_content(s)).to_multiset()
}

/// Where one reading lands in an ordered list: after every reading already
/// in order before it, so readings of equal deviation keep their
/// first-seen order.
pub open spec fn spec_insert_reading(
    direction: Direction,
    sorted: Seq<DifficultiesView>,
    x: DifficultiesView,
) -> Seq<DifficultiesView>
    decreases sorted.len(),
{
    if sorted.len() == 0 {
        seq![x]
    } else if diffs_in_order(direction, sorted[0].diff_milli, x.diff_milli) {
        seq![sorted[0]] + spec_insert_reading(direction, sorted.drop_first(), x)
    } else {
        seq![x] + sorted
    }
}

/// The one order the sorter gives a reading list: insertion in first-seen
/// order, each reading after all readings in order before it. Ties keep
/// their first-seen order, so the result is a function of the input and
/// repeated passes are reproducible.
pub open spec fn spec_sort_readings(
    direction: Direction,
    ds: Seq<DifficultiesView>,
) -> Seq<DifficultiesView>
    decreases ds.len(),
{
    if ds.len() == 0 {
        Seq::empty()
    } else {
        spec_insert_reading(direction, spec_sort_readings(direction, ds.drop_last()), ds.last())
    }
}

/// Inserting into a list whose first `p` readings are in order before `x`,
/// with the one at `p` (if any) not, splits the list exactly there.
proof fn lemma_insert_reading_at(
    direction: Direction,
    s: Seq<DifficultiesView>,
    x: DifficultiesView,
    p: int,
)
    requires
        0 <= p <= s.len(),
        forall|a: int|
            0 <= a < p ==> diffs_in_order(direction, (#[trigger] s[a]).diff_milli, x.diff_milli),
        p < s.len() ==> !diffs_in_order(direction, s[p].diff_milli, x.diff_milli),
    ensures
        spec_insert_reading(direction, s, x) == s.take(p) + seq![x] + s.skip(p),
    decreases s.len(),
{
    if s.len() == 0 {
        assert(spec_insert_reading(direction, s, x) =~= s.take(p) + seq![x] + s.skip(p));
    } else if p == 0 {
        assert(s.take(0) =~= Seq::<DifficultiesView>::empty());
        assert(s.skip(0) =~= s);
        assert(spec_insert_reading(direction, s, x) =~= s.take(0) + seq![x] + s.skip(0));
    } else {
        let rest = s.drop_first();
        assert(forall|a: int| 0 <= a < rest.len() ==> #[trigger] rest[a] == s[a + 1]);
        lemma_insert_reading_at(direction, rest, x, p - 1);
        assert(spec_insert_reading(direction, s, x) == seq![s[0]] + (rest.take(p - 1) + seq![x]
            + rest.skip(p - 1)));
        assert(seq![s[0]] + (rest.take(p - 1) + seq![x] + rest.skip(p - 1)) =~= s.take(p)
            + seq![x] + s.skip(p));
    }
}

/// Exec comparison deciding [`diffs_in_order`].
fn in_order(direction: Direction, a: i64, b: i64) -> (r: bool)
    ensures
        r == diffs_in_order(direction, a as int, b as int),
{
    match direction {
        Direction::Overrated => a >= b,
        Direction::Underrated => a <= b,
    }
}

/// Insertion sort of one song's readings by deviation, in the bucket's
/// direction: exactly [`spec_sort_readings`], so ties keep their
/// first-seen order. Keeps the collection of readings; an already ordered
/// list comes back unchanged.
#[verifier::rlimit(80)]
fn sort_difficulties(direction: Direction, v: &mut Vec<Difficulties>)
    ensures
        final(v)@.len() == old(v)@.len(),
        readings_view(final(v)@) == spec_sort_readings(direction, readings_view(old(v)@)),
        readings_view(final(v)@).to_multiset() == readings_view(old(v)@).to_multiset(),
        sorted_readings(direction, readings_view(final(v)@)),
        sorted_readings(direction, readings_view(old(v)@)) ==> final(v)@ == old(v)@,
{
    broadcast use vstd::seq_lib::group_to_multiset_ensures;
    broadcast use vstd::multiset::group_multiset_axioms;

    let ghost orig = v@;
    if v.len() <= 1 {
        proof {
            let rv = readings_view(v@);
            if v@.len() == 0 {
                assert(rv =~= Seq::<DifficultiesView>::empty());
                assert(rv == spec_sort_readings(direction, rv));
            } else {
                assert(rv.drop_last() =~= Seq::<DifficultiesView>::empty());
                assert(spec_sort_readings(direction, rv.drop_last())
                    == Seq::<DifficultiesView>::empty());
                assert(spec_insert_reading(direction, Seq::<DifficultiesView>::empty(), rv.last())
                    == seq![rv.last()]);
                assert(rv =~= seq![rv.last()]);
                assert(rv == spec_sort_readings(direction, rv));
            }
        }
        return ;
    }
    proof {
        let rv = readings_view(v@);
        assert(rv.take(1).drop_last() =~= Seq::<DifficultiesView>::empty());
        assert(spec_sort_readings(direction, rv.take(1).drop_last())
            == Seq::<DifficultiesView>::empty());
        assert(rv.take(1).last() == rv[0]);
        assert(spec_insert_reading(direction, Seq::<DifficultiesView>::empty(), rv[0])
            == seq![rv[0]]);
        assert(rv.take(1) =~= seq![rv[0]]);
        assert(rv.take(1) == spec_sort_readings(direction, rv.take(1)));
    }
    let mut i: usize = 1;
    while i < v.len()
        invariant
            1 <= i <= v@.len(),
            v@.len() == orig.len(),
            forall|a: int| i <= a < v@.len() ==> #[trigger] v@[a] == orig[a],
            readings_view(v@).take(i as int) == spec_sort_readings(
                direction,
                readings_view(orig).take(i as int),
            ),
            readings_view(v@).to_multiset() == readings_view(orig).to_multiset(),
            sorted_readings(direction, readings_view(v@).take(i as int)),
            sorted_readings(direction, readings_view(orig)) ==> v@ == orig,
        decreases v@.len() - i,
    {
        let ghost before = v@;
        let key_diff = v[i].diff_milli;
        proof {
            assert(readings_view(before)[i as int] == before[i as int]@);
        }
        let mut p: usize = 0;
        while p < i && in_order(direction, v[p].diff_milli, key_diff)
            invariant
                0 <= p <= i < v@.len(),
                v@ == before,
                key_diff == before[i as int].diff_milli,
                forall|a: int|
                    0 <= a < p ==> diffs_in_order(
                        direction,
                        (#[trigger] readings_view(before)[a]).diff_milli,
                        key_diff as int,
                    ),
            decreases i - p,
        {
            proof {
                assert(readings_view(before)[p as int] == before[p as int]@);
            }
            p = p + 1;
        }
        if p < i {
            proof {
                // The list was not already in order here: the element at p
                // must come after the key.
                if sorted_readings(direction, readings_view(orig)) {
                    assert(v@ == orig);
                    assert(diffs_in_order(
                        direction,
                        readings_view(orig)[p as int].diff_milli,
                        readings_view(orig)[i as int].diff_milli,
                    ));
                    assert(false);
                }
            }
            let x = v.remove(i);
            v.insert(p, x);
            proof {
                let rv_before = readings_view(before);
                let rv_now = readings_view(v@);
                let x = rv_before[i as int];
                assert(v@ =~= before.remove(i as int).insert(p as int, before[i as int]));
                assert(rv_now =~= rv_before.remove(i as int).insert(p as int, x));
                assert(rv_before.contains(x));
                vstd::seq_lib::to_multiset_remove(rv_before, i as int);
                vstd::seq_lib::to_multiset_insert(rv_before.remove(i as int), p as int, x);
                rv_before.to_multiset_ensures();
                assert(rv_before.to_multiset().count(x) > 0);
                assert(rv_now.to_multiset() =~= rv_before.to_multiset().remove(x).insert(x));
                assert(rv_now.to_multiset() =~= rv_before.to_multiset());
                assert(!diffs_in_order(direction, rv_before[p as int].diff_milli, key_diff as int));
                assert(sorted_readings(direction, rv_before.take(i as int)));
                assert forall|a: int, b: int| 0 <= a < b < i + 1 implies diffs_in_order(
                    direction,
                    (#[trigger] rv_now.take(i as int + 1)[a]).diff_milli,
                    (#[trigger] rv_now.take(i as int + 1)[b]).diff_milli,
                ) by {
                    assert(rv_now.take(i as int + 1)[a] == rv_now[a]);
                    assert(rv_now.take(i as int + 1)[b] == rv_now[b]);
                    let a0: int = if a < p {
                        a
                    } else if a == p {
                        i as int
                    } else {
                        a - 1
                    };
                    let b0: int = if b < p {
                        b
                    } else if b == p {
                        i as int
                    } else {
                        b - 1
                    };
                    assert(rv_now[a] == rv_before[a0]);
                    assert(rv_now[b] == rv_before[b0]);
                    if a0 < b0 && b0 < i {
                        assert(rv_before.take(i as int)[a0] == rv_before[a0]);
                        assert(rv_before.take(i as int)[b0] == rv_before[b0]);
                        assert(diffs_in_order(
                            direction,
                            rv_before[a0].diff_milli,
                            rv_before[b0].diff_milli,
                        ));
                    } else if b0 == i as int {
                        // b == p, so a < p: the scan passed a while looking
                        // for the key's place.
                        assert(diffs_in_order(direction, rv_before[a].diff_milli, key_diff as int));
                    } else {
                        // a == p: the key comes before everything the scan
                        // stopped at.
                        assert(a0 == i as int && p <= b0 < i);
                        if b0 > p {
                            assert(rv_before.take(i as int)[p as int] == rv_before[p as int]);
                            assert(rv_before.take(i as int)[b0] == rv_before[b0]);
                            assert(diffs_in_order(
                                direction,
                                rv_before[p as int].diff_milli,
                                rv_before[b0].diff_milli,
                            ));
                        }
                        assert(diffs_in_order(direction, key_diff as int, rv_before[b0].diff_milli));
                    }
                }
                // The new prefix is exactly the spec insertion at p.
                let orig_rv = readings_view(orig);
                assert(before[i as int] == orig[i as int]);
                assert(x == orig_rv[i as int]);
                let sp = rv_before.take(i as int);
                assert(sp == spec_sort_readings(direction, orig_rv.take(i as int)));
                assert(forall|c: int| 0 <= c < i ==> (#[trigger] sp[c]) == rv_before[c]);
                assert forall|c: int| 0 <= c < p implies diffs_in_order(
                    direction,
                    (#[trigger] sp[c]).diff_milli,
                    x.diff_milli,
                ) by {
                    assert(sp[c] == rv_before[c]);
                }
                assert(sp[p as int] == rv_before[p as int]);
                lemma_insert_reading_at(direction, sp, x, p as int);
                assert(sp.take(p as int) =~= rv_before.take(p as int));
                assert(sp.skip(p as int) =~= rv_before.subrange(p as int, i as int));
                assert(rv_now.take(i as int + 1) =~= rv_before.take(p as int) + seq![x]
                    + rv_before.subrange(p as int, i as int));
                assert(orig_rv.take(i as int + 1).drop_last() =~= orig_rv.take(i as int));
                assert(orig_rv.take(i as int + 1).last() == orig_rv[i as int]);
                assert(spec_sort_readings(direction, orig_rv.take(i as int + 1))
                    == spec_insert_reading(direction, sp, x));
                assert(rv_now.take(i as int + 1) == spec_sort_readings(
                    direction,
                    orig_rv.take(i as int + 1),
                ));
                // Beyond the key nothing moved.
                assert forall|c: int| i + 1 <= c < v@.len() implies #[trigger] v@[c]
                    == orig[c] by {
                    assert(v@[c] == before[c]);
                }
            }
        } else {
            proof {
                let rv = readings_view(v@);
                assert(forall|c: int| 0 <= c <= i ==> (#[trigger] rv.take(i as int + 1)[c]) == rv[c]);
                assert(forall|c: int| 0 <= c < i ==> (#[trigger] rv.take(i as int)[c]) == rv[c]);
                assert(rv.take(i as int + 1)[i as int] == rv[i as int]);
                assert(rv[i as int].diff_milli == key_diff as int);
                // The key stays at the end: the spec insertion lands there
                // too, after a prefix wholly in order before it.
                let orig_rv = readings_view(orig);
                let sp = rv.take(i as int);
                let x = rv[i as int];
                assert(v@ == before);
                assert(before[i as int] == orig[i as int]);
                assert(x == orig_rv[i as int]);
                assert(sp == spec_sort_readings(direction, orig_rv.take(i as int)));
                assert forall|c: int| 0 <= c < i implies diffs_in_order(
                    direction,
                    (#[trigger] sp[c]).diff_milli,
                    x.diff_milli,
                ) by {
                    assert(sp[c] == rv[c]);
                    assert(readings_view(before)[c] == rv[c]);
                }
                lemma_insert_reading_at(direction, sp, x, i as int);
                assert(sp.take(i as int) =~= sp);
                assert(sp.skip(i as int) =~= Seq::<DifficultiesView>::empty());
                assert(rv.take(i as int + 1) =~= sp + seq![x]
                    + Seq::<DifficultiesView>::empty());
                assert(orig_rv.take(i as int + 1).drop_last() =~= orig_rv.take(i as int));
                assert(orig_rv.take(i as int + 1).last() == orig_rv[i as int]);
                assert(spec_sort_readings(direction, orig_rv.take(i as int + 1))
                    == spec_insert_reading(direction, sp, x));
                assert(rv.take(i as int + 1) == spec_sort_readings(
                    direction,
                    orig_rv.take(i as int + 1),
                ));
            }
        }
        i = i + 1;
    }
    proof {
        assert(readings_view(v@).take(v@.len() as int) =~= readings_view(v@));
        assert(readings_view(orig).take(orig.len() as int) =~= readings_view(orig));
        assert(readings_view(v@) == spec_sort_readings(direction, readings_view(orig)));
    }
}

/// Where one song entry lands in an ordered list: after every entry
/// already in order before it, so entries of equal leading deviation keep
/// their first-seen order.
pub open spec fn spec_insert_song(
    direction: Direction,
    sorted: Seq<SongsView>,
    x: SongsView,
) -> Seq<SongsView>
    decreases sorted.len(),
{
    if sorted.len() == 0 {
        seq![x]
    } else if diffs_in_order(direction, song_key(sorted[0]), song_key(x)) {
        seq![sorted[0]] + spec_insert_song(direction, sorted.drop_first(), x)
    } else {
        seq![x] + sorted
    }
}

/// The one order the sorter gives a bucket's song list: insertion in
/// first-seen order, each entry after all entries in order before it. Ties
/// keep their first-seen order, so the result is a function of the input
/// and repeated passes are reproducible.
pub open spec fn spec_sort_songs(direction: Direction, songs: Seq<SongsView>) -> Seq<SongsView>
    decreases songs.len(),
{
    if songs.len() == 0 {
        Seq::empty()
    } else {
        spec_insert_song(direction, spec_sort_songs(direction, songs.drop_last()), songs.last())
    }
}

/// Inserting into a list whose first `p` entries are in order before `x`,
/// with the one at `p` (if any) not, splits the list exactly there.
proof fn lemma_insert_song_at(direction: Direction, s: Seq<SongsView>, x: SongsView, p: int)
    requires
        0 <= p <= s.len(),
        forall|a: int|
            0 <= a < p ==> diffs_in_order(direction, song_key(#[trigger] s[a]), song_key(x)),
        p < s.len() ==> !diffs_in_order(direction, song_key(s[p]), song_key(x)),
    ensures
        spec_insert_song(direction, s, x) == s.take(p) + seq![x] + s.skip(p),
    decreases s.len(),
{
    if s.len() == 0 {
        assert(spec_insert_song(direction, s, x) =~= s.take(p) + seq![x] + s.skip(p));
    } else if p == 0 {
        assert(s.take(0) =~= Seq::<SongsView>::empty());
        assert(s.skip(0) =~= s);
        assert(spec_insert_song(direction, s, x) =~= s.take(0) + seq![x] + s.skip(0));
    } else {
        let rest = s.drop_first();
        assert(forall|a: int| 0 <= a < rest.len() ==> #[trigger] rest[a] == s[a + 1]);
        lemma_insert_song_at(direction, rest, x, p - 1);
        assert(spec_insert_song(direction, s, x) == seq![s[0]] + (rest.take(p - 1) + seq![x]
            + rest.skip(p - 1)));
        assert(seq![s[0]] + (rest.take(p - 1) + seq![x] + rest.skip(p - 1)) =~= s.take(p)
            + seq![x] + s.skip(p));
    }
}

/// Insertion sort of a bucket's song entries by their leading deviation, in
/// the bucket's direction: exactly [`spec_sort_songs`], so ties keep their
/// first-seen order. Moves entries whole: the collection of entries —
/// and so of songs with their readings — is kept; an already ordered list
/// comes back unchanged.
#[verifier::rlimit(100)]
fn sort_songs(direction: Direction, v: &mut Vec<Songs>)
    requires
        forall|i: int|
            0 <= i < old(v)@.len() ==> song_wf(#[trigger] songs_view(old(v)@)[i]),
    ensures
        final(v)@.len() == old(v)@.len(),
        songs_view(final(v)@) == spec_sort_songs(direction, songs_view(old(v)@)),
        songs_view(final(v)@).to_multiset() == songs_view(old(v)@).to_multiset(),
        songs_content(songs_view(final(v)@)) == songs_content(songs_view(old(v)@)),
        sorted_songs(direction, songs_view(final(v)@)),
        forall|i: int| 0 <= i < final(v)@.len() ==> song_wf(#[trigger] songs_view(final(v)@)[i]),
        sorted_songs(direction, songs_view(old(v)@)) ==> final(v)@ == old(v)@,
{
    broadcast use vstd::seq_lib::group_to_multiset_ensures;
    broadcast use vstd::multiset::group_multiset_axioms;

    let ghost orig = v@;
    proof {
        assert forall|a: int| 0 <= a < v@.len() implies (#[trigger] v@[a]).difficulties@.len()
            >= 1 by {
            assert(song_wf(songs_view(v@)[a]));
            assert(songs_view(v@)[a] == v@[a]@);
        }
    }
    if v.len() <= 1 {
        proof {
            assert forall|a: int| 0 <= a < v@.len() implies song_wf(
                #[trigger] songs_view(v@)[a],
            ) by {
                assert(songs_view(v@)[a] == v@[a]@);
            }
            let sv = songs_view(v@);
            if v@.len() == 0 {
                assert(sv =~= Seq::<SongsView>::empty());
                assert(sv == spec_sort_songs(direction, sv));
            } else {
                assert(sv.drop_last() =~= Seq::<SongsView>::empty());
                assert(spec_sort_songs(direction, sv.drop_last()) == Seq::<SongsView>::empty());
                assert(spec_insert_song(direction, Seq::<SongsView>::empty(), sv.last())
                    == seq![sv.last()]);
                assert(sv =~= seq![sv.last()]);
                assert(sv == spec_sort_songs(direction, sv));
            }
        }
        return ;
    }
    proof {
        let sv = songs_view(v@);
        assert(sv.take(1).drop_last() =~= Seq::<SongsView>::empty());
        assert(spec_sort_songs(direction, sv.take(1).drop_last()) == Seq::<SongsView>::empty());
        assert(sv.take(1).last() == sv[0]);
        assert(spec_insert_song(direction, Seq::<SongsView>::empty(), sv[0]) == seq![sv[0]]);
        assert(sv.take(1) =~= seq![sv[0]]);
        assert(sv.take(1) == spec_sort_songs(direction, sv.take(1)));
    }
    let mut i: usize = 1;
    while i < v.len()
        invariant
            1 <= i <= v@.len(),
            v@.len() == orig.len(),
            forall|a: int| i <= a < v@.len() ==> #[trigger] v@[a] == orig[a],
            songs_view(v@).take(i as int) == spec_sort_songs(
                direction,
                songs_view(orig).take(i as int),
            ),
            songs_view(v@).to_multiset() == songs_view(orig).to_multiset(),
            songs_content(songs_view(v@)) == songs_content(songs_view(orig)),
            forall|a: int| 0 <= a < v@.len() ==> (#[trigger] v@[a]).difficulties@.len() >= 1,
            sorted_songs(direction, songs_view(v@).take(i as int)),
            sorted_songs(direction, songs_view(orig)) ==> v@ == orig,
        decreases v@.len() - i,
    {
        let ghost before = v@;
        proof {
            assert(songs_view(before)[i as int] == before[i as int]@);
            assert(song_wf(songs_view(before)[i as int]));
        }
        let key_song = &v[i];
        let key_diff = key_song.difficulties[0].diff_milli;
        proof {
            assert(songs_view(before)[i as int].difficulties[0] == before[i as int].difficulties@[0]@);
            assert(song_key(songs_view(before)[i as int]) == key_diff as int);
        }
        let mut p: usize = 0;
        while p < i && in_order(direction, v[p].difficulties[0].diff_milli, key_diff)
            invariant
                0 <= p <= i < v@.len(),
                v@ == before,
                forall|a: int| 0 <= a < v@.len() ==> (#[trigger] v@[a]).difficulties@.len() >= 1,
                key_diff as int == song_key(songs_view(before)[i as int]),
                forall|a: int|
                    0 <= a < p ==> diffs_in_order(
                        direction,
                        song_key(#[trigger] songs_view(before)[a]),
                        key_diff as int,
                    ),
            decreases i - p,
        {
            proof {
                assert(songs_view(before)[p as int] == before[p as int]@);
                assert(songs_view(before)[p as int].difficulties[0]
                    == before[p as int].difficulties@[0]@);
            }
            p = p + 1;
        }
        proof {
            assert(songs_view(before)[p as int] == before[p as int]@);
            assert(p < i ==> songs_view(before)[p as int].difficulties[0]
                == before[p as int].difficulties@[0]@);
        }
        if p < i {
            proof {
                if sorted_songs(direction, songs_view(orig)) {
                    assert(v@ == orig);
                    assert(diffs_in_order(
                        direction,
                        song_key(songs_view(orig)[p as int]),
                        song_key(songs_view(orig)[i as int]),
                    ));
                    assert(false);
                }
            }
            let x = v.remove(i);
            v.insert(p, x);
            proof {
                let sv_before = songs_view(before);
                let sv_now = songs_view(v@);
                let x_view = sv_before[i as int];
                assert(v@ =~= before.remove(i as int).insert(p as int, before[i as int]));
                assert(sv_now =~= sv_before.remove(i as int).insert(p as int, x_view));
                assert(sv_before.contains(x_view));
                vstd::seq_lib::to_multiset_remove(sv_before, i as int);
                vstd::seq_lib::to_multiset_insert(sv_before.remove(i as int), p as int, x_view);
                sv_before.to_multiset_ensures();
                assert(sv_before.to_multiset().count(x_view) > 0);
                assert(sv_now.to_multiset() =~= sv_before.to_multiset().remove(x_view).insert(
                    x_view,
                ));
                assert(sv_now.to_multiset() =~= sv_before.to_multiset());
                // The order-free contents move the same way.
                let cv_before = sv_before.map_values(|s: SongsView| song_content(s));
                let cv_now = sv_now.map_values(|s: SongsView| song_content(s));
                assert(cv_now =~= cv_before.remove(i as int).insert(
                    p as int,
                    song_content(x_view),
                ));
                assert(cv_before[i as int] == song_content(x_view));
                assert(cv_before.contains(song_content(x_view)));
                vstd::seq_lib::to_multiset_remove(cv_before, i as int);
                vstd::seq_lib::to_multiset_insert(
                    cv_before.remove(i as int),
                    p as int,
                    song_content(x_view),
                );
                cv_before.to_multiset_ensures();
                assert(cv_now.to_multiset() =~= cv_before.to_multiset());
                assert forall|a: int| 0 <= a < v@.len() implies (#[trigger] v@[a]).difficulties@.len()
                    >= 1 by {
                    if a < p {
                        assert(v@[a] == before[a]);
                    } else if a == p {
                        assert(v@[a] == before[i as int]);
                    } else if a <= i {
                        assert(v@[a] == before[a - 1]);
                    } else {
                        assert(v@[a] == before[a]);
                    }
                }
                assert(!diffs_in_order(direction, song_key(sv_before[p as int]), key_diff as int));
                assert(sorted_songs(direction, sv_before.take(i as int)));
                assert forall|a: int, b: int| 0 <= a < b < i + 1 implies diffs_in_order(
                    direction,
                    song_key(#[trigger] sv_now.take(i as int + 1)[a]),
                    song_key(#[trigger] sv_now.take(i as int + 1)[b]),
                ) by {
                    assert(sv_now.take(i as int + 1)[a] == sv_now[a]);
                    assert(sv_now.take(i as int + 1)[b] == sv_now[b]);
                    let a0: int = if a < p {
                        a
                    } else if a == p {
                        i as int
                    } else {
                        a - 1
                    };
                    let b0: int = if b < p {
                        b
                    } else if b == p {
                        i as int
                    } else {
                        b - 1
                    };
                    assert(sv_now[a] == sv_before[a0]);
                    assert(sv_now[b] == sv_before[b0]);
                    if a0 < b0 && b0 < i {
                        assert(sv_before.take(i as int)[a0] == sv_before[a0]);
                        assert(sv_before.take(i as int)[b0] == sv_before[b0]);
                        assert(diffs_in_order(
                            direction,
                            song_key(sv_before[a0]),
                            song_key(sv_before[b0]),
                        ));
                    } else if b0 == i as int {
                        assert(diffs_in_order(
                            direction,
                            song_key(sv_before[a]),
                            key_diff as int,
                        ));
                    } else {
                        assert(a0 == i as int && p <= b0 < i);
                        if b0 > p {
                            assert(sv_before.take(i as int)[p as int] == sv_before[p as int]);
                            assert(sv_before.take(i as int)[b0] == sv_before[b0]);
                            assert(diffs_in_order(
                                direction,
                                song_key(sv_before[p as int]),
                                song_key(sv_before[b0]),
                            ));
                        }
                        assert(diffs_in_order(
                            direction,
                            key_diff as int,
                            song_key(sv_before[b0]),
                        ));
                    }
                }
                // The new prefix is exactly the spec insertion at p.
                let orig_sv = songs_view(orig);
                assert(before[i as int] == orig[i as int]);
                assert(x_view == orig_sv[i as int]);
                let sp = sv_before.take(i as int);
                assert(sp == spec_sort_songs(direction, orig_sv.take(i as int)));
                assert(forall|c: int| 0 <= c < i ==> (#[trigger] sp[c]) == sv_before[c]);
                assert forall|c: int| 0 <= c < p implies diffs_in_order(
                    direction,
                    song_key(#[trigger] sp[c]),
                    song_key(x_view),
                ) by {
                    assert(sp[c] == sv_before[c]);
                }
                assert(sp[p as int] == sv_before[p as int]);
                lemma_insert_song_at(direction, sp, x_view, p as int);
                assert(sp.take(p as int) =~= sv_before.take(p as int));
                assert(sp.skip(p as int) =~= sv_before.subrange(p as int, i as int));
                assert(sv_now.take(i as int + 1) =~= sv_before.take(p as int) + seq![x_view]
                    + sv_before.subrange(p as int, i as int));
                assert(orig_sv.take(i as int + 1).drop_last() =~= orig_sv.take(i as int));
                assert(orig_sv.take(i as int + 1).last() == orig_sv[i as int]);
                assert(spec_sort_songs(direction, orig_sv.take(i as int + 1))
                    == spec_insert_song(direction, sp, x_view));
                assert(sv_now.take(i as int + 1) == spec_sort_songs(
                    direction,
                    orig_sv.take(i as int + 1),
                ));
                // Beyond the key nothing moved.
                assert forall|c: int| i + 1 <= c < v@.len() implies #[trigger] v@[c]
                    == orig[c] by {
                    assert(v@[c] == before[c]);
                }
            }
        } else {
            proof {
                let sv = songs_view(v@);
                assert(forall|c: int| 0 <= c <= i ==> (#[trigger] sv.take(i as int + 1)[c]) == sv[c]);
                assert(forall|c: int| 0 <= c < i ==> (#[trigger] sv.take(i as int)[c]) == sv[c]);
                assert(sv.take(i as int + 1)[i as int] == sv[i as int]);
                assert(song_key(sv[i as int]) == key_diff as int);
                // The key stays at the end: the spec insertion lands there
                // too, after a prefix wholly in order before it.
                let orig_sv = songs_view(orig);
                let sp = sv.take(i as int);
                let x_view = sv[i as int];
                assert(v@ == before);
                assert(before[i as int] == orig[i as int]);
                assert(x_view == orig_sv[i as int]);
                assert(sp == spec_sort_songs(direction, orig_sv.take(i as int)));
                assert forall|c: int| 0 <= c < i implies diffs_in_order(
                    direction,
                    song_key(#[trigger] sp[c]),
                    song_key(x_view),
                ) by {
                    assert(sp[c] == sv[c]);
                    assert(songs_view(before)[c] == sv[c]);
                }
                lemma_insert_song_at(direction, sp, x_view, i as int);
                assert(sp.take(i as int) =~= sp);
                assert(sp.skip(i as int) =~= Seq::<SongsView>::empty());
                assert(sv.take(i as int + 1) =~= sp + seq![x_view] + Seq::<SongsView>::empty());
                assert(orig_sv.take(i as int + 1).drop_last() =~= orig_sv.take(i as int));
                assert(orig_sv.take(i as int + 1).last() == orig_sv[i as int]);
                assert(spec_sort_songs(direction, orig_sv.take(i as int + 1))
                    == spec_insert_song(direction, sp, x_view));
                assert(sv.take(i as int + 1) == spec_sort_songs(
                    direction,
                    orig_sv.take(i as int + 1),
                ));
            }
        }
        i = i + 1;
    }
    proof {
        assert(songs_view(v@).take(v@.len() as int) =~= songs_view(v@));
        assert(songs_view(orig).take(orig.len() as int) =~= songs_view(orig));
        assert(songs_view(v@) == spec_sort_songs(direction, songs_view(orig)));
        assert forall|a: int| 0 <= a < v@.len() implies song_wf(#[trigger] songs_view(v@)[a]) by {
            assert(songs_view(v@)[a] == v@[a]@);
        }
    }
}

/// One song entry with its readings in the sorter's order.
pub open spec fn spec_sort_song(direction: Direction, s: SongsView) -> SongsView {
    SongsView {
        songName: s.songName,
        difficulties: spec_sort_readings(direction, s.difficulties),
        hash: s.hash,
    }
}

/// Every song entry of a list with its readings in the sorter's order, the
/// list itself untouched.
pub open spec fn spec_sort_each_song(direction: Direction, songs: Seq<SongsView>) -> Seq<
    SongsView,
>
    decreases songs.len(),
{
    if songs.len() == 0 {
        Seq::empty()
    } else {
        spec_sort_each_song(direction, songs.drop_last()).push(
            spec_sort_song(direction, songs.last()),
        )
    }
}

/// [`spec_sort_each_song`] works entry by entry.
proof fn lemma_sort_each_song_index(direction: Direction, songs: Seq<SongsView>)
    ensures
        spec_sort_each_song(direction, songs).len() == songs.len(),
        forall|i: int|
            0 <= i < songs.len() ==> #[trigger] spec_sort_each_song(direction, songs)[i]
                == spec_sort_song(direction, songs[i]),
    decreases songs.len(),
{
    if songs.len() > 0 {
        lemma_sort_each_song_index(direction, songs.drop_last());
        assert(forall|i: int|
            0 <= i < songs.len() - 1 ==> #[trigger] songs.drop_last()[i] == songs[i]);
    }
}

/// A bucket in the sorter's order: each entry's readings sorted, then the
/// entries by their leading deviation, ties keeping first-seen order
/// throughout; title and direction untouched. The sorter's one possible
/// output, so repeated passes over equal buckets are reproducible.
pub open spec fn spec_sort_playlist(p: PlaylistView) -> PlaylistView {
    PlaylistView {
        playlistTitle: p.playlistTitle,
        direction: p.direction,
        songs: spec_sort_songs(p.direction, spec_sort_each_song(p.direction, p.songs)),
    }
}

impl Playlist {
    /// Sort the bucket most-extreme-first in its own direction: first every
    /// song's readings by deviation, then the songs by their leading
    /// reading — exactly [`spec_sort_playlist`], a function of the input,
    /// with ties in first-seen order. Keeps which songs the bucket holds
    /// and which readings each of them has; a bucket already in its final
    /// shape comes back unchanged, so sorting twice is sorting once.
    #[verifier::rlimit(80)]
    pub fn sort(&mut self)
        requires
            playlist_wf(old(self)@),
        ensures
            final(self)@ == spec_sort_playlist(old(self)@),
            final(self)@.playlistTitle == old(self)@.playlistTitle,
            final(self)@.direction == old(self)@.direction,
            final(self)@.songs.len() == old(self)@.songs.len(),
            songs_content(final(self)@.songs) == songs_content(old(self)@.songs),
            playlist_fully_sorted(final(self)@),
            playlist_wf(final(self)@),
            playlist_fully_sorted(old(self)@) ==> final(self)@ == old(self)@,
    {
        let direction = self.direction;
        let ghost orig_songs = self.songs@;
        proof {
            assert forall|a: int| 0 <= a < orig_songs.len() implies (
            #[trigger] orig_songs[a]).difficulties@.len() >= 1 by {
                assert(old(self)@.songs[a] == orig_songs[a]@);
                assert(song_wf(orig_songs[a]@));
            }
        }
        let n = self.songs.len();
        let mut idx: usize = 0;
        while idx < n
            invariant
                0 <= idx <= n,
                n == self.songs@.len(),
                n == orig_songs.len(),
                self.playlistTitle == old(self).playlistTitle,
                self.direction == old(self).direction,
                direction == old(self).direction,
                forall|a: int|
                    0 <= a < orig_songs.len() ==> (#[trigger] orig_songs[a]).difficulties@.len()
                        >= 1,
                forall|a: int| idx <= a < n ==> #[trigger] self.songs@[a] == orig_songs[a],
                forall|a: int|
                    0 <= a < idx ==> (#[trigger] self.songs@[a])@.songName
                        == orig_songs[a]@.songName,
                forall|a: int|
                    0 <= a < idx ==> (#[trigger] self.songs@[a])@.hash == orig_songs[a]@.hash,
                forall|a: int|
                    0 <= a < idx ==> (#[trigger] self.songs@[a])@.difficulties.to_multiset()
                        == orig_songs[a]@.difficulties.to_multiset(),
                forall|a: int|
                    0 <= a < idx ==> (#[trigger] self.songs@[a]).difficulties@.len() >= 1,
                forall|a: int|
                    0 <= a < idx ==> sorted_readings(
                        direction,
                        (#[trigger] self.songs@[a])@.difficulties,
                    ),
                forall|a: int|
                    0 <= a < idx ==> (sorted_readings(direction, orig_songs[a]@.difficulties)
                        ==> (#[trigger] self.songs@[a])@ == orig_songs[a]@),
                forall|a: int|
                    0 <= a < idx ==> (#[trigger] self.songs@[a])@ == spec_sort_song(
                        direction,
                        orig_songs[a]@,
                    ),
            decreases n - idx,
        {
            let ghost before = self.songs@;
            let mut song = self.songs.remove(idx);
            proof {
                assert(song == orig_songs[idx as int]);
            }
            let ghost dlist_before = song.difficulties@;
            sort_difficulties(direction, &mut song.difficulties);
            proof {
                assert(song@.difficulties =~= readings_view(song.difficulties@));
                assert(orig_songs[idx as int]@.difficulties =~= readings_view(dlist_before));
            }
            self.songs.insert(idx, song);
            proof {
                assert(self.songs@ =~= before.update(idx as int, song));
                assert(self.songs@[idx as int] == song);
                assert(song@.songName == orig_songs[idx as int]@.songName);
                assert(song@.hash == orig_songs[idx as int]@.hash);
                assert(song@.difficulties.to_multiset()
                    == orig_songs[idx as int]@.difficulties.to_multiset());
                assert(sorted_readings(direction, song@.difficulties));
                assert(orig_songs[idx as int]@.difficulties == readings_view(dlist_before));
                assert(song@ =~= spec_sort_song(direction, orig_songs[idx as int]@));
                if sorted_readings(direction, orig_songs[idx as int]@.difficulties) {
                    assert(song.difficulties@ == dlist_before);
                    assert(song@ =~= orig_songs[idx as int]@);
                }
            }
            idx = idx + 1;
        }
        proof {
            assert forall|a: int| 0 <= a < n implies song_wf(
                #[trigger] songs_view(self.songs@)[a],
            ) by {
                assert(songs_view(self.songs@)[a] == self.songs@[a]@);
            }
        }
        let ghost mid_songs = self.songs@;
        sort_songs(direction, &mut self.songs);
        proof {
            let old_view = old(self)@;
            let mid_view = songs_view(mid_songs);
            let new_view = songs_view(self.songs@);
            assert(old_view.songs =~= songs_view(orig_songs));
            // Stage one kept every song's identity and readings in place.
            assert forall|a: int| 0 <= a < n implies song_content(#[trigger] mid_view[a])
                == song_content(old_view.songs[a]) by {
                assert(mid_view[a] == mid_songs[a]@);
                assert(old_view.songs[a] == orig_songs[a]@);
            }
            assert(mid_view.map_values(|s: SongsView| song_content(s)) =~= old_view.songs.map_values(
                |s: SongsView| song_content(s),
            ));
            assert(songs_content(mid_view) == songs_content(old_view.songs));
            assert(songs_content(new_view) == songs_content(old_view.songs));
            // Final shape: songs ordered, and each song's readings ordered,
            // carried through stage two by the preserved collection.
            broadcast use vstd::seq_lib::group_to_multiset_ensures;
            assert forall|a: int| 0 <= a < new_view.len() implies sorted_readings(
                direction,
                (#[trigger] new_view[a]).difficulties,
            ) by {
                assert(new_view.to_multiset().count(new_view[a]) > 0);
                assert(mid_view.to_multiset().count(new_view[a]) > 0);
                assert(mid_view.contains(new_view[a]));
                let w = choose|w: int| 0 <= w < mid_view.len() && mid_view[w] == new_view[a];
                assert(mid_view[w] == mid_songs[w]@);
                assert(sorted_readings(direction, mid_songs[w]@.difficulties));
            }
            assert(self@.songs == new_view);
            assert(self@.playlistTitle == old_view.playlistTitle);
            assert(self@.direction == old_view.direction);
            // Stage one produced exactly the per-song spec sort, so the
            // whole bucket is the spec sort of the input.
            lemma_sort_each_song_index(direction, old_view.songs);
            let each = spec_sort_each_song(direction, old_view.songs);
            assert forall|a: int| 0 <= a < n implies #[trigger] mid_view[a] == each[a] by {
                assert(mid_view[a] == mid_songs[a]@);
                assert(mid_songs[a]@ == spec_sort_song(direction, orig_songs[a]@));
                assert(old_view.songs[a] == orig_songs[a]@);
            }
            assert(mid_view =~= each);
            assert(new_view == spec_sort_songs(direction, each));
            assert(self@ =~= spec_sort_playlist(old_view));
            // Idempotence: a bucket already in final shape goes through both
            // stages untouched.
            if playlist_fully_sorted(old_view) {
                assert forall|a: int| 0 <= a < n implies #[trigger] mid_view[a]
                    == old_view.songs[a] by {
                    assert(old_view.songs[a] == orig_songs[a]@);
                    assert(sorted_readings(direction, orig_songs[a]@.difficulties));
                    assert(mid_songs[a]@ == orig_songs[a]@);
                    assert(mid_view[a] == mid_songs[a]@);
                }
                assert(mid_view =~= old_view.songs);
                assert(sorted_songs(direction, mid_view));
                assert(self.songs@ == mid_songs);
                assert(new_view =~= old_view.songs);
                assert(self@ =~= old_view);
            }
        }
    }
}

/// What one pass of the sorter does to a bucket: exactly
/// [`spec_sort_playlist`] — same title, same direction, same songs with
/// the same readings, now in final shape with ties in first-seen order —
/// and a bucket already in final shape untouched.
pub open spec fn playlist_sorted_from(oldp: PlaylistView, newp: PlaylistView) -> bool {
    &&& newp == spec_sort_playlist(oldp)
    &&& newp.playlistTitle == oldp.playlistTitle
    &&& newp.direction == oldp.direction
    &&& newp.songs.len() == oldp.songs.len()
    &&& songs_content(newp.songs) == songs_content(oldp.songs)
    &&& playlist_fully_sorted(newp)
    &&& (playlist_fully_sorted(oldp) ==> newp == oldp)
}

/// [`playlist_sorted_from`] across a bracket's three buckets.
pub open spec fn set_sorted_from(olds: PlaylistSetView, news: PlaylistSetView) -> bool {
    &&& playlist_sorted_from(olds.a_little_version, news.a_little_version)
    &&& playlist_sorted_from(olds.fairly_version, news.fairly_version)
    &&& playlist_sorted_from(olds.very_version, news.very_version)
}

/// [`playlist_sorted_from`] across all 90 buckets.
pub open spec fn playlists_sorted_from(oldp: PlaylistsView, newp: PlaylistsView) -> bool {
    &&& newp.overrated_playlist.len() == oldp.overrated_playlist.len()
    &&& newp.underrated_playlist.len() == oldp.underrated_playlist.len()
    &&& forall|i: int|
        0 <= i < oldp.overrated_playlist.len() ==> set_sorted_from(
            oldp.overrated_playlist[i],
            #[trigger] newp.overrated_playlist[i],
        )
    &&& forall|i: int|
        0 <= i < oldp.underrated_playlist.len() ==> set_sorted_from(
            oldp.underrated_playlist[i],
            #[trigger] newp.underrated_playlist[i],
        )
}

/// Sort the three buckets of every bracket set on one side.
fn sort_side(sets: &mut Vec<PlaylistSet>, direction: Direction)
    requires
        forall|i: int|
            0 <= i < old(sets)@.len() ==> set_wf(#[trigger] old(sets)@[i]@, direction),
    ensures
        final(sets)@.len() == old(sets)@.len(),
        forall|i: int|
            0 <= i < final(sets)@.len() ==> set_sorted_from(
                old(sets)@[i]@,
                (#[trigger] final(sets)@[i])@,
            ),
        forall|i: int|
            0 <= i < final(sets)@.len() ==> set_wf((#[trigger] final(sets)@[i])@, direction),
{
    let ghost orig = sets@;
    let n = sets.len();
    let mut i: usize = 0;
    while i < n
        invariant
            0 <= i <= n,
            n == sets@.len(),
            n == orig.len(),
            forall|a: int| 0 <= a < orig.len() ==> set_wf((#[trigger] orig[a])@, direction),
            forall|a: int| i <= a < n ==> #[trigger] sets@[a] == orig[a],
            forall|a: int|
                0 <= a < i ==> set_sorted_from(orig[a]@, (#[trigger] sets@[a])@),
            forall|a: int| 0 <= a < i ==> set_wf((#[trigger] sets@[a])@, direction),
        decreases n - i,
    {
        let ghost before = sets@;
        let mut set = sets.remove(i);
        proof {
            assert(set == orig[i as int]);
            assert(set_wf(set@, direction));
        }
        set.a_little_version.sort();
        set.fairly_version.sort();
        set.very_version.sort();
        sets.insert(i, set);
        proof {
            assert(sets@ =~= before.update(i as int, set));
            assert(sets@[i as int] == set);
            assert(set_sorted_from(orig[i as int]@, set@));
            assert(set_wf(set@, direction));
        }
        i = i + 1;
    }
}

/// Sort every bucket of the aggregate, as the emission stage does once
/// after the pass: each bucket keeps its title, direction, songs and
/// readings, and stands in final shape; buckets already in final shape are
/// untouched, so a second invocation changes nothing.
pub fn sort_all(playlists: &mut Playlists)
    requires
        playlists_wf(old(playlists)@),
    ensures
        playlists_wf(final(playlists)@),
        playlists_sorted_from(old(playlists)@, final(playlists)@),
{
    proof {
        assert forall|i: int| 0 <= i < old(playlists).overrated_playlist@.len() implies set_wf(
            (#[trigger] old(playlists).overrated_playlist@[i])@,
            Direction::Overrated,
        ) by {
            assert(old(playlists)@.overrated_playlist[i] == old(
                playlists,
            ).overrated_playlist@[i]@);
        }
        assert forall|i: int| 0 <= i < old(playlists).underrated_playlist@.len() implies set_wf(
            (#[trigger] old(playlists).underrated_playlist@[i])@,
            Direction::Underrated,
        ) by {
            assert(old(playlists)@.underrated_playlist[i] == old(
                playlists,
            ).underrated_playlist@[i]@);
        }
    }
    sort_side(&mut playlists.overrated_playlist, Direction::Overrated);
    sort_side(&mut playlists.underrated_playlist, Direction::Underrated);
    proof {
        assert forall|i: int| 0 <= i < old(playlists)@.overrated_playlist.len() implies
            set_sorted_from(
            old(playlists)@.overrated_playlist[i],
            #[trigger] playlists@.overrated_playlist[i],
        ) by {
            assert(playlists@.overrated_playlist[i] == playlists.overrated_playlist@[i]@);
            assert(old(playlists)@.overrated_playlist[i] == old(
                playlists,
            ).overrated_playlist@[i]@);
        }
        assert forall|i: int| 0 <= i < old(playlists)@.underrated_playlist.len() implies
            set_sorted_from(
            old(playlists)@.underrated_playlist[i],
            #[trigger] playlists@.underrated_playlist[i],
        ) by {
            assert(playlists@.underrated_playlist[i] == playlists.underrated_playlist@[i]@);
            assert(old(playlists)@.underrated_playlist[i] == old(
                playlists,
            ).underrated_playlist@[i]@);
        }
        assert forall|i: int| 0 <= i < playlists@.overrated_playlist.len() implies set_wf(
            #[trigger] playlists@.overrated_playlist[i],
            Direction::Overrated,
        ) by {
            assert(playlists@.overrated_playlist[i] == playlists.overrated_playlist@[i]@);
        }
        assert forall|i: int| 0 <= i < playlists@.underrated_playlist.len() implies set_wf(
            #[trigger] playlists@.underrated_playlist[i],
            Direction::Underrated,
        ) by {
            assert(playlists@.underrated_playlist[i] == playlists.underrated_playlist@[i]@);
        }
    }
}

} // verus!
