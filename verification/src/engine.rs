//! The classification pass: a run grouper that partitions the pre-ordered
//! record stream by song identity, and a per-run session that resolves
//! predictions through the memo table, computes deviations, fixes the song's
//! bucket on the first classified reading, and upserts every reading into
//! the store.

use vstd::prelude::*;
use crate::record::{
    compute_diff, parse_difficulty, representable_stars, spec_parse_difficulty, valid_prediction,
    MapData, MapDataView,
};
use crate::prediction::{
    entries_valid, lemma_lookup_valid, spec_lookup, PredictionKey, PredictionKeyView,
    PredictionTable,
};
use crate::taxonomy::{
    classify, lemma_classify_total, spec_classify, valid_bucket, BucketId, RowError,
};
use crate::playlist::{
    playlists_wf, spec_upsert, Difficulties, DifficultiesView, Playlists, PlaylistsView,
};

verus! {

/// The record sequence as the engine sees it.
pub open spec fn rows_view(records: Seq<MapData>) -> Seq<MapDataView> {
    records.map_values(|r: MapData| r@)
}

/// What became of one record.
#[derive(Clone, Copy, Debug, PartialEq, Eq, Structural)]
pub enum RowOutcome {
    /// The record's reading was classified and stored.
    Added,
    /// The record was dropped, for the reason carried.
    Skipped(RowError),
}

/// Counts of one run's records: how many were stored and how many dropped.
#[derive(Clone, Copy, Debug, PartialEq, Eq, Structural)]
pub struct RunReport {
    pub processed: usize,
    pub skipped: usize,
}

/// The difficulty reading a record yields against a prediction table: its
/// label and characteristic with the deviation of the actual rating from
/// the predicted one — or the reason the record yields none. Total over
/// ratings: it fails only on an unrecognized label or a missing
/// prediction, in that order; a rating without a bracket still yields its
/// deviation, and the taxonomy rejects it later.
pub open spec fn spec_make_difficulties(
    row: MapDataView,
    table: Seq<(PredictionKeyView, int)>,
) -> Result<DifficultiesView, RowError> {
    match spec_parse_difficulty(row.difficulty) {
        None => Err(RowError::InvalidDifficultyLabel),
        Some(difficulty) => {
            let key = PredictionKeyView { characteristic: row.characteristic, difficulty };
            match spec_lookup(table, key) {
                None => Err(RowError::MissingPrediction),
                Some(predicted) => Ok(
                    DifficultiesView {
                        name: row.difficulty,
                        characteristic: row.characteristic,
                        diff_milli: row.stars_milli - predicted,
                    },
                ),
            }
        },
    }
}

/// Resolve one record against the run's prediction table: its difficulty
/// reading, or the reason it is dropped. The rating bound is a machine
/// limit keeping the deviation an exact `i64`, nothing more.
pub fn make_difficulties(record: &MapData, table: &PredictionTable) -> (r: Result<
    Difficulties,
    RowError,
>)
    requires
        table.wf(),
        representable_stars(record@.stars_milli),
    ensures
        match r {
            Ok(d) => spec_make_difficulties(record@, table@) == Ok::<DifficultiesView, RowError>(
                d@,
            ),
            Err(e) => spec_make_difficulties(record@, table@) == Err::<DifficultiesView, RowError>(
                e,
            ),
        },
{
    let difficulty = match parse_difficulty(&record.difficulty) {
        Some(d) => d,
        None => {
            return Err(RowError::InvalidDifficultyLabel);
        },
    };
    let key = PredictionKey { characteristic: record.characteristic.clone(), difficulty };
    let predicted = match table.lookup(&key) {
        Some(v) => v,
        None => {
            return Err(RowError::MissingPrediction);
        },
    };
    proof {
        lemma_lookup_valid(table@, key@);
    }
    let diff_milli = compute_diff(record.stars_milli, predicted);
    Ok(
        Difficulties {
            name: record.difficulty.clone(),
            characteristic: record.characteristic.clone(),
            diff_milli,
        },
    )
}

/// Ghost image of a run session: the memo table's entries and the bucket
/// fixed by the first classified reading, if one was.
#[verifier::ext_equal]
pub struct SessionView {
    pub table: Seq<(PredictionKeyView, int)>,
    pub bucket: Option<BucketId>,
}

/// The state one record takes a run through: the session and store after the
/// record, and what became of it. A record that yields a reading lands in
/// the bucket the run has already fixed; while none is fixed, the
/// taxonomy classifies the reading by its own rating and deviation —
/// fixing the bucket, or skipping a rating without a bracket — so the
/// first classified reading decides the song's bucket.
pub open spec fn spec_step(
    sess: SessionView,
    p: PlaylistsView,
    row: MapDataView,
) -> (SessionView, PlaylistsView, RowOutcome) {
    match spec_make_difficulties(row, sess.table) {
        Err(e) => (sess, p, RowOutcome::Skipped(e)),
        Ok(entry) => {
            let chosen = match sess.bucket {
                Some(id) => Some(id),
                None => spec_classify(row.stars_milli, entry.diff_milli),
            };
            match chosen {
                None => (sess, p, RowOutcome::Skipped(RowError::OutOfRangeRating)),
                Some(id) => (
                    SessionView { bucket: Some(id), ..sess },
                    spec_upsert(p, id, row.name, row.hash, entry),
                    RowOutcome::Added,
                ),
            }
        },
    }
}

/// A record never changes the memo: only supplying a prediction grows it.
/// Together with [`crate::prediction::lemma_memoization`] — a supplied key
/// looks up successfully ever after — a driver that queries the predictor
/// only when the session needs it invokes the predictor at most once per
/// distinct key over a run, however many records the run holds.
pub proof fn lemma_step_keeps_table(sess: SessionView, p: PlaylistsView, row: MapDataView)
    ensures
        spec_step(sess, p, row).0.table == sess.table,
{
}

/// A whole run folded over [`spec_step`], oldest record first: the final
/// session and store, with the counts of stored and dropped records.
pub open spec fn spec_run(
    sess: SessionView,
    p: PlaylistsView,
    rows: Seq<MapDataView>,
) -> (SessionView, PlaylistsView, int, int)
    decreases rows.len(),
{
    if rows.len() == 0 {
        (sess, p, 0, 0)
    } else {
        let prev = spec_run(sess, p, rows.drop_last());
        let stepped = spec_step(prev.0, prev.1, rows.last());
        if stepped.2 == RowOutcome::Added {
            (stepped.0, stepped.1, prev.2 + 1, prev.3)
        } else {
            (stepped.0, stepped.1, prev.2, prev.3 + 1)
        }
    }
}

/// One run's mutable state: the prediction memo and the bucket fixed by the
/// first classified reading. Created fresh per run, discarded when the run
/// ends; never shared across runs.
pub struct RunSession {
    table: PredictionTable,
    bucket: Option<BucketId>,
}

impl View for RunSession {
    type V = SessionView;

    closed spec fn view(&self) -> SessionView {
        SessionView { table: self.table@, bucket: self.bucket }
    }
}

impl RunSession {
    /// Every memoized prediction is in bounds and a fixed bucket is one of
    /// the 90.
    pub open spec fn wf(&self) -> bool {
        &&& entries_valid(self@.table)
        &&& match self@.bucket {
            Some(id) => valid_bucket(id),
            None => true,
        }
    }

    /// A fresh session with an empty memo: the per-row predictor shape, fed
    /// through [`RunSession::supply_prediction`].
    pub fn new() -> (session: RunSession)
        ensures
            session@.table == Seq::<(PredictionKeyView, int)>::empty(),
            session@.bucket is None,
            session.wf(),
    {
        RunSession { table: PredictionTable::new(), bucket: None }
    }

    /// A session over a pre-filled table: the bulk-lookup predictor shape,
    /// where one call per run returned the whole mapping.
    pub fn from_table(table: PredictionTable) -> (session: RunSession)
        requires
            table.wf(),
        ensures
            session@.table == table@,
            session@.bucket is None,
            session.wf(),
    {
        RunSession { table, bucket: None }
    }

    /// Whether the run still needs the predictor for this key. A driver
    /// invokes the predictor only when this returns true, and memoizes the
    /// answer at once; [`crate::prediction::lemma_memoization`] then bounds
    /// the invocations to one per distinct key per run.
    pub fn needs_prediction(&self, key: &PredictionKey) -> (r: bool)
        ensures
            r == (spec_lookup(self@.table, key@) is None),
    {
        match self.table.lookup(key) {
            Some(_) => false,
            None => true,
        }
    }

    /// Memoize what the predictor answered for a key the run has not
    /// resolved yet.
    pub fn supply_prediction(&mut self, key: PredictionKey, value_milli: i64)
        requires
            old(self).wf(),
            spec_lookup(old(self)@.table, key@) is None,
            valid_prediction(value_milli as int),
        ensures
            final(self)@.table == old(self)@.table.push((key@, value_milli as int)),
            final(self)@.bucket == old(self)@.bucket,
            final(self).wf(),
    {
        self.table.insert(key, value_milli);
    }

    /// Take one record through the run: resolve its reading against the
    /// memo, classify it into the run's bucket — fixing the bucket if this
    /// is the run's first classified reading — and upsert it into the
    /// store; or drop the record and say why.
    pub fn process_row(&mut self, playlists: &mut Playlists, record: &MapData) -> (outcome:
        RowOutcome)
        requires
            old(self).wf(),
            playlists_wf(old(playlists)@),
            representable_stars(record@.stars_milli),
        ensures
            final(self).wf(),
            playlists_wf(final(playlists)@),
            final(self)@ == spec_step(old(self)@, old(playlists)@, record@).0,
            final(playlists)@ == spec_step(old(self)@, old(playlists)@, record@).1,
            outcome == spec_step(old(self)@, old(playlists)@, record@).2,
    {
        let entry = match make_difficulties(record, &self.table) {
            Ok(entry) => entry,
            Err(e) => {
                return RowOutcome::Skipped(e);
            },
        };
        proof {
            lemma_classify_total(record@.stars_milli, entry@.diff_milli);
        }
        let id = match self.bucket {
            Some(id) => id,
            None => {
                match classify(record.stars_milli, entry.diff_milli) {
                    Ok(id) => id,
                    Err(_) => {
                        return RowOutcome::Skipped(RowError::OutOfRangeRating);
                    },
                }
            },
        };
        self.bucket = Some(id);
        playlists.upsert(id, &record.name, &record.hash, entry);
        RowOutcome::Added
    }
}

/// Take one run — the records from `start` to `end`, all one song — through
/// the pass against a pre-filled prediction table, and report how many
/// records were stored and how many dropped.
pub fn process_run(
    playlists: &mut Playlists,
    records: &Vec<MapData>,
    start: usize,
    end: usize,
    table: PredictionTable,
) -> (report: RunReport)
    requires
        start <= end <= records.len(),
        table.wf(),
        playlists_wf(old(playlists)@),
        forall|i: int|
            start <= i < end ==> representable_stars((#[trigger] records@[i])@.stars_milli),
    ensures
        playlists_wf(final(playlists)@),
        ({
            let folded = spec_run(
                SessionView { table: table@, bucket: None },
                old(playlists)@,
                rows_view(records@).subrange(start as int, end as int),
            );
            &&& final(playlists)@ == folded.1
            &&& report.processed == folded.2
            &&& report.skipped == folded.3
        }),
        report.processed + report.skipped == end - start,
{
    let ghost initial_session = SessionView { table: table@, bucket: None };
    let ghost all_rows = rows_view(records@);
    let mut session = RunSession::from_table(table);
    let mut processed: usize = 0;
    let mut skipped: usize = 0;
    let mut i: usize = start;
    proof {
        assert(all_rows.subrange(start as int, start as int) =~= Seq::<MapDataView>::empty());
    }
    while i < end
        invariant
            start <= i <= end <= records.len(),
            all_rows == rows_view(records@),
            forall|j: int|
                start <= j < end ==> representable_stars((#[trigger] records@[j])@.stars_milli),
            session.wf(),
            playlists_wf(playlists@),
            processed + skipped == i - start,
            ({
                let folded = spec_run(
                    initial_session,
                    old(playlists)@,
                    all_rows.subrange(start as int, i as int),
                );
                &&& session@ == folded.0
                &&& playlists@ == folded.1
                &&& processed == folded.2
                &&& skipped == folded.3
            }),
        decreases end - i,
    {
        let ghost rows_before = all_rows.subrange(start as int, i as int);
        let ghost rows_after = all_rows.subrange(start as int, i as int + 1);
        proof {
            assert(rows_after.drop_last() =~= rows_before);
            assert(rows_after.last() == all_rows[i as int]);
            assert(all_rows[i as int] == records@[i as int]@);
        }
        let outcome = session.process_row(playlists, &records[i]);
        match outcome {
            RowOutcome::Added => {
                processed = processed + 1;
            },
            RowOutcome::Skipped(_) => {
                skipped = skipped + 1;
            },
        }
        i = i + 1;
    }
    RunReport { processed, skipped }
}

/// Maximal runs of consecutive records sharing one hash: `runs` tiles
/// `rows` left to right with non-empty, contiguous spans, each span's
/// records all carry the span's first hash, and consecutive spans carry
/// different hashes.
pub open spec fn runs_partition(rows: Seq<MapDataView>, runs: Seq<(int, int)>) -> bool {
    &&& (runs.len() == 0 <==> rows.len() == 0)
    &&& (rows.len() > 0 ==> runs[0].0 == 0 && runs[runs.len() - 1].1 == rows.len())
    &&& forall|k: int|
        0 <= k < runs.len() ==> 0 <= (#[trigger] runs[k]).0 < runs[k].1 <= rows.len()
    &&& forall|k: int| 0 < k < runs.len() ==> (#[trigger] runs[k]).0 == runs[k - 1].1
    &&& forall|k: int|
        0 <= k < runs.len() ==> (forall|a: int|
            (#[trigger] runs[k]).0 <= a < runs[k].1 ==> (#[trigger] rows[a]).hash
                == rows[runs[k].0].hash)
    &&& forall|k: int|
        0 < k < runs.len() ==> rows[(#[trigger] runs[k]).0].hash != rows[runs[k].0 - 1].hash
}

/// The run spans as the partition predicate sees them.
pub open spec fn runs_view(runs: Seq<(usize, usize)>) -> Seq<(int, int)> {
    runs.map_values(|p: (usize, usize)| (p.0 as int, p.1 as int))
}

/// Partition the record stream into maximal runs of equal hash. The stream
/// must already be grouped by song identity for runs to mean songs; the
/// grouper itself only cuts where adjacent hashes differ.
#[verifier::rlimit(50)]
pub fn group_runs(records: &Vec<MapData>) -> (runs: Vec<(usize, usize)>)
    ensures
        runs_partition(rows_view(records@), runs_view(runs@)),
{
    let ghost rows = rows_view(records@);
    let n = records.len();
    let mut runs: Vec<(usize, usize)> = Vec::new();
    if n == 0 {
        proof {
            assert(runs_view(runs@) =~= Seq::<(int, int)>::empty());
        }
        return runs;
    }
    let mut start: usize = 0;
    let mut i: usize = 1;
    while i < n
        invariant
            n == records.len(),
            rows == rows_view(records@),
            n > 0,
            0 <= start < i <= n,
            runs_partition(rows.subrange(0, start as int), runs_view(runs@)),
            forall|a: int| start <= a < i ==> (#[trigger] rows[a]).hash == rows[start as int].hash,
            start > 0 ==> rows[start as int].hash != rows[start as int - 1].hash,
        decreases n - i,
    {
        proof {
            assert(rows[i as int] == records@[i as int]@);
            assert(rows[i as int - 1] == records@[i as int - 1]@);
        }
        if !(records[i].hash == records[i - 1].hash) {
            let ghost prev_runs = runs_view(runs@);
            runs.push((start, i));
            proof {
                assert(runs_view(runs@) =~= prev_runs.push((start as int, i as int)));
                assert(runs_view(runs@).drop_last() =~= prev_runs);
                lemma_partition_extend(rows, runs_view(runs@), start as int, i as int);
            }
            start = i;
        }
        i = i + 1;
    }
    let ghost prev_runs = runs_view(runs@);
    runs.push((start, n));
    proof {
        assert(runs_view(runs@) =~= prev_runs.push((start as int, n as int)));
        assert(runs_view(runs@).drop_last() =~= prev_runs);
        lemma_partition_extend(rows, runs_view(runs@), start as int, n as int);
        assert(rows.subrange(0, n as int) =~= rows);
    }
    runs
}

/// Extending a partition of `rows[..start]` by the span `[start, end)`,
/// whose records all carry `rows[start].hash` and which opens on a hash
/// change, partitions `rows[..end]`.
#[verifier::rlimit(100)]
proof fn lemma_partition_extend(rows: Seq<MapDataView>, extended: Seq<(int, int)>, start: int, end: int)
    requires
        0 <= start < end <= rows.len(),
        extended.len() > 0,
        extended.last() == (start, end),
        runs_partition(rows.subrange(0, start), extended.drop_last()),
        forall|a: int| start <= a < end ==> (#[trigger] rows[a]).hash == rows[start].hash,
        start > 0 ==> rows[start].hash != rows[start - 1].hash,
    ensures
        runs_partition(rows.subrange(0, end), extended),
{
    let prefix_rows = rows.subrange(0, start);
    let prefix_runs = extended.drop_last();
    let now_rows = rows.subrange(0, end);
    let m = extended.len() - 1;
    assert(extended[m] == (start, end));
    assert(now_rows.len() == end);
    assert(prefix_rows.len() == start);
    assert(forall|k: int| 0 <= k < m ==> #[trigger] extended[k] == prefix_runs[k]);
    if m == 0 {
        assert(start == 0);
    } else {
        assert(prefix_runs[m - 1].1 == start);
        assert(prefix_runs[0].0 == 0);
    }
    // Every span is in range and non-empty.
    assert forall|k: int| 0 <= k < extended.len() implies 0 <= (#[trigger] extended[k]).0
        < extended[k].1 <= now_rows.len() by {
        if k < m {
            assert(extended[k] == prefix_runs[k]);
        }
    }
    // Consecutive spans touch.
    assert forall|k: int| 0 < k < extended.len() implies (#[trigger] extended[k]).0 == extended[k
        - 1].1 by {
        if k < m {
            assert(extended[k] == prefix_runs[k]);
            assert(extended[k - 1] == prefix_runs[k - 1]);
        } else {
            assert(extended[k - 1] == prefix_runs[m - 1]);
        }
    }
    // Within each span one hash.
    assert forall|k: int| 0 <= k < extended.len() implies (forall|a: int|
        (#[trigger] extended[k]).0 <= a < extended[k].1 ==> (#[trigger] now_rows[a]).hash
            == now_rows[extended[k].0].hash) by {
        let s0 = extended[k].0;
        assert forall|a: int| s0 <= a < extended[k].1 implies (#[trigger] now_rows[a]).hash
            == now_rows[s0].hash by {
            assert(now_rows[a] == rows[a]);
            assert(now_rows[s0] == rows[s0]);
            if k < m {
                assert(extended[k] == prefix_runs[k]);
                assert(prefix_rows[a] == rows[a]);
                assert(prefix_rows[s0] == rows[s0]);
                assert(prefix_rows[a].hash == prefix_rows[s0].hash);
            }
        }
    }
    // Each later span opens on a hash change.
    assert forall|k: int| 0 < k < extended.len() implies (#[trigger] now_rows[extended[k].0]).hash
        != now_rows[extended[k].0 - 1].hash by {
        let s0 = extended[k].0;
        assert(now_rows[s0] == rows[s0]);
        assert(now_rows[s0 - 1] == rows[s0 - 1]);
        if k < m {
            assert(extended[k] == prefix_runs[k]);
            assert(prefix_rows[s0] == rows[s0]);
            assert(prefix_rows[s0 - 1] == rows[s0 - 1]);
            assert(prefix_rows[s0].hash != prefix_rows[s0 - 1].hash);
        } else {
            assert(s0 == start && start > 0);
        }
    }
}

} // verus!
