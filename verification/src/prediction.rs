//! The per-run prediction table: a memo from (characteristic, difficulty)
//! keys to predicted ratings. One table serves one run (one song) and is
//! discarded when the run ends.

use vstd::prelude::*;
use crate::record::{valid_prediction, Difficulty};

verus! {

/// The key a prediction is resolved under: the row's characteristic and its
/// recognized difficulty label. Unique within a run.
#[derive(Debug, Clone)]
pub struct PredictionKey {
    pub characteristic: String,
    pub difficulty: Difficulty,
}

/// Ghost image of a key.
#[verifier::ext_equal]
pub struct PredictionKeyView {
    pub characteristic: Seq<char>,
    pub difficulty: Difficulty,
}

impl View for PredictionKey {
    type V = PredictionKeyView;

    open spec fn view(&self) -> PredictionKeyView {
        PredictionKeyView { characteristic: self.characteristic@, difficulty: self.difficulty }
    }
}

/// The value a key maps to, scanning entries oldest first.
pub open spec fn spec_lookup(
    entries: Seq<(PredictionKeyView, int)>,
    key: PredictionKeyView,
) -> Option<int>
    decreases entries.len(),
{
    if entries.len() == 0 {
        None
    } else if entries[0].0 == key {
        Some(entries[0].1)
    } else {
        spec_lookup(entries.drop_first(), key)
    }
}

/// Every stored prediction is within the accepted bound.
pub open spec fn entries_valid(entries: Seq<(PredictionKeyView, int)>) -> bool {
    forall|i: int| 0 <= i < entries.len() ==> valid_prediction(#[trigger] entries[i].1)
}

/// Memo from prediction keys to predicted ratings in milli-stars.
pub struct PredictionTable {
    entries: Vec<(PredictionKey, i64)>,
}

impl View for PredictionTable {
    type V = Seq<(PredictionKeyView, int)>;

    closed spec fn view(&self) -> Seq<(PredictionKeyView, int)> {
        self.entries@.map_values(|e: (PredictionKey, i64)| (e.0@, e.1 as int))
    }
}

impl PredictionTable {
    /// Every value the table holds is a prediction the engine accepts.
    pub open spec fn wf(&self) -> bool {
        entries_valid(self@)
    }

    /// The empty table a run starts from.
    pub fn new() -> (table: PredictionTable)
        ensures
            table@ == Seq::<(PredictionKeyView, int)>::empty(),
            table.wf(),
    {
        let table = PredictionTable { entries: Vec::new() };
        proof {
            assert(table@ =~= Seq::<(PredictionKeyView, int)>::empty());
        }
        table
    }

    /// The prediction memoized under `key`, if one is.
    pub fn lookup(&self, key: &PredictionKey) -> (r: Option<i64>)
        ensures
            match r {
                Some(v) => spec_lookup(self@, key@) == Some(v as int),
                None => spec_lookup(self@, key@) is None,
            },
    {
        let n = self.entries.len();
        let mut i: usize = 0;
        proof {
            assert(self@.skip(0) =~= self@);
        }
        while i < n
            invariant
                0 <= i <= n,
                n == self.entries.len(),
                spec_lookup(self@, key@) == spec_lookup(self@.skip(i as int), key@),
            decreases n - i,
        {
            proof {
                assert(self@.skip(i as int)[0] == self@[i as int]);
                assert(self@[i as int] == (self.entries@[i as int].0@, self.entries@[i as int].1 as int));
            }
            if key_eq(&self.entries[i].0, key) {
                return Some(self.entries[i].1);
            }
            proof {
                assert(self@.skip(i as int).drop_first() =~= self@.skip(i as int + 1));
            }
            i = i + 1;
        }
        proof {
            assert(self@.skip(n as int) =~= Seq::<(PredictionKeyView, int)>::empty());
        }
        None
    }

    /// Memoize a prediction for a key the table does not hold yet.
    pub fn insert(&mut self, key: PredictionKey, value_milli: i64)
        requires
            spec_lookup(old(self)@, key@) is None,
            valid_prediction(value_milli as int),
            old(self).wf(),
        ensures
            final(self)@ == old(self)@.push((key@, value_milli as int)),
            final(self).wf(),
    {
        self.entries.push((key, value_milli));
        proof {
            assert(self@ =~= old(self)@.push((key@, value_milli as int)));
        }
    }
}

/// Whether two keys resolve the same prediction.
pub fn key_eq(a: &PredictionKey, b: &PredictionKey) -> (r: bool)
    ensures
        r == (a@ == b@),
{
    let chars_match = a.characteristic == b.characteristic;
    let difficulty_match = a.difficulty == b.difficulty;
    proof {
        if chars_match && difficulty_match {
            assert(a@ =~= b@);
        }
    }
    chars_match && difficulty_match
}

/// A prediction read back from a well-formed table is within the accepted
/// bound.
pub proof fn lemma_lookup_valid(entries: Seq<(PredictionKeyView, int)>, key: PredictionKeyView)
    requires
        entries_valid(entries),
        spec_lookup(entries, key) is Some,
    ensures
        valid_prediction(spec_lookup(entries, key)->Some_0),
    decreases entries.len(),
{
    if entries.len() > 0 && !(entries[0].0 == key) {
        assert(forall|i: int|
            0 <= i < entries.drop_first().len() ==> #[trigger] entries.drop_first()[i].1
                == entries[i + 1].1);
        lemma_lookup_valid(entries.drop_first(), key);
    }
}

/// Memoization: once a prediction for a key stands in the table, a lookup
/// for that key succeeds and every other key is undisturbed. A driver that
/// invokes the predictor only when a lookup fails, and memoizes what it got,
/// therefore invokes the predictor at most once per distinct key over the
/// table's lifetime, which is one run.
pub proof fn lemma_memoization(
    entries: Seq<(PredictionKeyView, int)>,
    key: PredictionKeyView,
    value: int,
)
    requires
        spec_lookup(entries, key) is None,
    ensures
        spec_lookup(entries.push((key, value)), key) == Some(value),
        forall|other: PredictionKeyView|
            other != key ==> spec_lookup(entries.push((key, value)), other) == spec_lookup(
                entries,
                other,
            ),
    decreases entries.len(),
{
    let pushed = entries.push((key, value));
    if entries.len() == 0 {
        assert(pushed[0] == (key, value));
        assert(pushed.drop_first() =~= Seq::<(PredictionKeyView, int)>::empty());
        assert(spec_lookup(pushed, key) == Some(value));
        assert forall|other: PredictionKeyView| other != key implies spec_lookup(pushed, other)
            == spec_lookup(entries, other) by {
            assert(pushed[0].0 == key);
            assert(spec_lookup(pushed.drop_first(), other) is None);
        }
    } else {
        assert(entries[0].0 != key);
        assert(pushed[0] == entries[0]);
        lemma_memoization(entries.drop_first(), key, value);
        assert(pushed.drop_first() =~= entries.drop_first().push((key, value)));
        assert(spec_lookup(pushed, key) == Some(value));
        assert forall|other: PredictionKeyView| other != key implies spec_lookup(pushed, other)
            == spec_lookup(entries, other) by {
            if entries[0].0 == other {
                assert(spec_lookup(pushed, other) == Some(pushed[0].1));
            } else {
                assert(spec_lookup(pushed, other) == spec_lookup(pushed.drop_first(), other));
                assert(spec_lookup(entries, other) == spec_lookup(entries.drop_first(), other));
            }
        }
    }
}

} // verus!
