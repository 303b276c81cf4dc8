//! The row model: one source record per (song, characteristic, difficulty)
//! combination, with its community star rating in milli-stars, and the
//! deviation ("diff") between the actual and the predicted rating.

use vstd::prelude::*;

verus! {

/// Bound on a predicted rating the engine accepts, in milli-stars: a million
/// stars either way. Keeps every deviation inside `i64`; a prediction beyond
/// it counts as a predictor failure and the row is skipped.
pub const PREDICTION_LIMIT_MILLI: i64 = 1000000000;

/// Bound on a record's star rating, in milli-stars: a trillion stars either
/// way. A machine limit only — the taxonomy, not the record, rejects
/// ratings without a bracket — wide enough that every deviation stays an
/// exact `i64`.
pub const STARS_LIMIT_MILLI: i64 = 1000000000000000;

/// The five recognized difficulty labels.
#[derive(Clone, Copy, Debug, PartialEq, Eq, Structural)]
pub enum Difficulty {
    Easy,
    Normal,
    Hard,
    Expert,
    ExpertPlus,
}

/// One source record, reduced to the fields the classification engine reads.
/// The feature columns of the source table feed only the external predictor
/// and never enter the engine.
#[derive(Debug, Clone)]
pub struct MapData {
    /// Song identity: rows sharing a hash describe one song.
    pub hash: String,
    /// Display name of the song.
    pub name: String,
    /// Movement-pattern track, e.g. "Standard".
    pub characteristic: String,
    /// Difficulty label; recognized when it is one of the five of
    /// [`Difficulty`].
    pub difficulty: String,
    /// Community star rating in milli-stars.
    pub stars_milli: i64,
}

/// Ghost image of a record.
#[verifier::ext_equal]
pub struct MapDataView {
    pub hash: Seq<char>,
    pub name: Seq<char>,
    pub characteristic: Seq<char>,
    pub difficulty: Seq<char>,
    pub stars_milli: int,
}

impl View for MapData {
    type V = MapDataView;

    open spec fn view(&self) -> MapDataView {
        MapDataView {
            hash: self.hash@,
            name: self.name@,
            characteristic: self.characteristic@,
            difficulty: self.difficulty@,
            stars_milli: self.stars_milli as int,
        }
    }
}

/// Which of the five labels a difficulty string names, if any.
pub open spec fn spec_parse_difficulty(label: Seq<char>) -> Option<Difficulty> {
    if label == "Easy"@ {
        Some(Difficulty::Easy)
    } else if label == "Normal"@ {
        Some(Difficulty::Normal)
    } else if label == "Hard"@ {
        Some(Difficulty::Hard)
    } else if label == "Expert"@ {
        Some(Difficulty::Expert)
    } else if label == "ExpertPlus"@ {
        Some(Difficulty::ExpertPlus)
    } else {
        None
    }
}

/// Recognize a difficulty label, or nothing when it is outside the five.
pub fn parse_difficulty(label: &String) -> (r: Option<Difficulty>)
    ensures
        r == spec_parse_difficulty(label@),
{
    let easy: String = "Easy".to_owned();
    let normal: String = "Normal".to_owned();
    let hard: String = "Hard".to_owned();
    let expert: String = "Expert".to_owned();
    let expert_plus: String = "ExpertPlus".to_owned();
    if *label == easy {
        Some(Difficulty::Easy)
    } else if *label == normal {
        Some(Difficulty::Normal)
    } else if *label == hard {
        Some(Difficulty::Hard)
    } else if *label == expert {
        Some(Difficulty::Expert)
    } else if *label == expert_plus {
        Some(Difficulty::ExpertPlus)
    } else {
        None
    }
}

/// A prediction the engine accepts: bounded by [`PREDICTION_LIMIT_MILLI`].
pub open spec fn valid_prediction(predicted_milli: int) -> bool {
    -(PREDICTION_LIMIT_MILLI as int) <= predicted_milli <= PREDICTION_LIMIT_MILLI as int
}

/// A star rating the machine can take a deviation from: bounded by
/// [`STARS_LIMIT_MILLI`]. Says nothing about brackets; any rating in this
/// range flows through the diff calculator, and the taxonomy alone decides
/// whether it classifies.
pub open spec fn representable_stars(stars_milli: int) -> bool {
    -(STARS_LIMIT_MILLI as int) <= stars_milli <= STARS_LIMIT_MILLI as int
}

/// Signed deviation of one reading: the actual rating minus the predicted
/// rating, in milli-stars. Total over every representable rating; it is
/// the taxonomy's business, not this function's, to reject ratings without
/// a bracket.
pub fn compute_diff(stars_milli: i64, predicted_milli: i64) -> (diff_milli: i64)
    requires
        representable_stars(stars_milli as int),
        valid_prediction(predicted_milli as int),
    ensures
        diff_milli as int == stars_milli as int - predicted_milli as int,
{
    stars_milli - predicted_milli
}

} // verus!
