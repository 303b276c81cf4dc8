//! The bucket taxonomy: a pure function from (actual rating, deviation) to
//! one of 90 bucket identifiers, 15 rating brackets x {overrated, underrated}
//! x {a-little, fairly, very}.

use vstd::prelude::*;

verus! {

/// Thousandths of a star per star: every rating in the engine is an integer
/// count of milli-stars.
pub const MILLIS_PER_STAR: i64 = 1000;

/// Exclusive upper bound on a classifiable rating: 15 stars.
pub const MAX_STARS_MILLI: i64 = 15000;

/// Number of rating brackets (floor of the star rating, 0 through 14).
pub const BRACKET_COUNT: i64 = 15;

/// Deviations below half a star are "a little" over/under-rated.
pub const A_LITTLE_LIMIT_MILLI: i64 = 500;

/// Deviations of a full star or more are "very" over/under-rated.
pub const VERY_LIMIT_MILLI: i64 = 1000;

/// Whether a song is rated above or below its predicted rating.
#[derive(Clone, Copy, Debug, PartialEq, Eq, Structural)]
pub enum Direction {
    Overrated,
    Underrated,
}

/// How far the community rating deviates from the predicted rating.
#[derive(Clone, Copy, Debug, PartialEq, Eq, Structural)]
pub enum Magnitude {
    ALittle,
    Fairly,
    Very,
}

/// Identity of one of the 90 output playlists.
#[derive(Clone, Copy, Debug, PartialEq, Eq, Structural)]
pub struct BucketId {
    /// Rating bracket, the integer floor of the star rating; always below 15.
    pub bracket: u8,
    pub direction: Direction,
    pub magnitude: Magnitude,
}

/// Why a record was skipped rather than classified.
#[derive(Clone, Copy, Debug, PartialEq, Eq, Structural)]
pub enum RowError {
    /// The record's difficulty is not one of the five recognized labels.
    InvalidDifficultyLabel,
    /// The prediction table holds no value for the record's key.
    MissingPrediction,
    /// The record's star rating has no bracket: below zero or 15 and above.
    OutOfRangeRating,
}

/// A rating can be classified exactly when its bracket exists: at least zero
/// and strictly below 15 stars.
pub open spec fn valid_stars(stars_milli: int) -> bool {
    0 <= stars_milli < MAX_STARS_MILLI as int
}

/// Rating bracket of a valid rating: the integer floor of the star count.
pub open spec fn spec_bracket(stars_milli: int) -> int {
    stars_milli / (MILLIS_PER_STAR as int)
}

/// A deviation of zero or more means the community rates the song above the
/// prediction.
pub open spec fn spec_direction(diff_milli: int) -> Direction {
    if diff_milli >= 0 {
        Direction::Overrated
    } else {
        Direction::Underrated
    }
}

/// Magnitude split: the absolute deviation below half a star is "a little",
/// from half a star up to a full star "fairly", and from a full star on
/// "very". Zero counts as overrated, so the overrated side owns its
/// boundaries and the underrated side excludes them.
pub open spec fn spec_magnitude(diff_milli: int) -> Magnitude {
    if diff_milli >= 0 {
        if diff_milli < A_LITTLE_LIMIT_MILLI as int {
            Magnitude::ALittle
        } else if diff_milli < VERY_LIMIT_MILLI as int {
            Magnitude::Fairly
        } else {
            Magnitude::Very
        }
    } else {
        if diff_milli > -(A_LITTLE_LIMIT_MILLI as int) {
            Magnitude::ALittle
        } else if diff_milli > -(VERY_LIMIT_MILLI as int) {
            Magnitude::Fairly
        } else {
            Magnitude::Very
        }
    }
}

/// The whole taxonomy: a valid rating maps to the bucket of its bracket and
/// its deviation's direction and magnitude; a rating without a bracket maps
/// to nothing.
pub open spec fn spec_classify(stars_milli: int, diff_milli: int) -> Option<BucketId> {
    if valid_stars(stars_milli) {
        Some(
            BucketId {
                bracket: spec_bracket(stars_milli) as u8,
                direction: spec_direction(diff_milli),
                magnitude: spec_magnitude(diff_milli),
            },
        )
    } else {
        None
    }
}

/// A bucket identifier that one of the 90 playlists answers to.
pub open spec fn valid_bucket(id: BucketId) -> bool {
    0 <= id.bracket < BRACKET_COUNT
}

/// Classify one reading: the bucket for its rating and deviation, or the
/// out-of-range error for a rating without a bracket.
pub fn classify(stars_milli: i64, diff_milli: i64) -> (r: Result<BucketId, RowError>)
    ensures
        r matches Ok(id) ==> spec_classify(stars_milli as int, diff_milli as int) == Some(id),
        r is Ok <==> valid_stars(stars_milli as int),
        r matches Err(e) ==> e == RowError::OutOfRangeRating,
{
    if stars_milli < 0 || stars_milli >= MAX_STARS_MILLI {
        return Err(RowError::OutOfRangeRating);
    }
    let bracket: u8 = (stars_milli / MILLIS_PER_STAR) as u8;
    let direction: Direction = if diff_milli >= 0 {
        Direction::Overrated
    } else {
        Direction::Underrated
    };
    let magnitude: Magnitude = if diff_milli >= 0 {
        if diff_milli < A_LITTLE_LIMIT_MILLI {
            Magnitude::ALittle
        } else if diff_milli < VERY_LIMIT_MILLI {
            Magnitude::Fairly
        } else {
            Magnitude::Very
        }
    } else {
        if diff_milli > -A_LITTLE_LIMIT_MILLI {
            Magnitude::ALittle
        } else if diff_milli > -VERY_LIMIT_MILLI {
            Magnitude::Fairly
        } else {
            Magnitude::Very
        }
    };
    Ok(BucketId { bracket, direction, magnitude })
}

/// The taxonomy is total and deterministic on classifiable inputs: every
/// rating with a bracket maps, with any deviation whatever, to exactly one
/// of the 90 valid bucket identifiers (`spec_classify` is a function, so one
/// input never maps to two), and every rating without a bracket maps to none.
pub proof fn lemma_classify_total(stars_milli: int, diff_milli: int)
    ensures
        valid_stars(stars_milli) <==> spec_classify(stars_milli, diff_milli) is Some,
        spec_classify(stars_milli, diff_milli) matches Some(id) ==> valid_bucket(id),
{
}

} // verus!
