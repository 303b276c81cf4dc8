//! Verified classification engine for ranked rhythm-game levels.
//!
//! The library groups a pre-ordered stream of level records into runs by song
//! identity, resolves a predicted star rating per (characteristic, difficulty)
//! key through a memoized per-run table, computes the signed deviation between
//! the community rating and the prediction, buckets each song into one of 90
//! over/under-rated playlists, and sorts every playlist most-extreme-first.
//!
//! All ratings are carried as integer thousandths of a star ("milli-stars"),
//! so every rule of the engine is stated and proved over plain integers.
//! Fetching the record table, evaluating the prediction model, and writing
//! the playlist archive are the caller's business.

pub mod engine;
pub mod playlist;
pub mod prediction;
pub mod record;
pub mod sort;
pub mod taxonomy;
