//! Win/draw/loss statistics for chess games, bucketed by the rounded rating
//! difference between the two players.
//!
//! A record file is newline-delimited text in which tag lines (starting
//! with `[`) carry a double-quoted value and any other line terminates the
//! current game record. [`calculate`] scans one file's bytes in a single
//! pass: a `[TimeControl` tag decides whether the upcoming game qualifies
//! (estimated length `initial + 40 * increment` of at least 480), rating
//! and result tags fill the pending state, and the record terminator
//! classifies the game — unless it is discarded as non-qualifying,
//! unfinished, or played between equally rated players — into the bucket
//! `round_rating(higher) - round_rating(lower)`, counting the outcome from
//! the lower-rated player's side. [`calculate_from_files`] folds any number
//! of files into one [`WDLData`] with a merge that is proved associative
//! and commutative, so the file order never changes the tallies. Malformed
//! tag values end a run with an error naming the offending place.

mod dataset;
mod parse;
mod rounding;
mod scan;

pub use dataset::Datapoint;
pub use dataset::Dataset;
pub use dataset::WDLData;
pub use parse::MalformedInput;
pub use parse::timecontrol_qualifies;
pub use rounding::round_rating;
pub use scan::BatchError;
pub use scan::GameResult;
pub use scan::ScanError;
pub use scan::calculate;
pub use scan::calculate_from_files;
