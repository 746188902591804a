//! Recover word boundaries in text whose spaces have been stripped.
//!
//! The segmenter finds the split of a run of lowercase text into dictionary
//! words that maximizes a statistical language-model score.  Scores are
//! base-10 logarithms of relative word frequencies, held in Q20 fixed-point
//! form (20 fractional bits) so that the whole search is exact integer
//! arithmetic.

use vstd::prelude::*;

pub mod ascii;
pub mod engine;
pub mod fixlog;
pub mod laws;
pub mod loader;
pub mod model;
pub mod splitset;
pub mod table;

pub use ascii::Ascii;
pub use ascii::InvalidCharacter;
pub use engine::check_segments;
pub use engine::Search;
pub use model::Segmenter;

verus! {

/// Conventional location of the bundled frequency data, relative to the
/// workspace root.
pub fn crate_data_dir() -> (r: &'static str)
    ensures
        r@ == "data"@,
{
    proof {
        reveal_strlit("data");
    }
    "data"
}

} // verus!
