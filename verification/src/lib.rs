//! Detection of all pairs of short byte strings whose Levenshtein distance is
//! at most a threshold, by symmetric-deletion indexing followed by an exact
//! distance check of every candidate pair.
//!
//! The entry points are `symdel_within` and `symdel_cross` for one-off
//! searches and `CachedRef` for a reference that is searched many times.
//! Each returns a `SparseDistMatrix` that lists exactly the neighbor pairs;
//! `laws` states what follows from that.

pub mod arith;
pub mod cached;
pub mod candidates;
pub mod combinations;
pub mod error;
pub mod hits;
pub mod index;
pub mod input;
pub mod laws;
pub mod levenshtein;
pub mod order;
pub mod output;
pub mod parallel;
pub mod span;
pub mod symdel;
pub mod table;
pub mod utils;
pub mod variants;

pub use crate::cached::CachedRef;
pub use crate::error::{Error, InputType};
pub use crate::input::{check_strings_ascii, get_input_lines_as_ascii};
pub use crate::hits::{collect_true_hits, compute_dists, get_true_hits, SparseDistMatrix};
pub use crate::output::write_true_results;
pub use crate::symdel::{get_candidates_cross, get_candidates_within, symdel_cross, symdel_within};
pub use crate::utils::{CrossIndex, MaxDistance};
