//! Approximate lookup of canonical street addresses from noisy free-text
//! input, against a partitioned reference corpus of official street names.
//!
//! The crate normalizes raw address strings into comparison keys, scores
//! targets against candidates with a selectable string-similarity metric,
//! keeps the top-scoring candidates above a sensitivity threshold, and
//! orchestrates a location-scoped corpus search with a full-corpus
//! fallback.  Similarity is held as a fixed-point fraction of
//! [`candidate::SCALE`].

pub mod candidate;
pub mod guess;
pub mod jaro;
pub mod metrics;
pub mod text;
pub mod text_sim;

pub use candidate::{Candidate, Error, Sens, SimResult, Text};
pub use guess::{
    find_match, find_matches, Corpus, Location, MatchResult, Place, Plz, Street, StreetConfig,
    StreetFile,
};
pub use metrics::StringMetric;
pub use text_sim::Config;
