//! Near-duplicate detection over file names: tokenize names into word
//! n-grams, score every pair of files by the cosine similarity of their
//! token sets, and rank the pairs that exceed a threshold.

pub mod config;
pub mod filter;
pub mod pairs;
pub mod rank;
pub mod report;
pub mod scan;
pub mod similarity;
pub mod text;
pub mod tokens;
pub mod wide;
