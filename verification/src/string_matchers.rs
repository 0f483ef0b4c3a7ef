//! The metrics, one module each.

pub mod jensen_shannon_vector;
pub mod levenshtein;
pub mod wagner_fischer;
pub mod damerau_levenshtein;
pub mod hamming;
pub mod lcs;
pub mod jaro_winkler;
pub mod ngram;
