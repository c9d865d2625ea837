//! Fuzzy resolution engine for a catalog of deployment templates.
//!
//! A user-supplied, possibly misspelled or case-mismatched query is resolved
//! against a candidate set of application or author names. Resolution first
//! looks for a case-insensitive exact hit and otherwise ranks the candidates
//! by Jaro-Winkler similarity against a fixed cutoff, classifying the outcome
//! as an exact match, a unique fuzzy match, an ambiguous match, or no match.

pub mod dispatch;
pub mod resolver;
pub mod scoring;
pub mod selector;
