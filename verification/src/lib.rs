//! Correction of noisy recognised tokens against a small fixed vocabulary.

pub mod clique;
pub mod database;
pub mod disk;
pub mod index_set;
pub mod match_closest;
pub mod source;
pub mod text;
pub mod word_groups;
