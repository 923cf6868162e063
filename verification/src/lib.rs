//! Bangla Unicode text normalization: word-level normalization of Bangla
//! words and sentence-level normalization of mixed text.

pub mod langs;
pub mod text;
pub mod word;
pub mod sentence;
