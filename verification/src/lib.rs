//! Dictionary-driven transliteration of Japanese text into phonemic strings.
//!
//! The library is built around a character-keyed prefix tree: a phoneme
//! dictionary maps Japanese surface strings to phoneme strings by greedy
//! longest-match scanning, a word dictionary splits unsegmented text into
//! word-sized tokens, and a furigana parser resolves bracketed reading hints
//! before segmentation.

pub mod chars;
pub mod strutil;
pub mod converter;
pub mod furigana;
pub mod json;
pub mod pipeline;
pub mod segmenter;
pub mod trie;
