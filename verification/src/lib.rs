//! Unigram subword segmentation over a scored piece vocabulary.
//!
//! A model holds pieces with fixed-point scores; `tokenize` splits an input
//! string into the piece sequence of maximum total score by a Viterbi pass
//! over character boundaries, with single-character fallback edges for
//! characters no piece covers. The segmentation lattice and its laws live in
//! [`seg`]; [`basic`] backs the piece lookup with an exact-match list and a
//! per-character trie, [`dart`] with a compressed double-array trie.

pub mod seg;
pub mod basic;
pub mod dart;
