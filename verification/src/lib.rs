//! A Wordle-solving aid: a candidate word list that is progressively
//! narrowed by letter constraints taken from Wordle feedback (excluded
//! letters, correct-position letters, and present-but-misplaced letters).
//!
//! The engine lives in [`wordle`]; [`seqs`] holds the general sequence
//! lemmas (order-preserving subsequences, filtering) that the engine's
//! contracts are stated and proved with.

pub mod seqs;
pub mod wordle;

pub use wordle::PatternLengthError;
pub use wordle::WordleWords;
