//! A word-level tokenizer over a whitelist of words.
//!
//! # Token id layout
//!
//! Ids are deterministic. In this order they are given to the fixed tokens
//! (punctuation, space, line break, the suffix `'s`), to the whole
//! contractions, to the words of the word list in file order, and to the
//! special tokens.
//!
//! # Spacing model
//!
//! The pretokenizer emits white space as explicit items, one for each line
//! break and one for each other white-space character. The encoder writes
//! each of them out as a token, with one exception: the first space between
//! two words is implicit. An unknown counts as a word, and so does the suffix
//! `'s` for the space after it. Punctuation never takes an implicit space:
//! every space before and after it is written out. The decoder puts the
//! implicit spaces back.
//!
//! # Word list
//!
//! One word per line, file order preserved. Lines that start with `#` and
//! blank lines are ignored, and so is a word that is not made of ASCII
//! letters.
pub mod cli;
pub mod commands;
pub mod counting;
pub mod frames;
pub mod laws;
mod parallel;
pub mod splitter;
pub mod stream;
pub mod text;
pub mod tokenizer;
pub mod vocab;

pub use crate::stream::{pretokenize, StreamItem};
pub use crate::tokenizer::{VocabularyError, WhitelistTokenizer};
pub use crate::vocab::{
    CONTRACTION_SUFFIXES, NEWLINE_TOKEN, PUNCT_TOKENS, SPACE_TOKEN, SPECIAL_TOKENS,
    WHOLE_CONTRACTIONS,
};
