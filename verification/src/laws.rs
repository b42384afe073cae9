//! What holds of the tokenizer as a whole.
pub mod codec;
pub mod round_trip;
pub mod runs;
pub mod sequences;
pub mod stream;
pub mod texts;
pub mod vocabulary;
