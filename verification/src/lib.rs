//! A word-sequence model: it observes lines of text, records which word
//! follows which two-word context, and can generate a new sentence by
//! sampling from the recorded continuations of a starting word.

pub mod codec;
pub mod error;
pub mod memory;
pub mod text;
pub mod words;

pub use crate::error::Error;
pub use crate::memory::Memory;
pub use crate::words::NextPartList;
pub use crate::words::SentencePart;
pub use crate::words::SentencePartPair;
