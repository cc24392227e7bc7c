//! Extractive text summarization.
//!
//! A text is cut into sentences, the words of every sentence are numbered
//! by one vocabulary for the whole text, and the distinct words that two
//! sentences share weigh the link between them. From scores that rate the
//! sentences, the best are chosen and joined in reading order.
//!
//! The library works in integers throughout. Between the two halves of
//! the pipeline the caller turns the link weights into one score for each
//! sentence, see [`Document::overlaps`](document::Document::overlaps) and
//! [`Summarizer::fit`]. The usual scores take the relevance of two linked
//! sentences to be the weight of their link divided by the sum of the
//! decimal logarithms of their lengths, and rate a sentence by the damped
//! share of its relevances in the sum of all relevances. The library only
//! asks that a better sentence gets a greater number.

pub mod document;
pub mod error;
pub mod language;
pub mod overlap;
pub mod segment;
pub mod select;
pub mod summarizer;
pub mod vocabulary;

pub use document::Document;
pub use error::SumError;
pub use language::Language;
pub use summarizer::Summarizer;
pub use vocabulary::Vocabulary;
