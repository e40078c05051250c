//! Retrieval core for question answering over documents.
//!
//! Documents are cut into chunks of whole sentences (`chunk`, `window`,
//! `document`), the chunks are indexed for lexical search (`embedder`,
//! `sparse`, `bow`, `overlap`), lexical scores are fused with the
//! similarities of a dense retriever into one ranking (`hybrid`, `dense`),
//! and a query is refined over several rounds of retrieval (`keywords`,
//! `refine`). Around a
//! generated answer, `answer` decides how much context fits and what a
//! response cites.
//!
//! Scores are fixed-point numbers: a `u64` that counts millionths (`score`).
//! Numbers that arrive in single precision are read from their bit patterns.
//! Every public function states what it returns over the mathematical model
//! of its arguments, and the laws that hold between functions are proved
//! beside them.

pub mod text;
pub mod decimal;
pub mod score;
pub mod chunk;
pub mod window;
pub mod document;
pub mod timestamp;
pub mod embedder;
pub mod sparse;
pub mod bow;
pub mod overlap;
pub mod hybrid;
pub mod dense;
pub mod keywords;
pub mod refine;
pub mod answer;
pub mod samples;
