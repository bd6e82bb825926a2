//! A small plain-text quiz format and the logic to take a quiz written in it.
//!
//! A document holds quiz-wide options, then question blocks separated by blank lines:
//!
//! ```text
//! ;value: 2
//! ;tutorial: false
//! ---
//! # a comment block, skipped
//!
//! ;case-sensitive: true
//! ?What is the capital of France?
//! +Paris
//!
//! ?Pick the even numbers
//! +2
//! -3
//! +4
//! ```
//!
//! [`quiz::Quiz::parse`] reads a document, [`order`] orders the questions and
//! [`grading`] grades the responses. Every parser is stated exactly over `Seq<char>` by
//! the spec functions next to it, and every error says on which line it arose.

pub mod config;
pub mod grading;
pub mod order;
pub mod points;
pub mod question;
pub mod quiz;
pub mod text;
