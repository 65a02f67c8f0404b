//! First-word scanning over text, with the small ownership and borrowing
//! helpers that accompany it.
//!
//! A "word" here is delimited by the single ASCII space byte `0x20` and by
//! nothing else.

pub mod borrow;
pub mod numbers;
pub mod words;
