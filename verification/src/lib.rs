//! An RPN calculator core: a tokenizer that turns a line of text into numbers
//! and operators, and a stack evaluator that folds those tokens over a stack
//! of exact rationals with overflow-checked arithmetic.
//!
//! A session evaluates each line against the stack the previous lines built.
//! Evaluation of a line is all or nothing: on the first failing token the
//! whole line is rejected, and the caller carries its previous stack — never
//! a partially updated one — into the next line. Rejected text is discarded,
//! not queued.

pub mod eval;
pub mod parser;
pub mod rational;
