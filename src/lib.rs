//! A Nock interpreter: nouns, tree addressing and editing, increment, and an
//! evaluator that keeps all pending work on an explicit stack of frames.
//!
//! `semantics` states what a formula means as derivations of big-step rules;
//! `interpreter::interpret` is proved to return only results those rules give.

pub mod noun;
pub mod error;
pub mod axis;
pub mod semantics;
pub mod interpreter;
