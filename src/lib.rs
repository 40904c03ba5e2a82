//! A patch stack kept on top of a commit graph.
//!
//! - `stack`: the stack model (applied, unapplied and hidden patches over a
//!   base commit), its invariant, and the pop, delete and push operations on it.
//! - `transaction`: the transaction engine that changes a working copy of a
//!   stack and commits it at once; pushes run as a step machine whose merges are
//!   done by the caller.
//! - `squash`: the squash algorithm: selection checks, the tree composition
//!   plan, author reconciliation and message composition, and its transaction
//!   steps.
//! - `signature`: signatures, and counting and ordering of co-authors.
//! - `manpage`, `color`, `command`: the text logic of manual pages, `--color`
//!   parsing, and command helpers.
//! - `text`, `oid`, `error`: text helpers, object ids, errors.

pub mod color;
pub mod command;
pub mod error;
pub mod manpage;
pub mod oid;
pub mod signature;
pub mod squash;
pub mod stack;
pub mod text;
pub mod transaction;
