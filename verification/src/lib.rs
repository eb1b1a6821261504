//! A ranked-choice polling engine.
//!
//! A poll has an owner, a set of candidates and an expiry. A participant
//! casts a ballot that ranks some of the candidates, best first, and may cast
//! it again to replace the ranking. A reader gets the poll with all its
//! ballots.
//!
//! - [`model`]: the values that callers hand in and get back.
//! - [`db`]: the store, held in memory as four relations, its rows, and the
//!   transactions through which it is read and written. [`db::State`] is its
//!   mathematical model.
//! - [`operations`]: creating a poll, adding a write-in candidate, casting a
//!   ballot and reading a poll, each in one transaction, and the decisions
//!   that they are made of.
//! - [`theorems`]: what follows for sequences of operations.
//! - [`util`], [`ident`]: repeated names, and the shape of a poll id.

mod clock;
pub mod db;
pub mod ident;
pub mod model;
pub mod operations;
pub mod theorems;
pub mod util;
