//! The operations of the engine: create a poll, add a write-in candidate,
//! cast a ballot, read a poll.

use vstd::prelude::*;

use crate::db::{PickyDb, State};

pub mod aggregate;
pub mod ballots;
pub mod errors;
pub mod polls;
pub mod resolver;

pub use errors::{GetPollError, PostCandidateError, PostPollError, PutBallotError};

verus! {

/// The engine: the operations, on the store that they read and write.
pub struct PollOperations {
    db: PickyDb,
}

impl View for PollOperations {
    type V = State;

    closed spec fn view(&self) -> State {
        self.db@
    }
}

impl PollOperations {
    /// The operations on this store.
    pub fn new(db: PickyDb) -> (operations: PollOperations)
        ensures
            operations@ == db@,
    {
        PollOperations { db }
    }
}

} // verus!
