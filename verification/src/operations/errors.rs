//! What the operations answer when they refuse a request.

use vstd::prelude::*;

use crate::db::StorageError;

verus! {

/// Why a poll was not created.
#[derive(Debug, PartialEq, Eq)]
pub enum PostPollError {
    /// Two candidates of the request share this name.
    DuplicateCandidate(String),
    /// The store refused a write.
    Unexpected,
}

/// The mathematical value of a [`PostPollError`].
pub enum PostPollFault {
    DuplicateCandidate(Seq<char>),
    Unexpected,
}

impl View for PostPollError {
    type V = PostPollFault;

    open spec fn view(&self) -> PostPollFault {
        match self {
            PostPollError::DuplicateCandidate(name) => PostPollFault::DuplicateCandidate(name@),
            PostPollError::Unexpected => PostPollFault::Unexpected,
        }
    }
}

/// Why a write-in candidate was not added.
#[derive(Debug, PartialEq, Eq)]
pub enum PostCandidateError {
    /// The store holds no poll with this id.
    PollNotFound,
    /// The poll takes no write-in candidates.
    NoWriteIns,
    /// The poll already has a candidate of this name.
    DuplicateCandidate(String),
    /// The store refused a write.
    Unexpected,
}

/// The mathematical value of a [`PostCandidateError`].
pub enum PostCandidateFault {
    PollNotFound,
    NoWriteIns,
    DuplicateCandidate(Seq<char>),
    Unexpected,
}

impl View for PostCandidateError {
    type V = PostCandidateFault;

    open spec fn view(&self) -> PostCandidateFault {
        match self {
            PostCandidateError::PollNotFound => PostCandidateFault::PollNotFound,
            PostCandidateError::NoWriteIns => PostCandidateFault::NoWriteIns,
            PostCandidateError::DuplicateCandidate(name) => PostCandidateFault::DuplicateCandidate(
                name@,
            ),
            PostCandidateError::Unexpected => PostCandidateFault::Unexpected,
        }
    }
}

/// Why a poll was not read.
#[derive(Clone, Copy, Debug, PartialEq, Eq, Structural)]
pub enum GetPollError {
    /// The store holds no poll with this id.
    NotFound,
    /// The store refused a read.
    Unexpected,
}

/// Why a ballot was not written.
#[derive(Debug, PartialEq, Eq)]
pub enum PutBallotError {
    /// The ballot ranks this name, which is no candidate of the poll.
    CandidateNotFound(String),
    /// The ballot ranks this name twice.
    DuplicateRanking(String),
    /// The store holds no poll with this id.
    PollNotFound,
    /// The ballot exists and belongs to someone else.
    NotOwner,
    /// The ballot exists under another display name.
    NotSameName,
    /// The store refused a write.
    Unexpected,
}

/// The mathematical value of a [`PutBallotError`].
pub enum PutBallotFault {
    CandidateNotFound(Seq<char>),
    DuplicateRanking(Seq<char>),
    PollNotFound,
    NotOwner,
    NotSameName,
    Unexpected,
}

impl View for PutBallotError {
    type V = PutBallotFault;

    open spec fn view(&self) -> PutBallotFault {
        match self {
            PutBallotError::CandidateNotFound(name) => PutBallotFault::CandidateNotFound(name@),
            PutBallotError::DuplicateRanking(name) => PutBallotFault::DuplicateRanking(name@),
            PutBallotError::PollNotFound => PutBallotFault::PollNotFound,
            PutBallotError::NotOwner => PutBallotFault::NotOwner,
            PutBallotError::NotSameName => PutBallotFault::NotSameName,
            PutBallotError::Unexpected => PutBallotFault::Unexpected,
        }
    }
}

/// Why a write-in candidate was not added, where the store refused the
/// write: a conflict says that the poll has a candidate of this name by now,
/// a missing poll that the poll is gone, anything else is unexpected.
pub open spec fn write_in_fault(refusal: StorageError, name: Seq<char>) -> PostCandidateFault {
    match refusal {
        StorageError::Conflict => PostCandidateFault::DuplicateCandidate(name),
        StorageError::MissingPoll => PostCandidateFault::PollNotFound,
        StorageError::IdsExhausted => PostCandidateFault::Unexpected,
    }
}

/// Tells the caller of a write-in why the store refused it.
pub fn write_in_failure(refusal: StorageError, name: &String) -> (error: PostCandidateError)
    ensures
        error@ == write_in_fault(refusal, name@),
{
    match refusal {
        StorageError::Conflict => PostCandidateError::DuplicateCandidate(name.clone()),
        StorageError::MissingPoll => PostCandidateError::PollNotFound,
        StorageError::IdsExhausted => PostCandidateError::Unexpected,
    }
}

} // verus!
