//! The values that callers hand to the engine and get back from it.

use vstd::prelude::*;

use crate::util::{text_of, views};

verus! {

/// A point in time, in microseconds since the Unix epoch.
#[derive(Clone, Copy, Debug, PartialEq, Eq, Structural)]
pub struct Timestamp {
    pub micros: i64,
}

/// How long a poll lives: seven days, in microseconds.
pub const POLL_LIFETIME_MICROS: i64 = 604_800_000_000;

/// A candidate as callers name it: no storage id.
#[derive(Debug, PartialEq, Eq)]
pub struct Candidate {
    pub name: String,
    pub description: Option<String>,
}

/// The mathematical value of a [`Candidate`].
pub struct CandidateView {
    pub name: Seq<char>,
    pub description: Option<Seq<char>>,
}

impl View for Candidate {
    type V = CandidateView;

    open spec fn view(&self) -> CandidateView {
        CandidateView { name: self.name@, description: text_of(self.description) }
    }
}

impl Clone for Candidate {
    fn clone(&self) -> (copy: Self)
        ensures
            copy == *self,
    {
        Candidate { name: self.name.clone(), description: self.description.clone() }
    }
}

/// How a poll is configured.
#[derive(Clone, Copy, Debug, PartialEq, Eq, Structural)]
pub struct Configuration {
    pub write_ins: bool,
}

/// The request that creates a poll.
#[derive(Debug)]
pub struct PostPollRequest {
    pub name: String,
    pub description: Option<String>,
    pub configuration: Configuration,
    pub candidates: Vec<Candidate>,
}

/// A poll as it is shown to callers.
#[derive(Debug)]
pub struct Poll {
    pub id: String,
    pub name: String,
    pub description: Option<String>,
    pub expires: Timestamp,
    pub close: Option<Timestamp>,
    pub candidates: Vec<Candidate>,
    pub configuration: Configuration,
}

/// The mathematical value of a [`Poll`].
pub struct PollView {
    pub id: Seq<char>,
    pub name: Seq<char>,
    pub description: Option<Seq<char>>,
    pub expires: Timestamp,
    pub close: Option<Timestamp>,
    pub candidates: Seq<CandidateView>,
    pub configuration: Configuration,
}

impl View for Poll {
    type V = PollView;

    open spec fn view(&self) -> PollView {
        PollView {
            id: self.id@,
            name: self.name@,
            description: text_of(self.description),
            expires: self.expires,
            close: self.close,
            candidates: views(self.candidates@),
            configuration: self.configuration,
        }
    }
}

/// One ballot of a poll, with the names of the candidates it ranks, best first.
#[derive(Debug)]
pub struct BallotSummary {
    pub id: String,
    pub timestamp: Timestamp,
    pub name: String,
    pub rankings: Vec<String>,
}

/// The mathematical value of a [`BallotSummary`].
pub struct BallotSummaryView {
    pub id: Seq<char>,
    pub timestamp: Timestamp,
    pub name: Seq<char>,
    pub rankings: Seq<Seq<char>>,
}

impl View for BallotSummary {
    type V = BallotSummaryView;

    open spec fn view(&self) -> BallotSummaryView {
        BallotSummaryView {
            id: self.id@,
            timestamp: self.timestamp,
            name: self.name@,
            rankings: views(self.rankings@),
        }
    }
}

/// The aggregated view of a poll: its header, its candidates and its ballots.
#[derive(Debug)]
pub struct GetPollResponse {
    pub poll: Poll,
    pub ballots: Vec<BallotSummary>,
}

/// The mathematical value of a [`GetPollResponse`].
pub struct GetPollResponseView {
    pub poll: PollView,
    pub ballots: Seq<BallotSummaryView>,
}

impl View for GetPollResponse {
    type V = GetPollResponseView;

    open spec fn view(&self) -> GetPollResponseView {
        GetPollResponseView { poll: self.poll@, ballots: views(self.ballots@) }
    }
}

/// The answer to a poll's creation.
#[derive(Debug)]
pub struct PostPollResponse {
    pub poll: Poll,
}

impl View for PostPollResponse {
    type V = PollView;

    open spec fn view(&self) -> PollView {
        self.poll@
    }
}

/// The request that casts or refreshes a ballot.
#[derive(Debug)]
pub struct PutBallotRequest {
    pub name: String,
    pub rankings: Vec<String>,
}

/// Who a caller is: an opaque token, compared character by character.
#[derive(Debug)]
pub enum Identity {
    SecretKey(String),
}

impl Identity {
    /// The token's characters.
    pub open spec fn token(&self) -> Seq<char> {
        match self {
            Identity::SecretKey(key) => key@,
        }
    }
}

} // verus!
