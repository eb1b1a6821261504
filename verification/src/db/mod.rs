//! The store: four relations held in memory, and the rows they are made of.

use vstd::prelude::*;

use crate::model::Timestamp;
use crate::util::{text_of, views};

pub mod state;
pub mod transaction;

pub use state::State;
pub use transaction::PickyPollTransaction;

verus! {

/// A poll's header row.
#[derive(Debug, PartialEq, Eq)]
pub struct Poll {
    pub id: String,
    pub name: String,
    pub description: Option<String>,
    pub owner_id: String,
    pub expires: Timestamp,
    pub close: Option<Timestamp>,
    pub write_ins: bool,
}

/// The mathematical value of a [`Poll`] row.
pub struct PollView {
    pub id: Seq<char>,
    pub name: Seq<char>,
    pub description: Option<Seq<char>>,
    pub owner_id: Seq<char>,
    pub expires: Timestamp,
    pub close: Option<Timestamp>,
    pub write_ins: bool,
}

impl View for Poll {
    type V = PollView;

    open spec fn view(&self) -> PollView {
        PollView {
            id: self.id@,
            name: self.name@,
            description: text_of(self.description),
            owner_id: self.owner_id@,
            expires: self.expires,
            close: self.close,
            write_ins: self.write_ins,
        }
    }
}

impl Clone for Poll {
    fn clone(&self) -> (copy: Self)
        ensures
            copy == *self,
    {
        Poll {
            id: self.id.clone(),
            name: self.name.clone(),
            description: self.description.clone(),
            owner_id: self.owner_id.clone(),
            expires: self.expires,
            close: self.close,
            write_ins: self.write_ins,
        }
    }
}

/// A candidate row: the id is the one that the store gave it.
#[derive(Debug, PartialEq, Eq)]
pub struct Candidate {
    pub id: i32,
    pub name: String,
    pub description: Option<String>,
}

/// The mathematical value of a [`Candidate`] row.
pub struct CandidateView {
    pub id: i32,
    pub name: Seq<char>,
    pub description: Option<Seq<char>>,
}

impl View for Candidate {
    type V = CandidateView;

    open spec fn view(&self) -> CandidateView {
        CandidateView { id: self.id, name: self.name@, description: text_of(self.description) }
    }
}

impl Clone for Candidate {
    fn clone(&self) -> (copy: Self)
        ensures
            copy == *self,
    {
        Candidate {
            id: self.id,
            name: self.name.clone(),
            description: self.description.clone(),
        }
    }
}

/// A ballot row.
#[derive(Debug, PartialEq, Eq)]
pub struct Ballot {
    pub id: String,
    pub name: String,
    pub timestamp: Timestamp,
    pub owner_id: String,
}

/// The mathematical value of a [`Ballot`] row.
pub struct BallotView {
    pub id: Seq<char>,
    pub name: Seq<char>,
    pub timestamp: Timestamp,
    pub owner_id: Seq<char>,
}

impl View for Ballot {
    type V = BallotView;

    open spec fn view(&self) -> BallotView {
        BallotView {
            id: self.id@,
            name: self.name@,
            timestamp: self.timestamp,
            owner_id: self.owner_id@,
        }
    }
}

impl Clone for Ballot {
    fn clone(&self) -> (copy: Self)
        ensures
            copy == *self,
    {
        Ballot {
            id: self.id.clone(),
            name: self.name.clone(),
            timestamp: self.timestamp,
            owner_id: self.owner_id.clone(),
        }
    }
}

/// A ranking row: the ballot gives the candidate the position `ranking`,
/// counted from zero.
#[derive(Debug, PartialEq, Eq)]
pub struct Ranking {
    pub ballot_id: String,
    pub poll_id: String,
    pub candidate_id: i32,
    pub ranking: i16,
}

/// The mathematical value of a [`Ranking`] row.
pub struct RankingView {
    pub ballot_id: Seq<char>,
    pub poll_id: Seq<char>,
    pub candidate_id: i32,
    pub ranking: i16,
}

impl View for Ranking {
    type V = RankingView;

    open spec fn view(&self) -> RankingView {
        RankingView {
            ballot_id: self.ballot_id@,
            poll_id: self.poll_id@,
            candidate_id: self.candidate_id,
            ranking: self.ranking,
        }
    }
}

impl Clone for Ranking {
    fn clone(&self) -> (copy: Self)
        ensures
            copy == *self,
    {
        Ranking {
            ballot_id: self.ballot_id.clone(),
            poll_id: self.poll_id.clone(),
            candidate_id: self.candidate_id,
            ranking: self.ranking,
        }
    }
}

/// A candidate row together with the poll it belongs to.
pub(crate) struct CandidateEntry {
    pub poll_id: String,
    pub candidate: Candidate,
}

/// The mathematical value of a [`CandidateEntry`].
pub struct CandidateEntryView {
    pub poll_id: Seq<char>,
    pub candidate: CandidateView,
}

impl View for CandidateEntry {
    type V = CandidateEntryView;

    closed spec fn view(&self) -> CandidateEntryView {
        CandidateEntryView { poll_id: self.poll_id@, candidate: self.candidate@ }
    }
}

impl Clone for CandidateEntry {
    fn clone(&self) -> (copy: Self)
        ensures
            copy == *self,
    {
        CandidateEntry { poll_id: self.poll_id.clone(), candidate: self.candidate.clone() }
    }
}

/// A ballot row together with the poll it belongs to.
pub(crate) struct BallotEntry {
    pub poll_id: String,
    pub ballot: Ballot,
}

/// The mathematical value of a [`BallotEntry`].
pub struct BallotEntryView {
    pub poll_id: Seq<char>,
    pub ballot: BallotView,
}

impl View for BallotEntry {
    type V = BallotEntryView;

    closed spec fn view(&self) -> BallotEntryView {
        BallotEntryView { poll_id: self.poll_id@, ballot: self.ballot@ }
    }
}

impl Clone for BallotEntry {
    fn clone(&self) -> (copy: Self)
        ensures
            copy == *self,
    {
        BallotEntry { poll_id: self.poll_id.clone(), ballot: self.ballot.clone() }
    }
}

/// Why the store refused a write.
#[derive(Clone, Copy, Debug, PartialEq, Eq, Structural)]
pub enum StorageError {
    /// A row with the same key is already there.
    Conflict,
    /// The row names a poll that the store does not hold.
    MissingPoll,
    /// The store has no candidate id left to give.
    IdsExhausted,
}

/// Whether the SQLSTATE of a refused write is that of a unique violation:
/// a row with the same key is already there.
pub fn is_unique_violation(sqlstate: &str) -> (conflict: bool)
    ensures
        conflict == (sqlstate@ == "23505"@),
{
    let given: String = sqlstate.to_owned();
    let unique: String = "23505".to_owned();
    given == unique
}

/// The four relations, as the store and a transaction hold them.
pub(crate) struct Tables {
    pub polls: Vec<Poll>,
    pub candidates: Vec<CandidateEntry>,
    pub ballots: Vec<BallotEntry>,
    pub rankings: Vec<Ranking>,
    pub next_candidate_id: i32,
}

impl View for Tables {
    type V = State;

    closed spec fn view(&self) -> State {
        State {
            polls: views(self.polls@),
            candidates: views(self.candidates@),
            ballots: views(self.ballots@),
            rankings: views(self.rankings@),
            next_candidate_id: self.next_candidate_id,
        }
    }
}

impl Clone for Tables {
    fn clone(&self) -> (copy: Self)
        ensures
            copy@ == self@,
    {
        let copy = Tables {
            polls: self.polls.clone(),
            candidates: self.candidates.clone(),
            ballots: self.ballots.clone(),
            rankings: self.rankings.clone(),
            next_candidate_id: self.next_candidate_id,
        };
        assert(copy.polls@ =~= self.polls@);
        assert(copy.candidates@ =~= self.candidates@);
        assert(copy.ballots@ =~= self.ballots@);
        assert(copy.rankings@ =~= self.rankings@);
        copy
    }
}

/// The store: what has been committed.
pub struct PickyDb {
    tables: Tables,
}

impl View for PickyDb {
    type V = State;

    closed spec fn view(&self) -> State {
        self.tables@
    }
}

impl PickyDb {
    /// What holds of every store: its polls, candidates and ballots keep
    /// the rules of [`State::wf`].
    #[verifier::type_invariant]
    pub open spec fn valid(self) -> bool {
        self@.wf()
    }

    /// An empty store; the first candidate id it gives is 1.
    pub fn new() -> (db: PickyDb)
        ensures
            db@ == State::empty(),
            db@.wf(),
            db@.rankings_consistent(),
    {
        let db = PickyDb {
            tables: Tables {
                polls: Vec::new(),
                candidates: Vec::new(),
                ballots: Vec::new(),
                rankings: Vec::new(),
                next_candidate_id: 1,
            },
        };
        assert(db@ =~= State::empty()) by {
            assert(db@.polls =~= Seq::empty());
            assert(db@.candidates =~= Seq::empty());
            assert(db@.ballots =~= Seq::empty());
            assert(db@.rankings =~= Seq::empty());
        }
        db
    }

    /// Opens a transaction on a snapshot of the store: the store itself
    /// changes only when the transaction is committed.
    pub fn new_transaction(&self) -> (tx: PickyPollTransaction)
        ensures
            tx@ == self@,
            self@.wf(),
    {
        proof {
            use_type_invariant(self);
        }
        PickyPollTransaction::new(self.tables.clone())
    }

    /// Replaces the store's contents with those of a finished transaction.
    pub(crate) fn install(&mut self, tables: Tables)
        requires
            tables@.wf(),
        ensures
            final(self)@ == tables@,
    {
        self.tables = tables;
    }
}

} // verus!
