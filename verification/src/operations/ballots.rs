//! Casting a ballot: one ballot row per poll and ballot id, and its ranking
//! rows replaced as a whole.

use vstd::prelude::*;

use crate::clock::current_time;
use crate::db::{Ballot, BallotView, PickyPollTransaction, Poll, RankingView, State};
use crate::model::{Identity, PutBallotRequest, Timestamp};
use crate::operations::errors::{PutBallotError, PutBallotFault};
use crate::operations::resolver::{
    placed_count, ranking_rows, resolution_fault, resolve_ranking, unplaceable,
};
use crate::operations::PollOperations;
use crate::theorems::put_ballot_keeps_rankings_consistent;
use crate::util::{first_duplicate, first_duplicate_of, lemma_first_index_is, views};

verus! {

/// What is done to the ballot row when a ballot is cast.
#[derive(Clone, Copy, Debug, PartialEq, Eq, Structural)]
pub enum BallotWrite {
    /// No row exists yet: one is inserted.
    Create,
    /// The caller's own row exists under the same name: it gets a new timestamp.
    Refresh,
}

/// What is done to the ballot row, given the row that the store holds: a
/// ballot of another owner is not touched, nor one under another name.
pub open spec fn ballot_write_of(
    previous: Option<BallotView>,
    ballot: BallotView,
) -> Result<BallotWrite, PutBallotFault> {
    match previous {
        None => Ok(BallotWrite::Create),
        Some(row) => if row.owner_id != ballot.owner_id {
            Err(PutBallotFault::NotOwner)
        } else if row.name != ballot.name {
            Err(PutBallotFault::NotSameName)
        } else {
            Ok(BallotWrite::Refresh)
        },
    }
}

/// Decides what is done to the ballot row.
pub fn decide_ballot_write(
    previous: &Option<Ballot>,
    ballot: &Ballot,
) -> (result: Result<BallotWrite, PutBallotError>)
    ensures
        match (result, ballot_write_of(
            match previous {
                Some(row) => Some(row@),
                None => None,
            },
            ballot@,
        )) {
            (Ok(done), Ok(due)) => done == due,
            (Err(e), Err(fault)) => e@ == fault,
            _ => false,
        },
{
    match previous {
        None => Ok(BallotWrite::Create),
        Some(row) => {
            if row.owner_id != ballot.owner_id {
                Err(PutBallotError::NotOwner)
            } else if row.name != ballot.name {
                Err(PutBallotError::NotSameName)
            } else {
                Ok(BallotWrite::Refresh)
            }
        },
    }
}

/// The store after ranking rows were added.
pub open spec fn with_rankings(state: State, rows: Seq<RankingView>) -> State {
    State { rankings: state.rankings + rows, ..state }
}

/// Why a ballot is refused: a name ranked twice, before anything is read;
/// then a poll that the store does not hold; then a ballot row of another
/// owner or under another name; then a name that gets no ranking row. `None`
/// when the ballot is accepted.
pub open spec fn put_ballot_fault(
    state: State,
    poll_id: Seq<char>,
    ballot: BallotView,
    names: Seq<Seq<char>>,
) -> Option<PutBallotFault> {
    if first_duplicate_of(names).is_some() {
        Some(PutBallotFault::DuplicateRanking(first_duplicate_of(names).unwrap()))
    } else if state.poll(poll_id).is_none() {
        Some(PutBallotFault::PollNotFound)
    } else if ballot_write_of(state.ballot(poll_id, ballot.id), ballot).is_err() {
        Some(ballot_write_of(state.ballot(poll_id, ballot.id), ballot).unwrap_err())
    } else {
        resolution_fault(state.candidates_of(poll_id), names)
    }
}

/// The store after a ballot was accepted: the ballot row is new or has the
/// new timestamp, the ballot's old ranking rows are gone, and its new ones
/// stand at the end, one per name, in the order of the names.
pub open spec fn put_ballot_state(
    state: State,
    poll_id: Seq<char>,
    ballot: BallotView,
    names: Seq<Seq<char>>,
) -> State {
    let written = if state.ballot(poll_id, ballot.id).is_none() {
        state.with_ballot(poll_id, ballot)
    } else {
        state.with_ballot_touched(poll_id, ballot)
    };
    with_rankings(
        written.without_rankings(poll_id, ballot.id),
        ranking_rows(
            state.candidates_of(poll_id),
            poll_id,
            ballot.id,
            names,
            names.len() as int,
        ),
    )
}

/// The ballot row that a request stands for.
pub open spec fn ballot_of(
    ballot_id: Seq<char>,
    user_id: Identity,
    request: PutBallotRequest,
    now: Timestamp,
) -> BallotView {
    BallotView { id: ballot_id, name: request.name@, timestamp: now, owner_id: user_id.token() }
}

/// Hands the poll on if it was found.
pub fn poll_to_vote_in(found: Option<Poll>) -> (result: Result<Poll, PutBallotError>)
    ensures
        match result {
            Ok(poll) => found == Some(poll),
            Err(e) => found.is_none() && e@ == PutBallotFault::PollNotFound,
        },
{
    match found {
        None => Err(PutBallotError::PollNotFound),
        Some(poll) => Ok(poll),
    }
}

/// The ballot row that a request stands for, cast at the moment `now`.
pub fn new_ballot_row(
    ballot_id: &str,
    user_id: &Identity,
    request: &PutBallotRequest,
    now: Timestamp,
) -> (row: Ballot)
    ensures
        row@ == ballot_of(ballot_id@, *user_id, *request, now),
{
    let owner_id = match user_id {
        Identity::SecretKey(key) => key,
    };
    Ballot {
        id: ballot_id.to_owned(),
        name: request.name.clone(),
        timestamp: now,
        owner_id: owner_id.clone(),
    }
}

impl PollOperations {
    /// Resolves the names to the poll's candidates and adds one ranking row
    /// per name to the transaction, the position of each being its index.
    /// Stops at the first name that gets no row: the rows of the names before
    /// it have been added then.
    pub fn insert_rankings(
        &self,
        tx: &mut PickyPollTransaction,
        poll_id: &str,
        ballot_id: &str,
        rankings: &Vec<String>,
    ) -> (result: Result<(), PutBallotError>)
        ensures
            final(tx)@ == with_rankings(
                old(tx)@,
                ranking_rows(
                    old(tx)@.candidates_of(poll_id@),
                    poll_id@,
                    ballot_id@,
                    views(rankings@),
                    placed_count(old(tx)@.candidates_of(poll_id@), views(rankings@)),
                ),
            ),
            match result {
                Ok(()) => resolution_fault(
                    old(tx)@.candidates_of(poll_id@),
                    views(rankings@),
                ).is_none(),
                Err(e) => resolution_fault(old(tx)@.candidates_of(poll_id@), views(rankings@))
                    == Some(e@),
            },
            old(tx)@.wf() ==> final(tx)@.wf(),
    {
        let candidates = tx.select_candidates(poll_id);
        let ghost before = tx@;
        let ghost known = views(candidates@);
        let ghost names = views(rankings@);
        let ghost bad = unplaceable(known, names);
        let mut i: usize = 0;
        assert(tx@ == with_rankings(before, ranking_rows(known, poll_id@, ballot_id@, names, 0)))
            by {
            assert(before.rankings + ranking_rows(known, poll_id@, ballot_id@, names, 0)
                =~= before.rankings);
        }
        while i < rankings.len()
            invariant
                i <= rankings.len(),
                before == old(tx)@,
                known == views(candidates@),
                known == before.candidates_of(poll_id@),
                names == views(rankings@),
                bad == unplaceable(known, names),
                forall|k: int| 0 <= k < i ==> !#[trigger] bad(k),
                tx@ == with_rankings(
                    before,
                    ranking_rows(known, poll_id@, ballot_id@, names, i as int),
                ),
                before.wf() ==> tx@.wf(),
            decreases rankings.len() - i,
        {
            match resolve_ranking(&candidates, poll_id, ballot_id, rankings, i) {
                Err(e) => {
                    proof {
                        assert(bad(i as int));
                        lemma_first_index_is(names.len() as int, bad, i as int);
                    }
                    return Err(e);
                },
                Ok(row) => {
                    assert(!bad(i as int));
                    tx.insert_ranking(poll_id, &row);
                    assert(tx@.rankings =~= before.rankings + ranking_rows(
                        known,
                        poll_id@,
                        ballot_id@,
                        names,
                        i as int + 1,
                    ));
                },
            }
            i += 1;
        }
        proof {
            lemma_first_index_is(names.len() as int, bad, names.len() as int);
        }
        Ok(())
    }

    /// Casts a ballot at the moment `now`.
    ///
    /// A request that ranks a name twice is refused before the store is read.
    /// Otherwise the ballot row is created, or refreshed if it is the
    /// caller's own under the same name, and the ballot's ranking rows are
    /// replaced by those of the request. A refused request leaves the store
    /// as it was.
    pub fn put_ballot_at(
        &mut self,
        poll_id: &str,
        user_id: &Identity,
        ballot_id: &str,
        request: &PutBallotRequest,
        now: Timestamp,
    ) -> (result: Result<(), PutBallotError>)
        ensures
            match result {
                Ok(()) => put_ballot_fault(
                    old(self)@,
                    poll_id@,
                    ballot_of(ballot_id@, *user_id, *request, now),
                    views(request.rankings@),
                ).is_none() && final(self)@ == put_ballot_state(
                    old(self)@,
                    poll_id@,
                    ballot_of(ballot_id@, *user_id, *request, now),
                    views(request.rankings@),
                ),
                Err(e) => put_ballot_fault(
                    old(self)@,
                    poll_id@,
                    ballot_of(ballot_id@, *user_id, *request, now),
                    views(request.rankings@),
                ) == Some(e@) && final(self)@ == old(self)@,
            },
            final(self)@.wf(),
            old(self)@.rankings_consistent() ==> final(self)@.rankings_consistent(),
    {
        proof {
            use_type_invariant(&self.db);
        }
        match first_duplicate(&request.rankings) {
            Some(duplicate) => {
                return Err(PutBallotError::DuplicateRanking(duplicate));
            },
            None => {},
        }
        let mut tx = self.db.new_transaction();
        match poll_to_vote_in(tx.select_poll(poll_id)) {
            Err(e) => {
                return Err(e);
            },
            Ok(_) => {},
        }
        let previous_row = tx.select_ballot(poll_id, ballot_id);
        let ballot = new_ballot_row(ballot_id, user_id, request, now);
        assert(ballot@ == ballot_of(ballot_id@, *user_id, *request, now));
        match decide_ballot_write(&previous_row, &ballot) {
            Err(e) => {
                return Err(e);
            },
            Ok(BallotWrite::Create) => {
                match tx.insert_ballot(poll_id, &ballot) {
                    Err(_) => {
                        return Err(PutBallotError::Unexpected);
                    },
                    Ok(()) => {},
                }
            },
            Ok(BallotWrite::Refresh) => {
                tx.update_ballot(poll_id, &ballot);
            },
        }
        tx.delete_rankings(poll_id, ballot_id);
        match self.insert_rankings(&mut tx, poll_id, ballot_id, &request.rankings) {
            Err(e) => {
                return Err(e);
            },
            Ok(()) => {},
        }
        proof {
            if old(self)@.rankings_consistent() {
                put_ballot_keeps_rankings_consistent(
                    old(self)@,
                    poll_id@,
                    ballot@,
                    views(request.rankings@),
                );
            }
        }
        tx.commit(&mut self.db);
        Ok(())
    }

    /// Casts a ballot now: [`Self::put_ballot_at`] at the moment that the
    /// clock shows.
    pub fn put_ballot(
        &mut self,
        poll_id: &str,
        user_id: &Identity,
        ballot_id: &str,
        request: &PutBallotRequest,
    ) -> (result: Result<(), PutBallotError>)
        ensures
            exists|now: Timestamp|
                match result {
                    Ok(()) => put_ballot_fault(
                        old(self)@,
                        poll_id@,
                        #[trigger] ballot_of(ballot_id@, *user_id, *request, now),
                        views(request.rankings@),
                    ).is_none() && final(self)@ == put_ballot_state(
                        old(self)@,
                        poll_id@,
                        ballot_of(ballot_id@, *user_id, *request, now),
                        views(request.rankings@),
                    ),
                    Err(e) => put_ballot_fault(
                        old(self)@,
                        poll_id@,
                        ballot_of(ballot_id@, *user_id, *request, now),
                        views(request.rankings@),
                    ) == Some(e@) && final(self)@ == old(self)@,
                },
            final(self)@.wf(),
            old(self)@.rankings_consistent() ==> final(self)@.rankings_consistent(),
    {
        proof {
            use_type_invariant(&self.db);
        }
        let now = current_time();
        let result = self.put_ballot_at(poll_id, user_id, ballot_id, request, now);
        assert(ballot_of(ballot_id@, *user_id, *request, now).timestamp == now);
        result
    }
}

} // verus!
